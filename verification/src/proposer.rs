//! The proposer's decisions: it gathers the parents of the next header,
//! the batches' digests, the consensus metadata and the beacon
//! certificates, and says when a header is to be made and with what.
//! Waiting on the channels and the timer, and signing and sending the
//! header, are done around it.

use vstd::prelude::*;
use std::collections::VecDeque;
use crate::crypto::{Digest, PublicKey};
use crate::dag::Metadata;
use crate::model::BreezeCertificate;
use crate::types_and_const::{Round, WorkerId};

verus! {

/// What the proposer has gathered for its next header.
pub struct Proposer {
    /// The public key of this primary.
    pub name: PublicKey,
    /// The size of the headers' payload.
    pub header_size: usize,
    /// The maximum delay to wait for batches' digests (milliseconds).
    pub max_header_delay: u64,
    /// The current round of the dag.
    pub round: Round,
    /// The certificates' ids waiting to be included in the next header.
    pub last_parents: Vec<Digest>,
    /// The batches' digests waiting to be included in the next header.
    pub digests: Vec<(Digest, WorkerId)>,
    /// The size (in bytes) of the batches' digests received so far.
    pub payload_size: usize,
    /// The metadata to include in the next headers (newest first).
    pub metadata: VecDeque<Metadata>,
    /// The beacon certificates waiting for a header (oldest first).
    pub breeze_cer_buffer: VecDeque<BreezeCertificate>,
}

/// What the proposer receives.
pub enum ProposerEvent {
    /// Parents of the next header, with their round, from the core.
    Parents(Vec<Digest>, Round),
    /// A batch's digest from one of our workers.
    Batch(Digest, WorkerId),
    /// Metadata from the consensus.
    Metadata(Metadata),
    /// A certificate from the beacon.
    Certificate(BreezeCertificate),
}

/// The contents of a new header, for the caller to sign and send.
pub struct HeaderContent {
    pub author: PublicKey,
    pub round: Round,
    pub payload: Vec<(Digest, WorkerId)>,
    pub parents: Vec<Digest>,
    pub metadata: Option<Metadata>,
    pub breeze_certificate: Option<BreezeCertificate>,
}

impl Proposer {
    /// A proposer at round 1 whose first header's parents are the genesis
    /// certificates' digests.
    pub fn new(name: PublicKey, header_size: usize, max_header_delay: u64, genesis: Vec<Digest>) -> (p: Proposer)
        ensures
            p.name == name,
            p.header_size == header_size,
            p.max_header_delay == max_header_delay,
            p.round == 1,
            p.last_parents@ == genesis@,
            p.digests@.len() == 0,
            p.payload_size == 0,
            p.metadata@.len() == 0,
            p.breeze_cer_buffer@.len() == 0,
    {
        Proposer {
            name,
            header_size,
            max_header_delay,
            round: 1,
            last_parents: genesis,
            digests: Vec::new(),
            payload_size: 0,
            metadata: VecDeque::new(),
            breeze_cer_buffer: VecDeque::new(),
        }
    }

    /// Whether a header is due: parents are waiting, metadata is waiting,
    /// and either the timer expired or the payload reached the header
    /// size.
    pub open spec fn spec_ready(&self, timer_expired: bool) -> bool {
        &&& timer_expired || self.payload_size >= self.header_size
        &&& self.last_parents@.len() > 0
        &&& self.metadata@.len() > 0
    }

    /// When a header is due, makes its contents (the gathered digests and
    /// parents, the oldest metadata and the oldest beacon certificate, at
    /// the current round) and starts gathering anew with an empty payload;
    /// otherwise changes nothing.
    pub fn try_propose(&mut self, timer_expired: bool) -> (h: Option<HeaderContent>)
        ensures
            h is Some <==> old(self).spec_ready(timer_expired),
            h is None ==> *final(self) == *old(self),
            h matches Some(hc) ==> {
                &&& hc.author == old(self).name
                &&& hc.round == old(self).round
                &&& hc.payload@ == old(self).digests@
                &&& hc.parents@ == old(self).last_parents@
                &&& hc.metadata == Some(old(self).metadata@.last())
                &&& final(self).metadata@ == old(self).metadata@.drop_last()
                &&& (old(self).breeze_cer_buffer@.len() > 0 ==> hc.breeze_certificate == Some(old(self).breeze_cer_buffer@[0])
                    && final(self).breeze_cer_buffer@ == old(self).breeze_cer_buffer@.drop_first())
                &&& (old(self).breeze_cer_buffer@.len() == 0 ==> hc.breeze_certificate is None
                    && final(self).breeze_cer_buffer@.len() == 0)
                &&& final(self).digests@.len() == 0
                &&& final(self).last_parents@.len() == 0
                &&& final(self).payload_size == 0
                &&& final(self).round == old(self).round
                &&& final(self).name == old(self).name
                &&& final(self).header_size == old(self).header_size
                &&& final(self).max_header_delay == old(self).max_header_delay
            },
    {
        let enough_parents = self.last_parents.len() > 0;
        let enough_digests = self.payload_size >= self.header_size;
        let metadata_ready = self.metadata.len() > 0;
        if !((timer_expired || enough_digests) && enough_parents && metadata_ready) {
            return None;
        }
        let mut payload: Vec<(Digest, WorkerId)> = Vec::new();
        std::mem::swap(&mut payload, &mut self.digests);
        let mut parents: Vec<Digest> = Vec::new();
        std::mem::swap(&mut parents, &mut self.last_parents);
        let metadata = self.metadata.pop_back();
        let breeze_certificate = self.breeze_cer_buffer.pop_front();
        self.payload_size = 0;
        Some(HeaderContent { author: self.name, round: self.round, payload, parents, metadata, breeze_certificate })
    }

    /// Takes in what the proposer receives: parents of a round not older
    /// than the current one move the proposer to the next round and replace
    /// the waiting parents; a batch's digest is added to the payload (32
    /// bytes); metadata goes first in line; a beacon certificate goes last
    /// in line.  The largest round and payload size, which would overflow, are
    /// ruled out.
    pub fn on_event(&mut self, event: ProposerEvent)
        requires
            event matches ProposerEvent::Parents(_, r) ==> r < u64::MAX,
            event is Batch ==> old(self).payload_size + 32 <= usize::MAX,
        ensures
            final(self).name == old(self).name,
            final(self).header_size == old(self).header_size,
            final(self).max_header_delay == old(self).max_header_delay,
            match event {
                ProposerEvent::Parents(parents, r) => if r < old(self).round {
                    *final(self) == *old(self)
                } else {
                    &&& final(self).round == r + 1
                    &&& final(self).last_parents@ == parents@
                    &&& final(self).digests == old(self).digests
                    &&& final(self).payload_size == old(self).payload_size
                    &&& final(self).metadata == old(self).metadata
                    &&& final(self).breeze_cer_buffer == old(self).breeze_cer_buffer
                },
                ProposerEvent::Batch(d, w) => {
                    &&& final(self).payload_size == old(self).payload_size + 32
                    &&& final(self).digests@ == old(self).digests@.push((d, w))
                    &&& final(self).round == old(self).round
                    &&& final(self).last_parents == old(self).last_parents
                    &&& final(self).metadata == old(self).metadata
                    &&& final(self).breeze_cer_buffer == old(self).breeze_cer_buffer
                },
                ProposerEvent::Metadata(m) => {
                    &&& final(self).metadata@ == seq![m] + old(self).metadata@
                    &&& final(self).round == old(self).round
                    &&& final(self).last_parents == old(self).last_parents
                    &&& final(self).digests == old(self).digests
                    &&& final(self).payload_size == old(self).payload_size
                    &&& final(self).breeze_cer_buffer == old(self).breeze_cer_buffer
                },
                ProposerEvent::Certificate(c) => {
                    &&& final(self).breeze_cer_buffer@ == old(self).breeze_cer_buffer@.push(c)
                    &&& final(self).round == old(self).round
                    &&& final(self).last_parents == old(self).last_parents
                    &&& final(self).digests == old(self).digests
                    &&& final(self).payload_size == old(self).payload_size
                    &&& final(self).metadata == old(self).metadata
                },
            },
    {
        match event {
            ProposerEvent::Parents(parents, round) => {
                if round < self.round {
                    return;
                }
                self.round = round + 1;
                self.last_parents = parents;
            },
            ProposerEvent::Batch(digest, worker_id) => {
                self.payload_size = self.payload_size + digest.size();
                self.digests.push((digest, worker_id));
            },
            ProposerEvent::Metadata(metadata) => {
                self.metadata.push_front(metadata);
            },
            ProposerEvent::Certificate(cer) => {
                self.breeze_cer_buffer.push_back(cer);
            },
        }
    }
}

} // verus!
