//! The share phase of a dealer: for an epoch, deal a fresh batch to the
//! committee, remember the dealer's digest for the epoch, and send each
//! party its share and every party the Merkle roots.

use vstd::prelude::*;
use vstd::arithmetic::power::pow;
use crate::breeze_share_dealer::{PQCrs, Shares, crs_deal_ok, dealt_f, polys_ok, shares_dealt};
use crate::config::Committee;
use crate::crypto::{Digest, PublicKey};
use crate::model::{BreezeContent, BreezeMessage, MerkleRoots, share_view};
use crate::polynomial::Polynomial;
use crate::types_and_const::{Epoch, Id};

verus! {

/// What a dealing gives: each party's share message (with the party's
/// key), the dealer's digest and the message of Merkle roots.
pub struct Dealing {
    pub share_messages: Vec<(PublicKey, BreezeMessage)>,
    pub digest: Digest,
    pub roots_message: BreezeMessage,
}

/// The share phase of one dealer.
pub struct BreezeShare {
    pub node_id: (PublicKey, Id),
    pub committee: Committee,
    pub crs: PQCrs,
    pub batch_size: usize,
}

/// The committee's keys with their ids `1..=n`.
pub open spec fn committee_ids(c: Committee) -> Seq<(PublicKey, Id)> {
    Seq::new(c.authorities@.len(), |i: int| (c.authorities@[i].0, (i + 1) as Id))
}

/// The dealing is a batch dealt to the committee for the epoch: the share
/// messages carry copies of the dealt shares, in committee order, the
/// digest is that of the shares and the roots are theirs.
pub open spec fn dealing_of(s: BreezeShare, epoch: Epoch, d: Dealing) -> bool {
    exists|polys: Seq<Polynomial>, dealt: Seq<(crate::model::Share, PublicKey)>, roots: Seq<Digest>|
        {
            &&& polys.len() == s.batch_size * s.crs.g
            &&& polys_ok(polys, &s.crs)
            &&& polys[0].coeffs().len() == (s.committee.authorities@.len() - 1) / 3 + 1
            &&& shares_dealt(dealt, roots, dealt_f(polys, &s.crs), &s.crs, committee_ids(s.committee), epoch)
            &&& d.share_messages@.len() == dealt.len()
            &&& forall|k: int|
                0 <= k < dealt.len() ==> {
                    &&& (#[trigger] d.share_messages@[k]).0 == dealt[k].1
                    &&& d.share_messages@[k].1.sender == s.node_id.0
                    &&& d.share_messages@[k].1.content matches BreezeContent::Share(sh) && share_view(sh)
                        == share_view(dealt[k].0)
                }
            &&& d.digest == dealt[0].0.c
            &&& d.roots_message.sender == s.node_id.0
            &&& d.roots_message.content matches BreezeContent::Merkle(mr) && mr.epoch == epoch && mr.roots@
                == roots
        }
}

impl BreezeShare {
    /// A share phase for the dealer with this key and id.
    pub fn new(node_id: (PublicKey, Id), committee: Committee, crs: PQCrs, batch_size: usize) -> (s: Self)
        ensures
            s.node_id == node_id,
            s.committee == committee,
            s.crs == crs,
            s.batch_size == batch_size,
    {
        BreezeShare { node_id, committee, crs, batch_size }
    }

    /// Deals a fresh batch for the epoch to the committee, with degree
    /// `f` polynomials.
    pub fn deal(&self, epoch: Epoch) -> (d: Dealing)
        requires
            crs_deal_ok(&self.crs),
            self.batch_size * self.crs.g <= self.crs.kappa * self.crs.n,
            self.batch_size * self.crs.g >= 1,
            (self.committee.authorities@.len() - 1) / 3 + 1 <= pow(self.crs.r as int, (self.crs.ell + 1) as nat),
            self.committee.authorities@.len() > 0,
        ensures
            dealing_of(*self, epoch, d),
    {
        let ids = self.committee.get_all_ids();
        let fault_tolerance = self.committee.authorities_fault_tolerance();
        proof {
            assert(ids@ =~= committee_ids(self.committee));
        }
        let (shares, roots) = Shares::new(self.batch_size, epoch, ids, fault_tolerance, &self.crs);
        let ghost polys = choose|polys: Seq<Polynomial>|
            {
                &&& polys.len() == self.batch_size * self.crs.g
                &&& polys_ok(polys, &self.crs)
                &&& polys[0].coeffs().len() == fault_tolerance + 1
                &&& shares_dealt(shares.0@, roots@, dealt_f(polys, &self.crs), &self.crs, committee_ids(self.committee), epoch)
            };
        let list = shares.get_shares_ref();
        let c = *shares.get_c_ref();
        let mut msgs: Vec<(PublicKey, BreezeMessage)> = Vec::new();
        let mut k: usize = 0;
        while k < list.len()
            invariant
                k <= list@.len(),
                msgs@.len() == k,
                forall|x: int|
                    0 <= x < k ==> {
                        &&& (#[trigger] msgs@[x]).0 == list@[x].1
                        &&& msgs@[x].1.sender == self.node_id.0
                        &&& msgs@[x].1.content matches BreezeContent::Share(sh) && share_view(sh) == share_view(list@[x].0)
                    },
            decreases list.len() - k,
        {
            let sh = list[k].0.duplicate();
            let m = BreezeMessage::new_share_message(self.node_id.0, sh);
            msgs.push((list[k].1, m));
            k = k + 1;
        }
        let roots_message = BreezeMessage::new_merkle_message(self.node_id.0, roots, epoch);
        let d = Dealing { share_messages: msgs, digest: c, roots_message };
        proof {
            assert(dealing_of(*self, epoch, d)) by {
                let dealt = shares.0@;
                let rts = roots@;
                assert(d.roots_message.content matches BreezeContent::Merkle(mr) && mr.roots@ == rts);
            }
        }
        d
    }
}

} // verus!
