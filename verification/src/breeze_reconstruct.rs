//! The reconstruction request of a party: for a requested slot, it hands
//! the request on to its own reconstruction and sends every party its
//! evaluations of the slot from the requested dealers' shares it keeps.

use vstd::prelude::*;
use crate::breeze_result::{Request, SingleView, digest_views, holds_digest, single_view};
use crate::crypto::{Digest, PublicKey};
use crate::model::{BreezeContent, BreezeMessage, BreezeReconRequest, ReconstructShare, Share, SingleShare};
use crate::types_and_const::{Epoch, Id, ZqMod};

verus! {

/// What this party sends of the kept share `x` for slot index `i`: the
/// `g` evaluations of the slot and their Merkle proofs, under its own id.
pub open spec fn sent_secret(x: (Epoch, PublicKey, Share), my_id: Id, i: usize, g: usize) -> SingleView {
    let from = (i - 1) * g;
    (
        x.1@,
        x.2.c.0@,
        x.2.y_k@.subrange(from, from + g),
        my_id,
        x.2.merkle_proofs@.subrange(from, from + g).map_values(|p: Vec<u8>| p@),
        x.2.total_party_num,
    )
}

/// The kept share is of epoch `e` from a requested dealer.
pub open spec fn share_requested(x: (Epoch, PublicKey, Share), c: Seq<Seq<u8>>, e: Epoch) -> bool {
    x.0 == e && c.contains(x.2.c.0@)
}

/// What is sent of the first `len` kept shares, in order.
pub open spec fn secrets_for(valid: Seq<(Epoch, PublicKey, Share)>, c: Seq<Seq<u8>>, e: Epoch, i: usize, my_id: Id, g: usize, len: int) -> Seq<SingleView>
    decreases len,
{
    if len <= 0 {
        Seq::empty()
    } else {
        let prev = secrets_for(valid, c, e, i, my_id, g, len - 1);
        if share_requested(valid[len - 1], c, e) {
            prev.push(sent_secret(valid[len - 1], my_id, i, g))
        } else {
            prev
        }
    }
}

/// Some share of epoch `e` is kept.
pub open spec fn epoch_held(valid: Seq<(Epoch, PublicKey, Share)>, e: Epoch) -> bool {
    exists|j: int| 0 <= j < valid.len() && (#[trigger] valid[j]).0 == e
}

/// The slot lies within every requested share.
pub open spec fn slot_within(valid: Seq<(Epoch, PublicKey, Share)>, c: Seq<Seq<u8>>, e: Epoch, i: usize, g: usize) -> bool {
    forall|j: int|
        0 <= j < valid.len() && share_requested(#[trigger] valid[j], c, e) ==> {
            &&& i >= 1
            &&& (i - 1) * g + g <= valid[j].2.y_k@.len()
            &&& (i - 1) * g + g <= valid[j].2.merkle_proofs@.len()
        }
}

/// The reconstruction request handler of one party.
pub struct BreezeReconstruct {
    pub node_id: (PublicKey, Id),
    pub g: usize,
}

/// A copy of `v[from..to]`.
fn copy_residues(v: &Vec<ZqMod>, from: usize, to: usize) -> (r: Vec<ZqMod>)
    requires
        from <= to <= v@.len(),
    ensures
        r@ == v@.subrange(from as int, to as int),
{
    let mut r: Vec<ZqMod> = Vec::new();
    let mut k: usize = from;
    while k < to
        invariant
            from <= k <= to,
            to <= v@.len(),
            r@ == v@.subrange(from as int, k as int),
        decreases to - k,
    {
        r.push(v[k]);
        proof {
            assert(r@ =~= v@.subrange(from as int, k + 1));
        }
        k = k + 1;
    }
    r
}

/// Copies of the proofs `v[from..to]`.
fn copy_proofs(v: &Vec<Vec<u8>>, from: usize, to: usize) -> (r: Vec<Vec<u8>>)
    requires
        from <= to <= v@.len(),
    ensures
        r@.map_values(|p: Vec<u8>| p@) == v@.subrange(from as int, to as int).map_values(|p: Vec<u8>| p@),
{
    let mut r: Vec<Vec<u8>> = Vec::new();
    let mut k: usize = from;
    while k < to
        invariant
            from <= k <= to,
            to <= v@.len(),
            r@.len() == k - from,
            forall|x: int| 0 <= x < r@.len() ==> (#[trigger] r@[x])@ == v@[from + x]@,
        decreases to - k,
    {
        r.push(v[k].clone());
        k = k + 1;
    }
    proof {
        assert(r@.map_values(|p: Vec<u8>| p@) =~= v@.subrange(from as int, to as int).map_values(|p: Vec<u8>| p@));
    }
    r
}

impl BreezeReconstruct {
    /// A handler for the party with this key and id, for slots of `g`
    /// evaluations.
    pub fn new(node_id: (PublicKey, Id), g: usize) -> (s: Self)
        ensures
            s.node_id == node_id,
            s.g == g,
    {
        BreezeReconstruct { node_id, g }
    }

    /// Handles a request: the request to hand on, and, when a share of the
    /// epoch is kept, the message with this party's evaluations of the slot
    /// from each requested dealer's share.
    pub fn handle(&self, request: BreezeReconRequest, valid: &Vec<(Epoch, PublicKey, Share)>) -> (r: (Request, Option<BreezeMessage>))
        requires
            slot_within(valid@, digest_views(request.c@), request.epoch, request.index, self.g),
        ensures
            r.0 == (request.c, request.epoch, request.index),
            r.1 is None <==> !epoch_held(valid@, request.epoch),
            r.1 matches Some(m) ==> {
                &&& m.sender == self.node_id.0
                &&& m.content matches BreezeContent::Reconstruct(rs)
                &&& rs.epoch == request.epoch
                &&& rs.index == request.index
                &&& rs.secrets@.map_values(|x: SingleShare| single_view(x)) == secrets_for(
                    valid@,
                    digest_views(request.c@),
                    request.epoch,
                    request.index,
                    self.node_id.1,
                    self.g,
                    valid@.len() as int,
                )
            },
    {
        let e = request.epoch;
        let i = request.index;
        let ghost cv = digest_views(request.c@);
        let mut held = false;
        let mut secrets: Vec<SingleShare> = Vec::new();
        let mut j: usize = 0;
        while j < valid.len()
            invariant
                j <= valid@.len(),
                cv == digest_views(request.c@),
                e == request.epoch,
                i == request.index,
                slot_within(valid@, cv, e, i, self.g),
                held == exists|k: int| 0 <= k < j && (#[trigger] valid@[k]).0 == e,
                secrets@.map_values(|x: SingleShare| single_view(x)) == secrets_for(valid@, cv, e, i, self.node_id.1, self.g, j as int),
            decreases valid.len() - j,
        {
            let x = &valid[j];
            if x.0 == e {
                held = true;
                if holds_digest(&request.c, &x.2.c) {
                    proof {
                        assert(share_requested(valid@[j as int], cv, e));
                    }
                    let ylen = x.2.y_k.len();
                    assert(i >= 1 && (i - 1) * self.g + self.g <= ylen);
                    let from = (i - 1) * self.g;
                    let to = from + self.g;
                    let y = copy_residues(&x.2.y_k, from, to);
                    let proofs = copy_proofs(&x.2.merkle_proofs, from, to);
                    let ghost before = secrets@;
                    secrets.push(SingleShare {
                        dealer: x.1,
                        c: x.2.c,
                        y,
                        merkle_proof: (self.node_id.1, proofs),
                        total_party_num: x.2.total_party_num,
                    });
                    proof {
                        assert(secrets@.map_values(|x: SingleShare| single_view(x)) =~= before.map_values(|x: SingleShare| single_view(x)).push(sent_secret(valid@[j as int], self.node_id.1, i, self.g)));
                    }
                } else {
                    proof {
                        assert(!share_requested(valid@[j as int], cv, e));
                    }
                }
            }
            j = j + 1;
        }
        let forward = (request.c, e, i);
        if held {
            let m = BreezeMessage::new_reconstruct_message(self.node_id.0, ReconstructShare::new(secrets, e, i));
            (forward, Some(m))
        } else {
            (forward, None)
        }
    }
}

} // verus!
