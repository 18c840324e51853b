//! Verified core of a randomness beacon built on batched asynchronous
//! verifiable secret sharing, together with the round/epoch bookkeeping
//! used by the DAG-based consensus that consumes the beacon.

use vstd::prelude::*;

pub mod types_and_const;
pub mod scale_type;
pub mod zq_int;
pub mod zq_matrix;
pub mod calculation;
pub mod polynomial;
pub mod merkletree;
pub mod breeze_share_dealer;
pub mod hashing;
pub mod breeze_reconstruct_dealer;
pub mod utils;
pub mod crypto;
pub mod config;
pub mod model;
pub mod assoc;
pub mod coordinator;
pub mod beacon_hub;
pub mod breeze_confirm;
pub mod breeze_reply;
pub mod init_bft;
pub mod breeze_result;
pub mod breeze_reconstruct;
pub mod breeze_share;
pub mod batch_eval;
pub mod dag;
pub mod virtual_state;
pub mod tusk;
pub mod proposer;
pub mod interpolation;

verus! {

} // verus!
pub mod classic;
pub mod classic_result;
