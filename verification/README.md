# rubato

A randomness beacon built on batched asynchronous verifiable secret
sharing, with the round bookkeeping of the DAG-based consensus that consumes
it.  The library under `src/` is written in Verus: its functions carry
contracts and are proved against them.  `app/` is the node program around
it (files, network, tasks), and `tests/` exercise the library.

Layout of `src/`:

- arithmetic over `Z_q`: `zq_int`, `zq_matrix`, `calculation` (lattice
  commitments and evaluation proofs), `polynomial`, `breeze_reconstruct_dealer`
  (Lagrange interpolation at zero), `interpolation` (why interpolation gives
  back the shared secret);
- the classic variant over the Ristretto group: its evaluation proofs
  (`batch_eval`), its dealing, share check, reply and reconstruction
  (`classic`), and its result phase (`classic_result`);
- hashing and Merkle trees: `hashing`, `merkletree`, `crypto`;
- configuration and messages: `types_and_const`, `config`, `model`, `assoc`;
- the phases of the beacon, each a state machine from event to action:
  `breeze_share_dealer`, `breeze_share`, `breeze_reply`, `breeze_confirm`,
  `breeze_reconstruct`, `breeze_result`, `init_bft`, `coordinator`,
  `beacon_hub`;
- the consensus side: `dag`, `virtual_state`, `tusk`, `proposer`.
