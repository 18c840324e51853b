use num_bigint::{BigUint, RandBigInt};
use num_prime::nt_funcs::is_prime;
use num_traits::{One, ToPrimitive, Zero};
use rand::Rng;
use rubato::breeze_share_dealer::{CommonReferenceString, PQCrs, Shares};
use rubato::crypto::PublicKey;
use rubato::types_and_const::{Id, ZqMod};

fn print_parameters(n: usize, r: usize, ell: usize, kappa: usize, g: usize) {
    println!("Parameters:");
    println!("  n: {}", n);
    println!("  kappa: {}", kappa);
    println!("  r: {}", r);
    println!("  ell: {}", ell);
    println!("  g: {}", g);
    println!("  batch_size: {}", n * kappa / g);
    println!("---------------------------------------");
}

// The dealing with these parameters is run once per committee size, each in
// a test of its own, so that each stays short.
#[test]
fn eval_performance() {
    let (n, r, ell, kappa, g) = (32, 4, 1, 32, 4);
    print_parameters(n, r, ell, kappa, g);
    println!("Running test_share with nodes = {}", 4);
    test_share(n, r, ell, kappa, g, 4);
    println!("---------------------------------------");
}

#[test]
fn eval_performance_with_ten_nodes() {
    let (n, r, ell, kappa, g) = (32, 4, 1, 32, 4);
    print_parameters(n, r, ell, kappa, g);
    println!("Running test_share with nodes = {}", 10);
    test_share(n, r, ell, kappa, g, 10);
    println!("---------------------------------------");
}

fn test_share(n: usize, r: usize, ell: usize, kappa: usize, g: usize, nodes: usize) {
    let beacon_per_epoch = n * kappa / g;
    let batch_size = (n * kappa) / 4;
    let q: ZqMod;
    if let Some(m) = generate_large_prime(32).to_u64() {
        q = m as ZqMod;
    } else {
        return;
    }
    let log_q = (q as f64).log2().ceil() as usize;
    let m = r * n * log_q;
    let crs = generate_crs_test(n, kappa, m, q, log_q, r, ell);
    let ids = generate_ids(nodes);
    let shares = Shares::new(batch_size, 1, ids, 1, &crs);
    // one share per party; the commitment is the same for every party, and
    // every party's evaluation proof has one unit per level
    assert_eq!((shares.0).0.len(), nodes);
    let first = &(shares.0).0[0].0;
    assert!(!first.t.is_empty());
    assert_eq!(first.eval_proof.len(), ell + 1);
    for share in (shares.0).0.iter() {
        assert_eq!(share.0.t, first.t);
        assert_eq!(share.0.eval_proof.len(), first.eval_proof.len());
        for (y, v) in share.0.eval_proof.iter() {
            assert!(!y.is_empty() && !v.is_empty());
        }
    }
    let mut size_mb_proof = 0.0;
    let mut size_mb_t = 0.0;
    for share in (shares.0).0.iter() {
        let proof = &share.0.eval_proof;
        let t = &share.0.t;
        size_mb_proof += calculate_proof_size_kb(proof);
        size_mb_t += calculate_t_size_kb(t);
    }
    size_mb_proof = size_mb_proof / (shares.0).0.len() as f64;
    println!("Commitment size: {:.3} KB", size_mb_t);
    println!("Commitment size per beacon: {:.3} KB", size_mb_t / beacon_per_epoch as f64);
    println!("Proof size: {:.3} KB", size_mb_proof);
    println!("Proof size per beacon: {:.3} KB", size_mb_proof / beacon_per_epoch as f64);
}

fn calculate_proof_size_kb(proof: &[(Vec<ZqMod>, Vec<ZqMod>)]) -> f64 {
    let proof_vec_metadata = std::mem::size_of::<Vec<(Vec<ZqMod>, Vec<ZqMod>)>>();
    let total_heap_size: usize = proof.iter().fold(0, |acc, (vec1, vec2)| {
        let vec_metadata_size = 2 * std::mem::size_of::<Vec<ZqMod>>();
        let data_size = (vec1.len() + vec2.len()) * std::mem::size_of::<ZqMod>();
        acc + vec_metadata_size + data_size
    });
    let total_size_bytes = proof_vec_metadata + total_heap_size;
    total_size_bytes as f64 / 1_024.0
}

fn calculate_t_size_kb(t: &Vec<ZqMod>) -> f64 {
    let vec_metadata_size = std::mem::size_of::<Vec<ZqMod>>();
    let data_size = t.len() * std::mem::size_of::<ZqMod>();
    let total_size_bytes = vec_metadata_size + data_size;
    total_size_bytes as f64 / 1_024.0
}

fn generate_crs_test(n: usize, kappa: usize, m: usize, q: ZqMod, log_q: usize, r: usize, ell: usize) -> PQCrs {
    let mut rng = rand::thread_rng();
    let a = (0..n)
        .map(|_| (0..m).map(|_| rng.gen_range(0..q)).collect::<Vec<ZqMod>>())
        .collect::<Vec<Vec<ZqMod>>>();
    let nrows = a.len();
    assert!(nrows > 0, "Matrix must have at least one row");
    let ncols = a[0].len();
    assert!(ncols > 0, "Matrix must have at least one column");
    assert!(a.iter().all(|row| row.len() == ncols), "All rows must have the same length");
    PQCrs::from(&CommonReferenceString { a, q, log_q, g: 4, n, kappa, r, ell })
}

fn generate_large_prime(n: u32) -> BigUint {
    let mut rng = rand::thread_rng();

    // the candidates lie in [2^(n-1), 2^n + 2^(n/2)]
    let lower_bound = BigUint::one() << (n - 1);
    let upper_bound = (BigUint::one() << n) + (BigUint::one() << (n / 2));

    loop {
        let range = &upper_bound - &lower_bound;
        let random_offset: BigUint = rng.gen_biguint_range(&BigUint::zero(), &range);
        let candidate = &lower_bound + random_offset;

        // an even candidate is moved to the next odd number
        let is_even = (&candidate & BigUint::one()).is_zero();
        let candidate = if is_even { candidate + BigUint::one() } else { candidate };

        if is_prime(&candidate, None).probably() {
            return candidate;
        }
    }
}

fn generate_ids(n: usize) -> Vec<(PublicKey, Id)> {
    let mut ids = Vec::new();
    for id in 0..n {
        let pk = PublicKey::new_random_test();
        ids.push((pk, id));
    }
    ids
}
