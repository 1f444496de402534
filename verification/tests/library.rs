use prime_power_search::big::Big;
use prime_power_search::cache::cache_bound_mismatch;
use prime_power_search::cache::cache_round_trip;
use prime_power_search::cache::decode_cache;
use prime_power_search::cache::encode_cache;
use prime_power_search::primes::generate_primes_up_to;
use prime_power_search::primes::is_prime_u64;
use prime_power_search::search::derive_guess;
use prime_power_search::search::BestMatch;
use prime_power_search::search::FoundFlag;
use prime_power_search::search::max_exponent;
use prime_power_search::search::GuessState;
use prime_power_search::search::SearchEngine;
use prime_power_search::search::SearchOutcome;

/// Reference sieve of Eratosthenes for cross-checking the generator.
fn sieve(n: u64) -> Vec<u64> {
    if n < 2 {
        return Vec::new();
    }
    let mut composite = vec![false; (n + 1) as usize];
    let mut out = Vec::new();
    for p in 2..=n {
        if !composite[p as usize] {
            out.push(p);
            let mut m = p * p;
            while m <= n {
                composite[m as usize] = true;
                m += p;
            }
        }
    }
    out
}

#[test]
fn primes_match_reference_sieve() {
    for n in [0u64, 1, 2, 3, 4, 10, 97, 100, 1000, 10000] {
        assert_eq!(generate_primes_up_to(n), sieve(n), "bound {}", n);
    }
}

#[test]
fn primes_start_with_two_and_ascend() {
    let primes = generate_primes_up_to(100);
    assert_eq!(primes[0], 2);
    for w in primes.windows(2) {
        assert!(w[0] < w[1]);
    }
    for &p in &primes {
        assert!(p <= 100);
        assert!(is_prime_u64(p));
    }
}

#[test]
fn primality_spot_checks() {
    assert!(!is_prime_u64(0));
    assert!(!is_prime_u64(1));
    assert!(is_prime_u64(2));
    assert!(is_prime_u64(3));
    assert!(!is_prime_u64(4));
    assert!(is_prime_u64(97));
    assert!(!is_prime_u64(91));
    assert!(is_prime_u64(7919));
    assert!(!is_prime_u64(7917));
}

#[test]
fn cache_round_trip_identical() {
    let primes = generate_primes_up_to(100);
    let text = encode_cache(100, &primes);
    let reloaded = decode_cache(100, text.as_str()).expect("cache should reload");
    assert_eq!(reloaded, primes);
}

#[test]
fn cache_round_trip_law() {
    let primes = generate_primes_up_to(50);
    assert_eq!(cache_round_trip(50, &primes), Some(primes));
}

#[test]
fn cache_round_trip_empty_sequence() {
    let primes: Vec<u64> = Vec::new();
    assert_eq!(cache_round_trip(1, &primes), Some(Vec::new()));
}

#[test]
fn stale_cache_is_rejected() {
    let primes = generate_primes_up_to(100);
    let text = encode_cache(100, &primes);
    assert_eq!(decode_cache(10, text.as_str()), None);
    assert_eq!(cache_bound_mismatch(100, 10, &primes), None);
}

#[test]
fn garbage_cache_is_rejected() {
    assert_eq!(decode_cache(10, "not json"), None);
    assert_eq!(decode_cache(10, "[]"), None);
    assert_eq!(decode_cache(10, "[11,2,3]"), None);
}

#[test]
fn product_of_all_zero_guess_is_one() {
    let primes = generate_primes_up_to(30);
    let guess = GuessState::new_zero(&primes);
    let product = guess.compute_product();
    assert_eq!(product.to_u64(), Some(1));
}

#[test]
fn product_of_single_entry() {
    let guess = GuessState { primes: vec![2], exps: vec![3] };
    assert_eq!(guess.compute_product().to_u64(), Some(8));
}

#[test]
fn distance_is_symmetric() {
    let a = Big::from_u64(123456789);
    let b = Big::from_u64(987654321);
    assert!(a.distance(&b).equals(&b.distance(&a)));
    assert_eq!(a.distance(&b).to_u64(), Some(987654321 - 123456789));
    assert_eq!(a.distance(&a).to_u64(), Some(0));
}

#[test]
fn big_arithmetic_spot_checks() {
    let a = Big::from_u64(0xffff_ffff_ffff_ffff);
    let b = Big::from_u64(2);
    let product = a.mul(&b);
    assert_eq!(product.to_u64(), None);
    assert!(Big::from_u64(17).sqrt().equals(&Big::from_u64(4)));
    assert_eq!(Big::pow(2, 10).to_u64(), Some(1024));
    assert_eq!(Big::pow(7, 0).to_u64(), Some(1));
    assert_eq!(Big::from_u64(0).to_u64(), Some(0));
}

#[test]
fn from_bytes_reads_big_endian() {
    assert_eq!(Big::from_bytes_be(&vec![]).to_u64(), Some(0));
    assert_eq!(Big::from_bytes_be(&vec![1, 0]).to_u64(), Some(256));
    assert_eq!(Big::from_bytes_be(&vec![0x12, 0x34, 0x56]).to_u64(), Some(0x123456));
}

#[test]
fn sqrt_bound_fits_machine_word() {
    let t = Big::from_u64(625000);
    assert_eq!(t.sqrt_to_u64(), Some(790));
    assert_eq!(Big::from_u64(101).sqrt_to_u64(), Some(10));
}

#[test]
fn max_exponent_spot_checks() {
    let t = Big::from_u64(12);
    assert_eq!(max_exponent(2, &t), 3);
    assert_eq!(max_exponent(3, &t), 2);
    assert_eq!(max_exponent(13, &t), 0);
}

#[test]
fn derive_guess_walks_mixed_radix_digits() {
    let radices = vec![4, 3];
    assert_eq!(derive_guess(0, &radices), vec![0, 0]);
    assert_eq!(derive_guess(1, &radices), vec![1, 0]);
    assert_eq!(derive_guess(6, &radices), vec![2, 1]);
    assert_eq!(derive_guess(11, &radices), vec![3, 2]);
}

fn exponent_for(guess: &GuessState, prime: u64) -> u64 {
    for (p, e) in guess.primes.iter().zip(guess.exps.iter()) {
        if *p == prime {
            return *e;
        }
    }
    panic!("prime {} not among candidates", prime);
}

#[test]
fn search_finds_exact_factorization_of_twelve() {
    let target = Big::from_u64(12);
    let engine = SearchEngine::new(target, vec![2, 3]);
    match engine.run(100) {
        SearchOutcome::Exact { guess } => {
            assert_eq!(exponent_for(&guess, 2), 2);
            assert_eq!(exponent_for(&guess, 3), 1);
            assert_eq!(guess.compute_product().to_u64(), Some(12));
        }
        SearchOutcome::Approx { .. } => panic!("12 = 2^2 * 3 should be found exactly"),
    }
}

#[test]
fn search_finds_known_unique_factorization() {
    // 625000 = 2^3 * 5^7, with every candidate prime up to the square root.
    let target = Big::from_u64(625000);
    let bound = target.sqrt_to_u64().expect("bound fits");
    let primes = generate_primes_up_to(bound);
    let engine = SearchEngine::new(target, primes);
    match engine.run(5000) {
        SearchOutcome::Exact { guess } => {
            for (p, e) in guess.primes.iter().zip(guess.exps.iter()) {
                match *p {
                    2 => assert_eq!(*e, 3),
                    5 => assert_eq!(*e, 7),
                    _ => assert_eq!(*e, 0),
                }
            }
        }
        SearchOutcome::Approx { .. } => panic!("625000 = 2^3 * 5^7 should be found exactly"),
    }
}

#[test]
fn search_on_prime_target_reports_approximation() {
    // 101 is prime, so no product over primes up to its square root hits it.
    let target = Big::from_u64(101);
    let bound = target.sqrt_to_u64().expect("bound fits");
    let primes = generate_primes_up_to(bound);
    assert_eq!(primes, vec![2, 3, 5, 7]);
    let engine = SearchEngine::new(target, primes);
    match engine.run(400) {
        SearchOutcome::Exact { .. } => panic!("a prime target must never report an exact match"),
        SearchOutcome::Approx { distance, guess } => {
            // 100 = 2^2 * 5^2 is one away; the best distance over a full
            // enumeration of the bounded assignments is 1.
            assert_eq!(distance.to_u64(), Some(1));
            assert_eq!(guess.compute_product().to_u64(), Some(100));
        }
    }
}

#[test]
fn best_distance_never_increases_with_more_trials() {
    let primes = generate_primes_up_to(10);
    let mut last: Option<u64> = None;
    for trials in [1u64, 5, 20, 80, 400] {
        let engine = SearchEngine::new(Big::from_u64(101), primes.clone());
        match engine.run(trials) {
            SearchOutcome::Exact { .. } => panic!("prime target cannot match exactly"),
            SearchOutcome::Approx { distance, .. } => {
                let d = distance.to_u64().expect("small distance");
                if let Some(prev) = last {
                    assert!(d <= prev);
                }
                last = Some(d);
            }
        }
    }
}

#[test]
fn best_match_updates_only_on_strictly_smaller_distance() {
    let primes = vec![2, 3];
    let mut best = BestMatch::init(&primes);
    assert_eq!(best.distance.to_u64(), Some(u64::MAX));
    let g1 = GuessState { primes: vec![2, 3], exps: vec![1, 0] };
    assert!(best.consider(Big::from_u64(10), g1));
    assert_eq!(best.distance.to_u64(), Some(10));
    let g2 = GuessState { primes: vec![2, 3], exps: vec![0, 1] };
    assert!(!best.consider(Big::from_u64(10), g2));
    assert_eq!(best.distance.to_u64(), Some(10));
    assert_eq!(best.guess.exps, vec![1, 0]);
    let g3 = GuessState { primes: vec![2, 3], exps: vec![2, 0] };
    assert!(!best.consider(Big::from_u64(11), g3));
    assert_eq!(best.distance.to_u64(), Some(10));
    let g4 = GuessState { primes: vec![2, 3], exps: vec![0, 2] };
    assert!(best.consider(Big::from_u64(3), g4));
    assert_eq!(best.distance.to_u64(), Some(3));
    assert_eq!(best.guess.exps, vec![0, 2]);
}

#[test]
fn found_flag_is_one_way() {
    let mut flag = FoundFlag::new();
    assert!(!flag.is_found());
    flag.mark_found();
    assert!(flag.is_found());
    flag.mark_found();
    assert!(flag.is_found());
}
