use compactor::fuzzer::run_compactor;
use compactor::generate::{sources_from_draws, KeyDraw};
use compactor::oracle::naive_compact;
use rand::rngs::StdRng;
use rand::{Rng, SeedableRng};

fn key(user_key: &str, seq: u64, ty: u8) -> Vec<u8> {
    let mut k = user_key.as_bytes().to_vec();
    let packed = (seq << 8) | ty as u64;
    k.extend_from_slice(&packed.to_le_bytes());
    k
}

/// One to three versions of a key, each for a random source; the newest is a
/// tombstone now and then.
fn draw_key(rng: &mut StdRng, num_sources: usize) -> KeyDraw {
    let versions = rng.gen_range(1..=3i32);
    let mut newest_is_tombstone = false;
    let mut sources = Vec::new();
    for v in 0..versions {
        if v == 0 {
            newest_is_tombstone = rng.gen_bool(0.1);
        }
        sources.push(rng.gen_range(0..num_sources));
    }
    KeyDraw {
        newest_is_tombstone,
        sources,
    }
}

#[test]
fn compactor_matches_oracle_across_random_inputs() {
    let mut rng = StdRng::seed_from_u64(42);

    for trial in 0..100 {
        let num_sources = rng.gen_range(1..=12);
        let num_keys = rng.gen_range(0..=200);
        let draws: Vec<KeyDraw> = (0..num_keys)
            .map(|_| draw_key(&mut rng, num_sources))
            .collect();
        let per_source = sources_from_draws(num_sources, &draws);

        let compactor_out = run_compactor(&per_source);
        let oracle_out = naive_compact(&per_source);

        assert_eq!(
            compactor_out, oracle_out,
            "trial {}: compactor diverged from oracle (num_sources={}, num_keys={})",
            trial, num_sources, num_keys
        );
    }
}

#[test]
fn keeps_newest_drops_tombstone_winner() {
    let sources = vec![
        vec![
            (key("a", 1, 1), b"old_a".to_vec()),
            (key("b", 1, 1), b"only_b".to_vec()),
        ],
        vec![
            (key("a", 5, 1), b"new_a".to_vec()),
            (key("b", 5, 0), b"".to_vec()),
        ],
    ];
    let out = naive_compact(&sources);
    assert_eq!(out, vec![(b"a".to_vec(), b"new_a".to_vec())]);
}
