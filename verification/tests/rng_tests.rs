use undertale_ruins_analysis::rng::{bytes_contain, PrecomputedRNG, RNG};
use undertale_ruins_analysis::unique_seeds::unique_seed_key_of;

fn draws(rng: &mut RNG, n: usize) -> Vec<u32> {
    let mut v = Vec::new();
    for _ in 0..n {
        v.push(rng.next_u32());
    }
    v
}

#[test]
fn default_seeding_draws_known_values() {
    let mut rng = RNG::new(0, false, false, false);
    assert_eq!(draws(&mut rng, 5), vec![3473694700, 3873705934, 1301109006, 3997463045, 2359719656]);
    assert_eq!(rng.num_calls, 5);
    let mut rng = RNG::new(1024, false, false, false);
    assert_eq!(draws(&mut rng, 5), vec![3910029814, 2277357524, 2926791123, 127634319, 1844805410]);
}

#[test]
fn fifteen_bit_seeding_draws_known_values() {
    let mut rng = RNG::new(12345, true, false, false);
    assert_eq!(draws(&mut rng, 5), vec![3527472578, 1874148488, 3885052726, 1091570812, 4129870459]);
}

#[test]
fn signed_seeding_with_old_polynomial_draws_known_values() {
    let mut rng = RNG::new(0xdeadbeef, false, true, true);
    assert_eq!(draws(&mut rng, 5), vec![3046130610, 43008052, 3121668586, 3889526631, 3022018140]);
}

#[test]
fn default_seeding_of_a_large_seed_draws_known_values() {
    let mut rng = RNG::new(0xdeadbeef, false, false, false);
    assert_eq!(draws(&mut rng, 5), vec![1646901235, 2295633629, 3474305643, 2661043096, 2979665483]);
}

#[test]
fn equality_ignores_the_draw_counter() {
    let a = RNG::new(9, false, false, false);
    let mut b = RNG::new(20078, false, false, false);
    assert!(a == b);
    b.num_calls = 17;
    assert!(a == b);
    let mut c = a.clone();
    c.next_u32();
    assert!(a != c);
    assert!(RNG::new(9, false, false, false) != RNG::new(10, false, false, false));
}

#[test]
fn equal_generators_draw_equal_values() {
    let mut a = RNG::new(13, false, false, false);
    let mut b = RNG::new(20082, false, false, false);
    assert_eq!(draws(&mut a, 20), draws(&mut b, 20));
}

#[test]
fn advance_drops_draws() {
    let mut a = RNG::new(7, false, false, false);
    a.advance(3);
    assert_eq!(a.next_u32(), 3358077096);
    assert_eq!(a.num_calls, 4);
}

#[test]
fn action_move_draws_until_a_one_is_selected() {
    let cases: [(&str, usize, u32); 4] = [
        ("000000001", 5, 1407885186),
        ("000100000", 3, 3997463045),
        ("000010000", 2, 1301109006),
        ("000000000", 0, 3473694700),
    ];
    for (dir, calls, next) in cases {
        let mut rng = RNG::new(0, false, false, false);
        rng.action_move(dir);
        assert_eq!(rng.num_calls, calls);
        assert_eq!(rng.next_u32(), next);
    }
}

#[test]
fn unique_seeds_fifteen_bit() {
    let seeds = RNG::calculate_unique_seeds(true, false);
    assert_eq!(seeds.len(), 32768);
    assert_eq!(&seeds[..8], &[0, 1, 2, 3, 4, 5, 6, 7]);
    assert_eq!(&seeds[seeds.len() - 3..], &[50155, 50159, 50163]);
    assert!(!seeds.contains(&20078));
}

#[test]
fn unique_seeds_signed() {
    let seeds = RNG::calculate_unique_seeds(false, true);
    assert_eq!(seeds.len(), 65536);
    assert_eq!(&seeds[seeds.len() - 3..], &[80267, 80270, 80274]);
}

#[test]
fn unique_seeds_default() {
    let seeds = RNG::calculate_unique_seeds(false, false);
    assert_eq!(seeds.len(), 65536);
    assert_eq!(&seeds[..8], &[0, 1, 2, 3, 4, 5, 6, 7]);
    assert_eq!(&seeds[seeds.len() - 3..], &[80267, 80270, 80274]);
    assert!(!seeds.contains(&20078) && !seeds.contains(&20082) && !seeds.contains(&20097));
    for w in seeds.windows(2) {
        assert!(w[0] < w[1]);
    }
}

#[test]
fn unique_seeds_give_distinct_generators() {
    let seeds = RNG::calculate_unique_seeds(false, false);
    let first = RNG::new(seeds[0], false, false, false);
    for &s in &seeds[1..50] {
        assert!(RNG::new(s, false, false, false) != first);
    }
    // 20078 is left out because it seeds the same generator as 9
    assert!(RNG::new(20078, false, false, false) == RNG::new(9, false, false, false));
}

#[test]
fn precomputed_replays_the_generator() {
    let mut live = RNG::new(1024, false, false, false);
    let mut replay = PrecomputedRNG::new(1024, false, false, false, 50);
    for _ in 0..50 {
        assert_eq!(replay.next_u32(), live.next_u32());
    }
    assert_eq!(replay.ptr, 50);
}

#[test]
fn precomputed_action_move_consumes_like_the_generator() {
    for dir in ["000000001", "000100000", "000010000", "000000000"] {
        let mut live = RNG::new(0, false, false, false);
        let mut replay = PrecomputedRNG::new(0, false, false, false, 100);
        live.action_move(dir);
        replay.action_move(dir);
        assert_eq!(replay.ptr, live.num_calls);
        assert_eq!(replay.next_u32(), live.next_u32());
    }
}

#[test]
fn cloned_replay_keeps_its_own_position() {
    let mut a = PrecomputedRNG::new(7, false, false, false, 10);
    a.next_u32();
    let mut b = a.clone();
    assert_eq!(b.ptr, 1);
    assert_eq!(a.next_u32(), 4078689928);
    assert_eq!(b.next_u32(), 4078689928);
    assert_eq!(b.next_u32(), 3260624196);
    assert_eq!(a.ptr, 2);
}

#[test]
fn equal_streams_have_equal_fingerprints() {
    let a = RNG::new(28, false, false, false);
    let b = RNG::new(20097, false, false, false);
    assert!(a.same_stream(&b));
    assert_eq!(a.fingerprint(), b.fingerprint());
    let mut c = a.clone();
    c.next_u32();
    assert!(!a.same_stream(&c));
}

#[test]
fn byte_search() {
    assert!(bytes_contain(b"000100000", b'1'));
    assert!(!bytes_contain(b"000000000", b'1'));
    assert!(!bytes_contain(b"", b'1'));
}

#[test]
fn seed_keys_by_mode() {
    // 9 and 20078 share a key in every mode, 9 and 10 do not
    for (b15, sgn) in [(true, false), (false, true), (false, false)] {
        assert_eq!(unique_seed_key_of(b15, sgn, 9), unique_seed_key_of(b15, sgn, 20078));
        assert_ne!(unique_seed_key_of(b15, sgn, 9), unique_seed_key_of(b15, sgn, 10));
    }
    assert_eq!(unique_seed_key_of(false, false, 0), 0x26);
    assert_eq!(unique_seed_key_of(false, true, 0xdeadbeef), 0x7fffc7a1);
}

#[test]
fn k_replayed_values_are_k_drawn_values() {
    for k in [0usize, 1, 7, 30] {
        let mut p = PrecomputedRNG::new(12345, true, false, false, 30);
        let mut r = RNG::new(12345, true, false, false);
        for _ in 0..k {
            assert_eq!(p.next_u32(), r.next_u32());
        }
        assert_eq!(p.ptr, r.num_calls);
        assert_eq!(p.ptr, k);
    }
}

#[test]
fn movements_agree_after_equal_draws() {
    for m in 0..5usize {
        let mut p = PrecomputedRNG::new(1024, false, false, false, 200);
        let mut r = RNG::new(1024, false, false, false);
        for _ in 0..m {
            p.next_u32();
            r.next_u32();
        }
        p.action_move("000100000");
        r.action_move("000100000");
        assert_eq!(p.ptr, r.num_calls);
        assert_eq!(p.next_u32(), r.next_u32());
    }
}

#[test]
fn a_movement_stops_when_the_draw_counter_is_full() {
    let mut r = RNG::new(0, false, false, false);
    r.num_calls = usize::MAX - 2;
    // the first draws select no `1` of this direction
    let mut probe = RNG::new(0, false, false, false);
    let first = probe.next_u32() % 9;
    let second = probe.next_u32() % 9;
    let mut dir = *b"111111111";
    dir[first as usize] = b'0';
    dir[second as usize] = b'0';
    let dir = String::from_utf8(dir.to_vec()).unwrap();
    r.action_move(&dir);
    assert_eq!(r.num_calls, usize::MAX);
}

#[test]
fn setting_the_draw_counter_keeps_the_stream() {
    let mut a = RNG::new(31337, false, false, false);
    let mut b = a;
    b.set_num_calls(12345);
    assert_eq!(b.num_calls, 12345);
    assert!(a == b);
    for _ in 0..20 {
        assert_eq!(a.next_u32(), b.next_u32());
        assert!(a == b);
    }
    assert_eq!(a.num_calls, 20);
    assert_eq!(b.num_calls, 12365);
}

#[test]
fn replay_length_is_the_number_of_values() {
    let mut p = PrecomputedRNG::new(4, false, true, false, 3);
    assert_eq!(p.len(), 3);
    p.next_u32();
    p.next_u32();
    p.next_u32();
    assert_eq!(p.ptr, p.len());
}

#[test]
fn the_draw_counter_counts_draws() {
    let mut r = RNG::new(2, false, false, false);
    assert_eq!(r.num_calls(), 0);
    r.advance(7);
    assert_eq!(r.num_calls(), 7);
    r.set_num_calls(3);
    assert_eq!(r.num_calls(), 3);
    r.next_u32();
    assert_eq!(r.num_calls(), 4);
}
