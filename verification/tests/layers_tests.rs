use undertale_ruins_analysis::layers::{
    encounterskip_children, naming_screen_child, textbox_delay_children, zero_frame_children, NamingScreenWalk,
    TextboxWalk,
};
use undertale_ruins_analysis::rng::RNG;

fn advanced(rng: &RNG, n: usize) -> RNG {
    let mut r = rng.clone();
    r.advance(n);
    r
}

#[test]
fn textbox_delays_come_in_lexicographic_order() {
    let rng = RNG::new(1024, false, false, false);
    let children = textbox_delay_children(&[1, 2, 3], &rng, 2);
    let choices: Vec<Vec<usize>> = children.iter().map(|c| c.0.clone()).collect();
    assert_eq!(choices, vec![vec![0, 0], vec![0, 1], vec![0, 2], vec![1, 1], vec![1, 2], vec![2, 2]]);
    let calls = [2, 3, 4, 4, 5, 6];
    for (child, n) in children.iter().zip(calls) {
        assert!(child.1 == advanced(&rng, n));
        assert_eq!(child.1.num_calls, n);
    }
}

#[test]
fn no_delays_is_one_empty_choice() {
    let rng = RNG::new(3, false, false, false);
    let children = textbox_delay_children(&[84, 18], &rng, 0);
    assert_eq!(children.len(), 1);
    assert!(children[0].0.is_empty());
    assert!(children[0].1 == rng);
}

#[test]
fn enough_steps_skip_the_encounter_for_free() {
    let rng = RNG::new(7, false, false, false);
    let e = encounterskip_children(&rng, 20, 16);
    assert!(e.room == rng);
    assert_eq!(e.frames_lost, 0);
    assert!(e.alternative == advanced(&rng, 3));
    assert_eq!(e.alternative_cost, 5);
    let mut alt = e.alternative.clone();
    assert_eq!(alt.next_u32(), 3358077096);
}

#[test]
fn exactly_enough_steps_cost_one_extra_step() {
    let rng = RNG::new(7, false, false, false);
    let e = encounterskip_children(&rng, 16, 16);
    assert_eq!(e.frames_lost, 0);
    assert_eq!(e.alternative_cost, 1);
}

#[test]
fn too_few_steps_lose_frames() {
    let rng = RNG::new(7, false, false, false);
    let e = encounterskip_children(&rng, 10, 16);
    assert!(e.room == advanced(&rng, 3));
    assert_eq!(e.frames_lost, 5);
    assert!(e.alternative == rng);
    assert_eq!(e.alternative_cost, 6);
}

#[test]
fn naming_screen_delay_draws_104_per_frame() {
    let rng = RNG::new(7, false, false, false);
    let child = naming_screen_child(&rng, 3);
    assert_eq!(child.num_calls, 751 + 312);
    assert!(child == advanced(&rng, 751 + 312));
    assert!(naming_screen_child(&rng, 0) == advanced(&rng, 751));
}

#[test]
fn naming_screen_walk_goes_up_to_the_budget() {
    let rng = RNG::new(7, false, false, false);
    let mut walk = NamingScreenWalk::new(&rng, 2);
    for x in 0..=2u32 {
        let (child, cost) = walk.next_child().unwrap();
        assert_eq!(cost, x);
        assert!(child == naming_screen_child(&rng, x));
    }
    assert!(walk.next_child().is_none());
    assert!(walk.next_child().is_none());
}

#[test]
fn textbox_walk_goes_through_delay_counts_in_order() {
    let rng = RNG::new(1024, false, false, false);
    let mut walk = TextboxWalk::new(vec![1, 2], &rng, 10);
    let opened = advanced(&rng, 10);
    let expected: Vec<(Vec<usize>, usize, u32)> = vec![
        (vec![], 0, 0),
        (vec![0], 1, 1),
        (vec![1], 2, 1),
        (vec![0, 0], 2, 2),
        (vec![0, 1], 3, 2),
        (vec![1, 1], 4, 2),
        (vec![0, 0, 0], 3, 3),
    ];
    for (choice, draws, cost) in expected {
        let (c, r, x) = walk.next_child();
        assert_eq!(c, choice);
        assert_eq!(x, cost);
        assert!(r == advanced(&opened, draws));
    }
    assert_eq!(walk.delays(), 3);
    assert_eq!(walk.max_calls(), 2);
}

#[test]
fn zero_frame_children_advance_by_each_count() {
    let rng = RNG::new(7, false, false, false);
    let children = zero_frame_children(&rng, &[3, 0, 5]);
    assert_eq!(children.len(), 3);
    assert!(children[0] == advanced(&rng, 3));
    assert!(children[1] == rng);
    assert!(children[2] == advanced(&rng, 5));
    assert_eq!(children[0].clone().next_u32(), 3358077096);
}

#[test]
fn lost_frames_are_counted_modulo_two_to_the_32() {
    let rng = RNG::new(7, false, false, false);
    let min_good: usize = (1usize << 32) + 5;
    let e = encounterskip_children(&rng, 0, min_good);
    assert_eq!(e.frames_lost, 4);
    assert_eq!(e.alternative_cost, 5);
    assert!(e.room == advanced(&rng, 3));
}

#[test]
fn textbox_walk_first_child_is_free_and_undelayed() {
    let rng = RNG::new(8, true, false, true);
    let mut walk = TextboxWalk::new(vec![120, 84, 62], &rng, 394);
    assert!(!walk.exhausted());
    let (choice, child, cost) = walk.next_child();
    assert!(choice.is_empty());
    assert_eq!(cost, 0);
    assert!(child == advanced(&rng, 394));
    assert!(walk.exhausted());
    let (choice, child, cost) = walk.next_child();
    assert_eq!(choice, vec![0]);
    assert_eq!(cost, 1);
    assert!(child == advanced(&rng, 394 + 120));
}
