use undertale_ruins_analysis::node_heap::NodeHeap;
use undertale_ruins_analysis::rng::RNG;

#[test]
fn new_nodes_are_unvisited_with_no_cost() {
    let mut heap = NodeHeap::new();
    let root = heap.get_or_construct_node("root", None);
    assert_eq!(root.index(), 0);
    assert_eq!(heap.len(), 1);
    assert!(!heap.is_visited(root));
    assert_eq!(heap.best_cost(root), u32::MAX);
    assert!(heap.get_rng(root).is_none());
}

#[test]
fn constructing_twice_returns_the_same_node() {
    let mut heap = NodeHeap::default();
    let rng = RNG::new(5, false, false, false);
    let a = heap.get_or_construct_node("seedsLayer", Some(rng.clone()));
    heap.mark_visited(a);
    let b = heap.get_or_construct_node("seedsLayer", Some(rng.clone()));
    assert!(a == b);
    assert_eq!(heap.len(), 1);
    assert!(heap.is_visited(b));
}

#[test]
fn identity_ignores_the_draw_counter() {
    let mut heap = NodeHeap::new();
    let a = heap.get_or_construct_node("room", Some(RNG::new(9, false, false, false)));
    let mut other = RNG::new(20078, false, false, false);
    other.num_calls = 40;
    let b = heap.get_or_construct_node("room", Some(other));
    assert!(a == b);
    assert_eq!(heap.get_rng(b).unwrap().num_calls, 0);
}

#[test]
fn different_layers_rngs_or_data_give_different_nodes() {
    let mut heap = NodeHeap::new();
    let rng = RNG::new(5, false, false, false);
    let mut later = rng.clone();
    later.next_u32();
    let a = heap.get_or_construct_node("one", Some(rng.clone()));
    let b = heap.get_or_construct_node("two", Some(rng.clone()));
    let c = heap.get_or_construct_node("one", Some(later));
    let d = heap.get_or_construct_node("one", None);
    let e = heap.get_or_construct_node_with_custom_data("one", Some(rng.clone()), 69420i32);
    let f = heap.get_or_construct_node_with_custom_data("one", Some(rng.clone()), 7i32);
    let g = heap.get_or_construct_node_with_custom_data("one", Some(rng.clone()), ());
    assert_eq!(heap.len(), 6);
    assert!(g == a);
    let all = [a, b, c, d, e, f];
    for i in 0..all.len() {
        for j in 0..all.len() {
            assert_eq!(all[i] == all[j], i == j);
        }
    }
}

#[test]
fn custom_data_reads_back() {
    let mut heap = NodeHeap::new();
    let n = heap.get_or_construct_node_with_custom_data("toriel thing", None, 69420i32);
    assert_eq!(heap.get_custom_data::<i32>(n), Some(69420));
    assert_eq!(heap.get_custom_data::<()>(n), None);
    let m = heap.get_or_construct_node_with_custom_data("toriel thing", None, -3i32);
    assert_eq!(heap.get_custom_data::<i32>(m), Some(-3));
    let plain = heap.get_or_construct_node("toriel thing", None);
    assert_eq!(heap.get_custom_data::<i32>(plain), None);
    assert_eq!(heap.get_custom_data::<()>(plain), Some(()));
}

#[test]
fn bookkeeping_touches_one_node() {
    let mut heap = NodeHeap::new();
    let a = heap.get_or_construct_node("a", None);
    let b = heap.get_or_construct_node("b", None);
    heap.update_best_cost(a, 12);
    heap.mark_visited(b);
    assert_eq!(heap.best_cost(a), 12);
    assert_eq!(heap.best_cost(b), u32::MAX);
    assert!(!heap.is_visited(a));
    assert!(heap.is_visited(b));
}

#[test]
fn custom_data_of_another_value_or_type_makes_a_new_node() {
    let mut nh = NodeHeap::default();
    let h0 = nh.get_or_construct_node("t", None);
    assert_eq!(h0.index(), 0);
    assert_eq!(nh.get_or_construct_node_with_custom_data("t", None, 1i32).index(), 1);
    assert_eq!(nh.get_or_construct_node_with_custom_data("t", None, 2i32).index(), 2);
    assert_eq!(nh.get_or_construct_node_with_custom_data("t", None, 1i64).index(), 3);
    assert_eq!(nh.get_or_construct_node_with_custom_data("t", None, 1i32).index(), 1);
    assert_eq!(nh.get_or_construct_node_with_custom_data("t", None, ()).index(), 0);
    assert_eq!(nh.get_or_construct_node_with_custom_data("t", None, 1u32).index(), 4);
    assert_eq!(nh.get_or_construct_node_with_custom_data("t", None, 1u64).index(), 5);
    assert_eq!(nh.get_or_construct_node_with_custom_data("t", None, true).index(), 6);
    assert_eq!(nh.len(), 7);
}

#[test]
fn custom_data_reads_back_only_as_its_own_type() {
    let mut nh = NodeHeap::new();
    let a = nh.get_or_construct_node_with_custom_data("t", None, -7i64);
    let b = nh.get_or_construct_node_with_custom_data("t", None, u64::MAX);
    let c = nh.get_or_construct_node_with_custom_data("t", None, false);
    let d = nh.get_or_construct_node_with_custom_data("t", None, 0x8000_0000u32);
    assert_eq!(nh.get_custom_data::<i64>(a), Some(-7));
    assert_eq!(nh.get_custom_data::<u64>(a), None);
    assert_eq!(nh.get_custom_data::<i32>(a), None);
    assert_eq!(nh.get_custom_data::<u64>(b), Some(u64::MAX));
    assert_eq!(nh.get_custom_data::<bool>(c), Some(false));
    assert_eq!(nh.get_custom_data::<()>(c), None);
    assert_eq!(nh.get_custom_data::<u32>(d), Some(0x8000_0000));
    assert_eq!(nh.get_custom_data::<i32>(d), None);
}

#[test]
fn a_node_stays_visited_and_keeps_its_last_cost() {
    let mut nh = NodeHeap::new();
    let a = nh.get_or_construct_node("a", None);
    nh.update_best_cost(a, 9);
    nh.mark_visited(a);
    let b = nh.get_or_construct_node("b", None);
    nh.update_best_cost(a, 4);
    nh.update_best_cost(b, 2);
    nh.mark_visited(a);
    let again = nh.get_or_construct_node("a", None);
    assert!(again == a);
    assert!(nh.is_visited(a));
    assert!(!nh.is_visited(b));
    assert_eq!(nh.best_cost(a), 4);
    assert_eq!(nh.best_cost(b), 2);
}

#[test]
fn small_and_pointer_sized_custom_data_read_back() {
    let mut nh = NodeHeap::new();
    let a = nh.get_or_construct_node_with_custom_data("t", None, 200u8);
    let b = nh.get_or_construct_node_with_custom_data("t", None, 60000u16);
    let c = nh.get_or_construct_node_with_custom_data("t", None, -100i8);
    let d = nh.get_or_construct_node_with_custom_data("t", None, -30000i16);
    let e = nh.get_or_construct_node_with_custom_data("t", None, usize::MAX);
    let f = nh.get_or_construct_node_with_custom_data("t", None, isize::MIN);
    assert_eq!(nh.len(), 6);
    assert_eq!(nh.get_custom_data::<u8>(a), Some(200));
    assert_eq!(nh.get_custom_data::<u16>(b), Some(60000));
    assert_eq!(nh.get_custom_data::<i8>(c), Some(-100));
    assert_eq!(nh.get_custom_data::<i16>(d), Some(-30000));
    assert_eq!(nh.get_custom_data::<usize>(e), Some(usize::MAX));
    assert_eq!(nh.get_custom_data::<isize>(f), Some(isize::MIN));
    assert_eq!(nh.get_custom_data::<u16>(a), None);
    assert_eq!(nh.get_custom_data::<u8>(b), None);
    assert_eq!(nh.get_custom_data::<u64>(e), None);
    assert_eq!(nh.get_custom_data::<i64>(f), None);
}

#[test]
fn equal_values_of_other_types_make_other_nodes() {
    let mut nh = NodeHeap::new();
    let a = nh.get_or_construct_node_with_custom_data("t", None, 1u8);
    let b = nh.get_or_construct_node_with_custom_data("t", None, 1u16);
    let c = nh.get_or_construct_node_with_custom_data("t", None, 1i8);
    let d = nh.get_or_construct_node_with_custom_data("t", None, 1i16);
    let e = nh.get_or_construct_node_with_custom_data("t", None, 1usize);
    let f = nh.get_or_construct_node_with_custom_data("t", None, 1isize);
    let indices = [a.index(), b.index(), c.index(), d.index(), e.index(), f.index()];
    assert_eq!(indices, [0, 1, 2, 3, 4, 5]);
    assert_eq!(nh.get_or_construct_node_with_custom_data("t", None, 1i8).index(), 2);
}

#[test]
fn a_node_keeps_the_generator_it_was_built_with() {
    let mut nh = NodeHeap::new();
    let mut rng = RNG::new(77, false, false, false);
    rng.advance(5);
    let a = nh.get_or_construct_node("a", Some(rng));
    let b = nh.get_or_construct_node("b", None);
    nh.mark_visited(a);
    nh.update_best_cost(a, 3);
    let mut later = rng;
    later.set_num_calls(900);
    let again = nh.get_or_construct_node("a", Some(later));
    assert!(again == a);
    nh.update_best_cost(b, 1);
    let kept = nh.get_rng(a).unwrap();
    assert!(kept == rng);
    assert_eq!(kept.num_calls, 5);
    assert_eq!(nh.get_rng(a).unwrap().num_calls, 5);
}
