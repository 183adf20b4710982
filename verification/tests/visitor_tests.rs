use undertale_ruins_analysis::layer::LayerResult;
use undertale_ruins_analysis::node_heap::NodeHeap;
use undertale_ruins_analysis::visitor::{Action, Visitor};

#[test]
fn search_with_no_layers_reports_the_root() {
    let mut heap = NodeHeap::new();
    let (_v, step) = Visitor::start(&mut heap, 0);
    let report = step.report.unwrap();
    assert_eq!(report.cost, 0);
    assert!(report.path.is_empty());
    assert_eq!(report.branches_tested, 0);
    assert!(matches!(step.action, Action::Done));
}

#[test]
fn one_layer_reports_cheaper_finals_and_stops_at_dearer_children() {
    let mut heap = NodeHeap::new();
    let (mut v, step) = Visitor::start(&mut heap, 1);
    assert!(step.report.is_none());
    let root = match step.action {
        Action::Expand { depth, node, budget } => {
            assert_eq!(depth, 0);
            assert_eq!(budget, u32::MAX);
            node
        }
        _ => panic!("expected the root's layer to open"),
    };
    assert!(heap.is_visited(root));
    let a = heap.get_or_construct_node("a", None);
    let b = heap.get_or_construct_node("b", None);
    let c = heap.get_or_construct_node("c", None);

    let step = v.on_child(&mut heap, LayerResult { child: a, layer_cost: 3, layer_path: Some("to a".to_string()) });
    let report = step.report.unwrap();
    assert_eq!(report.cost, 3);
    assert_eq!(report.path, vec!["to a".to_string()]);
    assert_eq!(report.branches_tested, 0);
    assert!(matches!(step.action, Action::NextChild { depth: 0 }));
    assert_eq!(heap.best_cost(root), 3);

    let step = v.on_child(&mut heap, LayerResult { child: b, layer_cost: 2, layer_path: None });
    let report = step.report.unwrap();
    assert_eq!(report.cost, 2);
    assert!(report.path.is_empty());
    assert_eq!(report.branches_tested, 1);

    // dearer than the best final node and than 1: the layer ends
    let step = v.on_child(&mut heap, LayerResult { child: c, layer_cost: 5, layer_path: None });
    assert!(step.report.is_none());
    assert!(matches!(step.action, Action::Done));
    assert!(heap.is_visited(c));
}

#[test]
fn costs_zero_and_one_are_always_reported() {
    let mut heap = NodeHeap::new();
    let (mut v, _) = Visitor::start(&mut heap, 1);
    let a = heap.get_or_construct_node("a", None);
    let b = heap.get_or_construct_node("b", None);
    let c = heap.get_or_construct_node("c", None);
    assert_eq!(v.on_child(&mut heap, LayerResult { child: a, layer_cost: 1, layer_path: None }).report.unwrap().cost, 1);
    assert_eq!(v.on_child(&mut heap, LayerResult { child: b, layer_cost: 1, layer_path: None }).report.unwrap().cost, 1);
    assert_eq!(v.on_child(&mut heap, LayerResult { child: c, layer_cost: 0, layer_path: None }).report.unwrap().cost, 0);
}

#[test]
fn children_reached_before_at_no_higher_cost_are_skipped() {
    let mut heap = NodeHeap::new();
    let (mut v, _) = Visitor::start(&mut heap, 2);
    let a = heap.get_or_construct_node("a", None);
    heap.mark_visited(a);
    heap.update_best_cost(a, 4);
    let step = v.on_child(&mut heap, LayerResult { child: a, layer_cost: 4, layer_path: None });
    assert!(step.report.is_none());
    assert!(matches!(step.action, Action::NextChild { depth: 0 }));
    // at a lower cost the child is entered and its own layer opens
    let step = v.on_child(&mut heap, LayerResult { child: a, layer_cost: 3, layer_path: Some("x".to_string()) });
    match step.action {
        Action::Expand { depth, node, budget } => {
            assert_eq!(depth, 1);
            assert!(node == a);
            assert_eq!(budget, u32::MAX - 3);
        }
        _ => panic!("expected the child's layer to open"),
    }
    let step = v.on_exhausted();
    assert!(matches!(step.action, Action::NextChild { depth: 0 }));
    let step = v.on_exhausted();
    assert!(matches!(step.action, Action::Done));
}

#[test]
fn over_a_run_the_best_cost_never_rises_and_visits_stay() {
    let mut heap = NodeHeap::new();
    let (mut v, _) = Visitor::start(&mut heap, 2);
    let mut best = v.best_final_node_cost();
    let mut visited = Vec::new();
    let costs: [u32; 5] = [4, 2, 2, 1, 1];
    for (i, cost) in costs.iter().enumerate() {
        let name: &'static str = ["n0", "n1", "n2", "n3", "n4"][i];
        let child = heap.get_or_construct_node(name, None);
        let step = v.on_child(&mut heap, LayerResult { child, layer_cost: *cost, layer_path: None });
        assert!(heap.is_visited(child));
        visited.push(child);
        if let Action::Expand { .. } = step.action {
            let leaf = heap.get_or_construct_node("leaf", None);
            let step = v.on_child(&mut heap, LayerResult { child: leaf, layer_cost: 0, layer_path: None });
            assert!(heap.is_visited(leaf));
            if matches!(step.action, Action::NextChild { depth: 1 }) {
                v.on_exhausted();
            }
        }
        assert!(v.best_final_node_cost() <= best);
        best = v.best_final_node_cost();
        for h in &visited {
            assert!(heap.is_visited(*h));
        }
    }
    assert_eq!(v.best_final_node_cost(), 1);
}
