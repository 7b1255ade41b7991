use kernelkit::regex::graph::Graph;
use kernelkit::regex::heap::{B4096, GuardDisabled};
use kernelkit::regex::pages::Naive64Pages;

fn new_graph(allocator: &mut Naive64Pages) -> Graph<B4096, GuardDisabled> {
    Graph::new(allocator).unwrap()
}

#[test]
fn handles_working_with_empty_graph() {
    let mut allocator = Naive64Pages::new();
    let graph = new_graph(&mut allocator);

    assert_eq!(graph.graph_count(), 0);
}

#[test]
fn handles_adding_nodes_to_a_graph() {
    let mut allocator = Naive64Pages::new();
    let mut graph = new_graph(&mut allocator);

    graph.graph_add(13, (65, 66), 17, 99);
    graph.graph_add(29, (32, 32), 31, 98);

    assert_eq!(graph.graph_count(), 2);
    assert_eq!(graph.graph_at(0), (13, (65, 66), 17, 99));
    assert_eq!(graph.graph_at(1), (29, (32, 32), 31, 98));
}

#[test]
fn handles_swapping_nodes_to_a_graph() {
    let mut allocator = Naive64Pages::new();
    let mut graph = new_graph(&mut allocator);

    graph.graph_add(13, (65, 66), 17, 99);
    graph.graph_add(29, (32, 32), 31, 98);
    graph.graph_swap(0, 1);

    assert_eq!(graph.graph_count(), 2);
    assert_eq!(graph.graph_at(0), (29, (32, 32), 31, 98));
    assert_eq!(graph.graph_at(1), (13, (65, 66), 17, 99));
}

#[test]
fn handles_comparing_nodes_to_a_graph_negative() {
    let mut allocator = Naive64Pages::new();
    let mut graph = new_graph(&mut allocator);

    graph.graph_add(13, (65, 66), 17, 0);
    graph.graph_add(29, (32, 32), 31, 0);

    assert_eq!(graph.graph_greater(0, 1), false);
}

#[test]
fn handles_comparing_nodes_to_a_graph_positive() {
    let mut allocator = Naive64Pages::new();
    let mut graph = new_graph(&mut allocator);

    graph.graph_add(13, (65, 66), 17, 0);
    graph.graph_add(29, (32, 32), 31, 0);

    assert_eq!(graph.graph_greater(1, 0), true);
}

#[test]
fn handles_sorting_nodes_in_a_graph() {
    let mut allocator = Naive64Pages::new();
    let mut graph = new_graph(&mut allocator);

    graph.graph_add(29, (32, 32), 17, 97);
    graph.graph_add(13, (65, 66), 31, 98);
    graph.graph_add(17, (0, 0), 29, 99);
    graph.graph_sort();

    assert_eq!(graph.graph_count(), 3);
    assert_eq!(graph.graph_at(0), (13, (65, 66), 31, 98));
    assert_eq!(graph.graph_at(1), (17, (0, 0), 29, 99));
    assert_eq!(graph.graph_at(2), (29, (32, 32), 17, 97));
}

#[test]
fn handles_sorting_nodes_in_a_graph_with_more_data() {
    let mut allocator = Naive64Pages::new();
    let mut graph = new_graph(&mut allocator);

    for i in 0..64 {
        graph.graph_add(13u16.wrapping_shl((7 * i) % 16), (0, 0), 0, 0);
    }

    graph.graph_sort();
    assert_eq!(graph.graph_count(), 64);

    for i in 1..64 {
        let left = graph.graph_at(i - 1);
        let right = graph.graph_at(i);

        assert!(left.0 <= right.0);
    }
}

#[test]
fn handles_finding_existing_node_in_a_graph() {
    let mut allocator = Naive64Pages::new();
    let mut graph = new_graph(&mut allocator);

    graph.graph_add(13, (65, 66), 17, 97);
    graph.graph_add(17, (0, 0), 29, 98);
    graph.graph_add(29, (32, 32), 31, 99);

    assert_eq!(graph.graph_find(13, 65), Some((17, 97)));
    assert_eq!(graph.graph_find(13, 66), Some((17, 97)));
    assert_eq!(graph.graph_find(17, 0), Some((29, 98)));
    assert_eq!(graph.graph_find(29, 32), Some((31, 99)));
}

#[test]
fn handles_finding_non_existing_node_in_a_graph() {
    let mut allocator = Naive64Pages::new();
    let mut graph = new_graph(&mut allocator);

    graph.graph_add(13, (65, 66), 17, 0);
    graph.graph_add(17, (0, 0), 29, 0);
    graph.graph_add(29, (32, 32), 31, 0);

    assert_eq!(graph.graph_find(12, 65), None);
    assert_eq!(graph.graph_find(13, 64), None);
    assert_eq!(graph.graph_find(13, 67), None);
    assert_eq!(graph.graph_find(17, 1), None);
    assert_eq!(graph.graph_find(29, 31), None);
    assert_eq!(graph.graph_find(29, 33), None);
    assert_eq!(graph.graph_find(30, 32), None);
}

#[test]
fn handles_finding_all_existing_nodes_in_a_graph() {
    let mut allocator = Naive64Pages::new();
    let mut graph = new_graph(&mut allocator);

    graph.graph_add(13, (65, 66), 17, 97);
    graph.graph_add(17, (0, 0), 29, 98);
    graph.graph_add(29, (32, 32), 31, 99);

    assert_eq!(graph.graph_find_all(13), Some((0, 0)));
    assert_eq!(graph.graph_find_all(17), Some((1, 1)));
    assert_eq!(graph.graph_find_all(29), Some((2, 2)));
}

#[test]
fn handles_finding_all_non_existing_nodes_in_a_graph() {
    let mut allocator = Naive64Pages::new();
    let mut graph = new_graph(&mut allocator);

    graph.graph_add(13, (65, 66), 17, 0);
    graph.graph_add(17, (0, 0), 29, 0);
    graph.graph_add(29, (32, 32), 31, 0);

    assert_eq!(graph.graph_find_all(12), None);
    assert_eq!(graph.graph_find_all(14), None);
    assert_eq!(graph.graph_find_all(15), None);
    assert_eq!(graph.graph_find_all(18), None);
    assert_eq!(graph.graph_find_all(28), None);
    assert_eq!(graph.graph_find_all(30), None);
}

#[test]
fn handles_finding_all_existing_nodes_in_a_graph_seen_multiple_times() {
    let mut allocator = Naive64Pages::new();
    let mut graph = new_graph(&mut allocator);

    graph.graph_add(13, (65, 66), 17, 97);
    graph.graph_add(13, (90, 99), 17, 97);
    graph.graph_add(17, (0, 0), 29, 98);
    graph.graph_add(17, (99, 99), 29, 98);
    graph.graph_add(29, (32, 32), 31, 99);
    graph.graph_add(29, (33, 34), 31, 99);
    graph.graph_add(29, (36, 36), 31, 99);

    assert_eq!(graph.graph_find_all(13), Some((0, 1)));
    assert_eq!(graph.graph_find_all(17), Some((2, 3)));
    assert_eq!(graph.graph_find_all(29), Some((4, 6)));
}

#[test]
fn graph_takes_transitions_up_to_its_last_slot() {
    let mut allocator = Naive64Pages::new();
    let mut graph = new_graph(&mut allocator);

    for idx in 0..512u16 {
        graph.graph_add(idx, (1, 2), idx + 1, 7);
    }

    assert_eq!(graph.graph_count(), 512);
    assert_eq!(graph.graph_at(0), (0, (1, 2), 1, 7));
    assert_eq!(graph.graph_at(511), (511, (1, 2), 512, 7));
    assert_eq!(graph.graph_bytes().len(), 512);
}
