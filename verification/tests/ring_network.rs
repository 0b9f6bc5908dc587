use signals::ring_network::{calculate_layers, calculate_total_nodes, GlobalHexNetwork};

#[test]
fn layers_cover_target() {
    assert_eq!(calculate_layers(1), 0);
    assert_eq!(calculate_layers(2), 1);
    assert_eq!(calculate_layers(7), 1);
    assert_eq!(calculate_layers(8), 2);
    assert_eq!(calculate_layers(19), 2);
    assert_eq!(calculate_layers(20), 3);
    assert_eq!(calculate_layers(100_000_000_000), 182574);
}

#[test]
fn total_nodes_of_rings() {
    assert_eq!(calculate_total_nodes(0), 1);
    assert_eq!(calculate_total_nodes(1), 7);
    assert_eq!(calculate_total_nodes(2), 19);
    assert_eq!(calculate_total_nodes(182574), 100_000_344_151);
}

#[test]
fn network_rounds_up_to_whole_rings() {
    let network = GlobalHexNetwork::new(8);
    assert_eq!(network.layers, 2);
    assert_eq!(network.node_count, 19);
    assert_eq!(network.latencies.local_ms, 5);
    assert_eq!(network.latencies.regional_ms, 25);
    assert_eq!(network.latencies.global_ms, 100);
}

#[test]
fn neighbors_follow_links() {
    let network = GlobalHexNetwork::new(2000);
    assert_eq!(network.node_count, 2107);
    assert_eq!(network.get_neighbors(0), vec![(1, 5), (0, 5), (1000, 25), (0, 25)]);
    assert_eq!(network.get_neighbors(1500), vec![(1501, 5), (1499, 5), (500, 25)]);
    assert_eq!(network.get_neighbors(2106), vec![(2105, 5), (1106, 25)]);
    let small = GlobalHexNetwork::new(7);
    assert_eq!(small.get_neighbors(6), vec![(5, 5), (0, 25)]);
}

#[test]
fn propagation_reaches_every_node() {
    let network = GlobalHexNetwork::new(7);
    assert_eq!(network.propagate_signal(0), (30, 7));
    let network = GlobalHexNetwork::new(19);
    assert_eq!(network.propagate_signal(0), (90, 19));
    let single = GlobalHexNetwork::new(1);
    assert_eq!(single.propagate_signal(0), (0, 1));
}

#[test]
fn propagation_uses_regional_links() {
    let mut network = GlobalHexNetwork::new(2000);
    network.node_count = 2000;
    assert_eq!(network.propagate_signal(0), (2545, 2000));
    network.node_count = 3000;
    assert_eq!(network.propagate_signal(0), (2570, 3000));
    network.node_count = 2500;
    assert_eq!(network.propagate_signal(1200), (2085, 2500));
}

#[test]
fn failed_nodes_are_skipped() {
    let network = GlobalHexNetwork::new(19);
    let failed: Vec<usize> = (0..5).collect();
    assert_eq!(network.propagate_signal_under_attack(5, &failed), (65, 14));
    assert_eq!(network.propagate_signal_under_attack(0, &failed), (0, 0));
    let cut = vec![9];
    assert_eq!(network.propagate_signal_under_attack(0, &cut), (40, 9));
}

#[test]
fn attack_rounds_reach_survivors() {
    let network = GlobalHexNetwork::new(19);
    assert_eq!(network.simulate_attack(5), vec![(65, 14), (65, 14), (65, 14)]);
    let mut large = GlobalHexNetwork::new(2000);
    large.node_count = 2500;
    assert_eq!(large.simulate_attack(100), vec![(2545, 2400); 3]);
    assert_eq!(large.simulate_attack(0), vec![(2545, 2500); 3]);
}

#[test]
fn no_failures_propagate_as_plain_signal() {
    let network = GlobalHexNetwork::new(19);
    for start in [0, 5, 18] {
        assert_eq!(network.propagate_signal_under_attack(start, &[]), network.propagate_signal(start));
    }
}

#[test]
fn failures_outside_the_network_change_nothing() {
    let network = GlobalHexNetwork::new(19);
    let inside = network.propagate_signal_under_attack(0, &[3, 7]);
    assert_eq!(network.propagate_signal_under_attack(0, &[3, 19, 7, 1000, usize::MAX]), inside);
    assert_eq!(network.propagate_signal_under_attack(0, &[25]), network.propagate_signal(0));
}

#[test]
fn more_failures_reach_no_more_nodes() {
    let network = GlobalHexNetwork::new(19);
    let mut failed: Vec<usize> = Vec::new();
    let mut previous = network.propagate_signal_under_attack(0, &failed).1;
    for node in [4, 9, 2, 15, 11, 1] {
        failed.push(node);
        let reached = network.propagate_signal_under_attack(0, &failed).1;
        assert!(reached <= previous);
        assert!(reached + failed.len() <= network.node_count);
        previous = reached;
    }
}
