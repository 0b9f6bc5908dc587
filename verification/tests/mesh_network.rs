use signals::mesh_network::{fractal_neighbors, layer_size_of, triangle_offsets, ConnectionKind, GlobalHexNetwork};

#[test]
fn fractal_layers_triple() {
    assert_eq!(layer_size_of(0), 1);
    assert_eq!(layer_size_of(1), 3);
    assert_eq!(layer_size_of(4), 81);
}

#[test]
fn triangle_offsets_turn_with_depth() {
    assert_eq!(triangle_offsets(0), vec![1, 0, 0]);
    assert_eq!(triangle_offsets(1), vec![0, 1, 2]);
    assert_eq!(triangle_offsets(2), vec![2, 4, 6]);
    assert_eq!(triangle_offsets(3), vec![1, 9, 18]);
    assert_eq!(triangle_offsets(4), vec![13, 40, 67]);
}

#[test]
fn fractal_neighbors_wrap_and_skip_self() {
    assert_eq!(fractal_neighbors(5, 0, 100), vec![6]);
    assert_eq!(fractal_neighbors(25, 1, 100), vec![26, 27]);
    assert_eq!(fractal_neighbors(95, 2, 100), vec![97, 99, 1]);
    assert_eq!(fractal_neighbors(0, 3, 10), vec![1, 9, 8]);
}

#[test]
fn mesh_fractal_links_are_local() {
    let network = GlobalHexNetwork::new(100, true);
    assert_eq!(
        network.get_neighbors(25, 1, 0),
        vec![(26, ConnectionKind::Local), (27, ConnectionKind::Local)]
    );
    assert!(network.get_neighbors(100, 1, 0).is_empty());
}

#[test]
fn mesh_flat_links_span_planes() {
    let network = GlobalHexNetwork::new(30, false);
    let neighbors = network.get_neighbors(0, 0, 3);
    let mut expected: Vec<(usize, ConnectionKind)> = (1..=12).map(|i| (i, ConnectionKind::Local)).collect();
    expected.extend((9..13).map(|i| (i, ConnectionKind::Regional)));
    assert_eq!(neighbors, expected);

    let neighbors = network.get_neighbors(25, 0, 3);
    let mut expected: Vec<(usize, ConnectionKind)> =
        (1..=12).map(|i| ((25 + i) % 30, ConnectionKind::Local)).collect();
    expected.extend((16..20).map(|i| (i, ConnectionKind::Regional)));
    assert_eq!(neighbors, expected);

    let neighbors = network.get_neighbors(19, 0, 3);
    assert_eq!(neighbors.len(), 12 + 4 + 2);
    assert_eq!(neighbors[16], (28, ConnectionKind::Regional));
    assert_eq!(neighbors[17], (29, ConnectionKind::Regional));
}

#[test]
fn connection_kind_names() {
    assert_eq!(ConnectionKind::Local.as_str(), "local");
    assert_eq!(ConnectionKind::Regional.as_str(), "regional");
    assert_eq!(ConnectionKind::Global.as_str(), "global");
}

#[test]
fn flat_signal_reaches_every_node() {
    let network = GlobalHexNetwork::new(30, false);
    assert_eq!(network.reached_count(0, &vec![], 4), 30);
    assert_eq!(network.reached_count(29, &vec![], 4), 30);
    // a start outside the network is counted besides the nodes it reaches
    let small = GlobalHexNetwork::new(5, false);
    assert_eq!(small.reached_count(7, &vec![], 2), 6);
}

#[test]
fn fractal_signal_follows_triangle_links() {
    let network = GlobalHexNetwork::new(25, true);
    let depths: Vec<usize> = (0..25).map(|i| if i < 20 { 0 } else { 1 }).collect();
    assert_eq!(network.reached_count(0, &depths, 0), 25);
    // at depth 2 the offsets are 2, 4 and 6: only even nodes are reached
    let even = GlobalHexNetwork::new(10, true);
    assert_eq!(even.reached_count(0, &vec![2; 10], 0), 5);
    assert_eq!(even.reached_count(3, &vec![2; 10], 0), 5);
    // outside the network a node has no links
    assert_eq!(even.reached_count(15, &vec![2; 10], 0), 1);
}
