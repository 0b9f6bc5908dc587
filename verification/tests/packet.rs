use signals::packet::{hops_to_ms, TraversalState};

#[test]
fn flood_grows_eighteenfold() {
    let mut state = TraversalState::new(1);
    assert!(state.needs_hop(10_000_000));
    let mut locals = Vec::new();
    loop {
        let go_on = state.next_hop(10_000_000);
        locals.push(state.local_nodes);
        if !go_on {
            break;
        }
    }
    assert_eq!(locals, vec![18, 324, 5832, 104976, 1889568, 34012224]);
    assert_eq!(state.total_nodes, 1 + 18 + 324 + 5832 + 104976 + 1889568 + 34012224);
    assert_eq!(state.hops, 6);
    assert_eq!(state.hop_count, 7);
    assert_eq!(state.elapsed_ms(), 350);
    assert_eq!(hops_to_ms(state.hops), 300);
}

#[test]
fn flood_stops_on_total() {
    let mut state = TraversalState::new(0);
    assert!(state.next_hop(20));
    assert!(!state.next_hop(340));
    assert_eq!(state.local_nodes, 324);
    assert_eq!(state.total_nodes, 343);
}

#[test]
fn small_target_needs_no_hop() {
    let state = TraversalState::new(1);
    assert!(!state.needs_hop(1));
    assert!(state.needs_hop(2));
}
