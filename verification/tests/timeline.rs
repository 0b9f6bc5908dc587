use signals::order::order_counts;
use signals::timeline::{
    checked_count_timelines, classify_transition, count_timelines, find_parallel_faces, hexagonal_vertices, map_quantum_connections,
    marked_positions, turn_page, CoherenceCounts, PatternType, TimelineState, UnstableMemory,
};

#[test]
fn test_void_transitions_to_boolean() {
    let mut memory = UnstableMemory::new();
    let mut transitions_observed = 0;
    let mut void_to_boolean_occurred = false;

    for _ in 0..1000 {
        let before = memory.get_state();
        memory.transition();
        let after = memory.get_state();

        if before.is_none() && after.is_some() {
            void_to_boolean_occurred = true;
            break;
        }
        transitions_observed += 1;
    }

    assert!(
        void_to_boolean_occurred,
        "Void should eventually transition to boolean state. Observed {} transitions without occurrence",
        transitions_observed
    );
}

#[test]
fn test_transitions_form_patterns() {
    let mut memory = UnstableMemory::new();
    let mut state_sequence = Vec::new();

    for _ in 0..1000 {
        memory.transition();
        state_sequence.push(memory.get_state());
    }

    let mut pattern_found = false;
    for window_size in 2..=10 {
        for window in state_sequence.windows(window_size) {
            let pattern_count = state_sequence.windows(window_size).filter(|w| w == &window).count();

            if pattern_count > 1 {
                pattern_found = true;
                break;
            }
        }
        if pattern_found {
            break;
        }
    }

    assert!(pattern_found, "Transitions should naturally form patterns");
}

#[test]
fn test_patterns_stabilize() {
    let mut memory = UnstableMemory::new();
    let mut stable_patterns_found = 0;
    let mut total_comparisons = 0;
    let mut observation_windows = Vec::new();

    for _ in 0..10 {
        let mut window = Vec::new();
        for _ in 0..100 {
            memory.transition();
            window.push(memory.get_state());
        }
        observation_windows.push(window);
    }

    for i in 0..observation_windows.len() {
        for j in (i + 1)..observation_windows.len() {
            let window1 = &observation_windows[i];
            let window2 = &observation_windows[j];

            for k in 0..(window1.len() - 2) {
                total_comparisons += 1;
                if window1[k..(k + 3)] == window2[k..(k + 3)] {
                    stable_patterns_found += 1;
                }
            }
        }
    }

    let order_ratio = (stable_patterns_found as f64) / (total_comparisons as f64);
    println!(
        "Order emergence ratio: {:.2}% ({} stable patterns in {} comparisons)",
        order_ratio * 100.0,
        stable_patterns_found,
        total_comparisons
    );

    assert!(stable_patterns_found > 0, "Should find patterns that remain stable across multiple observation windows");
}

#[test]
fn test_timeline_spawning() {
    let mut root_timeline = TimelineState::new();
    let mut spawned_timelines = 0;

    for _ in 0..100 {
        root_timeline.transition();
        spawned_timelines = count_timelines(&root_timeline);

        if spawned_timelines > 3 {
            break;
        }
    }

    assert!(spawned_timelines > 0, "Timeline spawning should occur");
}

#[test]
fn test_timeline_preserves_quantum_state() {
    let mut parent = TimelineState::new();
    parent.memory.transition();
    let original_state = parent.memory.get_state();
    let child = TimelineState::new_with_state(original_state);
    assert_eq!(
        child.memory.get_state(),
        original_state,
        "Child timelines should preserve their parent's quantum state, not YEET THEM INTO THE VOID"
    );
}

#[test]
fn memory_reads_back_what_was_set() {
    let mut memory = UnstableMemory::new();
    assert_eq!(memory.get_state(), None);
    memory.set_state(Some(true));
    assert_eq!(memory.get_state(), Some(true));
    memory.set_state(Some(false));
    assert_eq!(memory.get_state(), Some(false));
    memory.set_state(None);
    assert_eq!(memory.get_state(), None);
}

#[test]
fn boolean_memory_never_turns_void() {
    let mut memory = UnstableMemory::new();
    memory.set_state(Some(false));
    for _ in 0..200 {
        memory.transition();
        assert!(memory.get_state().is_some());
    }
}

#[test]
fn timelines_are_counted_through_the_tree() {
    let mut root = TimelineState::new();
    assert_eq!(count_timelines(&root), 1);
    let mut child = TimelineState::new_with_state(Some(true));
    child.child_timelines.push(TimelineState::new());
    child.child_timelines.push(TimelineState::new());
    root.child_timelines.push(child);
    root.child_timelines.push(TimelineState::new_with_state(None));
    assert_eq!(count_timelines(&root), 5);
    let outcome = root.transition();
    assert_eq!(outcome.timeline_count, 5);
    assert_eq!(outcome.branch, root.memory.get_state());
    assert_eq!(count_timelines(&root), 5);
}

#[test]
fn coherence_terms_weigh_branches() {
    let mut counts = CoherenceCounts::new();
    assert_eq!(counts.coherence_terms(), (0, 0));
    counts.disorder_to_order_transitions = 3;
    counts.order_to_disorder_transitions = 2;
    counts.branch_points = vec![2, 4, 1];
    assert_eq!(counts.coherence_terms(), (21, 5));
}

#[test]
fn transitions_are_classified() {
    assert_eq!(classify_transition(None, Some(false)), PatternType::Emergence);
    assert_eq!(classify_transition(Some(false), Some(true)), PatternType::OrderFormation);
    assert_eq!(classify_transition(Some(true), Some(true)), PatternType::OrderStabilization);
    assert_eq!(classify_transition(Some(true), Some(false)), PatternType::Chaos);
    assert_eq!(classify_transition(None, None), PatternType::Chaos);
}

#[test]
fn hexagons_need_six_ordered_branches() {
    let mut flags = vec![false; 10];
    assert_eq!(hexagonal_vertices(&flags), None);
    for i in [0, 2, 3, 5, 7, 8, 9] {
        flags[i] = true;
    }
    assert_eq!(marked_positions(&flags), vec![0, 2, 3, 5, 7, 8, 9]);
    assert_eq!(hexagonal_vertices(&flags), Some((5, [0, 2, 3, 5, 7, 8])));
    assert_eq!(hexagonal_vertices(&vec![true; 5]), None);
}

#[test]
fn dodecahedra_need_twelve_ordered_branches() {
    assert_eq!(find_parallel_faces(&vec![true; 11]), None);
    let mut flags = vec![true; 14];
    flags[3] = false;
    let (front, back) = find_parallel_faces(&flags).unwrap();
    assert_eq!(front, [0, 1, 2, 4, 5, 6]);
    assert_eq!(back, [7, 8, 9, 10, 11, 12]);
    assert_eq!(
        map_quantum_connections(&front, &back),
        vec![(0, 7), (1, 8), (2, 9), (4, 10), (5, 11), (6, 12)]
    );
}

#[test]
fn pages_flip_between_first_two() {
    assert_eq!(turn_page(0, 2), 1);
    assert_eq!(turn_page(1, 25), 0);
    assert_eq!(turn_page(3, 25), 0);
    assert_eq!(turn_page(0, 1), 0);
    assert_eq!(turn_page(4, 0), 4);
}

/// The share of stable windows among the compared ones, 0 when nothing
/// was compared.
fn local_order(states: &Vec<Option<bool>>) -> f64 {
    let (stable, total) = order_counts(states);
    if total > 0 {
        stable as f64 / total as f64
    } else {
        0.0
    }
}

/// Runs `steps` memory transitions on `timeline`, spawning a child
/// whenever `spawns` accepts the new state, and returns the states seen.
fn observe(timeline: &mut TimelineState, steps: usize, spawns: fn(Option<bool>) -> bool) -> Vec<Option<bool>> {
    let mut states = Vec::new();
    for _ in 0..steps {
        timeline.memory.transition();
        let state = timeline.memory.get_state();
        states.push(state);
        if spawns(state) {
            timeline.child_timelines.push(TimelineState::new());
        }
    }
    states
}

#[test]
fn test_order_calculation_empty() {
    let _timeline = TimelineState::new();
    let states: Vec<Option<bool>> = Vec::new();
    assert_eq!(local_order(&states), 0.0, "Order should be 0 with no patterns");
}

#[test]
fn test_order_calculation_single_pattern() {
    let mut timeline = TimelineState::new();
    let states = observe(&mut timeline, 3, |s| s.is_some());
    let order = local_order(&states);
    assert!(order >= 0.0, "Quantum pattern should have measurable order");
}

#[test]
fn test_order_calculation_complex() {
    let mut timeline = TimelineState::new();
    let states = observe(&mut timeline, 6, |s| s.is_some());
    let order = local_order(&states);
    assert!(order >= 0.0, "Complex quantum pattern should have measurable order");
}

#[test]
fn test_order_calculation_random() {
    let mut timeline = TimelineState::new();
    let states = observe(&mut timeline, 10, |s| s == Some(true));
    let order = local_order(&states);
    assert!(order >= 0.0, "Order should never be negative");
    assert!(order <= 1.0, "Order should never exceed 1.0");
}

#[test]
fn test_metrics_paging() {
    // progress recorded for simulations 0, 0 and 1: two simulations run
    let mut active_simulations: Vec<Vec<usize>> = Vec::new();
    for (sim_index, timeline) in [(0usize, TimelineState::new()), (0, TimelineState::new()), (1, TimelineState::new())] {
        while active_simulations.len() <= sim_index {
            active_simulations.push(Vec::new());
        }
        active_simulations[sim_index].push(count_timelines(&timeline));
    }
    let mut current_sim_page = 0;
    assert_eq!(current_sim_page, 0);
    current_sim_page = turn_page(current_sim_page, active_simulations.len());
    assert_eq!(current_sim_page, 1);
    current_sim_page = turn_page(current_sim_page, active_simulations.len());
    assert_eq!(current_sim_page, 0);
}

#[test]
fn memory_step_follows_its_coins() {
    let mut memory = UnstableMemory::new();
    memory.step(false, true);
    assert_eq!(memory.get_state(), None);
    memory.step(true, false);
    assert_eq!(memory.get_state(), Some(false));
    memory.step(false, true);
    assert_eq!(memory.get_state(), Some(false));
    memory.step(true, true);
    assert_eq!(memory.get_state(), Some(true));
}

#[test]
fn timeline_step_follows_its_coins() {
    let mut root = TimelineState::new();
    root.child_timelines.push(TimelineState::new());
    let outcome = root.step(false, true);
    assert_eq!(outcome.branch, None);
    assert_eq!(outcome.timeline_count, 2);
    let outcome = root.step(true, false);
    assert_eq!(outcome.branch, Some(false));
    assert_eq!(root.memory.get_state(), Some(false));
    assert_eq!(count_timelines(&root), 2);
}

#[test]
fn timelines_are_counted_with_a_check() {
    let mut root = TimelineState::new();
    assert_eq!(checked_count_timelines(&root), Some(1));
    let mut child = TimelineState::new();
    child.child_timelines.push(TimelineState::new());
    root.child_timelines.push(child);
    assert_eq!(checked_count_timelines(&root), Some(3));
}

#[test]
fn coherence_without_transitions_ignores_branches() {
    let mut counts = CoherenceCounts::new();
    counts.branch_points = vec![usize::MAX, usize::MAX];
    assert_eq!(counts.coherence_terms(), (0, 0));
}
