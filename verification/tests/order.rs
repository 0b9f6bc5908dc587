use signals::order::order_counts;

#[test]
fn too_few_states_show_no_order() {
    assert_eq!(order_counts(&vec![]), (0, 0));
    assert_eq!(order_counts(&vec![Some(true), None, Some(false)]), (0, 0));
}

#[test]
fn repeated_windows_are_counted() {
    assert_eq!(order_counts(&vec![Some(true); 4]), (1, 1));
    // five states: windows of 3 give 3 comparisons, of 4 give 1
    assert_eq!(order_counts(&vec![None; 5]), (4, 4));
    let states = vec![Some(true), Some(false), None, Some(true), Some(false), None];
    // windows of 3: 6 pairs, matching only (0,3); of 4: 3 pairs; of 5: 1 pair
    assert_eq!(order_counts(&states), (1, 10));
}

#[test]
fn order_share_stays_within_one() {
    let states: Vec<Option<bool>> = (0..20).map(|i| if i % 3 == 0 { None } else { Some(i % 2 == 0) }).collect();
    let (stable, total) = order_counts(&states);
    assert!(stable <= total);
    assert!(total > 0);
}
