use strata::expert::ExpertPlan;

#[test]
fn a_prefix_plan_is_still_expressed_as_ncmoe() {
    // A configuration that was measured with a count must keep resolving to
    // it, not to a pattern.
    let plan = ExpertPlan::first_n(15, 41);
    assert_eq!(plan.as_first_n(), Some(15));
    assert_eq!(plan.len(), 15);
}

#[test]
fn a_gap_makes_it_a_pattern() {
    let plan = ExpertPlan::from_layers(&[0, 1, 5], 41);
    assert_eq!(plan.as_first_n(), None);
    assert_eq!(plan.to_override().unwrap(), r"blk\.(0|1|5)\.ffn_.*_exps\.=CPU");
}

#[test]
fn layer_one_does_not_match_layer_ten() {
    let pattern = ExpertPlan::from_layers(&[1], 41).to_override().unwrap();
    // The trailing escaped dot is what prevents blk.10. from matching.
    assert!(pattern.contains(r"(1)\.ffn_"));
    assert!(!pattern.contains("(1)ffn"));
}

#[test]
fn an_empty_plan_asks_for_nothing() {
    let plan = ExpertPlan::first_n(0, 41);
    assert!(plan.is_empty());
    assert_eq!(plan.to_override(), None);
    assert_eq!(plan.as_first_n(), Some(0));
}

#[test]
fn layers_past_the_end_are_dropped_and_duplicates_collapse() {
    let plan = ExpertPlan::from_layers(&[3, 3, 99, 1], 41);
    assert_eq!(plan.cpu_layers(), &[1, 3]);
}

#[test]
fn a_prefix_built_the_long_way_is_recognised_as_a_prefix() {
    let plan = ExpertPlan::from_layers(&[2, 0, 1], 41);
    assert_eq!(plan.as_first_n(), Some(3));
}

#[test]
fn a_plan_is_the_set_of_its_layers() {
    let a = ExpertPlan::from_layers(&[7, 3, 3, 12], 20);
    let b = ExpertPlan::from_layers(&[12, 7, 3], 20);
    assert_eq!(a, b);
    assert_eq!(a.clone(), b);
    assert_ne!(a, ExpertPlan::from_layers(&[12, 7], 20));
}

#[test]
fn a_count_past_the_model_is_the_whole_model() {
    let plan = ExpertPlan::first_n(100, 12);
    assert_eq!(plan.len(), 12);
    assert_eq!(plan.as_first_n(), Some(12));
    assert_eq!(ExpertPlan::from_layers(&[0, 1, 2], 0).len(), 0);
}

#[test]
fn a_pattern_lists_layers_in_order() {
    let plan = ExpertPlan::from_layers(&[40, 10, 2], 41);
    assert_eq!(plan.to_override().unwrap(), r"blk\.(2|10|40)\.ffn_.*_exps\.=CPU");
    assert!(!plan.is_empty());
}
