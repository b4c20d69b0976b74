use rsahp::comparisons::{comparison_groups, flatten_groups, wizard_index};
use rsahp::criteria::CriteriaNode;

fn leaf(id: usize, name: &str, node_type: &str) -> CriteriaNode<f64> {
    CriteriaNode { id, name: name.to_string(), cost: None, node_type: node_type.to_string(), children: vec![] }
}

fn root(children: Vec<CriteriaNode<f64>>) -> CriteriaNode<f64> {
    CriteriaNode { id: 0, name: "ROOT".to_string(), cost: None, node_type: "Goal".to_string(), children }
}

#[test]
fn two_criteria_and_a_candidate_give_both_phases() {
    let t = root(vec![leaf(1, "Price", "Criteria"), leaf(2, "Quality", "Criteria"), leaf(3, "Vendor", "Alternative")]);
    let groups = comparison_groups(&t, "Pick a vendor");
    let titles: Vec<&str> = groups.iter().map(|g| g.title.as_str()).collect();
    assert_eq!(
        titles,
        vec![
            "PHASE 1: WEIGHTING THE CRITERIA",
            "With respect to: Pick a vendor",
            "PHASE 2: CANDIDATE PROFILES",
            "With respect to: Vendor",
        ]
    );
    assert!(groups[0].items.is_empty());
    assert_eq!(groups[1].items.len(), 1);
    assert_eq!(groups[1].items[0].title, "Price vs Quality");
    assert_eq!((groups[1].items[0].first, groups[1].items[0].second), (1, 2));
    assert_eq!((groups[3].items[0].first, groups[3].items[0].second), (30001, 30002));
}

#[test]
fn empty_goal_is_called_goal_and_subcriteria_get_groups() {
    let mut a = leaf(1, "A", "Criteria");
    a.children = vec![leaf(4, "A1", "Criteria"), leaf(5, "A2", "Criteria"), leaf(6, "A3", "Criteria")];
    let t = root(vec![a, leaf(2, "B", "Criteria")]);
    let groups = comparison_groups(&t, "");
    assert_eq!(groups.len(), 3);
    assert_eq!(groups[1].title, "With respect to: Goal");
    assert_eq!(groups[2].title, "With respect to: A");
    let pairs: Vec<(usize, usize)> = groups[2].items.iter().map(|i| (i.first, i.second)).collect();
    assert_eq!(pairs, vec![(4, 5), (4, 6), (5, 6)]);
}

#[test]
fn fewer_than_two_criteria_give_nothing() {
    let t = root(vec![leaf(1, "Only", "Criteria"), leaf(3, "Vendor", "Alternative")]);
    assert!(comparison_groups(&t, "g").is_empty());
    let flat = flatten_groups(&comparison_groups(&t, "g"));
    assert!(flat.is_empty());
}

#[test]
fn flattening_skips_headings() {
    let t = root(vec![
        leaf(1, "P", "Criteria"),
        leaf(2, "Q", "Criteria"),
        leaf(3, "R", "Criteria"),
        leaf(7, "V1", "Alternative"),
        leaf(8, "V2", "Alternative"),
    ]);
    let groups = comparison_groups(&t, "G");
    let flat = flatten_groups(&groups);
    assert_eq!(flat.len(), 9);
    assert_eq!(flat[0].group_title, "With respect to: G");
    assert_eq!(flat[3].group_title, "With respect to: V1");
    assert_eq!((flat[3].first, flat[3].second), (70001, 70002));
    assert_eq!(flat[8].title, "Q vs R");
    assert_eq!((flat[8].first, flat[8].second), (80002, 80003));
}

#[test]
fn wizard_step_is_clamped() {
    assert_eq!(wizard_index(0, 3), 0);
    assert_eq!(wizard_index(2, 3), 2);
    assert_eq!(wizard_index(7, 3), 2);
}
