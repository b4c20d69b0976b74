use rsahp::criteria::{CriteriaNode, DirPosition};

fn leaf(id: usize, name: &str, node_type: &str) -> CriteriaNode<f64> {
    CriteriaNode { id, name: name.to_string(), cost: None, node_type: node_type.to_string(), children: vec![] }
}

fn sample() -> CriteriaNode<f64> {
    let mut price = leaf(1, "Price", "Criteria");
    price.children.push(leaf(4, "Upfront", "Criteria"));
    price.children.push(leaf(5, "Running", "Criteria"));
    CriteriaNode {
        id: 0,
        name: "ROOT".to_string(),
        cost: None,
        node_type: "Goal".to_string(),
        children: vec![price, leaf(2, "Quality", "Criteria"), leaf(3, "Vendor A", "Alternative")],
    }
}

fn ids(n: &CriteriaNode<f64>) -> Vec<usize> {
    n.children.iter().map(|c| c.id).collect()
}

#[test]
fn find_looks_at_the_node_then_its_children() {
    let t = sample();
    assert_eq!(t.find(5).map(|n| n.name.clone()), Some("Running".to_string()));
    assert_eq!(t.find(0).map(|n| n.id), Some(0));
    assert!(t.find(42).is_none());
}

#[test]
fn rename_and_set_cost_edit_one_node() {
    let mut t = sample();
    assert!(t.rename(4, "Purchase".to_string()));
    assert_eq!(t.find(4).unwrap().name, "Purchase");
    assert!(!t.rename(42, "X".to_string()));
    assert!(t.set_cost(3, Some(1200.0)));
    assert_eq!(t.find(3).unwrap().cost, Some(1200.0));
    assert!(t.set_cost(3, None));
    assert_eq!(t.find(3).unwrap().cost, None);
}

#[test]
fn remove_takes_out_the_subtree() {
    let mut t = sample();
    let removed = t.remove(1).expect("price is a child of the root");
    assert_eq!(removed.children.len(), 2);
    assert_eq!(ids(&t), vec![2, 3]);
    assert!(t.find(4).is_none());
    let mut t2 = sample();
    assert_eq!(t2.remove(5).map(|n| n.id), Some(5));
    assert_eq!(ids(&t2.children[0]), vec![4]);
    assert!(t2.remove(0).is_none());
    assert!(t2.remove(99).is_none());
}

#[test]
fn insert_places_by_position() {
    let mut t = sample();
    assert!(t.insert(0, DirPosition::First, leaf(10, "A", "Criteria")).is_ok());
    assert_eq!(ids(&t), vec![10, 1, 2, 3]);
    assert!(t.insert(0, DirPosition::Last, leaf(11, "B", "Criteria")).is_ok());
    assert_eq!(ids(&t), vec![10, 1, 2, 3, 11]);
    assert!(t.insert(0, DirPosition::After(2), leaf(12, "C", "Criteria")).is_ok());
    assert_eq!(ids(&t), vec![10, 1, 2, 12, 3, 11]);
    assert!(t.insert(0, DirPosition::Before(1), leaf(13, "D", "Criteria")).is_ok());
    assert_eq!(ids(&t), vec![10, 13, 1, 2, 12, 3, 11]);
    assert!(t.insert(1, DirPosition::Last, leaf(14, "E", "Criteria")).is_ok());
    assert_eq!(ids(t.find(1).unwrap()), vec![4, 5, 14]);
    // a sibling that is not there drops the value, but the parent was found
    assert!(t.insert(0, DirPosition::Before(99), leaf(15, "F", "Criteria")).is_ok());
    assert!(t.find(15).is_none());
    // no such parent: the value comes back
    let back = t.insert(99, DirPosition::Last, leaf(16, "G", "Criteria")).unwrap_err();
    assert_eq!(back.id, 16);
}

fn shape(n: &CriteriaNode<f64>) -> String {
    let kids: Vec<String> = n.children.iter().map(shape).collect();
    format!("{}:{}[{}]", n.id, n.name, kids.join(","))
}

#[test]
fn removing_an_inserted_node_gives_the_tree_back() {
    let mut t = sample();
    let before = shape(&t);
    let mut v = leaf(20, "New", "Criteria");
    v.children.push(leaf(21, "Inner", "Criteria"));
    assert!(t.insert(4, DirPosition::Last, v).is_ok());
    assert_ne!(shape(&t), before);
    let back = t.remove(20).expect("the inserted node is found");
    assert_eq!(shape(&back), "20:New[21:Inner[]]");
    assert_eq!(shape(&t), before);
    assert!(t.insert(0, DirPosition::First, leaf(30, "Top", "Criteria")).is_ok());
    assert_eq!(t.remove(30).map(|n| n.id), Some(30));
    assert_eq!(shape(&t), before);
}
