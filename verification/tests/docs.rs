use rsahp::docs::{
    allowed_document_ids, copied_comparison, copied_id_or_zero, copied_node, copy_parent_links, parent_to_store, duplicate_name, plan_node_insertion,
    remap_comparison_refs, saved_record, folder_move_allowed, ComparisonRefError, CreateDocumentDto, DocumentRecord,
    ComparisonDto, FolderLink, IdMap, NodeDto,
};

fn node(id: i32, parent: Option<i32>) -> NodeDto<f64> {
    NodeDto {
        id,
        document_id: 1,
        parent_node_id: parent,
        name: format!("n{id}"),
        node_type: "Criteria".to_string(),
        cost: None,
    }
}

#[test]
fn insertion_plan_puts_parents_first() {
    // child listed before its parent, grandchild before both
    let nodes = vec![node(3, Some(2)), node(2, Some(1)), node(1, None), node(4, Some(1))];
    let plan = plan_node_insertion(&nodes);
    assert!(plan.complete);
    // first pass: 1 (index 2), then 4 (index 3, parent 1 now placed); second pass: 2; third: 3
    assert_eq!(plan.order, vec![2, 3, 1, 0]);
}

#[test]
fn insertion_plan_within_one_pass_sees_earlier_nodes() {
    let nodes = vec![node(1, None), node(2, Some(1)), node(3, Some(2))];
    let plan = plan_node_insertion(&nodes);
    assert!(plan.complete);
    assert_eq!(plan.order, vec![0, 1, 2]);
}

#[test]
fn insertion_plan_detects_broken_hierarchy() {
    let nodes = vec![node(1, None), node(2, Some(99)), node(5, Some(6)), node(6, Some(5))];
    let plan = plan_node_insertion(&nodes);
    assert!(!plan.complete);
    assert_eq!(plan.order, vec![0]);
    assert!(plan_node_insertion::<f64>(&Vec::new()).complete);
}

#[test]
fn id_map_later_entries_win() {
    let mut m = IdMap::new();
    assert_eq!(m.get(4), None);
    m.insert(4, 40);
    m.insert(5, 50);
    m.insert(4, 41);
    assert_eq!(m.get(4), Some(41));
    assert_eq!(m.get(5), Some(50));
}

#[test]
fn comparison_references_are_remapped_or_refused() {
    let mut m = IdMap::new();
    m.insert(1, 11);
    m.insert(2, 12);
    m.insert(3, 13);
    assert_eq!(remap_comparison_refs(&m, 1, 2, 3), Ok((11, 12, 13)));
    assert_eq!(remap_comparison_refs(&m, 9, 2, 3), Err(ComparisonRefError::ParentNode));
    assert_eq!(remap_comparison_refs(&m, 1, 9, 8), Err(ComparisonRefError::NodeA));
    assert_eq!(remap_comparison_refs(&m, 1, 2, 8), Err(ComparisonRefError::NodeB));
    assert_eq!(copied_id_or_zero(&m, 3), 13);
    assert_eq!(copied_id_or_zero(&m, 7), 0);
}

#[test]
fn copy_parent_links_follow_the_copied_ids() {
    let nodes = vec![node(1, None), node(2, Some(1)), node(3, Some(2)), node(4, Some(77))];
    let mut m = IdMap::new();
    m.insert(1, 101);
    m.insert(2, 102);
    m.insert(3, 103);
    m.insert(4, 104);
    assert_eq!(copy_parent_links(&nodes, &m), vec![(102, 101), (103, 102)]);
}

#[test]
fn duplicate_name_strips_the_last_version_suffix() {
    assert_eq!(duplicate_name("Budget (v2)", 2), "Budget (v3)");
    assert_eq!(duplicate_name("Plan", 1), "Plan (v2)");
    assert_eq!(duplicate_name("A (v1) (v4)", 4), "A (v1) (v5)");
    assert_eq!(duplicate_name("X (v1", 1), "X (v1 (v2)");
    assert_eq!(duplicate_name("X (v1) final", 1), "X (v1) final (v2)");
    assert_eq!(duplicate_name("", -3), " (v-2)");
}

#[test]
fn copying_twice_never_nests_versions() {
    let once = duplicate_name("Report", 1);
    let twice = duplicate_name(&once, 2);
    assert_eq!(twice, "Report (v3)");
}

#[test]
fn allowed_ids_are_the_sorted_union() {
    let ids = allowed_document_ids(&vec![5, 1], &vec![3, 5], &vec![2, 1, 9]);
    assert_eq!(ids, vec![1, 2, 3, 5, 9]);
    assert!(allowed_document_ids(&vec![], &vec![], &vec![]).is_empty());
}

#[test]
fn document_records() {
    let create = CreateDocumentDto { name: "M".to_string(), owner_id: 2, aggregation_method: "AIJ".to_string(), folder_id: Some(4) };
    let d = create.new_document();
    assert_eq!(d.version, 1);
    assert_eq!(d.folder_id, Some(4));
    let mut rec = DocumentRecord { id: 8, name: "Old (v2)".to_string(), owner_id: 2, version: 2, aggregation_method: "AIJ".to_string(), folder_id: Some(1) };
    rec.update("New".to_string(), "AIP".to_string());
    assert_eq!(rec.version, 2);
    assert_eq!(rec.name, "New");
    rec.move_to(None);
    assert_eq!(rec.folder_id, None);
    let copy = rec.copy_as_new_version();
    assert_eq!(copy.name, "New (v3)");
    assert_eq!(copy.version, 3);
    assert_eq!(copy.folder_id, None);
    let saved = saved_record(None, 12, "S".to_string(), 3, 7, "AIP".to_string());
    assert_eq!((saved.id, saved.owner_id, saved.version), (12, 3, 7));
    let saved2 = saved_record(Some(rec), 12, "T".to_string(), 9, 1, "AIJ".to_string());
    assert_eq!((saved2.id, saved2.owner_id, saved2.version), (8, 2, 1));
}

#[test]
fn refused_comparisons_name_the_missing_reference() {
    assert_eq!(ComparisonRefError::ParentNode.message(), "Invalid comparison parent_node_id");
    assert_eq!(ComparisonRefError::NodeA.message(), "Invalid comparison node_a_id");
    assert_eq!(ComparisonRefError::NodeB.message(), "Invalid comparison node_b_id");
}

#[test]
fn folders_cannot_move_into_themselves_or_their_subfolders() {
    let fs = vec![
        FolderLink { id: 1, parent: None },
        FolderLink { id: 2, parent: Some(1) },
        FolderLink { id: 3, parent: Some(2) },
        FolderLink { id: 4, parent: None },
    ];
    assert!(!folder_move_allowed(&fs, 1, Some(1)));
    assert!(!folder_move_allowed(&fs, 1, Some(2)));
    assert!(!folder_move_allowed(&fs, 1, Some(3)));
    assert!(folder_move_allowed(&fs, 1, Some(4)));
    assert!(folder_move_allowed(&fs, 3, Some(4)));
    assert!(folder_move_allowed(&fs, 2, None));
    assert!(folder_move_allowed(&fs, 3, Some(1)));
}

#[test]
fn an_acyclic_hierarchy_is_planned_whole() {
    let nodes = vec![node(7, Some(5)), node(5, Some(3)), node(6, Some(3)), node(3, None), node(8, Some(7))];
    let plan = plan_node_insertion(&nodes);
    assert!(plan.complete);
    let mut order = plan.order.clone();
    assert_eq!(plan.order, vec![3, 1, 2, 0, 4]);
    order.sort();
    assert_eq!(order, vec![0, 1, 2, 3, 4]);
}

#[test]
fn duplicated_nodes_keep_name_type_and_cost() {
    let source = NodeDto {
        id: 5,
        document_id: 1,
        parent_node_id: Some(2),
        name: "Price".to_string(),
        node_type: "candidate".to_string(),
        cost: Some(12.5),
    };
    let copy = copied_node(&source, 9);
    assert_eq!(copy.id, 5);
    assert_eq!(copy.document_id, 9);
    assert_eq!(copy.parent_node_id, None);
    assert_eq!(copy.name, "Price");
    assert_eq!(copy.node_type, "candidate");
    assert_eq!(copy.cost, Some(12.5));
}

#[test]
fn duplicated_comparisons_follow_the_copied_nodes() {
    let mut m = IdMap::new();
    m.insert(1, 11);
    m.insert(2, 12);
    let c = ComparisonDto {
        id: 4,
        document_id: 1,
        respondent_id: 3,
        parent_node_id: 1,
        node_a_id: 2,
        node_b_id: 7,
        saaty_value: 5.0,
    };
    let copy = copied_comparison(&c, 9, &m);
    assert_eq!(copy.document_id, 9);
    assert_eq!(copy.respondent_id, 3);
    assert_eq!((copy.parent_node_id, copy.node_a_id, copy.node_b_id), (11, 12, 0));
    assert_eq!(copy.saaty_value, 5.0);
}

#[test]
fn a_save_writes_the_hierarchy_renamed() {
    let nodes = vec![node(6, Some(7)), node(7, Some(5)), node(5, None), node(8, Some(5))];
    let plan = plan_node_insertion(&nodes);
    assert!(plan.complete);
    let mut ids = IdMap::new();
    let mut stored: Vec<(i32, Option<i32>, String)> = Vec::new();
    let mut next = 100;
    for &i in plan.order.iter() {
        let n = &nodes[i];
        let parent = parent_to_store(&ids, n.parent_node_id);
        stored.push((next, parent, n.name.clone()));
        ids.insert(n.id, next);
        next += 1;
    }
    assert_eq!(stored.len(), 4);
    for n in nodes.iter() {
        let new_id = ids.get(n.id).expect("every node written");
        let row = stored.iter().find(|r| r.0 == new_id).expect("row of the node");
        assert_eq!(row.2, n.name);
        assert_eq!(row.1, n.parent_node_id.map(|p| ids.get(p).unwrap()));
    }
    assert_eq!(parent_to_store(&ids, Some(99)), Some(99));
    assert_eq!(parent_to_store(&ids, None), None);
}
