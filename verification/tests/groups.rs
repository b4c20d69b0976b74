use rsahp::criteria::DirPosition;
use rsahp::groups::{
    build_group_tree, group_tree_is_finite, user_groups_label, AdminRequest, AdminState, GroupDto, ModalAction, UserAdminDto,
};

fn group(id: Option<i32>, name: &str, parent: Option<i32>) -> GroupDto {
    GroupDto { id, name: name.to_string(), parent_id: parent }
}

fn user(id: i32, groups: Vec<i32>, is_admin: bool) -> UserAdminDto {
    UserAdminDto { id, email: format!("u{id}@x"), is_admin, is_deleted: false, groups }
}

#[test]
fn group_tree_nests_by_parent() {
    let groups = vec![
        group(Some(2), "Engineering", Some(1)),
        group(Some(1), "Company", None),
        group(Some(3), "QA", Some(1)),
        group(None, "Draft", None),
        group(Some(4), "Web", Some(2)),
    ];
    assert!(group_tree_is_finite(&groups, None));
    let tree = build_group_tree(&groups, None);
    assert_eq!(tree.len(), 1);
    assert_eq!(tree[0].name, "Company");
    let kids: Vec<i32> = tree[0].children.iter().map(|c| c.id).collect();
    assert_eq!(kids, vec![2, 3]);
    assert_eq!(tree[0].children[0].children[0].name, "Web");
}

#[test]
fn cyclic_groups_are_detected() {
    let groups = vec![group(Some(1), "A", Some(2)), group(Some(2), "B", Some(1))];
    assert!(group_tree_is_finite(&groups, None));
    assert!(!group_tree_is_finite(&groups, Some(1)));
}

#[test]
fn labels_name_known_groups_then_admin() {
    let groups = vec![group(Some(1), "Alpha", None), group(Some(2), "Beta", None)];
    assert_eq!(user_groups_label(&user(1, vec![2, 9, 1], true), &groups), "Beta, Alpha, Admin");
    assert_eq!(user_groups_label(&user(1, vec![], false), &groups), "");
}

#[test]
fn admin_state_fetch_cycle() {
    let mut s = AdminState::default();
    assert!(!s.needs_fetch());
    s.is_open = true;
    assert!(s.needs_fetch());
    s.fetch_pending = true;
    s.apply_fetch(Ok((vec![user(1, vec![], false)], vec![group(Some(1), "A", None)])));
    assert!(!s.fetch_pending);
    assert_eq!(s.users.len(), 1);
    s.action_pending = true;
    s.action_done();
    assert!(s.users.is_empty() && s.groups.is_empty() && !s.action_pending);
}

#[test]
fn dialogs_start_from_current_values() {
    let mut s = AdminState::default();
    s.groups = vec![group(Some(1), "Alpha", None)];
    s.users = vec![user(5, vec![3, 1, 3], false)];
    s.open_modal(ModalAction::RenameGroup(1));
    assert_eq!(s.modal_state.as_ref().unwrap().input_name, "Alpha");
    s.open_modal(ModalAction::AssignUser(5));
    assert_eq!(s.modal_state.as_ref().unwrap().selected_groups, vec![1, 3]);
    let m = s.modal_state.as_mut().unwrap();
    m.set_group_checked(2, true);
    m.set_group_checked(3, false);
    assert_eq!(m.selected_groups, vec![1, 2]);
}

#[test]
fn submitting_dialogs_sends_requests() {
    let api = "http://h:1/api/documents";
    let mut s = AdminState::default();
    s.groups = vec![group(Some(1), "Alpha", Some(7))];
    s.open_modal(ModalAction::AddGroup(Some(1), DirPosition::Last));
    s.modal_state.as_mut().unwrap().input_name = " Beta ".to_string();
    match s.modal_step(api, true, true, false) {
        Some(AdminRequest::CreateGroup { url, group }) => {
            assert_eq!(url, "http://h:1/api/admin/groups");
            assert_eq!(group.name, "Beta");
            assert_eq!(group.parent_id, Some(1));
            assert_eq!(group.id, None);
        }
        _ => panic!("expected a creation"),
    }
    assert!(s.modal_state.is_none() && s.action_pending);

    // while a change runs, a confirmed rename keeps the dialog open
    s.open_modal(ModalAction::RenameGroup(1));
    assert!(s.modal_step(api, true, true, false).is_none());
    assert!(s.modal_state.is_some());
    s.action_pending = false;
    s.modal_state.as_mut().unwrap().input_name = "Gamma".to_string();
    match s.modal_step(api, true, true, false) {
        Some(AdminRequest::UpdateGroup { url, group }) => {
            assert_eq!(url, "http://h:1/api/admin/groups/1");
            assert_eq!((group.id, group.name.as_str(), group.parent_id), (Some(1), "Gamma", Some(7)));
        }
        _ => panic!("expected a rename"),
    }
    s.action_pending = false;
    s.open_modal(ModalAction::ConfirmDelete(1));
    match s.modal_step(api, true, true, false) {
        Some(AdminRequest::DeleteGroup { url }) => assert_eq!(url, "http://h:1/api/admin/groups/1"),
        _ => panic!("expected a deletion"),
    }
    s.action_pending = false;
    s.users = vec![user(5, vec![2], false)];
    s.open_modal(ModalAction::AssignUser(5));
    match s.modal_step(api, true, true, false) {
        Some(AdminRequest::SetUserGroups { url, groups }) => {
            assert_eq!(url, "http://h:1/api/admin/users/5/groups");
            assert_eq!(groups.group_ids, vec![2]);
        }
        _ => panic!("expected an assignment"),
    }
    s.action_pending = false;
    match s.toggle_block(api, 5) {
        Some(AdminRequest::ToggleBlock { url }) => assert_eq!(url, "http://h:1/api/admin/users/5/block"),
        _ => panic!("expected a block"),
    }
    assert!(s.toggle_block(api, 5).is_none());
}

#[test]
fn blank_group_names_keep_the_dialog() {
    let mut s = AdminState::default();
    s.open_modal(ModalAction::AddGroup(None, DirPosition::Last));
    assert!(s.modal_step("u", true, true, false).is_none());
    assert!(s.modal_state.is_some());
    assert!(!s.action_pending);
    s.open_modal(ModalAction::AddUser);
    assert!(s.modal_step("u", true, true, false).is_none());
    assert!(s.modal_state.is_none());
}
