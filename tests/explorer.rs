use explorer_index::explorer::{ClickAction, DirEntry, FileExplorerData, FileOp, NamingState};
use explorer_index::paint::paint_file_node_item;
use explorer_index::tree::{get_item_children, get_item_children_mut, FileNodeItem};

fn entry(name: &str, is_dir: bool) -> DirEntry {
    DirEntry { name: name.to_string(), is_dir }
}

fn names(parts: &[&str]) -> Vec<String> {
    parts.iter().map(|s| s.to_string()).collect()
}

fn node_name(e: &FileExplorerData, row: usize) -> Option<String> {
    e.get_node_by_index(row).map(|n| n.name.clone())
}

fn listed(e: &FileExplorerData) -> Vec<String> {
    let total = e.workspace.children_open_count;
    (1..=total).map(|r| node_name(e, r).unwrap()).collect()
}

/// Workspace listing `[dirA (unread, closed), fileB]`.
fn workspace_a_b() -> FileExplorerData {
    let mut e = FileExplorerData::new("/ws".to_string());
    assert!(e.load_completed(&vec![], &vec![entry("dirA", true), entry("fileB", false)]));
    e
}

/// As above, with `dirA` expanded and listing `[fileC, fileD]`.
fn workspace_a_open() -> FileExplorerData {
    let mut e = workspace_a_b();
    match e.click_row(1) {
        ClickAction::ListDir(v) => assert_eq!(v, names(&["dirA"])),
        _ => panic!("expected a listing request"),
    }
    assert!(e.load_completed(&names(&["dirA"]), &vec![entry("fileC", false), entry("fileD", false)]));
    e
}

#[test]
fn new_workspace_lists_nothing_until_loaded() {
    let e = FileExplorerData::new("/ws".to_string());
    assert_eq!(e.total_visible_rows(), 0);
    assert!(e.workspace.loading);
    assert!(e.get_node_by_index(1).is_none());
}

#[test]
fn root_with_unread_dir_and_file() {
    let e = workspace_a_b();
    assert_eq!(e.total_visible_rows(), 2);
    assert_eq!(node_name(&e, 1), Some("dirA".to_string()));
    assert_eq!(node_name(&e, 2), Some("fileB".to_string()));
    assert!(e.get_node_by_index(0).is_none());
    assert!(e.get_node_by_index(3).is_none());
}

#[test]
fn expand_loads_then_opens() {
    let e = workspace_a_open();
    let a = e.get_node_by_index(1).unwrap();
    assert!(a.read);
    assert!(a.open);
    assert_eq!(a.children_open_count, 2);
    assert_eq!(e.total_visible_rows(), 4);
    assert_eq!(node_name(&e, 2), Some("fileC".to_string()));
    assert_eq!(node_name(&e, 3), Some("fileD".to_string()));
    assert_eq!(node_name(&e, 4), Some("fileB".to_string()));
}

#[test]
fn composing_adds_a_phantom_row_until_commit() {
    let mut e = workspace_a_open();
    assert!(e.expand_dir(1).is_none());
    e.start_create(1, false);
    match &e.naming {
        NamingState::Composing { anchor_row, indent_level, is_dir, parent } => {
            assert_eq!(*anchor_row, 2);
            assert_eq!(*indent_level, 1);
            assert!(!*is_dir);
            assert_eq!(*parent, names(&["dirA"]));
        }
        _ => panic!("expected composing"),
    }
    assert_eq!(e.total_visible_rows(), 5);
    let op = e.commit_naming("x".to_string());
    assert!(matches!(e.naming, NamingState::Idle));
    match op {
        Some(FileOp::Create { parent, name, is_dir }) => {
            assert_eq!(parent, names(&["dirA"]));
            assert_eq!(name, "x");
            assert!(!is_dir);
            assert!(e.created(&parent, name, is_dir));
        }
        _ => panic!("expected a create request"),
    }
    assert_eq!(e.total_visible_rows(), 5);
    assert_eq!(listed(&e), names(&["dirA", "fileC", "fileD", "x", "fileB"]));
}

#[test]
fn collapsing_ends_composing_without_creating() {
    let mut e = workspace_a_open();
    e.start_create(1, false);
    assert_eq!(e.total_visible_rows(), 5);
    assert!(matches!(e.click_row(1), ClickAction::Toggled));
    assert!(matches!(e.naming, NamingState::Idle));
    assert_eq!(e.total_visible_rows(), 2);
    assert_eq!(e.node_count, 5);
}

#[test]
fn out_of_order_completions_do_not_interfere() {
    let mut e = FileExplorerData::new("/ws".to_string());
    assert!(e.load_completed(&vec![], &vec![entry("dirA", true), entry("dirE", true), entry("f", false)]));
    assert_eq!(e.expand_dir(1), Some(names(&["dirA"])));
    assert_eq!(e.expand_dir(2), Some(names(&["dirE"])));
    assert!(e.load_completed(&names(&["dirE"]), &vec![entry("e1", false), entry("e2", true)]));
    assert_eq!(listed(&e), names(&["dirA", "dirE", "e1", "e2", "f"]));
    assert!(e.load_completed(&names(&["dirA"]), &vec![entry("a1", false)]));
    assert_eq!(listed(&e), names(&["dirA", "a1", "dirE", "e1", "e2", "f"]));
    let dir_e = e.get_node_by_index(3).unwrap();
    assert!(dir_e.open);
    assert_eq!(dir_e.children_open_count, 2);
    assert_eq!(e.total_visible_rows(), 6);
}

#[test]
fn cached_counts_match_full_traversal() {
    let mut e = workspace_a_open();
    assert!(opens_file(&e.click_row(2), &["dirA", "fileC"]));
    assert_eq!(e.total_visible_rows(), listed(&e).len());
    assert!(matches!(e.click_row(1), ClickAction::Toggled));
    assert_eq!(e.total_visible_rows(), listed(&e).len());
    assert_eq!(e.total_visible_rows(), 2);
}

fn opens_file(action: &ClickAction, parts: &[&str]) -> bool {
    match action {
        ClickAction::OpenFile(v) => *v == names(parts),
        _ => false,
    }
}

#[test]
fn row_round_trip() {
    let e = workspace_a_open();
    for row in 1..=4usize {
        let path = explorer_index::resolve::row_path(0, row, &e.workspace).1.unwrap();
        let back = explorer_index::resolve::row_of_path(&e.workspace, &path, 0);
        assert_eq!(back, Some(row));
    }
    let hidden = vec![0usize, 5];
    assert_eq!(explorer_index::resolve::row_of_path(&e.workspace, &hidden, 0), None);
}

#[test]
fn full_paint_visits_each_row_once_in_order() {
    let e = workspace_a_open();
    let rows = e.paint_range(1, e.total_visible_rows());
    let got: Vec<(usize, usize, Vec<usize>)> = rows.iter().map(|r| (r.row, r.level, r.path.clone())).collect();
    assert_eq!(
        got,
        vec![(1, 1, vec![0]), (2, 2, vec![0, 0]), (3, 2, vec![0, 1]), (4, 1, vec![1])]
    );
}

#[test]
fn paint_range_clips_to_the_listing() {
    let e = workspace_a_open();
    let rows = e.paint_range(0, 2);
    assert_eq!(rows.iter().map(|r| r.row).collect::<Vec<_>>(), vec![1, 2]);
    let rows = e.paint_range(3, 100);
    assert_eq!(rows.iter().map(|r| r.row).collect::<Vec<_>>(), vec![3, 4]);
    assert!(e.paint_range(5, 9).is_empty());
    assert!(e.paint_range(3, 2).is_empty());
}

#[test]
fn close_then_open_restores_rows() {
    let mut e = workspace_a_open();
    let before = listed(&e);
    assert!(matches!(e.click_row(1), ClickAction::Toggled));
    assert_eq!(listed(&e), names(&["dirA", "fileB"]));
    assert!(matches!(e.click_row(1), ClickAction::Toggled));
    assert_eq!(listed(&e), before);
}

#[test]
fn second_click_while_loading_withdraws_the_expand() {
    let mut e = workspace_a_b();
    assert!(matches!(e.click_row(1), ClickAction::ListDir(_)));
    assert!(matches!(e.click_row(1), ClickAction::Nothing));
    let a = e.get_node_by_index(1).unwrap();
    assert!(a.loading);
    assert!(!a.open_on_load);
    assert!(e.load_completed(&names(&["dirA"]), &vec![entry("c", false)]));
    let a = e.get_node_by_index(1).unwrap();
    assert!(a.read);
    assert!(!a.open);
    assert_eq!(e.total_visible_rows(), 2);
}

#[test]
fn failed_load_leaves_dir_unread() {
    let mut e = workspace_a_b();
    assert!(matches!(e.click_row(1), ClickAction::ListDir(_)));
    assert!(e.load_failed(&names(&["dirA"])));
    let a = e.get_node_by_index(1).unwrap();
    assert!(!a.read && !a.loading && !a.open);
    assert!(!e.load_failed(&names(&["dirA"])));
    assert!(matches!(e.click_row(1), ClickAction::ListDir(_)));
}

#[test]
fn stale_or_repeated_completions_are_discarded() {
    let mut e = workspace_a_open();
    assert!(!e.load_completed(&names(&["gone"]), &vec![entry("z", false)]));
    assert!(!e.load_completed(&names(&["dirA"]), &vec![entry("z", false)]));
    assert!(!e.load_completed(&names(&["fileB"]), &vec![entry("z", false)]));
    assert_eq!(listed(&e), names(&["dirA", "fileC", "fileD", "fileB"]));
}

#[test]
fn clicking_past_the_end_does_nothing() {
    let mut e = workspace_a_b();
    assert!(matches!(e.click_row(0), ClickAction::Nothing));
    assert!(matches!(e.click_row(3), ClickAction::Nothing));
    assert_eq!(listed(&e), names(&["dirA", "fileB"]));
}

#[test]
fn rename_flow_replaces_the_row() {
    let mut e = workspace_a_open();
    assert!(e.start_rename(3));
    assert_eq!(e.total_visible_rows(), 4);
    match e.commit_naming("renamed".to_string()) {
        Some(FileOp::Rename { path, new_name }) => {
            assert_eq!(path, names(&["dirA", "fileD"]));
            assert!(e.renamed(&path, new_name));
        }
        _ => panic!("expected a rename request"),
    }
    assert_eq!(listed(&e), names(&["dirA", "fileC", "renamed", "fileB"]));
    assert!(!e.renamed(&vec![], "x".to_string()));
    assert!(!e.start_rename(9));
}

#[test]
fn cancel_leaves_tree_alone() {
    let mut e = workspace_a_open();
    e.start_create(4, true);
    match &e.naming {
        NamingState::Composing { anchor_row, parent, .. } => {
            assert_eq!(*anchor_row, 5);
            assert!(parent.is_empty());
        }
        _ => panic!("expected composing"),
    }
    e.cancel_naming();
    assert!(e.commit_naming("y".to_string()).is_none());
    assert_eq!(e.total_visible_rows(), 4);
}

#[test]
fn create_below_empty_area_targets_workspace() {
    let mut e = workspace_a_b();
    e.start_create(7, true);
    match &e.naming {
        NamingState::Composing { anchor_row, indent_level, parent, .. } => {
            assert_eq!((*anchor_row, *indent_level), (1, 0));
            assert!(parent.is_empty());
        }
        _ => panic!("expected composing"),
    }
}

#[test]
fn new_entries_take_their_sorted_place() {
    let mut e = workspace_a_b();
    assert!(e.created(&vec![], "dirZ".to_string(), true));
    assert!(e.created(&vec![], "a.txt".to_string(), false));
    assert_eq!(listed(&e), names(&["dirA", "dirZ", "a.txt", "fileB"]));
    assert!(e.created(&vec![], "dirB".to_string(), true));
    assert_eq!(listed(&e), names(&["dirA", "dirB", "dirZ", "a.txt", "fileB"]));
    assert!(!e.created(&names(&["dirA"]), "q".to_string(), false));
    assert_eq!(e.node_count, 6);
}

#[test]
fn item_children_resolves_rows() {
    let e = workspace_a_open();
    let (i, n) = get_item_children(0, 3, &e.workspace);
    assert_eq!(i, 3);
    assert_eq!(n.unwrap().name, "fileD");
    let (i, n) = get_item_children(0, 9, &e.workspace);
    assert_eq!(i, 4);
    assert!(n.is_none());
    let a: &FileNodeItem = &e.workspace.children[0];
    let (i, n) = get_item_children(1, 2, a);
    assert_eq!((i, n.unwrap().name.as_str()), (2, "fileC"));
}

#[test]
fn item_children_mut_hands_out_the_node() {
    let mut e = workspace_a_open();
    {
        let (i, n) = get_item_children_mut(0, 4, &mut e.workspace);
        assert_eq!(i, 4);
        n.unwrap().name = "fileB2".to_string();
    }
    assert_eq!(node_name(&e, 4), Some("fileB2".to_string()));
    let (i, n) = get_item_children_mut(0, 5, &mut e.workspace);
    assert_eq!(i, 4);
    assert!(n.is_none());
}

#[test]
fn phantom_row_shifts_rows_from_its_anchor() {
    let mut e = workspace_a_open();
    assert_eq!(e.display_row(3), 3);
    e.start_create(1, false);
    assert_eq!(e.display_row(1), 1);
    assert_eq!(e.display_row(2), 3);
    assert_eq!(e.display_row(4), 5);
    e.start_rename(2);
    assert_eq!(e.display_row(4), 4);
    assert_eq!(e.total_visible_rows(), 4);
}

#[test]
fn walker_skips_and_stops() {
    let e = workspace_a_open();
    let mut path = Vec::new();
    let mut out = Vec::new();
    let r = paint_file_node_item(&e.workspace, 2, 3, 0, 0, &mut path, &mut out);
    assert!(r > 3);
    assert!(path.is_empty());
    let got: Vec<(usize, usize, Vec<usize>)> = out.iter().map(|p| (p.row, p.level, p.path.clone())).collect();
    assert_eq!(got, vec![(2, 2, vec![0, 0]), (3, 2, vec![0, 1])]);

    let mut out = Vec::new();
    let r = paint_file_node_item(&e.workspace, 0, 10, 0, 0, &mut path, &mut out);
    assert_eq!(r, 4);
    assert_eq!(out.len(), 5);
    assert_eq!(out[0].row, 0);

    let mut out = Vec::new();
    let r = paint_file_node_item(&e.workspace.children[0], 7, 9, 1, 1, &mut path, &mut out);
    assert_eq!(r, 3);
    assert!(out.is_empty());
}

#[test]
fn nested_directory_rows_and_levels() {
    let mut e = workspace_a_open();
    assert!(e.created(&names(&["dirA"]), "sub".to_string(), true));
    assert_eq!(listed(&e), names(&["dirA", "sub", "fileC", "fileD", "fileB"]));
    assert_eq!(e.expand_dir(2), Some(names(&["dirA", "sub"])));
    assert!(e.load_completed(&names(&["dirA", "sub"]), &vec![entry("deep", false)]));
    assert_eq!(listed(&e), names(&["dirA", "sub", "deep", "fileC", "fileD", "fileB"]));
    let rows = e.paint_range(3, 3);
    assert_eq!(rows.len(), 1);
    assert_eq!((rows[0].row, rows[0].level, rows[0].path.clone()), (3, 3, vec![0, 0, 0]));
    assert_eq!(e.node_count, 7);
    assert!(matches!(e.click_row(1), ClickAction::Toggled));
    assert_eq!(e.total_visible_rows(), 2);
    assert!(matches!(e.click_row(1), ClickAction::Toggled));
    assert_eq!(listed(&e), names(&["dirA", "sub", "deep", "fileC", "fileD", "fileB"]));
}

#[test]
fn trash_flow_removes_subtree_and_ends_naming() {
    let mut e = workspace_a_open();
    match e.trash_row(3) {
        Some(FileOp::Trash { path }) => assert_eq!(path, names(&["dirA", "fileD"])),
        _ => panic!("expected a trash request"),
    }
    assert!(e.trash_row(5).is_none());
    assert!(e.removed(&names(&["dirA", "fileD"])));
    assert_eq!(listed(&e), names(&["dirA", "fileC", "fileB"]));
    assert_eq!(e.node_count, 4);
    e.start_create(3, false);
    assert!(e.removed(&names(&["dirA"])));
    assert!(matches!(e.naming, NamingState::Idle));
    assert_eq!(listed(&e), names(&["fileB"]));
    assert_eq!(e.node_count, 2);
    assert!(!e.removed(&names(&["dirA"])));
    assert!(!e.removed(&vec![]));
}

fn shown(e: &FileExplorerData, min: usize, max: usize) -> Vec<(usize, usize, Vec<usize>, bool)> {
    e.paint_range(min, max).iter().map(|r| (r.row, r.level, r.path.clone(), r.editor)).collect()
}

#[test]
fn composing_splices_the_editor_row_into_painting() {
    let mut e = workspace_a_open();
    e.start_create(1, false);
    assert_eq!(
        shown(&e, 1, 10),
        vec![
            (1, 1, vec![0], false),
            (2, 1, vec![], true),
            (3, 2, vec![0, 0], false),
            (4, 2, vec![0, 1], false),
            (5, 1, vec![1], false),
        ]
    );
    assert_eq!(shown(&e, 3, 4), vec![(3, 2, vec![0, 0], false), (4, 2, vec![0, 1], false)]);
    assert_eq!(shown(&e, 2, 2), vec![(2, 1, vec![], true)]);
}

#[test]
fn composing_at_the_end_paints_editor_last() {
    let mut e = workspace_a_open();
    e.start_create(4, false);
    let rows = shown(&e, 4, 5);
    assert_eq!(rows, vec![(4, 1, vec![1], false), (5, 1, vec![], true)]);
}

#[test]
fn renaming_substitutes_the_row() {
    let mut e = workspace_a_open();
    assert!(e.start_rename(3));
    assert_eq!(
        shown(&e, 1, 10),
        vec![
            (1, 1, vec![0], false),
            (2, 2, vec![0, 0], false),
            (3, 2, vec![0, 1], true),
            (4, 1, vec![1], false),
        ]
    );
}

#[test]
fn walker_result_is_exact() {
    let e = workspace_a_open();
    let mut path = Vec::new();
    let mut out = Vec::new();
    assert_eq!(paint_file_node_item(&e.workspace.children[0], 0, 0, 1, 1, &mut path, &mut out), 1);
    assert!(out.is_empty());
    assert_eq!(paint_file_node_item(&e.workspace, 1, 2, 0, 0, &mut path, &mut out), 3);
    assert_eq!(out.len(), 2);
}

#[test]
fn listing_or_opening_ends_naming() {
    let mut e = workspace_a_b();
    assert_eq!(e.expand_dir(1), Some(names(&["dirA"])));
    e.start_create(2, false);
    assert!(e.load_completed(&names(&["dirA"]), &vec![entry("fileC", false)]));
    assert!(matches!(e.naming, NamingState::Idle));
    assert!(matches!(e.click_row(1), ClickAction::Toggled));
    e.start_rename(2);
    assert!(e.expand_dir(1).is_none());
    assert!(matches!(e.naming, NamingState::Idle));
}

#[test]
fn duplicate_names_are_refused() {
    let mut e = FileExplorerData::new("/ws".to_string());
    assert!(!e.load_completed(&vec![], &vec![entry("a", false), entry("a", true)]));
    assert_eq!(e.total_visible_rows(), 0);
    assert!(e.load_completed(&vec![], &vec![entry("a", false), entry("b", false)]));
    assert!(!e.created(&vec![], "b".to_string(), false));
    assert!(!e.renamed(&names(&["a"]), "b".to_string()));
    assert!(e.renamed(&names(&["a"]), "a".to_string()));
    assert!(e.renamed(&names(&["a"]), "c".to_string()));
    assert_eq!(listed(&e), names(&["c", "b"]));
    assert_eq!(e.node_count, 3);
}
