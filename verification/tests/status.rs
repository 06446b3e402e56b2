use git2ex::status::{
    branch_label, no_repository_status, repository_status, status_files, HeadState, StatusEntry,
    STATUS_CONFLICTED, STATUS_IGNORED, STATUS_INDEX_DELETED, STATUS_INDEX_MODIFIED, STATUS_INDEX_NEW,
    STATUS_INDEX_RENAMED, STATUS_INDEX_TYPECHANGE, STATUS_WT_DELETED, STATUS_WT_MODIFIED, STATUS_WT_NEW,
    STATUS_WT_RENAMED, STATUS_WT_TYPECHANGE,
};
use git2ex::{has_index_change, porcelain};

fn code(bits: u32) -> (String, bool, bool) {
    porcelain(bits)
}

#[test]
fn porcelain_conflict_is_uu_unstaged() {
    assert_eq!(code(STATUS_CONFLICTED), ("UU".to_string(), false, true));
    assert_eq!(code(STATUS_CONFLICTED | STATUS_INDEX_MODIFIED | STATUS_WT_MODIFIED), ("UU".to_string(), false, true));
}

#[test]
fn porcelain_untracked_is_question_marks() {
    assert_eq!(code(STATUS_WT_NEW), ("??".to_string(), false, true));
}

#[test]
fn porcelain_new_in_index_and_worktree_is_not_untracked() {
    assert_eq!(code(STATUS_WT_NEW | STATUS_INDEX_NEW), ("A ".to_string(), true, false));
}

#[test]
fn porcelain_index_column_priority() {
    assert_eq!(code(STATUS_INDEX_NEW), ("A ".to_string(), true, false));
    assert_eq!(code(STATUS_INDEX_MODIFIED), ("M ".to_string(), true, false));
    assert_eq!(code(STATUS_INDEX_DELETED), ("D ".to_string(), true, false));
    assert_eq!(code(STATUS_INDEX_RENAMED), ("R ".to_string(), true, false));
    assert_eq!(code(STATUS_INDEX_TYPECHANGE), ("T ".to_string(), true, false));
    assert_eq!(code(STATUS_INDEX_NEW | STATUS_INDEX_MODIFIED).0, "A ");
    assert_eq!(code(STATUS_INDEX_MODIFIED | STATUS_INDEX_DELETED).0, "M ");
    assert_eq!(code(STATUS_INDEX_RENAMED | STATUS_INDEX_DELETED), ("D ".to_string(), true, false));
    assert_eq!(code(STATUS_INDEX_RENAMED | STATUS_INDEX_TYPECHANGE).0, "R ");
    assert_eq!(code(STATUS_INDEX_RENAMED | STATUS_INDEX_MODIFIED | STATUS_INDEX_DELETED).0, "R ");
}

#[test]
fn porcelain_worktree_column_priority() {
    assert_eq!(code(STATUS_WT_MODIFIED), (" M".to_string(), false, true));
    assert_eq!(code(STATUS_WT_DELETED), (" D".to_string(), false, true));
    assert_eq!(code(STATUS_WT_RENAMED), (" R".to_string(), false, true));
    assert_eq!(code(STATUS_WT_TYPECHANGE), (" T".to_string(), false, true));
    assert_eq!(code(STATUS_WT_RENAMED | STATUS_WT_DELETED).0, " D");
}

#[test]
fn porcelain_mm_is_in_both_lists() {
    assert_eq!(code(STATUS_INDEX_MODIFIED | STATUS_WT_MODIFIED), ("MM".to_string(), true, true));
}

#[test]
fn porcelain_edited_staged_rename_shows_r() {
    assert_eq!(code(STATUS_INDEX_RENAMED | STATUS_INDEX_MODIFIED), ("R ".to_string(), true, false));
    assert_eq!(
        code(STATUS_INDEX_RENAMED | STATUS_INDEX_MODIFIED | STATUS_WT_MODIFIED),
        ("RM".to_string(), true, true)
    );
}

#[test]
fn porcelain_staged_rename_shows_r() {
    assert_eq!(code(STATUS_INDEX_RENAMED | STATUS_WT_MODIFIED), ("RM".to_string(), true, true));
}

#[test]
fn porcelain_clean_entry_is_blank() {
    assert_eq!(code(0), ("  ".to_string(), false, false));
}

#[test]
fn index_change_mask() {
    assert!(!has_index_change(0));
    assert!(!has_index_change(STATUS_WT_NEW | STATUS_WT_MODIFIED | STATUS_CONFLICTED));
    for flag in [STATUS_INDEX_NEW, STATUS_INDEX_MODIFIED, STATUS_INDEX_DELETED, STATUS_INDEX_RENAMED, STATUS_INDEX_TYPECHANGE] {
        assert!(has_index_change(flag));
    }
}

#[test]
fn staged_flag_tracks_index_changes_outside_conflicts() {
    for bits in 0u32..0x1000 {
        let (_, staged, _) = porcelain(bits);
        assert_eq!(staged, has_index_change(bits), "{bits:#x}");
    }
}

fn entry(h2i: Option<&str>, i2w: Option<&str>, path: Option<&str>, bits: u32) -> StatusEntry {
    StatusEntry {
        head_to_index_path: h2i.map(str::to_string),
        index_to_workdir_path: i2w.map(str::to_string),
        path: path.map(str::to_string),
        bits,
    }
}

#[test]
fn status_files_sorted_and_filtered() {
    let entries = vec![
        entry(None, Some("zeta.txt"), Some("zeta.txt"), STATUS_WT_MODIFIED),
        entry(None, None, Some("ignored.log"), STATUS_IGNORED),
        entry(None, None, None, STATUS_WT_NEW),
        entry(Some("b/new.rs"), None, Some("b/old.rs"), STATUS_INDEX_RENAMED),
        entry(None, Some("Alpha"), Some("Alpha"), STATUS_WT_NEW),
        entry(Some("a.txt"), Some("a.txt"), Some("a.txt"), STATUS_INDEX_MODIFIED | STATUS_WT_MODIFIED),
    ];
    let files = status_files(&entries);
    let rows: Vec<(&str, &str, bool, bool)> =
        files.iter().map(|f| (f.path.as_str(), f.status.as_str(), f.staged, f.unstaged)).collect();
    assert_eq!(
        rows,
        vec![
            ("Alpha", "??", false, true),
            ("a.txt", "MM", true, true),
            ("b/new.rs", "R ", true, false),
            ("zeta.txt", " M", false, true),
        ]
    );
}

#[test]
fn status_files_prefer_index_path_then_worktree_path() {
    let entries = vec![
        entry(None, Some("now.txt"), Some("then.txt"), STATUS_WT_RENAMED),
        entry(None, None, Some("plain.txt"), STATUS_WT_DELETED),
    ];
    let files = status_files(&entries);
    assert_eq!(files[0].path, "now.txt");
    assert_eq!(files[1].path, "plain.txt");
}

#[test]
fn status_files_sort_is_stable() {
    let entries = vec![
        entry(None, None, Some("same"), STATUS_WT_MODIFIED),
        entry(None, None, Some("same"), STATUS_INDEX_NEW),
        entry(None, None, Some("a"), STATUS_WT_DELETED),
    ];
    let files = status_files(&entries);
    let codes: Vec<&str> = files.iter().map(|f| f.status.as_str()).collect();
    assert_eq!(codes, vec![" D", " M", "A "]);
}

#[test]
fn status_files_byte_order_matches_std_sort() {
    let names = ["é.txt", "z.txt", "Z.txt", "a/b", "a.b", "a", "€", "ab"];
    let entries: Vec<StatusEntry> = names.iter().map(|n| entry(None, None, Some(n), STATUS_WT_NEW)).collect();
    let mut expected: Vec<&str> = names.to_vec();
    expected.sort();
    let files = status_files(&entries);
    let got: Vec<&str> = files.iter().map(|f| f.path.as_str()).collect();
    assert_eq!(got, expected);
}

#[test]
fn branch_labels() {
    assert_eq!(branch_label(HeadState::Branch(Some("main".to_string()))), Some("main".to_string()));
    assert_eq!(branch_label(HeadState::Branch(None)), None);
    assert_eq!(branch_label(HeadState::Detached), Some("HEAD".to_string()));
    assert_eq!(branch_label(HeadState::Unborn(Some("refs/heads/main".to_string()))), Some("main".to_string()));
    assert_eq!(branch_label(HeadState::Unborn(Some("refs/heads/refs/heads/x".to_string()))), Some("x".to_string()));
    assert_eq!(branch_label(HeadState::Unborn(Some("refs/other/y".to_string()))), Some("refs/other/y".to_string()));
    assert_eq!(branch_label(HeadState::Unborn(None)), None);
}

#[test]
fn repository_status_trims_root() {
    let entries = vec![entry(None, None, Some("f"), STATUS_WT_NEW)];
    let r = repository_status(Some("/home/u/repo//".to_string()), HeadState::Detached, &entries);
    assert!(r.repo);
    assert_eq!(r.root.as_deref(), Some("/home/u/repo"));
    assert_eq!(r.branch.as_deref(), Some("HEAD"));
    assert_eq!(r.files.len(), 1);
    let bare = repository_status(None, HeadState::Branch(Some("dev".to_string())), &Vec::new());
    assert_eq!(bare.root, None);
    assert_eq!(bare.branch.as_deref(), Some("dev"));
}

#[test]
fn outside_repository_status_is_empty() {
    let r = no_repository_status();
    assert!(!r.repo);
    assert!(r.root.is_none() && r.branch.is_none() && r.files.is_empty());
}

#[test]
fn status_files_large_list_matches_stable_std_sort() {
    let mut seed: u32 = 12345;
    let mut entries = Vec::new();
    for n in 0..2000u32 {
        seed = seed.wrapping_mul(1_103_515_245).wrapping_add(12_345);
        let name = format!("dir{}/f{}", (seed >> 16) % 37, (seed >> 8) % 11);
        let bits = if n % 2 == 0 { STATUS_WT_MODIFIED } else { STATUS_INDEX_NEW };
        entries.push(entry(None, None, Some(&name), bits));
    }
    let mut expected: Vec<(String, String)> = entries
        .iter()
        .map(|e| (e.path.clone().unwrap(), porcelain(e.bits).0))
        .collect();
    expected.sort_by(|a, b| a.0.cmp(&b.0));
    let got: Vec<(String, String)> = status_files(&entries).into_iter().map(|f| (f.path, f.status)).collect();
    assert_eq!(got, expected);
}
