use ls_git::{
    commit_facts, commit_handling, resolve_history, sort_file, AttributionMap, CommitChanges,
    CommitHandling, CommitRecord, FileType, LastCommit, Row, TreeEntry,
};

fn ordinary(summary: &str, time: i64, paths: &[&str]) -> CommitRecord {
    CommitRecord {
        summary: String::from(summary),
        time,
        changes: CommitChanges::Changed(paths.iter().map(|p| String::from(*p)).collect()),
    }
}

fn root(summary: &str, time: i64, entries: &[(&str, FileType)]) -> CommitRecord {
    CommitRecord {
        summary: String::from(summary),
        time,
        changes: CommitChanges::Initial(
            entries
                .iter()
                .map(|(n, k)| TreeEntry { name: String::from(*n), kind: *k })
                .collect(),
        ),
    }
}

fn merge(summary: &str, time: i64) -> CommitRecord {
    CommitRecord { summary: String::from(summary), time, changes: CommitChanges::Merge }
}

fn strings(names: &[&str]) -> Vec<String> {
    names.iter().map(|n| String::from(*n)).collect()
}

fn row_tuple(r: &Row) -> (FileType, String, String, String) {
    (r.file_type, r.file_name.clone(), r.time_since.clone(), r.summary.clone())
}

#[test]
fn handling_by_parent_count() {
    assert_eq!(commit_handling(1), CommitHandling::DiffAgainstParent);
    assert_eq!(commit_handling(0), CommitHandling::EnumerateRoot);
    assert_eq!(commit_handling(2), CommitHandling::Skip);
    assert_eq!(commit_handling(8), CommitHandling::Skip);
}

#[test]
fn merge_commit_emits_no_facts() {
    let facts = commit_facts(&merge("merge branch", 500), "");
    assert!(facts.is_empty());
}

#[test]
fn ordinary_commit_facts_follow_diff() {
    let c = ordinary("touch things", 42, &["a.txt", "docs/readme.md", "docs/more.md"]);
    let facts = commit_facts(&c, "");
    assert_eq!(facts.len(), 3);
    assert_eq!(facts[0].0, "a.txt");
    assert!(matches!(facts[0].1.file_type, FileType::File));
    assert_eq!(facts[1].0, "docs");
    assert!(matches!(facts[1].1.file_type, FileType::Directory));
    assert_eq!(facts[2].0, "docs");
    assert_eq!(facts[0].1.summary, "touch things");
    assert_eq!(facts[0].1.time, 42);
}

#[test]
fn map_is_first_write_wins() {
    let mut m = AttributionMap::new();
    m.insert_if_absent(
        String::from("x"),
        LastCommit { summary: String::from("new"), time: 9, file_type: FileType::File },
    );
    m.insert_if_absent(
        String::from("x"),
        LastCommit { summary: String::from("old"), time: 3, file_type: FileType::Directory },
    );
    assert_eq!(m.len(), 1);
    let lc = m.get("x").unwrap();
    assert_eq!(lc.summary, "new");
    assert_eq!(lc.time, 9);
    assert!(m.contains_component("x"));
    assert!(!m.contains_component("y"));
    assert!(m.get("y").is_none());
}

#[test]
fn newer_commit_wins_over_older() {
    // the walk hands commits over newest first
    let history = vec![
        ordinary("newer", 200, &["shared.txt"]),
        ordinary("older", 100, &["shared.txt"]),
    ];
    let m = resolve_history(&history, "");
    assert_eq!(m.len(), 1);
    let lc = m.get("shared.txt").unwrap();
    assert_eq!(lc.time, 200);
    assert_eq!(lc.summary, "newer");
}

#[test]
fn merge_leaves_paths_unattributed() {
    // the merge's own diff would touch m.txt, but merges contribute nothing:
    // m.txt stays unattributed, x.txt is attributed by the older ordinary commit
    let history = vec![merge("merge it", 300), ordinary("real work", 200, &["x.txt"])];
    let m = resolve_history(&history, "");
    assert_eq!(m.len(), 1);
    assert!(m.get("m.txt").is_none());
    let lc = m.get("x.txt").unwrap();
    assert_eq!(lc.summary, "real work");
    assert_eq!(lc.time, 200);
}

#[test]
fn root_commit_entries_classified_by_kind() {
    let history = vec![root(
        "first commit",
        1000,
        &[("a.txt", FileType::File), ("b", FileType::Directory)],
    )];
    let m = resolve_history(&history, "");
    assert_eq!(m.len(), 2);
    let a = m.get("a.txt").unwrap();
    assert!(matches!(a.file_type, FileType::File));
    assert_eq!(a.summary, "first commit");
    assert_eq!(a.time, 1000);
    let b = m.get("b").unwrap();
    assert!(matches!(b.file_type, FileType::Directory));
    assert_eq!(b.summary, "first commit");
    assert_eq!(b.time, 1000);
}

#[test]
fn three_commit_scenario() {
    // newest first: commit 3 modifies a.txt, commit 2 modifies docs/readme.md,
    // the root commit added a.txt and docs/readme.md
    let history = vec![
        ordinary("commit 3", 3000, &["a.txt"]),
        ordinary("commit 2", 2000, &["docs/readme.md"]),
        root("commit 1", 1000, &[("a.txt", FileType::File), ("docs", FileType::Directory)]),
    ];
    let m = resolve_history(&history, "");
    assert_eq!(m.len(), 2);
    let a = m.get("a.txt").unwrap();
    assert_eq!(a.summary, "commit 3");
    assert_eq!(a.time, 3000);
    assert!(matches!(a.file_type, FileType::File));
    let docs = m.get("docs").unwrap();
    assert_eq!(docs.summary, "commit 2");
    assert_eq!(docs.time, 2000);
    assert!(matches!(docs.file_type, FileType::Directory));
}

#[test]
fn listed_directory_strips_prefix() {
    let history = vec![
        ordinary("inside", 300, &["src/deep/mod.rs", "src/lib.rs"]),
        ordinary("outside", 200, &["README.md"]),
    ];
    let m = resolve_history(&history, "src");
    assert_eq!(m.len(), 2);
    assert!(matches!(m.get("deep").unwrap().file_type, FileType::Directory));
    assert!(matches!(m.get("lib.rs").unwrap().file_type, FileType::File));
    assert!(m.get("README.md").is_none());
}

#[test]
fn live_filter_omits_silently() {
    let history = vec![root(
        "init",
        10,
        &[("kept.txt", FileType::File), ("gone.txt", FileType::File)],
    )];
    let m = resolve_history(&history, "");
    let live = strings(&["kept.txt", "untracked.txt"]);
    let f = m.filter_live(&live);
    // an entry gone from the directory is dropped; an untracked entry
    // simply has no attribution
    assert_eq!(f.len(), 1);
    assert!(f.contains_component("kept.txt"));
    assert!(!f.contains_component("gone.txt"));
    assert!(!f.contains_component("untracked.txt"));
}

#[test]
fn rows_are_grouped_and_sorted() {
    let history = vec![root(
        "init",
        100,
        &[
            ("zeta.txt", FileType::File),
            ("beta", FileType::Directory),
            ("alpha.txt", FileType::File),
            ("delta", FileType::Directory),
        ],
    )];
    let m = resolve_history(&history, "");
    let rows = sort_file(&m, 145);
    let names: Vec<&str> = rows.iter().map(|r| r.file_name.as_str()).collect();
    // directories first, each group sorted by name
    assert_eq!(names, vec!["beta", "delta", "alpha.txt", "zeta.txt"]);
    for r in rows.iter() {
        assert_eq!(r.summary, "init");
        assert_eq!(r.time_since, "45 seconds ago");
    }
}

#[test]
fn empty_history_resolves_to_nothing() {
    let history: Vec<CommitRecord> = Vec::new();
    let m = resolve_history(&history, "");
    assert_eq!(m.len(), 0);
    let rows = sort_file(&m, 1000);
    assert!(rows.is_empty());
}

#[test]
fn equal_component_names_keep_one_attribution() {
    // one commit touches two files under the same subdirectory: a single
    // attribution for the component survives, from the first delta
    let history = vec![ordinary("touch docs", 70, &["docs/a.md", "docs/b.md"])];
    let m = resolve_history(&history, "");
    assert_eq!(m.len(), 1);
    let docs = m.get("docs").unwrap();
    assert_eq!(docs.summary, "touch docs");
}

#[test]
fn resolution_is_idempotent() {
    let history = vec![
        ordinary("three", 3000, &["a.txt", "docs/x.md"]),
        merge("merged", 2500),
        ordinary("two", 2000, &["docs/y.md", "b.txt"]),
        root("one", 1000, &[("a.txt", FileType::File), ("c", FileType::Directory)]),
    ];
    let live = strings(&["a.txt", "b.txt", "c", "docs"]);
    let now: u64 = 5000;

    let first: Vec<_> = sort_file(&resolve_history(&history, "").filter_live(&live), now)
        .iter()
        .map(row_tuple)
        .collect();
    let second: Vec<_> = sort_file(&resolve_history(&history, "").filter_live(&live), now)
        .iter()
        .map(row_tuple)
        .collect();
    assert_eq!(first, second);
}
