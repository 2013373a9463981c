use repo_tree::files::{
    hidden, list_dir, name_precedes, precedes, DirItem, DirScan, FileEntry, FsError,
};

fn found(name: &str, is_dir: bool) -> DirItem {
    DirItem::Found { name: Some(name.to_string()), path: format!("/d/{}", name), is_dir }
}

fn entry(name: &str, path: &str, is_dir: bool) -> FileEntry {
    FileEntry { name: name.to_string(), path: path.to_string(), is_dir, children: None }
}

fn listed(items: Vec<DirItem>) -> DirScan {
    DirScan::Listed { items }
}

fn names(entries: &Vec<FileEntry>) -> Vec<String> {
    entries.iter().map(|e| e.name.clone()).collect()
}

#[test]
fn listing_leaves_out_hidden_names() {
    let scan = listed(vec![
        found(".git", true),
        found("src", true),
        found(".gitignore", false),
        found("a.txt", false),
        found(".", true),
        found("..hidden", false),
    ]);
    let out = list_dir(&scan).unwrap();
    assert_eq!(names(&out), vec!["src", "a.txt"]);
    assert!(out.iter().all(|e| !e.name.starts_with('.')));
}

#[test]
fn listing_puts_directories_first_then_names_ascending() {
    let scan = listed(vec![
        found("zeta.txt", false),
        found("beta", true),
        found("alpha.txt", false),
        found("Zed", true),
        found("alpha", true),
        found("Makefile", false),
    ]);
    let out = list_dir(&scan).unwrap();
    assert_eq!(
        out,
        vec![
            entry("Zed", "/d/Zed", true),
            entry("alpha", "/d/alpha", true),
            entry("beta", "/d/beta", true),
            entry("Makefile", "/d/Makefile", false),
            entry("alpha.txt", "/d/alpha.txt", false),
            entry("zeta.txt", "/d/zeta.txt", false),
        ]
    );
    for pair in out.windows(2) {
        assert!(pair[0].is_dir || !pair[1].is_dir);
        if pair[0].is_dir == pair[1].is_dir {
            assert!(pair[0].name <= pair[1].name);
        }
    }
}

#[test]
fn listing_agrees_with_std_sort() {
    let raw = ["m", "b", "\u{e9}", "B", "a10", "a2", "a", "", "~", "ab", "\u{4e2d}", "z.d"];
    let mut items: Vec<DirItem> = Vec::new();
    let mut expected: Vec<(bool, String)> = Vec::new();
    for (i, n) in raw.iter().enumerate() {
        let is_dir = i % 3 == 0;
        items.push(found(n, is_dir));
        expected.push((!is_dir, n.to_string()));
    }
    expected.sort();
    let out = list_dir(&listed(items)).unwrap();
    let got: Vec<(bool, String)> = out.iter().map(|e| (!e.is_dir, e.name.clone())).collect();
    assert_eq!(got, expected);
}

#[test]
fn listing_keeps_order_of_equal_entries() {
    let scan = listed(vec![
        DirItem::Found { name: Some("same".to_string()), path: "/d/first".to_string(), is_dir: false },
        DirItem::Found { name: Some("a".to_string()), path: "/d/a".to_string(), is_dir: false },
        DirItem::Found { name: Some("same".to_string()), path: "/d/second".to_string(), is_dir: false },
    ]);
    let out = list_dir(&scan).unwrap();
    let paths: Vec<String> = out.iter().map(|e| e.path.clone()).collect();
    assert_eq!(paths, vec!["/d/a", "/d/first", "/d/second"]);
}

#[test]
fn listing_has_no_children() {
    let out = list_dir(&listed(vec![found("src", true), found("a", false)])).unwrap();
    assert_eq!(out.len(), 2);
    assert!(out.iter().all(|e| e.children.is_none()));
}

#[test]
fn listing_of_empty_directory_is_empty() {
    assert_eq!(list_dir(&listed(Vec::new())), Ok(Vec::new()));
}

#[test]
fn missing_path_is_not_found() {
    assert_eq!(list_dir(&DirScan::Missing), Err(FsError::NotFound));
    assert_eq!(FsError::NotFound.message(), "Path does not exist");
}

#[test]
fn refused_directory_gives_its_message() {
    let scan = DirScan::Refused { reason: "Permission denied (os error 13)".to_string() };
    assert_eq!(list_dir(&scan), Err(FsError::Io("Permission denied (os error 13)".to_string())));
    assert_eq!(
        FsError::Io("Permission denied (os error 13)".to_string()).message(),
        "Permission denied (os error 13)"
    );
}

#[test]
fn one_unreadable_entry_fails_the_listing() {
    let scan = listed(vec![
        found("a", false),
        DirItem::Unreadable { reason: "first failure".to_string() },
        found("b", true),
        DirItem::Unreadable { reason: "second failure".to_string() },
    ]);
    assert_eq!(list_dir(&scan), Err(FsError::Io("first failure".to_string())));
    let hidden_first = listed(vec![
        found(".a", false),
        DirItem::Unreadable { reason: "late".to_string() },
    ]);
    assert_eq!(list_dir(&hidden_first), Err(FsError::Io("late".to_string())));
}

#[test]
fn undecodable_name_becomes_empty_name() {
    let scan = listed(vec![
        found("b", false),
        DirItem::Found { name: None, path: "/d/\u{fffd}".to_string(), is_dir: false },
    ]);
    let out = list_dir(&scan).unwrap();
    assert_eq!(out, vec![entry("", "/d/\u{fffd}", false), entry("b", "/d/b", false)]);
}

#[test]
fn hidden_means_leading_dot() {
    assert!(hidden(".git"));
    assert!(hidden("."));
    assert!(!hidden(""));
    assert!(!hidden("a.b"));
    assert!(!hidden(" .a"));
}

#[test]
fn names_compare_as_strings_do() {
    let samples = ["", "a", "A", "ab", "b", "a\u{e9}", "a\u{4e2d}", "\u{1F600}", "~", "a10", "a2"];
    for a in samples {
        for b in samples {
            assert_eq!(name_precedes(a, b), a <= b, "{:?} against {:?}", a, b);
        }
    }
}

#[test]
fn directory_precedes_file_whatever_the_names() {
    let dir = entry("zzz", "/d/zzz", true);
    let file = entry("aaa", "/d/aaa", false);
    assert!(precedes(&dir, &file));
    assert!(!precedes(&file, &dir));
    assert!(precedes(&dir, &dir));
    assert!(precedes(&entry("a", "/x", false), &entry("b", "/y", false)));
    assert!(!precedes(&entry("b", "/x", true), &entry("a", "/y", true)));
}
