use rust_kart::ffbm::db::{
    build_folder_path, build_folder_titles, build_folder_tree, db_separator_to_export,
    generate_guid, guid_from_timestamp, reverse_host,
};
use rust_kart::ffbm::export::{
    creation_order, find_root_folder, folder_depth, folder_export_dir, folder_index_name,
    index_order, is_tag_entry, item_export_dir, numbered_name, sanitize_filename,
    separator_base_name, IndexItem,
};
use rust_kart::ffbm::import::{
    build_position_map, caseless_equal, entry_of_file, get_position, order_names, UNLISTED_POSITION_BASE,
};
use rust_kart::ffbm::plan::{
    import_bookmarks, ImportEntry, ImportFolder, ImportStep, ParentRef, RootTree,
};
use rust_kart::ffbm::profile::{find_profile, FindProfileError};
use rust_kart::ffbm::roots;
use rust_kart::ffbm::export_plan::{export_bookmarks, ExportItem};
use rust_kart::ffbm::types::{
    dir_name_to_root, root_dir_name, DbBookmark, DbSeparator, Folder, FolderIndex, Profile,
};

fn strs(v: &[&str]) -> Vec<String> {
    v.iter().map(|s| s.to_string()).collect()
}

fn folder(id: i64, parent: i64, title: &str) -> Folder {
    Folder { id, parent, title: title.to_string() }
}

fn sample_folders() -> Vec<Folder> {
    vec![
        folder(2, 1, "menu"),
        folder(10, 2, "A"),
        folder(11, 10, "B/C"),
        folder(12, 4, "tag"),
        folder(13, 2, "D"),
    ]
}

#[test]
fn root_directories_round_trip() {
    for id in [roots::MENU, roots::TOOLBAR, roots::OTHER, roots::MOBILE] {
        let name = root_dir_name(id).unwrap();
        assert_eq!(dir_name_to_root(name), Some(id));
    }
    assert_eq!(root_dir_name(roots::MENU), Some("menu"));
    assert_eq!(root_dir_name(roots::TAGS), None);
    assert_eq!(root_dir_name(roots::ROOT), None);
    assert_eq!(dir_name_to_root("tags"), None);
}

#[test]
fn filenames_are_sanitized() {
    assert_eq!(sanitize_filename("a/b:c*d?\"<>|e"), "a_b_c_d_____e");
    assert_eq!(sanitize_filename("  spaced  "), "spaced");
    assert_eq!(sanitize_filename("   "), "untitled");
    assert_eq!(sanitize_filename(""), "untitled");
    assert_eq!(sanitize_filename("tab\there"), "tab_here");
    assert_eq!(sanitize_filename(&"x".repeat(150)), "x".repeat(100));
    assert_eq!(sanitize_filename(&"é".repeat(60)), "é".repeat(50));
}

#[test]
fn hosts_are_reversed() {
    assert_eq!(reverse_host("https://www.example.com/path"), "moc.elpmaxe.www.");
    assert_eq!(reverse_host("http://localhost:8080/x"), "tsohlacol.");
    assert_eq!(reverse_host("ftp://example.com"), "");
    assert_eq!(reverse_host("https://"), ".");
}

#[test]
fn guids_are_twelve_base64_digits() {
    assert_eq!(guid_from_timestamp(0), "000000000000");
    assert_eq!(guid_from_timestamp(64), "010000000000");
    assert_eq!(guid_from_timestamp(63), "-00000000000");
    assert_eq!(guid_from_timestamp(10 + 36 * 64), "Aa0000000000");
    let g = generate_guid();
    assert_eq!(g.chars().count(), 12);
}

#[test]
fn separators_export_their_fields() {
    let s = DbSeparator { parent: 2, position: 4, guid: "g".to_string(), date_added: 5, last_modified: 6 };
    let e = db_separator_to_export(&s);
    assert_eq!((e.guid.as_str(), e.date_added, e.last_modified), ("g", 5, 6));
}

#[test]
fn folder_paths_climb_to_a_root_folder() {
    let fs = sample_folders();
    let tree = build_folder_tree(&fs);
    let titles = build_folder_titles(&fs);
    assert_eq!(tree.get(&11), Some(&10));
    assert_eq!(titles.get(&13).map(String::as_str), Some("D"));
    assert_eq!(build_folder_path(11, &tree, &titles), strs(&["A", "B/C"]));
    assert_eq!(build_folder_path(2, &tree, &titles), strs(&[]));
    assert_eq!(find_root_folder(11, &tree), 2);
    assert_eq!(find_root_folder(2, &tree), 2);
    assert_eq!(find_root_folder(99, &tree), 99);
    assert_eq!(folder_depth(&fs[2], &tree), 2);
    assert_eq!(folder_depth(&fs[1], &tree), 1);
    assert_eq!(folder_export_dir(11, &tree, &titles), Some(strs(&["menu", "A", "B_C"])));
    assert_eq!(item_export_dir(2, &tree, &titles), Some(strs(&["menu"])));
    assert_eq!(item_export_dir(13, &tree, &titles), Some(strs(&["menu", "D"])));
    assert_eq!(item_export_dir(4, &tree, &titles), None);
    assert!(is_tag_entry(4, &tree));
    assert!(is_tag_entry(12, &tree));
    assert!(!is_tag_entry(10, &tree));
    assert_eq!(creation_order(&fs, &tree), vec![1, 4, 2]);
}

#[test]
fn index_names() {
    assert_eq!(numbered_name("x", 2), "x-2");
    assert_eq!(separator_base_name("abc"), "---abc");
    assert_eq!(folder_index_name("a/b"), "a_b/");
    let items = vec![
        IndexItem { name: "b".to_string(), position: 3 },
        IndexItem { name: "a".to_string(), position: 1 },
        IndexItem { name: "c".to_string(), position: 3 },
        IndexItem { name: "z".to_string(), position: -1 },
    ];
    assert_eq!(index_order(items), strs(&["z", "a", "b", "c"]));
}

#[test]
fn entries_are_ordered_by_the_index_then_by_name() {
    let names = strs(&["c", "a", "b", "x"]);
    let idx = FolderIndex { order: strs(&["b", "zz", "a", "b"]) };
    assert_eq!(order_names(&names, Some(&idx), false), vec![1, 2, 0, 3]);
    assert_eq!(order_names(&names, None, false), vec![1, 2, 0, 3]);
    let idx = FolderIndex { order: strs(&["x/", "c"]) };
    assert_eq!(order_names(&names, Some(&idx), true), vec![3, 1, 2, 0]);
    assert_eq!(order_names(&names, Some(&idx), false), vec![0, 1, 2, 3]);
}

#[test]
fn positions_come_from_the_index_or_count_up() {
    let idx = FolderIndex { order: strs(&["a/", "b", "a"]) };
    let pm = build_position_map(Some(&idx));
    assert_eq!(pm.keys, strs(&["a", "b", "a"]));
    let mut counter = 5;
    assert_eq!(get_position("a", &pm, &mut counter), 2);
    assert_eq!(get_position("b", &pm, &mut counter), 1);
    assert_eq!(counter, 5);
    assert_eq!(get_position("z", &pm, &mut counter), UNLISTED_POSITION_BASE + 5);
    assert_eq!(counter, 6);
    let empty = build_position_map(None);
    assert!(empty.keys.is_empty());
}

#[test]
fn profiles_are_found_case_insensitively() {
    let ps = vec![
        Profile { name: "Default".to_string(), path: "/p1".to_string() },
        Profile { name: "work".to_string(), path: "/p2".to_string() },
        Profile { name: "WORK".to_string(), path: "/p3".to_string() },
    ];
    let p = find_profile("default", &ps).unwrap();
    assert_eq!((p.name.as_str(), p.path.as_str()), ("Default", "/p1"));
    match find_profile("Work", &ps) {
        Err(FindProfileError::AmbiguousProfile { name, matches }) => {
            assert_eq!(name, "Work");
            assert_eq!(matches, strs(&["work", "WORK"]));
        }
        other => panic!("unexpected {other:?}"),
    }
    match find_profile("none", &ps) {
        Err(FindProfileError::ProfileNotFound { name }) => assert_eq!(name, "none"),
        other => panic!("unexpected {other:?}"),
    }
}

fn entry(name: &str, is_bookmark: bool) -> ImportEntry {
    ImportEntry { name: name.to_string(), is_bookmark }
}

fn import_folder(path: &str, order: Option<&[&str]>, entries: Vec<ImportEntry>) -> ImportFolder {
    ImportFolder { path: path.to_string(), index: order.map(|o| FolderIndex { order: strs(o) }), entries }
}

fn describe(steps: &[ImportStep]) -> Vec<String> {
    let parent = |p: &ParentRef| match p {
        ParentRef::Root(id) => format!("root{id}"),
        ParentRef::Created(i) => format!("step{i}"),
    };
    steps
        .iter()
        .map(|s| match s {
            ImportStep::CreateFolder { parent: p, title, position } => {
                format!("folder {title} in {} at {position}", parent(p))
            }
            ImportStep::InsertEntry { parent: p, position, root, folder, entry } => {
                format!("entry {root}/{folder}/{entry} in {} at {position}", parent(p))
            }
        })
        .collect()
}

#[test]
fn import_plan_positions_folders_and_entries() {
    let menu = RootTree {
        name: "menu".to_string(),
        folders: vec![
            import_folder(
                "",
                Some(&["b/", "x", "a/"]),
                vec![entry("x", true), entry("y", true), entry("---g", false)],
            ),
            import_folder("a", None, vec![entry("m", true)]),
            import_folder("b", None, vec![]),
            import_folder("b/c", None, vec![]),
        ],
    };
    let ignored = RootTree { name: "nope".to_string(), folders: vec![import_folder("", None, vec![entry("q", true)])] };
    let toolbar = RootTree { name: "toolbar".to_string(), folders: vec![import_folder("", None, vec![entry("z", true)])] };
    let (steps, stats) = import_bookmarks(&vec![menu, ignored, toolbar]);
    assert_eq!(
        describe(&steps),
        strs(&[
            "folder a in root2 at 2",
            "folder b in root2 at 0",
            "folder c in step1 at 100000",
            "entry 0/0/0 in root2 at 1",
            "entry 0/0/1 in root2 at 100000",
            "entry 0/0/2 in root2 at 100001",
            "entry 0/1/0 in step0 at 100000",
            "entry 2/0/0 in root3 at 100000",
        ])
    );
    assert_eq!(
        (stats.folders_created, stats.bookmarks_imported, stats.separators_imported),
        (3, 4, 1)
    );
}

#[test]
fn an_empty_import_plans_nothing() {
    let (steps, stats) = import_bookmarks(&vec![]);
    assert!(steps.is_empty());
    assert_eq!((stats.folders_created, stats.bookmarks_imported, stats.separators_imported), (0, 0, 0));
}

#[test]
fn export_plan_names_files_and_orders_indices() {
    let folders = vec![
        folder(2, 1, "menu"),
        folder(3, 1, "toolbar"),
        folder(4, 1, "tags"),
        folder(10, 2, "A"),
        folder(11, 10, "B"),
        folder(12, 4, "tagx"),
    ];
    let positions = vec![(10, 1), (11, 0)];
    let bm = |parent: i64, title: &str, position: i32| DbBookmark {
        parent,
        place_id: Some(1),
        title: title.to_string(),
        position,
        guid: format!("g-{title}"),
        date_added: 0,
        last_modified: 0,
    };
    let bookmarks = vec![
        bm(10, "x", 2),
        bm(10, "y", 0),
        bm(10, "y", 3),
        bm(12, "tagged", 0),
        bm(2, "top", 5),
        bm(3, "bar/baz", 0),
    ];
    let has_url = vec![true, true, true, true, false, true];
    let sep = |parent: i64, position: i32, guid: &str| DbSeparator {
        parent,
        position,
        guid: guid.to_string(),
        date_added: 0,
        last_modified: 0,
    };
    let separators = vec![sep(10, 1, "g1"), sep(2, 0, "g2")];
    let pre = vec![
        (strs(&["menu", "A"]), "x.toml".to_string()),
        (strs(&["toolbar"]), "bar_baz-1.toml".to_string()),
    ];
    let plan = export_bookmarks(&folders, &positions, &bookmarks, &has_url, &separators, &pre, &pre);
    assert_eq!(plan.folder_dirs, vec![strs(&["menu", "A"]), strs(&["menu", "A", "B"])]);
    let files: Vec<(Vec<String>, String, ExportItem)> =
        plan.files.iter().map(|f| (f.dir.clone(), f.name.clone(), f.item)).collect();
    assert_eq!(
        files,
        vec![
            (strs(&["menu", "A"]), "y".to_string(), ExportItem::Bookmark(1)),
            (strs(&["menu", "A"]), "y-1".to_string(), ExportItem::Bookmark(2)),
            (strs(&["toolbar"]), "bar_baz".to_string(), ExportItem::Bookmark(5)),
            (strs(&["menu", "A"]), "---g1".to_string(), ExportItem::Separator(0)),
            (strs(&["menu"]), "---g2".to_string(), ExportItem::Separator(1)),
        ]
    );
    assert_eq!(
        plan.indices,
        vec![
            (strs(&["menu"]), strs(&["---g2", "A/"])),
            (strs(&["menu", "A"]), strs(&["B/", "y", "---g1", "x", "y-1"])),
            (strs(&["toolbar"]), strs(&["bar_baz"])),
        ]
    );
    assert_eq!((plan.bookmarks_skipped, plan.separators_skipped), (1, 0));
}

#[test]
fn export_names_skip_every_clash() {
    let folders = vec![folder(2, 1, "menu")];
    let bm = |position: i32| DbBookmark {
        parent: 2,
        place_id: Some(1),
        title: "same".to_string(),
        position,
        guid: String::new(),
        date_added: 0,
        last_modified: 0,
    };
    let bookmarks = vec![bm(0), bm(1), bm(2)];
    let pre = vec![(strs(&["menu"]), "same-1.toml".to_string())];
    let plan = export_bookmarks(&folders, &vec![], &bookmarks, &vec![true, true, true], &vec![], &pre, &pre);
    let names: Vec<String> = plan.files.iter().map(|f| f.name.clone()).collect();
    assert_eq!(names, strs(&["same", "same-2", "same-3"]));
    assert_eq!(plan.indices.len(), 1);
}

#[test]
fn an_existing_index_file_is_kept() {
    let folders = vec![folder(2, 1, "menu")];
    let bookmarks = vec![DbBookmark {
        parent: 2,
        place_id: Some(1),
        title: "b".to_string(),
        position: 0,
        guid: String::new(),
        date_added: 0,
        last_modified: 0,
    }];
    let pre = vec![(strs(&["menu"]), "__index.toml".to_string())];
    let plan = export_bookmarks(&folders, &vec![], &bookmarks, &vec![true], &vec![], &pre, &pre);
    assert_eq!(plan.files.len(), 1);
    assert!(plan.indices.is_empty());
}

#[test]
fn profiles_are_listed_once_per_directory_by_name() {
    let p = |name: &str, path: &str| Profile { name: name.to_string(), path: path.to_string() };
    let found = vec![p("work", "/a"), p("Default", "/b"), p("renamed", "/a"), p("alpha", "/c")];
    let listed: Vec<(String, String)> = rust_kart::ffbm::profile::collect_profiles(found)
        .into_iter()
        .map(|p| (p.name, p.path))
        .collect();
    assert_eq!(
        listed,
        vec![
            ("Default".to_string(), "/b".to_string()),
            ("alpha".to_string(), "/c".to_string()),
            ("renamed".to_string(), "/a".to_string()),
        ]
    );
    assert!(rust_kart::ffbm::profile::collect_profiles(vec![]).is_empty());
}

#[test]
fn files_are_read_by_their_extension() {
    assert_eq!(entry_of_file("GitHub.toml"), Some(("GitHub".to_string(), true)));
    assert_eq!(entry_of_file("sep-1.separator"), Some(("sep-1".to_string(), false)));
    assert_eq!(entry_of_file("Loud.TOML"), Some(("Loud.TOML".to_string(), true)));
    assert_eq!(entry_of_file("a.b.Separator"), Some(("a.b.Separator".to_string(), false)));
    assert_eq!(entry_of_file("__index.toml"), None);
    assert_eq!(entry_of_file(".toml"), None);
    assert_eq!(entry_of_file("notes.txt"), None);
    assert_eq!(entry_of_file("README"), None);
    let a: Vec<char> = "ToMl".chars().collect();
    let b: Vec<char> = "toml".chars().collect();
    assert!(caseless_equal(&a, &b));
    assert!(!caseless_equal(&a, &b[..3]));
}

#[test]
fn a_directory_blocks_a_name_but_is_not_skipped_like_a_file() {
    let folders = vec![folder(2, 1, "menu")];
    let bookmarks = vec![DbBookmark {
        parent: 2,
        place_id: Some(1),
        title: "b".to_string(),
        position: 0,
        guid: String::new(),
        date_added: 0,
        last_modified: 0,
    }];
    let dir = vec![(strs(&["menu"]), "b.toml".to_string())];
    let plan = export_bookmarks(&folders, &vec![], &bookmarks, &vec![true], &vec![], &vec![], &dir);
    let names: Vec<String> = plan.files.iter().map(|f| f.name.clone()).collect();
    assert_eq!(names, strs(&["b-1"]));
    assert_eq!(plan.bookmarks_skipped, 0);
}

#[test]
fn a_folder_directory_of_the_export_blocks_a_name() {
    let folders = vec![folder(2, 1, "menu"), folder(20, 2, "b.toml")];
    let bookmarks = vec![DbBookmark {
        parent: 2,
        place_id: Some(1),
        title: "b".to_string(),
        position: 1,
        guid: String::new(),
        date_added: 0,
        last_modified: 0,
    }];
    let plan = export_bookmarks(&folders, &vec![], &bookmarks, &vec![true], &vec![], &vec![], &vec![]);
    let names: Vec<String> = plan.files.iter().map(|f| f.name.clone()).collect();
    assert_eq!(names, strs(&["b-1"]));
}
