use ygg::blind::{assign_rope_groups, design_for_index, SlatDesign, SlatMode};
use ygg::filetree::{
    flatten, folder_paths, is_filtered, listing_from_dir, RawEntry, RawKind, listing_from_entries, pick_representative_file, DirectoryEntry,
    DirectoryListing, EntryKind, TreeState,
};

fn entry(name: &str, path: &str, kind: EntryKind) -> DirectoryEntry {
    DirectoryEntry { name: name.to_string(), path: path.to_string(), kind }
}

#[test]
fn pick_representative_file_prefers_readme() {
    let listing = DirectoryListing {
        root: "/x".to_string(),
        entries: vec![
            entry("main.py", "/x/main.py", EntryKind::File),
            entry("README.md", "/x/README.md", EntryKind::File),
        ],
    };
    assert_eq!(
        pick_representative_file(&listing, &["py", "md"]),
        Some("/x/README.md".to_string())
    );
}

#[test]
fn pick_representative_file_falls_back_to_first_supported_source() {
    let listing = DirectoryListing {
        root: "/x".to_string(),
        entries: vec![
            entry("data.json", "/x/data.json", EntryKind::File),
            entry("main.py", "/x/main.py", EntryKind::File),
        ],
    };
    assert_eq!(
        pick_representative_file(&listing, &["py", "rs"]),
        Some("/x/main.py".to_string())
    );
}

#[test]
fn pick_representative_file_returns_none_when_nothing_matches() {
    let listing = DirectoryListing {
        root: "/x".to_string(),
        entries: vec![entry("unknown.xyz", "/x/unknown.xyz", EntryKind::File)],
    };
    assert_eq!(pick_representative_file(&listing, &["py", "rs"]), None);
}

#[test]
fn pick_representative_file_is_case_insensitive_for_readme() {
    let listing = DirectoryListing {
        root: "/x".to_string(),
        entries: vec![entry("readme.md", "/x/readme.md", EntryKind::File)],
    };
    assert_eq!(
        pick_representative_file(&listing, &["md"]),
        Some("/x/readme.md".to_string())
    );
}

#[test]
fn pick_representative_file_skips_folders_and_lowercases_extensions() {
    let listing = DirectoryListing {
        root: "/x".to_string(),
        entries: vec![
            entry("README.md", "/x/README.md", EntryKind::Folder),
            entry("Main.PY", "/x/Main.PY", EntryKind::File),
        ],
    };
    assert_eq!(
        pick_representative_file(&listing, &["py"]),
        Some("/x/Main.PY".to_string())
    );
}

#[test]
fn pick_representative_file_ignores_dotfile_without_extension() {
    let listing = DirectoryListing {
        root: "/x".to_string(),
        entries: vec![entry(".py", "/x/.py", EntryKind::File)],
    };
    assert_eq!(pick_representative_file(&listing, &["py"]), None);
}

fn mock_listing(root: &str, entries: &[(&str, EntryKind)]) -> DirectoryListing {
    DirectoryListing {
        root: root.to_string(),
        entries: entries
            .iter()
            .map(|(name, kind)| DirectoryEntry {
                name: name.to_string(),
                path: format!("{root}/{name}"),
                kind: *kind,
            })
            .collect(),
    }
}

#[test]
fn flatten_root_only_when_nothing_expanded() {
    let root = mock_listing("/r", &[("src", EntryKind::Folder), ("README.md", EntryKind::File)]);
    let tree = TreeState::new(root);
    let flat = flatten(&tree);
    let names: Vec<&str> = flat.iter().map(|e| e.name.as_str()).collect();
    assert_eq!(names, vec!["src", "README.md"]);
    assert!(flat.iter().all(|e| e.depth == 0));
}

#[test]
fn flatten_reveals_children_when_folder_expanded() {
    let root = mock_listing("/r", &[("src", EntryKind::Folder), ("README.md", EntryKind::File)]);
    let src_children =
        mock_listing("/r/src", &[("main.py", EntryKind::File), ("lib.py", EntryKind::File)]);
    let mut tree = TreeState::new(root);
    tree.insert_child("/r/src".to_string(), src_children);
    tree.toggle_folder("/r/src");
    let flat = flatten(&tree);
    let shape: Vec<(&str, usize)> = flat.iter().map(|e| (e.name.as_str(), e.depth)).collect();
    assert_eq!(shape, vec![("src", 0), ("main.py", 1), ("lib.py", 1), ("README.md", 0)]);
}

#[test]
fn flatten_skips_unwalked_expanded_folders_silently() {
    let root = mock_listing("/r", &[("src", EntryKind::Folder)]);
    let mut tree = TreeState::new(root);
    tree.toggle_folder("/r/src");
    let flat = flatten(&tree);
    let names: Vec<&str> = flat.iter().map(|e| e.name.as_str()).collect();
    assert_eq!(names, vec!["src"]);
    assert_eq!(tree.unwalked_expanded(), vec!["/r/src".to_string()]);
}

#[test]
fn flatten_handles_nested_expansion() {
    let root = mock_listing("/r", &[("a", EntryKind::Folder)]);
    let a_children = mock_listing("/r/a", &[("b", EntryKind::Folder)]);
    let b_children = mock_listing("/r/a/b", &[("leaf.py", EntryKind::File)]);
    let mut tree = TreeState::new(root);
    tree.insert_child("/r/a".to_string(), a_children);
    tree.insert_child("/r/a/b".to_string(), b_children);
    tree.toggle_folder("/r/a");
    tree.toggle_folder("/r/a/b");
    let flat = flatten(&tree);
    let shape: Vec<(&str, usize)> = flat.iter().map(|e| (e.name.as_str(), e.depth)).collect();
    assert_eq!(shape, vec![("a", 0), ("b", 1), ("leaf.py", 2)]);
}

#[test]
fn flatten_does_not_reenter_a_folder_inside_itself() {
    // A listing that lists its own folder again stops there.
    let root = mock_listing("/r", &[("a", EntryKind::Folder)]);
    let mut loopy = mock_listing("/r/a", &[("x.py", EntryKind::File)]);
    loopy.entries.push(DirectoryEntry {
        name: "a".to_string(),
        path: "/r/a".to_string(),
        kind: EntryKind::Folder,
    });
    let mut tree = TreeState::new(root);
    tree.insert_child("/r/a".to_string(), loopy);
    tree.toggle_folder("/r/a");
    let flat = flatten(&tree);
    let shape: Vec<(&str, usize)> = flat.iter().map(|e| (e.name.as_str(), e.depth)).collect();
    assert_eq!(shape, vec![("a", 0), ("x.py", 1), ("a", 1)]);
}

#[test]
fn toggle_folder_flips_expansion_and_seeds_animation() {
    let root = mock_listing("/r", &[("src", EntryKind::Folder)]);
    let mut tree = TreeState::new(root);
    assert!(!tree.is_folder_expanded("/r/src"));
    // `true`: just opened, so the expansion animation starts from 0.
    assert!(tree.toggle_folder("/r/src"));
    assert!(tree.is_folder_expanded("/r/src"));
    // `false`: just closed, so it starts from 1.
    assert!(!tree.toggle_folder("/r/src"));
    assert!(!tree.is_folder_expanded("/r/src"));
    assert!(tree.expanded.is_empty());
}

#[test]
fn insert_child_replaces_an_earlier_listing() {
    let mut tree = TreeState::new(mock_listing("/r", &[("a", EntryKind::Folder)]));
    tree.insert_child("/r/a".to_string(), mock_listing("/r/a", &[("old.py", EntryKind::File)]));
    tree.insert_child("/r/a".to_string(), mock_listing("/r/a", &[("new.py", EntryKind::File)]));
    assert_eq!(tree.children.len(), 1);
    let l = tree.child_listing_of("/r/a").unwrap();
    assert_eq!(l.entries[0].name, "new.py");
    assert!(tree.child_listing_of("/r/b").is_none());
}

#[test]
fn listing_sorts_folders_first_then_names_ignoring_case() {
    let raw = vec![
        DirectoryEntry { name: "b.py".into(), path: "/x/b.py".into(), kind: EntryKind::File },
        DirectoryEntry { name: "Src".into(), path: "/x/Src".into(), kind: EntryKind::Folder },
        DirectoryEntry { name: "A.md".into(), path: "/x/A.md".into(), kind: EntryKind::File },
        DirectoryEntry { name: ".git".into(), path: "/x/.git".into(), kind: EntryKind::Folder },
        DirectoryEntry { name: "target".into(), path: "/x/target".into(), kind: EntryKind::Folder },
        DirectoryEntry { name: "lib".into(), path: "/x/lib".into(), kind: EntryKind::Folder },
    ];
    let l = listing_from_entries("/x".to_string(), raw);
    let names: Vec<&str> = l.entries.iter().map(|e| e.name.as_str()).collect();
    assert_eq!(names, vec!["lib", "Src", "A.md", "b.py"]);
}

#[test]
fn filtered_names() {
    assert!(is_filtered(".hidden"));
    assert!(is_filtered("node_modules"));
    assert!(is_filtered("venv"));
    assert!(!is_filtered("src"));
    assert!(!is_filtered("visible.py"));
}

#[test]
fn rope_groups_separate_sibling_subtrees() {
    let root = mock_listing("/r", &[("a", EntryKind::Folder), ("b", EntryKind::Folder)]);
    let a_children = mock_listing("/r/a", &[("x.py", EntryKind::File), ("y.py", EntryKind::File)]);
    let b_children = mock_listing("/r/b", &[("z.py", EntryKind::File)]);
    let mut tree = TreeState::new(root);
    tree.insert_child("/r/a".to_string(), a_children);
    tree.insert_child("/r/b".to_string(), b_children);
    tree.toggle_folder("/r/a");
    tree.toggle_folder("/r/b");

    let entries = flatten(&tree);
    let groups = assign_rope_groups(&entries);
    let by_name: std::collections::HashMap<&str, usize> =
        entries.iter().zip(groups.iter()).map(|(e, g)| (e.name.as_str(), *g)).collect();
    assert_eq!(by_name["a"], by_name["b"]);
    assert_eq!(by_name["x.py"], by_name["y.py"]);
    assert_ne!(by_name["x.py"], by_name["z.py"]);
    assert_ne!(by_name["a"], by_name["x.py"]);
}

#[test]
fn rope_group_ids_for_a_deep_tree() {
    let root = mock_listing("/r", &[("a", EntryKind::Folder), ("c.py", EntryKind::File)]);
    let a = mock_listing("/r/a", &[("b", EntryKind::Folder), ("y.py", EntryKind::File)]);
    let b = mock_listing("/r/a/b", &[("x.py", EntryKind::File)]);
    let mut tree = TreeState::new(root);
    tree.insert_child("/r/a".to_string(), a);
    tree.insert_child("/r/a/b".to_string(), b);
    tree.toggle_folder("/r/a");
    tree.toggle_folder("/r/a/b");
    let entries = flatten(&tree);
    // a, b, x.py, y.py, c.py at depths 0, 1, 2, 1, 0.
    assert_eq!(assign_rope_groups(&entries), vec![0, 1, 2, 1, 0]);
}

#[test]
fn slat_designs_by_mode() {
    assert_eq!(design_for_index(SlatMode::Closed, 3), SlatDesign::Closed);
    assert_eq!(design_for_index(SlatMode::Open, 0), SlatDesign::Open);
    assert_eq!(design_for_index(SlatMode::Alternating, 0), SlatDesign::Closed);
    assert_eq!(design_for_index(SlatMode::Alternating, 1), SlatDesign::Open);
    assert_eq!(design_for_index(SlatMode::Alternating, 2), SlatDesign::Closed);
}

#[test]
fn folder_paths_keep_listing_order() {
    let l = mock_listing("/r", &[("b", EntryKind::Folder), ("x.py", EntryKind::File), ("a", EntryKind::Folder)]);
    assert_eq!(folder_paths(&l), vec!["/r/b".to_string(), "/r/a".to_string()]);
}

#[test]
fn expand_next_expands_depth_first_and_skips_expanded_folders() {
    let root = mock_listing("/r", &[("a", EntryKind::Folder), ("b", EntryKind::Folder)]);
    let mut tree = TreeState::new(root);
    tree.toggle_folder("/r/b");
    let mut pending = folder_paths(&tree.root);
    let mut order = Vec::new();
    while let Some(folder) = tree.expand_next(&mut pending) {
        let listing = if folder == "/r/a" {
            mock_listing("/r/a", &[("c", EntryKind::Folder)])
        } else {
            mock_listing(&folder, &[])
        };
        pending.extend(folder_paths(&listing));
        tree.insert_child(folder.clone(), listing);
        order.push(folder);
    }
    // "/r/b" was already expanded, so it is dropped; "/r/a" opens and its
    // subfolder follows.
    assert_eq!(order, vec!["/r/a".to_string(), "/r/a/c".to_string()]);
    assert!(pending.is_empty());
    for p in ["/r/a", "/r/b", "/r/a/c"] {
        assert!(tree.is_folder_expanded(p), "{p} expanded");
    }
    assert_eq!(tree.expand_next(&mut pending), None);
}

#[test]
fn listing_from_dir_keeps_utf8_folders_and_files_only() {
    let raw = |name: Option<&str>, kind: RawKind| RawEntry {
        name: name.map(|n| n.to_string()),
        path: format!("/d/{}", name.unwrap_or("?")),
        kind,
    };
    let l = listing_from_dir(
        "/d".to_string(),
        vec![
            raw(Some("b.py"), RawKind::File),
            raw(None, RawKind::File),
            raw(Some("link"), RawKind::Other),
            raw(Some("gone"), RawKind::Unreadable),
            raw(Some(".git"), RawKind::Dir),
            raw(Some("Src"), RawKind::Dir),
            raw(Some("a.py"), RawKind::File),
        ],
    );
    assert_eq!(l.root, "/d");
    let names: Vec<&str> = l.entries.iter().map(|e| e.name.as_str()).collect();
    assert_eq!(names, vec!["Src", "a.py", "b.py"]);
    assert_eq!(l.entries[0].kind, EntryKind::Folder);
    assert_eq!(l.entries[0].path, "/d/Src");
}

#[test]
fn record_walks_keeps_successes_and_skips_failures() {
    let root = mock_listing("/r", &[("a", EntryKind::Folder), ("b", EntryKind::Folder)]);
    let mut tree = TreeState::new(root);
    tree.toggle_folder("/r/a");
    tree.toggle_folder("/r/b");
    assert_eq!(tree.unwalked_expanded(), vec!["/r/a".to_string(), "/r/b".to_string()]);
    tree.record_walks(vec![
        ("/r/a".to_string(), Some(mock_listing("/r/a", &[("x.py", EntryKind::File)]))),
        ("/r/b".to_string(), None),
    ]);
    assert_eq!(tree.child_listing_of("/r/a").unwrap().entries[0].name, "x.py");
    assert!(tree.child_listing_of("/r/b").is_none());
    assert_eq!(tree.unwalked_expanded(), vec!["/r/b".to_string()]);
}
