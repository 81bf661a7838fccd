use crv_core::metadata::{
    BranchDoc, BranchMetadata, ChangelistAction, ChangelistChange, ChangelistDoc, ChangelistMetadata, FileDoc,
    FileMetadata, FileRevisionDoc, FileRevisionMetadata,
};
use crv_core::tree::{construct_tree_from_changelist, FileTreeError, FileTreeNode};
use std::collections::HashMap;

const FILE_COUNT: usize = 100;
fn collect_files(nodes: &[FileTreeNode], out: &mut HashMap<String, String>) {
    for node in nodes {
        match node {
            FileTreeNode::Directory { children, .. } => {
                collect_files(children, out);
            }
            FileTreeNode::File {
                file_id,
                reivision_id,
                ..
            } => {
                out.insert(file_id.clone(), reivision_id.clone());
            }
        }
    }
}

fn build_common_branch() -> BranchDoc {
    BranchDoc {
        id: "branch_main".to_string(),
        created_at: 0,
        created_by: "userA".to_string(),
        head_changelist_id: 300,
        metadata: BranchMetadata {
            description: "main".to_string(),
        },
    }
}

fn build_file_docs() -> HashMap<String, FileDoc> {
    let mut files = HashMap::new();
    files.insert(
        "f1".to_string(),
        FileDoc {
            id: "f1".to_string(),
            path: "//src/module/a.cpp".to_string(),
            seen_on_branches: vec!["branch_main".to_string()],
            created_at: 0,
            metadata: FileMetadata {
                first_introduced_by: "userA".to_string(),
            },
        },
    );
    files.insert(
        "f2".to_string(),
        FileDoc {
            id: "f2".to_string(),
            path: "//src/other/b.cpp".to_string(),
            seen_on_branches: vec!["branch_main".to_string()],
            created_at: 0,
            metadata: FileMetadata {
                first_introduced_by: "userA".to_string(),
            },
        },
    );
    files
}

fn build_file_revisions() -> HashMap<String, FileRevisionDoc> {
    let mut revs = HashMap::new();
    revs.insert(
        "r1".to_string(),
        FileRevisionDoc {
            id: "r1".to_string(),
            branch_id: "branch_main".to_string(),
            file_id: "f1".to_string(),
            changelist_id: 100,
            binary_id: vec!["blob_r1".to_string()],
            parent_revision_id: "".to_string(),
            size: 10,
            is_delete: false,
            created_at: 1,
            metadata: FileRevisionMetadata {
                file_mode: "755".to_string(),
                hash: "h1".to_string(),
                is_binary: false,
                language: "cpp".to_string(),
            },
        },
    );
    revs.insert(
        "r2".to_string(),
        FileRevisionDoc {
            id: "r2".to_string(),
            branch_id: "branch_main".to_string(),
            file_id: "f1".to_string(),
            changelist_id: 200,
            binary_id: vec!["blob_r2".to_string()],
            parent_revision_id: "r1".to_string(),
            size: 20,
            is_delete: false,
            created_at: 2,
            metadata: FileRevisionMetadata {
                file_mode: "755".to_string(),
                hash: "h2".to_string(),
                is_binary: false,
                language: "cpp".to_string(),
            },
        },
    );
    revs.insert(
        "r3_unused".to_string(),
        FileRevisionDoc {
            id: "r3_unused".to_string(),
            branch_id: "branch_main".to_string(),
            file_id: "f2".to_string(),
            changelist_id: 200,
            binary_id: vec!["blob_r3".to_string()],
            parent_revision_id: "".to_string(),
            size: 5,
            is_delete: false,
            created_at: 3,
            metadata: FileRevisionMetadata {
                file_mode: "755".to_string(),
                hash: "h3".to_string(),
                is_binary: false,
                language: "cpp".to_string(),
            },
        },
    );
    revs
}

fn build_changelists() -> HashMap<i64, ChangelistDoc> {
    let mut cls = HashMap::new();
    cls.insert(
        100,
        ChangelistDoc {
            id: 100,
            parent_changelist_id: 0,
            branch_id: "branch_main".to_string(),
            author: "userA".to_string(),
            description: "create f1".to_string(),
            changes: vec![ChangelistChange {
                file: "f1".to_string(),
                action: ChangelistAction::Create,
                revision: "r1".to_string(),
            }],
            committed_at: 1,
            files_count: 1,
            metadata: ChangelistMetadata { labels: vec![] },
        },
    );
    cls.insert(
        200,
        ChangelistDoc {
            id: 200,
            parent_changelist_id: 100,
            branch_id: "branch_main".to_string(),
            author: "userA".to_string(),
            description: "modify f1; create f2".to_string(),
            changes: vec![
                ChangelistChange {
                    file: "f1".to_string(),
                    action: ChangelistAction::Modify,
                    revision: "r2".to_string(),
                },
                ChangelistChange {
                    file: "f2".to_string(),
                    action: ChangelistAction::Create,
                    revision: "r3_unused".to_string(),
                },
            ],
            committed_at: 2,
            files_count: 2,
            metadata: ChangelistMetadata { labels: vec![] },
        },
    );
    cls.insert(
        300,
        ChangelistDoc {
            id: 300,
            parent_changelist_id: 200,
            branch_id: "branch_main".to_string(),
            author: "userA".to_string(),
            description: "delete f1".to_string(),
            changes: vec![ChangelistChange {
                file: "f1".to_string(),
                action: ChangelistAction::Delete,
                revision: "r2".to_string(),
            }],
            committed_at: 3,
            files_count: 1,
            metadata: ChangelistMetadata { labels: vec![] },
        },
    );
    cls
}

#[test]
fn construct_tree_basic_visible_file() {
    let branch = build_common_branch();
    let files = build_file_docs();
    let revs = build_file_revisions();
    let cls = build_changelists();

    let get_branch = move |id: &str| {
        if id == branch.id {
            Ok(Some(branch.clone()))
        } else {
            Ok(None)
        }
    };

    let get_changelist = move |id: i64| Ok(cls.get(&id).cloned());
    let get_file = move |id: &str| Ok(files.get(id).cloned());
    let get_file_revision = move |id: &str| Ok(revs.get(id).cloned());

    let tree = construct_tree_from_changelist(
        "branch_main",
        "//src/module/...",
        200,
        get_branch,
        get_changelist,
        get_file,
        get_file_revision,
    )
    .expect("constructTreeFromHead should succeed");

    assert_eq!(tree.nodes.len(), 1);
    match &tree.nodes[0] {
        FileTreeNode::File {
            name,
            file_id,
            reivision_id,
            ..
        } => {
            assert_eq!(name, "a.cpp");
            assert_eq!(file_id, "f1");
            assert_eq!(reivision_id, "r2");
        }
        other => panic!("unexpected node: {:?}", other),
    }
}

#[test]
fn construct_tree_respects_delete() {
    let branch = build_common_branch();
    let files = build_file_docs();
    let revs = build_file_revisions();
    let cls = build_changelists();

    let get_branch = move |id: &str| {
        if id == branch.id {
            Ok(Some(branch.clone()))
        } else {
            Ok(None)
        }
    };

    let get_changelist = move |id: i64| Ok(cls.get(&id).cloned());
    let get_file = move |id: &str| Ok(files.get(id).cloned());
    let get_file_revision = move |id: &str| Ok(revs.get(id).cloned());

    let tree = construct_tree_from_changelist(
        "branch_main",
        "//src/module/...",
        300,
        get_branch,
        get_changelist,
        get_file,
        get_file_revision,
    )
    .expect("constructTreeFromHead should succeed");

    assert!(tree.nodes.is_empty());
}

#[test]
fn construct_tree_long_changelist_chain() {
    
    let branch = BranchDoc {
        id: "branch_rand".to_string(),
        created_at: 0,
        created_by: "userLong".to_string(),
        head_changelist_id: 10,
        metadata: BranchMetadata {
            description: "long random branch".to_string(),
        },
    };

    let mut files: HashMap<String, FileDoc> = HashMap::new();
    files.insert(
        "fa".to_string(),
        FileDoc {
            id: "fa".to_string(),
            path: "//src/module/fa.txt".to_string(),
            seen_on_branches: vec!["branch_rand".to_string()],
            created_at: 0,
            metadata: FileMetadata {
                first_introduced_by: "userLong".to_string(),
            },
        },
    );
    files.insert(
        "fb".to_string(),
        FileDoc {
            id: "fb".to_string(),
            path: "//src/module/deep/fb.txt".to_string(),
            seen_on_branches: vec!["branch_rand".to_string()],
            created_at: 0,
            metadata: FileMetadata {
                first_introduced_by: "userLong".to_string(),
            },
        },
    );
    files.insert(
        "fc".to_string(),
        FileDoc {
            id: "fc".to_string(),
            path: "//src/other/fc.txt".to_string(),
            seen_on_branches: vec!["branch_rand".to_string()],
            created_at: 0,
            metadata: FileMetadata {
                first_introduced_by: "userLong".to_string(),
            },
        },
    );

    let file_ids = vec!["fa".to_string(), "fb".to_string(), "fc".to_string()];

    let mut exists: HashMap<String, bool> =
        file_ids.iter().map(|id| (id.clone(), false)).collect();
    let mut rev_counters: HashMap<String, i32> =
        file_ids.iter().map(|id| (id.clone(), 0)).collect();

    let mut revs: HashMap<String, FileRevisionDoc> = HashMap::new();
    let mut cls: HashMap<i64, ChangelistDoc> = HashMap::new();
    let mut expected_visible: HashMap<String, Option<String>> = HashMap::new();

    for i in 1_i64..=10 {
        let parent_id = if i == 1 { 0 } else { i - 1 };

        let idx = ((i * 7) as usize) % file_ids.len();
        let file_id = file_ids[idx].clone();

        let currently_exists = *exists.get(&file_id).unwrap();

        let (action, revision_id_opt) = if !currently_exists {
            let counter = rev_counters.entry(file_id.clone()).or_insert(0);
            *counter += 1;
            let rev_id = format!("{}_r{}", file_id, counter);
            revs.insert(
                rev_id.clone(),
                FileRevisionDoc {
                    id: rev_id.clone(),
                    branch_id: "branch_rand".to_string(),
                    file_id: file_id.clone(),
                    changelist_id: i,
                    binary_id: vec![format!("blob_{rev_id}")],
                    parent_revision_id: String::new(),
                    size: 10 * i,
                    is_delete: false,
                    created_at: i,
                    metadata: FileRevisionMetadata {
                        file_mode: "755".to_string(),
                        hash: format!("h_{rev_id}"),
                        is_binary: false,
                        language: "txt".to_string(),
                    },
                },
            );
            exists.insert(file_id.clone(), true);
            expected_visible.insert(file_id.clone(), Some(rev_id.clone()));
            (ChangelistAction::Create, Some(rev_id))
        } else {
            if i % 3 == 0 {
                exists.insert(file_id.clone(), false);
                expected_visible.insert(file_id.clone(), None);
                (ChangelistAction::Delete, None)
            } else {
                let counter = rev_counters.entry(file_id.clone()).or_insert(0);
                *counter += 1;
                let rev_id = format!("{}_r{}", file_id, counter);
                let parent_rev_id = if *counter > 1 {
                    format!("{}_r{}", file_id, *counter - 1)
                } else {
                    String::new()
                };
                revs.insert(
                    rev_id.clone(),
                    FileRevisionDoc {
                        id: rev_id.clone(),
                        branch_id: "branch_rand".to_string(),
                        file_id: file_id.clone(),
                        changelist_id: i,
                        binary_id: vec![format!("blob_{rev_id}")],
                        parent_revision_id: parent_rev_id,
                        size: 10 * i,
                        is_delete: false,
                        created_at: i,
                        metadata: FileRevisionMetadata {
                            file_mode: "755".to_string(),
                            hash: format!("h_{rev_id}"),
                            is_binary: false,
                            language: "txt".to_string(),
                        },
                    },
                );
                expected_visible.insert(file_id.clone(), Some(rev_id.clone()));
                (ChangelistAction::Modify, Some(rev_id))
            }
        };

        let revision_str = revision_id_opt.clone().unwrap_or_else(|| format!("{file_id}_del{i}"));

        cls.insert(
            i,
            ChangelistDoc {
                id: i,
                parent_changelist_id: parent_id,
                branch_id: "branch_rand".to_string(),
                author: "userLong".to_string(),
                description: format!("cl {i}"),
                changes: vec![ChangelistChange {
                    file: file_id,
                    action,
                    revision: revision_str,
                }],
                committed_at: i,
                files_count: 1,
                metadata: ChangelistMetadata { labels: vec![] },
            },
        );
    }

    let get_branch = move |id: &str| {
        if id == branch.id {
            Ok(Some(branch.clone()))
        } else {
            Ok(None)
        }
    };

    let cls_clone = cls.clone();
    let files_clone = files.clone();
    let revs_clone = revs.clone();

    let get_changelist = move |id: i64| Ok(cls_clone.get(&id).cloned());
    let get_file = move |id: &str| Ok(files_clone.get(id).cloned());
    let get_file_revision = move |id: &str| Ok(revs_clone.get(id).cloned());

    let tree = construct_tree_from_changelist(
        "branch_rand",
        "//src/module/...",
        10,
        get_branch,
        get_changelist,
        get_file,
        get_file_revision,
    )
    .expect("constructTreeFromHead should succeed on long random chain");

    println!("=== FileTree for branch_rand @ CL10 ===\n{:#?}", tree);

    let mut tree_files: HashMap<String, String> = HashMap::new();
    collect_files(&tree.nodes, &mut tree_files);

    for fid in ["fa", "fb"] {
        match expected_visible.get(fid) {
            Some(Some(expected_rev)) => {
                let actual = tree_files
                    .get(fid)
                    .unwrap_or_else(|| panic!("file {fid} should be visible"));
                assert_eq!(
                    actual, expected_rev,
                    "file {fid} should have revision {expected_rev}, got {actual}"
                );
            }
            Some(None) | None => {
                assert!(
                    !tree_files.contains_key(fid),
                    "file {fid} should not be visible in tree"
                );
            }
        }
    }

    assert!(!tree_files.contains_key("fc"));
}

#[test]
fn construct_tree_large_scale() {
    
    let branch = BranchDoc {
        id: "branch_large".to_string(),
        created_at: 0,
        created_by: "userLarge".to_string(),
        head_changelist_id: 1,
        metadata: BranchMetadata {
            description: "large branch".to_string(),
        },
    };

    const FILE_COUNT: usize = 100;
    let mut files: HashMap<String, FileDoc> = HashMap::new();
    let mut revs: HashMap<String, FileRevisionDoc> = HashMap::new();
    let mut changes: Vec<ChangelistChange> = Vec::new();
    let mut expected_visible: HashMap<String, Option<String>> = HashMap::new();

    for i in 0..FILE_COUNT {
        let file_id = format!("f{i}");
        let rev_id = format!("rev_{i}");

        let is_module_file = i % 2 == 0;
        let path = if is_module_file {
            format!(
                "//src/module/dir_{}/sub_{}/file_{}.txt",
                i % 5,
                i % 3,
                i
            )
        } else {
            format!(
                "//src/other/dir_{}/file_{}.txt",
                i % 4,
                i
            )
        };

        files.insert(
            file_id.clone(),
            FileDoc {
                id: file_id.clone(),
                path,
                seen_on_branches: vec!["branch_large".to_string()],
                created_at: 0,
                metadata: FileMetadata {
                    first_introduced_by: "userLarge".to_string(),
                },
            },
        );

        revs.insert(
            rev_id.clone(),
            FileRevisionDoc {
                id: rev_id.clone(),
                branch_id: "branch_large".to_string(),
                file_id: file_id.clone(),
                changelist_id: 1,
                binary_id: vec![format!("blob_{rev_id}")],
                parent_revision_id: String::new(),
                size: 100 + i as i64,
                is_delete: false,
                created_at: 1,
                metadata: FileRevisionMetadata {
                    file_mode: "644".to_string(),
                    hash: format!("h_{rev_id}"),
                    is_binary: false,
                    language: "txt".to_string(),
                },
            },
        );

        changes.push(ChangelistChange {
            file: file_id.clone(),
            action: ChangelistAction::Create,
            revision: rev_id.clone(),
        });

        expected_visible.insert(file_id, Some(rev_id));
    }

    let cl = ChangelistDoc {
        id: 1,
        parent_changelist_id: 0,
        branch_id: "branch_large".to_string(),
        author: "userLarge".to_string(),
        description: "large create".to_string(),
        changes,
        committed_at: 1,
        files_count: FILE_COUNT as i64,
        metadata: ChangelistMetadata { labels: vec![] },
    };

    let get_branch = move |id: &str| {
        if id == branch.id {
            Ok(Some(branch.clone()))
        } else {
            Ok(None)
        }
    };

    let files_clone = files.clone();
    let revs_clone = revs.clone();
    let cl_clone = cl.clone();

    let get_changelist = move |id: i64| {
        if id == 1 {
            Ok(Some(cl_clone.clone()))
        } else {
            Ok(None)
        }
    };
    let get_file = move |id: &str| Ok(files_clone.get(id).cloned());
    let get_file_revision = move |id: &str| Ok(revs_clone.get(id).cloned());

    let tree = construct_tree_from_changelist(
        "branch_large",
        "//src/module/...",
        1,
        get_branch,
        get_changelist,
        get_file,
        get_file_revision,
    )
    .expect("constructTreeFromHead should succeed on large scale");

    println!("=== FileTree for branch_large @ CL1 (large scale) ===\n{:#?}", tree);

    let mut tree_files: HashMap<String, String> = HashMap::new();
    collect_files(&tree.nodes, &mut tree_files);

    let mut expected_module_files = 0usize;
    for (file_id, rev_opt) in &expected_visible {
        let file = files.get(file_id).expect("file must exist");
        let is_module_path = file.path.starts_with("//src/module/");
        if is_module_path {
            expected_module_files += 1;
            if let Some(expected_rev) = rev_opt {
                let actual = tree_files
                    .get(file_id)
                    .unwrap_or_else(|| panic!("file {file_id} should be visible"));
                assert_eq!(
                    actual, expected_rev,
                    "file {file_id} should have revision {expected_rev}, got {actual}"
                );
            }
        } else {
            assert!(
                !tree_files.contains_key(file_id),
                "non-module file {file_id} should not be in tree"
            );
        }
    }

    assert_eq!(tree_files.len(), expected_module_files);
    assert!(expected_module_files > 10);
}

#[test]
fn construct_tree_reports_what_the_store_answered() {
    let cls = build_changelists();
    let files = build_file_docs();
    let revs = build_file_revisions();
    let r = construct_tree_from_changelist(
        "branch_main",
        "//src/module/...",
        200,
        |_: &str| Err("store down".to_string()),
        move |id: i64| Ok(cls.get(&id).cloned()),
        move |id: &str| Ok(files.get(id).cloned()),
        move |id: &str| Ok(revs.get(id).cloned()),
    );
    assert!(matches!(r, Err(FileTreeError::Backend(m)) if m == "store down"));

    let branch = build_common_branch();
    let cls = build_changelists();
    let files = build_file_docs();
    let revs = build_file_revisions();
    let r = construct_tree_from_changelist(
        "branch_main",
        "//src/module/...",
        999,
        move |_: &str| Ok(Some(branch.clone())),
        move |id: i64| Ok(cls.get(&id).cloned()),
        move |id: &str| Ok(files.get(id).cloned()),
        move |id: &str| Ok(revs.get(id).cloned()),
    );
    assert!(matches!(r, Err(FileTreeError::ChangelistNotFound(999))));
}
