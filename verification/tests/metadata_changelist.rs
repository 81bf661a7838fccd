use crv_core::metadata::changelist::Changelist;
use crv_core::metadata::file::MetaFile;
use crv_core::metadata::file_revision::MetaFileRevision;
use crv_core::storage::file_block::FileBlock;

fn rev(n: u64) -> MetaFileRevision {
    MetaFileRevision {
        revision: n,
        related_changelist_id: 1,
        block_hashes: vec![format!("b{n}")],
        created_at: 0,
        updated_at: 0,
    }
}

#[test]
fn default_changelist() {
    let cl = Changelist::new_default("alice".to_string(), "ws".to_string());
    assert_eq!(cl.id, 0);
    assert!(cl.is_default());
    assert!(cl.is_empty());
    assert_eq!(cl.file_count(), 0);
    assert!(!cl.is_submitted());
    assert_eq!(cl.description, "Default changelist");
    assert_eq!(cl.owner, "alice");
    assert_eq!(cl.workspace_name, "ws");
}

#[test]
fn add_replace_and_remove_files() {
    let mut cl = Changelist::new(5, "bob".to_string(), "w".to_string(), "fix".to_string());
    assert!(!cl.is_default());
    cl.add_file("//a".to_string(), rev(1));
    cl.add_file("//b".to_string(), rev(2));
    cl.add_file("//a".to_string(), rev(3));
    assert_eq!(cl.file_count(), 2);
    assert!(cl.contains_file("//a"));
    assert_eq!(cl.get_file_revision("//a").unwrap().revision, 3);
    assert!(cl.get_file_revision("//c").is_none());
    let mut paths: Vec<String> = cl.file_paths().into_iter().cloned().collect();
    paths.sort();
    assert_eq!(paths, vec!["//a".to_string(), "//b".to_string()]);

    let removed = cl.remove_file("//b");
    assert_eq!(removed.unwrap().revision, 2);
    assert!(cl.remove_file("//b").is_none());
    assert_eq!(cl.file_count(), 1);
}

#[test]
fn add_files_later_pair_wins() {
    let mut cl = Changelist::new(1, "o".to_string(), "w".to_string(), "d".to_string());
    cl.add_files(vec![("//x".to_string(), rev(1)), ("//y".to_string(), rev(2)), ("//x".to_string(), rev(9))]);
    assert_eq!(cl.file_count(), 2);
    assert_eq!(cl.get_file_revision("//x").unwrap().revision, 9);
}

#[test]
fn remove_files_reports_what_was_there() {
    let mut cl = Changelist::new(1, "o".to_string(), "w".to_string(), "d".to_string());
    cl.add_file("//a".to_string(), rev(1));
    cl.add_file("//b".to_string(), rev(2));
    let removed = cl.remove_files(&["//b".to_string(), "//z".to_string(), "//b".to_string(), "//a".to_string()]);
    assert_eq!(removed, vec!["//b".to_string(), "//a".to_string()]);
    assert!(cl.is_empty());
}

#[test]
fn clear_and_submit() {
    let mut cl = Changelist::new(2, "o".to_string(), "w".to_string(), "d".to_string());
    cl.add_file("//a".to_string(), rev(1));
    cl.clear_files();
    assert!(cl.is_empty());
    cl.mark_submitted();
    assert!(cl.is_submitted());
}

#[test]
fn meta_files_equal_by_depot_path() {
    let a = MetaFile { depot_path: "//a".to_string(), locked_by: "x".to_string(), revisions: vec![] };
    let b = MetaFile { depot_path: "//a".to_string(), locked_by: "y".to_string(), revisions: vec![rev(1)] };
    let c = MetaFile { depot_path: "//c".to_string(), locked_by: "x".to_string(), revisions: vec![] };
    assert!(a == b);
    assert!(a != c);
}

#[test]
fn revision_from_blocks() {
    let blocks = vec![FileBlock::from_bytes(b"one".to_vec()), FileBlock::from_bytes(b"two".to_vec())];
    let r = MetaFileRevision::from_blocks(4, 9, &blocks);
    assert_eq!(r.revision, 4);
    assert_eq!(r.related_changelist_id, 9);
    assert_eq!(r.block_hashes, vec![blocks[0].id.clone(), blocks[1].id.clone()]);
    assert_eq!(r.created_at, r.updated_at);
    assert!(r.created_at > 0);
    let copy = r.clone();
    assert_eq!(copy.block_hashes, r.block_hashes);
}
