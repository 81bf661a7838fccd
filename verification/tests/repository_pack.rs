use crv_core::repository::io_utils::{blake3_hash_to_hex, blake3_hex_to_hash, compute_blake3_bytes, crc32_bytes, Blake3Stream};
use crv_core::repository::bundle::PackIdentity;
use crv_core::repository::chunk::{compute_chunk_hash, Compression};
use crv_core::repository::error::RepositoryError;
use crv_core::repository::index::{IndexEntry, IndexSnapshot};
use crv_core::repository::layout::RepositoryLayout;
use crv_core::repository::lock::{lock_step, LockAction, LockEvent};
use crv_core::repository::pack::{
    open_pack, pack_entry_bytes, pack_header_bytes, pack_trailer_bytes, read_pack_entry, MutableIndex, PackBundle,
    PackWriter,
};
use crv_core::repository::shard::{effective_limit, insert_id, shard_of, ShardState};
use std::path::PathBuf;

fn identity(shard: u8, pack_id: u32) -> PackIdentity {
    PackIdentity {
        shard,
        pack_id,
        base_name: RepositoryLayout::pack_base_name(pack_id),
        directory: PathBuf::from("root"),
    }
}

fn bundle(shard: u8, pack_id: u32) -> (PackBundle, Vec<u8>) {
    (PackBundle::new(identity(shard, pack_id), "p.dat", "p.idx"), pack_header_bytes())
}

#[test]
fn pack_bundle_roundtrip() {
    let (mut bundle, mut image) = bundle(0xAA, 1);

    let (chunk_a, bytes_a) = bundle.append_chunk(b"hello world", Compression::Plain).unwrap();
    image.extend_from_slice(&bytes_a);
    let (chunk_b, bytes_b) = bundle.append_chunk(b"crv repository data", Compression::Lz4).unwrap();
    image.extend_from_slice(&bytes_b);

    let trailer = bundle.seal(&image).unwrap();
    image.extend_from_slice(&trailer);

    let snapshot = IndexSnapshot::decode(&bundle.index_bytes(), "p.idx").unwrap();
    assert_eq!(snapshot.entries().len(), 2);
    assert!(snapshot.sealed());

    let entry_a = snapshot.find(&chunk_a.hash).expect("chunk a entry");
    let entry_b = snapshot.find(&chunk_b.hash).expect("chunk b entry");

    let (data_len, sealed) = open_pack(&image).unwrap();
    assert!(sealed);
    assert_eq!(data_len, (image.len() - 4) as u64);
    assert_eq!(read_pack_entry(&image, data_len, entry_a).unwrap(), b"hello world");
    assert_eq!(read_pack_entry(&image, data_len, entry_b).unwrap(), b"crv repository data".to_vec());
}

#[test]
fn pack_header_layout() {
    let h = pack_header_bytes();
    assert_eq!(h.len(), 10);
    assert_eq!(&h[4..6], &1u16.to_le_bytes());
    assert_eq!(&h[6..10], &[0, 0, 0, 0]);
    assert_eq!(open_pack(&h).unwrap(), (10, false));
}

#[test]
fn pack_entry_layout() {
    let hash = [7u8; 32];
    let e = pack_entry_bytes(&hash, 1, b"abc");
    assert_eq!(e.len(), 38 + 3);
    assert_eq!(&e[0..4], &3u32.to_le_bytes());
    assert_eq!(&e[4..6], &1u16.to_le_bytes());
    assert_eq!(&e[6..38], &hash);
    assert_eq!(&e[38..], b"abc");
    assert_eq!(pack_trailer_bytes(b"xyz"), crc32fast::hash(b"xyz").to_le_bytes().to_vec());
}

#[test]
fn open_pack_faults() {
    assert!(matches!(open_pack(&[1, 2, 3]), Err(RepositoryError::Corrupted(_))));
    let mut bad_magic = pack_header_bytes();
    bad_magic[0] ^= 0xff;
    assert!(matches!(open_pack(&bad_magic), Err(RepositoryError::InvalidMagic { .. })));
    let mut bad_version = pack_header_bytes();
    bad_version[4] = 9;
    assert!(matches!(open_pack(&bad_version), Err(RepositoryError::InvalidVersion { expected: 1, actual: 9 })));
    let mut bad_reserved = pack_header_bytes();
    bad_reserved[7] = 1;
    assert_eq!(open_pack(&bad_reserved), Err(RepositoryError::ReservedNonZero));
    let mut unsealed = pack_header_bytes();
    unsealed.extend_from_slice(&[1, 2, 3, 4, 5]);
    assert_eq!(open_pack(&unsealed).unwrap(), (15, false));
}

#[test]
fn read_pack_entry_disagreements() {
    let mut image = pack_header_bytes();
    let hash = compute_chunk_hash(b"data");
    image.extend_from_slice(&pack_entry_bytes(&hash, 0, b"data"));
    let len = image.len() as u64;
    let good = IndexEntry::new(hash, 10, 4, 0);
    assert_eq!(read_pack_entry(&image, len, &good).unwrap(), b"data".to_vec());
    let beyond = IndexEntry::new(hash, 11, 4, 0);
    assert_eq!(read_pack_entry(&image, len, &beyond), Err(RepositoryError::Corrupted("索引 offset 超出 pack 长度")));
    let short = IndexEntry::new(hash, 10, 3, 0);
    assert_eq!(read_pack_entry(&image, len, &short), Err(RepositoryError::Corrupted("索引长度与 pack 不匹配")));
    let flags = IndexEntry::new(hash, 10, 4, 1);
    assert_eq!(read_pack_entry(&image, len, &flags), Err(RepositoryError::Corrupted("索引 flags 与 pack 不匹配")));
    let other = IndexEntry::new([0u8; 32], 10, 4, 0);
    assert_eq!(read_pack_entry(&image, len, &other), Err(RepositoryError::Corrupted("索引 hash 与 pack 不匹配")));
}

#[test]
fn duplicate_chunk_is_refused() {
    let (mut bundle, _) = bundle(1, 1);
    bundle.append_chunk(b"same", Compression::Plain).unwrap();
    let before = bundle.pack_len();
    let err = bundle.append_chunk(b"same", Compression::Lz4).unwrap_err();
    assert_eq!(err, RepositoryError::DuplicateHash { hash: compute_chunk_hash(b"same") });
    assert_eq!(bundle.pack_len(), before);
    assert_eq!(bundle.stats().chunk_count, 1);
}

#[test]
fn bundle_stats_and_offsets() {
    let (mut bundle, _) = bundle(2, 3);
    let (a, bytes) = bundle.append_chunk(b"12345", Compression::Plain).unwrap();
    assert_eq!(a.offset, 10);
    assert_eq!(a.stored_len, 5);
    assert_eq!(a.logical_len, 5);
    assert_eq!(bytes.len(), 43);
    let (b, _) = bundle.append_chunk(b"abc", Compression::Plain).unwrap();
    assert_eq!(b.offset, 53);
    let s = bundle.stats();
    assert_eq!(s.chunk_count, 2);
    assert_eq!(s.logical_bytes, 8);
    assert_eq!(s.physical_bytes, 38 + 5 + 38 + 3);
    assert!(bundle.find_entry(&a.hash).is_some());
    assert!(bundle.find_entry(&[9u8; 32]).is_none());
    assert_eq!(bundle.identity().pack_id, 3);
}

#[test]
fn sealed_bundle_refuses_writes() {
    let (mut bundle, image) = bundle(4, 1);
    bundle.seal(&image).unwrap();
    assert_eq!(bundle.seal(&image), Err(RepositoryError::AlreadySealed { path: "p.idx".to_string() }));
    assert!(matches!(bundle.append_chunk(b"x", Compression::Plain), Err(RepositoryError::AlreadySealed { .. })));
}

#[test]
fn pack_writer_rewind_undoes_append() {
    let mut w = PackWriter::new("w.dat");
    let (rec, _) = w.append_chunk([1u8; 32], 3, 0, b"abc").unwrap();
    assert_eq!(w.len(), 10 + 38 + 3);
    w.rewind(&rec).unwrap();
    assert_eq!(w.len(), 10);
    assert_eq!(w.stats().chunk_count, 0);
    assert_eq!(w.stats().physical_bytes, 0);
    let t = w.seal(b"whatever").unwrap();
    assert_eq!(t, crc32fast::hash(b"whatever").to_le_bytes().to_vec());
    assert_eq!(w.append_chunk([1u8; 32], 3, 0, b"abc").unwrap_err(), RepositoryError::AlreadySealed { path: "w.dat".to_string() });
}

#[test]
fn mutable_index_roundtrip_and_refusals() {
    let mut idx = MutableIndex::new("i.idx");
    idx.insert(IndexEntry::new([3u8; 32], 10, 1, 0)).unwrap();
    idx.insert(IndexEntry::new([1u8; 32], 20, 2, 0)).unwrap();
    assert_eq!(idx.insert(IndexEntry::new([1u8; 32], 30, 3, 0)), Err(RepositoryError::DuplicateHash { hash: [1u8; 32] }));
    assert_eq!(idx.entries()[0].hash, [1u8; 32]);
    assert!(idx.contains(&[3u8; 32]));
    let reopened = MutableIndex::from_file_bytes("i.idx", &idx.file_bytes()).unwrap();
    assert_eq!(reopened.entries().len(), 2);
    idx.seal().unwrap();
    assert!(idx.sealed());
    assert!(matches!(MutableIndex::from_file_bytes("i.idx", &idx.file_bytes()), Err(RepositoryError::AlreadySealed { .. })));
    assert!(matches!(idx.insert(IndexEntry::new([5u8; 32], 1, 1, 0)), Err(RepositoryError::AlreadySealed { .. })));
}

#[test]
fn shard_state_lifecycle() {
    let mut s = ShardState::new(vec![1, 4], 5);
    assert_eq!(s.next_bundle_id().unwrap(), 5);
    assert!(!s.has_active());
    let (b, _) = bundle(0, 5);
    s.install_bundle(b);
    assert!(s.is_active(5));
    assert_eq!(s.all_pack_ids(), vec![1, 4, 5]);
    assert_eq!(s.sealed_pack_ids(), vec![1, 4]);
    assert_eq!(s.next_bundle_id().unwrap(), 6);

    let mut b = s.take_active().unwrap();
    let (rec, _) = b.append_chunk(b"chunk", Compression::Plain).unwrap();
    s.restore_active(b);
    assert!(s.active_contains(&rec.hash));
    let (e, path) = s.find_in_active(&rec.hash).unwrap();
    assert_eq!(e.offset, 10);
    assert_eq!(path, "p.dat");
    assert!(s.reached_soft_limit(43));
    assert!(!s.reached_soft_limit(44));
    assert!(s.must_seal_before_write(42, 10));
    assert!(!s.must_seal_before_write(43, 1));
    assert!(s.must_seal_before_write(100, 0));

    let full = ShardState::new(vec![], u32::MAX);
    assert_eq!(full.next_bundle_id(), Err(RepositoryError::PackIdOverflow));
}

#[test]
fn sorted_id_insertion() {
    let mut ids = vec![2, 5, 9];
    insert_id(&mut ids, 7);
    assert_eq!(ids, vec![2, 5, 7, 9]);
    insert_id(&mut ids, 5);
    assert_eq!(ids, vec![2, 5, 7, 9]);
    insert_id(&mut ids, 1);
    assert_eq!(ids, vec![1, 2, 5, 7, 9]);
    assert_eq!(effective_limit(0), 1);
    assert_eq!(effective_limit(7), 7);
    assert_eq!(shard_of(&[0xAB; 32]), 0xAB);
}

#[test]
fn blake3_stream_matches_one_shot_hash() {
    let mut s = Blake3Stream::new();
    s.update(b"ab");
    let partial = s.finalize();
    assert_eq!(partial, compute_blake3_bytes(b"ab"));
    s.update(b"c");
    assert_eq!(s.finalize(), compute_blake3_bytes(b"abc"));
    assert_eq!(s.finalize(), *blake3::hash(b"abc").as_bytes());
    assert_eq!(crc32_bytes(b"123456789"), 0xCBF4_3926);
}

#[test]
fn hex_parse_rejects_non_digits() {
    assert_eq!(blake3_hex_to_hash(&"+f".repeat(32)), None);
    assert_eq!(blake3_hex_to_hash(&format!("é{}", "a".repeat(62))), None);
    assert_eq!(blake3_hex_to_hash(&"g".repeat(64)), None);
    assert_eq!(blake3_hex_to_hash(&"a".repeat(63)), None);
    let upper = format!("  {}\n", "AB".repeat(32));
    let h = blake3_hex_to_hash(&upper).unwrap();
    assert_eq!(h, [0xabu8; 32]);
    assert_eq!(blake3_hash_to_hex(&h), "ab".repeat(32));
}

#[test]
fn consecutive_records_follow_each_other() {
    let mut w = PackWriter::new("w.dat");
    let (r1, _) = w.append_chunk([1u8; 32], 3, 0, b"abc").unwrap();
    let (r2, _) = w.append_chunk([2u8; 32], 5, 0, b"hello").unwrap();
    assert_eq!(r1.entry_bytes(), 38 + 3);
    assert_eq!(r2.offset, r1.offset + r1.entry_bytes());
    assert_eq!(w.len(), r2.offset + r2.entry_bytes());
}

#[test]
fn layout_paths_under_the_root() {
    let layout = RepositoryLayout::new("repo".to_string());
    let dir = layout.shard_dir(0xab);
    assert_eq!(dir, format!("repo/{}", RepositoryLayout::shard_dir_name(0xab)));
    let (dat, idx) = layout.pack_paths(0xab, 7);
    let (dn, inn) = RepositoryLayout::pack_file_names(7);
    assert_eq!(dat, format!("{}/{}", dir, dn));
    assert_eq!(idx, format!("{}/{}", dir, inn));
    assert_eq!(PathBuf::from(&dat), PathBuf::from("repo").join(RepositoryLayout::shard_dir_name(0xab)).join(dn));
    let slash = RepositoryLayout::new("repo/".to_string());
    assert_eq!(slash.shard_dir(0xab), dir);
}

#[test]
fn lock_steps() {
    assert_eq!(lock_step(0, 3, LockEvent::Created), LockAction::Acquired);
    assert_eq!(lock_step(3, 3, LockEvent::Exists { stale: true }), LockAction::RemoveStale);
    assert_eq!(lock_step(1, 3, LockEvent::Exists { stale: false }), LockAction::Wait);
    assert_eq!(lock_step(3, 3, LockEvent::Exists { stale: false }), LockAction::GiveUp);
    assert_eq!(lock_step(0, 3, LockEvent::Failed), LockAction::Fail);
}
