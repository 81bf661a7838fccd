use crv_core::storage::block::{hex16_chars, decompress_block, BlockMetadata, BLOCK_SIZE};
use crv_core::storage::changelist::ChangelistMetadata;
use crv_core::storage::file_block::{block_path_parts, FileBlock};
use crv_core::storage::file_manager::{FileManager, FileMetadata};
use crv_core::storage::{
    build_gear_table, build_gear_table_from, cdc_chunk_ranges, cdc_chunk_ranges_with_table, chunk_bytes, chunk_bytes_with_seed,
    chunk_ranges, chunk_ranges_with_seed,
    fixed_chunk_ranges, next_power_of_two, rotl64, ChunkingOptions,
};
use std::io::Write;
use std::path::PathBuf;

fn pseudo_random_bytes(n: usize, mut state: u64) -> Vec<u8> {
    let mut out = Vec::with_capacity(n);
    for _ in 0..n {
        state ^= state << 13;
        state ^= state >> 7;
        state ^= state << 17;
        out.push((state >> 24) as u8);
    }
    out
}

fn blake3_hex(data: &[u8]) -> String {
    blake3::hash(data).to_hex().to_string()
}

fn zlib(data: &[u8]) -> Vec<u8> {
    let mut e = flate2::write::ZlibEncoder::new(Vec::new(), flate2::Compression::default());
    e.write_all(data).unwrap();
    e.finish().unwrap()
}

#[test]
fn default_chunking_options() {
    let o = ChunkingOptions::default();
    assert_eq!(o.fixed_block_size, 4 * 1024 * 1024);
    assert_eq!(o.small_file_threshold, 4 * 1024 * 1024);
    assert_eq!(o.cdc_window_size, 48);
    assert_eq!(o.cdc_min_size, 8 * 1024);
    assert_eq!(o.cdc_avg_size, 32 * 1024);
    assert_eq!(o.cdc_max_size, 64 * 1024);
}

#[test]
fn rotation_left() {
    assert_eq!(rotl64(1, 13), 8192);
    assert_eq!(rotl64(0x8000_0000_0000_0000, 1), 1);
    assert_eq!(rotl64(0x0123_4567_89ab_cdef, 4), 0x1234_5678_9abc_def0);
}

#[test]
fn powers_of_two() {
    assert_eq!(next_power_of_two(0), 1);
    assert_eq!(next_power_of_two(1), 1);
    assert_eq!(next_power_of_two(5), 8);
    assert_eq!(next_power_of_two(32768), 32768);
    assert_eq!(next_power_of_two(32769), 65536);
}

#[test]
fn gear_table_from_seed() {
    let t = build_gear_table_from(0);
    assert_eq!(t.len(), 256);
    assert_eq!(t[0], 0x0d83_b3e2_9a21_487a);
    assert_eq!(t[1], 0x54c4_4c79_f1fe_9d67);
    assert_eq!(build_gear_table_from(7), build_gear_table_from(7));
    assert_ne!(build_gear_table_from(7), build_gear_table_from(8));
    assert_eq!(build_gear_table().len(), 256);
}

#[test]
fn fixed_ranges() {
    assert_eq!(fixed_chunk_ranges(10, 4), vec![(0, 4), (4, 8), (8, 10)]);
    assert_eq!(fixed_chunk_ranges(8, 4), vec![(0, 4), (4, 8)]);
    assert_eq!(fixed_chunk_ranges(0, 4), vec![]);
    assert_eq!(fixed_chunk_ranges(10, 0), vec![]);
}

#[test]
fn cdc_with_zero_table_cuts_at_min_size() {
    let table = vec![0u64; 256];
    let bytes = vec![7u8; 100];
    let o = ChunkingOptions {
        fixed_block_size: 4096,
        small_file_threshold: 4096,
        cdc_window_size: 48,
        cdc_min_size: 10,
        cdc_avg_size: 16,
        cdc_max_size: 1000,
    };
    let r = cdc_chunk_ranges_with_table(&bytes, &o, &table);
    assert_eq!(r, vec![(0, 48), (48, 58), (58, 68), (68, 78), (78, 88), (88, 98), (98, 100)]);
}

#[test]
fn cdc_cuts_at_max_size() {
    let table: Vec<u64> = (0..256u64).map(|i| i | 1).collect();
    let bytes = vec![1u8; 200];
    let o = ChunkingOptions {
        fixed_block_size: 4096,
        small_file_threshold: 4096,
        cdc_window_size: 5,
        cdc_min_size: 1000,
        cdc_avg_size: 16,
        cdc_max_size: 64,
    };
    let r = cdc_chunk_ranges_with_table(&bytes, &o, &table);
    assert_eq!(r, vec![(0, 64), (64, 128), (128, 192), (192, 200)]);
}

#[test]
fn cdc_empty_input_is_one_empty_chunk() {
    let o = ChunkingOptions::default();
    assert_eq!(cdc_chunk_ranges(&[], &o), vec![(0, 0)]);
}

#[test]
fn cdc_chunks_tile_the_input() {
    let o = ChunkingOptions::default();
    let bytes = pseudo_random_bytes(300_000, 0x1234_5678);
    let r = cdc_chunk_ranges(&bytes, &o);
    assert_eq!(r[0].0, 0);
    assert_eq!(r[r.len() - 1].1, bytes.len());
    for k in 0..r.len() {
        assert!(r[k].0 < r[k].1);
        assert!(r[k].1 - r[k].0 <= 64 * 1024);
        if k > 0 {
            assert_eq!(r[k - 1].1, r[k].0);
        }
    }
}

#[test]
fn chunk_bytes_puts_the_content_back_together() {
    let o = ChunkingOptions::default();
    let bytes = pseudo_random_bytes(100_000, 42);
    let blocks = chunk_bytes(&bytes, &o);
    let mut joined = Vec::new();
    for b in &blocks {
        assert_eq!(b.id, blake3_hex(&b.block_data));
        assert_eq!(b.hash_algorithm, "blake3");
        joined.extend_from_slice(&b.block_data);
    }
    assert_eq!(joined, bytes);
}

#[test]
fn chunk_bytes_of_empty_input_is_one_empty_block() {
    let blocks = chunk_bytes(&[], &ChunkingOptions::default());
    assert_eq!(blocks.len(), 1);
    assert!(blocks[0].block_data.is_empty());
    assert_eq!(blocks[0].id, blake3_hex(&[]));
}

#[test]
fn large_inputs_use_fixed_blocks() {
    let o = ChunkingOptions {
        fixed_block_size: 10,
        small_file_threshold: 16,
        cdc_window_size: 48,
        cdc_min_size: 8,
        cdc_avg_size: 16,
        cdc_max_size: 64,
    };
    let bytes: Vec<u8> = (0..25u8).collect();
    assert_eq!(chunk_ranges(&bytes, &o), vec![(0, 10), (10, 20), (20, 25)]);
    let blocks = chunk_bytes(&bytes, &o);
    assert_eq!(blocks.len(), 3);
    assert_eq!(blocks[2].block_data, vec![20, 21, 22, 23, 24]);
    let zero = ChunkingOptions { fixed_block_size: 0, ..o };
    assert!(chunk_bytes(&bytes, &zero).is_empty());
}

#[test]
fn file_block_named_by_blake3() {
    let b = FileBlock::from_bytes(b"abc".to_vec());
    assert_eq!(b.id, blake3_hex(b"abc"));
    assert_ne!(b.id, "abc");
    assert_eq!(b.id.len(), 64);
    assert_eq!(b.block_data, b"abc".to_vec());
}

#[test]
fn block_path_parts_of_an_id() {
    let parts = block_path_parts("abcdef1234");
    assert_eq!(parts, vec!["ab".to_string(), "cd".to_string(), "ef".to_string(), "abcdef1234".to_string()]);
}

#[test]
fn hex_of_a_hash() {
    let s: String = hex16_chars(0x1234).into_iter().collect();
    assert_eq!(s, "0000000000001234");
    let s: String = hex16_chars(u64::MAX).into_iter().collect();
    assert_eq!(s, "ffffffffffffffff");
}

#[test]
fn block_metadata_of_data() {
    let data = b"hello hello hello hello";
    let m = BlockMetadata::new(data).unwrap();
    assert_eq!(m.offset, 0);
    assert_eq!(m.size, data.len());
    assert_eq!(m.hash, twox_hash::xxh3::hash64(data));
    assert_eq!(m.compressed_size, zlib(data).len());
    let (d1, d2, f) = m.path_parts();
    let hex = format!("{:016x}", m.hash);
    assert_eq!(d1, hex[0..2]);
    assert_eq!(d2, hex[2..4]);
    assert_eq!(f, hex[4..]);
    let p = m.get_path(&"store".to_string());
    assert_eq!(p, format!("store/{}/{}/{}", &hex[0..2], &hex[2..4], &hex[4..]));
    assert_eq!(PathBuf::from(&p), PathBuf::from("store").join(&hex[0..2]).join(&hex[2..4]).join(&hex[4..]));
    assert_eq!(m.get_path(&"store/".to_string()), p);
    assert_eq!(m.get_path(&String::new()), format!("{}/{}/{}", &hex[0..2], &hex[2..4], &hex[4..]));
}

#[test]
fn zlib_roundtrip() {
    let data = pseudo_random_bytes(5000, 9);
    assert_eq!(decompress_block(&zlib(&data)).unwrap(), data);
    assert!(decompress_block(b"not a zlib stream").is_err());
}

#[test]
fn file_processing_in_memory() {
    let test_data = b"Hello, World! This is a test file.".repeat(1000);
    let mut fm = FileManager::new("blocks".to_string());
    let (meta, pending) = fm.process_bytes(PathBuf::from("test.txt"), &test_data).unwrap();
    let expected_blocks = (test_data.len() + BLOCK_SIZE - 1) / BLOCK_SIZE;
    assert_eq!(meta.block_hashes.len(), expected_blocks);
    assert_eq!(meta.total_size, test_data.len() as u64);
    assert_eq!(meta.path, PathBuf::from("test.txt"));
    // every block is new to a fresh store; decompressing them in order gives the file back
    let mut rebuilt = Vec::new();
    for h in &meta.block_hashes {
        let (_, c) = pending.iter().find(|(ph, _)| ph == h).unwrap();
        rebuilt.extend(decompress_block(c).unwrap());
        assert!(fm.block_path(*h).is_some());
    }
    assert_eq!(rebuilt, test_data);
}

#[test]
fn duplicate_blocks_in_memory() {
    let test_data = b"Hello, World! This is a test file.".repeat(1000);
    let mut fm = FileManager::new("blocks".to_string());
    let (m1, p1) = fm.process_bytes(PathBuf::from("test1.txt"), &test_data).unwrap();
    let (m2, p2) = fm.process_bytes(PathBuf::from("test2.txt"), &test_data).unwrap();
    assert_eq!(m1.block_hashes, m2.block_hashes);
    assert_eq!(m1.total_size, m2.total_size);
    assert_eq!(p1.len(), m1.block_hashes.len());
    assert!(p2.is_empty());
    assert_eq!(fm.block_count(), m1.block_hashes.len());
}

#[test]
fn admitting_a_block_twice() {
    let mut fm = FileManager::new("s".to_string());
    let (h1, c1) = fm.admit_block(b"xyz").unwrap();
    let (h2, c2) = fm.admit_block(b"xyz").unwrap();
    assert_eq!(h1, h2);
    assert_eq!(h1, twox_hash::xxh3::hash64(b"xyz"));
    assert_eq!(c1.unwrap(), zlib(b"xyz"));
    assert!(c2.is_none());
    assert!(fm.contains_block(h1));
    assert!(fm.block_path(h1 ^ 1).is_none());
    let hex = format!("{:016x}", h1);
    assert_eq!(fm.block_path(h1).unwrap(), format!("s/{}/{}/{}", &hex[0..2], &hex[2..4], &hex[4..]));
    assert_eq!(fm.store_path(), "s");
}

#[test]
fn metadata_constructors() {
    let f = FileMetadata::new(vec![1, 2], PathBuf::from("a"), 7);
    assert_eq!(f.block_hashes, vec![1, 2]);
    assert_eq!(f.total_size, 7);
    let c = ChangelistMetadata::new(3, vec!["//a".to_string()], "d".to_string());
    assert_eq!(c.id, 3);
    assert_eq!(c.file_paths, vec!["//a".to_string()]);
    assert_eq!(c.desc, "d");
}

#[test]
fn cdc_window_as_long_as_the_input() {
    let table = vec![0u64; 256];
    let bytes = vec![3u8; 64];
    let o = ChunkingOptions {
        fixed_block_size: 4096,
        small_file_threshold: 4096,
        cdc_window_size: 100,
        cdc_min_size: 10,
        cdc_avg_size: 16,
        cdc_max_size: 1000,
    };
    assert_eq!(cdc_chunk_ranges_with_table(&bytes, &o, &table), vec![(0, 64)]);
    assert_eq!(cdc_chunk_ranges(&bytes, &o), vec![(0, 64)]);
}

#[test]
fn same_seed_same_blocks() {
    let data: Vec<u8> = (0..3000u32).map(|i| (i * 7 % 251) as u8).collect();
    let o = ChunkingOptions::default();
    let a = chunk_bytes_with_seed(&data, &o, 42);
    let b = chunk_bytes_with_seed(&data, &o, 42);
    assert_eq!(a.len(), b.len());
    for (x, y) in a.iter().zip(b.iter()) {
        assert_eq!(x.block_data, y.block_data);
    }
    let joined: Vec<u8> = a.iter().flat_map(|x| x.block_data.clone()).collect();
    assert_eq!(joined, data);
    assert_eq!(chunk_ranges_with_seed(&data, &o, 42), chunk_ranges_with_seed(&data, &o, 42));
}

#[test]
fn crc32_check_value() {
    assert_eq!(crv_core::repository::io_utils::crc32_bytes(b"123456789"), 0xCBF4_3926);
}
