//! A store of fixed-size blocks shared between files: each distinct block is
//! kept once, named by its xxHash3.
use vstd::prelude::*;
use std::collections::HashMap;
use std::path::PathBuf;
use super::block::{block_file_path, block_path_text, xxh3_64_of, zlib_compress, zlib_of, BlockMetadata, BLOCK_SIZE};
use super::{
    fixed_chunk_ranges, fixed_from, lemma_fixed_tiles, lemma_tiles_flatten, lemma_tiles_within, pieces,
    ranges_view, ranges_within,
};

verus! {

broadcast use vstd::std_specs::hash::group_hash_axioms;

/// A file cut into blocks.
#[derive(Debug)]
pub struct FileMetadata {
    /// The hashes of its blocks, in order.
    pub block_hashes: Vec<u64>,
    /// Where it was read from.
    pub path: PathBuf,
    /// Its size in bytes.
    pub total_size: u64,
}

impl FileMetadata {
    /// The metadata made of the given parts.
    pub fn new(block_hashes: Vec<u64>, path: PathBuf, total_size: u64) -> (r: Self)
        ensures
            r.block_hashes@ == block_hashes@,
            r.path == path,
            r.total_size == total_size,
    {
        FileMetadata { block_hashes, path, total_size }
    }
}

/// The blocks a file of content `data` is cut into.
pub open spec fn file_pieces(data: Seq<u8>) -> Seq<Seq<u8>> {
    pieces(data, fixed_from(data.len() as int, BLOCK_SIZE as int, 0))
}

/// The hashes of the blocks of `data`, in order.
pub open spec fn file_block_hashes(data: Seq<u8>) -> Seq<u64> {
    file_pieces(data).map_values(|p: Seq<u8>| xxh3_64_of(p))
}

/// Whether the encoder succeeds on every one of `blocks`.
pub open spec fn all_compress(blocks: Seq<Seq<u8>>) -> bool {
    forall|k: int| 0 <= k < blocks.len() ==> (#[trigger] zlib_of(blocks[k])) is Some
}

/// The metadata recorded for a block holding `data`.
pub open spec fn block_meta_of(data: Seq<u8>) -> BlockMetadata {
    BlockMetadata { offset: 0, size: data.len() as usize, hash: xxh3_64_of(data), compressed_size: zlib_of(data).unwrap().len() as usize }
}

/// The pool after admitting the blocks of `data`, in order, into `pool`: a
/// block whose hash is already there changes nothing.
pub open spec fn admit_all(pool: Map<u64, BlockMetadata>, blocks: Seq<Seq<u8>>) -> Map<u64, BlockMetadata>
    decreases blocks.len(),
{
    if blocks.len() == 0 {
        pool
    } else {
        let before = admit_all(pool, blocks.drop_last());
        let b = blocks.last();
        if before.contains_key(xxh3_64_of(b)) { before } else { before.insert(xxh3_64_of(b), block_meta_of(b)) }
    }
}

/// The blocks among `blocks` that `admit_all` adds: (hash, compressed
/// content) of each, in order.
pub open spec fn admitted(pool: Map<u64, BlockMetadata>, blocks: Seq<Seq<u8>>) -> Seq<(u64, Seq<u8>)>
    decreases blocks.len(),
{
    if blocks.len() == 0 {
        Seq::empty()
    } else {
        let b = blocks.last();
        let rest = admitted(pool, blocks.drop_last());
        if admit_all(pool, blocks.drop_last()).contains_key(xxh3_64_of(b)) {
            rest
        } else {
            rest.push((xxh3_64_of(b), zlib_of(b).unwrap()))
        }
    }
}

/// A store of blocks under a directory, with the blocks it has seen.
#[derive(Debug)]
pub struct FileManager {
    store_path: String,
    file_pool: Vec<FileMetadata>,
    block_pool: HashMap<u64, BlockMetadata>,
}

/// A block that the store has not seen before: its hash and its
/// zlib-compressed content, to be written under the store.
pub type PendingBlock = (u64, Vec<u8>);

/// The pending blocks as (hash, content) pairs.
pub open spec fn pending_view(v: Seq<PendingBlock>) -> Seq<(u64, Seq<u8>)> {
    v.map_values(|p: PendingBlock| (p.0, p.1@))
}

impl FileManager {
    /// The blocks seen, by hash.
    pub closed spec fn pool(&self) -> Map<u64, BlockMetadata> {
        self.block_pool@
    }

    /// The store's directory.
    pub closed spec fn store_view(&self) -> Seq<char> {
        self.store_path@
    }

    /// A store under the directory `store_path` that has seen no block.
    pub fn new(store_path: String) -> (r: Self)
        ensures
            r.pool() == Map::<u64, BlockMetadata>::empty(),
            r.store_view() == store_path@,
    {
        FileManager { store_path, file_pool: Vec::new(), block_pool: HashMap::new() }
    }

    /// The store's directory.
    pub fn store_path(&self) -> (r: &String)
        ensures
            r@ == self.store_view(),
    {
        &self.store_path
    }

    /// The number of distinct blocks seen.
    pub fn block_count(&self) -> (r: usize)
        ensures
            r == self.pool().len(),
    {
        self.block_pool.len()
    }

    /// Whether a block with this hash has been seen.
    pub fn contains_block(&self, hash: u64) -> (r: bool)
        ensures
            r == self.pool().contains_key(hash),
    {
        self.block_pool.contains_key(&hash)
    }

    /// Admits a block holding `data`: returns its hash, and, the first time
    /// the hash is seen, the compressed content to store.
    pub fn admit_block(&mut self, data: &[u8]) -> (r: Result<(u64, Option<Vec<u8>>), std::io::Error>)
        ensures
            r is Ok ==> final(self).pool() == (if old(self).pool().contains_key(xxh3_64_of(data@)) {
                old(self).pool()
            } else {
                old(self).pool().insert(xxh3_64_of(data@), block_meta_of(data@))
            }),
            r is Err ==> final(self).pool() == old(self).pool(),
            final(self).store_view() == old(self).store_view(),
            r is Ok <==> zlib_of(data@) is Some,
            r matches Ok((h, p)) ==> h == xxh3_64_of(data@)
                && (p is None <==> old(self).pool().contains_key(h))
                && (p matches Some(c) ==> zlib_of(data@) == Some(c@)),
    {
        let meta = match BlockMetadata::new(data) {
            Ok(m) => m,
            Err(e) => return Err(e),
        };
        let hash = meta.hash;
        if self.block_pool.contains_key(&hash) {
            Ok((hash, None))
        } else {
            let compressed = match zlib_compress(data) {
                Ok(c) => c,
                Err(e) => return Err(e),
            };
            self.block_pool.insert(hash, meta);
            Ok((hash, Some(compressed)))
        }
    }

    /// Cuts the content of a file into blocks of `BLOCK_SIZE` bytes and
    /// admits each: the file's metadata, and the blocks seen for the first
    /// time, to be written under the store.
    pub fn process_bytes(&mut self, file_path: PathBuf, data: &[u8]) -> (r: Result<(FileMetadata, Vec<PendingBlock>), std::io::Error>)
        ensures
            final(self).store_view() == old(self).store_view(),
            r is Ok <==> all_compress(file_pieces(data@)),
            r matches Ok((meta, pending)) ==> {
                &&& meta.block_hashes@ == file_block_hashes(data@)
                &&& meta.path == file_path
                &&& meta.total_size == data@.len()
                &&& pending_view(pending@) == admitted(old(self).pool(), file_pieces(data@))
                &&& final(self).pool() == admit_all(old(self).pool(), file_pieces(data@))
            },
    {
        let ranges = fixed_chunk_ranges(data.len(), BLOCK_SIZE);
        let ghost rv = ranges_view(ranges@);
        let ghost ps = file_pieces(data@);
        let ghost pool0 = self.pool();
        proof {
            lemma_fixed_tiles(data@.len() as int, BLOCK_SIZE as int, 0);
            lemma_tiles_within(rv, 0, data@.len() as int);
        }
        let mut hashes: Vec<u64> = Vec::new();
        let mut pending: Vec<PendingBlock> = Vec::new();
        let mut k: usize = 0;
        assert(ps.take(0) =~= Seq::<Seq<u8>>::empty());
        while k < ranges.len()
            invariant
                k <= ranges@.len(),
                rv == ranges_view(ranges@),
                ranges_within(rv, data@.len() as int),
                ps == pieces(data@, rv),
                ps == file_pieces(data@),
                ps.len() == rv.len(),
                hashes@.len() == k,
                forall|j: int| 0 <= j < k ==> hashes@[j] == xxh3_64_of(#[trigger] ps[j]),
                self.pool() == admit_all(pool0, ps.take(k as int)),
                pending_view(pending@) == admitted(pool0, ps.take(k as int)),
                forall|j: int| 0 <= j < k ==> (#[trigger] zlib_of(ps[j])) is Some,
                self.store_view() == old(self).store_view(),
            decreases ranges@.len() - k,
        {
            let (start, end) = ranges[k];
            assert(rv[k as int] == (start as int, end as int));
            let block = vstd::slice::slice_subrange(data, start, end);
            assert(block@ == ps[k as int]);
            let ghost pool_before = self.pool();
            let ghost pend_before = pending_view(pending@);
            let (hash, fresh) = match self.admit_block(block) {
                Ok(x) => x,
                Err(e) => {
                    assert(zlib_of(ps[k as int]) is None);
                    return Err(e);
                },
            };
            assert(ps.take(k + 1).drop_last() =~= ps.take(k as int));
            assert(ps.take(k + 1).last() == ps[k as int]);
            hashes.push(hash);
            match fresh {
                Some(c) => {
                    pending.push((hash, c));
                    assert(pending_view(pending@) =~= pend_before.push((hash, c@)));
                },
                None => {
                    assert(pending_view(pending@) =~= pend_before);
                },
            }
            k = k + 1;
        }
        assert(ps.take(k as int) =~= ps);
        assert(hashes@ =~= file_block_hashes(data@));
        let meta = FileMetadata::new(hashes, file_path, data.len() as u64);
        Ok((meta, pending))
    }

    /// Where the block with this hash is stored, if it has been seen.
    pub fn block_path(&self, hash: u64) -> (r: Option<String>)
        ensures
            r is Some <==> self.pool().contains_key(hash),
            r matches Some(p) ==> p@ == block_path_text(self.store_view(), hash),
    {
        match self.block_pool.get(&hash) {
            Some(_) => Some(block_file_path(&self.store_path, hash)),
            None => None,
        }
    }
}

/// Every block of a file is in the pool once the file has been admitted.
pub proof fn lemma_admitted_blocks_pooled(pool: Map<u64, BlockMetadata>, blocks: Seq<Seq<u8>>)
    ensures
        forall|k: int| 0 <= k < blocks.len() ==> admit_all(pool, blocks).contains_key(xxh3_64_of(#[trigger] blocks[k])),
        forall|h: u64| pool.contains_key(h) ==> #[trigger] admit_all(pool, blocks).contains_key(h) && admit_all(pool, blocks)[h] == pool[h],
    decreases blocks.len(),
{
    if blocks.len() > 0 {
        let init = blocks.drop_last();
        lemma_admitted_blocks_pooled(pool, init);
        assert forall|k: int| 0 <= k < blocks.len() implies admit_all(pool, blocks).contains_key(xxh3_64_of(#[trigger] blocks[k])) by {
            if k < blocks.len() - 1 {
                assert(blocks[k] == init[k]);
                assert(admit_all(pool, init).contains_key(xxh3_64_of(init[k])));
            }
        }
        assert forall|h: u64| pool.contains_key(h) implies #[trigger] admit_all(pool, blocks).contains_key(h) && admit_all(pool, blocks)[h] == pool[h] by {
            assert(admit_all(pool, init).contains_key(h));
        }
    }
}

/// Admitting blocks that are all in the pool already adds nothing and
/// changes nothing: storing the same content twice stores its blocks once.
pub proof fn lemma_admit_again_adds_nothing(pool: Map<u64, BlockMetadata>, blocks: Seq<Seq<u8>>)
    requires
        forall|k: int| 0 <= k < blocks.len() ==> pool.contains_key(xxh3_64_of(#[trigger] blocks[k])),
    ensures
        admitted(pool, blocks) == Seq::<(u64, Seq<u8>)>::empty(),
        admit_all(pool, blocks) == pool,
    decreases blocks.len(),
{
    if blocks.len() > 0 {
        let init = blocks.drop_last();
        assert forall|k: int| 0 <= k < init.len() implies pool.contains_key(xxh3_64_of(#[trigger] init[k])) by {
            assert(init[k] == blocks[k]);
        }
        lemma_admit_again_adds_nothing(pool, init);
        assert(pool.contains_key(xxh3_64_of(blocks[blocks.len() - 1])));
    }
}

/// Processing a file's content a second time stores no new block.
pub proof fn lemma_second_pass_stores_nothing(pool: Map<u64, BlockMetadata>, data: Seq<u8>)
    ensures
        admitted(admit_all(pool, file_pieces(data)), file_pieces(data)) == Seq::<(u64, Seq<u8>)>::empty(),
        admit_all(admit_all(pool, file_pieces(data)), file_pieces(data)) == admit_all(pool, file_pieces(data)),
{
    lemma_admitted_blocks_pooled(pool, file_pieces(data));
    lemma_admit_again_adds_nothing(admit_all(pool, file_pieces(data)), file_pieces(data));
}

/// The blocks a file is cut into give its content back when put together,
/// and none is longer than `BLOCK_SIZE`.
pub proof fn lemma_file_pieces_rebuild(data: Seq<u8>)
    ensures
        file_pieces(data).flatten() == data,
        forall|k: int| 0 <= k < file_pieces(data).len() ==> (#[trigger] file_pieces(data)[k]).len() <= BLOCK_SIZE,
{
    let rv = fixed_from(data.len() as int, BLOCK_SIZE as int, 0);
    lemma_fixed_tiles(data.len() as int, BLOCK_SIZE as int, 0);
    lemma_tiles_within(rv, 0, data.len() as int);
    lemma_tiles_flatten(data, rv, 0, data.len() as int);
    assert(data.subrange(0, data.len() as int) =~= data);
    assert forall|k: int| 0 <= k < file_pieces(data).len() implies (#[trigger] file_pieces(data)[k]).len() <= BLOCK_SIZE by {
        assert(rv[k].1 - rv[k].0 <= BLOCK_SIZE);
    }
}

} // verus!
