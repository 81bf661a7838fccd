//! A revision of a file: the ids of the blocks that make up its content.
use vstd::prelude::*;
use crate::storage::file_block::FileBlock;
use crate::storage::unix_time_nanos;
use crate::text::{copy_string, copy_strings, texts};

verus! {

/// The current time in whole milliseconds since the Unix epoch, read from
/// the system clock: zero when the clock reads before the epoch, and
/// `i64::MAX` past what an `i64` holds.  It never fails.
pub(crate) fn utc_now_millis() -> (r: i64)
    ensures
        r >= 0,
{
    let millis = unix_time_nanos() / 1_000_000;
    if millis > i64::MAX as u128 {
        i64::MAX
    } else {
        millis as i64
    }
}

/// A revision of a file.
#[derive(Debug)]
pub struct MetaFileRevision {
    /// The revision number.
    pub revision: u64,
    /// The changelist that made it.
    pub related_changelist_id: u64,
    /// The ids of its blocks, in order.
    pub block_hashes: Vec<String>,
    /// When it was made, in milliseconds since the Unix epoch.
    pub created_at: i64,
    /// When it was last changed, in milliseconds since the Unix epoch.
    pub updated_at: i64,
}

/// A revision as plain values.
pub struct RevisionView {
    pub revision: u64,
    pub related_changelist_id: u64,
    pub block_hashes: Seq<Seq<char>>,
    pub created_at: i64,
    pub updated_at: i64,
}

impl View for MetaFileRevision {
    type V = RevisionView;

    open spec fn view(&self) -> RevisionView {
        RevisionView {
            revision: self.revision,
            related_changelist_id: self.related_changelist_id,
            block_hashes: texts(self.block_hashes@),
            created_at: self.created_at,
            updated_at: self.updated_at,
        }
    }
}

/// The ids of a sequence of blocks.
pub open spec fn block_ids(v: Seq<FileBlock>) -> Seq<Seq<char>> {
    v.map_values(|b: FileBlock| b.id@)
}

impl MetaFileRevision {
    /// A copy of the revision.
    pub fn copy(&self) -> (r: Self)
        ensures
            r@ == self@,
    {
        MetaFileRevision {
            revision: self.revision,
            related_changelist_id: self.related_changelist_id,
            block_hashes: copy_strings(&self.block_hashes),
            created_at: self.created_at,
            updated_at: self.updated_at,
        }
    }

    /// The revision made of the blocks a file was cut into, stamped now.
    pub fn from_blocks(revision: u64, related_changelist_id: u64, blocks: &Vec<FileBlock>) -> (r: Self)
        ensures
            r.revision == revision,
            r.related_changelist_id == related_changelist_id,
            r@.block_hashes == block_ids(blocks@),
            r.created_at == r.updated_at,
    {
        let mut ids: Vec<String> = Vec::new();
        let mut k: usize = 0;
        while k < blocks.len()
            invariant
                k <= blocks@.len(),
                texts(ids@) == block_ids(blocks@).take(k as int),
            decreases blocks@.len() - k,
        {
            let ghost before = ids@;
            let id = copy_string(&blocks[k].id);
            ids.push(id);
            assert(ids@ == before.push(id));
            assert(texts(ids@) =~= texts(before).push(id@));
            assert(block_ids(blocks@).take(k + 1) =~= block_ids(blocks@).take(k as int).push(blocks@[k as int].id@));
            k = k + 1;
        }
        assert(block_ids(blocks@).take(k as int) =~= block_ids(blocks@));
        let now = utc_now_millis();
        MetaFileRevision { revision, related_changelist_id, block_hashes: ids, created_at: now, updated_at: now }
    }
}

impl Clone for MetaFileRevision {
    fn clone(&self) -> (r: Self)
        ensures
            r@ == self@,
    {
        self.copy()
    }
}

} // verus!
