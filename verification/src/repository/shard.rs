//! The state of one shard of a repository: the packs it knows, the id the
//! next pack takes, and the pack being written, if any.
use vstd::prelude::*;
use super::chunk::ChunkHash;
use super::error::{RepositoryError, Result};
use super::index::IndexEntry;
use super::layout::sealed_pack_ids;
use super::pack::PackBundle;
use crate::text::copy_string;

verus! {

/// Ids strictly increase along the list.
pub open spec fn ids_sorted(s: Seq<u32>) -> bool {
    forall|i: int, j: int| 0 <= i < j < s.len() ==> s[i] < s[j]
}

/// Inserts `id` into a strictly increasing list, keeping it so; an id
/// already there changes nothing.
pub fn insert_id(ids: &mut Vec<u32>, id: u32)
    requires
        ids_sorted(old(ids)@),
    ensures
        ids_sorted(final(ids)@),
        final(ids)@.to_set() == old(ids)@.to_set().insert(id),
{
    let ghost s = ids@;
    let mut i: usize = 0;
    while i < ids.len() && ids[i] < id
        invariant
            i <= ids@.len(),
            ids@ == s,
            ids_sorted(s),
            forall|k: int| 0 <= k < i ==> s[k] < id,
        decreases ids@.len() - i,
    {
        i = i + 1;
    }
    if i < ids.len() && ids[i] == id {
        assert(s.to_set().insert(id) =~= s.to_set());
        return;
    }
    ids.insert(i, id);
    proof {
        let t = ids@;
        assert(t == s.insert(i as int, id));
        assert forall|a: int, b: int| 0 <= a < b < t.len() implies t[a] < t[b] by {
            if b < i {
            } else if b == i {
            } else if a < i {
                assert(t[b] == s[b - 1]);
            } else if a == i {
                assert(t[b] == s[b - 1]);
                assert(s[i as int] > id);
            } else {
                assert(t[a] == s[a - 1] && t[b] == s[b - 1]);
            }
        }
        assert forall|x: u32| #[trigger] t.to_set().contains(x) <==> s.to_set().insert(id).contains(x) by {
            if t.to_set().contains(x) {
                let k = choose|k: int| 0 <= k < t.len() && t[k] == x;
                if k < i {
                    assert(s[k] == x);
                } else if k > i {
                    assert(s[k - 1] == x);
                }
            }
            if s.to_set().contains(x) {
                let k = choose|k: int| 0 <= k < s.len() && s[k] == x;
                if k < i {
                    assert(t[k] == x);
                } else {
                    assert(t[k + 1] == x);
                }
            }
            if x == id {
                assert(t[i as int] == id);
            }
        }
        assert(t.to_set() =~= s.to_set().insert(id));
    }
}

/// The state of a shard.
#[derive(Debug)]
pub struct ShardState {
    known_packs: Vec<u32>,
    next_pack_id: u32,
    active: Option<PackBundle>,
}

impl ShardState {
    pub closed spec fn wf(&self) -> bool {
        &&& ids_sorted(self.known_packs@)
        &&& (self.active matches Some(b) ==> b.wf() && self.known_packs@.contains(b.identity_view().pack_id))
    }

    /// The known pack ids, in increasing order.
    pub closed spec fn known_view(&self) -> Seq<u32> {
        self.known_packs@
    }

    pub closed spec fn next_view(&self) -> u32 {
        self.next_pack_id
    }

    /// The pack being written.
    pub closed spec fn active_view(&self) -> Option<PackBundle> {
        self.active
    }

    /// The id of the pack being written.
    pub open spec fn active_id(&self) -> Option<u32> {
        match self.active_view() {
            Some(b) => Some(b.identity_view().pack_id),
            None => None,
        }
    }

    /// A shard knowing the packs `known_packs` (in increasing order), the
    /// next of which takes `next_pack_id`, with no pack being written.
    pub fn new(known_packs: Vec<u32>, next_pack_id: u32) -> (r: Self)
        requires
            ids_sorted(known_packs@),
        ensures
            r.wf(),
            r.known_view() == known_packs@,
            r.next_view() == next_pack_id,
            r.active_view() is None,
    {
        ShardState { known_packs, next_pack_id, active: None }
    }

    /// The known packs other than the one being written, in order.
    pub fn sealed_pack_ids(&self) -> (r: Vec<u32>)
        ensures
            r@ == self.known_view().filter(|id: u32| Some(id) != self.active_id()),
    {
        let active = match &self.active {
            Some(b) => Some(b.identity().pack_id),
            None => None,
        };
        sealed_pack_ids(self.known_packs.as_slice(), active)
    }

    /// All known packs, in order.
    pub fn all_pack_ids(&self) -> (r: Vec<u32>)
        ensures
            r@ == self.known_view(),
    {
        self.known_packs.clone()
    }

    /// Whether the pack being written holds the chunk.
    pub fn active_contains(&self, hash: &ChunkHash) -> (r: bool)
        requires
            self.wf(),
        ensures
            r == (self.active_view() matches Some(b) && b.index_view().has_hash(hash@)),
    {
        match &self.active {
            Some(b) => b.find_entry(hash).is_some(),
            None => false,
        }
    }

    /// The entry of the chunk in the pack being written, and where that
    /// pack is.
    pub fn find_in_active(&self, hash: &ChunkHash) -> (r: Option<(IndexEntry, String)>)
        requires
            self.wf(),
        ensures
            r is Some <==> (self.active_view() matches Some(b) && b.index_view().has_hash(hash@)),
            r matches Some((e, p)) ==> e.hash@ == hash@ && (self.active_view() matches Some(b) && p@ == b.pack_view().path_view()),
    {
        match &self.active {
            Some(b) => match b.find_entry(hash) {
                Some(e) => Some((e, copy_string(b.pack_path()))),
                None => None,
            },
            None => None,
        }
    }

    /// The id the next pack takes; refused when no id would be left after it.
    pub fn next_bundle_id(&self) -> (r: Result<u32>)
        ensures
            self.next_view() < u32::MAX ==> r == Ok::<u32, RepositoryError>(self.next_view()),
            self.next_view() == u32::MAX ==> r == Err::<u32, RepositoryError>(RepositoryError::PackIdOverflow),
    {
        if self.next_pack_id == u32::MAX {
            Err(RepositoryError::PackIdOverflow)
        } else {
            Ok(self.next_pack_id)
        }
    }

    /// Makes a new bundle, numbered by `next_bundle_id`, the pack being
    /// written: it becomes known and the next id moves on.
    pub fn install_bundle(&mut self, bundle: PackBundle)
        requires
            old(self).wf(),
            old(self).active_view() is None,
            bundle.wf(),
            bundle.identity_view().pack_id == old(self).next_view(),
            old(self).next_view() < u32::MAX,
        ensures
            final(self).wf(),
            final(self).active_view() == Some(bundle),
            final(self).known_view().to_set() == old(self).known_view().to_set().insert(bundle.identity_view().pack_id),
            final(self).next_view() == old(self).next_view() + 1,
    {
        let id = bundle.identity().pack_id;
        insert_id(&mut self.known_packs, id);
        assert(self.known_packs@.to_set().contains(id));
        self.active = Some(bundle);
        self.next_pack_id = self.next_pack_id + 1;
    }

    /// Whether a pack is being written.
    pub fn has_active(&self) -> (r: bool)
        ensures
            r == self.active_view() is Some,
    {
        self.active.is_some()
    }

    /// The pack being written.
    pub fn active(&self) -> (r: Option<&PackBundle>)
        ensures
            r == match self.active_view() {
                Some(b) => Some(&b),
                None => None::<&PackBundle>,
            },
    {
        match &self.active {
            Some(b) => Some(b),
            None => None,
        }
    }

    /// Takes the pack being written out of the shard (to write a chunk to
    /// it, or to seal it).
    pub fn take_active(&mut self) -> (r: Option<PackBundle>)
        requires
            old(self).wf(),
        ensures
            final(self).wf(),
            r == old(self).active_view(),
            final(self).active_view() is None,
            final(self).known_view() == old(self).known_view(),
            final(self).next_view() == old(self).next_view(),
            r matches Some(b) ==> b.wf(),
    {
        self.active.take()
    }

    /// Puts back the pack taken out by `take_active`.
    pub fn restore_active(&mut self, bundle: PackBundle)
        requires
            old(self).wf(),
            old(self).active_view() is None,
            bundle.wf(),
            old(self).known_view().contains(bundle.identity_view().pack_id),
        ensures
            final(self).wf(),
            final(self).active_view() == Some(bundle),
            final(self).known_view() == old(self).known_view(),
            final(self).next_view() == old(self).next_view(),
    {
        self.active = Some(bundle);
    }

    /// Whether the pack being written is past a hard limit and must be
    /// sealed before another write.
    pub fn must_seal_before_write(&self, size_limit: u64, chunk_limit: u64) -> (r: bool)
        ensures
            r == (self.active_view() matches Some(b) && (b.pack_view().stats_view().physical_bytes > size_limit
                || b.pack_view().stats_view().chunk_count > chunk_limit)),
    {
        match &self.active {
            Some(b) => b.stats().exceeds_limits(size_limit, chunk_limit),
            None => false,
        }
    }

    /// Whether the pack being written has reached the soft limit and is to
    /// be sealed after a write.
    pub fn reached_soft_limit(&self, soft_limit: u64) -> (r: bool)
        ensures
            r == (self.active_view() matches Some(b) && b.pack_view().stats_view().physical_bytes >= soft_limit),
    {
        match &self.active {
            Some(b) => b.stats().physical_bytes >= soft_limit,
            None => false,
        }
    }

    /// Whether `pack_id` is the pack being written.
    pub fn is_active(&self, pack_id: u32) -> (r: bool)
        ensures
            r == (self.active_id() == Some(pack_id)),
    {
        match &self.active {
            Some(b) => b.identity().pack_id == pack_id,
            None => false,
        }
    }
}

/// The limits of a repository: a pack is sealed once it reaches the soft
/// size, and before a write once it is past either hard limit; each limit
/// is at least 1.
pub fn effective_limit(limit: u64) -> (r: u64)
    ensures
        r == if limit >= 1 { limit } else { 1 },
{
    if limit >= 1 { limit } else { 1 }
}

/// The shard a chunk goes to: the first byte of its hash.
pub fn shard_of(hash: &ChunkHash) -> (r: u8)
    ensures
        r == hash@[0],
{
    hash[0]
}

} // verus!
