//! Recovery of a write-ahead log: replaying its records recovers the data of
//! committed transactions and discards the rest.
use vstd::prelude::*;
use crate::assoc::{
    assoc_map, has_key, keys_distinct, lemma_assoc_empty, lemma_assoc_index, lemma_assoc_push,
    lemma_assoc_remove, lemma_assoc_update, lemma_remove_no_dup,
};
use crate::text::{copy_string, string_eq};

verus! {

/// A record of the write-ahead log.
#[derive(Debug, Clone)]
pub enum LogEntry {
    Begin { tx_id: u64, timestamp: u64 },
    Write { tx_id: u64, key: String, value: String },
    Commit { tx_id: u64, timestamp: u64 },
    Abort { tx_id: u64, timestamp: u64 },
    Checkpoint { timestamp: u64 },
}

/// Abstract record.
pub enum EntryView {
    Begin(u64),
    Write(u64, Seq<char>, Seq<char>),
    Commit(u64),
    Abort(u64),
    Checkpoint(u64),
}

impl View for LogEntry {
    type V = EntryView;

    open spec fn view(&self) -> EntryView {
        match self {
            LogEntry::Begin { tx_id, .. } => EntryView::Begin(*tx_id),
            LogEntry::Write { tx_id, key, value } => EntryView::Write(*tx_id, key@, value@),
            LogEntry::Commit { tx_id, .. } => EntryView::Commit(*tx_id),
            LogEntry::Abort { tx_id, .. } => EntryView::Abort(*tx_id),
            LogEntry::Checkpoint { timestamp } => EntryView::Checkpoint(*timestamp),
        }
    }
}

/// The time a record carries, if any; recovery does not read it, so the
/// view leaves it out.
pub open spec fn entry_time(e: LogEntry) -> Option<u64> {
    match e {
        LogEntry::Begin { timestamp, .. } => Some(timestamp),
        LogEntry::Write { .. } => None,
        LogEntry::Commit { timestamp, .. } => Some(timestamp),
        LogEntry::Abort { timestamp, .. } => Some(timestamp),
        LogEntry::Checkpoint { timestamp } => Some(timestamp),
    }
}

impl LogEntry {
    /// A copy of the record, its time included.
    pub fn copy(&self) -> (r: Self)
        ensures
            r@ == self@,
            entry_time(r) == entry_time(*self),
    {
        match self {
            LogEntry::Begin { tx_id, timestamp } => LogEntry::Begin { tx_id: *tx_id, timestamp: *timestamp },
            LogEntry::Write { tx_id, key, value } => LogEntry::Write {
                tx_id: *tx_id,
                key: copy_string(key),
                value: copy_string(value),
            },
            LogEntry::Commit { tx_id, timestamp } => LogEntry::Commit { tx_id: *tx_id, timestamp: *timestamp },
            LogEntry::Abort { tx_id, timestamp } => LogEntry::Abort { tx_id: *tx_id, timestamp: *timestamp },
            LogEntry::Checkpoint { timestamp } => LogEntry::Checkpoint { timestamp: *timestamp },
        }
    }
}

/// The state rebuilt from the log: the committed key/values, the
/// transactions begun and not finished, the writes of the transactions not
/// yet committed, and the last checkpoint's time.
#[derive(Debug)]
pub struct RecoveryState {
    pub committed_data: Vec<(String, String)>,
    pub active_transactions: Vec<u64>,
    pub transaction_data: Vec<(u64, Vec<(String, String)>)>,
    pub last_checkpoint: Option<u64>,
}

/// Abstract recovery state.
pub struct RecoveryView {
    pub committed: Map<Seq<char>, Seq<char>>,
    pub active: Set<u64>,
    pub pending: Map<u64, Seq<(Seq<char>, Seq<char>)>>,
    pub last_checkpoint: Option<u64>,
}

/// The texts of key/value pairs.
pub open spec fn pairs_model(v: Seq<(String, String)>) -> Seq<(Seq<char>, Seq<char>)> {
    v.map_values(|p: (String, String)| (p.0@, p.1@))
}

/// The model of the pending writes.
pub open spec fn pending_model(v: Seq<(u64, Vec<(String, String)>)>) -> Seq<(u64, Seq<(Seq<char>, Seq<char>)>)> {
    v.map_values(|p: (u64, Vec<(String, String)>)| (p.0, pairs_model(p.1@)))
}

impl View for RecoveryState {
    type V = RecoveryView;

    open spec fn view(&self) -> RecoveryView {
        RecoveryView {
            committed: assoc_map(pairs_model(self.committed_data@)),
            active: self.active_transactions@.to_set(),
            pending: assoc_map(pending_model(self.transaction_data@)),
            last_checkpoint: self.last_checkpoint,
        }
    }
}

/// The empty state.
pub open spec fn empty_state() -> RecoveryView {
    RecoveryView { committed: Map::empty(), active: Set::empty(), pending: Map::empty(), last_checkpoint: None }
}

/// `m` after the writes `ws`, in order.
pub open spec fn apply_writes(m: Map<Seq<char>, Seq<char>>, ws: Seq<(Seq<char>, Seq<char>)>) -> Map<Seq<char>, Seq<char>>
    decreases ws.len(),
{
    if ws.len() == 0 {
        m
    } else {
        apply_writes(m, ws.drop_last()).insert(ws.last().0, ws.last().1)
    }
}

/// The state after one record: a begin starts an empty transaction; a
/// write joins its transaction if that transaction is pending; a commit
/// applies the transaction's writes in order and ends it; an abort drops
/// them and ends it; a checkpoint records its time.
pub open spec fn step(s: RecoveryView, e: EntryView) -> RecoveryView {
    match e {
        EntryView::Begin(t) => RecoveryView { active: s.active.insert(t), pending: s.pending.insert(t, Seq::empty()), ..s },
        EntryView::Write(t, k, v) => if s.pending.contains_key(t) {
            RecoveryView { pending: s.pending.insert(t, s.pending[t].push((k, v))), ..s }
        } else {
            s
        },
        EntryView::Commit(t) => if s.pending.contains_key(t) {
            RecoveryView {
                committed: apply_writes(s.committed, s.pending[t]),
                pending: s.pending.remove(t),
                active: s.active.remove(t),
                ..s
            }
        } else {
            RecoveryView { active: s.active.remove(t), ..s }
        },
        EntryView::Abort(t) => RecoveryView { pending: s.pending.remove(t), active: s.active.remove(t), ..s },
        EntryView::Checkpoint(ts) => RecoveryView { last_checkpoint: Some(ts), ..s },
    }
}

/// The state after the records, in order.
pub open spec fn replay(s: RecoveryView, es: Seq<EntryView>) -> RecoveryView
    decreases es.len(),
{
    if es.len() == 0 {
        s
    } else {
        step(replay(s, es.drop_last()), es.last())
    }
}

/// The state with the writes of unfinished transactions dropped.
pub open spec fn finalized(s: RecoveryView) -> RecoveryView {
    RecoveryView { pending: s.pending.remove_keys(s.active), ..s }
}

/// The views of a sequence of records.
pub open spec fn entry_views(s: Seq<LogEntry>) -> Seq<EntryView> {
    s.map_values(|e: LogEntry| e@)
}

impl RecoveryState {
    /// Well-formedness: keys and transaction ids each listed once.
    pub open spec fn wf(&self) -> bool {
        &&& keys_distinct(pairs_model(self.committed_data@))
        &&& self.active_transactions@.no_duplicates()
        &&& keys_distinct(pending_model(self.transaction_data@))
    }

    /// The empty state.
    pub fn new() -> (r: Self)
        ensures
            r.wf(),
            r@ == empty_state(),
    {
        let r = RecoveryState {
            committed_data: Vec::new(),
            active_transactions: Vec::new(),
            transaction_data: Vec::new(),
            last_checkpoint: None,
        };
        proof {
            lemma_assoc_empty::<Seq<char>, Seq<char>>();
            lemma_assoc_empty::<u64, Seq<(Seq<char>, Seq<char>)>>();
            assert(pairs_model(r.committed_data@) =~= Seq::empty());
            assert(pending_model(r.transaction_data@) =~= Seq::empty());
            assert(r.active_transactions@.to_set() =~= Set::empty());
        }
        r
    }

    fn active_index(&self, tx: u64) -> (r: Option<usize>)
        ensures
            r is None <==> !self@.active.contains(tx),
            r matches Some(j) ==> j < self.active_transactions@.len() && self.active_transactions@[j as int] == tx,
    {
        let mut j: usize = 0;
        while j < self.active_transactions.len()
            invariant
                j <= self.active_transactions@.len(),
                forall|i: int| 0 <= i < j ==> self.active_transactions@[i] != tx,
            decreases self.active_transactions@.len() - j,
        {
            if self.active_transactions[j] == tx {
                assert(self.active_transactions@.to_set().contains(tx));
                return Some(j);
            }
            j = j + 1;
        }
        None
    }

    fn pending_index(&self, tx: u64) -> (r: Option<usize>)
        requires
            keys_distinct(pending_model(self.transaction_data@)),
        ensures
            r is None <==> !self@.pending.contains_key(tx),
            r matches Some(j) ==> j < self.transaction_data@.len() && self.transaction_data@[j as int].0 == tx
                && self@.pending[tx] == pairs_model(self.transaction_data@[j as int].1@),
    {
        let ghost m = pending_model(self.transaction_data@);
        let mut j: usize = 0;
        while j < self.transaction_data.len()
            invariant
                j <= self.transaction_data@.len(),
                m == pending_model(self.transaction_data@),
                keys_distinct(m),
                forall|i: int| 0 <= i < j ==> (#[trigger] m[i]).0 != tx,
            decreases self.transaction_data@.len() - j,
        {
            if self.transaction_data[j].0 == tx {
                assert(m[j as int].0 == tx);
                proof {
                    lemma_assoc_index(m, j as int);
                }
                return Some(j);
            }
            j = j + 1;
        }
        assert(!has_key(m, tx));
        None
    }

    /// Records a committed key/value, replacing the key's value.
    fn commit_write(&mut self, key: String, value: String)
        requires
            keys_distinct(pairs_model(old(self).committed_data@)),
        ensures
            keys_distinct(pairs_model(final(self).committed_data@)),
            final(self)@.committed == old(self)@.committed.insert(key@, value@),
            final(self).active_transactions == old(self).active_transactions,
            final(self).transaction_data == old(self).transaction_data,
            final(self).last_checkpoint == old(self).last_checkpoint,
    {
        let ghost m = pairs_model(self.committed_data@);
        let ghost kv = (key@, value@);
        let mut j: usize = 0;
        while j < self.committed_data.len()
            invariant
                j <= self.committed_data@.len(),
                m == pairs_model(self.committed_data@),
                m == pairs_model(old(self).committed_data@),
                keys_distinct(m),
                kv == (key@, value@),
                self.active_transactions == old(self).active_transactions,
                self.transaction_data == old(self).transaction_data,
                self.last_checkpoint == old(self).last_checkpoint,
                forall|i: int| 0 <= i < j ==> (#[trigger] m[i]).0 != key@,
            decreases self.committed_data@.len() - j,
        {
            if string_eq(&self.committed_data[j].0, &key) {
                let k = copy_string(&self.committed_data[j].0);
                self.committed_data.set(j, (k, value));
                proof {
                    lemma_assoc_update(m, j as int, kv.1);
                    assert(pairs_model(self.committed_data@) =~= m.update(j as int, (m[j as int].0, kv.1)));
                }
                return;
            }
            j = j + 1;
        }
        assert(!has_key(m, key@));
        self.committed_data.push((key, value));
        proof {
            lemma_assoc_push(m, kv.0, kv.1);
            assert(pairs_model(self.committed_data@) =~= m.push(kv));
        }
    }

    /// Ends a transaction: it is no longer active.
    fn end_transaction(&mut self, tx: u64)
        requires
            old(self).active_transactions@.no_duplicates(),
        ensures
            final(self).active_transactions@.no_duplicates(),
            final(self)@.active == old(self)@.active.remove(tx),
            final(self).committed_data == old(self).committed_data,
            final(self).transaction_data == old(self).transaction_data,
            final(self).last_checkpoint == old(self).last_checkpoint,
    {
        let ghost a = self.active_transactions@;
        match self.active_index(tx) {
            Some(j) => {
                self.active_transactions.remove(j);
                proof {
                    lemma_remove_no_dup(a, j as int);
                }
            },
            None => {
                assert(a.to_set().remove(tx) =~= a.to_set());
            },
        }
    }

    /// Replays one record.
    pub fn process_entry(&mut self, entry: LogEntry)
        requires
            old(self).wf(),
        ensures
            final(self).wf(),
            final(self)@ == step(old(self)@, entry@),
    {
        let ghost s0 = self@;
        match entry {
            LogEntry::Begin { tx_id, .. } => {
                if self.active_index(tx_id).is_none() {
                    let ghost a = self.active_transactions@;
                    self.active_transactions.push(tx_id);
                    proof {
                        a.lemma_push_to_set_commute(tx_id);
                        assert forall|x: int, y: int|
                            0 <= x < self.active_transactions@.len() && 0 <= y < self.active_transactions@.len() && x
                                != y implies self.active_transactions@[x] != self.active_transactions@[y] by {
                            if x == a.len() {
                                assert(a.to_set().contains(a[y]));
                            } else if y == a.len() {
                                assert(a.to_set().contains(a[x]));
                            }
                        }
                    }
                } else {
                    assert(self@.active.insert(tx_id) =~= self@.active);
                }
                let ghost m = pending_model(self.transaction_data@);
                let nv: Vec<(String, String)> = Vec::new();
                assert(pairs_model(nv@) =~= Seq::<(Seq<char>, Seq<char>)>::empty());
                match self.pending_index(tx_id) {
                    Some(j) => {
                        self.transaction_data.set(j, (tx_id, nv));
                        proof {
                            lemma_assoc_update(m, j as int, Seq::empty());
                            assert(pending_model(self.transaction_data@) =~= m.update(j as int, (tx_id, Seq::empty())));
                        }
                    },
                    None => {
                        self.transaction_data.push((tx_id, nv));
                        proof {
                            lemma_assoc_push(m, tx_id, Seq::empty());
                            assert(pending_model(self.transaction_data@) =~= m.push((tx_id, Seq::empty())));
                        }
                    },
                }
                assert(self@.active =~= s0.active.insert(tx_id));
                assert(self@.pending =~= s0.pending.insert(tx_id, Seq::empty()));
                assert(keys_distinct(pairs_model(self.committed_data@)));
                assert(self.active_transactions@.no_duplicates());
                assert(keys_distinct(pending_model(self.transaction_data@)));
            },
            LogEntry::Write { tx_id, key, value } => {
                let ghost kv = (key@, value@);
                match self.pending_index(tx_id) {
                    Some(j) => {
                        let ghost m = pending_model(self.transaction_data@);
                        let (t, mut ws) = self.transaction_data.remove(j);
                        let ghost w0 = pairs_model(ws@);
                        ws.push((key, value));
                        assert(pairs_model(ws@) =~= w0.push(kv));
                        self.transaction_data.insert(j, (t, ws));
                        proof {
                            assert(pending_model(self.transaction_data@) =~= m.update(j as int, (tx_id, w0.push(kv))));
                            lemma_assoc_update(m, j as int, w0.push(kv));
                        }
                        assert(keys_distinct(pending_model(self.transaction_data@)));
                    },
                    None => {},
                }
            },
            LogEntry::Commit { tx_id, .. } => {
                match self.pending_index(tx_id) {
                    Some(j) => {
                        let ghost m = pending_model(self.transaction_data@);
                        let (_, ws) = self.transaction_data.remove(j);
                        proof {
                            lemma_assoc_remove(m, j as int);
                            assert(pending_model(self.transaction_data@) =~= m.remove(j as int));
                        }
                        let ghost wm = pairs_model(ws@);
                        let ghost c0 = self@.committed;
                        let mut i: usize = 0;
                        while i < ws.len()
                            invariant
                                i <= ws@.len(),
                                wm == pairs_model(ws@),
                                keys_distinct(pairs_model(self.committed_data@)),
                                keys_distinct(pending_model(self.transaction_data@)),
                                self@.committed == apply_writes(c0, wm.take(i as int)),
                                self.active_transactions == old(self).active_transactions,
                                self@.pending == s0.pending.remove(tx_id),
                                self.last_checkpoint == old(self).last_checkpoint,
                            decreases ws@.len() - i,
                        {
                            let k = copy_string(&ws[i].0);
                            let v = copy_string(&ws[i].1);
                            self.commit_write(k, v);
                            assert(wm.take(i + 1).drop_last() =~= wm.take(i as int));
                            i = i + 1;
                        }
                        assert(wm.take(ws@.len() as int) =~= wm);
                        self.end_transaction(tx_id);
                        assert(keys_distinct(pending_model(self.transaction_data@)));
                        assert(keys_distinct(pairs_model(self.committed_data@)));
                    },
                    None => {
                        self.end_transaction(tx_id);
                    },
                }
            },
            LogEntry::Abort { tx_id, .. } => {
                match self.pending_index(tx_id) {
                    Some(j) => {
                        let ghost m = pending_model(self.transaction_data@);
                        self.transaction_data.remove(j);
                        proof {
                            lemma_assoc_remove(m, j as int);
                            assert(pending_model(self.transaction_data@) =~= m.remove(j as int));
                        }
                    },
                    None => {
                        assert(s0.pending.remove(tx_id) =~= s0.pending);
                    },
                }
                self.end_transaction(tx_id);
            },
            LogEntry::Checkpoint { timestamp } => {
                self.last_checkpoint = Some(timestamp);
            },
        }
    }

    /// Drops the writes of the transactions still active: they never
    /// committed.  The transactions stay listed as active.
    pub fn finalize(&mut self)
        requires
            old(self).wf(),
        ensures
            final(self).wf(),
            final(self)@ == finalized(old(self)@),
    {
        let ghost s0 = self@;
        let mut i: usize = 0;
        while i < self.active_transactions.len()
            invariant
                i <= self.active_transactions@.len(),
                self.wf(),
                self.active_transactions@ == old(self).active_transactions@,
                self.committed_data == old(self).committed_data,
                self.last_checkpoint == old(self).last_checkpoint,
                self@.pending == s0.pending.remove_keys(self.active_transactions@.take(i as int).to_set()),
            decreases self.active_transactions@.len() - i,
        {
            let tx = self.active_transactions[i];
            let ghost p = self@.pending;
            match self.pending_index(tx) {
                Some(j) => {
                    let ghost m = pending_model(self.transaction_data@);
                    self.transaction_data.remove(j);
                    proof {
                        lemma_assoc_remove(m, j as int);
                        assert(pending_model(self.transaction_data@) =~= m.remove(j as int));
                    }
                },
                None => {},
            }
            proof {
                let a = self.active_transactions@;
                assert(a.take(i + 1) =~= a.take(i as int).push(tx));
                a.take(i as int).lemma_push_to_set_commute(tx);
                assert(self@.pending =~= s0.pending.remove_keys(a.take(i + 1).to_set()));
            }
            i = i + 1;
        }
        assert(self.active_transactions@.take(self.active_transactions@.len() as int) =~= self.active_transactions@);
    }

    /// The state recovered from a log: its records replayed in order, then
    /// the writes of unfinished transactions dropped.
    pub fn from_entries(entries: &[LogEntry]) -> (r: Self)
        ensures
            r.wf(),
            r@ == finalized(replay(empty_state(), entry_views(entries@))),
    {
        let mut s = RecoveryState::new();
        let ghost es = entry_views(entries@);
        let mut i: usize = 0;
        while i < entries.len()
            invariant
                i <= entries@.len(),
                es == entry_views(entries@),
                s.wf(),
                s@ == replay(empty_state(), es.take(i as int)),
            decreases entries@.len() - i,
        {
            let e = entries[i].copy();
            s.process_entry(e);
            assert(es.take(i + 1).drop_last() =~= es.take(i as int));
            assert(es.take(i + 1).last() == entries@[i as int]@);
            i = i + 1;
        }
        assert(es.take(entries@.len() as int) =~= es);
        s.finalize();
        s
    }

    /// The committed value of a key.
    pub fn get_value(&self, key: &str) -> (r: Option<&String>)
        requires
            self.wf(),
        ensures
            r is Some <==> self@.committed.contains_key(key@),
            r matches Some(v) ==> v@ == self@.committed[key@],
    {
        let k = String::from_str(key);
        let ghost m = pairs_model(self.committed_data@);
        let mut j: usize = 0;
        while j < self.committed_data.len()
            invariant
                j <= self.committed_data@.len(),
                m == pairs_model(self.committed_data@),
                keys_distinct(m),
                k@ == key@,
                forall|i: int| 0 <= i < j ==> (#[trigger] m[i]).0 != key@,
            decreases self.committed_data@.len() - j,
        {
            if string_eq(&self.committed_data[j].0, &k) {
                assert(m[j as int].0 == key@);
                proof {
                    lemma_assoc_index(m, j as int);
                }
                return Some(&self.committed_data[j].1);
            }
            j = j + 1;
        }
        assert(!has_key(m, key@));
        None
    }

    /// Whether some transaction began and was neither committed nor aborted.
    pub fn has_uncommitted(&self) -> (r: bool)
        ensures
            r == (self@.active != Set::<u64>::empty()),
    {
        proof {
            if self.active_transactions@.len() > 0 {
                assert(self@.active.contains(self.active_transactions@[0]));
            } else {
                assert(self@.active =~= Set::<u64>::empty());
            }
        }
        self.active_transactions.len() > 0
    }
}

impl Default for RecoveryState {
    fn default() -> (r: Self)
        ensures
            r.wf(),
            r@ == empty_state(),
    {
        RecoveryState::new()
    }
}

/// The transaction a record belongs to; a checkpoint belongs to none.
pub open spec fn tx_of(e: EntryView) -> Option<u64> {
    match e {
        EntryView::Begin(t) => Some(t),
        EntryView::Write(t, _, _) => Some(t),
        EntryView::Commit(t) => Some(t),
        EntryView::Abort(t) => Some(t),
        EntryView::Checkpoint(_) => None,
    }
}

/// The largest transaction id among the records, 0 when there is none.
pub open spec fn max_tx(es: Seq<EntryView>) -> u64
    decreases es.len(),
{
    if es.len() == 0 {
        0
    } else {
        let m = max_tx(es.drop_last());
        match tx_of(es.last()) {
            Some(t) => if t > m { t } else { m },
            None => m,
        }
    }
}

/// The largest transaction id in a log, 0 when there is none.
pub fn max_tx_id(entries: &[LogEntry]) -> (r: u64)
    ensures
        r == max_tx(entry_views(entries@)),
{
    let ghost es = entry_views(entries@);
    let mut m: u64 = 0;
    let mut i: usize = 0;
    while i < entries.len()
        invariant
            i <= entries@.len(),
            es == entry_views(entries@),
            m == max_tx(es.take(i as int)),
        decreases entries@.len() - i,
    {
        let t = match &entries[i] {
            LogEntry::Begin { tx_id, .. } => Some(*tx_id),
            LogEntry::Write { tx_id, .. } => Some(*tx_id),
            LogEntry::Commit { tx_id, .. } => Some(*tx_id),
            LogEntry::Abort { tx_id, .. } => Some(*tx_id),
            LogEntry::Checkpoint { .. } => None,
        };
        assert(es.take(i + 1).drop_last() =~= es.take(i as int));
        assert(es.take(i + 1).last() == entries@[i as int]@);
        if let Some(t) = t {
            if t > m {
                m = t;
            }
        }
        i = i + 1;
    }
    assert(es.take(entries@.len() as int) =~= es);
    m
}

/// Some transaction writes `v` to `k` in the log and commits after that.
pub open spec fn committed_write(es: Seq<EntryView>, k: Seq<char>, v: Seq<char>) -> bool {
    exists|t: u64, i: int, j: int| #[trigger] write_then_commit(es, t, i, j, k, v)
}

/// Record `i` writes `v` to `k` in transaction `t`, and record `j`, later,
/// commits `t`.
pub open spec fn write_then_commit(es: Seq<EntryView>, t: u64, i: int, j: int, k: Seq<char>, v: Seq<char>) -> bool {
    0 <= i < j < es.len() && es[i] == EntryView::Write(t, k, v) && es[j] == EntryView::Commit(t)
}

/// Transaction `t` writes the pair in the log.
pub open spec fn logged_write(es: Seq<EntryView>, t: u64, kv: (Seq<char>, Seq<char>)) -> bool {
    exists|i: int| 0 <= i < es.len() && #[trigger] es[i] == EntryView::Write(t, kv.0, kv.1)
}

/// A key after a series of writes holds its old value, or the value of one
/// of the writes.
proof fn lemma_apply_writes_source(m: Map<Seq<char>, Seq<char>>, ws: Seq<(Seq<char>, Seq<char>)>, k: Seq<char>)
    requires
        apply_writes(m, ws).contains_key(k),
    ensures
        (m.contains_key(k) && apply_writes(m, ws)[k] == m[k]) || exists|q: int|
            0 <= q < ws.len() && #[trigger] ws[q] == (k, apply_writes(m, ws)[k]),
    decreases ws.len(),
{
    if ws.len() > 0 {
        let p = ws.drop_last();
        if ws.last().0 == k {
            assert(ws[ws.len() - 1] == (k, apply_writes(m, ws)[k]));
        } else {
            lemma_apply_writes_source(m, p, k);
            if !(m.contains_key(k) && apply_writes(m, ws)[k] == m[k]) {
                let q = choose|q: int| 0 <= q < p.len() && #[trigger] p[q] == (k, apply_writes(m, p)[k]);
                assert(ws[q] == p[q]);
            }
        }
    }
}

/// What the replay of a log holds comes from the log: each committed value
/// from a write followed by its transaction's commit, each pending write from
/// a write of its transaction.
proof fn lemma_replay_provenance(es: Seq<EntryView>)
    ensures
        forall|k: Seq<char>|
            #[trigger] replay(empty_state(), es).committed.contains_key(k) ==> committed_write(
                es,
                k,
                replay(empty_state(), es).committed[k],
            ),
        forall|t: u64, q: int|
            #[trigger] replay(empty_state(), es).pending.contains_key(t) && 0 <= q < replay(empty_state(), es).pending[t].len()
                ==> logged_write(es, t, #[trigger] replay(empty_state(), es).pending[t][q]),
    decreases es.len(),
{
    if es.len() > 0 {
        let p = es.drop_last();
        lemma_replay_provenance(p);
        let s = replay(empty_state(), p);
        let e = es.last();
        let s2 = replay(empty_state(), es);
        assert(s2 == step(s, e));
        let n = es.len() - 1;
        assert forall|i: int| 0 <= i < p.len() implies #[trigger] es[i] == p[i] by {}
        assert forall|k: Seq<char>, v: Seq<char>| committed_write(p, k, v) implies committed_write(es, k, v) by {
            let (t, i, j) = choose|t: u64, i: int, j: int| #[trigger] write_then_commit(p, t, i, j, k, v);
            assert(es[i] == p[i] && es[j] == p[j]);
            assert(write_then_commit(es, t, i, j, k, v));
        }
        assert forall|t: u64, kv: (Seq<char>, Seq<char>)| logged_write(p, t, kv) implies logged_write(es, t, kv) by {
            let i = choose|i: int| 0 <= i < p.len() && #[trigger] p[i] == EntryView::Write(t, kv.0, kv.1);
            assert(es[i] == p[i]);
        }
        assert forall|k: Seq<char>| #[trigger] s2.committed.contains_key(k) implies committed_write(es, k, s2.committed[k]) by {
            match e {
                EntryView::Commit(t) => {
                    if s.pending.contains_key(t) {
                        let ws = s.pending[t];
                        lemma_apply_writes_source(s.committed, ws, k);
                        if !(s.committed.contains_key(k) && s2.committed[k] == s.committed[k]) {
                            let q = choose|q: int| 0 <= q < ws.len() && #[trigger] ws[q] == (k, apply_writes(s.committed, ws)[k]);
                            assert(logged_write(p, t, ws[q]));
                            let i = choose|i: int| 0 <= i < p.len() && #[trigger] p[i] == EntryView::Write(t, ws[q].0, ws[q].1);
                            assert(es[i] == EntryView::Write(t, k, s2.committed[k]));
                            assert(es[n] == EntryView::Commit(t));
                            assert(write_then_commit(es, t, i, n, k, s2.committed[k]));
                        }
                    }
                },
                _ => {},
            }
        }
        assert forall|t: u64, q: int|
            #[trigger] s2.pending.contains_key(t) && 0 <= q < s2.pending[t].len() implies logged_write(es, t, #[trigger] s2.pending[t][q]) by {
            match e {
                EntryView::Write(t2, k, v) => {
                    if t == t2 && s.pending.contains_key(t) && q == s.pending[t].len() {
                        assert(es[n] == EntryView::Write(t, s2.pending[t][q].0, s2.pending[t][q].1));
                    } else if t == t2 && s.pending.contains_key(t) {
                        assert(s2.pending[t][q] == s.pending[t][q]);
                    }
                },
                _ => {},
            }
        }
    }
}

/// Only committed data is recovered: every key of the recovered state holds
/// a value that some transaction wrote to it and then committed; writes of
/// transactions that never commit are discarded.
pub proof fn lemma_only_committed_data_recovered(es: Seq<EntryView>, k: Seq<char>)
    requires
        finalized(replay(empty_state(), es)).committed.contains_key(k),
    ensures
        committed_write(es, k, finalized(replay(empty_state(), es)).committed[k]),
{
    lemma_replay_provenance(es);
}

/// A transaction's writes reach the committed data exactly when it commits,
/// in their order; an abort drops them.
pub proof fn lemma_commit_applies_abort_drops(s: RecoveryView, t: u64)
    requires
        s.pending.contains_key(t),
    ensures
        step(s, EntryView::Commit(t)).committed == apply_writes(s.committed, s.pending[t]),
        step(s, EntryView::Abort(t)).committed == s.committed,
        !step(s, EntryView::Commit(t)).pending.contains_key(t),
        !step(s, EntryView::Abort(t)).pending.contains_key(t),
{
}

/// No pending write of any transaction is to key `k`.
pub open spec fn no_pending_write_to(s: RecoveryView, k: Seq<char>) -> bool {
    forall|t2: u64, q: int|
        s.pending.contains_key(t2) && 0 <= q < s.pending[t2].len() ==> (#[trigger] s.pending[t2][q]).0 != k
}

/// No pending write to key `k` belongs to a transaction other than `t`.
pub open spec fn only_pending_writer(s: RecoveryView, t: u64, k: Seq<char>) -> bool {
    forall|t2: u64, q: int|
        s.pending.contains_key(t2) && t2 != t && 0 <= q < s.pending[t2].len() ==> (#[trigger] s.pending[t2][q]).0 != k
}

/// Transaction `t` is pending and its last pending write to `k` is `v`.
pub open spec fn last_pending_write(s: RecoveryView, t: u64, k: Seq<char>, v: Seq<char>) -> bool {
    &&& s.pending.contains_key(t)
    &&& exists|q: int|
        0 <= q < s.pending[t].len() && #[trigger] s.pending[t][q] == (k, v) && forall|q2: int|
            q < q2 < s.pending[t].len() ==> (#[trigger] s.pending[t][q2]).0 != k
}

/// Writes none of which is to `k` leave `k` as it was.
proof fn lemma_writes_elsewhere(m: Map<Seq<char>, Seq<char>>, ws: Seq<(Seq<char>, Seq<char>)>, k: Seq<char>)
    requires
        forall|q: int| 0 <= q < ws.len() ==> (#[trigger] ws[q]).0 != k,
    ensures
        apply_writes(m, ws).contains_key(k) == m.contains_key(k),
        m.contains_key(k) ==> apply_writes(m, ws)[k] == m[k],
    decreases ws.len(),
{
    if ws.len() > 0 {
        let p = ws.drop_last();
        assert forall|q: int| 0 <= q < p.len() implies (#[trigger] p[q]).0 != k by {
            assert(p[q] == ws[q]);
        }
        lemma_writes_elsewhere(m, p, k);
        assert(ws[ws.len() - 1].0 != k);
    }
}

/// After a series of writes, a key holds the value of the last write to it.
proof fn lemma_last_write_wins(m: Map<Seq<char>, Seq<char>>, ws: Seq<(Seq<char>, Seq<char>)>, k: Seq<char>, v: Seq<char>, q: int)
    requires
        0 <= q < ws.len(),
        ws[q] == (k, v),
        forall|q2: int| q < q2 < ws.len() ==> (#[trigger] ws[q2]).0 != k,
    ensures
        apply_writes(m, ws).contains_key(k),
        apply_writes(m, ws)[k] == v,
    decreases ws.len(),
{
    if q < ws.len() - 1 {
        let p = ws.drop_last();
        assert(p[q] == ws[q]);
        assert forall|q2: int| q < q2 < p.len() implies (#[trigger] p[q2]).0 != k by {
            assert(p[q2] == ws[q2]);
        }
        lemma_last_write_wins(m, p, k, v, q);
        assert(ws[ws.len() - 1].0 != k);
    }
}

/// Transaction `t` begins at record `a`, writes `v` to `k` at record `i` and
/// commits at record `j`, with no other begin, commit or abort of `t`
/// between; every other record that writes `k` is an earlier write of `t`
/// (between `a` and `i`).
pub open spec fn last_committed_write(es: Seq<EntryView>, t: u64, k: Seq<char>, v: Seq<char>, a: int, i: int, j: int) -> bool {
    &&& 0 <= a < i < j < es.len()
    &&& es[a] == EntryView::Begin(t)
    &&& es[i] == EntryView::Write(t, k, v)
    &&& es[j] == EntryView::Commit(t)
    &&& forall|m: int|
        a < m < j ==> #[trigger] es[m] != EntryView::Begin(t) && es[m] != EntryView::Commit(t) && es[m] != EntryView::Abort(t)
    &&& forall|m: int| 0 <= m < es.len() && m != i && writes_key(#[trigger] es[m], k) ==> a < m < i && tx_of(es[m]) == Some(t)
}

/// The record writes key `k`.
pub open spec fn writes_key(e: EntryView, k: Seq<char>) -> bool {
    e matches EntryView::Write(_, k2, _) && k2 == k
}

/// The state after the first `n` records, under `last_committed_write`.
proof fn lemma_last_write_upto(es: Seq<EntryView>, t: u64, k: Seq<char>, v: Seq<char>, a: int, i: int, j: int, n: int)
    requires
        last_committed_write(es, t, k, v, a, i, j),
        0 <= n <= es.len(),
    ensures
        n <= a ==> no_pending_write_to(replay(empty_state(), es.take(n)), k),
        a < n <= j ==> replay(empty_state(), es.take(n)).pending.contains_key(t),
        a < n <= j ==> only_pending_writer(replay(empty_state(), es.take(n)), t, k),
        i < n <= j ==> last_pending_write(replay(empty_state(), es.take(n)), t, k, v),
        j < n ==> no_pending_write_to(replay(empty_state(), es.take(n)), k)
            && replay(empty_state(), es.take(n)).committed.contains_key(k)
            && replay(empty_state(), es.take(n)).committed[k] == v,
    decreases n,
{
    if n == 0 {
        assert(es.take(0) =~= Seq::<EntryView>::empty());
    } else {
        let m = n - 1;
        lemma_last_write_upto(es, t, k, v, a, i, j, m);
        assert(es.take(n).drop_last() =~= es.take(m));
        assert(es.take(n).last() == es[m]);
        let s = replay(empty_state(), es.take(m));
        let s2 = replay(empty_state(), es.take(n));
        assert(s2 == step(s, es[m]));
        match es[m] {
            EntryView::Begin(t1) => {
                if a < m && m < j {
                    assert(t1 != t);
                }
                if i < n && n <= j {
                    let q = choose|q: int|
                        0 <= q < s.pending[t].len() && #[trigger] s.pending[t][q] == (k, v) && forall|q2: int|
                            q < q2 < s.pending[t].len() ==> (#[trigger] s.pending[t][q2]).0 != k;
                    assert(s2.pending[t] == s.pending[t]);
                    assert(s2.pending[t][q] == (k, v));
                }
            },
            EntryView::Write(t1, k1, v1) => {
                if s.pending.contains_key(t1) {
                    let w = s.pending[t1];
                    assert(s2.pending[t1] == w.push((k1, v1)));
                    if k1 == k {
                        assert(a < m && m < i ==> t1 == t);
                        if m == i {
                            assert(t1 == t && v1 == v);
                            assert(s2.pending[t][w.len() as int] == (k, v));
                        }
                    } else if i < n && n <= j {
                        let q = choose|q: int|
                            0 <= q < s.pending[t].len() && #[trigger] s.pending[t][q] == (k, v) && forall|q2: int|
                                q < q2 < s.pending[t].len() ==> (#[trigger] s.pending[t][q2]).0 != k;
                        assert(s2.pending[t][q] == (k, v));
                        assert forall|q2: int| q < q2 < s2.pending[t].len() implies (#[trigger] s2.pending[t][q2]).0 != k by {
                            if t1 != t || q2 < w.len() {
                                assert(s2.pending[t][q2] == s.pending[t][q2]);
                            }
                        }
                    }
                    assert forall|t2: u64, q: int|
                        s2.pending.contains_key(t2) && 0 <= q < s2.pending[t2].len() && (t2 != t1 || q < w.len())
                        implies #[trigger] s2.pending[t2][q] == s.pending[t2][q] by {}
                } else {
                    assert(s2 == s);
                }
            },
            EntryView::Commit(t1) => {
                if m == j {
                    assert(t1 == t);
                    let ws = s.pending[t];
                    let q = choose|q: int|
                        0 <= q < s.pending[t].len() && #[trigger] s.pending[t][q] == (k, v) && forall|q2: int|
                            q < q2 < s.pending[t].len() ==> (#[trigger] s.pending[t][q2]).0 != k;
                    lemma_last_write_wins(s.committed, ws, k, v, q);
                } else if s.pending.contains_key(t1) {
                    if a < m && m < j {
                        assert(t1 != t);
                    }
                    let ws = s.pending[t1];
                    if m < a || m > j || t1 != t {
                        assert forall|q: int| 0 <= q < ws.len() implies (#[trigger] ws[q]).0 != k by {
                            assert(ws[q] == s.pending[t1][q]);
                        }
                        lemma_writes_elsewhere(s.committed, ws, k);
                    }
                }
                if i < n && n <= j {
                    let q = choose|q: int|
                        0 <= q < s.pending[t].len() && #[trigger] s.pending[t][q] == (k, v) && forall|q2: int|
                            q < q2 < s.pending[t].len() ==> (#[trigger] s.pending[t][q2]).0 != k;
                    assert(s2.pending[t] == s.pending[t]);
                    assert(s2.pending[t][q] == (k, v));
                }
            },
            EntryView::Abort(t1) => {
                if a < m && m < j {
                    assert(t1 != t);
                }
                if i < n && n <= j {
                    let q = choose|q: int|
                        0 <= q < s.pending[t].len() && #[trigger] s.pending[t][q] == (k, v) && forall|q2: int|
                            q < q2 < s.pending[t].len() ==> (#[trigger] s.pending[t][q2]).0 != k;
                    assert(s2.pending[t] == s.pending[t]);
                    assert(s2.pending[t][q] == (k, v));
                }
            },
            EntryView::Checkpoint(_) => {
                if i < n && n <= j {
                    let q = choose|q: int|
                        0 <= q < s.pending[t].len() && #[trigger] s.pending[t][q] == (k, v) && forall|q2: int|
                            q < q2 < s.pending[t].len() ==> (#[trigger] s.pending[t][q2]).0 != k;
                    assert(s2.pending[t][q] == (k, v));
                }
            },
        }
    }
}

/// Every write of a committed transaction is recovered, and within a
/// transaction the last write to a key wins: when transaction `t` begins,
/// writes `v` to `k` and then commits (with no other begin, commit or abort
/// of `t` in between), and every other record writing `k` is an earlier
/// write of `t` in that transaction, the state recovered from the log maps
/// `k` to `v`.
pub proof fn lemma_committed_write_recovered(es: Seq<EntryView>, t: u64, k: Seq<char>, v: Seq<char>, a: int, i: int, j: int)
    requires
        last_committed_write(es, t, k, v, a, i, j),
    ensures
        finalized(replay(empty_state(), es)).committed.contains_key(k),
        finalized(replay(empty_state(), es)).committed[k] == v,
{
    lemma_last_write_upto(es, t, k, v, a, i, j, es.len() as int);
    assert(es.take(es.len() as int) =~= es);
}

} // verus!
