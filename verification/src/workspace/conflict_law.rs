//! What a reported mapping conflict means: the two depot files it names are
//! different, and the two mappings of the pair send them onto the one local
//! file it names.
use vstd::prelude::*;
use crate::text::ends_with;
use crate::path::basic::{
    common_prefix_len, is_common_prefix_end, is_prefix_of, lemma_common_prefix_unique, range_match, wildcard_matches,
    DepotPathView, FilenameWildcardView, LocalPathView, RangeDepotWildcardView,
};
use super::entity::{
    conflict_file, file_against_pattern, file_over_folder, folder_over_file, folder_over_folder, pair_conflict,
    patterns_shared_file, race_pair, ConflictWitness, IncludeView, WorkspaceConfigView,
};

verus! {

/// The include mapping `m` sends the depot file `d` to the local file `l`: a
/// file mapping sends its one file; a folder mapping sends each file its
/// range matches to the same place below its local folder.
pub open spec fn include_maps(m: IncludeView, d: DepotPathView, l: LocalPathView) -> bool {
    match m {
        IncludeView::File { depot, local } => d == depot && l == local,
        IncludeView::Folder { depot, local } => match range_match(depot, d) {
            Some(diff) => l.dirs == local + diff && l.file == d.file,
            None => false,
        },
    }
}

/// `w` names two different depot files that `p` and `s`, one each, send
/// onto `w.local`.
pub open spec fn maps_together(p: IncludeView, s: IncludeView, w: ConflictWitness) -> bool {
    &&& w.first != w.second
    &&& (include_maps(p, w.first, w.local) && include_maps(s, w.second, w.local))
        || (include_maps(s, w.first, w.local) && include_maps(p, w.second, w.local))
}

/// The one pair of folder mappings whose report names a depot file that
/// neither mapping sends to the reported local file: the later mapping's
/// local folder lies strictly inside the earlier one's, and its depot folder
/// strictly inside the earlier one's.
pub open spec fn misreported_pair(p: IncludeView, s: IncludeView) -> bool {
    match (p, s) {
        (IncludeView::Folder { depot: pd, local: pl }, IncludeView::Folder { depot: sd, local: sl }) => {
            &&& is_prefix_of(pl, sl) && pl.len() < sl.len()
            &&& is_prefix_of(sd.dirs, pd.dirs) && sd.dirs.len() < pd.dirs.len()
        },
        _ => false,
    }
}

spec fn prefix_count(a: Seq<Seq<char>>, b: Seq<Seq<char>>) -> nat
    decreases a.len(),
{
    if a.len() == 0 || b.len() == 0 || a[0] != b[0] {
        0
    } else {
        1 + prefix_count(a.drop_first(), b.drop_first())
    }
}

proof fn lemma_prefix_count(a: Seq<Seq<char>>, b: Seq<Seq<char>>)
    ensures
        prefix_count(a, b) <= a.len(),
        prefix_count(a, b) <= b.len(),
        forall|k: int| 0 <= k < prefix_count(a, b) ==> a[k] == b[k],
        prefix_count(a, b) == a.len() || prefix_count(a, b) == b.len() || a[prefix_count(a, b) as int] != b[prefix_count(a, b) as int],
    decreases a.len(),
{
    if !(a.len() == 0 || b.len() == 0 || a[0] != b[0]) {
        let (a1, b1) = (a.drop_first(), b.drop_first());
        lemma_prefix_count(a1, b1);
        let n = prefix_count(a, b);
        assert forall|k: int| 0 <= k < n implies a[k] == b[k] by {
            if k > 0 {
                assert(a[k] == a1[k - 1] && b[k] == b1[k - 1]);
            }
        }
        if n < a.len() && n < b.len() {
            assert(a[n as int] == a1[n - 1] && b[n as int] == b1[n - 1]);
        }
    }
}

/// The common prefix of `a` and `b` ends at `common_prefix_len(a, b)`.
proof fn lemma_common_prefix(a: Seq<Seq<char>>, b: Seq<Seq<char>>)
    ensures
        is_common_prefix_end(a, b, common_prefix_len(a, b)),
        forall|k: int| 0 <= k < common_prefix_len(a, b) ==> a[k] == b[k],
{
    lemma_prefix_count(a, b);
    lemma_common_prefix_unique(a, b, prefix_count(a, b) as int);
}

/// When the common prefix of `a` and `b` is all of `a`, `b` is `a` followed
/// by the rest of `b`.
proof fn lemma_split_at_prefix(a: Seq<Seq<char>>, b: Seq<Seq<char>>)
    requires
        common_prefix_len(a, b) == a.len(),
    ensures
        b == a + b.skip(a.len() as int),
        is_prefix_of(a, b),
{
    lemma_common_prefix(a, b);
    assert(a.take(a.len() as int) =~= a);
    assert(b =~= b.take(a.len() as int) + b.skip(a.len() as int));
}

/// When the common prefix of `a` and `b` stops short of `a`, no list
/// starting with `a` starts `b`, and `a` is no prefix of `b`.
proof fn lemma_diverged(a: Seq<Seq<char>>, b: Seq<Seq<char>>, x: Seq<Seq<char>>)
    requires
        common_prefix_len(a, b) != a.len(),
    ensures
        b != a + x,
        !is_prefix_of(a, b),
{
    lemma_common_prefix(a, b);
    let n = common_prefix_len(a, b);
    if b == a + x {
        assert(b[n] == a[n]);
    }
    if is_prefix_of(a, b) {
        assert(b.take(a.len() as int)[n] == a[n]);
    }
}

proof fn lemma_ends_with_append(p: Seq<char>, x: Seq<char>)
    ensures
        ends_with(p + x, x),
{
    assert((p + x).subrange(p.len() as int, (p + x).len() as int) =~= x);
}

proof fn lemma_ends_with_trans(a: Seq<char>, b: Seq<char>, c: Seq<char>)
    requires
        ends_with(a, b),
        ends_with(b, c),
    ensures
        ends_with(a, c),
{
    assert forall|i: int| 0 <= i < c.len() implies a.subrange(a.len() - c.len(), a.len() as int)[i] == c[i] by {
        assert(b.subrange(b.len() - c.len(), b.len() as int)[i] == c[i]);
        assert(a.subrange(a.len() - b.len(), a.len() as int)[b.len() - c.len() + i] == b[b.len() - c.len() + i]);
    }
    assert(a.subrange(a.len() - c.len(), a.len() as int) =~= c);
}

proof fn lemma_ends_with_self(x: Seq<char>)
    ensures
        ends_with(x, x),
{
    assert(x.subrange(0, x.len() as int) =~= x);
}

/// A name two folder patterns share is matched by both.
proof fn lemma_shared_file(a: FilenameWildcardView, b: FilenameWildcardView)
    requires
        patterns_shared_file(a, b) is Some,
    ensures
        wildcard_matches(a, patterns_shared_file(a, b)->Some_0),
        wildcard_matches(b, patterns_shared_file(a, b)->Some_0),
{
    let f = patterns_shared_file(a, b)->Some_0;
    match (a, b) {
        (FilenameWildcardView::Extension(x), FilenameWildcardView::Extension(y)) => {
            if ends_with(x, y) {
                lemma_ends_with_append("your_file"@, x);
                lemma_ends_with_trans(f, x, y);
            } else {
                lemma_ends_with_append("your_file"@, y);
                lemma_ends_with_trans(f, y, x);
            }
        },
        (FilenameWildcardView::Extension(x), FilenameWildcardView::All) => {
            lemma_ends_with_append("your_file"@, x);
        },
        (FilenameWildcardView::All, FilenameWildcardView::Extension(x)) => {
            lemma_ends_with_append("your_file"@, x);
        },
        _ => {},
    }
}

/// A file mapping against a folder mapping.
proof fn lemma_file_over_folder(pd: DepotPathView, pl: LocalPathView, sd: RangeDepotWildcardView, sl: Seq<Seq<char>>, ex: Seq<char>)
    requires
        file_over_folder(pd, pl, sd, sl, ex) is Some,
        ex == pl.file,
        wildcard_matches(sd.wildcard, ex),
    ensures
        maps_together(
            IncludeView::File { depot: pd, local: pl },
            IncludeView::Folder { depot: sd, local: sl },
            file_over_folder(pd, pl, sd, sl, ex)->Some_0,
        ),
{
    let w = file_over_folder(pd, pl, sd, sl, ex)->Some_0;
    let lc = common_prefix_len(pl.dirs, sl);
    let dc = common_prefix_len(pd.dirs, sd.dirs);
    lemma_common_prefix(pl.dirs, sl);
    lemma_common_prefix(pd.dirs, sd.dirs);
    assert(lc == sl.len());
    assert(common_prefix_len(sl, pl.dirs) == sl.len()) by {
        lemma_common_prefix_unique(sl, pl.dirs, sl.len() as int);
    }
    lemma_split_at_prefix(sl, pl.dirs);
    let ld = pl.dirs.skip(lc);
    assert(w.first == DepotPathView { dirs: sd.dirs + ld, file: ex });
    assert(w.second == DepotPathView { dirs: pd.dirs, file: pd.file });
    assert(w.local == LocalPathView { dirs: pl.dirs, file: ex });
    assert((sd.dirs + ld).take(sd.dirs.len() as int) =~= sd.dirs);
    assert((sd.dirs + ld).skip(sd.dirs.len() as int) =~= ld);
    assert(range_match(sd, w.first) == Some(ld));
    assert(include_maps(IncludeView::Folder { depot: sd, local: sl }, w.first, w.local));
    assert(include_maps(IncludeView::File { depot: pd, local: pl }, w.second, w.local));
    if dc == sd.dirs.len() {
        lemma_common_prefix_unique(sd.dirs, pd.dirs, sd.dirs.len() as int);
        lemma_split_at_prefix(sd.dirs, pd.dirs);
        if w.first == w.second {
            assert(pd.dirs.skip(dc) =~= (sd.dirs + ld).skip(sd.dirs.len() as int));
        }
    } else {
        assert(common_prefix_len(sd.dirs, pd.dirs) != sd.dirs.len()) by {
            if common_prefix_len(sd.dirs, pd.dirs) == sd.dirs.len() {
                lemma_split_at_prefix(sd.dirs, pd.dirs);
                lemma_common_prefix_unique(pd.dirs, sd.dirs, sd.dirs.len() as int);
            }
        }
        lemma_diverged(sd.dirs, pd.dirs, ld);
    }
}

/// The common prefix does not depend on the order of the two lists.
proof fn lemma_common_prefix_sym(a: Seq<Seq<char>>, b: Seq<Seq<char>>)
    ensures
        common_prefix_len(a, b) == common_prefix_len(b, a),
{
    lemma_common_prefix(a, b);
    lemma_common_prefix_unique(b, a, common_prefix_len(a, b));
}

/// A filename a pattern admits.
proof fn lemma_file_against(file: Seq<char>, w: FilenameWildcardView)
    requires
        file_against_pattern(file, w) is Some,
    ensures
        file_against_pattern(file, w)->Some_0 == file,
        wildcard_matches(w, file),
{
}

/// A folder mapping against a file mapping.
proof fn lemma_folder_over_file(pd: RangeDepotWildcardView, pl: Seq<Seq<char>>, sd: DepotPathView, sl: LocalPathView, ex: Seq<char>)
    requires
        folder_over_file(pd, pl, sd, sl, ex) is Some,
        ex == sl.file,
        wildcard_matches(pd.wildcard, ex),
    ensures
        maps_together(
            IncludeView::Folder { depot: pd, local: pl },
            IncludeView::File { depot: sd, local: sl },
            folder_over_file(pd, pl, sd, sl, ex)->Some_0,
        ),
{
    let w = folder_over_file(pd, pl, sd, sl, ex)->Some_0;
    let lc = common_prefix_len(pl, sl.dirs);
    lemma_split_at_prefix(pl, sl.dirs);
    let ld = sl.dirs.skip(lc);
    assert(w.first == DepotPathView { dirs: pd.dirs + ld, file: ex });
    assert(w.second == DepotPathView { dirs: sd.dirs, file: sd.file });
    assert(w.local == LocalPathView { dirs: sl.dirs, file: ex });
    assert((pd.dirs + ld).take(pd.dirs.len() as int) =~= pd.dirs);
    assert((pd.dirs + ld).skip(pd.dirs.len() as int) =~= ld);
    assert(range_match(pd, w.first) == Some(ld));
    assert(include_maps(IncludeView::Folder { depot: pd, local: pl }, w.first, w.local));
    assert(include_maps(IncludeView::File { depot: sd, local: sl }, w.second, w.local));
    lemma_diverged(pd.dirs, sd.dirs, ld);
}

/// A folder mapping against a folder mapping, the misreported pair aside.
proof fn lemma_folder_over_folder(pd: RangeDepotWildcardView, pl: Seq<Seq<char>>, sd: RangeDepotWildcardView, sl: Seq<Seq<char>>, ex: Seq<char>)
    requires
        folder_over_folder(pd, pl, sd, sl, ex) is Some,
        wildcard_matches(pd.wildcard, ex),
        wildcard_matches(sd.wildcard, ex),
        !misreported_pair(IncludeView::Folder { depot: pd, local: pl }, IncludeView::Folder { depot: sd, local: sl }),
    ensures
        maps_together(
            IncludeView::Folder { depot: pd, local: pl },
            IncludeView::Folder { depot: sd, local: sl },
            folder_over_folder(pd, pl, sd, sl, ex)->Some_0,
        ),
{
    let w = folder_over_folder(pd, pl, sd, sl, ex)->Some_0;
    let p = IncludeView::Folder { depot: pd, local: pl };
    let s = IncludeView::Folder { depot: sd, local: sl };
    let lc = common_prefix_len(pl, sl);
    let dc = common_prefix_len(pd.dirs, sd.dirs);
    lemma_common_prefix(pl, sl);
    lemma_common_prefix(pd.dirs, sd.dirs);
    lemma_common_prefix_sym(pl, sl);
    lemma_common_prefix_sym(pd.dirs, sd.dirs);
    let dmin = if pd.dirs.len() < sd.dirs.len() { pd.dirs.len() } else { sd.dirs.len() };
    let own = DepotPathView { dirs: pd.dirs, file: ex };
    assert(pd.dirs.take(pd.dirs.len() as int) =~= pd.dirs);
    assert(pd.dirs.skip(pd.dirs.len() as int) =~= Seq::<Seq<char>>::empty());
    let other = DepotPathView { dirs: sd.dirs, file: ex };
    assert(sd.dirs.take(sd.dirs.len() as int) =~= sd.dirs);
    assert(sd.dirs.skip(sd.dirs.len() as int) =~= Seq::<Seq<char>>::empty());
    assert(pl + Seq::<Seq<char>>::empty() =~= pl);
    assert(sl + Seq::<Seq<char>>::empty() =~= sl);
    if pl.len() > sl.len() {
        lemma_split_at_prefix(sl, pl);
        let ld = pl.skip(lc);
        assert(w.local == LocalPathView { dirs: pl, file: ex });
        assert(range_match(pd, own) == Some(Seq::<Seq<char>>::empty()));
        assert(include_maps(p, own, w.local));
        if dc == dmin {
            assert(pd.dirs.len() > sd.dirs.len());
            lemma_split_at_prefix(sd.dirs, pd.dirs);
            let depot_diff = pd.dirs.skip(dc);
            let dd = common_prefix_len(ld, depot_diff);
            lemma_common_prefix(ld, depot_diff);
            let fd = pd.dirs.take(dc + dd) + ld.skip(dd);
            assert(w.first == DepotPathView { dirs: fd, file: ex });
            assert(w.second == own);
            assert(fd.take(sd.dirs.len() as int) =~= sd.dirs);
            assert forall|k: int| 0 <= k < ld.len() implies #[trigger] fd.skip(sd.dirs.len() as int)[k] == ld[k] by {
                if k < dd {
                    assert(fd[dc + k] == pd.dirs[dc + k]);
                    assert(depot_diff[k] == pd.dirs[dc + k]);
                } else {
                    assert(fd[dc + k] == ld.skip(dd)[k - dd]);
                }
            }
            assert(fd.skip(sd.dirs.len() as int) =~= ld);
            assert(range_match(sd, w.first) == Some(ld));
            assert(include_maps(s, w.first, w.local));
            if fd == pd.dirs {
                assert forall|k: int| 0 <= k < ld.len() implies ld[k] == depot_diff[k] by {
                    assert(fd[dc + k] == pd.dirs[dc + k]);
                    if k >= dd {
                        assert(fd[dc + k] == ld.skip(dd)[k - dd]);
                    }
                }
                assert(ld =~= depot_diff);
                lemma_common_prefix_unique(ld, depot_diff, ld.len() as int);
            }
        } else {
            lemma_diverged(sd.dirs, pd.dirs, ld);
            assert(w.first == DepotPathView { dirs: sd.dirs + ld, file: ex });
            assert(w.second == own);
            assert((sd.dirs + ld).take(sd.dirs.len() as int) =~= sd.dirs);
            assert((sd.dirs + ld).skip(sd.dirs.len() as int) =~= ld);
            assert(range_match(sd, w.first) == Some(ld));
            assert(include_maps(s, w.first, w.local));
        }
    } else if pl.len() < sl.len() {
        lemma_split_at_prefix(pl, sl);
        let ld = sl.skip(lc);
        assert(w.local == LocalPathView { dirs: sl, file: ex });
        if dc == dmin {
            if pd.dirs.len() > sd.dirs.len() {
                lemma_split_at_prefix(sd.dirs, pd.dirs);
                assert(misreported_pair(p, s));
            }
        } else {
            lemma_diverged(pd.dirs, sd.dirs, ld);
            assert(w.first == DepotPathView { dirs: pd.dirs + ld, file: ex });
            assert(w.second == other);
            assert((pd.dirs + ld).take(pd.dirs.len() as int) =~= pd.dirs);
            assert((pd.dirs + ld).skip(pd.dirs.len() as int) =~= ld);
            assert(range_match(pd, w.first) == Some(ld));
            assert(include_maps(p, w.first, w.local));
            assert(range_match(sd, other) == Some(Seq::<Seq<char>>::empty()));
            assert(include_maps(s, w.second, w.local));
        }
    } else {
        assert(pl.take(lc) =~= pl);
        assert(sl.take(lc) =~= sl);
        assert(pl == sl);
        assert(w.first == own);
        assert(w.second == other);
        assert(w.local == LocalPathView { dirs: sl, file: ex });
        assert(range_match(pd, own) == Some(Seq::<Seq<char>>::empty()));
        assert(range_match(sd, other) == Some(Seq::<Seq<char>>::empty()));
        assert(pd.dirs + Seq::<Seq<char>>::empty() =~= pd.dirs);
        lemma_diverged(pd.dirs, sd.dirs, Seq::<Seq<char>>::empty());
    }
}

/// A conflict reported between mappings `i` and `j` is a real one: it names
/// two different depot files that the two mappings send onto the one local
/// file it names.  The misreported pair of folder mappings is left out.
pub proof fn lemma_reported_conflict_is_real(c: WorkspaceConfigView, i: int, j: int)
    requires
        pair_conflict(c, i, j) is Some,
        !(race_pair(c, i, j) matches Some((p, s)) && misreported_pair(p, s)),
    ensures
        race_pair(c, i, j) matches Some((p, s)) && maps_together(p, s, pair_conflict(c, i, j)->Some_0),
{
    let (p, s) = race_pair(c, i, j)->Some_0;
    let ex = conflict_file(c, i, j)->Some_0;
    match (p, s) {
        (IncludeView::File { depot: pd, local: pl }, IncludeView::File { depot: sd, local: sl }) => {},
        (IncludeView::File { depot: pd, local: pl }, IncludeView::Folder { depot: sd, local: sl }) => {
            lemma_file_against(pl.file, sd.wildcard);
            lemma_file_over_folder(pd, pl, sd, sl, ex);
        },
        (IncludeView::Folder { depot: pd, local: pl }, IncludeView::File { depot: sd, local: sl }) => {
            lemma_file_against(sl.file, pd.wildcard);
            lemma_folder_over_file(pd, pl, sd, sl, ex);
        },
        (IncludeView::Folder { depot: pd, local: pl }, IncludeView::Folder { depot: sd, local: sl }) => {
            lemma_shared_file(pd.wildcard, sd.wildcard);
            lemma_folder_over_folder(pd, pl, sd, sl, ex);
        },
    }
}

/// A name that ends with both `x` and `y` shows that one of them ends the
/// other.
proof fn lemma_common_suffix(n: Seq<char>, x: Seq<char>, y: Seq<char>)
    requires
        ends_with(n, x),
        ends_with(n, y),
    ensures
        ends_with(x, y) || ends_with(y, x),
{
    if y.len() <= x.len() {
        assert forall|q: int| 0 <= q < y.len() implies x[x.len() - y.len() + q] == y[q] by {
            assert(n.subrange(n.len() - y.len(), n.len() as int)[q] == y[q]);
            assert(n.subrange(n.len() - x.len(), n.len() as int)[x.len() - y.len() + q] == x[x.len() - y.len() + q]);
        }
        assert(x.subrange(x.len() - y.len(), x.len() as int) =~= y);
    } else {
        assert forall|q: int| 0 <= q < x.len() implies y[y.len() - x.len() + q] == x[q] by {
            assert(n.subrange(n.len() - x.len(), n.len() as int)[q] == x[q]);
            assert(n.subrange(n.len() - y.len(), n.len() as int)[y.len() - x.len() + q] == y[y.len() - x.len() + q]);
        }
        assert(y.subrange(y.len() - x.len(), y.len() as int) =~= x);
    }
}

/// Two folder patterns that one name meets share a name.
proof fn lemma_patterns_share(a: FilenameWildcardView, b: FilenameWildcardView, n: Seq<char>)
    requires
        wildcard_matches(a, n),
        wildcard_matches(b, n),
    ensures
        patterns_shared_file(a, b) is Some,
{
    match (a, b) {
        (FilenameWildcardView::Extension(x), FilenameWildcardView::Extension(y)) => {
            lemma_common_suffix(n, x, y);
        },
        _ => {},
    }
}

/// Two prefixes of one list: the common prefix of the two is the shorter.
proof fn lemma_prefixes_of_one(x: Seq<Seq<char>>, y: Seq<Seq<char>>, whole: Seq<Seq<char>>)
    requires
        is_prefix_of(x, whole),
        is_prefix_of(y, whole),
    ensures
        common_prefix_len(x, y) == (if x.len() < y.len() { x.len() as int } else { y.len() as int }),
        forall|q: int| 0 <= q < x.len() ==> x[q] == whole[q],
        forall|q: int| 0 <= q < y.len() ==> y[q] == whole[q],
{
    assert forall|q: int| 0 <= q < x.len() implies x[q] == whole[q] by {
        assert(whole.take(x.len() as int)[q] == whole[q]);
    }
    assert forall|q: int| 0 <= q < y.len() implies y[q] == whole[q] by {
        assert(whole.take(y.len() as int)[q] == whole[q]);
    }
    let n = if x.len() < y.len() { x.len() as int } else { y.len() as int };
    lemma_common_prefix_unique(x, y, n);
}

/// Two folder mappings in conflict are reported: when the later one
/// (recursive) sends some depot file to a local file that the earlier one
/// sends another depot file to, a file the later one does not take over,
/// the check of the pair finds a conflict.  The later mapping being
/// recursive matters: a non-recursive later mapping whose depot folder
/// holds the earlier one's is not reported.
pub proof fn lemma_folder_conflict_reported(
    c: WorkspaceConfigView,
    i: int,
    j: int,
    pd: RangeDepotWildcardView,
    pl: Seq<Seq<char>>,
    sd: RangeDepotWildcardView,
    sl: Seq<Seq<char>>,
    d1: DepotPathView,
    d2: DepotPathView,
    f: LocalPathView,
)
    requires
        race_pair(c, i, j) == Some((IncludeView::Folder { depot: pd, local: pl }, IncludeView::Folder { depot: sd, local: sl })),
        pd.recursive,
        include_maps(IncludeView::Folder { depot: pd, local: pl }, d1, f),
        include_maps(IncludeView::Folder { depot: sd, local: sl }, d2, f),
        range_match(pd, d2) is None,
    ensures
        pair_conflict(c, i, j) is Some,
{
    lemma_patterns_share(pd.wildcard, sd.wildcard, f.file);
    let ex = patterns_shared_file(pd.wildcard, sd.wildcard)->Some_0;
    assert(conflict_file(c, i, j) == Some(ex));
    let big = f.dirs;
    let diff1 = range_match(pd, d1)->Some_0;
    let diff2 = range_match(sd, d2)->Some_0;
    assert(big == pl + diff1);
    assert(big == sl + diff2);
    assert(big.take(pl.len() as int) =~= pl);
    assert(big.take(sl.len() as int) =~= sl);
    lemma_prefixes_of_one(pl, sl, big);
    let dc = common_prefix_len(pd.dirs, sd.dirs);
    lemma_common_prefix(pd.dirs, sd.dirs);
    lemma_common_prefix_sym(pd.dirs, sd.dirs);
    assert(d2.dirs.take(sd.dirs.len() as int) == sd.dirs);
    assert(d2.dirs == sd.dirs + d2.dirs.skip(sd.dirs.len() as int)) by {
        assert(d2.dirs =~= d2.dirs.take(sd.dirs.len() as int) + d2.dirs.skip(sd.dirs.len() as int));
    }
    assert(d2.dirs.skip(sd.dirs.len() as int) == diff2);
    let dmin = if pd.dirs.len() < sd.dirs.len() { pd.dirs.len() } else { sd.dirs.len() };
    // The later folder never holds the earlier one: it would take `d2` over.
    if dc == dmin && pd.dirs.len() <= sd.dirs.len() {
        assert forall|q: int| 0 <= q < pd.dirs.len() implies d2.dirs[q] == pd.dirs[q] by {
            assert(pd.dirs.take(dc)[q] == sd.dirs.take(dc)[q]);
        }
        assert(d2.dirs.take(pd.dirs.len() as int) =~= pd.dirs);
        assert(range_match(pd, d2) is Some);
    }
    if pl.len() > sl.len() {
        // `s` reaches below its folder, so it is recursive.
        assert(diff2.len() > 0);
        assert(sd.recursive);
        if dc == dmin && pd.dirs.len() > sd.dirs.len() {
            let ld = pl.skip(sl.len() as int);
            let depot_diff = pd.dirs.skip(dc);
            let dd = common_prefix_len(ld, depot_diff);
            lemma_common_prefix(ld, depot_diff);
            if depot_diff.len() <= ld.len() && dd == depot_diff.len() {
                assert forall|q: int| 0 <= q < pd.dirs.len() implies d2.dirs[q] == pd.dirs[q] by {
                    if q < sd.dirs.len() {
                        assert(pd.dirs.take(dc)[q] == sd.dirs.take(dc)[q]);
                    } else {
                        let r = q - sd.dirs.len();
                        assert(depot_diff[r] == pd.dirs[q]);
                        assert(ld[r] == depot_diff[r]);
                        assert(ld[r] == pl[sl.len() + r]);
                        assert(pl[sl.len() + r] == big[sl.len() + r]);
                        assert(big[sl.len() + r] == diff2[r]);
                        assert(d2.dirs[q] == diff2[r]);
                    }
                }
                assert(d2.dirs.take(pd.dirs.len() as int) =~= pd.dirs);
                assert(range_match(pd, d2) is Some);
            }
        }
    }
}

/// Two file mappings sending different depot files to one local file are
/// reported.
pub proof fn lemma_file_file_conflict_reported(
    c: WorkspaceConfigView,
    i: int,
    j: int,
    pd: DepotPathView,
    pl: LocalPathView,
    sd: DepotPathView,
    sl: LocalPathView,
    d1: DepotPathView,
    d2: DepotPathView,
    f: LocalPathView,
)
    requires
        race_pair(c, i, j) == Some((IncludeView::File { depot: pd, local: pl }, IncludeView::File { depot: sd, local: sl })),
        include_maps(IncludeView::File { depot: pd, local: pl }, d1, f),
        include_maps(IncludeView::File { depot: sd, local: sl }, d2, f),
        d1 != d2,
    ensures
        pair_conflict(c, i, j) is Some,
{
}

/// A later file mapping and an earlier folder mapping that send different
/// depot files to one local file are reported.
pub proof fn lemma_file_folder_conflict_reported(
    c: WorkspaceConfigView,
    i: int,
    j: int,
    pd: DepotPathView,
    pl: LocalPathView,
    sd: RangeDepotWildcardView,
    sl: Seq<Seq<char>>,
    d1: DepotPathView,
    d2: DepotPathView,
    f: LocalPathView,
)
    requires
        race_pair(c, i, j) == Some((IncludeView::File { depot: pd, local: pl }, IncludeView::Folder { depot: sd, local: sl })),
        include_maps(IncludeView::File { depot: pd, local: pl }, d1, f),
        include_maps(IncludeView::Folder { depot: sd, local: sl }, d2, f),
        d1 != d2,
    ensures
        pair_conflict(c, i, j) is Some,
{
    let ex = pl.file;
    assert(conflict_file(c, i, j) == Some(ex));
    let diff2 = range_match(sd, d2)->Some_0;
    assert(pl.dirs == sl + diff2);
    assert forall|q: int| 0 <= q < sl.len() implies pl.dirs[q] == sl[q] by {}
    lemma_common_prefix_unique(pl.dirs, sl, sl.len() as int);
    assert(pl.dirs.skip(sl.len() as int) =~= diff2);
    assert(d2.dirs.take(sd.dirs.len() as int) == sd.dirs);
    assert(d2.dirs =~= sd.dirs + diff2) by {
        assert(d2.dirs =~= d2.dirs.take(sd.dirs.len() as int) + d2.dirs.skip(sd.dirs.len() as int));
    }
    let dc = common_prefix_len(pd.dirs, sd.dirs);
    lemma_common_prefix(pd.dirs, sd.dirs);
    lemma_common_prefix_sym(pd.dirs, sd.dirs);
    if dc == sd.dirs.len() {
        lemma_split_at_prefix(sd.dirs, pd.dirs);
        let depot_diff = pd.dirs.skip(dc);
        if diff2 == depot_diff && pl.file == pd.file {
            assert(d2.dirs =~= pd.dirs);
            assert(d2 == pd);
        }
    }
}

/// A later folder mapping (recursive) and an earlier file mapping that keeps
/// its file's name, sending different depot files to one local file, the
/// file mapping's depot file not taken over by the folder, are reported.
pub proof fn lemma_folder_file_conflict_reported(
    c: WorkspaceConfigView,
    i: int,
    j: int,
    pd: RangeDepotWildcardView,
    pl: Seq<Seq<char>>,
    sd: DepotPathView,
    sl: LocalPathView,
    d1: DepotPathView,
    d2: DepotPathView,
    f: LocalPathView,
)
    requires
        race_pair(c, i, j) == Some((IncludeView::Folder { depot: pd, local: pl }, IncludeView::File { depot: sd, local: sl })),
        pd.recursive,
        sd.file == sl.file,
        include_maps(IncludeView::Folder { depot: pd, local: pl }, d1, f),
        include_maps(IncludeView::File { depot: sd, local: sl }, d2, f),
        range_match(pd, d2) is None,
    ensures
        pair_conflict(c, i, j) is Some,
{
    let ex = sl.file;
    assert(conflict_file(c, i, j) == Some(ex));
    let diff1 = range_match(pd, d1)->Some_0;
    assert(sl.dirs == pl + diff1);
    assert forall|q: int| 0 <= q < pl.len() implies sl.dirs[q] == pl[q] by {}
    lemma_common_prefix_unique(pl, sl.dirs, pl.len() as int);
    let dc = common_prefix_len(pd.dirs, sd.dirs);
    if dc == pd.dirs.len() {
        lemma_split_at_prefix(pd.dirs, sd.dirs);
        assert(range_match(pd, sd) is Some);
    }
}

} // verus!
