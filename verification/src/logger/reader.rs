//! Reading back log files: which files belong to a log.
use vstd::prelude::*;
use std::path::PathBuf;
use crate::text::{contains_text, insert_sorted_text, strictly_sorted, text_contains, texts};

verus! {

/// A reader over the files of a log, in name order.
#[derive(Debug)]
pub struct LogReader {
    files: Vec<PathBuf>,
}

impl LogReader {
    /// The files read, in order.
    pub closed spec fn files_view(&self) -> Seq<PathBuf> {
        self.files@
    }

    /// A reader over these files, in this order.
    pub fn from_files(files: Vec<PathBuf>) -> (r: Self)
        ensures
            r.files_view() == files@,
    {
        LogReader { files }
    }

    /// The files read, in order.
    pub fn list_files(&self) -> (r: &[PathBuf])
        ensures
            r@ == self.files_view(),
    {
        self.files.as_slice()
    }

    /// Whether a file belongs to the log: its name holds the pattern.
    pub fn matches_pattern(file_name: &str, pattern: &str) -> (r: bool)
        ensures
            r == text_contains(file_name@, pattern@),
    {
        contains_text(file_name, pattern)
    }
}

/// The names of `names` that hold `pattern`.
pub open spec fn names_holding(names: Seq<Seq<char>>, pattern: Seq<char>) -> Set<Seq<char>> {
    Set::new(|t: Seq<char>| names.contains(t) && text_contains(t, pattern))
}

/// The file names of a log directory that belong to the log (their name
/// holds `pattern`), each once, in increasing order.
pub fn select_log_names(names: &Vec<String>, pattern: &str) -> (r: Vec<String>)
    ensures
        strictly_sorted(texts(r@)),
        texts(r@).to_set() == names_holding(texts(names@), pattern@),
{
    let ghost all = texts(names@);
    let mut out: Vec<String> = Vec::new();
    let mut i: usize = 0;
    assert(texts(out@).to_set() =~= names_holding(all.take(0), pattern@));
    while i < names.len()
        invariant
            i <= names@.len(),
            all == texts(names@),
            strictly_sorted(texts(out@)),
            texts(out@).to_set() == names_holding(all.take(i as int), pattern@),
        decreases names@.len() - i,
    {
        let ghost before = texts(out@).to_set();
        let holds = contains_text(names[i].as_str(), pattern);
        if holds {
            insert_sorted_text(&mut out, &names[i]);
        }
        proof {
            let a = all.take(i as int);
            let a2 = all.take(i + 1);
            assert forall|t: Seq<char>| a2.contains(t) <==> (a.contains(t) || t == all[i as int]) by {
                if a2.contains(t) && t != all[i as int] {
                    let j = choose|j: int| 0 <= j < a2.len() && a2[j] == t;
                    assert(a[j] == t);
                }
                if a.contains(t) {
                    let j = choose|j: int| 0 <= j < a.len() && a[j] == t;
                    assert(a2[j] == t);
                }
                if t == all[i as int] {
                    assert(a2[i as int] == t);
                }
            }
            assert(all[i as int] == names@[i as int]@);
            assert(texts(out@).to_set() =~= names_holding(a2, pattern@));
        }
        i = i + 1;
    }
    assert(all.take(names@.len() as int) =~= all);
    out
}

} // verus!
