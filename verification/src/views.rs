//! Derived read-only views over a scan result.
//!
//! "Largest N files" filters a scan's entries down to plain files, orders
//! them by descending size and keeps the first N.  It is a pure projection of
//! the entry sequence, recomputed on demand, never stored.

use vstd::prelude::*;

use crate::scanner::FileEntry;
use crate::sorting::sort_desc;
use crate::sorting::sort_entries_desc;
use crate::sorting::sorted_desc;

verus! {

/// The predicate that keeps plain files and drops directories.
pub open spec fn non_dir() -> spec_fn(FileEntry) -> bool {
    |e: FileEntry| !e.is_dir
}

/// The largest-N view: the non-directory entries of `s`, in stable
/// descending size order, cut off after `n`.
pub open spec fn largest_files_spec(s: Seq<FileEntry>, n: int) -> Seq<FileEntry> {
    let sorted = sort_desc(s.filter(non_dir()));
    sorted.take(if n <= sorted.len() { n } else { sorted.len() as int })
}

/// The `n` largest plain files of a scan, sorted by descending size;
/// directories are excluded regardless of their aggregate size.  Returns all
/// files when fewer than `n` exist.
pub fn largest_files(entries: &Vec<FileEntry>, n: usize) -> (r: Vec<FileEntry>)
    ensures
        r@ == largest_files_spec(entries@, n as int),
        sorted_desc(r@),
        r@.len() <= n,
        forall|i: int| 0 <= i < r@.len() ==> !r@[i].is_dir,
{
    let m = entries.len();
    let mut files: Vec<FileEntry> = Vec::new();
    let mut i: usize = 0;
    while i < m
        invariant
            i <= m,
            m == entries@.len(),
            files@ == entries@.take(i as int).filter(non_dir()),
        decreases m - i,
    {
        if !entries[i].is_dir {
            files.push(entries[i].clone());
        }
        proof {
            assert(entries@.take(i + 1) =~= entries@.take(i as int).push(entries@[i as int]));
            entries@.take(i as int).lemma_filter_push(entries@[i as int], non_dir());
        }
        i = i + 1;
    }
    proof {
        assert(entries@.take(m as int) =~= entries@);
    }
    let mut r = sort_entries_desc(&files);
    r.truncate(n);
    proof {
        broadcast use vstd::seq_lib::group_filter_ensures;
        broadcast use vstd::seq_lib::group_to_multiset_ensures;

        let files_s = entries@.filter(non_dir());
        let sorted = sort_desc(files_s);
        crate::sorting::lemma_sort_desc_props(files_s);
        if n <= sorted.len() {
            assert(r@ =~= sorted.take(n as int));
        } else {
            assert(r@ =~= sorted.take(sorted.len() as int));
        }
        assert(forall|i: int| 0 <= i < r@.len() ==> sorted[i] == r@[i]);
        assert forall|i: int| 0 <= i < r@.len() implies !r@[i].is_dir by {
            assert(sorted.contains(sorted[i]));
            assert(sorted.to_multiset().contains(sorted[i]));
            assert(files_s.to_multiset().contains(sorted[i]));
            assert(files_s.contains(sorted[i]));
            let k = choose|k: int| 0 <= k < files_s.len() && files_s[k] == sorted[i];
            assert(non_dir()(files_s[k]));
        }
    }
    r
}

} // verus!
