//! Directory scanning: entry records, progress counters, and the aggregation
//! pass that turns a directory's stat'ed children into a scan result.
//!
//! Enumerating and stat'ing the filesystem is I/O and happens outside the
//! library; the caller hands over one `FileEntry` per immediate child, with
//! the size of a directory child already resolved to the recursive sum of its
//! descendant file lengths (`get_dir_size` does that summation from the
//! collected lengths).

use vstd::prelude::*;

verus! {

/// One filesystem object at the scanned level, with its resolved size.
///
/// For a plain file `size` is its byte length; for a directory it is the
/// recursive sum of the byte lengths of every file beneath it.  Timestamps
/// are seconds since the epoch, best-effort (callers fall back to the current
/// time when the filesystem does not report them).
#[derive(Debug)]
pub struct FileEntry {
    pub path: String,
    pub size: u64,
    pub created: u64,
    pub modified: u64,
    pub is_dir: bool,
}

impl Clone for FileEntry {
    fn clone(&self) -> (res: Self)
        ensures
            res == *self,
    {
        FileEntry {
            path: self.path.clone(),
            size: self.size,
            created: self.created,
            modified: self.modified,
            is_dir: self.is_dir,
        }
    }
}

/// Counters describing one scan invocation.
///
/// `total_files` counts the immediate children discovered at the scanned
/// level, `scanned_files` how many of them have been fully processed, and
/// `total_size` the running sum of processed entry sizes.
#[derive(Debug)]
pub struct ScanProgress {
    pub total_files: usize,
    pub scanned_files: usize,
    pub current_path: Option<String>,
    pub total_size: u64,
}

impl ScanProgress {
    /// Invariant of a progress value: never more children processed than
    /// were discovered.
    pub open spec fn wf(self) -> bool {
        self.scanned_files <= self.total_files
    }
}

impl Clone for ScanProgress {
    fn clone(&self) -> (res: Self)
        ensures
            res == *self,
    {
        ScanProgress {
            total_files: self.total_files,
            scanned_files: self.scanned_files,
            current_path: match &self.current_path {
                Some(p) => Some(p.clone()),
                None => None,
            },
            total_size: self.total_size,
        }
    }
}

impl Default for ScanProgress {
    fn default() -> (r: Self)
        ensures
            r.total_files == 0,
            r.scanned_files == 0,
            r.current_path is None,
            r.total_size == 0,
            r.wf(),
    {
        ScanProgress { total_files: 0, scanned_files: 0, current_path: None, total_size: 0 }
    }
}

/// Sum of the `size` fields of a sequence of entries.
pub open spec fn sum_sizes(s: Seq<FileEntry>) -> int
    decreases s.len(),
{
    if s.len() == 0 {
        0
    } else {
        sum_sizes(s.drop_last()) + s.last().size
    }
}

/// Sum of a sequence of byte lengths.
pub open spec fn sum_lengths(s: Seq<u64>) -> int
    decreases s.len(),
{
    if s.len() == 0 {
        0
    } else {
        sum_lengths(s.drop_last()) + s.last()
    }
}

/// A prefix sum grows by exactly the next element.
pub proof fn lemma_sum_lengths_take_succ(s: Seq<u64>, i: int)
    requires
        0 <= i < s.len(),
    ensures
        sum_lengths(s.take(i + 1)) == sum_lengths(s.take(i)) + s[i],
{
    assert(s.take(i + 1).drop_last() =~= s.take(i));
    assert(s.take(i + 1).last() == s[i]);
}

/// Every prefix sum is bounded by the full sum.
pub proof fn lemma_sum_lengths_take_le(s: Seq<u64>, i: int)
    requires
        0 <= i <= s.len(),
    ensures
        sum_lengths(s.take(i)) <= sum_lengths(s),
    decreases s.len(),
{
    if i == s.len() {
        assert(s.take(i) =~= s);
    } else {
        assert(s.take(i) =~= s.drop_last().take(i));
        lemma_sum_lengths_take_le(s.drop_last(), i);
    }
}

/// A prefix sum of entry sizes grows by exactly the next entry's size.
pub proof fn lemma_sum_sizes_take_succ(s: Seq<FileEntry>, i: int)
    requires
        0 <= i < s.len(),
    ensures
        sum_sizes(s.take(i + 1)) == sum_sizes(s.take(i)) + s[i].size,
{
    assert(s.take(i + 1).drop_last() =~= s.take(i));
    assert(s.take(i + 1).last() == s[i]);
}

/// Every prefix sum of entry sizes is bounded by the full sum.
pub proof fn lemma_sum_sizes_take_le(s: Seq<FileEntry>, i: int)
    requires
        0 <= i <= s.len(),
    ensures
        sum_sizes(s.take(i)) <= sum_sizes(s),
    decreases s.len(),
{
    if i == s.len() {
        assert(s.take(i) =~= s);
    } else {
        assert(s.take(i) =~= s.drop_last().take(i));
        lemma_sum_sizes_take_le(s.drop_last(), i);
    }
}

/// A sum of entry sizes splits at any index.
pub proof fn lemma_sum_sizes_split(s: Seq<FileEntry>, i: int)
    requires
        0 <= i <= s.len(),
    ensures
        sum_sizes(s) == sum_sizes(s.take(i)) + sum_sizes(s.skip(i)),
    decreases s.len(),
{
    if i == s.len() {
        assert(s.take(i) =~= s);
        assert(s.skip(i) =~= Seq::<FileEntry>::empty());
    } else {
        let dl = s.drop_last();
        lemma_sum_sizes_split(dl, i);
        assert(s.take(i) =~= dl.take(i));
        assert(s.skip(i).drop_last() =~= dl.skip(i));
        assert(s.skip(i).last() == s.last());
        assert(s.skip(i).len() > 0);
        assert(sum_sizes(s.skip(i)) == sum_sizes(s.skip(i).drop_last()) + s.skip(i).last().size);
    }
}

/// A sum of entry sizes is never negative.
pub proof fn lemma_sum_sizes_nonneg(s: Seq<FileEntry>)
    ensures
        sum_sizes(s) >= 0,
    decreases s.len(),
{
    if s.len() > 0 {
        lemma_sum_sizes_nonneg(s.drop_last());
    }
}

/// The size of a directory: the sum of the byte lengths of every file nested
/// anywhere beneath it, as collected by the caller's recursive walk.
/// Directory entries themselves contribute zero extra bytes, so they simply
/// do not appear in `file_lengths`.
pub fn get_dir_size(file_lengths: &Vec<u64>) -> (total: u64)
    requires
        sum_lengths(file_lengths@) <= u64::MAX,
    ensures
        total == sum_lengths(file_lengths@),
{
    let n = file_lengths.len();
    let mut total: u64 = 0;
    let mut i: usize = 0;
    while i < n
        invariant
            n == file_lengths@.len(),
            i <= n,
            sum_lengths(file_lengths@) <= u64::MAX,
            total == sum_lengths(file_lengths@.take(i as int)),
        decreases n - i,
    {
        proof {
            lemma_sum_lengths_take_succ(file_lengths@, i as int);
            lemma_sum_lengths_take_le(file_lengths@, i as int + 1);
        }
        total = total + file_lengths[i];
        i = i + 1;
    }
    proof {
        assert(file_lengths@.take(n as int) =~= file_lengths@);
    }
    total
}

/// One scan pass over a directory's immediate children.
///
/// The caller enumerates and stats the children (dropping any child it could
/// not stat) and hands them over; this pass produces the result sequence and
/// fills the progress counters: every child discovered, every child
/// processed, and the total size accumulated.  The returned entries are the
/// children unchanged, in listing order.
pub fn scan_directory(children: Vec<FileEntry>, progress: &mut ScanProgress) -> (entries: Vec<
    FileEntry,
>)
    requires
        sum_sizes(children@) <= u64::MAX,
    ensures
        entries == children,
        final(progress).total_files == children@.len(),
        final(progress).scanned_files == children@.len(),
        final(progress).total_size == sum_sizes(children@),
        final(progress).wf(),
        children@.len() > 0 ==> (final(progress).current_path matches Some(p)
            && p == children@.last().path),
        children@.len() == 0 ==> final(progress).current_path is None,
{
    let n = children.len();
    progress.total_files = n;
    progress.scanned_files = 0;
    progress.total_size = 0;
    progress.current_path = None;
    let mut i: usize = 0;
    while i < n
        invariant
            n == children@.len(),
            i <= n,
            sum_sizes(children@) <= u64::MAX,
            progress.total_files == n,
            progress.scanned_files == i,
            progress.total_size == sum_sizes(children@.take(i as int)),
            i > 0 ==> (progress.current_path matches Some(p) && p == children@[i - 1].path),
            i == 0 ==> progress.current_path is None,
        decreases n - i,
    {
        progress.current_path = Some(children[i].path.clone());
        progress.scanned_files = progress.scanned_files + 1;
        proof {
            lemma_sum_sizes_take_succ(children@, i as int);
            lemma_sum_sizes_take_le(children@, i as int + 1);
            lemma_sum_sizes_nonneg(children@.take(i as int));
        }
        progress.total_size = progress.total_size + children[i].size;
        i = i + 1;
    }
    proof {
        assert(children@.take(n as int) =~= children@);
    }
    children
}

} // verus!
