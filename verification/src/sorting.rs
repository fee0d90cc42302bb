//! Ordering entries by descending size.
//!
//! The layout engine and the "largest files" view both need the entries in
//! descending size order, with ties broken by original order (a stable sort).
//! `sort_desc` is the mathematical statement of that ordering; the insertion
//! sort here is proved to return exactly it.

use vstd::prelude::*;

use crate::scanner::FileEntry;
use crate::scanner::sum_sizes;

verus! {

/// Where `e` lands when inserted into `s`: after every entry at least as
/// large, before the first strictly smaller one.  Inserting each element of
/// a sequence in turn therefore keeps the original order among entries of
/// equal size.
pub open spec fn insert_desc(s: Seq<FileEntry>, e: FileEntry) -> Seq<FileEntry>
    decreases s.len(),
{
    if s.len() == 0 {
        seq![e]
    } else if s[0].size >= e.size {
        seq![s[0]] + insert_desc(s.skip(1), e)
    } else {
        seq![e] + s
    }
}

/// The stable descending sort of `s` by entry size: each element inserted in
/// turn, later elements landing after earlier ones of equal size.
pub open spec fn sort_desc(s: Seq<FileEntry>) -> Seq<FileEntry>
    decreases s.len(),
{
    if s.len() == 0 {
        Seq::<FileEntry>::empty()
    } else {
        insert_desc(sort_desc(s.drop_last()), s.last())
    }
}

/// Sizes never increase along the sequence.
pub open spec fn sorted_desc(s: Seq<FileEntry>) -> bool {
    forall|i: int, j: int| 0 <= i <= j < s.len() ==> s[i].size >= s[j].size
}

pub proof fn lemma_insert_desc_len(s: Seq<FileEntry>, e: FileEntry)
    ensures
        insert_desc(s, e).len() == s.len() + 1,
    decreases s.len(),
{
    if s.len() > 0 && s[0].size >= e.size {
        lemma_insert_desc_len(s.skip(1), e);
    }
}

/// Inserting into a descending sequence keeps it descending.
pub proof fn lemma_insert_desc_sorted(s: Seq<FileEntry>, e: FileEntry)
    requires
        sorted_desc(s),
    ensures
        sorted_desc(insert_desc(s, e)),
    decreases s.len(),
{
    lemma_insert_desc_len(s, e);
    if s.len() == 0 {
    } else if s[0].size >= e.size {
        assert(sorted_desc(s.skip(1)));
        lemma_insert_desc_sorted(s.skip(1), e);
        lemma_insert_desc_len(s.skip(1), e);
        lemma_insert_desc_first(s.skip(1), e);
        let t = insert_desc(s, e);
        assert forall|i: int, j: int| 0 <= i <= j < t.len() implies t[i].size >= t[j].size by {
            if i > 0 {
                assert(t[i] == insert_desc(s.skip(1), e)[i - 1]);
                assert(t[j] == insert_desc(s.skip(1), e)[j - 1]);
            } else if j > 0 {
                assert(t[j] == insert_desc(s.skip(1), e)[j - 1]);
            }
        }
    }
}

/// The head of an insertion result is either the inserted entry or the old
/// head, and every element of the result is an element of `s` or `e`.
pub proof fn lemma_insert_desc_first(s: Seq<FileEntry>, e: FileEntry)
    ensures
        insert_desc(s, e).len() == s.len() + 1,
        forall|i: int|
            0 <= i < insert_desc(s, e).len() ==> insert_desc(s, e)[i] == e || exists|k: int|
                0 <= k < s.len() && insert_desc(s, e)[i] == s[k]
                    && insert_desc(s, e)[i].size == s[k].size,
    decreases s.len(),
{
    lemma_insert_desc_len(s, e);
    if s.len() > 0 && s[0].size >= e.size {
        lemma_insert_desc_first(s.skip(1), e);
        let t = insert_desc(s, e);
        let u = insert_desc(s.skip(1), e);
        assert forall|i: int|
            0 <= i < t.len() implies t[i] == e || exists|k: int|
            0 <= k < s.len() && t[i] == s[k] && t[i].size == s[k].size by {
            if i == 0 {
                assert(t[0] == s[0]);
            } else {
                assert(t[i] == u[i - 1]);
                if u[i - 1] == e {
                } else {
                    let k = choose|k: int|
                        0 <= k < s.skip(1).len() && u[i - 1] == s.skip(1)[k]
                            && u[i - 1].size == s.skip(1)[k].size;
                    assert(t[i] == s[k + 1]);
                }
            }
        }
    }
}

/// Insertion adds exactly the inserted entry to the contents.
pub proof fn lemma_insert_desc_multiset(s: Seq<FileEntry>, e: FileEntry)
    ensures
        insert_desc(s, e).to_multiset() == s.to_multiset().insert(e),
    decreases s.len(),
{
    broadcast use vstd::seq_lib::group_to_multiset_ensures;
    broadcast use vstd::multiset::group_multiset_axioms;

    if s.len() == 0 {
        assert(seq![e] =~= Seq::<FileEntry>::empty().push(e));
    } else if s[0].size >= e.size {
        lemma_insert_desc_multiset(s.skip(1), e);
        assert(insert_desc(s, e) =~= insert_desc(s.skip(1), e).insert(0, s[0]));
        assert(s =~= s.skip(1).insert(0, s[0]));
        assert(insert_desc(s, e).to_multiset() =~= s.to_multiset().insert(e));
    } else {
        assert(seq![e] + s =~= s.insert(0, e));
    }
}

/// Insertion adds exactly the inserted entry's size to the sum.
pub proof fn lemma_insert_desc_sum(s: Seq<FileEntry>, e: FileEntry)
    ensures
        sum_sizes(insert_desc(s, e)) == sum_sizes(s) + e.size,
    decreases s.len(),
{
    if s.len() == 0 {
        assert(insert_desc(s, e) == seq![e]);
        assert(seq![e].drop_last() =~= Seq::<FileEntry>::empty());
        assert(seq![e].last() == e);
        assert(sum_sizes(seq![e]) == sum_sizes(seq![e].drop_last()) + e.size);
        assert(sum_sizes(Seq::<FileEntry>::empty()) == 0);
    } else if s[0].size >= e.size {
        let u = insert_desc(s.skip(1), e);
        assert(insert_desc(s, e) == seq![s[0]] + u);
        lemma_insert_desc_sum(s.skip(1), e);
        lemma_sum_sizes_cons(s[0], u);
        lemma_sum_sizes_cons(s[0], s.skip(1));
        assert(seq![s[0]] + s.skip(1) =~= s);
        assert(sum_sizes(seq![s[0]] + u) == s[0].size + sum_sizes(u));
        assert(sum_sizes(u) == sum_sizes(s.skip(1)) + e.size);
        assert(sum_sizes(s) == s[0].size + sum_sizes(s.skip(1)));
    } else {
        assert(insert_desc(s, e) == seq![e] + s);
        lemma_sum_sizes_cons(e, s);
    }
}

/// Prepending one entry adds its size to the sum.
pub proof fn lemma_sum_sizes_cons(x: FileEntry, s: Seq<FileEntry>)
    ensures
        sum_sizes(seq![x] + s) == x.size + sum_sizes(s),
    decreases s.len(),
{
    if s.len() == 0 {
        assert(seq![x] + s =~= seq![x]);
        assert(seq![x].drop_last() =~= Seq::<FileEntry>::empty());
        assert(seq![x].last() == x);
        assert(sum_sizes(seq![x]) == sum_sizes(seq![x].drop_last()) + x.size);
    } else {
        let t = seq![x] + s;
        assert(t.len() == s.len() + 1);
        assert(t.drop_last() =~= seq![x] + s.drop_last());
        assert(t.last() == s.last());
        lemma_sum_sizes_cons(x, s.drop_last());
        assert(sum_sizes(t) == sum_sizes(t.drop_last()) + t.last().size);
        assert(sum_sizes(t.drop_last()) == x.size + sum_sizes(s.drop_last()));
        assert(sum_sizes(s) == sum_sizes(s.drop_last()) + s.last().size);
    }
}

/// The sort is a permutation: same length, same contents, same total size,
/// and descending.
pub proof fn lemma_sort_desc_props(s: Seq<FileEntry>)
    ensures
        sort_desc(s).len() == s.len(),
        sort_desc(s).to_multiset() == s.to_multiset(),
        sum_sizes(sort_desc(s)) == sum_sizes(s),
        sorted_desc(sort_desc(s)),
    decreases s.len(),
{
    broadcast use vstd::seq_lib::group_to_multiset_ensures;

    if s.len() == 0 {
    } else {
        lemma_sort_desc_props(s.drop_last());
        lemma_insert_desc_len(sort_desc(s.drop_last()), s.last());
        lemma_insert_desc_sorted(sort_desc(s.drop_last()), s.last());
        lemma_insert_desc_multiset(sort_desc(s.drop_last()), s.last());
        lemma_insert_desc_sum(sort_desc(s.drop_last()), s.last());
        assert(s =~= s.drop_last().push(s.last()));
        assert(s.to_multiset() =~= s.drop_last().push(s.last()).to_multiset());
    }
}

/// Inserting at the first position whose entry is strictly smaller is what
/// `insert_desc` describes.
proof fn lemma_insert_desc_at(s: Seq<FileEntry>, e: FileEntry, j: int)
    requires
        0 <= j <= s.len(),
        forall|k: int| 0 <= k < j ==> s[k].size >= e.size,
        j == s.len() || s[j].size < e.size,
    ensures
        insert_desc(s, e) == s.take(j) + seq![e] + s.skip(j),
    decreases j,
{
    if j == 0 {
        if s.len() == 0 {
            assert(insert_desc(s, e) =~= s.take(0) + seq![e] + s.skip(0));
        } else {
            assert(s[0].size < e.size);
            assert(insert_desc(s, e) =~= s.take(0) + seq![e] + s.skip(0));
        }
    } else {
        assert(s[0].size >= e.size);
        lemma_insert_desc_at(s.skip(1), e, j - 1);
        assert(seq![s[0]] + (s.skip(1).take(j - 1) + seq![e] + s.skip(1).skip(j - 1)) =~= s.take(j)
            + seq![e] + s.skip(j));
    }
}

/// Insert one entry into a vector kept in descending size order, after all
/// entries of at least its size.
fn insert_entry_desc(v: &mut Vec<FileEntry>, e: FileEntry)
    ensures
        final(v)@ == insert_desc(old(v)@, e),
{
    let n = v.len();
    let mut j: usize = 0;
    while j < n && v[j].size >= e.size
        invariant
            j <= n,
            n == v@.len(),
            forall|k: int| 0 <= k < j ==> v@[k].size >= e.size,
        decreases n - j,
    {
        j = j + 1;
    }
    proof {
        lemma_insert_desc_at(v@, e, j as int);
    }
    v.insert(j, e);
    proof {
        assert(old(v)@.insert(j as int, e) =~= old(v)@.take(j as int) + seq![e] + old(v)@.skip(
            j as int,
        ));
    }
}

/// Sort entries by descending size, ties keeping their original order.
pub fn sort_entries_desc(entries: &Vec<FileEntry>) -> (r: Vec<FileEntry>)
    ensures
        r@ == sort_desc(entries@),
        sorted_desc(r@),
        r@.to_multiset() == entries@.to_multiset(),
        r@.len() == entries@.len(),
        sum_sizes(r@) == sum_sizes(entries@),
{
    let n = entries.len();
    let mut r: Vec<FileEntry> = Vec::new();
    let mut i: usize = 0;
    while i < n
        invariant
            i <= n,
            n == entries@.len(),
            r@ == sort_desc(entries@.take(i as int)),
        decreases n - i,
    {
        insert_entry_desc(&mut r, entries[i].clone());
        proof {
            assert(entries@.take(i + 1).drop_last() =~= entries@.take(i as int));
            assert(entries@.take(i + 1).last() == entries@[i as int]);
        }
        i = i + 1;
    }
    proof {
        assert(entries@.take(n as int) =~= entries@);
        lemma_sort_desc_props(entries@);
    }
    r
}

} // verus!
