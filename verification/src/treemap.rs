//! Squarified treemap layout and point-based hit-testing.
//!
//! The layout engine partitions a rectangle into sub-rectangles whose areas
//! are proportional to entry sizes.  Entries are sorted by descending size
//! and grouped greedily into horizontal rows: a row keeps accepting entries
//! while the slice each would occupy stays at least as wide as tall.  Each
//! row is given a height proportional to its share of the total size and its
//! entries split the full width proportionally to their share of the row.
//! All coordinates are integers in the caller's viewport units; a computed
//! width that rounds down to zero drops that entry from the output rather
//! than emitting a degenerate rectangle.

use vstd::prelude::*;

use crate::scanner::FileEntry;
use crate::scanner::lemma_sum_sizes_nonneg;
use crate::scanner::lemma_sum_sizes_split;
use crate::scanner::lemma_sum_sizes_take_le;
use crate::scanner::lemma_sum_sizes_take_succ;
use crate::scanner::sum_sizes;
use crate::sorting::lemma_sort_desc_props;
use crate::sorting::sort_desc;
use crate::sorting::sort_entries_desc;

verus! {

/// An axis-aligned rectangle in layout coordinates.
#[derive(Clone, Copy, PartialEq, Eq, Structural, Debug)]
pub struct Rect {
    pub x: u64,
    pub y: u64,
    pub width: u64,
    pub height: u64,
}

/// A point in the same coordinate space as the layout's rectangles.
#[derive(Clone, Copy, PartialEq, Eq, Structural, Debug)]
pub struct Point {
    pub x: u64,
    pub y: u64,
}

impl Rect {
    /// The whole extent stays representable: no coordinate overflow on the
    /// far edges.
    pub open spec fn wf(self) -> bool {
        self.x + self.width <= u64::MAX && self.y + self.height <= u64::MAX
    }

    /// Closed containment: the edges belong to the rectangle.
    pub open spec fn spec_contains(self, p: Point) -> bool {
        self.x <= p.x && p.x <= self.x + self.width && self.y <= p.y && p.y <= self.y
            + self.height
    }

    /// Whether `p` lies in this rectangle, edges included.
    pub fn contains(&self, p: Point) -> (b: bool)
        ensures
            b == self.spec_contains(p),
    {
        self.x <= p.x && (p.x as u128) <= (self.x as u128) + (self.width as u128) && self.y <= p.y
            && (p.y as u128) <= (self.y as u128) + (self.height as u128)
    }

    /// The interiors of the two rectangles do not meet (shared edges are
    /// allowed).
    pub open spec fn disjoint(self, other: Rect) -> bool {
        self.x + self.width <= other.x || other.x + other.width <= self.x || self.y + self.height
            <= other.y || other.y + other.height <= self.y
    }
}

/// One placed layout result: an entry paired with the rectangle it occupies.
#[derive(Debug)]
pub struct ItemRect {
    pub entry: FileEntry,
    pub bounds: Rect,
}

impl Clone for ItemRect {
    fn clone(&self) -> (res: Self)
        ensures
            res == *self,
    {
        ItemRect { entry: self.entry.clone(), bounds: self.bounds }
    }
}

/// How many further entries the current row accepts, given the remaining
/// rectangle's width `w` and height `h`, the total size `rem_size` of the
/// remaining entries, and the size `row_size` gathered so far.  An entry is
/// accepted while the row it closes would be at least as wide as tall:
/// `w / ((new_size / rem_size) * h) >= 1`, compared here without division.
pub open spec fn row_take(s: Seq<FileEntry>, w: int, h: int, rem_size: int, row_size: int) -> int
    decreases s.len(),
{
    if s.len() == 0 {
        0
    } else {
        let new_size = row_size + s[0].size;
        if w * rem_size < new_size * h {
            0
        } else {
            1 + row_take(s.skip(1), w, h, rem_size, new_size)
        }
    }
}

/// The number of entries that form the next row: the first remaining entry
/// always joins, further ones while the aspect test accepts them.
pub open spec fn row_len(s: Seq<FileEntry>, w: int, h: int, rem_size: int) -> int {
    if s.len() == 0 {
        0
    } else {
        1 + row_take(s.skip(1), w, h, rem_size, s[0].size as int)
    }
}

pub proof fn lemma_row_take_in_range(s: Seq<FileEntry>, w: int, h: int, rem_size: int, row_size: int)
    ensures
        0 <= row_take(s, w, h, rem_size, row_size) <= s.len(),
    decreases s.len(),
{
    if s.len() > 0 {
        let new_size = row_size + s[0].size;
        if !(w * rem_size < new_size * h) {
            lemma_row_take_in_range(s.skip(1), w, h, rem_size, new_size);
        }
    }
}

pub proof fn lemma_row_len_in_range(s: Seq<FileEntry>, w: int, h: int, rem_size: int)
    requires
        s.len() > 0,
    ensures
        1 <= row_len(s, w, h, rem_size) <= s.len(),
{
    lemma_row_take_in_range(s.skip(1), w, h, rem_size, s[0].size as int);
}

/// The rectangles of one row.  The row spans the remaining rectangle's full
/// width `w` starting at `x`; each entry's slice is proportional to its
/// share of `row_size`, rounded down, and a slice of zero width is dropped.
/// `x` advances by each computed width, dropped or not.
pub open spec fn row_rects(
    row: Seq<FileEntry>,
    x: int,
    y: int,
    w: int,
    row_size: int,
    row_h: int,
) -> Seq<ItemRect>
    decreases row.len(),
{
    if row.len() == 0 {
        Seq::<ItemRect>::empty()
    } else {
        let iw = row[0].size * w / row_size;
        let rest = row_rects(row.skip(1), x + iw, y, w, row_size, row_h);
        if iw > 0 {
            seq![
                ItemRect {
                    entry: row[0],
                    bounds: Rect {
                        x: x as u64,
                        y: y as u64,
                        width: iw as u64,
                        height: row_h as u64,
                    },
                },
            ] + rest
        } else {
            rest
        }
    }
}

/// The full row-by-row layout of the (already sorted) entries `s` into the
/// remaining rectangle of height `rem_h` at `(x, y)`, width `w`.  Each row's
/// height is its share of the original total `total` applied to the original
/// height `bounds_h`, capped by what remains; the remaining rectangle then
/// shrinks by that height.  A row of zero total size places nothing.
pub open spec fn layout_rows(
    s: Seq<FileEntry>,
    x: int,
    y: int,
    w: int,
    rem_h: int,
    total: int,
    bounds_h: int,
) -> Seq<ItemRect>
    decreases s.len(),
    via layout_rows_decreases
{
    if s.len() == 0 || rem_h <= 0 || w <= 0 {
        Seq::<ItemRect>::empty()
    } else {
        let rem_size = sum_sizes(s);
        let k = row_len(s, w, rem_h, rem_size);
        let row = s.take(k);
        let rest = s.skip(k);
        let row_size = sum_sizes(row);
        if row_size > 0 {
            let rh = {
                let share = row_size * bounds_h / total;
                if share <= rem_h {
                    share
                } else {
                    rem_h
                }
            };
            row_rects(row, x, y, w, row_size, rh) + layout_rows(
                rest,
                x,
                y + rh,
                w,
                rem_h - rh,
                total,
                bounds_h,
            )
        } else {
            layout_rows(rest, x, y, w, rem_h, total, bounds_h)
        }
    }
}

#[via_fn]
proof fn layout_rows_decreases(
    s: Seq<FileEntry>,
    x: int,
    y: int,
    w: int,
    rem_h: int,
    total: int,
    bounds_h: int,
) {
    if s.len() > 0 && rem_h > 0 && w > 0 {
        lemma_row_len_in_range(s, w, rem_h, sum_sizes(s));
    }
}

/// Rounding down distributes no more than the whole: the two shares of a
/// split sum, each rounded down, never exceed the rounded share of the sum.
pub proof fn lemma_div_superadd(a: int, b: int, w: int, r: int)
    requires
        0 <= a,
        0 <= b,
        0 <= w,
        0 < r,
    ensures
        a * w / r + b * w / r <= (a + b) * w / r,
{
    let big_a = a * w;
    let big_b = b * w;
    vstd::arithmetic::mul::lemma_mul_nonnegative(a, w);
    vstd::arithmetic::mul::lemma_mul_nonnegative(b, w);
    assert((a + b) * w == a * w + b * w) by (nonlinear_arith);
    vstd::arithmetic::div_mod::lemma_fundamental_div_mod(big_a, r);
    vstd::arithmetic::div_mod::lemma_fundamental_div_mod(big_b, r);
    vstd::arithmetic::div_mod::lemma_mod_bound(big_a, r);
    vstd::arithmetic::div_mod::lemma_mod_bound(big_b, r);
    let qa = big_a / r;
    let qb = big_b / r;
    vstd::arithmetic::div_mod::lemma_div_pos_is_pos(big_a, r);
    vstd::arithmetic::div_mod::lemma_div_pos_is_pos(big_b, r);
    assert(r * qa + r * qb == r * (qa + qb)) by (nonlinear_arith);
    assert(r * (qa + qb) <= big_a + big_b);
    vstd::arithmetic::div_mod::lemma_div_is_ordered(r * (qa + qb), big_a + big_b, r);
    vstd::arithmetic::div_mod::lemma_div_multiples_vanish(qa + qb, r);
}

/// A proportional share never exceeds the whole width: with `0 <= a <= r`,
/// `a * w / r <= w`.
pub proof fn lemma_share_le_whole(a: int, w: int, r: int)
    requires
        0 <= a <= r,
        0 <= w,
        0 < r,
    ensures
        0 <= a * w / r <= w,
{
    vstd::arithmetic::mul::lemma_mul_nonnegative(a, w);
    vstd::arithmetic::div_mod::lemma_div_pos_is_pos(a * w, r);
    vstd::arithmetic::mul::lemma_mul_inequality(a, r, w);
    assert(a * w <= r * w) by (nonlinear_arith)
        requires
            0 <= a <= r,
            0 <= w,
    ;
    vstd::arithmetic::div_mod::lemma_div_is_ordered(a * w, r * w, r);
    assert(r * w == w * r) by (nonlinear_arith);
    vstd::arithmetic::div_mod::lemma_div_by_multiple(w, r);
}

/// The widths a row's entries receive, including those rounded down to
/// zero; the slice cursor advances by exactly this much.
pub open spec fn sum_widths(row: Seq<FileEntry>, w: int, row_size: int) -> int
    decreases row.len(),
{
    if row.len() == 0 {
        0
    } else {
        row[0].size * w / row_size + sum_widths(row.skip(1), w, row_size)
    }
}

/// The widths of a row sum to at most the row's proportional share of `w`,
/// and hence to at most `w` itself once the row's sizes sum to at most
/// `row_size`.
pub proof fn lemma_sum_widths_le(row: Seq<FileEntry>, w: int, row_size: int)
    requires
        0 < row_size,
        0 <= w,
        sum_sizes(row) <= row_size,
    ensures
        0 <= sum_widths(row, w, row_size) <= sum_sizes(row) * w / row_size,
        sum_widths(row, w, row_size) <= w,
    decreases row.len(),
{
    lemma_sum_sizes_nonneg(row);
    if row.len() == 0 {
        vstd::arithmetic::div_mod::lemma_div_pos_is_pos(0, row_size);
        lemma_share_le_whole(0, w, row_size);
    } else {
        let a = row[0].size as int;
        let rest = row.skip(1);
        let b = sum_sizes(rest);
        crate::sorting::lemma_sum_sizes_cons(row[0], rest);
        assert(seq![row[0]] + rest =~= row);
        assert(sum_sizes(row) == a + b);
        lemma_sum_sizes_nonneg(rest);
        lemma_sum_widths_le(rest, w, row_size);
        vstd::arithmetic::mul::lemma_mul_nonnegative(a, w);
        vstd::arithmetic::div_mod::lemma_div_pos_is_pos(a * w, row_size);
        lemma_div_superadd(a, b, w, row_size);
        lemma_share_le_whole(sum_sizes(row), w, row_size);
    }
}

/// Every rectangle lies inside `outer`.
pub open spec fn rects_within(rs: Seq<ItemRect>, outer: Rect) -> bool {
    forall|i: int|
        0 <= i < rs.len() ==> {
            let b = (#[trigger] rs[i]).bounds;
            &&& outer.x <= b.x
            &&& b.x + b.width <= outer.x + outer.width
            &&& outer.y <= b.y
            &&& b.y + b.height <= outer.y + outer.height
        }
}

/// No two rectangles' interiors meet.
pub open spec fn pairwise_disjoint(rs: Seq<ItemRect>) -> bool {
    forall|i: int, j: int|
        0 <= i < j < rs.len() ==> (#[trigger] rs[i]).bounds.disjoint((#[trigger] rs[j]).bounds)
}

/// Total area covered by the rectangles.
pub open spec fn sum_areas(rs: Seq<ItemRect>) -> int
    decreases rs.len(),
{
    if rs.len() == 0 {
        0
    } else {
        rs[0].bounds.width * rs[0].bounds.height + sum_areas(rs.skip(1))
    }
}

/// Area is additive over concatenation.
pub proof fn lemma_sum_areas_add(a: Seq<ItemRect>, b: Seq<ItemRect>)
    ensures
        sum_areas(a + b) == sum_areas(a) + sum_areas(b),
    decreases a.len(),
{
    if a.len() == 0 {
        assert(a + b =~= b);
    } else {
        assert((a + b).skip(1) =~= a.skip(1) + b);
        assert((a + b)[0] == a[0]);
        lemma_sum_areas_add(a.skip(1), b);
    }
}

/// Geometry of one placed row: all rectangles share the row's `y` and
/// height, have positive width, sit side by side left to right between `x`
/// and `x` plus the row's total width, and together cover exactly that
/// width times the row height.
pub proof fn lemma_row_rects_props(row: Seq<FileEntry>, x: int, y: int, w: int, rsz: int, rh: int)
    requires
        0 < rsz,
        sum_sizes(row) <= rsz,
        0 <= x,
        0 <= y,
        0 <= w,
        0 <= rh,
        x + sum_widths(row, w, rsz) <= u64::MAX,
        y + rh <= u64::MAX,
    ensures
        ({
            let out = row_rects(row, x, y, w, rsz, rh);
            &&& out.len() <= row.len()
            &&& forall|i: int|
                0 <= i < out.len() ==> {
                    let b = (#[trigger] out[i]).bounds;
                    &&& b.y == y
                    &&& b.height == rh
                    &&& x <= b.x
                    &&& b.x + b.width <= x + sum_widths(row, w, rsz)
                    &&& b.width >= 1
                }
            &&& forall|i: int, j: int|
                0 <= i < j < out.len() ==> (#[trigger] out[i]).bounds.x + out[i].bounds.width <= (
                #[trigger] out[j]).bounds.x
            &&& sum_areas(out) == sum_widths(row, w, rsz) * rh
        }),
    decreases row.len(),
{
    let out = row_rects(row, x, y, w, rsz, rh);
    lemma_sum_widths_le(row, w, rsz);
    if row.len() == 0 {
        assert(sum_widths(row, w, rsz) == 0);
        assert(sum_areas(out) == 0);
    } else {
        let a = row[0].size as int;
        let iw = a * w / rsz;
        let rest = row.skip(1);
        crate::sorting::lemma_sum_sizes_cons(row[0], rest);
        assert(seq![row[0]] + rest =~= row);
        lemma_sum_sizes_nonneg(rest);
        assert(a <= sum_sizes(row));
        lemma_share_le_whole(a, w, rsz);
        assert(sum_widths(row, w, rsz) == iw + sum_widths(rest, w, rsz));
        lemma_sum_widths_le(rest, w, rsz);
        lemma_row_rects_props(rest, x + iw, y, w, rsz, rh);
        let rest_out = row_rects(rest, x + iw, y, w, rsz, rh);
        assert(x + iw + sum_widths(rest, w, rsz) == x + sum_widths(row, w, rsz));
        if iw > 0 {
            let r0 = ItemRect {
                entry: row[0],
                bounds: Rect { x: x as u64, y: y as u64, width: iw as u64, height: rh as u64 },
            };
            assert(out == seq![r0] + rest_out);
            assert(out.len() == 1 + rest_out.len());
            assert(out[0] == r0);
            assert(forall|i: int| 1 <= i < out.len() ==> out[i] == rest_out[i - 1]);
            assert(r0.bounds.x == x);
            assert(r0.bounds.y == y);
            assert(r0.bounds.width == iw);
            assert(r0.bounds.height == rh);
            assert forall|i: int| 0 <= i < out.len() implies {
                let b = (#[trigger] out[i]).bounds;
                &&& b.y == y
                &&& b.height == rh
                &&& x <= b.x
                &&& b.x + b.width <= x + sum_widths(row, w, rsz)
                &&& b.width >= 1
            } by {
                if i >= 1 {
                    assert(out[i] == rest_out[i - 1]);
                }
            }
            assert forall|i: int, j: int| 0 <= i < j < out.len() implies (#[trigger] out[i]).bounds.x
                + out[i].bounds.width <= (#[trigger] out[j]).bounds.x by {
                if i == 0 {
                    assert(out[j] == rest_out[j - 1]);
                    assert(x + iw <= rest_out[j - 1].bounds.x);
                } else {
                    assert(out[i] == rest_out[i - 1]);
                    assert(out[j] == rest_out[j - 1]);
                }
            }
            assert(out.skip(1) =~= rest_out);
            assert(sum_areas(out) == iw * rh + sum_areas(rest_out));
            assert(iw * rh + sum_widths(rest, w, rsz) * rh == (iw + sum_widths(rest, w, rsz)) * rh)
                by (nonlinear_arith);
        } else {
            assert(out == rest_out);
            assert(iw == 0);
            assert(sum_widths(row, w, rsz) == sum_widths(rest, w, rsz));
        }
    }
}

/// Geometry of a whole layout pass: every rectangle lies in the remaining
/// area, has positive width, interiors are pairwise disjoint, and the
/// covered area never exceeds the remaining area.
pub proof fn lemma_layout_rows_props(
    s: Seq<FileEntry>,
    x: int,
    y: int,
    w: int,
    rem_h: int,
    total: int,
    bh: int,
)
    requires
        0 < total,
        0 <= bh,
        0 <= x,
        0 <= y,
        0 <= w,
        0 <= rem_h,
        x + w <= u64::MAX,
        y + rem_h <= u64::MAX,
    ensures
        ({
            let out = layout_rows(s, x, y, w, rem_h, total, bh);
            &&& forall|i: int|
                0 <= i < out.len() ==> {
                    let b = (#[trigger] out[i]).bounds;
                    &&& x <= b.x
                    &&& b.x + b.width <= x + w
                    &&& y <= b.y
                    &&& b.y + b.height <= y + rem_h
                    &&& b.width >= 1
                }
            &&& pairwise_disjoint(out)
            &&& sum_areas(out) <= w * rem_h
        }),
    decreases s.len(),
{
    let out = layout_rows(s, x, y, w, rem_h, total, bh);
    if s.len() == 0 || rem_h <= 0 || w <= 0 {
        vstd::arithmetic::mul::lemma_mul_nonnegative(w, rem_h);
    } else {
        let rem_size = sum_sizes(s);
        let k = row_len(s, w, rem_h, rem_size);
        lemma_row_len_in_range(s, w, rem_h, rem_size);
        let row = s.take(k);
        let rest = s.skip(k);
        let row_size = sum_sizes(row);
        lemma_sum_sizes_take_le(s, k);
        lemma_sum_sizes_nonneg(row);
        if row_size > 0 {
            let share = row_size * bh / total;
            let rh = if share <= rem_h {
                share
            } else {
                rem_h
            };
            vstd::arithmetic::mul::lemma_mul_nonnegative(row_size, bh);
            vstd::arithmetic::div_mod::lemma_div_pos_is_pos(row_size * bh, total);
            lemma_sum_widths_le(row, w, row_size);
            lemma_row_rects_props(row, x, y, w, row_size, rh);
            lemma_layout_rows_props(rest, x, y + rh, w, rem_h - rh, total, bh);
            let row_out = row_rects(row, x, y, w, row_size, rh);
            let rest_out = layout_rows(rest, x, y + rh, w, rem_h - rh, total, bh);
            assert(out == row_out + rest_out);
            assert(out.len() == row_out.len() + rest_out.len());
            assert(forall|i: int| 0 <= i < row_out.len() ==> out[i] == row_out[i]);
            assert(forall|i: int|
                row_out.len() <= i < out.len() ==> out[i] == rest_out[i - row_out.len()]);
            assert forall|i: int| 0 <= i < out.len() implies {
                let b = (#[trigger] out[i]).bounds;
                &&& x <= b.x
                &&& b.x + b.width <= x + w
                &&& y <= b.y
                &&& b.y + b.height <= y + rem_h
                &&& b.width >= 1
            } by {
                if i < row_out.len() {
                    assert(out[i] == row_out[i]);
                    assert(sum_widths(row, w, row_size) <= w);
                } else {
                    assert(out[i] == rest_out[i - row_out.len()]);
                }
            }
            assert forall|i: int, j: int| 0 <= i < j < out.len() implies (#[trigger] out[i]).bounds.disjoint(
                (#[trigger] out[j]).bounds,
            ) by {
                if j < row_out.len() {
                    assert(out[i] == row_out[i]);
                    assert(out[j] == row_out[j]);
                    assert(row_out[i].bounds.x + row_out[i].bounds.width <= row_out[j].bounds.x);
                } else if i >= row_out.len() {
                    assert(out[i] == rest_out[i - row_out.len()]);
                    assert(out[j] == rest_out[j - row_out.len()]);
                    assert(pairwise_disjoint(rest_out));
                    assert(rest_out[i - row_out.len()].bounds.disjoint(
                        rest_out[j - row_out.len()].bounds,
                    ));
                } else {
                    assert(out[i] == row_out[i]);
                    assert(out[j] == rest_out[j - row_out.len()]);
                    assert(row_out[i].bounds.y + row_out[i].bounds.height <= y + rh);
                    assert(y + rh <= rest_out[j - row_out.len()].bounds.y);
                }
            }
            lemma_sum_areas_add(row_out, rest_out);
            assert(sum_widths(row, w, row_size) * rh <= w * rh) by (nonlinear_arith)
                requires
                    sum_widths(row, w, row_size) <= w,
                    0 <= rh,
            ;
            assert(w * rh + w * (rem_h - rh) == w * rem_h) by (nonlinear_arith);
        } else {
            lemma_layout_rows_props(rest, x, y, w, rem_h, total, bh);
        }
    }
}

/// Law: a layout stays inside its bounds rectangle, its rectangles'
/// interiors are pairwise disjoint, every placed rectangle has positive
/// width, and the covered area never exceeds the bounds' area (rounding
/// only loses area, never creates it).
pub proof fn lemma_layout_geometry(entries: Seq<FileEntry>, bounds: Rect)
    requires
        bounds.wf(),
    ensures
        rects_within(layout_spec(entries, bounds), bounds),
        pairwise_disjoint(layout_spec(entries, bounds)),
        sum_areas(layout_spec(entries, bounds)) <= bounds.width * bounds.height,
        forall|i: int|
            0 <= i < layout_spec(entries, bounds).len() ==> (#[trigger] layout_spec(
                entries,
                bounds,
            )[i]).bounds.width >= 1,
{
    let out = layout_spec(entries, bounds);
    let total = sum_sizes(entries);
    if entries.len() == 0 || total == 0 || bounds.width == 0 || bounds.height == 0 {
        vstd::arithmetic::mul::lemma_mul_nonnegative(bounds.width as int, bounds.height as int);
    } else {
        lemma_sum_sizes_nonneg(entries);
        lemma_sort_desc_props(entries);
        lemma_layout_rows_props(
            sort_desc(entries),
            bounds.x as int,
            bounds.y as int,
            bounds.width as int,
            bounds.height as int,
            total,
            bounds.height as int,
        );
    }
}

/// Law: the layout is a pure function of its inputs.  Two layouts computed
/// from the same entries and the same bounds are identical, rectangle for
/// rectangle.
pub proof fn lemma_layout_deterministic(t1: TreeMap, t2: TreeMap, entries: Seq<FileEntry>, bounds: Rect)
    requires
        t1.rects@ == layout_spec(entries, bounds),
        t2.rects@ == layout_spec(entries, bounds),
    ensures
        t1.rects@ == t2.rects@,
{
}

/// Law: degenerate inputs lay out nothing.  No entries, a zero total size,
/// or an empty bounds rectangle each yield the empty layout.
pub proof fn lemma_layout_degenerate(entries: Seq<FileEntry>, bounds: Rect)
    ensures
        entries.len() == 0 ==> layout_spec(entries, bounds) == Seq::<ItemRect>::empty(),
        sum_sizes(entries) == 0 ==> layout_spec(entries, bounds) == Seq::<ItemRect>::empty(),
        bounds.width == 0 || bounds.height == 0 ==> layout_spec(entries, bounds)
            == Seq::<ItemRect>::empty(),
{
}

/// Law: the center of a placed rectangle at least two units wide and tall
/// lies inside that rectangle and inside no other rectangle of the layout,
/// so the first-match hit-test resolves the center to exactly that item.
pub proof fn lemma_center_hit_unique(rs: Seq<ItemRect>, i: int, p: Point)
    requires
        pairwise_disjoint(rs),
        0 <= i < rs.len(),
        rs[i].bounds.width >= 2,
        rs[i].bounds.height >= 2,
        p.x == rs[i].bounds.x + rs[i].bounds.width / 2,
        p.y == rs[i].bounds.y + rs[i].bounds.height / 2,
    ensures
        rs[i].bounds.spec_contains(p),
        forall|j: int|
            0 <= j < rs.len() && j != i ==> !(#[trigger] rs[j]).bounds.spec_contains(p),
{
    let b = rs[i].bounds;
    assert(1 <= b.width / 2 < b.width);
    assert(1 <= b.height / 2 < b.height);
    assert forall|j: int| 0 <= j < rs.len() && j != i implies !(#[trigger] rs[j]).bounds.spec_contains(
        p,
    ) by {
        if j < i {
            assert(rs[j].bounds.disjoint(rs[i].bounds));
        } else {
            assert(rs[i].bounds.disjoint(rs[j].bounds));
        }
    }
}

/// The whole layout: what `update_layout` leaves in `rects`.  Degenerate
/// inputs (no entries, zero total size, an empty bounds rectangle) lay out
/// nothing; otherwise the entries are sorted by descending size, ties in
/// original order, and placed row by row.
pub open spec fn layout_spec(entries: Seq<FileEntry>, bounds: Rect) -> Seq<ItemRect> {
    let total = sum_sizes(entries);
    if entries.len() == 0 || total == 0 || bounds.width == 0 || bounds.height == 0 {
        Seq::<ItemRect>::empty()
    } else {
        layout_rows(
            sort_desc(entries),
            bounds.x as int,
            bounds.y as int,
            bounds.width as int,
            bounds.height as int,
            total,
            bounds.height as int,
        )
    }
}

/// Appending one entry to a row adds exactly its slice width.
pub proof fn lemma_sum_widths_snoc(s: Seq<FileEntry>, e: FileEntry, w: int, rsz: int)
    ensures
        sum_widths(s.push(e), w, rsz) == sum_widths(s, w, rsz) + e.size * w / rsz,
    decreases s.len(),
{
    if s.len() == 0 {
        assert(s.push(e)[0] == e);
        assert(s.push(e).skip(1) =~= Seq::<FileEntry>::empty());
        assert(sum_widths(s.push(e), w, rsz) == e.size * w / rsz + sum_widths(
            s.push(e).skip(1),
            w,
            rsz,
        ));
        assert(sum_widths(Seq::<FileEntry>::empty(), w, rsz) == 0);
    } else {
        assert(s.push(e).skip(1) =~= s.skip(1).push(e));
        assert(s.push(e)[0] == s[0]);
        lemma_sum_widths_snoc(s.skip(1), e, w, rsz);
        assert(sum_widths(s.push(e), w, rsz) == s[0].size * w / rsz + sum_widths(
            s.skip(1).push(e),
            w,
            rsz,
        ));
        assert(sum_widths(s, w, rsz) == s[0].size * w / rsz + sum_widths(s.skip(1), w, rsz));
    }
}

/// Total size of a vector of entries.
fn total_size_of(entries: &Vec<FileEntry>) -> (total: u64)
    requires
        sum_sizes(entries@) <= u64::MAX,
    ensures
        total == sum_sizes(entries@),
{
    let n = entries.len();
    let mut total: u64 = 0;
    let mut i: usize = 0;
    while i < n
        invariant
            i <= n,
            n == entries@.len(),
            sum_sizes(entries@) <= u64::MAX,
            total == sum_sizes(entries@.take(i as int)),
        decreases n - i,
    {
        proof {
            lemma_sum_sizes_take_succ(entries@, i as int);
            lemma_sum_sizes_take_le(entries@, i as int + 1);
            lemma_sum_sizes_nonneg(entries@.take(i as int));
        }
        total = total + entries[i].size;
        i = i + 1;
    }
    proof {
        assert(entries@.take(n as int) =~= entries@);
    }
    total
}

/// Build one row greedily from `entries[start..]`: keep accepting entries
/// while the row's aspect test accepts them, against the remaining
/// rectangle `w` by `h` and the remaining total `rem_size`.  Returns the
/// index one past the row's end and the row's total size.
fn calculate_row(entries: &Vec<FileEntry>, start: usize, w: u64, h: u64, rem_size: u64) -> (res: (
    usize,
    u64,
))
    requires
        start < entries@.len(),
        sum_sizes(entries@.skip(start as int)) <= u64::MAX,
    ensures
        start < res.0 <= entries@.len(),
        res.0 - start == row_len(
            entries@.skip(start as int),
            w as int,
            h as int,
            rem_size as int,
        ),
        res.1 == sum_sizes(entries@.skip(start as int).take(res.0 - start)),
{
    let ghost s = entries@.skip(start as int);
    let n = entries.len();
    let mut row_size: u64 = entries[start].size;
    let mut i: usize = start + 1;
    proof {
        assert(s[0] == entries@[start as int]);
        assert(s.take(1).drop_last() =~= Seq::<FileEntry>::empty());
        assert(s.take(1).last() == s[0]);
        assert(sum_sizes(s.take(1)) == sum_sizes(s.take(1).drop_last()) + s.take(1).last().size);
        assert(sum_sizes(Seq::<FileEntry>::empty()) == 0);
        assert(row_size == sum_sizes(s.take(1)));
    }
    loop
        invariant
            start < i <= n,
            n == entries@.len(),
            s == entries@.skip(start as int),
            sum_sizes(s) <= u64::MAX,
            row_size == sum_sizes(s.take(i - start)),
            row_len(s, w as int, h as int, rem_size as int) == (i - start) + row_take(
                s.skip(i - start),
                w as int,
                h as int,
                rem_size as int,
                row_size as int,
            ),
        ensures
            start < i <= n,
            row_size == sum_sizes(s.take(i - start)),
            row_len(s, w as int, h as int, rem_size as int) == i - start,
        decreases n - i,
    {
        if i >= n {
            proof {
                assert(s.skip(i - start).len() == 0);
            }
            break ;
        }
        proof {
            lemma_sum_sizes_take_succ(s, i - start);
            lemma_sum_sizes_take_le(s, i - start + 1);
            lemma_sum_sizes_nonneg(s.take(i - start));
            assert(s[i - start] == entries@[i as int]);
        }
        let new_size: u64 = row_size + entries[i].size;
        proof {
            assert((w as u128) * (rem_size as u128) <= (u64::MAX as u128) * (u64::MAX as u128))
                by (nonlinear_arith)
                requires
                    w <= u64::MAX,
                    rem_size <= u64::MAX,
            ;
            assert((new_size as u128) * (h as u128) <= (u64::MAX as u128) * (u64::MAX as u128))
                by (nonlinear_arith)
                requires
                    new_size <= u64::MAX,
                    h <= u64::MAX,
            ;
            assert(s.skip(i - start)[0] == s[i - start]);
        }
        if (w as u128) * (rem_size as u128) < (new_size as u128) * (h as u128) {
            proof {
                assert(row_take(
                    s.skip(i - start),
                    w as int,
                    h as int,
                    rem_size as int,
                    row_size as int,
                ) == 0);
            }
            break ;
        }
        proof {
            assert(s.skip(i - start).skip(1) =~= s.skip(i - start + 1));
            assert(row_take(
                s.skip(i - start),
                w as int,
                h as int,
                rem_size as int,
                row_size as int,
            ) == 1 + row_take(
                s.skip(i - start + 1),
                w as int,
                h as int,
                rem_size as int,
                new_size as int,
            ));
        }
        row_size = new_size;
        i = i + 1;
    }
    (i, row_size)
}

/// Place one finalized row: split the full width `w` at `x0` among the
/// row's entries proportionally to their share of `row_size`, dropping
/// slices whose width rounds down to zero, and append the resulting
/// rectangles.
fn place_row(
    rects: &mut Vec<ItemRect>,
    entries: &Vec<FileEntry>,
    start: usize,
    k: usize,
    x0: u64,
    y: u64,
    w: u64,
    row_size: u64,
    row_h: u64,
)
    requires
        start < k <= entries@.len(),
        row_size == sum_sizes(entries@.skip(start as int).take(k - start)),
        row_size > 0,
        x0 + w <= u64::MAX,
    ensures
        final(rects)@ == old(rects)@ + row_rects(
            entries@.skip(start as int).take(k - start),
            x0 as int,
            y as int,
            w as int,
            row_size as int,
            row_h as int,
        ),
{
    let ghost row = entries@.skip(start as int).take(k - start);
    let mut x: u64 = x0;
    let mut j: usize = start;
    proof {
        lemma_sum_widths_le(row, w as int, row_size as int);
        assert(row.skip(0) =~= row);
        assert(row.take(0) =~= Seq::<FileEntry>::empty());
    }
    while j < k
        invariant
            start <= j <= k,
            k <= entries@.len(),
            row == entries@.skip(start as int).take(k - start),
            row_size == sum_sizes(row),
            row_size > 0,
            x0 + w <= u64::MAX,
            x == x0 + sum_widths(row.take(j - start), w as int, row_size as int),
            x <= x0 + w,
            rects@ + row_rects(row.skip(j - start), x as int, y as int, w as int, row_size as int, row_h as int)
                == old(rects)@ + row_rects(row, x0 as int, y as int, w as int, row_size as int, row_h as int),
        decreases k - j,
    {
        let ghost m = j - start;
        proof {
            assert(row[m] == entries@[j as int]);
            lemma_sum_sizes_take_le(row, m + 1);
            lemma_sum_sizes_take_succ(row, m);
            lemma_sum_sizes_nonneg(row.take(m));
            lemma_share_le_whole(entries@[j as int].size as int, w as int, row_size as int);
            assert((entries[j as int].size as u128) * (w as u128) <= (u64::MAX as u128) * (
            u64::MAX as u128)) by (nonlinear_arith)
                requires
                    entries[j as int].size <= u64::MAX,
                    w <= u64::MAX,
            ;
        }
        let iw: u64 = (((entries[j].size as u128) * (w as u128)) / (row_size as u128)) as u64;
        proof {
            assert(iw == row[m].size * w / (row_size as int));
            // the cursor never passes the row's right edge
            lemma_sum_widths_le(row.take(m + 1), w as int, row_size as int);
            assert(row.take(m + 1) =~= row.take(m).push(row[m]));
            lemma_sum_widths_snoc(row.take(m), row[m], w as int, row_size as int);
            assert(row.skip(m).len() == row.len() - m);
            assert(row.skip(m)[0] == row[m]);
            assert(row.skip(m).skip(1) =~= row.skip(m + 1));
            assert(row_rects(row.skip(m), x as int, y as int, w as int, row_size as int, row_h as int)
                == if iw > 0 {
                    seq![
                        ItemRect {
                            entry: row[m],
                            bounds: Rect { x: x, y: y, width: iw, height: row_h },
                        },
                    ] + row_rects(row.skip(m + 1), x + iw, y as int, w as int, row_size as int, row_h as int)
                } else {
                    row_rects(row.skip(m + 1), x + iw, y as int, w as int, row_size as int, row_h as int)
                });
        }
        if iw > 0 {
            rects.push(ItemRect {
                entry: entries[j].clone(),
                bounds: Rect { x, y, width: iw, height: row_h },
            });
        }
        x = x + iw;
        j = j + 1;
        proof {
            assert(rects@ + row_rects(row.skip(j - start), x as int, y as int, w as int, row_size as int, row_h as int)
                =~= old(rects)@ + row_rects(row, x0 as int, y as int, w as int, row_size as int, row_h as int));
        }
    }
    proof {
        assert(row.skip(k - start).len() == 0);
        assert(rects@ + row_rects(row.skip(k - start), x as int, y as int, w as int, row_size as int, row_h as int)
            =~= rects@);
    }
}

/// The treemap: the entries of the current scan, the path they came from,
/// and the rectangles of the last layout pass.
pub struct TreeMap {
    pub entries: Vec<FileEntry>,
    pub current_path: String,
    pub rects: Vec<ItemRect>,
}

impl TreeMap {
    /// A fresh treemap for `current_path`: no entries, nothing laid out.
    pub fn new(current_path: String) -> (t: TreeMap)
        ensures
            t.entries@ == Seq::<FileEntry>::empty(),
            t.current_path == current_path,
            t.rects@ == Seq::<ItemRect>::empty(),
    {
        TreeMap { entries: Vec::new(), current_path, rects: Vec::new() }
    }

    /// Recompute the layout from scratch: replace `rects` with the
    /// squarified layout of `entries` into `bounds`.  Degenerate inputs (no
    /// entries, zero total size, an empty rectangle) leave an empty layout;
    /// nothing else of the treemap changes.
    pub fn update_layout(&mut self, bounds: Rect)
        requires
            sum_sizes(old(self).entries@) <= u64::MAX,
            bounds.wf(),
        ensures
            final(self).entries == old(self).entries,
            final(self).current_path == old(self).current_path,
            final(self).rects@ == layout_spec(old(self).entries@, bounds),
    {
        self.rects = Vec::new();
        if self.entries.len() == 0 {
            return ;
        }
        let total = total_size_of(&self.entries);
        if total == 0 {
            return ;
        }
        if bounds.width == 0 || bounds.height == 0 {
            return ;
        }
        let sorted = sort_entries_desc(&self.entries);
        let n = sorted.len();
        let mut idx: usize = 0;
        let mut rem_y: u64 = bounds.y;
        let mut rem_h: u64 = bounds.height;
        let mut rem_size: u64 = total;
        proof {
            lemma_sort_desc_props(self.entries@);
            assert(sorted@.skip(0) =~= sorted@);
        }
        while idx < n && rem_h > 0
            invariant
                self.entries == old(self).entries,
                self.current_path == old(self).current_path,
                n == sorted@.len(),
                idx <= n,
                sorted@ == sort_desc(old(self).entries@),
                total == sum_sizes(old(self).entries@),
                total == sum_sizes(sorted@),
                0 < total <= u64::MAX,
                bounds.width > 0,
                bounds.height > 0,
                bounds.wf(),
                old(self).entries@.len() > 0,
                rem_size == sum_sizes(sorted@.skip(idx as int)),
                rem_y + rem_h == bounds.y + bounds.height,
                self.rects@ + layout_rows(
                    sorted@.skip(idx as int),
                    bounds.x as int,
                    rem_y as int,
                    bounds.width as int,
                    rem_h as int,
                    total as int,
                    bounds.height as int,
                ) == layout_rows(
                    sorted@,
                    bounds.x as int,
                    bounds.y as int,
                    bounds.width as int,
                    bounds.height as int,
                    total as int,
                    bounds.height as int,
                ),
            decreases n - idx,
        {
            let ghost srem = sorted@.skip(idx as int);
            let ghost y_old = rem_y as int;
            let ghost h_old = rem_h as int;
            let ghost rects_before = self.rects@;
            let (k, row_size) = calculate_row(&sorted, idx, bounds.width, rem_h, rem_size);
            let ghost row = srem.take(k - idx);
            proof {
                lemma_sum_sizes_take_le(srem, k - idx);
                lemma_sum_sizes_nonneg(row);
                lemma_sum_sizes_split(srem, k - idx);
                lemma_sum_sizes_nonneg(srem.skip(k - idx));
                assert(srem.skip(k - idx) =~= sorted@.skip(k as int));
                lemma_sum_sizes_split(sorted@, idx as int);
                lemma_sum_sizes_nonneg(sorted@.take(idx as int));
                assert(row_size <= rem_size);
                assert(rem_size <= total);
            }
            if row_size > 0 {
                proof {
                    lemma_share_le_whole(row_size as int, bounds.height as int, total as int);
                    assert((row_size as u128) * (bounds.height as u128) <= (u64::MAX as u128) * (
                    u64::MAX as u128)) by (nonlinear_arith)
                        requires
                            row_size <= u64::MAX,
                            bounds.height <= u64::MAX,
                    ;
                }
                let share: u128 = (row_size as u128) * (bounds.height as u128) / (total as u128);
                let rh: u64 = if share <= rem_h as u128 {
                    share as u64
                } else {
                    rem_h
                };
                proof {
                    assert(share == row_size * (bounds.height as int) / (total as int));
                }
                place_row(
                    &mut self.rects,
                    &sorted,
                    idx,
                    k,
                    bounds.x,
                    rem_y,
                    bounds.width,
                    row_size,
                    rh,
                );
                rem_y = rem_y + rh;
                rem_h = rem_h - rh;
                proof {
                    let w_i = bounds.width as int;
                    let t_i = total as int;
                    let bh_i = bounds.height as int;
                    let rr = row_rects(row, bounds.x as int, y_old, w_i, row_size as int, rh as int);
                    let rest_l = layout_rows(
                        sorted@.skip(k as int),
                        bounds.x as int,
                        y_old + rh,
                        w_i,
                        h_old - rh,
                        t_i,
                        bh_i,
                    );
                    assert(layout_rows(srem, bounds.x as int, y_old, w_i, h_old, t_i, bh_i) == rr
                        + rest_l);
                    assert(self.rects@ == rects_before + rr);
                    assert(self.rects@ + rest_l =~= rects_before + (rr + rest_l));
                }
            } else {
                proof {
                    assert(layout_rows(
                        srem,
                        bounds.x as int,
                        y_old,
                        bounds.width as int,
                        h_old,
                        total as int,
                        bounds.height as int,
                    ) == layout_rows(
                        sorted@.skip(k as int),
                        bounds.x as int,
                        y_old,
                        bounds.width as int,
                        h_old,
                        total as int,
                        bounds.height as int,
                    ));
                }
            }
            rem_size = rem_size - row_size;
            idx = k;
        }
        proof {
            if idx == n {
                assert(sorted@.skip(idx as int).len() == 0);
                assert(layout_rows(
                    sorted@.skip(idx as int),
                    bounds.x as int,
                    rem_y as int,
                    bounds.width as int,
                    rem_h as int,
                    total as int,
                    bounds.height as int,
                ) == Seq::<ItemRect>::empty());
            } else {
                assert(rem_h == 0);
                assert(layout_rows(
                    sorted@.skip(idx as int),
                    bounds.x as int,
                    rem_y as int,
                    bounds.width as int,
                    rem_h as int,
                    total as int,
                    bounds.height as int,
                ) == Seq::<ItemRect>::empty());
            }
            assert(self.rects@ + Seq::<ItemRect>::empty() =~= self.rects@);
        }
    }

    /// The first placed rectangle that contains `p`, edges included; `None`
    /// when no placed rectangle does.  Rectangles of one layout have
    /// pairwise disjoint interiors, so the first match is the only interior
    /// match.
    pub fn find_item_at(&self, p: Point) -> (r: Option<&ItemRect>)
        ensures
            match r {
                Some(item) => exists|i: int|
                    0 <= i < self.rects@.len() && *item == self.rects@[i]
                        && self.rects@[i].bounds.spec_contains(p) && (forall|j: int|
                        0 <= j < i ==> !self.rects@[j].bounds.spec_contains(p)),
                None => forall|i: int|
                    0 <= i < self.rects@.len() ==> !self.rects@[i].bounds.spec_contains(p),
            },
    {
        let n = self.rects.len();
        let mut i: usize = 0;
        while i < n
            invariant
                i <= n,
                n == self.rects@.len(),
                forall|j: int| 0 <= j < i ==> !self.rects@[j].bounds.spec_contains(p),
            decreases n - i,
        {
            if self.rects[i].bounds.contains(p) {
                return Some(&self.rects[i]);
            }
            i = i + 1;
        }
        None
    }
}

} // verus!
