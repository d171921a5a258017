//! Sliding one line of tiles toward its index 0.
//!
//! A line is a sequence of tile values where 0 stands for an empty cell.
//! A slide drops the gaps, merges equal neighbours once each, scanning from
//! the target edge, and pads the far end with empty cells.

use vstd::prelude::*;

verus! {

/// Largest tile value that can still be doubled within `i32`.
pub const MAX_MERGEABLE: i32 = 0x3FFF_FFFF;

/// The values of a line as mathematical integers.
pub open spec fn ints(s: Seq<i32>) -> Seq<int> {
    Seq::new(s.len(), |i: int| s[i] as int)
}

/// The non-empty cells of a line, in order.
pub open spec fn compact(s: Seq<int>) -> Seq<int>
    decreases s.len(),
{
    if s.len() == 0 {
        s
    } else if s.last() != 0 {
        compact(s.drop_last()).push(s.last())
    } else {
        compact(s.drop_last())
    }
}

/// Merges equal neighbours of a gap-free run of tiles, starting at index 0.
/// A tile produced by a merge is never merged again.
pub open spec fn merge(t: Seq<int>) -> Seq<int>
    decreases t.len(),
{
    if t.len() < 2 {
        t
    } else if t[0] == t[1] {
        seq![t[0] + t[1]] + merge(t.skip(2))
    } else {
        seq![t[0]] + merge(t.skip(1))
    }
}

/// A run of tiles followed by empty cells, `n` cells in all.
pub open spec fn pad(t: Seq<int>, n: nat) -> Seq<int> {
    Seq::new(n, |i: int| if i < t.len() { t[i] } else { 0 })
}

/// The line after its tiles slid toward index 0.
pub open spec fn slide(s: Seq<int>) -> Seq<int> {
    pad(merge(compact(s)), s.len())
}

/// No cell holds a negative value or one too large to be doubled.
pub open spec fn mergeable(s: Seq<int>) -> bool {
    forall|i: int| 0 <= i < s.len() ==> 0 <= #[trigger] s[i] <= MAX_MERGEABLE
}

/// `v` is one of 2, 4, 8, ...
pub open spec fn is_power(v: int) -> bool
    decreases v,
{
    v == 2 || (v > 2 && v % 2 == 0 && is_power(v / 2))
}

/// `v` may stand in a cell: it is empty or a power of two.
pub open spec fn is_tile(v: int) -> bool {
    v == 0 || is_power(v)
}

/// Every cell of the line is empty or a power of two.
pub open spec fn all_tiles(s: Seq<int>) -> bool {
    forall|i: int| 0 <= i < s.len() ==> is_tile(#[trigger] s[i])
}

/// Every value of the line can stand in an `i32`.
pub open spec fn fits(s: Seq<int>) -> bool {
    forall|i: int| 0 <= i < s.len() ==> i32::MIN <= #[trigger] s[i] <= i32::MAX
}

/// Slides the tiles of `line` toward index 0 and returns the new line. The
/// line may hold any values, as long as every merged tile fits.
pub fn slide_line(line: &Vec<i32>) -> (out: Vec<i32>)
    requires
        fits(slide(ints(line@))),
    ensures
        ints(out@) == slide(ints(line@)),
        out@.len() == line@.len(),
        all_tiles(ints(line@)) ==> all_tiles(ints(out@)),
{
    checked_slide_line(line).unwrap()
}

/// Slides the tiles of `line` toward index 0 and returns the new line, or
/// nothing where a merged tile would not fit in an `i32`.
pub fn checked_slide_line(line: &Vec<i32>) -> (slid: Option<Vec<i32>>)
    ensures
        slid.is_some() <==> fits(slide(ints(line@))),
        slid.is_some() ==> {
            &&& ints(slid.unwrap()@) == slide(ints(line@))
            &&& slid.unwrap()@.len() == line@.len()
            &&& (all_tiles(ints(line@)) ==> all_tiles(ints(slid.unwrap()@)))
        },
{
    let n: usize = line.len();
    let ghost src: Seq<int> = ints(line@);
    let mut tiles: Vec<i32> = Vec::new();
    let mut i: usize = 0;
    while i < n
        invariant
            n == line@.len(),
            src == ints(line@),
            i <= n,
            tiles@.len() <= i,
            ints(tiles@) == compact(src.take(i as int)),
            all_tiles(src) ==> all_tiles(ints(tiles@)),
        decreases n - i,
    {
        let v: i32 = line[i];
        proof {
            let next = src.take(i + 1);
            assert(next.drop_last() == src.take(i as int));
            assert(next.last() == v as int);
        }
        if v != 0 {
            let ghost before = tiles@;
            tiles.push(v);
            proof {
                assert(ints(tiles@) == ints(before).push(v as int));
                assert(src[i as int] == v as int);
            }
        }
        i += 1;
    }
    proof {
        assert(src.take(n as int) == src);
    }
    let ghost run: Seq<int> = compact(src);
    let m: usize = tiles.len();
    let mut out: Vec<i32> = Vec::new();
    let mut j: usize = 0;
    proof {
        assert(run.skip(0) == run);
        assert(ints(out@) + merge(run) == merge(run));
    }
    while j < m
        invariant
            m == tiles@.len(),
            m <= n,
            run == ints(tiles@),
            j <= m,
            out@.len() <= j,
            ints(out@) + merge(run.skip(j as int)) == merge(run),
            n == src.len(),
            src == ints(line@),
            run == compact(src),
            all_tiles(src) ==> all_tiles(run) && all_tiles(ints(out@)),
        decreases m - j,
    {
        let a: i32 = tiles[j];
        let ghost rest = run.skip(j as int);
        let ghost before = out@;
        if j + 1 < m && tiles[j + 1] == a {
            proof {
                assert(rest[0] == a as int && rest[1] == a as int);
                assert(rest.skip(2) == run.skip(j + 2));
                let at = before.len() as int;
                assert(merge(rest)[0] == a + a);
                assert((ints(before) + merge(rest))[at] == a + a);
                assert(merge(run)[at] == a + a);
                assert(pad(merge(run), n as nat)[at] == a + a);
                assert(slide(src)[at] == a + a);
            }
            let sum: i32 = match a.checked_add(a) {
                Some(sum) => sum,
                None => {
                    proof {
                        let at = before.len() as int;
                        assert(0 <= at < slide(src).len());
                        assert(!(i32::MIN <= slide(src)[at] <= i32::MAX));
                    }
                    return None;
                },
            };
            out.push(sum);
            j += 2;
            proof {
                assert(ints(out@) == ints(before).push(a + a));
                assert(run[j - 2] == a as int);
                assert(is_power(a as int) ==> is_power(a + a));
                assert(ints(out@) + merge(run.skip(j as int)) == ints(before) + merge(rest));
            }
        } else {
            proof {
                assert(rest[0] == a as int);
                if rest.len() >= 2 {
                    assert(rest[1] == tiles@[j + 1] as int);
                    assert(rest.skip(1) == run.skip(j + 1));
                } else {
                    assert(run.skip(j + 1) == Seq::<int>::empty());
                    assert(merge(rest) == seq![a as int] + merge(run.skip(j + 1)));
                }
            }
            out.push(a);
            j += 1;
            proof {
                assert(ints(out@) == ints(before).push(a as int));
                assert(run[j - 1] == a as int);
                assert(ints(out@) + merge(run.skip(j as int)) == ints(before) + merge(rest));
            }
        }
    }
    proof {
        assert(run.skip(m as int) == Seq::<int>::empty());
        assert(ints(out@) == merge(run));
    }
    let ghost merged: Seq<int> = merge(run);
    while out.len() < n
        invariant
            n == src.len(),
            merged.len() <= n,
            merged.len() <= out@.len() <= n,
            forall|k: int| 0 <= k < out@.len() ==> out@[k] as int == pad(merged, n as nat)[k],
            all_tiles(src) ==> all_tiles(ints(out@)),
        decreases n - out@.len(),
    {
        let ghost before = out@;
        out.push(0);
        proof {
            assert(ints(out@) == ints(before).push(0));
        }
    }
    proof {
        assert(ints(out@) == pad(merged, n as nat));
    }
    Some(out)
}

/// The line holds no empty cell and no two equal neighbours.
pub open spec fn saturated(s: Seq<int>) -> bool {
    &&& forall|i: int| 0 <= i < s.len() ==> (#[trigger] s[i]) != 0
    &&& forall|i: int| 0 <= i < s.len() - 1 ==> (#[trigger] s[i]) != s[i + 1]
}

/// A line without empty cells has no gaps to drop.
pub proof fn lemma_compact_full(s: Seq<int>)
    requires
        forall|i: int| 0 <= i < s.len() ==> (#[trigger] s[i]) != 0,
    ensures
        compact(s) == s,
    decreases s.len(),
{
    if s.len() > 0 {
        lemma_compact_full(s.drop_last());
        assert(s.drop_last().push(s.last()) == s);
    }
}

/// Tiles that differ from their neighbours do not merge.
pub proof fn lemma_merge_distinct(t: Seq<int>)
    requires
        forall|i: int| 0 <= i < t.len() - 1 ==> (#[trigger] t[i]) != t[i + 1],
    ensures
        merge(t) == t,
    decreases t.len(),
{
    if t.len() >= 2 {
        let rest = t.skip(1);
        assert forall|i: int| 0 <= i < rest.len() - 1 implies (#[trigger] rest[i]) != rest[i
            + 1] by {
            assert(t[i + 1] != t[i + 2]);
        }
        lemma_merge_distinct(rest);
        assert(t[0] != t[1]);
        assert(seq![t[0]] + rest == t);
    }
}

/// Sliding a saturated line leaves it as it is.
pub proof fn lemma_saturated_line_fixed(s: Seq<int>)
    requires
        saturated(s),
    ensures
        slide(s) == s,
{
    lemma_compact_full(s);
    lemma_merge_distinct(s);
    assert(pad(s, s.len()) == s);
}

/// The tiles of a line without its gaps lie within the bounds of the line.
pub proof fn lemma_compact_bounds(s: Seq<int>, low: int, high: int)
    requires
        forall|i: int| 0 <= i < s.len() ==> low <= #[trigger] s[i] <= high,
    ensures
        forall|i: int| 0 <= i < compact(s).len() ==> low <= #[trigger] compact(s)[i] <= high,
    decreases s.len(),
{
    if s.len() > 0 {
        let front = compact(s.drop_last());
        lemma_compact_bounds(s.drop_last(), low, high);
        assert forall|i: int| 0 <= i < compact(s).len() implies low <= #[trigger] compact(s)[i]
            <= high by {
            if i < front.len() {
                assert(compact(s)[i] == front[i]);
            } else {
                assert(compact(s)[i] == s.last());
                assert(s.last() == s[s.len() - 1]);
            }
        }
    }
}

/// A merged tile is at most twice as large as the largest tile before.
pub proof fn lemma_merge_bounds(t: Seq<int>, high: int)
    requires
        forall|i: int| 0 <= i < t.len() ==> 0 <= #[trigger] t[i] <= high,
    ensures
        forall|i: int| 0 <= i < merge(t).len() ==> 0 <= #[trigger] merge(t)[i] <= 2 * high,
    decreases t.len(),
{
    if t.len() >= 2 {
        let rest = if t[0] == t[1] {
            t.skip(2)
        } else {
            t.skip(1)
        };
        assert forall|i: int| 0 <= i < rest.len() implies 0 <= #[trigger] rest[i] <= high by {
            assert(rest[i] == t[i + (t.len() - rest.len())]);
        }
        lemma_merge_bounds(rest, high);
        assert(0 <= t[0] <= high && 0 <= t[1] <= high);
        assert forall|i: int| 0 <= i < merge(t).len() implies 0 <= #[trigger] merge(t)[i] <= 2
            * high by {
            if i > 0 {
                assert(merge(t)[i] == merge(rest)[i - 1]);
            }
        }
    }
}

/// Where every tile can be doubled, whatever the slide makes of the line
/// fits.
pub proof fn lemma_mergeable_fits(s: Seq<int>)
    requires
        mergeable(s),
    ensures
        fits(slide(s)),
{
    lemma_compact_bounds(s, 0, MAX_MERGEABLE as int);
    lemma_merge_bounds(compact(s), MAX_MERGEABLE as int);
}

/// The sum of the values of a line.
pub open spec fn total(s: Seq<int>) -> int
    decreases s.len(),
{
    if s.len() == 0 {
        0
    } else {
        total(s.drop_last()) + s.last()
    }
}

/// The sum of a line is its first value plus the sum of the rest.
pub proof fn lemma_total_from_front(s: Seq<int>)
    requires
        s.len() > 0,
    ensures
        total(s) == s[0] + total(s.skip(1)),
    decreases s.len(),
{
    if s.len() == 1 {
        assert(s.drop_last() == Seq::<int>::empty());
        assert(s.skip(1) == Seq::<int>::empty());
    } else {
        lemma_total_from_front(s.drop_last());
        assert(s.drop_last().skip(1) == s.skip(1).drop_last());
        assert(s.skip(1).last() == s.last());
    }
}

/// Dropping the gaps of a line keeps its sum.
pub proof fn lemma_compact_keeps_total(s: Seq<int>)
    ensures
        total(compact(s)) == total(s),
    decreases s.len(),
{
    if s.len() > 0 {
        lemma_compact_keeps_total(s.drop_last());
        if s.last() != 0 {
            let front = compact(s.drop_last());
            assert(front.push(s.last()).drop_last() == front);
        }
    }
}

/// Merging keeps the sum of the tiles.
pub proof fn lemma_merge_keeps_total(t: Seq<int>)
    ensures
        total(merge(t)) == total(t),
    decreases t.len(),
{
    if t.len() >= 2 {
        lemma_total_from_front(t);
        lemma_total_from_front(merge(t));
        if t[0] == t[1] {
            lemma_merge_keeps_total(t.skip(2));
            lemma_total_from_front(t.skip(1));
            assert(t.skip(1).skip(1) == t.skip(2));
            assert(merge(t).skip(1) == merge(t.skip(2)));
        } else {
            lemma_merge_keeps_total(t.skip(1));
            assert(merge(t).skip(1) == merge(t.skip(1)));
        }
    }
}

/// Empty cells behind a run of tiles add nothing to its sum.
pub proof fn lemma_pad_keeps_total(t: Seq<int>, n: nat)
    requires
        t.len() <= n,
    ensures
        total(pad(t, n)) == total(t),
    decreases n,
{
    if n > t.len() {
        lemma_pad_keeps_total(t, (n - 1) as nat);
        assert(pad(t, n).drop_last() == pad(t, (n - 1) as nat));
    } else {
        assert(pad(t, n) == t);
    }
}

/// Dropping gaps never lengthens a line.
pub proof fn lemma_compact_length(s: Seq<int>)
    ensures
        compact(s).len() <= s.len(),
    decreases s.len(),
{
    if s.len() > 0 {
        lemma_compact_length(s.drop_last());
    }
}

/// Merging never lengthens a run of tiles.
pub proof fn lemma_merge_length(t: Seq<int>)
    ensures
        merge(t).len() <= t.len(),
    decreases t.len(),
{
    if t.len() >= 2 {
        if t[0] == t[1] {
            lemma_merge_length(t.skip(2));
        } else {
            lemma_merge_length(t.skip(1));
        }
    }
}

/// A slide moves and merges tiles but keeps the sum of the line.
pub proof fn lemma_slide_keeps_total(s: Seq<int>)
    ensures
        total(slide(s)) == total(s),
{
    lemma_compact_keeps_total(s);
    lemma_merge_keeps_total(compact(s));
    lemma_compact_length(s);
    lemma_merge_length(compact(s));
    lemma_pad_keeps_total(merge(compact(s)), s.len());
}

/// No tile is left among the gaps that a line has dropped.
pub proof fn lemma_compact_nonzero(s: Seq<int>)
    ensures
        forall|i: int| 0 <= i < compact(s).len() ==> (#[trigger] compact(s)[i]) != 0,
    decreases s.len(),
{
    if s.len() > 0 {
        let front = compact(s.drop_last());
        lemma_compact_nonzero(s.drop_last());
        assert forall|i: int| 0 <= i < compact(s).len() implies (#[trigger] compact(s)[i])
            != 0 by {
            if i < front.len() {
                assert(compact(s)[i] == front[i]);
            }
        }
    }
}

/// Merging tiles makes no empty cell.
pub proof fn lemma_merge_nonzero(t: Seq<int>)
    requires
        forall|i: int| 0 <= i < t.len() ==> (#[trigger] t[i]) != 0,
    ensures
        forall|i: int| 0 <= i < merge(t).len() ==> (#[trigger] merge(t)[i]) != 0,
    decreases t.len(),
{
    if t.len() >= 2 {
        let rest = if t[0] == t[1] {
            t.skip(2)
        } else {
            t.skip(1)
        };
        assert forall|i: int| 0 <= i < rest.len() implies (#[trigger] rest[i]) != 0 by {
            assert(rest[i] == t[i + (t.len() - rest.len())]);
        }
        lemma_merge_nonzero(rest);
        assert(t[0] != 0 && t[1] != 0);
        assert forall|i: int| 0 <= i < merge(t).len() implies (#[trigger] merge(t)[i]) != 0 by {
            if i > 0 {
                assert(merge(t)[i] == merge(rest)[i - 1]);
            }
        }
    }
}

/// After a slide no tile lies behind an empty cell: the tiles stand at the
/// front of the line without a gap.
pub proof fn lemma_slide_leaves_no_gap(s: Seq<int>, i: int, j: int)
    requires
        0 <= i < j < s.len(),
        slide(s)[i] == 0,
    ensures
        slide(s)[j] == 0,
{
    lemma_compact_nonzero(s);
    lemma_merge_nonzero(compact(s));
}

/// A run of tiles in which two neighbours are equal gets shorter when it is
/// merged.
pub proof fn lemma_merge_shrinks(t: Seq<int>, i: int)
    requires
        0 <= i < t.len() - 1,
        t[i] == t[i + 1],
    ensures
        merge(t).len() < t.len(),
    decreases t.len(),
{
    if t[0] == t[1] {
        lemma_merge_length(t.skip(2));
    } else {
        let rest = t.skip(1);
        assert(rest[i - 1] == t[i] && rest[i] == t[i + 1]);
        lemma_merge_shrinks(rest, i - 1);
    }
}

/// A line without empty cells in which two neighbours are equal does not
/// stay as it is: its slide frees the last cell.
pub proof fn lemma_full_line_with_pair_moves(s: Seq<int>, i: int)
    requires
        forall|k: int| 0 <= k < s.len() ==> (#[trigger] s[k]) != 0,
        0 <= i < s.len() - 1,
        s[i] == s[i + 1],
    ensures
        slide(s)[s.len() - 1] == 0,
        slide(s) != s,
{
    lemma_compact_full(s);
    lemma_merge_shrinks(s, i);
    assert(s[s.len() - 1] != 0);
}

/// A line with an empty cell right in front of a tile does not stay as it
/// is.
pub proof fn lemma_gap_before_tile_moves(s: Seq<int>, j: int)
    requires
        0 <= j < s.len() - 1,
        s[j] == 0,
        s[j + 1] != 0,
    ensures
        slide(s) != s,
{
    if slide(s) == s {
        lemma_slide_leaves_no_gap(s, j, j + 1);
    }
}

/// A line that holds an empty cell and a tile holds two neighbours of
/// which exactly one is empty.
pub proof fn lemma_mixed_line_has_edge(s: Seq<int>, a: int, b: int) -> (j: int)
    requires
        0 <= a < s.len(),
        0 <= b < s.len(),
        s[a] == 0,
        s[b] != 0,
    ensures
        0 <= j < s.len() - 1,
        (s[j] == 0) != (s[j + 1] == 0),
    decreases s.len(),
{
    let last = s.len() - 1;
    if (s[last - 1] == 0) != (s[last] == 0) {
        last - 1
    } else {
        let front = s.drop_last();
        let a2 = if a == last {
            last - 1
        } else {
            a
        };
        let b2 = if b == last {
            last - 1
        } else {
            b
        };
        lemma_mixed_line_has_edge(front, a2, b2)
    }
}

/// The line read from its other end.
pub open spec fn reversed(s: Seq<int>) -> Seq<int> {
    Seq::new(s.len(), |i: int| s[s.len() - 1 - i])
}

/// A saturated line is saturated from either end.
pub proof fn lemma_reversed_saturated(s: Seq<int>)
    requires
        saturated(s),
    ensures
        saturated(reversed(s)),
{
    let r = reversed(s);
    assert forall|i: int| 0 <= i < r.len() - 1 implies (#[trigger] r[i]) != r[i + 1] by {
        assert(s[s.len() - 2 - i] != s[s.len() - 2 - i + 1]);
    }
}

/// The sum of a line does not depend on the end it is read from.
pub proof fn lemma_reversed_total(s: Seq<int>)
    ensures
        total(reversed(s)) == total(s),
    decreases s.len(),
{
    if s.len() > 0 {
        lemma_total_from_front(s);
        lemma_reversed_total(s.skip(1));
        assert(reversed(s).drop_last() == reversed(s.skip(1)));
        assert(reversed(s).last() == s[0]);
    } else {
        assert(reversed(s) == s);
    }
}

} // verus!
