//! Resolving regions that may overlap: sorting them, and laying them one
//! over the other in that order.

use crate::memory::{
    lemma_dominates_total_order, lemma_precedes_total_order, lemma_rank_injective, Region,
};
use crate::partition::{
    claimed, covered, is_partition, is_run, is_stretch, lemma_claimed_stays_claimed,
    lemma_highest_rank_keeps, lemma_partition_is_fixed, lemma_same_coverage, resolves, wins_at,
};
use vstd::prelude::*;
use vstd::seq_lib::{
    to_multiset_build, to_multiset_contains, to_multiset_insert, to_multiset_len,
    to_multiset_remove,
};

verus! {

/// Whether the regions of `s` stand in the order in which they are walked
/// ([`Region::precedes`]).
pub open spec fn is_sorted(s: Seq<Region>) -> bool {
    forall|i: int, j: int| 0 <= i < j < s.len() ==> (#[trigger] s[i]).precedes(#[trigger] s[j])
}

/// A partition is sorted.
pub proof fn lemma_partition_is_sorted(p: Seq<Region>)
    requires
        is_partition(p),
    ensures
        is_sorted(p),
{
    assert forall|i: int, j: int| 0 <= i < j < p.len() implies (#[trigger] p[i]).precedes(
        #[trigger] p[j],
    ) by {
        assert(p[i].start < p[i].end);
    }
}

/// There is one way only to sort a list of regions: two sorted lists that
/// hold the same regions, each as often as the other does, are the same
/// list.
pub proof fn lemma_sorted_unique(a: Seq<Region>, b: Seq<Region>)
    requires
        is_sorted(a),
        is_sorted(b),
        a.to_multiset() == b.to_multiset(),
    ensures
        a == b,
    decreases a.len(),
{
    to_multiset_len(a);
    to_multiset_len(b);
    if a.len() == 0 {
        assert(a =~= b);
    } else {
        to_multiset_contains(a, a[0]);
        to_multiset_contains(b, a[0]);
        to_multiset_contains(a, b[0]);
        to_multiset_contains(b, b[0]);
        assert(a.contains(a[0]));
        assert(b.contains(b[0]));
        let j = choose|j: int| 0 <= j < b.len() && b[j] == a[0];
        let i = choose|i: int| 0 <= i < a.len() && a[i] == b[0];
        if i > 0 {
            assert(a[0].precedes(a[i]));
        }
        if j > 0 {
            assert(b[0].precedes(b[j]));
        }
        lemma_precedes_total_order(a[0], b[0], b[0]);
        assert(a[0] == b[0]);
        let ra = a.remove(0);
        let rb = b.remove(0);
        to_multiset_remove(a, 0);
        to_multiset_remove(b, 0);
        assert forall|x: int, y: int| 0 <= x < y < ra.len() implies (#[trigger] ra[x]).precedes(
            #[trigger] ra[y],
        ) by {
            assert(a[x + 1].precedes(a[y + 1]));
        }
        assert forall|x: int, y: int| 0 <= x < y < rb.len() implies (#[trigger] rb[x]).precedes(
            #[trigger] rb[y],
        ) by {
            assert(b[x + 1].precedes(b[y + 1]));
        }
        lemma_sorted_unique(ra, rb);
        assert forall|k: int| 0 <= k < a.len() implies a[k] == b[k] by {
            if k > 0 {
                assert(ra[k - 1] == rb[k - 1]);
            }
        }
        assert(a =~= b);
    }
}

/// Sorts regions into the order in which they are walked.
///
/// The result holds the same regions, each as often as `regions` does,
/// and is sorted; there is one such list only
/// ([`lemma_sorted_unique`]).
pub fn sort_regions(regions: Vec<Region>) -> (sorted: Vec<Region>)
    ensures
        is_sorted(sorted@),
        sorted@.to_multiset() == regions@.to_multiset(),
{
    let n = regions.len();
    let mut sorted: Vec<Region> = Vec::new();
    let mut k: usize = 0;
    proof {
        assert(sorted@ =~= regions@.take(0));
    }
    while k < n
        invariant
            k <= n,
            n == regions@.len(),
            is_sorted(sorted@),
            sorted@.len() == k,
            sorted@.to_multiset() == regions@.take(k as int).to_multiset(),
        decreases n - k,
    {
        let r = regions[k];
        let mut j: usize = sorted.len();
        while j > 0 && !sorted[j - 1].sorts_before(&r)
            invariant
                j <= sorted@.len(),
                forall|i: int| j <= i < sorted@.len() ==> r.precedes(#[trigger] sorted@[i]),
            decreases j,
        {
            proof {
                lemma_precedes_total_order(sorted@[j - 1], r, r);
            }
            j -= 1;
        }
        proof {
            let t = sorted@.insert(j as int, r);
            assert forall|a: int, b: int| 0 <= a < b < t.len() implies (#[trigger] t[a]).precedes(
                #[trigger] t[b],
            ) by {
                if b == j {
                    if a < j - 1 {
                        assert(sorted@[a].precedes(sorted@[j - 1]));
                    }
                    lemma_precedes_total_order(sorted@[a], sorted@[j - 1], r);
                } else if a == j {
                    assert(r.precedes(sorted@[b - 1]));
                } else if a < j && j < b {
                    assert(sorted@[a].precedes(sorted@[b - 1]));
                } else if b < j {
                    assert(sorted@[a].precedes(sorted@[b]));
                } else {
                    assert(sorted@[a - 1].precedes(sorted@[b - 1]));
                }
            }
            to_multiset_insert(sorted@, j as int, r);
            to_multiset_build(regions@.take(k as int), r);
            assert(regions@.take(k as int).push(r) =~= regions@.take(k + 1));
        }
        sorted.insert(j, r);
        k += 1;
    }
    proof {
        assert(regions@.take(n as int) =~= regions@);
    }
    sorted
}

/// Whether every region of `s` with the type of `r` is dominated by `r`.
spec fn tops_its_type(s: Seq<Region>, r: Region) -> bool {
    forall|i: int| 0 <= i < s.len() && (#[trigger] s[i]).typ == r.typ ==> r.dominates(s[i])
}

/// A partition stays one when a region that begins where, or after, its
/// last entry ends is added at its end.
proof fn lemma_partition_push(p: Seq<Region>, g: Region)
    requires
        is_partition(p),
        g.start < g.end,
        p.len() > 0 ==> p.last().end <= g.start,
    ensures
        is_partition(p.push(g)),
{
    let longer = p.push(g);
    assert forall|i: int, j: int| 0 <= i < j < longer.len() implies (#[trigger] longer[i]).end <= (
    #[trigger] longer[j]).start by {
        if j == p.len() && i < p.len() - 1 {
            assert(p[i].end <= p[p.len() - 1].start);
        }
    }
}

/// A list with one more region covers what the list covered and what the
/// region covers.
proof fn lemma_covered_push(p: Seq<Region>, g: Region, x: int)
    ensures
        covered(p, x) ==> covered(p.push(g), x),
        g.covers(x) ==> covered(p.push(g), x),
{
    let longer = p.push(g);
    if covered(p, x) {
        let i = choose|i: int| 0 <= i < p.len() && #[trigger] p[i].covers(x);
        assert(longer[i].covers(x));
    }
    if g.covers(x) {
        assert(longer[p.len() as int].covers(x));
    }
}

/// A region that wins an address among more regions wins it among fewer.
proof fn lemma_wins_before_push(s: Seq<Region>, r: Region, q: Region, x: int)
    requires
        wins_at(s.push(r), q, x),
        s.contains(q),
    ensures
        wins_at(s, q, x),
{
    let s2 = s.push(r);
    assert forall|i: int| 0 <= i < s.len() && #[trigger] s[i].covers(x) implies q.dominates(
        s[i],
    ) by {
        assert(s2[i].covers(x));
    }
}

/// A winner stays the winner when the added region does not cover the
/// address or is of lower rank.
proof fn lemma_wins_after_push(s: Seq<Region>, r: Region, q: Region, x: int)
    requires
        wins_at(s, q, x),
        !r.covers(x) || q.typ.rank() > r.typ.rank(),
    ensures
        wins_at(s.push(r), q, x),
{
    let s2 = s.push(r);
    let k = choose|k: int| 0 <= k < s.len() && s[k] == q;
    assert(s2[k] == q);
    assert forall|i: int| 0 <= i < s2.len() && #[trigger] s2[i].covers(x) implies q.dominates(
        s2[i],
    ) by {
        if i < s.len() {
            assert(s[i].covers(x));
        }
    }
}

/// A stretch stays what it was when the added region does not reach it or
/// is of lower rank.
proof fn lemma_keep(s: Seq<Region>, r: Region, f: Region, q: Region)
    requires
        is_run(s, f, q),
        r.is_void() || f.end <= r.start || r.end <= f.start || f.typ.rank() > r.typ.rank(),
    ensures
        is_run(s.push(r), f, q),
{
    let s2 = s.push(r);
    assert(f.covers(f.start as int));
    assert(wins_at(s, q, f.start as int));
    assert forall|x: int| #[trigger] f.covers(x) implies wins_at(s2, q, x) by {
        lemma_wins_after_push(s, r, q, x);
    }
    if wins_at(s2, q, f.start - 1) {
        lemma_wins_before_push(s, r, q, f.start - 1);
    }
    if wins_at(s2, q, f.end as int) {
        lemma_wins_before_push(s, r, q, f.end as int);
    }
}

/// What is left of a stretch before an added region that takes its
/// addresses from `r.start` on.
proof fn lemma_left(s: Seq<Region>, r: Region, f: Region, q: Region)
    requires
        is_run(s, f, q),
        f.start < r.start < f.end,
        r.start < r.end,
        f.typ.rank() <= r.typ.rank(),
    ensures
        is_run(s.push(r), Region { start: f.start, end: r.start, typ: f.typ }, q),
{
    let s2 = s.push(r);
    let g = Region { start: f.start, end: r.start, typ: f.typ };
    assert(f.covers(f.start as int));
    assert(wins_at(s, q, f.start as int));
    assert forall|x: int| #[trigger] g.covers(x) implies wins_at(s2, q, x) by {
        assert(f.covers(x));
        lemma_wins_after_push(s, r, q, x);
    }
    if wins_at(s2, q, g.start - 1) {
        lemma_wins_before_push(s, r, q, g.start - 1);
    }
    if wins_at(s2, q, g.end as int) {
        assert(s2[s.len() as int].covers(g.end as int));
        assert(q.dominates(r));
    }
}

/// What is left of a stretch behind an added region that takes its
/// addresses up to `r.end`.
proof fn lemma_right(s: Seq<Region>, r: Region, f: Region, q: Region)
    requires
        is_run(s, f, q),
        f.start < r.end < f.end,
        r.start < r.end,
        f.typ.rank() <= r.typ.rank(),
        tops_its_type(s, r),
    ensures
        is_run(s.push(r), Region { start: r.end, end: f.end, typ: f.typ }, q),
{
    let s2 = s.push(r);
    let g = Region { start: r.end, end: f.end, typ: f.typ };
    assert(f.covers(f.end - 1));
    assert(wins_at(s, q, f.end - 1));
    assert forall|x: int| #[trigger] g.covers(x) implies wins_at(s2, q, x) by {
        assert(f.covers(x));
        lemma_wins_after_push(s, r, q, x);
    }
    if wins_at(s2, q, g.end as int) {
        lemma_wins_before_push(s, r, q, g.end as int);
    }
    if wins_at(s2, q, g.start - 1) {
        assert(s2[s.len() as int].covers(g.start - 1));
        assert(q.dominates(r));
        if q.typ.rank() == r.typ.rank() {
            lemma_rank_injective(q.typ, r.typ);
            let k = choose|k: int| 0 <= k < s.len() && s[k] == q;
            assert(r.dominates(s[k]));
            lemma_dominates_total_order(q, r, r);
        }
    }
}

/// A stretch of the added region between stretches of higher rank.
proof fn lemma_piece(s: Seq<Region>, r: Region, p: Seq<Region>, a: u64, b: u64)
    requires
        resolves(p, s),
        tops_its_type(s, r),
        r.start <= a < b <= r.end,
        forall|j: int, x: int|
            0 <= j < p.len() && a <= x < b && #[trigger] p[j].covers(x) ==> p[j].typ.rank()
                <= r.typ.rank(),
        a == r.start || exists|j: int|
            0 <= j < p.len() && (#[trigger] p[j]).typ.rank() > r.typ.rank() && p[j].end == a,
        b == r.end || exists|j: int|
            0 <= j < p.len() && (#[trigger] p[j]).typ.rank() > r.typ.rank() && p[j].start == b,
    ensures
        is_run(s.push(r), Region { start: a, end: b, typ: r.typ }, r),
{
    let s2 = s.push(r);
    let g = Region { start: a, end: b, typ: r.typ };
    assert(s2[s.len() as int] == r);
    assert forall|x: int| #[trigger] g.covers(x) implies wins_at(s2, r, x) by {
        assert forall|i: int| 0 <= i < s2.len() && #[trigger] s2[i].covers(x) implies r.dominates(
            s2[i],
        ) by {
            if i < s.len() {
                assert(s[i].covers(x));
                assert(covered(s, x));
                assert(covered(p, x));
                let j = choose|j: int| 0 <= j < p.len() && #[trigger] p[j].covers(x);
                let q = choose|q: Region| is_run(s, p[j], q);
                assert(wins_at(s, q, x));
                assert(q.dominates(s[i]));
                if q.typ.rank() == r.typ.rank() {
                    lemma_rank_injective(q.typ, r.typ);
                    let k = choose|k: int| 0 <= k < s.len() && s[k] == q;
                    assert(r.dominates(s[k]));
                }
                lemma_dominates_total_order(r, q, s[i]);
            }
        }
    }
    if wins_at(s2, r, a - 1) {
        let j = choose|j: int|
            0 <= j < p.len() && (#[trigger] p[j]).typ.rank() > r.typ.rank() && p[j].end == a;
        let q = choose|q: Region| is_run(s, p[j], q);
        assert(p[j].covers(a - 1));
        assert(wins_at(s, q, a - 1));
        let k = choose|k: int| 0 <= k < s.len() && s[k] == q;
        assert(s2[k].covers(a - 1));
    }
    if wins_at(s2, r, b as int) {
        let j = choose|j: int|
            0 <= j < p.len() && (#[trigger] p[j]).typ.rank() > r.typ.rank() && p[j].start == b;
        let q = choose|q: Region| is_run(s, p[j], q);
        assert(p[j].covers(b as int));
        assert(wins_at(s, q, b as int));
        let k = choose|k: int| 0 <= k < s.len() && s[k] == q;
        assert(s2[k].covers(b as int));
    }
}

/// A region that holds no address changes nothing.
proof fn lemma_void(out: Seq<Region>, s: Seq<Region>, r: Region)
    requires
        resolves(out, s),
        r.is_void(),
    ensures
        resolves(out, s.push(r)),
{
    let s2 = s.push(r);
    assert forall|i: int| 0 <= i < out.len() implies is_stretch(s2, #[trigger] out[i]) by {
        let q = choose|q: Region| is_run(s, out[i], q);
        lemma_keep(s, r, out[i], q);
    }
    assert forall|x: int| #[trigger] covered(s2, x) implies covered(out, x) by {
        let i = choose|i: int| 0 <= i < s2.len() && #[trigger] s2[i].covers(x);
        assert(s[i].covers(x));
        assert(covered(s, x));
    }
}

/// Lays the region `r` over the partition `p` that the regions of `s`
/// resolve to: `r` takes the addresses it covers from every stretch of
/// its own or a lower rank, and leaves those of a higher rank alone.
fn overlay(p: &Vec<Region>, r: Region, Ghost(s): Ghost<Seq<Region>>) -> (res: Vec<Region>)
    requires
        resolves(p@, s),
        tops_its_type(s, r),
        r.start < r.end,
    ensures
        resolves(res@, s.push(r)),
{
    let ghost s2 = s.push(r);
    let n = p.len();
    let rank: u8 = r.typ.priority();
    let mut res: Vec<Region> = Vec::new();
    let mut i: usize = 0;
    // The stretches that end before `r` begins.
    while i < n && p[i].end <= r.start
        invariant
            i <= n,
            n == p@.len(),
            resolves(p@, s),
            s2 == s.push(r),
            is_partition(res@),
            forall|k: int| 0 <= k < res@.len() ==> is_stretch(s2, #[trigger] res@[k]),
            res@.len() > 0 ==> res@.last().end <= r.start,
            i < n && res@.len() > 0 ==> res@.last().end <= p@[i as int].start,
            forall|j: int, x: int|
                0 <= j < i && #[trigger] p@[j].covers(x) ==> covered(res@, x) && !r.covers(x),
        decreases n - i,
    {
        let f = p[i];
        proof {
            let q = choose|q: Region| is_run(s, p@[i as int], q);
            lemma_keep(s, r, f, q);
            lemma_partition_push(res@, f);
            assert forall|j: int, x: int| 0 <= j < i + 1 && #[trigger] p@[j].covers(
                x,
            ) implies covered(res@.push(f), x) && !r.covers(x) by {
                lemma_covered_push(res@, f, x);
            }
            if i + 1 < n {
                assert(p@[i as int].end <= p@[i + 1].start);
            }
        }
        res.push(f);
        i += 1;
    }
    // The stretches that share addresses with `r`. Everything below `pos`
    // is settled; `r` is still owed the addresses from `pos` on.
    let mut pos: u64 = r.start;
    let ghost mut h: int = -1;
    while i < n && p[i].start < r.end
        invariant
            i <= n,
            n == p@.len(),
            resolves(p@, s),
            tops_its_type(s, r),
            s2 == s.push(r),
            r.start < r.end,
            rank as nat == r.typ.rank(),
            is_partition(res@),
            forall|k: int| 0 <= k < res@.len() ==> is_stretch(s2, #[trigger] res@[k]),
            r.start <= pos,
            res@.len() > 0 ==> res@.last().end <= pos,
            i < n && res@.len() > 0 ==> res@.last().end <= p@[i as int].start,
            i < n ==> p@[i as int].end > r.start,
            pos == r.start || (i < n ==> pos <= p@[i as int].start),
            pos < r.end ==> pos == r.start || (0 <= h < n && p@[h].typ.rank() > r.typ.rank()
                && p@[h].end == pos),
            forall|j: int, x: int|
                0 <= j < i && x >= pos && #[trigger] p@[j].covers(x) ==> p@[j].typ.rank()
                    <= r.typ.rank(),
            forall|j: int, x: int|
                0 <= j < i && #[trigger] p@[j].covers(x) ==> covered(res@, x) || (pos <= x
                    && r.covers(x)),
            forall|x: int| #[trigger] r.covers(x) && x < pos ==> covered(res@, x),
        decreases n - i,
    {
        let f = p[i];
        let ghost q = choose|q: Region| is_run(s, p@[i as int], q);
        let ghost res0 = res@;
        let ghost pos0 = pos;
        proof {
            if i + 1 < n {
                assert(p@[i as int].end <= p@[i + 1].start);
            }
        }
        if f.typ.priority() > rank {
            if pos < f.start {
                let g = Region { start: pos, end: f.start, typ: r.typ };
                proof {
                    assert forall|j: int, x: int|
                        0 <= j < p@.len() && pos <= x < f.start && #[trigger] p@[j].covers(
                            x,
                        ) implies p@[j].typ.rank() <= r.typ.rank() by {
                        if j > i {
                            assert(p@[i as int].end <= p@[j].start);
                        }
                    }
                    lemma_piece(s, r, p@, pos, f.start);
                    lemma_partition_push(res@, g);
                }
                res.push(g);
            }
            proof {
                lemma_keep(s, r, f, q);
                lemma_partition_push(res@, f);
            }
            let ghost res1 = res@;
            res.push(f);
            pos = f.end;
            proof {
                h = i as int;
                assert forall|x: int| covered(res0, x) implies covered(res@, x) by {
                    if pos0 < f.start {
                        lemma_covered_push(
                            res0,
                            Region { start: pos0, end: f.start, typ: r.typ },
                            x,
                        );
                    }
                    lemma_covered_push(res1, f, x);
                }
                assert forall|x: int| pos0 <= x < f.end && r.covers(x) implies covered(
                    res@,
                    x,
                ) by {
                    if x < f.start {
                        let g = Region { start: pos0, end: f.start, typ: r.typ };
                        assert(g.covers(x));
                        lemma_covered_push(res0, g, x);
                    }
                    lemma_covered_push(res1, f, x);
                }
            }
        } else {
            if f.start < r.start {
                let g = Region { start: f.start, end: r.start, typ: f.typ };
                proof {
                    lemma_left(s, r, f, q);
                    lemma_partition_push(res@, g);
                }
                res.push(g);
            }
            let ghost res1 = res@;
            proof {
                assert forall|x: int| covered(res0, x) implies covered(res1, x) by {
                    if f.start < r.start {
                        lemma_covered_push(
                            res0,
                            Region { start: f.start, end: r.start, typ: f.typ },
                            x,
                        );
                    }
                }
                assert forall|x: int| f.covers(x) && x < r.start implies covered(res1, x) by {
                    let g = Region { start: f.start, end: r.start, typ: f.typ };
                    assert(g.covers(x));
                    lemma_covered_push(res0, g, x);
                }
            }
            if r.end < f.end {
                let g1 = Region { start: pos, end: r.end, typ: r.typ };
                proof {
                    assert forall|j: int, x: int|
                        0 <= j < p@.len() && pos <= x < r.end && #[trigger] p@[j].covers(
                            x,
                        ) implies p@[j].typ.rank() <= r.typ.rank() by {
                        if j > i {
                            assert(p@[i as int].end <= p@[j].start);
                        }
                    }
                    lemma_piece(s, r, p@, pos, r.end);
                    lemma_partition_push(res@, g1);
                }
                res.push(g1);
                let ghost res2 = res@;
                let g2 = Region { start: r.end, end: f.end, typ: f.typ };
                proof {
                    lemma_right(s, r, f, q);
                    lemma_partition_push(res@, g2);
                }
                res.push(g2);
                pos = f.end;
                proof {
                    assert forall|x: int| covered(res1, x) implies covered(res@, x) by {
                        lemma_covered_push(res1, g1, x);
                        lemma_covered_push(res2, g2, x);
                    }
                    assert forall|x: int| pos0 <= x < f.end implies covered(res@, x) by {
                        if x < r.end {
                            assert(g1.covers(x));
                        } else {
                            assert(g2.covers(x));
                        }
                        lemma_covered_push(res1, g1, x);
                        lemma_covered_push(res2, g2, x);
                    }
                }
            }
        }
        i += 1;
    }
    if pos < r.end {
        let g = Region { start: pos, end: r.end, typ: r.typ };
        let ghost res0 = res@;
        proof {
            assert forall|j: int, x: int|
                0 <= j < p@.len() && pos <= x < r.end && #[trigger] p@[j].covers(
                    x,
                ) implies p@[j].typ.rank() <= r.typ.rank() by {
                if j > i {
                    assert(p@[i as int].end <= p@[j].start);
                }
            }
            lemma_piece(s, r, p@, pos, r.end);
            lemma_partition_push(res@, g);
        }
        res.push(g);
        proof {
            assert forall|j: int, x: int| 0 <= j < i && #[trigger] p@[j].covers(
                x,
            ) implies covered(res@, x) by {
                if !covered(res0, x) {
                    assert(g.covers(x));
                }
                lemma_covered_push(res0, g, x);
            }
            assert forall|x: int| #[trigger] r.covers(x) implies covered(res@, x) by {
                if x >= pos {
                    assert(g.covers(x));
                }
                lemma_covered_push(res0, g, x);
            }
        }
    }
    // The stretches that begin where `r` has ended.
    while i < n
        invariant
            i <= n,
            n == p@.len(),
            resolves(p@, s),
            s2 == s.push(r),
            r.start < r.end,
            is_partition(res@),
            forall|k: int| 0 <= k < res@.len() ==> is_stretch(s2, #[trigger] res@[k]),
            i < n ==> r.end <= p@[i as int].start,
            i < n && res@.len() > 0 ==> res@.last().end <= p@[i as int].start,
            forall|j: int, x: int| 0 <= j < i && #[trigger] p@[j].covers(x) ==> covered(res@, x),
            forall|x: int| #[trigger] r.covers(x) ==> covered(res@, x),
        decreases n - i,
    {
        let f = p[i];
        proof {
            let q = choose|q: Region| is_run(s, p@[i as int], q);
            lemma_keep(s, r, f, q);
            lemma_partition_push(res@, f);
            assert forall|j: int, x: int| 0 <= j < i + 1 && #[trigger] p@[j].covers(
                x,
            ) implies covered(res@.push(f), x) by {
                lemma_covered_push(res@, f, x);
            }
            assert forall|x: int| #[trigger] r.covers(x) implies covered(res@.push(f), x) by {
                lemma_covered_push(res@, f, x);
            }
            if i + 1 < n {
                assert(p@[i as int].end <= p@[i + 1].start);
            }
        }
        res.push(f);
        i += 1;
    }
    proof {
        assert forall|x: int| #[trigger] covered(s2, x) implies covered(res@, x) by {
            let k = choose|k: int| 0 <= k < s2.len() && #[trigger] s2[k].covers(x);
            if k < s.len() {
                assert(s[k].covers(x));
                assert(covered(s, x));
                assert(covered(p@, x));
            }
        }
    }
    res
}

/// Resolves the overlaps in a sorted list of regions.
///
/// The result is the partition that the regions resolve to. Its entries
/// hold at least one address each, stand in ascending order and share no
/// address. It holds the addresses that the regions cover and no others.
/// Each address is in the entry of the region that dominates the others
/// covering it, so no region that covers an address outranks the entry
/// that holds it, and what was of type `Loader` or `Module` stays so.
/// Regions that hold no address leave no trace. A list that is a
/// partition already comes back unchanged.
pub fn fix_overlap(regions: Vec<Region>) -> (out: Vec<Region>)
    requires
        regions@.len() > 0,
        is_sorted(regions@),
    ensures
        resolves(out@, regions@),
        is_partition(out@),
        is_sorted(out@),
        forall|x: int| covered(out@, x) <==> covered(regions@, x),
        forall|x: int| claimed(out@, x) <==> claimed(regions@, x),
        forall|i: int, j: int, x: int|
            0 <= i < out@.len() && 0 <= j < regions@.len() && #[trigger] out@[i].covers(x)
                && #[trigger] regions@[j].covers(x) ==> regions@[j].typ.rank()
                <= out@[i].typ.rank(),
        is_partition(regions@) ==> out@ == regions@,
{
    let n = regions.len();
    let mut out: Vec<Region> = Vec::new();
    let mut k: usize = 0;
    while k < n
        invariant
            k <= n,
            n == regions@.len(),
            is_sorted(regions@),
            resolves(out@, regions@.take(k as int)),
        decreases n - k,
    {
        let r = regions[k];
        let ghost s = regions@.take(k as int);
        proof {
            assert(s.push(r) =~= regions@.take(k + 1));
        }
        if r.start < r.end {
            proof {
                assert forall|i: int| 0 <= i < s.len() && (#[trigger] s[i]).typ
                    == r.typ implies r.dominates(s[i]) by {
                    assert(regions@[i].precedes(regions@[k as int]));
                }
            }
            out = overlay(&out, r, Ghost(s));
        } else {
            proof {
                lemma_void(out@, s, r);
            }
        }
        k += 1;
    }
    proof {
        assert(regions@.take(n as int) =~= regions@);
        lemma_partition_is_sorted(out@);
        lemma_same_coverage(out@, regions@);
        lemma_claimed_stays_claimed(out@, regions@);
        assert forall|i: int, j: int, x: int|
            0 <= i < out@.len() && 0 <= j < regions@.len() && #[trigger] out@[i].covers(x)
                && #[trigger] regions@[j].covers(x) implies regions@[j].typ.rank()
            <= out@[i].typ.rank() by {
            lemma_highest_rank_keeps(out@, regions@, i, x);
        }
        if is_partition(regions@) {
            lemma_partition_is_fixed(out@, regions@);
        }
    }
    out
}

} // verus!
