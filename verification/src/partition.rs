//! What it means to resolve regions that may overlap into a partition of
//! the addresses they cover.
//!
//! Every covered address goes to the region that dominates all others
//! covering it ([`Region::dominates`]). The partition lists, in ascending
//! order, the maximal stretches of addresses that go to one and the same
//! region, each with that region's type.

use crate::memory::{lemma_dominates_total_order, Region};
use vstd::prelude::*;

verus! {

/// Whether some region of `s` covers address `x`.
pub open spec fn covered(s: Seq<Region>, x: int) -> bool {
    exists|i: int| 0 <= i < s.len() && #[trigger] s[i].covers(x)
}

/// Whether some region of `s` that the kernel has claimed for itself (of
/// type `Loader` or `Module`) covers address `x`.
pub open spec fn claimed(s: Seq<Region>, x: int) -> bool {
    exists|i: int| 0 <= i < s.len() && #[trigger] s[i].covers(x) && s[i].typ.is_claimed()
}

/// Whether `r` is the region of `s` that keeps address `x`: it covers `x`
/// and dominates every region of `s` that does.
pub open spec fn wins_at(s: Seq<Region>, r: Region, x: int) -> bool {
    &&& s.contains(r)
    &&& r.covers(x)
    &&& forall|i: int| 0 <= i < s.len() && #[trigger] s[i].covers(x) ==> r.dominates(s[i])
}

/// Whether `f` is a maximal stretch of addresses that `r` keeps among the
/// regions of `s`, with the type of `r`.
pub open spec fn is_run(s: Seq<Region>, f: Region, r: Region) -> bool {
    &&& f.typ == r.typ
    &&& f.start < f.end
    &&& forall|x: int| #[trigger] f.covers(x) ==> wins_at(s, r, x)
    &&& !wins_at(s, r, f.start - 1)
    &&& !wins_at(s, r, f.end as int)
}

/// Whether `f` is a maximal stretch of addresses that one region of `s`
/// keeps, with that region's type.
pub open spec fn is_stretch(s: Seq<Region>, f: Region) -> bool {
    exists|r: Region| is_run(s, f, r)
}

/// Whether `p` is a list of regions that hold at least one address each,
/// in ascending order, no two of them sharing an address.
pub open spec fn is_partition(p: Seq<Region>) -> bool {
    &&& forall|i: int| 0 <= i < p.len() ==> (#[trigger] p[i]).start < p[i].end
    &&& forall|i: int, j: int|
        0 <= i < j < p.len() ==> (#[trigger] p[i]).end <= (#[trigger] p[j]).start
}

/// Whether `out` is the partition that the regions of `s` resolve to: a
/// partition whose every entry is a maximal stretch kept by one region of
/// `s`, and which leaves out no address that `s` covers.
pub open spec fn resolves(out: Seq<Region>, s: Seq<Region>) -> bool {
    &&& is_partition(out)
    &&& forall|i: int| 0 <= i < out.len() ==> is_stretch(s, #[trigger] out[i])
    &&& forall|x: int| #[trigger] covered(s, x) ==> covered(out, x)
}

/// The partition holds every address that the regions cover, and no
/// other.
pub proof fn lemma_same_coverage(out: Seq<Region>, s: Seq<Region>)
    requires
        resolves(out, s),
    ensures
        forall|x: int| covered(out, x) <==> covered(s, x),
{
    assert forall|x: int| covered(out, x) implies covered(s, x) by {
        let i = choose|i: int| 0 <= i < out.len() && #[trigger] out[i].covers(x);
        let q = choose|q: Region| is_run(s, out[i], q);
        assert(wins_at(s, q, x));
        let k = choose|k: int| 0 <= k < s.len() && s[k] == q;
        assert(s[k].covers(x));
    }
    assert forall|x: int| covered(s, x) implies covered(out, x) by {}
}

/// The entries of a partition stand in ascending order of their start
/// addresses, and each ends before any later one begins.
pub proof fn lemma_partition_ascending(p: Seq<Region>, i: int, j: int)
    requires
        is_partition(p),
        0 <= i < j < p.len(),
    ensures
        p[i].start < p[j].start,
        p[i].end <= p[j].start,
{
    assert(p[i].start < p[i].end);
}

/// An address that several regions cover goes to the highest rank among
/// them: the entry that holds it has the type of a region that covers it,
/// and no region that covers it has a higher rank.
pub proof fn lemma_highest_rank_keeps(out: Seq<Region>, s: Seq<Region>, i: int, x: int)
    requires
        resolves(out, s),
        0 <= i < out.len(),
        out[i].covers(x),
    ensures
        exists|k: int| 0 <= k < s.len() && #[trigger] s[k].covers(x) && s[k].typ == out[i].typ,
        forall|j: int|
            0 <= j < s.len() && #[trigger] s[j].covers(x) ==> s[j].typ.rank()
                <= out[i].typ.rank(),
{
    let q = choose|q: Region| is_run(s, out[i], q);
    assert(wins_at(s, q, x));
    let k = choose|k: int| 0 <= k < s.len() && s[k] == q;
    assert(s[k].covers(x) && s[k].typ == out[i].typ);
}

/// What the kernel has claimed stays claimed, and nothing else becomes
/// claimed: an address is held by an entry of type `Loader` or `Module`
/// exactly if a region of type `Loader` or `Module` covers it, whatever
/// else covers it.
pub proof fn lemma_claimed_stays_claimed(out: Seq<Region>, s: Seq<Region>)
    requires
        resolves(out, s),
    ensures
        forall|x: int| claimed(out, x) <==> claimed(s, x),
{
    assert forall|x: int| claimed(s, x) implies claimed(out, x) by {
        let j = choose|j: int| 0 <= j < s.len() && #[trigger] s[j].covers(x) && s[j].typ.is_claimed();
        assert(covered(s, x));
        assert(covered(out, x));
        let i = choose|i: int| 0 <= i < out.len() && #[trigger] out[i].covers(x);
        lemma_highest_rank_keeps(out, s, i, x);
        assert(s[j].typ.rank() <= out[i].typ.rank());
    }
    assert forall|x: int| claimed(out, x) implies claimed(s, x) by {
        let i = choose|i: int|
            0 <= i < out.len() && #[trigger] out[i].covers(x) && out[i].typ.is_claimed();
        lemma_highest_rank_keeps(out, s, i, x);
    }
}

/// A partition resolves to itself.
pub proof fn lemma_partition_resolves_itself(p: Seq<Region>)
    requires
        is_partition(p),
    ensures
        resolves(p, p),
{
    assert forall|i: int| 0 <= i < p.len() implies is_stretch(p, #[trigger] p[i]) by {
        let f = p[i];
        assert forall|x: int| #[trigger] f.covers(x) implies wins_at(p, f, x) by {
            assert forall|j: int| 0 <= j < p.len() && #[trigger] p[j].covers(x) implies f.dominates(
                p[j],
            ) by {
                if j < i {
                    assert(p[j].end <= p[i].start);
                }
                if i < j {
                    assert(p[i].end <= p[j].start);
                }
            }
        }
        assert(is_run(p, f, f));
    }
}

/// The first `k` entries of two partitions that the same regions resolve
/// to are the same.
proof fn lemma_same_prefix(a: Seq<Region>, b: Seq<Region>, s: Seq<Region>, k: int)
    requires
        resolves(a, s),
        resolves(b, s),
        0 <= k <= a.len(),
    ensures
        k <= b.len(),
        forall|i: int| 0 <= i < k ==> a[i] == b[i],
    decreases k,
{
    if k > 0 {
        let n = k - 1;
        lemma_same_prefix(a, b, s, n);
        let qa = choose|q: Region| is_run(s, a[n], q);
        let x0 = a[n].start as int;
        assert(a[n].covers(x0));
        assert(wins_at(s, qa, x0));
        let ia = choose|i: int| 0 <= i < s.len() && s[i] == qa;
        assert(s[ia].covers(x0));
        assert(covered(s, x0));
        assert(covered(b, x0));
        let m = choose|m: int| 0 <= m < b.len() && #[trigger] b[m].covers(x0);
        if m < n {
            assert(a[m].end <= a[n].start);
        }
        assert(n < b.len());
        let qb = choose|q: Region| is_run(s, b[n], q);
        let y0 = b[n].start as int;
        assert(b[n].covers(y0));
        assert(wins_at(s, qb, y0));
        let ib = choose|i: int| 0 <= i < s.len() && s[i] == qb;
        assert(s[ib].covers(y0));
        assert(covered(s, y0));
        assert(covered(a, y0));
        let m2 = choose|m2: int| 0 <= m2 < a.len() && #[trigger] a[m2].covers(y0);
        if m2 < n {
            assert(b[m2].end <= b[n].start);
        }
        if m2 > n {
            assert(a[n].end <= a[m2].start);
        }
        if m > n {
            assert(b[n].end <= b[m].start);
        }
        assert(x0 == y0);
        assert(wins_at(s, qb, x0));
        assert(qa.dominates(s[ib]));
        assert(qb.dominates(s[ia]));
        lemma_dominates_total_order(qa, qb, qb);
        if a[n].end < b[n].end {
            assert(b[n].covers(a[n].end as int));
        }
        if b[n].end < a[n].end {
            assert(a[n].covers(b[n].end as int));
        }
    }
}

/// A list of regions resolves to one partition only.
pub proof fn lemma_resolves_unique(a: Seq<Region>, b: Seq<Region>, s: Seq<Region>)
    requires
        resolves(a, s),
        resolves(b, s),
    ensures
        a == b,
{
    lemma_same_prefix(a, b, s, a.len() as int);
    lemma_same_prefix(b, a, s, b.len() as int);
    assert(a =~= b);
}

/// A list that is a partition already resolves to itself and to nothing
/// else.
pub proof fn lemma_partition_is_fixed(out: Seq<Region>, p: Seq<Region>)
    requires
        is_partition(p),
        resolves(out, p),
    ensures
        out == p,
{
    lemma_partition_resolves_itself(p);
    lemma_resolves_unique(out, p, p);
}

/// The region that keeps an address among the regions of one list keeps
/// it among those of any list that holds the same regions.
proof fn lemma_wins_same_regions(s: Seq<Region>, t: Seq<Region>, q: Region, x: int)
    requires
        forall|r: Region| s.contains(r) <==> t.contains(r),
        wins_at(s, q, x),
    ensures
        wins_at(t, q, x),
{
    assert forall|i: int| 0 <= i < t.len() && #[trigger] t[i].covers(x) implies q.dominates(
        t[i],
    ) by {
        assert(t.contains(t[i]));
        let j = choose|j: int| 0 <= j < s.len() && s[j] == t[i];
        assert(s[j].covers(x));
    }
}

/// What a list of regions resolves to depends only on which regions are in
/// the list, not on their order or on how often one occurs.
pub proof fn lemma_resolves_same_regions(out: Seq<Region>, s: Seq<Region>, t: Seq<Region>)
    requires
        resolves(out, s),
        forall|r: Region| s.contains(r) <==> t.contains(r),
    ensures
        resolves(out, t),
{
    assert forall|q: Region, x: int| wins_at(s, q, x) == wins_at(t, q, x) by {
        if wins_at(s, q, x) {
            lemma_wins_same_regions(s, t, q, x);
        }
        if wins_at(t, q, x) {
            lemma_wins_same_regions(t, s, q, x);
        }
    }
    assert forall|i: int| 0 <= i < out.len() implies is_stretch(t, #[trigger] out[i]) by {
        let q = choose|q: Region| is_run(s, out[i], q);
        assert(is_run(t, out[i], q));
    }
    assert forall|x: int| #[trigger] covered(t, x) implies covered(out, x) by {
        let i = choose|i: int| 0 <= i < t.len() && #[trigger] t[i].covers(x);
        assert(t.contains(t[i]));
        let j = choose|j: int| 0 <= j < s.len() && s[j] == t[i];
        assert(s[j].covers(x));
        assert(covered(s, x));
    }
}

/// A partition that regions resolve to is also what it resolves to itself
/// when it takes the place of some of them: if `out` is what `a` and `c`
/// together resolve to, it is what `out` and `c` together resolve to.
pub proof fn lemma_resolves_beside_itself(out: Seq<Region>, a: Seq<Region>, c: Seq<Region>)
    requires
        resolves(out, a + c),
    ensures
        resolves(out, out + c),
{
    let s = a + c;
    let t = out + c;
    assert forall|i: int| 0 <= i < out.len() implies is_stretch(t, #[trigger] out[i]) by {
        let f = out[i];
        let q = choose|q: Region| is_run(s, f, q);
        assert(f.covers(f.start as int));
        assert(f.covers(f.end - 1));
        assert(wins_at(s, q, f.start as int));
        assert(wins_at(s, q, f.end - 1));
        assert(t[i] == f);
        assert forall|x: int| #[trigger] f.covers(x) implies wins_at(t, f, x) by {
            assert(wins_at(s, q, x));
            assert forall|j: int| 0 <= j < t.len() && #[trigger] t[j].covers(x) implies f.dominates(
                t[j],
            ) by {
                if j < out.len() {
                    if j < i {
                        assert(out[j].end <= out[i].start);
                    }
                    if i < j {
                        assert(out[i].end <= out[j].start);
                    }
                } else {
                    let k = j - out.len() + a.len();
                    assert(s[k] == t[j]);
                    assert(s[k].covers(x));
                    assert(q.dominates(s[k]));
                }
            }
        }
        assert(is_run(t, f, f));
    }
    assert forall|x: int| #[trigger] covered(t, x) implies covered(out, x) by {
        let j = choose|j: int| 0 <= j < t.len() && #[trigger] t[j].covers(x);
        if j < out.len() {
            assert(out[j].covers(x));
        } else {
            let k = j - out.len() + a.len();
            assert(s[k] == t[j]);
            assert(s[k].covers(x));
            assert(covered(s, x));
        }
    }
}

} // verus!
