//! Half-open intervals of 64-bit addresses, and the two sweeps a writer runs
//! before it commits bytes: which parts of a range are taken, and which are
//! free.
use core::ops::Range;
use vstd::prelude::*;

verus! {

/// `a` and `b` collide: each starts before the other ends.
pub open spec fn overlaps(a: Range<u64>, b: Range<u64>) -> bool {
    a.start < b.end && b.start < a.end
}

/// `outer` fully contains `inner`.
pub open spec fn covers(outer: Range<u64>, inner: Range<u64>) -> bool {
    outer.start <= inner.start && inner.end <= outer.end
}

/// The common part of `a` and `b`: from the later start to the earlier end.
pub open spec fn meet(a: Range<u64>, b: Range<u64>) -> Range<u64> {
    Range {
        start: if a.start >= b.start { a.start } else { b.start },
        end: if a.end <= b.end { a.end } else { b.end },
    }
}

/// The address `addr` lies in `r`.
pub open spec fn holds(r: Range<u64>, addr: int) -> bool {
    r.start <= addr < r.end
}

/// Some interval of `s` holds the address `addr`.
pub open spec fn touches(s: Seq<Range<u64>>, addr: int) -> bool {
    exists|i: int| 0 <= i < s.len() && holds(#[trigger] s[i], addr)
}

/// Every interval of `s` runs forward, and each ends no later than the next
/// one starts: the sequence is sorted and nothing in it collides.
pub open spec fn ascending(s: Seq<Range<u64>>) -> bool {
    &&& forall|i: int| 0 <= i < s.len() ==> (#[trigger] s[i]).start <= s[i].end
    &&& forall|i: int, j: int|
        0 <= i < j < s.len() ==> (#[trigger] s[i]).end <= (#[trigger] s[j]).start
}

/// Every interval of `s` lies within `outer`.
pub open spec fn inside(s: Seq<Range<u64>>, outer: Range<u64>) -> bool {
    forall|i: int| 0 <= i < s.len() ==> covers(outer, #[trigger] s[i])
}

/// No interval of `s` collides with `r`.
pub open spec fn clear_of(s: Seq<Range<u64>>, r: Range<u64>) -> bool {
    forall|i: int| 0 <= i < s.len() ==> !overlaps(#[trigger] s[i], r)
}

/// The parts of `query` that are taken: the stored intervals that collide
/// with it, in stored order, each cut down to `query`.
pub open spec fn collisions(stored: Seq<Range<u64>>, query: Range<u64>) -> Seq<Range<u64>> {
    stored.filter(|r: Range<u64>| overlaps(r, query)).map_values(|r: Range<u64>| meet(query, r))
}

/// The free space between `from` and `to` around the intervals `taken`: the
/// stretch before the first taken interval, if it is not empty, then the free
/// space after that interval; with nothing taken, the whole stretch unless
/// `from` already is `to`.
pub open spec fn gaps(from: u64, to: u64, taken: Seq<Range<u64>>) -> Seq<Range<u64>>
    decreases taken.len(),
{
    if taken.len() == 0 {
        if from != to {
            seq![Range { start: from, end: to }]
        } else {
            Seq::empty()
        }
    } else {
        let rest = gaps(taken[0].end, to, taken.drop_first());
        if taken[0].start > from {
            seq![Range { start: from, end: taken[0].start }] + rest
        } else {
            rest
        }
    }
}

/// The number of addresses in all intervals together. The intervals are
/// meant to run forward.
pub open spec fn span(s: Seq<Range<u64>>) -> int
    decreases s.len(),
{
    if s.len() == 0 {
        0
    } else {
        (s[0].end - s[0].start) + span(s.drop_first())
    }
}

/// Every interval holds an address, and each ends before the next one
/// starts: between any two of them lies an address that neither holds.
pub open spec fn apart(s: Seq<Range<u64>>) -> bool {
    &&& forall|i: int| 0 <= i < s.len() ==> (#[trigger] s[i]).start < s[i].end
    &&& forall|i: int, j: int|
        0 <= i < j < s.len() ==> (#[trigger] s[i]).end < (#[trigger] s[j]).start
}

/// The index of the first interval that `wanted` accepts, or the length of
/// `s` where it accepts none.
pub open spec fn first_where(s: Seq<Range<u64>>, wanted: spec_fn(Range<u64>) -> bool) -> int
    decreases s.len(),
{
    if s.len() == 0 || wanted(s[0]) {
        0
    } else {
        1 + first_where(s.drop_first(), wanted)
    }
}

/// The intersection of two intervals.
pub fn intersect(a: &Range<u64>, b: &Range<u64>) -> (res: Range<u64>)
    ensures
        res == meet(*a, *b),
{
    let start: u64 = if a.start >= b.start { a.start } else { b.start };
    let end: u64 = if a.end <= b.end { a.end } else { b.end };
    start..end
}

/// `first_where` gives an index within reach, the interval there is wanted,
/// and none before it is.
pub proof fn lemma_first_where(s: Seq<Range<u64>>, wanted: spec_fn(Range<u64>) -> bool)
    ensures
        0 <= first_where(s, wanted) <= s.len(),
        first_where(s, wanted) < s.len() ==> wanted(s[first_where(s, wanted)]),
        forall|i: int| 0 <= i < first_where(s, wanted) ==> !wanted(#[trigger] s[i]),
    decreases s.len(),
{
    if !(s.len() == 0 || wanted(s[0])) {
        let later = s.drop_first();
        lemma_first_where(later, wanted);
        let k = first_where(later, wanted);
        assert forall|i: int| 0 <= i < k + 1 implies !wanted(#[trigger] s[i]) by {
            if i > 0 {
                assert(later[i - 1] == s[i]);
            }
        }
    }
}

/// An index is the one `first_where` gives if the interval there is wanted,
/// or it is the length, and no interval before it is wanted.
pub proof fn lemma_first_where_unique(
    s: Seq<Range<u64>>,
    wanted: spec_fn(Range<u64>) -> bool,
    k: int,
)
    requires
        0 <= k <= s.len(),
        k < s.len() ==> wanted(s[k]),
        forall|i: int| 0 <= i < k ==> !wanted(#[trigger] s[i]),
    ensures
        first_where(s, wanted) == k,
{
    lemma_first_where(s, wanted);
    let f = first_where(s, wanted);
    if f < k {
        assert(!wanted(s[f]));
    }
}

/// Intervals in ascending order are sorted by their starts, and no two of
/// them collide.
pub proof fn lemma_ascending_sorted(s: Seq<Range<u64>>)
    requires
        ascending(s),
    ensures
        forall|i: int, j: int|
            0 <= i < j < s.len() ==> (#[trigger] s[i]).start <= (#[trigger] s[j]).start,
        forall|i: int, j: int|
            0 <= i < s.len() && 0 <= j < s.len() && i != j ==> !overlaps(
                #[trigger] s[i],
                #[trigger] s[j],
            ),
{
    assert forall|i: int, j: int| 0 <= i < s.len() && 0 <= j < s.len() && i != j implies !overlaps(
        #[trigger] s[i],
        #[trigger] s[j],
    ) by {
        if i < j {
            assert(s[i].end <= s[j].start);
        } else {
            assert(s[j].end <= s[i].start);
        }
    }
}

/// Intervals that each hold an address, are sorted by their starts, and do
/// not collide, are in ascending order.
pub proof fn lemma_sorted_ascending(s: Seq<Range<u64>>)
    requires
        forall|i: int| 0 <= i < s.len() ==> (#[trigger] s[i]).start < s[i].end,
        forall|i: int, j: int|
            0 <= i < j < s.len() ==> (#[trigger] s[i]).start <= (#[trigger] s[j]).start,
        forall|i: int, j: int|
            0 <= i < j < s.len() ==> !overlaps(#[trigger] s[i], #[trigger] s[j]),
    ensures
        ascending(s),
{
    assert forall|i: int, j: int| 0 <= i < j < s.len() implies (#[trigger] s[i]).end <= (
    #[trigger] s[j]).start by {
        assert(!overlaps(s[i], s[j]));
        assert(s[i].start <= s[j].start);
        assert(s[i].start < s[i].end && s[j].start < s[j].end);
    }
}

/// Nothing stored, nothing taken.
pub proof fn lemma_collisions_empty(query: Range<u64>)
    ensures
        collisions(Seq::empty(), query) == Seq::<Range<u64>>::empty(),
{
    reveal(Seq::filter);
    assert(collisions(Seq::empty(), query) =~= Seq::<Range<u64>>::empty());
}

/// One more stored interval adds its part of `query` at the end, or nothing.
pub proof fn lemma_collisions_push(stored: Seq<Range<u64>>, last: Range<u64>, query: Range<u64>)
    ensures
        collisions(stored.push(last), query) == if overlaps(last, query) {
            collisions(stored, query).push(meet(query, last))
        } else {
            collisions(stored, query)
        },
{
    reveal(Seq::filter);
    let all = stored.push(last);
    let pred = |r: Range<u64>| overlaps(r, query);
    assert(all.drop_last() =~= stored);
    assert(all.last() == last);
    if overlaps(last, query) {
        assert(all.filter(pred) == stored.filter(pred).push(last));
        assert(collisions(all, query) =~= collisions(stored, query).push(meet(query, last)));
    } else {
        assert(all.filter(pred) == stored.filter(pred));
    }
}

/// Each collision is the part of `query` under some stored interval that
/// collides with it, and the collisions keep the stored order.
pub proof fn lemma_collision_sources(stored: Seq<Range<u64>>, query: Range<u64>) -> (src: Seq<int>)
    ensures
        src.len() == collisions(stored, query).len(),
        forall|k: int|
            0 <= k < src.len() ==> 0 <= #[trigger] src[k] < stored.len() && overlaps(
                stored[src[k]],
                query,
            ) && collisions(stored, query)[k] == meet(query, stored[src[k]]),
        forall|k: int, l: int| 0 <= k < l < src.len() ==> #[trigger] src[k] < #[trigger] src[l],
        forall|i: int|
            0 <= i < stored.len() && overlaps(#[trigger] stored[i], query) ==> exists|k: int|
                0 <= k < src.len() && #[trigger] src[k] == i,
    decreases stored.len(),
{
    if stored.len() == 0 {
        lemma_collisions_empty(query);
        assert(stored =~= Seq::empty());
        Seq::empty()
    } else {
        let front = stored.drop_last();
        let last = stored.last();
        let front_src = lemma_collision_sources(front, query);
        lemma_collisions_push(front, last, query);
        assert(front.push(last) =~= stored);
        let src = if overlaps(last, query) {
            front_src.push(stored.len() - 1)
        } else {
            front_src
        };
        assert forall|i: int|
            0 <= i < stored.len() && overlaps(#[trigger] stored[i], query) implies exists|k: int|
            0 <= k < src.len() && #[trigger] src[k] == i by {
            if i < stored.len() - 1 {
                assert(front[i] == stored[i]);
                let k = choose|k: int| 0 <= k < front_src.len() && #[trigger] front_src[k] == i;
                assert(src[k] == i);
            } else {
                assert(src[src.len() - 1] == i);
            }
        }
        src
    }
}

/// On a sorted store a query that runs forward gets collisions that are
/// sorted, collide with nothing among themselves, and lie within the query.
pub proof fn lemma_collisions_ascending(stored: Seq<Range<u64>>, query: Range<u64>)
    requires
        ascending(stored),
        query.start <= query.end,
    ensures
        ascending(collisions(stored, query)),
        inside(collisions(stored, query), query),
{
    let src = lemma_collision_sources(stored, query);
    let found = collisions(stored, query);
    assert forall|i: int, j: int| 0 <= i < j < found.len() implies (#[trigger] found[i]).end <= (
    #[trigger] found[j]).start by {
        assert(stored[src[i]].end <= stored[src[j]].start);
    }
    assert forall|i: int| 0 <= i < found.len() implies (#[trigger] found[i]).start
        <= found[i].end by {
        assert(stored[src[i]].start <= stored[src[i]].end);
    }
}

/// The collisions hold exactly the addresses of the query that are stored.
pub proof fn lemma_collisions_touch(stored: Seq<Range<u64>>, query: Range<u64>, addr: int)
    ensures
        touches(collisions(stored, query), addr) <==> holds(query, addr) && touches(stored, addr),
{
    let src = lemma_collision_sources(stored, query);
    let found = collisions(stored, query);
    if touches(found, addr) {
        let k = choose|k: int| 0 <= k < found.len() && holds(#[trigger] found[k], addr);
        assert(holds(stored[src[k]], addr));
    }
    if holds(query, addr) && touches(stored, addr) {
        let i = choose|i: int| 0 <= i < stored.len() && holds(#[trigger] stored[i], addr);
        assert(overlaps(stored[i], query));
        let k = choose|k: int| 0 <= k < src.len() && #[trigger] src[k] == i;
        assert(holds(found[k], addr));
    }
}

/// Behind the first of sorted intervals within `from..to`, the others are
/// sorted intervals within what is left of the stretch.
pub proof fn lemma_taken_tail(from: u64, to: u64, taken: Seq<Range<u64>>)
    requires
        ascending(taken),
        inside(taken, Range { start: from, end: to }),
        taken.len() > 0,
    ensures
        from <= taken[0].start <= taken[0].end <= to,
        ascending(taken.drop_first()),
        inside(taken.drop_first(), Range { start: taken[0].end, end: to }),
{
    let later = taken.drop_first();
    assert(covers(Range { start: from, end: to }, taken[0]));
    assert forall|i: int| 0 <= i < later.len() implies covers(
        Range { start: taken[0].end, end: to },
        #[trigger] later[i],
    ) by {
        assert(later[i] == taken[i + 1]);
        assert(covers(Range { start: from, end: to }, taken[i + 1]));
    }
    assert forall|i: int, j: int| 0 <= i < j < later.len() implies (#[trigger] later[i]).end <= (
    #[trigger] later[j]).start by {
        assert(later[i] == taken[i + 1] && later[j] == taken[j + 1]);
    }
    assert forall|i: int| 0 <= i < later.len() implies (#[trigger] later[i]).start
        <= later[i].end by {
        assert(later[i] == taken[i + 1]);
    }
}

/// The free space around sorted intervals within `from..to` is itself sorted,
/// lies within `from..to`, has no empty stretch, and collides with none of the
/// taken intervals.
pub proof fn lemma_gaps_ascending(from: u64, to: u64, taken: Seq<Range<u64>>)
    requires
        from <= to,
        ascending(taken),
        inside(taken, Range { start: from, end: to }),
    ensures
        ascending(gaps(from, to, taken)),
        inside(gaps(from, to, taken), Range { start: from, end: to }),
        forall|k: int|
            0 <= k < gaps(from, to, taken).len() ==> (#[trigger] gaps(from, to, taken)[k]).start
                < gaps(from, to, taken)[k].end,
        forall|k: int|
            0 <= k < gaps(from, to, taken).len() ==> clear_of(
                taken,
                #[trigger] gaps(from, to, taken)[k],
            ),
    decreases taken.len(),
{
    let free = gaps(from, to, taken);
    if taken.len() > 0 {
        let first = taken[0];
        let later = taken.drop_first();
        let rest = gaps(first.end, to, later);
        lemma_taken_tail(from, to, taken);
        lemma_gaps_ascending(first.end, to, later);
        let shift: int = if first.start > from { 1 } else { 0 };
        assert(free.len() == rest.len() + shift);
        assert forall|k: int| shift <= k < free.len() implies #[trigger] free[k] == rest[k - shift] by {}
        assert forall|k: int| 0 <= k < free.len() implies clear_of(taken, #[trigger] free[k]) by {
            let g = free[k];
            if k >= shift {
                assert(g == rest[k - shift]);
                assert(clear_of(later, g));
                assert(covers(Range { start: first.end, end: to }, g));
                assert forall|i: int| 0 <= i < taken.len() implies !overlaps(
                    #[trigger] taken[i],
                    g,
                ) by {
                    if i > 0 {
                        assert(taken[i] == later[i - 1]);
                    }
                }
            } else {
                assert(g == Range { start: from, end: first.start });
                assert forall|i: int| 0 <= i < taken.len() implies !overlaps(
                    #[trigger] taken[i],
                    g,
                ) by {
                    if i > 0 {
                        assert(taken[0].end <= taken[i].start);
                    }
                }
            }
        }
        assert forall|i: int, j: int| 0 <= i < j < free.len() implies (#[trigger] free[i]).end <= (
        #[trigger] free[j]).start by {
            assert(free[j] == rest[j - shift]);
            assert(covers(Range { start: first.end, end: to }, rest[j - shift]));
            if i >= shift {
                assert(free[i] == rest[i - shift]);
            }
        }
        assert forall|k: int| 0 <= k < free.len() implies covers(
            Range { start: from, end: to },
            #[trigger] free[k],
        ) && free[k].start < free[k].end by {
            if k >= shift {
                assert(free[k] == rest[k - shift]);
                assert(covers(Range { start: first.end, end: to }, rest[k - shift]));
            }
        }
    }
}

/// Taken intervals and free space split `from..to` between them: every
/// address of the stretch lies in exactly one of the two.
pub proof fn lemma_gaps_complement(from: u64, to: u64, taken: Seq<Range<u64>>, addr: int)
    requires
        from <= to,
        ascending(taken),
        inside(taken, Range { start: from, end: to }),
        from <= addr < to,
    ensures
        touches(taken, addr) != touches(gaps(from, to, taken), addr),
    decreases taken.len(),
{
    let free = gaps(from, to, taken);
    if taken.len() == 0 {
        assert(holds(free[0], addr));
    } else {
        let first = taken[0];
        let later = taken.drop_first();
        let rest = gaps(first.end, to, later);
        let shift: int = if first.start > from { 1 } else { 0 };
        lemma_taken_tail(from, to, taken);
        lemma_gaps_ascending(first.end, to, later);
        assert forall|k: int| shift <= k < free.len() implies #[trigger] free[k] == rest[k - shift] by {}
        assert forall|k: int| 0 <= k < rest.len() implies #[trigger] rest[k] == free[k + shift] by {}
        if addr < first.end {
            // Before the end of the first taken interval: either in it, or in
            // the stretch in front of it.
            assert(!touches(later, addr)) by {
                if touches(later, addr) {
                    let i = choose|i: int| 0 <= i < later.len() && holds(#[trigger] later[i], addr);
                    assert(later[i] == taken[i + 1]);
                    assert(taken[0].end <= taken[i + 1].start);
                }
            }
            assert(!touches(rest, addr)) by {
                if touches(rest, addr) {
                    let k = choose|k: int| 0 <= k < rest.len() && holds(#[trigger] rest[k], addr);
                    assert(covers(Range { start: first.end, end: to }, rest[k]));
                }
            }
            if addr >= first.start {
                assert(holds(taken[0], addr));
                assert(!touches(free, addr)) by {
                    if touches(free, addr) {
                        let k = choose|k: int|
                            0 <= k < free.len() && holds(#[trigger] free[k], addr);
                        if k >= shift {
                            assert(holds(rest[k - shift], addr));
                        }
                    }
                }
            } else {
                assert(holds(free[0], addr));
                assert(!touches(taken, addr)) by {
                    if touches(taken, addr) {
                        let i = choose|i: int|
                            0 <= i < taken.len() && holds(#[trigger] taken[i], addr);
                        if i > 0 {
                            assert(later[i - 1] == taken[i]);
                            assert(holds(later[i - 1], addr));
                        }
                    }
                }
            }
        } else {
            lemma_gaps_complement(first.end, to, later, addr);
            assert(touches(taken, addr) == touches(later, addr)) by {
                if touches(taken, addr) {
                    let i = choose|i: int|
                        0 <= i < taken.len() && holds(#[trigger] taken[i], addr);
                    assert(i > 0);
                    assert(later[i - 1] == taken[i]);
                    assert(holds(later[i - 1], addr));
                }
                if touches(later, addr) {
                    let i = choose|i: int| 0 <= i < later.len() && holds(#[trigger] later[i], addr);
                    assert(later[i] == taken[i + 1]);
                    assert(holds(taken[i + 1], addr));
                }
            }
            assert(touches(free, addr) == touches(rest, addr)) by {
                if touches(free, addr) {
                    let k = choose|k: int|
                        0 <= k < free.len() && holds(#[trigger] free[k], addr);
                    assert(k >= shift);
                    assert(holds(rest[k - shift], addr));
                }
                if touches(rest, addr) {
                    let k = choose|k: int| 0 <= k < rest.len() && holds(#[trigger] rest[k], addr);
                    assert(holds(free[k + shift], addr));
                }
            }
        }
    }
}

/// Where no stored interval collides with the query, nothing is taken.
pub proof fn lemma_collisions_none(stored: Seq<Range<u64>>, query: Range<u64>)
    requires
        clear_of(stored, query),
    ensures
        collisions(stored, query) == Seq::<Range<u64>>::empty(),
{
    let src = lemma_collision_sources(stored, query);
    if src.len() > 0 {
        assert(overlaps(stored[src[0]], query));
    }
    assert(collisions(stored, query) =~= Seq::<Range<u64>>::empty());
}

/// What the two sweeps report as free is free: no stored interval collides
/// with a gap between the collisions of a query, nor with any part of one.
pub proof fn lemma_gaps_clear_of_stored(
    stored: Seq<Range<u64>>,
    query: Range<u64>,
    k: int,
    part: Range<u64>,
)
    requires
        ascending(stored),
        query.start <= query.end,
        0 <= k < gaps(query.start, query.end, collisions(stored, query)).len(),
        covers(gaps(query.start, query.end, collisions(stored, query))[k], part),
    ensures
        clear_of(stored, part),
{
    let found = collisions(stored, query);
    let free = gaps(query.start, query.end, found);
    let src = lemma_collision_sources(stored, query);
    lemma_collisions_ascending(stored, query);
    lemma_gaps_ascending(query.start, query.end, found);
    let gap = free[k];
    assert(covers(query, gap));
    assert(clear_of(found, gap));
    assert forall|i: int| 0 <= i < stored.len() implies !overlaps(#[trigger] stored[i], part) by {
        if overlaps(stored[i], query) {
            let c = choose|c: int| 0 <= c < src.len() && #[trigger] src[c] == i;
            assert(found[c] == meet(query, stored[i]));
            assert(!overlaps(found[c], gap));
        }
    }
}

/// Taken intervals and free space add up: the addresses in the two together
/// are as many as lie between `from` and `to`.
pub proof fn lemma_gaps_span(from: u64, to: u64, taken: Seq<Range<u64>>)
    requires
        from <= to,
        ascending(taken),
        inside(taken, Range { start: from, end: to }),
    ensures
        span(taken) + span(gaps(from, to, taken)) == to - from,
    decreases taken.len(),
{
    let free = gaps(from, to, taken);
    let none = Seq::<Range<u64>>::empty();
    assert(span(none) == 0);
    if taken.len() == 0 {
        if from != to {
            assert(free.drop_first() =~= none);
            assert(span(free) == (to - from) + span(free.drop_first()));
        }
    } else {
        lemma_taken_tail(from, to, taken);
        let rest = gaps(taken[0].end, to, taken.drop_first());
        lemma_gaps_span(taken[0].end, to, taken.drop_first());
        assert(span(taken) == (taken[0].end - taken[0].start) + span(taken.drop_first()));
        if taken[0].start > from {
            assert(free.drop_first() =~= rest);
            assert(span(free) == (taken[0].start - from) + span(free.drop_first()));
        }
    }
}

/// A free part starts where the stretch starts or a taken interval ends, and
/// ends where a taken interval starts or the stretch ends.
pub proof fn lemma_gaps_ends(from: u64, to: u64, taken: Seq<Range<u64>>, k: int)
    requires
        0 <= k < gaps(from, to, taken).len(),
    ensures
        gaps(from, to, taken)[k].start == from || exists|i: int|
            0 <= i < taken.len() && (#[trigger] taken[i]).end == gaps(from, to, taken)[k].start,
        gaps(from, to, taken)[k].end == to || exists|i: int|
            0 <= i < taken.len() && (#[trigger] taken[i]).start == gaps(from, to, taken)[k].end,
    decreases taken.len(),
{
    let free = gaps(from, to, taken);
    if taken.len() > 0 {
        let later = taken.drop_first();
        let rest = gaps(taken[0].end, to, later);
        let shift: int = if taken[0].start > from { 1 } else { 0 };
        if k >= shift {
            assert(free[k] == rest[k - shift]);
            lemma_gaps_ends(taken[0].end, to, later, k - shift);
            if rest[k - shift].start != taken[0].end {
                let i = choose|i: int|
                    0 <= i < later.len() && (#[trigger] later[i]).end == rest[k - shift].start;
                assert(taken[i + 1] == later[i]);
            }
            if rest[k - shift].end != to {
                let i = choose|i: int|
                    0 <= i < later.len() && (#[trigger] later[i]).start == rest[k - shift].end;
                assert(taken[i + 1] == later[i]);
            }
        }
    }
}

/// The free space behind `from` starts at `from`, if there is any; there is
/// none only where nothing is taken and the stretch is empty, as long as the
/// first taken interval starts behind `from`.
proof fn lemma_gaps_head(from: u64, to: u64, taken: Seq<Range<u64>>)
    requires
        from <= to,
        taken.len() > 0 ==> taken[0].start > from,
    ensures
        gaps(from, to, taken).len() > 0 ==> gaps(from, to, taken)[0].start == from,
        gaps(from, to, taken).len() == 0 ==> taken.len() == 0 && from == to,
{
}

/// The free space of the free space is what was taken. This holds of taken
/// intervals that lie apart: each holds an address, and each ends before the
/// next one starts.
pub proof fn lemma_gaps_twice(from: u64, to: u64, taken: Seq<Range<u64>>)
    requires
        from <= to,
        apart(taken),
        inside(taken, Range { start: from, end: to }),
    ensures
        gaps(from, to, gaps(from, to, taken)) == taken,
    decreases taken.len(),
{
    let free = gaps(from, to, taken);
    if taken.len() == 0 {
        if from != to {
            assert(free.drop_first() =~= Seq::<Range<u64>>::empty());
            assert(gaps(to, to, free.drop_first()) =~= Seq::<Range<u64>>::empty());
            assert(gaps(from, to, free) == gaps(free[0].end, to, free.drop_first()));
        }
        assert(gaps(from, to, free) =~= taken);
    } else {
        let first = taken[0];
        let later = taken.drop_first();
        let rest = gaps(first.end, to, later);
        assert(covers(Range { start: from, end: to }, taken[0]));
        assert(apart(later)) by {
            assert forall|i: int, j: int| 0 <= i < j < later.len() implies (#[trigger] later[i]).end
                < (#[trigger] later[j]).start by {
                assert(later[i] == taken[i + 1] && later[j] == taken[j + 1]);
            }
            assert forall|i: int| 0 <= i < later.len() implies (#[trigger] later[i]).start
                < later[i].end by {
                assert(later[i] == taken[i + 1]);
            }
        }
        assert forall|i: int| 0 <= i < later.len() implies covers(
            Range { start: first.end, end: to },
            #[trigger] later[i],
        ) by {
            assert(later[i] == taken[i + 1]);
            assert(covers(Range { start: from, end: to }, taken[i + 1]));
            assert(taken[0].end < taken[i + 1].start);
        }
        if later.len() > 0 {
            assert(later[0] == taken[1]);
            assert(taken[0].end < taken[1].start);
        }
        lemma_gaps_twice(first.end, to, later);
        lemma_gaps_head(first.end, to, later);
        // the free space of `rest` from the start of the first taken interval
        // on: the first taken interval, then what was taken behind it
        let back = gaps(first.start, to, rest);
        assert(back =~= seq![first] + later) by {
            if rest.len() > 0 {
                assert(gaps(first.end, to, rest) == gaps(rest[0].end, to, rest.drop_first()));
                assert(back == seq![Range { start: first.start, end: rest[0].start }] + gaps(
                    rest[0].end,
                    to,
                    rest.drop_first(),
                ));
            } else {
                assert(later =~= Seq::<Range<u64>>::empty());
            }
        }
        assert(taken =~= seq![first] + later);
        if first.start > from {
            assert(free.drop_first() =~= rest);
            assert(free[0] == Range { start: from, end: first.start });
        }
    }
}

} // verus!
