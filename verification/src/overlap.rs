//! Overlap resolution: spans are ordered by start (earliest first), then
//! length (longest first), then score (highest first), keeping the input
//! order among equals; then each span is kept unless it starts before the
//! end of the last span kept.

use vstd::prelude::*;
use crate::recognizers::RecognizerResult;

verus! {

/// `a` sorts strictly before `b`: earlier start, or same start and longer,
/// or same start and length and higher score.
pub open spec fn ranks_before(a: RecognizerResult, b: RecognizerResult) -> bool {
    ||| a.start < b.start
    ||| (a.start == b.start && a.len_spec() > b.len_spec())
    ||| (a.start == b.start && a.len_spec() == b.len_spec() && a.score > b.score)
}

/// Inserts `x` into `sorted` after every element it does not sort strictly
/// before.
pub open spec fn insert_ranked(sorted: Seq<RecognizerResult>, x: RecognizerResult) -> Seq<
    RecognizerResult,
>
    decreases sorted.len(),
{
    if sorted.len() == 0 {
        seq![x]
    } else if ranks_before(x, sorted.last()) {
        insert_ranked(sorted.drop_last(), x).push(sorted.last())
    } else {
        sorted.push(x)
    }
}

/// Stable sort by rank.
pub open spec fn sort_ranked(s: Seq<RecognizerResult>) -> Seq<RecognizerResult>
    decreases s.len(),
{
    if s.len() == 0 {
        s
    } else {
        insert_ranked(sort_ranked(s.drop_last()), s.last())
    }
}

/// Greedy selection over sorted spans: the spans kept and the end of the
/// last one kept (0 before any).
pub open spec fn greedy(sorted: Seq<RecognizerResult>) -> (Seq<RecognizerResult>, nat)
    decreases sorted.len(),
{
    if sorted.len() == 0 {
        (Seq::empty(), 0)
    } else {
        let (chosen, last_end) = greedy(sorted.drop_last());
        let s = sorted.last();
        if s.start >= last_end {
            (chosen.push(s), s.end as nat)
        } else {
            (chosen, last_end)
        }
    }
}

/// The spans that survive overlap resolution, in order.
pub open spec fn resolve_spec(spans: Seq<RecognizerResult>) -> Seq<RecognizerResult> {
    greedy(sort_ranked(spans)).0
}

/// Where the back-to-front scan for `x` stops in `s`.
pub open spec fn scan_pos(s: Seq<RecognizerResult>, x: RecognizerResult) -> int
    decreases s.len(),
{
    if s.len() == 0 {
        0
    } else if ranks_before(x, s.last()) {
        scan_pos(s.drop_last(), x)
    } else {
        s.len() as int
    }
}

proof fn lemma_insert_ranked(s: Seq<RecognizerResult>, x: RecognizerResult)
    ensures
        0 <= scan_pos(s, x) <= s.len(),
        insert_ranked(s, x) == s.insert(scan_pos(s, x), x),
    decreases s.len(),
{
    if s.len() > 0 {
        lemma_insert_ranked(s.drop_last(), x);
        if ranks_before(x, s.last()) {
            let p = scan_pos(s.drop_last(), x);
            assert(s.drop_last().insert(p, x).push(s.last()) =~= s.insert(p, x));
        } else {
            assert(s.push(x) =~= s.insert(s.len() as int, x));
        }
    } else {
        assert(seq![x] =~= s.insert(0, x));
    }
}

/// Every element of the result satisfies `p` when every element of the
/// input does.
pub proof fn lemma_resolve_keeps(spans: Seq<RecognizerResult>, p: spec_fn(RecognizerResult) -> bool)
    requires
        forall|i: int| 0 <= i < spans.len() ==> p(#[trigger] spans[i]),
    ensures
        forall|i: int| 0 <= i < resolve_spec(spans).len() ==> p(#[trigger] resolve_spec(spans)[i]),
{
    lemma_sort_keeps(spans, p);
    lemma_greedy_keeps(sort_ranked(spans), p);
}

proof fn lemma_sort_keeps(s: Seq<RecognizerResult>, p: spec_fn(RecognizerResult) -> bool)
    requires
        forall|i: int| 0 <= i < s.len() ==> p(#[trigger] s[i]),
    ensures
        forall|i: int| 0 <= i < sort_ranked(s).len() ==> p(#[trigger] sort_ranked(s)[i]),
    decreases s.len(),
{
    if s.len() > 0 {
        let t = s.drop_last();
        assert forall|i: int| 0 <= i < t.len() implies p(#[trigger] t[i]) by {
            assert(t[i] == s[i]);
        }
        lemma_sort_keeps(t, p);
        let st = sort_ranked(t);
        lemma_insert_ranked(st, s.last());
        let q = scan_pos(st, s.last());
        assert forall|i: int| 0 <= i < sort_ranked(s).len() implies p(#[trigger] sort_ranked(s)[i]) by {
            let r = st.insert(q, s.last());
            if i < q {
                assert(r[i] == st[i]);
            } else if i > q {
                assert(r[i] == st[i - 1]);
            }
        }
    }
}

proof fn lemma_greedy_keeps(s: Seq<RecognizerResult>, p: spec_fn(RecognizerResult) -> bool)
    requires
        forall|i: int| 0 <= i < s.len() ==> p(#[trigger] s[i]),
    ensures
        forall|i: int| 0 <= i < greedy(s).0.len() ==> p(#[trigger] greedy(s).0[i]),
    decreases s.len(),
{
    if s.len() > 0 {
        let t = s.drop_last();
        assert forall|i: int| 0 <= i < t.len() implies p(#[trigger] t[i]) by {
            assert(t[i] == s[i]);
        }
        lemma_greedy_keeps(t, p);
        assert(p(s.last()));
        let c = greedy(t).0;
        assert forall|i: int| 0 <= i < greedy(s).0.len() implies p(#[trigger] greedy(s).0[i]) by {
            if i < c.len() {
                assert(greedy(s).0[i] == c[i]);
            }
        }
    }
}

/// Shape of the greedy state: the end of the last span kept.
proof fn lemma_greedy_last_end(s: Seq<RecognizerResult>)
    ensures
        greedy(s).0.len() == 0 ==> greedy(s).1 == 0,
        greedy(s).0.len() > 0 ==> greedy(s).1 == greedy(s).0.last().end,
    decreases s.len(),
{
    if s.len() > 0 {
        lemma_greedy_last_end(s.drop_last());
    }
}

/// Law: the spans kept by overlap resolution do not overlap: each one
/// starts at or after the end of the one before it.
pub proof fn lemma_resolved_disjoint(spans: Seq<RecognizerResult>)
    ensures
        forall|i: int|
            0 <= i < resolve_spec(spans).len() - 1 ==> (#[trigger] resolve_spec(spans)[i + 1]).start
                >= resolve_spec(spans)[i].end,
{
    lemma_greedy_disjoint(sort_ranked(spans));
}

proof fn lemma_greedy_disjoint(s: Seq<RecognizerResult>)
    ensures
        forall|i: int|
            0 <= i < greedy(s).0.len() - 1 ==> (#[trigger] greedy(s).0[i + 1]).start >= greedy(
                s,
            ).0[i].end,
    decreases s.len(),
{
    if s.len() > 0 {
        let t = s.drop_last();
        lemma_greedy_disjoint(t);
        lemma_greedy_last_end(t);
        let c = greedy(t).0;
        assert forall|i: int| 0 <= i < greedy(s).0.len() - 1 implies (#[trigger] greedy(s).0[i
            + 1]).start >= greedy(s).0[i].end by {
            if i + 1 < c.len() {
                assert(greedy(s).0[i + 1] == c[i + 1]);
                assert(greedy(s).0[i] == c[i]);
            }
        }
    }
}

/// `s` is ordered by start.
pub open spec fn sorted_by_start(s: Seq<RecognizerResult>) -> bool {
    forall|i: int, j: int| 0 <= i < j < s.len() ==> (#[trigger] s[i]).start <= (#[trigger] s[j]).start
}

/// The scan for `x` stops after an element `x` does not sort before, and
/// `x` sorts before every element after the stop.
proof fn lemma_scan_pos(s: Seq<RecognizerResult>, x: RecognizerResult)
    ensures
        0 <= scan_pos(s, x) <= s.len(),
        scan_pos(s, x) > 0 ==> !ranks_before(x, s[scan_pos(s, x) - 1]),
        forall|j: int| scan_pos(s, x) <= j < s.len() ==> ranks_before(x, #[trigger] s[j]),
    decreases s.len(),
{
    if s.len() > 0 {
        lemma_scan_pos(s.drop_last(), x);
        if ranks_before(x, s.last()) {
            let p = scan_pos(s.drop_last(), x);
            assert forall|j: int| p <= j < s.len() implies ranks_before(x, #[trigger] s[j]) by {
                if j < s.len() - 1 {
                    assert(s[j] == s.drop_last()[j]);
                }
            }
            if p > 0 {
                assert(s[p - 1] == s.drop_last()[p - 1]);
            }
        }
    }
}

/// Sorting keeps every span and orders them by start.
proof fn lemma_sort_ranked(s: Seq<RecognizerResult>)
    ensures
        sorted_by_start(sort_ranked(s)),
        forall|i: int| 0 <= i < s.len() ==> sort_ranked(s).contains(#[trigger] s[i]),
        forall|x: RecognizerResult| #[trigger] sort_ranked(s).contains(x) ==> s.contains(x),
    decreases s.len(),
{
    if s.len() > 0 {
        let t = s.drop_last();
        let x = s.last();
        lemma_sort_ranked(t);
        let st = sort_ranked(t);
        lemma_insert_ranked(st, x);
        lemma_scan_pos(st, x);
        let p = scan_pos(st, x);
        let u = st.insert(p, x);
        assert(sort_ranked(s) == u);
        assert forall|i: int, j: int| 0 <= i < j < u.len() implies (#[trigger] u[i]).start <= (
        #[trigger] u[j]).start by {
            if j < p {
                assert(u[i] == st[i] && u[j] == st[j]);
            } else if j == p {
                assert(u[i] == st[i]);
                assert(st[i].start <= st[p - 1].start);
            } else if i < p {
                assert(u[i] == st[i] && u[j] == st[j - 1]);
            } else if i == p {
                assert(u[j] == st[j - 1]);
                assert(ranks_before(x, st[j - 1]));
            } else {
                assert(u[i] == st[i - 1] && u[j] == st[j - 1]);
            }
        }
        assert(u[p] == x);
        assert forall|i: int| 0 <= i < s.len() implies u.contains(#[trigger] s[i]) by {
            if i < s.len() - 1 {
                assert(s[i] == t[i]);
                assert(st.contains(t[i]));
                let k = choose|k: int| 0 <= k < st.len() && st[k] == t[i];
                if k < p {
                    assert(u[k] == st[k]);
                } else {
                    assert(u[k + 1] == st[k]);
                }
            }
        }
        assert forall|y: RecognizerResult| #[trigger] u.contains(y) implies s.contains(y) by {
            let k = choose|k: int| 0 <= k < u.len() && u[k] == y;
            if k != p {
                let k2 = if k < p {
                    k
                } else {
                    k - 1
                };
                assert(u[k] == st[k2]);
                assert(st.contains(y));
                assert(t.contains(y));
                let m = choose|m: int| 0 <= m < t.len() && t[m] == y;
                assert(s[m] == y);
            } else {
                assert(s[s.len() - 1] == y);
            }
        }
    }
}

/// Greedy selection over spans ordered by start keeps only spans it was
/// given, and drops a span only when it starts inside a span kept before.
proof fn lemma_greedy_drops_only_overlapping(s: Seq<RecognizerResult>)
    requires
        sorted_by_start(s),
    ensures
        forall|k: RecognizerResult| #[trigger] greedy(s).0.contains(k) ==> s.contains(k),
        forall|i: int|
            0 <= i < s.len() ==> greedy(s).0.contains(#[trigger] s[i]) || exists|k: RecognizerResult|
                #![trigger greedy(s).0.contains(k)]
                greedy(s).0.contains(k) && k.start <= s[i].start < k.end,
    decreases s.len(),
{
    if s.len() > 0 {
        let t = s.drop_last();
        let x = s.last();
        assert(sorted_by_start(t)) by {
            assert forall|i: int, j: int| 0 <= i < j < t.len() implies (#[trigger] t[i]).start <= (
            #[trigger] t[j]).start by {
                assert(t[i] == s[i] && t[j] == s[j]);
            }
        }
        lemma_greedy_drops_only_overlapping(t);
        lemma_greedy_last_end(t);
        let (c, last_end) = greedy(t);
        let c2 = greedy(s).0;
        assert forall|k: RecognizerResult| #[trigger] c.contains(k) implies c2.contains(k) by {
            let m = choose|m: int| 0 <= m < c.len() && c[m] == k;
            assert(c2[m] == c[m]);
        }
        assert forall|k: RecognizerResult| #[trigger] c2.contains(k) implies s.contains(k) by {
            let m = choose|m: int| 0 <= m < c2.len() && c2[m] == k;
            if m < c.len() {
                assert(c2[m] == c[m]);
                assert(c.contains(k));
                assert(t.contains(k));
                let q = choose|q: int| 0 <= q < t.len() && t[q] == k;
                assert(s[q] == k);
            } else {
                assert(k == x);
                assert(s[s.len() - 1] == x);
            }
        }
        assert forall|i: int| 0 <= i < s.len() implies c2.contains(#[trigger] s[i]) || exists|
            k: RecognizerResult,
        |
            #![trigger c2.contains(k)]
            c2.contains(k) && k.start <= s[i].start < k.end by {
            if i < s.len() - 1 {
                assert(s[i] == t[i]);
                if !c.contains(t[i]) {
                    let k = choose|k: RecognizerResult|
                        #![trigger c.contains(k)]
                        c.contains(k) && k.start <= t[i].start < k.end;
                    assert(c2.contains(k));
                }
            } else if x.start >= last_end {
                assert(c2[c2.len() - 1] == x);
            } else {
                let k = c.last();
                assert(c[c.len() - 1] == k);
                assert(c.contains(k));
                assert(t.contains(k));
                let q = choose|q: int| 0 <= q < t.len() && t[q] == k;
                assert(s[q] == k);
                assert(c2.contains(k));
            }
        }
    }
}

/// Law: overlap resolution keeps only spans it was given, and drops a span
/// only when it starts inside a span that is kept and starts no later.
pub proof fn lemma_resolve_drops_only_overlapping(spans: Seq<RecognizerResult>)
    ensures
        forall|k: RecognizerResult| #[trigger] resolve_spec(spans).contains(k) ==> spans.contains(k),
        forall|i: int|
            0 <= i < spans.len() ==> resolve_spec(spans).contains(#[trigger] spans[i]) || exists|
                k: RecognizerResult,
            |
                #![trigger resolve_spec(spans).contains(k)]
                resolve_spec(spans).contains(k) && k.start <= spans[i].start < k.end,
{
    lemma_sort_ranked(spans);
    let st = sort_ranked(spans);
    lemma_greedy_drops_only_overlapping(st);
    assert forall|i: int| 0 <= i < spans.len() implies resolve_spec(spans).contains(
        #[trigger] spans[i],
    ) || exists|k: RecognizerResult|
        #![trigger resolve_spec(spans).contains(k)]
        resolve_spec(spans).contains(k) && k.start <= spans[i].start < k.end by {
        assert(st.contains(spans[i]));
        let j = choose|j: int| 0 <= j < st.len() && st[j] == spans[i];
        assert(greedy(st).0.contains(st[j]) || exists|k: RecognizerResult|
            #![trigger greedy(st).0.contains(k)]
            greedy(st).0.contains(k) && k.start <= st[j].start < k.end);
    }
}

/// Sorting rearranges: the same spans, as many times each.
proof fn lemma_sort_ranked_multiset(s: Seq<RecognizerResult>)
    ensures
        sort_ranked(s).to_multiset() == s.to_multiset(),
    decreases s.len(),
{
    if s.len() > 0 {
        let t = s.drop_last();
        let x = s.last();
        lemma_sort_ranked_multiset(t);
        let st = sort_ranked(t);
        lemma_insert_ranked(st, x);
        vstd::seq_lib::to_multiset_insert(st, scan_pos(st, x), x);
        assert(s =~= t.push(x));
        vstd::seq_lib::to_multiset_build(t, x);
    }
}

/// Sorting orders by rank: no span sorts strictly before one placed earlier.
proof fn lemma_sort_ranked_by_rank(s: Seq<RecognizerResult>)
    ensures
        forall|i: int, j: int|
            0 <= i < j < sort_ranked(s).len() ==> !ranks_before(
                #[trigger] sort_ranked(s)[j],
                #[trigger] sort_ranked(s)[i],
            ),
    decreases s.len(),
{
    if s.len() > 0 {
        let t = s.drop_last();
        let x = s.last();
        lemma_sort_ranked_by_rank(t);
        let st = sort_ranked(t);
        lemma_insert_ranked(st, x);
        lemma_scan_pos(st, x);
        let p = scan_pos(st, x);
        let u = st.insert(p, x);
        assert(sort_ranked(s) == u);
        assert forall|i: int, j: int| 0 <= i < j < u.len() implies !ranks_before(
            #[trigger] u[j],
            #[trigger] u[i],
        ) by {
            if j < p {
                assert(u[i] == st[i] && u[j] == st[j]);
            } else if j == p {
                assert(u[i] == st[i] && u[j] == x);
                if i < p - 1 {
                    assert(!ranks_before(st[p - 1], st[i]));
                }
                assert(!ranks_before(x, st[p - 1]));
            } else if i < p {
                assert(u[i] == st[i] && u[j] == st[j - 1]);
            } else if i == p {
                assert(u[i] == x && u[j] == st[j - 1]);
                assert(ranks_before(x, st[j - 1]));
            } else {
                assert(u[i] == st[i - 1] && u[j] == st[j - 1]);
            }
        }
    }
}

/// Greedy selection keeps a part of what it is given, in its order, and
/// always keeps the first span.
proof fn lemma_greedy_shape(s: Seq<RecognizerResult>)
    requires
        sorted_by_start(s),
    ensures
        greedy(s).0.to_multiset().subset_of(s.to_multiset()),
        sorted_by_start(greedy(s).0),
        s.len() > 0 ==> greedy(s).0.len() > 0 && greedy(s).0[0] == s[0],
    decreases s.len(),
{
    broadcast use vstd::multiset::group_multiset_axioms;

    if s.len() == 0 {
        assert(greedy(s).0 =~= s);
    }
    if s.len() > 0 {
        let t = s.drop_last();
        let x = s.last();
        assert(sorted_by_start(t)) by {
            assert forall|i: int, j: int| 0 <= i < j < t.len() implies (#[trigger] t[i]).start <= (
            #[trigger] t[j]).start by {
                assert(t[i] == s[i] && t[j] == s[j]);
            }
        }
        lemma_greedy_shape(t);
        lemma_greedy_drops_only_overlapping(t);
        let c = greedy(t).0;
        assert(s =~= t.push(x));
        vstd::seq_lib::to_multiset_build(t, x);
        let mt = t.to_multiset();
        let mc = c.to_multiset();
        assert forall|v: RecognizerResult| mc.count(v) <= #[trigger] mt.insert(x).count(v) by {
            assert(mc.count(v) <= mt.count(v));
        }
        if x.start >= greedy(t).1 {
            vstd::seq_lib::to_multiset_build(c, x);
            assert forall|v: RecognizerResult| #[trigger] mc.insert(x).count(v) <= mt.insert(x).count(v) by {
                assert(mc.count(v) <= mt.count(v));
            }
            let c2 = c.push(x);
            assert forall|i: int, j: int| 0 <= i < j < c2.len() implies (#[trigger] c2[i]).start <= (
            #[trigger] c2[j]).start by {
                if j < c.len() {
                    assert(c2[i] == c[i] && c2[j] == c[j]);
                } else {
                    assert(c2[i] == c[i]);
                    assert(c.contains(c[i]));
                    assert(t.contains(c[i]));
                    let q = choose|q: int| 0 <= q < t.len() && t[q] == c[i];
                    assert(s[q] == c[i]);
                    assert(s[s.len() - 1] == x);
                }
            }
            if t.len() == 0 {
                assert(c2[0] == x);
            } else {
                assert(c2[0] == c[0]);
                assert(t[0] == s[0]);
            }
        } else {
            if t.len() > 0 {
                assert(t[0] == s[0]);
            } else {
                assert(x.start >= 0);
            }
        }
    }
}

/// Law (shape of overlap resolution): the spans kept are part of the spans
/// given (as a multiset), ordered by start; and when any span is given, the
/// first one kept has the least start and, among the spans with that start,
/// the greatest length.
pub proof fn lemma_resolve_shape(spans: Seq<RecognizerResult>)
    ensures
        resolve_spec(spans).to_multiset().subset_of(spans.to_multiset()),
        sorted_by_start(resolve_spec(spans)),
        spans.len() > 0 ==> resolve_spec(spans).len() > 0 && forall|y: RecognizerResult|
            #[trigger] spans.contains(y) ==> resolve_spec(spans)[0].start <= y.start && (resolve_spec(
                spans,
            )[0].start == y.start ==> resolve_spec(spans)[0].len_spec() >= y.len_spec()),
{
    lemma_sort_ranked(spans);
    lemma_sort_ranked_multiset(spans);
    lemma_sort_ranked_by_rank(spans);
    let st = sort_ranked(spans);
    lemma_greedy_shape(st);
    if spans.len() > 0 {
        assert(spans.contains(spans[0]));
        assert(st.contains(spans[0]));
        let r0 = resolve_spec(spans)[0];
        assert(r0 == st[0]);
        assert forall|y: RecognizerResult| #[trigger] spans.contains(y) implies r0.start <= y.start && (
        r0.start == y.start ==> r0.len_spec() >= y.len_spec()) by {
            let i = choose|i: int| 0 <= i < spans.len() && spans[i] == y;
            assert(st.contains(spans[i]));
            let j = choose|j: int| 0 <= j < st.len() && st[j] == y;
            if j > 0 {
                assert(!ranks_before(st[j], st[0]));
            }
        }
    }
}

/// Law (overlap resolution drops only overlapping spans): for spans that
/// each cover at least one byte, every span given is kept or overlaps a span
/// that is kept.
pub proof fn lemma_resolve_dropped_overlap(spans: Seq<RecognizerResult>)
    requires
        forall|i: int| 0 <= i < spans.len() ==> (#[trigger] spans[i]).start < spans[i].end,
    ensures
        forall|i: int|
            0 <= i < spans.len() ==> resolve_spec(spans).contains(#[trigger] spans[i]) || exists|
                k: RecognizerResult,
            |
                #![trigger resolve_spec(spans).contains(k)]
                resolve_spec(spans).contains(k) && k.start < spans[i].end && spans[i].start < k.end,
{
    lemma_resolve_drops_only_overlapping(spans);
    assert forall|i: int| 0 <= i < spans.len() implies resolve_spec(spans).contains(#[trigger] spans[i])
        || exists|k: RecognizerResult|
        #![trigger resolve_spec(spans).contains(k)]
        resolve_spec(spans).contains(k) && k.start < spans[i].end && spans[i].start < k.end by {
        if !resolve_spec(spans).contains(spans[i]) {
            let k = choose|k: RecognizerResult|
                #![trigger resolve_spec(spans).contains(k)]
                resolve_spec(spans).contains(k) && k.start <= spans[i].start < k.end;
            assert(spans[i].start < spans[i].end);
        }
    }
}

fn ranks_before_exec(a: &RecognizerResult, b: &RecognizerResult) -> (r: bool)
    ensures
        r == ranks_before(*a, *b),
{
    let la = a.span_len();
    let lb = b.span_len();
    a.start < b.start || (a.start == b.start && la > lb) || (a.start == b.start && la == lb
        && a.score > b.score)
}

/// Resolve overlapping spans: keep the strongest, longest, earliest, dropping
/// any span that overlaps one already chosen.
pub fn resolve_overlaps(spans: Vec<RecognizerResult>) -> (r: Vec<RecognizerResult>)
    ensures
        r@ == resolve_spec(spans@),
{
    let mut sorted: Vec<RecognizerResult> = Vec::new();
    let mut i: usize = 0;
    while i < spans.len()
        invariant
            i <= spans@.len(),
            sorted@ == sort_ranked(spans@.take(i as int)),
        decreases spans@.len() - i,
    {
        let x = spans[i];
        assert(spans@.take(i + 1).drop_last() =~= spans@.take(i as int));
        let mut p: usize = sorted.len();
        assert(sorted@.take(p as int) =~= sorted@);
        while p > 0 && ranks_before_exec(&x, &sorted[p - 1])
            invariant
                p <= sorted@.len(),
                scan_pos(sorted@, x) == scan_pos(sorted@.take(p as int), x),
            decreases p,
        {
            assert(sorted@.take(p as int).drop_last() =~= sorted@.take(p - 1));
            p = p - 1;
        }
        proof {
            if p > 0 {
                assert(sorted@.take(p as int).last() == sorted@[p - 1]);
            }
            assert(scan_pos(sorted@.take(p as int), x) == p);
            lemma_insert_ranked(sorted@, x);
        }
        sorted.insert(p, x);
        i = i + 1;
    }
    assert(spans@.take(spans@.len() as int) =~= spans@);
    let mut chosen: Vec<RecognizerResult> = Vec::new();
    let mut last_end: usize = 0;
    let mut k: usize = 0;
    while k < sorted.len()
        invariant
            k <= sorted@.len(),
            greedy(sorted@.take(k as int)) == (chosen@, last_end as nat),
        decreases sorted@.len() - k,
    {
        assert(sorted@.take(k + 1).drop_last() =~= sorted@.take(k as int));
        let s = sorted[k];
        if s.start >= last_end {
            last_end = s.end;
            chosen.push(s);
        }
        k = k + 1;
    }
    assert(sorted@.take(sorted@.len() as int) =~= sorted@);
    chosen
}

} // verus!
