use crate::attrs::{same_attrs_owned, AttrsOwned};
use core::ops::Range;
use vstd::prelude::*;

verus! {

/// One span: a half-open range of byte offsets and the attributes over it.
pub type Entry = (Range<usize>, AttrsOwned);

/// The entry's range holds offset `i`.
pub open spec fn covers(e: Entry, i: int) -> bool {
    e.0.start <= i < e.0.end
}

/// The value that `s` gives offset `i`: the one of the last entry covering it.
pub open spec fn lookup(s: Seq<Entry>, i: int) -> Option<AttrsOwned>
    decreases s.len(),
{
    if s.len() == 0 {
        None
    } else if covers(s.last(), i) {
        Some(s.last().1)
    } else {
        lookup(s.drop_last(), i)
    }
}

/// No entry is empty, and entries come in ascending order without overlap.
pub open spec fn disjoint_sorted(s: Seq<Entry>) -> bool {
    &&& forall|j: int| 0 <= j < s.len() ==> #[trigger] s[j].0.start < s[j].0.end
    &&& forall|j: int, k: int| 0 <= j < k < s.len() ==> #[trigger] s[j].0.end <= #[trigger] s[k].0.start
}

/// Every entry ends at or before `b`.
pub open spec fn ends_by(s: Seq<Entry>, b: int) -> bool {
    forall|j: int| 0 <= j < s.len() ==> #[trigger] s[j].0.end <= b
}

/// Every entry starts at or after `a`.
pub open spec fn starts_from(s: Seq<Entry>, a: int) -> bool {
    forall|j: int| 0 <= j < s.len() ==> #[trigger] s[j].0.start >= a
}

/// What lies below offset `k`: each entry that starts below `k`, cut at `k`.
pub open spec fn clip_below(s: Seq<Entry>, k: usize) -> Seq<Entry>
    decreases s.len(),
{
    if s.len() == 0 {
        Seq::empty()
    } else {
        let prev = clip_below(s.drop_last(), k);
        let e = s.last();
        if e.0.start < k {
            let end = if e.0.end < k { e.0.end } else { k };
            prev.push((Range { start: e.0.start, end }, e.1))
        } else {
            prev
        }
    }
}

/// What lies at or above offset `k`: each entry that ends above `k`, cut at `k`.
pub open spec fn clip_above(s: Seq<Entry>, k: usize) -> Seq<Entry>
    decreases s.len(),
{
    if s.len() == 0 {
        Seq::empty()
    } else {
        let prev = clip_above(s.drop_last(), k);
        let e = s.last();
        if e.0.end > k {
            let start = if e.0.start > k { e.0.start } else { k };
            prev.push((Range { start, end: e.0.end }, e.1))
        } else {
            prev
        }
    }
}

/// The entries with `k` taken off both ends of every range.
pub open spec fn shift_down(s: Seq<Entry>, k: usize) -> Seq<Entry> {
    Seq::new(
        s.len(),
        |j: int| (Range { start: (s[j].0.start - k) as usize, end: (s[j].0.end - k) as usize }, s[j].1),
    )
}

/// The entries after `r` is assigned `v`: what stood below `r.start`, then
/// the new entry, then what stood from `r.end` on.
pub open spec fn overwritten(s: Seq<Entry>, r: Range<usize>, v: AttrsOwned) -> Seq<Entry> {
    clip_below(s, r.start) + seq![(r, v)] + clip_above(s, r.end)
}

/// Looking up in a concatenation: the second part wins where it has an entry.
pub proof fn lemma_lookup_concat(x: Seq<Entry>, y: Seq<Entry>, i: int)
    ensures
        lookup(x + y, i) == (if lookup(y, i) is Some { lookup(y, i) } else { lookup(x, i) }),
    decreases y.len(),
{
    if y.len() == 0 {
        assert(x + y =~= x);
    } else {
        assert((x + y).drop_last() =~= x + y.drop_last());
        lemma_lookup_concat(x, y.drop_last(), i);
    }
}

/// What lies below `k` gives each offset below `k` its old value, and nothing above.
pub proof fn lemma_lookup_clip_below(s: Seq<Entry>, k: usize, i: int)
    ensures
        lookup(clip_below(s, k), i) == (if i < k { lookup(s, i) } else { None }),
    decreases s.len(),
{
    if s.len() > 0 {
        lemma_lookup_clip_below(s.drop_last(), k, i);
        let e = s.last();
        if e.0.start < k {
            let prev = clip_below(s.drop_last(), k);
            let end = if e.0.end < k { e.0.end } else { k };
            assert(prev.push((Range { start: e.0.start, end }, e.1)).drop_last() =~= prev);
        }
    }
}

/// What lies from `k` on gives each offset from `k` on its old value, and nothing below.
pub proof fn lemma_lookup_clip_above(s: Seq<Entry>, k: usize, i: int)
    ensures
        lookup(clip_above(s, k), i) == (if i >= k { lookup(s, i) } else { None }),
    decreases s.len(),
{
    if s.len() > 0 {
        lemma_lookup_clip_above(s.drop_last(), k, i);
        let e = s.last();
        if e.0.end > k {
            let prev = clip_above(s.drop_last(), k);
            let start = if e.0.start > k { e.0.start } else { k };
            assert(prev.push((Range { start, end: e.0.end }, e.1)).drop_last() =~= prev);
        }
    }
}

/// Moving every entry down by `k` moves every lookup down by `k`.
pub proof fn lemma_lookup_shift_down(s: Seq<Entry>, k: usize, i: int)
    requires
        disjoint_sorted(s),
        starts_from(s, k as int),
        0 <= i,
    ensures
        lookup(shift_down(s, k), i) == lookup(s, i + k),
    decreases s.len(),
{
    if s.len() > 0 {
        assert(shift_down(s, k).drop_last() =~= shift_down(s.drop_last(), k));
        assert(s[s.len() - 1].0.start >= k);
        assert(s[s.len() - 1].0.start < s[s.len() - 1].0.end);
        assert(disjoint_sorted(s.drop_last()));
        lemma_lookup_shift_down(s.drop_last(), k, i);
    }
}

/// In a well-formed sequence, an offset takes the value of the entry covering it.
pub proof fn lemma_lookup_covering(s: Seq<Entry>, j: int, i: int)
    requires
        disjoint_sorted(s),
        0 <= j < s.len(),
        covers(s[j], i),
    ensures
        lookup(s, i) == Some(s[j].1),
    decreases s.len(),
{
    if j < s.len() - 1 {
        assert(s[j].0.end <= s[s.len() - 1].0.start);
        lemma_lookup_covering(s.drop_last(), j, i);
    }
}

/// An offset that no entry covers has no value.
pub proof fn lemma_lookup_uncovered(s: Seq<Entry>, i: int)
    requires
        forall|j: int| 0 <= j < s.len() ==> !covers(#[trigger] s[j], i),
    ensures
        lookup(s, i) is None,
    decreases s.len(),
{
    if s.len() > 0 {
        lemma_lookup_uncovered(s.drop_last(), i);
    }
}

/// Cutting below `k` moves no end past a bound that held before.
pub proof fn lemma_clip_below_ends(s: Seq<Entry>, k: usize, b: int)
    requires
        ends_by(s, b),
    ensures
        ends_by(clip_below(s, k), b),
    decreases s.len(),
{
    if s.len() > 0 {
        lemma_clip_below_ends(s.drop_last(), k, b);
    }
}

/// Cutting from `k` on moves no end past a bound that held before.
pub proof fn lemma_clip_above_ends(s: Seq<Entry>, k: usize, b: int)
    requires
        ends_by(s, b),
    ensures
        ends_by(clip_above(s, k), b),
    decreases s.len(),
{
    if s.len() > 0 {
        lemma_clip_above_ends(s.drop_last(), k, b);
    }
}

/// Cutting below `k` keeps a sequence well formed, and every piece ends by `k`.
pub proof fn lemma_clip_below_sorted(s: Seq<Entry>, k: usize)
    requires
        disjoint_sorted(s),
    ensures
        disjoint_sorted(clip_below(s, k)),
        ends_by(clip_below(s, k), k as int),
    decreases s.len(),
{
    if s.len() > 0 {
        let p = s.drop_last();
        let e = s.last();
        lemma_clip_below_sorted(p, k);
        if e.0.start < k {
            assert(ends_by(p, e.0.start as int)) by {
                assert forall|j: int| 0 <= j < p.len() implies #[trigger] p[j].0.end <= e.0.start by {
                    assert(s[j].0.end <= s[s.len() - 1].0.start);
                }
            }
            lemma_clip_below_ends(p, k, e.0.start as int);
        }
    }
}

/// Cutting from `k` on keeps a sequence well formed, and every piece starts from `k`.
pub proof fn lemma_clip_above_sorted(s: Seq<Entry>, k: usize)
    requires
        disjoint_sorted(s),
    ensures
        disjoint_sorted(clip_above(s, k)),
        starts_from(clip_above(s, k), k as int),
    decreases s.len(),
{
    if s.len() > 0 {
        let p = s.drop_last();
        let e = s.last();
        lemma_clip_above_sorted(p, k);
        if e.0.end > k {
            assert(ends_by(p, e.0.start as int)) by {
                assert forall|j: int| 0 <= j < p.len() implies #[trigger] p[j].0.end <= e.0.start by {
                    assert(s[j].0.end <= s[s.len() - 1].0.start);
                }
            }
            lemma_clip_above_ends(p, k, e.0.start as int);
        }
    }
}

/// Cutting below `k` distributes over concatenation.
pub proof fn lemma_clip_below_concat(a: Seq<Entry>, b: Seq<Entry>, k: usize)
    ensures
        clip_below(a + b, k) == clip_below(a, k) + clip_below(b, k),
    decreases b.len(),
{
    if b.len() == 0 {
        assert(a + b =~= a);
        assert(clip_below(a, k) + clip_below(b, k) =~= clip_below(a, k));
    } else {
        assert((a + b).drop_last() =~= a + b.drop_last());
        lemma_clip_below_concat(a, b.drop_last(), k);
        let e = b.last();
        if e.0.start < k {
            let end = if e.0.end < k { e.0.end } else { k };
            let x = (Range { start: e.0.start, end }, e.1);
            assert(clip_below(a, k) + clip_below(b.drop_last(), k).push(x) =~= (clip_below(a, k)
                + clip_below(b.drop_last(), k)).push(x));
        }
    }
}

/// Cutting from `k` on distributes over concatenation.
pub proof fn lemma_clip_above_concat(a: Seq<Entry>, b: Seq<Entry>, k: usize)
    ensures
        clip_above(a + b, k) == clip_above(a, k) + clip_above(b, k),
    decreases b.len(),
{
    if b.len() == 0 {
        assert(a + b =~= a);
        assert(clip_above(a, k) + clip_above(b, k) =~= clip_above(a, k));
    } else {
        assert((a + b).drop_last() =~= a + b.drop_last());
        lemma_clip_above_concat(a, b.drop_last(), k);
        let e = b.last();
        if e.0.end > k {
            let start = if e.0.start > k { e.0.start } else { k };
            let x = (Range { start, end: e.0.end }, e.1);
            assert(clip_above(a, k) + clip_above(b.drop_last(), k).push(x) =~= (clip_above(a, k)
                + clip_above(b.drop_last(), k)).push(x));
        }
    }
}

/// Nothing lies below `k` when every entry starts at or after it.
pub proof fn lemma_clip_below_none(s: Seq<Entry>, k: usize)
    requires
        starts_from(s, k as int),
    ensures
        clip_below(s, k) == Seq::<Entry>::empty(),
    decreases s.len(),
{
    if s.len() > 0 {
        assert(s[s.len() - 1].0.start >= k);
        lemma_clip_below_none(s.drop_last(), k);
    }
}

/// Everything lies below `k`, uncut, when every entry ends by it.
pub proof fn lemma_clip_below_all(s: Seq<Entry>, k: usize)
    requires
        disjoint_sorted(s),
        ends_by(s, k as int),
    ensures
        clip_below(s, k) == s,
    decreases s.len(),
{
    if s.len() > 0 {
        let p = s.drop_last();
        assert(disjoint_sorted(p));
        assert(ends_by(p, k as int));
        lemma_clip_below_all(p, k);
        assert(s[s.len() - 1].0.start < s[s.len() - 1].0.end);
        assert(s[s.len() - 1].0.end <= k);
        assert(p.push(s.last()) =~= s);
    }
}

/// Nothing lies at or above `k` when every entry ends by it.
pub proof fn lemma_clip_above_none(s: Seq<Entry>, k: usize)
    requires
        ends_by(s, k as int),
    ensures
        clip_above(s, k) == Seq::<Entry>::empty(),
    decreases s.len(),
{
    if s.len() > 0 {
        assert(s[s.len() - 1].0.end <= k);
        lemma_clip_above_none(s.drop_last(), k);
    }
}

/// Everything lies at or above `k`, uncut, when every entry starts at or
/// after it.
pub proof fn lemma_clip_above_all(s: Seq<Entry>, k: usize)
    requires
        disjoint_sorted(s),
        starts_from(s, k as int),
    ensures
        clip_above(s, k) == s,
    decreases s.len(),
{
    if s.len() > 0 {
        let p = s.drop_last();
        assert(disjoint_sorted(p));
        assert(starts_from(p, k as int));
        lemma_clip_above_all(p, k);
        assert(s[s.len() - 1].0.start < s[s.len() - 1].0.end);
        assert(s[s.len() - 1].0.start >= k);
        assert(p.push(s.last()) =~= s);
    }
}

/// A slice of a well-formed sequence is well formed.
pub proof fn lemma_subrange_sorted(s: Seq<Entry>, lo: int, hi: int)
    requires
        disjoint_sorted(s),
        0 <= lo <= hi <= s.len(),
    ensures
        disjoint_sorted(s.subrange(lo, hi)),
{
    let t = s.subrange(lo, hi);
    assert forall|j: int, k: int| 0 <= j < k < t.len() implies #[trigger] t[j].0.end
        <= #[trigger] t[k].0.start by {
        assert(t[j] == s[j + lo] && t[k] == s[k + lo]);
    }
    assert forall|j: int| 0 <= j < t.len() implies #[trigger] t[j].0.start < t[j].0.end by {
        assert(t[j] == s[j + lo]);
    }
}

/// What is left, below `k0`, of the first of the entries `s[p..q]`.
pub open spec fn left_rest(s: Seq<Entry>, p: int, q: int, k0: usize) -> Seq<Entry> {
    if p < q && s[p].0.start < k0 {
        seq![(Range { start: s[p].0.start, end: k0 }, s[p].1)]
    } else {
        Seq::empty()
    }
}

/// What is left, from `k1` on, of the last of the entries `s[p..q]`.
pub open spec fn right_rest(s: Seq<Entry>, p: int, q: int, k1: usize) -> Seq<Entry> {
    if p < q && s[q - 1].0.end > k1 {
        seq![(Range { start: k1, end: s[q - 1].0.end }, s[q - 1].1)]
    } else {
        Seq::empty()
    }
}

/// With `s[..p]` ending by `k0` and `s[p..]` ending above it, and `s[q..]`
/// starting from `k1` and `s[..q]` starting below it, what lies below `k0` is
/// `s[..p]` and what is left of `s[p]`.
pub proof fn lemma_clip_below_at(s: Seq<Entry>, p: int, q: int, k0: usize, k1: usize)
    requires
        disjoint_sorted(s),
        0 <= p <= q <= s.len(),
        k0 <= k1,
        forall|j: int| 0 <= j < p ==> #[trigger] s[j].0.end <= k0,
        forall|j: int| p <= j < s.len() ==> #[trigger] s[j].0.end > k0,
        forall|j: int| 0 <= j < q ==> #[trigger] s[j].0.start < k1,
        forall|j: int| q <= j < s.len() ==> #[trigger] s[j].0.start >= k1,
    ensures
        clip_below(s, k0) == s.subrange(0, p) + left_rest(s, p, q, k0),
{
    let a = s.subrange(0, p);
    let md = s.subrange(p, q);
    let t = s.subrange(q, s.len() as int);
    assert(s =~= a + md + t);
    lemma_subrange_sorted(s, 0, p);
    lemma_clip_below_concat(a + md, t, k0);
    lemma_clip_below_concat(a, md, k0);
    lemma_clip_below_all(a, k0);
    assert forall|j: int| 0 <= j < t.len() implies #[trigger] t[j].0.start >= k0 by {
        assert(t[j] == s[q + j]);
    }
    lemma_clip_below_none(t, k0);
    if p < q {
        let rest = md.subrange(1, md.len() as int);
        assert(md =~= seq![md[0]] + rest);
        assert forall|j: int| 0 <= j < rest.len() implies #[trigger] rest[j].0.start >= k0 by {
            assert(rest[j] == s[p + 1 + j]);
            assert(s[p].0.end <= s[p + 1 + j].0.start);
        }
        lemma_clip_below_concat(seq![md[0]], rest, k0);
        lemma_clip_below_none(rest, k0);
        assert(seq![md[0]].drop_last() =~= Seq::<Entry>::empty());
        assert(clip_below(Seq::<Entry>::empty(), k0) == Seq::<Entry>::empty());
        assert(md[0] == s[p]);
        assert(s[p].0.end > k0);
        assert(seq![md[0]].last() == s[p]);
        assert(clip_below(md, k0) == clip_below(seq![md[0]], k0));
        assert(clip_below(md, k0) =~= left_rest(s, p, q, k0));
    } else {
        assert(md =~= Seq::<Entry>::empty());
    }
    assert(clip_below(s, k0) =~= a + left_rest(s, p, q, k0));
}

/// Under the same bounds, what lies from `k1` on is what is left of
/// `s[q - 1]` and then `s[q..]`.
pub proof fn lemma_clip_above_at(s: Seq<Entry>, p: int, q: int, k0: usize, k1: usize)
    requires
        disjoint_sorted(s),
        0 <= p <= q <= s.len(),
        k0 <= k1,
        forall|j: int| 0 <= j < p ==> #[trigger] s[j].0.end <= k0,
        forall|j: int| p <= j < s.len() ==> #[trigger] s[j].0.end > k0,
        forall|j: int| 0 <= j < q ==> #[trigger] s[j].0.start < k1,
        forall|j: int| q <= j < s.len() ==> #[trigger] s[j].0.start >= k1,
    ensures
        clip_above(s, k1) == right_rest(s, p, q, k1) + s.subrange(q, s.len() as int),
{
    let a = s.subrange(0, p);
    let md = s.subrange(p, q);
    let t = s.subrange(q, s.len() as int);
    assert(s =~= a + md + t);
    lemma_subrange_sorted(s, q, s.len() as int);
    lemma_clip_above_concat(a + md, t, k1);
    lemma_clip_above_concat(a, md, k1);
    assert forall|j: int| 0 <= j < a.len() implies #[trigger] a[j].0.end <= k1 by {
        assert(a[j] == s[j]);
    }
    lemma_clip_above_none(a, k1);
    assert forall|j: int| 0 <= j < t.len() implies #[trigger] t[j].0.start >= k1 by {
        assert(t[j] == s[q + j]);
    }
    lemma_clip_above_all(t, k1);
    if p < q {
        let init = md.drop_last();
        assert(md =~= init + seq![md.last()]);
        assert forall|j: int| 0 <= j < init.len() implies #[trigger] init[j].0.end <= k1 by {
            assert(init[j] == s[p + j]);
            assert(s[p + j].0.end <= s[q - 1].0.start);
        }
        lemma_clip_above_concat(init, seq![md.last()], k1);
        lemma_clip_above_none(init, k1);
        assert(seq![md.last()].drop_last() =~= Seq::<Entry>::empty());
        assert(s[q - 1].0.start < k1);
        assert(clip_above(md, k1) =~= right_rest(s, p, q, k1));
    } else {
        assert(md =~= Seq::<Entry>::empty());
    }
    assert(clip_above(s, k1) =~= right_rest(s, p, q, k1) + t);
}

/// What overwriting a range gives is well formed, and gives each offset the
/// new value inside the range and the old one outside it.
pub proof fn lemma_overwritten(s: Seq<Entry>, r: Range<usize>, v: AttrsOwned)
    requires
        disjoint_sorted(s),
        r.start < r.end,
    ensures
        disjoint_sorted(overwritten(s, r, v)),
        forall|i: int|
            #![trigger lookup(overwritten(s, r, v), i)]
            lookup(overwritten(s, r, v), i) == (if r.start <= i < r.end {
                Some(v)
            } else {
                lookup(s, i)
            }),
{
    let x = clip_below(s, r.start);
    let y = clip_above(s, r.end);
    let mid = seq![(r, v)];
    assert(overwritten(s, r, v) == x + mid + y);
    lemma_clip_below_sorted(s, r.start);
    lemma_clip_above_sorted(s, r.end);
    lemma_concat_sorted(x, mid, r.start as int);
    lemma_concat_sorted(x + mid, y, r.end as int);
    assert forall|i: int| #[trigger] lookup(overwritten(s, r, v), i) == (if r.start <= i < r.end {
        Some(v)
    } else {
        lookup(s, i)
    }) by {
        lemma_lookup_concat(x + mid, y, i);
        lemma_lookup_concat(x, mid, i);
        lemma_lookup_clip_below(s, r.start, i);
        lemma_lookup_clip_above(s, r.end, i);
        assert(mid.drop_last() =~= Seq::<Entry>::empty());
        assert(mid.last() == (r, v));
        assert(lookup(Seq::<Entry>::empty(), i) is None);
        assert(lookup(mid, i) == (if r.start <= i < r.end { Some(v) } else { None }));
    }
}

/// Two well-formed sequences, the first ending by `m` and the second starting
/// from it, join into one.
pub proof fn lemma_concat_sorted(x: Seq<Entry>, y: Seq<Entry>, m: int)
    requires
        disjoint_sorted(x),
        disjoint_sorted(y),
        ends_by(x, m),
        starts_from(y, m),
    ensures
        disjoint_sorted(x + y),
{
    let z = x + y;
    assert forall|j: int, k: int| 0 <= j < k < z.len() implies #[trigger] z[j].0.end
        <= #[trigger] z[k].0.start by {
        if k < x.len() {
            assert(z[j] == x[j] && z[k] == x[k]);
        } else if j >= x.len() {
            assert(z[j] == y[j - x.len()] && z[k] == y[k - x.len()]);
        } else {
            assert(z[j] == x[j] && z[k] == y[k - x.len()]);
        }
    }
    assert forall|j: int| 0 <= j < z.len() implies #[trigger] z[j].0.start < z[j].0.end by {
        if j < x.len() {
            assert(z[j] == x[j]);
        } else {
            assert(z[j] == y[j - x.len()]);
        }
    }
}

/// Moving a well-formed sequence that starts from `k` down by `k` keeps it well formed.
pub proof fn lemma_shift_down_sorted(s: Seq<Entry>, k: usize)
    requires
        disjoint_sorted(s),
        starts_from(s, k as int),
    ensures
        disjoint_sorted(shift_down(s, k)),
        starts_from(shift_down(s, k), 0),
{
    let t = shift_down(s, k);
    assert forall|j: int, m: int| 0 <= j < m < t.len() implies #[trigger] t[j].0.end
        <= #[trigger] t[m].0.start by {
        assert(s[j].0.end <= s[m].0.start);
        assert(s[j].0.start >= k && s[m].0.start >= k && s[j].0.start < s[j].0.end);
    }
    assert forall|j: int| 0 <= j < t.len() implies #[trigger] t[j].0.start < t[j].0.end by {
        assert(s[j].0.start >= k && s[j].0.start < s[j].0.end);
    }
}

/// An ordered map from disjoint, non-empty half-open ranges of byte offsets
/// to attributes. Assigning a range overwrites whatever lay inside it.
pub struct SpanMap {
    entries: Vec<Entry>,
}

impl View for SpanMap {
    type V = Seq<Entry>;

    closed spec fn view(&self) -> Seq<Entry> {
        self.entries@
    }
}

impl SpanMap {
    /// Entries are non-empty, ascending and pairwise disjoint.
    pub open spec fn well_formed(&self) -> bool {
        disjoint_sorted(self@)
    }

    /// An empty map.
    pub fn new() -> (r: Self)
        ensures
            r@ == Seq::<Entry>::empty(),
            r.well_formed(),
    {
        SpanMap { entries: Vec::new() }
    }

    /// Removes all entries.
    pub fn clear(&mut self)
        ensures
            final(self)@ == Seq::<Entry>::empty(),
            final(self).well_formed(),
    {
        self.entries = Vec::new();
    }

    /// The entries, in ascending order.
    pub fn entries(&self) -> (r: Vec<Entry>)
        ensures
            r@ == self@,
    {
        let mut out: Vec<Entry> = Vec::new();
        let n = self.entries.len();
        let mut i: usize = 0;
        while i < n
            invariant
                n == self@.len(),
                i <= n,
                out@ =~= self@.subrange(0, i as int),
            decreases n - i,
        {
            let e = &self.entries[i];
            out.push((Range { start: e.0.start, end: e.0.end }, e.1.clone()));
            i = i + 1;
        }
        out
    }

    /// Assigns `value` to `range`. Entries that overlap `range` keep only
    /// what lies outside it; the new entry stands on its own.
    pub fn insert(&mut self, range: Range<usize>, value: AttrsOwned)
        requires
            old(self).well_formed(),
            range.start < range.end,
        ensures
            final(self)@ == overwritten(old(self)@, range, value),
            final(self).well_formed(),
            forall|i: int|
                #![trigger lookup(final(self)@, i)]
                lookup(final(self)@, i) == (if range.start <= i < range.end {
                    Some(value)
                } else {
                    lookup(old(self)@, i)
                }),
    {
        let ghost s = self@;
        let ghost v = value;
        let ghost r = range;
        let k0 = range.start;
        let k1 = range.end;
        let p = self.first_ending_after(k0);
        let q = self.first_starting_from(k1);
        proof {
            if q < p {
                assert(s[q as int].0.start < s[q as int].0.end);
            }
        }
        let mut tail = self.entries.split_off(q);
        let mid = self.entries.split_off(p);
        let ghost a = self@;
        let m = mid.len();
        if m > 0 && mid[0].0.start < k0 {
            self.entries.push((Range { start: mid[0].0.start, end: k0 }, mid[0].1.clone()));
        }
        self.entries.push((range, value));
        if m > 0 && mid[m - 1].0.end > k1 {
            self.entries.push((Range { start: k1, end: mid[m - 1].0.end }, mid[m - 1].1.clone()));
        }
        let ghost t = tail@;
        self.entries.append(&mut tail);
        proof {
            assert(a =~= s.subrange(0, p as int));
            assert(mid@ =~= s.subrange(p as int, q as int));
            assert(t =~= s.subrange(q as int, s.len() as int));
            lemma_clip_below_at(s, p as int, q as int, k0, k1);
            lemma_clip_above_at(s, p as int, q as int, k0, k1);
            assert(self@ =~= overwritten(s, r, v));
            lemma_overwritten(s, r, v);
        }
    }

    /// The number of entries that end at or before `k`: they come first.
    fn first_ending_after(&self, k: usize) -> (p: usize)
        requires
            self.well_formed(),
        ensures
            p <= self@.len(),
            forall|j: int| 0 <= j < p ==> #[trigger] self@[j].0.end <= k,
            forall|j: int| p <= j < self@.len() ==> #[trigger] self@[j].0.end > k,
    {
        let n = self.entries.len();
        let mut lo: usize = 0;
        let mut hi: usize = n;
        while lo < hi
            invariant
                n == self@.len(),
                lo <= hi <= n,
                disjoint_sorted(self@),
                forall|j: int| 0 <= j < lo ==> #[trigger] self@[j].0.end <= k,
                forall|j: int| hi <= j < n ==> #[trigger] self@[j].0.end > k,
            decreases hi - lo,
        {
            let mid = lo + (hi - lo) / 2;
            if self.entries[mid].0.end <= k {
                proof {
                    assert forall|j: int| 0 <= j < mid + 1 implies #[trigger] self@[j].0.end
                        <= k by {
                        if j < mid {
                            assert(self@[j].0.end <= self@[mid as int].0.start);
                        }
                    }
                }
                lo = mid + 1;
            } else {
                proof {
                    assert forall|j: int| mid <= j < n implies #[trigger] self@[j].0.end > k by {
                        if j > mid {
                            assert(self@[mid as int].0.end <= self@[j].0.start);
                        }
                    }
                }
                hi = mid;
            }
        }
        lo
    }

    /// The number of entries that start before `k`: they come first.
    fn first_starting_from(&self, k: usize) -> (q: usize)
        requires
            self.well_formed(),
        ensures
            q <= self@.len(),
            forall|j: int| 0 <= j < q ==> #[trigger] self@[j].0.start < k,
            forall|j: int| q <= j < self@.len() ==> #[trigger] self@[j].0.start >= k,
    {
        let n = self.entries.len();
        let mut lo: usize = 0;
        let mut hi: usize = n;
        while lo < hi
            invariant
                n == self@.len(),
                lo <= hi <= n,
                disjoint_sorted(self@),
                forall|j: int| 0 <= j < lo ==> #[trigger] self@[j].0.start < k,
                forall|j: int| hi <= j < n ==> #[trigger] self@[j].0.start >= k,
            decreases hi - lo,
        {
            let mid = lo + (hi - lo) / 2;
            if self.entries[mid].0.start < k {
                proof {
                    assert forall|j: int| 0 <= j < mid + 1 implies #[trigger] self@[j].0.start
                        < k by {
                        if j < mid {
                            assert(self@[j].0.end <= self@[mid as int].0.start);
                        }
                    }
                }
                lo = mid + 1;
            } else {
                proof {
                    assert forall|j: int| mid <= j < n implies #[trigger] self@[j].0.start >= k by {
                        if j > mid {
                            assert(self@[mid as int].0.end <= self@[j].0.start);
                        }
                    }
                }
                hi = mid;
            }
        }
        lo
    }

    /// The index of the entry whose range holds `point`, if any.
    fn find(&self, point: usize) -> (r: Option<usize>)
        requires
            self.well_formed(),
        ensures
            match r {
                Some(j) => j < self@.len() && covers(self@[j as int], point as int),
                None => forall|j: int| 0 <= j < self@.len() ==> !covers(#[trigger] self@[j], point as int),
            },
    {
        let lo = self.first_ending_after(point);
        if lo < self.entries.len() && self.entries[lo].0.start <= point {
            Some(lo)
        } else {
            proof {
                assert forall|j: int| 0 <= j < self@.len() implies !covers(
                    #[trigger] self@[j],
                    point as int,
                ) by {
                    if j > lo {
                        assert(self@[lo as int].0.end <= self@[j].0.start);
                    }
                }
            }
            None
        }
    }

    /// The value of the entry whose range holds `point`, if any.
    pub fn get(&self, point: usize) -> (r: Option<&AttrsOwned>)
        requires
            self.well_formed(),
        ensures
            match r {
                Some(v) => lookup(self@, point as int) == Some(*v),
                None => lookup(self@, point as int) is None,
            },
    {
        match self.find(point) {
            Some(j) => {
                proof {
                    lemma_lookup_covering(self@, j as int, point as int);
                }
                Some(&self.entries[j].1)
            },
            None => {
                proof {
                    lemma_lookup_uncovered(self@, point as int);
                }
                None
            },
        }
    }

    /// The entry whose range holds `point`, with its exact range, if any.
    pub fn get_key_value(&self, point: usize) -> (r: Option<(&Range<usize>, &AttrsOwned)>)
        requires
            self.well_formed(),
        ensures
            match r {
                Some((k, v)) => {
                    &&& self@.contains((*k, *v))
                    &&& k.start <= point < k.end
                    &&& lookup(self@, point as int) == Some(*v)
                },
                None => lookup(self@, point as int) is None,
            },
    {
        match self.find(point) {
            Some(j) => {
                proof {
                    lemma_lookup_covering(self@, j as int, point as int);
                }
                let e = &self.entries[j];
                Some((&e.0, &e.1))
            },
            None => {
                proof {
                    lemma_lookup_uncovered(self@, point as int);
                }
                None
            },
        }
    }

    /// Removes the entry whose range is exactly `range`. Such an entry must
    /// be present.
    pub fn remove(&mut self, range: &Range<usize>)
        requires
            old(self).well_formed(),
            exists|j: int| 0 <= j < old(self)@.len() && #[trigger] old(self)@[j].0 == *range,
        ensures
            final(self).well_formed(),
            exists|j: int|
                0 <= j < old(self)@.len() && #[trigger] old(self)@[j].0 == *range && final(self)@
                    == old(self)@.remove(j),
    {
        let ghost s = self@;
        let ghost j0 = choose|j: int| 0 <= j < s.len() && #[trigger] s[j].0 == *range;
        assert(covers(s[j0], range.start as int));
        match self.find(range.start) {
            Some(j) => {
                proof {
                    if j != j0 {
                        if j < j0 {
                            assert(s[j as int].0.end <= s[j0].0.start);
                        } else {
                            assert(s[j0].0.end <= s[j as int].0.start);
                        }
                    }
                }
                self.entries.remove(j);
                proof {
                    let t = self@;
                    assert(t =~= s.remove(j as int));
                    assert forall|a: int, b: int| 0 <= a < b < t.len() implies #[trigger] t[a].0.end
                        <= #[trigger] t[b].0.start by {
                        let a0 = if a < j { a } else { a + 1 };
                        let b0 = if b < j { b } else { b + 1 };
                        assert(t[a] == s[a0] && t[b] == s[b0]);
                    }
                    assert forall|a: int| 0 <= a < t.len() implies #[trigger] t[a].0.start
                        < t[a].0.end by {
                        let a0 = if a < j { a } else { a + 1 };
                        assert(t[a] == s[a0]);
                    }
                }
            },
            None => {
                proof {
                    assert(!covers(s[j0], range.start as int));
                }
            },
        }
    }

    /// Splits the map at offset `at`: this map keeps what lies below `at`, and
    /// the returned map holds what lies at or above it, moved down by `at`.
    pub fn split_off(&mut self, at: usize) -> (r: Self)
        requires
            old(self).well_formed(),
        ensures
            final(self)@ == clip_below(old(self)@, at),
            r@ == shift_down(clip_above(old(self)@, at), at),
            final(self).well_formed(),
            r.well_formed(),
            forall|i: int|
                #![trigger lookup(final(self)@, i)]
                lookup(final(self)@, i) == (if i < at { lookup(old(self)@, i) } else { None }),
            forall|i: int|
                #![trigger lookup(r@, i)]
                0 <= i ==> lookup(r@, i) == lookup(old(self)@, i + at),
    {
        let ghost s = self@;
        let p = self.first_ending_after(at);
        let q = self.first_starting_from(at);
        proof {
            if q < p {
                assert(s[q as int].0.start < s[q as int].0.end);
            }
            if q > p + 1 {
                assert(s[p as int].0.end <= s[p + 1].0.start);
            }
            lemma_clip_below_at(s, p as int, q as int, at, at);
            lemma_clip_above_at(s, p as int, q as int, at, at);
            lemma_clip_below_sorted(s, at);
            lemma_clip_above_sorted(s, at);
        }
        let ghost c = clip_above(s, at);
        let n = self.entries.len();
        let mut moved: Vec<Entry> = Vec::new();
        let mut j: usize = p;
        while j < n
            invariant
                n == s.len(),
                self@ == s,
                p <= j <= n,
                p <= q <= p + 1,
                q <= n,
                c == right_rest(s, p as int, q as int, at) + s.subrange(q as int, n as int),
                forall|i: int| p <= i < n ==> #[trigger] s[i].0.end > at,
                forall|i: int| q <= i < n ==> #[trigger] s[i].0.start >= at,
                p < q ==> s[p as int].0.start < at,
                starts_from(c, at as int),
                moved@ =~= shift_down(c, at).subrange(0, j - p),
            decreases n - j,
        {
            let e = &self.entries[j];
            let start = if e.0.start > at { e.0.start } else { at };
            proof {
                assert(c[j - p] == (Range { start, end: e.0.end }, e.1));
            }
            moved.push((Range { start: start - at, end: e.0.end - at }, e.1.clone()));
            j = j + 1;
        }
        let mut left: Vec<Entry> = Vec::new();
        if p < q {
            left.push((Range { start: self.entries[p].0.start, end: at }, self.entries[p].1.clone()));
        }
        self.entries.truncate(p);
        self.entries.append(&mut left);
        proof {
            assert(self@ =~= clip_below(s, at));
            assert(moved@ =~= shift_down(c, at));
            lemma_shift_down_sorted(c, at);
            assert forall|i: int| #[trigger]
                lookup(self@, i) == (if i < at { lookup(s, i) } else { None }) by {
                lemma_lookup_clip_below(s, at, i);
            }
            assert forall|i: int| 0 <= i implies #[trigger] lookup(moved@, i) == lookup(s, i + at) by {
                lemma_lookup_shift_down(c, at, i);
                lemma_lookup_clip_above(s, at, i + at);
            }
        }
        SpanMap { entries: moved }
    }
}

/// Two entries have the same range and equal attributes.
pub open spec fn same_entry(x: Entry, y: Entry) -> bool {
    x.0 == y.0 && same_attrs_owned(x.1, y.1)
}

/// Two entry sequences have the same ranges, in the same order, with equal
/// attributes.
pub open spec fn same_entries(x: Seq<Entry>, y: Seq<Entry>) -> bool {
    &&& x.len() == y.len()
    &&& forall|j: int| 0 <= j < x.len() ==> same_entry(#[trigger] x[j], y[j])
}

impl PartialEq for SpanMap {
    fn eq(&self, other: &Self) -> (r: bool) {
        let n = self.entries.len();
        if n != other.entries.len() {
            return false;
        }
        let mut j: usize = 0;
        while j < n
            invariant
                n == self@.len(),
                n == other@.len(),
                j <= n,
                forall|i: int| 0 <= i < j ==> same_entry(#[trigger] self@[i], other@[i]),
            decreases n - j,
        {
            let a = &self.entries[j];
            let b = &other.entries[j];
            if a.0.start != b.0.start || a.0.end != b.0.end || !(a.1 == b.1) {
                return false;
            }
            assert(same_entry(self@[j as int], other@[j as int]));
            j = j + 1;
        }
        true
    }
}

impl vstd::std_specs::cmp::PartialEqSpecImpl for SpanMap {
    open spec fn obeys_eq_spec() -> bool {
        true
    }

    open spec fn eq_spec(&self, other: &Self) -> bool {
        same_entries(self@, other@)
    }
}

impl Eq for SpanMap {
}

} // verus!
