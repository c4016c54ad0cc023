use crate::attrs::{attrs_owns, same_attrs_owned, Attrs, AttrsOwned};
use crate::span_map::{
    clip_above, clip_below, disjoint_sorted, ends_by, lemma_clip_above_all, lemma_clip_above_none,
    lemma_clip_below_all, lemma_clip_below_none, lookup, overwritten, same_entries, shift_down, Entry, SpanMap,
};
use core::ops::Range;
use vstd::prelude::*;

verus! {

/// The attributes of one line of text: a default set, and spans of byte
/// offsets that override it.
pub struct AttrsList {
    defaults: AttrsOwned,
    spans: SpanMap,
}

impl AttrsList {
    /// The attributes that apply where no span does.
    pub closed spec fn default_attrs(&self) -> AttrsOwned {
        self.defaults
    }

    /// The spans, in ascending order.
    pub closed spec fn span_entries(&self) -> Seq<Entry> {
        self.spans@
    }

    /// The spans are non-empty, ascending and pairwise disjoint.
    pub open spec fn well_formed(&self) -> bool {
        disjoint_sorted(self.span_entries())
    }

    /// The attributes that apply at offset `i`.
    pub open spec fn attrs_at(&self, i: int) -> AttrsOwned {
        match lookup(self.span_entries(), i) {
            Some(v) => v,
            None => self.default_attrs(),
        }
    }

    /// A list with no spans and a copy of `defaults`.
    pub fn new(defaults: Attrs) -> (r: Self)
        ensures
            attrs_owns(r.default_attrs(), defaults),
            r.span_entries() == Seq::<Entry>::empty(),
            r.well_formed(),
    {
        AttrsList { defaults: AttrsOwned::new(defaults), spans: SpanMap::new() }
    }

    /// The default attributes.
    pub fn defaults(&self) -> (r: Attrs<'_>)
        ensures
            attrs_owns(self.default_attrs(), r),
    {
        self.defaults.as_attrs()
    }

    /// A copy of the current spans, in ascending order.
    pub fn spans(&self) -> (r: Vec<(Range<usize>, AttrsOwned)>)
        ensures
            r@ == self.span_entries(),
    {
        self.spans.entries()
    }

    /// Removes every span; the defaults stay.
    pub fn clear_spans(&mut self)
        ensures
            final(self).span_entries() == Seq::<Entry>::empty(),
            final(self).default_attrs() == old(self).default_attrs(),
            final(self).well_formed(),
    {
        self.spans.clear();
    }

    /// Assigns `attrs` to the offsets of `range`, replacing what any earlier
    /// span gave them. An empty range changes nothing.
    pub fn add_span(&mut self, range: Range<usize>, attrs: Attrs)
        requires
            old(self).well_formed(),
            range.start <= range.end,
        ensures
            final(self).well_formed(),
            final(self).default_attrs() == old(self).default_attrs(),
            range.start == range.end ==> final(self).span_entries() == old(self).span_entries(),
            range.start < range.end ==> exists|v: AttrsOwned|
                {
                    &&& attrs_owns(v, attrs)
                    &&& final(self).span_entries() == overwritten(
                        old(self).span_entries(),
                        range,
                        v,
                    )
                    &&& forall|i: int|
                        #![trigger final(self).attrs_at(i)]
                        final(self).attrs_at(i) == (if range.start <= i < range.end {
                            v
                        } else {
                            old(self).attrs_at(i)
                        })
                },
    {
        if range.start == range.end {
            return;
        }
        let v = AttrsOwned::new(attrs);
        let ghost gv = v;
        self.spans.insert(range, v);
        proof {
            assert forall|i: int| #[trigger] self.attrs_at(i) == (if range.start <= i < range.end {
                gv
            } else {
                old(self).attrs_at(i)
            }) by {
                assert(lookup(self.span_entries(), i) == (if range.start <= i < range.end {
                    Some(gv)
                } else {
                    lookup(old(self).span_entries(), i)
                }));
            }
        }
    }

    /// The attributes that apply at offset `index`: those of the span that
    /// holds it, else the defaults.
    pub fn get_span(&self, index: usize) -> (r: Attrs<'_>)
        requires
            self.well_formed(),
        ensures
            attrs_owns(self.attrs_at(index as int), r),
    {
        match self.spans.get(index) {
            Some(v) => v.as_attrs(),
            None => self.defaults.as_attrs(),
        }
    }

    /// Splits the line at byte offset `index`: offsets below it stay here, and
    /// the returned list holds the rest, renumbered from 0, with the same
    /// defaults.
    pub fn split_off(&mut self, index: usize) -> (r: Self)
        requires
            old(self).well_formed(),
        ensures
            final(self).well_formed(),
            r.well_formed(),
            final(self).default_attrs() == old(self).default_attrs(),
            r.default_attrs() == old(self).default_attrs(),
            final(self).span_entries() == clip_below(old(self).span_entries(), index),
            r.span_entries() == shift_down(clip_above(old(self).span_entries(), index), index),
            forall|i: int|
                #![trigger final(self).attrs_at(i)]
                0 <= i < index ==> final(self).attrs_at(i) == old(self).attrs_at(i),
            forall|i: int|
                #![trigger r.attrs_at(i)]
                0 <= i ==> r.attrs_at(i) == old(self).attrs_at(i + index),
    {
        let moved = self.spans.split_off(index);
        let r = AttrsList { defaults: self.defaults.clone(), spans: moved };
        proof {
            assert forall|i: int| 0 <= i implies #[trigger] r.attrs_at(i) == old(self).attrs_at(
                i + index,
            ) by {
                assert(lookup(r.span_entries(), i) == lookup(old(self).span_entries(), i + index));
            }
        }
        r
    }
}

impl PartialEq for AttrsList {
    fn eq(&self, other: &Self) -> (r: bool) {
        self.defaults == other.defaults && self.spans == other.spans
    }
}

impl vstd::std_specs::cmp::PartialEqSpecImpl for AttrsList {
    open spec fn obeys_eq_spec() -> bool {
        true
    }

    open spec fn eq_spec(&self, other: &Self) -> bool {
        same_attrs_owned(self.default_attrs(), other.default_attrs()) && same_entries(
            self.span_entries(),
            other.span_entries(),
        )
    }
}

impl Eq for AttrsList {
}

/// After any sequence of span assignments, no two spans overlap: each ends
/// before or where the next begins, and none is empty.
pub proof fn lemma_spans_disjoint(l: AttrsList)
    requires
        l.well_formed(),
    ensures
        forall|j: int, k: int|
            0 <= j < k < l.span_entries().len() ==> #[trigger] l.span_entries()[j].0.end
                <= #[trigger] l.span_entries()[k].0.start,
        forall|j: int|
            0 <= j < l.span_entries().len() ==> #[trigger] l.span_entries()[j].0.start
                < l.span_entries()[j].0.end,
{
}

/// Splitting at offset 0 leaves no span behind and moves every span,
/// unshifted, to the new list.
pub proof fn lemma_split_at_zero(l: AttrsList)
    requires
        l.well_formed(),
    ensures
        clip_below(l.span_entries(), 0) == Seq::<Entry>::empty(),
        shift_down(clip_above(l.span_entries(), 0), 0) == l.span_entries(),
{
    let s = l.span_entries();
    lemma_clip_below_none(s, 0);
    lemma_clip_above_all(s, 0);
    assert(shift_down(s, 0) =~= s);
}

/// Splitting at an offset no span ends beyond leaves every span in place and
/// moves none.
pub proof fn lemma_split_past_end(l: AttrsList, index: usize)
    requires
        l.well_formed(),
        ends_by(l.span_entries(), index as int),
    ensures
        clip_below(l.span_entries(), index) == l.span_entries(),
        shift_down(clip_above(l.span_entries(), index), index) == Seq::<Entry>::empty(),
{
    let s = l.span_entries();
    lemma_clip_below_all(s, index);
    lemma_clip_above_none(s, index);
    assert(shift_down(Seq::<Entry>::empty(), index) =~= Seq::<Entry>::empty());
}

} // verus!
