//! An append-only array in segments that never move.
//!
//! The same doubling segments as in the vector store. Slots are written by
//! index; one that was skipped stays empty until it is written.

use crate::doubling::{
    law_every_row_has_one_place, law_places_are_distinct, lemma_segments_grow, place_of,
    rows_before, rows_in, segment_of, MAX_SEGMENTS,
};
use vstd::prelude::*;

verus! {

/// Which segment holds slot `index`, and the slot's place within it.
#[inline]
pub fn locate(index: usize) -> (at: (usize, usize))
    ensures
        at.0 == segment_of(index as nat),
        at.1 == place_of(index as nat),
        at.0 <= 54,
{
    let (seg, place) = crate::doubling::locate(index as u64);
    proof {
        law_every_row_has_one_place(index as nat, 0);
        lemma_segments_grow(0, seg as nat);
    }
    (seg, place as usize)
}

/// The number of slots in a segment.
pub fn seg_len(seg: usize) -> (len: usize)
    requires
        seg <= 53,
        rows_in(seg as nat) <= usize::MAX,
    ensures
        len == rows_in(seg as nat),
{
    crate::doubling::seg_rows(seg) as usize
}

/// An array of slots.
pub struct SegVec<T> {
    segments: Vec<Vec<Option<T>>>,
    len: usize,
}

/// An empty segment.
fn empty_segment<T>(len: usize) -> (slots: Vec<Option<T>>)
    ensures
        slots@ == Seq::new(len as nat, |i: int| None::<T>),
{
    let mut slots: Vec<Option<T>> = Vec::with_capacity(len);
    while slots.len() < len
        invariant
            slots@.len() <= len,
            slots@ == Seq::new(slots@.len(), |i: int| None::<T>),
        decreases len - slots@.len(),
    {
        slots.push(None);
        assert(slots@ =~= Seq::new(slots@.len(), |i: int| None::<T>));
    }
    slots
}

/// The slots after `index` is written.
pub open spec fn slot_set<T>(slots: Seq<Option<T>>, index: int, value: T) -> Seq<Option<T>> {
    Seq::new(
        if index < slots.len() {
            slots.len()
        } else {
            (index + 1) as nat
        },
        |i: int|
            if i == index {
                Some(value)
            } else if i < slots.len() {
                slots[i]
            } else {
                None
            },
    )
}

impl<T> View for SegVec<T> {
    type V = Seq<Option<T>>;

    closed spec fn view(&self) -> Seq<Option<T>> {
        Seq::new(self.len as nat, |i: int| self.slot(i as nat))
    }
}

/// Changing a value in place changes that slot alone.
proof fn lemma_slot_updated<T>(before: SegVec<T>, after: SegVec<T>, index: nat, value: T)
    requires
        before.wf(),
        index < before@.len(),
        after.len == before.len,
        after.segments@.len() == before.segments@.len(),
        forall|k: int|
            0 <= k < before.segments@.len() && k != segment_of(index) ==> #[trigger]
            after.segments@[k] == before.segments@[k],
        after.segments@[segment_of(index) as int]@ == before.segments@[segment_of(
            index,
        ) as int]@.update(place_of(index), Some(value)),
    ensures
        after.wf(),
        after@ == before@.update(index as int, Some(value)),
{
    before.lemma_slot_is_there(index);
    assert forall|i: nat| i < rows_before(before.segments@.len()) implies (#[trigger] after.slot(i))
        == if i == index {
        Some(value)
    } else {
        before.slot(i)
    } by {
        before.lemma_slot_is_there(i);
        law_places_are_distinct(i, index);
    }
    assert(after@ =~= before@.update(index as int, Some(value)));
}

impl<T> SegVec<T> {
    spec fn slot(&self, index: nat) -> Option<T> {
        self.segments@[segment_of(index) as int]@[place_of(index)]
    }

    /// Every segment has its size, and slots behind the end are empty.
    pub closed spec fn wf(&self) -> bool {
        &&& self.segments@.len() <= MAX_SEGMENTS
        &&& forall|k: int|
            0 <= k < self.segments@.len() ==> (#[trigger] self.segments@[k])@.len() == rows_in(
                k as nat,
            )
        &&& self.len <= rows_before(self.segments@.len())
        &&& forall|i: nat|
            self.len <= i < rows_before(self.segments@.len()) ==> #[trigger] self.slot(i) is None
    }

    pub fn new() -> (v: SegVec<T>)
        ensures
            v.wf(),
            v@ == Seq::<Option<T>>::empty(),
    {
        proof {
            lemma_segments_grow(0, 0);
        }
        let v = SegVec { segments: Vec::new(), len: 0 };
        assert(v@ =~= Seq::<Option<T>>::empty());
        v
    }

    pub fn len(&self) -> (n: usize)
        ensures
            n == self@.len(),
    {
        self.len
    }

    /// A slot that lies before the end of the segments lies in one of them.
    proof fn lemma_slot_is_there(&self, index: nat)
        requires
            self.wf(),
            index < rows_before(self.segments@.len()),
        ensures
            segment_of(index) < self.segments@.len(),
            0 <= place_of(index) < self.segments@[segment_of(index) as int]@.len(),
    {
        law_every_row_has_one_place(index, segment_of(index));
        if segment_of(index) >= self.segments@.len() {
            lemma_segments_grow(self.segments@.len(), segment_of(index));
        }
    }

    fn ensure_segment(&mut self, seg: usize)
        requires
            old(self).wf(),
            seg < MAX_SEGMENTS,
            rows_in(seg as nat) <= usize::MAX,
        ensures
            final(self).wf(),
            final(self)@ == old(self)@,
            final(self).len == old(self).len,
            final(self).segments@.len() > seg,
    {
        while self.segments.len() <= seg
            invariant
                self.wf(),
                self@ == old(self)@,
                self.len == old(self).len,
                seg < MAX_SEGMENTS,
                rows_in(seg as nat) <= usize::MAX,
            decreases seg + 1 - self.segments@.len(),
        {
            let ghost before = *self;
            let at: usize = self.segments.len();
            proof {
                lemma_segments_grow(at as nat, seg as nat);
                law_every_row_has_one_place(0, at as nat);
            }
            let slots: Vec<Option<T>> = empty_segment(seg_len(at));
            self.segments.push(slots);
            proof {
                assert(self.segments@ =~= before.segments@.push(slots));
                assert forall|i: nat| i < rows_before(self.segments@.len()) implies (#[trigger]
                self.slot(i)) == if i < rows_before(at as nat) {
                    before.slot(i)
                } else {
                    None
                } by {
                    if i < rows_before(at as nat) {
                        before.lemma_slot_is_there(i);
                    } else {
                        law_every_row_has_one_place(i, at as nat);
                    }
                }
                assert(self@ =~= before@);
            }
        }
    }

    /// Writes `value` into slot `index`.
    pub fn set(&mut self, index: usize, value: T)
        requires
            old(self).wf(),
            segment_of(index as nat) < MAX_SEGMENTS,
            index < usize::MAX - 1024,
        ensures
            final(self).wf(),
            final(self)@ == slot_set(old(self)@, index as int, value),
    {
        let (seg, off) = locate(index);
        proof {
            law_every_row_has_one_place(index as nat, seg as nat);
        }
        self.ensure_segment(seg);
        let ghost before = *self;
        proof {
            lemma_segments_grow((seg + 1) as nat, self.segments@.len());
            self.lemma_slot_is_there(index as nat);
        }
        self.segments[seg][off] = Some(value);
        if self.len <= index {
            self.len = index + 1;
        }
        proof {
            assert forall|i: nat| i < rows_before(self.segments@.len()) implies (#[trigger]
            self.slot(i)) == if i == index {
                Some(value)
            } else {
                before.slot(i)
            } by {
                before.lemma_slot_is_there(i);
                law_places_are_distinct(i, index as nat);
            }
            assert(self@ =~= slot_set(before@, index as int, value));
        }
    }

    /// Reads slot `index`, which must have been written.
    #[inline]
    pub fn get_unchecked(&self, index: usize) -> (value: &T)
        requires
            self.wf(),
            index < self@.len(),
            self@[index as int] is Some,
        ensures
            *value == self@[index as int]->0,
    {
        let (seg, off) = locate(index);
        proof {
            self.lemma_slot_is_there(index as nat);
        }
        match &self.segments[seg][off] {
            Some(value) => value,
            None => {
                proof {
                    assert(self.slot(index as nat) is Some);
                    assert(false);
                }
                vstd::pervasive::unreached()
            },
        }
    }

    /// The value in slot `index`, to be changed in place.
    pub fn get_mut(&mut self, index: usize) -> (value: &mut T)
        requires
            old(self).wf(),
            index < old(self)@.len(),
            old(self)@[index as int] is Some,
        ensures
            *value == old(self)@[index as int]->0,
            final(self).wf(),
            final(self)@ == old(self)@.update(index as int, Some(*final(value))),
    {
        let (seg, off) = locate(index);
        proof {
            self.lemma_slot_is_there(index as nat);
            assert(self.slot(index as nat) is Some);
        }
        let ghost (before, after) = (*old(self), *final(self));
        let value: &mut T = match &mut self.segments[seg][off] {
            Some(value) => value,
            None => vstd::pervasive::unreached(),
        };
        proof {
            lemma_slot_updated(before, after, index as nat, *final(value));
        }
        value
    }
}

} // verus!
