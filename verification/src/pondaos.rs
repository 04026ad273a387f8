//! The pool itself: a dense backing array of optional values kept in
//! step with an occupancy bitmap.
//!
//! `insert` hands out the lowest free index, `write` reserves a chosen
//! index (growing the pool when needed), `free` releases one, and
//! `defrag` / `trim` re-establish density, returning a remap table for
//! the indices they moved.

use vstd::prelude::*;
use vstd::pervasive::VecAdditionalExecFns;
use std::collections::HashMap;
use crate::bitmap::AcceleratedBitmap;

verus! {

broadcast use {vstd::std_specs::hash::group_hash_axioms, vstd::seq_lib::group_to_multiset_ensures};

/// True when some key of the remap table `m` points at index `i`.
spec fn in_dests(m: Map<usize, usize>, i: int) -> bool {
    exists|k: usize| #[trigger] m.contains_key(k) && m[k] == i
}

/// Updating one slot changes the occupied count by the difference of the
/// old and new entry.
proof fn lemma_count_some_update<T>(s: Seq<Option<T>>, i: int, v: Option<T>)
    requires
        0 <= i < s.len(),
    ensures
        count_some(s.update(i, v)) == count_some(s) - (if s[i] is Some {
            1int
        } else {
            0int
        }) + (if v is Some {
            1int
        } else {
            0int
        }),
    decreases s.len(),
{
    if i == s.len() - 1 {
        assert(s.update(i, v).drop_last() =~= s.drop_last());
    } else {
        assert(s.update(i, v).drop_last() =~= s.drop_last().update(i, v));
        lemma_count_some_update(s.drop_last(), i, v);
    }
}

/// A dense pool model — occupied slots first, free slots after — has as
/// many occupied slots as its boundary index says.
proof fn lemma_count_some_dense<T>(s: Seq<Option<T>>, k: int)
    requires
        0 <= k <= s.len(),
        forall|i: int| 0 <= i < k ==> (#[trigger] s[i]) is Some,
        forall|i: int| k <= i < s.len() ==> !((#[trigger] s[i]) is Some),
    ensures
        count_some(s) == k,
    decreases s.len(),
{
    if s.len() != 0 {
        if k == s.len() {
            lemma_count_some_dense(s.drop_last(), k - 1);
        } else {
            lemma_count_some_dense(s.drop_last(), k);
        }
    }
}

/// True when index `i` of the pool model `s` holds a value.
pub open spec fn occupied_at<T>(s: Seq<Option<T>>, i: int) -> bool {
    0 <= i < s.len() && s[i] is Some
}

/// What a lookup at index `i` of the pool model `s` yields.
pub open spec fn spec_get<T>(s: Seq<Option<T>>, i: int) -> Option<T> {
    if occupied_at(s, i) {
        s[i]
    } else {
        None
    }
}

/// The number of occupied slots of the pool model `s`.
pub open spec fn count_some<T>(s: Seq<Option<T>>) -> int
    decreases s.len(),
{
    if s.len() == 0 {
        0
    } else {
        count_some(s.drop_last()) + (if s.last() is Some {
            1int
        } else {
            0int
        })
    }
}

/// The pool model after growing to hold index `idx` and storing `v` there.
pub open spec fn spec_write<T>(s: Seq<Option<T>>, idx: int, v: T) -> Seq<Option<T>> {
    Seq::new(
        if idx < s.len() {
            s.len()
        } else {
            (idx + 1) as nat
        },
        |i: int|
            if i == idx {
                Some(v)
            } else if i < s.len() {
                s[i]
            } else {
                None
            },
    )
}

/// Index fidelity: a slot reports itself occupied exactly when a lookup
/// there yields a value. `is_occupied` answers `occupied_at` and `get`
/// answers `spec_get`, so the two public queries can never disagree.
pub proof fn lemma_index_fidelity<T>(s: Seq<Option<T>>, i: int)
    ensures
        occupied_at(s, i) <==> spec_get(s, i) is Some,
{
}

/// Allocate–release round trip: storing `v` in the lowest free slot
/// `idx` and then releasing that slot hands `v` back and restores the
/// pool's model exactly. `idx < s.len()` asks that a free slot exists:
/// on a full pool `insert` grows the pool by one slot, and the grown
/// slot remains as capacity after the release.
pub proof fn lemma_insert_free_round_trip<T>(s: Seq<Option<T>>, idx: int, v: T)
    requires
        0 <= idx < s.len(),
        s[idx] is None,
    ensures
        ({
            let after_insert = s.update(idx, Some(v));
            &&& occupied_at(after_insert, idx)
            &&& spec_get(after_insert, idx) == Some(v)
            &&& after_insert.update(idx, None) =~= s
        }),
{
}

/// Write idempotence at an occupied slot: after `write(idx, v)`, a
/// second `write(idx, w)` hands back `Some(v)` and leaves the slot
/// holding `w`; the pool looks as if only the second write had happened.
pub proof fn lemma_write_twice<T>(s: Seq<Option<T>>, idx: int, v: T, w: T)
    requires
        0 <= idx,
    ensures
        spec_get(spec_write(s, idx, v), idx) == Some(v),
        spec_write(spec_write(s, idx, v), idx, w)[idx] == Some(w),
        spec_write(spec_write(s, idx, v), idx, w) =~= spec_write(s, idx, w),
{
}

/// An object pool over `T`.
///
/// Each slot of the backing array either holds a value or is free; the
/// bitmap records which, and `insert` always fills the lowest free slot.
pub struct Pond<T> {
    data: Vec<Option<T>>,
    bitmap: AcceleratedBitmap,
}

impl<T> Pond<T> {
    /// The pool's model: the sequence of its slots, one `Option` per slot.
    pub closed spec fn view(&self) -> Seq<Option<T>> {
        self.data@
    }

    /// The backing array and the bitmap agree on every slot.
    pub closed spec fn wf(&self) -> bool {
        &&& self.bitmap.wf()
        &&& self.bitmap.spec_size() == self.data@.len()
        &&& self.bitmap@.len() == self.data@.len()
        &&& forall|i: int| 0 <= i < self.data@.len() ==> self.bitmap@[i] == (#[trigger] self.data@[i] is Some)
    }

    /// Clears the occupancy bit for `idx`; the slot's contents are not touched.
    fn mark_free(&mut self, idx: usize)
        requires
            old(self).bitmap.wf(),
            idx < old(self).bitmap.spec_size(),
        ensures
            final(self).data == old(self).data,
            final(self).bitmap.wf(),
            final(self).bitmap.spec_size() == old(self).bitmap.spec_size(),
            final(self).bitmap@ =~= old(self).bitmap@.update(idx as int, false),
    {
        self.bitmap.set(idx, false)
    }

    /// Sets the occupancy bit for `idx`; the slot's contents are not touched.
    fn mark_reserved(&mut self, idx: usize)
        requires
            old(self).bitmap.wf(),
            idx < old(self).bitmap.spec_size(),
        ensures
            final(self).data == old(self).data,
            final(self).bitmap.wf(),
            final(self).bitmap.spec_size() == old(self).bitmap.spec_size(),
            final(self).bitmap@ =~= old(self).bitmap@.update(idx as int, true),
    {
        self.bitmap.set(idx, true);
    }

    /// Claims the lowest free slot, growing the pool by one slot when none
    /// is free, and returns its index. The slot's bit is set; the caller
    /// must store a value there to restore the pool's coherence.
    #[must_use]
    fn reserve(&mut self) -> (idx: usize)
        requires
            old(self).wf(),
            old(self)@.len() < usize::MAX,
        ensures
            idx as int <= old(self)@.len(),
            forall|k: int| 0 <= k < idx ==> old(self)@[k] is Some,
            idx < old(self)@.len() ==> old(self)@[idx as int] is None,
            final(self).data@ =~= (if idx < old(self)@.len() {
                old(self).data@
            } else {
                old(self).data@.push(None)
            }),
            final(self).bitmap.wf(),
            final(self).bitmap.spec_size() == final(self).data@.len(),
            final(self).bitmap@ =~= Seq::new(
                final(self).data@.len(),
                |i: int| i == idx || occupied_at(old(self)@, i),
            ),
    {
        let idx = match self.bitmap.first_free() {
            Some(i) => i,
            None => self.data.len(),
        };
        if idx >= self.data.len() {
            self.resize(idx + 1);
        }
        let ghost mid = *self;
        proof {
            assert(mid.wf());
            assert(idx < mid.data@.len());
        }
        self.mark_reserved(idx);
        proof {
            assert forall|i: int| 0 <= i < self.data@.len() implies self.bitmap@[i] == (i == idx
                || occupied_at(old(self)@, i)) by {
                if i != idx {
                    assert(self.bitmap@[i] == mid.bitmap@[i]);
                    assert(mid.bitmap@[i] == (mid.data@[i] is Some));
                    if i < old(self)@.len() {
                        assert(mid.data@[i] == old(self).data@[i]);
                    }
                }
            }
        }
        idx
    }

    /// Creates an empty pool.
    pub fn new() -> (r: Self)
        ensures
            r.wf(),
            r@ =~= Seq::<Option<T>>::empty(),
    {
        Self { data: Vec::new(), bitmap: AcceleratedBitmap::new(3) }
    }

    /// Whether the slot `idx` currently holds a value.
    pub fn is_occupied(&self, idx: usize) -> (r: bool)
        requires
            self.wf(),
        ensures
            r == occupied_at(self@, idx as int),
    {
        if idx < self.data.len() {
            self.bitmap.is_set(idx)
        } else {
            false
        }
    }

    /// The number of slots the pool holds, free and occupied together.
    pub fn len(&self) -> (r: usize)
        ensures
            r == self@.len(),
    {
        self.data.len()
    }

    /// The index that the next `insert` will fill: the lowest free slot,
    /// or the pool's length when every slot is occupied.
    pub fn next_index(&self) -> (r: usize)
        requires
            self.wf(),
        ensures
            r as int <= self@.len(),
            forall|k: int| 0 <= k < r ==> self@[k] is Some,
            r < self@.len() ==> self@[r as int] is None,
    {
        match self.bitmap.first_free() {
            Some(i) => i,
            None => self.data.len(),
        }
    }

    /// Sets the pool to hold exactly `size` slots. Slots below the old
    /// and new size keep their contents; values at or beyond `size` are
    /// dropped; new slots start out free.
    pub fn resize(&mut self, size: usize)
        requires
            old(self).wf(),
        ensures
            final(self).wf(),
            final(self)@ =~= Seq::new(
                size as nat,
                |i: int|
                    if i < old(self)@.len() {
                        old(self)@[i]
                    } else {
                        None
                    },
            ),
    {
        if size <= self.data.len() {
            self.data.truncate(size);
        } else {
            while self.data.len() < size
                invariant
                    old(self)@.len() <= self.data@.len(),
                    self.data@.len() <= size,
                    self.data@ =~= old(self).data@ + Seq::new(
                        (self.data@.len() - old(self)@.len()) as nat,
                        |i: int| None,
                    ),
                    self.bitmap == old(self).bitmap,
                decreases size - self.data@.len(),
            {
                self.data.push(None);
            }
        }
        self.bitmap.resize(size);
        proof {
            assert forall|i: int| 0 <= i < self.data@.len() implies self.bitmap@[i] == (
            #[trigger] self.data@[i] is Some) by {
                if i < old(self)@.len() {
                    assert(old(self).bitmap@[i] == (old(self).data@[i] is Some));
                    assert(self.data@[i] == old(self).data@[i]);
                } else {
                    assert(self.data@[i] is None);
                }
            }
            assert(self@ =~= Seq::new(
                size as nat,
                |i: int|
                    if i < old(self)@.len() {
                        old(self)@[i]
                    } else {
                        None
                    },
            ));
        }
    }

    /// A reference to the value at `idx`, or `None` when the slot is out
    /// of range or free.
    pub fn get(&self, idx: usize) -> (r: Option<&T>)
        requires
            self.wf(),
        ensures
            match r {
                Some(v) => occupied_at(self@, idx as int) && self@[idx as int] == Some(*v),
                None => !occupied_at(self@, idx as int),
            },
    {
        if !self.is_occupied(idx) {
            return None;
        }
        match &self.data[idx] {
            Some(v) => Some(v),
            None => None,
        }
    }

    /// A mutable reference to the value at `idx`, or `None` when the
    /// slot is out of range or free.
    pub fn get_mut(&mut self, idx: usize) -> (r: Option<&mut T>)
        requires
            old(self).wf(),
        ensures
            final(self).wf(),
            match r {
                Some(v) => occupied_at(old(self)@, idx as int) && old(self)@[idx as int] == Some(
                    *v,
                ) && final(self)@ =~= old(self)@.update(idx as int, Some(*final(v))),
                None => !occupied_at(old(self)@, idx as int) && final(self)@ == old(self)@,
            },
    {
        if !self.is_occupied(idx) {
            return None;
        }
        match &mut self.data[idx] {
            Some(v) => Some(v),
            None => None,
        }
    }

    /// Stores `data` in the lowest free slot and returns that slot's
    /// index; when no slot is free the pool grows by one.
    #[must_use]
    pub fn insert(&mut self, data: T) -> (idx: usize)
        requires
            old(self).wf(),
            old(self)@.len() < usize::MAX,
        ensures
            final(self).wf(),
            idx as int <= old(self)@.len(),
            forall|k: int| 0 <= k < idx ==> old(self)@[k] is Some,
            idx < old(self)@.len() ==> old(self)@[idx as int] is None,
            final(self)@ =~= (if idx < old(self)@.len() {
                old(self)@.update(idx as int, Some(data))
            } else {
                old(self)@.push(Some(data))
            }),
    {
        let idx = self.reserve();
        let ghost mid = *self;
        self.data.set(idx, Some(data));
        proof {
            assert forall|i: int| 0 <= i < self.data@.len() implies self.bitmap@[i] == (
            #[trigger] self.data@[i] is Some) by {
                assert(self.bitmap@[i] == (i == idx || occupied_at(old(self)@, i)));
                if i != idx && i < old(self)@.len() {
                    assert(self.data@[i] == old(self).data@[i]);
                }
            }
        }
        idx
    }

    /// Stores `new_data` at `idx`, growing the pool when `idx` lies
    /// beyond it, and returns the value previously held there, if any.
    pub fn write(&mut self, idx: usize, new_data: T) -> (old_value: Option<T>)
        requires
            old(self).wf(),
            idx < usize::MAX,
        ensures
            final(self).wf(),
            old_value == spec_get(old(self)@, idx as int),
            final(self)@ =~= spec_write(old(self)@, idx as int, new_data),
    {
        if idx >= self.data.len() {
            self.resize(idx + 1);
        }
        let ghost mid = *self;
        proof {
            assert(mid.wf());
            assert(idx < mid.data@.len());
        }
        let mut slot: Option<T> = Some(new_data);
        self.data.set_and_swap(idx, &mut slot);
        self.mark_reserved(idx);
        proof {
            assert forall|i: int| 0 <= i < self.data@.len() implies self.bitmap@[i] == (
            #[trigger] self.data@[i] is Some) by {
                if i != idx {
                    assert(self.bitmap@[i] == mid.bitmap@[i]);
                    assert(mid.bitmap@[i] == (mid.data@[i] is Some));
                    assert(self.data@[i] == mid.data@[i]);
                }
            }
            assert(self@ =~= spec_write(old(self)@, idx as int, new_data)) by {
                assert forall|i: int| 0 <= i < self.data@.len() implies self.data@[i]
                    == spec_write(old(self)@, idx as int, new_data)[i] by {
                    if i != idx {
                        assert(self.data@[i] == mid.data@[i]);
                        if idx < old(self)@.len() {
                            assert(mid.data@[i] == old(self).data@[i]);
                        }
                    }
                }
            }
            if idx < old(self)@.len() {
                assert(mid.data@[idx as int] == old(self).data@[idx as int]);
            } else {
                assert(mid.data@[idx as int] is None);
            }
        }
        slot
    }

    /// Releases the slot `idx`, handing its value back, or `None` when
    /// the slot was already free or out of range.
    pub fn free(&mut self, idx: usize) -> (r: Option<T>)
        requires
            old(self).wf(),
        ensures
            final(self).wf(),
            occupied_at(old(self)@, idx as int) ==> r == old(self)@[idx as int] && final(self)@
                =~= old(self)@.update(idx as int, None),
            !occupied_at(old(self)@, idx as int) ==> r is None && final(self)@ == old(self)@,
    {
        if !self.is_occupied(idx) {
            return None;
        }
        self.mark_free(idx);
        let mut slot: Option<T> = None;
        self.data.set_and_swap(idx, &mut slot);
        proof {
            assert forall|i: int| 0 <= i < self.data@.len() implies self.bitmap@[i] == (
            #[trigger] self.data@[i] is Some) by {
                if i != idx {
                    assert(self.bitmap@[i] == old(self).bitmap@[i]);
                    assert(old(self).bitmap@[i] == (old(self).data@[i] is Some));
                    assert(self.data@[i] == old(self).data@[i]);
                }
            }
        }
        slot
    }

    /// Moves values from the highest occupied slots into the lowest free
    /// slots until the occupied slots form a dense prefix. Returns the
    /// remap table: each moved value's old index maps to its new index;
    /// indices absent from the table did not move.
    #[must_use]
    pub fn defrag(&mut self) -> (remap: HashMap<usize, usize>)
        requires
            old(self).wf(),
        ensures
            final(self).wf(),
            final(self)@.len() == old(self)@.len(),
            count_some(final(self)@) == count_some(old(self)@),
            final(self)@.to_multiset() == old(self)@.to_multiset(),
            forall|h: usize|
                #[trigger] remap@.contains_key(h) ==> occupied_at(old(self)@, h as int) && (
                remap@[h] as int) < h as int && old(self)@[remap@[h] as int] is None
                    && final(self)@[h as int] is None,
            forall|h: int|
                #[trigger] occupied_at(old(self)@, h) ==> final(self)@[if remap@.contains_key(
                    h as usize,
                ) {
                    remap@[h as usize] as int
                } else {
                    h
                }] == old(self)@[h],
            forall|i: int, j: int|
                0 <= i < j < final(self)@.len() && final(self)@[j] is Some ==> final(self)@[i] is Some,
    {
        let mut remapped: HashMap<usize, usize> = HashMap::new();
        if self.data.len() == 0 {
            return remapped;
        }
        let mut last_full: usize = self.data.len();
        let ghost mut dest_hi: int = 0;
        loop
            invariant
                self.wf(),
                self@.len() == old(self)@.len(),
                count_some(self@) == count_some(old(self)@),
                self@.to_multiset() == old(self)@.to_multiset(),
                last_full <= self@.len(),
                forall|j: int| last_full <= j < self@.len() ==> !((#[trigger] self@[j]) is Some),
                0 <= dest_hi <= self@.len(),
                forall|i: int| 0 <= i < dest_hi ==> (#[trigger] self@[i]) is Some,
                forall|h: usize|
                    #[trigger] remapped@.contains_key(h) ==> {
                        &&& occupied_at(old(self)@, h as int)
                        &&& (remapped@[h] as int) < h as int
                        &&& old(self)@[remapped@[h] as int] is None
                        &&& self@[h as int] is None
                        &&& self@[remapped@[h] as int] == old(self)@[h as int]
                        &&& h as int >= last_full
                        &&& (remapped@[h] as int) < dest_hi
                    },
                forall|i: int|
                    0 <= i < self@.len() && !remapped@.contains_key(i as usize) && !in_dests(
                        remapped@,
                        i,
                    ) ==> #[trigger] self@[i] == old(self)@[i],
            ensures
                forall|i: int, j: int|
                    0 <= i < j < self@.len() && self@[j] is Some ==> self@[i] is Some,
            decreases last_full,
        {
            let free_opt = self.bitmap.first_free();
            match free_opt {
                None => {
                    proof {
                        assert forall|i: int, j: int|
                            0 <= i < j < self@.len() && self@[j] is Some implies self@[i] is Some by {
                            assert(self.bitmap@[i]);
                        }
                    }
                    break;
                },
                Some(free) => {
                    proof {
                        assert(self@[free as int] is None);
                        assert forall|i: int| 0 <= i < free implies (#[trigger] self@[i]) is Some by {
                            assert(self.bitmap@[i]);
                        }
                    }
                    let mut found: usize = last_full;
                    let mut k: usize = last_full;
                    while k > free && found == last_full
                        invariant
                            k <= last_full <= self@.len(),
                            found <= last_full,
                            found == last_full ==> forall|j: int|
                                k <= j < last_full ==> !((#[trigger] self@[j]) is Some),
                            found != last_full ==> found == k && k >= free
                                && self@[found as int] is Some && forall|j: int|
                                k < j < last_full ==> !((#[trigger] self@[j]) is Some),
                            self.wf(),
                        decreases k,
                    {
                        k -= 1;
                        if self.bitmap.is_set(k) {
                            found = k;
                        }
                    }
                    if found == last_full {
                        proof {
                            assert forall|i: int, j: int|
                                0 <= i < j < self@.len() && self@[j] is Some implies self@[i] is Some by {
                                if j >= free {
                                    if j < last_full {
                                        assert(!(self@[j] is Some));
                                    } else {
                                        assert(!(self@[j] is Some));
                                    }
                                }
                                assert(j < free);
                                assert(self@[i] is Some);
                            }
                        }
                        break;
                    }
                    let full = found;
                    proof {
                        assert(free < full);
                        assert(full < last_full);
                        // the source slot was never touched before this move
                        assert(free >= dest_hi);
                        assert(!remapped@.contains_key(full));
                        assert(!in_dests(remapped@, full as int));
                        assert(self@[full as int] == old(self)@[full as int]);
                        assert(!remapped@.contains_key(free));
                        assert(!in_dests(remapped@, free as int));
                        assert(self@[free as int] == old(self)@[free as int]);
                    }
                    let ghost pre = self@;
                    let ghost pre_map = remapped@;
                    remapped.insert(full, free);
                    let mut tmp: Option<T> = None;
                    self.data.set_and_swap(full, &mut tmp);
                    self.data.set_and_swap(free, &mut tmp);
                    self.bitmap.set(full, false);
                    self.bitmap.set(free, true);
                    proof {
                        dest_hi = free + 1;
                        assert(self@ =~= pre.update(full as int, None).update(
                            free as int,
                            pre[full as int],
                        ));
                        lemma_count_some_update(pre, full as int, None);
                        lemma_count_some_update(
                            pre.update(full as int, None),
                            free as int,
                            pre[full as int],
                        );
                        assert(self@.to_multiset() =~= pre.to_multiset());
                        assert(remapped@ == pre_map.insert(full, free));
                        // coherence of the two layers after the move
                        assert forall|i: int| 0 <= i < self.data@.len() implies self.bitmap@[i] == (
                        #[trigger] self.data@[i] is Some) by {}
                        // the remap table still describes exactly the moves made
                        assert forall|h: usize| #[trigger] remapped@.contains_key(h) implies {
                            &&& occupied_at(old(self)@, h as int)
                            &&& (remapped@[h] as int) < h as int
                            &&& old(self)@[remapped@[h] as int] is None
                            &&& self@[h as int] is None
                            &&& self@[remapped@[h] as int] == old(self)@[h as int]
                            &&& h as int >= full as int
                            &&& (remapped@[h] as int) < dest_hi
                        } by {
                            if h != full {
                                assert(pre_map.contains_key(h));
                                assert(remapped@[h] == pre_map[h]);
                                assert((pre_map[h] as int) < dest_hi);
                                assert(self@[h as int] == pre[h as int]);
                                assert(self@[pre_map[h] as int] == pre[pre_map[h] as int]);
                            }
                        }
                        // untouched slots keep their original contents
                        assert forall|i: int|
                            0 <= i < self@.len() && !remapped@.contains_key(i as usize) && !in_dests(
                                remapped@,
                                i,
                            ) implies #[trigger] self@[i] == old(self)@[i] by {
                            assert(!pre_map.contains_key(i as usize));
                            assert(!in_dests(pre_map, i)) by {
                                if in_dests(pre_map, i) {
                                    let kk = choose|kk: usize|
                                        #[trigger] pre_map.contains_key(kk) && pre_map[kk] == i;
                                    assert(remapped@.contains_key(kk));
                                    assert(remapped@[kk] == pre_map[kk]);
                                    assert(in_dests(remapped@, i));
                                }
                            }
                            assert(i != full as int) by {
                                if i == full as int {
                                    assert(i as usize == full);
                                    assert(remapped@.contains_key(full));
                                }
                            }
                            assert(i != free as int) by {
                                if i == free as int {
                                    assert(remapped@.contains_key(full) && remapped@[full]
                                        == free);
                                    assert(in_dests(remapped@, i));
                                }
                            }
                            assert(self@[i] == pre[i]);
                        }
                        assert forall|i: int| 0 <= i < dest_hi implies (
                        #[trigger] self@[i]) is Some by {
                            if i < free {
                                assert(pre[i] is Some);
                            }
                        }
                    }
                    last_full = full;
                },
            }
        }
        proof {
            assert forall|h: int| #[trigger] occupied_at(old(self)@, h) implies self@[if remapped@.contains_key(
                h as usize,
            ) {
                remapped@[h as usize] as int
            } else {
                h
            }] == old(self)@[h] by {
            if !remapped@.contains_key(h as usize) {
                    assert(!in_dests(remapped@, h)) by {
                        if in_dests(remapped@, h) {
                            let kk = choose|kk: usize|
                                #[trigger] remapped@.contains_key(kk) && remapped@[kk] == h;
                            assert(old(self)@[h] is None);
                        }
                    }
                }
            }
        }
        remapped
    }

    /// Defragments the pool, then shrinks it to exactly its occupied
    /// slots. Returns the same remap table as the defragmentation.
    #[must_use]
    pub fn trim(&mut self) -> (remap: HashMap<usize, usize>)
        requires
            old(self).wf(),
        ensures
            final(self).wf(),
            final(self)@.len() == count_some(old(self)@),
            forall|i: int| 0 <= i < final(self)@.len() ==> (#[trigger] final(self)@[i]) is Some,
            forall|h: usize|
                #[trigger] remap@.contains_key(h) ==> occupied_at(old(self)@, h as int) && (
                remap@[h] as int) < h as int && old(self)@[remap@[h] as int] is None,
            forall|h: int|
                #[trigger] occupied_at(old(self)@, h) ==> {
                    let n = if remap@.contains_key(h as usize) {
                        remap@[h as usize] as int
                    } else {
                        h
                    };
                    0 <= n < final(self)@.len() && final(self)@[n] == old(self)@[h]
                },
    {
        let remap = self.defrag();
        let ghost mid = self@;
        let k = self.next_index();
        proof {
            assert forall|i: int| k <= i < mid.len() implies !((#[trigger] mid[i]) is Some) by {
                if i > k && mid[i] is Some {
                    assert(mid[k as int] is Some);
                }
            }
            lemma_count_some_dense(mid, k as int);
        }
        self.resize(k);
        proof {
            assert forall|h: int| #[trigger] occupied_at(old(self)@, h) implies {
                let n = if remap@.contains_key(h as usize) {
                    remap@[h as usize] as int
                } else {
                    h
                };
                0 <= n < self@.len() && self@[n] == old(self)@[h]
            } by {
                let n = if remap@.contains_key(h as usize) {
                    remap@[h as usize] as int
                } else {
                    h
                };
                assert(mid[n] == old(self)@[h]);
                assert(mid[n] is Some);
                assert(n < k);
            }
        }
        remap
    }

    /// A safe, read-only copy of the slot layout: one entry per slot,
    /// holding a reference for an occupied slot and `None` for a free one.
    pub fn safe_data(&self) -> (r: Vec<Option<&T>>)
        requires
            self.wf(),
        ensures
            r@.len() == self@.len(),
            forall|i: int|
                0 <= i < r@.len() ==> match #[trigger] r@[i] {
                    Some(v) => self@[i] == Some(*v),
                    None => self@[i] is None,
                },
    {
        let mut safe_data: Vec<Option<&T>> = Vec::new();
        let mut idx: usize = 0;
        while idx < self.data.len()
            invariant
                self.wf(),
                idx == safe_data@.len(),
                idx <= self@.len(),
                forall|i: int|
                    0 <= i < idx ==> match #[trigger] safe_data@[i] {
                        Some(v) => self@[i] == Some(*v),
                        None => self@[i] is None,
                    },
            decreases self@.len() - idx,
        {
            safe_data.push(self.get(idx));
            idx += 1;
        }
        safe_data
    }

    /// Read-only access to the backing array itself, free slots included.
    pub fn unsafe_data(&self) -> (r: &Vec<Option<T>>)
        ensures
            r@ == self@,
    {
        &self.data
    }
}

} // verus!
