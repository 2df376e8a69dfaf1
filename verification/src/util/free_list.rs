use vstd::prelude::*;
use vstd::std_specs::cmp::PartialEqSpec;

use crate::util::bit_set::{
    bits_of, last_set_or_zero, leading_ones_of, lemma_last_set, lemma_last_set_after_push,
    lemma_last_set_after_set, lemma_last_set_from_trailing_zeros, lemma_leading_ones_bounded,
    lemma_leading_ones_clear, lemma_trailing_zeros_bounded, max_bits, BitSet,
};

verus! {

/// The abstract state of a `FreeList`.
pub struct FreeListModel<T> {
    /// The stored values, one per slot.
    pub slots: Seq<T>,
    /// For each slot, how many pushes it has received and not yet had freed.
    pub rc: Seq<u32>,
    /// Which slots are in use.
    pub reserved: Seq<bool>,
    /// The greatest index in use, 0 when none is.
    pub greatest: int,
    /// The first free index, where the next new value goes.
    pub next: int,
}

impl<T: Default> FreeListModel<T> {
    /// The free-list invariant: counts and reservation bits mirror the slots;
    /// a slot is in use exactly when it is referenced; a free slot holds a
    /// default value; `greatest` is the greatest index in use (0 if none);
    /// `next` is the first free index (the length when every slot is in use).
    pub open spec fn wf(self) -> bool {
        &&& self.slots.len() == self.rc.len()
        &&& self.slots.len() == self.reserved.len()
        &&& self.slots.len() <= usize::MAX
        &&& forall|i: int| 0 <= i < self.slots.len() ==> (#[trigger] self.reserved[i] <==> self.rc[i] > 0)
        &&& forall|i: int|
            0 <= i < self.slots.len() && !#[trigger] self.reserved[i] ==> call_ensures(
                T::default,
                (),
                self.slots[i],
            )
        &&& self.greatest == last_set_or_zero(self.reserved)
        &&& self.next == leading_ones_of(self.reserved)
    }
}

/// Slot `i` is in use, within the used range, and holds a value equal to `data`.
pub open spec fn matches_at<T: PartialEq>(m: FreeListModel<T>, data: T, i: int) -> bool {
    &&& 0 <= i <= m.greatest
    &&& i < m.slots.len()
    &&& m.reserved[i]
    &&& m.slots[i].eq_spec(&data)
}

/// Slot `i` is the first slot that `matches_at` picks out.
pub open spec fn first_match_at<T: PartialEq>(m: FreeListModel<T>, data: T, i: int) -> bool {
    &&& matches_at(m, data, i)
    &&& forall|j: int| 0 <= j < i ==> !#[trigger] matches_at(m, data, j)
}

/// The first slot in use that holds a value equal to `data`.
pub open spec fn lookup<T: PartialEq>(m: FreeListModel<T>, data: T) -> Option<int> {
    if exists|i: int| #[trigger] matches_at(m, data, i) {
        Some(choose|i: int| first_match_at(m, data, i))
    } else {
        None
    }
}

/// No two slots in use hold equal values.
pub open spec fn distinct<T: PartialEq>(m: FreeListModel<T>) -> bool {
    forall|i: int, j: int|
        0 <= i < m.slots.len() && 0 <= j < m.slots.len() && i != j && m.reserved[i]
            && m.reserved[j] ==> !#[trigger] m.slots[i].eq_spec(&#[trigger] m.slots[j])
}

/// `push` of a value already in slot `i`: one more reference to slot `i`.
pub open spec fn push_found<T>(m: FreeListModel<T>, i: int) -> (FreeListModel<T>, int) {
    (
        FreeListModel {
            slots: m.slots,
            rc: m.rc.update(i, (m.rc[i] + 1) as u32),
            reserved: m.reserved,
            greatest: m.greatest,
            next: m.next,
        },
        i,
    )
}

/// `push` of a new value: it is written into the first free slot `next`
/// (appended when every slot is in use) with one reference, and no other slot
/// changes.
pub open spec fn push_new<T>(m: FreeListModel<T>, data: T) -> (FreeListModel<T>, int) {
    let n = m.next;
    let slots = if n < m.slots.len() {
        m.slots.update(n, data)
    } else {
        m.slots.push(data)
    };
    let rc = if n < m.rc.len() {
        m.rc.update(n, 1u32)
    } else {
        m.rc.push(1u32)
    };
    let reserved = if n < m.reserved.len() {
        m.reserved.update(n, true)
    } else {
        m.reserved.push(true)
    };
    (
        FreeListModel {
            slots,
            rc,
            reserved,
            greatest: if m.greatest >= n {
                m.greatest
            } else {
                n
            },
            next: leading_ones_of(reserved),
        },
        n,
    )
}

/// The state after `push(data)` and the index it returns.
pub open spec fn push_model<T: PartialEq>(m: FreeListModel<T>, data: T) -> (FreeListModel<T>, int) {
    match lookup(m, data) {
        Some(i) => push_found(m, i),
        None => push_new(m, data),
    }
}

/// When `push(data)` runs without panicking: the count it bumps must not
/// overflow, or, when the value is new and every slot is in use, the bits
/// must have room for one more.
pub open spec fn push_ok<T: PartialEq>(m: FreeListModel<T>, data: T) -> bool {
    match lookup(m, data) {
        Some(i) => m.rc[i] < u32::MAX,
        None => m.next < m.slots.len() || m.reserved.len() < max_bits(),
    }
}

/// What `push(data)` needs. When `T`'s `==` follows its specification this
/// is exactly `push_ok`; otherwise which slot matches is unknown, so every
/// slot in use must have room for one more reference.
pub open spec fn push_allowed<T: PartialEq>(m: FreeListModel<T>, data: T) -> bool {
    if T::obeys_eq_spec() {
        push_ok(m, data)
    } else {
        &&& forall|i: int| 0 <= i < m.rc.len() && #[trigger] m.reserved[i] ==> m.rc[i] < u32::MAX
        &&& m.next < m.slots.len() || m.reserved.len() < max_bits()
    }
}

/// When `free(index)` runs without panicking: `index` is a slot with a
/// reference left.
pub open spec fn free_ok<T>(m: FreeListModel<T>, index: int) -> bool {
    &&& 0 <= index < m.rc.len()
    &&& m.rc[index] > 0
}

/// How `free(index)` changes the state. The count drops by one; when it
/// reaches zero the slot is overwritten in place with `T::default()`, marked
/// free, `greatest` becomes the greatest index still in use, and `next` the
/// smaller of itself and `index`.
pub open spec fn freed<T: Default>(pre: FreeListModel<T>, post: FreeListModel<T>, index: int) -> bool {
    &&& post.rc == pre.rc.update(index, (pre.rc[index] - 1) as u32)
    &&& if pre.rc[index] == 1 {
        &&& index < post.slots.len()
        &&& post.slots == pre.slots.update(index, post.slots[index])
        &&& call_ensures(T::default, (), post.slots[index])
        &&& post.reserved == pre.reserved.update(index, false)
        &&& post.greatest == last_set_or_zero(post.reserved)
        &&& post.next == if pre.next <= index {
            pre.next
        } else {
            index
        }
    } else {
        &&& post.slots == pre.slots
        &&& post.reserved == pre.reserved
        &&& post.greatest == pre.greatest
        &&& post.next == pre.next
    }
}

/// A free list with reference counting: equal values share a slot, each push
/// of a value already present bumps its count, and a slot is released, reset
/// to the default value and reused when its count drops to zero.
pub struct FreeList<T> {
    slots: Vec<T>,
    rc: Vec<u32>,
    reserved: BitSet,
    greatest_used_index: usize,
    next: usize,
}

impl<T> View for FreeList<T> {
    type V = FreeListModel<T>;

    closed spec fn view(&self) -> FreeListModel<T> {
        FreeListModel {
            slots: self.slots@,
            rc: self.rc@,
            reserved: bits_of(self.reserved),
            greatest: self.greatest_used_index as int,
            next: self.next as int,
        }
    }
}

impl<T: Default> Default for FreeList<T> {
    fn default() -> (r: Self)
        ensures
            r@.wf(),
            r@.slots == Seq::<T>::empty(),
            r@.rc == Seq::<u32>::empty(),
            r@.reserved == Seq::<bool>::empty(),
            r@.greatest == 0,
            r@.next == 0,
    {
        FreeList {
            slots: Vec::new(),
            rc: Vec::new(),
            reserved: BitSet::new(),
            greatest_used_index: 0,
            next: 0,
        }
    }
}

pub proof fn lemma_lookup_is_first<T: PartialEq>(m: FreeListModel<T>, data: T, i: int)
    requires
        first_match_at(m, data, i),
    ensures
        lookup(m, data) == Some(i),
{
    assert(matches_at(m, data, i));
    let k = choose|k: int| first_match_at(m, data, k);
    assert(first_match_at(m, data, k));
    if k < i {
        assert(!matches_at(m, data, k));
    } else if i < k {
        assert(!matches_at(m, data, i));
    }
}

pub proof fn lemma_lookup_some<T: PartialEq>(m: FreeListModel<T>, data: T)
    requires
        lookup(m, data) is Some,
    ensures
        first_match_at(m, data, lookup(m, data)->0),
{
    let w = choose|i: int| #[trigger] matches_at(m, data, i);
    assert(matches_at(m, data, w));
    lemma_least_match_exists(m, data, w);
}

pub proof fn lemma_least_match_exists<T: PartialEq>(m: FreeListModel<T>, data: T, w: int)
    requires
        matches_at(m, data, w),
    ensures
        exists|i: int| first_match_at(m, data, i),
    decreases w,
{
    if exists|j: int| 0 <= j < w && #[trigger] matches_at(m, data, j) {
        let j = choose|j: int| 0 <= j < w && #[trigger] matches_at(m, data, j);
        lemma_least_match_exists(m, data, j);
    } else {
        assert(first_match_at(m, data, w));
    }
}

/// Every slot in use lies at or below `greatest`.
pub proof fn lemma_reserved_below_greatest<T: Default>(m: FreeListModel<T>, j: int)
    requires
        m.wf(),
        0 <= j < m.slots.len(),
        m.reserved[j],
    ensures
        j <= m.greatest,
{
    lemma_last_set(m.reserved);
}

/// A push of a new value keeps the free-list invariant.
pub proof fn lemma_push_new_wf<T: Default>(m: FreeListModel<T>, data: T)
    requires
        m.wf(),
        m.next < m.slots.len() || m.reserved.len() < max_bits(),
    ensures
        push_new(m, data).0.wf(),
{
    let (m1, n) = push_new(m, data);
    lemma_last_set(m.reserved);
    lemma_leading_ones_bounded(m.reserved);
    if n < m.slots.len() {
        lemma_last_set_after_set(m.reserved, n);
        assert forall|i: int| 0 <= i < m1.slots.len() implies (#[trigger] m1.reserved[i] <==> m1.rc[i]
            > 0) by {
            if i != n {
                assert(m.reserved[i] <==> m.rc[i] > 0);
            }
        }
        assert forall|i: int|
            0 <= i < m1.slots.len() && !#[trigger] m1.reserved[i] implies call_ensures(
            T::default,
            (),
            m1.slots[i],
        ) by {
            assert(i != n);
            assert(!m.reserved[i]);
        }
    } else {
        lemma_last_set_after_push(m.reserved);
        assert forall|i: int| 0 <= i < m1.slots.len() implies (#[trigger] m1.reserved[i] <==> m1.rc[i]
            > 0) by {
            if i < m.slots.len() {
                assert(m.reserved[i] <==> m.rc[i] > 0);
            }
        }
        assert forall|i: int|
            0 <= i < m1.slots.len() && !#[trigger] m1.reserved[i] implies call_ensures(
            T::default,
            (),
            m1.slots[i],
        ) by {
            assert(i < m.slots.len());
            assert(!m.reserved[i]);
        }
    }
}

/// A push onto a slot already in use keeps the free-list invariant.
proof fn lemma_push_found_wf<T: Default>(m: FreeListModel<T>, i: int)
    requires
        m.wf(),
        0 <= i < m.slots.len(),
        m.reserved[i],
        m.rc[i] < u32::MAX,
    ensures
        push_found(m, i).0.wf(),
{
    let m1 = push_found(m, i).0;
    assert forall|j: int| 0 <= j < m1.slots.len() implies (#[trigger] m1.reserved[j] <==> m1.rc[j] > 0) by {
        assert(m.reserved[j] <==> m.rc[j] > 0);
    }
}

/// A free keeps the free-list invariant.
proof fn lemma_freed_wf<T: Default>(pre: FreeListModel<T>, post: FreeListModel<T>, index: int)
    requires
        pre.wf(),
        free_ok(pre, index),
        freed(pre, post, index),
    ensures
        post.wf(),
{
    if pre.rc[index] == 1 {
        lemma_leading_ones_clear(pre.reserved, index);
        assert forall|i: int| 0 <= i < post.slots.len() implies (#[trigger] post.reserved[i]
            <==> post.rc[i] > 0) by {
            if i != index {
                assert(pre.reserved[i] <==> pre.rc[i] > 0);
            }
        }
        assert forall|i: int|
            0 <= i < post.slots.len() && !#[trigger] post.reserved[i] implies call_ensures(
            T::default,
            (),
            post.slots[i],
        ) by {
            if i != index {
                assert(!pre.reserved[i]);
            }
        }
    } else {
        assert forall|i: int| 0 <= i < post.slots.len() implies (#[trigger] post.reserved[i]
            <==> post.rc[i] > 0) by {
            assert(pre.reserved[i] <==> pre.rc[i] > 0);
        }
    }
}

impl<T: Default + PartialEq> FreeList<T> {
    /// The number of slots.
    pub fn len(&self) -> (r: usize)
        ensures
            r == self@.slots.len(),
    {
        self.slots.len()
    }

    /// The first slot in use, up to and including the greatest used index,
    /// whose value equals `data`.
    pub fn contains(&self, data: &T) -> (r: Option<usize>)
        requires
            self@.wf(),
        ensures
            T::obeys_eq_spec() ==> r == match lookup(self@, *data) {
                Some(i) => Some(i as usize),
                None => None::<usize>,
            },
            r matches Some(i) ==> i <= self@.greatest && i < self@.slots.len() && self@.reserved[i as int],
    {
        let mut index: usize = 0;
        while index < self.slots.len()
            invariant
                self@.wf(),
                index <= self.slots@.len(),
                T::obeys_eq_spec() ==> forall|j: int|
                    0 <= j < index ==> !#[trigger] matches_at(self@, *data, j),
            decreases self.slots.len() - index,
        {
            if index > self.greatest_used_index {
                proof {
                    if T::obeys_eq_spec() {
                        assert forall|j: int| #[trigger] matches_at(self@, *data, j) implies false by {
                            if j >= index {
                                assert(j > self@.greatest);
                            }
                        }
                    }
                }
                return None;
            }
            if self.reserved.get(index) && self.slots[index] == *data {
                proof {
                    if T::obeys_eq_spec() {
                        assert(first_match_at(self@, *data, index as int));
                        lemma_lookup_is_first(self@, *data, index as int);
                    }
                }
                return Some(index);
            }
            index = index + 1;
        }
        proof {
            if T::obeys_eq_spec() {
                assert forall|j: int| #[trigger] matches_at(self@, *data, j) implies false by {
                    assert(j < self@.slots.len());
                }
            }
        }
        None
    }

    /// Stores `data` and returns its slot. A value already in a slot in use
    /// keeps that slot and gains a reference; a new value is written into the
    /// first free slot (appended when there is none) with one reference.
    pub fn push(&mut self, data: T) -> (r: usize)
        requires
            old(self)@.wf(),
            push_allowed(old(self)@, data),
        ensures
            final(self)@.wf(),
            T::obeys_eq_spec() ==> (final(self)@, r as int) == push_model(old(self)@, data),
            !T::obeys_eq_spec() ==> {
                ||| (final(self)@, r as int) == push_found(old(self)@, r as int)
                ||| (final(self)@, r as int) == push_new(old(self)@, data)
            },
    {
        if let Some(index) = self.contains(&data) {
            proof {
                if T::obeys_eq_spec() {
                    lemma_lookup_some(self@, data);
                }
                lemma_push_found_wf(self@, index as int);
            }
            self.rc.set(index, self.rc[index] + 1);
            return index;
        }
        proof {
            lemma_push_new_wf(self@, data);
            lemma_leading_ones_bounded(self@.reserved);
        }
        let n = self.next;
        if n < self.slots.len() {
            self.slots.set(n, data);
            self.rc.set(n, 1);
            self.reserved.set(n, true);
        } else {
            self.slots.push(data);
            self.rc.push(1);
            self.reserved.insert(n, true);
        }
        self.greatest_used_index = if self.greatest_used_index >= n {
            self.greatest_used_index
        } else {
            n
        };
        self.next = self.reserved.leading_ones();
        proof {
            let expected = push_new(old(self)@, data).0;
            assert(self@.slots =~= expected.slots);
            assert(self@.rc =~= expected.rc);
            assert(self@.reserved =~= expected.reserved);
            assert(self@ == expected);
        }
        n
    }

    /// Drops one reference to slot `index`. When none remain, the slot is
    /// overwritten with `T::default()` and marked free, the greatest used
    /// index drops to the greatest slot still in use, and the slot becomes a
    /// candidate for the next push.
    pub fn free(&mut self, index: usize)
        requires
            old(self)@.wf(),
            free_ok(old(self)@, index as int),
        ensures
            final(self)@.wf(),
            freed(old(self)@, final(self)@, index as int),
    {
        let count = self.rc[index] - 1;
        self.rc.set(index, count);
        if count == 0 {
            self.slots.set(index, T::default());
            self.reserved.set(index, false);
            let len = self.reserved.len();
            let trailing = self.reserved.trailing_zeros();
            proof {
                lemma_trailing_zeros_bounded(bits_of(self.reserved));
                lemma_last_set_from_trailing_zeros(bits_of(self.reserved));
            }
            self.greatest_used_index = if trailing == len {
                0
            } else {
                len - 1 - trailing
            };
            self.next = if self.next <= index {
                self.next
            } else {
                index
            };
        }
        proof {
            lemma_freed_wf(old(self)@, self@, index as int);
        }
    }

    /// The greatest index in use, 0 when none is.
    pub fn greatest_used_index(&self) -> (r: usize)
        ensures
            r == self@.greatest,
    {
        self.greatest_used_index
    }

    /// The largest reference count, 0 when there is none.
    pub fn max_ref_count(&self) -> (r: u32)
        ensures
            forall|i: int| 0 <= i < self@.rc.len() ==> #[trigger] self@.rc[i] <= r,
            r == 0 || exists|i: int| 0 <= i < self@.rc.len() && #[trigger] self@.rc[i] == r,
    {
        let mut best: u32 = 0;
        let mut i: usize = 0;
        while i < self.rc.len()
            invariant
                0 <= i <= self.rc@.len(),
                forall|j: int| 0 <= j < i ==> #[trigger] self.rc@[j] <= best,
                best == 0 || exists|j: int| 0 <= j < i && #[trigger] self.rc@[j] == best,
            decreases self.rc@.len() - i,
        {
            if self.rc[i] > best {
                best = self.rc[i];
            }
            i = i + 1;
        }
        proof {
            if best != 0 {
                let j = choose|j: int| 0 <= j < i && #[trigger] self.rc@[j] == best;
                assert(self@.rc[j] == best);
            }
        }
        best
    }

    /// The reservation bits, one per slot.
    pub fn reserved_slots(&self) -> (r: &BitSet)
        ensures
            bits_of(*r) == self@.reserved,
    {
        &self.reserved
    }

    /// The slots from 0 up to and including the greatest used index.
    pub fn as_slice(&self) -> (r: &[T])
        requires
            self@.greatest < self@.slots.len(),
        ensures
            r@ == self@.slots.subrange(0, self@.greatest + 1),
    {
        let len = self.slots.len();
        assert(self.greatest_used_index < len);
        vstd::slice::slice_subrange(self.slots.as_slice(), 0, self.greatest_used_index + 1)
    }
}

/// Equal values share a slot: pushing a value that some slot in use already
/// holds returns a slot no later than that one and stores nothing new.
pub proof fn law_push_present_shares_slot<T: PartialEq>(m: FreeListModel<T>, data: T, j: int)
    requires
        matches_at(m, data, j),
    ensures
        push_model(m, data).1 <= j,
        matches_at(m, data, push_model(m, data).1),
        push_model(m, data).0.slots == m.slots,
        push_model(m, data).0.reserved == m.reserved,
        push_model(m, data).0.greatest == m.greatest,
        push_model(m, data).0.next == m.next,
{
    lemma_least_match_exists(m, data, j);
    lemma_lookup_some(m, data);
    let i = lookup(m, data)->0;
    if j < i {
        assert(!matches_at(m, data, j));
    }
}

/// A pushed value is found where it went: right after `push(data)` returns
/// `r`, slot `r` is in use and holds a value equal to `data`, and `contains(data)`
/// returns `r`.
pub proof fn law_push_then_contains<T: PartialEq + Default>(m: FreeListModel<T>, data: T)
    requires
        m.wf(),
        push_ok(m, data),
        data.eq_spec(&data),
    ensures
        matches_at(push_model(m, data).0, data, push_model(m, data).1),
        lookup(push_model(m, data).0, data) == Some(push_model(m, data).1),
{
    let (m1, r) = push_model(m, data);
    match lookup(m, data) {
        Some(k) => {
            lemma_lookup_some(m, data);
            lemma_lookup_same_slots(m, m1, data);
        },
        None => {
            let n = m.next;
            lemma_leading_ones_bounded(m.reserved);
            assert(m1.slots[n] == data);
            assert(m1.reserved[n]);
            assert(matches_at(m1, data, n));
            assert forall|j: int| 0 <= j < n implies !#[trigger] matches_at(m1, data, j) by {
                assert(m1.slots[j] == m.slots[j]);
                assert(m1.reserved[j] == m.reserved[j]);
                if matches_at(m1, data, j) {
                    lemma_reserved_below_greatest(m, j);
                    assert(matches_at(m, data, j));
                }
            }
            lemma_lookup_is_first(m1, data, n);
        },
    }
}

/// A value not stored yet goes into the first free slot (appended when every
/// slot is in use) with exactly one reference, whether that slot was freed
/// before or is new; no other slot, count or reservation changes, and the
/// free-list invariant still holds.
pub proof fn law_push_new_value_gets_one_reference<T: PartialEq + Default>(m: FreeListModel<T>, data: T)
    requires
        m.wf(),
        push_ok(m, data),
        lookup(m, data) is None,
    ensures
        ({
            let (m1, r) = push_model(m, data);
            &&& 0 <= r <= m.slots.len()
            &&& forall|j: int| 0 <= j < r ==> #[trigger] m.reserved[j]
            &&& r < m.slots.len() ==> !m.reserved[r]
            &&& m1.slots.len() == if r < m.slots.len() {
                m.slots.len() as int
            } else {
                m.slots.len() + 1int
            }
            &&& m1.slots[r] == data
            &&& m1.rc[r] == 1
            &&& m1.reserved[r]
            &&& forall|j: int|
                0 <= j < m.slots.len() && j != r ==> {
                    &&& #[trigger] m1.slots[j] == m.slots[j]
                    &&& m1.rc[j] == m.rc[j]
                    &&& m1.reserved[j] == m.reserved[j]
                }
            &&& m1.wf()
        }),
{
    lemma_leading_ones_bounded(m.reserved);
    lemma_push_new_wf(m, data);
}

/// A value pushed as new holds a single reference: one free of the slot the
/// push returned releases it again, the value is no longer found, and the
/// next new value goes no later than that slot.
pub proof fn law_push_new_then_free_releases<T: PartialEq + Default>(
    m: FreeListModel<T>,
    data: T,
    after: FreeListModel<T>,
)
    requires
        m.wf(),
        push_ok(m, data),
        lookup(m, data) is None,
        freed(push_model(m, data).0, after, push_model(m, data).1),
    ensures
        free_ok(push_model(m, data).0, push_model(m, data).1),
        !after.reserved[push_model(m, data).1],
        after.rc[push_model(m, data).1] == 0,
        lookup(after, data) is None,
        after.next <= push_model(m, data).1,
        after.wf(),
{
    let (m1, r) = push_model(m, data);
    law_push_new_value_gets_one_reference(m, data);
    lemma_freed_wf(m1, after, r);
    if lookup(after, data) is Some {
        lemma_lookup_some(after, data);
        let k = lookup(after, data)->0;
        assert(after.reserved[k]);
        assert(k != r);
        assert(after.slots[k] == m1.slots[k] && after.reserved[k] == m1.reserved[k]);
        assert(k < m.slots.len());
        assert(m.slots[k] == m1.slots[k] && m.reserved[k] == m1.reserved[k]);
        lemma_reserved_below_greatest(m, k);
        assert(matches_at(m, data, k));
    }
}

/// Pushing a value that is already stored, then freeing the slot that push
/// returned, leaves the free list exactly as it was.
pub proof fn law_push_present_then_free_restores<T: PartialEq + Default>(
    m: FreeListModel<T>,
    data: T,
    after: FreeListModel<T>,
)
    requires
        m.wf(),
        lookup(m, data) is Some,
        push_ok(m, data),
        freed(push_model(m, data).0, after, push_model(m, data).1),
    ensures
        free_ok(push_model(m, data).0, push_model(m, data).1),
        after == m,
{
    lemma_lookup_some(m, data);
    let i = lookup(m, data)->0;
    assert(m.reserved[i] <==> m.rc[i] > 0);
    let m1 = push_model(m, data).0;
    assert(m1.rc[i] == m.rc[i] + 1);
    assert(after.rc =~= m.rc);
}

/// Freeing the last reference to a slot releases it in place: the slot now
/// holds `T::default()` and is free, no other slot changes, the slot count
/// stays, `contains` no longer finds anything there (nor anywhere, when no
/// other slot in use holds an equal value), and the next new value goes no
/// later than that slot.
pub proof fn law_free_last_reference_releases<T: PartialEq + Default>(
    pre: FreeListModel<T>,
    post: FreeListModel<T>,
    index: int,
    data: T,
)
    requires
        pre.wf(),
        free_ok(pre, index),
        pre.rc[index] == 1,
        freed(pre, post, index),
    ensures
        post.wf(),
        !post.reserved[index],
        post.rc[index] == 0,
        call_ensures(T::default, (), post.slots[index]),
        post.slots.len() == pre.slots.len(),
        forall|j: int|
            0 <= j < pre.slots.len() && j != index ==> #[trigger] post.slots[j] == pre.slots[j]
                && post.reserved[j] == pre.reserved[j],
        lookup(post, data) != Some(index),
        (forall|j: int|
            0 <= j < pre.slots.len() && j != index && pre.reserved[j] ==> !#[trigger] pre.slots[j].eq_spec(
                &data,
            )) ==> lookup(post, data) is None,
        post.next <= index,
{
    lemma_freed_wf(pre, post, index);
    if lookup(post, data) is Some {
        lemma_lookup_some(post, data);
        let k = lookup(post, data)->0;
        assert(post.reserved[k]);
        assert(k != index);
        assert(post.slots[k] == pre.slots[k] && post.reserved[k] == pre.reserved[k]);
    }
}

/// Freeing one of several references only lowers the count: slots,
/// reservations and indices stay as they were.
pub proof fn law_free_shared_reference_keeps_slot<T: Default>(
    pre: FreeListModel<T>,
    post: FreeListModel<T>,
    index: int,
)
    requires
        pre.wf(),
        free_ok(pre, index),
        pre.rc[index] > 1,
        freed(pre, post, index),
    ensures
        post.slots == pre.slots,
        post.reserved == pre.reserved,
        post.rc[index] == pre.rc[index] - 1,
        post.greatest == pre.greatest,
        post.next == pre.next,
{
}

/// When `==` on `T` is symmetric, no push stores a value twice: if the slots
/// in use hold pairwise different values before a push, they still do after.
pub proof fn law_push_keeps_distinct<T: PartialEq + Default>(m: FreeListModel<T>, data: T)
    requires
        m.wf(),
        distinct(m),
        forall|x: T, y: T| #[trigger] x.eq_spec(&y) ==> y.eq_spec(&x),
    ensures
        distinct(push_model(m, data).0),
{
    let (m1, r) = push_model(m, data);
    match lookup(m, data) {
        Some(k) => {},
        None => {
            let n = m.next;
            lemma_leading_ones_bounded(m.reserved);
            assert forall|i: int, j: int|
                0 <= i < m1.slots.len() && 0 <= j < m1.slots.len() && i != j && m1.reserved[i]
                    && m1.reserved[j] implies !#[trigger] m1.slots[i].eq_spec(
                &#[trigger] m1.slots[j],
            ) by {
                if i == n {
                    lemma_reserved_below_greatest(m, j);
                    assert(!matches_at(m, data, j));
                    assert(!m.slots[j].eq_spec(&data));
                } else if j == n {
                    lemma_reserved_below_greatest(m, i);
                    assert(!matches_at(m, data, i));
                } else {
                    assert(m1.slots[i] == m.slots[i] && m1.slots[j] == m.slots[j]);
                }
            }
        },
    }
}

/// The state after pushing `data` `n` times.
pub open spec fn push_times<T: PartialEq>(m: FreeListModel<T>, data: T, n: nat) -> FreeListModel<T>
    decreases n,
{
    if n == 0 {
        m
    } else {
        push_model(push_times(m, data, (n - 1) as nat), data).0
    }
}

proof fn lemma_lookup_same_slots<T: PartialEq>(m: FreeListModel<T>, m2: FreeListModel<T>, data: T)
    requires
        m2.slots == m.slots,
        m2.reserved == m.reserved,
        m2.greatest == m.greatest,
    ensures
        lookup(m2, data) == lookup(m, data),
{
    assert forall|j: int| #[trigger] matches_at(m2, data, j) == matches_at(m, data, j) by {}
    if lookup(m, data) is Some {
        lemma_lookup_some(m, data);
        let i = lookup(m, data)->0;
        assert(first_match_at(m2, data, i));
        lemma_lookup_is_first(m2, data, i);
    } else {
        assert(!exists|j: int| #[trigger] matches_at(m2, data, j));
    }
}

proof fn lemma_push_times_present<T: PartialEq + Default>(m: FreeListModel<T>, data: T, n: nat)
    requires
        m.wf(),
        lookup(m, data) is Some,
        m.rc[lookup(m, data)->0] + n <= u32::MAX,
    ensures
        push_times(m, data, n) == (FreeListModel {
            rc: m.rc.update(lookup(m, data)->0, (m.rc[lookup(m, data)->0] + n) as u32),
            ..m
        }),
        lookup(push_times(m, data, n), data) == lookup(m, data),
    decreases n,
{
    lemma_lookup_some(m, data);
    let i = lookup(m, data)->0;
    if n > 0 {
        lemma_push_times_present(m, data, (n - 1) as nat);
        let prev = push_times(m, data, (n - 1) as nat);
        assert(push_times(m, data, n).rc =~= m.rc.update(i, (m.rc[i] + n) as u32));
        lemma_lookup_same_slots(m, push_times(m, data, n), data);
    } else {
        assert(m.rc.update(i, (m.rc[i] + 0) as u32) =~= m.rc);
    }
}

/// Reference counting: after pushing a stored, referenced value `n` more
/// times, freeing its slot `n` times (each free taking the state the previous
/// one left) gives back exactly the free list before the pushes; every one of
/// those frees is allowed, and none of them releases the slot.
pub proof fn law_push_n_then_free_n_restores<T: PartialEq + Default>(
    m: FreeListModel<T>,
    data: T,
    n: nat,
    states: Seq<FreeListModel<T>>,
)
    requires
        m.wf(),
        lookup(m, data) is Some,
        m.rc[lookup(m, data)->0] + n <= u32::MAX,
        states.len() == n + 1,
        states[0] == push_times(m, data, n),
        forall|k: int|
            0 <= k < n ==> freed(#[trigger] states[k], states[k + 1], lookup(m, data)->0),
    ensures
        forall|k: int| 0 <= k < n ==> free_ok(#[trigger] states[k], lookup(m, data)->0),
        forall|k: int| 0 <= k <= n ==> (#[trigger] states[k]).slots == m.slots,
        states[n as int] == m,
{
    lemma_lookup_some(m, data);
    let i = lookup(m, data)->0;
    assert(m.reserved[i] <==> m.rc[i] > 0);
    lemma_push_times_present(m, data, n);
    assert forall|k: int| 0 <= k <= n implies #[trigger] states[k] == (FreeListModel {
        rc: m.rc.update(i, (m.rc[i] + n - k) as u32),
        ..m
    }) by {
        lemma_states_count_down(m, i, n, states, k);
    }
    assert forall|k: int| 0 <= k < n implies free_ok(#[trigger] states[k], i) by {
        assert(states[k].rc[i] == m.rc[i] + n - k);
    }
    assert(states[n as int].rc =~= m.rc);
}

proof fn lemma_states_count_down<T: Default>(
    m: FreeListModel<T>,
    i: int,
    n: nat,
    states: Seq<FreeListModel<T>>,
    k: int,
)
    requires
        0 <= i < m.rc.len(),
        m.rc[i] > 0,
        m.rc[i] + n <= u32::MAX,
        states.len() == n + 1,
        states[0] == (FreeListModel { rc: m.rc.update(i, (m.rc[i] + n) as u32), ..m }),
        forall|j: int| 0 <= j < n ==> freed(#[trigger] states[j], states[j + 1], i),
        0 <= k <= n,
    ensures
        states[k] == (FreeListModel { rc: m.rc.update(i, (m.rc[i] + n - k) as u32), ..m }),
    decreases k,
{
    if k > 0 {
        lemma_states_count_down(m, i, n, states, k - 1);
        let prev = states[k - 1];
        assert(freed(prev, states[k], i));
        assert(prev.rc[i] == m.rc[i] + n - (k - 1));
        assert(states[k].rc =~= m.rc.update(i, (m.rc[i] + n - k) as u32));
    }
}

} // verus!
