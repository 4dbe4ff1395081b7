//! An array of slots that may or may not hold a live value.
use vstd::prelude::*;

verus! {

/// Whether every slot of `s` in `[index, index + len)` holds a live value.
pub open spec fn is_live<T>(s: Seq<Option<T>>, index: int, len: int) -> bool {
    forall|j: int| index <= j < index + len ==> (#[trigger] s[j]) is Some
}

/// The values held by the slots of `s` in `[index, index + len)`.
pub open spec fn live_values<T>(s: Seq<Option<T>>, index: int, len: int) -> Seq<T> {
    Seq::new(len as nat, |j: int| s[index + j]->0)
}

/// The values that the references of `refs` point to.
pub open spec fn targets<T>(refs: Seq<&T>) -> Seq<T> {
    refs.map_values(|r: &T| *r)
}

/// `s` with the slots `[index, index + vals.len())` holding `vals`.
pub open spec fn filled<T>(s: Seq<Option<T>>, index: int, vals: Seq<T>) -> Seq<Option<T>> {
    s.subrange(0, index) + vals.map_values(|v: T| Some(v)) + s.subrange(
        index + vals.len(),
        s.len() as int,
    )
}

/// `s` with the slots `[index, index + len)` vacant.
pub open spec fn vacated<T>(s: Seq<Option<T>>, index: int, len: int) -> Seq<Option<T>> {
    s.subrange(0, index) + Seq::new(len as nat, |j: int| None::<T>) + s.subrange(
        index + len,
        s.len() as int,
    )
}

/// Reading back slots just given the values `vals` yields `vals`: those
/// slots are live and hold exactly `vals`, in order.
pub proof fn lemma_fill_then_read<T>(s: Seq<Option<T>>, index: int, vals: Seq<T>)
    requires
        0 <= index,
        index + vals.len() <= s.len(),
    ensures
        filled(s, index, vals).len() == s.len(),
        is_live(filled(s, index, vals), index, vals.len() as int),
        live_values(filled(s, index, vals), index, vals.len() as int) == vals,
{
    let f = filled(s, index, vals);
    assert(live_values(f, index, vals.len() as int) =~= vals);
}

/// Giving a range of slots new values a second time leaves no trace of the
/// first values: the result is as if only the second values had been given,
/// and the slots are live for the second write.
pub proof fn lemma_refill<T>(s: Seq<Option<T>>, index: int, first: Seq<T>, second: Seq<T>)
    requires
        0 <= index,
        index + first.len() <= s.len(),
        first.len() == second.len(),
    ensures
        is_live(filled(s, index, first), index, second.len() as int),
        filled(filled(s, index, first), index, second) == filled(s, index, second),
{
    lemma_fill_then_read(s, index, first);
    assert(filled(filled(s, index, first), index, second) =~= filled(s, index, second));
}

/// Giving the start of a range of slots new values leaves the rest of the
/// range as it was: the new values are read back where they were written, and
/// the part of the first values beyond them is read back unchanged.
pub proof fn lemma_partial_refill<T>(s: Seq<Option<T>>, index: int, first: Seq<T>, second: Seq<T>)
    requires
        0 <= index,
        index + first.len() <= s.len(),
        second.len() <= first.len(),
    ensures
        is_live(filled(s, index, first), index, second.len() as int),
        is_live(filled(filled(s, index, first), index, second), index, first.len() as int),
        live_values(filled(filled(s, index, first), index, second), index, second.len() as int)
            == second,
        live_values(
            filled(filled(s, index, first), index, second),
            index + second.len(),
            first.len() - second.len(),
        ) == first.subrange(second.len() as int, first.len() as int),
{
    lemma_fill_then_read(s, index, first);
    let f = filled(s, index, first);
    lemma_fill_then_read(f, index, second);
    let g = filled(f, index, second);
    assert forall|k: int| index + second.len() <= k < index + first.len() implies g[k] == Some(
        first[k - index],
    ) by {
        assert(g[k] == f[k]);
    }
    assert(live_values(g, index + second.len(), first.len() - second.len()) =~= first.subrange(
        second.len() as int,
        first.len() as int,
    ));
}

/// A fixed number of slots, each either vacant or holding a live value.
///
/// The number of slots never changes. Every operation on a range of slots
/// requires the range to lie within the array, and the operations that read
/// or replace values require the slots of the range to be live.
pub struct LazyArray<T> {
    slots: Vec<Option<T>>,
}

impl<T> View for LazyArray<T> {
    type V = Seq<Option<T>>;

    /// The slots, in order.
    closed spec fn view(&self) -> Seq<Option<T>> {
        self.slots@
    }
}

impl<T> LazyArray<T> {
    /// Creates an array of `capacity` vacant slots.
    pub fn new(capacity: usize) -> (r: Self)
        ensures
            r@ == Seq::new(capacity as nat, |j: int| None::<T>),
    {
        let mut slots: Vec<Option<T>> = Vec::with_capacity(capacity);
        let mut i: usize = 0;
        while i < capacity
            invariant
                i <= capacity,
                slots@ == Seq::new(i as nat, |j: int| None::<T>),
            decreases capacity - i,
        {
            slots.push(None);
            i += 1;
            assert(slots@ =~= Seq::new(i as nat, |j: int| None::<T>));
        }
        LazyArray { slots }
    }

    /// Number of slots.
    pub fn len(&self) -> (r: usize)
        ensures
            r == self@.len(),
    {
        self.slots.len()
    }

    /// Whether the array has no slot at all.
    pub fn is_empty(&self) -> (r: bool)
        ensures
            r == (self@.len() == 0),
    {
        self.slots.len() == 0
    }

    /// References to the values of the slots `[index, index + len)`, which
    /// must all be live.
    pub fn assume_init(&self, index: usize, len: usize) -> (r: Vec<&T>)
        requires
            index + len <= self@.len(),
            is_live(self@, index as int, len as int),
        ensures
            targets(r@) == live_values(self@, index as int, len as int),
    {
        let mut out: Vec<&T> = Vec::with_capacity(len);
        let cap = self.slots.len();
        let mut i: usize = 0;
        while i < len
            invariant
                i <= len,
                cap == self@.len(),
                index + len <= self@.len(),
                is_live(self@, index as int, len as int),
                out@.len() == i,
                forall|j: int| 0 <= j < i ==> *out@[j] == self@[index + j]->0,
            decreases len - i,
        {
            match &self.slots[index + i] {
                Some(v) => out.push(v),
                None => {},
            }
            i += 1;
        }
        assert(targets(out@) =~= live_values(self@, index as int, len as int));
        out
    }

    /// Mutable references to the values of the slots `[index, index + len)`,
    /// which must all be live.
    pub fn assume_init_mut(&mut self, index: usize, len: usize) -> (r: Vec<&mut T>)
        requires
            index + len <= old(self)@.len(),
            is_live(old(self)@, index as int, len as int),
        ensures
            r@.len() == len,
            forall|j: int| 0 <= j < len ==> *r@[j] == old(self)@[index + j]->0,
            final(self)@ == filled(
                old(self)@,
                index as int,
                Seq::new(len as nat, |j: int| *final(r@[j])),
            ),
    {
        let ghost pre = self@;
        let (left, rest) = self.slots.as_mut_slice().split_at_mut(index);
        let (window, right) = rest.split_at_mut(len);
        let mut window = window;
        let mut out: Vec<&mut T> = Vec::with_capacity(len);
        while window.len() > 0
            invariant
                index + len <= pre.len(),
                is_live(pre, index as int, len as int),
                out@.len() + window@.len() == len,
                window@ == pre.subrange(index + out@.len(), index + len),
                forall|j: int| 0 <= j < out@.len() ==> *out@[j] == pre[index + j]->0,
                after_borrow(self.slots)@ == pre.subrange(0, index as int) + Seq::new(
                    out@.len(),
                    |j: int| Some(*final(out@[j])),
                ) + final(window)@ + pre.subrange(index + len, pre.len() as int),
            decreases window@.len(),
        {
            let (first, tail) = window.split_at_mut(1);
            match first.first_mut() {
                Some(Some(v)) => out.push(v),
                _ => {},
            }
            window = tail;
        }
        proof {
            assert(after_borrow(self.slots)@ =~= filled(
                pre,
                index as int,
                Seq::new(len as nat, |j: int| *final(out@[j])),
            ));
        }
        out
    }

    /// Drops the values of the slots `[index, index + len)`, which must all be
    /// live, leaving those slots vacant.
    pub fn assume_init_drop(&mut self, index: usize, len: usize)
        requires
            index + len <= old(self)@.len(),
            is_live(old(self)@, index as int, len as int),
        ensures
            final(self)@ == vacated(old(self)@, index as int, len as int),
    {
        let ghost pre = self@;
        let cap = self.slots.len();
        let mut i: usize = 0;
        while i < len
            invariant
                i <= len,
                cap == pre.len(),
                index + len <= pre.len(),
                self@ == vacated(pre, index as int, i as int),
            decreases len - i,
        {
            self.slots.set(index + i, None);
            i += 1;
            assert(self@ =~= vacated(pre, index as int, i as int));
        }
    }
}

impl<T: Clone> LazyArray<T> {
    /// Stores a clone of each element of `elems` in the slots starting at
    /// `index`, and returns mutable references to the stored values.
    ///
    /// Meant for slots that are vacant; a value already held by one of these
    /// slots is dropped.
    pub fn write_from_slice(&mut self, index: usize, elems: &[T]) -> (r: Vec<&mut T>)
        requires
            index + elems@.len() <= old(self)@.len(),
        ensures
            r@.len() == elems@.len(),
            forall|j: int| 0 <= j < elems@.len() ==> cloned(elems@[j], *r@[j]),
            final(self)@ == filled(
                old(self)@,
                index as int,
                Seq::new(elems@.len(), |j: int| *final(r@[j])),
            ),
    {
        self.clone_into_slots(index, elems);
        self.assume_init_mut(index, elems.len())
    }

    /// Replaces the values of the slots starting at `index`, which must all be
    /// live, by clones of the elements of `elems`, and returns mutable
    /// references to the stored values. The replaced values are dropped.
    pub fn overwrite_from_slice(&mut self, index: usize, elems: &[T]) -> (r: Vec<&mut T>)
        requires
            index + elems@.len() <= old(self)@.len(),
            is_live(old(self)@, index as int, elems@.len() as int),
        ensures
            r@.len() == elems@.len(),
            forall|j: int| 0 <= j < elems@.len() ==> cloned(elems@[j], *r@[j]),
            final(self)@ == filled(
                old(self)@,
                index as int,
                Seq::new(elems@.len(), |j: int| *final(r@[j])),
            ),
    {
        self.clone_into_slots(index, elems);
        self.assume_init_mut(index, elems.len())
    }

    /// Stores a clone of each element of `elems` in the slots starting at
    /// `index`.
    fn clone_into_slots(&mut self, index: usize, elems: &[T])
        requires
            index + elems@.len() <= old(self)@.len(),
        ensures
            final(self)@.len() == old(self)@.len(),
            is_live(final(self)@, index as int, elems@.len() as int),
            forall|j: int|
                0 <= j < elems@.len() ==> cloned(elems@[j], #[trigger] final(self)@[index + j]->0),
            forall|j: int|
                0 <= j < old(self)@.len() && !(index <= j < index + elems@.len())
                    ==> final(self)@[j] == old(self)@[j],
    {
        let ghost pre = self@;
        let n = elems.len();
        let cap = self.slots.len();
        let mut i: usize = 0;
        while i < n
            invariant
                i <= n,
                cap == pre.len(),
                n == elems@.len(),
                index + n <= pre.len(),
                self@.len() == pre.len(),
                is_live(self@, index as int, i as int),
                forall|j: int| 0 <= j < i ==> cloned(elems@[j], #[trigger] self@[index + j]->0),
                forall|j: int|
                    0 <= j < pre.len() && !(index <= j < index + i) ==> self@[j] == pre[j],
            decreases n - i,
        {
            let v = elems[i].clone();
            self.slots.set(index + i, Some(v));
            i += 1;
        }
    }
}

impl<T: Copy> LazyArray<T> {
    /// Copies the elements of `elems` into the slots starting at `index`, and
    /// returns mutable references to the stored values.
    pub fn copy_from_slice(&mut self, index: usize, elems: &[T]) -> (r: Vec<&mut T>)
        requires
            index + elems@.len() <= old(self)@.len(),
        ensures
            r@.len() == elems@.len(),
            forall|j: int| 0 <= j < elems@.len() ==> *r@[j] == elems@[j],
            final(self)@ == filled(
                old(self)@,
                index as int,
                Seq::new(elems@.len(), |j: int| *final(r@[j])),
            ),
    {
        self.copy_into_slots(index, elems);
        self.assume_init_mut(index, elems.len())
    }

    /// Copies the elements of `elems` into the slots starting at `index`.
    pub(crate) fn copy_into_slots(&mut self, index: usize, elems: &[T])
        requires
            index + elems@.len() <= old(self)@.len(),
        ensures
            final(self)@ == filled(old(self)@, index as int, elems@),
    {
        let ghost pre = self@;
        let n = elems.len();
        let cap = self.slots.len();
        let mut i: usize = 0;
        while i < n
            invariant
                i <= n,
                cap == pre.len(),
                n == elems@.len(),
                index + n <= pre.len(),
                self@ == filled(pre, index as int, elems@.subrange(0, i as int)),
            decreases n - i,
        {
            self.slots.set(index + i, Some(elems[i]));
            i += 1;
            assert(self@ =~= filled(pre, index as int, elems@.subrange(0, i as int)));
        }
        assert(elems@.subrange(0, n as int) =~= elems@);
    }
}

} // verus!
