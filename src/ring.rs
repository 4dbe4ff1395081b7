//! A ring buffer stored in a [`LazyArray`].
use vstd::prelude::*;
use crate::lazy::{LazyArray, filled, is_live, targets};

verus! {

/// `q` after `x` is pushed at its back, where `q` is a queue of at most `cap`
/// elements that drops its front element to make room when it is full.
pub open spec fn bounded_push<T>(q: Seq<T>, cap: nat, x: T) -> Seq<T> {
    if cap == 0 {
        q
    } else if q.len() >= cap {
        q.drop_first().push(x)
    } else {
        q.push(x)
    }
}

/// `q` after the elements of `items` are pushed one at a time, in order, with
/// [`bounded_push`].
pub open spec fn bounded_extend<T>(q: Seq<T>, cap: nat, items: Seq<T>) -> Seq<T>
    decreases items.len(),
{
    if items.len() == 0 {
        q
    } else {
        bounded_push(bounded_extend(q, cap, items.drop_last()), cap, items.last())
    }
}

/// The last `n` elements of `s`, or all of `s` where it has no more than `n`.
pub open spec fn keep_last<T>(s: Seq<T>, n: nat) -> Seq<T> {
    if s.len() <= n {
        s
    } else {
        s.subrange(s.len() - n, s.len() as int)
    }
}

/// A bounded queue that starts within its bound and receives a batch of
/// elements holds the last `cap` elements of its old content followed by the
/// batch.
pub proof fn lemma_bounded_extend_keeps_last<T>(q: Seq<T>, cap: nat, items: Seq<T>)
    requires
        q.len() <= cap,
    ensures
        bounded_extend(q, cap, items) == keep_last(q + items, cap),
    decreases items.len(),
{
    if items.len() == 0 {
        assert(q + items =~= q);
    } else {
        let prev = items.drop_last();
        lemma_bounded_extend_keeps_last(q, cap, prev);
        let r = bounded_extend(q, cap, prev);
        let all = q + items;
        assert(q + prev =~= all.drop_last());
        if cap == 0 {
            assert(keep_last(all, cap) =~= Seq::<T>::empty());
        } else if r.len() >= cap {
            assert(r.drop_first().push(items.last()) =~= keep_last(all, cap));
        } else {
            assert(r.push(items.last()) =~= keep_last(all, cap));
        }
    }
}

/// Feeding a bounded queue two batches in turn gives the same queue as feeding
/// it their concatenation: where one batch ends and the next begins does not
/// matter, only the order of the elements.
pub proof fn lemma_bounded_extend_batches<T>(q: Seq<T>, cap: nat, first: Seq<T>, second: Seq<T>)
    requires
        q.len() <= cap,
    ensures
        bounded_extend(bounded_extend(q, cap, first), cap, second) == bounded_extend(
            q,
            cap,
            first + second,
        ),
{
    lemma_bounded_extend_keeps_last(q, cap, first);
    let mid = bounded_extend(q, cap, first);
    lemma_bounded_extend_keeps_last(mid, cap, second);
    lemma_bounded_extend_keeps_last(q, cap, first + second);
    assert(q + (first + second) =~= (q + first) + second);
    assert(keep_last(mid + second, cap) =~= keep_last((q + first) + second, cap));
}

/// Where the cursor of a ring of `cap > 0` slots lands after a batch of `n`
/// elements is appended at `cursor`: only the last `cap` elements of the batch
/// are written, and the cursor moves past them, wrapping round to the first
/// slot.
pub open spec fn advanced_cursor(cursor: nat, cap: nat, n: nat) -> nat {
    let b = if n < cap {
        n
    } else {
        cap
    };
    if cursor + b < cap {
        cursor + b
    } else {
        (cursor + b - cap) as nat
    }
}

/// A ring buffer of a fixed capacity, which keeps the elements appended last.
///
/// Appending to a full buffer evicts its oldest elements to make room.
pub struct RingArray<T> {
    len: usize,
    next: usize,
    array: LazyArray<T>,
}

impl<T> RingArray<T> {
    /// The number of elements the buffer can hold.
    pub closed spec fn capacity(&self) -> nat {
        self.array@.len()
    }

    /// The slot where the next append starts.
    pub closed spec fn cursor(&self) -> nat {
        self.next as nat
    }

    /// The buffer's internal consistency: while it is not full its elements
    /// fill the slots from the first one on and the cursor follows them; once
    /// it is full every slot is live and the oldest element is at the cursor.
    pub closed spec fn wf(&self) -> bool {
        ring_wf(self.array@, self.len as int, self.next as int)
    }
}

/// The values held by a ring of slots `s` that holds `len` elements, with
/// `next` the slot where the next append starts: the first `len` slots while
/// the ring is not full, else every slot from `next` round to `next - 1`.
pub open spec fn ring_view<T>(s: Seq<Option<T>>, len: int, next: int) -> Seq<T> {
    let cap = s.len() as int;
    if len < cap {
        Seq::new(len as nat, |j: int| s[j]->0)
    } else {
        Seq::new(
            cap as nat,
            |j: int|
                if next + j < cap {
                    s[next + j]->0
                } else {
                    s[next + j - cap]->0
                },
        )
    }
}

/// Whether a ring of slots `s` holding `len` elements, whose next append
/// starts at `next`, is consistent.
pub open spec fn ring_wf<T>(s: Seq<Option<T>>, len: int, next: int) -> bool {
    let cap = s.len() as int;
    &&& 0 <= len <= cap
    &&& 0 <= next <= cap
    &&& cap > 0 ==> next < cap
    &&& len < cap ==> next == len
    &&& is_live(s, 0, len)
}

/// The slot at `k` of `s` after the slots from `i` on are given `v`.
proof fn lemma_filled_at<T>(s: Seq<Option<T>>, i: int, v: Seq<T>, k: int)
    requires
        0 <= i,
        i + v.len() <= s.len(),
        0 <= k < s.len(),
    ensures
        filled(s, i, v).len() == s.len(),
        filled(s, i, v)[k] == (if i <= k < i + v.len() {
            Some(v[k - i])
        } else {
            s[k]
        }),
{
}

/// Appending a batch that ends before the last slot writes it at the cursor.
proof fn lemma_append_fits<T>(s: Seq<Option<T>>, len: int, next: int, e: Seq<T>)
    requires
        ring_wf(s, len, next),
        0 < e.len() < s.len() - next,
    ensures
        ({
            let cap = s.len() as int;
            let s2 = filled(s, next, e);
            let len2 = if e.len() < cap - len {
                len + e.len()
            } else {
                cap
            };
            &&& ring_wf(s2, len2, next + e.len())
            &&& ring_view(s2, len2, next + e.len()) == keep_last(
                ring_view(s, len, next) + e,
                cap as nat,
            )
        }),
{
    let cap = s.len() as int;
    let b = e.len() as int;
    let s2 = filled(s, next, e);
    let q = ring_view(s, len, next);
    let all = q + e;
    assert forall|k: int| 0 <= k < cap implies s2[k] == (if next <= k < next + b {
        Some(e[k - next])
    } else {
        s[k]
    }) by {
        lemma_filled_at(s, next, e, k);
    }
    assert(s2.len() == cap) by {
        lemma_filled_at(s, next, e, 0);
    }
    if len < cap {
        let len2 = len + b;
        assert(ring_view(s2, len2, next + b) =~= keep_last(all, cap as nat));
    } else {
        assert(ring_view(s2, cap, next + b) =~= keep_last(all, cap as nat));
    }
}

/// Appending a batch that reaches the last slot writes its first part from
/// the cursor to the end and the rest from the first slot on; only the last
/// `cap` elements of the batch are written.
proof fn lemma_append_wraps<T>(s: Seq<Option<T>>, len: int, next: int, e: Seq<T>)
    requires
        ring_wf(s, len, next),
        s.len() > 0,
        ({
            let cap = s.len() as int;
            let start = if e.len() > cap {
                e.len() - cap
            } else {
                0
            };
            e.len() - start >= cap - next
        }),
    ensures
        ({
            let cap = s.len() as int;
            let start = if e.len() > cap {
                e.len() - cap
            } else {
                0
            };
            let batch = e.subrange(start, e.len() as int);
            let room = cap - next;
            let head = batch.subrange(0, room);
            let tail = batch.subrange(room, batch.len() as int);
            let s2 = filled(filled(s, next, head), 0, tail);
            &&& ring_wf(s2, cap, tail.len() as int)
            &&& ring_view(s2, cap, tail.len() as int) == keep_last(
                ring_view(s, len, next) + e,
                cap as nat,
            )
        }),
{
    let cap = s.len() as int;
    let n = e.len() as int;
    let start = if n > cap {
        n - cap
    } else {
        0
    };
    let batch = e.subrange(start, n);
    let b = batch.len() as int;
    let room = cap - next;
    let head = batch.subrange(0, room);
    let tail = batch.subrange(room, b);
    let t = tail.len() as int;
    let s1 = filled(s, next, head);
    let s2 = filled(s1, 0, tail);
    let q = ring_view(s, len, next);
    let all = q + e;
    assert forall|k: int| 0 <= k < cap implies s2[k] == (if k < t {
        Some(e[start + room + k])
    } else if k < next {
        s[k]
    } else {
        Some(e[start + k - next])
    }) by {
        lemma_filled_at(s, next, head, k);
        lemma_filled_at(s1, 0, tail, k);
    }
    assert(s2.len() == cap) by {
        lemma_filled_at(s, next, head, 0);
        lemma_filled_at(s1, 0, tail, 0);
    }
    assert(ring_view(s2, cap, t) =~= keep_last(all, cap as nat));
}

impl<T> View for RingArray<T> {
    type V = Seq<T>;

    /// The elements held, oldest first.
    closed spec fn view(&self) -> Seq<T> {
        ring_view(self.array@, self.len as int, self.next as int)
    }
}

impl<T> RingArray<T> {
    /// Creates an empty ring buffer that can hold `capacity` elements.
    pub fn with_capacity(capacity: usize) -> (r: Self)
        ensures
            r.wf(),
            r.capacity() == capacity,
            r.cursor() == 0,
            r@ == Seq::<T>::empty(),
    {
        let r = RingArray { len: 0, next: 0, array: LazyArray::new(capacity) };
        assert(r@ =~= Seq::<T>::empty());
        r
    }

    /// The elements held, as two runs that give them oldest first when the
    /// second follows the first. The second run is empty while the buffer is
    /// not full; once it is, the first run starts at the cursor.
    pub fn as_slices(&self) -> (r: (Vec<&T>, Vec<&T>))
        requires
            self.wf(),
        ensures
            self@.len() <= self.capacity(),
            targets(r.0@) + targets(r.1@) == self@,
            self@.len() < self.capacity() ==> r.1@.len() == 0,
            self@.len() == self.capacity() ==> r.0@.len() == self.capacity() - self.cursor(),
    {
        let cap = self.array.len();
        if self.len < cap {
            let head = self.array.assume_init(0, self.len);
            let tail: Vec<&T> = Vec::new();
            assert(targets(head@) + targets(tail@) =~= self@);
            return (head, tail);
        }
        let head = self.array.assume_init(self.next, cap - self.next);
        let tail = self.array.assume_init(0, self.next);
        assert(targets(head@) + targets(tail@) =~= self@);
        (head, tail)
    }

    /// References to the elements held, oldest first.
    pub fn iter(&self) -> (r: Vec<&T>)
        requires
            self.wf(),
        ensures
            self@.len() <= self.capacity(),
            targets(r@) == self@,
    {
        let (head, tail) = self.as_slices();
        let mut out: Vec<&T> = Vec::new();
        let mut i: usize = 0;
        while i < head.len()
            invariant
                i <= head@.len(),
                out@ == head@.subrange(0, i as int),
            decreases head@.len() - i,
        {
            out.push(head[i]);
            i += 1;
            assert(out@ =~= head@.subrange(0, i as int));
        }
        let mut k: usize = 0;
        while k < tail.len()
            invariant
                k <= tail@.len(),
                out@ == head@ + tail@.subrange(0, k as int),
            decreases tail@.len() - k,
        {
            out.push(tail[k]);
            k += 1;
            assert(out@ =~= head@ + tail@.subrange(0, k as int));
        }
        assert(out@ =~= head@ + tail@);
        assert(targets(out@) =~= targets(head@) + targets(tail@));
        out
    }
}

impl<T: Copy> RingArray<T> {
    /// Appends the elements of `elems` in order, evicting the oldest elements
    /// where the buffer would otherwise hold more than its capacity.
    ///
    /// Elements of a batch longer than the capacity that would be evicted by
    /// the same batch are never written.
    pub fn copy_from_slice(&mut self, elems: &[T])
        requires
            old(self).wf(),
        ensures
            final(self).wf(),
            final(self).capacity() == old(self).capacity(),
            final(self)@ == bounded_extend(old(self)@, old(self).capacity(), elems@),
            final(self)@.len() <= final(self).capacity(),
            old(self).capacity() == 0 ==> final(self).cursor() == old(self).cursor(),
            old(self).capacity() > 0 ==> final(self).cursor() == advanced_cursor(
                old(self).cursor(),
                old(self).capacity(),
                elems@.len(),
            ),
    {
        let ghost q = self@;
        let ghost pre = self.array@;
        proof {
            lemma_bounded_extend_keeps_last(q, self.capacity(), elems@);
        }
        if self.array.is_empty() || elems.len() == 0 {
            proof {
                if elems@.len() == 0 {
                    assert(q + elems@ =~= q);
                } else {
                    assert(keep_last(q + elems@, 0) =~= q);
                }
            }
            return;
        }
        let cap = self.array.len();
        let start = elems.len().saturating_sub(cap);
        let batch = vstd::slice::slice_subrange(elems, start, elems.len());
        let room = cap - self.next;
        if batch.len() < room {
            self.array.copy_into_slots(self.next, batch);
            self.next = self.next + batch.len();
            self.len = if batch.len() < cap - self.len {
                self.len + batch.len()
            } else {
                cap
            };
            proof {
                assert(batch@ =~= elems@);
                lemma_append_fits(pre, old(self).len as int, old(self).next as int, elems@);
            }
        } else {
            let (head, tail) = batch.split_at(room);
            self.array.copy_into_slots(self.next, head);
            self.array.copy_into_slots(0, tail);
            self.next = tail.len();
            self.len = cap;
            proof {
                lemma_append_wraps(pre, old(self).len as int, old(self).next as int, elems@);
            }
        }
    }
}

} // verus!
