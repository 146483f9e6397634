use vstd::prelude::*;
use vstd::set_lib::{lemma_int_range, lemma_map_size, set_int_range};

verus! {

/// The content of a slot that holds no value; `i` is the slot's index.
fn empty_slot<T>(i: usize) -> (r: Option<T>)
    ensures
        r is None,
{
    None
}

/// Makes `N` empty slots.
///
/// Relies on `core::array::from_fn`: element `i` of the array is
/// `empty_slot(i)`, which is `None`.
#[verifier::external_body]
fn empty_slots<T, const N: usize>() -> (r: [Option<T>; N])
    ensures
        forall|j: int| 0 <= j < N ==> (#[trigger] r[j]).is_none(),
{
    core::array::from_fn(empty_slot)
}

/// What `push` makes of the live elements `s` of a stack of capacity `n`:
/// `v` is added last, and the oldest element leaves when `n` are live already.
pub open spec fn pushed<T>(s: Seq<T>, v: T, n: nat) -> Seq<T> {
    if n == 0 {
        s
    } else if s.len() < n {
        s.push(v)
    } else {
        s.drop_first().push(v)
    }
}

/// What pushing each of `vs` in turn makes of the live elements `s` of a
/// stack of capacity `n`.
pub open spec fn pushed_all<T>(s: Seq<T>, vs: Seq<T>, n: nat) -> Seq<T>
    decreases vs.len(),
{
    if vs.len() == 0 {
        s
    } else {
        pushed(pushed_all(s, vs.drop_last(), n), vs.last(), n)
    }
}

/// The last `n` elements of `s`, in order; all of `s` when it is shorter.
pub open spec fn last_n<T>(s: Seq<T>, n: nat) -> Seq<T> {
    if s.len() <= n {
        s
    } else {
        s.subrange(s.len() - n, s.len() as int)
    }
}

/// Whatever values are pushed onto an empty stack of capacity `n`, its live
/// elements are then the last `n` values pushed, oldest first.
pub proof fn lemma_keeps_last_pushed<T>(vs: Seq<T>, n: nat)
    ensures
        pushed_all(Seq::empty(), vs, n) == last_n(vs, n),
    decreases vs.len(),
{
    if vs.len() > 0 {
        lemma_keeps_last_pushed(vs.drop_last(), n);
        assert(pushed_all(Seq::empty(), vs, n) =~= last_n(vs, n));
    } else {
        assert(last_n(vs, n) =~= Seq::<T>::empty());
    }
}

/// After `k` pushes onto an empty stack of capacity `n`, it holds `k`
/// elements while `k <= n`, and `n` from then on.
pub proof fn lemma_count_after_pushes<T>(vs: Seq<T>, n: nat)
    ensures
        pushed_all(Seq::empty(), vs, n).len() == if vs.len() <= n {
            vs.len()
        } else {
            n
        },
{
    lemma_keeps_last_pushed(vs, n);
}

/// A push onto a full stack of capacity `n >= 1` keeps the count at `n` and
/// gives up exactly one old element, the oldest: the others stay, in order,
/// before the new one.
pub proof fn lemma_push_when_full<T>(s: Seq<T>, v: T, n: nat)
    requires
        n >= 1,
        s.len() == n,
    ensures
        pushed(s, v, n).len() == n,
        pushed(s, v, n).drop_last() == s.drop_first(),
        pushed(s, v, n).last() == v,
{
    assert(pushed(s, v, n).drop_last() =~= s.drop_first());
}

/// A stack of capacity 0 never holds anything: pushes leave it empty.
pub proof fn lemma_zero_capacity_stays_empty<T>(vs: Seq<T>)
    ensures
        pushed_all(Seq::empty(), vs, 0) == Seq::<T>::empty(),
{
    lemma_keeps_last_pushed(vs, 0);
    assert(last_n(vs, 0) =~= Seq::<T>::empty());
}

/// Why `remove` refused to remove an element.
#[derive(Clone, Copy, Debug, PartialEq, Eq, Structural)]
pub enum RemoveError {
    /// The index was not below the number of live elements.
    OutOfRange,
}

/// A stack of at most `N` elements that, once full, makes room for a new
/// element by dropping the oldest one.
///
/// The slots form a ring: `top_index` is the slot written last, and the live
/// elements are the `len` slots that end there, oldest first. Every other slot
/// is `None`, so no slot outside the live range holds a value to drop.
pub struct CircularStack<T, const N: usize> {
    top_index: usize,
    len: usize,
    slots: [Option<T>; N],
}

impl<T, const N: usize> View for CircularStack<T, N> {
    type V = Seq<T>;

    /// The live elements in the order they were pushed, oldest first.
    closed spec fn view(&self) -> Seq<T> {
        Seq::new(self.len as nat, |i: int| self.slots[self.slot_of(i)].unwrap())
    }
}

impl<T, const N: usize> CircularStack<T, N> {
    /// The slot `k` steps back from the slot written last (for `k < N`).
    closed spec fn back(&self, k: int) -> int {
        if k <= self.top_index {
            self.top_index - k
        } else {
            self.top_index + N - k
        }
    }

    /// The slot that holds the live element at logical index `i`.
    closed spec fn slot_of(&self, i: int) -> int {
        self.back(self.len - 1 - i)
    }

    /// The count and the cursor are in range.
    closed spec fn ring_ok(&self) -> bool {
        &&& self.len <= N
        &&& (N == 0 || self.top_index < N)
    }

    /// The count and the cursor are in range, and exactly the live slots hold
    /// a value.
    pub closed spec fn wf(&self) -> bool {
        &&& self.ring_ok()
        &&& forall|j: int|
            0 <= j < N ==> ((#[trigger] self.slots[j]).is_some() <==> self.back(j) < self.len)
    }

    /// Logical indices and live slots correspond one to one.
    proof fn lemma_live_slots(&self)
        requires
            self.wf(),
        ensures
            forall|i: int|
                0 <= i < self.len ==> 0 <= #[trigger] self.slot_of(i) < N && self.slots[self.slot_of(
                    i,
                )].is_some(),
            forall|j: int|
                0 <= j < N && self.back(j) < self.len ==> #[trigger] self.slot_of(
                    self.len - 1 - self.back(j),
                ) == j,
    {
        assert forall|i: int| 0 <= i < self.len implies 0 <= #[trigger] self.slot_of(i) < N
            && self.slots[self.slot_of(i)].is_some() by {
            assert(self.back(self.slot_of(i)) == self.len - 1 - i);
        }
    }

    /// An empty stack: no slot holds a value.
    pub fn new() -> (r: Self)
        ensures
            r.wf(),
            r@ == Seq::<T>::empty(),
    {
        let r = CircularStack { top_index: 0, len: 0, slots: empty_slots() };
        assert(r@ =~= Seq::<T>::empty());
        r
    }

    /// Adds `item` as the newest element. When the stack is full, the oldest
    /// element is dropped to make room; with no slots at all, `item` is dropped.
    pub fn push(&mut self, item: T)
        requires
            old(self).wf(),
        ensures
            final(self).wf(),
            final(self)@ == pushed(old(self)@, item, N as nat),
    {
        if N == 0 {
            return;
        }
        let next: usize = if self.len == 0 || self.top_index + 1 == N {
            0
        } else {
            self.top_index + 1
        };
        let ghost old_self = *self;
        // When the stack is full, `next` holds the oldest element, which is
        // dropped as the new one takes its place.
        self.slots[next] = Some(item);
        if self.len < N {
            self.len = self.len + 1;
        }
        self.top_index = next;
        proof {
            if old_self.len > 0 {
                assert forall|k: int| 1 <= k < N implies #[trigger] self.back(k) == old_self.back(
                    k - 1,
                ) by {}
            }
            assert(self.wf());
            assert(self@ =~= pushed(old_self@, item, N as nat));
        }
    }

    /// The slots that hold a value, and so whose values are dropped when the
    /// stack is dropped.
    pub closed spec fn held_slots(&self) -> Set<int> {
        Set::new(|j: int| 0 <= j < N && self.slots[j].is_some())
    }

    /// The stack holds a value in exactly one slot per live element: each live
    /// element is dropped once with the stack, and no empty slot is dropped.
    pub proof fn lemma_holds_only_live(&self)
        requires
            self.wf(),
        ensures
            self.held_slots().finite(),
            self.held_slots().len() == self@.len(),
    {
        self.lemma_live_slots();
        let f = |i: int| self.slot_of(i);
        let live = set_int_range(0, self.len as int);
        lemma_int_range(0, self.len as int);
        assert forall|a: int, b: int| live.contains(a) && live.contains(b) && f(a) == f(b) implies a
            == b by {
            assert(self.back(self.slot_of(a)) == self.len - 1 - a);
            assert(self.back(self.slot_of(b)) == self.len - 1 - b);
        }
        assert(live.map(f) =~= self.held_slots()) by {
            assert forall|j: int| self.held_slots().contains(j) implies live.map(f).contains(j) by {
                let i = self.len - 1 - self.back(j);
                assert(self.slots[j].is_some());
                assert(live.contains(i));
                assert(f(i) == j);
            }
        }
        lemma_map_size(live, self.held_slots(), f);
    }

    /// The slot that holds the live element at logical index `i`.
    fn slot_index(&self, i: usize) -> (r: usize)
        requires
            self.ring_ok(),
            i < self.len,
        ensures
            r == self.slot_of(i as int),
            r < N,
    {
        let d = self.len - 1 - i;
        if d <= self.top_index {
            self.top_index - d
        } else {
            N - (d - self.top_index)
        }
    }

    /// Removes the element at logical index `index` (0 is the oldest) and
    /// drops it; the elements after it move up one place, in the same order.
    /// An index that is not below the number of live elements changes
    /// nothing and gives `OutOfRange`.
    pub fn remove(&mut self, index: usize) -> (r: Result<(), RemoveError>)
        requires
            old(self).wf(),
        ensures
            final(self).wf(),
            index < old(self)@.len() ==> r is Ok && final(self)@ == old(self)@.remove(index as int)
                && final(self)@.len() == old(self)@.len() - 1,
            index >= old(self)@.len() ==> r == Err::<(), RemoveError>(RemoveError::OutOfRange)
                && final(self)@ == old(self)@,
    {
        if index >= self.len {
            return Err(RemoveError::OutOfRange);
        }
        let ghost s0 = *self;
        proof {
            s0.lemma_live_slots();
        }
        let mut k: usize = index;
        let mut at: usize = self.slot_index(k);
        self.slots[at] = None;
        while k + 1 < self.len
            invariant
                self.len == s0.len,
                self.top_index == s0.top_index,
                s0.wf(),
                index <= k < s0.len,
                at == s0.slot_of(k as int),
                self.slots[at as int].is_none(),
                forall|m: int|
                    0 <= m < s0.len && m != k ==> #[trigger] self.slots[s0.slot_of(m)] == if index
                        <= m < k {
                        s0.slots[s0.slot_of(m + 1)]
                    } else {
                        s0.slots[s0.slot_of(m)]
                    },
                forall|j: int|
                    0 <= j < N && s0.back(j) >= s0.len ==> #[trigger] self.slots[j] == s0.slots[j],
            decreases s0.len - k,
        {
            let from = self.slot_index(k + 1);
            let moved = self.slots[from].take();
            self.slots[at] = moved;
            at = from;
            k = k + 1;
        }
        self.top_index = if self.top_index == 0 {
            N - 1
        } else {
            self.top_index - 1
        };
        self.len = self.len - 1;
        proof {
            assert(at == s0.top_index);
            assert forall|j: int| 0 <= j < N && j != s0.top_index implies #[trigger] self.back(j)
                == s0.back(j) - 1 by {}
            assert forall|m: int| 0 <= m < self.len implies #[trigger] self.slot_of(m)
                == s0.slot_of(m) by {}
            assert forall|j: int| 0 <= j < N implies ((#[trigger] self.slots[j]).is_some()
                <==> self.back(j) < self.len) by {
                if j != s0.top_index && s0.back(j) < s0.len {
                    assert(s0.slot_of(s0.len - 1 - s0.back(j)) == j);
                }
            }
            assert(self.wf());
            assert(self@ =~= s0@.remove(index as int));
        }
        Ok(())
    }

    /// The live element at logical index `index` (0 is the oldest), or `None`
    /// when there is no such element.
    pub fn get(&self, index: usize) -> (r: Option<&T>)
        requires
            self.wf(),
        ensures
            index < self@.len() ==> r == Some(&self@[index as int]),
            index >= self@.len() ==> r is None,
    {
        if index >= self.len {
            return None;
        }
        proof {
            self.lemma_live_slots();
        }
        let at = self.slot_index(index);
        self.slots[at].as_ref()
    }

    /// Borrows the live elements, oldest first: the vector holds references,
    /// and no element is copied.
    pub fn as_slice(&self) -> (r: Vec<&T>)
        requires
            self.wf(),
        ensures
            r@.len() == self@.len(),
            forall|i: int| 0 <= i < r@.len() ==> *r@[i] == self@[i],
    {
        proof {
            self.lemma_live_slots();
        }
        let mut r: Vec<&T> = Vec::new();
        let mut i: usize = 0;
        while i < self.len
            invariant
                self.wf(),
                i <= self.len,
                r@.len() == i,
                forall|m: int| 0 <= m < i ==> *r@[m] == self@[m],
            decreases self.len - i,
        {
            let at = self.slot_index(i);
            match self.slots[at].as_ref() {
                Some(v) => r.push(v),
                None => {},
            }
            i = i + 1;
        }
        r
    }

    /// The number of live elements.
    pub fn len(&self) -> (r: usize)
        requires
            self.wf(),
        ensures
            r == self@.len(),
            r <= N,
    {
        self.len
    }

    /// The most elements the stack holds at once.
    pub fn capacity(&self) -> (r: usize)
        ensures
            r == N,
    {
        N
    }
}

} // verus!
