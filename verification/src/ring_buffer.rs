//! A fixed-capacity circular history: every push evicts the oldest item.

use vstd::prelude::*;

verus! {

/// The slot of the backing store that holds the `i`-th oldest item, when the
/// oldest item sits in slot `oldest` of `len` slots.
pub open spec fn slot_of(oldest: int, len: int, i: int) -> int {
    if oldest + i < len {
        oldest + i
    } else {
        oldest + i - len
    }
}

/// The last `len()` items that were pushed, oldest first.
pub struct RingBuffer<T> {
    buffer: Vec<T>,
    oldest: usize,
}

impl<T> View for RingBuffer<T> {
    type V = Seq<T>;

    /// The items from the oldest to the newest.
    closed spec fn view(&self) -> Seq<T> {
        Seq::new(
            self.buffer@.len(),
            |i: int| self.buffer@[slot_of(self.oldest as int, self.buffer@.len() as int, i)],
        )
    }
}

impl<T> RingBuffer<T> {
    #[verifier::type_invariant]
    closed spec fn inv(&self) -> bool {
        self.oldest < self.buffer@.len()
    }

    /// A history of `size` copies of `initial_value`.
    pub fn new(size: usize, initial_value: T) -> (r: Self) where T: Clone
        requires
            size > 0,
        ensures
            r@.len() == size,
            forall|i: int| 0 <= i < size ==> cloned(initial_value, #[trigger] r@[i]),
    {
        let buffer = vec![initial_value; size];
        RingBuffer { buffer, oldest: 0 }
    }

    /// A history that holds `items`, the first of them being the oldest.
    pub fn from_vec(items: Vec<T>) -> (r: Self)
        requires
            items@.len() > 0,
        ensures
            r@ == items@,
    {
        let r = RingBuffer { buffer: items, oldest: 0 };
        assert(r@ =~= items@);
        r
    }

    /// The number of items in the history; pushing never changes it.
    pub fn len(&self) -> (n: usize)
        ensures
            n == self@.len(),
            n > 0,
    {
        proof {
            use_type_invariant(self);
        }
        self.buffer.len()
    }

    /// Appends `value` as the newest item and drops the oldest one.
    pub fn push(&mut self, value: T)
        ensures
            final(self)@ == old(self)@.drop_first().push(value),
    {
        proof {
            use_type_invariant(&*self);
        }
        let len = self.buffer.len();
        let at = self.oldest;
        self.buffer[at] = value;
        self.oldest = if at + 1 == len {
            0
        } else {
            at + 1
        };
        assert(self@ =~= old(self)@.drop_first().push(value));
    }

    /// The `i`-th oldest item.
    pub fn get(&self, i: usize) -> (item: &T)
        requires
            i < self@.len(),
        ensures
            *item == self@[i as int],
    {
        proof {
            use_type_invariant(self);
        }
        let len = self.buffer.len();
        let ahead = len - self.oldest;
        if i < ahead {
            &self.buffer[self.oldest + i]
        } else {
            &self.buffer[i - ahead]
        }
    }

    /// The item that was pushed `k` pushes before the newest one.
    pub fn from_newest(&self, k: usize) -> (item: &T)
        requires
            k < self@.len(),
        ensures
            *item == self@[self@.len() - 1 - k],
    {
        let len = self.len();
        self.get(len - 1 - k)
    }
}

} // verus!
