//! Dense property maps: one payload slot per vertex or edge index.
//!
//! A map is created against a graph snapshot, sized to that graph's vertex
//! or edge domain, and never grows. Reads and writes go through the graph's
//! id -> index projection (`VertexIndex` / `EdgeIndex`).

use vstd::prelude::*;

verus! {

/// A dense array of payload slots, addressed by the index that a graph's
/// projection assigns to each vertex or edge identifier.
pub struct PropVec<T> {
    values: Vec<T>,
}

impl<T> View for PropVec<T> {
    type V = Seq<T>;

    closed spec fn view(&self) -> Seq<T> {
        self.values@
    }
}

impl<T> PropVec<T> {
    pub fn len(&self) -> (n: usize)
        ensures
            n == self@.len(),
    {
        self.values.len()
    }

    pub fn get(&self, i: usize) -> (r: &T)
        requires
            i < self@.len(),
        ensures
            *r == self@[i as int],
    {
        &self.values[i]
    }

    pub fn set(&mut self, i: usize, value: T)
        requires
            i < old(self)@.len(),
        ensures
            final(self)@ == old(self)@.update(i as int, value),
    {
        self.values.set(i, value);
    }
}

impl<T: Clone> PropVec<T> {
    /// A map of `n` slots, each filled with a clone of `value`. This is the
    /// generic constructor: it accepts any cloneable payload type.
    pub fn new(n: usize, value: T) -> (p: Self)
        ensures
            p@.len() == n,
            forall|i: int| 0 <= i < n ==> cloned(value, #[trigger] p@[i]),
    {
        let mut values: Vec<T> = Vec::with_capacity(n);
        let mut k: usize = 0;
        while k < n
            invariant
                k <= n,
                values@.len() == k,
                forall|i: int| 0 <= i < k ==> cloned(value, #[trigger] values@[i]),
            decreases n - k,
        {
            values.push(value.clone());
            k = k + 1;
        }
        PropVec { values }
    }
}

impl<T: Copy> PropVec<T> {
    /// A map of `n` slots, each holding `value` itself.
    pub fn new_filled(n: usize, value: T) -> (p: Self)
        ensures
            p@.len() == n,
            forall|i: int| 0 <= i < n ==> p@[i] == value,
    {
        let mut values: Vec<T> = Vec::with_capacity(n);
        let mut k: usize = 0;
        while k < n
            invariant
                k <= n,
                values@.len() == k,
                forall|i: int| 0 <= i < k ==> values@[i] == value,
            decreases n - k,
        {
            values.push(value);
            k = k + 1;
        }
        PropVec { values }
    }
}

impl<T> PropVec<Vec<T>> {
    /// A map of `n` slots, each holding an empty list.
    pub fn new_rows(n: usize) -> (p: Self)
        ensures
            p@.len() == n,
            forall|i: int| 0 <= i < n ==> (#[trigger] p@[i])@ == Seq::<T>::empty(),
    {
        let mut values: Vec<Vec<T>> = Vec::with_capacity(n);
        let mut k: usize = 0;
        while k < n
            invariant
                k <= n,
                values@.len() == k,
                forall|i: int| 0 <= i < k ==> (#[trigger] values@[i])@ == Seq::<T>::empty(),
            decreases n - k,
        {
            values.push(Vec::new());
            k = k + 1;
        }
        PropVec { values }
    }

    /// Appends `x` to the list in slot `i`, leaving every other slot as it
    /// was.
    pub fn push_at(&mut self, i: usize, x: T)
        requires
            i < old(self)@.len(),
        ensures
            final(self)@.len() == old(self)@.len(),
            (final(self)@[i as int])@ == (old(self)@[i as int])@.push(x),
            forall|j: int|
                0 <= j < old(self)@.len() && j != i ==> final(self)@[j] == old(self)@[j],
    {
        self.values[i].push(x);
    }

    /// Borrows the list in slot `i`.
    pub fn row(&self, i: usize) -> (r: &Vec<T>)
        requires
            i < self@.len(),
        ensures
            *r == self@[i as int],
    {
        &self.values[i]
    }
}

} // verus!
