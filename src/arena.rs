use vstd::prelude::*;

verus! {

/// An append-only store. Values are never freed one by one: every value
/// lives until the arena itself is dropped, and each is addressed by the
/// stable index that `allocate` handed out.
pub struct Arena<T> {
    items: Vec<T>,
}

impl<T> View for Arena<T> {
    type V = Seq<T>;

    closed spec fn view(&self) -> Seq<T> {
        self.items@
    }
}

impl<T> Arena<T> {
    pub fn new() -> (r: Arena<T>)
        ensures
            r@ == Seq::<T>::empty(),
    {
        Arena { items: Vec::new() }
    }

    /// Stores `value` and returns its index.
    pub fn allocate(&mut self, value: T) -> (r: usize)
        requires
            old(self)@.len() < usize::MAX,
        ensures
            r == old(self)@.len(),
            final(self)@ == old(self)@.push(value),
    {
        let r = self.items.len();
        self.items.push(value);
        r
    }

    pub fn len(&self) -> (r: usize)
        ensures
            r == self@.len(),
    {
        self.items.len()
    }

    pub fn get(&self, i: usize) -> (r: &T)
        requires
            i < self@.len(),
        ensures
            *r == self@[i as int],
    {
        &self.items[i]
    }

    /// Mutable access to the value at index `i`.
    pub fn get_mut(&mut self, i: usize) -> (r: &mut T)
        requires
            i < old(self)@.len(),
        ensures
            *r == old(self)@[i as int],
            final(self)@ == old(self)@.update(i as int, *final(r)),
    {
        &mut self.items[i]
    }
}

} // verus!
