//! Typed indices and the arenas they index.
use vstd::prelude::*;
use std::marker::PhantomData;
use std::ops::Index;

verus! {

/// A typed index into an `Arena<T>`: an `Idx<A>` cannot index an `Arena<B>`.
#[derive(Debug)]
pub struct Idx<T> {
    raw: u32,
    _marker: PhantomData<T>,
}

impl<T> Clone for Idx<T> {
    fn clone(&self) -> (r: Self)
        ensures
            r == *self,
    {
        *self
    }
}

impl<T> Copy for Idx<T> {
}

impl<T> PartialEq for Idx<T> {
    fn eq(&self, other: &Self) -> (r: bool) {
        self.raw == other.raw
    }
}

impl<T> vstd::std_specs::cmp::PartialEqSpecImpl for Idx<T> {
    open spec fn obeys_eq_spec() -> bool {
        true
    }

    open spec fn eq_spec(&self, other: &Self) -> bool {
        self.index() == other.index()
    }
}

impl<T> Eq for Idx<T> {
}

impl<T> Idx<T> {
    /// The raw position this index stands for.
    pub closed spec fn index(self) -> nat {
        self.raw as nat
    }

    pub fn from_raw(raw: u32) -> (i: Self)
        ensures
            i.index() == raw,
    {
        Idx { raw, _marker: PhantomData }
    }

    pub fn raw(self) -> (r: u32)
        ensures
            r == self.index(),
    {
        self.raw
    }

    pub proof fn lemma_index_injective(a: Self, b: Self)
        ensures
            a.index() == b.index() <==> a == b,
    {
        if a.index() == b.index() {
            assert(a.raw == b.raw);
            assert(a._marker == b._marker);
        }
    }
}

/// A simple index-based arena: values stored in allocation order.
pub struct Arena<T> {
    data: Vec<T>,
}

impl<T> View for Arena<T> {
    type V = Seq<T>;

    closed spec fn view(&self) -> Seq<T> {
        self.data@
    }
}

impl<T> Arena<T> {
    /// Whether `idx` points at a value of this arena.
    pub open spec fn contains(&self, idx: Idx<T>) -> bool {
        idx.index() < self@.len()
    }

    /// The value that `idx` points at.
    pub open spec fn get_spec(&self, idx: Idx<T>) -> T {
        self@[idx.index() as int]
    }

    pub fn new() -> (a: Self)
        ensures
            a@ == Seq::<T>::empty(),
    {
        Arena { data: Vec::new() }
    }

    /// Stores `value` and returns its index, which is the number of values stored before it.
    pub fn allocate(&mut self, value: T) -> (id: Idx<T>)
        requires
            old(self)@.len() <= u32::MAX,
        ensures
            id.index() == old(self)@.len(),
            final(self)@ == old(self)@.push(value),
    {
        let id = Idx::from_raw(self.data.len() as u32);
        self.data.push(value);
        id
    }

    pub fn len(&self) -> (n: usize)
        ensures
            n == self@.len(),
    {
        self.data.len()
    }

    pub fn is_empty(&self) -> (b: bool)
        ensures
            b == (self@.len() == 0),
    {
        self.data.len() == 0
    }

    /// Every value paired with its index, in allocation order.
    pub fn iter(&self) -> (r: Vec<(Idx<T>, &T)>)
        requires
            self@.len() <= u32::MAX,
        ensures
            r@.len() == self@.len(),
            forall|i: int|
                0 <= i < r@.len() ==> (#[trigger] r@[i]).0.index() == i && *r@[i].1 == self@[i],
    {
        let mut r: Vec<(Idx<T>, &T)> = Vec::new();
        let mut i: usize = 0;
        while i < self.data.len()
            invariant
                0 <= i <= self.data@.len(),
                self.data@.len() <= u32::MAX,
                r@.len() == i,
                forall|j: int| 0 <= j < i ==> (#[trigger] r@[j]).0.index() == j && *r@[j].1 == self@[j],
            decreases self.data@.len() - i,
        {
            r.push((Idx::from_raw(i as u32), &self.data[i]));
            i = i + 1;
        }
        r
    }

    pub fn get(&self, idx: Idx<T>) -> (r: &T)
        requires
            self.contains(idx),
        ensures
            *r == self.get_spec(idx),
    {
        &self.data[idx.raw as usize]
    }

    pub fn get_mut(&mut self, idx: Idx<T>) -> (r: &mut T)
        requires
            old(self).contains(idx),
        ensures
            *r == old(self).get_spec(idx),
            final(self)@ == old(self)@.update(idx.index() as int, *final(r)),
    {
        &mut self.data[idx.raw as usize]
    }
}

impl<T> Default for Arena<T> {
    fn default() -> (a: Self)
        ensures
            a@ == Seq::<T>::empty(),
    {
        Self::new()
    }
}

impl<T> Index<Idx<T>> for Arena<T> {
    type Output = T;

    fn index(&self, idx: Idx<T>) -> (r: &T)
        ensures
            *r == self.get_spec(idx),
    {
        &self.data[idx.raw as usize]
    }
}

impl<T> vstd::std_specs::core::IndexSpecImpl<Idx<T>> for Arena<T> {
    open spec fn index_req(&self, idx: &Idx<T>) -> bool {
        self.contains(*idx)
    }
}

} // verus!
