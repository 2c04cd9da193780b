//! Short vector with a limited capacity.
use vstd::prelude::*;

verus! {

/// Vector with a capacity of `CAP` elements.
#[derive(Debug)]
pub struct StackVec<T, const CAP: usize> {
    elems: Vec<T>,
}

impl<T, const CAP: usize> View for StackVec<T, CAP> {
    type V = Seq<T>;

    closed spec fn view(&self) -> Seq<T> {
        self.elems@
    }
}

impl<T: Copy, const CAP: usize> Clone for StackVec<T, CAP> {
    fn clone(&self) -> (r: Self)
        ensures
            r@ == self@,
    {
        let mut elems: Vec<T> = Vec::new();
        let mut i: usize = 0;
        while i < self.elems.len()
            invariant
                i <= self@.len(),
                elems@ == self@.subrange(0, i as int),
            decreases self@.len() - i,
        {
            elems.push(self.elems[i]);
            i = i + 1;
            assert(elems@ =~= self@.subrange(0, i as int));
        }
        assert(self@.subrange(0, self@.len() as int) =~= self@);
        StackVec { elems }
    }
}

impl<T: Copy, const CAP: usize> StackVec<T, CAP> {
    /// Constructs a new empty vector.
    pub fn new() -> (r: Self)
        ensures
            r@ == Seq::<T>::empty(),
    {
        StackVec { elems: Vec::new() }
    }

    /// Constructs a vector from values in a slice, or returns `None` if they
    /// do not fit.
    pub fn from_slice(array: &[T]) -> (r: Option<Self>)
        ensures
            r is None <==> array@.len() > CAP,
            r matches Some(v) ==> v@ == array@,
    {
        if array.len() > CAP {
            return None;
        }
        let mut elems: Vec<T> = Vec::new();
        let mut i: usize = 0;
        while i < array.len()
            invariant
                i <= array.len(),
                elems@ == array@.subrange(0, i as int),
            decreases array.len() - i,
        {
            elems.push(array[i]);
            i = i + 1;
            assert(elems@ =~= array@.subrange(0, i as int));
        }
        assert(array@.subrange(0, array.len() as int) =~= array@);
        Some(StackVec { elems })
    }

    /// Pushes an element onto the vector and returns it, or returns `None` in
    /// case of overflow.
    pub fn push(self, elem: T) -> (r: Option<Self>)
        ensures
            r is None <==> self@.len() >= CAP,
            r matches Some(v) ==> v@ == self@.push(elem),
    {
        if self.elems.len() >= CAP {
            return None;
        }
        let mut elems = self.elems;
        elems.push(elem);
        Some(StackVec { elems })
    }

    /// Applies a function to every element in the vector.
    pub fn map<U: Copy, F: Fn(T) -> U>(self, f: F) -> (r: StackVec<U, CAP>)
        requires
            forall|i: int| 0 <= i < self@.len() ==> f.requires((#[trigger] self@[i],)),
        ensures
            r@.len() == self@.len(),
            forall|i: int| 0 <= i < self@.len() ==> f.ensures((#[trigger] self@[i],), r@[i]),
    {
        let mut elems: Vec<U> = Vec::new();
        let mut i: usize = 0;
        while i < self.elems.len()
            invariant
                i <= self@.len(),
                elems@.len() == i,
                forall|j: int| 0 <= j < self@.len() ==> f.requires((#[trigger] self@[j],)),
                forall|j: int| 0 <= j < i ==> f.ensures((#[trigger] self@[j],), elems@[j]),
            decreases self@.len() - i,
        {
            let x = self.elems[i];
            let y = f(x);
            elems.push(y);
            i = i + 1;
        }
        StackVec { elems }
    }

    /// Extends the vector with the elements of a slice, or returns `None` if
    /// they do not fit.
    pub fn extend(self, iter: &[T]) -> (r: Option<Self>)
        ensures
            r is None <==> self@.len() + iter@.len() > CAP,
            r matches Some(v) ==> v@ == self@ + iter@,
    {
        if self.elems.len() > CAP || iter.len() > CAP - self.elems.len() {
            return None;
        }
        let mut ret = self;
        let mut i: usize = 0;
        while i < iter.len()
            invariant
                i <= iter.len(),
                self@.len() + iter@.len() <= CAP,
                ret@ == self@ + iter@.subrange(0, i as int),
            decreases iter.len() - i,
        {
            match ret.push(iter[i]) {
                Some(v) => {
                    ret = v;
                },
                None => {
                    return None;
                },
            }
            i = i + 1;
            assert(ret@ =~= self@ + iter@.subrange(0, i as int));
        }
        assert(iter@.subrange(0, iter.len() as int) =~= iter@);
        Some(ret)
    }

    /// Constructs a vector from the elements of a slice, or returns `None` if
    /// they do not fit.
    pub fn from_iter(iter: &[T]) -> (r: Option<Self>)
        ensures
            r is None <==> iter@.len() > CAP,
            r matches Some(v) ==> v@ == iter@,
    {
        let r = Self::new().extend(iter);
        assert(Seq::<T>::empty() + iter@ =~= iter@);
        r
    }

    /// Returns a slice containing the entire vector.
    pub fn as_slice(&self) -> (r: &[T])
        ensures
            r@ == self@,
    {
        self.elems.as_slice()
    }

    /// Returns the number of elements.
    pub fn len(&self) -> (r: usize)
        ensures
            r == self@.len(),
    {
        self.elems.len()
    }

    /// Returns the element at `index`.
    pub fn get(&self, index: usize) -> (r: T)
        requires
            index < self@.len(),
        ensures
            r == self@[index as int],
    {
        self.elems[index]
    }
}

} // verus!
