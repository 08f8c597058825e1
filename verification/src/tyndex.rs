//! Vectors indexed by a type of their own, so that indices of different
//! tables cannot be mixed up.

use std::marker::PhantomData;
use vstd::prelude::*;

verus! {

/// A type that stands for a position in one particular table.
pub trait Tyndex: Copy {
    /// Whether the type can hold position `i`.
    spec fn fits(i: usize) -> bool;

    /// The position that `self` stands for.
    spec fn position(self) -> usize;

    /// Two indices for one position are the same index.
    proof fn position_is_injective(a: Self, b: Self)
        requires
            a.position() == b.position(),
        ensures
            a == b,
    ;

    /// The index for position `i`.
    fn from_index(i: usize) -> (r: Self)
        requires
            Self::fits(i),
        ensures
            r.position() == i,
    ;

    /// The position that the index stands for.
    fn to_index(self) -> (r: usize)
        ensures
            r == self.position(),
            Self::fits(r),
    ;
}

/// A vector whose positions are named by values of `I`.
#[derive(Debug)]
pub struct TyVec<I: Tyndex, T> {
    pub raw: Vec<T>,
    pub marker: PhantomData<I>,
}

impl<I: Tyndex, T> View for TyVec<I, T> {
    type V = Seq<T>;

    open spec fn view(&self) -> Seq<T> {
        self.raw@
    }
}

impl<I: Tyndex, T> TyVec<I, T> {
    /// The vector with the items of `raw`.
    pub fn from_raw(raw: Vec<T>) -> (r: Self)
        ensures
            r.raw == raw,
    {
        Self { raw, marker: PhantomData }
    }

    /// The index one past the last element.
    pub fn len(&self) -> (r: I)
        requires
            I::fits(self.raw.len()),
        ensures
            r.position() == self@.len(),
    {
        I::from_index(self.raw.len())
    }

    /// Adds `v` at the end and says at which index.
    pub fn push_and_idx(&mut self, v: T) -> (r: I)
        requires
            I::fits(old(self).raw.len()),
        ensures
            final(self)@ == old(self)@.push(v),
            r.position() == old(self)@.len(),
    {
        let i = self.len();
        self.raw.push(v);
        i
    }

    /// Every element with its index, in order.
    pub fn enum_ref(&self) -> (r: Vec<(I, &T)>)
        requires
            forall|i: usize| i < self@.len() ==> I::fits(i),
        ensures
            r.len() == self@.len(),
            forall|k: int| 0 <= k < r.len() ==> (#[trigger] r[k]).0.position() == k,
            forall|k: int| 0 <= k < r.len() ==> *(#[trigger] r[k]).1 == self@[k],
    {
        let mut r: Vec<(I, &T)> = Vec::new();
        let mut i: usize = 0;
        while i < self.raw.len()
            invariant
                i <= self@.len(),
                r.len() == i,
                forall|i: usize| i < self@.len() ==> I::fits(i),
                forall|k: int| 0 <= k < i ==> (#[trigger] r[k]).0.position() == k,
                forall|k: int| 0 <= k < i ==> *(#[trigger] r[k]).1 == self@[k],
            decreases self@.len() - i,
        {
            r.push((I::from_index(i), &self.raw[i]));
            i = i + 1;
        }
        r
    }

    /// The item at `index`.
    pub fn get(&self, index: I) -> (r: &T)
        requires
            index.position() < self@.len(),
        ensures
            *r == self@[index.position() as int],
    {
        &self.raw[index.to_index()]
    }

    /// Puts `v` at `index`.
    pub fn set(&mut self, index: I, v: T)
        requires
            index.position() < old(self)@.len(),
        ensures
            final(self)@ == old(self)@.update(index.position() as int, v),
    {
        self.raw.set(index.to_index(), v);
    }
}

/// The positions in `raw`, each as an index of type `I`.
pub fn typed<I: Tyndex>(raw: &Vec<usize>) -> (r: Vec<I>)
    requires
        forall|k: int| 0 <= k < raw.len() ==> I::fits(#[trigger] raw[k]),
    ensures
        r.len() == raw.len(),
        forall|k: int| 0 <= k < r.len() ==> (#[trigger] r[k]).position() == raw[k],
{
    let mut r: Vec<I> = Vec::new();
    let mut i: usize = 0;
    while i < raw.len()
        invariant
            i <= raw.len(),
            r.len() == i,
            forall|k: int| 0 <= k < raw.len() ==> I::fits(#[trigger] raw[k]),
            forall|k: int| 0 <= k < i ==> (#[trigger] r[k]).position() == raw[k],
        decreases raw.len() - i,
    {
        r.push(I::from_index(raw[i]));
        i = i + 1;
    }
    r
}

/// The positions that a list of indices stands for.
pub open spec fn positions<I: Tyndex>(s: Seq<I>) -> Seq<usize> {
    Seq::new(s.len(), |k: int| s[k].position())
}

} // verus!
