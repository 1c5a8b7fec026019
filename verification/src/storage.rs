//! Storage handles: who owns the buffer of an array, and what may be done
//! with it. An owned handle holds the buffer; a view borrows it; a mutable
//! view borrows it exclusively; a copy-on-write handle borrows it until the
//! first write; a shared handle counts its owners and is read-only.

use vstd::prelude::*;
use std::sync::Arc;

verus! {

/// Every element of `to` is a clone of the element of `from` at its place.
pub open spec fn cloned_seq<T: Clone>(from: Seq<T>, to: Seq<T>) -> bool {
    &&& from.len() == to.len()
    &&& forall|i: int| 0 <= i < from.len() ==> cloned::<T>(#[trigger] from[i], to[i])
}

/// Every element of `s` is a clone of `value`.
pub open spec fn filled_with<T: Clone>(value: T, s: Seq<T>) -> bool {
    forall|i: int| 0 <= i < s.len() ==> cloned::<T>(value, #[trigger] s[i])
}

/// A buffer of `len` clones of `value`.
pub fn create_buf<T: Clone>(len: usize, value: T) -> (buf: Vec<T>)
    ensures
        buf@.len() == len,
        filled_with(value, buf@),
{
    let mut buf: Vec<T> = Vec::new();
    buf.reserve(len);
    buf.resize(len, value);
    buf
}

/// A buffer of clones of the elements of a slice.
pub fn clone_slice<T: Clone>(data: &[T]) -> (buf: Vec<T>)
    ensures
        cloned_seq(data@, buf@),
{
    let mut buf: Vec<T> = Vec::new();
    buf.extend_from_slice(data);
    buf
}

/// Calls `num_traits::Zero::zero`: the additive identity of `T`. The
/// identity is whatever the implementation of the trait for `T` returns, so
/// nothing is claimed of it.
#[verifier::external_body]
pub(crate) fn zero_value<T: num_traits::Zero>() -> T {
    T::zero()
}

/// Calls `num_traits::One::one`: the multiplicative identity of `T`. The
/// identity is whatever the implementation of the trait for `T` returns, so
/// nothing is claimed of it.
#[verifier::external_body]
pub(crate) fn one_value<T: num_traits::One>() -> T {
    T::one()
}

/// A buffer that is borrowed until it is first written to, and owned from
/// then on.
#[derive(Clone, Debug, Hash)]
pub enum CowBuffer<'a, T> {
    Borrowed(&'a [T]),
    Owned(Vec<T>),
}

impl<'a, T> View for CowBuffer<'a, T> {
    type V = Seq<T>;

    open spec fn view(&self) -> Seq<T> {
        match self {
            CowBuffer::Borrowed(b) => b@,
            CowBuffer::Owned(o) => o@,
        }
    }
}

/// A storage handle over a buffer of kind `B`.
#[derive(Clone, Debug, PartialEq, Eq, Hash)]
pub struct StorageBase<B>(pub B);

/// What every storage handle offers: reading, and deriving read-only views.
pub trait Storage {
    /// The type of the elements.
    type Elem: Clone;

    /// The elements of the buffer, in the order of the buffer.
    spec fn elems(&self) -> Seq<Self::Elem>;

    /// Whether writing through this handle first replaces the borrowed
    /// buffer by an owned clone of it.
    spec fn borrowed_cow(&self) -> bool;

    /// The elements as a slice.
    fn as_slice(&self) -> (s: &[Self::Elem])
        ensures
            s@ == self.elems(),
    ;

    /// A copy-on-write handle that borrows this buffer.
    fn cow(&self) -> (c: StorageBase<CowBuffer<'_, Self::Elem>>)
        ensures
            c.0 is Borrowed,
            c.0@ == self.elems(),
    ;

    /// A read-only view of this buffer.
    fn view(&self) -> (v: StorageBase<&[Self::Elem]>)
        ensures
            v.0@ == self.elems(),
    ;
}

/// What a handle with the right to write offers.
pub trait StorageMut: Storage {
    /// The elements as a mutable slice. A copy-on-write handle that still
    /// borrows its buffer replaces it by an owned clone first.
    fn as_mut_slice(&mut self) -> (s: &mut [Self::Elem])
        ensures
            !old(self).borrowed_cow() ==> s@ == old(self).elems(),
            old(self).borrowed_cow() ==> cloned_seq(old(self).elems(), s@),
            final(s)@ == final(self).elems(),
            !final(self).borrowed_cow(),
    ;

    /// A mutable view of this buffer. A copy-on-write handle that still
    /// borrows its buffer replaces it by an owned clone first.
    fn view_mut(&mut self) -> (v: StorageBase<&mut [Self::Elem]>)
        ensures
            !old(self).borrowed_cow() ==> v.0@ == old(self).elems(),
            old(self).borrowed_cow() ==> cloned_seq(old(self).elems(), v.0@),
            final(v.0)@ == final(self).elems(),
            !final(self).borrowed_cow(),
    ;
}

/// What a handle that can be made from nothing offers.
pub trait StorageOwned: Storage + Sized {
    /// A handle that owns the given buffer.
    fn from_vec(data: Vec<Self::Elem>) -> (s: Self)
        ensures
            s.elems() == data@,
            !s.borrowed_cow(),
    ;

    /// A handle that owns `len` clones of `value`.
    fn from_elem(len: usize, value: Self::Elem) -> (s: Self)
        ensures
            s.elems().len() == len,
            filled_with(value, s.elems()),
            !s.borrowed_cow(),
    {
        Self::from_vec(create_buf(len, value))
    }

    /// A handle that owns `len` elements of which nothing is known: they are
    /// there to be overwritten.
    fn allocate_uninitialized(len: usize) -> (s: Self) where Self::Elem: Default
        ensures
            s.elems().len() == len,
            !s.borrowed_cow(),
    {
        Self::from_elem(len, Self::Elem::default())
    }

    /// A handle that owns `len` clones of the additive identity.
    fn zeros(len: usize) -> (s: Self) where Self::Elem: num_traits::Zero
        ensures
            s.elems().len() == len,
            exists|zero: Self::Elem| filled_with(zero, s.elems()),
            !s.borrowed_cow(),
    {
        Self::from_elem(len, zero_value::<Self::Elem>())
    }

    /// A handle that owns `len` clones of the multiplicative identity.
    fn ones(len: usize) -> (s: Self) where Self::Elem: num_traits::One
        ensures
            s.elems().len() == len,
            exists|one: Self::Elem| filled_with(one, s.elems()),
            !s.borrowed_cow(),
    {
        Self::from_elem(len, one_value::<Self::Elem>())
    }
}

impl<T: Clone> Storage for StorageBase<Vec<T>> {
    type Elem = T;

    open spec fn elems(&self) -> Seq<T> {
        self.0@
    }

    open spec fn borrowed_cow(&self) -> bool {
        false
    }

    fn as_slice(&self) -> (s: &[T]) {
        self.0.as_slice()
    }

    fn cow(&self) -> (c: StorageBase<CowBuffer<'_, T>>) {
        StorageBase(CowBuffer::Borrowed(self.0.as_slice()))
    }

    fn view(&self) -> (v: StorageBase<&[T]>) {
        StorageBase(self.0.as_slice())
    }
}

impl<T: Clone> StorageMut for StorageBase<Vec<T>> {
    fn as_mut_slice(&mut self) -> (s: &mut [T]) {
        self.0.as_mut_slice()
    }

    fn view_mut(&mut self) -> (v: StorageBase<&mut [T]>) {
        StorageBase(self.0.as_mut_slice())
    }
}

impl<T: Clone> StorageOwned for StorageBase<Vec<T>> {
    fn from_vec(data: Vec<T>) -> (s: Self) {
        StorageBase(data)
    }
}

impl<'a, T: Clone> Storage for StorageBase<&'a [T]> {
    type Elem = T;

    open spec fn elems(&self) -> Seq<T> {
        self.0@
    }

    open spec fn borrowed_cow(&self) -> bool {
        false
    }

    fn as_slice(&self) -> (s: &[T]) {
        self.0
    }

    fn cow(&self) -> (c: StorageBase<CowBuffer<'_, T>>) {
        StorageBase(CowBuffer::Borrowed(self.0))
    }

    fn view(&self) -> (v: StorageBase<&[T]>) {
        StorageBase(self.0)
    }
}

impl<'a, T: Clone> Storage for StorageBase<&'a mut [T]> {
    type Elem = T;

    open spec fn elems(&self) -> Seq<T> {
        self.0@
    }

    open spec fn borrowed_cow(&self) -> bool {
        false
    }

    fn as_slice(&self) -> (s: &[T]) {
        self.0
    }

    fn cow(&self) -> (c: StorageBase<CowBuffer<'_, T>>) {
        StorageBase(CowBuffer::Borrowed(self.0))
    }

    fn view(&self) -> (v: StorageBase<&[T]>) {
        StorageBase(self.0)
    }
}

impl<'a, T: Clone> StorageMut for StorageBase<&'a mut [T]> {
    fn as_mut_slice(&mut self) -> (s: &mut [T]) {
        self.0
    }

    fn view_mut(&mut self) -> (v: StorageBase<&mut [T]>) {
        StorageBase(self.0)
    }
}

impl<'a, T: Clone> Storage for StorageBase<CowBuffer<'a, T>> {
    type Elem = T;

    open spec fn elems(&self) -> Seq<T> {
        self.0@
    }

    open spec fn borrowed_cow(&self) -> bool {
        self.0 is Borrowed
    }

    fn as_slice(&self) -> (s: &[T]) {
        match &self.0 {
            CowBuffer::Borrowed(b) => b,
            CowBuffer::Owned(o) => o.as_slice(),
        }
    }

    fn cow(&self) -> (c: StorageBase<CowBuffer<'_, T>>) {
        StorageBase(CowBuffer::Borrowed(self.as_slice()))
    }

    fn view(&self) -> (v: StorageBase<&[T]>) {
        StorageBase(self.as_slice())
    }
}

impl<'a, T: Clone> StorageBase<CowBuffer<'a, T>> {
    /// Replaces a borrowed buffer by an owned clone of it. An owned buffer
    /// stays as it is.
    pub fn promote(&mut self)
        ensures
            final(self).0 is Owned,
            old(self).0 is Owned ==> final(self).elems() == old(self).elems(),
            old(self).0 is Borrowed ==> cloned_seq(old(self).elems(), final(self).elems()),
    {
        let owned: Option<Vec<T>> = match &self.0 {
            CowBuffer::Borrowed(b) => Some(clone_slice(b)),
            CowBuffer::Owned(_) => None,
        };
        match owned {
            Some(buf) => {
                self.0 = CowBuffer::Owned(buf);
            },
            None => {},
        }
    }
}

impl<'a, T: Clone> StorageMut for StorageBase<CowBuffer<'a, T>> {
    fn as_mut_slice(&mut self) -> (s: &mut [T]) {
        self.promote();
        match &mut self.0 {
            CowBuffer::Owned(o) => o.as_mut_slice(),
            CowBuffer::Borrowed(_) => unreached(),
        }
    }

    fn view_mut(&mut self) -> (v: StorageBase<&mut [T]>) {
        StorageBase(self.as_mut_slice())
    }
}

impl<'a, T: Clone> StorageOwned for StorageBase<CowBuffer<'a, T>> {
    fn from_vec(data: Vec<T>) -> (s: Self) {
        StorageBase(CowBuffer::Owned(data))
    }
}

impl<T: Clone> Storage for StorageBase<Arc<Vec<T>>> {
    type Elem = T;

    open spec fn elems(&self) -> Seq<T> {
        self.0@
    }

    open spec fn borrowed_cow(&self) -> bool {
        false
    }

    fn as_slice(&self) -> (s: &[T]) {
        self.0.as_slice()
    }

    fn cow(&self) -> (c: StorageBase<CowBuffer<'_, T>>) {
        StorageBase(CowBuffer::Borrowed(self.0.as_slice()))
    }

    fn view(&self) -> (v: StorageBase<&[T]>) {
        StorageBase(self.0.as_slice())
    }
}

impl<T: Clone> StorageOwned for StorageBase<Arc<Vec<T>>> {
    fn from_vec(data: Vec<T>) -> (s: Self) {
        StorageBase(Arc::new(data))
    }
}

} // verus!
