//! What a block asks of the array that holds its values, two arrays that
//! provide it, and the bookkeeping of the views on one array.

use vstd::prelude::*;
use crate::errors::Error;

verus! {

/// What a block asks of the array that holds its values.
///
/// An array has one extent per axis and a flat sequence of elements. It may
/// or may not accept writes. A block never looks at how the array is stored.
pub trait Array: Sized {
    /// The type of one element.
    type Element: Copy;

    /// The extent of each axis, in order.
    spec fn extents(&self) -> Seq<usize>;

    /// The elements, by offset.
    spec fn contents(&self) -> Seq<Self::Element>;

    /// Whether the array accepts writes.
    spec fn writable(&self) -> bool;

    /// The extent of each axis, in order.
    fn shape(&self) -> (shape: &[usize])
        ensures
            shape@ == self.extents(),
    ;

    /// The number of elements.
    fn len(&self) -> (len: usize)
        ensures
            len == self.contents().len(),
    ;

    /// The element at `offset`, or `None` if there is none.
    fn read(&self, offset: usize) -> (value: Option<Self::Element>)
        ensures
            value == if offset < self.contents().len() {
                Some(self.contents()[offset as int])
            } else {
                None
            },
    ;

    /// Whether the array accepts writes.
    fn is_writable(&self) -> (writable: bool)
        ensures
            writable == self.writable(),
    ;

    /// Stores `value` at `offset`, if the array accepts writes and has an
    /// element there, and says whether it did. Nothing else changes.
    fn write(&mut self, offset: usize, value: Self::Element) -> (done: bool)
        ensures
            final(self).extents() == old(self).extents(),
            final(self).writable() == old(self).writable(),
            done == (old(self).writable() && offset < old(self).contents().len()),
            final(self).contents() == if done {
                old(self).contents().update(offset as int, value)
            } else {
                old(self).contents()
            },
    ;
}

/// The number of elements of an array with these extents: their product.
pub open spec fn volume(extents: Seq<usize>) -> nat
    decreases extents.len(),
{
    if extents.len() == 0 {
        1
    } else {
        volume(extents.drop_last()) * extents.last() as nat
    }
}

/// An array with a shape and no element. It accepts no write.
#[derive(Debug)]
pub struct EmptyArray {
    shape: Vec<usize>,
}

impl EmptyArray {
    /// An array of this shape without elements.
    pub fn new(shape: Vec<usize>) -> (array: EmptyArray)
        ensures
            array.extents() == shape@,
            array.contents().len() == 0,
            !array.writable(),
    {
        EmptyArray { shape }
    }
}

impl Array for EmptyArray {
    type Element = u8;

    closed spec fn extents(&self) -> Seq<usize> {
        self.shape@
    }

    closed spec fn contents(&self) -> Seq<u8> {
        Seq::empty()
    }

    closed spec fn writable(&self) -> bool {
        false
    }

    fn shape(&self) -> (shape: &[usize]) {
        self.shape.as_slice()
    }

    fn len(&self) -> (len: usize) {
        0
    }

    fn read(&self, offset: usize) -> (value: Option<u8>) {
        None
    }

    fn is_writable(&self) -> (writable: bool) {
        false
    }

    fn write(&mut self, offset: usize, value: u8) -> (done: bool) {
        false
    }
}

/// If no extent is zero, the volume of a prefix is at least one and at most
/// the volume of the whole.
proof fn lemma_volume_grows(extents: Seq<usize>, n: int)
    requires
        0 <= n <= extents.len(),
        forall|i: int| 0 <= i < extents.len() ==> extents[i] > 0,
    ensures
        1 <= volume(extents.take(n)) <= volume(extents),
    decreases extents.len() - n,
{
    if n == extents.len() {
        assert(extents.take(n) =~= extents);
        lemma_volume_positive(extents);
    } else {
        lemma_volume_grows(extents, n + 1);
        assert(extents.take(n + 1).drop_last() =~= extents.take(n));
        lemma_volume_positive(extents.take(n));
        let v = volume(extents.take(n));
        let e = extents[n] as nat;
        assert(v <= v * e) by (nonlinear_arith)
            requires
                e >= 1,
        ;
    }
}

/// If no extent is zero, the volume is at least one.
proof fn lemma_volume_positive(extents: Seq<usize>)
    requires
        forall|i: int| 0 <= i < extents.len() ==> extents[i] > 0,
    ensures
        volume(extents) >= 1,
    decreases extents.len(),
{
    if extents.len() > 0 {
        lemma_volume_positive(extents.drop_last());
        let v = volume(extents.drop_last());
        let e = extents.last() as nat;
        assert(v * e >= 1) by (nonlinear_arith)
            requires
                v >= 1,
                e >= 1,
        ;
    }
}

/// If one extent is zero, the volume is zero.
proof fn lemma_volume_zero(extents: Seq<usize>, at: int)
    requires
        0 <= at < extents.len(),
        extents[at] == 0,
    ensures
        volume(extents) == 0,
    decreases extents.len(),
{
    if at < extents.len() - 1 {
        lemma_volume_zero(extents.drop_last(), at);
        let e = extents.last() as nat;
        assert(0 * e == 0) by (nonlinear_arith);
    } else {
        let v = volume(extents.drop_last());
        assert(v * 0 == 0) by (nonlinear_arith);
    }
}

/// The number of elements of an array with this shape, or `None` if that
/// number does not fit the machine.
pub fn checked_volume(shape: &[usize]) -> (r: Option<usize>)
    ensures
        match r {
            Some(v) => v == volume(shape@),
            None => volume(shape@) > usize::MAX,
        },
{
    let mut i: usize = 0;
    while i < shape.len()
        invariant
            i <= shape@.len(),
            forall|k: int| 0 <= k < i ==> shape@[k] > 0,
        decreases shape@.len() - i,
    {
        if shape[i] == 0 {
            proof {
                lemma_volume_zero(shape@, i as int);
            }
            return Some(0);
        }
        i += 1;
    }
    let mut product: usize = 1;
    let mut i: usize = 0;
    while i < shape.len()
        invariant
            i <= shape@.len(),
            forall|k: int| 0 <= k < shape@.len() ==> shape@[k] > 0,
            product == volume(shape@.take(i as int)),
        decreases shape@.len() - i,
    {
        proof {
            assert(shape@.take(i + 1).drop_last() =~= shape@.take(i as int));
            lemma_volume_grows(shape@, i + 1);
        }
        match product.checked_mul(shape[i]) {
            Some(next) => {
                product = next;
            },
            None => {
                return None;
            },
        }
        i += 1;
    }
    proof {
        assert(shape@.take(shape@.len() as int) =~= shape@);
    }
    Some(product)
}

/// An array that keeps its elements in memory, one after the other. It
/// accepts writes.
#[derive(Debug)]
pub struct DenseArray<T: Copy> {
    shape: Vec<usize>,
    values: Vec<T>,
}

impl<T: Copy> DenseArray<T> {
    /// An array of this shape over these elements, if there are as many
    /// elements as the shape asks for.
    pub fn new(shape: Vec<usize>, values: Vec<T>) -> (r: Option<DenseArray<T>>)
        ensures
            match r {
                Some(array) => {
                    &&& values@.len() == volume(shape@)
                    &&& array.extents() == shape@
                    &&& array.contents() == values@
                    &&& array.writable()
                },
                None => values@.len() != volume(shape@),
            },
    {
        let count = values.len();
        match checked_volume(shape.as_slice()) {
            Some(v) => {
                if v == count {
                    Some(DenseArray { shape, values })
                } else {
                    None
                }
            },
            None => None,
        }
    }
}

impl<T: Copy> Array for DenseArray<T> {
    type Element = T;

    closed spec fn extents(&self) -> Seq<usize> {
        self.shape@
    }

    closed spec fn contents(&self) -> Seq<T> {
        self.values@
    }

    closed spec fn writable(&self) -> bool {
        true
    }

    fn shape(&self) -> (shape: &[usize]) {
        self.shape.as_slice()
    }

    fn len(&self) -> (len: usize) {
        self.values.len()
    }

    fn read(&self, offset: usize) -> (value: Option<T>) {
        if offset < self.values.len() {
            Some(self.values[offset])
        } else {
            None
        }
    }

    fn is_writable(&self) -> (writable: bool) {
        true
    }

    fn write(&mut self, offset: usize, value: T) -> (done: bool) {
        if offset < self.values.len() {
            self.values[offset] = value;
            true
        } else {
            false
        }
    }
}

/// The views that are outstanding on the values of one block: a number of
/// shared views, or one exclusive view.
pub ghost struct AccessView {
    pub shared: nat,
    pub exclusive: bool,
}

impl AccessView {
    /// No view is outstanding.
    pub open spec fn idle() -> AccessView {
        AccessView { shared: 0, exclusive: false }
    }

    /// An exclusive view stands alone, and the shared views can be counted.
    pub open spec fn valid(self) -> bool {
        &&& self.exclusive ==> self.shared == 0
        &&& self.shared <= usize::MAX
    }

    /// Asking for a shared view: granted unless an exclusive view is
    /// outstanding or no further view can be counted.
    pub open spec fn share(self) -> Result<AccessView, Error> {
        if self.exclusive || self.shared >= usize::MAX {
            Err(Error::BorrowConflict)
        } else {
            Ok(AccessView { shared: self.shared + 1, exclusive: false })
        }
    }

    /// Asking for the exclusive view: granted if no view is outstanding.
    pub open spec fn lock(self) -> Result<AccessView, Error> {
        if self.exclusive || self.shared > 0 {
            Err(Error::BorrowConflict)
        } else {
            Ok(AccessView { shared: 0, exclusive: true })
        }
    }

    /// Giving back a shared view: fails if none is outstanding.
    pub open spec fn unshare(self) -> Result<AccessView, Error> {
        if self.shared == 0 {
            Err(Error::BorrowConflict)
        } else {
            Ok(AccessView { shared: (self.shared - 1) as nat, exclusive: self.exclusive })
        }
    }

    /// Giving back the exclusive view: fails if it is not outstanding.
    pub open spec fn unlock(self) -> Result<AccessView, Error> {
        if !self.exclusive {
            Err(Error::BorrowConflict)
        } else {
            Ok(AccessView { shared: self.shared, exclusive: false })
        }
    }
}

/// A shared view on the values of a block, handed out by the block and given
/// back to it.
///
/// The view holds no reference to the block. The block counts the shared
/// views that it has handed out, and reads through a view only while one of
/// them is outstanding.
#[derive(Debug)]
pub struct ArrayRef {
    seal: (),
}

/// The exclusive view on the values of a block, handed out by the block and
/// given back to it.
///
/// The view holds no reference to the block. The block remembers whether its
/// exclusive view is outstanding, and writes through a view only while it
/// is.
#[derive(Debug)]
pub struct ArrayRefMut {
    seal: (),
}

/// Counts the views that are outstanding on the values of one block.
#[derive(Debug)]
pub struct Access {
    shared: usize,
    exclusive: bool,
}

impl View for Access {
    type V = AccessView;

    closed spec fn view(&self) -> AccessView {
        AccessView { shared: self.shared as nat, exclusive: self.exclusive }
    }
}

/// The new state or the error of a step, where the step changed the state
/// only if it succeeded.
pub open spec fn stepped<T>(
    before: AccessView,
    after: AccessView,
    r: Result<T, Error>,
    step: Result<AccessView, Error>,
) -> bool {
    match r {
        Ok(_) => step == Ok::<AccessView, Error>(after),
        Err(e) => step == Err::<AccessView, Error>(e) && after == before,
    }
}

impl Access {
    /// No view is outstanding.
    pub fn new() -> (access: Access)
        ensures
            access@ == AccessView::idle(),
    {
        Access { shared: 0, exclusive: false }
    }

    /// Hands out a shared view, unless the exclusive view is outstanding.
    pub fn share(&mut self) -> (r: Result<ArrayRef, Error>)
        requires
            old(self)@.valid(),
        ensures
            final(self)@.valid(),
            stepped(old(self)@, final(self)@, r, old(self)@.share()),
    {
        if self.exclusive || self.shared == usize::MAX {
            Err(Error::BorrowConflict)
        } else {
            self.shared = self.shared + 1;
            Ok(ArrayRef { seal: () })
        }
    }

    /// Hands out the exclusive view, unless some view is outstanding.
    pub fn lock(&mut self) -> (r: Result<ArrayRefMut, Error>)
        requires
            old(self)@.valid(),
        ensures
            final(self)@.valid(),
            stepped(old(self)@, final(self)@, r, old(self)@.lock()),
    {
        if self.exclusive || self.shared > 0 {
            Err(Error::BorrowConflict)
        } else {
            self.exclusive = true;
            Ok(ArrayRefMut { seal: () })
        }
    }

    /// Takes back a shared view.
    pub fn unshare(&mut self, view: ArrayRef) -> (r: Result<(), Error>)
        requires
            old(self)@.valid(),
        ensures
            final(self)@.valid(),
            stepped(old(self)@, final(self)@, r, old(self)@.unshare()),
    {
        if self.shared == 0 {
            Err(Error::BorrowConflict)
        } else {
            self.shared = self.shared - 1;
            Ok(())
        }
    }

    /// Takes back the exclusive view.
    pub fn unlock(&mut self, view: ArrayRefMut) -> (r: Result<(), Error>)
        requires
            old(self)@.valid(),
        ensures
            final(self)@.valid(),
            stepped(old(self)@, final(self)@, r, old(self)@.unlock()),
    {
        if !self.exclusive {
            Err(Error::BorrowConflict)
        } else {
            self.exclusive = false;
            Ok(())
        }
    }

    /// Whether a shared view is outstanding.
    pub fn is_shared(&self) -> (shared: bool)
        ensures
            shared == (self@.shared > 0),
    {
        self.shared > 0
    }

    /// Whether the exclusive view is outstanding.
    pub fn is_exclusive(&self) -> (exclusive: bool)
        ensures
            exclusive == self@.exclusive,
    {
        self.exclusive
    }
}

/// While a shared view is outstanding the exclusive view is refused; once
/// the only shared view has been given back it is granted.
pub proof fn lemma_exclusive_waits_for_shared(state: AccessView)
    requires
        state.valid(),
        state.shared > 0,
    ensures
        state.lock() == Err::<AccessView, Error>(Error::BorrowConflict),
        state.unshare() is Ok,
        state.shared == 1 ==> state.unshare().unwrap().lock() is Ok,
        state.shared > 1 ==> state.unshare().unwrap().lock() == Err::<AccessView, Error>(
            Error::BorrowConflict,
        ),
{
}

/// While the exclusive view is outstanding every other view is refused; once
/// it has been given back both kinds are granted.
pub proof fn lemma_exclusive_stands_alone(state: AccessView)
    requires
        state.valid(),
        state.exclusive,
    ensures
        state.share() == Err::<AccessView, Error>(Error::BorrowConflict),
        state.lock() == Err::<AccessView, Error>(Error::BorrowConflict),
        state.unlock() == Ok::<AccessView, Error>(AccessView::idle()),
        AccessView::idle().share() is Ok,
        AccessView::idle().lock() is Ok,
{
}

/// Every step from a valid state that succeeds leads to a valid state.
pub proof fn lemma_steps_keep_valid(state: AccessView)
    requires
        state.valid(),
    ensures
        state.share() matches Ok(next) ==> next.valid(),
        state.lock() matches Ok(next) ==> next.valid(),
        state.unshare() matches Ok(next) ==> next.valid(),
        state.unlock() matches Ok(next) ==> next.valid(),
{
}

} // verus!
