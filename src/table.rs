use vstd::prelude::*;
use core::marker::PhantomData;

verus! {

/// Number of buckets of an open-addressing table, and the default number of
/// buckets of every other table.
pub const ELEMENT_COUNT: usize = 0x8000;

/// A key that a table can store: a copyable value with an equality test.
pub trait Key: Copy {
    /// Whether the two keys are equal.
    fn same_key(&self, other: &Self) -> (r: bool)
        ensures
            r == (*self == *other),
    ;
}

impl Key for u32 {
    fn same_key(&self, other: &u32) -> (r: bool) {
        *self == *other
    }
}

/// Why a table could not be sized to a byte budget.
#[derive(Debug, Clone, Copy, PartialEq, Eq, Structural)]
pub enum ConfigurationError {
    /// More elements were expected than the table can ever hold.
    TooManyElements,
    /// The budget differs from the fixed size of the table.
    SizeMismatch,
    /// The budget does not cover the expected elements and one bucket.
    BudgetTooSmall,
}

/// A set of keys, with a counter of the collisions met while looking keys up.
///
/// A table never deletes keys and never grows on its own. Every key is stored
/// at most once.
pub trait HashTable<T>: Sized {
    /// The table's internal invariant.
    spec fn wf(&self) -> bool;

    /// The keys in the table.
    spec fn contents(&self) -> Set<T>;

    /// The value of the collision counter.
    spec fn collision_count(&self) -> nat;

    /// The number of collisions that looking up `val` adds to the counter:
    /// the occupied buckets or list nodes that do not hold `val` and that the
    /// lookup visits.
    spec fn probe_cost(&self, val: T) -> nat;

    /// The number of collisions that inserting `val` adds to the counter.
    spec fn insert_cost(&self, val: T) -> nat;

    /// Whether `insert(val)` leaves `val` in the table.
    spec fn stores_on_insert(&self, val: T) -> bool;

    /// Whether a budget of `bytes` for `elements` keys can be met.
    spec fn fits_budget(bytes: usize, elements: usize) -> bool;

    /// An empty table of the default size.
    fn empty() -> (r: Self)
        ensures
            r.wf(),
            r.contents() == Set::<T>::empty(),
            r.collision_count() == 0,
    ;

    /// Checks if the element is in the set, counting every collision.
    fn has(&mut self, val: &T) -> (r: bool)
        requires
            old(self).wf(),
            old(self).collision_count() + old(self).probe_cost(*val) <= usize::MAX,
        ensures
            final(self).wf(),
            r == final(self).contents().contains(*val),
            old(self).contents().contains(*val) ==> r,
            old(self).contents().subset_of(final(self).contents()),
            final(self).collision_count() == old(self).collision_count() + old(self).probe_cost(
                *val,
            ),
    ;

    /// Resets the collision counter to zero.
    fn reset_collisions(&mut self)
        requires
            old(self).wf(),
        ensures
            final(self).wf(),
            final(self).contents() == old(self).contents(),
            final(self).collision_count() == 0,
    ;

    /// Returns the collision counter.
    fn get_collisions(&self) -> (r: usize)
        requires
            self.wf(),
        ensures
            r == self.collision_count(),
    ;

    /// Inserts the element; true if it is in the table now or was already.
    ///
    /// False only where the table has no room for it along its probe
    /// sequence.
    fn insert(&mut self, val: &T) -> (r: bool)
        requires
            old(self).wf(),
            old(self).insert_cost(*val) > 0 ==> old(self).collision_count() + old(
                self,
            ).insert_cost(*val) <= usize::MAX,
        ensures
            final(self).wf(),
            final(self).contents() == (if old(self).stores_on_insert(*val) {
                old(self).contents().insert(*val)
            } else {
                old(self).contents()
            }),
            old(self).contents().contains(*val) ==> old(self).stores_on_insert(*val) && r,
            old(self).stores_on_insert(*val) ==> r,
            final(self).collision_count() == old(self).collision_count() + old(self).insert_cost(
                *val,
            ),
    ;

    /// Sizes the table to a budget of `bytes` for about `elements` keys.
    ///
    /// Meant to be called once, before the first insert. On failure the
    /// table is left as it was.
    fn resize_to_bytes(&mut self, bytes: usize, elements: usize) -> (r: Result<(), ConfigurationError>)
        requires
            old(self).wf(),
        ensures
            final(self).wf(),
            r is Ok == Self::fits_budget(bytes, elements),
            r is Err ==> *final(self) == *old(self),
    ;
}

/// Makes fresh tables of one kind.
pub trait HashTableBuilder<T> {
    /// The kind of table built.
    type Table: HashTable<T>;

    /// Returns a new, empty table.
    fn build(&self) -> (r: Self::Table)
        ensures
            r.wf(),
            r.contents() == Set::<T>::empty(),
            r.collision_count() == 0,
    ;
}

/// Builds tables of type `H` in their default size.
pub struct DefaultHashTableBuilder<T, H: HashTable<T>> {
    table: PhantomData<H>,
    t: PhantomData<T>,
}

impl<T, H: HashTable<T>> DefaultHashTableBuilder<T, H> {
    /// A builder of tables of type `H`.
    pub fn new() -> Self {
        Self { table: PhantomData, t: PhantomData }
    }
}

impl<T, H: HashTable<T>> Default for DefaultHashTableBuilder<T, H> {
    fn default() -> Self {
        Self::new()
    }
}

impl<T, H: HashTable<T>> HashTableBuilder<T> for DefaultHashTableBuilder<T, H> {
    type Table = H;

    fn build(&self) -> (r: H) {
        H::empty()
    }
}

} // verus!
