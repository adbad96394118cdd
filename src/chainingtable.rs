use vstd::prelude::*;
use core::marker::PhantomData;
use crate::capacity::{fits_units, separate_chaining_buckets};
use crate::hashing::Hasher;
use crate::table::{ConfigurationError, HashTable, Key, ELEMENT_COUNT};

verus! {

/// Simple singly-linked list, kept small rather than fast.
pub enum LinkedList<T> {
    Cons(T, Box<LinkedList<T>>),
    Nil,
}

impl<T> LinkedList<T> {
    /// The elements of the list, front first.
    pub open spec fn elems(&self) -> Seq<T>
        decreases self,
    {
        match self {
            LinkedList::Cons(x, rest) => seq![*x] + rest.elems(),
            LinkedList::Nil => Seq::empty(),
        }
    }
}

impl<T> View for LinkedList<T> {
    type V = Seq<T>;

    open spec fn view(&self) -> Seq<T> {
        self.elems()
    }
}

/// The collisions met when scanning `s` front first for `k`: the elements
/// before `k`, or all of them if `k` is not there.
pub open spec fn scan_cost<T>(s: Seq<T>, k: T) -> nat
    decreases s.len(),
{
    if s.len() == 0 {
        0
    } else if s[0] == k {
        0
    } else {
        1 + scan_cost(s.drop_first(), k)
    }
}

proof fn lemma_cons_contains<T>(x: T, rest: Seq<T>, k: T)
    ensures
        (seq![x] + rest).contains(k) == (x == k || rest.contains(k)),
        (seq![x] + rest).drop_first() == rest,
        (seq![x] + rest)[0] == x,
{
    let s = seq![x] + rest;
    assert(s.drop_first() =~= rest);
    if rest.contains(k) {
        let j = choose|j: int| 0 <= j < rest.len() && rest[j] == k;
        assert(s[j + 1] == k);
    }
    if s.contains(k) {
        let j = choose|j: int| 0 <= j < s.len() && s[j] == k;
        if j > 0 {
            assert(rest[j - 1] == k);
        }
    }
}

impl<T: Key> LinkedList<T> {
    /// Checks if an element is contained in the list.
    pub fn contains(&self, searched: &T) -> (r: bool)
        ensures
            r == self@.contains(*searched),
        decreases self,
    {
        match self {
            LinkedList::Cons(val, other) => {
                proof {
                    lemma_cons_contains(*val, other@, *searched);
                }
                val.same_key(searched) || other.contains(searched)
            },
            LinkedList::Nil => false,
        }
    }

    /// Appends the value as a new node at the end of the list.
    pub fn push(&mut self, val: T)
        ensures
            final(self)@ == old(self)@.push(val),
        decreases old(self)@.len(),
    {
        match self {
            LinkedList::Cons(x, other) => {
                other.push(val);
                assert(self@ =~= old(self)@.push(val));
            },
            LinkedList::Nil => {
                *self = LinkedList::Cons(val, Box::new(LinkedList::Nil));
                assert(self@ =~= old(self)@.push(val));
            },
        }
    }

    /// Scans the list for `searched`, adding one to `base` for every element
    /// before it.
    fn scan(&self, searched: &T, base: usize) -> (r: (bool, usize))
        requires
            base + scan_cost(self@, *searched) <= usize::MAX,
        ensures
            r.0 == self@.contains(*searched),
            r.1 == base + scan_cost(self@, *searched),
        decreases self,
    {
        match self {
            LinkedList::Cons(x, next) => {
                proof {
                    lemma_cons_contains(*x, next@, *searched);
                }
                if x.same_key(searched) {
                    (true, base)
                } else {
                    next.scan(searched, base + 1)
                }
            },
            LinkedList::Nil => (false, base),
        }
    }
}

/// Hash table with direct chaining.
///
/// Every bucket is a list of the keys that hash to it, so the table takes
/// any number of keys.
pub struct DirectChainingTable<T: Key, H: Hasher<T>> {
    collisions: usize,
    entries: Vec<Box<LinkedList<T>>>,
    hasher: PhantomData<H>,
}

impl<T: Key, H: Hasher<T>> DirectChainingTable<T, H> {
    /// The keys of each bucket, in list order.
    pub closed spec fn buckets(&self) -> Seq<Seq<T>> {
        Seq::new(self.entries@.len(), |i: int| self.entries@[i]@)
    }

    /// The bucket that `k` hashes to.
    pub open spec fn home(&self, k: T) -> int {
        H::spec_hash(k, self.buckets().len() as usize)
    }

    /// The table's internal invariant.
    pub closed spec fn inv(&self) -> bool {
        &&& self.entries@.len() > 0
        &&& forall|b: int, j: int|
            0 <= b < self.entries@.len() && 0 <= j < self.entries@[b]@.len() ==> H::spec_hash(
                #[trigger] self.entries@[b]@[j],
                self.entries.len(),
            ) == b
        &&& forall|b: int| 0 <= b < self.entries@.len() ==> #[trigger] self.entries@[b]@.no_duplicates()
    }

    /// A lookup meets at most one collision per key of its bucket.
    pub proof fn lemma_probe_cost_bound(&self, k: T)
        ensures
            self.probe_cost(k) <= self.buckets()[self.home(k)].len(),
    {
        lemma_scan_cost_bound(self.buckets()[self.home(k)], k);
    }

    /// An empty table of `size` buckets.
    pub fn with_size(size: usize) -> (r: Self)
        requires
            size > 0,
        ensures
            r.wf(),
            r.buckets() == Seq::new(size as nat, |i: int| Seq::<T>::empty()),
            r.contents() == Set::<T>::empty(),
            r.collision_count() == 0,
    {
        let mut entries: Vec<Box<LinkedList<T>>> = Vec::with_capacity(size);
        let mut i: usize = 0;
        while i < size
            invariant
                i <= size,
                entries@.len() == i,
                forall|j: int| 0 <= j < i ==> #[trigger] entries@[j]@ == Seq::<T>::empty(),
            decreases size - i,
        {
            entries.push(Box::new(LinkedList::Nil));
            i = i + 1;
        }
        let r = Self { collisions: 0, entries, hasher: PhantomData };
        assert(r.buckets() =~= Seq::new(size as nat, |i: int| Seq::<T>::empty()));
        assert forall|k: T| !r.contents().contains(k) by {
            H::lemma_hash_range(k, size);
        }
        assert(r.contents() =~= Set::<T>::empty());
        r
    }
}

impl<T: Key, H: Hasher<T>> Default for DirectChainingTable<T, H> {
    /// An empty table of the default size.
    fn default() -> (r: Self)
        ensures
            r.wf(),
            r.contents() == Set::<T>::empty(),
            r.collision_count() == 0,
    {
        Self::with_size(ELEMENT_COUNT)
    }
}

impl<T: Key, H: Hasher<T>> HashTable<T> for DirectChainingTable<T, H> {
    closed spec fn wf(&self) -> bool {
        self.inv()
    }

    open spec fn contents(&self) -> Set<T> {
        Set::new(|k: T| self.buckets()[self.home(k)].contains(k))
    }

    closed spec fn collision_count(&self) -> nat {
        self.collisions as nat
    }

    open spec fn probe_cost(&self, val: T) -> nat {
        scan_cost(self.buckets()[self.home(val)], val)
    }

    /// Inserting never counts collisions.
    open spec fn insert_cost(&self, val: T) -> nat {
        0
    }

    open spec fn stores_on_insert(&self, val: T) -> bool {
        true
    }

    open spec fn fits_budget(bytes: usize, elements: usize) -> bool {
        let bucket = vstd::layout::size_of::<Box<LinkedList<T>>>() as int;
        let node = vstd::layout::size_of::<LinkedList<T>>() as int;
        bucket > 0 && node * elements + bucket <= bytes
    }

    fn empty() -> (r: Self) {
        Self::with_size(ELEMENT_COUNT)
    }

    fn has(&mut self, val: &T) -> (r: bool)
        ensures
            r == old(self).contents().contains(*val),
            final(self).buckets() == old(self).buckets(),
    {
        let index = H::hash(val, self.entries.len());
        let (found, total) = self.entries[index].scan(val, self.collisions);
        self.collisions = total;
        assert(self.contents() =~= old(self).contents());
        assert(self.buckets() =~= old(self).buckets());
        found
    }

    fn reset_collisions(&mut self)
        ensures
            final(self).buckets() == old(self).buckets(),
    {
        self.collisions = 0;
        assert(self.contents() =~= old(self).contents());
    }

    fn get_collisions(&self) -> (r: usize) {
        self.collisions
    }

    /// Never fails: a bucket's list grows without bound.
    fn insert(&mut self, val: &T) -> (r: bool)
        ensures
            r,
            old(self).contents().contains(*val) ==> *final(self) == *old(self),
            !old(self).contents().contains(*val) ==> final(self).buckets() == old(
                self,
            ).buckets().update(
                old(self).home(*val),
                old(self).buckets()[old(self).home(*val)].push(*val),
            ),
    {
        let index = H::hash(val, self.entries.len());
        if !self.entries[index].contains(val) {
            let ghost pre = *self;
            let mut bucket = Box::new(LinkedList::Nil);
            self.entries.set_and_swap(index, &mut bucket);
            bucket.push(*val);
            self.entries.set_and_swap(index, &mut bucket);
            proof {
                let n = self.entries.len();
                assert(self.entries@[index as int]@ == pre.entries@[index as int]@.push(*val));
                assert(self.buckets() =~= pre.buckets().update(
                    index as int,
                    pre.buckets()[index as int].push(*val),
                ));
                assert forall|b: int, j: int|
                    0 <= b < n && 0 <= j < self.entries@[b]@.len() implies H::spec_hash(
                    #[trigger] self.entries@[b]@[j],
                    n,
                ) == b by {
                    if b != index {
                        assert(self.entries@[b] == pre.entries@[b]);
                    } else if j < pre.entries@[b]@.len() {
                        assert(self.entries@[b]@[j] == pre.entries@[b]@[j]);
                    }
                }
                assert forall|b: int| 0 <= b < n implies #[trigger] self.entries@[b]@.no_duplicates() by {
                    if b != index {
                        assert(self.entries@[b] == pre.entries@[b]);
                    } else {
                        assert(pre.entries@[b]@.no_duplicates());
                    }
                }
                assert(self.contents() =~= pre.contents().insert(*val)) by {
                    assert forall|k: T| #[trigger] self.contents().contains(k) == pre.contents().insert(*val).contains(k) by {
                        let h = H::spec_hash(k, n);
                        H::lemma_hash_range(k, n);
                        if h != index {
                            assert(self.entries@[h] == pre.entries@[h]);
                        } else {
                            lemma_push_contains(pre.entries@[h]@, *val, k);
                        }
                    }
                }
            }
        }
        true
    }

    /// Sizes the table to the number of buckets that the bytes left after
    /// one list node per element pay for.
    fn resize_to_bytes(&mut self, bytes: usize, elements: usize) -> (r: Result<(), ConfigurationError>)
        ensures
            r is Err ==> r == Err::<(), _>(ConfigurationError::BudgetTooSmall),
            r is Ok ==> final(self).contents() == Set::<T>::empty() && final(self).collision_count()
                == 0,
            r is Ok ==> final(self).buckets().len() == (bytes - vstd::layout::size_of::<
                LinkedList<T>,
            >() * elements) / vstd::layout::size_of::<Box<LinkedList<T>>>() as int,
    {
        let node = core::mem::size_of::<LinkedList<T>>();
        let bucket = core::mem::size_of::<Box<LinkedList<T>>>();
        if bucket == 0 {
            return Err(ConfigurationError::BudgetTooSmall);
        }
        let used = match node.checked_mul(elements) {
            Some(used) => used,
            None => {
                return Err(ConfigurationError::BudgetTooSmall);
            },
        };
        if used > bytes || bytes - used < bucket {
            return Err(ConfigurationError::BudgetTooSmall);
        }
        proof {
            let free = (bytes - used) as int;
            assert(free / (bucket as int) >= 1) by (nonlinear_arith)
                requires free >= bucket, bucket > 0;
        }
        *self = Self::with_size((bytes - used) / bucket);
        Ok(())
    }
}

/// One bucket of a separate-chaining table: a key stored in place, and a list
/// for the keys that collide with it.
pub type Bucket<T> = (Option<T>, Box<LinkedList<T>>);

/// The keys of a separate-chaining bucket: the key in place, then the list.
pub open spec fn bucket_keys<T>(b: Bucket<T>) -> Seq<T> {
    match b.0 {
        Some(x) => seq![x] + b.1@,
        None => b.1@,
    }
}

/// Hash table with separate chaining.
///
/// Every bucket stores one key in place and a list for the keys that collide
/// with it, which saves a list node where a bucket has no collision. The
/// table takes any number of keys.
pub struct SeparateChainingTable<T: Key, H: Hasher<T>> {
    collisions: usize,
    entries: Vec<Bucket<T>>,
    hasher: PhantomData<H>,
}

impl<T: Key, H: Hasher<T>> SeparateChainingTable<T, H> {
    /// The keys of each bucket, the key in place first.
    pub closed spec fn buckets(&self) -> Seq<Seq<T>> {
        Seq::new(self.entries@.len(), |i: int| bucket_keys(self.entries@[i]))
    }

    /// The bucket that `k` hashes to.
    pub open spec fn home(&self, k: T) -> int {
        H::spec_hash(k, self.buckets().len() as usize)
    }

    /// The table's internal invariant.
    pub closed spec fn inv(&self) -> bool {
        &&& self.entries@.len() > 0
        &&& forall|b: int, j: int|
            0 <= b < self.entries@.len() && 0 <= j < bucket_keys(self.entries@[b]).len()
                ==> H::spec_hash(
                #[trigger] bucket_keys(self.entries@[b])[j],
                self.entries.len(),
            ) == b
        &&& forall|b: int|
            0 <= b < self.entries@.len() ==> #[trigger] bucket_keys(
                self.entries@[b],
            ).no_duplicates()
        &&& forall|b: int|
            0 <= b < self.entries@.len() && #[trigger] self.entries@[b].0 is None
                ==> self.entries@[b].1@.len() == 0
    }

    /// A lookup meets at most one collision per key of its bucket.
    pub proof fn lemma_probe_cost_bound(&self, k: T)
        ensures
            self.probe_cost(k) <= self.buckets()[self.home(k)].len(),
    {
        lemma_scan_cost_bound(self.buckets()[self.home(k)], k);
    }

    /// An empty table of `size` buckets.
    pub fn with_size(size: usize) -> (r: Self)
        requires
            size > 0,
        ensures
            r.wf(),
            r.buckets() == Seq::new(size as nat, |i: int| Seq::<T>::empty()),
            r.contents() == Set::<T>::empty(),
            r.collision_count() == 0,
    {
        let mut entries: Vec<Bucket<T>> = Vec::with_capacity(size);
        let mut i: usize = 0;
        while i < size
            invariant
                i <= size,
                entries@.len() == i,
                forall|j: int| 0 <= j < i ==> (#[trigger] entries@[j]).0 is None,
                forall|j: int| 0 <= j < i ==> (#[trigger] entries@[j]).1@ == Seq::<T>::empty(),
            decreases size - i,
        {
            entries.push((None, Box::new(LinkedList::Nil)));
            i = i + 1;
        }
        let r = Self { collisions: 0, entries, hasher: PhantomData };
        assert(r.buckets() =~= Seq::new(size as nat, |i: int| Seq::<T>::empty()));
        assert forall|k: T| !r.contents().contains(k) by {
            H::lemma_hash_range(k, size);
        }
        assert(r.contents() =~= Set::<T>::empty());
        r
    }

    /// The table after bucket `index` was set to `b`, which holds the keys
    /// of the old bucket and `val`.
    proof fn lemma_bucket_grown(pre: Self, post: Self, index: int, val: T)
        requires
            pre.inv(),
            0 <= index < pre.entries@.len(),
            H::spec_hash(val, pre.entries.len()) == index,
            !bucket_keys(pre.entries@[index]).contains(val),
            post.entries@ == pre.entries@.update(index, post.entries@[index]),
            bucket_keys(post.entries@[index]) == bucket_keys(pre.entries@[index]).push(val),
            post.entries@[index].0 is Some,
        ensures
            post.inv(),
            post.contents() == pre.contents().insert(val),
    {
        let n = post.entries.len();
        let old_keys = bucket_keys(pre.entries@[index]);
        assert forall|b: int, j: int|
            0 <= b < n && 0 <= j < bucket_keys(post.entries@[b]).len() implies H::spec_hash(
            #[trigger] bucket_keys(post.entries@[b])[j],
            n,
        ) == b by {
            if b != index {
                assert(post.entries@[b] == pre.entries@[b]);
            } else if j < old_keys.len() {
                assert(bucket_keys(post.entries@[b])[j] == old_keys[j]);
            }
        }
        assert forall|b: int| 0 <= b < n implies #[trigger] bucket_keys(
            post.entries@[b],
        ).no_duplicates() by {
            if b != index {
                assert(post.entries@[b] == pre.entries@[b]);
            } else {
                assert(old_keys.no_duplicates());
            }
        }
        assert forall|b: int|
            0 <= b < n && #[trigger] post.entries@[b].0 is None implies post.entries@[b].1@.len()
            == 0 by {
            assert(post.entries@[b] == pre.entries@[b]);
        }
        assert(post.contents() =~= pre.contents().insert(val)) by {
            assert forall|k: T| #[trigger]
                post.contents().contains(k) == pre.contents().insert(val).contains(k) by {
                let h = H::spec_hash(k, n);
                H::lemma_hash_range(k, n);
                if h != index {
                    assert(post.entries@[h] == pre.entries@[h]);
                } else {
                    lemma_push_contains(old_keys, val, k);
                }
            }
        }
    }
}

impl<T: Key, H: Hasher<T>> Default for SeparateChainingTable<T, H> {
    /// An empty table of the default size.
    fn default() -> (r: Self)
        ensures
            r.wf(),
            r.contents() == Set::<T>::empty(),
            r.collision_count() == 0,
    {
        Self::with_size(ELEMENT_COUNT)
    }
}

impl<T: Key, H: Hasher<T>> HashTable<T> for SeparateChainingTable<T, H> {
    closed spec fn wf(&self) -> bool {
        self.inv()
    }

    open spec fn contents(&self) -> Set<T> {
        Set::new(|k: T| self.buckets()[self.home(k)].contains(k))
    }

    closed spec fn collision_count(&self) -> nat {
        self.collisions as nat
    }

    open spec fn probe_cost(&self, val: T) -> nat {
        scan_cost(self.buckets()[self.home(val)], val)
    }

    /// Inserting never counts collisions.
    open spec fn insert_cost(&self, val: T) -> nat {
        0
    }

    open spec fn stores_on_insert(&self, val: T) -> bool {
        true
    }

    open spec fn fits_budget(bytes: usize, elements: usize) -> bool {
        let unit = vstd::layout::size_of::<Bucket<T>>() as int;
        unit > 0 && bytes as int / unit >= 1 && fits_units(1, elements as nat, (bytes as int / unit) as nat)
    }

    fn empty() -> (r: Self) {
        Self::with_size(ELEMENT_COUNT)
    }

    fn has(&mut self, val: &T) -> (r: bool)
        ensures
            r == old(self).contents().contains(*val),
            final(self).buckets() == old(self).buckets(),
    {
        let index = H::hash(val, self.entries.len());
        let mut base = self.collisions;
        if let Some(x) = self.entries[index].0 {
            proof {
                lemma_cons_contains(x, self.entries@[index as int].1@, *val);
            }
            if x.same_key(val) {
                return true;
            }
            base = base + 1;
        }
        let (found, total) = self.entries[index].1.scan(val, base);
        self.collisions = total;
        assert(self.contents() =~= old(self).contents());
        assert(self.buckets() =~= old(self).buckets());
        found
    }

    fn reset_collisions(&mut self)
        ensures
            final(self).buckets() == old(self).buckets(),
    {
        self.collisions = 0;
        assert(self.contents() =~= old(self).contents());
    }

    fn get_collisions(&self) -> (r: usize) {
        self.collisions
    }

    /// Never fails: the key goes in place if the bucket is free, else to the
    /// end of the bucket's list.
    fn insert(&mut self, val: &T) -> (r: bool)
        ensures
            r,
            old(self).contents().contains(*val) ==> *final(self) == *old(self),
            !old(self).contents().contains(*val) ==> final(self).buckets() == old(
                self,
            ).buckets().update(
                old(self).home(*val),
                old(self).buckets()[old(self).home(*val)].push(*val),
            ),
    {
        let index = H::hash(val, self.entries.len());
        let ghost pre = *self;
        proof {
            H::lemma_hash_range(*val, self.entries.len());
        }
        if self.entries[index].0.is_none() {
            self.entries.set(index, (Some(*val), Box::new(LinkedList::Nil)));
            proof {
                assert(bucket_keys(self.entries@[index as int]) =~= bucket_keys(
                    pre.entries@[index as int],
                ).push(*val));
                Self::lemma_bucket_grown(pre, *self, index as int, *val);
                assert(self.buckets() =~= pre.buckets().update(
                    index as int,
                    pre.buckets()[index as int].push(*val),
                ));
            }
            return true;
        }
        let x = self.entries[index].0.unwrap();
        proof {
            lemma_cons_contains(x, self.entries@[index as int].1@, *val);
        }
        if x.same_key(val) {
            return true;
        }
        if self.entries[index].1.contains(val) {
            return true;
        }
        let mut bucket: Bucket<T> = (None, Box::new(LinkedList::Nil));
        self.entries.set_and_swap(index, &mut bucket);
        bucket.1.push(*val);
        self.entries.set_and_swap(index, &mut bucket);
        proof {
            assert(self.entries@ =~= pre.entries@.update(index as int, self.entries@[index as int]));
            assert(bucket_keys(self.entries@[index as int]) =~= bucket_keys(
                pre.entries@[index as int],
            ).push(*val));
            Self::lemma_bucket_grown(pre, *self, index as int, *val);
            assert(self.buckets() =~= pre.buckets().update(
                index as int,
                pre.buckets()[index as int].push(*val),
            ));
        }
        true
    }

    /// Sizes the table to the largest number of buckets, to one bucket, whose
    /// keys and expected empty buckets fit in the budget, one bucket's size
    /// each.
    fn resize_to_bytes(&mut self, bytes: usize, elements: usize) -> (r: Result<(), ConfigurationError>)
        ensures
            r is Err ==> r == Err::<(), _>(ConfigurationError::BudgetTooSmall),
            r is Ok ==> final(self).contents() == Set::<T>::empty() && final(self).collision_count()
                == 0,
            r is Ok ==> {
                let units = (bytes as int / vstd::layout::size_of::<Bucket<T>>() as int) as nat;
                let b = final(self).buckets().len();
                &&& 1 <= b <= units
                &&& fits_units(b, elements as nat, units)
                &&& b == units || !fits_units(b + 1, elements as nat, units)
            },
    {
        let unit = core::mem::size_of::<Bucket<T>>();
        if unit == 0 {
            return Err(ConfigurationError::BudgetTooSmall);
        }
        match separate_chaining_buckets(bytes / unit, elements) {
            Some(buckets) => {
                *self = Self::with_size(buckets);
                Ok(())
            },
            None => Err(ConfigurationError::BudgetTooSmall),
        }
    }
}

/// Scanning a list meets at most as many collisions as it has elements.
pub proof fn lemma_scan_cost_bound<T>(s: Seq<T>, k: T)
    ensures
        scan_cost(s, k) <= s.len(),
    decreases s.len(),
{
    if s.len() > 0 {
        lemma_scan_cost_bound(s.drop_first(), k);
    }
}

proof fn lemma_push_contains<T>(s: Seq<T>, v: T, k: T)
    ensures
        s.push(v).contains(k) == (s.contains(k) || v == k),
{
    if s.contains(k) {
        let j = choose|j: int| 0 <= j < s.len() && s[j] == k;
        assert(s.push(v)[j] == k);
    }
    if v == k {
        assert(s.push(v)[s.len() as int] == k);
    }
    if s.push(v).contains(k) {
        let j = choose|j: int| 0 <= j < s.push(v).len() && s.push(v)[j] == k;
        if j < s.len() {
            assert(s[j] == k);
        }
    }
}

} // verus!
