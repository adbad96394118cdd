use vstd::prelude::*;
use core::marker::PhantomData;
use crate::hashing::Hasher;
use crate::openaddressing::{count_occupied, lemma_count_fill, lemma_count_full, lemma_count_replace};
use crate::table::{ConfigurationError, HashTable, Key, ELEMENT_COUNT};

verus! {

/// One bucket of a coalesced table: a key and the index of the next bucket of
/// its chain, if any.
pub type Slot<T> = Option<(T, Option<usize>)>;

/// Hash table with coalesced chaining.
///
/// Every bucket holds a key and an optional index of the next bucket of its
/// collision chain. Chains are threaded through spare buckets, which a cursor
/// moving only forward finds.
pub struct CoalescedTable<T: Key, H: Hasher<T>> {
    collisions: usize,
    entries: Vec<Slot<T>>,
    hasher: PhantomData<H>,
    cursor: usize,
    /// When each occupied bucket was filled; a chain only leads to younger
    /// buckets.
    stamp: Ghost<Seq<nat>>,
    /// Stamp of the next bucket to be filled.
    clock: Ghost<nat>,
    /// Pairs `(x, y)` of buckets such that the chain from `x` reaches `y`.
    reach: Ghost<Set<(int, int)>>,
}

impl<T: Key, H: Hasher<T>> CoalescedTable<T, H> {
    /// The buckets of the table.
    pub closed spec fn slots(&self) -> Seq<Slot<T>> {
        self.entries@
    }

    /// The home bucket of `k`.
    pub open spec fn home(&self, k: T) -> int {
        H::spec_hash(k, self.slots().len() as usize)
    }

    /// Whether bucket `i` holds a key.
    pub open spec fn occupied(&self, i: int) -> bool {
        0 <= i < self.slots().len() && self.slots()[i] is Some
    }

    /// The key in bucket `i`.
    pub open spec fn key_at(&self, i: int) -> T {
        (self.slots()[i]->0).0
    }

    /// The index of the bucket after `i` in its chain.
    pub open spec fn next_at(&self, i: int) -> Option<usize> {
        (self.slots()[i]->0).1
    }

    /// Whether some bucket is still free.
    pub open spec fn has_free_slot(&self) -> bool {
        exists|i: int| 0 <= i < self.slots().len() && #[trigger] self.slots()[i] is None
    }

    closed spec fn links_ok(&self) -> bool {
        forall|i: int|
            #![trigger self.entries@[i]]
            self.occupied(i) && self.next_at(i) is Some ==> {
                let j = self.next_at(i)->0 as int;
                &&& self.occupied(j)
                &&& self.stamp@[i] < self.stamp@[j]
            }
    }

    closed spec fn reach_ok(&self) -> bool {
        &&& forall|p: (int, int)| #[trigger]
            self.reach@.contains(p) ==> self.occupied(p.0) && self.occupied(p.1)
        &&& forall|p: (int, int)| #[trigger]
            self.reach@.contains(p) && p.0 != p.1 ==> self.next_at(p.0) is Some
                && self.reach@.contains((self.next_at(p.0)->0 as int, p.1))
        &&& forall|p: (int, int)| #[trigger]
            self.reach@.contains(p) && self.next_at(p.1) is Some ==> self.reach@.contains(
                (p.0, self.next_at(p.1)->0 as int),
            )
        &&& forall|i: int| #[trigger]
            self.occupied(i) ==> self.reach@.contains((i, i))
        &&& forall|i: int| #[trigger]
            self.occupied(i) ==> self.reach@.contains((self.home(self.key_at(i)), i))
    }

    /// The table's internal invariant.
    pub closed spec fn inv(&self) -> bool {
        &&& 0 < self.entries@.len() <= usize::MAX
        &&& self.clock@ == count_occupied(self.entries@)
        &&& self.cursor <= self.entries@.len()
        &&& forall|i: int| 0 <= i < self.cursor ==> #[trigger] self.entries@[i] is Some
        &&& self.stamp@.len() == self.entries@.len()
        &&& forall|i: int| #[trigger] self.occupied(i) ==> self.stamp@[i] < self.clock@
        &&& self.links_ok()
        &&& self.reach_ok()
        &&& forall|i: int, j: int|
            #[trigger] self.occupied(i) && #[trigger] self.occupied(j) && self.key_at(i)
                == self.key_at(j) ==> i == j
    }

    /// How far bucket `i` may still be from the end of its chain: a chain
    /// only leads to buckets of smaller rank.
    pub closed spec fn rank(&self, i: int) -> int {
        self.clock@ - self.stamp@[i]
    }

    /// The position from which the cursor looks for a free bucket.
    pub closed spec fn cursor_pos(&self) -> int {
        self.cursor as int
    }

    /// The last bucket of the chain that passes through occupied bucket `i`.
    pub open spec fn chain_end(&self, i: int) -> int
        decreases self.rank(i),
        when self.wf() && self.occupied(i)
    {
        match self.next_at(i) {
            None => i,
            Some(j) => self.chain_end(j as int),
        }
    }

    /// The collisions met by walking the chain from bucket `i` until `k` is
    /// found or the chain ends.
    pub open spec fn chain_cost(&self, i: int, k: T) -> nat
        decreases self.rank(i),
        when self.wf() && self.occupied(i)
    {
        if self.key_at(i) == k {
            0
        } else {
            match self.next_at(i) {
                None => 1,
                Some(j) => 1 + self.chain_cost(j as int, k),
            }
        }
    }

    /// An empty table of `size` buckets.
    pub fn with_size(size: usize) -> (r: Self)
        requires
            size > 0,
        ensures
            r.wf(),
            r.slots() == Seq::new(size as nat, |i: int| None::<(T, Option<usize>)>),
            r.cursor_pos() == 0,
            r.contents() == Set::<T>::empty(),
            r.collision_count() == 0,
    {
        let mut entries: Vec<Slot<T>> = Vec::with_capacity(size);
        let mut i: usize = 0;
        while i < size
            invariant
                i <= size,
                entries@.len() == i,
                forall|j: int| 0 <= j < i ==> #[trigger] entries@[j] is None,
                count_occupied(entries@) == 0,
            decreases size - i,
        {
            let ghost before = entries@;
            entries.push(None);
            assert(entries@.drop_last() =~= before);
            i = i + 1;
        }
        let r = Self {
            collisions: 0,
            entries,
            hasher: PhantomData,
            cursor: 0,
            stamp: Ghost(Seq::new(size as nat, |j: int| 0nat)),
            clock: Ghost(0),
            reach: Ghost(Set::empty()),
        };
        assert(r.contents() =~= Set::<T>::empty());
        assert(r.slots() =~= Seq::new(size as nat, |i: int| None::<(T, Option<usize>)>));
        r
    }

    /// Stores `val` in its home bucket `index`, which is free.
    fn claim(&mut self, index: usize, val: &T)
        requires
            old(self).inv(),
            index == old(self).home(*val),
            0 <= index < old(self).slots().len(),
            old(self).slots()[index as int] is None,
        ensures
            final(self).inv(),
            final(self).contents() == old(self).contents().insert(*val),
            final(self).collisions == old(self).collisions,
            final(self).cursor == old(self).cursor,
            final(self).slots() == old(self).slots().update(index as int, Some((*val, None))),
    {
        let ghost pre = *self;
        assert(!pre.contents().contains(*val)) by {
            if pre.contents().contains(*val) {
                let i = choose|i: int| pre.occupied(i) && pre.key_at(i) == *val;
                assert(pre.reach@.contains((pre.home(pre.key_at(i)), i)));
            }
        }
        self.entries.set(index, Some((*val, None)));
        proof {
            let h = index as int;
            lemma_count_fill(pre.entries@, h, (*val, None::<usize>));
            self.stamp@ = pre.stamp@.update(h, pre.clock@);
            self.clock@ = pre.clock@ + 1;
            self.reach@ = pre.reach@.insert((h, h));
            assert forall|i: int| #[trigger] self.occupied(i) && i != h implies pre.occupied(i)
                && self.entries@[i] == pre.entries@[i] by {}
            assert(self.links_ok()) by {
                assert forall|i: int|
                    #![trigger self.entries@[i]]
                    self.occupied(i) && self.next_at(i) is Some implies {
                        let j = self.next_at(i)->0 as int;
                        &&& self.occupied(j)
                        &&& self.stamp@[i] < self.stamp@[j]
                    } by {
                    assert(pre.occupied(i));
                    assert(pre.entries@[i] == self.entries@[i]);
                }
            }
            assert forall|p: (int, int)| #[trigger]
                self.reach@.contains(p) && self.next_at(p.1) is Some implies self.reach@.contains(
                (p.0, self.next_at(p.1)->0 as int),
            ) by {
                if p != (h, h) {
                    assert(pre.reach@.contains(p));
                    assert(pre.occupied(p.1));
                    assert(pre.entries@[p.1] == self.entries@[p.1]);
                }
            }
            assert forall|p: (int, int)| #[trigger]
                self.reach@.contains(p) && p.0 != p.1 implies self.next_at(p.0) is Some
                && self.reach@.contains((self.next_at(p.0)->0 as int, p.1)) by {
                assert(pre.reach@.contains(p));
                assert(pre.occupied(p.0));
                assert(pre.entries@[p.0] == self.entries@[p.0]);
            }
            assert forall|i: int| #[trigger]
                self.occupied(i) implies self.reach@.contains(
                (self.home(self.key_at(i)), i),
            ) by {
                if i != h {
                    assert(pre.occupied(i));
                    assert(pre.reach@.contains((pre.home(pre.key_at(i)), i)));
                }
            }
            assert forall|i: int, j: int|
                #[trigger] self.occupied(i) && #[trigger] self.occupied(j) && self.key_at(i)
                    == self.key_at(j) implies i == j by {
                if i != h && j != h {
                    assert(pre.occupied(i) && pre.occupied(j));
                } else if i != h {
                    assert(pre.occupied(i));
                    assert(pre.contents().contains(pre.key_at(i)));
                } else if j != h {
                    assert(pre.occupied(j));
                    assert(pre.contents().contains(pre.key_at(j)));
                }
            }
            assert(self.contents() =~= pre.contents().insert(*val)) by {
                assert(self.occupied(h));
                assert forall|k: T| pre.contents().contains(k) implies self.contents().contains(
                    k,
                ) by {
                    let i = choose|i: int| pre.occupied(i) && pre.key_at(i) == k;
                    assert(self.occupied(i) && self.key_at(i) == k);
                }
                assert forall|k: T| self.contents().contains(k) && k != *val implies pre.contents().contains(
                    k,
                ) by {
                    let i = choose|i: int| self.occupied(i) && self.key_at(i) == k;
                    assert(pre.occupied(i) && pre.key_at(i) == k);
                }
            }
        }
    }

    /// Stores `val` in the free bucket `c` and appends `c` to the chain that
    /// ends in bucket `end`.
    fn link(&mut self, end: usize, c: usize, val: &T)
        requires
            old(self).inv(),
            old(self).occupied(end as int),
            old(self).next_at(end as int) is None,
            old(self).reach@.contains((old(self).home(*val), end as int)),
            0 <= c < old(self).slots().len(),
            old(self).slots()[c as int] is None,
            !old(self).contents().contains(*val),
        ensures
            final(self).inv(),
            final(self).contents() == old(self).contents().insert(*val),
            final(self).collisions == old(self).collisions,
            final(self).cursor == old(self).cursor,
            final(self).slots() == old(self).slots().update(c as int, Some((*val, None))).update(
                end as int,
                Some((old(self).key_at(end as int), Some(c))),
            ),
    {
        let ghost pre = *self;
        let (end_key, _) = self.entries[end].unwrap();
        self.entries.set(c, Some((*val, None)));
        let ghost mid = self.entries@;
        self.entries.set(end, Some((end_key, Some(c))));
        proof {
            lemma_count_fill(pre.entries@, c as int, (*val, None::<usize>));
            lemma_count_replace(mid, end as int, (end_key, Some(c)));
            let e = end as int;
            let ci = c as int;
            let h = pre.home(*val);
            self.stamp@ = pre.stamp@.update(ci, pre.clock@);
            self.clock@ = pre.clock@ + 1;
            self.reach@ = pre.reach@.union(
                Set::new(|p: (int, int)| pre.reach@.contains((p.0, e)) && p.1 == ci),
            ).insert((ci, ci));
            assert(forall|p: (int, int)| #[trigger] pre.reach@.contains(p) ==> p.0 != ci && p.1 != ci);
            assert forall|i: int| #[trigger] self.occupied(i) implies (i == ci || pre.occupied(i))
                && (i != ci && i != e ==> self.entries@[i] == pre.entries@[i]) && self.key_at(i) == (
            if i == ci {
                *val
            } else {
                pre.key_at(i)
            }) by {}
            assert(self.links_ok()) by {
                assert forall|i: int|
                    #![trigger self.entries@[i]]
                    self.occupied(i) && self.next_at(i) is Some implies {
                        let j = self.next_at(i)->0 as int;
                        &&& self.occupied(j)
                        &&& self.stamp@[i] < self.stamp@[j]
                    } by {
                    assert(self.occupied(i));
                    if i != e && i != ci {
                        assert(pre.entries@[i] == self.entries@[i]);
                    }
                }
            }
            assert forall|p: (int, int)| #[trigger]
                self.reach@.contains(p) implies self.occupied(p.0) && self.occupied(p.1) by {
                if p != (ci, ci) && !pre.reach@.contains(p) {
                    assert(pre.reach@.contains((p.0, e)));
                }
            }
            assert forall|p: (int, int)| #[trigger]
                self.reach@.contains(p) && p.0 != p.1 implies self.next_at(p.0) is Some
                && self.reach@.contains((self.next_at(p.0)->0 as int, p.1)) by {
                if pre.reach@.contains(p) {
                    assert(pre.occupied(p.0));
                    if p.0 == e {
                        assert(pre.next_at(e) is Some);
                    }
                    assert(pre.entries@[p.0] == self.entries@[p.0]);
                    let z = pre.next_at(p.0)->0 as int;
                    assert(pre.reach@.contains((z, p.1)));
                } else if p != (ci, ci) {
                    assert(pre.reach@.contains((p.0, e)));
                    assert(p.1 == ci);
                    if p.0 != e {
                        assert(pre.occupied(p.0));
                        assert(pre.entries@[p.0] == self.entries@[p.0]);
                        let z = pre.next_at(p.0)->0 as int;
                        assert(pre.reach@.contains((z, e)));
                    }
                }
            }
            assert forall|p: (int, int)| #[trigger]
                self.reach@.contains(p) && self.next_at(p.1) is Some implies self.reach@.contains(
                (p.0, self.next_at(p.1)->0 as int),
            ) by {
                if pre.reach@.contains(p) {
                    assert(pre.occupied(p.1));
                    if p.1 != e {
                        assert(pre.entries@[p.1] == self.entries@[p.1]);
                        assert(pre.reach@.contains((p.0, pre.next_at(p.1)->0 as int)));
                    }
                }
            }
            assert forall|i: int| #[trigger]
                self.occupied(i) implies self.reach@.contains(
                (self.home(self.key_at(i)), i),
            ) by {
                if i != ci {
                    assert(pre.occupied(i));
                    assert(pre.reach@.contains((pre.home(pre.key_at(i)), i)));
                } else {
                    assert(pre.reach@.contains((h, e)));
                }
            }
            assert forall|i: int| #[trigger] self.occupied(i) implies self.reach@.contains((i, i)) by {
                if i != ci {
                    assert(pre.occupied(i));
                }
            }
            assert forall|i: int, j: int|
                #[trigger] self.occupied(i) && #[trigger] self.occupied(j) && self.key_at(i)
                    == self.key_at(j) implies i == j by {
                if i != ci && j != ci {
                    assert(pre.occupied(i) && pre.occupied(j));
                } else if i != ci {
                    assert(pre.occupied(i));
                    assert(pre.contents().contains(pre.key_at(i)));
                } else if j != ci {
                    assert(pre.occupied(j));
                    assert(pre.contents().contains(pre.key_at(j)));
                }
            }
            assert forall|i: int| 0 <= i < self.cursor implies #[trigger] self.entries@[i] is Some by {
                assert(pre.entries@[i] is Some);
            }
            assert(self.contents() =~= pre.contents().insert(*val)) by {
                assert(self.occupied(ci));
                assert forall|k: T| pre.contents().contains(k) implies self.contents().contains(
                    k,
                ) by {
                    let i = choose|i: int| pre.occupied(i) && pre.key_at(i) == k;
                    assert(self.occupied(i) && self.key_at(i) == k);
                }
                assert forall|k: T| self.contents().contains(k) && k != *val implies pre.contents().contains(
                    k,
                ) by {
                    let i = choose|i: int| self.occupied(i) && self.key_at(i) == k;
                    assert(pre.occupied(i) && pre.key_at(i) == k);
                }
            }
        }
    }

    proof fn lemma_chain_cost_rank(&self, i: int, k: T)
        requires
            self.inv(),
            self.occupied(i),
        ensures
            self.chain_cost(i, k) <= self.rank(i),
        decreases self.rank(i),
    {
        if self.key_at(i) != k {
            if let Some(j) = self.next_at(i) {
                assert(self.entries@[i] is Some);
                self.lemma_chain_cost_rank(j as int, k);
            }
        }
    }

    /// A lookup meets at most one collision per bucket.
    pub proof fn lemma_probe_cost_bound(&self, k: T)
        requires
            self.wf(),
        ensures
            self.probe_cost(k) <= self.slots().len(),
            self.slots().len() <= usize::MAX,
    {
        lemma_count_full(self.entries@);
        let h = self.home(k);
        if self.occupied(h) {
            self.lemma_chain_cost_rank(h, k);
        }
    }

    /// Every bucket before the cursor is occupied.
    pub proof fn lemma_cursor(&self)
        requires
            self.wf(),
        ensures
            0 <= self.cursor_pos() <= self.slots().len(),
            forall|i: int| 0 <= i < self.cursor_pos() ==> #[trigger] self.slots()[i] is Some,
    {
    }

    /// Two tables with the same buckets and chains hold the same keys.
    proof fn lemma_same_buckets(a: Self, b: Self)
        requires
            a.inv(),
            b.entries@ == a.entries@,
            b.stamp@ == a.stamp@,
            b.clock@ == a.clock@,
            b.reach@ == a.reach@,
            b.cursor <= b.entries@.len(),
            forall|i: int| 0 <= i < b.cursor ==> #[trigger] b.entries@[i] is Some,
        ensures
            b.inv(),
            b.contents() == a.contents(),
    {
        assert forall|i: int| #[trigger] b.occupied(i) == a.occupied(i) && b.key_at(i) == a.key_at(
            i,
        ) && b.next_at(i) == a.next_at(i) by {}
        assert forall|k: T| #[trigger] b.home(k) == a.home(k) by {}
        assert forall|i: int| #[trigger] b.occupied(i) implies b.stamp@[i] < b.clock@ by {
            assert(a.occupied(i));
        }
        assert(b.links_ok()) by {
            assert forall|i: int|
                #![trigger b.entries@[i]]
                b.occupied(i) && b.next_at(i) is Some implies {
                    let j = b.next_at(i)->0 as int;
                    &&& b.occupied(j)
                    &&& b.stamp@[i] < b.stamp@[j]
                } by {
                assert(a.occupied(i));
                let j = b.next_at(i)->0 as int;
                assert(a.occupied(j));
            }
        }
        assert forall|p: (int, int)| #[trigger]
            b.reach@.contains(p) implies b.occupied(p.0) && b.occupied(p.1) by {
            assert(a.occupied(p.0) && a.occupied(p.1));
        }
        assert forall|p: (int, int)| #[trigger]
            b.reach@.contains(p) && p.0 != p.1 implies b.next_at(p.0) is Some
            && b.reach@.contains((b.next_at(p.0)->0 as int, p.1)) by {}
        assert forall|p: (int, int)| #[trigger]
            b.reach@.contains(p) && b.next_at(p.1) is Some implies b.reach@.contains(
            (p.0, b.next_at(p.1)->0 as int),
        ) by {}
        assert forall|i: int| #[trigger] b.occupied(i) implies b.reach@.contains((i, i)) by {
            assert(a.occupied(i));
        }
        assert forall|i: int| #[trigger]
            b.occupied(i) implies b.reach@.contains((b.home(b.key_at(i)), i)) by {
            assert(a.occupied(i));
        }
        assert forall|i: int, j: int|
            #[trigger] b.occupied(i) && #[trigger] b.occupied(j) && b.key_at(i) == b.key_at(
                j,
            ) implies i == j by {
            assert(a.occupied(i) && a.occupied(j));
        }
        assert(b.contents() =~= a.contents()) by {
            assert forall|k: T| a.contents().contains(k) implies b.contents().contains(k) by {
                let i = choose|i: int| a.occupied(i) && a.key_at(i) == k;
                assert(b.occupied(i));
            }
            assert forall|k: T| b.contents().contains(k) implies a.contents().contains(k) by {
                let i = choose|i: int| b.occupied(i) && b.key_at(i) == k;
                assert(a.occupied(i));
            }
        }
    }

    /// Walks the chain from bucket `h`, the home bucket of `val`, adding one
    /// to `base` for every bucket that does not hold `val`.
    ///
    /// Returns whether `val` was found, the last bucket of the chain where it
    /// was not, and the sum.
    fn walk(&self, h: usize, val: &T, base: usize) -> (r: (bool, usize, usize))
        requires
            self.inv(),
            self.occupied(h as int),
            h == self.home(*val),
            base + self.chain_cost(h as int, *val) <= usize::MAX,
        ensures
            r.0 == self.contents().contains(*val),
            r.2 == base + self.chain_cost(h as int, *val),
            !r.0 ==> self.occupied(r.1 as int) && self.next_at(r.1 as int) is None
                && self.reach@.contains((h as int, r.1 as int)),
            !r.0 ==> r.1 == self.chain_end(h as int),
    {
        let mut index = h;
        let mut total = base;
        loop
            invariant
                self.inv(),
                h == self.home(*val),
                self.occupied(h as int),
                self.occupied(index as int),
                self.reach@.contains((h as int, index as int)),
                forall|j: int| #[trigger]
                    self.reach@.contains((h as int, j)) ==> self.reach@.contains((index as int, j))
                        || self.key_at(j) != *val,
                base + self.chain_cost(h as int, *val) == total + self.chain_cost(
                    index as int,
                    *val,
                ),
                base + self.chain_cost(h as int, *val) <= usize::MAX,
                self.chain_end(h as int) == self.chain_end(index as int),
            decreases self.clock@ - self.stamp@[index as int],
        {
            let ghost i = index as int;
            let (x, next) = self.entries[index].unwrap();
            if x.same_key(val) {
                proof {
                    assert(self.contents().contains(*val));
                }
                return (true, index, total);
            }
            total = total + 1;
            match next {
                Some(j) => {
                    proof {
                        assert(self.entries@[i] is Some);
                        assert(self.reach@.contains((h as int, j as int)));
                        assert forall|m: int| #[trigger]
                            self.reach@.contains((h as int, m)) implies self.reach@.contains(
                            (j as int, m),
                        ) || self.key_at(m) != *val by {
                            if self.reach@.contains((i, m)) && i != m {
                                assert(self.reach@.contains((i, m)));
                            }
                        }
                    }
                    index = j;
                },
                None => {
                    proof {
                        assert forall|m: int| self.occupied(m) implies self.key_at(m) != *val by {
                            assert(self.reach@.contains((self.home(self.key_at(m)), m)));
                            if self.key_at(m) == *val {
                                assert(self.reach@.contains((h as int, m)));
                                if self.reach@.contains((i, m)) && i != m {
                                    assert(self.reach@.contains((i, m)));
                                }
                            }
                        }
                        assert(!self.contents().contains(*val));
                    }
                    return (false, index, total);
                },
            }
        }
    }
}

impl<T: Key, H: Hasher<T>> Default for CoalescedTable<T, H> {
    /// An empty table of the default size.
    fn default() -> (r: Self)
        ensures
            r.wf(),
            r.contents() == Set::<T>::empty(),
            r.collision_count() == 0,
    {
        Self::with_size(ELEMENT_COUNT)
    }
}

impl<T: Key, H: Hasher<T>> HashTable<T> for CoalescedTable<T, H> {
    closed spec fn wf(&self) -> bool {
        self.inv()
    }

    open spec fn contents(&self) -> Set<T> {
        Set::new(|k: T| exists|i: int| #[trigger] self.occupied(i) && self.key_at(i) == k)
    }

    closed spec fn collision_count(&self) -> nat {
        self.collisions as nat
    }

    open spec fn probe_cost(&self, val: T) -> nat {
        if self.occupied(self.home(val)) {
            self.chain_cost(self.home(val), val)
        } else {
            0
        }
    }

    /// Inserting never counts collisions.
    open spec fn insert_cost(&self, val: T) -> nat {
        0
    }

    open spec fn stores_on_insert(&self, val: T) -> bool {
        self.contents().contains(val) || self.has_free_slot()
    }

    open spec fn fits_budget(bytes: usize, elements: usize) -> bool {
        let unit = vstd::layout::size_of::<Slot<T>>() as int;
        unit > 0 && bytes as int / unit >= elements as int && bytes as int / unit >= 1
    }

    fn empty() -> (r: Self) {
        Self::with_size(ELEMENT_COUNT)
    }

    /// A lookup whose home bucket is free stores the key there and answers
    /// true.
    fn has(&mut self, val: &T) -> (r: bool)
        ensures
            r == (old(self).contents().contains(*val) || !old(self).occupied(
                old(self).home(*val),
            )),
            final(self).contents() == (if old(self).occupied(old(self).home(*val)) {
                old(self).contents()
            } else {
                old(self).contents().insert(*val)
            }),
            final(self).slots() == (if old(self).occupied(old(self).home(*val)) {
                old(self).slots()
            } else {
                old(self).slots().update(old(self).home(*val), Some((*val, None)))
            }),
            final(self).cursor_pos() == old(self).cursor_pos(),
    {
        let n = self.entries.len();
        let index = H::hash(val, n);
        if self.entries[index].is_none() {
            self.claim(index, val);
            return true;
        }
        let ghost pre = *self;
        let (found, _, total) = self.walk(index, val, self.collisions);
        self.collisions = total;
        proof {
            Self::lemma_same_buckets(pre, *self);
        }
        found
    }

    fn reset_collisions(&mut self)
        ensures
            final(self).slots() == old(self).slots(),
            final(self).cursor_pos() == old(self).cursor_pos(),
    {
        let ghost pre = *self;
        self.collisions = 0;
        proof {
            Self::lemma_same_buckets(pre, *self);
        }
    }

    fn get_collisions(&self) -> (r: usize) {
        self.collisions
    }

    /// Always true, also when no bucket is left and nothing was stored.
    fn insert(&mut self, val: &T) -> (r: bool)
        ensures
            r,
            old(self).contents().contains(*val) ==> *final(self) == *old(self),
            !old(self).contents().contains(*val) && !old(self).occupied(old(self).home(*val))
                ==> final(self).slots() == old(self).slots().update(
                old(self).home(*val),
                Some((*val, None)),
            ) && final(self).cursor_pos() == old(self).cursor_pos(),
            !old(self).contents().contains(*val) && old(self).occupied(old(self).home(*val)) ==> {
                let c = final(self).cursor_pos();
                let end = old(self).chain_end(old(self).home(*val));
                &&& old(self).cursor_pos() <= c <= old(self).slots().len()
                &&& forall|i: int|
                    old(self).cursor_pos() <= i < c ==> #[trigger] old(self).slots()[i] is Some
                &&& c < old(self).slots().len() ==> old(self).slots()[c] is None
                    && final(self).slots() == old(self).slots().update(
                    c,
                    Some((*val, None)),
                ).update(end, Some((old(self).key_at(end), Some(c as usize))))
                &&& c == old(self).slots().len() ==> final(self).slots() == old(self).slots()
            },
    {
        let ghost pre = *self;
        let n = self.entries.len();
        let home = H::hash(val, n);
        let ghost h = home as int;
        if self.entries[home].is_none() {
            self.claim(home, val);
            return true;
        }
        proof {
            self.lemma_probe_cost_bound(*val);
        }
        let (found, index, _) = self.walk(home, val, 0);
        if found {
            return true;
        }
        // `index` is the end of the chain from the home bucket of `val`
        while self.cursor < n
            invariant
                *self == (Self { cursor: self.cursor, ..pre }),
                pre == *old(self),
                pre.inv(),
                n == pre.slots().len(),
                pre.cursor <= self.cursor <= n,
                forall|m: int| 0 <= m < self.cursor ==> #[trigger] pre.entries@[m] is Some,
                !pre.contents().contains(*val),
                pre.occupied(index as int),
                pre.next_at(index as int) is None,
                pre.reach@.contains((h, index as int)),
                h == pre.home(*val),
                index as int == pre.chain_end(h),
            decreases n - self.cursor,
        {
            let c = self.cursor;
            if self.entries[c].is_none() {
                proof {
                    Self::lemma_same_buckets(pre, *self);
                    assert(self.collisions == pre.collisions);
                    assert(pre.slots()[c as int] is None);
                }
                self.link(index, c, val);
                return true;
            }
            self.cursor = c + 1;
        }
        proof {
            Self::lemma_same_buckets(pre, *self);
            assert(!pre.has_free_slot());
        }
        true
    }

    /// Sizes the table to as many buckets as the budget pays for.
    fn resize_to_bytes(&mut self, bytes: usize, elements: usize) -> (r: Result<(), ConfigurationError>)
        ensures
            r is Err ==> r == Err::<(), _>(ConfigurationError::BudgetTooSmall),
            r is Ok ==> final(self).contents() == Set::<T>::empty() && final(self).collision_count()
                == 0,
            r is Ok ==> final(self).slots().len() == bytes as int / vstd::layout::size_of::<
                Slot<T>,
            >() as int,
    {
        let unit = core::mem::size_of::<Slot<T>>();
        if unit == 0 {
            return Err(ConfigurationError::BudgetTooSmall);
        }
        let entries = bytes / unit;
        if entries < elements || entries == 0 {
            return Err(ConfigurationError::BudgetTooSmall);
        }
        *self = Self::with_size(entries);
        Ok(())
    }
}

} // verus!
