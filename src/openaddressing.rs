use vstd::prelude::*;
use core::marker::PhantomData;
use crate::hashing::Hasher;
use crate::probing::{LinearProber, Prober};
use crate::table::{ConfigurationError, HashTable, Key, ELEMENT_COUNT};

verus! {

/// The number of occupied buckets in `s`.
pub open spec fn count_occupied<T>(s: Seq<Option<T>>) -> nat
    decreases s.len(),
{
    if s.len() == 0 {
        0
    } else {
        count_occupied(s.drop_last()) + if s.last() is Some {
            1nat
        } else {
            0nat
        }
    }
}

/// Filling a free bucket adds one to the count of occupied buckets.
pub proof fn lemma_count_fill<T>(s: Seq<Option<T>>, i: int, v: T)
    requires
        0 <= i < s.len(),
        s[i] is None,
    ensures
        count_occupied(s.update(i, Some(v))) == count_occupied(s) + 1,
    decreases s.len(),
{
    let t = s.update(i, Some(v));
    if i == s.len() - 1 {
        assert(t.drop_last() =~= s.drop_last());
    } else {
        assert(t.drop_last() =~= s.drop_last().update(i, Some(v)));
        lemma_count_fill(s.drop_last(), i, v);
    }
}

/// Replacing what an occupied bucket holds keeps the count.
pub proof fn lemma_count_replace<T>(s: Seq<Option<T>>, i: int, v: T)
    requires
        0 <= i < s.len(),
        s[i] is Some,
    ensures
        count_occupied(s.update(i, Some(v))) == count_occupied(s),
    decreases s.len(),
{
    let t = s.update(i, Some(v));
    if i == s.len() - 1 {
        assert(t.drop_last() =~= s.drop_last());
    } else {
        assert(t.drop_last() =~= s.drop_last().update(i, Some(v)));
        lemma_count_replace(s.drop_last(), i, v);
    }
}

/// At most every bucket is occupied, and when every one is counted, every
/// one is occupied.
pub proof fn lemma_count_full<T>(s: Seq<Option<T>>)
    ensures
        count_occupied(s) <= s.len(),
        count_occupied(s) == s.len() ==> forall|i: int| 0 <= i < s.len() ==> #[trigger] s[i] is Some,
    decreases s.len(),
{
    if s.len() > 0 {
        lemma_count_full(s.drop_last());
        if count_occupied(s) == s.len() {
            assert forall|i: int| 0 <= i < s.len() implies #[trigger] s[i] is Some by {
                if i < s.len() - 1 {
                    assert(s.drop_last()[i] == s[i]);
                }
            }
        }
    }
}

/// Hash table with open addressing.
///
/// Always `ELEMENT_COUNT` buckets. A key that collides is placed at the first
/// free bucket of its probe sequence; a key is refused when every bucket of
/// that sequence is taken.
pub struct OpenAddressingTable<T: Key, P: Prober, H: Hasher<T>> {
    collisions: usize,
    entries: Vec<Option<T>>,
    prober: PhantomData<P>,
    hasher: PhantomData<H>,
}

impl<T: Key, P: Prober, H: Hasher<T>> OpenAddressingTable<T, P, H> {
    /// The buckets of the table.
    pub closed spec fn slots(&self) -> Seq<Option<T>> {
        self.entries@
    }

    /// The number of occupied buckets.
    pub open spec fn occupied(&self) -> nat {
        count_occupied(self.slots())
    }

    /// The bucket examined at attempt `a` of the probe sequence of `k`: the
    /// home bucket, moved on by the prober's offset for that attempt.
    pub open spec fn probe_pos(k: T, a: nat) -> int {
        if a == 0 {
            H::spec_hash(k, ELEMENT_COUNT)
        } else {
            (H::spec_hash(k, ELEMENT_COUNT) + P::spec_probe(a)) % (ELEMENT_COUNT as int)
        }
    }

    /// Whether some bucket of the probe sequence of `k` is free.
    pub open spec fn has_room_for(&self, k: T) -> bool {
        exists|a: nat| a < ELEMENT_COUNT && #[trigger] self.slots()[Self::probe_pos(k, a)] is None
    }

    /// The collisions met from attempt `a` on when looking up `k`.
    pub open spec fn cost_from(&self, k: T, a: nat) -> nat
        decreases ELEMENT_COUNT - a,
    {
        if a >= ELEMENT_COUNT {
            0
        } else if self.slots()[Self::probe_pos(k, a)] is None || self.slots()[Self::probe_pos(
            k,
            a,
        )] == Some(k) {
            0
        } else {
            1 + self.cost_from(k, a + 1)
        }
    }

    /// Bucket `i` holds a key reached by its probe sequence before any free
    /// bucket.
    pub open spec fn placed(s: Seq<Option<T>>, i: int) -> bool {
        exists|a: nat|
            #![trigger Self::probe_pos(s[i]->0, a)]
            a < ELEMENT_COUNT && Self::probe_pos(s[i]->0, a) == i && forall|b: nat|
                b < a ==> #[trigger] s[Self::probe_pos(s[i]->0, b)] is Some
    }

    /// The table's internal invariant.
    pub closed spec fn inv(&self) -> bool {
        &&& self.entries@.len() == ELEMENT_COUNT
        &&& forall|i: int|
            0 <= i < ELEMENT_COUNT && #[trigger] self.entries@[i] is Some ==> Self::placed(
                self.entries@,
                i,
            )
        &&& forall|i: int, j: int|
            0 <= i < ELEMENT_COUNT && 0 <= j < ELEMENT_COUNT && #[trigger] self.entries@[i]
                is Some && #[trigger] self.entries@[j] == self.entries@[i] ==> i == j
    }

    proof fn lemma_probe_pos_range(k: T, a: nat)
        ensures
            0 <= Self::probe_pos(k, a) < ELEMENT_COUNT,
    {
        if a == 0 {
            H::lemma_hash_range(k, ELEMENT_COUNT);
        }
    }

    /// A key is absent when its probe sequence meets a free bucket, or ends,
    /// before meeting the key.
    proof fn lemma_absent(t: Self, k: T, a: nat)
        requires
            t.inv(),
            a <= ELEMENT_COUNT,
            forall|b: nat|
                b < a ==> #[trigger] t.entries@[Self::probe_pos(k, b)] is Some
                    && t.entries@[Self::probe_pos(k, b)] != Some(k),
            a == ELEMENT_COUNT || t.entries@[Self::probe_pos(k, a)] is None,
        ensures
            !t.contents().contains(k),
    {
        if t.contents().contains(k) {
            let i = choose|i: int| 0 <= i < t.entries@.len() && #[trigger] t.entries@[i] == Some(k);
            assert(Self::placed(t.entries@, i));
            let a2 = choose|a2: nat|
                #![trigger Self::probe_pos(t.entries@[i]->0, a2)]
                a2 < ELEMENT_COUNT && Self::probe_pos(t.entries@[i]->0, a2) == i && forall|b: nat|
                    b < a2 ==> #[trigger] t.entries@[Self::probe_pos(t.entries@[i]->0, b)] is Some;
            if a2 < a {
                assert(t.entries@[Self::probe_pos(k, a2)] != Some(k));
            } else if a2 > a {
                assert(t.entries@[Self::probe_pos(k, a)] is Some);
            }
        }
    }

    /// Storing an absent key at the first free bucket of its probe sequence
    /// keeps the invariant.
    proof fn lemma_filled(pre: Self, post: Self, k: T, a: nat)
        requires
            pre.inv(),
            !pre.contents().contains(k),
            a < ELEMENT_COUNT,
            0 <= Self::probe_pos(k, a) < ELEMENT_COUNT,
            pre.entries@[Self::probe_pos(k, a)] is None,
            forall|b: nat| b < a ==> #[trigger] pre.entries@[Self::probe_pos(k, b)] is Some,
            post.entries@ == pre.entries@.update(Self::probe_pos(k, a), Some(k)),
        ensures
            post.inv(),
            post.contents() == pre.contents().insert(k),
    {
        let s = pre.entries@;
        let t = post.entries@;
        let p = Self::probe_pos(k, a);
        assert forall|i: int| 0 <= i < ELEMENT_COUNT && #[trigger] t[i] is Some implies Self::placed(
            t,
            i,
        ) by {
            if i == p {
                assert(t[i]->0 == k);
                assert forall|b: nat| b < a implies #[trigger] t[Self::probe_pos(k, b)] is Some by {
                    Self::lemma_probe_pos_range(k, b);
                }
                assert(Self::probe_pos(t[i]->0, a) == i);
            } else {
                assert(Self::placed(s, i));
                let key = s[i]->0;
                let a2 = choose|a2: nat|
                    #![trigger Self::probe_pos(key, a2)]
                    a2 < ELEMENT_COUNT && Self::probe_pos(key, a2) == i && forall|b: nat|
                        b < a2 ==> #[trigger] s[Self::probe_pos(key, b)] is Some;
                assert forall|b: nat| b < a2 implies #[trigger] t[Self::probe_pos(key, b)] is Some by {
                    Self::lemma_probe_pos_range(key, b);
                }
                assert(Self::probe_pos(t[i]->0, a2) == i);
            }
        }
        assert forall|i: int, j: int|
            0 <= i < ELEMENT_COUNT && 0 <= j < ELEMENT_COUNT && #[trigger] t[i] is Some
                && #[trigger] t[j] == t[i] implies i == j by {
            if i != p && j != p {
                assert(s[i] is Some && s[j] == s[i]);
            } else if i != p {
                assert(s[i] == Some(k));
            } else if j != p {
                assert(s[j] == Some(k));
            }
        }
        assert(post.contents() =~= pre.contents().insert(k)) by {
            assert(t[p] == Some(k));
            assert forall|x: T| pre.contents().contains(x) implies post.contents().contains(x) by {
                let i = choose|i: int| 0 <= i < s.len() && #[trigger] s[i] == Some(x);
                assert(t[i] == Some(x));
            }
            assert forall|x: T| post.contents().contains(x) && x != k implies pre.contents().contains(
                x,
            ) by {
                let i = choose|i: int| 0 <= i < t.len() && #[trigger] t[i] == Some(x);
                assert(s[i] == Some(x));
            }
        }
    }

    /// Once as many keys are stored as there are buckets, every bucket is
    /// occupied and a key not yet in the table is refused.
    pub proof fn lemma_full_table_refuses(t: Self, k: T)
        requires
            t.wf(),
            t.occupied() == ELEMENT_COUNT,
            !t.contents().contains(k),
        ensures
            t.slots().len() == ELEMENT_COUNT,
            forall|i: int| 0 <= i < ELEMENT_COUNT ==> #[trigger] t.slots()[i] is Some,
            !t.stores_on_insert(k),
    {
        lemma_count_full(t.entries@);
        if t.has_room_for(k) {
            let a = choose|a: nat| a < ELEMENT_COUNT && #[trigger] t.slots()[Self::probe_pos(k, a)] is None;
            Self::lemma_probe_pos_range(k, a);
        }
    }

    /// A lookup meets at most one collision per attempt, so at most as many
    /// as there are buckets.
    pub proof fn lemma_probe_cost_bound(&self, k: T)
        ensures
            self.probe_cost(k) <= ELEMENT_COUNT,
    {
        self.lemma_cost_from_bound(k, 0);
    }

    proof fn lemma_cost_from_bound(&self, k: T, a: nat)
        ensures
            self.cost_from(k, a) + a <= ELEMENT_COUNT || a >= ELEMENT_COUNT,
        decreases ELEMENT_COUNT - a,
    {
        if a < ELEMENT_COUNT {
            self.lemma_cost_from_bound(k, a + 1);
        }
    }

    /// An empty table.
    pub fn new() -> (r: Self)
        ensures
            r.wf(),
            r.contents() == Set::<T>::empty(),
            r.collision_count() == 0,
            r.occupied() == 0,
            r.slots() == Seq::new(ELEMENT_COUNT as nat, |i: int| None::<T>),
    {
        let mut entries: Vec<Option<T>> = Vec::with_capacity(ELEMENT_COUNT);
        let mut i: usize = 0;
        while i < ELEMENT_COUNT
            invariant
                i <= ELEMENT_COUNT,
                entries@.len() == i,
                forall|j: int| 0 <= j < i ==> #[trigger] entries@[j] is None,
                count_occupied(entries@) == 0,
            decreases ELEMENT_COUNT - i,
        {
            let ghost before = entries@;
            entries.push(None);
            assert(entries@.drop_last() =~= before);
            i = i + 1;
        }
        let r = Self { collisions: 0, entries, prober: PhantomData, hasher: PhantomData };
        assert(r.contents() =~= Set::<T>::empty());
        assert(r.slots() =~= Seq::new(ELEMENT_COUNT as nat, |i: int| None::<T>));
        r
    }
}

impl<T: Key, H: Hasher<T>> OpenAddressingTable<T, LinearProber, H> {
    /// With linear probing every key's probe sequence reaches every bucket,
    /// so a key is refused only when the table is full.
    pub proof fn lemma_linear_reaches_every_bucket(t: Self, k: T, i: int)
        requires
            0 <= i < ELEMENT_COUNT,
            t.slots()[i] is None,
        ensures
            t.has_room_for(k),
    {
        let h = Self::probe_pos(k, 0);
        Self::lemma_probe_pos_range(k, 0);
        let a: nat = if i >= h {
            (i - h) as nat
        } else {
            (i - h + ELEMENT_COUNT) as nat
        };
        if a == 0 {
            assert(Self::probe_pos(k, a) == i);
        } else {
            assert(Self::probe_pos(k, a) == (h + a) % (ELEMENT_COUNT as int));
            assert(Self::probe_pos(k, a) == i);
        }
        assert(t.slots()[Self::probe_pos(k, a)] is None);
    }
}

impl<T: Key, P: Prober, H: Hasher<T>> Default for OpenAddressingTable<T, P, H> {
    /// An empty table of the default size.
    fn default() -> (r: Self)
        ensures
            r.wf(),
            r.contents() == Set::<T>::empty(),
            r.collision_count() == 0,
    {
        Self::new()
    }
}

impl<T: Key, P: Prober, H: Hasher<T>> HashTable<T> for OpenAddressingTable<T, P, H> {
    closed spec fn wf(&self) -> bool {
        self.inv()
    }

    open spec fn contents(&self) -> Set<T> {
        Set::new(
            |k: T|
                exists|i: int| 0 <= i < self.slots().len() && #[trigger] self.slots()[i] == Some(k),
        )
    }

    closed spec fn collision_count(&self) -> nat {
        self.collisions as nat
    }

    open spec fn probe_cost(&self, val: T) -> nat {
        self.cost_from(val, 0)
    }

    /// An insert first looks the key up, and counts as that lookup does.
    open spec fn insert_cost(&self, val: T) -> nat {
        self.cost_from(val, 0)
    }

    open spec fn stores_on_insert(&self, val: T) -> bool {
        self.contents().contains(val) || self.has_room_for(val)
    }

    open spec fn fits_budget(bytes: usize, elements: usize) -> bool {
        elements <= ELEMENT_COUNT && bytes as int == vstd::layout::size_of::<Option<T>>()
            * ELEMENT_COUNT
    }

    fn empty() -> (r: Self) {
        Self::new()
    }

    fn has(&mut self, val: &T) -> (r: bool)
        ensures
            r == old(self).contents().contains(*val),
            final(self).slots() == old(self).slots(),
    {
        let ghost pre = *self;
        let home = H::hash(val, ELEMENT_COUNT);
        let mut index = home;
        let mut attempts: usize = 0;
        while attempts < ELEMENT_COUNT
            invariant
                home == H::spec_hash(*val, ELEMENT_COUNT),
                home < ELEMENT_COUNT,
                pre == *old(self),
                pre.inv(),
                self.entries == pre.entries,
                attempts <= ELEMENT_COUNT,
                index == Self::probe_pos(*val, attempts as nat),
                index < ELEMENT_COUNT,
                forall|b: nat|
                    b < attempts ==> #[trigger] pre.entries@[Self::probe_pos(*val, b)] is Some
                        && pre.entries@[Self::probe_pos(*val, b)] != Some(*val),
                pre.collisions + pre.cost_from(*val, 0) == self.collisions + pre.cost_from(
                    *val,
                    attempts as nat,
                ),
                pre.collisions + pre.cost_from(*val, 0) <= usize::MAX,
            decreases ELEMENT_COUNT - attempts,
        {
            match self.entries[index] {
                Some(inside) => {
                    if inside.same_key(val) {
                        proof {
                            assert(pre.contents().contains(*val));
                            assert(self.contents() =~= pre.contents());
                        }
                        return true;
                    }
                },
                None => {
                    proof {
                        Self::lemma_absent(pre, *val, attempts as nat);
                        assert(self.contents() =~= pre.contents());
                    }
                    return false;
                },
            }
            proof {
                P::lemma_probe_bound((attempts + 1) as nat);
                assert((attempts + 1) * (attempts + 1) <= ELEMENT_COUNT * ELEMENT_COUNT)
                    by (nonlinear_arith)
                    requires attempts + 1 <= ELEMENT_COUNT;
                Self::lemma_probe_pos_range(*val, (attempts + 1) as nat);
            }
            attempts = attempts + 1;
            self.collisions = self.collisions + 1;
            index = (home + P::probe(attempts)) % ELEMENT_COUNT;
        }
        proof {
            Self::lemma_absent(pre, *val, ELEMENT_COUNT as nat);
            assert(self.contents() =~= pre.contents());
        }
        false
    }

    fn reset_collisions(&mut self)
        ensures
            final(self).slots() == old(self).slots(),
    {
        self.collisions = 0;
        assert(self.contents() =~= old(self).contents());
    }

    fn get_collisions(&self) -> (r: usize) {
        self.collisions
    }

    /// False exactly when the key is absent and every bucket of its probe
    /// sequence is taken.
    fn insert(&mut self, val: &T) -> (r: bool)
        ensures
            r == old(self).stores_on_insert(*val),
            r && !old(self).contents().contains(*val) ==> final(self).occupied() == old(
                self,
            ).occupied() + 1,
            !(r && !old(self).contents().contains(*val)) ==> final(self).slots() == old(
                self,
            ).slots(),
            r && !old(self).contents().contains(*val) ==> exists|a: nat|
                {
                    &&& a < ELEMENT_COUNT
                    &&& #[trigger] old(self).slots()[Self::probe_pos(*val, a)] is None
                    &&& forall|b: nat|
                        b < a ==> #[trigger] old(self).slots()[Self::probe_pos(*val, b)] is Some
                    &&& final(self).slots() == old(self).slots().update(
                        Self::probe_pos(*val, a),
                        Some(*val),
                    )
                },
    {
        if self.has(val) {
            return true;
        }
        proof {
            assert(self.contents() =~= old(self).contents());
        }
        let ghost pre = *self;
        let home = H::hash(val, ELEMENT_COUNT);
        let mut index = home;
        let mut attempts: usize = 0;
        while attempts < ELEMENT_COUNT
            invariant
                home == H::spec_hash(*val, ELEMENT_COUNT),
                home < ELEMENT_COUNT,
                pre.inv(),
                *self == pre,
                pre.entries@ == old(self).entries@,
                pre.collisions == old(self).collisions + old(self).cost_from(*val, 0),
                !pre.contents().contains(*val),
                attempts <= ELEMENT_COUNT,
                index == Self::probe_pos(*val, attempts as nat),
                index < ELEMENT_COUNT,
                forall|b: nat| b < attempts ==> #[trigger] pre.entries@[Self::probe_pos(*val, b)] is Some,
            decreases ELEMENT_COUNT - attempts,
        {
            if self.entries[index].is_none() {
                self.entries.set(index, Some(*val));
                proof {
                    let a = attempts as nat;
                    assert(old(self).slots()[Self::probe_pos(*val, a)] is None);
                    assert(forall|b: nat|
                        b < a ==> #[trigger] old(self).slots()[Self::probe_pos(*val, b)] is Some);
                    Self::lemma_filled(pre, *self, *val, attempts as nat);
                    lemma_count_fill(pre.entries@, index as int, *val);
                    assert(pre.has_room_for(*val)) by {
                        assert(pre.slots()[Self::probe_pos(*val, attempts as nat)] is None);
                    }
                }
                return true;
            }
            proof {
                P::lemma_probe_bound((attempts + 1) as nat);
                assert((attempts + 1) * (attempts + 1) <= ELEMENT_COUNT * ELEMENT_COUNT)
                    by (nonlinear_arith)
                    requires attempts + 1 <= ELEMENT_COUNT;
                Self::lemma_probe_pos_range(*val, (attempts + 1) as nat);
            }
            attempts = attempts + 1;
            index = (home + P::probe(attempts)) % ELEMENT_COUNT;
        }
        false
    }

    /// Validates the budget only: the table has a fixed size, and is left as
    /// it is.
    fn resize_to_bytes(&mut self, bytes: usize, elements: usize) -> (r: Result<(), ConfigurationError>)
        ensures
            *final(self) == *old(self),
            r == (if elements > ELEMENT_COUNT {
                Err(ConfigurationError::TooManyElements)
            } else if !Self::fits_budget(bytes, elements) {
                Err(ConfigurationError::SizeMismatch)
            } else {
                Ok(())
            }),
    {
        if elements > ELEMENT_COUNT {
            return Err(ConfigurationError::TooManyElements);
        }
        let unit = core::mem::size_of::<Option<T>>();
        if unit > usize::MAX / ELEMENT_COUNT || unit * ELEMENT_COUNT != bytes {
            return Err(ConfigurationError::SizeMismatch);
        }
        Ok(())
    }
}

} // verus!
