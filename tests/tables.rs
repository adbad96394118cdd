use hashset::{
    fits, separate_chaining_buckets, CoalescedTable, ConfigurationError, DefaultHashTableBuilder,
    DirectChainingTable, HashTable, HashTableBuilder, LinearProber, LinkedList, ModHash, MulHash,
    OpenAddressingTable, QuadraticProber, SeparateChainingTable, TriangularProber, XorShiftHash,
    ELEMENT_COUNT,
};

type OpenLinear = OpenAddressingTable<u32, LinearProber, ModHash>;

#[test]
fn linked_list_push_and_contains() {
    let mut list: LinkedList<u32> = LinkedList::Nil;
    assert!(!list.contains(&1));
    list.push(1);
    list.push(2);
    list.push(3);
    assert!(list.contains(&1));
    assert!(list.contains(&3));
    assert!(!list.contains(&4));
    match &list {
        LinkedList::Cons(first, _) => assert_eq!(*first, 1),
        LinkedList::Nil => panic!("list is empty"),
    }
}

fn inserted_keys_are_found<T: HashTable<u32>>(mut table: T) {
    let keys = [0u32, 1, 2, 32768, 65536, 12345, u32::MAX];
    for k in keys {
        assert!(table.insert(&k));
        assert!(table.has(&k));
    }
    for k in keys {
        assert!(table.has(&k));
    }
}

#[test]
fn every_table_finds_what_it_inserted() {
    inserted_keys_are_found(OpenLinear::new());
    inserted_keys_are_found(OpenAddressingTable::<u32, QuadraticProber, MulHash>::new());
    inserted_keys_are_found(OpenAddressingTable::<u32, TriangularProber, XorShiftHash>::new());
    inserted_keys_are_found(DirectChainingTable::<u32, ModHash>::with_size(3));
    inserted_keys_are_found(SeparateChainingTable::<u32, XorShiftHash>::with_size(2));
    inserted_keys_are_found(CoalescedTable::<u32, MulHash>::with_size(16));
}

fn insert_twice_is_idempotent<T: HashTable<u32>>(mut table: T) {
    assert!(table.insert(&7));
    assert!(table.insert(&7));
    assert!(table.has(&7));
    table.reset_collisions();
    assert!(table.insert(&7));
    assert!(table.has(&7));
}

#[test]
fn insert_is_idempotent() {
    insert_twice_is_idempotent(OpenLinear::new());
    insert_twice_is_idempotent(DirectChainingTable::<u32, ModHash>::with_size(1));
    insert_twice_is_idempotent(SeparateChainingTable::<u32, ModHash>::with_size(1));
    insert_twice_is_idempotent(CoalescedTable::<u32, ModHash>::with_size(4));
}

#[test]
fn open_addressing_counts_probe_collisions() {
    let mut t = OpenLinear::new();
    assert!(t.insert(&0));
    assert!(t.insert(&32768));
    assert!(t.insert(&65536));
    t.reset_collisions();
    assert_eq!(t.get_collisions(), 0);
    assert!(t.has(&0));
    assert_eq!(t.get_collisions(), 0);
    t.reset_collisions();
    assert!(t.has(&65536));
    assert_eq!(t.get_collisions(), 2);
    t.reset_collisions();
    assert!(!t.has(&98304));
    assert_eq!(t.get_collisions(), 3);
}

#[test]
fn open_addressing_full_table_refuses_new_key() {
    let mut t = OpenLinear::new();
    for k in 0..ELEMENT_COUNT as u32 {
        assert!(t.insert(&k));
    }
    assert!(!t.insert(&(ELEMENT_COUNT as u32)));
    assert!(!t.insert(&123456));
    assert!(t.insert(&5));
    assert!(t.has(&(ELEMENT_COUNT as u32 - 1)));
}

fn last_free_bucket_is_reached<T: HashTable<u32>>(mut t: T) {
    // every bucket but 5 holds the key equal to its index
    for k in 0..ELEMENT_COUNT as u32 {
        if k != 5 {
            assert!(t.insert(&k));
        }
    }
    // home bucket 10: the probe sequence must reach bucket 5
    let key = ELEMENT_COUNT as u32 + 10;
    assert!(t.insert(&key));
    assert!(t.has(&key));
    assert!(!t.insert(&(ELEMENT_COUNT as u32 + 11)));
}

#[test]
fn triangular_probing_reaches_every_bucket() {
    last_free_bucket_is_reached(OpenAddressingTable::<u32, TriangularProber, ModHash>::new());
}

#[test]
fn linear_probing_reaches_every_bucket() {
    last_free_bucket_is_reached(OpenLinear::new());
}

#[test]
fn triangular_probing_fills_table_from_one_home() {
    let mut t = OpenAddressingTable::<u32, TriangularProber, ModHash>::new();
    // keys 0, 32768, 65536, ... all have home bucket 0
    for i in 0..64u32 {
        assert!(t.insert(&(i * ELEMENT_COUNT as u32)));
    }
    t.reset_collisions();
    assert!(t.has(&(3 * ELEMENT_COUNT as u32)));
    assert_eq!(t.get_collisions(), 3);
}

#[test]
fn quadratic_probing_may_refuse_with_free_buckets() {
    let mut t = OpenAddressingTable::<u32, QuadraticProber, ModHash>::new();
    // every key with home bucket 0 lands on a bucket that is a square
    let mut refused = false;
    let mut stored = 0usize;
    for i in 0..ELEMENT_COUNT as u32 {
        if t.insert(&(i * ELEMENT_COUNT as u32)) {
            stored += 1;
        } else {
            refused = true;
            break;
        }
    }
    assert!(refused);
    assert!(stored < ELEMENT_COUNT);
}

#[test]
fn open_addressing_resize_validates_budget() {
    let mut t = OpenLinear::new();
    assert!(t.insert(&9));
    let exact = ELEMENT_COUNT * std::mem::size_of::<Option<u32>>();
    assert_eq!(exact, ELEMENT_COUNT << 3);
    assert_eq!(t.resize_to_bytes(exact, 100), Ok(()));
    assert!(t.has(&9));
    assert_eq!(t.resize_to_bytes(exact - 1, 100), Err(ConfigurationError::SizeMismatch));
    assert_eq!(t.resize_to_bytes(exact + 8, 100), Err(ConfigurationError::SizeMismatch));
    assert_eq!(
        t.resize_to_bytes(exact, ELEMENT_COUNT + 1),
        Err(ConfigurationError::TooManyElements)
    );
    assert_eq!(t.resize_to_bytes(exact, ELEMENT_COUNT), Ok(()));
}

#[test]
fn direct_chaining_counts_list_collisions() {
    let mut t = DirectChainingTable::<u32, ModHash>::with_size(10);
    assert!(t.insert(&3));
    assert!(t.insert(&13));
    assert!(t.insert(&23));
    t.reset_collisions();
    assert!(t.has(&23));
    assert_eq!(t.get_collisions(), 2);
    t.reset_collisions();
    assert!(!t.has(&33));
    assert_eq!(t.get_collisions(), 3);
    t.reset_collisions();
    assert!(!t.has(&4));
    assert_eq!(t.get_collisions(), 0);
}

#[test]
fn chaining_never_refuses() {
    let mut d = DirectChainingTable::<u32, ModHash>::with_size(1);
    let mut s = SeparateChainingTable::<u32, ModHash>::with_size(1);
    for k in 0..2000u32 {
        assert!(d.insert(&k));
        assert!(s.insert(&k));
    }
    assert!(d.has(&1999));
    assert!(s.has(&0));
    assert!(!s.has(&2000));
}

#[test]
fn direct_chaining_resize_follows_byte_model() {
    assert_eq!(std::mem::size_of::<LinkedList<u32>>(), 16);
    assert_eq!(std::mem::size_of::<Box<LinkedList<u32>>>(), 8);
    let mut t = DirectChainingTable::<u32, ModHash>::with_size(4);
    // (1000 - 16 * 10) / 8 = 105 buckets
    assert_eq!(t.resize_to_bytes(1000, 10), Ok(()));
    assert!(t.insert(&0));
    assert!(t.insert(&105));
    assert!(t.insert(&104));
    t.reset_collisions();
    assert!(t.has(&105));
    assert_eq!(t.get_collisions(), 1);
    assert_eq!(t.resize_to_bytes(168, 10), Ok(()));
    assert!(!t.has(&105));
    assert_eq!(t.resize_to_bytes(167, 10), Err(ConfigurationError::BudgetTooSmall));
    assert_eq!(t.resize_to_bytes(100, 10), Err(ConfigurationError::BudgetTooSmall));
    assert_eq!(t.resize_to_bytes(usize::MAX, usize::MAX), Err(ConfigurationError::BudgetTooSmall));
}

#[test]
fn separate_chaining_counts_slot_and_list() {
    let mut t = SeparateChainingTable::<u32, ModHash>::with_size(10);
    t.reset_collisions();
    assert!(!t.has(&5));
    assert_eq!(t.get_collisions(), 0);
    assert!(t.insert(&5));
    assert!(t.insert(&15));
    assert!(t.insert(&25));
    t.reset_collisions();
    assert!(t.has(&5));
    assert_eq!(t.get_collisions(), 0);
    assert!(t.has(&25));
    assert_eq!(t.get_collisions(), 2);
    t.reset_collisions();
    assert!(!t.has(&35));
    assert_eq!(t.get_collisions(), 3);
}

#[test]
fn separate_chaining_resize_follows_byte_model() {
    let unit = std::mem::size_of::<(Option<u32>, Box<LinkedList<u32>>)>();
    assert_eq!(unit, 16);
    let mut t = SeparateChainingTable::<u32, ModHash>::with_size(4);
    // no keys expected: one bucket per unit
    assert_eq!(t.resize_to_bytes(100 * unit, 0), Ok(()));
    assert!(t.insert(&0));
    assert!(t.insert(&100));
    assert!(t.insert(&99));
    t.reset_collisions();
    assert!(t.has(&100));
    assert_eq!(t.get_collisions(), 1);
    // 100 units for 50 keys: 89 buckets
    assert_eq!(t.resize_to_bytes(100 * unit, 50), Ok(()));
    assert!(!t.has(&0));
    assert!(t.insert(&0));
    assert!(t.insert(&89));
    t.reset_collisions();
    assert!(t.has(&89));
    assert_eq!(t.get_collisions(), 1);
    assert_eq!(t.resize_to_bytes(10 * unit, 11), Err(ConfigurationError::BudgetTooSmall));
    assert_eq!(t.resize_to_bytes(unit - 1, 0), Err(ConfigurationError::BudgetTooSmall));
}

#[test]
fn separate_chaining_bucket_search() {
    assert_eq!(separate_chaining_buckets(100, 0), Some(100));
    assert_eq!(separate_chaining_buckets(100, 50), Some(89));
    assert_eq!(separate_chaining_buckets(10, 10), Some(6));
    assert_eq!(separate_chaining_buckets(10, 11), None);
    assert_eq!(separate_chaining_buckets(0, 0), None);
    assert_eq!(separate_chaining_buckets(2048, 1024), Some(1806));
    assert_eq!(separate_chaining_buckets(16384, 8192), Some(14445));
    assert!(fits(89, 50, 100));
    assert!(!fits(90, 50, 100));
    assert!(fits(1, 1, 1));
    assert!(!fits(1, 0, 0));
}

#[test]
fn coalesced_links_chains_through_free_buckets() {
    let mut t = CoalescedTable::<u32, ModHash>::with_size(4);
    assert!(t.insert(&0));
    assert!(t.insert(&4));
    assert!(t.insert(&1));
    assert!(t.insert(&2));
    t.reset_collisions();
    assert!(t.has(&0));
    assert_eq!(t.get_collisions(), 0);
    assert!(t.has(&4));
    assert_eq!(t.get_collisions(), 1);
    t.reset_collisions();
    assert!(t.has(&2));
    assert_eq!(t.get_collisions(), 1);
    t.reset_collisions();
    assert!(!t.has(&8));
    assert_eq!(t.get_collisions(), 4);
}

#[test]
fn coalesced_full_table_accepts_without_storing() {
    let mut t = CoalescedTable::<u32, ModHash>::with_size(4);
    for k in [0u32, 4, 1, 2] {
        assert!(t.insert(&k));
    }
    assert!(t.insert(&3));
    assert!(t.insert(&7));
    for k in [0u32, 4, 1, 2] {
        assert!(t.has(&k));
    }
    assert!(!t.has(&3));
}

#[test]
fn coalesced_lookup_claims_free_home_bucket() {
    let mut t = CoalescedTable::<u32, ModHash>::with_size(4);
    t.reset_collisions();
    assert!(t.has(&1));
    assert_eq!(t.get_collisions(), 0);
    assert!(t.has(&1));
    assert!(t.insert(&5));
    t.reset_collisions();
    assert!(t.has(&5));
    assert_eq!(t.get_collisions(), 1);
}

#[test]
fn coalesced_resize_follows_byte_model() {
    let unit = std::mem::size_of::<Option<(u32, Option<usize>)>>();
    assert_eq!(unit, 24);
    let mut t = CoalescedTable::<u32, ModHash>::with_size(4);
    assert_eq!(t.resize_to_bytes(10 * unit, 10), Ok(()));
    assert!(t.insert(&0));
    assert!(t.insert(&10));
    t.reset_collisions();
    assert!(t.has(&10));
    assert_eq!(t.get_collisions(), 1);
    assert_eq!(t.resize_to_bytes(10 * unit - 1, 10), Err(ConfigurationError::BudgetTooSmall));
    assert!(t.has(&10));
    assert_eq!(t.resize_to_bytes(unit - 1, 0), Err(ConfigurationError::BudgetTooSmall));
}

#[test]
fn reset_then_get_is_zero() {
    let mut t = DirectChainingTable::<u32, ModHash>::with_size(1);
    for k in 0..10u32 {
        t.insert(&k);
    }
    assert!(!t.has(&10));
    assert_eq!(t.get_collisions(), 10);
    t.reset_collisions();
    assert_eq!(t.get_collisions(), 0);
}

#[test]
fn builder_makes_empty_tables() {
    let b = DefaultHashTableBuilder::<u32, CoalescedTable<u32, XorShiftHash>>::new();
    let mut t = b.build();
    assert_eq!(t.get_collisions(), 0);
    assert!(t.insert(&3));
    assert!(t.has(&3));
    let mut u = b.build();
    assert!(u.has(&7));
    assert_eq!(u.get_collisions(), 0);
    let d = DefaultHashTableBuilder::<u32, SeparateChainingTable<u32, MulHash>>::default();
    let mut s = d.build();
    assert!(!s.has(&3));
}

#[test]
fn default_tables_are_empty() {
    let mut o: OpenLinear = Default::default();
    let mut d: DirectChainingTable<u32, ModHash> = Default::default();
    let mut s: SeparateChainingTable<u32, ModHash> = Default::default();
    let mut c: CoalescedTable<u32, ModHash> = Default::default();
    assert!(!o.has(&1));
    assert!(!d.has(&1));
    assert!(!s.has(&1));
    assert_eq!(c.get_collisions(), 0);
    assert!(d.insert(&(ELEMENT_COUNT as u32 + 1)));
    assert!(d.insert(&1));
    d.reset_collisions();
    assert!(d.has(&1));
    assert_eq!(d.get_collisions(), 1);
}
