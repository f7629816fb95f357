use std::collections::HashSet;

use ipfish::bitset::BitSet;

#[test]
fn basic_bitset() {
    let mut my_bitset: BitSet = BitSet::new();

    my_bitset.insert(7);
    my_bitset.insert(12);

    assert_eq!(my_bitset.contains(7), true);
    assert_eq!(my_bitset.contains(12), true);
    assert_eq!(my_bitset.contains(1), false);
    assert_eq!(my_bitset.contains(0), false);
    assert_eq!(my_bitset.contains(24), false);

    my_bitset.insert(0);
    assert_eq!(my_bitset.contains(0), true);

    assert_eq!(my_bitset.len(), 3);

    let mut hashset: HashSet<usize> = HashSet::new();

    for n in 0..64 {
        if my_bitset.contains(n) {
            hashset.insert(n);
        }
    }
    assert_eq!(hashset.contains(&7), true);
    assert_eq!(hashset.contains(&12), true);
    assert_eq!(hashset.contains(&0), true);
    assert_eq!(hashset.contains(&3), false);
    assert_eq!(hashset.contains(&14), false);
}

#[test]
fn bitset_first_and_union() {
    let mut a: BitSet = BitSet::new();
    assert_eq!(a.first(), None);
    assert!(a.is_empty());
    a.insert(9);
    a.insert(3);
    assert_eq!(a.first(), Some(3));
    let mut b: BitSet = BitSet::new();
    b.insert(1);
    b.union_with(&a);
    assert_eq!(b.first(), Some(1));
    assert_eq!(b.len(), 3);
    assert!(b.contains(9));
    assert!(b.within_single(9) == false);
    let mut c: BitSet = BitSet::new();
    c.insert(5);
    assert!(c.within_single(5));
}
