use union_find::QuickUnionUf;
use union_find::Union;
use union_find::UnionResult;

/// Union-by-size payload: the larger side survives and carries the total
/// number of merged elements.
#[derive(Clone, Debug, PartialEq)]
struct SetSize(usize);

impl Union for SetSize {
    fn union(left: Self, right: Self) -> UnionResult<Self> {
        let total = left.0 + right.0;
        if left.0 >= right.0 {
            UnionResult::Left(SetSize(total))
        } else {
            UnionResult::Right(SetSize(total))
        }
    }
}

/// Payload whose merge policy always keeps the left side, value included.
#[derive(Clone, Debug, PartialEq)]
struct KeepLeft(u32);

impl Union for KeepLeft {
    fn union(left: Self, _right: Self) -> UnionResult<Self> {
        UnionResult::Left(left)
    }
}

fn singletons(n: usize) -> QuickUnionUf<SetSize> {
    let mut values = Vec::new();
    for _ in 0..n {
        values.push(SetSize(1));
    }
    QuickUnionUf::construct_from(values)
}

#[test]
fn fresh_insert_resolves_to_itself() {
    let mut uf: QuickUnionUf<SetSize> = QuickUnionUf::construct_from(Vec::new());
    for expected in 0..8usize {
        let key = uf.insert(SetSize(1));
        assert_eq!(key, expected);
        assert_eq!(uf.find(key), key);
    }
}

#[test]
fn construct_from_yields_disjoint_singletons() {
    let mut uf = singletons(6);
    assert_eq!(uf.size(), 6);
    for k in 0..6usize {
        assert_eq!(uf.find(k), k);
        assert_eq!(*uf.get(k), SetSize(1));
    }
}

#[test]
fn union_of_distinct_roots_returns_true_and_joins() {
    let mut uf = singletons(4);
    assert!(uf.union(0, 1));
    assert_eq!(uf.find(0), uf.find(1));
    assert!(uf.union(1, 2));
    assert_eq!(uf.find(0), uf.find(2));
    assert_eq!(uf.find(3), 3);
}

#[test]
fn union_within_one_set_returns_false_and_changes_nothing() {
    let mut uf = singletons(3);
    assert!(uf.union(0, 1));
    let root_before = uf.find(0);
    let value_before = uf.get(0).clone();
    assert!(!uf.union(0, 1));
    assert!(!uf.union(1, 0));
    assert_eq!(uf.find(0), root_before);
    assert_eq!(uf.find(1), root_before);
    assert_eq!(*uf.get(0), value_before);
    assert_eq!(uf.find(2), 2);
}

#[test]
fn size_counts_every_value_ever_added() {
    let mut uf: QuickUnionUf<SetSize> = QuickUnionUf::construct_from(vec![
        SetSize(1),
        SetSize(1),
    ]);
    assert_eq!(uf.size(), 2);
    uf.insert(SetSize(1));
    assert_eq!(uf.size(), 3);
    uf.extend(vec![SetSize(1), SetSize(1), SetSize(1)]);
    assert_eq!(uf.size(), 6);
    // Merging sets never changes the element count.
    uf.union(0, 5);
    assert_eq!(uf.size(), 6);
}

#[test]
fn find_is_idempotent_between_unions() {
    let mut uf = singletons(5);
    uf.union(0, 1);
    uf.union(1, 2);
    let root = uf.find(0);
    for _ in 0..4 {
        assert_eq!(uf.find(0), root);
        assert_eq!(uf.find(1), root);
        assert_eq!(uf.find(2), root);
    }
    assert_eq!(uf.find(3), 3);
    assert_eq!(uf.find(4), 4);
}

#[test]
fn five_singletons_collapse_to_two_then_join() {
    let mut uf = singletons(5);
    assert!(uf.union(0, 1));
    assert!(uf.union(2, 3));
    assert_eq!(uf.find(0), uf.find(1));
    assert_eq!(uf.find(2), uf.find(3));
    assert_ne!(uf.find(0), uf.find(2));
    assert_ne!(uf.find(0), uf.find(4));
    assert_ne!(uf.find(2), uf.find(4));
    assert_eq!(uf.find(4), 4);

    assert!(uf.union(0, 2));
    let root = uf.find(0);
    assert_eq!(uf.find(1), root);
    assert_eq!(uf.find(2), root);
    assert_eq!(uf.find(3), root);
    assert_eq!(uf.find(4), 4);
}

#[test]
fn survive_left_keeps_the_left_root_and_value() {
    let mut uf: QuickUnionUf<KeepLeft> = QuickUnionUf::construct_from(vec![
        KeepLeft(10),
        KeepLeft(20),
        KeepLeft(30),
    ]);
    let left_root = uf.find(0);
    let left_value = uf.get(0).clone();
    assert!(uf.union(0, 1));
    // The left side survived: both keys resolve to the old left root and
    // read the value the policy produced from (left, right) = (10, 20).
    assert_eq!(uf.find(0), left_root);
    assert_eq!(uf.find(1), left_root);
    assert_eq!(*uf.get(0), left_value);
    assert_eq!(*uf.get(1), left_value);
    assert_eq!(*uf.get(2), KeepLeft(30));
}

#[test]
fn union_by_size_keeps_the_larger_side() {
    let mut uf = singletons(6);
    uf.union(0, 1);
    uf.union(0, 2);
    // The set {0, 1, 2} of size three absorbs the singleton {5}: the root
    // of the larger side survives.
    let big_root = uf.find(0);
    assert!(uf.union(5, 0));
    assert_eq!(uf.find(5), big_root);
    assert_eq!(*uf.get(5), SetSize(4));
    assert_eq!(*uf.get(0), SetSize(4));
}

#[test]
fn get_mut_edits_the_whole_set_payload() {
    let mut uf = singletons(4);
    uf.union(0, 1);
    uf.get_mut(1).0 = 17;
    assert_eq!(*uf.get(0), SetSize(17));
    assert_eq!(*uf.get(1), SetSize(17));
    assert_eq!(*uf.get(2), SetSize(1));
}

#[test]
fn duplicate_is_unaffected_by_later_union() {
    let mut original = singletons(4);
    original.union(0, 1);
    let mut copy = original.clone();
    assert!(original.union(2, 3));
    // The copy still sees 2 and 3 as disjoint singletons.
    assert_ne!(copy.find(2), copy.find(3));
    assert_eq!(copy.find(2), 2);
    assert_eq!(copy.find(3), 3);
    assert_eq!(*copy.get(2), SetSize(1));
    assert_eq!(copy.find(0), copy.find(1));
    assert_eq!(*copy.get(0), SetSize(2));
    // And edits to the copy leave the original alone.
    let mut copy2 = original.clone();
    copy2.union(0, 2);
    copy2.get_mut(0).0 = 99;
    assert_eq!(*original.get(0), SetSize(2));
    assert_ne!(original.find(0), original.find(2));
}

#[test]
fn extend_preserves_existing_sets() {
    let mut uf = singletons(3);
    uf.union(0, 1);
    let root = uf.find(0);
    uf.extend(vec![SetSize(1), SetSize(1)]);
    assert_eq!(uf.size(), 5);
    assert_eq!(uf.find(0), root);
    assert_eq!(uf.find(1), root);
    assert_eq!(*uf.get(0), SetSize(2));
    // The appended elements are fresh singletons.
    assert_eq!(uf.find(3), 3);
    assert_eq!(uf.find(4), 4);
    assert_eq!(*uf.get(3), SetSize(1));
}

#[test]
fn long_chain_still_resolves_to_one_root() {
    let mut uf = singletons(64);
    for k in 1..64usize {
        assert!(uf.union(k - 1, k));
    }
    let root = uf.find(0);
    for k in 0..64usize {
        assert_eq!(uf.find(k), root);
        assert_eq!(*uf.get(k), SetSize(64));
    }
}
