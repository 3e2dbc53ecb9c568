use timely::progress::frontier::{Antichain, MutableAntichain};
use timely::progress::timestamp::{same, PartialOrder, PathSummary, Product, Timestamp};

fn pairs(chain: &Antichain<Product<u64, u64>>) -> Vec<(u64, u64)> {
    let mut list: Vec<(u64, u64)> = chain.elements().iter().map(|p| (p.outer, p.inner)).collect();
    list.sort();
    list
}

fn pairwise_incomparable(chain: &Antichain<Product<u64, u64>>) -> bool {
    let list = chain.elements();
    for (i, a) in list.iter().enumerate() {
        for (j, b) in list.iter().enumerate() {
            if i != j && a.less_equal(b) {
                return false;
            }
        }
    }
    true
}

#[test]
fn order_of_integers_and_of_pairs() {
    assert!(3u64.less_equal(&3));
    assert!(3u64.less_equal(&4));
    assert!(!4u64.less_equal(&3));
    assert!(Product::new(1u64, 2u64).less_equal(&Product::new(1, 2)));
    assert!(Product::new(1u64, 2u64).less_equal(&Product::new(2, 2)));
    assert!(!Product::new(1u64, 2u64).less_equal(&Product::new(2, 1)));
    assert!(!Product::new(2u64, 1u64).less_equal(&Product::new(1, 2)));
    assert!(same(&Product::new(2u64, 1u64), &Product::new(2, 1)));
    assert!(!same(&Product::new(2u64, 1u64), &Product::new(1, 2)));
}

#[test]
fn least_times() {
    assert_eq!(<u64 as Timestamp>::minimum(), 0);
    let least = <Product<u64, u64> as Timestamp>::minimum();
    assert_eq!((least.outer, least.inner), (0, 0));
    assert!(least.less_equal(&Product::new(0, 7)));
}

#[test]
fn summaries_advance_times() {
    assert_eq!(1u64.results_in(&5), 6);
    assert_eq!(0u64.results_in(&5), 5);
    assert_eq!(1u64.results_in(&u64::MAX), u64::MAX);
    assert_eq!(2u64.followed_by(&3), 5);
    assert_eq!(u64::MAX.followed_by(&3), u64::MAX);
    assert_eq!(<u64 as PathSummary<u64>>::identity(), 0);
    let local = Product::new(0u64, 1u64);
    let later = local.results_in(&Product::new(4u64, 9u64));
    assert_eq!((later.outer, later.inner), (4, 10));
    let both = local.followed_by(&Product::new(2, 2));
    assert_eq!((both.outer, both.inner), (2, 3));
}

#[test]
fn empty_antichain_admits_nothing() {
    let chain: Antichain<u64> = Antichain::new();
    assert!(chain.is_empty());
    assert!(!chain.contains_leq(&0));
    assert!(!chain.contains_leq(&u64::MAX));
    assert_eq!(chain.elements().len(), 0);
}

#[test]
fn from_elem_holds_one_member() {
    let chain = Antichain::from_elem(5u64);
    assert!(!chain.is_empty());
    assert_eq!(chain.elements().clone(), vec![5]);
    assert!(!chain.contains_leq(&4));
    assert!(chain.contains_leq(&5));
    assert!(chain.contains_leq(&6));
}

#[test]
fn insert_of_a_later_time_changes_nothing() {
    let mut chain = Antichain::from_elem(5u64);
    assert!(!chain.insert(7));
    assert!(!chain.insert(5));
    assert_eq!(chain.elements().clone(), vec![5]);
}

#[test]
fn insert_of_an_earlier_time_replaces() {
    let mut chain = Antichain::from_elem(5u64);
    assert!(chain.insert(3));
    assert_eq!(chain.elements().clone(), vec![3]);
}

#[test]
fn incomparable_times_stand_side_by_side() {
    let mut chain: Antichain<Product<u64, u64>> = Antichain::new();
    assert!(chain.insert(Product::new(1, 3)));
    assert!(chain.insert(Product::new(3, 1)));
    assert!(chain.insert(Product::new(2, 2)));
    assert_eq!(pairs(&chain), vec![(1, 3), (2, 2), (3, 1)]);
    assert!(!chain.insert(Product::new(2, 3)));
    assert_eq!(pairs(&chain), vec![(1, 3), (2, 2), (3, 1)]);
    assert!(chain.insert(Product::new(1, 1)));
    assert_eq!(pairs(&chain), vec![(1, 1)]);
}

#[test]
fn insert_replaces_only_what_it_precedes() {
    let mut chain: Antichain<Product<u64, u64>> = Antichain::new();
    chain.insert(Product::new(0, 5));
    chain.insert(Product::new(3, 3));
    chain.insert(Product::new(5, 0));
    assert!(chain.insert(Product::new(2, 2)));
    assert_eq!(pairs(&chain), vec![(0, 5), (2, 2), (5, 0)]);
}

#[test]
fn any_sequence_of_inserts_leaves_an_antichain() {
    let mut chain: Antichain<Product<u64, u64>> = Antichain::new();
    let mut seed: u64 = 12345;
    let mut inserted = Vec::new();
    for _ in 0..200 {
        seed = seed.wrapping_mul(6364136223846793005).wrapping_add(1442695040888963407);
        let a = (seed >> 33) % 8;
        let b = (seed >> 17) % 8;
        chain.insert(Product::new(a, b));
        inserted.push(Product::new(a, b));
        assert!(pairwise_incomparable(&chain));
        for probe in inserted.iter() {
            assert!(chain.contains_leq(probe));
        }
    }
    for outer in 0..8u64 {
        for inner in 0..8u64 {
            let probe = Product::new(outer, inner);
            let expected = inserted.iter().any(|x| x.less_equal(&probe));
            assert_eq!(chain.contains_leq(&probe), expected);
        }
    }
}

#[test]
fn contains_leq_tells_what_is_still_possible() {
    let mut chain: Antichain<Product<u64, u64>> = Antichain::new();
    chain.insert(Product::new(1, 3));
    chain.insert(Product::new(3, 1));
    assert!(chain.contains_leq(&Product::new(1, 3)));
    assert!(chain.contains_leq(&Product::new(4, 1)));
    assert!(chain.contains_leq(&Product::new(3, 3)));
    assert!(!chain.contains_leq(&Product::new(2, 2)));
    assert!(!chain.contains_leq(&Product::new(0, 9)));
}

#[test]
fn mutable_antichain_counts_back_its_frontier() {
    let mut frontier: MutableAntichain<u64> = MutableAntichain::new();
    assert!(frontier.is_empty());
    assert!(!frontier.contains_leq(&10));
    frontier.update(&3, 1);
    frontier.update(&5, 1);
    assert!(frontier.contains_leq(&3));
    assert!(frontier.contains_leq(&4));
    assert!(!frontier.contains_leq(&2));
    assert_eq!(frontier.frontier().elements().clone(), vec![3]);
}

#[test]
fn removing_the_least_time_exposes_the_next() {
    let mut frontier: MutableAntichain<u64> = MutableAntichain::new();
    frontier.update(&3, 2);
    frontier.update(&5, 1);
    frontier.update(&3, -1);
    assert_eq!(frontier.frontier().elements().clone(), vec![3]);
    frontier.update(&3, -1);
    assert_eq!(frontier.frontier().elements().clone(), vec![5]);
    assert!(!frontier.contains_leq(&4));
    assert!(frontier.contains_leq(&5));
    frontier.update(&5, -1);
    assert!(frontier.is_empty());
    assert!(frontier.frontier().is_empty());
    assert!(!frontier.contains_leq(&u64::MAX));
}

#[test]
fn negative_counts_are_not_in_the_frontier() {
    let mut frontier: MutableAntichain<u64> = MutableAntichain::new();
    frontier.update(&2, -1);
    frontier.update(&4, 1);
    assert!(!frontier.contains_leq(&3));
    assert_eq!(frontier.frontier().elements().clone(), vec![4]);
    frontier.update(&2, 2);
    assert_eq!(frontier.frontier().elements().clone(), vec![2]);
}

#[test]
fn update_from_moves_a_ledger_into_the_frontier() {
    let mut deltas = timely::progress::count_map::CountMap::new();
    deltas.update(&1u64, 1);
    deltas.update(&0u64, -1);
    let mut frontier: MutableAntichain<u64> = MutableAntichain::new();
    frontier.update(&0, 1);
    frontier.update_from(&mut deltas);
    assert!(deltas.is_empty());
    assert_eq!(frontier.frontier().elements().clone(), vec![1]);
}
