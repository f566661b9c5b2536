use math_optim::algebra::group::Group;
use math_optim::data_structure::dsu::DSU;
use math_optim::ds::potential_dsu::PotentialDSU;

enum Sum {}

impl Group for Sum {
    type G = i64;

    fn identity_spec() -> i64 {
        0
    }

    fn op_spec(a: i64, b: i64) -> i64 {
        a + b
    }

    fn inv_spec(a: i64) -> i64 {
        -a
    }

    fn lemma_identity(_a: i64) {}

    fn lemma_associative(_a: i64, _b: i64, _c: i64) {}

    fn lemma_inverse(_a: i64) {}

    fn identity() -> i64 {
        0
    }

    fn op(a: &i64, b: &i64) -> i64 {
        a + b
    }

    fn inv(a: &i64) -> i64 {
        -a
    }
}

/// The permutations of three things, `op(a, b)` being `a`, then `b`.
enum Permutations {}

impl Group for Permutations {
    type G = [u8; 3];

    fn identity_spec() -> [u8; 3] {
        [0, 1, 2]
    }

    fn op_spec(a: [u8; 3], b: [u8; 3]) -> [u8; 3] {
        Self::op(&a, &b)
    }

    fn inv_spec(a: [u8; 3]) -> [u8; 3] {
        Self::inv(&a)
    }

    fn lemma_identity(_a: [u8; 3]) {}

    fn lemma_associative(_a: [u8; 3], _b: [u8; 3], _c: [u8; 3]) {}

    fn lemma_inverse(_a: [u8; 3]) {}

    fn identity() -> [u8; 3] {
        [0, 1, 2]
    }

    fn op(a: &[u8; 3], b: &[u8; 3]) -> [u8; 3] {
        [b[a[0] as usize], b[a[1] as usize], b[a[2] as usize]]
    }

    fn inv(a: &[u8; 3]) -> [u8; 3] {
        let mut back = [0; 3];
        for i in 0..3 {
            back[a[i] as usize] = i as u8;
        }
        back
    }
}

#[test]
fn group_division() {
    assert_eq!(Sum::div(&7, &3), 4);
    let swap = [1, 0, 2];
    let turn = [1, 2, 0];
    assert_eq!(Permutations::div(&swap, &swap), [0, 1, 2]);
    assert_eq!(Permutations::div(&swap, &turn), Permutations::op(&swap, &[2, 0, 1]));
    assert_ne!(Permutations::op(&swap, &turn), Permutations::op(&turn, &swap));
}

#[test]
fn union_and_find() {
    let mut dsu = DSU::new(5);
    assert_eq!(dsu.len(), 5);
    assert!(!dsu.is_empty());
    assert_eq!(dsu.num_sets(), 5);
    for x in 0..5 {
        assert_eq!(dsu.find(x), x);
        assert_eq!(dsu.set_size(x), 1);
    }
    assert!(dsu.union(0, 1));
    assert!(!dsu.union(1, 0));
    assert!(dsu.is_same(0, 1));
    assert!(!dsu.is_same(0, 2));
    assert_eq!(dsu.find(1), 0);
    assert_eq!(dsu.set_size(1), 2);
    assert_eq!(dsu.num_sets(), 4);
    assert!(dsu.union(2, 3));
    assert!(dsu.union(3, 4));
    assert_eq!(dsu.set_size(4), 3);
    assert_eq!(dsu.find(4), 2);
    // the smaller set joins the larger one
    assert!(dsu.union(0, 4));
    assert_eq!(dsu.find(0), 2);
    assert_eq!(dsu.find(1), 2);
    assert_eq!(dsu.set_size(0), 5);
    assert_eq!(dsu.num_sets(), 1);
    assert!(!dsu.union(1, 3));
}

#[test]
fn empty_union_find() {
    let dsu = DSU::new(0);
    assert_eq!(dsu.len(), 0);
    assert!(dsu.is_empty());
    assert_eq!(dsu.num_sets(), 0);
}

#[test]
fn union_find_agrees_with_labels() {
    let n = 60;
    let mut dsu = DSU::new(n);
    let mut label: Vec<usize> = (0..n).collect();
    let mut seed = 3u64;
    for _ in 0..100 {
        seed = seed.wrapping_mul(6364136223846793005).wrapping_add(1442695040888963407);
        let x = (seed >> 33) as usize % n;
        seed = seed.wrapping_mul(6364136223846793005).wrapping_add(1442695040888963407);
        let y = (seed >> 33) as usize % n;
        let merged = dsu.union(x, y);
        assert_eq!(merged, label[x] != label[y]);
        let (from, to) = (label[y], label[x]);
        for l in label.iter_mut() {
            if *l == from {
                *l = to;
            }
        }
        for a in 0..n {
            let size = label.iter().filter(|&&l| l == label[a]).count();
            assert_eq!(dsu.set_size(a), size);
            assert_eq!(dsu.is_same(a, x), label[a] == label[x]);
        }
        let mut distinct = label.clone();
        distinct.sort();
        distinct.dedup();
        assert_eq!(dsu.num_sets(), distinct.len());
    }
}

#[test]
fn potentials() {
    let mut dsu = PotentialDSU::<Sum>::new(4);
    assert_eq!(dsu.len(), 4);
    assert!(!dsu.is_empty());
    assert_eq!(dsu.num_sets(), 4);
    assert_eq!(dsu.potential(0, 1), None);
    assert_eq!(dsu.potential(2, 2), Some(0));
    assert!(dsu.union(0, 1, &5));
    assert_eq!(dsu.potential(0, 1), Some(5));
    assert_eq!(dsu.potential(1, 0), Some(-5));
    assert!(dsu.union(1, 2, &3));
    assert_eq!(dsu.potential(0, 2), Some(8));
    assert_eq!(dsu.potential(2, 0), Some(-8));
    assert!(dsu.union(0, 2, &8));
    assert!(!dsu.union(0, 2, &7));
    assert_eq!(dsu.potential(0, 2), Some(8));
    assert_eq!(dsu.potential(0, 3), None);
    assert_eq!(dsu.set_size(1), 3);
    assert_eq!(dsu.set_size(3), 1);
    assert_eq!(dsu.num_sets(), 2);
    assert_eq!(dsu.find(2), (0, 8));
    assert_eq!(dsu.find(3), (3, 0));
    // the smaller set joins the larger one, and its potentials are shifted
    assert!(dsu.union(3, 1, &-4));
    assert_eq!(dsu.potential(3, 1), Some(-4));
    assert_eq!(dsu.potential(3, 0), Some(-9));
    assert_eq!(dsu.potential(2, 3), Some(1));
    assert_eq!(dsu.find(3), (0, 9));
    assert_eq!(dsu.num_sets(), 1);
}

#[test]
fn potentials_in_a_group_that_is_not_commutative() {
    let swap = [1, 0, 2];
    let turn = [1, 2, 0];
    let mut dsu = PotentialDSU::<Permutations>::new(5);
    assert!(dsu.union(0, 1, &swap));
    assert!(dsu.union(1, 2, &turn));
    assert_eq!(dsu.potential(0, 2), Some(Permutations::op(&swap, &turn)));
    assert_ne!(dsu.potential(0, 2), Some(Permutations::op(&turn, &swap)));
    assert_eq!(dsu.potential(2, 0), Some(Permutations::inv(&Permutations::op(&swap, &turn))));
    assert!(dsu.union(3, 4, &turn));
    assert!(dsu.union(4, 2, &swap));
    // 3 -> 4 -> 2, and 0 -> 1 -> 2
    let from_three = Permutations::op(&turn, &swap);
    let from_zero = Permutations::op(&swap, &turn);
    assert_eq!(dsu.potential(3, 2), Some(from_three));
    assert_eq!(dsu.potential(3, 0), Some(Permutations::div(&from_three, &from_zero)));
    assert!(dsu.union(0, 3, &Permutations::div(&from_zero, &from_three)));
    assert!(!dsu.union(0, 3, &swap));
    assert_eq!(dsu.num_sets(), 1);
    assert_eq!(dsu.set_size(4), 5);
}

#[test]
fn empty_potentials() {
    let dsu = PotentialDSU::<Sum>::new(0);
    assert_eq!(dsu.len(), 0);
    assert!(dsu.is_empty());
    assert_eq!(dsu.num_sets(), 0);
}
