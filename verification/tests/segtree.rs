use math_optim::algebra::monoid::Monoid;
use math_optim::algebra::monoid_impl::{Affine, AffineMonoid};
use math_optim::ds::range::Bound;
use math_optim::ds::segtree::SegTree;

enum Sum {}

impl Monoid for Sum {
    type S = i64;

    fn identity_spec() -> i64 {
        0
    }

    fn op_spec(a: i64, b: i64) -> i64 {
        a + b
    }

    fn lemma_identity(_a: i64) {}

    fn lemma_associative(_a: i64, _b: i64, _c: i64) {}

    fn identity() -> i64 {
        0
    }

    fn op(a: &i64, b: &i64) -> i64 {
        a + b
    }
}

enum Concat {}

impl Monoid for Concat {
    type S = String;

    fn identity_spec() -> String {
        String::new()
    }

    fn op_spec(a: String, b: String) -> String {
        format!("{}{}", a, b)
    }

    fn lemma_identity(_a: String) {}

    fn lemma_associative(_a: String, _b: String, _c: String) {}

    fn identity() -> String {
        String::new()
    }

    fn op(a: &String, b: &String) -> String {
        format!("{}{}", a, b)
    }
}

fn letters(from: u8, n: usize) -> Vec<String> {
    (0..n).map(|i| ((from + i as u8) as char).to_string()).collect()
}

#[test]
fn point_update_range_sum() {
    let mut tree = SegTree::<Sum>::from_vec(&[1, 2, 3, 4, 5]);
    assert_eq!(tree.range_fold(Bound::Included(1), Bound::Excluded(4)), 9);
    tree.set(0, 10);
    assert_eq!(tree.range_fold(Bound::Included(0), Bound::Excluded(2)), 12);
}

#[test]
fn concatenation_keeps_the_order() {
    let tree = SegTree::<Concat>::from_vec(&letters(b'a', 3));
    assert_eq!(tree.range_fold(Bound::Included(0), Bound::Excluded(3)), "abc");
    assert_eq!(tree.all_fold(), "abc");
}

#[test]
fn new_tree_folds_to_the_identity() {
    for n in 0..20 {
        let tree = SegTree::<Sum>::new(n);
        assert_eq!(tree.range_fold(Bound::Unbounded, Bound::Unbounded), 0);
        assert_eq!(tree.all_fold(), 0);
        let words = SegTree::<Concat>::new(n);
        assert_eq!(words.range_fold(Bound::Unbounded, Bound::Unbounded), "");
    }
}

#[test]
fn set_then_get_and_fold_one() {
    for n in 1..12 {
        let mut tree = SegTree::<Sum>::new(n);
        for i in 0..n {
            let x = 100 + i as i64;
            tree.set(i, x);
            assert_eq!(*tree.get(i), x);
            assert_eq!(tree.range_fold(Bound::Included(i), Bound::Excluded(i + 1)), x);
            assert_eq!(tree.range_fold(Bound::Included(i), Bound::Included(i)), x);
        }
    }
}

#[test]
fn fold_splits_at_any_point() {
    for n in 0..10 {
        let tree = SegTree::<Concat>::from_vec(&letters(b'a', n));
        for l in 0..=n {
            for r in l..=n {
                let whole = tree.range_fold(Bound::Included(l), Bound::Excluded(r));
                let expected: String = letters(b'a', n)[l..r].concat();
                assert_eq!(whole, expected);
                for m in l..=r {
                    let left = tree.range_fold(Bound::Included(l), Bound::Excluded(m));
                    let right = tree.range_fold(Bound::Included(m), Bound::Excluded(r));
                    assert_eq!(format!("{}{}", left, right), whole);
                }
            }
        }
    }
}

#[test]
fn all_forms_of_bounds() {
    let tree = SegTree::<Concat>::from_vec(&letters(b'a', 6));
    assert_eq!(tree.range_fold(Bound::Unbounded, Bound::Unbounded), "abcdef");
    assert_eq!(tree.range_fold(Bound::Unbounded, Bound::Excluded(2)), "ab");
    assert_eq!(tree.range_fold(Bound::Unbounded, Bound::Included(2)), "abc");
    assert_eq!(tree.range_fold(Bound::Included(2), Bound::Unbounded), "cdef");
    assert_eq!(tree.range_fold(Bound::Excluded(2), Bound::Unbounded), "def");
    assert_eq!(tree.range_fold(Bound::Excluded(2), Bound::Included(4)), "de");
    assert_eq!(tree.range_fold(Bound::Included(3), Bound::Excluded(3)), "");
    assert_eq!(tree.range_fold(Bound::Included(6), Bound::Unbounded), "");
}

#[test]
fn empty_tree() {
    let tree = SegTree::<Concat>::from_vec(&[]);
    assert_eq!(tree.range_fold(Bound::Unbounded, Bound::Unbounded), "");
    assert_eq!(tree.all_fold(), "");
}

#[test]
fn set_in_the_middle_of_a_word() {
    let mut tree = SegTree::<Concat>::from_vec(&letters(b'a', 5));
    tree.set(2, "X".to_string());
    assert_eq!(tree.all_fold(), "abXde");
    assert_eq!(tree.range_fold(Bound::Included(1), Bound::Excluded(4)), "bXd");
    assert_eq!(*tree.get(2), "X");
    assert_eq!(*tree.get(3), "d");
}

#[test]
fn affine_monoid_composes_left_to_right() {
    let f = Affine(2i64, 3i64);
    let g = Affine(5i64, 7i64);
    // g(f(x)) = 5 * (2x + 3) + 7 = 10x + 22
    assert_eq!(AffineMonoid::<i64>::op(&f, &g), Affine(10, 22));
    assert_eq!(AffineMonoid::<i64>::op(&g, &f), Affine(10, 17));
    assert_eq!(AffineMonoid::<i64>::identity(), Affine(1, 0));
    assert_eq!(AffineMonoid::<i64>::op(&f, &AffineMonoid::<i64>::identity()), f);
    assert_eq!(AffineMonoid::<i64>::op(&AffineMonoid::<i64>::identity(), &f), f);
    assert_eq!(AffineMonoid::<u32>::op(&Affine(2, 3), &Affine(5, 7)), Affine(10, 22));
    assert_eq!(AffineMonoid::<i32>::op(&Affine(-2, 3), &Affine(5, -7)), Affine(-10, 8));
    assert_eq!(AffineMonoid::<u64>::op(&Affine(2, 3), &Affine(5, 7)), Affine(10, 22));
    assert_eq!(AffineMonoid::<u128>::op(&Affine(2, 3), &Affine(5, 7)), Affine(10, 22));
    assert_eq!(AffineMonoid::<i128>::op(&Affine(2, -3), &Affine(-5, 7)), Affine(-10, 22));
}

#[test]
fn affine_monoid_wraps_around() {
    let big = Affine(u32::MAX, u32::MAX);
    // (2^32 - 1)^2 = 1 and (2^32 - 1)^2 + (2^32 - 1) = 0 modulo 2^32
    assert_eq!(AffineMonoid::<u32>::op(&big, &big), Affine(1, 0));
    let low = Affine(i64::MIN, 1i64);
    assert_eq!(AffineMonoid::<i64>::op(&low, &Affine(2, i64::MAX)), Affine(0, i64::MIN + 1));
}

#[test]
fn affine_monoid_in_a_segment_tree() {
    let maps = [Affine(2u64, 1u64), Affine(3, 0), Affine(1, 5), Affine(4, 4)];
    let mut tree = SegTree::<AffineMonoid<u64>>::from_vec(&maps);
    // x -> 2x + 1 -> 6x + 3 -> 6x + 8 -> 24x + 36
    assert_eq!(tree.all_fold(), Affine(24, 36));
    assert_eq!(tree.range_fold(Bound::Included(1), Bound::Included(2)), Affine(3, 5));
    tree.set(1, Affine(1, 1));
    // x -> 2x + 1 -> 2x + 2 -> 2x + 7 -> 8x + 32
    assert_eq!(tree.all_fold(), Affine(8, 32));
}
