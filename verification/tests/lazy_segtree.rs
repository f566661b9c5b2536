use math_optim::algebra::monoid_action::MonoidAction;
use math_optim::ds::lazy_segtree::LazySegTree;
use math_optim::ds::range::Bound;

/// Sums with the number of summands, under affine maps `x -> a x + b`.
enum AffineSum {}

impl MonoidAction for AffineSum {
    type S = (i64, i64);
    type F = (i64, i64);

    fn identity_s_spec() -> (i64, i64) {
        (0, 0)
    }

    fn identity_f_spec() -> (i64, i64) {
        (1, 0)
    }

    fn op_s_spec(a: (i64, i64), b: (i64, i64)) -> (i64, i64) {
        (a.0 + b.0, a.1 + b.1)
    }

    fn op_f_spec(f: (i64, i64), g: (i64, i64)) -> (i64, i64) {
        (f.0 * g.0, f.1 * g.0 + g.1)
    }

    fn apply_spec(x: (i64, i64), f: (i64, i64)) -> (i64, i64) {
        (f.0 * x.0 + f.1 * x.1, x.1)
    }

    fn lemma_identity_s(_a: (i64, i64)) {}

    fn lemma_associative_s(_a: (i64, i64), _b: (i64, i64), _c: (i64, i64)) {}

    fn lemma_identity_f(_f: (i64, i64)) {}

    fn lemma_associative_f(_f: (i64, i64), _g: (i64, i64), _h: (i64, i64)) {}

    fn lemma_apply_identity(_x: (i64, i64)) {}

    fn lemma_apply_composition(_x: (i64, i64), _f: (i64, i64), _g: (i64, i64)) {}

    fn lemma_apply_distributes(_a: (i64, i64), _b: (i64, i64), _f: (i64, i64)) {}

    fn identity_s() -> (i64, i64) {
        (0, 0)
    }

    fn identity_f() -> (i64, i64) {
        (1, 0)
    }

    fn op_s(a: &(i64, i64), b: &(i64, i64)) -> (i64, i64) {
        (a.0 + b.0, a.1 + b.1)
    }

    fn op_f(f: &(i64, i64), g: &(i64, i64)) -> (i64, i64) {
        (f.0 * g.0, f.1 * g.0 + g.1)
    }

    fn apply(x: &mut (i64, i64), f: &(i64, i64)) {
        *x = (f.0 * x.0 + f.1 * x.1, x.1);
    }
}

/// Words under concatenation, with the operators "wrap every letter in a
/// pair of brackets": an action on a monoid that is not commutative.
enum Wrap {}

impl MonoidAction for Wrap {
    type S = Vec<String>;
    type F = Vec<(char, char)>;

    fn identity_s_spec() -> Vec<String> {
        Vec::new()
    }

    fn identity_f_spec() -> Vec<(char, char)> {
        Vec::new()
    }

    fn op_s_spec(a: Vec<String>, b: Vec<String>) -> Vec<String> {
        Self::op_s(&a, &b)
    }

    fn op_f_spec(f: Vec<(char, char)>, g: Vec<(char, char)>) -> Vec<(char, char)> {
        Self::op_f(&f, &g)
    }

    fn apply_spec(x: Vec<String>, f: Vec<(char, char)>) -> Vec<String> {
        let mut x = x;
        Self::apply(&mut x, &f);
        x
    }

    fn lemma_identity_s(_a: Vec<String>) {}

    fn lemma_associative_s(_a: Vec<String>, _b: Vec<String>, _c: Vec<String>) {}

    fn lemma_identity_f(_f: Vec<(char, char)>) {}

    fn lemma_associative_f(_f: Vec<(char, char)>, _g: Vec<(char, char)>, _h: Vec<(char, char)>) {}

    fn lemma_apply_identity(_x: Vec<String>) {}

    fn lemma_apply_composition(_x: Vec<String>, _f: Vec<(char, char)>, _g: Vec<(char, char)>) {}

    fn lemma_apply_distributes(_a: Vec<String>, _b: Vec<String>, _f: Vec<(char, char)>) {}

    fn identity_s() -> Vec<String> {
        Vec::new()
    }

    fn identity_f() -> Vec<(char, char)> {
        Vec::new()
    }

    fn op_s(a: &Vec<String>, b: &Vec<String>) -> Vec<String> {
        let mut all = a.clone();
        all.extend(b.iter().cloned());
        all
    }

    fn op_f(f: &Vec<(char, char)>, g: &Vec<(char, char)>) -> Vec<(char, char)> {
        let mut all = f.clone();
        all.extend(g.iter().cloned());
        all
    }

    fn apply(x: &mut Vec<String>, f: &Vec<(char, char)>) {
        for letter in x.iter_mut() {
            for (open, close) in f {
                *letter = format!("{}{}{}", open, letter, close);
            }
        }
    }
}

fn ones(n: usize) -> Vec<(i64, i64)> {
    vec![(1, 1); n]
}

fn next(state: &mut u64) -> u64 {
    *state = state.wrapping_mul(6364136223846793005).wrapping_add(1442695040888963407);
    *state >> 33
}

#[test]
fn range_affine_range_sum() {
    let mut tree = LazySegTree::<AffineSum>::from_slice(&ones(4));
    tree.range_apply(Bound::Included(0), Bound::Excluded(2), &(2, 3));
    assert_eq!(tree.range_fold(Bound::Unbounded, Bound::Unbounded).0, 12);
    assert_eq!(tree.range_fold(Bound::Included(0), Bound::Excluded(1)), (5, 1));
    assert_eq!(tree.range_fold(Bound::Included(1), Bound::Excluded(2)), (5, 1));
    assert_eq!(tree.range_fold(Bound::Included(2), Bound::Excluded(4)), (2, 2));
}

#[test]
fn new_lazy_tree_folds_to_the_identity() {
    for n in 0..20 {
        let mut tree = LazySegTree::<AffineSum>::new(n);
        assert_eq!(tree.range_fold(Bound::Unbounded, Bound::Unbounded), (0, 0));
        tree.range_apply(Bound::Unbounded, Bound::Unbounded, &(3, 4));
        assert_eq!(tree.range_fold(Bound::Unbounded, Bound::Unbounded), (0, 0));
    }
}

#[test]
fn updates_agree_with_a_plain_array() {
    let mut seed = 12345u64;
    for n in 1..40usize {
        let mut plain: Vec<(i64, i64)> = (0..n).map(|i| (i as i64 % 7 - 3, 1)).collect();
        let mut tree = LazySegTree::<AffineSum>::from_slice(&plain);
        for _ in 0..200 {
            let a = next(&mut seed) as usize % (n + 1);
            let b = next(&mut seed) as usize % (n + 1);
            let (l, r) = if a <= b { (a, b) } else { (b, a) };
            if next(&mut seed) % 2 == 0 {
                let f = (next(&mut seed) as i64 % 3 - 1, next(&mut seed) as i64 % 5 - 2);
                tree.range_apply(Bound::Included(l), Bound::Excluded(r), &f);
                for x in plain[l..r].iter_mut() {
                    AffineSum::apply(x, &f);
                }
            } else {
                let mut expected = (0, 0);
                for x in &plain[l..r] {
                    expected = AffineSum::op_s(&expected, x);
                }
                assert_eq!(tree.range_fold(Bound::Included(l), Bound::Excluded(r)), expected);
            }
        }
        for i in 0..n {
            assert_eq!(tree.range_fold(Bound::Included(i), Bound::Included(i)), plain[i]);
        }
    }
}

#[test]
fn operators_are_applied_in_order() {
    let letters: Vec<Vec<String>> = "abcde".chars().map(|c| vec![c.to_string()]).collect();
    let mut tree = LazySegTree::<Wrap>::from_slice(&letters);
    tree.range_apply(Bound::Included(1), Bound::Excluded(4), &vec![('(', ')')]);
    tree.range_apply(Bound::Included(2), Bound::Unbounded, &vec![('[', ']')]);
    tree.range_apply(Bound::Unbounded, Bound::Included(2), &vec![('<', '>')]);
    let all = tree.range_fold(Bound::Unbounded, Bound::Unbounded);
    assert_eq!(all, vec!["<a>", "<(b)>", "<[(c)]>", "[(d)]", "[e]"]);
    let middle = tree.range_fold(Bound::Excluded(0), Bound::Excluded(3));
    assert_eq!(middle, vec!["<(b)>", "<[(c)]>"]);
}

#[test]
fn fold_of_a_lazy_tree_splits_at_any_point() {
    let mut tree = LazySegTree::<AffineSum>::from_slice(&ones(9));
    tree.range_apply(Bound::Included(2), Bound::Excluded(7), &(3, 1));
    tree.range_apply(Bound::Included(0), Bound::Excluded(5), &(-1, 2));
    for l in 0..=9 {
        for r in l..=9 {
            let whole = tree.range_fold(Bound::Included(l), Bound::Excluded(r));
            for m in l..=r {
                let left = tree.range_fold(Bound::Included(l), Bound::Excluded(m));
                let right = tree.range_fold(Bound::Included(m), Bound::Excluded(r));
                assert_eq!(AffineSum::op_s(&left, &right), whole);
            }
        }
    }
}

#[test]
fn empty_ranges_change_nothing() {
    let mut tree = LazySegTree::<AffineSum>::from_slice(&ones(5));
    tree.range_apply(Bound::Included(3), Bound::Excluded(3), &(7, 7));
    tree.range_apply(Bound::Included(5), Bound::Unbounded, &(7, 7));
    tree.range_apply(Bound::Unbounded, Bound::Excluded(0), &(7, 7));
    assert_eq!(tree.range_fold(Bound::Unbounded, Bound::Unbounded), (5, 5));
    assert_eq!(tree.range_fold(Bound::Included(2), Bound::Excluded(2)), (0, 0));
}
