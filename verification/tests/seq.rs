use math_optim::seq::char_position::{cumulative_count, next_pos, prev_pos};
use math_optim::seq::run_length::{run_length_decofing, run_length_encoding};
use math_optim::utils::ChMinMax;

#[test]
fn next_positions() {
    let next = next_pos(b"abca", b'a', b'd');
    assert_eq!(next, vec![vec![0, 1, 2], vec![3, 1, 2], vec![3, 4, 2], vec![3, 4, 4]]);
    assert_eq!(next_pos(b"", b'a', b'd'), Vec::<Vec<usize>>::new());
    assert_eq!(next_pos(b"zz", b'z', b'{'), vec![vec![0], vec![1]]);
}

#[test]
fn previous_positions() {
    let prev = prev_pos(b"abca", b'a', b'd');
    assert_eq!(prev, vec![vec![0, 4, 4], vec![0, 1, 4], vec![0, 1, 2], vec![3, 1, 2]]);
    assert_eq!(prev_pos(b"", b'a', b'd'), Vec::<Vec<usize>>::new());
}

#[test]
fn cumulative_counts() {
    let count = cumulative_count(b"abca", b'a', b'd');
    assert_eq!(count, vec![vec![1, 0, 0], vec![1, 1, 0], vec![1, 1, 1], vec![2, 1, 1]]);
    assert_eq!(cumulative_count(b"", b'a', b'd'), Vec::<Vec<usize>>::new());
    assert_eq!(cumulative_count(b"bbb", b'b', b'c'), vec![vec![1], vec![2], vec![3]]);
}

#[test]
fn run_lengths() {
    assert_eq!(run_length_encoding(&[1, 1, 2, 3, 3, 3]), vec![(1, 2), (2, 1), (3, 3)]);
    assert_eq!(run_length_encoding(&[7]), vec![(7, 1)]);
    assert_eq!(run_length_encoding(&[1, 2, 1]), vec![(1, 1), (2, 1), (1, 1)]);
    assert_eq!(run_length_encoding::<u8>(&[]), vec![]);
    assert_eq!(run_length_encoding(b"aaabcc"), vec![(b'a', 3), (b'b', 1), (b'c', 2)]);
    assert_eq!(run_length_decofing(&[(1, 2), (2, 1), (3, 3)]), vec![1, 1, 2, 3, 3, 3]);
    assert_eq!(run_length_decofing(&[(5, 0), (6, 2)]), vec![6, 6]);
    assert_eq!(run_length_decofing::<u8>(&[]), vec![]);
}

#[test]
fn decoding_undoes_encoding() {
    let mut seed = 5u64;
    for n in 0..60 {
        let mut s = Vec::new();
        for _ in 0..n {
            seed = seed.wrapping_mul(6364136223846793005).wrapping_add(1442695040888963407);
            s.push((seed >> 33) as u8 % 3);
        }
        let runs = run_length_encoding(&s);
        assert!(runs.iter().all(|run| run.1 > 0));
        assert!(runs.windows(2).all(|w| w[0].0 != w[1].0));
        assert_eq!(run_length_decofing(&runs), s);
    }
}

#[test]
fn keeping_the_smaller_and_the_larger() {
    let mut x = 5;
    assert!(x.chmin(3));
    assert_eq!(x, 3);
    assert!(!x.chmin(3));
    assert!(!x.chmin(4));
    assert_eq!(x, 3);
    assert!(x.chmax(9));
    assert_eq!(x, 9);
    assert!(!x.chmax(9));
    assert!(!x.chmax(1));
    assert_eq!(x, 9);
    let mut word = "pear";
    assert!(word.chmin("apple"));
    assert_eq!(word, "apple");
    assert!(word.chmax("plum"));
    assert_eq!(word, "plum");
}
