use math_optim::graph::scc::kosaraju;
use math_optim::graph::tree::diameter::{diameter, weighted_diameter};

fn sorted(mut parts: Vec<Vec<usize>>) -> Vec<Vec<usize>> {
    for part in parts.iter_mut() {
        part.sort();
    }
    parts
}

#[test]
fn strongly_connected_components() {
    let edges = [(0, 1), (1, 2), (2, 0), (1, 3), (3, 4)];
    assert_eq!(sorted(kosaraju(5, &edges)), vec![vec![0, 1, 2], vec![3], vec![4]]);
    let edges = [(1, 4), (5, 2), (3, 0), (5, 5), (4, 1), (0, 3), (4, 2)];
    let scc = sorted(kosaraju(6, &edges));
    assert_eq!(scc.len(), 4);
    let place = |v: usize| scc.iter().position(|part| part.contains(&v)).unwrap();
    assert_eq!(place(1), place(4));
    assert_eq!(place(0), place(3));
    for (u, v) in edges {
        assert!(place(u) <= place(v));
    }
}

#[test]
fn components_of_small_graphs() {
    assert_eq!(kosaraju(0, &[]), Vec::<Vec<usize>>::new());
    assert_eq!(kosaraju(1, &[]), vec![vec![0]]);
    assert_eq!(kosaraju(1, &[(0, 0)]), vec![vec![0]]);
    assert_eq!(sorted(kosaraju(2, &[(0, 1), (1, 0)])), vec![vec![0, 1]]);
    assert_eq!(kosaraju(2, &[(1, 0)]), vec![vec![1], vec![0]]);
    assert_eq!(kosaraju(3, &[(2, 1), (1, 0)]), vec![vec![2], vec![1], vec![0]]);
}

#[test]
fn components_partition_the_vertices() {
    let n = 50;
    let mut seed = 7u64;
    let mut edges = Vec::new();
    for _ in 0..80 {
        seed = seed.wrapping_mul(6364136223846793005).wrapping_add(1442695040888963407);
        let u = (seed >> 33) as usize % n;
        seed = seed.wrapping_mul(6364136223846793005).wrapping_add(1442695040888963407);
        let v = (seed >> 33) as usize % n;
        edges.push((u, v));
    }
    let scc = kosaraju(n, &edges);
    let mut all: Vec<usize> = scc.iter().flatten().copied().collect();
    all.sort();
    assert_eq!(all, (0..n).collect::<Vec<_>>());
    assert!(scc.iter().all(|part| !part.is_empty()));
    let place = |v: usize| scc.iter().position(|part| part.contains(&v)).unwrap();
    for &(u, v) in &edges {
        assert!(place(u) <= place(v));
    }
}

#[test]
fn components_come_in_topological_order() {
    let n = 9;
    let edges = [
        (8, 7),
        (7, 8),
        (7, 5),
        (5, 6),
        (6, 4),
        (4, 5),
        (6, 2),
        (2, 3),
        (3, 2),
        (3, 0),
        (1, 0),
        (5, 1),
    ];
    let scc = kosaraju(n, &edges);
    let mut part = vec![usize::MAX; n];
    for (c, vertices) in scc.iter().enumerate() {
        for &v in vertices {
            part[v] = c;
        }
    }
    assert_eq!(scc.len(), 5);
    assert_eq!(part[7], part[8]);
    assert_eq!(part[4], part[5]);
    assert_eq!(part[5], part[6]);
    assert_eq!(part[2], part[3]);
    for &(u, v) in &edges {
        assert!(part[u] <= part[v]);
    }
    assert_eq!(part[8], 0);
    assert_eq!(part[0], 4);
}

#[test]
fn diameters() {
    assert_eq!(diameter(1, &[]), 0);
    assert_eq!(diameter(2, &[(0, 1)]), 1);
    assert_eq!(diameter(4, &[(0, 1), (1, 2), (2, 3)]), 3);
    assert_eq!(diameter(4, &[(1, 0), (2, 0), (3, 0)]), 2);
    assert_eq!(diameter(5, &[(0, 1), (1, 2), (1, 3), (3, 4)]), 3);
    assert_eq!(diameter(7, &[(3, 0), (3, 1), (3, 2), (3, 4), (4, 5), (5, 6)]), 4);
}

#[test]
fn weighted_diameters() {
    assert_eq!(weighted_diameter(1, &[]), 0);
    assert_eq!(weighted_diameter(2, &[(0, 1, 9)]), 9);
    assert_eq!(weighted_diameter(4, &[(0, 1, 5), (1, 2, 7), (1, 3, 2)]), 12);
    assert_eq!(weighted_diameter(4, &[(0, 1, 1), (1, 2, 1), (2, 3, 100)]), 102);
    assert_eq!(weighted_diameter(3, &[(0, 1, 0), (1, 2, 0)]), 0);
    let heavy = 1u64 << 61;
    assert_eq!(weighted_diameter(3, &[(0, 1, heavy), (0, 2, heavy)]), 1 << 62);
}
