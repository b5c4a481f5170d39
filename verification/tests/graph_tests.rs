use algos::floyd_warshall::floyd_warshall;

#[test]
fn test_floyd_warshall_chain() {
    // 0 -> 1 (4), 1 -> 2 (3); 0 reaches 2 through 1 with cost 7, and
    // unreachable pairs keep the sentinel.
    let adj: Vec<Vec<isize>> = vec![vec![0, 4, 0], vec![0, 0, 3], vec![0, 0, 0]];
    let dist = floyd_warshall(adj);
    assert_eq!(dist[0], vec![0, 4, 7]);
    assert_eq!(dist[1], vec![isize::MAX, 0, 3]);
    assert_eq!(dist[2], vec![isize::MAX, isize::MAX, 0]);
}

#[test]
fn test_floyd_warshall_shortcut() {
    // The direct edge 0 -> 2 (10) is beaten by the route through 1 (2 + 3).
    let adj: Vec<Vec<isize>> = vec![vec![0, 2, 10], vec![0, 0, 3], vec![0, 0, 0]];
    let dist = floyd_warshall(adj);
    assert_eq!(dist[0][2], 5);
}

#[test]
fn test_floyd_warshall_overflow_skipped() {
    // A relaxation through an unreachable pair would overflow the sentinel;
    // it is skipped, so the sentinel survives.
    let adj: Vec<Vec<isize>> = vec![vec![0, 0], vec![1, 0]];
    let dist = floyd_warshall(adj);
    assert_eq!(dist[0][1], isize::MAX);
    assert_eq!(dist[1][0], 1);
}

#[test]
fn test_floyd_warshall_empty() {
    let adj: Vec<Vec<isize>> = vec![];
    let dist = floyd_warshall(adj);
    assert!(dist.is_empty());
}
