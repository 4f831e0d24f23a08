use ksync::banker_safe;

fn zeros(rows: usize, cols: usize) -> Vec<Vec<usize>> {
    let mut m: Vec<Vec<usize>> = Vec::new();
    let mut i: usize = 0;
    while i < rows {
        let mut row: Vec<usize> = Vec::new();
        let mut j: usize = 0;
        while j < cols {
            row.push(0);
            j += 1;
        }
        m.push(row);
        i += 1;
    }
    m
}

#[test]
fn banker_accepts_safe_state() {
    // available = [3, 2], outstanding demand rows [[1, 0], [0, 1]]
    let available = vec![3usize, 2usize];
    let allocation = zeros(2, 2);
    let need = vec![vec![1usize, 0usize], vec![0usize, 1usize]];
    assert!(banker_safe(&available, &allocation, &need));
}

#[test]
fn banker_rejects_unsafe_state() {
    // available = [3, 2]; neither thread's demand fits: [4, 0] and [0, 3]
    let available = vec![3usize, 2usize];
    let allocation = zeros(2, 2);
    let need = vec![vec![4usize, 0usize], vec![0usize, 3usize]];
    assert!(!banker_safe(&available, &allocation, &need));
}

#[test]
fn banker_accepts_exact_fit() {
    // A demand that exactly equals the work at hand fits: the check is
    // "demand <= work", so [[3, 0], [0, 2]] against [3, 2] is safe.
    let available = vec![3usize, 2usize];
    let allocation = zeros(2, 2);
    let need = vec![vec![3usize, 0usize], vec![0usize, 2usize]];
    assert!(banker_safe(&available, &allocation, &need));
}

#[test]
fn banker_needs_release_order() {
    // One unit at hand; thread 0 can finish first, its released allocation
    // then covers thread 1's bigger demand.
    let available = vec![1usize];
    let allocation = vec![vec![2usize], vec![1usize]];
    let need = vec![vec![3usize], vec![3usize]];
    assert!(banker_safe(&available, &allocation, &need));
}

#[test]
fn banker_rejects_circular_wait() {
    // Both threads hold one unit of one resource each and demand the other's:
    // nobody can finish first.
    let available = vec![0usize, 0usize];
    let allocation = vec![vec![1usize, 0usize], vec![0usize, 1usize]];
    let need = vec![vec![1usize, 1usize], vec![1usize, 1usize]];
    assert!(!banker_safe(&available, &allocation, &need));
}

#[test]
fn banker_accepts_empty_state() {
    let available: Vec<usize> = Vec::new();
    let allocation: Vec<Vec<usize>> = Vec::new();
    let need: Vec<Vec<usize>> = Vec::new();
    assert!(banker_safe(&available, &allocation, &need));
}
