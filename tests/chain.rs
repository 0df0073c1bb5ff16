use ad_chain::{ctz_extend, CtzChain, FullChain};

const E: f64 = 1.01;
const N: i32 = 100;
const X0: f64 = 4.2;

fn f(mut x: Vec<f64>) -> Vec<f64> {
    x[0] = x[0].powf(E);
    x
}

/// The snapshots of `N` steps of `f` from `X0`, produced lazily.
fn steps() -> impl Iterator<Item = Vec<f64>> {
    let mut x = vec![X0];
    let mut i = 0;
    std::iter::from_fn(move || {
        if !(i < N) {
            return None;
        }
        i += 1;
        let mut x2 = f(x.clone());
        std::mem::swap(&mut x2, &mut x);
        Some(x2)
    })
}

#[test]
fn full_chain() {
    let expected = E.powi(N) * X0.powf(E.powi(N) - 1.0);

    let g = FullChain::new(steps(), |x: &Vec<f64>, mut g: Vec<f64>| {
        g[0] *= E * x[0].powf(E - 1.0);
        g
    })
    .sweep(vec![1.0]);
    assert!((g[0] - expected).abs() < 1e-10);

    let g = FullChain::new(steps(), |x: &mut Vec<f64>, mut g: Vec<f64>| {
        g[0] *= E * x[0].powf(E - 1.0);
        g
    })
    .sweep_mut(vec![1.0]);
    assert!((g[0] - expected).abs() < 1e-10);

    let g = FullChain::new(steps(), |x: Vec<f64>, mut g: Vec<f64>| {
        g[0] *= E * x[0].powf(E - 1.0);
        g
    })
    .sweep_once(vec![1.0]);
    assert!((g[0] - expected).abs() < 1e-10);
}

#[test]
fn ctz_chain() {
    let expected = E.powi(N) * X0.powf(E.powi(N) - 1.0);

    let g = CtzChain::new(
        steps(),
        |x: &Vec<f64>, mut g: Vec<f64>| {
            g[0] *= E * x[0].powf(E - 1.0);
            g
        },
        |x: &Vec<f64>| f(x.clone()),
    )
    .sweep(vec![1.0]);
    assert!((g[0] - expected).abs() < 1e-10);

    let g = CtzChain::new(
        steps(),
        |x: Vec<f64>, mut g: Vec<f64>| {
            g[0] *= E * x[0].powf(E - 1.0);
            g
        },
        |x: &Vec<f64>| f(x.clone()),
    )
    .sweep_once(vec![1.0]);
    assert!((g[0] - expected).abs() < 1e-10);
}

fn ceil_log2(n: usize) -> usize {
    let mut k = 0;
    while (1usize << k) < n {
        k += 1;
    }
    k
}

#[test]
fn ctz_extend_keeps_logarithmically_many() {
    for n in 1..=200usize {
        let mut v: Vec<(usize, usize)> = Vec::new();
        ctz_extend(&mut v, 0, 0..n);
        assert_eq!(v.len(), ceil_log2(n) + 1, "n = {}", n);
        assert_eq!(v[0], (0, 0));
        assert_eq!(*v.last().unwrap(), (n - 1, n - 1));
        for w in v.windows(2) {
            assert!(w[0].0 < w[1].0);
        }
        for &(i, x) in &v {
            assert_eq!(i, x);
        }
    }
}

#[test]
fn ctz_extend_exact_values() {
    let mut v: Vec<(usize, usize)> = Vec::new();
    ctz_extend(&mut v, 0, 0..8usize);
    assert_eq!(v, vec![(0, 0), (4, 4), (6, 6), (7, 7)]);

    let mut v: Vec<(usize, usize)> = Vec::new();
    ctz_extend(&mut v, 0, 0..16usize);
    assert_eq!(v, vec![(0, 0), (8, 8), (12, 12), (14, 14), (15, 15)]);
}

#[test]
fn ctz_extend_leaves_existing_items_and_offsets_indices() {
    let mut v: Vec<(usize, char)> = vec![(100, 'p'), (3, 'q')];
    ctz_extend(&mut v, 10, "abcde".chars());
    assert_eq!(&v[..2], &[(100, 'p'), (3, 'q')]);
    assert_eq!(v.len(), 2 + 4);
    assert_eq!(v[2], (10, 'a'));
    assert_eq!(*v.last().unwrap(), (14, 'e'));
}

#[test]
fn ctz_extend_of_nothing_changes_nothing() {
    let mut v: Vec<(usize, u8)> = vec![(7, 1)];
    ctz_extend(&mut v, 0, std::iter::empty());
    assert_eq!(v, vec![(7, 1)]);
}

fn record(s: &usize, mut g: Vec<usize>) -> Vec<usize> {
    g.push(*s);
    g
}

#[test]
fn chains_call_adjoint_in_same_order() {
    for n in 0..130usize {
        let full = FullChain::new(0..n, record).sweep(vec![]);
        let sparse = CtzChain::new(0..n, record, |s: &usize| *s + 1).sweep(vec![]);
        let expected: Vec<usize> = (0..n).rev().collect();
        assert_eq!(full, expected);
        assert_eq!(sparse, expected);

        let once = CtzChain::new(
            0..n,
            |s: usize, mut g: Vec<usize>| {
                g.push(s);
                g
            },
            |s: &usize| *s + 1,
        )
        .sweep_once(vec![]);
        assert_eq!(once, expected);
    }
}

#[test]
fn sweeps_are_repeatable() {
    let full = FullChain::new(1..=20u64, |s: &u64, g: u64| g.wrapping_mul(*s) ^ *s);
    assert_eq!(full.sweep(3), full.sweep(3));
    let sparse = CtzChain::new(1..=20u64, |s: &u64, g: u64| g.wrapping_mul(*s) ^ *s, |s: &u64| *s + 1);
    assert_eq!(sparse.sweep(3), sparse.sweep(3));
    assert_eq!(sparse.sweep(3), full.sweep(3));
}

#[test]
fn empty_chains_return_the_incoming_adjoint() {
    let full = FullChain::new(std::iter::empty::<u32>(), |_: &u32, g: i64| g * 2);
    assert_eq!(full.sweep(5), 5);
    let mut full_mut = FullChain::new(std::iter::empty::<u32>(), |_: &mut u32, g: i64| g * 2);
    assert_eq!(full_mut.sweep_mut(6), 6);
    let full_once = FullChain::new(std::iter::empty::<u32>(), |_: u32, g: i64| g * 2);
    assert_eq!(full_once.sweep_once(7), 7);
    let sparse = CtzChain::new(std::iter::empty::<u32>(), |_: &u32, g: i64| g * 2, |s: &u32| *s);
    assert_eq!(sparse.sweep(8), 8);
    let sparse_once = CtzChain::new(std::iter::empty::<u32>(), |_: u32, g: i64| g * 2, |s: &u32| *s);
    assert_eq!(sparse_once.sweep_once(9), 9);
}

#[test]
fn single_snapshot_chain() {
    let sparse = CtzChain::new(std::iter::once(4u32), |s: &u32, g: u32| g + *s, |s: &u32| *s);
    assert_eq!(sparse.sweep(1), 5);
}

#[test]
fn sweep_mut_lets_adjoint_change_snapshots() {
    let mut chain = FullChain::new(vec![1i64, 2, 3].into_iter(), |s: &mut i64, g: i64| {
        *s += 10;
        g * 10 + *s
    });
    // visits 3, 2, 1, each raised by 10 first
    assert_eq!(chain.sweep_mut(0), ((13 * 10) + 12) * 10 + 11);
    assert_eq!(chain.sweep_mut(0), ((23 * 10) + 22) * 10 + 21);
}

#[test]
fn ctz_extend_at_top_of_index_range() {
    let mut v: Vec<(usize, char)> = Vec::new();
    ctz_extend(&mut v, usize::MAX, std::iter::once('z'));
    assert_eq!(v, vec![(usize::MAX, 'z')]);

    let mut v: Vec<(usize, u8)> = Vec::new();
    ctz_extend(&mut v, usize::MAX - 3, 0..4u8);
    assert_eq!(v, vec![(usize::MAX - 3, 0), (usize::MAX - 1, 2), (usize::MAX, 3)]);
}

#[test]
fn sweep_mut_visits_each_step_once_last_first() {
    let mut chain = FullChain::new(0..6usize, |s: &mut usize, mut g: Vec<usize>| {
        g.push(*s);
        *s *= 2;
        g
    });
    assert_eq!(chain.sweep_mut(vec![]), vec![5, 4, 3, 2, 1, 0]);
    assert_eq!(chain.sweep_mut(vec![]), vec![10, 8, 6, 4, 2, 0]);
}
