use hnsw_index::index::HnswIndex;
use hnsw_index::vector::TreeVector;
use rand::rngs::SmallRng;
use rand::{Rng, SeedableRng};

#[derive(Clone, Copy, Debug, PartialEq)]
enum Metric {
    Chebyshev,
    Cosine,
    Euclidean,
    Hamming,
    Manhattan,
    Minkowski(f64),
}

#[derive(Clone, Copy, Debug, PartialEq)]
enum Kind {
    F64,
    F32,
    I64,
    I32,
    I16,
}

const KINDS: [Kind; 5] = [Kind::F64, Kind::F32, Kind::I64, Kind::I32, Kind::I16];

fn key(d: f64) -> u64 {
    let b = d.to_bits();
    if b >> 63 == 1 {
        !b
    } else {
        b | (1 << 63)
    }
}

fn unkey(k: u64) -> f64 {
    if k >> 63 == 1 {
        f64::from_bits(k & !(1 << 63))
    } else {
        f64::from_bits(!k)
    }
}

fn floats(v: &TreeVector) -> Vec<f64> {
    match v {
        TreeVector::F64(x) => x.iter().map(|b| f64::from_bits(*b)).collect(),
        TreeVector::F32(x) => x.iter().map(|b| f32::from_bits(*b) as f64).collect(),
        TreeVector::I64(x) => x.iter().map(|i| *i as f64).collect(),
        TreeVector::I32(x) => x.iter().map(|i| *i as f64).collect(),
        TreeVector::I16(x) => x.iter().map(|i| *i as f64).collect(),
    }
}

fn distance(m: Metric, a: &TreeVector, b: &TreeVector) -> f64 {
    if m == Metric::Hamming {
        return a.hamming_distance(b).map(|d| d as f64).unwrap_or(f64::NAN);
    }
    let (x, y) = (floats(a), floats(b));
    let pairs = x.iter().zip(y.iter());
    match m {
        Metric::Chebyshev => pairs.map(|(p, q)| (p - q).abs()).fold(f64::MIN, f64::max),
        Metric::Euclidean => pairs.map(|(p, q)| (p - q).powi(2)).sum::<f64>().sqrt(),
        Metric::Manhattan => pairs.map(|(p, q)| (p - q).abs()).sum(),
        Metric::Minkowski(o) => pairs.map(|(p, q)| (p - q).abs().powf(o)).sum::<f64>().powf(1.0 / o),
        Metric::Cosine => {
            let na = x.iter().map(|v| v * v).sum::<f64>().sqrt();
            let nb = y.iter().map(|v| v * v).sum::<f64>().sqrt();
            let mut s = if na == 0.0 || nb == 0.0 {
                0.0
            } else {
                pairs.map(|(p, q)| (p / na) * (q / nb)).sum::<f64>()
            };
            s = s.clamp(-1.0, 1.0);
            1.0 - s
        }
        Metric::Hamming => unreachable!(),
    }
}

fn random_level(rng: &mut SmallRng, m: usize) -> usize {
    let ml = 1.0 / (m as f64).ln();
    let u: f64 = 1.0 - rng.gen::<f64>();
    (-u.ln() * ml).floor() as usize
}

fn new_vec(rng: &mut SmallRng, kind: Kind, dim: usize, range: i64) -> TreeVector {
    match kind {
        Kind::F64 => TreeVector::F64((0..dim).map(|_| (rng.gen_range(-range..=range) as f64).to_bits()).collect()),
        Kind::F32 => TreeVector::F32((0..dim).map(|_| (rng.gen_range(-range..=range) as f32).to_bits()).collect()),
        Kind::I64 => TreeVector::I64((0..dim).map(|_| rng.gen_range(-range..=range)).collect()),
        Kind::I32 => TreeVector::I32((0..dim).map(|_| rng.gen_range(-range..=range) as i32).collect()),
        Kind::I16 => TreeVector::I16((0..dim).map(|_| rng.gen_range(-range..=range) as i16).collect()),
    }
}

fn collection(rng: &mut SmallRng, size: usize, kind: Kind, dim: usize, unique: bool) -> Vec<(u64, TreeVector)> {
    let mut coll: Vec<(u64, TreeVector)> = Vec::new();
    while coll.len() < size {
        let v = new_vec(rng, kind, dim, if unique { 1000 } else { 3 });
        if unique && coll.iter().any(|(_, w)| *w == v) {
            continue;
        }
        coll.push((coll.len() as u64, v));
    }
    coll
}

struct Tester {
    idx: HnswIndex,
    metric: Metric,
    rng: SmallRng,
}

impl Tester {
    fn new(metric: Metric) -> Self {
        Tester { idx: HnswIndex::new(12, 24, 500), metric, rng: SmallRng::seed_from_u64(7) }
    }

    fn insert(&mut self, v: TreeVector, doc: u64) {
        let level = random_level(&mut self.rng, 12);
        let m = self.metric;
        self.idx.insert(v, doc, level, &|a: &TreeVector, b: &TreeVector| key(distance(m, a, b)));
    }

    fn search(&self, q: &TreeVector, k: usize, ef: usize) -> Vec<(u64, f64)> {
        let m = self.metric;
        let r = self.idx.search(q, k, ef, &|a: &TreeVector, b: &TreeVector| key(distance(m, a, b)));
        r.docs.iter().map(|(d, k)| (*d, unkey(*k))).collect()
    }
}

fn check_collection(metric: Metric, coll: &[(u64, TreeVector)], unique: bool) {
    let mut t = Tester::new(metric);
    for (doc, v) in coll {
        t.insert(v.clone(), *doc);
    }
    let max_knn = 20.max(coll.len());
    for (doc, v) in coll {
        for knn in 1..max_knn {
            let res = t.search(v, knn, 500);
            let docs: Vec<u64> = res.iter().map(|(d, _)| *d).collect();
            if unique {
                assert!(docs.contains(doc), "{:?} {} {:?} {:?}", metric, knn, doc, res);
            }
            assert_eq!(coll.len().min(knn), res.len(), "{:?} {} {:?}", metric, knn, res);
            for w in res.windows(2) {
                assert!(w[0].1 <= w[1].1);
            }
        }
    }
}

#[test]
fn test_hnsw_unique_col_10_dim_2() {
    let mut rng = SmallRng::seed_from_u64(1);
    for kind in KINDS {
        for metric in [Metric::Euclidean, Metric::Manhattan, Metric::Hamming, Metric::Minkowski(2.0), Metric::Chebyshev] {
            let coll = collection(&mut rng, 10, kind, 2, true);
            check_collection(metric, &coll, true);
        }
    }
}

#[test]
fn test_hnsw_random_col_10_dim_2() {
    let mut rng = SmallRng::seed_from_u64(2);
    for kind in KINDS {
        for metric in [Metric::Cosine, Metric::Euclidean, Metric::Manhattan, Metric::Minkowski(2.0)] {
            let coll = collection(&mut rng, 10, kind, 2, false);
            check_collection(metric, &coll, false);
        }
    }
}

#[test]
fn test_hnsw_unique_coll_20_dim_1536() {
    let mut rng = SmallRng::seed_from_u64(3);
    for kind in [Kind::F32, Kind::I32] {
        let coll = collection(&mut rng, 20, kind, 1536, true);
        check_collection(Metric::Hamming, &coll, true);
    }
}

#[test]
fn test_distance_hamming() {
    let mut rng = SmallRng::seed_from_u64(4);
    for kind in KINDS {
        let mut num_zero = 0;
        for _ in 0..2000 {
            let v1 = new_vec(&mut rng, kind, 1536, 1000);
            let v2 = new_vec(&mut rng, kind, 1536, 1000);
            let d = v1.hamming_distance(&v2).unwrap() as f64;
            assert!(d.is_finite() && !d.is_nan());
            if d == 0.0 {
                num_zero += 1;
            }
        }
        assert!((num_zero as f64 / 2000.0) < 0.1);
    }
}

#[test]
fn test_distance_jaccard() {
    let mut rng = SmallRng::seed_from_u64(6);
    for kind in KINDS {
        let mut num_zero = 0;
        for _ in 0..1000 {
            let v1 = new_vec(&mut rng, kind, 1536, 1000);
            let v2 = new_vec(&mut rng, kind, 1536, 1000);
            let (inter, union) = v1.jaccard_counts(&v2).unwrap();
            let d = inter as f64 / union as f64;
            assert!(d.is_finite() && !d.is_nan());
            if d == 0.0 {
                num_zero += 1;
            }
        }
        assert!((num_zero as f64 / 1000.0) < 0.1);
    }
}

#[test]
fn empty_index_returns_nothing() {
    let t = Tester::new(Metric::Euclidean);
    let q = TreeVector::F64(vec![1.0f64.to_bits(), 2.0f64.to_bits()]);
    assert_eq!(t.search(&q, 5, 50), vec![]);
}

#[test]
fn single_vector_found_at_zero() {
    let mut t = Tester::new(Metric::Euclidean);
    let v = TreeVector::I32(vec![3, 4]);
    t.insert(v.clone(), 7);
    assert_eq!(t.search(&v, 1, 10), vec![(7, 0.0)]);
}

#[test]
fn same_vector_twice_keeps_both_docs_once() {
    let mut t = Tester::new(Metric::Euclidean);
    let v = TreeVector::F32(vec![1.5f32.to_bits(), (-2.0f32).to_bits()]);
    t.insert(v.clone(), 1);
    t.insert(v.clone(), 2);
    assert_eq!(t.search(&v, 2, 10), vec![(1, 0.0), (2, 0.0)]);
    assert_eq!(t.search(&v, 4, 10), vec![(1, 0.0), (2, 0.0)]);
}

#[test]
fn zero_ef_returns_nothing() {
    let mut t = Tester::new(Metric::Euclidean);
    let v = TreeVector::I16(vec![1, 2]);
    t.insert(v.clone(), 1);
    assert_eq!(t.search(&v, 3, 0), vec![]);
    assert_eq!(t.search(&v, 3, 1), vec![(1, 0.0)]);
}

#[test]
fn negative_zero_shares_docs_with_zero() {
    let mut t = Tester::new(Metric::Euclidean);
    t.insert(TreeVector::F64(vec![0.0f64.to_bits(), 1.0f64.to_bits()]), 1);
    t.insert(TreeVector::F64(vec![(-0.0f64).to_bits(), 1.0f64.to_bits()]), 2);
    let q = TreeVector::F64(vec![0.0f64.to_bits(), 1.0f64.to_bits()]);
    assert_eq!(t.search(&q, 1, 10), vec![(1, 0.0)]);
    assert_eq!(t.search(&q, 5, 10), vec![(1, 0.0), (2, 0.0)]);
}

#[test]
fn zero_k_returns_nothing() {
    let mut t = Tester::new(Metric::Manhattan);
    let v = TreeVector::I64(vec![1, 2]);
    t.insert(v.clone(), 1);
    assert_eq!(t.search(&v, 0, 10), vec![]);
}

#[test]
fn results_ascend_with_exact_distances() {
    let mut t = Tester::new(Metric::Manhattan);
    for i in 0..5i64 {
        t.insert(TreeVector::I64(vec![i * 10, 0]), i as u64 + 100);
    }
    let q = TreeVector::I64(vec![0, 0]);
    assert_eq!(t.search(&q, 3, 500), vec![(100, 0.0), (101, 10.0), (102, 20.0)]);
}

#[test]
fn base_layer_holds_every_element_with_bounded_degree() {
    let mut t = Tester::new(Metric::Euclidean);
    let mut rng = SmallRng::seed_from_u64(5);
    for (doc, v) in collection(&mut rng, 10, Kind::F64, 2, true) {
        t.insert(v, doc);
    }
    let h = t.idx.hnsw();
    assert_eq!(h.len(), 10);
    assert!(h.layer_count() >= 1);
    for id in 0..10u64 {
        assert!(h.contains(0, id));
    }
    assert!(!h.contains(0, 10));
    for l in 0..h.layer_count() {
        let bound = if l == 0 { 24 } else { 12 };
        for id in 0..10u64 {
            if let Some(d) = h.degree(l, id) {
                assert!(d <= bound);
                let list = h.neighbors(l, id).unwrap();
                assert_eq!(list.len(), d);
                for (i, n) in list.iter().enumerate() {
                    assert_ne!(*n, id);
                    assert!(h.contains(l, *n));
                    assert!(!list[i + 1..].contains(n));
                }
                if l > 0 {
                    assert!(h.contains(l - 1, id));
                }
            }
        }
    }
    let ep = h.enter_point().unwrap();
    assert!(h.contains(h.layer_count() - 1, ep));
}
