use hnsw_index::knn::{Docs, KnnResultBuilder};
use hnsw_index::vector::{TreeVector, VectorType};
use std::collections::hash_map::DefaultHasher;
use std::cmp::Ordering;
use std::hash::{Hash, Hasher};

fn hash_of(v: &TreeVector) -> u64 {
    let mut h = DefaultHasher::new();
    v.hash(&mut h);
    h.finish()
}

#[test]
fn equal_vectors_hash_equal() {
    let a = TreeVector::F64(vec![1.0f64.to_bits(), 0.0f64.to_bits()]).canonicalize();
    let b = TreeVector::F64(vec![1.0f64.to_bits(), (-0.0f64).to_bits()]).canonicalize();
    assert!(a == b);
    assert_eq!(hash_of(&a), hash_of(&b));
    let c = TreeVector::I32(vec![4, -4]);
    assert!(c == c.clone());
    assert_eq!(hash_of(&c), hash_of(&c.clone()));
}

#[test]
fn float_equality_is_ieee() {
    assert!(TreeVector::F64(vec![0.0f64.to_bits()]) == TreeVector::F64(vec![(-0.0f64).to_bits()]));
    assert!(TreeVector::F32(vec![(-0.0f32).to_bits()]) == TreeVector::F32(vec![0.0f32.to_bits()]));
    let n = TreeVector::F64(vec![f64::NAN.to_bits()]);
    assert!(n != n.clone());
    assert!(TreeVector::F64(vec![1.0f64.to_bits()]) != TreeVector::F64(vec![1.0f64.to_bits(), 2.0f64.to_bits()]));
    let m = TreeVector::F32(vec![(-0.0f32).to_bits(), 2.5f32.to_bits()]).canonicalize();
    assert_eq!(m, TreeVector::F32(vec![0.0f32.to_bits(), 2.5f32.to_bits()]));
    match m {
        TreeVector::F32(x) => assert_eq!(x, vec![0, 2.5f32.to_bits()]),
        _ => panic!("kind changed"),
    }
}

#[test]
fn cross_kind_vectors_differ() {
    assert!(TreeVector::I64(vec![1, 2]) != TreeVector::I32(vec![1, 2]));
    assert!(TreeVector::I16(vec![]) != TreeVector::I32(vec![]));
}

#[test]
fn hamming_counts_differences() {
    let a = TreeVector::I16(vec![1, 2, 3, 4]);
    let b = TreeVector::I16(vec![1, 0, 3, 5]);
    assert_eq!(a.hamming_distance(&b), Some(2));
    assert_eq!(b.hamming_distance(&a), Some(2));
    assert_eq!(a.hamming_distance(&a), Some(0));
    assert_eq!(a.hamming_distance(&TreeVector::I32(vec![1, 2, 3, 4])), None);
}

#[test]
fn hamming_on_floats_follows_ieee_equality() {
    let a = TreeVector::F64(vec![0.0f64.to_bits(), f64::NAN.to_bits(), 1.5f64.to_bits()]);
    let b = TreeVector::F64(vec![(-0.0f64).to_bits(), f64::NAN.to_bits(), 1.5f64.to_bits()]);
    assert_eq!(a.hamming_distance(&b), Some(1));
    let c = TreeVector::F32(vec![0.0f32.to_bits(), 2.0f32.to_bits()]);
    let d = TreeVector::F32(vec![(-0.0f32).to_bits(), 3.0f32.to_bits()]);
    assert_eq!(c.hamming_distance(&d), Some(1));
}

#[test]
fn is_null_and_len() {
    assert!(TreeVector::F64(vec![0.0f64.to_bits(), (-0.0f64).to_bits()]).is_null());
    assert!(!TreeVector::F32(vec![0.0f32.to_bits(), 1.0f32.to_bits()]).is_null());
    assert!(TreeVector::I16(vec![0, 0]).is_null());
    assert!(!TreeVector::I64(vec![0, -1]).is_null());
    let v = TreeVector::new(VectorType::I32, 8);
    assert_eq!(v.len(), 0);
    assert!(v.is_null());
    assert_eq!(TreeVector::I32(vec![1, 2, 3]).len(), 3);
}

#[test]
fn docs_promote_and_stay_unique() {
    let mut d = Docs::One(1);
    assert!(d.insert(1).is_none());
    assert_eq!(d.to_vec(), vec![1]);
    let mut m = d.insert(2).unwrap();
    assert_eq!(m.to_vec(), vec![1, 2]);
    assert!(m.insert(3).is_none());
    assert!(m.insert(2).is_none());
    assert_eq!(m.to_vec(), vec![1, 2, 3]);
    assert!(m.contains(3));
    assert!(!m.contains(4));
}

#[test]
fn builder_caps_and_skips_repeats() {
    let mut b = KnnResultBuilder::new(3);
    assert!(b.check_add(5));
    b.add(5, &Docs::Many(vec![1, 2]));
    b.add(6, &Docs::Many(vec![2, 3, 4]));
    assert!(!b.check_add(7));
    assert_eq!(b.build().docs, vec![(1, 5), (2, 5), (3, 6)]);
}

#[test]
fn order_by_kind_then_elements() {
    let f = TreeVector::F64(vec![5.0f64.to_bits()]);
    let i = TreeVector::I16(vec![-5]);
    assert_eq!(f.cmp(&i), Ordering::Less);
    assert_eq!(i.cmp(&f), Ordering::Greater);
    let a = TreeVector::F64(vec![(-2.0f64).to_bits(), 1.0f64.to_bits()]);
    let b = TreeVector::F64(vec![(-1.0f64).to_bits(), 0.0f64.to_bits()]);
    assert_eq!(a.cmp(&b), Ordering::Less);
    let z1 = TreeVector::F32(vec![0.0f32.to_bits()]);
    let z2 = TreeVector::F32(vec![(-0.0f32).to_bits()]);
    assert_eq!(z1.cmp(&z2), Ordering::Equal);
    let n = TreeVector::F64(vec![f64::NAN.to_bits(), 1.0f64.to_bits()]);
    let m = TreeVector::F64(vec![0.0f64.to_bits(), 2.0f64.to_bits()]);
    assert_eq!(n.cmp(&m), Ordering::Equal);
    assert_eq!(TreeVector::I32(vec![1, 2]).cmp(&TreeVector::I32(vec![1, 2, 0])), Ordering::Less);
    assert_eq!(TreeVector::I64(vec![3]).cmp(&TreeVector::I64(vec![-3, 9])), Ordering::Greater);
}

#[test]
fn hamming_is_symmetric_and_zero_on_self() {
    let a = TreeVector::I64(vec![7, -3, 0, 12, 5]);
    let b = TreeVector::I64(vec![7, 3, 0, -12]);
    assert_eq!(a.hamming_distance(&b), b.hamming_distance(&a));
    assert_eq!(a.hamming_distance(&b), Some(2));
    assert_eq!(b.hamming_distance(&b), Some(0));
}

#[test]
fn jaccard_counts_over_element_sets() {
    let a = TreeVector::I32(vec![1, 2, 2, 3]);
    let b = TreeVector::I32(vec![2, 3, 4, 4, 5]);
    assert_eq!(a.jaccard_counts(&b), Some((2, 5)));
    assert_eq!(b.jaccard_counts(&a), Some((2, 5)));
    assert_eq!(a.jaccard_counts(&TreeVector::I64(vec![1])), None);
    let e = TreeVector::I16(vec![]);
    assert_eq!(e.jaccard_counts(&e), Some((0, 0)));
    let f = TreeVector::F64(vec![0.0f64.to_bits(), (-0.0f64).to_bits()]);
    let g = TreeVector::F64(vec![0.0f64.to_bits()]);
    assert_eq!(f.jaccard_counts(&g), Some((1, 2)));
}
