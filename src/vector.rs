use std::cmp::Ordering;
use vstd::prelude::*;

verus! {

/// The element kind of a vector, in the order in which kinds compare.
#[derive(Clone, Copy, Debug, PartialEq, Eq, Structural)]
pub enum VectorType {
    F64,
    F32,
    I64,
    I32,
    I16,
}

/// A vector of one element kind. Floating-point elements are held as their
/// IEEE-754 bit patterns (`f64::to_bits`, `f32::to_bits`). Equality compares
/// floating elements as IEEE-754 values; the hash reads the bit patterns, so
/// vectors used as hash keys are kept in stored form (`canonicalize`: -0.0
/// held as +0.0), where equal vectors are identical.
#[derive(Clone, Debug, Hash)]
pub enum TreeVector {
    F64(Vec<u64>),
    F32(Vec<u32>),
    I64(Vec<i64>),
    I32(Vec<i32>),
    I16(Vec<i16>),
}

pub const F64_FRAC: u64 = 0x10_0000_0000_0000;

pub const F64_SIGN: u64 = 0x8000_0000_0000_0000;

pub const F32_FRAC: u32 = 0x80_0000;

pub const F32_SIGN: u32 = 0x8000_0000;

/// The `f64` with bit pattern `b` is a NaN: all exponent bits set, fraction
/// not zero.
pub open spec fn f64_is_nan(b: u64) -> bool {
    (b / F64_FRAC) % 0x800 == 0x7ff && b % F64_FRAC != 0
}

/// The `f64` with bit pattern `b` is +0.0 or -0.0.
pub open spec fn f64_is_zero(b: u64) -> bool {
    b % F64_SIGN == 0
}

pub open spec fn f32_is_nan(b: u32) -> bool {
    (b / F32_FRAC) % 0x100 == 0xff && b % F32_FRAC != 0
}

pub open spec fn f32_is_zero(b: u32) -> bool {
    b % F32_SIGN == 0
}

/// IEEE-754 equality of two elements of kind `t`, given as integers (bit
/// patterns for the floating kinds): a NaN equals nothing, and +0.0 equals -0.0.
pub open spec fn elem_eq(t: VectorType, a: int, b: int) -> bool {
    match t {
        VectorType::F64 => !f64_is_nan(a as u64) && !f64_is_nan(b as u64) && (a == b || (
        f64_is_zero(a as u64) && f64_is_zero(b as u64))),
        VectorType::F32 => !f32_is_nan(a as u32) && !f32_is_nan(b as u32) && (a == b || (
        f32_is_zero(a as u32) && f32_is_zero(b as u32))),
        _ => a == b,
    }
}

/// An element of kind `t` equals zero.
pub open spec fn elem_is_zero(t: VectorType, a: int) -> bool {
    match t {
        VectorType::F64 => f64_is_zero(a as u64),
        VectorType::F32 => f32_is_zero(a as u32),
        _ => a == 0,
    }
}

/// The number of positions among the first `n` at which `a` and `b` differ.
pub open spec fn count_diff(t: VectorType, a: Seq<int>, b: Seq<int>, n: int) -> nat
    decreases n,
{
    if n <= 0 {
        0
    } else {
        count_diff(t, a, b, n - 1) + if elem_eq(t, a[n - 1], b[n - 1]) {
            0nat
        } else {
            1nat
        }
    }
}

pub open spec fn min_len(a: Seq<int>, b: Seq<int>) -> int {
    if a.len() < b.len() {
        a.len() as int
    } else {
        b.len() as int
    }
}

/// The Hamming distance: over the positions both vectors have, how many hold
/// elements that are not equal.
pub open spec fn hamming(t: VectorType, a: Seq<int>, b: Seq<int>) -> nat {
    count_diff(t, a, b, min_len(a, b))
}

fn f64_elem_eq(a: u64, b: u64) -> (r: bool)
    ensures
        r == elem_eq(VectorType::F64, a as int, b as int),
{
    let a_nan = (a / F64_FRAC) % 0x800 == 0x7ff && a % F64_FRAC != 0;
    let b_nan = (b / F64_FRAC) % 0x800 == 0x7ff && b % F64_FRAC != 0;
    !a_nan && !b_nan && (a == b || (a % F64_SIGN == 0 && b % F64_SIGN == 0))
}

fn f32_elem_eq(a: u32, b: u32) -> (r: bool)
    ensures
        r == elem_eq(VectorType::F32, a as int, b as int),
{
    let a_nan = (a / F32_FRAC) % 0x100 == 0xff && a % F32_FRAC != 0;
    let b_nan = (b / F32_FRAC) % 0x100 == 0xff && b % F32_FRAC != 0;
    !a_nan && !b_nan && (a == b || (a % F32_SIGN == 0 && b % F32_SIGN == 0))
}

/// The order of two integers.
pub open spec fn int_ord(a: int, b: int) -> Ordering {
    if a < b {
        Ordering::Less
    } else if a > b {
        Ordering::Greater
    } else {
        Ordering::Equal
    }
}

/// A key of the `f64` with bit pattern `b` (not a NaN, not a zero) that orders
/// as the floating-point values do.
pub open spec fn f64_key(b: int) -> int {
    if b >= F64_SIGN {
        0xffff_ffff_ffff_ffff - b
    } else {
        b + F64_SIGN
    }
}

pub open spec fn f32_key(b: int) -> int {
    if b >= F32_SIGN {
        0xffff_ffff - b
    } else {
        b + F32_SIGN
    }
}

/// How two elements of kind `t` compare; `None` when a NaN is involved.
pub open spec fn elem_cmp(t: VectorType, a: int, b: int) -> Option<Ordering> {
    match t {
        VectorType::F64 => if f64_is_nan(a as u64) || f64_is_nan(b as u64) {
            None
        } else if f64_is_zero(a as u64) && f64_is_zero(b as u64) {
            Some(Ordering::Equal)
        } else {
            Some(int_ord(f64_key(a), f64_key(b)))
        },
        VectorType::F32 => if f32_is_nan(a as u32) || f32_is_nan(b as u32) {
            None
        } else if f32_is_zero(a as u32) && f32_is_zero(b as u32) {
            Some(Ordering::Equal)
        } else {
            Some(int_ord(f32_key(a), f32_key(b)))
        },
        _ => Some(int_ord(a, b)),
    }
}

/// Lexicographic comparison of `a` and `b` from position `i` on: the first
/// position whose elements are not equal decides (`None` if they do not
/// compare); if one runs out first, the shorter is less.
pub open spec fn lex_cmp(t: VectorType, a: Seq<int>, b: Seq<int>, i: int) -> Option<Ordering>
    decreases min_len(a, b) - i,
{
    if i >= min_len(a, b) {
        Some(int_ord(a.len() as int, b.len() as int))
    } else {
        match elem_cmp(t, a[i], b[i]) {
            Some(Ordering::Equal) => lex_cmp(t, a, b, i + 1),
            other => other,
        }
    }
}

/// The rank of a kind in the order between kinds.
pub open spec fn kind_rank(t: VectorType) -> int {
    match t {
        VectorType::F64 => 0,
        VectorType::F32 => 1,
        VectorType::I64 => 2,
        VectorType::I32 => 3,
        VectorType::I16 => 4,
    }
}

/// The total order on vectors: by kind first, then lexicographically, where
/// elements that do not compare (NaN) make the two vectors equal.
pub open spec fn vector_cmp(a: TreeVector, b: TreeVector) -> Ordering {
    if a.kind() != b.kind() {
        int_ord(kind_rank(a.kind()), kind_rank(b.kind()))
    } else {
        match lex_cmp(a.kind(), a.elems(), b.elems(), 0) {
            Some(o) => o,
            None => Ordering::Equal,
        }
    }
}

fn ord_of(a: i128, b: i128) -> (r: Ordering)
    ensures
        r == int_ord(a as int, b as int),
{
    if a < b {
        Ordering::Less
    } else if a > b {
        Ordering::Greater
    } else {
        Ordering::Equal
    }
}

fn kind_rank_exec(v: &TreeVector) -> (r: i128)
    ensures
        r == kind_rank(v.kind()),
{
    match v {
        TreeVector::F64(_) => 0,
        TreeVector::F32(_) => 1,
        TreeVector::I64(_) => 2,
        TreeVector::I32(_) => 3,
        TreeVector::I16(_) => 4,
    }
}

fn f64_cmp(a: u64, b: u64) -> (r: Option<Ordering>)
    ensures
        r == elem_cmp(VectorType::F64, a as int, b as int),
{
    let a_nan = (a / F64_FRAC) % 0x800 == 0x7ff && a % F64_FRAC != 0;
    let b_nan = (b / F64_FRAC) % 0x800 == 0x7ff && b % F64_FRAC != 0;
    if a_nan || b_nan {
        None
    } else if a % F64_SIGN == 0 && b % F64_SIGN == 0 {
        Some(Ordering::Equal)
    } else {
        let ka: i128 = if a >= F64_SIGN {
            0xffff_ffff_ffff_ffff - a as i128
        } else {
            a as i128 + F64_SIGN as i128
        };
        let kb: i128 = if b >= F64_SIGN {
            0xffff_ffff_ffff_ffff - b as i128
        } else {
            b as i128 + F64_SIGN as i128
        };
        Some(ord_of(ka, kb))
    }
}

fn f32_cmp(a: u32, b: u32) -> (r: Option<Ordering>)
    ensures
        r == elem_cmp(VectorType::F32, a as int, b as int),
{
    let a_nan = (a / F32_FRAC) % 0x100 == 0xff && a % F32_FRAC != 0;
    let b_nan = (b / F32_FRAC) % 0x100 == 0xff && b % F32_FRAC != 0;
    if a_nan || b_nan {
        None
    } else if a % F32_SIGN == 0 && b % F32_SIGN == 0 {
        Some(Ordering::Equal)
    } else {
        let ka: i128 = if a >= F32_SIGN {
            0xffff_ffff - a as i128
        } else {
            a as i128 + F32_SIGN as i128
        };
        let kb: i128 = if b >= F32_SIGN {
            0xffff_ffff - b as i128
        } else {
            b as i128 + F32_SIGN as i128
        };
        Some(ord_of(ka, kb))
    }
}

/// The sizes of the intersection and of the union of the sets of elements of
/// `a` and `b`, from which the Jaccard similarity is their ratio.
pub open spec fn jaccard_counts(a: Seq<int>, b: Seq<int>) -> (nat, nat) {
    (a.to_set().intersect(b.to_set()).len(), a.to_set().union(b.to_set()).len())
}

pub open spec fn ints(s: Seq<i128>) -> Seq<int> {
    s.map_values(|x: i128| x as int)
}

proof fn lemma_ints_push(s: Seq<i128>, x: i128)
    ensures
        ints(s.push(x)) == ints(s).push(x as int),
{
    assert(ints(s.push(x)) =~= ints(s).push(x as int));
}

proof fn lemma_push_contains(s: Seq<int>, z: int, y: int)
    ensures
        s.push(z).contains(y) <==> s.contains(y) || y == z,
{
    if s.contains(y) {
        let j = choose|j: int| 0 <= j < s.len() && s[j] == y;
        assert(s.push(z)[j] == y);
    }
    if y == z {
        assert(s.push(z)[s.len() as int] == y);
    }
    if s.push(z).contains(y) {
        let j = choose|j: int| 0 <= j < s.len() + 1 && s.push(z)[j] == y;
        if j < s.len() {
            assert(s[j] == y);
        }
    }
}

/// Whether `x` occurs in `v`.
fn contains_int(v: &Vec<i128>, x: i128) -> (r: bool)
    ensures
        r == ints(v@).contains(x as int),
{
    let mut i: usize = 0;
    while i < v.len()
        invariant
            i <= v@.len(),
            forall|j: int| 0 <= j < i ==> v@[j] != x,
        decreases v@.len() - i,
    {
        if v[i] == x {
            assert(ints(v@)[i as int] == x as int);
            return true;
        }
        i = i + 1;
    }
    proof {
        if ints(v@).contains(x as int) {
            let j = choose|j: int| 0 <= j < ints(v@).len() && ints(v@)[j] == x as int;
            assert(v@[j] == x);
        }
    }
    false
}

/// The elements of `v` that are (`inside`) or are not (`!inside`) in `b`,
/// each once, keeping their order.
fn select_by_membership(v: &Vec<i128>, b: &Vec<i128>, inside: bool) -> (r: Vec<i128>)
    ensures
        ints(r@).no_duplicates(),
        forall|x: int|
            ints(r@).contains(x) <==> ints(v@).contains(x) && ints(b@).contains(x) == inside,
{
    let mut r: Vec<i128> = Vec::new();
    let mut i: usize = 0;
    while i < v.len()
        invariant
            i <= v@.len(),
            ints(r@).no_duplicates(),
            forall|x: int|
                ints(r@).contains(x) <==> ints(v@.take(i as int)).contains(x) && ints(b@).contains(x)
                    == inside,
        decreases v@.len() - i,
    {
        let x = v[i];
        let ghost pre = r@;
        proof {
            assert(ints(v@.take(i + 1)) =~= ints(v@.take(i as int)).push(x as int));
        }
        if contains_int(b, x) == inside && !contains_int(&r, x) {
            r.push(x);
            proof {
                lemma_ints_push(pre, x);
            }
        }
        proof {
            assert forall|y: int|
                ints(r@).contains(y) <==> ints(v@.take(i + 1)).contains(y) && ints(b@).contains(y)
                    == inside by {
                lemma_push_contains(ints(v@.take(i as int)), x as int, y);
                lemma_push_contains(ints(pre), x as int, y);
            }
        }
        i = i + 1;
    }
    assert(v@.take(v@.len() as int) =~= v@);
    r
}

/// `a` and `b` are equal vectors: the same kind and the same elements.
pub open spec fn same_vector(a: TreeVector, b: TreeVector) -> bool {
    &&& a.kind() == b.kind()
    &&& a.elems().len() == b.elems().len()
    &&& forall|i: int| 0 <= i < a.elems().len() ==> elem_eq(a.kind(), #[trigger] a.elems()[i], b.elems()[i])
}

/// The stored form of an element of kind `t`: -0.0 becomes +0.0.
pub open spec fn canon_elem(t: VectorType, x: int) -> int {
    match t {
        VectorType::F64 => if x == F64_SIGN as int { 0 } else { x },
        VectorType::F32 => if x == F32_SIGN as int { 0 } else { x },
        _ => x,
    }
}

/// `c` is `o` in stored form: the same kind, each -0.0 replaced by +0.0.
pub open spec fn canonical_of(c: TreeVector, o: TreeVector) -> bool {
    c.kind() == o.kind() && c.elems() == o.elems().map_values(|x: int| canon_elem(o.kind(), x))
}

impl TreeVector {
    pub open spec fn kind(&self) -> VectorType {
        match self {
            TreeVector::F64(_) => VectorType::F64,
            TreeVector::F32(_) => VectorType::F32,
            TreeVector::I64(_) => VectorType::I64,
            TreeVector::I32(_) => VectorType::I32,
            TreeVector::I16(_) => VectorType::I16,
        }
    }

    /// The elements as integers (bit patterns for the floating kinds).
    pub open spec fn elems(&self) -> Seq<int> {
        match self {
            TreeVector::F64(v) => v@.map_values(|x: u64| x as int),
            TreeVector::F32(v) => v@.map_values(|x: u32| x as int),
            TreeVector::I64(v) => v@.map_values(|x: i64| x as int),
            TreeVector::I32(v) => v@.map_values(|x: i32| x as int),
            TreeVector::I16(v) => v@.map_values(|x: i16| x as int),
        }
    }

    /// An empty vector of kind `t`, with room for `l` elements.
    pub fn new(t: VectorType, l: usize) -> (r: Self)
        ensures
            r.kind() == t,
            r.elems() == Seq::<int>::empty(),
    {
        let r = match t {
            VectorType::F64 => TreeVector::F64(Vec::with_capacity(l)),
            VectorType::F32 => TreeVector::F32(Vec::with_capacity(l)),
            VectorType::I64 => TreeVector::I64(Vec::with_capacity(l)),
            VectorType::I32 => TreeVector::I32(Vec::with_capacity(l)),
            VectorType::I16 => TreeVector::I16(Vec::with_capacity(l)),
        };
        assert(r.elems() =~= Seq::<int>::empty());
        r
    }

    pub fn len(&self) -> (r: usize)
        ensures
            r == self.elems().len(),
    {
        match self {
            TreeVector::F64(v) => v.len(),
            TreeVector::F32(v) => v.len(),
            TreeVector::I64(v) => v.len(),
            TreeVector::I32(v) => v.len(),
            TreeVector::I16(v) => v.len(),
        }
    }

    /// Every element equals zero (+0.0 or -0.0 for the floating kinds).
    pub fn is_null(&self) -> (r: bool)
        ensures
            r == forall|i: int| 0 <= i < self.elems().len() ==> elem_is_zero(self.kind(), #[trigger] self.elems()[i]),
    {
        let n = self.len();
        let mut i: usize = 0;
        while i < n
            invariant
                n == self.elems().len(),
                i <= n,
                forall|j: int| 0 <= j < i ==> elem_is_zero(self.kind(), #[trigger] self.elems()[j]),
            decreases n - i,
        {
            let z = match self {
                TreeVector::F64(v) => v[i] % F64_SIGN == 0,
                TreeVector::F32(v) => v[i] % F32_SIGN == 0,
                TreeVector::I64(v) => v[i] == 0,
                TreeVector::I32(v) => v[i] == 0,
                TreeVector::I16(v) => v[i] == 0,
            };
            assert(z == elem_is_zero(self.kind(), self.elems()[i as int]));
            if !z {
                return false;
            }
            i = i + 1;
        }
        true
    }

    /// The Hamming distance to `other`, or `None` when the kinds differ.
    pub fn hamming_distance(&self, other: &Self) -> (r: Option<u64>)
        ensures
            match r {
                Some(d) => self.kind() == other.kind() && d == hamming(self.kind(), self.elems(), other.elems()),
                None => self.kind() != other.kind(),
            },
    {
        if !self.same_kind(other) {
            return None;
        }
        let n = if self.len() < other.len() {
            self.len()
        } else {
            other.len()
        };
        let ghost t = self.kind();
        let ghost a = self.elems();
        let ghost b = other.elems();
        let mut count: u64 = 0;
        let mut i: usize = 0;
        while i < n
            invariant
                t == self.kind(),
                t == other.kind(),
                a == self.elems(),
                b == other.elems(),
                n == min_len(a, b),
                i <= n,
                count == count_diff(t, a, b, i as int),
                count <= i,
            decreases n - i,
        {
            let same = match (self, other) {
                (TreeVector::F64(x), TreeVector::F64(y)) => f64_elem_eq(x[i], y[i]),
                (TreeVector::F32(x), TreeVector::F32(y)) => f32_elem_eq(x[i], y[i]),
                (TreeVector::I64(x), TreeVector::I64(y)) => x[i] == y[i],
                (TreeVector::I32(x), TreeVector::I32(y)) => x[i] == y[i],
                (TreeVector::I16(x), TreeVector::I16(y)) => x[i] == y[i],
                _ => true,
            };
            assert(same == elem_eq(t, a[i as int], b[i as int]));
            if !same {
                count = count + 1;
            }
            i = i + 1;
        }
        Some(count)
    }

    /// Compares with `other`: by kind first (F64 < F32 < I64 < I32 < I16),
    /// then lexicographically; elements that do not compare (a NaN) make the
    /// vectors compare equal.
    pub fn cmp(&self, other: &Self) -> (r: Ordering)
        ensures
            r == vector_cmp(*self, *other),
    {
        if !self.same_kind(other) {
            return ord_of(kind_rank_exec(self), kind_rank_exec(other));
        }
        let ghost t = self.kind();
        let ghost a = self.elems();
        let ghost b = other.elems();
        let la = self.len();
        let lb = other.len();
        let n = if la < lb {
            la
        } else {
            lb
        };
        let mut i: usize = 0;
        while i < n
            invariant
                t == self.kind(),
                t == other.kind(),
                a == self.elems(),
                b == other.elems(),
                la == a.len(),
                lb == b.len(),
                n == min_len(a, b),
                i <= n,
                lex_cmp(t, a, b, 0) == lex_cmp(t, a, b, i as int),
            decreases n - i,
        {
            let c = match (self, other) {
                (TreeVector::F64(x), TreeVector::F64(y)) => f64_cmp(x[i], y[i]),
                (TreeVector::F32(x), TreeVector::F32(y)) => f32_cmp(x[i], y[i]),
                (TreeVector::I64(x), TreeVector::I64(y)) => Some(ord_of(x[i] as i128, y[i] as i128)),
                (TreeVector::I32(x), TreeVector::I32(y)) => Some(ord_of(x[i] as i128, y[i] as i128)),
                (TreeVector::I16(x), TreeVector::I16(y)) => Some(ord_of(x[i] as i128, y[i] as i128)),
                _ => None,
            };
            assert(c == elem_cmp(t, a[i as int], b[i as int]));
            match c {
                Some(Ordering::Equal) => {},
                Some(o) => {
                    return o;
                },
                None => {
                    return Ordering::Equal;
                },
            }
            i = i + 1;
        }
        ord_of(la as i128, lb as i128)
    }

    /// The elements as 128-bit integers (bit patterns for the floating kinds).
    fn elem_ints(&self) -> (r: Vec<i128>)
        ensures
            ints(r@) == self.elems(),
    {
        let n = self.len();
        let mut r: Vec<i128> = Vec::new();
        let mut i: usize = 0;
        while i < n
            invariant
                n == self.elems().len(),
                i <= n,
                ints(r@) == self.elems().take(i as int),
            decreases n - i,
        {
            let x: i128 = match self {
                TreeVector::F64(v) => v[i] as i128,
                TreeVector::F32(v) => v[i] as i128,
                TreeVector::I64(v) => v[i] as i128,
                TreeVector::I32(v) => v[i] as i128,
                TreeVector::I16(v) => v[i] as i128,
            };
            assert(x as int == self.elems()[i as int]);
            proof {
                lemma_ints_push(r@, x);
            }
            r.push(x);
            i = i + 1;
            assert(ints(r@) =~= self.elems().take(i as int));
        }
        assert(self.elems().take(n as int) =~= self.elems());
        r
    }

    /// The sizes of the intersection and of the union of the element sets of
    /// both vectors, or `None` when the kinds differ.
    pub fn jaccard_counts(&self, other: &Self) -> (r: Option<(usize, usize)>)
        requires
            self.elems().len() + other.elems().len() <= usize::MAX,
        ensures
            match r {
                Some((i, u)) => self.kind() == other.kind() && (i as nat, u as nat) == jaccard_counts(
                    self.elems(),
                    other.elems(),
                ),
                None => self.kind() != other.kind(),
            },
    {
        if !self.same_kind(other) {
            return None;
        }
        let a = self.elem_ints();
        let b = other.elem_ints();
        let empty: Vec<i128> = Vec::new();
        let ua = select_by_membership(&a, &empty, false);
        let inter = select_by_membership(&ua, &b, true);
        let extra = select_by_membership(&b, &a, false);
        let ghost sa = self.elems().to_set();
        let ghost sb = other.elems().to_set();
        proof {
            assert(ints(inter@).to_set() =~= sa.intersect(sb));
            ints(inter@).unique_seq_to_set();
            let u = ints(ua@) + ints(extra@);
            assert forall|x: int| u.contains(x) <==> ints(ua@).contains(x) || ints(extra@).contains(x) by {
                if u.contains(x) {
                    let j = choose|j: int| 0 <= j < u.len() && u[j] == x;
                    if j >= ints(ua@).len() {
                        assert(ints(extra@)[j - ints(ua@).len()] == x);
                    }
                }
                if ints(extra@).contains(x) {
                    let j = choose|j: int| 0 <= j < ints(extra@).len() && ints(extra@)[j] == x;
                    assert(u[j + ints(ua@).len()] == x);
                }
                if ints(ua@).contains(x) {
                    let j = choose|j: int| 0 <= j < ints(ua@).len() && ints(ua@)[j] == x;
                    assert(u[j] == x);
                }
            }
            assert(u.to_set() =~= sa.union(sb));
            assert forall|i: int, j: int| 0 <= i < u.len() && 0 <= j < u.len() && i != j implies u[i] != u[j] by {
                if i < ints(ua@).len() && j >= ints(ua@).len() {
                    assert(ints(ua@).contains(u[i]));
                    assert(ints(extra@).contains(u[j]));
                } else if j < ints(ua@).len() && i >= ints(ua@).len() {
                    assert(ints(ua@).contains(u[j]));
                    assert(ints(extra@).contains(u[i]));
                } else if i >= ints(ua@).len() {
                    assert(ints(extra@)[i - ints(ua@).len()] == u[i]);
                    assert(ints(extra@)[j - ints(ua@).len()] == u[j]);
                }
            }
            assert(u.no_duplicates());
            u.unique_seq_to_set();
            assert(ints(ua@).to_set().len() <= sa.len()) by {
                assert(ints(ua@).to_set() =~= sa);
            }
            ints(ua@).unique_seq_to_set();
            assert(ints(extra@).to_set().subset_of(sb));
            ints(extra@).unique_seq_to_set();
            vstd::set_lib::lemma_len_subset(ints(extra@).to_set(), sb);
            self.elems().lemma_cardinality_of_set();
            other.elems().lemma_cardinality_of_set();
        }
        Some((inter.len(), ua.len() + extra.len()))
    }

    /// No element is -0.0.
    pub open spec fn is_canonical(&self) -> bool {
        forall|i: int| 0 <= i < self.elems().len() ==> #[trigger] self.elems()[i] == canon_elem(self.kind(), self.elems()[i])
    }

    /// The stored form of this vector: each -0.0 replaced by +0.0.
    pub fn canonicalize(self) -> (r: Self)
        ensures
            canonical_of(r, self),
            r.is_canonical(),
            forall|x: TreeVector| #[trigger] same_vector(x, r) == same_vector(x, self),
    {
        let ghost old_v = self;
        let r = match self {
            TreeVector::F64(v) => {
                let mut w: Vec<u64> = Vec::new();
                let mut i: usize = 0;
                while i < v.len()
                    invariant
                        i <= v@.len(),
                        w@.len() == i,
                        forall|j: int| 0 <= j < i ==> (#[trigger] w@[j]) as int == canon_elem(VectorType::F64, v@[j] as int),
                    decreases v@.len() - i,
                {
                    let x = v[i];
                    w.push(if x == F64_SIGN { 0 } else { x });
                    i = i + 1;
                }
                TreeVector::F64(w)
            },
            TreeVector::F32(v) => {
                let mut w: Vec<u32> = Vec::new();
                let mut i: usize = 0;
                while i < v.len()
                    invariant
                        i <= v@.len(),
                        w@.len() == i,
                        forall|j: int| 0 <= j < i ==> (#[trigger] w@[j]) as int == canon_elem(VectorType::F32, v@[j] as int),
                    decreases v@.len() - i,
                {
                    let x = v[i];
                    w.push(if x == F32_SIGN { 0 } else { x });
                    i = i + 1;
                }
                TreeVector::F32(w)
            },
            other => other,
        };
        proof {
            assert(r.elems() =~= old_v.elems().map_values(|x: int| canon_elem(old_v.kind(), x)));
            assert forall|x: TreeVector| #[trigger] same_vector(x, r) == same_vector(x, old_v) by {
                if x.kind() == r.kind() && x.elems().len() == r.elems().len() {
                    assert forall|i: int| 0 <= i < x.elems().len() implies elem_eq(x.kind(), #[trigger] x.elems()[i], r.elems()[i])
                        == elem_eq(x.kind(), x.elems()[i], old_v.elems()[i]) by {
                        lemma_canon_elem_eq(x.kind(), x.elems()[i], old_v.elems()[i]);
                    }
                }
            }
            assert(r.is_canonical()) by {
                assert forall|i: int| 0 <= i < r.elems().len() implies #[trigger] r.elems()[i] == canon_elem(r.kind(), r.elems()[i]) by {
                    assert(r.elems()[i] == canon_elem(old_v.kind(), old_v.elems()[i]));
                }
            }
        }
        r
    }

    /// Whether both vectors are of the same element kind.
    pub fn same_kind(&self, other: &Self) -> (r: bool)
        ensures
            r == (self.kind() == other.kind()),
    {
        match (self, other) {
            (TreeVector::F64(_), TreeVector::F64(_)) => true,
            (TreeVector::F32(_), TreeVector::F32(_)) => true,
            (TreeVector::I64(_), TreeVector::I64(_)) => true,
            (TreeVector::I32(_), TreeVector::I32(_)) => true,
            (TreeVector::I16(_), TreeVector::I16(_)) => true,
            _ => false,
        }
    }
}

/// Symmetry of the Hamming distance on the first `n` positions.
proof fn lemma_count_diff_symmetric(t: VectorType, a: Seq<int>, b: Seq<int>, n: int)
    ensures
        count_diff(t, a, b, n) == count_diff(t, b, a, n),
    decreases n,
{
    if n > 0 {
        lemma_count_diff_symmetric(t, a, b, n - 1);
    }
}

/// The Hamming distance is symmetric: `hamming_distance(a, b)` and
/// `hamming_distance(b, a)` agree.
pub proof fn lemma_hamming_symmetric(a: TreeVector, b: TreeVector)
    ensures
        hamming(a.kind(), a.elems(), b.elems()) == hamming(b.kind(), b.elems(), a.elems())
            || a.kind() != b.kind(),
{
    lemma_count_diff_symmetric(a.kind(), a.elems(), b.elems(), min_len(a.elems(), b.elems()));
}

/// Vectors of different kinds are never equal; and equal vectors in stored
/// form (no -0.0) have the same kind and identical elements, the values that
/// the derived hash reads.
pub proof fn lemma_equal_stored_vectors_identical(a: TreeVector, b: TreeVector)
    ensures
        a.kind() != b.kind() ==> !same_vector(a, b),
        a.is_canonical() && b.is_canonical() && same_vector(a, b) ==> a.kind() == b.kind()
            && a.elems() == b.elems(),
{
    if a.is_canonical() && b.is_canonical() && same_vector(a, b) {
        assert forall|i: int| 0 <= i < a.elems().len() implies a.elems()[i] == b.elems()[i] by {
            assert(elem_eq(a.kind(), a.elems()[i], b.elems()[i]));
            assert(a.elems()[i] == canon_elem(a.kind(), a.elems()[i]));
            assert(b.elems()[i] == canon_elem(b.kind(), b.elems()[i]));
        }
        assert(a.elems() =~= b.elems());
    }
}

/// A stored-form element equals the element it came from.
proof fn lemma_canon_elem_eq(t: VectorType, x: int, y: int)
    ensures
        elem_eq(t, x, canon_elem(t, y)) == elem_eq(t, x, y),
{
}

/// Equality: the same kind, the same length and equal elements, floating
/// elements compared as IEEE-754 values (+0.0 equals -0.0, a NaN equals
/// nothing). Vectors of different kinds are never equal.
impl PartialEq for TreeVector {
    fn eq(&self, other: &Self) -> (r: bool) {
        if !self.same_kind(other) {
            return false;
        }
        let n = self.len();
        if n != other.len() {
            return false;
        }
        let ghost t = self.kind();
        let mut i: usize = 0;
        while i < n
            invariant
                t == self.kind(),
                t == other.kind(),
                n == self.elems().len(),
                n == other.elems().len(),
                i <= n,
                forall|j: int| 0 <= j < i ==> elem_eq(t, #[trigger] self.elems()[j], other.elems()[j]),
            decreases n - i,
        {
            let same = match (self, other) {
                (TreeVector::F64(x), TreeVector::F64(y)) => f64_elem_eq(x[i], y[i]),
                (TreeVector::F32(x), TreeVector::F32(y)) => f32_elem_eq(x[i], y[i]),
                (TreeVector::I64(x), TreeVector::I64(y)) => x[i] == y[i],
                (TreeVector::I32(x), TreeVector::I32(y)) => x[i] == y[i],
                (TreeVector::I16(x), TreeVector::I16(y)) => x[i] == y[i],
                _ => false,
            };
            assert(same == elem_eq(t, self.elems()[i as int], other.elems()[i as int]));
            if !same {
                return false;
            }
            i = i + 1;
        }
        true
    }
}

impl vstd::std_specs::cmp::PartialEqSpecImpl for TreeVector {
    open spec fn obeys_eq_spec() -> bool {
        true
    }

    open spec fn eq_spec(&self, other: &TreeVector) -> bool {
        same_vector(*self, *other)
    }
}

impl Eq for TreeVector {

}

} // verus!
