//! Embeddings in a vector space, and their cosine similarity.
//!
//! Components are signed 8-bit fixed-point values. Similarity is held
//! exactly: as the square of the cosine, with the cosine's sign. A larger
//! value is a larger cosine, and it is one exactly where the cosine is.

use vstd::prelude::*;
use core::marker::PhantomData;
use crate::score::{Ratio, Score};

verus! {

/// Largest number of components an embedding may have.
pub const MAX_DIMENSION: usize = 65536;

/// Bound on the magnitude of a dot product of two embeddings.
pub const DOT_LIMIT: i64 = 1073741824;

/// Identity of an embedding model's output space: a marker without data.
/// Embeddings and indexes carry it in their type, so that embeddings of
/// different spaces are never compared.
pub trait VectorSpace {
    /// Number of components of every embedding of the space.
    const DIMENSION: usize;
}

/// Sum of the products of the first `n` components of `a` and `b`.
pub open spec fn dot_upto(a: Seq<i8>, b: Seq<i8>, n: int) -> int
    decreases n,
{
    if n <= 0 {
        0
    } else {
        dot_upto(a, b, n - 1) + a[n - 1] * b[n - 1]
    }
}

/// Dot product of two vectors. Embeddings of one space have one length;
/// for vectors of two lengths, the shorter one's missing components count as
/// zero.
pub open spec fn dot(a: Seq<i8>, b: Seq<i8>) -> int {
    dot_upto(
        a,
        b,
        if a.len() <= b.len() {
            a.len() as int
        } else {
            b.len() as int
        },
    )
}

/// Square of a vector's magnitude.
pub open spec fn norm_squared(a: Seq<i8>) -> int {
    dot(a, a)
}

/// `x`, or one where `x` is not positive.
pub open spec fn at_least_one(x: int) -> int {
    if x <= 0 {
        1
    } else {
        x
    }
}

/// Cosine similarity of two vectors: the dot product over the product of the
/// magnitudes, squared with its sign kept. With a vector of magnitude zero it
/// is zero.
pub open spec fn similarity(a: Seq<i8>, b: Seq<i8>) -> Ratio {
    let d = dot(a, b);
    Ratio {
        num: if d >= 0 {
            d * d
        } else {
            -(d * d)
        },
        den: at_least_one(norm_squared(a)) * at_least_one(norm_squared(b)),
    }
}

/// A product of two components is small.
proof fn lemma_component_product(x: int, y: int)
    requires
        -128 <= x <= 127,
        -128 <= y <= 127,
    ensures
        -16384 <= x * y <= 16384,
{
    assert(-16384 <= x * y <= 16384) by (nonlinear_arith)
        requires
            -128 <= x <= 127,
            -128 <= y <= 127,
    ;
}

/// A dot product over `n` components is at most `16384 * n` in magnitude.
pub proof fn lemma_dot_bound(a: Seq<i8>, b: Seq<i8>, n: int)
    requires
        0 <= n <= a.len(),
        n <= b.len(),
    ensures
        -16384 * n <= dot_upto(a, b, n) <= 16384 * n,
    decreases n,
{
    if n > 0 {
        lemma_dot_bound(a, b, n - 1);
        lemma_component_product(a[n - 1] as int, b[n - 1] as int);
    }
}

/// The Cauchy-Schwarz inequality: the square of a dot product is at most the
/// product of the squared magnitudes, which are not negative.
pub proof fn lemma_cauchy_schwarz(a: Seq<i8>, b: Seq<i8>, n: int)
    requires
        0 <= n <= a.len(),
        n <= b.len(),
    ensures
        0 <= dot_upto(a, a, n),
        0 <= dot_upto(b, b, n),
        dot_upto(a, b, n) * dot_upto(a, b, n) <= dot_upto(a, a, n) * dot_upto(b, b, n),
    decreases n,
{
    if n > 0 {
        lemma_cauchy_schwarz(a, b, n - 1);
        let d = dot_upto(a, b, n - 1);
        let aa = dot_upto(a, a, n - 1);
        let bb = dot_upto(b, b, n - 1);
        let x = a[n - 1] as int;
        let y = b[n - 1] as int;
        lemma_cauchy_schwarz_step(d, aa, bb, x, y);
    } else {
        assert(0 * 0 <= 0 * 0) by (nonlinear_arith);
    }
}

/// One more component keeps the Cauchy-Schwarz inequality.
proof fn lemma_cauchy_schwarz_step(d: int, aa: int, bb: int, x: int, y: int)
    requires
        0 <= aa,
        0 <= bb,
        d * d <= aa * bb,
    ensures
        0 <= aa + x * x,
        0 <= bb + y * y,
        (d + x * y) * (d + x * y) <= (aa + x * x) * (bb + y * y),
{
    let x2 = x * x;
    let y2 = y * y;
    let w = x * y;
    let e = d * w;
    let p = aa * y2;
    let q = bb * x2;
    assert(x2 >= 0 && y2 >= 0) by (nonlinear_arith)
        requires
            x2 == x * x,
            y2 == y * y,
    ;
    assert(w * w == x2 * y2) by (nonlinear_arith)
        requires
            w == x * y,
            x2 == x * x,
            y2 == y * y,
    ;
    assert(p >= 0 && q >= 0) by (nonlinear_arith)
        requires
            p == aa * y2,
            q == bb * x2,
            aa >= 0,
            bb >= 0,
            x2 >= 0,
            y2 >= 0,
    ;
    assert(e * e == (d * d) * (w * w)) by (nonlinear_arith)
        requires
            e == d * w,
    ;
    assert(p * q == (aa * bb) * (x2 * y2)) by (nonlinear_arith)
        requires
            p == aa * y2,
            q == bb * x2,
    ;
    assert((d * d) * (w * w) <= (aa * bb) * (w * w)) by (nonlinear_arith)
        requires
            d * d <= aa * bb,
            w * w >= 0,
    ;
    assert(e * e <= p * q);
    assert(2 * e <= p + q) by (nonlinear_arith)
        requires
            e * e <= p * q,
            p >= 0,
            q >= 0,
    ;
    assert((d + w) * (d + w) == d * d + 2 * e + w * w) by (nonlinear_arith)
        requires
            e == d * w,
    ;
    assert((aa + x2) * (bb + y2) == aa * bb + p + q + x2 * y2) by (nonlinear_arith)
        requires
            p == aa * y2,
            q == bb * x2,
    ;
}

/// The squared magnitude of a prefix only grows with the prefix.
pub proof fn lemma_norm_grows(a: Seq<i8>, m: int, n: int)
    requires
        0 <= m <= n <= a.len(),
    ensures
        0 <= dot_upto(a, a, m) <= dot_upto(a, a, n),
    decreases n - m,
{
    lemma_cauchy_schwarz(a, a, m);
    if m < n {
        lemma_norm_grows(a, m, n - 1);
        let x = a[n - 1] as int;
        assert(x * x >= 0) by (nonlinear_arith);
    }
}

/// No similarity is above one.
pub proof fn lemma_similarity_at_most_one(a: Seq<i8>, b: Seq<i8>)
    ensures
        similarity(a, b).proper(),
        similarity(a, b).num <= similarity(a, b).den,
{
    let m = if a.len() <= b.len() {
        a.len() as int
    } else {
        b.len() as int
    };
    lemma_cauchy_schwarz(a, b, m);
    lemma_norm_grows(a, m, a.len() as int);
    lemma_norm_grows(b, m, b.len() as int);
    let d = dot(a, b);
    let ma = dot_upto(a, a, m);
    let mb = dot_upto(b, b, m);
    let na = norm_squared(a);
    let nb = norm_squared(b);
    let pa = at_least_one(na);
    let pb = at_least_one(nb);
    assert(d * d >= 0) by (nonlinear_arith);
    assert(ma * mb <= pa * pb && pa * pb > 0) by (nonlinear_arith)
        requires
            0 <= ma <= pa,
            0 <= mb <= pb,
            pa >= 1,
            pb >= 1,
    ;
}

/// The dot product does not depend on the order of its arguments.
pub proof fn lemma_dot_symmetric(a: Seq<i8>, b: Seq<i8>, n: int)
    ensures
        dot_upto(a, b, n) == dot_upto(b, a, n),
    decreases n,
{
    if n > 0 {
        lemma_dot_symmetric(a, b, n - 1);
        let x = a[n - 1] as int;
        let y = b[n - 1] as int;
        assert(x * y == y * x) by (nonlinear_arith);
    }
}

/// Similarity does not depend on the order of its arguments.
pub proof fn lemma_similarity_symmetric(a: Seq<i8>, b: Seq<i8>)
    ensures
        similarity(a, b) == similarity(b, a),
{
    let m = if a.len() <= b.len() {
        a.len() as int
    } else {
        b.len() as int
    };
    lemma_dot_symmetric(a, b, m);
    let pa = at_least_one(norm_squared(a));
    let pb = at_least_one(norm_squared(b));
    assert(pa * pb == pb * pa) by (nonlinear_arith);
}

/// A vector that is not zero has similarity one with itself.
pub proof fn lemma_self_similarity(a: Seq<i8>)
    requires
        norm_squared(a) > 0,
    ensures
        similarity(a, a).is_one(),
{
}

/// A dense vector in the space `S`.
pub struct Embedding<S: VectorSpace> {
    values: Vec<i8>,
    space: PhantomData<S>,
}

impl<S: VectorSpace> View for Embedding<S> {
    type V = Seq<i8>;

    closed spec fn view(&self) -> Seq<i8> {
        self.values@
    }
}

impl<S: VectorSpace> Clone for Embedding<S> {
    fn clone(&self) -> (e: Self)
        ensures
            e@ == self@,
    {
        proof {
            use_type_invariant(self);
        }
        let values = self.values.clone();
        assert(values@ =~= self.values@);
        Embedding { values, space: PhantomData }
    }
}

impl<S: VectorSpace> Embedding<S> {
    #[verifier::type_invariant]
    spec fn inv(self) -> bool {
        &&& self.values@.len() == S::DIMENSION
        &&& self.values@.len() <= MAX_DIMENSION
    }

    /// The embedding with the given components, where they are as many as
    /// the space has dimensions, and no more than `MAX_DIMENSION`.
    pub fn new(values: Vec<i8>) -> (r: Option<Self>)
        ensures
            r is Some <==> values@.len() == S::DIMENSION && values@.len() <= MAX_DIMENSION,
            r matches Some(e) ==> e@ == values@,
    {
        if values.len() == S::DIMENSION && values.len() <= MAX_DIMENSION {
            Some(Embedding { values, space: PhantomData })
        } else {
            None
        }
    }

    /// The components.
    pub fn components(&self) -> (v: &Vec<i8>)
        ensures
            v@ == self@,
            v@.len() == S::DIMENSION,
            v@.len() <= MAX_DIMENSION,
    {
        proof {
            use_type_invariant(self);
        }
        &self.values
    }

    /// Dot product with another embedding of the space.
    pub fn dot(&self, other: &Embedding<S>) -> (d: i64)
        ensures
            d == dot(self@, other@),
            -DOT_LIMIT <= d <= DOT_LIMIT,
            self@.len() == other@.len(),
    {
        proof {
            use_type_invariant(self);
            use_type_invariant(other);
        }
        let n = self.values.len();
        let mut acc: i64 = 0;
        let mut i: usize = 0;
        while i < n
            invariant
                i <= n,
                n == self.values@.len(),
                n == other.values@.len(),
                n <= MAX_DIMENSION,
                acc == dot_upto(self.values@, other.values@, i as int),
                -16384 * i <= acc <= 16384 * i,
            decreases n - i,
        {
            let x: i64 = self.values[i] as i64;
            let y: i64 = other.values[i] as i64;
            proof {
                lemma_component_product(x as int, y as int);
            }
            acc = acc + x * y;
            i = i + 1;
        }
        acc
    }

    /// Cosine similarity with another embedding of the space.
    pub fn similarity(&self, other: &Embedding<S>) -> (s: Score)
        ensures
            s@ == similarity(self@, other@),
            self@.len() == other@.len(),
    {
        let d = self.dot(other);
        let na = self.dot(self);
        let nb = other.dot(other);
        proof {
            lemma_cauchy_schwarz(self@, self@, self@.len() as int);
            lemma_cauchy_schwarz(other@, other@, other@.len() as int);
        }
        let pa: u64 = if na <= 0 {
            1
        } else {
            na as u64
        };
        let pb: u64 = if nb <= 0 {
            1
        } else {
            nb as u64
        };
        assert(1 <= pa * pb <= 1073741824 * 1073741824) by (nonlinear_arith)
            requires
                1 <= pa <= 1073741824,
                1 <= pb <= 1073741824,
        ;
        let den: u64 = pa * pb;
        let wide: i128 = d as i128;
        assert(0 <= wide * wide <= 1073741824 * 1073741824) by (nonlinear_arith)
            requires
                -1073741824 <= wide <= 1073741824,
        ;
        let square: i128 = wide * wide;
        let num: i128 = if d >= 0 {
            square
        } else {
            -square
        };
        Score::exact(num, den)
    }
}

} // verus!
