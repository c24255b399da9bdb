use vstd::prelude::*;

use crate::field::{Equals, Field};

verus! {

/// A vector of scalars.
#[derive(Clone, Debug)]
pub struct Vector<K> {
    pub data: Vec<K>,
}

impl<K> View for Vector<K> {
    type V = Seq<K>;

    open spec fn view(&self) -> Seq<K> {
        self.data@
    }
}

/// `Σ v[k]·u[k]` over `k < n`, accumulated from the first index on.
pub open spec fn dot_spec<K: Field>(u: Seq<K>, v: Seq<K>, n: nat) -> K
    decreases n,
{
    if n == 0 {
        K::zero_spec()
    } else {
        v[n - 1].mul_spec(u[n - 1]).add_spec(dot_spec(u, v, (n - 1) as nat))
    }
}

/// Entry `i` of `Σ coefs[j]·u[j]` over `j < n`.
pub open spec fn combination_at<K: Field>(u: Seq<Seq<K>>, coefs: Seq<K>, i: int, n: nat) -> K
    decreases n,
{
    if n == 0 {
        K::zero_spec()
    } else {
        u[n - 1][i].mul_spec(coefs[n - 1]).add_spec(combination_at(u, coefs, i, (n - 1) as nat))
    }
}

/// Entrywise `u[i] + v[i]`.
pub open spec fn add_seq<K: Field>(u: Seq<K>, v: Seq<K>) -> Seq<K> {
    Seq::new(u.len(), |i: int| u[i].add_spec(v[i]))
}

/// Entrywise `u[i] - v[i]`.
pub open spec fn sub_seq<K: Field>(u: Seq<K>, v: Seq<K>) -> Seq<K> {
    Seq::new(u.len(), |i: int| u[i].sub_spec(v[i]))
}

/// Entrywise `u[i] · a`.
pub open spec fn scale_seq<K: Field>(u: Seq<K>, a: K) -> Seq<K> {
    Seq::new(u.len(), |i: int| u[i].mul_spec(a))
}

pub(crate) fn add_vec<K: Field>(u: &Vec<K>, v: &Vec<K>) -> (r: Vec<K>)
    requires
        u.len() == v.len(),
    ensures
        r@ == add_seq(u@, v@),
{
    let mut r: Vec<K> = Vec::new();
    let mut i: usize = 0;
    while i < u.len()
        invariant
            i <= u.len(),
            u.len() == v.len(),
            r@ == add_seq(u@, v@).subrange(0, i as int),
        decreases u.len() - i,
    {
        r.push(u[i].add(&v[i]));
        i += 1;
        assert(r@ =~= add_seq(u@, v@).subrange(0, i as int));
    }
    assert(r@ =~= add_seq(u@, v@));
    r
}

pub(crate) fn sub_vec<K: Field>(u: &Vec<K>, v: &Vec<K>) -> (r: Vec<K>)
    requires
        u.len() == v.len(),
    ensures
        r@ == sub_seq(u@, v@),
{
    let mut r: Vec<K> = Vec::new();
    let mut i: usize = 0;
    while i < u.len()
        invariant
            i <= u.len(),
            u.len() == v.len(),
            r@ == sub_seq(u@, v@).subrange(0, i as int),
        decreases u.len() - i,
    {
        r.push(u[i].sub(&v[i]));
        i += 1;
        assert(r@ =~= sub_seq(u@, v@).subrange(0, i as int));
    }
    assert(r@ =~= sub_seq(u@, v@));
    r
}

pub(crate) fn scale_vec<K: Field>(u: &Vec<K>, a: K) -> (r: Vec<K>)
    ensures
        r@ == scale_seq(u@, a),
{
    let mut r: Vec<K> = Vec::new();
    let mut i: usize = 0;
    while i < u.len()
        invariant
            i <= u.len(),
            r@ == scale_seq(u@, a).subrange(0, i as int),
        decreases u.len() - i,
    {
        r.push(u[i].mul(&a));
        i += 1;
        assert(r@ =~= scale_seq(u@, a).subrange(0, i as int));
    }
    assert(r@ =~= scale_seq(u@, a));
    r
}

pub(crate) fn dot_vec<K: Field>(u: &Vec<K>, v: &Vec<K>) -> (r: K)
    requires
        u.len() == v.len(),
    ensures
        r == dot_spec(u@, v@, u.len() as nat),
{
    let mut r = K::zero();
    let mut i: usize = 0;
    while i < u.len()
        invariant
            i <= u.len(),
            u.len() == v.len(),
            r == dot_spec(u@, v@, i as nat),
        decreases u.len() - i,
    {
        r = v[i].mul(&u[i]).add(&r);
        i += 1;
    }
    r
}

impl<K> Vector<K> {
    pub fn new(data: Vec<K>) -> (r: Vector<K>)
        ensures
            r@ == data@,
    {
        Vector { data }
    }

    pub fn size(&self) -> (r: usize)
        ensures
            r == self@.len(),
    {
        self.data.len()
    }

    pub fn is_same_size(&self, v: &Vector<K>) -> (r: bool)
        ensures
            r == (self@.len() == v@.len()),
    {
        self.size() == v.size()
    }
}

impl<K: Field> Vector<K> {
    /// Entrywise sum.
    pub fn _add(&self, v: &Vector<K>) -> (r: Vector<K>)
        requires
            self@.len() == v@.len(),
        ensures
            r@ == add_seq(self@, v@),
    {
        Vector { data: add_vec(&self.data, &v.data) }
    }

    /// Entrywise difference.
    pub fn _sub(&self, v: &Vector<K>) -> (r: Vector<K>)
        requires
            self@.len() == v@.len(),
        ensures
            r@ == sub_seq(self@, v@),
    {
        Vector { data: sub_vec(&self.data, &v.data) }
    }

    /// Every entry multiplied by `a`.
    pub fn _scl(&self, a: K) -> (r: Vector<K>)
        ensures
            r@ == scale_seq(self@, a),
    {
        Vector { data: scale_vec(&self.data, a) }
    }

    /// The dot product.
    pub fn dot(&self, v: &Vector<K>) -> (r: K)
        requires
            self@.len() == v@.len(),
        ensures
            r == dot_spec(self@, v@, self@.len()),
    {
        dot_vec(&self.data, &v.data)
    }
}

/// The cross product of two vectors of size three.
pub fn cross_product<K: Field>(u: &Vector<K>, v: &Vector<K>) -> (r: Vector<K>)
    requires
        u@.len() == 3,
        v@.len() == 3,
    ensures
        r@ == seq![
            u@[1].mul_spec(v@[2]).sub_spec(u@[2].mul_spec(v@[1])),
            u@[2].mul_spec(v@[0]).sub_spec(u@[0].mul_spec(v@[2])),
            u@[0].mul_spec(v@[1]).sub_spec(u@[1].mul_spec(v@[0])),
        ],
{
    let a = &u.data;
    let b = &v.data;
    let mut data: Vec<K> = Vec::new();
    data.push(a[1].mul(&b[2]).sub(&a[2].mul(&b[1])));
    data.push(a[2].mul(&b[0]).sub(&a[0].mul(&b[2])));
    data.push(a[0].mul(&b[1]).sub(&a[1].mul(&b[0])));
    let r = Vector { data };
    assert(r@ =~= seq![
        u@[1].mul_spec(v@[2]).sub_spec(u@[2].mul_spec(v@[1])),
        u@[2].mul_spec(v@[0]).sub_spec(u@[0].mul_spec(v@[2])),
        u@[0].mul_spec(v@[1]).sub_spec(u@[1].mul_spec(v@[0])),
    ]);
    r
}

/// `Σ coefs[j]·u[j]`: entry `i` of the result combines entry `i` of every vector.
pub fn linear_combination<K: Field>(u: &[&Vector<K>], coefs: &[K]) -> (r: Vector<K>)
    requires
        u@.len() > 0,
        coefs@.len() == u@.len(),
        forall|j: int| 0 <= j < u@.len() ==> (#[trigger] u@[j])@.len() == u@[0]@.len(),
    ensures
        r@.len() == u@[0]@.len(),
        forall|i: int|
            0 <= i < r@.len() ==> #[trigger] r@[i] == combination_at(
                Seq::new(u@.len(), |j: int| u@[j]@),
                coefs@,
                i,
                u@.len(),
            ),
{
    let ghost vs = Seq::new(u@.len(), |j: int| u@[j]@);
    let n = u[0].size();
    let mut res: Vec<K> = Vec::new();
    let mut i: usize = 0;
    while i < n
        invariant
            i <= n,
            n == u@[0]@.len(),
            u@.len() > 0,
            coefs@.len() == u@.len(),
            forall|j: int| 0 <= j < u@.len() ==> (#[trigger] u@[j])@.len() == u@[0]@.len(),
            vs == Seq::new(u@.len(), |j: int| u@[j]@),
            res@.len() == i,
            forall|k: int| 0 <= k < i ==> #[trigger] res@[k] == combination_at(vs, coefs@, k, u@.len()),
        decreases n - i,
    {
        let mut acc = K::zero();
        let mut j: usize = 0;
        while j < u.len()
            invariant
                i < n,
                n == u@[0]@.len(),
                j <= u@.len(),
                coefs@.len() == u@.len(),
                forall|j: int| 0 <= j < u@.len() ==> (#[trigger] u@[j])@.len() == u@[0]@.len(),
                vs == Seq::new(u@.len(), |j: int| u@[j]@),
                acc == combination_at(vs, coefs@, i as int, j as nat),
            decreases u@.len() - j,
        {
            acc = u[j].data[i].mul(&coefs[j]).add(&acc);
            j += 1;
        }
        res.push(acc);
        i += 1;
    }
    Vector { data: res }
}

/// Same length, and every pair of entries equal under `Equals`.
pub open spec fn seq_equals<K: Equals>(u: Seq<K>, v: Seq<K>) -> bool {
    u.len() == v.len() && forall|i: int| 0 <= i < u.len() ==> (#[trigger] u[i]).equals_spec(v[i])
}

pub(crate) fn vec_equals<K: Equals>(u: &Vec<K>, v: &Vec<K>) -> (r: bool)
    ensures
        r == seq_equals(u@, v@),
{
    if u.len() != v.len() {
        return false;
    }
    let mut i: usize = 0;
    while i < u.len()
        invariant
            i <= u.len(),
            u.len() == v.len(),
            forall|k: int| 0 <= k < i ==> (#[trigger] u@[k]).equals_spec(v@[k]),
        decreases u.len() - i,
    {
        if !u[i].equals(&v[i]) {
            return false;
        }
        i += 1;
    }
    true
}

impl<K: Equals> PartialEq for Vector<K> {
    fn eq(&self, v: &Self) -> (r: bool) {
        vec_equals(&self.data, &v.data)
    }
}

impl<K: Equals> vstd::std_specs::cmp::PartialEqSpecImpl for Vector<K> {
    open spec fn obeys_eq_spec() -> bool {
        true
    }

    open spec fn eq_spec(&self, v: &Vector<K>) -> bool {
        seq_equals(self@, v@)
    }
}

} // verus!
