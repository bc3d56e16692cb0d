//! Byte-string keys and values, ordered by length first and then by
//! lexicographic byte comparison.

use vstd::prelude::*;

verus! {

/// True when `a` is lexicographically strictly below `b`, comparing
/// byte by byte from the front.
pub open spec fn bytes_lex_lt(a: Seq<u8>, b: Seq<u8>) -> bool
    decreases a.len() + b.len(),
{
    if b.len() == 0 {
        false
    } else if a.len() == 0 {
        true
    } else if a[0] < b[0] {
        true
    } else if a[0] > b[0] {
        false
    } else {
        bytes_lex_lt(a.drop_first(), b.drop_first())
    }
}

/// The total order on keys: shorter keys come first, and keys of equal
/// length are ordered by byte-wise comparison.
pub open spec fn key_lt(a: Seq<u8>, b: Seq<u8>) -> bool {
    a.len() < b.len() || (a.len() == b.len() && bytes_lex_lt(a, b))
}

pub open spec fn key_le(a: Seq<u8>, b: Seq<u8>) -> bool {
    key_lt(a, b) || a == b
}

pub proof fn lemma_lex_irrefl(a: Seq<u8>)
    ensures
        !bytes_lex_lt(a, a),
    decreases a.len(),
{
    if a.len() > 0 {
        lemma_lex_irrefl(a.drop_first());
    }
}

pub proof fn lemma_lex_total(a: Seq<u8>, b: Seq<u8>)
    requires
        a.len() == b.len(),
        !bytes_lex_lt(a, b),
        !bytes_lex_lt(b, a),
    ensures
        a == b,
    decreases a.len(),
{
    if a.len() > 0 {
        lemma_lex_total(a.drop_first(), b.drop_first());
        assert(a =~= seq![a[0]] + a.drop_first());
        assert(b =~= seq![b[0]] + b.drop_first());
    } else {
        assert(a =~= b);
    }
}

pub proof fn lemma_lex_trans(a: Seq<u8>, b: Seq<u8>, c: Seq<u8>)
    requires
        bytes_lex_lt(a, b),
        bytes_lex_lt(b, c),
        a.len() == b.len(),
        b.len() == c.len(),
    ensures
        bytes_lex_lt(a, c),
    decreases a.len(),
{
    if a.len() > 0 && b.len() > 0 && c.len() > 0 && a[0] == b[0] && b[0] == c[0] {
        lemma_lex_trans(a.drop_first(), b.drop_first(), c.drop_first());
    }
}

/// `key_lt` is irreflexive: no key is below itself.
pub proof fn lemma_key_lt_irrefl(a: Seq<u8>)
    ensures
        !key_lt(a, a),
{
    lemma_lex_irrefl(a);
}

/// `key_lt` is total: two keys with neither below the other are equal.
pub proof fn lemma_key_lt_total(a: Seq<u8>, b: Seq<u8>)
    requires
        !key_lt(a, b),
        !key_lt(b, a),
    ensures
        a == b,
{
    lemma_lex_total(a, b);
}

/// `key_lt` is transitive.
pub proof fn lemma_key_lt_trans(a: Seq<u8>, b: Seq<u8>, c: Seq<u8>)
    requires
        key_lt(a, b),
        key_lt(b, c),
    ensures
        key_lt(a, c),
{
    if a.len() == b.len() && b.len() == c.len() {
        lemma_lex_trans(a, b, c);
    }
}

/// A strict bound composes with a non-strict one.
pub proof fn lemma_key_lt_le_trans(a: Seq<u8>, b: Seq<u8>, c: Seq<u8>)
    requires
        key_lt(a, b),
        key_le(b, c),
    ensures
        key_lt(a, c),
{
    if key_lt(b, c) {
        lemma_key_lt_trans(a, b, c);
    }
}

/// A non-strict bound composes with a strict one.
pub proof fn lemma_key_le_lt_trans(a: Seq<u8>, b: Seq<u8>, c: Seq<u8>)
    requires
        key_le(a, b),
        key_lt(b, c),
    ensures
        key_lt(a, c),
{
    if key_lt(a, b) {
        lemma_key_lt_trans(a, b, c);
    }
}

/// `key_le` is transitive.
pub proof fn lemma_key_le_trans(a: Seq<u8>, b: Seq<u8>, c: Seq<u8>)
    requires
        key_le(a, b),
        key_le(b, c),
    ensures
        key_le(a, c),
{
    if key_lt(a, b) {
        lemma_key_lt_le_trans(a, b, c);
    }
}

/// `key_le` is antisymmetric.
pub proof fn lemma_key_le_antisym(a: Seq<u8>, b: Seq<u8>)
    requires
        key_le(a, b),
        key_le(b, a),
    ensures
        a == b,
{
    if key_lt(a, b) && key_lt(b, a) {
        lemma_key_lt_trans(a, b, a);
        lemma_key_lt_irrefl(a);
    }
}

/// A key or value: an owned byte string. The order used throughout the
/// store is `key_lt` on the underlying bytes.
#[derive(Debug)]
pub struct Slice(pub Vec<u8>);

impl View for Slice {
    type V = Seq<u8>;

    open spec fn view(&self) -> Seq<u8> {
        self.0@
    }
}

impl Clone for Slice {
    fn clone(&self) -> (r: Self)
        ensures
            r@ == self@,
    {
        let mut bytes: Vec<u8> = Vec::new();
        let mut i: usize = 0;
        while i < self.0.len()
            invariant
                i <= self.0.len(),
                bytes@ == self.0@.subrange(0, i as int),
            decreases self.0.len() - i,
        {
            bytes.push(self.0[i]);
            i = i + 1;
        }
        proof {
            assert(bytes@ =~= self.0@);
        }
        Slice(bytes)
    }
}

impl PartialEq for Slice {
    fn eq(&self, other: &Slice) -> (r: bool) {
        slice_key_eq(self, other)
    }
}

impl Eq for Slice {}

impl vstd::std_specs::cmp::PartialEqSpecImpl for Slice {
    open spec fn obeys_eq_spec() -> bool {
        true
    }

    open spec fn eq_spec(&self, other: &Slice) -> bool {
        self@ == other@
    }
}

impl Slice {
    /// An empty byte string, the least element of the key order.
    pub fn empty() -> (r: Slice)
        ensures
            r@ == Seq::<u8>::empty(),
    {
        let bytes: Vec<u8> = Vec::new();
        proof {
            assert(Seq::<u8>::empty() =~= bytes@);
        }
        Slice(bytes)
    }
}

/// Byte-wise equality of two slices.
pub fn slice_key_eq(a: &Slice, b: &Slice) -> (r: bool)
    ensures
        r == (a@ == b@),
{
    if a.0.len() != b.0.len() {
        proof {
            assert(a@ != b@);
        }
        return false;
    }
    let n = a.0.len();
    let mut i: usize = 0;
    while i < n
        invariant
            i <= n,
            n == a.0.len(),
            n == b.0.len(),
            forall|j: int| 0 <= j < i ==> a.0@[j] == b.0@[j],
        decreases n - i,
    {
        if a.0[i] != b.0[i] {
            proof {
                assert(a@[i as int] != b@[i as int]);
            }
            return false;
        }
        i = i + 1;
    }
    proof {
        assert(a@ =~= b@);
    }
    true
}

/// Decides `key_lt` on the views of two slices: length first, then
/// lexicographic byte order.
pub fn slice_key_lt(a: &Slice, b: &Slice) -> (r: bool)
    ensures
        r == key_lt(a@, b@),
{
    if a.0.len() < b.0.len() {
        return true;
    }
    if a.0.len() > b.0.len() {
        return false;
    }
    let n = a.0.len();
    let mut i: usize = 0;
    proof {
        assert(a@.skip(0) =~= a@);
        assert(b@.skip(0) =~= b@);
    }
    while i < n
        invariant
            i <= n,
            n == a.0.len(),
            n == b.0.len(),
            bytes_lex_lt(a@, b@) == bytes_lex_lt(a@.skip(i as int), b@.skip(i as int)),
            forall|j: int| 0 <= j < i ==> a.0@[j] == b.0@[j],
        decreases n - i,
    {
        let x = a.0[i];
        let y = b.0[i];
        proof {
            assert(a@.skip(i as int).drop_first() =~= a@.skip(i + 1));
            assert(b@.skip(i as int).drop_first() =~= b@.skip(i + 1));
            assert(a@.skip(i as int)[0] == x);
            assert(b@.skip(i as int)[0] == y);
        }
        if x < y {
            return true;
        }
        if x > y {
            return false;
        }
        i = i + 1;
    }
    proof {
        assert(a@.skip(n as int).len() == 0);
        lemma_lex_irrefl(a@.skip(n as int));
        assert(!bytes_lex_lt(a@.skip(n as int), b@.skip(n as int)));
    }
    false
}

/// Decides `key_le` on the views of two slices.
pub fn slice_key_le(a: &Slice, b: &Slice) -> (r: bool)
    ensures
        r == key_le(a@, b@),
{
    if slice_key_lt(a, b) {
        true
    } else {
        slice_key_eq(a, b)
    }
}

/// A key domain extended with an artificial least and greatest element,
/// used as scan sentinels.
pub enum NonStandardSlice {
    MIN,
    Slice(Slice),
    MAX,
}

/// The sentinel order: `MIN` is below every proper slice and `MAX` is
/// above every proper slice; proper slices compare by `key_lt`.
pub open spec fn non_standard_lt(a: NonStandardSlice, b: NonStandardSlice) -> bool {
    match a {
        NonStandardSlice::MIN => !(b is MIN),
        NonStandardSlice::Slice(x) => match b {
            NonStandardSlice::MIN => false,
            NonStandardSlice::Slice(y) => key_lt(x@, y@),
            NonStandardSlice::MAX => true,
        },
        NonStandardSlice::MAX => false,
    }
}

impl NonStandardSlice {
    /// Returns the proper slice held by this value. The sentinels hold
    /// none, so they are excluded.
    pub fn unwrap(self) -> (r: Slice)
        requires
            self is Slice,
        ensures
            r@ == self->0@,
    {
        match self {
            NonStandardSlice::Slice(slice) => slice,
            NonStandardSlice::MIN => unreached(),
            NonStandardSlice::MAX => unreached(),
        }
    }

    /// Decides the sentinel order between two extended keys.
    pub fn lt(&self, other: &NonStandardSlice) -> (r: bool)
        ensures
            r == non_standard_lt(*self, *other),
    {
        match self {
            NonStandardSlice::MIN => !matches!(other, NonStandardSlice::MIN),
            NonStandardSlice::Slice(x) => match other {
                NonStandardSlice::MIN => false,
                NonStandardSlice::Slice(y) => slice_key_lt(x, y),
                NonStandardSlice::MAX => true,
            },
            NonStandardSlice::MAX => false,
        }
    }
}

/// The two distinguished bounds of the extended key domain.
pub trait NonStandard: Sized {
    /// The least element of the domain.
    fn min() -> Self;

    /// The greatest element of the domain.
    fn max() -> Self;
}

impl NonStandard for NonStandardSlice {
    fn min() -> (r: Self)
        ensures
            r is MIN,
    {
        NonStandardSlice::MIN
    }

    fn max() -> (r: Self)
        ensures
            r is MAX,
    {
        NonStandardSlice::MAX
    }
}

} // verus!
