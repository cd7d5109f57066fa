//! Values as bytes: numbers, fixed and counted byte strings, options, pairs and
//! lists.
use vstd::prelude::*;

use crate::derived::bytes32;
use crate::list::List;

verus! {

/// A type whose values have a byte representation that no other value's
/// representation begins with.
pub trait Wire: View + Sized {
    /// The models that have a representation.
    spec fn legal(v: Self::V) -> bool;

    /// What a value must meet, beyond being one, to have a representation.
    spec fn sound(v: Self::V) -> bool;

    /// The representation of a model.
    spec fn bytes(v: Self::V) -> Seq<u8>;

    /// A sound value has a representation.
    proof fn lemma_own(&self)
        requires
            Self::sound(self@),
        ensures
            Self::legal(self@),
    ;

    /// What starts with the representations of two models starts with one.
    proof fn lemma_prefix_free(v: Self::V, w: Self::V, r: Seq<u8>, s: Seq<u8>)
        requires
            Self::legal(v),
            Self::legal(w),
            Self::bytes(v) + r == Self::bytes(w) + s,
        ensures
            v == w,
            r == s,
    ;

    /// Writes the representation behind what `out` holds.
    fn enc(&self, out: &mut Vec<u8>)
        ensures
            final(out)@ == old(out)@ + Self::bytes(self@),
    ;

    /// Reads the value whose representation starts at `pos`, and where it ends.
    fn dec(b: &[u8], pos: usize) -> (r: Option<(Self, usize)>)
        requires
            pos <= b@.len(),
        ensures
            r matches Some((x, n)) ==> {
                &&& pos <= n <= b@.len()
                &&& Self::legal(x@)
                &&& b@.skip(pos as int) == Self::bytes(x@) + b@.skip(n as int)
            },
            r is None ==> forall|v: Self::V, rest: Seq<u8>|
                Self::legal(v) ==> b@.skip(pos as int) != #[trigger] (Self::bytes(v) + rest),
    ;
}

/// The representation of a value.
pub fn encode<T: Wire>(x: &T) -> (r: Vec<u8>)
    ensures
        r@ == T::bytes(x@),
        T::sound(x@) ==> T::legal(x@),
{
    proof {
        if T::sound(x@) {
            x.lemma_own();
        }
    }
    let mut r: Vec<u8> = Vec::new();
    x.enc(&mut r);
    assert(r@ =~= T::bytes(x@));
    r
}

/// Values with the same representation have the same model.
pub proof fn law_bytes_determine_value<T: Wire>(v: T::V, w: T::V)
    requires
        T::legal(v),
        T::legal(w),
        T::bytes(v) == T::bytes(w),
    ensures
        v == w,
{
    T::lemma_prefix_free(v, w, Seq::empty(), Seq::empty());
}

/// The value that `b` is the representation of. What was encoded is decoded to the
/// same value.
pub fn decode<T: Wire>(b: &[u8]) -> (r: Option<T>)
    ensures
        r matches Some(x) ==> T::legal(x@) && b@ == T::bytes(x@),
        forall|v: T::V|
            T::legal(v) && b@ == #[trigger] T::bytes(v) ==> (r matches Some(x) && x@ == v),
{
    proof {
        assert(b@.skip(0) =~= b@);
    }
    match T::dec(b, 0) {
        Some((x, n)) => {
            if n == b.len() {
                proof {
                    assert(T::bytes(x@) + b@.skip(n as int) =~= T::bytes(x@));
                    assert forall|v: T::V|
                        T::legal(v) && b@ == #[trigger] T::bytes(v) implies x@ == v by {
                        law_bytes_determine_value::<T>(x@, v);
                    }
                }
                Some(x)
            } else {
                proof {
                    assert forall|v: T::V| T::legal(v) implies b@ != #[trigger] T::bytes(v) by {
                        let none = Seq::<u8>::empty();
                        assert(T::bytes(v) + none =~= T::bytes(v));
                        if b@ == T::bytes(v) {
                            T::lemma_prefix_free(x@, v, b@.skip(n as int), none);
                        }
                    }
                }
                None
            }
        },
        None => {
            proof {
                assert forall|v: T::V| T::legal(v) implies b@ != #[trigger] T::bytes(v) by {
                    assert(T::bytes(v) + Seq::<u8>::empty() =~= T::bytes(v));
                }
            }
            None
        },
    }
}

/// Whether some bytes are the representation of a `T`.
pub open spec fn represents<T: Wire>(b: Seq<u8>) -> bool {
    exists|v: T::V| T::legal(v) && b == #[trigger] T::bytes(v)
}

/// Bytes that start with the representation of no `T` start with nothing else that
/// is written as a `T` either.
pub proof fn lemma_unread<T: Wire>(b: Seq<u8>)
    requires
        forall|v: T::V, rest: Seq<u8>| T::legal(v) ==> b != #[trigger] (T::bytes(v) + rest),
    ensures
        forall|w: Seq<u8>, rest: Seq<u8>| represents::<T>(w) ==> b != #[trigger] (w + rest),
{
    assert forall|w: Seq<u8>, rest: Seq<u8>| represents::<T>(w) implies b != #[trigger] (w
        + rest) by {
        let v = choose|v: T::V| T::legal(v) && w == #[trigger] T::bytes(v);
        assert(w + rest == T::bytes(v) + rest);
    }
}

/// What `dec` says it does finds each value whose representation it is given, and what
/// stands behind it.
pub proof fn lemma_found_again<T: Wire>(
    b: Seq<u8>,
    pos: int,
    r: Option<(T, usize)>,
    v: T::V,
    rest: Seq<u8>,
)
    requires
        r matches Some((x, n)) ==> {
            &&& T::legal(x@)
            &&& b.skip(pos) == T::bytes(x@) + b.skip(n as int)
        },
        r is None ==> forall|w: T::V, rest: Seq<u8>|
            T::legal(w) ==> b.skip(pos) != #[trigger] (T::bytes(w) + rest),
        T::legal(v),
        b.skip(pos) == T::bytes(v) + rest,
    ensures
        r matches Some((x, n)) && x@ == v && b.skip(n as int) == rest,
{
    if let Some((x, n)) = r {
        T::lemma_prefix_free(x@, v, b.skip(n as int), rest);
    }
}

/// Two bytes, the high one first.
pub open spec fn be16(x: u16) -> Seq<u8> {
    seq![(x / 0x100) as u8, (x % 0x100) as u8]
}

/// Four bytes, the highest first.
pub open spec fn be32(x: u32) -> Seq<u8> {
    seq![
        (x / 0x1000000) as u8,
        (x / 0x10000 % 0x100) as u8,
        (x / 0x100 % 0x100) as u8,
        (x % 0x100) as u8,
    ]
}

/// Eight bytes, the highest first.
pub open spec fn be64(x: u64) -> Seq<u8> {
    be32((x / 0x1_0000_0000) as u32) + be32((x % 0x1_0000_0000) as u32)
}

/// The parts of a concatenation are determined by the length of the first.
proof fn lemma_cut(a: Seq<u8>, b: Seq<u8>, r: Seq<u8>, s: Seq<u8>)
    requires
        a + r == b + s,
        a.len() == b.len(),
    ensures
        a == b,
        r == s,
{
    let n = a.len() as int;
    assert((a + r).take(n) =~= a);
    assert((b + s).take(n) =~= b);
    assert((a + r).skip(n) =~= r);
    assert((b + s).skip(n) =~= s);
}

/// Bytes that hold too few for `a` do not start with `a`.
proof fn lemma_short(b: Seq<u8>, pos: int, a: Seq<u8>, rest: Seq<u8>)
    requires
        0 <= pos <= b.len(),
        b.len() - pos < a.len(),
    ensures
        b.skip(pos) != a + rest,
{
    assert(b.skip(pos).len() < (a + rest).len());
}

/// What follows position `pos` starts with the bytes up to `n`.
proof fn lemma_take_skip(b: Seq<u8>, pos: int, n: int)
    requires
        0 <= pos <= n <= b.len(),
    ensures
        b.skip(pos) == b.subrange(pos, n) + b.skip(n),
{
    assert(b.skip(pos) =~= b.subrange(pos, n) + b.skip(n));
}

impl Wire for u8 {
    open spec fn legal(v: u8) -> bool {
        true
    }

    open spec fn sound(v: u8) -> bool {
        true
    }

    open spec fn bytes(v: u8) -> Seq<u8> {
        seq![v]
    }

    proof fn lemma_prefix_free(v: u8, w: u8, r: Seq<u8>, s: Seq<u8>) {
        lemma_cut(seq![v], seq![w], r, s);
        assert(seq![v][0] == seq![w][0]);
    }

    proof fn lemma_own(&self) {
    }

    fn enc(&self, out: &mut Vec<u8>) {
        out.push(*self);
        assert(out@ =~= old(out)@ + seq![*self]);
    }

    fn dec(b: &[u8], pos: usize) -> (r: Option<(u8, usize)>) {
        if b.len() - pos < 1 {
            proof {
                assert forall|v: u8, rest: Seq<u8>| b@.skip(pos as int) != #[trigger] (Self::bytes(
                    v,
                ) + rest) by {
                    lemma_short(b@, pos as int, Self::bytes(v), rest);
                }
            }
            return None;
        }
        let x: u8 = b[pos];
        proof {
            lemma_take_skip(b@, pos as int, pos + 1);
            assert(b@.subrange(pos as int, pos + 1) =~= seq![x]);
        }
        Some((x, pos + 1))
    }
}

impl Wire for u16 {
    open spec fn legal(v: u16) -> bool {
        true
    }

    open spec fn sound(v: u16) -> bool {
        true
    }

    open spec fn bytes(v: u16) -> Seq<u8> {
        be16(v)
    }

    proof fn lemma_prefix_free(v: u16, w: u16, r: Seq<u8>, s: Seq<u8>) {
        lemma_cut(be16(v), be16(w), r, s);
        assert(be16(v)[0] == be16(w)[0]);
        assert(be16(v)[1] == be16(w)[1]);
    }

    proof fn lemma_own(&self) {
    }

    fn enc(&self, out: &mut Vec<u8>) {
        out.push((*self / 0x100) as u8);
        out.push((*self % 0x100) as u8);
        assert(out@ =~= old(out)@ + be16(*self));
    }

    fn dec(b: &[u8], pos: usize) -> (r: Option<(u16, usize)>) {
        if b.len() - pos < 2 {
            proof {
                assert forall|v: u16, rest: Seq<u8>| b@.skip(pos as int) != #[trigger] (Self::bytes(
                    v,
                ) + rest) by {
                    lemma_short(b@, pos as int, Self::bytes(v), rest);
                }
            }
            return None;
        }
        let x: u16 = b[pos] as u16 * 0x100 + b[pos + 1] as u16;
        proof {
            lemma_take_skip(b@, pos as int, pos + 2);
            assert(b@.subrange(pos as int, pos + 2) =~= be16(x));
        }
        Some((x, pos + 2))
    }
}

/// Four bytes as the places of a number to the base 256.
proof fn lemma_be32_parts(a: u8, b: u8, c: u8, d: u8, x: u32)
    requires
        x == a * 0x1000000 + b * 0x10000 + c * 0x100 + d,
    ensures
        x / 0x1000000 == a,
        x / 0x10000 % 0x100 == b,
        x / 0x100 % 0x100 == c,
        x % 0x100 == d,
{
    assert(x / 0x1000000 == a && x / 0x10000 % 0x100 == b && x / 0x100 % 0x100 == c && x % 0x100
        == d) by (bit_vector)
        requires
            x == a * 0x1000000 + b * 0x10000 + c * 0x100 + d,
    ;
}

impl Wire for u32 {
    open spec fn legal(v: u32) -> bool {
        true
    }

    open spec fn sound(v: u32) -> bool {
        true
    }

    open spec fn bytes(v: u32) -> Seq<u8> {
        be32(v)
    }

    proof fn lemma_prefix_free(v: u32, w: u32, r: Seq<u8>, s: Seq<u8>) {
        lemma_cut(be32(v), be32(w), r, s);
        assert(be32(v)[0] == be32(w)[0]);
        assert(be32(v)[1] == be32(w)[1]);
        assert(be32(v)[2] == be32(w)[2]);
        assert(be32(v)[3] == be32(w)[3]);
    }

    proof fn lemma_own(&self) {
    }

    fn enc(&self, out: &mut Vec<u8>) {
        let x: u32 = *self;
        out.push((x / 0x1000000) as u8);
        out.push((x / 0x10000 % 0x100) as u8);
        out.push((x / 0x100 % 0x100) as u8);
        out.push((x % 0x100) as u8);
        assert(out@ =~= old(out)@ + be32(x));
    }

    fn dec(b: &[u8], pos: usize) -> (r: Option<(u32, usize)>) {
        if b.len() - pos < 4 {
            proof {
                assert forall|v: u32, rest: Seq<u8>| b@.skip(pos as int) != #[trigger] (Self::bytes(
                    v,
                ) + rest) by {
                    lemma_short(b@, pos as int, Self::bytes(v), rest);
                }
            }
            return None;
        }
        let x: u32 = b[pos] as u32 * 0x1000000 + b[pos + 1] as u32 * 0x10000 + b[pos + 2] as u32
            * 0x100 + b[pos + 3] as u32;
        proof {
            lemma_take_skip(b@, pos as int, pos + 4);
            lemma_be32_parts(b@[pos as int], b@[pos + 1], b@[pos + 2], b@[pos + 3], x);
            assert(b@.subrange(pos as int, pos + 4) =~= be32(x));
        }
        Some((x, pos + 4))
    }
}

impl Wire for u64 {
    open spec fn legal(v: u64) -> bool {
        true
    }

    open spec fn sound(v: u64) -> bool {
        true
    }

    open spec fn bytes(v: u64) -> Seq<u8> {
        be64(v)
    }

    proof fn lemma_prefix_free(v: u64, w: u64, r: Seq<u8>, s: Seq<u8>) {
        let a = ((v / 0x1_0000_0000) as u32, (v % 0x1_0000_0000) as u32);
        let b = ((w / 0x1_0000_0000) as u32, (w % 0x1_0000_0000) as u32);
        assert(Self::bytes(v) == <(u32, u32)>::bytes(a));
        assert(Self::bytes(w) == <(u32, u32)>::bytes(b));
        <(u32, u32)>::lemma_prefix_free(a, b, r, s);
        assert(v == 0x1_0000_0000 * (v / 0x1_0000_0000) + v % 0x1_0000_0000);
        assert(w == 0x1_0000_0000 * (w / 0x1_0000_0000) + w % 0x1_0000_0000);
    }

    proof fn lemma_own(&self) {
    }

    fn enc(&self, out: &mut Vec<u8>) {
        let x: u64 = *self;
        let hi: u32 = (x / 0x1_0000_0000) as u32;
        let lo: u32 = (x % 0x1_0000_0000) as u32;
        hi.enc(out);
        lo.enc(out);
        assert(out@ =~= old(out)@ + be64(x));
    }

    fn dec(b: &[u8], pos: usize) -> (r: Option<(u64, usize)>) {
        match <(u32, u32)>::dec(b, pos) {
            Some(((hi, lo), n)) => {
                let x: u64 = hi as u64 * 0x1_0000_0000 + lo as u64;
                assert(x / 0x1_0000_0000 == hi);
                assert(x % 0x1_0000_0000 == lo);
                Some((x, n))
            },
            None => {
                proof {
                    assert forall|v: u64, rest: Seq<u8>| b@.skip(pos as int) != #[trigger] (
                    Self::bytes(v) + rest) by {
                        let halves = ((v / 0x1_0000_0000) as u32, (v % 0x1_0000_0000) as u32);
                        assert(Self::bytes(v) + rest == <(u32, u32)>::bytes(halves) + rest);
                    }
                }
                None
            },
        }
    }
}

impl Wire for [u8; 32] {
    open spec fn legal(v: Seq<u8>) -> bool {
        v.len() == 32
    }

    open spec fn sound(v: Seq<u8>) -> bool {
        true
    }

    open spec fn bytes(v: Seq<u8>) -> Seq<u8> {
        v
    }

    proof fn lemma_prefix_free(v: Seq<u8>, w: Seq<u8>, r: Seq<u8>, s: Seq<u8>) {
        lemma_cut(v, w, r, s);
    }

    proof fn lemma_own(&self) {
    }

    fn enc(&self, out: &mut Vec<u8>) {
        out.extend_from_slice(self.as_slice());
        assert(out@ =~= old(out)@ + self@);
    }

    fn dec(b: &[u8], pos: usize) -> (r: Option<([u8; 32], usize)>) {
        if b.len() - pos < 32 {
            proof {
                assert forall|v: Seq<u8>, rest: Seq<u8>|
                    Self::legal(v) implies b@.skip(pos as int) != #[trigger] (Self::bytes(v)
                    + rest) by {
                    lemma_short(b@, pos as int, v, rest);
                }
            }
            return None;
        }
        proof {
            lemma_take_skip(b@, pos as int, pos + 32);
        }
        Some((bytes32(b, pos), pos + 32))
    }
}

impl Wire for Vec<u8> {
    open spec fn legal(v: Seq<u8>) -> bool {
        v.len() <= usize::MAX
    }

    open spec fn sound(v: Seq<u8>) -> bool {
        true
    }

    open spec fn bytes(v: Seq<u8>) -> Seq<u8> {
        be64(v.len() as u64) + v
    }

    proof fn lemma_prefix_free(v: Seq<u8>, w: Seq<u8>, r: Seq<u8>, s: Seq<u8>) {
        assert(Self::bytes(v) + r =~= be64(v.len() as u64) + (v + r));
        assert(Self::bytes(w) + s =~= be64(w.len() as u64) + (w + s));
        u64::lemma_prefix_free(v.len() as u64, w.len() as u64, v + r, w + s);
        lemma_cut(v, w, r, s);
    }

    proof fn lemma_own(&self) {
        vstd::std_specs::vec::axiom_spec_len(self);
    }

    fn enc(&self, out: &mut Vec<u8>) {
        let n: u64 = self.len() as u64;
        n.enc(out);
        out.extend_from_slice(self.as_slice());
        assert(out@ =~= old(out)@ + Self::bytes(self@));
    }

    fn dec(b: &[u8], pos: usize) -> (r: Option<(Vec<u8>, usize)>) {
        match u64::dec(b, pos) {
            Some((n, from)) => {
                if ((b.len() - from) as u64) < n {
                    proof {
                        assert forall|v: Seq<u8>, rest: Seq<u8>|
                            Self::legal(v) implies b@.skip(pos as int) != #[trigger] (Self::bytes(v)
                            + rest) by {
                            if b@.skip(pos as int) == Self::bytes(v) + rest {
                                assert(Self::bytes(v) + rest =~= be64(v.len() as u64) + (v + rest));
                                u64::lemma_prefix_free(
                                    n,
                                    v.len() as u64,
                                    b@.skip(from as int),
                                    v + rest,
                                );
                                lemma_short(b@, from as int, v, rest);
                            }
                        }
                    }
                    return None;
                }
                let to: usize = from + n as usize;
                let mut r: Vec<u8> = Vec::new();
                r.extend_from_slice(vstd::slice::slice_subrange(b, from, to));
                proof {
                    assert(r@ =~= b@.subrange(from as int, to as int));
                    lemma_take_skip(b@, from as int, to as int);
                    assert(be64(n) + (r@ + b@.skip(to as int)) =~= Self::bytes(r@) + b@.skip(
                        to as int,
                    ));
                }
                Some((r, to))
            },
            None => {
                proof {
                    assert forall|v: Seq<u8>, rest: Seq<u8>|
                        Self::legal(v) implies b@.skip(pos as int) != #[trigger] (Self::bytes(v)
                        + rest) by {
                        assert(Self::bytes(v) + rest =~= u64::bytes(v.len() as u64) + (v + rest));
                    }
                }
                None
            },
        }
    }
}

impl<A: Wire, B: Wire> Wire for (A, B) {
    open spec fn legal(v: (A::V, B::V)) -> bool {
        A::legal(v.0) && B::legal(v.1)
    }

    open spec fn sound(v: (A::V, B::V)) -> bool {
        A::sound(v.0) && B::sound(v.1)
    }

    open spec fn bytes(v: (A::V, B::V)) -> Seq<u8> {
        A::bytes(v.0) + B::bytes(v.1)
    }

    proof fn lemma_prefix_free(
        v: (A::V, B::V),
        w: (A::V, B::V),
        r: Seq<u8>,
        s: Seq<u8>,
    ) {
        assert(Self::bytes(v) + r =~= A::bytes(v.0) + (B::bytes(v.1) + r));
        assert(Self::bytes(w) + s =~= A::bytes(w.0) + (B::bytes(w.1) + s));
        A::lemma_prefix_free(v.0, w.0, B::bytes(v.1) + r, B::bytes(w.1) + s);
        B::lemma_prefix_free(v.1, w.1, r, s);
    }

    proof fn lemma_own(&self) {
        self.0.lemma_own();
        self.1.lemma_own();
    }

    fn enc(&self, out: &mut Vec<u8>) {
        self.0.enc(out);
        self.1.enc(out);
        assert(out@ =~= old(out)@ + Self::bytes(self@));
    }

    fn dec(b: &[u8], pos: usize) -> (r: Option<((A, B), usize)>) {
        match A::dec(b, pos) {
            Some((x, n)) => match B::dec(b, n) {
                Some((y, m)) => {
                    proof {
                        assert(A::bytes(x@) + (B::bytes(y@) + b@.skip(m as int)) =~= Self::bytes(
                            (x@, y@),
                        ) + b@.skip(m as int));
                    }
                    Some(((x, y), m))
                },
                None => {
                    proof {
                        assert forall|v: (A::V, B::V), rest: Seq<u8>|
                            Self::legal(v) implies b@.skip(pos as int) != #[trigger] (Self::bytes(v)
                            + rest) by {
                            if b@.skip(pos as int) == Self::bytes(v) + rest {
                                let tail = B::bytes(v.1) + rest;
                                assert(Self::bytes(v) + rest =~= A::bytes(v.0) + tail);
                                A::lemma_prefix_free(x@, v.0, b@.skip(n as int), tail);
                            }
                        }
                    }
                    None
                },
            },
            None => {
                proof {
                    assert forall|v: (A::V, B::V), rest: Seq<u8>|
                        Self::legal(v) implies b@.skip(pos as int) != #[trigger] (Self::bytes(v)
                        + rest) by {
                        assert(Self::bytes(v) + rest =~= A::bytes(v.0) + (B::bytes(v.1) + rest));
                    }
                }
                None
            },
        }
    }
}

/// A value that may be missing.
pub struct Maybe<T>(pub Option<T>);

impl<T: View> View for Maybe<T> {
    type V = Option<T::V>;

    open spec fn view(&self) -> Option<T::V> {
        match self.0 {
            None => None,
            Some(x) => Some(x@),
        }
    }
}

impl<T: Wire> Wire for Maybe<T> {
    open spec fn legal(v: Option<T::V>) -> bool {
        v matches Some(x) ==> T::legal(x)
    }

    open spec fn sound(v: Option<T::V>) -> bool {
        v matches Some(x) ==> T::sound(x)
    }

    open spec fn bytes(v: Option<T::V>) -> Seq<u8> {
        match v {
            None => seq![0u8],
            Some(x) => seq![1u8] + T::bytes(x),
        }
    }

    proof fn lemma_prefix_free(v: Option<T::V>, w: Option<T::V>, r: Seq<u8>, s: Seq<u8>) {
        assert((Self::bytes(v) + r)[0] == Self::bytes(v)[0]);
        assert((Self::bytes(w) + s)[0] == Self::bytes(w)[0]);
        match (v, w) {
            (Some(x), Some(y)) => {
                assert(Self::bytes(v) + r =~= seq![1u8] + (T::bytes(x) + r));
                assert(Self::bytes(w) + s =~= seq![1u8] + (T::bytes(y) + s));
                lemma_cut(seq![1u8], seq![1u8], T::bytes(x) + r, T::bytes(y) + s);
                T::lemma_prefix_free(x, y, r, s);
            },
            (None, None) => {
                lemma_cut(seq![0u8], seq![0u8], r, s);
            },
            _ => {},
        }
    }

    proof fn lemma_own(&self) {
        if let Some(x) = self.0 {
            x.lemma_own();
        }
    }

    fn enc(&self, out: &mut Vec<u8>) {
        match &self.0 {
            None => {
                out.push(0u8);
                assert(out@ =~= old(out)@ + Self::bytes(self@));
            },
            Some(x) => {
                out.push(1u8);
                x.enc(out);
                assert(out@ =~= old(out)@ + Self::bytes(self@));
            },
        }
    }

    fn dec(b: &[u8], pos: usize) -> (r: Option<(Maybe<T>, usize)>) {
        if b.len() - pos < 1 {
            proof {
                assert forall|v: Option<T::V>, rest: Seq<u8>|
                    Self::legal(v) implies b@.skip(pos as int) != #[trigger] (Self::bytes(v)
                    + rest) by {
                    lemma_short(b@, pos as int, Self::bytes(v), rest);
                }
            }
            return None;
        }
        let tag: u8 = b[pos];
        proof {
            lemma_take_skip(b@, pos as int, pos + 1);
            assert(b@.subrange(pos as int, pos + 1) =~= seq![tag]);
        }
        if tag == 0 {
            return Some((Maybe(None), pos + 1));
        }
        if tag != 1 {
            proof {
                assert forall|v: Option<T::V>, rest: Seq<u8>|
                    Self::legal(v) implies b@.skip(pos as int) != #[trigger] (Self::bytes(v)
                    + rest) by {
                    assert((Self::bytes(v) + rest)[0] == Self::bytes(v)[0]);
                    assert(b@.skip(pos as int)[0] == tag);
                }
            }
            return None;
        }
        match T::dec(b, pos + 1) {
            Some((x, n)) => {
                proof {
                    assert(seq![1u8] + (T::bytes(x@) + b@.skip(n as int)) =~= Self::bytes(
                        Some(x@),
                    ) + b@.skip(n as int));
                }
                Some((Maybe(Some(x)), n))
            },
            None => {
                proof {
                    assert forall|v: Option<T::V>, rest: Seq<u8>|
                        Self::legal(v) implies b@.skip(pos as int) != #[trigger] (Self::bytes(v)
                        + rest) by {
                        if b@.skip(pos as int) == Self::bytes(v) + rest {
                            assert((Self::bytes(v) + rest)[0] == Self::bytes(v)[0]);
                            assert(b@.skip(pos as int)[0] == tag);
                            let x = v->0;
                            assert(Self::bytes(v) + rest =~= seq![1u8] + (T::bytes(x) + rest));
                            lemma_cut(
                                seq![1u8],
                                seq![1u8],
                                b@.skip(pos + 1),
                                T::bytes(x) + rest,
                            );
                        }
                    }
                }
                None
            },
        }
    }
}

/// The representations of the items of a list, one after the other.
pub open spec fn items_bytes<T: Wire>(s: Seq<T::V>) -> Seq<u8>
    decreases s.len(),
{
    if s.len() == 0 {
        Seq::empty()
    } else {
        T::bytes(s[0]) + items_bytes::<T>(s.drop_first())
    }
}

proof fn lemma_items_push<T: Wire>(s: Seq<T::V>, x: T::V)
    ensures
        items_bytes::<T>(s.push(x)) == items_bytes::<T>(s) + T::bytes(x),
    decreases s.len(),
{
    if s.len() == 0 {
        assert(s.push(x).drop_first() =~= s);
        assert(items_bytes::<T>(s.push(x)) =~= items_bytes::<T>(s) + T::bytes(x));
    } else {
        assert(s.push(x).drop_first() =~= s.drop_first().push(x));
        lemma_items_push::<T>(s.drop_first(), x);
        assert(items_bytes::<T>(s.push(x)) =~= items_bytes::<T>(s) + T::bytes(x));
    }
}

/// Items that were read are the first of any list that the bytes hold.
proof fn lemma_items_prefix<T: Wire>(
    s: Seq<T::V>,
    t: Seq<T::V>,
    r: Seq<u8>,
    q: Seq<u8>,
)
    requires
        s.len() <= t.len(),
        forall|i: int| 0 <= i < s.len() ==> T::legal(#[trigger] s[i]),
        forall|i: int| 0 <= i < t.len() ==> T::legal(#[trigger] t[i]),
        items_bytes::<T>(s) + r == items_bytes::<T>(t) + q,
    ensures
        s == t.take(s.len() as int),
        r == items_bytes::<T>(t.skip(s.len() as int)) + q,
    decreases s.len(),
{
    if s.len() == 0 {
        assert(t.skip(0) =~= t);
        assert(s =~= t.take(0));
        assert(items_bytes::<T>(s) + r =~= r);
    } else {
        let s1 = s.drop_first();
        let t1 = t.drop_first();
        assert(items_bytes::<T>(s) + r =~= T::bytes(s[0]) + (items_bytes::<T>(s1) + r));
        assert(items_bytes::<T>(t) + q =~= T::bytes(t[0]) + (items_bytes::<T>(t1) + q));
        T::lemma_prefix_free(s[0], t[0], items_bytes::<T>(s1) + r, items_bytes::<T>(t1) + q);
        lemma_items_prefix::<T>(s1, t1, r, q);
        assert(t1.skip(s1.len() as int) =~= t.skip(s.len() as int));
        assert forall|i: int| 0 <= i < s.len() implies s[i] == t[i] by {
            if i > 0 {
                assert(s1[i - 1] == t1.take(s1.len() as int)[i - 1]);
            }
        }
        assert(s =~= t.take(s.len() as int));
    }
}

impl<T: Wire> Wire for List<T> {
    open spec fn legal(v: Seq<T::V>) -> bool {
        &&& v.len() <= usize::MAX
        &&& forall|i: int| 0 <= i < v.len() ==> T::legal(#[trigger] v[i])
    }

    open spec fn sound(v: Seq<T::V>) -> bool {
        forall|i: int| 0 <= i < v.len() ==> T::sound(#[trigger] v[i])
    }

    open spec fn bytes(v: Seq<T::V>) -> Seq<u8> {
        be64(v.len() as u64) + items_bytes::<T>(v)
    }

    proof fn lemma_prefix_free(v: Seq<T::V>, w: Seq<T::V>, r: Seq<u8>, s: Seq<u8>) {
        let a = items_bytes::<T>(v) + r;
        let b = items_bytes::<T>(w) + s;
        assert(Self::bytes(v) + r =~= be64(v.len() as u64) + a);
        assert(Self::bytes(w) + s =~= be64(w.len() as u64) + b);
        u64::lemma_prefix_free(v.len() as u64, w.len() as u64, a, b);
        lemma_items_prefix::<T>(v, w, r, s);
        assert(w.take(v.len() as int) =~= w);
        assert(w.skip(v.len() as int) =~= Seq::<T::V>::empty());
        assert(items_bytes::<T>(Seq::<T::V>::empty()) + s =~= s);
    }

    proof fn lemma_own(&self) {
        self.lemma_len();
        assert forall|i: int| 0 <= i < self@.len() implies T::legal(#[trigger] self@[i]) by {
            let x = self.lemma_item(i);
            x.lemma_own();
        }
    }

    fn enc(&self, out: &mut Vec<u8>) {
        let n: usize = self.len();
        (n as u64).enc(out);
        let mut i: usize = 0;
        proof {
            assert(self@.take(0) =~= Seq::<T::V>::empty());
            assert(out@ =~= old(out)@ + (be64(n as u64) + items_bytes::<T>(self@.take(0))));
        }
        while i < n
            invariant
                n == self@.len(),
                i <= n,
                out@ == old(out)@ + (be64(n as u64) + items_bytes::<T>(self@.take(i as int))),
            decreases n - i,
        {
            self.at(i).enc(out);
            proof {
                lemma_items_push::<T>(self@.take(i as int), self@[i as int]);
                assert(self@.take(i as int).push(self@[i as int]) =~= self@.take(i + 1));
                assert(out@ =~= old(out)@ + (be64(n as u64) + items_bytes::<T>(self@.take(i + 1))));
            }
            i = i + 1;
        }
        assert(self@.take(n as int) =~= self@);
    }

    fn dec(b: &[u8], pos: usize) -> (r: Option<(List<T>, usize)>) {
        match u64::dec(b, pos) {
            Some((count, from)) => {
                if count > usize::MAX as u64 {
                    proof {
                        assert forall|v: Seq<T::V>, rest: Seq<u8>|
                            Self::legal(v) implies b@.skip(pos as int) != #[trigger] (Self::bytes(v)
                            + rest) by {
                            if b@.skip(pos as int) == Self::bytes(v) + rest {
                                let tail = items_bytes::<T>(v) + rest;
                                assert(Self::bytes(v) + rest =~= be64(v.len() as u64) + tail);
                                u64::lemma_prefix_free(
                                    count,
                                    v.len() as u64,
                                    b@.skip(from as int),
                                    tail,
                                );
                            }
                        }
                    }
                    return None;
                }
                let n: usize = count as usize;
                let mut r: List<T> = List::nil();
                let mut p: usize = from;
                let mut i: usize = 0;
                assert(items_bytes::<T>(r@) + b@.skip(p as int) =~= b@.skip(p as int));
                while i < n
                    invariant
                        n == count,
                        pos <= from <= p <= b@.len(),
                        i <= n,
                        r@.len() == i,
                        forall|k: int| 0 <= k < i ==> T::legal(#[trigger] r@[k]),
                        b@.skip(pos as int) == be64(count) + b@.skip(from as int),
                        b@.skip(from as int) == items_bytes::<T>(r@) + b@.skip(p as int),
                    decreases n - i,
                {
                    match T::dec(b, p) {
                        Some((x, q)) => {
                            let ghost before = r@;
                            r.snoc(x);
                            proof {
                                lemma_items_push::<T>(before, x@);
                                assert(items_bytes::<T>(before) + (T::bytes(x@) + b@.skip(q as int))
                                    =~= items_bytes::<T>(r@) + b@.skip(q as int));
                            }
                            p = q;
                            i = i + 1;
                        },
                        None => {
                            proof {
                                assert forall|v: Seq<T::V>, rest: Seq<u8>|
                                    Self::legal(v) implies b@.skip(pos as int) != #[trigger] (
                                Self::bytes(v) + rest) by {
                                    if b@.skip(pos as int) == Self::bytes(v) + rest {
                                        let tail = items_bytes::<T>(v) + rest;
                                        assert(Self::bytes(v) + rest =~= be64(v.len() as u64)
                                            + tail);
                                        u64::lemma_prefix_free(
                                            count,
                                            v.len() as u64,
                                            b@.skip(from as int),
                                            tail,
                                        );
                                        lemma_items_prefix::<T>(r@, v, b@.skip(p as int), rest);
                                        let left = v.skip(i as int);
                                        assert(left[0] == v[i as int]);
                                        let more = items_bytes::<T>(left.drop_first()) + rest;
                                        assert(items_bytes::<T>(left) + rest =~= T::bytes(left[0])
                                            + more);
                                    }
                                }
                            }
                            return None;
                        },
                    }
                }
                proof {
                    assert(be64(count) + (items_bytes::<T>(r@) + b@.skip(p as int))
                        =~= Self::bytes(r@) + b@.skip(p as int));
                }
                Some((r, p))
            },
            None => {
                proof {
                    assert forall|v: Seq<T::V>, rest: Seq<u8>|
                        Self::legal(v) implies b@.skip(pos as int) != #[trigger] (Self::bytes(v)
                        + rest) by {
                        let tail = items_bytes::<T>(v) + rest;
                        assert(Self::bytes(v) + rest =~= u64::bytes(v.len() as u64) + tail);
                    }
                }
                None
            },
        }
    }
}

} // verus!
