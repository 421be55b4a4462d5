//! Fixed-width big-endian integers as byte strings, and their order.

use crate::order::{bytes_lt, lemma_bytes_lt_irreflexive};
use vstd::prelude::*;

verus! {

/// The low `n` bytes of `v`, most significant first.
pub open spec fn be_bytes(v: nat, n: nat) -> Seq<u8>
    decreases n,
{
    if n == 0 {
        Seq::empty()
    } else {
        be_bytes(v / 256, (n - 1) as nat).push((v % 256) as u8)
    }
}

/// The number that bytes stand for, most significant first.
pub open spec fn be_value(s: Seq<u8>) -> nat
    decreases s.len(),
{
    if s.len() == 0 {
        0
    } else {
        256 * be_value(s.drop_last()) + s.last() as nat
    }
}

/// 256 to the `n`.
pub open spec fn pow256(n: nat) -> nat
    decreases n,
{
    if n == 0 {
        1
    } else {
        256 * pow256((n - 1) as nat)
    }
}

pub proof fn lemma_be_bytes_len(v: nat, n: nat)
    ensures
        be_bytes(v, n).len() == n,
    decreases n,
{
    if n > 0 {
        lemma_be_bytes_len(v / 256, (n - 1) as nat);
    }
}

/// Reading gives back what writing wrote.
pub proof fn lemma_be_round_trip(v: nat, n: nat)
    requires
        v < pow256(n),
    ensures
        be_value(be_bytes(v, n)) == v,
    decreases n,
{
    if n > 0 {
        let p = pow256((n - 1) as nat);
        assert(v < 256 * p);
        lemma_be_round_trip(v / 256, (n - 1) as nat);
        let s = be_bytes(v, n);
        assert(s.drop_last() =~= be_bytes(v / 256, (n - 1) as nat));
        assert(s.last() == (v % 256) as u8);
    }
}

proof fn lemma_lt_push(x: Seq<u8>, y: Seq<u8>, c: u8, d: u8)
    requires
        x.len() == y.len(),
    ensures
        bytes_lt(x.push(c), y.push(d)) <==> bytes_lt(x, y) || (x == y && c < d),
    decreases x.len(),
{
    let xs = x.push(c);
    let ys = y.push(d);
    if x.len() == 0 {
        assert(x =~= y);
        assert(xs.drop_first() =~= Seq::<u8>::empty());
        assert(ys.drop_first() =~= Seq::<u8>::empty());
        assert(xs[0] == c && ys[0] == d);
        assert(!bytes_lt(xs.drop_first(), ys.drop_first()));
    } else {
        assert(xs[0] == x[0] && ys[0] == y[0]);
        assert(xs.drop_first() =~= x.drop_first().push(c));
        assert(ys.drop_first() =~= y.drop_first().push(d));
        if x[0] == y[0] {
            lemma_lt_push(x.drop_first(), y.drop_first(), c, d);
            if x.drop_first() == y.drop_first() {
                assert(x =~= seq![x[0]] + x.drop_first());
                assert(y =~= seq![y[0]] + y.drop_first());
                assert(x == y);
            }
            assert(x == y ==> x.drop_first() == y.drop_first());
            assert(bytes_lt(xs, ys) == bytes_lt(xs.drop_first(), ys.drop_first()));
            assert(bytes_lt(x, y) == bytes_lt(x.drop_first(), y.drop_first()));
        }
    }
}

/// Big-endian byte strings of one width order as their numbers do.
pub proof fn lemma_be_order(a: nat, b: nat, n: nat)
    requires
        a < pow256(n),
        b < pow256(n),
    ensures
        bytes_lt(be_bytes(a, n), be_bytes(b, n)) <==> a < b,
        be_bytes(a, n) == be_bytes(b, n) <==> a == b,
    decreases n,
{
    lemma_be_round_trip(a, n);
    lemma_be_round_trip(b, n);
    if n > 0 {
        let m = (n - 1) as nat;
        assert(a < 256 * pow256(m));
        assert(b < 256 * pow256(m));
        lemma_be_order(a / 256, b / 256, m);
        lemma_be_bytes_len(a / 256, m);
        lemma_be_bytes_len(b / 256, m);
        lemma_lt_push(
            be_bytes(a / 256, m),
            be_bytes(b / 256, m),
            (a % 256) as u8,
            (b % 256) as u8,
        );
    } else {
        lemma_bytes_lt_irreflexive(be_bytes(a, n));
    }
}

/// Appends the low `n` bytes of `v`, most significant first.
fn push_be(out: &mut Vec<u8>, v: u128, n: usize)
    ensures
        final(out)@ == old(out)@ + be_bytes(v as nat, n as nat),
    decreases n,
{
    if n > 0 {
        push_be(out, v / 256, n - 1);
        out.push((v % 256) as u8);
        assert(out@ =~= old(out)@ + be_bytes(v as nat, n as nat));
    } else {
        assert(out@ =~= old(out)@ + be_bytes(v as nat, 0));
    }
}

/// The eight bytes of `v`, most significant first.
pub fn be_u64(v: u64) -> (r: Vec<u8>)
    ensures
        r@ == be_bytes(v as nat, 8),
{
    let mut out: Vec<u8> = Vec::new();
    push_be(&mut out, v as u128, 8);
    assert(out@ =~= be_bytes(v as nat, 8));
    out
}

/// Appends the four bytes of `v`, most significant first.
pub fn push_be_u32(out: &mut Vec<u8>, v: u32)
    ensures
        final(out)@ == old(out)@ + be_bytes(v as nat, 4),
{
    push_be(out, v as u128, 4);
}

pub fn push_be_u64(out: &mut Vec<u8>, v: u64)
    ensures
        final(out)@ == old(out)@ + be_bytes(v as nat, 8),
{
    push_be(out, v as u128, 8);
}

pub fn push_be_u128(out: &mut Vec<u8>, v: u128)
    ensures
        final(out)@ == old(out)@ + be_bytes(v as nat, 16),
{
    push_be(out, v, 16);
}

proof fn lemma_be_value_bound(s: Seq<u8>)
    ensures
        be_value(s) < pow256(s.len()),
    decreases s.len(),
{
    if s.len() > 0 {
        lemma_be_value_bound(s.drop_last());
    }
}

/// The number that the bytes `from .. to` stand for.
pub fn read_be(bytes: &[u8], from: usize, to: usize) -> (r: u64)
    requires
        from <= to <= bytes@.len(),
        to - from <= 8,
    ensures
        r == be_value(bytes@.subrange(from as int, to as int)),
        r < pow256((to - from) as nat),
{
    let mut i: usize = from;
    let mut v: u64 = 0;
    assert(bytes@.subrange(from as int, from as int) =~= Seq::<u8>::empty());
    while i < to
        invariant
            from <= i <= to <= bytes@.len(),
            to - from <= 8,
            v == be_value(bytes@.subrange(from as int, i as int)),
        decreases to - i,
    {
        proof {
            lemma_be_value_bound(bytes@.subrange(from as int, i as int));
            reveal_with_fuel(pow256, 9);
            let s = bytes@.subrange(from as int, i as int + 1);
            assert(s.drop_last() =~= bytes@.subrange(from as int, i as int));
            assert(s.last() == bytes@[i as int]);
        }
        v = v * 256 + bytes[i] as u64;
        i = i + 1;
    }
    proof {
        lemma_be_value_bound(bytes@.subrange(from as int, to as int));
    }
    v
}

/// A signed integer moved up so that its order is that of unsigned ones.
pub open spec fn sign_lifted(v: int) -> nat {
    (v + 0x8000_0000_0000_0000) as nat
}

pub fn lift_i64(v: i64) -> (r: u64)
    ensures
        r == sign_lifted(v as int),
{
    ((v as i128) + 0x8000_0000_0000_0000i128) as u64
}

pub fn lower_i64(v: u64) -> (r: i64)
    ensures
        sign_lifted(r as int) == v,
{
    ((v as i128) - 0x8000_0000_0000_0000i128) as i64
}

/// `String::from_utf8`: the text that the bytes encode, if they are valid UTF-8.
#[verifier::external_body]
pub(crate) fn text_from_utf8(bytes: Vec<u8>) -> (r: Option<String>)
    ensures
        match r {
            Some(t) => vstd::utf8::valid_utf8(bytes@) && t@ == vstd::utf8::decode_utf8(bytes@),
            None => !vstd::utf8::valid_utf8(bytes@),
        },
{
    String::from_utf8(bytes).ok()
}

} // verus!
