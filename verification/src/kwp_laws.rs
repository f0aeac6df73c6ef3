//! What the Key Wrap with Padding model promises as a whole.
use vstd::prelude::*;
use crate::kwp::KwpError;
use crate::kwp_spec::{
    be32, be32_value, be64, icv_magic, initial_value, integrity_verdict, kwp_unwrap_spec,
    kwp_wrap_spec, padded, semiblock_count, semiblocks, step_index, unwrap_counter,
    unwrap_semiblock_count, unwrap_state_with, unwrap_step, unwrap_step_input, wrap_accepts,
    wrap_start, wrap_state_with, wrap_step, wrap_step_input, wrapped_len, xor_bytes,
    unwrap_final_with, unwrap_len_ok, unwrap_start, zero_from, pad_len,
};
use crate::kwp_lemmas::{
    lemma_flatten_len, lemma_padded,
};

verus! {

/// A 32-bit value read back from its big-endian bytes is the value.
pub proof fn lemma_be32_roundtrip(x: u32)
    ensures
        be32_value(be32(x)) == x,
{
    let b0 = (x >> 24u32) as u8;
    let b1 = (x >> 16u32) as u8;
    let b2 = (x >> 8u32) as u8;
    let b3 = x as u8;
    assert(be32(x)[0] == b0 && be32(x)[1] == b1 && be32(x)[2] == b2 && be32(x)[3] == b3);
    assert(((b0 as u32) << 24u32) | ((b1 as u32) << 16u32) | ((b2 as u32) << 8u32) | (b3 as u32)
        == x) by (bit_vector)
        requires
            b0 == (x >> 24u32) as u8,
            b1 == (x >> 16u32) as u8,
            b2 == (x >> 8u32) as u8,
            b3 == x as u8,
    ;
}

/// Exclusive or with the same bytes twice gives the bytes back.
pub proof fn lemma_xor_twice(a: Seq<u8>, b: Seq<u8>)
    requires
        b.len() >= a.len(),
    ensures
        xor_bytes(xor_bytes(a, b), b) == a,
{
    assert forall|i: int| 0 <= i < a.len() implies #[trigger] xor_bytes(xor_bytes(a, b), b)[i]
        == a[i] by {
        let x = a[i];
        let y = b[i];
        assert((x ^ y) ^ y == x) by (bit_vector);
    }
    assert(xor_bytes(xor_bytes(a, b), b) =~= a);
}

/// Cutting the concatenation of 8-octet semiblocks gives the semiblocks back.
pub proof fn lemma_semiblocks_of_flatten(r: Seq<Seq<u8>>)
    requires
        forall|i: int| 0 <= i < r.len() ==> (#[trigger] r[i]).len() == 8,
    ensures
        semiblocks(r.flatten()) == r,
    decreases r.len(),
{
    lemma_flatten_len(r);
    if r.len() > 0 {
        let rest = r.drop_first();
        lemma_semiblocks_of_flatten(rest);
        lemma_flatten_len(rest);
        let f = r.flatten();
        assert(f == r[0] + rest.flatten());
        assert forall|i: int| 0 <= i < r.len() implies #[trigger] semiblocks(f)[i] == r[i] by {
            if i == 0 {
                assert(f.subrange(0, 8) =~= r[0]);
            } else {
                assert(f.subrange(8 * i, 8 * i + 8) =~= rest.flatten().subrange(
                    8 * (i - 1),
                    8 * (i - 1) + 8,
                ));
                assert(semiblocks(rest.flatten())[i - 1] == rest[i - 1]);
            }
        }
        assert(semiblocks(f) =~= r);
    }
}

/// Concatenating the semiblocks of a whole number of semiblocks gives the bytes back.
pub proof fn lemma_flatten_of_semiblocks(s: Seq<u8>)
    requires
        s.len() % 8 == 0,
    ensures
        semiblocks(s).flatten() == s,
    decreases s.len(),
{
    if s.len() > 0 {
        let rest = s.skip(8);
        lemma_flatten_of_semiblocks(rest);
        assert(semiblocks(s).drop_first() =~= semiblocks(rest)) by {
            assert forall|i: int| 0 <= i < semiblocks(rest).len() implies semiblocks(s).drop_first()[i]
                == #[trigger] semiblocks(rest)[i] by {
                assert(s.subrange(8 * (i + 1), 8 * (i + 1) + 8) =~= rest.subrange(8 * i, 8 * i + 8));
            }
        }
        assert(semiblocks(s).first() =~= s.take(8));
        assert(s =~= s.take(8) + rest);
    }
}

/// Shape of the wrap states: an 8-octet register and `n` 8-octet semiblocks.
pub open spec fn state_shape(st: (Seq<u8>, Seq<Seq<u8>>), n: nat) -> bool {
    &&& st.0.len() == 8
    &&& st.1.len() == n
    &&& forall|i: int| 0 <= i < n ==> (#[trigger] st.1[i]).len() == 8
}

/// A block function that keeps 16-octet blocks at 16 octets.
pub open spec fn keeps_blocks(e: spec_fn(Seq<u8>) -> Seq<u8>) -> bool {
    forall|x: Seq<u8>| x.len() == 16 ==> (#[trigger] e(x)).len() == 16
}

/// `d` undoes `e` on every 16-octet block.
pub open spec fn inverts(d: spec_fn(Seq<u8>) -> Seq<u8>, e: spec_fn(Seq<u8>) -> Seq<u8>) -> bool {
    forall|x: Seq<u8>| x.len() == 16 ==> d(#[trigger] e(x)) == x
}

/// Every wrap state keeps its shape.
pub proof fn lemma_wrap_state_shape(p: Seq<u8>, e: spec_fn(Seq<u8>) -> Seq<u8>, k: nat)
    requires
        wrap_accepts(p),
        keeps_blocks(e),
    ensures
        state_shape(wrap_state_with(p, e, k), semiblock_count(p.len())),
    decreases k,
{
    let n = semiblock_count(p.len());
    lemma_padded(p);
    if k == 0 {
        assert(initial_value(p.len() as u32).len() == 8);
    } else {
        lemma_wrap_state_shape(p, e, (k - 1) as nat);
        let st = wrap_state_with(p, e, (k - 1) as nat);
        let input = wrap_step_input(st, k, n);
        assert(0 <= step_index(k, n) < n);
        assert(input.len() == 16);
        let nst = wrap_state_with(p, e, k);
        assert forall|i: int| 0 <= i < n implies (#[trigger] nst.1[i]).len() == 8 by {}
    }
}

/// Unwrapping step by step retraces the wrap backwards: after `m` unwrap
/// steps the state is the wrap state `6n - m`.
pub proof fn lemma_unwrap_retraces_wrap(
    p: Seq<u8>,
    e: spec_fn(Seq<u8>) -> Seq<u8>,
    d: spec_fn(Seq<u8>) -> Seq<u8>,
    m: nat,
)
    requires
        wrap_accepts(p),
        keeps_blocks(e),
        inverts(d, e),
        semiblock_count(p.len()) > 1,
        m <= 6 * semiblock_count(p.len()),
        unwrap_semiblock_count(kwp_wrap_spec(p, e).len()) == semiblock_count(p.len()),
    ensures
        unwrap_state_with(kwp_wrap_spec(p, e), d, m) == wrap_state_with(
            p,
            e,
            (6 * semiblock_count(p.len()) - m) as nat,
        ),
    decreases m,
{
    let n = semiblock_count(p.len());
    let c = kwp_wrap_spec(p, e);
    if m == 0 {
        let st = wrap_state_with(p, e, 6 * n);
        lemma_wrap_state_shape(p, e, 6 * n);
        lemma_semiblocks_of_flatten(st.1);
        assert(c.take(8) =~= st.0);
        assert(c.skip(8) =~= st.1.flatten());
    } else {
        lemma_unwrap_retraces_wrap(p, e, d, (m - 1) as nat);
        let t = (6 * n - m + 1) as nat;
        assert(unwrap_counter(n, m) == t);
        let prev = wrap_state_with(p, e, (t - 1) as nat);
        let cur = wrap_state_with(p, e, t);
        lemma_wrap_state_shape(p, e, (t - 1) as nat);
        let idx = step_index(t, n);
        assert(0 <= idx < n);
        let input = wrap_step_input(prev, t, n);
        assert(input.len() == 16);
        let o = e(input);
        assert(cur == wrap_step(prev, t, n, o));
        lemma_xor_twice(o.take(8), be64(t as u64));
        assert(unwrap_step_input(cur, t, n) =~= o);
        assert(d(o) == input);
        assert(input.take(8) =~= prev.0);
        assert(input.skip(8) =~= prev.1[idx]);
        assert(unwrap_step(cur, t, n, d(o)).1 =~= prev.1);
    }
}

/// The integrity checks accept the initial value and padded plaintext of `p`
/// and give back `p`.
pub proof fn lemma_verdict_of_wrap_start<E>(p: Seq<u8>)
    requires
        wrap_accepts(p),
    ensures
        integrity_verdict::<E>(initial_value(p.len() as u32), padded(p), semiblock_count(p.len()))
            == Ok::<Seq<u8>, KwpError<E>>(p),
{
    lemma_padded(p);
    let a = initial_value(p.len() as u32);
    assert(a.take(4) =~= icv_magic());
    assert(a.subrange(4, 8) =~= be32(p.len() as u32));
    lemma_be32_roundtrip(p.len() as u32);
    assert(padded(p).take(p.len() as int) =~= p);
}

/// Unwrapping a wrapped plaintext with the inverse block function gives the
/// plaintext back (RFC 5649, Sections 4.1 and 4.2).
pub proof fn lemma_unwrap_inverts_wrap<E>(
    p: Seq<u8>,
    e: spec_fn(Seq<u8>) -> Seq<u8>,
    d: spec_fn(Seq<u8>) -> Seq<u8>,
)
    requires
        wrap_accepts(p),
        keeps_blocks(e),
        inverts(d, e),
    ensures
        kwp_unwrap_spec::<E>(kwp_wrap_spec(p, e), d) == Ok::<Seq<u8>, KwpError<E>>(p),
{
    let n = semiblock_count(p.len());
    let c = kwp_wrap_spec(p, e);
    lemma_padded(p);
    lemma_verdict_of_wrap_start::<E>(p);
    if n == 1 {
        let x = initial_value(p.len() as u32) + padded(p);
        assert(x.len() == 16);
        assert(c.len() == 16);
        assert(unwrap_semiblock_count(c.len()) == 1);
        assert(d(c) == x);
        assert(d(c).take(8) =~= initial_value(p.len() as u32));
        assert(d(c).skip(8) =~= padded(p));
    } else {
        let st = wrap_state_with(p, e, 6 * n);
        lemma_wrap_state_shape(p, e, 6 * n);
        lemma_flatten_len(st.1);
        assert(c.len() == 8 * n + 8);
        assert(unwrap_semiblock_count(c.len()) == n) by (nonlinear_arith)
            requires
                c.len() == 8 * n + 8,
                unwrap_semiblock_count(c.len()) == (c.len() / 8 - 1) as nat,
        ;
        lemma_unwrap_retraces_wrap(p, e, d, 6 * n);
        assert(unwrap_state_with(c, d, 6 * n) == wrap_start(p));
        lemma_flatten_of_semiblocks(padded(p));
    }
}

/// The wrapped output is `8 * (ceil(len / 8) + 1)` octets long.
pub proof fn lemma_wrapped_length(p: Seq<u8>, e: spec_fn(Seq<u8>) -> Seq<u8>)
    requires
        wrap_accepts(p),
        keeps_blocks(e),
    ensures
        kwp_wrap_spec(p, e).len() == wrapped_len(p.len()),
{
    let n = semiblock_count(p.len());
    lemma_padded(p);
    if n == 1 {
        assert((initial_value(p.len() as u32) + padded(p)).len() == 16);
    } else {
        let st = wrap_state_with(p, e, 6 * n);
        lemma_wrap_state_shape(p, e, 6 * n);
        lemma_flatten_len(st.1);
    }
}


/// Four big-endian bytes are the bytes of their value.
pub proof fn lemma_be32_of_value(s: Seq<u8>)
    requires
        s.len() == 4,
    ensures
        be32(be32_value(s)) == s,
{
    let b0 = s[0];
    let b1 = s[1];
    let b2 = s[2];
    let b3 = s[3];
    let x = be32_value(s);
    assert(x == ((b0 as u32) << 24u32) | ((b1 as u32) << 16u32) | ((b2 as u32) << 8u32) | (
    b3 as u32));
    assert((x >> 24u32) as u8 == b0 && (x >> 16u32) as u8 == b1 && (x >> 8u32) as u8 == b2
        && x as u8 == b3) by (bit_vector)
        requires
            x == ((b0 as u32) << 24u32) | ((b1 as u32) << 16u32) | ((b2 as u32) << 8u32) | (
            b3 as u32),
    ;
    assert(be32(x) =~= s);
}

/// A length above `8 * (n - 1)` and at most `8 * n` pads up to `8 * n`.
pub proof fn lemma_pad_to(len: nat, n: nat)
    requires
        n >= 1,
        8 * (n - 1) < len <= 8 * n,
    ensures
        len + pad_len(len) == 8 * n,
        semiblock_count(len) == n,
{
    assert(len + pad_len(len) == 8 * n) by (nonlinear_arith)
        requires
            n >= 1,
            8 * (n - 1) < len <= 8 * n,
            pad_len(len) == ((8 - len % 8) % 8) as nat,
    ;
}

/// Every unwrap state keeps its shape.
pub proof fn lemma_unwrap_state_shape(c: Seq<u8>, d: spec_fn(Seq<u8>) -> Seq<u8>, m: nat)
    requires
        unwrap_len_ok(c),
        keeps_blocks(d),
    ensures
        state_shape(unwrap_state_with(c, d, m), unwrap_semiblock_count(c.len())),
    decreases m,
{
    let n = unwrap_semiblock_count(c.len());
    if m == 0 {
        assert((c.len() - 8) / 8 == n) by (nonlinear_arith)
            requires
                c.len() >= 16,
                c.len() % 8 == 0,
                n == (c.len() / 8 - 1) as nat,
        ;
        assert(c.skip(8).len() == c.len() - 8);
    } else {
        lemma_unwrap_state_shape(c, d, (m - 1) as nat);
        let st = unwrap_state_with(c, d, (m - 1) as nat);
        let t = unwrap_counter(n, m);
        assert(n >= 1) by (nonlinear_arith)
            requires
                c.len() >= 16,
                n == (c.len() / 8 - 1) as nat,
        ;
        assert(0 <= step_index(t, n) < n);
        let input = unwrap_step_input(st, t, n);
        assert(input.len() == 16);
        let nst = unwrap_state_with(c, d, m);
        assert forall|i: int| 0 <= i < n implies (#[trigger] nst.1[i]).len() == 8 by {}
    }
}

/// Wrapping step by step retraces an unwrap backwards: when the unwrap of
/// `c` ends in the wrap start of `p`, the wrap state after `k` steps is the
/// unwrap state `6n - k`.
pub proof fn lemma_wrap_retraces_unwrap(
    c: Seq<u8>,
    p: Seq<u8>,
    e: spec_fn(Seq<u8>) -> Seq<u8>,
    d: spec_fn(Seq<u8>) -> Seq<u8>,
    k: nat,
)
    requires
        unwrap_len_ok(c),
        keeps_blocks(d),
        inverts(e, d),
        unwrap_semiblock_count(c.len()) > 1,
        semiblock_count(p.len()) == unwrap_semiblock_count(c.len()),
        k <= 6 * unwrap_semiblock_count(c.len()),
        unwrap_state_with(c, d, 6 * unwrap_semiblock_count(c.len())) == wrap_start(p),
    ensures
        wrap_state_with(p, e, k) == unwrap_state_with(
            c,
            d,
            (6 * unwrap_semiblock_count(c.len()) - k) as nat,
        ),
    decreases k,
{
    let n = unwrap_semiblock_count(c.len());
    if k > 0 {
        lemma_wrap_retraces_unwrap(c, p, e, d, (k - 1) as nat);
        let m = (6 * n - k + 1) as nat;
        assert(unwrap_counter(n, m) == k);
        let prev = unwrap_state_with(c, d, (m - 1) as nat);
        let cur = unwrap_state_with(c, d, m);
        lemma_unwrap_state_shape(c, d, (m - 1) as nat);
        let idx = step_index(k, n);
        assert(0 <= idx < n);
        let in_u = unwrap_step_input(prev, k, n);
        assert(in_u.len() == 16);
        let o = d(in_u);
        assert(cur == unwrap_step(prev, k, n, o));
        assert(wrap_step_input(cur, k, n) =~= o);
        assert(e(o) == in_u);
        assert(in_u.take(8) =~= xor_bytes(prev.0, be64(k as u64)));
        lemma_xor_twice(prev.0, be64(k as u64));
        assert(in_u.skip(8) =~= prev.1[idx]);
        assert(wrap_step(cur, k, n, in_u).1 =~= prev.1);
    }
}

/// A ciphertext that the unwrap accepts is the wrap of the plaintext it
/// recovers, when the two block functions undo each other: the unwrap takes
/// no ciphertext but genuine wraps.
pub proof fn lemma_accepted_is_wrap<E>(
    c: Seq<u8>,
    p: Seq<u8>,
    e: spec_fn(Seq<u8>) -> Seq<u8>,
    d: spec_fn(Seq<u8>) -> Seq<u8>,
)
    requires
        keeps_blocks(e),
        keeps_blocks(d),
        inverts(d, e),
        inverts(e, d),
        kwp_unwrap_spec::<E>(c, d) == Ok::<Seq<u8>, KwpError<E>>(p),
    ensures
        wrap_accepts(p),
        kwp_wrap_spec(p, e) == c,
{
    let n = unwrap_semiblock_count(c.len());
    assert(unwrap_len_ok(c));
    assert(n >= 1) by (nonlinear_arith)
        requires
            c.len() >= 16,
            n == (c.len() / 8 - 1) as nat,
    ;
    let fin = unwrap_final_with(c, d);
    let a = fin.0;
    let pd = fin.1;
    if n == 1 {
        assert(c.len() == 16) by (nonlinear_arith)
            requires
                c.len() >= 16,
                c.len() % 8 == 0,
                c.len() / 8 - 1 == 1,
        ;
        assert(d(c).len() == 16);
    } else {
        let st = unwrap_state_with(c, d, 6 * n);
        lemma_unwrap_state_shape(c, d, 6 * n);
        lemma_flatten_len(st.1);
    }
    assert(a.len() == 8 && pd.len() == 8 * n);
    assert(a.take(4) == icv_magic());
    let mli = be32_value(a.subrange(4, 8));
    assert(8 * (n - 1) + 1 <= mli <= 8 * n);
    assert(zero_from(pd, mli as int));
    assert(p == pd.take(mli as int));
    assert(p.len() == mli);
    lemma_pad_to(p.len(), n);
    lemma_padded(p);
    lemma_be32_of_value(a.subrange(4, 8));
    assert(a =~= initial_value(p.len() as u32)) by {
        assert(a =~= a.take(4) + a.subrange(4, 8));
    }
    assert(pd =~= padded(p));
    if n == 1 {
        assert(d(c) =~= a + pd);
    } else {
        let st = unwrap_state_with(c, d, 6 * n);
        lemma_unwrap_state_shape(c, d, 6 * n);
        lemma_semiblocks_of_flatten(st.1);
        assert(st == wrap_start(p));
        lemma_wrap_retraces_unwrap(c, p, e, d, 6 * n);
        assert(wrap_state_with(p, e, 6 * n) == unwrap_start(c));
        assert(c.skip(8).len() % 8 == 0) by (nonlinear_arith)
            requires
                c.len() % 8 == 0,
                c.len() >= 16,
                c.skip(8).len() == c.len() - 8,
        ;
        lemma_flatten_of_semiblocks(c.skip(8));
        assert(c =~= c.take(8) + c.skip(8));
    }
}


/// The octets of `be32(x)`, read as a base-256 number with the most
/// significant octet first, are `x`.
pub proof fn lemma_be32_is_big_endian(x: u32)
    ensures
        be32(x).len() == 4,
        be32(x)[0] as int * 0x100_0000 + be32(x)[1] as int * 0x1_0000 + be32(x)[2] as int * 0x100
            + be32(x)[3] as int == x as int,
{
    let b0 = (x >> 24u32) as u8;
    let b1 = (x >> 16u32) as u8;
    let b2 = (x >> 8u32) as u8;
    let b3 = x as u8;
    assert((b0 as u64) * 0x100_0000u64 + (b1 as u64) * 0x1_0000u64 + (b2 as u64) * 0x100u64 + (
    b3 as u64) == x as u64) by (bit_vector)
        requires
            b0 == (x >> 24u32) as u8,
            b1 == (x >> 16u32) as u8,
            b2 == (x >> 8u32) as u8,
            b3 == x as u8,
    ;
}

/// `be32_value` reads four octets as a base-256 number, most significant
/// octet first.
pub proof fn lemma_be32_value_is_big_endian(s: Seq<u8>)
    requires
        s.len() == 4,
    ensures
        be32_value(s) as int == s[0] as int * 0x100_0000 + s[1] as int * 0x1_0000 + s[2] as int * 0x100
            + s[3] as int,
{
    let b0 = s[0];
    let b1 = s[1];
    let b2 = s[2];
    let b3 = s[3];
    assert((((b0 as u32) << 24u32) | ((b1 as u32) << 16u32) | ((b2 as u32) << 8u32) | (b3 as u32))
        as u64 == (b0 as u64) * 0x100_0000u64 + (b1 as u64) * 0x1_0000u64 + (b2 as u64) * 0x100u64
        + (b3 as u64)) by (bit_vector);
}

/// The octets of `be64(t)`, read as a base-256 number with the most
/// significant octet first, are `t`: the counter XORed into `A` is `[t]64`.
pub proof fn lemma_be64_is_big_endian(t: u64)
    ensures
        be64(t).len() == 8,
        be64(t)[0] as int * 0x100_0000_0000_0000 + be64(t)[1] as int * 0x1_0000_0000_0000
            + be64(t)[2] as int * 0x100_0000_0000 + be64(t)[3] as int * 0x1_0000_0000 + be64(t)[4] as int
            * 0x100_0000 + be64(t)[5] as int * 0x1_0000 + be64(t)[6] as int * 0x100 + be64(t)[7] as int
            == t as int,
{
    let b0 = (t >> 56u64) as u8;
    let b1 = (t >> 48u64) as u8;
    let b2 = (t >> 40u64) as u8;
    let b3 = (t >> 32u64) as u8;
    let b4 = (t >> 24u64) as u8;
    let b5 = (t >> 16u64) as u8;
    let b6 = (t >> 8u64) as u8;
    let b7 = t as u8;
    assert((b0 as u128) * 0x100_0000_0000_0000u128 + (b1 as u128) * 0x1_0000_0000_0000u128 + (b2 as u128)
        * 0x100_0000_0000u128 + (b3 as u128) * 0x1_0000_0000u128 + (b4 as u128) * 0x100_0000u128 + (
    b5 as u128) * 0x1_0000u128 + (b6 as u128) * 0x100u128 + (b7 as u128) == t as u128) by (bit_vector)
        requires
            b0 == (t >> 56u64) as u8,
            b1 == (t >> 48u64) as u8,
            b2 == (t >> 40u64) as u8,
            b3 == (t >> 32u64) as u8,
            b4 == (t >> 24u64) as u8,
            b5 == (t >> 16u64) as u8,
            b6 == (t >> 8u64) as u8,
            b7 == t as u8,
    ;
}

/// Every round works on every semiblock once, in order: step `t = n * j + i`
/// of round `j` (counting `i` from 1) works on semiblock `R[i]`, at index `i - 1`.
pub proof fn lemma_rounds_visit_every_semiblock(n: nat, j: nat, i: nat)
    requires
        n >= 1,
        j < 6,
        1 <= i <= n,
    ensures
        step_index(n * j + i, n) == i - 1,
{
    assert((n * j + i - 1) % (n as int) == i - 1) by (nonlinear_arith)
        requires
            n >= 1,
            1 <= i <= n,
    ;
}

} // verus!
