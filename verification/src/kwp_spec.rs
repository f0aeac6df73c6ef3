//! Mathematical model of RFC 5649 Key Wrap with Padding.
//!
//! A wrap state is a pair `(A, R)`: the 8-byte integrity register `A` and the
//! semiblocks `R[0..n]` of the padded plaintext.
use vstd::prelude::*;
use crate::kwp::KwpError;

verus! {

/// Fixed 32-bit prefix of the alternative initial value (RFC 5649, Section 3).
pub open spec fn icv_magic() -> Seq<u8> {
    seq![0xA6u8, 0x59u8, 0x59u8, 0xA6u8]
}

/// Big-endian bytes of a 32-bit value.
pub open spec fn be32(x: u32) -> Seq<u8> {
    seq![(x >> 24u32) as u8, (x >> 16u32) as u8, (x >> 8u32) as u8, x as u8]
}

/// The 32-bit value of four big-endian bytes.
pub open spec fn be32_value(s: Seq<u8>) -> u32 {
    ((s[0] as u32) << 24u32) | ((s[1] as u32) << 16u32) | ((s[2] as u32) << 8u32) | (s[3] as u32)
}

/// Big-endian bytes of a 64-bit value.
pub open spec fn be64(t: u64) -> Seq<u8> {
    seq![
        (t >> 56u64) as u8,
        (t >> 48u64) as u8,
        (t >> 40u64) as u8,
        (t >> 32u64) as u8,
        (t >> 24u64) as u8,
        (t >> 16u64) as u8,
        (t >> 8u64) as u8,
        t as u8,
    ]
}

/// Bytewise exclusive or, as long as the first operand.
pub open spec fn xor_bytes(a: Seq<u8>, b: Seq<u8>) -> Seq<u8> {
    Seq::new(a.len(), |i: int| a[i] ^ b[i])
}

/// The alternative initial value: magic prefix, then the message length.
pub open spec fn initial_value(mli: u32) -> Seq<u8> {
    icv_magic() + be32(mli)
}

/// Number of zero octets that bring a length up to a multiple of eight.
pub open spec fn pad_len(len: nat) -> nat {
    ((8 - len % 8) % 8) as nat
}

pub open spec fn zeros(n: nat) -> Seq<u8> {
    Seq::new(n, |i: int| 0u8)
}

/// The plaintext followed by its zero padding.
pub open spec fn padded(p: Seq<u8>) -> Seq<u8> {
    p + zeros(pad_len(p.len()))
}

/// Number of 64-bit semiblocks in the padded plaintext.
pub open spec fn semiblock_count(len: nat) -> nat {
    (len + pad_len(len)) / 8
}

/// Splits a byte string into consecutive 8-byte semiblocks.
pub open spec fn semiblocks(s: Seq<u8>) -> Seq<Seq<u8>> {
    Seq::new(s.len() / 8, |i: int| s.subrange(8 * i, 8 * i + 8))
}

/// Plaintext lengths that the wrap accepts.
pub open spec fn wrap_accepts(p: Seq<u8>) -> bool {
    1 <= p.len() <= u32::MAX
}

/// Number of block-cipher calls that wrapping `n` semiblocks takes.
pub open spec fn rounds(n: nat) -> nat {
    if n == 1 {
        1
    } else {
        6 * n
    }
}

/// Length of the wrapped output of a plaintext of length `len`.
pub open spec fn wrapped_len(len: nat) -> nat {
    8 * semiblock_count(len) + 8
}

/// Index of the semiblock that step `t` (counted from 1) works on.
pub open spec fn step_index(t: nat, n: nat) -> int {
    (t - 1) % (n as int)
}

/// Block handed to the cipher at wrap step `t`: `A || R[i]`.
pub open spec fn wrap_step_input(st: (Seq<u8>, Seq<Seq<u8>>), t: nat, n: nat) -> Seq<u8> {
    st.0 + st.1[step_index(t, n)]
}

/// State after wrap step `t` given the cipher output `out`:
/// `A = MSB64(out) ^ [t]64`, `R[i] = LSB64(out)`.
pub open spec fn wrap_step(st: (Seq<u8>, Seq<Seq<u8>>), t: nat, n: nat, out: Seq<u8>) -> (
    Seq<u8>,
    Seq<Seq<u8>>,
) {
    (xor_bytes(out.take(8), be64(t as u64)), st.1.update(step_index(t, n), out.skip(8)))
}

/// Block handed to the cipher at unwrap step `t`: `(A ^ [t]64) || R[i]`.
pub open spec fn unwrap_step_input(st: (Seq<u8>, Seq<Seq<u8>>), t: nat, n: nat) -> Seq<u8> {
    xor_bytes(st.0, be64(t as u64)) + st.1[step_index(t, n)]
}

/// State after unwrap step `t` given the decipher output `out`:
/// `A = MSB64(out)`, `R[i] = LSB64(out)`.
pub open spec fn unwrap_step(st: (Seq<u8>, Seq<Seq<u8>>), t: nat, n: nat, out: Seq<u8>) -> (
    Seq<u8>,
    Seq<Seq<u8>>,
) {
    (out.take(8), st.1.update(step_index(t, n), out.skip(8)))
}

/// The state the wrap starts from.
pub open spec fn wrap_start(p: Seq<u8>) -> (Seq<u8>, Seq<Seq<u8>>) {
    (initial_value(p.len() as u32), semiblocks(padded(p)))
}


/// Wrap state after `k` steps when the cipher returned `outs[j]` at step `j + 1`.
pub open spec fn wrap_trace_state(p: Seq<u8>, outs: Seq<Seq<u8>>, k: nat) -> (
    Seq<u8>,
    Seq<Seq<u8>>,
)
    decreases k,
{
    if k == 0 {
        wrap_start(p)
    } else {
        wrap_step(
            wrap_trace_state(p, outs, (k - 1) as nat),
            k,
            semiblock_count(p.len()),
            outs[k - 1],
        )
    }
}

/// Block the wrap hands to the cipher at call `k` (counted from 0).
pub open spec fn wrap_call_input(p: Seq<u8>, outs: Seq<Seq<u8>>, k: nat) -> Seq<u8> {
    if semiblock_count(p.len()) == 1 {
        initial_value(p.len() as u32) + padded(p)
    } else {
        wrap_step_input(wrap_trace_state(p, outs, k), k + 1, semiblock_count(p.len()))
    }
}

/// Wrapped output, given the outputs of all cipher calls.
pub open spec fn wrap_trace_output(p: Seq<u8>, outs: Seq<Seq<u8>>) -> Seq<u8> {
    let n = semiblock_count(p.len());
    if n == 1 {
        outs[0]
    } else {
        let st = wrap_trace_state(p, outs, 6 * n);
        st.0 + st.1.flatten()
    }
}

/// Wrap state after `k` steps under the block function `e`.
pub open spec fn wrap_state_with(p: Seq<u8>, e: spec_fn(Seq<u8>) -> Seq<u8>, k: nat) -> (
    Seq<u8>,
    Seq<Seq<u8>>,
)
    decreases k,
{
    if k == 0 {
        wrap_start(p)
    } else {
        let n = semiblock_count(p.len());
        let st = wrap_state_with(p, e, (k - 1) as nat);
        wrap_step(st, k, n, e(wrap_step_input(st, k, n)))
    }
}

/// RFC 5649 wrap of `p` under the block function `e`.
pub open spec fn kwp_wrap_spec(p: Seq<u8>, e: spec_fn(Seq<u8>) -> Seq<u8>) -> Seq<u8> {
    let n = semiblock_count(p.len());
    if n == 1 {
        e(initial_value(p.len() as u32) + padded(p))
    } else {
        let st = wrap_state_with(p, e, 6 * n);
        st.0 + st.1.flatten()
    }
}

/// Ciphertext lengths that reach the block function.
pub open spec fn unwrap_len_ok(c: Seq<u8>) -> bool {
    c.len() >= 16 && c.len() % 8 == 0
}

/// Number of semiblocks a ciphertext of length `len` carries after `A`.
pub open spec fn unwrap_semiblock_count(len: nat) -> nat {
    (len / 8 - 1) as nat
}

/// The state the unwrap starts from: `A = C[0]`, `R = C[1..]`.
pub open spec fn unwrap_start(c: Seq<u8>) -> (Seq<u8>, Seq<Seq<u8>>) {
    (c.take(8), semiblocks(c.skip(8)))
}

/// Counter of unwrap step `m` (counted from 1); the counters run down from `6n`.
pub open spec fn unwrap_counter(n: nat, m: nat) -> nat {
    (6 * n - m + 1) as nat
}

/// Unwrap state after `m` steps when the decipher returned `outs[j]` at step `j + 1`.
pub open spec fn unwrap_trace_state(c: Seq<u8>, outs: Seq<Seq<u8>>, m: nat) -> (
    Seq<u8>,
    Seq<Seq<u8>>,
)
    decreases m,
{
    if m == 0 {
        unwrap_start(c)
    } else {
        let n = unwrap_semiblock_count(c.len());
        unwrap_step(
            unwrap_trace_state(c, outs, (m - 1) as nat),
            unwrap_counter(n, m),
            n,
            outs[m - 1],
        )
    }
}

/// Block the unwrap hands to the decipher at call `m` (counted from 0).
pub open spec fn unwrap_call_input(c: Seq<u8>, outs: Seq<Seq<u8>>, m: nat) -> Seq<u8> {
    let n = unwrap_semiblock_count(c.len());
    if n == 1 {
        c
    } else {
        unwrap_step_input(unwrap_trace_state(c, outs, m), unwrap_counter(n, m + 1), n)
    }
}

/// The recovered register `A` and padded plaintext, given all decipher outputs.
pub open spec fn unwrap_trace_final(c: Seq<u8>, outs: Seq<Seq<u8>>) -> (Seq<u8>, Seq<u8>) {
    let n = unwrap_semiblock_count(c.len());
    if n == 1 {
        (outs[0].take(8), outs[0].skip(8))
    } else {
        let st = unwrap_trace_state(c, outs, 6 * n);
        (st.0, st.1.flatten())
    }
}

/// Unwrap state after `m` steps under the block function `d`.
pub open spec fn unwrap_state_with(c: Seq<u8>, d: spec_fn(Seq<u8>) -> Seq<u8>, m: nat) -> (
    Seq<u8>,
    Seq<Seq<u8>>,
)
    decreases m,
{
    if m == 0 {
        unwrap_start(c)
    } else {
        let n = unwrap_semiblock_count(c.len());
        let st = unwrap_state_with(c, d, (m - 1) as nat);
        let t = unwrap_counter(n, m);
        unwrap_step(st, t, n, d(unwrap_step_input(st, t, n)))
    }
}

/// The recovered register `A` and padded plaintext under the block function `d`.
pub open spec fn unwrap_final_with(c: Seq<u8>, d: spec_fn(Seq<u8>) -> Seq<u8>) -> (
    Seq<u8>,
    Seq<u8>,
) {
    let n = unwrap_semiblock_count(c.len());
    if n == 1 {
        (d(c).take(8), d(c).skip(8))
    } else {
        let st = unwrap_state_with(c, d, 6 * n);
        (st.0, st.1.flatten())
    }
}

/// Every octet of `pd` from index `from` on is zero.
pub open spec fn zero_from(pd: Seq<u8>, from: int) -> bool {
    forall|i: int| from <= i < pd.len() ==> pd[i] == 0
}

/// The first index from `from` on that holds a non-zero octet.
pub open spec fn first_nonzero(pd: Seq<u8>, from: int) -> int {
    choose|i: int| from <= i < pd.len() && pd[i] != 0 && zero_from(pd.take(i), from)
}

/// The checks that end the unwrap: ICV magic, message length in range, zero padding.
pub open spec fn integrity_verdict<E>(a: Seq<u8>, pd: Seq<u8>, n: nat) -> Result<
    Seq<u8>,
    KwpError<E>,
> {
    if a.take(4) != icv_magic() {
        Err(KwpError::IcvMismatch)
    } else {
        let mli = be32_value(a.subrange(4, 8)) as int;
        let min = 8 * (n - 1) + 1;
        let max = 8 * n;
        if mli < min || mli > max {
            Err(KwpError::MliOutOfRange { mli: mli as usize, min: min as usize, max: max as usize })
        } else if !zero_from(pd, mli) {
            Err(KwpError::NonZeroPadding { offset: first_nonzero(pd, mli) as usize })
        } else {
            Ok(pd.take(mli))
        }
    }
}

/// RFC 5649 unwrap of `c` under the block function `d`.
pub open spec fn kwp_unwrap_spec<E>(c: Seq<u8>, d: spec_fn(Seq<u8>) -> Seq<u8>) -> Result<
    Seq<u8>,
    KwpError<E>,
> {
    if c.len() < 16 {
        Err(KwpError::CiphertextTooShort { len: c.len() as usize })
    } else if c.len() % 8 != 0 {
        Err(KwpError::CiphertextMisaligned { len: c.len() as usize })
    } else {
        let fin = unwrap_final_with(c, d);
        integrity_verdict(fin.0, fin.1, unwrap_semiblock_count(c.len()))
    }
}

/// `f` returned `Ok(output)` on the block `input`.
pub open spec fn cipher_returns<F: Fn(&[u8; 16]) -> Result<[u8; 16], E>, E>(
    f: F,
    input: Seq<u8>,
    output: Seq<u8>,
) -> bool {
    exists|blk: [u8; 16], out: [u8; 16]|
        blk@ == input && out@ == output && #[trigger] call_ensures(
            f,
            (&blk,),
            Ok::<[u8; 16], E>(out),
        )
}

/// `f` returned `Err(err)` on the block `input`.
pub open spec fn cipher_fails<F: Fn(&[u8; 16]) -> Result<[u8; 16], E>, E>(
    f: F,
    input: Seq<u8>,
    err: E,
) -> bool {
    exists|blk: [u8; 16]| blk@ == input && #[trigger] call_ensures(f, (&blk,), Err::<[u8; 16], E>(err))
}

/// Every call of `f` succeeds and returns `e` of its block.
pub open spec fn computes<F: Fn(&[u8; 16]) -> Result<[u8; 16], E>, E>(
    f: F,
    e: spec_fn(Seq<u8>) -> Seq<u8>,
) -> bool {
    forall|blk: [u8; 16], r: Result<[u8; 16], E>|
        #[trigger] call_ensures(f, (&blk,), r) ==> (r matches Ok(out) && out@ == e(blk@))
}

/// No call of `f` fails.
pub open spec fn never_fails<F: Fn(&[u8; 16]) -> Result<[u8; 16], E>, E>(f: F) -> bool {
    forall|blk: [u8; 16], r: Result<[u8; 16], E>| #[trigger] call_ensures(f, (&blk,), r) ==> r is Ok
}

/// `f` accepts every block.
pub open spec fn always_callable<F: Fn(&[u8; 16]) -> Result<[u8; 16], E>, E>(f: F) -> bool {
    forall|blk: [u8; 16]| #[trigger] call_requires(f, (&blk,))
}

/// The first `k` wrap calls returned `outs`.
pub open spec fn wrap_trace<F: Fn(&[u8; 16]) -> Result<[u8; 16], E>, E>(
    f: F,
    p: Seq<u8>,
    outs: Seq<Seq<u8>>,
    k: nat,
) -> bool {
    &&& outs.len() == k
    &&& forall|j: int| 0 <= j < k ==> cipher_returns(f, wrap_call_input(p, outs, j as nat), #[trigger] outs[j])
}

/// The first `k` unwrap calls returned `outs`.
pub open spec fn unwrap_trace<F: Fn(&[u8; 16]) -> Result<[u8; 16], E>, E>(
    f: F,
    c: Seq<u8>,
    outs: Seq<Seq<u8>>,
    k: nat,
) -> bool {
    &&& outs.len() == k
    &&& forall|j: int| 0 <= j < k ==> cipher_returns(f, unwrap_call_input(c, outs, j as nat), #[trigger] outs[j])
}


/// The value a wrap or unwrap result stands for.
pub open spec fn outcome<E>(r: Result<Vec<u8>, KwpError<E>>) -> Result<Seq<u8>, KwpError<E>> {
    match r {
        Ok(v) => Ok(v@),
        Err(e) => Err(e),
    }
}



} // verus!
