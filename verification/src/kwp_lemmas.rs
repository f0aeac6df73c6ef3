//! Supporting facts about the Key Wrap with Padding model.
use vstd::prelude::*;
use crate::kwp_spec::{
    pad_len, padded, semiblock_count, semiblocks, wrap_trace_state, wrap_state_with,
    wrap_call_input, wrap_trace, computes, cipher_returns, unwrap_trace_state,
    unwrap_state_with, unwrap_call_input, unwrap_trace, unwrap_semiblock_count, zero_from,
    first_nonzero,
};

verus! {

/// The padded plaintext fills whole semiblocks.
pub proof fn lemma_padded(p: Seq<u8>)
    ensures
        padded(p).len() == p.len() + pad_len(p.len()),
        padded(p).len() % 8 == 0,
        padded(p).len() == 8 * semiblock_count(p.len()),
        p.len() >= 1 ==> semiblock_count(p.len()) >= 1,
        pad_len(p.len()) < 8,
        forall|i: int| 0 <= i < p.len() ==> padded(p)[i] == p[i],
        forall|i: int| p.len() <= i < padded(p).len() ==> padded(p)[i] == 0,
{
    let len = p.len();
    assert((len + pad_len(len)) % 8 == 0) by (nonlinear_arith)
        requires
            pad_len(len) == ((8 - len % 8) % 8) as nat,
    ;
    assert(padded(p).len() == 8 * semiblock_count(p.len())) by (nonlinear_arith)
        requires
            padded(p).len() == len + pad_len(len),
            (len + pad_len(len)) % 8 == 0,
            semiblock_count(len) == (len + pad_len(len)) / 8,
    ;
}

/// A concatenation of 8-octet semiblocks is eight times as long as their count.
pub proof fn lemma_flatten_len(r: Seq<Seq<u8>>)
    requires
        forall|i: int| 0 <= i < r.len() ==> (#[trigger] r[i]).len() == 8,
    ensures
        r.flatten().len() == 8 * r.len(),
    decreases r.len(),
{
    if r.len() > 0 {
        lemma_flatten_len(r.drop_first());
    }
}

/// The wrap state after `k` steps depends only on the first `k` cipher outputs.
pub proof fn lemma_wrap_trace_prefix(p: Seq<u8>, o1: Seq<Seq<u8>>, o2: Seq<Seq<u8>>, k: nat)
    requires
        forall|j: int| 0 <= j < k ==> o1[j] == o2[j],
    ensures
        wrap_trace_state(p, o1, k) == wrap_trace_state(p, o2, k),
    decreases k,
{
    if k > 0 {
        lemma_wrap_trace_prefix(p, o1, o2, (k - 1) as nat);
    }
}

/// The unwrap state after `m` steps depends only on the first `m` decipher outputs.
pub proof fn lemma_unwrap_trace_prefix(c: Seq<u8>, o1: Seq<Seq<u8>>, o2: Seq<Seq<u8>>, m: nat)
    requires
        forall|j: int| 0 <= j < m ==> o1[j] == o2[j],
    ensures
        unwrap_trace_state(c, o1, m) == unwrap_trace_state(c, o2, m),
    decreases m,
{
    if m > 0 {
        lemma_unwrap_trace_prefix(c, o1, o2, (m - 1) as nat);
    }
}

/// A call that `f` answered, when `f` computes `e`, returned `e` of its block.
pub proof fn lemma_returns_computed<F: Fn(&[u8; 16]) -> Result<[u8; 16], E>, E>(
    f: F,
    e: spec_fn(Seq<u8>) -> Seq<u8>,
    input: Seq<u8>,
    output: Seq<u8>,
)
    requires
        computes(f, e),
        cipher_returns(f, input, output),
    ensures
        output == e(input),
{
    let (blk, out) = choose|blk: [u8; 16], out: [u8; 16]|
        blk@ == input && out@ == output && #[trigger] call_ensures(
            f,
            (&blk,),
            Ok::<[u8; 16], E>(out),
        );
    assert(call_ensures(f, (&blk,), Ok::<[u8; 16], E>(out)));
}

/// When `f` computes `e`, a wrap trace of `f` follows the wrap under `e`.
pub proof fn lemma_wrap_trace_computes<F: Fn(&[u8; 16]) -> Result<[u8; 16], E>, E>(
    f: F,
    e: spec_fn(Seq<u8>) -> Seq<u8>,
    p: Seq<u8>,
    outs: Seq<Seq<u8>>,
    k: nat,
)
    requires
        computes(f, e),
        semiblock_count(p.len()) > 1,
        k <= outs.len(),
        wrap_trace(f, p, outs, outs.len()),
    ensures
        wrap_trace_state(p, outs, k) == wrap_state_with(p, e, k),
    decreases k,
{
    if k > 0 {
        lemma_wrap_trace_computes(f, e, p, outs, (k - 1) as nat);
        let j = (k - 1) as nat;
        assert(cipher_returns(f, wrap_call_input(p, outs, j), outs[j as int]));
        lemma_returns_computed(f, e, wrap_call_input(p, outs, j), outs[j as int]);
    }
}

/// When `f` computes `d`, an unwrap trace of `f` follows the unwrap under `d`.
pub proof fn lemma_unwrap_trace_computes<F: Fn(&[u8; 16]) -> Result<[u8; 16], E>, E>(
    f: F,
    d: spec_fn(Seq<u8>) -> Seq<u8>,
    c: Seq<u8>,
    outs: Seq<Seq<u8>>,
    m: nat,
)
    requires
        computes(f, d),
        unwrap_semiblock_count(c.len()) > 1,
        m <= outs.len(),
        unwrap_trace(f, c, outs, outs.len()),
    ensures
        unwrap_trace_state(c, outs, m) == unwrap_state_with(c, d, m),
    decreases m,
{
    if m > 0 {
        lemma_unwrap_trace_computes(f, d, c, outs, (m - 1) as nat);
        let j = (m - 1) as nat;
        assert(cipher_returns(f, unwrap_call_input(c, outs, j), outs[j as int]));
        lemma_returns_computed(f, d, unwrap_call_input(c, outs, j), outs[j as int]);
    }
}


/// The first non-zero octet from `from` on is the one the scan stopped at.
pub proof fn lemma_first_nonzero(pd: Seq<u8>, from: int, i: int)
    requires
        0 <= from <= i < pd.len(),
        pd[i] != 0,
        zero_from(pd.take(i), from),
    ensures
        first_nonzero(pd, from) == i,
{
    let w = first_nonzero(pd, from);
    assert(from <= w < pd.len() && pd[w] != 0 && zero_from(pd.take(w), from));
    if w < i {
        assert(pd.take(i)[w] == pd[w]);
    } else if w > i {
        assert(pd.take(w)[i] == pd[i]);
    }
}

} // verus!
