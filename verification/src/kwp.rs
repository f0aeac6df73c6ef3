//! RFC 5649 Key Wrap with Padding over a caller-supplied block function.
use vstd::prelude::*;
use crate::kwp_spec::{
    initial_value, padded, pad_len, semiblock_count, semiblocks, xor_bytes, be64, zeros,
    wrap_accepts, wrapped_len, rounds, wrap_trace, wrap_trace_output, wrap_trace_state,
    wrap_call_input, step_index, cipher_returns, cipher_fails, computes, never_fails,
    always_callable, kwp_wrap_spec, wrap_start, integrity_verdict, outcome, icv_magic,
    be32_value, zero_from, unwrap_len_ok, unwrap_semiblock_count, unwrap_trace,
    unwrap_trace_final, unwrap_trace_state, unwrap_call_input, unwrap_start, kwp_unwrap_spec,
};
use crate::kwp_lemmas::{
    lemma_padded, lemma_flatten_len, lemma_wrap_trace_prefix, lemma_wrap_trace_computes,
    lemma_first_nonzero, lemma_unwrap_trace_prefix, lemma_unwrap_trace_computes,
};

verus! {

/// Why a wrap or unwrap did not produce a result.
#[derive(Debug, PartialEq, Eq)]
pub enum KwpError<E> {
    /// The plaintext is empty.
    EmptyPlaintext,
    /// The plaintext is longer than `2^32 - 1` octets.
    PlaintextTooLong { len: usize },
    /// The ciphertext is shorter than 16 octets.
    CiphertextTooShort { len: usize },
    /// The ciphertext length is not a multiple of 8.
    CiphertextMisaligned { len: usize },
    /// The recovered register does not start with the ICV magic.
    IcvMismatch,
    /// The recovered message length does not fit the ciphertext.
    MliOutOfRange { mli: usize, min: usize, max: usize },
    /// A padding octet is not zero.
    NonZeroPadding { offset: usize },
    /// The block function failed.
    Cipher(E),
}

/// The semiblocks held in `r`, as byte strings.
pub open spec fn semis_view(r: Seq<[u8; 8]>) -> Seq<Seq<u8>> {
    Seq::new(r.len(), |i: int| r[i]@)
}

/// `A = 0xA65959A6 || [MLI]32`.
fn initial_value_block(mli: u32) -> (a: [u8; 8])
    ensures
        a@ == initial_value(mli),
{
    let a: [u8; 8] = [
        0xA6u8,
        0x59u8,
        0x59u8,
        0xA6u8,
        (mli >> 24u32) as u8,
        (mli >> 16u32) as u8,
        (mli >> 8u32) as u8,
        mli as u8,
    ];
    assert(a@ =~= initial_value(mli));
    a
}

/// The plaintext followed by zero octets up to a multiple of eight.
fn pad_plaintext(p: &[u8]) -> (v: Vec<u8>)
    ensures
        v@ == padded(p@),
{
    let mut v: Vec<u8> = Vec::new();
    let mut i: usize = 0;
    while i < p.len()
        invariant
            i <= p.len(),
            v@ == p@.take(i as int),
        decreases p.len() - i,
    {
        v.push(p[i]);
        i += 1;
        assert(v@ =~= p@.take(i as int));
    }
    assert(v@ =~= p@);
    let pad: usize = (8 - p.len() % 8) % 8;
    assert(pad == pad_len(p@.len()));
    let mut j: usize = 0;
    while j < pad
        invariant
            j <= pad,
            pad == pad_len(p@.len()),
            v@ == p@ + zeros(j as nat),
        decreases pad - j,
    {
        v.push(0u8);
        j += 1;
        assert(v@ =~= p@ + zeros(j as nat));
    }
    v
}

/// The eight octets of `s` from `off` on.
fn semiblock_at(s: &[u8], off: usize) -> (b: [u8; 8])
    requires
        off + 8 <= s@.len(),
    ensures
        b@ == s@.subrange(off as int, off + 8),
{
    let b: [u8; 8] = [
        s[off],
        s[off + 1],
        s[off + 2],
        s[off + 3],
        s[off + 4],
        s[off + 5],
        s[off + 6],
        s[off + 7],
    ];
    assert(b@ =~= s@.subrange(off as int, off + 8));
    b
}

/// Splits `s` from `off` on into its 8-octet semiblocks.
fn split_semiblocks(s: &[u8], off: usize) -> (r: Vec<[u8; 8]>)
    requires
        off <= s@.len(),
        (s@.len() - off) % 8 == 0,
    ensures
        semis_view(r@) == semiblocks(s@.skip(off as int)),
{
    let slen = s.len();
    let len = slen - off;
    let count = len / 8;
    let mut r: Vec<[u8; 8]> = Vec::new();
    let mut i: usize = 0;
    while i < count
        invariant
            i <= count,
            count == len / 8,
            off <= s@.len(),
            slen == s@.len(),
            len == s@.len() - off,
            len % 8 == 0,
            r@.len() == i,
            forall|j: int| 0 <= j < i ==> (#[trigger] r@[j])@ == s@.subrange(off + 8 * j, off + 8 * j + 8),
        decreases count - i,
    {
        assert(8 * i + 8 <= len) by (nonlinear_arith)
            requires
                i < count,
                count == len / 8,
        ;
        let b = semiblock_at(s, off + 8 * i);
        r.push(b);
        i += 1;
    }
    assert forall|j: int| 0 <= j < count implies #[trigger] semiblocks(s@.skip(off as int))[j]
        == s@.subrange(off + 8 * j, off + 8 * j + 8) by {
        assert(s@.skip(off as int).subrange(8 * j, 8 * j + 8) =~= s@.subrange(off + 8 * j, off + 8 * j + 8));
    }
    assert(semis_view(r@) =~= semiblocks(s@.skip(off as int)));
    r
}

/// `a || b` as one 16-octet block.
fn join_block(a: &[u8; 8], b: &[u8; 8]) -> (blk: [u8; 16])
    ensures
        blk@ == a@ + b@,
{
    let blk: [u8; 16] = [
        a[0],
        a[1],
        a[2],
        a[3],
        a[4],
        a[5],
        a[6],
        a[7],
        b[0],
        b[1],
        b[2],
        b[3],
        b[4],
        b[5],
        b[6],
        b[7],
    ];
    assert(blk@ =~= a@ + b@);
    blk
}

/// The most significant half of a block.
fn high_half(blk: &[u8; 16]) -> (h: [u8; 8])
    ensures
        h@ == blk@.take(8),
{
    let h: [u8; 8] = [blk[0], blk[1], blk[2], blk[3], blk[4], blk[5], blk[6], blk[7]];
    assert(h@ =~= blk@.take(8));
    h
}

/// The least significant half of a block.
fn low_half(blk: &[u8; 16]) -> (l: [u8; 8])
    ensures
        l@ == blk@.skip(8),
{
    let l: [u8; 8] = [blk[8], blk[9], blk[10], blk[11], blk[12], blk[13], blk[14], blk[15]];
    assert(l@ =~= blk@.skip(8));
    l
}

/// `h ^ [t]64`.
fn xor_counter(h: &[u8; 8], t: u64) -> (x: [u8; 8])
    ensures
        x@ == xor_bytes(h@, be64(t)),
{
    let x: [u8; 8] = [
        h[0] ^ ((t >> 56u64) as u8),
        h[1] ^ ((t >> 48u64) as u8),
        h[2] ^ ((t >> 40u64) as u8),
        h[3] ^ ((t >> 32u64) as u8),
        h[4] ^ ((t >> 24u64) as u8),
        h[5] ^ ((t >> 16u64) as u8),
        h[6] ^ ((t >> 8u64) as u8),
        h[7] ^ (t as u8),
    ];
    assert(x@ =~= xor_bytes(h@, be64(t)));
    x
}

/// Appends the eight octets of `b`.
fn push_semiblock(out: &mut Vec<u8>, b: &[u8; 8])
    ensures
        final(out)@ == old(out)@ + b@,
{
    let mut i: usize = 0;
    while i < 8
        invariant
            i <= 8,
            out@ == old(out)@ + b@.take(i as int),
        decreases 8 - i,
    {
        out.push(b[i]);
        i += 1;
        assert(out@ =~= old(out)@ + b@.take(i as int));
    }
    assert(b@.take(8) =~= b@);
}

/// Appends `R[0] || ... || R[n-1]`.
fn append_semiblocks(out: &mut Vec<u8>, r: &Vec<[u8; 8]>)
    ensures
        final(out)@ == old(out)@ + semis_view(r@).flatten(),
{
    assert(old(out)@ =~= old(out)@ + semis_view(r@.take(0)).flatten());
    let mut k: usize = 0;
    while k < r.len()
        invariant
            k <= r@.len(),
            out@ == old(out)@ + semis_view(r@.take(k as int)).flatten(),
        decreases r.len() - k,
    {
        let ghost before = semis_view(r@.take(k as int));
        push_semiblock(out, &r[k]);
        proof {
            assert(semis_view(r@.take(k + 1)) =~= before.push(r@[k as int]@));
            before.lemma_flatten_push(r@[k as int]@);
        }
        k += 1;
    }
    assert(r@.take(r@.len() as int) =~= r@);
}

/// `head || R[0] || ... || R[n-1]`.
fn assemble(head: &[u8; 8], r: &Vec<[u8; 8]>) -> (out: Vec<u8>)
    ensures
        out@ == head@ + semis_view(r@).flatten(),
{
    let mut out: Vec<u8> = Vec::new();
    push_semiblock(&mut out, head);
    assert(out@ =~= head@);
    append_semiblocks(&mut out, r);
    out
}

/// The sixteen octets of a block as a vector.
fn block_to_vec(blk: &[u8; 16]) -> (v: Vec<u8>)
    ensures
        v@ == blk@,
{
    let mut v: Vec<u8> = Vec::new();
    let mut i: usize = 0;
    while i < 16
        invariant
            i <= 16,
            v@ == blk@.take(i as int),
        decreases 16 - i,
    {
        v.push(blk[i]);
        i += 1;
        assert(v@ =~= blk@.take(i as int));
    }
    assert(blk@.take(16) =~= blk@);
    v
}

/// Wraps a plaintext payload using RFC 5649 Key Wrap with Padding (KWP).
///
/// `encrypt_block` is the single-block encryption: it maps a 16-octet block
/// to its 16-octet ciphertext under the key-encryption key.
///
/// The plaintext must hold between 1 and `2^32 - 1` octets. The output is
/// `8 * (ceil(len / 8) + 1)` octets long: one block when the padded plaintext
/// is a single semiblock, else the register `A` followed by the semiblocks
/// after six rounds of the wrapping function W.
pub fn kwp_wrap<F, E>(plaintext: &[u8], encrypt_block: F) -> (result: Result<Vec<u8>, KwpError<E>>) where
    F: Fn(&[u8; 16]) -> Result<[u8; 16], E>,

    requires
        always_callable(encrypt_block),
    ensures
        plaintext@.len() == 0 ==> result matches Err(KwpError::EmptyPlaintext),
        plaintext@.len() > u32::MAX ==> (result matches Err(KwpError::PlaintextTooLong { len })
            && len == plaintext@.len()),
        wrap_accepts(plaintext@) ==> (result is Ok || result matches Err(KwpError::Cipher(_))),
        result matches Ok(c) ==> {
            &&& wrap_accepts(plaintext@)
            &&& c@.len() == wrapped_len(plaintext@.len())
            &&& exists|outs: Seq<Seq<u8>>|
                #[trigger] wrap_trace(
                    encrypt_block,
                    plaintext@,
                    outs,
                    rounds(semiblock_count(plaintext@.len())),
                ) && c@ == wrap_trace_output(plaintext@, outs)
        },
        result matches Err(KwpError::Cipher(err)) ==> {
            &&& wrap_accepts(plaintext@)
            &&& exists|outs: Seq<Seq<u8>>|
                #[trigger] wrap_trace(encrypt_block, plaintext@, outs, outs.len())
                    && outs.len() < rounds(semiblock_count(plaintext@.len()))
                    && cipher_fails(encrypt_block, wrap_call_input(plaintext@, outs, outs.len()), err)
        },
        wrap_accepts(plaintext@) && never_fails(encrypt_block) ==> result is Ok,
        forall|e: spec_fn(Seq<u8>) -> Seq<u8>|
            wrap_accepts(plaintext@) && #[trigger] computes(encrypt_block, e) ==> (result matches Ok(c)
                && c@ == kwp_wrap_spec(plaintext@, e)),
{
    let ghost p = plaintext@;
    let mli = plaintext.len();
    if mli == 0 {
        return Err(KwpError::EmptyPlaintext);
    }
    if mli > 0xFFFF_FFFFusize {
        return Err(KwpError::PlaintextTooLong { len: mli });
    }
    // Form the 64-bit ICV: 0xA65959A6 || [MLI]32
    let a0 = initial_value_block(mli as u32);
    // Pad the plaintext with zeros to an 8-octet boundary
    let pd = pad_plaintext(plaintext);
    let n = pd.len() / 8;
    proof {
        lemma_padded(p);
        assert(n == semiblock_count(p.len()));
    }
    if n == 1 {
        // Single semiblock: one encryption of A || P[1]
        let p0 = semiblock_at(pd.as_slice(), 0);
        let b = join_block(&a0, &p0);
        assert(pd@.subrange(0, 8) =~= pd@);
        let res = encrypt_block(&b);
        match res {
            Ok(c) => {
                let v = block_to_vec(&c);
                let ghost outs = seq![c@];
                proof {
                    assert(cipher_returns(encrypt_block, wrap_call_input(p, outs, 0), outs[0]));
                    assert(wrap_trace(encrypt_block, p, outs, rounds(n as nat)));
                    assert forall|e: spec_fn(Seq<u8>) -> Seq<u8>|
                        #[trigger] computes(encrypt_block, e) implies v@ == kwp_wrap_spec(p, e) by {
                        assert(call_ensures(encrypt_block, (&b,), res));
                    }
                }
                return Ok(v);
            },
            Err(err) => {
                let ghost outs: Seq<Seq<u8>> = seq![];
                proof {
                    assert(call_ensures(encrypt_block, (&b,), Err::<[u8; 16], E>(err)));
                    assert(cipher_fails(encrypt_block, wrap_call_input(p, outs, 0), err));
                    assert(wrap_trace(encrypt_block, p, outs, outs.len()));
                    assert forall|e: spec_fn(Seq<u8>) -> Seq<u8>|
                        #[trigger] computes(encrypt_block, e) implies false by {
                        assert(call_ensures(encrypt_block, (&b,), Err::<[u8; 16], E>(err)));
                    }
                }
                return Err(KwpError::Cipher(err));
            },
        }
    }
    // Several semiblocks: R[1..n] and six rounds of n steps, with t = n * j + i
    let mut a = a0;
    let mut r = split_semiblocks(pd.as_slice(), 0);
    assert(pd@.skip(0) =~= pd@);
    let total = 6 * n;
    let mut k: usize = 0;
    let ghost mut outs: Seq<Seq<u8>> = Seq::empty();
    proof {
        assert(semis_view(r@).len() == r@.len());
        assert((a@, semis_view(r@)) == wrap_start(p));
    }
    while k < total
        invariant
            wrap_accepts(p),
            p == plaintext@,
            n == semiblock_count(p.len()),
            n > 1,
            total == 6 * n,
            k <= total,
            r@.len() == n,
            always_callable(encrypt_block),
            wrap_trace(encrypt_block, p, outs, k as nat),
            (a@, semis_view(r@)) == wrap_trace_state(p, outs, k as nat),
        decreases total - k,
    {
        let idx = k % n;
        let t = (k + 1) as u64;
        // B = ENC(A || R[i])
        let b_in = join_block(&a, &r[idx]);
        assert(b_in@ == wrap_call_input(p, outs, k as nat));
        let res = encrypt_block(&b_in);
        let b_out = match res {
            Ok(o) => o,
            Err(err) => {
                proof {
                    assert(call_ensures(encrypt_block, (&b_in,), Err::<[u8; 16], E>(err)));
                    assert(cipher_fails(encrypt_block, wrap_call_input(p, outs, outs.len()), err));
                    assert(wrap_trace(encrypt_block, p, outs, outs.len()));
                    assert forall|e: spec_fn(Seq<u8>) -> Seq<u8>|
                        #[trigger] computes(encrypt_block, e) implies false by {
                        assert(call_ensures(encrypt_block, (&b_in,), Err::<[u8; 16], E>(err)));
                    }
                }
                return Err(KwpError::Cipher(err));
            },
        };
        // A = MSB64(B) ^ [t]64, R[i] = LSB64(B)
        let hi = high_half(&b_out);
        a = xor_counter(&hi, t);
        let lo = low_half(&b_out);
        let ghost old_r = r@;
        r.set(idx, lo);
        proof {
            let new_outs = outs.push(b_out@);
            lemma_wrap_trace_prefix(p, outs, new_outs, k as nat);
            assert(call_ensures(encrypt_block, (&b_in,), Ok::<[u8; 16], E>(b_out)));
            assert(cipher_returns(encrypt_block, wrap_call_input(p, new_outs, k as nat), new_outs[k as int]));
            assert forall|j: int| 0 <= j < k + 1 implies cipher_returns(
                encrypt_block,
                wrap_call_input(p, new_outs, j as nat),
                #[trigger] new_outs[j],
            ) by {
                if j < k {
                    lemma_wrap_trace_prefix(p, outs, new_outs, j as nat);
                    assert(cipher_returns(encrypt_block, wrap_call_input(p, outs, j as nat), outs[j]));
                }
            }
            assert(semis_view(r@) =~= semis_view(old_r).update(idx as int, b_out@.skip(8)));
            assert(step_index((k + 1) as nat, n as nat) == idx);
            outs = new_outs;
        }
        k += 1;
    }
    let c = assemble(&a, &r);
    proof {
        assert(wrap_trace(encrypt_block, p, outs, rounds(n as nat)));
        assert forall|i: int| 0 <= i < semis_view(r@).len() implies (#[trigger] semis_view(r@)[i]).len() == 8 by {}
        lemma_flatten_len(semis_view(r@));
        assert forall|e: spec_fn(Seq<u8>) -> Seq<u8>|
            #[trigger] computes(encrypt_block, e) implies c@ == kwp_wrap_spec(p, e) by {
            lemma_wrap_trace_computes(encrypt_block, e, p, outs, total as nat);
        }
    }
    Ok(c)
}


/// Checks the register and padding recovered by an unwrap, and returns the
/// plaintext they frame.
///
/// `a` is the recovered register `A`, `padded` the `8 * n` recovered octets.
/// The checks run in order: the first four octets of `A` must be the ICV
/// magic `A6 59 59 A6`; the message length `MLI` held in the last four must
/// satisfy `8 * (n - 1) < MLI <= 8 * n`; every padding octet after `MLI`
/// must be zero. The first check that fails decides the error.
pub fn kwp_check_integrity<E>(a: &[u8; 8], padded: &[u8], n: usize) -> (result: Result<
    Vec<u8>,
    KwpError<E>,
>)
    requires
        n >= 1,
        padded@.len() == 8 * n,
    ensures
        outcome(result) == integrity_verdict::<E>(a@, padded@, n as nat),
        result matches Ok(v) ==> 8 * (n - 1) < v@.len() <= 8 * n,
{
    // Integrity check 1: ICV magic
    if !(a[0] == 0xA6u8 && a[1] == 0x59u8 && a[2] == 0x59u8 && a[3] == 0xA6u8) {
        proof {
            if a@.take(4) == icv_magic() {
                assert(a@.take(4)[0] == a@[0]);
                assert(a@.take(4)[1] == a@[1]);
                assert(a@.take(4)[2] == a@[2]);
                assert(a@.take(4)[3] == a@[3]);
            }
        }
        return Err(KwpError::IcvMismatch);
    }
    assert(a@.take(4) =~= icv_magic());
    // Integrity check 2: 8 * (n - 1) < MLI <= 8 * n
    let mli32: u32 = ((a[4] as u32) << 24u32) | ((a[5] as u32) << 16u32) | ((a[6] as u32) << 8u32)
        | (a[7] as u32);
    assert(mli32 == be32_value(a@.subrange(4, 8)));
    let mli = mli32 as usize;
    let plen = padded.len();
    assert(plen == 8 * n);
    let min_mli = 8 * (n - 1) + 1;
    let max_mli = 8 * n;
    if mli < min_mli || mli > max_mli {
        return Err(KwpError::MliOutOfRange { mli, min: min_mli, max: max_mli });
    }
    // Integrity check 3: the padding octets are zero
    let mut i: usize = mli;
    while i < padded.len()
        invariant
            mli <= i <= padded@.len(),
            zero_from(padded@.take(i as int), mli as int),
            padded@.len() == 8 * n,
            n >= 1,
            a@.take(4) == icv_magic(),
            mli as int == be32_value(a@.subrange(4, 8)) as int,
            8 * (n - 1) + 1 <= mli <= 8 * n,
        decreases padded.len() - i,
    {
        if padded[i] != 0 {
            proof {
                lemma_first_nonzero(padded@, mli as int, i as int);
                assert(!zero_from(padded@, mli as int));
            }
            return Err(KwpError::NonZeroPadding { offset: i });
        }
        i += 1;
        assert forall|j: int| mli <= j < i implies #[trigger] padded@.take(i as int)[j] == 0 by {
            if j < i - 1 {
                assert(padded@.take(i - 1)[j] == padded@[j]);
            }
        }
    }
    assert(padded@.take(padded@.len() as int) =~= padded@);
    let mut v: Vec<u8> = Vec::new();
    let mut j: usize = 0;
    while j < mli
        invariant
            j <= mli <= padded@.len(),
            v@ == padded@.take(j as int),
        decreases mli - j,
    {
        v.push(padded[j]);
        j += 1;
        assert(v@ =~= padded@.take(j as int));
    }
    Ok(v)
}


/// Unwraps a ciphertext payload using RFC 5649 Key Wrap with Padding (KWP).
///
/// `decrypt_block` is the single-block decryption under the key-encryption key.
///
/// The ciphertext must be at least 16 octets long and a multiple of 8; a
/// 16-octet ciphertext is one decrypted block, a longer one is unwrapped by
/// six rounds of the inverse function W^-1. The recovered register and
/// padding then pass the checks of [`kwp_check_integrity`], which decide the
/// error when one fails.
pub fn kwp_unwrap<F, E>(ciphertext: &[u8], decrypt_block: F) -> (result: Result<
    Vec<u8>,
    KwpError<E>,
>) where F: Fn(&[u8; 16]) -> Result<[u8; 16], E>
    requires
        always_callable(decrypt_block),
    ensures
        ciphertext@.len() < 16 ==> (result matches Err(KwpError::CiphertextTooShort { len })
            && len == ciphertext@.len()),
        ciphertext@.len() >= 16 && ciphertext@.len() % 8 != 0 ==> (result matches Err(
            KwpError::CiphertextMisaligned { len },
        ) && len == ciphertext@.len()),
        unwrap_len_ok(ciphertext@) && !(result matches Err(KwpError::Cipher(_))) ==> exists|
            outs: Seq<Seq<u8>>,
        |
            #[trigger] unwrap_trace(
                decrypt_block,
                ciphertext@,
                outs,
                rounds(unwrap_semiblock_count(ciphertext@.len())),
            ) && outcome(result) == integrity_verdict::<E>(
                unwrap_trace_final(ciphertext@, outs).0,
                unwrap_trace_final(ciphertext@, outs).1,
                unwrap_semiblock_count(ciphertext@.len()),
            ),
        result matches Err(KwpError::Cipher(err)) ==> {
            &&& unwrap_len_ok(ciphertext@)
            &&& exists|outs: Seq<Seq<u8>>|
                #[trigger] unwrap_trace(decrypt_block, ciphertext@, outs, outs.len()) && outs.len()
                    < rounds(unwrap_semiblock_count(ciphertext@.len())) && cipher_fails(
                    decrypt_block,
                    unwrap_call_input(ciphertext@, outs, outs.len()),
                    err,
                )
        },
        result matches Ok(v) ==> 8 * (unwrap_semiblock_count(ciphertext@.len()) - 1) < v@.len() <= 8
            * unwrap_semiblock_count(ciphertext@.len()),
        never_fails(decrypt_block) ==> !(result matches Err(KwpError::Cipher(_))),
        forall|d: spec_fn(Seq<u8>) -> Seq<u8>|
            #[trigger] computes(decrypt_block, d) ==> outcome(result) == kwp_unwrap_spec::<E>(
                ciphertext@,
                d,
            ),
{
    let ghost c = ciphertext@;
    let ct_len = ciphertext.len();
    if ct_len < 16 {
        return Err(KwpError::CiphertextTooShort { len: ct_len });
    }
    if ct_len % 8 != 0 {
        return Err(KwpError::CiphertextMisaligned { len: ct_len });
    }
    let n = ct_len / 8 - 1;
    if n == 1 {
        // Single block: one decryption of C[0] || C[1]
        let c0 = semiblock_at(ciphertext, 0);
        let c1 = semiblock_at(ciphertext, 8);
        let blk = join_block(&c0, &c1);
        assert(blk@ =~= c);
        let res = decrypt_block(&blk);
        match res {
            Ok(b_out) => {
                let a = high_half(&b_out);
                let lo = low_half(&b_out);
                let mut pd: Vec<u8> = Vec::new();
                push_semiblock(&mut pd, &lo);
                assert(pd@ =~= lo@);
                let result = kwp_check_integrity(&a, pd.as_slice(), 1);
                let ghost outs = seq![b_out@];
                proof {
                    assert(call_ensures(decrypt_block, (&blk,), Ok::<[u8; 16], E>(b_out)));
                    assert(cipher_returns(decrypt_block, unwrap_call_input(c, outs, 0), outs[0]));
                    assert(unwrap_trace(decrypt_block, c, outs, rounds(n as nat)));
                }
                return result;
            },
            Err(err) => {
                let ghost outs: Seq<Seq<u8>> = seq![];
                proof {
                    assert(call_ensures(decrypt_block, (&blk,), Err::<[u8; 16], E>(err)));
                    assert(cipher_fails(decrypt_block, unwrap_call_input(c, outs, 0), err));
                    assert(unwrap_trace(decrypt_block, c, outs, outs.len()));
                    assert forall|d: spec_fn(Seq<u8>) -> Seq<u8>|
                        #[trigger] computes(decrypt_block, d) implies false by {
                        assert(call_ensures(decrypt_block, (&blk,), Err::<[u8; 16], E>(err)));
                    }
                }
                return Err(KwpError::Cipher(err));
            },
        }
    }
    // Several semiblocks: A = C[0], R = C[1..n], six rounds with t running down
    let mut a = semiblock_at(ciphertext, 0);
    let mut r = split_semiblocks(ciphertext, 8);
    let total = 6 * n;
    let mut m: usize = 0;
    let ghost mut outs: Seq<Seq<u8>> = Seq::empty();
    proof {
        assert(semis_view(r@).len() == r@.len());
        assert(a@ =~= c.take(8));
        assert((a@, semis_view(r@)) == unwrap_start(c));
    }
    while m < total
        invariant
            c == ciphertext@,
            unwrap_len_ok(c),
            n == unwrap_semiblock_count(c.len()),
            n > 1,
            total == 6 * n,
            m <= total,
            r@.len() == n,
            always_callable(decrypt_block),
            unwrap_trace(decrypt_block, c, outs, m as nat),
            (a@, semis_view(r@)) == unwrap_trace_state(c, outs, m as nat),
        decreases total - m,
    {
        let t_step = total - m;
        let idx = (t_step - 1) % n;
        let t = t_step as u64;
        // B = DEC((A ^ [t]64) || R[i])
        let x = xor_counter(&a, t);
        let b_in = join_block(&x, &r[idx]);
        assert(b_in@ == unwrap_call_input(c, outs, m as nat));
        let res = decrypt_block(&b_in);
        let b_out = match res {
            Ok(o) => o,
            Err(err) => {
                proof {
                    assert(call_ensures(decrypt_block, (&b_in,), Err::<[u8; 16], E>(err)));
                    assert(cipher_fails(decrypt_block, unwrap_call_input(c, outs, outs.len()), err));
                    assert(unwrap_trace(decrypt_block, c, outs, outs.len()));
                    assert forall|d: spec_fn(Seq<u8>) -> Seq<u8>|
                        #[trigger] computes(decrypt_block, d) implies false by {
                        assert(call_ensures(decrypt_block, (&b_in,), Err::<[u8; 16], E>(err)));
                    }
                }
                return Err(KwpError::Cipher(err));
            },
        };
        // A = MSB64(B), R[i] = LSB64(B)
        a = high_half(&b_out);
        let lo = low_half(&b_out);
        let ghost old_r = r@;
        r.set(idx, lo);
        proof {
            let new_outs = outs.push(b_out@);
            lemma_unwrap_trace_prefix(c, outs, new_outs, m as nat);
            assert(call_ensures(decrypt_block, (&b_in,), Ok::<[u8; 16], E>(b_out)));
            assert(cipher_returns(decrypt_block, unwrap_call_input(c, new_outs, m as nat), new_outs[m as int]));
            assert forall|j: int| 0 <= j < m + 1 implies cipher_returns(
                decrypt_block,
                unwrap_call_input(c, new_outs, j as nat),
                #[trigger] new_outs[j],
            ) by {
                if j < m {
                    lemma_unwrap_trace_prefix(c, outs, new_outs, j as nat);
                    assert(cipher_returns(decrypt_block, unwrap_call_input(c, outs, j as nat), outs[j]));
                }
            }
            assert(semis_view(r@) =~= semis_view(old_r).update(idx as int, b_out@.skip(8)));
            outs = new_outs;
        }
        m += 1;
    }
    let mut pd: Vec<u8> = Vec::new();
    append_semiblocks(&mut pd, &r);
    proof {
        assert(pd@ =~= semis_view(r@).flatten());
        assert forall|i: int| 0 <= i < semis_view(r@).len() implies (#[trigger] semis_view(r@)[i]).len() == 8 by {}
        lemma_flatten_len(semis_view(r@));
    }
    let result = kwp_check_integrity(&a, pd.as_slice(), n);
    proof {
        assert(unwrap_trace(decrypt_block, c, outs, rounds(n as nat)));
        assert forall|d: spec_fn(Seq<u8>) -> Seq<u8>|
            #[trigger] computes(decrypt_block, d) implies outcome(result) == kwp_unwrap_spec::<E>(c, d) by {
            lemma_unwrap_trace_computes(decrypt_block, d, c, outs, total as nat);
        }
    }
    result
}

} // verus!
