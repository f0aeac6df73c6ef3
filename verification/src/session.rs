//! Key Wrap with Padding driven by a PKCS#11 token: each AES block
//! operation runs on the token as single-block AES-CBC with a zero IV (which
//! equals AES-ECB), so the wrapping key never leaves the token.
use vstd::prelude::*;
use cryptoki::mechanism::Mechanism;
use cryptoki::object::ObjectHandle;
use cryptoki::session::Session;
use crate::kwp::{
    kwp_unwrap, kwp_wrap, KwpError,
};
use crate::kwp_spec::{
    cipher_fails, cipher_returns, computes, integrity_verdict, kwp_unwrap_spec, kwp_wrap_spec,
    outcome, rounds, semiblock_count, unwrap_call_input, unwrap_len_ok, unwrap_semiblock_count,
    unwrap_trace, unwrap_trace_final, wrap_accepts, wrap_call_input, wrap_trace, wrap_trace_output, wrapped_len,
};

verus! {

#[verifier::external_type_specification]
#[verifier::external_body]
pub struct ExSession(cryptoki::session::Session);

#[verifier::external_type_specification]
#[verifier::external_body]
pub struct ExObjectHandle(cryptoki::object::ObjectHandle);

#[verifier::external_type_specification]
#[verifier::external_body]
pub struct ExCryptokiError(cryptoki::error::Error);

/// Calls `cryptoki::session::Session::encrypt` with the mechanism
/// `Mechanism::AesCbc(iv)` under `key`.
///
/// The ciphertext comes from the token and depends on the key it holds, so
/// nothing is claimed of the result.
#[verifier::external_body]
fn aes_cbc_encrypt(session: &Session, key: ObjectHandle, iv: [u8; 16], data: &[u8; 16]) -> (result:
    Result<Vec<u8>, cryptoki::error::Error>) {
    session.encrypt(&Mechanism::AesCbc(iv), key, data)
}

/// Calls `cryptoki::session::Session::decrypt` with the mechanism
/// `Mechanism::AesCbc(iv)` under `key`.
///
/// The plaintext comes from the token and depends on the key it holds, so
/// nothing is claimed of the result.
#[verifier::external_body]
fn aes_cbc_decrypt(session: &Session, key: ObjectHandle, iv: [u8; 16], data: &[u8; 16]) -> (result:
    Result<Vec<u8>, cryptoki::error::Error>) {
    session.decrypt(&Mechanism::AesCbc(iv), key, data)
}

/// Why a block operation on the token failed.
#[derive(Debug)]
pub enum TokenError {
    /// The PKCS#11 call failed.
    Pkcs11(cryptoki::error::Error),
    /// The token returned a block that is not 16 octets long.
    BlockLength { len: usize },
}

/// The 16 octets of `v` as a block.
fn to_block(v: &Vec<u8>) -> (blk: [u8; 16])
    requires
        v@.len() == 16,
    ensures
        blk@ == v@,
{
    let mut blk: [u8; 16] = [0u8; 16];
    let mut i: usize = 0;
    while i < 16
        invariant
            i <= 16,
            v@.len() == 16,
            forall|j: int| 0 <= j < i ==> blk@[j] == v@[j],
        decreases 16 - i,
    {
        blk[i] = v[i];
        i += 1;
    }
    assert(blk@ =~= v@);
    blk
}

/// The token answered `answer` to the single-block AES-CBC encryption of
/// `block` under `key` with IV `iv` (a call of `aes_cbc_encrypt` returned it).
pub closed spec fn token_encrypted(
    session: &Session,
    key: ObjectHandle,
    iv: [u8; 16],
    block: [u8; 16],
    answer: Result<Vec<u8>, cryptoki::error::Error>,
) -> bool {
    call_ensures(aes_cbc_encrypt, (session, key, iv, &block), answer)
}

/// The token answered `answer` to the single-block AES-CBC decryption of
/// `block` under `key` with IV `iv` (a call of `aes_cbc_decrypt` returned it).
pub closed spec fn token_decrypted(
    session: &Session,
    key: ObjectHandle,
    iv: [u8; 16],
    block: [u8; 16],
    answer: Result<Vec<u8>, cryptoki::error::Error>,
) -> bool {
    call_ensures(aes_cbc_decrypt, (session, key, iv, &block), answer)
}

/// An answer counts as a token encryption exactly when it came from the
/// token's AES-CBC encryption call (`aes_cbc_encrypt`, which makes
/// `Session::encrypt`), and not from its decryption call.
proof fn lemma_token_encrypted_is_encryption(
    session: &Session,
    key: ObjectHandle,
    iv: [u8; 16],
    block: [u8; 16],
    answer: Result<Vec<u8>, cryptoki::error::Error>,
)
    ensures
        token_encrypted(session, key, iv, block, answer) <==> call_ensures(
            aes_cbc_encrypt,
            (session, key, iv, &block),
            answer,
        ),
{
}

/// An answer counts as a token decryption exactly when it came from the
/// token's AES-CBC decryption call (`aes_cbc_decrypt`, which makes
/// `Session::decrypt`), and not from its encryption call.
proof fn lemma_token_decrypted_is_decryption(
    session: &Session,
    key: ObjectHandle,
    iv: [u8; 16],
    block: [u8; 16],
    answer: Result<Vec<u8>, cryptoki::error::Error>,
)
    ensures
        token_decrypted(session, key, iv, block, answer) <==> call_ensures(
            aes_cbc_decrypt,
            (session, key, iv, &block),
            answer,
        ),
{
}

/// An IV of sixteen zero octets.
pub open spec fn zero_iv(iv: [u8; 16]) -> bool {
    iv@ == Seq::new(16, |i: int| 0u8)
}

/// `block` is what the token's `answer` to one block operation gives: the
/// block when the answer is exactly 16 octets, else the reason.
pub open spec fn block_from(
    answer: Result<Vec<u8>, cryptoki::error::Error>,
    block: Result<[u8; 16], TokenError>,
) -> bool {
    match answer {
        Ok(v) => if v@.len() == 16 {
            block matches Ok(b) && b@ == v@
        } else {
            block == Err::<[u8; 16], TokenError>(TokenError::BlockLength { len: v@.len() as usize })
        },
        Err(e) => block == Err::<[u8; 16], TokenError>(TokenError::Pkcs11(e)),
    }
}

/// Result of one block operation from what the token returned: the block
/// when it returned exactly 16 octets, else the reason.
pub fn block_result(result: Result<Vec<u8>, cryptoki::error::Error>) -> (block: Result<[u8; 16], TokenError>)
    ensures
        block_from(result, block),
        block matches Err(TokenError::BlockLength { len }) ==> len != 16,
{
    match result {
        Ok(v) => {
            if v.len() != 16 {
                Err(TokenError::BlockLength { len: v.len() })
            } else {
                Ok(to_block(&v))
            }
        },
        Err(e) => Err(TokenError::Pkcs11(e)),
    }
}

/// Encrypts one block on the token with AES-CBC and a zero IV.
pub fn token_encrypt_block(session: &Session, key: ObjectHandle, block: &[u8; 16]) -> (result: Result<
    [u8; 16],
    TokenError,
>)
    ensures
        exists|iv: [u8; 16], answer: Result<Vec<u8>, cryptoki::error::Error>|
            zero_iv(iv) && #[trigger] token_encrypted(session, key, iv, *block, answer) && block_from(
                answer,
                result,
            ),
        result matches Err(TokenError::BlockLength { len }) ==> len != 16,
{
    let iv: [u8; 16] = [0u8, 0u8, 0u8, 0u8, 0u8, 0u8, 0u8, 0u8, 0u8, 0u8, 0u8, 0u8, 0u8, 0u8, 0u8, 0u8];
    let answer = aes_cbc_encrypt(session, key, iv, block);
    let ghost given = answer;
    let result = block_result(answer);
    proof {
        assert(iv@ =~= Seq::new(16, |i: int| 0u8));
        assert(token_encrypted(session, key, iv, *block, given));
    }
    result
}

/// Decrypts one block on the token with AES-CBC and a zero IV.
pub fn token_decrypt_block(session: &Session, key: ObjectHandle, block: &[u8; 16]) -> (result: Result<
    [u8; 16],
    TokenError,
>)
    ensures
        exists|iv: [u8; 16], answer: Result<Vec<u8>, cryptoki::error::Error>|
            zero_iv(iv) && #[trigger] token_decrypted(session, key, iv, *block, answer) && block_from(
                answer,
                result,
            ),
        result matches Err(TokenError::BlockLength { len }) ==> len != 16,
{
    let iv: [u8; 16] = [0u8, 0u8, 0u8, 0u8, 0u8, 0u8, 0u8, 0u8, 0u8, 0u8, 0u8, 0u8, 0u8, 0u8, 0u8, 0u8];
    let answer = aes_cbc_decrypt(session, key, iv, block);
    let ghost given = answer;
    let result = block_result(answer);
    proof {
        assert(iv@ =~= Seq::new(16, |i: int| 0u8));
        assert(token_decrypted(session, key, iv, *block, given));
    }
    result
}

/// `token_encrypt_block` answered `out` to the block `input` under `key`.
pub open spec fn token_encrypt_gives(
    session: &Session,
    key: ObjectHandle,
    input: Seq<u8>,
    out: Result<[u8; 16], TokenError>,
) -> bool {
    exists|blk: [u8; 16]|
        blk@ == input && #[trigger] call_ensures(token_encrypt_block, (session, key, &blk), out)
}

/// `token_decrypt_block` answered `out` to the block `input` under `key`.
pub open spec fn token_decrypt_gives(
    session: &Session,
    key: ObjectHandle,
    input: Seq<u8>,
    out: Result<[u8; 16], TokenError>,
) -> bool {
    exists|blk: [u8; 16]|
        blk@ == input && #[trigger] call_ensures(token_decrypt_block, (session, key, &blk), out)
}

/// The first `k` blocks of the wrap of `p` went to `token_encrypt_block`,
/// which answered `outs`.
pub open spec fn token_wrap_trace(
    session: &Session,
    key: ObjectHandle,
    p: Seq<u8>,
    outs: Seq<Seq<u8>>,
    k: nat,
) -> bool {
    &&& outs.len() == k
    &&& forall|j: int| 0 <= j < k ==> #[trigger] token_wrap_answered(session, key, p, outs, j)
}

/// The token answered the `j`-th block of the wrap of `p` with `outs[j]`.
pub open spec fn token_wrap_answered(
    session: &Session,
    key: ObjectHandle,
    p: Seq<u8>,
    outs: Seq<Seq<u8>>,
    j: int,
) -> bool {
    exists|out: [u8; 16]|
        out@ == outs[j] && #[trigger] token_encrypt_gives(
            session,
            key,
            wrap_call_input(p, outs, j as nat),
            Ok::<[u8; 16], TokenError>(out),
        )
}

/// The first `k` blocks of the unwrap of `c` went to `token_decrypt_block`,
/// which answered `outs`.
pub open spec fn token_unwrap_trace(
    session: &Session,
    key: ObjectHandle,
    c: Seq<u8>,
    outs: Seq<Seq<u8>>,
    k: nat,
) -> bool {
    &&& outs.len() == k
    &&& forall|j: int| 0 <= j < k ==> #[trigger] token_unwrap_answered(session, key, c, outs, j)
}

/// The token answered the `j`-th block of the unwrap of `c` with `outs[j]`.
pub open spec fn token_unwrap_answered(
    session: &Session,
    key: ObjectHandle,
    c: Seq<u8>,
    outs: Seq<Seq<u8>>,
    j: int,
) -> bool {
    exists|out: [u8; 16]|
        out@ == outs[j] && #[trigger] token_decrypt_gives(
            session,
            key,
            unwrap_call_input(c, outs, j as nat),
            Ok::<[u8; 16], TokenError>(out),
        )
}

/// Every answer of `token_encrypt_block` under `key` is `Ok` of `e` of its block.
pub open spec fn token_encrypt_computes(
    session: &Session,
    key: ObjectHandle,
    e: spec_fn(Seq<u8>) -> Seq<u8>,
) -> bool {
    forall|blk: [u8; 16], r: Result<[u8; 16], TokenError>|
        #[trigger] call_ensures(token_encrypt_block, (session, key, &blk), r) ==> (r matches Ok(out)
            && out@ == e(blk@))
}

/// Every answer of `token_decrypt_block` under `key` is `Ok` of `d` of its block.
pub open spec fn token_decrypt_computes(
    session: &Session,
    key: ObjectHandle,
    d: spec_fn(Seq<u8>) -> Seq<u8>,
) -> bool {
    forall|blk: [u8; 16], r: Result<[u8; 16], TokenError>|
        #[trigger] call_ensures(token_decrypt_block, (session, key, &blk), r) ==> (r matches Ok(out)
            && out@ == d(blk@))
}

/// Wraps plaintext using KWP with token-backed AES-CBC (IV = 0) under the
/// wrapping key `key`: every block goes to [`token_encrypt_block`].
pub fn kwp_wrap_session(session: &Session, key: ObjectHandle, plaintext: &[u8]) -> (result: Result<
    Vec<u8>,
    KwpError<TokenError>,
>)
    ensures
        plaintext@.len() == 0 ==> result matches Err(KwpError::EmptyPlaintext),
        plaintext@.len() > u32::MAX ==> (result matches Err(KwpError::PlaintextTooLong { len })
            && len == plaintext@.len()),
        wrap_accepts(plaintext@) ==> (result is Ok || result matches Err(KwpError::Cipher(_))),
        result matches Ok(c) ==> c@.len() == wrapped_len(plaintext@.len()),
        result matches Ok(c) ==> exists|outs: Seq<Seq<u8>>|
            #[trigger] token_wrap_trace(
                session,
                key,
                plaintext@,
                outs,
                rounds(semiblock_count(plaintext@.len())),
            ) && c@ == wrap_trace_output(plaintext@, outs),
        result matches Err(KwpError::Cipher(err)) ==> exists|outs: Seq<Seq<u8>>|
            #[trigger] token_wrap_trace(session, key, plaintext@, outs, outs.len()) && outs.len()
                < rounds(semiblock_count(plaintext@.len())) && token_encrypt_gives(
                session,
                key,
                wrap_call_input(plaintext@, outs, outs.len()),
                Err::<[u8; 16], TokenError>(err),
            ),
        result matches Err(KwpError::Cipher(TokenError::BlockLength { len })) ==> len != 16,
        forall|e: spec_fn(Seq<u8>) -> Seq<u8>|
            wrap_accepts(plaintext@) && #[trigger] token_encrypt_computes(session, key, e) ==> (
            result matches Ok(c) && c@ == kwp_wrap_spec(plaintext@, e)),
{
    let encrypt = |block: &[u8; 16]| -> (r: Result<[u8; 16], TokenError>)
        ensures
            call_ensures(token_encrypt_block, (session, key, block), r),
            r matches Err(TokenError::BlockLength { len }) ==> len != 16,
        { token_encrypt_block(session, key, block) };
    let result = kwp_wrap(plaintext, encrypt);
    let ghost r = result;
    proof {
        let p = plaintext@;
        let n = semiblock_count(p.len());
        if let Ok(c) = r {
            let outs = choose|outs: Seq<Seq<u8>>|
                #[trigger] wrap_trace(encrypt, p, outs, rounds(n)) && c@ == wrap_trace_output(p, outs);
            lemma_token_wrap_trace(session, key, encrypt, p, outs, rounds(n));
        }
        if let Err(KwpError::Cipher(err)) = r {
            let outs = choose|outs: Seq<Seq<u8>>|
                #[trigger] wrap_trace(encrypt, p, outs, outs.len()) && outs.len() < rounds(n)
                    && cipher_fails(encrypt, wrap_call_input(p, outs, outs.len()), err);
            lemma_token_wrap_trace(session, key, encrypt, p, outs, outs.len());
            lemma_token_encrypt_fails(session, key, encrypt, wrap_call_input(p, outs, outs.len()), err);
        }
        assert forall|e: spec_fn(Seq<u8>) -> Seq<u8>|
            wrap_accepts(p) && #[trigger] token_encrypt_computes(session, key, e) implies (
            r matches Ok(c) && c@ == kwp_wrap_spec(p, e)) by {
            lemma_token_encrypt_computes(session, key, encrypt, e);
        }
    }
    result
}

/// Unwraps ciphertext using KWP with token-backed AES-CBC (IV = 0) under the
/// wrapping key `key`: every block goes to [`token_decrypt_block`].
pub fn kwp_unwrap_session(session: &Session, key: ObjectHandle, ciphertext: &[u8]) -> (result: Result<
    Vec<u8>,
    KwpError<TokenError>,
>)
    ensures
        ciphertext@.len() < 16 ==> (result matches Err(KwpError::CiphertextTooShort { len })
            && len == ciphertext@.len()),
        ciphertext@.len() >= 16 && ciphertext@.len() % 8 != 0 ==> (result matches Err(
            KwpError::CiphertextMisaligned { len },
        ) && len == ciphertext@.len()),
        result matches Err(KwpError::Cipher(_)) ==> unwrap_len_ok(ciphertext@),
        result matches Ok(v) ==> unwrap_len_ok(ciphertext@) && 8 * (unwrap_semiblock_count(
            ciphertext@.len(),
        ) - 1) < v@.len() <= 8 * unwrap_semiblock_count(ciphertext@.len()),
        unwrap_len_ok(ciphertext@) && !(result matches Err(KwpError::Cipher(_))) ==> exists|
            outs: Seq<Seq<u8>>,
        |
            #[trigger] token_unwrap_trace(
                session,
                key,
                ciphertext@,
                outs,
                rounds(unwrap_semiblock_count(ciphertext@.len())),
            ) && outcome(result) == integrity_verdict::<TokenError>(
                unwrap_trace_final(ciphertext@, outs).0,
                unwrap_trace_final(ciphertext@, outs).1,
                unwrap_semiblock_count(ciphertext@.len()),
            ),
        result matches Err(KwpError::Cipher(err)) ==> exists|outs: Seq<Seq<u8>>|
            #[trigger] token_unwrap_trace(session, key, ciphertext@, outs, outs.len()) && outs.len()
                < rounds(unwrap_semiblock_count(ciphertext@.len())) && token_decrypt_gives(
                session,
                key,
                unwrap_call_input(ciphertext@, outs, outs.len()),
                Err::<[u8; 16], TokenError>(err),
            ),
        result matches Err(KwpError::Cipher(TokenError::BlockLength { len })) ==> len != 16,
        forall|d: spec_fn(Seq<u8>) -> Seq<u8>|
            #[trigger] token_decrypt_computes(session, key, d) ==> outcome(result)
                == kwp_unwrap_spec::<TokenError>(ciphertext@, d),
{
    let decrypt = |block: &[u8; 16]| -> (r: Result<[u8; 16], TokenError>)
        ensures
            call_ensures(token_decrypt_block, (session, key, block), r),
            r matches Err(TokenError::BlockLength { len }) ==> len != 16,
        { token_decrypt_block(session, key, block) };
    let result = kwp_unwrap(ciphertext, decrypt);
    let ghost r = result;
    proof {
        let c = ciphertext@;
        let n = unwrap_semiblock_count(c.len());
        if unwrap_len_ok(c) && !(r matches Err(KwpError::Cipher(_))) {
            let outs = choose|outs: Seq<Seq<u8>>|
                #[trigger] unwrap_trace(decrypt, c, outs, rounds(n)) && outcome(r)
                    == integrity_verdict::<TokenError>(
                    unwrap_trace_final(c, outs).0,
                    unwrap_trace_final(c, outs).1,
                    n,
                );
            lemma_token_unwrap_trace(session, key, decrypt, c, outs, rounds(n));
        }
        if let Err(KwpError::Cipher(err)) = r {
            let outs = choose|outs: Seq<Seq<u8>>|
                #[trigger] unwrap_trace(decrypt, c, outs, outs.len()) && outs.len() < rounds(n)
                    && cipher_fails(decrypt, unwrap_call_input(c, outs, outs.len()), err);
            lemma_token_unwrap_trace(session, key, decrypt, c, outs, outs.len());
            lemma_token_decrypt_fails(session, key, decrypt, unwrap_call_input(c, outs, outs.len()), err);
        }
        assert forall|d: spec_fn(Seq<u8>) -> Seq<u8>|
            #[trigger] token_decrypt_computes(session, key, d) implies outcome(r)
                == kwp_unwrap_spec::<TokenError>(c, d) by {
            lemma_token_decrypt_computes(session, key, decrypt, d);
        }
    }
    result
}

/// A block function whose every answer is an answer of `token_encrypt_block`.
pub open spec fn forwards_encrypt<F: Fn(&[u8; 16]) -> Result<[u8; 16], TokenError>>(
    session: &Session,
    key: ObjectHandle,
    f: F,
) -> bool {
    forall|blk: [u8; 16], x: Result<[u8; 16], TokenError>|
        #[trigger] call_ensures(f, (&blk,), x) ==> call_ensures(token_encrypt_block, (session, key, &blk), x)
}

/// A block function whose every answer is an answer of `token_decrypt_block`.
pub open spec fn forwards_decrypt<F: Fn(&[u8; 16]) -> Result<[u8; 16], TokenError>>(
    session: &Session,
    key: ObjectHandle,
    f: F,
) -> bool {
    forall|blk: [u8; 16], x: Result<[u8; 16], TokenError>|
        #[trigger] call_ensures(f, (&blk,), x) ==> call_ensures(token_decrypt_block, (session, key, &blk), x)
}

/// A wrap trace of a block function that forwards to the token is a token
/// wrap trace.
proof fn lemma_token_wrap_trace<F: Fn(&[u8; 16]) -> Result<[u8; 16], TokenError>>(
    session: &Session,
    key: ObjectHandle,
    f: F,
    p: Seq<u8>,
    outs: Seq<Seq<u8>>,
    k: nat,
)
    requires
        forwards_encrypt(session, key, f),
        wrap_trace(f, p, outs, k),
    ensures
        token_wrap_trace(session, key, p, outs, k),
{
    assert forall|j: int| 0 <= j < k implies #[trigger] token_wrap_answered(session, key, p, outs, j) by {
        let input = wrap_call_input(p, outs, j as nat);
        assert(cipher_returns(f, input, outs[j]));
        let (blk, out) = choose|blk: [u8; 16], out: [u8; 16]|
            blk@ == input && out@ == outs[j] && #[trigger] call_ensures(
                f,
                (&blk,),
                Ok::<[u8; 16], TokenError>(out),
            );
        assert(call_ensures(token_encrypt_block, (session, key, &blk), Ok::<[u8; 16], TokenError>(out)));
        assert(token_encrypt_gives(session, key, input, Ok::<[u8; 16], TokenError>(out)));
    }
}

/// An unwrap trace of a block function that forwards to the token is a
/// token unwrap trace.
proof fn lemma_token_unwrap_trace<F: Fn(&[u8; 16]) -> Result<[u8; 16], TokenError>>(
    session: &Session,
    key: ObjectHandle,
    f: F,
    c: Seq<u8>,
    outs: Seq<Seq<u8>>,
    k: nat,
)
    requires
        forwards_decrypt(session, key, f),
        unwrap_trace(f, c, outs, k),
    ensures
        token_unwrap_trace(session, key, c, outs, k),
{
    assert forall|j: int| 0 <= j < k implies #[trigger] token_unwrap_answered(session, key, c, outs, j) by {
        let input = unwrap_call_input(c, outs, j as nat);
        assert(cipher_returns(f, input, outs[j]));
        let (blk, out) = choose|blk: [u8; 16], out: [u8; 16]|
            blk@ == input && out@ == outs[j] && #[trigger] call_ensures(
                f,
                (&blk,),
                Ok::<[u8; 16], TokenError>(out),
            );
        assert(call_ensures(token_decrypt_block, (session, key, &blk), Ok::<[u8; 16], TokenError>(out)));
        assert(token_decrypt_gives(session, key, input, Ok::<[u8; 16], TokenError>(out)));
    }
}

/// A failed call of a block function that forwards to the token is a failed
/// token encryption.
proof fn lemma_token_encrypt_fails<F: Fn(&[u8; 16]) -> Result<[u8; 16], TokenError>>(
    session: &Session,
    key: ObjectHandle,
    f: F,
    input: Seq<u8>,
    err: TokenError,
)
    requires
        forwards_encrypt(session, key, f),
        cipher_fails(f, input, err),
    ensures
        token_encrypt_gives(session, key, input, Err::<[u8; 16], TokenError>(err)),
{
    let blk = choose|blk: [u8; 16]|
        blk@ == input && #[trigger] call_ensures(f, (&blk,), Err::<[u8; 16], TokenError>(err));
    assert(call_ensures(token_encrypt_block, (session, key, &blk), Err::<[u8; 16], TokenError>(err)));
}

/// A failed call of a block function that forwards to the token is a failed
/// token decryption.
proof fn lemma_token_decrypt_fails<F: Fn(&[u8; 16]) -> Result<[u8; 16], TokenError>>(
    session: &Session,
    key: ObjectHandle,
    f: F,
    input: Seq<u8>,
    err: TokenError,
)
    requires
        forwards_decrypt(session, key, f),
        cipher_fails(f, input, err),
    ensures
        token_decrypt_gives(session, key, input, Err::<[u8; 16], TokenError>(err)),
{
    let blk = choose|blk: [u8; 16]|
        blk@ == input && #[trigger] call_ensures(f, (&blk,), Err::<[u8; 16], TokenError>(err));
    assert(call_ensures(token_decrypt_block, (session, key, &blk), Err::<[u8; 16], TokenError>(err)));
}

/// A block function that forwards to a token encryption computing `e` computes `e`.
proof fn lemma_token_encrypt_computes<F: Fn(&[u8; 16]) -> Result<[u8; 16], TokenError>>(
    session: &Session,
    key: ObjectHandle,
    f: F,
    e: spec_fn(Seq<u8>) -> Seq<u8>,
)
    requires
        forwards_encrypt(session, key, f),
        token_encrypt_computes(session, key, e),
    ensures
        computes(f, e),
{
    assert forall|blk: [u8; 16], x: Result<[u8; 16], TokenError>|
        #[trigger] call_ensures(f, (&blk,), x) implies (x matches Ok(out) && out@ == e(blk@)) by {
        assert(call_ensures(token_encrypt_block, (session, key, &blk), x));
    }
}

/// A block function that forwards to a token decryption computing `d` computes `d`.
proof fn lemma_token_decrypt_computes<F: Fn(&[u8; 16]) -> Result<[u8; 16], TokenError>>(
    session: &Session,
    key: ObjectHandle,
    f: F,
    d: spec_fn(Seq<u8>) -> Seq<u8>,
)
    requires
        forwards_decrypt(session, key, f),
        token_decrypt_computes(session, key, d),
    ensures
        computes(f, d),
{
    assert forall|blk: [u8; 16], x: Result<[u8; 16], TokenError>|
        #[trigger] call_ensures(f, (&blk,), x) implies (x matches Ok(out) && out@ == d(blk@)) by {
        assert(call_ensures(token_decrypt_block, (session, key, &blk), x));
    }
}

} // verus!
