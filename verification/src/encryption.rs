//! The encrypted payload format for batches of vectors.
//!
//! A batch of `n` vectors of dimension `d` (each component given as its four
//! little-endian bytes) is framed as
//! `le64(n) ++ le64(d) ++ component bytes`, sealed with AES-256-GCM under a
//! fresh 12-byte nonce, and stored as `nonce ++ ciphertext`.

use vstd::prelude::*;
use vstd::string::*;
use aes_gcm::aead::{Aead, AeadCore, KeyInit, OsRng};
use crate::digest::{push_all, sha256, sha256_spec};
use crate::types::SolVecError;

verus! {

/// Length of the nonce that prefixes every payload.
pub const NONCE_SIZE: usize = 12;

/// Length of the plaintext header (`le64(n) ++ le64(d)`).
pub const HEADER_SIZE: usize = 16;

/// Longest plaintext that AES-GCM accepts (2^36 bytes).
pub open spec fn max_plaintext_len() -> int {
    0x10_0000_0000
}

// ---------------------------------------------------------------------------
// AES-256-GCM
// ---------------------------------------------------------------------------

#[verifier::external_type_specification]
#[verifier::external_body]
pub struct ExAeadError(aes_gcm::Error);

/// AES-256-GCM encryption (ciphertext followed by the 16-byte tag) of
/// `plaintext` under `key` and `nonce`, with no associated data.
pub uninterp spec fn aes256gcm_seal(key: Seq<u8>, nonce: Seq<u8>, plaintext: Seq<u8>) -> Seq<u8>;

/// AES-256-GCM decryption of `ciphertext` (tag last) under `key` and `nonce`,
/// with no associated data: `None` when the tag does not authenticate.
pub uninterp spec fn aes256gcm_open(key: Seq<u8>, nonce: Seq<u8>, ciphertext: Seq<u8>) -> Option<Seq<u8>>;

/// Calls `Aes256Gcm::generate_nonce` with the operating system's generator.
/// Trusted: nothing is promised of the value beyond its 12 bytes.
#[verifier::external_body]
fn random_nonce() -> (nonce: [u8; 12]) {
    aes_gcm::Aes256Gcm::generate_nonce(&mut OsRng).into()
}

/// Calls `Aead::encrypt` of `Aes256Gcm` (no associated data).
/// Trusted: it fails exactly when the plaintext is longer than 2^36 bytes
/// (`P_MAX` in `aes-gcm`); otherwise the result is the sealed message, 16
/// bytes longer than the plaintext, and opening it with the same key and
/// nonce gives the plaintext back (correctness of the AEAD).
#[verifier::external_body]
fn aes_seal(key: &[u8; 32], nonce: &[u8; 12], plaintext: &[u8]) -> (r: Result<Vec<u8>, aes_gcm::Error>)
    ensures
        r is Err <==> plaintext@.len() > max_plaintext_len(),
        r matches Ok(c) ==> {
            &&& c@ == aes256gcm_seal(key@, nonce@, plaintext@)
            &&& c@.len() == plaintext@.len() + 16
            &&& aes256gcm_open(key@, nonce@, c@) == Some(plaintext@)
        },
{
    let cipher = aes_gcm::Aes256Gcm::new(aes_gcm::Key::<aes_gcm::Aes256Gcm>::from_slice(key));
    cipher.encrypt(aes_gcm::Nonce::from_slice(nonce), plaintext)
}

/// Calls `Aead::decrypt` of `Aes256Gcm` (no associated data).
/// Trusted: it succeeds exactly when `aes256gcm_open` authenticates the
/// ciphertext, and then returns that plaintext.
#[verifier::external_body]
fn aes_open(key: &[u8; 32], nonce: &[u8; 12], ciphertext: &[u8]) -> (r: Result<Vec<u8>, aes_gcm::Error>)
    ensures
        r is Ok <==> aes256gcm_open(key@, nonce@, ciphertext@) is Some,
        r matches Ok(p) ==> aes256gcm_open(key@, nonce@, ciphertext@) == Some(p@),
{
    let cipher = aes_gcm::Aes256Gcm::new(aes_gcm::Key::<aes_gcm::Aes256Gcm>::from_slice(key));
    cipher.decrypt(aes_gcm::Nonce::from_slice(nonce), ciphertext)
}

/// Calls `to_string` on an `aead::Error`.
/// Trusted: its `Display` writes `aead::Error`.
#[verifier::external_body]
fn aead_error_message(e: &aes_gcm::Error) -> (s: String)
    ensures
        s@ == "aead::Error"@,
{
    e.to_string()
}

// ---------------------------------------------------------------------------
// Plaintext format
// ---------------------------------------------------------------------------

/// Little-endian bytes of a `u64`.
pub open spec fn le_bytes(n: u64) -> Seq<u8> {
    seq![
        n as u8,
        (n >> 8u64) as u8,
        (n >> 16u64) as u8,
        (n >> 24u64) as u8,
        (n >> 32u64) as u8,
        (n >> 40u64) as u8,
        (n >> 48u64) as u8,
        (n >> 56u64) as u8,
    ]
}

/// The `u64` whose little-endian bytes start `b`.
pub open spec fn le_value(b: Seq<u8>) -> u64 {
    (b[0] as u64) | ((b[1] as u64) << 8u64) | ((b[2] as u64) << 16u64) | ((b[3] as u64) << 24u64)
        | ((b[4] as u64) << 32u64) | ((b[5] as u64) << 40u64) | ((b[6] as u64) << 48u64) | ((
    b[7] as u64) << 56u64)
}

/// The component bytes of one vector, in order.
pub open spec fn flatten_row(row: Seq<Seq<u8>>) -> Seq<u8>
    decreases row.len(),
{
    if row.len() == 0 {
        seq![]
    } else {
        flatten_row(row.drop_last()) + row.last()
    }
}

/// The component bytes of a batch, vector after vector.
pub open spec fn flatten(vs: Seq<Seq<Seq<u8>>>) -> Seq<u8>
    decreases vs.len(),
{
    if vs.len() == 0 {
        seq![]
    } else {
        flatten(vs.drop_last()) + flatten_row(vs.last())
    }
}

/// The dimension recorded for a batch: that of its first vector.
pub open spec fn batch_dim(vs: Seq<Seq<Seq<u8>>>) -> int {
    if vs.len() == 0 { 0 } else { vs[0].len() as int }
}

/// The plaintext framed for a batch.
pub open spec fn plaintext_of(vs: Seq<Seq<Seq<u8>>>) -> Seq<u8> {
    le_bytes(vs.len() as u64) + le_bytes(batch_dim(vs) as u64) + flatten(vs)
}

/// Every vector has dimension `d` and every component four bytes.
pub open spec fn rectangular(vs: Seq<Seq<Seq<u8>>>, d: int) -> bool {
    &&& forall|i: int| 0 <= i < vs.len() ==> (#[trigger] vs[i]).len() == d
    &&& forall|i: int, j: int| 0 <= i < vs.len() && 0 <= j < d ==> (#[trigger] vs[i][j]).len() == 4
}

/// The four bytes of component `j` of vector `i` in a body of dimension `dim`.
pub open spec fn component(pt: Seq<u8>, dim: int, i: int, j: int) -> Seq<u8> {
    pt.subrange(16 + 4 * (i * dim + j), 16 + 4 * (i * dim + j) + 4)
}

/// The batch read out of a plaintext, or the message of why it cannot be read.
pub open spec fn decoded(pt: Seq<u8>) -> Result<Seq<Seq<Seq<u8>>>, Seq<char>> {
    if pt.len() < 16 {
        Err("Invalid plaintext length"@)
    } else {
        let n = le_value(pt.subrange(0, 8)) as int;
        let d = le_value(pt.subrange(8, 16)) as int;
        if n == 0 || d == 0 {
            Ok(seq![])
        } else if pt.len() < 16 + n * d * 4 {
            Err("Plaintext length mismatch"@)
        } else {
            Ok(Seq::new(n as nat, |i: int| Seq::new(d as nat, |j: int| component(pt, d, i, j))))
        }
    }
}

/// Views of a batch of component byte groups.
pub open spec fn rows_view(v: Seq<Vec<[u8; 4]>>) -> Seq<Seq<Seq<u8>>> {
    v.map_values(|r: Vec<[u8; 4]>| r@.map_values(|b: [u8; 4]| b@))
}

/// A decoding result seen as its outcome.
pub open spec fn outcome_of(r: Result<Vec<Vec<[u8; 4]>>, SolVecError>) -> Result<Seq<Seq<Seq<u8>>>, Seq<char>> {
    match r {
        Ok(v) => Ok(rows_view(v@)),
        Err(SolVecError::DecryptionError(m)) => Err(m@),
        Err(_) => Err(seq![]),
    }
}

// ---------------------------------------------------------------------------
// Lemmas
// ---------------------------------------------------------------------------

proof fn lemma_le_roundtrip(n: u64)
    ensures
        le_bytes(n).len() == 8,
        le_value(le_bytes(n)) == n,
{
    let b = le_bytes(n);
    let b0 = n as u8;
    let b1 = (n >> 8u64) as u8;
    let b2 = (n >> 16u64) as u8;
    let b3 = (n >> 24u64) as u8;
    let b4 = (n >> 32u64) as u8;
    let b5 = (n >> 40u64) as u8;
    let b6 = (n >> 48u64) as u8;
    let b7 = (n >> 56u64) as u8;
    assert(b[0] == b0 && b[1] == b1 && b[2] == b2 && b[3] == b3);
    assert(b[4] == b4 && b[5] == b5 && b[6] == b6 && b[7] == b7);
    assert((b0 as u64) | ((b1 as u64) << 8u64) | ((b2 as u64) << 16u64) | ((b3 as u64) << 24u64)
        | ((b4 as u64) << 32u64) | ((b5 as u64) << 40u64) | ((b6 as u64) << 48u64) | ((
    b7 as u64) << 56u64) == n) by (bit_vector)
        requires
            b0 == n as u8,
            b1 == (n >> 8u64) as u8,
            b2 == (n >> 16u64) as u8,
            b3 == (n >> 24u64) as u8,
            b4 == (n >> 32u64) as u8,
            b5 == (n >> 40u64) as u8,
            b6 == (n >> 48u64) as u8,
            b7 == (n >> 56u64) as u8,
    ;
}

proof fn lemma_flatten_row(row: Seq<Seq<u8>>, j: int)
    requires
        forall|k: int| 0 <= k < row.len() ==> (#[trigger] row[k]).len() == 4,
        0 <= j < row.len(),
    ensures
        flatten_row(row).len() == 4 * row.len(),
        flatten_row(row).subrange(4 * j, 4 * j + 4) == row[j],
    decreases row.len(),
{
    let init = row.drop_last();
    lemma_flatten_row_len(row);
    if j < row.len() - 1 {
        lemma_flatten_row(init, j);
        assert(flatten_row(row).subrange(4 * j, 4 * j + 4) =~= flatten_row(init).subrange(4 * j, 4 * j + 4));
    } else {
        lemma_flatten_row_len(init);
        assert(flatten_row(row).subrange(4 * j, 4 * j + 4) =~= row.last());
    }
}

proof fn lemma_flatten_row_len(row: Seq<Seq<u8>>)
    requires
        forall|k: int| 0 <= k < row.len() ==> (#[trigger] row[k]).len() == 4,
    ensures
        flatten_row(row).len() == 4 * row.len(),
    decreases row.len(),
{
    if row.len() > 0 {
        lemma_flatten_row_len(row.drop_last());
    }
}

proof fn lemma_offset_bound(i: int, j: int, n: int, d: int)
    requires
        0 <= i < n,
        0 <= j < d,
    ensures
        0 <= i * d + j,
        i * d + j + 1 <= n * d,
        (n - 1) * d + d == n * d,
        i * d + d <= n * d,
{
    assert(0 <= i * d + j) by (nonlinear_arith)
        requires
            0 <= i,
            0 <= j,
            0 <= d,
    ;
    assert(i * d + j + 1 <= n * d) by (nonlinear_arith)
        requires
            0 <= i < n,
            0 <= j < d,
    ;
    assert((n - 1) * d + d == n * d) by (nonlinear_arith);
    assert(i * d + d <= n * d) by (nonlinear_arith)
        requires
            0 <= i < n,
            0 <= d,
    ;
}

proof fn lemma_flatten(vs: Seq<Seq<Seq<u8>>>, d: int)
    requires
        rectangular(vs, d),
        d >= 0,
    ensures
        flatten(vs).len() == 4 * (vs.len() * d),
        forall|i: int, j: int|
            0 <= i < vs.len() && 0 <= j < d ==> flatten(vs).subrange(
                4 * (i * d + j),
                4 * (i * d + j) + 4,
            ) == #[trigger] vs[i][j],
    decreases vs.len(),
{
    if vs.len() > 0 {
        let n = vs.len() as int;
        let init = vs.drop_last();
        let last = vs.last();
        assert(rectangular(init, d)) by {
            assert forall|i: int| 0 <= i < init.len() implies (#[trigger] init[i]).len() == d by {
                assert(init[i] == vs[i]);
            }
            assert forall|i: int, j: int| 0 <= i < init.len() && 0 <= j < d implies (
            #[trigger] init[i][j]).len() == 4 by {
                assert(init[i] == vs[i]);
            }
        }
        lemma_flatten(init, d);
        assert(last.len() == d);
        assert forall|k: int| 0 <= k < last.len() implies (#[trigger] last[k]).len() == 4 by {
            assert(vs[n - 1][k].len() == 4);
        }
        lemma_flatten_row_len(last);
        assert(4 * ((n - 1) * d) + 4 * d == 4 * (n * d)) by (nonlinear_arith);
        assert(init.len() == n - 1);
        assert(flatten(vs) == flatten(init) + flatten_row(last));
        assert(flatten(vs).len() == 4 * (vs.len() * d));
        assert forall|i: int, j: int| 0 <= i < vs.len() && 0 <= j < d implies flatten(vs).subrange(
            4 * (i * d + j),
            4 * (i * d + j) + 4,
        ) == #[trigger] vs[i][j] by {
            lemma_offset_bound(i, j, n, d);
            if i < n - 1 {
                lemma_offset_bound(i, j, n - 1, d);
                assert(init[i][j] == vs[i][j]);
                assert(flatten(vs).subrange(4 * (i * d + j), 4 * (i * d + j) + 4) =~= flatten(
                    init,
                ).subrange(4 * (i * d + j), 4 * (i * d + j) + 4));
            } else {
                lemma_flatten_row(last, j);
                assert(flatten(vs).subrange(4 * (i * d + j), 4 * (i * d + j) + 4) =~= flatten_row(
                    last,
                ).subrange(4 * j, 4 * j + 4));
            }
        }
    } else {
        assert(4 * (vs.len() * d) == 0) by (nonlinear_arith)
            requires
                vs.len() == 0,
        ;
    }
}

// ---------------------------------------------------------------------------
// Laws
// ---------------------------------------------------------------------------

/// A batch of `n >= 1` vectors of one dimension `d >= 1` reads back, from
/// the plaintext it is framed as, as itself.
pub proof fn lemma_plaintext_roundtrip(vs: Seq<Seq<Seq<u8>>>, d: int)
    requires
        rectangular(vs, d),
        vs.len() >= 1,
        d >= 1,
        vs.len() <= u64::MAX,
        d <= u64::MAX,
    ensures
        decoded(plaintext_of(vs)) == Ok::<Seq<Seq<Seq<u8>>>, Seq<char>>(vs),
{
    let n = vs.len() as int;
    let pt = plaintext_of(vs);
    assert(vs[0].len() == d);
    lemma_le_roundtrip(vs.len() as u64);
    lemma_le_roundtrip(d as u64);
    lemma_flatten(vs, d);
    assert(pt.subrange(0, 8) =~= le_bytes(vs.len() as u64));
    assert(pt.subrange(8, 16) =~= le_bytes(d as u64));
    assert(4 * (n * d) == n * d * 4) by (nonlinear_arith);
    let out = Seq::new(n as nat, |i: int| Seq::new(d as nat, |j: int| component(pt, d, i, j)));
    assert forall|i: int| 0 <= i < n implies out[i] =~= vs[i] by {
        assert(vs[i].len() == d);
        assert forall|j: int| 0 <= j < d implies out[i][j] == vs[i][j] by {
            lemma_offset_bound(i, j, n, d);
            assert(component(pt, d, i, j) =~= flatten(vs).subrange(4 * (i * d + j), 4 * (i * d + j) + 4));
        }
    }
    assert(out =~= vs);
}

// ---------------------------------------------------------------------------
// Operations
// ---------------------------------------------------------------------------

/// The outcome of decrypting and decoding a stored payload under `key`.
pub open spec fn decrypted(encrypted: Seq<u8>, key: Seq<u8>) -> Result<Seq<Seq<Seq<u8>>>, Seq<char>> {
    if encrypted.len() < 12 {
        Err("Ciphertext too short"@)
    } else {
        match aes256gcm_open(key, encrypted.take(12), encrypted.skip(12)) {
            None => Err("aead::Error"@),
            Some(pt) => decoded(pt),
        }
    }
}

/// Appends the little-endian bytes of `n`.
fn push_le(buf: &mut Vec<u8>, n: u64)
    ensures
        final(buf)@ == old(buf)@ + le_bytes(n),
{
    let ghost start = buf@;
    buf.push(n as u8);
    buf.push((n >> 8u64) as u8);
    buf.push((n >> 16u64) as u8);
    buf.push((n >> 24u64) as u8);
    buf.push((n >> 32u64) as u8);
    buf.push((n >> 40u64) as u8);
    buf.push((n >> 48u64) as u8);
    buf.push((n >> 56u64) as u8);
    assert(buf@ =~= start + le_bytes(n));
}

/// The `u64` stored little-endian at `start`.
fn read_le(b: &[u8], start: usize) -> (n: u64)
    requires
        start + 8 <= b@.len(),
    ensures
        n == le_value(b@.subrange(start as int, start + 8)),
{
    let ghost s = b@.subrange(start as int, start + 8);
    assert(s[0] == b@[start as int] && s[1] == b@[start + 1] && s[2] == b@[start + 2] && s[3]
        == b@[start + 3]);
    assert(s[4] == b@[start + 4] && s[5] == b@[start + 5] && s[6] == b@[start + 6] && s[7]
        == b@[start + 7]);
    (b[start] as u64) | ((b[start + 1] as u64) << 8u64) | ((b[start + 2] as u64) << 16u64) | ((
    b[start + 3] as u64) << 24u64) | ((b[start + 4] as u64) << 32u64) | ((b[start + 5] as u64)
        << 40u64) | ((b[start + 6] as u64) << 48u64) | ((b[start + 7] as u64) << 56u64)
}

/// Frames a batch: `le64(n) ++ le64(d) ++ component bytes`, where `d` is
/// the dimension of the first vector (0 for an empty batch).
pub fn encode_plaintext(vectors: &[Vec<[u8; 4]>]) -> (pt: Vec<u8>)
    ensures
        pt@ == plaintext_of(rows_view(vectors@)),
{
    let ghost rv = rows_view(vectors@);
    let mut buf: Vec<u8> = Vec::new();
    push_le(&mut buf, vectors.len() as u64);
    let dim: u64 = if vectors.len() == 0 { 0 } else { vectors[0].len() as u64 };
    push_le(&mut buf, dim);
    let ghost header = buf@;
    assert(header == le_bytes(rv.len() as u64) + le_bytes(batch_dim(rv) as u64));
    assert(rv.take(0) =~= Seq::<Seq<Seq<u8>>>::empty());
    let mut i: usize = 0;
    while i < vectors.len()
        invariant
            i <= vectors.len(),
            rv == rows_view(vectors@),
            buf@ == header + flatten(rv.take(i as int)),
        decreases vectors.len() - i,
    {
        let row = &vectors[i];
        let ghost r = rv[i as int];
        assert(r == row@.map_values(|b: [u8; 4]| b@));
        let ghost before = buf@;
        assert(r.take(0) =~= Seq::<Seq<u8>>::empty());
        let mut j: usize = 0;
        while j < row.len()
            invariant
                j <= row.len(),
                r == row@.map_values(|b: [u8; 4]| b@),
                buf@ == before + flatten_row(r.take(j as int)),
            decreases row.len() - j,
        {
            push_all(&mut buf, row[j].as_slice());
            proof {
                assert(r.take(j + 1).drop_last() =~= r.take(j as int));
                assert(r.take(j + 1).last() == row@[j as int]@);
            }
            j = j + 1;
        }
        assert(r.take(j as int) =~= r);
        proof {
            assert(rv.take(i + 1).drop_last() =~= rv.take(i as int));
            assert(rv.take(i + 1).last() == r);
        }
        i = i + 1;
    }
    assert(rv.take(i as int) =~= rv);
    buf
}

/// Reads `d` four-byte groups starting at `start`.
fn read_row(pt: &[u8], start: usize, d: usize) -> (row: Vec<[u8; 4]>)
    requires
        start + 4 * d <= pt@.len(),
    ensures
        row@.map_values(|b: [u8; 4]| b@) == Seq::new(
            d as nat,
            |j: int| pt@.subrange(start + 4 * j, start + 4 * j + 4),
        ),
{
    let mut row: Vec<[u8; 4]> = Vec::new();
    let mut j: usize = 0;
    let mut off: usize = start;
    while j < d
        invariant
            j <= d,
            off == start + 4 * j,
            start + 4 * d <= pt@.len(),
            row@.len() == j,
            forall|k: int| 0 <= k < j ==> (#[trigger] row@[k])@ == pt@.subrange(start + 4 * k, start + 4 * k + 4),
        decreases d - j,
    {
        let group: [u8; 4] = [pt[off], pt[off + 1], pt[off + 2], pt[off + 3]];
        assert(group@ =~= pt@.subrange(off as int, off + 4));
        row.push(group);
        j = j + 1;
        off = off + 4;
    }
    assert(row@.map_values(|b: [u8; 4]| b@) =~= Seq::new(
        d as nat,
        |j: int| pt@.subrange(start + 4 * j, start + 4 * j + 4),
    ));
    row
}

/// Reads a batch out of a decrypted plaintext.
pub fn parse_plaintext(pt: &[u8]) -> (r: Result<Vec<Vec<[u8; 4]>>, SolVecError>)
    ensures
        outcome_of(r) == decoded(pt@),
        r matches Err(e) ==> e is DecryptionError,
{
    if pt.len() < 16 {
        return Err(SolVecError::DecryptionError(String::from_str("Invalid plaintext length")));
    }
    let n = read_le(pt, 0);
    let d = read_le(pt, 8);
    if d == 0 || n == 0 {
        let empty: Vec<Vec<[u8; 4]>> = Vec::new();
        assert(rows_view(empty@) =~= Seq::<Seq<Seq<u8>>>::empty());
        return Ok(empty);
    }
    let needed: Option<u64> = match n.checked_mul(d) {
        Some(x) => match x.checked_mul(4) {
            Some(y) => y.checked_add(16),
            None => None,
        },
        None => None,
    };
    let enough = match needed {
        Some(need) => (pt.len() as u64) >= need,
        None => false,
    };
    if !enough {
        return Err(SolVecError::DecryptionError(String::from_str("Plaintext length mismatch")));
    }
    let ghost ni = n as int;
    let ghost di = d as int;
    proof {
        assert(16 + ni * di * 4 <= pt@.len());
        assert(ni <= ni * di && di <= ni * di) by (nonlinear_arith)
            requires
                ni >= 1,
                di >= 1,
        ;
        assert(4 * (ni * di) == ni * di * 4) by (nonlinear_arith);
    }
    let count = n as usize;
    let dim = d as usize;
    let ghost expected = Seq::new(
        ni as nat,
        |i: int| Seq::new(di as nat, |j: int| component(pt@, di, i, j)),
    );
    let plen = pt.len();
    let step = 4 * dim;
    let mut out: Vec<Vec<[u8; 4]>> = Vec::new();
    let mut i: usize = 0;
    let mut start: usize = 16;
    while i < count
        invariant
            count == ni,
            dim == di,
            ni >= 1,
            di >= 1,
            16 + 4 * (ni * di) <= pt@.len(),
            di <= ni * di,
            step == 4 * di,
            plen == pt@.len(),
            expected == Seq::new(
                ni as nat,
                |i: int| Seq::new(di as nat, |j: int| component(pt@, di, i, j)),
            ),
            i <= count,
            start == 16 + 4 * (i * di),
            out@.len() == i,
            forall|k: int| 0 <= k < i ==> (#[trigger] out@[k])@.map_values(|b: [u8; 4]| b@) == expected[k],
        decreases count - i,
    {
        proof {
            lemma_offset_bound(i as int, 0, ni, di);
        }
        let row = read_row(pt, start, dim);
        proof {
            let rv = row@.map_values(|b: [u8; 4]| b@);
            assert forall|j: int| 0 <= j < di implies rv[j] == expected[i as int][j] by {
                assert(16 + 4 * (i * di + j) == start + 4 * j);
            }
            assert(rv =~= expected[i as int]);
        }
        out.push(row);
        proof {
            assert((i + 1) * di == i * di + di) by (nonlinear_arith);
        }
        i = i + 1;
        start = start + step;
    }
    assert(rows_view(out@) =~= expected);
    Ok(out)
}

/// Encrypts a batch with AES-256-GCM under `key` and the given `nonce`.
/// The result is `nonce ++ ciphertext`.
pub fn encrypt_with_nonce(vectors: &[Vec<[u8; 4]>], key: &[u8; 32], nonce: &[u8; 12]) -> (r: Result<Vec<u8>, SolVecError>)
    ensures
        r is Err <==> plaintext_of(rows_view(vectors@)).len() > max_plaintext_len(),
        r matches Err(e) ==> e matches SolVecError::EncryptionError(m) && m@ == "aead::Error"@,
        r matches Ok(c) ==> {
            &&& c@.len() == 12 + plaintext_of(rows_view(vectors@)).len() + 16
            &&& c@.take(12) == nonce@
            &&& c@.skip(12) == aes256gcm_seal(key@, nonce@, plaintext_of(rows_view(vectors@)))
            &&& aes256gcm_open(key@, nonce@, c@.skip(12)) == Some(plaintext_of(rows_view(vectors@)))
        },
        r matches Ok(c) ==> forall|d: int|
            #![trigger rectangular(rows_view(vectors@), d)]
            rectangular(rows_view(vectors@), d) && vectors@.len() >= 1 && 1 <= d <= u64::MAX
                ==> decrypted(c@, key@) == Ok::<Seq<Seq<Seq<u8>>>, Seq<char>>(rows_view(vectors@)),
{
    let nv = vectors.len();
    let pt = encode_plaintext(vectors);
    match aes_seal(key, nonce, pt.as_slice()) {
        Err(e) => Err(SolVecError::EncryptionError(aead_error_message(&e))),
        Ok(ct) => {
            let mut out: Vec<u8> = Vec::new();
            push_all(&mut out, nonce.as_slice());
            push_all(&mut out, ct.as_slice());
            proof {
                assert(out@.take(12) =~= nonce@);
                assert(out@.skip(12) =~= ct@);
                assert forall|d: int|
                    #![trigger rectangular(rows_view(vectors@), d)]
                    rectangular(rows_view(vectors@), d) && vectors@.len() >= 1 && 1 <= d <= u64::MAX
                        implies decrypted(out@, key@) == Ok::<Seq<Seq<Seq<u8>>>, Seq<char>>(
                    rows_view(vectors@),
                ) by {
                    assert(vectors@.len() == nv);
                    lemma_plaintext_roundtrip(rows_view(vectors@), d);
                }
            }
            Ok(out)
        },
    }
}

/// Encrypts a batch with AES-256-GCM under `key` and a fresh random nonce,
/// as `encrypt_with_nonce` does. The result is `nonce ++ ciphertext`.
pub fn encrypt_payload(vectors: &[Vec<[u8; 4]>], key: &[u8; 32]) -> (r: Result<Vec<u8>, SolVecError>)
    ensures
        r is Err <==> plaintext_of(rows_view(vectors@)).len() > max_plaintext_len(),
        r matches Err(e) ==> e matches SolVecError::EncryptionError(m) && m@ == "aead::Error"@,
        r matches Ok(c) ==> {
            &&& c@.len() == 12 + plaintext_of(rows_view(vectors@)).len() + 16
            &&& c@.skip(12) == aes256gcm_seal(key@, c@.take(12), plaintext_of(rows_view(vectors@)))
            &&& aes256gcm_open(key@, c@.take(12), c@.skip(12)) == Some(plaintext_of(rows_view(vectors@)))
        },
        r matches Ok(c) ==> forall|d: int|
            #![trigger rectangular(rows_view(vectors@), d)]
            rectangular(rows_view(vectors@), d) && vectors@.len() >= 1 && 1 <= d <= u64::MAX
                ==> decrypted(c@, key@) == Ok::<Seq<Seq<Seq<u8>>>, Seq<char>>(rows_view(vectors@)),
{
    let nonce = random_nonce();
    encrypt_with_nonce(vectors, key, &nonce)
}

/// Decrypts a stored payload (`nonce ++ ciphertext`) under `key` and reads
/// the batch out of it.
pub fn decrypt_payload(encrypted: &[u8], key: &[u8; 32]) -> (r: Result<Vec<Vec<[u8; 4]>>, SolVecError>)
    ensures
        outcome_of(r) == decrypted(encrypted@, key@),
        r matches Err(e) ==> e is DecryptionError,
{
    if encrypted.len() < NONCE_SIZE {
        return Err(SolVecError::DecryptionError(String::from_str("Ciphertext too short")));
    }
    let nonce: [u8; 12] = [
        encrypted[0],
        encrypted[1],
        encrypted[2],
        encrypted[3],
        encrypted[4],
        encrypted[5],
        encrypted[6],
        encrypted[7],
        encrypted[8],
        encrypted[9],
        encrypted[10],
        encrypted[11],
    ];
    assert(nonce@ =~= encrypted@.take(12));
    let mut ct: Vec<u8> = Vec::new();
    let mut i: usize = NONCE_SIZE;
    while i < encrypted.len()
        invariant
            12 <= i <= encrypted.len(),
            ct@ == encrypted@.subrange(12, i as int),
        decreases encrypted.len() - i,
    {
        ct.push(encrypted[i]);
        i = i + 1;
        assert(ct@ =~= encrypted@.subrange(12, i as int));
    }
    assert(ct@ =~= encrypted@.skip(12));
    match aes_open(key, &nonce, ct.as_slice()) {
        Err(e) => Err(SolVecError::DecryptionError(aead_error_message(&e))),
        Ok(pt) => parse_plaintext(pt.as_slice()),
    }
}

/// The bytes of `"solvec-encryption-key-v1:"`.
pub open spec fn key_prefix() -> Seq<u8> {
    seq![
        115u8, 111u8, 108u8, 118u8, 101u8, 99u8, 45u8, 101u8, 110u8, 99u8, 114u8, 121u8, 112u8,
        116u8, 105u8, 111u8, 110u8, 45u8, 107u8, 101u8, 121u8, 45u8, 118u8, 49u8, 58u8,
    ]
}

/// Derives a 32-byte encryption key from a wallet public key:
/// `SHA-256("solvec-encryption-key-v1:" ++ pubkey)`.
pub fn derive_key_from_pubkey(pubkey_bytes: &[u8; 32]) -> (key: [u8; 32])
    ensures
        key@ == sha256_spec(key_prefix() + pubkey_bytes@),
{
    let prefix: [u8; 25] = [
        115u8, 111u8, 108u8, 118u8, 101u8, 99u8, 45u8, 101u8, 110u8, 99u8, 114u8, 121u8, 112u8,
        116u8, 105u8, 111u8, 110u8, 45u8, 107u8, 101u8, 121u8, 45u8, 118u8, 49u8, 58u8,
    ];
    assert(prefix@ =~= key_prefix());
    let mut buf: Vec<u8> = Vec::new();
    push_all(&mut buf, prefix.as_slice());
    push_all(&mut buf, pubkey_bytes.as_slice());
    sha256(buf.as_slice())
}

} // verus!
