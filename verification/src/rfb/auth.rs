//! VNC authentication (RFB security type 2): DES with a bit-reversed key.

use cipher::generic_array::GenericArray;
use cipher::{BlockEncrypt, KeyInit};
use des::Des;
use vstd::arithmetic::power2::pow2;
use vstd::prelude::*;
use vstd::utf8::encode_utf8;

use crate::pixel::field;

verus! {

/// What DES makes of an 8-byte block under an 8-byte key.
pub uninterp spec fn des_block(key: Seq<u8>, block: Seq<u8>) -> Seq<u8>;

/// `Des::new` and `encrypt_block`: one 8-byte block under an 8-byte key.
#[verifier::external_body]
fn encrypt_block(key: &[u8], block: &[u8]) -> (out: Vec<u8>)
    requires
        key@.len() == 8,
        block@.len() == 8,
    ensures
        out@ == des_block(key@, block@),
        out@.len() == 8,
{
    let cipher = Des::new(GenericArray::from_slice(key));
    let mut b = GenericArray::clone_from_slice(block);
    cipher.encrypt_block(&mut b);
    b.to_vec()
}

/// A byte with its bits in the opposite order.
pub open spec fn reversed(b: u8) -> u8 {
    (b % 2 * 128 + b / 2 % 2 * 64 + b / 4 % 2 * 32 + b / 8 % 2 * 16 + b / 16 % 2 * 8 + b / 32 % 2
        * 4 + b / 64 % 2 * 2 + b / 128) as u8
}

fn reverse_bits(b: u8) -> (r: u8)
    ensures
        r == reversed(b),
{
    b % 2 * 128 + b / 2 % 2 * 64 + b / 4 % 2 * 32 + b / 8 % 2 * 16 + b / 16 % 2 * 8 + b / 32 % 2 * 4
        + b / 64 % 2 * 2 + b / 128
}

/// The key of a password: its first 8 bytes with their bits reversed, zeros
/// where it is shorter.
pub open spec fn vnc_key(password: Seq<u8>) -> Seq<u8> {
    Seq::new(
        8,
        |i: int|
            if i < password.len() {
                reversed(password[i])
            } else {
                0u8
            },
    )
}

/// What a client that knows the password answers a challenge with.
pub open spec fn response_to(password: Seq<char>, challenge: Seq<u8>) -> Seq<u8> {
    let key = vnc_key(encode_utf8(password));
    des_block(key, challenge.subrange(0, 8)) + des_block(key, challenge.subrange(8, 16))
}

/// Encrypt a 16-byte challenge the way RFB expects: the password is truncated
/// or zero-padded to 8 bytes, every key byte has its bits reversed, and the
/// challenge is encrypted as two ECB blocks.
pub fn encrypt_challenge(password: &str, challenge: &[u8; 16]) -> (out: [u8; 16])
    ensures
        out@ == response_to(password@, challenge@),
{
    let bytes: &[u8] = password.as_bytes();
    let mut key: Vec<u8> = Vec::new();
    for i in 0..8usize
        invariant
            key@.len() == i,
            forall|j: int| 0 <= j < i ==> #[trigger] key@[j] == vnc_key(bytes@)[j],
    {
        key.push(
            if i < bytes.len() {
                reverse_bits(bytes[i])
            } else {
                0
            },
        );
    }
    assert(key@ =~= vnc_key(bytes@));
    let whole: &[u8] = challenge.as_slice();
    let first: Vec<u8> = encrypt_block(key.as_slice(), &whole[0..8]);
    let second: Vec<u8> = encrypt_block(key.as_slice(), &whole[8..16]);
    let mut out: [u8; 16] = [0; 16];
    for i in 0..16usize
        invariant
            first@.len() == 8,
            second@.len() == 8,
            forall|j: int| 0 <= j < i ==> #[trigger] out@[j] == (first@ + second@)[j],
    {
        out[i] = if i < 8 {
            first[i]
        } else {
            second[i - 8]
        };
    }
    assert(out@ =~= first@ + second@);
    out
}

/// Constant-time comparison so a wrong response cannot be probed byte by byte.
pub fn constant_time_eq(a: &[u8], b: &[u8]) -> (r: bool)
    ensures
        r == (a@ == b@),
{
    if a.len() != b.len() {
        return false;
    }
    let mut diff: u8 = 0;
    for i in 0..a.len()
        invariant
            a@.len() == b@.len(),
            diff == 0 <==> forall|j: int| 0 <= j < i ==> #[trigger] a@[j] == b@[j],
    {
        let (x, y, d): (u8, u8, u8) = (a[i], b[i], diff);
        diff = d | (x ^ y);
        assert(d | (x ^ y) == 0 <==> d == 0 && x == y) by (bit_vector);
    }
    if diff == 0 {
        assert(a@ =~= b@);
    }
    diff == 0
}

/// Only the first 8 bytes of a password count.
pub proof fn lemma_password_is_truncated(a: Seq<char>, b: Seq<char>, challenge: Seq<u8>)
    requires
        encode_utf8(a).len() >= 8,
        encode_utf8(b).len() >= 8,
        encode_utf8(a).take(8) == encode_utf8(b).take(8),
    ensures
        response_to(a, challenge) == response_to(b, challenge),
{
    let (x, y) = (encode_utf8(a), encode_utf8(b));
    assert forall|i: int| 0 <= i < 8 implies vnc_key(x)[i] == #[trigger] vnc_key(y)[i] by {
        assert(x.take(8)[i] == y.take(8)[i]);
    }
    assert(vnc_key(x) =~= vnc_key(y));
}

/// Equal halves of a challenge give equal halves of the response.
pub proof fn lemma_blocks_are_independent(password: Seq<char>, challenge: Seq<u8>)
    requires
        challenge.len() == 16,
        challenge.subrange(0, 8) == challenge.subrange(8, 16),
    ensures
        ({
            let half = des_block(vnc_key(encode_utf8(password)), challenge.subrange(0, 8));
            response_to(password, challenge) == half + half
        }),
{
}

/// Whether bit `j` of a byte is set.
pub open spec fn bit_is_set(b: u8, j: int) -> bool {
    field(b as int, j, 1) == 1
}

/// A challenge is answered with its two halves, each under DES, with a key of eight
/// bytes: the password's first eight, every one with its bits in the opposite order,
/// and zeros where it is shorter.
pub proof fn lemma_challenge_is_answered_with_the_key(
    password: Seq<char>,
    challenge: Seq<u8>,
    key: Seq<u8>,
)
    requires
        key.len() == 8,
        forall|i: int, j: int|
            0 <= i < 8 && 0 <= j < 8 ==> #[trigger] bit_is_set(key[i], j) == (i < encode_utf8(
                password,
            ).len() && bit_is_set(encode_utf8(password)[i], 7 - j)),
    ensures
        response_to(password, challenge) == des_block(key, challenge.subrange(0, 8)) + des_block(
            key,
            challenge.subrange(8, 16),
        ),
{
    let p = encode_utf8(password);
    assert forall|i: int| 0 <= i < 8 implies key[i] == #[trigger] vnc_key(p)[i] by {
        let want = vnc_key(p)[i];
        assert forall|j: int| 0 <= j < 8 implies #[trigger] bit_is_set(want, j) == bit_is_set(
            key[i],
            j,
        ) by {
            lemma_bits_of_zero(j);
            if i < p.len() {
                lemma_reversed_bit(p[i], j);
            }
        }
        lemma_same_bits(want, key[i]);
    }
    assert(vnc_key(p) =~= key);
}

proof fn lemma_bits_of_zero(j: int)
    ensures
        !bit_is_set(0, j),
{
    vstd::arithmetic::power2::lemma_pow2_pos(j as nat);
    vstd::arithmetic::power2::lemma2_to64();
    vstd::arithmetic::div_mod::lemma_div_basics_1(pow2(j as nat) as int);
}

proof fn lemma_bits_by_division(b: u8)
    ensures
        bit_is_set(b, 0) == (b % 2 == 1),
        bit_is_set(b, 1) == (b / 2 % 2 == 1),
        bit_is_set(b, 2) == (b / 4 % 2 == 1),
        bit_is_set(b, 3) == (b / 8 % 2 == 1),
        bit_is_set(b, 4) == (b / 16 % 2 == 1),
        bit_is_set(b, 5) == (b / 32 % 2 == 1),
        bit_is_set(b, 6) == (b / 64 % 2 == 1),
        bit_is_set(b, 7) == (b / 128 % 2 == 1),
{
    vstd::arithmetic::power2::lemma2_to64();
    assert(b as int / 1 == b);
    assert(pow2(0int as nat) == 1 && pow2(1int as nat) == 2 && pow2(2int as nat) == 4);
    assert(pow2(3int as nat) == 8 && pow2(4int as nat) == 16 && pow2(5int as nat) == 32);
    assert(pow2(6int as nat) == 64 && pow2(7int as nat) == 128);
}

proof fn lemma_reversed_bit(b: u8, j: int)
    requires
        0 <= j < 8,
    ensures
        bit_is_set(reversed(b), j) == bit_is_set(b, 7 - j),
{
    let r = reversed(b);
    lemma_bits_by_division(b);
    lemma_bits_by_division(r);
    assert(r % 2 == b / 128 % 2 && r / 2 % 2 == b / 64 % 2 && r / 4 % 2 == b / 32 % 2 && r / 8 % 2
        == b / 16 % 2 && r / 16 % 2 == b / 8 % 2 && r / 32 % 2 == b / 4 % 2 && r / 64 % 2 == b / 2
        % 2 && r / 128 % 2 == b % 2) by (bit_vector)
        requires
            r == (b % 2 * 128 + b / 2 % 2 * 64 + b / 4 % 2 * 32 + b / 8 % 2 * 16 + b / 16 % 2 * 8 + b
                / 32 % 2 * 4 + b / 64 % 2 * 2 + b / 128) as u8,
    ;
}

proof fn lemma_same_bits(a: u8, b: u8)
    requires
        forall|j: int| 0 <= j < 8 ==> #[trigger] bit_is_set(a, j) == bit_is_set(b, j),
    ensures
        a == b,
{
    lemma_bits_by_division(a);
    lemma_bits_by_division(b);
    assert(bit_is_set(a, 0) == bit_is_set(b, 0) && bit_is_set(a, 1) == bit_is_set(b, 1));
    assert(bit_is_set(a, 2) == bit_is_set(b, 2) && bit_is_set(a, 3) == bit_is_set(b, 3));
    assert(bit_is_set(a, 4) == bit_is_set(b, 4) && bit_is_set(a, 5) == bit_is_set(b, 5));
    assert(bit_is_set(a, 6) == bit_is_set(b, 6) && bit_is_set(a, 7) == bit_is_set(b, 7));
    assert(a == b) by (bit_vector)
        requires
            a % 2 == b % 2,
            a / 2 % 2 == b / 2 % 2,
            a / 4 % 2 == b / 4 % 2,
            a / 8 % 2 == b / 8 % 2,
            a / 16 % 2 == b / 16 % 2,
            a / 32 % 2 == b / 32 % 2,
            a / 64 % 2 == b / 64 % 2,
            a / 128 % 2 == b / 128 % 2,
    ;
}

} // verus!
