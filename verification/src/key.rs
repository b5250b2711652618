//! Fixed-size byte arrays used as DHT keys, secrets, signatures and distances,
//! with their bit/nibble accessors, ordering, text encodings and the hashing
//! and signing primitives built on them.

use core::cmp::Ordering;
use vstd::prelude::*;
use vstd::string::StringSliceAdditionalSpecFns;

verus! {

pub const DHT_KEY_LENGTH: usize = 32;
pub const DHT_KEY_LENGTH_ENCODED: usize = 43;
pub const DHT_KEY_SECRET_LENGTH: usize = 32;
pub const DHT_KEY_SECRET_LENGTH_ENCODED: usize = 43;
pub const DHT_SIGNATURE_LENGTH: usize = 64;
pub const DHT_SIGNATURE_LENGTH_ENCODED: usize = 86;

/// A fixed-size byte array with a validity flag. An invalid array is the
/// "empty" value (its text forms are the empty string).
#[derive(Clone, Copy, Debug)]
pub struct ByteArray<const N: usize> {
    pub bytes: [u8; N],
    pub valid: bool,
}

pub type DHTKey = ByteArray<32>;

pub type DHTKeySecret = ByteArray<32>;

pub type DHTSignature = ByteArray<64>;

pub type DHTKeyDistance = ByteArray<32>;

/// Bit `n` (0 = most significant) of a byte.
pub open spec fn byte_bit(b: u8, n: int) -> bool {
    (b >> ((7 - n) as u8)) & 1u8 != 0u8
}

/// Bit `index` of a byte sequence, most significant bit of the first byte first.
pub open spec fn seq_bit(bytes: Seq<u8>, index: int) -> bool {
    byte_bit(bytes[index / 8], index % 8)
}

/// Nibble `index` of a byte sequence, high nibble of the first byte first.
pub open spec fn seq_nibble(bytes: Seq<u8>, index: int) -> u8 {
    if index % 2 == 0 {
        (bytes[index / 2] >> 4u8) & 0xFu8
    } else {
        bytes[index / 2] & 0xFu8
    }
}

/// Lexicographic order of two byte sequences of equal length: -1, 0 or 1.
pub open spec fn lex_order(a: Seq<u8>, b: Seq<u8>) -> int
    decreases a.len(),
{
    if a.len() == 0 || b.len() == 0 {
        0
    } else if a[0] < b[0] {
        -1
    } else if a[0] > b[0] {
        1
    } else {
        lex_order(a.drop_first(), b.drop_first())
    }
}

/// The order of byte arrays: invalid arrays are equal to each other and
/// below every valid array; valid arrays are ordered lexicographically.
pub open spec fn key_order<const N: usize>(a: ByteArray<N>, b: ByteArray<N>) -> int {
    if !a.valid && !b.valid {
        0
    } else if !a.valid {
        -1
    } else if !b.valid {
        1
    } else {
        lex_order(a.bytes@, b.bytes@)
    }
}

proof fn lemma_zero_byte_bits(b: u8)
    requires
        b == 0,
    ensures
        forall|n: int| 0 <= n < 8 ==> !byte_bit(b, n),
{
    assert(forall|s: u8| (0u8 >> s) & 1u8 == 0u8) by (bit_vector);
}

proof fn lemma_nonzero_byte_has_bit(b: u8)
    requires
        b != 0,
    ensures
        exists|n: int| 0 <= n < 8 && byte_bit(b, n),
{
    assert(b != 0 ==> ((b >> 7u8) & 1u8 != 0u8 || (b >> 6u8) & 1u8 != 0u8 || (b >> 5u8) & 1u8
        != 0u8 || (b >> 4u8) & 1u8 != 0u8 || (b >> 3u8) & 1u8 != 0u8 || (b >> 2u8) & 1u8 != 0u8
        || (b >> 1u8) & 1u8 != 0u8 || (b >> 0u8) & 1u8 != 0u8)) by (bit_vector);
    if byte_bit(b, 0) {
    } else if byte_bit(b, 1) {
    } else if byte_bit(b, 2) {
    } else if byte_bit(b, 3) {
    } else if byte_bit(b, 4) {
    } else if byte_bit(b, 5) {
    } else if byte_bit(b, 6) {
    } else {
        assert(byte_bit(b, 7));
    }
}

proof fn lemma_lex_order_refl(a: Seq<u8>)
    ensures
        lex_order(a, a) == 0,
    decreases a.len(),
{
    if a.len() > 0 {
        lemma_lex_order_refl(a.drop_first());
    }
}

impl<const N: usize> ByteArray<N> {
    /// A valid array holding `bytes`.
    pub fn new(bytes: [u8; N]) -> (r: Self)
        ensures
            r.bytes == bytes,
            r.valid,
    {
        ByteArray { bytes, valid: true }
    }

    /// A valid array holding the bytes of `v`; fails unless `v` has exactly `N` bytes.
    pub fn try_from_vec(v: Vec<u8>) -> (r: Result<Self, String>)
        ensures
            r is Ok <==> v@.len() == N,
            r matches Ok(a) ==> a.valid && a.bytes@ == v@,
            r matches Err(e) ==> e@ == vec_length_message(N as int, v@.len() as int),
    {
        if v.len() != N {
            return Err(fmt_vec_length_message(N, v.len()));
        }
        let mut bytes = [0u8; N];
        let mut n: usize = 0;
        while n < N
            invariant
                n <= N,
                v@.len() == N,
                forall|i: int| 0 <= i < n ==> bytes@[i] == v@[i],
            decreases N - n,
        {
            bytes[n] = v[n];
            n += 1;
        }
        assert(bytes@ =~= v@);
        Ok(ByteArray { bytes, valid: true })
    }

    /// Bit `index`, most significant bit of the first byte first.
    pub fn bit(&self, index: usize) -> (r: bool)
        requires
            index < N * 8,
        ensures
            r == seq_bit(self.bytes@, index as int),
    {
        let bi = index / 8;
        let ti: u8 = (7 - (index % 8)) as u8;
        ((self.bytes[bi] >> ti) & 1u8) != 0u8
    }

    /// The index of the first set bit, or `None` when every bit is clear.
    pub fn first_nonzero_bit(&self) -> (r: Option<usize>)
        requires
            N * 8 <= usize::MAX,
        ensures
            r matches Some(k) ==> k < N * 8 && seq_bit(self.bytes@, k as int) && forall|j: int|
                0 <= j < k ==> !seq_bit(self.bytes@, j),
            r is None ==> forall|j: int| 0 <= j < N * 8 ==> !seq_bit(self.bytes@, j),
    {
        let mut i: usize = 0;
        while i < N
            invariant
                i <= N,
                N * 8 <= usize::MAX,
                forall|j: int| 0 <= j < i * 8 ==> !seq_bit(self.bytes@, j),
            decreases N - i,
        {
            let b = self.bytes[i];
            if b != 0 {
                let mut n: usize = 0;
                while n < 8
                    invariant
                        n <= 8,
                        i < N,
                        N * 8 <= usize::MAX,
                        b == self.bytes@[i as int],
                        b != 0,
                        forall|m: int| 0 <= m < n ==> !byte_bit(b, m),
                        forall|j: int| 0 <= j < i * 8 ==> !seq_bit(self.bytes@, j),
                    decreases 8 - n,
                {
                    let s: u8 = (7 - n) as u8;
                    if ((b >> s) & 1u8) != 0u8 {
                        let k = i * 8 + n;
                        assert(byte_bit(b, n as int));
                        assert forall|j: int| 0 <= j < k implies !seq_bit(self.bytes@, j) by {
                            if j >= i * 8 {
                                assert(j / 8 == i as int);
                                assert(j % 8 == j - i * 8);
                            }
                        }
                        assert((k as int) / 8 == i as int);
                        assert((k as int) % 8 == n as int);
                        return Some(k);
                    }
                    n += 1;
                }
                proof {
                    lemma_nonzero_byte_has_bit(b);
                }
                assert(false);
            }
            proof {
                lemma_zero_byte_bits(b);
                assert forall|j: int| 0 <= j < (i + 1) * 8 implies !seq_bit(self.bytes@, j) by {
                    if j >= i * 8 {
                        assert(j / 8 == i as int);
                        assert(0 <= j % 8 < 8);
                    }
                }
            }
            i += 1;
        }
        None
    }

    /// Nibble `index`, high nibble of the first byte first.
    pub fn nibble(&self, index: usize) -> (r: u8)
        requires
            index < N * 2,
        ensures
            r == seq_nibble(self.bytes@, index as int),
    {
        let bi = index / 2;
        assert((index & 1usize == 0usize) == (index % 2 == 0)) by (bit_vector);
        if index & 1 == 0 {
            (self.bytes[bi] >> 4u8) & 0xFu8
        } else {
            self.bytes[bi] & 0xFu8
        }
    }

    /// The first nonzero nibble with its index, or `None` when every nibble is zero.
    pub fn first_nonzero_nibble(&self) -> (r: Option<(usize, u8)>)
        requires
            N * 2 <= usize::MAX,
        ensures
            r matches Some((k, v)) ==> k < N * 2 && v != 0 && v == seq_nibble(self.bytes@, k as int)
                && forall|j: int| 0 <= j < k ==> seq_nibble(self.bytes@, j) == 0,
            r is None ==> forall|j: int| 0 <= j < N * 2 ==> seq_nibble(self.bytes@, j) == 0,
    {
        let mut i: usize = 0;
        while i < N * 2
            invariant
                i <= N * 2,
                N * 2 <= usize::MAX,
                forall|j: int| 0 <= j < i ==> seq_nibble(self.bytes@, j) == 0,
            decreases N * 2 - i,
        {
            let n = self.nibble(i);
            if n != 0 {
                return Some((i, n));
            }
            i += 1;
        }
        None
    }

    /// Whether two arrays hold the same flag and the same bytes.
    pub open spec fn same_as(&self, other: &Self) -> bool {
        self.valid == other.valid && self.bytes@ == other.bytes@
    }
}

/// The decimal digits of `n`, most significant first, with no leading zero.
pub open spec fn decimal_text(n: nat) -> Seq<char>
    decreases n,
{
    let d = ((n % 10) + 48) as char;
    if n < 10 {
        seq![d]
    } else {
        decimal_text(n / 10).push(d)
    }
}

/// The text of the error for a byte vector of the wrong length.
pub open spec fn vec_length_message(expected: int, actual: int) -> Seq<char> {
    "Expected a Vec of length "@ + decimal_text(expected as nat) + " but it was "@ + decimal_text(actual as nat)
}

/// The text of one decimal digit.
fn digit_text(d: usize) -> (r: &'static str)
    requires
        d < 10,
    ensures
        r@ == seq![(d + 48) as char],
{
    proof {
        reveal_strlit("0");
        reveal_strlit("1");
        reveal_strlit("2");
        reveal_strlit("3");
        reveal_strlit("4");
        reveal_strlit("5");
        reveal_strlit("6");
        reveal_strlit("7");
        reveal_strlit("8");
        reveal_strlit("9");
    }
    let r = if d == 0 {
        "0"
    } else if d == 1 {
        "1"
    } else if d == 2 {
        "2"
    } else if d == 3 {
        "3"
    } else if d == 4 {
        "4"
    } else if d == 5 {
        "5"
    } else if d == 6 {
        "6"
    } else if d == 7 {
        "7"
    } else if d == 8 {
        "8"
    } else {
        "9"
    };
    assert(r@ =~= seq![(d + 48) as char]);
    r
}

/// Appends the decimal digits of `n` to `out`.
fn append_decimal(out: &mut String, n: usize)
    ensures
        final(out)@ == old(out)@ + decimal_text(n as nat),
    decreases n,
{
    if n >= 10 {
        append_decimal(out, n / 10);
    }
    out.append(digit_text(n % 10));
    proof {
        if n >= 10 {
            assert(decimal_text(n as nat) == decimal_text((n / 10) as nat).push(((n % 10) + 48) as char));
        } else {
            assert(decimal_text(n as nat) == seq![((n % 10) + 48) as char]);
        }
        assert(out@ =~= old(out)@ + decimal_text(n as nat));
    }
}

/// The text "Expected a Vec of length {expected} but it was {actual}",
/// with both numbers in decimal.
fn fmt_vec_length_message(expected: usize, actual: usize) -> (r: String)
    ensures
        r@ == vec_length_message(expected as int, actual as int),
{
    let mut r = String::from_str("Expected a Vec of length ");
    append_decimal(&mut r, expected);
    r.append(" but it was ");
    append_decimal(&mut r, actual);
    r
}

impl<const N: usize> PartialEq for ByteArray<N> {
    fn eq(&self, other: &Self) -> (r: bool) {
        if self.valid != other.valid {
            return false;
        }
        let mut n: usize = 0;
        while n < N
            invariant
                n <= N,
                self.valid == other.valid,
                forall|i: int| 0 <= i < n ==> self.bytes@[i] == other.bytes@[i],
            decreases N - n,
        {
            if self.bytes[n] != other.bytes[n] {
                return false;
            }
            n += 1;
        }
        assert(self.bytes@ =~= other.bytes@);
        true
    }
}

impl<const N: usize> vstd::std_specs::cmp::PartialEqSpecImpl for ByteArray<N> {
    open spec fn obeys_eq_spec() -> bool {
        true
    }

    open spec fn eq_spec(&self, other: &Self) -> bool {
        self.valid == other.valid && self.bytes@ == other.bytes@
    }
}

impl<const N: usize> Eq for ByteArray<N> {
}

/// The order of the suffixes of two sequences from position `n`.
spec fn lex_order_from(a: Seq<u8>, b: Seq<u8>, n: usize) -> int {
    lex_order(a.skip(n as int), b.skip(n as int))
}

proof fn lemma_lex_order_from_start(a: Seq<u8>, b: Seq<u8>)
    ensures
        lex_order_from(a, b, 0) == lex_order(a, b),
{
    assert(a.skip(0) =~= a);
    assert(b.skip(0) =~= b);
}

proof fn lemma_lex_order_skip(a: Seq<u8>, b: Seq<u8>, n: usize)
    requires
        a.len() == b.len(),
        a.len() <= usize::MAX,
        n < a.len(),
        a[n as int] == b[n as int],
    ensures
        lex_order_from(a, b, n) == lex_order_from(a, b, (n + 1) as usize),
{
    assert(a.skip(n as int).drop_first() =~= a.skip(n + 1));
    assert(b.skip(n as int).drop_first() =~= b.skip(n + 1));
}

proof fn lemma_lex_order_lt(a: Seq<u8>, b: Seq<u8>, n: usize)
    requires
        a.len() == b.len(),
        n < a.len(),
    ensures
        a[n as int] < b[n as int] ==> lex_order_from(a, b, n) == -1,
        a[n as int] > b[n as int] ==> lex_order_from(a, b, n) == 1,
{
}

proof fn lemma_lex_order_end(a: Seq<u8>, b: Seq<u8>, n: usize)
    requires
        a.len() == b.len(),
        n == a.len(),
    ensures
        lex_order_from(a, b, n) == 0,
{
}

impl<const N: usize> PartialOrd for ByteArray<N> {
    fn partial_cmp(&self, other: &Self) -> (r: Option<Ordering>) {
        if !self.valid && !other.valid {
            return Some(Ordering::Equal);
        }
        if !self.valid && other.valid {
            return Some(Ordering::Less);
        }
        if self.valid && !other.valid {
            return Some(Ordering::Greater);
        }
        let ghost a = self.bytes@;
        let ghost b = other.bytes@;
        proof {
            lemma_lex_order_from_start(a, b);
        }
        let mut n: usize = 0;
        while n < N
            invariant
                n <= N,
                a == self.bytes@,
                b == other.bytes@,
                self.valid,
                other.valid,
                a.len() == N,
                b.len() == N,
                lex_order(a, b) == lex_order_from(a, b, n),
            decreases N - n,
        {
            proof {
                lemma_lex_order_lt(a, b, n);
            }
            if self.bytes[n] < other.bytes[n] {
                return Some(Ordering::Less);
            }
            if self.bytes[n] > other.bytes[n] {
                return Some(Ordering::Greater);
            }
            proof {
                lemma_lex_order_skip(a, b, n);
            }
            n += 1;
        }
        proof {
            lemma_lex_order_end(a, b, n);
        }
        Some(Ordering::Equal)
    }
}

impl<const N: usize> vstd::std_specs::cmp::PartialOrdSpecImpl for ByteArray<N> {
    open spec fn obeys_partial_cmp_spec() -> bool {
        true
    }

    open spec fn partial_cmp_spec(&self, other: &Self) -> Option<Ordering> {
        let o = key_order(*self, *other);
        if o < 0 {
            Some(Ordering::Less)
        } else if o == 0 {
            Some(Ordering::Equal)
        } else {
            Some(Ordering::Greater)
        }
    }
}

impl<const N: usize> Default for ByteArray<N> {
    /// The invalid (empty) array, with every byte zero.
    fn default() -> (r: Self)
        ensures
            !r.valid,
            forall|i: int| 0 <= i < N ==> r.bytes@[i] == 0,
    {
        ByteArray { bytes: [0u8; N], valid: false }
    }
}

/// XOR of two byte sequences, position by position.
pub open spec fn xor_bytes(a: Seq<u8>, b: Seq<u8>) -> Seq<u8> {
    Seq::new(a.len(), |i: int| a[i] ^ b[i])
}

/// The XOR distance between two valid keys.
pub fn distance(key1: &DHTKey, key2: &DHTKey) -> (r: DHTKeyDistance)
    requires
        key1.valid,
        key2.valid,
    ensures
        r.valid,
        r.bytes@ == xor_bytes(key1.bytes@, key2.bytes@),
{
    let mut bytes = [0u8; DHT_KEY_LENGTH];
    let mut n: usize = 0;
    while n < DHT_KEY_LENGTH
        invariant
            n <= DHT_KEY_LENGTH,
            forall|i: int| 0 <= i < n ==> bytes@[i] == key1.bytes@[i] ^ key2.bytes@[i],
        decreases DHT_KEY_LENGTH - n,
    {
        bytes[n] = key1.bytes[n] ^ key2.bytes[n];
        n += 1;
    }
    assert(bytes@ =~= xor_bytes(key1.bytes@, key2.bytes@));
    DHTKeyDistance::new(bytes)
}

/// The distance between two keys does not depend on their order.
pub proof fn lemma_distance_symmetric(a: Seq<u8>, b: Seq<u8>)
    requires
        a.len() == b.len(),
    ensures
        xor_bytes(a, b) == xor_bytes(b, a),
{
    assert forall|i: int| 0 <= i < a.len() implies #[trigger] xor_bytes(a, b)[i] == xor_bytes(b, a)[i] by {
        let x = a[i];
        let y = b[i];
        assert(x ^ y == y ^ x) by (bit_vector);
    }
    assert(xor_bytes(a, b) =~= xor_bytes(b, a));
}

/// A key is at distance zero from itself, and only from itself.
pub proof fn lemma_distance_zero_iff_equal(a: Seq<u8>, b: Seq<u8>)
    requires
        a.len() == b.len(),
    ensures
        (forall|i: int| 0 <= i < a.len() ==> #[trigger] xor_bytes(a, b)[i] == 0) <==> a == b,
{
    if a == b {
        assert forall|i: int| 0 <= i < a.len() implies #[trigger] xor_bytes(a, b)[i] == 0 by {
            let x = a[i];
            assert(x ^ x == 0) by (bit_vector);
        }
    }
    if forall|i: int| 0 <= i < a.len() ==> #[trigger] xor_bytes(a, b)[i] == 0 {
        assert forall|i: int| 0 <= i < a.len() implies a[i] == b[i] by {
            let x = a[i];
            let y = b[i];
            assert(xor_bytes(a, b)[i] == 0);
            assert(x ^ y == 0 ==> x == y) by (bit_vector);
        }
        assert(a =~= b);
    }
}

/// The ordering of arrays is reflexive: every array is equal to itself.
pub proof fn lemma_key_order_reflexive<const N: usize>(a: ByteArray<N>)
    ensures
        key_order(a, a) == 0,
{
    lemma_lex_order_refl(a.bytes@);
}

} // verus!

verus! {

/// The digit of a nibble in lowercase hexadecimal.
pub open spec fn hex_digit(v: u8) -> char {
    if v < 10 {
        (48 + v) as char
    } else {
        (87 + v) as char
    }
}

/// Lowercase hexadecimal text of a byte sequence, two digits per byte, high nibble first.
pub open spec fn hex_lower(b: Seq<u8>) -> Seq<char> {
    Seq::new(
        2 * b.len(),
        |i: int|
            if i % 2 == 0 {
                hex_digit(b[i / 2] >> 4u8)
            } else {
                hex_digit(b[i / 2] & 0xFu8)
            },
    )
}

/// The value of a hexadecimal digit byte (either case), if it is one.
pub open spec fn hex_value(c: u8) -> Option<u8> {
    if 48 <= c <= 57 {
        Some((c - 48) as u8)
    } else if 97 <= c <= 102 {
        Some((c - 87) as u8)
    } else if 65 <= c <= 70 {
        Some((c - 55) as u8)
    } else {
        None
    }
}

/// Whether every byte of `data` is a hexadecimal digit.
pub open spec fn all_hex_digits(data: Seq<u8>) -> bool {
    forall|i: int| 0 <= i < data.len() ==> (#[trigger] hex_value(data[i])) is Some
}

/// The bytes denoted by hexadecimal text of even length whose bytes are all digits.
pub open spec fn hex_decoded(data: Seq<u8>) -> Seq<u8> {
    Seq::new(
        data.len() / 2,
        |i: int|
            (hex_value(data[2 * i]).unwrap() << 4u8) | hex_value(data[2 * i + 1]).unwrap(),
    )
}

/// Encodes `data` with `hex::encode` (lowercase, two digits per byte).
#[verifier::external_body]
fn hex_encode(data: &[u8]) -> (r: String)
    ensures
        r@ == hex_lower(data@),
{
    hex::encode(data)
}

/// The text of the error that `hex::decode_to_slice` reports for `data`.
pub uninterp spec fn hex_error_message(data: Seq<u8>) -> Seq<char>;

/// Decodes hexadecimal `value` into `out` with `hex::decode_to_slice`: every
/// byte pair must be a digit pair (either case); the error is formatted with
/// its `Display` text, which is named and not spelled out.
#[verifier::external_body]
fn hex_decode_into<const N: usize>(value: &str, out: &mut [u8; N]) -> (r: Result<(), String>)
    requires
        value.spec_bytes().len() == 2 * N,
    ensures
        r is Ok <==> all_hex_digits(value.spec_bytes()),
        r is Ok ==> final(out)@ == hex_decoded(value.spec_bytes()),
        r matches Err(e) ==> e@ == hex_error_message(value.spec_bytes()),
{
    match hex::decode_to_slice(value, out) {
        Ok(()) => Ok(()),
        Err(e) => Err(format!("{}", e)),
    }
}

/// The character of a 6-bit value in the URL-safe base64 alphabet:
/// `A`-`Z`, `a`-`z`, `0`-`9`, `-`, `_`.
pub open spec fn base64url_char(v: int) -> char {
    if v < 26 {
        (65 + v) as char
    } else if v < 52 {
        (97 + v - 26) as char
    } else if v < 62 {
        (48 + v - 52) as char
    } else if v == 62 {
        '-'
    } else {
        '_'
    }
}

/// The unpadded URL-safe base64 text of `b`: each group of three bytes
/// becomes four characters of six bits each, most significant first; a
/// last group of two bytes becomes three characters and one byte two, the
/// missing low bits being zero.
pub open spec fn base64url_encoded(b: Seq<u8>) -> Seq<char>
    decreases b.len(),
{
    let b0 = if b.len() > 0 { b[0] as int } else { 0 };
    let b1 = if b.len() > 1 { b[1] as int } else { 0 };
    let b2 = if b.len() > 2 { b[2] as int } else { 0 };
    if b.len() == 0 {
        Seq::empty()
    } else if b.len() == 1 {
        seq![base64url_char(b0 / 4), base64url_char((b0 % 4) * 16)]
    } else if b.len() == 2 {
        seq![base64url_char(b0 / 4), base64url_char((b0 % 4) * 16 + b1 / 16), base64url_char((b1 % 16) * 4)]
    } else {
        seq![
            base64url_char(b0 / 4),
            base64url_char((b0 % 4) * 16 + b1 / 16),
            base64url_char((b1 % 16) * 4 + b2 / 64),
            base64url_char(b2 % 64),
        ] + base64url_encoded(b.skip(3))
    }
}

/// What `data_encoding::BASE64URL_NOPAD` decodes the text `s` to, if it is valid.
pub uninterp spec fn base64url_decoded(s: Seq<char>) -> Option<Seq<u8>>;

/// Encodes `data` with `BASE64URL_NOPAD.encode`. As the crate documents, the
/// output is ASCII, has `ceil(8 * len / 6)` characters, and decoding it gives
/// the input back.
#[verifier::external_body]
fn base64url_encode(data: &[u8]) -> (r: String)
    requires
        data@.len() <= usize::MAX / 512,
    ensures
        r@ == base64url_encoded(data@),
        vstd::utf8::is_ascii_chars(r@),
        r@.len() == (8 * data@.len() + 5) / 6,
        base64url_decoded(r@) == Some(data@),
{
    data_encoding::BASE64URL_NOPAD.encode(data)
}

/// `BASE64URL_NOPAD.decode_len`: the decoded length of an input of `len`
/// bytes, which fails exactly when `len % 4 == 1`.
#[verifier::external_body]
fn base64url_decode_len(len: usize) -> (r: Result<usize, ()>)
    requires
        len <= usize::MAX / 8,
    ensures
        r is Ok <==> len % 4 != 1,
        r matches Ok(o) ==> o == 6 * len / 8,
{
    match data_encoding::BASE64URL_NOPAD.decode_len(len) {
        Ok(o) => Ok(o),
        Err(_) => Err(()),
    }
}

/// `BASE64URL_NOPAD.decode_mut` of `input` into `out`, which must have the
/// decoded length of the input.
#[verifier::external_body]
fn base64url_decode_into<const N: usize>(input: &str, out: &mut [u8; N]) -> (r: Result<(), ()>)
    requires
        input.spec_bytes().len() % 4 != 1,
        6 * input.spec_bytes().len() / 8 == N,
    ensures
        r is Ok <==> base64url_decoded(input@) is Some,
        r is Ok ==> final(out)@ == base64url_decoded(input@).unwrap(),
{
    match data_encoding::BASE64URL_NOPAD.decode_mut(input.as_bytes(), out) {
        Ok(_) => Ok(()),
        Err(_) => Err(()),
    }
}

/// The BLAKE3 hash (32 bytes) of `data`.
pub uninterp spec fn blake3_hash(data: Seq<u8>) -> Seq<u8>;

/// Hashes `data` with `blake3::hash`.
#[verifier::external_body]
fn blake3_hash_bytes(data: &[u8]) -> (r: [u8; 32])
    ensures
        r@ == blake3_hash(data@),
{
    *blake3::hash(data).as_bytes()
}

/// The Ed25519 public key of a 32-byte secret key: what
/// `ed25519_dalek::PublicKey::from(&SecretKey)` computes, a function of the
/// secret alone.
pub uninterp spec fn ed25519_public_key(secret: Seq<u8>) -> Seq<u8>;

/// Generates a fresh Ed25519 key pair with `ed25519_dalek::Keypair::generate`
/// from the operating system's random source; returns (public, secret). The
/// secret is random; the public key is the one computed from that secret.
#[verifier::external_body]
fn ed25519_generate_keypair() -> (r: ([u8; 32], [u8; 32]))
    ensures
        r.0@ == ed25519_public_key(r.1@),
{
    let keypair = ed25519_dalek::Keypair::generate(&mut rand::rngs::OsRng {});
    (keypair.public.to_bytes(), keypair.secret.to_bytes())
}

/// A fresh key pair: a valid public key and a valid secret, the public key
/// being the Ed25519 public key of the (random) secret.
pub fn generate_secret() -> (r: (DHTKey, DHTKeySecret))
    ensures
        r.0.valid,
        r.1.valid,
        r.0.bytes@ == ed25519_public_key(r.1.bytes@),
{
    let (public, secret) = ed25519_generate_keypair();
    (DHTKey::new(public), DHTKeySecret::new(secret))
}

/// The bytes signed to check that a secret belongs to a key: 512 zeros.
pub open spec fn key_check_data() -> Seq<u8> {
    Seq::new(512, |i: int| 0u8)
}

/// Whether the secret belongs to the key: 512 zero bytes are signed with
/// the pair by `sign`, and the signature is checked against the key by
/// `verify`. A failed signing is a mismatch, and `verify` is then not
/// called.
pub fn validate_key<F, G>(dht_key: &DHTKey, dht_key_secret: &DHTKeySecret, sign: F, verify: G) -> (r: bool) where
    F: FnOnce(&DHTKey, &DHTKeySecret, &Vec<u8>) -> Result<DHTSignature, String>,
    G: FnOnce(&DHTKey, &Vec<u8>, &DHTSignature) -> Result<(), String>,

    requires
        dht_key.valid,
        dht_key_secret.valid,
        forall|k: &DHTKey, sk: &DHTKeySecret, d: &Vec<u8>| #[trigger] sign.requires((k, sk, d)),
        forall|k: &DHTKey, d: &Vec<u8>, sig: &DHTSignature| #[trigger] verify.requires((k, d, sig)),
    ensures
        exists|d: Vec<u8>, out: Result<DHTSignature, String>|
            #![trigger sign.ensures((dht_key, dht_key_secret, &d), out)]
            d@ == key_check_data() && sign.ensures((dht_key, dht_key_secret, &d), out) && match out {
                Err(_) => !r,
                Ok(sig) => exists|vout: Result<(), String>|
                    #[trigger] verify.ensures((dht_key, &d, &sig), vout) && r == (vout is Ok),
            },
{
    let data: Vec<u8> = vec![0u8; 512];
    assert(data@ =~= key_check_data());
    let out = sign(dht_key, dht_key_secret, &data);
    match out {
        Ok(sig) => {
            let vout = verify(dht_key, &data, &sig);
            vout.is_ok()
        },
        Err(_) => false,
    }
}

/// The key that names `data`: its BLAKE3 hash.
pub fn generate_hash(data: &[u8]) -> (r: DHTKey)
    ensures
        r.valid,
        r.bytes@ == blake3_hash(data@),
{
    DHTKey::new(blake3_hash_bytes(data))
}

/// Whether `dht_key` is the BLAKE3 hash of `data`.
pub fn validate_hash(data: &[u8], dht_key: &DHTKey) -> (r: bool)
    requires
        dht_key.valid,
    ensures
        r == (blake3_hash(data@) == dht_key.bytes@),
{
    let bytes = blake3_hash_bytes(data);
    let mut n: usize = 0;
    while n < DHT_KEY_LENGTH
        invariant
            n <= DHT_KEY_LENGTH,
            bytes@ == blake3_hash(data@),
            forall|i: int| 0 <= i < n ==> bytes@[i] == dht_key.bytes@[i],
        decreases DHT_KEY_LENGTH - n,
    {
        if bytes[n] != dht_key.bytes[n] {
            return false;
        }
        n += 1;
    }
    assert(bytes@ =~= dht_key.bytes@);
    true
}

/// A hash generated for some data validates against that same data.
pub proof fn lemma_generated_hash_validates(data: Seq<u8>, key: DHTKey)
    requires
        key.valid,
        key.bytes@ == blake3_hash(data),
    ensures
        blake3_hash(data) == key.bytes@,
{
}

impl<const N: usize> ByteArray<N> {
    /// The base64url (unpadded) text of a valid array.
    pub fn encode(&self) -> (r: String)
        requires
            self.valid,
            N <= usize::MAX / 512,
        ensures
            r@ == base64url_encoded(self.bytes@),
            vstd::utf8::is_ascii_chars(r@),
            r@.len() == (8 * N + 5) / 6,
            base64url_decoded(r@) == Some(self.bytes@),
    {
        base64url_encode(&self.bytes)
    }

    /// Decodes base64url (unpadded) text of exactly `N` bytes into a valid array.
    pub fn try_decode(input: &str) -> (r: Result<Self, String>)
        requires
            input.spec_bytes().len() <= usize::MAX / 8,
        ensures
            r is Ok <==> (input.spec_bytes().len() % 4 != 1 && 6 * input.spec_bytes().len() / 8
                == N && base64url_decoded(input@) is Some),
            r matches Ok(a) ==> a.valid && a.bytes@ == base64url_decoded(input@).unwrap(),
            r matches Err(e) ==> if input.spec_bytes().len() % 4 != 1 && 6 * input.spec_bytes().len() / 8 != N {
                e@ == "Incorrect length in decode"@
            } else {
                e@ == "Failed to decode"@
            },
    {
        let mut bytes = [0u8; N];
        match base64url_decode_len(input.len()) {
            Ok(v) => {
                if v != N {
                    return Err(String::from_str("Incorrect length in decode"));
                }
            },
            Err(_) => {
                return Err(String::from_str("Failed to decode"));
            },
        }
        match base64url_decode_into(input, &mut bytes) {
            Ok(()) => Ok(Self::new(bytes)),
            Err(()) => Err(String::from_str("Failed to decode")),
        }
    }

    /// The text that a valid array serializes to: its base64url text; the
    /// empty string for an invalid array.
    pub fn to_serialized(&self) -> (r: String)
        requires
            N <= usize::MAX / 512,
        ensures
            self.valid ==> r@ == base64url_encoded(self.bytes@),
            !self.valid ==> r@ == Seq::<char>::empty(),
    {
        if self.valid {
            self.encode()
        } else {
            String::new()
        }
    }

    /// The array that `s` deserializes to: the empty string gives the invalid
    /// (default) array, any other text must be base64url of `N` bytes.
    pub fn from_serialized(s: &str) -> (r: Result<Self, String>)
        requires
            s.spec_bytes().len() <= usize::MAX / 8,
        ensures
            s@.len() == 0 ==> (r matches Ok(a) && !a.valid && forall|i: int|
                0 <= i < N ==> a.bytes@[i] == 0),
            s@.len() != 0 ==> (r is Ok <==> (s.spec_bytes().len() % 4 != 1 && 6
                * s.spec_bytes().len() / 8 == N && base64url_decoded(s@) is Some)),
            s@.len() != 0 ==> (r matches Ok(a) ==> a.valid && a.bytes@ == base64url_decoded(
                s@,
            ).unwrap()),
    {
        if s.is_empty() {
            return Ok(Self::default());
        }
        Self::try_decode(s)
    }

    /// The lowercase hexadecimal text of a valid array, eight bytes at a time;
    /// the empty string for an invalid array.
    pub fn to_hex_string(&self) -> (r: String)
        ensures
            self.valid ==> r@ == hex_lower(self.bytes@.subrange(0, (N / 8 * 8) as int)),
            !self.valid ==> r@ == Seq::<char>::empty(),
    {
        if !self.valid {
            return String::new();
        }
        let mut s = String::new();
        let mut n: usize = 0;
        while n < N / 8
            invariant
                n <= N / 8,
                s@ == hex_lower(self.bytes@.subrange(0, (n * 8) as int)),
            decreases N / 8 - n,
        {
            let mut chunk = [0u8; 8];
            let mut k: usize = 0;
            while k < 8
                invariant
                    k <= 8,
                    n < N / 8,
                    forall|i: int| 0 <= i < k ==> chunk@[i] == self.bytes@[n * 8 + i],
                decreases 8 - k,
            {
                chunk[k] = self.bytes[n * 8 + k];
                k += 1;
            }
            let part = hex_encode(&chunk);
            proof {
                assert(chunk@ =~= self.bytes@.subrange((n * 8) as int, (n * 8 + 8) as int));
                lemma_hex_lower_concat(
                    self.bytes@.subrange(0, (n * 8) as int),
                    self.bytes@.subrange((n * 8) as int, (n * 8 + 8) as int),
                );
                assert(self.bytes@.subrange(0, (n * 8) as int) + self.bytes@.subrange(
                    (n * 8) as int,
                    (n * 8 + 8) as int,
                ) =~= self.bytes@.subrange(0, ((n + 1) * 8) as int));
            }
            s.append(part.as_str());
            n += 1;
        }
        s
    }

    /// Parses hexadecimal text: the empty string gives the invalid (default)
    /// array; otherwise the text must have `2 * N` bytes, all hexadecimal digits.
    pub fn try_from_hex(value: &str) -> (r: Result<Self, String>)
        requires
            N * 2 <= usize::MAX,
            value.spec_bytes().len() <= usize::MAX,
        ensures
            value@.len() == 0 ==> (r matches Ok(a) && !a.valid && forall|i: int|
                0 <= i < N ==> a.bytes@[i] == 0),
            value@.len() != 0 ==> (r is Ok <==> value.spec_bytes().len() == 2 * N
                && all_hex_digits(value.spec_bytes())),
            value@.len() != 0 ==> (r matches Ok(a) ==> a.valid && a.bytes@ == hex_decoded(
                value.spec_bytes(),
            )),
            value@.len() != 0 && value.spec_bytes().len() != 2 * N ==> (r matches Err(e) && e@
                == "incorrect length"@),
            value@.len() != 0 && value.spec_bytes().len() == 2 * N ==> (r matches Err(e) ==> e@
                == hex_error_message(value.spec_bytes())),
    {
        if value.is_empty() {
            return Ok(Self::default());
        }
        if value.len() != N * 2 {
            return Err(String::from_str("incorrect length"));
        }
        let mut bytes = [0u8; N];
        match hex_decode_into(value, &mut bytes) {
            Ok(()) => Ok(Self::new(bytes)),
            Err(e) => Err(e),
        }
    }
}

proof fn lemma_hex_lower_concat(a: Seq<u8>, b: Seq<u8>)
    ensures
        hex_lower(a + b) == hex_lower(a) + hex_lower(b),
{
    let l = hex_lower(a + b);
    let r = hex_lower(a) + hex_lower(b);
    assert forall|i: int| 0 <= i < l.len() implies l[i] == r[i] by {
        if i >= 2 * a.len() {
            let j = i - 2 * a.len();
            assert(i / 2 == j / 2 + a.len());
            assert(i % 2 == j % 2);
        }
    }
    assert(l =~= r);
}


proof fn lemma_hex_digit_value(v: u8)
    requires
        v < 16,
    ensures
        (hex_digit(v) as u8) < 128,
        hex_value(hex_digit(v) as u8) == Some(v),
{
}

proof fn lemma_nibbles_rejoin(b: u8)
    ensures
        ((b >> 4u8) < 16),
        ((b & 0xFu8) < 16),
        ((b >> 4u8) << 4u8) | (b & 0xFu8) == b,
{
    assert((b >> 4u8) < 16) by (bit_vector);
    assert((b & 0xFu8) < 16) by (bit_vector);
    assert(((b >> 4u8) << 4u8) | (b & 0xFu8) == b) by (bit_vector);
}

/// Hexadecimal text round-trips: the bytes of the lowercase hexadecimal text
/// of `b` are all digits, twice as many as `b` has, and decode back to `b`.
pub proof fn lemma_hex_roundtrip(b: Seq<u8>)
    ensures
        vstd::utf8::is_ascii_chars(hex_lower(b)),
        vstd::utf8::encode_utf8(hex_lower(b)).len() == 2 * b.len(),
        all_hex_digits(vstd::utf8::encode_utf8(hex_lower(b))),
        hex_decoded(vstd::utf8::encode_utf8(hex_lower(b))) == b,
{
    let t = hex_lower(b);
    assert forall|i: int| 0 <= i < t.len() implies '\0' <= #[trigger] t[i] <= '\u{7f}' by {
        lemma_nibbles_rejoin(b[i / 2]);
        if i % 2 == 0 {
            lemma_hex_digit_value(b[i / 2] >> 4u8);
        } else {
            lemma_hex_digit_value(b[i / 2] & 0xFu8);
        }
    }
    vstd::utf8::is_ascii_chars_encode_utf8(t);
    let e = vstd::utf8::encode_utf8(t);
    assert forall|i: int| 0 <= i < e.len() implies (#[trigger] hex_value(e[i])) is Some by {
        assert(e[i] == t[i] as u8);
        lemma_nibbles_rejoin(b[i / 2]);
        if i % 2 == 0 {
            lemma_hex_digit_value(b[i / 2] >> 4u8);
        } else {
            lemma_hex_digit_value(b[i / 2] & 0xFu8);
        }
    }
    let d = hex_decoded(e);
    assert forall|i: int| 0 <= i < b.len() implies d[i] == b[i] by {
        assert(e[2 * i] == t[2 * i] as u8);
        assert(e[2 * i + 1] == t[2 * i + 1] as u8);
        assert((2 * i) / 2 == i);
        assert((2 * i + 1) / 2 == i);
        assert((2 * i) % 2 == 0);
        assert((2 * i + 1) % 2 == 1);
        lemma_nibbles_rejoin(b[i]);
        lemma_hex_digit_value(b[i] >> 4u8);
        lemma_hex_digit_value(b[i] & 0xFu8);
    }
    assert(d =~= b);
}

/// Base64url text round-trips: text with the properties that `encode`
/// guarantees for an array of `N` bytes has an accepted length and decodes to
/// exactly those bytes, so `try_decode` gives the array back.
pub proof fn lemma_base64_roundtrip(n: nat, bytes: Seq<u8>, text: Seq<char>)
    requires
        bytes.len() == n,
        vstd::utf8::is_ascii_chars(text),
        text.len() == (8 * n + 5) / 6,
        base64url_decoded(text) == Some(bytes),
    ensures
        vstd::utf8::encode_utf8(text).len() == text.len(),
        vstd::utf8::encode_utf8(text).len() % 4 != 1,
        6 * vstd::utf8::encode_utf8(text).len() / 8 == n,
        base64url_decoded(text) == Some(bytes),
{
    vstd::utf8::is_ascii_chars_encode_utf8(text);
    let m = n / 3;
    let r = n % 3;
    assert(n == 3 * m + r);
    if r == 0 {
        assert((8 * n + 5) / 6 == 4 * m);
    } else if r == 1 {
        assert((8 * n + 5) / 6 == 4 * m + 2);
    } else {
        assert((8 * n + 5) / 6 == 4 * m + 3);
    }
}

} // verus!
