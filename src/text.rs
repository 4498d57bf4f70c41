use vstd::prelude::*;

verus! {

/// The lowercase character of a digit below sixteen.
pub open spec fn digit_char(d: int) -> char {
    if d == 0 { '0' } else if d == 1 { '1' } else if d == 2 { '2' } else if d == 3 { '3' }
    else if d == 4 { '4' } else if d == 5 { '5' } else if d == 6 { '6' } else if d == 7 { '7' }
    else if d == 8 { '8' } else if d == 9 { '9' } else if d == 10 { 'a' } else if d == 11 { 'b' }
    else if d == 12 { 'c' } else if d == 13 { 'd' } else if d == 14 { 'e' } else { 'f' }
}

/// The characters that record fields are written with: hex digits, the `x`
/// of the `0x` prefix and the minus sign.
pub open spec fn text_char(c: char) -> bool {
    c == '0' || c == '1' || c == '2' || c == '3' || c == '4' || c == '5' || c == '6'
        || c == '7' || c == '8' || c == '9' || c == 'a' || c == 'b' || c == 'c' || c == 'd'
        || c == 'e' || c == 'f' || c == 'x' || c == '-'
}

pub open spec fn plain_text(s: Seq<char>) -> bool {
    forall|i: int| 0 <= i < s.len() ==> text_char(#[trigger] s[i])
}

/// Decimal digits of a natural number, without leading zeros.
pub open spec fn nat_text(n: nat) -> Seq<char>
    decreases n,
{
    if n < 10 {
        seq![digit_char(n as int)]
    } else {
        nat_text(n / 10).push(digit_char((n % 10) as int))
    }
}

/// Decimal text of an integer, with a leading minus sign when negative.
pub open spec fn int_text(i: int) -> Seq<char> {
    if i < 0 {
        seq!['-'] + nat_text((-i) as nat)
    } else {
        nat_text(i as nat)
    }
}

/// Two lowercase hex digits per byte, most significant first.
pub open spec fn hex_digits(b: Seq<u8>) -> Seq<char>
    decreases b.len(),
{
    if b.len() == 0 {
        seq![]
    } else {
        hex_digits(b.drop_last()) + seq![
            digit_char((b.last() / 16) as int),
            digit_char((b.last() % 16) as int),
        ]
    }
}

/// `0x` followed by the lowercase hex digits of the bytes.
pub open spec fn hex_text(b: Seq<u8>) -> Seq<char> {
    seq!['0', 'x'] + hex_digits(b)
}

/// Big-endian unsigned value of a byte sequence.
pub open spec fn be_nat(b: Seq<u8>) -> nat
    decreases b.len(),
{
    if b.len() == 0 {
        0
    } else {
        (be_nat(b.drop_last()) * 256 + b.last()) as nat
    }
}

/// Big-endian two's complement value of a byte sequence.
pub open spec fn be_signed(b: Seq<u8>) -> int {
    if b.len() > 0 && b[0] >= 128 {
        be_nat(b) - pow256(b.len())
    } else {
        be_nat(b) as int
    }
}

pub open spec fn pow256(n: nat) -> int
    decreases n,
{
    if n == 0 {
        1
    } else {
        256 * pow256((n - 1) as nat)
    }
}

proof fn lemma_digit_char_plain(d: int)
    ensures
        text_char(digit_char(d)),
{
}

pub proof fn lemma_nat_text_plain(n: nat)
    ensures
        plain_text(nat_text(n)),
    decreases n,
{
    lemma_digit_char_plain(n as int);
    if n >= 10 {
        lemma_nat_text_plain(n / 10);
        lemma_digit_char_plain((n % 10) as int);
    }
}

pub proof fn lemma_int_text_plain(i: int)
    ensures
        plain_text(int_text(i)),
{
    if i < 0 {
        lemma_nat_text_plain((-i) as nat);
        let t = nat_text((-i) as nat);
        assert forall|k: int| 0 <= k < (seq!['-'] + t).len() implies text_char(
            #[trigger] (seq!['-'] + t)[k],
        ) by {
            if k > 0 {
                assert((seq!['-'] + t)[k] == t[k - 1]);
            }
        }
    } else {
        lemma_nat_text_plain(i as nat);
    }
}

pub proof fn lemma_hex_text_plain(b: Seq<u8>)
    ensures
        plain_text(hex_text(b)),
        plain_text(hex_digits(b)),
    decreases b.len(),
{
    if b.len() > 0 {
        lemma_hex_text_plain(b.drop_last());
        lemma_digit_char_plain((b.last() / 16) as int);
        lemma_digit_char_plain((b.last() % 16) as int);
    }
    let h = hex_digits(b);
    assert forall|k: int| 0 <= k < hex_text(b).len() implies text_char(
        #[trigger] hex_text(b)[k],
    ) by {
        if k >= 2 {
            assert(hex_text(b)[k] == h[k - 2]);
        }
    }
}

/// Relies on alloy_primitives::hex::encode_prefixed: `0x` and two lowercase
/// hex digits per byte.
#[verifier::external_body]
pub(crate) fn hex_prefixed(bytes: &[u8]) -> (r: String)
    ensures
        r@ == hex_text(bytes@),
{
    alloy_primitives::hex::encode_prefixed(bytes)
}

/// Relies on `u128`'s `Display`, through `to_string`: decimal digits without
/// leading zeros.
#[verifier::external_body]
pub(crate) fn unsigned_decimal(n: u128) -> (r: String)
    ensures
        r@ == nat_text(n as nat),
{
    n.to_string()
}

/// Relies on alloy_primitives::I256::from_be_bytes and its `Display`: the
/// decimal text of a 32-byte two's complement word.
#[verifier::external_body]
pub(crate) fn signed_decimal(word: &[u8]) -> (r: String)
    requires
        word@.len() == 32,
    ensures
        r@ == int_text(be_signed(word@)),
{
    let bytes: [u8; 32] = word.try_into().unwrap();
    alloy_primitives::I256::from_be_bytes::<32>(bytes).to_string()
}

} // verus!
