//! A hybrid base91 encoding for numbers and keys used as storage object
//! names. A number is split into 13-bit groups, most significant first,
//! each written as two base91 characters, with a `/` between groups so no
//! directory holds more than 91 * 91 objects. The character set is the
//! printable ASCII range without `.`, `/`, `:` and `\`, in ascending order,
//! so encoded `u64` values sort exactly like the numbers themselves.
use vstd::prelude::*;
use crate::transaction::{Pubkey, Signature};
use vstd::bytes::{spec_u64_from_le_bytes, u64_from_le_bytes};

verus! {

/// The `b`-th smallest ASCII byte in the printable range with `.`, `/`,
/// `:` and `\` left out.
pub open spec fn base91_digit_spec(b: int) -> u8 {
    if b < 14 {
        (32 + b) as u8
    } else if b < 24 {
        (34 + b) as u8
    } else if b < 57 {
        (35 + b) as u8
    } else {
        (36 + b) as u8
    }
}

/// The base91 digit for `b`.
fn base91_digit(b: u64) -> (r: u8)
    requires
        b < 91,
    ensures
        r == base91_digit_spec(b as int),
        32 <= r < 127,
{
    if b < 14 {
        (32 + b) as u8
    } else if b < 24 {
        (34 + b) as u8
    } else if b < 57 {
        (35 + b) as u8
    } else {
        (36 + b) as u8
    }
}

/// The 13-bit group of `value` whose least significant bit is bit `13 * k`.
pub open spec fn group_13(value: u64, k: int) -> u64 {
    (value >> (13 * k)) & 0x1FFF
}

/// The 14 ASCII bytes that encode `value`: five 13-bit groups, most
/// significant first, two digits each, with `/` between groups.
pub open spec fn encode_u64_bytes_spec(value: u64) -> Seq<u8> {
    seq![
        base91_digit_spec(group_13(value, 4) as int / 91),
        base91_digit_spec(group_13(value, 4) as int % 91),
        47u8,
        base91_digit_spec(group_13(value, 3) as int / 91),
        base91_digit_spec(group_13(value, 3) as int % 91),
        47u8,
        base91_digit_spec(group_13(value, 2) as int / 91),
        base91_digit_spec(group_13(value, 2) as int % 91),
        47u8,
        base91_digit_spec(group_13(value, 1) as int / 91),
        base91_digit_spec(group_13(value, 1) as int % 91),
        47u8,
        base91_digit_spec(group_13(value, 0) as int / 91),
        base91_digit_spec(group_13(value, 0) as int % 91),
    ]
}

/// The characters of a run of ASCII bytes.
pub open spec fn ascii_chars(bs: Seq<u8>) -> Seq<char> {
    bs.map_values(|b: u8| b as char)
}

/// Relies on `String::from_utf8`: a vector of ASCII bytes converts to the
/// string of exactly those characters, and the conversion cannot fail.
#[verifier::external_body]
fn ascii_to_string(bytes: Vec<u8>) -> (r: String)
    requires
        forall|i: int| 0 <= i < bytes@.len() ==> bytes@[i] < 128,
    ensures
        r@ == ascii_chars(bytes@),
{
    String::from_utf8(bytes).unwrap()
}

/// The two digits and separators of one 13-bit group, appended to `out`.
fn push_group(out: &mut Vec<u8>, group: u64)
    requires
        group <= 0x1FFF,
        forall|i: int| 0 <= i < old(out)@.len() ==> old(out)@[i] < 128,
    ensures
        final(out)@ == old(out)@ + seq![
            base91_digit_spec(group as int / 91),
            base91_digit_spec(group as int % 91),
        ],
        forall|i: int| 0 <= i < final(out)@.len() ==> final(out)@[i] < 128,
{
    proof {
        assert(group / 91 < 91) by (nonlinear_arith)
            requires
                group <= 0x1FFF,
        ;
    }
    let hi = base91_digit(group / 91);
    let lo = base91_digit(group % 91);
    out.push(hi);
    out.push(lo);
    proof {
        assert(out@ =~= old(out)@ + seq![
            base91_digit_spec(group as int / 91),
            base91_digit_spec(group as int % 91),
        ]);
    }
}

/// The 14 encoding bytes of `value`.
fn encode_u64_bytes(value: u64) -> (r: Vec<u8>)
    ensures
        r@ == encode_u64_bytes_spec(value),
        forall|i: int| 0 <= i < r@.len() ==> r@[i] < 128,
{
    let mut out: Vec<u8> = Vec::new();
    proof {
        assert((value >> 52) & 0x1FFF <= 0x1FFF) by (bit_vector);
        assert((value >> 39) & 0x1FFF <= 0x1FFF) by (bit_vector);
        assert((value >> 26) & 0x1FFF <= 0x1FFF) by (bit_vector);
        assert((value >> 13) & 0x1FFF <= 0x1FFF) by (bit_vector);
        assert(value & 0x1FFF <= 0x1FFF) by (bit_vector);
    }
    push_group(&mut out, (value >> 52) & 0x1FFF);
    out.push(47u8);
    push_group(&mut out, (value >> 39) & 0x1FFF);
    out.push(47u8);
    push_group(&mut out, (value >> 26) & 0x1FFF);
    out.push(47u8);
    push_group(&mut out, (value >> 13) & 0x1FFF);
    out.push(47u8);
    push_group(&mut out, value & 0x1FFF);
    proof {
        assert(value >> 0 == value) by (bit_vector);
        assert(out@ =~= encode_u64_bytes_spec(value));
    }
    out
}

/// Encodes a number as 14 characters: five two-digit base91 groups, most
/// significant first, separated by `/`. Larger numbers encode to strings
/// that sort later.
pub fn encode_u64(value: u64) -> (r: String)
    ensures
        r@ == ascii_chars(encode_u64_bytes_spec(value)),
{
    ascii_to_string(encode_u64_bytes(value))
}

/// The encodings of the first `n` little-endian 8-byte chunks of `s`,
/// joined by `/`.
pub open spec fn encode_chunks_spec(s: Seq<u8>, n: nat) -> Seq<u8>
    decreases n,
{
    if n == 0 {
        Seq::empty()
    } else if n == 1 {
        encode_u64_bytes_spec(spec_u64_from_le_bytes(s.subrange(0, 8)))
    } else {
        encode_chunks_spec(s, (n - 1) as nat) + seq![47u8] + encode_u64_bytes_spec(
            spec_u64_from_le_bytes(s.subrange(8 * (n - 1), 8 * (n - 1) + 8)),
        )
    }
}

/// The encoding bytes of the first `n` chunks of `s`.
fn encode_chunks(s: &[u8], n: usize) -> (r: Vec<u8>)
    requires
        8 * n <= s@.len(),
    ensures
        r@ == encode_chunks_spec(s@, n as nat),
        forall|i: int| 0 <= i < r@.len() ==> r@[i] < 128,
{
    let slen = s.len();
    let mut out: Vec<u8> = Vec::new();
    let mut k: usize = 0;
    proof {
        assert(out@ =~= encode_chunks_spec(s@, 0));
    }
    while k < n
        invariant
            k <= n,
            slen == s@.len(),
            8 * n <= slen,
            out@ == encode_chunks_spec(s@, k as nat),
            forall|i: int| 0 <= i < out@.len() ==> out@[i] < 128,
        decreases n - k,
    {
        if k > 0 {
            out.push(47u8);
        }
        proof {
            assert(8 * (k as int) + 8 <= 8 * (n as int));
        }
        let chunk_slice = vstd::slice::slice_subrange(s, 8 * k, 8 * k + 8);
        let value = u64_from_le_bytes(chunk_slice);
        let mut enc = encode_u64_bytes(value);
        let ghost enc_view = enc@;
        out.append(&mut enc);
        proof {
            assert(chunk_slice@ == s@.subrange(8 * (k as int), 8 * (k as int) + 8));
            if k == 0 {
                assert(out@ =~= encode_chunks_spec(s@, 1));
            } else {
                assert(out@ =~= encode_chunks_spec(s@, k as nat) + seq![47u8] + enc_view);
                assert(out@ =~= encode_chunks_spec(s@, (k + 1) as nat));
            }
        }
        k += 1;
    }
    out
}

/// Encodes a signature as its eight little-endian 8-byte chunks, each in
/// the `u64` encoding, joined by `/`.
pub fn encode_signature(signature: &Signature) -> (r: String)
    requires
        signature.wf(),
    ensures
        r@ == ascii_chars(encode_chunks_spec(signature@, 8)),
{
    ascii_to_string(encode_chunks(signature.bytes.as_slice(), 8))
}

/// Encodes an account address as its four little-endian 8-byte chunks,
/// each in the `u64` encoding, joined by `/`.
pub fn encode_pubkey(pubkey: &Pubkey) -> (r: String)
    requires
        pubkey.wf(),
    ensures
        r@ == ascii_chars(encode_chunks_spec(pubkey@, 4)),
{
    ascii_to_string(encode_chunks(pubkey.bytes.as_slice(), 4))
}

} // verus!

verus! {

/// Strict lexicographic order on byte strings: the two differ first at some
/// position where the left one holds the smaller byte. On ASCII strings of
/// equal length this is exactly how the encoded names sort.
pub open spec fn lex_less(s1: Seq<u8>, s2: Seq<u8>) -> bool {
    exists|i: int|
        {
            &&& 0 <= i < s1.len()
            &&& i < s2.len()
            &&& (#[trigger] s1[i]) < s2[i]
            &&& forall|j: int| 0 <= j < i ==> s1[j] == s2[j]
        }
}

/// The base91 digits rise with their index.
proof fn lemma_digit_monotone(b1: int, b2: int)
    requires
        0 <= b1 < b2 < 91,
    ensures
        base91_digit_spec(b1) < base91_digit_spec(b2),
{
}

/// Of two distinct 13-bit groups, the smaller one encodes to the smaller
/// digit pair.
proof fn lemma_group_digits(g1: u64, g2: u64)
    requires
        g1 < g2 <= 0x1FFF,
    ensures
        g1 as int / 91 <= g2 as int / 91,
        g1 as int / 91 == g2 as int / 91 ==> g1 as int % 91 < g2 as int % 91,
{
    assert(g1 as int / 91 <= g2 as int / 91 && (g1 as int / 91 == g2 as int / 91 ==> g1 as int % 91
        < g2 as int % 91)) by (nonlinear_arith)
        requires
            g1 < g2 <= 0x1FFF,
    ;
}

/// A number smaller than another has, from the most significant end, a
/// first 13-bit group where it is the smaller.
proof fn lemma_group_decomposition(a: u64, b: u64)
    requires
        a < b,
    ensures
        (a >> 52) & 0x1FFF == a >> 52,
        (b >> 52) & 0x1FFF == b >> 52,
        ((a >> 52) < (b >> 52)) || ((a >> 52) == (b >> 52) && ((a >> 39) & 0x1FFF) < ((b >> 39)
            & 0x1FFF)) || ((a >> 52) == (b >> 52) && ((a >> 39) & 0x1FFF) == ((b >> 39) & 0x1FFF)
            && ((a >> 26) & 0x1FFF) < ((b >> 26) & 0x1FFF)) || ((a >> 52) == (b >> 52) && ((a
            >> 39) & 0x1FFF) == ((b >> 39) & 0x1FFF) && ((a >> 26) & 0x1FFF) == ((b >> 26)
            & 0x1FFF) && ((a >> 13) & 0x1FFF) < ((b >> 13) & 0x1FFF)) || ((a >> 52) == (b >> 52)
            && ((a >> 39) & 0x1FFF) == ((b >> 39) & 0x1FFF) && ((a >> 26) & 0x1FFF) == ((b >> 26)
            & 0x1FFF) && ((a >> 13) & 0x1FFF) == ((b >> 13) & 0x1FFF) && (a & 0x1FFF) < (b
            & 0x1FFF)),
{
    assert((a >> 52) & 0x1FFF == a >> 52) by (bit_vector);
    assert((b >> 52) & 0x1FFF == b >> 52) by (bit_vector);
    assert(((a >> 52) < (b >> 52)) || ((a >> 52) == (b >> 52) && ((a >> 39) & 0x1FFF) < ((b >> 39)
        & 0x1FFF)) || ((a >> 52) == (b >> 52) && ((a >> 39) & 0x1FFF) == ((b >> 39) & 0x1FFF) && ((
    a >> 26) & 0x1FFF) < ((b >> 26) & 0x1FFF)) || ((a >> 52) == (b >> 52) && ((a >> 39) & 0x1FFF)
        == ((b >> 39) & 0x1FFF) && ((a >> 26) & 0x1FFF) == ((b >> 26) & 0x1FFF) && ((a >> 13)
        & 0x1FFF) < ((b >> 13) & 0x1FFF)) || ((a >> 52) == (b >> 52) && ((a >> 39) & 0x1FFF) == ((b
        >> 39) & 0x1FFF) && ((a >> 26) & 0x1FFF) == ((b >> 26) & 0x1FFF) && ((a >> 13) & 0x1FFF)
        == ((b >> 13) & 0x1FFF) && (a & 0x1FFF) < (b & 0x1FFF))) by (bit_vector)
        requires
            a < b,
    ;
}

/// Encoded numbers sort exactly like the numbers themselves: a smaller
/// `u64` encodes to a lexicographically smaller name.
pub proof fn lemma_encode_u64_preserves_order(a: u64, b: u64)
    requires
        a < b,
    ensures
        lex_less(encode_u64_bytes_spec(a), encode_u64_bytes_spec(b)),
{
    lemma_group_decomposition(a, b);
    let ea = encode_u64_bytes_spec(a);
    let eb = encode_u64_bytes_spec(b);
    let ga4 = group_13(a, 4);
    let gb4 = group_13(b, 4);
    let ga3 = group_13(a, 3);
    let gb3 = group_13(b, 3);
    let ga2 = group_13(a, 2);
    let gb2 = group_13(b, 2);
    let ga1 = group_13(a, 1);
    let gb1 = group_13(b, 1);
    let ga0 = group_13(a, 0);
    let gb0 = group_13(b, 0);
    assert(((a >> 52) & 0x1FFF) <= 0x1FFF && ((a >> 39) & 0x1FFF) <= 0x1FFF && ((a >> 26)
        & 0x1FFF) <= 0x1FFF && ((a >> 13) & 0x1FFF) <= 0x1FFF && ((a >> 0) & 0x1FFF) <= 0x1FFF)
        by (bit_vector);
    assert(((b >> 52) & 0x1FFF) <= 0x1FFF && ((b >> 39) & 0x1FFF) <= 0x1FFF && ((b >> 26)
        & 0x1FFF) <= 0x1FFF && ((b >> 13) & 0x1FFF) <= 0x1FFF && ((b >> 0) & 0x1FFF) <= 0x1FFF)
        by (bit_vector);
    assert(a & 0x1FFF == (a >> 0) & 0x1FFF) by (bit_vector);
    assert(b & 0x1FFF == (b >> 0) & 0x1FFF) by (bit_vector);
    assert(ga4 == (a >> 52) & 0x1FFF && gb4 == (b >> 52) & 0x1FFF);
    assert(ga3 == (a >> 39) & 0x1FFF && gb3 == (b >> 39) & 0x1FFF);
    assert(ga2 == (a >> 26) & 0x1FFF && gb2 == (b >> 26) & 0x1FFF);
    assert(ga1 == (a >> 13) & 0x1FFF && gb1 == (b >> 13) & 0x1FFF);
    assert(ga0 == (a >> 0) & 0x1FFF && gb0 == (b >> 0) & 0x1FFF);
    if ga4 != gb4 {
        lemma_lex_at_group(ea, eb, ga4, gb4, 0);
    } else if ga3 != gb3 {
        lemma_lex_at_group(ea, eb, ga3, gb3, 3);
    } else if ga2 != gb2 {
        lemma_lex_at_group(ea, eb, ga2, gb2, 6);
    } else if ga1 != gb1 {
        lemma_lex_at_group(ea, eb, ga1, gb1, 9);
    } else {
        lemma_lex_at_group(ea, eb, ga0, gb0, 12);
    }
}

/// The two names agree before byte position `p` and differ in the digit
/// pair there, the left name's group being smaller.
proof fn lemma_lex_at_group(ea: Seq<u8>, eb: Seq<u8>, ga: u64, gb: u64, p: int)
    requires
        ea.len() == 14,
        eb.len() == 14,
        0 <= p <= 12,
        forall|j: int| 0 <= j < p ==> ea[j] == eb[j],
        ea[p] == base91_digit_spec(ga as int / 91),
        eb[p] == base91_digit_spec(gb as int / 91),
        ea[p + 1] == base91_digit_spec(ga as int % 91),
        eb[p + 1] == base91_digit_spec(gb as int % 91),
        ga < gb <= 0x1FFF,
    ensures
        lex_less(ea, eb),
{
    lemma_group_digits(ga, gb);
    assert(ga as int / 91 < 91 && gb as int / 91 < 91) by (nonlinear_arith)
        requires
            ga <= 0x1FFF && gb <= 0x1FFF,
    ;
    if ga as int / 91 == gb as int / 91 {
        lemma_digit_monotone(ga as int % 91, gb as int % 91);
        assert(ea[p] == eb[p]);
        assert(ea[p + 1] < eb[p + 1]);
        assert(forall|j: int| 0 <= j < p + 1 ==> ea[j] == eb[j]);
    } else {
        lemma_digit_monotone(ga as int / 91, gb as int / 91);
        assert(ea[p] < eb[p]);
    }
}

} // verus!
