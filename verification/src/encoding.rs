use vstd::prelude::*;
use vstd::utf8::{
    encode_utf8, decode_utf8, valid_utf8, partial_valid_utf8, partial_valid_utf8_extend_ascii_block,
    encode_utf8_decode_utf8, is_leading_byte_width_1, decode_first_scalar, length_of_first_scalar,
    pop_first_scalar, is_ascii_chars, is_ascii_chars_encode_utf8,
};
use vstd::string::StrSliceExecFns;

verus! {

/// A byte in the RFC 3986 unreserved set: ASCII letters, digits,
/// `-`, `.`, `_`, and `~`. Only these bytes survive percent-encoding
/// unchanged.
pub open spec fn is_unreserved_byte(b: u8) -> bool {
    (0x41 <= b <= 0x5a)  // A-Z
    || (0x61 <= b <= 0x7a)  // a-z
    || (0x30 <= b <= 0x39)  // 0-9
    || b == 0x2d  // -
    || b == 0x2e  // .
    || b == 0x5f  // _
    || b == 0x7e  // ~
}

/// The uppercase hexadecimal digit, as an ASCII byte, for a value below 16.
pub open spec fn hex_digit(n: u8) -> u8
    recommends
        n < 16,
{
    if n < 10 {
        (0x30 + n) as u8  // '0'..'9'
    } else {
        (0x37 + n) as u8  // 'A'..'F'
    }
}

/// Percent-encoding of a single byte: an unreserved byte stands for
/// itself, every other byte becomes `%XX` with uppercase hex digits.
/// A space (0x20) is not unreserved, so it always becomes `%20`.
pub open spec fn pct_encode_byte(b: u8) -> Seq<u8> {
    if is_unreserved_byte(b) {
        seq![b]
    } else {
        seq![0x25u8, hex_digit(b / 16), hex_digit(b % 16)]
    }
}

/// RFC 3986 percent-encoding of a whole byte sequence.
pub open spec fn pct_encode_bytes(s: Seq<u8>) -> Seq<u8>
    decreases s.len(),
{
    if s.len() == 0 {
        Seq::empty()
    } else {
        pct_encode_byte(s[0]) + pct_encode_bytes(s.drop_first())
    }
}

/// The percent-encoding of a string's UTF-8 bytes, read back as
/// characters; the encoder only emits ASCII, so this is well defined.
pub open spec fn pct_encode_str(s: Seq<char>) -> Seq<char> {
    decode_utf8(pct_encode_bytes(encode_utf8(s)))
}

pub proof fn lemma_pct_encode_bytes_concat(a: Seq<u8>, b: Seq<u8>)
    ensures
        pct_encode_bytes(a + b) == pct_encode_bytes(a) + pct_encode_bytes(b),
    decreases a.len(),
{
    if a.len() == 0 {
        assert(a + b =~= b);
        assert(pct_encode_bytes(a) + pct_encode_bytes(b) =~= pct_encode_bytes(b));
    } else {
        assert((a + b).len() > 0);
        assert((a + b)[0] == a[0]);
        assert((a + b).drop_first() =~= a.drop_first() + b);
        lemma_pct_encode_bytes_concat(a.drop_first(), b);
        assert(pct_encode_bytes(a + b) =~= pct_encode_bytes(a) + pct_encode_bytes(b));
    }
}

pub proof fn lemma_pct_encode_bytes_push(s: Seq<u8>, b: u8)
    ensures
        pct_encode_bytes(s.push(b)) == pct_encode_bytes(s) + pct_encode_byte(b),
{
    let s1 = seq![b];
    assert(s.push(b) =~= s + s1);
    lemma_pct_encode_bytes_concat(s, s1);
    assert(s1.len() == 1 && s1[0] == b);
    assert(s1.drop_first() =~= Seq::<u8>::empty());
    assert(pct_encode_bytes(Seq::<u8>::empty()) == Seq::<u8>::empty());
    assert(pct_encode_bytes(s1) == pct_encode_byte(b) + pct_encode_bytes(s1.drop_first()));
    assert(pct_encode_byte(b) + Seq::<u8>::empty() =~= pct_encode_byte(b));
}

/// Every byte the encoder emits is unreserved or the escape byte `%`;
/// in particular the output is ASCII and never contains `+`.
pub proof fn lemma_pct_encode_output_bytes(s: Seq<u8>)
    ensures
        forall|i: int|
            0 <= i < pct_encode_bytes(s).len() ==> (is_unreserved_byte(
                #[trigger] pct_encode_bytes(s)[i],
            ) || pct_encode_bytes(s)[i] == 0x25),
    decreases s.len(),
{
    if s.len() > 0 {
        lemma_pct_encode_output_bytes(s.drop_first());
        let head = pct_encode_byte(s[0]);
        assert(forall|i: int|
            0 <= i < head.len() ==> (is_unreserved_byte(#[trigger] head[i]) || head[i] == 0x25));
        assert(forall|i: int|
            head.len() <= i < pct_encode_bytes(s).len() ==> pct_encode_bytes(s)[i]
                == pct_encode_bytes(s.drop_first())[i - head.len()]);
    }
}

/// Percent-encoding leaves a sequence of unreserved bytes unchanged.
pub proof fn lemma_pct_encode_identity_on_unreserved(s: Seq<u8>)
    requires
        forall|i: int| 0 <= i < s.len() ==> is_unreserved_byte(#[trigger] s[i]),
    ensures
        pct_encode_bytes(s) == s,
    decreases s.len(),
{
    if s.len() > 0 {
        lemma_pct_encode_identity_on_unreserved(s.drop_first());
        assert(pct_encode_bytes(s) =~= s);
    }
}

/// On input made of unreserved bytes, percent-encoding is idempotent:
/// encoding its own output changes nothing further.
pub proof fn lemma_pct_encode_idempotent_on_unreserved(s: Seq<u8>)
    requires
        forall|i: int| 0 <= i < s.len() ==> is_unreserved_byte(#[trigger] s[i]),
    ensures
        pct_encode_bytes(pct_encode_bytes(s)) == pct_encode_bytes(s),
        pct_encode_bytes(s) == s,
{
    lemma_pct_encode_identity_on_unreserved(s);
}

/// The encoder never emits `+` (0x2b): a space is encoded as `%20`.
pub proof fn lemma_pct_encode_no_plus(s: Seq<u8>)
    ensures
        forall|i: int| 0 <= i < pct_encode_bytes(s).len() ==> #[trigger] pct_encode_bytes(s)[i]
            != 0x2b,
{
    lemma_pct_encode_output_bytes(s);
}

/// A sequence of ASCII bytes is trivially valid UTF-8.
pub proof fn lemma_ascii_bytes_valid_utf8(s: Seq<u8>)
    requires
        forall|i: int| 0 <= i < s.len() ==> #[trigger] s[i] < 0x80,
    ensures
        valid_utf8(s),
{
    assert(s.subrange(0, 0) =~= Seq::<u8>::empty());
    assert(partial_valid_utf8(s, 0));
    assert(forall|i: int| 0 <= i < s.len() ==> is_leading_byte_width_1(#[trigger] s[i]));
    partial_valid_utf8_extend_ascii_block(s, 0, s.len() as int);
    assert(s.subrange(0, s.len() as int) =~= s);
}

pub proof fn lemma_pct_encode_valid_utf8(s: Seq<u8>)
    ensures
        valid_utf8(pct_encode_bytes(s)),
{
    lemma_pct_encode_output_bytes(s);
    lemma_ascii_bytes_valid_utf8(pct_encode_bytes(s));
}

/// ASCII bytes decode to exactly their characters, one per byte.
pub proof fn lemma_decode_ascii_bytes(b: Seq<u8>)
    requires
        forall|i: int| 0 <= i < b.len() ==> #[trigger] b[i] < 0x80,
    ensures
        decode_utf8(b).len() == b.len(),
        forall|i: int| 0 <= i < b.len() ==> #[trigger] decode_utf8(b)[i] == (b[i] as char),
    decreases b.len(),
{
    lemma_ascii_bytes_valid_utf8(b);
    if b.len() > 0 {
        let b0 = b[0];
        assert(b0 & 0x7f == b0) by (bit_vector)
            requires
                b0 < 0x80,
        ;
        assert(is_leading_byte_width_1(b0));
        assert(length_of_first_scalar(b) == 1);
        assert(decode_first_scalar(b) == b0 as u32);
        assert(pop_first_scalar(b) =~= b.drop_first());
        assert(forall|i: int|
            0 <= i < b.drop_first().len() ==> #[trigger] b.drop_first()[i] < 0x80);
        lemma_decode_ascii_bytes(b.drop_first());
        assert(decode_utf8(b) == seq![decode_first_scalar(b) as char] + decode_utf8(
            pop_first_scalar(b),
        ));
        assert((b0 as u32) as char == b0 as char);
        assert forall|i: int| 0 <= i < b.len() implies decode_utf8(b)[i] == (b[i] as char) by {
            if i > 0 {
                assert(decode_utf8(b)[i] == decode_utf8(b.drop_first())[i - 1]);
                assert(b[i] == b.drop_first()[i - 1]);
            }
        }
    }
}

/// On the output string too, percent-encoding never yields `+`.
pub proof fn lemma_pct_encode_str_no_plus(s: Seq<char>)
    ensures
        forall|i: int| 0 <= i < pct_encode_str(s).len() ==> #[trigger] pct_encode_str(s)[i] != '+',
{
    let bytes = pct_encode_bytes(encode_utf8(s));
    lemma_pct_encode_output_bytes(encode_utf8(s));
    lemma_pct_encode_no_plus(encode_utf8(s));
    lemma_decode_ascii_bytes(bytes);
    assert forall|i: int| 0 <= i < pct_encode_str(s).len() implies pct_encode_str(s)[i] != '+' by {
        assert(pct_encode_str(s)[i] == (bytes[i] as char));
        assert(bytes[i] != 0x2b && bytes[i] < 0x80);
        assert((bytes[i] as char) as u8 == bytes[i]);
    }
}

/// A character of the RFC 3986 unreserved set.
pub open spec fn is_unreserved_char(c: char) -> bool {
    ('A' <= c && c <= 'Z') || ('a' <= c && c <= 'z') || ('0' <= c && c <= '9') || c == '-' || c
        == '.' || c == '_' || c == '~'
}

/// A string of unreserved characters is left unchanged by
/// percent-encoding, and encoding is therefore idempotent on its own
/// output for such strings.
pub proof fn lemma_pct_encode_str_identity_on_unreserved(s: Seq<char>)
    requires
        forall|i: int| 0 <= i < s.len() ==> is_unreserved_char(#[trigger] s[i]),
    ensures
        pct_encode_str(s) == s,
        pct_encode_str(pct_encode_str(s)) == pct_encode_str(s),
{
    let bytes = encode_utf8(s);
    assert(is_ascii_chars(s));
    is_ascii_chars_encode_utf8(s);
    assert forall|i: int| 0 <= i < bytes.len() implies is_unreserved_byte(#[trigger] bytes[i]) by {
        assert(bytes[i] == s[i] as u8);
        assert(is_unreserved_char(s[i]));
    }
    lemma_pct_encode_identity_on_unreserved(bytes);
    encode_utf8_decode_utf8(s);
}

pub fn byte_is_unreserved(b: u8) -> (r: bool)
    ensures
        r == is_unreserved_byte(b),
{
    (b >= 0x41 && b <= 0x5a) || (b >= 0x61 && b <= 0x7a) || (b >= 0x30 && b <= 0x39) || b == 0x2d
        || b == 0x2e || b == 0x5f || b == 0x7e
}

fn hex_digit_exec(n: u8) -> (r: u8)
    requires
        n < 16,
    ensures
        r == hex_digit(n),
{
    if n < 10 {
        0x30 + n
    } else {
        0x37 + n
    }
}

/// Percent-encode a byte sequence per RFC 3986.
pub fn percent_encode_bytes(s: &[u8]) -> (r: Vec<u8>)
    ensures
        r@ == pct_encode_bytes(s@),
{
    let mut r: Vec<u8> = Vec::new();
    let mut i: usize = 0;
    while i < s.len()
        invariant
            0 <= i <= s@.len(),
            r@ == pct_encode_bytes(s@.take(i as int)),
        decreases s@.len() - i,
    {
        let b = s[i];
        if byte_is_unreserved(b) {
            r.push(b);
        } else {
            r.push(0x25);
            r.push(hex_digit_exec(b / 16));
            r.push(hex_digit_exec(b % 16));
        }
        proof {
            assert(s@.take(i + 1) =~= s@.take(i as int).push(s@[i as int]));
            lemma_pct_encode_bytes_push(s@.take(i as int), s@[i as int]);
        }
        i = i + 1;
    }
    proof {
        assert(s@.take(s@.len() as int) =~= s@);
    }
    r
}

/// Relies on `String::from_utf8`: for bytes that are a valid UTF-8
/// encoding it returns `Ok` of the string whose encoding is exactly
/// those bytes.
#[verifier::external_body]
pub(crate) fn string_from_utf8(v: Vec<u8>) -> (r: String)
    requires
        valid_utf8(v@),
    ensures
        encode_utf8(r@) == v@,
{
    match String::from_utf8(v) {
        Ok(s) => s,
        Err(_) => String::new(),
    }
}

/// Percent-encode a string per RFC 3986: every byte of its UTF-8 form
/// outside the unreserved set is replaced by `%XX` with uppercase hex,
/// and a space becomes `%20`, never `+`.
pub fn url_encode(string: &str) -> (r: String)
    ensures
        encode_utf8(r@) == pct_encode_bytes(encode_utf8(string@)),
        r@ == pct_encode_str(string@),
{
    let bytes = string.as_bytes_vec();
    let out = percent_encode_bytes(bytes.as_slice());
    proof {
        lemma_pct_encode_valid_utf8(bytes@);
    }
    let r = string_from_utf8(out);
    proof {
        encode_utf8_decode_utf8(r@);
    }
    r
}

} // verus!
