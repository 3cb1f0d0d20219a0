use vstd::prelude::*;
use vstd::string::StrSliceExecFns;

verus! {

/// Relies on `String::push`: appends exactly one character at the end.
#[verifier::external_body]
pub(crate) fn push_char(s: &mut String, c: char)
    ensures
        final(s)@ == old(s)@.push(c),
{
    s.push(c);
}

/// An ASCII lowercase letter mapped to its uppercase form; every other
/// character is left unchanged.
pub open spec fn upper_char(c: char) -> char {
    if 'a' <= c && c <= 'z' {
        (((c as u8) - 0x20) as char)
    } else {
        c
    }
}

/// A string with its ASCII lowercase letters uppercased.
pub open spec fn upper_str(s: Seq<char>) -> Seq<char> {
    s.map_values(|c: char| upper_char(c))
}

fn upper_char_exec(c: char) -> (r: char)
    ensures
        r == upper_char(c),
{
    if c >= 'a' && c <= 'z' {
        ((c as u8) - 0x20) as char
    } else {
        c
    }
}

/// Uppercase the ASCII letters of a string, as HTTP methods require.
pub fn ascii_uppercase(s: &str) -> (r: String)
    ensures
        r@ == upper_str(s@),
{
    let n = s.unicode_len();
    let mut r = String::new();
    let mut i: usize = 0;
    while i < n
        invariant
            n == s@.len(),
            i <= n,
            r@.len() == i,
            forall|k: int| 0 <= k < i ==> #[trigger] r@[k] == upper_char(s@[k]),
        decreases n - i,
    {
        let c = s.get_char(i);
        let u = upper_char_exec(c);
        push_char(&mut r, u);
        i = i + 1;
    }
    proof {
        assert(r@ =~= upper_str(s@));
    }
    r
}

/// The decimal digit character for a value below ten.
pub open spec fn digit_char(d: int) -> char
    recommends
        0 <= d < 10,
{
    (((0x30 + d) as u8) as char)
}

/// The decimal representation of a non-negative integer, without
/// leading zeros (zero itself is the single digit `0`).
pub open spec fn dec_digits(n: int) -> Seq<char>
    recommends
        n >= 0,
    decreases n,
    when n >= 0
{
    if n < 10 {
        seq![digit_char(n)]
    } else {
        dec_digits(n / 10).push(digit_char(n % 10))
    }
}

spec fn rev_digit_chars(s: Seq<u8>) -> Seq<char>
    decreases s.len(),
{
    if s.len() == 0 {
        Seq::empty()
    } else {
        seq![digit_char(s.last() as int)] + rev_digit_chars(s.drop_last())
    }
}

/// Format an unsigned integer in decimal.
pub fn u64_to_decimal(n: u64) -> (r: String)
    ensures
        r@ == dec_digits(n as int),
{
    let mut r = String::new();
    if n < 10 {
        push_char(&mut r, (0x30 + (n as u8)) as char);
        proof {
            assert(r@ =~= seq![digit_char(n as int)]);
        }
        return r;
    }
    let mut rev: Vec<u8> = Vec::new();
    let mut m: u64 = n;
    proof {
        assert(rev_digit_chars(rev@) =~= Seq::<char>::empty());
        assert(dec_digits(n as int) =~= dec_digits(m as int) + rev_digit_chars(rev@));
    }
    while m >= 10
        invariant
            dec_digits(n as int) == dec_digits(m as int) + rev_digit_chars(rev@),
            forall|k: int| 0 <= k < rev@.len() ==> #[trigger] rev@[k] < 10,
        decreases m,
    {
        let d: u8 = (m % 10) as u8;
        proof {
            assert(dec_digits(m as int) == dec_digits(m as int / 10).push(
                digit_char(m as int % 10),
            ));
            assert(rev@.push(d).last() == d);
            assert(rev@.push(d).drop_last() =~= rev@);
            assert(rev_digit_chars(rev@.push(d)) == seq![digit_char(d as int)] + rev_digit_chars(
                rev@,
            ));
            assert(dec_digits(m as int / 10) + rev_digit_chars(rev@.push(d)) =~= dec_digits(
                m as int,
            ) + rev_digit_chars(rev@));
        }
        rev.push(d);
        m = m / 10;
    }
    proof {
        assert(dec_digits(m as int) =~= seq![digit_char(m as int)]);
    }
    let last: u8 = m as u8;
    push_char(&mut r, (0x30 + last) as char);
    proof {
        assert(r@ =~= seq![digit_char(m as int)]);
        assert(r@ + rev_digit_chars(rev@) =~= dec_digits(n as int));
    }
    while rev.len() > 0
        invariant
            r@ + rev_digit_chars(rev@) == dec_digits(n as int),
            forall|k: int| 0 <= k < rev@.len() ==> #[trigger] rev@[k] < 10,
        decreases rev@.len(),
    {
        let ghost before = rev@;
        let d = rev.pop().unwrap();
        proof {
            assert(before.last() == d);
            assert(before.drop_last() =~= rev@);
            assert(rev_digit_chars(before) == seq![digit_char(d as int)] + rev_digit_chars(rev@));
        }
        push_char(&mut r, (0x30 + d) as char);
        proof {
            assert(r@ + rev_digit_chars(rev@) =~= dec_digits(n as int));
        }
    }
    proof {
        assert(rev_digit_chars(rev@) =~= Seq::<char>::empty());
        assert(r@ =~= dec_digits(n as int));
    }
    r
}

} // verus!
