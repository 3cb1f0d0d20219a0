use vstd::prelude::*;
use vstd::string::StrSliceExecFns;

verus! {

/// The index of the first occurrence of `c` in `s`, or `s.len()` when
/// `c` does not occur.
pub open spec fn idx_of(s: Seq<char>, c: char) -> int
    decreases s.len(),
{
    if s.len() == 0 {
        0
    } else if s[0] == c {
        0
    } else {
        1 + idx_of(s.drop_first(), c)
    }
}

pub proof fn lemma_idx_of(s: Seq<char>, c: char)
    ensures
        0 <= idx_of(s, c) <= s.len(),
        idx_of(s, c) < s.len() ==> s[idx_of(s, c)] == c,
        forall|k: int| 0 <= k < idx_of(s, c) ==> s[k] != c,
    decreases s.len(),
{
    if s.len() == 0 {
    } else if s[0] == c {
    } else {
        lemma_idx_of(s.drop_first(), c);
        assert forall|k: int| 0 <= k < idx_of(s, c) implies s[k] != c by {
            if k > 0 {
                assert(s[k] == s.drop_first()[k - 1]);
            }
        }
    }
}

pub proof fn lemma_idx_of_first(s: Seq<char>, c: char, q: int)
    requires
        0 <= q <= s.len(),
        forall|k: int| 0 <= k < q ==> s[k] != c,
        q < s.len() ==> s[q] == c,
    ensures
        idx_of(s, c) == q,
{
    lemma_idx_of(s, c);
    let p = idx_of(s, c);
    if p < q {
        assert(s[p] != c);
        assert(s[p] == c);
    } else if p > q {
        assert(q < s.len());
        assert(s[q] != c);
        assert(s[q] == c);
    }
}

/// The first position of `c` in `s` at or after `from`, or the length
/// of `s` when there is none.
fn find_char_from(s: &str, c: char, from: usize) -> (p: usize)
    requires
        from <= s@.len(),
    ensures
        from <= p <= s@.len(),
        forall|k: int| from <= k < p ==> s@[k] != c,
        p < s@.len() ==> s@[p as int] == c,
        p - from == idx_of(s@.skip(from as int), c),
{
    let n = s.unicode_len();
    let mut p = from;
    while p < n
        invariant
            from <= p <= n,
            n == s@.len(),
            forall|k: int| from <= k < p ==> s@[k] != c,
        decreases n - p,
    {
        if s.get_char(p) == c {
            proof {
                let t = s@.skip(from as int);
                assert(forall|k: int| 0 <= k < t.len() ==> t[k] == s@[from + k]);
                lemma_idx_of_first(t, c, p - from);
            }
            return p;
        }
        p = p + 1;
    }
    proof {
        let t = s@.skip(from as int);
        assert(forall|k: int| 0 <= k < t.len() ==> t[k] == s@[from + k]);
        lemma_idx_of_first(t, c, p - from);
    }
    p
}

/// An ASCII letter: what a URI scheme must start with.
pub open spec fn is_scheme_start_char(c: char) -> bool {
    ('a' <= c && c <= 'z') || ('A' <= c && c <= 'Z')
}

/// A character allowed in a URI scheme after the first.
pub open spec fn is_scheme_char(c: char) -> bool {
    is_scheme_start_char(c) || ('0' <= c && c <= '9') || c == '+' || c == '-' || c == '.'
}

/// An absolute-URI request target: a well-formed scheme, then `://`,
/// then at least one further character for the authority.
pub open spec fn is_absolute_uri(s: Seq<char>) -> bool {
    exists|i: int|
        0 < i && i + 3 < s.len() && (#[trigger] s[i]) == ':' && s[i + 1] == '/' && s[i + 2] == '/'
            && is_scheme_start_char(s[0]) && (forall|j: int| 1 <= j < i ==> is_scheme_char(s[j]))
}

fn is_scheme_char_exec(c: char) -> (r: bool)
    ensures
        r == is_scheme_char(c),
{
    (c >= 'a' && c <= 'z') || (c >= 'A' && c <= 'Z') || (c >= '0' && c <= '9') || c == '+' || c
        == '-' || c == '.'
}

/// Decide whether a request target is an absolute URI.
pub fn check_absolute_uri(target: &str) -> (r: bool)
    ensures
        r == is_absolute_uri(target@),
{
    let ghost s = target@;
    let n = target.unicode_len();
    let p = find_char_from(target, ':', 0);
    if p == 0 || p >= n {
        proof {
            assert forall|i: int|
                !(0 < i && i + 3 < s.len() && (#[trigger] s[i]) == ':' && s[i + 1] == '/' && s[i
                    + 2] == '/' && is_scheme_start_char(s[0]) && (forall|j: int|
                    1 <= j < i ==> is_scheme_char(s[j]))) by {
                if 0 < i && i < s.len() && s[i] == ':' {
                    assert(i >= p);
                    if p == 0 && s.len() > 0 {
                        assert(s[0] == ':');
                        assert(!is_scheme_start_char(':'));
                    }
                }
            }
        }
        return false;
    }
    let mut j: usize = 1;
    while j < p
        invariant
            1 <= j <= p,
            0 < p < n,
            n == s.len(),
            s == target@,
            s[p as int] == ':',
            forall|k: int| 0 <= k < p ==> s[k] != ':',
            forall|k: int| 1 <= k < j ==> is_scheme_char(s[k]),
        decreases p - j,
    {
        let c = target.get_char(j);
        if !is_scheme_char_exec(c) {
            proof {
                lemma_no_other_colon_witness(s, p as int);
                assert(!is_scheme_char(s[j as int]));
            }
            return false;
        }
        j = j + 1;
    }
    let c0 = target.get_char(0);
    if !((c0 >= 'a' && c0 <= 'z') || (c0 >= 'A' && c0 <= 'Z')) {
        proof {
            lemma_no_other_colon_witness(s, p as int);
        }
        return false;
    }
    if n - p <= 3 {
        proof {
            lemma_no_other_colon_witness(s, p as int);
        }
        return false;
    }
    let c1 = target.get_char(p + 1);
    let c2 = target.get_char(p + 2);
    if c1 == '/' && c2 == '/' {
        proof {
            assert(0 < p as int && p as int + 3 < s.len() && s[p as int] == ':' && s[p as int + 1]
                == '/' && s[p as int + 2] == '/' && is_scheme_start_char(s[0]) && (forall|k: int|
                1 <= k < p as int ==> is_scheme_char(s[k])));
        }
        true
    } else {
        proof {
            lemma_no_other_colon_witness(s, p as int);
        }
        false
    }
}

/// When `p` is the first colon of `s`, no other position can be the
/// colon of an absolute URI's scheme: a later colon would need every
/// character before it, the colon at `p` included, to be a scheme
/// character, and `:` is none.
proof fn lemma_no_other_colon_witness(s: Seq<char>, p: int)
    requires
        0 <= p < s.len(),
        s[p] == ':',
        forall|k: int| 0 <= k < p ==> s[k] != ':',
    ensures
        forall|i: int|
            (0 < i && i + 3 < s.len() && (#[trigger] s[i]) == ':' && s[i + 1] == '/' && s[i + 2]
                == '/' && is_scheme_start_char(s[0]) && (forall|j: int|
                1 <= j < i ==> is_scheme_char(s[j]))) ==> i == p,
{
    assert forall|i: int|
        (0 < i && i + 3 < s.len() && (#[trigger] s[i]) == ':' && s[i + 1] == '/' && s[i + 2]
            == '/' && is_scheme_start_char(s[0]) && (forall|j: int|
            1 <= j < i ==> is_scheme_char(s[j]))) implies i == p by {
        if i < p {
            assert(s[i] != ':');
        } else if i > p {
            assert(is_scheme_char(s[p]));
            assert(!is_scheme_char(':'));
        }
    }
}

/// The base URL: everything before the first `?` of the target.
pub open spec fn base_url_of(s: Seq<char>) -> Seq<char> {
    s.take(idx_of(s, '?'))
}

/// The query string: everything after the first `?`, or empty when
/// there is no `?`.
pub open spec fn query_of(s: Seq<char>) -> Seq<char> {
    if idx_of(s, '?') < s.len() {
        s.skip(idx_of(s, '?') + 1)
    } else {
        Seq::empty()
    }
}

/// Split on a separator character; `n` separators give `n + 1` pieces,
/// empty pieces included.
pub open spec fn split_on(s: Seq<char>, c: char) -> Seq<Seq<char>>
    decreases s.len(),
    via split_on_decreases
{
    if idx_of(s, c) == s.len() {
        seq![s]
    } else {
        seq![s.take(idx_of(s, c))] + split_on(s.skip(idx_of(s, c) + 1), c)
    }
}

#[via_fn]
proof fn split_on_decreases(s: Seq<char>, c: char) {
    lemma_idx_of(s, c);
}

/// A byte of the ASCII hexadecimal digits, either case.
pub open spec fn is_hex_byte(b: u8) -> bool {
    (0x30 <= b <= 0x39) || (0x41 <= b <= 0x46) || (0x61 <= b <= 0x66)
}

/// The value of a hexadecimal digit byte.
pub open spec fn hex_val(b: u8) -> u8
    recommends
        is_hex_byte(b),
{
    if 0x30 <= b <= 0x39 {
        (b - 0x30) as u8
    } else if 0x41 <= b <= 0x46 {
        (b - 0x37) as u8
    } else {
        (b - 0x57) as u8
    }
}

/// Decoding of one query component's bytes: `+` becomes a space, a
/// well-formed `%XX` escape becomes its byte, anything else stands for
/// itself.
pub open spec fn plus_pct_decode(b: Seq<u8>) -> Seq<u8>
    decreases b.len(),
{
    if b.len() == 0 {
        Seq::empty()
    } else if b[0] == 0x2b {
        seq![0x20u8] + plus_pct_decode(b.drop_first())
    } else if b[0] == 0x25 && b.len() >= 3 && is_hex_byte(b[1]) && is_hex_byte(b[2]) {
        seq![(hex_val(b[1]) * 16 + hex_val(b[2])) as u8] + plus_pct_decode(b.skip(3))
    } else {
        seq![b[0]] + plus_pct_decode(b.drop_first())
    }
}

/// What lossy UTF-8 decoding returns for a byte sequence.
pub uninterp spec fn utf8_lossy_of(bytes: Seq<u8>) -> Seq<char>;

/// Relies on `String::from_utf8_lossy`: decodes UTF-8, replacing every
/// invalid sequence with U+FFFD; valid UTF-8 input decodes exactly.
#[verifier::external_body]
fn utf8_lossy(v: Vec<u8>) -> (r: String)
    ensures
        r@ == utf8_lossy_of(v@),
        vstd::utf8::valid_utf8(v@) ==> r@ == vstd::utf8::decode_utf8(v@),
{
    String::from_utf8_lossy(&v).into_owned()
}

/// A query component decoded: `+` and `%XX` unescaped at the byte
/// level, then read back as text.
pub open spec fn decoded(s: Seq<char>) -> Seq<char> {
    utf8_lossy_of(plus_pct_decode(vstd::utf8::encode_utf8(s)))
}

/// The key/value pair a nonempty `key=value` piece stands for; without
/// a `=` the whole piece is the key and the value is empty.
pub open spec fn piece_pair(p: Seq<char>) -> (Seq<char>, Seq<char>) {
    (
        decoded(p.take(idx_of(p, '='))),
        if idx_of(p, '=') < p.len() {
            decoded(p.skip(idx_of(p, '=') + 1))
        } else {
            decoded(Seq::empty())
        },
    )
}

/// The decoded pairs of a piece list; empty pieces are dropped.
pub open spec fn pairs_of(pieces: Seq<Seq<char>>) -> Seq<(Seq<char>, Seq<char>)>
    decreases pieces.len(),
{
    if pieces.len() == 0 {
        Seq::empty()
    } else {
        let rest = pairs_of(pieces.drop_first());
        if pieces[0].len() == 0 {
            rest
        } else {
            seq![piece_pair(pieces[0])] + rest
        }
    }
}

/// The views of a parameter list of strings.
pub open spec fn params_chars(ps: Seq<(String, String)>) -> Seq<(Seq<char>, Seq<char>)> {
    ps.map_values(|p: (String, String)| (p.0@, p.1@))
}

fn is_hex_byte_exec(b: u8) -> (r: bool)
    ensures
        r == is_hex_byte(b),
{
    (b >= 0x30 && b <= 0x39) || (b >= 0x41 && b <= 0x46) || (b >= 0x61 && b <= 0x66)
}

fn hex_val_exec(b: u8) -> (r: u8)
    requires
        is_hex_byte(b),
    ensures
        r == hex_val(b),
        r < 16,
{
    if b >= 0x30 && b <= 0x39 {
        b - 0x30
    } else if b >= 0x41 && b <= 0x46 {
        b - 0x37
    } else {
        b - 0x57
    }
}

/// Unescape `+` and `%XX` in a byte sequence.
fn plus_pct_decode_exec(b: &Vec<u8>) -> (r: Vec<u8>)
    ensures
        r@ == plus_pct_decode(b@),
{
    let mut out: Vec<u8> = Vec::new();
    let mut i: usize = 0;
    proof {
        assert(b@.skip(0) =~= b@);
        assert(out@ + plus_pct_decode(b@.skip(0)) =~= plus_pct_decode(b@));
    }
    while i < b.len()
        invariant
            i <= b@.len(),
            plus_pct_decode(b@) == out@ + plus_pct_decode(b@.skip(i as int)),
        decreases b@.len() - i,
    {
        let ghost rem = b@.skip(i as int);
        proof {
            assert(rem[0] == b@[i as int]);
            assert(rem.len() == b@.len() - i);
        }
        let c = b[i];
        if c == 0x2b {
            out.push(0x20);
            proof {
                assert(rem.drop_first() =~= b@.skip(i + 1));
                assert(plus_pct_decode(rem) == seq![0x20u8] + plus_pct_decode(b@.skip(i + 1)));
                assert(out@ + plus_pct_decode(b@.skip(i + 1)) =~= plus_pct_decode(b@));
            }
            i = i + 1;
        } else if c == 0x25 && b.len() - i >= 3 && is_hex_byte_exec(b[i + 1]) && is_hex_byte_exec(
            b[i + 2],
        ) {
            proof {
                assert(rem[1] == b@[i + 1]);
                assert(rem[2] == b@[i + 2]);
            }
            let v = hex_val_exec(b[i + 1]) * 16 + hex_val_exec(b[i + 2]);
            out.push(v);
            proof {
                assert(rem.skip(3) =~= b@.skip(i + 3));
                assert(plus_pct_decode(rem) == seq![(hex_val(rem[1]) * 16 + hex_val(rem[2])) as u8]
                    + plus_pct_decode(b@.skip(i + 3)));
                assert(out@ + plus_pct_decode(b@.skip(i + 3)) =~= plus_pct_decode(b@));
            }
            i = i + 3;
        } else {
            out.push(c);
            proof {
                assert(rem.drop_first() =~= b@.skip(i + 1));
                assert(plus_pct_decode(rem) == seq![rem[0]] + plus_pct_decode(b@.skip(i + 1)));
                assert(out@ + plus_pct_decode(b@.skip(i + 1)) =~= plus_pct_decode(b@));
            }
            i = i + 1;
        }
    }
    proof {
        assert(b@.skip(b@.len() as int) =~= Seq::<u8>::empty());
        assert(out@ + plus_pct_decode(Seq::<u8>::empty()) =~= out@);
    }
    out
}

/// Decode one query component to text.
fn decode_component(s: &str) -> (r: String)
    ensures
        r@ == decoded(s@),
{
    let b = s.as_bytes_vec();
    let d = plus_pct_decode_exec(&b);
    utf8_lossy(d)
}

/// Decode the target's query string into its key/value pairs,
/// preserving order and duplicate keys; keys and values are unescaped.
pub fn extract_query_params(url: &str) -> (r: Vec<(String, String)>)
    ensures
        params_chars(r@) == pairs_of(split_on(query_of(url@), '&')),
{
    let ghost s = url@;
    let n = url.unicode_len();
    let qpos = find_char_from(url, '?', 0);
    proof {
        assert(s.skip(0) =~= s);
    }
    let mut r: Vec<(String, String)> = Vec::new();
    if qpos >= n {
        proof {
            let q = query_of(s);
            assert(q =~= Seq::<char>::empty());
            assert(idx_of(q, '&') == 0);
            assert(split_on(q, '&') =~= seq![q]);
            assert(seq![q].drop_first() =~= Seq::<Seq<char>>::empty());
            assert(seq![q][0] == q);
            assert(pairs_of(Seq::<Seq<char>>::empty()) =~= Seq::<(Seq<char>, Seq<char>)>::empty());
            assert(pairs_of(split_on(q, '&')) =~= Seq::<(Seq<char>, Seq<char>)>::empty());
            assert(params_chars(r@) =~= Seq::<(Seq<char>, Seq<char>)>::empty());
        }
        return r;
    }
    let qstart = qpos + 1;
    let ghost query = query_of(s);
    proof {
        assert(query =~= s.skip(qstart as int));
    }
    let mut start: usize = qstart;
    let mut done = false;
    proof {
        assert(params_chars(r@) =~= Seq::<(Seq<char>, Seq<char>)>::empty());
    }
    while !done
        invariant
            qstart <= start <= n,
            n == s.len(),
            s == url@,
            query == query_of(s),
            !done ==> pairs_of(split_on(query, '&')) == params_chars(r@) + pairs_of(
                split_on(s.skip(start as int), '&'),
            ),
            done ==> pairs_of(split_on(query, '&')) == params_chars(r@),
        decreases n - start + (if done {
            0int
        } else {
            1int
        }),
    {
        let e = find_char_from(url, '&', start);
        let ghost rem = s.skip(start as int);
        let piece = url.substring_char(start, e);
        proof {
            assert(idx_of(rem, '&') == e - start);
            assert(piece@ =~= rem.take(e - start));
        }
        if e > start {
            let plen = e - start;
            let eqp = find_char_from(piece, '=', 0);
            proof {
                assert(piece@.skip(0) =~= piece@);
                assert(idx_of(piece@, '=') == eqp);
            }
            let key_s = piece.substring_char(0, eqp);
            let value = if eqp < plen {
                let val_s = piece.substring_char(eqp + 1, plen);
                proof {
                    assert(val_s@ =~= piece@.skip(eqp + 1));
                }
                decode_component(val_s)
            } else {
                proof {
                    reveal_strlit("");
                    assert(""@ =~= Seq::<char>::empty());
                }
                decode_component("")
            };
            let key = decode_component(key_s);
            proof {
                assert(key_s@ =~= piece@.take(eqp as int));
                assert((key@, value@) == piece_pair(piece@));
            }
            let ghost before = r@;
            r.push((key, value));
            proof {
                assert(params_chars(r@) =~= params_chars(before) + seq![(key@, value@)]);
            }
        }
        proof {
            if e < n {
                assert(idx_of(rem, '&') < rem.len());
                assert(rem.take(idx_of(rem, '&')) =~= piece@);
                assert(rem.skip(idx_of(rem, '&') + 1) =~= s.skip(e + 1));
                assert(split_on(rem, '&') == seq![piece@] + split_on(s.skip(e + 1), '&'));
                assert(seq![piece@].len() == 1);
                assert((seq![piece@] + split_on(s.skip(e + 1), '&')).drop_first() =~= split_on(
                    s.skip(e + 1),
                    '&',
                ));
                assert((seq![piece@] + split_on(s.skip(e + 1), '&'))[0] == piece@);
                if e > start {
                    assert(pairs_of(split_on(rem, '&')) == seq![piece_pair(piece@)] + pairs_of(
                        split_on(s.skip(e + 1), '&'),
                    ));
                } else {
                    assert(piece@.len() == 0);
                    assert(pairs_of(split_on(rem, '&')) == pairs_of(split_on(s.skip(e + 1), '&')));
                }
            } else {
                assert(idx_of(rem, '&') == rem.len());
                assert(rem =~= piece@);
                assert(split_on(rem, '&') == seq![piece@]);
                assert(seq![piece@].drop_first() =~= Seq::<Seq<char>>::empty());
                assert(pairs_of(Seq::<Seq<char>>::empty()) =~= Seq::<(Seq<char>, Seq<char>)>::empty());
                if e > start {
                    assert(pairs_of(split_on(rem, '&')) =~= seq![piece_pair(piece@)]);
                } else {
                    assert(pairs_of(split_on(rem, '&')) =~= Seq::<(Seq<char>, Seq<char>)>::empty());
                }
            }
            assert(pairs_of(split_on(query, '&')) == params_chars(r@) + (if e < n {
                pairs_of(split_on(s.skip(e + 1), '&'))
            } else {
                Seq::<(Seq<char>, Seq<char>)>::empty()
            }));
        }
        if e < n {
            start = e + 1;
        } else {
            done = true;
            proof {
                assert(params_chars(r@) + Seq::<(Seq<char>, Seq<char>)>::empty() =~= params_chars(
                    r@,
                ));
            }
        }
    }
    r
}

/// Strip the query string from a target URL.
pub fn extract_base_url(url: &str) -> (r: String)
    ensures
        r@ == base_url_of(url@),
{
    let n = url.unicode_len();
    let p = find_char_from(url, '?', 0);
    proof {
        assert(url@.skip(0) =~= url@);
        assert(url@.take(p as int) =~= url@.subrange(0, p as int));
    }
    let piece = url.substring_char(0, p);
    piece.to_owned()
}

} // verus!
