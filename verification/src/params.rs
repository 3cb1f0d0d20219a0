use vstd::prelude::*;
use vstd::relations::{sorted_by, total_ordering};
use vstd::seq_lib::lemma_sorted_unique;
use vstd::seq_lib::group_to_multiset_ensures;
use vstd::utf8::{encode_utf8, decode_utf8};
use crate::encoding::{
    pct_encode_bytes, pct_encode_str, percent_encode_bytes, string_from_utf8, url_encode,
    lemma_pct_encode_output_bytes, lemma_ascii_bytes_valid_utf8,
};

verus! {

/// Byte-wise (ordinal) ascending order on byte sequences: the order in
/// which the encoded `key=value` strings are sorted.
pub open spec fn bytes_le(a: Seq<u8>, b: Seq<u8>) -> bool
    decreases a.len(),
{
    if a.len() == 0 {
        true
    } else if b.len() == 0 {
        false
    } else if a[0] < b[0] {
        true
    } else if a[0] > b[0] {
        false
    } else {
        bytes_le(a.drop_first(), b.drop_first())
    }
}

/// The same order packaged as a relation value, for vstd's sorting lemmas.
pub open spec fn bytes_le_order() -> spec_fn(Seq<u8>, Seq<u8>) -> bool {
    |a: Seq<u8>, b: Seq<u8>| bytes_le(a, b)
}

proof fn lemma_bytes_le_refl(a: Seq<u8>)
    ensures
        bytes_le(a, a),
    decreases a.len(),
{
    if a.len() > 0 {
        lemma_bytes_le_refl(a.drop_first());
    }
}

proof fn lemma_bytes_le_antisym(a: Seq<u8>, b: Seq<u8>)
    requires
        bytes_le(a, b),
        bytes_le(b, a),
    ensures
        a == b,
    decreases a.len(),
{
    if a.len() == 0 {
        assert(b.len() == 0);
        assert(a =~= b);
    } else {
        assert(b.len() > 0);
        assert(a[0] == b[0]);
        lemma_bytes_le_antisym(a.drop_first(), b.drop_first());
        assert(a.len() == b.len());
        assert forall|i: int| 0 <= i < a.len() implies a[i] == b[i] by {
            if i > 0 {
                assert(a[i] == a.drop_first()[i - 1]);
                assert(b[i] == b.drop_first()[i - 1]);
            }
        }
        assert(a =~= b);
    }
}

proof fn lemma_bytes_le_trans(a: Seq<u8>, b: Seq<u8>, c: Seq<u8>)
    requires
        bytes_le(a, b),
        bytes_le(b, c),
    ensures
        bytes_le(a, c),
    decreases a.len(),
{
    if a.len() == 0 {
    } else {
        assert(b.len() > 0);
        assert(c.len() > 0);
        if a[0] == b[0] && b[0] == c[0] {
            lemma_bytes_le_trans(a.drop_first(), b.drop_first(), c.drop_first());
        }
    }
}

proof fn lemma_bytes_le_connected(a: Seq<u8>, b: Seq<u8>)
    ensures
        bytes_le(a, b) || bytes_le(b, a),
    decreases a.len(),
{
    if a.len() > 0 && b.len() > 0 && a[0] == b[0] {
        lemma_bytes_le_connected(a.drop_first(), b.drop_first());
    }
}

/// Byte-wise order is a total ordering, so sorting by it has a unique
/// result.
pub proof fn lemma_bytes_le_total_ordering()
    ensures
        total_ordering(bytes_le_order()),
{
    let leq = bytes_le_order();
    assert forall|a: Seq<u8>| #[trigger] leq(a, a) by {
        lemma_bytes_le_refl(a);
    }
    assert forall|a: Seq<u8>, b: Seq<u8>| #[trigger] leq(a, b) && #[trigger] leq(b, a) implies a
        == b by {
        lemma_bytes_le_antisym(a, b);
    }
    assert forall|a: Seq<u8>, b: Seq<u8>, c: Seq<u8>|
        #[trigger] leq(a, b) && #[trigger] leq(b, c) implies leq(a, c) by {
        lemma_bytes_le_trans(a, b, c);
    }
    assert forall|a: Seq<u8>, b: Seq<u8>| !(#[trigger] leq(a, b)) implies leq(b, a) by {
        lemma_bytes_le_connected(a, b);
    }
}

/// One parameter, encoded and joined: `key=value` with both parts
/// percent-encoded.
pub open spec fn encoded_pair(p: (Seq<u8>, Seq<u8>)) -> Seq<u8> {
    pct_encode_bytes(p.0) + seq![0x3du8] + pct_encode_bytes(p.1)
}

/// Join parts with `&` separators.
pub open spec fn join_amp(parts: Seq<Seq<u8>>) -> Seq<u8>
    decreases parts.len(),
{
    if parts.len() == 0 {
        Seq::empty()
    } else if parts.len() == 1 {
        parts[0]
    } else {
        parts[0] + seq![0x26u8] + join_amp(parts.drop_first())
    }
}

/// The normalized parameter string: percent-encode every key and value,
/// join each pair as `key=value`, sort the encoded pair strings
/// byte-wise ascending, and join the sorted list with `&`.
pub open spec fn param_string(params: Seq<(Seq<u8>, Seq<u8>)>) -> Seq<u8> {
    join_amp(params.map_values(|p: (Seq<u8>, Seq<u8>)| encoded_pair(p)).sort_by(bytes_le_order()))
}

/// A parameter list of strings, seen as pairs of UTF-8 byte sequences.
pub open spec fn params_bytes(ps: Seq<(String, String)>) -> Seq<(Seq<u8>, Seq<u8>)> {
    ps.map_values(|p: (String, String)| (encode_utf8(p.0@), encode_utf8(p.1@)))
}

/// The views of a list of byte vectors.
pub open spec fn views_of(s: Seq<Vec<u8>>) -> Seq<Seq<u8>> {
    s.map_values(|v: Vec<u8>| v@)
}

/// Mapping a function over two sequences with equal multisets yields
/// equal multisets.
proof fn lemma_map_values_multiset<A, B>(s1: Seq<A>, s2: Seq<A>, f: spec_fn(A) -> B)
    requires
        s1.to_multiset() == s2.to_multiset(),
    ensures
        s1.map_values(f).to_multiset() == s2.map_values(f).to_multiset(),
    decreases s1.len(),
{
    broadcast use group_to_multiset_ensures;

    if s1.len() == 0 {
        assert(s1.to_multiset().len() == 0);
        assert(s2.len() == 0);
        assert(s1.map_values(f) =~= Seq::<B>::empty());
        assert(s2.map_values(f) =~= Seq::<B>::empty());
    } else {
        let x = s1[0];
        assert(s1.to_multiset().count(x) > 0);
        assert(s2.to_multiset().count(x) > 0);
        assert(s2.contains(x));
        let j = choose|j: int| 0 <= j < s2.len() && s2[j] == x;
        assert(s1.remove(0).to_multiset() == s1.to_multiset().remove(x));
        assert(s2.remove(j).to_multiset() == s2.to_multiset().remove(x));
        lemma_map_values_multiset(s1.remove(0), s2.remove(j), f);
        assert(s1.remove(0).map_values(f) =~= s1.map_values(f).remove(0));
        assert(s2.remove(j).map_values(f) =~= s2.map_values(f).remove(j));
        assert(s1.map_values(f).remove(0).to_multiset() == s1.map_values(f).to_multiset().remove(
            f(x),
        ));
        assert(s2.map_values(f).remove(j).to_multiset() == s2.map_values(f).to_multiset().remove(
            f(x),
        ));
        assert(s1.map_values(f).to_multiset().count(f(x)) > 0);
        assert(s2.map_values(f).to_multiset().count(f(x)) > 0);
        assert(s1.map_values(f).to_multiset() =~= s1.map_values(f).to_multiset().remove(f(x)).insert(
            f(x),
        ));
        assert(s2.map_values(f).to_multiset() =~= s2.map_values(f).to_multiset().remove(f(x)).insert(
            f(x),
        ));
    }
}

/// Normalization is order-independent on input and order-deterministic
/// on output: two parameter lists holding the same multiset of pairs
/// normalize to the same string.
pub proof fn lemma_param_string_order_independent(
    p1: Seq<(Seq<u8>, Seq<u8>)>,
    p2: Seq<(Seq<u8>, Seq<u8>)>,
)
    requires
        p1.to_multiset() == p2.to_multiset(),
    ensures
        param_string(p1) == param_string(p2),
{
    let f = |p: (Seq<u8>, Seq<u8>)| encoded_pair(p);
    let leq = bytes_le_order();
    lemma_map_values_multiset(p1, p2, f);
    lemma_bytes_le_total_ordering();
    p1.map_values(f).lemma_sort_by_ensures(leq);
    p2.map_values(f).lemma_sort_by_ensures(leq);
    lemma_sorted_unique(p1.map_values(f).sort_by(leq), p2.map_values(f).sort_by(leq), leq);
}

proof fn lemma_join_amp_push(parts: Seq<Seq<u8>>, x: Seq<u8>)
    ensures
        join_amp(parts.push(x)) == if parts.len() == 0 {
            x
        } else {
            join_amp(parts) + seq![0x26u8] + x
        },
    decreases parts.len(),
{
    if parts.len() == 0 {
        assert(parts.push(x).len() == 1);
        assert(parts.push(x)[0] == x);
    } else if parts.len() == 1 {
        assert(parts.push(x)[0] == parts[0]);
        assert(parts.push(x).drop_first() =~= seq![x]);
        assert(seq![x].len() == 1);
        assert(join_amp(seq![x]) == x);
    } else {
        assert(parts.push(x)[0] == parts[0]);
        assert(parts.push(x).drop_first() =~= parts.drop_first().push(x));
        lemma_join_amp_push(parts.drop_first(), x);
        assert(join_amp(parts.push(x)) =~= join_amp(parts) + seq![0x26u8] + x);
    }
}

proof fn lemma_encoded_pair_ascii(p: (Seq<u8>, Seq<u8>))
    ensures
        forall|i: int| 0 <= i < encoded_pair(p).len() ==> #[trigger] encoded_pair(p)[i] < 0x80,
{
    lemma_pct_encode_output_bytes(p.0);
    lemma_pct_encode_output_bytes(p.1);
    let e = encoded_pair(p);
    let k = pct_encode_bytes(p.0);
    let v = pct_encode_bytes(p.1);
    assert forall|i: int| 0 <= i < e.len() implies e[i] < 0x80 by {
        if i < k.len() {
            assert(e[i] == k[i]);
        } else if i == k.len() {
            assert(e[i] == 0x3du8);
        } else {
            assert(e[i] == v[i - k.len() - 1]);
        }
    }
}

proof fn lemma_join_amp_ascii(parts: Seq<Seq<u8>>)
    requires
        forall|i: int, j: int|
            0 <= i < parts.len() && 0 <= j < parts[i].len() ==> #[trigger] parts[i][j] < 0x80,
    ensures
        forall|k: int| 0 <= k < join_amp(parts).len() ==> #[trigger] join_amp(parts)[k] < 0x80,
    decreases parts.len(),
{
    if parts.len() <= 1 {
    } else {
        lemma_join_amp_ascii(parts.drop_first());
        let head = parts[0];
        let rest = join_amp(parts.drop_first());
        assert forall|k: int| 0 <= k < join_amp(parts).len() implies join_amp(parts)[k] < 0x80 by {
            if k < head.len() {
                assert(join_amp(parts)[k] == head[k]);
            } else if k == head.len() {
                assert(join_amp(parts)[k] == 0x26u8);
            } else {
                assert(join_amp(parts)[k] == rest[k - head.len() - 1]);
            }
        }
    }
}

/// Every byte of the normalized parameter string is ASCII.
pub proof fn lemma_param_string_ascii(params: Seq<(Seq<u8>, Seq<u8>)>)
    ensures
        forall|k: int| 0 <= k < param_string(params).len() ==> #[trigger] param_string(params)[k]
            < 0x80,
{
    broadcast use group_to_multiset_ensures;

    let f = |p: (Seq<u8>, Seq<u8>)| encoded_pair(p);
    let leq = bytes_le_order();
    let mapped = params.map_values(f);
    lemma_bytes_le_total_ordering();
    mapped.lemma_sort_by_ensures(leq);
    let sorted = mapped.sort_by(leq);
    assert forall|i: int, j: int|
        0 <= i < sorted.len() && 0 <= j < sorted[i].len() implies #[trigger] sorted[i][j]
        < 0x80 by {
        assert(sorted.contains(sorted[i]));
        assert(sorted.to_multiset().count(sorted[i]) > 0);
        assert(mapped.to_multiset().count(sorted[i]) > 0);
        assert(mapped.contains(sorted[i]));
        let m = choose|m: int| 0 <= m < mapped.len() && mapped[m] == sorted[i];
        assert(mapped[m] == encoded_pair(params[m]));
        lemma_encoded_pair_ascii(params[m]);
    }
    lemma_join_amp_ascii(sorted);
}

/// Byte-wise comparison of two byte vectors.
fn bytes_le_exec(a: &Vec<u8>, b: &Vec<u8>) -> (r: bool)
    ensures
        r == bytes_le(a@, b@),
{
    let mut i: usize = 0;
    proof {
        assert(a@.skip(0) =~= a@);
        assert(b@.skip(0) =~= b@);
    }
    while i < a.len() && i < b.len()
        invariant
            i <= a@.len(),
            i <= b@.len(),
            bytes_le(a@, b@) == bytes_le(a@.skip(i as int), b@.skip(i as int)),
        decreases a@.len() - i,
    {
        let x = a[i];
        let y = b[i];
        proof {
            assert(a@.skip(i as int)[0] == a@[i as int]);
            assert(b@.skip(i as int)[0] == b@[i as int]);
        }
        if x < y {
            return true;
        }
        if x > y {
            return false;
        }
        proof {
            assert(a@.skip(i as int).drop_first() =~= a@.skip(i + 1));
            assert(b@.skip(i as int).drop_first() =~= b@.skip(i + 1));
        }
        i = i + 1;
    }
    if i >= a.len() {
        proof {
            assert(a@.skip(i as int) =~= Seq::<u8>::empty());
        }
        true
    } else {
        proof {
            assert(b@.skip(i as int) =~= Seq::<u8>::empty());
            assert(a@.skip(i as int).len() > 0);
        }
        false
    }
}

/// The position before the first element that does not come at or
/// before `x` in byte-wise order.
fn find_insert_pos(v: &Vec<Vec<u8>>, x: &Vec<u8>) -> (j: usize)
    ensures
        j <= v@.len(),
        forall|k: int| 0 <= k < j ==> bytes_le(#[trigger] views_of(v@)[k], x@),
        j < v@.len() ==> !bytes_le(views_of(v@)[j as int], x@),
{
    let mut j: usize = 0;
    while j < v.len()
        invariant
            j <= v@.len(),
            forall|k: int| 0 <= k < j ==> bytes_le(#[trigger] views_of(v@)[k], x@),
        decreases v@.len() - j,
    {
        if !bytes_le_exec(&v[j], x) {
            return j;
        }
        proof {
            assert(views_of(v@)[j as int] == v@[j as int]@);
        }
        j = j + 1;
    }
    j
}

/// Insert into a sorted list of byte vectors, keeping it sorted.
fn insert_sorted(v: &mut Vec<Vec<u8>>, x: Vec<u8>)
    requires
        sorted_by(views_of(old(v)@), bytes_le_order()),
    ensures
        sorted_by(views_of(final(v)@), bytes_le_order()),
        views_of(final(v)@).to_multiset() == views_of(old(v)@).to_multiset().insert(x@),
{
    broadcast use group_to_multiset_ensures;
    broadcast use vstd::seq_lib::to_multiset_insert;

    let j = find_insert_pos(v, &x);
    let ghost before = views_of(v@);
    let ghost xv = x@;
    v.insert(j, x);
    proof {
        let after = views_of(v@);
        assert(after =~= before.insert(j as int, xv));
        assert(after.to_multiset() == before.to_multiset().insert(xv));
        let leq = bytes_le_order();
        if (j as int) < before.len() {
            lemma_bytes_le_connected(before[j as int], xv);
            assert(bytes_le(xv, before[j as int]));
        }
        assert forall|p: int, q: int| 0 <= p < q < after.len() implies #[trigger] leq(
            after[p],
            after[q],
        ) by {
            if q < j {
                assert(after[p] == before[p] && after[q] == before[q]);
                assert(leq(before[p], before[q]));
            } else if p < j && q == j {
                assert(after[p] == before[p] && after[q] == xv);
            } else if p < j && q > j {
                assert(after[p] == before[p] && after[q] == before[q - 1]);
                assert(leq(before[p], before[q - 1]));
            } else if p == j {
                assert(after[p] == xv && after[q] == before[q - 1]);
                assert(q - 1 >= j);
                if q - 1 == j {
                    assert(bytes_le(xv, before[j as int]));
                } else {
                    assert(leq(before[j as int], before[q - 1]));
                    lemma_bytes_le_trans(xv, before[j as int], before[q - 1]);
                }
            } else {
                assert(after[p] == before[p - 1] && after[q] == before[q - 1]);
                assert(leq(before[p - 1], before[q - 1]));
            }
        }
    }
}

/// Sort a list of byte vectors into byte-wise ascending order.
fn sort_encoded(items: Vec<Vec<u8>>) -> (r: Vec<Vec<u8>>)
    ensures
        sorted_by(views_of(r@), bytes_le_order()),
        views_of(r@).to_multiset() == views_of(items@).to_multiset(),
{
    broadcast use group_to_multiset_ensures;
    broadcast use vstd::multiset::group_multiset_axioms;

    let mut src = items;
    let mut out: Vec<Vec<u8>> = Vec::new();
    let ghost orig = views_of(src@);
    proof {
        assert(views_of(out@) =~= Seq::<Seq<u8>>::empty());
        assert(views_of(out@).to_multiset().add(views_of(src@).to_multiset())
            =~= orig.to_multiset());
    }
    while src.len() > 0
        invariant
            sorted_by(views_of(out@), bytes_le_order()),
            views_of(out@).to_multiset().add(views_of(src@).to_multiset()) == orig.to_multiset(),
        decreases src@.len(),
    {
        let ghost src_before = views_of(src@);
        let ghost out_before = views_of(out@);
        let x = src.pop().unwrap();
        proof {
            assert(src_before =~= views_of(src@).push(x@));
            vstd::seq_lib::to_multiset_build(views_of(src@), x@);
            assert(src_before.to_multiset() == views_of(src@).to_multiset().insert(x@));
        }
        insert_sorted(&mut out, x);
        proof {
            assert(views_of(out@).to_multiset().add(views_of(src@).to_multiset()) =~= out_before
                .to_multiset().add(src_before.to_multiset()));
        }
    }
    proof {
        assert(views_of(src@).to_multiset().len() == 0);
        assert(views_of(out@).to_multiset().add(views_of(src@).to_multiset()) =~= views_of(
            out@,
        ).to_multiset());
    }
    out
}

/// Percent-encode every key and value of a parameter list, keeping the
/// order of the pairs.
pub fn encode_parameters(parameters: &Vec<(String, String)>) -> (r: Vec<(String, String)>)
    ensures
        r@.len() == parameters@.len(),
        forall|i: int|
            0 <= i < r@.len() ==> (#[trigger] r@[i]).0@ == pct_encode_str(parameters@[i].0@)
                && r@[i].1@ == pct_encode_str(parameters@[i].1@),
        forall|i: int|
            0 <= i < r@.len() ==> encode_utf8((#[trigger] r@[i]).0@) == pct_encode_bytes(
                encode_utf8(parameters@[i].0@),
            ) && encode_utf8(r@[i].1@) == pct_encode_bytes(encode_utf8(parameters@[i].1@)),
{
    let mut r: Vec<(String, String)> = Vec::new();
    let mut i: usize = 0;
    while i < parameters.len()
        invariant
            i <= parameters@.len(),
            r@.len() == i,
            forall|k: int|
                0 <= k < i ==> (#[trigger] r@[k]).0@ == pct_encode_str(parameters@[k].0@)
                    && r@[k].1@ == pct_encode_str(parameters@[k].1@),
            forall|k: int|
                0 <= k < i ==> encode_utf8((#[trigger] r@[k]).0@) == pct_encode_bytes(
                    encode_utf8(parameters@[k].0@),
                ) && encode_utf8(r@[k].1@) == pct_encode_bytes(encode_utf8(parameters@[k].1@)),
        decreases parameters@.len() - i,
    {
        let key = url_encode(parameters[i].0.as_str());
        let value = url_encode(parameters[i].1.as_str());
        r.push((key, value));
        i = i + 1;
    }
    r
}

/// Build the normalized parameter string: encode, join as
/// `key=value`, sort byte-wise, join with `&`. The empty list yields
/// the empty string.
pub fn parameters_to_parameter_string(parameters: &Vec<(String, String)>) -> (r: String)
    ensures
        encode_utf8(r@) == param_string(params_bytes(parameters@)),
        r@ == decode_utf8(param_string(params_bytes(parameters@))),
{
    let ghost f = |p: (Seq<u8>, Seq<u8>)| encoded_pair(p);
    let ghost pbytes = params_bytes(parameters@);
    let mut items: Vec<Vec<u8>> = Vec::new();
    let mut i: usize = 0;
    proof {
        assert(views_of(items@) =~= pbytes.map_values(f).take(0));
    }
    while i < parameters.len()
        invariant
            i <= parameters@.len(),
            pbytes == params_bytes(parameters@),
            f == (|p: (Seq<u8>, Seq<u8>)| encoded_pair(p)),
            views_of(items@) == pbytes.map_values(f).take(i as int),
        decreases parameters@.len() - i,
    {
        let kb = parameters[i].0.as_str().as_bytes_vec();
        let mut item = percent_encode_bytes(kb.as_slice());
        item.push(0x3d);
        let vb = parameters[i].1.as_str().as_bytes_vec();
        let mut enc_value = percent_encode_bytes(vb.as_slice());
        item.append(&mut enc_value);
        proof {
            assert(item@ =~= encoded_pair(pbytes[i as int]));
        }
        let ghost prev = views_of(items@);
        items.push(item);
        proof {
            assert(views_of(items@) =~= prev.push(item@));
            assert(pbytes.map_values(f)[i as int] == f(pbytes[i as int]));
            assert(f(pbytes[i as int]) == encoded_pair(pbytes[i as int]));
            assert(pbytes.map_values(f).take(i + 1) =~= pbytes.map_values(f).take(i as int).push(
                pbytes.map_values(f)[i as int],
            ));
            assert(views_of(items@) =~= pbytes.map_values(f).take(i + 1));
        }
        i = i + 1;
    }
    proof {
        assert(pbytes.map_values(f).take(pbytes.len() as int) =~= pbytes.map_values(f));
    }
    let sorted = sort_encoded(items);
    proof {
        let leq = bytes_le_order();
        lemma_bytes_le_total_ordering();
        pbytes.map_values(f).lemma_sort_by_ensures(leq);
        lemma_sorted_unique(views_of(sorted@), pbytes.map_values(f).sort_by(leq), leq);
        assert(views_of(sorted@) == pbytes.map_values(f).sort_by(leq));
    }
    let ghost sorted_views = views_of(sorted@);
    let mut out: Vec<u8> = Vec::new();
    let mut i: usize = 0;
    proof {
        assert(out@ =~= join_amp(sorted_views.take(0)));
    }
    while i < sorted.len()
        invariant
            i <= sorted@.len(),
            sorted_views == views_of(sorted@),
            out@ == join_amp(sorted_views.take(i as int)),
        decreases sorted@.len() - i,
    {
        if i > 0 {
            out.push(0x26);
        }
        let mut j: usize = 0;
        let ghost mid = out@;
        while j < sorted[i].len()
            invariant
                i < sorted@.len(),
                j <= sorted@[i as int]@.len(),
                out@ == mid + sorted@[i as int]@.take(j as int),
            decreases sorted@[i as int]@.len() - j,
        {
            let b = sorted[i][j];
            out.push(b);
            proof {
                assert(sorted@[i as int]@.take(j + 1) =~= sorted@[i as int]@.take(j as int).push(
                    sorted@[i as int]@[j as int],
                ));
                assert(out@ =~= mid + sorted@[i as int]@.take(j + 1));
            }
            j = j + 1;
        }
        proof {
            assert(sorted@[i as int]@.take(sorted@[i as int]@.len() as int) =~= sorted@[i as int]@);
            assert(sorted_views.take(i + 1) =~= sorted_views.take(i as int).push(
                sorted_views[i as int],
            ));
            lemma_join_amp_push(sorted_views.take(i as int), sorted_views[i as int]);
            if i == 0 {
                assert(out@ =~= join_amp(sorted_views.take(1)));
            } else {
                assert(out@ =~= join_amp(sorted_views.take(i as int)) + seq![0x26u8]
                    + sorted_views[i as int]);
            }
        }
        i = i + 1;
    }
    proof {
        assert(sorted_views.take(sorted_views.len() as int) =~= sorted_views);
        assert(out@ == param_string(pbytes));
        lemma_param_string_ascii(pbytes);
        lemma_ascii_bytes_valid_utf8(out@);
    }
    let r = string_from_utf8(out);
    proof {
        vstd::utf8::encode_utf8_decode_utf8(r@);
    }
    r
}

} // verus!
