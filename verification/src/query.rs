//! `application/x-www-form-urlencoded` query strings.

use vstd::prelude::*;
use vstd::utf8::{decode_utf8, encode_scalar, encode_utf8};
use crate::number::digit_char;
use crate::strings::{before_char, push_char, push_str, split_on};

verus! {

/// Bytes that the form encoding keeps as they are: `*`, `-`, `.`, `_` and ASCII letters and digits.
pub open spec fn form_unchanged(b: u8) -> bool {
    b == 42 || b == 45 || b == 46 || b == 95 || (48 <= b && b <= 57) || (65 <= b && b <= 90) || (97
        <= b && b <= 122)
}

/// An upper-case hexadecimal digit.
pub open spec fn hex_upper(d: nat) -> char {
    if d < 10 {
        digit_char(d)
    } else if d == 10 {
        'A'
    } else if d == 11 {
        'B'
    } else if d == 12 {
        'C'
    } else if d == 13 {
        'D'
    } else if d == 14 {
        'E'
    } else {
        'F'
    }
}

/// The form encoding of one byte: kept, `+` for a space, or `%` and two upper-case hex digits.
pub open spec fn form_byte(b: u8) -> Seq<char> {
    if form_unchanged(b) {
        seq![b as char]
    } else if b == 32 {
        seq!['+']
    } else {
        seq!['%', hex_upper((b / 16) as nat), hex_upper((b % 16) as nat)]
    }
}

/// The form encoding of a byte string, byte by byte.
pub open spec fn form_bytes(bs: Seq<u8>) -> Seq<char>
    decreases bs.len(),
{
    if bs.len() == 0 {
        Seq::<char>::empty()
    } else {
        form_bytes(bs.drop_last()) + form_byte(bs.last())
    }
}

/// The form encoding of a text: the encoding of its UTF-8 bytes.
pub open spec fn form_urlencoded(s: Seq<char>) -> Seq<char> {
    form_bytes(encode_utf8(s))
}

/// Form-encodes a text (`url::form_urlencoded::byte_serialize` over its UTF-8 bytes).
///
/// The contract states the whole encoding as the crate's source performs it:
/// every byte outside `*-._0-9A-Za-z` becomes `+` (a space) or `%XX` in upper-case hex.
#[verifier::external_body]
fn form_urlencode(s: &str) -> (r: String)
    ensures
        r@ == form_urlencoded(s@),
{
    url::form_urlencoded::byte_serialize(s.as_bytes()).collect()
}

/// One `name=value` pair of a query, both parts encoded.
pub open spec fn pair_text(name: Seq<char>, value: Seq<char>) -> Seq<char> {
    form_urlencoded(name) + seq!['='] + form_urlencoded(value)
}

/// A query: the encoded pairs in order, separated by `&`.
pub open spec fn query_text(pairs: Seq<(Seq<char>, Seq<char>)>) -> Seq<char>
    decreases pairs.len(),
{
    if pairs.len() == 0 {
        Seq::<char>::empty()
    } else if pairs.len() == 1 {
        pair_text(pairs[0].0, pairs[0].1)
    } else {
        query_text(pairs.drop_last()) + seq!['&'] + pair_text(pairs.last().0, pairs.last().1)
    }
}

/// The views of a list of string pairs.
pub open spec fn pairs_view(params: Seq<(&str, &str)>) -> Seq<(Seq<char>, Seq<char>)> {
    params.map_values(|p: (&str, &str)| (p.0@, p.1@))
}

/// Serialises name/value pairs as an `application/x-www-form-urlencoded` query.
pub fn build_query(params: Vec<(&str, &str)>) -> (r: String)
    ensures
        r@ == query_text(pairs_view(params@)),
{
    let ghost pv = pairs_view(params@);
    let mut r = String::new();
    let mut i: usize = 0;
    while i < params.len()
        invariant
            pv == pairs_view(params@),
            i <= params@.len(),
            r@ == query_text(pv.take(i as int)),
            r@.len() == 0 <==> i == 0,
        decreases params.len() - i,
    {
        let (name, value) = params[i];
        if i > 0 {
            push_char(&mut r, '&');
        }
        let en = form_urlencode(name);
        let ev = form_urlencode(value);
        push_str(&mut r, &en);
        push_char(&mut r, '=');
        push_str(&mut r, &ev);
        proof {
            let t = pv.take(i + 1);
            assert(t.drop_last() == pv.take(i as int));
            assert(t.last() == (name@, value@));
            if i == 0 {
                assert(r@ =~= pair_text(name@, value@));
            } else {
                assert(r@ =~= query_text(pv.take(i as int)) + seq!['&'] + pair_text(name@, value@));
            }
        }
        i = i + 1;
    }
    assert(pv.take(params@.len() as int) == pv);
    r
}

/// No `&` or `=` appears in a form encoding.
pub open spec fn free_of(s: Seq<char>, c: char) -> bool {
    forall|i: int| 0 <= i < s.len() ==> s[i] != c
}

proof fn lemma_form_byte_free(b: u8)
    ensures
        free_of(form_byte(b), '&'),
        free_of(form_byte(b), '='),
{
    if form_unchanged(b) {
        assert((b as char) != '&' && (b as char) != '=');
    }
}

/// The encoding of any text contains neither `&` nor `=`.
pub proof fn lemma_form_encoding_has_no_separators(bs: Seq<u8>)
    ensures
        free_of(form_bytes(bs), '&'),
        free_of(form_bytes(bs), '='),
    decreases bs.len(),
{
    if bs.len() > 0 {
        lemma_form_encoding_has_no_separators(bs.drop_last());
        lemma_form_byte_free(bs.last());
        let a = form_bytes(bs.drop_last());
        let b = form_byte(bs.last());
        assert forall|i: int| 0 <= i < (a + b).len() implies (a + b)[i] != '&' && (a + b)[i] != '=' by {
            if i < a.len() {
                assert((a + b)[i] == a[i]);
            } else {
                assert((a + b)[i] == b[i - a.len()]);
            }
        }
    }
}

/// Splitting a text free of the separator gives the text itself.
proof fn lemma_split_free(s: Seq<char>, sep: char)
    requires
        free_of(s, sep),
    ensures
        split_on(s, sep) == seq![s],
    decreases s.len(),
{
    if s.len() > 0 {
        let t = s.drop_last();
        assert(free_of(t, sep)) by {
            assert forall|i: int| 0 <= i < t.len() implies t[i] != sep by {
                assert(t[i] == s[i]);
            }
        }
        lemma_split_free(t, sep);
        assert(s.last() != sep);
        assert(t.push(s.last()) == s);
    } else {
        assert(s =~= Seq::<char>::empty());
    }
}

/// Splitting `a`, the separator, then a separator-free `b`: the pieces of `a`, then `b`.
proof fn lemma_split_append(a: Seq<char>, sep: char, b: Seq<char>)
    requires
        free_of(b, sep),
    ensures
        split_on(a + seq![sep] + b, sep) == split_on(a, sep).push(b),
    decreases b.len(),
{
    if b.len() == 0 {
        let s = a + seq![sep];
        assert(s.drop_last() == a);
        assert(b =~= Seq::<char>::empty());
        assert(a + seq![sep] + b =~= s);
    } else {
        let b0 = b.drop_last();
        assert(free_of(b0, sep)) by {
            assert forall|i: int| 0 <= i < b0.len() implies b0[i] != sep by {
                assert(b0[i] == b[i]);
            }
        }
        lemma_split_append(a, sep, b0);
        let s = a + seq![sep] + b;
        assert(s.drop_last() == a + seq![sep] + b0);
        assert(s.last() == b.last());
        assert(b.last() != sep);
        assert(b0.push(b.last()) =~= b);
        let r = split_on(a, sep).push(b0);
        assert(split_on(s, sep) == r.update(r.len() - 1, r.last().push(s.last())));
        assert(r.update(r.len() - 1, r.last().push(s.last())) =~= split_on(a, sep).push(b));
    }
}

/// A built query is unambiguous: it splits on `&` into one piece per pair, in order,
/// and each piece splits on `=` into the encoded name and the encoded value.
pub proof fn lemma_query_splits_into_pairs(pairs: Seq<(Seq<char>, Seq<char>)>)
    requires
        pairs.len() > 0,
    ensures
        split_on(query_text(pairs), '&') == pairs.map_values(
            |p: (Seq<char>, Seq<char>)| pair_text(p.0, p.1),
        ),
        forall|i: int|
            0 <= i < pairs.len() ==> split_on(#[trigger] pair_text(pairs[i].0, pairs[i].1), '=')
                == seq![form_urlencoded(pairs[i].0), form_urlencoded(pairs[i].1)],
    decreases pairs.len(),
{
    let f = |p: (Seq<char>, Seq<char>)| pair_text(p.0, p.1);
    let last = pairs.last();
    lemma_form_encoding_has_no_separators(encode_utf8(last.0));
    lemma_form_encoding_has_no_separators(encode_utf8(last.1));
    let pl = pair_text(last.0, last.1);
    assert(free_of(pl, '&')) by {
        let a = form_urlencoded(last.0);
        let b = form_urlencoded(last.1);
        assert forall|i: int| 0 <= i < pl.len() implies pl[i] != '&' by {
            if i < a.len() {
                assert(pl[i] == a[i]);
            } else if i > a.len() {
                assert(pl[i] == b[i - a.len() - 1]);
            }
        }
    }
    if pairs.len() == 1 {
        lemma_split_free(pl, '&');
        assert(pairs.map_values(f) =~= seq![pl]);
    } else {
        lemma_query_splits_into_pairs(pairs.drop_last());
        lemma_split_append(query_text(pairs.drop_last()), '&', pl);
        assert(pairs.map_values(f) =~= pairs.drop_last().map_values(f).push(pl));
    }
    assert forall|i: int| 0 <= i < pairs.len() implies split_on(
        #[trigger] pair_text(pairs[i].0, pairs[i].1),
        '=',
    ) == seq![form_urlencoded(pairs[i].0), form_urlencoded(pairs[i].1)] by {
        let a = form_urlencoded(pairs[i].0);
        let b = form_urlencoded(pairs[i].1);
        lemma_form_encoding_has_no_separators(encode_utf8(pairs[i].0));
        lemma_form_encoding_has_no_separators(encode_utf8(pairs[i].1));
        lemma_split_free(a, '=');
        lemma_split_append(a, '=', b);
    }
}

// ---------------------------------------------------------------------------
// Reading a query back.
// ---------------------------------------------------------------------------

/// The value of a hexadecimal digit (either case).
pub open spec fn hex_value(c: char) -> Option<nat> {
    if '0' <= c <= '9' {
        Some((c as u32 - 48) as nat)
    } else if 'A' <= c <= 'F' {
        Some((c as u32 - 55) as nat)
    } else if 'a' <= c <= 'f' {
        Some((c as u32 - 87) as nat)
    } else {
        None
    }
}

/// The bytes a character stands for in a form-encoded text: its UTF-8 encoding.
pub open spec fn char_bytes(c: char) -> Seq<u8> {
    encode_utf8(seq![c])
}

/// The bytes of a form-encoded text, read from the front: `+` is a space, `%` and two
/// hex digits is that byte, and any other character is its own UTF-8 bytes.
pub open spec fn unform_bytes(cs: Seq<char>) -> Seq<u8>
    decreases cs.len(),
{
    if cs.len() == 0 {
        Seq::<u8>::empty()
    } else if cs[0] == '+' {
        seq![32u8] + unform_bytes(cs.drop_first())
    } else if cs[0] == '%' && cs.len() >= 3 && hex_value(cs[1]) is Some && hex_value(cs[2]) is Some {
        seq![(hex_value(cs[1])->0 * 16 + hex_value(cs[2])->0) as u8] + unform_bytes(cs.skip(3))
    } else {
        char_bytes(cs[0]) + unform_bytes(cs.drop_first())
    }
}

/// The text a form-encoded text stands for: its bytes read as UTF-8.
pub open spec fn form_decoded(cs: Seq<char>) -> Seq<char> {
    decode_utf8(unform_bytes(cs))
}

/// One piece of a query read as a pair: the decoded text before the first `=`, and the
/// decoded text after it (empty when there is no `=`).
pub open spec fn decode_pair(piece: Seq<char>) -> (Seq<char>, Seq<char>) {
    let name = before_char(piece, '=');
    let value = if piece.contains('=') {
        piece.skip(name.len() + 1int)
    } else {
        Seq::<char>::empty()
    };
    (form_decoded(name), form_decoded(value))
}

/// The pairs of the pieces of a query, empty pieces skipped.
pub open spec fn decode_pieces(ps: Seq<Seq<char>>) -> Seq<(Seq<char>, Seq<char>)>
    decreases ps.len(),
{
    if ps.len() == 0 {
        Seq::empty()
    } else if ps.last().len() == 0 {
        decode_pieces(ps.drop_last())
    } else {
        decode_pieces(ps.drop_last()).push(decode_pair(ps.last()))
    }
}

/// A query read as `application/x-www-form-urlencoded`: its pieces between `&`, empty
/// ones skipped, each read as a pair.
pub open spec fn decode_query(q: Seq<char>) -> Seq<(Seq<char>, Seq<char>)> {
    decode_pieces(split_on(q, '&'))
}

proof fn lemma_form_bytes_concat(a: Seq<u8>, b: Seq<u8>)
    ensures
        form_bytes(a + b) == form_bytes(a) + form_bytes(b),
    decreases b.len(),
{
    if b.len() == 0 {
        assert(a + b =~= a);
    } else {
        lemma_form_bytes_concat(a, b.drop_last());
        assert((a + b).drop_last() =~= a + b.drop_last());
        assert((a + b).last() == b.last());
    }
}

proof fn lemma_hex_upper_value(d: nat)
    requires
        d < 16,
    ensures
        hex_value(hex_upper(d)) == Some(d),
{
}

proof fn lemma_unform_byte(b: u8, rest: Seq<char>)
    ensures
        unform_bytes(form_byte(b) + rest) == seq![b] + unform_bytes(rest),
{
    let cs = form_byte(b) + rest;
    if form_unchanged(b) {
        let c = b as char;
        assert(cs[0] == c);
        assert(c != '+' && c != '%');
        assert(cs.drop_first() =~= rest);
        assert(char_bytes(c) =~= seq![b]) by {
            let u = c as u32;
            assert(u == b as u32);
            assert(u < 128 ==> (u & 0x7F) as u8 == u as u8) by (bit_vector);
            assert(seq![c][0] == c);
            assert(seq![c].drop_first() =~= Seq::<char>::empty());
            assert(encode_utf8(Seq::<char>::empty()) == Seq::<u8>::empty());
            assert(encode_scalar(u) == seq![b]);
        }
    } else if b == 32 {
        assert(cs.drop_first() =~= rest);
    } else {
        lemma_hex_upper_value((b / 16) as nat);
        lemma_hex_upper_value((b % 16) as nat);
        assert(cs[0] == '%');
        assert(cs[1] == hex_upper((b / 16) as nat));
        assert(cs[2] == hex_upper((b % 16) as nat));
        assert(cs.skip(3) =~= rest);
        assert((b / 16) * 16 + b % 16 == b);
    }
}

proof fn lemma_unform_form(bs: Seq<u8>)
    ensures
        unform_bytes(form_bytes(bs)) == bs,
    decreases bs.len(),
{
    if bs.len() == 0 {
        assert(unform_bytes(Seq::<char>::empty()) == Seq::<u8>::empty());
    } else {
        let rest = bs.drop_first();
        assert(bs =~= seq![bs[0]] + rest);
        lemma_form_bytes_concat(seq![bs[0]], rest);
        assert(seq![bs[0]].drop_last() =~= Seq::<u8>::empty());
        assert(seq![bs[0]].last() == bs[0]);
        assert(form_bytes(seq![bs[0]].drop_last()) == Seq::<char>::empty());
        assert(form_bytes(seq![bs[0]]) =~= form_byte(bs[0]));
        lemma_unform_form(rest);
        lemma_unform_byte(bs[0], form_bytes(rest));
    }
}

/// Decoding the form encoding of a text gives the text back.
pub proof fn lemma_form_round_trip(s: Seq<char>)
    ensures
        form_decoded(form_urlencoded(s)) == s,
{
    lemma_unform_form(encode_utf8(s));
    vstd::utf8::encode_utf8_decode_utf8(s);
}

proof fn lemma_before_sep(a: Seq<char>, b: Seq<char>)
    requires
        free_of(a, '='),
    ensures
        before_char(a + seq!['='] + b, '=') == a,
    decreases a.len(),
{
    let s = a + seq!['='] + b;
    if a.len() == 0 {
        assert(s[0] == '=');
    } else {
        let a1 = a.drop_first();
        assert(free_of(a1, '=')) by {
            assert forall|i: int| 0 <= i < a1.len() implies a1[i] != '=' by {
                assert(a1[i] == a[i + 1]);
            }
        }
        lemma_before_sep(a1, b);
        assert(s[0] == a[0]);
        assert(s.drop_first() =~= a1 + seq!['='] + b);
        assert(a =~= seq![a[0]] + a1);
    }
}

proof fn lemma_decode_pair_text(name: Seq<char>, value: Seq<char>)
    ensures
        decode_pair(pair_text(name, value)) == (name, value),
{
    let a = form_urlencoded(name);
    let b = form_urlencoded(value);
    let p = pair_text(name, value);
    lemma_form_encoding_has_no_separators(encode_utf8(name));
    lemma_before_sep(a, b);
    assert(p[a.len() as int] == '=');
    assert(p.contains('='));
    assert(p.skip(a.len() + 1int) =~= b);
    lemma_form_round_trip(name);
    lemma_form_round_trip(value);
}

proof fn lemma_decode_pieces_of_pairs(pairs: Seq<(Seq<char>, Seq<char>)>)
    ensures
        decode_pieces(pairs.map_values(|p: (Seq<char>, Seq<char>)| pair_text(p.0, p.1))) == pairs,
    decreases pairs.len(),
{
    let f = |p: (Seq<char>, Seq<char>)| pair_text(p.0, p.1);
    let ps = pairs.map_values(f);
    if pairs.len() == 0 {
        assert(ps.len() == 0);
        assert(decode_pieces(ps) =~= pairs);
    } else {
        lemma_decode_pieces_of_pairs(pairs.drop_last());
        assert(ps.drop_last() =~= pairs.drop_last().map_values(f));
        let last = pairs.last();
        assert(ps.last() == pair_text(last.0, last.1));
        assert(ps.last()[form_urlencoded(last.0).len() as int] == '=');
        lemma_decode_pair_text(last.0, last.1);
        assert(pairs.drop_last().push(last) =~= pairs);
    }
}

/// A built query reads back as the pairs it was built from, in order: decoding undoes
/// `build_query` for any names and values.
pub proof fn lemma_query_round_trip(pairs: Seq<(Seq<char>, Seq<char>)>)
    ensures
        decode_query(query_text(pairs)) == pairs,
{
    if pairs.len() == 0 {
        assert(query_text(pairs) =~= Seq::<char>::empty());
        let ps = split_on(Seq::<char>::empty(), '&');
        assert(ps == seq![Seq::<char>::empty()]);
        assert(ps.len() == 1);
        assert(ps.last() == Seq::<char>::empty());
        assert(ps.drop_last() =~= Seq::<Seq<char>>::empty());
        assert(decode_pieces(ps.drop_last()) == Seq::<(Seq<char>, Seq<char>)>::empty());
        assert(decode_pieces(ps) =~= pairs);
    } else {
        lemma_query_splits_into_pairs(pairs);
        lemma_decode_pieces_of_pairs(pairs);
    }
}

} // verus!
