//! Character-level helpers over `str` and `String`, specified by their views.

use vstd::prelude::*;

verus! {

/// Appends one character to a string (`String::push`).
#[verifier::external_body]
pub(crate) fn push_char(s: &mut String, c: char)
    ensures
        final(s)@ == old(s)@.push(c),
{
    s.push(c);
}

/// Appends a string slice to a string.
pub(crate) fn push_str(s: &mut String, t: &str)
    ensures
        final(s)@ == old(s)@ + t@,
{
    s.append(t);
}

/// The characters of a string slice, in order.
pub fn chars_of(s: &str) -> (r: Vec<char>)
    ensures
        r@ == s@,
{
    let mut r: Vec<char> = Vec::new();
    for c in it: s.chars()
        invariant
            r@ == it.seq().take(it.index()),
    {
        r.push(c);
    }
    r
}

/// A string made of the given characters.
pub fn string_from_chars(cs: &[char]) -> (r: String)
    ensures
        r@ == cs@,
{
    let mut r = String::new();
    let mut i: usize = 0;
    while i < cs.len()
        invariant
            i <= cs.len(),
            r@ == cs@.take(i as int),
        decreases cs.len() - i,
    {
        push_char(&mut r, cs[i]);
        assert(cs@.take(i + 1) == cs@.take(i as int).push(cs@[i as int]));
        i = i + 1;
    }
    assert(cs@.take(cs@.len() as int) == cs@);
    r
}

/// The concatenation of two string slices.
pub fn concatenate(a: &str, b: &str) -> (r: String)
    ensures
        r@ == a@ + b@,
{
    let mut r = String::new();
    push_str(&mut r, a);
    push_str(&mut r, b);
    r
}

/// `p` is a prefix of `s`.
pub open spec fn has_prefix(s: Seq<char>, p: Seq<char>) -> bool {
    p.len() <= s.len() && s.subrange(0, p.len() as int) == p
}

/// `p` is a suffix of `s`.
pub open spec fn has_suffix(s: Seq<char>, p: Seq<char>) -> bool {
    p.len() <= s.len() && s.subrange(s.len() - p.len(), s.len() as int) == p
}

/// `p` occurs in `s` starting at position `i`.
pub open spec fn occurs_at(s: Seq<char>, p: Seq<char>, i: int) -> bool {
    0 <= i && i + p.len() <= s.len() && s.subrange(i, i + p.len()) == p
}

/// `p` occurs somewhere in `s` (the empty pattern occurs in every string).
pub open spec fn has_infix(s: Seq<char>, p: Seq<char>) -> bool {
    exists|i: int| occurs_at(s, p, i)
}

/// `p` occurs in `s` at position `i`, checked character by character.
fn matches_at(s: &Vec<char>, p: &Vec<char>, i: usize) -> (r: bool)
    requires
        i + p@.len() <= s@.len(),
    ensures
        r == occurs_at(s@, p@, i as int),
{
    let n = s.len();
    let mut j: usize = 0;
    while j < p.len()
        invariant
            n == s@.len(),
            i + p@.len() <= s@.len(),
            j <= p@.len(),
            forall|k: int| 0 <= k < j ==> s@[i + k] == p@[k],
        decreases p.len() - j,
    {
        if s[i + j] != p[j] {
            assert(s@.subrange(i as int, i + p@.len())[j as int] != p@[j as int]);
            return false;
        }
        j = j + 1;
    }
    assert(s@.subrange(i as int, i + p@.len()) =~= p@);
    true
}

/// Whether the slice starts with the given prefix (`str::starts_with`).
pub fn starts_with(s: &str, p: &str) -> (r: bool)
    ensures
        r == has_prefix(s@, p@),
{
    let sv = chars_of(s);
    let pv = chars_of(p);
    if pv.len() > sv.len() {
        return false;
    }
    matches_at(&sv, &pv, 0)
}

/// Whether the slice ends with the given suffix (`str::ends_with`).
pub fn ends_with(s: &str, p: &str) -> (r: bool)
    ensures
        r == has_suffix(s@, p@),
{
    let sv = chars_of(s);
    let pv = chars_of(p);
    if pv.len() > sv.len() {
        return false;
    }
    matches_at(&sv, &pv, sv.len() - pv.len())
}

/// Whether the pattern occurs anywhere in the slice (`str::contains`).
pub fn contains(s: &str, p: &str) -> (r: bool)
    ensures
        r == has_infix(s@, p@),
{
    let sv = chars_of(s);
    let pv = chars_of(p);
    if pv.len() > sv.len() {
        assert(!has_infix(s@, p@));
        return false;
    }
    let last = sv.len() - pv.len();
    let mut i: usize = 0;
    loop
        invariant
            sv@ == s@,
            pv@ == p@,
            last == sv@.len() - pv@.len(),
            i <= last,
            forall|k: int| 0 <= k < i ==> !occurs_at(s@, p@, k),
        ensures
            forall|k: int| 0 <= k <= last ==> !occurs_at(s@, p@, k),
        decreases last - i,
    {
        if matches_at(&sv, &pv, i) {
            return true;
        }
        if i == last {
            break;
        }
        i = i + 1;
    }
    assert forall|k: int| !occurs_at(s@, p@, k) by {
        if 0 <= k <= last {
        }
    }
    false
}

/// Whether two slices hold the same characters (`==` on `str`).
pub fn str_eq(a: &str, b: &str) -> (r: bool)
    ensures
        r == (a@ == b@),
{
    let av = chars_of(a);
    let bv = chars_of(b);
    if av.len() != bv.len() {
        return false;
    }
    let r = matches_at(&av, &bv, 0);
    assert(av@.subrange(0, bv@.len() as int) =~= av@);
    r
}

/// The pieces of `s` between the occurrences of `sep`, built left to right:
/// `split_on("a,b,", ',')` is `["a", "b", ""]` and the empty string gives `[""]`.
pub open spec fn split_on(s: Seq<char>, sep: char) -> Seq<Seq<char>>
    decreases s.len(),
{
    if s.len() == 0 {
        seq![Seq::<char>::empty()]
    } else {
        let r = split_on(s.drop_last(), sep);
        if s.last() == sep {
            r.push(Seq::<char>::empty())
        } else {
            r.update(r.len() - 1, r.last().push(s.last()))
        }
    }
}

/// A split always has at least one piece.
pub proof fn lemma_split_on_nonempty(s: Seq<char>, sep: char)
    ensures
        split_on(s, sep).len() >= 1,
    decreases s.len(),
{
    if s.len() > 0 {
        lemma_split_on_nonempty(s.drop_last(), sep);
    }
}

/// The pieces of `s` between occurrences of `sep` (`str::split` with a character).
pub fn split_on_char(s: &str, sep: char) -> (r: Vec<String>)
    ensures
        r@.len() == split_on(s@, sep).len(),
        forall|i: int| 0 <= i < r@.len() ==> #[trigger] r@[i]@ == split_on(s@, sep)[i],
{
    let sv = chars_of(s);
    let mut done: Vec<String> = Vec::new();
    let mut cur: Vec<char> = Vec::new();
    let mut i: usize = 0;
    while i < sv.len()
        invariant
            sv@ == s@,
            i <= sv@.len(),
            split_on(s@.take(i as int), sep).len() == done@.len() + 1,
            forall|k: int| 0 <= k < done@.len() ==> #[trigger] done@[k]@ == split_on(s@.take(i as int), sep)[k],
            cur@ == split_on(s@.take(i as int), sep).last(),
        decreases sv.len() - i,
    {
        assert(s@.take(i + 1).drop_last() == s@.take(i as int));
        if sv[i] == sep {
            let piece = string_from_chars(cur.as_slice());
            done.push(piece);
            cur = Vec::new();
        } else {
            cur.push(sv[i]);
        }
        i = i + 1;
    }
    let piece = string_from_chars(cur.as_slice());
    done.push(piece);
    assert(s@.take(sv@.len() as int) == s@);
    done
}

/// The characters of `s` before the first occurrence of `c` (all of `s` when `c` does not occur).
pub open spec fn before_char(s: Seq<char>, c: char) -> Seq<char>
    decreases s.len(),
{
    if s.len() == 0 {
        s
    } else if s[0] == c {
        Seq::<char>::empty()
    } else {
        seq![s[0]] + before_char(s.drop_first(), c)
    }
}

/// `before_char` is a prefix, and is followed by `c` whenever `c` occurs.
pub proof fn lemma_before_char(s: Seq<char>, c: char)
    ensures
        before_char(s, c).len() <= s.len(),
        s.subrange(0, before_char(s, c).len() as int) == before_char(s, c),
        forall|k: int| 0 <= k < before_char(s, c).len() ==> s[k] != c,
        s.contains(c) ==> before_char(s, c).len() < s.len() && s[before_char(s, c).len() as int] == c,
        !s.contains(c) ==> before_char(s, c) == s,
    decreases s.len(),
{
    if s.len() > 0 && s[0] != c {
        lemma_before_char(s.drop_first(), c);
        let t = s.drop_first();
        assert forall|k: int| 0 <= k < before_char(s, c).len() implies s[k] != c by {
            if k > 0 {
                assert(before_char(s, c)[k] == before_char(t, c)[k - 1]);
                assert(s[k] == t[k - 1]);
            }
        }
        assert(s.subrange(0, before_char(s, c).len() as int) =~= before_char(s, c));
        if s.contains(c) {
            let j = choose|j: int| 0 <= j < s.len() && s[j] == c;
            assert(t[j - 1] == c);
            assert(t.contains(c));
        }
        if !s.contains(c) {
            assert forall|j: int| 0 <= j < t.len() implies t[j] != c by {
                assert(s[j + 1] == t[j]);
            }
            assert(!t.contains(c));
            assert(before_char(s, c) =~= s);
        }
    } else if s.len() > 0 {
        assert(s.contains(c)) by {
            assert(s[0] == c);
        }
    }
}

/// The characters of `v` from `start` up to, not including, the first `c` at or after `start`.
fn piece_until(v: &Vec<char>, start: usize, c: char) -> (r: Vec<char>)
    requires
        start <= v@.len(),
    ensures
        r@ == before_char(v@.skip(start as int), c),
{
    let mut r: Vec<char> = Vec::new();
    let mut i: usize = start;
    proof {
        lemma_before_char(v@.skip(start as int), c);
    }
    while i < v.len() && v[i] != c
        invariant
            start <= i <= v@.len(),
            r@ == v@.subrange(start as int, i as int),
            forall|k: int| start <= k < i ==> v@[k] != c,
            before_char(v@.skip(start as int), c).len() <= v@.len() - start,
            v@.skip(start as int).subrange(0, before_char(v@.skip(start as int), c).len() as int)
                == before_char(v@.skip(start as int), c),
            forall|k: int| 0 <= k < before_char(v@.skip(start as int), c).len() ==> v@.skip(start as int)[k] != c,
            v@.skip(start as int).contains(c) ==> before_char(v@.skip(start as int), c).len() < v@.len() - start
                && v@.skip(start as int)[before_char(v@.skip(start as int), c).len() as int] == c,
            !v@.skip(start as int).contains(c) ==> before_char(v@.skip(start as int), c) == v@.skip(start as int),
        decreases v.len() - i,
    {
        r.push(v[i]);
        i = i + 1;
        assert(r@ =~= v@.subrange(start as int, i as int));
    }
    let ghost t = v@.skip(start as int);
    let ghost b = before_char(t, c);
    if i < v.len() {
        assert(t[i - start] == c);
        assert(t.contains(c));
        assert(b.len() == i - start) by {
            if b.len() < i - start {
                assert(t[b.len() as int] == v@[start + b.len()]);
            }
        }
        assert(r@ =~= b) by {
            assert forall|k: int| 0 <= k < b.len() implies r@[k] == b[k] by {
                assert(t.subrange(0, b.len() as int)[k] == b[k]);
            }
        }
    } else {
        assert forall|j: int| 0 <= j < t.len() implies t[j] != c by {
            assert(t[j] == v@[start + j]);
        }
        assert(!t.contains(c));
        assert(r@ =~= t);
    }
    r
}

/// For a text containing `c`: the text before the first `c`, and the text between
/// that `c` and the next one (or the end). These are the first item of
/// `s.splitn(2, c)` and the first item of the same split of its second item.
pub fn split_two(s: &str, c: char) -> (r: (String, String))
    requires
        s@.contains(c),
    ensures
        r.0@ == before_char(s@, c),
        r.1@ == before_char(s@.skip(before_char(s@, c).len() + 1int), c),
{
    let v = chars_of(s);
    let vn = v.len();
    let first = piece_until(&v, 0, c);
    assert(v@.skip(0) == v@);
    proof {
        lemma_before_char(s@, c);
        assert(first@ == before_char(s@, c));
        assert(first@.len() < vn);
    }
    let second = piece_until(&v, first.len() + 1, c);
    (string_from_chars(first.as_slice()), string_from_chars(second.as_slice()))
}

/// The text before the first `c` in `s` (the first item of `s.splitn(2, c)`).
pub fn text_before(s: &str, c: char) -> (r: String)
    ensures
        r@ == before_char(s@, c),
{
    let v = chars_of(s);
    let p = piece_until(&v, 0, c);
    assert(v@.skip(0) == v@);
    string_from_chars(p.as_slice())
}

/// The text of `s` after its first `c` (the second item of `s.splitn(2, c)`).
pub fn text_after(s: &str, c: char) -> (r: String)
    requires
        s@.contains(c),
    ensures
        r@ == s@.skip(before_char(s@, c).len() + 1int),
{
    let mut v = chars_of(s);
    let p = piece_until(&v, 0, c);
    assert(v@.skip(0) == v@);
    proof {
        lemma_before_char(s@, c);
    }
    assert(p@.len() < v@.len());
    assert(p.len() < v.len());
    let rest = v.split_off(p.len() + 1);
    assert(rest@ =~= s@.skip(before_char(s@, c).len() + 1int));
    string_from_chars(rest.as_slice())
}

/// `s` without its last `n` characters.
pub fn without_last(s: &str, n: usize) -> (r: String)
    requires
        n <= s@.len(),
    ensures
        r@ == s@.subrange(0, s@.len() - n),
{
    let mut v = chars_of(s);
    let k = v.len() - n;
    v.truncate(k);
    string_from_chars(v.as_slice())
}

/// Whether `c` occurs in `s`.
pub fn has_char(s: &str, c: char) -> (r: bool)
    ensures
        r == s@.contains(c),
{
    let v = chars_of(s);
    let mut i: usize = 0;
    while i < v.len()
        invariant
            v@ == s@,
            i <= v@.len(),
            forall|k: int| 0 <= k < i ==> v@[k] != c,
        decreases v.len() - i,
    {
        if v[i] == c {
            assert(s@[i as int] == c);
            return true;
        }
        i = i + 1;
    }
    assert(!s@.contains(c)) by {
        if s@.contains(c) {
            let k = choose|k: int| 0 <= k < s@.len() && s@[k] == c;
            assert(v@[k] != c);
        }
    }
    false
}

/// The text before the first `c` of `a`, `c`, `b` is `a` when `a` holds no `c`.
pub proof fn lemma_before_char_concat(a: Seq<char>, c: char, b: Seq<char>)
    requires
        !a.contains(c),
    ensures
        before_char(a + seq![c] + b, c) == a,
    decreases a.len(),
{
    let s = a + seq![c] + b;
    if a.len() == 0 {
        assert(s[0] == c);
        assert(a =~= Seq::<char>::empty());
    } else {
        let a1 = a.drop_first();
        assert(!a1.contains(c)) by {
            if a1.contains(c) {
                let k = choose|k: int| 0 <= k < a1.len() && a1[k] == c;
                assert(a[k + 1] == c);
            }
        }
        lemma_before_char_concat(a1, c, b);
        assert(s[0] == a[0]);
        assert(a[0] != c);
        assert(s.drop_first() =~= a1 + seq![c] + b);
        assert(a =~= seq![a[0]] + a1);
    }
}

/// The pieces joined back together with `sep` between them.
pub open spec fn join_with(ps: Seq<Seq<char>>, sep: char) -> Seq<char>
    decreases ps.len(),
{
    if ps.len() == 0 {
        Seq::<char>::empty()
    } else if ps.len() == 1 {
        ps[0]
    } else {
        join_with(ps.drop_last(), sep) + seq![sep] + ps.last()
    }
}

/// Splitting loses nothing and cuts at every separator: the pieces joined with the
/// separator give the text back, and no piece holds the separator.
pub proof fn lemma_split_on_joins_back(s: Seq<char>, sep: char)
    ensures
        join_with(split_on(s, sep), sep) == s,
        forall|k: int| 0 <= k < split_on(s, sep).len() ==> !(#[trigger] split_on(s, sep)[k]).contains(sep),
        split_on(s, sep).len() >= 1,
    decreases s.len(),
{
    if s.len() == 0 {
        assert(split_on(s, sep) == seq![Seq::<char>::empty()]);
        assert(s =~= Seq::<char>::empty());
        assert forall|k: int| 0 <= k < split_on(s, sep).len() implies !(#[trigger] split_on(s, sep)[k]).contains(sep) by {
            assert(split_on(s, sep)[k] == Seq::<char>::empty());
        }
    } else {
        let t = s.drop_last();
        let c = s.last();
        lemma_split_on_joins_back(t, sep);
        let r = split_on(t, sep);
        let ps = split_on(s, sep);
        if c == sep {
            assert(ps == r.push(Seq::<char>::empty()));
            assert(ps.drop_last() =~= r);
            assert(join_with(ps, sep) == join_with(r, sep) + seq![sep] + Seq::<char>::empty());
            assert(join_with(ps, sep) =~= s);
            assert forall|k: int| 0 <= k < ps.len() implies !(#[trigger] ps[k]).contains(sep) by {
                if k < r.len() {
                    assert(ps[k] == r[k]);
                } else {
                    assert(ps[k] == Seq::<char>::empty());
                }
            }
        } else {
            let l = r.last().push(c);
            assert(ps == r.update(r.len() - 1, l));
            if r.len() == 1 {
                assert(join_with(r, sep) == r[0]);
                assert(ps.len() == 1);
                assert(join_with(ps, sep) == ps[0]);
                assert(r.last() == r[0]);
                assert(ps[0] == l);
                assert(t.push(c) =~= s);
                assert(join_with(ps, sep) =~= s);
            } else {
                assert(ps.drop_last() =~= r.drop_last());
                assert(join_with(r, sep) == join_with(r.drop_last(), sep) + seq![sep] + r.last());
                assert(join_with(ps, sep) == join_with(ps.drop_last(), sep) + seq![sep] + ps.last());
                assert(ps.last() == l);
                assert(t.push(c) =~= s);
                assert(join_with(ps, sep) =~= s);
            }
            assert forall|k: int| 0 <= k < ps.len() implies !(#[trigger] ps[k]).contains(sep) by {
                if k < r.len() - 1 {
                    assert(ps[k] == r[k]);
                } else {
                    assert(ps[k] == l);
                    assert(!r[k].contains(sep));
                    if l.contains(sep) {
                        let j = choose|j: int| 0 <= j < l.len() && l[j] == sep;
                        if j < r.last().len() {
                            assert(r.last()[j] == sep);
                        }
                    }
                }
            }
        }
    }
}

} // verus!
