//! Taking text apart: pieces between separators, words, and replacement.

use crate::text::{chars_of, is_white_space, text_between, white_space};
use vstd::prelude::*;

verus! {

/// The first place of `c` in `s`, or the length of `s`.
pub open spec fn first_index(s: Seq<char>, c: char) -> int
    decreases s.len(),
{
    if s.len() == 0 || s[0] == c {
        0
    } else {
        1 + first_index(s.skip(1), c)
    }
}

proof fn lemma_first_index(s: Seq<char>, c: char)
    ensures
        0 <= first_index(s, c) <= s.len(),
        forall|i: int| 0 <= i < first_index(s, c) ==> #[trigger] s[i] != c,
        first_index(s, c) < s.len() ==> s[first_index(s, c)] == c,
    decreases s.len(),
{
    if s.len() > 0 && s[0] != c {
        lemma_first_index(s.skip(1), c);
        assert forall|i: int| 0 <= i < first_index(s, c) implies #[trigger] s[i] != c by {
            if i > 0 {
                assert(s[i] == s.skip(1)[i - 1]);
            }
        }
    }
}

proof fn lemma_first_index_is(s: Seq<char>, c: char, n: int)
    requires
        0 <= n <= s.len(),
        forall|i: int| 0 <= i < n ==> #[trigger] s[i] != c,
        n < s.len() ==> s[n] == c,
    ensures
        n == first_index(s, c),
{
    lemma_first_index(s, c);
    let m = first_index(s, c);
    if n < m {
        assert(s[n] != c);
    }
    if m < n {
        assert(s[m] != c);
    }
}

/// The first place of `c` in `v` from `from` on, or the end.
pub fn find_from(v: &Vec<char>, from: usize, c: char) -> (r: usize)
    requires
        from <= v@.len(),
    ensures
        r == from + first_index(v@.skip(from as int), c),
        from <= r <= v@.len(),
{
    let mut i: usize = from;
    let ghost s = v@.skip(from as int);
    while i < v.len() && v[i] != c
        invariant
            from <= i <= v@.len(),
            s == v@.skip(from as int),
            forall|k: int| 0 <= k < i - from ==> #[trigger] s[k] != c,
        decreases v@.len() - i,
    {
        assert(s[i - from] == v@[i as int]);
        i = i + 1;
    }
    proof {
        if i < v@.len() {
            assert(s[i - from] == v@[i as int]);
        }
        lemma_first_index_is(s, c, i - from);
    }
    i
}

/// What stands before and behind the first `c` in `s`, where there is one.
pub open spec fn cut_at(s: Seq<char>, c: char) -> Option<(Seq<char>, Seq<char>)> {
    let n = first_index(s, c);
    if n < s.len() {
        Some((s.take(n), s.skip(n + 1)))
    } else {
        None
    }
}

/// The pieces of `s` between the separators `c`; one piece more than there are
/// separators.
pub open spec fn pieces(s: Seq<char>, c: char) -> Seq<Seq<char>>
    decreases s.len(),
{
    let n = first_index(s, c);
    if n < s.len() && n >= 0 {
        seq![s.take(n)] + pieces(s.skip(n + 1), c)
    } else {
        seq![s]
    }
}

/// The pieces of `s` between the separators `c`.
pub fn split(s: &str, c: char) -> (r: Vec<String>)
    ensures
        r@.map_values(|p: String| p@) == pieces(s@, c),
{
    let v = chars_of(s);
    let mut r: Vec<String> = Vec::new();
    let mut from: usize = 0;
    assert(v@.skip(0) == v@);
    assert(r@.map_values(|p: String| p@) + pieces(s@, c) == pieces(s@, c));
    loop
        invariant
            v@ == s@,
            from <= v@.len(),
            r@.map_values(|p: String| p@) + pieces(v@.skip(from as int), c) == pieces(s@, c),
        decreases v@.len() - from,
    {
        let n = find_from(&v, from, c);
        let ghost rest = v@.skip(from as int);
        let ghost before = r@.map_values(|p: String| p@);
        let piece = text_between(&v, from, n);
        assert(piece@ == rest.take(n - from));
        r.push(piece);
        let ghost after = r@.map_values(|p: String| p@);
        assert(after == before.push(rest.take(n - from)));
        if n == v.len() {
            proof {
                assert(rest.take(n - from) == rest);
                assert(after == before + seq![rest]);
            }
            return r;
        }
        proof {
            assert(rest.skip(n - from + 1) == v@.skip(n + 1));
            assert(after + pieces(v@.skip(n + 1), c) == before + pieces(rest, c));
        }
        from = n + 1;
    }
}

/// How many characters at the front of `s` are not white space.
pub open spec fn word_len(s: Seq<char>) -> int
    decreases s.len(),
{
    if s.len() == 0 || white_space(s[0]) {
        0
    } else {
        1 + word_len(s.skip(1))
    }
}

proof fn lemma_word_len(s: Seq<char>)
    ensures
        0 <= word_len(s) <= s.len(),
        forall|i: int| 0 <= i < word_len(s) ==> !white_space(#[trigger] s[i]),
        word_len(s) < s.len() ==> white_space(s[word_len(s)]),
    decreases s.len(),
{
    if s.len() > 0 && !white_space(s[0]) {
        lemma_word_len(s.skip(1));
        assert forall|i: int| 0 <= i < word_len(s) implies !white_space(#[trigger] s[i]) by {
            if i > 0 {
                assert(s[i] == s.skip(1)[i - 1]);
            }
        }
    }
}

/// The words of `s`: what stands between white space.
pub open spec fn words(s: Seq<char>) -> Seq<Seq<char>>
    decreases s.len(),
{
    if s.len() == 0 {
        Seq::empty()
    } else if white_space(s[0]) {
        words(s.skip(1))
    } else {
        let n = word_len(s);
        if 0 < n <= s.len() {
            seq![s.take(n)] + words(s.skip(n))
        } else {
            Seq::empty()
        }
    }
}

/// The words of `s`.
pub fn split_words(s: &str) -> (r: Vec<String>)
    ensures
        r@.map_values(|p: String| p@) == words(s@),
{
    let v = chars_of(s);
    let mut r: Vec<String> = Vec::new();
    let mut from: usize = 0;
    assert(v@.skip(0) == v@);
    assert(r@.map_values(|p: String| p@) + words(s@) == words(s@));
    while from < v.len()
        invariant
            v@ == s@,
            from <= v@.len(),
            r@.map_values(|p: String| p@) + words(v@.skip(from as int)) == words(s@),
        decreases v@.len() - from,
    {
        let ghost rest = v@.skip(from as int);
        let ghost before = r@.map_values(|p: String| p@);
        assert(rest[0] == v@[from as int]);
        if is_white_space(v[from]) {
            assert(rest.skip(1) == v@.skip(from + 1));
            from = from + 1;
            continue;
        }
        let mut n: usize = from + 1;
        while n < v.len() && !is_white_space(v[n])
            invariant
                from < n <= v@.len(),
                rest == v@.skip(from as int),
                forall|k: int| 0 <= k < n - from ==> !white_space(#[trigger] rest[k]),
            decreases v@.len() - n,
        {
            assert(rest[n - from] == v@[n as int]);
            n = n + 1;
        }
        proof {
            lemma_word_len(rest);
            let m = word_len(rest);
            if n < v@.len() {
                assert(rest[n - from] == v@[n as int]);
            }
            if n - from < m {
                assert(!white_space(rest[n - from]));
            }
            if m < n - from {
                assert(!white_space(rest[m]));
            }
            assert(m == n - from);
        }
        let word = text_between(&v, from, n);
        r.push(word);
        proof {
            let after = r@.map_values(|p: String| p@);
            assert(word@ == rest.take(n - from));
            assert(after == before.push(rest.take(n - from)));
            assert(rest.skip(n - from) == v@.skip(n as int));
            assert(after + words(v@.skip(n as int)) == before + words(rest));
        }
        from = n;
    }
    assert(words(v@.skip(from as int)) == Seq::<Seq<char>>::empty());
    r
}

/// Whether `s` starts with `p`.
pub open spec fn begins(s: Seq<char>, p: Seq<char>) -> bool {
    p.len() <= s.len() && s.take(p.len() as int) == p
}

/// Whether `v` holds `p` from `from` on.
pub fn holds_at(v: &Vec<char>, from: usize, p: &Vec<char>) -> (r: bool)
    requires
        from <= v@.len(),
    ensures
        r == begins(v@.skip(from as int), p@),
{
    let ghost s = v@.skip(from as int);
    let n = v.len();
    if p.len() > n - from {
        return false;
    }
    for i in 0..p.len()
        invariant
            from <= v@.len() == n,
            p@.len() <= v@.len() - from,
            s == v@.skip(from as int),
            forall|k: int| 0 <= k < i ==> #[trigger] p@[k] == s[k],
    {
        assert(s[i as int] == v@[from + i]);
        if v[from + i] != p[i] {
            proof {
                if s.take(p@.len() as int) == p@ {
                    assert(s.take(p@.len() as int)[i as int] == p@[i as int]);
                }
            }
            return false;
        }
    }
    assert(s.take(p@.len() as int) == p@);
    true
}

/// Whether `s` starts with `p`.
pub fn starts_with(s: &str, p: &str) -> (r: bool)
    ensures
        r == begins(s@, p@),
{
    let v = chars_of(s);
    let q = chars_of(p);
    assert(v@.skip(0) == v@);
    holds_at(&v, 0, &q)
}

/// `s` with every `pat` replaced by `with`, from the left.
pub open spec fn replaced(s: Seq<char>, pat: Seq<char>, with: Seq<char>) -> Seq<char>
    decreases s.len(),
{
    if s.len() == 0 {
        Seq::empty()
    } else if pat.len() > 0 && begins(s, pat) {
        with + replaced(s.skip(pat.len() as int), pat, with)
    } else {
        seq![s[0]] + replaced(s.skip(1), pat, with)
    }
}

/// `s` with every `pat` replaced by `with`, from the left.
pub fn replace(s: &str, pat: &str, with: &str) -> (r: String)
    requires
        pat@.len() > 0,
    ensures
        r@ == replaced(s@, pat@, with@),
{
    let v = chars_of(s);
    let p = chars_of(pat);
    let mut r = String::new();
    let mut i: usize = 0;
    assert(v@.skip(0) == v@);
    assert(r@ + replaced(s@, pat@, with@) == replaced(s@, pat@, with@));
    while i < v.len()
        invariant
            v@ == s@,
            p@ == pat@,
            p@.len() > 0,
            i <= v@.len(),
            r@ + replaced(v@.skip(i as int), pat@, with@) == replaced(s@, pat@, with@),
        decreases v@.len() - i,
    {
        let ghost rest = v@.skip(i as int);
        let ghost before = r@;
        if holds_at(&v, i, &p) {
            crate::text::push_text(&mut r, with);
            proof {
                assert(rest.skip(p@.len() as int) == v@.skip(i + p@.len()));
                assert(r@ + replaced(v@.skip(i + p@.len()), pat@, with@) == before + replaced(
                    rest,
                    pat@,
                    with@,
                ));
            }
            i = i + p.len();
        } else {
            r.push(v[i]);
            proof {
                assert(rest[0] == v@[i as int]);
                assert(rest.skip(1) == v@.skip(i + 1));
                assert(r@ + replaced(v@.skip(i + 1), pat@, with@) == before + replaced(
                    rest,
                    pat@,
                    with@,
                ));
            }
            i = i + 1;
        }
    }
    assert(replaced(v@.skip(i as int), pat@, with@) == Seq::<char>::empty());
    r
}

/// `s` without white space at either end.
pub open spec fn trimmed(s: Seq<char>) -> Seq<char>
    decreases s.len(),
{
    if s.len() == 0 {
        s
    } else if white_space(s[0]) {
        trimmed(s.skip(1))
    } else if white_space(s.last()) {
        trimmed(s.drop_last())
    } else {
        s
    }
}

/// `s` without white space at either end.
pub fn trim(s: &str) -> (r: String)
    ensures
        r@ == trimmed(s@),
{
    let v = chars_of(s);
    let mut a: usize = 0;
    let mut b: usize = v.len();
    assert(v@.subrange(0, v@.len() as int) == v@);
    while a < b && is_white_space(v[a])
        invariant
            v@ == s@,
            a <= b == v@.len(),
            trimmed(v@.subrange(a as int, b as int)) == trimmed(s@),
        decreases b - a,
    {
        assert(v@.subrange(a as int, b as int).skip(1) == v@.subrange(a + 1, b as int));
        a = a + 1;
    }
    while a < b && is_white_space(v[b - 1])
        invariant
            v@ == s@,
            a <= b <= v@.len(),
            trimmed(v@.subrange(a as int, b as int)) == trimmed(s@),
            a < b ==> !white_space(v@[a as int]),
        decreases b - a,
    {
        assert(v@.subrange(a as int, b as int).drop_last() == v@.subrange(a as int, b - 1));
        b = b - 1;
    }
    text_between(&v, a, b)
}

/// The first place of `c` comes right after what is free of it. Where nothing holds it,
/// the end stands in.
pub proof fn first_place_is_the_first(a: Seq<char>, c: char, b: Seq<char>)
    requires
        forall|i: int| 0 <= i < a.len() ==> #[trigger] a[i] != c,
    ensures
        first_index(a, c) == a.len(),
        first_index(a + seq![c] + b, c) == a.len(),
{
    lemma_first_index_is(a, c, a.len() as int);
    let s = a + seq![c] + b;
    assert forall|i: int| 0 <= i < a.len() implies #[trigger] s[i] != c by {
        assert(s[i] == a[i]);
    }
    lemma_first_index_is(s, c, a.len() as int);
}

/// Cutting undoes joining: what was put around a separator comes apart at the first one.
pub proof fn cutting_undoes_joining(a: Seq<char>, c: char, b: Seq<char>)
    requires
        forall|i: int| 0 <= i < a.len() ==> #[trigger] a[i] != c,
    ensures
        cut_at(a + seq![c] + b, c) == Some((a, b)),
        cut_at(a, c) is None,
{
    first_place_is_the_first(a, c, b);
    let s = a + seq![c] + b;
    assert(s.take(a.len() as int) == a);
    assert(s.skip(a.len() as int + 1) == b);
}

/// Splitting undoes joining: the first piece ends at the first separator and the others
/// are the pieces of the rest; a text without a separator is its own only piece.
pub proof fn splitting_undoes_joining(a: Seq<char>, c: char, b: Seq<char>)
    requires
        forall|i: int| 0 <= i < a.len() ==> #[trigger] a[i] != c,
    ensures
        pieces(a, c) == seq![a],
        pieces(a + seq![c] + b, c) == seq![a] + pieces(b, c),
{
    first_place_is_the_first(a, c, b);
    let s = a + seq![c] + b;
    assert(s.take(a.len() as int) == a);
    assert(s.skip(a.len() as int + 1) == b);
}

/// White space in front of a text changes none of its words. A word ends where white
/// space begins or the text ends, and the other words are those of the rest.
pub proof fn words_stand_between_white_space(a: Seq<char>, w: char, b: Seq<char>)
    requires
        a.len() > 0,
        forall|i: int| 0 <= i < a.len() ==> !white_space(#[trigger] a[i]),
        white_space(w),
    ensures
        words(Seq::empty()) == Seq::<Seq<char>>::empty(),
        words(seq![w] + b) == words(b),
        words(a) == seq![a],
        words(a + seq![w] + b) == seq![a] + words(b),
{
    let s = a + seq![w] + b;
    assert((seq![w] + b).skip(1) == b);
    lemma_word_len(s);
    assert(!white_space(s[0])) by {
        assert(s[0] == a[0]);
    }
    assert(word_len(s) == a.len()) by {
        if word_len(s) < a.len() {
            assert(s[word_len(s)] == a[word_len(s)]);
        }
        if word_len(s) > a.len() {
            assert(s[a.len() as int] == w);
        }
    }
    assert(s.take(a.len() as int) == a);
    assert(s.skip(a.len() as int) == seq![w] + b);
    lemma_word_len(a);
    assert(!white_space(a[0]));
    assert(word_len(a) == a.len()) by {
        if word_len(a) < a.len() {
            assert(!white_space(a[word_len(a)]));
        }
    }
    assert(a.take(a.len() as int) == a);
    assert(a.skip(a.len() as int) == Seq::<char>::empty());
    assert(words(a) == seq![a] + words(Seq::empty()));
}

/// A text begins with what was put in front of it, and with nothing but what its first
/// characters are.
pub proof fn beginnings_are_what_comes_first(p: Seq<char>, s: Seq<char>)
    ensures
        begins(p + s, p),
        begins(s, p) ==> p + s.skip(p.len() as int) == s,
{
    assert((p + s).take(p.len() as int) == p);
    if begins(s, p) {
        assert(p + s.skip(p.len() as int) == s) by {
            assert forall|i: int| 0 <= i < s.len() implies (p + s.skip(p.len() as int))[i]
                == s[i] by {
                if i < p.len() {
                    assert(s.take(p.len() as int)[i] == s[i]);
                }
            }
        }
    }
}

/// Replacing puts the new text where the old one stood and leaves all around it alone:
/// what comes before the first one stays, and the rest is replaced in the same way. A text
/// that does not hold the old one stays as it is.
pub proof fn replacing_changes_only_the_pattern(
    a: Seq<char>,
    pat: Seq<char>,
    b: Seq<char>,
    with: Seq<char>,
)
    requires
        pat.len() > 0,
    ensures
        (forall|i: int| 0 <= i < a.len() ==> !begins((#[trigger] (a + pat + b).skip(i)), pat))
            ==> replaced(a + pat + b, pat, with) == a + with + replaced(b, pat, with),
        (forall|i: int| 0 <= i < a.len() ==> !begins((#[trigger] a.skip(i)), pat)) ==> replaced(
            a,
            pat,
            with,
        ) == a,
    decreases a.len(),
{
    let s = a + pat + b;
    if a.len() == 0 {
        assert(s == pat + b);
        assert(s.take(pat.len() as int) == pat);
        assert(s.skip(pat.len() as int) == b);
        assert(a + with + replaced(b, pat, with) == with + replaced(b, pat, with));
        assert(replaced(a, pat, with) == a);
    } else {
        let r = a.skip(1);
        assert(a == seq![a[0]] + r);
        assert(s.skip(1) == r + pat + b);
        replacing_changes_only_the_pattern(r, pat, b, with);
        if forall|i: int| 0 <= i < a.len() ==> !begins((#[trigger] s.skip(i)), pat) {
            assert forall|i: int| 0 <= i < r.len() implies !begins(
                (#[trigger] (r + pat + b).skip(i)),
                pat,
            ) by {
                assert((r + pat + b).skip(i) == s.skip(i + 1));
            }
            assert(s.skip(0) == s);
            assert(replaced(s, pat, with) == seq![a[0]] + (r + with + replaced(b, pat, with)));
            assert(seq![a[0]] + (r + with + replaced(b, pat, with)) == a + with + replaced(
                b,
                pat,
                with,
            ));
        }
        if forall|i: int| 0 <= i < a.len() ==> !begins((#[trigger] a.skip(i)), pat) {
            assert forall|i: int| 0 <= i < r.len() implies !begins((#[trigger] r.skip(i)), pat) by {
                assert(r.skip(i) == a.skip(i + 1));
            }
            assert(a.skip(0) == a);
        }
    }
}

/// Trimming takes the white space off both ends and nothing else.
pub proof fn trimming_bares_the_text(a: Seq<char>, s: Seq<char>, b: Seq<char>)
    requires
        forall|i: int| 0 <= i < a.len() ==> white_space(#[trigger] a[i]),
        forall|i: int| 0 <= i < b.len() ==> white_space(#[trigger] b[i]),
        s.len() > 0 ==> !white_space(s[0]) && !white_space(s.last()),
    ensures
        trimmed(a + s + b) == s,
    decreases a.len() + b.len(),
{
    let t = a + s + b;
    if a.len() > 0 {
        assert(t[0] == a[0]);
        assert(t.skip(1) == a.skip(1) + s + b);
        assert forall|i: int| 0 <= i < a.skip(1).len() implies white_space(
            #[trigger] a.skip(1)[i],
        ) by {
            assert(a.skip(1)[i] == a[i + 1]);
        }
        trimming_bares_the_text(a.skip(1), s, b);
    } else if s.len() > 0 {
        assert(t[0] == s[0]);
        if b.len() > 0 {
            assert(t.last() == b.last());
            assert(white_space(b[b.len() - 1]));
            assert(t.drop_last() == a + s + b.drop_last());
            assert forall|i: int| 0 <= i < b.drop_last().len() implies white_space(
                #[trigger] b.drop_last()[i],
            ) by {
                assert(b.drop_last()[i] == b[i]);
            }
            trimming_bares_the_text(a, s, b.drop_last());
        } else {
            assert(t == s);
        }
    } else if b.len() > 0 {
        assert(t == b);
        assert(white_space(b[0]));
        assert(t.skip(1) == b.skip(1));
        assert(a + s + b.skip(1) == b.skip(1));
        assert forall|i: int| 0 <= i < b.skip(1).len() implies white_space(
            #[trigger] b.skip(1)[i],
        ) by {
            assert(b.skip(1)[i] == b[i + 1]);
        }
        trimming_bares_the_text(a, s, b.skip(1));
    } else {
        assert(t == s);
    }
}

/// Where a character occurs, its first place holds it.
pub proof fn first_place_holds_it(s: Seq<char>, c: char)
    ensures
        0 <= first_index(s, c) <= s.len(),
        first_index(s, c) < s.len() ==> s[first_index(s, c)] == c,
        first_index(s, c) == s.len() <==> !s.contains(c),
{
    lemma_first_index(s, c);
    if first_index(s, c) < s.len() {
        assert(s.contains(s[first_index(s, c)]));
    } else if s.contains(c) {
        let i = choose|i: int| 0 <= i < s.len() && s[i] == c;
        assert(s[i] != c);
    }
}

/// Texts are searched, split, trimmed and replaced as what is said of them.
pub proof fn texts_are_taken_apart(
    v: Vec<char>,
    from: usize,
    c: char,
    at: usize,
    s: &str,
    parts: Vec<String>,
    w: Vec<String>,
    p: Vec<char>,
    held: bool,
    pre: &str,
    starts: bool,
    with: &str,
    r: String,
    t: String,
    i: int,
)
    requires
        from <= v@.len(),
        pre@.len() > 0,
        call_ensures(find_from, (&v, from, c), at),
        call_ensures(split, (s, c), parts),
        call_ensures(split_words, (s,), w),
        call_ensures(holds_at, (&v, from, &p), held),
        call_ensures(starts_with, (s, pre), starts),
        call_ensures(replace, (s, pre, with), r),
        call_ensures(trim, (s,), t),
    ensures
        at == from + first_index(v@.skip(from as int), c),
        parts@.len() == pieces(s@, c).len(),
        0 <= i < parts@.len() ==> parts@[i]@ == pieces(s@, c)[i],
        w@.len() == words(s@).len(),
        0 <= i < w@.len() ==> w@[i]@ == words(s@)[i],
        held <==> begins(v@.skip(from as int), p@),
        starts <==> begins(s@, pre@),
        r@ == replaced(s@, pre@, with@),
        t@ == trimmed(s@),
{
    let m = parts@.map_values(|p: String| p@);
    let n = w@.map_values(|p: String| p@);
    assert(m.len() == parts@.len() && n.len() == w@.len());
    if 0 <= i < parts@.len() {
        assert(m[i] == parts@[i]@);
    }
    if 0 <= i < w@.len() {
        assert(n[i] == w@[i]@);
    }
}

} // verus!
