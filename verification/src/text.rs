//! Character-sequence utilities shared by the note views and the codec:
//! splitting on separators, joining, line handling, substring search, and
//! conversions between `String` and `Vec<char>`.

use vstd::prelude::*;
use vstd::string::StrSliceExecFns;

verus! {

/// The separator classes used by the note views.
#[derive(Clone, Copy, PartialEq, Eq, Structural, Debug)]
pub enum Sep {
    Space,
    Newline,
    SpaceOrNewline,
    Slash,
    Quote,
}

pub open spec fn sep_matches(sep: Sep, c: char) -> bool {
    match sep {
        Sep::Space => c == ' ',
        Sep::Newline => c == '\n',
        Sep::SpaceOrNewline => c == ' ' || c == '\n',
        Sep::Slash => c == '/',
        Sep::Quote => c == '"',
    }
}

/// Index of the first character matching `sep`, or the length if none does.
pub open spec fn spec_find_sep(s: Seq<char>, sep: Sep) -> int
    decreases s.len(),
{
    if s.len() == 0 {
        0
    } else if sep_matches(sep, s[0]) {
        0
    } else {
        1 + spec_find_sep(s.drop_first(), sep)
    }
}

pub proof fn lemma_find_sep(s: Seq<char>, sep: Sep)
    ensures
        0 <= spec_find_sep(s, sep) <= s.len(),
        forall|k: int| 0 <= k < spec_find_sep(s, sep) ==> !sep_matches(sep, s[k]),
        spec_find_sep(s, sep) < s.len() ==> sep_matches(sep, s[spec_find_sep(s, sep)]),
    decreases s.len(),
{
    if s.len() == 0 {
    } else if sep_matches(sep, s[0]) {
    } else {
        lemma_find_sep(s.drop_first(), sep);
        let f = spec_find_sep(s, sep);
        assert forall|k: int| 0 <= k < f implies !sep_matches(sep, s[k]) by {
            if k > 0 {
                assert(s.drop_first()[k - 1] == s[k]);
            }
        }
        if f < s.len() {
            assert(s.drop_first()[f - 1] == s[f]);
        }
    }
}

pub proof fn lemma_find_sep_unique(s: Seq<char>, sep: Sep, i: int)
    requires
        0 <= i <= s.len(),
        forall|k: int| 0 <= k < i ==> !sep_matches(sep, s[k]),
        i < s.len() ==> sep_matches(sep, s[i]),
    ensures
        i == spec_find_sep(s, sep),
    decreases s.len(),
{
    if s.len() == 0 {
    } else if sep_matches(sep, s[0]) {
        assert(i == 0);
    } else {
        assert(i != 0);
        let t = s.drop_first();
        assert forall|k: int| 0 <= k < i - 1 implies !sep_matches(sep, t[k]) by {
            assert(t[k] == s[k + 1]);
        }
        assert(i - 1 < t.len() ==> sep_matches(sep, t[i - 1]));
        lemma_find_sep_unique(t, sep, i - 1);
    }
}

/// The parts of `s` cut at every separator: one more part than there are
/// separators; an empty `s` yields one empty part.
pub open spec fn spec_split(s: Seq<char>, sep: Sep) -> Seq<Seq<char>>
    decreases s.len(),
    via spec_split_dec
{
    let f = spec_find_sep(s, sep);
    if f == s.len() {
        seq![s]
    } else {
        seq![s.take(f)] + spec_split(s.skip(f + 1), sep)
    }
}

#[via_fn]
proof fn spec_split_dec(s: Seq<char>, sep: Sep) {
    lemma_find_sep(s, sep);
}

/// The parts joined back with `sep` between them.
pub open spec fn spec_join(parts: Seq<Seq<char>>, sep: Seq<char>) -> Seq<char>
    decreases parts.len(),
{
    if parts.len() == 0 {
        Seq::empty()
    } else if parts.len() == 1 {
        parts[0]
    } else {
        parts[0] + sep + spec_join(parts.drop_first(), sep)
    }
}

/// The lines of `s`, the way the views read them: no line for empty text,
/// and no trailing empty line when the text ends in a newline.
pub open spec fn spec_lines(s: Seq<char>) -> Seq<Seq<char>> {
    if s.len() == 0 {
        Seq::empty()
    } else if s.last() == '\n' {
        spec_split(s.drop_last(), Sep::Newline)
    } else {
        spec_split(s, Sep::Newline)
    }
}

/// The first line of a non-empty text is its prefix up to the first
/// newline, whether or not the text ends in a newline.
pub proof fn lemma_first_line(s: Seq<char>)
    requires
        s.len() > 0,
    ensures
        spec_lines(s).len() >= 1,
        spec_lines(s)[0] == s.take(spec_find_sep(s, Sep::Newline)),
{
    let f = spec_find_sep(s, Sep::Newline);
    lemma_find_sep(s, Sep::Newline);
    if s.last() == '\n' {
        let t = s.drop_last();
        lemma_find_sep(t, Sep::Newline);
        if f < s.len() - 1 {
            assert forall|k: int| 0 <= k < f implies !sep_matches(Sep::Newline, t[k]) by {
                assert(t[k] == s[k]);
            }
            assert(t[f] == s[f]);
            lemma_find_sep_unique(t, Sep::Newline, f);
            assert(spec_lines(s)[0] == t.take(f));
            assert(t.take(f) =~= s.take(f));
        } else {
            assert(sep_matches(Sep::Newline, s[s.len() - 1]));
            assert(f == s.len() - 1);
            assert forall|k: int| 0 <= k < t.len() implies !sep_matches(Sep::Newline, t[k]) by {
                assert(t[k] == s[k]);
            }
            lemma_find_sep_unique(t, Sep::Newline, t.len() as int);
            assert(spec_split(t, Sep::Newline) == seq![t]);
            assert(t =~= s.take(f));
        }
    } else {
        if f == s.len() {
            assert(spec_split(s, Sep::Newline) == seq![s]);
            assert(s.take(f) =~= s);
        }
    }
}

/// Splitting yields at most one part more than there are characters, and no
/// part is longer than the split text.
pub proof fn lemma_split_bounds(s: Seq<char>, sep: Sep)
    ensures
        1 <= spec_split(s, sep).len() <= s.len() + 1,
        forall|j: int|
            0 <= j < spec_split(s, sep).len() ==> #[trigger] spec_split(s, sep)[j].len()
                <= s.len(),
    decreases s.len(),
{
    let f = spec_find_sep(s, sep);
    lemma_find_sep(s, sep);
    if f < s.len() {
        lemma_split_bounds(s.skip(f + 1), sep);
        let ps = spec_split(s, sep);
        assert forall|j: int| 0 <= j < ps.len() implies #[trigger] ps[j].len() <= s.len() by {
            if j > 0 {
                assert(ps[j] == spec_split(s.skip(f + 1), sep)[j - 1]);
            }
        }
    }
}

/// Whether `pat` occurs in `s` as a contiguous run.
pub open spec fn spec_contains_sub(s: Seq<char>, pat: Seq<char>) -> bool {
    exists|i: int| 0 <= i && i + pat.len() <= s.len() && #[trigger] s.subrange(i, i + pat.len())
        == pat
}

/// The characters of `s`, one `char` per Unicode scalar value.
pub fn str_chars(s: &str) -> (v: Vec<char>)
    ensures
        v@ == s@,
{
    let n = s.unicode_len();
    let mut v: Vec<char> = Vec::new();
    let mut i: usize = 0;
    while i < n
        invariant
            i <= n,
            n == s@.len(),
            v@ == s@.take(i as int),
        decreases n - i,
    {
        let c = s.get_char(i);
        v.push(c);
        proof {
            assert(v@ =~= s@.take(i + 1));
        }
        i = i + 1;
    }
    proof {
        assert(s@.take(n as int) =~= s@);
    }
    v
}

/// Relies on std's `String::push`: appends one character.
#[verifier::external_body]
pub(crate) fn push_char(s: &mut String, c: char)
    ensures
        final(s)@ == old(s)@.push(c),
{
    s.push(c);
}

/// A `String` holding exactly the given characters.
pub fn chars_string(v: &Vec<char>) -> (s: String)
    ensures
        s@ == v@,
{
    let mut s = String::new();
    let mut i: usize = 0;
    while i < v.len()
        invariant
            i <= v.len(),
            s@ == v@.take(i as int),
        decreases v.len() - i,
    {
        push_char(&mut s, v[i]);
        proof {
            assert(s@ =~= v@.take(i + 1));
        }
        i = i + 1;
    }
    proof {
        assert(v@.take(v.len() as int) =~= v@);
    }
    s
}

/// A copy of the characters between `a` (inclusive) and `b` (exclusive).
pub fn subvec(v: &Vec<char>, a: usize, b: usize) -> (r: Vec<char>)
    requires
        a <= b <= v.len(),
    ensures
        r@ == v@.subrange(a as int, b as int),
{
    let mut r: Vec<char> = Vec::new();
    let mut i: usize = a;
    while i < b
        invariant
            a <= i <= b <= v.len(),
            r@ == v@.subrange(a as int, i as int),
        decreases b - i,
    {
        r.push(v[i]);
        proof {
            assert(r@ =~= v@.subrange(a as int, i + 1));
        }
        i = i + 1;
    }
    r
}

pub fn clone_chars(v: &Vec<char>) -> (r: Vec<char>)
    ensures
        r@ == v@,
{
    let r = subvec(v, 0, v.len());
    proof {
        assert(v@.subrange(0, v.len() as int) =~= v@);
    }
    r
}

fn sep_test(sep: Sep, c: char) -> (b: bool)
    ensures
        b == sep_matches(sep, c),
{
    match sep {
        Sep::Space => c == ' ',
        Sep::Newline => c == '\n',
        Sep::SpaceOrNewline => c == ' ' || c == '\n',
        Sep::Slash => c == '/',
        Sep::Quote => c == '"',
    }
}

/// Index of the first separator at or after `from`, or the length.
pub fn find_sep(v: &Vec<char>, from: usize, sep: Sep) -> (i: usize)
    requires
        from <= v.len(),
    ensures
        from <= i <= v.len(),
        i - from == spec_find_sep(v@.skip(from as int), sep),
        i < v.len() ==> sep_matches(sep, v@[i as int]),
        forall|k: int| from <= k < i ==> !sep_matches(sep, v@[k]),
{
    let mut i: usize = from;
    while i < v.len()
        invariant_except_break
            from <= i <= v.len(),
            forall|k: int| from <= k < i ==> !sep_matches(sep, v@[k]),
        ensures
            from <= i <= v.len(),
            forall|k: int| from <= k < i ==> !sep_matches(sep, v@[k]),
            i < v.len() ==> sep_matches(sep, v@[i as int]),
        decreases v.len() - i,
    {
        if sep_test(sep, v[i]) {
            break;
        }
        i = i + 1;
    }
    proof {
        let s = v@.skip(from as int);
        assert forall|k: int| 0 <= k < i - from implies !sep_matches(sep, s[k]) by {
            assert(s[k] == v@[from + k]);
        }
        if i < v.len() {
            assert(s[i - from] == v@[i as int]);
        }
        lemma_find_sep_unique(s, sep, i - from);
    }
    i
}

/// The parts of `v` from `from` on, cut at every separator.
pub fn split_chars_from(v: &Vec<char>, from: usize, sep: Sep) -> (parts: Vec<Vec<char>>)
    requires
        from <= v.len(),
    ensures
        parts.deep_view() == spec_split(v@.skip(from as int), sep),
    decreases v.len() - from,
{
    let s_len = v.len();
    let i = find_sep(v, from, sep);
    proof {
        lemma_find_sep(v@.skip(from as int), sep);
    }
    if i == s_len {
        let tok = subvec(v, from, s_len);
        let mut parts: Vec<Vec<char>> = Vec::new();
        parts.push(tok);
        proof {
            let s = v@.skip(from as int);
            assert(tok.deep_view() =~= tok@);
            assert(tok@ =~= s);
            assert(spec_split(s, sep) == seq![s]);
            assert(parts.deep_view()[0] == tok.deep_view());
            assert(parts.deep_view() =~= spec_split(s, sep));
        }
        parts
    } else {
        let tok = subvec(v, from, i);
        let mut parts = split_chars_from(v, i + 1, sep);
        let ghost pv = parts@;
        let ghost rest_deep = parts.deep_view();
        parts.insert(0, tok);
        proof {
            let s = v@.skip(from as int);
            let f = i - from;
            let rhs = seq![s.take(f)] + spec_split(s.skip(f + 1), sep);
            assert(tok.deep_view() =~= tok@);
            assert(tok@ =~= s.take(f));
            assert(s.skip(f + 1) =~= v@.skip(i + 1));
            assert(rest_deep == spec_split(s.skip(f + 1), sep));
            assert(parts@ == pv.insert(0, tok));
            assert(parts.deep_view().len() == rhs.len());
            assert forall|j: int| 0 <= j < parts@.len() implies parts.deep_view()[j] == rhs[j] by {
                if j == 0 {
                    assert(parts@[0] == tok);
                } else {
                    assert(parts@[j] == pv[j - 1]);
                    assert(rest_deep[j - 1] == pv[j - 1].deep_view());
                }
            }
            assert(parts.deep_view() =~= rhs);
        }
        parts
    }
}

pub fn split_chars(v: &Vec<char>, sep: Sep) -> (parts: Vec<Vec<char>>)
    ensures
        parts.deep_view() == spec_split(v@, sep),
{
    let parts = split_chars_from(v, 0, sep);
    proof {
        assert(v@.skip(0) =~= v@);
    }
    parts
}

fn join_from(parts: &Vec<Vec<char>>, sep: &Vec<char>, from: usize) -> (out: Vec<char>)
    requires
        from <= parts.len(),
    ensures
        out@ == spec_join(parts.deep_view().skip(from as int), sep@),
    decreases parts.len() - from,
{
    let n = parts.len();
    if from == n {
        let out: Vec<char> = Vec::new();
        proof {
            assert(parts.deep_view().skip(from as int) =~= Seq::<Seq<char>>::empty());
        }
        out
    } else if from + 1 == n {
        let out = clone_chars(&parts[from]);
        proof {
            let ps = parts.deep_view().skip(from as int);
            assert(ps.len() == 1);
            assert(ps[0] == parts.deep_view()[from as int]);
        }
        out
    } else {
        let mut out = clone_chars(&parts[from]);
        let mut sep_copy = clone_chars(sep);
        let mut rest = join_from(parts, sep, from + 1);
        out.append(&mut sep_copy);
        out.append(&mut rest);
        proof {
            let ps = parts.deep_view().skip(from as int);
            assert(ps.len() >= 2);
            assert(ps[0] == parts.deep_view()[from as int]);
            assert(ps.drop_first() =~= parts.deep_view().skip(from + 1));
        }
        out
    }
}

/// The parts joined with `sep` between them.
pub fn join_chars(parts: &Vec<Vec<char>>, sep: &Vec<char>) -> (out: Vec<char>)
    ensures
        out@ == spec_join(parts.deep_view(), sep@),
{
    let out = join_from(parts, sep, 0);
    proof {
        assert(parts.deep_view().skip(0) =~= parts.deep_view());
    }
    out
}

/// The lines of `v`, as `spec_lines` reads them.
pub fn lines_chars(v: &Vec<char>) -> (parts: Vec<Vec<char>>)
    ensures
        parts.deep_view() == spec_lines(v@),
{
    if v.len() == 0 {
        let parts: Vec<Vec<char>> = Vec::new();
        proof {
            assert(parts.deep_view() =~= spec_lines(v@));
        }
        parts
    } else if v[v.len() - 1] == '\n' {
        let body = subvec(v, 0, v.len() - 1);
        proof {
            assert(body@ =~= v@.drop_last());
        }
        split_chars(&body, Sep::Newline)
    } else {
        split_chars(v, Sep::Newline)
    }
}

/// Whether `pat` occurs in `v` as a contiguous run.
pub fn contains_sub(v: &Vec<char>, pat: &Vec<char>) -> (found: bool)
    ensures
        found == spec_contains_sub(v@, pat@),
{
    let n = v.len();
    let m = pat.len();
    if m > n {
        return false;
    }
    let mut i: usize = 0;
    while i <= n - m
        invariant
            m <= n == v@.len(),
            m == pat@.len(),
            i <= n - m + 1,
            forall|q: int| 0 <= q < i ==> #[trigger] v@.subrange(q, q + pat@.len()) != pat@,
        decreases n - m + 1 - i,
    {
        let mut j: usize = 0;
        let mut matched = true;
        while j < m
            invariant
                m <= n == v@.len(),
                m == pat@.len(),
                i + m <= n,
                j <= m,
                matched <==> (forall|k: int| 0 <= k < j ==> v@[i + k] == pat@[k]),
            decreases m - j,
        {
            if v[i + j] != pat[j] {
                matched = false;
                proof {
                    assert(v@[i + j] != pat@[j as int]);
                }
                j = m;
            } else {
                proof {
                    assert(v@[i + j] == pat@[j as int]);
                }
                j = j + 1;
            }
        }
        if matched {
            proof {
                assert(v@.subrange(i as int, i + pat@.len()) =~= pat@);
            }
            return true;
        }
        proof {
            if v@.subrange(i as int, i + pat@.len()) == pat@ {
                assert(forall|k: int| 0 <= k < m ==> #[trigger] v@.subrange(
                    i as int,
                    i + pat@.len(),
                )[k] == v@[i + k]);
                assert(false);
            }
        }
        i = i + 1;
    }
    proof {
        assert forall|q: int| 0 <= q && q + pat@.len() <= v@.len() implies #[trigger] v@.subrange(
            q,
            q + pat@.len(),
        ) != pat@ by {
            assert(q < i);
        }
    }
    false
}

/// A `String` with the characters of the given slice.
pub fn to_string_of(s: &str) -> (r: String)
    ensures
        r@ == s@,
{
    let v = str_chars(s);
    chars_string(&v)
}

/// Index of the first occurrence of `pat` in `s`, or -1 if there is none.
pub open spec fn spec_find_sub(s: Seq<char>, pat: Seq<char>) -> int
    decreases s.len(),
{
    if pat.len() > s.len() {
        -1
    } else if s.take(pat.len() as int) == pat {
        0
    } else if s.len() == 0 {
        -1
    } else {
        let r = spec_find_sub(s.drop_first(), pat);
        if r < 0 {
            -1
        } else {
            1 + r
        }
    }
}

pub proof fn lemma_find_sub(s: Seq<char>, pat: Seq<char>)
    ensures
        spec_find_sub(s, pat) >= 0 ==> spec_find_sub(s, pat) + pat.len() <= s.len()
            && s.subrange(spec_find_sub(s, pat), spec_find_sub(s, pat) + pat.len()) == pat,
        spec_find_sub(s, pat) >= 0 ==> forall|q: int|
            0 <= q < spec_find_sub(s, pat) ==> #[trigger] s.subrange(q, q + pat.len()) != pat,
        spec_find_sub(s, pat) < 0 ==> forall|q: int|
            0 <= q && q + pat.len() <= s.len() ==> #[trigger] s.subrange(q, q + pat.len())
                != pat,
    decreases s.len(),
{
    let f = spec_find_sub(s, pat);
    if pat.len() > s.len() {
    } else if s.take(pat.len() as int) == pat {
        assert(s.subrange(0, pat.len() as int) =~= s.take(pat.len() as int));
    } else if s.len() == 0 {
    } else {
        let t = s.drop_first();
        lemma_find_sub(t, pat);
        let r = spec_find_sub(t, pat);
        assert(s.subrange(0, pat.len() as int) =~= s.take(pat.len() as int));
        assert forall|q: int|
            1 <= q && q + pat.len() <= s.len() implies #[trigger] s.subrange(q, q + pat.len())
            =~= t.subrange(q - 1, q - 1 + pat.len()) by {
            assert forall|k: int|
                0 <= k < pat.len() implies #[trigger] s.subrange(q, q + pat.len())[k]
                    == t.subrange(q - 1, q - 1 + pat.len())[k] by {
                assert(s.subrange(q, q + pat.len())[k] == s[q + k]);
                assert(t.subrange(q - 1, q - 1 + pat.len())[k] == t[q - 1 + k]);
                assert(t[q - 1 + k] == s[q + k]);
            }
        }
        if r >= 0 {
            assert(f == 1 + r);
            assert(s.subrange(f, f + pat.len()) == t.subrange(r, r + pat.len()));
        }
    }
}

pub proof fn lemma_find_sub_at(s: Seq<char>, pat: Seq<char>, i: int)
    requires
        0 <= i,
        i + pat.len() <= s.len(),
        s.subrange(i, i + pat.len()) == pat,
        forall|q: int| 0 <= q < i ==> #[trigger] s.subrange(q, q + pat.len()) != pat,
    ensures
        spec_find_sub(s, pat) == i,
{
    lemma_find_sub(s, pat);
    let f = spec_find_sub(s, pat);
    if f < 0 {
        assert(s.subrange(i, i + pat.len()) != pat);
    } else if f < i {
        assert(s.subrange(f, f + pat.len()) != pat);
    } else if f > i {
        assert(s.subrange(i, i + pat.len()) != pat);
    }
}

/// Index of the first occurrence of `pat` in `v`, if any.
pub fn find_first_sub(v: &Vec<char>, pat: &Vec<char>) -> (r: Option<usize>)
    ensures
        (r is None) == (spec_find_sub(v@, pat@) < 0),
        r matches Some(f) ==> f as int == spec_find_sub(v@, pat@),
{
    let n = v.len();
    let m = pat.len();
    if m > n {
        proof {
            lemma_find_sub(v@, pat@);
        }
        return None;
    }
    let mut i: usize = 0;
    while i <= n - m
        invariant
            m <= n == v@.len(),
            m == pat@.len(),
            i <= n - m + 1,
            forall|q: int| 0 <= q < i ==> #[trigger] v@.subrange(q, q + pat@.len()) != pat@,
        decreases n - m + 1 - i,
    {
        let mut j: usize = 0;
        let mut matched = true;
        while j < m
            invariant
                m <= n == v@.len(),
                m == pat@.len(),
                i + m <= n,
                j <= m,
                matched <==> (forall|k: int| 0 <= k < j ==> v@[i + k] == pat@[k]),
            decreases m - j,
        {
            if v[i + j] != pat[j] {
                matched = false;
                proof {
                    assert(v@[i + j] != pat@[j as int]);
                }
                j = m;
            } else {
                proof {
                    assert(v@[i + j] == pat@[j as int]);
                }
                j = j + 1;
            }
        }
        if matched {
            proof {
                assert(v@.subrange(i as int, i + pat@.len()) =~= pat@);
                lemma_find_sub_at(v@, pat@, i as int);
            }
            return Some(i);
        }
        proof {
            if v@.subrange(i as int, i + pat@.len()) == pat@ {
                assert(forall|k: int| 0 <= k < m ==> #[trigger] v@.subrange(
                    i as int,
                    i + pat@.len(),
                )[k] == v@[i + k]);
                assert(false);
            }
        }
        i = i + 1;
    }
    proof {
        lemma_find_sub(v@, pat@);
        let f = spec_find_sub(v@, pat@);
        if f >= 0 {
            assert(v@.subrange(f, f + pat@.len()) == pat@);
            assert(f < i);
        }
    }
    None
}

/// What `str::to_lowercase` returns: a function of the characters alone.
pub uninterp spec fn lower_of(s: Seq<char>) -> Seq<char>;

/// Relies on `str::to_lowercase`: the result depends on the characters alone.
#[verifier::external_body]
pub(crate) fn lowercase(s: &str) -> (r: String)
    ensures
        r@ == lower_of(s@),
{
    s.to_lowercase()
}

} // verus!
