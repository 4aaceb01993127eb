//! The canonical JSON form of the persisted aggregate, written and read by
//! this crate's own serializer and parser.
//!
//! The format is plain JSON with a fixed field order and no whitespace:
//! strings escape `"`, `\` and control characters (as `\u00xx`), numbers
//! are decimal without leading zeros, and every aggregate is an object or
//! array. The parser accepts exactly the canonical form the serializer
//! emits, which is what makes the round trip provable: a parse that
//! succeeds returns the one value whose serialization is the input.

use vstd::prelude::*;
use crate::color::Rgb;
use crate::note::{Note, NoteView, Deadline, spec_deadline_wf, DAY_RANGE};
use crate::userdata::{UserData, LogDay, UserDataView, LogDayView};
use crate::text::{str_chars, clone_chars, chars_string};

verus! {

pub open spec fn spec_is_digit(c: char) -> bool {
    '0' <= c <= '9'
}

pub open spec fn spec_digit_val(c: char) -> int {
    c as u32 - '0' as u32
}

pub open spec fn spec_digit_char(n: int) -> char {
    if n == 0 {
        '0'
    } else if n == 1 {
        '1'
    } else if n == 2 {
        '2'
    } else if n == 3 {
        '3'
    } else if n == 4 {
        '4'
    } else if n == 5 {
        '5'
    } else if n == 6 {
        '6'
    } else if n == 7 {
        '7'
    } else if n == 8 {
        '8'
    } else {
        '9'
    }
}

/// Hexadecimal digit, lowercase, for the `\u00xx` escapes.
pub open spec fn spec_hex_char(n: int) -> char {
    if n < 10 {
        spec_digit_char(n)
    } else if n == 10 {
        'a'
    } else if n == 11 {
        'b'
    } else if n == 12 {
        'c'
    } else if n == 13 {
        'd'
    } else if n == 14 {
        'e'
    } else {
        'f'
    }
}

/// The decimal digits of `n`, most significant first, no leading zeros.
pub open spec fn spec_dec(n: nat) -> Seq<char>
    decreases n,
{
    if n < 10 {
        seq![spec_digit_char(n as int)]
    } else {
        spec_dec(n / 10).push(spec_digit_char((n % 10) as int))
    }
}

/// A signed decimal: a minus sign before the digits of the magnitude.
pub open spec fn spec_dec_i64(v: int) -> Seq<char> {
    if v < 0 {
        seq!['-'] + spec_dec((-v) as nat)
    } else {
        spec_dec(v as nat)
    }
}

/// How one character appears inside a JSON string.
pub open spec fn spec_escape_char(c: char) -> Seq<char> {
    if c == '"' {
        seq!['\\', '"']
    } else if c == '\\' {
        seq!['\\', '\\']
    } else if (c as u32) < 32 {
        seq![
            '\\',
            'u',
            '0',
            '0',
            spec_hex_char((c as u32 / 16) as int),
            spec_hex_char((c as u32 % 16) as int),
        ]
    } else {
        seq![c]
    }
}

pub open spec fn spec_escape(s: Seq<char>) -> Seq<char>
    decreases s.len(),
{
    if s.len() == 0 {
        Seq::empty()
    } else {
        spec_escape(s.drop_last()) + spec_escape_char(s.last())
    }
}

/// A JSON string: the escaped characters between double quotes.
pub open spec fn spec_ser_string(s: Seq<char>) -> Seq<char> {
    seq!['"'] + spec_escape(s) + seq!['"']
}

pub open spec fn spec_ser_bool(b: bool) -> Seq<char> {
    if b {
        "true"@
    } else {
        "false"@
    }
}

// ----------------------------------------------------------------------
// spec-level parsers, one per production; each returns the parsed value
// and the index just past it, or nothing if the input from `i` on does
// not start with the canonical form.
/// End of the digit run starting at `i`.
pub open spec fn spec_digit_run_end(s: Seq<char>, i: int) -> int
    decreases s.len() - i when 0 <= i <= s.len()
{
    if i < s.len() && spec_is_digit(s[i]) {
        spec_digit_run_end(s, i + 1)
    } else {
        i
    }
}

/// Value of the digits in `s[i..j)`.
pub open spec fn spec_num_val(s: Seq<char>, i: int, j: int) -> int
    decreases j - i,
{
    if i < j {
        spec_num_val(s, i, j - 1) * 10 + spec_digit_val(s[j - 1])
    } else {
        0
    }
}

/// An unsigned decimal number: a non-empty digit run, no leading zero,
/// value within `u128`.
pub open spec fn spec_parse_u128(s: Seq<char>, i: int) -> Option<(u128, int)> {
    let j = spec_digit_run_end(s, i);
    if j == i {
        None
    } else if s[i] == '0' && j > i + 1 {
        None
    } else if spec_num_val(s, i, j) > u128::MAX {
        None
    } else {
        Some((spec_num_val(s, i, j) as u128, j))
    }
}

/// A signed decimal within `i64`; the canonical form never writes `-0`.
pub open spec fn spec_parse_i64(s: Seq<char>, i: int) -> Option<(i64, int)> {
    if i < s.len() && s[i] == '-' {
        match spec_parse_u128(s, i + 1) {
            Some((m, j)) => if 0 < m <= 0x8000_0000_0000_0000u128 {
                Some(((-(m as int)) as i64, j))
            } else {
                None
            },
            None => None,
        }
    } else {
        match spec_parse_u128(s, i) {
            Some((m, j)) => if m <= i64::MAX as u128 {
                Some((m as i64, j))
            } else {
                None
            },
            None => None,
        }
    }
}

/// An exact occurrence of `lit` at `i`.
pub open spec fn spec_parse_lit(s: Seq<char>, i: int, lit: Seq<char>) -> Option<int> {
    if 0 <= i && i + lit.len() <= s.len() && s.subrange(i, i + lit.len()) == lit {
        Some(i + lit.len())
    } else {
        None
    }
}

pub open spec fn spec_parse_bool(s: Seq<char>, i: int) -> Option<(bool, int)> {
    if spec_parse_lit(s, i, "true"@) is Some {
        Some((true, spec_parse_lit(s, i, "true"@)->Some_0))
    } else if spec_parse_lit(s, i, "false"@) is Some {
        Some((false, spec_parse_lit(s, i, "false"@)->Some_0))
    } else {
        None
    }
}

/// The characters of one string body read from `i` up to the closing
/// quote: only canonical escapes are accepted, so the body read back is
/// exactly the body that was escaped.
pub open spec fn spec_parse_string_body(s: Seq<char>, i: int) -> Option<(Seq<char>, int)>
    decreases s.len() - i when 0 <= i <= s.len()
{
    if i >= s.len() {
        None
    } else if s[i] == '"' {
        Some((Seq::empty(), i))
    } else if s[i] == '\\' {
        if i + 2 <= s.len() && (s[i + 1] == '"' || s[i + 1] == '\\') {
            match spec_parse_string_body(s, i + 2) {
                Some((t, j)) => Some((seq![s[i + 1]] + t, j)),
                None => None,
            }
        } else if s.len() - i >= 6 && s[i + 1] == 'u' && s[i + 2] == '0' && s[i + 3] == '0' {
            let hi = spec_hex_val(s[i + 4]);
            let lo = spec_hex_val(s[i + 5]);
            if hi >= 0 && lo >= 0 && hi * 16 + lo < 32 && spec_hex_char(hi) == s[i + 4]
                && spec_hex_char(lo) == s[i + 5] {
                match spec_parse_string_body(s, i + 6) {
                    Some((t, j)) => Some((seq![((hi * 16 + lo) as u32) as char] + t, j)),
                    None => None,
                }
            } else {
                None
            }
        } else {
            None
        }
    } else if (s[i] as u32) < 32 {
        None
    } else {
        match spec_parse_string_body(s, i + 1) {
            Some((t, j)) => Some((seq![s[i]] + t, j)),
            None => None,
        }
    }
}

/// Value of a lowercase hexadecimal digit, or -1.
pub open spec fn spec_hex_val(c: char) -> int {
    if spec_is_digit(c) {
        spec_digit_val(c)
    } else if c == 'a' {
        10
    } else if c == 'b' {
        11
    } else if c == 'c' {
        12
    } else if c == 'd' {
        13
    } else if c == 'e' {
        14
    } else if c == 'f' {
        15
    } else {
        -1
    }
}

/// A JSON string with its quotes.
pub open spec fn spec_parse_string(s: Seq<char>, i: int) -> Option<(Seq<char>, int)> {
    if 0 <= i < s.len() && s[i] == '"' {
        match spec_parse_string_body(s, i + 1) {
            Some((t, j)) => Some((t, j + 1)),  // j holds the closing quote
            None => None,
        }
    } else {
        None
    }
}

// ----------------------------------------------------------------------
// facts about the canonical forms, used by the round-trip proofs
pub proof fn lemma_dec_shape(n: nat)
    ensures
        spec_dec(n).len() >= 1,
        forall|k: int| 0 <= k < spec_dec(n).len() ==> spec_is_digit(#[trigger] spec_dec(n)[k]),
        spec_dec(n)[0] == '0' ==> n == 0 && spec_dec(n).len() == 1,
    decreases n,
{
    if n >= 10 {
        lemma_dec_shape(n / 10);
        let d = spec_dec(n);
        let p = spec_dec(n / 10);
        assert forall|k: int| 0 <= k < d.len() implies spec_is_digit(#[trigger] d[k]) by {
            if k < p.len() {
                assert(d[k] == p[k]);
            }
        }
        assert(d[0] == p[0]);
        if d[0] == '0' {
            assert(n / 10 == 0);
        }
    }
}

/// The numeric value only reads the digits between the bounds.
pub proof fn lemma_num_val_frame(s1: Seq<char>, i1: int, s2: Seq<char>, i2: int, len: int)
    requires
        len >= 0,
        0 <= i1,
        i1 + len <= s1.len(),
        0 <= i2,
        i2 + len <= s2.len(),
        forall|k: int| 0 <= k < len ==> #[trigger] s1[i1 + k] == s2[i2 + k],
    ensures
        spec_num_val(s1, i1, i1 + len) == spec_num_val(s2, i2, i2 + len),
    decreases len,
{
    if len > 0 {
        lemma_num_val_frame(s1, i1, s2, i2, len - 1);
        assert(s1[i1 + (len - 1)] == s2[i2 + (len - 1)]);
    }
}

/// The value of the digits of `n` is `n`.
pub proof fn lemma_num_val_dec(n: nat)
    ensures
        spec_num_val(spec_dec(n), 0, spec_dec(n).len() as int) == n,
    decreases n,
{
    if n < 10 {
        assert(spec_num_val(spec_dec(n), 0, 0) == 0);
        assert(spec_num_val(spec_dec(n), 0, 1) == spec_digit_val(spec_dec(n)[0]));
    } else {
        lemma_num_val_dec(n / 10);
        let d = spec_dec(n);
        let p = spec_dec(n / 10);
        assert(d == p.push(spec_digit_char((n % 10) as int)));
        lemma_num_val_frame(d, 0, p, 0, p.len() as int);
        assert(spec_num_val(d, 0, d.len() as int) == spec_num_val(d, 0, d.len() - 1) * 10
            + spec_digit_val(d[d.len() - 1]));
        assert(spec_num_val(d, 0, p.len() as int) == spec_num_val(p, 0, p.len() as int));
    }
}

/// A digit run ends exactly where the digits end.
pub proof fn lemma_digit_run(s: Seq<char>, i: int, j: int)
    requires
        0 <= i <= j <= s.len(),
        forall|k: int| i <= k < j ==> spec_is_digit(#[trigger] s[k]),
        j < s.len() ==> !spec_is_digit(s[j]),
    ensures
        spec_digit_run_end(s, i) == j,
    decreases j - i,
{
    if i < j {
        lemma_digit_run(s, i + 1, j);
    }
}

pub proof fn lemma_num_val_nonneg(s: Seq<char>, i: int, j: int)
    requires
        forall|k: int| i <= k < j ==> spec_is_digit(#[trigger] s[k]),
        0 <= i,
        j <= s.len(),
    ensures
        spec_num_val(s, i, j) >= 0,
    decreases j - i,
{
    if i < j {
        lemma_num_val_nonneg(s, i, j - 1);
    }
}

/// The value never shrinks as the run is extended.
pub proof fn lemma_num_val_mono(s: Seq<char>, i: int, j1: int, j2: int)
    requires
        0 <= i <= j1 <= j2 <= s.len(),
        forall|k: int| i <= k < j2 ==> spec_is_digit(#[trigger] s[k]),
    ensures
        spec_num_val(s, i, j1) <= spec_num_val(s, i, j2),
    decreases j2 - j1,
{
    if j1 < j2 {
        lemma_num_val_mono(s, i, j1, j2 - 1);
        lemma_num_val_nonneg(s, i, j2 - 1);
        assert(spec_num_val(s, i, j2) == spec_num_val(s, i, j2 - 1) * 10 + spec_digit_val(
            s[j2 - 1],
        ));
    }
}

/// Parsing from a position that holds the digits of `n`, followed by no
/// digit, yields `n`.
pub proof fn lemma_parse_ser_u128(s: Seq<char>, i: int, n: u128)
    requires
        0 <= i,
        i + spec_dec(n as nat).len() <= s.len(),
        s.subrange(i, i + spec_dec(n as nat).len() as int) == spec_dec(n as nat),
        i + spec_dec(n as nat).len() < s.len() ==> !spec_is_digit(
            s[i + spec_dec(n as nat).len()],
        ),
    ensures
        spec_parse_u128(s, i) == Some((n, i + spec_dec(n as nat).len())),
{
    let d = spec_dec(n as nat);
    let j = i + d.len();
    lemma_dec_shape(n as nat);
    assert forall|k: int| i <= k < j implies spec_is_digit(#[trigger] s[k]) by {
        assert(s[k] == d[k - i]);
    }
    lemma_digit_run(s, i, j);
    assert(s[i] == d[0]);
    if s[i] == '0' {
        assert(n == 0 && d.len() == 1);
    }
    lemma_num_val_frame(s, i, d, 0, d.len() as int);
    lemma_num_val_dec(n as nat);
    assert(spec_num_val(s, i, j) == n);
}

pub proof fn lemma_parse_ser_i64(s: Seq<char>, i: int, v: i64)
    requires
        0 <= i,
        i + spec_dec_i64(v as int).len() <= s.len(),
        s.subrange(i, i + spec_dec_i64(v as int).len() as int) == spec_dec_i64(v as int),
        i + spec_dec_i64(v as int).len() < s.len() ==> !spec_is_digit(
            s[i + spec_dec_i64(v as int).len()],
        ),
    ensures
        spec_parse_i64(s, i) == Some((v, i + spec_dec_i64(v as int).len())),
{
    let d = spec_dec_i64(v as int);
    if v < 0 {
        let m = (-(v as int)) as nat;
        let md = spec_dec(m);
        assert(d == seq!['-'] + md);
        assert(s[i + 0] == s.subrange(i, i + d.len() as int)[0]);
        assert(s[i] == d[0]);
        assert(s[i] == '-');
        lemma_dec_shape(m);
        assert forall|k: int| 0 <= k < md.len() implies s[i + 1 + k] == md[k] by {
            assert(s[i + 1 + k] == d[1 + k]);
        }
        assert(s.subrange(i + 1, i + 1 + md.len() as int) =~= md);
        lemma_parse_ser_u128(s, i + 1, m as u128);
        assert(0 < m as u128 <= 0x8000_0000_0000_0000u128);
    } else {
        lemma_dec_shape(v as nat);
        assert(d == spec_dec(v as nat));
        assert(s[i + 0] == s.subrange(i, i + d.len() as int)[0]);
        assert(s[i] == d[0]);
        assert(s[i] != '-') by {
            assert(spec_is_digit(d[0]));
        }
        lemma_parse_ser_u128(s, i, v as u128);
    }
}

pub proof fn lemma_hex_inverse(n: int)
    requires
        0 <= n < 16,
    ensures
        spec_hex_val(spec_hex_char(n)) == n,
        !(spec_hex_char(n) == '"'),
        !(spec_hex_char(n) == '\\'),
{
}

/// Escaping distributes over concatenation.
pub proof fn lemma_escape_add(a: Seq<char>, b: Seq<char>)
    ensures
        spec_escape(a + b) == spec_escape(a) + spec_escape(b),
    decreases b.len(),
{
    if b.len() == 0 {
        assert(a + b =~= a);
        assert(spec_escape(a) + spec_escape(b) =~= spec_escape(a));
    } else {
        lemma_escape_add(a, b.drop_last());
        assert((a + b).drop_last() =~= a + b.drop_last());
        assert((a + b).last() == b.last());
        assert(spec_escape(a) + (spec_escape(b.drop_last()) + spec_escape_char(b.last())) =~= (
        spec_escape(a) + spec_escape(b.drop_last())) + spec_escape_char(b.last()));
    }
}

/// Reading an escaped body back yields the body: the canonical escapes
/// are unambiguous.
pub proof fn lemma_parse_ser_string_body(body: Seq<char>, s: Seq<char>, i: int)
    requires
        0 <= i,
        i + spec_escape(body).len() < s.len(),
        s.subrange(i, i + spec_escape(body).len() as int) == spec_escape(body),
        s[i + spec_escape(body).len()] == '"',
    ensures
        spec_parse_string_body(s, i) == Some((body, i + spec_escape(body).len())),
    decreases body.len(),
{
    if body.len() == 0 {
        assert(s[i] == '"');
    } else {
        let c = body[0];
        let rest = body.drop_first();
        assert(body =~= seq![c] + rest);
        lemma_escape_add(seq![c], rest);
        assert(spec_escape(seq![c]) == spec_escape(Seq::<char>::empty()) + spec_escape_char(c))
            by {
            assert(seq![c].drop_last() =~= Seq::<char>::empty());
            assert(seq![c].last() == c);
        }
        assert(spec_escape(seq![c]) =~= spec_escape_char(c));
        let ec = spec_escape_char(c);
        let el = ec.len();
        assert(spec_escape(body) =~= ec + spec_escape(rest));
        assert forall|k: int| 0 <= k < ec.len() implies s[i + k] == ec[k] by {
            assert(s[i + k] == spec_escape(body)[k]);
        }
        assert forall|k: int|
            0 <= k < spec_escape(rest).len() implies s[i + el + k] == spec_escape(rest)[k] by {
            assert(s[i + el + k] == spec_escape(body)[el + k]);
        }
        assert(s.subrange(i + el, i + el + spec_escape(rest).len() as int) =~= spec_escape(
            rest,
        ));
        lemma_parse_ser_string_body(rest, s, i + el);
        if c == '"' {
            assert(s[i] == '\\' && s[i + 1] == '"');
        } else if c == '\\' {
            assert(s[i] == '\\' && s[i + 1] == '\\');
        } else if (c as u32) < 32 {
            let hi = (c as u32 / 16) as int;
            let lo = (c as u32 % 16) as int;
            assert(0 <= hi < 16);
            assert(0 <= lo < 16);
            assert(s[i] == '\\' && s[i + 1] == 'u' && s[i + 2] == '0' && s[i + 3] == '0');
            assert(s[i + 4] == spec_hex_char(hi));
            assert(s[i + 5] == spec_hex_char(lo));
            lemma_hex_inverse(hi);
            lemma_hex_inverse(lo);
            assert(hi * 16 + lo == c as u32);
            assert((((hi * 16 + lo) as u32) as char) == ((c as u32) as char));
            vstd::utf8::char_u32_cast(c, c as u32);
            assert(((c as u32) as char) == c);
            assert(spec_parse_string_body(s, i) == Some((seq![c] + rest, i + spec_escape(
                body,
            ).len())));
        } else {
            assert(s[i] == c);
        }
        assert(seq![c] + rest =~= body);
    }
}

pub proof fn lemma_parse_ser_string(body: Seq<char>, s: Seq<char>, i: int)
    requires
        0 <= i,
        i + spec_ser_string(body).len() <= s.len(),
        s.subrange(i, i + spec_ser_string(body).len() as int) == spec_ser_string(body),
    ensures
        spec_parse_string(s, i) == Some((body, i + spec_ser_string(body).len())),
{
    let w = spec_ser_string(body);
    let e = spec_escape(body);
    assert(w.len() == e.len() + 2);
    assert forall|k: int| 0 <= k < w.len() implies s[i + k] == w[k] by {
        assert(s[i + k] == s.subrange(i, i + w.len() as int)[k]);
    }
    assert(s[i + 0] == w[0]);
    assert(s[i] == '"');
    assert forall|k: int| 0 <= k < e.len() implies s[i + 1 + k] == e[k] by {
        assert(s[i + (1 + k)] == w[1 + k]);
        assert(w[1 + k] == e[k]);
    }
    assert(s.subrange(i + 1, i + 1 + e.len() as int) =~= e);
    assert(s[i + (1 + e.len() as int)] == w[1 + e.len() as int]);
    assert(s[i + 1 + e.len()] == w[w.len() - 1]);
    assert(w[w.len() - 1] == '"');
    lemma_parse_ser_string_body(body, s, i + 1);
}

// ----------------------------------------------------------------------
// composite canonical forms
// ----------------------------------------------------------------------
// concatenation of labeled parts, the shape every object form is built in
/// All parts run together, first part first.
pub open spec fn spec_cat(parts: Seq<Seq<char>>) -> Seq<char>
    decreases parts.len(),
{
    if parts.len() == 0 {
        Seq::empty()
    } else {
        parts[0] + spec_cat(parts.drop_first())
    }
}

/// Where part `m` starts inside the concatenation.
pub open spec fn spec_cat_off(parts: Seq<Seq<char>>, m: int) -> int
    decreases m,
{
    if m <= 0 {
        0
    } else {
        spec_cat_off(parts, m - 1) + parts[m - 1].len()
    }
}

pub proof fn lemma_cat_len(parts: Seq<Seq<char>>)
    ensures
        spec_cat(parts).len() == spec_cat_off(parts, parts.len() as int),
        forall|m: int| 0 <= m <= parts.len() ==> 0 <= #[trigger] spec_cat_off(parts, m)
            <= spec_cat(parts).len(),
        forall|m1: int, m2: int|
            0 <= m1 <= m2 <= parts.len() ==> spec_cat_off(parts, m1) <= spec_cat_off(parts, m2),
    decreases parts.len(),
{
    if parts.len() == 0 {
        assert forall|m: int| 0 <= m <= parts.len() implies 0 <= #[trigger] spec_cat_off(parts, m)
            <= spec_cat(parts).len() by {}
    } else {
        let t = parts.drop_first();
        lemma_cat_len(t);
        assert forall|m: int| 0 <= m <= parts.len() implies #[trigger] spec_cat_off(parts, m)
            == (if m == 0 { 0int } else { parts[0].len() + spec_cat_off(t, m - 1) }) by {
            lemma_cat_off_shift(parts, m);
        }
        assert forall|m: int| 0 <= m <= parts.len() implies 0 <= #[trigger] spec_cat_off(parts, m)
            <= spec_cat(parts).len() by {}
        assert forall|m1: int, m2: int|
            0 <= m1 <= m2 <= parts.len() implies spec_cat_off(parts, m1) <= spec_cat_off(
            parts,
            m2,
        ) by {}
    }
}

proof fn lemma_cat_off_shift(parts: Seq<Seq<char>>, m: int)
    requires
        parts.len() >= 1,
        0 <= m <= parts.len(),
    ensures
        spec_cat_off(parts, m) == if m == 0 {
            0int
        } else {
            parts[0].len() + spec_cat_off(parts.drop_first(), m - 1)
        },
    decreases m,
{
    if m > 0 {
        lemma_cat_off_shift(parts, m - 1);
        if m - 1 > 0 {
            assert(parts.drop_first()[m - 2] == parts[m - 1]);
        }
    }
}

/// When a window of `s` holds the concatenation, each part stands at its
/// offset.
pub proof fn lemma_cat_window(s: Seq<char>, i: int, parts: Seq<Seq<char>>)
    requires
        0 <= i,
        i + spec_cat(parts).len() <= s.len(),
        s.subrange(i, i + spec_cat(parts).len() as int) == spec_cat(parts),
    ensures
        forall|m: int|
            0 <= m < parts.len() ==> s.subrange(
                i + spec_cat_off(parts, m),
                i + spec_cat_off(parts, m) + (#[trigger] parts[m]).len(),
            ) == parts[m],
    decreases parts.len(),
{
    lemma_cat_len(parts);
    if parts.len() > 0 {
        let t = parts.drop_first();
        let w = spec_cat(parts);
        assert forall|k: int| 0 <= k < w.len() implies s[i + k] == w[k] by {
            assert(s.subrange(i, i + w.len() as int)[k] == s[i + k]);
        }
        assert(s.subrange(i, i + parts[0].len() as int) =~= parts[0]) by {
            assert forall|k: int| 0 <= k < parts[0].len() implies s[i + k] == parts[0][k] by {
                assert(w[k] == parts[0][k]);
            }
        }
        lemma_cat_len(t);
        assert(s.subrange(i + parts[0].len(), i + parts[0].len() + spec_cat(t).len() as int)
            =~= spec_cat(t)) by {
            assert forall|k: int| 0 <= k < spec_cat(t).len() implies s[i + parts[0].len() + k]
                == spec_cat(t)[k] by {
                assert(w[parts[0].len() + k] == spec_cat(t)[k]);
            }
        }
        lemma_cat_window(s, i + parts[0].len(), t);
        assert forall|m: int|
            0 <= m < parts.len() implies s.subrange(
            i + spec_cat_off(parts, m),
            i + spec_cat_off(parts, m) + (#[trigger] parts[m]).len(),
        ) == parts[m] by {
            lemma_cat_off_shift(parts, m);
            if m > 0 {
                assert(t[m - 1] == parts[m]);
                assert(s.subrange(
                    i + parts[0].len() + spec_cat_off(t, m - 1),
                    i + parts[0].len() + spec_cat_off(t, m - 1) + t[m - 1].len(),
                ) == t[m - 1]);
            }
        }
    }
}

pub open spec fn spec_ser_deadline_parts(d: Deadline) -> Seq<Seq<char>> {
    match d {
        Deadline::Eternal => seq!["{\"kind\":"@, spec_dec(0), "}"@],
        Deadline::Periodic { start, days } => seq![
            "{\"kind\":"@,
            spec_dec(1),
            ",\"start\":"@,
            spec_dec_i64(start as int),
            ",\"days\":"@,
            spec_dec(days as nat),
            "}"@,
        ],
        Deadline::Fixed(date) => seq![
            "{\"kind\":"@,
            spec_dec(2),
            ",\"date\":"@,
            spec_dec_i64(date as int),
            "}"@,
        ],
    }
}

pub open spec fn spec_ser_deadline(d: Deadline) -> Seq<char> {
    spec_cat(spec_ser_deadline_parts(d))
}

pub open spec fn spec_ser_rgb_parts(c: Rgb) -> Seq<Seq<char>> {
    seq![
        seq!['['],
        spec_dec(c.r as nat),
        seq![','],
        spec_dec(c.g as nat),
        seq![','],
        spec_dec(c.b as nat),
        seq![']'],
    ]
}

pub open spec fn spec_ser_rgb(c: Rgb) -> Seq<char> {
    spec_cat(spec_ser_rgb_parts(c))
}

pub open spec fn spec_ser_str_items(elems: Seq<Seq<char>>) -> Seq<char>
    decreases elems.len(),
{
    if elems.len() == 0 {
        Seq::empty()
    } else if elems.len() == 1 {
        spec_ser_string(elems[0])
    } else {
        spec_ser_str_items(elems.drop_last()) + seq![','] + spec_ser_string(elems.last())
    }
}

pub open spec fn spec_ser_str_array(elems: Seq<Seq<char>>) -> Seq<char> {
    seq!['['] + spec_ser_str_items(elems) + seq![']']
}

pub open spec fn spec_ser_id_items(elems: Seq<u128>) -> Seq<char>
    decreases elems.len(),
{
    if elems.len() == 0 {
        Seq::empty()
    } else if elems.len() == 1 {
        spec_dec(elems[0] as nat)
    } else {
        spec_ser_id_items(elems.drop_last()) + seq![','] + spec_dec(elems.last() as nat)
    }
}

pub open spec fn spec_ser_id_array(elems: Seq<u128>) -> Seq<char> {
    seq!['['] + spec_ser_id_items(elems) + seq![']']
}

pub open spec fn spec_ser_note_parts(n: NoteView) -> Seq<Seq<char>> {
    seq![
        "{\"text\":"@,
        spec_ser_string(n.text),
        ",\"tags\":"@,
        spec_ser_str_array(n.tags),
        ",\"id\":"@,
        spec_dec(n.id as nat),
        ",\"depends\":"@,
        spec_ser_id_array(n.depends),
        ",\"color\":"@,
        spec_ser_rgb(n.color),
        ",\"progress\":"@,
        spec_dec(n.progress as nat),
        ",\"priority\":"@,
        spec_dec(n.priority as nat),
        ",\"deadline\":"@,
        spec_ser_deadline(n.deadline),
        ",\"complete\":"@,
        spec_ser_bool(n.complete),
        ",\"created\":"@,
        spec_dec_i64(n.created as int),
        "}"@,
    ]
}

pub open spec fn spec_ser_note(n: NoteView) -> Seq<char> {
    spec_cat(spec_ser_note_parts(n))
}

pub open spec fn spec_ser_note_items(elems: Seq<NoteView>) -> Seq<char>
    decreases elems.len(),
{
    if elems.len() == 0 {
        Seq::empty()
    } else if elems.len() == 1 {
        spec_ser_note(elems[0])
    } else {
        spec_ser_note_items(elems.drop_last()) + seq![','] + spec_ser_note(elems.last())
    }
}

pub open spec fn spec_ser_note_array(elems: Seq<NoteView>) -> Seq<char> {
    seq!['['] + spec_ser_note_items(elems) + seq![']']
}

pub open spec fn spec_ser_logday_parts(d: LogDayView) -> Seq<Seq<char>> {
    seq![
        "{\"day\":"@,
        spec_dec_i64(d.day as int),
        ",\"notes\":"@,
        spec_ser_note_array(d.entries),
        "}"@,
    ]
}

pub open spec fn spec_ser_logday(d: LogDayView) -> Seq<char> {
    spec_cat(spec_ser_logday_parts(d))
}

pub open spec fn spec_ser_logday_items(elems: Seq<LogDayView>) -> Seq<char>
    decreases elems.len(),
{
    if elems.len() == 0 {
        Seq::empty()
    } else if elems.len() == 1 {
        spec_ser_logday(elems[0])
    } else {
        spec_ser_logday_items(elems.drop_last()) + seq![','] + spec_ser_logday(elems.last())
    }
}

pub open spec fn spec_ser_logday_array(elems: Seq<LogDayView>) -> Seq<char> {
    seq!['['] + spec_ser_logday_items(elems) + seq![']']
}

pub open spec fn spec_ser_userdata_parts(u: UserDataView) -> Seq<Seq<char>> {
    seq![
        "{\"notes\":"@,
        spec_ser_note_array(u.notes),
        ",\"tags\":"@,
        spec_ser_str_array(u.tags),
        ",\"scratchpad\":"@,
        spec_ser_str_array(u.scratchpad),
        ",\"logbook\":"@,
        spec_ser_logday_array(u.logbook),
        "}"@,
    ]
}

/// The whole persisted aggregate in its canonical JSON form.
pub open spec fn spec_ser_userdata(u: UserDataView) -> Seq<char> {
    spec_cat(spec_ser_userdata_parts(u))
}

pub open spec fn spec_strs_distinct(t: Seq<Seq<char>>) -> bool {
    forall|i: int, j: int| 0 <= i < j < t.len() ==> t[i] != t[j]
}

pub open spec fn spec_ids_sorted(d: Seq<u128>) -> bool {
    forall|i: int, j: int| 0 <= i < j < d.len() ==> d[i] < d[j]
}

pub open spec fn spec_notes_sorted(ns: Seq<NoteView>) -> bool {
    forall|i: int, j: int| 0 <= i < j < ns.len() ==> ns[i].id < ns[j].id
}

pub open spec fn spec_days_sorted(ds: Seq<LogDayView>) -> bool {
    forall|i: int, j: int| 0 <= i < j < ds.len() ==> ds[i].day < ds[j].day
}

pub open spec fn spec_parse_u128_max(s: Seq<char>, i: int, max: u128) -> Option<(u128, int)> {
    match spec_parse_u128(s, i) {
        Some((v, j)) => if v <= max {
            Some((v, j))
        } else {
            None
        },
        None => None,
    }
}

/// A day number: a signed decimal within the supported date range.
pub open spec fn spec_parse_day(s: Seq<char>, i: int) -> Option<(i64, int)> {
    match spec_parse_i64(s, i) {
        Some((v, j)) => if -DAY_RANGE <= v <= DAY_RANGE {
            Some((v, j))
        } else {
            None
        },
        None => None,
    }
}

pub open spec fn spec_parse_rgb(s: Seq<char>, i: int) -> Option<(Rgb, int)> {
    match spec_parse_lit(s, i, seq!['[']) {
        Some(j0) => match spec_parse_u128_max(s, j0, 255) {
            Some((r, j1)) => spec_parse_rgb2(s, j1, r as u8),
            None => None,
        },
        None => None,
    }
}

pub open spec fn spec_parse_rgb2(s: Seq<char>, i: int, r: u8) -> Option<(Rgb, int)> {
    match spec_parse_lit(s, i, seq![',']) {
        Some(j2) => match spec_parse_u128_max(s, j2, 255) {
            Some((g, j3)) => spec_parse_rgb3(s, j3, r, g as u8),
            None => None,
        },
        None => None,
    }
}

pub open spec fn spec_parse_rgb3(s: Seq<char>, i: int, r: u8, g: u8) -> Option<(Rgb, int)> {
    match spec_parse_lit(s, i, seq![',']) {
        Some(j4) => match spec_parse_u128_max(s, j4, 255) {
            Some((b, j5)) => match spec_parse_lit(s, j5, seq![']']) {
                Some(j6) => Some((Rgb { r, g, b: b as u8 }, j6)),
                None => None,
            },
            None => None,
        },
        None => None,
    }
}

pub open spec fn spec_parse_deadline(s: Seq<char>, i: int) -> Option<(Deadline, int)> {
    match spec_parse_lit(s, i, "{\"kind\":"@) {
        Some(j0) => match spec_parse_u128_max(s, j0, 2) {
            Some((kind, j1)) => if kind == 0 {
                match spec_parse_lit(s, j1, seq!['}']) {
                    Some(j2) => Some((Deadline::Eternal, j2)),
                    None => None,
                }
            } else if kind == 1 {
                spec_parse_deadline_periodic(s, j1)
            } else {
                spec_parse_deadline_fixed(s, j1)
            },
            None => None,
        },
        None => None,
    }
}

pub open spec fn spec_parse_deadline_periodic(s: Seq<char>, i: int) -> Option<(Deadline, int)> {
    match spec_parse_lit(s, i, ",\"start\":"@) {
        Some(j2) => match spec_parse_day(s, j2) {
            Some((start, j3)) => spec_parse_deadline_periodic2(s, j3, start),
            None => None,
        },
        None => None,
    }
}

pub open spec fn spec_parse_deadline_periodic2(s: Seq<char>, i: int, start: i64) -> Option<
    (Deadline, int),
> {
    match spec_parse_lit(s, i, ",\"days\":"@) {
        Some(j4) => match spec_parse_u128_max(s, j4, 65535) {
            Some((days, j5)) => match spec_parse_lit(s, j5, seq!['}']) {
                Some(j6) => Some((Deadline::Periodic { start, days: days as u16 }, j6)),
                None => None,
            },
            None => None,
        },
        None => None,
    }
}

pub open spec fn spec_parse_deadline_fixed(s: Seq<char>, i: int) -> Option<(Deadline, int)> {
    match spec_parse_lit(s, i, ",\"date\":"@) {
        Some(j2) => match spec_parse_day(s, j2) {
            Some((date, j3)) => match spec_parse_lit(s, j3, seq!['}']) {
                Some(j4) => Some((Deadline::Fixed(date), j4)),
                None => None,
            },
            None => None,
        },
        None => None,
    }
}

pub open spec fn spec_parse_str_items(s: Seq<char>, i: int) -> Option<(Seq<Seq<char>>, int)>
    decreases s.len() - i when 0 <= i <= s.len()
{
    match spec_parse_string(s, i) {
        Some((e, j)) => if i < j < s.len() {
            if s[j] == ',' {
                match spec_parse_str_items(s, j + 1) {
                    Some((rest, k)) => Some((seq![e] + rest, k)),
                    None => None,
                }
            } else if s[j] == ']' {
                Some((seq![e], j + 1))
            } else {
                None
            }
        } else {
            None
        },
        None => None,
    }
}

pub open spec fn spec_parse_str_array(s: Seq<char>, i: int) -> Option<(Seq<Seq<char>>, int)> {
    if 0 <= i && i + 2 <= s.len() && s[i] == '[' {
        if s[i + 1] == ']' {
            Some((Seq::empty(), i + 2))
        } else {
            spec_parse_str_items(s, i + 1)
        }
    } else {
        None
    }
}

pub open spec fn spec_parse_id_items(s: Seq<char>, i: int) -> Option<(Seq<u128>, int)>
    decreases s.len() - i when 0 <= i <= s.len()
{
    match spec_parse_u128(s, i) {
        Some((e, j)) => if i < j < s.len() {
            if s[j] == ',' {
                match spec_parse_id_items(s, j + 1) {
                    Some((rest, k)) => Some((seq![e] + rest, k)),
                    None => None,
                }
            } else if s[j] == ']' {
                Some((seq![e], j + 1))
            } else {
                None
            }
        } else {
            None
        },
        None => None,
    }
}

pub open spec fn spec_parse_id_array(s: Seq<char>, i: int) -> Option<(Seq<u128>, int)> {
    if 0 <= i && i + 2 <= s.len() && s[i] == '[' {
        if s[i + 1] == ']' {
            Some((Seq::empty(), i + 2))
        } else {
            spec_parse_id_items(s, i + 1)
        }
    } else {
        None
    }
}

pub open spec fn spec_parse_note(s: Seq<char>, i: int) -> Option<(NoteView, int)> {
    match spec_parse_lit(s, i, "{\"text\":"@) {
        Some(j0) => match spec_parse_string(s, j0) {
            Some((text, j1)) => spec_parse_note2(s, j1, text),
            None => None,
        },
        None => None,
    }
}

pub open spec fn spec_parse_note2(s: Seq<char>, i: int, text: Seq<char>) -> Option<
    (NoteView, int),
> {
    match spec_parse_lit(s, i, ",\"tags\":"@) {
        Some(j2) => match spec_parse_str_array(s, j2) {
            Some((tags, j3)) => spec_parse_note3(s, j3, text, tags),
            None => None,
        },
        None => None,
    }
}

pub open spec fn spec_parse_note3(
    s: Seq<char>,
    i: int,
    text: Seq<char>,
    tags: Seq<Seq<char>>,
) -> Option<(NoteView, int)> {
    match spec_parse_lit(s, i, ",\"id\":"@) {
        Some(j4) => match spec_parse_u128(s, j4) {
            Some((id, j5)) => spec_parse_note4(s, j5, text, tags, id),
            None => None,
        },
        None => None,
    }
}

pub open spec fn spec_parse_note4(
    s: Seq<char>,
    i: int,
    text: Seq<char>,
    tags: Seq<Seq<char>>,
    id: u128,
) -> Option<(NoteView, int)> {
    match spec_parse_lit(s, i, ",\"depends\":"@) {
        Some(j6) => match spec_parse_id_array(s, j6) {
            Some((depends, j7)) => spec_parse_note5(s, j7, text, tags, id, depends),
            None => None,
        },
        None => None,
    }
}

pub open spec fn spec_parse_note5(
    s: Seq<char>,
    i: int,
    text: Seq<char>,
    tags: Seq<Seq<char>>,
    id: u128,
    depends: Seq<u128>,
) -> Option<(NoteView, int)> {
    match spec_parse_lit(s, i, ",\"color\":"@) {
        Some(j0) => match spec_parse_rgb(s, j0) {
            Some((color, j1)) => spec_parse_note6(s, j1, text, tags, id, depends, color),
            None => None,
        },
        None => None,
    }
}

pub open spec fn spec_parse_note6(
    s: Seq<char>,
    i: int,
    text: Seq<char>,
    tags: Seq<Seq<char>>,
    id: u128,
    depends: Seq<u128>,
    color: Rgb,
) -> Option<(NoteView, int)> {
    match spec_parse_lit(s, i, ",\"progress\":"@) {
        Some(j2) => match spec_parse_u128_max(s, j2, 1000) {
            Some((progress, j3)) => spec_parse_note7(
                s,
                j3,
                text,
                tags,
                id,
                depends,
                color,
                progress as u32,
            ),
            None => None,
        },
        None => None,
    }
}

pub open spec fn spec_parse_note7(
    s: Seq<char>,
    i: int,
    text: Seq<char>,
    tags: Seq<Seq<char>>,
    id: u128,
    depends: Seq<u128>,
    color: Rgb,
    progress: u32,
) -> Option<(NoteView, int)> {
    match spec_parse_lit(s, i, ",\"priority\":"@) {
        Some(j4) => match spec_parse_u128_max(s, j4, 1000) {
            Some((priority, j5)) => spec_parse_note8(
                s,
                j5,
                NoteView {
                    text,
                    tags,
                    id,
                    depends,
                    color,
                    progress,
                    priority: priority as u32,
                    deadline: Deadline::Eternal,
                    complete: false,
                    created: 0,
                },
            ),
            None => None,
        },
        None => None,
    }
}

pub open spec fn spec_parse_note8(s: Seq<char>, i: int, base: NoteView) -> Option<
    (NoteView, int),
> {
    match spec_parse_lit(s, i, ",\"deadline\":"@) {
        Some(j6) => match spec_parse_deadline(s, j6) {
            Some((deadline, j7)) => spec_parse_note9(
                s,
                j7,
                NoteView { deadline, ..base },
            ),
            None => None,
        },
        None => None,
    }
}

pub open spec fn spec_parse_note9(s: Seq<char>, i: int, base: NoteView) -> Option<
    (NoteView, int),
> {
    match spec_parse_lit(s, i, ",\"complete\":"@) {
        Some(j8) => match spec_parse_bool(s, j8) {
            Some((complete, j9)) => spec_parse_note10(
                s,
                j9,
                NoteView { complete, ..base },
            ),
            None => None,
        },
        None => None,
    }
}

pub open spec fn spec_parse_note10(s: Seq<char>, i: int, base: NoteView) -> Option<
    (NoteView, int),
> {
    match spec_parse_lit(s, i, ",\"created\":"@) {
        Some(j10) => match spec_parse_day(s, j10) {
            Some((created, j11)) => match spec_parse_lit(s, j11, seq!['}']) {
                Some(j12) => if spec_strs_distinct(base.tags) && spec_ids_sorted(base.depends) {
                    Some((NoteView { created, ..base }, j12))
                } else {
                    None
                },
                None => None,
            },
            None => None,
        },
        None => None,
    }
}

pub open spec fn spec_parse_note_items(s: Seq<char>, i: int) -> Option<(Seq<NoteView>, int)>
    decreases s.len() - i when 0 <= i <= s.len()
{
    match spec_parse_note(s, i) {
        Some((e, j)) => if i < j < s.len() {
            if s[j] == ',' {
                match spec_parse_note_items(s, j + 1) {
                    Some((rest, k)) => Some((seq![e] + rest, k)),
                    None => None,
                }
            } else if s[j] == ']' {
                Some((seq![e], j + 1))
            } else {
                None
            }
        } else {
            None
        },
        None => None,
    }
}

pub open spec fn spec_parse_note_array(s: Seq<char>, i: int) -> Option<(Seq<NoteView>, int)> {
    if 0 <= i && i + 2 <= s.len() && s[i] == '[' {
        if s[i + 1] == ']' {
            Some((Seq::empty(), i + 2))
        } else {
            spec_parse_note_items(s, i + 1)
        }
    } else {
        None
    }
}

pub open spec fn spec_parse_logday(s: Seq<char>, i: int) -> Option<(LogDayView, int)> {
    match spec_parse_lit(s, i, "{\"day\":"@) {
        Some(j0) => match spec_parse_day(s, j0) {
            Some((day, j1)) => match spec_parse_lit(s, j1, ",\"notes\":"@) {
                Some(j2) => match spec_parse_note_array(s, j2) {
                    Some((entries, j3)) => match spec_parse_lit(s, j3, seq!['}']) {
                        Some(j4) => Some((LogDayView { day, entries }, j4)),
                        None => None,
                    },
                    None => None,
                },
                None => None,
            },
            None => None,
        },
        None => None,
    }
}

pub open spec fn spec_parse_logday_items(s: Seq<char>, i: int) -> Option<(Seq<LogDayView>, int)>
    decreases s.len() - i when 0 <= i <= s.len()
{
    match spec_parse_logday(s, i) {
        Some((e, j)) => if i < j < s.len() {
            if s[j] == ',' {
                match spec_parse_logday_items(s, j + 1) {
                    Some((rest, k)) => Some((seq![e] + rest, k)),
                    None => None,
                }
            } else if s[j] == ']' {
                Some((seq![e], j + 1))
            } else {
                None
            }
        } else {
            None
        },
        None => None,
    }
}

pub open spec fn spec_parse_logday_array(s: Seq<char>, i: int) -> Option<(Seq<LogDayView>, int)> {
    if 0 <= i && i + 2 <= s.len() && s[i] == '[' {
        if s[i + 1] == ']' {
            Some((Seq::empty(), i + 2))
        } else {
            spec_parse_logday_items(s, i + 1)
        }
    } else {
        None
    }
}

/// The whole aggregate: the parse succeeds exactly on the canonical form
/// of a well-formed aggregate, and yields that aggregate.
pub open spec fn spec_parse_userdata(s: Seq<char>, i: int) -> Option<(UserDataView, int)> {
    match spec_parse_lit(s, i, "{\"notes\":"@) {
        Some(j0) => match spec_parse_note_array(s, j0) {
            Some((notes, j1)) => spec_parse_userdata2(s, j1, notes),
            None => None,
        },
        None => None,
    }
}

pub open spec fn spec_parse_userdata2(s: Seq<char>, i: int, notes: Seq<NoteView>) -> Option<
    (UserDataView, int),
> {
    match spec_parse_lit(s, i, ",\"tags\":"@) {
        Some(j2) => match spec_parse_str_array(s, j2) {
            Some((tags, j3)) => spec_parse_userdata3(s, j3, notes, tags),
            None => None,
        },
        None => None,
    }
}

pub open spec fn spec_parse_userdata3(
    s: Seq<char>,
    i: int,
    notes: Seq<NoteView>,
    tags: Seq<Seq<char>>,
) -> Option<(UserDataView, int)> {
    match spec_parse_lit(s, i, ",\"scratchpad\":"@) {
        Some(j4) => match spec_parse_str_array(s, j4) {
            Some((scratchpad, j5)) => spec_parse_userdata4(s, j5, notes, tags, scratchpad),
            None => None,
        },
        None => None,
    }
}

pub open spec fn spec_parse_userdata4(
    s: Seq<char>,
    i: int,
    notes: Seq<NoteView>,
    tags: Seq<Seq<char>>,
    scratchpad: Seq<Seq<char>>,
) -> Option<(UserDataView, int)> {
    match spec_parse_lit(s, i, ",\"logbook\":"@) {
        Some(j6) => match spec_parse_logday_array(s, j6) {
            Some((logbook, j7)) => match spec_parse_lit(s, j7, seq!['}']) {
                Some(j8) => if spec_notes_sorted(notes) && spec_days_sorted(logbook) {
                    Some((UserDataView { notes, tags, scratchpad, logbook }, j8))
                } else {
                    None
                },
                None => None,
            },
            None => None,
        },
        None => None,
    }
}

// ----------------------------------------------------------------------
// round-trip lemmas: parsing the canonical form yields the value back
pub proof fn lemma_parse_ser_bool(b: bool, s: Seq<char>, i: int)
    requires
        0 <= i,
        i + spec_ser_bool(b).len() <= s.len(),
        s.subrange(i, i + spec_ser_bool(b).len() as int) == spec_ser_bool(b),
    ensures
        spec_parse_bool(s, i) == Some((b, i + spec_ser_bool(b).len())),
{
    reveal_strlit("true");
    reveal_strlit("false");
    if b {
    } else {
        if spec_parse_lit(s, i, "true"@) is Some {
            assert(s.subrange(i, i + 4)[0] == s[i]);
            assert(s.subrange(i, i + 5)[0] == s[i]);
            assert(false);
        }
    }
}

/// Applies `lemma_parse_ser_u128` at a part of a window.
proof fn lemma_num_at(s: Seq<char>, p: int, n: u128, nxt: char)
    requires
        0 <= p,
        p + spec_dec(n as nat).len() < s.len(),
        s.subrange(p, p + spec_dec(n as nat).len() as int) == spec_dec(n as nat),
        s[p + spec_dec(n as nat).len()] == nxt,
        !spec_is_digit(nxt),
    ensures
        spec_parse_u128(s, p) == Some((n, p + spec_dec(n as nat).len())),
{
    lemma_parse_ser_u128(s, p, n);
}

proof fn lemma_day_at(s: Seq<char>, p: int, v: i64, nxt: char)
    requires
        0 <= p,
        -DAY_RANGE <= v <= DAY_RANGE,
        p + spec_dec_i64(v as int).len() < s.len(),
        s.subrange(p, p + spec_dec_i64(v as int).len() as int) == spec_dec_i64(v as int),
        s[p + spec_dec_i64(v as int).len()] == nxt,
        !spec_is_digit(nxt),
    ensures
        spec_parse_day(s, p) == Some((v, p + spec_dec_i64(v as int).len())),
{
    lemma_parse_ser_i64(s, p, v);
}

pub proof fn lemma_parse_ser_rgb(c: Rgb, s: Seq<char>, i: int)
    requires
        0 <= i,
        i + spec_ser_rgb(c).len() <= s.len(),
        s.subrange(i, i + spec_ser_rgb(c).len() as int) == spec_ser_rgb(c),
    ensures
        spec_parse_rgb(s, i) == Some((c, i + spec_ser_rgb(c).len())),
{
    let pp = spec_ser_rgb_parts(c);
    lemma_cat_len(pp);
    lemma_cat_window(s, i, pp);
    let o1 = i + spec_cat_off(pp, 1);
    let o2 = i + spec_cat_off(pp, 2);
    let o3 = i + spec_cat_off(pp, 3);
    let o4 = i + spec_cat_off(pp, 4);
    let o5 = i + spec_cat_off(pp, 5);
    let o6 = i + spec_cat_off(pp, 6);
    let o7 = i + spec_cat_off(pp, 7);
    assert(s.subrange(i, i + 1) == pp[0]);
    assert(s.subrange(o2, o3) == pp[2]);
    assert(s.subrange(o4, o5) == pp[4]);
    assert(s.subrange(o6, o7) == pp[6]);
    assert(s[o2] == ',') by {
        assert(s.subrange(o2, o3)[0] == s[o2 + 0]);
    }
    assert(s[o4] == ',') by {
        assert(s.subrange(o4, o5)[0] == s[o4 + 0]);
    }
    assert(s[o6] == ']') by {
        assert(s.subrange(o6, o7)[0] == s[o6 + 0]);
    }
    lemma_num_at(s, o1, c.r as u128, ',');
    lemma_num_at(s, o3, c.g as u128, ',');
    lemma_num_at(s, o5, c.b as u128, ']');
    assert(spec_parse_lit(s, i, seq!['[']) == Some(i + 1)) by {
        assert(s.subrange(i, i + 1) =~= seq![s[i]]);
    }
    assert(spec_parse_lit(s, o2, seq![',']) == Some(o2 + 1)) by {
        assert(s.subrange(o2, o2 + 1) =~= seq![s[o2]]);
    }
    assert(spec_parse_lit(s, o4, seq![',']) == Some(o4 + 1)) by {
        assert(s.subrange(o4, o4 + 1) =~= seq![s[o4]]);
    }
    assert(spec_parse_lit(s, o6, seq![']']) == Some(o6 + 1)) by {
        assert(s.subrange(o6, o6 + 1) =~= seq![s[o6]]);
    }
}

pub proof fn lemma_parse_ser_deadline(d: Deadline, s: Seq<char>, i: int)
    requires
        0 <= i,
        spec_deadline_wf(d),
        i + spec_ser_deadline(d).len() < s.len(),
        s.subrange(i, i + spec_ser_deadline(d).len() as int) == spec_ser_deadline(d),
    ensures
        spec_parse_deadline(s, i) == Some((d, i + spec_ser_deadline(d).len())),
{
    reveal_strlit("{\"kind\":");
    reveal_strlit(",\"start\":");
    reveal_strlit(",\"days\":");
    reveal_strlit(",\"date\":");
    reveal_strlit("}");
    let pp = spec_ser_deadline_parts(d);
    lemma_cat_len(pp);
    lemma_cat_window(s, i, pp);
    match d {
        Deadline::Eternal => {
            let o1 = i + spec_cat_off(pp, 1);
            let o2 = i + spec_cat_off(pp, 2);
            let o3 = i + spec_cat_off(pp, 3);
            assert(s.subrange(i, i + "{\"kind\":"@.len() as int) == pp[0]);
            assert(s.subrange(o2, o3) == pp[2]);
            assert(s[o2] == '}') by {
                assert(s.subrange(o2, o3)[0] == s[o2 + 0]);
            }
            lemma_num_at(s, o1, 0, '}');
            assert(spec_parse_lit(s, o2, seq!['}']) == Some(o2 + 1)) by {
                assert(s.subrange(o2, o2 + 1) =~= seq![s[o2]]);
            }
        },
        Deadline::Periodic { start, days } => {
            let o1 = i + spec_cat_off(pp, 1);
            let o2 = i + spec_cat_off(pp, 2);
            let o3 = i + spec_cat_off(pp, 3);
            let o4 = i + spec_cat_off(pp, 4);
            let o5 = i + spec_cat_off(pp, 5);
            let o6 = i + spec_cat_off(pp, 6);
            let o7 = i + spec_cat_off(pp, 7);
            assert(s.subrange(i, i + "{\"kind\":"@.len() as int) == pp[0]);
            assert(s.subrange(o2, o3) == pp[2]);
            assert(s.subrange(o4, o5) == pp[4]);
            assert(s.subrange(o6, o7) == pp[6]);
            assert(s[o2] == ',') by {
                assert(s.subrange(o2, o3)[0] == s[o2 + 0]);
            }
            assert(s[o4] == ',') by {
                assert(s.subrange(o4, o5)[0] == s[o4 + 0]);
            }
            assert(s[o6] == '}') by {
                assert(s.subrange(o6, o7)[0] == s[o6 + 0]);
            }
            lemma_num_at(s, o1, 1, ',');
            lemma_day_at(s, o3, start, ',');
            lemma_num_at(s, o5, days as u128, '}');
            assert(spec_parse_lit(s, o6, seq!['}']) == Some(o6 + 1)) by {
                assert(s.subrange(o6, o6 + 1) =~= seq![s[o6]]);
            }
        },
        Deadline::Fixed(date) => {
            let o1 = i + spec_cat_off(pp, 1);
            let o2 = i + spec_cat_off(pp, 2);
            let o3 = i + spec_cat_off(pp, 3);
            let o4 = i + spec_cat_off(pp, 4);
            let o5 = i + spec_cat_off(pp, 5);
            assert(s.subrange(i, i + "{\"kind\":"@.len() as int) == pp[0]);
            assert(s.subrange(o2, o3) == pp[2]);
            assert(s.subrange(o4, o5) == pp[4]);
            assert(s[o2] == ',') by {
                assert(s.subrange(o2, o3)[0] == s[o2 + 0]);
            }
            assert(s[o4] == '}') by {
                assert(s.subrange(o4, o5)[0] == s[o4 + 0]);
            }
            lemma_num_at(s, o1, 2, ',');
            lemma_day_at(s, o3, date, '}');
            assert(spec_parse_lit(s, o4, seq!['}']) == Some(o4 + 1)) by {
                assert(s.subrange(o4, o4 + 1) =~= seq![s[o4]]);
            }
        },
    }
}

/// Splitting the items form at the first element.
proof fn lemma_str_items_first(elems: Seq<Seq<char>>)
    requires
        elems.len() >= 1,
    ensures
        spec_ser_str_items(elems) == spec_ser_string(elems[0]) + (if elems.len() > 1 {
            seq![','] + spec_ser_str_items(elems.drop_first())
        } else {
            Seq::empty()
        }),
    decreases elems.len(),
{
    if elems.len() == 1 {
        assert(spec_ser_str_items(elems) =~= spec_ser_string(elems[0]) + Seq::empty());
    } else {
        let dl = elems.drop_last();
        lemma_str_items_first(dl);
        let df = elems.drop_first();
        if elems.len() == 2 {
            assert(dl =~= seq![elems[0]]);
            assert(df =~= seq![elems[1]]);
            assert(spec_ser_str_items(elems) == spec_ser_string(elems[0]) + seq![',']
                + spec_ser_string(elems[1]));
            assert(spec_ser_string(elems[0]) + seq![','] + spec_ser_string(elems[1])
                =~= spec_ser_string(elems[0]) + (seq![','] + spec_ser_str_items(df)));
        } else {
            assert(dl[0] == elems[0]);
            assert(dl.drop_first() =~= df.drop_last());
            assert(df.last() == elems.last());
            assert(spec_ser_str_items(elems) == (spec_ser_string(elems[0]) + (seq![',']
                + spec_ser_str_items(df.drop_last()))) + seq![','] + spec_ser_string(
                elems.last(),
            ));
            assert(spec_ser_str_items(df) == spec_ser_str_items(df.drop_last()) + seq![',']
                + spec_ser_string(df.last()));
            assert((spec_ser_string(elems[0]) + (seq![','] + spec_ser_str_items(df.drop_last())))
                + seq![','] + spec_ser_string(elems.last()) =~= spec_ser_string(elems[0]) + (
            seq![','] + spec_ser_str_items(df)));
        }
    }
}

proof fn lemma_parse_ser_str_items(elems: Seq<Seq<char>>, s: Seq<char>, i: int)
    requires
        elems.len() >= 1,
        0 <= i,
        i + spec_ser_str_items(elems).len() < s.len(),
        s.subrange(i, i + spec_ser_str_items(elems).len() as int) == spec_ser_str_items(elems),
        s[i + spec_ser_str_items(elems).len()] == ']',
    ensures
        spec_parse_str_items(s, i) == Some((elems, i + spec_ser_str_items(elems).len() + 1)),
    decreases elems.len(),
{
    lemma_str_items_first(elems);
    let e0 = spec_ser_string(elems[0]);
    let w = spec_ser_str_items(elems);
    assert forall|k: int| 0 <= k < w.len() implies s[i + k] == w[k] by {
        assert(s.subrange(i, i + w.len() as int)[k] == s[i + k]);
    }
    assert forall|k: int| 0 <= k < e0.len() implies s[i + k] == e0[k] by {
        assert(w[k] == e0[k]);
    }
    assert(s.subrange(i, i + e0.len() as int) =~= e0);
    lemma_parse_ser_string(elems[0], s, i);
    let j = i + e0.len();
    if elems.len() == 1 {
        assert(w =~= e0);
        assert(s[j] == ']');
    } else {
        let tail = seq![','] + spec_ser_str_items(elems.drop_first());
        assert(w =~= e0 + tail);
        assert(s[i + e0.len()] == w[e0.len() as int]);
        assert(w[e0.len() as int] == ',');
        assert forall|k: int|
            0 <= k < spec_ser_str_items(elems.drop_first()).len() implies s[j + 1 + k]
            == spec_ser_str_items(elems.drop_first())[k] by {
            assert(w[e0.len() + 1 + k] == spec_ser_str_items(elems.drop_first())[k]);
        }
        assert(s.subrange(j + 1, j + 1 + spec_ser_str_items(elems.drop_first()).len() as int)
            =~= spec_ser_str_items(elems.drop_first()));
        assert(s[j + 1 + spec_ser_str_items(elems.drop_first()).len()] == ']') by {
            assert(w.len() == e0.len() + 1 + spec_ser_str_items(elems.drop_first()).len());
        }
        lemma_parse_ser_str_items(elems.drop_first(), s, j + 1);
        assert(seq![elems[0]] + elems.drop_first() =~= elems);
    }
}

pub proof fn lemma_parse_ser_str_array(elems: Seq<Seq<char>>, s: Seq<char>, i: int)
    requires
        0 <= i,
        i + spec_ser_str_array(elems).len() <= s.len(),
        s.subrange(i, i + spec_ser_str_array(elems).len() as int) == spec_ser_str_array(elems),
    ensures
        spec_parse_str_array(s, i) == Some((elems, i + spec_ser_str_array(elems).len())),
{
    let w = spec_ser_str_array(elems);
    let items = spec_ser_str_items(elems);
    assert forall|k: int| 0 <= k < w.len() implies s[i + k] == w[k] by {
        assert(s.subrange(i, i + w.len() as int)[k] == s[i + k]);
    }
    assert(w.len() >= 2);
    assert(s[i + 0] == w[0]);
    assert(w[0int] == '[') by {
        assert((seq!['['] + items)[0int] == '[');
    }
    if elems.len() == 0 {
        assert(w =~= seq!['[', ']']);
        assert(s[i + 1] == ']');
    } else {
        assert(w[1int + 0] == items[0]) by {
            assert(items.len() >= 1) by {
                lemma_str_items_first(elems);
            }
        }
        assert(s[i + 1] == items[0]);
        assert(items[0] == '"') by {
            lemma_str_items_first(elems);
            assert(items[0] == spec_ser_string(elems[0])[0]);
        }
        assert forall|k: int| 0 <= k < items.len() implies s[i + 1 + k] == items[k] by {
            assert(w[1 + k] == items[k]);
        }
        assert(s.subrange(i + 1, i + 1 + items.len() as int) =~= items);
        assert(s[i + 1 + items.len()] == ']') by {
            assert(w[1 + items.len() as int] == ']');
        }
        lemma_parse_ser_str_items(elems, s, i + 1);
    }
}

proof fn lemma_id_items_first(elems: Seq<u128>)
    requires
        elems.len() >= 1,
    ensures
        spec_ser_id_items(elems) == spec_dec(elems[0] as nat) + (if elems.len() > 1 {
            seq![','] + spec_ser_id_items(elems.drop_first())
        } else {
            Seq::empty()
        }),
    decreases elems.len(),
{
    if elems.len() == 1 {
        assert(spec_ser_id_items(elems) =~= spec_dec(elems[0] as nat) + Seq::empty());
    } else {
        let dl = elems.drop_last();
        lemma_id_items_first(dl);
        let df = elems.drop_first();
        if elems.len() == 2 {
            assert(dl =~= seq![elems[0]]);
            assert(df =~= seq![elems[1]]);
            assert(spec_dec(elems[0] as nat) + seq![','] + spec_dec(elems[1] as nat)
                =~= spec_dec(elems[0] as nat) + (seq![','] + spec_ser_id_items(df)));
        } else {
            assert(dl[0] == elems[0]);
            assert(dl.drop_first() =~= df.drop_last());
            assert(df.last() == elems.last());
            assert(spec_ser_id_items(df) == spec_ser_id_items(df.drop_last()) + seq![',']
                + spec_dec(df.last() as nat));
            assert((spec_dec(elems[0] as nat) + (seq![','] + spec_ser_id_items(df.drop_last())))
                + seq![','] + spec_dec(elems.last() as nat) =~= spec_dec(elems[0] as nat) + (
            seq![','] + spec_ser_id_items(df)));
        }
    }
}

proof fn lemma_parse_ser_id_items(elems: Seq<u128>, s: Seq<char>, i: int)
    requires
        elems.len() >= 1,
        0 <= i,
        i + spec_ser_id_items(elems).len() < s.len(),
        s.subrange(i, i + spec_ser_id_items(elems).len() as int) == spec_ser_id_items(elems),
        s[i + spec_ser_id_items(elems).len()] == ']',
    ensures
        spec_parse_id_items(s, i) == Some((elems, i + spec_ser_id_items(elems).len() + 1)),
    decreases elems.len(),
{
    lemma_id_items_first(elems);
    let e0 = spec_dec(elems[0] as nat);
    let w = spec_ser_id_items(elems);
    lemma_dec_shape(elems[0] as nat);
    assert forall|k: int| 0 <= k < w.len() implies s[i + k] == w[k] by {
        assert(s.subrange(i, i + w.len() as int)[k] == s[i + k]);
    }
    assert forall|k: int| 0 <= k < e0.len() implies s[i + k] == e0[k] by {
        assert(w[k] == e0[k]);
    }
    assert(s.subrange(i, i + e0.len() as int) =~= e0);
    let j = i + e0.len();
    if elems.len() == 1 {
        assert(w =~= e0);
        assert(s[j] == ']');
        lemma_num_at(s, i, elems[0], ']');
    } else {
        assert(s[i + e0.len()] == w[e0.len() as int]);
        assert(w[e0.len() as int] == ',');
        lemma_num_at(s, i, elems[0], ',');
        let rest = spec_ser_id_items(elems.drop_first());
        assert forall|k: int| 0 <= k < rest.len() implies s[j + 1 + k] == rest[k] by {
            assert(w[e0.len() + 1 + k] == rest[k]);
        }
        assert(s.subrange(j + 1, j + 1 + rest.len() as int) =~= rest);
        assert(s[j + 1 + rest.len()] == ']') by {
            assert(w.len() == e0.len() + 1 + rest.len());
        }
        lemma_parse_ser_id_items(elems.drop_first(), s, j + 1);
        assert(seq![elems[0]] + elems.drop_first() =~= elems);
    }
}

pub proof fn lemma_parse_ser_id_array(elems: Seq<u128>, s: Seq<char>, i: int)
    requires
        0 <= i,
        i + spec_ser_id_array(elems).len() <= s.len(),
        s.subrange(i, i + spec_ser_id_array(elems).len() as int) == spec_ser_id_array(elems),
    ensures
        spec_parse_id_array(s, i) == Some((elems, i + spec_ser_id_array(elems).len())),
{
    let w = spec_ser_id_array(elems);
    let items = spec_ser_id_items(elems);
    assert forall|k: int| 0 <= k < w.len() implies s[i + k] == w[k] by {
        assert(s.subrange(i, i + w.len() as int)[k] == s[i + k]);
    }
    assert(w.len() >= 2);
    assert(s[i + 0] == w[0]);
    assert(w[0int] == '[') by {
        assert((seq!['['] + items)[0int] == '[');
    }
    if elems.len() == 0 {
        assert(w =~= seq!['[', ']']);
        assert(s[i + 1] == ']');
    } else {
        lemma_id_items_first(elems);
        lemma_dec_shape(elems[0] as nat);
        assert(w[1int + 0] == items[0]);
        assert(s[i + 1] == items[0]);
        assert(items[0] == spec_dec(elems[0] as nat)[0]);
        assert(spec_is_digit(items[0]));
        assert(items[0] != ']');
        assert forall|k: int| 0 <= k < items.len() implies s[i + 1 + k] == items[k] by {
            assert(w[1 + k] == items[k]);
        }
        assert(s.subrange(i + 1, i + 1 + items.len() as int) =~= items);
        assert(s[i + 1 + items.len()] == ']') by {
            assert(w[1 + items.len() as int] == ']');
        }
        lemma_parse_ser_id_items(elems, s, i + 1);
    }
}

/// Parsing the canonical note form yields the note back.
#[verifier::rlimit(100)]
#[verifier::spinoff_prover]
pub proof fn lemma_parse_ser_note(n: NoteView, s: Seq<char>, i: int)
    requires
        0 <= i,
        n.wf(),
        i + spec_ser_note(n).len() <= s.len(),
        s.subrange(i, i + spec_ser_note(n).len() as int) == spec_ser_note(n),
    ensures
        spec_parse_note(s, i) == Some((n, i + spec_ser_note(n).len())),
{
    reveal_strlit("{\"text\":");
    reveal_strlit(",\"tags\":");
    reveal_strlit(",\"id\":");
    reveal_strlit(",\"depends\":");
    reveal_strlit(",\"color\":");
    reveal_strlit(",\"progress\":");
    reveal_strlit(",\"priority\":");
    reveal_strlit(",\"deadline\":");
    reveal_strlit(",\"complete\":");
    reveal_strlit(",\"created\":");
    reveal_strlit("}");
    let pp = spec_ser_note_parts(n);
    lemma_cat_len(pp);
    lemma_cat_window(s, i, pp);
    let o0 = i;
    let o1 = i + spec_cat_off(pp, 1);
    let o2 = i + spec_cat_off(pp, 2);
    let o3 = i + spec_cat_off(pp, 3);
    let o4 = i + spec_cat_off(pp, 4);
    let o5 = i + spec_cat_off(pp, 5);
    let o6 = i + spec_cat_off(pp, 6);
    let o7 = i + spec_cat_off(pp, 7);
    let o8 = i + spec_cat_off(pp, 8);
    let o9 = i + spec_cat_off(pp, 9);
    let o10 = i + spec_cat_off(pp, 10);
    let o11 = i + spec_cat_off(pp, 11);
    let o12 = i + spec_cat_off(pp, 12);
    let o13 = i + spec_cat_off(pp, 13);
    let o14 = i + spec_cat_off(pp, 14);
    let o15 = i + spec_cat_off(pp, 15);
    let o16 = i + spec_cat_off(pp, 16);
    let o17 = i + spec_cat_off(pp, 17);
    let o18 = i + spec_cat_off(pp, 18);
    let o19 = i + spec_cat_off(pp, 19);
    let o20 = i + spec_cat_off(pp, 20);
    let o21 = i + spec_cat_off(pp, 21);
    assert(s.subrange(o0, o1) == pp[0]);
    assert(s.subrange(o1, o2) == pp[1]);
    assert(s.subrange(o2, o3) == pp[2]);
    assert(s.subrange(o3, o4) == pp[3]);
    assert(s.subrange(o4, o5) == pp[4]);
    assert(s.subrange(o5, o6) == pp[5]);
    assert(s.subrange(o6, o7) == pp[6]);
    assert(s.subrange(o7, o8) == pp[7]);
    assert(s.subrange(o8, o9) == pp[8]);
    assert(s.subrange(o9, o10) == pp[9]);
    assert(s.subrange(o10, o11) == pp[10]);
    assert(s.subrange(o11, o12) == pp[11]);
    assert(s.subrange(o12, o13) == pp[12]);
    assert(s.subrange(o13, o14) == pp[13]);
    assert(s.subrange(o14, o15) == pp[14]);
    assert(s.subrange(o15, o16) == pp[15]);
    assert(s.subrange(o16, o17) == pp[16]);
    assert(s.subrange(o17, o18) == pp[17]);
    assert(s.subrange(o18, o19) == pp[18]);
    assert(s.subrange(o19, o20) == pp[19]);
    assert(s.subrange(o20, o21) == pp[20]);
    lemma_parse_ser_string(n.text, s, o1);
    lemma_parse_ser_str_array(n.tags, s, o3);
    assert(s[o6] == ',') by {
        assert(s.subrange(o6, o7)[0] == s[o6 + 0]);
    }
    lemma_num_at(s, o5, n.id, ',');
    lemma_parse_ser_id_array(n.depends, s, o7);
    lemma_parse_ser_rgb(n.color, s, o9);
    assert(s[o12] == ',') by {
        assert(s.subrange(o12, o13)[0] == s[o12 + 0]);
    }
    lemma_num_at(s, o11, n.progress as u128, ',');
    assert(s[o14] == ',') by {
        assert(s.subrange(o14, o15)[0] == s[o14 + 0]);
    }
    lemma_num_at(s, o13, n.priority as u128, ',');
    lemma_parse_ser_deadline(n.deadline, s, o15);
    lemma_parse_ser_bool(n.complete, s, o17);
    assert(s[o20] == '}') by {
        assert(s.subrange(o20, o21)[0] == s[o20 + 0]);
    }
    lemma_day_at(s, o19, n.created, '}');
    assert(spec_parse_lit(s, o20, seq!['}']) == Some(o20 + 1)) by {
        assert(s.subrange(o20, o20 + 1) =~= seq![s[o20]]);
    }
    // walk the parse back up, one field at a time
    let base7 = NoteView {
        text: n.text,
        tags: n.tags,
        id: n.id,
        depends: n.depends,
        color: n.color,
        progress: n.progress,
        priority: n.priority,
        deadline: Deadline::Eternal,
        complete: false,
        created: 0,
    };
    let base8 = NoteView { deadline: n.deadline, ..base7 };
    let base9 = NoteView { complete: n.complete, ..base8 };
    assert(NoteView { created: n.created, ..base9 } == n);
    assert(spec_parse_note10(s, o18, base9) == Some((n, o21)));
    assert(spec_parse_note9(s, o16, base8) == Some((n, o21)));
    assert(spec_parse_note8(s, o14, base7) == Some((n, o21)));
    assert(spec_parse_note7(s, o12, n.text, n.tags, n.id, n.depends, n.color, n.progress)
        == Some((n, o21)));
    assert(spec_parse_note6(s, o10, n.text, n.tags, n.id, n.depends, n.color) == Some(
        (n, o21),
    ));
    assert(spec_parse_note5(s, o8, n.text, n.tags, n.id, n.depends) == Some((n, o21)));
    assert(spec_parse_note4(s, o6, n.text, n.tags, n.id) == Some((n, o21)));
    assert(spec_parse_note3(s, o4, n.text, n.tags) == Some((n, o21)));
    assert(spec_parse_note2(s, o2, n.text) == Some((n, o21)));
}

proof fn lemma_note_items_first(elems: Seq<NoteView>)
    requires
        elems.len() >= 1,
    ensures
        spec_ser_note_items(elems) == spec_ser_note(elems[0]) + (if elems.len() > 1 {
            seq![','] + spec_ser_note_items(elems.drop_first())
        } else {
            Seq::empty()
        }),
    decreases elems.len(),
{
    if elems.len() == 1 {
        assert(spec_ser_note_items(elems) =~= spec_ser_note(elems[0]) + Seq::empty());
    } else {
        let dl = elems.drop_last();
        lemma_note_items_first(dl);
        let df = elems.drop_first();
        if elems.len() == 2 {
            assert(dl =~= seq![elems[0]]);
            assert(df =~= seq![elems[1]]);
            assert(spec_ser_note(elems[0]) + seq![','] + spec_ser_note(elems[1])
                =~= spec_ser_note(elems[0]) + (seq![','] + spec_ser_note_items(df)));
        } else {
            assert(dl[0] == elems[0]);
            assert(dl.drop_first() =~= df.drop_last());
            assert(df.last() == elems.last());
            assert(spec_ser_note_items(df) == spec_ser_note_items(df.drop_last()) + seq![',']
                + spec_ser_note(df.last()));
            assert((spec_ser_note(elems[0]) + (seq![','] + spec_ser_note_items(df.drop_last())))
                + seq![','] + spec_ser_note(elems.last()) =~= spec_ser_note(elems[0]) + (
            seq![','] + spec_ser_note_items(df)));
        }
    }
}

/// The canonical note form starts with an opening brace.
proof fn lemma_ser_note_starts(n: NoteView)
    ensures
        spec_ser_note(n).len() >= 1,
        spec_ser_note(n)[0] == '{',
{
    reveal_strlit("{\"text\":");
    let np = spec_ser_note_parts(n);
    lemma_cat_len(np);
    assert(spec_cat_off(np, 0) == 0);
    assert(spec_cat_off(np, 1) == spec_cat_off(np, 0) + np[0].len());
    assert(np.len() == 21);
    assert(spec_cat_off(np, 21) >= spec_cat_off(np, 1));
    assert(spec_ser_note(n) == np[0] + spec_cat(np.drop_first()));
    assert((np[0] + spec_cat(np.drop_first()))[0int] == np[0][0int]);
}

#[verifier::rlimit(100)]
proof fn lemma_parse_ser_note_items(elems: Seq<NoteView>, s: Seq<char>, i: int)
    requires
        elems.len() >= 1,
        forall|k: int| 0 <= k < elems.len() ==> (#[trigger] elems[k]).wf(),
        0 <= i,
        i + spec_ser_note_items(elems).len() < s.len(),
        s.subrange(i, i + spec_ser_note_items(elems).len() as int) == spec_ser_note_items(elems),
        s[i + spec_ser_note_items(elems).len()] == ']',
    ensures
        spec_parse_note_items(s, i) == Some((elems, i + spec_ser_note_items(elems).len() + 1)),
    decreases elems.len(),
{
    lemma_note_items_first(elems);
    let e0 = spec_ser_note(elems[0]);
    let w = spec_ser_note_items(elems);
    assert forall|k: int| 0 <= k < w.len() implies s[i + k] == w[k] by {
        assert(s.subrange(i, i + w.len() as int)[k] == s[i + k]);
    }
    assert forall|k: int| 0 <= k < e0.len() implies s[i + k] == e0[k] by {
        assert(w[k] == e0[k]);
    }
    assert(s.subrange(i, i + e0.len() as int) =~= e0);
    assert(elems[0].wf());
    lemma_parse_ser_note(elems[0], s, i);
    let j = i + e0.len();
    assert(e0.len() >= 1) by {
        lemma_ser_note_starts(elems[0]);
    }
    if elems.len() == 1 {
        assert(w =~= e0);
        assert(s[j] == ']');
    } else {
        assert(s[i + e0.len()] == w[e0.len() as int]);
        assert(w[e0.len() as int] == ',');
        let rest = spec_ser_note_items(elems.drop_first());
        assert forall|k: int| 0 <= k < rest.len() implies s[j + 1 + k] == rest[k] by {
            assert(w[e0.len() + 1 + k] == rest[k]);
        }
        assert(s.subrange(j + 1, j + 1 + rest.len() as int) =~= rest);
        assert(s[j + 1 + rest.len()] == ']') by {
            assert(w.len() == e0.len() + 1 + rest.len());
        }
        assert forall|k: int|
            0 <= k < elems.drop_first().len() implies (#[trigger] elems.drop_first()[k]).wf() by {
            assert(elems.drop_first()[k] == elems[k + 1]);
        }
        lemma_parse_ser_note_items(elems.drop_first(), s, j + 1);
        assert(seq![elems[0]] + elems.drop_first() =~= elems);
    }
}

#[verifier::rlimit(100)]
pub proof fn lemma_parse_ser_note_array(elems: Seq<NoteView>, s: Seq<char>, i: int)
    requires
        forall|k: int| 0 <= k < elems.len() ==> (#[trigger] elems[k]).wf(),
        0 <= i,
        i + spec_ser_note_array(elems).len() <= s.len(),
        s.subrange(i, i + spec_ser_note_array(elems).len() as int) == spec_ser_note_array(elems),
    ensures
        spec_parse_note_array(s, i) == Some((elems, i + spec_ser_note_array(elems).len())),
{
    let w = spec_ser_note_array(elems);
    let items = spec_ser_note_items(elems);
    assert forall|k: int| 0 <= k < w.len() implies s[i + k] == w[k] by {
        assert(s.subrange(i, i + w.len() as int)[k] == s[i + k]);
    }
    assert(w.len() >= 2);
    assert(s[i + 0] == w[0]);
    assert(w[0int] == '[') by {
        assert((seq!['['] + items)[0int] == '[');
    }
    if elems.len() == 0 {
        assert(w =~= seq!['[', ']']);
        assert(s[i + 1] == ']');
    } else {
        lemma_note_items_first(elems);
        lemma_ser_note_starts(elems[0]);
        assert(items[0] == spec_ser_note(elems[0])[0]);
        assert(spec_ser_note(elems[0])[0] == '{');
        assert(w[1int + 0] == items[0]);
        assert(s[i + 1] == items[0]);
        assert(items[0] != ']');
        assert forall|k: int| 0 <= k < items.len() implies s[i + 1 + k] == items[k] by {
            assert(w[1 + k] == items[k]);
        }
        assert(s.subrange(i + 1, i + 1 + items.len() as int) =~= items);
        assert(s[i + 1 + items.len()] == ']') by {
            assert(w[1 + items.len() as int] == ']');
        }
        lemma_parse_ser_note_items(elems, s, i + 1);
    }
}

#[verifier::rlimit(100)]
#[verifier::spinoff_prover]
pub proof fn lemma_parse_ser_logday(d: LogDayView, s: Seq<char>, i: int)
    requires
        0 <= i,
        -DAY_RANGE <= d.day <= DAY_RANGE,
        forall|k: int| 0 <= k < d.entries.len() ==> (#[trigger] d.entries[k]).wf(),
        i + spec_ser_logday(d).len() <= s.len(),
        s.subrange(i, i + spec_ser_logday(d).len() as int) == spec_ser_logday(d),
    ensures
        spec_parse_logday(s, i) == Some((d, i + spec_ser_logday(d).len())),
{
    reveal_strlit("{\"day\":");
    reveal_strlit(",\"notes\":");
    reveal_strlit("}");
    let pp = spec_ser_logday_parts(d);
    lemma_cat_len(pp);
    lemma_cat_window(s, i, pp);
    let o1 = i + spec_cat_off(pp, 1);
    let o2 = i + spec_cat_off(pp, 2);
    let o3 = i + spec_cat_off(pp, 3);
    let o4 = i + spec_cat_off(pp, 4);
    let o5 = i + spec_cat_off(pp, 5);
    assert(s.subrange(i, o1) == pp[0]);
    assert(s.subrange(o1, o2) == pp[1]);
    assert(s.subrange(o2, o3) == pp[2]);
    assert(s.subrange(o3, o4) == pp[3]);
    assert(s.subrange(o4, o5) == pp[4]);
    assert(s[o2] == ',') by {
        assert(s.subrange(o2, o3)[0] == s[o2 + 0]);
    }
    lemma_day_at(s, o1, d.day, ',');
    lemma_parse_ser_note_array(d.entries, s, o3);
    assert(s[o4] == '}') by {
        assert(s.subrange(o4, o5)[0] == s[o4 + 0]);
    }
    assert(spec_parse_lit(s, o4, seq!['}']) == Some(o4 + 1)) by {
        assert(s.subrange(o4, o4 + 1) =~= seq![s[o4]]);
    }
}

/// The canonical logday form starts with an opening brace.
proof fn lemma_ser_logday_starts(d: LogDayView)
    ensures
        spec_ser_logday(d).len() >= 1,
        spec_ser_logday(d)[0] == '{',
{
    reveal_strlit("{\"day\":");
    let np = spec_ser_logday_parts(d);
    lemma_cat_len(np);
    assert(spec_cat_off(np, 0) == 0);
    assert(spec_cat_off(np, 1) == spec_cat_off(np, 0) + np[0].len());
    assert(np.len() == 5);
    assert(spec_cat_off(np, 5) >= spec_cat_off(np, 1));
    assert(spec_ser_logday(d) == np[0] + spec_cat(np.drop_first()));
    assert((np[0] + spec_cat(np.drop_first()))[0int] == np[0][0int]);
}

proof fn lemma_logday_items_first(elems: Seq<LogDayView>)
    requires
        elems.len() >= 1,
    ensures
        spec_ser_logday_items(elems) == spec_ser_logday(elems[0]) + (if elems.len() > 1 {
            seq![','] + spec_ser_logday_items(elems.drop_first())
        } else {
            Seq::empty()
        }),
    decreases elems.len(),
{
    if elems.len() == 1 {
        assert(spec_ser_logday_items(elems) =~= spec_ser_logday(elems[0]) + Seq::empty());
    } else {
        let dl = elems.drop_last();
        lemma_logday_items_first(dl);
        let df = elems.drop_first();
        if elems.len() == 2 {
            assert(dl =~= seq![elems[0]]);
            assert(df =~= seq![elems[1]]);
            assert(spec_ser_logday(elems[0]) + seq![','] + spec_ser_logday(elems[1])
                =~= spec_ser_logday(elems[0]) + (seq![','] + spec_ser_logday_items(df)));
        } else {
            assert(dl[0] == elems[0]);
            assert(dl.drop_first() =~= df.drop_last());
            assert(df.last() == elems.last());
            assert(spec_ser_logday_items(df) == spec_ser_logday_items(df.drop_last()) + seq![',']
                + spec_ser_logday(df.last()));
            assert((spec_ser_logday(elems[0]) + (seq![','] + spec_ser_logday_items(
                df.drop_last(),
            ))) + seq![','] + spec_ser_logday(elems.last()) =~= spec_ser_logday(elems[0]) + (
            seq![','] + spec_ser_logday_items(df)));
        }
    }
}

#[verifier::rlimit(100)]
#[verifier::spinoff_prover]
proof fn lemma_parse_ser_logday_items(elems: Seq<LogDayView>, s: Seq<char>, i: int)
    requires
        elems.len() >= 1,
        forall|k: int|
            0 <= k < elems.len() ==> -DAY_RANGE <= (#[trigger] elems[k]).day <= DAY_RANGE,
        forall|k: int, m: int|
            0 <= k < elems.len() && 0 <= m < elems[k].entries.len() ==> (
            #[trigger] elems[k].entries[m]).wf(),
        0 <= i,
        i + spec_ser_logday_items(elems).len() < s.len(),
        s.subrange(i, i + spec_ser_logday_items(elems).len() as int) == spec_ser_logday_items(
            elems,
        ),
        s[i + spec_ser_logday_items(elems).len()] == ']',
    ensures
        spec_parse_logday_items(s, i) == Some(
            (elems, i + spec_ser_logday_items(elems).len() + 1),
        ),
    decreases elems.len(),
{
    lemma_logday_items_first(elems);
    let e0 = spec_ser_logday(elems[0]);
    let w = spec_ser_logday_items(elems);
    assert forall|k: int| 0 <= k < w.len() implies s[i + k] == w[k] by {
        assert(s.subrange(i, i + w.len() as int)[k] == s[i + k]);
    }
    assert forall|k: int| 0 <= k < e0.len() implies s[i + k] == e0[k] by {
        assert(w[k] == e0[k]);
    }
    assert(s.subrange(i, i + e0.len() as int) =~= e0);
    assert(elems[0].entries.len() >= 0);
    assert forall|m: int|
        0 <= m < elems[0].entries.len() implies (#[trigger] elems[0].entries[m]).wf() by {
        assert(elems[0].entries[m] == elems[0int].entries[m]);
    }
    lemma_parse_ser_logday(elems[0], s, i);
    let j = i + e0.len();
    assert(e0.len() >= 1) by {
        lemma_ser_logday_starts(elems[0]);
    }
    if elems.len() == 1 {
        assert(w =~= e0);
        assert(s[j] == ']');
    } else {
        assert(s[i + e0.len()] == w[e0.len() as int]);
        assert(w[e0.len() as int] == ',');
        let rest = spec_ser_logday_items(elems.drop_first());
        assert forall|k: int| 0 <= k < rest.len() implies s[j + 1 + k] == rest[k] by {
            assert(w[e0.len() + 1 + k] == rest[k]);
        }
        assert(s.subrange(j + 1, j + 1 + rest.len() as int) =~= rest);
        assert(s[j + 1 + rest.len()] == ']') by {
            assert(w.len() == e0.len() + 1 + rest.len());
        }
        assert forall|k: int|
            0 <= k < elems.drop_first().len() implies -DAY_RANGE <= (
        #[trigger] elems.drop_first()[k]).day <= DAY_RANGE by {
            assert(elems.drop_first()[k] == elems[k + 1]);
        }
        assert forall|k: int, m: int|
            0 <= k < elems.drop_first().len() && 0 <= m
                < elems.drop_first()[k].entries.len() implies (
        #[trigger] elems.drop_first()[k].entries[m]).wf() by {
            assert(elems.drop_first()[k] == elems[k + 1]);
            assert(elems[k + 1].entries[m].wf());
        }
        lemma_parse_ser_logday_items(elems.drop_first(), s, j + 1);
        assert(seq![elems[0]] + elems.drop_first() =~= elems);
    }
}

pub proof fn lemma_parse_ser_logday_array(elems: Seq<LogDayView>, s: Seq<char>, i: int)
    requires
        forall|k: int|
            0 <= k < elems.len() ==> -DAY_RANGE <= (#[trigger] elems[k]).day <= DAY_RANGE,
        forall|k: int, m: int|
            0 <= k < elems.len() && 0 <= m < elems[k].entries.len() ==> (
            #[trigger] elems[k].entries[m]).wf(),
        0 <= i,
        i + spec_ser_logday_array(elems).len() <= s.len(),
        s.subrange(i, i + spec_ser_logday_array(elems).len() as int) == spec_ser_logday_array(
            elems,
        ),
    ensures
        spec_parse_logday_array(s, i) == Some(
            (elems, i + spec_ser_logday_array(elems).len()),
        ),
{
    let w = spec_ser_logday_array(elems);
    let items = spec_ser_logday_items(elems);
    assert forall|k: int| 0 <= k < w.len() implies s[i + k] == w[k] by {
        assert(s.subrange(i, i + w.len() as int)[k] == s[i + k]);
    }
    assert(w.len() >= 2);
    assert(s[i + 0] == w[0]);
    assert(w[0int] == '[') by {
        assert((seq!['['] + items)[0int] == '[');
    }
    if elems.len() == 0 {
        assert(w =~= seq!['[', ']']);
        assert(s[i + 1] == ']');
    } else {
        lemma_logday_items_first(elems);
        lemma_ser_logday_starts(elems[0]);
        assert(items[0] == spec_ser_logday(elems[0])[0]);
        assert(items[0] != ']');
        assert(w[1int + 0] == items[0]);
        assert(s[i + 1] == items[0]);
        assert forall|k: int| 0 <= k < items.len() implies s[i + 1 + k] == items[k] by {
            assert(w[1 + k] == items[k]);
        }
        assert(s.subrange(i + 1, i + 1 + items.len() as int) =~= items);
        assert(s[i + 1 + items.len()] == ']') by {
            assert(w[1 + items.len() as int] == ']');
        }
        lemma_parse_ser_logday_items(elems, s, i + 1);
    }
}

/// The codec round trip: parsing the canonical form of a well-formed
/// aggregate yields exactly that aggregate, consuming the whole form.
#[verifier::rlimit(100)]
#[verifier::spinoff_prover]
pub proof fn lemma_parse_ser_userdata(u: UserDataView, s: Seq<char>, i: int)
    requires
        0 <= i,
        u.wf(),
        i + spec_ser_userdata(u).len() <= s.len(),
        s.subrange(i, i + spec_ser_userdata(u).len() as int) == spec_ser_userdata(u),
    ensures
        spec_parse_userdata(s, i) == Some((u, i + spec_ser_userdata(u).len())),
{
    reveal_strlit("{\"notes\":");
    reveal_strlit(",\"tags\":");
    reveal_strlit(",\"scratchpad\":");
    reveal_strlit(",\"logbook\":");
    reveal_strlit("}");
    let pp = spec_ser_userdata_parts(u);
    lemma_cat_len(pp);
    lemma_cat_window(s, i, pp);
    let o1 = i + spec_cat_off(pp, 1);
    let o2 = i + spec_cat_off(pp, 2);
    let o3 = i + spec_cat_off(pp, 3);
    let o4 = i + spec_cat_off(pp, 4);
    let o5 = i + spec_cat_off(pp, 5);
    let o6 = i + spec_cat_off(pp, 6);
    let o7 = i + spec_cat_off(pp, 7);
    let o8 = i + spec_cat_off(pp, 8);
    let o9 = i + spec_cat_off(pp, 9);
    assert(s.subrange(i, o1) == pp[0]);
    assert(s.subrange(o1, o2) == pp[1]);
    assert(s.subrange(o2, o3) == pp[2]);
    assert(s.subrange(o3, o4) == pp[3]);
    assert(s.subrange(o4, o5) == pp[4]);
    assert(s.subrange(o5, o6) == pp[5]);
    assert(s.subrange(o6, o7) == pp[6]);
    assert(s.subrange(o7, o8) == pp[7]);
    assert(s.subrange(o8, o9) == pp[8]);
    lemma_parse_ser_note_array(u.notes, s, o1);
    lemma_parse_ser_str_array(u.tags, s, o3);
    lemma_parse_ser_str_array(u.scratchpad, s, o5);
    assert forall|k: int, m: int|
        0 <= k < u.logbook.len() && 0 <= m < u.logbook[k].entries.len() implies (
    #[trigger] u.logbook[k].entries[m]).wf() by {}
    lemma_parse_ser_logday_array(u.logbook, s, o7);
    assert(s[o8] == '}') by {
        assert(s.subrange(o8, o9)[0] == s[o8 + 0]);
    }
    assert(spec_parse_lit(s, o8, seq!['}']) == Some(o8 + 1)) by {
        assert(s.subrange(o8, o8 + 1) =~= seq![s[o8]]);
    }
}

// ----------------------------------------------------------------------
// executable serializer
/// Appending one more part extends the concatenation at the end.
proof fn lemma_cat_push(parts: Seq<Seq<char>>, p: Seq<char>)
    ensures
        spec_cat(parts.push(p)) == spec_cat(parts) + p,
    decreases parts.len(),
{
    if parts.len() == 0 {
        assert(parts.push(p).drop_first() =~= Seq::<Seq<char>>::empty());
        assert(spec_cat(Seq::<Seq<char>>::empty()) == Seq::<char>::empty());
        assert(parts.push(p)[0] == p);
        assert(spec_cat(parts.push(p)) =~= spec_cat(parts) + p);
    } else {
        lemma_cat_push(parts.drop_first(), p);
        assert(parts.push(p).drop_first() =~= parts.drop_first().push(p));
        assert(parts[0] + (spec_cat(parts.drop_first()) + p) =~= (parts[0] + spec_cat(
            parts.drop_first(),
        )) + p);
    }
}

/// All parts run together, in order.
fn cat_parts(parts: &Vec<Vec<char>>) -> (out: Vec<char>)
    ensures
        out@ == spec_cat(parts.deep_view()),
{
    let mut out: Vec<char> = Vec::new();
    let mut i: usize = 0;
    proof {
        assert(parts.deep_view().take(0) =~= Seq::<Seq<char>>::empty());
    }
    while i < parts.len()
        invariant
            i <= parts.len(),
            out@ == spec_cat(parts.deep_view().take(i as int)),
        decreases parts.len() - i,
    {
        let mut part = clone_chars(&parts[i]);
        proof {
            let pd = parts.deep_view();
            assert(pd[i as int] == parts@[i as int].deep_view());
            assert(parts@[i as int].deep_view() =~= parts@[i as int]@);
            assert(pd.take(i + 1) =~= pd.take(i as int).push(pd[i as int]));
            lemma_cat_push(pd.take(i as int), pd[i as int]);
        }
        out.append(&mut part);
        i = i + 1;
    }
    proof {
        assert(parts.deep_view().take(parts@.len() as int) =~= parts.deep_view());
    }
    out
}

fn digit_char(n: u8) -> (c: char)
    requires
        n < 10,
    ensures
        c == spec_digit_char(n as int),
{
    if n == 0 {
        '0'
    } else if n == 1 {
        '1'
    } else if n == 2 {
        '2'
    } else if n == 3 {
        '3'
    } else if n == 4 {
        '4'
    } else if n == 5 {
        '5'
    } else if n == 6 {
        '6'
    } else if n == 7 {
        '7'
    } else if n == 8 {
        '8'
    } else {
        '9'
    }
}

fn hex_char(n: u8) -> (c: char)
    requires
        n < 16,
    ensures
        c == spec_hex_char(n as int),
{
    if n < 10 {
        digit_char(n)
    } else if n == 10 {
        'a'
    } else if n == 11 {
        'b'
    } else if n == 12 {
        'c'
    } else if n == 13 {
        'd'
    } else if n == 14 {
        'e'
    } else {
        'f'
    }
}

/// The decimal digits of `n`.
fn ser_dec(n: u128) -> (out: Vec<char>)
    ensures
        out@ == spec_dec(n as nat),
    decreases n,
{
    if n < 10 {
        let mut out: Vec<char> = Vec::new();
        out.push(digit_char(n as u8));
        proof {
            assert(out@ =~= seq![spec_digit_char(n as int)]);
        }
        out
    } else {
        let mut out = ser_dec(n / 10);
        out.push(digit_char((n % 10) as u8));
        out
    }
}

fn ser_i64(v: i64) -> (out: Vec<char>)
    ensures
        out@ == spec_dec_i64(v as int),
{
    if v < 0 {
        let m: u128 = (-(v as i128)) as u128;
        let mut out: Vec<char> = Vec::new();
        out.push('-');
        let mut digits = ser_dec(m);
        proof {
            assert(m as nat == (-(v as int)) as nat);
        }
        out.append(&mut digits);
        proof {
            assert(out@ =~= seq!['-'] + spec_dec((-(v as int)) as nat));
        }
        out
    } else {
        ser_dec(v as u128)
    }
}

/// One JSON string with quotes and canonical escapes.
pub(crate) fn ser_string_chars(body: &Vec<char>) -> (out: Vec<char>)
    ensures
        out@ == spec_ser_string(body@),
{
    let mut out: Vec<char> = Vec::new();
    out.push('"');
    let mut i: usize = 0;
    proof {
        assert(out@ =~= seq!['"'] + spec_escape(body@.take(0)));
    }
    while i < body.len()
        invariant
            i <= body.len(),
            out@ == seq!['"'] + spec_escape(body@.take(i as int)),
        decreases body.len() - i,
    {
        let c = body[i];
        proof {
            assert(body@.take(i + 1).drop_last() =~= body@.take(i as int));
            assert(body@.take(i + 1).last() == body@[i as int]);
        }
        if c == '"' {
            out.push('\\');
            out.push('"');
            proof {
                assert(out@ =~= seq!['"'] + spec_escape(body@.take(i + 1)));
            }
        } else if c == '\\' {
            out.push('\\');
            out.push('\\');
            proof {
                assert(out@ =~= seq!['"'] + spec_escape(body@.take(i + 1)));
            }
        } else if (c as u32) < 32 {
            out.push('\\');
            out.push('u');
            out.push('0');
            out.push('0');
            out.push(hex_char((c as u32 / 16) as u8));
            out.push(hex_char((c as u32 % 16) as u8));
            proof {
                assert(out@ =~= seq!['"'] + spec_escape(body@.take(i + 1)));
            }
        } else {
            out.push(c);
            proof {
                assert(out@ =~= seq!['"'] + spec_escape(body@.take(i + 1)));
            }
        }
        i = i + 1;
    }
    out.push('"');
    proof {
        assert(body@.take(body@.len() as int) =~= body@);
        assert(out@ =~= spec_ser_string(body@));
    }
    out
}

fn ser_bool_chars(b: bool) -> (out: Vec<char>)
    ensures
        out@ == spec_ser_bool(b),
{
    if b {
        str_chars("true")
    } else {
        str_chars("false")
    }
}

fn ser_str_array_chars(elems: &Vec<String>) -> (out: Vec<char>)
    ensures
        out@ == spec_ser_str_array(elems.deep_view()),
{
    let mut out: Vec<char> = Vec::new();
    out.push('[');
    let mut i: usize = 0;
    proof {
        assert(elems.deep_view().take(0) =~= Seq::<Seq<char>>::empty());
        assert(out@ =~= seq!['['] + spec_ser_str_items(elems.deep_view().take(0)));
    }
    while i < elems.len()
        invariant
            i <= elems.len(),
            out@ == seq!['['] + spec_ser_str_items(elems.deep_view().take(i as int)),
        decreases elems.len() - i,
    {
        if i > 0 {
            out.push(',');
        }
        let body = str_chars(elems[i].as_str());
        let mut part = ser_string_chars(&body);
        out.append(&mut part);
        proof {
            let ed = elems.deep_view();
            assert(ed[i as int] == elems@[i as int]@);
            assert(body@ == ed[i as int]);
            assert(ed.take(i + 1).drop_last() =~= ed.take(i as int));
            assert(ed.take(i + 1).last() == ed[i as int]);
            if i == 0 {
                assert(ed.take(1).len() == 1);
                assert(out@ =~= seq!['['] + spec_ser_str_items(ed.take(i + 1)));
            } else {
                assert(out@ =~= seq!['['] + spec_ser_str_items(ed.take(i + 1)));
            }
        }
        i = i + 1;
    }
    out.push(']');
    proof {
        assert(elems.deep_view().take(elems@.len() as int) =~= elems.deep_view());
        assert(out@ =~= spec_ser_str_array(elems.deep_view()));
    }
    out
}

fn ser_id_array_chars(elems: &Vec<u128>) -> (out: Vec<char>)
    ensures
        out@ == spec_ser_id_array(elems@),
{
    let mut out: Vec<char> = Vec::new();
    out.push('[');
    let mut i: usize = 0;
    proof {
        assert(elems@.take(0) =~= Seq::<u128>::empty());
        assert(out@ =~= seq!['['] + spec_ser_id_items(elems@.take(0)));
    }
    while i < elems.len()
        invariant
            i <= elems.len(),
            out@ == seq!['['] + spec_ser_id_items(elems@.take(i as int)),
        decreases elems.len() - i,
    {
        if i > 0 {
            out.push(',');
        }
        let mut part = ser_dec(elems[i]);
        out.append(&mut part);
        proof {
            let ed = elems@;
            assert(ed.take(i + 1).drop_last() =~= ed.take(i as int));
            assert(ed.take(i + 1).last() == ed[i as int]);
            if i == 0 {
                assert(ed.take(1).len() == 1);
            }
            assert(out@ =~= seq!['['] + spec_ser_id_items(ed.take(i + 1)));
        }
        i = i + 1;
    }
    out.push(']');
    proof {
        assert(elems@.take(elems@.len() as int) =~= elems@);
        assert(out@ =~= spec_ser_id_array(elems@));
    }
    out
}

fn ser_rgb_chars(c: &Rgb) -> (out: Vec<char>)
    ensures
        out@ == spec_ser_rgb(*c),
{
    let mut parts: Vec<Vec<char>> = Vec::new();
    let mut p: Vec<char> = Vec::new();
    p.push('[');
    parts.push(p);
    parts.push(ser_dec(c.r as u128));
    let mut p2: Vec<char> = Vec::new();
    p2.push(',');
    parts.push(p2);
    parts.push(ser_dec(c.g as u128));
    let mut p3: Vec<char> = Vec::new();
    p3.push(',');
    parts.push(p3);
    parts.push(ser_dec(c.b as u128));
    let mut p4: Vec<char> = Vec::new();
    p4.push(']');
    parts.push(p4);
    proof {
        let pd = parts.deep_view();
        let sp = spec_ser_rgb_parts(*c);
        assert(pd.len() == 7);
        assert forall|k: int| 0 <= k < 7 implies pd[k] == sp[k] by {
            assert(pd[k] == parts@[k].deep_view());
            assert(parts@[k].deep_view() =~= parts@[k]@);
            if k == 0 {
                assert(parts@[0]@ =~= seq!['[']);
            } else if k == 2 {
                assert(parts@[2]@ =~= seq![',']);
            } else if k == 4 {
                assert(parts@[4]@ =~= seq![',']);
            } else if k == 6 {
                assert(parts@[6]@ =~= seq![']']);
            }
        }
        assert(pd =~= sp);
    }
    cat_parts(&parts)
}

fn ser_deadline_chars(d: &Deadline) -> (out: Vec<char>)
    ensures
        out@ == spec_ser_deadline(*d),
{
    match d {
        Deadline::Eternal => {
            let mut parts: Vec<Vec<char>> = Vec::new();
            parts.push(str_chars("{\"kind\":"));
            parts.push(ser_dec(0));
            parts.push(str_chars("}"));
            proof {
                let pd = parts.deep_view();
                let sp = spec_ser_deadline_parts(*d);
                assert(pd.len() == 3);
                assert forall|k: int| 0 <= k < 3 implies pd[k] == sp[k] by {
                    assert(pd[k] == parts@[k].deep_view());
                    assert(parts@[k].deep_view() =~= parts@[k]@);
                }
                assert(pd =~= sp);
            }
            cat_parts(&parts)
        },
        Deadline::Periodic { start, days } => {
            let mut parts: Vec<Vec<char>> = Vec::new();
            parts.push(str_chars("{\"kind\":"));
            parts.push(ser_dec(1));
            parts.push(str_chars(",\"start\":"));
            parts.push(ser_i64(*start));
            parts.push(str_chars(",\"days\":"));
            parts.push(ser_dec(*days as u128));
            parts.push(str_chars("}"));
            proof {
                let pd = parts.deep_view();
                let sp = spec_ser_deadline_parts(*d);
                assert(pd.len() == 7);
                assert forall|k: int| 0 <= k < 7 implies pd[k] == sp[k] by {
                    assert(pd[k] == parts@[k].deep_view());
                    assert(parts@[k].deep_view() =~= parts@[k]@);
                }
                assert(pd =~= sp);
            }
            cat_parts(&parts)
        },
        Deadline::Fixed(date) => {
            let mut parts: Vec<Vec<char>> = Vec::new();
            parts.push(str_chars("{\"kind\":"));
            parts.push(ser_dec(2));
            parts.push(str_chars(",\"date\":"));
            parts.push(ser_i64(*date));
            parts.push(str_chars("}"));
            proof {
                let pd = parts.deep_view();
                let sp = spec_ser_deadline_parts(*d);
                assert(pd.len() == 5);
                assert forall|k: int| 0 <= k < 5 implies pd[k] == sp[k] by {
                    assert(pd[k] == parts@[k].deep_view());
                    assert(parts@[k].deep_view() =~= parts@[k]@);
                }
                assert(pd =~= sp);
            }
            cat_parts(&parts)
        },
    }
}

fn ser_note_chars(n: &Note) -> (out: Vec<char>)
    ensures
        out@ == spec_ser_note(n@),
{
    let mut parts: Vec<Vec<char>> = Vec::new();
    parts.push(str_chars("{\"text\":"));
    let body = str_chars(n.text.as_str());
    parts.push(ser_string_chars(&body));
    parts.push(str_chars(",\"tags\":"));
    parts.push(ser_str_array_chars(&n.tags));
    parts.push(str_chars(",\"id\":"));
    parts.push(ser_dec(n.id));
    parts.push(str_chars(",\"depends\":"));
    parts.push(ser_id_array_chars(&n.depends));
    parts.push(str_chars(",\"color\":"));
    parts.push(ser_rgb_chars(&n.color));
    parts.push(str_chars(",\"progress\":"));
    parts.push(ser_dec(n.progress as u128));
    parts.push(str_chars(",\"priority\":"));
    parts.push(ser_dec(n.priority as u128));
    parts.push(str_chars(",\"deadline\":"));
    parts.push(ser_deadline_chars(&n.deadline));
    parts.push(str_chars(",\"complete\":"));
    parts.push(ser_bool_chars(n.complete));
    parts.push(str_chars(",\"created\":"));
    parts.push(ser_i64(n.created));
    parts.push(str_chars("}"));
    proof {
        let pd = parts.deep_view();
        let sp = spec_ser_note_parts(n@);
        assert(pd.len() == 21);
        assert forall|k: int| 0 <= k < 21 implies pd[k] == sp[k] by {
            assert(pd[k] == parts@[k].deep_view());
            assert(parts@[k].deep_view() =~= parts@[k]@);
        }
        assert(pd =~= sp);
    }
    cat_parts(&parts)
}

fn ser_note_array_chars(elems: &Vec<Note>) -> (out: Vec<char>)
    ensures
        out@ == spec_ser_note_array(elems.deep_view()),
{
    let mut out: Vec<char> = Vec::new();
    out.push('[');
    let mut i: usize = 0;
    proof {
        assert(elems.deep_view().take(0) =~= Seq::<NoteView>::empty());
        assert(out@ =~= seq!['['] + spec_ser_note_items(elems.deep_view().take(0)));
    }
    while i < elems.len()
        invariant
            i <= elems.len(),
            out@ == seq!['['] + spec_ser_note_items(elems.deep_view().take(i as int)),
        decreases elems.len() - i,
    {
        if i > 0 {
            out.push(',');
        }
        let mut part = ser_note_chars(&elems[i]);
        out.append(&mut part);
        proof {
            let ed = elems.deep_view();
            assert(ed[i as int] == elems@[i as int]@);
            assert(ed.take(i + 1).drop_last() =~= ed.take(i as int));
            assert(ed.take(i + 1).last() == ed[i as int]);
            if i == 0 {
                assert(ed.take(1).len() == 1);
            }
            assert(out@ =~= seq!['['] + spec_ser_note_items(ed.take(i + 1)));
        }
        i = i + 1;
    }
    out.push(']');
    proof {
        assert(elems.deep_view().take(elems@.len() as int) =~= elems.deep_view());
        assert(out@ =~= spec_ser_note_array(elems.deep_view()));
    }
    out
}

fn ser_logday_chars(d: &LogDay) -> (out: Vec<char>)
    ensures
        out@ == spec_ser_logday(d@),
{
    let mut parts: Vec<Vec<char>> = Vec::new();
    parts.push(str_chars("{\"day\":"));
    parts.push(ser_i64(d.day));
    parts.push(str_chars(",\"notes\":"));
    parts.push(ser_note_array_chars(&d.entries));
    parts.push(str_chars("}"));
    proof {
        let pd = parts.deep_view();
        let sp = spec_ser_logday_parts(d@);
        assert(pd.len() == 5);
        assert forall|k: int| 0 <= k < 5 implies pd[k] == sp[k] by {
            assert(pd[k] == parts@[k].deep_view());
            assert(parts@[k].deep_view() =~= parts@[k]@);
        }
        assert(pd =~= sp);
    }
    cat_parts(&parts)
}

fn ser_logday_array_chars(elems: &Vec<LogDay>) -> (out: Vec<char>)
    ensures
        out@ == spec_ser_logday_array(elems.deep_view()),
{
    let mut out: Vec<char> = Vec::new();
    out.push('[');
    let mut i: usize = 0;
    proof {
        assert(elems.deep_view().take(0) =~= Seq::<LogDayView>::empty());
        assert(out@ =~= seq!['['] + spec_ser_logday_items(elems.deep_view().take(0)));
    }
    while i < elems.len()
        invariant
            i <= elems.len(),
            out@ == seq!['['] + spec_ser_logday_items(elems.deep_view().take(i as int)),
        decreases elems.len() - i,
    {
        if i > 0 {
            out.push(',');
        }
        let mut part = ser_logday_chars(&elems[i]);
        out.append(&mut part);
        proof {
            let ed = elems.deep_view();
            assert(ed[i as int] == elems@[i as int]@);
            assert(ed.take(i + 1).drop_last() =~= ed.take(i as int));
            assert(ed.take(i + 1).last() == ed[i as int]);
            if i == 0 {
                assert(ed.take(1).len() == 1);
            }
            assert(out@ =~= seq!['['] + spec_ser_logday_items(ed.take(i + 1)));
        }
        i = i + 1;
    }
    out.push(']');
    proof {
        assert(elems.deep_view().take(elems@.len() as int) =~= elems.deep_view());
        assert(out@ =~= spec_ser_logday_array(elems.deep_view()));
    }
    out
}

/// The canonical JSON text of the whole aggregate.
pub fn ser_userdata(u: &UserData) -> (out: String)
    ensures
        out@ == spec_ser_userdata(u@),
{
    let mut parts: Vec<Vec<char>> = Vec::new();
    parts.push(str_chars("{\"notes\":"));
    parts.push(ser_note_array_chars(&u.notes));
    parts.push(str_chars(",\"tags\":"));
    parts.push(ser_str_array_chars(&u.tags));
    parts.push(str_chars(",\"scratchpad\":"));
    parts.push(ser_str_array_chars(&u.scratchpad.sections));
    parts.push(str_chars(",\"logbook\":"));
    parts.push(ser_logday_array_chars(&u.logbook));
    parts.push(str_chars("}"));
    proof {
        let pd = parts.deep_view();
        let sp = spec_ser_userdata_parts(u@);
        assert(pd.len() == 9);
        assert forall|k: int| 0 <= k < 9 implies pd[k] == sp[k] by {
            assert(pd[k] == parts@[k].deep_view());
            assert(parts@[k].deep_view() =~= parts@[k]@);
        }
        assert(pd =~= sp);
    }
    let cats = cat_parts(&parts);
    chars_string(&cats)
}

// ----------------------------------------------------------------------
// executable parser, step for step the spec parser
pub(crate) fn parse_lit(s: &Vec<char>, i: usize, lit: &Vec<char>) -> (r: Option<usize>)
    ensures
        (r is Some) == (spec_parse_lit(s@, i as int, lit@) is Some),
        r matches Some(j) ==> spec_parse_lit(s@, i as int, lit@) == Some(j as int),
{
    if lit.len() > s.len() || i > s.len() - lit.len() {
        proof {
            assert((i as int) + lit@.len() > s@.len());
        }
        return None;
    }
    let n = s.len();
    let mut k: usize = 0;
    while k < lit.len()
        invariant
            k <= lit@.len(),
            n == s@.len(),
            i + lit@.len() <= s@.len(),
            forall|q: int| 0 <= q < k ==> s@[i + q] == lit@[q],
        decreases lit@.len() - k,
    {
        if s[i + k] != lit[k] {
            proof {
                if s@.subrange(i as int, i + lit@.len()) == lit@ {
                    assert(s@.subrange(i as int, i + lit@.len())[k as int] == s@[i + k]);
                }
            }
            return None;
        }
        k = k + 1;
    }
    proof {
        assert(s@.subrange(i as int, i + lit@.len()) =~= lit@);
    }
    Some(i + lit.len())
}

fn is_digit(c: char) -> (b: bool)
    ensures
        b == spec_is_digit(c),
{
    '0' <= c && c <= '9'
}

fn digit_val(c: char) -> (v: u8)
    requires
        spec_is_digit(c),
    ensures
        v == spec_digit_val(c),
        v <= 9,
{
    ((c as u32) - ('0' as u32)) as u8
}

fn parse_u128(s: &Vec<char>, i: usize) -> (r: Option<(u128, usize)>)
    requires
        i <= s@.len(),
    ensures
        (r is Some) == (spec_parse_u128(s@, i as int) is Some),
        r matches Some(p) ==> spec_parse_u128(s@, i as int) == Some((p.0, p.1 as int)),
{
    let mut j: usize = i;
    while j < s.len() && is_digit(s[j])
        invariant
            i <= j <= s@.len(),
            forall|q: int| i <= q < j ==> spec_is_digit(#[trigger] s@[q]),
        decreases s@.len() - j,
    {
        j = j + 1;
    }
    proof {
        lemma_digit_run(s@, i as int, j as int);
    }
    if j == i {
        return None;
    }
    if s[i] == '0' && j > i + 1 {
        return None;
    }
    let mut acc: u128 = 0;
    let mut k: usize = i;
    while k < j
        invariant
            i <= k <= j <= s@.len(),
            i < j,
            j as int == spec_digit_run_end(s@, i as int),
            !(s@[i as int] == '0' && j > i + 1),
            forall|q: int| i <= q < j ==> spec_is_digit(#[trigger] s@[q]),
            acc == spec_num_val(s@, i as int, k as int),
        decreases j - k,
    {
        let d = digit_val(s[k]);
        if acc > (u128::MAX - (d as u128)) / 10 {
            proof {
                lemma_num_val_nonneg(s@, i as int, k as int);
                assert(spec_num_val(s@, i as int, k + 1) == acc * 10 + d);
                assert(acc * 10 + d > u128::MAX) by (nonlinear_arith)
                    requires
                        acc > (u128::MAX - (d as u128)) / 10,
                        acc >= 0,
                        0 <= d <= 9,
                ;
                lemma_num_val_mono(s@, i as int, k + 1, j as int);
            }
            return None;
        }
        proof {
            assert(acc * 10 + d <= u128::MAX) by (nonlinear_arith)
                requires
                    acc <= (u128::MAX - (d as u128)) / 10,
                    acc >= 0,
                    0 <= d <= 9,
            ;
            lemma_num_val_nonneg(s@, i as int, k as int);
        }
        acc = acc * 10 + (d as u128);
        k = k + 1;
    }
    Some((acc, j))
}

fn parse_u128_max(s: &Vec<char>, i: usize, max: u128) -> (r: Option<(u128, usize)>)
    requires
        i <= s@.len(),
    ensures
        (r is Some) == (spec_parse_u128_max(s@, i as int, max) is Some),
        r matches Some(p) ==> spec_parse_u128_max(s@, i as int, max) == Some((p.0, p.1 as int)),
{
    match parse_u128(s, i) {
        Some((v, j)) => if v <= max {
            Some((v, j))
        } else {
            None
        },
        None => None,
    }
}

fn parse_i64(s: &Vec<char>, i: usize) -> (r: Option<(i64, usize)>)
    requires
        i <= s@.len(),
    ensures
        (r is Some) == (spec_parse_i64(s@, i as int) is Some),
        r matches Some(p) ==> spec_parse_i64(s@, i as int) == Some((p.0, p.1 as int)),
{
    if i < s.len() && s[i] == '-' {
        match parse_u128(s, i + 1) {
            Some((m, j)) => if 0 < m && m <= 0x8000_0000_0000_0000u128 {
                Some(((-(m as i128)) as i64, j))
            } else {
                None
            },
            None => None,
        }
    } else {
        match parse_u128(s, i) {
            Some((m, j)) => if m <= i64::MAX as u128 {
                Some((m as i64, j))
            } else {
                None
            },
            None => None,
        }
    }
}

fn parse_day(s: &Vec<char>, i: usize) -> (r: Option<(i64, usize)>)
    requires
        i <= s@.len(),
    ensures
        (r is Some) == (spec_parse_day(s@, i as int) is Some),
        r matches Some(p) ==> spec_parse_day(s@, i as int) == Some((p.0, p.1 as int)),
{
    match parse_i64(s, i) {
        Some((v, j)) => if -DAY_RANGE <= v && v <= DAY_RANGE {
            Some((v, j))
        } else {
            None
        },
        None => None,
    }
}

fn parse_bool(s: &Vec<char>, i: usize) -> (r: Option<(bool, usize)>)
    ensures
        (r is Some) == (spec_parse_bool(s@, i as int) is Some),
        r matches Some(p) ==> spec_parse_bool(s@, i as int) == Some((p.0, p.1 as int)),
{
    let t = str_chars("true");
    let f = str_chars("false");
    match parse_lit(s, i, &t) {
        Some(j) => Some((true, j)),
        None => match parse_lit(s, i, &f) {
            Some(j) => Some((false, j)),
            None => None,
        },
    }
}

fn hex_val(c: char) -> (v: i8)
    ensures
        v == spec_hex_val(c) || (v == -1 && spec_hex_val(c) == -1),
        v as int == spec_hex_val(c),
{
    if is_digit(c) {
        digit_val(c) as i8
    } else if c == 'a' {
        10
    } else if c == 'b' {
        11
    } else if c == 'c' {
        12
    } else if c == 'd' {
        13
    } else if c == 'e' {
        14
    } else if c == 'f' {
        15
    } else {
        -1
    }
}

fn parse_string_body(s: &Vec<char>, i: usize) -> (r: Option<(Vec<char>, usize)>)
    requires
        i <= s@.len(),
    ensures
        (r is Some) == (spec_parse_string_body(s@, i as int) is Some),
        r matches Some(p) ==> spec_parse_string_body(s@, i as int) == Some((p.0@, p.1 as int)),
    decreases s@.len() - i,
{
    if i >= s.len() {
        return None;
    }
    let c = s[i];
    if c == '"' {
        let out: Vec<char> = Vec::new();
        proof {
            assert(out@ =~= Seq::<char>::empty());
        }
        return Some((out, i));
    }
    if c == '\\' {
        if s.len() - i >= 2 && (s[i + 1] == '"' || s[i + 1] == '\\') {
            match parse_string_body(s, i + 2) {
                Some((t, j)) => {
                    let mut out = t;
                    out.insert(0, s[i + 1]);
                    proof {
                        assert(out@ =~= seq![s@[i + 1]] + out@.drop_first());
                    }
                    return Some((out, j));
                },
                None => {
                    return None;
                },
            }
        } else if s.len() - i >= 6 && s[i + 1] == 'u' && s[i + 2] == '0' && s[i + 3] == '0' {
            let hi = hex_val(s[i + 4]);
            let lo = hex_val(s[i + 5]);
            if hi >= 0 && lo >= 0 && (hi as i32) * 16 + (lo as i32) < 32 && hex_char(
                hi as u8,
            ) == s[i + 4] && hex_char(lo as u8) == s[i + 5] {
                match parse_string_body(s, i + 6) {
                    Some((t, j)) => {
                        let code: u32 = (hi as u32) * 16 + (lo as u32);
                        let ch = char_from_u32(code);
                        let mut out = t;
                        out.insert(0, ch);
                        proof {
                            assert(out@ =~= seq![ch] + out@.drop_first());
                        }
                        return Some((out, j));
                    },
                    None => {
                        return None;
                    },
                }
            } else {
                return None;
            }
        } else {
            return None;
        }
    }
    if (c as u32) < 32 {
        return None;
    }
    match parse_string_body(s, i + 1) {
        Some((t, j)) => {
            let mut out = t;
            out.insert(0, c);
            proof {
                assert(out@ =~= seq![s@[i as int]] + out@.drop_first());
            }
            Some((out, j))
        },
        None => None,
    }
}

/// Relies on std's `char::from_u32`: the scalar value with the given code.
/// Only called with codes below 32, which are all valid scalars.
#[verifier::external_body]
fn char_from_u32(code: u32) -> (c: char)
    requires
        code < 0xD800,
    ensures
        c == (code as char),
{
    char::from_u32(code).unwrap_or(' ')
}

pub(crate) fn parse_string(s: &Vec<char>, i: usize) -> (r: Option<(Vec<char>, usize)>)
    requires
        i <= s@.len(),
    ensures
        (r is Some) == (spec_parse_string(s@, i as int) is Some),
        r matches Some(p) ==> spec_parse_string(s@, i as int) == Some((p.0@, p.1 as int)),
{
    if i < s.len() && s[i] == '"' {
        match parse_string_body(s, i + 1) {
            Some((t, j)) => {
                proof {
                    lemma_parse_string_body_bound(s@, i + 1);
                }
                Some((t, j + 1))
            },
            None => None,
        }
    } else {
        None
    }
}

/// A successful body parse stops at the closing quote, inside the text.
proof fn lemma_parse_string_body_bound(s: Seq<char>, i: int)
    requires
        0 <= i <= s.len(),
        spec_parse_string_body(s, i) is Some,
    ensures
        i <= spec_parse_string_body(s, i)->Some_0.1 < s.len(),
    decreases s.len() - i,
{
    if i >= s.len() {
    } else if s[i] == '"' {
    } else if s[i] == '\\' {
        if i + 2 <= s.len() && (s[i + 1] == '"' || s[i + 1] == '\\') {
            lemma_parse_string_body_bound(s, i + 2);
        } else if s.len() - i >= 6 && s[i + 1] == 'u' && s[i + 2] == '0' && s[i + 3] == '0' {
            lemma_parse_string_body_bound(s, i + 6);
        }
    } else if (s[i] as u32) < 32 {
    } else {
        lemma_parse_string_body_bound(s, i + 1);
    }
}

fn parse_rgb(s: &Vec<char>, i: usize) -> (r: Option<(Rgb, usize)>)
    requires
        i <= s@.len(),
    ensures
        (r is Some) == (spec_parse_rgb(s@, i as int) is Some),
        r matches Some(p) ==> spec_parse_rgb(s@, i as int) == Some((p.0, p.1 as int)),
{
    let mut open_b: Vec<char> = Vec::new();
    open_b.push('[');
    let mut comma: Vec<char> = Vec::new();
    comma.push(',');
    let mut close_b: Vec<char> = Vec::new();
    close_b.push(']');
    proof {
        assert(open_b@ =~= seq!['[']);
        assert(comma@ =~= seq![',']);
        assert(close_b@ =~= seq![']']);
    }
    let j0 = match parse_lit(s, i, &open_b) {
        Some(j) => j,
        None => {
            return None;
        },
    };
    let (rv, j1) = match parse_u128_max(s, j0, 255) {
        Some(p) => p,
        None => {
            return None;
        },
    };
    let j2 = match parse_lit(s, j1, &comma) {
        Some(j) => j,
        None => {
            return None;
        },
    };
    let (gv, j3) = match parse_u128_max(s, j2, 255) {
        Some(p) => p,
        None => {
            return None;
        },
    };
    let j4 = match parse_lit(s, j3, &comma) {
        Some(j) => j,
        None => {
            return None;
        },
    };
    let (bv, j5) = match parse_u128_max(s, j4, 255) {
        Some(p) => p,
        None => {
            return None;
        },
    };
    let j6 = match parse_lit(s, j5, &close_b) {
        Some(j) => j,
        None => {
            return None;
        },
    };
    Some((Rgb { r: rv as u8, g: gv as u8, b: bv as u8 }, j6))
}

fn parse_deadline(s: &Vec<char>, i: usize) -> (r: Option<(Deadline, usize)>)
    requires
        i <= s@.len(),
    ensures
        (r is Some) == (spec_parse_deadline(s@, i as int) is Some),
        r matches Some(p) ==> spec_parse_deadline(s@, i as int) == Some((p.0, p.1 as int)),
        r matches Some(p) ==> spec_deadline_wf(p.0),
{
    let kind_lit = str_chars("{\"kind\":");
    let start_lit = str_chars(",\"start\":");
    let days_lit = str_chars(",\"days\":");
    let date_lit = str_chars(",\"date\":");
    let mut close: Vec<char> = Vec::new();
    close.push('}');
    proof {
        assert(close@ =~= seq!['}']);
    }
    let j0 = match parse_lit(s, i, &kind_lit) {
        Some(j) => j,
        None => {
            return None;
        },
    };
    let (kind, j1) = match parse_u128_max(s, j0, 2) {
        Some(p) => p,
        None => {
            return None;
        },
    };
    if kind == 0 {
        match parse_lit(s, j1, &close) {
            Some(j2) => Some((Deadline::Eternal, j2)),
            None => None,
        }
    } else if kind == 1 {
        let j2 = match parse_lit(s, j1, &start_lit) {
            Some(j) => j,
            None => {
                return None;
            },
        };
        let (start, j3) = match parse_day(s, j2) {
            Some(p) => p,
            None => {
                return None;
            },
        };
        let j4 = match parse_lit(s, j3, &days_lit) {
            Some(j) => j,
            None => {
                return None;
            },
        };
        let (days, j5) = match parse_u128_max(s, j4, 65535) {
            Some(p) => p,
            None => {
                return None;
            },
        };
        let j6 = match parse_lit(s, j5, &close) {
            Some(j) => j,
            None => {
                return None;
            },
        };
        Some((Deadline::Periodic { start, days: days as u16 }, j6))
    } else {
        let j2 = match parse_lit(s, j1, &date_lit) {
            Some(j) => j,
            None => {
                return None;
            },
        };
        let (date, j3) = match parse_day(s, j2) {
            Some(p) => p,
            None => {
                return None;
            },
        };
        let j4 = match parse_lit(s, j3, &close) {
            Some(j) => j,
            None => {
                return None;
            },
        };
        Some((Deadline::Fixed(date), j4))
    }
}

fn parse_str_items(s: &Vec<char>, i: usize) -> (r: Option<(Vec<String>, usize)>)
    requires
        i <= s@.len(),
    ensures
        (r is Some) == (spec_parse_str_items(s@, i as int) is Some),
        r matches Some(p) ==> spec_parse_str_items(s@, i as int) == Some(
            (p.0.deep_view(), p.1 as int),
        ),
    decreases s@.len() - i,
{
    let (e, j) = match parse_string(s, i) {
        Some(p) => p,
        None => {
            return None;
        },
    };
    if i < j && j < s.len() {
        if s[j] == ',' {
            match parse_str_items(s, j + 1) {
                Some((rest, k)) => {
                    let ghost rd = rest.deep_view();
                    let ghost rv = rest@;
                    let es = chars_string(&e);
                    let mut out = rest;
                    out.insert(0, es);
                    proof {
                        assert forall|q: int| 0 <= q < out@.len() implies out.deep_view()[q]
                            == (seq![e@] + rd)[q] by {
                            if q == 0 {
                                assert(out@[0]@ == e@);
                            } else {
                                assert(out@[q] == rv[q - 1]);
                                assert(rd[q - 1] == rv[q - 1].deep_view());
                            }
                        }
                        assert(out.deep_view() =~= seq![e@] + rd);
                    }
                    Some((out, k))
                },
                None => None,
            }
        } else if s[j] == ']' {
            let es = chars_string(&e);
            let mut out: Vec<String> = Vec::new();
            out.push(es);
            proof {
                assert(out.deep_view() =~= seq![e@]);
            }
            Some((out, j + 1))
        } else {
            None
        }
    } else {
        None
    }
}

fn parse_str_array(s: &Vec<char>, i: usize) -> (r: Option<(Vec<String>, usize)>)
    requires
        i <= s@.len(),
    ensures
        (r is Some) == (spec_parse_str_array(s@, i as int) is Some),
        r matches Some(p) ==> spec_parse_str_array(s@, i as int) == Some(
            (p.0.deep_view(), p.1 as int),
        ),
{
    if s.len() - i >= 2 && s[i] == '[' {
        if s[i + 1] == ']' {
            let out: Vec<String> = Vec::new();
            proof {
                assert(out.deep_view() =~= Seq::<Seq<char>>::empty());
            }
            Some((out, i + 2))
        } else {
            parse_str_items(s, i + 1)
        }
    } else {
        None
    }
}

fn parse_id_items(s: &Vec<char>, i: usize) -> (r: Option<(Vec<u128>, usize)>)
    requires
        i <= s@.len(),
    ensures
        (r is Some) == (spec_parse_id_items(s@, i as int) is Some),
        r matches Some(p) ==> spec_parse_id_items(s@, i as int) == Some((p.0@, p.1 as int)),
    decreases s@.len() - i,
{
    let (e, j) = match parse_u128(s, i) {
        Some(p) => p,
        None => {
            return None;
        },
    };
    if i < j && j < s.len() {
        if s[j] == ',' {
            match parse_id_items(s, j + 1) {
                Some((rest, k)) => {
                    let mut out = rest;
                    out.insert(0, e);
                    proof {
                        assert(out@ =~= seq![e] + out@.drop_first());
                    }
                    Some((out, k))
                },
                None => None,
            }
        } else if s[j] == ']' {
            let mut out: Vec<u128> = Vec::new();
            out.push(e);
            proof {
                assert(out@ =~= seq![e]);
            }
            Some((out, j + 1))
        } else {
            None
        }
    } else {
        None
    }
}

fn parse_id_array(s: &Vec<char>, i: usize) -> (r: Option<(Vec<u128>, usize)>)
    requires
        i <= s@.len(),
    ensures
        (r is Some) == (spec_parse_id_array(s@, i as int) is Some),
        r matches Some(p) ==> spec_parse_id_array(s@, i as int) == Some((p.0@, p.1 as int)),
{
    if s.len() - i >= 2 && s[i] == '[' {
        if s[i + 1] == ']' {
            let out: Vec<u128> = Vec::new();
            proof {
                assert(out@ =~= Seq::<u128>::empty());
            }
            Some((out, i + 2))
        } else {
            parse_id_items(s, i + 1)
        }
    } else {
        None
    }
}

fn strs_distinct_exec(t: &Vec<String>) -> (b: bool)
    ensures
        b == spec_strs_distinct(t.deep_view()),
{
    let mut i: usize = 0;
    while i < t.len()
        invariant
            i <= t@.len(),
            forall|a: int, b2: int|
                0 <= a < b2 < t.deep_view().len() && a < i ==> #[trigger] t.deep_view()[a]
                    != #[trigger] t.deep_view()[b2],
        decreases t@.len() - i,
    {
        let mut j: usize = i + 1;
        while j < t.len()
            invariant
                i < j <= t@.len() || (i + 1 == j && j >= t@.len()),
                i < t@.len(),
                forall|b2: int|
                    i < b2 < j ==> t.deep_view()[i as int] != #[trigger] t.deep_view()[b2],
            decreases t@.len() - j,
        {
            if t[i].eq(&t[j]) {
                proof {
                    assert(t.deep_view()[i as int] == t@[i as int]@);
                    assert(t.deep_view()[j as int] == t@[j as int]@);
                }
                return false;
            }
            proof {
                assert(t.deep_view()[i as int] == t@[i as int]@);
                assert(t.deep_view()[j as int] == t@[j as int]@);
            }
            j = j + 1;
        }
        i = i + 1;
    }
    true
}

fn ids_sorted_exec(d: &Vec<u128>) -> (b: bool)
    ensures
        b == spec_ids_sorted(d@),
{
    let mut i: usize = 1;
    while i < d.len()
        invariant
            1 <= i || d@.len() == 0,
            forall|a: int, b2: int| 0 <= a < b2 < i ==> d@[a] < d@[b2],
        decreases d@.len() - i,
    {
        if d[i - 1] >= d[i] {
            return false;
        }
        i = i + 1;
    }
    true
}

#[verifier::rlimit(100)]
fn parse_note(s: &Vec<char>, i: usize) -> (r: Option<(Note, usize)>)
    requires
        i <= s@.len(),
    ensures
        (r is Some) == (spec_parse_note(s@, i as int) is Some),
        r matches Some(p) ==> spec_parse_note(s@, i as int) == Some((p.0@, p.1 as int)),
        r matches Some(p) ==> p.0@.wf(),
{
    let text_lit = str_chars("{\"text\":");
    let tags_lit = str_chars(",\"tags\":");
    let id_lit = str_chars(",\"id\":");
    let dep_lit = str_chars(",\"depends\":");
    let color_lit = str_chars(",\"color\":");
    let prog_lit = str_chars(",\"progress\":");
    let prio_lit = str_chars(",\"priority\":");
    let dl_lit = str_chars(",\"deadline\":");
    let comp_lit = str_chars(",\"complete\":");
    let created_lit = str_chars(",\"created\":");
    let mut close: Vec<char> = Vec::new();
    close.push('}');
    proof {
        assert(close@ =~= seq!['}']);
    }
    let j0 = match parse_lit(s, i, &text_lit) {
        Some(j) => j,
        None => {
            return None;
        },
    };
    proof {
        lemma_parse_lit_bound(s@, i as int, text_lit@);
    }
    let (text, j1) = match parse_string(s, j0) {
        Some(p) => p,
        None => {
            return None;
        },
    };
    proof {
        lemma_parse_string_bound(s@, j0 as int);
    }
    let j2 = match parse_lit(s, j1, &tags_lit) {
        Some(j) => j,
        None => {
            return None;
        },
    };
    proof {
        lemma_parse_lit_bound(s@, j1 as int, tags_lit@);
    }
    let (tags, j3) = match parse_str_array(s, j2) {
        Some(p) => p,
        None => {
            return None;
        },
    };
    proof {
        lemma_parse_str_array_bound(s@, j2 as int);
    }
    let j4 = match parse_lit(s, j3, &id_lit) {
        Some(j) => j,
        None => {
            return None;
        },
    };
    proof {
        lemma_parse_lit_bound(s@, j3 as int, id_lit@);
    }
    let (id, j5) = match parse_u128(s, j4) {
        Some(p) => p,
        None => {
            return None;
        },
    };
    proof {
        lemma_parse_u128_bound(s@, j4 as int);
    }
    let j6 = match parse_lit(s, j5, &dep_lit) {
        Some(j) => j,
        None => {
            return None;
        },
    };
    proof {
        lemma_parse_lit_bound(s@, j5 as int, dep_lit@);
    }
    let (depends, j7) = match parse_id_array(s, j6) {
        Some(p) => p,
        None => {
            return None;
        },
    };
    proof {
        lemma_parse_id_array_bound(s@, j6 as int);
    }
    let j8 = match parse_lit(s, j7, &color_lit) {
        Some(j) => j,
        None => {
            return None;
        },
    };
    proof {
        lemma_parse_lit_bound(s@, j7 as int, color_lit@);
    }
    let (color, j9) = match parse_rgb(s, j8) {
        Some(p) => p,
        None => {
            return None;
        },
    };
    proof {
        lemma_parse_rgb_bound(s@, j8 as int);
    }
    let j10 = match parse_lit(s, j9, &prog_lit) {
        Some(j) => j,
        None => {
            return None;
        },
    };
    proof {
        lemma_parse_lit_bound(s@, j9 as int, prog_lit@);
    }
    let (progress, j11) = match parse_u128_max(s, j10, 1000) {
        Some(p) => p,
        None => {
            return None;
        },
    };
    proof {
        lemma_parse_u128_bound(s@, j10 as int);
    }
    let j12 = match parse_lit(s, j11, &prio_lit) {
        Some(j) => j,
        None => {
            return None;
        },
    };
    proof {
        lemma_parse_lit_bound(s@, j11 as int, prio_lit@);
    }
    let (priority, j13) = match parse_u128_max(s, j12, 1000) {
        Some(p) => p,
        None => {
            return None;
        },
    };
    proof {
        lemma_parse_u128_bound(s@, j12 as int);
    }
    let j14 = match parse_lit(s, j13, &dl_lit) {
        Some(j) => j,
        None => {
            return None;
        },
    };
    proof {
        lemma_parse_lit_bound(s@, j13 as int, dl_lit@);
    }
    let (deadline, j15) = match parse_deadline(s, j14) {
        Some(p) => p,
        None => {
            return None;
        },
    };
    proof {
        lemma_parse_deadline_bound(s@, j14 as int);
    }
    let j16 = match parse_lit(s, j15, &comp_lit) {
        Some(j) => j,
        None => {
            return None;
        },
    };
    proof {
        lemma_parse_lit_bound(s@, j15 as int, comp_lit@);
    }
    let (complete, j17) = match parse_bool(s, j16) {
        Some(p) => p,
        None => {
            return None;
        },
    };
    proof {
        lemma_parse_bool_bound(s@, j16 as int);
    }
    let j18 = match parse_lit(s, j17, &created_lit) {
        Some(j) => j,
        None => {
            return None;
        },
    };
    proof {
        lemma_parse_lit_bound(s@, j17 as int, created_lit@);
    }
    let (created, j19) = match parse_day(s, j18) {
        Some(p) => p,
        None => {
            return None;
        },
    };
    proof {
        lemma_parse_day_bound(s@, j18 as int);
    }
    let j20 = match parse_lit(s, j19, &close) {
        Some(j) => j,
        None => {
            return None;
        },
    };
    if !strs_distinct_exec(&tags) {
        return None;
    }
    if !ids_sorted_exec(&depends) {
        return None;
    }
    let n = Note {
        text: chars_string(&text),
        tags,
        id,
        depends,
        color,
        progress: progress as u32,
        priority: priority as u32,
        deadline,
        complete,
        created,
    };
    Some((n, j20))
}

/// A matched literal ends inside the text.
proof fn lemma_parse_lit_bound(s: Seq<char>, i: int, lit: Seq<char>)
    requires
        spec_parse_lit(s, i, lit) is Some,
    ensures
        i <= spec_parse_lit(s, i, lit)->Some_0 <= s.len(),
{
}

pub(crate) proof fn lemma_parse_string_bound(s: Seq<char>, i: int)
    requires
        0 <= i <= s.len(),
        spec_parse_string(s, i) is Some,
    ensures
        i <= spec_parse_string(s, i)->Some_0.1 <= s.len(),
{
    lemma_parse_string_body_bound(s, i + 1);
}

proof fn lemma_digit_run_bound(s: Seq<char>, i: int)
    requires
        0 <= i <= s.len(),
    ensures
        i <= spec_digit_run_end(s, i) <= s.len(),
    decreases s.len() - i,
{
    if i < s.len() && spec_is_digit(s[i]) {
        lemma_digit_run_bound(s, i + 1);
    }
}

proof fn lemma_parse_u128_bound(s: Seq<char>, i: int)
    requires
        0 <= i <= s.len(),
        spec_parse_u128(s, i) is Some,
    ensures
        i <= spec_parse_u128(s, i)->Some_0.1 <= s.len(),
{
    lemma_digit_run_bound(s, i);
}

proof fn lemma_parse_str_array_bound(s: Seq<char>, i: int)
    requires
        0 <= i <= s.len(),
        spec_parse_str_array(s, i) is Some,
    ensures
        0 <= spec_parse_str_array(s, i)->Some_0.1 <= s.len(),
{
    if i + 2 <= s.len() && s[i] == '[' && s[i + 1] != ']' {
        lemma_parse_str_items_bound(s, i + 1);
    }
}

proof fn lemma_parse_str_items_bound(s: Seq<char>, i: int)
    requires
        0 <= i <= s.len(),
        spec_parse_str_items(s, i) is Some,
    ensures
        0 <= spec_parse_str_items(s, i)->Some_0.1 <= s.len(),
    decreases s.len() - i,
{
    let (e, j) = spec_parse_string(s, i)->Some_0;
    if i < j < s.len() {
        if s[j] == ',' {
            lemma_parse_str_items_bound(s, j + 1);
        }
    }
}

proof fn lemma_parse_id_array_bound(s: Seq<char>, i: int)
    requires
        0 <= i <= s.len(),
        spec_parse_id_array(s, i) is Some,
    ensures
        0 <= spec_parse_id_array(s, i)->Some_0.1 <= s.len(),
{
    if i + 2 <= s.len() && s[i] == '[' && s[i + 1] != ']' {
        lemma_parse_id_items_bound(s, i + 1);
    }
}

proof fn lemma_parse_id_items_bound(s: Seq<char>, i: int)
    requires
        0 <= i <= s.len(),
        spec_parse_id_items(s, i) is Some,
    ensures
        0 <= spec_parse_id_items(s, i)->Some_0.1 <= s.len(),
    decreases s.len() - i,
{
    let (e, j) = spec_parse_u128(s, i)->Some_0;
    if i < j < s.len() {
        if s[j] == ',' {
            lemma_parse_id_items_bound(s, j + 1);
        }
    }
}

proof fn lemma_parse_rgb_bound(s: Seq<char>, i: int)
    requires
        0 <= i <= s.len(),
        spec_parse_rgb(s, i) is Some,
    ensures
        0 <= spec_parse_rgb(s, i)->Some_0.1 <= s.len(),
{
    let j0 = spec_parse_lit(s, i, seq!['['])->Some_0;
    let (r, j1) = spec_parse_u128_max(s, j0, 255)->Some_0;
    lemma_parse_u128_bound(s, j0);
    let j2 = spec_parse_lit(s, j1, seq![','])->Some_0;
    let (g, j3) = spec_parse_u128_max(s, j2, 255)->Some_0;
    lemma_parse_u128_bound(s, j2);
    let j4 = spec_parse_lit(s, j3, seq![','])->Some_0;
    let (b, j5) = spec_parse_u128_max(s, j4, 255)->Some_0;
    lemma_parse_u128_bound(s, j4);
}

proof fn lemma_parse_day_bound(s: Seq<char>, i: int)
    requires
        0 <= i <= s.len(),
        spec_parse_day(s, i) is Some,
    ensures
        0 <= spec_parse_day(s, i)->Some_0.1 <= s.len(),
{
    if i < s.len() && s[i] == '-' {
        lemma_parse_u128_bound(s, i + 1);
    } else {
        lemma_parse_u128_bound(s, i);
    }
}

proof fn lemma_parse_deadline_bound(s: Seq<char>, i: int)
    requires
        0 <= i <= s.len(),
        spec_parse_deadline(s, i) is Some,
    ensures
        0 <= spec_parse_deadline(s, i)->Some_0.1 <= s.len(),
{
    let j0 = spec_parse_lit(s, i, "{\"kind\":"@)->Some_0;
    let (kind, j1) = spec_parse_u128_max(s, j0, 2)->Some_0;
    lemma_parse_u128_bound(s, j0);
    if kind == 1 {
        let j2 = spec_parse_lit(s, j1, ",\"start\":"@)->Some_0;
        let (start, j3) = spec_parse_day(s, j2)->Some_0;
        lemma_parse_day_bound(s, j2);
        let j4 = spec_parse_lit(s, j3, ",\"days\":"@)->Some_0;
        let (days, j5) = spec_parse_u128_max(s, j4, 65535)->Some_0;
        lemma_parse_u128_bound(s, j4);
    } else if kind == 2 {
        let j2 = spec_parse_lit(s, j1, ",\"date\":"@)->Some_0;
        lemma_parse_day_bound(s, j2);
    }
}

proof fn lemma_parse_bool_bound(s: Seq<char>, i: int)
    requires
        spec_parse_bool(s, i) is Some,
    ensures
        0 <= spec_parse_bool(s, i)->Some_0.1 <= s.len(),
{
}

proof fn lemma_parse_note_bound(s: Seq<char>, i: int)
    requires
        0 <= i <= s.len(),
        spec_parse_note(s, i) is Some,
    ensures
        0 <= spec_parse_note(s, i)->Some_0.1 <= s.len(),
{
    let j0 = spec_parse_lit(s, i, "{\"text\":"@)->Some_0;
    lemma_parse_string_bound(s, j0);
    let (text, j1) = spec_parse_string(s, j0)->Some_0;
    let j2 = spec_parse_lit(s, j1, ",\"tags\":"@)->Some_0;
    lemma_parse_str_array_bound(s, j2);
    let (tags, j3) = spec_parse_str_array(s, j2)->Some_0;
    let j4 = spec_parse_lit(s, j3, ",\"id\":"@)->Some_0;
    lemma_parse_u128_bound(s, j4);
    let (id, j5) = spec_parse_u128(s, j4)->Some_0;
    let j6 = spec_parse_lit(s, j5, ",\"depends\":"@)->Some_0;
    lemma_parse_id_array_bound(s, j6);
    let (depends, j7) = spec_parse_id_array(s, j6)->Some_0;
    let j8 = spec_parse_lit(s, j7, ",\"color\":"@)->Some_0;
    lemma_parse_rgb_bound(s, j8);
    let (color, j9) = spec_parse_rgb(s, j8)->Some_0;
    let j10 = spec_parse_lit(s, j9, ",\"progress\":"@)->Some_0;
    lemma_parse_u128_bound(s, j10);
    let (progress, j11) = spec_parse_u128_max(s, j10, 1000)->Some_0;
    let j12 = spec_parse_lit(s, j11, ",\"priority\":"@)->Some_0;
    lemma_parse_u128_bound(s, j12);
    let (priority, j13) = spec_parse_u128_max(s, j12, 1000)->Some_0;
    let j14 = spec_parse_lit(s, j13, ",\"deadline\":"@)->Some_0;
    lemma_parse_deadline_bound(s, j14);
    let (deadline, j15) = spec_parse_deadline(s, j14)->Some_0;
    let j16 = spec_parse_lit(s, j15, ",\"complete\":"@)->Some_0;
    lemma_parse_bool_bound(s, j16);
    let (complete, j17) = spec_parse_bool(s, j16)->Some_0;
    let j18 = spec_parse_lit(s, j17, ",\"created\":"@)->Some_0;
    lemma_parse_day_bound(s, j18);
}

#[verifier::rlimit(100)]
#[verifier::spinoff_prover]
fn parse_note_items(s: &Vec<char>, i: usize) -> (r: Option<(Vec<Note>, usize)>)
    requires
        i <= s@.len(),
    ensures
        (r is Some) == (spec_parse_note_items(s@, i as int) is Some),
        r matches Some(p) ==> spec_parse_note_items(s@, i as int) == Some(
            (p.0.deep_view(), p.1 as int),
        ),
        r matches Some(p) ==> forall|k: int|
            0 <= k < p.0.deep_view().len() ==> (#[trigger] p.0.deep_view()[k]).wf(),
    decreases s@.len() - i,
{
    let (e, j) = match parse_note(s, i) {
        Some(p) => p,
        None => {
            return None;
        },
    };
    proof {
        lemma_parse_note_bound(s@, i as int);
    }
    if i < j && j < s.len() {
        if s[j] == ',' {
            match parse_note_items(s, j + 1) {
                Some((rest, k)) => {
                    let ghost rd = rest.deep_view();
                    let ghost rv = rest@;
                    let ghost ev = e@;
                    let mut out = rest;
                    out.insert(0, e);
                    proof {
                        assert forall|q: int| 0 <= q < out@.len() implies out.deep_view()[q]
                            == (seq![ev] + rd)[q] by {
                            if q == 0 {
                                assert(out@[0]@ == ev);
                            } else {
                                assert(out@[q] == rv[q - 1]);
                                assert(rd[q - 1] == rv[q - 1].deep_view());
                            }
                        }
                        assert(out.deep_view() =~= seq![ev] + rd);
                    }
                    Some((out, k))
                },
                None => None,
            }
        } else if s[j] == ']' {
            let ghost ev = e@;
            let mut out: Vec<Note> = Vec::new();
            out.push(e);
            proof {
                assert(out.deep_view() =~= seq![ev]);
            }
            Some((out, j + 1))
        } else {
            None
        }
    } else {
        None
    }
}

fn parse_note_array(s: &Vec<char>, i: usize) -> (r: Option<(Vec<Note>, usize)>)
    requires
        i <= s@.len(),
    ensures
        (r is Some) == (spec_parse_note_array(s@, i as int) is Some),
        r matches Some(p) ==> spec_parse_note_array(s@, i as int) == Some(
            (p.0.deep_view(), p.1 as int),
        ),
        r matches Some(p) ==> forall|k: int|
            0 <= k < p.0.deep_view().len() ==> (#[trigger] p.0.deep_view()[k]).wf(),
{
    if s.len() - i >= 2 && s[i] == '[' {
        if s[i + 1] == ']' {
            let out: Vec<Note> = Vec::new();
            proof {
                assert(out.deep_view() =~= Seq::<NoteView>::empty());
            }
            Some((out, i + 2))
        } else {
            parse_note_items(s, i + 1)
        }
    } else {
        None
    }
}

fn parse_logday(s: &Vec<char>, i: usize) -> (r: Option<(LogDay, usize)>)
    requires
        i <= s@.len(),
    ensures
        (r is Some) == (spec_parse_logday(s@, i as int) is Some),
        r matches Some(p) ==> spec_parse_logday(s@, i as int) == Some((p.0@, p.1 as int)),
        r matches Some(p) ==> -DAY_RANGE <= p.0@.day <= DAY_RANGE && forall|k: int|
            0 <= k < p.0@.entries.len() ==> (#[trigger] p.0@.entries[k]).wf(),
{
    let day_lit = str_chars("{\"day\":");
    let notes_lit = str_chars(",\"notes\":");
    let mut close: Vec<char> = Vec::new();
    close.push('}');
    proof {
        assert(close@ =~= seq!['}']);
    }
    let j0 = match parse_lit(s, i, &day_lit) {
        Some(j) => j,
        None => {
            return None;
        },
    };
    proof {
        lemma_parse_lit_bound(s@, i as int, day_lit@);
    }
    let (day, j1) = match parse_day(s, j0) {
        Some(p) => p,
        None => {
            return None;
        },
    };
    proof {
        lemma_parse_day_bound(s@, j0 as int);
    }
    let j2 = match parse_lit(s, j1, &notes_lit) {
        Some(j) => j,
        None => {
            return None;
        },
    };
    proof {
        lemma_parse_lit_bound(s@, j1 as int, notes_lit@);
    }
    let (entries, j3) = match parse_note_array(s, j2) {
        Some(p) => p,
        None => {
            return None;
        },
    };
    let j4 = match parse_lit(s, j3, &close) {
        Some(j) => j,
        None => {
            return None;
        },
    };
    Some((LogDay { day, entries }, j4))
}

proof fn lemma_parse_note_array_bound(s: Seq<char>, i: int)
    requires
        0 <= i <= s.len(),
        spec_parse_note_array(s, i) is Some,
    ensures
        0 <= spec_parse_note_array(s, i)->Some_0.1 <= s.len(),
{
    if i + 2 <= s.len() && s[i] == '[' && s[i + 1] != ']' {
        lemma_parse_note_items_bound(s, i + 1);
    }
}

proof fn lemma_parse_note_items_bound(s: Seq<char>, i: int)
    requires
        0 <= i <= s.len(),
        spec_parse_note_items(s, i) is Some,
    ensures
        0 <= spec_parse_note_items(s, i)->Some_0.1 <= s.len(),
    decreases s.len() - i,
{
    let (e, j) = spec_parse_note(s, i)->Some_0;
    if i < j < s.len() {
        if s[j] == ',' {
            lemma_parse_note_items_bound(s, j + 1);
        }
    }
}

fn parse_logday_items(s: &Vec<char>, i: usize) -> (r: Option<(Vec<LogDay>, usize)>)
    requires
        i <= s@.len(),
    ensures
        (r is Some) == (spec_parse_logday_items(s@, i as int) is Some),
        r matches Some(p) ==> spec_parse_logday_items(s@, i as int) == Some(
            (p.0.deep_view(), p.1 as int),
        ),
        r matches Some(p) ==> forall|k: int, m: int|
            0 <= k < p.0.deep_view().len() && 0 <= m < p.0.deep_view()[k].entries.len() ==> (
            #[trigger] p.0.deep_view()[k].entries[m]).wf(),
        r matches Some(p) ==> forall|k: int|
            0 <= k < p.0.deep_view().len() ==> -DAY_RANGE <= (
            #[trigger] p.0.deep_view()[k]).day <= DAY_RANGE,
    decreases s@.len() - i,
{
    let (e, j) = match parse_logday(s, i) {
        Some(p) => p,
        None => {
            return None;
        },
    };
    proof {
        let j0 = spec_parse_lit(s@, i as int, "{\"day\":"@)->Some_0;
        lemma_parse_day_bound(s@, j0);
        let (dayv, j1) = spec_parse_day(s@, j0)->Some_0;
        let j2 = spec_parse_lit(s@, j1, ",\"notes\":"@)->Some_0;
        lemma_parse_note_array_bound(s@, j2);
    }
    if i < j && j < s.len() {
        if s[j] == ',' {
            match parse_logday_items(s, j + 1) {
                Some((rest, k)) => {
                    let ghost rd = rest.deep_view();
                    let ghost rv = rest@;
                    let ghost ev = e@;
                    let mut out = rest;
                    out.insert(0, e);
                    proof {
                        assert forall|q: int| 0 <= q < out@.len() implies out.deep_view()[q]
                            == (seq![ev] + rd)[q] by {
                            if q == 0 {
                                assert(out@[0]@ == ev);
                            } else {
                                assert(out@[q] == rv[q - 1]);
                                assert(rd[q - 1] == rv[q - 1].deep_view());
                            }
                        }
                        assert(out.deep_view() =~= seq![ev] + rd);
                    }
                    Some((out, k))
                },
                None => None,
            }
        } else if s[j] == ']' {
            let ghost ev = e@;
            let mut out: Vec<LogDay> = Vec::new();
            out.push(e);
            proof {
                assert(out.deep_view() =~= seq![ev]);
            }
            Some((out, j + 1))
        } else {
            None
        }
    } else {
        None
    }
}

fn parse_logday_array(s: &Vec<char>, i: usize) -> (r: Option<(Vec<LogDay>, usize)>)
    requires
        i <= s@.len(),
    ensures
        (r is Some) == (spec_parse_logday_array(s@, i as int) is Some),
        r matches Some(p) ==> spec_parse_logday_array(s@, i as int) == Some(
            (p.0.deep_view(), p.1 as int),
        ),
        r matches Some(p) ==> forall|k: int, m: int|
            0 <= k < p.0.deep_view().len() && 0 <= m < p.0.deep_view()[k].entries.len() ==> (
            #[trigger] p.0.deep_view()[k].entries[m]).wf(),
        r matches Some(p) ==> forall|k: int|
            0 <= k < p.0.deep_view().len() ==> -DAY_RANGE <= (
            #[trigger] p.0.deep_view()[k]).day <= DAY_RANGE,
{
    if s.len() - i >= 2 && s[i] == '[' {
        if s[i + 1] == ']' {
            let out: Vec<LogDay> = Vec::new();
            proof {
                assert(out.deep_view() =~= Seq::<LogDayView>::empty());
            }
            Some((out, i + 2))
        } else {
            parse_logday_items(s, i + 1)
        }
    } else {
        None
    }
}

fn notes_sorted_exec(notes: &Vec<Note>) -> (b: bool)
    ensures
        b == spec_notes_sorted(notes.deep_view()),
{
    let mut i: usize = 1;
    while i < notes.len()
        invariant
            1 <= i || notes@.len() == 0,
            forall|a: int, b2: int|
                0 <= a < b2 < i ==> (#[trigger] notes.deep_view()[a]).id < (
                #[trigger] notes.deep_view()[b2]).id,
        decreases notes@.len() - i,
    {
        if notes[i - 1].id >= notes[i].id {
            proof {
                assert(notes.deep_view()[i - 1].id == notes@[i - 1]@.id);
                assert(notes.deep_view()[i as int].id == notes@[i as int]@.id);
            }
            return false;
        }
        proof {
            assert(notes.deep_view()[i - 1].id == notes@[i - 1]@.id);
            assert(notes.deep_view()[i as int].id == notes@[i as int]@.id);
        }
        i = i + 1;
    }
    true
}

fn days_sorted_exec(ds: &Vec<LogDay>) -> (b: bool)
    ensures
        b == spec_days_sorted(ds.deep_view()),
{
    let mut i: usize = 1;
    while i < ds.len()
        invariant
            1 <= i || ds@.len() == 0,
            forall|a: int, b2: int|
                0 <= a < b2 < i ==> (#[trigger] ds.deep_view()[a]).day < (
                #[trigger] ds.deep_view()[b2]).day,
        decreases ds@.len() - i,
    {
        if ds[i - 1].day >= ds[i].day {
            proof {
                assert(ds.deep_view()[i - 1].day == ds@[i - 1]@.day);
                assert(ds.deep_view()[i as int].day == ds@[i as int]@.day);
            }
            return false;
        }
        proof {
            assert(ds.deep_view()[i - 1].day == ds@[i - 1]@.day);
            assert(ds.deep_view()[i as int].day == ds@[i as int]@.day);
        }
        i = i + 1;
    }
    true
}

/// Reads the canonical JSON form back into the aggregate. Succeeds exactly
/// when the whole text is the canonical form of a well-formed aggregate,
/// and then returns that aggregate.
#[verifier::rlimit(100)]
pub fn parse_userdata(text: &str) -> (r: Option<UserData>)
    ensures
        r matches Some(u) ==> u@.wf() && spec_parse_userdata(text@, 0) == Some(
            (u@, text@.len() as int),
        ),
        r is None ==> !(spec_parse_userdata(text@, 0) matches Some((uv, j)) && j
            == text@.len()),
{
    let s = str_chars(text);
    let notes_lit = str_chars("{\"notes\":");
    let tags_lit = str_chars(",\"tags\":");
    let scratch_lit = str_chars(",\"scratchpad\":");
    let logbook_lit = str_chars(",\"logbook\":");
    let mut close: Vec<char> = Vec::new();
    close.push('}');
    proof {
        assert(close@ =~= seq!['}']);
    }
    let j0 = match parse_lit(&s, 0, &notes_lit) {
        Some(j) => j,
        None => {
            return None;
        },
    };
    proof {
        lemma_parse_lit_bound(s@, 0, notes_lit@);
    }
    let (notes, j1) = match parse_note_array(&s, j0) {
        Some(p) => p,
        None => {
            return None;
        },
    };
    proof {
        lemma_parse_note_array_bound(s@, j0 as int);
    }
    let j2 = match parse_lit(&s, j1, &tags_lit) {
        Some(j) => j,
        None => {
            return None;
        },
    };
    proof {
        lemma_parse_lit_bound(s@, j1 as int, tags_lit@);
    }
    let (tags, j3) = match parse_str_array(&s, j2) {
        Some(p) => p,
        None => {
            return None;
        },
    };
    proof {
        lemma_parse_str_array_bound(s@, j2 as int);
    }
    let j4 = match parse_lit(&s, j3, &scratch_lit) {
        Some(j) => j,
        None => {
            return None;
        },
    };
    proof {
        lemma_parse_lit_bound(s@, j3 as int, scratch_lit@);
    }
    let (scratchpad, j5) = match parse_str_array(&s, j4) {
        Some(p) => p,
        None => {
            return None;
        },
    };
    proof {
        lemma_parse_str_array_bound(s@, j4 as int);
    }
    let j6 = match parse_lit(&s, j5, &logbook_lit) {
        Some(j) => j,
        None => {
            return None;
        },
    };
    proof {
        lemma_parse_lit_bound(s@, j5 as int, logbook_lit@);
    }
    let (logbook, j7) = match parse_logday_array(&s, j6) {
        Some(p) => p,
        None => {
            return None;
        },
    };
    let j8 = match parse_lit(&s, j7, &close) {
        Some(j) => j,
        None => {
            return None;
        },
    };
    if !notes_sorted_exec(&notes) {
        return None;
    }
    if !days_sorted_exec(&logbook) {
        return None;
    }
    if j8 != s.len() {
        return None;
    }
    let u = UserData {
        notes,
        tags,
        scratchpad: crate::userdata::ScratchPad { sections: scratchpad },
        logbook,
    };
    Some(u)
}

} // verus!
