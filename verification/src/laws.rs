//! General properties of the grammar, stated and proved over the model.

use vstd::prelude::*;

use crate::grammar::{
    digit_count, double_of, find_quote, is_blank, is_number_lit, lemma_digit_count_bounds,
    lemma_exponent_bounds, spec_array, spec_bool, spec_elements, spec_exponent_end, spec_member,
    spec_members, spec_more_elements, spec_more_members, spec_null, spec_number, spec_object,
    spec_string, spec_value, ws_count, SpecJson,
};

verus! {

/// Parsing one of the literals `null`, `true` or `false` yields the
/// corresponding `Null` or `Bool` value and consumes exactly the literal's
/// characters.
pub proof fn lemma_literal_value(s: Seq<char>)
    ensures
        s =~= seq!['n', 'u', 'l', 'l'] ==> spec_value(s, 0) == Some((SpecJson::Null, 4int)),
        s =~= seq!['t', 'r', 'u', 'e'] ==> spec_value(s, 0) == Some((SpecJson::Bool(true), 4int)),
        s =~= seq!['f', 'a', 'l', 's', 'e'] ==> spec_value(s, 0) == Some(
            (SpecJson::Bool(false), 5int),
        ),
{
    if s =~= seq!['n', 'u', 'l', 'l'] {
        assert(ws_count(s, 0) == 0);
        assert(spec_null(s, 0) == Some(4int));
        assert(ws_count(s, 4) == 0);
    }
    if s =~= seq!['t', 'r', 'u', 'e'] {
        assert(ws_count(s, 0) == 0);
        assert(spec_bool(s, 0) == Some((true, 4int)));
        assert(ws_count(s, 4) == 0);
    }
    if s =~= seq!['f', 'a', 'l', 's', 'e'] {
        assert(ws_count(s, 0) == 0);
        assert(spec_bool(s, 0) == Some((false, 5int)));
        assert(ws_count(s, 5) == 0);
    }
}

/// The first `"` at or after `from` is found where the characters before
/// it are no quotes and a quote stands at `j`.
pub proof fn lemma_find_quote_at(s: Seq<char>, from: int, j: int)
    requires
        0 <= from <= j < s.len(),
        s[j] == '"',
        forall|i: int| from <= i < j ==> s[i] != '"',
    ensures
        find_quote(s, from) == Some(j),
    decreases j - from,
{
    if from < j {
        lemma_find_quote_at(s, from + 1, j);
    }
}

/// Parsing a quoted text whose contents hold no quote yields `Str` of
/// exactly those contents and consumes through the closing quote.
pub proof fn lemma_string_value(t: Seq<char>, s: Seq<char>)
    requires
        s =~= seq!['"'] + t + seq!['"'],
        forall|i: int| 0 <= i < t.len() ==> t[i] != '"',
    ensures
        spec_string(s, 0) == Some((t, t.len() + 2int)),
        spec_value(s, 0) == Some((SpecJson::Str(t), t.len() + 2int)),
{
    assert(s.len() == t.len() + 2);
    assert(s[0] == '"');
    assert(s[t.len() as int + 1] == '"');
    assert(forall|i: int| 1 <= i < t.len() as int + 1 ==> s[i] == t[i - 1]);
    lemma_find_quote_at(s, 1, t.len() as int + 1);
    assert(s.subrange(1, t.len() as int + 1) =~= t);
    assert(ws_count(s, 0) == 0);
    assert(ws_count(s, t.len() as int + 2) == 0);
}

/// Parsing a complete numeric literal yields `Number` of the double that
/// literal denotes and consumes the whole literal.
pub proof fn lemma_number_value(s: Seq<char>)
    requires
        is_number_lit(s),
    ensures
        spec_value(s, 0) == Some((SpecJson::Number(double_of(s)), s.len() as int)),
{
    let m = if 0 < s.len() && (s[0] == '+' || s[0] == '-') {
        1int
    } else {
        0int
    };
    assert(s.len() > 0);
    if m == 0 {
        if digit_count(s, 0) > 0 {
            assert(crate::grammar::is_digit(s[0]));
        } else {
            assert(s[0] == '.');
        }
    }
    assert(!is_blank(s[0]));
    assert(ws_count(s, 0) == 0);
    assert(s[0] != '{' && s[0] != '[' && s[0] != '"' && s[0] != 't' && s[0] != 'f' && s[0] != 'n');
    assert(s.subrange(0, s.len() as int) =~= s);
    assert(ws_count(s, s.len() as int) == 0);
}

/// A run of blanks stays within the text.
pub proof fn lemma_ws_count_bounds(s: Seq<char>, pos: int)
    requires
        0 <= pos <= s.len(),
    ensures
        pos + ws_count(s, pos) <= s.len(),
    decreases s.len() - pos,
{
    if pos < s.len() && is_blank(s[pos]) {
        lemma_ws_count_bounds(s, pos + 1);
    }
}

/// A found quote lies at or after the start and within the text.
pub proof fn lemma_find_quote_bounds(s: Seq<char>, from: int)
    requires
        0 <= from,
    ensures
        find_quote(s, from) matches Some(j) ==> from <= j < s.len() && s[j] == '"',
    decreases s.len() - from,
{
    if from < s.len() && s[from] != '"' {
        lemma_find_quote_bounds(s, from + 1);
    }
}

/// A matched number ends after its start and within the text.
pub proof fn lemma_number_bounds(s: Seq<char>, pos: int)
    requires
        0 <= pos,
    ensures
        spec_number(s, pos) matches Some(q) ==> pos < q <= s.len(),
{
    let m = if pos < s.len() && (s[pos] == '+' || s[pos] == '-') {
        pos + 1
    } else {
        pos
    };
    if spec_number(s, pos) is Some {
        if digit_count(s, m) > 0 {
            lemma_digit_count_bounds(s, m);
            let f = m + digit_count(s, m);
            if f < s.len() && s[f] == '.' {
                lemma_digit_count_bounds(s, f + 1);
                lemma_exponent_bounds(s, f + 1 + digit_count(s, f + 1));
            } else {
                lemma_exponent_bounds(s, f);
            }
        } else {
            lemma_digit_count_bounds(s, m + 1);
            lemma_exponent_bounds(s, m + 1 + digit_count(s, m + 1));
        }
    }
}

/// A matched value ends after its start and within the text.
pub proof fn lemma_value_bounds(s: Seq<char>, pos: int)
    requires
        0 <= pos,
    ensures
        spec_value(s, pos) matches Some((v, q)) ==> pos < q <= s.len(),
    decreases s.len() - pos, 4int,
{
    if spec_value(s, pos) is Some {
        let p = pos + ws_count(s, pos);
        lemma_ws_count_bounds(s, pos);
        if s[p] == '{' {
            lemma_object_bounds(s, p);
            let q = spec_object(s, p)->Some_0.1;
            lemma_ws_count_bounds(s, q);
        } else if s[p] == '[' {
            lemma_array_bounds(s, p);
            let q = spec_array(s, p)->Some_0.1;
            lemma_ws_count_bounds(s, q);
        } else if s[p] == '"' {
            lemma_find_quote_bounds(s, p + 1);
            let q = spec_string(s, p)->Some_0.1;
            lemma_ws_count_bounds(s, q);
        } else if s[p] == 't' || s[p] == 'f' {
            let q = spec_bool(s, p)->Some_0.1;
            lemma_ws_count_bounds(s, q);
        } else if s[p] == 'n' {
            let q = spec_null(s, p)->Some_0;
            lemma_ws_count_bounds(s, q);
        } else {
            lemma_number_bounds(s, p);
            let q = spec_number(s, p)->Some_0;
            lemma_ws_count_bounds(s, q);
        }
    }
}

/// A matched array ends after its start and within the text.
pub proof fn lemma_array_bounds(s: Seq<char>, pos: int)
    requires
        0 <= pos,
    ensures
        spec_array(s, pos) matches Some((v, q)) ==> pos < q <= s.len(),
    decreases s.len() - pos, 3int,
{
    if 0 <= pos && pos < s.len() && s[pos] == '[' {
        lemma_elements_bounds(s, pos + 1);
    }
}

/// A matched object ends after its start and within the text.
pub proof fn lemma_object_bounds(s: Seq<char>, pos: int)
    requires
        0 <= pos,
    ensures
        spec_object(s, pos) matches Some((v, q)) ==> pos < q <= s.len(),
    decreases s.len() - pos, 3int,
{
    if 0 <= pos && pos < s.len() && s[pos] == '{' {
        lemma_members_bounds(s, pos + 1);
    }
}

/// The element list ends at or after its start and within the text.
pub proof fn lemma_elements_bounds(s: Seq<char>, pos: int)
    requires
        0 <= pos <= s.len(),
    ensures
        pos <= spec_elements(s, pos).1 <= s.len(),
    decreases s.len() - pos, 5int,
{
    lemma_value_bounds(s, pos);
    match spec_value(s, pos) {
        None => {},
        Some((v, q)) => {
            lemma_more_elements_bounds(s, q);
        },
    }
}

/// Trailing elements end at or after their start and within the text.
pub proof fn lemma_more_elements_bounds(s: Seq<char>, p: int)
    requires
        0 <= p <= s.len(),
    ensures
        p <= spec_more_elements(s, p).1 <= s.len(),
    decreases s.len() - p, 5int,
{
    if 0 <= p && p < s.len() && s[p] == ',' {
        lemma_value_bounds(s, p + 1);
        match spec_value(s, p + 1) {
            Some((v, q)) => {
                if p + 1 < q && q <= s.len() {
                    lemma_more_elements_bounds(s, q);
                }
            },
            None => {},
        }
    }
}

/// A matched pair ends after its start and within the text.
pub proof fn lemma_member_bounds(s: Seq<char>, pos: int)
    requires
        0 <= pos,
    ensures
        spec_member(s, pos) matches Some((k, v, q)) ==> pos < q <= s.len(),
    decreases s.len() - pos, 1int,
{
    if spec_member(s, pos) is Some {
        let p1 = pos + ws_count(s, pos);
        lemma_ws_count_bounds(s, pos);
        lemma_find_quote_bounds(s, p1 + 1);
        let p2 = spec_string(s, p1)->Some_0.1;
        lemma_ws_count_bounds(s, p2);
        let p3 = p2 + ws_count(s, p2);
        lemma_value_bounds(s, p3 + 1);
    }
}

/// The pair list ends at or after its start and within the text.
pub proof fn lemma_members_bounds(s: Seq<char>, pos: int)
    requires
        0 <= pos <= s.len(),
    ensures
        pos <= spec_members(s, pos).1 <= s.len(),
    decreases s.len() - pos, 5int,
{
    lemma_member_bounds(s, pos);
    match spec_member(s, pos) {
        None => {},
        Some((k, v, q)) => {
            lemma_more_members_bounds(s, q);
        },
    }
}

/// Trailing pairs end at or after their start and within the text.
pub proof fn lemma_more_members_bounds(s: Seq<char>, p: int)
    requires
        0 <= p <= s.len(),
    ensures
        p <= spec_more_members(s, p).1 <= s.len(),
    decreases s.len() - p, 5int,
{
    if 0 <= p && p < s.len() && s[p] == ',' {
        lemma_member_bounds(s, p + 1);
        match spec_member(s, p + 1) {
            Some((k, v, q)) => {
                if p + 1 < q && q <= s.len() {
                    lemma_more_members_bounds(s, q);
                }
            },
            None => {},
        }
    }
}

/// Every character of `b` is blank.
pub open spec fn all_blank(b: Seq<char>) -> bool {
    forall|i: int| 0 <= i < b.len() ==> is_blank(b[i])
}

/// The position in `b1 + s + b2` that corresponds to the end position `q`
/// in `s`: a rule that ended exactly at the end of `s` has its trailing
/// blanks extended through `b2`.
pub open spec fn pad_end(b1: Seq<char>, s: Seq<char>, b2: Seq<char>, q: int) -> int {
    if q == s.len() {
        b1.len() + q + b2.len()
    } else {
        b1.len() + q
    }
}

/// How the characters of `b1 + s + b2` relate to those of its parts.
proof fn pad_index(b1: Seq<char>, s: Seq<char>, b2: Seq<char>)
    ensures
        (b1 + s + b2).len() == b1.len() + s.len() + b2.len(),
        forall|i: int| 0 <= i < b1.len() ==> (b1 + s + b2)[i] == b1[i],
        forall|i: int|
            0 <= i < s.len() ==> (b1 + s + b2)[b1.len() + i] == s[i],
        forall|i: int|
            0 <= i < b2.len() ==> (b1 + s + b2)[b1.len() + s.len() + i] == b2[i],
{
}

/// From the start of `b2` on, the padded text is all blanks.
proof fn pad_ws_tail(b1: Seq<char>, s: Seq<char>, b2: Seq<char>, y: int)
    requires
        all_blank(b2),
        b1.len() + s.len() <= y <= (b1 + s + b2).len(),
    ensures
        ws_count(b1 + s + b2, y) == (b1 + s + b2).len() - y,
    decreases (b1 + s + b2).len() - y,
{
    pad_index(b1, s, b2);
    let t = b1 + s + b2;
    if y < t.len() {
        assert(t[y] == b2[y - b1.len() - s.len()]);
        pad_ws_tail(b1, s, b2, y + 1);
    }
}

/// From the start of `b2` on, the padded text holds no quote.
proof fn pad_quote_tail(b1: Seq<char>, s: Seq<char>, b2: Seq<char>, y: int)
    requires
        all_blank(b2),
        b1.len() + s.len() <= y <= (b1 + s + b2).len(),
    ensures
        find_quote(b1 + s + b2, y) is None,
    decreases (b1 + s + b2).len() - y,
{
    pad_index(b1, s, b2);
    let t = b1 + s + b2;
    if y < t.len() {
        assert(is_blank(t[y]));
        pad_quote_tail(b1, s, b2, y + 1);
    }
}

/// A blank run in `s` is read the same way in the padded text, except
/// that a run reaching the end of `s` continues through `b2`.
#[verifier::rlimit(100)]
#[verifier::spinoff_prover]
proof fn pad_ws(b1: Seq<char>, s: Seq<char>, b2: Seq<char>, pos: int)
    requires
        all_blank(b2),
        0 <= pos <= s.len(),
    ensures
        ws_count(b1 + s + b2, b1.len() + pos) == ws_count(s, pos) + (
        if pos + ws_count(s, pos) == s.len() {
            b2.len() as int
        } else {
            0int
        }),
    decreases s.len() - pos,
{
    pad_index(b1, s, b2);
    let t = b1 + s + b2;
    if pos < s.len() {
        assert(t[b1.len() + pos] == s[pos]);
        if is_blank(s[pos]) {
            pad_ws(b1, s, b2, pos + 1);
        }
    } else {
        pad_ws_tail(b1, s, b2, b1.len() + s.len() as int);
    }
}

/// A digit run in `s` is read the same way in the padded text: blanks are
/// no digits, so a run reaching the end of `s` stops there on both sides.
#[verifier::rlimit(100)]
#[verifier::spinoff_prover]
proof fn pad_digit(b1: Seq<char>, s: Seq<char>, b2: Seq<char>, pos: int)
    requires
        all_blank(b2),
        0 <= pos <= s.len(),
    ensures
        digit_count(b1 + s + b2, b1.len() + pos) == digit_count(s, pos),
    decreases s.len() - pos,
{
    pad_index(b1, s, b2);
    let t = b1 + s + b2;
    if pos < s.len() {
        assert(t[b1.len() + pos] == s[pos]);
        if crate::grammar::is_digit(s[pos]) {
            pad_digit(b1, s, b2, pos + 1);
        }
    } else {
        if b1.len() + pos < t.len() {
            assert(is_blank(t[b1.len() + pos]));
        }
    }
}

/// The search for a closing quote finds the same quote in the padded
/// text, and still fails when `s` holds none: blanks are no quotes.
#[verifier::rlimit(100)]
#[verifier::spinoff_prover]
proof fn pad_quote(b1: Seq<char>, s: Seq<char>, b2: Seq<char>, x: int)
    requires
        all_blank(b2),
        0 <= x <= s.len(),
    ensures
        find_quote(s, x) matches Some(j) ==> find_quote(b1 + s + b2, b1.len() + x) == Some(
            b1.len() + j,
        ),
        find_quote(s, x) is None ==> find_quote(b1 + s + b2, b1.len() + x) is None,
    decreases s.len() - x,
{
    pad_index(b1, s, b2);
    let t = b1 + s + b2;
    if x < s.len() {
        assert(t[b1.len() + x] == s[x]);
        if s[x] != '"' {
            pad_quote(b1, s, b2, x + 1);
        }
    } else {
        pad_quote_tail(b1, s, b2, b1.len() + s.len() as int);
    }
}

/// The exponent rule reads the same exponent in the padded text.
#[verifier::rlimit(100)]
#[verifier::spinoff_prover]
proof fn pad_exponent(b1: Seq<char>, s: Seq<char>, b2: Seq<char>, g: int)
    requires
        all_blank(b2),
        0 <= g <= s.len(),
    ensures
        spec_exponent_end(s, g) matches Some(r) ==> spec_exponent_end(b1 + s + b2, b1.len() + g)
            == Some(b1.len() + r),
        spec_exponent_end(s, g) is None ==> spec_exponent_end(b1 + s + b2, b1.len() + g) is None,
{
    pad_index(b1, s, b2);
    let t = b1 + s + b2;
    let dd = b1.len() as int;
    if g < s.len() && (s[g] == 'e' || s[g] == 'E') {
        assert(t[dd + g] == s[g]);
        let d = if g + 1 < s.len() && (s[g + 1] == '+' || s[g + 1] == '-') {
            g + 2
        } else {
            g + 1
        };
        if g + 1 < s.len() {
            assert(t[dd + g + 1] == s[g + 1]);
        } else {
            if dd + g + 1 < t.len() {
                assert(is_blank(t[dd + g + 1]));
            }
        }
        pad_digit(b1, s, b2, d);
    } else {
        if g == s.len() {
            if dd + g < t.len() {
                assert(is_blank(t[dd + g]));
            }
        } else {
            assert(t[dd + g] == s[g]);
        }
    }
}

/// The number rule reads the same literal in the padded text: every scan
/// that reached the end of `s` stops at the first blank of `b2` too.
#[verifier::rlimit(100)]
#[verifier::spinoff_prover]
proof fn pad_number(b1: Seq<char>, s: Seq<char>, b2: Seq<char>, pos: int)
    requires
        all_blank(b2),
        0 <= pos <= s.len(),
    ensures
        spec_number(s, pos) matches Some(q) ==> spec_number(b1 + s + b2, b1.len() + pos) == Some(
            b1.len() + q,
        ),
        spec_number(s, pos) is None ==> spec_number(b1 + s + b2, b1.len() + pos) is None,
{
    pad_index(b1, s, b2);
    let t = b1 + s + b2;
    let dd = b1.len() as int;
    if pos < s.len() {
        assert(t[dd + pos] == s[pos]);
    } else {
        if dd + pos < t.len() {
            assert(is_blank(t[dd + pos]));
        }
    }
    let m = if pos < s.len() && (s[pos] == '+' || s[pos] == '-') {
        pos + 1
    } else {
        pos
    };
    pad_digit(b1, s, b2, m);
    if digit_count(s, m) > 0 {
        lemma_digit_count_bounds(s, m);
        let f = m + digit_count(s, m);
        if f < s.len() {
            assert(t[dd + f] == s[f]);
        } else {
            if dd + f < t.len() {
                assert(is_blank(t[dd + f]));
            }
        }
        if f < s.len() && s[f] == '.' {
            pad_digit(b1, s, b2, f + 1);
            lemma_digit_count_bounds(s, f + 1);
            pad_exponent(b1, s, b2, f + 1 + digit_count(s, f + 1));
        } else {
            pad_exponent(b1, s, b2, f);
        }
    } else if m < s.len() && s[m] == '.' {
        assert(t[dd + m] == s[m]);
        pad_digit(b1, s, b2, m + 1);
        lemma_digit_count_bounds(s, m + 1);
        if digit_count(s, m + 1) > 0 {
            pad_exponent(b1, s, b2, m + 1 + digit_count(s, m + 1));
        }
    } else {
        if m == s.len() && dd + m < t.len() {
            assert(is_blank(t[dd + m]));
        }
    }
}

/// The null rule reads the same literal in the padded text.
#[verifier::rlimit(100)]
#[verifier::spinoff_prover]
proof fn pad_null(b1: Seq<char>, s: Seq<char>, b2: Seq<char>, pos: int)
    requires
        all_blank(b2),
        0 <= pos <= s.len(),
    ensures
        spec_null(s, pos) matches Some(q) ==> spec_null(b1 + s + b2, b1.len() + pos) == Some(
            b1.len() + q,
        ),
        spec_null(s, pos) is None ==> spec_null(b1 + s + b2, b1.len() + pos) is None,
{
    pad_index(b1, s, b2);
    let t = b1 + s + b2;
    let dd = b1.len() as int;
    if pos + 4 <= s.len() {
        assert(t[dd + pos] == s[pos]);
        assert(t[dd + pos + 1] == s[pos + 1]);
        assert(t[dd + pos + 2] == s[pos + 2]);
        assert(t[dd + pos + 3] == s[pos + 3]);
    } else {
        if dd + pos + 4 <= t.len() {
            let j = s.len() - pos;
            assert(t[dd + pos + j] == b2[0]);
            assert(is_blank(b2[0]));
        }
    }
}

/// The boolean rule reads the same literal in the padded text.
#[verifier::rlimit(100)]
#[verifier::spinoff_prover]
proof fn pad_bool(b1: Seq<char>, s: Seq<char>, b2: Seq<char>, pos: int)
    requires
        all_blank(b2),
        0 <= pos <= s.len(),
    ensures
        spec_bool(s, pos) matches Some((b, q)) ==> spec_bool(b1 + s + b2, b1.len() + pos) == Some(
            (b, b1.len() + q),
        ),
        spec_bool(s, pos) is None ==> spec_bool(b1 + s + b2, b1.len() + pos) is None,
{
    pad_index(b1, s, b2);
    let t = b1 + s + b2;
    let dd = b1.len() as int;
    if pos + 4 <= s.len() {
        assert(t[dd + pos] == s[pos]);
        assert(t[dd + pos + 1] == s[pos + 1]);
        assert(t[dd + pos + 2] == s[pos + 2]);
        assert(t[dd + pos + 3] == s[pos + 3]);
    } else {
        if dd + pos + 4 <= t.len() {
            let j = s.len() - pos;
            assert(t[dd + pos + j] == b2[0]);
            assert(is_blank(b2[0]));
        }
    }
    if pos + 5 <= s.len() {
        assert(t[dd + pos + 4] == s[pos + 4]);
    } else {
        if dd + pos + 5 <= t.len() && pos + 4 <= s.len() {
            assert(t[dd + s.len() as int] == b2[0]);
            assert(is_blank(b2[0]));
        }
    }
}

/// The string rule reads the same contents in the padded text.
#[verifier::rlimit(100)]
#[verifier::spinoff_prover]
proof fn pad_string(b1: Seq<char>, s: Seq<char>, b2: Seq<char>, pos: int)
    requires
        all_blank(b2),
        0 <= pos <= s.len(),
    ensures
        spec_string(s, pos) matches Some((c, q)) ==> spec_string(b1 + s + b2, b1.len() + pos)
            == Some((c, b1.len() + q)),
        spec_string(s, pos) is None ==> spec_string(b1 + s + b2, b1.len() + pos) is None,
{
    pad_index(b1, s, b2);
    let t = b1 + s + b2;
    let dd = b1.len() as int;
    if pos < s.len() {
        assert(t[dd + pos] == s[pos]);
        if s[pos] == '"' {
            pad_quote(b1, s, b2, pos + 1);
            lemma_find_quote_bounds(s, pos + 1);
            match find_quote(s, pos + 1) {
                Some(j) => {
                    assert(t.subrange(dd + pos + 1, dd + j) =~= s.subrange(pos + 1, j));
                },
                None => {},
            }
        }
    } else {
        if dd + pos < t.len() {
            assert(is_blank(t[dd + pos]));
        }
    }
}

/// The value rule reads the same value in the padded text; a value whose
/// trailing blanks reached the end of `s` extends them through `b2`.
#[verifier::rlimit(100)]
#[verifier::spinoff_prover]
proof fn pad_value(b1: Seq<char>, s: Seq<char>, b2: Seq<char>, pos: int)
    requires
        all_blank(b2),
        0 <= pos <= s.len(),
    ensures
        spec_value(s, pos) matches Some((v, q)) ==> spec_value(b1 + s + b2, b1.len() + pos)
            == Some((v, pad_end(b1, s, b2, q))),
        spec_value(s, pos) is None ==> spec_value(b1 + s + b2, b1.len() + pos) is None,
    decreases s.len() - pos, 4int,
{
    pad_index(b1, s, b2);
    let t = b1 + s + b2;
    let dd = b1.len() as int;
    let ll = s.len() as int;
    lemma_ws_count_bounds(s, pos);
    pad_ws(b1, s, b2, pos);
    let p = pos + ws_count(s, pos);
    if p == ll {
        assert(dd + pos + ws_count(t, dd + pos) == t.len());
        assert(spec_value(s, pos) is None);
        assert(spec_value(t, dd + pos) is None);
    } else {
        assert(dd + pos + ws_count(t, dd + pos) == dd + p);
        assert(t[dd + p] == s[p]);
        if s[p] == '{' {
            pad_object(b1, s, b2, p);
            lemma_object_bounds(s, p);
            match spec_object(s, p) {
                Some((v, qc)) => {
                    pad_ws(b1, s, b2, qc);
                    lemma_ws_count_bounds(s, qc);
                    let q = qc + ws_count(s, qc);
                    assert(spec_value(s, pos) == Some((v, q)));
                    assert(spec_object(t, dd + p) == Some((v, dd + qc)));
                    assert(spec_value(t, dd + pos) == Some((v, dd + qc + ws_count(t, dd + qc))));
                    assert(dd + qc + ws_count(t, dd + qc) == pad_end(b1, s, b2, q));
                },
                None => {
                    assert(spec_value(s, pos) is None);
                    assert(spec_value(t, dd + pos) is None);
                },
            }
        } else if s[p] == '[' {
            pad_array(b1, s, b2, p);
            lemma_array_bounds(s, p);
            match spec_array(s, p) {
                Some((v, qc)) => {
                    pad_ws(b1, s, b2, qc);
                    lemma_ws_count_bounds(s, qc);
                    let q = qc + ws_count(s, qc);
                    assert(spec_value(s, pos) == Some((v, q)));
                    assert(spec_array(t, dd + p) == Some((v, dd + qc)));
                    assert(spec_value(t, dd + pos) == Some((v, dd + qc + ws_count(t, dd + qc))));
                    assert(dd + qc + ws_count(t, dd + qc) == pad_end(b1, s, b2, q));
                },
                None => {
                    assert(spec_value(s, pos) is None);
                    assert(spec_value(t, dd + pos) is None);
                },
            }
        } else if s[p] == '"' {
            pad_string(b1, s, b2, p);
            lemma_find_quote_bounds(s, p + 1);
            match spec_string(s, p) {
                Some((c, qc)) => {
                    pad_ws(b1, s, b2, qc);
                    lemma_ws_count_bounds(s, qc);
                    let q = qc + ws_count(s, qc);
                    assert(spec_value(s, pos) == Some((SpecJson::Str(c), q)));
                    assert(spec_string(t, dd + p) == Some((c, dd + qc)));
                    assert(spec_value(t, dd + pos) == Some(
                        (SpecJson::Str(c), dd + qc + ws_count(t, dd + qc)),
                    ));
                    assert(dd + qc + ws_count(t, dd + qc) == pad_end(b1, s, b2, q));
                },
                None => {
                    assert(spec_value(s, pos) is None);
                    assert(spec_value(t, dd + pos) is None);
                },
            }
        } else if s[p] == 't' || s[p] == 'f' {
            pad_bool(b1, s, b2, p);
            match spec_bool(s, p) {
                Some((b, qc)) => {
                    pad_ws(b1, s, b2, qc);
                    lemma_ws_count_bounds(s, qc);
                    let q = qc + ws_count(s, qc);
                    assert(spec_value(s, pos) == Some((SpecJson::Bool(b), q)));
                    assert(spec_bool(t, dd + p) == Some((b, dd + qc)));
                    assert(spec_value(t, dd + pos) == Some(
                        (SpecJson::Bool(b), dd + qc + ws_count(t, dd + qc)),
                    ));
                    assert(dd + qc + ws_count(t, dd + qc) == pad_end(b1, s, b2, q));
                },
                None => {
                    assert(spec_value(s, pos) is None);
                    assert(spec_value(t, dd + pos) is None);
                },
            }
        } else if s[p] == 'n' {
            pad_null(b1, s, b2, p);
            match spec_null(s, p) {
                Some(qc) => {
                    pad_ws(b1, s, b2, qc);
                    lemma_ws_count_bounds(s, qc);
                    let q = qc + ws_count(s, qc);
                    assert(spec_value(s, pos) == Some((SpecJson::Null, q)));
                    assert(spec_null(t, dd + p) == Some(dd + qc));
                    assert(spec_value(t, dd + pos) == Some(
                        (SpecJson::Null, dd + qc + ws_count(t, dd + qc)),
                    ));
                    assert(dd + qc + ws_count(t, dd + qc) == pad_end(b1, s, b2, q));
                },
                None => {
                    assert(spec_value(s, pos) is None);
                    assert(spec_value(t, dd + pos) is None);
                },
            }
        } else {
            pad_number(b1, s, b2, p);
            lemma_number_bounds(s, p);
            match spec_number(s, p) {
                Some(qn) => {
                    pad_ws(b1, s, b2, qn);
                    lemma_ws_count_bounds(s, qn);
                    let q = qn + ws_count(s, qn);
                    assert(t.subrange(dd + p, dd + qn) =~= s.subrange(p, qn));
                    assert(spec_value(s, pos) == Some(
                        (SpecJson::Number(double_of(s.subrange(p, qn))), q),
                    ));
                    assert(spec_number(t, dd + p) == Some(dd + qn));
                    assert(spec_value(t, dd + pos) == Some(
                        (
                            SpecJson::Number(double_of(t.subrange(dd + p, dd + qn))),
                            dd + qn + ws_count(t, dd + qn),
                        ),
                    ));
                    assert(dd + qn + ws_count(t, dd + qn) == pad_end(b1, s, b2, q));
                },
                None => {
                    assert(spec_value(s, pos) is None);
                    assert(spec_value(t, dd + pos) is None);
                },
            }
        }
    }
}

/// The array rule reads the same array in the padded text.
#[verifier::rlimit(100)]
#[verifier::spinoff_prover]
proof fn pad_array(b1: Seq<char>, s: Seq<char>, b2: Seq<char>, pos: int)
    requires
        all_blank(b2),
        0 <= pos <= s.len(),
    ensures
        spec_array(s, pos) matches Some((v, q)) ==> spec_array(b1 + s + b2, b1.len() + pos)
            == Some((v, b1.len() + q)),
        spec_array(s, pos) is None ==> spec_array(b1 + s + b2, b1.len() + pos) is None,
    decreases s.len() - pos, 3int,
{
    pad_index(b1, s, b2);
    let t = b1 + s + b2;
    let dd = b1.len() as int;
    let ll = s.len() as int;
    if pos < ll && s[pos] == '[' {
        assert(t[dd + pos] == s[pos]);
        pad_elements(b1, s, b2, pos + 1);
        lemma_elements_bounds(s, pos + 1);
        let (vs, e) = spec_elements(s, pos + 1);
        let et = spec_elements(t, dd + pos + 1).1;
        assert(spec_elements(t, dd + pos + 1).0 == vs);
        if e < ll {
            assert(et == dd + e);
            assert(t[dd + e] == s[e]);
            if s[e] == ']' {
                assert(spec_array(s, pos) == Some((SpecJson::Array(vs), e + 1)));
                assert(spec_array(t, dd + pos) == Some((SpecJson::Array(vs), dd + e + 1)));
            } else {
                assert(spec_array(s, pos) is None);
                assert(spec_array(t, dd + pos) is None);
            }
        } else {
            assert(e == ll);
            assert(spec_array(s, pos) is None);
            if et == dd + ll {
                if dd + ll < t.len() {
                    assert(is_blank(t[dd + ll]));
                    assert(t[dd + ll] != ']');
                }
                assert(spec_array(t, dd + pos) is None);
            } else {
                assert(et == t.len());
                assert(spec_array(t, dd + pos) is None);
            }
        }
    } else {
        assert(spec_array(s, pos) is None);
        if pos < ll {
            assert(t[dd + pos] == s[pos]);
        } else {
            if dd + pos < t.len() {
                assert(is_blank(t[dd + pos]));
            }
        }
        assert(spec_array(t, dd + pos) is None);
    }
}

/// The object rule reads the same object in the padded text.
#[verifier::rlimit(100)]
#[verifier::spinoff_prover]
proof fn pad_object(b1: Seq<char>, s: Seq<char>, b2: Seq<char>, pos: int)
    requires
        all_blank(b2),
        0 <= pos <= s.len(),
    ensures
        spec_object(s, pos) matches Some((v, q)) ==> spec_object(b1 + s + b2, b1.len() + pos)
            == Some((v, b1.len() + q)),
        spec_object(s, pos) is None ==> spec_object(b1 + s + b2, b1.len() + pos) is None,
    decreases s.len() - pos, 3int,
{
    pad_index(b1, s, b2);
    let t = b1 + s + b2;
    let dd = b1.len() as int;
    let ll = s.len() as int;
    if pos < ll && s[pos] == '{' {
        pad_object_inner(b1, s, b2, pos);
    } else {
        assert(spec_object(s, pos) is None);
        if pos < ll {
            assert(t[dd + pos] == s[pos]);
        } else {
            if dd + pos < t.len() {
                assert(is_blank(t[dd + pos]));
            }
        }
        assert(spec_object(t, dd + pos) is None);
    }
}

/// The open-brace case of [`pad_object`].
#[verifier::rlimit(100)]
#[verifier::spinoff_prover]
proof fn pad_object_inner(b1: Seq<char>, s: Seq<char>, b2: Seq<char>, pos: int)
    requires
        all_blank(b2),
        0 <= pos < s.len(),
        s[pos] == '{',
    ensures
        spec_object(s, pos) matches Some((v, q)) ==> spec_object(b1 + s + b2, b1.len() + pos)
            == Some((v, b1.len() + q)),
        spec_object(s, pos) is None ==> spec_object(b1 + s + b2, b1.len() + pos) is None,
    decreases s.len() - pos, 2int,
{
    pad_index(b1, s, b2);
    let t = b1 + s + b2;
    let dd = b1.len() as int;
    let ll = s.len() as int;
    assert(t[dd + pos] == s[pos]);
    pad_members(b1, s, b2, pos + 1);
    lemma_members_bounds(s, pos + 1);
    let (vs, e) = spec_members(s, pos + 1);
    let et = spec_members(t, dd + pos + 1).1;
    assert(spec_members(t, dd + pos + 1).0 == vs);
    if e < ll {
        assert(et == dd + e);
        assert(t[dd + e] == s[e]);
        if s[e] == '}' {
            assert(spec_object(s, pos) == Some(
                (SpecJson::Object(crate::grammar::pairs_to_map(vs)), e + 1),
            ));
            assert(spec_object(t, dd + pos) == Some(
                (SpecJson::Object(crate::grammar::pairs_to_map(vs)), dd + e + 1),
            ));
        } else {
            assert(spec_object(s, pos) is None);
            assert(spec_object(t, dd + pos) is None);
        }
    } else {
        assert(e == ll);
        assert(spec_object(s, pos) is None);
        if et == dd + ll {
            if dd + ll < t.len() {
                assert(is_blank(t[dd + ll]));
                assert(t[dd + ll] != '}');
            }
            assert(spec_object(t, dd + pos) is None);
        } else {
            assert(et == t.len());
            assert(spec_object(t, dd + pos) is None);
        }
    }
}

/// The element list reads the same elements in the padded text; its end
/// moves with the last value's trailing blanks.
#[verifier::rlimit(100)]
#[verifier::spinoff_prover]
proof fn pad_elements(b1: Seq<char>, s: Seq<char>, b2: Seq<char>, pos: int)
    requires
        all_blank(b2),
        0 <= pos <= s.len(),
    ensures
        spec_elements(b1 + s + b2, b1.len() + pos).0 == spec_elements(s, pos).0,
        spec_elements(s, pos).1 < s.len() ==> spec_elements(b1 + s + b2, b1.len() + pos).1
            == b1.len() + spec_elements(s, pos).1,
        spec_elements(s, pos).1 == s.len() ==> spec_elements(b1 + s + b2, b1.len() + pos).1
            == b1.len() + s.len() || spec_elements(b1 + s + b2, b1.len() + pos).1 == b1.len()
            + s.len() + b2.len(),
    decreases s.len() - pos, 5int,
{
    pad_index(b1, s, b2);
    pad_value(b1, s, b2, pos);
    lemma_value_bounds(s, pos);
    match spec_value(s, pos) {
        None => {},
        Some((v, q)) => {
            pad_more_elements(b1, s, b2, q);
            lemma_more_elements_bounds(s, q);
        },
    }
}

/// Trailing elements read the same in the padded text.
#[verifier::rlimit(100)]
#[verifier::spinoff_prover]
proof fn pad_more_elements(b1: Seq<char>, s: Seq<char>, b2: Seq<char>, p: int)
    requires
        all_blank(b2),
        0 <= p <= s.len(),
    ensures
        spec_more_elements(b1 + s + b2, pad_end(b1, s, b2, p)).0 == spec_more_elements(s, p).0,
        spec_more_elements(s, p).1 < s.len() ==> spec_more_elements(
            b1 + s + b2,
            pad_end(b1, s, b2, p),
        ).1 == b1.len() + spec_more_elements(s, p).1,
        spec_more_elements(s, p).1 == s.len() ==> spec_more_elements(
            b1 + s + b2,
            pad_end(b1, s, b2, p),
        ).1 == b1.len() + s.len() || spec_more_elements(b1 + s + b2, pad_end(b1, s, b2, p)).1
            == b1.len() + s.len() + b2.len(),
    decreases s.len() - p, 5int,
{
    pad_index(b1, s, b2);
    let t = b1 + s + b2;
    let dd = b1.len() as int;
    let ll = s.len() as int;
    if p == ll {
        assert(pad_end(b1, s, b2, p) == t.len());
    } else {
        assert(t[dd + p] == s[p]);
        if s[p] == ',' {
            pad_value(b1, s, b2, p + 1);
            lemma_value_bounds(s, p + 1);
            match spec_value(s, p + 1) {
                Some((v, q)) => {
                    pad_more_elements(b1, s, b2, q);
                    lemma_more_elements_bounds(s, q);
                },
                None => {},
            }
        }
    }
}

/// One pair reads the same in the padded text.
#[verifier::rlimit(100)]
#[verifier::spinoff_prover]
proof fn pad_member(b1: Seq<char>, s: Seq<char>, b2: Seq<char>, pos: int)
    requires
        all_blank(b2),
        0 <= pos <= s.len(),
    ensures
        spec_member(s, pos) matches Some((k, v, q)) ==> spec_member(b1 + s + b2, b1.len() + pos)
            == Some((k, v, pad_end(b1, s, b2, q))),
        spec_member(s, pos) is None ==> spec_member(b1 + s + b2, b1.len() + pos) is None,
    decreases s.len() - pos, 1int,
{
    pad_index(b1, s, b2);
    let t = b1 + s + b2;
    let dd = b1.len() as int;
    let ll = s.len() as int;
    lemma_ws_count_bounds(s, pos);
    pad_ws(b1, s, b2, pos);
    let p1 = pos + ws_count(s, pos);
    if p1 == ll {
        assert(dd + pos + ws_count(t, dd + pos) == t.len());
    } else {
        pad_string(b1, s, b2, p1);
        lemma_find_quote_bounds(s, p1 + 1);
        match spec_string(s, p1) {
            None => {},
            Some((k, p2)) => {
                pad_ws(b1, s, b2, p2);
                lemma_ws_count_bounds(s, p2);
                let p3 = p2 + ws_count(s, p2);
                if p3 == ll {
                    assert(dd + p2 + ws_count(t, dd + p2) == t.len());
                } else {
                    assert(t[dd + p3] == s[p3]);
                    if s[p3] == ':' {
                        pad_value(b1, s, b2, p3 + 1);
                    }
                }
            },
        }
    }
}

/// The pair list reads the same pairs in the padded text.
#[verifier::rlimit(100)]
#[verifier::spinoff_prover]
proof fn pad_members(b1: Seq<char>, s: Seq<char>, b2: Seq<char>, pos: int)
    requires
        all_blank(b2),
        0 <= pos <= s.len(),
    ensures
        spec_members(b1 + s + b2, b1.len() + pos).0 == spec_members(s, pos).0,
        spec_members(s, pos).1 < s.len() ==> spec_members(b1 + s + b2, b1.len() + pos).1
            == b1.len() + spec_members(s, pos).1,
        spec_members(s, pos).1 == s.len() ==> spec_members(b1 + s + b2, b1.len() + pos).1
            == b1.len() + s.len() || spec_members(b1 + s + b2, b1.len() + pos).1 == b1.len()
            + s.len() + b2.len(),
    decreases s.len() - pos, 5int,
{
    pad_index(b1, s, b2);
    pad_member(b1, s, b2, pos);
    lemma_member_bounds(s, pos);
    match spec_member(s, pos) {
        None => {},
        Some((k, v, q)) => {
            pad_more_members(b1, s, b2, q);
            lemma_more_members_bounds(s, q);
        },
    }
}

/// Trailing pairs read the same in the padded text.
#[verifier::rlimit(100)]
#[verifier::spinoff_prover]
proof fn pad_more_members(b1: Seq<char>, s: Seq<char>, b2: Seq<char>, p: int)
    requires
        all_blank(b2),
        0 <= p <= s.len(),
    ensures
        spec_more_members(b1 + s + b2, pad_end(b1, s, b2, p)).0 == spec_more_members(s, p).0,
        spec_more_members(s, p).1 < s.len() ==> spec_more_members(
            b1 + s + b2,
            pad_end(b1, s, b2, p),
        ).1 == b1.len() + spec_more_members(s, p).1,
        spec_more_members(s, p).1 == s.len() ==> spec_more_members(
            b1 + s + b2,
            pad_end(b1, s, b2, p),
        ).1 == b1.len() + s.len() || spec_more_members(b1 + s + b2, pad_end(b1, s, b2, p)).1
            == b1.len() + s.len() + b2.len(),
    decreases s.len() - p, 5int,
{
    pad_index(b1, s, b2);
    let t = b1 + s + b2;
    let dd = b1.len() as int;
    let ll = s.len() as int;
    if p == ll {
        assert(pad_end(b1, s, b2, p) == t.len());
    } else {
        assert(t[dd + p] == s[p]);
        if s[p] == ',' {
            pad_member(b1, s, b2, p + 1);
            lemma_member_bounds(s, p + 1);
            match spec_member(s, p + 1) {
                Some((k, v, q)) => {
                    pad_more_members(b1, s, b2, q);
                    lemma_more_members_bounds(s, q);
                },
                None => {},
            }
        }
    }
}

/// A blank stretch adds its length to the blank run through it.
proof fn lemma_ws_count_through(t: Seq<char>, x: int, y: int)
    requires
        0 <= x <= y <= t.len(),
        forall|i: int| x <= i < y ==> is_blank(t[i]),
    ensures
        ws_count(t, x) == (y - x) + ws_count(t, y),
    decreases y - x,
{
    if x < y {
        assert(is_blank(t[x]));
        lemma_ws_count_through(t, x + 1, y);
    }
}

/// The value rule reads the same value from anywhere within a run of
/// blanks before it.
proof fn lemma_value_after_blanks(t: Seq<char>, x: int, y: int)
    requires
        0 <= x <= y <= t.len(),
        forall|i: int| x <= i < y ==> is_blank(t[i]),
    ensures
        spec_value(t, x) == spec_value(t, y),
{
    lemma_ws_count_through(t, x, y);
    assert(x + ws_count(t, x) == y + ws_count(t, y));
}

/// Whitespace trimming is idempotent: surrounding a text with runs of
/// blanks neither changes whether it parses nor the value it parses to.
pub proof fn lemma_blank_padding(b1: Seq<char>, s: Seq<char>, b2: Seq<char>)
    requires
        all_blank(b1),
        all_blank(b2),
    ensures
        spec_value(b1 + s + b2, 0) is Some <==> spec_value(s, 0) is Some,
        spec_value(s, 0) matches Some((v, q)) ==> spec_value(b1 + s + b2, 0) matches Some(
            (v2, q2),
        ) && v2 == v,
{
    let t = b1 + s + b2;
    pad_index(b1, s, b2);
    pad_value(b1, s, b2, 0);
    assert(forall|i: int| 0 <= i < b1.len() ==> is_blank(t[i]));
    lemma_value_after_blanks(t, 0, b1.len() as int);
}

} // verus!
