//! The mathematical model of the grammar.
//!
//! Every rule of the parser is described here as a spec function over a
//! `Seq<char>` and a starting position.  A rule either fails (`None`) or
//! returns what it recognised together with the position just past the text
//! it consumed.  The executable parser in [`crate::json`] is verified against
//! these functions.

use vstd::prelude::*;

verus! {

/// The characters that the whitespace rule skips: space, tab, line feed and
/// carriage return.
pub open spec fn is_blank(c: char) -> bool {
    c == ' ' || c == '\t' || c == '\n' || c == '\r'
}

/// An ASCII decimal digit.
pub open spec fn is_digit(c: char) -> bool {
    '0' <= c && c <= '9'
}

/// How many consecutive blank characters stand at `pos`.
pub open spec fn ws_count(s: Seq<char>, pos: int) -> nat
    decreases s.len() - pos,
{
    if 0 <= pos && pos < s.len() && is_blank(s[pos]) {
        1 + ws_count(s, pos + 1)
    } else {
        0
    }
}

/// How many consecutive digits stand at `pos`.
pub open spec fn digit_count(s: Seq<char>, pos: int) -> nat
    decreases s.len() - pos,
{
    if 0 <= pos && pos < s.len() && is_digit(s[pos]) {
        1 + digit_count(s, pos + 1)
    } else {
        0
    }
}

/// The position of the first `"` at or after `from`, if any.
pub open spec fn find_quote(s: Seq<char>, from: int) -> Option<int>
    decreases s.len() - from,
{
    if 0 <= from && from < s.len() {
        if s[from] == '"' {
            Some(from)
        } else {
            find_quote(s, from + 1)
        }
    } else {
        None
    }
}

/// The string rule: a `"`, every character up to (not including) the next
/// `"`, then that closing `"`.  Escape sequences are not interpreted, so a
/// backslash before a quote still terminates the string.  Returns the
/// contents and the position just past the closing quote.
pub open spec fn spec_string(s: Seq<char>, pos: int) -> Option<(Seq<char>, int)> {
    if 0 <= pos && pos < s.len() && s[pos] == '"' {
        match find_quote(s, pos + 1) {
            Some(j) => Some((s.subrange(pos + 1, j), j + 1)),
            None => None,
        }
    } else {
        None
    }
}

/// The literal `null`, case sensitive.  Returns the position past it.
pub open spec fn spec_null(s: Seq<char>, pos: int) -> Option<int> {
    if 0 <= pos && pos + 4 <= s.len() && s[pos] == 'n' && s[pos + 1] == 'u' && s[pos + 2] == 'l'
        && s[pos + 3] == 'l' {
        Some(pos + 4)
    } else {
        None
    }
}

/// The literals `true` and `false`, case sensitive, `true` tried first.
pub open spec fn spec_bool(s: Seq<char>, pos: int) -> Option<(bool, int)> {
    if 0 <= pos && pos + 4 <= s.len() && s[pos] == 't' && s[pos + 1] == 'r' && s[pos + 2] == 'u'
        && s[pos + 3] == 'e' {
        Some((true, pos + 4))
    } else if 0 <= pos && pos + 5 <= s.len() && s[pos] == 'f' && s[pos + 1] == 'a' && s[pos + 2]
        == 'l' && s[pos + 3] == 's' && s[pos + 4] == 'e' {
        Some((false, pos + 5))
    } else {
        None
    }
}

/// The optional exponent part of a number: `e` or `E`, an optional sign and
/// at least one digit.  Where no exponent marker stands at `from` the
/// result is `from` itself; an exponent marker whose digits are missing
/// fails the whole number rule.
pub open spec fn spec_exponent_end(s: Seq<char>, from: int) -> Option<int> {
    if 0 <= from && from < s.len() && (s[from] == 'e' || s[from] == 'E') {
        let d = if from + 1 < s.len() && (s[from + 1] == '+' || s[from + 1] == '-') {
            from + 2
        } else {
            from + 1
        };
        if digit_count(s, d) > 0 {
            Some(d + digit_count(s, d))
        } else {
            None
        }
    } else {
        Some(from)
    }
}

/// The number rule: an optional sign, then either at least one digit
/// followed by an optional `.` and further digits, or a `.` followed by at
/// least one digit, then an optional exponent.  Returns the position past
/// the longest such prefix.
pub open spec fn spec_number(s: Seq<char>, pos: int) -> Option<int> {
    if pos < 0 {
        None
    } else {
        let m = if pos < s.len() && (s[pos] == '+' || s[pos] == '-') {
            pos + 1
        } else {
            pos
        };
        if digit_count(s, m) > 0 {
            let f = m + digit_count(s, m);
            let g = if f < s.len() && s[f] == '.' {
                f + 1 + digit_count(s, f + 1)
            } else {
                f
            };
            spec_exponent_end(s, g)
        } else if m < s.len() && s[m] == '.' && digit_count(s, m + 1) > 0 {
            spec_exponent_end(s, m + 1 + digit_count(s, m + 1))
        } else {
            None
        }
    }
}

/// A complete numeric literal: the number rule matches at the start and
/// consumes the whole sequence.
pub open spec fn is_number_lit(t: Seq<char>) -> bool {
    spec_number(t, 0) == Some(t.len() as int)
}

/// The 64-bit IEEE-754 value that the numeric literal `t` denotes, as its
/// bit pattern.  The value is computed by `nom::number::complete::double`
/// and depends on the characters of `t` alone.
pub uninterp spec fn double_of(t: Seq<char>) -> u64;

/// The abstract JSON tree.  A number carries the bit pattern of the 64-bit
/// IEEE-754 value its literal denotes; an object is the finite map built
/// from its pairs, later occurrences of a key overwriting earlier ones.
#[verifier::ext_equal]
pub ghost enum SpecJson {
    Number(u64),
    Str(Seq<char>),
    Bool(bool),
    Null,
    Object(Map<Seq<char>, SpecJson>),
    Array(Seq<SpecJson>),
}

/// The keys of the pairs are pairwise distinct.
pub open spec fn distinct_keys(ps: Seq<(Seq<char>, SpecJson)>) -> bool {
    forall|i: int, j: int| 0 <= i < j < ps.len() ==> ps[i].0 != ps[j].0
}

/// The map that a sequence of key/value pairs denotes: pairs are inserted
/// in order, so on a duplicate key the later pair wins.
pub open spec fn pairs_to_map(ps: Seq<(Seq<char>, SpecJson)>) -> Map<Seq<char>, SpecJson>
    decreases ps.len(),
{
    if ps.len() == 0 {
        Map::empty()
    } else {
        pairs_to_map(ps.drop_last()).insert(ps.last().0, ps.last().1)
    }
}

/// The value rule: skip blanks, dispatch on the first significant character
/// (`{` object, `[` array, `"` string, `t`/`f` boolean, `n` null, anything
/// else the number rule), then skip blanks again.  Returns the value and
/// the position past the trailing blanks.
pub open spec fn spec_value(s: Seq<char>, pos: int) -> Option<(SpecJson, int)>
    decreases s.len() - pos, 4int,
{
    if pos < 0 {
        None
    } else {
        let p = pos + ws_count(s, pos);
        if p >= s.len() {
            None
        } else if s[p] == '{' {
            match spec_object(s, p) {
                Some((v, q)) => Some((v, q + ws_count(s, q))),
                None => None,
            }
        } else if s[p] == '[' {
            match spec_array(s, p) {
                Some((v, q)) => Some((v, q + ws_count(s, q))),
                None => None,
            }
        } else if s[p] == '"' {
            match spec_string(s, p) {
                Some((t, q)) => Some((SpecJson::Str(t), q + ws_count(s, q))),
                None => None,
            }
        } else if s[p] == 't' || s[p] == 'f' {
            match spec_bool(s, p) {
                Some((b, q)) => Some((SpecJson::Bool(b), q + ws_count(s, q))),
                None => None,
            }
        } else if s[p] == 'n' {
            match spec_null(s, p) {
                Some(q) => Some((SpecJson::Null, q + ws_count(s, q))),
                None => None,
            }
        } else {
            match spec_number(s, p) {
                Some(q) => if p < q {
                    Some((SpecJson::Number(double_of(s.subrange(p, q))), q + ws_count(s, q)))
                } else {
                    None
                },
                None => None,
            }
        }
    }
}

/// The array rule: `[`, a possibly empty comma-separated list of values,
/// then `]` immediately after the last value (or after the `[` when there
/// is none).
pub open spec fn spec_array(s: Seq<char>, pos: int) -> Option<(SpecJson, int)>
    decreases s.len() - pos, 3int,
{
    if 0 <= pos && pos < s.len() && s[pos] == '[' {
        let (elems, e) = spec_elements(s, pos + 1);
        if e < s.len() && s[e] == ']' {
            Some((SpecJson::Array(elems), e + 1))
        } else {
            None
        }
    } else {
        None
    }
}

/// The elements of an array: either no value matches at `pos` and the list
/// is empty, or a first value followed by further `,`-separated values.
pub open spec fn spec_elements(s: Seq<char>, pos: int) -> (Seq<SpecJson>, int)
    decreases s.len() - pos, 5int,
{
    match spec_value(s, pos) {
        None => (Seq::empty(), pos),
        Some((v, q)) => if pos < q && q <= s.len() {
            let (rest, e) = spec_more_elements(s, q);
            (seq![v] + rest, e)
        } else {
            (seq![v], q)
        },
    }
}

/// Further array elements after position `p`: as long as a `,` stands at
/// `p` and a value follows it, the value is appended; a `,` not followed by
/// a value is left unconsumed.
pub open spec fn spec_more_elements(s: Seq<char>, p: int) -> (Seq<SpecJson>, int)
    decreases s.len() - p, 5int,
{
    if 0 <= p && p < s.len() && s[p] == ',' {
        match spec_value(s, p + 1) {
            Some((v, q)) => if p + 1 < q && q <= s.len() {
                let (rest, e) = spec_more_elements(s, q);
                (seq![v] + rest, e)
            } else {
                (seq![v], q)
            },
            None => (Seq::empty(), p),
        }
    } else {
        (Seq::empty(), p)
    }
}

/// One object pair: blanks, a string key, blanks, `:`, then a value.
/// Returns the key, the value and the position past the value.
pub open spec fn spec_member(s: Seq<char>, pos: int) -> Option<(Seq<char>, SpecJson, int)>
    decreases s.len() - pos, 1int,
{
    if pos < 0 {
        None
    } else {
        let p1 = pos + ws_count(s, pos);
        match spec_string(s, p1) {
            Some((k, p2)) => if p1 < p2 {
                let p3 = p2 + ws_count(s, p2);
                if p3 < s.len() && s[p3] == ':' {
                    match spec_value(s, p3 + 1) {
                        Some((v, q)) => Some((k, v, q)),
                        None => None,
                    }
                } else {
                    None
                }
            } else {
                None
            },
            None => None,
        }
    }
}

/// The pairs of an object: either no pair matches at `pos` and the list is
/// empty, or a first pair followed by further `,`-separated pairs.
pub open spec fn spec_members(s: Seq<char>, pos: int) -> (Seq<(Seq<char>, SpecJson)>, int)
    decreases s.len() - pos, 5int,
{
    match spec_member(s, pos) {
        None => (Seq::empty(), pos),
        Some((k, v, q)) => if pos < q && q <= s.len() {
            let (rest, e) = spec_more_members(s, q);
            (seq![(k, v)] + rest, e)
        } else {
            (seq![(k, v)], q)
        },
    }
}

/// Further object pairs after position `p`, mirroring
/// [`spec_more_elements`].
pub open spec fn spec_more_members(s: Seq<char>, p: int) -> (Seq<(Seq<char>, SpecJson)>, int)
    decreases s.len() - p, 5int,
{
    if 0 <= p && p < s.len() && s[p] == ',' {
        match spec_member(s, p + 1) {
            Some((k, v, q)) => if p + 1 < q && q <= s.len() {
                let (rest, e) = spec_more_members(s, q);
                (seq![(k, v)] + rest, e)
            } else {
                (seq![(k, v)], q)
            },
            None => (Seq::empty(), p),
        }
    } else {
        (Seq::empty(), p)
    }
}

/// The object rule: `{`, a possibly empty comma-separated list of pairs,
/// then `}` immediately after the last pair (or after the `{` when there is
/// none).  The resulting value is the map of the pairs, later duplicates
/// winning.
pub open spec fn spec_object(s: Seq<char>, pos: int) -> Option<(SpecJson, int)>
    decreases s.len() - pos, 3int,
{
    if 0 <= pos && pos < s.len() && s[pos] == '{' {
        let (pairs, e) = spec_members(s, pos + 1);
        if e < s.len() && s[e] == '}' {
            Some((SpecJson::Object(pairs_to_map(pairs)), e + 1))
        } else {
            None
        }
    } else {
        None
    }
}

/// Appending a pair to the sequence inserts it into the denoted map.
pub proof fn lemma_pairs_to_map_snoc(ps: Seq<(Seq<char>, SpecJson)>, pr: (Seq<char>, SpecJson))
    ensures
        pairs_to_map(ps.push(pr)) == pairs_to_map(ps).insert(pr.0, pr.1),
{
    assert(ps.push(pr).drop_last() =~= ps);
    assert(ps.push(pr).last() == pr);
}

/// With pairwise distinct keys, overwriting the pair that holds a key in
/// place denotes the same map as inserting the new pair.
pub proof fn lemma_pairs_to_map_update(
    ps: Seq<(Seq<char>, SpecJson)>,
    i: int,
    pr: (Seq<char>, SpecJson),
)
    requires
        distinct_keys(ps),
        0 <= i < ps.len(),
        ps[i].0 == pr.0,
    ensures
        pairs_to_map(ps.update(i, pr)) == pairs_to_map(ps).insert(pr.0, pr.1),
    decreases ps.len(),
{
    let last = ps.last();
    if i == ps.len() - 1 {
        assert(ps.update(i, pr).drop_last() =~= ps.drop_last());
        assert(ps.update(i, pr).last() == pr);
        assert(pairs_to_map(ps.drop_last()).insert(last.0, last.1).insert(pr.0, pr.1)
            =~= pairs_to_map(ps.drop_last()).insert(pr.0, pr.1));
    } else {
        assert(ps.update(i, pr).drop_last() =~= ps.drop_last().update(i, pr));
        assert(ps.update(i, pr).last() == last);
        lemma_pairs_to_map_update(ps.drop_last(), i, pr);
        assert(ps[i].0 != last.0);
        assert(pairs_to_map(ps.drop_last()).insert(pr.0, pr.1).insert(last.0, last.1)
            =~= pairs_to_map(ps.drop_last()).insert(last.0, last.1).insert(pr.0, pr.1));
    }
}

/// A digit run that ends within the window `[a, b)` is unchanged when the
/// window is cut out of the surrounding text.
pub proof fn lemma_digit_count_sub(s: Seq<char>, a: int, b: int, x: int)
    requires
        0 <= a,
        0 <= x,
        a + x <= b <= s.len(),
        a + x + digit_count(s, a + x) <= b,
    ensures
        digit_count(s.subrange(a, b), x) == digit_count(s, a + x),
    decreases s.len() - (a + x),
{
    let t = s.subrange(a, b);
    if a + x < b && is_digit(s[a + x]) {
        assert(t[x] == s[a + x]);
        lemma_digit_count_sub(s, a, b, x + 1);
    } else {
        if a + x < b {
            assert(t[x] == s[a + x]);
        }
    }
}

/// A matched numeric literal, cut out of the surrounding text, is a
/// complete numeric literal on its own.
pub proof fn lemma_number_complete(s: Seq<char>, pos: int, e: int)
    requires
        0 <= pos,
        spec_number(s, pos) == Some(e),
        pos < e <= s.len(),
    ensures
        is_number_lit(s.subrange(pos, e)),
{
    let t = s.subrange(pos, e);
    let m = if pos < s.len() && (s[pos] == '+' || s[pos] == '-') {
        pos + 1
    } else {
        pos
    };
    assert(t[0] == s[pos]);
    let tm = m - pos;
    let dm = digit_count(s, m);
    if dm > 0 {
        let f = m + dm;
        let g = if f < s.len() && s[f] == '.' {
            f + 1 + digit_count(s, f + 1)
        } else {
            f
        };
        assert(spec_exponent_end(s, g) == Some(e));
        lemma_exponent_bounds(s, g);
        assert(g <= e);
        assert(f <= g);
        lemma_digit_count_sub(s, pos, e, tm);
        assert(digit_count(t, tm) == dm);
        if f < s.len() && s[f] == '.' {
            assert(f < e);
            assert(t[f - pos] == s[f]);
            lemma_digit_count_sub(s, pos, e, f + 1 - pos);
        } else {
            if f < e {
                assert(t[f - pos] == s[f]);
            }
        }
        lemma_exponent_sub(s, pos, e, g);
        assert(spec_number(t, 0) == Some(e - pos));
    } else {
        assert(m < s.len() && s[m] == '.' && digit_count(s, m + 1) > 0);
        let g = m + 1 + digit_count(s, m + 1);
        assert(spec_exponent_end(s, g) == Some(e));
        lemma_exponent_bounds(s, g);
        assert(t[tm] == s[m]);
        lemma_digit_count_sub(s, pos, e, tm);
        assert(digit_count(t, tm) == 0);
        lemma_digit_count_sub(s, pos, e, tm + 1);
        lemma_exponent_sub(s, pos, e, g);
        assert(spec_number(t, 0) == Some(e - pos));
    }
}

/// The exponent rule never moves backwards and stays within the text.
pub proof fn lemma_exponent_bounds(s: Seq<char>, from: int)
    requires
        0 <= from <= s.len(),
    ensures
        spec_exponent_end(s, from) matches Some(r) ==> from <= r <= s.len(),
{
    if from < s.len() && (s[from] == 'e' || s[from] == 'E') {
        let d = if from + 1 < s.len() && (s[from + 1] == '+' || s[from + 1] == '-') {
            from + 2
        } else {
            from + 1
        };
        lemma_digit_count_bounds(s, d);
    }
}

/// A digit run stays within the text.
pub proof fn lemma_digit_count_bounds(s: Seq<char>, pos: int)
    requires
        0 <= pos <= s.len(),
    ensures
        pos + digit_count(s, pos) <= s.len(),
    decreases s.len() - pos,
{
    if pos < s.len() && is_digit(s[pos]) {
        lemma_digit_count_bounds(s, pos + 1);
    }
}

/// An exponent that ends at the cut `e` is read the same way inside the
/// window `[pos, e)` as in the surrounding text.
pub proof fn lemma_exponent_sub(s: Seq<char>, pos: int, e: int, g: int)
    requires
        0 <= pos <= g,
        spec_exponent_end(s, g) == Some(e),
        g <= e <= s.len(),
    ensures
        spec_exponent_end(s.subrange(pos, e), g - pos) == Some(e - pos),
{
    let t = s.subrange(pos, e);
    if g < e {
        assert(t[g - pos] == s[g]);
        assert(s[g] == 'e' || s[g] == 'E');
        let d = if g + 1 < s.len() && (s[g + 1] == '+' || s[g + 1] == '-') {
            g + 2
        } else {
            g + 1
        };
        assert(digit_count(s, d) > 0);
        assert(e == d + digit_count(s, d));
        assert(g + 1 < e);
        assert(t[g + 1 - pos] == s[g + 1]);
        lemma_digit_count_sub(s, pos, e, d - pos);
    } else {
        assert(g - pos == t.len());
    }
}

} // verus!
