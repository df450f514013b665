//! The executable parser.
//!
//! Each grammar rule is an executable function verified against its model in
//! [`crate::grammar`]: a rule returns `Ok` exactly when the corresponding
//! spec function matches, and then returns the modelled value and consumes
//! the modelled amount of input.

use vstd::prelude::*;

use crate::grammar::{
    distinct_keys, double_of, find_quote, is_blank, is_digit, is_number_lit,
    lemma_number_complete, lemma_pairs_to_map_snoc, lemma_pairs_to_map_update, pairs_to_map,
    spec_array, spec_bool,
    spec_elements, spec_member, spec_members, spec_more_elements, spec_more_members, spec_null,
    spec_number, spec_object, spec_string, spec_value, digit_count, spec_exponent_end, ws_count,
    SpecJson,
};

verus! {

/// A parsed JSON tree.
///
/// A number is stored as the bit pattern of the 64-bit IEEE-754 value its
/// literal denotes (verified code cannot hold a float; callers that want
/// the float itself reconstruct it from the bits).  String contents are
/// kept as read, without escape processing.  An object holds its pairs in
/// insertion order with pairwise distinct keys; a later duplicate key in
/// the source overwrites the earlier value in place.
#[derive(Debug, PartialEq)]
pub enum JsonValue {
    Number(u64),
    Str(String),
    Bool(bool),
    Null,
    Object(Vec<(String, JsonValue)>),
    Array(Vec<JsonValue>),
}

/// The abstract tree a [`JsonValue`] stands for.
pub open spec fn view_of(v: JsonValue) -> SpecJson
    decreases v,
{
    match v {
        JsonValue::Number(bits) => SpecJson::Number(bits),
        JsonValue::Str(t) => SpecJson::Str(t@),
        JsonValue::Bool(b) => SpecJson::Bool(b),
        JsonValue::Null => SpecJson::Null,
        JsonValue::Object(ps) => SpecJson::Object(pairs_to_map(pair_seq(ps@))),
        JsonValue::Array(es) => SpecJson::Array(elem_seq(es@)),
    }
}

/// The pairs of an exec object, as abstract key/value pairs.
pub open spec fn pair_seq(ps: Seq<(String, JsonValue)>) -> Seq<(Seq<char>, SpecJson)>
    decreases ps,
{
    Seq::new(
        ps.len(),
        |i: int|
            if 0 <= i < ps.len() {
                (ps[i].0@, view_of(ps[i].1))
            } else {
                (Seq::empty(), SpecJson::Null)
            },
    )
}

/// The elements of an exec array, as abstract values.
pub open spec fn elem_seq(es: Seq<JsonValue>) -> Seq<SpecJson>
    decreases es,
{
    Seq::new(
        es.len(),
        |i: int|
            if 0 <= i < es.len() {
                view_of(es[i])
            } else {
                SpecJson::Null
            },
    )
}

/// The grammar rules that tag the failures they report.
#[derive(Debug, Clone, Copy, PartialEq, Eq, Structural)]
pub enum Rule {
    Str,
    Array,
    Object,
    Parse,
}

/// A parse failure: the position of the deepest mismatch and the stack of
/// named rules around it, innermost first.
#[derive(Debug, Clone, PartialEq)]
pub struct ParseError {
    pub position: usize,
    pub contexts: Vec<Rule>,
}

/// The contexts a failing value rule reports: the named rule that the
/// first significant character dispatched to, if it names its failures.
/// The literal and number rules report no context of their own.
pub open spec fn value_err_contexts(s: Seq<char>, pos: int) -> Seq<Rule> {
    let p = pos + ws_count(s, pos);
    if p < s.len() && s[p] == '{' {
        seq![Rule::Object]
    } else if p < s.len() && s[p] == '[' {
        seq![Rule::Array]
    } else if p < s.len() && s[p] == '"' {
        seq![Rule::Str]
    } else {
        Seq::empty()
    }
}

/// Relies on `nom::number::complete::double`: on a complete numeric
/// literal it returns the IEEE-754 double that literal denotes, nearest to
/// its decimal value, as a function of the characters alone.  The bit
/// pattern of that double is returned.
#[verifier::external_body]
fn number_value(t: &str) -> (r: u64)
    requires
        is_number_lit(t@),
    ensures
        r == double_of(t@),
{
    match nom::number::complete::double::<&str, nom::error::Error<&str>>(t) {
        Ok((_, value)) => value.to_bits(),
        Err(_) => 0,
    }
}

/// Whether `c` is one of the blank characters the parser skips.
fn is_blank_char(c: char) -> (r: bool)
    ensures
        r == is_blank(c),
{
    c == ' ' || c == '\t' || c == '\n' || c == '\r'
}

/// Whether `c` is an ASCII decimal digit.
fn is_digit_char(c: char) -> (r: bool)
    ensures
        r == is_digit(c),
{
    '0' <= c && c <= '9'
}

/// Advances past the blanks at `pos`.
fn skip_blanks(s: &str, pos: usize) -> (r: usize)
    requires
        pos <= s@.len(),
    ensures
        r as int == pos + ws_count(s@, pos as int),
        pos <= r <= s@.len(),
{
    let len = s.unicode_len();
    let mut i = pos;
    while i < len && is_blank_char(s.get_char(i))
        invariant
            pos <= i <= len,
            len == s@.len(),
            pos + ws_count(s@, pos as int) == i + ws_count(s@, i as int),
        decreases len - i,
    {
        i = i + 1;
    }
    i
}

/// Advances past the digits at `pos`.
fn skip_digits(s: &str, pos: usize) -> (r: usize)
    requires
        pos <= s@.len(),
    ensures
        r as int == pos + digit_count(s@, pos as int),
        pos <= r <= s@.len(),
{
    let len = s.unicode_len();
    let mut i = pos;
    while i < len && is_digit_char(s.get_char(i))
        invariant
            pos <= i <= len,
            len == s@.len(),
            pos + digit_count(s@, pos as int) == i + digit_count(s@, i as int),
        decreases len - i,
    {
        i = i + 1;
    }
    i
}

/// The string rule at `pos`: on a match, returns the index of the closing
/// quote, so that the contents are `s@.subrange(pos + 1, j)` and the rule
/// consumes through `j`.
fn string_at(s: &str, pos: usize) -> (r: Result<usize, ParseError>)
    requires
        pos <= s@.len(),
    ensures
        match r {
            Ok(j) => {
                &&& pos < j < s@.len()
                &&& spec_string(s@, pos as int) == Some(
                    (s@.subrange(pos as int + 1, j as int), j as int + 1),
                )
            },
            Err(e) => {
                &&& spec_string(s@, pos as int) is None
                &&& e.contexts@ =~= seq![Rule::Str]
            },
        },
{
    let len = s.unicode_len();
    if pos >= len || s.get_char(pos) != '"' {
        return Err(ParseError { position: pos, contexts: vec![Rule::Str] });
    }
    let mut i = pos + 1;
    while i < len && s.get_char(i) != '"'
        invariant
            pos + 1 <= i <= len,
            len == s@.len(),
            find_quote(s@, pos as int + 1) == find_quote(s@, i as int),
        decreases len - i,
    {
        i = i + 1;
    }
    if i < len {
        Ok(i)
    } else {
        Err(ParseError { position: len, contexts: vec![Rule::Str] })
    }
}

/// The boolean rule at `pos`: the literal `true` or `false`.
fn bool_at(s: &str, pos: usize) -> (r: Result<(bool, usize), ParseError>)
    requires
        pos <= s@.len(),
    ensures
        match r {
            Ok((b, q)) => {
                &&& pos < q <= s@.len()
                &&& spec_bool(s@, pos as int) == Some((b, q as int))
            },
            Err(e) => {
                &&& spec_bool(s@, pos as int) is None
                &&& e.contexts@ =~= Seq::<Rule>::empty()
            },
        },
{
    let len = s.unicode_len();
    if len - pos >= 4 && s.get_char(pos) == 't' && s.get_char(pos + 1) == 'r' && s.get_char(
        pos + 2,
    ) == 'u' && s.get_char(pos + 3) == 'e' {
        Ok((true, pos + 4))
    } else if len - pos >= 5 && s.get_char(pos) == 'f' && s.get_char(pos + 1) == 'a' && s.get_char(
        pos + 2,
    ) == 'l' && s.get_char(pos + 3) == 's' && s.get_char(pos + 4) == 'e' {
        Ok((false, pos + 5))
    } else {
        Err(ParseError { position: pos, contexts: Vec::new() })
    }
}

/// The null rule at `pos`: the literal `null`.
fn null_at(s: &str, pos: usize) -> (r: Result<usize, ParseError>)
    requires
        pos <= s@.len(),
    ensures
        match r {
            Ok(q) => {
                &&& pos < q <= s@.len()
                &&& spec_null(s@, pos as int) == Some(q as int)
            },
            Err(e) => {
                &&& spec_null(s@, pos as int) is None
                &&& e.contexts@ =~= Seq::<Rule>::empty()
            },
        },
{
    let len = s.unicode_len();
    if len - pos >= 4 && s.get_char(pos) == 'n' && s.get_char(pos + 1) == 'u' && s.get_char(
        pos + 2,
    ) == 'l' && s.get_char(pos + 3) == 'l' {
        Ok(pos + 4)
    } else {
        Err(ParseError { position: pos, contexts: Vec::new() })
    }
}

/// The number rule at `pos`: returns the position past the longest prefix
/// matching the numeric grammar, or fails without a context of its own.
fn number_end_at(s: &str, pos: usize) -> (r: Result<usize, ParseError>)
    requires
        pos <= s@.len(),
    ensures
        match r {
            Ok(q) => {
                &&& pos < q <= s@.len()
                &&& spec_number(s@, pos as int) == Some(q as int)
            },
            Err(e) => {
                &&& spec_number(s@, pos as int) is None
                &&& e.contexts@ =~= Seq::<Rule>::empty()
            },
        },
{
    let len = s.unicode_len();
    let m = if pos < len && (s.get_char(pos) == '+' || s.get_char(pos) == '-') {
        pos + 1
    } else {
        pos
    };
    let f = skip_digits(s, m);
    if f > m {
        let g = if f < len && s.get_char(f) == '.' {
            skip_digits(s, f + 1)
        } else {
            f
        };
        match exponent_end_at(s, g) {
            Some(q) => Ok(q),
            None => Err(ParseError { position: g, contexts: Vec::new() }),
        }
    } else if m < len && s.get_char(m) == '.' {
        let g = skip_digits(s, m + 1);
        if g > m + 1 {
            match exponent_end_at(s, g) {
                Some(q) => Ok(q),
                None => Err(ParseError { position: g, contexts: Vec::new() }),
            }
        } else {
            Err(ParseError { position: pos, contexts: Vec::new() })
        }
    } else {
        Err(ParseError { position: pos, contexts: Vec::new() })
    }
}

/// The exponent part at `from`: `None` when an exponent marker stands
/// there without digits, which fails the number rule.
fn exponent_end_at(s: &str, from: usize) -> (r: Option<usize>)
    requires
        from <= s@.len(),
    ensures
        match r {
            Some(q) => {
                &&& spec_exponent_end(s@, from as int) == Some(q as int)
                &&& from <= q <= s@.len()
            },
            None => spec_exponent_end(s@, from as int) is None,
        },
{
    let len = s.unicode_len();
    if from < len && (s.get_char(from) == 'e' || s.get_char(from) == 'E') {
        let d = if from + 1 < len && (s.get_char(from + 1) == '+' || s.get_char(from + 1) == '-') {
            from + 2
        } else {
            from + 1
        };
        let q = skip_digits(s, d);
        if q > d {
            Some(q)
        } else {
            None
        }
    } else {
        Some(from)
    }
}

/// Replaces the value of an existing key in place, or appends the pair:
/// the map denoted by the pairs gains exactly this binding, and the keys
/// stay pairwise distinct.
fn insert_pair(ps: &mut Vec<(String, JsonValue)>, k: String, v: JsonValue)
    requires
        distinct_keys(pair_seq(old(ps)@)),
    ensures
        distinct_keys(pair_seq(final(ps)@)),
        pairs_to_map(pair_seq(final(ps)@)) == pairs_to_map(pair_seq(old(ps)@)).insert(
            k@,
            view_of(v),
        ),
{
    let n = ps.len();
    let mut i: usize = 0;
    while i < n
        invariant
            i <= n,
            n == ps@.len(),
            *ps == *old(ps),
            distinct_keys(pair_seq(old(ps)@)),
            forall|t: int| 0 <= t < i ==> ps@[t].0@ != k@,
        decreases n - i,
    {
        if ps[i].0 == k {
            let ghost before = pair_seq(ps@);
            ps.remove(i);
            ps.insert(i, (k, v));
            proof {
                assert(ps@ =~= old(ps)@.update(i as int, ps@[i as int]));
                assert(pair_seq(ps@) =~= before.update(i as int, (ps@[i as int].0@, view_of(ps@[i as int].1))));
                lemma_pairs_to_map_update(
                    before,
                    i as int,
                    (ps@[i as int].0@, view_of(ps@[i as int].1)),
                );
                assert(distinct_keys(pair_seq(ps@)));
            }
            return ;
        }
        i = i + 1;
    }
    let ghost before = pair_seq(ps@);
    ps.push((k, v));
    proof {
        assert(pair_seq(ps@) =~= before.push((k@, view_of(v))));
        lemma_pairs_to_map_snoc(before, (k@, view_of(v)));
        assert(distinct_keys(pair_seq(ps@)));
    }
}

/// The value rule at `pos`: skips blanks, dispatches on the first
/// significant character, then skips trailing blanks.
fn value_at(s: &str, pos: usize) -> (r: Result<(JsonValue, usize), ParseError>)
    requires
        pos <= s@.len(),
    ensures
        match r {
            Ok((v, q)) => {
                &&& pos < q <= s@.len()
                &&& spec_value(s@, pos as int) == Some((view_of(v), q as int))
            },
            Err(e) => {
                &&& spec_value(s@, pos as int) is None
                &&& e.contexts@ =~= value_err_contexts(s@, pos as int)
            },
        },
    decreases s@.len() - pos, 4int,
{
    let len = s.unicode_len();
    let p = skip_blanks(s, pos);
    if p >= len {
        return Err(ParseError { position: p, contexts: Vec::new() });
    }
    let c = s.get_char(p);
    if c == '{' {
        match object_at(s, p) {
            Ok((ps, q)) => {
                let q2 = skip_blanks(s, q);
                Ok((JsonValue::Object(ps), q2))
            },
            Err(e) => Err(e),
        }
    } else if c == '[' {
        match array_at(s, p) {
            Ok((es, q)) => {
                let q2 = skip_blanks(s, q);
                Ok((JsonValue::Array(es), q2))
            },
            Err(e) => Err(e),
        }
    } else if c == '"' {
        match string_at(s, p) {
            Ok(j) => {
                let t = s.substring_char(p + 1, j).to_owned();
                let q2 = skip_blanks(s, j + 1);
                Ok((JsonValue::Str(t), q2))
            },
            Err(e) => Err(e),
        }
    } else if c == 't' || c == 'f' {
        match bool_at(s, p) {
            Ok((b, q)) => {
                let q2 = skip_blanks(s, q);
                Ok((JsonValue::Bool(b), q2))
            },
            Err(e) => Err(e),
        }
    } else if c == 'n' {
        match null_at(s, p) {
            Ok(q) => {
                let q2 = skip_blanks(s, q);
                Ok((JsonValue::Null, q2))
            },
            Err(e) => Err(e),
        }
    } else {
        match number_end_at(s, p) {
            Ok(e) => {
                let t = s.substring_char(p, e);
                proof {
                    lemma_number_complete(s@, p as int, e as int);
                }
                let bits = number_value(t);
                let q2 = skip_blanks(s, e);
                Ok((JsonValue::Number(bits), q2))
            },
            Err(e) => Err(e),
        }
    }
}

/// The array rule at `pos`: `[`, the comma-separated elements, then `]`.
fn array_at(s: &str, pos: usize) -> (r: Result<(Vec<JsonValue>, usize), ParseError>)
    requires
        pos <= s@.len(),
    ensures
        match r {
            Ok((es, q)) => {
                &&& pos < q <= s@.len()
                &&& spec_array(s@, pos as int) == Some((SpecJson::Array(elem_seq(es@)), q as int))
            },
            Err(e) => {
                &&& spec_array(s@, pos as int) is None
                &&& e.contexts@ =~= seq![Rule::Array]
            },
        },
    decreases s@.len() - pos, 3int,
{
    let len = s.unicode_len();
    if pos >= len || s.get_char(pos) != '[' {
        return Err(ParseError { position: pos, contexts: vec![Rule::Array] });
    }
    let mut es: Vec<JsonValue> = Vec::new();
    let mut p: usize = pos + 1;
    let mut going = true;
    match value_at(s, p) {
        Ok((v, q)) => {
            proof {
                assert(elem_seq(es@.push(v)) =~= seq![view_of(v)]);
            }
            es.push(v);
            p = q;
        },
        Err(_) => {
            going = false;
        },
    }
    while going
        invariant
            pos + 1 <= p <= s@.len(),
            going ==> spec_elements(s@, pos as int + 1).0 == elem_seq(es@)
                + spec_more_elements(s@, p as int).0,
            going ==> spec_elements(s@, pos as int + 1).1 == spec_more_elements(s@, p as int).1,
            !going ==> spec_elements(s@, pos as int + 1) == (elem_seq(es@), p as int),
        decreases s@.len() - p + (if going { 1int } else { 0int }),
    {
        let len2 = s.unicode_len();
        let mut advanced = false;
        if p < len2 && s.get_char(p) == ',' {
            match value_at(s, p + 1) {
                Ok((v, q)) => {
                    proof {
                        assert(elem_seq(es@.push(v)) =~= elem_seq(es@).push(view_of(v)));
                        assert(elem_seq(es@) + (seq![view_of(v)] + spec_more_elements(
                            s@,
                            q as int,
                        ).0) =~= elem_seq(es@.push(v)) + spec_more_elements(s@, q as int).0);
                    }
                    es.push(v);
                    p = q;
                    advanced = true;
                },
                Err(_) => {
                    going = false;
                },
            }
        } else {
            going = false;
        }
        proof {
            if !advanced {
                assert(spec_more_elements(s@, p as int) == (
                    Seq::<SpecJson>::empty(),
                    p as int,
                ));
                assert(elem_seq(es@) + Seq::<SpecJson>::empty() =~= elem_seq(es@));
                assert(spec_elements(s@, pos as int + 1).0 == elem_seq(es@));
            }
        }
    }
    if p < len && s.get_char(p) == ']' {
        Ok((es, p + 1))
    } else {
        Err(ParseError { position: p, contexts: vec![Rule::Array] })
    }
}

/// One object pair at `pos`: blanks, a string key, blanks, `:`, a value.
fn member_at(s: &str, pos: usize) -> (r: Result<(String, JsonValue, usize), ParseError>)
    requires
        pos <= s@.len(),
    ensures
        match r {
            Ok((k, v, q)) => {
                &&& pos < q <= s@.len()
                &&& spec_member(s@, pos as int) == Some((k@, view_of(v), q as int))
            },
            Err(e) => spec_member(s@, pos as int) is None,
        },
    decreases s@.len() - pos, 2int,
{
    let len = s.unicode_len();
    let p1 = skip_blanks(s, pos);
    match string_at(s, p1) {
        Ok(j) => {
            let k = s.substring_char(p1 + 1, j).to_owned();
            let p3 = skip_blanks(s, j + 1);
            if p3 < len && s.get_char(p3) == ':' {
                match value_at(s, p3 + 1) {
                    Ok((v, q)) => Ok((k, v, q)),
                    Err(e) => Err(e),
                }
            } else {
                Err(ParseError { position: p3, contexts: Vec::new() })
            }
        },
        Err(e) => Err(e),
    }
}

/// The object rule at `pos`: `{`, the comma-separated pairs, then `}`.
/// The returned pairs have distinct keys; a duplicate key in the source
/// overwrote the earlier value.
fn object_at(s: &str, pos: usize) -> (r: Result<(Vec<(String, JsonValue)>, usize), ParseError>)
    requires
        pos <= s@.len(),
    ensures
        match r {
            Ok((ps, q)) => {
                &&& pos < q <= s@.len()
                &&& distinct_keys(pair_seq(ps@))
                &&& spec_object(s@, pos as int) == Some(
                    (SpecJson::Object(pairs_to_map(pair_seq(ps@))), q as int),
                )
            },
            Err(e) => {
                &&& spec_object(s@, pos as int) is None
                &&& e.contexts@ =~= seq![Rule::Object]
            },
        },
    decreases s@.len() - pos, 3int,
{
    let len = s.unicode_len();
    if pos >= len || s.get_char(pos) != '{' {
        return Err(ParseError { position: pos, contexts: vec![Rule::Object] });
    }
    let mut ps: Vec<(String, JsonValue)> = Vec::new();
    let ghost mut done: Seq<(Seq<char>, SpecJson)> = Seq::empty();
    let mut p: usize = pos + 1;
    let mut going = true;
    match member_at(s, p) {
        Ok((k, v, q)) => {
            proof {
                done = seq![(k@, view_of(v))];
                assert(pair_seq(ps@) =~= Seq::<(Seq<char>, SpecJson)>::empty());
                assert(pair_seq(ps@.push((k, v))) =~= pair_seq(ps@).push((k@, view_of(v))));
                lemma_pairs_to_map_snoc(pair_seq(ps@), (k@, view_of(v)));
            }
            ps.push((k, v));
            p = q;
        },
        Err(_) => {
            going = false;
        },
    }
    while going
        invariant
            pos + 1 <= p <= s@.len(),
            distinct_keys(pair_seq(ps@)),
            pairs_to_map(pair_seq(ps@)) == pairs_to_map(done),
            going ==> spec_members(s@, pos as int + 1).0 == done + spec_more_members(
                s@,
                p as int,
            ).0,
            going ==> spec_members(s@, pos as int + 1).1 == spec_more_members(s@, p as int).1,
            !going ==> spec_members(s@, pos as int + 1) == (done, p as int),
        decreases s@.len() - p + (if going { 1int } else { 0int }),
    {
        let len2 = s.unicode_len();
        let mut advanced = false;
        if p < len2 && s.get_char(p) == ',' {
            match member_at(s, p + 1) {
                Ok((k, v, q)) => {
                    proof {
                        assert(done + (seq![(k@, view_of(v))] + spec_more_members(s@, q as int).0)
                            =~= (done + seq![(k@, view_of(v))]) + spec_more_members(
                            s@,
                            q as int,
                        ).0);
                        assert(done + seq![(k@, view_of(v))] =~= done.push((k@, view_of(v))));
                        lemma_pairs_to_map_snoc(done, (k@, view_of(v)));
                    }
                    let ghost kk = k@;
                    let ghost vv = view_of(v);
                    insert_pair(&mut ps, k, v);
                    proof {
                        done = done.push((kk, vv));
                    }
                    p = q;
                    advanced = true;
                },
                Err(_) => {
                    going = false;
                },
            }
        } else {
            going = false;
        }
        proof {
            if !advanced {
                assert(spec_more_members(s@, p as int) == (
                    Seq::<(Seq<char>, SpecJson)>::empty(),
                    p as int,
                ));
                assert(done + Seq::<(Seq<char>, SpecJson)>::empty() =~= done);
                assert(spec_members(s@, pos as int + 1).0 == done);
            }
        }
    }
    if p < len && s.get_char(p) == '}' {
        Ok((ps, p + 1))
    } else {
        Err(ParseError { position: p, contexts: vec![Rule::Object] })
    }
}

/// Parses a JSON value at the start of `input`, with surrounding blanks
/// skipped, and returns the unconsumed remainder beside it.  Succeeds
/// exactly when the value rule of the grammar matches; on failure the
/// outermost context of the error names this rule.
pub fn parse<'a>(input: &'a str) -> (r: Result<(&'a str, JsonValue), ParseError>)
    ensures
        match r {
            Ok((rem, v)) => {
                &&& spec_value(input@, 0) matches Some((sv, q))
                &&& view_of(v) == sv
                &&& rem@ == input@.subrange(q, input@.len() as int)
            },
            Err(e) => {
                &&& spec_value(input@, 0) is None
                &&& e.contexts@ =~= value_err_contexts(input@, 0).push(Rule::Parse)
            },
        },
{
    match value_at(input, 0) {
        Ok((v, q)) => {
            let len = input.unicode_len();
            Ok((input.substring_char(q, len), v))
        },
        Err(mut e) => {
            e.contexts.push(Rule::Parse);
            Err(e)
        },
    }
}

/// Parses a string literal at the start of `input` and returns the
/// remainder and the contents between the quotes, unescaped.
pub fn parse_string<'a>(input: &'a str) -> (r: Result<(&'a str, &'a str), ParseError>)
    ensures
        match r {
            Ok((rem, t)) => {
                &&& spec_string(input@, 0) matches Some((tt, q))
                &&& t@ == tt
                &&& rem@ == input@.subrange(q, input@.len() as int)
            },
            Err(e) => {
                &&& spec_string(input@, 0) is None
                &&& e.contexts@ =~= seq![Rule::Str]
            },
        },
{
    match string_at(input, 0) {
        Ok(j) => {
            let len = input.unicode_len();
            Ok((input.substring_char(j + 1, len), input.substring_char(1, j)))
        },
        Err(e) => Err(e),
    }
}

/// Parses the literal `true` or `false` at the start of `input`.
pub fn parse_bool<'a>(input: &'a str) -> (r: Result<(&'a str, bool), ParseError>)
    ensures
        match r {
            Ok((rem, b)) => {
                &&& spec_bool(input@, 0) matches Some((bb, q))
                &&& bb == b
                &&& rem@ == input@.subrange(q, input@.len() as int)
            },
            Err(_) => spec_bool(input@, 0) is None,
        },
{
    match bool_at(input, 0) {
        Ok((b, q)) => {
            let len = input.unicode_len();
            Ok((input.substring_char(q, len), b))
        },
        Err(e) => Err(e),
    }
}

/// Parses the literal `null` at the start of `input`.
pub fn parse_null<'a>(input: &'a str) -> (r: Result<(&'a str, JsonValue), ParseError>)
    ensures
        match r {
            Ok((rem, v)) => {
                &&& spec_null(input@, 0) matches Some(q)
                &&& v == JsonValue::Null
                &&& rem@ == input@.subrange(q, input@.len() as int)
            },
            Err(_) => spec_null(input@, 0) is None,
        },
{
    match null_at(input, 0) {
        Ok(q) => {
            let len = input.unicode_len();
            Ok((input.substring_char(q, len), JsonValue::Null))
        },
        Err(e) => Err(e),
    }
}

/// Parses an array at the start of `input` and returns the remainder and
/// the elements in source order.
pub fn parse_array<'a>(input: &'a str) -> (r: Result<(&'a str, Vec<JsonValue>), ParseError>)
    ensures
        match r {
            Ok((rem, es)) => {
                &&& spec_array(input@, 0) matches Some((v, q))
                &&& v == SpecJson::Array(elem_seq(es@))
                &&& rem@ == input@.subrange(q, input@.len() as int)
            },
            Err(e) => {
                &&& spec_array(input@, 0) is None
                &&& e.contexts@ =~= seq![Rule::Array]
            },
        },
{
    match array_at(input, 0) {
        Ok((es, q)) => {
            let len = input.unicode_len();
            Ok((input.substring_char(q, len), es))
        },
        Err(e) => Err(e),
    }
}

/// Parses an object at the start of `input` and returns the remainder and
/// the pairs, keys distinct, a duplicate key in the source having
/// overwritten the earlier value.
pub fn parse_object<'a>(input: &'a str) -> (r: Result<
    (&'a str, Vec<(String, JsonValue)>),
    ParseError,
>)
    ensures
        match r {
            Ok((rem, ps)) => {
                &&& spec_object(input@, 0) matches Some((v, q))
                &&& distinct_keys(pair_seq(ps@))
                &&& v == SpecJson::Object(pairs_to_map(pair_seq(ps@)))
                &&& rem@ == input@.subrange(q, input@.len() as int)
            },
            Err(e) => {
                &&& spec_object(input@, 0) is None
                &&& e.contexts@ =~= seq![Rule::Object]
            },
        },
{
    match object_at(input, 0) {
        Ok((ps, q)) => {
            let len = input.unicode_len();
            Ok((input.substring_char(q, len), ps))
        },
        Err(e) => Err(e),
    }
}

} // verus!
