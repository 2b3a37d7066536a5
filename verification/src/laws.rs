use vstd::prelude::*;

use crate::chars::digit_value;
use crate::chars::is_ascii_digit_char;
use crate::chars::is_control_char;
use crate::numbers::spec_digits_value;
use crate::numbers::spec_digit_char;
use crate::numbers::spec_i64_str;
use crate::numbers::spec_int_literal_value;
use crate::numbers::spec_nat_digits;
use crate::parser::cons_chr;
use crate::parser::matches_at;
use crate::parser::spec_arr_items;
use crate::parser::spec_digits_end;
use crate::parser::spec_number_token;
use crate::parser::spec_obj_items;
use crate::parser::spec_parse_arr;
use crate::parser::spec_parse_obj;
use crate::parser::spec_parse_string;
use crate::parser::lemma_skip_ws_bounds;
use crate::parser::spec_parse_json;
use crate::parser::spec_parse_number;
use crate::parser::spec_parse_value;
use crate::parser::spec_skip_ws;
use crate::parser::spec_string_body;
use crate::printer::spec_escape;
use crate::printer::spec_escape_char;
use crate::printer::spec_print;
use crate::printer::spec_print_entries;
use crate::printer::spec_print_items;
use crate::value::lemma_obj_insert_keys_unique;
use crate::value::lemma_obj_insert_wf_entries;
use crate::value::obj_has_key;
use crate::value::obj_keys_unique;
use crate::value::spec_obj_insert;
use crate::value::wf_entries;
use crate::value::wf_items;
use crate::value::wf_value;
use crate::value::SpecValue;

verus! {

// ---------------------------------------------------------------------------
// The round-trip law: printing and re-parsing a value tree built from
// integers, booleans, plain strings, arrays, objects with plain unique
// keys, and null gives the tree back.
// ---------------------------------------------------------------------------

/// A character that stands for itself inside a printed string literal:
/// not a quote, not a backslash, not a control character.
pub open spec fn is_plain_char(c: char) -> bool {
    c != '"' && c != '\\' && !is_control_char(c)
}

/// Text whose characters all stand for themselves.
pub open spec fn is_plain_text(t: Seq<char>) -> bool {
    forall|k: int| 0 <= k < t.len() ==> is_plain_char(#[trigger] t[k])
}

/// The values the round-trip law speaks of: trees built from integers,
/// booleans, plain-text strings, arrays, objects with plain-text keys,
/// and null. A `Float` carries free-form literal text, which need not
/// re-parse, so the law leaves it out.
pub open spec fn round_trip_value(v: SpecValue) -> bool
    decreases v, 0int,
{
    match v {
        SpecValue::Int(n) => true,
        SpecValue::Float(lit) => false,
        SpecValue::Bool(b) => true,
        SpecValue::Str(t) => is_plain_text(t),
        SpecValue::Arr(vs) => round_trip_items(vs),
        SpecValue::Obj(es) => obj_keys_unique(es) && round_trip_entries(es),
        SpecValue::Null => true,
    }
}

/// Every element of an array is itself round-trippable.
pub open spec fn round_trip_items(vs: Seq<SpecValue>) -> bool
    decreases vs, 1int,
{
    if vs.len() == 0 {
        true
    } else {
        round_trip_value(vs.first()) && round_trip_items(vs.drop_first())
    }
}

/// Every entry of an object has a plain-text key and a round-trippable
/// value.
pub open spec fn round_trip_entries(es: Seq<(Seq<char>, SpecValue)>) -> bool
    decreases es, 1int,
{
    if es.len() == 0 {
        true
    } else {
        is_plain_text(es.first().0) && round_trip_value(es.first().1) && round_trip_entries(
            es.drop_first(),
        )
    }
}

/// The printed text of one object entry.
pub open spec fn spec_print_entry(e: (Seq<char>, SpecValue)) -> Seq<char> {
    seq!['"'] + spec_escape(e.0) + seq!['"', ':'] + spec_print(e.1)
}

/// Plain text is rendered unchanged.
proof fn lemma_escape_plain(t: Seq<char>)
    requires
        is_plain_text(t),
    ensures
        spec_escape(t) == t,
    decreases t.len(),
{
    if t.len() > 0 {
        assert(is_plain_text(t.drop_last()));
        lemma_escape_plain(t.drop_last());
        assert(spec_escape_char(t.last()) == seq![t.last()]);
        assert(t.drop_last() + seq![t.last()] =~= t);
    }
}

/// The decimal rendering of a natural number is one or more ASCII digits,
/// and starts with a zero only for the number zero itself.
proof fn lemma_nat_digits_shape(m: nat)
    ensures
        spec_nat_digits(m).len() >= 1,
        forall|k: int|
            0 <= k < spec_nat_digits(m).len() ==> is_ascii_digit_char(
                #[trigger] spec_nat_digits(m)[k],
            ),
        m > 0 ==> spec_nat_digits(m)[0] != '0',
    decreases m,
{
    if m < 10 {
        assert(spec_digit_char(m) as u32 == 0x30 + m);
    } else {
        lemma_nat_digits_shape(m / 10);
        assert(spec_digit_char(m % 10) as u32 == 0x30 + m % 10);
        assert(spec_nat_digits(m)[0] == spec_nat_digits(m / 10)[0]);
    }
}

/// Reading the decimal rendering of a natural number back gives it.
proof fn lemma_digits_value_of_nat_digits(m: nat)
    ensures
        spec_digits_value(spec_nat_digits(m)) == m,
    decreases m,
{
    if m < 10 {
        assert(spec_digit_char(m) as u32 == 0x30 + m);
        assert(spec_nat_digits(m).drop_last() =~= Seq::<char>::empty());
        assert(spec_digits_value(Seq::<char>::empty()) == 0);
        assert(digit_value(spec_digit_char(m)) == m);
        assert(spec_nat_digits(m).last() == spec_digit_char(m));
    } else {
        lemma_digits_value_of_nat_digits(m / 10);
        let ds = spec_nat_digits(m);
        assert(ds == spec_nat_digits(m / 10) + seq![spec_digit_char(m % 10)]);
        assert(ds.drop_last() =~= spec_nat_digits(m / 10));
        assert(ds.last() == spec_digit_char(m % 10));
        assert(spec_digit_char(m % 10) as u32 == 0x30 + m % 10);
        assert(digit_value(ds.last()) == m % 10);
        assert(spec_digits_value(ds) == m / 10 * 10 + m % 10);
        assert(m / 10 * 10 + m % 10 == m) by (nonlinear_arith);
    }
}

/// A digit run ends exactly where the digits stop.
proof fn lemma_digits_end_run(s: Seq<char>, b: int, e: int)
    requires
        0 <= b <= e <= s.len(),
        forall|k: int| b <= k < e ==> is_ascii_digit_char(#[trigger] s[k]),
        e == s.len() || !is_ascii_digit_char(s[e]),
    ensures
        spec_digits_end(s, b) == e,
    decreases e - b,
{
    if b < e {
        lemma_digits_end_run(s, b + 1, e);
    }
}

/// A run of plain characters up to a closing quote parses back to itself.
proof fn lemma_string_body_plain(s: Seq<char>, j: int, e: int)
    requires
        0 <= j <= e < s.len(),
        forall|k: int| j <= k < e ==> is_plain_char(#[trigger] s[k]),
        s[e] == '"',
    ensures
        spec_string_body(s, j) == Some((s.subrange(j, e), e + 1)),
    decreases e - j,
{
    if j == e {
        assert(s.subrange(j, e) =~= Seq::<char>::empty());
    } else {
        lemma_string_body_plain(s, j + 1, e);
        assert(spec_string_body(s, j) == cons_chr(s[j], spec_string_body(s, j + 1)));
        assert(seq![s[j]] + s.subrange(j + 1, e) =~= s.subrange(j, e));
    }
}

/// What can follow a printed value without extending it.
pub open spec fn is_value_delim(c: char) -> bool {
    c == ',' || c == ']' || c == '}'
}

/// The printed decimal of an integer parses back to it when what follows
/// cannot extend the literal.
proof fn lemma_parse_printed_int(n: i64, s: Seq<char>, i: int)
    requires
        0 <= i,
        i + spec_i64_str(n as int).len() <= s.len(),
        s.subrange(i, i + spec_i64_str(n as int).len()) == spec_i64_str(n as int),
        i + spec_i64_str(n as int).len() == s.len() || is_value_delim(
            s[i + spec_i64_str(n as int).len()],
        ),
    ensures
        spec_parse_number(s, i) == Some((SpecValue::Int(n), i + spec_i64_str(n as int).len())),
        spec_parse_value(s, i) == Some((SpecValue::Int(n), i + spec_i64_str(n as int).len())),
{
    let txt = spec_i64_str(n as int);
    let e = i + txt.len();
    let mag: nat = if n < 0 {
        (-(n as int)) as nat
    } else {
        n as nat
    };
    let ds = spec_nat_digits(mag);
    lemma_nat_digits_shape(mag);
    lemma_digits_value_of_nat_digits(mag);
    let b = if n < 0 {
        i + 1
    } else {
        i
    };
    assert forall|k: int| i <= k < e implies s[k] == txt[k - i] by {
        assert(s.subrange(i, e)[k - i] == s[k]);
    }
    if n < 0 {
        assert(txt == seq!['-'] + ds);
        assert(s[i] == '-');
        assert forall|k: int| b <= k < e implies is_ascii_digit_char(#[trigger] s[k]) by {
            assert(s[k] == txt[k - i]);
            assert(txt[k - i] == ds[k - b]);
        }
    } else {
        assert(txt == ds);
        assert forall|k: int| b <= k < e implies is_ascii_digit_char(#[trigger] s[k]) by {
            assert(s[k] == txt[k - i]);
            assert(txt[k - i] == ds[k - b]);
        }
        assert(s[i] != '-');
    }
    assert(b < e);
    assert(s[b] == ds[0]);
    lemma_digits_end_run(s, b, e);
    if s[b] == '0' {
        assert(mag == 0);
        assert(ds.len() == 1);
        assert(e == b + 1);
    }
    assert(spec_number_token(s, i) == Some((e, false)));
    assert(s.subrange(i, e) == txt);
    if n < 0 {
        assert(txt.drop_first() =~= ds);
        assert(spec_int_literal_value(txt) == -(mag as int));
    } else {
        assert(txt[0] != '-');
        assert(spec_int_literal_value(txt) == mag as int);
    }
    assert(spec_int_literal_value(txt) == n as int);
    assert(spec_parse_number(s, i) == Some((SpecValue::Int(n), e)));
    assert(s[i] == txt[0]);
    assert(!crate::chars::is_whitespace_char(s[i]));
    assert(spec_skip_ws(s, i) == i);
    assert(s[i] != '"');
    assert(s[i] == '-' || is_ascii_digit_char(s[i]));
    assert(spec_parse_value(s, i) == spec_parse_number(s, i));
}

/// A printed round-trippable value starts with a significant character:
/// not whitespace, not a separator, not a closing bracket.
proof fn lemma_print_head(v: SpecValue)
    requires
        round_trip_value(v),
    ensures
        spec_print(v).len() >= 1,
        !crate::chars::is_whitespace_char(spec_print(v)[0]),
        spec_print(v)[0] != ']',
        spec_print(v)[0] != ',',
    decreases v,
{
    match v {
        SpecValue::Int(n) => {
            let mag: nat = if n < 0 {
                (-(n as int)) as nat
            } else {
                n as nat
            };
            lemma_nat_digits_shape(mag);
            if n < 0 {
                assert(spec_print(v)[0] == '-');
            } else {
                assert(spec_print(v)[0] == spec_nat_digits(mag)[0]);
                assert(is_ascii_digit_char(spec_print(v)[0]));
            }
        },
        _ => {},
    }
}

/// Splitting the comma-joined elements at the first element.
proof fn lemma_print_items_cons(vs: Seq<SpecValue>)
    requires
        vs.len() >= 2,
    ensures
        spec_print_items(vs) == spec_print(vs.first()) + seq![','] + spec_print_items(
            vs.drop_first(),
        ),
    decreases vs.len(),
{
    if vs.len() == 2 {
        assert(vs.drop_last().last() == vs.first());
        assert(vs.drop_last().len() == 1);
        assert(vs.drop_first().last() == vs.last());
        assert(vs.drop_first().len() == 1);
        assert(spec_print_items(vs.drop_last()) + seq![','] + spec_print(vs.last())
            =~= spec_print(vs.first()) + seq![','] + spec_print_items(vs.drop_first()));
    } else {
        lemma_print_items_cons(vs.drop_last());
        assert(vs.drop_last().first() == vs.first());
        assert(vs.drop_last().drop_first() =~= vs.drop_first().drop_last());
        assert(vs.drop_first().last() == vs.last());
        assert(vs.drop_first().len() >= 2);
        assert((spec_print(vs.first()) + seq![','] + spec_print_items(
            vs.drop_first().drop_last(),
        )) + seq![','] + spec_print(vs.last()) =~= spec_print(vs.first()) + seq![','] + (
        spec_print_items(vs.drop_first().drop_last()) + seq![','] + spec_print(
            vs.drop_first().last(),
        )));
    }
}

/// A printed boolean parses back to itself.
proof fn lemma_parse_printed_bool(b: bool, s: Seq<char>, i: int)
    requires
        0 <= i,
        i + spec_print(SpecValue::Bool(b)).len() <= s.len(),
        s.subrange(i, i + spec_print(SpecValue::Bool(b)).len()) == spec_print(SpecValue::Bool(b)),
    ensures
        spec_parse_value(s, i) == Some(
            (SpecValue::Bool(b), i + spec_print(SpecValue::Bool(b)).len()),
        ),
{
    let txt = spec_print(SpecValue::Bool(b));
    let e = i + txt.len();
    assert forall|k: int| i <= k < e implies s[k] == txt[k - i] by {
        assert(s.subrange(i, e)[k - i] == s[k]);
    }
    assert(s[i] == txt[0]);
    assert(spec_skip_ws(s, i) == i);
    if b {
        assert(s.subrange(i, i + 4) =~= seq!['t', 'r', 'u', 'e']);
        assert(matches_at(s, i, seq!['t', 'r', 'u', 'e']));
    } else {
        assert(s.subrange(i, i + 5) =~= seq!['f', 'a', 'l', 's', 'e']);
        assert(matches_at(s, i, seq!['f', 'a', 'l', 's', 'e']));
        if matches_at(s, i, seq!['t', 'r', 'u', 'e']) {
            assert(s.subrange(i, i + 4)[0] == s[i]);
            assert(false);
        }
    }
}

/// A printed null parses back to itself.
proof fn lemma_parse_printed_null(s: Seq<char>, i: int)
    requires
        0 <= i,
        i + 4 <= s.len(),
        s.subrange(i, i + 4) == seq!['n', 'u', 'l', 'l'],
    ensures
        spec_parse_value(s, i) == Some((SpecValue::Null, i + 4)),
{
    assert(s.subrange(i, i + 4)[0] == s[i]);
    assert(s[i] == 'n');
    assert(spec_skip_ws(s, i) == i);
    assert(matches_at(s, i, seq!['n', 'u', 'l', 'l']));
}

/// A printed plain string parses back to itself.
proof fn lemma_parse_printed_str(t: Seq<char>, s: Seq<char>, i: int)
    requires
        is_plain_text(t),
        0 <= i,
        i + spec_print(SpecValue::Str(t)).len() <= s.len(),
        s.subrange(i, i + spec_print(SpecValue::Str(t)).len()) == spec_print(SpecValue::Str(t)),
    ensures
        spec_parse_value(s, i) == Some(
            (SpecValue::Str(t), i + spec_print(SpecValue::Str(t)).len()),
        ),
{
    lemma_escape_plain(t);
    let txt = spec_print(SpecValue::Str(t));
    assert(txt == seq!['"'] + t + seq!['"']);
    let e = i + txt.len();
    assert forall|k: int| i <= k < e implies s[k] == txt[k - i] by {
        assert(s.subrange(i, e)[k - i] == s[k]);
    }
    assert(s[i] == '"');
    assert(spec_skip_ws(s, i) == i);
    assert(s[i + 1 + t.len()] == '"');
    assert forall|k: int| i + 1 <= k < i + 1 + t.len() implies is_plain_char(
        #[trigger] s[k],
    ) by {
        assert(s[k] == txt[k - i]);
        assert(txt[k - i] == t[k - (i + 1)]);
    }
    lemma_string_body_plain(s, i + 1, i + 1 + t.len());
    assert(s.subrange(i + 1, i + 1 + t.len()) =~= t);
}

/// A printed array parses back to its elements.
#[verifier::spinoff_prover]
proof fn lemma_parse_printed_arr(vs: Seq<SpecValue>, s: Seq<char>, i: int)
    requires
        round_trip_items(vs),
        0 <= i,
        i + spec_print(SpecValue::Arr(vs)).len() <= s.len(),
        s.subrange(i, i + spec_print(SpecValue::Arr(vs)).len()) == spec_print(
            SpecValue::Arr(vs),
        ),
    ensures
        spec_parse_arr(s, i) == Some((vs, i + spec_print(SpecValue::Arr(vs)).len())),
    decreases vs, 2int,
{
    let txt = spec_print(SpecValue::Arr(vs));
    let e = i + txt.len();
    assert forall|k: int| i <= k < e implies s[k] == txt[k - i] by {
        assert(s.subrange(i, e)[k - i] == s[k]);
    }
    assert(s[i] == '[');
    assert(s[e - 1] == ']');
    if vs.len() == 0 {
        assert(txt =~= seq!['[', ']']);
        assert(s[i + 1] == ']');
        assert(spec_skip_ws(s, i + 1) == i + 1);
        assert(spec_parse_arr(s, i) == Some((Seq::<SpecValue>::empty(), i + 2)));
        assert(Seq::<SpecValue>::empty() =~= vs);
    } else {
        assert(round_trip_value(vs.first()));
        lemma_print_head(vs.first());
        let body = spec_print_items(vs);
        assert forall|k: int| 0 <= k < body.len() implies s[i + 1 + k] == body[k] by {
            assert(s[i + 1 + k] == txt[k + 1]);
        }
        assert(s.subrange(i + 1, e - 1) =~= body);
        if vs.len() == 1 {
            assert(body == spec_print(vs.last()));
            assert(vs.last() == vs.first());
            assert(s[i + 1] == spec_print(vs.first())[0]);
        } else {
            lemma_print_items_cons(vs);
            assert(body[0] == spec_print(vs.first())[0]);
            assert(s[i + 1] == spec_print(vs.first())[0]);
        }
        assert(!crate::chars::is_whitespace_char(s[i + 1]));
        assert(spec_skip_ws(s, i + 1) == i + 1);
        assert(s[i + 1] != ']');
        lemma_parse_printed_items(vs, s, i + 1);
        assert(spec_parse_arr(s, i) == Some((vs, e)));
    }
}

/// The single printed entry is the text of the first entry.
proof fn lemma_print_entries_single(es: Seq<(Seq<char>, SpecValue)>)
    requires
        es.len() == 1,
    ensures
        spec_print_entries(es) == spec_print_entry(es.first()),
{
    assert(es.last() == es.first());
}

/// Splitting the comma-joined entries at the first entry.
proof fn lemma_print_entries_cons(es: Seq<(Seq<char>, SpecValue)>)
    requires
        es.len() >= 2,
    ensures
        spec_print_entries(es) == spec_print_entry(es.first()) + seq![','] + spec_print_entries(
            es.drop_first(),
        ),
    decreases es.len(),
{
    if es.len() == 2 {
        assert(es.drop_last().last() == es.first());
        assert(es.drop_last().len() == 1);
        assert(es.drop_first().last() == es.last());
        assert(es.drop_first().len() == 1);
        assert(spec_print_entries(es.drop_last()) + seq![','] + spec_print_entry(es.last())
            =~= spec_print_entry(es.first()) + seq![','] + spec_print_entries(
            es.drop_first(),
        ));
    } else {
        lemma_print_entries_cons(es.drop_last());
        assert(es.drop_last().first() == es.first());
        assert(es.drop_last().drop_first() =~= es.drop_first().drop_last());
        assert(es.drop_first().last() == es.last());
        assert(es.drop_first().len() >= 2);
        assert((spec_print_entry(es.first()) + seq![','] + spec_print_entries(
            es.drop_first().drop_last(),
        )) + seq![','] + spec_print_entry(es.last()) =~= spec_print_entry(es.first()) + seq![',']
            + (spec_print_entries(es.drop_first().drop_last()) + seq![','] + spec_print_entry(
            es.drop_first().last(),
        )));
    }
}

/// A printed object parses back to its entries.
#[verifier::spinoff_prover]
proof fn lemma_parse_printed_obj(es: Seq<(Seq<char>, SpecValue)>, s: Seq<char>, i: int)
    requires
        obj_keys_unique(es),
        round_trip_entries(es),
        0 <= i,
        i + spec_print(SpecValue::Obj(es)).len() <= s.len(),
        s.subrange(i, i + spec_print(SpecValue::Obj(es)).len()) == spec_print(
            SpecValue::Obj(es),
        ),
    ensures
        spec_parse_obj(s, i) == Some((es, i + spec_print(SpecValue::Obj(es)).len())),
    decreases es, 2int,
{
    let txt = spec_print(SpecValue::Obj(es));
    let e = i + txt.len();
    assert forall|k: int| i <= k < e implies s[k] == txt[k - i] by {
        assert(s.subrange(i, e)[k - i] == s[k]);
    }
    assert(s[i] == '{');
    assert(s[e - 1] == '}');
    if es.len() == 0 {
        assert(txt =~= seq!['{', '}']);
        assert(s[i + 1] == '}');
        assert(spec_skip_ws(s, i + 1) == i + 1);
        assert(spec_parse_obj(s, i) == Some(
            (Seq::<(Seq<char>, SpecValue)>::empty(), i + 2),
        ));
        assert(Seq::<(Seq<char>, SpecValue)>::empty() =~= es);
    } else {
        let body = spec_print_entries(es);
        assert forall|k: int| 0 <= k < body.len() implies s[i + 1 + k] == body[k] by {
            assert(s[i + 1 + k] == txt[k + 1]);
        }
        assert(s.subrange(i + 1, e - 1) =~= body);
        if es.len() == 1 {
            lemma_print_entries_single(es);
        } else {
            lemma_print_entries_cons(es);
        }
        assert(body[0] == spec_print_entry(es.first())[0]);
        assert(s[i + 1] == '"');
        assert(spec_skip_ws(s, i + 1) == i + 1);
        lemma_parse_printed_entries(es, Seq::empty(), s, i + 1);
        assert(spec_obj_items(s, i + 1, Seq::empty()) == Some((Seq::empty() + es, e)));
        assert(Seq::<(Seq<char>, SpecValue)>::empty() + es =~= es);
    }
}

/// Comma-joined printed entries followed by a closing brace fold into the
/// accumulator by appending, entry by entry.
#[verifier::rlimit(100)]
#[verifier::spinoff_prover]
proof fn lemma_parse_printed_entries(
    es: Seq<(Seq<char>, SpecValue)>,
    acc: Seq<(Seq<char>, SpecValue)>,
    s: Seq<char>,
    i: int,
)
    requires
        es.len() >= 1,
        obj_keys_unique(es),
        round_trip_entries(es),
        forall|a: int, b: int|
            0 <= a < acc.len() && 0 <= b < es.len() ==> (#[trigger] acc[a]).0 != (
            #[trigger] es[b]).0,
        0 <= i,
        i + spec_print_entries(es).len() + 1 <= s.len(),
        s.subrange(i, i + spec_print_entries(es).len()) == spec_print_entries(es),
        s[i + spec_print_entries(es).len()] == '}',
    ensures
        spec_obj_items(s, i, acc) == Some((acc + es, i + spec_print_entries(es).len() + 1)),
    decreases es, 1int,
{
    let body = spec_print_entries(es);
    let e = i + body.len();
    let first = es.first();
    let rest = es.drop_first();
    let key = first.0;
    let v = first.1;
    assert(is_plain_text(key));
    assert(round_trip_value(v));
    assert(round_trip_entries(rest));
    lemma_escape_plain(key);
    lemma_print_head(v);
    let et = spec_print_entry(first);
    assert(et == seq!['"'] + key + seq!['"', ':'] + spec_print(v));
    let klen = key.len();
    let pvlen = spec_print(v).len();
    assert(et.len() == klen + 3 + pvlen);
    if es.len() == 1 {
        lemma_print_entries_single(es);
    } else {
        lemma_print_entries_cons(es);
    }
    assert forall|k: int| i <= k < e implies s[k] == body[k - i] by {
        assert(s.subrange(i, e)[k - i] == s[k]);
    }
    assert forall|k: int| 0 <= k < et.len() implies body[k] == et[k] by {}
    assert(s[i] == '"');
    assert(spec_skip_ws(s, i) == i);
    assert forall|k: int| 0 <= k < klen implies s[i + 1 + k] == key[k] by {
        assert(s[i + 1 + k] == body[1 + k]);
        assert(et[1 + k] == key[k]);
    }
    assert forall|k: int| i + 1 <= k < i + 1 + klen implies is_plain_char(
        #[trigger] s[k],
    ) by {
        assert(s[k] == key[k - (i + 1)]);
    }
    assert(s[i + 1 + klen] == '"');
    lemma_string_body_plain(s, i + 1, i + 1 + klen);
    assert(s.subrange(i + 1, i + 1 + klen) =~= key);
    let p0 = i + klen + 2;
    assert(spec_parse_string(s, i) == Some((key, p0)));
    assert(s[p0] == ':');
    assert(spec_skip_ws(s, p0) == p0);
    let vstart = p0 + 1;
    assert forall|k: int| 0 <= k < pvlen implies s[vstart + k] == spec_print(v)[k] by {
        assert(s[vstart + k] == body[klen + 3 + k]);
        assert(et[klen + 3 + k] == spec_print(v)[k]);
    }
    assert(s.subrange(vstart, vstart + pvlen) =~= spec_print(v));
    let m0 = vstart + pvlen;
    assert(m0 == i + et.len());
    if es.len() == 1 {
        assert(s[m0] == '}');
    } else {
        assert(s[m0] == ',');
    }
    lemma_parse_printed_value(v, s, vstart);
    assert(spec_parse_value(s, vstart) == Some((v, m0)));
    assert(spec_skip_ws(s, m0) == m0);
    assert(!obj_has_key(acc, key)) by {
        assert(es[0].0 == key);
    }
    let acc1 = spec_obj_insert(acc, key, v);
    assert(acc1 == acc.push((key, v)));
    if es.len() == 1 {
        assert(spec_obj_items(s, i, acc) == Some((acc1, m0 + 1)));
        assert(acc1 =~= acc + es);
    } else {
        assert(obj_keys_unique(rest)) by {
            assert forall|a: int, b: int|
                0 <= a < b < rest.len() implies (#[trigger] rest[a]).0 != (
                #[trigger] rest[b]).0 by {
                assert(rest[a] == es[a + 1]);
                assert(rest[b] == es[b + 1]);
            }
        }
        assert forall|a: int, b: int|
            0 <= a < acc1.len() && 0 <= b < rest.len() implies (#[trigger] acc1[a]).0 != (
            #[trigger] rest[b]).0 by {
            assert(rest[b] == es[b + 1]);
            if a < acc.len() {
                assert(acc1[a] == acc[a]);
            } else {
                assert(acc1[a] == (key, v));
                assert(es[0].0 != es[b + 1].0);
            }
        }
        let rbody = spec_print_entries(rest);
        assert forall|k: int| 0 <= k < rbody.len() implies s[m0 + 1 + k] == rbody[k] by {
            assert(s[m0 + 1 + k] == body[et.len() + 1 + k]);
        }
        assert(s.subrange(m0 + 1, m0 + 1 + rbody.len()) =~= rbody);
        assert(m0 + 1 + rbody.len() == e);
        lemma_parse_printed_entries(rest, acc1, s, m0 + 1);
        assert(spec_obj_items(s, m0 + 1, acc1) == Some((acc1 + rest, e + 1)));
        assert(spec_obj_items(s, i, acc) == Some((acc1 + rest, e + 1)));
        assert(acc1 + rest =~= acc + es);
    }
}

/// A printed value, embedded in a larger text and followed by a separator
/// or the end, parses back to itself.
#[verifier::rlimit(100)]
#[verifier::spinoff_prover]
proof fn lemma_parse_printed_value(v: SpecValue, s: Seq<char>, i: int)
    requires
        round_trip_value(v),
        0 <= i,
        i + spec_print(v).len() <= s.len(),
        s.subrange(i, i + spec_print(v).len()) == spec_print(v),
        i + spec_print(v).len() == s.len() || is_value_delim(s[i + spec_print(v).len()]),
    ensures
        spec_parse_value(s, i) == Some((v, i + spec_print(v).len())),
    decreases v, 0int,
{
    let txt = spec_print(v);
    let e = i + txt.len();
    match v {
        SpecValue::Int(n) => {
            lemma_parse_printed_int(n, s, i);
            assert(spec_parse_value(s, i) == Some((v, i + spec_print(v).len())));
        },
        SpecValue::Bool(b) => {
            lemma_parse_printed_bool(b, s, i);
            assert(spec_parse_value(s, i) == Some((v, i + spec_print(v).len())));
        },
        SpecValue::Null => {
            lemma_parse_printed_null(s, i);
            assert(spec_parse_value(s, i) == Some((v, i + spec_print(v).len())));
        },
        SpecValue::Str(t) => {
            lemma_parse_printed_str(t, s, i);
            assert(spec_parse_value(s, i) == Some((v, i + spec_print(v).len())));
        },
        SpecValue::Arr(vs) => {
            lemma_parse_printed_arr(vs, s, i);
            assert(s.subrange(i, e)[0] == s[i]);
            assert(spec_skip_ws(s, i) == i);
            assert(spec_parse_value(s, i) == Some((v, i + spec_print(v).len())));
        },
        SpecValue::Float(lit) => {
            assert(false);
        },
        SpecValue::Obj(es) => {
            lemma_parse_printed_obj(es, s, i);
            assert(s.subrange(i, e)[0] == s[i]);
            assert(spec_skip_ws(s, i) == i);
            assert(spec_parse_value(s, i) == Some((v, i + spec_print(v).len())));
        },
    }
}

/// Comma-joined printed elements followed by a closing bracket parse back
/// to the elements.
proof fn lemma_parse_printed_items(vs: Seq<SpecValue>, s: Seq<char>, i: int)
    requires
        vs.len() >= 1,
        round_trip_items(vs),
        0 <= i,
        i + spec_print_items(vs).len() + 1 <= s.len(),
        s.subrange(i, i + spec_print_items(vs).len()) == spec_print_items(vs),
        s[i + spec_print_items(vs).len()] == ']',
    ensures
        spec_arr_items(s, i) == Some((vs, i + spec_print_items(vs).len() + 1)),
    decreases vs, 1int,
{
    let body = spec_print_items(vs);
    let e = i + body.len();
    let first = vs.first();
    let rest = vs.drop_first();
    assert(round_trip_value(first));
    assert(round_trip_items(rest));
    lemma_print_head(first);
    let pl = spec_print(first).len();
    assert forall|k: int| i <= k < e implies s[k] == body[k - i] by {
        assert(s.subrange(i, e)[k - i] == s[k]);
    }
    if vs.len() == 1 {
        assert(body == spec_print(vs.last()));
        assert(vs.last() == first);
        assert(s.subrange(i, i + pl) =~= spec_print(first));
        assert(s[i + pl] == ']');
        lemma_parse_printed_value(first, s, i);
        let p = i + pl;
        assert(spec_skip_ws(s, p) == p);
        assert(spec_arr_items(s, i) == Some((seq![first], p + 1)));
        assert(seq![first] =~= vs);
    } else {
        lemma_print_items_cons(vs);
        assert forall|k: int| 0 <= k < pl implies s[i + k] == spec_print(first)[k] by {
            assert(s[i + k] == body[k]);
            assert(body[k] == spec_print(first)[k]);
        }
        assert(s.subrange(i, i + pl) =~= spec_print(first));
        assert(s[i + pl] == ',');
        lemma_parse_printed_value(first, s, i);
        let p = i + pl;
        assert(spec_skip_ws(s, p) == p);
        let rbody = spec_print_items(rest);
        assert forall|k: int| 0 <= k < rbody.len() implies s[p + 1 + k] == rbody[k] by {
            assert(s[p + 1 + k] == body[pl + 1 + k]);
            assert(body[pl + 1 + k] == rbody[k]);
        }
        assert(s.subrange(p + 1, p + 1 + rbody.len()) =~= rbody);
        assert(p + 1 + rbody.len() == e);
        lemma_parse_printed_items(rest, s, p + 1);
        assert(spec_arr_items(s, p + 1) == Some((rest, e + 1)));
        assert(spec_arr_items(s, i) == Some((seq![first] + rest, e + 1)));
        assert(seq![first] + rest =~= vs);
    }
}

/// Round trip: for any value tree built from integers, booleans, strings
/// without special characters, arrays, objects whose keys are also such
/// strings, and null, parsing the serialized text reconstructs a
/// structurally equal value. Together with
/// the contracts of `JsonParser::parse` and `JsonValue::serialize`, this
/// says that `parse` applied to the text of `serialize` gives back a value
/// with the model it started from.
pub proof fn lemma_round_trip(v: SpecValue)
    requires
        round_trip_value(v),
    ensures
        spec_parse_json(spec_print(v)) == Some(v),
{
    let s = spec_print(v);
    assert(s.subrange(0, s.len() as int) =~= s);
    lemma_parse_printed_value(v, s, 0);
    assert(spec_parse_value(s, 0) == Some((v, s.len() as int)));
    assert(spec_skip_ws(s, s.len() as int) == s.len());
}


/// A value parsed out of any text is well-formed.
proof fn lemma_parse_value_wf(s: Seq<char>, i: int)
    ensures
        (spec_parse_value(s, i) matches Some((v, j)) ==> wf_value(v)),
    decreases s.len() - i, 1int,
{
    broadcast use lemma_skip_ws_bounds;

    let j = spec_skip_ws(s, i);
    if 0 <= j && j < s.len() {
        if s[j] == '[' {
            lemma_parse_arr_wf(s, j);
        } else if s[j] == '{' {
            lemma_parse_obj_wf(s, j);
        }
    }
}

/// The elements parsed out of an array are well-formed.
proof fn lemma_parse_arr_wf(s: Seq<char>, i: int)
    ensures
        (spec_parse_arr(s, i) matches Some((vs, j)) ==> wf_items(vs)),
    decreases s.len() - i, 0int,
{
    broadcast use lemma_skip_ws_bounds;

    if 0 <= i && i < s.len() && s[i] == '[' {
        let j = spec_skip_ws(s, i + 1);
        if !(j < s.len() && s[j] == ']') {
            lemma_arr_items_wf(s, j);
        }
    }
}

/// Prepending one element to well-formed items.
proof fn lemma_wf_items_cons(v: SpecValue, vs: Seq<SpecValue>)
    requires
        wf_value(v),
        wf_items(vs),
    ensures
        wf_items(seq![v] + vs),
{
    assert((seq![v] + vs).first() == v);
    assert((seq![v] + vs).drop_first() =~= vs);
}

/// The items of an array parse are well-formed.
proof fn lemma_arr_items_wf(s: Seq<char>, i: int)
    ensures
        (spec_arr_items(s, i) matches Some((vs, j)) ==> wf_items(vs)),
    decreases s.len() - i, 2int,
{
    broadcast use lemma_skip_ws_bounds;

    lemma_parse_value_wf(s, i);
    match spec_parse_value(s, i) {
        None => {},
        Some((v, p0)) => {
            let p = if p0 > i {
                p0
            } else {
                i + 1
            };
            let m = spec_skip_ws(s, p);
            if m < s.len() {
                if s[m] == ',' {
                    lemma_arr_items_wf(s, m + 1);
                    match spec_arr_items(s, m + 1) {
                        Some((vs, q)) => {
                            lemma_wf_items_cons(v, vs);
                        },
                        None => {},
                    }
                } else if s[m] == ']' {
                    assert(wf_items(Seq::<SpecValue>::empty()));
                    assert(seq![v].drop_first() =~= Seq::<SpecValue>::empty());
                    assert(seq![v].first() == v);
                    assert(wf_items(seq![v]));
                }
            }
        },
    }
}

/// The entries parsed out of an object are well-formed and have unique
/// keys.
proof fn lemma_parse_obj_wf(s: Seq<char>, i: int)
    ensures
        (spec_parse_obj(s, i) matches Some((es, j)) ==> obj_keys_unique(es) && wf_entries(es)),
    decreases s.len() - i, 0int,
{
    broadcast use lemma_skip_ws_bounds;

    if 0 <= i && i < s.len() && s[i] == '{' {
        let j = spec_skip_ws(s, i + 1);
        if !(j < s.len() && s[j] == '}') {
            lemma_obj_items_wf(s, j, Seq::empty());
        }
    }
}

/// Folding entries into a well-formed accumulator keeps it well-formed.
proof fn lemma_obj_items_wf(s: Seq<char>, i: int, acc: Seq<(Seq<char>, SpecValue)>)
    requires
        obj_keys_unique(acc),
        wf_entries(acc),
    ensures
        (spec_obj_items(s, i, acc) matches Some((es, j)) ==> obj_keys_unique(es) && wf_entries(
            es,
        )),
    decreases s.len() - i, 2int,
{
    broadcast use lemma_skip_ws_bounds;

    let j = spec_skip_ws(s, i);
    match spec_parse_string(s, j) {
        None => {},
        Some((key, p0)) => {
            let p = if p0 > j {
                p0
            } else {
                j + 1
            };
            let q = spec_skip_ws(s, p);
            if q < s.len() && s[q] == ':' {
                lemma_parse_value_wf(s, q + 1);
                match spec_parse_value(s, q + 1) {
                    None => {},
                    Some((v, m0)) => {
                        let acc1 = spec_obj_insert(acc, key, v);
                        lemma_obj_insert_keys_unique(acc, key, v);
                        lemma_obj_insert_wf_entries(acc, key, v);
                        let m1 = if m0 > q + 1 {
                            m0
                        } else {
                            q + 2
                        };
                        let m = spec_skip_ws(s, m1);
                        if m < s.len() && s[m] == ',' {
                            lemma_obj_items_wf(s, m + 1, acc1);
                        }
                    },
                }
            }
        },
    }
}

/// Key uniqueness: every object anywhere in a parsed value tree has
/// unique keys; a key repeated in the source collapses to one entry
/// before the value is ever handed out.
pub proof fn lemma_parsed_objects_have_unique_keys(s: Seq<char>)
    ensures
        (spec_parse_json(s) matches Some(v) ==> wf_value(v)),
{
    lemma_parse_value_wf(s, 0);
}

} // verus!
