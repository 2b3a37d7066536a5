use vstd::prelude::*;

use crate::chars::push_char;
use crate::numbers::push_i64_decimal;
use crate::numbers::spec_i64_str;
use crate::value::arr_model;
use crate::value::lemma_arr_model_index;
use crate::value::lemma_obj_model_index;
use crate::value::obj_model;
use crate::value::JsonValue;
use crate::value::SpecValue;
use vstd::string::StrSliceExecFns;
use vstd::string::StringExecFns;

verus! {

// ---------------------------------------------------------------------------
// The printer, as spec functions: the compact text of a value tree.
// ---------------------------------------------------------------------------

/// How one character of string contents is rendered: a quote or a newline
/// gets a two-character escape; everything else stands as itself.
pub open spec fn spec_escape_char(c: char) -> Seq<char> {
    if c == '"' {
        seq!['\\', '"']
    } else if c == '\n' {
        seq!['\\', 'n']
    } else {
        seq![c]
    }
}

/// The rendering of string contents, character by character.
pub open spec fn spec_escape(t: Seq<char>) -> Seq<char>
    decreases t.len(),
{
    if t.len() == 0 {
        Seq::empty()
    } else {
        spec_escape(t.drop_last()) + spec_escape_char(t.last())
    }
}

/// The compact JSON text of a value.
pub open spec fn spec_print(v: SpecValue) -> Seq<char>
    decreases v, 0int,
{
    match v {
        SpecValue::Int(n) => spec_i64_str(n as int),
        SpecValue::Float(lit) => lit,
        SpecValue::Bool(b) => if b {
            seq!['t', 'r', 'u', 'e']
        } else {
            seq!['f', 'a', 'l', 's', 'e']
        },
        SpecValue::Str(t) => seq!['"'] + spec_escape(t) + seq!['"'],
        SpecValue::Arr(vs) => seq!['['] + spec_print_items(vs) + seq![']'],
        SpecValue::Obj(es) => seq!['{'] + spec_print_entries(es) + seq!['}'],
        SpecValue::Null => seq!['n', 'u', 'l', 'l'],
    }
}

/// Array elements, joined by commas.
pub open spec fn spec_print_items(vs: Seq<SpecValue>) -> Seq<char>
    decreases vs, 1int,
{
    if vs.len() == 0 {
        Seq::empty()
    } else if vs.len() == 1 {
        spec_print(vs.last())
    } else {
        spec_print_items(vs.drop_last()) + seq![','] + spec_print(vs.last())
    }
}

/// Object entries, each a quoted key, a colon and a value, joined by
/// commas, in the order the entries stand in.
pub open spec fn spec_print_entries(es: Seq<(Seq<char>, SpecValue)>) -> Seq<char>
    decreases es, 1int,
{
    if es.len() == 0 {
        Seq::empty()
    } else {
        let e = seq!['"'] + spec_escape(es.last().0) + seq!['"', ':'] + spec_print(es.last().1);
        if es.len() == 1 {
            e
        } else {
            spec_print_entries(es.drop_last()) + seq![','] + e
        }
    }
}

/// Appends a quoted, escaped string literal.
fn write_string_literal(out: &mut String, t: &String)
    ensures
        final(out)@ == old(out)@ + seq!['"'] + spec_escape(t@) + seq!['"'],
{
    push_char(out, '"');
    let n = t.as_str().unicode_len();
    let mut i: usize = 0;
    while i < n
        invariant
            0 <= i <= n,
            n == t@.len(),
            out@ == old(out)@ + seq!['"'] + spec_escape(t@.take(i as int)),
        decreases n - i,
    {
        let ghost before = out@;
        let c = t.as_str().get_char(i);
        if c == '"' {
            push_char(out, '\\');
            push_char(out, '"');
        } else if c == '\n' {
            push_char(out, '\\');
            push_char(out, 'n');
        } else {
            push_char(out, c);
        }
        proof {
            assert(t@.take(i as int + 1).drop_last() =~= t@.take(i as int));
            assert(out@ =~= before + spec_escape_char(t@[i as int]));
            assert(out@ =~= old(out)@ + seq!['"'] + spec_escape(t@.take(i as int + 1)));
        }
        i = i + 1;
    }
    push_char(out, '"');
    proof {
        assert(t@.take(n as int) =~= t@);
        assert(out@ =~= old(out)@ + seq!['"'] + spec_escape(t@) + seq!['"']);
    }
}

impl JsonValue {
    /// Appends the compact JSON text of this value.
    fn write_value(&self, out: &mut String)
        ensures
            final(out)@ == old(out)@ + spec_print(self.model()),
        decreases self, 0int,
    {
        match self {
            JsonValue::Int(n) => {
                push_i64_decimal(out, *n);
            },
            JsonValue::Float(lit) => {
                out.append(lit.as_str());
            },
            JsonValue::Bool(b) => {
                if *b {
                    out.append("true");
                    proof {
                        reveal_strlit("true");
                        assert("true"@ =~= seq!['t', 'r', 'u', 'e']);
                    }
                } else {
                    out.append("false");
                    proof {
                        reveal_strlit("false");
                        assert("false"@ =~= seq!['f', 'a', 'l', 's', 'e']);
                    }
                }
            },
            JsonValue::Str(t) => {
                write_string_literal(out, t);
            },
            JsonValue::Arr(elems) => {
                push_char(out, '[');
                let ghost base = out@;
                let ghost vs = arr_model(elems@);
                proof {
                    lemma_arr_model_index(elems@);
                    assert(spec_print_items(vs.take(0)) =~= Seq::<char>::empty());
                    assert(out@ =~= base + spec_print_items(vs.take(0)));
                }
                let n = elems.len();
                let mut i: usize = 0;
                while i < n
                    invariant
                        0 <= i <= n,
                        n == elems@.len(),
                        vs == arr_model(elems@),
                        vs.len() == n,
                        forall|k: int| 0 <= k < n ==> vs[k] == elems@[k].model(),
                        out@ == base + spec_print_items(vs.take(i as int)),
                        *self == JsonValue::Arr(*elems),
                    decreases n - i,
                {
                    if i > 0 {
                        push_char(out, ',');
                    }
                    proof {
                        assert(decreases_to!(*self => self->Arr_0));
                        assert(self->Arr_0 == *elems);
                        assert(decreases_to!(*elems => elems@));
                        assert(decreases_to!(elems@ => elems@[i as int]));
                    }
                    elems[i].write_value(out);
                    proof {
                        assert(vs.take(i as int + 1).drop_last() =~= vs.take(i as int));
                        assert(out@ =~= base + spec_print_items(vs.take(i as int + 1)));
                    }
                    i = i + 1;
                }
                push_char(out, ']');
                proof {
                    assert(vs.take(n as int) =~= vs);
                    assert(out@ =~= old(out)@ + spec_print(self.model()));
                }
            },
            JsonValue::Obj(entries) => {
                push_char(out, '{');
                let ghost base = out@;
                let ghost es = obj_model(entries@);
                proof {
                    lemma_obj_model_index(entries@);
                    assert(spec_print_entries(es.take(0)) =~= Seq::<char>::empty());
                    assert(out@ =~= base + spec_print_entries(es.take(0)));
                }
                let n = entries.len();
                let mut i: usize = 0;
                while i < n
                    invariant
                        0 <= i <= n,
                        n == entries@.len(),
                        es == obj_model(entries@),
                        es.len() == n,
                        forall|k: int|
                            0 <= k < n ==> es[k] == (
                            entries@[k].0@,
                            entries@[k].1.model(),
                            ),
                        out@ == base + spec_print_entries(es.take(i as int)),
                        *self == JsonValue::Obj(*entries),
                    decreases n - i,
                {
                    if i > 0 {
                        push_char(out, ',');
                    }
                    write_string_literal(out, &entries[i].0);
                    push_char(out, ':');
                    proof {
                        assert(decreases_to!(*self => self->Obj_0));
                        assert(self->Obj_0 == *entries);
                        assert(decreases_to!(*entries => entries@));
                        assert(decreases_to!(entries@ => entries@[i as int]));
                        assert(decreases_to!(entries@[i as int] => entries@[i as int].1));
                    }
                    entries[i].1.write_value(out);
                    proof {
                        assert(es.take(i as int + 1).drop_last() =~= es.take(i as int));
                        assert(out@ =~= base + spec_print_entries(es.take(i as int + 1)));
                    }
                    i = i + 1;
                }
                push_char(out, '}');
                proof {
                    assert(es.take(n as int) =~= es);
                    assert(out@ =~= old(out)@ + spec_print(self.model()));
                }
            },
            JsonValue::Null => {
                out.append("null");
                proof {
                    reveal_strlit("null");
                    assert("null"@ =~= seq!['n', 'u', 'l', 'l']);
                }
            },
        }
    }

    /// Renders this value as compact JSON text, with no whitespace between
    /// tokens. The printer is total: it never fails.
    pub fn serialize(&self) -> (r: String)
        ensures
            r@ == spec_print(self.model()),
    {
        let mut out = String::new();
        self.write_value(&mut out);
        proof {
            assert(Seq::<char>::empty() + spec_print(self.model()) =~= spec_print(
                self.model(),
            ));
        }
        out
    }
}

} // verus!
