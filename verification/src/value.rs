use vstd::prelude::*;

verus! {

/// A JSON value: the common currency between the parser and the printer.
///
/// A number without a fractional part or exponent that fits in a 64-bit
/// signed integer is an `Int`. Every other number keeps its literal text in
/// a `Float`: the text pins the value down exactly, and a caller that wants
/// a machine double converts it outside the verified core.
///
/// An object is a sequence of key/value entries in first-insertion order,
/// with keys unique; a repeated key in the source replaces the earlier
/// value (last write wins).
#[derive(Debug, PartialEq)]
pub enum JsonValue {
    /// A 64-bit signed integer.
    Int(i64),
    /// A non-integral number, kept as its literal text.
    Float(String),
    /// A boolean value.
    Bool(bool),
    /// A UTF-8 encoded string.
    Str(String),
    /// An ordered array of JSON values.
    Arr(Vec<JsonValue>),
    /// A key-value mapping with unique keys.
    Obj(Vec<(String, JsonValue)>),
    /// The JSON null value.
    Null,
}

/// The mathematical model of a JSON value tree.
#[verifier::ext_equal]
pub enum SpecValue {
    Int(i64),
    Float(Seq<char>),
    Bool(bool),
    Str(Seq<char>),
    Arr(Seq<SpecValue>),
    Obj(Seq<(Seq<char>, SpecValue)>),
    Null,
}

impl JsonValue {
    /// The model of this value tree.
    pub open spec fn model(&self) -> SpecValue
        decreases self, 0int,
    {
        match self {
            JsonValue::Int(n) => SpecValue::Int(*n),
            JsonValue::Float(lit) => SpecValue::Float(lit@),
            JsonValue::Bool(b) => SpecValue::Bool(*b),
            JsonValue::Str(s) => SpecValue::Str(s@),
            JsonValue::Arr(elems) => SpecValue::Arr(arr_model(elems@)),
            JsonValue::Obj(entries) => SpecValue::Obj(obj_model(entries@)),
            JsonValue::Null => SpecValue::Null,
        }
    }
}

/// The model of a sequence of array elements.
pub open spec fn arr_model(elems: Seq<JsonValue>) -> Seq<SpecValue>
    decreases elems, 1int,
{
    if elems.len() == 0 {
        Seq::empty()
    } else {
        seq![elems.first().model()] + arr_model(elems.drop_first())
    }
}

/// The model of a sequence of object entries.
pub open spec fn obj_model(entries: Seq<(String, JsonValue)>) -> Seq<(Seq<char>, SpecValue)>
    decreases entries, 1int,
{
    if entries.len() == 0 {
        Seq::empty()
    } else {
        seq![(entries.first().0@, entries.first().1.model())] + obj_model(entries.drop_first())
    }
}

/// Indexing into the model of an array element sequence.
pub broadcast proof fn lemma_arr_model_index(elems: Seq<JsonValue>)
    ensures
        (#[trigger] arr_model(elems)).len() == elems.len(),
        forall|i: int| 0 <= i < elems.len() ==> arr_model(elems)[i] == elems[i].model(),
    decreases elems.len(),
{
    if elems.len() > 0 {
        lemma_arr_model_index(elems.drop_first());
    }
}

/// Indexing into the model of an object entry sequence.
pub broadcast proof fn lemma_obj_model_index(entries: Seq<(String, JsonValue)>)
    ensures
        (#[trigger] obj_model(entries)).len() == entries.len(),
        forall|i: int|
            0 <= i < entries.len() ==> obj_model(entries)[i] == (
            entries[i].0@,
            entries[i].1.model(),
            ),
    decreases entries.len(),
{
    if entries.len() > 0 {
        lemma_obj_model_index(entries.drop_first());
    }
}

/// Appending an element appends its model.
pub proof fn lemma_arr_model_push(elems: Seq<JsonValue>, v: JsonValue)
    ensures
        arr_model(elems.push(v)) == arr_model(elems).push(v.model()),
{
    lemma_arr_model_index(elems.push(v));
    lemma_arr_model_index(elems);
    assert(arr_model(elems.push(v)) =~= arr_model(elems).push(v.model()));
}

/// Whether some entry of `entries` has the key `key`.
pub open spec fn obj_has_key(entries: Seq<(Seq<char>, SpecValue)>, key: Seq<char>) -> bool {
    exists|i: int| 0 <= i < entries.len() && (#[trigger] entries[i]).0 == key
}

/// No two entries share a key.
pub open spec fn obj_keys_unique(entries: Seq<(Seq<char>, SpecValue)>) -> bool {
    forall|i: int, j: int|
        0 <= i < j < entries.len() ==> (#[trigger] entries[i]).0 != (#[trigger] entries[j]).0
}

/// Insertion with last-write-wins semantics: a present key keeps its place
/// and takes the new value; an absent key is appended.
pub open spec fn spec_obj_insert(
    entries: Seq<(Seq<char>, SpecValue)>,
    key: Seq<char>,
    value: SpecValue,
) -> Seq<(Seq<char>, SpecValue)> {
    if obj_has_key(entries, key) {
        entries.map_values(
            |p: (Seq<char>, SpecValue)| if p.0 == key { (key, value) } else { p },
        )
    } else {
        entries.push((key, value))
    }
}

/// Inserting preserves key uniqueness.
pub proof fn lemma_obj_insert_keys_unique(
    entries: Seq<(Seq<char>, SpecValue)>,
    key: Seq<char>,
    value: SpecValue,
)
    requires
        obj_keys_unique(entries),
    ensures
        obj_keys_unique(spec_obj_insert(entries, key, value)),
{
}

/// Well-formedness of a value tree: every object anywhere in it has
/// unique keys.
pub open spec fn wf_value(v: SpecValue) -> bool
    decreases v, 0int,
{
    match v {
        SpecValue::Arr(vs) => wf_items(vs),
        SpecValue::Obj(es) => obj_keys_unique(es) && wf_entries(es),
        _ => true,
    }
}

/// Well-formedness of every element of an array.
pub open spec fn wf_items(vs: Seq<SpecValue>) -> bool
    decreases vs, 1int,
{
    if vs.len() == 0 {
        true
    } else {
        wf_value(vs.first()) && wf_items(vs.drop_first())
    }
}

/// Well-formedness of every value of an object's entries.
pub open spec fn wf_entries(es: Seq<(Seq<char>, SpecValue)>) -> bool
    decreases es, 1int,
{
    if es.len() == 0 {
        true
    } else {
        wf_value(es.first().1) && wf_entries(es.drop_first())
    }
}

/// Entry well-formedness is well-formedness of each entry's value.
pub proof fn lemma_wf_entries_index(es: Seq<(Seq<char>, SpecValue)>)
    ensures
        wf_entries(es) <==> (forall|k: int| 0 <= k < es.len() ==> wf_value(#[trigger] es[k].1)),
    decreases es.len(),
{
    if es.len() > 0 {
        lemma_wf_entries_index(es.drop_first());
        assert(es[0] == es.first());
        assert forall|k: int| 1 <= k < es.len() implies es.drop_first()[k - 1] == es[k] by {}
        if forall|k: int| 0 <= k < es.len() ==> wf_value(#[trigger] es[k].1) {
            assert forall|k: int|
                0 <= k < es.drop_first().len() implies wf_value(
                #[trigger] es.drop_first()[k].1,
            ) by {
                assert(es.drop_first()[k] == es[k + 1]);
            }
        }
    }
}

/// Inserting a well-formed value keeps the entries well-formed.
pub proof fn lemma_obj_insert_wf_entries(
    entries: Seq<(Seq<char>, SpecValue)>,
    key: Seq<char>,
    value: SpecValue,
)
    requires
        wf_entries(entries),
        wf_value(value),
    ensures
        wf_entries(spec_obj_insert(entries, key, value)),
{
    lemma_wf_entries_index(entries);
    lemma_wf_entries_index(spec_obj_insert(entries, key, value));
}

impl JsonValue {
    /// Replaces the value under `key` if some entry has it, else appends.
    pub fn obj_entry_insert(
        entries: &mut Vec<(String, JsonValue)>,
        key: String,
        value: JsonValue,
    )
        requires
            obj_keys_unique(obj_model(old(entries)@)),
        ensures
            obj_model(final(entries)@) == spec_obj_insert(
                obj_model(old(entries)@),
                key@,
                value.model(),
            ),
            obj_keys_unique(obj_model(final(entries)@)),
    {
        proof {
            lemma_obj_insert_keys_unique(obj_model(entries@), key@, value.model());
            lemma_obj_model_index(entries@);
        }
        let ghost e0 = entries@;
        let ghost m0 = obj_model(entries@);
        let n = entries.len();
        let mut i: usize = 0;
        while i < n
            invariant
                n == entries.len(),
                0 <= i <= n,
                e0 == entries@,
                e0 == old(entries)@,
                m0 == obj_model(entries@),
                m0.len() == n,
                obj_keys_unique(m0),
                forall|k: int| 0 <= k < i ==> (#[trigger] m0[k]).0 != key@,
            decreases n - i,
        {
            proof {
                lemma_obj_model_index(e0);
            }
            if entries[i].0 == key {
                let ghost iv = i as int;
                entries.set(i, (key, value));
                proof {
                    lemma_obj_model_index(entries@);
                    assert(m0[iv].0 == key@);
                    assert(obj_has_key(m0, key@));
                    let m1 = spec_obj_insert(m0, key@, value.model());
                    assert forall|k: int| 0 <= k < n implies obj_model(entries@)[k] == m1[k] by {
                        if k != iv {
                            assert(m0[k].0 != key@);
                        }
                    }
                    assert(obj_model(entries@) =~= m1);
                }
                return;
            }
            i = i + 1;
        }
        entries.push((key, value));
        proof {
            lemma_obj_model_index(entries@);
            assert(!obj_has_key(m0, key@));
            assert(obj_model(entries@) =~= spec_obj_insert(m0, key@, value.model()));
        }
    }

    /// Looks a key up among object entries; `Some` exactly when present.
    pub fn obj_entry_get<'a>(
        entries: &'a Vec<(String, JsonValue)>,
        key: &String,
    ) -> (r: Option<&'a JsonValue>)
        ensures
            r is Some == obj_has_key(obj_model(entries@), key@),
            (r matches Some(v) ==> exists|i: int|
                0 <= i < entries@.len() && #[trigger] obj_model(entries@)[i] == (
                key@,
                v.model(),
                )),
    {
        proof {
            lemma_obj_model_index(entries@);
        }
        let n = entries.len();
        let mut i: usize = 0;
        while i < n
            invariant
                n == entries.len(),
                0 <= i <= n,
                forall|k: int| 0 <= k < i ==> (#[trigger] obj_model(entries@)[k]).0 != key@,
            decreases n - i,
        {
            proof {
                lemma_obj_model_index(entries@);
            }
            if entries[i].0 == *key {
                proof {
                    assert(obj_model(entries@)[i as int] == (key@, entries@[i as int].1.model()));
                }
                return Some(&entries[i].1);
            }
            i = i + 1;
        }
        None
    }
}

} // verus!
