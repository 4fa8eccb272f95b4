//! The value tree: a closed recursive variant set with typed accessors.
//! Numbers are carried as IEEE-754 bit patterns; objects as key-value
//! pairs with unique keys, in insertion order (the mapping itself promises
//! no order).

use vstd::prelude::*;

use crate::num::{format_number, spec_number_text};
use crate::text::{chars_to_string, push_str_chars, push_vec_chars, str_eq_str};

verus! {

/// The parsed, structured representation of a JSON document.
#[derive(Debug)]
pub enum JsonValue {
    Null,
    Boolean(bool),
    Number(u64),
    String(String),
    Array(Vec<JsonValue>),
    Object(Vec<(String, JsonValue)>),
}

/// The mathematical shape of a `JsonValue`.
pub ghost enum ValueModel {
    Null,
    Boolean(bool),
    Number(u64),
    Str(Seq<char>),
    Array(Seq<ValueModel>),
    Object(Seq<(Seq<char>, ValueModel)>),
}

impl JsonValue {
    /// The mathematical shape of this value.
    pub open spec fn model(self) -> ValueModel
        decreases self, 1int,
    {
        match self {
            JsonValue::Null => ValueModel::Null,
            JsonValue::Boolean(b) => ValueModel::Boolean(b),
            JsonValue::Number(bits) => ValueModel::Number(bits),
            JsonValue::String(s) => ValueModel::Str(s@),
            JsonValue::Array(els) => {
                proof {
                    assert(decreases_to!(self => els));
                    assert(decreases_to!(els => els@));
                }
                ValueModel::Array(models_of(els@))
            },
            JsonValue::Object(ps) => {
                proof {
                    assert(decreases_to!(self => ps));
                    assert(decreases_to!(ps => ps@));
                }
                ValueModel::Object(pairs_model(ps@))
            },
        }
    }
}

/// The models of a sequence of values, elementwise.
pub open spec fn models_of(els: Seq<JsonValue>) -> Seq<ValueModel>
    decreases els, 0int,
{
    if els.len() == 0 {
        Seq::empty()
    } else {
        seq![els[0].model()] + models_of(els.subrange(1, els.len() as int))
    }
}

/// The models of a key-value pair list, elementwise.
pub open spec fn pairs_model(ps: Seq<(String, JsonValue)>) -> Seq<(Seq<char>, ValueModel)>
    decreases ps, 0int,
{
    if ps.len() == 0 {
        Seq::empty()
    } else {
        seq![(ps[0].0@, ps[0].1.model())] + pairs_model(ps.subrange(1, ps.len() as int))
    }
}

/// `models_of` maps the sequence elementwise.
pub broadcast proof fn lemma_models_of(els: Seq<JsonValue>)
    ensures
        (#[trigger] models_of(els)).len() == els.len(),
        forall|i: int| 0 <= i < els.len() ==> models_of(els)[i] == els[i].model(),
    decreases els.len(),
{
    if els.len() > 0 {
        lemma_models_of(els.subrange(1, els.len() as int));
        assert forall|i: int| 0 <= i < els.len() implies models_of(els)[i] == els[i].model() by {
            if i > 0 {
                assert(els.subrange(1, els.len() as int)[i - 1] == els[i]);
            }
        }
    }
}

/// `pairs_model` maps the pair list elementwise.
pub broadcast proof fn lemma_pairs_model(ps: Seq<(String, JsonValue)>)
    ensures
        (#[trigger] pairs_model(ps)).len() == ps.len(),
        forall|i: int| 0 <= i < ps.len() ==> pairs_model(ps)[i] == (ps[i].0@, ps[i].1.model()),
    decreases ps.len(),
{
    if ps.len() > 0 {
        lemma_pairs_model(ps.subrange(1, ps.len() as int));
        assert forall|i: int| 0 <= i < ps.len() implies pairs_model(ps)[i] == (
        ps[i].0@,
        ps[i].1.model(),
        ) by {
            if i > 0 {
                assert(ps.subrange(1, ps.len() as int)[i - 1] == ps[i]);
            }
        }
    }
}

/// Whether the keys of the pair list are pairwise distinct, as they are
/// in every object the parser builds.
pub open spec fn unique_keys(ps: Seq<(Seq<char>, ValueModel)>) -> bool {
    forall|i: int, j: int| 0 <= i < j < ps.len() ==> ps[i].0 != ps[j].0
}

/// The value under the first pair of `ps` keyed `k` at or after `i`.
pub open spec fn obj_lookup_from(ps: Seq<(Seq<char>, ValueModel)>, k: Seq<char>, i: int) -> Option<
    ValueModel,
>
    decreases ps.len() - i,
{
    if i < 0 || i >= ps.len() {
        None
    } else if ps[i].0 == k {
        Some(ps[i].1)
    } else {
        obj_lookup_from(ps, k, i + 1)
    }
}

/// The value under key `k` of the pair list `ps`.
pub open spec fn obj_lookup(ps: Seq<(Seq<char>, ValueModel)>, k: Seq<char>) -> Option<ValueModel> {
    obj_lookup_from(ps, k, 0)
}

/// The index of the first pair of `ps` keyed `k` at or after `i`, or -1.
pub open spec fn first_key_at(ps: Seq<(Seq<char>, ValueModel)>, k: Seq<char>, i: int) -> int
    decreases ps.len() - i,
{
    if i < 0 || i >= ps.len() {
        -1
    } else if ps[i].0 == k {
        i
    } else {
        first_key_at(ps, k, i + 1)
    }
}

/// Inserting under key `k`: the value of an existing pair with that key is
/// replaced in place, otherwise the pair is appended. Last write wins.
pub open spec fn obj_insert(
    ps: Seq<(Seq<char>, ValueModel)>,
    k: Seq<char>,
    v: ValueModel,
) -> Seq<(Seq<char>, ValueModel)> {
    let j = first_key_at(ps, k, 0);
    if j < 0 {
        ps.push((k, v))
    } else {
        ps.update(j, (k, v))
    }
}

/// Replaces the value under `key` if the list holds it, else appends the
/// pair, as `obj_insert` describes.
#[verifier::loop_isolation(false)]
pub(crate) fn obj_set(ps: &mut Vec<(String, JsonValue)>, key: String, val: JsonValue)
    ensures
        pairs_model(final(ps)@) == obj_insert(pairs_model(old(ps)@), key@, val.model()),
{
    broadcast use lemma_pairs_model;

    let ghost mps = pairs_model(ps@);
    let mut i: usize = 0;
    while i < ps.len()
        invariant
            i <= ps@.len(),
            mps == pairs_model(ps@),
            mps.len() == ps@.len(),
            forall|k: int| 0 <= k < ps@.len() ==> mps[k] == (ps@[k].0@, ps@[k].1.model()),
            first_key_at(mps, key@, 0) == first_key_at(mps, key@, i as int),
        decreases ps@.len() - i,
    {
        if str_eq_str(ps[i].0.as_str(), key.as_str()) {
            let ghost j = i as int;
            ps.set(i, (key, val));
            proof {
                assert(first_key_at(mps, key@, j) == j);
                assert(pairs_model(ps@) =~= mps.update(j, (key@, val.model())));
            }
            return ;
        }
        i = i + 1;
    }
    proof {
        assert(first_key_at(mps, key@, mps.len() as int) == -1);
    }
    ps.push((key, val));
    proof {
        assert(pairs_model(ps@) =~= mps.push((key@, val.model())));
    }
}

impl PartialEq for JsonValue {
    /// Structural equality: two values are equal when their models are.
    /// Object comparison is pairwise in order, as the model is.
    #[verifier::loop_isolation(false)]
    fn eq(&self, other: &JsonValue) -> (r: bool)
        decreases self,
    {
        broadcast use {lemma_models_of, lemma_pairs_model};

        match (self, other) {
            (JsonValue::Null, JsonValue::Null) => true,
            (JsonValue::Boolean(a), JsonValue::Boolean(b)) => *a == *b,
            (JsonValue::Number(a), JsonValue::Number(b)) => *a == *b,
            (JsonValue::String(a), JsonValue::String(b)) => *a == *b,
            (JsonValue::Array(a), JsonValue::Array(b)) => {
                proof {
                    assert(self.model() == ValueModel::Array(models_of(a@)));
                    assert(other.model() == ValueModel::Array(models_of(b@)));
                    assert(models_of(a@).len() == a@.len());
                    assert(models_of(b@).len() == b@.len());
                }
                if a.len() != b.len() {
                    return false;
                }
                let mut i: usize = 0;
                let ghost ma = models_of(a@);
                let ghost mb = models_of(b@);
                while i < a.len()
                    invariant
                        i <= a@.len(),
                        a@.len() == b@.len(),
                        ma == models_of(a@),
                        mb == models_of(b@),
                        ma.len() == a@.len(),
                        mb.len() == b@.len(),
                        forall|k: int| 0 <= k < a@.len() ==> ma[k] == a@[k].model(),
                        forall|k: int| 0 <= k < b@.len() ==> mb[k] == b@[k].model(),
                        forall|j: int| 0 <= j < i ==> ma[j] == mb[j],
                    decreases a@.len() - i,
                {
                    proof {
                        assert(decreases_to!(*self => *a));
                        assert(decreases_to!(*a => a@));
                        assert(decreases_to!(a@ => a@[i as int]));
                    }
                    let same = a[i].eq(&b[i]);
                    if !same {
                        proof {
                            assert(a@[i as int].model() != b@[i as int].model());
                            assert(ma[i as int] != mb[i as int]);
                            assert(models_of(a@) != models_of(b@));
                        }
                        return false;
                    }
                    i = i + 1;
                }
                proof {
                    assert(ma =~= mb);
                }
                true
            },
            (JsonValue::Object(a), JsonValue::Object(b)) => {
                proof {
                    assert(self.model() == ValueModel::Object(pairs_model(a@)));
                    assert(other.model() == ValueModel::Object(pairs_model(b@)));
                    assert(pairs_model(a@).len() == a@.len());
                    assert(pairs_model(b@).len() == b@.len());
                }
                if a.len() != b.len() {
                    return false;
                }
                let mut i: usize = 0;
                let ghost ma = pairs_model(a@);
                let ghost mb = pairs_model(b@);
                while i < a.len()
                    invariant
                        i <= a@.len(),
                        a@.len() == b@.len(),
                        ma == pairs_model(a@),
                        mb == pairs_model(b@),
                        ma.len() == a@.len(),
                        mb.len() == b@.len(),
                        forall|k: int| 0 <= k < a@.len() ==> ma[k] == (a@[k].0@, a@[k].1.model()),
                        forall|k: int| 0 <= k < b@.len() ==> mb[k] == (b@[k].0@, b@[k].1.model()),
                        forall|j: int| 0 <= j < i ==> ma[j] == mb[j],
                    decreases a@.len() - i,
                {
                    let keq = a[i].0 == b[i].0;
                    if !keq {
                        proof {
                            assert(a@[i as int].0@ != b@[i as int].0@);
                            assert(ma[i as int] != mb[i as int]);
                            assert(pairs_model(a@) != pairs_model(b@));
                        }
                        return false;
                    }
                    proof {
                        assert(decreases_to!(*self => *a));
                        assert(decreases_to!(*a => a@));
                        assert(decreases_to!(a@ => a@[i as int]));
                        assert(decreases_to!(a@[i as int] => a@[i as int].1));
                    }
                    let veq = a[i].1.eq(&b[i].1);
                    if !veq {
                        proof {
                            assert(a@[i as int].1.model() != b@[i as int].1.model());
                            assert(ma[i as int] != mb[i as int]);
                            assert(pairs_model(a@) != pairs_model(b@));
                        }
                        return false;
                    }
                    i = i + 1;
                }
                proof {
                    assert(ma =~= mb);
                }
                true
            },
            _ => {
                proof {
                    assert(self.model() != other.model());
                }
                false
            },
        }
    }
}

impl vstd::std_specs::cmp::PartialEqSpecImpl for JsonValue {
    open spec fn obeys_eq_spec() -> bool {
        true
    }

    open spec fn eq_spec(&self, other: &JsonValue) -> bool {
        self.model() == other.model()
    }
}

impl JsonValue {
    /// Whether this value is `Null`.
    pub fn is_null(&self) -> (r: bool)
        ensures
            r == (self.model() is Null),
    {
        match self {
            JsonValue::Null => true,
            _ => false,
        }
    }

    /// The text of a string value, `None` for any other variant.
    pub fn as_str(&self) -> (r: Option<&str>)
        ensures
            (r is Some) == (self.model() is Str),
            r matches Some(s) ==> self.model() == ValueModel::Str(s@),
    {
        match self {
            JsonValue::String(s) => Some(s.as_str()),
            _ => None,
        }
    }

    /// The bit pattern of a number value, `None` for any other variant.
    pub fn as_f64(&self) -> (r: Option<u64>)
        ensures
            r == (match self.model() {
                ValueModel::Number(bits) => Some(bits),
                _ => None::<u64>,
            }),
    {
        match self {
            JsonValue::Number(bits) => Some(*bits),
            _ => None,
        }
    }

    /// The truth of a boolean value, `None` for any other variant.
    pub fn as_bool(&self) -> (r: Option<bool>)
        ensures
            r == (match self.model() {
                ValueModel::Boolean(b) => Some(b),
                _ => None::<bool>,
            }),
    {
        match self {
            JsonValue::Boolean(b) => Some(*b),
            _ => None,
        }
    }

    /// The elements of an array value, `None` for any other variant.
    pub fn as_array(&self) -> (r: Option<&Vec<JsonValue>>)
        ensures
            (r is Some) == (self.model() is Array),
            r matches Some(els) ==> self.model() == ValueModel::Array(models_of(els@)),
    {
        match self {
            JsonValue::Array(els) => Some(els),
            _ => None,
        }
    }

    /// The pairs of an object value, `None` for any other variant.
    pub fn as_object(&self) -> (r: Option<&Vec<(String, JsonValue)>>)
        ensures
            (r is Some) == (self.model() is Object),
            r matches Some(ps) ==> self.model() == ValueModel::Object(pairs_model(ps@)),
    {
        match self {
            JsonValue::Object(ps) => Some(ps),
            _ => None,
        }
    }

    /// Looks `key` up in an object value, `None` for a missing key or any
    /// other variant.
    #[verifier::loop_isolation(false)]
    pub fn get(&self, key: &str) -> (r: Option<&JsonValue>)
        ensures
            match self.model() {
                ValueModel::Object(ps) => match r {
                    Some(v) => obj_lookup(ps, key@) == Some(v.model()),
                    None => obj_lookup(ps, key@) is None,
                },
                _ => r is None,
            },
    {
        match self {
            JsonValue::Object(ps) => {
                broadcast use lemma_pairs_model;

                let ghost mps = pairs_model(ps@);
                let mut i: usize = 0;
                while i < ps.len()
                    invariant
                        i <= ps@.len(),
                        mps == pairs_model(ps@),
                        mps.len() == ps@.len(),
                        forall|k: int| 0 <= k < ps@.len() ==> mps[k] == (ps@[k].0@, ps@[k].1.model()),
                        obj_lookup_from(mps, key@, 0) == obj_lookup_from(mps, key@, i as int),
                    decreases ps@.len() - i,
                {
                    if str_eq_str(ps[i].0.as_str(), key) {
                        return Some(&ps[i].1);
                    }
                    i = i + 1;
                }
                None
            },
            _ => None,
        }
    }

    /// The element at `index` of an array value, `None` past the end or
    /// for any other variant.
    pub fn get_index(&self, index: usize) -> (r: Option<&JsonValue>)
        ensures
            match self.model() {
                ValueModel::Array(els) => {
                    &&& (r is Some) == (index < els.len())
                    &&& (r matches Some(v) ==> index < els.len() && v.model() == els[index as int])
                },
                _ => r is None,
            },
    {
        broadcast use lemma_models_of;

        match self {
            JsonValue::Array(els) => {
                proof {
                    assert(self.model() == ValueModel::Array(models_of(els@)));
                    assert(models_of(els@).len() == els@.len());
                }
                if index < els.len() {
                    Some(&els[index])
                } else {
                    None
                }
            },
            _ => None,
        }
    }
}


/// The escape expansion of one character of a string value in compact
/// output: the quote, the backslash, newline, carriage return and tab are
/// escaped, every other character passes through verbatim.
pub open spec fn esc_char(c: char) -> Seq<char> {
    if c == '"' {
        seq!['\\', '"']
    } else if c == '\\' {
        seq!['\\', '\\']
    } else if c == '\n' {
        seq!['\\', 'n']
    } else if c == '\r' {
        seq!['\\', 'r']
    } else if c == '\t' {
        seq!['\\', 't']
    } else {
        seq![c]
    }
}

/// The escape expansion of a whole character sequence.
pub open spec fn esc_str(s: Seq<char>) -> Seq<char>
    decreases s.len(),
{
    if s.len() == 0 {
        Seq::empty()
    } else {
        esc_char(s[0]) + esc_str(s.subrange(1, s.len() as int))
    }
}

/// A string value as compact output: quoted and escaped.
pub open spec fn spec_escape_string(s: Seq<char>) -> Seq<char> {
    seq!['"'] + esc_str(s) + seq!['"']
}

/// Escaping one more character appends its expansion.
pub proof fn lemma_esc_str_push(s: Seq<char>, c: char)
    ensures
        esc_str(s.push(c)) == esc_str(s) + esc_char(c),
    decreases s.len(),
{
    reveal_with_fuel(esc_str, 3);
    if s.len() == 0 {
        assert(s.push(c)[0] == c);
        assert(s.push(c).subrange(1, s.push(c).len() as int) =~= Seq::<char>::empty());
        assert(esc_str(s.push(c)) =~= esc_str(s) + esc_char(c));
    } else {
        assert(s.push(c)[0] == s[0]);
        assert(s.push(c).subrange(1, s.push(c).len() as int) =~= s.subrange(
            1,
            s.len() as int,
        ).push(c));
        lemma_esc_str_push(s.subrange(1, s.len() as int), c);
        assert(esc_str(s.push(c)) =~= esc_str(s) + esc_char(c));
    }
}

/// The compact text of a value: no whitespace, strings escaped, numbers
/// at the fewest round-tripping digits, arrays and objects comma-joined.
pub open spec fn spec_format_compact(v: ValueModel) -> Seq<char>
    decreases v, 1int,
{
    match v {
        ValueModel::Null => "null"@,
        ValueModel::Boolean(b) => if b {
            "true"@
        } else {
            "false"@
        },
        ValueModel::Number(bits) => spec_number_text(bits),
        ValueModel::Str(s) => spec_escape_string(s),
        ValueModel::Array(els) => {
            proof {
                assert(decreases_to!(v => els));
            }
            seq!['['] + fmt_items(els) + seq![']']
        },
        ValueModel::Object(ps) => {
            proof {
                assert(decreases_to!(v => ps));
            }
            seq!['{'] + fmt_pairs(ps) + seq!['}']
        },
    }
}

/// The comma-joined compact texts of array elements.
pub open spec fn fmt_items(els: Seq<ValueModel>) -> Seq<char>
    decreases els, 0int,
{
    if els.len() == 0 {
        Seq::empty()
    } else if els.len() == 1 {
        spec_format_compact(els[0])
    } else {
        spec_format_compact(els[0]) + seq![','] + fmt_items(els.subrange(1, els.len() as int))
    }
}

/// The comma-joined compact texts of object pairs, each an escaped key,
/// a colon and the value.
pub open spec fn fmt_pairs(ps: Seq<(Seq<char>, ValueModel)>) -> Seq<char>
    decreases ps, 0int,
{
    if ps.len() == 0 {
        Seq::empty()
    } else if ps.len() == 1 {
        spec_escape_string(ps[0].0) + seq![':'] + spec_format_compact(ps[0].1)
    } else {
        spec_escape_string(ps[0].0) + seq![':'] + spec_format_compact(ps[0].1) + seq![',']
            + fmt_pairs(ps.subrange(1, ps.len() as int))
    }
}

/// Formatting one more element appends a separator (unless it is the
/// first) and its text.
pub proof fn lemma_fmt_items_push(els: Seq<ValueModel>, v: ValueModel)
    ensures
        fmt_items(els.push(v)) == if els.len() == 0 {
            spec_format_compact(v)
        } else {
            fmt_items(els) + seq![','] + spec_format_compact(v)
        },
    decreases els.len(),
{
    reveal_with_fuel(fmt_items, 3);
    assert(els.push(v)[0 as int] == if els.len() == 0 { v } else { els[0] });
    if els.len() == 0 {
        assert(els.push(v).len() == 1);
    } else {
        assert(els.push(v).subrange(1, els.push(v).len() as int) =~= els.subrange(
            1,
            els.len() as int,
        ).push(v));
        lemma_fmt_items_push(els.subrange(1, els.len() as int), v);
        if els.len() == 1 {
            assert(els.subrange(1, els.len() as int) =~= Seq::<ValueModel>::empty());
        }
        assert(fmt_items(els.push(v)) =~= fmt_items(els) + seq![','] + spec_format_compact(v));
    }
}

/// As `lemma_fmt_items_push`, for object pairs.
pub proof fn lemma_fmt_pairs_push(ps: Seq<(Seq<char>, ValueModel)>, k: Seq<char>, v: ValueModel)
    ensures
        fmt_pairs(ps.push((k, v))) == if ps.len() == 0 {
            spec_escape_string(k) + seq![':'] + spec_format_compact(v)
        } else {
            fmt_pairs(ps) + seq![','] + (spec_escape_string(k) + seq![':'] + spec_format_compact(
                v,
            ))
        },
    decreases ps.len(),
{
    reveal_with_fuel(fmt_pairs, 3);
    assert(ps.push((k, v))[0 as int] == if ps.len() == 0 { (k, v) } else { ps[0] });
    if ps.len() == 0 {
        assert(ps.push((k, v)).len() == 1);
    } else {
        assert(ps.push((k, v)).subrange(1, ps.push((k, v)).len() as int) =~= ps.subrange(
            1,
            ps.len() as int,
        ).push((k, v)));
        lemma_fmt_pairs_push(ps.subrange(1, ps.len() as int), k, v);
        if ps.len() == 1 {
            assert(ps.subrange(1, ps.len() as int) =~= Seq::<(Seq<char>, ValueModel)>::empty());
        }
        assert(fmt_pairs(ps.push((k, v))) =~= fmt_pairs(ps) + seq![','] + (spec_escape_string(k)
            + seq![':'] + spec_format_compact(v)));
    }
}

/// Appends the quoted, escaped form of `s` to `out`.
#[verifier::loop_isolation(false)]
fn write_escaped(out: &mut Vec<char>, s: &str)
    ensures
        final(out)@ == old(out)@ + spec_escape_string(s@),
{
    out.push('"');
    let n: usize = s.unicode_len();
    let mut i: usize = 0;
    proof {
        assert(esc_str(s@.subrange(0, 0)) =~= Seq::<char>::empty());
        assert(out@ =~= old(out)@ + seq!['"'] + esc_str(s@.subrange(0, 0)));
    }
    while i < n
        invariant
            i <= n,
            n == s@.len(),
            out@ == old(out)@ + seq!['"'] + esc_str(s@.subrange(0, i as int)),
        decreases n - i,
    {
        let ghost done = s@.subrange(0, i as int);
        let c = s.get_char(i);
        if c == '"' {
            out.push('\\');
            out.push('"');
        } else if c == '\\' {
            out.push('\\');
            out.push('\\');
        } else if c == '\n' {
            out.push('\\');
            out.push('n');
        } else if c == '\r' {
            out.push('\\');
            out.push('r');
        } else if c == '\t' {
            out.push('\\');
            out.push('t');
        } else {
            out.push(c);
        }
        i = i + 1;
        proof {
            lemma_esc_str_push(done, c);
            assert(s@.subrange(0, i as int) =~= done.push(c));
            assert(out@ =~= old(out)@ + seq!['"'] + esc_str(s@.subrange(0, i as int)));
        }
    }
    out.push('"');
    proof {
        assert(s@.subrange(0, n as int) =~= s@);
        assert(out@ =~= old(out)@ + spec_escape_string(s@));
    }
}

/// Quotes and escapes `s` as the compact formatter renders string values.
pub fn escape_json_string(s: &str) -> (r: String)
    ensures
        r@ == spec_escape_string(s@),
{
    let mut out: Vec<char> = Vec::new();
    write_escaped(&mut out, s);
    chars_to_string(&out)
}

/// Appends the compact text of `v` to `out`.
#[verifier::loop_isolation(false)]
#[verifier::rlimit(80)]
fn write_compact(v: &JsonValue, out: &mut Vec<char>)
    ensures
        final(out)@ == old(out)@ + spec_format_compact(v.model()),
    decreases v,
{
    broadcast use {lemma_models_of, lemma_pairs_model};

    match v {
        JsonValue::Null => push_str_chars(out, "null"),
        JsonValue::Boolean(b) => {
            if *b {
                push_str_chars(out, "true");
            } else {
                push_str_chars(out, "false");
            }
        },
        JsonValue::Number(bits) => {
            let text = format_number(*bits);
            push_str_chars(out, text.as_str());
        },
        JsonValue::String(s) => write_escaped(out, s.as_str()),
        JsonValue::Array(els) => {
            let ghost mels = models_of(els@);
            out.push('[');
            let mut i: usize = 0;
            proof {
                assert(mels.subrange(0, 0) =~= Seq::<ValueModel>::empty());
                assert(out@ =~= old(out)@ + seq!['['] + fmt_items(mels.subrange(0, 0)));
            }
            while i < els.len()
                invariant
                    i <= els@.len(),
                    out@ == old(out)@ + seq!['['] + fmt_items(mels.subrange(0, i as int)),
                decreases els@.len() - i,
            {
                let ghost done = mels.subrange(0, i as int);
                if i > 0 {
                    out.push(',');
                }
                proof {
                    assert(decreases_to!(*v => *els));
                    assert(decreases_to!(*els => els@));
                    assert(decreases_to!(els@ => els@[i as int]));
                }
                write_compact(&els[i], out);
                i = i + 1;
                proof {
                    lemma_fmt_items_push(done, mels[i - 1]);
                    assert(mels.subrange(0, i as int) =~= done.push(mels[i - 1]));
                    assert(out@ =~= old(out)@ + seq!['['] + fmt_items(mels.subrange(0, i as int)));
                }
            }
            out.push(']');
            proof {
                assert(mels.subrange(0, mels.len() as int) =~= mels);
                assert(out@ =~= old(out)@ + spec_format_compact(v.model()));
            }
        },
        JsonValue::Object(ps) => {
            let ghost mps = pairs_model(ps@);
            out.push('{');
            let mut i: usize = 0;
            proof {
                assert(mps.subrange(0, 0) =~= Seq::<(Seq<char>, ValueModel)>::empty());
                assert(out@ =~= old(out)@ + seq!['{'] + fmt_pairs(mps.subrange(0, 0)));
            }
            while i < ps.len()
                invariant
                    i <= ps@.len(),
                    out@ == old(out)@ + seq!['{'] + fmt_pairs(mps.subrange(0, i as int)),
                decreases ps@.len() - i,
            {
                let ghost done = mps.subrange(0, i as int);
                if i > 0 {
                    out.push(',');
                }
                write_escaped(out, ps[i].0.as_str());
                out.push(':');
                proof {
                    assert(decreases_to!(*v => *ps));
                    assert(decreases_to!(*ps => ps@));
                    assert(decreases_to!(ps@ => ps@[i as int]));
                    assert(decreases_to!(ps@[i as int] => ps@[i as int].1));
                }
                write_compact(&ps[i].1, out);
                i = i + 1;
                proof {
                    lemma_fmt_pairs_push(done, mps[i - 1].0, mps[i - 1].1);
                    assert(mps.subrange(0, i as int) =~= done.push(mps[i - 1]));
                    assert(out@ =~= old(out)@ + seq!['{'] + fmt_pairs(mps.subrange(0, i as int)));
                }
            }
            out.push('}');
            proof {
                assert(mps.subrange(0, mps.len() as int) =~= mps);
                assert(out@ =~= old(out)@ + spec_format_compact(v.model()));
            }
        },
    }
}

/// Serializes `v` to compact text, as `spec_format_compact` says.
pub fn format_compact(v: &JsonValue) -> (r: String)
    ensures
        r@ == spec_format_compact(v.model()),
{
    let mut out: Vec<char> = Vec::new();
    write_compact(v, &mut out);
    chars_to_string(&out)
}


/// A run of `n` spaces.
pub open spec fn spaces(n: nat) -> Seq<char> {
    Seq::new(n, |i: int| ' ')
}

/// The indented text of a value at nesting `depth` with `width` spaces
/// per level: each element on its own line behind `(depth+1)*width`
/// spaces, closing brackets aligned to the parent's indent, empty
/// containers collapsed, and strings quoted verbatim without escaping.
pub open spec fn spec_format_indented(v: ValueModel, width: nat, depth: nat) -> Seq<char>
    decreases v, 1int,
{
    match v {
        ValueModel::Null => "null"@,
        ValueModel::Boolean(b) => if b {
            "true"@
        } else {
            "false"@
        },
        ValueModel::Number(bits) => spec_number_text(bits),
        ValueModel::Str(s) => seq!['"'] + s + seq!['"'],
        ValueModel::Array(els) => {
            proof {
                assert(decreases_to!(v => els));
            }
            if els.len() == 0 {
                "[]"@
            } else {
                seq!['[', '\n'] + ind_items(els, width, depth + 1) + seq!['\n'] + spaces(
                    depth * width,
                ) + seq![']']
            }
        },
        ValueModel::Object(ps) => {
            proof {
                assert(decreases_to!(v => ps));
            }
            if ps.len() == 0 {
                "{}"@
            } else {
                seq!['{', '\n'] + ind_pairs(ps, width, depth + 1) + seq!['\n'] + spaces(
                    depth * width,
                ) + seq!['}']
            }
        },
    }
}

/// The lines of array elements at indent level `d`, joined by `,\n`.
pub open spec fn ind_items(els: Seq<ValueModel>, width: nat, d: nat) -> Seq<char>
    decreases els, 0int,
{
    if els.len() == 0 {
        Seq::empty()
    } else if els.len() == 1 {
        spaces(d * width) + spec_format_indented(els[0], width, d)
    } else {
        spaces(d * width) + spec_format_indented(els[0], width, d) + seq![',', '\n'] + ind_items(
            els.subrange(1, els.len() as int),
            width,
            d,
        )
    }
}

/// The lines of object pairs at indent level `d`, joined by `,\n`, each
/// a verbatim-quoted key, a colon and a space, then the value.
pub open spec fn ind_pairs(ps: Seq<(Seq<char>, ValueModel)>, width: nat, d: nat) -> Seq<char>
    decreases ps, 0int,
{
    if ps.len() == 0 {
        Seq::empty()
    } else if ps.len() == 1 {
        spaces(d * width) + seq!['"'] + ps[0].0 + seq!['"', ':', ' '] + spec_format_indented(
            ps[0].1,
            width,
            d,
        )
    } else {
        spaces(d * width) + seq!['"'] + ps[0].0 + seq!['"', ':', ' '] + spec_format_indented(
            ps[0].1,
            width,
            d,
        ) + seq![',', '\n'] + ind_pairs(ps.subrange(1, ps.len() as int), width, d)
    }
}

/// Adding one more element line appends a `,\n` separator (unless it is
/// the first) and the element's line.
pub proof fn lemma_ind_items_push(els: Seq<ValueModel>, v: ValueModel, width: nat, d: nat)
    ensures
        ind_items(els.push(v), width, d) == if els.len() == 0 {
            spaces(d * width) + spec_format_indented(v, width, d)
        } else {
            ind_items(els, width, d) + seq![',', '\n'] + (spaces(d * width) + spec_format_indented(
                v,
                width,
                d,
            ))
        },
    decreases els.len(),
{
    reveal_with_fuel(ind_items, 3);
    assert(els.push(v)[0 as int] == if els.len() == 0 { v } else { els[0] });
    if els.len() == 0 {
        assert(els.push(v).len() == 1);
    } else {
        assert(els.push(v).subrange(1, els.push(v).len() as int) =~= els.subrange(
            1,
            els.len() as int,
        ).push(v));
        lemma_ind_items_push(els.subrange(1, els.len() as int), v, width, d);
        if els.len() == 1 {
            assert(els.subrange(1, els.len() as int) =~= Seq::<ValueModel>::empty());
        }
        assert(ind_items(els.push(v), width, d) =~= ind_items(els, width, d) + seq![',', '\n'] + (
        spaces(d * width) + spec_format_indented(v, width, d)));
    }
}

/// As `lemma_ind_items_push`, for object pairs.
pub proof fn lemma_ind_pairs_push(
    ps: Seq<(Seq<char>, ValueModel)>,
    k: Seq<char>,
    v: ValueModel,
    width: nat,
    d: nat,
)
    ensures
        ind_pairs(ps.push((k, v)), width, d) == if ps.len() == 0 {
            spaces(d * width) + seq!['"'] + k + seq!['"', ':', ' '] + spec_format_indented(
                v,
                width,
                d,
            )
        } else {
            ind_pairs(ps, width, d) + seq![',', '\n'] + (spaces(d * width) + seq!['"'] + k + seq![
                '"',
                ':',
                ' ',
            ] + spec_format_indented(v, width, d))
        },
    decreases ps.len(),
{
    reveal_with_fuel(ind_pairs, 3);
    assert(ps.push((k, v))[0 as int] == if ps.len() == 0 { (k, v) } else { ps[0] });
    if ps.len() == 0 {
        assert(ps.push((k, v)).len() == 1);
    } else {
        assert(ps.push((k, v)).subrange(1, ps.push((k, v)).len() as int) =~= ps.subrange(
            1,
            ps.len() as int,
        ).push((k, v)));
        lemma_ind_pairs_push(ps.subrange(1, ps.len() as int), k, v, width, d);
        if ps.len() == 1 {
            assert(ps.subrange(1, ps.len() as int) =~= Seq::<(Seq<char>, ValueModel)>::empty());
        }
        assert(ind_pairs(ps.push((k, v)), width, d) =~= ind_pairs(ps, width, d) + seq![',', '\n']
            + (spaces(d * width) + seq!['"'] + k + seq!['"', ':', ' '] + spec_format_indented(
            v,
            width,
            d,
        )));
    }
}

/// One level deeper of indent: the parent's spaces and `width` more.
fn extend_indent(indent: &Vec<char>, width: usize, Ghost(depth): Ghost<nat>) -> (child: Vec<char>)
    requires
        indent@ == spaces(depth * width as nat),
    ensures
        child@ == spaces((depth + 1) * width as nat),
{
    let mut child: Vec<char> = Vec::new();
    push_vec_chars(&mut child, indent);
    let mut j: usize = 0;
    while j < width
        invariant
            j <= width,
            child@ == spaces(depth * (width as nat) + (j as nat)),
        decreases width - j,
    {
        child.push(' ');
        j = j + 1;
        proof {
            assert(child@ =~= spaces(depth * (width as nat) + (j as nat)));
        }
    }
    proof {
        assert((depth + 1) * (width as nat) == depth * (width as nat) + (width as nat))
            by (nonlinear_arith);
    }
    child
}

/// Appends the indented text of `v` to `out`; `indent` holds the spaces
/// of the current depth.
#[verifier::rlimit(80)]
fn write_indented(
    v: &JsonValue,
    width: usize,
    indent: &Vec<char>,
    out: &mut Vec<char>,
    Ghost(depth): Ghost<nat>,
)
    requires
        indent@ == spaces(depth * width as nat),
    ensures
        final(out)@ == old(out)@ + spec_format_indented(v.model(), width as nat, depth),
    decreases v, 1int,
{
    broadcast use {lemma_models_of, lemma_pairs_model};

    match v {
        JsonValue::Null => push_str_chars(out, "null"),
        JsonValue::Boolean(b) => {
            if *b {
                push_str_chars(out, "true");
            } else {
                push_str_chars(out, "false");
            }
        },
        JsonValue::Number(bits) => {
            let text = format_number(*bits);
            push_str_chars(out, text.as_str());
        },
        JsonValue::String(s) => {
            out.push('"');
            push_str_chars(out, s.as_str());
            out.push('"');
            proof {
                assert(out@ =~= old(out)@ + (seq!['"'] + s@ + seq!['"']));
            }
        },
        JsonValue::Array(els) => {
            if els.len() == 0 {
                push_str_chars(out, "[]");
                proof {
                    assert(models_of(els@) =~= Seq::<ValueModel>::empty());
                }
                return ;
            }
            proof {
                assert(decreases_to!(*v => *els));
            }
            write_ind_array(els, width, indent, out, Ghost(depth));
        },
        JsonValue::Object(ps) => {
            if ps.len() == 0 {
                push_str_chars(out, "{}");
                proof {
                    assert(pairs_model(ps@) =~= Seq::<(Seq<char>, ValueModel)>::empty());
                }
                return ;
            }
            proof {
                assert(decreases_to!(*v => *ps));
            }
            write_ind_object(ps, width, indent, out, Ghost(depth));
        },
    }
}

/// Appends the multi-line text of a nonempty array's elements, brackets
/// included.
#[verifier::loop_isolation(false)]
#[verifier::rlimit(80)]
fn write_ind_array(
    els: &Vec<JsonValue>,
    width: usize,
    indent: &Vec<char>,
    out: &mut Vec<char>,
    Ghost(depth): Ghost<nat>,
)
    requires
        indent@ == spaces(depth * width as nat),
        els@.len() > 0,
    ensures
        final(out)@ == old(out)@ + (seq!['[', '\n'] + ind_items(
            models_of(els@),
            width as nat,
            depth + 1,
        ) + seq!['\n'] + spaces(depth * width as nat) + seq![']']),
    decreases els@, 0int,
{
    broadcast use lemma_models_of;

    {
        {
            let ghost mels = models_of(els@);
            let ghost d1 = depth + 1;
            let child = extend_indent(indent, width, Ghost(depth));
            out.push('[');
            out.push('\n');
            let mut i: usize = 0;
            proof {
                assert(out@ =~= old(out)@ + seq!['[', '\n'] + ind_items(
                    mels.subrange(0, 0),
                    width as nat,
                    d1,
                ));
            }
            while i < els.len()
                invariant
                    i <= els@.len(),
                    child@ == spaces(d1 * width as nat),
                    out@ == old(out)@ + seq!['[', '\n'] + ind_items(
                        mels.subrange(0, i as int),
                        width as nat,
                        d1,
                    ),
                decreases els@.len() - i,
            {
                let ghost done = mels.subrange(0, i as int);
                if i > 0 {
                    out.push(',');
                    out.push('\n');
                }
                push_vec_chars(out, &child);
                proof {
                    assert(decreases_to!(els@ => els@[i as int]));
                }
                write_indented(&els[i], width, &child, out, Ghost(d1));
                i = i + 1;
                proof {
                    lemma_ind_items_push(done, mels[i - 1], width as nat, d1);
                    assert(mels.subrange(0, i as int) =~= done.push(mels[i - 1]));
                    assert(out@ =~= old(out)@ + seq!['[', '\n'] + ind_items(
                        mels.subrange(0, i as int),
                        width as nat,
                        d1,
                    ));
                }
            }
            out.push('\n');
            push_vec_chars(out, indent);
            out.push(']');
            proof {
                assert(mels.subrange(0, mels.len() as int) =~= mels);
            }
        }
    }
}

/// Appends the multi-line text of a nonempty object's pairs, braces
/// included.
#[verifier::loop_isolation(false)]
#[verifier::rlimit(80)]
fn write_ind_object(
    ps: &Vec<(String, JsonValue)>,
    width: usize,
    indent: &Vec<char>,
    out: &mut Vec<char>,
    Ghost(depth): Ghost<nat>,
)
    requires
        indent@ == spaces(depth * width as nat),
        ps@.len() > 0,
    ensures
        final(out)@ == old(out)@ + (seq!['{', '\n'] + ind_pairs(
            pairs_model(ps@),
            width as nat,
            depth + 1,
        ) + seq!['\n'] + spaces(depth * width as nat) + seq!['}']),
    decreases ps@, 0int,
{
    broadcast use lemma_pairs_model;

    {
        {
            let ghost mps = pairs_model(ps@);
            let ghost d1 = depth + 1;
            let child = extend_indent(indent, width, Ghost(depth));
            out.push('{');
            out.push('\n');
            let mut i: usize = 0;
            proof {
                assert(out@ =~= old(out)@ + seq!['{', '\n'] + ind_pairs(
                    mps.subrange(0, 0),
                    width as nat,
                    d1,
                ));
            }
            while i < ps.len()
                invariant
                    i <= ps@.len(),
                    child@ == spaces(d1 * width as nat),
                    out@ == old(out)@ + seq!['{', '\n'] + ind_pairs(
                        mps.subrange(0, i as int),
                        width as nat,
                        d1,
                    ),
                decreases ps@.len() - i,
            {
                let ghost done = mps.subrange(0, i as int);
                if i > 0 {
                    out.push(',');
                    out.push('\n');
                }
                push_vec_chars(out, &child);
                out.push('"');
                push_str_chars(out, ps[i].0.as_str());
                out.push('"');
                out.push(':');
                out.push(' ');
                proof {
                    assert(decreases_to!(ps@ => ps@[i as int]));
                    assert(decreases_to!(ps@[i as int] => ps@[i as int].1));
                }
                write_indented(&ps[i].1, width, &child, out, Ghost(d1));
                i = i + 1;
                proof {
                    lemma_ind_pairs_push(done, mps[i - 1].0, mps[i - 1].1, width as nat, d1);
                    assert(mps.subrange(0, i as int) =~= done.push(mps[i - 1]));
                    assert(out@ =~= old(out)@ + seq!['{', '\n'] + ind_pairs(
                        mps.subrange(0, i as int),
                        width as nat,
                        d1,
                    ));
                }
            }
            out.push('\n');
            push_vec_chars(out, indent);
            out.push('}');
            proof {
                assert(mps.subrange(0, mps.len() as int) =~= mps);
            }
        }
    }
}

/// Serializes `v` as human-readable multi-line text with `indent_width`
/// spaces per nesting level, as `spec_format_indented` says.
pub fn format_indented(v: &JsonValue, indent_width: usize) -> (r: String)
    ensures
        r@ == spec_format_indented(v.model(), indent_width as nat, 0),
{
    let mut out: Vec<char> = Vec::new();
    let indent: Vec<char> = Vec::new();
    proof {
        assert(indent@ =~= spaces(0));
    }
    write_indented(v, indent_width, &indent, &mut out, Ghost(0nat));
    proof {
        assert(out@ =~= spec_format_indented(v.model(), indent_width as nat, 0));
    }
    chars_to_string(&out)
}

} // verus!
