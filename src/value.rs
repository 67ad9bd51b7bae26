use vstd::prelude::*;

verus! {

/// The mathematical model of a JSON value. A number is kept as the text of
/// its literal; an object is a sequence of members with distinct keys.
pub enum JsonModel {
    Null,
    Boolean(bool),
    Number(Seq<char>),
    Str(Seq<char>),
    Array(Seq<JsonModel>),
    Object(Seq<(Seq<char>, JsonModel)>),
}

/// A parsed JSON value. `Number` holds the literal's text, from which a
/// float can be read; `Object` holds its members with distinct keys, in the
/// order in which each key was first written.
#[derive(Debug, PartialEq)]
pub enum JsonValue {
    Null,
    Boolean(bool),
    Number(String),
    String(String),
    Array(Vec<JsonValue>),
    Object(Vec<(String, JsonValue)>),
}

impl JsonValue {
    /// The mathematical value that this value stands for.
    pub open spec fn model(self) -> JsonModel
        decreases self,
    {
        match self {
            JsonValue::Null => JsonModel::Null,
            JsonValue::Boolean(b) => JsonModel::Boolean(b),
            JsonValue::Number(n) => JsonModel::Number(n@),
            JsonValue::String(s) => JsonModel::Str(s@),
            JsonValue::Array(a) => JsonModel::Array(models(a@)),
            JsonValue::Object(o) => JsonModel::Object(member_models(o@)),
        }
    }
}

/// The models of a sequence of values.
pub open spec fn models(a: Seq<JsonValue>) -> Seq<JsonModel>
    decreases a,
{
    if a.len() == 0 {
        Seq::empty()
    } else {
        models(a.subrange(0, a.len() - 1)).push(a[a.len() - 1].model())
    }
}

/// The models of a sequence of members.
pub open spec fn member_models(o: Seq<(String, JsonValue)>) -> Seq<(Seq<char>, JsonModel)>
    decreases o,
{
    if o.len() == 0 {
        Seq::empty()
    } else {
        member_models(o.subrange(0, o.len() - 1)).push(
            (o[o.len() - 1].0@, o[o.len() - 1].1.model()),
        )
    }
}

/// Index of the first member whose key is `k`, if any.
pub open spec fn first_key_index(m: Seq<(Seq<char>, JsonModel)>, k: Seq<char>, i: int) -> bool {
    0 <= i < m.len() && m[i].0 == k && forall|j: int| 0 <= j < i ==> m[j].0 != k
}

/// Writes member `k: v`: replaces the value of an existing key in place,
/// or appends a new member.
pub open spec fn insert_member(
    m: Seq<(Seq<char>, JsonModel)>,
    k: Seq<char>,
    v: JsonModel,
) -> Seq<(Seq<char>, JsonModel)> {
    if exists|i: int| first_key_index(m, k, i) {
        m.update(choose|i: int| first_key_index(m, k, i), (k, v))
    } else {
        m.push((k, v))
    }
}

/// No two members share a key.
pub open spec fn keys_distinct(m: Seq<(Seq<char>, JsonModel)>) -> bool {
    forall|i: int, j: int| 0 <= i < j < m.len() ==> m[i].0 != m[j].0
}

} // verus!

verus! {

pub proof fn lemma_models_push(a: Seq<JsonValue>, x: JsonValue)
    ensures
        models(a.push(x)) == models(a).push(x.model()),
{
    assert(a.push(x).subrange(0, a.len() as int) =~= a);
}

pub proof fn lemma_member_models_push(o: Seq<(String, JsonValue)>, x: (String, JsonValue))
    ensures
        member_models(o.push(x)) == member_models(o).push((x.0@, x.1.model())),
{
    assert(o.push(x).subrange(0, o.len() as int) =~= o);
}

pub proof fn lemma_member_models_index(o: Seq<(String, JsonValue)>)
    ensures
        member_models(o).len() == o.len(),
        forall|i: int| 0 <= i < o.len() ==> #[trigger] member_models(o)[i] == (o[i].0@, o[i].1.model()),
    decreases o.len(),
{
    if o.len() > 0 {
        let p = o.subrange(0, o.len() - 1);
        lemma_member_models_index(p);
        assert forall|i: int| 0 <= i < o.len() implies #[trigger] member_models(o)[i] == (o[i].0@, o[i].1.model()) by {
            if i < o.len() - 1 {
                assert(p[i] == o[i]);
            }
        }
    }
}

pub proof fn lemma_member_models_update(o: Seq<(String, JsonValue)>, i: int, x: (String, JsonValue))
    requires
        0 <= i < o.len(),
    ensures
        member_models(o.update(i, x)) == member_models(o).update(i, (x.0@, x.1.model())),
{
    lemma_member_models_index(o);
    lemma_member_models_index(o.update(i, x));
    assert(member_models(o.update(i, x)) =~= member_models(o).update(i, (x.0@, x.1.model())));
}

} // verus!
