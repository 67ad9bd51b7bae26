use vstd::prelude::*;
use crate::chars::is_digit;
use crate::grammar::{Failure, array, document, elements, members, object, skip_ws, string_literal, value};
use crate::value::{first_key_index, insert_member, keys_distinct, JsonModel};

verus! {

/// A document whose first character after whitespace cannot start any value
/// is rejected, at that character.
pub proof fn lemma_invalid_start(s: Seq<char>)
    requires
        skip_ws(s, 0) < s.len(),
        ({
            let c = s[skip_ws(s, 0)];
            c != 'n' && c != 't' && c != 'f' && c != '"' && c != '-' && !is_digit(c) && c != '['
                && c != '{'
        }),
    ensures
        document(s, 0) == Err::<JsonModel, (Failure, int)>(
            (Failure::UnexpectedChar(s[skip_ws(s, 0)]), skip_ws(s, 0)),
        ),
{
}

/// After a value that reads well, anything but whitespace makes the
/// document fail, at the first such character.
pub proof fn lemma_trailing_characters(s: Seq<char>, v: JsonModel, e: int)
    requires
        value(s, 0) == Ok::<(JsonModel, int), (Failure, int)>((v, e)),
        skip_ws(s, e) < s.len(),
    ensures
        document(s, 0) == Err::<JsonModel, (Failure, int)>(
            (Failure::TrailingCharacters, skip_ws(s, e)),
        ),
{
}

/// Writing a member keeps keys distinct; afterwards the key holds the value
/// last written, in exactly one member, and the other members are unchanged.
pub proof fn lemma_insert_member(m: Seq<(Seq<char>, JsonModel)>, k: Seq<char>, v: JsonModel)
    requires
        keys_distinct(m),
    ensures
        keys_distinct(insert_member(m, k, v)),
        exists|i: int|
            0 <= i < insert_member(m, k, v).len() && #[trigger] insert_member(m, k, v)[i] == (k, v),
        forall|i: int|
            0 <= i < insert_member(m, k, v).len() && #[trigger] insert_member(m, k, v)[i].0 == k
                ==> insert_member(m, k, v)[i].1 == v,
        forall|i: int|
            0 <= i < m.len() && m[i].0 != k ==> #[trigger] insert_member(m, k, v)[i] == m[i],
        forall|i: int|
            0 <= i < insert_member(m, k, v).len() ==> #[trigger] insert_member(m, k, v)[i] == (k, v) || (
            i < m.len() && insert_member(m, k, v)[i] == m[i]),
        (exists|i: int| 0 <= i < m.len() && m[i].0 == k) ==> insert_member(m, k, v).len() == m.len(),
        !(exists|i: int| 0 <= i < m.len() && m[i].0 == k) ==> insert_member(m, k, v).len() == m.len() + 1,
{
    let r = insert_member(m, k, v);
    if exists|i: int| 0 <= i < m.len() && m[i].0 == k {
        let i0 = choose|i: int| 0 <= i < m.len() && m[i].0 == k;
        assert(first_key_index(m, k, i0));
        let c = choose|c: int| first_key_index(m, k, c);
        assert(r[c] == (k, v));
    } else {
        assert(!exists|i: int| first_key_index(m, k, i));
        assert(r[m.len() as int] == (k, v));
    }
}

/// Every object in `m`, at every depth, has distinct keys.
pub open spec fn keys_distinct_deep(m: JsonModel) -> bool
    decreases m,
{
    match m {
        JsonModel::Array(items) => forall|i: int|
            0 <= i < items.len() ==> keys_distinct_deep(#[trigger] items[i]),
        JsonModel::Object(ms) => keys_distinct(ms) && forall|i: int|
            0 <= i < ms.len() ==> keys_distinct_deep(#[trigger] ms[i].1),
        _ => true,
    }
}

/// Every object in a value that parsing reads, at every depth, has distinct
/// keys: a repeated key leaves one member.
pub proof fn lemma_value_keys_distinct(s: Seq<char>, p: int)
    ensures
        value(s, p) is Ok ==> keys_distinct_deep(value(s, p)->Ok_0.0),
    decreases s.len() - p, 1int,
{
    let q = skip_ws(s, p);
    if 0 <= p && q < s.len() {
        if s[q] == '[' {
            lemma_array_keys_distinct(s, q);
        } else if s[q] == '{' {
            lemma_object_keys_distinct(s, q);
        }
    }
}

proof fn lemma_array_keys_distinct(s: Seq<char>, q: int)
    ensures
        array(s, q) is Ok ==> keys_distinct_deep(array(s, q)->Ok_0.0),
    decreases s.len() - q, 0int,
{
    let r = skip_ws(s, q + 1);
    if !(r < s.len() && s[r] == ']') && 0 <= q < s.len() {
        lemma_elements_keys_distinct(s, q + 1, Seq::empty());
    }
}

proof fn lemma_object_keys_distinct(s: Seq<char>, q: int)
    ensures
        object(s, q) is Ok ==> keys_distinct_deep(object(s, q)->Ok_0.0),
    decreases s.len() - q, 0int,
{
    let r = skip_ws(s, q + 1);
    if !(r < s.len() && s[r] == '}') && 0 <= q < s.len() {
        lemma_members_keys_distinct(s, q + 1, Seq::empty());
    }
}

proof fn lemma_elements_keys_distinct(s: Seq<char>, q: int, acc: Seq<JsonModel>)
    requires
        forall|i: int| 0 <= i < acc.len() ==> keys_distinct_deep(#[trigger] acc[i]),
    ensures
        elements(s, q, acc) is Ok ==> keys_distinct_deep(elements(s, q, acc)->Ok_0.0),
    decreases s.len() - q, 2int,
{
    if 0 <= q <= s.len() {
        lemma_value_keys_distinct(s, q);
        match value(s, q) {
            Err(_) => {},
            Ok((v, e)) => {
                let r = skip_ws(s, e);
                let next = acc.push(v);
                assert forall|i: int| 0 <= i < next.len() implies keys_distinct_deep(#[trigger] next[i]) by {
                    if i < acc.len() {
                        assert(next[i] == acc[i]);
                    }
                }
                if e > q && r < s.len() && s[r] == ',' {
                    lemma_elements_keys_distinct(s, r + 1, next);
                }
            },
        }
    }
}

proof fn lemma_members_keys_distinct(s: Seq<char>, q: int, acc: Seq<(Seq<char>, JsonModel)>)
    requires
        keys_distinct(acc),
        forall|i: int| 0 <= i < acc.len() ==> keys_distinct_deep(#[trigger] acc[i].1),
    ensures
        members(s, q, acc) is Ok ==> keys_distinct_deep(members(s, q, acc)->Ok_0.0),
    decreases s.len() - q, 2int,
{
    let k = skip_ws(s, q);
    if q < 0 || k >= s.len() || s[k] != '"' {
    } else {
        match string_literal(s, k) {
            Err(_) => {},
            Ok((key, a)) => {
                let b = skip_ws(s, a);
                if a <= k || b >= s.len() || s[b] != ':' {
                } else {
                    lemma_value_keys_distinct(s, b + 1);
                    match value(s, b + 1) {
                        Err(_) => {},
                        Ok((v, e)) => {
                            let r = skip_ws(s, e);
                            let next = insert_member(acc, key, v);
                            lemma_insert_member(acc, key, v);
                            assert forall|i: int| 0 <= i < next.len() implies keys_distinct_deep(#[trigger] next[i].1) by {
                                if !(next[i] == (key, v)) {
                                    assert(next[i] == acc[i]);
                                }
                            }
                            if e > b && r < s.len() && s[r] == ',' {
                                lemma_members_keys_distinct(s, r + 1, next);
                            }
                        },
                    }
                }
            },
        }
    }
}

/// Every object in a document that parsing reads, at every depth, has
/// distinct keys.
pub proof fn lemma_document_keys_distinct(s: Seq<char>)
    ensures
        document(s, 0) is Ok ==> keys_distinct_deep(document(s, 0)->Ok_0),
{
    lemma_value_keys_distinct(s, 0);
}

} // verus!
