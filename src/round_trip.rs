use vstd::prelude::*;
use crate::chars::{is_digit, is_white_space};
use crate::grammar::{
    Failure,
    digits_len, document, elements, exponent_end, fraction_end, int_part_end, literal, members,
    number_end, skip_ws, string_body, value, ws_len,
};
use crate::render::{escape, escape_char, join, quoted, rendered, rendered_items, rendered_members};
use crate::parser::lemma_value_skips_ws;
use crate::value::{first_key_index, insert_member, keys_distinct, JsonModel};

verus! {

/// The text of a number literal, read whole by the number grammar.
pub open spec fn valid_number(t: Seq<char>) -> bool {
    number_end(t, 0) == Ok::<int, (Failure, int)>(t.len() as int)
}

/// A value that rendering and parsing carry over unchanged: every number is
/// a literal of the grammar, and the keys of every object are distinct.
pub open spec fn well_formed(m: JsonModel) -> bool
    decreases m,
{
    match m {
        JsonModel::Number(t) => valid_number(t),
        JsonModel::Array(items) => forall|i: int| 0 <= i < items.len() ==> well_formed(#[trigger] items[i]),
        JsonModel::Object(ms) => keys_distinct(ms) && forall|i: int|
            0 <= i < ms.len() ==> well_formed(#[trigger] ms[i].1),
        _ => true,
    }
}

/// `r` stands in `s` from index `p` on.
pub open spec fn embedded(s: Seq<char>, p: int, r: Seq<char>) -> bool {
    0 <= p && p + r.len() <= s.len() && s.subrange(p, p + r.len()) == r
}

/// What may follow a value inside rendered text.
pub open spec fn closes(s: Seq<char>, e: int) -> bool {
    e == s.len() || (0 <= e < s.len() && (s[e] == ',' || s[e] == ']' || s[e] == '}'))
}

proof fn lemma_embedded_split(s: Seq<char>, p: int, a: Seq<char>, b: Seq<char>)
    requires
        embedded(s, p, a + b),
    ensures
        embedded(s, p, a),
        embedded(s, p + a.len(), b),
{
    let w = s.subrange(p, p + (a + b).len());
    assert forall|i: int| 0 <= i < a.len() implies s.subrange(p, p + a.len())[i] == a[i] by {
        assert(w[i] == (a + b)[i]);
    }
    assert(s.subrange(p, p + a.len()) =~= a);
    assert forall|i: int| 0 <= i < b.len() implies s.subrange(p + a.len(), p + a.len() + b.len())[i] == b[i] by {
        assert(w[a.len() + i] == (a + b)[a.len() + i]);
    }
    assert(s.subrange(p + a.len(), p + a.len() + b.len()) =~= b);
}

proof fn lemma_embedded_at(s: Seq<char>, p: int, r: Seq<char>, i: int)
    requires
        embedded(s, p, r),
        0 <= i < r.len(),
    ensures
        s[p + i] == r[i],
{
    assert(s.subrange(p, p + r.len())[i] == s[p + i]);
}

proof fn lemma_not_ws_stops(s: Seq<char>, p: int)
    requires
        0 <= p < s.len(),
        !is_white_space(s[p]),
    ensures
        skip_ws(s, p) == p,
{
}

proof fn lemma_one_space(s: Seq<char>, p: int)
    requires
        0 <= p,
        p + 1 < s.len(),
        s[p] == ' ',
        !is_white_space(s[p + 1]),
    ensures
        skip_ws(s, p) == p + 1,
{
    assert(ws_len(s, p + 1) == 0);
}

/// The first character of a rendered well-formed value.
pub open spec fn starts_value(c: char) -> bool {
    c == 'n' || c == 't' || c == 'f' || c == '"' || c == '-' || is_digit(c) || c == '[' || c == '{'
}

proof fn lemma_starts_value_not_ws(c: char)
    requires
        starts_value(c),
    ensures
        !is_white_space(c),
        c != ']' && c != '}' && c != ',',
{
}

proof fn lemma_valid_number_start(t: Seq<char>)
    requires
        valid_number(t),
    ensures
        t.len() > 0,
        t[0] == '-' || is_digit(t[0]),
{
}

proof fn lemma_rendered_start(m: JsonModel)
    requires
        well_formed(m),
    ensures
        rendered(m).len() > 0,
        starts_value(rendered(m)[0]),
{
    match m {
        JsonModel::Number(t) => {
            lemma_valid_number_start(t);
        },
        _ => {},
    }
}

proof fn lemma_literal_matches(s: Seq<char>, p: int, w: Seq<char>, k: int)
    requires
        embedded(s, p, w),
        0 <= k <= w.len(),
    ensures
        literal(s, p, w, k) == Ok::<int, (Failure, int)>(p + w.len()),
    decreases w.len() - k,
{
    if k < w.len() {
        lemma_embedded_at(s, p, w, k);
        lemma_literal_matches(s, p, w, k + 1);
    }
}

proof fn lemma_string_prefix(s: Seq<char>, q: int, t: Seq<char>, acc: Seq<char>)
    requires
        embedded(s, q, escape(t)),
    ensures
        string_body(s, q, acc) == string_body(s, q + escape(t).len(), acc + t),
    decreases t.len(),
{
    if t.len() == 0 {
        assert(acc + t =~= acc);
    } else {
        let t0 = t.drop_last();
        let c = t.last();
        lemma_embedded_split(s, q, escape(t0), escape_char(c));
        lemma_string_prefix(s, q, t0, acc);
        let q1 = q + escape(t0).len();
        let e = escape_char(c);
        lemma_embedded_at(s, q1, e, 0);
        if e.len() == 2 {
            lemma_embedded_at(s, q1, e, 1);
        }
        assert(acc + t0 + seq![c] =~= acc + t);
        assert((acc + t0).push(c) =~= acc + t);
    }
}

proof fn lemma_string_rendered(s: Seq<char>, p: int, t: Seq<char>)
    requires
        embedded(s, p, quoted(t)),
    ensures
        string_body(s, p + 1, Seq::empty()) == Ok::<(Seq<char>, int), (Failure, int)>(
            (t, p + quoted(t).len()),
        ),
{
    lemma_embedded_split(s, p, seq!['"'] + escape(t), seq!['"']);
    lemma_embedded_split(s, p, seq!['"'], escape(t));
    lemma_string_prefix(s, p + 1, t, Seq::empty());
    lemma_embedded_at(s, p + 1 + escape(t).len(), seq!['"'], 0);
    assert(Seq::<char>::empty() + t =~= t);
}

proof fn lemma_digits_agree(s: Seq<char>, p: int, t: Seq<char>, i: int)
    requires
        embedded(s, p, t),
        closes(s, p + t.len()),
        0 <= i <= t.len(),
    ensures
        digits_len(s, p + i) == digits_len(t, i),
    decreases t.len() - i,
{
    if i < t.len() {
        lemma_embedded_at(s, p, t, i);
        lemma_digits_agree(s, p, t, i + 1);
    }
}

proof fn lemma_number_rendered(s: Seq<char>, p: int, t: Seq<char>)
    requires
        valid_number(t),
        embedded(s, p, t),
        closes(s, p + t.len()),
    ensures
        number_end(s, p) == Ok::<int, (Failure, int)>(p + t.len()),
{
    assert forall|i: int| 0 <= i < t.len() implies s[p + i] == t[i] by {
        lemma_embedded_at(s, p, t, i);
    }
    assert forall|i: int| 0 <= i <= t.len() implies digits_len(s, p + i) == digits_len(t, i) by {
        lemma_digits_agree(s, p, t, i);
    }
    let a: int = if t.len() > 0 && t[0] == '-' { 1 } else { 0 };
    assert(int_part_end(t, a) is Ok);
    let b = int_part_end(t, a)->Ok_0;
    assert(int_part_end(s, p + a) == Ok::<int, (Failure, int)>(p + b));
    assert(fraction_end(t, b) is Ok);
    let c = fraction_end(t, b)->Ok_0;
    assert(fraction_end(s, p + b) == Ok::<int, (Failure, int)>(p + c));
    assert(exponent_end(s, p + c) == Ok::<int, (Failure, int)>(p + t.len()));
}

proof fn lemma_join_front(parts: Seq<Seq<char>>)
    requires
        parts.len() >= 2,
    ensures
        join(parts) == parts[0] + seq![',', ' '] + join(parts.drop_first()),
    decreases parts.len(),
{
    if parts.len() == 2 {
        assert(join(parts.drop_last()) == parts[0]);
        assert(join(parts.drop_first()) == parts[1]);
    } else {
        let d = parts.drop_last();
        lemma_join_front(d);
        assert(d.drop_first() =~= parts.drop_first().drop_last());
        assert(parts.drop_first().last() == parts.last());
        assert(join(parts) == join(d) + seq![',', ' '] + parts.last());
        assert(join(parts.drop_first()) == join(parts.drop_first().drop_last()) + seq![',', ' '] + parts.last());
        assert(join(parts) =~= parts[0] + seq![',', ' '] + join(parts.drop_first()));
    }
}

proof fn lemma_rendered_items_drop_first(items: Seq<JsonModel>)
    requires
        items.len() >= 1,
    ensures
        rendered_items(items.drop_first()) == rendered_items(items).drop_first(),
{
    crate::render::lemma_rendered_items_index(items);
    crate::render::lemma_rendered_items_index(items.drop_first());
    assert(rendered_items(items.drop_first()) =~= rendered_items(items).drop_first());
}

proof fn lemma_rendered_members_drop_first(ms: Seq<(Seq<char>, JsonModel)>)
    requires
        ms.len() >= 1,
    ensures
        rendered_members(ms.drop_first()) == rendered_members(ms).drop_first(),
{
    crate::render::lemma_rendered_members_index(ms);
    crate::render::lemma_rendered_members_index(ms.drop_first());
    assert(rendered_members(ms.drop_first()) =~= rendered_members(ms).drop_first());
}

/// A rendered well-formed value, standing in a text and followed by what
/// may close it, reads back as itself.
pub proof fn lemma_value_rendered(s: Seq<char>, p: int, m: JsonModel)
    requires
        well_formed(m),
        embedded(s, p, rendered(m)),
        closes(s, p + rendered(m).len()),
    ensures
        value(s, p) == Ok::<(JsonModel, int), (Failure, int)>((m, p + rendered(m).len())),
    decreases m, 2nat, 0nat,
{
    match m {
        JsonModel::Array(_) => lemma_array_rendered(s, p, m),
        JsonModel::Object(_) => lemma_object_rendered(s, p, m),
        _ => lemma_scalar_rendered(s, p, m),
    }
}

proof fn lemma_value_start(s: Seq<char>, p: int, m: JsonModel)
    requires
        well_formed(m),
        embedded(s, p, rendered(m)),
    ensures
        rendered(m).len() > 0,
        s[p] == rendered(m)[0],
        starts_value(s[p]),
        skip_ws(s, p) == p,
{
    let r = rendered(m);
    lemma_rendered_start(m);
    lemma_embedded_at(s, p, r, 0);
    lemma_starts_value_not_ws(r[0]);
    lemma_not_ws_stops(s, p);
}

proof fn lemma_scalar_rendered(s: Seq<char>, p: int, m: JsonModel)
    requires
        well_formed(m),
        !(m is Array),
        !(m is Object),
        embedded(s, p, rendered(m)),
        closes(s, p + rendered(m).len()),
    ensures
        value(s, p) == Ok::<(JsonModel, int), (Failure, int)>((m, p + rendered(m).len())),
{
    let r = rendered(m);
    lemma_value_start(s, p, m);
    match m {
        JsonModel::Null => {
            assert(r =~= seq!['n', 'u', 'l', 'l']);
            lemma_literal_matches(s, p, r, 0);
        },
        JsonModel::Boolean(b) => {
            if b {
                assert(r =~= seq!['t', 'r', 'u', 'e']);
            } else {
                assert(r =~= seq!['f', 'a', 'l', 's', 'e']);
            }
            lemma_literal_matches(s, p, r, 0);
        },
        JsonModel::Number(t) => {
            lemma_number_rendered(s, p, t);
        },
        JsonModel::Str(t) => {
            lemma_string_rendered(s, p, t);
        },
        _ => {},
    }
}

proof fn lemma_array_rendered(s: Seq<char>, p: int, m: JsonModel)
    requires
        well_formed(m),
        m is Array,
        embedded(s, p, rendered(m)),
        closes(s, p + rendered(m).len()),
    ensures
        value(s, p) == Ok::<(JsonModel, int), (Failure, int)>((m, p + rendered(m).len())),
    decreases m, 1nat, 0nat,
{
    let r = rendered(m);
    let items = m->Array_0;
    lemma_value_start(s, p, m);
    let parts = rendered_items(items);
    let body = join(parts) + seq![']'];
    assert(r =~= seq!['['] + body);
    lemma_embedded_split(s, p, seq!['['], body);
    crate::render::lemma_rendered_items_index(items);
    assert(s[p] == '[');
    assert(value(s, p) == crate::grammar::array(s, p));
    if items.len() == 0 {
        assert(body =~= seq![']']);
        lemma_embedded_at(s, p + 1, body, 0);
        lemma_not_ws_stops(s, p + 1);
        assert(items =~= Seq::<JsonModel>::empty());
    } else {
        assert(well_formed(items[0]));
        lemma_rendered_start(items[0]);
        if items.len() >= 2 {
            lemma_join_front(parts);
            assert(body =~= parts[0] + (seq![',', ' '] + join(parts.drop_first()) + seq![']']));
        } else {
            assert(body =~= parts[0] + seq![']']);
        }
        assert(body[0] == parts[0][0]);
        lemma_embedded_at(s, p + 1, body, 0);
        lemma_starts_value_not_ws(parts[0][0]);
        lemma_not_ws_stops(s, p + 1);
        assert(Seq::<JsonModel>::empty() + items =~= items);
        lemma_elements(s, p + 1, Seq::empty(), items, m);
    }
}

proof fn lemma_object_rendered(s: Seq<char>, p: int, m: JsonModel)
    requires
        well_formed(m),
        m is Object,
        embedded(s, p, rendered(m)),
        closes(s, p + rendered(m).len()),
    ensures
        value(s, p) == Ok::<(JsonModel, int), (Failure, int)>((m, p + rendered(m).len())),
    decreases m, 1nat, 0nat,
{
    let r = rendered(m);
    let ms = m->Object_0;
    lemma_value_start(s, p, m);
    let parts = rendered_members(ms);
    let body = join(parts) + seq!['}'];
    assert(r =~= seq!['{'] + body);
    lemma_embedded_split(s, p, seq!['{'], body);
    crate::render::lemma_rendered_members_index(ms);
    assert(s[p] == '{');
    assert(value(s, p) == crate::grammar::object(s, p));
    if ms.len() == 0 {
        assert(body =~= seq!['}']);
        lemma_embedded_at(s, p + 1, body, 0);
        lemma_not_ws_stops(s, p + 1);
        assert(ms =~= Seq::<(Seq<char>, JsonModel)>::empty());
    } else {
        if ms.len() >= 2 {
            lemma_join_front(parts);
            assert(body =~= parts[0] + (seq![',', ' '] + join(parts.drop_first()) + seq!['}']));
        } else {
            assert(body =~= parts[0] + seq!['}']);
        }
        assert(body[0] == '"');
        lemma_embedded_at(s, p + 1, body, 0);
        lemma_not_ws_stops(s, p + 1);
        assert(Seq::<(Seq<char>, JsonModel)>::empty() + ms =~= ms);
        lemma_members(s, p + 1, Seq::empty(), ms, m);
    }
}

proof fn lemma_elements(
    s: Seq<char>,
    q: int,
    acc: Seq<JsonModel>,
    rest: Seq<JsonModel>,
    whole: JsonModel,
)
    requires
        whole == JsonModel::Array(acc + rest),
        well_formed(whole),
        rest.len() >= 1,
        0 <= q,
        embedded(s, skip_ws(s, q), join(rendered_items(rest)) + seq![']']),
    ensures
        elements(s, q, acc) == Ok::<(JsonModel, int), (Failure, int)>(
            (whole, skip_ws(s, q) + join(rendered_items(rest)).len() + 1),
        ),
    decreases whole, 0nat, rest.len(),
{
    let q1 = skip_ws(s, q);
    let parts = rendered_items(rest);
    let items = acc + rest;
    crate::render::lemma_rendered_items_index(rest);
    let v = rest[0];
    assert(items[acc.len() as int] == v);
    assert(whole->Array_0 == items);
    assert(decreases_to!(whole => whole->Array_0));
    assert(decreases_to!(items => items[acc.len() as int]));
    assert(well_formed(items[acc.len() as int]));
    let r0 = rendered(v);
    let e = q1 + r0.len();
    lemma_value_skips_ws(s, q);
    lemma_rendered_start(v);
    if rest.len() == 1 {
        assert(join(parts) == r0);
        lemma_embedded_split(s, q1, r0, seq![']']);
        lemma_embedded_at(s, e, seq![']'], 0);
        lemma_value_rendered(s, q1, v);
        lemma_not_ws_stops(s, e);
        assert(acc.push(v) =~= items);
    } else {
        lemma_join_front(parts);
        lemma_rendered_items_drop_first(rest);
        let rest2 = rest.drop_first();
        let tail = join(rendered_items(rest2)) + seq![']'];
        assert(join(parts) + seq![']'] =~= r0 + (seq![',', ' '] + tail));
        lemma_embedded_split(s, q1, r0, seq![',', ' '] + tail);
        lemma_embedded_split(s, e, seq![',', ' '], tail);
        lemma_embedded_at(s, e, seq![',', ' '], 0);
        lemma_embedded_at(s, e, seq![',', ' '], 1);
        lemma_value_rendered(s, q1, v);
        lemma_not_ws_stops(s, e);
        crate::render::lemma_rendered_items_index(rest2);
        assert(rest2[0] == items[acc.len() + 1int]);
        assert(well_formed(items[acc.len() + 1int]));
        lemma_rendered_start(rest2[0]);
        assert(tail[0] == rendered(rest2[0])[0]) by {
            if rest2.len() >= 2 {
                lemma_join_front(rendered_items(rest2));
            }
        }
        lemma_embedded_at(s, e + 2, tail, 0);
        lemma_starts_value_not_ws(tail[0]);
        lemma_one_space(s, e + 1);
        lemma_not_ws_stops(s, e + 2);
        assert(acc.push(v) + rest2 =~= items);
        lemma_elements(s, e + 1, acc.push(v), rest2, whole);
    }
}

/// One member read after members whose keys differ from its own.
proof fn lemma_members_step(
    s: Seq<char>,
    q: int,
    acc: Seq<(Seq<char>, JsonModel)>,
    key: Seq<char>,
    v: JsonModel,
    a: int,
    e: int,
)
    requires
        0 <= q,
        skip_ws(s, q) < s.len(),
        s[skip_ws(s, q)] == '"',
        crate::grammar::string_literal(s, skip_ws(s, q)) == Ok::<(Seq<char>, int), (Failure, int)>((key, a)),
        a > skip_ws(s, q),
        a < s.len(),
        s[a] == ':',
        skip_ws(s, a) == a,
        value(s, a + 1) == Ok::<(JsonModel, int), (Failure, int)>((v, e)),
        e > a,
        e < s.len(),
        skip_ws(s, e) == e,
        s[e] == ',' || s[e] == '}',
        forall|i: int| 0 <= i < acc.len() ==> acc[i].0 != key,
    ensures
        s[e] == '}' ==> members(s, q, acc) == Ok::<(JsonModel, int), (Failure, int)>(
            (JsonModel::Object(acc.push((key, v))), e + 1),
        ),
        s[e] == ',' && !(skip_ws(s, e + 1) < s.len() && s[skip_ws(s, e + 1)] == '}') ==> members(
            s,
            q,
            acc,
        ) == members(s, e + 1, acc.push((key, v))),
{
    assert(!exists|i: int| first_key_index(acc, key, i));
    assert(insert_member(acc, key, v) == acc.push((key, v)));
}

#[verifier::rlimit(100)]
#[verifier::spinoff_prover]
proof fn lemma_members(
    s: Seq<char>,
    q: int,
    acc: Seq<(Seq<char>, JsonModel)>,
    rest: Seq<(Seq<char>, JsonModel)>,
    whole: JsonModel,
)
    requires
        whole == JsonModel::Object(acc + rest),
        well_formed(whole),
        rest.len() >= 1,
        0 <= q,
        embedded(s, skip_ws(s, q), join(rendered_members(rest)) + seq!['}']),
    ensures
        members(s, q, acc) == Ok::<(JsonModel, int), (Failure, int)>(
            (whole, skip_ws(s, q) + join(rendered_members(rest)).len() + 1),
        ),
    decreases whole, 0nat, rest.len(),
{
    let q1 = skip_ws(s, q);
    let parts = rendered_members(rest);
    let ms = acc + rest;
    crate::render::lemma_rendered_members_index(rest);
    let key = rest[0].0;
    let v = rest[0].1;
    assert(ms[acc.len() as int] == rest[0]);
    assert(whole->Object_0 == ms);
    assert(decreases_to!(whole => whole->Object_0));
    assert(decreases_to!(ms => ms[acc.len() as int]));
    assert(decreases_to!(ms[acc.len() as int] => ms[acc.len() as int].1));
    assert(well_formed(ms[acc.len() as int].1));
    let qk = quoted(key);
    let r0 = rendered(v);
    let piece = qk + seq![':', ' '] + r0;
    assert(parts[0] == piece);
    let a = q1 + qk.len();
    let e = a + 2 + r0.len();
    lemma_rendered_start(v);
    let after: Seq<char> = if rest.len() == 1 {
        seq!['}']
    } else {
        seq![',', ' '] + join(rendered_members(rest.drop_first())) + seq!['}']
    };
    if rest.len() >= 2 {
        lemma_join_front(parts);
        lemma_rendered_members_drop_first(rest);
    }
    assert(join(parts) + seq!['}'] =~= qk + (seq![':', ' '] + (r0 + after)));
    lemma_embedded_split(s, q1, qk, seq![':', ' '] + (r0 + after));
    lemma_embedded_split(s, a, seq![':', ' '], r0 + after);
    lemma_embedded_split(s, a + 2, r0, after);
    lemma_embedded_at(s, q1, qk, 0);
    lemma_embedded_at(s, a, seq![':', ' '], 0);
    lemma_embedded_at(s, a, seq![':', ' '], 1);
    lemma_embedded_at(s, e, after, 0);
    lemma_string_rendered(s, q1, key);
    lemma_not_ws_stops(s, a);
    lemma_embedded_at(s, a + 2, r0, 0);
    lemma_starts_value_not_ws(r0[0]);
    lemma_one_space(s, a + 1);
    lemma_value_skips_ws(s, a + 1);
    lemma_value_rendered(s, a + 2, v);
    lemma_not_ws_stops(s, e);
    assert forall|i: int| 0 <= i < acc.len() implies acc[i].0 != key by {
        assert(ms[i] == acc[i]);
    }
    lemma_members_step(s, q, acc, key, v, a, e);
    if rest.len() == 1 {
        assert(acc.push((key, v)) =~= ms);
    } else {
        let rest2 = rest.drop_first();
        let tail = join(rendered_members(rest2)) + seq!['}'];
        assert(after =~= seq![',', ' '] + tail);
        lemma_embedded_split(s, e, seq![',', ' '], tail);
        crate::render::lemma_rendered_members_index(rest2);
        assert(tail[0] == '"') by {
            if rest2.len() >= 2 {
                lemma_join_front(rendered_members(rest2));
            }
        }
        lemma_embedded_at(s, e + 2, tail, 0);
        lemma_embedded_at(s, e, after, 1);
        lemma_one_space(s, e + 1);
        assert(acc.push((key, v)) + rest2 =~= ms);
        lemma_members(s, e + 1, acc.push((key, v)), rest2, whole);
    }
}

/// Rendering a well-formed value and parsing the text gives the value back.
pub proof fn lemma_round_trip(m: JsonModel)
    requires
        well_formed(m),
    ensures
        document(rendered(m), 0) == Ok::<JsonModel, (Failure, int)>(m),
{
    let s = rendered(m);
    assert(s.subrange(0, s.len() as int) =~= s);
    lemma_value_rendered(s, 0, m);
}

} // verus!
