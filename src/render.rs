use vstd::prelude::*;
use crate::chars::{push_char, push_str};
use crate::value::{member_models, models, JsonModel, JsonValue};

verus! {

/// How a character of a string is written between quotes.
pub open spec fn escape_char(c: char) -> Seq<char> {
    if c == '"' {
        seq!['\\', '"']
    } else if c == '\\' {
        seq!['\\', '\\']
    } else if c == '\n' {
        seq!['\\', 'n']
    } else if c == '\r' {
        seq!['\\', 'r']
    } else if c == '\t' {
        seq!['\\', 't']
    } else if c == '\u{08}' {
        seq!['\\', 'b']
    } else if c == '\u{0C}' {
        seq!['\\', 'f']
    } else {
        seq![c]
    }
}

/// The characters of `s` as they are written between quotes.
pub open spec fn escape(s: Seq<char>) -> Seq<char>
    decreases s.len(),
{
    if s.len() == 0 {
        Seq::empty()
    } else {
        escape(s.drop_last()) + escape_char(s.last())
    }
}

/// A string literal: the escaped characters between double quotes.
pub open spec fn quoted(s: Seq<char>) -> Seq<char> {
    seq!['"'] + escape(s) + seq!['"']
}

/// The parts, with `", "` between each two.
pub open spec fn join(parts: Seq<Seq<char>>) -> Seq<char>
    decreases parts.len(),
{
    if parts.len() == 0 {
        Seq::empty()
    } else if parts.len() == 1 {
        parts[0]
    } else {
        join(parts.drop_last()) + seq![',', ' '] + parts.last()
    }
}

/// The canonical text of a value.
pub open spec fn rendered(m: JsonModel) -> Seq<char>
    decreases m,
{
    match m {
        JsonModel::Null => seq!['n', 'u', 'l', 'l'],
        JsonModel::Boolean(b) => if b {
            seq!['t', 'r', 'u', 'e']
        } else {
            seq!['f', 'a', 'l', 's', 'e']
        },
        JsonModel::Number(t) => t,
        JsonModel::Str(t) => quoted(t),
        JsonModel::Array(items) => seq!['['] + join(rendered_items(items)) + seq![']'],
        JsonModel::Object(ms) => seq!['{'] + join(rendered_members(ms)) + seq!['}'],
    }
}

/// The text of each item.
pub open spec fn rendered_items(items: Seq<JsonModel>) -> Seq<Seq<char>>
    decreases items,
{
    if items.len() == 0 {
        Seq::empty()
    } else {
        rendered_items(items.subrange(0, items.len() - 1)).push(rendered(items[items.len() - 1]))
    }
}

/// The text `"key": value` of each member.
pub open spec fn rendered_members(ms: Seq<(Seq<char>, JsonModel)>) -> Seq<Seq<char>>
    decreases ms,
{
    if ms.len() == 0 {
        Seq::empty()
    } else {
        rendered_members(ms.subrange(0, ms.len() - 1)).push(
            quoted(ms[ms.len() - 1].0) + seq![':', ' '] + rendered(ms[ms.len() - 1].1),
        )
    }
}

pub proof fn lemma_rendered_items_index(items: Seq<JsonModel>)
    ensures
        rendered_items(items).len() == items.len(),
        forall|i: int| 0 <= i < items.len() ==> #[trigger] rendered_items(items)[i] == rendered(items[i]),
    decreases items.len(),
{
    if items.len() > 0 {
        let p = items.subrange(0, items.len() - 1);
        lemma_rendered_items_index(p);
        assert forall|i: int| 0 <= i < items.len() implies #[trigger] rendered_items(items)[i] == rendered(items[i]) by {
            if i < items.len() - 1 {
                assert(p[i] == items[i]);
            }
        }
    }
}

pub proof fn lemma_rendered_members_index(ms: Seq<(Seq<char>, JsonModel)>)
    ensures
        rendered_members(ms).len() == ms.len(),
        forall|i: int| 0 <= i < ms.len() ==> #[trigger] rendered_members(ms)[i] == quoted(ms[i].0) + seq![':', ' '] + rendered(ms[i].1),
    decreases ms.len(),
{
    if ms.len() > 0 {
        let p = ms.subrange(0, ms.len() - 1);
        lemma_rendered_members_index(p);
        assert forall|i: int| 0 <= i < ms.len() implies #[trigger] rendered_members(ms)[i] == quoted(ms[i].0) + seq![':', ' '] + rendered(ms[i].1) by {
            if i < ms.len() - 1 {
                assert(p[i] == ms[i]);
            }
        }
    }
}

pub proof fn lemma_models_index(a: Seq<JsonValue>)
    ensures
        models(a).len() == a.len(),
        forall|i: int| 0 <= i < a.len() ==> #[trigger] models(a)[i] == a[i].model(),
    decreases a.len(),
{
    if a.len() > 0 {
        let p = a.subrange(0, a.len() - 1);
        lemma_models_index(p);
        assert forall|i: int| 0 <= i < a.len() implies #[trigger] models(a)[i] == a[i].model() by {
            if i < a.len() - 1 {
                assert(p[i] == a[i]);
            }
        }
    }
}

proof fn lemma_join_step(parts: Seq<Seq<char>>, i: int)
    requires
        0 <= i < parts.len(),
    ensures
        join(parts.take(i + 1)) == join(parts.take(i)) + (if i == 0 {
            Seq::<char>::empty()
        } else {
            seq![',', ' ']
        }) + parts[i],
{
    let t = parts.take(i + 1);
    assert(t.drop_last() =~= parts.take(i));
    if i == 0 {
        assert(join(parts.take(0)) =~= Seq::<char>::empty());
        assert(join(t) == t[0]);
        assert(Seq::<char>::empty() + Seq::<char>::empty() + parts[0] =~= parts[0]);
    }
}

/// Appends the escaped characters of `s` to `out`.
fn write_escaped(out: &mut String, s: &String)
    ensures
        final(out)@ == old(out)@ + escape(s@),
{
    let ghost o = out@;
    let cs = crate::chars::chars_of(s.as_str());
    let mut i: usize = 0;
    while i < cs.len()
        invariant
            cs@ == s@,
            i <= cs.len(),
            out@ == o + escape(cs@.take(i as int)),
        decreases cs.len() - i,
    {
        let c = cs[i];
        proof {
            assert(cs@.take(i + 1).drop_last() =~= cs@.take(i as int));
        }
        if c == '"' {
            push_str(out, "\\\"");
        } else if c == '\\' {
            push_str(out, "\\\\");
        } else if c == '\n' {
            push_str(out, "\\n");
        } else if c == '\r' {
            push_str(out, "\\r");
        } else if c == '\t' {
            push_str(out, "\\t");
        } else if c == '\u{08}' {
            push_str(out, "\\b");
        } else if c == '\u{0C}' {
            push_str(out, "\\f");
        } else {
            push_char(out, c);
        }
        proof {
            reveal_strlit("\\\"");
            reveal_strlit("\\\\");
            reveal_strlit("\\n");
            reveal_strlit("\\r");
            reveal_strlit("\\t");
            reveal_strlit("\\b");
            reveal_strlit("\\f");
            assert(out@ =~= o + escape(cs@.take(i + 1)));
        }
        i = i + 1;
    }
    proof {
        assert(cs@.take(i as int) =~= s@);
    }
}

impl JsonValue {
    /// The canonical JSON text of this value.
    pub fn render(&self) -> (r: String)
        ensures
            r@ == rendered(self.model()),
        decreases self,
    {
        let mut out = String::new();
        match self {
            JsonValue::Null => {
                push_str(&mut out, "null");
                proof {
                    reveal_strlit("null");
                    assert(out@ =~= rendered(self.model()));
                }
            },
            JsonValue::Boolean(b) => {
                if *b {
                    push_str(&mut out, "true");
                } else {
                    push_str(&mut out, "false");
                }
                proof {
                    reveal_strlit("true");
                    reveal_strlit("false");
                    assert(out@ =~= rendered(self.model()));
                }
            },
            JsonValue::Number(t) => {
                push_str(&mut out, t.as_str());
                proof {
                    assert(out@ =~= rendered(self.model()));
                }
            },
            JsonValue::String(t) => {
                push_char(&mut out, '"');
                write_escaped(&mut out, t);
                push_char(&mut out, '"');
                proof {
                    assert(out@ =~= rendered(self.model()));
                }
            },
            JsonValue::Array(a) => {
                let ghost parts = rendered_items(models(a@));
                proof {
                    lemma_models_index(a@);
                    lemma_rendered_items_index(models(a@));
                }
                push_char(&mut out, '[');
                let mut i: usize = 0;
                while i < a.len()
                    invariant
                        *self == JsonValue::Array(*a),
                        i <= a.len(),
                        parts.len() == a.len(),
                        parts == rendered_items(models(a@)),
                        forall|j: int| 0 <= j < a.len() ==> #[trigger] parts[j] == rendered(a@[j].model()),
                        out@ == seq!['['] + join(parts.take(i as int)),
                    decreases a.len() - i,
                {
                    if i > 0 {
                        push_str(&mut out, ", ");
                    }
                    proof {
                                                assert(decreases_to!(*self => self->Array_0));
                        assert(decreases_to!(*a => a@[i as int]));
                        assert(decreases_to!(*self => a@[i as int]));
                    }
                    let item = a[i].render();
                    push_str(&mut out, item.as_str());
                    proof {
                        reveal_strlit(", ");
                        lemma_join_step(parts, i as int);
                        assert(out@ =~= seq!['['] + join(parts.take(i + 1)));
                    }
                    i = i + 1;
                }
                push_char(&mut out, ']');
                proof {
                    assert(parts.take(i as int) =~= parts);
                    assert(out@ =~= rendered(self.model()));
                }
            },
            JsonValue::Object(o) => {
                let ghost ms = member_models(o@);
                let ghost parts = rendered_members(ms);
                proof {
                    crate::value::lemma_member_models_index(o@);
                    lemma_rendered_members_index(ms);
                }
                push_char(&mut out, '{');
                let mut i: usize = 0;
                while i < o.len()
                    invariant
                        *self == JsonValue::Object(*o),
                        i <= o.len(),
                        ms == member_models(o@),
                        ms.len() == o.len(),
                        parts.len() == o.len(),
                        parts == rendered_members(ms),
                        forall|j: int| 0 <= j < o.len() ==> #[trigger] ms[j] == (o@[j].0@, o@[j].1.model()),
                        forall|j: int| 0 <= j < o.len() ==> #[trigger] parts[j] == quoted(ms[j].0) + seq![':', ' '] + rendered(ms[j].1),
                        out@ == seq!['{'] + join(parts.take(i as int)),
                    decreases o.len() - i,
                {
                    let ghost before = out@;
                    if i > 0 {
                        push_str(&mut out, ", ");
                    }
                    let ghost mid = out@;
                    push_char(&mut out, '"');
                    write_escaped(&mut out, &o[i].0);
                    push_str(&mut out, "\": ");
                    proof {
                                                assert(decreases_to!(*self => self->Object_0));
                        assert(decreases_to!(*o => o@[i as int]));
                        assert(decreases_to!(o@[i as int] => o@[i as int].1));
                        assert(decreases_to!(*self => o@[i as int].1));
                    }
                    let item = o[i].1.render();
                    push_str(&mut out, item.as_str());
                    proof {
                        reveal_strlit(", ");
                        reveal_strlit("\": ");
                        assert(ms[i as int] == (o@[i as int].0@, o@[i as int].1.model()));
                        assert(out@ =~= mid + parts[i as int]);
                        lemma_join_step(parts, i as int);
                        assert(out@ =~= seq!['{'] + join(parts.take(i + 1)));
                    }
                    i = i + 1;
                }
                push_char(&mut out, '}');
                proof {
                    assert(parts.take(i as int) =~= parts);
                    assert(out@ =~= rendered(self.model()));
                }
            },
        }
        out
    }
}

} // verus!

verus! {

impl JsonValue {
    /// A copy of this value that owns its own strings and children.
    pub fn deep_copy(&self) -> (r: JsonValue)
        ensures
            r.model() == self.model(),
        decreases self,
    {
        match self {
            JsonValue::Null => JsonValue::Null,
            JsonValue::Boolean(b) => JsonValue::Boolean(*b),
            JsonValue::Number(t) => JsonValue::Number(t.clone()),
            JsonValue::String(t) => JsonValue::String(t.clone()),
            JsonValue::Array(a) => {
                let mut items: Vec<JsonValue> = Vec::new();
                let mut i: usize = 0;
                proof {
                    assert(models(items@) =~= models(a@).take(0));
                    lemma_models_index(a@);
                }
                while i < a.len()
                    invariant
                        *self == JsonValue::Array(*a),
                        i <= a.len(),
                        models(a@).len() == a.len(),
                        models(items@) == models(a@).take(i as int),
                    decreases a.len() - i,
                {
                    proof {
                        assert(decreases_to!(*self => self->Array_0));
                        assert(decreases_to!(*a => a@[i as int]));
                    }
                    let c = a[i].deep_copy();
                    proof {
                        crate::value::lemma_models_push(items@, c);
                        lemma_models_index(a@);
                        assert(models(a@).take(i as int).push(c.model()) =~= models(a@).take(i + 1));
                    }
                    items.push(c);
                    i = i + 1;
                }
                proof {
                    assert(models(a@).take(i as int) =~= models(a@));
                }
                JsonValue::Array(items)
            },
            JsonValue::Object(o) => {
                let mut entries: Vec<(String, JsonValue)> = Vec::new();
                let mut i: usize = 0;
                proof {
                    assert(member_models(entries@) =~= member_models(o@).take(0));
                    crate::value::lemma_member_models_index(o@);
                }
                while i < o.len()
                    invariant
                        *self == JsonValue::Object(*o),
                        i <= o.len(),
                        member_models(o@).len() == o.len(),
                        member_models(entries@) == member_models(o@).take(i as int),
                    decreases o.len() - i,
                {
                    proof {
                        assert(decreases_to!(*self => self->Object_0));
                        assert(decreases_to!(*o => o@[i as int]));
                        assert(decreases_to!(o@[i as int] => o@[i as int].1));
                    }
                    let k = o[i].0.clone();
                    let c = o[i].1.deep_copy();
                    proof {
                        crate::value::lemma_member_models_push(entries@, (k, c));
                        crate::value::lemma_member_models_index(o@);
                        assert(member_models(o@).take(i as int).push((k@, c.model())) =~= member_models(o@).take(i + 1));
                    }
                    entries.push((k, c));
                    i = i + 1;
                }
                proof {
                    assert(member_models(o@).take(i as int) =~= member_models(o@));
                }
                JsonValue::Object(entries)
            },
        }
    }
}

impl Clone for JsonValue {
    fn clone(&self) -> Self {
        self.deep_copy()
    }
}

} // verus!
