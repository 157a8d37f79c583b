//! Textual rendering of entities.
//!
//! [`render_text`] is the canonical display form: numbers in shortest
//! decimal form, strings and identifiers as their raw text, booleans as
//! `true`/`false`, nil as `nil`, lists space-joined without brackets, and
//! expressions parenthesised.
//!
//! [`source_text`] is the source form: the same, except that strings are
//! quoted and lists are bracketed, so that well-formed entities read back
//! through the parser (see [`crate::laws`]).

use vstd::prelude::*;

use crate::entities::Entity;
use crate::entities::EntityV;
use crate::entities::Expression;
use crate::entities::Identifier;
use crate::entities::List;
use crate::entities::Primitive;
use crate::entities::Value;
use crate::entities::ent_view;
use crate::entities::lemma_list_view;
use crate::number::num_text;

verus! {

/// The text of a boolean.
pub open spec fn bool_text(b: bool) -> Seq<char> {
    if b {
        seq!['t', 'r', 'u', 'e']
    } else {
        seq!['f', 'a', 'l', 's', 'e']
    }
}

/// The text of nil.
pub open spec fn nil_text() -> Seq<char> {
    seq!['n', 'i', 'l']
}

/// The canonical display text of an entity.
pub open spec fn render_text(v: EntityV) -> Seq<char>
    decreases v, 0int,
{
    match v {
        EntityV::Num(n) => num_text(n),
        EntityV::Str(s) => s,
        EntityV::Bool(b) => bool_text(b),
        EntityV::Nil => nil_text(),
        EntityV::Id(s) => s,
        EntityV::List(items) => if items.len() == 0 {
            Seq::empty()
        } else {
            render_text(items[0]) + render_tail(items, 1)
        },
        EntityV::Call(x) => seq!['('] + x.fid + render_tail(x.args, 0) + seq![')'],
    }
}

/// The display texts of the entities of `s` from `i` on, each preceded by a
/// space.
pub open spec fn render_tail(s: Seq<EntityV>, i: int) -> Seq<char>
    decreases s, s.len() - i,
{
    if i < 0 || i >= s.len() {
        Seq::empty()
    } else {
        seq![' '] + render_text(s[i]) + render_tail(s, i + 1)
    }
}

/// The source text of an entity: display text with strings quoted and lists
/// bracketed, so that it parses back.
pub open spec fn source_text(v: EntityV) -> Seq<char>
    decreases v, 0int,
{
    match v {
        EntityV::Num(n) => num_text(n),
        EntityV::Str(s) => seq!['"'] + s + seq!['"'],
        EntityV::Bool(b) => bool_text(b),
        EntityV::Nil => nil_text(),
        EntityV::Id(s) => s,
        EntityV::List(items) => if items.len() == 0 {
            seq!['[', ']']
        } else {
            seq!['['] + source_text(items[0]) + source_tail(items, 1) + seq![']']
        },
        EntityV::Call(x) => seq!['('] + x.fid + source_tail(x.args, 0) + seq![')'],
    }
}

/// The source texts of the entities of `s` from `i` on, each preceded by a
/// space.
pub open spec fn source_tail(s: Seq<EntityV>, i: int) -> Seq<char>
    decreases s, s.len() - i,
{
    if i < 0 || i >= s.len() {
        Seq::empty()
    } else {
        seq![' '] + source_text(s[i]) + source_tail(s, i + 1)
    }
}

/// The text of a boolean.
pub fn bool_string(b: bool) -> (r: String)
    ensures
        r@ == bool_text(b),
{
    if b {
        let r = String::from_str("true");
        proof {
            reveal_strlit("true");
            assert(r@ =~= bool_text(b));
        }
        r
    } else {
        let r = String::from_str("false");
        proof {
            reveal_strlit("false");
            assert(r@ =~= bool_text(b));
        }
        r
    }
}

impl Primitive {
    /// The canonical display text of this primitive.
    pub fn as_string(&self) -> (r: String)
        ensures
            r@ == render_text(self@),
    {
        match self {
            Primitive::Number(n) => n.to_text(),
            Primitive::String(s) => s.clone(),
            Primitive::Bool(b) => bool_string(*b),
            Primitive::Nil => {
                let r = String::from_str("nil");
                proof {
                    reveal_strlit("nil");
                    assert(r@ =~= nil_text());
                }
                r
            },
        }
    }
}

impl Entity {
    /// The canonical display text of this entity.
    pub fn to_text(&self) -> (r: String)
        ensures
            r@ == render_text(self@),
        decreases *self, 1int,
    {
        match self {
            Entity::Value(v) => v.to_text(),
            Entity::Identifier(id) => id.0.clone(),
            Entity::Expression(x) => x.to_text(),
        }
    }

    /// The source text of this entity.
    pub fn to_source(&self) -> (r: String)
        ensures
            r@ == source_text(self@),
        decreases *self, 1int,
    {
        match self {
            Entity::Value(v) => v.to_source(),
            Entity::Identifier(id) => id.0.clone(),
            Entity::Expression(x) => x.to_source(),
        }
    }
}

impl Value {
    /// The canonical display text of this value.
    pub fn to_text(&self) -> (r: String)
        ensures
            r@ == render_text(self@),
        decreases *self, 0int,
    {
        match self {
            Value::Primitive(p) => p.as_string(),
            Value::List(l) => l.to_text(),
        }
    }

    /// The source text of this value.
    pub fn to_source(&self) -> (r: String)
        ensures
            r@ == source_text(self@),
        decreases *self, 0int,
    {
        match self {
            Value::Primitive(p) => match p {
                Primitive::String(s) => {
                    let mut out = String::from_str("\"");
                    out.append(s.as_str());
                    out.append("\"");
                    proof {
                        reveal_strlit("\"");
                        assert("\""@ =~= seq!['"']);
                        assert(out@ =~= seq!['"'] + s@ + seq!['"']);
                    }
                    out
                },
                _ => p.as_string(),
            },
            Value::List(l) => l.to_source(),
        }
    }
}

impl List {
    /// The canonical display text of this list: its items' display texts,
    /// space-joined, without brackets.
    pub fn to_text(&self) -> (r: String)
        ensures
            r@ == render_text(EntityV::List(self@)),
        decreases *self, 0int,
    {
        proof {
            lemma_list_view(*self);
        }
        if self.0.len() == 0 {
            let r = String::new();
            proof {
                assert(r@ =~= render_text(EntityV::List(self@)));
            }
            r
        } else {
            let ghost items = self@;
            let mut out = self.0[0].to_text();
            let n = self.0.len();
            let mut i: usize = 1;
            while i < n
                invariant
                    1 <= i <= n,
                    n == self.0@.len(),
                    items == self@,
                    items.len() == n,
                    forall|j: int| 0 <= j < n ==> #[trigger] items[j] == ent_view(self.0@[j]),
                    out@ + render_tail(items, i as int) == render_text(items[0]) + render_tail(
                        items,
                        1,
                    ),
                decreases n - i,
            {
                let ghost before = out@;
                out.append(" ");
                let e = &self.0[i];
                proof {
                    assert(decreases_to!(self.0 => self.0@[i as int]));
                }
                let t = e.to_text();
                out.append(t.as_str());
                proof {
                    reveal_strlit(" ");
                    assert(" "@ =~= seq![' ']);
                    assert(out@ =~= before + (seq![' '] + render_text(items[i as int])));
                    assert(before + (seq![' '] + render_text(items[i as int])) + render_tail(
                        items,
                        i as int + 1,
                    ) =~= before + render_tail(items, i as int));
                }
                i = i + 1;
            }
            proof {
                assert(render_tail(items, n as int) =~= Seq::<char>::empty());
                assert(out@ + Seq::<char>::empty() =~= out@);
            }
            out
        }
    }

    /// The source text of this list: `[` the items' source texts `]`.
    pub fn to_source(&self) -> (r: String)
        ensures
            r@ == source_text(EntityV::List(self@)),
        decreases *self, 0int,
    {
        proof {
            lemma_list_view(*self);
        }
        let mut out = String::from_str("[");
        proof {
            reveal_strlit("[");
            assert(out@ =~= seq!['[']);
        }
        if self.0.len() > 0 {
            let ghost items = self@;
            let t0 = self.0[0].to_source();
            out.append(t0.as_str());
            let n = self.0.len();
            let mut i: usize = 1;
            while i < n
                invariant
                    1 <= i <= n,
                    n == self.0@.len(),
                    items == self@,
                    items.len() == n,
                    forall|j: int| 0 <= j < n ==> #[trigger] items[j] == ent_view(self.0@[j]),
                    out@ + source_tail(items, i as int) == seq!['['] + source_text(items[0])
                        + source_tail(items, 1),
                decreases n - i,
            {
                let ghost before = out@;
                out.append(" ");
                let e = &self.0[i];
                proof {
                    assert(decreases_to!(self.0 => self.0@[i as int]));
                }
                let t = e.to_source();
                out.append(t.as_str());
                proof {
                    reveal_strlit(" ");
                    assert(" "@ =~= seq![' ']);
                    assert(out@ =~= before + (seq![' '] + source_text(items[i as int])));
                    assert(before + (seq![' '] + source_text(items[i as int])) + source_tail(
                        items,
                        i as int + 1,
                    ) =~= before + source_tail(items, i as int));
                }
                i = i + 1;
            }
            proof {
                assert(source_tail(items, n as int) =~= Seq::<char>::empty());
                assert(out@ + Seq::<char>::empty() =~= out@);
            }
        }
        out.append("]");
        proof {
            reveal_strlit("]");
            assert("]"@ =~= seq![']']);
            if self.0@.len() == 0 {
                assert(out@ =~= seq!['[', ']']);
            } else {
                assert(out@ =~= seq!['['] + source_text(self@[0]) + source_tail(self@, 1)
                    + seq![']']);
            }
        }
        out
    }
}

impl Expression {
    /// The canonical display text of this expression.
    pub fn to_text(&self) -> (r: String)
        ensures
            r@ == render_text(EntityV::Call(self@)),
        decreases *self, 0int,
    {
        let ghost xs = self@.args;
        proof {
            lemma_list_view(self.args);
        }
        let mut out = String::from_str("(");
        out.append(self.fid.0.as_str());
        proof {
            reveal_strlit("(");
            assert(out@ =~= seq!['('] + self.fid.0@);
        }
        let n = self.args.0.len();
        let mut i: usize = 0;
        while i < n
            invariant
                i <= n,
                n == self.args.0@.len(),
                xs == self@.args,
                xs.len() == n,
                forall|j: int| 0 <= j < n ==> #[trigger] xs[j] == ent_view(self.args.0@[j]),
                out@ + render_tail(xs, i as int) == seq!['('] + self@.fid + render_tail(xs, 0),
            decreases n - i,
        {
            let ghost before = out@;
            out.append(" ");
            let e = &self.args.0[i];
            proof {
                assert(decreases_to!(self.args.0 => self.args.0@[i as int]));
            }
            let t = e.to_text();
            out.append(t.as_str());
            proof {
                reveal_strlit(" ");
                assert(" "@ =~= seq![' ']);
                assert(out@ =~= before + (seq![' '] + render_text(xs[i as int])));
                assert(before + (seq![' '] + render_text(xs[i as int])) + render_tail(
                    xs,
                    i as int + 1,
                ) =~= before + render_tail(xs, i as int));
            }
            i = i + 1;
        }
        out.append(")");
        proof {
            reveal_strlit(")");
            assert(")"@ =~= seq![')']);
            assert(render_tail(xs, n as int) =~= Seq::<char>::empty());
            assert(out@ =~= seq!['('] + self@.fid + render_tail(xs, 0) + seq![')']);
        }
        out
    }

    /// The source text of this expression.
    pub fn to_source(&self) -> (r: String)
        ensures
            r@ == source_text(EntityV::Call(self@)),
        decreases *self, 0int,
    {
        let ghost xs = self@.args;
        proof {
            lemma_list_view(self.args);
        }
        let mut out = String::from_str("(");
        out.append(self.fid.0.as_str());
        proof {
            reveal_strlit("(");
            assert(out@ =~= seq!['('] + self.fid.0@);
        }
        let n = self.args.0.len();
        let mut i: usize = 0;
        while i < n
            invariant
                i <= n,
                n == self.args.0@.len(),
                xs == self@.args,
                xs.len() == n,
                forall|j: int| 0 <= j < n ==> #[trigger] xs[j] == ent_view(self.args.0@[j]),
                out@ + source_tail(xs, i as int) == seq!['('] + self@.fid + source_tail(xs, 0),
            decreases n - i,
        {
            let ghost before = out@;
            out.append(" ");
            let e = &self.args.0[i];
            proof {
                assert(decreases_to!(self.args.0 => self.args.0@[i as int]));
            }
            let t = e.to_source();
            out.append(t.as_str());
            proof {
                reveal_strlit(" ");
                assert(" "@ =~= seq![' ']);
                assert(out@ =~= before + (seq![' '] + source_text(xs[i as int])));
                assert(before + (seq![' '] + source_text(xs[i as int])) + source_tail(
                    xs,
                    i as int + 1,
                ) =~= before + source_tail(xs, i as int));
            }
            i = i + 1;
        }
        out.append(")");
        proof {
            reveal_strlit(")");
            assert(")"@ =~= seq![')']);
            assert(source_tail(xs, n as int) =~= Seq::<char>::empty());
            assert(out@ =~= seq!['('] + self@.fid + source_tail(xs, 0) + seq![')']);
        }
        out
    }
}

} // verus!
