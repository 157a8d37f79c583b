//! The entity tree: what the parser produces and the evaluator consumes.
//!
//! The ghost model is [`EntityV`]: the same tree over mathematical values,
//! with an [`Expression`]'s source position dropped (it is diagnostic only).

use vstd::prelude::*;

use crate::number::Number;

verus! {

/// The ghost model of an entity.
pub enum EntityV {
    /// A number.
    Num(Number),
    /// A text value.
    Str(Seq<char>),
    /// A boolean.
    Bool(bool),
    /// The nil value.
    Nil,
    /// A literal list; its items are entities, not necessarily values.
    List(Seq<EntityV>),
    /// A reference to be resolved against the scope's variables.
    Id(Seq<char>),
    /// An unevaluated function call.
    Call(ExprV),
}

/// The ghost model of a function-call expression.
pub struct ExprV {
    /// The name of the function called.
    pub fid: Seq<char>,
    /// The argument entities, unevaluated.
    pub args: Seq<EntityV>,
}

/// A reference that must be resolved against the scope to yield a value.
#[derive(Debug, PartialEq, Eq, Hash)]
pub struct Identifier(pub String);

/// An irreducible primitive value.
#[derive(Debug, PartialEq)]
pub enum Primitive {
    Number(Number),
    String(String),
    Bool(bool),
    Nil,
}

/// A literal list: both a value and a container of arbitrary entities.
#[derive(Debug, PartialEq)]
pub struct List(pub Vec<Entity>);

/// An unevaluated function call: `(fid arg...)`, with the source line and
/// column where it started (diagnostic only; not part of the ghost model).
#[derive(Debug, PartialEq)]
pub struct Expression {
    pub fid: Identifier,
    pub args: List,
    pub line: usize,
    pub pos: usize,
}

/// An entity that evaluation may terminate on.
#[derive(Debug, PartialEq)]
pub enum Value {
    Primitive(Primitive),
    List(List),
}

/// Any node produced by the parser.
#[derive(Debug, PartialEq)]
pub enum Entity {
    Value(Value),
    Identifier(Identifier),
    Expression(Expression),
}

impl View for Identifier {
    type V = Seq<char>;

    open spec fn view(&self) -> Seq<char> {
        self.0@
    }
}

impl View for Primitive {
    type V = EntityV;

    open spec fn view(&self) -> EntityV {
        match self {
            Primitive::Number(n) => EntityV::Num(*n),
            Primitive::String(s) => EntityV::Str(s@),
            Primitive::Bool(b) => EntityV::Bool(*b),
            Primitive::Nil => EntityV::Nil,
        }
    }
}

/// The ghost model of an entity.
pub open spec fn ent_view(e: Entity) -> EntityV
    decreases e,
{
    match e {
        Entity::Value(v) => val_view(v),
        Entity::Identifier(id) => EntityV::Id(id.0@),
        Entity::Expression(x) => EntityV::Call(expr_view(x)),
    }
}

/// The ghost model of a value.
pub open spec fn val_view(v: Value) -> EntityV
    decreases v,
{
    match v {
        Value::Primitive(p) => p@,
        Value::List(l) => EntityV::List(list_view(l)),
    }
}

/// The ghost models of a list's items.
pub open spec fn list_view(l: List) -> Seq<EntityV>
    decreases l,
{
    ents_view_from(l.0@, 0)
}

/// The ghost models of the entities of `s` from position `i` on.
pub open spec fn ents_view_from(s: Seq<Entity>, i: int) -> Seq<EntityV>
    decreases s, s.len() - i,
{
    if i < 0 || i >= s.len() {
        Seq::empty()
    } else {
        seq![ent_view(s[i])] + ents_view_from(s, i + 1)
    }
}

/// `ents_view_from` maps each entity to its ghost model, in order.
pub proof fn lemma_ents_view_from(s: Seq<Entity>, i: int)
    requires
        0 <= i <= s.len(),
    ensures
        ents_view_from(s, i).len() == s.len() - i,
        forall|j: int|
            0 <= j < s.len() - i ==> #[trigger] ents_view_from(s, i)[j] == ent_view(s[i + j]),
    decreases s.len() - i,
{
    if i < s.len() {
        lemma_ents_view_from(s, i + 1);
    }
}

/// A list's ghost model maps each item to its ghost model, in order.
pub proof fn lemma_list_view(l: List)
    ensures
        list_view(l).len() == l.0@.len(),
        forall|j: int| 0 <= j < l.0@.len() ==> #[trigger] list_view(l)[j] == ent_view(l.0@[j]),
{
    lemma_ents_view_from(l.0@, 0);
}

/// The ghost model of an expression (the source position is dropped).
pub open spec fn expr_view(x: Expression) -> ExprV
    decreases x,
{
    ExprV { fid: x.fid.0@, args: list_view(x.args) }
}

impl View for Entity {
    type V = EntityV;

    open spec fn view(&self) -> EntityV {
        ent_view(*self)
    }
}

impl View for Value {
    type V = EntityV;

    open spec fn view(&self) -> EntityV {
        val_view(*self)
    }
}

impl View for List {
    type V = Seq<EntityV>;

    open spec fn view(&self) -> Seq<EntityV> {
        list_view(*self)
    }
}

impl View for Expression {
    type V = ExprV;

    open spec fn view(&self) -> ExprV {
        expr_view(*self)
    }
}

/// The size of an entity tree, used as a termination measure.
pub open spec fn ent_size(v: EntityV) -> nat
    decreases v,
{
    match v {
        EntityV::List(s) => 1 + seq_size_from(s, 0),
        EntityV::Call(x) => 1 + seq_size_from(x.args, 0),
        _ => 1,
    }
}

/// The summed size of the entities of `s` from position `i` on.
pub open spec fn seq_size_from(s: Seq<EntityV>, i: int) -> nat
    decreases s, s.len() - i,
{
    if i < 0 || i >= s.len() {
        0
    } else {
        ent_size(s[i]) + seq_size_from(s, i + 1)
    }
}

/// Every entity of `s` from `i` on counts toward the summed size.
pub proof fn lemma_seq_size_elem(s: Seq<EntityV>, i: int, j: int)
    requires
        0 <= i <= j < s.len(),
    ensures
        ent_size(s[j]) <= seq_size_from(s, i),
    decreases j - i,
{
    if i < j {
        lemma_seq_size_elem(s, i + 1, j);
    }
}

/// An entity is at least as large as any entity of its argument or item
/// sequence.
pub proof fn lemma_ent_size_pos(v: EntityV)
    ensures
        ent_size(v) >= 1,
{
}

/// The closed set of runtime types, reported by the `typeof` builtin and
/// used in type-mismatch diagnostics.
#[derive(Clone, Copy, Debug, PartialEq, Eq, Structural)]
pub enum Datatype {
    Number,
    String,
    Bool,
    Nil,
    List,
    Identifier,
    Expression,
    Function,
}

/// The runtime type of an entity.
pub open spec fn type_of(v: EntityV) -> Datatype {
    match v {
        EntityV::Num(_) => Datatype::Number,
        EntityV::Str(_) => Datatype::String,
        EntityV::Bool(_) => Datatype::Bool,
        EntityV::Nil => Datatype::Nil,
        EntityV::List(_) => Datatype::List,
        EntityV::Id(_) => Datatype::Identifier,
        EntityV::Call(_) => Datatype::Expression,
    }
}

/// Runtime type reflection.
pub trait AsType {
    /// The runtime type this entity reports.
    spec fn type_spec(&self) -> Datatype;

    /// The runtime type of this entity.
    fn as_type(&self) -> (r: Datatype)
        ensures
            r == self.type_spec(),
    ;
}

impl AsType for Entity {
    open spec fn type_spec(&self) -> Datatype {
        type_of(self@)
    }

    fn as_type(&self) -> (r: Datatype) {
        match self {
            Entity::Value(v) => v.as_type(),
            Entity::Identifier(_) => Datatype::Identifier,
            Entity::Expression(_) => Datatype::Expression,
        }
    }
}

impl AsType for Value {
    open spec fn type_spec(&self) -> Datatype {
        type_of(self@)
    }

    fn as_type(&self) -> (r: Datatype) {
        match self {
            Value::Primitive(p) => p.as_type(),
            Value::List(_) => Datatype::List,
        }
    }
}

impl AsType for Primitive {
    open spec fn type_spec(&self) -> Datatype {
        type_of(self@)
    }

    fn as_type(&self) -> (r: Datatype) {
        match self {
            Primitive::Number(_) => Datatype::Number,
            Primitive::String(_) => Datatype::String,
            Primitive::Bool(_) => Datatype::Bool,
            Primitive::Nil => Datatype::Nil,
        }
    }
}

/// Wrapping a plain value up as an entity.
pub trait ToEntity: Sized {
    /// The ghost model of the entity this value wraps into.
    spec fn entity_spec(self) -> EntityV;

    /// This value, wrapped as an entity.
    fn to_entity(self) -> (r: Entity)
        ensures
            r@ == self.entity_spec(),
    ;
}

impl ToEntity for Number {
    open spec fn entity_spec(self) -> EntityV {
        EntityV::Num(self)
    }

    fn to_entity(self) -> (r: Entity) {
        Entity::Value(Value::Primitive(Primitive::Number(self)))
    }
}

impl ToEntity for String {
    open spec fn entity_spec(self) -> EntityV {
        EntityV::Str(self@)
    }

    fn to_entity(self) -> (r: Entity) {
        Entity::Value(Value::Primitive(Primitive::String(self)))
    }
}

impl ToEntity for bool {
    open spec fn entity_spec(self) -> EntityV {
        EntityV::Bool(self)
    }

    fn to_entity(self) -> (r: Entity) {
        Entity::Value(Value::Primitive(Primitive::Bool(self)))
    }
}

impl ToEntity for Primitive {
    open spec fn entity_spec(self) -> EntityV {
        self@
    }

    fn to_entity(self) -> (r: Entity) {
        Entity::Value(Value::Primitive(self))
    }
}

impl ToEntity for List {
    open spec fn entity_spec(self) -> EntityV {
        EntityV::List(self@)
    }

    fn to_entity(self) -> (r: Entity) {
        Entity::Value(Value::List(self))
    }
}

impl ToEntity for Identifier {
    open spec fn entity_spec(self) -> EntityV {
        EntityV::Id(self@)
    }

    fn to_entity(self) -> (r: Entity) {
        Entity::Identifier(self)
    }
}

impl ToEntity for Expression {
    open spec fn entity_spec(self) -> EntityV {
        EntityV::Call(self@)
    }

    fn to_entity(self) -> (r: Entity) {
        Entity::Expression(self)
    }
}

impl Identifier {
    /// The identifier with the given name.
    pub fn new(inner: &str) -> (r: Identifier)
        ensures
            r@ == inner@,
    {
        Identifier(inner.to_owned())
    }

    /// A copy of this identifier.
    pub fn duplicate(&self) -> (r: Identifier)
        ensures
            r@ == self@,
    {
        Identifier(self.0.clone())
    }
}

impl Primitive {
    /// This primitive as a value.
    pub fn to_value(self) -> (r: Value)
        ensures
            r@ == self@,
    {
        Value::Primitive(self)
    }

    /// True iff this primitive is nil.
    pub fn is_nil(&self) -> (r: bool)
        ensures
            r == (self@ matches EntityV::Nil),
    {
        match self {
            Primitive::Nil => true,
            _ => false,
        }
    }

    /// A copy of this primitive.
    pub fn duplicate(&self) -> (r: Primitive)
        ensures
            r@ == self@,
    {
        match self {
            Primitive::Number(n) => Primitive::Number(*n),
            Primitive::String(s) => Primitive::String(s.clone()),
            Primitive::Bool(b) => Primitive::Bool(*b),
            Primitive::Nil => Primitive::Nil,
        }
    }
}

impl List {
    /// The empty list.
    pub fn new() -> (r: List)
        ensures
            r@ == Seq::<EntityV>::empty(),
    {
        let l = List(Vec::new());
        proof {
            assert(l@ =~= Seq::<EntityV>::empty());
        }
        l
    }

    /// The list holding the given entities.
    pub fn from(items: Vec<Entity>) -> (r: List)
        ensures
            r@ == ents_view_from(items@, 0),
    {
        List(items)
    }

    /// Removes and returns the first entity of a non-empty list.
    pub fn get(&mut self) -> (r: Entity)
        requires
            old(self)@.len() > 0,
        ensures
            r@ == old(self)@[0],
            final(self)@ == old(self)@.skip(1),
    {
        proof {
            lemma_list_view(*self);
        }
        let r = self.0.remove(0);
        proof {
            lemma_list_view(*self);
            assert(self@ =~= old(self)@.skip(1));
        }
        r
    }

    /// A copy of this list.
    pub fn duplicate(&self) -> (r: List)
        ensures
            r@ == self@,
        decreases *self,
    {
        let mut out: Vec<Entity> = Vec::new();
        let n = self.0.len();
        let mut i: usize = 0;
        while i < n
            invariant
                i <= n,
                n == self.0@.len(),
                out@.len() == i,
                forall|j: int| 0 <= j < i ==> ent_view(#[trigger] out@[j]) == ent_view(self.0@[j]),
            decreases n - i,
        {
            let e = &self.0[i];
            proof {
                assert(decreases_to!(self.0 => self.0@[i as int]));
            }
            out.push(e.duplicate());
            i = i + 1;
        }
        let r = List(out);
        proof {
            lemma_list_view(r);
            lemma_list_view(*self);
            assert(r@ =~= self@);
        }
        r
    }
}

impl Expression {
    /// The call expression whose function id is the first entity (which
    /// must be an identifier) and whose arguments are the rest.
    pub fn from_iterable(items: Vec<Entity>, line: usize, pos: usize) -> (r: Result<
        Expression,
        crate::errors::RuntimeError,
    >)
        ensures
            match r {
                Ok(x) => items@.len() > 0 && ent_view(items@[0]) == EntityV::Id(x@.fid) && x@.args
                    == ents_view_from(items@, 1) && x.line == line && x.pos == pos,
                Err(e) => (items@.len() == 0 || !(ent_view(items@[0]) matches EntityV::Id(_)))
                    && e@ == crate::errors::ErrV::TypeMismatch {
                    expected: Datatype::Identifier,
                    found: if items@.len() == 0 {
                        Datatype::Nil
                    } else {
                        type_of(ent_view(items@[0]))
                    },
                },
            },
    {
        let ghost items0 = items@;
        let mut rest = items;
        if rest.len() == 0 {
            return Err(
                crate::errors::RuntimeError::TypeMismatch {
                    expected: Datatype::Identifier,
                    found: Datatype::Nil,
                },
            );
        }
        let first = rest.remove(0);
        let fid = match first {
            Entity::Identifier(id) => id,
            e => {
                let found = e.as_type();
                return Err(
                    crate::errors::RuntimeError::TypeMismatch {
                        expected: Datatype::Identifier,
                        found,
                    },
                );
            },
        };
        let x = Expression { fid, args: List(rest), line, pos };
        proof {
            lemma_list_view(x.args);
            lemma_ents_view_from(items0, 1);
            assert(x@.args =~= ents_view_from(items0, 1)) by {
                lemma_ents_view_from(x.args.0@, 0);
                assert(forall|j: int|
                    0 <= j < x.args.0@.len() ==> x.args.0@[j] == #[trigger] items0.skip(1)[j]
                        && items0.skip(1)[j] == items0[1 + j]);
            };
        }
        Ok(x)
    }

    /// A copy of this expression.
    pub fn duplicate(&self) -> (r: Expression)
        ensures
            r@ == self@,
            r.line == self.line,
            r.pos == self.pos,
        decreases *self,
    {
        Expression {
            fid: self.fid.duplicate(),
            args: self.args.duplicate(),
            line: self.line,
            pos: self.pos,
        }
    }
}

impl Value {
    /// This value as a list, or a type mismatch.
    pub fn to_list(self) -> (r: Result<List, crate::errors::RuntimeError>)
        ensures
            match r {
                Ok(l) => self@ == EntityV::List(l@),
                Err(e) => !(self@ matches EntityV::List(_)) && e@
                    == crate::errors::ErrV::TypeMismatch {
                    expected: Datatype::List,
                    found: type_of(self@),
                },
            },
    {
        match self {
            Value::List(list) => Ok(list),
            _ => {
                let found = self.as_type();
                Err(
                    crate::errors::RuntimeError::TypeMismatch {
                        expected: Datatype::List,
                        found,
                    },
                )
            },
        }
    }

    /// This value as a primitive, or a type mismatch.
    pub fn to_primitive(self) -> (r: Result<Primitive, crate::errors::RuntimeError>)
        ensures
            match r {
                Ok(p) => self@ == p@ && !(self@ matches EntityV::List(_)),
                Err(e) => (self@ matches EntityV::List(_)) && e@
                    == crate::errors::ErrV::TypeMismatch {
                    expected: Datatype::Nil,
                    found: Datatype::List,
                },
            },
    {
        match self {
            Value::Primitive(primitive) => Ok(primitive),
            Value::List(_) => Err(
                crate::errors::RuntimeError::TypeMismatch {
                    expected: Datatype::Nil,
                    found: Datatype::List,
                },
            ),
        }
    }

    /// A copy of this value.
    pub fn duplicate(&self) -> (r: Value)
        ensures
            r@ == self@,
        decreases *self,
    {
        match self {
            Value::Primitive(p) => Value::Primitive(p.duplicate()),
            Value::List(l) => Value::List(l.duplicate()),
        }
    }
}

impl Entity {
    /// This entity as an identifier, or a type mismatch.
    pub fn to_id(self) -> (r: Result<Identifier, crate::errors::RuntimeError>)
        ensures
            match r {
                Ok(id) => self@ == EntityV::Id(id@),
                Err(e) => !(self@ matches EntityV::Id(_)) && e@
                    == crate::errors::ErrV::TypeMismatch {
                    expected: Datatype::Identifier,
                    found: type_of(self@),
                },
            },
    {
        match self {
            Entity::Identifier(id) => Ok(id),
            _ => {
                let found = self.as_type();
                Err(
                    crate::errors::RuntimeError::TypeMismatch {
                        expected: Datatype::Identifier,
                        found,
                    },
                )
            },
        }
    }

    /// This entity as an expression, or a type mismatch.
    pub fn to_expression(self) -> (r: Result<Expression, crate::errors::RuntimeError>)
        ensures
            match r {
                Ok(x) => self@ == EntityV::Call(x@),
                Err(e) => !(self@ matches EntityV::Call(_)) && e@
                    == crate::errors::ErrV::TypeMismatch {
                    expected: Datatype::Expression,
                    found: type_of(self@),
                },
            },
    {
        match self {
            Entity::Expression(x) => Ok(x),
            _ => {
                let found = self.as_type();
                Err(
                    crate::errors::RuntimeError::TypeMismatch {
                        expected: Datatype::Expression,
                        found,
                    },
                )
            },
        }
    }

    /// A copy of this entity.
    pub fn duplicate(&self) -> (r: Entity)
        ensures
            r@ == self@,
        decreases *self,
    {
        match self {
            Entity::Value(v) => Entity::Value(v.duplicate()),
            Entity::Identifier(id) => Entity::Identifier(id.duplicate()),
            Entity::Expression(x) => Entity::Expression(x.duplicate()),
        }
    }

    /// True iff the two entities have the same ghost model. The source
    /// position of expressions is not compared.
    pub fn deep_eq(&self, other: &Entity) -> (r: bool)
        ensures
            r == (self@ == other@),
        decreases *self,
    {
        match self {
            Entity::Value(a) => match other {
                Entity::Value(b) => a.deep_eq(b),
                _ => false,
            },
            Entity::Identifier(a) => match other {
                Entity::Identifier(b) => a.0 == b.0,
                _ => false,
            },
            Entity::Expression(a) => match other {
                Entity::Expression(b) => a.deep_eq(b),
                _ => false,
            },
        }
    }
}

impl Expression {
    /// True iff the two calls have the same ghost model.
    pub fn deep_eq(&self, other: &Expression) -> (r: bool)
        ensures
            r == (self@ == other@),
        decreases *self,
    {
        self.fid.0 == other.fid.0 && self.args.deep_eq(&other.args)
    }
}

impl Value {
    /// True iff the two values have the same ghost model.
    pub fn deep_eq(&self, other: &Value) -> (r: bool)
        ensures
            r == (self@ == other@),
        decreases *self,
    {
        match self {
            Value::Primitive(a) => match other {
                Value::Primitive(b) => a.deep_eq(b),
                _ => false,
            },
            Value::List(a) => match other {
                Value::List(b) => a.deep_eq(b),
                _ => false,
            },
        }
    }
}

impl Primitive {
    /// True iff the two primitives have the same ghost model.
    pub fn deep_eq(&self, other: &Primitive) -> (r: bool)
        ensures
            r == (self@ == other@),
    {
        match self {
            Primitive::Number(a) => match other {
                Primitive::Number(b) => a.neg == b.neg && a.mant == b.mant && a.scale == b.scale,
                _ => false,
            },
            Primitive::String(a) => match other {
                Primitive::String(b) => *a == *b,
                _ => false,
            },
            Primitive::Bool(a) => match other {
                Primitive::Bool(b) => *a == *b,
                _ => false,
            },
            Primitive::Nil => match other {
                Primitive::Nil => true,
                _ => false,
            },
        }
    }
}

impl List {
    /// True iff the two lists hold entities with the same ghost models.
    pub fn deep_eq(&self, other: &List) -> (r: bool)
        ensures
            r == (self@ == other@),
        decreases *self,
    {
        proof {
            lemma_list_view(*self);
            lemma_list_view(*other);
        }
        let n = self.0.len();
        if n != other.0.len() {
            return false;
        }
        let mut i: usize = 0;
        while i < n
            invariant
                i <= n,
                n == self.0@.len() == other.0@.len(),
                self@.len() == other@.len() == n,
                forall|j: int| 0 <= j < i ==> #[trigger] self@[j] == other@[j],
                forall|j: int| 0 <= j < n ==> #[trigger] self@[j] == ent_view(self.0@[j]),
                forall|j: int| 0 <= j < n ==> #[trigger] other@[j] == ent_view(other.0@[j]),
            ensures
                i <= n,
                i < n ==> self@[i as int] != other@[i as int],
                forall|j: int| 0 <= j < i ==> #[trigger] self@[j] == other@[j],
            decreases n - i,
        {
            let a = &self.0[i];
            proof {
                assert(decreases_to!(self.0 => self.0@[i as int]));
            }
            if !a.deep_eq(&other.0[i]) {
                break ;
            }
            i = i + 1;
        }
        if i < n {
            proof {
                assert(self@ != other@);
            }
            false
        } else {
            proof {
                assert(self@ =~= other@);
            }
            true
        }
    }
}

} // verus!
