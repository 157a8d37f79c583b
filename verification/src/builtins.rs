//! The fixed catalogue of builtin operations, each verified against its
//! clause of the ghost interpreter in [`crate::executer`].
//!
//! Builtins receive their argument entities unevaluated and coerce only the
//! operands they need, in the order they need them; that is what gives `if`
//! its short-circuit behaviour and arithmetic its eager left-to-right
//! evaluation.

use vstd::prelude::*;

use crate::entities::AsType;
use crate::entities::Datatype;
use crate::entities::Entity;
use crate::entities::EntityV;
use crate::entities::List;
use crate::entities::Primitive;
use crate::entities::Value;
use crate::entities::ent_size;
use crate::entities::ent_view;
use crate::entities::lemma_list_view;
use crate::entities::lemma_seq_size_elem;
use crate::entities::seq_size_from;
use crate::entities::type_of;
use crate::errors::ErrV;
use crate::errors::RuntimeError;
use crate::executer::StateV;
use crate::executer::eval_call;
use crate::executer::eval_entity;
use crate::executer::state_of;
use crate::executer::out_view;
use crate::executer::str_eq;
use crate::number::Number;
use crate::number::NumParse;
use crate::number::add_spec;
use crate::number::div_spec;
use crate::number::le_spec;
use crate::number::lt_spec;
use crate::number::mul_spec;
use crate::number::num_of_text;
use crate::number::parse_num_str;
use crate::render::render_text;
use crate::scope::FunV;
use crate::scope::Scope;
use crate::scope::first_non_id;
use crate::scope::params_of;
use crate::scope::set_variable;
use crate::utils::unescape_spec;

verus! {

/// True iff `name` names a builtin operation.
pub open spec fn is_builtin(name: Seq<char>) -> bool {
    ||| name == "var"@
    ||| name == "func"@
    ||| name == "typeof"@
    ||| name == "if"@
    ||| name == "eq"@
    ||| name == "ne"@
    ||| name == "lt"@
    ||| name == "gt"@
    ||| name == "le"@
    ||| name == "ge"@
    ||| name == "add"@
    ||| name == "sub"@
    ||| name == "mul"@
    ||| name == "div"@
    ||| name == "concat"@
    ||| name == "print"@
}

/// True iff `name` names a builtin operation.
pub fn builtin_exists(name: &str) -> (r: bool)
    ensures
        r == is_builtin(name@),
{
    str_eq(name, "var") || str_eq(name, "func") || str_eq(name, "typeof") || str_eq(name, "if")
        || str_eq(name, "eq") || str_eq(name, "ne") || str_eq(name, "lt") || str_eq(name, "gt")
        || str_eq(name, "le") || str_eq(name, "ge") || str_eq(name, "add") || str_eq(name, "sub")
        || str_eq(name, "mul") || str_eq(name, "div") || str_eq(name, "concat") || str_eq(
        name,
        "print",
    )
}

/// The text the `typeof` builtin reports for each runtime type.
pub open spec fn type_text(d: Datatype) -> Seq<char> {
    match d {
        Datatype::Number => seq!['n', 'u', 'm', 'b', 'e', 'r'],
        Datatype::String => seq!['s', 't', 'r', 'i', 'n', 'g'],
        Datatype::Bool => seq!['b', 'o', 'o', 'l'],
        Datatype::Nil => seq!['n', 'i', 'l'],
        Datatype::List => seq!['l', 'i', 's', 't'],
        Datatype::Identifier => seq!['i', 'd', 'e', 'n', 't', 'i', 'f', 'i', 'e', 'r'],
        Datatype::Expression => seq!['e', 'x', 'p', 'r', 'e', 's', 's', 'i', 'o', 'n'],
        Datatype::Function => seq!['f', 'u', 'n', 'c', 't', 'i', 'o', 'n'],
    }
}

/// The text the `typeof` builtin reports for each runtime type.
pub fn type_string(d: Datatype) -> (r: String)
    ensures
        r@ == type_text(d),
{
    match d {
        Datatype::Number => {
            let r = String::from_str("number");
            proof {
                reveal_strlit("number");
                assert(r@ =~= type_text(d));
            }
            r
        },
        Datatype::String => {
            let r = String::from_str("string");
            proof {
                reveal_strlit("string");
                assert(r@ =~= type_text(d));
            }
            r
        },
        Datatype::Bool => {
            let r = String::from_str("bool");
            proof {
                reveal_strlit("bool");
                assert(r@ =~= type_text(d));
            }
            r
        },
        Datatype::Nil => {
            let r = String::from_str("nil");
            proof {
                reveal_strlit("nil");
                assert(r@ =~= type_text(d));
            }
            r
        },
        Datatype::List => {
            let r = String::from_str("list");
            proof {
                reveal_strlit("list");
                assert(r@ =~= type_text(d));
            }
            r
        },
        Datatype::Identifier => {
            let r = String::from_str("identifier");
            proof {
                reveal_strlit("identifier");
                assert(r@ =~= type_text(d));
            }
            r
        },
        Datatype::Expression => {
            let r = String::from_str("expression");
            proof {
                reveal_strlit("expression");
                assert(r@ =~= type_text(d));
            }
            r
        },
        Datatype::Function => {
            let r = String::from_str("function");
            proof {
                reveal_strlit("function");
                assert(r@ =~= type_text(d));
            }
            r
        },
    }
}

/// Number coercion on a resolved value: a number stays itself, numeric
/// text is read as a number (overflow reported apart), anything else is a
/// type mismatch.
pub open spec fn value_as_number(v: EntityV) -> Result<Number, ErrV> {
    match v {
        EntityV::Num(n) => Ok(n),
        EntityV::Str(s) => match num_of_text(s) {
            NumParse::Val(n) => Ok(n),
            NumParse::TooLarge => Err(ErrV::NumberOverflow),
            NumParse::Invalid => Err(
                ErrV::TypeMismatch { expected: Datatype::Number, found: Datatype::String },
            ),
        },
        _ => Err(ErrV::TypeMismatch { expected: Datatype::Number, found: type_of(v) }),
    }
}

/// Number coercion on a resolved value (see [`value_as_number`]).
pub fn to_number(v: &Value) -> (r: Result<Number, RuntimeError>)
    ensures
        match (r, value_as_number(v@)) {
            (Ok(a), Ok(b)) => a == b,
            (Err(a), Err(b)) => a@ == b,
            _ => false,
        },
{
    match v {
        Value::Primitive(p) => match p {
            Primitive::Number(n) => Ok(*n),
            Primitive::String(s) => match parse_num_str(s.as_str()) {
                NumParse::Val(n) => Ok(n),
                NumParse::TooLarge => Err(RuntimeError::NumberOverflow),
                NumParse::Invalid => Err(
                    RuntimeError::TypeMismatch {
                        expected: Datatype::Number,
                        found: Datatype::String,
                    },
                ),
            },
            _ => {
                let found = p.as_type();
                Err(RuntimeError::TypeMismatch { expected: Datatype::Number, found })
            },
        },
        Value::List(_) => Err(
            RuntimeError::TypeMismatch { expected: Datatype::Number, found: Datatype::List },
        ),
    }
}

impl Primitive {
    /// This primitive as a number: numbers stay themselves, numeric text is
    /// read as a number, anything else is a type mismatch.
    pub fn as_number(&self) -> (r: Result<Number, RuntimeError>)
        ensures
            match (r, value_as_number(self@)) {
                (Ok(a), Ok(b)) => a == b,
                (Err(a), Err(b)) => a@ == b,
                _ => false,
            },
    {
        match self {
            Primitive::Number(n) => Ok(*n),
            Primitive::String(t) => match parse_num_str(t.as_str()) {
                NumParse::Val(n) => Ok(n),
                NumParse::TooLarge => Err(RuntimeError::NumberOverflow),
                NumParse::Invalid => Err(
                    RuntimeError::TypeMismatch {
                        expected: Datatype::Number,
                        found: Datatype::String,
                    },
                ),
            },
            _ => {
                let found = self.as_type();
                Err(RuntimeError::TypeMismatch { expected: Datatype::Number, found })
            },
        }
    }

    /// This primitive coerced to a boolean (see [`truthy`]).
    pub fn as_bool(&self) -> (r: bool)
        ensures
            r == truthy(self@),
    {
        match self {
            Primitive::Number(n) => n.mant != 0,
            Primitive::String(t) => t.as_str().unicode_len() > 0,
            Primitive::Bool(b) => *b,
            Primitive::Nil => false,
        }
    }
}

/// Boolean coercion on a resolved value: a non-zero number, a non-empty
/// text and a non-empty list are true; nil is false.
pub open spec fn truthy(v: EntityV) -> bool {
    match v {
        EntityV::Num(n) => n.mant != 0,
        EntityV::Str(s) => s.len() > 0,
        EntityV::Bool(b) => b,
        EntityV::List(items) => items.len() > 0,
        _ => false,
    }
}

/// Boolean coercion on a resolved value (see [`truthy`]).
pub fn to_bool(v: &Value) -> (r: bool)
    ensures
        r == truthy(v@),
{
    match v {
        Value::Primitive(p) => match p {
            Primitive::Number(n) => n.mant != 0,
            Primitive::String(s) => {
                let l = s.as_str().unicode_len();
                l > 0
            },
            Primitive::Bool(b) => *b,
            Primitive::Nil => false,
        },
        Value::List(l) => {
            proof {
                lemma_list_view(*l);
            }
            l.0.len() > 0
        },
    }
}

/// Lexicographic order on texts, by unicode scalar value.
pub open spec fn text_lt(a: Seq<char>, b: Seq<char>) -> bool
    decreases a.len(),
{
    if b.len() == 0 {
        false
    } else if a.len() == 0 {
        true
    } else if a[0] != b[0] {
        (a[0] as u32) < (b[0] as u32)
    } else {
        text_lt(a.skip(1), b.skip(1))
    }
}

/// Lexicographic order on texts (see [`text_lt`]).
pub fn str_lt(a: &str, b: &str) -> (r: bool)
    ensures
        r == text_lt(a@, b@),
{
    let na = a.unicode_len();
    let nb = b.unicode_len();
    let mut i: usize = 0;
    proof {
        assert(a@.skip(0) =~= a@);
        assert(b@.skip(0) =~= b@);
    }
    loop
        invariant
            i <= na,
            i <= nb,
            na == a@.len(),
            nb == b@.len(),
            text_lt(a@, b@) == text_lt(a@.skip(i as int), b@.skip(i as int)),
        ensures
            text_lt(a@, b@) == ({
                if i == nb {
                    false
                } else if i == na {
                    true
                } else {
                    (a@[i as int] as u32) < (b@[i as int] as u32)
                }
            }),
            i <= na && i <= nb,
            i < na && i < nb ==> a@[i as int] != b@[i as int],
        decreases na - i,
    {
        let ghost ra = a@.skip(i as int);
        let ghost rb = b@.skip(i as int);
        if i == nb || i == na {
            proof {
                assert(text_lt(ra, rb) == if i == nb {
                    false
                } else {
                    true
                });
            }
            break ;
        }
        let ca = a.get_char(i);
        let cb = b.get_char(i);
        if ca != cb {
            proof {
                assert(ra[0] == a@[i as int] && rb[0] == b@[i as int]);
            }
            break ;
        }
        proof {
            assert(ra[0] == rb[0]);
            assert(ra.skip(1) =~= a@.skip(i as int + 1));
            assert(rb.skip(1) =~= b@.skip(i as int + 1));
        }
        i = i + 1;
    }
    if i == nb {
        false
    } else if i == na {
        true
    } else {
        let ca = a.get_char(i);
        let cb = b.get_char(i);
        (ca as u32) < (cb as u32)
    }
}

/// The relation a comparison builtin applies pairwise.
#[derive(Clone, Copy, Debug, PartialEq, Eq, Structural)]
pub enum Relation {
    Eq,
    Ne,
    Lt,
    Gt,
    Le,
    Ge,
}

/// Strict order on resolved values: numbers by value, texts
/// lexicographically, false before true; values of any other or of mixed
/// kinds are incomparable.
pub open spec fn ord_lt(a: EntityV, b: EntityV) -> bool {
    match a {
        EntityV::Num(x) => match b {
            EntityV::Num(y) => lt_spec(x, y),
            _ => false,
        },
        EntityV::Str(x) => match b {
            EntityV::Str(y) => text_lt(x, y),
            _ => false,
        },
        EntityV::Bool(x) => match b {
            EntityV::Bool(y) => !x && y,
            _ => false,
        },
        _ => false,
    }
}

/// Non-strict order on resolved values, on the same pairs as [`ord_lt`].
pub open spec fn ord_le(a: EntityV, b: EntityV) -> bool {
    match a {
        EntityV::Num(x) => match b {
            EntityV::Num(y) => le_spec(x, y),
            _ => false,
        },
        EntityV::Str(x) => match b {
            EntityV::Str(y) => text_lt(x, y) || x == y,
            _ => false,
        },
        EntityV::Bool(x) => match b {
            EntityV::Bool(y) => !x || y,
            _ => false,
        },
        _ => false,
    }
}

/// Whether `rel` holds of the resolved pair: equality is structural over
/// the ghost models, order is [`ord_lt`]/[`ord_le`].
pub open spec fn rel_holds(rel: Relation, a: EntityV, b: EntityV) -> bool {
    match rel {
        Relation::Eq => a == b,
        Relation::Ne => a != b,
        Relation::Lt => ord_lt(a, b),
        Relation::Gt => ord_lt(b, a),
        Relation::Le => ord_le(a, b),
        Relation::Ge => ord_le(b, a),
    }
}

/// Whether `rel` holds of the resolved pair (see [`rel_holds`]).
pub fn rel_test(rel: Relation, a: &Value, b: &Value) -> (r: bool)
    ensures
        r == rel_holds(rel, a@, b@),
{
    match rel {
        Relation::Eq => a.deep_eq(b),
        Relation::Ne => !a.deep_eq(b),
        Relation::Lt => value_lt(a, b),
        Relation::Gt => value_lt(b, a),
        Relation::Le => value_le(a, b),
        Relation::Ge => value_le(b, a),
    }
}

/// Strict order on resolved values (see [`ord_lt`]).
fn value_lt(a: &Value, b: &Value) -> (r: bool)
    ensures
        r == ord_lt(a@, b@),
{
    match a {
        Value::Primitive(pa) => match pa {
            Primitive::Number(x) => match b {
                Value::Primitive(pb) => match pb {
                    Primitive::Number(y) => x.lt(*y),
                    _ => false,
                },
                _ => false,
            },
            Primitive::String(x) => match b {
                Value::Primitive(pb) => match pb {
                    Primitive::String(y) => str_lt(x.as_str(), y.as_str()),
                    _ => false,
                },
                _ => false,
            },
            Primitive::Bool(x) => match b {
                Value::Primitive(pb) => match pb {
                    Primitive::Bool(y) => !*x && *y,
                    _ => false,
                },
                _ => false,
            },
            Primitive::Nil => false,
        },
        Value::List(_) => false,
    }
}

/// Non-strict order on resolved values (see [`ord_le`]).
fn value_le(a: &Value, b: &Value) -> (r: bool)
    ensures
        r == ord_le(a@, b@),
{
    match a {
        Value::Primitive(pa) => match pa {
            Primitive::Number(x) => match b {
                Value::Primitive(pb) => match pb {
                    Primitive::Number(y) => x.le(*y),
                    _ => false,
                },
                _ => false,
            },
            Primitive::String(x) => match b {
                Value::Primitive(pb) => match pb {
                    Primitive::String(y) => str_lt(x.as_str(), y.as_str()) || *x == *y,
                    _ => false,
                },
                _ => false,
            },
            Primitive::Bool(x) => match b {
                Value::Primitive(pb) => match pb {
                    Primitive::Bool(y) => !*x || *y,
                    _ => false,
                },
                _ => false,
            },
            Primitive::Nil => false,
        },
        Value::List(_) => false,
    }
}

/// What `(var name value)` does: `name` must be an identifier literal, the
/// value operand is resolved, stored under the name (overwriting any prior
/// binding) and returned.
pub open spec fn eval_var(args: Seq<EntityV>, st: StateV, fuel: nat) -> (
    Result<EntityV, ErrV>,
    StateV,
)
    decreases fuel, seq_size_from(args, 0), 3int,
    via eval_var_dec
{
    if args.len() != 2 {
        (Err(ErrV::InvalidArgCount { expected: 2, got: args.len() }), st)
    } else {
        match args[0] {
            EntityV::Id(name) => {
                let (r, st1) = eval_entity(args[1], st, fuel);
                match r {
                    Err(e) => (Err(e), st1),
                    Ok(v) => (
                        Ok(v),
                        StateV { vars: st1.vars.insert(name, v), funcs: st1.funcs, out: st1.out },
                    ),
                }
            },
            _ => (
                Err(ErrV::TypeMismatch { expected: Datatype::Identifier, found: type_of(args[0]) }),
                st,
            ),
        }
    }
}

#[via_fn]
proof fn eval_var_dec(args: Seq<EntityV>, st: StateV, fuel: nat) {
    if args.len() == 2 {
        lemma_seq_size_elem(args, 0, 0);
        lemma_seq_size_elem(args, 0, 1);
        crate::entities::lemma_ent_size_pos(args[0]);
    }
}

/// What `(func name [params] body)` does: `name` an identifier literal,
/// the parameter list a list literal of identifiers, the body an
/// expression stored unevaluated; the declaration overwrites any prior one
/// of the same name and yields nil.
pub open spec fn eval_func(args: Seq<EntityV>, st: StateV) -> (Result<EntityV, ErrV>, StateV) {
    if args.len() != 3 {
        (Err(ErrV::InvalidArgCount { expected: 3, got: args.len() }), st)
    } else {
        match args[0] {
            EntityV::Id(name) => match args[1] {
                EntityV::List(items) => match args[2] {
                    EntityV::Call(body) => match params_of(items) {
                        Some(p) => (
                            Ok(EntityV::Nil),
                            StateV {
                                vars: st.vars,
                                funcs: st.funcs.insert(name, FunV { params: p, body }),
                                out: st.out,
                            },
                        ),
                        None => (
                            Err(
                                ErrV::TypeMismatch {
                                    expected: Datatype::Identifier,
                                    found: type_of(first_non_id(items)),
                                },
                            ),
                            st,
                        ),
                    },
                    _ => (
                        Err(
                            ErrV::TypeMismatch {
                                expected: Datatype::Expression,
                                found: type_of(args[2]),
                            },
                        ),
                        st,
                    ),
                },
                _ => (
                    Err(ErrV::TypeMismatch { expected: Datatype::List, found: type_of(args[1]) }),
                    st,
                ),
            },
            _ => (
                Err(ErrV::TypeMismatch { expected: Datatype::Identifier, found: type_of(args[0]) }),
                st,
            ),
        }
    }
}

/// What `(typeof x)` does: an identifier reports the type of the variable
/// it names, or `function` for a function or builtin name, or fails as
/// undefined; an expression is evaluated and its result's type reported;
/// any other entity reports its own type.
pub open spec fn eval_typeof(args: Seq<EntityV>, st: StateV, fuel: nat) -> (
    Result<EntityV, ErrV>,
    StateV,
)
    decreases fuel, seq_size_from(args, 0), 3int,
    via eval_typeof_dec
{
    if args.len() != 1 {
        (Err(ErrV::InvalidArgCount { expected: 1, got: args.len() }), st)
    } else {
        match args[0] {
            EntityV::Id(name) => if st.vars.contains_key(name) {
                (Ok(EntityV::Str(type_text(type_of(st.vars[name])))), st)
            } else if st.funcs.contains_key(name) || is_builtin(name) {
                (Ok(EntityV::Str(type_text(Datatype::Function))), st)
            } else {
                (Err(ErrV::UndefinedFunction(name)), st)
            },
            EntityV::Call(x) => {
                let (r, st1) = eval_call(x, st, fuel);
                match r {
                    Err(e) => (Err(e), st1),
                    Ok(v) => (Ok(EntityV::Str(type_text(type_of(v)))), st1),
                }
            },
            _ => (Ok(EntityV::Str(type_text(type_of(args[0])))), st),
        }
    }
}

#[via_fn]
proof fn eval_typeof_dec(args: Seq<EntityV>, st: StateV, fuel: nat) {
    if args.len() >= 1 {
        lemma_seq_size_elem(args, 0, 0);
        crate::entities::lemma_ent_size_pos(args[0]);
    }
}

/// What `(if cond then else?)` does: the condition is coerced to a
/// boolean, then exactly one branch is evaluated (nil for a missing else);
/// the untaken branch is never evaluated.
pub open spec fn eval_if(args: Seq<EntityV>, st: StateV, fuel: nat) -> (
    Result<EntityV, ErrV>,
    StateV,
)
    decreases fuel, seq_size_from(args, 0), 3int,
    via eval_if_dec
{
    if args.len() < 2 {
        (Err(ErrV::NotEnoughArgs { min: 2 }), st)
    } else if args.len() > 3 {
        (Err(ErrV::TooMuchArgs { max: 3 }), st)
    } else {
        let (r0, st0) = eval_entity(args[0], st, fuel);
        match r0 {
            Err(e) => (Err(e), st0),
            Ok(c) => if truthy(c) {
                eval_entity(args[1], st0, fuel)
            } else if args.len() == 3 {
                eval_entity(args[2], st0, fuel)
            } else {
                (Ok(EntityV::Nil), st0)
            },
        }
    }
}

#[via_fn]
proof fn eval_if_dec(args: Seq<EntityV>, st: StateV, fuel: nat) {
    if 2 <= args.len() {
        lemma_seq_size_elem(args, 0, 0);
        lemma_seq_size_elem(args, 0, 1);
        crate::entities::lemma_ent_size_pos(args[0]);
        if args.len() == 3 {
            lemma_seq_size_elem(args, 0, 2);
        }
    }
}

/// Folds `add` or `mul` (when `mulp`) over the operands from `i` on, each
/// resolved and coerced to a number; exact arithmetic, overflow reported.
pub open spec fn eval_add_fold(
    args: Seq<EntityV>,
    i: int,
    acc: Number,
    mulp: bool,
    st: StateV,
    fuel: nat,
) -> (Result<EntityV, ErrV>, StateV)
    decreases fuel, seq_size_from(args, i), 2int,
    via eval_add_fold_dec
{
    if i < 0 || i >= args.len() {
        (Ok(EntityV::Num(acc)), st)
    } else {
        let (r, st1) = eval_entity(args[i], st, fuel);
        match r {
            Err(e) => (Err(e), st1),
            Ok(v) => match value_as_number(v) {
                Err(e) => (Err(e), st1),
                Ok(n) => {
                    let folded = if mulp {
                        mul_spec(acc, n)
                    } else {
                        add_spec(acc, n)
                    };
                    match folded {
                        None => (Err(ErrV::NumberOverflow), st1),
                        Some(acc2) => eval_add_fold(args, i + 1, acc2, mulp, st1, fuel),
                    }
                },
            },
        }
    }
}

#[via_fn]
proof fn eval_add_fold_dec(
    args: Seq<EntityV>,
    i: int,
    acc: Number,
    mulp: bool,
    st: StateV,
    fuel: nat,
) {
    if 0 <= i < args.len() {
        lemma_seq_size_elem(args, i, i);
        crate::entities::lemma_ent_size_pos(args[i]);
    }
}

/// Folds `div` over the operands from `i` on: each divisor is resolved and
/// coerced to a number; a zero divisor is an error, quotients are
/// truncated at [`crate::number::DIV_SCALE`] fraction digits.
pub open spec fn eval_div_fold(args: Seq<EntityV>, i: int, acc: Number, st: StateV, fuel: nat) -> (
    Result<EntityV, ErrV>,
    StateV,
)
    decreases fuel, seq_size_from(args, i), 2int,
    via eval_div_fold_dec
{
    if i < 0 || i >= args.len() {
        (Ok(EntityV::Num(acc)), st)
    } else {
        let (r, st1) = eval_entity(args[i], st, fuel);
        match r {
            Err(e) => (Err(e), st1),
            Ok(v) => match value_as_number(v) {
                Err(e) => (Err(e), st1),
                Ok(n) => if n.mant == 0 {
                    (Err(ErrV::DivisionByZero), st1)
                } else {
                    match div_spec(acc, n) {
                        None => (Err(ErrV::NumberOverflow), st1),
                        Some(acc2) => eval_div_fold(args, i + 1, acc2, st1, fuel),
                    }
                },
            },
        }
    }
}

#[via_fn]
proof fn eval_div_fold_dec(args: Seq<EntityV>, i: int, acc: Number, st: StateV, fuel: nat) {
    if 0 <= i < args.len() {
        lemma_seq_size_elem(args, i, i);
        crate::entities::lemma_ent_size_pos(args[i]);
    }
}

/// Folds `concat` over the operands from `i` on: each is resolved and
/// rendered as text; rendering never fails.
pub open spec fn eval_concat_fold(
    args: Seq<EntityV>,
    i: int,
    acc: Seq<char>,
    st: StateV,
    fuel: nat,
) -> (Result<EntityV, ErrV>, StateV)
    decreases fuel, seq_size_from(args, i), 2int,
    via eval_concat_fold_dec
{
    if i < 0 || i >= args.len() {
        (Ok(EntityV::Str(acc)), st)
    } else {
        let (r, st1) = eval_entity(args[i], st, fuel);
        match r {
            Err(e) => (Err(e), st1),
            Ok(v) => eval_concat_fold(args, i + 1, acc + render_text(v), st1, fuel),
        }
    }
}

#[via_fn]
proof fn eval_concat_fold_dec(args: Seq<EntityV>, i: int, acc: Seq<char>, st: StateV, fuel: nat) {
    if 0 <= i < args.len() {
        lemma_seq_size_elem(args, i, i);
        crate::entities::lemma_ent_size_pos(args[i]);
    }
}

/// Folds `print` over the operands from `i` on: each is resolved and
/// rendered, the renderings are joined with one space, backslash escapes
/// are interpreted, and the text is appended to the output log; yields
/// nil.
pub open spec fn eval_print_fold(
    args: Seq<EntityV>,
    i: int,
    acc: Seq<char>,
    st: StateV,
    fuel: nat,
) -> (Result<EntityV, ErrV>, StateV)
    decreases fuel, seq_size_from(args, i), 2int,
    via eval_print_fold_dec
{
    if i < 0 || i >= args.len() {
        (
            Ok(EntityV::Nil),
            StateV { vars: st.vars, funcs: st.funcs, out: st.out.push(unescape_spec(acc)) },
        )
    } else {
        let (r, st1) = eval_entity(args[i], st, fuel);
        match r {
            Err(e) => (Err(e), st1),
            Ok(v) => {
                let acc2 = if i == 0 {
                    render_text(v)
                } else {
                    acc + seq![' '] + render_text(v)
                };
                eval_print_fold(args, i + 1, acc2, st1, fuel)
            },
        }
    }
}

#[via_fn]
proof fn eval_print_fold_dec(args: Seq<EntityV>, i: int, acc: Seq<char>, st: StateV, fuel: nat) {
    if 0 <= i < args.len() {
        lemma_seq_size_elem(args, i, i);
        crate::entities::lemma_ent_size_pos(args[i]);
    }
}

/// Compares the base against the operands from `i` on under `rel`,
/// resolving each; false short-circuits (later operands are then not
/// evaluated), exhaustion yields true.
pub open spec fn eval_cmp_fold(
    rel: Relation,
    base: EntityV,
    args: Seq<EntityV>,
    i: int,
    st: StateV,
    fuel: nat,
) -> (Result<EntityV, ErrV>, StateV)
    decreases fuel, seq_size_from(args, i), 2int,
    via eval_cmp_fold_dec
{
    if i < 0 || i >= args.len() {
        (Ok(EntityV::Bool(true)), st)
    } else {
        let (r, st1) = eval_entity(args[i], st, fuel);
        match r {
            Err(e) => (Err(e), st1),
            Ok(v) => if !rel_holds(rel, base, v) {
                (Ok(EntityV::Bool(false)), st1)
            } else {
                eval_cmp_fold(rel, base, args, i + 1, st1, fuel)
            },
        }
    }
}

#[via_fn]
proof fn eval_cmp_fold_dec(
    rel: Relation,
    base: EntityV,
    args: Seq<EntityV>,
    i: int,
    st: StateV,
    fuel: nat,
) {
    if 0 <= i < args.len() {
        lemma_seq_size_elem(args, i, i);
        crate::entities::lemma_ent_size_pos(args[i]);
    }
}

/// The `var` builtin (see [`eval_var`]): declares or overwrites a
/// variable and returns the stored value.
pub fn create_variable(tokens: List, scope: &mut Scope, out: &mut Vec<String>, fuel: u64) -> (r:
    Result<Value, RuntimeError>)
    ensures
        ({
            let (res, st2) = eval_var(
                tokens@,
                state_of(*old(scope), out_view(*old(out))),
                fuel as nat,
            );
            &&& state_of(*final(scope), out_view(*final(out))) == st2
            &&& match (r, res) {
                (Ok(v), Ok(ev)) => v@ == ev,
                (Err(e), Err(ee)) => e@ == ee,
                _ => false,
            }
        }),
    decreases fuel, seq_size_from(tokens@, 0), 3int,
{
    proof {
        lemma_list_view(tokens);
    }
    if tokens.0.len() != 2 {
        return Err(RuntimeError::InvalidArgCount { expected: 2, got: tokens.0.len() });
    }
    match &tokens.0[0] {
        Entity::Identifier(id) => {
            proof {
                lemma_seq_size_elem(tokens@, 0, 1);
            }
            let v = match tokens.0[1].to_value(scope, out, fuel) {
                Ok(v) => v,
                Err(e) => {
                    return Err(e);
                },
            };
            let stored = v.duplicate();
            set_variable(scope, id.0.as_str(), stored);
            Ok(v)
        },
        e => {
            let found = e.as_type();
            Err(RuntimeError::TypeMismatch { expected: Datatype::Identifier, found })
        },
    }
}

/// The `func` builtin (see [`eval_func`]): declares a function, storing
/// its body unevaluated, and returns nil.
pub fn create_function(tokens: List, scope: &mut Scope, out: &mut Vec<String>) -> (r: Result<
    Value,
    RuntimeError,
>)
    ensures
        ({
            let (res, st2) = eval_func(tokens@, state_of(*old(scope), out_view(*old(out))));
            &&& state_of(*final(scope), out_view(*final(out))) == st2
            &&& match (r, res) {
                (Ok(v), Ok(ev)) => v@ == ev,
                (Err(e), Err(ee)) => e@ == ee,
                _ => false,
            }
        }),
{
    proof {
        lemma_list_view(tokens);
    }
    let mut t = tokens;
    if t.0.len() != 3 {
        return Err(RuntimeError::InvalidArgCount { expected: 3, got: t.0.len() });
    }
    let a0 = t.get();
    let a1 = t.get();
    let a2 = t.get();
    let id = match a0 {
        Entity::Identifier(id) => id,
        e => {
            let found = e.as_type();
            return Err(RuntimeError::TypeMismatch { expected: Datatype::Identifier, found });
        },
    };
    let arg_names = match a1 {
        Entity::Value(Value::List(l)) => l,
        e => {
            let found = e.as_type();
            return Err(RuntimeError::TypeMismatch { expected: Datatype::List, found });
        },
    };
    let body = match a2 {
        Entity::Expression(x) => x,
        e => {
            let found = e.as_type();
            return Err(RuntimeError::TypeMismatch { expected: Datatype::Expression, found });
        },
    };
    match crate::scope::set_function(scope, id.0.as_str(), arg_names, body) {
        Ok(_) => Ok(Value::Primitive(Primitive::Nil)),
        Err(e) => Err(e),
    }
}

/// The `typeof` builtin (see [`eval_typeof`]): reports an entity's
/// runtime type as text.
pub fn typeof_(tokens: List, scope: &mut Scope, out: &mut Vec<String>, fuel: u64) -> (r: Result<
    Value,
    RuntimeError,
>)
    ensures
        ({
            let (res, st2) = eval_typeof(
                tokens@,
                state_of(*old(scope), out_view(*old(out))),
                fuel as nat,
            );
            &&& state_of(*final(scope), out_view(*final(out))) == st2
            &&& match (r, res) {
                (Ok(v), Ok(ev)) => v@ == ev,
                (Err(e), Err(ee)) => e@ == ee,
                _ => false,
            }
        }),
    decreases fuel, seq_size_from(tokens@, 0), 3int,
{
    proof {
        lemma_list_view(tokens);
    }
    if tokens.0.len() != 1 {
        return Err(RuntimeError::InvalidArgCount { expected: 1, got: tokens.0.len() });
    }
    match &tokens.0[0] {
        Entity::Identifier(id) => {
            match crate::scope::lookup_variable(scope, id.0.as_str()) {
                Some(v) => {
                    let d = v.as_type();
                    Ok(Value::Primitive(Primitive::String(type_string(d))))
                },
                None => {
                    let declared = match crate::scope::get_function(scope, id.0.as_str()) {
                        Some(_) => true,
                        None => false,
                    };
                    if declared || builtin_exists(id.0.as_str()) {
                        Ok(Value::Primitive(Primitive::String(type_string(Datatype::Function))))
                    } else {
                        Err(RuntimeError::UndefinedFunction(id.0.clone()))
                    }
                },
            }
        },
        Entity::Expression(x) => {
            proof {
                lemma_seq_size_elem(tokens@, 0, 0);
            }
            match crate::executer::execute(x, scope, out, fuel) {
                Ok(v) => {
                    let d = v.as_type();
                    Ok(Value::Primitive(Primitive::String(type_string(d))))
                },
                Err(e) => Err(e),
            }
        },
        e => {
            let d = e.as_type();
            Ok(Value::Primitive(Primitive::String(type_string(d))))
        },
    }
}

/// The `if` builtin (see [`eval_if`]): coerces the condition to a boolean
/// and evaluates exactly one branch.
pub fn if_then_else(tokens: List, scope: &mut Scope, out: &mut Vec<String>, fuel: u64) -> (r:
    Result<Value, RuntimeError>)
    ensures
        ({
            let (res, st2) = eval_if(
                tokens@,
                state_of(*old(scope), out_view(*old(out))),
                fuel as nat,
            );
            &&& state_of(*final(scope), out_view(*final(out))) == st2
            &&& match (r, res) {
                (Ok(v), Ok(ev)) => v@ == ev,
                (Err(e), Err(ee)) => e@ == ee,
                _ => false,
            }
        }),
    decreases fuel, seq_size_from(tokens@, 0), 3int,
{
    proof {
        lemma_list_view(tokens);
    }
    let n = tokens.0.len();
    if n < 2 {
        return Err(RuntimeError::NotEnoughArgs { min: 2 });
    }
    if n > 3 {
        return Err(RuntimeError::TooMuchArgs { max: 3 });
    }
    proof {
        lemma_seq_size_elem(tokens@, 0, 0);
        lemma_seq_size_elem(tokens@, 0, 1);
        if n == 3 {
            lemma_seq_size_elem(tokens@, 0, 2);
        }
    }
    let c = match tokens.0[0].to_value(scope, out, fuel) {
        Ok(v) => v,
        Err(e) => {
            return Err(e);
        },
    };
    if to_bool(&c) {
        tokens.0[1].to_value(scope, out, fuel)
    } else if n == 3 {
        tokens.0[2].to_value(scope, out, fuel)
    } else {
        Ok(Value::Primitive(Primitive::Nil))
    }
}

/// Folds `add` or `mul` over the operands from `i` on (see
/// [`eval_add_fold`]).
fn add_fold(
    args: &List,
    i: usize,
    acc: Number,
    mulp: bool,
    scope: &mut Scope,
    out: &mut Vec<String>,
    fuel: u64,
) -> (r: Result<Value, RuntimeError>)
    requires
        i <= args.0@.len(),
    ensures
        ({
            let (res, st2) = eval_add_fold(
                args@,
                i as int,
                acc,
                mulp,
                state_of(*old(scope), out_view(*old(out))),
                fuel as nat,
            );
            &&& state_of(*final(scope), out_view(*final(out))) == st2
            &&& match (r, res) {
                (Ok(v), Ok(ev)) => v@ == ev,
                (Err(e), Err(ee)) => e@ == ee,
                _ => false,
            }
        }),
    decreases fuel, seq_size_from(args@, i as int), 2int,
{
    proof {
        lemma_list_view(*args);
    }
    if i == args.0.len() {
        return Ok(Value::Primitive(Primitive::Number(acc)));
    }
    proof {
        lemma_seq_size_elem(args@, i as int, i as int);
    }
    let v = match args.0[i].to_value(scope, out, fuel) {
        Ok(v) => v,
        Err(e) => {
            return Err(e);
        },
    };
    let n = match to_number(&v) {
        Ok(n) => n,
        Err(e) => {
            return Err(e);
        },
    };
    let folded = if mulp {
        acc.mul(n)
    } else {
        acc.add(n)
    };
    match folded {
        None => Err(RuntimeError::NumberOverflow),
        Some(acc2) => add_fold(args, i + 1, acc2, mulp, scope, out, fuel),
    }
}

/// The `add` builtin: the exact sum of the operands, 0 for none.
pub fn add(tokens: List, scope: &mut Scope, out: &mut Vec<String>, fuel: u64) -> (r: Result<
    Value,
    RuntimeError,
>)
    ensures
        ({
            let (res, st2) = eval_add_fold(
                tokens@,
                0,
                Number { neg: false, mant: 0, scale: 0 },
                false,
                state_of(*old(scope), out_view(*old(out))),
                fuel as nat,
            );
            &&& state_of(*final(scope), out_view(*final(out))) == st2
            &&& match (r, res) {
                (Ok(v), Ok(ev)) => v@ == ev,
                (Err(e), Err(ee)) => e@ == ee,
                _ => false,
            }
        }),
    decreases fuel, seq_size_from(tokens@, 0), 3int,
{
    add_fold(&tokens, 0, Number::zero(), false, scope, out, fuel)
}

/// The `mul` builtin: the exact product of the operands, 1 for none.
pub fn mul(tokens: List, scope: &mut Scope, out: &mut Vec<String>, fuel: u64) -> (r: Result<
    Value,
    RuntimeError,
>)
    ensures
        ({
            let (res, st2) = eval_add_fold(
                tokens@,
                0,
                Number { neg: false, mant: 1, scale: 0 },
                true,
                state_of(*old(scope), out_view(*old(out))),
                fuel as nat,
            );
            &&& state_of(*final(scope), out_view(*final(out))) == st2
            &&& match (r, res) {
                (Ok(v), Ok(ev)) => v@ == ev,
                (Err(e), Err(ee)) => e@ == ee,
                _ => false,
            }
        }),
    decreases fuel, seq_size_from(tokens@, 0), 3int,
{
    add_fold(&tokens, 0, Number::one(), true, scope, out, fuel)
}

/// Folds `sub` over the operands from `i` on (see [`eval_sub_fold`]).
fn sub_fold(
    args: &List,
    i: usize,
    acc: Number,
    scope: &mut Scope,
    out: &mut Vec<String>,
    fuel: u64,
) -> (r: Result<Value, RuntimeError>)
    requires
        i <= args.0@.len(),
    ensures
        ({
            let (res, st2) = crate::executer::eval_sub_fold(
                args@,
                i as int,
                acc,
                state_of(*old(scope), out_view(*old(out))),
                fuel as nat,
            );
            &&& state_of(*final(scope), out_view(*final(out))) == st2
            &&& match (r, res) {
                (Ok(v), Ok(ev)) => v@ == ev,
                (Err(e), Err(ee)) => e@ == ee,
                _ => false,
            }
        }),
    decreases fuel, seq_size_from(args@, i as int), 2int,
{
    proof {
        lemma_list_view(*args);
    }
    if i == args.0.len() {
        return Ok(Value::Primitive(Primitive::Number(acc)));
    }
    proof {
        lemma_seq_size_elem(args@, i as int, i as int);
    }
    let v = match args.0[i].to_value(scope, out, fuel) {
        Ok(v) => v,
        Err(e) => {
            return Err(e);
        },
    };
    let n = match to_number(&v) {
        Ok(n) => n,
        Err(e) => {
            return Err(e);
        },
    };
    match acc.sub(n) {
        None => Err(RuntimeError::NumberOverflow),
        Some(acc2) => sub_fold(args, i + 1, acc2, scope, out, fuel),
    }
}

/// Folds `div` over the operands from `i` on (see [`eval_div_fold`]).
fn div_fold(
    args: &List,
    i: usize,
    acc: Number,
    scope: &mut Scope,
    out: &mut Vec<String>,
    fuel: u64,
) -> (r: Result<Value, RuntimeError>)
    requires
        i <= args.0@.len(),
    ensures
        ({
            let (res, st2) = eval_div_fold(
                args@,
                i as int,
                acc,
                state_of(*old(scope), out_view(*old(out))),
                fuel as nat,
            );
            &&& state_of(*final(scope), out_view(*final(out))) == st2
            &&& match (r, res) {
                (Ok(v), Ok(ev)) => v@ == ev,
                (Err(e), Err(ee)) => e@ == ee,
                _ => false,
            }
        }),
    decreases fuel, seq_size_from(args@, i as int), 2int,
{
    proof {
        lemma_list_view(*args);
    }
    if i == args.0.len() {
        return Ok(Value::Primitive(Primitive::Number(acc)));
    }
    proof {
        lemma_seq_size_elem(args@, i as int, i as int);
    }
    let v = match args.0[i].to_value(scope, out, fuel) {
        Ok(v) => v,
        Err(e) => {
            return Err(e);
        },
    };
    let n = match to_number(&v) {
        Ok(n) => n,
        Err(e) => {
            return Err(e);
        },
    };
    if n.is_zero() {
        return Err(RuntimeError::DivisionByZero);
    }
    match acc.div(n) {
        None => Err(RuntimeError::NumberOverflow),
        Some(acc2) => div_fold(args, i + 1, acc2, scope, out, fuel),
    }
}

/// The `sub` builtin: the base operand minus each further operand, in
/// order; at least two operands.
pub fn sub(tokens: List, scope: &mut Scope, out: &mut Vec<String>, fuel: u64) -> (r: Result<
    Value,
    RuntimeError,
>)
    ensures
        ({
            let (res, st2) = crate::executer::eval_base_fold(
                tokens@,
                state_of(*old(scope), out_view(*old(out))),
                fuel as nat,
                false,
            );
            &&& state_of(*final(scope), out_view(*final(out))) == st2
            &&& match (r, res) {
                (Ok(v), Ok(ev)) => v@ == ev,
                (Err(e), Err(ee)) => e@ == ee,
                _ => false,
            }
        }),
    decreases fuel, seq_size_from(tokens@, 0), 4int,
{
    proof {
        lemma_list_view(tokens);
    }
    if tokens.0.len() < 2 {
        return Err(RuntimeError::NotEnoughArgs { min: 2 });
    }
    proof {
        lemma_seq_size_elem(tokens@, 0, 0);
        crate::entities::lemma_ent_size_pos(tokens@[0]);
    }
    let v = match tokens.0[0].to_value(scope, out, fuel) {
        Ok(v) => v,
        Err(e) => {
            return Err(e);
        },
    };
    let base = match to_number(&v) {
        Ok(n) => n,
        Err(e) => {
            return Err(e);
        },
    };
    sub_fold(&tokens, 1, base, scope, out, fuel)
}

/// The `div` builtin: the base operand divided by each further operand,
/// in order; at least two operands.
pub fn div(tokens: List, scope: &mut Scope, out: &mut Vec<String>, fuel: u64) -> (r: Result<
    Value,
    RuntimeError,
>)
    ensures
        ({
            let (res, st2) = crate::executer::eval_base_fold(
                tokens@,
                state_of(*old(scope), out_view(*old(out))),
                fuel as nat,
                true,
            );
            &&& state_of(*final(scope), out_view(*final(out))) == st2
            &&& match (r, res) {
                (Ok(v), Ok(ev)) => v@ == ev,
                (Err(e), Err(ee)) => e@ == ee,
                _ => false,
            }
        }),
    decreases fuel, seq_size_from(tokens@, 0), 4int,
{
    proof {
        lemma_list_view(tokens);
    }
    if tokens.0.len() < 2 {
        return Err(RuntimeError::NotEnoughArgs { min: 2 });
    }
    proof {
        lemma_seq_size_elem(tokens@, 0, 0);
        crate::entities::lemma_ent_size_pos(tokens@[0]);
    }
    let v = match tokens.0[0].to_value(scope, out, fuel) {
        Ok(v) => v,
        Err(e) => {
            return Err(e);
        },
    };
    let base = match to_number(&v) {
        Ok(n) => n,
        Err(e) => {
            return Err(e);
        },
    };
    div_fold(&tokens, 1, base, scope, out, fuel)
}

/// Folds `concat` over the operands from `i` on (see
/// [`eval_concat_fold`]).
fn concat_fold(
    args: &List,
    i: usize,
    acc: String,
    scope: &mut Scope,
    out: &mut Vec<String>,
    fuel: u64,
) -> (r: Result<Value, RuntimeError>)
    requires
        i <= args.0@.len(),
    ensures
        ({
            let (res, st2) = eval_concat_fold(
                args@,
                i as int,
                acc@,
                state_of(*old(scope), out_view(*old(out))),
                fuel as nat,
            );
            &&& state_of(*final(scope), out_view(*final(out))) == st2
            &&& match (r, res) {
                (Ok(v), Ok(ev)) => v@ == ev,
                (Err(e), Err(ee)) => e@ == ee,
                _ => false,
            }
        }),
    decreases fuel, seq_size_from(args@, i as int), 2int,
{
    proof {
        lemma_list_view(*args);
    }
    if i == args.0.len() {
        return Ok(Value::Primitive(Primitive::String(acc)));
    }
    proof {
        lemma_seq_size_elem(args@, i as int, i as int);
    }
    let v = match args.0[i].to_value(scope, out, fuel) {
        Ok(v) => v,
        Err(e) => {
            return Err(e);
        },
    };
    let t = v.to_text();
    let mut acc2 = acc;
    acc2.append(t.as_str());
    concat_fold(args, i + 1, acc2, scope, out, fuel)
}

/// The `concat` builtin: every operand rendered as text and joined,
/// the empty text for none.
pub fn concat(tokens: List, scope: &mut Scope, out: &mut Vec<String>, fuel: u64) -> (r: Result<
    Value,
    RuntimeError,
>)
    ensures
        ({
            let (res, st2) = eval_concat_fold(
                tokens@,
                0,
                Seq::empty(),
                state_of(*old(scope), out_view(*old(out))),
                fuel as nat,
            );
            &&& state_of(*final(scope), out_view(*final(out))) == st2
            &&& match (r, res) {
                (Ok(v), Ok(ev)) => v@ == ev,
                (Err(e), Err(ee)) => e@ == ee,
                _ => false,
            }
        }),
    decreases fuel, seq_size_from(tokens@, 0), 3int,
{
    let acc = String::new();
    proof {
        assert(acc@ =~= Seq::<char>::empty());
    }
    concat_fold(&tokens, 0, acc, scope, out, fuel)
}

/// Folds `print` over the operands from `i` on (see
/// [`eval_print_fold`]).
fn print_fold(
    args: &List,
    i: usize,
    acc: String,
    scope: &mut Scope,
    out: &mut Vec<String>,
    fuel: u64,
) -> (r: Result<Value, RuntimeError>)
    requires
        i <= args.0@.len(),
    ensures
        ({
            let (res, st2) = eval_print_fold(
                args@,
                i as int,
                acc@,
                state_of(*old(scope), out_view(*old(out))),
                fuel as nat,
            );
            &&& state_of(*final(scope), out_view(*final(out))) == st2
            &&& match (r, res) {
                (Ok(v), Ok(ev)) => v@ == ev,
                (Err(e), Err(ee)) => e@ == ee,
                _ => false,
            }
        }),
    decreases fuel, seq_size_from(args@, i as int), 2int,
{
    proof {
        lemma_list_view(*args);
    }
    if i == args.0.len() {
        let line = crate::utils::unescape(acc.as_str());
        out.push(line);
        proof {
            assert(out_view(*out) =~= out_view(*old(out)).push(unescape_spec(acc@)));
        }
        return Ok(Value::Primitive(Primitive::Nil));
    }
    proof {
        lemma_seq_size_elem(args@, i as int, i as int);
    }
    let v = match args.0[i].to_value(scope, out, fuel) {
        Ok(v) => v,
        Err(e) => {
            return Err(e);
        },
    };
    let t = v.to_text();
    if i == 0 {
        print_fold(args, i + 1, t, scope, out, fuel)
    } else {
        let mut acc2 = acc;
        acc2.append(" ");
        acc2.append(t.as_str());
        proof {
            reveal_strlit(" ");
            assert(" "@ =~= seq![' ']);
            assert(acc2@ =~= acc@ + seq![' '] + t@);
        }
        print_fold(args, i + 1, acc2, scope, out, fuel)
    }
}

/// The `print` builtin: the operands rendered, space-joined, unescaped
/// and appended to the output log; yields nil.
pub fn print(tokens: List, scope: &mut Scope, out: &mut Vec<String>, fuel: u64) -> (r: Result<
    Value,
    RuntimeError,
>)
    ensures
        ({
            let (res, st2) = eval_print_fold(
                tokens@,
                0,
                Seq::empty(),
                state_of(*old(scope), out_view(*old(out))),
                fuel as nat,
            );
            &&& state_of(*final(scope), out_view(*final(out))) == st2
            &&& match (r, res) {
                (Ok(v), Ok(ev)) => v@ == ev,
                (Err(e), Err(ee)) => e@ == ee,
                _ => false,
            }
        }),
    decreases fuel, seq_size_from(tokens@, 0), 3int,
{
    let acc = String::new();
    proof {
        assert(acc@ =~= Seq::<char>::empty());
    }
    print_fold(&tokens, 0, acc, scope, out, fuel)
}

/// Compares the base against the operands from `i` on (see
/// [`eval_cmp_fold`]).
fn cmp_fold(
    rel: Relation,
    base: &Value,
    args: &List,
    i: usize,
    scope: &mut Scope,
    out: &mut Vec<String>,
    fuel: u64,
) -> (r: Result<Value, RuntimeError>)
    requires
        i <= args.0@.len(),
    ensures
        ({
            let (res, st2) = eval_cmp_fold(
                rel,
                base@,
                args@,
                i as int,
                state_of(*old(scope), out_view(*old(out))),
                fuel as nat,
            );
            &&& state_of(*final(scope), out_view(*final(out))) == st2
            &&& match (r, res) {
                (Ok(v), Ok(ev)) => v@ == ev,
                (Err(e), Err(ee)) => e@ == ee,
                _ => false,
            }
        }),
    decreases fuel, seq_size_from(args@, i as int), 2int,
{
    proof {
        lemma_list_view(*args);
    }
    if i == args.0.len() {
        return Ok(Value::Primitive(Primitive::Bool(true)));
    }
    proof {
        lemma_seq_size_elem(args@, i as int, i as int);
    }
    let v = match args.0[i].to_value(scope, out, fuel) {
        Ok(v) => v,
        Err(e) => {
            return Err(e);
        },
    };
    if !rel_test(rel, base, &v) {
        Ok(Value::Primitive(Primitive::Bool(false)))
    } else {
        cmp_fold(rel, base, args, i + 1, scope, out, fuel)
    }
}

/// A comparison builtin (`eq`, `ne`, `lt`, `gt`, `le`, `ge`): the first
/// operand compared pairwise against every other under `rel`,
/// short-circuiting to false; at least two operands.
pub fn compare(rel: Relation, tokens: List, scope: &mut Scope, out: &mut Vec<String>, fuel: u64) -> (r:
    Result<Value, RuntimeError>)
    ensures
        ({
            let (res, st2) = crate::executer::eval_cmp(
                rel,
                tokens@,
                state_of(*old(scope), out_view(*old(out))),
                fuel as nat,
            );
            &&& state_of(*final(scope), out_view(*final(out))) == st2
            &&& match (r, res) {
                (Ok(v), Ok(ev)) => v@ == ev,
                (Err(e), Err(ee)) => e@ == ee,
                _ => false,
            }
        }),
    decreases fuel, seq_size_from(tokens@, 0), 4int,
{
    proof {
        lemma_list_view(tokens);
    }
    if tokens.0.len() < 2 {
        return Err(RuntimeError::NotEnoughArgs { min: 2 });
    }
    proof {
        lemma_seq_size_elem(tokens@, 0, 0);
        crate::entities::lemma_ent_size_pos(tokens@[0]);
    }
    let base = match tokens.0[0].to_value(scope, out, fuel) {
        Ok(v) => v,
        Err(e) => {
            return Err(e);
        },
    };
    cmp_fold(rel, &base, &tokens, 1, scope, out, fuel)
}

} // verus!
