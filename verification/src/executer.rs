//! The evaluator.
//!
//! The ghost model is a small-step-free denotational interpreter:
//! [`eval_call`] and [`eval_entity`] map an entity, a state (variables,
//! functions, printed output) and a fuel budget to a result and a new
//! state. Every executable function of this module and of
//! [`crate::builtins`] is proved to return exactly what the ghost
//! interpreter says.
//!
//! Fuel bounds only the depth of user-function application: each call of a
//! user-declared function burns one unit, and a budget of zero more is
//! reported as [`crate::errors::RuntimeError::RecursionLimit`]. Builtin
//! argument evaluation is structural and burns none.

use vstd::prelude::*;

use crate::builtins::eval_add_fold;
use crate::builtins::eval_cmp_fold;
use crate::builtins::eval_concat_fold;
use crate::builtins::eval_div_fold;
use crate::builtins::eval_if;
use crate::builtins::eval_print_fold;
use crate::builtins::eval_typeof;
use crate::builtins::eval_var;
use crate::builtins::eval_func;
use crate::builtins::is_builtin;
use crate::builtins::Relation;
use crate::entities::Entity;
use crate::entities::EntityV;
use crate::entities::ExprV;
use crate::entities::Expression;
use crate::entities::Identifier;
use crate::entities::List;
use crate::entities::Value;
use crate::entities::ent_size;
use crate::entities::ent_view;
use crate::entities::lemma_list_view;
use crate::entities::lemma_seq_size_elem;
use crate::entities::seq_size_from;
use crate::errors::ErrV;
use crate::errors::RuntimeError;
use crate::scope::FunV;
use crate::scope::Scope;
use crate::scope::get_function;

verus! {

/// The state the ghost interpreter threads: the two namespaces of the
/// scope, and the lines printed so far.
pub struct StateV {
    /// The variable bindings.
    pub vars: Map<Seq<char>, EntityV>,
    /// The function bindings.
    pub funcs: Map<Seq<char>, FunV>,
    /// The texts printed so far, in order.
    pub out: Seq<Seq<char>>,
}

/// The state made of a scope and an output log.
pub open spec fn state_of(scope: Scope, out: Seq<Seq<char>>) -> StateV {
    StateV { vars: scope.vars(), funcs: scope.funcs(), out }
}

/// The ghost model of an output log.
pub open spec fn out_view(out: Vec<String>) -> Seq<Seq<char>> {
    Seq::new(out@.len(), |i: int| out@[i]@)
}

/// What an entity resolves to: a value stays itself, an identifier reads
/// the variable namespace (nil when unbound), a call is evaluated.
pub open spec fn eval_entity(e: EntityV, st: StateV, fuel: nat) -> (Result<EntityV, ErrV>, StateV)
    decreases fuel, ent_size(e), 1int,
{
    match e {
        EntityV::Id(name) => (
            Ok(
                if st.vars.contains_key(name) {
                    st.vars[name]
                } else {
                    EntityV::Nil
                },
            ),
            st,
        ),
        EntityV::Call(x) => eval_call(x, st, fuel),
        _ => (Ok(e), st),
    }
}

/// The replacement for the identifier `n`, if `n` is among the parameter
/// names: the argument at the first position naming `n`.
pub open spec fn subst_lookup(
    n: Seq<char>,
    names: Seq<Seq<char>>,
    args: Seq<EntityV>,
    i: int,
) -> Option<EntityV>
    decreases names.len() - i,
{
    if i < 0 || i >= names.len() || i >= args.len() {
        None
    } else if names[i] == n {
        Some(args[i])
    } else {
        subst_lookup(n, names, args, i + 1)
    }
}

/// Substitution-by-rewrite on one entity: a parameter identifier becomes
/// the caller's argument, a nested call is rewritten inside, anything else
/// (including list contents) stays.
pub open spec fn subst_entity(e: EntityV, names: Seq<Seq<char>>, args: Seq<EntityV>) -> EntityV
    decreases e, 0int,
{
    match e {
        EntityV::Id(n) => match subst_lookup(n, names, args, 0) {
            Some(v) => v,
            None => e,
        },
        EntityV::Call(x) => EntityV::Call(ExprV { fid: x.fid, args: subst_items(x.args, names, args, 0) }),
        _ => e,
    }
}

/// Substitution-by-rewrite on the entities of `items` from `i` on.
pub open spec fn subst_items(
    items: Seq<EntityV>,
    names: Seq<Seq<char>>,
    args: Seq<EntityV>,
    i: int,
) -> Seq<EntityV>
    decreases items, items.len() - i + 1,
{
    if i < 0 || i >= items.len() {
        Seq::empty()
    } else {
        seq![subst_entity(items[i], names, args)] + subst_items(items, names, args, i + 1)
    }
}

/// Substitution-by-rewrite on a call body: every textual occurrence of a
/// parameter name in the argument list becomes the caller's argument; the
/// function id itself is not substituted.
pub open spec fn subst_call(body: ExprV, names: Seq<Seq<char>>, args: Seq<EntityV>) -> ExprV {
    ExprV { fid: body.fid, args: subst_items(body.args, names, args, 0) }
}

/// What a call evaluates to. The builtin table is consulted first, then
/// the scope's user functions (a user function can never shadow a
/// builtin), and an unknown name is an error. The degenerate call with an
/// empty name and no arguments is nil.
pub open spec fn eval_call(x: ExprV, st: StateV, fuel: nat) -> (Result<EntityV, ErrV>, StateV)
    decreases fuel, ent_size(EntityV::Call(x)), 0int,
{
    let args = x.args;
    if x.fid.len() == 0 && args.len() == 0 {
        (Ok(EntityV::Nil), st)
    } else if x.fid == "var"@ {
        eval_var(args, st, fuel)
    } else if x.fid == "func"@ {
        eval_func(args, st)
    } else if x.fid == "typeof"@ {
        eval_typeof(args, st, fuel)
    } else if x.fid == "if"@ {
        eval_if(args, st, fuel)
    } else if x.fid == "eq"@ {
        eval_cmp(Relation::Eq, args, st, fuel)
    } else if x.fid == "ne"@ {
        eval_cmp(Relation::Ne, args, st, fuel)
    } else if x.fid == "lt"@ {
        eval_cmp(Relation::Lt, args, st, fuel)
    } else if x.fid == "gt"@ {
        eval_cmp(Relation::Gt, args, st, fuel)
    } else if x.fid == "le"@ {
        eval_cmp(Relation::Le, args, st, fuel)
    } else if x.fid == "ge"@ {
        eval_cmp(Relation::Ge, args, st, fuel)
    } else if x.fid == "add"@ {
        eval_add_fold(args, 0, crate::number::Number { neg: false, mant: 0, scale: 0 }, false, st, fuel)
    } else if x.fid == "sub"@ {
        eval_base_fold(args, st, fuel, false)
    } else if x.fid == "mul"@ {
        eval_add_fold(args, 0, crate::number::Number { neg: false, mant: 1, scale: 0 }, true, st, fuel)
    } else if x.fid == "div"@ {
        eval_base_fold(args, st, fuel, true)
    } else if x.fid == "concat"@ {
        eval_concat_fold(args, 0, Seq::empty(), st, fuel)
    } else if x.fid == "print"@ {
        eval_print_fold(args, 0, Seq::empty(), st, fuel)
    } else if st.funcs.contains_key(x.fid) {
        if fuel == 0 {
            (Err(ErrV::RecursionLimit), st)
        } else {
            let f = st.funcs[x.fid];
            eval_call(subst_call(f.body, f.params, args), st, (fuel - 1) as nat)
        }
    } else {
        (Err(ErrV::UndefinedFunction(x.fid)), st)
    }
}

/// Evaluates the base operand and folds the rest for `sub` and `div`
/// (`div` when `dividing`): at least two operands.
pub open spec fn eval_base_fold(args: Seq<EntityV>, st: StateV, fuel: nat, dividing: bool) -> (
    Result<EntityV, ErrV>,
    StateV,
)
    decreases fuel, seq_size_from(args, 0), 4int,
{
    if args.len() < 2 {
        (Err(ErrV::NotEnoughArgs { min: 2 }), st)
    } else {
        eval_base_rest(args, st, fuel, dividing)
    }
}

/// The body of [`eval_base_fold`] once the operand count is known good.
pub open spec fn eval_base_rest(args: Seq<EntityV>, st: StateV, fuel: nat, dividing: bool) -> (
    Result<EntityV, ErrV>,
    StateV,
)
    decreases fuel, seq_size_from(args, 0), 3int,
        when args.len() >= 1
        via eval_base_rest_dec
{
    let (r0, st0) = eval_entity(args[0], st, fuel);
    match r0 {
        Err(e) => (Err(e), st0),
        Ok(v0) => match crate::builtins::value_as_number(v0) {
            Err(e) => (Err(e), st0),
            Ok(base) => if dividing {
                eval_div_fold(args, 1, base, st0, fuel)
            } else {
                eval_sub_fold(args, 1, base, st0, fuel)
            },
        },
    }
}

#[via_fn]
proof fn eval_base_rest_dec(args: Seq<EntityV>, st: StateV, fuel: nat, dividing: bool) {
    if args.len() >= 1 {
        lemma_seq_size_elem(args, 0, 0);
        crate::entities::lemma_ent_size_pos(args[0]);
    }
}

/// Folds `acc - args[i] - args[i+1] - ...`.
pub open spec fn eval_sub_fold(
    args: Seq<EntityV>,
    i: int,
    acc: crate::number::Number,
    st: StateV,
    fuel: nat,
) -> (Result<EntityV, ErrV>, StateV)
    decreases fuel, seq_size_from(args, i), 2int,
    via eval_sub_fold_dec
{
    if i < 0 || i >= args.len() {
        (Ok(EntityV::Num(acc)), st)
    } else {
        let (r, st1) = eval_entity(args[i], st, fuel);
        match r {
            Err(e) => (Err(e), st1),
            Ok(v) => match crate::builtins::value_as_number(v) {
                Err(e) => (Err(e), st1),
                Ok(n) => match crate::number::add_spec(acc, n.negate_spec()) {
                    None => (Err(ErrV::NumberOverflow), st1),
                    Some(acc2) => eval_sub_fold(args, i + 1, acc2, st1, fuel),
                },
            },
        }
    }
}

#[via_fn]
proof fn eval_sub_fold_dec(args: Seq<EntityV>, i: int, acc: crate::number::Number, st: StateV, fuel: nat) {
    if 0 <= i < args.len() {
        lemma_seq_size_elem(args, i, i);
        crate::entities::lemma_ent_size_pos(args[i]);
    }
}

/// Compares the base operand pairwise against every further operand under
/// `rel`, short-circuiting to false on the first failing pair. Meaningful
/// for two or more arguments; operands are resolved to values first.
pub open spec fn eval_cmp(rel: Relation, args: Seq<EntityV>, st: StateV, fuel: nat) -> (
    Result<EntityV, ErrV>,
    StateV,
)
    decreases fuel, seq_size_from(args, 0), 3int,
    via eval_cmp_dec
{
    if args.len() < 2 {
        (Err(ErrV::NotEnoughArgs { min: 2 }), st)
    } else {
        let (r0, st0) = eval_entity(args[0], st, fuel);
        match r0 {
            Err(e) => (Err(e), st0),
            Ok(base) => eval_cmp_fold(rel, base, args, 1, st0, fuel),
        }
    }
}

#[via_fn]
proof fn eval_cmp_dec(rel: Relation, args: Seq<EntityV>, st: StateV, fuel: nat) {
    if args.len() >= 1 {
        lemma_seq_size_elem(args, 0, 0);
        crate::entities::lemma_ent_size_pos(args[0]);
    }
}

impl Entity {
    /// What this entity resolves to: a value stays itself, an identifier
    /// reads the scope's variables (nil when unbound), an expression is
    /// executed. Exactly [`eval_entity`] on the ghost models.
    pub fn to_value(&self, scope: &mut Scope, out: &mut Vec<String>, fuel: u64) -> (r: Result<
        Value,
        RuntimeError,
    >)
        ensures
            ({
                let (res, st2) = eval_entity(
                    self@,
                    state_of(*old(scope), out_view(*old(out))),
                    fuel as nat,
                );
                &&& state_of(*final(scope), out_view(*final(out))) == st2
                &&& match (r, res) {
                    (Ok(v), Ok(ev)) => v@ == ev,
                    (Err(e), Err(ee)) => e@ == ee,
                    _ => false,
                }
            }),
        decreases fuel, ent_size(self@), 1int,
    {
        match self {
            Entity::Value(v) => Ok(v.duplicate()),
            Entity::Identifier(id) => Ok(crate::scope::get_variable(scope, id.0.as_str())),
            Entity::Expression(x) => execute(x, scope, out, fuel),
        }
    }
}

/// Compares two texts for equality.
pub fn str_eq(a: &str, b: &str) -> (r: bool)
    ensures
        r == (a@ == b@),
{
    let sa = a.to_owned();
    let sb = b.to_owned();
    sa == sb
}

/// Evaluates one call expression: the builtin table first, then the
/// scope's user functions, else an undefined-function error. Exactly
/// [`eval_call`] on the ghost models.
pub fn execute(x: &Expression, scope: &mut Scope, out: &mut Vec<String>, fuel: u64) -> (r: Result<
    Value,
    RuntimeError,
>)
    ensures
        ({
            let (res, st2) = eval_call(x@, state_of(*old(scope), out_view(*old(out))), fuel as nat);
            &&& state_of(*final(scope), out_view(*final(out))) == st2
            &&& match (r, res) {
                (Ok(v), Ok(ev)) => v@ == ev,
                (Err(e), Err(ee)) => e@ == ee,
                _ => false,
            }
        }),
    decreases fuel, ent_size(EntityV::Call(x@)), 0int,
{
    proof {
        lemma_list_view(x.args);
    }
    let fid = x.fid.0.as_str();
    let args = x.args.duplicate();
    if x.fid.0.unicode_len() == 0 && x.args.0.len() == 0 {
        proof {
            assert(x@.fid =~= Seq::<char>::empty());
        }
        Ok(Value::Primitive(crate::entities::Primitive::Nil))
    } else if str_eq(fid, "var") {
        crate::builtins::create_variable(args, scope, out, fuel)
    } else if str_eq(fid, "func") {
        crate::builtins::create_function(args, scope, out)
    } else if str_eq(fid, "typeof") {
        crate::builtins::typeof_(args, scope, out, fuel)
    } else if str_eq(fid, "if") {
        crate::builtins::if_then_else(args, scope, out, fuel)
    } else if str_eq(fid, "eq") {
        crate::builtins::compare(Relation::Eq, args, scope, out, fuel)
    } else if str_eq(fid, "ne") {
        crate::builtins::compare(Relation::Ne, args, scope, out, fuel)
    } else if str_eq(fid, "lt") {
        crate::builtins::compare(Relation::Lt, args, scope, out, fuel)
    } else if str_eq(fid, "gt") {
        crate::builtins::compare(Relation::Gt, args, scope, out, fuel)
    } else if str_eq(fid, "le") {
        crate::builtins::compare(Relation::Le, args, scope, out, fuel)
    } else if str_eq(fid, "ge") {
        crate::builtins::compare(Relation::Ge, args, scope, out, fuel)
    } else if str_eq(fid, "add") {
        crate::builtins::add(args, scope, out, fuel)
    } else if str_eq(fid, "sub") {
        crate::builtins::sub(args, scope, out, fuel)
    } else if str_eq(fid, "mul") {
        crate::builtins::mul(args, scope, out, fuel)
    } else if str_eq(fid, "div") {
        crate::builtins::div(args, scope, out, fuel)
    } else if str_eq(fid, "concat") {
        crate::builtins::concat(args, scope, out, fuel)
    } else if str_eq(fid, "print") {
        crate::builtins::print(args, scope, out, fuel)
    } else {
        match get_function(scope, fid) {
            Some(f) => {
                if fuel == 0 {
                    Err(RuntimeError::RecursionLimit)
                } else {
                    f.call(args, scope, out, fuel - 1)
                }
            },
            None => Err(RuntimeError::UndefinedFunction(x.fid.0.clone())),
        }
    }
}

impl crate::scope::Function {
    /// Rewrites this function's body template with the given arguments
    /// (see [`subst_call`]) and evaluates the rewritten call. The template
    /// itself is never changed.
    pub fn call(self, args: List, scope: &mut Scope, out: &mut Vec<String>, fuel: u64) -> (r:
        Result<Value, RuntimeError>)
        ensures
            ({
                let (res, st2) = eval_call(
                    subst_call(self@.body, self@.params, args@),
                    state_of(*old(scope), out_view(*old(out))),
                    fuel as nat,
                );
                &&& state_of(*final(scope), out_view(*final(out))) == st2
                &&& match (r, res) {
                    (Ok(v), Ok(ev)) => v@ == ev,
                    (Err(e), Err(ee)) => e@ == ee,
                    _ => false,
                }
            }),
        decreases fuel,
            ent_size(EntityV::Call(subst_call(self@.body, self@.params, args@))) + 1,
            0int,
    {
        let rewritten = subst_expression(&self.body, &self.arg_names, &args);
        execute(&rewritten, scope, out, fuel)
    }
}

impl Expression {
    /// Evaluates this call expression (see [`execute`]).
    pub fn execute(&self, scope: &mut Scope, out: &mut Vec<String>, fuel: u64) -> (r: Result<
        Value,
        RuntimeError,
    >)
        ensures
            ({
                let (res, st2) = eval_call(
                    self@,
                    state_of(*old(scope), out_view(*old(out))),
                    fuel as nat,
                );
                &&& state_of(*final(scope), out_view(*final(out))) == st2
                &&& match (r, res) {
                    (Ok(v), Ok(ev)) => v@ == ev,
                    (Err(e), Err(ee)) => e@ == ee,
                    _ => false,
                }
            }),
    {
        execute(self, scope, out, fuel)
    }

    /// A copy of this expression with every occurrence of a parameter name
    /// in its argument list replaced by the matching argument (see
    /// [`subst_call`]); the template itself is unchanged.
    pub fn replace_all(&self, args: &List, arg_names: &Vec<Identifier>) -> (r: Expression)
        ensures
            r@ == subst_call(
                self@,
                Seq::new(arg_names@.len(), |i: int| arg_names@[i].0@),
                args@,
            ),
    {
        subst_expression(self, arg_names, args)
    }
}

/// The caller's argument standing for the parameter `name`, if any.
fn subst_find(name: &Identifier, names: &Vec<Identifier>, args: &List) -> (r: Option<Entity>)
    ensures
        ({
            let looked = subst_lookup(
                name@,
                Seq::new(names@.len(), |i: int| names@[i].0@),
                args@,
                0,
            );
            match (r, looked) {
                (Some(e), Some(ev)) => e@ == ev,
                (None, None) => true,
                _ => false,
            }
        }),
{
    proof {
        lemma_list_view(*args);
    }
    let ghost gnames = Seq::new(names@.len(), |i: int| names@[i].0@);
    let n = if names.len() <= args.0.len() {
        names.len()
    } else {
        args.0.len()
    };
    let mut i: usize = 0;
    while i < n
        invariant
            i <= n,
            n == if gnames.len() <= args@.len() {
                gnames.len()
            } else {
                args@.len()
            },
            gnames == Seq::new(names@.len(), |k: int| names@[k].0@),
            args@.len() == args.0@.len(),
            forall|j: int| 0 <= j < args@.len() ==> #[trigger] args@[j] == ent_view(args.0@[j]),
            subst_lookup(name@, gnames, args@, i as int) == subst_lookup(name@, gnames, args@, 0),
        decreases n - i,
    {
        if names[i].0 == name.0 {
            return Some(args.0[i].duplicate());
        }
        proof {
            assert(gnames[i as int] != name@);
            assert(subst_lookup(name@, gnames, args@, i as int) == subst_lookup(
                name@,
                gnames,
                args@,
                i as int + 1,
            ));
        }
        i = i + 1;
    }
    None
}

/// Substitution-by-rewrite on one entity (see [`subst_entity`]).
fn subst_one(e: &Entity, names: &Vec<Identifier>, args: &List) -> (r: Entity)
    ensures
        r@ == subst_entity(e@, Seq::new(names@.len(), |i: int| names@[i].0@), args@),
    decreases *e, 0int,
{
    match e {
        Entity::Identifier(id) => match subst_find(id, names, args) {
            Some(v) => v,
            None => Entity::Identifier(id.duplicate()),
        },
        Entity::Expression(x) => Entity::Expression(subst_expression(x, names, args)),
        _ => e.duplicate(),
    }
}

/// Substitution-by-rewrite on a call expression (see [`subst_call`]).
pub fn subst_expression(x: &Expression, names: &Vec<Identifier>, args: &List) -> (r: Expression)
    ensures
        r@ == subst_call(x@, Seq::new(names@.len(), |i: int| names@[i].0@), args@),
    decreases *x, 1int,
{
    proof {
        lemma_list_view(x.args);
    }
    let ghost gnames = Seq::new(names@.len(), |i: int| names@[i].0@);
    let ghost items = x.args@;
    let mut new_args: Vec<Entity> = Vec::new();
    let n = x.args.0.len();
    let mut i: usize = 0;
    while i < n
        invariant
            i <= n,
            n == x.args.0@.len(),
            items == x.args@,
            items.len() == n,
            gnames == Seq::new(names@.len(), |k: int| names@[k].0@),
            forall|j: int| 0 <= j < n ==> #[trigger] items[j] == ent_view(x.args.0@[j]),
            new_args@.len() == i,
            forall|j: int|
                0 <= j < i ==> ent_view(#[trigger] new_args@[j]) == subst_entity(
                    items[j],
                    gnames,
                    args@,
                ),
        decreases n - i,
    {
        let e = &x.args.0[i];
        proof {
            assert(decreases_to!(x.args.0 => x.args.0@[i as int]));
        }
        new_args.push(subst_one(e, names, args));
        i = i + 1;
    }
    let r = Expression {
        fid: x.fid.duplicate(),
        args: List(new_args),
        line: x.line,
        pos: x.pos,
    };
    proof {
        lemma_list_view(r.args);
        lemma_subst_items(items, gnames, args@, 0);
        assert(r@.args =~= subst_items(items, gnames, args@, 0));
    }
    r
}

/// `subst_items` maps each entity to its substitution, in order.
pub proof fn lemma_subst_items(
    items: Seq<EntityV>,
    names: Seq<Seq<char>>,
    args: Seq<EntityV>,
    i: int,
)
    requires
        0 <= i <= items.len(),
    ensures
        subst_items(items, names, args, i).len() == items.len() - i,
        forall|j: int|
            0 <= j < items.len() - i ==> #[trigger] subst_items(items, names, args, i)[j]
                == subst_entity(items[i + j], names, args),
    decreases items.len() - i,
{
    if i < items.len() {
        lemma_subst_items(items, names, args, i + 1);
    }
}

} // verus!
