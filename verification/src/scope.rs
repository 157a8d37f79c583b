//! The single program-wide binding table: one namespace for variables, one
//! for user-declared functions.
//!
//! Bindings are appended and read back to front, so the ghost model of each
//! namespace is a map in which the latest declaration wins.

use vstd::prelude::*;

use crate::entities::Datatype;
use crate::entities::Entity;
use crate::entities::EntityV;
use crate::entities::Expression;
use crate::entities::ExprV;
use crate::entities::Identifier;
use crate::entities::List;
use crate::entities::Value;
use crate::entities::val_view;
use crate::entities::ent_view;
use crate::entities::lemma_list_view;
use crate::entities::type_of;
use crate::errors::ErrV;
use crate::errors::RuntimeError;

verus! {

/// A user-declared function: its parameter names and its unevaluated body
/// template.
#[derive(Debug)]
pub struct Function {
    pub arg_names: Vec<Identifier>,
    pub body: Expression,
}

/// The ghost model of a user-declared function.
pub struct FunV {
    /// The parameter names, in order.
    pub params: Seq<Seq<char>>,
    /// The body template.
    pub body: ExprV,
}

impl View for Function {
    type V = FunV;

    open spec fn view(&self) -> FunV {
        FunV {
            params: Seq::new(self.arg_names@.len(), |i: int| self.arg_names@[i].0@),
            body: self.body@,
        }
    }
}

/// The parameter names of `args`, provided every entity is an identifier.
pub open spec fn params_of(args: Seq<EntityV>) -> Option<Seq<Seq<char>>>
    decreases args.len(),
{
    if args.len() == 0 {
        Some(Seq::empty())
    } else {
        match args[0] {
            EntityV::Id(name) => match params_of(args.skip(1)) {
                Some(rest) => Some(seq![name] + rest),
                None => None,
            },
            _ => None,
        }
    }
}

/// The first entity of `args` that is not an identifier (meaningful when
/// `params_of(args)` is `None`).
pub open spec fn first_non_id(args: Seq<EntityV>) -> EntityV
    decreases args.len(),
{
    if args.len() == 0 {
        EntityV::Nil
    } else {
        match args[0] {
            EntityV::Id(_) => first_non_id(args.skip(1)),
            _ => args[0],
        }
    }
}

impl Function {
    /// Declares a function from its body and the list of its parameter
    /// names; every entity of `arg_names` must be an identifier.
    pub fn new(body: Expression, arg_names: List) -> (r: Result<Function, RuntimeError>)
        ensures
            match r {
                Ok(f) => params_of(arg_names@) == Some(f@.params) && f@.body == body@,
                Err(e) => params_of(arg_names@) == None::<Seq<Seq<char>>> && e@
                    == ErrV::TypeMismatch {
                    expected: Datatype::Identifier,
                    found: type_of(first_non_id(arg_names@)),
                },
            },
    {
        proof {
            lemma_list_view(arg_names);
        }
        let ghost items = arg_names@;
        let mut v: Vec<Identifier> = Vec::new();
        let n = arg_names.0.len();
        let mut i: usize = 0;
        while i < n
            invariant
                i <= n,
                n == arg_names.0@.len(),
                items == arg_names@,
                items.len() == n,
                forall|j: int| 0 <= j < n ==> #[trigger] items[j] == ent_view(arg_names.0@[j]),
                v@.len() == i,
                forall|j: int| 0 <= j < i ==> items[j] == EntityV::Id(#[trigger] v@[j].0@),
            decreases n - i,
        {
            let e = &arg_names.0[i];
            match e {
                Entity::Identifier(id) => {
                    v.push(id.duplicate());
                },
                _ => {
                    proof {
                        assert forall|j: int| 0 <= j < i implies #[trigger] items[j] matches
                            EntityV::Id(_) by {
                            assert(items[j] == EntityV::Id(v@[j].0@));
                        };
                        assert(!(items[i as int] matches EntityV::Id(_)));
                        lemma_params_of_bad(items, i as int);
                    }
                    let found = crate::entities::AsType::as_type(e);
                    return Err(
                        RuntimeError::TypeMismatch { expected: Datatype::Identifier, found },
                    );
                },
            }
            i = i + 1;
        }
        let f = Function { arg_names: v, body };
        proof {
            assert forall|j: int| 0 <= j < items.len() implies #[trigger] items[j] matches
                EntityV::Id(_) by {
                assert(items[j] == EntityV::Id(v@[j].0@));
            };
            lemma_params_of_good(items, 0);
            assert(f@.params =~= params_of(items).unwrap());
        }
        Ok(f)
    }

    /// A copy of this function.
    pub fn duplicate(&self) -> (r: Function)
        ensures
            r@ == self@,
    {
        let mut v: Vec<Identifier> = Vec::new();
        let n = self.arg_names.len();
        let mut i: usize = 0;
        while i < n
            invariant
                i <= n,
                n == self.arg_names@.len(),
                v@.len() == i,
                forall|j: int| 0 <= j < i ==> #[trigger] v@[j].0@ == self.arg_names@[j].0@,
            decreases n - i,
        {
            v.push(self.arg_names[i].duplicate());
            i = i + 1;
        }
        let f = Function { arg_names: v, body: self.body.duplicate() };
        proof {
            assert(f@.params =~= self@.params);
        }
        f
    }
}

/// If every entity of `s` before `i` is an identifier and `s[i]` is not,
/// the whole sequence yields no parameter list.
proof fn lemma_params_of_bad(s: Seq<EntityV>, i: int)
    requires
        0 <= i < s.len(),
        forall|j: int| 0 <= j < i ==> #[trigger] s[j] matches EntityV::Id(_),
        !(s[i] matches EntityV::Id(_)),
    ensures
        params_of(s) == None::<Seq<Seq<char>>>,
        first_non_id(s) == s[i],
    decreases s.len(),
{
    if i == 0 {
    } else {
        assert(s.skip(1)[i - 1] == s[i]);
        assert(forall|j: int| 0 <= j < i - 1 ==> #[trigger] s.skip(1)[j] == s[j + 1]);
        lemma_params_of_bad(s.skip(1), i - 1);
    }
}

/// If every entity of `s` is an identifier, the sequence yields exactly
/// those names as parameters.
proof fn lemma_params_of_good(s: Seq<EntityV>, i: int)
    requires
        forall|j: int|
            0 <= j < s.len() ==> #[trigger] s[j] matches EntityV::Id(_),
    ensures
        params_of(s) matches Some(p) && p.len() == s.len() && forall|j: int|
            0 <= j < s.len() ==> s[j] == EntityV::Id(#[trigger] params_of(s).unwrap()[j]),
    decreases s.len(),
{
    if s.len() > 0 {
        assert(forall|j: int| 0 <= j < s.len() - 1 ==> #[trigger] s.skip(1)[j] == s[j + 1]);
        lemma_params_of_good(s.skip(1), 0);
    }
}

/// The single program-wide binding table.
#[derive(Debug)]
pub struct Scope {
    pub variables: Vec<(String, Value)>,
    pub functions: Vec<(String, Function)>,
}

/// The map a variable namespace stands for: later entries win.
pub open spec fn vars_map(s: Seq<(String, Value)>) -> Map<Seq<char>, EntityV>
    decreases s.len(),
{
    if s.len() == 0 {
        Map::empty()
    } else {
        vars_map(s.drop_last()).insert(s.last().0@, val_view(s.last().1))
    }
}

/// The map a function namespace stands for: later entries win.
pub open spec fn funcs_map(s: Seq<(String, Function)>) -> Map<Seq<char>, FunV>
    decreases s.len(),
{
    if s.len() == 0 {
        Map::empty()
    } else {
        funcs_map(s.drop_last()).insert(s.last().0@, s.last().1@)
    }
}

impl Scope {
    /// The variable bindings this scope holds.
    pub open spec fn vars(self) -> Map<Seq<char>, EntityV> {
        vars_map(self.variables@)
    }

    /// The function bindings this scope holds.
    pub open spec fn funcs(self) -> Map<Seq<char>, FunV> {
        funcs_map(self.functions@)
    }

    /// An empty scope: no variables, no functions.
    pub fn new() -> (r: Scope)
        ensures
            r.vars() == Map::<Seq<char>, EntityV>::empty(),
            r.funcs() == Map::<Seq<char>, FunV>::empty(),
    {
        Scope { variables: Vec::new(), functions: Vec::new() }
    }
}

/// Entries above `i` that do not bind `k` leave the lookup of `k`
/// unchanged.
proof fn lemma_vars_map_prefix(s: Seq<(String, Value)>, i: int, k: Seq<char>)
    requires
        0 <= i <= s.len(),
        forall|j: int| i <= j < s.len() ==> (#[trigger] s[j]).0@ != k,
    ensures
        vars_map(s).contains_key(k) == vars_map(s.take(i)).contains_key(k),
        vars_map(s).contains_key(k) ==> vars_map(s)[k] == vars_map(s.take(i))[k],
    decreases s.len() - i,
{
    if i == s.len() {
        assert(s.take(i) =~= s);
    } else {
        lemma_vars_map_prefix(s, i + 1, k);
        let t = s.take(i + 1);
        assert(t.drop_last() =~= s.take(i));
        assert(t.last() == s[i]);
    }
}

/// Entries above `i` that do not bind `k` leave the lookup of `k`
/// unchanged.
proof fn lemma_funcs_map_prefix(s: Seq<(String, Function)>, i: int, k: Seq<char>)
    requires
        0 <= i <= s.len(),
        forall|j: int| i <= j < s.len() ==> (#[trigger] s[j]).0@ != k,
    ensures
        funcs_map(s).contains_key(k) == funcs_map(s.take(i)).contains_key(k),
        funcs_map(s).contains_key(k) ==> funcs_map(s)[k] == funcs_map(s.take(i))[k],
    decreases s.len() - i,
{
    if i == s.len() {
        assert(s.take(i) =~= s);
    } else {
        lemma_funcs_map_prefix(s, i + 1, k);
        let t = s.take(i + 1);
        assert(t.drop_last() =~= s.take(i));
        assert(t.last() == s[i]);
    }
}

/// The value bound to `name`, if any; a copy.
pub fn lookup_variable(scope: &Scope, name: &str) -> (r: Option<Value>)
    ensures
        match r {
            Some(v) => scope.vars().contains_key(name@) && v@ == scope.vars()[name@],
            None => !scope.vars().contains_key(name@),
        },
{
    let key = name.to_owned();
    let mut i = scope.variables.len();
    while i > 0
        invariant
            i <= scope.variables@.len(),
            forall|j: int|
                i <= j < scope.variables@.len() ==> (#[trigger] scope.variables@[j]).0@ != name@,
            key@ == name@,
        decreases i,
    {
        i = i - 1;
        let entry = &scope.variables[i];
        if entry.0 == key {
            proof {
                lemma_vars_map_prefix(scope.variables@, i + 1, name@);
                let t = scope.variables@.take(i + 1);
                assert(t.drop_last() =~= scope.variables@.take(i as int));
                assert(t.last() == scope.variables@[i as int]);
            }
            return Some(entry.1.duplicate());
        }
    }
    proof {
        lemma_vars_map_prefix(scope.variables@, 0, name@);
        assert(scope.variables@.take(0) =~= Seq::<(String, Value)>::empty());
    }
    None
}

/// The value bound to `name`, or nil: an unresolved identifier reads as
/// nil, not as an error.
pub fn get_variable(scope: &Scope, name: &str) -> (r: Value)
    ensures
        r@ == if scope.vars().contains_key(name@) {
            scope.vars()[name@]
        } else {
            EntityV::Nil
        },
{
    match lookup_variable(scope, name) {
        Some(v) => v,
        None => Value::Primitive(crate::entities::Primitive::Nil),
    }
}

/// Binds `name` to `value`, overwriting any earlier binding.
pub fn set_variable(scope: &mut Scope, name: &str, value: Value)
    ensures
        final(scope).vars() == old(scope).vars().insert(name@, value@),
        final(scope).funcs() == old(scope).funcs(),
{
    let key = name.to_owned();
    scope.variables.push((key, value));
    proof {
        assert(scope.variables@.drop_last() =~= old(scope).variables@);
    }
}

/// The function declared under `name`, if any; a copy, so the scope stays
/// free for the caller.
pub fn get_function(scope: &Scope, name: &str) -> (r: Option<Function>)
    ensures
        match r {
            Some(f) => scope.funcs().contains_key(name@) && f@ == scope.funcs()[name@],
            None => !scope.funcs().contains_key(name@),
        },
{
    let key = name.to_owned();
    let mut i = scope.functions.len();
    while i > 0
        invariant
            i <= scope.functions@.len(),
            forall|j: int|
                i <= j < scope.functions@.len() ==> (#[trigger] scope.functions@[j]).0@ != name@,
            key@ == name@,
        decreases i,
    {
        i = i - 1;
        let entry = &scope.functions[i];
        if entry.0 == key {
            proof {
                lemma_funcs_map_prefix(scope.functions@, i + 1, name@);
                let t = scope.functions@.take(i + 1);
                assert(t.drop_last() =~= scope.functions@.take(i as int));
                assert(t.last() == scope.functions@[i as int]);
            }
            return Some(entry.1.duplicate());
        }
    }
    proof {
        lemma_funcs_map_prefix(scope.functions@, 0, name@);
        assert(scope.functions@.take(0) =~= Seq::<(String, Function)>::empty());
    }
    None
}

impl Identifier {
    /// The value this identifier names in the scope, or nil when unbound.
    pub fn value_from(&self, scope: &Scope) -> (r: Value)
        ensures
            r@ == if scope.vars().contains_key(self@) {
                scope.vars()[self@]
            } else {
                EntityV::Nil
            },
    {
        get_variable(scope, self.0.as_str())
    }
}

/// Declares `name` as a function with the given parameter list and body,
/// overwriting any earlier declaration. Fails when a parameter is not an
/// identifier.
pub fn set_function(scope: &mut Scope, name: &str, arg_names: List, body: Expression) -> (r: Result<
    (),
    RuntimeError,
>)
    ensures
        match r {
            Ok(_) => params_of(arg_names@) matches Some(p) && final(scope).funcs() == old(
                scope,
            ).funcs().insert(name@, FunV { params: p, body: body@ }) && final(scope).vars() == old(
                scope,
            ).vars(),
            Err(e) => params_of(arg_names@) == None::<Seq<Seq<char>>> && *final(scope) == *old(scope)
                && e@ == ErrV::TypeMismatch {
                expected: Datatype::Identifier,
                found: type_of(first_non_id(arg_names@)),
            },
        },
{
    let ghost names = arg_names@;
    match Function::new(body, arg_names) {
        Ok(f) => {
            let key = name.to_owned();
            scope.functions.push((key, f));
            proof {
                assert(scope.functions@.drop_last() =~= old(scope).functions@);
            }
            Ok(())
        },
        Err(e) => Err(e),
    }
}

} // verus!
