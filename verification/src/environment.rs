//! Runtime variable storage as a stack of scopes. Each scope maps names to
//! variables; entering a block pushes a scope and leaving it pops one.
//! Lookups and assignments search the scopes innermost-outward, definitions
//! go into the innermost scope. Functions live in one table of their own.

use vstd::prelude::*;
use crate::value::{Type, Value, ValueV, Check, check_spec};
use crate::evaluator::{RuntimeError, RuntimeErrorV};

verus! {

broadcast use vstd::std_specs::vec::group_vec_axioms;

/// A bound variable's storage: its current value, whether it can be
/// reassigned (`let`) or not (`const`), and its declared type.
#[derive(Debug)]
pub struct Variable {
    value: Value,
    is_mutable: bool,
    declared_type: Type,
}

/// The mathematical counterpart of a [`Variable`].
pub struct VariableV {
    pub value: ValueV,
    pub is_mutable: bool,
    pub declared_type: Type,
}

impl View for Variable {
    type V = VariableV;

    closed spec fn view(&self) -> VariableV {
        VariableV {
            value: self.value@,
            is_mutable: self.is_mutable,
            declared_type: self.declared_type,
        }
    }
}

impl Variable {
    pub fn new(value: Value, is_mutable: bool, declared_type: Type) -> (r: Variable)
        ensures
            r@ == (VariableV { value: value@, is_mutable, declared_type }),
    {
        Variable { value, is_mutable, declared_type }
    }
}

/// A name bound to a variable, in a scope.
pub type Binding = (String, Variable);

/// A name bound to a function value.
pub type FunctionBinding = (String, Value);

/// The variables that a scope binds: a later binding of a name hides an
/// earlier one.
pub open spec fn scope_map(s: Seq<Binding>) -> Map<Seq<char>, VariableV>
    decreases s.len(),
{
    if s.len() == 0 {
        Map::empty()
    } else {
        scope_map(s.drop_last()).insert(s.last().0@, s.last().1@)
    }
}

/// The functions that a table binds: a later binding of a name hides an
/// earlier one.
pub open spec fn function_map(s: Seq<FunctionBinding>) -> Map<Seq<char>, ValueV>
    decreases s.len(),
{
    if s.len() == 0 {
        Map::empty()
    } else {
        function_map(s.drop_last()).insert(s.last().0@, s.last().1@)
    }
}

/// The mathematical counterpart of an [`Environment`]: the scopes from the
/// outermost to the innermost, and the functions.
pub struct EnvV {
    pub scopes: Seq<Map<Seq<char>, VariableV>>,
    pub functions: Map<Seq<char>, ValueV>,
}

/// Variables in a stack of scopes, and functions. A scope is a vector of
/// bindings searched from its last one, viewed as the map those bindings
/// make, so that each operation is specified exactly over maps.
#[derive(Debug)]
pub struct Environment {
    scopes: Vec<Vec<Binding>>,
    functions: Vec<FunctionBinding>,
}

/// The variables of each scope of a stack.
pub open spec fn scope_maps(v: Seq<Vec<Binding>>) -> Seq<Map<Seq<char>, VariableV>> {
    Seq::new(v.len(), |i: int| scope_map(v[i]@))
}

impl View for Environment {
    type V = EnvV;

    closed spec fn view(&self) -> EnvV {
        EnvV { scopes: scope_maps(self.scopes@), functions: function_map(self.functions@) }
    }
}

/// The index of the innermost of the first `n` scopes that binds `name`.
pub open spec fn innermost_in(scopes: Seq<Map<Seq<char>, VariableV>>, n: int, name: Seq<char>) -> Option<int>
    decreases n,
{
    if n <= 0 {
        None
    } else if scopes[n - 1].contains_key(name) {
        Some(n - 1)
    } else {
        innermost_in(scopes, n - 1, name)
    }
}

/// The index of the innermost scope that binds `name`.
pub open spec fn innermost(e: EnvV, name: Seq<char>) -> Option<int> {
    innermost_in(e.scopes, e.scopes.len() as int, name)
}

/// The variable that `name` refers to: the one in the innermost scope that binds it.
pub open spec fn lookup(e: EnvV, name: Seq<char>) -> Option<VariableV> {
    match innermost(e, name) {
        Some(i) => Some(e.scopes[i][name]),
        None => None,
    }
}

/// The environment with one more, empty, innermost scope.
pub open spec fn with_scope(e: EnvV) -> EnvV {
    EnvV { scopes: e.scopes.push(Map::empty()), functions: e.functions }
}

/// The environment without its innermost scope, if it has one.
pub open spec fn without_scope(e: EnvV) -> EnvV {
    if e.scopes.len() == 0 {
        e
    } else {
        EnvV { scopes: e.scopes.drop_last(), functions: e.functions }
    }
}

/// Defining `name` as `var` in the innermost scope. The name must not be
/// bound in that scope already, and there must be a scope.
pub open spec fn define_spec(e: EnvV, name: Seq<char>, var: VariableV) -> Result<EnvV, RuntimeErrorV> {
    if e.scopes.len() == 0 {
        Err(RuntimeErrorV::NoScope)
    } else if e.scopes.last().contains_key(name) {
        Err(RuntimeErrorV::AlreadyDeclared(name))
    } else {
        Ok(
            EnvV {
                scopes: e.scopes.update(
                    e.scopes.len() - 1,
                    e.scopes.last().insert(name, var),
                ),
                functions: e.functions,
            },
        )
    }
}

/// What assigning `value` to `name` leads to.
pub enum AssignSpec {
    /// The new environment.
    Done(EnvV),
    /// The variable is a float and the value an int: the value must first
    /// be converted to a float.
    Widen(i64),
    /// The assignment is refused.
    Refused(RuntimeErrorV),
}

/// Reassigning `name`: the variable in the innermost scope that binds it
/// must be mutable, and the value must fit its declared type.
pub open spec fn assign_spec(e: EnvV, name: Seq<char>, value: ValueV) -> AssignSpec {
    match innermost(e, name) {
        None => AssignSpec::Refused(RuntimeErrorV::UndeclaredAssignment(name)),
        Some(i) => {
            let var = e.scopes[i][name];
            if !var.is_mutable {
                AssignSpec::Refused(RuntimeErrorV::ConstAssignment(name))
            } else {
                match check_spec(var.declared_type, value) {
                    Check::Accept => AssignSpec::Done(
                        EnvV {
                            scopes: e.scopes.update(
                                i,
                                e.scopes[i].insert(name, VariableV { value, ..var }),
                            ),
                            functions: e.functions,
                        },
                    ),
                    Check::Widen(n) => AssignSpec::Widen(n),
                    Check::FloatIntoInt => AssignSpec::Refused(RuntimeErrorV::FloatIntoInt(name)),
                    Check::Mismatch => AssignSpec::Refused(
                        RuntimeErrorV::TypeMismatch(var.declared_type, name),
                    ),
                }
            }
        },
    }
}

/// What an assignment did, when it was not refused.
#[derive(Debug, Clone, Copy, PartialEq, Eq, Structural)]
pub enum Assigned {
    /// The value was stored.
    Stored,
    /// Nothing was stored: the variable is a float and the value this int,
    /// which must first be converted to a float.
    NeedsWidening(i64),
}

/// The last index of `s` whose binding has name `name`.
pub open spec fn last_binding(names: Seq<Seq<char>>, name: Seq<char>) -> Option<int>
    decreases names.len(),
{
    if names.len() == 0 {
        None
    } else if names.last() == name {
        Some(names.len() - 1)
    } else {
        last_binding(names.drop_last(), name)
    }
}

pub open spec fn scope_names(s: Seq<Binding>) -> Seq<Seq<char>> {
    s.map_values(|b: Binding| b.0@)
}

pub open spec fn function_names(s: Seq<FunctionBinding>) -> Seq<Seq<char>> {
    s.map_values(|b: FunctionBinding| b.0@)
}

proof fn lemma_scope_map_last(s: Seq<Binding>, name: Seq<char>)
    ensures
        match last_binding(scope_names(s), name) {
            Some(j) => 0 <= j < s.len() && s[j].0@ == name && scope_map(s).contains_key(name)
                && scope_map(s)[name] == s[j].1@,
            None => !scope_map(s).contains_key(name),
        },
    decreases s.len(),
{
    if s.len() > 0 {
        assert(scope_names(s.drop_last()) =~= scope_names(s).drop_last());
        lemma_scope_map_last(s.drop_last(), name);
    }
}

proof fn lemma_scope_map_update(s: Seq<Binding>, j: int, b: Binding)
    requires
        last_binding(scope_names(s), b.0@) == Some(j),
    ensures
        scope_map(s.update(j, b)) == scope_map(s).insert(b.0@, b.1@),
    decreases s.len(),
{
    lemma_scope_map_last(s, b.0@);
    if j == s.len() - 1 {
        assert(s.update(j, b).drop_last() =~= s.drop_last());
    } else {
        assert(scope_names(s.drop_last()) =~= scope_names(s).drop_last());
        lemma_scope_map_update(s.drop_last(), j, b);
        assert(s.update(j, b).drop_last() =~= s.drop_last().update(j, b));
        assert(scope_map(s.update(j, b)) =~= scope_map(s).insert(b.0@, b.1@));
    }
}

proof fn lemma_function_map_last(s: Seq<FunctionBinding>, name: Seq<char>)
    ensures
        match last_binding(function_names(s), name) {
            Some(j) => 0 <= j < s.len() && s[j].0@ == name && function_map(s).contains_key(name)
                && function_map(s)[name] == s[j].1@,
            None => !function_map(s).contains_key(name),
        },
    decreases s.len(),
{
    if s.len() > 0 {
        assert(function_names(s.drop_last()) =~= function_names(s).drop_last());
        lemma_function_map_last(s.drop_last(), name);
    }
}

/// The last binding of `name` in `s`.
fn find_binding(s: &Vec<Binding>, name: &String) -> (r: Option<usize>)
    ensures
        match last_binding(scope_names(s@), name@) {
            Some(j) => 0 <= j < s@.len() && (r matches Some(jj) && jj == j),
            None => r is None,
        },
{
    let mut k = s.len();
    assert(scope_names(s@).take(k as int) =~= scope_names(s@));
    while k > 0
        invariant
            k <= s@.len(),
            last_binding(scope_names(s@), name@) == last_binding(scope_names(s@).take(k as int), name@),
        decreases k,
    {
        assert(scope_names(s@).take(k as int).drop_last() == scope_names(s@).take(k - 1));
        if s[k - 1].0 == *name {
            return Some(k - 1);
        }
        k = k - 1;
    }
    None
}

/// The last binding of `name` in a function table.
fn find_function(s: &Vec<FunctionBinding>, name: &String) -> (r: Option<usize>)
    ensures
        match last_binding(function_names(s@), name@) {
            Some(j) => 0 <= j < s@.len() && (r matches Some(jj) && jj == j),
            None => r is None,
        },
{
    let mut k = s.len();
    assert(function_names(s@).take(k as int) =~= function_names(s@));
    while k > 0
        invariant
            k <= s@.len(),
            last_binding(function_names(s@), name@) == last_binding(
                function_names(s@).take(k as int),
                name@,
            ),
        decreases k,
    {
        assert(function_names(s@).take(k as int).drop_last() == function_names(s@).take(k - 1));
        if s[k - 1].0 == *name {
            return Some(k - 1);
        }
        k = k - 1;
    }
    None
}

/// Whether some binding of a scope has name `name`.
proof fn lemma_scope_contains(s: Seq<Binding>, name: Seq<char>)
    ensures
        scope_map(s).contains_key(name) <==> last_binding(scope_names(s), name) is Some,
{
    lemma_scope_map_last(s, name);
}

/// The innermost scope of the first `n` that binds `name`, and the binding in it.
fn find_variable(scopes: &Vec<Vec<Binding>>, n: usize, name: &String) -> (r: Option<(usize, usize)>)
    requires
        n <= scopes@.len(),
    ensures
        match innermost_in(scope_maps(scopes@), n as int, name@) {
            Some(i) => r matches Some((ri, j)) && ri == i && ri < n && j < scopes@[i]@.len()
                && last_binding(scope_names(scopes@[i]@), name@) == Some(j as int),
            None => r is None,
        },
    decreases n,
{
    if n == 0 {
        return None;
    }
    proof {
        lemma_scope_contains(scopes@[n - 1]@, name@);
        lemma_scope_map_last(scopes@[n - 1]@, name@);
        assert(scope_maps(scopes@)[n - 1] == scope_map(scopes@[n - 1]@));
    }
    match find_binding(&scopes[n - 1], name) {
        Some(j) => Some((n - 1, j)),
        None => find_variable(scopes, n - 1, name),
    }
}

impl Environment {
    /// An environment with one empty scope (the global one) and no functions.
    pub fn new() -> (r: Environment)
        ensures
            r@ == (EnvV { scopes: seq![Map::empty()], functions: Map::empty() }),
    {
        let r = Environment { scopes: vec![Vec::new()], functions: Vec::new() };
        assert(r@.scopes =~= seq![Map::<Seq<char>, VariableV>::empty()]);
        r
    }

    /// The value of the variable `name`, from the innermost scope that binds it.
    pub fn try_get(&self, name: &str) -> (r: Result<Value, RuntimeError>)
        ensures
            match lookup(self@, name@) {
                Some(var) => r matches Ok(v) && v@ == var.value,
                None => r matches Err(e) && e@ == RuntimeErrorV::UndefinedVariable(name@),
            },
    {
        let key = String::from_str(name);
        match find_variable(&self.scopes, self.scopes.len(), &key) {
            Some((i, j)) => {
                proof {
                    lemma_scope_map_last(self.scopes@[i as int]@, key@);
                }
                Ok(self.scopes[i][j].1.value.duplicate())
            },
            None => Err(RuntimeError::UndefinedVariable(key)),
        }
    }

    /// Defines `name` in the innermost scope. Refused when that scope
    /// already binds the name, or when no scope is left.
    pub fn try_define(&mut self, name: String, var: Variable) -> (r: Result<(), RuntimeError>)
        ensures
            match define_spec(old(self)@, name@, var@) {
                Ok(e) => r is Ok && final(self)@ == e,
                Err(err) => r matches Err(x) && x@ == err && final(self)@ == old(self)@,
            },
    {
        let n = self.scopes.len();
        if n == 0 {
            return Err(RuntimeError::NoScope);
        }
        proof {
            lemma_scope_contains(self.scopes@[n - 1]@, name@);
        }
        if find_binding(&self.scopes[n - 1], &name).is_some() {
            return Err(RuntimeError::AlreadyDeclared(name));
        }
        let ghost old_scope = self.scopes@[n - 1]@;
        let ghost b = (name, var);
        let mut scope: Vec<Binding> = Vec::new();
        std::mem::swap(&mut scope, &mut self.scopes[n - 1]);
        scope.push((name, var));
        assert(scope@.drop_last() == old_scope);
        self.scopes.set(n - 1, scope);
        assert(self@.scopes =~= old(self)@.scopes.update(
            n - 1,
            old(self)@.scopes.last().insert(b.0@, b.1@),
        ));
        Ok(())
    }

    /// Reassigns `name`: finds the innermost scope that binds it, requires
    /// the variable to be mutable, checks the value against its declared
    /// type and stores it. When the variable is a float and the value an
    /// int, stores nothing and asks for the int to be converted first.
    pub fn try_assign(&mut self, name: String, new_value: Value) -> (r: Result<Assigned, RuntimeError>)
        ensures
            match assign_spec(old(self)@, name@, new_value@) {
                AssignSpec::Done(e) => r == Ok::<Assigned, RuntimeError>(Assigned::Stored)
                    && final(self)@ == e,
                AssignSpec::Widen(n) => r == Ok::<Assigned, RuntimeError>(Assigned::NeedsWidening(n))
                    && final(self)@ == old(self)@,
                AssignSpec::Refused(err) => r matches Err(x) && x@ == err && final(self)@ == old(
                    self,
                )@,
            },
    {
        match find_variable(&self.scopes, self.scopes.len(), &name) {
            None => Err(RuntimeError::UndeclaredAssignment(name)),
            Some((i, j)) => {
                proof {
                    lemma_scope_map_last(self.scopes@[i as int]@, name@);
                }
                let is_mutable = self.scopes[i][j].1.is_mutable;
                let declared_type = self.scopes[i][j].1.declared_type;
                if !is_mutable {
                    return Err(RuntimeError::ConstAssignment(name));
                }
                match declared_type.try_check_and_convert(&new_value) {
                    Check::Accept => {
                        let ghost old_scope = self.scopes@[i as int]@;
                        let var = Variable { value: new_value, is_mutable, declared_type };
                        let ghost b = (name, var);
                        let mut scope: Vec<Binding> = Vec::new();
                        std::mem::swap(&mut scope, &mut self.scopes[i]);
                        scope.set(j, (name, var));
                        proof {
                            lemma_scope_map_update(old_scope, j as int, b);
                        }
                        self.scopes.set(i, scope);
                        assert(self@.scopes =~= old(self)@.scopes.update(
                            i as int,
                            old(self)@.scopes[i as int].insert(b.0@, b.1@),
                        ));
                        Ok(Assigned::Stored)
                    },
                    Check::Widen(n) => Ok(Assigned::NeedsWidening(n)),
                    Check::FloatIntoInt => Err(RuntimeError::FloatIntoInt(name)),
                    Check::Mismatch => Err(RuntimeError::TypeMismatch(declared_type, name)),
                }
            },
        }
    }

    /// The value of the variable `name`, from the innermost scope that binds
    /// it. The name must be bound.
    pub fn get(&self, name: &str) -> (r: Value)
        requires
            lookup(self@, name@) is Some,
        ensures
            r@ == lookup(self@, name@)->Some_0.value,
    {
        match self.try_get(name) {
            Ok(v) => v,
            Err(_) => {
                assert(false);
                Value::Void
            },
        }
    }

    /// Defines `name` in the innermost scope, which must exist and must not
    /// bind the name already.
    pub fn define(&mut self, name: String, var: Variable)
        requires
            define_spec(old(self)@, name@, var@) is Ok,
        ensures
            final(self)@ == define_spec(old(self)@, name@, var@)->Ok_0,
    {
        let _ = self.try_define(name, var);
    }

    /// Reassigns `name`, which must be bound to a mutable variable whose
    /// declared type takes the value: stores the value, or, for an int into
    /// a float variable, stores nothing and asks for the int to be converted
    /// first.
    pub fn assign(&mut self, name: String, new_value: Value) -> (r: Assigned)
        requires
            !(assign_spec(old(self)@, name@, new_value@) is Refused),
        ensures
            assign_spec(old(self)@, name@, new_value@) matches AssignSpec::Done(e) ==> r
                == Assigned::Stored && final(self)@ == e,
            assign_spec(old(self)@, name@, new_value@) matches AssignSpec::Widen(n) ==> r
                == Assigned::NeedsWidening(n) && final(self)@ == old(self)@,
    {
        match self.try_assign(name, new_value) {
            Ok(a) => a,
            Err(_) => {
                assert(false);
                Assigned::Stored
            },
        }
    }

    /// Defines a function under a name that no function has yet.
    pub fn define_function(&mut self, name: String, func: Value)
        requires
            !old(self)@.functions.contains_key(name@),
        ensures
            final(self)@ == (EnvV {
                scopes: old(self)@.scopes,
                functions: old(self)@.functions.insert(name@, func@),
            }),
    {
        let _ = self.try_define_function(name, func);
    }

    /// The function defined under `name`, which must be defined.
    pub fn get_function(&self, name: &str) -> (r: Value)
        requires
            self@.functions.contains_key(name@),
        ensures
            r@ == self@.functions[name@],
    {
        match self.try_get_function(name) {
            Ok(v) => v,
            Err(_) => {
                assert(false);
                Value::Void
            },
        }
    }

    /// Enters a block: adds an empty innermost scope.
    pub fn push_scope(&mut self)
        ensures
            final(self)@ == with_scope(old(self)@),
    {
        self.scopes.push(Vec::new());
        assert(self@.scopes =~= old(self)@.scopes.push(Map::empty()));
    }

    /// Leaves a block: drops the innermost scope, if there is one.
    pub fn pop_scope(&mut self)
        ensures
            final(self)@ == without_scope(old(self)@),
    {
        if self.scopes.len() > 0 {
            let _ = self.scopes.pop();
            assert(self@.scopes =~= old(self)@.scopes.drop_last());
        }
    }

    /// Enters a function call: adds an empty innermost scope for its parameters.
    pub fn push_frame(&mut self)
        ensures
            final(self)@ == with_scope(old(self)@),
    {
        self.push_scope();
    }

    /// Leaves a function call: drops the innermost scope, if there is one.
    pub fn pop_frame(&mut self)
        ensures
            final(self)@ == without_scope(old(self)@),
    {
        self.pop_scope();
    }

    /// Defines a function. Refused when a function of that name exists.
    pub fn try_define_function(&mut self, name: String, func: Value) -> (r: Result<(), RuntimeError>)
        ensures
            old(self)@.functions.contains_key(name@) ==> (r matches Err(x) && x@
                == RuntimeErrorV::FunctionAlreadyDeclared(name@) && final(self)@ == old(self)@),
            !old(self)@.functions.contains_key(name@) ==> r is Ok && final(self)@ == (EnvV {
                scopes: old(self)@.scopes,
                functions: old(self)@.functions.insert(name@, func@),
            }),
    {
        proof {
            lemma_function_map_last(self.functions@, name@);
        }
        if find_function(&self.functions, &name).is_some() {
            return Err(RuntimeError::FunctionAlreadyDeclared(name));
        }
        let ghost b = (name, func);
        self.functions.push((name, func));
        assert(self.functions@.drop_last() == old(self).functions@);
        assert(self@.scopes =~= old(self)@.scopes);
        Ok(())
    }

    /// The function defined under `name`.
    pub fn try_get_function(&self, name: &str) -> (r: Result<Value, RuntimeError>)
        ensures
            self@.functions.contains_key(name@) ==> (r matches Ok(v) && v@ == self@.functions[name@]),
            !self@.functions.contains_key(name@) ==> (r matches Err(x) && x@
                == RuntimeErrorV::UndefinedFunction(name@)),
    {
        let key = String::from_str(name);
        proof {
            lemma_function_map_last(self.functions@, key@);
        }
        match find_function(&self.functions, &key) {
            Some(j) => {
                let v = self.functions[j].1.duplicate();
                Ok(v)
            },
            None => Err(RuntimeError::UndefinedFunction(key)),
        }
    }
}

/// Scopes that agree on whether they bind `name`, and on the variable they
/// bind it to, lead a lookup of `name` to the same scope and variable.
proof fn lemma_innermost_agree(
    s1: Seq<Map<Seq<char>, VariableV>>,
    s2: Seq<Map<Seq<char>, VariableV>>,
    n: int,
    name: Seq<char>,
)
    requires
        0 <= n <= s1.len(),
        n <= s2.len(),
        forall|i: int| 0 <= i < n ==> s1[i].contains_key(name) == s2[i].contains_key(name),
    ensures
        innermost_in(s1, n, name) == innermost_in(s2, n, name),
        innermost_in(s1, n, name) matches Some(i) ==> 0 <= i < n && s1[i].contains_key(name),
    decreases n,
{
    if n > 0 {
        lemma_innermost_agree(s1, s2, n - 1, name);
    }
}

/// A definition is seen by the next lookup of its name, and changes what no
/// other name refers to.
pub proof fn lemma_define_then_lookup(e: EnvV, name: Seq<char>, var: VariableV, other: Seq<char>)
    requires
        define_spec(e, name, var) is Ok,
    ensures
        lookup(define_spec(e, name, var)->Ok_0, name) == Some(var),
        other != name ==> lookup(define_spec(e, name, var)->Ok_0, other) == lookup(e, other),
{
    let e2 = define_spec(e, name, var)->Ok_0;
    let n = e.scopes.len() as int;
    assert(e2.scopes[n - 1].contains_key(name));
    if other != name {
        lemma_innermost_agree(e.scopes, e2.scopes, n, other);
        if let Some(i) = innermost(e, other) {
            assert(e2.scopes[i][other] == e.scopes[i][other]);
        }
    }
}

/// An assignment is seen by the next lookup of its name (with the new value
/// and the variable's mutability and declared type), and changes what no
/// other name refers to.
pub proof fn lemma_assign_then_lookup(e: EnvV, name: Seq<char>, value: ValueV, other: Seq<char>)
    requires
        assign_spec(e, name, value) is Done,
    ensures
        lookup(assign_spec(e, name, value)->Done_0, name) == Some(
            VariableV { value, ..lookup(e, name)->Some_0 },
        ),
        other != name ==> lookup(assign_spec(e, name, value)->Done_0, other) == lookup(e, other),
{
    let e2 = assign_spec(e, name, value)->Done_0;
    let n = e.scopes.len() as int;
    lemma_innermost_agree(e.scopes, e.scopes, n, name);
    lemma_innermost_agree(e.scopes, e2.scopes, n, name);
    lemma_innermost_agree(e.scopes, e2.scopes, n, other);
    if other != name {
        if let Some(i) = innermost(e, other) {
            let j = innermost(e, name)->Some_0;
            if i == j {
                assert(e2.scopes[i][other] == e.scopes[i][other]);
            }
        }
    }
}

/// Entering a block and leaving it again gives back the environment, and
/// while inside, every name refers to what it referred to before.
pub proof fn lemma_scope_round_trip(e: EnvV, name: Seq<char>)
    ensures
        without_scope(with_scope(e)) == e,
        lookup(with_scope(e), name) == lookup(e, name),
{
    assert(with_scope(e).scopes.drop_last() == e.scopes);
    let s2 = with_scope(e).scopes;
    let n = e.scopes.len() as int;
    assert(!s2[n].contains_key(name));
    assert(innermost_in(s2, n + 1, name) == innermost_in(s2, n, name));
    lemma_innermost_agree(e.scopes, s2, n, name);
}

/// Assignments and definitions keep the number of scopes.
pub proof fn lemma_updates_keep_scope_count(e: EnvV, name: Seq<char>, value: ValueV, var: VariableV)
    ensures
        assign_spec(e, name, value) matches AssignSpec::Done(e2) ==> e2.scopes.len() == e.scopes.len(),
        define_spec(e, name, var) matches Ok(e2) ==> e2.scopes.len() == e.scopes.len(),
{
    lemma_innermost_agree(e.scopes, e.scopes, e.scopes.len() as int, name);
}

/// Every variable of the environment holds a value of its declared type.
pub open spec fn well_typed(e: EnvV) -> bool {
    forall|i: int, name: Seq<char>|
        0 <= i < e.scopes.len() && #[trigger] e.scopes[i].contains_key(name) ==> check_spec(
            e.scopes[i][name].declared_type,
            e.scopes[i][name].value,
        ) is Accept
}

/// A definition stores what its declaration checked, and an assignment
/// stores only a value its variable's declared type accepts; entering and
/// leaving scopes stores nothing. So each keeps every variable holding a
/// value of its declared type.
pub proof fn lemma_updates_keep_well_typed(e: EnvV, name: Seq<char>, value: ValueV, var: VariableV)
    requires
        well_typed(e),
    ensures
        assign_spec(e, name, value) matches AssignSpec::Done(e2) ==> well_typed(e2),
        check_spec(var.declared_type, var.value) is Accept ==> (define_spec(e, name, var) matches Ok(
            e2,
        ) ==> well_typed(e2)),
        well_typed(with_scope(e)),
        well_typed(without_scope(e)),
{
    lemma_innermost_agree(e.scopes, e.scopes, e.scopes.len() as int, name);
    let w = with_scope(e);
    assert forall|i: int, n: Seq<char>|
        0 <= i < w.scopes.len() && #[trigger] w.scopes[i].contains_key(n) implies check_spec(
        w.scopes[i][n].declared_type,
        w.scopes[i][n].value,
    ) is Accept by {
        if i < e.scopes.len() {
            assert(w.scopes[i] == e.scopes[i]);
        }
    }
    let o = without_scope(e);
    assert forall|i: int, n: Seq<char>|
        0 <= i < o.scopes.len() && #[trigger] o.scopes[i].contains_key(n) implies check_spec(
        o.scopes[i][n].declared_type,
        o.scopes[i][n].value,
    ) is Accept by {
        assert(o.scopes[i] == e.scopes[i]);
    }
    if let AssignSpec::Done(e2) = assign_spec(e, name, value) {
        assert forall|i: int, n: Seq<char>|
            0 <= i < e2.scopes.len() && #[trigger] e2.scopes[i].contains_key(n) implies check_spec(
            e2.scopes[i][n].declared_type,
            e2.scopes[i][n].value,
        ) is Accept by {
            let j = innermost(e, name)->0;
            if i != j || n != name {
                assert(e.scopes[i].contains_key(n));
            }
        }
    }
    if check_spec(var.declared_type, var.value) is Accept {
        if let Ok(e2) = define_spec(e, name, var) {
            assert forall|i: int, n: Seq<char>|
                0 <= i < e2.scopes.len() && #[trigger] e2.scopes[i].contains_key(n) implies check_spec(
                e2.scopes[i][n].declared_type,
                e2.scopes[i][n].value,
            ) is Accept by {
                if i != e.scopes.len() - 1 || n != name {
                    assert(e.scopes[i].contains_key(n));
                }
            }
        }
    }
}

/// Defining each name of `defs` with its variable, first to last, stopping
/// at the first definition that is refused.
pub open spec fn define_each(e: EnvV, defs: Seq<(Seq<char>, VariableV)>) -> Result<EnvV, RuntimeErrorV>
    decreases defs.len(),
{
    if defs.len() == 0 {
        Ok(e)
    } else {
        match define_spec(e, defs[0].0, defs[0].1) {
            Ok(e1) => define_each(e1, defs.drop_first()),
            Err(x) => Err(x),
        }
    }
}

proof fn lemma_define_each_innermost(e: EnvV, defs: Seq<(Seq<char>, VariableV)>)
    requires
        e.scopes.len() > 0,
    ensures
        define_each(e, defs) matches Ok(e2) ==> e2.scopes.len() == e.scopes.len()
            && e2.scopes.drop_last() == e.scopes.drop_last() && e2.functions == e.functions,
    decreases defs.len(),
{
    if defs.len() > 0 {
        if let Ok(e1) = define_spec(e, defs[0].0, defs[0].1) {
            assert(e1.scopes.drop_last() =~= e.scopes.drop_last());
            lemma_define_each_innermost(e1, defs.drop_first());
        }
    }
}

/// Entering a block, defining any number of variables in it, and leaving
/// it gives back the environment it started from: the names defined in the
/// block are unbound again, and the bindings they hid are seen again.
pub proof fn lemma_block_definitions_round_trip(e: EnvV, defs: Seq<(Seq<char>, VariableV)>)
    ensures
        define_each(with_scope(e), defs) matches Ok(e2) ==> without_scope(e2) == e,
{
    lemma_define_each_innermost(with_scope(e), defs);
    assert(with_scope(e).scopes.drop_last() =~= e.scopes);
}

/// Scope `n` keeps what scope `o` binds: the same names, each with the same
/// mutability and declared type, and each constant with the same value. Any
/// other name that `n` binds is one of `added`.
pub open spec fn keeps_bindings(
    o: Map<Seq<char>, VariableV>,
    n: Map<Seq<char>, VariableV>,
    added: Set<Seq<char>>,
) -> bool {
    &&& forall|x: Seq<char>| #[trigger] n.contains_key(x) ==> o.contains_key(x) || added.contains(x)
    &&& forall|x: Seq<char>|
        #[trigger] o.contains_key(x) ==> {
            &&& n.contains_key(x)
            &&& n[x].is_mutable == o[x].is_mutable
            &&& n[x].declared_type == o[x].declared_type
            &&& (!o[x].is_mutable ==> n[x].value == o[x].value)
        }
}

/// The names that scope `i` of `e0` may gain: `d` for the innermost one,
/// none for the others.
pub open spec fn may_gain(e0: EnvV, i: int, d: Set<Seq<char>>) -> Set<Seq<char>> {
    if i == e0.scopes.len() - 1 {
        d
    } else {
        Set::empty()
    }
}

/// `e` still has every scope of `e0`, each keeping what it bound, with only
/// names of `d` added to the innermost one.
pub open spec fn keeps_scopes(e0: EnvV, e: EnvV, d: Set<Seq<char>>) -> bool {
    &&& e.scopes.len() >= e0.scopes.len()
    &&& forall|i: int|
        0 <= i < e0.scopes.len() ==> keeps_bindings(e0.scopes[i], #[trigger] e.scopes[i], may_gain(e0, i, d))
}

/// How the environment operations that running a statement performs act on
/// the scopes it found: entering a scope, leaving one of the scopes entered
/// since, assigning, and defining in a scope entered since or a name of `d`.
pub proof fn lemma_operations_keep_scopes(
    e0: EnvV,
    e: EnvV,
    d: Set<Seq<char>>,
    name: Seq<char>,
    value: ValueV,
    var: VariableV,
)
    requires
        keeps_scopes(e0, e, d),
    ensures
        keeps_scopes(e0, with_scope(e), d),
        e.scopes.len() > e0.scopes.len() ==> keeps_scopes(e0, without_scope(e), d),
        assign_spec(e, name, value) matches AssignSpec::Done(e2) ==> keeps_scopes(e0, e2, d),
        (e.scopes.len() > e0.scopes.len() || d.contains(name)) ==> (define_spec(e, name, var) matches Ok(
            e2,
        ) ==> keeps_scopes(e0, e2, d)),
{
    let w = with_scope(e);
    assert forall|i: int| 0 <= i < e0.scopes.len() implies keeps_bindings(
        e0.scopes[i],
        #[trigger] w.scopes[i],
        may_gain(e0, i, d),
    ) by {
        assert(w.scopes[i] == e.scopes[i]);
    }
    if e.scopes.len() > e0.scopes.len() {
        let o = without_scope(e);
        assert forall|i: int| 0 <= i < e0.scopes.len() implies keeps_bindings(
            e0.scopes[i],
            #[trigger] o.scopes[i],
            may_gain(e0, i, d),
        ) by {
            assert(o.scopes[i] == e.scopes[i]);
        }
    }
    lemma_innermost_agree(e.scopes, e.scopes, e.scopes.len() as int, name);
    if let AssignSpec::Done(e2) = assign_spec(e, name, value) {
        let j = innermost(e, name)->0;
        assert forall|i: int| 0 <= i < e0.scopes.len() implies keeps_bindings(
            e0.scopes[i],
            #[trigger] e2.scopes[i],
            may_gain(e0, i, d),
        ) by {
            assert(keeps_bindings(e0.scopes[i], e.scopes[i], may_gain(e0, i, d)));
            if i == j {
                assert forall|x: Seq<char>| #[trigger] e0.scopes[i].contains_key(x) implies {
                    &&& e2.scopes[i].contains_key(x)
                    &&& e2.scopes[i][x].is_mutable == e0.scopes[i][x].is_mutable
                    &&& e2.scopes[i][x].declared_type == e0.scopes[i][x].declared_type
                    &&& (!e0.scopes[i][x].is_mutable ==> e2.scopes[i][x].value
                        == e0.scopes[i][x].value)
                } by {
                    assert(e.scopes[i].contains_key(x));
                }
                assert forall|x: Seq<char>| #[trigger] e2.scopes[i].contains_key(x) implies e0.scopes[
                    i].contains_key(x) || may_gain(e0, i, d).contains(x) by {
                    assert(e.scopes[i].contains_key(x));
                }
            } else {
                assert(e2.scopes[i] == e.scopes[i]);
            }
        }
    }
    if e.scopes.len() > e0.scopes.len() || d.contains(name) {
        if let Ok(e2) = define_spec(e, name, var) {
            let k = e.scopes.len() - 1;
            assert forall|i: int| 0 <= i < e0.scopes.len() implies keeps_bindings(
                e0.scopes[i],
                #[trigger] e2.scopes[i],
                may_gain(e0, i, d),
            ) by {
                assert(keeps_bindings(e0.scopes[i], e.scopes[i], may_gain(e0, i, d)));
                if i == k {
                    assert(!e0.scopes[i].contains_key(name));
                    assert forall|x: Seq<char>| #[trigger] e0.scopes[i].contains_key(x) implies {
                        &&& e2.scopes[i].contains_key(x)
                        &&& e2.scopes[i][x].is_mutable == e0.scopes[i][x].is_mutable
                        &&& e2.scopes[i][x].declared_type == e0.scopes[i][x].declared_type
                        &&& (!e0.scopes[i][x].is_mutable ==> e2.scopes[i][x].value
                            == e0.scopes[i][x].value)
                    } by {
                        assert(e.scopes[i].contains_key(x));
                    }
                    assert forall|x: Seq<char>| #[trigger] e2.scopes[i].contains_key(x) implies e0.scopes[
                        i].contains_key(x) || may_gain(e0, i, d).contains(x) by {
                        if x != name {
                            assert(e.scopes[i].contains_key(x));
                        }
                    }
                } else {
                    assert(e2.scopes[i] == e.scopes[i]);
                }
            }
        }
    }
}

} // verus!
