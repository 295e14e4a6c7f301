//! The naming context: an append-only ledger of `(name, binding)` pairs, and
//! the type-checking algorithm that resolves variable references against it.

use vstd::prelude::*;

use crate::ast::{Binding, TType, Term, TermView};

verus! {

/// The mathematical content of a [`Context`]: the ordered sequence of its
/// entries, each a name (as characters) with its binding.
pub type CtxView = Seq<(Seq<char>, Binding)>;

/// A typing failure. Checking is fail-fast: the first failure encountered, in
/// the checker's fixed evaluation order, aborts the whole check.
#[derive(Debug, Clone, Copy, PartialEq, Eq)]
pub enum TypeError {
    /// A variable references an entry that is out of range or carries no
    /// type, or an abstraction parameter has no binding at all.
    UnboundOrUntyped,
    /// A conditional's condition is not of type `Bool`.
    NonBooleanCondition,
    /// A conditional's two branches have different types.
    BranchTypeMismatch,
    /// An abstraction parameter resolves to a bare name with no type.
    UnannotatedAbstractionParameter,
    /// The left side of an application is not of function type.
    NotAFunctionApplied,
    /// An application's argument does not have the function's domain type.
    ArgumentTypeMismatch,
}

/// The position of the earliest entry whose name is `name`, scanning from the
/// front of the context: the flat, non-shadowing lookup policy.
pub open spec fn find_name(ctx: CtxView, name: Seq<char>) -> Option<nat>
    decreases ctx.len(),
{
    if ctx.len() == 0 {
        None
    } else if ctx[0].0 == name {
        Some(0)
    } else {
        match find_name(ctx.drop_first(), name) {
            Some(j) => Some((j + 1) as nat),
            None => None,
        }
    }
}

/// What `find_name` finds is the earliest match, and it finds one whenever
/// one exists.
pub proof fn lemma_find_name(ctx: CtxView, name: Seq<char>)
    ensures
        match find_name(ctx, name) {
            Some(j) => j < ctx.len() && ctx[j as int].0 == name && (forall|k: int|
                0 <= k < j ==> ctx[k].0 != name),
            None => forall|k: int| 0 <= k < ctx.len() ==> ctx[k].0 != name,
        },
    decreases ctx.len(),
{
    if ctx.len() > 0 && ctx[0].0 != name {
        let rest = ctx.drop_first();
        lemma_find_name(rest, name);
        match find_name(rest, name) {
            Some(j) => {
                assert(rest[j as int] == ctx[j as int + 1]);
                assert forall|k: int| 0 <= k < j + 1 implies ctx[k].0 != name by {
                    if k > 0 {
                        assert(rest[k - 1] == ctx[k]);
                    }
                }
            },
            None => {
                assert forall|k: int| 0 <= k < ctx.len() implies ctx[k].0 != name by {
                    if k > 0 {
                        assert(rest[k - 1] == ctx[k]);
                    }
                }
            },
        }
    }
}

/// The typing algorithm, by structural recursion over the term. This is the
/// reference definition that the executable checker is proved against.
pub open spec fn type_of(ctx: CtxView, t: TermView) -> Result<TType, TypeError>
    decreases t,
{
    match t {
        TermView::True => Ok(TType::TBool),
        TermView::False => Ok(TType::TBool),
        TermView::Variable(i) => if i < ctx.len() {
            match ctx[i as int].1 {
                Binding::VariableBinding(ty) => Ok(ty),
                Binding::NameBinding => Err(TypeError::UnboundOrUntyped),
            }
        } else {
            Err(TypeError::UnboundOrUntyped)
        },
        TermView::Conditional(c, t1, t2) => match type_of(ctx, *c) {
            Err(e) => Err(e),
            Ok(ct) => match type_of(ctx, *t1) {
                Err(e) => Err(e),
                Ok(ty1) => match type_of(ctx, *t2) {
                    Err(e) => Err(e),
                    Ok(ty2) => if ct != TType::TBool {
                        Err(TypeError::NonBooleanCondition)
                    } else if ty1 != ty2 {
                        Err(TypeError::BranchTypeMismatch)
                    } else {
                        Ok(ty1)
                    },
                },
            },
        },
        TermView::Abstraction(name, body) => match type_of(ctx, *body) {
            Err(e) => Err(e),
            Ok(body_ty) => match find_name(ctx, name) {
                None => Err(TypeError::UnboundOrUntyped),
                Some(j) => match ctx[j as int].1 {
                    Binding::NameBinding => Err(TypeError::UnannotatedAbstractionParameter),
                    Binding::VariableBinding(param_ty) => Ok(
                        TType::TFun(Box::new(param_ty), Box::new(body_ty)),
                    ),
                },
            },
        },
        TermView::Application(f, a) => match type_of(ctx, *f) {
            Err(e) => Err(e),
            Ok(ft) => match type_of(ctx, *a) {
                Err(e) => Err(e),
                Ok(at) => match ft {
                    TType::TFun(from, to) => if *from == at {
                        Ok(*to)
                    } else {
                        Err(TypeError::ArgumentTypeMismatch)
                    },
                    TType::TBool => Err(TypeError::NotAFunctionApplied),
                },
            },
        },
    }
}

/// The append-only ledger of bindings. Entries are only ever appended; a
/// `Term::TVariable(i)` references the entry at absolute position `i`.
pub struct Context(Vec<(String, Binding)>);

impl View for Context {
    type V = CtxView;

    closed spec fn view(&self) -> CtxView {
        self.0@.map_values(|p: (String, Binding)| (p.0@, p.1))
    }
}

impl Context {
    /// A context is created empty for a building or checking session.
    pub fn new() -> (r: Self)
        ensures
            r@ == Seq::<(Seq<char>, Binding)>::empty(),
    {
        let r = Context(Vec::new());
        proof {
            assert(r@ =~= Seq::<(Seq<char>, Binding)>::empty());
        }
        r
    }

    /// Appends an entry and returns its position, the new entry's index.
    pub fn add_binding(&mut self, name: &str, binding: Binding) -> (r: usize)
        ensures
            final(self)@ == old(self)@.push((name@, binding)),
            r == old(self)@.len(),
    {
        let ghost entry = (name@, binding);
        self.0.push((name.to_owned(), binding));
        proof {
            assert(self@ =~= old(self)@.push(entry));
        }
        self.0.len() - 1
    }

    /// The number of entries appended so far.
    pub fn len(&self) -> (r: usize)
        ensures
            r == self@.len(),
    {
        self.0.len()
    }

    /// The binding at a position that is in range.
    pub fn get_binding_from_idx(&self, index: usize) -> (r: Binding)
        requires
            index < self@.len(),
        ensures
            r == self@[index as int].1,
    {
        self.0[index].1.clone()
    }

    /// The type at a position that is in range: the binding's type for a
    /// typed binding, nothing for a bare name.
    pub fn get_type_from_idx(&self, index: usize) -> (r: Option<TType>)
        requires
            index < self@.len(),
        ensures
            r == match self@[index as int].1 {
                Binding::VariableBinding(ty) => Some(ty),
                Binding::NameBinding => None::<TType>,
            },
    {
        match &self.0[index].1 {
            Binding::NameBinding => None,
            Binding::VariableBinding(ty) => Some(ty.clone()),
        }
    }

    /// The name at a position that is in range.
    pub fn get_name_from_idx(&self, index: usize) -> (r: String)
        requires
            index < self@.len(),
        ensures
            r@ == self@[index as int].0,
    {
        self.0[index].0.clone()
    }

    /// Scans from the front and returns the position of the earliest entry
    /// with this name, if any.
    pub fn get_idx_from_name(&self, name: &str) -> (r: Option<usize>)
        ensures
            match r {
                Some(i) => find_name(self@, name@) == Some(i as nat),
                None => find_name(self@, name@) is None,
            },
    {
        let n = self.0.len();
        let mut i: usize = 0;
        while i < n
            invariant
                n == self@.len(),
                i <= n,
                forall|k: int| 0 <= k < i ==> self@[k].0 != name@,
            decreases n - i,
        {
            if str_eq(self.0[i].0.as_str(), name) {
                proof {
                    lemma_find_name(self@, name@);
                    assert(self@[i as int].0 == name@);
                    match find_name(self@, name@) {
                        None => {
                            assert(false);
                        },
                        Some(j) => {
                            if j < i {
                                assert(self@[j as int].0 == name@);
                                assert(false);
                            }
                            if j > i {
                                assert(self@[i as int].0 != name@);
                                assert(false);
                            }
                        },
                    }
                }
                return Some(i);
            }
            proof {
                assert(self@[i as int].0 == self.0@[i as int].0@);
            }
            i += 1;
        }
        proof {
            lemma_find_name(self@, name@);
            match find_name(self@, name@) {
                Some(j) => {
                    assert(self@[j as int].0 != name@);
                    assert(false);
                },
                None => {},
            }
        }
        None
    }

    /// Computes the type of a term against this context, or the first typing
    /// failure met in the checker's fixed evaluation order.
    pub fn check_type(&self, term: &Term) -> (r: Result<TType, TypeError>)
        ensures
            r == type_of(self@, term@),
        decreases term,
    {
        match term {
            Term::TTrue => Ok(TType::TBool),
            Term::TFalse => Ok(TType::TBool),
            Term::TVariable(index) => {
                if *index < self.0.len() {
                    match self.get_type_from_idx(*index) {
                        Some(ty) => Ok(ty),
                        None => Err(TypeError::UnboundOrUntyped),
                    }
                } else {
                    Err(TypeError::UnboundOrUntyped)
                }
            },
            Term::TConditional(cond, t1, t2) => {
                let ct = match self.check_type(cond) {
                    Ok(ct) => ct,
                    Err(e) => {
                        return Err(e);
                    },
                };
                let ty1 = match self.check_type(t1) {
                    Ok(ty1) => ty1,
                    Err(e) => {
                        return Err(e);
                    },
                };
                let ty2 = match self.check_type(t2) {
                    Ok(ty2) => ty2,
                    Err(e) => {
                        return Err(e);
                    },
                };
                if !ttype_is_bool(&ct) {
                    Err(TypeError::NonBooleanCondition)
                } else if !crate::ast::ttype_eq(&ty1, &ty2) {
                    Err(TypeError::BranchTypeMismatch)
                } else {
                    Ok(ty1)
                }
            },
            Term::TAbstraction(name, body) => {
                let body_ty = match self.check_type(body) {
                    Ok(body_ty) => body_ty,
                    Err(e) => {
                        return Err(e);
                    },
                };
                let index = match self.get_idx_from_name(name.as_str()) {
                    Some(index) => index,
                    None => {
                        return Err(TypeError::UnboundOrUntyped);
                    },
                };
                proof {
                    lemma_find_name(self@, name@);
                }
                match self.get_type_from_idx(index) {
                    None => Err(TypeError::UnannotatedAbstractionParameter),
                    Some(param_ty) => Ok(
                        TType::TFun(Box::new(param_ty), Box::new(body_ty)),
                    ),
                }
            },
            Term::TApplication(f, a) => {
                let ft = match self.check_type(f) {
                    Ok(ft) => ft,
                    Err(e) => {
                        return Err(e);
                    },
                };
                let at = match self.check_type(a) {
                    Ok(at) => at,
                    Err(e) => {
                        return Err(e);
                    },
                };
                match ft {
                    TType::TFun(from, to) => {
                        if crate::ast::ttype_eq(&from, &at) {
                            Ok(*to)
                        } else {
                            Err(TypeError::ArgumentTypeMismatch)
                        }
                    },
                    TType::TBool => Err(TypeError::NotAFunctionApplied),
                }
            },
        }
    }
}

/// The boolean literals have type `Bool` against every context,
/// unconditionally.
pub proof fn lemma_check_bool_literals(ctx: CtxView)
    ensures
        type_of(ctx, TermView::True) == Ok::<TType, TypeError>(TType::TBool),
        type_of(ctx, TermView::False) == Ok::<TType, TypeError>(TType::TBool),
{
}

/// A variable has the type its context entry carries; a bare name binding or
/// an out-of-range position is a typing failure, never a program fault.
pub proof fn lemma_check_variable(ctx: CtxView, i: nat)
    ensures
        forall|ty: TType|
            (i < ctx.len() && ctx[i as int].1 == Binding::VariableBinding(ty)) ==> type_of(
                ctx,
                TermView::Variable(i),
            ) == Ok::<TType, TypeError>(ty),
        i < ctx.len() && ctx[i as int].1 is NameBinding ==> type_of(ctx, TermView::Variable(i))
            == Err::<TType, TypeError>(TypeError::UnboundOrUntyped),
        i >= ctx.len() ==> type_of(ctx, TermView::Variable(i)) == Err::<TType, TypeError>(
            TypeError::UnboundOrUntyped,
        ),
{
}

/// A conditional over a boolean condition and branches of one common type
/// has that type; branches of two types are a mismatch; and a non-boolean
/// condition is reported first, even when the branches also mismatch.
pub proof fn lemma_check_conditional(ctx: CtxView, c: TermView, t1: TermView, t2: TermView)
    ensures
        ({
            let r = type_of(ctx, TermView::Conditional(Box::new(c), Box::new(t1), Box::new(t2)));
            &&& (type_of(ctx, c) == Ok::<TType, TypeError>(TType::TBool) && type_of(ctx, t1) is Ok
                && type_of(ctx, t1) == type_of(ctx, t2) ==> r == type_of(ctx, t1))
            &&& (type_of(ctx, c) == Ok::<TType, TypeError>(TType::TBool) && type_of(ctx, t1) is Ok
                && type_of(ctx, t2) is Ok && type_of(ctx, t1) != type_of(ctx, t2) ==> r == Err::<
                TType,
                TypeError,
            >(TypeError::BranchTypeMismatch))
            &&& (type_of(ctx, c) matches Ok(ct) && ct != TType::TBool && type_of(ctx, t1) is Ok
                && type_of(ctx, t2) is Ok ==> r == Err::<TType, TypeError>(
                TypeError::NonBooleanCondition,
            ))
            &&& (type_of(ctx, c) is Err ==> r == type_of(ctx, c))
        }),
{
}

/// An application has the function's result type exactly when the left side
/// has a function type and the argument has its domain type; a non-function
/// left side and a wrong-typed argument are the two failures.
pub proof fn lemma_check_application(ctx: CtxView, f: TermView, a: TermView)
    ensures
        ({
            let r = type_of(ctx, TermView::Application(Box::new(f), Box::new(a)));
            &&& forall|from: TType, to: TType|
                type_of(ctx, f) == Ok::<TType, TypeError>(
                    TType::TFun(Box::new(from), Box::new(to)),
                ) && type_of(ctx, a) == Ok::<TType, TypeError>(from) ==> r == Ok::<
                    TType,
                    TypeError,
                >(to)
            &&& (r matches Ok(to) ==> exists|from: TType|
                type_of(ctx, f) == Ok::<TType, TypeError>(
                    TType::TFun(Box::new(from), Box::new(to)),
                ) && type_of(ctx, a) == Ok::<TType, TypeError>(from))
            &&& (type_of(ctx, f) == Ok::<TType, TypeError>(TType::TBool) && type_of(ctx, a) is Ok
                ==> r == Err::<TType, TypeError>(TypeError::NotAFunctionApplied))
            &&& (type_of(ctx, f) matches Ok(ft) && ft matches TType::TFun(from, _to) && type_of(
                ctx,
                a,
            ) matches Ok(at) && at != *from ==> r == Err::<TType, TypeError>(
                TypeError::ArgumentTypeMismatch,
            ))
        }),
{
    let r = type_of(ctx, TermView::Application(Box::new(f), Box::new(a)));
    if r is Ok {
        match type_of(ctx, f) {
            Ok(ft) => match ft {
                TType::TFun(from, _to) => {
                    assert(type_of(ctx, a) == Ok::<TType, TypeError>(*from));
                },
                TType::TBool => {
                    assert(false);
                },
            },
            Err(_) => {
                assert(false);
            },
        }
    }
}

/// Structural equivalence decides typing: two terms with the same shape,
/// against two contexts with the same bindings, have the same `check_type`
/// result — whether a term was assembled by the [`crate::ast::TermBuilder`]
/// or parsed from the concrete syntax makes no difference.
pub proof fn lemma_check_structural(c1: Context, c2: Context, t1: Term, t2: Term)
    requires
        c1@ == c2@,
        t1@ == t2@,
    ensures
        type_of(c1@, t1@) == type_of(c2@, t2@),
{
}

fn ttype_is_bool(t: &TType) -> (r: bool)
    ensures
        r == (*t == TType::TBool),
{
    match t {
        TType::TBool => true,
        TType::TFun(_, _) => false,
    }
}

/// Character-by-character equality of two string slices.
fn str_eq(a: &str, b: &str) -> (r: bool)
    ensures
        r == (a@ == b@),
{
    let an = a.unicode_len();
    let bn = b.unicode_len();
    if an != bn {
        return false;
    }
    let mut i: usize = 0;
    while i < an
        invariant
            an == a@.len(),
            bn == b@.len(),
            an == bn,
            i <= an,
            forall|k: int| 0 <= k < i ==> a@[k] == b@[k],
        decreases an - i,
    {
        if a.get_char(i) != b.get_char(i) {
            return false;
        }
        i += 1;
    }
    proof {
        assert(a@ =~= b@);
    }
    true
}

} // verus!
