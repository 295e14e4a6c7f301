//! The term and type data model: terms of the calculus, their types, and the
//! binding kinds that a naming context records.

use vstd::prelude::*;

use crate::context::Context;

verus! {

/// A term of the calculus. Sub-terms are exclusively owned by their parent
/// node: a term is a tree, with no sharing and no cycles.
#[derive(Debug, PartialEq, Eq)]
pub enum Term {
    TTrue,
    TFalse,
    /// A reference to a context entry by its absolute position.
    TVariable(usize),
    /// `if cond then first else second`.
    TConditional(Box<Term>, Box<Term>, Box<Term>),
    /// `fun name -> body`; the parameter's binding must already stand in the
    /// context when the term is checked.
    TAbstraction(String, Box<Term>),
    /// `func arg`.
    TApplication(Box<Term>, Box<Term>),
}

/// The mathematical shape of a [`Term`]: the same tree, with the parameter
/// name of an abstraction abstracted to its character sequence.
pub enum TermView {
    True,
    False,
    Variable(nat),
    Conditional(Box<TermView>, Box<TermView>, Box<TermView>),
    Abstraction(Seq<char>, Box<TermView>),
    Application(Box<TermView>, Box<TermView>),
}

pub open spec fn term_view(t: Term) -> TermView
    decreases t,
{
    match t {
        Term::TTrue => TermView::True,
        Term::TFalse => TermView::False,
        Term::TVariable(i) => TermView::Variable(i as nat),
        Term::TConditional(c, t1, t2) => TermView::Conditional(
            Box::new(term_view(*c)),
            Box::new(term_view(*t1)),
            Box::new(term_view(*t2)),
        ),
        Term::TAbstraction(name, body) => TermView::Abstraction(name@, Box::new(term_view(*body))),
        Term::TApplication(f, a) => TermView::Application(
            Box::new(term_view(*f)),
            Box::new(term_view(*a)),
        ),
    }
}

impl View for Term {
    type V = TermView;

    open spec fn view(&self) -> TermView {
        term_view(*self)
    }
}

impl Clone for Term {
    fn clone(&self) -> (r: Self)
        ensures
            r == *self,
        decreases self,
    {
        match self {
            Term::TTrue => Term::TTrue,
            Term::TFalse => Term::TFalse,
            Term::TVariable(i) => Term::TVariable(*i),
            Term::TConditional(c, t1, t2) => Term::TConditional(
                Box::new((**c).clone()),
                Box::new((**t1).clone()),
                Box::new((**t2).clone()),
            ),
            Term::TAbstraction(name, body) => Term::TAbstraction(
                name.clone(),
                Box::new((**body).clone()),
            ),
            Term::TApplication(f, a) => Term::TApplication(
                Box::new((**f).clone()),
                Box::new((**a).clone()),
            ),
        }
    }
}

/// A type of the calculus: the base type of booleans, or a function type.
/// Types are compared by structural equality.
#[derive(Debug, PartialEq, Eq)]
pub enum TType {
    TBool,
    TFun(Box<TType>, Box<TType>),
}

impl Clone for TType {
    fn clone(&self) -> (r: Self)
        ensures
            r == *self,
        decreases self,
    {
        match self {
            TType::TBool => TType::TBool,
            TType::TFun(a, b) => TType::TFun(Box::new((**a).clone()), Box::new((**b).clone())),
        }
    }
}

/// Structural equality of two types, as verified executable code.
pub fn ttype_eq(a: &TType, b: &TType) -> (r: bool)
    ensures
        r == (a == b),
    decreases a,
{
    match (a, b) {
        (TType::TBool, TType::TBool) => true,
        (TType::TFun(a1, a2), TType::TFun(b1, b2)) => ttype_eq(a1, b1) && ttype_eq(a2, b2),
        _ => false,
    }
}

/// An entry's role in the naming context: a declared name with no type yet,
/// or a name bound to a concrete type.
#[derive(Debug, PartialEq, Eq)]
pub enum Binding {
    NameBinding,
    VariableBinding(TType),
}

impl Clone for Binding {
    fn clone(&self) -> (r: Self)
        ensures
            r == *self,
    {
        match self {
            Binding::NameBinding => Binding::NameBinding,
            Binding::VariableBinding(t) => Binding::VariableBinding(t.clone()),
        }
    }
}

/// A convenience layer that assembles terms by hand, registering the bindings
/// that variables need into a shared [`Context`] as it goes. It builds the
/// same trees the parser would produce from the concrete syntax.
pub struct TermBuilder {}

impl TermBuilder {
    pub fn new() -> (r: Self) {
        TermBuilder {}
    }

    pub fn term_true(&self) -> (r: Term)
        ensures
            r@ == TermView::True,
    {
        Term::TTrue
    }

    pub fn term_false(&self) -> (r: Term)
        ensures
            r@ == TermView::False,
    {
        Term::TFalse
    }

    /// Registers `name` with a concrete type and returns a variable term
    /// referencing the new binding's position.
    pub fn var_typed(&mut self, context: &mut Context, ttype: TType, name: &str) -> (r: Term)
        ensures
            final(context)@ == old(context)@.push((name@, Binding::VariableBinding(ttype))),
            r@ == TermView::Variable(old(context)@.len()),
    {
        let idx = context.add_binding(name, Binding::VariableBinding(ttype));
        Term::TVariable(idx)
    }

    /// Registers `name` as a bare, as-yet-untyped placeholder and returns a
    /// variable term referencing the new binding's position.
    pub fn var(&mut self, context: &mut Context, name: &str) -> (r: Term)
        ensures
            final(context)@ == old(context)@.push((name@, Binding::NameBinding)),
            r@ == TermView::Variable(old(context)@.len()),
    {
        let idx = context.add_binding(name, Binding::NameBinding);
        Term::TVariable(idx)
    }

    pub fn application(&self, func: Term, arg: Term) -> (r: Term)
        ensures
            r@ == TermView::Application(Box::new(func@), Box::new(arg@)),
    {
        Term::TApplication(Box::new(func), Box::new(arg))
    }

    pub fn abstraction(&self, param: &str, body: Term) -> (r: Term)
        ensures
            r@ == TermView::Abstraction(param@, Box::new(body@)),
    {
        Term::TAbstraction(param.to_owned(), Box::new(body))
    }

    /// Builds a body with the given callback, then wraps it in an
    /// abstraction over `param`.
    pub fn lambda<F: FnOnce() -> Term>(&self, param: &str, body_fn: F) -> (r: Term)
        requires
            call_requires(body_fn, ()),
        ensures
            exists|body: Term|
                (#[trigger] call_ensures(body_fn, (), body)) && r@ == TermView::Abstraction(
                    param@,
                    Box::new(body@),
                ),
    {
        let body = body_fn();
        self.abstraction(param, body)
    }

    pub fn conditional(&self, cond: Term, when_true: Term, when_false: Term) -> (r: Term)
        ensures
            r@ == TermView::Conditional(
                Box::new(cond@),
                Box::new(when_true@),
                Box::new(when_false@),
            ),
    {
        Term::TConditional(Box::new(cond), Box::new(when_true), Box::new(when_false))
    }
}

} // verus!
