//! The concrete-syntax parser: source text to terms, registering the
//! declarations it meets into a shared naming context as it goes.
//!
//! The grammar, with whitespace allowed between tokens:
//!
//! ```text
//! term        := lambda | conditional | application
//! lambda      := "fun" ident "->" term
//! conditional := "if" term "then" term "else" term
//! application := atom atom?        (two atoms: function then argument)
//! atom        := "true" | "false" | "(" term ")" | declaration | ident
//! declaration := ident ":" typename    (only the typename "Bool" is supported)
//! ```
//!
//! A declaration registers a `Bool`-typed binding in the shared context at
//! once and stands for a variable referencing it; a bare identifier resolves
//! to the earliest context entry with that name. The reference definition of
//! this algorithm is the `spec_parse_*` family below, and the executable
//! functions are proved to return exactly what it describes.

use vstd::prelude::*;

use crate::ast::{Binding, TType, Term, TermView};
use crate::context::{find_name, Context, CtxView};
use vstd::string::StrSliceExecFns;

verus! {

/// A parse failure: a grammar-level mismatch at a position, or a structural
/// violation found after a successful match.
#[derive(Debug, Clone, Copy, PartialEq, Eq)]
pub enum ParseFailure {
    /// Unexpected text at this character position.
    UnexpectedInput(usize),
    /// The input ended where more was required.
    UnexpectedEnd(usize),
    /// A declaration names a type other than `Bool`, at this position.
    UnsupportedTypeName(usize),
    /// A bare name at this position resolves to no context entry.
    UnboundName(usize),
}

pub open spec fn spec_ws(c: char) -> bool {
    c == ' ' || c == '\t' || c == '\n' || c == '\r'
}

pub open spec fn spec_ident_start(c: char) -> bool {
    (('a' as u32) <= (c as u32) && (c as u32) <= ('z' as u32)) || (('A' as u32) <= (c as u32) && (c
        as u32) <= ('Z' as u32)) || c == '_'
}

pub open spec fn spec_ident_char(c: char) -> bool {
    spec_ident_start(c) || (('0' as u32) <= (c as u32) && (c as u32) <= ('9' as u32))
}

/// How many whitespace characters stand at `pos`.
pub open spec fn ws_len(s: Seq<char>, pos: nat) -> nat
    decreases s.len() - pos,
{
    if pos < s.len() && spec_ws(s[pos as int]) {
        1 + ws_len(s, pos + 1)
    } else {
        0
    }
}

/// How many identifier characters stand at `pos`.
pub open spec fn ident_len(s: Seq<char>, pos: nat) -> nat
    decreases s.len() - pos,
{
    if pos < s.len() && spec_ident_char(s[pos as int]) {
        1 + ident_len(s, pos + 1)
    } else {
        0
    }
}

/// The keyword `fun` stands at `p` as a whole word: its characters, with no
/// identifier character directly after them. The other keyword predicates
/// below read the same way.
pub open spec fn kw_fun_at(s: Seq<char>, p: nat) -> bool {
    p + 3 <= s.len() && s[p as int] == 'f' && s[p as int + 1] == 'u' && s[p as int + 2] == 'n' && (p
        + 3 == s.len() || !spec_ident_char(s[p as int + 3]))
}

pub open spec fn kw_if_at(s: Seq<char>, p: nat) -> bool {
    p + 2 <= s.len() && s[p as int] == 'i' && s[p as int + 1] == 'f' && (p + 2 == s.len()
        || !spec_ident_char(s[p as int + 2]))
}

pub open spec fn kw_then_at(s: Seq<char>, p: nat) -> bool {
    p + 4 <= s.len() && s[p as int] == 't' && s[p as int + 1] == 'h' && s[p as int + 2] == 'e' && s[p
        as int + 3] == 'n' && (p + 4 == s.len() || !spec_ident_char(s[p as int + 4]))
}

pub open spec fn kw_else_at(s: Seq<char>, p: nat) -> bool {
    p + 4 <= s.len() && s[p as int] == 'e' && s[p as int + 1] == 'l' && s[p as int + 2] == 's' && s[p
        as int + 3] == 'e' && (p + 4 == s.len() || !spec_ident_char(s[p as int + 4]))
}

pub open spec fn kw_true_at(s: Seq<char>, p: nat) -> bool {
    p + 4 <= s.len() && s[p as int] == 't' && s[p as int + 1] == 'r' && s[p as int + 2] == 'u' && s[p
        as int + 3] == 'e' && (p + 4 == s.len() || !spec_ident_char(s[p as int + 4]))
}

pub open spec fn kw_false_at(s: Seq<char>, p: nat) -> bool {
    p + 5 <= s.len() && s[p as int] == 'f' && s[p as int + 1] == 'a' && s[p as int + 2] == 'l' && s[p
        as int + 3] == 's' && s[p as int + 4] == 'e' && (p + 5 == s.len() || !spec_ident_char(
        s[p as int + 5],
    ))
}

/// The supported typename `Bool` stands at `p` as a whole word.
pub open spec fn ty_bool_at(s: Seq<char>, p: nat) -> bool {
    p + 4 <= s.len() && s[p as int] == 'B' && s[p as int + 1] == 'o' && s[p as int + 2] == 'o' && s[p
        as int + 3] == 'l' && (p + 4 == s.len() || !spec_ident_char(s[p as int + 4]))
}

/// One of the reserved words stands at `p`; an identifier may not be one.
pub open spec fn keyword_at(s: Seq<char>, p: nat) -> bool {
    kw_fun_at(s, p) || kw_if_at(s, p) || kw_then_at(s, p) || kw_else_at(s, p) || kw_true_at(s, p)
        || kw_false_at(s, p)
}

/// One step of the reference parser: the parsed term or the failure, the
/// position directly after what was consumed, and the context as the step
/// leaves it.
pub struct PStep {
    pub res: Result<TermView, ParseFailure>,
    pub next: nat,
    pub ctx: CtxView,
}

/// An atom can begin at `pos`: an opening parenthesis, or a word that is not
/// one of the keywords that open or close the surrounding forms.
pub open spec fn atom_starts_at(s: Seq<char>, pos: nat) -> bool {
    pos < s.len() && (s[pos as int] == '(' || (spec_ident_start(s[pos as int]) && !kw_fun_at(s, pos)
        && !kw_if_at(s, pos) && !kw_then_at(s, pos) && !kw_else_at(s, pos)))
}

/// The reference parser for `term`. The guards on `next` positions only
/// state that parsing advances, which every branch below ensures; they let
/// the recursion's measure fall.
pub open spec fn spec_parse_term(s: Seq<char>, pos: nat, ctx: CtxView) -> PStep
    decreases s.len() - pos, 2int,
{
    let p = pos + ws_len(s, pos);
    if p >= s.len() {
        PStep { res: Err(ParseFailure::UnexpectedEnd(p as usize)), next: p, ctx }
    } else if kw_fun_at(s, p) {
        let q = (p + 3) + ws_len(s, p + 3);
        if q >= s.len() {
            PStep { res: Err(ParseFailure::UnexpectedEnd(q as usize)), next: q, ctx }
        } else {
            let nl = ident_len(s, q);
            if nl == 0 || keyword_at(s, q) {
                PStep { res: Err(ParseFailure::UnexpectedInput(q as usize)), next: q, ctx }
            } else {
                let name = s.subrange(q as int, q as int + nl as int);
                let a = (q + nl) + ws_len(s, q + nl);
                if a + 2 <= s.len() && s[a as int] == '-' && s[a as int + 1] == '>' {
                    let body = spec_parse_term(s, a + 2, ctx);
                    match body.res {
                        Err(_) => body,
                        Ok(b) => PStep {
                            res: Ok(TermView::Abstraction(name, Box::new(b))),
                            next: body.next,
                            ctx: body.ctx,
                        },
                    }
                } else if a >= s.len() {
                    PStep { res: Err(ParseFailure::UnexpectedEnd(a as usize)), next: a, ctx }
                } else {
                    PStep { res: Err(ParseFailure::UnexpectedInput(a as usize)), next: a, ctx }
                }
            }
        }
    } else if kw_if_at(s, p) {
        let c = spec_parse_term(s, p + 2, ctx);
        match c.res {
            Err(_) => c,
            Ok(ct) => if !(pos < c.next && c.next <= s.len()) {
                c
            } else {
                let q = c.next + ws_len(s, c.next);
                if kw_then_at(s, q) {
                    let t1 = spec_parse_term(s, q + 4, c.ctx);
                    match t1.res {
                        Err(_) => t1,
                        Ok(tt1) => if !(pos < t1.next && t1.next <= s.len()) {
                            t1
                        } else {
                            let q2 = t1.next + ws_len(s, t1.next);
                            if kw_else_at(s, q2) {
                                let t2 = spec_parse_term(s, q2 + 4, t1.ctx);
                                match t2.res {
                                    Err(_) => t2,
                                    Ok(tt2) => PStep {
                                        res: Ok(
                                            TermView::Conditional(
                                                Box::new(ct),
                                                Box::new(tt1),
                                                Box::new(tt2),
                                            ),
                                        ),
                                        next: t2.next,
                                        ctx: t2.ctx,
                                    },
                                }
                            } else if q2 >= s.len() {
                                PStep {
                                    res: Err(ParseFailure::UnexpectedEnd(q2 as usize)),
                                    next: q2,
                                    ctx: t1.ctx,
                                }
                            } else {
                                PStep {
                                    res: Err(ParseFailure::UnexpectedInput(q2 as usize)),
                                    next: q2,
                                    ctx: t1.ctx,
                                }
                            }
                        },
                    }
                } else if q >= s.len() {
                    PStep {
                        res: Err(ParseFailure::UnexpectedEnd(q as usize)),
                        next: q,
                        ctx: c.ctx,
                    }
                } else {
                    PStep {
                        res: Err(ParseFailure::UnexpectedInput(q as usize)),
                        next: q,
                        ctx: c.ctx,
                    }
                }
            },
        }
    } else {
        spec_parse_app(s, pos, ctx)
    }
}

/// The reference parser for `application`: an atom, then a second atom as
/// the argument where one begins.
pub open spec fn spec_parse_app(s: Seq<char>, pos: nat, ctx: CtxView) -> PStep
    decreases s.len() - pos, 1int,
{
    let st1 = spec_parse_atom(s, pos, ctx);
    match st1.res {
        Err(_) => st1,
        Ok(t1) => if !(pos < st1.next && st1.next <= s.len()) {
            st1
        } else {
            let q = st1.next + ws_len(s, st1.next);
            if atom_starts_at(s, q) {
                let st2 = spec_parse_atom(s, q, st1.ctx);
                match st2.res {
                    Err(_) => st2,
                    Ok(t2) => PStep {
                        res: Ok(TermView::Application(Box::new(t1), Box::new(t2))),
                        next: st2.next,
                        ctx: st2.ctx,
                    },
                }
            } else {
                st1
            }
        },
    }
}

/// The reference parser for `atom`.
pub open spec fn spec_parse_atom(s: Seq<char>, pos: nat, ctx: CtxView) -> PStep
    decreases s.len() - pos, 0int,
{
    let p = pos + ws_len(s, pos);
    if p >= s.len() {
        PStep { res: Err(ParseFailure::UnexpectedEnd(p as usize)), next: p, ctx }
    } else if s[p as int] == '(' {
        let inner = spec_parse_term(s, p + 1, ctx);
        match inner.res {
            Err(_) => inner,
            Ok(t) => if !(pos < inner.next && inner.next <= s.len()) {
                inner
            } else {
                let q = inner.next + ws_len(s, inner.next);
                if q < s.len() && s[q as int] == ')' {
                    PStep { res: Ok(t), next: q + 1, ctx: inner.ctx }
                } else if q >= s.len() {
                    PStep {
                        res: Err(ParseFailure::UnexpectedEnd(q as usize)),
                        next: q,
                        ctx: inner.ctx,
                    }
                } else {
                    PStep {
                        res: Err(ParseFailure::UnexpectedInput(q as usize)),
                        next: q,
                        ctx: inner.ctx,
                    }
                }
            },
        }
    } else if kw_true_at(s, p) {
        PStep { res: Ok(TermView::True), next: p + 4, ctx }
    } else if kw_false_at(s, p) {
        PStep { res: Ok(TermView::False), next: p + 5, ctx }
    } else if keyword_at(s, p) {
        PStep { res: Err(ParseFailure::UnexpectedInput(p as usize)), next: p, ctx }
    } else if spec_ident_start(s[p as int]) {
        let nl = ident_len(s, p);
        let name = s.subrange(p as int, p as int + nl as int);
        let q = (p + nl) + ws_len(s, p + nl);
        if q < s.len() && s[q as int] == ':' {
            let q2 = (q + 1) + ws_len(s, q + 1);
            if q2 >= s.len() {
                PStep { res: Err(ParseFailure::UnexpectedEnd(q2 as usize)), next: q2, ctx }
            } else if ty_bool_at(s, q2) {
                PStep {
                    res: Ok(TermView::Variable(ctx.len())),
                    next: q2 + 4,
                    ctx: ctx.push((name, Binding::VariableBinding(TType::TBool))),
                }
            } else if ident_len(s, q2) > 0 {
                PStep { res: Err(ParseFailure::UnsupportedTypeName(q2 as usize)), next: q2, ctx }
            } else {
                PStep { res: Err(ParseFailure::UnexpectedInput(q2 as usize)), next: q2, ctx }
            }
        } else {
            match find_name(ctx, name) {
                Some(j) => PStep { res: Ok(TermView::Variable(j)), next: p + nl, ctx },
                None => PStep { res: Err(ParseFailure::UnboundName(p as usize)), next: p, ctx },
            }
        }
    } else {
        PStep { res: Err(ParseFailure::UnexpectedInput(p as usize)), next: p, ctx }
    }
}

/// The reference behaviour of [`parse`]: a whole `term`, with nothing but
/// whitespace after it.
pub open spec fn spec_parse(s: Seq<char>, ctx: CtxView) -> (Result<TermView, ParseFailure>, CtxView) {
    let st = spec_parse_term(s, 0, ctx);
    match st.res {
        Err(e) => (Err(e), st.ctx),
        Ok(t) => {
            let q = st.next + ws_len(s, st.next);
            if q == s.len() {
                (Ok(t), st.ctx)
            } else {
                (Err(ParseFailure::UnexpectedInput(q as usize)), st.ctx)
            }
        },
    }
}

/// An executable result returns what the reference parser describes: the
/// same failure, or a term whose shape is the described one.
pub open spec fn res_agrees(r: Result<Term, ParseFailure>, v: Result<TermView, ParseFailure>) -> bool {
    match (r, v) {
        (Ok(t), Ok(tv)) => t@ == tv,
        (Err(e1), Err(e2)) => e1 == e2,
        _ => false,
    }
}

/// Parses one whole term out of `source` against `context`, which collects
/// the declarations met on the way; trailing input that is not whitespace is
/// a failure. Returns and changes exactly what [`spec_parse`] describes.
pub fn parse(source: &str, context: &mut Context) -> (r: Result<Term, ParseFailure>)
    ensures
        res_agrees(r, spec_parse(source@, old(context)@).0),
        final(context)@ == spec_parse(source@, old(context)@).1,
{
    let n = source.unicode_len();
    let st = parse_term_at(source, n, 0, context);
    match st.0 {
        Err(e) => Err(e),
        Ok(t) => {
            let q = ws_end(source, n, st.1);
            if q == n {
                Ok(t)
            } else {
                Err(ParseFailure::UnexpectedInput(q))
            }
        },
    }
}

/// A word that can stand as an identifier in the concrete syntax: identifier
/// characters, starting with a non-digit, and not a reserved word.
pub open spec fn valid_ident(w: Seq<char>) -> bool {
    w.len() > 0 && spec_ident_start(w[0]) && (forall|k: int|
        0 <= k < w.len() ==> spec_ident_char(#[trigger] w[k])) && w != seq!['f', 'u', 'n'] && w
        != seq!['i', 'f'] && w != seq!['t', 'h', 'e', 'n'] && w != seq!['e', 'l', 's', 'e'] && w
        != seq!['t', 'r', 'u', 'e'] && w != seq!['f', 'a', 'l', 's', 'e']
}

/// A term that the canonical rendering below can write down against `ctx`:
/// every variable references an entry whose name is a valid identifier and
/// resolves back to that very entry, and every abstraction parameter is a
/// valid identifier.
pub open spec fn renderable(ctx: CtxView, t: TermView) -> bool
    decreases t,
{
    match t {
        TermView::True => true,
        TermView::False => true,
        TermView::Variable(i) => i < ctx.len() && valid_ident(ctx[i as int].0) && find_name(
            ctx,
            ctx[i as int].0,
        ) == Some(i),
        TermView::Conditional(c, t1, t2) => renderable(ctx, *c) && renderable(ctx, *t1)
            && renderable(ctx, *t2),
        TermView::Abstraction(name, b) => valid_ident(name) && renderable(ctx, *b),
        TermView::Application(f, a) => renderable(ctx, *f) && renderable(ctx, *a),
    }
}

/// The canonical concrete syntax of a renderable term: variables by their
/// context entry's name, both sides of an application parenthesized.
pub open spec fn render(ctx: CtxView, t: TermView) -> Seq<char>
    decreases t,
{
    match t {
        TermView::True => seq!['t', 'r', 'u', 'e'],
        TermView::False => seq!['f', 'a', 'l', 's', 'e'],
        TermView::Variable(i) => if i < ctx.len() {
            ctx[i as int].0
        } else {
            Seq::empty()
        },
        TermView::Conditional(c, t1, t2) => seq!['i', 'f', ' '] + render(ctx, *c) + seq![
            ' ',
            't',
            'h',
            'e',
            'n',
            ' ',
        ] + render(ctx, *t1) + seq![' ', 'e', 'l', 's', 'e', ' '] + render(ctx, *t2),
        TermView::Abstraction(name, b) => seq!['f', 'u', 'n', ' '] + name + seq![' ', '-', '>', ' ']
            + render(ctx, *b),
        TermView::Application(f, a) => seq!['('] + render(ctx, *f) + seq![')', ' ', '('] + render(
            ctx,
            *a,
        ) + seq![')'],
    }
}

/// What may stand after a rendered term for the parser to stop there: the
/// end of the input, a closing parenthesis, or a space followed by `then` or
/// `else`.
pub open spec fn stop_after(s: Seq<char>, end: nat) -> bool {
    end == s.len() || (end < s.len() && s[end as int] == ')') || (end < s.len() && s[end as int]
        == ' ' && (kw_then_at(s, end + 1) || kw_else_at(s, end + 1)))
}

/// An identifier's first character is no whitespace and no parenthesis.
proof fn lemma_ident_start_char(c: char)
    requires
        spec_ident_start(c),
    ensures
        !spec_ws(c),
        c != '(',
{
}

proof fn lemma_render_first(ctx: CtxView, t: TermView)
    requires
        renderable(ctx, t),
    ensures
        render(ctx, t).len() > 0,
        !spec_ws(render(ctx, t)[0]),
{
    match t {
        TermView::True => {
            assert(render(ctx, t)[0] == 't');
        },
        TermView::False => {
            assert(render(ctx, t)[0] == 'f');
        },
        TermView::Variable(i) => {
            assert(render(ctx, t) == ctx[i as int].0);
            assert(spec_ident_start(render(ctx, t)[0]));
            lemma_ident_start_char(render(ctx, t)[0]);
        },
        TermView::Conditional(_c, _t1, _t2) => {
            assert(render(ctx, t)[0] == 'i');
        },
        TermView::Abstraction(_name, _b) => {
            assert(render(ctx, t)[0] == 'f');
        },
        TermView::Application(_f, _a) => {
            assert(render(ctx, t)[0] == '(');
        },
    }
}

/// Where an identifier's characters stand with no identifier character
/// after them, the identifier scan reads exactly them.
proof fn lemma_ident_len_is(s: Seq<char>, p: nat, w: Seq<char>)
    requires
        p + w.len() <= s.len(),
        forall|k: int| 0 <= k < w.len() ==> s[p + k] == #[trigger] w[k],
        forall|k: int| 0 <= k < w.len() ==> spec_ident_char(#[trigger] w[k]),
        p + w.len() == s.len() || !spec_ident_char(s[(p + w.len()) as int]),
    ensures
        ident_len(s, p) == w.len(),
    decreases w.len(),
{
    if w.len() > 0 {
        assert(s[p as int] == w[0] && spec_ident_char(w[0]));
        let w2 = w.drop_first();
        assert forall|k: int| 0 <= k < w2.len() implies s[p + 1 + k] == #[trigger] w2[k] by {
            assert(w2[k] == w[k + 1]);
        }
        assert forall|k: int| 0 <= k < w2.len() implies spec_ident_char(#[trigger] w2[k]) by {
            assert(w2[k] == w[k + 1]);
        }
        lemma_ident_len_is(s, p + 1, w2);
    }
}

/// Where a valid identifier's characters stand with no identifier character
/// after them, no reserved word stands.
proof fn lemma_ident_no_keyword(s: Seq<char>, p: nat, w: Seq<char>)
    requires
        valid_ident(w),
        p + w.len() <= s.len(),
        forall|k: int| 0 <= k < w.len() ==> s[p + k] == #[trigger] w[k],
        p + w.len() == s.len() || !spec_ident_char(s[(p + w.len()) as int]),
    ensures
        !keyword_at(s, p),
{
    let wl = w.len() as int;
    if kw_fun_at(s, p) {
        if wl > 3 {
            assert(s[p as int + 3] == w[3] && spec_ident_char(w[3]));
        } else if wl == 3 {
            assert(w[0] == s[p as int] && w[1] == s[p as int + 1] && w[2] == s[p as int + 2]);
            assert(w =~= seq!['f', 'u', 'n']);
        } else {
            assert(s[(p + w.len()) as int] == 'u' || s[(p + w.len()) as int] == 'n');
        }
        assert(false);
    }
    if kw_if_at(s, p) {
        if wl > 2 {
            assert(s[p as int + 2] == w[2] && spec_ident_char(w[2]));
        } else if wl == 2 {
            assert(w[0] == s[p as int] && w[1] == s[p as int + 1]);
            assert(w =~= seq!['i', 'f']);
        } else {
            assert(s[(p + w.len()) as int] == 'f');
        }
        assert(false);
    }
    if kw_then_at(s, p) {
        if wl > 4 {
            assert(s[p as int + 4] == w[4] && spec_ident_char(w[4]));
        } else if wl == 4 {
            assert(w[0] == s[p as int] && w[1] == s[p as int + 1] && w[2] == s[p as int + 2] && w[3]
                == s[p as int + 3]);
            assert(w =~= seq!['t', 'h', 'e', 'n']);
        } else {
            assert(s[(p + w.len()) as int] == 'h' || s[(p + w.len()) as int] == 'e' || s[(p
                + w.len()) as int] == 'n');
        }
        assert(false);
    }
    if kw_else_at(s, p) {
        if wl > 4 {
            assert(s[p as int + 4] == w[4] && spec_ident_char(w[4]));
        } else if wl == 4 {
            assert(w[0] == s[p as int] && w[1] == s[p as int + 1] && w[2] == s[p as int + 2] && w[3]
                == s[p as int + 3]);
            assert(w =~= seq!['e', 'l', 's', 'e']);
        } else {
            assert(s[(p + w.len()) as int] == 'l' || s[(p + w.len()) as int] == 's' || s[(p
                + w.len()) as int] == 'e');
        }
        assert(false);
    }
    if kw_true_at(s, p) {
        if wl > 4 {
            assert(s[p as int + 4] == w[4] && spec_ident_char(w[4]));
        } else if wl == 4 {
            assert(w[0] == s[p as int] && w[1] == s[p as int + 1] && w[2] == s[p as int + 2] && w[3]
                == s[p as int + 3]);
            assert(w =~= seq!['t', 'r', 'u', 'e']);
        } else {
            assert(s[(p + w.len()) as int] == 'r' || s[(p + w.len()) as int] == 'u' || s[(p
                + w.len()) as int] == 'e');
        }
        assert(false);
    }
    if kw_false_at(s, p) {
        if wl > 5 {
            assert(s[p as int + 5] == w[5] && spec_ident_char(w[5]));
        } else if wl == 5 {
            assert(w[0] == s[p as int] && w[1] == s[p as int + 1] && w[2] == s[p as int + 2] && w[3]
                == s[p as int + 3] && w[4] == s[p as int + 4]);
            assert(w =~= seq!['f', 'a', 'l', 's', 'e']);
        } else {
            assert(s[(p + w.len()) as int] == 'a' || s[(p + w.len()) as int] == 'l' || s[(p
                + w.len()) as int] == 's' || s[(p + w.len()) as int] == 'e');
        }
        assert(false);
    }
}

/// Where each character of a rendered conditional stands: the `if` header,
/// the condition, ` then `, the first branch, ` else `, the second branch.
proof fn lemma_cond_layout(rc: Seq<char>, r1: Seq<char>, r2: Seq<char>)
    ensures
        ({
            let r = seq!['i', 'f', ' '] + rc + seq![' ', 't', 'h', 'e', 'n', ' '] + r1 + seq![
                ' ',
                'e',
                'l',
                's',
                'e',
                ' ',
            ] + r2;
            let lc = rc.len() as int;
            let l1 = r1.len() as int;
            &&& r.len() == 15 + rc.len() + r1.len() + r2.len()
            &&& r[0] == 'i' && r[1] == 'f' && r[2] == ' '
            &&& forall|k: int| 0 <= k < rc.len() ==> r[3 + k] == #[trigger] rc[k]
            &&& r[3 + lc] == ' ' && r[4 + lc] == 't' && r[5 + lc] == 'h' && r[6 + lc] == 'e' && r[7
                + lc] == 'n' && r[8 + lc] == ' '
            &&& forall|k: int| 0 <= k < r1.len() ==> r[9 + lc + k] == #[trigger] r1[k]
            &&& r[9 + lc + l1] == ' ' && r[10 + lc + l1] == 'e' && r[11 + lc + l1] == 'l' && r[12
                + lc + l1] == 's' && r[13 + lc + l1] == 'e' && r[14 + lc + l1] == ' '
            &&& forall|k: int| 0 <= k < r2.len() ==> r[15 + lc + l1 + k] == #[trigger] r2[k]
        }),
{
    let a = seq!['i', 'f', ' '];
    let b = seq![' ', 't', 'h', 'e', 'n', ' '];
    let c = seq![' ', 'e', 'l', 's', 'e', ' '];
    let s1 = a + rc;
    let s2 = s1 + b;
    let s3 = s2 + r1;
    let s4 = s3 + c;
    let r = s4 + r2;
    let lc = rc.len() as int;
    let l1 = r1.len() as int;
    assert(forall|k: int| 0 <= k < s4.len() ==> #[trigger] r[k] == s4[k]);
    assert(forall|k: int| 0 <= k < s3.len() ==> #[trigger] s4[k] == s3[k]);
    assert(forall|k: int| 0 <= k < s2.len() ==> #[trigger] s3[k] == s2[k]);
    assert(forall|k: int| 0 <= k < s1.len() ==> #[trigger] s2[k] == s1[k]);
    assert(r[0] == 'i' && r[1] == 'f' && r[2] == ' ');
    assert forall|k: int| 0 <= k < rc.len() implies r[3 + k] == #[trigger] rc[k] by {
        assert(s1[3 + k] == rc[k]);
    }
    assert(s2[s1.len() as int] == b[0]);
    assert(s2[s1.len() as int + 1] == b[1]);
    assert(s2[s1.len() as int + 2] == b[2]);
    assert(s2[s1.len() as int + 3] == b[3]);
    assert(s2[s1.len() as int + 4] == b[4]);
    assert(s2[s1.len() as int + 5] == b[5]);
    assert(r[3 + lc] == ' ' && r[4 + lc] == 't' && r[5 + lc] == 'h' && r[6 + lc] == 'e' && r[7 + lc]
        == 'n' && r[8 + lc] == ' ');
    assert forall|k: int| 0 <= k < r1.len() implies r[9 + lc + k] == #[trigger] r1[k] by {
        assert(s3[s2.len() + k] == r1[k]);
    }
    assert(s4[s3.len() as int] == c[0]);
    assert(s4[s3.len() as int + 1] == c[1]);
    assert(s4[s3.len() as int + 2] == c[2]);
    assert(s4[s3.len() as int + 3] == c[3]);
    assert(s4[s3.len() as int + 4] == c[4]);
    assert(s4[s3.len() as int + 5] == c[5]);
    assert(r[9 + lc + l1] == ' ' && r[10 + lc + l1] == 'e' && r[11 + lc + l1] == 'l' && r[12 + lc
        + l1] == 's' && r[13 + lc + l1] == 'e' && r[14 + lc + l1] == ' ');
    assert forall|k: int| 0 <= k < r2.len() implies r[15 + lc + l1 + k] == #[trigger] r2[k] by {
        assert(r[s4.len() + k] == r2[k]);
    }
}

/// Parsing a `term` where a rendered term stands, after whitespace and with
/// a stop after it, consumes exactly that rendering, yields exactly that
/// term, and leaves the context as it was.
#[verifier::rlimit(100)]
#[verifier::spinoff_prover]
proof fn lemma_parse_render_at(s: Seq<char>, pos: nat, ctx: CtxView, t: TermView)
    requires
        renderable(ctx, t),
        ({
            let p = pos + ws_len(s, pos);
            &&& p + render(ctx, t).len() <= s.len()
            &&& s.subrange(p as int, p as int + render(ctx, t).len() as int) == render(ctx, t)
            &&& stop_after(s, p + render(ctx, t).len())
        }),
    ensures
        spec_parse_term(s, pos, ctx) == (PStep {
            res: Ok::<TermView, ParseFailure>(t),
            next: pos + ws_len(s, pos) + render(ctx, t).len(),
            ctx,
        }),
    decreases t, 1int,
{
    let p = pos + ws_len(s, pos);
    let lr = render(ctx, t).len();
    let end = p + lr;
    lemma_render_first(ctx, t);
    assert(s[p as int] == render(ctx, t)[0]);
    match t {
        TermView::True => {
            assert(s[p as int] == 't' && s[p as int + 1] == 'r' && s[p as int + 2] == 'u' && s[p
                as int + 3] == 'e');
            assert(kw_true_at(s, p));
            assert(spec_parse_atom(s, pos, ctx) == (PStep {
                res: Ok::<TermView, ParseFailure>(t),
                next: end,
                ctx,
            }));
            lemma_stop_no_atom(s, end);
            assert(spec_parse_app(s, pos, ctx) == (PStep {
                res: Ok::<TermView, ParseFailure>(t),
                next: end,
                ctx,
            }));
        },
        TermView::False => {
            assert(s[p as int] == 'f' && s[p as int + 1] == 'a' && s[p as int + 2] == 'l' && s[p
                as int + 3] == 's' && s[p as int + 4] == 'e');
            assert(!kw_true_at(s, p));
            assert(kw_false_at(s, p));
            assert(!kw_fun_at(s, p));
            assert(spec_parse_atom(s, pos, ctx) == (PStep {
                res: Ok::<TermView, ParseFailure>(t),
                next: end,
                ctx,
            }));
            lemma_stop_no_atom(s, end);
            assert(spec_parse_app(s, pos, ctx) == (PStep {
                res: Ok::<TermView, ParseFailure>(t),
                next: end,
                ctx,
            }));
        },
        TermView::Conditional(_c, _t1, _t2) => {
            lemma_rt_conditional(s, pos, ctx, t);
        },
        TermView::Variable(_i) => {
            lemma_rt_variable(s, pos, ctx, t);
        },
        TermView::Abstraction(_name, _b) => {
            lemma_rt_abstraction(s, pos, ctx, t);
        },
        TermView::Application(_f, _a) => {
            lemma_rt_application(s, pos, ctx, t);
        },
    }
}

/// Where each character of a rendered abstraction stands: the `fun` header,
/// the parameter name, the arrow, the body.
proof fn lemma_abs_layout(name: Seq<char>, rb: Seq<char>)
    ensures
        ({
            let r = seq!['f', 'u', 'n', ' '] + name + seq![' ', '-', '>', ' '] + rb;
            let nl = name.len() as int;
            &&& r.len() == 8 + name.len() + rb.len()
            &&& r[0] == 'f' && r[1] == 'u' && r[2] == 'n' && r[3] == ' '
            &&& forall|k: int| 0 <= k < name.len() ==> r[4 + k] == #[trigger] name[k]
            &&& r[4 + nl] == ' ' && r[5 + nl] == '-' && r[6 + nl] == '>' && r[7 + nl] == ' '
            &&& forall|k: int| 0 <= k < rb.len() ==> r[8 + nl + k] == #[trigger] rb[k]
        }),
{
    let a = seq!['f', 'u', 'n', ' '];
    let b = seq![' ', '-', '>', ' '];
    let s1 = a + name;
    let s2 = s1 + b;
    let r = s2 + rb;
    let nl = name.len() as int;
    assert(forall|k: int| 0 <= k < s2.len() ==> #[trigger] r[k] == s2[k]);
    assert(forall|k: int| 0 <= k < s1.len() ==> #[trigger] s2[k] == s1[k]);
    assert(r[0] == 'f' && r[1] == 'u' && r[2] == 'n' && r[3] == ' ');
    assert forall|k: int| 0 <= k < name.len() implies r[4 + k] == #[trigger] name[k] by {
        assert(s1[4 + k] == name[k]);
    }
    assert(s2[s1.len() as int] == b[0]);
    assert(s2[s1.len() as int + 1] == b[1]);
    assert(s2[s1.len() as int + 2] == b[2]);
    assert(s2[s1.len() as int + 3] == b[3]);
    assert(r[4 + nl] == ' ' && r[5 + nl] == '-' && r[6 + nl] == '>' && r[7 + nl] == ' ');
    assert forall|k: int| 0 <= k < rb.len() implies r[8 + nl + k] == #[trigger] rb[k] by {
        assert(r[s2.len() + k] == rb[k]);
    }
}

/// Where each character of a rendered application stands: the parenthesized
/// function, a space, the parenthesized argument.
proof fn lemma_app_layout(rf: Seq<char>, ra: Seq<char>)
    ensures
        ({
            let r = seq!['('] + rf + seq![')', ' ', '('] + ra + seq![')'];
            let lf = rf.len() as int;
            let la = ra.len() as int;
            &&& r.len() == 5 + rf.len() + ra.len()
            &&& r[0] == '('
            &&& forall|k: int| 0 <= k < rf.len() ==> r[1 + k] == #[trigger] rf[k]
            &&& r[1 + lf] == ')' && r[2 + lf] == ' ' && r[3 + lf] == '('
            &&& forall|k: int| 0 <= k < ra.len() ==> r[4 + lf + k] == #[trigger] ra[k]
            &&& r[4 + lf + la] == ')'
        }),
{
    let a = seq!['('];
    let b = seq![')', ' ', '('];
    let c = seq![')'];
    let s1 = a + rf;
    let s2 = s1 + b;
    let s3 = s2 + ra;
    let r = s3 + c;
    let lf = rf.len() as int;
    let la = ra.len() as int;
    assert(forall|k: int| 0 <= k < s3.len() ==> #[trigger] r[k] == s3[k]);
    assert(forall|k: int| 0 <= k < s2.len() ==> #[trigger] s3[k] == s2[k]);
    assert(forall|k: int| 0 <= k < s1.len() ==> #[trigger] s2[k] == s1[k]);
    assert(r[0] == '(');
    assert forall|k: int| 0 <= k < rf.len() implies r[1 + k] == #[trigger] rf[k] by {
        assert(s1[1 + k] == rf[k]);
    }
    assert(s2[s1.len() as int] == b[0]);
    assert(s2[s1.len() as int + 1] == b[1]);
    assert(s2[s1.len() as int + 2] == b[2]);
    assert(r[1 + lf] == ')' && r[2 + lf] == ' ' && r[3 + lf] == '(');
    assert forall|k: int| 0 <= k < ra.len() implies r[4 + lf + k] == #[trigger] ra[k] by {
        assert(s3[s2.len() + k] == ra[k]);
    }
    assert(r[s3.len() as int] == c[0]);
    assert(r[4 + lf + la] == ')');
}

/// The conditional case of `lemma_parse_render_at`.
#[verifier::rlimit(100)]
#[verifier::spinoff_prover]
proof fn lemma_rt_conditional(s: Seq<char>, pos: nat, ctx: CtxView, t: TermView)
    requires
        t is Conditional,
        renderable(ctx, t),
        ({
            let p = pos + ws_len(s, pos);
            &&& p + render(ctx, t).len() <= s.len()
            &&& s.subrange(p as int, p as int + render(ctx, t).len() as int) == render(ctx, t)
            &&& stop_after(s, p + render(ctx, t).len())
        }),
    ensures
        spec_parse_term(s, pos, ctx) == (PStep {
            res: Ok::<TermView, ParseFailure>(t),
            next: pos + ws_len(s, pos) + render(ctx, t).len(),
            ctx,
        }),
    decreases t, 0int,
{
    let p = pos + ws_len(s, pos);
    let lr = render(ctx, t).len();
    let end = p + lr;
    lemma_render_first(ctx, t);
    assert(s[p as int] == render(ctx, t)[0]);
    match t {
        TermView::Conditional(c, t1, t2) => {

            let lc = render(ctx, *c).len();
            let l1 = render(ctx, *t1).len();
            let l2 = render(ctx, *t2).len();
            lemma_cond_layout(render(ctx, *c), render(ctx, *t1), render(ctx, *t2));
            assert(render(ctx, t) == seq!['i', 'f', ' '] + render(ctx, *c) + seq![
                ' ',
                't',
                'h',
                'e',
                'n',
                ' ',
            ] + render(ctx, *t1) + seq![' ', 'e', 'l', 's', 'e', ' '] + render(ctx, *t2));
            assert(lr == 15 + lc + l1 + l2);
            assert forall|k: int| 0 <= k < lr implies s[p + k] == #[trigger] render(ctx, t)[k] by {
                assert(render(ctx, t)[k] == s.subrange(p as int, p as int + lr as int)[k]);
            }
            lemma_render_first(ctx, *c);
            lemma_render_first(ctx, *t1);
            lemma_render_first(ctx, *t2);
            // the `if` header
            assert(render(ctx, t)[0] == 'i' && render(ctx, t)[1] == 'f' && render(ctx, t)[2] == ' ');
            assert(s[p as int] == 'i' && s[p as int + 1] == 'f' && s[p as int + 2] == ' ');
            assert(render(ctx, *c)[0] == render(ctx, t)[3]);
            assert(s[p as int + 3] == render(ctx, *c)[0]);
            assert(kw_if_at(s, p));
            assert(!kw_fun_at(s, p));
            // the condition, from p + 3, with ` then ` after it
            assert(ws_len(s, p + 3) == 0);
            assert(ws_len(s, p + 2) == 1);
            assert forall|k: int| 0 <= k < lc implies #[trigger] render(ctx, *c)[k] == s[p + 3 + k] by {
                assert(render(ctx, t)[3 + k] == render(ctx, *c)[k]);
            }
            assert(s.subrange(p as int + 3, p as int + 3 + lc as int) =~= render(ctx, *c));
            assert(render(ctx, t)[(3 + lc) as int] == ' ' && render(ctx, t)[(4 + lc) as int] == 't'
                && render(ctx, t)[(5 + lc) as int] == 'h' && render(ctx, t)[(6 + lc) as int] == 'e'
                && render(ctx, t)[(7 + lc) as int] == 'n' && render(ctx, t)[(8 + lc) as int]
                == ' ');
            assert(s[(p + 3 + lc) as int] == ' ' && s[(p + 4 + lc) as int] == 't' && s[(p + 5
                + lc) as int] == 'h' && s[(p + 6 + lc) as int] == 'e' && s[(p + 7 + lc) as int]
                == 'n' && s[(p + 8 + lc) as int] == ' ');
            assert(render(ctx, *t1)[0] == render(ctx, t)[(9 + lc) as int]);
            assert(s[(p + 9 + lc) as int] == render(ctx, *t1)[0]);
            assert(kw_then_at(s, p + 4 + lc));
            assert(stop_after(s, p + 3 + lc));
            lemma_parse_render_at(s, p + 2, ctx, *c);
            let cstep = spec_parse_term(s, p + 2, ctx);
            assert(cstep.res == Ok::<TermView, ParseFailure>(*c) && cstep.next == p + 3 + lc
                && cstep.ctx == ctx);
            // the first branch, from p + 8 + lc, with ` else ` after it
            assert(ws_len(s, p + 4 + lc) == 0);
            assert(ws_len(s, p + 3 + lc) == 1);
            assert(ws_len(s, p + 9 + lc) == 0);
            assert(ws_len(s, p + 8 + lc) == 1);
            assert forall|k: int| 0 <= k < l1 implies #[trigger] render(ctx, *t1)[k] == s[p + 9 + lc
                + k] by {
                assert(render(ctx, t)[(9 + lc) as int + k] == render(ctx, *t1)[k]);
            }
            assert(s.subrange(p as int + 9 + lc as int, p as int + 9 + lc as int + l1 as int)
                =~= render(ctx, *t1));
            assert(render(ctx, t)[(9 + lc + l1) as int] == ' ' && render(ctx, t)[(10 + lc + l1) as int] == 'e'
                && render(ctx, t)[(11 + lc + l1) as int] == 'l' && render(ctx, t)[(12 + lc + l1) as int]
                == 's' && render(ctx, t)[(13 + lc + l1) as int] == 'e' && render(ctx, t)[(14 + lc
                + l1) as int] == ' ');
            assert(s[(p + 9 + lc + l1) as int] == ' ' && s[(p + 10 + lc + l1) as int] == 'e' && s[(p
                + 11 + lc + l1) as int] == 'l' && s[(p + 12 + lc + l1) as int] == 's' && s[(p + 13
                + lc + l1) as int] == 'e' && s[(p + 14 + lc + l1) as int] == ' ');
            assert(render(ctx, *t2)[0] == render(ctx, t)[(15 + lc + l1) as int]);
            assert(s[(p + 15 + lc + l1) as int] == render(ctx, *t2)[0]);
            assert(kw_else_at(s, p + 10 + lc + l1));
            assert(stop_after(s, p + 9 + lc + l1));
            lemma_parse_render_at(s, p + 8 + lc, ctx, *t1);
            let t1step = spec_parse_term(s, p + 8 + lc, ctx);
            assert(t1step.res == Ok::<TermView, ParseFailure>(*t1) && t1step.next == p + 9 + lc + l1
                && t1step.ctx == ctx);
            // the second branch, from p + 14 + lc + l1, with the outer stop
            assert(ws_len(s, p + 10 + lc + l1) == 0);
            assert(ws_len(s, p + 9 + lc + l1) == 1);
            assert(ws_len(s, p + 15 + lc + l1) == 0);
            assert(ws_len(s, p + 14 + lc + l1) == 1);
            assert forall|k: int| 0 <= k < l2 implies #[trigger] render(ctx, *t2)[k] == s[p + 15 + lc
                + l1 + k] by {
                assert(render(ctx, t)[(15 + lc + l1) as int + k] == render(ctx, *t2)[k]);
            }
            assert(s.subrange(
                p as int + 15 + lc as int + l1 as int,
                p as int + 15 + lc as int + l1 as int + l2 as int,
            ) =~= render(ctx, *t2));
            assert(stop_after(s, end));
            lemma_parse_render_at(s, p + 14 + lc + l1, ctx, *t2);
            let t2step = spec_parse_term(s, p + 14 + lc + l1, ctx);
            assert(t2step.res == Ok::<TermView, ParseFailure>(*t2) && t2step.next == end
                && t2step.ctx == ctx);
            assert(spec_parse_term(s, pos, ctx) == (PStep {
                res: Ok::<TermView, ParseFailure>(t),
                next: end,
                ctx,
            }));
                },
        _ => {},
    }
}


/// The variable case of `lemma_parse_render_at`: a bare identifier resolves
/// back to the entry it was rendered from.
#[verifier::rlimit(100)]
#[verifier::spinoff_prover]
proof fn lemma_rt_variable(s: Seq<char>, pos: nat, ctx: CtxView, t: TermView)
    requires
        t is Variable,
        renderable(ctx, t),
        ({
            let p = pos + ws_len(s, pos);
            &&& p + render(ctx, t).len() <= s.len()
            &&& s.subrange(p as int, p as int + render(ctx, t).len() as int) == render(ctx, t)
            &&& stop_after(s, p + render(ctx, t).len())
        }),
    ensures
        spec_parse_term(s, pos, ctx) == (PStep {
            res: Ok::<TermView, ParseFailure>(t),
            next: pos + ws_len(s, pos) + render(ctx, t).len(),
            ctx,
        }),
    decreases t, 0int,
{
    let p = pos + ws_len(s, pos);
    let lr = render(ctx, t).len();
    let end = p + lr;
    lemma_render_first(ctx, t);
    assert forall|k: int| 0 <= k < lr implies s[p + k] == #[trigger] render(ctx, t)[k] by {
        assert(render(ctx, t)[k] == s.subrange(p as int, p as int + lr as int)[k]);
    }
    match t {
        TermView::Variable(i) => {
            let name = ctx[i as int].0;
            assert(render(ctx, t) == name);
            assert forall|k: int| 0 <= k < name.len() implies s[p + k] == #[trigger] name[k] by {
                assert(s[p + k] == render(ctx, t)[k]);
            }
            assert(end == p + name.len());
            if end < s.len() {
                if s[end as int] == ')' {
                    assert(!spec_ident_char(')'));
                } else {
                    assert(s[end as int] == ' ');
                    assert(!spec_ident_char(' '));
                }
            }
            assert(p + name.len() == s.len() || !spec_ident_char(s[(p + name.len()) as int]));
            assert(spec_ident_start(name[0]));
            lemma_ident_len_is(s, p, name);
            lemma_ident_no_keyword(s, p, name);
            lemma_ident_start_char(name[0]);
            assert(s[p as int] == name[0]);
            assert(s[p as int] != '(');
            assert(ident_len(s, p) == name.len());
            assert(s.subrange(p as int, p as int + name.len() as int) =~= name);
            let q = (p + name.len()) + ws_len(s, p + name.len());
            if end == s.len() {
                assert(ws_len(s, end) == 0);
            } else if s[end as int] == ')' {
                assert(ws_len(s, end) == 0);
                assert(s[q as int] == ')');
            } else {
                assert(kw_then_at(s, end + 1) || kw_else_at(s, end + 1));
                assert(s[(end + 1) as int] == 't' || s[(end + 1) as int] == 'e');
                assert(ws_len(s, end + 1) == 0);
                assert(ws_len(s, end) == 1);
                assert(s[q as int] == 't' || s[q as int] == 'e');
            }
            assert(!(q < s.len() && s[q as int] == ':'));
            assert(find_name(ctx, name) == Some(i));
            assert(spec_parse_atom(s, pos, ctx) == (PStep {
                res: Ok::<TermView, ParseFailure>(t),
                next: end,
                ctx,
            }));
            lemma_stop_no_atom(s, end);
            assert(spec_parse_app(s, pos, ctx) == (PStep {
                res: Ok::<TermView, ParseFailure>(t),
                next: end,
                ctx,
            }));
            assert(!kw_fun_at(s, p) && !kw_if_at(s, p));
            assert(spec_parse_term(s, pos, ctx) == (PStep {
                res: Ok::<TermView, ParseFailure>(t),
                next: end,
                ctx,
            }));
        },
        _ => {},
    }
}

/// The abstraction case of `lemma_parse_render_at`.
#[verifier::rlimit(100)]
#[verifier::spinoff_prover]
proof fn lemma_rt_abstraction(s: Seq<char>, pos: nat, ctx: CtxView, t: TermView)
    requires
        t is Abstraction,
        renderable(ctx, t),
        ({
            let p = pos + ws_len(s, pos);
            &&& p + render(ctx, t).len() <= s.len()
            &&& s.subrange(p as int, p as int + render(ctx, t).len() as int) == render(ctx, t)
            &&& stop_after(s, p + render(ctx, t).len())
        }),
    ensures
        spec_parse_term(s, pos, ctx) == (PStep {
            res: Ok::<TermView, ParseFailure>(t),
            next: pos + ws_len(s, pos) + render(ctx, t).len(),
            ctx,
        }),
    decreases t, 0int,
{
    let p = pos + ws_len(s, pos);
    let lr = render(ctx, t).len();
    let end = p + lr;
    assert forall|k: int| 0 <= k < lr implies s[p + k] == #[trigger] render(ctx, t)[k] by {
        assert(render(ctx, t)[k] == s.subrange(p as int, p as int + lr as int)[k]);
    }
    match t {
        TermView::Abstraction(name, b) => {
            let nl = name.len();
            let lb = render(ctx, *b).len();
            lemma_abs_layout(name, render(ctx, *b));
            assert(render(ctx, t) == seq!['f', 'u', 'n', ' '] + name + seq![' ', '-', '>', ' ']
                + render(ctx, *b));
            assert(lr == 8 + nl + lb);
            lemma_render_first(ctx, *b);
            assert(render(ctx, t)[0] == 'f' && render(ctx, t)[1] == 'u' && render(ctx, t)[2] == 'n'
                && render(ctx, t)[3] == ' ');
            assert(s[p as int] == 'f' && s[p as int + 1] == 'u' && s[p as int + 2] == 'n' && s[p
                as int + 3] == ' ');
            assert(!spec_ident_char(' '));
            assert(kw_fun_at(s, p));
            assert forall|k: int| 0 <= k < nl implies s[p + 4 + k] == #[trigger] name[k] by {
                assert(render(ctx, t)[4 + k] == name[k]);
            }
            assert(spec_ident_start(name[0]));
            lemma_ident_start_char(name[0]);
            assert(s[(p + 4) as int] == name[0]);
            assert(ws_len(s, p + 4) == 0);
            assert(ws_len(s, p + 3) == 1);
            assert(render(ctx, t)[(4 + nl) as int] == ' ' && render(ctx, t)[(5 + nl) as int] == '-'
                && render(ctx, t)[(6 + nl) as int] == '>' && render(ctx, t)[(7 + nl) as int]
                == ' ');
            assert(s[(p + 4 + nl) as int] == ' ' && s[(p + 5 + nl) as int] == '-' && s[(p + 6
                + nl) as int] == '>' && s[(p + 7 + nl) as int] == ' ');
            lemma_ident_len_is(s, p + 4, name);
            lemma_ident_no_keyword(s, p + 4, name);
            assert(ident_len(s, p + 4) == nl);
            assert(s.subrange(p as int + 4, p as int + 4 + nl as int) =~= name);
            assert(!spec_ws('-'));
            assert(ws_len(s, p + 5 + nl) == 0);
            assert(ws_len(s, p + 4 + nl) == 1);
            assert(render(ctx, *b)[0] == render(ctx, t)[(8 + nl) as int]);
            assert(s[(p + 8 + nl) as int] == render(ctx, *b)[0]);
            assert(ws_len(s, p + 8 + nl) == 0);
            assert(ws_len(s, p + 7 + nl) == 1);
            assert forall|k: int| 0 <= k < lb implies #[trigger] render(ctx, *b)[k] == s[p + 8 + nl
                + k] by {
                assert(render(ctx, t)[(8 + nl) as int + k] == render(ctx, *b)[k]);
            }
            assert(s.subrange(p as int + 8 + nl as int, p as int + 8 + nl as int + lb as int)
                =~= render(ctx, *b));
            assert(stop_after(s, end));
            lemma_parse_render_at(s, p + 7 + nl, ctx, *b);
            let bstep = spec_parse_term(s, p + 7 + nl, ctx);
            assert(bstep.res == Ok::<TermView, ParseFailure>(*b) && bstep.next == end && bstep.ctx
                == ctx);
            assert(spec_parse_term(s, pos, ctx) == (PStep {
                res: Ok::<TermView, ParseFailure>(t),
                next: end,
                ctx,
            }));
        },
        _ => {},
    }
}

/// The application case of `lemma_parse_render_at`: two parenthesized
/// atoms, the function and the argument.
#[verifier::rlimit(100)]
#[verifier::spinoff_prover]
proof fn lemma_rt_application(s: Seq<char>, pos: nat, ctx: CtxView, t: TermView)
    requires
        t is Application,
        renderable(ctx, t),
        ({
            let p = pos + ws_len(s, pos);
            &&& p + render(ctx, t).len() <= s.len()
            &&& s.subrange(p as int, p as int + render(ctx, t).len() as int) == render(ctx, t)
            &&& stop_after(s, p + render(ctx, t).len())
        }),
    ensures
        spec_parse_term(s, pos, ctx) == (PStep {
            res: Ok::<TermView, ParseFailure>(t),
            next: pos + ws_len(s, pos) + render(ctx, t).len(),
            ctx,
        }),
    decreases t, 0int,
{
    let p = pos + ws_len(s, pos);
    let lr = render(ctx, t).len();
    let end = p + lr;
    assert forall|k: int| 0 <= k < lr implies s[p + k] == #[trigger] render(ctx, t)[k] by {
        assert(render(ctx, t)[k] == s.subrange(p as int, p as int + lr as int)[k]);
    }
    match t {
        TermView::Application(f, a) => {
            let lf = render(ctx, *f).len();
            let la = render(ctx, *a).len();
            lemma_app_layout(render(ctx, *f), render(ctx, *a));
            assert(render(ctx, t) == seq!['('] + render(ctx, *f) + seq![')', ' ', '('] + render(
                ctx,
                *a,
            ) + seq![')']);
            assert(lr == 5 + lf + la);
            lemma_render_first(ctx, *f);
            lemma_render_first(ctx, *a);
            assert(render(ctx, t)[0] == '(');
            assert(s[p as int] == '(');
            assert(!kw_fun_at(s, p) && !kw_if_at(s, p));
            // the function, from p + 1, with `)` after it
            assert(render(ctx, *f)[0] == render(ctx, t)[1]);
            assert(s[p as int + 1] == render(ctx, *f)[0]);
            assert(ws_len(s, p + 1) == 0);
            assert forall|k: int| 0 <= k < lf implies #[trigger] render(ctx, *f)[k] == s[p + 1
                + k] by {
                assert(render(ctx, t)[1 + k] == render(ctx, *f)[k]);
            }
            assert(s.subrange(p as int + 1, p as int + 1 + lf as int) =~= render(ctx, *f));
            assert(render(ctx, t)[(1 + lf) as int] == ')' && render(ctx, t)[(2 + lf) as int] == ' '
                && render(ctx, t)[(3 + lf) as int] == '(');
            assert(s[(p + 1 + lf) as int] == ')' && s[(p + 2 + lf) as int] == ' ' && s[(p + 3
                + lf) as int] == '(');
            assert(stop_after(s, p + 1 + lf));
            lemma_parse_render_at(s, p + 1, ctx, *f);
            let fstep = spec_parse_term(s, p + 1, ctx);
            assert(fstep.res == Ok::<TermView, ParseFailure>(*f) && fstep.next == p + 1 + lf
                && fstep.ctx == ctx);
            assert(ws_len(s, p + 1 + lf) == 0);
            assert(spec_parse_atom(s, pos, ctx) == (PStep {
                res: Ok::<TermView, ParseFailure>(*f),
                next: p + 2 + lf,
                ctx,
            }));
            // the argument, from p + 4 + lf, with the final `)` after it
            assert(!spec_ws('('));
            assert(ws_len(s, p + 3 + lf) == 0);
            assert(ws_len(s, p + 2 + lf) == 1);
            assert(atom_starts_at(s, p + 3 + lf));
            assert(render(ctx, *a)[0] == render(ctx, t)[(4 + lf) as int]);
            assert(s[(p + 4 + lf) as int] == render(ctx, *a)[0]);
            assert(ws_len(s, p + 4 + lf) == 0);
            assert forall|k: int| 0 <= k < la implies #[trigger] render(ctx, *a)[k] == s[p + 4 + lf
                + k] by {
                assert(render(ctx, t)[(4 + lf) as int + k] == render(ctx, *a)[k]);
            }
            assert(s.subrange(p as int + 4 + lf as int, p as int + 4 + lf as int + la as int)
                =~= render(ctx, *a));
            assert(render(ctx, t)[(4 + lf + la) as int] == ')');
            assert(s[(p + 4 + lf + la) as int] == ')');
            assert(stop_after(s, p + 4 + lf + la));
            lemma_parse_render_at(s, p + 4 + lf, ctx, *a);
            let astep = spec_parse_term(s, p + 4 + lf, ctx);
            assert(astep.res == Ok::<TermView, ParseFailure>(*a) && astep.next == p + 4 + lf + la
                && astep.ctx == ctx);
            assert(ws_len(s, p + 4 + lf + la) == 0);
            assert(spec_parse_atom(s, p + 3 + lf, ctx) == (PStep {
                res: Ok::<TermView, ParseFailure>(*a),
                next: end,
                ctx,
            }));
            assert(spec_parse_app(s, pos, ctx) == (PStep {
                res: Ok::<TermView, ParseFailure>(t),
                next: end,
                ctx,
            }));
            assert(spec_parse_term(s, pos, ctx) == (PStep {
                res: Ok::<TermView, ParseFailure>(t),
                next: end,
                ctx,
            }));
        },
        _ => {},
    }
}

/// After a stop, no second atom begins, so an application never extends past
/// a rendered term.
proof fn lemma_stop_no_atom(s: Seq<char>, end: nat)
    requires
        stop_after(s, end),
    ensures
        !atom_starts_at(s, end + ws_len(s, end)),
        end + ws_len(s, end) <= s.len(),
{
    if end < s.len() {
        if s[end as int] == ')' {
            assert(ws_len(s, end) == 0);
        } else {
            assert(s[end as int] == ' ');
            assert(ws_len(s, end + 1) == 0);
            assert(ws_len(s, end) == 1);
        }
    }
}

/// The builder-and-parser equivalence, in its sharp form: parsing the
/// canonical rendering of any renderable term yields that very term and
/// leaves any context untouched — so `check_type` on what the parser
/// returns agrees with `check_type` on the term the builder assembled.
pub proof fn lemma_parse_render(t: TermView, ctx: CtxView)
    requires
        renderable(ctx, t),
    ensures
        spec_parse(render(ctx, t), ctx) == (Ok::<TermView, ParseFailure>(t), ctx),
{
    let s = render(ctx, t);
    lemma_render_first(ctx, t);
    assert(ws_len(s, 0) == 0);
    assert(s.subrange(0, s.len() as int) =~= s);
    assert(stop_after(s, s.len() as nat));
    lemma_parse_render_at(s, 0, ctx, t);
    assert(ws_len(s, s.len() as nat) == 0);
}

fn is_ws(c: char) -> (r: bool)
    ensures
        r == spec_ws(c),
{
    c == ' ' || c == '\t' || c == '\n' || c == '\r'
}

fn is_ident_start(c: char) -> (r: bool)
    ensures
        r == spec_ident_start(c),
{
    let u = c as u32;
    (97 <= u && u <= 122) || (65 <= u && u <= 90) || c == '_'
}

fn is_ident_char(c: char) -> (r: bool)
    ensures
        r == spec_ident_char(c),
{
    let u = c as u32;
    is_ident_start(c) || (48 <= u && u <= 57)
}

/// The position directly after the whitespace at `pos`.
fn ws_end(s: &str, n: usize, pos: usize) -> (r: usize)
    requires
        n == s@.len(),
        pos <= n,
    ensures
        r == pos + ws_len(s@, pos as nat),
        pos <= r <= n,
    decreases n - pos,
{
    if pos < n && is_ws(s.get_char(pos)) {
        ws_end(s, n, pos + 1)
    } else {
        pos
    }
}

/// The position directly after the identifier characters at `pos`.
fn ident_end(s: &str, n: usize, pos: usize) -> (r: usize)
    requires
        n == s@.len(),
        pos <= n,
    ensures
        r == pos + ident_len(s@, pos as nat),
        pos <= r <= n,
    decreases n - pos,
{
    if pos < n && is_ident_char(s.get_char(pos)) {
        ident_end(s, n, pos + 1)
    } else {
        pos
    }
}

fn fun_word(s: &str, n: usize, p: usize) -> (r: bool)
    requires
        n == s@.len(),
        p <= n,
    ensures
        r == kw_fun_at(s@, p as nat),
{
    n - p >= 3 && s.get_char(p) == 'f' && s.get_char(p + 1) == 'u' && s.get_char(p + 2) == 'n' && (p
        + 3 == n || !is_ident_char(s.get_char(p + 3)))
}

fn if_word(s: &str, n: usize, p: usize) -> (r: bool)
    requires
        n == s@.len(),
        p <= n,
    ensures
        r == kw_if_at(s@, p as nat),
{
    n - p >= 2 && s.get_char(p) == 'i' && s.get_char(p + 1) == 'f' && (p + 2 == n || !is_ident_char(
        s.get_char(p + 2),
    ))
}

fn then_word(s: &str, n: usize, p: usize) -> (r: bool)
    requires
        n == s@.len(),
        p <= n,
    ensures
        r == kw_then_at(s@, p as nat),
{
    n - p >= 4 && s.get_char(p) == 't' && s.get_char(p + 1) == 'h' && s.get_char(p + 2) == 'e'
        && s.get_char(p + 3) == 'n' && (p + 4 == n || !is_ident_char(s.get_char(p + 4)))
}

fn else_word(s: &str, n: usize, p: usize) -> (r: bool)
    requires
        n == s@.len(),
        p <= n,
    ensures
        r == kw_else_at(s@, p as nat),
{
    n - p >= 4 && s.get_char(p) == 'e' && s.get_char(p + 1) == 'l' && s.get_char(p + 2) == 's'
        && s.get_char(p + 3) == 'e' && (p + 4 == n || !is_ident_char(s.get_char(p + 4)))
}

fn true_word(s: &str, n: usize, p: usize) -> (r: bool)
    requires
        n == s@.len(),
        p <= n,
    ensures
        r == kw_true_at(s@, p as nat),
{
    n - p >= 4 && s.get_char(p) == 't' && s.get_char(p + 1) == 'r' && s.get_char(p + 2) == 'u'
        && s.get_char(p + 3) == 'e' && (p + 4 == n || !is_ident_char(s.get_char(p + 4)))
}

fn false_word(s: &str, n: usize, p: usize) -> (r: bool)
    requires
        n == s@.len(),
        p <= n,
    ensures
        r == kw_false_at(s@, p as nat),
{
    n - p >= 5 && s.get_char(p) == 'f' && s.get_char(p + 1) == 'a' && s.get_char(p + 2) == 'l'
        && s.get_char(p + 3) == 's' && s.get_char(p + 4) == 'e' && (p + 5 == n || !is_ident_char(
        s.get_char(p + 5),
    ))
}

fn bool_word(s: &str, n: usize, p: usize) -> (r: bool)
    requires
        n == s@.len(),
        p <= n,
    ensures
        r == ty_bool_at(s@, p as nat),
{
    n - p >= 4 && s.get_char(p) == 'B' && s.get_char(p + 1) == 'o' && s.get_char(p + 2) == 'o'
        && s.get_char(p + 3) == 'l' && (p + 4 == n || !is_ident_char(s.get_char(p + 4)))
}

fn keyword_word(s: &str, n: usize, p: usize) -> (r: bool)
    requires
        n == s@.len(),
        p <= n,
    ensures
        r == keyword_at(s@, p as nat),
{
    fun_word(s, n, p) || if_word(s, n, p) || then_word(s, n, p) || else_word(s, n, p) || true_word(
        s,
        n,
        p,
    ) || false_word(s, n, p)
}

/// An atom begins at `pos`.
fn atom_starts(s: &str, n: usize, pos: usize) -> (r: bool)
    requires
        n == s@.len(),
        pos <= n,
    ensures
        r == atom_starts_at(s@, pos as nat),
{
    if pos >= n {
        return false;
    }
    let c = s.get_char(pos);
    c == '(' || (is_ident_start(c) && !fun_word(s, n, pos) && !if_word(s, n, pos) && !then_word(
        s,
        n,
        pos,
    ) && !else_word(s, n, pos))
}

/// Parses a `term` at `pos`: what [`spec_parse_term`] describes.
fn parse_term_at(s: &str, n: usize, pos: usize, context: &mut Context) -> (r: (
    Result<Term, ParseFailure>,
    usize,
))
    requires
        n == s@.len(),
        pos <= n,
    ensures
        ({
            let st = spec_parse_term(s@, pos as nat, old(context)@);
            &&& res_agrees(r.0, st.res)
            &&& r.1 == st.next
            &&& final(context)@ == st.ctx
            &&& (r.0 is Ok ==> pos < r.1 && r.1 <= n)
        }),
    decreases n - pos, 2int,
{
    let p = ws_end(s, n, pos);
    if p >= n {
        return (Err(ParseFailure::UnexpectedEnd(p)), p);
    }
    if fun_word(s, n, p) {
        let q = ws_end(s, n, p + 3);
        if q >= n {
            return (Err(ParseFailure::UnexpectedEnd(q)), q);
        }
        let e = ident_end(s, n, q);
        if e == q || keyword_word(s, n, q) {
            return (Err(ParseFailure::UnexpectedInput(q)), q);
        }
        let a = ws_end(s, n, e);
        if n - a >= 2 && s.get_char(a) == '-' && s.get_char(a + 1) == '>' {
            let name = s.substring_char(q, e);
            let body = parse_term_at(s, n, a + 2, context);
            match body.0 {
                Err(err) => (Err(err), body.1),
                Ok(b) => (Ok(Term::TAbstraction(name.to_owned(), Box::new(b))), body.1),
            }
        } else if a >= n {
            (Err(ParseFailure::UnexpectedEnd(a)), a)
        } else {
            (Err(ParseFailure::UnexpectedInput(a)), a)
        }
    } else if if_word(s, n, p) {
        let c = parse_term_at(s, n, p + 2, context);
        let ct = match c.0 {
            Err(err) => {
                return (Err(err), c.1);
            },
            Ok(ct) => ct,
        };
        let q = ws_end(s, n, c.1);
        if then_word(s, n, q) {
            let t1 = parse_term_at(s, n, q + 4, context);
            let tt1 = match t1.0 {
                Err(err) => {
                    return (Err(err), t1.1);
                },
                Ok(tt1) => tt1,
            };
            let q2 = ws_end(s, n, t1.1);
            if else_word(s, n, q2) {
                let t2 = parse_term_at(s, n, q2 + 4, context);
                match t2.0 {
                    Err(err) => (Err(err), t2.1),
                    Ok(tt2) => (
                        (Ok(Term::TConditional(Box::new(ct), Box::new(tt1), Box::new(tt2)))),
                        t2.1,
                    ),
                }
            } else if q2 >= n {
                (Err(ParseFailure::UnexpectedEnd(q2)), q2)
            } else {
                (Err(ParseFailure::UnexpectedInput(q2)), q2)
            }
        } else if q >= n {
            (Err(ParseFailure::UnexpectedEnd(q)), q)
        } else {
            (Err(ParseFailure::UnexpectedInput(q)), q)
        }
    } else {
        parse_app_at(s, n, pos, context)
    }
}

/// Parses an `application` at `pos`: what [`spec_parse_app`] describes.
fn parse_app_at(s: &str, n: usize, pos: usize, context: &mut Context) -> (r: (
    Result<Term, ParseFailure>,
    usize,
))
    requires
        n == s@.len(),
        pos <= n,
    ensures
        ({
            let st = spec_parse_app(s@, pos as nat, old(context)@);
            &&& res_agrees(r.0, st.res)
            &&& r.1 == st.next
            &&& final(context)@ == st.ctx
            &&& (r.0 is Ok ==> pos < r.1 && r.1 <= n)
        }),
    decreases n - pos, 1int,
{
    let st1 = parse_atom_at(s, n, pos, context);
    let t1 = match st1.0 {
        Err(err) => {
            return (Err(err), st1.1);
        },
        Ok(t1) => t1,
    };
    let q = ws_end(s, n, st1.1);
    if atom_starts(s, n, q) {
        let st2 = parse_atom_at(s, n, q, context);
        match st2.0 {
            Err(err) => (Err(err), st2.1),
            Ok(t2) => ((Ok(Term::TApplication(Box::new(t1), Box::new(t2)))), st2.1),
        }
    } else {
        (Ok(t1), st1.1)
    }
}

/// Parses an `atom` at `pos`: what [`spec_parse_atom`] describes.
fn parse_atom_at(s: &str, n: usize, pos: usize, context: &mut Context) -> (r: (
    Result<Term, ParseFailure>,
    usize,
))
    requires
        n == s@.len(),
        pos <= n,
    ensures
        ({
            let st = spec_parse_atom(s@, pos as nat, old(context)@);
            &&& res_agrees(r.0, st.res)
            &&& r.1 == st.next
            &&& final(context)@ == st.ctx
            &&& (r.0 is Ok ==> pos < r.1 && r.1 <= n)
        }),
    decreases n - pos, 0int,
{
    let p = ws_end(s, n, pos);
    if p >= n {
        return (Err(ParseFailure::UnexpectedEnd(p)), p);
    }
    let c0 = s.get_char(p);
    if c0 == '(' {
        let inner = parse_term_at(s, n, p + 1, context);
        let t = match inner.0 {
            Err(err) => {
                return (Err(err), inner.1);
            },
            Ok(t) => t,
        };
        let q = ws_end(s, n, inner.1);
        if q < n && s.get_char(q) == ')' {
            (Ok(t), q + 1)
        } else if q >= n {
            (Err(ParseFailure::UnexpectedEnd(q)), q)
        } else {
            (Err(ParseFailure::UnexpectedInput(q)), q)
        }
    } else if true_word(s, n, p) {
        (Ok(Term::TTrue), p + 4)
    } else if false_word(s, n, p) {
        (Ok(Term::TFalse), p + 5)
    } else if keyword_word(s, n, p) {
        (Err(ParseFailure::UnexpectedInput(p)), p)
    } else if is_ident_start(c0) {
        let e = ident_end(s, n, p);
        let q = ws_end(s, n, e);
        if q < n && s.get_char(q) == ':' {
            let q2 = ws_end(s, n, q + 1);
            if q2 >= n {
                (Err(ParseFailure::UnexpectedEnd(q2)), q2)
            } else if bool_word(s, n, q2) {
                let name = s.substring_char(p, e);
                let idx = context.add_binding(name, Binding::VariableBinding(TType::TBool));
                (Ok(Term::TVariable(idx)), q2 + 4)
            } else {
                let e2 = ident_end(s, n, q2);
                if e2 > q2 {
                    (Err(ParseFailure::UnsupportedTypeName(q2)), q2)
                } else {
                    (Err(ParseFailure::UnexpectedInput(q2)), q2)
                }
            }
        } else {
            let name = s.substring_char(p, e);
            match context.get_idx_from_name(name) {
                Some(j) => (Ok(Term::TVariable(j)), e),
                None => (Err(ParseFailure::UnboundName(p)), p),
            }
        }
    } else {
        (Err(ParseFailure::UnexpectedInput(p)), p)
    }
}

} // verus!
