//! The core term language that frontends produce and the elaborator
//! consumes, and the typed surface language that desugars to it.
use vstd::prelude::*;

verus! {

/// Primitive values a term may embed.
pub trait PrimVal {}

/// Primitive functions a term may embed.
pub trait PrimFun {}

/// No primitive values.
#[derive(Debug, Clone, Copy, PartialEq, Eq)]
pub struct NoVal;

/// No primitive functions.
#[derive(Debug, Clone, Copy, PartialEq, Eq)]
pub struct NoFun;

impl PrimVal for NoVal {}

impl PrimFun for NoFun {}

/// A core term. `Rep(e, a, b, body)` shares `e` as `a` and `b` in `body`;
/// `Era(e, body)` discards `e`; `Fix(f)` is the fixpoint of `f`.
#[derive(Debug, PartialEq)]
pub enum Ast<V: PrimVal, F: PrimFun> {
    Name(String),
    Abs(String, Box<Ast<V, F>>),
    App(Box<Ast<V, F>>, Box<Ast<V, F>>),
    Rep(Box<Ast<V, F>>, String, String, Box<Ast<V, F>>),
    Era(Box<Ast<V, F>>, Box<Ast<V, F>>),
    Fix(Box<Ast<V, F>>),
    Val(V),
    Fun(F),
    Perform(String, Box<Ast<V, F>>),
    Handle(Box<Ast<V, F>>, Vec<HandlerBranch<V, F>>),
}

/// One handler branch: `label x k -> body`.
#[derive(Debug, PartialEq)]
pub struct HandlerBranch<V: PrimVal, F: PrimFun> {
    pub label: String,
    pub arg_name: String,
    pub k_name: String,
    pub body: Box<Ast<V, F>>,
}

/// An erased type annotation.
#[derive(Debug, Clone, Copy, PartialEq, Eq)]
pub struct Type;

/// A typed surface term.
#[derive(Debug, PartialEq)]
pub enum LambdaAst<V: PrimVal, F: PrimFun> {
    Var(String),
    Abs(String, Box<LambdaAst<V, F>>),
    App(Box<LambdaAst<V, F>>, Box<LambdaAst<V, F>>),
    Let { bindings: Vec<(String, Box<LambdaAst<V, F>>)>, body: Box<LambdaAst<V, F>> },
    Val(V),
    Fun(F),
    Ann(Box<LambdaAst<V, F>>, Type),
    Perform(String, Box<LambdaAst<V, F>>),
    Handle(Box<LambdaAst<V, F>>, Vec<HandlerBranch<V, F>>),
}


/// The binder names of a term in pre-order: an abstraction's binder before
/// its body, a sharing's two binders after its shared term, a handler
/// branch's argument and continuation before its body.
pub open spec fn ast_binders<V: PrimVal, F: PrimFun>(e: Ast<V, F>) -> Seq<Seq<char>>
    decreases e, 0int,
{
    match e {
        Ast::Name(_) => Seq::empty(),
        Ast::Abs(x, b) => seq![x@] + ast_binders(*b),
        Ast::App(f, a) => ast_binders(*f) + ast_binders(*a),
        Ast::Rep(s, a, b, body) => ast_binders(*s) + seq![a@, b@] + ast_binders(*body),
        Ast::Era(s, body) => ast_binders(*s) + ast_binders(*body),
        Ast::Fix(i) => ast_binders(*i),
        Ast::Val(_) => Seq::empty(),
        Ast::Fun(_) => Seq::empty(),
        Ast::Perform(_, s) => ast_binders(*s),
        Ast::Handle(c, bs) => ast_binders(*c) + branches_binders(bs@, 0),
    }
}

/// The binder names of handler branches `i..` in order.
pub open spec fn branches_binders<V: PrimVal, F: PrimFun>(bs: Seq<HandlerBranch<V, F>>, i: int) -> Seq<Seq<char>>
    decreases bs, bs.len() - i,
{
    if 0 <= i < bs.len() {
        seq![bs[i].arg_name@, bs[i].k_name@] + ast_binders(*bs[i].body) + branches_binders(bs, i + 1)
    } else {
        Seq::empty()
    }
}


/// The number of free occurrences of name `n` in `e` (inner binders of `n`
/// shadow it).
pub open spec fn count_free<V: PrimVal, F: PrimFun>(e: Ast<V, F>, n: Seq<char>) -> nat
    decreases e, 0int,
{
    match e {
        Ast::Name(m) => if m@ == n {
            1
        } else {
            0
        },
        Ast::Abs(x, b) => if x@ == n {
            0
        } else {
            count_free(*b, n)
        },
        Ast::App(f, a) => count_free(*f, n) + count_free(*a, n),
        Ast::Rep(s, a, b, body) => count_free(*s, n) + if a@ == n || b@ == n {
            0
        } else {
            count_free(*body, n)
        },
        Ast::Era(s, body) => count_free(*s, n) + count_free(*body, n),
        Ast::Fix(i) => count_free(*i, n),
        Ast::Val(_) => 0,
        Ast::Fun(_) => 0,
        Ast::Perform(_, s) => count_free(*s, n),
        Ast::Handle(c, bs) => count_free(*c, n) + branches_count_free(bs@, 0, n),
    }
}

/// Free occurrences of `n` in handler branches `i..`.
pub open spec fn branches_count_free<V: PrimVal, F: PrimFun>(
    bs: Seq<HandlerBranch<V, F>>,
    i: int,
    n: Seq<char>,
) -> nat
    decreases bs, bs.len() - i,
{
    if 0 <= i < bs.len() {
        (if bs[i].arg_name@ == n || bs[i].k_name@ == n {
            0
        } else {
            count_free(*bs[i].body, n)
        }) + branches_count_free(bs, i + 1, n)
    } else {
        0
    }
}

/// Every binder of `e` is used exactly once in its scope. Of two binders of
/// one sharing with the same name, the second shadows the first.
pub open spec fn linear<V: PrimVal, F: PrimFun>(e: Ast<V, F>) -> bool
    decreases e, 0int,
{
    match e {
        Ast::Name(_) => true,
        Ast::Abs(x, b) => count_free(*b, x@) == 1 && linear(*b),
        Ast::App(f, a) => linear(*f) && linear(*a),
        Ast::Rep(s, a, b, body) => {
            &&& linear(*s)
            &&& linear(*body)
            &&& (if a@ == b@ {
                0
            } else {
                count_free(*body, a@)
            }) == 1
            &&& count_free(*body, b@) == 1
        },
        Ast::Era(s, body) => linear(*s) && linear(*body),
        Ast::Fix(i) => linear(*i),
        Ast::Val(_) => true,
        Ast::Fun(_) => true,
        Ast::Perform(_, s) => linear(*s),
        Ast::Handle(c, bs) => linear(*c) && branches_linear(bs@, 0),
    }
}

/// Handler branches `i..` use their argument and continuation exactly once
/// (the continuation shadows an argument of the same name) and are linear.
pub open spec fn branches_linear<V: PrimVal, F: PrimFun>(bs: Seq<HandlerBranch<V, F>>, i: int) -> bool
    decreases bs, bs.len() - i,
{
    if 0 <= i < bs.len() {
        &&& linear(*bs[i].body)
        &&& (if bs[i].arg_name@ == bs[i].k_name@ {
            0
        } else {
            count_free(*bs[i].body, bs[i].arg_name@)
        }) == 1
        &&& count_free(*bs[i].body, bs[i].k_name@) == 1
        &&& branches_linear(bs, i + 1)
    } else {
        true
    }
}

/// The term holds a sharing node.
pub open spec fn has_rep<V: PrimVal, F: PrimFun>(e: Ast<V, F>) -> bool
    decreases e, 0int,
{
    match e {
        Ast::Name(_) => false,
        Ast::Abs(_, b) => has_rep(*b),
        Ast::App(f, a) => has_rep(*f) || has_rep(*a),
        Ast::Rep(_, _, _, _) => true,
        Ast::Era(s, body) => has_rep(*s) || has_rep(*body),
        Ast::Fix(i) => has_rep(*i),
        Ast::Val(_) => false,
        Ast::Fun(_) => false,
        Ast::Perform(_, s) => has_rep(*s),
        Ast::Handle(c, bs) => has_rep(*c) || branches_has_rep(bs@, 0),
    }
}

pub open spec fn branches_has_rep<V: PrimVal, F: PrimFun>(bs: Seq<HandlerBranch<V, F>>, i: int) -> bool
    decreases bs, bs.len() - i,
{
    if 0 <= i < bs.len() {
        has_rep(*bs[i].body) || branches_has_rep(bs, i + 1)
    } else {
        false
    }
}

/// The term holds a discarding node.
pub open spec fn has_era<V: PrimVal, F: PrimFun>(e: Ast<V, F>) -> bool
    decreases e, 0int,
{
    match e {
        Ast::Name(_) => false,
        Ast::Abs(_, b) => has_era(*b),
        Ast::App(f, a) => has_era(*f) || has_era(*a),
        Ast::Rep(s, _, _, body) => has_era(*s) || has_era(*body),
        Ast::Era(_, _) => true,
        Ast::Fix(i) => has_era(*i),
        Ast::Val(_) => false,
        Ast::Fun(_) => false,
        Ast::Perform(_, s) => has_era(*s),
        Ast::Handle(c, bs) => has_era(*c) || branches_has_era(bs@, 0),
    }
}

pub open spec fn branches_has_era<V: PrimVal, F: PrimFun>(bs: Seq<HandlerBranch<V, F>>, i: int) -> bool
    decreases bs, bs.len() - i,
{
    if 0 <= i < bs.len() {
        has_era(*bs[i].body) || branches_has_era(bs, i + 1)
    } else {
        false
    }
}

} // verus!
