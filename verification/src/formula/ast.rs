//! Tokens and expression trees of the formula language, with their views.

use vstd::prelude::*;
use crate::text::{insert_name, names, strictly_sorted};

verus! {

/// A lexical token; `S` is the text type (`String` at run time, `Seq<char>`
/// in specifications). A number keeps its literal text.
#[derive(Debug)]
pub enum Tok<S> {
    Number(S),
    Ident(S),
    Param(S),
    Plus,
    Minus,
    Star,
    Slash,
    Pow,
    LParen,
    RParen,
    Comma,
    Lt,
    Le,
    Gt,
    Ge,
    EqEq,
    Ne,
    End,
}

/// A run-time token.
pub type Token = Tok<String>;

/// The mathematical value of a token.
pub type TokenView = Tok<Seq<char>>;

impl View for Tok<String> {
    type V = Tok<Seq<char>>;

    open spec fn view(&self) -> Tok<Seq<char>> {
        match self {
            Tok::Number(s) => Tok::Number(s@),
            Tok::Ident(s) => Tok::Ident(s@),
            Tok::Param(s) => Tok::Param(s@),
            Tok::Plus => Tok::Plus,
            Tok::Minus => Tok::Minus,
            Tok::Star => Tok::Star,
            Tok::Slash => Tok::Slash,
            Tok::Pow => Tok::Pow,
            Tok::LParen => Tok::LParen,
            Tok::RParen => Tok::RParen,
            Tok::Comma => Tok::Comma,
            Tok::Lt => Tok::Lt,
            Tok::Le => Tok::Le,
            Tok::Gt => Tok::Gt,
            Tok::Ge => Tok::Ge,
            Tok::EqEq => Tok::EqEq,
            Tok::Ne => Tok::Ne,
            Tok::End => Tok::End,
        }
    }
}

/// The views of a token sequence.
pub open spec fn tokens_view(ts: Seq<Token>) -> Seq<TokenView> {
    ts.map_values(|t: Token| t@)
}

impl Tok<String> {
    /// A copy of this token.
    pub fn duplicate(&self) -> (r: Token)
        ensures
            r@ == self@,
    {
        match self {
            Tok::Number(s) => Tok::Number(s.clone()),
            Tok::Ident(s) => Tok::Ident(s.clone()),
            Tok::Param(s) => Tok::Param(s.clone()),
            Tok::Plus => Tok::Plus,
            Tok::Minus => Tok::Minus,
            Tok::Star => Tok::Star,
            Tok::Slash => Tok::Slash,
            Tok::Pow => Tok::Pow,
            Tok::LParen => Tok::LParen,
            Tok::RParen => Tok::RParen,
            Tok::Comma => Tok::Comma,
            Tok::Lt => Tok::Lt,
            Tok::Le => Tok::Le,
            Tok::Gt => Tok::Gt,
            Tok::Ge => Tok::Ge,
            Tok::EqEq => Tok::EqEq,
            Tok::Ne => Tok::Ne,
            Tok::End => Tok::End,
        }
    }

    /// Whether two tokens are the same (same kind, same text).
    pub fn same(&self, other: &Token) -> (r: bool)
        ensures
            r == (self@ == other@),
    {
        match self {
            Tok::Number(a) => match other {
                Tok::Number(b) => { let r = a.eq(b); r }
                _ => false,
            },
            Tok::Ident(a) => match other {
                Tok::Ident(b) => { let r = a.eq(b); r }
                _ => false,
            },
            Tok::Param(a) => match other {
                Tok::Param(b) => { let r = a.eq(b); r }
                _ => false,
            },
            Tok::Plus => matches!(other, Tok::Plus),
            Tok::Minus => matches!(other, Tok::Minus),
            Tok::Star => matches!(other, Tok::Star),
            Tok::Slash => matches!(other, Tok::Slash),
            Tok::Pow => matches!(other, Tok::Pow),
            Tok::LParen => matches!(other, Tok::LParen),
            Tok::RParen => matches!(other, Tok::RParen),
            Tok::Comma => matches!(other, Tok::Comma),
            Tok::Lt => matches!(other, Tok::Lt),
            Tok::Le => matches!(other, Tok::Le),
            Tok::Gt => matches!(other, Tok::Gt),
            Tok::Ge => matches!(other, Tok::Ge),
            Tok::EqEq => matches!(other, Tok::EqEq),
            Tok::Ne => matches!(other, Tok::Ne),
            Tok::End => matches!(other, Tok::End),
        }
    }
}

/// Unary operators.
#[derive(Debug, Clone, Copy, PartialEq, Eq, Structural)]
pub enum UnaryOp {
    Pos,
    Neg,
}

/// Binary operators (arithmetic and comparison).
#[derive(Debug, Clone, Copy, PartialEq, Eq, Structural)]
pub enum BinaryOp {
    Add,
    Sub,
    Mul,
    Div,
    Pow,
    Lt,
    Le,
    Gt,
    Ge,
    Eq,
    Ne,
}

/// A parsed formula expression. A number keeps its literal text; turning it
/// into a value is the evaluator's business.
#[derive(Debug)]
pub enum Expr {
    Number(String),
    Param(String),
    Var(String),
    Unary(UnaryOp, Box<Expr>),
    Binary(BinaryOp, Box<Expr>, Box<Expr>),
    Call(String, Vec<Expr>),
}

/// The mathematical value of an expression tree.
pub enum ExprView {
    Number(Seq<char>),
    Param(Seq<char>),
    Var(Seq<char>),
    Unary(UnaryOp, Box<ExprView>),
    Binary(BinaryOp, Box<ExprView>, Box<ExprView>),
    Call(Seq<char>, Seq<ExprView>),
}

impl View for Expr {
    type V = ExprView;

    open spec fn view(&self) -> ExprView
        decreases self,
    {
        match self {
            Expr::Number(s) => ExprView::Number(s@),
            Expr::Param(s) => ExprView::Param(s@),
            Expr::Var(s) => ExprView::Var(s@),
            Expr::Unary(op, e) => ExprView::Unary(*op, Box::new((**e).view())),
            Expr::Binary(op, a, b) => ExprView::Binary(*op, Box::new((**a).view()), Box::new((**b).view())),
            Expr::Call(n, args) => ExprView::Call(
                n@,
                Seq::new(
                    args@.len(),
                    |i: int|
                        if 0 <= i < args@.len() {
                            args@[i].view()
                        } else {
                            ExprView::Number(Seq::empty())
                        },
                ),
            ),
        }
    }
}

/// Whether the scalar parameter `name` (without `$`) occurs in `e`.
pub open spec fn mentions_param(e: ExprView, name: Seq<char>) -> bool
    decreases e,
{
    match e {
        ExprView::Param(n) => n == name,
        ExprView::Number(_) => false,
        ExprView::Var(_) => false,
        ExprView::Unary(_, a) => mentions_param(*a, name),
        ExprView::Binary(_, a, b) => mentions_param(*a, name) || mentions_param(*b, name),
        ExprView::Call(_, args) => exists|i: int| 0 <= i < args.len() && mentions_param(#[trigger] args[i], name),
    }
}

/// Whether the bare variable `name` occurs in `e`.
pub open spec fn mentions_var(e: ExprView, name: Seq<char>) -> bool
    decreases e,
{
    match e {
        ExprView::Var(n) => n == name,
        ExprView::Number(_) => false,
        ExprView::Param(_) => false,
        ExprView::Unary(_, a) => mentions_var(*a, name),
        ExprView::Binary(_, a, b) => mentions_var(*a, name) || mentions_var(*b, name),
        ExprView::Call(_, args) => exists|i: int| 0 <= i < args.len() && mentions_var(#[trigger] args[i], name),
    }
}


/// The parameters occurring in `e`.
pub open spec fn params_of(e: ExprView) -> Set<Seq<char>> {
    Set::new(|n: Seq<char>| mentions_param(e, n))
}

/// The bare variables occurring in `e`.
pub open spec fn vars_of(e: ExprView) -> Set<Seq<char>> {
    Set::new(|n: Seq<char>| mentions_var(e, n))
}

/// Where the variables and parameters of a tree come from: a variable leaf
/// reports its own name and nothing else does by itself; a sign (`-x`,
/// `+x`) hides nothing of its operand; a binary node reports what either
/// side does; a call reports what any argument does, and its function name
/// is neither a variable nor a parameter.
pub proof fn law_names_by_form(
    n: Seq<char>,
    op: UnaryOp,
    bop: BinaryOp,
    a: ExprView,
    b: ExprView,
    f: Seq<char>,
    args: Seq<ExprView>,
    x: Seq<char>,
)
    ensures
        vars_of(ExprView::Var(n)) == set![n],
        vars_of(ExprView::Number(n)) == Set::<Seq<char>>::empty(),
        vars_of(ExprView::Param(n)) == Set::<Seq<char>>::empty(),
        vars_of(ExprView::Unary(op, Box::new(a))) == vars_of(a),
        vars_of(ExprView::Binary(bop, Box::new(a), Box::new(b))) == vars_of(a).union(vars_of(b)),
        vars_of(ExprView::Call(f, args)).contains(x)
            <==> exists|i: int| 0 <= i < args.len() && vars_of(#[trigger] args[i]).contains(x),
        params_of(ExprView::Param(n)) == set![n],
        params_of(ExprView::Number(n)) == Set::<Seq<char>>::empty(),
        params_of(ExprView::Var(n)) == Set::<Seq<char>>::empty(),
        params_of(ExprView::Unary(op, Box::new(a))) == params_of(a),
        params_of(ExprView::Binary(bop, Box::new(a), Box::new(b))) == params_of(a).union(params_of(b)),
        params_of(ExprView::Call(f, args)).contains(x)
            <==> exists|i: int| 0 <= i < args.len() && params_of(#[trigger] args[i]).contains(x),
{
    assert(vars_of(ExprView::Var(n)) =~= set![n]);
    assert(vars_of(ExprView::Number(n)) =~= Set::<Seq<char>>::empty());
    assert(vars_of(ExprView::Param(n)) =~= Set::<Seq<char>>::empty());
    assert(vars_of(ExprView::Unary(op, Box::new(a))) =~= vars_of(a));
    assert(vars_of(ExprView::Binary(bop, Box::new(a), Box::new(b))) =~= vars_of(a).union(vars_of(b)));
    assert(params_of(ExprView::Param(n)) =~= set![n]);
    assert(params_of(ExprView::Number(n)) =~= Set::<Seq<char>>::empty());
    assert(params_of(ExprView::Var(n)) =~= Set::<Seq<char>>::empty());
    assert(params_of(ExprView::Unary(op, Box::new(a))) =~= params_of(a));
    assert(params_of(ExprView::Binary(bop, Box::new(a), Box::new(b))) =~= params_of(a).union(params_of(b)));
    let c = ExprView::Call(f, args);
    assert(c->Call_1 == args);
    assert(mentions_var(c, x) == exists|j: int| 0 <= j < args.len() && mentions_var(#[trigger] args[j], x));
    assert(mentions_param(c, x) == exists|j: int| 0 <= j < args.len() && mentions_param(#[trigger] args[j], x));
    if vars_of(c).contains(x) {
        let i = choose|i: int| 0 <= i < args.len() && mentions_var(#[trigger] args[i], x);
        assert(vars_of(args[i]).contains(x));
    }
    if exists|i: int| 0 <= i < args.len() && vars_of(#[trigger] args[i]).contains(x) {
        let i = choose|i: int| 0 <= i < args.len() && vars_of(#[trigger] args[i]).contains(x);
        assert(mentions_var(args[i], x));
        assert(mentions_var(c, x));
        assert(vars_of(c).contains(x));
    }
    if params_of(c).contains(x) {
        let i = choose|i: int| 0 <= i < args.len() && mentions_param(#[trigger] args[i], x);
        assert(params_of(args[i]).contains(x));
    }
    if exists|i: int| 0 <= i < args.len() && params_of(#[trigger] args[i]).contains(x) {
        let i = choose|i: int| 0 <= i < args.len() && params_of(#[trigger] args[i]).contains(x);
        assert(mentions_param(args[i], x));
        assert(mentions_param(c, x));
        assert(params_of(c).contains(x));
    }
}

impl Expr {
    /// Add the scalar parameters occurring in this expression to the sorted name set `out`.
    pub fn collect_params(&self, out: &mut Vec<String>)
        requires
            strictly_sorted(names(old(out)@)),
        ensures
            strictly_sorted(names(final(out)@)),
            names(final(out)@).to_set() == names(old(out)@).to_set().union(params_of(self@)),
        decreases self@,
    {
        let ghost ev = self@;
        match self {
            Expr::Param(name) => {
                insert_name(out, name.as_str());
                proof {
                    assert(params_of(ev) =~= set![name@]);
                    assert(set![name@] =~= Set::empty().insert(name@));
                    assert(names(old(out)@).to_set().insert(name@) =~= names(old(out)@).to_set().union(params_of(ev)));
                }
            }
            Expr::Unary(_, e) => {
                assert(ev->Unary_1 == (**e)@);
                assert(decreases_to!(ev => ev->Unary_1));
                e.collect_params(out);
                assert(params_of(ev) =~= params_of((**e)@));
            }
            Expr::Binary(_, a, b) => {
                assert(ev->Binary_1 == (**a)@ && ev->Binary_2 == (**b)@);
                assert(decreases_to!(ev => ev->Binary_1));
                assert(decreases_to!(ev => ev->Binary_2));
                let ghost o0 = names(out@).to_set();
                a.collect_params(out);
                b.collect_params(out);
                assert(params_of(ev) =~= params_of((**a)@).union(params_of((**b)@)));
                assert(o0.union(params_of((**a)@)).union(params_of((**b)@)) =~= o0.union(params_of(ev)));
            }
            Expr::Call(_, args) => {
                assert(ev is Call);
                assert(ev->Call_1.len() == args@.len());
                let ghost o0 = names(out@).to_set();
                let mut i: usize = 0;
                while i < args.len()
                    invariant
                        i <= args@.len(),
                        ev == self@,
                        ev is Call,
                        ev->Call_1.len() == args@.len(),
                        forall|k: int| 0 <= k < args@.len() ==> ev->Call_1[k] == (#[trigger] args@[k])@,
                        strictly_sorted(names(out@)),
                        names(out@).to_set() == o0.union(Set::new(|n: Seq<char>| exists|k: int| 0 <= k < i && mentions_param(#[trigger] ev->Call_1[k], n))),
                    decreases args@.len() - i,
                {
                    proof {
                        assert(decreases_to!(ev => ev->Call_1[i as int]));
                    }
                    let ghost before = names(out@).to_set();
                    args[i].collect_params(out);
                    proof {
                        let prev = Set::new(|n: Seq<char>| exists|k: int| 0 <= k < i && mentions_param(#[trigger] ev->Call_1[k], n));
                        let next = Set::new(|n: Seq<char>| exists|k: int| 0 <= k < i + 1 && mentions_param(#[trigger] ev->Call_1[k], n));
                        assert(next =~= prev.union(params_of(ev->Call_1[i as int]))) by {
                            assert forall|n: Seq<char>| next.contains(n) implies prev.union(params_of(ev->Call_1[i as int])).contains(n) by {
                                let k = choose|k: int| 0 <= k < i + 1 && mentions_param(#[trigger] ev->Call_1[k], n);
                                if k < i {
                                    assert(prev.contains(n));
                                }
                            }
                        }
                        assert(before.union(params_of(args@[i as int]@)) =~= o0.union(next));
                    }
                    i = i + 1;
                }
                proof {
                    let all = Set::new(|n: Seq<char>| exists|k: int| 0 <= k < args@.len() && mentions_param(#[trigger] ev->Call_1[k], n));
                    assert(all =~= params_of(ev));
                }
            }
            _ => {
                assert(params_of(ev) =~= Set::empty());
                assert(names(out@).to_set().union(params_of(ev)) =~= names(out@).to_set());
            }
        }
    }

    /// Add the bare variable names occurring in this expression to the sorted name set `out`.
    pub fn collect_vars(&self, out: &mut Vec<String>)
        requires
            strictly_sorted(names(old(out)@)),
        ensures
            strictly_sorted(names(final(out)@)),
            names(final(out)@).to_set() == names(old(out)@).to_set().union(vars_of(self@)),
        decreases self@,
    {
        let ghost ev = self@;
        match self {
            Expr::Var(name) => {
                insert_name(out, name.as_str());
                proof {
                    assert(vars_of(ev) =~= set![name@]);
                    assert(set![name@] =~= Set::empty().insert(name@));
                    assert(names(old(out)@).to_set().insert(name@) =~= names(old(out)@).to_set().union(vars_of(ev)));
                }
            }
            Expr::Unary(_, e) => {
                assert(ev->Unary_1 == (**e)@);
                assert(decreases_to!(ev => ev->Unary_1));
                e.collect_vars(out);
                assert(vars_of(ev) =~= vars_of((**e)@));
            }
            Expr::Binary(_, a, b) => {
                assert(ev->Binary_1 == (**a)@ && ev->Binary_2 == (**b)@);
                assert(decreases_to!(ev => ev->Binary_1));
                assert(decreases_to!(ev => ev->Binary_2));
                let ghost o0 = names(out@).to_set();
                a.collect_vars(out);
                b.collect_vars(out);
                assert(vars_of(ev) =~= vars_of((**a)@).union(vars_of((**b)@)));
                assert(o0.union(vars_of((**a)@)).union(vars_of((**b)@)) =~= o0.union(vars_of(ev)));
            }
            Expr::Call(_, args) => {
                assert(ev is Call);
                assert(ev->Call_1.len() == args@.len());
                let ghost o0 = names(out@).to_set();
                let mut i: usize = 0;
                while i < args.len()
                    invariant
                        i <= args@.len(),
                        ev == self@,
                        ev is Call,
                        ev->Call_1.len() == args@.len(),
                        forall|k: int| 0 <= k < args@.len() ==> ev->Call_1[k] == (#[trigger] args@[k])@,
                        strictly_sorted(names(out@)),
                        names(out@).to_set() == o0.union(Set::new(|n: Seq<char>| exists|k: int| 0 <= k < i && mentions_var(#[trigger] ev->Call_1[k], n))),
                    decreases args@.len() - i,
                {
                    proof {
                        assert(decreases_to!(ev => ev->Call_1[i as int]));
                    }
                    let ghost before = names(out@).to_set();
                    args[i].collect_vars(out);
                    proof {
                        let prev = Set::new(|n: Seq<char>| exists|k: int| 0 <= k < i && mentions_var(#[trigger] ev->Call_1[k], n));
                        let next = Set::new(|n: Seq<char>| exists|k: int| 0 <= k < i + 1 && mentions_var(#[trigger] ev->Call_1[k], n));
                        assert(next =~= prev.union(vars_of(ev->Call_1[i as int]))) by {
                            assert forall|n: Seq<char>| next.contains(n) implies prev.union(vars_of(ev->Call_1[i as int])).contains(n) by {
                                let k = choose|k: int| 0 <= k < i + 1 && mentions_var(#[trigger] ev->Call_1[k], n);
                                if k < i {
                                    assert(prev.contains(n));
                                }
                            }
                        }
                        assert(before.union(vars_of(args@[i as int]@)) =~= o0.union(next));
                    }
                    i = i + 1;
                }
                proof {
                    let all = Set::new(|n: Seq<char>| exists|k: int| 0 <= k < args@.len() && mentions_var(#[trigger] ev->Call_1[k], n));
                    assert(all =~= vars_of(ev));
                }
            }
            _ => {
                assert(vars_of(ev) =~= Set::empty());
                assert(names(out@).to_set().union(vars_of(ev)) =~= names(out@).to_set());
            }
        }
    }

}

} // verus!
