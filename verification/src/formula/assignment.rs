//! One `lhs = rhs` formula assignment: splitting the text, checking the
//! left-hand side and parsing the right-hand side.

use vstd::prelude::*;
use crate::error::AlgoError;
use crate::formula::ast::{Expr, ExprView, params_of, vars_of};
use crate::formula::lexer::{fault_message, ident_text, is_ident, lex, tokenize};
use crate::formula::parser::{Parser, parse_tokens, p_expr, tok};
use crate::text::{chars_of, concat, concat3, names, strictly_sorted, trim, trimmed};

verus! {

/// Whether position `k` of `s` holds the assignment `=`: an `=` that is not
/// part of `<=`, `>=`, `!=` or `==`.
pub open spec fn assign_eq_at(s: Seq<char>, k: int) -> bool {
    &&& 0 <= k < s.len()
    &&& s[k] == '='
    &&& !(k > 0 && (s[k - 1] == '<' || s[k - 1] == '>' || s[k - 1] == '!' || s[k - 1] == '='))
    &&& !(k + 1 < s.len() && s[k + 1] == '=')
}

/// The first assignment `=` at or after `i`.
pub open spec fn first_assign_eq(s: Seq<char>, i: int) -> Option<int>
    decreases s.len() - i,
{
    if i < 0 || i >= s.len() {
        None
    } else if assign_eq_at(s, i) {
        Some(i)
    } else {
        first_assign_eq(s, i + 1)
    }
}

/// How an assignment text splits into trimmed left and right sides, or the
/// message of the parse error it is refused with.
pub open spec fn split_spec(s: Seq<char>) -> Result<(Seq<char>, Seq<char>), Seq<char>> {
    match first_assign_eq(s, 0) {
        None => Err("formula assignment missing `=`: "@ + s),
        Some(k) => {
            let l = trim(s.subrange(0, k));
            let r = trim(s.subrange(k + 1, s.len() as int));
            if l.len() == 0 || r.len() == 0 {
                Err("formula assignment requires non-empty lhs and rhs"@)
            } else {
                Ok((l, r))
            }
        },
    }
}

/// Split an assignment text at its assignment `=` into trimmed sides.
pub fn split_assignment(text: &str) -> (r: Result<(String, String), AlgoError>)
    ensures
        match split_spec(text@) {
            Ok((l, rhs)) => r matches Ok((a, b)) && a@ == l && b@ == rhs,
            Err(m) => r matches Err(AlgoError::Parse(e)) && e@ == m,
        },
{
    let chars = chars_of(text);
    let n = chars.len();
    let mut idx: usize = 0;
    while idx < n
        invariant
            chars@ == text@,
            n == chars@.len(),
            idx <= n,
            first_assign_eq(chars@, 0) == first_assign_eq(chars@, idx as int),
        decreases n - idx,
    {
        if chars[idx] == '=' {
            let prev_blocks = idx > 0 && (chars[idx - 1] == '<' || chars[idx - 1] == '>'
                || chars[idx - 1] == '!' || chars[idx - 1] == '=');
            let next_blocks = idx + 1 < n && chars[idx + 1] == '=';
            if !prev_blocks && !next_blocks {
                let lhs = trimmed(chars.as_slice(), 0, idx);
                let rhs = trimmed(chars.as_slice(), idx + 1, n);
                if lhs.unicode_len() == 0 || rhs.unicode_len() == 0 {
                    return Err(AlgoError::Parse(String::from_str("formula assignment requires non-empty lhs and rhs")));
                }
                return Ok((lhs, rhs));
            }
        }
        idx = idx + 1;
    }
    Err(AlgoError::Parse(concat("formula assignment missing `=`: ", text)))
}

/// The mathematical value of an assignment.
pub struct AssignmentView {
    pub lhs: Seq<char>,
    pub expr: ExprView,
}

/// What parsing an assignment text gives: the assignment, or the message
/// of the parse error it is refused with.
pub open spec fn assignment_spec(s: Seq<char>) -> Result<AssignmentView, Seq<char>> {
    match split_spec(s) {
        Err(m) => Err(m),
        Ok((l, r)) => if !ident_text(l) {
            Err("invalid assignment lhs `"@ + l + "`: expected a bare identifier"@)
        } else {
            match lex(r, 0) {
                Err(f) => Err(fault_message(f)),
                Ok(ts) => match parse_tokens(ts) {
                    Ok(e) => Ok(AssignmentView { lhs: l, expr: e }),
                    Err(m) => Err(m),
                },
            }
        },
    }
}

/// `r` is the parse error with message `m`.
pub open spec fn parse_error_matches(r: AlgoError, m: Seq<char>) -> bool {
    r matches AlgoError::Parse(x) && x@ == m
}

/// One parsed `lhs = rhs` formula assignment.
#[derive(Debug)]
pub struct Assignment {
    lhs: String,
    expr: Expr,
}

impl View for Assignment {
    type V = AssignmentView;

    closed spec fn view(&self) -> AssignmentView {
        AssignmentView { lhs: self.lhs@, expr: self.expr@ }
    }
}

impl Assignment {
    /// Parse one assignment string such as
    /// `RQI = $lambda * sqrt(PermXY_BC / PorE_BC)`.
    pub fn parse(text: &str) -> (r: Result<Assignment, AlgoError>)
        ensures
            match assignment_spec(text@) {
                Ok(a) => r matches Ok(x) && x@ == a,
                Err(e) => r matches Err(x) && parse_error_matches(x, e),
            },
    {
        let (lhs, rhs) = match split_assignment(text) {
            Ok(p) => p,
            Err(e) => return Err(e),
        };
        if !is_ident(lhs.as_str()) {
            return Err(AlgoError::Parse(concat3("invalid assignment lhs `", lhs.as_str(), "`: expected a bare identifier")));
        }
        let tokens = match tokenize(rhs.as_str()) {
            Ok(t) => t,
            Err(e) => return Err(e),
        };
        let mut parser = Parser::new(tokens);
        let expr = match parser.parse_expression() {
            Ok(e) => e,
            Err(e) => return Err(e),
        };
        match parser.expect_end() {
            Ok(()) => {}
            Err(e) => return Err(e),
        }
        Ok(Assignment { lhs, expr })
    }

    /// Name written by this assignment.
    pub fn lhs(&self) -> (r: &str)
        ensures
            r@ == self@.lhs,
    {
        self.lhs.as_str()
    }

    /// The parsed right-hand side.
    pub fn expr(&self) -> (r: &Expr)
        ensures
            r@ == self@.expr,
    {
        &self.expr
    }

    /// Scalar runtime parameters referenced by this assignment, without `$`,
    /// sorted and without repeats.
    pub fn params(&self) -> (r: Vec<String>)
        ensures
            strictly_sorted(names(r@)),
            names(r@).to_set() == params_of(self@.expr),
    {
        let mut out: Vec<String> = Vec::new();
        assert(names(out@).to_set() =~= Set::empty());
        self.expr.collect_params(&mut out);
        assert(Set::<Seq<char>>::empty().union(params_of(self@.expr)) =~= params_of(self@.expr));
        out
    }

    /// Bare variable names referenced by this assignment, sorted and without
    /// repeats.
    pub fn variables(&self) -> (r: Vec<String>)
        ensures
            strictly_sorted(names(r@)),
            names(r@).to_set() == vars_of(self@.expr),
    {
        let mut out: Vec<String> = Vec::new();
        assert(names(out@).to_set() =~= Set::empty());
        self.expr.collect_vars(&mut out);
        assert(Set::<Seq<char>>::empty().union(vars_of(self@.expr)) =~= vars_of(self@.expr));
        out
    }

    /// A copy of the output name.
    pub fn lhs_string(&self) -> (r: String)
        ensures
            r@ == self@.lhs,
    {
        self.lhs.clone()
    }
}

} // verus!
