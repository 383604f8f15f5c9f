//! The evaluator's integer-level rules: which built-in function a call names
//! and how many arguments it takes, and how the lengths of broadcast values
//! (a scalar, or an array of some length) combine.

use vstd::prelude::*;
use crate::error::AlgoError;
use crate::text::{chars_eq_str, chars_of, concat, concat3, decimal, decimal_spec};

verus! {

/// A built-in function of the formula language.
#[derive(Debug, Clone, Copy, PartialEq, Eq, Structural)]
pub enum Builtin {
    Sqrt,
    Log,
    Log10,
    Exp,
    Abs,
    Pow,
    Min,
    Max,
    Clip,
    If,
}

/// The built-in function called `name`, if any.
pub open spec fn builtin_named(name: Seq<char>) -> Option<Builtin> {
    if name == "sqrt"@ {
        Some(Builtin::Sqrt)
    } else if name == "log"@ {
        Some(Builtin::Log)
    } else if name == "log10"@ {
        Some(Builtin::Log10)
    } else if name == "exp"@ {
        Some(Builtin::Exp)
    } else if name == "abs"@ {
        Some(Builtin::Abs)
    } else if name == "pow"@ {
        Some(Builtin::Pow)
    } else if name == "min"@ {
        Some(Builtin::Min)
    } else if name == "max"@ {
        Some(Builtin::Max)
    } else if name == "clip"@ {
        Some(Builtin::Clip)
    } else if name == "if"@ {
        Some(Builtin::If)
    } else {
        None
    }
}

/// The name each built-in is called by in a formula.
pub open spec fn builtin_name(f: Builtin) -> Seq<char> {
    match f {
        Builtin::Sqrt => "sqrt"@,
        Builtin::Log => "log"@,
        Builtin::Log10 => "log10"@,
        Builtin::Exp => "exp"@,
        Builtin::Abs => "abs"@,
        Builtin::Pow => "pow"@,
        Builtin::Min => "min"@,
        Builtin::Max => "max"@,
        Builtin::Clip => "clip"@,
        Builtin::If => "if"@,
    }
}

/// Every built-in is reached by its own name (`min` calls `Min`, `max`
/// calls `Max`, …), and a name that reaches a built-in is that built-in's
/// name: distinct built-ins are never confused.
pub proof fn law_builtin_called_by_its_name(f: Builtin, name: Seq<char>)
    ensures
        builtin_named(builtin_name(f)) == Some(f),
        builtin_named(name) == Some(f) ==> name == builtin_name(f),
{
    reveal_strlit("sqrt");
    reveal_strlit("log");
    reveal_strlit("log10");
    reveal_strlit("exp");
    reveal_strlit("abs");
    reveal_strlit("pow");
    reveal_strlit("min");
    reveal_strlit("max");
    reveal_strlit("clip");
    reveal_strlit("if");
    assert("sqrt"@.len() == 4 && "sqrt"@[0] == 's');
    assert("log"@.len() == 3 && "log"@[0] == 'l' && "log"@[2] == 'g');
    assert("log10"@.len() == 5 && "log10"@[0] == 'l');
    assert("exp"@.len() == 3 && "exp"@[0] == 'e');
    assert("abs"@.len() == 3 && "abs"@[0] == 'a');
    assert("pow"@.len() == 3 && "pow"@[0] == 'p');
    assert("min"@.len() == 3 && "min"@[0] == 'm' && "min"@[1] == 'i');
    assert("max"@.len() == 3 && "max"@[0] == 'm' && "max"@[1] == 'a');
    assert("clip"@.len() == 4 && "clip"@[0] == 'c');
    assert("if"@.len() == 2 && "if"@[0] == 'i');
}

/// How many arguments a built-in takes.
pub open spec fn arity_of(f: Builtin) -> nat {
    match f {
        Builtin::Sqrt | Builtin::Log | Builtin::Log10 | Builtin::Exp | Builtin::Abs => 1,
        Builtin::Pow | Builtin::Min | Builtin::Max => 2,
        Builtin::Clip | Builtin::If => 3,
    }
}

/// The message an arity mismatch is reported with.
pub open spec fn arity_message(name: Seq<char>, expected: nat, got: nat) -> Seq<char> {
    "formula function `"@ + name + "` expects "@ + decimal_spec(expected) + " argument(s), got "@
        + decimal_spec(got)
}

/// The number of arguments `f` takes.
pub fn arity(f: Builtin) -> (r: usize)
    ensures
        r == arity_of(f),
{
    match f {
        Builtin::Sqrt | Builtin::Log | Builtin::Log10 | Builtin::Exp | Builtin::Abs => 1,
        Builtin::Pow | Builtin::Min | Builtin::Max => 2,
        Builtin::Clip | Builtin::If => 3,
    }
}

/// Refuse a call of `name` with `got` arguments where `expected` are taken.
pub fn expect_arity(name: &str, got: usize, expected: usize) -> (r: Result<(), AlgoError>)
    ensures
        got == expected ==> r is Ok,
        got != expected ==> (r matches Err(AlgoError::InvalidArgument(m))
            && m@ == arity_message(name@, expected as nat, got as nat)),
{
    if got != expected {
        let head = concat3("formula function `", name, "` expects ");
        let e = decimal(expected as u64);
        let head = concat(head.as_str(), e.as_str());
        let head = concat(head.as_str(), " argument(s), got ");
        let g = decimal(got as u64);
        return Err(AlgoError::InvalidArgument(concat(head.as_str(), g.as_str())));
    }
    Ok(())
}

/// The built-in a call of `name` with `nargs` arguments invokes: an unknown
/// name is refused first, then a wrong argument count.
pub fn resolve_call(name: &str, nargs: usize) -> (r: Result<Builtin, AlgoError>)
    ensures
        match builtin_named(name@) {
            None => r matches Err(AlgoError::InvalidArgument(m))
                && m@ == "unsupported formula function `"@ + name@ + "`"@,
            Some(f) => if nargs == arity_of(f) {
                r == Ok::<Builtin, AlgoError>(f)
            } else {
                r matches Err(AlgoError::InvalidArgument(m))
                    && m@ == arity_message(name@, arity_of(f), nargs as nat)
            },
        },
        r matches Ok(f) ==> name@ == builtin_name(f),
{
    proof {
        if let Some(f) = builtin_named(name@) {
            law_builtin_called_by_its_name(f, name@);
        }
    }
    let c = chars_of(name);
    let k = c.as_slice();
    let f = if chars_eq_str(k, "sqrt") {
        Builtin::Sqrt
    } else if chars_eq_str(k, "log") {
        Builtin::Log
    } else if chars_eq_str(k, "log10") {
        Builtin::Log10
    } else if chars_eq_str(k, "exp") {
        Builtin::Exp
    } else if chars_eq_str(k, "abs") {
        Builtin::Abs
    } else if chars_eq_str(k, "pow") {
        Builtin::Pow
    } else if chars_eq_str(k, "min") {
        Builtin::Min
    } else if chars_eq_str(k, "max") {
        Builtin::Max
    } else if chars_eq_str(k, "clip") {
        Builtin::Clip
    } else if chars_eq_str(k, "if") {
        Builtin::If
    } else {
        return Err(AlgoError::InvalidArgument(concat3("unsupported formula function `", name, "`")));
    };
    match expect_arity(name, nargs, arity(f)) {
        Ok(()) => Ok(f),
        Err(e) => Err(e),
    }
}

/// The message a value of the wrong length is reported with.
pub open spec fn length_message(expected: nat, got: nat) -> Seq<char> {
    "formula shape mismatch: expected length "@ + decimal_spec(expected) + ", got "@ + decimal_spec(got)
}

fn length_error(expected: usize, got: usize) -> (r: AlgoError)
    ensures
        r matches AlgoError::InvalidArgument(m) && m@ == length_message(expected as nat, got as nat),
{
    let e = decimal(expected as u64);
    let head = concat("formula shape mismatch: expected length ", e.as_str());
    let head = concat(head.as_str(), ", got ");
    let g = decimal(got as u64);
    AlgoError::InvalidArgument(concat(head.as_str(), g.as_str()))
}

/// The common length after seeing an array of `len` values: the first
/// length seen sticks, and any other length is refused.
pub fn observe_len(seen: Option<usize>, len: usize) -> (r: Result<Option<usize>, AlgoError>)
    ensures
        match seen {
            None => r == Ok::<Option<usize>, AlgoError>(Some(len)),
            Some(n) => if n == len {
                r == Ok::<Option<usize>, AlgoError>(Some(n))
            } else {
                r matches Err(AlgoError::InvalidArgument(m)) && m@ == length_message(n as nat, len as nat)
            },
        },
{
    match seen {
        Some(n) => {
            if n != len {
                Err(length_error(n, len))
            } else {
                Ok(Some(n))
            }
        },
        None => Ok(Some(len)),
    }
}

/// The message two arrays of different lengths are combined with.
pub open spec fn pair_message(left: nat, right: nat) -> Seq<char> {
    "formula shape mismatch: left length "@ + decimal_spec(left) + ", right length "@ + decimal_spec(right)
}

/// The length of an element-wise combination of two values, each a scalar
/// (`None`) or an array of the given length: scalars broadcast, two arrays
/// must have the same length.
pub fn pair_len(a: Option<usize>, b: Option<usize>) -> (r: Result<Option<usize>, AlgoError>)
    ensures
        match (a, b) {
            (Some(x), Some(y)) => if x == y {
                r == Ok::<Option<usize>, AlgoError>(Some(x))
            } else {
                r matches Err(AlgoError::InvalidArgument(m)) && m@ == pair_message(x as nat, y as nat)
            },
            (Some(x), None) => r == Ok::<Option<usize>, AlgoError>(Some(x)),
            (None, Some(y)) => r == Ok::<Option<usize>, AlgoError>(Some(y)),
            (None, None) => r == Ok::<Option<usize>, AlgoError>(None),
        },
{
    match (a, b) {
        (Some(x), Some(y)) => {
            if x != y {
                let l = decimal(x as u64);
                let head = concat("formula shape mismatch: left length ", l.as_str());
                let head = concat(head.as_str(), ", right length ");
                let rr = decimal(y as u64);
                Err(AlgoError::InvalidArgument(concat(head.as_str(), rr.as_str())))
            } else {
                Ok(Some(x))
            }
        },
        (Some(x), None) => Ok(Some(x)),
        (None, Some(y)) => Ok(Some(y)),
        (None, None) => Ok(None),
    }
}

/// The first-length-sticks rule folded over a list of optional lengths
/// (scalars skipped).
pub open spec fn fold_lens(seen: Option<usize>, lens: Seq<Option<usize>>) -> Result<Option<usize>, (usize, usize)>
    decreases lens.len(),
{
    if lens.len() == 0 {
        Ok(seen)
    } else {
        match lens[0] {
            None => fold_lens(seen, lens.drop_first()),
            Some(l) => match seen {
                Some(n) => if n != l {
                    Err((n, l))
                } else {
                    fold_lens(seen, lens.drop_first())
                },
                None => fold_lens(Some(l), lens.drop_first()),
            },
        }
    }
}

/// The broadcast length of three values depends only on which of them are
/// arrays: all scalars give a scalar; otherwise, when the arrays among them
/// all have length `l`, the result is an array of `l` values (whichever
/// argument the array is); two arrays of different lengths are refused.
pub proof fn law_triple_length(a: Option<usize>, b: Option<usize>, c: Option<usize>, l: usize)
    ensures
        a is None && b is None && c is None ==> fold_lens(None, seq![a, b, c]) == Ok::<Option<usize>, (usize, usize)>(None),
        (a == Some(l) || b == Some(l) || c == Some(l))
            && (a is None || a == Some(l)) && (b is None || b == Some(l)) && (c is None || c == Some(l))
            ==> fold_lens(None, seq![a, b, c]) == Ok::<Option<usize>, (usize, usize)>(Some(l)),
        (a is Some && b is Some && a != b) || (a is Some && c is Some && a != c) || (b is Some && c is Some && b != c)
            ==> fold_lens(None, seq![a, b, c]) is Err,
{
    let lens = seq![a, b, c];
    assert(lens.drop_first() =~= seq![b, c]);
    assert(lens.drop_first().drop_first() =~= seq![c]);
    assert(lens.drop_first().drop_first().drop_first() =~= Seq::<Option<usize>>::empty());
    reveal_with_fuel(fold_lens, 4);
}

/// The length of an element-wise combination of three values (the `if`
/// function): all arrays among them must share the first one's length.
pub fn triple_len(a: Option<usize>, b: Option<usize>, c: Option<usize>) -> (r: Result<Option<usize>, AlgoError>)
    ensures
        match fold_lens(None, seq![a, b, c]) {
            Ok(n) => r == Ok::<Option<usize>, AlgoError>(n),
            Err((n, l)) => r matches Err(AlgoError::InvalidArgument(m)) && m@ == length_message(n as nat, l as nat),
        },
        a is None && b is None && c is None ==> r == Ok::<Option<usize>, AlgoError>(None),
        forall|l: usize| (a == Some(l) || b == Some(l) || c == Some(l))
            && (a is None || a == Some(l)) && (b is None || b == Some(l)) && (c is None || c == Some(l))
            ==> r == Ok::<Option<usize>, AlgoError>(Some(l)),
{
    proof {
        law_triple_length(a, b, c, 0);
        assert forall|l: usize| (a == Some(l) || b == Some(l) || c == Some(l))
            && (a is None || a == Some(l)) && (b is None || b == Some(l)) && (c is None || c == Some(l))
            implies fold_lens(None, seq![a, b, c]) == Ok::<Option<usize>, (usize, usize)>(Some(l)) by {
            law_triple_length(a, b, c, l);
        }
    }
    let ghost lens = seq![a, b, c];
    assert(lens.drop_first() =~= seq![b, c]);
    assert(lens.drop_first().drop_first() =~= seq![c]);
    assert(lens.drop_first().drop_first().drop_first() =~= Seq::<Option<usize>>::empty());
    proof {
        reveal_with_fuel(fold_lens, 4);
    }
    let mut seen: Option<usize> = None;
    if let Some(l) = a {
        seen = Some(l);
    }
    if let Some(l) = b {
        match observe_len(seen, l) {
            Ok(s) => { seen = s; },
            Err(e) => return Err(e),
        }
    }
    if let Some(l) = c {
        match observe_len(seen, l) {
            Ok(s) => { seen = s; },
            Err(e) => return Err(e),
        }
    }
    Ok(seen)
}

/// Whether a value of optional length `len` can fill an output of `n`
/// values: a scalar repeats, an array must have exactly `n`.
pub fn fill_len(len: Option<usize>, n: usize) -> (r: Result<(), AlgoError>)
    ensures
        match len {
            None => r is Ok,
            Some(l) => if l == n {
                r is Ok
            } else {
                r matches Err(AlgoError::InvalidArgument(m)) && m@ == length_message(n as nat, l as nat)
            },
        },
{
    match len {
        Some(l) => {
            if l != n {
                return Err(length_error(n, l));
            }
            Ok(())
        },
        None => Ok(()),
    }
}

} // verus!
