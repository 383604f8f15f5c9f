//! One-dimensional interpolation: the method vocabulary and its user-facing
//! name parser.

use vstd::prelude::*;
use crate::error::AlgoError;
use crate::text::{ascii_lower, ascii_lowercase, chars_eq_str, chars_of, concat3, lower_char, string_of, trim, trimmed};

verus! {

/// Interpolation method for one-dimensional interpolation.
#[derive(Clone, Copy, Debug, Eq, PartialEq, Structural)]
pub enum Interp1dMethod {
    /// Closest input sample; ties choose the lower/previous sample.
    Nearest,
    /// Previous sample on the x-axis.
    Previous,
    /// Next sample on the x-axis.
    Next,
    /// Piecewise-linear interpolation.
    Linear,
    /// Global natural cubic spline (zero curvature at both ends).
    CubicNatural,
}

/// The method a (trimmed, lower-cased) name selects, if any.
pub open spec fn method_named(n: Seq<char>) -> Option<Interp1dMethod> {
    if n == "nearest"@ || n == "closest"@ || n == "nn"@ {
        Some(Interp1dMethod::Nearest)
    } else if n == "previous"@ || n == "prev"@ || n == "ffill"@ {
        Some(Interp1dMethod::Previous)
    } else if n == "next"@ || n == "bfill"@ {
        Some(Interp1dMethod::Next)
    } else if n == "linear"@ {
        Some(Interp1dMethod::Linear)
    } else if n == "cubic"@ || n == "spline"@ || n == "natural"@ || n == "natural_cubic"@
        || n == "cubic_natural"@ {
        Some(Interp1dMethod::CubicNatural)
    } else {
        None
    }
}

/// The key a user-facing name is looked up by: trimmed, then ASCII lower-cased.
pub open spec fn method_key(name: Seq<char>) -> Seq<char> {
    ascii_lowercase(trim(name))
}

impl Interp1dMethod {
    /// Parse a user-facing method name (surrounding whitespace and ASCII case
    /// are ignored).
    pub fn parse(name: &str) -> (r: Result<Interp1dMethod, AlgoError>)
        ensures
            match method_named(method_key(name@)) {
                Some(m) => r == Ok::<Interp1dMethod, AlgoError>(m),
                None => r matches Err(AlgoError::InvalidArgument(msg))
                    && msg@ == "unknown interpolation method '"@ + method_key(name@) + "'"@,
            },
    {
        let chars = chars_of(name);
        let t = trimmed(chars.as_slice(), 0, chars.len());
        let tc = chars_of(t.as_str());
        let mut key: Vec<char> = Vec::new();
        let mut i: usize = 0;
        while i < tc.len()
            invariant
                i <= tc@.len(),
                key@ == tc@.subrange(0, i as int).map_values(|c: char| ascii_lower(c)),
            decreases tc.len() - i,
        {
            key.push(lower_char(tc[i]));
            assert(key@ =~= tc@.subrange(0, i + 1).map_values(|c: char| ascii_lower(c)));
            i = i + 1;
        }
        proof {
            assert(chars@.subrange(0, chars@.len() as int) =~= name@);
            assert(tc@.subrange(0, tc@.len() as int) =~= tc@);
            assert(key@ == method_key(name@));
        }
        let k = key.as_slice();
        if chars_eq_str(k, "nearest") || chars_eq_str(k, "closest") || chars_eq_str(k, "nn") {
            Ok(Interp1dMethod::Nearest)
        } else if chars_eq_str(k, "previous") || chars_eq_str(k, "prev") || chars_eq_str(k, "ffill") {
            Ok(Interp1dMethod::Previous)
        } else if chars_eq_str(k, "next") || chars_eq_str(k, "bfill") {
            Ok(Interp1dMethod::Next)
        } else if chars_eq_str(k, "linear") {
            Ok(Interp1dMethod::Linear)
        } else if chars_eq_str(k, "cubic") || chars_eq_str(k, "spline") || chars_eq_str(k, "natural")
            || chars_eq_str(k, "natural_cubic") || chars_eq_str(k, "cubic_natural") {
            Ok(Interp1dMethod::CubicNatural)
        } else {
            let other = string_of(k, 0, k.len());
            assert(k@.subrange(0, k@.len() as int) =~= k@);
            Err(AlgoError::InvalidArgument(concat3("unknown interpolation method '", other.as_str(), "'")))
        }
    }
}

} // verus!
