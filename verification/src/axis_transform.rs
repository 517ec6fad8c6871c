//! Selection of the monotonic value-axis transform used to rescale a value
//! axis before plotting: identity, decimal logarithm, or an n-th polynomial
//! root. The numeric application in chart space is the rendering side's
//! work; the library provides the selection, its valid domain and its
//! human-readable label.

use vstd::prelude::*;
use vstd::string::StringExecFns;

use crate::text::spec_digits;
use crate::text::digits_string;

verus! {

/// A monotonic, invertible rescaling of the value axis.
#[derive(Clone, Copy, Debug, PartialEq, Eq, Structural)]
pub enum AxisTransform {
    /// The identity transform.
    Linear,
    /// The decimal logarithm; only positive values are in its domain.
    Log,
    /// The n-th root for `degree == n`; only nonnegative values are in its
    /// domain.
    PolynomialRoot { degree: u64 },
}

impl AxisTransform {
    /// A transform selection is well formed when a polynomial root has
    /// degree at least one.
    pub open spec fn well_formed(self) -> bool {
        match self {
            AxisTransform::PolynomialRoot { degree } => degree >= 1,
            _ => true,
        }
    }

    /// Whether a fixed-point value lies in the transform's valid domain.
    pub open spec fn spec_admits(self, v: int) -> bool {
        match self {
            AxisTransform::Linear => true,
            AxisTransform::Log => v > 0,
            AxisTransform::PolynomialRoot { .. } => v >= 0,
        }
    }

    /// Whether a fixed-point value lies in the transform's valid domain.
    pub fn admits(&self, v: i128) -> (r: bool)
        ensures
            r == self.spec_admits(v as int),
    {
        match self {
            AxisTransform::Linear => true,
            AxisTransform::Log => v > 0,
            AxisTransform::PolynomialRoot { .. } => v >= 0,
        }
    }

    /// The human-readable label of the transform.
    pub open spec fn spec_label(self) -> Seq<char> {
        match self {
            AxisTransform::Linear => seq!['l', 'i', 'n', 'e', 'a', 'r'],
            AxisTransform::Log => seq!['l', 'o', 'g', '1', '0'],
            AxisTransform::PolynomialRoot { degree } => spec_digits(degree as nat) + seq![
                '-',
                't',
                'h',
                ' ',
                'r',
                'o',
                'o',
                't',
            ],
        }
    }

    /// Renders the human-readable label of the transform.
    pub fn label(&self) -> (r: String)
        ensures
            r@ == self.spec_label(),
    {
        match self {
            AxisTransform::Linear => {
                proof {
                    reveal_strlit("linear");
                }
                let s = String::from_str("linear");
                proof {
                    assert(s@ =~= self.spec_label());
                }
                s
            },
            AxisTransform::Log => {
                proof {
                    reveal_strlit("log10");
                }
                let s = String::from_str("log10");
                proof {
                    assert(s@ =~= self.spec_label());
                }
                s
            },
            AxisTransform::PolynomialRoot { degree } => {
                proof {
                    reveal_strlit("-th root");
                }
                let mut s = digits_string(*degree as u128);
                s.append("-th root");
                proof {
                    assert(s@ =~= self.spec_label());
                }
                s
            },
        }
    }
}

} // verus!
