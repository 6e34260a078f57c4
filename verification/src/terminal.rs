//! The terminal colors in which dependencies are shown, through the `colored` crate.
use vstd::prelude::*;

verus! {

/// The colors in which the kinds of workspace dependencies are shown.
#[derive(Debug, Clone, Copy, PartialEq, Eq, Structural)]
pub enum ShownColor {
    Green,
    Yellow,
    Red,
}

impl ShownColor {
    /// The position of this color among the shown colors.
    pub open spec fn index(self) -> int {
        match self {
            ShownColor::Green => 0,
            ShownColor::Yellow => 1,
            ShownColor::Red => 2,
        }
    }
}

/// The terminal color type of the `colored` crate, carried as an opaque value.
#[verifier::external_type_specification]
#[verifier::external_body]
pub struct ExColor(colored::Color);

/// The `colored::Color` that stands for the shown color at `index`.
pub uninterp spec fn terminal_color(index: int) -> colored::Color;

/// The `colored::Color` variant of the same name as `c`: `Green`, `Yellow` or
/// `Red`. The contract names the value; it claims nothing of what the crate
/// prints for it.
#[verifier::external_body]
pub(crate) fn to_terminal_color(c: ShownColor) -> (r: colored::Color)
    ensures
        r == terminal_color(c.index()),
{
    match c {
        ShownColor::Green => colored::Color::Green,
        ShownColor::Yellow => colored::Color::Yellow,
        ShownColor::Red => colored::Color::Red,
    }
}

} // verus!
