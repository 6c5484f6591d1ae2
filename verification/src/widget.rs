use vstd::prelude::*;
use crate::utils::reads_as_lower;
use crate::utils::eq_ignore_case;

verus! {

/// Where a widget sits on the screen.
#[derive(Clone, Copy, Debug, PartialEq, Eq, Structural)]
pub enum Alignment {
    LEFT,
    RIGHT,
    TOP,
    BOTTOM,
    CENTRE,
    NONE,
}

/// The alignment a string names, ignoring ASCII case; unknown names fall back
/// to `NONE`.
pub open spec fn spec_parse_alignment(s: Seq<char>) -> Alignment {
    if reads_as_lower(s, "left"@) {
        Alignment::LEFT
    } else if reads_as_lower(s, "right"@) {
        Alignment::RIGHT
    } else if reads_as_lower(s, "top"@) {
        Alignment::TOP
    } else if reads_as_lower(s, "bottom"@) {
        Alignment::BOTTOM
    } else if reads_as_lower(s, "centre"@) {
        Alignment::CENTRE
    } else {
        Alignment::NONE
    }
}

impl Alignment {
    /// Get an alignment from its name.
    pub fn parse(val: String) -> (r: Self)
        ensures
            r == spec_parse_alignment(val@),
    {
        if eq_ignore_case(val.as_str(), "left") {
            Self::LEFT
        } else if eq_ignore_case(val.as_str(), "right") {
            Self::RIGHT
        } else if eq_ignore_case(val.as_str(), "top") {
            Self::TOP
        } else if eq_ignore_case(val.as_str(), "bottom") {
            Self::BOTTOM
        } else if eq_ignore_case(val.as_str(), "centre") {
            Self::CENTRE
        } else {
            Self::NONE
        }
    }
}

/// An enum whose values a widget can cycle through and show by name.
pub trait WidgetEnum {
    /// The name of the current value, matching what `parse` accepts.
    fn get_as_string(&mut self) -> String;

    /// The value at a given position in the cycle.
    fn get_from_index(index: usize) -> Self where Self: Sized;

    /// How many values there are to cycle through.
    fn count(&mut self) -> usize;

    /// The name of the enum itself, under which its textures are filed.
    fn name(&mut self) -> String;
}

} // verus!
