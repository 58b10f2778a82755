//! One segment of a version: a number or a wildcard.
use core::cmp::Ordering;
use vstd::prelude::*;

use crate::text::{decimal, push_decimal};

verus! {

/// A segment of a version as a mathematical value.
pub enum PartView {
    Number(u8),
    Wildcard(Seq<char>),
}

/// A segment of a version: a number from 0 to 255, or a wildcard holding the
/// text it was written with.
#[derive(Debug, Hash)]
pub enum VersionPart {
    Number(u8),
    Wildcard(String),
}

impl View for VersionPart {
    type V = PartView;

    open spec fn view(&self) -> PartView {
        match self {
            VersionPart::Number(n) => PartView::Number(*n),
            VersionPart::Wildcard(t) => PartView::Wildcard(t@),
        }
    }
}

/// Two segments are equal only when both are the same number; a wildcard
/// equals nothing, not even another wildcard.
pub open spec fn parts_equal(p: PartView, q: PartView) -> bool {
    p is Number && p == q
}

/// The sort order of segments: numbers by value, every wildcard above every
/// number, two wildcards level.
pub open spec fn part_order(p: PartView, q: PartView) -> Ordering {
    match (p, q) {
        (PartView::Wildcard(_), PartView::Wildcard(_)) => Ordering::Equal,
        (PartView::Wildcard(_), PartView::Number(_)) => Ordering::Greater,
        (PartView::Number(_), PartView::Wildcard(_)) => Ordering::Less,
        (PartView::Number(a), PartView::Number(b)) => if a < b {
            Ordering::Less
        } else if a == b {
            Ordering::Equal
        } else {
            Ordering::Greater
        },
    }
}

/// The text of a segment: a number's decimal digits, a wildcard's own text.
pub open spec fn part_text(p: PartView) -> Seq<char> {
    match p {
        PartView::Number(n) => decimal(n as nat),
        PartView::Wildcard(t) => t,
    }
}

impl VersionPart {
    pub fn is_number(&self) -> (r: bool)
        ensures
            r == (self@ is Number),
    {
        match self {
            VersionPart::Number(_) => true,
            VersionPart::Wildcard(_) => false,
        }
    }

    pub fn is_wildcard(&self) -> (r: bool)
        ensures
            r == (self@ is Wildcard),
    {
        match self {
            VersionPart::Number(_) => false,
            VersionPart::Wildcard(_) => true,
        }
    }

    /// Orders two segments for sorting; a wildcard sorts above every number.
    pub fn cmp(&self, other: &VersionPart) -> (r: Ordering)
        ensures
            r == part_order(self@, other@),
    {
        match (self, other) {
            (VersionPart::Wildcard(_), VersionPart::Wildcard(_)) => Ordering::Equal,
            (VersionPart::Wildcard(_), VersionPart::Number(_)) => Ordering::Greater,
            (VersionPart::Number(_), VersionPart::Wildcard(_)) => Ordering::Less,
            (VersionPart::Number(a), VersionPart::Number(b)) => {
                if *a < *b {
                    Ordering::Less
                } else if *a == *b {
                    Ordering::Equal
                } else {
                    Ordering::Greater
                }
            },
        }
    }

    /// Appends the text of this segment to `out`.
    pub fn push_text(&self, out: &mut String)
        ensures
            final(out)@ == old(out)@ + part_text(self@),
    {
        match self {
            VersionPart::Number(n) => push_decimal(out, *n),
            VersionPart::Wildcard(t) => out.append(t.as_str()),
        }
    }

    /// The text of this segment: a number's decimal digits, a wildcard's own text.
    pub fn to_string(&self) -> (r: String)
        ensures
            r@ == part_text(self@),
    {
        let mut r = String::new();
        self.push_text(&mut r);
        assert(r@ =~= part_text(self@));
        r
    }

    /// An independent copy of this segment.
    pub fn duplicate(&self) -> (r: VersionPart)
        ensures
            r@ == self@,
    {
        match self {
            VersionPart::Number(n) => VersionPart::Number(*n),
            VersionPart::Wildcard(t) => VersionPart::Wildcard(t.clone()),
        }
    }
}

impl PartialEq for VersionPart {
    fn eq(&self, other: &VersionPart) -> (r: bool) {
        match (self, other) {
            (VersionPart::Number(a), VersionPart::Number(b)) => *a == *b,
            _ => false,
        }
    }
}

impl vstd::std_specs::cmp::PartialEqSpecImpl for VersionPart {
    open spec fn obeys_eq_spec() -> bool {
        true
    }

    open spec fn eq_spec(&self, other: &VersionPart) -> bool {
        parts_equal(self@, other@)
    }
}

impl Eq for VersionPart {

}

impl PartialOrd for VersionPart {
    fn partial_cmp(&self, other: &VersionPart) -> (r: Option<Ordering>) {
        Some(self.cmp(other))
    }
}

impl vstd::std_specs::cmp::PartialOrdSpecImpl for VersionPart {
    open spec fn obeys_partial_cmp_spec() -> bool {
        true
    }

    open spec fn partial_cmp_spec(&self, other: &VersionPart) -> Option<Ordering> {
        Some(part_order(self@, other@))
    }
}

} // verus!
