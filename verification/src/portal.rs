//! Values that sub-circuits hand to each other through named portals, and
//! the decimal text the portal names are made of.

use vstd::prelude::*;
use crate::field::FieldElement;

verus! {

/// The decimal digit `d` (`0 <= d < 10`) as a character.
pub open spec fn digit_char(d: nat) -> char {
    (48 + d) as char
}

/// The decimal text of `n`, as `{}` formats an unsigned integer.
pub open spec fn decimal(n: nat) -> Seq<char>
    decreases n,
{
    if n < 10 {
        seq![digit_char(n)]
    } else {
        decimal(n / 10).push(digit_char(n % 10))
    }
}

/// The portal that a value is written to.
#[derive(Clone, Copy, Debug, PartialEq, Eq, Structural)]
pub enum PortalKey {
    /// Position `position` of the merged output of pair `pair` of a sort layer.
    MergedIndex { pair: usize, position: usize },
    /// The comparison mask of batch `batch` of the filter.
    BatchMask { batch: usize },
}

/// The text of a portal's name.
pub open spec fn portal_name(key: PortalKey) -> Seq<char> {
    match key {
        PortalKey::MergedIndex { pair, position } =>
            "merged_indices_"@ + decimal(pair as nat) + "_"@ + decimal(position as nat),
        PortalKey::BatchMask { batch } =>
            "batch_"@ + decimal(batch as nat) + "_cmp_results"@,
    }
}

impl PortalKey {
    /// The portal's name, as the circuits format it.
    pub fn name(&self) -> (r: String)
        ensures
            r@ == portal_name(*self),
    {
        match self {
            PortalKey::MergedIndex { pair, position } => {
                let mut name = String::from_str("merged_indices_");
                name.append(decimal_string(*pair).as_str());
                name.append("_");
                name.append(decimal_string(*position).as_str());
                name
            },
            PortalKey::BatchMask { batch } => {
                let mut name = String::from_str("batch_");
                name.append(decimal_string(*batch).as_str());
                name.append("_cmp_results");
                name
            },
        }
    }
}

/// A value written to a portal.
#[derive(Clone, Copy)]
pub struct PortalEntry {
    pub key: PortalKey,
    pub value: FieldElement,
}

/// The mathematical view of a portal entry.
pub open spec fn portal_entry_view(e: PortalEntry) -> (PortalKey, nat) {
    (e.key, e.value@)
}

/// The mathematical view of a sequence of portal writes.
pub open spec fn portal_view(s: Seq<PortalEntry>) -> Seq<(PortalKey, nat)> {
    s.map_values(|e: PortalEntry| portal_entry_view(e))
}

/// The decimal digit `d` as a one-character string.
fn digit_str(d: usize) -> (r: &'static str)
    requires
        d < 10,
    ensures
        r@ == seq![digit_char(d as nat)],
{
    if d == 0 {
        proof { reveal_strlit("0"); }
        "0"
    } else if d == 1 {
        proof { reveal_strlit("1"); }
        "1"
    } else if d == 2 {
        proof { reveal_strlit("2"); }
        "2"
    } else if d == 3 {
        proof { reveal_strlit("3"); }
        "3"
    } else if d == 4 {
        proof { reveal_strlit("4"); }
        "4"
    } else if d == 5 {
        proof { reveal_strlit("5"); }
        "5"
    } else if d == 6 {
        proof { reveal_strlit("6"); }
        "6"
    } else if d == 7 {
        proof { reveal_strlit("7"); }
        "7"
    } else if d == 8 {
        proof { reveal_strlit("8"); }
        "8"
    } else {
        proof { reveal_strlit("9"); }
        "9"
    }
}

/// The decimal text of `n`, most significant digit first, without sign or
/// leading zeros.
pub fn decimal_string(n: usize) -> (r: String)
    ensures
        r@ == decimal(n as nat),
    decreases n,
{
    if n < 10 {
        String::from_str(digit_str(n))
    } else {
        let mut s = decimal_string(n / 10);
        s.append(digit_str(n % 10));
        s
    }
}

} // verus!
