use vstd::prelude::*;
use vstd::string::StrSliceExecFns;

use crate::types::ConfidenceLevel;

verus! {

impl ConfidenceLevel {
    /// The accepted error of an estimated probability, in thousandths.
    pub open spec fn margin(self) -> int {
        match self {
            ConfidenceLevel::Low => 100,
            ConfidenceLevel::Medium => 50,
            ConfidenceLevel::High => 10,
            ConfidenceLevel::VeryHigh => 1,
        }
    }

    /// The accepted error of an estimated probability, in thousandths:
    /// 100 at 90%, 50 at 95%, 10 at 99% and 1 at 99.9% confidence.
    pub fn margin_per_mille(&self) -> (d: i32)
        ensures
            d == self.margin(),
    {
        match self {
            ConfidenceLevel::Low => 100,
            ConfidenceLevel::Medium => 50,
            ConfidenceLevel::High => 10,
            ConfidenceLevel::VeryHigh => 1,
        }
    }
}

/// Whether two strings hold the same characters.
fn same_text(a: &str, b: &str) -> (r: bool)
    ensures
        r == (a@ == b@),
{
    let n = a.unicode_len();
    if n != b.unicode_len() {
        return false;
    }
    let mut i: usize = 0;
    while i < n
        invariant
            i <= n,
            n == a@.len(),
            n == b@.len(),
            forall|j: int| 0 <= j < i ==> a@[j] == b@[j],
        decreases n - i,
    {
        if a.get_char(i) != b.get_char(i) {
            assert(a@[i as int] != b@[i as int]);
            return false;
        }
        i += 1;
    }
    assert(a@ =~= b@);
    true
}

/// The confidence level a user picks by name: "Standard" (95%), "High"
/// (99%) or "Very High" (99.9%); any other name is refused.
pub fn get_confidence(level: &str) -> (r: Result<ConfidenceLevel, &str>)
    ensures
        match r {
            Ok(c) => (c == ConfidenceLevel::Medium && level@ == "Standard"@) || (c
                == ConfidenceLevel::High && level@ == "High"@) || (c == ConfidenceLevel::VeryHigh
                && level@ == "Very High"@),
            Err(e) => e@ == "Invalid confidence level"@ && level@ != "Standard"@ && level@
                != "High"@ && level@ != "Very High"@,
        },
{
    if same_text(level, "Standard") {
        Ok(ConfidenceLevel::Medium)
    } else if same_text(level, "High") {
        Ok(ConfidenceLevel::High)
    } else if same_text(level, "Very High") {
        Ok(ConfidenceLevel::VeryHigh)
    } else {
        Err("Invalid confidence level")
    }
}

} // verus!
