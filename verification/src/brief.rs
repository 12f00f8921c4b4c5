//! What a part is *for*, declared in its own script and judged on every
//! build: the box it must fit, the plastic it may use, and prose about what
//! it holds and how it is handled. A brief never refuses a save; it only has
//! to promise something.

use vstd::prelude::*;
use crate::checks::{Number, Sign};
use crate::text::{ascii_lower, lemma_key_found, lookup_key, meant_in, normalized, push_str};

verus! {

/// Every key a brief may carry: what the envelope names when one is unknown.
pub const KEYS: [&'static str; 6] = ["envelope", "budgetCm3", "holds", "gesture", "printer", "material"];

/// A key an author might write for one of [`KEYS`], and the key they meant.
pub const SYNONYMS: [(&'static str, &'static str); 14] = [
    ("budget", "budgetCm3"),
    ("budgetcm", "budgetCm3"),
    ("budgetmm3", "budgetCm3"),
    ("volume", "budgetCm3"),
    ("maxvolume", "budgetCm3"),
    ("plastic", "budgetCm3"),
    ("size", "envelope"),
    ("maxsize", "envelope"),
    ("fitsin", "envelope"),
    ("bounds", "envelope"),
    ("pocket", "envelope"),
    ("holding", "holds"),
    ("for", "holds"),
    ("filament", "material"),
];

/// The key a written one means, if any: a key spelled with other case or
/// separators is its own, and a known synonym is the key it stands for.
pub fn meant(key: &str) -> (r: Option<&'static str>)
    ensures
        r matches Some(s) ==> meant_in(key@, KEYS@, SYNONYMS@) == Some(s@),
        r is None ==> meant_in(key@, KEYS@, SYNONYMS@) is None,
{
    lookup_key(key, KEYS.as_slice(), SYNONYMS.as_slice())
}

/// A key spelt with other case or with separators is its own: whatever an
/// author writes that normalises to a key's lowercase spelling means that key.
pub proof fn lemma_a_key_means_itself(written: Seq<char>, i: int)
    requires
        0 <= i < 6,
        normalized(written) == ascii_lower(KEYS@[i]@),
    ensures
        meant_in(written, KEYS@, SYNONYMS@) == Some(KEYS@[i]@),
{
    reveal_strlit("envelope");
    reveal_strlit("budgetCm3");
    reveal_strlit("holds");
    reveal_strlit("gesture");
    reveal_strlit("printer");
    reveal_strlit("material");
    assert forall|j: int| 0 <= j < i implies ascii_lower(KEYS@[j]@) != ascii_lower(KEYS@[i]@) by {
        if ascii_lower(KEYS@[j]@) == ascii_lower(KEYS@[i]@) {
            assert(ascii_lower(KEYS@[j]@).len() == KEYS@[j]@.len());
            assert(ascii_lower(KEYS@[j]@)[0] == ascii_lower(KEYS@[i]@)[0]);
        }
    }
    lemma_key_found(normalized(written), KEYS@, i);
}

/// The axis names, by index.
pub open spec fn axis_name_spec(axis: usize) -> Seq<char> {
    if axis == 0 {
        "x"@
    } else if axis == 1 {
        "y"@
    } else {
        "z"@
    }
}

/// The axis name an envelope fit reports by index; any index past the third
/// is the third.
pub fn axis_name(axis: usize) -> (s: &'static str)
    ensures
        s@ == axis_name_spec(axis),
{
    if axis == 0 {
        "x"
    } else if axis == 1 {
        "y"
    } else {
        "z"
    }
}

/// The brief a part carries. Every field is optional; a brief with nothing
/// in it is refused rather than recorded as an empty promise.
pub struct Brief {
    /// The box the part must fit inside, mm, in any of the six orientations.
    pub envelope: Option<[Number; 3]>,
    /// The plastic it may use, cm³.
    pub budget_cm3: Option<Number>,
    /// What it holds, in the author's words.
    pub holds: Vec<String>,
    /// How it is handled: prose.
    pub gesture: Option<String>,
    /// The machine it is for, which narrows the beds it is judged on to one.
    pub printer: Option<String>,
    /// The filament it is for.
    pub material: Option<String>,
}

/// What an empty brief is told.
pub const NOTHING_TO_JUDGE: &'static str = "brief() was given nothing to judge the part against; its keys are \
    envelope, budgetCm3, holds, gesture, printer, material, and envelope is the one that catches \"it's too big\"";

impl Brief {
    /// A brief that promises nothing.
    pub open spec fn is_empty_spec(&self) -> bool {
        self.envelope is None && self.budget_cm3 is None && self.holds@.len() == 0 && self.gesture is None
            && self.printer is None && self.material is None
    }

    /// Whether the brief reads as written, or what is wrong with it.
    pub open spec fn validation(&self) -> Result<(), Seq<char>> {
        if self.envelope is Some && !(self.envelope->0@[0].is_positive() && self.envelope->0@[1].is_positive()
            && self.envelope->0@[2].is_positive()) {
            Err("brief envelope is [x, y, z] in mm, each positive, not ["@ + self.envelope->0@[0].shown@ + ", "@
                + self.envelope->0@[1].shown@ + ", "@ + self.envelope->0@[2].shown@ + "]"@)
        } else if self.budget_cm3 is Some && !self.budget_cm3->0.is_positive() {
            Err("brief budgetCm3 is a volume in cm\u{b3}, above zero, not "@ + self.budget_cm3->0.shown@)
        } else if self.is_empty_spec() {
            Err(NOTHING_TO_JUDGE@)
        } else {
            Ok(())
        }
    }

    fn is_empty(&self) -> (b: bool)
        ensures
            b == self.is_empty_spec(),
    {
        self.envelope.is_none() && self.budget_cm3.is_none() && self.holds.len() == 0 && self.gesture.is_none()
            && self.printer.is_none() && self.material.is_none()
    }

    /// Whether the brief reads as written: its numbers are positive and it
    /// promises something. Prose is the author's and is not judged.
    pub fn validate(&self) -> (r: Result<(), String>)
        ensures
            r matches Ok(_) ==> self.validation() is Ok,
            r matches Err(e) ==> self.validation() == Err::<(), Seq<char>>(e@),
    {
        match &self.envelope {
            Some(envelope) => {
                if !(envelope[0].sign == Sign::Positive && envelope[1].sign == Sign::Positive && envelope[2].sign
                    == Sign::Positive) {
                    let mut e = String::from_str("brief envelope is [x, y, z] in mm, each positive, not [");
                    push_str(&mut e, envelope[0].shown.as_str());
                    push_str(&mut e, ", ");
                    push_str(&mut e, envelope[1].shown.as_str());
                    push_str(&mut e, ", ");
                    push_str(&mut e, envelope[2].shown.as_str());
                    push_str(&mut e, "]");
                    return Err(e);
                }
            },
            None => {},
        }
        match &self.budget_cm3 {
            Some(budget) => {
                if budget.sign != Sign::Positive {
                    let mut e = String::from_str("brief budgetCm3 is a volume in cm\u{b3}, above zero, not ");
                    push_str(&mut e, budget.shown.as_str());
                    return Err(e);
                }
            },
            None => {},
        }
        if self.is_empty() {
            return Err(String::from_str(NOTHING_TO_JUDGE));
        }
        Ok(())
    }
}

} // verus!
