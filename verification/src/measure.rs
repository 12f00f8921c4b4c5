//! Measurement as a reader takes it in: which printer beds a part lies flat
//! on, said in one line, and how many bodies and voids the mesh holds. The
//! comparisons of lengths are made where the lengths are; these are the
//! sentences built from what they found.

use vstd::prelude::*;
use crate::scan::{append, join_rows, joined, rows};
use crate::text::{chars_of, decimal, decimal_string, push_str, str_eq, string_of};

verus! {

/// Whether a part prints on a bed as it lies: turned a quarter turn on the
/// bed if that is what fits, never tipped. A part that is too big says by how
/// much on the axis that fails.
pub struct BedFit {
    pub bed: &'static str,
    pub fits: bool,
    /// How the part lies when it fits: `"as drawn"` or `"turned 90°"`.
    pub lying: Option<&'static str>,
    /// Why not, when it does not: the size against the bed on the axis that fails.
    pub over_by: Option<String>,
}

/// How a bed that takes the part is named: with the turn, when it needs one.
pub open spec fn taking(f: BedFit) -> Seq<char> {
    if f.lying matches Some(l) && l@ == "turned 90\u{b0}"@ {
        f.bed@ + " turned 90\u{b0}"@
    } else {
        f.bed@
    }
}

/// How a bed that does not take the part is named: with the reason.
pub open spec fn refusing(f: BedFit) -> Seq<char> {
    f.bed@ + " ("@ + match f.over_by {
        Some(o) => o@,
        None => Seq::empty(),
    } + ")"@
}

/// The beds that take the part, named, in order.
pub open spec fn takers(fits: Seq<BedFit>) -> Seq<Seq<char>>
    decreases fits.len(),
{
    if fits.len() == 0 {
        Seq::empty()
    } else if fits.last().fits {
        takers(fits.drop_last()).push(taking(fits.last()))
    } else {
        takers(fits.drop_last())
    }
}

/// The beds that do not take the part, named with why, in order.
pub open spec fn refusers(fits: Seq<BedFit>) -> Seq<Seq<char>>
    decreases fits.len(),
{
    if fits.len() == 0 {
        Seq::empty()
    } else if !fits.last().fits {
        refusers(fits.drop_last()).push(refusing(fits.last()))
    } else {
        refusers(fits.drop_last())
    }
}

/// One line for a report: which beds take the part flat, and the nearest miss.
pub open spec fn beds_text_spec(fits: Seq<BedFit>) -> Seq<char> {
    let yes = takers(fits);
    let no = refusers(fits);
    if yes.len() > 0 && no.len() == 0 {
        "flat on every bed: "@ + joined(yes, "; "@)
    } else if yes.len() > 0 {
        "flat on "@ + joined(yes, "; "@) + "; not "@ + joined(no, ", "@)
    } else {
        "flat on no bed here: "@ + joined(no, ", "@) + "; split it"@
    }
}

/// One line for a report, from how the part sits on each bed.
pub fn beds_text(fits: &[BedFit]) -> (s: String)
    ensures
        s@ == beds_text_spec(fits@),
{
    let mut yes: Vec<Vec<char>> = Vec::new();
    let mut no: Vec<Vec<char>> = Vec::new();
    let mut i: usize = 0;
    while i < fits.len()
        invariant
            i <= fits@.len(),
            rows(yes@) == takers(fits@.take(i as int)),
            rows(no@) == refusers(fits@.take(i as int)),
        decreases fits@.len() - i,
    {
        let f = &fits[i];
        proof {
            let t = fits@.take(i + 1);
            assert(t.drop_last() == fits@.take(i as int));
            assert(t.last() == fits@[i as int]);
        }
        if f.fits {
            let mut name = chars_of(f.bed);
            let turned = match f.lying {
                Some(l) => str_eq(l, "turned 90\u{b0}"),
                None => false,
            };
            if turned {
                append(&mut name, chars_of(" turned 90\u{b0}").as_slice());
            }
            let ghost before = rows(yes@);
            yes.push(name);
            assert(rows(yes@) =~= before.push(taking(*f)));
        } else {
            let mut name = chars_of(f.bed);
            append(&mut name, chars_of(" (").as_slice());
            match &f.over_by {
                Some(o) => append(&mut name, chars_of(o.as_str()).as_slice()),
                None => {},
            }
            append(&mut name, chars_of(")").as_slice());
            let ghost before = rows(no@);
            no.push(name);
            assert(rows(no@) =~= before.push(refusing(*f)));
        }
        i = i + 1;
    }
    assert(fits@.take(fits@.len() as int) == fits@);
    let semi = chars_of("; ");
    let comma = chars_of(", ");
    let mut s = String::new();
    if yes.len() > 0 && no.len() == 0 {
        push_str(&mut s, "flat on every bed: ");
        push_str(&mut s, string_of(join_rows(&yes, semi.as_slice()).as_slice()).as_str());
    } else if yes.len() > 0 {
        push_str(&mut s, "flat on ");
        push_str(&mut s, string_of(join_rows(&yes, semi.as_slice()).as_slice()).as_str());
        push_str(&mut s, "; not ");
        push_str(&mut s, string_of(join_rows(&no, comma.as_slice()).as_slice()).as_str());
    } else {
        push_str(&mut s, "flat on no bed here: ");
        push_str(&mut s, string_of(join_rows(&no, comma.as_slice()).as_slice()).as_str());
        push_str(&mut s, "; split it");
    }
    s
}

/// How many bodies a mesh is when nothing says: one.
pub fn one() -> (n: usize)
    ensures
        n == 1,
{
    1
}

/// "1 body", "1 body, 1 void", or the count that says the part is in pieces.
pub open spec fn bodies_text_spec(bodies: usize, voids: usize) -> Seq<char> {
    let head = if bodies == 1 {
        "1 body"@
    } else {
        decimal(bodies as nat) + " SEPARATE BODIES"@
    };
    if voids == 0 {
        head
    } else if voids == 1 {
        head + ", 1 void"@
    } else {
        head + ", "@ + decimal(voids as nat) + " voids"@
    }
}

/// How many bodies and voids a mesh is, as a report line says it.
pub fn bodies_text(bodies: usize, voids: usize) -> (s: String)
    ensures
        s@ == bodies_text_spec(bodies, voids),
{
    let mut s = if bodies == 1 {
        String::from_str("1 body")
    } else {
        let mut t = decimal_string(bodies as u64);
        push_str(&mut t, " SEPARATE BODIES");
        t
    };
    if voids == 1 {
        push_str(&mut s, ", 1 void");
    } else if voids > 1 {
        push_str(&mut s, ", ");
        push_str(&mut s, decimal_string(voids as u64).as_str());
        push_str(&mut s, " voids");
    }
    s
}

} // verus!
