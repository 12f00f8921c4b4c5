//! Checks a part carries in its own graph: rules the build must hold. A
//! check names what it reads with exactly one head key; this module holds
//! the key tables, the reading of an author's spelling, and the rule that a
//! check reads one thing.

use vstd::prelude::*;
use crate::text::{ascii_lower, decimal, decimal_string, lemma_key_found, lookup_key, meant_in, normalized, push_str, str_eq};

verus! {

/// What a check reads, once its head key is known.
#[derive(Debug, Clone, Copy, PartialEq, Eq, Structural)]
pub enum CheckKind {
    Clear,
    Interferes,
    Touching,
    Wall,
    Size,
    StandsOn,
    Bodies,
    Watertight,
}

impl CheckKind {
    /// The head key, as JSON spells it.
    pub open spec fn key_spec(self) -> Seq<char> {
        match self {
            CheckKind::Clear => "clear"@,
            CheckKind::Interferes => "interferes"@,
            CheckKind::Touching => "touching"@,
            CheckKind::Wall => "wall"@,
            CheckKind::Size => "size"@,
            CheckKind::StandsOn => "standsOn"@,
            CheckKind::Bodies => "bodies"@,
            CheckKind::Watertight => "watertight"@,
        }
    }

    /// The head key.
    pub fn key(self) -> (s: &'static str)
        ensures
            s@ == self.key_spec(),
    {
        match self {
            CheckKind::Clear => "clear",
            CheckKind::Interferes => "interferes",
            CheckKind::Touching => "touching",
            CheckKind::Wall => "wall",
            CheckKind::Size => "size",
            CheckKind::StandsOn => "standsOn",
            CheckKind::Bodies => "bodies",
            CheckKind::Watertight => "watertight",
        }
    }
}

/// The head kinds in the order a reply names them.
pub open spec fn head_kinds() -> Seq<CheckKind> {
    seq![
        CheckKind::Clear,
        CheckKind::Interferes,
        CheckKind::Touching,
        CheckKind::Wall,
        CheckKind::Size,
        CheckKind::StandsOn,
        CheckKind::Bodies,
        CheckKind::Watertight,
    ]
}

fn head_kind(i: usize) -> (k: CheckKind)
    requires
        i < 8,
    ensures
        k == head_kinds()[i as int],
{
    if i == 0 {
        CheckKind::Clear
    } else if i == 1 {
        CheckKind::Interferes
    } else if i == 2 {
        CheckKind::Touching
    } else if i == 3 {
        CheckKind::Wall
    } else if i == 4 {
        CheckKind::Size
    } else if i == 5 {
        CheckKind::StandsOn
    } else if i == 6 {
        CheckKind::Bodies
    } else {
        CheckKind::Watertight
    }
}

/// The head keys, in the order a reply names them.
pub const HEAD_KEYS: [&'static str; 8] = ["clear", "interferes", "touching", "wall", "size", "standsOn", "bodies", "watertight"];

/// Every key a check may carry.
pub const KEYS: [&'static str; 12] = [
    "clear",
    "interferes",
    "touching",
    "wall",
    "size",
    "standsOn",
    "bodies",
    "watertight",
    "atLeast",
    "ignore",
    "on",
    "why",
];

/// A key an author might write for one of [`KEYS`], and the key they meant.
pub const SYNONYMS: [(&'static str, &'static str); 24] = [
    ("clearance", "atLeast"),
    ("clearancemm", "atLeast"),
    ("gap", "atLeast"),
    ("min", "atLeast"),
    ("minimum", "atLeast"),
    ("atmost", "atLeast"),
    ("thickness", "wall"),
    ("thin", "wall"),
    ("wallthickness", "wall"),
    ("interfere", "interferes"),
    ("interference", "interferes"),
    ("overlap", "interferes"),
    ("overlaps", "interferes"),
    ("touch", "touching"),
    ("touches", "touching"),
    ("envelope", "size"),
    ("fits", "size"),
    ("stands", "standsOn"),
    ("footprint", "standsOn"),
    ("bed", "standsOn"),
    ("reason", "why"),
    ("because", "why"),
    ("except", "ignore"),
    ("only", "on"),
];

/// The key a written one means, if any: `clearance` is `atLeast`, and a key
/// spelled with other case or underscores is its own.
pub fn meant(key: &str) -> (r: Option<&'static str>)
    ensures
        r matches Some(s) ==> meant_in(key@, KEYS@, SYNONYMS@) == Some(s@),
        r is None ==> meant_in(key@, KEYS@, SYNONYMS@) is None,
{
    lookup_key(key, KEYS.as_slice(), SYNONYMS.as_slice())
}

/// The heads among the first `n` in reply order that a check carries.
pub open spec fn carried_upto(present: Seq<bool>, n: int) -> Seq<CheckKind>
    decreases n,
{
    if n <= 0 {
        Seq::empty()
    } else if present[n - 1] {
        carried_upto(present, n - 1).push(head_kinds()[n - 1])
    } else {
        carried_upto(present, n - 1)
    }
}

/// Where a head sits in reply order.
pub open spec fn head_index(k: CheckKind) -> int {
    match k {
        CheckKind::Clear => 0,
        CheckKind::Interferes => 1,
        CheckKind::Touching => 2,
        CheckKind::Wall => 3,
        CheckKind::Size => 4,
        CheckKind::StandsOn => 5,
        CheckKind::Bodies => 6,
        CheckKind::Watertight => 7,
    }
}

/// A head a check carries is one it has.
pub proof fn lemma_carried_present(present: Seq<bool>, n: int)
    requires
        0 <= n <= 8,
        present.len() == 8,
    ensures
        forall|k: int|
            0 <= k < carried_upto(present, n).len() ==> present[head_index(#[trigger] carried_upto(present, n)[k])],
    decreases n,
{
    if n > 0 {
        lemma_carried_present(present, n - 1);
        let j = n - 1;
        let prev = carried_upto(present, j);
        assert(head_index(head_kinds()[j]) == j);
        assert forall|k: int| 0 <= k < carried_upto(present, n).len() implies present[head_index(
            #[trigger] carried_upto(present, n)[k],
        )] by {
            if k < prev.len() {
                assert(carried_upto(present, n)[k] == prev[k]);
            } else {
                assert(present[j]);
                assert(carried_upto(present, n)[k] == head_kinds()[j]);
            }
        }
    }
}

/// The heads a check carries, in reply order.
pub open spec fn carried(present: Seq<bool>) -> Seq<CheckKind> {
    carried_upto(present, 8)
}

/// The keys of these heads joined by " and ".
pub open spec fn joined_keys(ks: Seq<CheckKind>) -> Seq<char>
    decreases ks.len(),
{
    if ks.len() == 0 {
        Seq::empty()
    } else if ks.len() == 1 {
        ks[0].key_spec()
    } else {
        joined_keys(ks.drop_last()) + " and "@ + ks.last().key_spec()
    }
}

/// What a check with no head is told.
pub const NOTHING_TO_CHECK: &'static str = "names nothing to check; one of clear, interferes, touching, wall, size, \
    standsOn, bodies, watertight says what it reads";

/// Which head key a check carries, given which of the eight it has in reply
/// order, or why it carries none or several.
pub fn kind_of_heads(present: &[bool; 8]) -> (r: Result<CheckKind, String>)
    ensures
        carried(present@).len() == 1 ==> r == Ok::<CheckKind, String>(carried(present@)[0]),
        carried(present@).len() == 0 ==> (r matches Err(e) && e@ == NOTHING_TO_CHECK@),
        carried(present@).len() > 1 ==> (r matches Err(e) && e@ == "carries "@ + joined_keys(carried(present@))
            + " at once; a check reads one thing, so write one check per key"@),
{
    let mut heads: Vec<CheckKind> = Vec::new();
    let mut i: usize = 0;
    while i < 8
        invariant
            i <= 8,
            heads@ == carried_upto(present@, i as int),
        decreases 8 - i,
    {
        let k = head_kind(i);
        if present[i] {
            heads.push(k);
        }
        i = i + 1;
    }
    if heads.len() == 1 {
        return Ok(heads[0]);
    }
    if heads.len() == 0 {
        return Err(String::from_str(NOTHING_TO_CHECK));
    }
    let mut e = String::new();
    push_str(&mut e, "carries ");
    let mut j: usize = 0;
    while j < heads.len()
        invariant
            j <= heads@.len(),
            e@ == "carries "@ + joined_keys(heads@.take(j as int)),
        decreases heads@.len() - j,
    {
        proof {
            assert(heads@.take(j + 1).drop_last() == heads@.take(j as int));
        }
        if j > 0 {
            push_str(&mut e, " and ");
        }
        push_str(&mut e, heads[j].key());
        proof {
            if j == 0 {
                assert(joined_keys(heads@.take(1)) == heads@[0].key_spec());
            }
        }
        j = j + 1;
    }
    assert(heads@.take(heads@.len() as int) == heads@);
    push_str(&mut e, " at once; a check reads one thing, so write one check per key");
    Err(e)
}

/// The tags a refusal can suggest instead.
pub open spec fn quoted_list(tags: Seq<&str>) -> Seq<char>
    decreases tags.len(),
{
    if tags.len() == 0 {
        Seq::empty()
    } else if tags.len() == 1 {
        "\""@ + tags[0]@ + "\""@
    } else {
        quoted_list(tags.drop_last()) + ", \""@ + tags.last()@ + "\""@
    }
}

/// The end of a refusal that names a tag nothing writes: which tags there are.
pub open spec fn known_tags_spec(tags: Seq<&str>) -> Seq<char> {
    if tags.len() == 0 {
        "; the part writes no tags"@
    } else {
        "; its tags are "@ + quoted_list(tags)
    }
}

/// Which tags the part writes, for a refusal naming one it does not.
pub fn known_tags(tags: &[&str]) -> (s: String)
    ensures
        s@ == known_tags_spec(tags@),
{
    if tags.len() == 0 {
        return String::from_str("; the part writes no tags");
    }
    let mut s = String::new();
    push_str(&mut s, "; its tags are ");
    let ghost head = s@;
    let mut i: usize = 0;
    while i < tags.len()
        invariant
            i <= tags@.len(),
            head == "; its tags are "@,
            s@ == head + quoted_list(tags@.take(i as int)),
        decreases tags@.len() - i,
    {
        proof {
            assert(tags@.take(i + 1).drop_last() == tags@.take(i as int));
        }
        let ghost before = s@;
        if i > 0 {
            push_str(&mut s, ", \"");
        } else {
            push_str(&mut s, "\"");
        }
        push_str(&mut s, tags[i]);
        push_str(&mut s, "\"");
        proof {
            let t = tags@.take(i + 1);
            if i == 0 {
                assert(quoted_list(t) == "\""@ + tags@[0]@ + "\""@);
                assert(s@ =~= head + quoted_list(t));
            } else {
                assert(quoted_list(t) == quoted_list(tags@.take(i as int)) + ", \""@ + tags@[i as int]@ + "\""@);
                assert(s@ =~= head + quoted_list(t));
            }
        }
        i = i + 1;
    }
    assert(tags@.take(tags@.len() as int) == tags@);
    s
}

/// Where a number a check carries stands: below zero, zero, above zero, or
/// not a finite number at all (infinite or not a number).
#[derive(Debug, Clone, Copy, PartialEq, Eq, Structural)]
pub enum Sign {
    Negative,
    Zero,
    Positive,
    NotFinite,
}

/// A number as a check carries it: the way a reply writes it, where it
/// stands, and whether it is at most one.
pub struct Number {
    pub shown: String,
    pub sign: Sign,
    pub at_most_one: bool,
}

impl Number {
    /// A finite length of zero or more.
    pub open spec fn is_length(&self) -> bool {
        self.sign == Sign::Zero || self.sign == Sign::Positive
    }

    /// A finite length above zero.
    pub open spec fn is_positive(&self) -> bool {
        self.sign == Sign::Positive
    }
}

/// Nothing in the part is thinner than `min` mm.
pub struct WallCheck {
    pub min: Number,
}

/// The part fits inside this box as drawn.
pub struct SizeCheck {
    pub max: [Number; 3],
}

/// This fraction of the footprint reaches the bed.
pub struct StandsOnCheck {
    pub at_least: Number,
}

/// One check. Exactly one of the head keys names what it reads; the rest
/// qualify it.
pub struct Check {
    /// The two bodies never touch, by at least `at_least` mm.
    pub clear: Option<[String; 2]>,
    /// The two bodies must overlap, by at least `at_least` mm³.
    pub interferes: Option<[String; 2]>,
    /// The two bodies are flush: neither gap nor overlap.
    pub touching: Option<[String; 2]>,
    pub wall: Option<WallCheck>,
    pub size: Option<SizeCheck>,
    pub stands_on: Option<StandsOnCheck>,
    /// The part is this many free-standing pieces.
    pub bodies: Option<usize>,
    /// The part's mesh closes.
    pub watertight: Option<bool>,
    /// For `clear`: the least clearance, mm. For `interferes`: the least
    /// shared volume, mm³.
    pub at_least: Option<Number>,
    /// For `wall`: tags whose surfaces are left out, and `feather` or `edge`.
    pub ignore: Vec<String>,
    /// For `wall`: only material on these tags' surfaces is measured.
    pub on: Vec<String>,
    /// Free text, echoed back when the check fails.
    pub why: Option<String>,
}

impl Check {
    /// Which of the head keys this check carries, in reply order.
    pub open spec fn heads(&self) -> Seq<bool> {
        seq![
            self.clear is Some,
            self.interferes is Some,
            self.touching is Some,
            self.wall is Some,
            self.size is Some,
            self.stands_on is Some,
            self.bodies is Some,
            self.watertight is Some,
        ]
    }

    /// The head key this check carries, when it carries exactly one.
    pub open spec fn kind_spec(&self) -> Option<CheckKind> {
        if carried(self.heads()).len() == 1 {
            Some(carried(self.heads())[0])
        } else {
            None
        }
    }

    /// Which head key this check carries, or why it carries none or several.
    pub fn kind(&self) -> (r: Result<CheckKind, String>)
        ensures
            carried(self.heads()).len() == 1 ==> r == Ok::<CheckKind, String>(carried(self.heads())[0]),
            carried(self.heads()).len() == 0 ==> (r matches Err(e) && e@ == NOTHING_TO_CHECK@),
            carried(self.heads()).len() > 1 ==> (r matches Err(e) && e@ == "carries "@ + joined_keys(
                carried(self.heads()),
            ) + " at once; a check reads one thing, so write one check per key"@),
    {
        let present = [
            self.clear.is_some(),
            self.interferes.is_some(),
            self.touching.is_some(),
            self.wall.is_some(),
            self.size.is_some(),
            self.stands_on.is_some(),
            self.bodies.is_some(),
            self.watertight.is_some(),
        ];
        assert(present@ =~= self.heads());
        kind_of_heads(&present)
    }

    /// The pair a `clear`, `interferes` or `touching` check names.
    pub open spec fn pair_spec(&self) -> Option<[String; 2]> {
        if self.clear is Some {
            self.clear
        } else if self.interferes is Some {
            self.interferes
        } else {
            self.touching
        }
    }

    /// The pair a `clear`, `interferes` or `touching` check names.
    pub fn pair(&self) -> (r: Option<&[String; 2]>)
        ensures
            r matches Some(p) ==> self.pair_spec() == Some(*p),
            r is None ==> self.pair_spec() is None,
    {
        match &self.clear {
            Some(p) => Some(p),
            None => match &self.interferes {
                Some(p) => Some(p),
                None => match &self.touching {
                    Some(p) => Some(p),
                    None => None,
                },
            },
        }
    }

    /// What a check reads, as the head of its phrase.
    pub open spec fn head_phrase(&self, kind: CheckKind) -> Seq<char> {
        match kind {
            CheckKind::Wall => "wall min "@ + self.wall->0.min.shown@,
            CheckKind::Size => "size max "@ + self.size->0.max@[0].shown@ + "\u{d7}"@ + self.size->0.max@[1].shown@
                + "\u{d7}"@ + self.size->0.max@[2].shown@,
            CheckKind::StandsOn => "standsOn atLeast "@ + self.stands_on->0.at_least.shown@,
            CheckKind::Bodies => "bodies "@ + decimal(self.bodies->0 as nat),
            CheckKind::Watertight => "watertight"@,
            _ => kind.key_spec() + " "@ + self.pair_spec()->0@[0]@ + "\u{2194}"@ + self.pair_spec()->0@[1]@
                + match self.at_least {
                Some(least) => " atLeast "@ + least.shown@,
                None => Seq::empty(),
            },
        }
    }

    /// The check as one phrase, the way a reply names it: `clear top↔stacks
    /// atLeast 0.2`, `wall min 1 on cups`, `size max 115×65×15`.
    pub open spec fn sentence_spec(&self) -> Seq<char> {
        match self.kind_spec() {
            None => "an unreadable check"@,
            Some(kind) => self.head_phrase(kind) + (if self.on@.len() == 0 {
                Seq::empty()
            } else {
                " on "@ + comma_joined(self.on@)
            }) + (if self.ignore@.len() == 0 {
                Seq::empty()
            } else {
                " ignore "@ + comma_joined(self.ignore@)
            }),
        }
    }

    /// The check as one phrase, the way a reply names it.
    pub fn sentence(&self) -> (s: String)
        ensures
            s@ == self.sentence_spec(),
    {
        let kind = match self.kind() {
            Ok(k) => k,
            Err(_) => {
                return String::from_str("an unreadable check");
            },
        };
        proof {
            lemma_carried_present(self.heads(), 8);
            assert(self.heads()[head_index(kind)]);
        }
        let mut out = String::new();
        match kind {
            CheckKind::Wall => {
                let wall = self.wall.as_ref().unwrap();
                push_str(&mut out, "wall min ");
                push_str(&mut out, wall.min.shown.as_str());
            },
            CheckKind::Size => {
                let size = self.size.as_ref().unwrap();
                push_str(&mut out, "size max ");
                push_str(&mut out, size.max[0].shown.as_str());
                push_str(&mut out, "\u{d7}");
                push_str(&mut out, size.max[1].shown.as_str());
                push_str(&mut out, "\u{d7}");
                push_str(&mut out, size.max[2].shown.as_str());
            },
            CheckKind::StandsOn => {
                let stands = self.stands_on.as_ref().unwrap();
                push_str(&mut out, "standsOn atLeast ");
                push_str(&mut out, stands.at_least.shown.as_str());
            },
            CheckKind::Bodies => {
                push_str(&mut out, "bodies ");
                let n = self.bodies.unwrap();
                push_str(&mut out, decimal_string(n as u64).as_str());
            },
            CheckKind::Watertight => {
                push_str(&mut out, "watertight");
            },
            _ => {
                let pair = self.pair().unwrap();
                push_str(&mut out, kind.key());
                push_str(&mut out, " ");
                push_str(&mut out, pair[0].as_str());
                push_str(&mut out, "\u{2194}");
                push_str(&mut out, pair[1].as_str());
                match &self.at_least {
                    Some(least) => {
                        push_str(&mut out, " atLeast ");
                        push_str(&mut out, least.shown.as_str());
                    },
                    None => {},
                }
            },
        }
        let ghost head = out@;
        assert(head == self.head_phrase(kind));
        if self.on.len() > 0 {
            push_str(&mut out, " on ");
            push_str(&mut out, join_commas(&self.on).as_str());
        }
        if self.ignore.len() > 0 {
            push_str(&mut out, " ignore ");
            push_str(&mut out, join_commas(&self.ignore).as_str());
        }
        out
    }
}

/// The names joined by commas, as `join(",")` writes them.
pub open spec fn comma_joined(names: Seq<String>) -> Seq<char>
    decreases names.len(),
{
    if names.len() == 0 {
        Seq::empty()
    } else if names.len() == 1 {
        names[0]@
    } else {
        comma_joined(names.drop_last()) + ","@ + names.last()@
    }
}

fn join_commas(names: &Vec<String>) -> (s: String)
    ensures
        s@ == comma_joined(names@),
{
    let mut s = String::new();
    let mut k: usize = 0;
    while k < names.len()
        invariant
            k <= names@.len(),
            s@ == comma_joined(names@.take(k as int)),
        decreases names@.len() - k,
    {
        let ghost before = s@;
        if k > 0 {
            push_str(&mut s, ",");
        }
        push_str(&mut s, names[k].as_str());
        proof {
            let t = names@.take(k + 1);
            assert(t.drop_last() == names@.take(k as int));
            if k == 0 {
                assert(comma_joined(t) == t[0]@);
            }
            assert(s@ =~= comma_joined(t));
        }
        k = k + 1;
    }
    assert(names@.take(names@.len() as int) == names@);
    s
}

/// A check between two bodies passes validation only when the part returns
/// bodies, both names are among them, and they are two different bodies.
pub proof fn lemma_a_valid_pair_check_names_two_of_the_bodies(
    check: Check,
    index: usize,
    bodies: Seq<&str>,
    tags: Seq<&str>,
)
    requires
        check.validation(index, bodies, tags) is Ok,
        check.pair_spec() is Some,
    ensures
        bodies.len() > 0,
        named(bodies, check.pair_spec()->0@[0]@),
        named(bodies, check.pair_spec()->0@[1]@),
        check.pair_spec()->0@[0]@ != check.pair_spec()->0@[1]@,
{
}

/// Whether `name` is one of `list`.
pub open spec fn named(list: Seq<&str>, name: Seq<char>) -> bool {
    exists|i: int| 0 <= i < list.len() && (#[trigger] list[i])@ == name
}

fn contains_name(list: &[&str], name: &str) -> (b: bool)
    ensures
        b == named(list@, name@),
{
    let mut i: usize = 0;
    while i < list.len()
        invariant
            i <= list@.len(),
            forall|j: int| 0 <= j < i ==> (#[trigger] list@[j])@ != name@,
        decreases list@.len() - i,
    {
        if str_eq(list[i], name) {
            return true;
        }
        i = i + 1;
    }
    false
}

/// The first tag, from `i` on, that the part does not write.
pub open spec fn first_untagged(on: Seq<String>, tags: Seq<&str>, i: int) -> Option<int>
    decreases on.len() - i,
{
    if i < 0 || i >= on.len() {
        None
    } else if !named(tags, on[i]@) {
        Some(i)
    } else {
        first_untagged(on, tags, i + 1)
    }
}

/// What a wall check may leave out: a tag the part writes, or a kind of thin
/// reading.
pub open spec fn ignorable(name: Seq<char>, tags: Seq<&str>) -> bool {
    name == "feather"@ || name == "edge"@ || named(tags, name)
}

/// The first name, from `i` on, that a wall check cannot leave out.
pub open spec fn first_unignorable(ignore: Seq<String>, tags: Seq<&str>, i: int) -> Option<int>
    decreases ignore.len() - i,
{
    if i < 0 || i >= ignore.len() {
        None
    } else if !ignorable(ignore[i]@, tags) {
        Some(i)
    } else {
        first_unignorable(ignore, tags, i + 1)
    }
}

fn find_untagged(on: &Vec<String>, tags: &[&str]) -> (r: Option<usize>)
    ensures
        r matches Some(t) ==> first_untagged(on@, tags@, 0) == Some(t as int) && t < on@.len(),
        r is None ==> first_untagged(on@, tags@, 0) is None,
{
    let mut i: usize = 0;
    while i < on.len()
        invariant
            i <= on@.len(),
            first_untagged(on@, tags@, 0) == first_untagged(on@, tags@, i as int),
        decreases on@.len() - i,
    {
        if !contains_name(tags, on[i].as_str()) {
            return Some(i);
        }
        i = i + 1;
    }
    None
}

fn find_unignorable(ignore: &Vec<String>, tags: &[&str]) -> (r: Option<usize>)
    ensures
        r matches Some(t) ==> first_unignorable(ignore@, tags@, 0) == Some(t as int) && t < ignore@.len(),
        r is None ==> first_unignorable(ignore@, tags@, 0) is None,
{
    let mut i: usize = 0;
    while i < ignore.len()
        invariant
            i <= ignore@.len(),
            first_unignorable(ignore@, tags@, 0) == first_unignorable(ignore@, tags@, i as int),
        decreases ignore@.len() - i,
    {
        let name = ignore[i].as_str();
        if !(str_eq(name, "feather") || str_eq(name, "edge") || contains_name(tags, name)) {
            return Some(i);
        }
        i = i + 1;
    }
    None
}

/// Why a check carries no single head: the message `kind` gives.
pub open spec fn kind_error(heads: Seq<bool>) -> Seq<char> {
    if carried(heads).len() == 0 {
        NOTHING_TO_CHECK@
    } else {
        "carries "@ + joined_keys(carried(heads)) + " at once; a check reads one thing, so write one check per key"@
    }
}

/// Whether a check names a pair of bodies.
pub open spec fn is_pair_kind(k: CheckKind) -> bool {
    k == CheckKind::Clear || k == CheckKind::Interferes || k == CheckKind::Touching
}

impl Check {
    /// Whether this check reads as written, as `validate` judges it; `index`
    /// is 1-based, `bodies` the part's named bodies, `tags` every tag it writes.
    pub open spec fn validation(&self, index: usize, bodies: Seq<&str>, tags: Seq<&str>) -> Result<(), Seq<char>> {
        let at = "check "@ + decimal(index as nat);
        let quoted = at + " ("@ + self.sentence_spec() + ")"@;
        let pair = self.pair_spec();
        match self.kind_spec() {
            None => Err(at + " "@ + kind_error(self.heads())),
            Some(kind) => if pair is Some && bodies.len() == 0 {
                Err(
                    quoted
                        + " names two bodies, but the part returns one shape; return an object of named bodies \u{2014} return { base, lid, checks } \u{2014} for a check between two"@,
                )
            } else if pair is Some && !named(bodies, pair->0@[0]@) {
                Err(quoted + " names a body \""@ + pair->0@[0]@ + "\" the part does not return; its bodies are "@
                    + quoted_list(bodies))
            } else if pair is Some && !named(bodies, pair->0@[1]@) {
                Err(quoted + " names a body \""@ + pair->0@[1]@ + "\" the part does not return; its bodies are "@
                    + quoted_list(bodies))
            } else if pair is Some && pair->0@[0]@ == pair->0@[1]@ {
                Err(quoted + " names the same body twice"@)
            } else if self.at_least is Some && (!is_pair_kind(kind) || kind == CheckKind::Touching) {
                Err(quoted + " has atLeast, which only clear and interferes read"@)
            } else if self.at_least is Some && !self.at_least->0.is_length() {
                Err(quoted + ": atLeast must be a length of 0 mm or more, not "@ + self.at_least->0.shown@)
            } else if kind != CheckKind::Wall && (self.ignore@.len() > 0 || self.on@.len() > 0) {
                Err(quoted + " has "@ + (if self.on@.len() == 0 {
                    "ignore"@
                } else {
                    "on"@
                }) + ", which only wall reads"@)
            } else if self.wall is Some && !self.wall->0.min.is_positive() {
                Err(at + ": wall.min must be a positive length in mm, not "@ + self.wall->0.min.shown@)
            } else if self.wall is Some && first_untagged(self.on@, tags, 0) is Some {
                Err(quoted + " scopes the wall to a tag \""@ + self.on@[first_untagged(self.on@, tags, 0)->0]@
                    + "\" nothing in the part writes"@ + known_tags_spec(tags))
            } else if self.wall is Some && first_unignorable(self.ignore@, tags, 0) is Some {
                Err(quoted + " ignores \""@ + self.ignore@[first_unignorable(self.ignore@, tags, 0)->0]@
                    + "\", which is neither a tag the part writes nor a kind of thin reading (feather, edge)"@
                    + known_tags_spec(tags))
            } else if self.size is Some && !(self.size->0.max@[0].is_positive() && self.size->0.max@[1].is_positive()
                && self.size->0.max@[2].is_positive()) {
                Err(at + ": size.max is [x, y, z] in mm, each positive, not ["@ + self.size->0.max@[0].shown@ + ", "@
                    + self.size->0.max@[1].shown@ + ", "@ + self.size->0.max@[2].shown@ + "]"@)
            } else if self.stands_on is Some && !(self.stands_on->0.at_least.is_positive()
                && self.stands_on->0.at_least.at_most_one) {
                Err(at + ": standsOn.atLeast is a fraction of the footprint, above 0 and at most 1, not "@
                    + self.stands_on->0.at_least.shown@)
            } else if self.bodies == Some(0usize) {
                Err(at + ": bodies must be 1 or more"@)
            } else if self.watertight == Some(false) {
                Err(
                    at
                        + ": watertight: true is the only value; a part meant to be open is a surface, which the reply says"@,
                )
            } else {
                Ok(())
            },
        }
    }

    /// Whether this check reads as written: its numbers are positive where
    /// they must be, its qualifiers belong to its kind, and the bodies and
    /// tags it names exist. `bodies` are the part's named bodies, `tags`
    /// every tag the graph writes; `index` is 1-based, for the message.
    pub fn validate(&self, index: usize, bodies: &[&str], tags: &[&str]) -> (r: Result<(), String>)
        ensures
            r matches Ok(_) ==> self.validation(index, bodies@, tags@) is Ok,
            r matches Err(e) ==> self.validation(index, bodies@, tags@) == Err::<(), Seq<char>>(e@),
    {
        let mut at = String::from_str("check ");
        push_str(&mut at, decimal_string(index as u64).as_str());
        let kind = match self.kind() {
            Ok(k) => k,
            Err(why) => {
                let mut e = at;
                push_str(&mut e, " ");
                push_str(&mut e, why.as_str());
                return Err(e);
            },
        };
        proof {
            lemma_carried_present(self.heads(), 8);
            assert(self.heads()[head_index(kind)]);
        }
        let mut quoted = at.clone();
        push_str(&mut quoted, " (");
        push_str(&mut quoted, self.sentence().as_str());
        push_str(&mut quoted, ")");
        match self.pair() {
            Some(pair) => {
                if bodies.len() == 0 {
                    let mut e = quoted;
                    push_str(
                        &mut e,
                        " names two bodies, but the part returns one shape; return an object of named bodies \u{2014} return { base, lid, checks } \u{2014} for a check between two",
                    );
                    return Err(e);
                }
                if !contains_name(bodies, pair[0].as_str()) {
                    let mut e = quoted;
                    push_str(&mut e, " names a body \"");
                    push_str(&mut e, pair[0].as_str());
                    push_str(&mut e, "\" the part does not return; its bodies are ");
                    push_str(&mut e, quoted_bodies(bodies).as_str());
                    return Err(e);
                }
                if !contains_name(bodies, pair[1].as_str()) {
                    let mut e = quoted;
                    push_str(&mut e, " names a body \"");
                    push_str(&mut e, pair[1].as_str());
                    push_str(&mut e, "\" the part does not return; its bodies are ");
                    push_str(&mut e, quoted_bodies(bodies).as_str());
                    return Err(e);
                }
                assert(named(bodies@, pair@[0]@));
                if str_eq(pair[0].as_str(), pair[1].as_str()) {
                    let mut e = quoted;
                    push_str(&mut e, " names the same body twice");
                    return Err(e);
                }
            },
            None => {},
        }
        let pair_kind = kind == CheckKind::Clear || kind == CheckKind::Interferes || kind == CheckKind::Touching;
        match &self.at_least {
            Some(least) => {
                if !pair_kind || kind == CheckKind::Touching {
                    let mut e = quoted;
                    push_str(&mut e, " has atLeast, which only clear and interferes read");
                    return Err(e);
                }
                if !(least.sign == Sign::Zero || least.sign == Sign::Positive) {
                    let mut e = quoted;
                    push_str(&mut e, ": atLeast must be a length of 0 mm or more, not ");
                    push_str(&mut e, least.shown.as_str());
                    return Err(e);
                }
            },
            None => {},
        }
        if kind != CheckKind::Wall && (self.ignore.len() > 0 || self.on.len() > 0) {
            let mut e = quoted;
            push_str(&mut e, " has ");
            push_str(&mut e, if self.on.len() == 0 { "ignore" } else { "on" });
            push_str(&mut e, ", which only wall reads");
            return Err(e);
        }
        match &self.wall {
            Some(wall) => {
                if wall.min.sign != Sign::Positive {
                    let mut e = at;
                    push_str(&mut e, ": wall.min must be a positive length in mm, not ");
                    push_str(&mut e, wall.min.shown.as_str());
                    return Err(e);
                }
                match find_untagged(&self.on, tags) {
                    Some(t) => {
                        let mut e = quoted;
                        push_str(&mut e, " scopes the wall to a tag \"");
                        push_str(&mut e, self.on[t].as_str());
                        push_str(&mut e, "\" nothing in the part writes");
                        push_str(&mut e, known_tags(tags).as_str());
                        return Err(e);
                    },
                    None => {},
                }
                match find_unignorable(&self.ignore, tags) {
                    Some(t) => {
                        let mut e = quoted;
                        push_str(&mut e, " ignores \"");
                        push_str(&mut e, self.ignore[t].as_str());
                        push_str(
                            &mut e,
                            "\", which is neither a tag the part writes nor a kind of thin reading (feather, edge)",
                        );
                        push_str(&mut e, known_tags(tags).as_str());
                        return Err(e);
                    },
                    None => {},
                }
            },
            None => {},
        }
        match &self.size {
            Some(size) => {
                if !(size.max[0].sign == Sign::Positive && size.max[1].sign == Sign::Positive && size.max[2].sign
                    == Sign::Positive) {
                    let mut e = at;
                    push_str(&mut e, ": size.max is [x, y, z] in mm, each positive, not [");
                    push_str(&mut e, size.max[0].shown.as_str());
                    push_str(&mut e, ", ");
                    push_str(&mut e, size.max[1].shown.as_str());
                    push_str(&mut e, ", ");
                    push_str(&mut e, size.max[2].shown.as_str());
                    push_str(&mut e, "]");
                    return Err(e);
                }
            },
            None => {},
        }
        match &self.stands_on {
            Some(stands) => {
                if !(stands.at_least.sign == Sign::Positive && stands.at_least.at_most_one) {
                    let mut e = at;
                    push_str(&mut e, ": standsOn.atLeast is a fraction of the footprint, above 0 and at most 1, not ");
                    push_str(&mut e, stands.at_least.shown.as_str());
                    return Err(e);
                }
            },
            None => {},
        }
        match self.bodies {
            Some(n) => {
                if n == 0 {
                    let mut e = at;
                    push_str(&mut e, ": bodies must be 1 or more");
                    return Err(e);
                }
            },
            None => {},
        }
        match self.watertight {
            Some(w) => {
                if !w {
                    let mut e = at;
                    push_str(
                        &mut e,
                        ": watertight: true is the only value; a part meant to be open is a surface, which the reply says",
                    );
                    return Err(e);
                }
            },
            None => {},
        }
        Ok(())
    }
}

/// The bodies, each quoted, joined by commas.
fn quoted_bodies(bodies: &[&str]) -> (s: String)
    ensures
        s@ == quoted_list(bodies@),
{
    let mut s = String::new();
    let mut i: usize = 0;
    while i < bodies.len()
        invariant
            i <= bodies@.len(),
            s@ == quoted_list(bodies@.take(i as int)),
        decreases bodies@.len() - i,
    {
        proof {
            assert(bodies@.take(i + 1).drop_last() == bodies@.take(i as int));
        }
        let ghost before = s@;
        if i > 0 {
            push_str(&mut s, ", \"");
        } else {
            push_str(&mut s, "\"");
        }
        push_str(&mut s, bodies[i]);
        push_str(&mut s, "\"");
        proof {
            let t = bodies@.take(i + 1);
            if i == 0 {
                assert(quoted_list(t) == "\""@ + bodies@[0]@ + "\""@);
            }
            assert(s@ =~= quoted_list(t));
        }
        i = i + 1;
    }
    assert(bodies@.take(bodies@.len() as int) == bodies@);
    s
}

/// A key spelt with other case or with separators is its own: whatever an
/// author writes that normalises to a key's lowercase spelling means that key.
pub proof fn lemma_a_key_means_itself(written: Seq<char>, i: int)
    requires
        0 <= i < 12,
        normalized(written) == ascii_lower(KEYS@[i]@),
    ensures
        meant_in(written, KEYS@, SYNONYMS@) == Some(KEYS@[i]@),
{
    reveal_strlit("clear");
    reveal_strlit("interferes");
    reveal_strlit("touching");
    reveal_strlit("wall");
    reveal_strlit("size");
    reveal_strlit("standsOn");
    reveal_strlit("bodies");
    reveal_strlit("watertight");
    reveal_strlit("atLeast");
    reveal_strlit("ignore");
    reveal_strlit("on");
    reveal_strlit("why");
    assert forall|j: int| 0 <= j < i implies ascii_lower(KEYS@[j]@) != ascii_lower(KEYS@[i]@) by {
        if ascii_lower(KEYS@[j]@) == ascii_lower(KEYS@[i]@) {
            assert(ascii_lower(KEYS@[j]@).len() == KEYS@[j]@.len());
            assert(ascii_lower(KEYS@[j]@)[0] == ascii_lower(KEYS@[i]@)[0]);
        }
    }
    lemma_key_found(normalized(written), KEYS@, i);
}

} // verus!
