//! Reading a graph that may have been written by another version of parcad.
//!
//! A graph states the features it uses that a host might not have
//! (`requires`), a host refuses the ones it does not know by name, and every
//! other reading failure names the node, the field and the fix. The graph
//! reaches this module as the plain facts these rules read: which kind of
//! JSON value each part is, and the strings it holds.

use vstd::prelude::*;
use crate::scan::{begins, begins_at, copy_range, ends, ends_with, next_char, next_of};
use crate::text::{chars_of, decimal, decimal_string, push_str, str_eq, string_of};

verus! {

/// A feature a graph uses that a host released before it cannot read.
pub struct Requirement {
    /// Stable id; what a host matches against [`FEATURES`].
    pub feature: String,
    /// The last released version that cannot read it.
    pub after: String,
    /// The feature as a person would name it.
    pub what: String,
}

/// Every feature id this host reads.
pub const FEATURES: [&'static str; 9] = [
    "section-curves",
    "fitted-sections",
    "inset-sections",
    "sweep-spline",
    "loft-point",
    "bspline-knots",
    "held-curves",
    "loft-wall",
    "surfaces",
];

/// The version of parcad reading the graph.
pub const HOST_VERSION: &'static str = "0.1.0";

/// What sort of JSON value something is.
#[derive(Debug, Clone, Copy, PartialEq, Eq, Structural)]
pub enum JsonKind {
    Null,
    Bool,
    Number,
    Str,
    List,
    Object,
}

impl JsonKind {
    /// The value's sort as a sentence names it.
    pub open spec fn phrase(self) -> Seq<char> {
        match self {
            JsonKind::Null => "null"@,
            JsonKind::Bool => "a boolean"@,
            JsonKind::Number => "a number"@,
            JsonKind::Str => "a string"@,
            JsonKind::List => "a list"@,
            JsonKind::Object => "an object"@,
        }
    }
}

/// The value's sort as a sentence names it.
pub fn kind_of(kind: JsonKind) -> (s: &'static str)
    ensures
        s@ == kind.phrase(),
{
    match kind {
        JsonKind::Null => "null",
        JsonKind::Bool => "a boolean",
        JsonKind::Number => "a number",
        JsonKind::Str => "a string",
        JsonKind::List => "a list",
        JsonKind::Object => "an object",
    }
}

/// For a graph known to need a newer host.
pub open spec fn update_now_spec() -> Seq<char> {
    "This host is parcad "@ + HOST_VERSION@
        + ": update it (brew upgrade parcad, or the latest release), or point the client at a newer host"@
}

/// For a failure a newer writer is one explanation of.
pub open spec fn if_newer_spec() -> Seq<char> {
    "If a newer parcad wrote the part, this host (parcad "@ + HOST_VERSION@
        + ") is too old for it: update it (brew upgrade parcad, or the latest release), or point the client at a newer host"@
}

/// For a graph known to need a newer host.
pub fn update_now() -> (s: String)
    ensures
        s@ == update_now_spec(),
{
    let mut s = String::from_str("This host is parcad ");
    push_str(&mut s, HOST_VERSION);
    push_str(&mut s, ": update it (brew upgrade parcad, or the latest release), or point the client at a newer host");
    s
}

/// For a failure a newer writer is one explanation of.
pub fn if_newer() -> (s: String)
    ensures
        s@ == if_newer_spec(),
{
    let mut s = String::from_str("If a newer parcad wrote the part, this host (parcad ");
    push_str(&mut s, HOST_VERSION);
    push_str(
        &mut s,
        ") is too old for it: update it (brew upgrade parcad, or the latest release), or point the client at a newer host",
    );
    s
}

/// One entry of a graph's `requires`, read leniently, since a newer writer
/// owns its shape: each field that is a string, and `None` for one that is
/// missing or is not.
pub struct Entry {
    pub feature: Option<String>,
    pub after: Option<String>,
    pub what: Option<String>,
}

/// A graph's `requires`: absent, a list of entries, or some other value.
pub enum Requires {
    Absent,
    List(Vec<Entry>),
    Other(JsonKind),
}

/// Whether this host reads a feature.
pub open spec fn known_feature(feature: Seq<char>) -> bool {
    exists|i: int| 0 <= i < FEATURES@.len() && (#[trigger] FEATURES@[i])@ == feature
}

/// Every feature this host lists is one it reads.
pub proof fn lemma_every_listed_feature_is_read()
    ensures
        forall|i: int| 0 <= i < FEATURES@.len() ==> known_feature(#[trigger] FEATURES@[i]@),
{
    assert forall|i: int| 0 <= i < FEATURES@.len() implies known_feature(#[trigger] FEATURES@[i]@) by {
        assert(FEATURES@[i]@ == FEATURES@[i]@);
    }
}

/// A graph whose `requires` names only features this host lists, whatever
/// its entries say of versions and in words, is read: nothing is refused.
pub proof fn lemma_a_graph_requiring_listed_features_is_read(entries: Vec<Entry>)
    requires
        forall|k: int|
            0 <= k < entries@.len() && (#[trigger] entries@[k]).feature is Some ==> exists|i: int|
                0 <= i < FEATURES@.len() && FEATURES@[i]@ == entries@[k].feature->0@,
    ensures
        requires_verdict(Requires::List(entries)) == Ok::<(), Seq<char>>(()),
{
    lemma_every_listed_feature_is_read();
    assert forall|k: int| 0 <= k < entries@.len() implies !lacking(#[trigger] entries@[k]) by {
        if entries@[k].feature is Some {
            let i = choose|i: int| 0 <= i < FEATURES@.len() && FEATURES@[i]@ == entries@[k].feature->0@;
            assert(known_feature(FEATURES@[i]@));
        }
    }
}

/// A graph whose `requires` names a feature this host does not list is
/// refused, whatever else it requires.
pub proof fn lemma_an_unlisted_feature_is_refused(entries: Vec<Entry>, k: int)
    requires
        0 <= k < entries@.len(),
        entries@[k].feature is Some,
        forall|i: int| 0 <= i < FEATURES@.len() ==> FEATURES@[i]@ != entries@[k].feature->0@,
    ensures
        requires_verdict(Requires::List(entries)) is Err,
{
    assert(lacking(entries@[k]));
}

/// A field's text, when it has some.
pub open spec fn text_of(field: Option<String>) -> Option<Seq<char>> {
    match field {
        Some(s) => if s@.len() > 0 {
            Some(s@)
        } else {
            None
        },
        None => None,
    }
}

/// How a refusal names one feature this host lacks: in the writer's words
/// where it gave them, and since when it needs a newer host.
pub open spec fn missing_phrase(e: Entry) -> Seq<char> {
    let feature = e.feature->0@;
    let what = match text_of(e.what) {
        Some(w) => w,
        None => feature,
    };
    match text_of(e.after) {
        Some(after) => what + " (\""@ + feature + "\"), which needs a parcad released after "@ + after,
        None => what + " (\""@ + feature + "\"), which needs a newer parcad"@,
    }
}

/// Whether an entry names a feature this host lacks.
pub open spec fn lacking(e: Entry) -> bool {
    e.feature is Some && !known_feature(e.feature->0@)
}

/// The phrases for the entries this host lacks, joined by ", and ".
pub open spec fn missing_text(es: Seq<Entry>) -> Seq<char>
    decreases es.len(),
{
    if es.len() == 0 {
        Seq::empty()
    } else if !lacking(es.last()) {
        missing_text(es.drop_last())
    } else if missing_text(es.drop_last()).len() == 0 {
        missing_phrase(es.last())
    } else {
        missing_text(es.drop_last()) + ", and "@ + missing_phrase(es.last())
    }
}

/// Whether any entry names a feature this host lacks.
pub open spec fn any_lacking(es: Seq<Entry>) -> bool {
    exists|i: int| 0 <= i < es.len() && lacking(#[trigger] es[i])
}

/// What reading `requires` gives: nothing to refuse, or the refusal.
pub open spec fn requires_verdict(stated: Requires) -> Result<(), Seq<char>> {
    match stated {
        Requires::Absent => Ok(()),
        Requires::Other(kind) => Err(
            "the graph's requires is "@ + kind.phrase() + ", where this host reads a list of { feature, after, what }. "@
                + if_newer_spec(),
        ),
        Requires::List(es) => if any_lacking(es@) {
            Err("this part uses "@ + missing_text(es@) + ". "@ + update_now_spec())
        } else {
            Ok(())
        },
    }
}

fn is_known(feature: &str) -> (b: bool)
    ensures
        b == known_feature(feature@),
{
    let mut i: usize = 0;
    while i < FEATURES.len()
        invariant
            i <= FEATURES@.len(),
            forall|j: int| 0 <= j < i ==> (#[trigger] FEATURES@[j])@ != feature@,
        decreases FEATURES@.len() - i,
    {
        if str_eq(FEATURES[i], feature) {
            return true;
        }
        i = i + 1;
    }
    false
}

fn text_field(field: &Option<String>) -> (r: Option<&str>)
    ensures
        r matches Some(s) ==> text_of(*field) == Some(s@),
        r is None ==> text_of(*field) is None,
{
    match field {
        Some(s) => if s.as_str().is_empty() {
            None
        } else {
            Some(s.as_str())
        },
        None => None,
    }
}

fn push_missing(out: &mut String, e: &Entry)
    requires
        e.feature is Some,
    ensures
        final(out)@ == old(out)@ + missing_phrase(*e),
{
    let feature = e.feature.as_ref().unwrap().as_str();
    match text_field(&e.what) {
        Some(w) => push_str(out, w),
        None => push_str(out, feature),
    }
    push_str(out, " (\"");
    push_str(out, feature);
    match text_field(&e.after) {
        Some(after) => {
            push_str(out, "\"), which needs a parcad released after ");
            push_str(out, after);
        },
        None => {
            push_str(out, "\"), which needs a newer parcad");
        },
    }
}

/// Refuse a graph that asks for a feature this host does not have. Lenient
/// about each entry's shape, since a newer writer owns it.
pub fn check_requires(stated: &Requires) -> (r: Result<(), String>)
    ensures
        r matches Ok(_) ==> requires_verdict(*stated) is Ok,
        r matches Err(e) ==> requires_verdict(*stated) == Err::<(), Seq<char>>(e@),
{
    match stated {
        Requires::Absent => Ok(()),
        Requires::Other(kind) => {
            let mut e = String::from_str("the graph's requires is ");
            push_str(&mut e, kind_of(*kind));
            push_str(&mut e, ", where this host reads a list of { feature, after, what }. ");
            push_str(&mut e, if_newer().as_str());
            Err(e)
        },
        Requires::List(es) => {
            let mut missing = String::new();
            let mut any = false;
            let mut i: usize = 0;
            while i < es.len()
                invariant
                    i <= es@.len(),
                    missing@ == missing_text(es@.take(i as int)),
                    any == any_lacking(es@.take(i as int)),
                decreases es@.len() - i,
            {
                let e = &es[i];
                proof {
                    let t = es@.take(i + 1);
                    assert(t.drop_last() == es@.take(i as int));
                    assert(t.last() == es@[i as int]);
                }
                let lacks = match &e.feature {
                    Some(f) => !is_known(f.as_str()),
                    None => false,
                };
                if lacks {
                    let ghost before = missing@;
                    if missing.as_str().is_empty() {
                        push_missing(&mut missing, e);
                    } else {
                        push_str(&mut missing, ", and ");
                        push_missing(&mut missing, e);
                    }
                    any = true;
                    proof {
                        let t = es@.take(i + 1);
                        assert(lacking(t[i as int]));
                        assert(missing@ =~= missing_text(t));
                    }
                } else {
                    proof {
                        let t = es@.take(i + 1);
                        assert forall|j: int| 0 <= j < t.len() && lacking(#[trigger] t[j]) implies 0 <= j < i
                            && lacking(es@.take(i as int)[j]) by {
                            if j == i {
                                assert(t[j] == es@[i as int]);
                            } else {
                                assert(t[j] == es@.take(i as int)[j]);
                            }
                        }
                    }
                }
                i = i + 1;
            }
            assert(es@.take(es@.len() as int) == es@);
            if !any {
                return Ok(());
            }
            let mut out = String::from_str("this part uses ");
            push_str(&mut out, missing.as_str());
            push_str(&mut out, ". ");
            push_str(&mut out, update_now().as_str());
            Err(out)
        },
    }
}

/// A graph's `units`: its text when it is a string, and how JSON writes it.
pub struct Units {
    pub text: Option<String>,
    pub written: String,
}

/// A graph's `root`: missing, a whole number fit to index a node, or some
/// other value.
#[derive(Debug, Clone, Copy, PartialEq, Eq, Structural)]
pub enum Root {
    Missing,
    Index,
    Other(JsonKind),
}

/// A graph's top level, as the plain facts the reading rules use.
pub struct Shape {
    /// What sort of value the graph is.
    pub kind: JsonKind,
    /// Its top-level keys, in the order the object holds them.
    pub keys: Vec<String>,
    pub stated: Requires,
    pub units: Option<Units>,
    /// How many nodes there are, when `nodes` is a list.
    pub nodes: Option<usize>,
    pub root: Root,
}

/// The top-level keys this host reads.
pub const TOP_LEVEL: [&'static str; 4] = ["units", "root", "nodes", "requires"];

/// Whether this host reads a top-level key.
pub open spec fn read_key(key: Seq<char>) -> bool {
    exists|i: int| 0 <= i < 4 && (#[trigger] TOP_LEVEL@[i])@ == key
}

/// The first key, from `i` on, this host does not read.
pub open spec fn first_unread(keys: Seq<String>, i: int) -> Option<int>
    decreases keys.len() - i,
{
    if i < 0 || i >= keys.len() {
        None
    } else if !read_key(keys[i]@) {
        Some(i)
    } else {
        first_unread(keys, i + 1)
    }
}

/// The index a root should have: the last node's.
pub open spec fn last_index(nodes: nat) -> nat {
    if nodes == 0 {
        0
    } else {
        (nodes - 1) as nat
    }
}

/// Whether a graph's top level reads, or what is wrong with it.
pub open spec fn shape_verdict(g: &Shape) -> Result<(), Seq<char>> {
    if g.kind != JsonKind::Object {
        Err("an intent graph is a JSON object { units, root, nodes }; got "@ + g.kind.phrase())
    } else if requires_verdict(g.stated) is Err {
        requires_verdict(g.stated)
    } else if g.units is Some && text_of_units(g.units->0) != Some("mm"@) {
        Err("the graph is in units "@ + g.units->0.written@
            + "; parcad reads millimetres only, so write every length in mm and set units to \"mm\""@)
    } else if first_unread(g.keys@, 0) is Some {
        Err("the graph has a top-level field \""@ + g.keys@[first_unread(g.keys@, 0)->0]@
            + "\" this host does not read, alongside units, root, nodes and requires. "@ + if_newer_spec())
    } else if g.nodes is None {
        Err("the graph has no nodes list; it needs \"nodes\": [ ... ]"@)
    } else if g.root != Root::Index {
        Err("the graph's root is "@ + match g.root {
            Root::Other(k) => k.phrase(),
            _ => "missing"@,
        } + "; it is the index of the node that is the finished part, e.g. \"root\": "@ + decimal(
            last_index(g.nodes->0 as nat),
        ))
    } else {
        Ok(())
    }
}

/// The text of a `units` value that is a string.
pub open spec fn text_of_units(u: Units) -> Option<Seq<char>> {
    match u.text {
        Some(t) => Some(t@),
        None => None,
    }
}

fn is_read_key(key: &str) -> (b: bool)
    ensures
        b == read_key(key@),
{
    let mut i: usize = 0;
    while i < 4
        invariant
            i <= 4,
            forall|j: int| 0 <= j < i ==> (#[trigger] TOP_LEVEL@[j])@ != key@,
        decreases 4 - i,
    {
        if str_eq(TOP_LEVEL[i], key) {
            return true;
        }
        i = i + 1;
    }
    false
}

/// Read a graph's top level, or say what could not be read and what to do
/// about it. Each node is read after this, one by one.
pub fn check_shape(g: &Shape) -> (r: Result<(), String>)
    ensures
        r matches Ok(_) ==> shape_verdict(g) is Ok,
        r matches Err(e) ==> shape_verdict(g) == Err::<(), Seq<char>>(e@),
{
    if g.kind != JsonKind::Object {
        let mut e = String::from_str("an intent graph is a JSON object { units, root, nodes }; got ");
        push_str(&mut e, kind_of(g.kind));
        return Err(e);
    }
    match check_requires(&g.stated) {
        Ok(_) => {},
        Err(e) => {
            return Err(e);
        },
    }
    match &g.units {
        Some(u) => {
            let mm = match &u.text {
                Some(t) => str_eq(t.as_str(), "mm"),
                None => false,
            };
            if !mm {
                let mut e = String::from_str("the graph is in units ");
                push_str(&mut e, u.written.as_str());
                push_str(&mut e, "; parcad reads millimetres only, so write every length in mm and set units to \"mm\"");
                return Err(e);
            }
        },
        None => {},
    }
    let mut i: usize = 0;
    while i < g.keys.len()
        invariant
            i <= g.keys@.len(),
            g.kind == JsonKind::Object,
            requires_verdict(g.stated) is Ok,
            !(g.units is Some && text_of_units(g.units->0) != Some("mm"@)),
            first_unread(g.keys@, 0) == first_unread(g.keys@, i as int),
        decreases g.keys@.len() - i,
    {
        if !is_read_key(g.keys[i].as_str()) {
            let mut e = String::from_str("the graph has a top-level field \"");
            push_str(&mut e, g.keys[i].as_str());
            push_str(&mut e, "\" this host does not read, alongside units, root, nodes and requires. ");
            push_str(&mut e, if_newer().as_str());
            return Err(e);
        }
        i = i + 1;
    }
    let n = match g.nodes {
        Some(n) => n,
        None => {
            return Err(String::from_str("the graph has no nodes list; it needs \"nodes\": [ ... ]"));
        },
    };
    if g.root != Root::Index {
        let mut e = String::from_str("the graph's root is ");
        match g.root {
            Root::Other(k) => push_str(&mut e, kind_of(k)),
            _ => push_str(&mut e, "missing"),
        }
        push_str(&mut e, "; it is the index of the node that is the finished part, e.g. \"root\": ");
        let last: usize = if n == 0 { 0 } else { n - 1 };
        push_str(&mut e, decimal_string(last as u64).as_str());
        return Err(e);
    }
    Ok(())
}

/// What a node that is not an object is told.
pub open spec fn not_a_node_spec(id: usize, kind: JsonKind) -> Seq<char> {
    "node "@ + decimal(id as nat) + " is "@ + kind.phrase() + ", not an object with an op"@
}

/// What a node that is not an object is told.
pub fn not_a_node(id: usize, kind: JsonKind) -> (s: String)
    ensures
        s@ == not_a_node_spec(id, kind),
{
    let mut s = String::from_str("node ");
    push_str(&mut s, decimal_string(id as u64).as_str());
    push_str(&mut s, " is ");
    push_str(&mut s, kind_of(kind));
    push_str(&mut s, ", not an object with an op");
    s
}

/// What a node without an op is told.
pub open spec fn no_op_spec(id: usize) -> Seq<char> {
    "node "@ + decimal(id as nat)
        + " has no op; every node names its operation, e.g. { \"op\": \"cuboid\", \"size\": { \"x\": 1, \"y\": 1, \"z\": 1 } }"@
}

/// What a node without an op is told.
pub fn no_op(id: usize) -> (s: String)
    ensures
        s@ == no_op_spec(id),
{
    let mut s = String::from_str("node ");
    push_str(&mut s, decimal_string(id as u64).as_str());
    push_str(
        &mut s,
        " has no op; every node names its operation, e.g. { \"op\": \"cuboid\", \"size\": { \"x\": 1, \"y\": 1, \"z\": 1 } }",
    );
    s
}

/// What a node with a field nothing reads is told.
pub open spec fn unread_field_spec(id: usize, op: Seq<char>, key: Seq<char>) -> Seq<char> {
    "node "@ + decimal(id as nat) + " ("@ + op + ") has a field \""@ + key
        + "\" this host does not read, so building it would silently leave out whatever \""@ + key
        + "\" asks for. If it is a typo, fix or remove it. "@ + if_newer_spec()
}

/// What a node with a field nothing reads is told: building it would
/// silently leave that field's request out.
pub fn unread_field(id: usize, op: &str, key: &str) -> (s: String)
    ensures
        s@ == unread_field_spec(id, op@, key@),
{
    let mut s = String::from_str("node ");
    push_str(&mut s, decimal_string(id as u64).as_str());
    push_str(&mut s, " (");
    push_str(&mut s, op);
    push_str(&mut s, ") has a field \"");
    push_str(&mut s, key);
    push_str(&mut s, "\" this host does not read, so building it would silently leave out whatever \"");
    push_str(&mut s, key);
    push_str(&mut s, "\" asks for. If it is a typo, fix or remove it. ");
    push_str(&mut s, if_newer().as_str());
    s
}

/// What a node serde could not read is told: the op this host lacks, the
/// field the node lacks, or the field whose value is wrong, where `culprit`
/// names the field whose removal changes serde's complaint, if one does.
pub open spec fn explain_spec(id: usize, op: Seq<char>, error: Seq<char>, culprit: Option<Seq<char>>) -> Seq<char> {
    let node = "node "@ + decimal(id as nat);
    if begins(error, "unknown variant"@) {
        node + " has op \""@ + op
            + "\", which this host does not read. If it is a typo, the operations are those of the DSL reference (read_docs, topic dsl). "@
            + if_newer_spec()
    } else if begins(error, "missing field `"@) {
        let rest = error.skip("missing field `"@.len() as int);
        let field = rest.take(next_of(rest, '`', 0));
        node + " ("@ + op + ") has no \""@ + field + "\", which every "@ + op
            + " needs. The DSL always writes it, so a graph from the DSL that lacks it was written by another version. "@
            + if_newer_spec()
    } else {
        let at = match culprit {
            Some(f) => node + " ("@ + op + "), field \""@ + f + "\""@,
            None => node + " ("@ + op + ")"@,
        };
        let said = if ends(error, seq!['.']) {
            error.drop_last()
        } else {
            error
        };
        at + ": "@ + said + ". "@ + if_newer_spec()
    }
}

/// Say which node and field could not be read, in place of serde's words.
pub fn explain(id: usize, op: &str, error: &str, culprit: Option<&str>) -> (s: String)
    ensures
        s@ == explain_spec(id, op@, error@, match culprit {
            Some(f) => Some(f@),
            None => None,
        }),
{
    let err = chars_of(error);
    let mut s = String::from_str("node ");
    push_str(&mut s, decimal_string(id as u64).as_str());
    assert(err@.skip(0) == err@);
    if begins_at(err.as_slice(), 0, chars_of("unknown variant").as_slice()) {
        push_str(&mut s, " has op \"");
        push_str(&mut s, op);
        push_str(
            &mut s,
            "\", which this host does not read. If it is a typo, the operations are those of the DSL reference (read_docs, topic dsl). ",
        );
        push_str(&mut s, if_newer().as_str());
        return s;
    }
    let missing = chars_of("missing field `");
    if begins_at(err.as_slice(), 0, missing.as_slice()) {
        let rest = copy_range(err.as_slice(), missing.len(), err.len());
        let tick = next_char(rest.as_slice(), '`', 0);
        let field = copy_range(rest.as_slice(), 0, tick);
        push_str(&mut s, " (");
        push_str(&mut s, op);
        push_str(&mut s, ") has no \"");
        push_str(&mut s, string_of(field.as_slice()).as_str());
        push_str(&mut s, "\", which every ");
        push_str(&mut s, op);
        push_str(
            &mut s,
            " needs. The DSL always writes it, so a graph from the DSL that lacks it was written by another version. ",
        );
        push_str(&mut s, if_newer().as_str());
        return s;
    }
    push_str(&mut s, " (");
    push_str(&mut s, op);
    match culprit {
        Some(f) => {
            push_str(&mut s, "), field \"");
            push_str(&mut s, f);
            push_str(&mut s, "\"");
        },
        None => {
            push_str(&mut s, ")");
        },
    }
    push_str(&mut s, ": ");
    let dot = vec!['.'];
    assert(dot@ == seq!['.']);
    let said = if ends_with(err.as_slice(), dot.as_slice()) {
        copy_range(err.as_slice(), 0, err.len() - 1)
    } else {
        copy_range(err.as_slice(), 0, err.len())
    };
    assert(err@.subrange(0, err@.len() as int) == err@);
    push_str(&mut s, string_of(said.as_slice()).as_str());
    push_str(&mut s, ". ");
    push_str(&mut s, if_newer().as_str());
    s
}

} // verus!
