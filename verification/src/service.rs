//! The service layer every transport shares: how a request names a view and
//! a backend, and what a probe says it found itself in.

use vstd::prelude::*;
use vstd::view::View as _;
use crate::text::{quoted, debug_string, push_str, str_eq};

verus! {

/// One of the standard views a part is drawn from, in the order a contact
/// sheet lays them out.
#[derive(Debug, Clone, Copy, PartialEq, Eq, Structural)]
pub enum View {
    Iso,
    Front,
    Right,
    Top,
    Back,
    Left,
    Bottom,
}

/// Every view, in contact-sheet order.
pub open spec fn all_views() -> Seq<View> {
    seq![View::Iso, View::Front, View::Right, View::Top, View::Back, View::Left, View::Bottom]
}

impl View {
    /// The view's name, as a request spells it.
    pub open spec fn name_spec(self) -> Seq<char> {
        match self {
            View::Iso => "iso"@,
            View::Front => "front"@,
            View::Right => "right"@,
            View::Top => "top"@,
            View::Back => "back"@,
            View::Left => "left"@,
            View::Bottom => "bottom"@,
        }
    }

    /// The view's name.
    pub fn name(self) -> (s: &'static str)
        ensures
            s@ == self.name_spec(),
    {
        match self {
            View::Iso => "iso",
            View::Front => "front",
            View::Right => "right",
            View::Top => "top",
            View::Back => "back",
            View::Left => "left",
            View::Bottom => "bottom",
        }
    }

    /// The view a name spells, if any.
    pub open spec fn parse_spec(name: Seq<char>) -> Option<View> {
        if name == "iso"@ {
            Some(View::Iso)
        } else if name == "front"@ {
            Some(View::Front)
        } else if name == "right"@ {
            Some(View::Right)
        } else if name == "top"@ {
            Some(View::Top)
        } else if name == "back"@ {
            Some(View::Back)
        } else if name == "left"@ {
            Some(View::Left)
        } else if name == "bottom"@ {
            Some(View::Bottom)
        } else {
            None
        }
    }

    /// The view a name spells.
    pub fn parse(name: &str) -> (v: Option<View>)
        ensures
            v == Self::parse_spec(name@),
    {
        if str_eq(name, "iso") {
            Some(View::Iso)
        } else if str_eq(name, "front") {
            Some(View::Front)
        } else if str_eq(name, "right") {
            Some(View::Right)
        } else if str_eq(name, "top") {
            Some(View::Top)
        } else if str_eq(name, "back") {
            Some(View::Back)
        } else if str_eq(name, "left") {
            Some(View::Left)
        } else if str_eq(name, "bottom") {
            Some(View::Bottom)
        } else {
            None
        }
    }
}

/// A view's name parses back to the view.
pub proof fn lemma_view_names_round_trip(v: View)
    ensures
        View::parse_spec(v.name_spec()) == Some(v),
{
    reveal_strlit("iso");
    reveal_strlit("front");
    reveal_strlit("right");
    reveal_strlit("top");
    reveal_strlit("back");
    reveal_strlit("left");
    reveal_strlit("bottom");
    let names = seq!["iso"@, "front"@, "right"@, "top"@, "back"@, "left"@, "bottom"@];
    assert forall|i: int, j: int| 0 <= i < j < 7 implies #[trigger] names[i] != #[trigger] names[j] by {
        if names[i].len() == names[j].len() {
            assert(names[i][0] != names[j][0]);
        }
    }
    assert(names[0] == View::Iso.name_spec());
    assert(names[1] == View::Front.name_spec());
    assert(names[2] == View::Right.name_spec());
    assert(names[3] == View::Top.name_spec());
    assert(names[4] == View::Back.name_spec());
    assert(names[5] == View::Left.name_spec());
    assert(names[6] == View::Bottom.name_spec());
}

/// The names of every view, as a refusal lists them.
pub const VIEW_NAMES: &'static str = "iso, front, right, top, back, left, bottom";

/// What an unknown view name is told.
pub open spec fn unknown_view(name: Seq<char>) -> Seq<char> {
    "unknown view "@ + quoted(name) + "; expected one of "@ + VIEW_NAMES@
}

/// Parse view names, naming the alternatives when one is wrong: the first
/// name that is not a view is the one refused.
pub fn parse_views(names: &[String]) -> (r: Result<Vec<View>, String>)
    ensures
        r matches Ok(views) ==> views@.len() == names@.len() && forall|i: int|
            0 <= i < names@.len() ==> View::parse_spec((#[trigger] names@[i])@) == Some(views@[i]),
        r is Ok <==> forall|i: int| 0 <= i < names@.len() ==> View::parse_spec((#[trigger] names@[i])@) is Some,
        r matches Err(e) ==> exists|i: int|
            0 <= i < names@.len() && View::parse_spec((#[trigger] names@[i])@) is None && e@ == unknown_view(names@[i]@)
                && forall|j: int| 0 <= j < i ==> View::parse_spec((#[trigger] names@[j])@) is Some,
{
    let mut views: Vec<View> = Vec::new();
    let mut i: usize = 0;
    while i < names.len()
        invariant
            i <= names@.len(),
            views@.len() == i,
            forall|k: int| 0 <= k < i ==> View::parse_spec((#[trigger] names@[k])@) == Some(views@[k]),
        decreases names@.len() - i,
    {
        match View::parse(names[i].as_str()) {
            Some(v) => {
                views.push(v);
            },
            None => {
                let mut e = String::new();
                push_str(&mut e, "unknown view ");
                push_str(&mut e, debug_string(names[i].as_str()).as_str());
                push_str(&mut e, "; expected one of ");
                push_str(&mut e, VIEW_NAMES);
                assert(View::parse_spec(names@[i as int]@) is None);
                return Err(e);
            },
        }
        i = i + 1;
    }
    Ok(views)
}

/// What a probe found itself in: a word, so that it cannot be read as the
/// other one.
#[derive(Debug, Clone, Copy, PartialEq, Eq, Structural)]
pub enum Medium {
    Material,
    Void,
}

/// Time the implicit path spent, in its two halves.
pub struct Timings {
    pub lower_and_mesh_ms: u64,
    pub normals_ms: u64,
}

/// An exported file, held in memory rather than written.
pub struct Export {
    pub bytes: Vec<u8>,
    pub filename: &'static str,
    pub content_type: &'static str,
}

/// Which geometry backend a request asked for.
#[derive(Debug, Clone, Copy, PartialEq, Eq, Structural)]
pub enum Backend {
    Preview,
    Implicit,
    Brep,
}

/// What an unknown backend name is told.
pub open spec fn unknown_backend(name: Seq<char>) -> Seq<char> {
    "unknown backend "@ + quoted(name) + "; expected \"preview\", \"implicit\", or \"brep\""@
}

impl Backend {
    /// The backend a request names; none named is the implicit one.
    pub fn parse(name: Option<&str>) -> (r: Result<Backend, String>)
        ensures
            name is None ==> r == Ok::<Backend, String>(Backend::Implicit),
            name matches Some(n) ==> (n@ == "preview"@ ==> r == Ok::<Backend, String>(Backend::Preview)),
            name matches Some(n) ==> (n@ == "implicit"@ ==> r == Ok::<Backend, String>(Backend::Implicit)),
            name matches Some(n) ==> (n@ == "brep"@ ==> r == Ok::<Backend, String>(Backend::Brep)),
            name matches Some(n) ==> (n@ != "preview"@ && n@ != "implicit"@ && n@ != "brep"@ ==> (r matches Err(e)
                && e@ == unknown_backend(n@))),
    {
        proof {
            reveal_strlit("preview");
            reveal_strlit("implicit");
            reveal_strlit("brep");
            assert("preview"@.len() == 7);
            assert("implicit"@.len() == 8);
            assert("preview"@ != "implicit"@);
            assert("brep"@ != "implicit"@);
            assert("brep"@ != "preview"@);
        }
        let n = match name {
            Some(n) => n,
            None => "implicit",
        };
        if str_eq(n, "preview") {
            Ok(Backend::Preview)
        } else if str_eq(n, "implicit") {
            Ok(Backend::Implicit)
        } else if str_eq(n, "brep") {
            Ok(Backend::Brep)
        } else {
            let mut e = String::new();
            push_str(&mut e, "unknown backend ");
            push_str(&mut e, debug_string(n).as_str());
            push_str(&mut e, "; expected \"preview\", \"implicit\", or \"brep\"");
            Err(e)
        }
    }

    /// Whether this backend meshes an exact solid, with no grid to coarsen.
    pub fn is_exact(self) -> (b: bool)
        ensures
            b == (self == Backend::Brep || self == Backend::Preview),
    {
        match self {
            Backend::Brep | Backend::Preview => true,
            Backend::Implicit => false,
        }
    }
}

/// A count a writer leaves out when it is zero.
pub fn is_zero(n: &usize) -> (b: bool)
    ensures
        b == (*n == 0),
{
    *n == 0
}

/// Whether an agent is on the MCP transport, and what it last did: the same
/// answer both windows are given.
pub fn mcp_status(activity: &mut crate::mcp::Activity, now: u64, port: u16) -> (s: crate::mcp::Status)
    ensures
        crate::mcp::sessions_view(final(activity).sessions@) == crate::mcp::kept(
            crate::mcp::sessions_view(old(activity).sessions@),
            now,
        ),
        s.clients == crate::mcp::kept(crate::mcp::sessions_view(old(activity).sessions@), now).len(),
        crate::mcp::text_view(s.client) == crate::mcp::text_view(old(activity).client),
        s.tool_calls == old(activity).tool_calls,
        crate::mcp::text_view(s.last_tool) == crate::mcp::text_view(old(activity).last_tool),
        s.idle_secs == match old(activity).last_seen {
            Some(at) => Some(crate::mcp::since(at, now)),
            None => None,
        },
        s.url@ == crate::mcp::mcp_url(port),
{
    crate::mcp::status(activity, now, port)
}

} // verus!
