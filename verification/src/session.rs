//! The live session: which part is on screen, and what its script says.
//!
//! Every viewer pushes its own document back, every change carries the id of
//! the viewer that made it, and an identical push is a no-op — no revision
//! bump and nothing to broadcast — which is what stops a change echoing
//! between viewers forever. The transports keep one of these and tell every
//! viewer when a push changed it.

use vstd::prelude::*;
use crate::projects::{is_project_name, not_a_name, path_of};
use crate::text::push_str;

verus! {

/// What is on screen, as every caller sees it.
pub struct Session {
    /// The open project's name, or `None` until something is opened.
    pub name: Option<String>,
    /// The script as the originating viewer last showed it.
    pub script: String,
    /// Bumped on every real change.
    pub revision: u64,
    /// The viewer that made this change.
    pub origin: String,
}

/// A session as values.
pub struct SessionView {
    pub name: Option<Seq<char>>,
    pub script: Seq<char>,
    pub revision: u64,
    pub origin: Seq<char>,
}

impl View for Session {
    type V = SessionView;

    open spec fn view(&self) -> SessionView {
        SessionView {
            name: match self.name {
                Some(n) => Some(n@),
                None => None,
            },
            script: self.script@,
            revision: self.revision,
            origin: self.origin@,
        }
    }
}

/// The origin an edit from an agent carries; no window uses it, so every
/// viewer applies an agent's change.
pub const AGENT_ORIGIN: &'static str = "agent";

/// What `set_script` says when nothing is open.
pub const NOTHING_OPEN: &'static str = "no project is open in the session yet. Call open_project with a name from \
    list_projects first — or the app has not loaded a part; ask the user to open one.";

/// The session after a push of `name` and `script` from `origin`: unchanged
/// when it already shows them, otherwise showing them one revision later.
pub open spec fn pushed(s: SessionView, name: Option<Seq<char>>, script: Seq<char>, origin: Seq<char>) -> SessionView {
    if s.name == name && s.script == script {
        s
    } else {
        SessionView { name, script, revision: (s.revision + 1) as u64, origin }
    }
}

fn copy_name(name: &Option<String>) -> (r: Option<String>)
    ensures
        (match r { Some(n) => Some(n@), None => None::<Seq<char>> }) == (match *name {
            Some(n) => Some(n@),
            None => None::<Seq<char>>,
        }),
{
    match name {
        Some(n) => Some(n.clone()),
        None => None,
    }
}

fn same_name(a: &Option<String>, b: &Option<String>) -> (r: bool)
    ensures
        r == ((match *a { Some(n) => Some(n@), None => None::<Seq<char>> }) == (match *b {
            Some(n) => Some(n@),
            None => None::<Seq<char>>,
        })),
{
    match (a, b) {
        (Some(x), Some(y)) => *x == *y,
        (None, None) => true,
        _ => false,
    }
}

impl Session {
    /// Nothing open, nothing typed, no change yet.
    pub fn new() -> (s: Session)
        ensures
            s@.name is None,
            s@.script == Seq::<char>::empty(),
            s@.revision == 0,
            s@.origin == Seq::<char>::empty(),
    {
        Session { name: None, script: String::new(), revision: 0, origin: String::new() }
    }

    /// A copy of the session.
    pub fn snapshot(&self) -> (s: Session)
        ensures
            s@ == self@,
    {
        Session {
            name: copy_name(&self.name),
            script: self.script.clone(),
            revision: self.revision,
            origin: self.origin.clone(),
        }
    }
}

/// What is on screen right now.
pub fn get(state: &Session) -> (s: Session)
    ensures
        s@ == state@,
{
    state.snapshot()
}

/// Record a change, or do nothing if nothing changed. The session after the
/// call is returned; the caller tells every viewer when its revision moved.
pub fn push(state: &mut Session, name: Option<String>, script: String, origin: String) -> (s: Session)
    requires
        pushed(old(state)@, match name { Some(n) => Some(n@), None => None }, script@, origin@) == old(state)@
            || old(state).revision < u64::MAX,
    ensures
        final(state)@ == pushed(
            old(state)@,
            match name { Some(n) => Some(n@), None => None },
            script@,
            origin@,
        ),
        s@ == final(state)@,
{
    if same_name(&state.name, &name) && state.script == script {
        return state.snapshot();
    }
    state.name = name;
    state.script = script;
    state.revision = state.revision + 1;
    state.origin = origin;
    state.snapshot()
}

/// Open a project into the session, given what reading it from the project
/// folder returned. The name is held to the project-name rule first, so a
/// name that could address a location is refused before anything changes;
/// a read that failed is handed back unchanged and the session is left alone.
pub fn open(state: &mut Session, name: &str, origin: &str, read: Result<String, String>) -> (r: Result<
    Session,
    String,
>)
    requires
        is_project_name(name@) && read is Ok ==> (pushed(old(state)@, Some(name@), read->Ok_0@, origin@) == old(state)@
            || old(state).revision < u64::MAX),
    ensures
        !is_project_name(name@) ==> (r matches Err(e) && e@ == not_a_name(name@) && final(state)@ == old(state)@),
        is_project_name(name@) ==> (read matches Err(e) ==> (r matches Err(e2) && e2@ == e@ && final(state)@
            == old(state)@)),
        is_project_name(name@) ==> (read matches Ok(script) ==> (final(state)@ == pushed(
            old(state)@,
            Some(name@),
            script@,
            origin@,
        ) && (r matches Ok(s) && s@ == final(state)@))),
{
    match path_of(name) {
        Err(e) => Err(e),
        Ok(_) => match read {
            Ok(script) => Ok(push(state, Some(String::from_str(name)), script, String::from_str(origin))),
            Err(e) => Err(e),
        },
    }
}

/// Replace the open document's script: an ordinary edit from a caller that
/// is not looking at the screen. Refused while nothing is open, since a
/// script with no project under it would have nowhere to be saved.
pub fn set_script(state: &mut Session, script: String, origin: &str) -> (r: Result<Session, String>)
    requires
        old(state)@.name matches Some(n) ==> (pushed(old(state)@, Some(n), script@, origin@) == old(state)@
            || old(state).revision < u64::MAX),
    ensures
        old(state)@.name is None ==> (r matches Err(e) && e@ == NOTHING_OPEN@ && final(state)@ == old(state)@),
        old(state)@.name matches Some(n) ==> (final(state)@ == pushed(old(state)@, Some(n), script@, origin@) && (r matches Ok(
            s,
        ) && s@ == final(state)@)),
{
    let name = copy_name(&state.name);
    match name {
        None => Err(String::from_str(NOTHING_OPEN)),
        Some(name) => Ok(push(state, Some(name), script, String::from_str(origin))),
    }
}

/// A viewer that re-pushes what it was just sent changes nothing: the echo
/// of a change is not a change, whoever sends it.
pub proof fn lemma_echo_is_no_op(s: SessionView, name: Option<Seq<char>>, script: Seq<char>, a: Seq<char>, b: Seq<char>)
    ensures
        pushed(pushed(s, name, script, a), name, script, b) == pushed(s, name, script, a),
{
}

/// A push that changes what is shown moves the revision on by exactly one
/// and records who made it; any other push leaves the revision where it was.
pub proof fn lemma_revision_counts_changes(s: SessionView, name: Option<Seq<char>>, script: Seq<char>, origin: Seq<char>)
    requires
        (s.name == name && s.script == script) || s.revision < u64::MAX,
    ensures
        (s.name == name && s.script == script) ==> pushed(s, name, script, origin) == s,
        !(s.name == name && s.script == script) ==> pushed(s, name, script, origin).revision == s.revision + 1
            && pushed(s, name, script, origin).origin == origin,
        pushed(s, name, script, origin).name == name,
        pushed(s, name, script, origin).script == script,
{
}

} // verus!
