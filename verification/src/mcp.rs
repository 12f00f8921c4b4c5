//! What an agent connected over MCP can ask, what it is answered, and what
//! the app shows of its activity.

use vstd::prelude::*;
use crate::text::{decimal, decimal_string, push_str, str_eq};

verus! {

/// A parcad DSL script ending in a returned shape.
pub struct ScriptRequest {
    pub script: String,
}

/// A script and the treatment node to resolve in it.
pub struct InspectRequest {
    pub script: String,
    pub node: usize,
}

/// A selector to check, and whether it selects edges (the default) or vertices.
pub struct SelectorRequest {
    pub selector: String,
    pub kind: Option<String>,
}

/// A script to export, the format, and the file name to write.
pub struct ExportRequest {
    pub script: String,
    pub format: String,
    pub filename: Option<String>,
}

/// A project name with no directory part and no extension.
pub struct ProjectRequest {
    pub name: String,
}

/// A project to write, and the script to write into it.
pub struct SaveRequest {
    pub name: String,
    pub script: String,
}

/// Whether a selector reads, and where it does not.
pub struct SelectorCheck {
    pub ok: bool,
    pub error: Option<String>,
    /// Byte range of the offending term.
    pub span: Option<[usize; 2]>,
}

/// A file an export wrote.
pub struct Exported {
    pub path: String,
    pub bytes: usize,
    pub format: String,
}

/// Every project in the shared folder, and the folder.
pub struct ProjectList {
    pub projects: Vec<String>,
    pub directory: String,
}

/// One project's script.
pub struct Project {
    pub name: String,
    pub script: String,
}

/// Where a save landed.
pub struct Saved {
    pub name: String,
    pub path: String,
}

/// What the app has seen an agent do over MCP.
pub struct Status {
    /// Clients heard from within the idle limit that have not hung up.
    pub clients: usize,
    /// The most recent client's own name and version.
    pub client: Option<String>,
    pub tool_calls: u64,
    /// The tool of the most recent call.
    pub last_tool: Option<String>,
    /// Seconds since the last request of any kind; absent if there never was one.
    pub idle_secs: Option<u64>,
    /// Where a client connects.
    pub url: String,
}

/// A client silent for this many seconds is no longer counted: one that
/// exits without hanging up would otherwise be shown connected forever.
pub const SESSION_IDLE_LIMIT_SECS: u64 = 900;

/// Whether a client last heard from this many seconds ago still counts.
pub open spec fn live(idle_secs: u64) -> bool {
    idle_secs < SESSION_IDLE_LIMIT_SECS
}

/// Whether a client silent for `idle_secs` is kept.
pub fn is_live(idle_secs: u64) -> (b: bool)
    ensures
        b == live(idle_secs),
{
    idle_secs < SESSION_IDLE_LIMIT_SECS
}

/// Where a client connects, on this port.
pub open spec fn mcp_url(port: u16) -> Seq<char> {
    "http://127.0.0.1:"@ + decimal(port as nat) + "/mcp"@
}

/// Seconds from `at` to `now` on the app's clock; a time not yet reached is
/// no time ago.
pub open spec fn since(at: u64, now: u64) -> u64 {
    if now >= at {
        (now - at) as u64
    } else {
        0
    }
}

/// A client session the app has heard from: its id, the name and version
/// the client announced, and when it was last heard from.
pub struct ClientSession {
    pub id: String,
    pub client: Option<String>,
    pub last_seen: u64,
}

/// What the app has seen over MCP, as its clock reads it.
pub struct Activity {
    /// The sessions that have handshaken and not hung up.
    pub sessions: Vec<ClientSession>,
    /// The most recent client to handshake, kept after it goes.
    pub client: Option<String>,
    pub tool_calls: u64,
    pub last_tool: Option<String>,
    /// When the last request of any kind arrived.
    pub last_seen: Option<u64>,
}

/// A text that may be absent, as values.
pub open spec fn text_view(t: Option<String>) -> Option<Seq<char>> {
    match t {
        Some(s) => Some(s@),
        None => None,
    }
}

/// A session as values: id, client, when last heard from.
pub open spec fn session_view(c: ClientSession) -> (Seq<char>, Option<Seq<char>>, u64) {
    (c.id@, text_view(c.client), c.last_seen)
}

/// The sessions as values, in the order they were first heard from.
pub open spec fn sessions_view(s: Seq<ClientSession>) -> Seq<(Seq<char>, Option<Seq<char>>, u64)> {
    s.map_values(|c: ClientSession| session_view(c))
}

/// Where the session with this id is, if it is there.
pub open spec fn index_of(s: Seq<(Seq<char>, Option<Seq<char>>, u64)>, id: Seq<char>) -> Option<int>
    decreases s.len(),
{
    if s.len() == 0 {
        None
    } else {
        match index_of(s.drop_last(), id) {
            Some(i) => Some(i),
            None => if s.last().0 == id {
                Some(s.len() - 1)
            } else {
                None
            },
        }
    }
}

proof fn lemma_index_of(s: Seq<(Seq<char>, Option<Seq<char>>, u64)>, id: Seq<char>)
    ensures
        index_of(s, id) matches Some(i) ==> 0 <= i < s.len() && s[i].0 == id && forall|j: int| 0 <= j < i ==> s[j].0 != id,
        index_of(s, id) is None ==> forall|j: int| 0 <= j < s.len() ==> s[j].0 != id,
    decreases s.len(),
{
    if s.len() > 0 {
        let d = s.drop_last();
        lemma_index_of(d, id);
        assert forall|j: int| 0 <= j < d.len() implies s[j] == d[j] by {}
        match index_of(d, id) {
            Some(i) => {
                assert(index_of(s, id) == Some(i));
            },
            None => {
                if s.last().0 == id {
                    assert(index_of(s, id) == Some(s.len() - 1));
                } else {
                    assert(index_of(s, id) is None);
                }
            },
        }
    }
}

/// Sessions heard from within the idle limit, in order.
pub open spec fn kept(s: Seq<(Seq<char>, Option<Seq<char>>, u64)>, now: u64) -> Seq<(Seq<char>, Option<Seq<char>>, u64)>
    decreases s.len(),
{
    if s.len() == 0 {
        s
    } else if live(since(s.last().2, now)) {
        kept(s.drop_last(), now).push(s.last())
    } else {
        kept(s.drop_last(), now)
    }
}

/// The sessions after a request: a client saying goodbye is the one
/// unambiguous disconnect and removes its session; any other request with a
/// session id marks it heard from now, creating it if new and giving it the
/// announced client when it had none.
pub open spec fn sessions_after_request(
    s: Seq<(Seq<char>, Option<Seq<char>>, u64)>,
    session: Option<Seq<char>>,
    deleting: bool,
    client: Option<Seq<char>>,
    now: u64,
) -> Seq<(Seq<char>, Option<Seq<char>>, u64)> {
    match session {
        None => s,
        Some(id) => match index_of(s, id) {
            Some(i) => if deleting {
                s.remove(i)
            } else {
                s.update(i, (id, if s[i].1 is Some { s[i].1 } else { client }, now))
            },
            None => if deleting {
                s
            } else {
                s.push((id, client, now))
            },
        },
    }
}

/// The sessions after a reply that names its session: the handshake's reply
/// is where a session id is minted, so it is created if new, and marked
/// heard from now either way.
pub open spec fn sessions_after_reply(
    s: Seq<(Seq<char>, Option<Seq<char>>, u64)>,
    session: Option<Seq<char>>,
    client: Option<Seq<char>>,
    now: u64,
) -> Seq<(Seq<char>, Option<Seq<char>>, u64)> {
    match session {
        None => s,
        Some(id) => match index_of(s, id) {
            Some(i) => s.update(i, (id, s[i].1, now)),
            None => s.push((id, client, now)),
        },
    }
}

/// No two sessions share an id.
pub open spec fn distinct_ids(s: Seq<(Seq<char>, Option<Seq<char>>, u64)>) -> bool {
    forall|i: int, j: int| 0 <= i < j < s.len() ==> #[trigger] s[i].0 != #[trigger] s[j].0
}

/// A request keeps the sessions one per id, and a goodbye from a session
/// leaves no session with its id.
pub proof fn lemma_a_request_keeps_one_session_per_id(
    s: Seq<(Seq<char>, Option<Seq<char>>, u64)>,
    session: Option<Seq<char>>,
    deleting: bool,
    client: Option<Seq<char>>,
    now: u64,
)
    requires
        distinct_ids(s),
    ensures
        distinct_ids(sessions_after_request(s, session, deleting, client, now)),
        deleting && session is Some ==> forall|j: int|
            0 <= j < sessions_after_request(s, session, deleting, client, now).len() ==> #[trigger] sessions_after_request(
                s,
                session,
                deleting,
                client,
                now,
            )[j].0 != session->Some_0,
{
    let after = sessions_after_request(s, session, deleting, client, now);
    if let Some(id) = session {
        lemma_index_of(s, id);
        match index_of(s, id) {
            Some(i) => {
                if deleting {
                    assert forall|a: int, b: int| 0 <= a < b < after.len() implies #[trigger] after[a].0 != #[trigger] after[b].0 by {
                        let a2 = if a < i { a } else { a + 1 };
                        let b2 = if b < i { b } else { b + 1 };
                        assert(after[a] == s[a2] && after[b] == s[b2]);
                    }
                    assert forall|j: int| 0 <= j < after.len() implies #[trigger] after[j].0 != id by {
                        let j2 = if j < i { j } else { j + 1 };
                        assert(after[j] == s[j2]);
                    }
                } else {
                    assert forall|a: int, b: int| 0 <= a < b < after.len() implies #[trigger] after[a].0 != #[trigger] after[b].0 by {
                        assert(after[a].0 == s[a].0 && after[b].0 == s[b].0);
                    }
                }
            },
            None => {
                if !deleting {
                    assert forall|a: int, b: int| 0 <= a < b < after.len() implies #[trigger] after[a].0 != #[trigger] after[b].0 by {
                        if b == s.len() {
                            assert(after[a] == s[a]);
                        } else {
                            assert(after[a] == s[a] && after[b] == s[b]);
                        }
                    }
                }
            },
        }
    }
}

/// A reply keeps the sessions one per id.
pub proof fn lemma_a_reply_keeps_one_session_per_id(
    s: Seq<(Seq<char>, Option<Seq<char>>, u64)>,
    session: Option<Seq<char>>,
    client: Option<Seq<char>>,
    now: u64,
)
    requires
        distinct_ids(s),
    ensures
        distinct_ids(sessions_after_reply(s, session, client, now)),
{
    let after = sessions_after_reply(s, session, client, now);
    if let Some(id) = session {
        lemma_index_of(s, id);
        assert forall|a: int, b: int| 0 <= a < b < after.len() implies #[trigger] after[a].0 != #[trigger] after[b].0 by {
            if b < s.len() {
                assert(after[a].0 == s[a].0 && after[b].0 == s[b].0);
            } else {
                assert(after[a] == s[a]);
            }
        }
    }
}

/// Forgetting idle sessions keeps them one per id: what is kept is taken
/// from what there was.
pub proof fn lemma_forgetting_keeps_one_session_per_id(s: Seq<(Seq<char>, Option<Seq<char>>, u64)>, now: u64)
    requires
        distinct_ids(s),
    ensures
        distinct_ids(kept(s, now)),
        forall|k: int| 0 <= k < kept(s, now).len() ==> s.contains(#[trigger] kept(s, now)[k]),
    decreases s.len(),
{
    if s.len() > 0 {
        let d = s.drop_last();
        assert(distinct_ids(d)) by {
            assert forall|a: int, b: int| 0 <= a < b < d.len() implies #[trigger] d[a].0 != #[trigger] d[b].0 by {
                assert(d[a] == s[a] && d[b] == s[b]);
            }
        }
        lemma_forgetting_keeps_one_session_per_id(d, now);
        let kd = kept(d, now);
        assert forall|k: int| 0 <= k < kd.len() implies s.contains(#[trigger] kd[k]) by {
            let j = choose|j: int| 0 <= j < d.len() && d[j] == kd[k];
            assert(s[j] == kd[k]);
        }
        if live(since(s.last().2, now)) {
            let kk = kd.push(s.last());
            assert forall|k: int| 0 <= k < kk.len() implies s.contains(#[trigger] kk[k]) by {
                if k == kd.len() {
                    assert(s[s.len() - 1] == kk[k]);
                } else {
                    assert(kk[k] == kd[k]);
                }
            }
            assert forall|a: int, b: int| 0 <= a < b < kk.len() implies #[trigger] kk[a].0 != #[trigger] kk[b].0 by {
                if b == kd.len() {
                    assert(kk[a] == kd[a]);
                    let j = choose|j: int| 0 <= j < d.len() && d[j] == kd[a];
                    assert(s[j] == d[j]);
                } else {
                    assert(kk[a] == kd[a] && kk[b] == kd[b]);
                }
            }
        }
    }
}

/// The most a request body may hold; these are small JSON documents, and the
/// limit still refuses to hold an unbounded upload in memory.
pub const BODY_LIMIT: usize = 32 * 1024 * 1024;

/// What a request over the limit is answered, with a 413.
pub const TOO_LARGE: &'static str = "the MCP request body is larger than 32 MB; send the script itself, not a mesh";

/// Whether a body of this many bytes is refused rather than read.
pub fn too_large(len: usize) -> (b: bool)
    ensures
        b == (len > BODY_LIMIT),
{
    len > BODY_LIMIT
}

/// What a client says of itself in a handshake's `params.clientInfo`: its
/// `name` and `version` when present (each its text when a string), and the
/// whole object as JSON writes it.
pub struct ClientInfo {
    pub name: Option<Option<String>>,
    pub version: Option<Option<String>>,
    pub text: String,
}

/// What the bookkeeping reads of a JSON-RPC request: the `method`, the
/// `params.name` of a tool call, and the `params.clientInfo` of a handshake;
/// each absent where the body is not JSON or holds no such text.
pub struct RpcFields {
    pub method: Option<String>,
    pub tool: Option<String>,
    pub client_info: Option<ClientInfo>,
}

/// A field that may be absent and, when present, may not be a string.
pub open spec fn maybe_text_view(t: Option<Option<String>>) -> Option<Option<Seq<char>>> {
    match t {
        Some(v) => Some(text_view(v)),
        None => None,
    }
}

/// A client's own account of itself, as values.
pub open spec fn client_info_view(c: Option<ClientInfo>) -> Option<(Option<Option<Seq<char>>>, Option<Option<Seq<char>>>, Seq<char>)> {
    match c {
        Some(i) => Some((maybe_text_view(i.name), maybe_text_view(i.version), i.text@)),
        None => None,
    }
}

/// What `serde_json` reads of a request body: `method`, `params.name` and
/// `params.clientInfo` as `rpc_fields_view` shows them.
pub uninterp spec fn rpc_fields(body: Seq<u8>) -> (
    Option<Seq<char>>,
    Option<Seq<char>>,
    Option<(Option<Option<Seq<char>>>, Option<Option<Seq<char>>>, Seq<char>)>,
);

/// The fields, as values.
pub open spec fn rpc_fields_view(f: RpcFields) -> (
    Option<Seq<char>>,
    Option<Seq<char>>,
    Option<(Option<Option<Seq<char>>>, Option<Option<Seq<char>>>, Seq<char>)>,
) {
    (text_view(f.method), text_view(f.tool), client_info_view(f.client_info))
}

/// `serde_json::from_slice` into a `Value`, then its `method`,
/// `/params/name` and `/params/clientInfo` (with that object's `name`,
/// `version` and JSON text). Trusted to be a function of the body alone.
#[verifier::external_body]
fn read_rpc(body: &[u8]) -> (f: RpcFields)
    ensures
        rpc_fields_view(f) == rpc_fields(body@),
{
    let call: Option<serde_json::Value> = serde_json::from_slice(body).ok();
    let text = |v: Option<&serde_json::Value>| v.and_then(|v| v.as_str()).map(str::to_string);
    let info = call.as_ref().and_then(|c| c.pointer("/params/clientInfo"));
    RpcFields {
        method: text(call.as_ref().and_then(|c| c.get("method"))),
        tool: text(call.as_ref().and_then(|c| c.pointer("/params/name"))),
        client_info: info.map(|i| ClientInfo {
            name: i.get("name").map(|v| text(Some(v))),
            version: i.get("version").map(|v| text(Some(v))),
            text: i.to_string(),
        }),
    }
}

/// A text, or `?` where there is none.
pub open spec fn or_unknown(t: Option<Seq<char>>) -> Seq<char> {
    match t {
        Some(s) => s,
        None => "?"@,
    }
}

/// How a client is shown: "name version" when it gave both (a `?` for
/// either that is not a string), otherwise what it sent, as JSON writes it.
pub open spec fn client_text(
    info: Option<(Option<Option<Seq<char>>>, Option<Option<Seq<char>>>, Seq<char>)>,
) -> Option<Seq<char>> {
    match info {
        None => None,
        Some((name, version, text)) => match (name, version) {
            (Some(n), Some(v)) => Some(or_unknown(n) + " "@ + or_unknown(v)),
            _ => Some(text),
        },
    }
}

fn push_or_unknown(s: &mut String, t: &Option<String>)
    ensures
        final(s)@ == old(s)@ + or_unknown(text_view(*t)),
{
    match t {
        Some(x) => push_str(s, x.as_str()),
        None => push_str(s, "?"),
    }
}

/// How a client is shown, from what it said of itself.
pub fn client_of(info: &Option<ClientInfo>) -> (r: Option<String>)
    ensures
        text_view(r) == client_text(client_info_view(*info)),
{
    match info {
        None => None,
        Some(i) => match (&i.name, &i.version) {
            (Some(n), Some(v)) => {
                let mut s = String::new();
                push_or_unknown(&mut s, n);
                push_str(&mut s, " ");
                push_or_unknown(&mut s, v);
                Some(s)
            },
            _ => Some(i.text.clone()),
        },
    }
}

fn find_session(sessions: &Vec<ClientSession>, id: &str) -> (r: Option<usize>)
    ensures
        r matches Some(i) ==> index_of(sessions_view(sessions@), id@) == Some(i as int) && i < sessions@.len(),
        r is None ==> index_of(sessions_view(sessions@), id@) is None,
{
    let ghost v = sessions_view(sessions@);
    let mut i: usize = 0;
    while i < sessions.len()
        invariant
            i <= sessions@.len(),
            v == sessions_view(sessions@),
            forall|j: int| 0 <= j < i ==> v[j].0 != id@,
        decreases sessions@.len() - i,
    {
        if str_eq(sessions[i].id.as_str(), id) {
            proof {
                lemma_index_of(v, id@);
                if index_of(v, id@) != Some(i as int) {
                    assert(v[i as int].0 == id@);
                }
            }
            return Some(i);
        }
        i = i + 1;
    }
    proof {
        lemma_index_of(v, id@);
    }
    None
}

fn copy_text(t: &Option<String>) -> (r: Option<String>)
    ensures
        text_view(r) == text_view(*t),
{
    match t {
        Some(s) => Some(s.clone()),
        None => None,
    }
}

impl Activity {
    /// Note a request from its body on its way through: the body is read as
    /// JSON-RPC for its method, tool and client, then noted as
    /// `note_request` notes it.
    pub fn note_body(&mut self, session: Option<&str>, deleting: bool, body: &[u8], now: u64)
        requires
            old(self).tool_calls < u64::MAX,
        ensures
            final(self).last_seen == Some(now),
            text_view(final(self).client) == if client_text(rpc_fields(body@).2) is Some {
                client_text(rpc_fields(body@).2)
            } else {
                text_view(old(self).client)
            },
            rpc_fields(body@).0 == Some("tools/call"@) ==> final(self).tool_calls == old(self).tool_calls + 1
                && text_view(final(self).last_tool) == rpc_fields(body@).1,
            rpc_fields(body@).0 != Some("tools/call"@) ==> final(self).tool_calls == old(self).tool_calls
                && text_view(final(self).last_tool) == text_view(old(self).last_tool),
            sessions_view(final(self).sessions@) == sessions_after_request(
                sessions_view(old(self).sessions@),
                match session {
                    Some(id) => Some(id@),
                    None => None,
                },
                deleting,
                client_text(rpc_fields(body@).2),
                now,
            ),
    {
        let fields = read_rpc(body);
        let client = client_of(&fields.client_info);
        let method = match &fields.method {
            Some(m) => Some(m.as_str()),
            None => None,
        };
        self.note_request(session, deleting, method, client, fields.tool, now);
    }

    /// Note a request on its way through: who sent it, what it called, and
    /// which session it belongs to, at `now`.
    pub fn note_request(
        &mut self,
        session: Option<&str>,
        deleting: bool,
        rpc_method: Option<&str>,
        client: Option<String>,
        tool: Option<String>,
        now: u64,
    )
        requires
            old(self).tool_calls < u64::MAX,
        ensures
            final(self).last_seen == Some(now),
            text_view(final(self).client) == if client is Some {
                text_view(client)
            } else {
                text_view(old(self).client)
            },
            rpc_method matches Some(m) && m@ == "tools/call"@ ==> final(self).tool_calls == old(self).tool_calls + 1
                && text_view(final(self).last_tool) == text_view(tool),
            !(rpc_method matches Some(m) && m@ == "tools/call"@) ==> final(self).tool_calls == old(self).tool_calls
                && text_view(final(self).last_tool) == text_view(old(self).last_tool),
            sessions_view(final(self).sessions@) == sessions_after_request(
                sessions_view(old(self).sessions@),
                match session {
                    Some(id) => Some(id@),
                    None => None,
                },
                deleting,
                text_view(client),
                now,
            ),
    {
        self.last_seen = Some(now);
        match &client {
            Some(name) => {
                self.client = Some(name.clone());
            },
            None => {},
        }
        let calls = match rpc_method {
            Some(m) => str_eq(m, "tools/call"),
            None => false,
        };
        if calls {
            self.tool_calls = self.tool_calls + 1;
            self.last_tool = tool;
        }
        match session {
            None => {},
            Some(id) => {
                let ghost before = sessions_view(self.sessions@);
                match find_session(&self.sessions, id) {
                    Some(i) => {
                        if deleting {
                            self.sessions.remove(i);
                            assert(sessions_view(self.sessions@) =~= before.remove(i as int));
                        } else {
                            let kept_client = if self.sessions[i].client.is_some() {
                                copy_text(&self.sessions[i].client)
                            } else {
                                copy_text(&client)
                            };
                            let entry = ClientSession { id: String::from_str(id), client: kept_client, last_seen: now };
                            self.sessions.set(i, entry);
                            assert(sessions_view(self.sessions@) =~= before.update(
                                i as int,
                                (id@, if before[i as int].1 is Some { before[i as int].1 } else { text_view(client) }, now),
                            ));
                        }
                    },
                    None => {
                        if !deleting {
                            let entry = ClientSession { id: String::from_str(id), client: copy_text(&client), last_seen: now };
                            self.sessions.push(entry);
                            assert(sessions_view(self.sessions@) =~= before.push((id@, text_view(client), now)));
                        }
                    },
                }
            },
        }
    }

    /// Note the session a reply names, at `now`.
    pub fn note_reply(&mut self, session: Option<&str>, client: Option<String>, now: u64)
        ensures
            final(self).last_seen == old(self).last_seen,
            text_view(final(self).client) == text_view(old(self).client),
            final(self).tool_calls == old(self).tool_calls,
            text_view(final(self).last_tool) == text_view(old(self).last_tool),
            sessions_view(final(self).sessions@) == sessions_after_reply(
                sessions_view(old(self).sessions@),
                match session {
                    Some(id) => Some(id@),
                    None => None,
                },
                text_view(client),
                now,
            ),
    {
        match session {
            None => {},
            Some(id) => {
                let ghost before = sessions_view(self.sessions@);
                match find_session(&self.sessions, id) {
                    Some(i) => {
                        let c = copy_text(&self.sessions[i].client);
                        let entry = ClientSession { id: String::from_str(id), client: c, last_seen: now };
                        self.sessions.set(i, entry);
                        assert(sessions_view(self.sessions@) =~= before.update(i as int, (id@, before[i as int].1, now)));
                    },
                    None => {
                        let entry = ClientSession { id: String::from_str(id), client: copy_text(&client), last_seen: now };
                        self.sessions.push(entry);
                        assert(sessions_view(self.sessions@) =~= before.push((id@, text_view(client), now)));
                    },
                }
            },
        }
    }
}

/// What the app has seen an agent do, at `now`: sessions silent past the
/// idle limit are forgotten first, so a client that exits without hanging
/// up is not shown connected forever.
pub fn status(activity: &mut Activity, now: u64, port: u16) -> (s: Status)
    ensures
        sessions_view(final(activity).sessions@) == kept(sessions_view(old(activity).sessions@), now),
        final(activity).tool_calls == old(activity).tool_calls,
        final(activity).last_seen == old(activity).last_seen,
        text_view(final(activity).client) == text_view(old(activity).client),
        text_view(final(activity).last_tool) == text_view(old(activity).last_tool),
        s.clients == kept(sessions_view(old(activity).sessions@), now).len(),
        text_view(s.client) == text_view(old(activity).client),
        s.tool_calls == old(activity).tool_calls,
        text_view(s.last_tool) == text_view(old(activity).last_tool),
        s.idle_secs == match old(activity).last_seen {
            Some(at) => Some(since(at, now)),
            None => None,
        },
        s.url@ == mcp_url(port),
{
    let ghost all = sessions_view(activity.sessions@);
    let mut i: usize = 0;
    let ghost mut j: int = 0;
    assert(all.skip(0) == all);
    while i < activity.sessions.len()
        invariant
            0 <= j <= all.len(),
            sessions_view(activity.sessions@) == kept(all.take(j), now) + all.skip(j),
            i == kept(all.take(j), now).len(),
            activity.tool_calls == old(activity).tool_calls,
            activity.last_seen == old(activity).last_seen,
            text_view(activity.client) == text_view(old(activity).client),
            text_view(activity.last_tool) == text_view(old(activity).last_tool),
            all == sessions_view(old(activity).sessions@),
        decreases all.len() - j,
    {
        let ghost cur = sessions_view(activity.sessions@);
        proof {
            assert(cur[i as int] == all[j]);
            assert(all.take(j + 1).drop_last() == all.take(j));
            assert(all.take(j + 1).last() == all[j]);
        }
        let seen = activity.sessions[i].last_seen;
        let idle = if now >= seen { now - seen } else { 0 };
        if is_live(idle) {
            i = i + 1;
            proof {
                assert(sessions_view(activity.sessions@) =~= kept(all.take(j + 1), now) + all.skip(j + 1));
            }
        } else {
            let ghost before = activity.sessions@;
            activity.sessions.remove(i);
            proof {
                assert(idle == since(all[j].2, now));
                assert(kept(all.take(j + 1), now) == kept(all.take(j), now));
                assert(sessions_view(activity.sessions@) =~= sessions_view(before).remove(i as int));
                assert(sessions_view(activity.sessions@) =~= kept(all.take(j + 1), now) + all.skip(j + 1));
            }
        }
        proof {
            j = j + 1;
        }
    }
    proof {
        assert(j == all.len());
        assert(all.take(j) == all);
        assert(all.skip(j).len() == 0);
        assert(sessions_view(activity.sessions@) =~= kept(all, now));
    }
    let clients = activity.sessions.len();
    let idle_secs = match activity.last_seen {
        Some(at) => Some(if now >= at { now - at } else { 0 }),
        None => None,
    };
    let mut url = String::new();
    push_str(&mut url, "http://127.0.0.1:");
    push_str(&mut url, decimal_string(port as u64).as_str());
    push_str(&mut url, "/mcp");
    Status {
        clients,
        client: copy_text(&activity.client),
        tool_calls: activity.tool_calls,
        last_tool: copy_text(&activity.last_tool),
        idle_secs,
        url,
    }
}

} // verus!
