//! The frontend the command-line server carries, looked up by path.

use vstd::prelude::*;
use crate::text::{chars_of, str_eq, string_of};

verus! {

/// One file of the embedded frontend, as it is served.
pub struct Asset {
    pub mime_type: String,
    pub bytes: Vec<u8>,
}

/// Whether the server was built with a frontend to serve: the embedded
/// table, `(path, bytes)` for each file, has anything in it.
pub fn carries_ui(ui: &[(&str, &[u8])]) -> (b: bool)
    ensures
        b == (ui@.len() > 0),
{
    ui.len() > 0
}

/// The text after the last `.` of a path, or the whole path when it has none.
pub open spec fn extension(path: Seq<char>) -> Seq<char>
    decreases path.len(),
{
    if path.len() == 0 {
        path
    } else if path.last() == '.' {
        Seq::empty()
    } else {
        extension(path.drop_last()).push(path.last())
    }
}

/// The content type a file of this extension is served as; an unknown one
/// is served as a download.
pub open spec fn mime_of(ext: Seq<char>) -> Seq<char> {
    if ext == "html"@ {
        "text/html; charset=utf-8"@
    } else if ext == "js"@ {
        "text/javascript; charset=utf-8"@
    } else if ext == "css"@ {
        "text/css; charset=utf-8"@
    } else if ext == "svg"@ {
        "image/svg+xml"@
    } else if ext == "png"@ {
        "image/png"@
    } else if ext == "ico"@ {
        "image/x-icon"@
    } else if ext == "json"@ || ext == "webmanifest"@ {
        "application/json"@
    } else if ext == "woff2"@ {
        "font/woff2"@
    } else if ext == "woff"@ {
        "font/woff"@
    } else if ext == "wasm"@ {
        "application/wasm"@
    } else if ext == "txt"@ {
        "text/plain; charset=utf-8"@
    } else {
        "application/octet-stream"@
    }
}

/// A path's extension, as text.
fn extension_of(path: &str) -> (e: String)
    ensures
        e@ == extension(path@),
{
    let cs = chars_of(path);
    let mut start = cs.len();
    assert(cs@.take(start as int) == cs@);
    assert(cs@.subrange(start as int, cs@.len() as int) =~= Seq::<char>::empty());
    assert(extension(path@) + Seq::<char>::empty() == extension(path@));
    while start > 0 && cs[start - 1] != '.'
        invariant
            start <= cs@.len(),
            cs@ == path@,
            extension(path@) == extension(cs@.take(start as int)) + cs@.subrange(start as int, cs@.len() as int),
        decreases start,
    {
        let ghost t = cs@.take(start as int);
        assert(t.drop_last() == cs@.take(start - 1));
        assert(cs@.subrange(start - 1, cs@.len() as int) == seq![cs@[start - 1]] + cs@.subrange(
            start as int,
            cs@.len() as int,
        ));
        start = start - 1;
    }
    proof {
        assert(cs@.take(cs@.len() as int) == cs@);
    }
    let mut out: Vec<char> = Vec::new();
    let mut k = start;
    while k < cs.len()
        invariant
            start <= k <= cs@.len(),
            out@ == cs@.subrange(start as int, k as int),
        decreases cs@.len() - k,
    {
        out.push(cs[k]);
        k = k + 1;
    }
    assert(extension(cs@.take(start as int)) == Seq::<char>::empty());
    assert(extension(path@) == out@);
    string_of(out.as_slice())
}

/// The content type of a path, by extension, which is all a static bundle
/// needs.
pub fn mime_type(path: &str) -> (m: &'static str)
    ensures
        m@ == mime_of(extension(path@)),
{
    let e = extension_of(path);
    let e = e.as_str();
    if str_eq(e, "html") {
        "text/html; charset=utf-8"
    } else if str_eq(e, "js") {
        "text/javascript; charset=utf-8"
    } else if str_eq(e, "css") {
        "text/css; charset=utf-8"
    } else if str_eq(e, "svg") {
        "image/svg+xml"
    } else if str_eq(e, "png") {
        "image/png"
    } else if str_eq(e, "ico") {
        "image/x-icon"
    } else if str_eq(e, "json") || str_eq(e, "webmanifest") {
        "application/json"
    } else if str_eq(e, "woff2") {
        "font/woff2"
    } else if str_eq(e, "woff") {
        "font/woff"
    } else if str_eq(e, "wasm") {
        "application/wasm"
    } else if str_eq(e, "txt") {
        "text/plain; charset=utf-8"
    } else {
        "application/octet-stream"
    }
}

/// The frontend embedded in the server.
pub struct Embedded;

impl Embedded {
    /// The file at `path` in the embedded table, with its content type.
    pub fn get(&self, ui: &[(&str, &[u8])], path: &str) -> (a: Option<Asset>)
        ensures
            a is Some <==> exists|i: int| 0 <= i < ui@.len() && (#[trigger] ui@[i]).0@ == path@,
            a matches Some(asset) ==> exists|i: int|
                0 <= i < ui@.len() && (#[trigger] ui@[i]).0@ == path@ && asset.bytes@ == ui@[i].1@ && asset.mime_type@
                    == mime_of(extension(path@)) && forall|j: int| 0 <= j < i ==> (#[trigger] ui@[j]).0@ != path@,
    {
        let mut i: usize = 0;
        while i < ui.len()
            invariant
                i <= ui@.len(),
                forall|j: int| 0 <= j < i ==> (#[trigger] ui@[j]).0@ != path@,
            decreases ui@.len() - i,
        {
            let (name, bytes) = ui[i];
            if str_eq(name, path) {
                let mut copy: Vec<u8> = Vec::new();
                let mut k: usize = 0;
                while k < bytes.len()
                    invariant
                        k <= bytes@.len(),
                        copy@ == bytes@.take(k as int),
                    decreases bytes@.len() - k,
                {
                    copy.push(bytes[k]);
                    k = k + 1;
                    assert(bytes@.take(k as int) == bytes@.take(k - 1).push(bytes@[k - 1]));
                }
                assert(bytes@.take(bytes@.len() as int) == bytes@);
                return Some(Asset { mime_type: String::from_str(mime_type(path)), bytes: copy });
            }
            i = i + 1;
        }
        None
    }

    /// What a server built before its frontend tells a browser.
    pub fn how_to_embed(&self) -> (s: String)
        ensures
            s@ == HOW_TO_EMBED@,
    {
        String::from_str(HOW_TO_EMBED)
    }
}

/// How to build a server that carries its frontend.
pub const HOW_TO_EMBED: &'static str = "This `parcad` was built before the frontend. Build it and rebuild the CLI: \
    cd app && bun run build && cargo build --release -p parcad-cli";

} // verus!
