//! Where parts live: one folder of `.js` scripts that the window, a browser
//! and an agent all read and write. This module holds the rule that keeps a
//! project name a name; the folder itself is the application's to find.

use vstd::prelude::*;
use crate::text::{chars_of, quoted, debug_string, push_str};

verus! {

/// `s` holds `t` somewhere.
pub open spec fn has_infix(s: Seq<char>, t: Seq<char>) -> bool {
    exists|i: int| 0 <= i && i + t.len() <= s.len() && #[trigger] s.subrange(i, i + t.len()) == t
}

/// A bare project name: something, with no directory part, so a single
/// path component on every platform parcad runs on. Besides the separators
/// and `..`, a colon is refused: on Windows `C:x` is a drive prefix and a
/// name, two components, and joined to the project folder it leaves it.
pub open spec fn is_project_name(name: Seq<char>) -> bool {
    &&& name.len() > 0
    &&& !name.contains('/')
    &&& !name.contains('\\')
    &&& !name.contains(':')
    &&& !has_infix(name, seq!['.', '.'])
}

/// A character every plain name may hold: an ASCII letter or digit, a
/// hyphen, an underscore or a space.
pub open spec fn plain_name_char(c: char) -> bool {
    ('a' <= c && c <= 'z') || ('A' <= c && c <= 'Z') || ('0' <= c && c <= '9') || c == '-' || c == '_' || c == ' '
}

/// Any name written in letters, digits, hyphens, underscores and spaces is a
/// project name, so `path_of` gives it its `.js` file.
pub proof fn lemma_a_plain_name_is_a_project_name(name: Seq<char>)
    requires
        name.len() > 0,
        forall|i: int| 0 <= i < name.len() ==> plain_name_char(#[trigger] name[i]),
    ensures
        is_project_name(name),
{
    assert(!name.contains('/'));
    assert(!name.contains('\\'));
    assert(!name.contains(':'));
    if has_infix(name, seq!['.', '.']) {
        let k = choose|k: int| 0 <= k && k + 2 <= name.len() && #[trigger] name.subrange(k, k + 2) == seq!['.', '.'];
        assert(name.subrange(k, k + 2)[0] == name[k]);
    }
}

/// Only an empty name, a separator, a colon or a `..` makes a name refused.
pub proof fn lemma_only_a_location_is_refused(name: Seq<char>)
    requires
        !is_project_name(name),
    ensures
        name.len() == 0 || name.contains('/') || name.contains('\\') || name.contains(':') || has_infix(
            name,
            seq!['.', '.'],
        ),
{
}

/// A name that is empty, holds a separator or a colon, or holds `..` is
/// refused: no name can address a location.
pub proof fn lemma_a_location_is_refused(name: Seq<char>)
    requires
        name.len() == 0 || name.contains('/') || name.contains('\\') || name.contains(':') || exists|k: int|
            0 <= k && k + 1 < name.len() && #[trigger] name[k] == '.' && name[k + 1] == '.',
    ensures
        !is_project_name(name),
{
    if exists|k: int| 0 <= k && k + 1 < name.len() && #[trigger] name[k] == '.' && name[k + 1] == '.' {
        let k = choose|k: int| 0 <= k && k + 1 < name.len() && #[trigger] name[k] == '.' && name[k + 1] == '.';
        assert(name.subrange(k, k + 2) =~= seq!['.', '.']);
    }
}

/// Position `k` of `s` holds a separator or a colon, or starts a `..`.
pub open spec fn bad_at(s: Seq<char>, k: int) -> bool {
    s[k] == '/' || s[k] == '\\' || s[k] == ':' || (k + 1 < s.len() && s[k] == '.' && s[k + 1] == '.')
}

/// What a refused name is told.
pub open spec fn not_a_name(name: Seq<char>) -> Seq<char> {
    quoted(name) + NOT_A_NAME@
}

/// The rest of the refusal, after the name.
pub const NOT_A_NAME: &'static str = " is not a project name. Names are bare, with no directory part and no \
    extension, such as \"bracket\".";

/// Resolve a project name to the file it is kept in, inside the project
/// folder, refusing anything that is not a name. A name must never be able
/// to address a location: separators and `..` are refused outright rather
/// than sanitised toward a guess.
pub fn path_of(name: &str) -> (r: Result<String, String>)
    ensures
        is_project_name(name@) ==> (r matches Ok(file) && file@ == name@ + ".js"@),
        !is_project_name(name@) ==> (r matches Err(e) && e@ == not_a_name(name@)),
{
    let cs = chars_of(name);
    let mut ok = cs.len() > 0;
    let mut i: usize = 0;
    while i < cs.len()
        invariant
            cs@ == name@,
            i <= cs.len(),
            ok == (cs.len() > 0 && forall|k: int| 0 <= k < i ==> !#[trigger] bad_at(cs@, k)),
        decreases cs.len() - i,
    {
        let c = cs[i];
        let bad = c == '/' || c == '\\' || c == ':' || (i + 1 < cs.len() && c == '.' && cs[i + 1] == '.');
        assert(bad == bad_at(cs@, i as int));
        if bad {
            ok = false;
        }
        i = i + 1;

    }
    proof {
        let s = name@;
        let dd = seq!['.', '.'];
        if ok {
            assert(!s.contains('/')) by {
                if s.contains('/') {
                    let k = choose|k: int| 0 <= k < s.len() && s[k] == '/';
                    assert(!bad_at(cs@, k));
                }
            }
            assert(!s.contains('\\')) by {
                if s.contains('\\') {
                    let k = choose|k: int| 0 <= k < s.len() && s[k] == '\\';
                    assert(!bad_at(cs@, k));
                }
            }
            assert(!s.contains(':')) by {
                if s.contains(':') {
                    let k = choose|k: int| 0 <= k < s.len() && s[k] == ':';
                    assert(!bad_at(cs@, k));
                }
            }
            assert(!has_infix(s, dd)) by {
                if has_infix(s, dd) {
                    let k = choose|k: int| 0 <= k && k + dd.len() <= s.len() && #[trigger] s.subrange(k, k + dd.len()) == dd;
                    assert(s.subrange(k, k + 2)[0] == s[k]);
                    assert(s.subrange(k, k + 2)[1] == s[k + 1]);
                    assert(!bad_at(cs@, k));
                }
            }
        } else if s.len() > 0 {
            let k = choose|k: int| 0 <= k < s.len() && #[trigger] bad_at(cs@, k);
            if cs@[k] == '/' {
                assert(s.contains('/'));
            } else if cs@[k] == '\\' {
                assert(s.contains('\\'));
            } else if cs@[k] == ':' {
                assert(s.contains(':'));
            } else {
                assert(s.subrange(k, k + 2) == dd);
                assert(has_infix(s, dd));
            }
        }
    }
    if ok {
        let mut file = String::from_str(name);
        push_str(&mut file, ".js");
        Ok(file)
    } else {
        let mut e = debug_string(name);
        push_str(&mut e, NOT_A_NAME);
        Err(e)
    }
}

} // verus!
