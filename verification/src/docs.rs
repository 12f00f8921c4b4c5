//! What parcad can tell a reader about its own language, before they write.
//!
//! The language reference is derived from the DSL's TypeScript source every
//! time it is asked for, rather than written beside it: a copy authored
//! separately quietly describes an older language when its source changes.
//! This module reads that source as text, declaration by declaration, and
//! serves it with the prose documents the host ships.

use vstd::prelude::*;
use crate::scan::{
    append, begins, begins_at, copy_range, join_rows, joined, next_char, drop_lead, lemma_lines_bounded, lines_of, split_lines, ends, ends_with, find, find_chars, lemma_find_bounds, next_of, rows,
    strip_lead, replace, replaced, squeeze, squeezed, trim, trim_end,
    trim_end_matches, trim_end_matches_spec, trim_end_spec, trim_spec, trim_start, trim_start_matches,
    trim_start_matches_spec, trim_start_spec,
};
use crate::text::{alnum, chars_of, quoted, debug_string, is_alphanumeric, push_str, same_chars, str_eq, string_of};

verus! {

/// A character a TypeScript name may hold.
pub open spec fn is_ident_char(c: char) -> bool {
    alnum(c) || c == '_' || c == '$'
}

/// Where the run of name characters starting at `i` ends.
pub open spec fn ident_end(t: Seq<char>, i: int) -> int
    decreases t.len() - i,
{
    if 0 <= i < t.len() && is_ident_char(t[i]) {
        ident_end(t, i + 1)
    } else {
        i
    }
}

pub proof fn lemma_ident_end(t: Seq<char>, i: int)
    requires
        0 <= i <= t.len(),
    ensures
        i <= ident_end(t, i) <= t.len(),
    decreases t.len() - i,
{
    if i < t.len() && is_ident_char(t[i]) {
        lemma_ident_end(t, i + 1);
    }
}

/// The name `t` starts with, if it starts with one.
pub open spec fn identifier_spec(t: Seq<char>) -> Option<Seq<char>> {
    let n = ident_end(t, 0);
    if n <= 0 {
        None
    } else {
        Some(t.take(n))
    }
}

/// The name at the start of `text`.
fn identifier(text: &[char]) -> (r: Option<Vec<char>>)
    ensures
        r matches Some(v) ==> identifier_spec(text@) == Some(v@),
        r is None ==> identifier_spec(text@) is None,
{
    let mut n: usize = 0;
    while n < text.len() && (is_alphanumeric(text[n]) || text[n] == '_' || text[n] == '$')
        invariant
            n <= text@.len(),
            ident_end(text@, 0) == ident_end(text@, n as int),
        decreases text@.len() - n,
    {
        n = n + 1;
    }
    if n == 0 {
        None
    } else {
        Some(copy_range(text, 0, n))
    }
}

/// The classes a script calls into, whose methods are half the language.
#[derive(Debug, Clone, Copy, PartialEq, Eq, Structural)]
pub enum Class {
    Shape,
    EdgeSelection,
    VertexSelection,
}

impl Class {
    pub open spec fn name_spec(self) -> Seq<char> {
        match self {
            Class::Shape => "Shape"@,
            Class::EdgeSelection => "EdgeSelection"@,
            Class::VertexSelection => "VertexSelection"@,
        }
    }

    pub fn name(self) -> (s: &'static str)
        ensures
            s@ == self.name_spec(),
    {
        match self {
            Class::Shape => "Shape",
            Class::EdgeSelection => "EdgeSelection",
            Class::VertexSelection => "VertexSelection",
        }
    }
}

/// The documented class of this name, if it is one.
pub open spec fn class_named(name: Seq<char>) -> Option<Class> {
    if name == Class::Shape.name_spec() {
        Some(Class::Shape)
    } else if name == Class::EdgeSelection.name_spec() {
        Some(Class::EdgeSelection)
    } else if name == Class::VertexSelection.name_spec() {
        Some(Class::VertexSelection)
    } else {
        None
    }
}

fn class_of(name: &Vec<char>) -> (c: Option<Class>)
    ensures
        c == class_named(name@),
{
    let shape = chars_of(Class::Shape.name());
    let edges = chars_of(Class::EdgeSelection.name());
    let vertices = chars_of(Class::VertexSelection.name());
    if same_chars(name, &shape) {
        Some(Class::Shape)
    } else if same_chars(name, &edges) {
        Some(Class::EdgeSelection)
    } else if same_chars(name, &vertices) {
        Some(Class::VertexSelection)
    } else {
        None
    }
}

/// Where a name lives, which is also how it is called.
#[derive(Debug, Clone, Copy, PartialEq, Eq, Structural)]
pub enum Kind {
    Function,
    Value,
    Type,
    /// A method on the named class.
    Method(Class),
}

/// What the keyword after `export` declares.
pub open spec fn keyword_kind(keyword: Seq<char>) -> Option<Kind> {
    if keyword == "function"@ {
        Some(Kind::Function)
    } else if keyword == "const"@ || keyword == "let"@ {
        Some(Kind::Value)
    } else if keyword == "class"@ || keyword == "interface"@ || keyword == "type"@ || keyword == "enum"@ {
        Some(Kind::Type)
    } else {
        None
    }
}

/// A declaration at column zero: `export function box(` and friends.
pub open spec fn top_level_spec(line: Seq<char>) -> Option<(Kind, Seq<char>)> {
    if !begins(line, "export "@) {
        None
    } else {
        let rest = line.skip("export "@.len() as int);
        let rest = if begins(rest, "async "@) {
            rest.skip("async "@.len() as int)
        } else {
            rest
        };
        let sp = next_of(rest, ' ', 0);
        if sp >= rest.len() {
            None
        } else {
            match keyword_kind(rest.take(sp)) {
                None => None,
                Some(kind) => match identifier_spec(rest.skip(sp + 1)) {
                    None => None,
                    Some(name) => Some((kind, name)),
                },
            }
        }
    }
}

fn keyword_kind_of(keyword: &Vec<char>) -> (k: Option<Kind>)
    ensures
        k == keyword_kind(keyword@),
{
    if same_chars(keyword, &chars_of("function")) {
        Some(Kind::Function)
    } else if same_chars(keyword, &chars_of("const")) || same_chars(keyword, &chars_of("let")) {
        Some(Kind::Value)
    } else if same_chars(keyword, &chars_of("class")) || same_chars(keyword, &chars_of("interface"))
        || same_chars(keyword, &chars_of("type")) || same_chars(keyword, &chars_of("enum")) {
        Some(Kind::Type)
    } else {
        None
    }
}

/// The kind and name a line at column zero declares, if it declares one.
fn top_level(line: &[char]) -> (r: Option<(Kind, Vec<char>)>)
    ensures
        r matches Some(p) ==> top_level_spec(line@) == Some((p.0, p.1@)),
        r is None ==> top_level_spec(line@) is None,
{
    let export = chars_of("export ");
    if !begins_at(line, 0, export.as_slice()) {
        assert(line@.skip(0) == line@);
        return None;
    }
    assert(line@.skip(0) == line@);
    let rest = copy_range(line, export.len(), line.len());
    let asy = chars_of("async ");
    assert(rest@.skip(0) == rest@);
    let rest = if begins_at(rest.as_slice(), 0, asy.as_slice()) {
        copy_range(rest.as_slice(), asy.len(), rest.len())
    } else {
        rest
    };
    let sp = next_char(rest.as_slice(), ' ', 0);
    if sp >= rest.len() {
        return None;
    }
    let keyword = copy_range(rest.as_slice(), 0, sp);
    let kind = match keyword_kind_of(&keyword) {
        Some(k) => k,
        None => {
            return None;
        },
    };
    let after = copy_range(rest.as_slice(), sp + 1, rest.len());
    match identifier(after.as_slice()) {
        Some(name) => Some((kind, name)),
        None => None,
    }
}

/// A method declaration inside a class body: `fillet(radius: number, …) {`.
pub open spec fn member_spec(trimmed: Seq<char>) -> Option<Seq<char>> {
    let rest = if begins(trimmed, "get "@) {
        trimmed.skip("get "@.len() as int)
    } else if begins(trimmed, "set "@) {
        trimmed.skip("set "@.len() as int)
    } else if begins(trimmed, "static "@) {
        trimmed.skip("static "@.len() as int)
    } else {
        trimmed
    };
    match identifier_spec(rest) {
        None => None,
        Some(name) => if name == "constructor"@ {
            None
        } else if begins(trim_start_spec(rest.skip(name.len() as int)), seq!['(']) {
            Some(name)
        } else {
            None
        },
    }
}

/// The method a class-body line declares, if it declares one.
fn member(trimmed: &[char]) -> (r: Option<Vec<char>>)
    ensures
        r matches Some(v) ==> member_spec(trimmed@) == Some(v@),
        r is None ==> member_spec(trimmed@) is None,
{
    assert(trimmed@.skip(0) == trimmed@);
    assert(trimmed@.subrange(0, trimmed@.len() as int) == trimmed@);
    let get = chars_of("get ");
    let set = chars_of("set ");
    let stat = chars_of("static ");
    let rest = if begins_at(trimmed, 0, get.as_slice()) {
        copy_range(trimmed, get.len(), trimmed.len())
    } else if begins_at(trimmed, 0, set.as_slice()) {
        copy_range(trimmed, set.len(), trimmed.len())
    } else if begins_at(trimmed, 0, stat.as_slice()) {
        copy_range(trimmed, stat.len(), trimmed.len())
    } else {
        copy_range(trimmed, 0, trimmed.len())
    };
    let name = match identifier(rest.as_slice()) {
        Some(n) => n,
        None => {
            return None;
        },
    };
    if same_chars(&name, &chars_of("constructor")) {
        return None;
    }
    proof {
        lemma_ident_end(rest@, 0);
    }
    let after = copy_range(rest.as_slice(), name.len(), rest.len());
    assert(after@ == rest@.skip(name@.len() as int));
    let after = trim_start(after.as_slice());
    let open = vec!['('];
    assert(open@ == seq!['(']);
    assert(after@.skip(0) == after@);
    if begins_at(after.as_slice(), 0, open.as_slice()) {
        Some(name)
    } else {
        None
    }
}

/// A declaration's head on one line, punctuated the way a caller would type
/// the call: white space squeezed, `export`, `async` and `function` dropped
/// from the front, the body's `{` and any `;` or `:` from the end, and no
/// space inside the brackets of the parameter list.
pub open spec fn tidy_spec(signature: Seq<char>) -> Seq<char> {
    let joined = squeezed(signature);
    let head = trim_end_spec(
        trim_end_matches_spec(
            trim_start_matches_spec(
                trim_start_matches_spec(trim_start_matches_spec(joined, "export "@), "async "@),
                "function "@,
            ),
            seq!['{'],
        ),
    );
    let spaced = replaced(replaced(replaced(head, "( "@, "("@), ", )"@, ")"@), " )"@, ")"@);
    trim_spec(trim_end_matches_spec(trim_end_matches_spec(spaced, seq![';']), seq![':']))
}

/// One line, punctuated the way a caller would type the call.
fn tidy(signature: &[char]) -> (r: Vec<char>)
    ensures
        r@ == tidy_spec(signature@),
{
    let joined = squeeze(signature);
    let h = trim_start_matches(joined.as_slice(), chars_of("export ").as_slice());
    let h = trim_start_matches(h.as_slice(), chars_of("async ").as_slice());
    let h = trim_start_matches(h.as_slice(), chars_of("function ").as_slice());
    let brace = vec!['{'];
    assert(brace@ == seq!['{']);
    let h = trim_end_matches(h.as_slice(), brace.as_slice());
    let h = trim_end(h.as_slice());
    let open_sp = chars_of("( ");
    let comma_close = chars_of(", )");
    let sp_close = chars_of(" )");
    proof {
        reveal_strlit("( ");
        reveal_strlit(", )");
        reveal_strlit(" )");
    }
    let h = replace(h.as_slice(), open_sp.as_slice(), chars_of("(").as_slice());
    let h = replace(h.as_slice(), comma_close.as_slice(), chars_of(")").as_slice());
    let h = replace(h.as_slice(), sp_close.as_slice(), chars_of(")").as_slice());
    let semi = vec![';'];
    let colon = vec![':'];
    assert(semi@ == seq![';']);
    assert(colon@ == seq![':']);
    let h = trim_end_matches(h.as_slice(), semi.as_slice());
    let h = trim_end_matches(h.as_slice(), colon.as_slice());
    trim(h.as_slice())
}

/// Where a declaration that ends at its semicolon ends: after the first
/// line from `i` on that ends with `;`.
pub open spec fn statement_end(ls: Seq<Seq<char>>, i: int) -> int
    decreases ls.len() - i,
{
    if i < 0 || i >= ls.len() {
        ls.len() as int
    } else if ends(trim_end_spec(ls[i]), seq![';']) {
        i + 1
    } else {
        statement_end(ls, i + 1)
    }
}

pub proof fn lemma_statement_end(ls: Seq<Seq<char>>, i: int)
    requires
        0 <= i < ls.len(),
    ensures
        i < statement_end(ls, i) <= ls.len(),
    decreases ls.len() - i,
{
    if !ends(trim_end_spec(ls[i]), seq![';']) {
        if i + 1 < ls.len() {
            lemma_statement_end(ls, i + 1);
        } else {
            assert(statement_end(ls, i + 1) == ls.len());
        }
    }
}

/// Each line trimmed and followed by one space.
pub open spec fn spaced(ls: Seq<Seq<char>>) -> Seq<char>
    decreases ls.len(),
{
    if ls.len() == 0 {
        Seq::empty()
    } else {
        spaced(ls.drop_last()) + trim_spec(ls.last()) + seq![' ']
    }
}

/// A declaration that ends at its semicolon, on one line.
pub open spec fn statement_spec(ls: Seq<Seq<char>>, start: int) -> Seq<char> {
    tidy_spec(spaced(ls.subrange(start, statement_end(ls, start))))
}

/// A declaration that ends at its semicolon rather than at a body, and the
/// line after it.
fn statement(lines: &Vec<Vec<char>>, start: usize) -> (r: (Vec<char>, usize))
    requires
        start < lines@.len(),
    ensures
        r.0@ == statement_spec(rows(lines@), start as int),
        r.1 == statement_end(rows(lines@), start as int),
{
    let ghost ls = rows(lines@);
    let n = lines.len();
    let mut text: Vec<char> = Vec::new();
    let mut i = start;
    let semi = vec![';'];
    assert(semi@ == seq![';']);
    loop
        invariant
            start <= i < n,
            n == lines@.len(),
            ls == rows(lines@),
            semi@ == seq![';'],
            text@ == spaced(ls.subrange(start as int, i as int)),
            statement_end(ls, start as int) == statement_end(ls, i as int),
        decreases n - i,
    {
        let t = trim(lines[i].as_slice());
        append(&mut text, t.as_slice());
        text.push(' ');
        let te = trim_end(lines[i].as_slice());
        let done = ends_with(te.as_slice(), semi.as_slice());
        assert(ls.subrange(start as int, i + 1).drop_last() == ls.subrange(start as int, i as int));
        assert(text@ =~= spaced(ls.subrange(start as int, i + 1)));
        i = i + 1;
        if done || i >= n {
            proof {
                if !done {
                    assert(statement_end(ls, i as int) == ls.len());
                }
            }
            let r = tidy(text.as_slice());
            return (r, i);
        }
    }
}

/// Where a block kept verbatim ends: after the first line past `start` that
/// opens with `}`.
pub open spec fn verbatim_end(ls: Seq<Seq<char>>, start: int, i: int) -> int
    decreases ls.len() - i,
{
    if i < 0 || i >= ls.len() {
        ls.len() as int
    } else if begins(ls[i], seq!['}']) && i > start {
        i + 1
    } else {
        verbatim_end(ls, start, i + 1)
    }
}

pub proof fn lemma_verbatim_end(ls: Seq<Seq<char>>, start: int, i: int)
    requires
        0 <= i < ls.len(),
    ensures
        i < verbatim_end(ls, start, i) <= ls.len(),
    decreases ls.len() - i,
{
    if !(begins(ls[i], seq!['}']) && i > start) {
        if i + 1 < ls.len() {
            lemma_verbatim_end(ls, start, i + 1);
        } else {
            assert(verbatim_end(ls, start, i + 1) == ls.len());
        }
    }
}

/// A block form, kept exactly as it is written.
pub open spec fn verbatim_spec(ls: Seq<Seq<char>>, start: int) -> Seq<char> {
    joined(ls.subrange(start, verbatim_end(ls, start, start)), seq!['\n'])
}

/// A block form, kept exactly as it is written, and the line after it.
fn verbatim_block(lines: &Vec<Vec<char>>, start: usize) -> (r: (Vec<char>, usize))
    requires
        start < lines@.len(),
    ensures
        r.0@ == verbatim_spec(rows(lines@), start as int),
        r.1 == verbatim_end(rows(lines@), start as int, start as int),
{
    let ghost ls = rows(lines@);
    let close = vec!['}'];
    assert(close@ == seq!['}']);
    let n = lines.len();
    let mut i = start;
    loop
        invariant_except_break
            start <= i < n,
            verbatim_end(ls, start as int, start as int) == verbatim_end(ls, start as int, i as int),
        invariant
            n == lines@.len(),
            ls == rows(lines@),
            close@ == seq!['}'],
        ensures
            start < i <= n,
            verbatim_end(ls, start as int, start as int) == i,
        decreases n - i,
    {
        assert(lines@[i as int]@.skip(0) == lines@[i as int]@);
        let done = begins_at(lines[i].as_slice(), 0, close.as_slice());
        i = i + 1;
        if (done && i > start + 1) || i >= n {
            proof {
                if !(done && i > start + 1) {
                    assert(verbatim_end(ls, start as int, i as int) == ls.len());
                }
            }
            break;
        }
    }
    let mut block: Vec<Vec<char>> = Vec::new();
    let mut k = start;
    while k < i
        invariant
            start <= k <= i <= lines@.len(),
            ls == rows(lines@),
            rows(block@) == ls.subrange(start as int, k as int),
        decreases i - k,
    {
        let ghost before = rows(block@);
        block.push(copy_range(lines[k].as_slice(), 0, lines[k].len()));
        assert(lines@[k as int]@.subrange(0, lines@[k as int]@.len() as int) == lines@[k as int]@);
        assert(rows(block@) =~= before.push(ls[k as int]));
        assert(ls.subrange(start as int, k + 1) == ls.subrange(start as int, k as int).push(ls[k as int]));
        k = k + 1;
    }
    let nl = vec!['\n'];
    assert(nl@ == seq!['\n']);
    (join_rows(&block, nl.as_slice()), i)
}

/// Lines few and short enough that bracket depth, counted in 64 bits, never
/// overflows.
pub open spec fn bounded(ls: Seq<Seq<char>>) -> bool {
    ls.len() < 0x8000_0000 && forall|i: int| 0 <= i < ls.len() ==> #[trigger] ls[i].len() < 0x8000_0000
}

/// Bracket depth and whether a bracket has opened, after reading `line` from
/// the left, and whether it stopped at an `=` met outside any bracket before
/// any had opened: the mark of a value's declaration.
pub open spec fn scan_state(line: Seq<char>, depth: int, seen: bool) -> (int, bool, bool)
    decreases line.len(),
{
    if line.len() == 0 {
        (depth, seen, false)
    } else {
        let c = line[0];
        let rest = line.drop_first();
        if c == '(' || c == '[' {
            scan_state(rest, depth + 1, true)
        } else if c == ')' || c == ']' {
            scan_state(rest, depth - 1, seen)
        } else if c == '=' && !seen && depth == 0 {
            (depth, seen, true)
        } else {
            scan_state(rest, depth, seen)
        }
    }
}

/// A declaration's head read from line `i` on, given the bracket state and
/// text so far: the head on one line, and the line after it. A value ends at
/// its `=`; a call ends at the line where its brackets have closed and that
/// ends with the body's `{` or a `;`, or at a blank line.
pub open spec fn sig_from(ls: Seq<Seq<char>>, i: int, depth: int, seen: bool, text: Seq<char>) -> (Seq<char>, int)
    decreases ls.len() - i,
{
    if i < 0 || i >= ls.len() {
        (tidy_spec(text), i)
    } else {
        let line = trim_spec(ls[i]);
        let st = scan_state(line, depth, seen);
        if st.2 {
            (tidy_spec(text + line.take(next_of(line, '=', 0))), i + 1)
        } else {
            let text2 = text + line + seq![' '];
            if line.len() == 0 || (st.1 && st.0 <= 0 && (ends(line, seq!['{']) || ends(line, seq![';']))) {
                (tidy_spec(text2), i + 1)
            } else {
                sig_from(ls, i + 1, st.0, st.1, text2)
            }
        }
    }
}

pub proof fn lemma_sig_from(ls: Seq<Seq<char>>, i: int, depth: int, seen: bool, text: Seq<char>)
    requires
        0 <= i < ls.len(),
    ensures
        i < sig_from(ls, i, depth, seen, text).1 <= ls.len(),
    decreases ls.len() - i,
{
    let line = trim_spec(ls[i]);
    let st = scan_state(line, depth, seen);
    let text2 = text + line + seq![' '];
    if !st.2 && !(line.len() == 0 || (st.1 && st.0 <= 0 && (ends(line, seq!['{']) || ends(line, seq![';'])))) {
        if i + 1 < ls.len() {
            lemma_sig_from(ls, i + 1, st.0, st.1, text2);
        }
    }
}

proof fn lemma_trim_start_len(s: Seq<char>)
    ensures
        trim_start_spec(s).len() <= s.len(),
    decreases s.len(),
{
    if s.len() > 0 {
        lemma_trim_start_len(s.drop_first());
    }
}

proof fn lemma_trim_end_len(s: Seq<char>)
    ensures
        trim_end_spec(s).len() <= s.len(),
    decreases s.len(),
{
    if s.len() > 0 {
        lemma_trim_end_len(s.drop_last());
    }
}

proof fn lemma_trim_len(s: Seq<char>)
    ensures
        trim_spec(s).len() <= s.len(),
{
    lemma_trim_start_len(s);
    lemma_trim_end_len(trim_start_spec(s));
}

/// The first `=` in `line`, scanning from `from`.
proof fn lemma_scan_step(line: Seq<char>, k: int, depth: int, seen: bool)
    requires
        0 <= k < line.len(),
    ensures
        line.skip(k).drop_first() == line.skip(k + 1),
        line.skip(k)[0] == line[k],
{
    assert(line.skip(k).drop_first() =~= line.skip(k + 1));
}

/// A declaration's head: everything up to the body it opens, on one line,
/// and the line after it.
fn signature(lines: &Vec<Vec<char>>, start: usize) -> (r: (Vec<char>, usize))
    requires
        start < lines@.len(),
        bounded(rows(lines@)),
    ensures
        (r.0@, r.1 as int) == sig_from(rows(lines@), start as int, 0, false, Seq::empty()),
{
    let ghost ls = rows(lines@);
    let n = lines.len();
    let mut text: Vec<char> = Vec::new();
    let mut depth: i64 = 0;
    let mut seen = false;
    let mut i = start;
    let brace = vec!['{'];
    let semi = vec![';'];
    assert(brace@ == seq!['{']);
    assert(semi@ == seq![';']);
    while i < n
        invariant
            start <= i <= n,
            n == lines@.len(),
            ls == rows(lines@),
            bounded(ls),
            brace@ == seq!['{'],
            semi@ == seq![';'],
            -((i - start) * 0x8000_0000) <= depth <= (i - start) * 0x8000_0000,
            sig_from(ls, start as int, 0, false, Seq::empty()) == sig_from(ls, i as int, depth as int, seen, text@),
        decreases n - i,
    {
        let line = trim(lines[i].as_slice());
        proof {
            lemma_trim_len(ls[i as int]);
            assert(ls[i as int].len() < 0x8000_0000);
        }
        let ghost d0 = depth as int;
        let ghost s0 = seen;
        let ghost base = (i - start) * 0x8000_0000;
        let mut k: usize = 0;
        let mut assigned = false;
        assert(line@.skip(0) == line@);
        while k < line.len()
            invariant_except_break
                !assigned,
                scan_state(line@, d0, s0) == scan_state(line@.skip(k as int), depth as int, seen),
            invariant
                k <= line@.len(),
                line@.len() < 0x8000_0000,
                -base - k <= depth <= base + k,
                0 <= base <= 0x8000_0000 * 0x8000_0000,
            ensures
                assigned ==> scan_state(line@, d0, s0) == (depth as int, seen, true),
                !assigned ==> scan_state(line@, d0, s0) == (depth as int, seen, false),
                -base - line@.len() <= depth <= base + line@.len(),
            decreases line@.len() - k,
        {
            let c = line[k];
            proof {
                lemma_scan_step(line@, k as int, depth as int, seen);
            }
            if c == '(' || c == '[' {
                depth = depth + 1;
                seen = true;
            } else if c == ')' || c == ']' {
                depth = depth - 1;
            } else if c == '=' && !seen && depth == 0 {
                assigned = true;
                break;
            }
            k = k + 1;
        }
        proof {
            if !assigned {
                assert(line@.skip(line@.len() as int).len() == 0);
            }
        }
        i = i + 1;
        if assigned {
            let eq = next_char(line.as_slice(), '=', 0);
            let head = copy_range(line.as_slice(), 0, eq);
            append(&mut text, head.as_slice());
            return (tidy(text.as_slice()), i);
        }
        let ghost before = text@;
        append(&mut text, line.as_slice());
        text.push(' ');
        assert(text@ =~= before + line@ + seq![' ']);
        if line.len() == 0 || (seen && depth <= 0 && (ends_with(line.as_slice(), brace.as_slice()) || ends_with(
            line.as_slice(),
            semi.as_slice(),
        ))) {
            return (tidy(text.as_slice()), i);
        }
    }
    (tidy(text.as_slice()), i)
}

/// How a doc tool spells a reference: `{@link `.
pub open spec fn link_open() -> Seq<char> {
    seq!['{', '@', 'l', 'i', 'n', 'k', ' ']
}

/// `text` with each `{@link name}` written as `name`; an unclosed one loses
/// only its opening.
pub open spec fn unlinked(t: Seq<char>) -> Seq<char>
    decreases t.len(),
{
    match find(t, link_open()) {
        None => t,
        Some(at) => {
            proof {
                lemma_find_bounds(t, link_open(), 0);
            }
            let after = t.skip(at + link_open().len());
            match find(after, seq!['}']) {
                Some(end) => {
                    proof {
                        lemma_find_bounds(after, seq!['}'], 0);
                    }
                    t.take(at) + after.take(end) + unlinked(after.skip(end + 1))
                },
                None => t.take(at) + unlinked(after),
            }
        },
    }
}

/// `{@link foo}` is a doc-tool spelling; a reader wants the name.
fn unlink(text: &[char]) -> (r: Vec<char>)
    ensures
        r@ == unlinked(text@),
{
    let pat = vec!['{', '@', 'l', 'i', 'n', 'k', ' '];
    let close = vec!['}'];
    assert(pat@ == link_open());
    assert(close@ == seq!['}']);
    let n = text.len();
    let mut out: Vec<char> = Vec::new();
    let mut st: usize = 0;
    assert(text@.skip(0) == text@);
    loop
        invariant
            st <= n,
            n == text@.len(),
            pat@ == link_open(),
            close@ == seq!['}'],
            out@ + unlinked(text@.skip(st as int)) == unlinked(text@),
        decreases n - st,
    {
        let rest = copy_range(text, st, n);
        assert(rest@ == text@.skip(st as int));
        match find_chars(&rest, &pat, 0) {
            None => {
                append(&mut out, rest.as_slice());
                return out;
            },
            Some(at) => {
                proof {
                    lemma_find_bounds(rest@, pat@, 0);
                }
                let ghost before = out@;
                let head = copy_range(rest.as_slice(), 0, at);
                append(&mut out, head.as_slice());
                let after = copy_range(rest.as_slice(), at + pat.len(), rest.len());
                assert(after@ == rest@.skip(at + link_open().len()));
                match find_chars(&after, &close, 0) {
                    Some(end) => {
                        proof {
                            lemma_find_bounds(after@, close@, 0);
                        }
                        let name = copy_range(after.as_slice(), 0, end);
                        append(&mut out, name.as_slice());
                        let next = st + at + pat.len() + end + 1;
                        assert(after@.skip(end + 1) == text@.skip(next as int));
                        assert(out@ + unlinked(text@.skip(next as int)) == before + (rest@.take(at as int) + after@.take(
                            end as int,
                        ) + unlinked(after@.skip(end + 1))));
                        st = next;
                    },
                    None => {
                        let next = st + at + pat.len();
                        assert(after@ == text@.skip(next as int));
                        assert(out@ + unlinked(text@.skip(next as int)) == before + (rest@.take(at as int) + unlinked(
                            after@,
                        )));
                        st = next;
                    },
                }
            },
        }
    }
}

/// One line of a `/** ... */` block, as a reader should see it: the comment
/// marks at either end gone, and exactly one space after a leading `*`.
pub open spec fn comment_body(line: Seq<char>) -> Seq<char> {
    let raw = trim_start_spec(line);
    let body = trim_end_spec(trim_end_matches_spec(raw, seq!['*', '/']));
    let body = trim_start_matches_spec(body, seq!['/', '*', '*']);
    trim_end_spec(drop_lead(drop_lead(body, '*'), ' '))
}

/// Whether a line closes a block comment.
pub open spec fn closes(line: Seq<char>) -> bool {
    ends(trim_start_spec(line), seq!['*', '/'])
}

/// Where a block comment starting at `i` ends: after its closing line.
pub open spec fn comment_end(ls: Seq<Seq<char>>, i: int) -> int
    decreases ls.len() - i,
{
    if i < 0 || i >= ls.len() {
        ls.len() as int
    } else if closes(ls[i]) {
        i + 1
    } else {
        comment_end(ls, i + 1)
    }
}

pub proof fn lemma_comment_end(ls: Seq<Seq<char>>, i: int)
    requires
        0 <= i < ls.len(),
    ensures
        i < comment_end(ls, i) <= ls.len(),
    decreases ls.len() - i,
{
    if !closes(ls[i]) {
        if i + 1 < ls.len() {
            lemma_comment_end(ls, i + 1);
        } else {
            assert(comment_end(ls, i + 1) == ls.len());
        }
    }
}

/// `xs` without its leading empty lines.
pub open spec fn drop_leading_blank(xs: Seq<Seq<char>>) -> Seq<Seq<char>>
    decreases xs.len(),
{
    if xs.len() > 0 && xs[0].len() == 0 {
        drop_leading_blank(xs.drop_first())
    } else {
        xs
    }
}

/// `xs` without its trailing empty lines.
pub open spec fn drop_trailing_blank(xs: Seq<Seq<char>>) -> Seq<Seq<char>>
    decreases xs.len(),
{
    if xs.len() > 0 && xs.last().len() == 0 {
        drop_trailing_blank(xs.drop_last())
    } else {
        xs
    }
}

proof fn lemma_drop_leading_push(xs: Seq<Seq<char>>, b: Seq<char>)
    ensures
        drop_leading_blank(xs.push(b)) == (if drop_leading_blank(xs).len() == 0 {
            if b.len() == 0 {
                Seq::<Seq<char>>::empty()
            } else {
                seq![b]
            }
        } else {
            drop_leading_blank(xs).push(b)
        }),
    decreases xs.len(),
{
    if xs.len() == 0 {
        assert(xs.push(b) =~= seq![b]);
        if b.len() == 0 {
            assert(seq![b].drop_first() =~= Seq::<Seq<char>>::empty());
            assert(drop_leading_blank(Seq::<Seq<char>>::empty()) == Seq::<Seq<char>>::empty());
            assert(drop_leading_blank(seq![b]) == drop_leading_blank(seq![b].drop_first()));
        } else {
            assert(drop_leading_blank(seq![b]) == seq![b]);
        }
    } else if xs[0].len() == 0 {
        lemma_drop_leading_push(xs.drop_first(), b);
        assert(xs.push(b).drop_first() =~= xs.drop_first().push(b));
        assert(xs.push(b)[0].len() == 0);
    } else {
        assert(xs.push(b)[0] == xs[0]);
    }
}

/// The text of a block comment, line by line.
pub open spec fn comment_lines(ls: Seq<Seq<char>>, start: int, end: int) -> Seq<Seq<char>> {
    ls.subrange(start, end).map_values(|l: Seq<char>| comment_body(l))
}

/// The text of the block comment that starts at line `start`.
pub open spec fn comment_text(ls: Seq<Seq<char>>, start: int) -> Seq<char> {
    unlinked(
        joined(drop_trailing_blank(drop_leading_blank(comment_lines(ls, start, comment_end(ls, start)))), seq!['\n']),
    )
}

/// One line's comment text.
fn comment_body_of(line: &[char]) -> (r: Vec<char>)
    ensures
        r@ == comment_body(line@),
{
    let close = vec!['*', '/'];
    let open = vec!['/', '*', '*'];
    assert(close@ == seq!['*', '/']);
    assert(open@ == seq!['/', '*', '*']);
    let raw = trim_start(line);
    let body = trim_end_matches(raw.as_slice(), close.as_slice());
    let body = trim_end(body.as_slice());
    let body = trim_start_matches(body.as_slice(), open.as_slice());
    let body = strip_lead(body.as_slice(), '*');
    let body = strip_lead(body.as_slice(), ' ');
    trim_end(body.as_slice())
}

/// Read a `/** … */` block, returning its text and the line after it.
///
/// Exactly one space is stripped after the `*`, not every space: the
/// preamble carries an indented code sample, and eating its indentation
/// would turn the one worked example into a paragraph.
fn block_comment(lines: &Vec<Vec<char>>, start: usize) -> (r: (Vec<char>, usize))
    requires
        start < lines@.len(),
    ensures
        r.0@ == comment_text(rows(lines@), start as int),
        r.1 == comment_end(rows(lines@), start as int),
{
    let ghost ls = rows(lines@);
    let n = lines.len();
    let close = vec!['*', '/'];
    assert(close@ == seq!['*', '/']);
    let mut text: Vec<Vec<char>> = Vec::new();
    let mut i = start;
    loop
        invariant_except_break
            start <= i < n,
            comment_end(ls, start as int) == comment_end(ls, i as int),
        invariant
            n == lines@.len(),
            ls == rows(lines@),
            close@ == seq!['*', '/'],
            rows(text@) == drop_leading_blank(comment_lines(ls, start as int, i as int)),
        ensures
            start < i <= n,
            comment_end(ls, start as int) == i,
        decreases n - i,
    {
        let raw = trim_start(lines[i].as_slice());
        let closes_here = ends_with(raw.as_slice(), close.as_slice());
        let body = comment_body_of(lines[i].as_slice());
        proof {
            let xs = comment_lines(ls, start as int, i as int);
            lemma_drop_leading_push(xs, body@);
            assert(comment_lines(ls, start as int, i + 1) =~= xs.push(body@));
        }
        if body.len() > 0 || text.len() > 0 {
            let ghost before = rows(text@);
            text.push(body);
            assert(rows(text@) =~= before.push(body@));
        }
        i = i + 1;
        if closes_here || i >= n {
            proof {
                if !closes_here {
                    assert(comment_end(ls, i as int) == ls.len());
                }
            }
            break;
        }
    }
    let ghost full = rows(text@);
    while text.len() > 0 && text[text.len() - 1].len() == 0
        invariant
            drop_trailing_blank(rows(text@)) == drop_trailing_blank(full),
        decreases text@.len(),
    {
        let ghost before = rows(text@);
        text.pop();
        assert(rows(text@) =~= before.drop_last());
    }
    let nl = vec!['\n'];
    assert(nl@ == seq!['\n']);
    let joined_text = join_rows(&text, nl.as_slice());
    (unlink(joined_text.as_slice()), i)
}

/// Whether the source opens with its own block comment.
pub open spec fn opens_doc(ls: Seq<Seq<char>>) -> bool {
    ls.len() > 0 && trim_start_spec(ls[0]) == seq!['/', '*', '*']
}

fn opens_with_doc(lines: &Vec<Vec<char>>) -> (b: bool)
    ensures
        b == opens_doc(rows(lines@)),
{
    if lines.len() == 0 {
        return false;
    }
    let first = trim_start(lines[0].as_slice());
    let open = vec!['/', '*', '*'];
    assert(open@ == seq!['/', '*', '*']);
    same_chars(&first, &open)
}

/// The file's own leading block comment, which is the language's preamble,
/// followed by a line break; nothing when it has none.
pub open spec fn module_doc_spec(ls: Seq<Seq<char>>) -> Seq<char> {
    if opens_doc(ls) {
        comment_text(ls, 0) + seq!['\n']
    } else {
        Seq::empty()
    }
}

fn module_doc(lines: &Vec<Vec<char>>) -> (r: Vec<char>)
    ensures
        r@ == module_doc_spec(rows(lines@)),
{
    if !opens_with_doc(lines) {
        return Vec::new();
    }
    let (mut text, _) = block_comment(lines, 0);
    text.push('\n');
    text
}

/// One entry of the reference: where the name lives, the name as it is
/// called (`box`, or `Shape.mirror`), its signature, and its doc comment.
pub struct Item {
    pub kind: Kind,
    pub name: String,
    pub signature: String,
    pub doc: String,
}

impl Item {
    pub open spec fn view_spec(&self) -> (Kind, Seq<char>, Seq<char>, Seq<char>) {
        (self.kind, self.name@, self.signature@, self.doc@)
    }
}

/// The entries, as plain values.
pub open spec fn entries(items: Seq<Item>) -> Seq<(Kind, Seq<char>, Seq<char>, Seq<char>)> {
    items.map_values(|it: Item| it.view_spec())
}

/// The text of a line before its first `{`: the whole line when it has none.
pub open spec fn head_of(line: Seq<char>) -> Seq<char> {
    line.take(next_of(line, '{', 0))
}

/// What a line declares, with the class whose body it stands in: a top-level
/// declaration at column zero, or a method indented two spaces in a
/// documented class.
pub open spec fn declared(line: Seq<char>, class: Option<Class>) -> Option<(Kind, Seq<char>)> {
    let trimmed = trim_start_spec(line);
    if trimmed.len() == line.len() {
        top_level_spec(line)
    } else if line.len() - trimmed.len() == 2 && class is Some {
        match member_spec(trimmed) {
            Some(name) => Some((Kind::Method(class->0), name)),
            None => None,
        }
    } else {
        None
    }
}

/// A name as it is called: a method is qualified by its class.
pub open spec fn qualified(kind: Kind, name: Seq<char>) -> Seq<char> {
    match kind {
        Kind::Method(owner) => owner.name_spec() + seq!['.'] + name,
        _ => name,
    }
}

/// Whether a doc comment marks its declaration as one a script cannot call.
pub open spec fn internal(doc: Seq<char>) -> bool {
    find(doc, "@internal"@) is Some
}

/// Where the declaration at line `i` named `name` ends, and which documented
/// class's body is open after it: a class opens its own, if it is one.
pub open spec fn decl_next(ls: Seq<Seq<char>>, i: int, class: Option<Class>, name: Seq<char>) -> (int, Option<Class>) {
    let line = ls[i];
    if begins(line, "export class"@) {
        (i + 1, class_named(name))
    } else if begins(line, "export interface"@) {
        (verbatim_end(ls, i, i), class)
    } else if begins(line, "export type"@) {
        (statement_end(ls, i), class)
    } else {
        (sig_from(ls, i, 0, false, Seq::empty()).1, class)
    }
}

/// The signature the reference shows for the declaration at line `i`: a
/// class's head, an interface verbatim, a type to its semicolon, anything
/// else to the body it opens.
pub open spec fn decl_signature(ls: Seq<Seq<char>>, i: int) -> Seq<char> {
    let line = ls[i];
    if begins(line, "export class"@) {
        tidy_spec(head_of(line))
    } else if begins(line, "export interface"@) {
        verbatim_spec(ls, i)
    } else if begins(line, "export type"@) {
        statement_spec(ls, i)
    } else {
        sig_from(ls, i, 0, false, Seq::empty()).0
    }
}

/// The entries declared from line `i` on, given the doc comment waiting for
/// a declaration and the documented class whose body is open.
pub open spec fn parse_from(
    ls: Seq<Seq<char>>,
    i: int,
    pending: Option<Seq<char>>,
    class: Option<Class>,
) -> Seq<(Kind, Seq<char>, Seq<char>, Seq<char>)>
    decreases ls.len() - i,
{
    if i < 0 || i >= ls.len() {
        Seq::empty()
    } else {
        let line = ls[i];
        let trimmed = trim_start_spec(line);
        proof {
            lemma_comment_end(ls, i);
            lemma_verbatim_end(ls, i, i);
            lemma_statement_end(ls, i);
            lemma_sig_from(ls, i, 0, false, Seq::empty());
        }
        if begins(trimmed, seq!['/', '*', '*']) {
            parse_from(ls, comment_end(ls, i), Some(comment_text(ls, i)), class)
        } else if trimmed.len() == 0 {
            parse_from(ls, i + 1, None, class)
        } else {
            let class = if trimmed.len() == line.len() && begins(line, seq!['}']) {
                None
            } else {
                class
            };
            match declared(line, class) {
                None => parse_from(ls, i + 1, None, class),
                Some(d) => {
                    let doc = match pending {
                        Some(text) => text,
                        None => Seq::empty(),
                    };
                    let (next, after) = decl_next(ls, i, class, d.1);
                    let rest = parse_from(ls, next, None, after);
                    if internal(doc) {
                        rest
                    } else {
                        seq![(d.0, qualified(d.0, d.1), decl_signature(ls, i), doc)] + rest
                    }
                },
            }
        }
    }
}

/// What the parser keeps of an entry: none whose comment marks it internal,
/// and every method under its class's name, as `Class.method`, never the
/// constructor.
pub open spec fn kept_entry(e: (Kind, Seq<char>, Seq<char>, Seq<char>)) -> bool {
    &&& !internal(e.3)
    &&& e.0 matches Kind::Method(owner) ==> exists|name: Seq<char>|
        name != "constructor"@ && #[trigger] qualified(e.0, name) == e.1 && e.1 == owner.name_spec() + seq!['.'] + name
}

/// Every entry the parser reads from line `i` on is one it keeps.
pub proof fn lemma_the_parser_keeps_only_callable_names(
    ls: Seq<Seq<char>>,
    i: int,
    pending: Option<Seq<char>>,
    class: Option<Class>,
)
    ensures
        forall|k: int| 0 <= k < parse_from(ls, i, pending, class).len() ==> kept_entry(
            #[trigger] parse_from(ls, i, pending, class)[k],
        ),
    decreases ls.len() - i,
{
    if 0 <= i < ls.len() {
        let line = ls[i];
        let trimmed = trim_start_spec(line);
        lemma_comment_end(ls, i);
        lemma_verbatim_end(ls, i, i);
        lemma_statement_end(ls, i);
        lemma_sig_from(ls, i, 0, false, Seq::empty());
        if begins(trimmed, seq!['/', '*', '*']) {
            lemma_the_parser_keeps_only_callable_names(ls, comment_end(ls, i), Some(comment_text(ls, i)), class);
            assert(parse_from(ls, i, pending, class) == parse_from(ls, comment_end(ls, i), Some(comment_text(ls, i)), class));
        } else if trimmed.len() == 0 {
            lemma_the_parser_keeps_only_callable_names(ls, i + 1, None, class);
            assert(parse_from(ls, i, pending, class) == parse_from(ls, i + 1, None, class));
        } else {
            let cls = if trimmed.len() == line.len() && begins(line, seq!['}']) {
                None
            } else {
                class
            };
            match declared(line, cls) {
                None => {
                    lemma_the_parser_keeps_only_callable_names(ls, i + 1, None, cls);
                    assert(parse_from(ls, i, pending, class) == parse_from(ls, i + 1, None, cls));
                },
                Some(d) => {
                    let doc = match pending {
                        Some(text) => text,
                        None => Seq::empty(),
                    };
                    let (next, after) = decl_next(ls, i, cls, d.1);
                    lemma_the_parser_keeps_only_callable_names(ls, next, None, after);
                    let rest = parse_from(ls, next, None, after);
                    if internal(doc) {
                        assert(parse_from(ls, i, pending, class) == rest);
                    } else {
                        let e = (d.0, qualified(d.0, d.1), decl_signature(ls, i), doc);
                        if let Kind::Method(owner) = d.0 {
                            assert(trimmed.len() != line.len());
                            assert(member_spec(trimmed) == Some(d.1));
                            assert(qualified(e.0, d.1) == e.1);
                        }
                        assert(kept_entry(e));
                        let all = seq![e] + rest;
                        assert(parse_from(ls, i, pending, class) == all);
                        assert forall|k: int| 0 <= k < all.len() implies kept_entry(#[trigger] all[k]) by {
                            if k > 0 {
                                assert(all[k] == rest[k - 1]);
                            }
                        }
                    }
                },
            }
        }
    }
}

/// Every declaration in the source with the comment above it, in order,
/// past the file's own preamble.
pub open spec fn parse_spec(ls: Seq<Seq<char>>) -> Seq<(Kind, Seq<char>, Seq<char>, Seq<char>)> {
    parse_from(ls, if opens_doc(ls) { comment_end(ls, 0) } else { 0 }, None, None)
}

/// No entry of a parsed source is marked internal, and every method is
/// named `Class.method` and is not the constructor.
pub proof fn lemma_every_parsed_entry_is_callable(ls: Seq<Seq<char>>)
    ensures
        forall|k: int| 0 <= k < parse_spec(ls).len() ==> kept_entry(#[trigger] parse_spec(ls)[k]),
{
    lemma_the_parser_keeps_only_callable_names(ls, if opens_doc(ls) { comment_end(ls, 0) } else { 0 }, None, None);
}

/// What a doc comment waiting for a declaration holds.
pub open spec fn pending_view(p: Option<Vec<char>>) -> Option<Seq<char>> {
    match p {
        Some(v) => Some(v@),
        None => None,
    }
}

fn is_internal(doc: &Vec<char>) -> (b: bool)
    ensures
        b == internal(doc@),
{
    let mark = chars_of("@internal");
    proof {
        reveal_strlit("@internal");
    }
    if doc.len() < mark.len() {
        proof {
            lemma_find_bounds(doc@, mark@, 0);
        }
        return false;
    }
    find_chars(doc, &mark, 0).is_some()
}

fn declared_at(line: &Vec<char>, class: Option<Class>) -> (r: Option<(Kind, Vec<char>)>)
    ensures
        r matches Some(p) ==> declared(line@, class) == Some((p.0, p.1@)),
        r is None ==> declared(line@, class) is None,
{
    let trimmed = trim_start(line.as_slice());
    proof {
        lemma_trim_start_len(line@);
    }
    if trimmed.len() == line.len() {
        top_level(line.as_slice())
    } else if line.len() - trimmed.len() == 2 && class.is_some() {
        let owner = class.unwrap();
        match member(trimmed.as_slice()) {
            Some(name) => Some((Kind::Method(owner), name)),
            None => None,
        }
    } else {
        None
    }
}

/// The entry, if any, that one step of the walk adds.
pub open spec fn added(item: Option<Item>) -> Seq<(Kind, Seq<char>, Seq<char>, Seq<char>)> {
    match item {
        Some(it) => seq![it.view_spec()],
        None => Seq::empty(),
    }
}

/// The declaration at line `i`: its entry, unless its comment marks it
/// internal, the line after it, and the class whose body is open after it.
fn parse_decl(
    lines: &Vec<Vec<char>>,
    i: usize,
    class: Option<Class>,
    kind: Kind,
    name: Vec<char>,
    doc: Vec<char>,
) -> (r: (Option<Item>, usize, Option<Class>))
    requires
        i < lines@.len(),
        bounded(rows(lines@)),
    ensures
        (r.1 as int, r.2) == decl_next(rows(lines@), i as int, class, name@),
        added(r.0) == (if internal(doc@) {
            Seq::empty()
        } else {
            seq![(kind, qualified(kind, name@), decl_signature(rows(lines@), i as int), doc@)]
        }),
{
    let ghost ls = rows(lines@);
    let line = &lines[i];
    assert(line@.skip(0) == line@);
    let export_class = chars_of("export class");
    let export_interface = chars_of("export interface");
    let export_type = chars_of("export type");
    let mut after = class;
    let (signature, next) = if begins_at(line.as_slice(), 0, export_class.as_slice()) {
        after = class_of(&name);
        let head = copy_range(line.as_slice(), 0, next_char(line.as_slice(), '{', 0));
        (tidy(head.as_slice()), i + 1)
    } else if begins_at(line.as_slice(), 0, export_interface.as_slice()) {
        verbatim_block(lines, i)
    } else if begins_at(line.as_slice(), 0, export_type.as_slice()) {
        statement(lines, i)
    } else {
        signature(lines, i)
    };
    if is_internal(&doc) {
        return (None, next, after);
    }
    let full = match kind {
        Kind::Method(owner) => {
            let mut q = chars_of(owner.name());
            q.push('.');
            append(&mut q, name.as_slice());
            q
        },
        _ => name,
    };
    let item = Item {
        kind,
        name: string_of(full.as_slice()),
        signature: string_of(signature.as_slice()),
        doc: string_of(doc.as_slice()),
    };
    assert(item.name@ == qualified(kind, name@));
    assert(item.signature@ == decl_signature(ls, i as int));
    assert(item.doc@ == doc@);
    (Some(item), next, after)
}

/// One step of the walk at line `i`: the entry it adds, and the state it
/// leaves for the next.
fn parse_line(lines: &Vec<Vec<char>>, i: usize, pending: Option<Vec<char>>, class: Option<Class>) -> (r: (
    Option<Item>,
    usize,
    Option<Vec<char>>,
    Option<Class>,
))
    requires
        i < lines@.len(),
        bounded(rows(lines@)),
    ensures
        i < r.1 <= lines@.len(),
        parse_from(rows(lines@), i as int, pending_view(pending), class) == added(r.0) + parse_from(
            rows(lines@),
            r.1 as int,
            pending_view(r.2),
            r.3,
        ),
{
    let ghost ls = rows(lines@);
    let line = &lines[i];
    let trimmed = trim_start(line.as_slice());
    let open = vec!['/', '*', '*'];
    let close = vec!['}'];
    assert(open@ == seq!['/', '*', '*']);
    assert(close@ == seq!['}']);
    proof {
        lemma_comment_end(ls, i as int);
        lemma_verbatim_end(ls, i as int, i as int);
        lemma_statement_end(ls, i as int);
        lemma_sig_from(ls, i as int, 0, false, Seq::empty());
        assert(trimmed@.skip(0) == trimmed@);
        assert(line@.skip(0) == line@);
    }
    if begins_at(trimmed.as_slice(), 0, open.as_slice()) {
        let (doc, next) = block_comment(lines, i);
        assert(added(None) + parse_from(ls, next as int, pending_view(Some(doc)), class) == parse_from(
            ls,
            next as int,
            pending_view(Some(doc)),
            class,
        ));
        return (None, next, Some(doc), class);
    }
    if trimmed.len() == 0 {
        assert(added(None) + parse_from(ls, i + 1, None, class) == parse_from(ls, i + 1, None, class));
        return (None, i + 1, None, class);
    }
    let mut class = class;
    if trimmed.len() == line.len() && begins_at(line.as_slice(), 0, close.as_slice()) {
        class = None;
    }
    match declared_at(line, class) {
        None => {
            assert(added(None) + parse_from(ls, i + 1, None, class) == parse_from(ls, i + 1, None, class));
            (None, i + 1, None, class)
        },
        Some((kind, name)) => {
            let doc = match pending {
                Some(d) => d,
                None => Vec::new(),
            };
            let (item, next, after) = parse_decl(lines, i, class, kind, name, doc);
            (item, next, None, after)
        },
    }
}

/// Walk the source and take every declaration with the comment above it.
fn parse(lines: &Vec<Vec<char>>) -> (items: Vec<Item>)
    requires
        bounded(rows(lines@)),
    ensures
        entries(items@) == parse_spec(rows(lines@)),
        forall|k: int| 0 <= k < items@.len() ==> kept_entry(#[trigger] entries(items@)[k]),
{
    let ghost ls = rows(lines@);
    let n = lines.len();
    let mut items: Vec<Item> = Vec::new();
    let mut pending: Option<Vec<char>> = None;
    let mut class: Option<Class> = None;
    let mut i: usize = if opens_with_doc(lines) {
        proof {
            lemma_comment_end(ls, 0);
        }
        let (_, next) = block_comment(lines, 0);
        next
    } else {
        0
    };
    assert(entries(items@) =~= Seq::empty());
    while i < n
        invariant
            i <= n,
            n == lines@.len(),
            ls == rows(lines@),
            bounded(ls),
            entries(items@) + parse_from(ls, i as int, pending_view(pending), class) == parse_spec(ls),
        decreases n - i,
    {
        let (item, next, p, c) = parse_line(lines, i, pending, class);
        match item {
            Some(it) => {
                let ghost before = entries(items@);
                items.push(it);
                assert(entries(items@) =~= before.push(it.view_spec()));
                assert(entries(items@) + parse_from(ls, next as int, pending_view(p), c) == before + (added(Some(it)) + parse_from(ls, next as int, pending_view(p), c)));
            },
            None => {},
        }
        i = next;
        pending = p;
        class = c;
    }
    assert(entries(items@) + Seq::empty() == entries(items@));
    proof {
        lemma_every_parsed_entry_is_callable(ls);
    }
    items
}

/// What stands between the preamble and the entries.
pub const PREAMBLE: &'static str = "\nEvery name below is handed to a script as a parameter, so it is also a \
    reserved word inside one: a script whose own variable is called `box` loses the primitive. Ask for the \
    `gaps` document before reaching for something that is not here \u{2014} the kernel refuses rather than \
    approximating, and what it refuses is written down there instead of being met one call at a time.\n";

/// The entries of one kind, in source order.
pub open spec fn of_kind(es: Seq<(Kind, Seq<char>, Seq<char>, Seq<char>)>, k: Kind) -> Seq<
    (Kind, Seq<char>, Seq<char>, Seq<char>),
>
    decreases es.len(),
{
    if es.len() == 0 {
        Seq::empty()
    } else if es.last().0 == k {
        of_kind(es.drop_last(), k).push(es.last())
    } else {
        of_kind(es.drop_last(), k)
    }
}

proof fn lemma_of_kind_len(es: Seq<(Kind, Seq<char>, Seq<char>, Seq<char>)>, k: Kind)
    ensures
        of_kind(es, k).len() <= es.len(),
    decreases es.len(),
{
    if es.len() > 0 {
        lemma_of_kind_len(es.drop_last(), k);
    }
}

/// A signature as the reference shows it: a fenced block when it spans
/// lines, inline code when it does not.
pub open spec fn shown(sig: Seq<char>) -> Seq<char> {
    if next_of(sig, '\n', 0) < sig.len() {
        "```ts\n"@ + sig + "\n```"@
    } else {
        "`"@ + sig + "`"@
    }
}

/// One entry of the reference: its heading, its signature, its comment.
pub open spec fn entry_text(e: (Kind, Seq<char>, Seq<char>, Seq<char>)) -> Seq<char> {
    "\n### "@ + e.1 + "\n\n"@ + shown(e.2) + "\n"@ + if e.3.len() == 0 {
        Seq::empty()
    } else {
        "\n"@ + e.3 + "\n"@
    }
}

/// Entries one after the other.
pub open spec fn entries_text(es: Seq<(Kind, Seq<char>, Seq<char>, Seq<char>)>) -> Seq<char>
    decreases es.len(),
{
    if es.len() == 0 {
        Seq::empty()
    } else {
        entries_text(es.drop_last()) + entry_text(es.last())
    }
}

/// A section of the reference: nothing when it has no entries.
pub open spec fn group_text(heading: Seq<char>, es: Seq<(Kind, Seq<char>, Seq<char>, Seq<char>)>) -> Seq<char> {
    if es.len() == 0 {
        Seq::empty()
    } else {
        "\n## "@ + heading + "\n"@ + entries_text(es)
    }
}

/// The sections of the reference, in order, with what each holds.
pub open spec fn sections() -> Seq<(Seq<char>, Kind)> {
    seq![
        ("Functions"@, Kind::Function),
        ("Shape methods"@, Kind::Method(Class::Shape)),
        ("EdgeSelection \u{2014} what `.edges(...)` returns"@, Kind::Method(Class::EdgeSelection)),
        ("VertexSelection \u{2014} what `.vertices(...)` returns"@, Kind::Method(Class::VertexSelection)),
        ("Values"@, Kind::Value),
        ("Types"@, Kind::Type),
    ]
}

/// The sections from `k` on.
pub open spec fn sections_text(es: Seq<(Kind, Seq<char>, Seq<char>, Seq<char>)>, k: int) -> Seq<char>
    decreases 6 - k,
{
    if k < 0 || k >= 6 {
        Seq::empty()
    } else {
        group_text(sections()[k].0, of_kind(es, sections()[k].1)) + sections_text(es, k + 1)
    }
}

/// The language reference for a DSL source: a title, the source's preamble,
/// a word on reserved names, and each section's entries.
pub open spec fn reference_spec(source: Seq<char>) -> Seq<char> {
    let ls = lines_of(source);
    "# parcad DSL reference\n\n"@ + module_doc_spec(ls) + PREAMBLE@ + sections_text(parse_spec(ls), 0)
}

fn section(k: usize) -> (r: (&'static str, Kind))
    requires
        k < 6,
    ensures
        r.0@ == sections()[k as int].0,
        r.1 == sections()[k as int].1,
{
    if k == 0 {
        ("Functions", Kind::Function)
    } else if k == 1 {
        ("Shape methods", Kind::Method(Class::Shape))
    } else if k == 2 {
        ("EdgeSelection \u{2014} what `.edges(...)` returns", Kind::Method(Class::EdgeSelection))
    } else if k == 3 {
        ("VertexSelection \u{2014} what `.vertices(...)` returns", Kind::Method(Class::VertexSelection))
    } else if k == 4 {
        ("Values", Kind::Value)
    } else {
        ("Types", Kind::Type)
    }
}

/// Append one entry's text.
fn push_entry(out: &mut String, item: &Item)
    ensures
        final(out)@ == old(out)@ + entry_text(item.view_spec()),
{
    let ghost start = out@;
    push_str(out, "\n### ");
    push_str(out, item.name.as_str());
    push_str(out, "\n\n");
    let sig = chars_of(item.signature.as_str());
    if next_char(sig.as_slice(), '\n', 0) < sig.len() {
        push_str(out, "```ts\n");
        push_str(out, item.signature.as_str());
        push_str(out, "\n```");
    } else {
        push_str(out, "`");
        push_str(out, item.signature.as_str());
        push_str(out, "`");
    }
    push_str(out, "\n");
    let ghost mid = out@;
    if !item.doc.as_str().is_empty() {
        push_str(out, "\n");
        push_str(out, item.doc.as_str());
        push_str(out, "\n");
    }
    proof {
        let e = item.view_spec();
        assert(mid =~= start + ("\n### "@ + e.1 + "\n\n"@ + shown(e.2) + "\n"@));
        if e.3.len() == 0 {
            assert(out@ =~= start + entry_text(e));
        } else {
            assert(out@ =~= start + entry_text(e));
        }
    }
}

/// Append the section for `kind` under `heading`.
fn push_group(out: &mut String, heading: &str, kind: Kind, items: &Vec<Item>)
    ensures
        final(out)@ == old(out)@ + group_text(heading@, of_kind(entries(items@), kind)),
{
    let mut body = String::new();
    let mut count: usize = 0;
    let mut j: usize = 0;
    while j < items.len()
        invariant
            j <= items@.len(),
            count == of_kind(entries(items@).take(j as int), kind).len(),
            count <= j,
            body@ == entries_text(of_kind(entries(items@).take(j as int), kind)),
        decreases items@.len() - j,
    {
        proof {
            let t = entries(items@).take(j + 1);
            assert(t.drop_last() == entries(items@).take(j as int));
            assert(t.last() == items@[j as int].view_spec());
            lemma_of_kind_len(entries(items@).take(j as int), kind);
        }
        if items[j].kind == kind {
            push_entry(&mut body, &items[j]);
            count = count + 1;
            proof {
                let prev = of_kind(entries(items@).take(j as int), kind);
                let now = of_kind(entries(items@).take(j + 1), kind);
                assert(now == prev.push(items@[j as int].view_spec()));
                assert(now.drop_last() =~= prev);
                assert(entries_text(now) == entries_text(prev) + entry_text(items@[j as int].view_spec()));
            }
        }
        j = j + 1;
    }
    assert(entries(items@).take(items@.len() as int) == entries(items@));
    if count > 0 {
        push_str(out, "\n## ");
        push_str(out, heading);
        push_str(out, "\n");
        push_str(out, body.as_str());
        assert(out@ =~= old(out)@ + group_text(heading@, of_kind(entries(items@), kind)));
    }
}

/// The language reference, built from the DSL's source every time it is
/// asked for.
pub fn reference(source: &str) -> (r: String)
    requires
        source@.len() < 0x8000_0000,
    ensures
        r@ == reference_spec(source@),
{
    let cs = chars_of(source);
    let lines = split_lines(cs.as_slice());
    proof {
        lemma_lines_bounded(source@);
    }
    let items = parse(&lines);
    let mut out = String::new();
    push_str(&mut out, "# parcad DSL reference\n\n");
    let doc = module_doc(&lines);
    push_str(&mut out, string_of(doc.as_slice()).as_str());
    push_str(&mut out, PREAMBLE);
    let ghost head = out@;
    let mut k: usize = 0;
    while k < 6
        invariant
            k <= 6,
            out@ + sections_text(entries(items@), k as int) == head + sections_text(entries(items@), 0),
        decreases 6 - k,
    {
        let (heading, kind) = section(k);
        let ghost before = out@;
        push_group(&mut out, heading, kind, &items);
        assert(before + sections_text(entries(items@), k as int) == out@ + sections_text(entries(items@), k + 1));
        k = k + 1;
    }
    assert(out@ + sections_text(entries(items@), 6) == out@);
    out
}

/// The texts the host serves: the DSL's source, from which the reference is
/// built, and the prose documents, as they ship.
pub struct Library {
    pub dsl: String,
    pub gaps: String,
    pub gotchas: String,
    pub operations: String,
}

/// The documents a caller can ask for, in the order they are listed.
pub const TOPIC_NAMES: [&'static str; 4] = ["dsl", "gaps", "gotchas", "operations"];

/// The file in the parcad repository each document comes from.
pub const TOPIC_SOURCES: [&'static str; 4] = ["app/src/dsl.ts", "docs/DSL_GAPS.md", "docs/GOTCHAS.md", "docs/OP_ROADMAP.md"];

/// What each document answers, in one line, for the topic list.
pub const TOPIC_ANSWERS: [&'static str; 4] = [
    "every function, method and constant the language has, with its signature",
    "what the language cannot express, and what to write instead",
    "shapes that make the kernel return a wrong answer or die, and the way round each",
    "which operations exist, which are deliberately absent, and why",
];

/// A topic, named so a caller can reach the next one without guessing.
pub struct TopicSummary {
    pub topic: String,
    pub answers: String,
}

/// One document, and the list of the others.
pub struct Reference {
    pub topic: String,
    /// The file in the parcad repository this text comes from.
    pub source: String,
    pub text: String,
    /// Everything else that can be read, so one call is enough to find the rest.
    pub topics: Vec<TopicSummary>,
}

/// The place of a document in the list, by its name.
pub open spec fn topic_index(name: Seq<char>) -> Option<int> {
    if name == TOPIC_NAMES@[0]@ {
        Some(0)
    } else if name == TOPIC_NAMES@[1]@ {
        Some(1)
    } else if name == TOPIC_NAMES@[2]@ {
        Some(2)
    } else if name == TOPIC_NAMES@[3]@ {
        Some(3)
    } else {
        None
    }
}

/// The text of document `k`: the reference is generated, the others are read.
pub open spec fn topic_text(library: &Library, k: int) -> Seq<char> {
    if k == 0 {
        reference_spec(library.dsl@)
    } else if k == 1 {
        library.gaps@
    } else if k == 2 {
        library.gotchas@
    } else {
        library.operations@
    }
}

/// The topic asked for: the reference when none is named, and the name
/// without white space around it when one is.
pub open spec fn wanted(topic: Option<&str>) -> Seq<char> {
    match topic {
        Some(t) => trim_spec(t@),
        None => "dsl"@,
    }
}

/// Why a topic cannot be read: it names nothing the host serves.
pub open spec fn unknown_topic(name: Seq<char>) -> Seq<char> {
    "no parcad document called "@ + quoted(name) + ". Ask for one of: dsl, gaps, gotchas, operations"@
}

/// Every topic listed, in order.
pub open spec fn lists_all(topics: Seq<TopicSummary>) -> bool {
    &&& topics.len() == 4
    &&& forall|k: int|
        0 <= k < 4 ==> #[trigger] topics[k].topic@ == TOPIC_NAMES@[k]@ && topics[k].answers@ == TOPIC_ANSWERS@[k]@
}

fn topic_list() -> (topics: Vec<TopicSummary>)
    ensures
        lists_all(topics@),
{
    let mut topics: Vec<TopicSummary> = Vec::new();
    let mut k: usize = 0;
    while k < 4
        invariant
            k <= 4,
            topics@.len() == k,
            forall|j: int|
                0 <= j < k ==> #[trigger] topics@[j].topic@ == TOPIC_NAMES@[j]@ && topics@[j].answers@
                    == TOPIC_ANSWERS@[j]@,
        decreases 4 - k,
    {
        topics.push(TopicSummary { topic: String::from_str(TOPIC_NAMES[k]), answers: String::from_str(TOPIC_ANSWERS[k]) });
        k = k + 1;
    }
    topics
}

/// Read one topic. `None` is the language reference, which is what a caller
/// who has not asked for anything in particular needs first.
pub fn read(topic: Option<&str>, library: &Library) -> (r: Result<Reference, String>)
    requires
        library.dsl@.len() < 0x8000_0000,
    ensures
        topic_index(wanted(topic)) is None ==> (r matches Err(e) && e@ == unknown_topic(wanted(topic))),
        topic_index(wanted(topic)) matches Some(k) ==> (r matches Ok(found) && found.topic@ == TOPIC_NAMES@[k]@
            && found.source@ == TOPIC_SOURCES@[k]@ && found.text@ == topic_text(library, k) && lists_all(
            found.topics@,
        )),
{
    let name = match topic {
        Some(t) => {
            let cs = chars_of(t);
            string_of(trim(cs.as_slice()).as_slice())
        },
        None => String::from_str("dsl"),
    };
    let mut k: usize = 0;
    while k < 4
        invariant
            k <= 4,
            library.dsl@.len() < 0x8000_0000,
            name@ == wanted(topic),
            forall|j: int| 0 <= j < k ==> name@ != #[trigger] TOPIC_NAMES@[j]@,
        decreases 4 - k,
    {
        if str_eq(name.as_str(), TOPIC_NAMES[k]) {
            let text = if k == 0 {
                reference(library.dsl.as_str())
            } else if k == 1 {
                library.gaps.clone()
            } else if k == 2 {
                library.gotchas.clone()
            } else {
                library.operations.clone()
            };
            return Ok(Reference {
                topic: String::from_str(TOPIC_NAMES[k]),
                source: String::from_str(TOPIC_SOURCES[k]),
                text,
                topics: topic_list(),
            });
        }
        k = k + 1;
    }
    let mut e = String::from_str("no parcad document called ");
    push_str(&mut e, debug_string(name.as_str()).as_str());
    push_str(&mut e, ". Ask for one of: dsl, gaps, gotchas, operations");
    Err(e)
}

/// `t` occurs in `s`.
pub open spec fn occurs(s: Seq<char>, t: Seq<char>) -> bool {
    exists|i: int| 0 <= i && i + t.len() <= s.len() && #[trigger] s.subrange(i, i + t.len()) == t
}

proof fn lemma_occurs_whole(t: Seq<char>, r: Seq<char>)
    ensures
        occurs(t + r, t),
{
    let z: int = 0;
    assert((t + r).subrange(z, z + t.len()) =~= t);
}

proof fn lemma_occurs_right(a: Seq<char>, b: Seq<char>, t: Seq<char>)
    requires
        occurs(b, t),
    ensures
        occurs(a + b, t),
{
    let i = choose|i: int| 0 <= i && i + t.len() <= b.len() && #[trigger] b.subrange(i, i + t.len()) == t;
    assert((a + b).subrange(a.len() + i, a.len() + i + t.len()) =~= b.subrange(i, i + t.len()));
}

proof fn lemma_occurs_left(a: Seq<char>, b: Seq<char>, t: Seq<char>)
    requires
        occurs(a, t),
    ensures
        occurs(a + b, t),
{
    let i = choose|i: int| 0 <= i && i + t.len() <= a.len() && #[trigger] a.subrange(i, i + t.len()) == t;
    assert((a + b).subrange(i, i + t.len()) =~= a.subrange(i, i + t.len()));
}

/// The heading an entry has in the reference.
pub open spec fn heading(name: Seq<char>) -> Seq<char> {
    "\n### "@ + name + "\n"@
}

proof fn lemma_of_kind_holds(es: Seq<(Kind, Seq<char>, Seq<char>, Seq<char>)>, i: int)
    requires
        0 <= i < es.len(),
    ensures
        exists|j: int| 0 <= j < of_kind(es, es[i].0).len() && #[trigger] of_kind(es, es[i].0)[j] == es[i],
    decreases es.len(),
{
    let k = es[i].0;
    if i == es.len() - 1 {
        let j = of_kind(es.drop_last(), k).len() as int;
        assert(of_kind(es, k)[j] == es[i]);
    } else {
        lemma_of_kind_holds(es.drop_last(), i);
        assert(es.drop_last()[i] == es[i]);
        let j = choose|j: int| 0 <= j < of_kind(es.drop_last(), k).len() && #[trigger] of_kind(es.drop_last(), k)[j]
            == es[i];
        if es.last().0 == k {
            assert(of_kind(es, k)[j] == es[i]);
        } else {
            assert(of_kind(es, k) == of_kind(es.drop_last(), k));
            assert(of_kind(es, k)[j] == es[i]);
        }
    }
}

proof fn lemma_entries_hold(es: Seq<(Kind, Seq<char>, Seq<char>, Seq<char>)>, j: int)
    requires
        0 <= j < es.len(),
    ensures
        occurs(entries_text(es), heading(es[j].1)),
    decreases es.len(),
{
    let e = es[j];
    let tail = "\n"@ + shown(e.2) + "\n"@ + if e.3.len() == 0 {
        Seq::empty()
    } else {
        "\n"@ + e.3 + "\n"@
    };
    reveal_strlit("\n\n");
    reveal_strlit("\n");
    assert(entry_text(e) =~= heading(e.1) + tail);
    lemma_occurs_whole(heading(e.1), tail);
    if j == es.len() - 1 {
        lemma_occurs_right(entries_text(es.drop_last()), entry_text(e), heading(e.1));
    } else {
        lemma_entries_hold(es.drop_last(), j);
        assert(es.drop_last()[j] == e);
        lemma_occurs_left(entries_text(es.drop_last()), entry_text(es.last()), heading(e.1));
    }
}

/// The section an entry of this kind is listed in.
pub open spec fn section_of(k: Kind) -> int {
    match k {
        Kind::Function => 0,
        Kind::Method(Class::Shape) => 1,
        Kind::Method(Class::EdgeSelection) => 2,
        Kind::Method(Class::VertexSelection) => 3,
        Kind::Value => 4,
        Kind::Type => 5,
    }
}

proof fn lemma_sections_hold(es: Seq<(Kind, Seq<char>, Seq<char>, Seq<char>)>, m: int, i: int)
    requires
        0 <= i < es.len(),
        0 <= m <= section_of(es[i].0),
    ensures
        occurs(sections_text(es, m), heading(es[i].1)),
    decreases 6 - m,
{
    let k = es[i].0;
    if m == section_of(k) {
        assert(sections()[m].1 == k);
        lemma_of_kind_holds(es, i);
        let xs = of_kind(es, k);
        let j = choose|j: int| 0 <= j < xs.len() && #[trigger] xs[j] == es[i];
        lemma_entries_hold(xs, j);
        let head = "\n## "@ + sections()[m].0 + "\n"@;
        lemma_occurs_right(head, entries_text(xs), heading(es[i].1));
        assert(group_text(sections()[m].0, xs) == head + entries_text(xs));
        lemma_occurs_left(group_text(sections()[m].0, xs), sections_text(es, m + 1), heading(es[i].1));
    } else {
        lemma_sections_hold(es, m + 1, i);
        lemma_occurs_right(group_text(sections()[m].0, of_kind(es, sections()[m].1)), sections_text(es, m + 1), heading(es[i].1));
    }
}

/// Every declaration the source makes that its comment does not mark
/// internal has a heading of its own in the reference, under its name as a
/// script calls it: a name the language has is never missing from the one
/// document that claims to list them all.
pub proof fn lemma_every_entry_is_in_the_reference(source: Seq<char>, i: int)
    requires
        0 <= i < parse_spec(lines_of(source)).len(),
    ensures
        occurs(reference_spec(source), heading(parse_spec(lines_of(source))[i].1)),
{
    let ls = lines_of(source);
    let es = parse_spec(ls);
    lemma_sections_hold(es, 0, i);
    let front = "# parcad DSL reference\n\n"@ + module_doc_spec(ls) + PREAMBLE@;
    lemma_occurs_right(front, sections_text(es, 0), heading(es[i].1));
}

} // verus!
