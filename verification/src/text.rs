//! Text as a sequence of characters: the small routines every reader and
//! writer of messages here is built from.

use vstd::prelude::*;
use vstd::std_specs::iter::IteratorSpec;

verus! {

/// Append one character to a string.
#[verifier::external_body]
pub(crate) fn push_char(s: &mut String, c: char)
    ensures
        final(s)@ == old(s)@.push(c),
{
    s.push(c);
}

/// The characters of a string, one per element.
pub fn chars_of(s: &str) -> (out: Vec<char>)
    ensures
        out@ == s@,
{
    let mut out: Vec<char> = Vec::new();
    let mut it = s.chars();
    loop
        invariant
            it.obeys_prophetic_iter_laws(),
            out@ + it.remaining() == s@,
            it.decrease() is Some,
        ensures
            out@ == s@,
        decreases it.decrease()->0,
    {
        match it.next() {
            Some(c) => {
                out.push(c);
            },
            None => {
                break;
            },
        }
    }
    out
}


/// The characters Rust's `char::is_whitespace` calls white space: the
/// Unicode `White_Space` property.
pub open spec fn is_ws(c: char) -> bool {
    ||| c == '\t' || c == '\n' || c == '\u{b}' || c == '\u{c}' || c == '\r' || c == ' '
    ||| c == '\u{85}' || c == '\u{a0}' || c == '\u{1680}'
    ||| ('\u{2000}' <= c && c <= '\u{200a}')
    ||| c == '\u{2028}' || c == '\u{2029}' || c == '\u{202f}' || c == '\u{205f}' || c == '\u{3000}'
}

/// Whether `c` is white space, as [`is_ws`] defines it.
pub fn is_whitespace(c: char) -> (b: bool)
    ensures
        b == is_ws(c),
{
    c == '\t' || c == '\n' || c == '\u{b}' || c == '\u{c}' || c == '\r' || c == ' ' || c == '\u{85}'
        || c == '\u{a0}' || c == '\u{1680}' || ('\u{2000}' <= c && c <= '\u{200a}') || c == '\u{2028}'
        || c == '\u{2029}' || c == '\u{202f}' || c == '\u{205f}' || c == '\u{3000}'
}

/// Nothing but white space: what `trim().is_empty()` answers.
pub open spec fn blank(s: Seq<char>) -> bool {
    forall|i: int| 0 <= i < s.len() ==> is_ws(#[trigger] s[i])
}

/// Whether a string is empty once trimmed.
pub fn is_blank(s: &str) -> (b: bool)
    ensures
        b == blank(s@),
{
    let cs = chars_of(s);
    let mut i: usize = 0;
    while i < cs.len()
        invariant
            cs@ == s@,
            i <= cs.len(),
            forall|k: int| 0 <= k < i ==> is_ws(#[trigger] s@[k]),
        decreases cs.len() - i,
    {
        if !is_whitespace(cs[i]) {
            return false;
        }
        i = i + 1;
    }
    true
}

/// A string holding exactly these characters.
pub fn string_of(cs: &[char]) -> (s: String)
    ensures
        s@ == cs@,
{
    let mut s = String::new();
    let mut i: usize = 0;
    while i < cs.len()
        invariant
            i <= cs.len(),
            s@ == cs@.take(i as int),
        decreases cs.len() - i,
    {
        push_char(&mut s, cs[i]);
        i = i + 1;
        assert(cs@.take(i as int) == cs@.take(i - 1).push(cs@[i - 1]));
    }
    assert(cs@.take(cs.len() as int) == cs@);
    s
}

/// The decimal digit for `d`, below ten.
pub open spec fn digit(d: nat) -> char {
    if d == 0 { '0' } else if d == 1 { '1' } else if d == 2 { '2' } else if d == 3 { '3' }
    else if d == 4 { '4' } else if d == 5 { '5' } else if d == 6 { '6' } else if d == 7 { '7' }
    else if d == 8 { '8' } else { '9' }
}

/// `n` written in decimal, as `format!("{n}")` writes it.
pub open spec fn decimal(n: nat) -> Seq<char>
    decreases n,
{
    if n < 10 {
        seq![digit(n)]
    } else {
        decimal(n / 10).push(digit(n % 10))
    }
}

fn digit_char(d: u64) -> (c: char)
    requires
        d < 10,
    ensures
        c == digit(d as nat),
{
    if d == 0 { '0' } else if d == 1 { '1' } else if d == 2 { '2' } else if d == 3 { '3' }
    else if d == 4 { '4' } else if d == 5 { '5' } else if d == 6 { '6' } else if d == 7 { '7' }
    else if d == 8 { '8' } else { '9' }
}

/// `n` in decimal.
pub fn decimal_string(n: u64) -> (s: String)
    ensures
        s@ == decimal(n as nat),
    decreases n,
{
    if n < 10 {
        let mut s = String::new();
        push_char(&mut s, digit_char(n));
        s
    } else {
        let mut s = decimal_string(n / 10);
        push_char(&mut s, digit_char(n % 10));
        s
    }
}

/// What `format!("{:?}", s)` writes for a string: quoted, with its escapes.
pub uninterp spec fn debug_quoted(s: Seq<char>) -> Seq<char>;

/// Whether every character is printable ASCII that `Debug` writes as it is:
/// a space or a visible character other than a quote or a backslash.
pub open spec fn plain_text(s: Seq<char>) -> bool {
    forall|i: int| 0 <= i < s.len() ==> ' ' <= #[trigger] s[i] <= '~' && s[i] != '"' && s[i] != '\\' && s[i] != '\''
}

/// A string as `Debug` shows it: plain text between double quotes, anything
/// else with the escapes `Debug` writes.
pub open spec fn quoted(s: Seq<char>) -> Seq<char> {
    if plain_text(s) {
        "\""@ + s + "\""@
    } else {
        debug_quoted(s)
    }
}

/// A string as Rust's `Debug` shows it, quotes included. Printable ASCII
/// other than quotes and backslashes needs no escape, so such a string comes
/// back between double quotes as it is.
#[verifier::external_body]
pub(crate) fn debug_string(s: &str) -> (d: String)
    ensures
        d@ == debug_quoted(s@),
        plain_text(s@) ==> d@ == "\""@ + s@ + "\""@,
{
    format!("{s:?}")
}

/// Append `t` to `s`.
pub fn push_str(s: &mut String, t: &str)
    ensures
        final(s)@ == old(s)@ + t@,
{
    s.append(t);
}


/// Whether two strings hold the same characters.
pub fn str_eq(a: &str, b: &str) -> (r: bool)
    ensures
        r == (a@ == b@),
{
    String::from_str(a) == String::from_str(b)
}


/// What `char::to_lowercase` yields for `c`.
pub uninterp spec fn lower(c: char) -> Seq<char>;

/// `char::to_lowercase`, collected. Trusted to yield the Unicode lowercase
/// mapping of `c`; the contract states only what Rust's documentation says
/// of ASCII: a capital letter becomes its small one and any other ASCII
/// character is itself.
#[verifier::external_body]
fn lowercase(c: char) -> (s: Vec<char>)
    ensures
        s@ == lower(c),
        'A' <= c <= 'Z' ==> s@ == seq![((c as u32) + 32) as char],
        (c as u32) < 128 && !('A' <= c <= 'Z') ==> s@ == seq![c],
{
    c.to_lowercase().collect()
}

/// What a character lowercases to: an ASCII capital its small letter, any
/// other ASCII character itself, anything else as `char::to_lowercase` maps it.
pub open spec fn lower_char(c: char) -> Seq<char> {
    if 'A' <= c <= 'Z' {
        seq![((c as u32) + 32) as char]
    } else if (c as u32) < 128 {
        seq![c]
    } else {
        lower(c)
    }
}

/// `s` with ASCII capitals made small, as `str::to_ascii_lowercase` does.
pub open spec fn ascii_lower(s: Seq<char>) -> Seq<char> {
    s.map_values(|c: char| if 'A' <= c <= 'Z' { ((c as u32) + 32) as char } else { c })
}

/// A key as an author's spelling is compared: separators `_`, `-` and space
/// dropped and every character lowercased.
pub open spec fn normalized(s: Seq<char>) -> Seq<char>
    decreases s.len(),
{
    if s.len() == 0 {
        s
    } else {
        let c = s.last();
        normalized(s.drop_last()) + if c == '_' || c == '-' || c == ' ' { Seq::empty() } else { lower_char(c) }
    }
}

/// A key as it is compared.
pub fn normalize(key: &str) -> (out: Vec<char>)
    ensures
        out@ == normalized(key@),
{
    let cs = chars_of(key);
    let mut out: Vec<char> = Vec::new();
    let mut i: usize = 0;
    while i < cs.len()
        invariant
            cs@ == key@,
            i <= cs@.len(),
            out@ == normalized(cs@.take(i as int)),
        decreases cs@.len() - i,
    {
        let c = cs[i];
        assert(cs@.take(i + 1).drop_last() == cs@.take(i as int));
        if !(c == '_' || c == '-' || c == ' ') {
            let l = lowercase(c);
            let mut k: usize = 0;
            let ghost before = out@;
            while k < l.len()
                invariant
                    k <= l@.len(),
                    out@ == before + l@.take(k as int),
                decreases l@.len() - k,
            {
                out.push(l[k]);
                k = k + 1;
                assert(l@.take(k as int) == l@.take(k - 1).push(l@[k - 1]));
            }
            assert(l@.take(l@.len() as int) == l@);
        } else {
            assert(out@ + Seq::<char>::empty() == out@);
        }
        i = i + 1;
    }
    assert(cs@.take(cs@.len() as int) == cs@);
    out
}

/// A key in its ASCII-lowercased spelling.
pub fn ascii_lowercase(s: &str) -> (out: Vec<char>)
    ensures
        out@ == ascii_lower(s@),
{
    let cs = chars_of(s);
    let mut out: Vec<char> = Vec::new();
    let mut i: usize = 0;
    while i < cs.len()
        invariant
            cs@ == s@,
            i <= cs@.len(),
            out@ == ascii_lower(cs@.take(i as int)),
        decreases cs@.len() - i,
    {
        let c = cs[i];
        out.push(if 'A' <= c && c <= 'Z' { ((c as u8) + 32) as char } else { c });
        i = i + 1;
        assert(ascii_lower(cs@.take(i as int)) == ascii_lower(cs@.take(i - 1)).push(cs@[i - 1]).update(
            i - 1,
            if 'A' <= c <= 'Z' { ((c as u32) + 32) as char } else { c },
        ));
    }
    assert(cs@.take(cs@.len() as int) == cs@);
    out
}

/// Whether two character vectors hold the same characters.
pub fn same_chars(a: &Vec<char>, b: &Vec<char>) -> (r: bool)
    ensures
        r == (a@ == b@),
{
    if a.len() != b.len() {
        return false;
    }
    let mut i: usize = 0;
    while i < a.len()
        invariant
            a@.len() == b@.len(),
            i <= a@.len(),
            forall|k: int| 0 <= k < i ==> a@[k] == b@[k],
        decreases a@.len() - i,
    {
        if a[i] != b[i] {
            return false;
        }
        i = i + 1;
    }
    assert(a@ =~= b@);
    true
}


/// The first key, from `i` on, whose ASCII-lowercased spelling is `normal`.
pub open spec fn find_key(normal: Seq<char>, keys: Seq<&'static str>, i: int) -> Option<int>
    decreases keys.len() - i,
{
    if i < 0 || i >= keys.len() {
        None
    } else if ascii_lower(keys[i]@) == normal {
        Some(i)
    } else {
        find_key(normal, keys, i + 1)
    }
}

/// The first synonym, from `i` on, written as `normal`.
pub open spec fn find_synonym(normal: Seq<char>, syns: Seq<(&'static str, &'static str)>, i: int) -> Option<int>
    decreases syns.len() - i,
{
    if i < 0 || i >= syns.len() {
        None
    } else if syns[i].0@ == normal {
        Some(i)
    } else {
        find_synonym(normal, syns, i + 1)
    }
}

/// The key an author's spelling means: a key spelt with other case or
/// separators is that key, and a known synonym is the key it stands for.
pub open spec fn meant_in(key: Seq<char>, keys: Seq<&'static str>, syns: Seq<(&'static str, &'static str)>) -> Option<
    Seq<char>,
> {
    let normal = normalized(key);
    match find_key(normal, keys, 0) {
        Some(i) => Some(keys[i]@),
        None => match find_synonym(normal, syns, 0) {
            Some(j) => Some(syns[j].1@),
            None => None,
        },
    }
}

/// The key `key` means among `keys`, or through `syns`.
pub fn lookup_key(key: &str, keys: &[&'static str], syns: &[(&'static str, &'static str)]) -> (r: Option<&'static str>)
    ensures
        r matches Some(s) ==> meant_in(key@, keys@, syns@) == Some(s@),
        r is None ==> meant_in(key@, keys@, syns@) is None,
{
    let normal = normalize(key);
    let mut i: usize = 0;
    while i < keys.len()
        invariant
            i <= keys@.len(),
            normal@ == normalized(key@),
            find_key(normal@, keys@, 0) == find_key(normal@, keys@, i as int),
        decreases keys@.len() - i,
    {
        let k = ascii_lowercase(keys[i]);
        if same_chars(&k, &normal) {
            return Some(keys[i]);
        }
        i = i + 1;
    }
    let mut j: usize = 0;
    while j < syns.len()
        invariant
            j <= syns@.len(),
            normal@ == normalized(key@),
            find_key(normal@, keys@, 0) is None,
            find_synonym(normal@, syns@, 0) == find_synonym(normal@, syns@, j as int),
        decreases syns@.len() - j,
    {
        let (written, meant) = syns[j];
        let w = chars_of(written);
        if same_chars(&w, &normal) {
            return Some(meant);
        }
        j = j + 1;
    }
    None
}

/// What `char::is_alphanumeric` answers for `c`.
pub uninterp spec fn alnum(c: char) -> bool;

/// `char::is_alphanumeric`: alphabetic or numeric in Unicode's sense. Of
/// ASCII, Rust's documentation makes that the letters and the digits, which
/// the contract states; beyond ASCII the answer is only named.
#[verifier::external_body]
pub(crate) fn is_alphanumeric(c: char) -> (b: bool)
    ensures
        b == alnum(c),
        (c as u32) < 128 ==> (b <==> (('a' <= c && c <= 'z') || ('A' <= c && c <= 'Z') || ('0' <= c && c <= '9'))),
{
    c.is_alphanumeric()
}

/// The first key whose lowercase spelling is `normal` is the one found.
pub proof fn lemma_key_found(normal: Seq<char>, keys: Seq<&'static str>, i: int)
    requires
        0 <= i < keys.len(),
        ascii_lower(keys[i]@) == normal,
        forall|j: int| 0 <= j < i ==> ascii_lower(keys[j]@) != normal,
    ensures
        find_key(normal, keys, 0) == Some(i),
{
    lemma_key_found_from(normal, keys, 0, i);
}

proof fn lemma_key_found_from(normal: Seq<char>, keys: Seq<&'static str>, k: int, i: int)
    requires
        0 <= k <= i < keys.len(),
        ascii_lower(keys[i]@) == normal,
        forall|j: int| k <= j < i ==> ascii_lower(keys[j]@) != normal,
    ensures
        find_key(normal, keys, k) == Some(i),
    decreases i - k,
{
    if k < i {
        lemma_key_found_from(normal, keys, k + 1, i);
    }
}

/// The sixteen hexadecimal digits in order of value, in capitals or small.
pub open spec fn hex_digits(upper: bool) -> Seq<char> {
    if upper {
        seq!['0', '1', '2', '3', '4', '5', '6', '7', '8', '9', 'A', 'B', 'C', 'D', 'E', 'F']
    } else {
        seq!['0', '1', '2', '3', '4', '5', '6', '7', '8', '9', 'a', 'b', 'c', 'd', 'e', 'f']
    }
}

/// `n` written in hexadecimal, most significant digit first, with no
/// leading zeros.
pub open spec fn hex_spelling(n: nat, upper: bool) -> Seq<char>
    decreases n,
{
    if n < 16 {
        seq![hex_digits(upper)[n as int]]
    } else {
        hex_spelling(n / 16, upper).push(hex_digits(upper)[(n % 16) as int])
    }
}

} // verus!
