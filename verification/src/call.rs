//! What the command-line client reads off the host's HTTP replies, and how
//! it shortens a tool's description for a listing.

use base64::Engine;
use vstd::prelude::*;
use crate::text::{chars_of, is_whitespace, is_ws, push_char, string_of};
use crate::scan::{begins, copy_range, find, find_chars, find_from, lemma_find_bounds};
use crate::text::{hex_digits, hex_spelling, push_str, quoted};

verus! {

/// Why a reply could not be read.
#[derive(Debug, PartialEq, Eq)]
pub enum ReplyError {
    /// No blank line ends the headers.
    NoHeaders,
    /// A chunk's size line never ends.
    EndedMidChunk,
    /// A chunk's size is not a hexadecimal number.
    NotHexadecimal,
    /// A chunk holds fewer bytes than its size line says.
    CutShort,
}

impl ReplyError {
    /// The error as the client reports it.
    pub fn message(&self) -> (m: &'static str)
        ensures
            *self == ReplyError::NoHeaders ==> m@ == "the host's reply had no headers"@,
            *self == ReplyError::EndedMidChunk ==> m@ == "a chunked reply ended mid-chunk"@,
            *self == ReplyError::NotHexadecimal ==> m@ == "a chunk size was not hexadecimal"@,
            *self == ReplyError::CutShort ==> m@ == "a chunk was cut short"@,
    {
        match self {
            ReplyError::NoHeaders => "the host's reply had no headers",
            ReplyError::EndedMidChunk => "a chunked reply ended mid-chunk",
            ReplyError::NotHexadecimal => "a chunk size was not hexadecimal",
            ReplyError::CutShort => "a chunk was cut short",
        }
    }
}

/// The text `String::from_utf8_lossy` makes of these bytes.
pub uninterp spec fn utf8_lossy(bytes: Seq<u8>) -> Seq<char>;

/// Whether every byte is ASCII.
pub open spec fn all_ascii(bytes: Seq<u8>) -> bool {
    forall|i: int| 0 <= i < bytes.len() ==> #[trigger] bytes[i] < 128
}

/// The text bytes read as: ASCII character for character, anything else as
/// `String::from_utf8_lossy` reads it.
pub open spec fn bytes_text(bytes: Seq<u8>) -> Seq<char> {
    if all_ascii(bytes) {
        bytes.map_values(|b: u8| b as char)
    } else {
        utf8_lossy(bytes)
    }
}

/// `String::from_utf8_lossy`, owned: invalid sequences become U+FFFD. ASCII
/// is valid UTF-8, which the function hands back as it is, so ASCII bytes
/// give the same characters.
#[verifier::external_body]
fn lossy_text(bytes: &[u8]) -> (s: String)
    ensures
        s@ == utf8_lossy(bytes@),
        all_ascii(bytes@) ==> s@ == bytes@.map_values(|b: u8| b as char),
{
    String::from_utf8_lossy(bytes).into_owned()
}

/// Where `pat` first occurs in `s`, searching from `from`.
fn find_bytes(s: &[u8], pat: &[u8], from: usize) -> (r: Option<usize>)
    requires
        pat@.len() > 0,
        from <= s@.len(),
    ensures
        r matches Some(i) ==> find_from(s@, pat@, from as int) == Some(i as int),
        r is None ==> find_from(s@, pat@, from as int) is None,
{
    let n = s.len();
    if pat.len() > n {
        return None;
    }
    let last = n - pat.len();
    let mut i = from;
    while i <= last
        invariant
            from <= i <= s@.len(),
            n == s@.len(),
            last == s@.len() - pat@.len(),
            pat@.len() > 0,
            find_from(s@, pat@, from as int) == find_from(s@, pat@, i as int),
        decreases s@.len() - i,
    {
        let mut k: usize = 0;
        while k < pat.len()
            invariant
                k <= pat@.len(),
                n == s@.len(),
                i + pat@.len() <= s@.len(),
                forall|j: int| 0 <= j < k ==> s@[i + j] == pat@[j],
            ensures
                k <= pat@.len(),
                forall|j: int| 0 <= j < k ==> s@[i + j] == pat@[j],
                k < pat@.len() ==> s@[i + k] != pat@[k as int],
            decreases pat@.len() - k,
        {
            if s[i + k] != pat[k] {
                break;
            }
            k = k + 1;
        }
        if k == pat.len() {
            assert(s@.subrange(i as int, i + pat@.len()) =~= pat@);
            return Some(i);
        }
        assert(s@.subrange(i as int, i + pat@.len()) != pat@) by {
            assert(s@.subrange(i as int, i + pat@.len())[k as int] == s@[i + k]);
        }
        i = i + 1;
    }
    None
}

/// The head of a raw reply as text, and the body after the blank line.
pub open spec fn split_response_spec(raw: Seq<u8>) -> Option<(Seq<char>, Seq<u8>)> {
    match find(raw, seq![13u8, 10u8, 13u8, 10u8]) {
        Some(end) => Some((bytes_text(raw.subrange(0, end)), raw.skip(end + 4))),
        None => None,
    }
}

/// Split a raw HTTP reply at the blank line that ends its headers.
pub fn split_response(raw: &[u8]) -> (r: Result<(String, &[u8]), ReplyError>)
    ensures
        split_response_spec(raw@) matches Some((head, body)) ==> (r matches Ok((h, b)) && h@ == head && b@
            == body),
        split_response_spec(raw@) is None ==> r == Err::<(String, &[u8]), ReplyError>(ReplyError::NoHeaders),
{
    let blank: [u8; 4] = [13, 10, 13, 10];
    assert(blank@ == seq![13u8, 10u8, 13u8, 10u8]);
    match find_bytes(raw, blank.as_slice(), 0) {
        Some(end) => {
            proof {
                lemma_find_bounds(raw@, blank@, 0);
            }
            let n = raw.len();
            assert(end + 4 <= n);
            let (head, _) = raw.split_at(end);
            let (_, body) = raw.split_at(end + 4);
            Ok((lossy_text(head), body))
        },
        None => Err(ReplyError::NoHeaders),
    }
}

/// The value of a hexadecimal digit, if `c` is one.
pub open spec fn hex_digit(c: char) -> Option<nat> {
    if '0' <= c && c <= '9' {
        Some((c as nat - '0' as nat) as nat)
    } else if 'a' <= c && c <= 'f' {
        Some((c as nat - 'a' as nat + 10) as nat)
    } else if 'A' <= c && c <= 'F' {
        Some((c as nat - 'A' as nat + 10) as nat)
    } else {
        None
    }
}

/// The number hexadecimal digits `ds` write, if all of them are digits.
pub open spec fn hex_number(ds: Seq<char>) -> Option<nat>
    decreases ds.len(),
{
    if ds.len() == 0 {
        Some(0)
    } else {
        match (hex_number(ds.drop_last()), hex_digit(ds.last())) {
            (Some(v), Some(d)) => Some(16 * v + d),
            _ => None,
        }
    }
}

proof fn lemma_hex_digits_read(upper: bool)
    ensures
        forall|d: int| 0 <= d < 16 ==> hex_digit(#[trigger] hex_digits(upper)[d]) == Some(d as nat),
{
    let ds = hex_digits(upper);
    assert forall|d: int| 0 <= d < 16 implies hex_digit(#[trigger] hex_digits(upper)[d]) == Some(d as nat) by {
        if upper {
            assert(ds[0] == '0' && ds[1] == '1' && ds[2] == '2' && ds[3] == '3' && ds[4] == '4' && ds[5] == '5');
            assert(ds[6] == '6' && ds[7] == '7' && ds[8] == '8' && ds[9] == '9');
            assert(ds[10] == 'A' && ds[11] == 'B' && ds[12] == 'C' && ds[13] == 'D' && ds[14] == 'E' && ds[15] == 'F');
        } else {
            assert(ds[0] == '0' && ds[1] == '1' && ds[2] == '2' && ds[3] == '3' && ds[4] == '4' && ds[5] == '5');
            assert(ds[6] == '6' && ds[7] == '7' && ds[8] == '8' && ds[9] == '9');
            assert(ds[10] == 'a' && ds[11] == 'b' && ds[12] == 'c' && ds[13] == 'd' && ds[14] == 'e' && ds[15] == 'f');
        }
    }
}

proof fn lemma_spelling_value(n: nat, upper: bool)
    ensures
        hex_number(hex_spelling(n, upper)) == Some(n),
        hex_spelling(n, upper).len() > 0,
        forall|k: int| 0 <= k < hex_spelling(n, upper).len() ==> hex_digit(#[trigger] hex_spelling(n, upper)[k]) is Some,
    decreases n,
{
    lemma_hex_digits_read(upper);
    let s = hex_spelling(n, upper);
    if n < 16 {
        assert(s.drop_last() =~= Seq::<char>::empty());
        assert(hex_number(s.drop_last()) == Some(0nat));
        assert(hex_digit(s.last()) == Some(n));
        assert(16 * 0 + n == n);
    } else {
        lemma_spelling_value(n / 16, upper);
        let p = hex_spelling(n / 16, upper);
        assert(s.drop_last() =~= p);
        assert(hex_digit(s.last()) == Some(n % 16));
        assert(16 * (n / 16) + n % 16 == n);
        assert forall|k: int| 0 <= k < s.len() implies hex_digit(#[trigger] s[k]) is Some by {
            if k < p.len() {
                assert(s[k] == p[k]);
            }
        }
    }
}

proof fn lemma_no_such_char(s: Seq<char>, c: char, from: int)
    requires
        0 <= from,
        forall|k: int| 0 <= k < s.len() ==> s[k] != c,
    ensures
        find_from(s, seq![c], from) is None,
    decreases s.len() - from,
{
    if from + 1 <= s.len() {
        assert(s.subrange(from, from + 1)[0] == s[from]);
        lemma_no_such_char(s, c, from + 1);
    }
}

/// A chunk's size line written in hexadecimal, in capitals or small letters,
/// reads as the number it writes, for every size that fits.
pub proof fn lemma_a_chunk_size_reads_as_written(n: nat, upper: bool)
    requires
        n <= usize::MAX,
    ensures
        chunk_size(hex_spelling(n, upper)) == Some(n),
{
    lemma_spelling_value(n, upper);
    let s = hex_spelling(n, upper);
    assert forall|k: int| 0 <= k < s.len() implies s[k] != ';' && !is_ws(s[k]) && s[k] != '+' by {
        assert(hex_digit(s[k]) is Some);
    }
    lemma_no_such_char(s, ';', 0);
    assert(before(s, ';') == s);
    assert(!is_ws(s[0]) && !is_ws(s.last()));
    assert(trimmed(s) == s);
}

proof fn lemma_first_such_char(s: Seq<char>, c: char, rest: Seq<char>, from: int)
    requires
        0 <= from <= s.len(),
        forall|k: int| 0 <= k < s.len() ==> s[k] != c,
    ensures
        find_from(s + seq![c] + rest, seq![c], from) == Some(s.len() as int),
    decreases s.len() - from,
{
    let line = s + seq![c] + rest;
    if from < s.len() {
        assert(line.subrange(from, from + 1)[0] == s[from]);
        lemma_first_such_char(s, c, rest, from + 1);
    } else {
        assert(line.subrange(from, from + 1) =~= seq![c]);
    }
}

/// A chunk's size read from a line that goes on past a `;` with an
/// extension: the extension is passed over, whatever it says.
pub proof fn lemma_a_chunk_extension_is_passed_over(n: nat, upper: bool, extension: Seq<char>)
    requires
        n <= usize::MAX,
    ensures
        chunk_size(hex_spelling(n, upper) + seq![';'] + extension) == Some(n),
{
    lemma_a_chunk_size_reads_as_written(n, upper);
    lemma_spelling_value(n, upper);
    let s = hex_spelling(n, upper);
    assert forall|k: int| 0 <= k < s.len() implies s[k] != ';' by {
        assert(hex_digit(s[k]) is Some);
    }
    lemma_first_such_char(s, ';', extension, 0);
    assert((s + seq![';'] + extension).take(s.len() as int) =~= s);
}

/// A chunk's size padded with spaces on either side reads as without them.
pub proof fn lemma_spaces_around_a_chunk_size_are_passed_over(n: nat, upper: bool)
    requires
        n <= usize::MAX,
    ensures
        chunk_size(seq![' '] + hex_spelling(n, upper) + seq![' ']) == Some(n),
{
    lemma_a_chunk_size_reads_as_written(n, upper);
    lemma_spelling_value(n, upper);
    let s = hex_spelling(n, upper);
    let line = seq![' '] + s + seq![' '];
    assert forall|k: int| 0 <= k < line.len() implies line[k] != ';' by {
        if 1 <= k < line.len() - 1 {
            assert(line[k] == s[k - 1]);
            assert(hex_digit(s[k - 1]) is Some);
        }
    }
    lemma_no_such_char(line, ';', 0);
    assert(before(line, ';') == line);
    assert(line.drop_first() =~= s + seq![' ']);
    assert((s + seq![' ']).drop_last() =~= s);
    assert(hex_digit(s[0]) is Some);
    assert(hex_digit(s.last()) is Some);
    assert((s + seq![' '])[0] == s[0]);
    assert(trimmed(s + seq![' ']) == trimmed(s));
    assert(trimmed(line) == trimmed(s + seq![' ']));
}

/// What `usize::from_str_radix(_, 16)` reads: an optional `+`, then one or
/// more hexadecimal digits, of a value that fits.
pub open spec fn hex_usize(s: Seq<char>) -> Option<nat> {
    let ds = if s.len() > 0 && s[0] == '+' { s.drop_first() } else { s };
    if ds.len() == 0 {
        None
    } else {
        match hex_number(ds) {
            Some(v) => if v <= usize::MAX { Some(v) } else { None },
            None => None,
        }
    }
}

/// `s` with the white space at both ends removed, as `str::trim` does.
pub open spec fn trimmed(s: Seq<char>) -> Seq<char>
    decreases s.len(),
{
    if s.len() > 0 && is_ws(s[0]) {
        trimmed(s.drop_first())
    } else if s.len() > 0 && is_ws(s.last()) {
        trimmed(s.drop_last())
    } else {
        s
    }
}

/// `s` up to its first `c`.
pub open spec fn before(s: Seq<char>, c: char) -> Seq<char> {
    match find(s, seq![c]) {
        Some(i) => s.take(i),
        None => s,
    }
}

/// A chunk size line: the hexadecimal number before any `;` extension.
pub open spec fn chunk_size(line: Seq<char>) -> Option<nat> {
    hex_usize(trimmed(before(line, ';')))
}

fn trim_chars(s: &Vec<char>) -> (r: Vec<char>)
    ensures
        r@ == trimmed(s@),
{
    let mut lo: usize = 0;
    let mut hi: usize = s.len();
    assert(s@.subrange(0, s@.len() as int) == s@);
    while lo < hi && is_whitespace(s[lo])
        invariant
            lo <= hi <= s@.len(),
            hi == s@.len(),
            trimmed(s@) == trimmed(s@.subrange(lo as int, hi as int)),
        decreases hi - lo,
    {
        assert(s@.subrange(lo as int, hi as int).drop_first() == s@.subrange(lo + 1, hi as int));
        lo = lo + 1;
    }
    while lo < hi && is_whitespace(s[hi - 1])
        invariant
            lo <= hi <= s@.len(),
            trimmed(s@) == trimmed(s@.subrange(lo as int, hi as int)),
            lo < hi ==> !is_ws(s@[lo as int]),
        decreases hi - lo,
    {
        assert(s@.subrange(lo as int, hi as int).drop_last() == s@.subrange(lo as int, hi - 1));
        hi = hi - 1;
    }
    let mut r: Vec<char> = Vec::new();
    let mut k = lo;
    while k < hi
        invariant
            lo <= k <= hi <= s@.len(),
            r@ == s@.subrange(lo as int, k as int),
        decreases hi - k,
    {
        r.push(s[k]);
        k = k + 1;
    }
    r
}

fn hex_value_of(c: char) -> (r: Option<usize>)
    ensures
        r matches Some(v) ==> hex_digit(c) == Some(v as nat),
        r is None ==> hex_digit(c) is None,
{
    if '0' <= c && c <= '9' {
        Some((c as u32 - '0' as u32) as usize)
    } else if 'a' <= c && c <= 'f' {
        Some((c as u32 - 'a' as u32 + 10) as usize)
    } else if 'A' <= c && c <= 'F' {
        Some((c as u32 - 'A' as u32 + 10) as usize)
    } else {
        None
    }
}

proof fn lemma_hex_prefix(ds: Seq<char>, k: int)
    requires
        0 <= k <= ds.len(),
    ensures
        hex_number(ds) matches Some(v) ==> (hex_number(ds.take(k)) matches Some(u) && u <= v),
    decreases ds.len(),
{
    if k == ds.len() {
        assert(ds.take(k) == ds);
    } else {
        lemma_hex_prefix(ds.drop_last(), k);
        assert(ds.drop_last().take(k) == ds.take(k));
    }
}

/// A line up to its first `;`.
fn before_semicolon(line: &Vec<char>) -> (r: Vec<char>)
    ensures
        r@ == before(line@, ';'),
{
    let mut field: Vec<char> = Vec::new();
    let mut i: usize = 0;
    while i < line.len() && line[i] != ';'
        invariant
            i <= line@.len(),
            field@ == line@.take(i as int),
            forall|k: int| 0 <= k < i ==> line@[k] != ';',
        decreases line@.len() - i,
    {
        field.push(line[i]);
        i = i + 1;
    }
    proof {
        let semi = seq![';'];
        assert forall|k: int| 0 <= k < i implies #[trigger] find_from(line@, semi, k) == find_from(line@, semi, k + 1) by {
            assert(line@.subrange(k, k + 1)[0] == line@[k]);
            assert(line@.subrange(k, k + 1) != semi);
        }
        lemma_find_prefix(line@, semi, 0, i as int);
        if i < line.len() {
            assert(line@.subrange(i as int, i + 1) =~= semi);
            assert(find_from(line@, semi, i as int) == Some(i as int));
        } else {
            assert(find_from(line@, semi, i as int) is None);
            assert(line@.take(i as int) == line@);
        }
    }
    field
}

/// What `usize::from_str_radix(_, 16)` makes of these characters.
fn hex_usize_of(t: &Vec<char>) -> (r: Option<usize>)
    ensures
        r matches Some(v) ==> hex_usize(t@) == Some(v as nat),
        r is None ==> hex_usize(t@) is None,
{
    let mut start: usize = 0;
    if t.len() > 0 && t[0] == '+' {
        start = 1;
    }
    let ghost ds = if t@.len() > 0 && t@[0] == '+' { t@.drop_first() } else { t@ };
    assert(ds == t@.subrange(start as int, t@.len() as int));
    if start >= t.len() {
        return None;
    }
    let mut v: usize = 0;
    let mut k = start;
    assert(ds.take(0) =~= Seq::<char>::empty());
    while k < t.len()
        invariant
            start <= k <= t@.len(),
            ds == t@.subrange(start as int, t@.len() as int),
            ds == if t@.len() > 0 && t@[0] == '+' { t@.drop_first() } else { t@ },
            ds.len() > 0,
            hex_number(ds.take(k - start)) == Some(v as nat),
        decreases t@.len() - k,
    {
        assert(ds.take(k - start + 1).drop_last() == ds.take(k - start));
        assert(ds.take(k - start + 1).last() == t@[k as int]);
        let d = match hex_value_of(t[k]) {
            Some(d) => d,
            None => {
                proof {
                    lemma_hex_none(ds, k - start + 1);
                }
                return None;
            },
        };
        if v > (usize::MAX - d) / 16 {
            proof {
                lemma_hex_prefix(ds, k - start + 1);
                assert(hex_number(ds.take(k - start + 1)) == Some(16 * (v as nat) + (d as nat)));
            }
            return None;
        }
        v = 16 * v + d;
        k = k + 1;
    }
    assert(ds.take(ds.len() as int) == ds);
    Some(v)
}

/// Read a chunk size: the number before any `;`, trimmed, in hexadecimal.
fn parse_chunk_size(line: &Vec<char>) -> (r: Option<usize>)
    ensures
        r matches Some(v) ==> chunk_size(line@) == Some(v as nat),
        r is None ==> chunk_size(line@) is None,
{
    let field = before_semicolon(line);
    let t = trim_chars(&field);
    hex_usize_of(&t)
}

proof fn lemma_hex_none(ds: Seq<char>, k: int)
    requires
        0 < k <= ds.len(),
        hex_number(ds.take(k)) is None,
    ensures
        hex_number(ds) is None,
    decreases ds.len() - k,
{
    if k < ds.len() {
        assert(ds.take(k + 1).drop_last() == ds.take(k));
        lemma_hex_none(ds, k + 1);
    } else {
        assert(ds.take(k) == ds);
    }
}

proof fn lemma_find_prefix<T>(s: Seq<T>, pat: Seq<T>, k: int, i: int)
    requires
        0 <= k <= i,
        forall|j: int| k <= j < i ==> #[trigger] find_from(s, pat, j) == find_from(s, pat, j + 1),
    ensures
        find_from(s, pat, k) == find_from(s, pat, i),
    decreases i - k,
{
    if k < i {
        lemma_find_prefix(s, pat, k + 1, i);
    }
}


/// The body a chunked transfer encodes, or why it cannot be read.
pub open spec fn dechunk_spec(body: Seq<u8>) -> Result<Seq<u8>, ReplyError>
    decreases body.len(),
{
    match find(body, seq![13u8, 10u8]) {
        None => Err(ReplyError::EndedMidChunk),
        Some(e) => match chunk_size(bytes_text(body.take(e))) {
            None => Err(ReplyError::NotHexadecimal),
            Some(size) => {
                proof {
                    lemma_find_bounds(body, seq![13u8, 10u8], 0);
                }
                let rest = body.skip(e + 2);
                if size == 0 {
                    Ok(seq![])
                } else if size > rest.len() {
                    Err(ReplyError::CutShort)
                } else {
                    let tail = if size + 2 <= rest.len() { rest.skip((size + 2) as int) } else { seq![] };
                    match dechunk_spec(tail) {
                        Ok(more) => Ok(rest.take(size as int) + more),
                        Err(x) => Err(x),
                    }
                }
            },
        },
    }
}

/// `out` put in front of what `r` read, or `r`'s error.
pub open spec fn after_prefix(out: Seq<u8>, r: Result<Seq<u8>, ReplyError>) -> Result<Seq<u8>, ReplyError> {
    match r {
        Ok(m) => Ok(out + m),
        Err(e) => Err(e),
    }
}

/// Undo HTTP's chunked transfer encoding.
pub fn dechunk(body: &[u8]) -> (r: Result<Vec<u8>, ReplyError>)
    ensures
        dechunk_spec(body@) matches Ok(b) ==> (r matches Ok(v) && v@ == b),
        dechunk_spec(body@) matches Err(e) ==> r == Err::<Vec<u8>, ReplyError>(e),
{
    let mut out: Vec<u8> = Vec::new();
    let mut rest: &[u8] = body;
    let crlf: [u8; 2] = [13, 10];
    assert(crlf@ == seq![13u8, 10u8]);
    assert(out@ + Seq::<u8>::empty() == out@);
    loop
        invariant
            crlf@ == seq![13u8, 10u8],
            dechunk_spec(body@) == after_prefix(out@, dechunk_spec(rest@)),
        decreases rest@.len(),
    {
        let n = rest.len();
        let line_end = match find_bytes(rest, crlf.as_slice(), 0) {
            Some(e) => e,
            None => {
                return Err(ReplyError::EndedMidChunk);
            },
        };
        proof {
            lemma_find_bounds(rest@, crlf@, 0);
        }
        let (line, _) = rest.split_at(line_end);
        let text = lossy_text(line);
        let size = match parse_chunk_size(&chars_of(text.as_str())) {
            Some(size) => size,
            None => {
                return Err(ReplyError::NotHexadecimal);
            },
        };
        let ghost whole = rest@;
        let (_, after) = rest.split_at(line_end + 2);
        if size == 0 {
            assert(out@ + Seq::<u8>::empty() == out@);
            return Ok(out);
        }
        if size > after.len() {
            return Err(ReplyError::CutShort);
        }
        let (chunk, _) = after.split_at(size);
        let mut k: usize = 0;
        let ghost before = out@;
        while k < chunk.len()
            invariant
                k <= chunk@.len(),
                out@ == before + chunk@.take(k as int),
            decreases chunk@.len() - k,
        {
            out.push(chunk[k]);
            k = k + 1;
            assert(chunk@.take(k as int) == chunk@.take(k - 1).push(chunk@[k - 1]));
        }
        assert(chunk@.take(chunk@.len() as int) == chunk@);
        let m = after.len();
        if size + 2 <= m {
            let (_, tail) = after.split_at(size + 2);
            rest = tail;
        } else {
            rest = &[];
            assert(rest@ == Seq::<u8>::empty());
        }
        proof {
            assert(before + chunk@ + Seq::<u8>::empty() == before + chunk@);
            match dechunk_spec(rest@) {
                Ok(more) => {
                    assert(before + (chunk@ + more) == before + chunk@ + more);
                },
                Err(_) => {},
            }
        }
    }
}

/// The first paragraph of a description, its line breaks made spaces.
pub open spec fn paragraph(text: Seq<char>) -> Seq<char> {
    let para = match find(text, seq!['\n', '\n']) {
        Some(i) => text.take(i),
        None => text,
    };
    para.map_values(|c: char| if c == '\n' { ' ' } else { c })
}

/// The first sentence of a description: its first paragraph, up to and
/// including the first full stop followed by a space.
pub open spec fn first_sentence_spec(text: Seq<char>) -> Seq<char> {
    let p = paragraph(text);
    match find(p, seq!['.', ' ']) {
        Some(end) => p.take(end + 1),
        None => p,
    }
}

/// The first sentence of a description, which is written to stand alone;
/// the paragraph after it is for a reader with more room.
pub fn first_sentence(text: &str) -> (s: String)
    ensures
        s@ == first_sentence_spec(text@),
{
    let cs = chars_of(text);
    let mut breaks: Vec<char> = Vec::new();
    breaks.push('\n');
    breaks.push('\n');
    assert(breaks@ == seq!['\n', '\n']);
    let end = match find_chars(&cs, &breaks, 0) {
        Some(i) => {
            proof {
                lemma_find_bounds(cs@, breaks@, 0);
            }
            i
        },
        None => cs.len(),
    };
    let ghost para = match find(text@, seq!['\n', '\n']) {
        Some(i) => text@.take(i),
        None => text@,
    };
    assert(para == cs@.take(end as int));
    let mut p: Vec<char> = Vec::new();
    let mut k: usize = 0;
    while k < end
        invariant
            k <= end <= cs@.len(),
            para == cs@.take(end as int),
            p@ == para.take(k as int).map_values(|c: char| if c == '\n' { ' ' } else { c }),
        decreases end - k,
    {
        let c = cs[k];
        p.push(if c == '\n' { ' ' } else { c });
        k = k + 1;
        assert(para.take(k as int).map_values(|c: char| if c == '\n' { ' ' } else { c }) == para.take(k - 1).map_values(
            |c: char| if c == '\n' { ' ' } else { c },
        ).push(if c == '\n' { ' ' } else { c }));
    }
    assert(para.take(end as int) == para);
    assert(p@ == paragraph(text@));
    let mut stop: Vec<char> = Vec::new();
    stop.push('.');
    stop.push(' ');
    assert(stop@ == seq!['.', ' ']);
    match find_chars(&p, &stop, 0) {
        Some(e) => {
            proof {
                lemma_find_bounds(p@, stop@, 0);
            }
            let mut out: Vec<char> = Vec::new();
            let mut k: usize = 0;
            let plen = p.len();
            while k <= e
                invariant
                    plen == p@.len(),
                    k <= e + 1,
                    e + 2 <= p@.len(),
                    out@ == p@.take(k as int),
                decreases e + 1 - k,
            {
                out.push(p[k]);
                k = k + 1;
                assert(p@.take(k as int) == p@.take(k - 1).push(p@[k - 1]));
            }
            string_of(out.as_slice())
        },
        None => string_of(p.as_slice()),
    }
}

/// A tool input's type, as its schema writes it: a name, a list whose
/// members that are names are alternatives, an enumeration, or anything else.
pub enum SchemaType {
    Named(String),
    Union(Vec<Option<String>>),
    Enum,
    Other,
}

/// The names of a union, in order.
pub open spec fn union_names(ts: Seq<Option<String>>) -> Seq<Seq<char>>
    decreases ts.len(),
{
    if ts.len() == 0 {
        Seq::empty()
    } else {
        match ts.last() {
            Some(t) => union_names(ts.drop_last()).push(t@),
            None => union_names(ts.drop_last()),
        }
    }
}

/// A type as a listing names it: alternatives are joined by " | ".
pub open spec fn kind_name_spec(t: SchemaType) -> Seq<char> {
    match t {
        SchemaType::Named(n) => n@,
        SchemaType::Union(ts) => crate::scan::joined(union_names(ts@), " | "@),
        SchemaType::Enum => "enum"@,
        SchemaType::Other => "object"@,
    }
}

/// A type as a listing names it.
pub fn kind_name(t: &SchemaType) -> (s: String)
    ensures
        s@ == kind_name_spec(*t),
{
    match t {
        SchemaType::Named(n) => n.clone(),
        SchemaType::Union(ts) => {
            let mut names: Vec<Vec<char>> = Vec::new();
            let mut i: usize = 0;
            while i < ts.len()
                invariant
                    i <= ts@.len(),
                    crate::scan::rows(names@) == union_names(ts@.take(i as int)),
                decreases ts@.len() - i,
            {
                proof {
                    assert(ts@.take(i + 1).drop_last() == ts@.take(i as int));
                    assert(ts@.take(i + 1).last() == ts@[i as int]);
                }
                match &ts[i] {
                    Some(name) => {
                        let ghost before = crate::scan::rows(names@);
                        names.push(chars_of(name.as_str()));
                        assert(crate::scan::rows(names@) =~= before.push(name@));
                    },
                    None => {},
                }
                i = i + 1;
            }
            assert(ts@.take(ts@.len() as int) == ts@);
            string_of(crate::scan::join_rows(&names, chars_of(" | ").as_slice()).as_slice())
        },
        SchemaType::Enum => String::from_str("enum"),
        SchemaType::Other => String::from_str("object"),
    }
}

/// One input a tool takes.
pub struct ToolInput {
    pub key: String,
    pub kind: SchemaType,
    pub description: String,
}

/// A tool as the host lists it: its name, what it does, its inputs in the
/// schema's order, and which of them are required.
pub struct ToolInfo {
    pub name: String,
    pub description: String,
    pub inputs: Vec<ToolInput>,
    pub required: Vec<String>,
}

/// Whether `key` is among the required inputs.
pub open spec fn is_required(required: Seq<String>, key: Seq<char>) -> bool {
    exists|i: int| 0 <= i < required.len() && (#[trigger] required[i])@ == key
}

/// One input's line: `--set key  (type, required): first sentence`.
pub open spec fn input_line(input: ToolInput, required: Seq<String>) -> Seq<char> {
    let about = first_sentence_spec(input.description@);
    "    --set "@ + input.key@ + "  ("@ + kind_name_spec(input.kind) + (if is_required(required, input.key@) {
        ", required"@
    } else {
        Seq::empty()
    }) + ")"@ + (if about.len() == 0 {
        Seq::empty()
    } else {
        ": "@ + about
    }) + "\n"@
}

/// The lines of a tool's inputs.
pub open spec fn input_lines(inputs: Seq<ToolInput>, required: Seq<String>) -> Seq<char>
    decreases inputs.len(),
{
    if inputs.len() == 0 {
        Seq::empty()
    } else {
        input_lines(inputs.drop_last(), required) + input_line(inputs.last(), required)
    }
}

/// A tool's block in a listing: its name, its first sentence, its inputs,
/// and a blank line.
pub open spec fn tool_block(t: ToolInfo) -> Seq<char> {
    t.name@ + "\n"@ + "    "@ + first_sentence_spec(t.description@) + "\n"@ + input_lines(t.inputs@, t.required@) + "\n"@
}

/// The blocks of all tools, in order.
pub open spec fn tool_blocks(tools: Seq<ToolInfo>) -> Seq<char>
    decreases tools.len(),
{
    if tools.len() == 0 {
        Seq::empty()
    } else {
        tool_blocks(tools.drop_last()) + tool_block(tools.last())
    }
}

/// What a listing ends with: how many tools there are and how to call one.
pub open spec fn listing_footer(n: nat) -> Seq<char> {
    crate::text::decimal(n)
        + " tools. `parcad call <tool> --set key=value --set key=@file --set key:=<json>`; `parcad tools --json` for the full schemas.\n"@
}

fn required_has(required: &Vec<String>, key: &str) -> (b: bool)
    ensures
        b == is_required(required@, key@),
{
    let mut i: usize = 0;
    while i < required.len()
        invariant
            i <= required@.len(),
            forall|j: int| 0 <= j < i ==> (#[trigger] required@[j])@ != key@,
        decreases required@.len() - i,
    {
        if crate::text::str_eq(required[i].as_str(), key) {
            return true;
        }
        i = i + 1;
    }
    false
}

fn push_tool(out: &mut String, t: &ToolInfo)
    ensures
        final(out)@ == old(out)@ + tool_block(*t),
{
    let ghost start = out@;
    crate::text::push_str(out, t.name.as_str());
    crate::text::push_str(out, "\n");
    crate::text::push_str(out, "    ");
    crate::text::push_str(out, first_sentence(t.description.as_str()).as_str());
    crate::text::push_str(out, "\n");
    let ghost head = out@;
    let mut i: usize = 0;
    while i < t.inputs.len()
        invariant
            i <= t.inputs@.len(),
            out@ == head + input_lines(t.inputs@.take(i as int), t.required@),
        decreases t.inputs@.len() - i,
    {
        proof {
            assert(t.inputs@.take(i + 1).drop_last() == t.inputs@.take(i as int));
            assert(t.inputs@.take(i + 1).last() == t.inputs@[i as int]);
        }
        let input = &t.inputs[i];
        let ghost before = out@;
        crate::text::push_str(out, "    --set ");
        crate::text::push_str(out, input.key.as_str());
        crate::text::push_str(out, "  (");
        crate::text::push_str(out, kind_name(&input.kind).as_str());
        if required_has(&t.required, input.key.as_str()) {
            crate::text::push_str(out, ", required");
        }
        crate::text::push_str(out, ")");
        let about = first_sentence(input.description.as_str());
        if !about.as_str().is_empty() {
            crate::text::push_str(out, ": ");
            crate::text::push_str(out, about.as_str());
        }
        crate::text::push_str(out, "\n");
        assert(out@ =~= before + input_line(*input, t.required@));
        i = i + 1;
    }
    assert(t.inputs@.take(t.inputs@.len() as int) == t.inputs@);
    crate::text::push_str(out, "\n");
}

/// What `parcad tools` prints: each tool with its first sentence and its
/// inputs, then how many there are and how to call one.
pub fn tool_listing(tools: &[ToolInfo]) -> (s: String)
    ensures
        s@ == tool_blocks(tools@) + listing_footer(tools@.len()),
{
    let mut s = String::new();
    let mut i: usize = 0;
    while i < tools.len()
        invariant
            i <= tools@.len(),
            s@ == tool_blocks(tools@.take(i as int)),
        decreases tools@.len() - i,
    {
        proof {
            assert(tools@.take(i + 1).drop_last() == tools@.take(i as int));
            assert(tools@.take(i + 1).last() == tools@[i as int]);
        }
        push_tool(&mut s, &tools[i]);
        i = i + 1;
    }
    assert(tools@.take(tools@.len() as int) == tools@);
    crate::text::push_str(&mut s, crate::text::decimal_string(tools.len() as u64).as_str());
    crate::text::push_str(
        &mut s,
        " tools. `parcad call <tool> --set key=value --set key=@file --set key:=<json>`; `parcad tools --json` for the full schemas.\n",
    );
    s
}

/// The file an image in a reply is written to: the tool's name, the
/// image's place among the reply's images, and `jpg` for a JPEG, `png` for
/// anything else.
pub open spec fn image_file_spec(tool: Seq<char>, index: nat, mime: Option<Seq<char>>) -> Seq<char> {
    tool + "-"@ + crate::text::decimal(index) + "."@ + if mime == Some("image/jpeg"@) {
        "jpg"@
    } else {
        "png"@
    }
}

/// The file an image in a reply is written to.
pub fn image_file(tool: &str, index: u64, mime: Option<&str>) -> (s: String)
    ensures
        s@ == image_file_spec(tool@, index as nat, match mime {
            Some(m) => Some(m@),
            None => None,
        }),
{
    let mut s = String::from_str(tool);
    crate::text::push_str(&mut s, "-");
    crate::text::push_str(&mut s, crate::text::decimal_string(index).as_str());
    crate::text::push_str(&mut s, ".");
    let jpeg = match mime {
        Some(m) => crate::text::str_eq(m, "image/jpeg"),
        None => false,
    };
    crate::text::push_str(&mut s, if jpeg { "jpg" } else { "png" });
    s
}

/// What standard base64 (RFC 4648 alphabet, padded) decodes `text` to, or
/// `None` where `text` is not base64.
pub uninterp spec fn base64_standard(text: Seq<char>) -> Option<Seq<u8>>;

/// `base64::engine::general_purpose::STANDARD.decode`: the bytes, or `None`
/// where the text is not base64. Trusted to be a function of the text alone.
#[verifier::external_body]
fn decode_base64(text: &str) -> (r: Option<Vec<u8>>)
    ensures
        r is Some <==> base64_standard(text@) is Some,
        r matches Some(v) ==> base64_standard(text@) == Some(v@),
{
    base64::engine::general_purpose::STANDARD.decode(text).ok()
}

/// One item of a tool's reply `content`: its `type`, and its `text`, `data`
/// and `mimeType` where each is a string.
pub struct ReplyItem {
    pub kind: Option<String>,
    pub text: Option<String>,
    pub data: Option<String>,
    pub mime: Option<String>,
}

/// A text that may be absent, as values.
pub open spec fn opt_view(t: Option<String>) -> Option<Seq<char>> {
    match t {
        Some(s) => Some(s@),
        None => None,
    }
}

/// An item as values: type, text, data, MIME type.
pub open spec fn item_view(i: ReplyItem) -> (Option<Seq<char>>, Option<Seq<char>>, Option<Seq<char>>, Option<Seq<char>>) {
    (opt_view(i.kind), opt_view(i.text), opt_view(i.data), opt_view(i.mime))
}

/// A text, or the empty text where there is none.
pub open spec fn or_empty(t: Option<Seq<char>>) -> Seq<char> {
    match t {
        Some(s) => s,
        None => Seq::empty(),
    }
}

/// What a reply's items come to, read in order: the texts (a missing text
/// read as empty), the images as the file each is written to and its
/// decoded bytes, and whether reading stopped at an image whose data is not
/// base64. Items of any other type are passed over.
pub open spec fn reply_spec(
    tool: Seq<char>,
    items: Seq<(Option<Seq<char>>, Option<Seq<char>>, Option<Seq<char>>, Option<Seq<char>>)>,
) -> (Seq<Seq<char>>, Seq<(Seq<char>, Seq<u8>)>, bool)
    decreases items.len(),
{
    if items.len() == 0 {
        (Seq::empty(), Seq::empty(), false)
    } else {
        let (texts, files, failed) = reply_spec(tool, items.drop_last());
        let it = items.last();
        if failed {
            (texts, files, true)
        } else if it.0 == Some("text"@) {
            (texts.push(or_empty(it.1)), files, false)
        } else if it.0 == Some("image"@) {
            match base64_standard(or_empty(it.2)) {
                Some(bytes) => (texts, files.push((image_file_spec(tool, files.len(), it.3), bytes)), false),
                None => (texts, files, true),
            }
        } else {
            (texts, files, false)
        }
    }
}

/// What the client reports when an image in a reply is not base64.
pub const BAD_IMAGE: &'static str = "decoding an image the host sent";

fn kind_is(kind: &Option<String>, name: &str) -> (b: bool)
    ensures
        b == (opt_view(*kind) == Some(name@)),
{
    match kind {
        Some(k) => crate::text::str_eq(k.as_str(), name),
        None => false,
    }
}

fn text_or_empty(t: &Option<String>) -> (s: String)
    ensures
        s@ == or_empty(opt_view(*t)),
{
    match t {
        Some(x) => x.clone(),
        None => String::new(),
    }
}

/// Read a tool's reply items: the texts to print, the image files to write
/// with their bytes, and whether an image could not be decoded (reading
/// stops there, so the files are those before it).
pub fn reply_outputs(tool: &str, items: &[ReplyItem]) -> (r: (Vec<String>, Vec<(String, Vec<u8>)>, bool))
    ensures
        ({
            let (texts, files, failed) = reply_spec(tool@, items@.map_values(|i: ReplyItem| item_view(i)));
            &&& r.0@.map_values(|s: String| s@) == texts
            &&& r.1@.map_values(|f: (String, Vec<u8>)| (f.0@, f.1@)) == files
            &&& r.2 == failed
        }),
{
    let ghost all = items@.map_values(|i: ReplyItem| item_view(i));
    let mut texts: Vec<String> = Vec::new();
    let mut files: Vec<(String, Vec<u8>)> = Vec::new();
    let mut i: usize = 0;
    while i < items.len()
        invariant
            i <= items@.len(),
            all == items@.map_values(|i: ReplyItem| item_view(i)),
            ({
                let (ts, fs, failed) = reply_spec(tool@, all.take(i as int));
                &&& texts@.map_values(|s: String| s@) == ts
                &&& files@.map_values(|f: (String, Vec<u8>)| (f.0@, f.1@)) == fs
                &&& !failed
            }),
        decreases items@.len() - i,
    {
        let ghost before = all.take(i as int);
        proof {
            assert(all.take(i + 1).drop_last() =~= before);
            assert(all.take(i + 1).last() == item_view(items@[i as int]));
        }
        let item = &items[i];
        if kind_is(&item.kind, "text") {
            let s = text_or_empty(&item.text);
            let ghost t0 = texts@;
            texts.push(s);
            proof {
                assert(texts@.map_values(|s: String| s@) =~= t0.map_values(|s: String| s@).push(or_empty(opt_view(item.text))));
            }
        } else if kind_is(&item.kind, "image") {
            let data = text_or_empty(&item.data);
            match decode_base64(data.as_str()) {
                Some(bytes) => {
                    let mime = match &item.mime {
                        Some(m) => Some(m.as_str()),
                        None => None,
                    };
                    let name = image_file(tool, files.len() as u64, mime);
                    let ghost f0 = files@;
                    files.push((name, bytes));
                    proof {
                        assert(files@.map_values(|f: (String, Vec<u8>)| (f.0@, f.1@)) =~= f0.map_values(
                            |f: (String, Vec<u8>)| (f.0@, f.1@),
                        ).push((image_file_spec(tool@, f0.len(), opt_view(item.mime)), bytes@)));
                    }
                },
                None => {
                    proof {
                        lemma_prefix_stays(tool@, all, i + 1);
                    }
                    return (texts, files, true);
                },
            }
        }
        i = i + 1;
    }
    proof {
        assert(all.take(i as int) =~= all);
    }
    (texts, files, false)
}

proof fn lemma_failed_stays(
    tool: Seq<char>,
    all: Seq<(Option<Seq<char>>, Option<Seq<char>>, Option<Seq<char>>, Option<Seq<char>>)>,
    m: int,
    n: int,
)
    requires
        0 <= m <= n <= all.len(),
        reply_spec(tool, all.take(m)).2,
    ensures
        reply_spec(tool, all.take(n)) == reply_spec(tool, all.take(m)),
    decreases n - m,
{
    if n > m {
        lemma_failed_stays(tool, all, m, n - 1);
        assert(all.take(n).drop_last() =~= all.take(n - 1));
    }
}

proof fn lemma_prefix_stays(
    tool: Seq<char>,
    all: Seq<(Option<Seq<char>>, Option<Seq<char>>, Option<Seq<char>>, Option<Seq<char>>)>,
    m: int,
)
    requires
        0 <= m <= all.len(),
        reply_spec(tool, all.take(m)).2,
    ensures
        reply_spec(tool, all) == reply_spec(tool, all.take(m)),
{
    lemma_failed_stays(tool, all, m, all.len() as int);
    assert(all.take(all.len() as int) =~= all);
}

/// A JSON value, carried through unread.
#[verifier::external_type_specification]
#[verifier::external_body]
pub struct ExJsonValue(serde_json::Value);

/// What `serde_json` reads `text` as: JSON, and then whether it is an
/// object, or not JSON, with the error `serde_json` gives.
pub uninterp spec fn json_reading(text: Seq<char>) -> Result<bool, Seq<char>>;

/// The value `serde_json` reads `text` as, where it is JSON.
pub uninterp spec fn json_value(text: Seq<char>) -> serde_json::Value;

/// `serde_json::from_str::<Value>`: the value with whether it is an object,
/// or the parser's error as text. Trusted to be a function of the text alone.
#[verifier::external_body]
fn parse_json(text: &str) -> (r: Result<(serde_json::Value, bool), String>)
    ensures
        r is Ok == json_reading(text@) is Ok,
        r matches Ok(p) ==> (json_reading(text@) matches Ok(o) && o == p.1),
        r matches Ok(p) ==> p.0 == json_value(text@),
        r matches Err(e) ==> (json_reading(text@) matches Err(m) && m == e@),
{
    match serde_json::from_str::<serde_json::Value>(text) {
        Ok(value) => {
            let object = value.is_object();
            Ok((value, object))
        },
        Err(e) => Err(e.to_string()),
    }
}

/// What a call's argument text is refused with, if it is refused.
pub open spec fn arguments_refusal(text: Seq<char>) -> Option<Seq<char>> {
    match json_reading(text) {
        Ok(true) => None,
        Ok(false) => Some("the arguments must be a JSON object"@),
        Err(e) => Some("the arguments are not JSON ("@ + e + "); a script goes in with --set script=@part.js"@),
    }
}

/// A tool call's arguments, from the text a caller gave: a JSON object, or
/// why the text is not one.
pub fn arguments_of(text: &str) -> (r: Result<serde_json::Value, String>)
    ensures
        r is Ok <==> arguments_refusal(text@) is None,
        r matches Ok(v) ==> v == json_value(text@),
        r matches Err(e) ==> arguments_refusal(text@) == Some(e@),
{
    match parse_json(text) {
        Ok((value, true)) => Ok(value),
        Ok((_, false)) => Err(String::from_str("the arguments must be a JSON object")),
        Err(e) => {
            let mut m = String::from_str("the arguments are not JSON (");
            push_str(&mut m, e.as_str());
            push_str(&mut m, "); a script goes in with --set script=@part.js");
            Err(m)
        },
    }
}

/// What one `--set` gives an argument: parsed JSON (`key:=json`), a file's
/// text to be read (`key=@file`), or the text itself (`key=value`).
pub enum SetValue {
    Json(serde_json::Value),
    File(String),
    Text(String),
}

/// Where `pat` first occurs in `s`, split around it.
pub open spec fn split_once(s: Seq<char>, pat: Seq<char>) -> Option<(Seq<char>, Seq<char>)> {
    match find(s, pat) {
        Some(i) => Some((s.take(i), s.skip(i + pat.len()))),
        None => None,
    }
}

/// What one `--set` pair means, as values: the key with the JSON's text, a
/// file, or a text; or the refusal with its cause.
pub open spec fn set_spec(pair: Seq<char>) -> Result<(Seq<char>, u8, Seq<char>), (Seq<char>, Option<Seq<char>>)> {
    match split_once(pair, ":="@) {
        Some((key, raw)) => match json_reading(raw) {
            Ok(_) => Ok((key, 0u8, raw)),
            Err(e) => Err((key + ":= needs JSON, got "@ + quoted(raw), Some(e))),
        },
        None => match split_once(pair, seq!['=']) {
            Some((key, raw)) => if begins(raw, seq!['@']) {
                Ok((key, 1u8, raw.skip(1)))
            } else {
                Ok((key, 2u8, raw))
            },
            None => Err(("--set needs key=value, got "@ + quoted(pair), None)),
        },
    }
}

fn split_at_pattern(cs: &Vec<char>, pat: &str) -> (r: Option<(String, String)>)
    requires
        pat@.len() > 0,
    ensures
        r matches Some((a, b)) ==> split_once(cs@, pat@) == Some((a@, b@)),
        r is None ==> split_once(cs@, pat@) is None,
{
    let p = chars_of(pat);
    match find_chars(cs, &p, 0) {
        Some(i) => {
            proof {
                lemma_find_bounds(cs@, p@, 0);
            }
            let plen = p.len();
            let n = cs.len();
            assert(i + plen <= n);
            let end = i + plen;
            let key = copy_range(cs.as_slice(), 0, i);
            let raw = copy_range(cs.as_slice(), end, n);
            assert(key@ == cs@.take(i as int));
            assert(raw@ == cs@.skip(i + p@.len()));
            Some((string_of(key.as_slice()), string_of(raw.as_slice())))
        },
        None => None,
    }
}

/// One `--set` pair of `parcad call`: `key:=json`, `key=@file` or
/// `key=value`, or why it is none of them (with the parser's error, where
/// that is the cause).
pub fn parse_set(pair: &str) -> (r: Result<(String, SetValue), (String, Option<String>)>)
    ensures
        set_spec(pair@) matches Ok((key, how, text)) ==> (r matches Ok((k, v)) && k@ == key && match v {
            SetValue::Json(j) => how == 0 && j == json_value(text),
            SetValue::File(f) => how == 1 && f@ == text,
            SetValue::Text(s) => how == 2 && s@ == text,
        }),
        set_spec(pair@) matches Err((context, cause)) ==> (r matches Err((c, e)) && c@ == context && match e {
            Some(m) => cause == Some(m@),
            None => cause is None,
        }),
{
    proof {
        reveal_strlit(":=");
        reveal_strlit("=");
        reveal_strlit("@");
        assert("="@ =~= seq!['=']);
    }
    let cs = chars_of(pair);
    match split_at_pattern(&cs, ":=") {
        Some((key, raw)) => match parse_json(raw.as_str()) {
            Ok((value, _)) => {
                assert(set_spec(pair@) == Ok::<(Seq<char>, u8, Seq<char>), (Seq<char>, Option<Seq<char>>)>((key@, 0u8, raw@)));
                Ok((key, SetValue::Json(value)))
            },
            Err(e) => {
                let q = crate::text::debug_string(raw.as_str());
                assert(q@ == quoted(raw@));
                let mut c = key;
                push_str(&mut c, ":= needs JSON, got ");
                push_str(&mut c, q.as_str());
                Err((c, Some(e)))
            },
        },
        None => match split_at_pattern(&cs, "=") {
            Some((key, raw)) => {
                let rs = chars_of(raw.as_str());
                if rs.len() > 0 && rs[0] == '@' {
                    let file = copy_range(rs.as_slice(), 1, rs.len());
                    assert(raw@.take(1) =~= seq!['@']);
                    Ok((key, SetValue::File(string_of(file.as_slice()))))
                } else {
                    assert(raw@.len() >= 1 ==> raw@.take(1)[0] == raw@[0]);
                    Ok((key, SetValue::Text(raw)))
                }
            },
            None => {
                let mut c = String::from_str("--set needs key=value, got ");
                push_str(&mut c, crate::text::debug_string(pair).as_str());
                Err((c, None))
            },
        },
    }
}

} // verus!
