//! The identity manifest: its text format, how it is read back, and the
//! checks made on the file before its text is read.
//!
//! A manifest is a small TOML subset, one `key = value` per line:
//!
//! ```text
//! id = "550e8400-e29b-41d4-a716-446655440000"
//! version = 1
//! created = "2026-09-22T18:00:00Z"
//! updated = "2026-09-22T18:00:00Z"
//! ```
//!
//! Blank lines and lines starting with `#` are skipped. Every other line is
//! parsed, in order, and the first problem found is reported with its line
//! number.
use vstd::prelude::*;

use crate::error::{
    malformed, malformed_error, outcome_of, unsupported_version, unsupported_version_error, Error,
    ErrorView,
};
use crate::identity::{id_reason, ProjectId, FORMAT_VERSION};
use crate::text::{chars_of, decimal, push_chars, push_decimal, string_from_chars};
use crate::timestamp::{all_digits, digits_value, is_utc_timestamp_text, timestamp_text_valid};
use crate::uuid::is_uuid_v4_text;

verus! {

// ---------------------------------------------------------------------
// Scanning characters
// ---------------------------------------------------------------------

/// Whether `c` has the Unicode `White_Space` property, as `char::is_whitespace`
/// decides.
pub open spec fn is_whitespace(c: char) -> bool {
    ('\u{9}' <= c && c <= '\u{d}') || c == ' ' || c == '\u{85}' || c == '\u{a0}' || c
        == '\u{1680}' || ('\u{2000}' <= c && c <= '\u{200a}') || c == '\u{2028}' || c
        == '\u{2029}' || c == '\u{202f}' || c == '\u{205f}' || c == '\u{3000}'
}

/// First position in `from..to` that is not whitespace, or `to`.
pub open spec fn skip_ws(s: Seq<char>, from: int, to: int) -> int
    decreases to - from,
{
    if from < to && is_whitespace(s[from]) {
        skip_ws(s, from + 1, to)
    } else {
        from
    }
}

/// End of `from..to` once trailing whitespace is left out.
pub open spec fn skip_ws_back(s: Seq<char>, from: int, to: int) -> int
    decreases to - from,
{
    if from < to && is_whitespace(s[to - 1]) {
        skip_ws_back(s, from, to - 1)
    } else {
        to
    }
}

/// Position of the first `'\n'` at or after `pos`, or the end of `s`.
pub open spec fn line_end(s: Seq<char>, pos: int) -> int
    decreases s.len() - pos,
{
    if 0 <= pos < s.len() && s[pos] != '\n' {
        line_end(s, pos + 1)
    } else {
        pos
    }
}

/// Position of the first `c` in `from..to`, or `to`.
pub open spec fn find_char(s: Seq<char>, from: int, to: int, c: char) -> int
    decreases to - from,
{
    if from < to && s[from] != c {
        find_char(s, from + 1, to, c)
    } else {
        from
    }
}

proof fn lemma_skip_ws(s: Seq<char>, from: int, to: int)
    requires
        0 <= from <= to <= s.len(),
    ensures
        from <= skip_ws(s, from, to) <= to,
        forall|j: int| from <= j < skip_ws(s, from, to) ==> is_whitespace(#[trigger] s[j]),
        skip_ws(s, from, to) < to ==> !is_whitespace(s[skip_ws(s, from, to)]),
    decreases to - from,
{
    if from < to && is_whitespace(s[from]) {
        lemma_skip_ws(s, from + 1, to);
    }
}

proof fn lemma_skip_ws_back(s: Seq<char>, from: int, to: int)
    requires
        0 <= from <= to <= s.len(),
    ensures
        from <= skip_ws_back(s, from, to) <= to,
        forall|j: int| skip_ws_back(s, from, to) <= j < to ==> is_whitespace(#[trigger] s[j]),
        skip_ws_back(s, from, to) > from ==> !is_whitespace(s[skip_ws_back(s, from, to) - 1]),
    decreases to - from,
{
    if from < to && is_whitespace(s[to - 1]) {
        lemma_skip_ws_back(s, from, to - 1);
    }
}

pub proof fn lemma_line_end(s: Seq<char>, pos: int)
    requires
        0 <= pos <= s.len(),
    ensures
        pos <= line_end(s, pos) <= s.len(),
        forall|j: int| pos <= j < line_end(s, pos) ==> #[trigger] s[j] != '\n',
        line_end(s, pos) < s.len() ==> s[line_end(s, pos)] == '\n',
    decreases s.len() - pos,
{
    if pos < s.len() && s[pos] != '\n' {
        lemma_line_end(s, pos + 1);
    }
}

proof fn lemma_find_char(s: Seq<char>, from: int, to: int, c: char)
    requires
        0 <= from <= to <= s.len(),
    ensures
        from <= find_char(s, from, to, c) <= to,
        forall|j: int| from <= j < find_char(s, from, to, c) ==> #[trigger] s[j] != c,
        find_char(s, from, to, c) < to ==> s[find_char(s, from, to, c)] == c,
    decreases to - from,
{
    if from < to && s[from] != c {
        lemma_find_char(s, from + 1, to, c);
    }
}

/// Whether `c` has the Unicode `White_Space` property.
pub fn is_whitespace_char(c: char) -> (r: bool)
    ensures
        r == is_whitespace(c),
{
    ('\u{9}' <= c && c <= '\u{d}') || c == ' ' || c == '\u{85}' || c == '\u{a0}' || c
        == '\u{1680}' || ('\u{2000}' <= c && c <= '\u{200a}') || c == '\u{2028}' || c
        == '\u{2029}' || c == '\u{202f}' || c == '\u{205f}' || c == '\u{3000}'
}

/// Bounds of `s[from..to]` with leading and trailing whitespace left out.
fn trim_range(s: &[char], from: usize, to: usize) -> (r: (usize, usize))
    requires
        from <= to <= s@.len(),
    ensures
        r.0 == skip_ws(s@, from as int, to as int),
        r.1 == skip_ws_back(s@, r.0 as int, to as int),
{
    let mut a = from;
    while a < to && is_whitespace_char(s[a])
        invariant
            from <= a <= to <= s@.len(),
            skip_ws(s@, from as int, to as int) == skip_ws(s@, a as int, to as int),
        decreases to - a,
    {
        a = a + 1;
    }
    let mut b = to;
    while b > a && is_whitespace_char(s[b - 1])
        invariant
            a <= b <= to <= s@.len(),
            skip_ws_back(s@, a as int, to as int) == skip_ws_back(s@, a as int, b as int),
        decreases b - a,
    {
        b = b - 1;
    }
    (a, b)
}

/// Position of the first `'\n'` at or after `pos`, or the end of `s`.
fn find_line_end(s: &[char], pos: usize) -> (r: usize)
    requires
        pos <= s@.len(),
    ensures
        r == line_end(s@, pos as int),
{
    let mut i = pos;
    while i < s.len() && s[i] != '\n'
        invariant
            pos <= i <= s@.len(),
            line_end(s@, pos as int) == line_end(s@, i as int),
        decreases s@.len() - i,
    {
        i = i + 1;
    }
    i
}

/// Position of the first `c` in `s[from..to]`, or `to`.
fn find_char_in(s: &[char], from: usize, to: usize, c: char) -> (r: usize)
    requires
        from <= to <= s@.len(),
    ensures
        r == find_char(s@, from as int, to as int, c),
{
    let mut i = from;
    while i < to && s[i] != c
        invariant
            from <= i <= to <= s@.len(),
            find_char(s@, from as int, to as int, c) == find_char(s@, i as int, to as int, c),
        decreases to - i,
    {
        i = i + 1;
    }
    i
}

/// Whether `a` and `b` hold the same characters.
fn same_chars(a: &[char], b: &[char]) -> (r: bool)
    ensures
        r == (a@ == b@),
{
    if a.len() != b.len() {
        return false;
    }
    let mut i: usize = 0;
    while i < a.len()
        invariant
            i <= a@.len() == b@.len(),
            forall|j: int| 0 <= j < i ==> a@[j] == b@[j],
        decreases a@.len() - i,
    {
        if a[i] != b[i] {
            return false;
        }
        i = i + 1;
    }
    assert(a@ == b@);
    true
}

/// Whether `c` occurs in `s`.
fn contains_char(s: &[char], c: char) -> (r: bool)
    ensures
        r == s@.contains(c),
{
    let mut i: usize = 0;
    while i < s.len()
        invariant
            i <= s@.len(),
            forall|j: int| 0 <= j < i ==> s@[j] != c,
        decreases s@.len() - i,
    {
        if s[i] == c {
            assert(s@[i as int] == c);
            return true;
        }
        i = i + 1;
    }
    false
}

// ---------------------------------------------------------------------
// Values
// ---------------------------------------------------------------------

/// The inside of a double-quoted string that holds no `\` and no `"`.
pub open spec fn unquoted(value: Seq<char>) -> Result<Seq<char>, ErrorView> {
    if value.len() < 2 || value[0] != '"' || value.last() != '"' {
        Err(malformed_error("expected a double-quoted string"@))
    } else if value.subrange(1, value.len() - 1).contains('\\') || value.subrange(
        1,
        value.len() - 1,
    ).contains('"') {
        Err(malformed_error("escapes are not accepted in manifest strings"@))
    } else {
        Ok(value.subrange(1, value.len() - 1))
    }
}

/// The id held by an `id` value.
pub open spec fn id_value(value: Seq<char>) -> Result<Seq<char>, ErrorView> {
    match unquoted(value) {
        Err(e) => Err(e),
        Ok(inner) => if is_uuid_v4_text(inner) {
            Ok(inner)
        } else {
            Err(malformed_error(id_reason()))
        },
    }
}

/// The number held by a `version` value: decimal digits without a leading
/// zero that fit in `u64`.
pub open spec fn version_value(value: Seq<char>) -> Result<u64, ErrorView> {
    if value.len() == 0 || !all_digits(value) {
        Err(malformed_error("version must be an integer"@))
    } else if value.len() > 1 && value[0] == '0' {
        Err(malformed_error("version must not have a leading zero"@))
    } else if digits_value(value) > u64::MAX {
        Err(malformed_error("version is out of range"@))
    } else {
        Ok(digits_value(value) as u64)
    }
}

/// The timestamp held by a `created` or `updated` value.
pub open spec fn timestamp_value(value: Seq<char>) -> Result<Seq<char>, ErrorView> {
    match unquoted(value) {
        Err(e) => Err(e),
        Ok(inner) => if is_utc_timestamp_text(inner) {
            Ok(inner)
        } else {
            Err(malformed_error("timestamp must be YYYY-MM-DDTHH:MM:SSZ in UTC"@))
        },
    }
}

/// The inside of the double-quoted string `value`.
pub fn unquote(value: &[char]) -> (r: Result<&[char], Error>)
    ensures
        outcome_of(r) == unquoted(value@),
{
    let n = value.len();
    if n < 2 || value[0] != '"' || value[n - 1] != '"' {
        return Err(malformed("expected a double-quoted string"));
    }
    let inner = vstd::slice::slice_subrange(value, 1, n - 1);
    if contains_char(inner, '\\') || contains_char(inner, '"') {
        return Err(malformed("escapes are not accepted in manifest strings"));
    }
    Ok(inner)
}

/// The project id held by an `id` value.
pub fn parse_id(value: &[char]) -> (r: Result<ProjectId, Error>)
    ensures
        outcome_of(r) == id_value(value@),
{
    match unquote(value) {
        Err(e) => Err(e),
        Ok(inner) => ProjectId::parse_chars(inner),
    }
}

/// The number held by a `version` value.
pub fn parse_version(value: &[char]) -> (r: Result<u64, Error>)
    ensures
        outcome_of(r) == version_value(value@),
{
    let n = value.len();
    let mut all: bool = n > 0;
    let mut i: usize = 0;
    while i < n
        invariant
            n == value@.len(),
            i <= n,
            all == (n > 0 && all_digits(value@.subrange(0, i as int))),
        decreases n - i,
    {
        let c = value[i];
        if c < '0' || c > '9' {
            all = false;
        }
        assert(value@.subrange(0, i + 1)[i as int] == c);
        assert(forall|j: int|
            0 <= j < i ==> value@.subrange(0, i + 1)[j] == value@.subrange(0, i as int)[j]);
        i = i + 1;
    }
    assert(value@.subrange(0, n as int) == value@);
    if !all {
        return Err(malformed("version must be an integer"));
    }
    if n > 1 && value[0] == '0' {
        return Err(malformed("version must not have a leading zero"));
    }
    let mut v: u64 = 0;
    let mut k: usize = 0;
    while k < n
        invariant
            n == value@.len(),
            k <= n,
            n > 0,
            all_digits(value@),
            !(n > 1 && value@[0] == '0'),
            v == digits_value(value@.subrange(0, k as int)),
        decreases n - k,
    {
        assert(value@.subrange(0, k + 1).drop_last() == value@.subrange(0, k as int));
        let d = (value[k] as u32 - 48) as u64;
        let next = match v.checked_mul(10) {
            Some(x) => x.checked_add(d),
            None => None,
        };
        match next {
            Some(x) => {
                v = x;
            },
            None => {
                proof {
                    assert(is_digit_at(value@, k as int));
                    assert(digits_value(value@.subrange(0, k + 1)) == v * 10 + d);
                    lemma_digits_value_grows(value@, (k + 1) as nat);
                    assert(v * 10 + d > u64::MAX);
                    assert(digits_value(value@) > u64::MAX);
                }
                return Err(malformed("version is out of range"));
            },
        }
        k = k + 1;
    }
    assert(value@.subrange(0, n as int) == value@);
    Ok(v)
}

spec fn is_digit_at(s: Seq<char>, i: int) -> bool {
    '0' <= s[i] && s[i] <= '9'
}

/// A longer run of digits is worth at least as much as any of its prefixes.
proof fn lemma_digits_value_grows(s: Seq<char>, k: nat)
    requires
        k <= s.len(),
        all_digits(s),
    ensures
        digits_value(s) >= digits_value(s.subrange(0, k as int)) >= 0,
    decreases s.len(),
{
    if s.len() > 0 {
        if k == s.len() {
            assert(s.subrange(0, k as int) == s);
            lemma_digits_value_grows(s.drop_last(), 0);
        } else {
            assert(s.drop_last().subrange(0, k as int) == s.subrange(0, k as int));
            lemma_digits_value_grows(s.drop_last(), k);
        }
    } else {
        assert(s.subrange(0, k as int) == s);
    }
}

/// The timestamp held by a `created` or `updated` value.
pub fn parse_timestamp(value: &[char]) -> (r: Result<String, Error>)
    ensures
        outcome_of(r) == timestamp_value(value@),
{
    match unquote(value) {
        Err(e) => Err(e),
        Ok(inner) => {
            if !timestamp_text_valid(inner) {
                return Err(malformed("timestamp must be YYYY-MM-DDTHH:MM:SSZ in UTC"));
            }
            Ok(string_from_chars(inner))
        },
    }
}

// ---------------------------------------------------------------------
// Lines
// ---------------------------------------------------------------------

/// The fields read so far from a manifest.
pub struct ManifestFields {
    pub id: Option<Seq<char>>,
    pub version: Option<u64>,
    pub created: Option<Seq<char>>,
    pub updated: Option<Seq<char>>,
}

/// No field read yet.
pub open spec fn no_fields() -> ManifestFields {
    ManifestFields { id: None, version: None, created: None, updated: None }
}

/// `Some` of the view of the value, or `None`.
pub open spec fn opt_view<T: View>(o: Option<T>) -> Option<T::V> {
    match o {
        Some(x) => Some(x@),
        None => None,
    }
}

/// `"line N"` followed by `what`.
pub open spec fn line_message(n: nat, what: Seq<char>) -> Seq<char> {
    "line "@ + decimal(n) + what
}

/// The error for a key given twice, at line `n`.
pub open spec fn duplicate_error(n: nat, key: Seq<char>) -> ErrorView {
    malformed_error(line_message(n, ": duplicate key "@ + key))
}

/// `f` with `key` set to what `value` holds, at line `n`.
pub open spec fn apply_field(key: Seq<char>, value: Seq<char>, n: nat, f: ManifestFields) -> Result<
    ManifestFields,
    ErrorView,
> {
    if key == "id"@ {
        match id_value(value) {
            Err(e) => Err(e),
            Ok(v) => if f.id is Some {
                Err(duplicate_error(n, key))
            } else {
                Ok(ManifestFields { id: Some(v), ..f })
            },
        }
    } else if key == "version"@ {
        match version_value(value) {
            Err(e) => Err(e),
            Ok(v) => if f.version is Some {
                Err(duplicate_error(n, key))
            } else {
                Ok(ManifestFields { version: Some(v), ..f })
            },
        }
    } else if key == "created"@ {
        match timestamp_value(value) {
            Err(e) => Err(e),
            Ok(v) => if f.created is Some {
                Err(duplicate_error(n, key))
            } else {
                Ok(ManifestFields { created: Some(v), ..f })
            },
        }
    } else if key == "updated"@ {
        match timestamp_value(value) {
            Err(e) => Err(e),
            Ok(v) => if f.updated is Some {
                Err(duplicate_error(n, key))
            } else {
                Ok(ManifestFields { updated: Some(v), ..f })
            },
        }
    } else {
        Err(malformed_error(line_message(n, ": unknown key "@ + key)))
    }
}

/// What line `n`, the characters `s[from..to]`, does to the fields `f`:
/// blank and `#` lines change nothing; any other line is `key = value`,
/// each side trimmed of whitespace.
pub open spec fn line_outcome(s: Seq<char>, from: int, to: int, n: nat, f: ManifestFields) -> Result<
    ManifestFields,
    ErrorView,
> {
    let a = skip_ws(s, from, to);
    let b = skip_ws_back(s, a, to);
    if a == b || s[a] == '#' {
        Ok(f)
    } else {
        let q = find_char(s, a, b, '=');
        if q == b {
            Err(malformed_error(line_message(n, ": expected key = value"@)))
        } else {
            let ka = skip_ws(s, a, q);
            let kb = skip_ws_back(s, ka, q);
            let va = skip_ws(s, q + 1, b);
            let vb = skip_ws_back(s, va, b);
            apply_field(s.subrange(ka, kb), s.subrange(va, vb), n, f)
        }
    }
}

/// The fields read from the lines of `s` from position `pos` on, the first
/// of them being line `n`; lines end at `'\n'`.
pub open spec fn scan(s: Seq<char>, pos: int, n: nat, f: ManifestFields) -> Result<
    ManifestFields,
    ErrorView,
>
    decreases s.len() - pos,
{
    if pos < 0 || pos >= s.len() {
        Ok(f)
    } else {
        let e = line_end(s, pos);
        proof {
            lemma_line_end(s, pos);
        }
        match line_outcome(s, pos, e, n, f) {
            Err(x) => Err(x),
            Ok(g) => if e >= s.len() {
                Ok(g)
            } else {
                scan(s, e + 1, n + 1, g)
            },
        }
    }
}

/// What a manifest holds.
pub struct ManifestView {
    pub id: Seq<char>,
    pub created: Seq<char>,
    pub updated: Seq<char>,
}

/// What the manifest text `text` holds, or the first problem with it.
pub open spec fn manifest_outcome(text: Seq<char>) -> Result<ManifestView, ErrorView> {
    match scan(text, 0, 1, no_fields()) {
        Err(e) => Err(e),
        Ok(f) => match f.version {
            None => Err(malformed_error("missing version"@)),
            Some(v) => if v != 1 {
                Err(unsupported_version_error(v as nat))
            } else {
                match f.id {
                    None => Err(malformed_error("missing id"@)),
                    Some(id) => match f.created {
                        None => Err(malformed_error("missing created"@)),
                        Some(created) => match f.updated {
                            None => Err(malformed_error("missing updated"@)),
                            Some(updated) => Ok(
                                ManifestView { id: id, created: created, updated: updated },
                            ),
                        },
                    },
                }
            },
        },
    }
}

/// A manifest read back: the project id and its two timestamps.
#[derive(Debug)]
pub struct Manifest {
    pub id: ProjectId,
    pub created: String,
    pub updated: String,
}

impl View for Manifest {
    type V = ManifestView;

    open spec fn view(&self) -> ManifestView {
        ManifestView { id: self.id@, created: self.created@, updated: self.updated@ }
    }
}

struct Fields {
    id: Option<ProjectId>,
    version: Option<u64>,
    created: Option<String>,
    updated: Option<String>,
}

impl View for Fields {
    type V = ManifestFields;

    closed spec fn view(&self) -> ManifestFields {
        ManifestFields {
            id: opt_view(self.id),
            version: self.version,
            created: opt_view(self.created),
            updated: opt_view(self.updated),
        }
    }
}

/// The error for line `number`: `what` followed by `key`.
fn line_error(number: usize, what: &str, key: &[char]) -> (e: Error)
    ensures
        e@ == malformed_error(line_message(number as nat, what@ + key@)),
{
    let mut text = String::from_str("line ");
    push_decimal(&mut text, number as u64);
    text.append(what);
    push_chars(&mut text, key);
    proof {
        assert(text@ == line_message(number as nat, what@ + key@));
    }
    malformed(text.as_str())
}

/// Stores `value` in an empty `slot`; a full slot is a duplicate key.
fn set_once<T>(slot: &mut Option<T>, value: T, line_number: usize, key: &[char]) -> (r: Result<
    (),
    Error,
>)
    ensures
        *old(slot) is Some ==> *final(slot) == *old(slot),
        *old(slot) is Some ==> (r matches Err(e) && e@ == duplicate_error(
            line_number as nat,
            key@,
        )),
        *old(slot) is None ==> (*final(slot) == Some(value) && r is Ok),
{
    if slot.is_some() {
        return Err(line_error(line_number, ": duplicate key ", key));
    }
    *slot = Some(value);
    Ok(())
}

/// Applies line `number`, the characters `s[from..to]`, to `fields`.
fn parse_line(s: &[char], from: usize, to: usize, number: usize, fields: &mut Fields) -> (r: Result<
    (),
    Error,
>)
    requires
        from <= to <= s@.len(),
    ensures
        match line_outcome(s@, from as int, to as int, number as nat, old(fields)@) {
            Ok(g) => r is Ok && final(fields)@ == g,
            Err(e) => r matches Err(x) && x@ == e,
        },
{
    let (a, b) = trim_range(s, from, to);
    proof {
        lemma_skip_ws(s@, from as int, to as int);
        lemma_skip_ws_back(s@, a as int, to as int);
    }
    if a == b || s[a] == '#' {
        return Ok(());
    }
    let q = find_char_in(s, a, b, '=');
    proof {
        lemma_find_char(s@, a as int, b as int, '=');
    }
    if q == b {
        let nothing: [char; 0] = [];
        let e = line_error(number, ": expected key = value", nothing.as_slice());
        assert(": expected key = value"@ + nothing@ == ": expected key = value"@);
        return Err(e);
    }
    let (ka, kb) = trim_range(s, a, q);
    let (va, vb) = trim_range(s, q + 1, b);
    proof {
        lemma_skip_ws(s@, a as int, q as int);
        lemma_skip_ws_back(s@, ka as int, q as int);
        lemma_skip_ws(s@, q + 1, b as int);
        lemma_skip_ws_back(s@, va as int, b as int);
    }
    let key = vstd::slice::slice_subrange(s, ka, kb);
    let value = vstd::slice::slice_subrange(s, va, vb);
    let id_key = chars_of("id");
    let version_key = chars_of("version");
    let created_key = chars_of("created");
    let updated_key = chars_of("updated");
    if same_chars(key, id_key.as_slice()) {
        match parse_id(value) {
            Err(e) => Err(e),
            Ok(id) => set_once(&mut fields.id, id, number, key),
        }
    } else if same_chars(key, version_key.as_slice()) {
        match parse_version(value) {
            Err(e) => Err(e),
            Ok(v) => set_once(&mut fields.version, v, number, key),
        }
    } else if same_chars(key, created_key.as_slice()) {
        match parse_timestamp(value) {
            Err(e) => Err(e),
            Ok(t) => set_once(&mut fields.created, t, number, key),
        }
    } else if same_chars(key, updated_key.as_slice()) {
        match parse_timestamp(value) {
            Err(e) => Err(e),
            Ok(t) => set_once(&mut fields.updated, t, number, key),
        }
    } else {
        Err(line_error(number, ": unknown key ", key))
    }
}

/// Reads a manifest's text: the project id and the two timestamps, or the
/// first problem found, by line.
pub fn parse_manifest(text: &str) -> (r: Result<Manifest, Error>)
    ensures
        outcome_of(r) == manifest_outcome(text@),
{
    let cs = chars_of(text);
    let s = cs.as_slice();
    let mut fields = Fields { id: None, version: None, created: None, updated: None };
    let mut pos: usize = 0;
    let mut done: usize = 0;
    while pos < s.len()
        invariant
            pos <= s@.len(),
            done <= pos,
            s@ == text@,
            scan(s@, 0, 1, no_fields()) == scan(s@, pos as int, (done + 1) as nat, fields@),
        decreases s@.len() - pos,
    {
        let number = done + 1;
        let end = find_line_end(s, pos);
        proof {
            lemma_line_end(s@, pos as int);
        }
        match parse_line(s, pos, end, number, &mut fields) {
            Err(e) => {
                return Err(e);
            },
            Ok(()) => {},
        }
        done = number;
        if end == s.len() {
            pos = end;
        } else {
            pos = end + 1;
        }
    }
    let Fields { id, version, created, updated } = fields;
    let version = match version {
        None => {
            return Err(malformed("missing version"));
        },
        Some(v) => v,
    };
    if version != FORMAT_VERSION {
        return Err(unsupported_version(version));
    }
    let id = match id {
        None => {
            return Err(malformed("missing id"));
        },
        Some(v) => v,
    };
    let created = match created {
        None => {
            return Err(malformed("missing created"));
        },
        Some(v) => v,
    };
    let updated = match updated {
        None => {
            return Err(malformed("missing updated"));
        },
        Some(v) => v,
    };
    Ok(Manifest { id, created, updated })
}

// ---------------------------------------------------------------------
// Writing a manifest, and reading it back
// ---------------------------------------------------------------------

/// The manifest text written for `id` created at `created` and last
/// updated at `updated`, in the current format version.
pub open spec fn render_text(id: Seq<char>, created: Seq<char>, updated: Seq<char>) -> Seq<char> {
    "id = \""@ + id + "\"\nversion = "@ + decimal(1) + "\ncreated = \""@ + created
        + "\"\nupdated = \""@ + updated + "\"\n"@
}

/// The manifest text for `id`, `created` and `updated`.
pub fn render(id: &ProjectId, created: &str, updated: &str) -> (r: String)
    ensures
        r@ == render_text(id@, created@, updated@),
{
    let mut text = String::from_str("id = \"");
    text.append(id.as_str());
    text.append("\"\nversion = ");
    push_decimal(&mut text, FORMAT_VERSION);
    text.append("\ncreated = \"");
    text.append(created);
    text.append("\"\nupdated = \"");
    text.append(updated);
    text.append("\"\n");
    text
}

proof fn lemma_line_end_is(s: Seq<char>, pos: int, e: int)
    requires
        0 <= pos <= e <= s.len(),
        forall|j: int| pos <= j < e ==> #[trigger] s[j] != '\n',
        e == s.len() || s[e] == '\n',
    ensures
        line_end(s, pos) == e,
    decreases e - pos,
{
    if pos < e {
        lemma_line_end_is(s, pos + 1, e);
    }
}

proof fn lemma_find_char_is(s: Seq<char>, from: int, to: int, c: char, q: int)
    requires
        0 <= from <= q < to <= s.len(),
        forall|j: int| from <= j < q ==> #[trigger] s[j] != c,
        s[q] == c,
    ensures
        find_char(s, from, to, c) == q,
    decreases q - from,
{
    if from < q {
        lemma_find_char_is(s, from + 1, to, c, q);
    }
}

proof fn lemma_skip_ws_is(s: Seq<char>, from: int, to: int, k: int)
    requires
        0 <= from <= k <= to <= s.len(),
        forall|j: int| from <= j < k ==> is_whitespace(#[trigger] s[j]),
        k == to || !is_whitespace(s[k]),
    ensures
        skip_ws(s, from, to) == k,
    decreases k - from,
{
    if from < k {
        lemma_skip_ws_is(s, from + 1, to, k);
    }
}

proof fn lemma_skip_ws_back_is(s: Seq<char>, from: int, to: int, k: int)
    requires
        0 <= from <= k <= to <= s.len(),
        forall|j: int| k <= j < to ==> is_whitespace(#[trigger] s[j]),
        k == from || !is_whitespace(s[k - 1]),
    ensures
        skip_ws_back(s, from, to) == k,
    decreases to - k,
{
    if k < to {
        lemma_skip_ws_back_is(s, from, to - 1, k);
    }
}

/// Whether `c` may stand in a key or a quoted value that a manifest writes.
spec fn plain_char(c: char) -> bool {
    c != '\n' && c != '=' && c != '"' && c != '\\' && !is_whitespace(c) && c != '#'
}

/// A line `key = value`, as a manifest writes it, ends at the next newline
/// and sets `key` to what `value` holds.
proof fn lemma_field_line(
    s: Seq<char>,
    start: int,
    key: Seq<char>,
    value: Seq<char>,
    n: nat,
    f: ManifestFields,
)
    requires
        0 <= start,
        start + key.len() + 3 + value.len() < s.len(),
        s.subrange(start, start + key.len() + 3 + value.len()) == key + seq![' ', '=', ' ']
            + value,
        s[start + key.len() + 3 + value.len()] == '\n',
        key.len() > 0,
        forall|j: int| 0 <= j < key.len() ==> plain_char(#[trigger] key[j]),
        value.len() > 0,
        !is_whitespace(value[0]),
        !is_whitespace(value.last()),
        forall|j: int| 0 <= j < value.len() ==> #[trigger] value[j] != '\n',
    ensures
        line_end(s, start) == start + key.len() + 3 + value.len(),
        line_outcome(s, start, start + key.len() + 3 + value.len(), n, f) == apply_field(
            key,
            value,
            n,
            f,
        ),
{
    let line = key + seq![' ', '=', ' '] + value;
    let end = start + key.len() + 3 + value.len();
    let q = start + key.len() + 1;
    assert forall|j: int| start <= j < end implies #[trigger] s[j] == line[j - start] by {
        assert(s.subrange(start, end)[j - start] == s[j]);
    }
    assert forall|j: int| start <= j < end implies #[trigger] s[j] != '\n' by {
        assert(s[j] == line[j - start]);
        if j - start >= key.len() + 3 {
            assert(line[j - start] == value[j - start - key.len() - 3]);
        }
    }
    lemma_line_end_is(s, start, end);
    assert(s[start] == key[0]);
    lemma_skip_ws_is(s, start, end, start);
    assert(s[end - 1] == value.last());
    lemma_skip_ws_back_is(s, start, end, end);
    assert forall|j: int| start <= j < q implies #[trigger] s[j] != '=' by {
        assert(s[j] == line[j - start]);
        if j - start < key.len() {
            assert(plain_char(key[j - start]));
        }
    }
    assert(s[q] == line[q - start]);
    lemma_find_char_is(s, start, end, '=', q);
    lemma_skip_ws_is(s, start, q, start);
    assert(s[q - 1] == line[q - 1 - start]);
    assert(s[q - 2] == line[q - 2 - start]);
    assert(s[q - 2] == key.last());
    lemma_skip_ws_back_is(s, start, q, q - 1);
    assert(s[q + 1] == line[q + 1 - start]);
    assert(s[q + 2] == line[q + 2 - start]);
    assert(s[q + 2] == value[0]);
    lemma_skip_ws_is(s, q + 1, end, q + 2);
    lemma_skip_ws_back_is(s, q + 2, end, end);
    assert(s.subrange(start, q - 1) == key);
    assert(s.subrange(q + 2, end) == value);
}

/// A quoted value holds what is between the quotes when that holds no
/// quote and no backslash.
proof fn lemma_unquoted(inner: Seq<char>)
    requires
        forall|j: int| 0 <= j < inner.len() ==> plain_char(#[trigger] inner[j]),
    ensures
        unquoted(seq!['"'] + inner + seq!['"']) == Ok::<Seq<char>, ErrorView>(inner),
{
    let v = seq!['"'] + inner + seq!['"'];
    assert(v.subrange(1, v.len() - 1) == inner);
    assert(!inner.contains('\\')) by {
        if inner.contains('\\') {
            let j = choose|j: int| 0 <= j < inner.len() && inner[j] == '\\';
            assert(plain_char(inner[j]));
        }
    }
    assert(!inner.contains('"')) by {
        if inner.contains('"') {
            let j = choose|j: int| 0 <= j < inner.len() && inner[j] == '"';
            assert(plain_char(inner[j]));
        }
    }
}

/// Every character of a UUID and of a timestamp is one a manifest writes
/// between quotes.
proof fn lemma_plain_fields(id: Seq<char>, t: Seq<char>)
    requires
        is_uuid_v4_text(id),
        is_utc_timestamp_text(t),
    ensures
        forall|j: int| 0 <= j < id.len() ==> plain_char(#[trigger] id[j]),
        forall|j: int| 0 <= j < t.len() ==> plain_char(#[trigger] t[j]),
{
    assert forall|j: int| 0 <= j < id.len() implies plain_char(#[trigger] id[j]) by {
        assert(crate::uuid::is_dash_position(j) || crate::uuid::is_lower_hex(id[j]));
    }
    assert forall|j: int| 0 <= j < t.len() implies plain_char(#[trigger] t[j]) by {
        if j < 4 {
            assert(t.subrange(0, 4)[j] == t[j]);
        } else if 4 < j < 7 {
            assert(t.subrange(5, 7)[j - 5] == t[j]);
        } else if 7 < j < 10 {
            assert(t.subrange(8, 10)[j - 8] == t[j]);
        } else if 10 < j < 13 {
            assert(t.subrange(11, 13)[j - 11] == t[j]);
        } else if 13 < j < 16 {
            assert(t.subrange(14, 16)[j - 14] == t[j]);
        } else if 16 < j < 19 {
            assert(t.subrange(17, 19)[j - 17] == t[j]);
        }
    }
}

spec fn quoted(inner: Seq<char>) -> Seq<char> {
    seq!['"'] + inner + seq!['"']
}

spec fn assignment(key: Seq<char>, value: Seq<char>) -> Seq<char> {
    key + seq![' ', '=', ' '] + value
}

/// The written manifest is its four lines, each ended by a newline.
proof fn lemma_render_layout(id: Seq<char>, created: Seq<char>, updated: Seq<char>)
    requires
        id.len() == 36,
        created.len() == 20,
        updated.len() == 20,
    ensures
        ({
            let s = render_text(id, created, updated);
            let nl = seq!['\n'];
            &&& s == assignment("id"@, quoted(id)) + nl + assignment("version"@, seq!['1']) + nl
                + assignment("created"@, quoted(created)) + nl + assignment(
                "updated"@,
                quoted(updated),
            ) + nl
            &&& "id"@ == seq!['i', 'd']
            &&& "version"@ == seq!['v', 'e', 'r', 's', 'i', 'o', 'n']
            &&& "created"@ == seq!['c', 'r', 'e', 'a', 't', 'e', 'd']
            &&& "updated"@ == seq!['u', 'p', 'd', 'a', 't', 'e', 'd']
        }),
{
    reveal_strlit("id = \"");
    reveal_strlit("\"\nversion = ");
    reveal_strlit("\ncreated = \"");
    reveal_strlit("\"\nupdated = \"");
    reveal_strlit("\"\n");
    reveal_strlit("id");
    reveal_strlit("version");
    reveal_strlit("created");
    reveal_strlit("updated");
    assert("id"@ == seq!['i', 'd']);
    assert("version"@ == seq!['v', 'e', 'r', 's', 'i', 'o', 'n']);
    assert("created"@ == seq!['c', 'r', 'e', 'a', 't', 'e', 'd']);
    assert("updated"@ == seq!['u', 'p', 'd', 'a', 't', 'e', 'd']);
    assert(decimal(1) == seq!['1']);
    let s = render_text(id, created, updated);
    let nl = seq!['\n'];
    assert(s == assignment("id"@, quoted(id)) + nl + assignment("version"@, seq!['1']) + nl
        + assignment("created"@, quoted(created)) + nl + assignment("updated"@, quoted(updated))
        + nl);
}

/// The `n`-th line of a text made of lines, each followed by a newline.
proof fn lemma_line_in_text(s: Seq<char>, before: Seq<char>, line: Seq<char>, after: Seq<char>)
    requires
        s == before + line + seq!['\n'] + after,
    ensures
        s.subrange(before.len() as int, (before.len() + line.len()) as int) == line,
        s[(before.len() + line.len()) as int] == '\n',
        s.len() == before.len() + line.len() + 1 + after.len(),
{
    assert(s.subrange(before.len() as int, (before.len() + line.len()) as int) == line);
}

/// A written `key = "inner"` line sets `key` to `inner`.
proof fn lemma_quoted_line(s: Seq<char>, start: int, key: Seq<char>, inner: Seq<char>, n: nat, f: ManifestFields)
    requires
        0 <= start,
        start + key.len() + 5 + inner.len() < s.len(),
        s.subrange(start, start + key.len() + 5 + inner.len()) == assignment(key, quoted(inner)),
        s[start + key.len() + 5 + inner.len()] == '\n',
        key.len() > 0,
        forall|j: int| 0 <= j < key.len() ==> plain_char(#[trigger] key[j]),
        forall|j: int| 0 <= j < inner.len() ==> plain_char(#[trigger] inner[j]),
    ensures
        line_end(s, start) == start + key.len() + 5 + inner.len(),
        line_outcome(s, start, start + key.len() + 5 + inner.len(), n, f) == apply_field(
            key,
            quoted(inner),
            n,
            f,
        ),
        unquoted(quoted(inner)) == Ok::<Seq<char>, ErrorView>(inner),
{
    let v = quoted(inner);
    assert(v.len() == inner.len() + 2);
    assert forall|j: int| 0 <= j < v.len() implies #[trigger] v[j] != '\n' by {
        if 0 < j < v.len() - 1 {
            assert(v[j] == inner[j - 1]);
        }
    }
    lemma_field_line(s, start, key, v, n, f);
    lemma_unquoted(inner);
}

proof fn lemma_key_plain(key: Seq<char>)
    requires
        key == seq!['i', 'd'] || key == seq!['v', 'e', 'r', 's', 'i', 'o', 'n'] || key == seq![
            'c',
            'r',
            'e',
            'a',
            't',
            'e',
            'd',
        ] || key == seq!['u', 'p', 'd', 'a', 't', 'e', 'd'],
    ensures
        forall|j: int| 0 <= j < key.len() ==> plain_char(#[trigger] key[j]),
{
}

/// Where the four lines of a written manifest stand.
proof fn lemma_render_lines(id: Seq<char>, created: Seq<char>, updated: Seq<char>)
    requires
        id.len() == 36,
        created.len() == 20,
        updated.len() == 20,
    ensures
        ({
            let s = render_text(id, created, updated);
            &&& s.len() == 122
            &&& s.subrange(0, 43) == assignment("id"@, quoted(id))
            &&& s[43] == '\n'
            &&& s.subrange(44, 55) == assignment("version"@, seq!['1'])
            &&& s[55] == '\n'
            &&& s.subrange(56, 88) == assignment("created"@, quoted(created))
            &&& s[88] == '\n'
            &&& s.subrange(89, 121) == assignment("updated"@, quoted(updated))
            &&& s[121] == '\n'
        }),
        "id"@ == seq!['i', 'd'],
        "version"@ == seq!['v', 'e', 'r', 's', 'i', 'o', 'n'],
        "created"@ == seq!['c', 'r', 'e', 'a', 't', 'e', 'd'],
        "updated"@ == seq!['u', 'p', 'd', 'a', 't', 'e', 'd'],
{
    lemma_render_layout(id, created, updated);
    let s = render_text(id, created, updated);
    let nl = seq!['\n'];
    let l1 = assignment("id"@, quoted(id));
    let l2 = assignment("version"@, seq!['1']);
    let l3 = assignment("created"@, quoted(created));
    let l4 = assignment("updated"@, quoted(updated));
    assert(l1.len() == 43 && l2.len() == 11 && l3.len() == 32 && l4.len() == 32);
    assert(s == l1 + nl + (l2 + nl + l3 + nl + l4 + nl));
    lemma_line_in_text(s, Seq::empty(), l1, l2 + nl + l3 + nl + l4 + nl);
    assert(s == (l1 + nl) + l2 + nl + (l3 + nl + l4 + nl));
    lemma_line_in_text(s, l1 + nl, l2, l3 + nl + l4 + nl);
    assert(s == (l1 + nl + l2 + nl) + l3 + nl + (l4 + nl));
    lemma_line_in_text(s, l1 + nl + l2 + nl, l3, l4 + nl);
    assert(s == (l1 + nl + l2 + nl + l3 + nl) + l4 + nl + Seq::<char>::empty());
    lemma_line_in_text(s, l1 + nl + l2 + nl + l3 + nl, l4, Seq::empty());
}

/// One line of the scan: when line `n` starting at `pos` ends before the
/// end of `s` and yields `g`, the scan goes on from the next line with `g`.
proof fn lemma_scan_step(s: Seq<char>, pos: int, n: nat, f: ManifestFields, g: ManifestFields)
    requires
        0 <= pos < s.len(),
        line_outcome(s, pos, line_end(s, pos), n, f) == Ok::<ManifestFields, ErrorView>(g),
    ensures
        line_end(s, pos) < s.len() ==> scan(s, pos, n, f) == scan(s, line_end(s, pos) + 1, n + 1, g),
        line_end(s, pos) >= s.len() ==> scan(s, pos, n, f) == Ok::<ManifestFields, ErrorView>(g),
{
}

/// A manifest written for a canonical id and two valid timestamps reads
/// back as that id and those timestamps.
pub proof fn lemma_render_then_parse(id: Seq<char>, created: Seq<char>, updated: Seq<char>)
    requires
        is_uuid_v4_text(id),
        is_utc_timestamp_text(created),
        is_utc_timestamp_text(updated),
    ensures
        manifest_outcome(render_text(id, created, updated)) == Ok::<ManifestView, ErrorView>(
            ManifestView { id: id, created: created, updated: updated },
        ),
{
    lemma_plain_fields(id, created);
    lemma_plain_fields(id, updated);
    lemma_render_lines(id, created, updated);
    lemma_key_plain("id"@);
    lemma_key_plain("version"@);
    lemma_key_plain("created"@);
    lemma_key_plain("updated"@);
    let s = render_text(id, created, updated);
    let f0 = no_fields();
    let f1 = ManifestFields { id: Some(id), ..f0 };
    let f2 = ManifestFields { version: Some(1u64), ..f1 };
    let f3 = ManifestFields { created: Some(created), ..f2 };
    let f4 = ManifestFields { updated: Some(updated), ..f3 };
    lemma_quoted_line(s, 0, "id"@, id, 1, f0);
    assert(apply_field("id"@, quoted(id), 1, f0) == Ok::<ManifestFields, ErrorView>(f1));
    lemma_scan_step(s, 0, 1, f0, f1);
    lemma_field_line(s, 44, "version"@, seq!['1'], 2, f1);
    assert(digits_value(seq!['1']) == 1) by {
        let one = seq!['1'];
        assert(one.drop_last() == Seq::<char>::empty());
        assert(one.last() == '1');
        assert('1' as int == 49);
        assert(digits_value(one) == digits_value(one.drop_last()) * 10 + (one.last() as int - 48));
    }
    assert(apply_field("version"@, seq!['1'], 2, f1) == Ok::<ManifestFields, ErrorView>(f2));
    lemma_scan_step(s, 44, 2, f1, f2);
    lemma_quoted_line(s, 56, "created"@, created, 3, f2);
    assert(apply_field("created"@, quoted(created), 3, f2) == Ok::<ManifestFields, ErrorView>(
        f3,
    ));
    lemma_scan_step(s, 56, 3, f2, f3);
    lemma_quoted_line(s, 89, "updated"@, updated, 4, f3);
    assert(apply_field("updated"@, quoted(updated), 4, f3) == Ok::<ManifestFields, ErrorView>(
        f4,
    ));
    lemma_scan_step(s, 89, 4, f3, f4);
    assert(scan(s, 0, 1, f0) == Ok::<ManifestFields, ErrorView>(f4));
}

// ---------------------------------------------------------------------
// The manifest file
// ---------------------------------------------------------------------

/// What the checks on the manifest file's metadata find: nothing wrong, or
/// why the file is not read.
pub open spec fn manifest_file_problem(is_file: bool, len: u64) -> Option<ErrorView> {
    if !is_file {
        Some(malformed_error("manifest path is not a file"@))
    } else if len > 64 * 1024 {
        Some(malformed_error("file is too large"@))
    } else {
        None
    }
}

/// Checks the manifest file's metadata before its bytes are read: it must
/// be a regular file of at most `MAX_MANIFEST_BYTES` bytes.
pub fn check_manifest_file(is_file: bool, len: u64) -> (r: Option<Error>)
    ensures
        opt_view(r) == manifest_file_problem(is_file, len),
{
    if !is_file {
        return Some(malformed("manifest path is not a file"));
    }
    if len > crate::identity::MAX_MANIFEST_BYTES {
        return Some(malformed("file is too large"));
    }
    None
}

/// What the manifest file's bytes hold: they must be UTF-8 text.
pub open spec fn manifest_bytes_outcome(bytes: Seq<u8>) -> Result<ManifestView, ErrorView> {
    if !vstd::utf8::valid_utf8(bytes) {
        Err(malformed_error("file is not UTF-8"@))
    } else {
        manifest_outcome(vstd::utf8::decode_utf8(bytes))
    }
}

/// Reads the manifest from the file's bytes.
pub fn manifest_from_bytes(bytes: &[u8]) -> (r: Result<Manifest, Error>)
    ensures
        outcome_of(r) == manifest_bytes_outcome(bytes@),
{
    match crate::text::str_from_utf8(bytes) {
        None => Err(malformed("file is not UTF-8")),
        Some(text) => parse_manifest(text),
    }
}

// ---------------------------------------------------------------------
// What a manifest read back holds
// ---------------------------------------------------------------------

/// Whether every field read so far holds a valid value.
pub open spec fn fields_valid(f: ManifestFields) -> bool {
    &&& (f.id matches Some(id) ==> is_uuid_v4_text(id))
    &&& (f.created matches Some(t) ==> is_utc_timestamp_text(t))
    &&& (f.updated matches Some(t) ==> is_utc_timestamp_text(t))
}

/// Whether a manifest's id is canonical and its timestamps valid.
pub open spec fn manifest_valid(m: ManifestView) -> bool {
    is_uuid_v4_text(m.id) && is_utc_timestamp_text(m.created) && is_utc_timestamp_text(m.updated)
}

proof fn lemma_scan_keeps_valid(s: Seq<char>, pos: int, n: nat, f: ManifestFields)
    requires
        fields_valid(f),
    ensures
        scan(s, pos, n, f) matches Ok(g) ==> fields_valid(g),
    decreases s.len() - pos,
{
    if 0 <= pos < s.len() {
        let e = line_end(s, pos);
        lemma_line_end(s, pos);
        if let Ok(g) = line_outcome(s, pos, e, n, f) {
            assert(fields_valid(g));
            if e < s.len() {
                lemma_scan_keeps_valid(s, e + 1, n + 1, g);
            }
        }
    }
}

/// A manifest that reads back holds a canonical id and valid timestamps.
pub proof fn lemma_manifest_outcome_valid(text: Seq<char>)
    ensures
        manifest_outcome(text) matches Ok(m) ==> manifest_valid(m),
{
    lemma_scan_keeps_valid(text, 0, 1, no_fields());
}

// ---------------------------------------------------------------------
// Comment lines
// ---------------------------------------------------------------------

/// A line whose first character other than whitespace is `#` is a comment:
/// it leaves the fields read so far as they are, whatever follows the `#`.
pub proof fn lemma_comment_line_changes_nothing(
    s: Seq<char>,
    from: int,
    to: int,
    n: nat,
    f: ManifestFields,
)
    requires
        0 <= from <= to <= s.len(),
        skip_ws(s, from, to) < to,
        s[skip_ws(s, from, to)] == '#',
    ensures
        line_outcome(s, from, to, n, f) == Ok::<ManifestFields, ErrorView>(f),
{
}

proof fn lemma_skip_ws_agree(s1: Seq<char>, s2: Seq<char>, from: int, to: int)
    requires
        0 <= from <= to <= s1.len(),
        to <= s2.len(),
        forall|j: int| from <= j < to ==> s1[j] == s2[j],
    ensures
        skip_ws(s1, from, to) == skip_ws(s2, from, to),
    decreases to - from,
{
    if from < to {
        lemma_skip_ws_agree(s1, s2, from + 1, to);
    }
}

proof fn lemma_skip_ws_shift(p: Seq<char>, t: Seq<char>, from: int, to: int)
    requires
        0 <= from <= to <= t.len(),
    ensures
        skip_ws(p + t, p.len() + from, p.len() + to) == p.len() + skip_ws(t, from, to),
    decreases to - from,
{
    if from < to {
        assert((p + t)[p.len() + from] == t[from]);
        lemma_skip_ws_shift(p, t, from + 1, to);
    }
}

proof fn lemma_skip_ws_back_shift(p: Seq<char>, t: Seq<char>, from: int, to: int)
    requires
        0 <= from <= to <= t.len(),
    ensures
        skip_ws_back(p + t, p.len() + from, p.len() + to) == p.len() + skip_ws_back(t, from, to),
    decreases to - from,
{
    if from < to {
        assert((p + t)[p.len() + to - 1] == t[to - 1]);
        lemma_skip_ws_back_shift(p, t, from, to - 1);
    }
}

proof fn lemma_find_char_shift(p: Seq<char>, t: Seq<char>, from: int, to: int, c: char)
    requires
        0 <= from <= to <= t.len(),
    ensures
        find_char(p + t, p.len() + from, p.len() + to, c) == p.len() + find_char(t, from, to, c),
    decreases to - from,
{
    if from < to {
        assert((p + t)[p.len() + from] == t[from]);
        lemma_find_char_shift(p, t, from + 1, to, c);
    }
}

proof fn lemma_line_end_shift(p: Seq<char>, t: Seq<char>, pos: int)
    requires
        0 <= pos <= t.len(),
    ensures
        line_end(p + t, p.len() + pos) == p.len() + line_end(t, pos),
    decreases t.len() - pos,
{
    if pos < t.len() {
        assert((p + t)[p.len() + pos] == t[pos]);
        lemma_line_end_shift(p, t, pos + 1);
    }
}

proof fn lemma_line_outcome_shift(
    p: Seq<char>,
    t: Seq<char>,
    from: int,
    to: int,
    n: nat,
    f: ManifestFields,
)
    requires
        0 <= from <= to <= t.len(),
    ensures
        line_outcome(p + t, p.len() + from, p.len() + to, n, f) == line_outcome(t, from, to, n, f),
{
    let s = p + t;
    let k = p.len() as int;
    lemma_skip_ws(t, from, to);
    let a = skip_ws(t, from, to);
    lemma_skip_ws_shift(p, t, from, to);
    lemma_skip_ws_back(t, a, to);
    let b = skip_ws_back(t, a, to);
    lemma_skip_ws_back_shift(p, t, a, to);
    if a < b {
        assert(s[k + a] == t[a]);
        lemma_find_char(t, a, b, '=');
        let q = find_char(t, a, b, '=');
        lemma_find_char_shift(p, t, a, b, '=');
        if q < b {
            lemma_skip_ws(t, a, q);
            let ka = skip_ws(t, a, q);
            lemma_skip_ws_shift(p, t, a, q);
            lemma_skip_ws_back(t, ka, q);
            let kb = skip_ws_back(t, ka, q);
            lemma_skip_ws_back_shift(p, t, ka, q);
            lemma_skip_ws(t, q + 1, b);
            let va = skip_ws(t, q + 1, b);
            lemma_skip_ws_shift(p, t, q + 1, b);
            lemma_skip_ws_back(t, va, b);
            let vb = skip_ws_back(t, va, b);
            lemma_skip_ws_back_shift(p, t, va, b);
            assert(s.subrange(k + ka, k + kb) =~= t.subrange(ka, kb));
            assert(s.subrange(k + va, k + vb) =~= t.subrange(va, vb));
        }
    }
}

proof fn lemma_scan_shift(p: Seq<char>, t: Seq<char>, pos: int, n: nat, f: ManifestFields)
    requires
        0 <= pos,
    ensures
        scan(p + t, p.len() + pos, n, f) == scan(t, pos, n, f),
    decreases t.len() - pos,
{
    if pos < t.len() {
        lemma_line_end(t, pos);
        let e = line_end(t, pos);
        lemma_line_end_shift(p, t, pos);
        lemma_line_outcome_shift(p, t, pos, e, n, f);
        if let Ok(g) = line_outcome(t, pos, e, n, f) {
            if e < t.len() {
                lemma_scan_shift(p, t, e + 1, n + 1, g);
            }
        }
    }
}

proof fn lemma_scan_ok_any_numbering(s: Seq<char>, pos: int, n1: nat, n2: nat, f: ManifestFields)
    requires
        scan(s, pos, n1, f) is Ok,
    ensures
        scan(s, pos, n2, f) == scan(s, pos, n1, f),
    decreases s.len() - pos,
{
    if 0 <= pos < s.len() {
        lemma_line_end(s, pos);
        let e = line_end(s, pos);
        if let Ok(g) = line_outcome(s, pos, e, n1, f) {
            if e < s.len() {
                lemma_scan_ok_any_numbering(s, e + 1, n1 + 1, n2 + 1, g);
            }
        }
    }
}

proof fn lemma_line_end_at(s: Seq<char>, pos: int, k: int)
    requires
        0 <= pos <= k < s.len(),
        s[k] == '\n',
        forall|j: int| pos <= j < k ==> s[j] != '\n',
    ensures
        line_end(s, pos) == k,
    decreases k - pos,
{
    if pos < k {
        lemma_line_end_at(s, pos + 1, k);
    }
}

/// A comment line, one whose first character other than whitespace is `#`,
/// put in front of a manifest that reads back leaves what it reads back as
/// unchanged.
pub proof fn lemma_comment_line_is_skipped(c: Seq<char>, t: Seq<char>)
    requires
        !c.contains('\n'),
        skip_ws(c, 0, c.len() as int) < c.len(),
        c[skip_ws(c, 0, c.len() as int)] == '#',
    ensures
        manifest_outcome(t) is Ok ==> manifest_outcome(c + seq!['\n'] + t) == manifest_outcome(t),
{
    let p = c + seq!['\n'];
    let s = p + t;
    let k = c.len() as int;
    assert forall|j: int| 0 <= j < k implies s[j] != '\n' by {
        assert(s[j] == c[j]);
        if s[j] == '\n' {
            assert(c.contains('\n'));
        }
    }
    assert(s[k] == '\n');
    lemma_line_end_at(s, 0, k);
    lemma_skip_ws_agree(s, c, 0, k);
    lemma_skip_ws(c, 0, k);
    assert(s[skip_ws(s, 0, k)] == c[skip_ws(c, 0, k)]);
    assert(line_outcome(s, 0, k, 1, no_fields()) == Ok::<ManifestFields, ErrorView>(no_fields()));
    assert(scan(s, 0, 1, no_fields()) == scan(s, k + 1, 2, no_fields()));
    lemma_scan_shift(p, t, 0, 2, no_fields());
    if scan(t, 0, 1, no_fields()) is Ok {
        lemma_scan_ok_any_numbering(t, 0, 1, 2, no_fields());
    }
    assert(c + seq!['\n'] + t == s);
}

/// A `key = value` line that is taken sets exactly one field, one of the
/// four known keys, that no earlier line set, to what its value text
/// writes (the inside of the quotes, or the decimal number), and leaves the
/// other fields as they are: unknown and repeated keys are refused.
pub proof fn lemma_taken_line_sets_one_new_field(
    key: Seq<char>,
    value: Seq<char>,
    n: nat,
    f: ManifestFields,
)
    ensures
        apply_field(key, value, n, f) matches Ok(g) ==> ({
            ||| key == "id"@ && f.id is None && g == (ManifestFields {
                id: Some(value.subrange(1, value.len() - 1)),
                ..f
            })
            ||| key == "version"@ && f.version is None && all_digits(value) && g
                == (ManifestFields { version: Some(digits_value(value) as u64), ..f })
            ||| key == "created"@ && f.created is None && g == (ManifestFields {
                created: Some(value.subrange(1, value.len() - 1)),
                ..f
            })
            ||| key == "updated"@ && f.updated is None && g == (ManifestFields {
                updated: Some(value.subrange(1, value.len() - 1)),
                ..f
            })
        }),
{
}

} // verus!
