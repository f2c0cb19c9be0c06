//! Character-level text helpers: decimal rendering, zero padding, and
//! conversions between `String`, `&str` and vectors of characters.
use vstd::prelude::*;

verus! {

/// Decimal digits of `n`, most significant first, with no leading zero
/// (`0` is written as a single `'0'`).
pub open spec fn decimal(n: nat) -> Seq<char>
    decreases n,
{
    if n < 10 {
        seq![digit_char(n)]
    } else {
        decimal(n / 10).push(digit_char(n % 10))
    }
}

/// The ASCII character of a decimal digit.
pub open spec fn digit_char(d: nat) -> char {
    if d == 0 {
        '0'
    } else if d == 1 {
        '1'
    } else if d == 2 {
        '2'
    } else if d == 3 {
        '3'
    } else if d == 4 {
        '4'
    } else if d == 5 {
        '5'
    } else if d == 6 {
        '6'
    } else if d == 7 {
        '7'
    } else if d == 8 {
        '8'
    } else {
        '9'
    }
}

/// `s` preceded by as many `'0'` as needed to make it at least `width` long.
pub open spec fn zero_pad(s: Seq<char>, width: nat) -> Seq<char> {
    if s.len() < width {
        Seq::new((width - s.len()) as nat, |i: int| '0') + s
    } else {
        s
    }
}

/// A signed integer written as `format!("{:0width$}")` writes it: the sign
/// counts toward the width and the zeros go between the sign and the digits.
pub open spec fn signed_pad(v: int, width: nat) -> Seq<char> {
    if v < 0 {
        seq!['-'] + zero_pad(decimal((-v) as nat), if width > 0 { (width - 1) as nat } else { 0 })
    } else {
        zero_pad(decimal(v as nat), width)
    }
}

/// Whether `a` comes strictly before `b` in lexicographic order of
/// characters: at the first position where they differ, `a` holds the
/// smaller character.
pub open spec fn text_less(a: Seq<char>, b: Seq<char>) -> bool {
    exists|k: int|
        0 <= k < a.len() && k < b.len() && a.subrange(0, k) == b.subrange(0, k) && #[trigger] a[k]
            < #[trigger] b[k]
}

/// `String::push` appends one character to the string.
#[verifier::external_body]
pub fn push_char(s: &mut String, c: char)
    ensures
        final(s)@ == old(s)@.push(c),
{
    s.push(c)
}

/// `std::str::from_utf8` accepts exactly the byte sequences that are valid
/// UTF-8 and then yields the characters they encode.
#[verifier::external_body]
pub fn str_from_utf8(bytes: &[u8]) -> (r: Option<&str>)
    ensures
        r is Some <==> vstd::utf8::valid_utf8(bytes@),
        r matches Some(s) ==> s@ == vstd::utf8::decode_utf8(bytes@),
{
    std::str::from_utf8(bytes).ok()
}

/// Appends every character of `cs` to `s`.
pub fn push_chars(s: &mut String, cs: &[char])
    ensures
        final(s)@ == old(s)@ + cs@,
{
    let mut i: usize = 0;
    while i < cs.len()
        invariant
            i <= cs@.len(),
            s@ == old(s)@ + cs@.subrange(0, i as int),
        decreases cs@.len() - i,
    {
        push_char(s, cs[i]);
        assert(cs@.subrange(0, i + 1) == cs@.subrange(0, i as int).push(cs@[i as int]));
        i = i + 1;
    }
    assert(cs@.subrange(0, cs@.len() as int) == cs@);
}

/// A new string holding exactly the characters of `cs`.
pub fn string_from_chars(cs: &[char]) -> (r: String)
    ensures
        r@ == cs@,
{
    let mut s = String::new();
    push_chars(&mut s, cs);
    s
}

/// The characters of `s`, in order.
pub fn chars_of(s: &str) -> (r: Vec<char>)
    ensures
        r@ == s@,
{
    let mut out: Vec<char> = Vec::new();
    for c in it: s.chars()
        invariant
            out@ == it.seq().subrange(0, it.index() as int),
            it.seq() == s@,
    {
        out.push(c);
        assert(it.seq().subrange(0, it.index() + 1) == it.seq().subrange(0, it.index() as int).push(c));
    }
    out
}

/// The decimal digits of `n`.
pub fn decimal_chars(n: u64) -> (r: Vec<char>)
    ensures
        r@ == decimal(n as nat),
    decreases n,
{
    if n < 10 {
        let mut v: Vec<char> = Vec::new();
        v.push(digit(n as u32));
        v
    } else {
        let mut v = decimal_chars(n / 10);
        v.push(digit((n % 10) as u32));
        v
    }
}

/// The ASCII character of the decimal digit `d`.
pub fn digit(d: u32) -> (c: char)
    requires
        d < 10,
    ensures
        c == digit_char(d as nat),
{
    if d == 0 { '0' }
    else if d == 1 { '1' }
    else if d == 2 { '2' }
    else if d == 3 { '3' }
    else if d == 4 { '4' }
    else if d == 5 { '5' }
    else if d == 6 { '6' }
    else if d == 7 { '7' }
    else if d == 8 { '8' }
    else { '9' }
}

/// Appends the decimal digits of `n` to `s`.
pub fn push_decimal(s: &mut String, n: u64)
    ensures
        final(s)@ == old(s)@ + decimal(n as nat),
{
    let v = decimal_chars(n);
    push_chars(s, v.as_slice());
}

/// Appends `n` in decimal, zero-padded to at least `width` characters.
pub fn push_zero_padded(s: &mut String, n: u64, width: usize)
    ensures
        final(s)@ == old(s)@ + zero_pad(decimal(n as nat), width as nat),
{
    let v = decimal_chars(n);
    let ghost start = s@;
    if v.len() < width {
        let pad = width - v.len();
        let mut i: usize = 0;
        while i < pad
            invariant
                i <= pad,
                pad == width - v@.len(),
                s@ == start + Seq::new(i as nat, |k: int| '0'),
            decreases pad - i,
        {
            push_char(s, '0');
            assert(Seq::new((i + 1) as nat, |k: int| '0') == Seq::new(i as nat, |k: int| '0').push('0'));
            i = i + 1;
        }
        push_chars(s, v.as_slice());
        assert(s@ == start + (Seq::new((width - v@.len()) as nat, |k: int| '0') + v@));
    } else {
        push_chars(s, v.as_slice());
    }
}

/// The text of the path `name` joined under the directory `base`, as
/// `Path::join` forms it for a relative `name`: a `/` is put between them
/// unless `base` is empty or already ends with one.
pub open spec fn join_text(base: Seq<char>, name: Seq<char>) -> Seq<char> {
    if base.len() == 0 || base.last() == '/' {
        base + name
    } else {
        base + seq!['/'] + name
    }
}

/// The text of `name` joined under the directory `base`.
pub fn join_path_text(base: &str, name: &str) -> (r: String)
    ensures
        r@ == join_text(base@, name@),
{
    let cs = chars_of(base);
    let mut s = String::from_str(base);
    let n = cs.len();
    if n > 0 && cs[n - 1] != '/' {
        push_char(&mut s, '/');
    }
    s.append(name);
    s
}

} // verus!
