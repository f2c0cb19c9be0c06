//! Canonical lowercase text of version-4 UUIDs: formatting random bytes and
//! recognising the text.
use vstd::prelude::*;

use crate::text::{chars_of, digit, digit_char, push_char};

verus! {

/// The lowercase hexadecimal digit of `v` (0 to 15).
pub open spec fn hex_char(v: int) -> char {
    if v < 10 {
        digit_char(v as nat)
    } else if v == 10 {
        'a'
    } else if v == 11 {
        'b'
    } else if v == 12 {
        'c'
    } else if v == 13 {
        'd'
    } else if v == 14 {
        'e'
    } else {
        'f'
    }
}

/// Two lowercase hexadecimal digits of each byte, in order.
pub open spec fn hex_text(bytes: Seq<u8>) -> Seq<char>
    decreases bytes.len(),
{
    if bytes.len() == 0 {
        Seq::empty()
    } else {
        hex_text(bytes.drop_last()) + seq![
            hex_char(bytes.last() as int / 16),
            hex_char(bytes.last() as int % 16),
        ]
    }
}

/// Sixteen bytes written as a UUID: groups of 4, 2, 2, 2 and 6 bytes in
/// lowercase hexadecimal, separated by `-`.
pub open spec fn uuid_text(bytes: Seq<u8>) -> Seq<char> {
    hex_text(bytes.subrange(0, 4)) + seq!['-'] + hex_text(bytes.subrange(4, 6)) + seq!['-']
        + hex_text(bytes.subrange(6, 8)) + seq!['-'] + hex_text(bytes.subrange(8, 10)) + seq!['-']
        + hex_text(bytes.subrange(10, 16))
}

/// Whether `c` is a lowercase hexadecimal digit.
pub open spec fn is_lower_hex(c: char) -> bool {
    ('0' <= c && c <= '9') || ('a' <= c && c <= 'f')
}

/// Whether `i` is the position of a `-` in UUID text.
pub open spec fn is_dash_position(i: int) -> bool {
    i == 8 || i == 13 || i == 18 || i == 23
}

/// Whether `s` is a lowercase version-4 UUID such as
/// `550e8400-e29b-41d4-a716-446655440000`: 36 characters, `-` at positions
/// 8, 13, 18 and 23, lowercase hexadecimal digits elsewhere, version digit
/// `4` at position 14 and variant digit `8`, `9`, `a` or `b` at position 19.
pub open spec fn is_uuid_v4_text(s: Seq<char>) -> bool {
    &&& s.len() == 36
    &&& forall|i: int|
        0 <= i < 36 ==> if is_dash_position(i) {
            s[i] == '-'
        } else {
            is_lower_hex(#[trigger] s[i])
        }
    &&& s[14] == '4'
    &&& (s[19] == '8' || s[19] == '9' || s[19] == 'a' || s[19] == 'b')
}

/// The bytes with the version-4 bits set in byte 6 and the RFC 4122 variant
/// bits set in byte 8.
pub open spec fn stamp_version(bytes: Seq<u8>) -> Seq<u8> {
    bytes.update(6, (bytes[6] & 0x0f) | 0x40).update(8, (bytes[8] & 0x3f) | 0x80)
}

/// The lowercase hexadecimal digit of `v`.
pub fn hex_digit(v: u8) -> (c: char)
    requires
        v < 16,
    ensures
        c == hex_char(v as int),
{
    if v < 10 {
        digit(v as u32)
    } else if v == 10 {
        'a'
    } else if v == 11 {
        'b'
    } else if v == 12 {
        'c'
    } else if v == 13 {
        'd'
    } else if v == 14 {
        'e'
    } else {
        'f'
    }
}

/// Appends the hexadecimal text of `bytes[from..to]` to `s`.
fn push_hex(s: &mut String, bytes: &[u8], from: usize, to: usize)
    requires
        from <= to <= bytes@.len(),
    ensures
        final(s)@ == old(s)@ + hex_text(bytes@.subrange(from as int, to as int)),
{
    let mut i = from;
    while i < to
        invariant
            from <= i <= to <= bytes@.len(),
            s@ == old(s)@ + hex_text(bytes@.subrange(from as int, i as int)),
        decreases to - i,
    {
        let b = bytes[i];
        push_char(s, hex_digit(b / 16));
        push_char(s, hex_digit(b % 16));
        assert(bytes@.subrange(from as int, i + 1).drop_last() == bytes@.subrange(
            from as int,
            i as int,
        ));
        i = i + 1;
    }
}

/// The canonical text of sixteen bytes as a UUID.
pub fn format_uuid(bytes: &[u8; 16]) -> (r: String)
    ensures
        r@ == uuid_text(bytes@),
{
    let b = bytes.as_slice();
    let mut s = String::new();
    push_hex(&mut s, b, 0, 4);
    push_char(&mut s, '-');
    push_hex(&mut s, b, 4, 6);
    push_char(&mut s, '-');
    push_hex(&mut s, b, 6, 8);
    push_char(&mut s, '-');
    push_hex(&mut s, b, 8, 10);
    push_char(&mut s, '-');
    push_hex(&mut s, b, 10, 16);
    s
}

/// Whether the characters `s` are a lowercase version-4 UUID.
pub fn uuid_text_valid(s: &[char]) -> (r: bool)
    ensures
        r == is_uuid_v4_text(s@),
{
    if s.len() != 36 {
        return false;
    }
    let mut i: usize = 0;
    while i < 36
        invariant
            i <= 36,
            s@.len() == 36,
            forall|j: int|
                0 <= j < i ==> if is_dash_position(j) {
                    s@[j] == '-'
                } else {
                    is_lower_hex(#[trigger] s@[j])
                },
        decreases 36 - i,
    {
        let c = s[i];
        if i == 8 || i == 13 || i == 18 || i == 23 {
            if c != '-' {
                return false;
            }
        } else if !(('0' <= c && c <= '9') || ('a' <= c && c <= 'f')) {
            return false;
        }
        i = i + 1;
    }
    s[14] == '4' && (s[19] == '8' || s[19] == '9' || s[19] == 'a' || s[19] == 'b')
}

/// Whether `value` is a lowercase version-4 UUID.
pub fn is_uuid_v4(value: &str) -> (r: bool)
    ensures
        r == is_uuid_v4_text(value@),
{
    let cs = chars_of(value);
    uuid_text_valid(cs.as_slice())
}

/// Sixteen bytes with the version and variant bits set.
pub fn stamp_version_bits(bytes: [u8; 16]) -> (r: [u8; 16])
    ensures
        r@ == stamp_version(bytes@),
{
    let mut b = bytes;
    b[6] = (b[6] & 0x0f) | 0x40;
    b[8] = (b[8] & 0x3f) | 0x80;
    b
}

proof fn lemma_hex_text_chars(bytes: Seq<u8>)
    ensures
        hex_text(bytes).len() == 2 * bytes.len(),
        forall|i: int| 0 <= i < hex_text(bytes).len() ==> is_lower_hex(#[trigger] hex_text(bytes)[i]),
    decreases bytes.len(),
{
    if bytes.len() > 0 {
        lemma_hex_text_chars(bytes.drop_last());
        let b = bytes.last();
        assert(b as int / 16 < 16);
        let t = hex_text(bytes);
        assert forall|i: int| 0 <= i < t.len() implies is_lower_hex(#[trigger] t[i]) by {
            if i < t.len() - 2 {
                assert(t[i] == hex_text(bytes.drop_last())[i]);
            }
        }
    }
}

/// Every sixteen bytes, once the version and variant bits are set, format
/// as a valid version-4 UUID.
pub proof fn lemma_stamped_bytes_are_uuid_v4(bytes: Seq<u8>)
    requires
        bytes.len() == 16,
    ensures
        is_uuid_v4_text(uuid_text(stamp_version(bytes))),
{
    let b = stamp_version(bytes);
    let t = uuid_text(b);
    let g0 = hex_text(b.subrange(0, 4));
    let g1 = hex_text(b.subrange(4, 6));
    let g2 = hex_text(b.subrange(6, 8));
    let g3 = hex_text(b.subrange(8, 10));
    let g4 = hex_text(b.subrange(10, 16));
    lemma_hex_text_chars(b.subrange(0, 4));
    lemma_hex_text_chars(b.subrange(4, 6));
    lemma_hex_text_chars(b.subrange(6, 8));
    lemma_hex_text_chars(b.subrange(8, 10));
    lemma_hex_text_chars(b.subrange(10, 16));
    assert(t.len() == 36);
    assert forall|i: int| 0 <= i < 36 implies if is_dash_position(i) {
        t[i] == '-'
    } else {
        is_lower_hex(#[trigger] t[i])
    } by {
        if i < 8 {
            assert(t[i] == g0[i]);
        } else if 8 < i < 13 {
            assert(t[i] == g1[i - 9]);
        } else if 13 < i < 18 {
            assert(t[i] == g2[i - 14]);
        } else if 18 < i < 23 {
            assert(t[i] == g3[i - 19]);
        } else if 23 < i {
            assert(t[i] == g4[i - 24]);
        }
    }
    let x6: u8 = bytes[6];
    let x8: u8 = bytes[8];
    let v6: u8 = (x6 & 0x0f) | 0x40;
    let v8: u8 = (x8 & 0x3f) | 0x80;
    assert(v6 / 16 == 4) by (bit_vector)
        requires
            v6 == (x6 & 0x0f) | 0x40,
    ;
    assert(8 <= v8 / 16 <= 11) by (bit_vector)
        requires
            v8 == (x8 & 0x3f) | 0x80,
    ;
    assert(b.subrange(6, 8) == seq![v6, b[7]]);
    assert(hex_text(b.subrange(6, 8)) == hex_text(seq![v6]) + seq![
        hex_char(b[7] as int / 16),
        hex_char(b[7] as int % 16),
    ]) by {
        assert(b.subrange(6, 8).drop_last() == seq![v6]);
    }
    assert(hex_text(seq![v6]) == seq![hex_char(v6 as int / 16), hex_char(v6 as int % 16)]) by {
        assert(seq![v6].drop_last() == Seq::<u8>::empty());
    }
    assert(t[14] == g2[0]);
    assert(b.subrange(8, 10) == seq![v8, b[9]]);
    assert(hex_text(b.subrange(8, 10)) == hex_text(seq![v8]) + seq![
        hex_char(b[9] as int / 16),
        hex_char(b[9] as int % 16),
    ]) by {
        assert(b.subrange(8, 10).drop_last() == seq![v8]);
    }
    assert(hex_text(seq![v8]) == seq![hex_char(v8 as int / 16), hex_char(v8 as int % 16)]) by {
        assert(seq![v8].drop_last() == Seq::<u8>::empty());
    }
    assert(t[19] == g3[0]);
}

// ---------------------------------------------------------------------
// Reading UUID text back
// ---------------------------------------------------------------------

/// The value of the lowercase hexadecimal digit `c`.
pub open spec fn hex_value(c: char) -> int {
    if '0' <= c && c <= '9' {
        c as int - 48
    } else {
        c as int - 87
    }
}

/// Position in UUID text of the first digit of byte `i`.
pub open spec fn uuid_byte_position(i: int) -> int {
    2 * i + (if i >= 4 {
        1int
    } else {
        0
    }) + (if i >= 6 {
        1int
    } else {
        0
    }) + (if i >= 8 {
        1int
    } else {
        0
    }) + (if i >= 10 {
        1int
    } else {
        0
    })
}

proof fn lemma_hex_char_value(v: int)
    requires
        0 <= v < 16,
    ensures
        hex_value(hex_char(v)) == v,
        is_lower_hex(hex_char(v)),
{
}

proof fn lemma_hex_text_at(bytes: Seq<u8>)
    ensures
        hex_text(bytes).len() == 2 * bytes.len(),
        forall|k: int|
            0 <= k < bytes.len() ==> #[trigger] hex_text(bytes)[2 * k] == hex_char(
                bytes[k] as int / 16,
            ) && hex_text(bytes)[2 * k + 1] == hex_char(bytes[k] as int % 16),
    decreases bytes.len(),
{
    if bytes.len() > 0 {
        lemma_hex_text_at(bytes.drop_last());
        let t = hex_text(bytes);
        assert forall|k: int| 0 <= k < bytes.len() implies #[trigger] t[2 * k] == hex_char(
            bytes[k] as int / 16,
        ) && t[2 * k + 1] == hex_char(bytes[k] as int % 16) by {
            if k < bytes.len() - 1 {
                assert(bytes.drop_last()[k] == bytes[k]);
                assert(t[2 * k] == hex_text(bytes.drop_last())[2 * k]);
                assert(t[2 * k + 1] == hex_text(bytes.drop_last())[2 * k + 1]);
            }
        }
    }
}

/// The two digits of byte `i` of sixteen bytes stand at
/// `uuid_byte_position(i)` of their UUID text.
proof fn lemma_uuid_digits(bytes: Seq<u8>, i: int)
    requires
        bytes.len() == 16,
        0 <= i < 16,
    ensures
        uuid_text(bytes)[uuid_byte_position(i)] == hex_char(bytes[i] as int / 16),
        uuid_text(bytes)[uuid_byte_position(i) + 1] == hex_char(bytes[i] as int % 16),
{
    let t = uuid_text(bytes);
    let g0 = bytes.subrange(0, 4);
    let g1 = bytes.subrange(4, 6);
    let g2 = bytes.subrange(6, 8);
    let g3 = bytes.subrange(8, 10);
    let g4 = bytes.subrange(10, 16);
    lemma_hex_text_at(g0);
    lemma_hex_text_at(g1);
    lemma_hex_text_at(g2);
    lemma_hex_text_at(g3);
    lemma_hex_text_at(g4);
    let p = uuid_byte_position(i);
    if i < 4 {
        assert(g0[i] == bytes[i]);
        assert(t[p] == hex_text(g0)[2 * i]);
        assert(t[p + 1] == hex_text(g0)[2 * i + 1]);
    } else if i < 6 {
        assert(g1[i - 4] == bytes[i]);
        assert(t[p] == hex_text(g1)[2 * (i - 4)]);
        assert(t[p + 1] == hex_text(g1)[2 * (i - 4) + 1]);
    } else if i < 8 {
        assert(g2[i - 6] == bytes[i]);
        assert(t[p] == hex_text(g2)[2 * (i - 6)]);
        assert(t[p + 1] == hex_text(g2)[2 * (i - 6) + 1]);
    } else if i < 10 {
        assert(g3[i - 8] == bytes[i]);
        assert(t[p] == hex_text(g3)[2 * (i - 8)]);
        assert(t[p + 1] == hex_text(g3)[2 * (i - 8) + 1]);
    } else {
        assert(g4[i - 10] == bytes[i]);
        assert(t[p] == hex_text(g4)[2 * (i - 10)]);
        assert(t[p + 1] == hex_text(g4)[2 * (i - 10) + 1]);
    }
}

/// The UUID text of any sixteen bytes is 36 characters: `-` at positions
/// 8, 13, 18 and 23, lowercase hexadecimal digits elsewhere; its digits,
/// read in pairs and in order, give back the bytes; and when the bytes
/// already carry the version-4 and variant bits, the text is a valid
/// version-4 UUID.
pub proof fn lemma_uuid_text_reads_back(bytes: Seq<u8>)
    requires
        bytes.len() == 16,
    ensures
        uuid_text(bytes).len() == 36,
        forall|i: int|
            0 <= i < 36 ==> if is_dash_position(i) {
                uuid_text(bytes)[i] == '-'
            } else {
                is_lower_hex(#[trigger] uuid_text(bytes)[i])
            },
        forall|i: int|
            0 <= i < 16 ==> hex_value(uuid_text(bytes)[uuid_byte_position(i)]) * 16 + hex_value(
                uuid_text(bytes)[uuid_byte_position(i) + 1],
            ) == #[trigger] bytes[i],
        (bytes[6] / 16 == 4 && bytes[8] / 64 == 2) ==> is_uuid_v4_text(uuid_text(bytes)),
{
    let t = uuid_text(bytes);
    lemma_hex_text_chars(bytes.subrange(0, 4));
    lemma_hex_text_chars(bytes.subrange(4, 6));
    lemma_hex_text_chars(bytes.subrange(6, 8));
    lemma_hex_text_chars(bytes.subrange(8, 10));
    lemma_hex_text_chars(bytes.subrange(10, 16));
    let g0 = hex_text(bytes.subrange(0, 4));
    let g1 = hex_text(bytes.subrange(4, 6));
    let g2 = hex_text(bytes.subrange(6, 8));
    let g3 = hex_text(bytes.subrange(8, 10));
    let g4 = hex_text(bytes.subrange(10, 16));
    assert(t.len() == 36);
    assert forall|i: int| 0 <= i < 36 implies if is_dash_position(i) {
        t[i] == '-'
    } else {
        is_lower_hex(#[trigger] t[i])
    } by {
        if i < 8 {
            assert(t[i] == g0[i]);
        } else if 8 < i < 13 {
            assert(t[i] == g1[i - 9]);
        } else if 13 < i < 18 {
            assert(t[i] == g2[i - 14]);
        } else if 18 < i < 23 {
            assert(t[i] == g3[i - 19]);
        } else if 23 < i {
            assert(t[i] == g4[i - 24]);
        }
    }
    assert forall|i: int| 0 <= i < 16 implies hex_value(t[uuid_byte_position(i)]) * 16
        + hex_value(t[uuid_byte_position(i) + 1]) == #[trigger] bytes[i] by {
        lemma_uuid_digits(bytes, i);
        lemma_hex_char_value(bytes[i] as int / 16);
        lemma_hex_char_value(bytes[i] as int % 16);
    }
    if bytes[6] / 16 == 4 && bytes[8] / 64 == 2 {
        lemma_uuid_digits(bytes, 6);
        lemma_uuid_digits(bytes, 8);
        assert(uuid_byte_position(6) == 14);
        assert(uuid_byte_position(8) == 19);
        assert(8 <= bytes[8] as int / 16 <= 11);
    }
}

/// Distinct sixteen bytes have distinct UUID text.
pub proof fn lemma_uuid_text_injective(b1: Seq<u8>, b2: Seq<u8>)
    requires
        b1.len() == 16,
        b2.len() == 16,
        uuid_text(b1) == uuid_text(b2),
    ensures
        b1 == b2,
{
    lemma_uuid_text_reads_back(b1);
    lemma_uuid_text_reads_back(b2);
    assert forall|i: int| 0 <= i < 16 implies b1[i] == b2[i] by {
        assert(b1[i] == hex_value(uuid_text(b1)[uuid_byte_position(i)]) * 16 + hex_value(
            uuid_text(b1)[uuid_byte_position(i) + 1],
        ));
        assert(b2[i] == hex_value(uuid_text(b2)[uuid_byte_position(i)]) * 16 + hex_value(
            uuid_text(b2)[uuid_byte_position(i) + 1],
        ));
    }
    assert(b1 == b2);
}

/// The sixteen bytes that the digits of UUID text `s` write, read in pairs
/// and in order.
pub open spec fn uuid_bytes(s: Seq<char>) -> Seq<u8> {
    Seq::new(
        16,
        |i: int|
            (hex_value(s[uuid_byte_position(i)]) * 16 + hex_value(
                s[uuid_byte_position(i) + 1],
            )) as u8,
    )
}

proof fn lemma_hex_value_char(c: char)
    requires
        is_lower_hex(c),
    ensures
        0 <= hex_value(c) < 16,
        hex_char(hex_value(c)) == c,
{
}

/// Every accepted id is the UUID text of sixteen bytes that carry the
/// version-4 and variant bits, bytes that stamping leaves as they are: the
/// ids accepted are exactly those that fresh random bytes can be given.
pub proof fn lemma_accepted_id_is_stamped_bytes(s: Seq<char>)
    requires
        is_uuid_v4_text(s),
    ensures
        uuid_bytes(s).len() == 16,
        uuid_text(uuid_bytes(s)) == s,
        uuid_bytes(s)[6] / 16 == 4,
        uuid_bytes(s)[8] / 64 == 2,
        stamp_version(uuid_bytes(s)) == uuid_bytes(s),
{
    let b = uuid_bytes(s);
    assert forall|i: int| 0 <= i < 16 implies #[trigger] b[i] as int / 16 == hex_value(
        s[uuid_byte_position(i)],
    ) && b[i] as int % 16 == hex_value(s[uuid_byte_position(i) + 1]) by {
        let p = uuid_byte_position(i);
        assert(!is_dash_position(p) && !is_dash_position(p + 1));
        assert(is_lower_hex(s[p]));
        assert(is_lower_hex(s[p + 1]));
        lemma_hex_value_char(s[p]);
        lemma_hex_value_char(s[p + 1]);
        let v = hex_value(s[p]) * 16 + hex_value(s[p + 1]);
        assert(0 <= v < 256);
        assert(b[i] == v);
    }
    lemma_uuid_text_reads_back(b);
    let t = uuid_text(b);
    assert forall|j: int| 0 <= j < 36 implies t[j] == s[j] by {
        if is_dash_position(j) {
        } else {
            let i = if j < 8 {
                j / 2
            } else if j < 13 {
                (j - 9) / 2 + 4
            } else if j < 18 {
                (j - 14) / 2 + 6
            } else if j < 23 {
                (j - 19) / 2 + 8
            } else {
                (j - 24) / 2 + 10
            };
            let p = uuid_byte_position(i);
            assert(j == p || j == p + 1);
            lemma_uuid_digits(b, i);
            assert(b[i] as int / 16 == hex_value(s[p]));
            assert(is_lower_hex(s[j]));
            lemma_hex_value_char(s[j]);
        }
    }
    assert(t =~= s);
    let x6: u8 = b[6];
    let x8: u8 = b[8];
    assert(uuid_byte_position(6) == 14);
    assert(uuid_byte_position(8) == 19);
    assert(x6 / 16 == 4);
    assert(8 <= x8 / 16 <= 11);
    assert(x8 / 64 == 2);
    assert((x6 & 0x0f) | 0x40 == x6) by (bit_vector)
        requires
            x6 / 16 == 4,
    ;
    assert((x8 & 0x3f) | 0x80 == x8) by (bit_vector)
        requires
            x8 / 64 == 2,
    ;
    assert(stamp_version(b) =~= b);
}

} // verus!
