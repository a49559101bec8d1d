//! Verified plain-text number formatting: decimal renderings of the
//! unsigned and signed 64-bit integers, and the hyphenated lowercase
//! hexadecimal form of 128-bit identifiers, together with its parser and
//! their round-trip law.

use vstd::prelude::*;

verus! {

/// The decimal digit character for a value below ten.
pub open spec fn dec_digit(d: int) -> char {
    if d == 0 {
        '0'
    } else if d == 1 {
        '1'
    } else if d == 2 {
        '2'
    } else if d == 3 {
        '3'
    } else if d == 4 {
        '4'
    } else if d == 5 {
        '5'
    } else if d == 6 {
        '6'
    } else if d == 7 {
        '7'
    } else if d == 8 {
        '8'
    } else {
        '9'
    }
}

/// The decimal rendering of an unsigned value.
pub open spec fn spec_dec_u64(n: nat) -> Seq<char>
    decreases n,
{
    if n < 10 {
        seq![dec_digit(n as int)]
    } else {
        spec_dec_u64(n / 10) + seq![dec_digit((n % 10) as int)]
    }
}

/// The decimal rendering of a signed value: a minus sign before the
/// magnitude when negative.
pub open spec fn spec_dec_i64(v: i64) -> Seq<char> {
    if v >= 0 {
        spec_dec_u64(v as nat)
    } else {
        seq!['-'] + spec_dec_u64((-(v as int)) as nat)
    }
}

/// One decimal digit as a string slice.
fn dec_digit_str(d: u64) -> (r: &'static str)
    requires
        d < 10,
    ensures
        r@ == seq![dec_digit(d as int)],
{
    proof {
        reveal_strlit("0");
        reveal_strlit("1");
        reveal_strlit("2");
        reveal_strlit("3");
        reveal_strlit("4");
        reveal_strlit("5");
        reveal_strlit("6");
        reveal_strlit("7");
        reveal_strlit("8");
        reveal_strlit("9");
    }
    if d == 0 {
        "0"
    } else if d == 1 {
        "1"
    } else if d == 2 {
        "2"
    } else if d == 3 {
        "3"
    } else if d == 4 {
        "4"
    } else if d == 5 {
        "5"
    } else if d == 6 {
        "6"
    } else if d == 7 {
        "7"
    } else if d == 8 {
        "8"
    } else {
        "9"
    }
}

/// The decimal rendering of `n`.
pub fn u64_to_string(n: u64) -> (r: String)
    ensures
        r@ == spec_dec_u64(n as nat),
    decreases n,
{
    if n < 10 {
        String::from_str(dec_digit_str(n))
    } else {
        let mut s = u64_to_string(n / 10);
        s.append(dec_digit_str(n % 10));
        s
    }
}

/// The decimal rendering of `v`.
pub fn i64_to_string(v: i64) -> (r: String)
    ensures
        r@ == spec_dec_i64(v),
{
    if v >= 0 {
        u64_to_string(v as u64)
    } else {
        let mag: u64 = (-(v as i128)) as u64;
        proof {
            assert(mag as int == -(v as int)) by (bit_vector)
                requires
                    v < 0,
                    mag == (-(v as i128)) as u64,
            ;
        }
        let mut s = String::from_str("-");
        proof {
            reveal_strlit("-");
        }
        let d = u64_to_string(mag);
        s.append(d.as_str());
        s
    }
}

// ---------------------------------------------------------------------------
// 128-bit identifiers as hyphenated lowercase hexadecimal text
// ---------------------------------------------------------------------------

/// The lowercase hexadecimal digit character for a value below sixteen.
pub open spec fn hex_digit(d: int) -> char {
    if d == 0 {
        '0'
    } else if d == 1 {
        '1'
    } else if d == 2 {
        '2'
    } else if d == 3 {
        '3'
    } else if d == 4 {
        '4'
    } else if d == 5 {
        '5'
    } else if d == 6 {
        '6'
    } else if d == 7 {
        '7'
    } else if d == 8 {
        '8'
    } else if d == 9 {
        '9'
    } else if d == 10 {
        'a'
    } else if d == 11 {
        'b'
    } else if d == 12 {
        'c'
    } else if d == 13 {
        'd'
    } else if d == 14 {
        'e'
    } else {
        'f'
    }
}

/// Is `c` a lowercase hexadecimal digit?
pub open spec fn is_hex_char(c: char) -> bool {
    ('0' <= c && c <= '9') || ('a' <= c && c <= 'f')
}

/// The value of a lowercase hexadecimal digit.
pub open spec fn hex_val(c: char) -> u128 {
    if '0' <= c && c <= '9' {
        (c as u128 - '0' as u128) as u128
    } else {
        (c as u128 - 'a' as u128 + 10) as u128
    }
}

/// Does text position `j` of the canonical 36-character form hold a
/// hyphen?
pub open spec fn uuid_hyphen_at(j: int) -> bool {
    j == 8 || j == 13 || j == 18 || j == 23
}

/// The index of the hexadecimal digit at text position `j` (hyphens
/// excluded), counted from the most significant nibble.
pub open spec fn uuid_nib_pos(j: int) -> int {
    if j < 8 {
        j
    } else if j < 13 {
        j - 1
    } else if j < 18 {
        j - 2
    } else if j < 23 {
        j - 3
    } else {
        j - 4
    }
}

/// Nibble `k` of `u`, counted from the most significant.
pub open spec fn uuid_nib(u: u128, k: int) -> u128 {
    (u >> (((31 - k) * 4) as u128)) & 0xf
}

/// The canonical hyphenated lowercase hexadecimal form of `u`:
/// 8-4-4-4-12 digits.
pub open spec fn spec_uuid_str(u: u128) -> Seq<char> {
    Seq::new(
        36,
        |j: int|
            if uuid_hyphen_at(j) {
                '-'
            } else {
                hex_digit(uuid_nib(u, uuid_nib_pos(j)) as int)
            },
    )
}

/// The digit accumulator after reading the first `j` text positions.
pub open spec fn uuid_acc(s: Seq<char>, j: int) -> u128
    decreases j,
{
    if j <= 0 {
        0
    } else if uuid_hyphen_at(j - 1) {
        uuid_acc(s, j - 1)
    } else {
        (uuid_acc(s, j - 1) << 4) | hex_val(s[j - 1])
    }
}

/// Parse the canonical hyphenated hexadecimal form: 36 characters,
/// hyphens in their four places, lowercase digits elsewhere.
pub open spec fn spec_uuid_parse(s: Seq<char>) -> Option<u128> {
    if s.len() == 36 && (forall|j: int| 0 <= j < 36 && uuid_hyphen_at(j) ==> s[j] == '-') && (
    forall|j: int| 0 <= j < 36 && !uuid_hyphen_at(j) ==> is_hex_char(#[trigger] s[j])) {
        Some(uuid_acc(s, 36))
    } else {
        None
    }
}

/// One lowercase hexadecimal digit as a string slice.
fn hex_digit_str(d: u64) -> (r: &'static str)
    requires
        d < 16,
    ensures
        r@ == seq![hex_digit(d as int)],
        is_hex_char(hex_digit(d as int)),
        hex_val(hex_digit(d as int)) == d,
{
    proof {
        reveal_strlit("0");
        reveal_strlit("1");
        reveal_strlit("2");
        reveal_strlit("3");
        reveal_strlit("4");
        reveal_strlit("5");
        reveal_strlit("6");
        reveal_strlit("7");
        reveal_strlit("8");
        reveal_strlit("9");
        reveal_strlit("a");
        reveal_strlit("b");
        reveal_strlit("c");
        reveal_strlit("d");
        reveal_strlit("e");
        reveal_strlit("f");
    }
    if d == 0 {
        "0"
    } else if d == 1 {
        "1"
    } else if d == 2 {
        "2"
    } else if d == 3 {
        "3"
    } else if d == 4 {
        "4"
    } else if d == 5 {
        "5"
    } else if d == 6 {
        "6"
    } else if d == 7 {
        "7"
    } else if d == 8 {
        "8"
    } else if d == 9 {
        "9"
    } else if d == 10 {
        "a"
    } else if d == 11 {
        "b"
    } else if d == 12 {
        "c"
    } else if d == 13 {
        "d"
    } else if d == 14 {
        "e"
    } else {
        "f"
    }
}

/// The canonical hyphenated form of `u`.
pub fn u128_to_uuid_string(u: u128) -> (r: String)
    ensures
        r@ == spec_uuid_str(u),
{
    let mut r = String::new();
    let mut j: usize = 0;
    while j < 36
        invariant
            j <= 36,
            r@ =~= spec_uuid_str(u).take(j as int),
        decreases 36 - j,
    {
        if j == 8 || j == 13 || j == 18 || j == 23 {
            r.append("-");
            proof {
                reveal_strlit("-");
                assert(r@ =~= spec_uuid_str(u).take(j + 1 as int));
            }
        } else {
            let k: usize = if j < 8 {
                j
            } else if j < 13 {
                j - 1
            } else if j < 18 {
                j - 2
            } else if j < 23 {
                j - 3
            } else {
                j - 4
            };
            let sh: u32 = ((31 - k) * 4) as u32;
            let d: u64 = ((u >> sh) & 0xf) as u64;
            proof {
                assert((u >> sh) & 0xf < 16) by (bit_vector);
                assert(d as u128 == uuid_nib(u, k as int));
            }
            r.append(hex_digit_str(d));
            proof {
                assert(r@ =~= spec_uuid_str(u).take(j + 1 as int));
            }
        }
        j = j + 1;
    }
    proof {
        assert(spec_uuid_str(u).take(36) =~= spec_uuid_str(u));
    }
    r
}

/// The value of one parsed character, when it is a lowercase digit.
fn hex_val_of(c: char) -> (r: Option<u128>)
    ensures
        match r {
            Some(v) => is_hex_char(c) && v == hex_val(c),
            None => !is_hex_char(c),
        },
{
    if '0' <= c && c <= '9' {
        Some((c as u128) - ('0' as u128))
    } else if 'a' <= c && c <= 'f' {
        Some((c as u128) - ('a' as u128) + 10)
    } else {
        None
    }
}

/// Parse the canonical hyphenated form, as [`spec_uuid_parse`] describes.
pub fn uuid_from_str(s: &str) -> (r: Option<u128>)
    ensures
        r == spec_uuid_parse(s@),
{
    let n = s.unicode_len();
    if n != 36 {
        return None;
    }
    let mut acc: u128 = 0;
    let mut j: usize = 0;
    while j < 36
        invariant
            j <= 36,
            s@.len() == 36,
            acc == uuid_acc(s@, j as int),
            forall|i: int| 0 <= i < j && uuid_hyphen_at(i) ==> s@[i] == '-',
            forall|i: int| 0 <= i < j && !uuid_hyphen_at(i) ==> is_hex_char(#[trigger] s@[i]),
        decreases 36 - j,
    {
        let c = s.get_char(j);
        if j == 8 || j == 13 || j == 18 || j == 23 {
            if c != '-' {
                return None;
            }
        } else {
            match hex_val_of(c) {
                Some(v) => {
                    acc = (acc << 4u32) | v;
                    proof {
                        assert(acc == uuid_acc(s@, j + 1));
                    }
                },
                None => {
                    return None;
                },
            }
        }
        j = j + 1;
    }
    Some(acc)
}

/// Reading back the canonical form of `u` yields `u`.
pub proof fn lemma_uuid_round_trip(u: u128)
    ensures
        spec_uuid_parse(spec_uuid_str(u)) == Some(u),
{
    let s = spec_uuid_str(u);
    assert forall|j: int| 0 <= j < 36 && !uuid_hyphen_at(j) implies is_hex_char(
        #[trigger] s[j],
    ) by {
        assert(uuid_nib(u, uuid_nib_pos(j)) < 16) by {
            let k = uuid_nib_pos(j);
            let sh = ((31 - k) * 4) as u128;
            assert((u >> sh) & 0xf < 16) by (bit_vector);
        }
    }
    assert forall|j: int| 0 <= j <= 36 implies uuid_acc(s, j) == acc_target(u, j) by {
        lemma_uuid_acc(u, j);
    }
    assert(uuid_acc(s, 36) == u) by {
        assert(acc_target(u, 36) == (u >> 0)) by {
            assert(uuid_consumed(36) == 32);
        }
        assert(u >> 0 == u) by (bit_vector);
    }
}

/// How many digits the first `j` text positions hold (hyphens excluded).
pub open spec fn uuid_consumed(j: int) -> int {
    if j <= 8 {
        j
    } else if j <= 13 {
        j - 1
    } else if j <= 18 {
        j - 2
    } else if j <= 23 {
        j - 3
    } else {
        j - 4
    }
}

/// The accumulator the canonical form should reach after `j` positions:
/// the most significant nibbles read so far.
pub open spec fn acc_target(u: u128, j: int) -> u128 {
    if uuid_consumed(j) == 0 {
        0
    } else {
        u >> ((128 - 4 * uuid_consumed(j)) as u128)
    }
}

/// The accumulator over the canonical form follows its target.
proof fn lemma_uuid_acc(u: u128, j: int)
    requires
        0 <= j <= 36,
    ensures
        uuid_acc(spec_uuid_str(u), j) == acc_target(u, j),
    decreases j,
{
    let s = spec_uuid_str(u);
    if j > 0 {
        lemma_uuid_acc(u, j - 1);
        if uuid_hyphen_at(j - 1) {
            assert(uuid_consumed(j) == uuid_consumed(j - 1));
        } else {
            let k = uuid_consumed(j - 1);
            assert(uuid_nib_pos(j - 1) == k);
            assert(uuid_consumed(j) == k + 1);
            assert(s[j - 1] == hex_digit(uuid_nib(u, k) as int));
            assert(uuid_nib(u, k) < 16) by {
                let sh = ((31 - k) * 4) as u128;
                assert((u >> sh) & 0xf < 16) by (bit_vector);
            }
            assert(hex_val(hex_digit(uuid_nib(u, k) as int)) == uuid_nib(u, k));
            if k == 0 {
                assert((0u128 << 4) | ((u >> 124) & 0xf) == u >> 124) by (bit_vector);
                assert(uuid_nib(u, 0) == (u >> 124) & 0xf);
                assert(acc_target(u, j) == u >> 124);
            } else {
                let kk = k as u128;
                assert(1 <= kk < 32);
                assert(((u >> ((128 - 4 * kk) as u128)) << 4) | ((u >> ((124 - 4 * kk) as u128))
                    & 0xf) == u >> ((124 - 4 * kk) as u128)) by (bit_vector)
                    requires
                        1 <= kk < 32,
                ;
                assert(uuid_nib(u, k) == (u >> ((124 - 4 * kk) as u128)) & 0xf) by {
                    assert(((31 - k) * 4) as u128 == (124 - 4 * kk) as u128);
                }
                assert(acc_target(u, j - 1) == u >> ((128 - 4 * kk) as u128));
                assert(acc_target(u, j) == u >> ((124 - 4 * kk) as u128)) by {
                    assert((128 - 4 * (kk + 1)) as u128 == (124 - 4 * kk) as u128);
                }
            }
        }
    }
}

} // verus!
