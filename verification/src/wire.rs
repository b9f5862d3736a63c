//! The textual wire format: a canonical, human-readable serialization of
//! envelopes and jobs.
//!
//! The format is a restricted form of JSON: objects with a fixed field
//! order, numbers in canonical decimal (no leading zeros), strings of
//! ASCII with the quote, the backslash and the control characters carried
//! in canonical hex escapes, and byte arrays as decimal lists. The
//! printer emits exactly this form and the parser accepts exactly this
//! form, which is what makes the codec lossless: parsing an encoding
//! returns the encoded value, and whatever parses is the encoding of its
//! result.

use vstd::prelude::*;
use vstd::string::StringSliceAdditionalSpecFns;

verus! {

/// Whether a byte spells a decimal digit.
pub open spec fn is_digit(b: u8) -> bool {
    0x30 <= b && b <= 0x39
}

/// The canonical decimal spelling of a number: no leading zeros, at least
/// one digit.
pub open spec fn spec_dec(n: nat) -> Seq<u8>
    decreases n,
{
    if n < 10 {
        seq![(0x30 + n) as u8]
    } else {
        spec_dec(n / 10).push((0x30 + n % 10) as u8)
    }
}

/// Powers of ten.
pub open spec fn pow10(k: nat) -> nat
    decreases k,
{
    if k == 0 {
        1
    } else {
        10 * pow10((k - 1) as nat)
    }
}

/// Powers of ten are positive and monotone.
pub proof fn lemma_pow10_mono(a: nat, b: nat)
    requires
        a <= b,
    ensures
        1 <= pow10(a) <= pow10(b),
    decreases b,
{
    if b == 0 {
    } else if a == b {
        lemma_pow10_mono((b - 1) as nat, (b - 1) as nat);
    } else {
        lemma_pow10_mono(a, (b - 1) as nat);
    }
}

/// Shape of a canonical decimal spelling: nonempty, all digits, starting
/// with a zero digit only for zero itself, and bounding the value by the
/// length.
pub proof fn lemma_dec_props(n: nat)
    ensures
        spec_dec(n).len() >= 1,
        forall|t: int| 0 <= t < spec_dec(n).len() ==> is_digit(#[trigger] spec_dec(n)[t]),
        (spec_dec(n)[0] == 0x30u8) <==> (n == 0),
        n < pow10(spec_dec(n).len()),
        n >= 10 ==> spec_dec(n).len() >= 2,
        spec_dec(n).len() >= 2 ==> n >= pow10((spec_dec(n).len() - 1) as nat),
    decreases n,
{
    if n < 10 {
        assert(spec_dec(n) == seq![(0x30 + n) as u8]);
        assert(pow10(0) == 1);
        assert(pow10(1) == 10);
    } else {
        lemma_dec_props(n / 10);
        let prefix = spec_dec(n / 10);
        let l = prefix.len();
        assert(spec_dec(n) == prefix.push((0x30 + n % 10) as u8));
        assert(spec_dec(n)[0] == prefix[0]);
        assert(n / 10 >= 1);
        // value upper bound: n = 10*(n/10) + n%10 < 10*pow10(l) = pow10(l+1)
        assert(n == 10 * (n / 10) + n % 10) by (nonlinear_arith);
        assert(n / 10 < pow10(l));
        assert(10 * (n / 10) <= 10 * (pow10(l) - 1)) by (nonlinear_arith)
            requires
                n / 10 <= pow10(l) - 1,
        ;
        assert(pow10(l + 1) == 10 * pow10(l));
        // value lower bound
        if l >= 2 {
            assert(n / 10 >= pow10((l - 1) as nat));
            assert(10 * (n / 10) >= 10 * pow10((l - 1) as nat)) by (nonlinear_arith)
                requires
                    n / 10 >= pow10((l - 1) as nat),
            ;
            assert(pow10(l) == 10 * pow10((l - 1) as nat));
        } else {
            assert(pow10(1) == 10);
            assert(n >= 10);
        }
    }
}

/// Appending a digit to a canonical spelling spells the ten-fold value plus
/// that digit.
pub proof fn lemma_dec_step(p: nat, d: nat)
    requires
        p >= 1,
        d < 10,
    ensures
        spec_dec(p * 10 + d) == spec_dec(p).push((0x30 + d) as u8),
{
    let m = p * 10 + d;
    assert(m >= 10) by (nonlinear_arith)
        requires
            p >= 1,
            d < 10,
            m == p * 10 + d,
    ;
    assert(m / 10 == p && m % 10 == d) by (nonlinear_arith)
        requires
            p >= 1,
            d < 10,
            m == p * 10 + d,
    ;
}

/// Canonical decimal spellings are injective.
pub proof fn lemma_dec_injective(m: nat, n: nat)
    requires
        spec_dec(m) == spec_dec(n),
    ensures
        m == n,
    decreases n,
{
    lemma_dec_props(m);
    lemma_dec_props(n);
    if m < 10 && n < 10 {
        assert(spec_dec(m)[0] == (0x30 + m) as u8);
        assert(spec_dec(n)[0] == (0x30 + n) as u8);
    } else if m < 10 {
        assert(spec_dec(m).len() == 1);
        assert(false);
    } else if n < 10 {
        assert(spec_dec(n).len() == 1);
        assert(false);
    } else {
        let dm = spec_dec(m / 10).push((0x30 + m % 10) as u8);
        let dn = spec_dec(n / 10).push((0x30 + n % 10) as u8);
        assert(spec_dec(m) == dm && spec_dec(n) == dn);
        assert(dm.last() == (0x30 + m % 10) as u8);
        assert(dn.last() == (0x30 + n % 10) as u8);
        assert(m % 10 == n % 10);
        assert(dm.drop_last() =~= spec_dec(m / 10));
        assert(dn.drop_last() =~= spec_dec(n / 10));
        lemma_dec_injective(m / 10, n / 10);
        assert(m == 10 * (m / 10) + m % 10) by (nonlinear_arith);
        assert(n == 10 * (n / 10) + n % 10) by (nonlinear_arith);
    }
}

/// A spelling no longer than another that it prefixes spells a value no
/// larger.
pub proof fn lemma_dec_le_of_prefix(m: nat, n: nat)
    requires
        spec_dec(m).len() <= spec_dec(n).len(),
        spec_dec(m) == spec_dec(n).subrange(0, spec_dec(m).len() as int),
    ensures
        m <= n,
{
    lemma_dec_props(m);
    lemma_dec_props(n);
    let lm = spec_dec(m).len();
    let ln = spec_dec(n).len();
    if lm == ln {
        assert(spec_dec(n).subrange(0, ln as int) =~= spec_dec(n));
        lemma_dec_injective(m, n);
    } else {
        assert(ln >= 2);
        lemma_pow10_mono(lm, (ln - 1) as nat);
        assert(m < pow10(lm));
        assert(n >= pow10((ln - 1) as nat));
    }
}

/// A subrange equals the concatenation of its two halves.
pub proof fn lemma_seq_join(s: Seq<u8>, i: int, j: int, k: int)
    requires
        0 <= i <= j <= k <= s.len(),
    ensures
        s.subrange(i, k) == s.subrange(i, j) + s.subrange(j, k),
{
    assert(s.subrange(i, k) =~= s.subrange(i, j) + s.subrange(j, k));
}

/// A subrange known to spell a concatenation splits into the two parts.
pub proof fn lemma_seq_split(s: Seq<u8>, i: int, a: Seq<u8>, b: Seq<u8>)
    requires
        0 <= i,
        i + a.len() + b.len() <= s.len(),
        s.subrange(i, i + a.len() + b.len()) == a + b,
    ensures
        s.subrange(i, i + a.len()) == a,
        s.subrange(i + a.len(), i + a.len() + b.len()) == b,
{
    let whole = s.subrange(i, i + a.len() + b.len());
    assert forall|t: int| 0 <= t < a.len() implies s[i + t] == a[t] by {
        assert(whole[t] == (a + b)[t]);
    }
    assert(s.subrange(i, i + a.len()) =~= a);
    assert forall|t: int| 0 <= t < b.len() implies s[i + a.len() + t] == b[t] by {
        assert(whole[a.len() + t] == (a + b)[a.len() + t]);
    }
    assert(s.subrange(i + a.len(), i + a.len() + b.len()) =~= b);
}

/// Appends the canonical decimal spelling of `n`.
pub fn push_u64(out: &mut Vec<u8>, n: u64)
    ensures
        final(out)@ == old(out)@ + spec_dec(n as nat),
    decreases n,
{
    if n >= 10 {
        push_u64(out, n / 10);
        let d: u8 = 0x30u8 + (n % 10) as u8;
        out.push(d);
        proof {
            assert(final(out)@ =~= old(out)@ + spec_dec(n as nat));
        }
    } else {
        let d: u8 = 0x30u8 + n as u8;
        out.push(d);
        proof {
            assert(final(out)@ =~= old(out)@ + spec_dec(n as nat));
        }
    }
}

/// Whether position `i` of `s` holds the canonical spelling of `n`,
/// delimited by the end of `s` or a byte that is no digit.
pub open spec fn spec_num_at(s: Seq<u8>, i: int, n: nat) -> bool {
    &&& 0 <= i
    &&& i + spec_dec(n).len() <= s.len()
    &&& s.subrange(i, i + spec_dec(n).len()) == spec_dec(n)
    &&& (i + spec_dec(n).len() == s.len() || !is_digit(s[i + spec_dec(n).len()]))
}

/// Reads a canonical decimal number at position `i`: returns the value and
/// the position after it, or nothing where no 64-bit number stands in
/// canonical form.
pub fn parse_u64(s: &[u8], i: usize) -> (r: Option<(u64, usize)>)
    requires
        i <= s@.len(),
    ensures
        r matches Some(p) ==> {
            &&& i < p.1 <= s@.len()
            &&& s@.subrange(i as int, p.1 as int) == spec_dec(p.0 as nat)
            &&& (p.1 == s@.len() || !is_digit(s@[p.1 as int]))
        },
        forall|n: u64|
            spec_num_at(s@, i as int, n as nat) ==> r == Some(
                (n, (i + spec_dec(n as nat).len()) as usize),
            ),
{
    let len = s.len();
    if i == len {
        proof {
            assert forall|n: u64| !spec_num_at(s@, i as int, n as nat) by {
                lemma_dec_props(n as nat);
            }
        }
        return None;
    }
    let b0 = s[i];
    if !(0x30 <= b0 && b0 <= 0x39) {
        proof {
            assert forall|n: u64| !spec_num_at(s@, i as int, n as nat) by {
                lemma_dec_props(n as nat);
                if spec_num_at(s@, i as int, n as nat) {
                    assert(s@.subrange(i as int, i + spec_dec(n as nat).len())[0] == s@[i as int]);
                }
            }
        }
        return None;
    }
    if b0 == 0x30 {
        // A leading zero digit is canonical only for the number zero,
        // which must not be followed by another digit.
        if i + 1 < len && s[i + 1] >= 0x30 && s[i + 1] <= 0x39 {
            proof {
                assert forall|n: u64| !spec_num_at(s@, i as int, n as nat) by {
                    lemma_dec_props(n as nat);
                    if spec_num_at(s@, i as int, n as nat) {
                        let at_start = s@[i as int];
                        assert(s@.subrange(i as int, i + spec_dec(n as nat).len())[0] == at_start);
                        assert(n == 0);
                        assert(spec_dec(0).len() == 1);
                    }
                }
            }
            return None;
        }
        proof {
            assert(s@.subrange(i as int, i + 1) =~= spec_dec(0));
            assert forall|n: u64|
                spec_num_at(s@, i as int, n as nat) implies Some((0u64, (i + 1) as usize)) == Some(
                (n, (i + spec_dec(n as nat).len()) as usize),
            ) by {
                lemma_dec_props(n as nat);
                assert(s@.subrange(i as int, i + spec_dec(n as nat).len())[0] == s@[i as int]);
                assert(n == 0);
            }
        }
        return Some((0, i + 1));
    }
    let mut j: usize = i + 1;
    let mut acc: u64 = (b0 - 0x30) as u64;
    proof {
        assert(s@.subrange(i as int, j as int) =~= spec_dec(acc as nat));
    }
    while j < len && s[j] >= 0x30 && s[j] <= 0x39
        invariant
            i <= s@.len(),
            len == s@.len(),
            i < j <= len,
            1 <= acc,
            s@.subrange(i as int, j as int) == spec_dec(acc as nat),
        decreases len - j,
    {
        let d: u8 = s[j] - 0x30;
        if acc > (u64::MAX - d as u64) / 10 {
            proof {
                let m: nat = acc as nat * 10 + d as nat;
                assert(m > u64::MAX) by (nonlinear_arith)
                    requires
                        acc > (u64::MAX - d as u64) / 10,
                        d < 10,
                        m == acc as nat * 10 + d as nat,
                ;
                lemma_dec_step(acc as nat, d as nat);
                assert(s@.subrange(i as int, j + 1) =~= spec_dec(m));
                lemma_dec_region_digits(s@, i as int, j as int, acc as nat);
                assert forall|n: u64| !spec_num_at(s@, i as int, n as nat) by {
                    if spec_num_at(s@, i as int, n as nat) {
                        lemma_num_scan_bound(s@, i as int, n as nat, j as int);
                        // the scanned region plus the next digit prefixes
                        // the spelling of n, so m <= n, yet m > u64::MAX
                        let ln = spec_dec(n as nat).len();
                        lemma_dec_props(m);
                        lemma_dec_props(n as nat);
                        // j itself lies strictly inside the region of n:
                        // were j its end, the delimiter would have to be
                        // the end of input or a non-digit, but s[j] is a
                        // digit and j < len
                        assert(j < i + ln);
                        assert(j + 1 <= i + ln);
                        assert(spec_dec(m) =~= spec_dec(n as nat).subrange(0, spec_dec(m).len() as int)) by {
                            assert forall|t: int| 0 <= t < spec_dec(m).len() implies spec_dec(
                                n as nat,
                            )[t] == spec_dec(m)[t] by {
                                assert(spec_dec(n as nat)[t] == s@.subrange(
                                    i as int,
                                    i + ln,
                                )[t]);
                                assert(spec_dec(m)[t] == s@.subrange(i as int, j + 1)[t]);
                            }
                        }
                        lemma_dec_le_of_prefix(m, n as nat);
                    }
                }
            }
            return None;
        }
        proof {
            let m: nat = acc as nat * 10 + d as nat;
            assert(m <= u64::MAX) by (nonlinear_arith)
                requires
                    acc <= (u64::MAX - d as u64) / 10,
                    d < 10,
                    m == acc as nat * 10 + d as nat,
            ;
            lemma_dec_step(acc as nat, d as nat);
            assert(s@.subrange(i as int, j + 1) =~= spec_dec(m));
        }
        acc = acc * 10 + d as u64;
        j += 1;
    }
    proof {
        lemma_dec_region_digits(s@, i as int, j as int, acc as nat);
        assert forall|n: u64|
            spec_num_at(s@, i as int, n as nat) implies Some((acc, j)) == Some(
            (n, (i + spec_dec(n as nat).len()) as usize),
        ) by {
            lemma_num_scan_bound(s@, i as int, n as nat, j as int);
            let ln = spec_dec(n as nat).len();
            // j cannot lie strictly inside the spelling of n: the loop
            // stopped on the end of input or on a byte that is no digit
            if j < i + ln {
                assert(is_digit(s@[j as int])) by {
                    assert(s@.subrange(i as int, i + ln)[j - i] == s@[j as int]);
                    lemma_dec_props(n as nat);
                }
                assert(false);
            }
            assert(j == i + ln);
            assert(spec_dec(acc as nat) == spec_dec(n as nat));
            lemma_dec_injective(acc as nat, n as nat);
        }
    }
    Some((acc, j))
}

/// A digit scan that began at the start of a canonical number region has
/// not passed the region's end, which is delimited by the end of input or
/// a byte that is no digit.
proof fn lemma_num_scan_bound(s: Seq<u8>, i: int, n: nat, j: int)
    requires
        spec_num_at(s, i, n),
        i <= j <= s.len(),
        forall|t: int| i <= t < j ==> is_digit(#[trigger] s[t]),
    ensures
        j <= i + spec_dec(n).len(),
{
    let ln = spec_dec(n).len();
    if j > i + ln {
        if i + ln == s.len() {
            assert(false);
        } else {
            assert(is_digit(s[i + ln]));
            assert(!is_digit(s[i + ln]));
        }
    }
}

/// Every byte of a region that spells a canonical number is a digit.
proof fn lemma_dec_region_digits(s: Seq<u8>, i: int, j: int, a: nat)
    requires
        0 <= i <= j <= s.len(),
        s.subrange(i, j) == spec_dec(a),
    ensures
        forall|t: int| i <= t < j ==> is_digit(#[trigger] s[t]),
{
    lemma_dec_props(a);
    assert forall|t: int| i <= t < j implies is_digit(#[trigger] s[t]) by {
        assert(s.subrange(i, j)[t - i] == s[t]);
    }
}

// ---------------------------------------------------------------------
// Strings
// ---------------------------------------------------------------------
/// Whether a character stands for itself in a wire string: printable
/// ASCII without the quote and the backslash.
pub open spec fn wire_plain_char(c: char) -> bool {
    ' ' <= c && c <= '~' && c != '"' && c != '\\'
}

/// Whether a byte stands for itself in a wire string.
pub open spec fn wire_plain_byte(b: u8) -> bool {
    0x20 <= b && b <= 0x7e && b != 0x22 && b != 0x5c
}

/// Whether a character can be carried in a wire string: any ASCII
/// character. Plain characters stand for themselves; the rest travel in a
/// six-byte escape. A character outside ASCII is refused, never mangled.
pub open spec fn wire_char_ok(c: char) -> bool {
    (c as u32) < 0x80
}

/// Whether every character of a string can be carried on the wire.
pub open spec fn wire_str_ok(s: Seq<char>) -> bool {
    forall|t: int| 0 <= t < s.len() ==> wire_char_ok(#[trigger] s[t])
}

/// The bytes of an ASCII character sequence.
pub open spec fn str_bytes(s: Seq<char>) -> Seq<u8> {
    s.map_values(|c: char| c as u8)
}

/// The characters of an ASCII byte sequence.
pub open spec fn bytes_chars(bs: Seq<u8>) -> Seq<char> {
    bs.map_values(|b: u8| b as char)
}

/// The lowercase hex digit of a value below sixteen.
pub open spec fn spec_hex_digit(d: int) -> u8 {
    if d < 10 {
        (0x30 + d) as u8
    } else {
        (0x57 + d) as u8
    }
}

/// The bytes one character contributes to a wire string: itself when
/// plain, else a six-byte escape spelling its code point in hex.
pub open spec fn char_escape(c: char) -> Seq<u8> {
    if wire_plain_char(c) {
        seq![c as u8]
    } else {
        seq![
            0x5cu8,
            0x75u8,
            0x30u8,
            0x30u8,
            spec_hex_digit(((c as u32) as int) / 16),
            spec_hex_digit(((c as u32) as int) % 16),
        ]
    }
}

/// The escaped bytes of a string.
pub open spec fn esc_bytes(s: Seq<char>) -> Seq<u8>
    decreases s.len(),
{
    if s.len() == 0 {
        Seq::empty()
    } else {
        char_escape(s[0]) + esc_bytes(s.drop_first())
    }
}

/// The encoding of a string: its escaped bytes between two quotes.
pub open spec fn enc_string(s: Seq<char>) -> Seq<u8> {
    seq![0x22u8] + esc_bytes(s) + seq![0x22u8]
}

/// Whether position `i` of `s` holds the encoding of the string `sv`.
pub open spec fn spec_string_at(s: Seq<u8>, i: int, sv: Seq<char>) -> bool {
    &&& 0 <= i
    &&& wire_str_ok(sv)
    &&& i + enc_string(sv).len() <= s.len()
    &&& s.subrange(i, i + enc_string(sv).len()) == enc_string(sv)
}

/// An ASCII character and its code byte stand for each other: the casts
/// round-trip, and being plain reads the same on both sides.
pub proof fn lemma_ascii_char_byte(c: char)
    requires
        (c as u32) < 0x80,
    ensures
        (c as u8) as char == c,
        (c as u8) as u32 == (c as u32),
        wire_plain_char(c) <==> wire_plain_byte(c as u8),
{
    broadcast use vstd::utf8::char_u32_cast;

    lemma_char_as_u8(c);
    let cu: u32 = c as u32;
    let b: u8 = c as u8;
    assert((b as u32) == cu) by (bit_vector)
        requires
            cu < 0x80,
            b == cu as u8,
    ;
    assert(' ' as u32 == 0x20 && '~' as u32 == 0x7e && '"' as u32 == 0x22 && '\\' as u32 == 0x5c);
}

/// A byte below 0x80 and its character stand for each other likewise.
pub proof fn lemma_byte_char_round(b: u8)
    requires
        b < 0x80,
    ensures
        (b as char) as u8 == b,
        ((b as char) as u32) == b as u32,
        wire_plain_byte(b) <==> wire_plain_char(b as char),
{
    broadcast use vstd::utf8::char_u32_cast;

    assert(' ' as u32 == 0x20 && '~' as u32 == 0x7e && '"' as u32 == 0x22 && '\\' as u32 == 0x5c);
}

/// An ASCII character lies between the first and the last ASCII
/// character.
proof fn lemma_ascii_char_bounds(c: char)
    requires
        (c as u32) < 0x80,
    ensures
        '\0' <= c <= '\u{7f}',
{
}

/// A carriable string is ASCII, so its UTF-8 bytes are its characters.
pub proof fn lemma_wire_str_bytes(s: &str)
    requires
        wire_str_ok(s@),
    ensures
        s.is_ascii(),
        s.spec_bytes() == str_bytes(s@),
        forall|t: int| 0 <= t < s@.len() ==> #[trigger] str_bytes(s@)[t] < 0x80,
{
    broadcast use vstd::string::is_ascii_spec_bytes;

    assert forall|t: int| 0 <= t < s@.len() implies '\0' <= #[trigger] s@[t] <= '\u{7f}' by {
        assert(wire_char_ok(s@[t]));
        lemma_ascii_char_bounds(s@[t]);
    }
    assert(vstd::string::is_ascii(s));
    assert(s.spec_bytes() =~= str_bytes(s@));
    assert forall|t: int| 0 <= t < s@.len() implies #[trigger] str_bytes(s@)[t] < 0x80 by {
        lemma_ascii_char_byte(s@[t]);
    }
}

/// Escaping distributes over appending one character.
pub proof fn lemma_esc_push(s: Seq<char>, c: char)
    ensures
        esc_bytes(s.push(c)) == esc_bytes(s) + char_escape(c),
    decreases s.len(),
{
    reveal_with_fuel(esc_bytes, 3);
    if s.len() == 0 {
        assert(s.push(c).drop_first() =~= Seq::<char>::empty());
        assert(esc_bytes(s.push(c)) =~= esc_bytes(s) + char_escape(c));
    } else {
        assert(s.push(c).drop_first() =~= s.drop_first().push(c));
        lemma_esc_push(s.drop_first(), c);
        assert(esc_bytes(s.push(c)) =~= esc_bytes(s) + char_escape(c));
    }
}

/// Escaping splits at any index.
pub proof fn lemma_esc_split(s: Seq<char>, k: int)
    requires
        0 <= k <= s.len(),
    ensures
        esc_bytes(s) == esc_bytes(s.take(k)) + esc_bytes(s.skip(k)),
    decreases s.len() - k,
{
    if k == s.len() {
        assert(s.take(k) =~= s);
        assert(s.skip(k) =~= Seq::<char>::empty());
        assert(esc_bytes(s) =~= esc_bytes(s.take(k)) + esc_bytes(s.skip(k)));
    } else {
        lemma_esc_split(s, k + 1);
        assert(s.take(k + 1) =~= s.take(k).push(s[k]));
        lemma_esc_push(s.take(k), s[k]);
        assert(s.skip(k)[0] == s[k]);
        assert(s.skip(k).drop_first() =~= s.skip(k + 1));
        assert(esc_bytes(s.skip(k)) == char_escape(s[k]) + esc_bytes(s.skip(k + 1)));
        assert(esc_bytes(s) =~= esc_bytes(s.take(k)) + esc_bytes(s.skip(k)));
    }
}

/// Where the encoding of `sv` stands at `i`, the bytes of its `cnt`-th
/// character stand right after the escaped bytes of the earlier ones.
proof fn lemma_string_unit(s: Seq<u8>, i: int, sv: Seq<char>, cnt: int)
    requires
        spec_string_at(s, i, sv),
        0 <= cnt < sv.len(),
    ensures
        i + 1 + esc_bytes(sv.take(cnt)).len() + char_escape(sv[cnt]).len() <= i + 1 + esc_bytes(
            sv,
        ).len(),
        s.subrange(
            i + 1 + esc_bytes(sv.take(cnt)).len(),
            i + 1 + esc_bytes(sv.take(cnt)).len() + char_escape(sv[cnt]).len(),
        ) == char_escape(sv[cnt]),
{
    let e = enc_string(sv);
    lemma_esc_split(sv, cnt);
    assert(sv.skip(cnt)[0] == sv[cnt]);
    assert(sv.skip(cnt).drop_first() =~= sv.skip(cnt + 1));
    assert(esc_bytes(sv.skip(cnt)) == char_escape(sv[cnt]) + esc_bytes(sv.skip(cnt + 1)));
    let pre = esc_bytes(sv.take(cnt));
    let unit = char_escape(sv[cnt]);
    let post = esc_bytes(sv.skip(cnt + 1));
    assert(e =~= seq![0x22u8] + (pre + (unit + (post + seq![0x22u8]))));
    lemma_seq_split(s, i, seq![0x22u8], pre + (unit + (post + seq![0x22u8])));
    lemma_seq_split(s, i + 1, pre, unit + (post + seq![0x22u8]));
    lemma_seq_split(s, i + 1 + pre.len(), unit, post + seq![0x22u8]);
}

/// Where the encoding of `sv` stands at `i`, the closing quote stands
/// right after all the escaped bytes.
proof fn lemma_string_close(s: Seq<u8>, i: int, sv: Seq<char>)
    requires
        spec_string_at(s, i, sv),
    ensures
        i + 1 + esc_bytes(sv).len() < s.len(),
        s[i + 1 + esc_bytes(sv).len()] == 0x22,
{
    let e = enc_string(sv);
    let q: int = 1 + esc_bytes(sv).len() as int;
    assert(s[i + q] == s.subrange(i, i + e.len())[q]);
    assert(e[q] == 0x22);
}

/// Appends the bytes of an ASCII literal.
pub fn push_lit(out: &mut Vec<u8>, lit: &str)
    requires
        lit.is_ascii(),
    ensures
        final(out)@ == old(out)@ + str_bytes(lit@),
{
    let bs: &[u8] = lit.as_bytes();
    proof {
        broadcast use vstd::string::is_ascii_spec_bytes;

        assert(bs@ =~= str_bytes(lit@));
    }
    let m = bs.len();
    let mut k: usize = 0;
    while k < m
        invariant
            m == bs@.len(),
            bs@ == str_bytes(lit@),
            0 <= k <= m,
            out@ == old(out)@ + bs@.subrange(0, k as int),
        decreases m - k,
    {
        out.push(bs[k]);
        proof {
            assert(out@ =~= old(out)@ + bs@.subrange(0, k + 1));
        }
        k += 1;
    }
    proof {
        assert(bs@.subrange(0, m as int) =~= bs@);
    }
}

/// Appends the encoding of a carriable string, escaping what is not
/// plain.
pub fn push_string(out: &mut Vec<u8>, s: &str)
    requires
        wire_str_ok(s@),
    ensures
        final(out)@ == old(out)@ + enc_string(s@),
{
    proof {
        lemma_wire_str_bytes(s);
    }
    out.push(0x22u8);
    let bs: &[u8] = s.as_bytes();
    let m = bs.len();
    let mut k: usize = 0;
    while k < m
        invariant
            m == bs@.len() == s@.len(),
            bs@ == str_bytes(s@),
            wire_str_ok(s@),
            0 <= k <= m,
            out@ == old(out)@ + seq![0x22u8] + esc_bytes(s@.take(k as int)),
        decreases m - k,
    {
        let b = bs[k];
        let ghost c = s@[k as int];
        proof {
            assert(b == c as u8);
            lemma_ascii_char_byte(c);
            lemma_esc_push(s@.take(k as int), c);
            assert(s@.take(k + 1) =~= s@.take(k as int).push(c));
        }
        if 0x20 <= b && b <= 0x7e && b != 0x22 && b != 0x5c {
            out.push(b);
            proof {
                assert(char_escape(c) =~= seq![b]);
                assert(out@ =~= old(out)@ + seq![0x22u8] + esc_bytes(s@.take(k + 1)));
            }
        } else {
            let hi: u8 = b / 16;
            let lo: u8 = b % 16;
            let hb: u8 = if hi < 10 {
                0x30 + hi
            } else {
                0x57 + hi
            };
            let lb: u8 = if lo < 10 {
                0x30 + lo
            } else {
                0x57 + lo
            };
            out.push(0x5cu8);
            out.push(0x75u8);
            out.push(0x30u8);
            out.push(0x30u8);
            out.push(hb);
            out.push(lb);
            proof {
                assert(((c as u32) as int) / 16 == b as int / 16);
                assert(((c as u32) as int) % 16 == b as int % 16);
                assert(char_escape(c) =~= seq![0x5cu8, 0x75u8, 0x30u8, 0x30u8, hb, lb]);
                assert(out@ =~= old(out)@ + seq![0x22u8] + esc_bytes(s@.take(k + 1)));
            }
        }
        k += 1;
    }
    out.push(0x22u8);
    proof {
        assert(s@.take(m as int) =~= s@);
        assert(out@ =~= old(out)@ + enc_string(s@));
    }
}

/// Whether position `i` of `s` holds the bytes of the ASCII literal `lit`.
pub open spec fn spec_lit_at(s: Seq<u8>, i: int, lit: Seq<char>) -> bool {
    &&& 0 <= i
    &&& i + lit.len() <= s.len()
    &&& s.subrange(i, i + lit.len()) == str_bytes(lit)
}

/// Recognizes the bytes of an ASCII literal at position `i`: returns the
/// position after them exactly where they stand there.
pub fn expect_lit(s: &[u8], i: usize, lit: &str) -> (r: Option<usize>)
    requires
        lit.is_ascii(),
        i <= s@.len(),
    ensures
        r matches Some(j) ==> j == i + lit@.len() && spec_lit_at(s@, i as int, lit@),
        r is None ==> !spec_lit_at(s@, i as int, lit@),
{
    let bs: &[u8] = lit.as_bytes();
    proof {
        broadcast use vstd::string::is_ascii_spec_bytes;

        assert(bs@ =~= str_bytes(lit@));
    }
    let m = bs.len();
    let len = s.len();
    if len - i < m {
        return None;
    }
    let mut k: usize = 0;
    while k < m
        invariant
            m == bs@.len() == lit@.len(),
            bs@ == str_bytes(lit@),
            len == s@.len(),
            i + m <= len,
            0 <= k <= m,
            forall|t: int| 0 <= t < k ==> s@[i + t] == bs@[t],
        decreases m - k,
    {
        if s[i + k] != bs[k] {
            proof {
                if spec_lit_at(s@, i as int, lit@) {
                    assert(s@.subrange(i as int, i + m)[k as int] == s@[i + k]);
                }
            }
            return None;
        }
        k += 1;
    }
    proof {
        assert(s@.subrange(i as int, i + m) =~= str_bytes(lit@));
    }
    Some(i + m)
}

/// A position that holds the bytes of one ASCII literal does not hold those
/// of another that differs at index `k` within both.
pub proof fn lemma_lit_differs(s: Seq<u8>, i: int, a: Seq<char>, k: int)
    requires
        0 <= i,
        0 <= k < a.len(),
        i + k < s.len(),
        s[i + k] != a[k] as u8,
    ensures
        !spec_lit_at(s, i, a),
{
    if spec_lit_at(s, i, a) {
        assert(s.subrange(i, i + a.len())[k] == s[i + k]);
        assert(str_bytes(a)[k] == a[k] as u8);
    }
}

/// Relies on String::from_utf8: bytes below 0x80 are ASCII, hence valid
/// UTF-8, and decode to the string whose characters are exactly those
/// bytes.
#[verifier::external_body]
fn string_from_ascii(v: Vec<u8>) -> (r: String)
    requires
        forall|t: int| 0 <= t < v@.len() ==> v@[t] < 0x80,
    ensures
        r@ == bytes_chars(v@),
{
    match String::from_utf8(v) {
        Ok(s) => s,
        Err(_) => String::new(),
    }
}

/// The scan state while reading a string that began at `i`: the bytes
/// consumed so far are the escaped form of the characters gathered, and
/// under any hypothesis about the whole string those characters are its
/// prefix.
pub open spec fn scan_inv(s: Seq<u8>, i: int, pre: Seq<u8>, j: int) -> bool {
    &&& 0 <= i
    &&& i + 1 <= j <= s.len()
    &&& (forall|t: int| 0 <= t < pre.len() ==> #[trigger] pre[t] < 0x80)
    &&& wire_str_ok(bytes_chars(pre))
    &&& s.subrange(i + 1, j) == esc_bytes(bytes_chars(pre))
    &&& (forall|sv: Seq<char>|
        #[trigger] spec_string_at(s, i, sv) ==> (pre.len() <= sv.len() && bytes_chars(pre)
            == sv.take(pre.len() as int) && j == i + 1 + esc_bytes(
            sv.take(pre.len() as int),
        ).len()))
}

/// Consuming one plain byte advances the scan by one character.
proof fn lemma_plain_step(s: Seq<u8>, i: int, pre: Seq<u8>, b: u8, j: int)
    requires
        scan_inv(s, i, pre, j),
        j < s.len(),
        s[j] == b,
        wire_plain_byte(b),
    ensures
        scan_inv(s, i, pre.push(b), j + 1),
{
    let c = b as char;
    lemma_byte_char_round(b);
    assert(bytes_chars(pre.push(b)) =~= bytes_chars(pre).push(c));
    lemma_esc_push(bytes_chars(pre), c);
    assert(char_escape(c) =~= seq![b]);
    lemma_seq_join(s, i + 1, j, j + 1);
    assert(s.subrange(j, j + 1) =~= seq![b]);
    assert(s.subrange(i + 1, j + 1) =~= esc_bytes(bytes_chars(pre.push(b))));
    assert forall|t: int| 0 <= t < pre.push(b).len() implies #[trigger] pre.push(b)[t] < 0x80 by {}
    assert forall|t: int|
        0 <= t < bytes_chars(pre.push(b)).len() implies wire_char_ok(
        #[trigger] bytes_chars(pre.push(b))[t],
    ) by {
        assert(bytes_chars(pre.push(b))[t] == pre.push(b)[t] as char);
        lemma_byte_char_round(pre.push(b)[t]);
    }
    assert forall|sv: Seq<char>|
        #[trigger] spec_string_at(s, i, sv) implies pre.push(b).len() <= sv.len() && bytes_chars(
        pre.push(b),
    ) == sv.take(pre.push(b).len() as int) && j + 1 == i + 1 + esc_bytes(
        sv.take(pre.push(b).len() as int),
    ).len() by {
        let cnt = pre.len() as int;
        if cnt == sv.len() {
            assert(sv.take(cnt) =~= sv);
            lemma_string_close(s, i, sv);
            assert(s[j] == 0x22);
            assert(false);
        }
        lemma_string_unit(s, i, sv, cnt);
        let unit = char_escape(sv[cnt]);
        assert(s[j] == s.subrange(j, j + unit.len())[0]);
        if !wire_plain_char(sv[cnt]) {
            assert(unit[0] == 0x5c);
            assert(false);
        }
        assert(unit[0] == sv[cnt] as u8);
        assert(wire_char_ok(sv[cnt]));
        lemma_ascii_char_byte(sv[cnt]);
        assert(sv[cnt] as u8 == b);
        assert(sv[cnt] == c);
        assert(sv.take(cnt + 1) =~= sv.take(cnt).push(sv[cnt]));
        lemma_esc_push(sv.take(cnt), sv[cnt]);
        assert(bytes_chars(pre.push(b)) =~= sv.take(cnt + 1));
    }
}

/// At a backslash the next unit is an escape, so its six bytes are fixed
/// under any hypothesis about the whole string.
proof fn lemma_escape_bytes(s: Seq<u8>, i: int, pre: Seq<u8>, j: int)
    requires
        scan_inv(s, i, pre, j),
        j < s.len(),
        s[j] == 0x5c,
    ensures
        forall|sv: Seq<char>|
            #[trigger] spec_string_at(s, i, sv) ==> {
                let cnt = pre.len() as int;
                &&& cnt < sv.len()
                &&& !wire_plain_char(sv[cnt])
                &&& ((sv[cnt] as u32) < 0x80)
                &&& j + 6 < s.len()
                &&& s[j + 1] == 0x75
                &&& s[j + 2] == 0x30
                &&& s[j + 3] == 0x30
                &&& s[j + 4] == spec_hex_digit(((sv[cnt] as u32) as int) / 16)
                &&& s[j + 5] == spec_hex_digit(((sv[cnt] as u32) as int) % 16)
            },
{
    assert forall|sv: Seq<char>|
        #[trigger] spec_string_at(s, i, sv) implies {
        let cnt = pre.len() as int;
        &&& cnt < sv.len()
        &&& !wire_plain_char(sv[cnt])
        &&& ((sv[cnt] as u32) < 0x80)
        &&& j + 6 < s.len()
        &&& s[j + 1] == 0x75
        &&& s[j + 2] == 0x30
        &&& s[j + 3] == 0x30
        &&& s[j + 4] == spec_hex_digit(((sv[cnt] as u32) as int) / 16)
        &&& s[j + 5] == spec_hex_digit(((sv[cnt] as u32) as int) % 16)
    } by {
        let cnt = pre.len() as int;
        if cnt == sv.len() {
            assert(sv.take(cnt) =~= sv);
            lemma_string_close(s, i, sv);
            assert(s[j] == 0x22);
            assert(false);
        }
        lemma_string_unit(s, i, sv, cnt);
        let unit = char_escape(sv[cnt]);
        assert(s[j] == s.subrange(j, j + unit.len())[0]);
        if wire_plain_char(sv[cnt]) {
            assert(unit[0] == sv[cnt] as u8);
            assert(wire_char_ok(sv[cnt]));
            lemma_ascii_char_byte(sv[cnt]);
            assert(false);
        }
        assert(wire_char_ok(sv[cnt]));
        assert(unit.len() == 6);
        // the unit ends before the closing quote
        lemma_string_close(s, i, sv);
        lemma_esc_split(sv, cnt + 1);
        lemma_esc_len_nonneg(sv.skip(cnt + 1));
        assert(s[j + 1] == s.subrange(j, j + unit.len())[1]);
        assert(s[j + 2] == s.subrange(j, j + unit.len())[2]);
        assert(s[j + 3] == s.subrange(j, j + unit.len())[3]);
        assert(s[j + 4] == s.subrange(j, j + unit.len())[4]);
        assert(s[j + 5] == s.subrange(j, j + unit.len())[5]);
    }
}

/// Consuming one canonical escape advances the scan by one character.
proof fn lemma_escape_step(s: Seq<u8>, i: int, pre: Seq<u8>, code: u8, j: int)
    requires
        scan_inv(s, i, pre, j),
        j + 6 <= s.len(),
        s[j] == 0x5c,
        s[j + 1] == 0x75,
        s[j + 2] == 0x30,
        s[j + 3] == 0x30,
        s[j + 4] == spec_hex_digit((code as int) / 16),
        s[j + 5] == spec_hex_digit((code as int) % 16),
        code < 0x80,
        !wire_plain_byte(code),
    ensures
        scan_inv(s, i, pre.push(code), j + 6),
{
    let c = code as char;
    lemma_byte_char_round(code);
    assert(bytes_chars(pre.push(code)) =~= bytes_chars(pre).push(c));
    lemma_esc_push(bytes_chars(pre), c);
    assert(((c as u32) as int) / 16 == (code as int) / 16);
    assert(((c as u32) as int) % 16 == (code as int) % 16);
    assert(char_escape(c) =~= seq![
        0x5cu8,
        0x75u8,
        0x30u8,
        0x30u8,
        spec_hex_digit((code as int) / 16),
        spec_hex_digit((code as int) % 16),
    ]);
    lemma_seq_join(s, i + 1, j, j + 6);
    assert(s.subrange(j, j + 6) =~= char_escape(c));
    assert(s.subrange(i + 1, j + 6) =~= esc_bytes(bytes_chars(pre.push(code))));
    assert forall|t: int|
        0 <= t < pre.push(code).len() implies #[trigger] pre.push(code)[t] < 0x80 by {}
    assert forall|t: int|
        0 <= t < bytes_chars(pre.push(code)).len() implies wire_char_ok(
        #[trigger] bytes_chars(pre.push(code))[t],
    ) by {
        assert(bytes_chars(pre.push(code))[t] == pre.push(code)[t] as char);
        lemma_byte_char_round(pre.push(code)[t]);
    }
    assert forall|sv: Seq<char>|
        #[trigger] spec_string_at(s, i, sv) implies pre.push(code).len() <= sv.len()
        && bytes_chars(pre.push(code)) == sv.take(pre.push(code).len() as int) && j + 6 == i + 1
        + esc_bytes(sv.take(pre.push(code).len() as int)).len() by {
        let cnt = pre.len() as int;
        if cnt == sv.len() {
            assert(sv.take(cnt) =~= sv);
            lemma_string_close(s, i, sv);
            assert(s[j] == 0x22);
            assert(false);
        }
        lemma_string_unit(s, i, sv, cnt);
        let unit = char_escape(sv[cnt]);
        assert(s[j] == s.subrange(j, j + unit.len())[0]);
        if wire_plain_char(sv[cnt]) {
            assert(unit[0] == sv[cnt] as u8);
            assert(wire_char_ok(sv[cnt]));
            lemma_ascii_char_byte(sv[cnt]);
            assert(false);
        }
        assert(unit.len() == 6);
        assert(s[j + 4] == s.subrange(j, j + unit.len())[4]);
        assert(s[j + 5] == s.subrange(j, j + unit.len())[5]);
        let cd = (sv[cnt] as u32) as int;
        assert(wire_char_ok(sv[cnt]));
        assert(spec_hex_digit(cd / 16) == spec_hex_digit((code as int) / 16));
        assert(spec_hex_digit(cd % 16) == spec_hex_digit((code as int) % 16));
        // hex digits are injective below sixteen
        assert(cd / 16 == (code as int) / 16);
        assert(cd % 16 == (code as int) % 16);
        assert(cd == code as int);
        lemma_ascii_char_byte(sv[cnt]);
        assert(sv[cnt] as u8 == code);
        assert(sv[cnt] == c);
        assert(sv.take(cnt + 1) =~= sv.take(cnt).push(sv[cnt]));
        lemma_esc_push(sv.take(cnt), sv[cnt]);
        assert(bytes_chars(pre.push(code)) =~= sv.take(cnt + 1));
    }
}

/// A string of plain characters escapes to exactly its bytes.
pub proof fn lemma_esc_plain(s: Seq<char>)
    requires
        forall|t: int| 0 <= t < s.len() ==> wire_plain_char(#[trigger] s[t]),
    ensures
        esc_bytes(s) == str_bytes(s),
    decreases s.len(),
{
    if s.len() == 0 {
        assert(esc_bytes(s) =~= str_bytes(s));
    } else {
        assert(wire_plain_char(s[0]));
        assert(char_escape(s[0]) == seq![s[0] as u8]);
        assert forall|t: int|
            0 <= t < s.drop_first().len() implies wire_plain_char(
            #[trigger] s.drop_first()[t],
        ) by {
            assert(s.drop_first()[t] == s[t + 1]);
        }
        lemma_esc_plain(s.drop_first());
        assert(esc_bytes(s) =~= str_bytes(s));
    }
}

/// Escaped bytes never number fewer than zero.
pub proof fn lemma_esc_len_nonneg(s: Seq<char>)
    ensures
        esc_bytes(s).len() >= 0,
{
}

/// Reads a string at position `i`: returns the string and the position
/// after its closing quote, exactly where a wire string stands there.
#[verifier::rlimit(100)]
#[verifier::spinoff_prover]
pub fn parse_string(s: &[u8], i: usize) -> (r: Option<(String, usize)>)
    requires
        i <= s@.len(),
    ensures
        r matches Some(p) ==> {
            &&& i < p.1 <= s@.len()
            &&& wire_str_ok(p.0@)
            &&& s@.subrange(i as int, p.1 as int) == enc_string(p.0@)
            &&& p.1 == i + enc_string(p.0@).len()
        },
        forall|sv: Seq<char>|
            spec_string_at(s@, i as int, sv) ==> (r matches Some(p) && p.0@ == sv && p.1 == i
                + enc_string(sv).len()),
{
    let len = s.len();
    if i == len || s[i] != 0x22 {
        proof {
            assert forall|sv: Seq<char>| !spec_string_at(s@, i as int, sv) by {
                if spec_string_at(s@, i as int, sv) {
                    assert(s@.subrange(i as int, i + enc_string(sv).len())[0] == s@[i as int]);
                    assert(enc_string(sv)[0] == 0x22);
                }
            }
        }
        return None;
    }
    let mut j: usize = i + 1;
    let mut buf: Vec<u8> = Vec::new();
    proof {
        assert(bytes_chars(buf@) =~= Seq::<char>::empty());
        assert(s@.subrange(i + 1, j as int) =~= esc_bytes(bytes_chars(buf@)));
        assert forall|sv: Seq<char>|
            #[trigger] spec_string_at(s@, i as int, sv) implies buf@.len() <= sv.len()
            && bytes_chars(buf@) == sv.take(buf@.len() as int) && j == i + 1 + esc_bytes(
            sv.take(buf@.len() as int),
        ).len() by {
            assert(sv.take(0) =~= Seq::<char>::empty());
            assert(bytes_chars(buf@) =~= sv.take(0));
            assert(esc_bytes(sv.take(0)) =~= Seq::<u8>::empty());
        }
        assert(scan_inv(s@, i as int, buf@, j as int));
    }
    loop
        invariant
            len == s@.len(),
            i < len,
            i + 1 <= j <= len,
            s@[i as int] == 0x22,
            scan_inv(s@, i as int, buf@, j as int),
        decreases len - j,
    {
        if j == len {
            proof {
                assert forall|sv: Seq<char>| !spec_string_at(s@, i as int, sv) by {
                    if spec_string_at(s@, i as int, sv) {
                        let cnt = buf@.len() as int;
                        lemma_string_close(s@, i as int, sv);
                        lemma_esc_split(sv, cnt);
                        lemma_esc_len_nonneg(sv.skip(cnt));
                    }
                }
            }
            return None;
        }
        let b = s[j];
        if b == 0x22 {
            let res = string_from_ascii(buf);
            proof {
                assert(s@.subrange(i as int, j + 1) =~= enc_string(res@));
                assert forall|sv: Seq<char>|
                    #[trigger] spec_string_at(s@, i as int, sv) implies res@ == sv && j + 1 == i
                    + enc_string(sv).len() by {
                    let cnt = buf@.len() as int;
                    assert(res@.len() == cnt);
                    if cnt == sv.len() {
                        assert(sv.take(cnt) =~= sv);
                    }
                    if cnt < sv.len() {
                        lemma_string_unit(s@, i as int, sv, cnt);
                        let unit = char_escape(sv[cnt]);
                        assert(s@[j as int] == s@.subrange(j as int, j + unit.len())[0]);
                        if wire_plain_char(sv[cnt]) {
                            assert(unit[0] == sv[cnt] as u8);
                            assert(wire_char_ok(sv[cnt]));
                            lemma_ascii_char_byte(sv[cnt]);
                        } else {
                            assert(unit[0] == 0x5c);
                        }
                        assert(false);
                    }
                    assert(res@ =~= sv);
                }
            }
            return Some((res, j + 1));
        }
        if 0x20 <= b && b <= 0x7e && b != 0x22 && b != 0x5c {
            let ghost pre_buf = buf@;
            proof {
                lemma_plain_step(s@, i as int, pre_buf, b, j as int);
            }
            buf.push(b);
            j += 1;
        } else if b == 0x5c {
            proof {
                lemma_escape_bytes(s@, i as int, buf@, j as int);
            }
            if len - j < 6 {
                return None;
            }
            if s[j + 1] != 0x75 || s[j + 2] != 0x30 || s[j + 3] != 0x30 {
                return None;
            }
            let h1 = s[j + 4];
            let h2 = s[j + 5];
            let d1: u8 = if 0x30 <= h1 && h1 <= 0x39 {
                h1 - 0x30
            } else if 0x61 <= h1 && h1 <= 0x66 {
                h1 - 0x57
            } else {
                proof {
                    assert forall|sv: Seq<char>| !spec_string_at(s@, i as int, sv) by {
                        if spec_string_at(s@, i as int, sv) {
                            let cnt = buf@.len() as int;
                            let cd = (sv[cnt] as u32) as int;
                            assert(s@[j + 4] == spec_hex_digit(cd / 16));
                        }
                    }
                }
                return None;
            };
            let d2: u8 = if 0x30 <= h2 && h2 <= 0x39 {
                h2 - 0x30
            } else if 0x61 <= h2 && h2 <= 0x66 {
                h2 - 0x57
            } else {
                proof {
                    assert forall|sv: Seq<char>| !spec_string_at(s@, i as int, sv) by {
                        if spec_string_at(s@, i as int, sv) {
                            let cnt = buf@.len() as int;
                            let cd = (sv[cnt] as u32) as int;
                            assert(s@[j + 5] == spec_hex_digit(cd % 16));
                        }
                    }
                }
                return None;
            };
            let code: u8 = d1 * 16 + d2;
            proof {
                // under any hypothesis, the hex digits spell this code
                assert forall|sv: Seq<char>|
                    #[trigger] spec_string_at(s@, i as int, sv) implies ((sv[buf@.len() as int]
                    as u32) as int) == code as int by {
                    let cnt = buf@.len() as int;
                    let cd = (sv[cnt] as u32) as int;
                    assert(s@[j + 4] == spec_hex_digit(cd / 16));
                    assert(s@[j + 5] == spec_hex_digit(cd % 16));
                    assert(cd / 16 == d1 as int);
                    assert(cd % 16 == d2 as int);
                }
            }
            if code >= 0x80 || (0x20 <= code && code <= 0x7e && code != 0x22 && code != 0x5c) {
                // no escape reaches beyond ASCII, and a plain character is
                // never escaped in the canonical form
                proof {
                    assert forall|sv: Seq<char>| !spec_string_at(s@, i as int, sv) by {
                        if spec_string_at(s@, i as int, sv) {
                            let cnt = buf@.len() as int;
                            assert(((sv[cnt] as u32) as int) == code as int);
                            lemma_ascii_char_byte(sv[cnt]);
                            assert(sv[cnt] as u8 == code);
                        }
                    }
                }
                return None;
            }
            let ghost pre_buf = buf@;
            proof {
                lemma_escape_step(s@, i as int, pre_buf, code, j as int);
            }
            buf.push(code);
            j += 6;
        } else {
            proof {
                assert forall|sv: Seq<char>| !spec_string_at(s@, i as int, sv) by {
                    if spec_string_at(s@, i as int, sv) {
                        let cnt = buf@.len() as int;
                        if cnt < sv.len() {
                            lemma_string_unit(s@, i as int, sv, cnt);
                            let unit = char_escape(sv[cnt]);
                            assert(s@[j as int] == s@.subrange(j as int, j + unit.len())[0]);
                            if wire_plain_char(sv[cnt]) {
                                assert(unit[0] == sv[cnt] as u8);
                                assert(wire_char_ok(sv[cnt]));
                                lemma_ascii_char_byte(sv[cnt]);
                            }
                        } else {
                            assert(sv.take(cnt) =~= sv);
                            lemma_string_close(s@, i as int, sv);
                        }
                    }
                }
            }
            return None;
        }
    }
}

// ---------------------------------------------------------------------
// Byte arrays
// ---------------------------------------------------------------------
/// The comma-separated encoding of the items of a byte array.
pub open spec fn enc_u8_items(bs: Seq<u8>) -> Seq<u8>
    decreases bs.len(),
{
    if bs.len() == 0 {
        Seq::empty()
    } else if bs.len() == 1 {
        spec_dec(bs[0] as nat)
    } else {
        spec_dec(bs[0] as nat) + seq![0x2cu8] + enc_u8_items(bs.drop_first())
    }
}

/// The encoding of a byte array: its items between brackets.
pub open spec fn enc_u8_list(bs: Seq<u8>) -> Seq<u8> {
    seq![0x5bu8] + enc_u8_items(bs) + seq![0x5du8]
}

/// Whether position `i` of `s` holds the items of the nonempty byte array
/// `bs` followed by the closing bracket.
pub open spec fn spec_u8_items_at(s: Seq<u8>, i: int, bs: Seq<u8>) -> bool {
    &&& 0 <= i
    &&& bs.len() >= 1
    &&& i + enc_u8_items(bs).len() + 1 <= s.len()
    &&& s.subrange(i, i + enc_u8_items(bs).len() + 1) == enc_u8_items(bs) + seq![0x5du8]
}

/// Whether position `i` of `s` holds the encoding of the byte array `bs`.
pub open spec fn spec_u8_list_at(s: Seq<u8>, i: int, bs: Seq<u8>) -> bool {
    &&& 0 <= i
    &&& i + enc_u8_list(bs).len() <= s.len()
    &&& s.subrange(i, i + enc_u8_list(bs).len()) == enc_u8_list(bs)
}

/// Appends the items of `v` from index `k` on, comma-separated.
pub fn push_u8_items(out: &mut Vec<u8>, v: &Vec<u8>, k: usize)
    requires
        k <= v@.len(),
    ensures
        final(out)@ == old(out)@ + enc_u8_items(v@.skip(k as int)),
    decreases v@.len() - k,
{
    if k < v.len() {
        push_u64(out, v[k] as u64);
        if k + 1 < v.len() {
            out.push(0x2cu8);
            push_u8_items(out, v, k + 1);
            proof {
                let rest = v@.skip(k as int);
                assert(rest.drop_first() =~= v@.skip(k + 1));
                assert(final(out)@ =~= old(out)@ + enc_u8_items(rest));
            }
        } else {
            proof {
                let rest = v@.skip(k as int);
                assert(rest.len() == 1 && rest[0] == v@[k as int]);
                assert(final(out)@ =~= old(out)@ + enc_u8_items(rest));
            }
        }
    } else {
        proof {
            assert(v@.skip(k as int) =~= Seq::<u8>::empty());
            assert(final(out)@ =~= old(out)@ + enc_u8_items(v@.skip(k as int)));
        }
    }
}

/// Appends the encoding of a byte array.
pub fn push_u8_list(out: &mut Vec<u8>, v: &Vec<u8>)
    ensures
        final(out)@ == old(out)@ + enc_u8_list(v@),
{
    out.push(0x5bu8);
    push_u8_items(out, v, 0);
    out.push(0x5du8);
    proof {
        assert(v@.skip(0) =~= v@);
        assert(final(out)@ =~= old(out)@ + enc_u8_list(v@));
    }
}

/// Reads the comma-separated items of a byte array and its closing bracket
/// at position `i`: returns the bytes and the position after the bracket,
/// exactly where such items stand there.
pub fn parse_u8_items(s: &[u8], i: usize) -> (r: Option<(Vec<u8>, usize)>)
    requires
        i <= s@.len(),
    ensures
        r matches Some(p) ==> {
            &&& p.0@.len() >= 1
            &&& i < p.1 <= s@.len()
            &&& s@.subrange(i as int, p.1 as int) == enc_u8_items(p.0@) + seq![0x5du8]
            &&& p.1 == i + enc_u8_items(p.0@).len() + 1
        },
        forall|bs: Seq<u8>|
            spec_u8_items_at(s@, i as int, bs) ==> (r matches Some(p) && p.0@ == bs && p.1 == i
                + enc_u8_items(bs).len() + 1),
    decreases s@.len() - i,
{
    proof {
        assert forall|bs: Seq<u8>|
            spec_u8_items_at(s@, i as int, bs) implies spec_num_at(s@, i as int, bs[0] as nat)
            && lead_num_facts(s@, i as int, bs) by {
            lemma_u8_items_head(s@, i as int, bs);
        }
    }
    let r0 = parse_u64(s, i);
    match r0 {
        None => {
            proof {
                assert forall|bs: Seq<u8>| !spec_u8_items_at(s@, i as int, bs) by {
                    if spec_u8_items_at(s@, i as int, bs) {
                        let n64 = bs[0] as u64;
                        assert(spec_num_at(s@, i as int, n64 as nat));
                    }
                }
            }
            return None;
        },
        Some((n, j)) => {
            proof {
                assert forall|bs: Seq<u8>|
                    spec_u8_items_at(s@, i as int, bs) implies n == bs[0] as u64 && j == i
                    + spec_dec(bs[0] as nat).len() by {
                    let n64 = bs[0] as u64;
                    assert(spec_num_at(s@, i as int, n64 as nat));
                }
            }
            if n > 255 {
                return None;
            }
            if j == s.len() {
                return None;
            }
            let c = s[j];
            if c == 0x5d {
                let mut v: Vec<u8> = Vec::new();
                v.push(n as u8);
                proof {
                    assert(enc_u8_items(v@) == spec_dec(n as nat));
                    assert(s@.subrange(i as int, j + 1) =~= enc_u8_items(v@) + seq![0x5du8]);
                    assert forall|bs: Seq<u8>| spec_u8_items_at(s@, i as int, bs) implies v@ == bs
                        && j + 1 == i + enc_u8_items(bs).len() + 1 by {
                        lemma_u8_items_head(s@, i as int, bs);
                        if bs.len() >= 2 {
                            // after the first item a comma follows, not a bracket
                            assert(false);
                        }
                        assert(v@ =~= bs);
                    }
                }
                return Some((v, j + 1));
            }
            if c == 0x2c {
                if j + 1 > s.len() {
                    return None;
                }
                match parse_u8_items(s, j + 1) {
                    None => {
                        proof {
                            assert forall|bs: Seq<u8>| !spec_u8_items_at(s@, i as int, bs) by {
                                if spec_u8_items_at(s@, i as int, bs) {
                                    lemma_u8_items_head(s@, i as int, bs);
                                }
                            }
                        }
                        return None;
                    },
                    Some((mut v, j2)) => {
                        let ghost vold = v@;
                        v.insert(0, n as u8);
                        proof {
                            assert(v@ =~= seq![n as u8] + vold);
                            assert(v@.drop_first() =~= vold);
                            assert(enc_u8_items(v@) == spec_dec(n as nat) + seq![0x2cu8]
                                + enc_u8_items(vold));
                            lemma_seq_join(s@, i as int, j as int, j + 1);
                            lemma_seq_join(s@, i as int, j + 1, j2 as int);
                            assert(s@.subrange(j as int, j + 1) =~= seq![0x2cu8]);
                            assert(s@.subrange(i as int, j2 as int) =~= enc_u8_items(v@) + seq![
                                0x5du8,
                            ]);
                            assert forall|bs: Seq<u8>|
                                spec_u8_items_at(s@, i as int, bs) implies v@ == bs && j2 == i
                                + enc_u8_items(bs).len() + 1 by {
                                lemma_u8_items_head(s@, i as int, bs);
                                assert(bs.len() >= 2);
                                assert(v@ =~= bs);
                            }
                        }
                        return Some((v, j2));
                    },
                }
            }
            proof {
                assert forall|bs: Seq<u8>| !spec_u8_items_at(s@, i as int, bs) by {
                    if spec_u8_items_at(s@, i as int, bs) {
                        lemma_u8_items_head(s@, i as int, bs);
                    }
                }
            }
            None
        },
    }
}

/// What stands right after the leading number of a byte-array item region:
/// a bracket where the array has one item, a comma and the remaining items
/// where it has more.
pub open spec fn lead_num_facts(s: Seq<u8>, i: int, bs: Seq<u8>) -> bool {
    let j = i + spec_dec(bs[0] as nat).len();
    &&& bs[0] <= 255
    &&& j < s.len()
    &&& (bs.len() == 1 ==> s[j] == 0x5d && j + 1 == i + enc_u8_items(bs).len() + 1)
    &&& (bs.len() >= 2 ==> s[j] == 0x2c && spec_u8_items_at(s, j + 1, bs.drop_first()) && i
        + enc_u8_items(bs).len() + 1 == j + 1 + enc_u8_items(bs.drop_first()).len() + 1)
}

/// Splits a byte-array item region into its leading number and the rest.
proof fn lemma_u8_items_head(s: Seq<u8>, i: int, bs: Seq<u8>)
    requires
        spec_u8_items_at(s, i, bs),
    ensures
        spec_num_at(s, i, bs[0] as nat),
        lead_num_facts(s, i, bs),
{
    let d0 = spec_dec(bs[0] as nat);
    let j = i + d0.len();
    lemma_dec_props(bs[0] as nat);
    if bs.len() == 1 {
        assert(enc_u8_items(bs) == d0);
        lemma_seq_split(s, i, d0, seq![0x5du8]);
        assert(s[j] == s.subrange(j, j + 1)[0]);
        assert(!is_digit(0x5du8));
    } else {
        let rest = enc_u8_items(bs.drop_first());
        assert(enc_u8_items(bs) == d0 + seq![0x2cu8] + rest);
        assert((d0 + seq![0x2cu8] + rest) + seq![0x5du8] =~= d0 + ((seq![0x2cu8] + rest) + seq![
            0x5du8,
        ]));
        lemma_seq_split(s, i, d0, (seq![0x2cu8] + rest) + seq![0x5du8]);
        assert(s.subrange(j, j + 1 + rest.len() + 1) == (seq![0x2cu8] + rest) + seq![0x5du8]);
        assert(s[j] == s.subrange(j, j + 1 + rest.len() + 1)[0]);
        assert(s[j] == 0x2c);
        assert(!is_digit(0x2cu8));
        assert((seq![0x2cu8] + rest) + seq![0x5du8] =~= seq![0x2cu8] + (rest + seq![0x5du8]));
        lemma_seq_split(s, j, seq![0x2cu8], rest + seq![0x5du8]);
        assert(s.subrange(j + 1, j + 1 + rest.len() + 1) == rest + seq![0x5du8]);
        assert(spec_u8_items_at(s, j + 1, bs.drop_first()));
    }
}

/// Reads a byte array at position `i`: returns the bytes and the position
/// after the closing bracket, exactly where an array stands there.
pub fn parse_u8_list(s: &[u8], i: usize) -> (r: Option<(Vec<u8>, usize)>)
    requires
        i <= s@.len(),
    ensures
        r matches Some(p) ==> {
            &&& i < p.1 <= s@.len()
            &&& s@.subrange(i as int, p.1 as int) == enc_u8_list(p.0@)
            &&& p.1 == i + enc_u8_list(p.0@).len()
        },
        forall|bs: Seq<u8>|
            spec_u8_list_at(s@, i as int, bs) ==> (r matches Some(p) && p.0@ == bs && p.1 == i
                + enc_u8_list(bs).len()),
{
    let len = s.len();
    if i == len || s[i] != 0x5b {
        proof {
            assert forall|bs: Seq<u8>| !spec_u8_list_at(s@, i as int, bs) by {
                if spec_u8_list_at(s@, i as int, bs) {
                    assert(s@.subrange(i as int, i + enc_u8_list(bs).len())[0] == s@[i as int]);
                    assert(enc_u8_list(bs)[0] == 0x5b);
                }
            }
        }
        return None;
    }
    if i + 1 < len && s[i + 1] == 0x5d {
        let v: Vec<u8> = Vec::new();
        proof {
            assert(enc_u8_items(v@) =~= Seq::<u8>::empty());
            assert(s@.subrange(i as int, i + 2) =~= enc_u8_list(v@));
            assert forall|bs: Seq<u8>| spec_u8_list_at(s@, i as int, bs) implies v@ == bs && i + 2
                == i + enc_u8_list(bs).len() by {
                lemma_u8_list_second_byte(s@, i as int, bs);
                if bs.len() >= 1 {
                    assert(false);
                }
                assert(v@ =~= bs);
            }
        }
        return Some((v, i + 2));
    }
    match parse_u8_items(s, i + 1) {
        None => {
            proof {
                assert forall|bs: Seq<u8>| !spec_u8_list_at(s@, i as int, bs) by {
                    if spec_u8_list_at(s@, i as int, bs) {
                        lemma_u8_list_second_byte(s@, i as int, bs);
                        if bs.len() == 0 {
                            assert(i + 1 < len && s@[i + 1] == 0x5d);
                        } else {
                            lemma_u8_list_items(s@, i as int, bs);
                        }
                    }
                }
            }
            None
        },
        Some((v, j)) => {
            proof {
                lemma_seq_join(s@, i as int, i + 1, j as int);
                assert(s@.subrange(i as int, i + 1) =~= seq![0x5bu8]);
                assert(seq![0x5bu8] + (enc_u8_items(v@) + seq![0x5du8]) =~= enc_u8_list(v@));
                assert forall|bs: Seq<u8>| spec_u8_list_at(s@, i as int, bs) implies v@ == bs && j
                    == i + enc_u8_list(bs).len() by {
                    lemma_u8_list_second_byte(s@, i as int, bs);
                    if bs.len() == 0 {
                        assert(i + 1 < len && s@[i + 1] == 0x5d);
                        lemma_u8_items_head(s@, i + 1, v@);
                        assert(false);
                    } else {
                        lemma_u8_list_items(s@, i as int, bs);
                    }
                }
            }
            Some((v, j))
        },
    }
}

/// The second byte of an encoded byte array is a digit where the array has
/// items, and the closing bracket where it is empty.
proof fn lemma_u8_list_second_byte(s: Seq<u8>, i: int, bs: Seq<u8>)
    requires
        spec_u8_list_at(s, i, bs),
    ensures
        i + 1 < s.len(),
        bs.len() == 0 ==> s[i + 1] == 0x5d,
        bs.len() >= 1 ==> is_digit(s[i + 1]) && s[i + 1] != 0x5d,
{
    let e = enc_u8_list(bs);
    assert(s[i + 1] == s.subrange(i, i + e.len())[1]);
    if bs.len() == 0 {
        assert(enc_u8_items(bs) =~= Seq::<u8>::empty());
        assert(e[1] == 0x5d);
    } else {
        lemma_dec_props(bs[0] as nat);
        if bs.len() == 1 {
            assert(e[1] == spec_dec(bs[0] as nat)[0]);
        } else {
            assert(e[1] == (spec_dec(bs[0] as nat) + seq![0x2cu8] + enc_u8_items(
                bs.drop_first(),
            ))[0]);
        }
        assert(is_digit(e[1]));
        assert(!is_digit(0x5du8));
    }
}

/// Splitting an encoded byte array after its opening bracket leaves its
/// items and the closing bracket.
proof fn lemma_u8_list_items(s: Seq<u8>, i: int, bs: Seq<u8>)
    requires
        spec_u8_list_at(s, i, bs),
        bs.len() >= 1,
    ensures
        spec_u8_items_at(s, i + 1, bs),
{
    let inner = enc_u8_items(bs) + seq![0x5du8];
    assert(enc_u8_list(bs) =~= seq![0x5bu8] + inner);
    lemma_seq_split(s, i, seq![0x5bu8], inner);
}

/// Casting a character below 0x80 to a byte truncates its code point,
/// which the cast through u32 does alike.
proof fn lemma_char_as_u8(c: char)
    requires
        (c as u32) < 0x80,
    ensures
        c as u8 == (c as u32) as u8,
{
}

/// A character's code point cast back to a character is the character.
proof fn lemma_u32_as_char(c: char)
    ensures
        ((c as u32) as char) == c,
{
    vstd::utf8::char_u32_cast(c, c as u32);
}

/// A UTF-8 encoding whose bytes all lie below 0x80 encodes characters that
/// all lie below 0x80, one byte per character.
proof fn lemma_ascii_bytes_to_chars(chars: Seq<char>)
    requires
        forall|t: int|
            0 <= t < vstd::utf8::encode_utf8(chars).len() ==> #[trigger] vstd::utf8::encode_utf8(
                chars,
            )[t] < 0x80,
    ensures
        vstd::utf8::encode_utf8(chars).len() == chars.len(),
        forall|t: int|
            0 <= t < chars.len() ==> ((#[trigger] chars[t]) as u32) < 0x80
                && vstd::utf8::encode_utf8(chars)[t] == chars[t] as u8,
    decreases chars.len(),
{
    if chars.len() > 0 {
        vstd::utf8::char_is_scalar(chars[0]);
        let c = chars[0] as u32;
        let e0 = vstd::utf8::encode_scalar(c);
        let rest = vstd::utf8::encode_utf8(chars.drop_first());
        assert(vstd::utf8::encode_utf8(chars) == e0 + rest);
        if vstd::utf8::has_width_2_encoding(c) {
            let z: u8 = ((c >> 6) & 0x1F) as u8;
            assert((0xC0u8 | z) >= 0x80) by (bit_vector);
            assert(vstd::utf8::encode_utf8(chars)[0] == e0[0]);
            assert(false);
        }
        if vstd::utf8::has_width_3_encoding(c) {
            let z: u8 = ((c >> 12) & 0x0F) as u8;
            assert((0xE0u8 | z) >= 0x80) by (bit_vector);
            assert(vstd::utf8::encode_utf8(chars)[0] == e0[0]);
            assert(false);
        }
        if vstd::utf8::has_width_4_encoding(c) {
            let z: u8 = ((c >> 18) & 0x7) as u8;
            assert((0xF0u8 | z) >= 0x80) by (bit_vector);
            assert(vstd::utf8::encode_utf8(chars)[0] == e0[0]);
            assert(false);
        }
        assert(vstd::utf8::has_width_1_encoding(c));
        assert((c & 0x7F) as u8 == c as u8) by (bit_vector)
            requires
                c <= 0x7F,
        ;
        assert(e0 == seq![(c & 0x7F) as u8]);
        assert forall|t: int| 0 <= t < rest.len() implies rest[t] < 0x80 by {
            assert(vstd::utf8::encode_utf8(chars)[1 + t] == rest[t]);
        }
        lemma_ascii_bytes_to_chars(chars.drop_first());
        assert forall|t: int|
            0 <= t < chars.len() implies ((#[trigger] chars[t]) as u32) < 0x80
            && vstd::utf8::encode_utf8(chars)[t] == chars[t] as u8 by {
            if t == 0 {
                assert(vstd::utf8::encode_utf8(chars)[0] == e0[0]);
                assert(e0[0] == (c & 0x7F) as u8);
                assert((chars[0] as u32) < 0x80);
                lemma_char_as_u8(chars[0]);
            } else {
                assert(chars[t] == chars.drop_first()[t - 1]);
                assert(vstd::utf8::encode_utf8(chars)[t] == rest[t - 1]);
            }
        }
    }
}

/// Decides whether every character of the string can be carried in a
/// wire string, by scanning its bytes for anything beyond ASCII.
pub fn check_wire_str(s: &str) -> (r: bool)
    ensures
        r == wire_str_ok(s@),
{
    let bs: &[u8] = s.as_bytes();
    let m = bs.len();
    let mut k: usize = 0;
    while k < m
        invariant
            m == bs@.len(),
            bs@ == s.spec_bytes(),
            0 <= k <= m,
            forall|t: int| 0 <= t < k ==> #[trigger] bs@[t] < 0x80,
        decreases m - k,
    {
        let b = bs[k];
        if b >= 0x80 {
            proof {
                if wire_str_ok(s@) {
                    lemma_wire_str_bytes(s);
                }
            }
            return false;
        }
        k += 1;
    }
    proof {
        assert(s.spec_bytes() == vstd::utf8::encode_utf8(s@));
        lemma_ascii_bytes_to_chars(s@);
        assert forall|t: int| 0 <= t < s@.len() implies wire_char_ok(#[trigger] s@[t]) by {
            assert((s@[t] as u32) < 0x80);
        }
    }
    true
}

/// Whether a character spells a decimal digit.
pub open spec fn is_digit_char(c: char) -> bool {
    '0' <= c && c <= '9'
}

/// The value of a digit string, most significant first.
pub open spec fn spec_digits_value(t: Seq<char>) -> nat
    decreases t.len(),
{
    if t.len() == 0 {
        0
    } else {
        spec_digits_value(t.drop_last()) * 10 + (if '0' <= t.last() && t.last() <= '9' {
            (t.last() as u8 - 0x30) as nat
        } else {
            0
        })
    }
}

/// How a digit string reads as a 32-bit number: one or more digits whose
/// value fits.
pub open spec fn spec_parse_digits(t: Seq<char>) -> Option<u32> {
    if t.len() > 0 && (forall|k: int| 0 <= k < t.len() ==> is_digit_char(#[trigger] t[k]))
        && spec_digits_value(t) <= u32::MAX {
        Some(spec_digits_value(t) as u32)
    } else {
        None
    }
}

/// How the standard library reads a 32-bit number from a string: an
/// optional plus sign, then one or more digits, whose value must fit.
pub open spec fn spec_parse_u32(s: Seq<char>) -> Option<u32> {
    if s.len() > 0 && s[0] == '+' {
        spec_parse_digits(s.drop_first())
    } else {
        spec_parse_digits(s)
    }
}

/// The value of a digit string grows with every digit appended.
proof fn lemma_digits_value_grows(t: Seq<char>, k: int)
    requires
        0 <= k <= t.len(),
    ensures
        spec_digits_value(t.take(k)) <= spec_digits_value(t),
    decreases t.len() - k,
{
    if k < t.len() {
        lemma_digits_value_grows(t, k + 1);
        let a = t.take(k);
        let b = t.take(k + 1);
        assert(b.drop_last() =~= a);
        assert(spec_digits_value(a) * 10 >= spec_digits_value(a)) by (nonlinear_arith)
            requires
                spec_digits_value(a) >= 0,
        ;
    } else {
        assert(t.take(k) =~= t);
    }
}

/// Every character of an ASCII string corresponds to its byte.
pub proof fn lemma_ascii_str_chars(s: &str)
    requires
        forall|u: int| 0 <= u < s.spec_bytes().len() ==> #[trigger] s.spec_bytes()[u] < 0x80,
    ensures
        s@.len() == s.spec_bytes().len(),
        forall|u: int|
            0 <= u < s@.len() ==> (#[trigger] s@[u]) as u8 == s.spec_bytes()[u] && ((s@[u] as u32)
                == s.spec_bytes()[u] as u32) && s@[u] == (s.spec_bytes()[u] as char),
{
    broadcast use vstd::utf8::char_u32_cast;

    assert(s.spec_bytes() == vstd::utf8::encode_utf8(s@));
    lemma_ascii_bytes_to_chars(s@);
    assert forall|u: int|
        0 <= u < s@.len() implies (#[trigger] s@[u]) as u8 == s.spec_bytes()[u] && ((s@[u] as u32)
        == s.spec_bytes()[u] as u32) && s@[u] == (s.spec_bytes()[u] as char) by {
        let c = s@[u];
        let b = s.spec_bytes()[u];
        let cu: u32 = c as u32;
        lemma_char_as_u8(c);
        lemma_u32_as_char(c);
        assert((b as u32) == cu) by (bit_vector)
            requires
                cu < 0x80,
                b == cu as u8,
        ;
    }
}

/// Reads a 32-bit number from a string the way the standard library does.
pub fn parse_u32_str(s: &str) -> (r: Option<u32>)
    ensures
        r == spec_parse_u32(s@),
{
    let bs: &[u8] = s.as_bytes();
    let m = bs.len();
    // every byte must be a digit, but for a leading sign; otherwise some
    // character cannot be a digit or the sign
    let mut k: usize = 0;
    while k < m
        invariant
            m == bs@.len(),
            bs@ == s.spec_bytes(),
            0 <= k <= m,
            forall|t: int| 0 <= t < k ==> #[trigger] bs@[t] < 0x80,
            forall|t: int| 0 <= t < k ==> (0x30 <= bs@[t] <= 0x39 || (t == 0 && bs@[t] == 0x2b)),
        decreases m - k,
    {
        let b = bs[k];
        let ok = (0x30 <= b && b <= 0x39) || (k == 0 && b == 0x2b);
        if !ok {
            proof {
                lemma_parse_u32_reject(s, k as int);
            }
            return None;
        }
        k += 1;
    }
    if m == 0 {
        proof {
            lemma_ascii_str_chars(s);
        }
        return None;
    }
    proof {
        lemma_ascii_str_chars(s);
        assert(('+' as u32) == 0x2b && ('0' as u32) == 0x30 && ('9' as u32) == 0x39);
    }
    let start: usize = if bs[0] == 0x2b {
        1
    } else {
        0
    };
    let ghost t: Seq<char> = if s@[0] == '+' {
        s@.drop_first()
    } else {
        s@
    };
    proof {
        if s.spec_bytes()[0] == 0x2b {
            assert(s@[0] == '+');
            assert(spec_parse_u32(s@) == spec_parse_digits(s@.drop_first()));
            assert(t =~= s@.drop_first());
        } else {
            assert(s@[0] != '+');
            assert(spec_parse_u32(s@) == spec_parse_digits(s@));
            assert(t =~= s@);
        }
        assert(start as int + t.len() == m);
        assert forall|u: int|
            0 <= u < t.len() implies is_digit_char(#[trigger] t[u]) && (t[u] as u8) == s.spec_bytes()[
            start + u] && 0x30 <= s.spec_bytes()[start + u] <= 0x39 by {
            assert(t[u] == s@[start + u]);
            assert(0x30 <= s.spec_bytes()[start + u] <= 0x39);
        }
    }
    if start == m {
        // a lone sign has no digits
        proof {
            assert(t.len() == 0);
            assert(spec_parse_digits(t) is None);
        }
        return None;
    }
    let mut acc: u64 = 0;
    let mut k2: usize = start;
    while k2 < m
        invariant
            m == bs@.len(),
            bs@ == s.spec_bytes(),
            start <= k2 <= m,
            start <= 1,
            spec_parse_u32(s@) == spec_parse_digits(t),
            t.len() == m - start,
            forall|u: int|
                0 <= u < t.len() ==> is_digit_char(#[trigger] t[u]) && (t[u] as u8) == bs@[start
                    + u] && 0x30 <= bs@[start + u] <= 0x39,
            acc == spec_digits_value(t.take(k2 - start)),
            acc <= u32::MAX,
        decreases m - k2,
    {
        proof {
            assert(is_digit_char(t[k2 - start]));
            assert((t[k2 - start] as u8) == bs@[k2 as int]);
        }
        let d: u64 = (bs[k2] - 0x30) as u64;
        let next: u64 = acc * 10 + d;
        proof {
            let pre = t.take(k2 - start);
            let post = t.take(k2 + 1 - start);
            assert(post.drop_last() =~= pre);
            assert(post.last() == t[k2 - start]);
            assert(spec_digits_value(post) == acc * 10 + d);
        }
        if next > u32::MAX as u64 {
            proof {
                lemma_digits_value_grows(t, k2 + 1 - start);
                assert(spec_digits_value(t) > u32::MAX);
                assert(spec_parse_digits(t) is None);
            }
            return None;
        }
        acc = next;
        k2 += 1;
    }
    proof {
        assert(t.take(m - start) =~= t);
        assert(t.len() > 0);
        assert(spec_parse_digits(t) == Some(acc as u32));
    }
    Some(acc as u32)
}

/// A byte that is no digit nor a leading sign refutes the number shape of
/// the string.
proof fn lemma_parse_u32_reject(s: &str, k: int)
    requires
        0 <= k < s.spec_bytes().len(),
        !(0x30 <= s.spec_bytes()[k] <= 0x39 || (k == 0 && s.spec_bytes()[k] == 0x2b)),
    ensures
        spec_parse_u32(s@) is None,
{
    if spec_parse_u32(s@) is Some {
        // every character is then a digit or a leading plus, so the string
        // is ASCII and every byte is a digit or a leading plus
        assert forall|u: int| 0 <= u < s@.len() implies ('0' <= #[trigger] s@[u] <= '9' || (u == 0
            && s@[u] == '+')) by {
            if s@.len() > 0 && s@[0] == '+' {
                if u > 0 {
                    assert(spec_parse_digits(s@.drop_first()) is Some);
                    assert(is_digit_char(s@.drop_first()[u - 1]));
                    assert(s@[u] == s@.drop_first()[u - 1]);
                }
            } else {
                assert(spec_parse_digits(s@) is Some);
                assert(is_digit_char(s@[u]));
            }
        }
        assert(vstd::utf8::is_ascii_chars(s@)) by {
            assert forall|u: int| 0 <= u < s@.len() implies '\0' <= #[trigger] s@[u]
                <= '\u{7f}' by {}
        }
        broadcast use vstd::string::is_ascii_spec_bytes;

        assert(vstd::string::is_ascii(s));
        assert(s.spec_bytes()[k] == s@[k] as u8);
        assert(('+' as u32) == 0x2b && ('0' as u32) == 0x30 && ('9' as u32) == 0x39);
        let c = s@[k];
        lemma_wire_ascii_byte(c);
        assert(false);
    }
}

/// A digit or sign character casts to its code byte.
proof fn lemma_wire_ascii_byte(c: char)
    requires
        ('0' <= c && c <= '9') || c == '+',
    ensures
        0x30 <= (c as u8) <= 0x39 || c as u8 == 0x2b,
        (c as u32) < 0x80,
{
    lemma_char_as_u8(c);
}

// ---------------------------------------------------------------------
// Key-value pair lists
// ---------------------------------------------------------------------
/// Whether both strings of a pair may stand on the wire.
pub open spec fn wire_pair_ok(p: (Seq<char>, Seq<char>)) -> bool {
    wire_str_ok(p.0) && wire_str_ok(p.1)
}

/// Whether every pair of a list may stand on the wire.
pub open spec fn wire_pairs_ok(ps: Seq<(Seq<char>, Seq<char>)>) -> bool {
    forall|t: int| 0 <= t < ps.len() ==> wire_pair_ok(#[trigger] ps[t])
}

/// The model of a vector of string pairs.
pub open spec fn pairs_view(v: Seq<(String, String)>) -> Seq<(Seq<char>, Seq<char>)> {
    v.map_values(|p: (String, String)| (p.0@, p.1@))
}

/// The encoding of one pair: key, colon, value.
pub open spec fn enc_pair(p: (Seq<char>, Seq<char>)) -> Seq<u8> {
    enc_string(p.0) + seq![0x3au8] + enc_string(p.1)
}

/// The comma-separated encoding of the pairs of a list.
pub open spec fn enc_pair_items(ps: Seq<(Seq<char>, Seq<char>)>) -> Seq<u8>
    decreases ps.len(),
{
    if ps.len() == 0 {
        Seq::empty()
    } else if ps.len() == 1 {
        enc_pair(ps[0])
    } else {
        enc_pair(ps[0]) + seq![0x2cu8] + enc_pair_items(ps.drop_first())
    }
}

/// The encoding of a pair list: its pairs between braces.
pub open spec fn enc_pairs(ps: Seq<(Seq<char>, Seq<char>)>) -> Seq<u8> {
    seq![0x7bu8] + enc_pair_items(ps) + seq![0x7du8]
}

/// Whether position `i` of `s` holds the encoding of the pair `p`.
pub open spec fn spec_pair_at(s: Seq<u8>, i: int, p: (Seq<char>, Seq<char>)) -> bool {
    &&& 0 <= i
    &&& wire_pair_ok(p)
    &&& i + enc_pair(p).len() <= s.len()
    &&& s.subrange(i, i + enc_pair(p).len()) == enc_pair(p)
}

/// Whether position `i` of `s` holds the pairs of the nonempty list `ps`
/// followed by the closing brace.
pub open spec fn spec_pair_items_at(s: Seq<u8>, i: int, ps: Seq<(Seq<char>, Seq<char>)>) -> bool {
    &&& 0 <= i
    &&& ps.len() >= 1
    &&& wire_pairs_ok(ps)
    &&& i + enc_pair_items(ps).len() + 1 <= s.len()
    &&& s.subrange(i, i + enc_pair_items(ps).len() + 1) == enc_pair_items(ps) + seq![0x7du8]
}

/// Whether position `i` of `s` holds the encoding of the pair list `ps`.
pub open spec fn spec_pairs_at(s: Seq<u8>, i: int, ps: Seq<(Seq<char>, Seq<char>)>) -> bool {
    &&& 0 <= i
    &&& wire_pairs_ok(ps)
    &&& i + enc_pairs(ps).len() <= s.len()
    &&& s.subrange(i, i + enc_pairs(ps).len()) == enc_pairs(ps)
}

/// Appends the pairs of `v` from index `k` on, comma-separated.
pub fn push_pair_items(out: &mut Vec<u8>, v: &Vec<(String, String)>, k: usize)
    requires
        k <= v@.len(),
        wire_pairs_ok(pairs_view(v@)),
    ensures
        final(out)@ == old(out)@ + enc_pair_items(pairs_view(v@).skip(k as int)),
    decreases v@.len() - k,
{
    if k < v.len() {
        proof {
            assert(pairs_view(v@)[k as int] == (v@[k as int].0@, v@[k as int].1@));
            assert(wire_pair_ok(pairs_view(v@)[k as int]));
        }
        push_string(out, &v[k].0);
        out.push(0x3au8);
        push_string(out, &v[k].1);
        proof {
            assert(pairs_view(v@)[k as int] == (v@[k as int].0@, v@[k as int].1@));
            assert(out@ =~= old(out)@ + enc_pair(pairs_view(v@)[k as int]));
        }
        if k + 1 < v.len() {
            out.push(0x2cu8);
            push_pair_items(out, v, k + 1);
            proof {
                let rest = pairs_view(v@).skip(k as int);
                assert(rest.drop_first() =~= pairs_view(v@).skip(k + 1));
                assert(final(out)@ =~= old(out)@ + enc_pair_items(rest));
            }
        } else {
            proof {
                let rest = pairs_view(v@).skip(k as int);
                assert(rest.len() == 1 && rest[0] == pairs_view(v@)[k as int]);
                assert(final(out)@ =~= old(out)@ + enc_pair_items(rest));
            }
        }
    } else {
        proof {
            assert(pairs_view(v@).skip(k as int) =~= Seq::<(Seq<char>, Seq<char>)>::empty());
            assert(final(out)@ =~= old(out)@ + enc_pair_items(pairs_view(v@).skip(k as int)));
        }
    }
}

/// Appends the encoding of a pair list.
pub fn push_pairs(out: &mut Vec<u8>, v: &Vec<(String, String)>)
    requires
        wire_pairs_ok(pairs_view(v@)),
    ensures
        final(out)@ == old(out)@ + enc_pairs(pairs_view(v@)),
{
    out.push(0x7bu8);
    push_pair_items(out, v, 0);
    out.push(0x7du8);
    proof {
        assert(pairs_view(v@).skip(0) =~= pairs_view(v@));
        assert(final(out)@ =~= old(out)@ + enc_pairs(pairs_view(v@)));
    }
}

/// Reads one pair at position `i`: returns key, value and the position
/// after the value, exactly where a pair stands there.
pub fn parse_pair(s: &[u8], i: usize) -> (r: Option<((String, String), usize)>)
    requires
        i <= s@.len(),
    ensures
        r matches Some(p) ==> {
            &&& i < p.1 <= s@.len()
            &&& wire_pair_ok(((p.0.0)@, (p.0.1)@))
            &&& s@.subrange(i as int, p.1 as int) == enc_pair(((p.0.0)@, (p.0.1)@))
            &&& p.1 == i + enc_pair(((p.0.0)@, (p.0.1)@)).len()
        },
        forall|p: (Seq<char>, Seq<char>)|
            spec_pair_at(s@, i as int, p) ==> (r matches Some(q) && (q.0.0)@ == p.0 && (q.0.1)@
                == p.1 && q.1 == i + enc_pair(p).len()),
{
    proof {
        assert forall|p: (Seq<char>, Seq<char>)|
            spec_pair_at(s@, i as int, p) implies spec_string_at(s@, i as int, p.0)
            && pair_tail_facts(s@, i as int, p) by {
            lemma_pair_head(s@, i as int, p);
        }
    }
    let len = s.len();
    match parse_string(s, i) {
        None => None,
        Some((key, j1)) => {
            if j1 == len {
                return None;
            }
            if s[j1] != 0x3a {
                return None;
            }
            match parse_string(s, j1 + 1) {
                None => None,
                Some((value, j2)) => {
                    proof {
                        lemma_seq_join(s@, i as int, j1 as int, j1 + 1);
                        lemma_seq_join(s@, i as int, j1 + 1, j2 as int);
                        assert(s@.subrange(j1 as int, j1 + 1) =~= seq![0x3au8]);
                        assert(s@.subrange(i as int, j2 as int) =~= enc_pair((key@, value@)));
                    }
                    Some(((key, value), j2))
                },
            }
        },
    }
}

/// What stands after the key of an encoded pair: the colon and the value.
pub open spec fn pair_tail_facts(s: Seq<u8>, i: int, p: (Seq<char>, Seq<char>)) -> bool {
    let j = i + enc_string(p.0).len();
    &&& j < s.len()
    &&& s[j] == 0x3a
    &&& spec_string_at(s, j + 1, p.1)
    &&& i + enc_pair(p).len() == j + 1 + enc_string(p.1).len()
}

/// Splits an encoded pair into its key, its colon and its value.
proof fn lemma_pair_head(s: Seq<u8>, i: int, p: (Seq<char>, Seq<char>))
    requires
        spec_pair_at(s, i, p),
    ensures
        spec_string_at(s, i, p.0),
        pair_tail_facts(s, i, p),
{
    let e0 = enc_string(p.0);
    let e1 = enc_string(p.1);
    let j = i + e0.len();
    assert(enc_pair(p) =~= e0 + (seq![0x3au8] + e1));
    lemma_seq_split(s, i, e0, seq![0x3au8] + e1);
    assert(s.subrange(j, j + 1 + e1.len()) == seq![0x3au8] + e1);
    assert(s[j] == s.subrange(j, j + 1 + e1.len())[0]);
    lemma_seq_split(s, j, seq![0x3au8], e1);
}

/// Reads the comma-separated pairs and the closing brace at position `i`:
/// returns the pairs and the position after the brace, exactly where such
/// pairs stand there.
pub fn parse_pair_items(s: &[u8], i: usize) -> (r: Option<(Vec<(String, String)>, usize)>)
    requires
        i <= s@.len(),
    ensures
        r matches Some(p) ==> {
            &&& p.0@.len() >= 1
            &&& wire_pairs_ok(pairs_view(p.0@))
            &&& i < p.1 <= s@.len()
            &&& s@.subrange(i as int, p.1 as int) == enc_pair_items(pairs_view(p.0@)) + seq![0x7du8]
            &&& p.1 == i + enc_pair_items(pairs_view(p.0@)).len() + 1
        },
        forall|ps: Seq<(Seq<char>, Seq<char>)>|
            spec_pair_items_at(s@, i as int, ps) ==> (r matches Some(p) && pairs_view(p.0@) == ps
                && p.1 == i + enc_pair_items(ps).len() + 1),
    decreases s@.len() - i,
{
    proof {
        assert forall|ps: Seq<(Seq<char>, Seq<char>)>|
            spec_pair_items_at(s@, i as int, ps) implies spec_pair_at(s@, i as int, ps[0])
            && pair_items_tail_facts(s@, i as int, ps) by {
            lemma_pair_items_head(s@, i as int, ps);
        }
    }
    match parse_pair(s, i) {
        None => None,
        Some(((key, value), j)) => {
            if j == s.len() {
                return None;
            }
            let c = s[j];
            if c == 0x7d {
                let mut v: Vec<(String, String)> = Vec::new();
                v.push((key, value));
                proof {
                    assert(pairs_view(v@) =~= seq![(key@, value@)]);
                    assert(enc_pair_items(pairs_view(v@)) == enc_pair((key@, value@)));
                    assert(s@.subrange(i as int, j + 1) =~= enc_pair_items(pairs_view(v@)) + seq![
                        0x7du8,
                    ]);
                    assert forall|ps: Seq<(Seq<char>, Seq<char>)>|
                        spec_pair_items_at(s@, i as int, ps) implies pairs_view(v@) == ps && j + 1
                        == i + enc_pair_items(ps).len() + 1 by {
                        if ps.len() >= 2 {
                            assert(false);
                        }
                        assert(pairs_view(v@) =~= ps);
                    }
                }
                return Some((v, j + 1));
            }
            if c == 0x2c {
                match parse_pair_items(s, j + 1) {
                    None => {
                        proof {
                            assert forall|ps: Seq<(Seq<char>, Seq<char>)>|
                                !spec_pair_items_at(s@, i as int, ps) by {
                                if spec_pair_items_at(s@, i as int, ps) {
                                    assert(ps.len() >= 2);
                                }
                            }
                        }
                        return None;
                    },
                    Some((mut v, j2)) => {
                        let ghost vold = v@;
                        v.insert(0, (key, value));
                        proof {
                            assert(v@ =~= seq![(key, value)] + vold);
                            assert(pairs_view(v@) =~= seq![(key@, value@)] + pairs_view(vold));
                            assert(pairs_view(v@).drop_first() =~= pairs_view(vold));
                            assert(pairs_view(v@)[0] == (key@, value@));
                            assert(enc_pair_items(pairs_view(v@)) == enc_pair((key@, value@))
                                + seq![0x2cu8] + enc_pair_items(pairs_view(vold)));
                            lemma_seq_join(s@, i as int, j as int, j + 1);
                            lemma_seq_join(s@, i as int, j + 1, j2 as int);
                            assert(s@.subrange(j as int, j + 1) =~= seq![0x2cu8]);
                            assert(s@.subrange(i as int, j2 as int) =~= enc_pair_items(
                                pairs_view(v@),
                            ) + seq![0x7du8]);
                            assert forall|ps: Seq<(Seq<char>, Seq<char>)>|
                                spec_pair_items_at(s@, i as int, ps) implies pairs_view(v@) == ps
                                && j2 == i + enc_pair_items(ps).len() + 1 by {
                                assert(ps.len() >= 2);
                                assert(pairs_view(vold) == ps.drop_first());
                                assert(pairs_view(v@) =~= ps);
                            }
                        }
                        return Some((v, j2));
                    },
                }
            }
            proof {
                assert forall|ps: Seq<(Seq<char>, Seq<char>)>|
                    !spec_pair_items_at(s@, i as int, ps) by {
                    if spec_pair_items_at(s@, i as int, ps) {
                    }
                }
            }
            None
        },
    }
}

/// What stands right after the leading pair of a pair item region: a brace
/// where the list has one pair, a comma and the remaining pairs where it
/// has more.
pub open spec fn pair_items_tail_facts(s: Seq<u8>, i: int, ps: Seq<(Seq<char>, Seq<char>)>) -> bool {
    let j = i + enc_pair(ps[0]).len();
    &&& j < s.len()
    &&& (ps.len() == 1 ==> s[j] == 0x7d && j + 1 == i + enc_pair_items(ps).len() + 1)
    &&& (ps.len() >= 2 ==> s[j] == 0x2c && spec_pair_items_at(s, j + 1, ps.drop_first()) && i
        + enc_pair_items(ps).len() + 1 == j + 1 + enc_pair_items(ps.drop_first()).len() + 1)
}

/// Splits a pair item region into its leading pair and the rest.
proof fn lemma_pair_items_head(s: Seq<u8>, i: int, ps: Seq<(Seq<char>, Seq<char>)>)
    requires
        spec_pair_items_at(s, i, ps),
    ensures
        spec_pair_at(s, i, ps[0]),
        pair_items_tail_facts(s, i, ps),
{
    let e0 = enc_pair(ps[0]);
    let j = i + e0.len();
    if ps.len() == 1 {
        assert(enc_pair_items(ps) == e0);
        lemma_seq_split(s, i, e0, seq![0x7du8]);
        assert(s[j] == s.subrange(j, j + 1)[0]);
    } else {
        let rest = enc_pair_items(ps.drop_first());
        assert(enc_pair_items(ps) == e0 + seq![0x2cu8] + rest);
        assert((e0 + seq![0x2cu8] + rest) + seq![0x7du8] =~= e0 + ((seq![0x2cu8] + rest) + seq![
            0x7du8,
        ]));
        lemma_seq_split(s, i, e0, (seq![0x2cu8] + rest) + seq![0x7du8]);
        assert(s.subrange(j, j + 1 + rest.len() + 1) == (seq![0x2cu8] + rest) + seq![0x7du8]);
        assert(s[j] == s.subrange(j, j + 1 + rest.len() + 1)[0]);
        assert((seq![0x2cu8] + rest) + seq![0x7du8] =~= seq![0x2cu8] + (rest + seq![0x7du8]));
        lemma_seq_split(s, j, seq![0x2cu8], rest + seq![0x7du8]);
        assert(s.subrange(j + 1, j + 1 + rest.len() + 1) == rest + seq![0x7du8]);
        assert forall|t: int| 0 <= t < ps.drop_first().len() implies wire_pair_ok(
            #[trigger] ps.drop_first()[t],
        ) by {
            assert(ps.drop_first()[t] == ps[t + 1]);
        }
        assert(spec_pair_items_at(s, j + 1, ps.drop_first()));
    }
}

/// Reads a pair list at position `i`: returns the pairs and the position
/// after the closing brace, exactly where a list stands there.
pub fn parse_pairs(s: &[u8], i: usize) -> (r: Option<(Vec<(String, String)>, usize)>)
    requires
        i <= s@.len(),
    ensures
        r matches Some(p) ==> {
            &&& i < p.1 <= s@.len()
            &&& wire_pairs_ok(pairs_view(p.0@))
            &&& s@.subrange(i as int, p.1 as int) == enc_pairs(pairs_view(p.0@))
            &&& p.1 == i + enc_pairs(pairs_view(p.0@)).len()
        },
        forall|ps: Seq<(Seq<char>, Seq<char>)>|
            spec_pairs_at(s@, i as int, ps) ==> (r matches Some(p) && pairs_view(p.0@) == ps && p.1
                == i + enc_pairs(ps).len()),
{
    let len = s.len();
    if i == len || s[i] != 0x7b {
        proof {
            assert forall|ps: Seq<(Seq<char>, Seq<char>)>| !spec_pairs_at(s@, i as int, ps) by {
                if spec_pairs_at(s@, i as int, ps) {
                    assert(s@.subrange(i as int, i + enc_pairs(ps).len())[0] == s@[i as int]);
                    assert(enc_pairs(ps)[0] == 0x7b);
                }
            }
        }
        return None;
    }
    if i + 1 < len && s[i + 1] == 0x7d {
        let v: Vec<(String, String)> = Vec::new();
        proof {
            assert(pairs_view(v@) =~= Seq::<(Seq<char>, Seq<char>)>::empty());
            assert(enc_pair_items(pairs_view(v@)) =~= Seq::<u8>::empty());
            assert(s@.subrange(i as int, i + 2) =~= enc_pairs(pairs_view(v@)));
            assert forall|ps: Seq<(Seq<char>, Seq<char>)>|
                spec_pairs_at(s@, i as int, ps) implies pairs_view(v@) == ps && i + 2 == i
                + enc_pairs(ps).len() by {
                lemma_pairs_second_byte(s@, i as int, ps);
                if ps.len() >= 1 {
                    assert(false);
                }
                assert(pairs_view(v@) =~= ps);
            }
        }
        return Some((v, i + 2));
    }
    match parse_pair_items(s, i + 1) {
        None => {
            proof {
                assert forall|ps: Seq<(Seq<char>, Seq<char>)>| !spec_pairs_at(s@, i as int, ps) by {
                    if spec_pairs_at(s@, i as int, ps) {
                        lemma_pairs_second_byte(s@, i as int, ps);
                        if ps.len() == 0 {
                            assert(i + 1 < len && s@[i + 1] == 0x7d);
                        } else {
                            lemma_pairs_items(s@, i as int, ps);
                        }
                    }
                }
            }
            None
        },
        Some((v, j)) => {
            proof {
                lemma_seq_join(s@, i as int, i + 1, j as int);
                assert(s@.subrange(i as int, i + 1) =~= seq![0x7bu8]);
                assert(seq![0x7bu8] + (enc_pair_items(pairs_view(v@)) + seq![0x7du8]) =~= enc_pairs(
                    pairs_view(v@),
                ));
                assert forall|ps: Seq<(Seq<char>, Seq<char>)>|
                    spec_pairs_at(s@, i as int, ps) implies pairs_view(v@) == ps && j == i
                    + enc_pairs(ps).len() by {
                    lemma_pairs_second_byte(s@, i as int, ps);
                    if ps.len() == 0 {
                        assert(i + 1 < len && s@[i + 1] == 0x7d);
                        lemma_pair_items_head(s@, i + 1, pairs_view(v@));
                        assert(s@[i + 1] == enc_pair_items(pairs_view(v@))[0]);
                        assert(enc_pair_items(pairs_view(v@))[0] == enc_pair(pairs_view(v@)[0])[0]);
                        assert(false);
                    } else {
                        lemma_pairs_items(s@, i as int, ps);
                    }
                }
            }
            Some((v, j))
        },
    }
}

/// The second byte of an encoded pair list is a quote where the list has
/// pairs, and the closing brace where it is empty.
proof fn lemma_pairs_second_byte(s: Seq<u8>, i: int, ps: Seq<(Seq<char>, Seq<char>)>)
    requires
        spec_pairs_at(s, i, ps),
    ensures
        i + 1 < s.len(),
        ps.len() == 0 ==> s[i + 1] == 0x7d,
        ps.len() >= 1 ==> s[i + 1] == 0x22,
{
    let e = enc_pairs(ps);
    assert(s[i + 1] == s.subrange(i, i + e.len())[1]);
    if ps.len() == 0 {
        assert(enc_pair_items(ps) =~= Seq::<u8>::empty());
        assert(e[1] == 0x7d);
    } else {
        if ps.len() == 1 {
            assert(e[1] == enc_pair(ps[0])[0]);
        } else {
            assert(e[1] == (enc_pair(ps[0]) + seq![0x2cu8] + enc_pair_items(ps.drop_first()))[0]);
        }
        assert(enc_pair(ps[0])[0] == 0x22);
    }
}

/// Splitting an encoded pair list after its opening brace leaves its pairs
/// and the closing brace.
proof fn lemma_pairs_items(s: Seq<u8>, i: int, ps: Seq<(Seq<char>, Seq<char>)>)
    requires
        spec_pairs_at(s, i, ps),
        ps.len() >= 1,
    ensures
        spec_pair_items_at(s, i + 1, ps),
{
    let inner = enc_pair_items(ps) + seq![0x7du8];
    assert(enc_pairs(ps) =~= seq![0x7bu8] + inner);
    lemma_seq_split(s, i, seq![0x7bu8], inner);
}

} // verus!
