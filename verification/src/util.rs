//! Size formatting, magnet links, the tracker lists, and the field
//! conversions used when reading indexer JSON.

use vstd::prelude::*;
use vstd::arithmetic::div_mod::lemma_div_denominator;
use vstd::arithmetic::div_mod::lemma_fundamental_div_mod;
use vstd::utf8::encode_utf8;
use crate::text::{
    find_from, occurs_at, split, split_from, decimal, digit_char, digit_to_char, is_blank, parse_unsigned, parse_unsigned_chars, push_char,
    push_decimal, str_chars, trim, trim_range, IntErrorKind,
};

verus! {

pub const DEFAULT_HTTPS_TRACKERS: [&'static str; 9] = [
    "https://tracker.pmman.tech:443/announce",
    "https://tracker.tamersunion.org:443/announce",
    "https://tracker.nekobt.to/api/tracker/public/announce",
    "http://nyaa.tracker.wf:7777/announce",
    "https://tracker.nekomi.cn:443/announce",
    "https://1337.abcvg.info:443/announce",
    "https://tracker.leechshield.link:443/announce",
    "https://tracker.7471.top:443/announce",
    "https://tracker.foreverpirates.co:443/announce",
];

/// Trackers appended to every magnet link, already percent-encoded.
pub const PRE_ENCODED_TRACKERS: [&'static str; 18] = [
    // Universal high-speed public UDP trackers
    "udp%3A%2F%2Ftracker.opentrackr.org%3A1337%2Fannounce",
    "udp%3A%2F%2Fopen.stealth.si%3A80%2Fannounce",
    "udp%3A%2F%2Ftracker.torrent.eu.org%3A451%2Fannounce",
    "udp%3A%2F%2Fopen.demonii.com%3A1337%2Fannounce",
    "udp%3A%2F%2Ftracker.therarbg.to%3A6969%2Fannounce",
    "udp%3A%2F%2Ftracker.dler.org%3A6969%2Fannounce",
    "udp%3A%2F%2Fexplodie.org%3A6969%2Fannounce",
    "udp%3A%2F%2Fzer0day.ch%3A1337%2Fannounce",
    "udp%3A%2F%2Ftracker.qu.ax%3A6969%2Fannounce",
    // Universal HTTPS trackers
    "https%3A%2F%2Ftracker.pmman.tech%3A443%2Fannounce",
    "https%3A%2F%2Ftracker.tamersunion.org%3A443%2Fannounce",
    "https%3A%2F%2Ftracker.nekobt.to%2Fapi%2Ftracker%2Fpublic%2Fannounce",
    // Dedicated anime trackers
    "http%3A%2F%2Fnyaa.tracker.wf%3A7777%2Fannounce",
    "https%3A%2F%2Ftracker.nekomi.cn%3A443%2Fannounce",
    "https%3A%2F%2F1337.abcvg.info%3A443%2Fannounce",
    "https%3A%2F%2Ftracker.leechshield.link%3A443%2Fannounce",
    "https%3A%2F%2Ftracker.7471.top%3A443%2Fannounce",
    "https%3A%2F%2Ftracker.foreverpirates.co%3A443%2Fannounce",
];

// ---------------------------------------------------------------------------
// Sizes
// ---------------------------------------------------------------------------

/// `num / den` rounded to the nearest integer, ties to the even one.
pub open spec fn round_half_even(num: nat, den: nat) -> nat
    recommends
        den > 0,
{
    let q = num / den;
    let r = num % den;
    if 2 * r > den || (2 * r == den && q % 2 == 1) {
        q + 1
    } else {
        q
    }
}

/// Spacing of the binary64 values around `b` (1 below 2^53, doubling per binade above).
pub open spec fn double_ulp(b: nat) -> nat
    decreases b,
{
    if b < 0x20_0000_0000_0000 {
        1
    } else {
        2 * double_ulp(b / 2)
    }
}

/// The binary64 value nearest to `b` (ties to even), as an integer: what `b as f64` holds.
pub open spec fn as_double(b: nat) -> nat {
    round_half_even(b, double_ulp(b)) * double_ulp(b)
}

/// Two decimal digits of `x < 100`.
pub open spec fn two_digits(x: nat) -> Seq<char> {
    seq![digit_char(x / 10), digit_char(x % 10)]
}

/// The exact value `num / den` written with two decimals, rounded half to even
/// (what `{:.2}` prints for a binary64 holding exactly that value).
pub open spec fn fixed2(num: nat, den: nat) -> Seq<char> {
    let n = round_half_even(100 * num, den);
    decimal(n / 100) + seq!['.'] + two_digits(n % 100)
}

pub const GIB: u64 = 1_073_741_824;

pub const MIB: u64 = 1_048_576;

pub const KIB: u64 = 1024;

/// The text `format_size` gives for `bytes`.
pub open spec fn size_text(bytes: u64) -> Seq<char> {
    if bytes >= GIB {
        fixed2(as_double(bytes as nat), GIB as nat) + " GB"@
    } else if bytes >= MIB {
        fixed2(as_double(bytes as nat), MIB as nat) + " MB"@
    } else if bytes >= KIB {
        fixed2(as_double(bytes as nat), KIB as nat) + " KB"@
    } else {
        decimal(bytes as nat) + " B"@
    }
}

/// The unit `format_size` divides by for sizes of at least 1 KiB.
pub open spec fn size_unit(bytes: u64) -> nat {
    if bytes >= GIB {
        GIB as nat
    } else if bytes >= MIB {
        MIB as nat
    } else {
        KIB as nat
    }
}

/// The unit's name that follows the number.
pub open spec fn unit_name(bytes: u64) -> Seq<char> {
    if bytes >= GIB {
        " GB"@
    } else if bytes >= MIB {
        " MB"@
    } else {
        " KB"@
    }
}

/// Rounding to the nearest integer is off by at most one half.
proof fn lemma_round_half_even_error(num: nat, den: nat)
    requires
        den > 0,
    ensures
        2 * num <= 2 * round_half_even(num, den) * den + den,
        2 * round_half_even(num, den) * den <= 2 * num + den,
        num / den <= round_half_even(num, den) <= num / den + 1,
{
    let q = num / den;
    let r = num % den;
    lemma_fundamental_div_mod(num as int, den as int);
    let n = round_half_even(num, den);
    if n == q + 1 {
        assert(2 * r >= den);
        assert(2 * num <= 2 * n * den + den && 2 * n * den <= 2 * num + den) by (nonlinear_arith)
            requires
                num == den * q + r,
                n == q + 1,
                2 * r >= den,
                r < den,
        ;
    } else {
        assert(2 * r <= den);
        assert(2 * num <= 2 * n * den + den && 2 * n * den <= 2 * num + den) by (nonlinear_arith)
            requires
                num == den * q + r,
                n == q,
                2 * r <= den,
                r >= 0,
        ;
    }
}

/// Sizes up to 2^53 bytes are held exactly by a binary64.
proof fn lemma_as_double_exact(b: nat)
    requires
        b <= 0x20_0000_0000_0000,
    ensures
        as_double(b) == b,
{
    if b < 0x20_0000_0000_0000 {
        assert(double_ulp(b) == 1);
        assert(b / 1 == b && b % 1 == 0) by (nonlinear_arith);
    } else {
        assert(double_ulp(b / 2) == 1);
        assert(double_ulp(b) == 2);
        assert(b / 2 == 0x10_0000_0000_0000 && b % 2 == 0);
        assert(round_half_even(b, 2) == 0x10_0000_0000_0000);
    }
}

/// From 1 KiB up to 2^53 bytes, `format_size` prints the size divided by
/// its unit, rounded to two decimals: within 0.005 of the exact quotient,
/// at least 1.00, and at most 1024.00 in KB and MB.
pub proof fn law_format_size_rounding(bytes: u64)
    requires
        KIB <= bytes <= 0x20_0000_0000_0000,
    ensures
        ({
            let d = size_unit(bytes);
            let n = round_half_even(100 * bytes as nat, d);
            &&& size_text(bytes) == decimal(n / 100) + seq!['.'] + two_digits(n % 100)
                + unit_name(bytes)
            &&& 2 * (100 * bytes) <= 2 * n * d + d
            &&& 2 * n * d <= 2 * (100 * bytes) + d
            &&& 100 <= n
            &&& bytes < GIB ==> n <= 102400
        }),
{
    lemma_as_double_exact(bytes as nat);
    let d = size_unit(bytes);
    let num = 100 * bytes as nat;
    lemma_round_half_even_error(num, d);
    let n = round_half_even(num, d);
    assert(num / d >= 100) by {
        vstd::arithmetic::div_mod::lemma_div_is_ordered(100 * d as int, num as int, d as int);
        vstd::arithmetic::div_mod::lemma_div_multiples_vanish(100, d as int);
        assert(d * 100 == 100 * d);
    }
    if bytes < GIB {
        assert(num < 102400 * d);
        assert(num / d < 102400) by {
            lemma_fundamental_div_mod(num as int, d as int);
            assert(num / d < 102400) by (nonlinear_arith)
                requires
                    num == d * (num / d) + num % d,
                    num % d >= 0,
                    num < 102400 * d,
                    d > 0,
            ;
        }
    }
}

/// `num / den` rounded half to even, computed.
fn round_half_even_u128(num: u128, den: u128) -> (r: u128)
    requires
        den > 0,
        num < u128::MAX,
    ensures
        r == round_half_even(num as nat, den as nat),
{
    let q = num / den;
    let r = num % den;
    assert(r < den);
    if (r > den - r) || (r == den - r && q % 2 == 1) {
        assert(q < u128::MAX) by {
            lemma_fundamental_div_mod(num as int, den as int);
            assert(den * q <= num) by (nonlinear_arith)
                requires
                    den * q + r == num,
                    r >= 0,
            ;
            assert(q <= den * q) by (nonlinear_arith)
                requires
                    den >= 1,
                    q >= 0,
            ;
        }
        q + 1
    } else {
        q
    }
}

/// `b as f64`, as an exact integer.
pub fn double_of(b: u64) -> (r: u128)
    ensures
        r == as_double(b as nat),
        r <= 0x2_0000_0000_0000_0000,
{
    let mut u: u64 = 1;
    let mut m: u64 = b;
    while m >= 0x20_0000_0000_0000
        invariant
            1 <= u <= 4096,
            u * m <= b,
            m == b / u,
            double_ulp(b as nat) == u * double_ulp(m as nat),
        decreases m,
    {
        let ghost old_u = u;
        let ghost old_m = m;
        assert(u <= 2047) by (nonlinear_arith)
            requires
                u * m <= b,
                m >= 0x20_0000_0000_0000,
                b <= u64::MAX,
        ;
        proof {
            lemma_div_denominator(b as int, u as int, 2);
        }
        m = m / 2;
        u = u * 2;
        proof {
            assert(double_ulp(old_m as nat) == 2 * double_ulp(m as nat));
            assert(double_ulp(b as nat) == u * double_ulp(m as nat)) by (nonlinear_arith)
                requires
                    double_ulp(b as nat) == old_u * double_ulp(old_m as nat),
                    double_ulp(old_m as nat) == 2 * double_ulp(m as nat),
                    u == old_u * 2,
            ;
            lemma_fundamental_div_mod(b as int, u as int);
            assert(u * m <= b) by (nonlinear_arith)
                requires
                    u * m + (b as int) % (u as int) == b,
                    (b as int) % (u as int) >= 0,
            ;
        }
    }
    assert(double_ulp(m as nat) == 1);
    assert(double_ulp(b as nat) == u) by (nonlinear_arith)
        requires
            double_ulp(b as nat) == u * double_ulp(m as nat),
            double_ulp(m as nat) == 1,
    ;
    let rounded = round_half_even_u128(b as u128, u as u128);
    assert(rounded <= 0x20_0000_0000_0000);
    assert(rounded * u <= 0x20_0000_0000_0000 * 4096) by (nonlinear_arith)
        requires
            rounded <= 0x20_0000_0000_0000,
            u <= 4096,
    ;
    rounded * (u as u128)
}

/// Appends `num / den` written with two decimals.
fn push_fixed2(s: &mut String, num: u128, den: u128)
    requires
        den > 0,
        num <= 0x2_0000_0000_0000_0000,
    ensures
        final(s)@ == old(s)@ + fixed2(num as nat, den as nat),
{
    let n = round_half_even_u128(100 * num, den);
    push_decimal(s, n / 100);
    push_char(s, '.');
    let frac = (n % 100) as u64;
    push_char(s, digit_to_char(frac / 10));
    push_char(s, digit_to_char(frac % 10));
}

/// Human-readable size with binary units: `"{:.2} GB"`, `"{:.2} MB"`,
/// `"{:.2} KB"` of the size as a binary64, or `"{bytes} B"` below 1 KiB.
pub fn format_size(bytes: u64) -> (s: String)
    ensures
        s@ == size_text(bytes),
{
    let mut s = String::new();
    if bytes >= GIB {
        push_fixed2(&mut s, double_of(bytes), GIB as u128);
        s.append(" GB");
    } else if bytes >= MIB {
        push_fixed2(&mut s, double_of(bytes), MIB as u128);
        s.append(" MB");
    } else if bytes >= KIB {
        push_fixed2(&mut s, double_of(bytes), KIB as u128);
        s.append(" KB");
    } else {
        push_decimal(&mut s, bytes as u128);
        s.append(" B");
    }
    s
}

// ---------------------------------------------------------------------------
// Magnet links
// ---------------------------------------------------------------------------

/// Bytes that stay as they are in a URI component.
pub open spec fn is_unreserved(b: u8) -> bool {
    ||| 97 <= b <= 122
    ||| 65 <= b <= 90
    ||| 48 <= b <= 57
    ||| b == 45
    ||| b == 95
    ||| b == 46
    ||| b == 126
}

/// Upper-case hexadecimal digit of `d < 16`.
pub open spec fn hex_upper(d: nat) -> char {
    if d < 10 {
        digit_char(d)
    } else {
        ((d + 55) as u8) as char
    }
}

/// Percent-encoding of one byte.
pub open spec fn percent_byte(b: u8) -> Seq<char> {
    if is_unreserved(b) {
        seq![b as char]
    } else {
        seq!['%', hex_upper((b / 16) as nat), hex_upper((b % 16) as nat)]
    }
}

/// Percent-encoding of a byte string.
pub open spec fn percent_encode(bs: Seq<u8>) -> Seq<char>
    decreases bs.len(),
{
    if bs.len() == 0 {
        Seq::empty()
    } else {
        percent_encode(bs.drop_last()) + percent_byte(bs.last())
    }
}

/// `&tr=<t>` for each tracker, in order.
pub open spec fn tracker_params(ts: Seq<Seq<char>>) -> Seq<char>
    decreases ts.len(),
{
    if ts.len() == 0 {
        Seq::empty()
    } else {
        tracker_params(ts.drop_last()) + "&tr="@ + ts.last()
    }
}

/// The pre-encoded trackers as character sequences.
pub open spec fn pre_encoded_trackers() -> Seq<Seq<char>> {
    PRE_ENCODED_TRACKERS@.map_values(|t: &str| t@)
}

/// The magnet link for a torrent: its info hash, its percent-encoded
/// UTF-8 name, and the fixed tracker list.
pub open spec fn magnet_link(info_hash: Seq<char>, name: Seq<char>) -> Seq<char> {
    "magnet:?xt=urn:btih:"@ + info_hash + "&dn="@ + percent_encode(encode_utf8(name))
        + tracker_params(pre_encoded_trackers())
}

fn hex_digit(d: u8) -> (c: char)
    requires
        d < 16,
    ensures
        c == hex_upper(d as nat),
{
    if d < 10 {
        digit_to_char(d as u64)
    } else {
        (d + 55) as char
    }
}

/// Appends the percent-encoding of one byte.
fn push_percent_byte(s: &mut String, b: u8)
    ensures
        final(s)@ == old(s)@ + percent_byte(b),
{
    if (97 <= b && b <= 122) || (65 <= b && b <= 90) || (48 <= b && b <= 57) || b == 45 || b
        == 95 || b == 46 || b == 126 {
        push_char(s, b as char);
    } else {
        push_char(s, '%');
        push_char(s, hex_digit(b / 16));
        push_char(s, hex_digit(b % 16));
    }
}

/// Builds `magnet:?xt=urn:btih:<hash>&dn=<name>` with the name's UTF-8
/// bytes percent-encoded and `&tr=` parameters for every pre-encoded tracker.
pub fn build_magnet_link(info_hash: &str, name: &str) -> (magnet: String)
    ensures
        magnet@ == magnet_link(info_hash@, name@),
{
    let mut magnet = String::new();
    magnet.append("magnet:?xt=urn:btih:");
    magnet.append(info_hash);
    magnet.append("&dn=");
    let ghost head = magnet@;
    let bytes = name.as_bytes();
    let mut i: usize = 0;
    while i < bytes.len()
        invariant
            i <= bytes@.len(),
            bytes@ == encode_utf8(name@),
            magnet@ == head + percent_encode(bytes@.take(i as int)),
        decreases bytes@.len() - i,
    {
        push_percent_byte(&mut magnet, bytes[i]);
        assert(bytes@.take(i + 1).drop_last() == bytes@.take(i as int));
        i = i + 1;
    }
    assert(bytes@.take(i as int) == bytes@);
    let ghost body = magnet@;
    let mut t: usize = 0;
    while t < 18
        invariant
            t <= 18,
            magnet@ == body + tracker_params(pre_encoded_trackers().take(t as int)),
        decreases 18 - t,
    {
        magnet.append("&tr=");
        magnet.append(PRE_ENCODED_TRACKERS[t]);
        proof {
            assert(pre_encoded_trackers().take(t + 1).drop_last() == pre_encoded_trackers().take(
                t as int,
            ));
            reveal_strlit("&tr=");
        }
        t = t + 1;
    }
    assert(pre_encoded_trackers().take(18) == pre_encoded_trackers());
    proof {
        reveal_strlit("magnet:?xt=urn:btih:");
        reveal_strlit("&dn=");
    }
    magnet
}

/// No space and no square bracket: what a URI component may not hold raw.
pub open spec fn uri_safe(s: Seq<char>) -> bool {
    forall|i: int| 0 <= i < s.len() ==> #[trigger] s[i] != ' ' && s[i] != '[' && s[i] != ']'
}

proof fn lemma_uri_safe_concat(a: Seq<char>, b: Seq<char>)
    requires
        uri_safe(a),
        uri_safe(b),
    ensures
        uri_safe(a + b),
{
    assert forall|i: int| 0 <= i < (a + b).len() implies #[trigger] (a + b)[i] != ' ' && (a
        + b)[i] != '[' && (a + b)[i] != ']' by {
        if i < a.len() {
            assert((a + b)[i] == a[i]);
        } else {
            assert((a + b)[i] == b[i - a.len()]);
        }
    }
}

/// Value of an upper-case hexadecimal digit.
pub open spec fn hex_value(c: char) -> nat {
    if '0' <= c <= '9' {
        (c as nat - 48) as nat
    } else {
        (c as nat - 55) as nat
    }
}

/// Percent-decoding: `%XY` stands for the byte of hexadecimal value `XY`,
/// any other character for its own code.
pub open spec fn percent_decode(s: Seq<char>) -> Seq<u8>
    decreases s.len(),
{
    if s.len() == 0 {
        Seq::empty()
    } else if s[0] == '%' && s.len() >= 3 {
        seq![(hex_value(s[1]) * 16 + hex_value(s[2])) as u8] + percent_decode(s.skip(3))
    } else {
        seq![s[0] as u8] + percent_decode(s.skip(1))
    }
}

/// Length of the percent-encoding of `bs`: one character per byte kept,
/// three per byte encoded.
pub open spec fn encoded_len(bs: Seq<u8>) -> nat
    decreases bs.len(),
{
    if bs.len() == 0 {
        0
    } else {
        encoded_len(bs.drop_last()) + if is_unreserved(bs.last()) {
            1nat
        } else {
            3nat
        }
    }
}

/// Length of the tracker parameters: `&tr=` and the tracker, for each.
pub open spec fn trackers_len(ts: Seq<Seq<char>>) -> nat
    decreases ts.len(),
{
    if ts.len() == 0 {
        0
    } else {
        trackers_len(ts.drop_last()) + 4 + ts.last().len()
    }
}

proof fn lemma_hex_digit(d: nat)
    requires
        d < 16,
    ensures
        hex_value(hex_upper(d)) == d,
        hex_upper(d) != '%' && hex_upper(d) != '&',
{
    if d < 10 {
        crate::text::lemma_digit_char_value(d);
    } else {
        let b = (d + 55) as u8;
        assert(b as nat == d + 55);
        assert((b as char) as nat == b as nat);
    }
}

/// Percent-encoding from the front: the first byte, then the rest.
proof fn lemma_percent_encode_first(b: u8, bs: Seq<u8>)
    ensures
        percent_encode(seq![b] + bs) == percent_byte(b) + percent_encode(bs),
    decreases bs.len(),
{
    if bs.len() == 0 {
        assert(seq![b] + bs =~= seq![b]);
        assert(seq![b].drop_last() =~= Seq::<u8>::empty());
        assert(percent_encode(Seq::<u8>::empty()) == Seq::<char>::empty());
        assert(percent_byte(b) + Seq::<char>::empty() =~= percent_byte(b));
    } else {
        lemma_percent_encode_first(b, bs.drop_last());
        assert((seq![b] + bs).drop_last() =~= seq![b] + bs.drop_last());
        assert((seq![b] + bs).last() == bs.last());
        assert(percent_byte(b) + percent_encode(bs.drop_last()) + percent_byte(bs.last())
            =~= percent_byte(b) + (percent_encode(bs.drop_last()) + percent_byte(bs.last())));
    }
}

/// Decoding undoes the encoding of one byte.
proof fn lemma_decode_byte(b: u8, rest: Seq<char>)
    ensures
        percent_decode(percent_byte(b) + rest) == seq![b] + percent_decode(rest),
{
    let e = percent_byte(b) + rest;
    if is_unreserved(b) {
        assert((b as char) as nat == b as nat);
        assert(e[0] == b as char);
        assert(e.skip(1) =~= rest);
        assert((e[0] as u8) == b);
    } else {
        lemma_hex_digit((b / 16) as nat);
        lemma_hex_digit((b % 16) as nat);
        assert(e[0] == '%');
        assert(e[1] == hex_upper((b / 16) as nat));
        assert(e[2] == hex_upper((b % 16) as nat));
        assert(e.skip(3) =~= rest);
        assert((b / 16) * 16 + b % 16 == b);
    }
}

/// Decoding the percent-encoding of bytes gives the bytes back.
pub proof fn law_percent_decode_encode(bs: Seq<u8>)
    ensures
        percent_decode(percent_encode(bs)) == bs,
    decreases bs.len(),
{
    if bs.len() > 0 {
        let rest = bs.skip(1);
        assert(bs =~= seq![bs[0]] + rest);
        lemma_percent_encode_first(bs[0], rest);
        lemma_decode_byte(bs[0], percent_encode(rest));
        law_percent_decode_encode(rest);
        assert(seq![bs[0]] + rest =~= bs);
    } else {
        assert(percent_encode(bs) == Seq::<char>::empty());
        assert(bs =~= Seq::<u8>::empty());
    }
}

/// No `&` in the text: a URI parameter's value does not run into the next.
pub open spec fn no_ampersand(s: Seq<char>) -> bool {
    forall|i: int| 0 <= i < s.len() ==> #[trigger] s[i] != '&'
}

/// Percent-encoding holds no `&`, and has one or three characters per byte.
pub proof fn law_percent_encoding_shape(bs: Seq<u8>)
    ensures
        no_ampersand(percent_encode(bs)),
        percent_encode(bs).len() == encoded_len(bs),
    decreases bs.len(),
{
    if bs.len() > 0 {
        law_percent_encoding_shape(bs.drop_last());
        let b = bs.last();
        let a = percent_encode(bs.drop_last());
        let c = percent_byte(b);
        if !is_unreserved(b) {
            lemma_hex_digit((b / 16) as nat);
            lemma_hex_digit((b % 16) as nat);
        }
        assert(no_ampersand(c));
        assert forall|i: int| 0 <= i < (a + c).len() implies #[trigger] (a + c)[i] != '&' by {
            if i < a.len() {
                assert((a + c)[i] == a[i]);
            } else {
                assert((a + c)[i] == c[i - a.len()]);
            }
        }
    }
}

/// The name in a magnet link decodes back to the name's UTF-8 bytes: the
/// link is its head, the percent-encoded name (which holds no `&`, so that
/// the `dn` parameter ends at the first `&tr=`), and the trackers.
pub proof fn law_magnet_name_decodes(info_hash: Seq<char>, name: Seq<char>)
    ensures
        ({
            let dn = percent_encode(encode_utf8(name));
            &&& magnet_link(info_hash, name) == "magnet:?xt=urn:btih:"@ + info_hash + "&dn="@ + dn
                + tracker_params(pre_encoded_trackers())
            &&& no_ampersand(dn)
            &&& percent_decode(dn) == encode_utf8(name)
        }),
{
    law_percent_encoding_shape(encode_utf8(name));
    law_percent_decode_encode(encode_utf8(name));
}

proof fn lemma_trackers_len(ts: Seq<Seq<char>>)
    ensures
        tracker_params(ts).len() == trackers_len(ts),
    decreases ts.len(),
{
    if ts.len() > 0 {
        lemma_trackers_len(ts.drop_last());
        reveal_strlit("&tr=");
    }
}

/// The length of a magnet link: 24 characters of head and `&dn=`, the info
/// hash, one or three characters per byte of the name, and `&tr=` with each
/// tracker.
pub proof fn law_magnet_length(info_hash: Seq<char>, name: Seq<char>)
    ensures
        magnet_link(info_hash, name).len() == 24 + info_hash.len() + encoded_len(encode_utf8(name))
            + trackers_len(pre_encoded_trackers()),
{
    reveal_strlit("magnet:?xt=urn:btih:");
    reveal_strlit("&dn=");
    law_percent_encoding_shape(encode_utf8(name));
    lemma_trackers_len(pre_encoded_trackers());
}

/// The tracker parameters from the front: the first tracker, then the rest.
proof fn lemma_tracker_params_first(ts: Seq<Seq<char>>)
    requires
        ts.len() > 0,
    ensures
        tracker_params(ts) == "&tr="@ + ts[0] + tracker_params(ts.skip(1)),
    decreases ts.len(),
{
    if ts.len() == 1 {
        assert(ts.drop_last() =~= Seq::<Seq<char>>::empty());
        assert(ts.skip(1) =~= Seq::<Seq<char>>::empty());
        assert(tracker_params(Seq::<Seq<char>>::empty()) == Seq::<char>::empty());
        assert(Seq::<char>::empty() + "&tr="@ + ts[0] =~= "&tr="@ + ts[0] + Seq::<char>::empty());
    } else {
        lemma_tracker_params_first(ts.drop_last());
        assert(ts.drop_last().skip(1) =~= ts.skip(1).drop_last());
        assert(ts.skip(1).last() == ts.last());
        assert(ts.drop_last()[0] == ts[0]);
        let a = tracker_params(ts.drop_last().skip(1));
        assert("&tr="@ + ts[0] + a + "&tr="@ + ts.last() =~= "&tr="@ + ts[0] + (a + "&tr="@
            + ts.last()));
    }
}

/// The trackers of every magnet link hold no `&`.
proof fn lemma_trackers_no_ampersand()
    ensures
        forall|i: int|
            0 <= i < pre_encoded_trackers().len() ==> no_ampersand(
                #[trigger] pre_encoded_trackers()[i],
            ),
{
    reveal_strlit("udp%3A%2F%2Ftracker.opentrackr.org%3A1337%2Fannounce");
    reveal_strlit("udp%3A%2F%2Fopen.stealth.si%3A80%2Fannounce");
    reveal_strlit("udp%3A%2F%2Ftracker.torrent.eu.org%3A451%2Fannounce");
    reveal_strlit("udp%3A%2F%2Fopen.demonii.com%3A1337%2Fannounce");
    reveal_strlit("udp%3A%2F%2Ftracker.therarbg.to%3A6969%2Fannounce");
    reveal_strlit("udp%3A%2F%2Ftracker.dler.org%3A6969%2Fannounce");
    reveal_strlit("udp%3A%2F%2Fexplodie.org%3A6969%2Fannounce");
    reveal_strlit("udp%3A%2F%2Fzer0day.ch%3A1337%2Fannounce");
    reveal_strlit("udp%3A%2F%2Ftracker.qu.ax%3A6969%2Fannounce");
    reveal_strlit("https%3A%2F%2Ftracker.pmman.tech%3A443%2Fannounce");
    reveal_strlit("https%3A%2F%2Ftracker.tamersunion.org%3A443%2Fannounce");
    reveal_strlit("https%3A%2F%2Ftracker.nekobt.to%2Fapi%2Ftracker%2Fpublic%2Fannounce");
    reveal_strlit("http%3A%2F%2Fnyaa.tracker.wf%3A7777%2Fannounce");
    reveal_strlit("https%3A%2F%2Ftracker.nekomi.cn%3A443%2Fannounce");
    reveal_strlit("https%3A%2F%2F1337.abcvg.info%3A443%2Fannounce");
    reveal_strlit("https%3A%2F%2Ftracker.leechshield.link%3A443%2Fannounce");
    reveal_strlit("https%3A%2F%2Ftracker.7471.top%3A443%2Fannounce");
    reveal_strlit("https%3A%2F%2Ftracker.foreverpirates.co%3A443%2Fannounce");
    let ts = pre_encoded_trackers();
    assert forall|i: int| 0 <= i < ts.len() implies no_ampersand(#[trigger] ts[i]) by {
        assert(ts[i] == PRE_ENCODED_TRACKERS@[i]@);
    }
}

/// From just after a `&tr=` that opens `tracker_params(ts)` at `pos`,
/// splitting on `&tr=` gives the trackers back.
proof fn lemma_split_trackers(s: Seq<char>, pos: int, ts: Seq<Seq<char>>)
    requires
        0 <= pos,
        ts.len() > 0,
        s.len() == pos + tracker_params(ts).len(),
        s.skip(pos) == tracker_params(ts),
        forall|i: int| 0 <= i < ts.len() ==> no_ampersand(#[trigger] ts[i]),
    ensures
        split_from(s, "&tr="@, pos + 4) == ts,
    decreases ts.len(),
{
    reveal_strlit("&tr=");
    let p = "&tr="@;
    lemma_tracker_params_first(ts);
    let t0 = ts[0];
    let rest = tracker_params(ts.skip(1));
    let q = pos + 4;
    let e = q + t0.len();
    assert(no_ampersand(t0));
    assert forall|k: int| 0 <= k < t0.len() implies s[q + k] == t0[k] by {
        assert(s[q + k] == s.skip(pos)[k + 4]);
        assert(("&tr="@ + t0 + rest)[k + 4] == t0[k]);
    }
    assert forall|k: int| 0 <= k < rest.len() implies s[e + k] == rest[k] by {
        assert(s[e + k] == s.skip(pos)[4 + t0.len() + k]);
        assert(("&tr="@ + t0 + rest)[4 + t0.len() + k] == rest[k]);
    }
    assert forall|j: int| q <= j < e implies !occurs_at(s, p, j) by {
        if occurs_at(s, p, j) {
            assert(s.subrange(j, j + 4)[0] == s[j]);
            assert(s[j] == t0[j - q]);
        }
    }
    crate::text::lemma_find_from(s, p, q);
    if ts.len() == 1 {
        assert(ts.skip(1) =~= Seq::<Seq<char>>::empty());
        assert(rest == Seq::<char>::empty());
        assert(s.len() == e);
        assert(find_from(s, p, q) is None) by {
            if let Some(i) = find_from(s, p, q) {
                assert(i < e);
            }
        }
        assert(s.subrange(q, s.len() as int) =~= t0);
        assert(ts =~= seq![t0]);
    } else {
        lemma_tracker_params_first(ts.skip(1));
        assert(rest.take(4) =~= p);
        assert(occurs_at(s, p, e)) by {
            assert forall|k: int| 0 <= k < 4 implies s.subrange(e, e + 4)[k] == p[k] by {
                assert(s[e + k] == rest[k]);
                assert(rest[k] == rest.take(4)[k]);
            }
            assert(s.subrange(e, e + 4) =~= p);
        }
        assert(find_from(s, p, q) == Some(e)) by {
            if let Some(i) = find_from(s, p, q) {
                assert(i == e);
            }
        }
        assert(s.subrange(q, e) =~= t0);
        let ts1 = ts.skip(1);
        assert(s.skip(e) =~= rest);
        assert forall|i: int| 0 <= i < ts1.len() implies no_ampersand(#[trigger] ts1[i]) by {
            assert(ts1[i] == ts[i + 1]);
        }
        lemma_split_trackers(s, e, ts1);
        assert(ts =~= seq![t0] + ts1);
    }
}

/// Splitting a magnet link at `&tr=` gives, after its head, exactly the
/// trackers, in order, when the info hash holds no `&tr=`.
pub proof fn law_magnet_split_trackers(info_hash: Seq<char>, name: Seq<char>)
    requires
        !crate::text::contains(info_hash, "&tr="@),
    ensures
        split(magnet_link(info_hash, name), "&tr="@).skip(1) == pre_encoded_trackers(),
{
    reveal_strlit("&tr=");
    reveal_strlit("magnet:?xt=urn:btih:");
    reveal_strlit("&dn=");
    let p = "&tr="@;
    let a = "magnet:?xt=urn:btih:"@;
    let d = "&dn="@;
    let dn = percent_encode(encode_utf8(name));
    let ts = pre_encoded_trackers();
    law_percent_encoding_shape(encode_utf8(name));
    lemma_trackers_no_ampersand();
    let head = a + info_hash + d + dn;
    let m = magnet_link(info_hash, name);
    assert(m == head + tracker_params(ts));
    let n = head.len() as int;
    let hl = info_hash.len() as int;
    assert(ts.len() == 18);
    lemma_tracker_params_first(ts);
    assert(m.skip(n) =~= tracker_params(ts));
    lemma_split_trackers(m, n, ts);
    crate::text::lemma_find(info_hash, p);
    assert forall|k: int| 0 <= k < n implies m[k] == head[k] by {}
    // No `&tr=` starts inside the head.
    assert forall|j: int| 0 <= j < n implies !occurs_at(m, p, j) by {
        if occurs_at(m, p, j) {
            assert(m.subrange(j, j + 4) == p);
            assert(m[j] == p[0]);
            assert(m[j + 1] == p[1]);
            assert(m[j + 2] == p[2]);
            assert(m[j + 3] == p[3]);
            if j < 20 {
                assert(m[j] == a[j]);
            } else if j < 20 + hl {
                if j + 4 <= 20 + hl {
                    assert(info_hash.subrange(j - 20, j - 20 + 4) =~= m.subrange(j, j + 4));
                    assert(occurs_at(info_hash, p, j - 20));
                } else {
                    let k = 20 + hl;
                    assert(m[k] == d[0]);
                    assert(m[k] == '&');
                }
            } else if j < 24 + hl {
                assert(m[j] == d[j - 20 - hl]);
                if j == 20 + hl {
                    assert(m[j + 1] == d[1]);
                }
            } else {
                assert(m[j] == dn[j - 24 - hl]);
            }
        }
    }
    crate::text::lemma_find_from(m, p, 0);
    assert(occurs_at(m, p, n)) by {
        assert(tracker_params(ts).take(4) =~= p);
        assert forall|k: int| 0 <= k < 4 implies m.subrange(n, n + 4)[k] == p[k] by {
            assert(m[n + k] == tracker_params(ts)[k]);
        }
        assert(m.subrange(n, n + 4) =~= p);
    }
    assert(find_from(m, p, 0) == Some(n)) by {
        if let Some(i) = find_from(m, p, 0) {
            assert(i == n);
        }
    }
    assert(split(m, p) == seq![m.subrange(0, n)] + split_from(m, p, n + 4));
    assert((seq![m.subrange(0, n)] + ts).skip(1) =~= ts);
}

/// Located as a reader finds it, the name of a magnet link decodes back to
/// the name's UTF-8 bytes: the text after the first `&dn=` up to the first
/// `&tr=` after it, when the info hash holds no `&`.
pub proof fn law_magnet_dn_field(info_hash: Seq<char>, name: Seq<char>)
    requires
        no_ampersand(info_hash),
    ensures
        ({
            let m = magnet_link(info_hash, name);
            &&& crate::text::find(m, "&dn="@) matches Some(k)
            &&& find_from(m, "&tr="@, k + 4) matches Some(j)
            &&& k + 4 <= j
            &&& percent_decode(m.subrange(k + 4, j)) == encode_utf8(name)
        }),
{
    reveal_strlit("&tr=");
    reveal_strlit("&dn=");
    reveal_strlit("magnet:?xt=urn:btih:");
    let a = "magnet:?xt=urn:btih:"@;
    let d = "&dn="@;
    let t = "&tr="@;
    let dn = percent_encode(encode_utf8(name));
    let ts = pre_encoded_trackers();
    law_percent_encoding_shape(encode_utf8(name));
    law_percent_decode_encode(encode_utf8(name));
    lemma_tracker_params_first(ts);
    let m = magnet_link(info_hash, name);
    let tp = tracker_params(ts);
    assert(m == a + info_hash + d + dn + tp);
    let hl = info_hash.len() as int;
    let k = 20 + hl;
    let i = k + 4;
    let j = i + dn.len();
    assert forall|x: int| 0 <= x < k implies m[x] != '&' by {
        if x < 20 {
            assert(m[x] == a[x]);
        } else {
            assert(m[x] == info_hash[x - 20]);
        }
    }
    assert forall|x: int| i <= x < j implies m[x] == dn[x - i] by {}
    assert forall|x: int| 0 <= x < tp.len() implies m[j + x] == tp[x] by {}
    // The first `&dn=` is the one after the info hash.
    crate::text::lemma_find(m, d);
    assert(occurs_at(m, d, k)) by {
        assert(m.subrange(k, k + 4) =~= d);
    }
    assert forall|x: int| 0 <= x < k implies !occurs_at(m, d, x) by {
        if occurs_at(m, d, x) {
            assert(m.subrange(x, x + 4)[0] == m[x]);
        }
    }
    assert(crate::text::find(m, d) == Some(k)) by {
        if let Some(y) = crate::text::find(m, d) {
            assert(y == k);
        }
    }
    // The first `&tr=` after it ends the encoded name.
    crate::text::lemma_find_from(m, t, i);
    assert(occurs_at(m, t, j)) by {
        assert(tp.take(4) =~= t);
        assert forall|x: int| 0 <= x < 4 implies m.subrange(j, j + 4)[x] == t[x] by {
            assert(m[j + x] == tp[x]);
            assert(tp[x] == tp.take(4)[x]);
        }
        assert(m.subrange(j, j + 4) =~= t);
    }
    assert forall|x: int| i <= x < j implies !occurs_at(m, t, x) by {
        if occurs_at(m, t, x) {
            assert(m.subrange(x, x + 4)[0] == m[x]);
            assert(m[x] == dn[x - i]);
        }
    }
    assert(find_from(m, t, i) == Some(j)) by {
        if let Some(y) = find_from(m, t, i) {
            assert(y == j);
        }
    }
    assert(m.subrange(i, j) =~= dn);
}

/// A character that may stand raw in a percent-encoded URI component: an
/// ASCII letter or digit, or one of `-` `_` `.` `~`.
pub open spec fn uri_raw_char(c: char) -> bool {
    ||| 'a' <= c <= 'z'
    ||| 'A' <= c <= 'Z'
    ||| '0' <= c <= '9'
    ||| c == '-'
    ||| c == '_'
    ||| c == '.'
    ||| c == '~'
}

/// An upper-case hexadecimal digit.
pub open spec fn hex_char(c: char) -> bool {
    '0' <= c <= '9' || 'A' <= c <= 'F'
}

/// One byte's encoding: a byte whose character may stand raw is that
/// character; every other byte is `%` and two upper-case hexadecimal digits
/// of its value.
pub proof fn law_percent_byte_shape(b: u8)
    ensures
        uri_raw_char(b as char) ==> percent_encode(seq![b]) == seq![b as char],
        !uri_raw_char(b as char) ==> {
            let e = percent_encode(seq![b]);
            &&& e.len() == 3
            &&& e[0] == '%'
            &&& hex_char(e[1]) && hex_char(e[2])
            &&& hex_value(e[1]) * 16 + hex_value(e[2]) == b
        },
{
    assert(seq![b].drop_last() =~= Seq::<u8>::empty());
    assert(seq![b].last() == b);
    assert(percent_encode(Seq::<u8>::empty()) == Seq::<char>::empty());
    assert(percent_encode(seq![b]) == percent_encode(Seq::<u8>::empty()) + percent_byte(b));
    assert(percent_encode(seq![b]) =~= percent_byte(b));
    assert((b as char) as nat == b as nat);
    if !is_unreserved(b) {
        lemma_hex_digit((b / 16) as nat);
        lemma_hex_digit((b % 16) as nat);
        lemma_hex_char((b / 16) as nat);
        lemma_hex_char((b % 16) as nat);
    }
}

proof fn lemma_hex_char(d: nat)
    requires
        d < 16,
    ensures
        hex_char(hex_upper(d)),
{
    if d < 10 {
        crate::text::lemma_digit_char_value(d);
    } else {
        let b = (d + 55) as u8;
        assert((b as char) as nat == b as nat);
    }
}

/// Every character of a percent-encoding may stand raw in a URI component,
/// or is `%` or a hexadecimal digit: in particular it holds no `#`, `?`,
/// `&`, `=`, `+`, space or bracket.
pub proof fn law_percent_encoding_charset(bs: Seq<u8>)
    ensures
        forall|i: int|
            0 <= i < percent_encode(bs).len() ==> {
                let c = #[trigger] percent_encode(bs)[i];
                uri_raw_char(c) || c == '%' || hex_char(c)
            },
    decreases bs.len(),
{
    if bs.len() > 0 {
        law_percent_encoding_charset(bs.drop_last());
        let b = bs.last();
        let a = percent_encode(bs.drop_last());
        let c = percent_byte(b);
        assert((b as char) as nat == b as nat);
        if !is_unreserved(b) {
            lemma_hex_char((b / 16) as nat);
            lemma_hex_char((b % 16) as nat);
        }
        assert forall|i: int| 0 <= i < (a + c).len() implies {
            let x = #[trigger] (a + c)[i];
            uri_raw_char(x) || x == '%' || hex_char(x)
        } by {
            if i < a.len() {
                assert((a + c)[i] == a[i]);
            } else {
                assert((a + c)[i] == c[i - a.len()]);
            }
        }
    }
}

/// Percent-encoding leaves no space and no square bracket.
pub proof fn law_percent_encoding_is_uri_safe(bs: Seq<u8>)
    ensures
        uri_safe(percent_encode(bs)),
    decreases bs.len(),
{
    if bs.len() > 0 {
        law_percent_encoding_is_uri_safe(bs.drop_last());
        let b = bs.last();
        assert(uri_safe(percent_byte(b))) by {
            if !is_unreserved(b) {
                let hi = (b / 16) as nat;
                let lo = (b % 16) as nat;
                assert(hex_upper(hi) != ' ' && hex_upper(hi) != '[' && hex_upper(hi) != ']');
                assert(hex_upper(lo) != ' ' && hex_upper(lo) != '[' && hex_upper(lo) != ']');
            }
        }
        lemma_uri_safe_concat(percent_encode(bs.drop_last()), percent_byte(b));
    }
}

proof fn lemma_trackers_uri_safe(ts: Seq<Seq<char>>)
    requires
        forall|i: int| 0 <= i < ts.len() ==> uri_safe(#[trigger] ts[i]),
    ensures
        uri_safe(tracker_params(ts)),
    decreases ts.len(),
{
    if ts.len() > 0 {
        lemma_trackers_uri_safe(ts.drop_last());
        reveal_strlit("&tr=");
        lemma_uri_safe_concat(tracker_params(ts.drop_last()), "&tr="@);
        assert(uri_safe(ts[ts.len() - 1]));
        lemma_uri_safe_concat(tracker_params(ts.drop_last()) + "&tr="@, ts.last());
    }
}

/// A magnet link holds no space and no square bracket, whatever the name,
/// as long as the info hash holds none.
pub proof fn law_magnet_link_is_uri_safe(info_hash: Seq<char>, name: Seq<char>)
    requires
        uri_safe(info_hash),
    ensures
        uri_safe(magnet_link(info_hash, name)),
{
    reveal_strlit("magnet:?xt=urn:btih:");
    reveal_strlit("&dn=");
    reveal_strlit("udp%3A%2F%2Ftracker.opentrackr.org%3A1337%2Fannounce");
    reveal_strlit("udp%3A%2F%2Fopen.stealth.si%3A80%2Fannounce");
    reveal_strlit("udp%3A%2F%2Ftracker.torrent.eu.org%3A451%2Fannounce");
    reveal_strlit("udp%3A%2F%2Fopen.demonii.com%3A1337%2Fannounce");
    reveal_strlit("udp%3A%2F%2Ftracker.therarbg.to%3A6969%2Fannounce");
    reveal_strlit("udp%3A%2F%2Ftracker.dler.org%3A6969%2Fannounce");
    reveal_strlit("udp%3A%2F%2Fexplodie.org%3A6969%2Fannounce");
    reveal_strlit("udp%3A%2F%2Fzer0day.ch%3A1337%2Fannounce");
    reveal_strlit("udp%3A%2F%2Ftracker.qu.ax%3A6969%2Fannounce");
    reveal_strlit("https%3A%2F%2Ftracker.pmman.tech%3A443%2Fannounce");
    reveal_strlit("https%3A%2F%2Ftracker.tamersunion.org%3A443%2Fannounce");
    reveal_strlit("https%3A%2F%2Ftracker.nekobt.to%2Fapi%2Ftracker%2Fpublic%2Fannounce");
    reveal_strlit("http%3A%2F%2Fnyaa.tracker.wf%3A7777%2Fannounce");
    reveal_strlit("https%3A%2F%2Ftracker.nekomi.cn%3A443%2Fannounce");
    reveal_strlit("https%3A%2F%2F1337.abcvg.info%3A443%2Fannounce");
    reveal_strlit("https%3A%2F%2Ftracker.leechshield.link%3A443%2Fannounce");
    reveal_strlit("https%3A%2F%2Ftracker.7471.top%3A443%2Fannounce");
    reveal_strlit("https%3A%2F%2Ftracker.foreverpirates.co%3A443%2Fannounce");
    let ts = pre_encoded_trackers();
    assert forall|i: int| 0 <= i < ts.len() implies uri_safe(#[trigger] ts[i]) by {
        assert(ts[i] == PRE_ENCODED_TRACKERS@[i]@);
    }
    lemma_trackers_uri_safe(ts);
    law_percent_encoding_is_uri_safe(encode_utf8(name));
    let a = "magnet:?xt=urn:btih:"@;
    let d = "&dn="@;
    lemma_uri_safe_concat(a, info_hash);
    lemma_uri_safe_concat(a + info_hash, d);
    lemma_uri_safe_concat(a + info_hash + d, percent_encode(encode_utf8(name)));
    lemma_uri_safe_concat(
        a + info_hash + d + percent_encode(encode_utf8(name)),
        tracker_params(ts),
    );
}

/// Every default tracker is an HTTP(S) announce URL.
pub proof fn law_default_trackers_announce()
    ensures
        DEFAULT_HTTPS_TRACKERS@.len() > 0,
        forall|i: int|
            0 <= i < DEFAULT_HTTPS_TRACKERS@.len() ==> {
                let t = (#[trigger] DEFAULT_HTTPS_TRACKERS@[i])@;
                &&& (crate::text::starts_with(t, "http://"@) || crate::text::starts_with(
                    t,
                    "https://"@,
                ))
                &&& t.len() >= 9 && t.skip(t.len() - 9) == "/announce"@
            },
{
    reveal_strlit("http://");
    reveal_strlit("https://");
    reveal_strlit("/announce");
    reveal_strlit("https://tracker.pmman.tech:443/announce");
    reveal_strlit("https://tracker.tamersunion.org:443/announce");
    reveal_strlit("https://tracker.nekobt.to/api/tracker/public/announce");
    reveal_strlit("http://nyaa.tracker.wf:7777/announce");
    reveal_strlit("https://tracker.nekomi.cn:443/announce");
    reveal_strlit("https://1337.abcvg.info:443/announce");
    reveal_strlit("https://tracker.leechshield.link:443/announce");
    reveal_strlit("https://tracker.7471.top:443/announce");
    reveal_strlit("https://tracker.foreverpirates.co:443/announce");
    assert forall|i: int| 0 <= i < DEFAULT_HTTPS_TRACKERS@.len() implies {
        let t = (#[trigger] DEFAULT_HTTPS_TRACKERS@[i])@;
        &&& (crate::text::starts_with(t, "http://"@) || crate::text::starts_with(t, "https://"@))
        &&& t.len() >= 9 && t.skip(t.len() - 9) == "/announce"@
    } by {
        let t = DEFAULT_HTTPS_TRACKERS@[i]@;
        if i == 3 {
            assert(t.take(7) =~= "http://"@);
        } else {
            assert(t.take(8) =~= "https://"@);
        }
        assert(t.skip(t.len() - 9) =~= "/announce"@);
    }
}

// ---------------------------------------------------------------------------
// JSON fields
// ---------------------------------------------------------------------------

/// A JSON value as the field readers see it: a string, a number (with the
/// text JSON writes for it), or anything else.
#[derive(Debug)]
pub enum JsonField {
    Str(String),
    Number(String),
    Other,
}

/// Why a JSON field could not be read.
#[derive(Debug, Clone, Copy, PartialEq, Eq)]
pub enum FieldError {
    /// Neither a non-blank string nor a number.
    ExpectedString,
    /// The text is not an unsigned integer.
    Int(IntErrorKind),
    /// The integer does not fit the target type.
    OutOfRange,
}

impl FieldError {
    /// The message the error is reported with.
    pub open spec fn message_text(self) -> Seq<char> {
        match self {
            FieldError::ExpectedString => "expected string"@,
            FieldError::Int(IntErrorKind::Empty) => "cannot parse integer from empty string"@,
            FieldError::Int(IntErrorKind::InvalidDigit) => "invalid digit found in string"@,
            FieldError::Int(IntErrorKind::PosOverflow) => "number too large to fit in target type"@,
            FieldError::OutOfRange => "out of range integral type conversion attempted"@,
        }
    }

    pub fn message(&self) -> (m: String)
        ensures
            m@ == self.message_text(),
    {
        let mut m = String::new();
        match self {
            FieldError::ExpectedString => m.append("expected string"),
            FieldError::Int(IntErrorKind::Empty) => m.append("cannot parse integer from empty string"),
            FieldError::Int(IntErrorKind::InvalidDigit) => m.append("invalid digit found in string"),
            FieldError::Int(IntErrorKind::PosOverflow) => m.append(
                "number too large to fit in target type",
            ),
            FieldError::OutOfRange => m.append("out of range integral type conversion attempted"),
        }
        m
    }
}

/// The string a field holds: a non-blank string as it is, a number as its text.
pub open spec fn opt_string_field(v: JsonField) -> Option<String> {
    match v {
        JsonField::Str(s) => if is_blank(s@) {
            None
        } else {
            Some(s)
        },
        JsonField::Number(n) => Some(n),
        JsonField::Other => None,
    }
}

/// The string a field holds, or an error when it holds none.
pub open spec fn string_field(v: JsonField) -> Result<String, FieldError> {
    match opt_string_field(v) {
        Some(s) => Ok(s),
        None => Err(FieldError::ExpectedString),
    }
}

/// The unsigned integer a field holds as (trimmed) text.
pub open spec fn u64_field(v: JsonField) -> Result<u64, FieldError> {
    match string_field(v) {
        Err(e) => Err(e),
        Ok(s) => match parse_unsigned(trim(s@), u64::MAX as nat) {
            Ok(n) => Ok(n as u64),
            Err(e) => Err(FieldError::Int(e)),
        },
    }
}

/// A field holding the decimal text of a `u64`, as a string or as a
/// number, reads back as that `u64`.
pub proof fn law_u64_field_reads_decimal(v: JsonField, n: u64)
    requires
        match v {
            JsonField::Str(s) => s@ == decimal(n as nat),
            JsonField::Number(s) => s@ == decimal(n as nat),
            JsonField::Other => false,
        },
    ensures
        u64_field(v) == Ok::<u64, FieldError>(n),
{
    crate::text::law_parse_decimal(n as nat, u64::MAX as nat);
    crate::text::lemma_decimal_digits(n as nat);
}

/// Is the text empty or all whitespace?
pub fn str_is_blank(s: &str) -> (r: bool)
    ensures
        r == is_blank(s@),
{
    let v = str_chars(s);
    let (a, b) = trim_range(&v);
    a == b
}

/// A field read as an optional string: a non-blank string, or a number as text.
pub fn parse_opt_string(v: JsonField) -> (r: Option<String>)
    ensures
        r == opt_string_field(v),
{
    match v {
        JsonField::Str(s) => {
            if str_is_blank(s.as_str()) {
                None
            } else {
                Some(s)
            }
        },
        JsonField::Number(n) => Some(n),
        JsonField::Other => None,
    }
}

/// A field read as a required string.
pub fn parse_string(v: JsonField) -> (r: Result<String, FieldError>)
    ensures
        r == string_field(v),
{
    match parse_opt_string(v) {
        Some(s) => Ok(s),
        None => Err(FieldError::ExpectedString),
    }
}

/// A field read as a `u64` written as text (surrounding whitespace allowed).
pub fn parse_u64(v: JsonField) -> (r: Result<u64, FieldError>)
    ensures
        r == u64_field(v),
{
    let s = parse_string(v)?;
    let chars = str_chars(s.as_str());
    let (a, b) = trim_range(&chars);
    match parse_unsigned_chars(&chars, a, b, u64::MAX) {
        Ok(n) => Ok(n),
        Err(e) => Err(FieldError::Int(e)),
    }
}

/// A field read as a `u32` written as text.
pub fn parse_u32(v: JsonField) -> (r: Result<u32, FieldError>)
    ensures
        r == match u64_field(v) {
            Ok(n) => if n <= u32::MAX {
                Ok(n as u32)
            } else {
                Err(FieldError::OutOfRange)
            },
            Err(e) => Err(e),
        },
{
    let n = parse_u64(v)?;
    if n <= u32::MAX as u64 {
        Ok(n as u32)
    } else {
        Err(FieldError::OutOfRange)
    }
}

} // verus!
