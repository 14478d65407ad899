//! What the indexers' answers become: the Pirate Bay API records selected
//! into torrents, the Nyaa RSS feed parsed into torrents, and the choice of
//! proxy for the HTTP client.

use vstd::prelude::*;
use crate::text::{
    find, find_chars, find_chars_from, find_from, is_blank, str_chars, str_eq, string_of_chars,
};
use crate::text::{
    contains, is_digit, starts_with, parse_unsigned, parse_unsigned_chars, split, split_from, trim, trim_range,
};
use crate::util::{build_magnet_link, magnet_link};
use crate::util::str_is_blank;
use crate::types::Torrent;
use crate::bigdec::{all_digits, dval, pow10};
use crate::binary64::{saturate_u64, scaled_decimal_to_u64, scaled_double_floor};

verus! {

// ---------------------------------------------------------------------------
// XML tags
// ---------------------------------------------------------------------------

/// Does `s` end with `p`?
pub open spec fn ends_with(s: Seq<char>, p: Seq<char>) -> bool {
    p.len() <= s.len() && s.skip(s.len() - p.len()) == p
}

/// The text between the first `start_tag` and the first `end_tag` after it,
/// with a surrounding `<![CDATA[ ... ]]>` removed.
pub open spec fn xml_tag(xml: Seq<char>, start_tag: Seq<char>, end_tag: Seq<char>) -> Option<
    Seq<char>,
> {
    match find(xml, start_tag) {
        None => None,
        Some(i) => {
            let start = i + start_tag.len();
            match find_from(xml, end_tag, start) {
                None => None,
                Some(e) => {
                    let content = xml.subrange(start, e);
                    if starts_with(content, "<![CDATA["@) && ends_with(content, "]]>"@) {
                        Some(content.subrange(9, content.len() - 3))
                    } else {
                        Some(content)
                    }
                },
            }
        },
    }
}

/// `xml_tag` on a character vector, as an index range of `xml`.
pub fn xml_tag_range(xml: &Vec<char>, start_tag: &Vec<char>, end_tag: &Vec<char>) -> (r: Option<
    (usize, usize),
>)
    ensures
        match xml_tag(xml@, start_tag@, end_tag@) {
            None => r is None,
            Some(c) => r matches Some((a, b)) && a <= b <= xml@.len() && xml@.subrange(
                a as int,
                b as int,
            ) == c,
        },
{
    proof {
        crate::text::lemma_find(xml@, start_tag@);
    }
    let i = match find_chars(xml, start_tag) {
        None => return None,
        Some(i) => i,
    };
    let xml_len = xml.len();
    assert(i + start_tag@.len() <= xml_len);
    let start = i + start_tag.len();
    proof {
        crate::text::lemma_find_from(xml@, end_tag@, start as int);
    }
    let e = match find_chars_from(xml, end_tag, start) {
        None => return None,
        Some(e) => e,
    };
    let ghost content = xml@.subrange(start as int, e as int);
    let n = e - start;
    if n >= 12 && xml[start] == '<' && xml[start + 1] == '!' && xml[start + 2] == '['
        && xml[start + 3] == 'C' && xml[start + 4] == 'D' && xml[start + 5] == 'A' && xml[start
        + 6] == 'T' && xml[start + 7] == 'A' && xml[start + 8] == '[' && xml[e - 3] == ']'
        && xml[e - 2] == ']' && xml[e - 1] == '>' {
        proof {
            reveal_strlit("<![CDATA[");
            reveal_strlit("]]>");
            assert(content.take(9) =~= "<![CDATA["@);
            assert(content.skip(content.len() - 3) =~= "]]>"@);
            assert(xml@.subrange(start + 9, e - 3) =~= content.subrange(9, content.len() - 3));
        }
        Some((start + 9, e - 3))
    } else {
        proof {
            reveal_strlit("<![CDATA[");
            reveal_strlit("]]>");
            if starts_with(content, "<![CDATA["@) && ends_with(content, "]]>"@) {
                assert(content.take(9)[8] == '[');
                assert(content.skip(content.len() - 3)[0] == ']');
                if n < 12 {
                    let j = content.len() - 3;
                    assert(0 <= j < 9);
                    assert(content[j] == ']');
                    assert(content.take(9)[j] == content[j]);
                    assert(false);
                }
                assert(content.take(9)[0] == xml@[start as int]);
                assert(content.take(9)[1] == xml@[start + 1]);
                assert(content.take(9)[2] == xml@[start + 2]);
                assert(content.take(9)[3] == xml@[start + 3]);
                assert(content.take(9)[4] == xml@[start + 4]);
                assert(content.take(9)[5] == xml@[start + 5]);
                assert(content.take(9)[6] == xml@[start + 6]);
                assert(content.take(9)[7] == xml@[start + 7]);
                assert(content.take(9)[8] == xml@[start + 8]);
                assert(content.skip(content.len() - 3)[0] == xml@[e - 3]);
                assert(content.skip(content.len() - 3)[1] == xml@[e - 2]);
                assert(content.skip(content.len() - 3)[2] == xml@[e - 1]);
                assert(false);
            }
        }
        Some((start, e))
    }
}

/// The content of the first `start_tag ... end_tag` element of `xml`, with a
/// CDATA wrapper removed; `None` when either tag is missing.
pub fn extract_xml_tag(xml: &str, start_tag: &str, end_tag: &str) -> (r: Option<String>)
    ensures
        match xml_tag(xml@, start_tag@, end_tag@) {
            None => r is None,
            Some(c) => r matches Some(s) && s@ == c,
        },
{
    let x = str_chars(xml);
    let st = str_chars(start_tag);
    let et = str_chars(end_tag);
    match xml_tag_range(&x, &st, &et) {
        None => None,
        Some((a, b)) => Some(string_of_chars(&x, a, b)),
    }
}

// ---------------------------------------------------------------------------
// Trying requests again
// ---------------------------------------------------------------------------

/// How a request is tried again: at most `attempts` tries, with a pause of
/// `pause_ms` after each failed one.
#[derive(Debug, Clone, Copy, PartialEq, Eq, Structural)]
pub struct RetryPolicy {
    pub attempts: u32,
    pub pause_ms: u64,
}

/// What to do after a failed try.
#[derive(Debug, Clone, Copy, PartialEq, Eq, Structural)]
pub enum RetryStep {
    /// Pause, then try again.
    Again { pause_ms: u64 },
    /// Pause, then give up.
    GiveUp { pause_ms: u64 },
}

/// The Nyaa search: three tries, 300 ms apart.
pub fn nyaa_retry() -> (p: RetryPolicy)
    ensures
        p == (RetryPolicy { attempts: 3, pause_ms: 300 }),
{
    RetryPolicy { attempts: 3, pause_ms: 300 }
}

/// The `.torrent` file of a download: three tries, 500 ms apart, before
/// falling back on the magnet link.
pub fn torrent_file_retry() -> (p: RetryPolicy)
    ensures
        p == (RetryPolicy { attempts: 3, pause_ms: 500 }),
{
    RetryPolicy { attempts: 3, pause_ms: 500 }
}

/// The step after the `failures`-th failed try: another try while tries are
/// left, with the policy's pause either way.
pub fn after_failure(p: RetryPolicy, failures: u32) -> (r: RetryStep)
    ensures
        r == if failures < p.attempts {
            RetryStep::Again { pause_ms: p.pause_ms }
        } else {
            RetryStep::GiveUp { pause_ms: p.pause_ms }
        },
{
    if failures < p.attempts {
        RetryStep::Again { pause_ms: p.pause_ms }
    } else {
        RetryStep::GiveUp { pause_ms: p.pause_ms }
    }
}

// ---------------------------------------------------------------------------
// Sizes in the Nyaa feed
// ---------------------------------------------------------------------------

/// A character of the number at the start of a size: a digit or a point.
pub open spec fn is_number_char(c: char) -> bool {
    is_digit(c) || c == '.'
}

/// Length of the longest prefix of `s` made of digits and points.
pub open spec fn number_prefix_len(s: Seq<char>) -> nat
    decreases s.len(),
{
    if s.len() > 0 && is_number_char(s[0]) {
        1 + number_prefix_len(s.drop_first())
    } else {
        0
    }
}

/// The digits of `t`, one value `0..=9` per byte.
pub open spec fn digit_bytes(t: Seq<char>) -> Seq<u8> {
    Seq::new(t.len(), |i: int| (t[i] as nat - '0' as nat) as u8)
}

/// How far a size's unit shifts its number: `2^40` for terabytes down to
/// `2^10` for kilobytes, by the first unit name found anywhere in `s`.
pub open spec fn size_shift(s: Seq<char>) -> nat {
    if contains(s, seq!['t', 'i', 'b']) || contains(s, seq!['t', 'b']) {
        40
    } else if contains(s, seq!['g', 'i', 'b']) || contains(s, seq!['g', 'b']) {
        30
    } else if contains(s, seq!['m', 'i', 'b']) || contains(s, seq!['m', 'b']) {
        20
    } else if contains(s, seq!['k', 'i', 'b']) || contains(s, seq!['k', 'b']) {
        10
    } else {
        0
    }
}

/// The bytes a (trimmed, lowercased) Nyaa size such as `1.5 gib` stands
/// for: the digits and points at its start read as a float (`0` when they
/// do not form one: no digit, or a second point), times the unit, then
/// truncated to `u64`.
pub open spec fn nyaa_size_value(s: Seq<char>) -> u64 {
    let t = s.take(number_prefix_len(s) as int);
    let point = seq!['.'];
    let (a, b, one_point) = match find(t, point) {
        None => (t, Seq::<char>::empty(), true),
        Some(p) => (t.take(p), t.skip(p + 1), find_from(t, point, p + 1) is None),
    };
    if one_point && a.len() + b.len() > 0 {
        saturate_u64(
            scaled_double_floor(
                dval(digit_bytes(a) + digit_bytes(b)),
                pow10(b.len()),
                size_shift(s),
            ),
        )
    } else {
        0
    }
}

proof fn lemma_number_prefix_len(s: Seq<char>, e: int)
    requires
        0 <= e <= s.len(),
        forall|j: int| 0 <= j < e ==> is_number_char(#[trigger] s[j]),
        e < s.len() ==> !is_number_char(s[e]),
    ensures
        number_prefix_len(s) == e,
    decreases s.len(),
{
    if e > 0 {
        let r = s.drop_first();
        assert forall|j: int| 0 <= j < e - 1 implies is_number_char(#[trigger] r[j]) by {
            assert(r[j] == s[j + 1]);
        }
        if e < s.len() {
            assert(r[e - 1] == s[e]);
        }
        assert(is_number_char(s[0]));
        lemma_number_prefix_len(r, e - 1);
    }
}

/// The digit values of `v[lo..hi]`, all of whose characters are digits.
fn digits_of(v: &Vec<char>, lo: usize, hi: usize) -> (r: Vec<u8>)
    requires
        lo <= hi <= v@.len(),
        forall|j: int| lo <= j < hi ==> is_digit(#[trigger] v@[j]),
    ensures
        r@ == digit_bytes(v@.subrange(lo as int, hi as int)),
        all_digits(r@),
{
    let mut r: Vec<u8> = Vec::new();
    let mut i = lo;
    while i < hi
        invariant
            lo <= i <= hi <= v@.len(),
            forall|j: int| lo <= j < hi ==> is_digit(#[trigger] v@[j]),
            r@ == digit_bytes(v@.subrange(lo as int, i as int)),
            all_digits(r@),
        decreases hi - i,
    {
        let c = v[i];
        assert(is_digit(v@[i as int]));
        let d = (c as u32 - '0' as u32) as u8;
        r.push(d);
        i = i + 1;
        assert(r@ =~= digit_bytes(v@.subrange(lo as int, i as int)));
    }
    r
}

/// Whether `v` contains the characters of `p`.
fn chars_contain(v: &Vec<char>, p: &Vec<char>) -> (r: bool)
    ensures
        r == contains(v@, p@),
{
    find_chars(v, p).is_some()
}

/// The unit shift of `size_shift`.
fn size_shift_of(v: &Vec<char>) -> (k: u32)
    ensures
        k == size_shift(v@),
{
    if chars_contain(v, &vec!['t', 'i', 'b']) || chars_contain(v, &vec!['t', 'b']) {
        40
    } else if chars_contain(v, &vec!['g', 'i', 'b']) || chars_contain(v, &vec!['g', 'b']) {
        30
    } else if chars_contain(v, &vec!['m', 'i', 'b']) || chars_contain(v, &vec!['m', 'b']) {
        20
    } else if chars_contain(v, &vec!['k', 'i', 'b']) || chars_contain(v, &vec!['k', 'b']) {
        10
    } else {
        0
    }
}

/// The bytes that a Nyaa size, already trimmed and lowercased, stands for.
pub fn nyaa_size_from_lowercase(s: &str) -> (r: u64)
    ensures
        r == nyaa_size_value(s@),
{
    let v = str_chars(s);
    let n = v.len();
    let mut e: usize = 0;
    while e < n && (('0' <= v[e] && v[e] <= '9') || v[e] == '.')
        invariant
            e <= n,
            n == v@.len(),
            forall|j: int| 0 <= j < e ==> is_number_char(#[trigger] v@[j]),
        decreases n - e,
    {
        e = e + 1;
    }
    proof {
        lemma_number_prefix_len(v@, e as int);
    }
    let ghost t = v@.take(e as int);
    let mut tv: Vec<char> = Vec::new();
    let mut i: usize = 0;
    while i < e
        invariant
            i <= e <= n,
            n == v@.len(),
            tv@ == v@.take(i as int),
        decreases e - i,
    {
        tv.push(v[i]);
        i = i + 1;
        assert(tv@ =~= v@.take(i as int));
    }
    assert(tv@ == t);
    let point = vec!['.'];
    assert(point@ =~= seq!['.']);
    let k = size_shift_of(&v);
    proof {
        crate::text::lemma_find(t, point@);
    }
    match find_chars(&tv, &point) {
        None => {
            if e == 0 {
                return 0;
            }
            proof {
                assert forall|j: int| 0 <= j < e implies is_digit(#[trigger] tv@[j]) by {
                    assert(!crate::text::occurs_at(t, point@, j));
                    assert(t.subrange(j, j + 1) =~= seq![t[j]]);
                }
            }
            let int_digits = digits_of(&tv, 0, e);
            let frac_digits: Vec<u8> = Vec::new();
            assert(tv@.subrange(0, e as int) =~= t);
            assert(digit_bytes(Seq::<char>::empty()) =~= Seq::<u8>::empty());
            scaled_decimal_to_u64(&int_digits, &frac_digits, k)
        },
        Some(p) => {
            proof {
                crate::text::lemma_find_from(t, point@, p + 1);
            }
            if find_chars_from(&tv, &point, p + 1).is_some() {
                return 0;
            }
            if e == 1 {
                return 0;
            }
            proof {
                assert forall|j: int| 0 <= j < e && j != p implies is_digit(#[trigger] tv@[j]) by {
                    assert(!crate::text::occurs_at(t, point@, j));
                    assert(t.subrange(j, j + 1) =~= seq![t[j]]);
                }
            }
            let int_digits = digits_of(&tv, 0, p);
            let frac_digits = digits_of(&tv, p + 1, e);
            assert(tv@.subrange(0, p as int) =~= t.take(p as int));
            assert(tv@.subrange(p + 1, e as int) =~= t.skip(p + 1));
            scaled_decimal_to_u64(&int_digits, &frac_digits, k)
        },
    }
}

/// `str::to_lowercase`.
pub uninterp spec fn lowercase(s: Seq<char>) -> Seq<char>;

/// Calls `str::to_lowercase`; the result is named `lowercase` of the
/// argument (the Unicode lowercase mapping, which std applies character by
/// character, with the final-sigma rule).
#[verifier::external_body]
fn to_lowercase(s: &str) -> (r: String)
    ensures
        r@ == lowercase(s@),
{
    s.to_lowercase()
}

/// The bytes that a size of the Nyaa feed (such as `1.5 GiB`) stands for:
/// trimmed, lowercased, then read as `nyaa_size_value` says.
pub fn parse_nyaa_size(size_str: &str) -> (r: u64)
    ensures
        r == nyaa_size_value(lowercase(trim(size_str@))),
{
    let v = str_chars(size_str);
    let (lo, hi) = trim_range(&v);
    let trimmed = string_of_chars(&v, lo, hi);
    let lower = to_lowercase(trimmed.as_str());
    nyaa_size_from_lowercase(lower.as_str())
}

// ---------------------------------------------------------------------------
// The Nyaa RSS feed
// ---------------------------------------------------------------------------

/// The pieces of an RSS body that follow each `<item>`.
pub open spec fn rss_pieces(body: Seq<char>) -> Seq<Seq<char>> {
    split(body, "<item>"@).skip(1)
}

/// An item's own text: its piece up to `</item>` (all of it when missing).
pub open spec fn item_text(piece: Seq<char>) -> Seq<char> {
    match find(piece, "</item>"@) {
        Some(e) => piece.take(e),
        None => piece,
    }
}

/// The content of a tag of an item, empty when the tag is missing.
pub open spec fn tag_or_empty(item: Seq<char>, start_tag: Seq<char>, end_tag: Seq<char>) -> Seq<
    char,
> {
    match xml_tag(item, start_tag, end_tag) {
        Some(c) => c,
        None => Seq::empty(),
    }
}

/// The info hash of a piece's item.
pub open spec fn piece_hash(piece: Seq<char>) -> Seq<char> {
    tag_or_empty(item_text(piece), "<nyaa:infoHash>"@, "</nyaa:infoHash>"@)
}

/// The pieces whose item has an info hash, in order.
pub open spec fn listed_pieces(pieces: Seq<Seq<char>>) -> Seq<Seq<char>>
    decreases pieces.len(),
{
    if pieces.len() == 0 {
        Seq::empty()
    } else if piece_hash(pieces.last()).len() > 0 {
        listed_pieces(pieces.drop_last()).push(pieces.last())
    } else {
        listed_pieces(pieces.drop_last())
    }
}

/// `t` is the torrent that the item of `piece` describes: its title, info
/// hash and link, its seeders (`0` unless they read as a `u32`), its size,
/// and the magnet link built from its hash and title.
pub open spec fn nyaa_torrent(piece: Seq<char>, t: Torrent) -> bool {
    let item = item_text(piece);
    let name = tag_or_empty(item, "<title>"@, "</title>"@);
    let hash = tag_or_empty(item, "<nyaa:infoHash>"@, "</nyaa:infoHash>"@);
    &&& t.name@ == name
    &&& t.info_hash@ == hash
    &&& t.magnet matches Some(m) && m@ == magnet_link(hash, name)
    &&& match xml_tag(item, "<link>"@, "</link>"@) {
        Some(u) => t.torrent_url matches Some(x) && x@ == u,
        None => t.torrent_url is None,
    }
    &&& t.seeders == match parse_unsigned(
        tag_or_empty(item, "<nyaa:seeders>"@, "</nyaa:seeders>"@),
        u32::MAX as nat,
    ) {
        Ok(n) => n,
        Err(_) => 0,
    }
    &&& t.size_bytes == nyaa_size_value(
        lowercase(trim(tag_or_empty(item, "<nyaa:size>"@, "</nyaa:size>"@))),
    )
}

proof fn lemma_listed_push(pieces: Seq<Seq<char>>, piece: Seq<char>)
    ensures
        listed_pieces(pieces.push(piece)) == if piece_hash(piece).len() > 0 {
            listed_pieces(pieces).push(piece)
        } else {
            listed_pieces(pieces)
        },
{
    assert(pieces.push(piece).drop_last() =~= pieces);
}

/// Listing a longer sequence keeps what the shorter one listed, in front.
proof fn lemma_listed_prefix(pieces: Seq<Seq<char>>, n: int)
    requires
        0 <= n <= pieces.len(),
    ensures
        listed_pieces(pieces.take(n)).len() <= listed_pieces(pieces).len(),
        forall|j: int|
            0 <= j < listed_pieces(pieces.take(n)).len() ==> #[trigger] listed_pieces(
                pieces.take(n),
            )[j] == listed_pieces(pieces)[j],
    decreases pieces.len() - n,
{
    if n < pieces.len() {
        lemma_listed_prefix(pieces, n + 1);
        assert(pieces.take(n + 1) =~= pieces.take(n).push(pieces[n]));
        lemma_listed_push(pieces.take(n), pieces[n]);
        let a = listed_pieces(pieces.take(n));
        let b = listed_pieces(pieces.take(n + 1));
        assert forall|j: int| 0 <= j < a.len() implies #[trigger] a[j] == listed_pieces(
            pieces,
        )[j] by {
            assert(a[j] == b[j]);
        }
    } else {
        assert(pieces.take(n) =~= pieces);
    }
}

/// The text of `v[lo..hi]` between `start_tag` and `end_tag`, or an empty
/// string.
fn tag_string(v: &Vec<char>, start_tag: &str, end_tag: &str) -> (r: String)
    ensures
        r@ == tag_or_empty(v@, start_tag@, end_tag@),
{
    let st = str_chars(start_tag);
    let et = str_chars(end_tag);
    match xml_tag_range(v, &st, &et) {
        Some((a, b)) => string_of_chars(v, a, b),
        None => String::new(),
    }
}

/// The torrent the item of a piece describes, or `None` when it has no
/// info hash.
#[verifier::rlimit(40)]
fn nyaa_piece_torrent(piece: &Vec<char>) -> (r: Option<Torrent>)
    ensures
        r is Some <==> piece_hash(piece@).len() > 0,
        r matches Some(t) ==> nyaa_torrent(piece@, t),
{
    let close = str_chars("</item>");
    let end = match find_chars(piece, &close) {
        Some(e) => e,
        None => piece.len(),
    };
    proof {
        crate::text::lemma_find(piece@, close@);
    }
    let mut item: Vec<char> = Vec::new();
    let mut i: usize = 0;
    while i < end
        invariant
            i <= end <= piece@.len(),
            item@ == piece@.take(i as int),
        decreases end - i,
    {
        item.push(piece[i]);
        i = i + 1;
        assert(item@ =~= piece@.take(i as int));
    }
    assert(item@ == item_text(piece@)) by {
        if find(piece@, close@) is None {
            assert(piece@.take(end as int) =~= piece@);
        }
    }
    let info_hash = tag_string(&item, "<nyaa:infoHash>", "</nyaa:infoHash>");
    if info_hash.as_str().unicode_len() == 0 {
        return None;
    }
    let name = tag_string(&item, "<title>", "</title>");
    let lt = str_chars("<link>");
    let lc = str_chars("</link>");
    let torrent_url = match xml_tag_range(&item, &lt, &lc) {
        Some((a, b)) => Some(string_of_chars(&item, a, b)),
        None => None,
    };
    let size_text = tag_string(&item, "<nyaa:size>", "</nyaa:size>");
    let size_bytes = parse_nyaa_size(size_text.as_str());
    let st = str_chars("<nyaa:seeders>");
    let sc = str_chars("</nyaa:seeders>");
    let seeders: u32 = match xml_tag_range(&item, &st, &sc) {
        Some((a, b)) => match parse_unsigned_chars(&item, a, b, 0xFFFF_FFFF) {
            Ok(n) => {
                proof {
                    crate::text::lemma_parse_unsigned_bound(
                        item@.subrange(a as int, b as int),
                        u32::MAX as nat,
                    );
                }
                n as u32
            },
            Err(_) => 0,
        },
        None => {
            assert(parse_unsigned(Seq::<char>::empty(), u32::MAX as nat) is Err);
            0
        },
    };
    let magnet = build_magnet_link(info_hash.as_str(), name.as_str());
    Some(
        Torrent {
            name,
            info_hash,
            magnet: Some(magnet),
            torrent_url,
            seeders,
            size_bytes,
        },
    )
}

/// The torrents of a Nyaa RSS body: one for each `<item>` that has an info
/// hash, in order, stopping once `limit` of them (at least one) are read.
pub fn parse_nyaa_rss(body: &str, limit: usize) -> (out: Vec<Torrent>)
    ensures
        ({
            let listed = listed_pieces(rss_pieces(body@));
            let cap: nat = if limit == 0 {
                1
            } else {
                limit as nat
            };
            &&& out@.len() == if listed.len() < cap {
                listed.len()
            } else {
                cap
            }
            &&& forall|j: int| 0 <= j < out@.len() ==> nyaa_torrent(listed[j], #[trigger] out@[j])
        }),
{
    let bv = str_chars(body);
    let n = bv.len();
    let open = str_chars("<item>");
    let ghost s = bv@;
    let ghost p = open@;
    let cap: usize = if limit == 0 {
        1
    } else {
        limit
    };
    let mut out: Vec<Torrent> = Vec::new();
    proof {
        reveal_strlit("<item>");
        crate::text::lemma_find_from(s, p, 0);
    }
    let first = find_chars(&bv, &open);
    let mut pos: usize = match first {
        None => {
            assert(s.subrange(0, s.len() as int) =~= s);
            assert(split(s, p) =~= seq![s]);
            assert(rss_pieces(body@) =~= Seq::<Seq<char>>::empty());
            return out;
        },
        Some(i) => {
            assert(crate::text::occurs_at(s, p, i as int));
            i + open.len()
        },
    };
    let ghost all = split_from(s, p, pos as int);
    assert(rss_pieces(body@) =~= all);
    let ghost mut done: Seq<Seq<char>> = Seq::empty();
    let mut more = true;
    while more && out.len() < cap
        invariant
            n == s.len(),
            s == bv@,
            p == open@,
            p.len() == 6,
            pos <= n,
            more ==> all == done + split_from(s, p, pos as int),
            !more ==> all == done,
            out@.len() == listed_pieces(done).len(),
            out@.len() <= cap,
            forall|j: int|
                0 <= j < out@.len() ==> nyaa_torrent(listed_pieces(done)[j], #[trigger] out@[j]),
        decreases n - pos + (if more { 1int } else { 0 }),
    {
        proof {
            crate::text::lemma_find_from(s, p, pos as int);
        }
        let next = find_chars_from(&bv, &open, pos);
        let end = match next {
            Some(i) => i,
            None => n,
        };
        let mut piece: Vec<char> = Vec::new();
        let mut i: usize = pos;
        while i < end
            invariant
                pos <= i <= end <= n,
                n == s.len(),
                s == bv@,
                piece@ == s.subrange(pos as int, i as int),
            decreases end - i,
        {
            piece.push(bv[i]);
            i = i + 1;
            assert(piece@ =~= s.subrange(pos as int, i as int));
        }
        proof {
            assert(split_from(s, p, pos as int) == seq![piece@] + match next {
                Some(i) => split_from(s, p, i + p.len()),
                None => Seq::<Seq<char>>::empty(),
            });
            lemma_listed_push(done, piece@);
            done = done.push(piece@);
        }
        match next {
            Some(i) => {
                pos = i + open.len();
                assert(all =~= done + split_from(s, p, pos as int));
            },
            None => {
                more = false;
                assert(all =~= done);
            },
        }
        match nyaa_piece_torrent(&piece) {
            Some(t) => {
                out.push(t);
            },
            None => {},
        }
    }
    proof {
        if more {
            lemma_listed_prefix(done + split_from(s, p, pos as int), done.len() as int);
            assert((done + split_from(s, p, pos as int)).take(done.len() as int) =~= done);
        }
    }
    out
}

// ---------------------------------------------------------------------------
// The Pirate Bay API
// ---------------------------------------------------------------------------

/// One record of the Pirate Bay search API, its fields already read.
#[derive(Debug)]
pub struct ApiTorrent {
    pub id: String,
    pub name: String,
    pub info_hash: Option<String>,
    pub magnet: Option<String>,
    pub seeders: u32,
    pub size_bytes: u64,
}

/// Records that stand for a real torrent: the API answers "no results" with
/// a record of id `0`, and records without an info hash cannot be fetched.
pub open spec fn api_kept(a: ApiTorrent) -> bool {
    &&& a.id@ != "0"@
    &&& a.info_hash matches Some(h) && !is_blank(h@)
}

/// `t` is the torrent that the record `a` describes.
pub open spec fn torrent_from_api(a: ApiTorrent, t: Torrent) -> bool {
    &&& t.name == a.name
    &&& t.info_hash@ == match a.info_hash {
        Some(h) => h@,
        None => Seq::<char>::empty(),
    }
    &&& t.magnet == a.magnet
    &&& t.torrent_url is None
    &&& t.seeders == a.seeders
    &&& t.size_bytes == a.size_bytes
}

/// The records that `api_kept` keeps, in order.
pub open spec fn kept_api(items: Seq<ApiTorrent>) -> Seq<ApiTorrent>
    decreases items.len(),
{
    if items.len() == 0 {
        Seq::empty()
    } else if api_kept(items.last()) {
        kept_api(items.drop_last()).push(items.last())
    } else {
        kept_api(items.drop_last())
    }
}

impl ApiTorrent {
    /// The torrent the record describes (no info hash becomes an empty one).
    pub fn into_torrent(self) -> (t: Torrent)
        ensures
            torrent_from_api(self, t),
    {
        let info_hash = match self.info_hash {
            Some(h) => h,
            None => String::new(),
        };
        Torrent {
            name: self.name,
            info_hash,
            magnet: self.magnet,
            torrent_url: None,
            seeders: self.seeders,
            size_bytes: self.size_bytes,
        }
    }
}

/// The first `limit` kept records, as torrents, in the API's order.
pub fn select_piratebay_results(items: Vec<ApiTorrent>, limit: usize) -> (out: Vec<Torrent>)
    ensures
        out@.len() == if kept_api(items@).len() < limit {
            kept_api(items@).len()
        } else {
            limit as nat
        },
        forall|j: int|
            0 <= j < out@.len() ==> torrent_from_api(kept_api(items@)[j], #[trigger] out@[j]),
{
    let ghost all = items@;
    let mut out: Vec<Torrent> = Vec::new();
    for item in it: items.into_iter()
        invariant
            it.seq() == all,
            out@.len() == if kept_api(all.take(it.index() as int)).len() < limit {
                kept_api(all.take(it.index() as int)).len()
            } else {
                limit as nat
            },
            forall|j: int|
                0 <= j < out@.len() ==> torrent_from_api(
                    kept_api(all.take(it.index() as int))[j],
                    #[trigger] out@[j],
                ),
    {
        let ghost done = all.take(it.index() as int);
        let ghost done2 = all.take(it.index() + 1);
        assert(done2.drop_last() == done);
        assert(done2.last() == item);
        let keep = match &item.info_hash {
            Some(h) => !str_eq(item.id.as_str(), "0") && !str_is_blank(h.as_str()),
            None => false,
        };
        assert(keep == api_kept(item));
        if keep && out.len() < limit {
            out.push(item.into_torrent());
        }
    }
    assert(all.take(all.len() as int) == all);
    out
}

// ---------------------------------------------------------------------------
// Proxy for the HTTP client
// ---------------------------------------------------------------------------

/// The first variable that is set to something other than whitespace, trimmed.
pub open spec fn first_set(values: Seq<Option<String>>) -> Option<Seq<char>>
    decreases values.len(),
{
    if values.len() == 0 {
        None
    } else {
        match values[0] {
            Some(v) if !is_blank(v@) => Some(crate::text::trim(v@)),
            _ => first_set(values.drop_first()),
        }
    }
}

/// A SOCKS5 proxy address with DNS resolution moved to the proxy
/// (`socks5://` becomes `socks5h://`); other addresses are kept.
pub open spec fn remote_dns(p: Seq<char>) -> Seq<char> {
    if starts_with(p, "socks5://"@) {
        "socks5h://"@ + p.skip(9)
    } else {
        p
    }
}

/// The proxy the environment asks for: the SOCKS variables (in order, with
/// remote DNS) before the HTTP ones (in order, as written).
pub open spec fn env_proxy(socks: Seq<Option<String>>, http: Seq<Option<String>>) -> Option<
    Seq<char>,
> {
    match first_set(socks) {
        Some(p) => Some(remote_dns(p)),
        None => first_set(http),
    }
}

/// The first value that is not blank, trimmed.
fn first_set_value(values: &Vec<Option<String>>) -> (r: Option<String>)
    ensures
        match first_set(values@) {
            None => r is None,
            Some(p) => r matches Some(s) && s@ == p,
        },
{
    let mut i: usize = 0;
    assert(values@.skip(0) == values@);
    while i < values.len()
        invariant
            i <= values@.len(),
            first_set(values@) == first_set(values@.skip(i as int)),
        decreases values@.len() - i,
    {
        assert(values@.skip(i as int).drop_first() == values@.skip(i + 1));
        assert(values@.skip(i as int)[0] == values@[i as int]);
        match &values[i] {
            Some(v) => {
                let chars = str_chars(v.as_str());
                let (a, b) = crate::text::trim_range(&chars);
                if a < b {
                    return Some(string_of_chars(&chars, a, b));
                }
            },
            None => {},
        }
        i = i + 1;
    }
    None
}

/// The proxy named by the environment. `socks` holds the values of
/// `ALL_PROXY`, `all_proxy`, `SOCKS_PROXY`, `socks_proxy` and `http` those of
/// `HTTPS_PROXY`, `https_proxy`, `HTTP_PROXY`, `http_proxy` (`None` where
/// unset); the first non-blank value wins.
pub fn proxy_from_env(socks: &Vec<Option<String>>, http: &Vec<Option<String>>) -> (r: Option<
    String,
>)
    ensures
        match env_proxy(socks@, http@) {
            None => r is None,
            Some(p) => r matches Some(s) && s@ == p,
        },
{
    match first_set_value(socks) {
        Some(p) => {
            let chars = str_chars(p.as_str());
            let prefix = str_chars("socks5://");
            proof {
                reveal_strlit("socks5://");
            }
            if chars.len() >= 9 && crate::text::find_chars(&chars, &prefix) == Some(0usize) {
                let mut s = String::new();
                s.append("socks5h://");
                crate::text::push_chars(&mut s, &chars, 9, chars.len());
                proof {
                    crate::text::lemma_find(chars@, prefix@);
                    assert(chars@.take(9) == chars@.subrange(0, 9));
                    assert(chars@.subrange(9, chars@.len() as int) == chars@.skip(9));
                }
                Some(s)
            } else {
                proof {
                    crate::text::lemma_find(chars@, prefix@);
                    if starts_with(chars@, "socks5://"@) {
                        assert(chars@.subrange(0, 9) == chars@.take(9));
                        assert(crate::text::occurs_at(chars@, prefix@, 0));
                    }
                }
                Some(p)
            }
        },
        None => first_set_value(http),
    }
}

/// The proxy used when the environment names none: a SOCKS5 engine on
/// local port 1080, else an HTTP proxy on local port 8080.
pub open spec fn local_proxy_text(port_1080_open: bool, port_8080_open: bool) -> Option<Seq<char>> {
    if port_1080_open {
        Some("socks5h://127.0.0.1:1080"@)
    } else if port_8080_open {
        Some("http://127.0.0.1:8080"@)
    } else {
        None
    }
}

/// The local proxy to fall back on, given which local ports answered.
pub fn local_proxy(port_1080_open: bool, port_8080_open: bool) -> (r: Option<String>)
    ensures
        match local_proxy_text(port_1080_open, port_8080_open) {
            None => r is None,
            Some(p) => r matches Some(s) && s@ == p,
        },
{
    if port_1080_open {
        let mut s = String::new();
        s.append("socks5h://127.0.0.1:1080");
        Some(s)
    } else if port_8080_open {
        let mut s = String::new();
        s.append("http://127.0.0.1:8080");
        Some(s)
    } else {
        None
    }
}


/// Each torrent made from a Pirate Bay record carries the record's own
/// values: its name, hash, magnet link, seeders and size, each in its own
/// field, and no `.torrent` URL.
pub proof fn law_piratebay_fields(items: Seq<ApiTorrent>, out: Seq<Torrent>)
    requires
        out.len() <= kept_api(items).len(),
        forall|j: int| 0 <= j < out.len() ==> torrent_from_api(kept_api(items)[j], #[trigger] out[j]),
    ensures
        forall|j: int|
            0 <= j < out.len() ==> {
                let a = kept_api(items)[j];
                let t = #[trigger] out[j];
                &&& t.size_bytes == a.size_bytes
                &&& t.seeders == a.seeders
                &&& t.name == a.name
                &&& a.info_hash matches Some(h) && t.info_hash@ == h@
                &&& t.magnet == a.magnet
                &&& t.torrent_url is None
            },
{
    assert forall|j: int| 0 <= j < out.len() implies (kept_api(items)[j]).info_hash is Some by {
        lemma_kept_api_kept(items, j);
    }
}

proof fn lemma_kept_api_kept(items: Seq<ApiTorrent>, j: int)
    requires
        0 <= j < kept_api(items).len(),
    ensures
        api_kept(kept_api(items)[j]),
    decreases items.len(),
{
    if items.len() > 0 {
        let rest = kept_api(items.drop_last());
        if api_kept(items.last()) && j == rest.len() {
        } else {
            lemma_kept_api_kept(items.drop_last(), j);
        }
    }
}

/// The local proxy: the SOCKS5 engine on port 1080 whenever it answers,
/// whatever port 8080 does; the HTTP proxy on port 8080 only when 1080 does
/// not answer; none when neither does.
pub proof fn law_local_proxy_choice(port_1080_open: bool, port_8080_open: bool)
    ensures
        port_1080_open ==> local_proxy_text(port_1080_open, port_8080_open) == Some(
            "socks5h://127.0.0.1:1080"@,
        ),
        !port_1080_open && port_8080_open ==> local_proxy_text(port_1080_open, port_8080_open)
            == Some("http://127.0.0.1:8080"@),
        !port_1080_open && !port_8080_open ==> local_proxy_text(port_1080_open, port_8080_open)
            is None,
        local_proxy_text(true, port_8080_open) == local_proxy_text(true, !port_8080_open),
{
}
} // verus!
