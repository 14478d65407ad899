//! The decisions of the cloud accelerator: the release tag of a run, the
//! command lines for the GitHub CLI, how long to wait for the runner and
//! where to stream the finished file from, how the stream is shared among
//! workers, when a worker's range is asked for again, and when the stream
//! falls back to one request or to the release's asset. Running the CLI
//! and the requests is the application's.

use vstd::prelude::*;
use vstd::utf8::encode_utf8;
use vstd::utf8::is_char_boundary;
use vstd::string::StringSliceAdditionalSpecFns;
use crate::text::{
    decimal, push_decimal, chars_start_with, find_chars_from, split, starts_with, str_chars, string_of_chars, trim,
    trim_range,
};

verus! {

/// The repository the cloud workflow runs in.
pub open spec fn cloud_repo() -> Seq<char> {
    "Aditya-233/Torrenty"@
}

/// Where the release tag of a torrent is cut: after 12 bytes of its info hash.
pub open spec fn tag_cut(info_hash: &str) -> int {
    let n = info_hash.spec_bytes().len() as int;
    if n < 12 {
        n
    } else {
        12
    }
}

/// The release tag of one cloud run of a torrent: `dl_`, the first 12 bytes
/// of its info hash, `_` and the run's time stamp, so that every run gets a
/// release of its own.
pub fn cloud_release_tag(info_hash: &str, stamp: u64) -> (tag: String)
    requires
        info_hash.spec_bytes().len() <= usize::MAX,
        is_char_boundary(info_hash.spec_bytes(), tag_cut(info_hash)),
    ensures
        ({
            let tail = "_"@ + decimal(stamp as nat);
            let head = tag@.subrange(3, tag@.len() - tail.len());
            &&& tag@.len() >= 3 + tail.len()
            &&& tag@.take(3) == "dl_"@
            &&& encode_utf8(head) == info_hash.spec_bytes().take(tag_cut(info_hash))
            &&& tag@.skip(tag@.len() - tail.len()) == tail
        }),
{
    let n = info_hash.len();
    let cut = if n < 12 {
        n
    } else {
        12
    };
    let (head, _rest) = info_hash.split_at(cut);
    let mut tag = String::new();
    tag.append("dl_");
    tag.append(head);
    tag.append("_");
    push_decimal(&mut tag, stamp as u128);
    proof {
        reveal_strlit("dl_");
        reveal_strlit("_");
        let tail = "_"@ + decimal(stamp as nat);
        assert(tag@ =~= "dl_"@ + head@ + tail);
        assert(tag@.take(3) =~= "dl_"@);
        assert(tag@.subrange(3, tag@.len() - tail.len()) =~= head@);
        assert(tag@.skip(tag@.len() - tail.len()) =~= tail);
        assert(head.spec_bytes() =~= info_hash.spec_bytes().take(cut as int));
    }
    tag
}

/// One asset of a release as `gh release view --json` lists it: its
/// `size` when that is an unsigned integer, its `url` when that is a string.
#[derive(Debug)]
pub struct ReleaseAsset {
    pub size: Option<u64>,
    pub url: Option<String>,
}

/// A release as `gh release view --json` describes it.
#[derive(Debug)]
pub struct ReleaseView {
    pub assets: Option<Vec<ReleaseAsset>>,
    pub body: Option<String>,
}

/// The size of an asset, 0 when it has none.
pub open spec fn asset_size(a: ReleaseAsset) -> u64 {
    match a.size {
        Some(s) => s,
        None => 0,
    }
}

/// Index of the first asset larger than 1 KiB (a missing size counts as 0).
pub open spec fn first_big_asset(assets: Seq<ReleaseAsset>) -> Option<int>
    decreases assets.len(),
{
    if assets.len() == 0 {
        None
    } else if asset_size(assets[0]) > 1024 {
        Some(0)
    } else {
        match first_big_asset(assets.drop_first()) {
            Some(i) => Some(i + 1),
            None => None,
        }
    }
}

/// The download the release offers through its assets: the URL and size of
/// its first asset larger than 1 KiB, if that asset has a URL.
pub open spec fn asset_download(release: ReleaseView) -> Option<(Seq<char>, u64)> {
    match release.assets {
        None => None,
        Some(v) => match first_big_asset(v@) {
            None => None,
            Some(i) => match (v@[i].url, v@[i].size) {
                (Some(u), Some(s)) => Some((u@, s)),
                _ => None,
            },
        },
    }
}

pub proof fn lemma_first_big_asset(assets: Seq<ReleaseAsset>)
    ensures
        first_big_asset(assets) matches Some(i) ==> {
            &&& 0 <= i < assets.len()
            &&& assets[i].size matches Some(s) && s > 1024
            &&& forall|j: int|
                0 <= j < i ==> asset_size(#[trigger] assets[j]) <= 1024
        },
        first_big_asset(assets) is None ==> forall|j: int|
            0 <= j < assets.len() ==> asset_size(#[trigger] assets[j]) <= 1024,
    decreases assets.len(),
{
    if assets.len() > 0 {
        lemma_first_big_asset(assets.drop_first());
        assert forall|j: int| 1 <= j < assets.len() implies assets[j] == assets.drop_first()[j
            - 1] by {}
    }
}

/// The URL and size to stream from the release's assets.
pub fn release_asset_download(release: &ReleaseView) -> (r: Option<(String, u64)>)
    ensures
        match asset_download(*release) {
            None => r is None,
            Some((u, s)) => r matches Some((url, size)) && url@ == u && size == s,
        },
{
    let assets = match &release.assets {
        None => return None,
        Some(v) => v,
    };
    proof {
        lemma_first_big_asset(assets@);
    }
    let mut i: usize = 0;
    while i < assets.len()
        invariant
            i <= assets@.len(),
            release.assets == Some(*assets),
            forall|j: int|
                0 <= j < i ==> asset_size(#[trigger] assets@[j]) <= 1024,
            first_big_asset(assets@) matches Some(k) ==> {
                &&& 0 <= k < assets@.len()
                &&& assets@[k].size matches Some(s) && s > 1024
                &&& forall|j: int|
                    0 <= j < k ==> asset_size(#[trigger] assets@[j]) <= 1024
            },
            first_big_asset(assets@) is None ==> forall|j: int|
                0 <= j < assets@.len() ==> asset_size(#[trigger] assets@[j]) <= 1024,
        decreases assets@.len() - i,
    {
        let size = match assets[i].size {
            Some(s) => s,
            None => 0,
        };
        if size > 1024 {
            assert(asset_size(assets@[i as int]) > 1024);
            assert(first_big_asset(assets@) == Some(i as int));
            assert(release.assets == Some(*assets));
            return match (&assets[i].url, assets[i].size) {
                (Some(u), Some(s)) => Some((u.clone(), s)),
                _ => None,
            };
        }
        i = i + 1;
    }
    None
}

/// The streaming URL announced in a release body: the first line
/// `STREAM_URL:<url>` whose (trimmed) URL is an `https://` one. Lines are
/// split at `\n`; a `\r` before it is whitespace that the trim removes.
pub open spec fn stream_url_in(lines: Seq<Seq<char>>) -> Option<Seq<char>>
    decreases lines.len(),
{
    if lines.len() == 0 {
        None
    } else {
        let line = lines[0];
        if starts_with(line, "STREAM_URL:"@) && starts_with(trim(line.skip(11)), "https://"@) {
            Some(trim(line.skip(11)))
        } else {
            stream_url_in(lines.drop_first())
        }
    }
}

/// The streaming URL a release body announces, if any.
pub open spec fn body_stream_url(body: Seq<char>) -> Option<Seq<char>> {
    stream_url_in(split(body, "\n"@))
}

/// The streaming URL a release body announces, if any.
pub fn stream_url_from_body(body: &str) -> (r: Option<String>)
    ensures
        match body_stream_url(body@) {
            None => r is None,
            Some(u) => r matches Some(s) && s@ == u,
        },
{
    let v = str_chars(body);
    let nl = str_chars("\n");
    let marker = str_chars("STREAM_URL:");
    let https = str_chars("https://");
    proof {
        reveal_strlit("\n");
        reveal_strlit("STREAM_URL:");
        reveal_strlit("https://");
    }
    let mut pos: usize = 0;
    let n = v.len();
    loop
        invariant
            pos <= v@.len(),
            n == v@.len(),
            v@ == body@,
            nl@ == "\n"@,
            marker@ == "STREAM_URL:"@,
            https@ == "https://"@,
            nl@.len() == 1,
            marker@.len() == 11,
            body_stream_url(v@) == stream_url_in(crate::text::split_from(v@, nl@, pos as int)),
        decreases v@.len() - pos,
    {
        let next = find_chars_from(&v, &nl, pos);
        let end = match next {
            Some(e) => e,
            None => v.len(),
        };
        proof {
            crate::text::lemma_find_from(v@, nl@, pos as int);
        }
        let ghost line = v@.subrange(pos as int, end as int);
        let ghost rest = match next {
            Some(e) => crate::text::split_from(v@, nl@, e + 1),
            None => Seq::<Seq<char>>::empty(),
        };
        assert(crate::text::split_from(v@, nl@, pos as int) == seq![line] + rest);
        assert((seq![line] + rest)[0] == line);
        assert((seq![line] + rest).drop_first() == rest);
        if chars_start_with(&v, pos, end, &marker) {
            let u0 = string_of_chars(&v, pos + 11, end);
            let uv = str_chars(u0.as_str());
            let (a, b) = trim_range(&uv);
            assert(u0@ == line.skip(11));
            if chars_start_with(&uv, a, b, &https) {
                return Some(string_of_chars(&uv, a, b));
            }
        }
        match next {
            Some(e) => {
                pos = e + 1;
            },
            None => {
                assert(stream_url_in(rest) is None);
                return None;
            },
        }
    }
}

/// Where to stream from after a poll: a streaming URL announced in the body
/// first, else a large asset of the release.
pub open spec fn poll_download(release: ReleaseView) -> Option<(Seq<char>, Option<u64>)> {
    match release.body {
        Some(b) => match body_stream_url(b@) {
            Some(u) => Some((u, None)),
            None => match asset_download(release) {
                Some((u, s)) => Some((u, Some(s))),
                None => None,
            },
        },
        None => match asset_download(release) {
            Some((u, s)) => Some((u, Some(s))),
            None => None,
        },
    }
}

/// Where to stream from after a poll of the release, with the size the
/// release gives for it (none for an announced stream).
pub fn poll_release_download(release: &ReleaseView) -> (r: Option<(String, Option<u64>)>)
    ensures
        match poll_download(*release) {
            None => r is None,
            Some((u, s)) => r matches Some((url, size)) && url@ == u && size == s,
        },
{
    if let Some(b) = &release.body {
        if let Some(u) = stream_url_from_body(b.as_str()) {
            return Some((u, None));
        }
    }
    match release_asset_download(release) {
        Some((u, s)) => Some((u, Some(s))),
        None => None,
    }
}


/// A new string holding `s`.
fn owned(s: &str) -> (r: String)
    ensures
        r@ == s@,
{
    let mut r = String::new();
    r.append(s);
    r
}

/// A new string holding `prefix` followed by `s`.
fn prefixed(prefix: &str, s: &str) -> (r: String)
    ensures
        r@ == prefix@ + s@,
{
    let mut r = String::new();
    r.append(prefix);
    r.append(s);
    r
}

/// The arguments of `gh release view <tag> --repo <repo> --json <fields>`.
pub open spec fn release_view_command(tag: Seq<char>, fields: Seq<char>) -> Seq<Seq<char>> {
    seq!["release"@, "view"@, tag, "--repo"@, cloud_repo(), "--json"@, fields]
}

/// The arguments of `gh workflow run` that dispatch the cloud download of a
/// torrent: its magnet link, name and release tag, and its `.torrent` URL
/// when it has one.
pub open spec fn workflow_dispatch_command(
    magnet: Seq<char>,
    name: Seq<char>,
    tag: Seq<char>,
    torrent_url: Option<Seq<char>>,
) -> Seq<Seq<char>> {
    seq![
        "workflow"@,
        "run"@,
        "cloud_download.yml"@,
        "--repo"@,
        cloud_repo(),
        "-f"@,
        "magnet="@ + magnet,
        "-f"@,
        "name="@ + name,
        "-f"@,
        "tag="@ + tag,
    ] + match torrent_url {
        Some(u) => seq!["-f"@, "torrent_url="@ + u],
        None => Seq::empty(),
    }
}

/// The views of some strings.
pub open spec fn string_views(v: Seq<String>) -> Seq<Seq<char>> {
    v.map_values(|a: String| a@)
}

/// The arguments that ask the GitHub CLI for the `fields` of the release
/// `tag`.
pub fn release_view_args(tag: &str, fields: &str) -> (args: Vec<String>)
    ensures
        string_views(args@) == release_view_command(tag@, fields@),
{
    let mut args: Vec<String> = Vec::new();
    args.push(owned("release"));
    args.push(owned("view"));
    args.push(owned(tag));
    args.push(owned("--repo"));
    args.push(owned("Aditya-233/Torrenty"));
    args.push(owned("--json"));
    args.push(owned(fields));
    assert(string_views(args@) =~= release_view_command(tag@, fields@));
    args
}

/// The arguments that dispatch the cloud workflow for a torrent.
pub fn workflow_dispatch_args(
    magnet: &str,
    name: &str,
    tag: &str,
    torrent_url: Option<&str>,
) -> (args: Vec<String>)
    ensures
        string_views(args@) == workflow_dispatch_command(
            magnet@,
            name@,
            tag@,
            match torrent_url {
                Some(u) => Some(u@),
                None => None,
            },
        ),
{
    let mut args: Vec<String> = Vec::new();
    args.push(owned("workflow"));
    args.push(owned("run"));
    args.push(owned("cloud_download.yml"));
    args.push(owned("--repo"));
    args.push(owned("Aditya-233/Torrenty"));
    args.push(owned("-f"));
    args.push(prefixed("magnet=", magnet));
    args.push(owned("-f"));
    args.push(prefixed("name=", name));
    args.push(owned("-f"));
    args.push(prefixed("tag=", tag));
    if let Some(u) = torrent_url {
        args.push(owned("-f"));
        args.push(prefixed("torrent_url=", u));
    }
    assert(string_views(args@) =~= workflow_dispatch_command(
        magnet@,
        name@,
        tag@,
        match torrent_url {
            Some(u) => Some(u@),
            None => None,
        },
    ));
    args
}


/// How many workers stream a file of `total` bytes in parallel: 24 above
/// 500 MB, 16 above 10 MB, else one.
pub open spec fn stream_workers(total: u64) -> nat {
    if total > 500_000_000 {
        24
    } else if total > 10_000_000 {
        16
    } else {
        1
    }
}

/// The byte range `start..end` that worker `i` of `n` fetches of `total`
/// bytes: the file cut into `n` consecutive slices of (nearly) equal size.
pub open spec fn stream_range(total: u64, n: nat, i: nat) -> (u64, u64) {
    ((i * (total as nat) / n) as u64, ((i + 1) * (total as nat) / n) as u64)
}

/// The ranges the workers fetch of a file of `total` bytes, in order; none
/// for an empty file.
pub fn stream_ranges(total: u64) -> (r: Vec<(u64, u64)>)
    ensures
        r@.len() == if total == 0 {
            0
        } else {
            stream_workers(total)
        },
        forall|i: int| 0 <= i < r@.len() ==> #[trigger] r@[i] == stream_range(
            total,
            stream_workers(total),
            i as nat,
        ),
{
    let mut r: Vec<(u64, u64)> = Vec::new();
    if total == 0 {
        return r;
    }
    let n: u64 = if total > 500_000_000 {
        24
    } else if total > 10_000_000 {
        16
    } else {
        1
    };
    let mut i: u64 = 0;
    while i < n
        invariant
            0 < n <= 24,
            n == stream_workers(total),
            i <= n,
            r@.len() == i,
            forall|j: int| 0 <= j < i ==> #[trigger] r@[j] == stream_range(total, n as nat, j as nat),
        decreases n - i,
    {
        assert((i as u128) * (total as u128) <= 24 * 0xFFFF_FFFF_FFFF_FFFF) by (nonlinear_arith)
            requires
                i < n <= 24,
        ;
        assert(((i + 1) as u128) * (total as u128) <= 24 * 0xFFFF_FFFF_FFFF_FFFF) by (
        nonlinear_arith)
            requires
                i < n <= 24,
        ;
        let a = (i as u128) * (total as u128) / (n as u128);
        let b = ((i + 1) as u128) * (total as u128) / (n as u128);
        proof {
            lemma_slice_end_bound(total as nat, n as nat, (i + 1) as nat);
            lemma_slice_end_bound(total as nat, n as nat, i as nat);
        }
        r.push((a as u64, b as u64));
        i = i + 1;
    }
    r
}

proof fn lemma_slice_end_bound(total: nat, n: nat, i: nat)
    requires
        0 < n,
        i <= n,
    ensures
        i * total / n <= total,
{
    assert(i * total <= n * total) by (nonlinear_arith)
        requires
            i <= n,
    ;
    vstd::arithmetic::div_mod::lemma_div_is_ordered(
        (i * total) as int,
        (n * total) as int,
        n as int,
    );
    vstd::arithmetic::div_mod::lemma_div_multiples_vanish(total as int, n as int);
    assert(n * total == total * n) by (nonlinear_arith);
}

/// The workers' ranges cut a non-empty file into consecutive non-empty
/// slices that start at byte 0 and end at its last byte.
pub proof fn law_stream_ranges_cover(total: u64)
    requires
        total > 0,
    ensures
        ({
            let n = stream_workers(total);
            &&& stream_range(total, n, 0).0 == 0
            &&& stream_range(total, n, (n - 1) as nat).1 == total
            &&& forall|i: nat|
                i + 1 < n ==> #[trigger] stream_range(total, n, i).1 == stream_range(
                    total,
                    n,
                    i + 1,
                ).0
            &&& forall|i: nat| i < n ==> #[trigger] stream_range(total, n, i).0 < stream_range(
                total,
                n,
                i,
            ).1
        }),
{
    let n = stream_workers(total);
    let t = total as nat;
    assert(0 * t / n == 0) by (nonlinear_arith)
        requires
            n > 0,
    ;
    assert(((n - 1) as nat + 1) * t / n == t) by {
        assert(((n - 1) as nat + 1) == n);
        vstd::arithmetic::div_mod::lemma_div_multiples_vanish(t as int, n as int);
        assert(n * t == t * n) by (nonlinear_arith);
    }
    lemma_slice_end_bound(t, n, n);
    assert forall|i: nat| i < n implies #[trigger] stream_range(total, n, i).0 < stream_range(
        total,
        n,
        i,
    ).1 by {
        lemma_slice_end_bound(t, n, i);
        lemma_slice_end_bound(t, n, i + 1);
        lemma_slice_grows(t, n, i);
    }
}

/// Each slice holds at least one byte when there are no more slices than
/// bytes.
proof fn lemma_slice_grows(total: nat, n: nat, i: nat)
    requires
        0 < n <= total,
    ensures
        i * total / n < (i + 1) * total / n,
{
    let a = i * total;
    let b = (i + 1) * total;
    assert(b == a + total) by (nonlinear_arith)
        requires
            a == i * total,
            b == (i + 1) * total,
    ;
    assert(b >= a + n);
    vstd::arithmetic::div_mod::lemma_div_is_ordered((a + n) as int, b as int, n as int);
    vstd::arithmetic::div_mod::lemma_div_plus_one(a as int, n as int);
}


// ---------------------------------------------------------------------------
// Waiting for the cloud runner
// ---------------------------------------------------------------------------

/// How long the release is polled for after the dispatch, in seconds.
pub const POLL_LIMIT_SECS: u64 = 360;

/// The pause before each poll of the release, in seconds.
pub const POLL_PAUSE_SECS: u64 = 3;

/// What to do while waiting for the cloud runner.
#[derive(Debug)]
pub enum PollAction {
    /// Stream the file from `url`; `size` is the release's size for it.
    Stream { url: String, size: Option<u64> },
    /// Wait `secs` seconds, then poll the release again.
    Wait { secs: u64 },
    /// Give up: the runner took too long.
    TimedOut,
}

/// The next step of the wait, `elapsed_secs` after the dispatch, given what
/// the last poll found (`None` before the first poll).
pub fn poll_step(elapsed_secs: u64, found: Option<(String, Option<u64>)>) -> (a: PollAction)
    ensures
        match found {
            Some((u, sz)) => a matches PollAction::Stream { url, size } && url@ == u@ && size
                == sz,
            None => if elapsed_secs < POLL_LIMIT_SECS {
                a == (PollAction::Wait { secs: POLL_PAUSE_SECS })
            } else {
                a is TimedOut
            },
        },
{
    match found {
        Some((url, size)) => PollAction::Stream { url, size },
        None => if elapsed_secs < POLL_LIMIT_SECS {
            PollAction::Wait { secs: POLL_PAUSE_SECS }
        } else {
            PollAction::TimedOut
        },
    }
}

// ---------------------------------------------------------------------------
// Fetching one range
// ---------------------------------------------------------------------------

/// How many times a range that came in short is asked for again.
pub const RANGE_RETRIES: u64 = 3;

/// The pause before the first retry of a range, in milliseconds; each
/// further retry waits that much longer.
pub const RETRY_PAUSE_MS: u64 = 500;

/// A worker's range `start..end`: `written` bytes of it are in place, and it
/// was asked for again `retries` times.
#[derive(Debug, Clone, Copy, PartialEq, Eq, Structural)]
pub struct RangeFetch {
    pub start: u64,
    pub end: u64,
    pub written: u64,
    pub retries: u64,
}

impl RangeFetch {
    pub open spec fn wf(self) -> bool {
        &&& self.start <= self.end
        &&& self.written <= self.end - self.start
        &&& self.retries <= RANGE_RETRIES
    }
}

/// What a worker's request gives.
#[derive(Debug, Clone, Copy, PartialEq, Eq, Structural)]
pub enum RangeEvent {
    /// A chunk of this many bytes came in.
    Chunk(u64),
    /// The answer ended, failed, or was not a partial answer.
    Ended,
}

/// What a worker does next.
#[derive(Debug, Clone, Copy, PartialEq, Eq, Structural)]
pub enum RangeAction {
    /// Ask for bytes `from..=last`, after a pause of `after_ms`.
    Request { from: u64, last: u64, after_ms: u64 },
    /// Write the first `len` bytes of the chunk at `offset` of the file.
    Write { offset: u64, len: u64 },
    /// The range is complete.
    Done,
    /// The range could not be fetched.
    Fail,
}

/// A worker about to fetch `start..end`.
pub fn range_start(start: u64, end: u64) -> (r: (RangeFetch, RangeAction))
    requires
        start <= end,
    ensures
        r.0 == (RangeFetch { start, end, written: 0, retries: 0 }),
        r.0.wf(),
        r.1 == if start < end {
            RangeAction::Request { from: start, last: (end - 1) as u64, after_ms: 0 }
        } else {
            RangeAction::Done
        },
{
    let f = RangeFetch { start, end, written: 0, retries: 0 };
    if start < end {
        (f, RangeAction::Request { from: start, last: end - 1, after_ms: 0 })
    } else {
        (f, RangeAction::Done)
    }
}

/// The next step of a worker: a chunk is written where the range has got
/// to (never past its end); a range that ends short is asked for again from
/// there, after a pause that grows with each retry, until the retries run
/// out.
pub fn range_step(f: RangeFetch, ev: RangeEvent) -> (r: (RangeFetch, RangeAction))
    requires
        f.wf(),
    ensures
        r.0.wf(),
        match ev {
            RangeEvent::Chunk(len) => {
                let left: int = f.end - f.start - f.written;
                let take: int = if len < left {
                    len as int
                } else {
                    left
                };
                &&& r.0 == RangeFetch { written: (f.written + take) as u64, ..f }
                &&& r.1 == RangeAction::Write {
                    offset: (f.start + f.written) as u64,
                    len: take as u64,
                }
            },
            RangeEvent::Ended => if f.written == f.end - f.start {
                r == (f, RangeAction::Done)
            } else if f.retries < RANGE_RETRIES {
                r == (RangeFetch { retries: (f.retries + 1) as u64, ..f }, RangeAction::Request {
                    from: (f.start + f.written) as u64,
                    last: (f.end - 1) as u64,
                    after_ms: (RETRY_PAUSE_MS * (f.retries + 1)) as u64,
                })
            } else {
                r == (f, RangeAction::Fail)
            },
        },
{
    match ev {
        RangeEvent::Chunk(len) => {
            let left = f.end - f.start - f.written;
            let take = if len < left {
                len
            } else {
                left
            };
            (
                RangeFetch { written: f.written + take, ..f },
                RangeAction::Write { offset: f.start + f.written, len: take },
            )
        },
        RangeEvent::Ended => if f.written == f.end - f.start {
            (f, RangeAction::Done)
        } else if f.retries < RANGE_RETRIES {
            (
                RangeFetch { retries: f.retries + 1, ..f },
                RangeAction::Request {
                    from: f.start + f.written,
                    last: f.end - 1,
                    after_ms: RETRY_PAUSE_MS * (f.retries + 1),
                },
            )
        } else {
            (f, RangeAction::Fail)
        },
    }
}

// ---------------------------------------------------------------------------
// Choosing what to stream
// ---------------------------------------------------------------------------

/// Where the stream of the finished file stands: `first_url` is where it
/// began (the tunnel, or the release asset), `url` and `size` what is being
/// fetched, `whole` whether in one request, `asked_asset` whether the
/// release was already asked for its asset.
#[derive(Debug)]
pub struct StreamState {
    pub first_url: String,
    pub url: String,
    pub size: u64,
    pub whole: bool,
    pub asked_asset: bool,
}

/// What a fetch of the file gives.
#[derive(Debug)]
pub enum StreamEvent {
    /// The whole file came in, this many bytes.
    Fetched(u64),
    /// The fetch failed.
    Failed,
    /// What the release offers as its asset, once asked.
    Asset(Option<(String, u64)>),
}

/// What to do next with the stream.
#[derive(Debug)]
pub enum StreamAction {
    /// Fetch `url`, expecting `size` bytes, with parallel workers or in one
    /// request.
    Fetch { url: String, size: u64, parallel: bool },
    /// Ask the release for its asset.
    AskAsset,
    /// The file is in place, this many bytes.
    Finish(u64),
    /// The file could not be streamed.
    Fail,
}

/// Whether a file of `size` bytes is fetched by parallel workers: when
/// `stream_ranges` gives it more than one range.
pub open spec fn parallel_fetch(size: u64) -> bool {
    size > 0 && stream_workers(size) > 1
}

/// The stream starting from `url`, of a file of `size` bytes.
pub fn stream_start(url: String, size: u64) -> (r: (StreamState, StreamAction))
    ensures
        r.0 == (StreamState {
            first_url: url,
            url,
            size,
            whole: !parallel_fetch(size),
            asked_asset: false,
        }),
        r.1 == (StreamAction::Fetch { url, size, parallel: parallel_fetch(size) }),
{
    let parallel = size > 10_000_000;
    let first = url.clone();
    let fetch = url.clone();
    (
        StreamState { first_url: first, url, size, whole: !parallel, asked_asset: false },
        StreamAction::Fetch { url: fetch, size, parallel },
    )
}

/// The next step of the stream: parallel workers that fail give way to one
/// request; one request that fails asks the release for its asset, once;
/// an asset at another URL than where the stream began is fetched instead;
/// anything else fails.
pub fn stream_step(s: StreamState, ev: StreamEvent) -> (r: (StreamState, StreamAction))
    ensures
        match ev {
            StreamEvent::Fetched(n) => r == (s, StreamAction::Finish(n)),
            StreamEvent::Failed => if !s.whole {
                &&& r.0 == StreamState { whole: true, ..s }
                &&& r.1 == StreamAction::Fetch { url: s.url, size: s.size, parallel: false }
            } else if !s.asked_asset {
                r == (StreamState { asked_asset: true, ..s }, StreamAction::AskAsset)
            } else {
                r == (s, StreamAction::Fail)
            },
            StreamEvent::Asset(found) => match found {
                Some((u, sz)) => if s.asked_asset && u@ != s.first_url@ {
                    &&& r.0 == StreamState {
                        url: u,
                        size: sz,
                        whole: !parallel_fetch(sz),
                        ..s
                    }
                    &&& r.1 == StreamAction::Fetch { url: u, size: sz, parallel: parallel_fetch(sz) }
                } else {
                    r == (s, StreamAction::Fail)
                },
                None => r == (s, StreamAction::Fail),
            },
        },
{
    match ev {
        StreamEvent::Fetched(n) => (s, StreamAction::Finish(n)),
        StreamEvent::Failed => if !s.whole {
            let url = s.url.clone();
            let size = s.size;
            (StreamState { whole: true, ..s }, StreamAction::Fetch { url, size, parallel: false })
        } else if !s.asked_asset {
            (StreamState { asked_asset: true, ..s }, StreamAction::AskAsset)
        } else {
            (s, StreamAction::Fail)
        },
        StreamEvent::Asset(found) => match found {
            Some((u, sz)) => if s.asked_asset && !crate::text::str_eq(u.as_str(), s.first_url.as_str()) {
                let parallel = sz > 10_000_000;
                let fetch = u.clone();
                (
                    StreamState { url: u, size: sz, whole: !parallel, ..s },
                    StreamAction::Fetch { url: fetch, size: sz, parallel },
                )
            } else {
                (s, StreamAction::Fail)
            },
            None => (s, StreamAction::Fail),
        },
    }
}

} // verus!
