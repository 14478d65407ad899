use std::path::PathBuf;
use torrentty::cloud::{
    cloud_release_tag, poll_release_download, poll_step, range_start, range_step,
    release_asset_download, release_view_args, stream_ranges, stream_start, stream_step,
    stream_url_from_body, workflow_dispatch_args, PollAction, RangeAction, RangeEvent, RangeFetch,
    ReleaseAsset, ReleaseView, StreamAction, StreamEvent,
};
use torrentty::indexer::{
    after_failure, nyaa_retry, torrent_file_retry, RetryStep, extract_xml_tag, local_proxy, nyaa_size_from_lowercase, parse_nyaa_rss, parse_nyaa_size,
    proxy_from_env, select_piratebay_results, ApiTorrent,
};
use torrentty::storage::{filter_history, now_epoch_secs, upsert_entry, DownloadHistoryEntry};
use torrentty::text::IntErrorKind;
use torrentty::tui::{
    format_duration, merge_search_results, swarm_step, DownloadEvent, DownloadOutcome,
    DownloadStatus, DownloadTracking, FocusPane, Key, SearchState, SwarmStep, SwarmWatch,
    TuiAction,
};
use torrentty::types::Torrent;
use torrentty::util::{
    build_magnet_link, format_size, parse_opt_string, parse_string, parse_u32, parse_u64,
    FieldError, JsonField,
};

/// A small deterministic generator for the comparisons below.
struct Lcg(u64);

impl Lcg {
    fn next(&mut self) -> u64 {
        self.0 = self.0.wrapping_mul(6364136223846793005).wrapping_add(1442695040888963407);
        self.0 >> 11
    }
    fn below(&mut self, n: u64) -> u64 {
        self.next() % n
    }
}

/// The size text as floating point computes it.
fn float_format_size(bytes: u64) -> String {
    let b = bytes as f64;
    if b >= 1_073_741_824.0 {
        format!("{:.2} GB", b / 1_073_741_824.0)
    } else if b >= 1_048_576.0 {
        format!("{:.2} MB", b / 1_048_576.0)
    } else if b >= 1024.0 {
        format!("{:.2} KB", b / 1024.0)
    } else {
        format!("{bytes} B")
    }
}

/// A Nyaa size as floating point reads it.
fn float_nyaa_size(size_str: &str) -> u64 {
    let s = size_str.trim().to_lowercase();
    let val: f64 = s
        .chars()
        .take_while(|c| c.is_ascii_digit() || *c == '.')
        .collect::<String>()
        .parse()
        .unwrap_or(0.0);
    let mult = if s.contains("tib") || s.contains("tb") {
        1024.0 * 1024.0 * 1024.0 * 1024.0
    } else if s.contains("gib") || s.contains("gb") {
        1024.0 * 1024.0 * 1024.0
    } else if s.contains("mib") || s.contains("mb") {
        1024.0 * 1024.0
    } else if s.contains("kib") || s.contains("kb") {
        1024.0
    } else {
        1.0
    };
    (val * mult).max(0.0) as u64
}

fn torrent(name: &str, hash: &str, seeders: u32) -> Torrent {
    Torrent {
        name: name.to_string(),
        info_hash: hash.to_string(),
        magnet: None,
        torrent_url: None,
        seeders,
        size_bytes: 1000,
    }
}

fn entry(hash: &str, name: &str, added: u64, completed: Option<u64>) -> DownloadHistoryEntry {
    DownloadHistoryEntry {
        info_hash: hash.to_string(),
        name: name.to_string(),
        target_path: PathBuf::from(format!("/downloads/{name}")),
        added_at_epoch_secs: added,
        completed_at_epoch_secs: completed,
    }
}

// ---------------------------------------------------------------------------
// Sizes
// ---------------------------------------------------------------------------

#[test]
fn format_size_units_and_edges() {
    assert_eq!(format_size(1023), "1023 B");
    assert_eq!(format_size(1025), "1.00 KB");
    assert_eq!(format_size(1_048_575), "1024.00 KB");
    assert_eq!(format_size(1_073_741_823), "1024.00 MB");
    assert_eq!(format_size(u64::MAX), "17179869184.00 GB");
    assert_eq!(format_size(5 * 1_073_741_824 + 536_870_912), "5.50 GB");
}

#[test]
fn format_size_matches_floating_point() {
    let mut fixed: Vec<u64> = vec![
        0,
        1,
        1023,
        1024,
        1025,
        10_239,
        10_240,
        1_048_575,
        1_048_576,
        1_073_741_823,
        1_073_741_824,
        (1 << 53) - 1,
        1 << 53,
        (1 << 53) + 1,
        (1 << 60) + 12345,
        u64::MAX - 1,
        u64::MAX,
    ];
    let mut g = Lcg(7);
    for _ in 0..20_000 {
        let bits = g.below(64) as u32;
        let v = if bits == 0 { g.next() & 1 } else { g.next() >> (64 - bits) | (1u64 << (bits - 1)) };
        fixed.push(v);
    }
    for b in fixed {
        assert_eq!(format_size(b), float_format_size(b), "bytes = {b}");
    }
}

#[test]
fn nyaa_size_examples() {
    assert_eq!(parse_nyaa_size("1.5 GiB"), 1_610_612_736);
    assert_eq!(parse_nyaa_size("700 MiB"), 734_003_200);
    assert_eq!(parse_nyaa_size("  2 TiB "), 2_199_023_255_552);
    assert_eq!(parse_nyaa_size("512 KiB"), 524_288);
    assert_eq!(parse_nyaa_size("0.1 KiB"), 102);
    assert_eq!(parse_nyaa_size("123 Bytes"), 123);
    assert_eq!(parse_nyaa_size("1.2.3 GiB"), 0);
    assert_eq!(parse_nyaa_size(". GiB"), 0);
    assert_eq!(parse_nyaa_size(""), 0);
    assert_eq!(parse_nyaa_size("GiB"), 0);
    assert_eq!(parse_nyaa_size(".5 MB"), 524_288);
    assert_eq!(parse_nyaa_size("5. KB"), 5120);
    assert_eq!(parse_nyaa_size("9007199254740993"), 9_007_199_254_740_992);
    assert_eq!(parse_nyaa_size("9007199254740993.0000001"), 9_007_199_254_740_994);
    assert_eq!(parse_nyaa_size("99999999999999999999999 TiB"), u64::MAX);
    assert_eq!(parse_nyaa_size("0.99999999999999999999"), 1);
    assert_eq!(parse_nyaa_size("0.9999999999999999"), 0);
    assert_eq!(nyaa_size_from_lowercase("3 gib"), 3 * 1_073_741_824);
    // The unit is looked for anywhere in the text.
    assert_eq!(parse_nyaa_size("1 (kb)"), 1024);
}

#[test]
fn nyaa_size_matches_floating_point() {
    let units = [
        "", " B", " Bytes", " KiB", " kB", " MiB", " MB", " GiB", " GB", " TiB", " TB", " kib", "KB",
        " xyz", " k b",
    ];
    let mut cases: Vec<String> = vec![
        "0.000000000000000000001 TiB".to_string(),
        "18446744073709551615".to_string(),
        "18446744073709551616".to_string(),
        "18446744073709550591".to_string(),
        "18446744073709550592".to_string(),
        "16777215.99999999999 TiB".to_string(),
        "4503599627370495.5".to_string(),
        "4503599627370496.5".to_string(),
        "1e3 GiB".to_string(),
        "1,5 GiB".to_string(),
        "+1 GiB".to_string(),
        "-1 GiB".to_string(),
        "\u{212A}B 3".to_string(),
        "3 \u{212A}B".to_string(),
    ];
    let mut g = Lcg(11);
    for _ in 0..20_000 {
        let mut s = String::new();
        if g.below(5) == 0 {
            s.push(' ');
        }
        let int_len = g.below(22);
        for _ in 0..int_len {
            s.push(char::from(b'0' + g.below(10) as u8));
        }
        if g.below(3) > 0 {
            s.push('.');
            let frac_len = g.below(25);
            for _ in 0..frac_len {
                s.push(char::from(b'0' + g.below(10) as u8));
            }
            if g.below(20) == 0 {
                s.push('.');
            }
        }
        s.push_str(units[g.below(units.len() as u64) as usize]);
        cases.push(s);
    }
    for c in cases {
        assert_eq!(parse_nyaa_size(&c), float_nyaa_size(&c), "size = {c:?}");
    }
}

// ---------------------------------------------------------------------------
// Magnet links and JSON fields
// ---------------------------------------------------------------------------

#[test]
fn magnet_link_encodes_name_bytes() {
    let m = build_magnet_link("abc", "a b~-_.é");
    assert!(m.starts_with("magnet:?xt=urn:btih:abc&dn=a%20b~-_.%C3%A9&tr="));
    assert_eq!(m.matches("&tr=").count(), 18);
    assert!(m.ends_with("&tr=https%3A%2F%2Ftracker.foreverpirates.co%3A443%2Fannounce"));
}

#[test]
fn field_readers_edges() {
    assert_eq!(parse_string(JsonField::Str("  ".to_string())), Err(FieldError::ExpectedString));
    assert_eq!(parse_opt_string(JsonField::Str(" x ".to_string())), Some(" x ".to_string()));
    assert_eq!(parse_opt_string(JsonField::Other), None);
    assert_eq!(parse_u64(JsonField::Str(" 42 ".to_string())), Ok(42));
    assert_eq!(parse_u64(JsonField::Str("+7".to_string())), Ok(7));
    assert_eq!(parse_u64(JsonField::Number("17".to_string())), Ok(17));
    assert_eq!(
        parse_u64(JsonField::Str("12a".to_string())),
        Err(FieldError::Int(IntErrorKind::InvalidDigit))
    );
    assert_eq!(
        parse_u64(JsonField::Str("18446744073709551616".to_string())),
        Err(FieldError::Int(IntErrorKind::PosOverflow))
    );
    assert_eq!(parse_u64(JsonField::Str("18446744073709551615".to_string())), Ok(u64::MAX));
    assert_eq!(parse_u64(JsonField::Other), Err(FieldError::ExpectedString));
    assert_eq!(parse_u32(JsonField::Str("4294967296".to_string())), Err(FieldError::OutOfRange));
    assert_eq!(parse_u32(JsonField::Str("4294967295".to_string())), Ok(u32::MAX));
    assert_eq!(FieldError::ExpectedString.message(), "expected string");
    assert_eq!(
        FieldError::Int(IntErrorKind::InvalidDigit).message(),
        "invalid digit found in string"
    );
}

#[test]
fn decimal_fields_read_back() {
    for n in [0u64, 7, 10, 99, 1_234_567_890_123, u64::MAX - 1, u64::MAX] {
        assert_eq!(parse_u64(JsonField::Number(n.to_string())), Ok(n));
        assert_eq!(parse_u64(JsonField::Str(n.to_string())), Ok(n));
    }
}

// ---------------------------------------------------------------------------
// Indexers
// ---------------------------------------------------------------------------

#[test]
fn xml_tags() {
    let xml = "<a><title><![CDATA[Hello & bye]]></title><x>1</x><x>2</x></a>";
    assert_eq!(extract_xml_tag(xml, "<title>", "</title>"), Some("Hello & bye".to_string()));
    assert_eq!(extract_xml_tag(xml, "<x>", "</x>"), Some("1".to_string()));
    assert_eq!(extract_xml_tag(xml, "<y>", "</y>"), None);
    assert_eq!(extract_xml_tag("<x>open", "<x>", "</x>"), None);
    assert_eq!(extract_xml_tag("<x></x>", "<x>", "</x>"), Some(String::new()));
}

#[test]
fn nyaa_rss_items() {
    let body = "<rss><channel><title>Nyaa</title>\
        <item><title><![CDATA[[Sub] Show - 01 [1080p].mkv]]></title>\
        <link>https://nyaa.si/download/1.torrent</link>\
        <nyaa:seeders>42</nyaa:seeders><nyaa:infoHash>aaaa</nyaa:infoHash>\
        <nyaa:size>1.5 GiB</nyaa:size></item>\
        <item><title>No hash</title><nyaa:seeders>9</nyaa:seeders></item>\
        <item><title>Second</title><nyaa:infoHash>bbbb</nyaa:infoHash>\
        <nyaa:seeders>lots</nyaa:seeders><nyaa:size>700 MiB</nyaa:size></item>\
        </channel></rss>";
    let all = parse_nyaa_rss(body, 10);
    assert_eq!(all.len(), 2);
    assert_eq!(all[0].name, "[Sub] Show - 01 [1080p].mkv");
    assert_eq!(all[0].info_hash, "aaaa");
    assert_eq!(all[0].torrent_url, Some("https://nyaa.si/download/1.torrent".to_string()));
    assert_eq!(all[0].seeders, 42);
    assert_eq!(all[0].size_bytes, 1_610_612_736);
    assert_eq!(all[0].magnet, Some(build_magnet_link("aaaa", "[Sub] Show - 01 [1080p].mkv")));
    assert_eq!(all[1].name, "Second");
    assert_eq!(all[1].torrent_url, None);
    assert_eq!(all[1].seeders, 0);
    assert_eq!(all[1].size_bytes, 734_003_200);
    assert_eq!(parse_nyaa_rss(body, 1).len(), 1);
    // A limit of zero still reads one item.
    assert_eq!(parse_nyaa_rss(body, 0).len(), 1);
    assert!(parse_nyaa_rss("<rss>no items</rss>", 5).is_empty());
}

#[test]
fn piratebay_selection() {
    let rec = |id: &str, hash: Option<&str>, seeders: u32| ApiTorrent {
        id: id.to_string(),
        name: format!("n{id}"),
        info_hash: hash.map(|h| h.to_string()),
        magnet: None,
        seeders,
        size_bytes: 5,
    };
    let items = vec![
        rec("0", Some("h0"), 1),
        rec("1", Some("h1"), 2),
        rec("2", None, 3),
        rec("3", Some("  "), 4),
        rec("4", Some("h4"), 5),
        rec("5", Some("h5"), 6),
    ];
    let out = select_piratebay_results(items, 2);
    assert_eq!(out.len(), 2);
    assert_eq!(out[0].name, "n1");
    assert_eq!(out[0].info_hash, "h1");
    assert_eq!(out[1].name, "n4");
    assert_eq!(out[1].seeders, 5);
    assert_eq!(out[1].torrent_url, None);
}

#[test]
fn proxies() {
    let socks = vec![None, Some("  ".to_string()), Some(" socks5://10.0.0.1:9050 ".to_string())];
    let http = vec![Some("http://p:8080".to_string())];
    assert_eq!(proxy_from_env(&socks, &http), Some("socks5h://10.0.0.1:9050".to_string()));
    assert_eq!(proxy_from_env(&vec![None], &http), Some("http://p:8080".to_string()));
    assert_eq!(
        proxy_from_env(&vec![Some("socks5h://x:1".to_string())], &vec![]),
        Some("socks5h://x:1".to_string())
    );
    assert_eq!(proxy_from_env(&vec![], &vec![None]), None);
    assert_eq!(local_proxy(true, true), Some("socks5h://127.0.0.1:1080".to_string()));
    assert_eq!(local_proxy(false, true), Some("http://127.0.0.1:8080".to_string()));
    assert_eq!(local_proxy(false, false), None);
}

// ---------------------------------------------------------------------------
// History
// ---------------------------------------------------------------------------

#[test]
fn history_upsert() {
    let mut h = vec![entry("a", "A", 1, None), entry("b", "B", 2, None)];
    upsert_entry(&mut h, entry("b", "B2", 3, Some(4)));
    assert_eq!(h.len(), 2);
    assert_eq!(h[1].name, "B2");
    assert_eq!(h[0].name, "A");
    upsert_entry(&mut h, entry("c", "C", 5, None));
    assert_eq!(h.len(), 3);
    assert_eq!(h[2].info_hash, "c");
    // Recording the same entry twice changes nothing more.
    upsert_entry(&mut h, entry("c", "C", 5, None));
    assert_eq!(h.len(), 3);
    assert_eq!(h[2], entry("c", "C", 5, None));
}

#[test]
fn history_filter() {
    let h = vec![
        entry("a", "A", 1, Some(2)),
        entry("b", "B", 1, None),
        entry("c", "C", 1, Some(3)),
    ];
    let kept = filter_history(h, &vec![false, false, true]);
    assert_eq!(kept.len(), 2);
    assert_eq!(kept[0].info_hash, "b");
    assert_eq!(kept[1].info_hash, "c");
}

#[test]
fn clock_reads_after_2023() {
    assert!(now_epoch_secs() > 1_700_000_000);
}

// ---------------------------------------------------------------------------
// Search screen
// ---------------------------------------------------------------------------

#[test]
fn durations() {
    assert_eq!(format_duration(0), "0s");
    assert_eq!(format_duration(59), "59s");
    assert_eq!(format_duration(61), "1m 1s");
    assert_eq!(format_duration(3600), "1h 0m");
    assert_eq!(format_duration(7322), "2h 2m");
}

#[test]
fn download_status_events() {
    let mut d = DownloadStatus::start(torrent("T", "h", 1), PathBuf::from("/t"), false);
    assert_eq!(d.status_text, "Connecting to swarm...");
    assert!(d.is_managed_active());
    d.apply_event(
        DownloadEvent::Progress {
            down_speed: 2048,
            up_speed: 0,
            progress_bytes: 1_048_576,
            finished: false,
            share_ratio_text: "0.00".to_string(),
        },
        5,
    );
    assert_eq!(d.status_text, "down 2.00 KB/s | 1.00 MB");
    assert_eq!(d.finished_secs, None);
    d.apply_event(
        DownloadEvent::Progress {
            down_speed: 0,
            up_speed: 512,
            progress_bytes: 2_000_000,
            finished: true,
            share_ratio_text: "0.25".to_string(),
        },
        9,
    );
    assert_eq!(d.status_text, "seeding | up 512 B/s | ratio 0.25");
    assert_eq!(d.finished_secs, Some(9));
    d.apply_event(DownloadEvent::Success, 12);
    assert_eq!(d.outcome, Some(DownloadOutcome::Success));
    assert_eq!(d.finished_secs, Some(9));
    assert_eq!(d.elapsed_time(100), "9s");
    assert!(!d.is_managed_active());

    let mut e = DownloadStatus::start(torrent("U", "u", 1), PathBuf::from("/u"), true);
    assert_eq!(e.status_text, "Canary: DPI detected. Activating Cloud Accelerator (0s delay)...");
    e.apply_event(DownloadEvent::Error("boom".to_string()), 3);
    assert_eq!(e.status_text, "Error: boom");
    assert_eq!(e.outcome, Some(DownloadOutcome::Failed));
    assert_eq!(e.elapsed_time(50), "3s");

    let mut f = DownloadStatus::start(torrent("V", "v", 1), PathBuf::from("/v"), false);
    f.abort(70);
    assert_eq!(f.status_text, "Download aborted");
    assert_eq!(f.outcome, Some(DownloadOutcome::Aborted));
    assert_eq!(f.elapsed_time(99), "1m 10s");

    let mut hst = DownloadStatus::from_history_entry(entry("w", "W", 100, Some(250)));
    assert_eq!(hst.tracking, DownloadTracking::History);
    assert_eq!(hst.status_text, "Finished");
    assert_eq!(hst.elapsed_time(0), "2m 30s");
    hst.abort(1);
    assert_eq!(hst.status_text, "Finished");
}

#[test]
fn search_screen_keys() {
    let mut s = SearchState::new(vec![entry("a", "A", 1, Some(2))]);
    assert_eq!(s.downloads.len(), 1);
    assert_eq!(s.focus, FocusPane::Results);
    let none: Vec<u64> = vec![0];
    // Focus cycles forward and back.
    s.handle_key(Key::Tab, &none);
    assert_eq!(s.focus, FocusPane::Downloads);
    s.handle_key(Key::BackTab, &none);
    assert_eq!(s.focus, FocusPane::Results);
    s.handle_key(Key::BackTab, &none);
    assert_eq!(s.focus, FocusPane::Query);
    // Typing then erasing leaves the query as it was.
    for c in "  one piece ".chars() {
        s.handle_key(Key::Char(c), &none);
    }
    assert_eq!(s.query_input, "  one piece ");
    match s.handle_key(Key::Enter, &none) {
        TuiAction::Search(q) => assert_eq!(q, "one piece"),
        _ => panic!("expected a search"),
    }
    assert!(s.is_searching);
    s.handle_key(Key::Backspace, &none);
    assert_eq!(s.query_input, "  one piece");
    // Results arrive and are selected with the arrows.
    s.receive_results(Some(vec![torrent("x", "hx", 3), torrent("y", "hy", 2)]));
    assert!(!s.is_searching);
    assert_eq!(s.results.len(), 2);
    assert_eq!(s.focus, FocusPane::Results);
    s.handle_key(Key::Down, &none);
    assert_eq!(s.selected_result, 1);
    s.handle_key(Key::Down, &none);
    assert_eq!(s.selected_result, 1);
    match s.handle_key(Key::Enter, &none) {
        TuiAction::StartDownload(t) => assert_eq!(t.info_hash, "hy"),
        _ => panic!("expected a download"),
    }
    s.begin_download(torrent("y", "hy", 2), PathBuf::from("/y"), false);
    assert_eq!(s.downloads.len(), 2);
    assert_eq!(s.active_downloads(), 1);
    assert_eq!(s.find_download("hy"), Some(1));
    assert_eq!(s.find_download("zz"), None);
    // Help opens and closes; Esc closes it first.
    s.handle_key(Key::Char('?'), &vec![0, 4]);
    assert!(s.show_help);
    s.handle_key(Key::Esc, &vec![0, 4]);
    assert!(!s.show_help);
    assert!(!s.should_quit);
    // Esc then stops every running download and quits.
    s.handle_key(Key::Esc, &vec![0, 4]);
    assert!(s.should_quit);
    assert_eq!(s.active_downloads(), 0);
    assert_eq!(s.downloads[1].outcome, Some(DownloadOutcome::Aborted));
    assert_eq!(s.downloads[0].outcome, Some(DownloadOutcome::Success));
}

#[test]
fn search_screen_download_events() {
    let mut s = SearchState::new(vec![]);
    s.begin_download(torrent("y", "hy", 2), PathBuf::from("/y"), false);
    assert!(!s.apply_download_event(0, DownloadEvent::Status("x".to_string()), 1));
    assert_eq!(s.downloads[0].status_text, "x");
    assert!(s.apply_download_event(0, DownloadEvent::Success, 2));
    let mut h = SearchState::new(vec![entry("a", "A", 1, Some(2))]);
    assert!(!h.apply_download_event(0, DownloadEvent::Success, 2));
}

#[test]
fn merged_results() {
    let pb = Some(vec![torrent("a", "1", 5), torrent("b", "2", 50)]);
    let ny = Some(vec![torrent("c", "3", 20), torrent("d", "4", 1)]);
    let out = merge_search_results(pb, ny, 3);
    let seeders: Vec<u32> = out.iter().map(|t| t.seeders).collect();
    assert_eq!(seeders, vec![50, 20, 5]);
    let only_nyaa = merge_search_results(None, Some(vec![torrent("c", "3", 20)]), 10);
    assert_eq!(only_nyaa.len(), 1);
    assert!(merge_search_results(None, None, 10).is_empty());
}

#[test]
fn swarm_watch_hands_over_after_six_stalls() {
    let mut w = SwarmWatch::new();
    let (w1, step) = swarm_step(w, 100, 10, false);
    assert_eq!(step, SwarmStep::Progress { down_delta: 100, up_delta: 10 });
    w = w1;
    let (w2, step) = swarm_step(w, 150, 5, false);
    assert_eq!(step, SwarmStep::Progress { down_delta: 50, up_delta: 0 });
    w = w2;
    for _ in 0..5 {
        let (next, step) = swarm_step(w, 150, 5, false);
        assert_eq!(step, SwarmStep::Wait);
        w = next;
    }
    let (_, step) = swarm_step(w, 150, 5, false);
    assert_eq!(step, SwarmStep::HandOver);
    let (_, step) = swarm_step(w, 150, 5, true);
    assert_eq!(step, SwarmStep::Finished);
}

// ---------------------------------------------------------------------------
// Cloud accelerator
// ---------------------------------------------------------------------------

#[test]
fn cloud_tags_and_commands() {
    assert_eq!(cloud_release_tag("0123456789abcdef", 1_700_000_000), "dl_0123456789ab_1700000000");
    assert_eq!(cloud_release_tag("abc", 0), "dl_abc_0");
    assert_eq!(
        release_view_args("dl_x", "assets"),
        vec!["release", "view", "dl_x", "--repo", "Aditya-233/Torrenty", "--json", "assets"]
    );
    assert_eq!(
        workflow_dispatch_args("magnet:?x", "N", "dl_x", Some("https://t")),
        vec![
            "workflow",
            "run",
            "cloud_download.yml",
            "--repo",
            "Aditya-233/Torrenty",
            "-f",
            "magnet=magnet:?x",
            "-f",
            "name=N",
            "-f",
            "tag=dl_x",
            "-f",
            "torrent_url=https://t",
        ]
    );
    assert_eq!(workflow_dispatch_args("m", "n", "t", None).len(), 11);
}

#[test]
fn cloud_release_parsing() {
    assert_eq!(
        stream_url_from_body("notes\r\nSTREAM_URL: http://plain\nSTREAM_URL:  https://a.b/c \r\nx"),
        Some("https://a.b/c".to_string())
    );
    assert_eq!(stream_url_from_body("STREAM_URL:"), None);
    let release = ReleaseView {
        assets: Some(vec![
            ReleaseAsset { size: Some(100), url: Some("https://small".to_string()) },
            ReleaseAsset { size: Some(5000), url: Some("https://big".to_string()) },
        ]),
        body: Some("no stream".to_string()),
    };
    assert_eq!(release_asset_download(&release), Some(("https://big".to_string(), 5000)));
    assert_eq!(
        poll_release_download(&release),
        Some(("https://big".to_string(), Some(5000)))
    );
    let announced = ReleaseView {
        assets: None,
        body: Some("STREAM_URL:https://tunnel".to_string()),
    };
    assert_eq!(poll_release_download(&announced), Some(("https://tunnel".to_string(), None)));
    let urlless = ReleaseView {
        assets: Some(vec![ReleaseAsset { size: Some(5000), url: None }]),
        body: None,
    };
    assert_eq!(release_asset_download(&urlless), None);
}

#[test]
fn cloud_stream_ranges() {
    assert!(stream_ranges(0).is_empty());
    assert_eq!(stream_ranges(1000), vec![(0, 1000)]);
    assert_eq!(stream_ranges(10_000_000), vec![(0, 10_000_000)]);
    let mid = stream_ranges(10_000_016);
    assert_eq!(mid.len(), 16);
    assert_eq!(mid[0], (0, 625_001));
    assert_eq!(mid[15], (9_375_015, 10_000_016));
    let big = stream_ranges(1_400_000_000);
    assert_eq!(big.len(), 24);
    assert_eq!(big[0].0, 0);
    assert_eq!(big[23].1, 1_400_000_000);
    for w in big.windows(2) {
        assert_eq!(w[0].1, w[1].0);
    }
    let huge = stream_ranges(u64::MAX);
    assert_eq!(huge.len(), 24);
    assert_eq!(huge[23].1, u64::MAX);
}

#[test]
fn cloud_poll_steps() {
    match poll_step(0, None) {
        PollAction::Wait { secs } => assert_eq!(secs, 3),
        other => panic!("unexpected {other:?}"),
    }
    match poll_step(359, None) {
        PollAction::Wait { secs } => assert_eq!(secs, 3),
        other => panic!("unexpected {other:?}"),
    }
    assert!(matches!(poll_step(360, None), PollAction::TimedOut));
    match poll_step(400, Some(("https://u".to_string(), Some(7)))) {
        PollAction::Stream { url, size } => {
            assert_eq!(url, "https://u");
            assert_eq!(size, Some(7));
        }
        other => panic!("unexpected {other:?}"),
    }
}

#[test]
fn cloud_range_steps() {
    let (f, a) = range_start(100, 200);
    assert_eq!(a, RangeAction::Request { from: 100, last: 199, after_ms: 0 });
    let (f, a) = range_step(f, RangeEvent::Chunk(30));
    assert_eq!(a, RangeAction::Write { offset: 100, len: 30 });
    let (f, a) = range_step(f, RangeEvent::Ended);
    assert_eq!(a, RangeAction::Request { from: 130, last: 199, after_ms: 500 });
    let (f, a) = range_step(f, RangeEvent::Ended);
    assert_eq!(a, RangeAction::Request { from: 130, last: 199, after_ms: 1000 });
    let (f, a) = range_step(f, RangeEvent::Chunk(500));
    assert_eq!(a, RangeAction::Write { offset: 130, len: 70 });
    assert_eq!(f, RangeFetch { start: 100, end: 200, written: 100, retries: 2 });
    let (_, a) = range_step(f, RangeEvent::Ended);
    assert_eq!(a, RangeAction::Done);
    let stuck = RangeFetch { start: 0, end: 10, written: 4, retries: 3 };
    assert_eq!(range_step(stuck, RangeEvent::Ended).1, RangeAction::Fail);
    assert_eq!(range_start(5, 5).1, RangeAction::Done);
}

#[test]
fn cloud_stream_steps() {
    let (s, a) = stream_start("https://tunnel".to_string(), 20_000_000);
    assert!(matches!(a, StreamAction::Fetch { ref url, size: 20_000_000, parallel: true } if url == "https://tunnel"));
    let (s, a) = stream_step(s, StreamEvent::Failed);
    assert!(matches!(a, StreamAction::Fetch { parallel: false, .. }));
    let (s, a) = stream_step(s, StreamEvent::Failed);
    assert!(matches!(a, StreamAction::AskAsset));
    // The same URL again is no failover.
    let (_, same) = stream_step(
        torrentty::cloud::StreamState {
            first_url: s.first_url.clone(),
            url: s.url.clone(),
            size: s.size,
            whole: s.whole,
            asked_asset: s.asked_asset,
        },
        StreamEvent::Asset(Some(("https://tunnel".to_string(), 5))),
    );
    assert!(matches!(same, StreamAction::Fail));
    let (s, a) = stream_step(s, StreamEvent::Asset(Some(("https://cdn".to_string(), 5_000))));
    assert!(matches!(a, StreamAction::Fetch { ref url, size: 5_000, parallel: false } if url == "https://cdn"));
    let (s, a) = stream_step(s, StreamEvent::Failed);
    assert!(matches!(a, StreamAction::Fail));
    let (_, a) = stream_step(s, StreamEvent::Fetched(5_000));
    assert!(matches!(a, StreamAction::Finish(5_000)));
    let (_, small) = stream_start("u".to_string(), 10_000_000);
    assert!(matches!(small, StreamAction::Fetch { parallel: false, .. }));
}

#[test]
fn retry_policies() {
    let p = nyaa_retry();
    assert_eq!(after_failure(p, 1), RetryStep::Again { pause_ms: 300 });
    assert_eq!(after_failure(p, 2), RetryStep::Again { pause_ms: 300 });
    assert_eq!(after_failure(p, 3), RetryStep::GiveUp { pause_ms: 300 });
    assert_eq!(after_failure(torrent_file_retry(), 3), RetryStep::GiveUp { pause_ms: 500 });
    assert_eq!(after_failure(torrent_file_retry(), 1), RetryStep::Again { pause_ms: 500 });
}

#[test]
fn magnet_link_fields_read_back() {
    let hash = "1a176246b6abe4f3912cf59e5d4cf7e8f4f70817";
    let name = "[SubsPlease] Slime & Co – 21 (1080p).mkv";
    let m = build_magnet_link(hash, name);
    let trackers: Vec<&str> = m.split("&tr=").skip(1).collect();
    assert_eq!(trackers, torrentty::util::PRE_ENCODED_TRACKERS.to_vec());
    let i = m.find("&dn=").unwrap() + 4;
    let j = i + m[i..].find("&tr=").unwrap();
    let dn = &m[i..j];
    let mut decoded = Vec::new();
    let b = dn.as_bytes();
    let mut k = 0;
    while k < b.len() {
        if b[k] == b'%' {
            decoded.push(u8::from_str_radix(&dn[k + 1..k + 3], 16).unwrap());
            k += 3;
        } else {
            decoded.push(b[k]);
            k += 1;
        }
    }
    assert_eq!(decoded, name.as_bytes());
    let unreserved = |c: u8| c.is_ascii_alphanumeric() || b"-_.~".contains(&c);
    let expected_len = 24
        + hash.len()
        + name.bytes().map(|c| if unreserved(c) { 1 } else { 3 }).sum::<usize>()
        + torrentty::util::PRE_ENCODED_TRACKERS.iter().map(|t| 4 + t.len()).sum::<usize>();
    assert_eq!(m.len(), expected_len);
}

#[test]
fn format_size_within_half_a_hundredth() {
    let mut g = Lcg(5);
    for _ in 0..5_000 {
        let b = 1024 + g.below((1u64 << 53) - 1024);
        let text = format_size(b);
        let (num, unit) = text.split_once(' ').unwrap();
        let d: u128 = match unit {
            "GB" => 1 << 30,
            "MB" => 1 << 20,
            "KB" => 1 << 10,
            _ => panic!("unit {unit}"),
        };
        let (whole, frac) = num.split_once('.').unwrap();
        assert_eq!(frac.len(), 2);
        let n: u128 = whole.parse::<u128>().unwrap() * 100 + frac.parse::<u128>().unwrap();
        let exact = 100 * b as u128;
        assert!(2 * exact <= 2 * n * d + d && 2 * n * d <= 2 * exact + d, "bytes = {b}");
        assert!(n >= 100);
        if unit != "GB" {
            assert!(n <= 102_400);
        }
    }
}

#[test]
fn history_upsert_then_reload() {
    let stored = vec![entry("a", "A", 1, Some(2)), entry("b", "B", 1, None), entry("c", "C", 1, Some(3))];
    let on_disk = |e: &DownloadHistoryEntry| e.info_hash != "a";
    let flags: Vec<bool> = stored.iter().map(on_disk).collect();
    let mut written = filter_history(stored, &flags);
    upsert_entry(&mut written, entry("d", "D", 5, None));
    let again: Vec<bool> = written.iter().map(on_disk).collect();
    let reloaded = filter_history(written.clone(), &again);
    assert_eq!(reloaded, written);
    let mut twice = written.clone();
    upsert_entry(&mut twice, entry("d", "D", 5, None));
    assert_eq!(twice, written);
}
