//! The search screen's state and how it answers keys and events: focus,
//! query editing, result and download selection, download status, and the
//! merging of both indexers' results. Drawing and the event loop are the
//! application's; they hand keys and events here and perform the actions
//! that come back.

use vstd::prelude::*;
use vstd::multiset::Multiset;
use std::path::PathBuf;
use crate::storage::DownloadHistoryEntry;
use crate::text::{
    decimal, pop_char, push_char, push_decimal, str_chars, str_eq, string_of_chars, trim, trim_range,
};
use crate::types::Torrent;
use crate::util::{format_size, size_text};

verus! {

/// Which pane receives keys.
#[derive(Debug, Clone, Copy, PartialEq, Eq, Structural)]
pub enum FocusPane {
    Query,
    Results,
    Downloads,
}

/// The keys the screen distinguishes.
#[derive(Debug, Clone, Copy, PartialEq, Eq, Structural)]
pub enum Key {
    Char(char),
    Tab,
    BackTab,
    Esc,
    Enter,
    Backspace,
    Up,
    Down,
    Other,
}

/// How a download ended.
#[derive(Debug, Clone, Copy, PartialEq, Eq, Structural)]
pub enum DownloadOutcome {
    Success,
    Failed,
    Aborted,
}

/// Whether a download runs in this session or was read from the history.
#[derive(Debug, Clone, Copy, PartialEq, Eq, Structural)]
pub enum DownloadTracking {
    Managed,
    History,
}

/// What a running download reports. The progress ratio and the share ratio
/// are kept by the application, which gives the share ratio here already
/// written with two decimals.
#[derive(Debug)]
pub enum DownloadEvent {
    Status(String),
    Progress {
        down_speed: u64,
        up_speed: u64,
        progress_bytes: u64,
        finished: bool,
        share_ratio_text: String,
    },
    Success,
    Error(String),
}

/// A download as the screen shows it.
#[derive(Debug)]
pub struct DownloadStatus {
    pub torrent: Torrent,
    pub target_path: PathBuf,
    pub tracking: DownloadTracking,
    pub status_text: String,
    /// Seconds from start to finish, once finished.
    pub finished_secs: Option<u64>,
    pub outcome: Option<DownloadOutcome>,
}

/// What the application has to do after a key.
#[derive(Debug)]
pub enum TuiAction {
    Nothing,
    /// Search both indexers for this (trimmed) query.
    Search(String),
    /// Start downloading this torrent, then call `begin_download`.
    StartDownload(Torrent),
}

// ---------------------------------------------------------------------------
// Watching the swarm
// ---------------------------------------------------------------------------

/// Looks at the swarm without progress after which the download is handed
/// to the cloud accelerator.
pub const STALL_LIMIT: u32 = 6;

/// What the swarm watch remembers between two looks at a torrent's
/// statistics (one look a second).
#[derive(Debug, Clone, Copy, PartialEq, Eq, Structural)]
pub struct SwarmWatch {
    pub last_down_bytes: u64,
    pub last_up_bytes: u64,
    pub stalled_ticks: u32,
}

/// What to do after a look at the statistics.
#[derive(Debug, Clone, Copy, PartialEq, Eq, Structural)]
pub enum SwarmStep {
    /// The torrent is complete: report success and stop watching.
    Finished,
    /// Bytes came in: report progress, with the bytes downloaded and
    /// uploaded since the last report.
    Progress { down_delta: u64, up_delta: u64 },
    /// Nothing came in: look again in a second.
    Wait,
    /// Nothing came in for `STALL_LIMIT` looks: a firewall is blocking the
    /// peers, so hand the torrent to the cloud accelerator and stop.
    HandOver,
}

impl SwarmWatch {
    /// The watch before the first look.
    pub fn new() -> (w: SwarmWatch)
        ensures
            w == (SwarmWatch { last_down_bytes: 0, last_up_bytes: 0, stalled_ticks: 0 }),
    {
        SwarmWatch { last_down_bytes: 0, last_up_bytes: 0, stalled_ticks: 0 }
    }

    /// The watch keeps counting only while it keeps watching.
    pub open spec fn wf(self) -> bool {
        self.stalled_ticks < STALL_LIMIT
    }
}

/// One look at the statistics: `progress` and `uploaded` bytes so far, and
/// whether the torrent is complete.
pub fn swarm_step(w: SwarmWatch, progress: u64, uploaded: u64, finished: bool) -> (r: (
    SwarmWatch,
    SwarmStep,
))
    requires
        w.wf(),
    ensures
        finished ==> r == (w, SwarmStep::Finished),
        !finished && progress > 0 && progress > w.last_down_bytes ==> r == (
            SwarmWatch { last_down_bytes: progress, last_up_bytes: uploaded, stalled_ticks: 0 },
            SwarmStep::Progress {
                down_delta: (progress - w.last_down_bytes) as u64,
                up_delta: if uploaded > w.last_up_bytes {
                    (uploaded - w.last_up_bytes) as u64
                } else {
                    0
                },
            },
        ),
        !finished && !(progress > 0 && progress > w.last_down_bytes) ==> {
            &&& r.0 == SwarmWatch { stalled_ticks: (w.stalled_ticks + 1) as u32, ..w }
            &&& r.1 == if w.stalled_ticks + 1 >= STALL_LIMIT {
                SwarmStep::HandOver
            } else {
                SwarmStep::Wait
            }
        },
        r.1 != SwarmStep::HandOver && r.1 != SwarmStep::Finished ==> r.0.wf(),
{
    if finished {
        return (w, SwarmStep::Finished);
    }
    if progress > 0 && progress > w.last_down_bytes {
        let up_delta = uploaded.saturating_sub(w.last_up_bytes);
        (
            SwarmWatch { last_down_bytes: progress, last_up_bytes: uploaded, stalled_ticks: 0 },
            SwarmStep::Progress { down_delta: progress - w.last_down_bytes, up_delta },
        )
    } else {
        let stalled = w.stalled_ticks + 1;
        let next = SwarmWatch { stalled_ticks: stalled, ..w };
        if stalled >= STALL_LIMIT {
            (next, SwarmStep::HandOver)
        } else {
            (next, SwarmStep::Wait)
        }
    }
}

// ---------------------------------------------------------------------------
// Durations
// ---------------------------------------------------------------------------

/// `"{h}h {m}m"`, `"{m}m {s}s"` or `"{s}s"` for a number of seconds.
pub open spec fn duration_text(total_secs: u64) -> Seq<char> {
    let hours = total_secs / 3600;
    let minutes = (total_secs % 3600) / 60;
    let seconds = total_secs % 60;
    if hours > 0 {
        decimal(hours as nat) + "h "@ + decimal(minutes as nat) + "m"@
    } else if minutes > 0 {
        decimal(minutes as nat) + "m "@ + decimal(seconds as nat) + "s"@
    } else {
        decimal(seconds as nat) + "s"@
    }
}

/// A duration in whole seconds, written with its two largest units.
pub fn format_duration(total_secs: u64) -> (s: String)
    ensures
        s@ == duration_text(total_secs),
{
    let hours = total_secs / 3600;
    let minutes = (total_secs % 3600) / 60;
    let seconds = total_secs % 60;
    let mut s = String::new();
    if hours > 0 {
        push_decimal(&mut s, hours as u128);
        s.append("h ");
        push_decimal(&mut s, minutes as u128);
        s.append("m");
    } else if minutes > 0 {
        push_decimal(&mut s, minutes as u128);
        s.append("m ");
        push_decimal(&mut s, seconds as u128);
        s.append("s");
    } else {
        push_decimal(&mut s, seconds as u128);
        s.append("s");
    }
    s
}

// ---------------------------------------------------------------------------
// Downloads
// ---------------------------------------------------------------------------

impl Torrent {
    /// A copy of the torrent.
    pub fn duplicate(&self) -> (t: Torrent)
        ensures
            t == *self,
    {
        let magnet = match &self.magnet {
            Some(m) => Some(m.clone()),
            None => None,
        };
        let torrent_url = match &self.torrent_url {
            Some(u) => Some(u.clone()),
            None => None,
        };
        Torrent {
            name: self.name.clone(),
            info_hash: self.info_hash.clone(),
            magnet,
            torrent_url,
            seeders: self.seeders,
            size_bytes: self.size_bytes,
        }
    }
}

/// The status line of a download that starts now.
pub open spec fn start_status_text(dpi_blocked: bool) -> Seq<char> {
    if dpi_blocked {
        "Canary: DPI detected. Activating Cloud Accelerator (0s delay)..."@
    } else {
        "Connecting to swarm..."@
    }
}

/// Seconds a history entry took: to completion, or none if never completed.
pub open spec fn history_duration(e: DownloadHistoryEntry) -> u64 {
    let end = match e.completed_at_epoch_secs {
        Some(c) => c,
        None => e.added_at_epoch_secs,
    };
    if end >= e.added_at_epoch_secs {
        (end - e.added_at_epoch_secs) as u64
    } else {
        0
    }
}

/// The status line after a progress report.
pub open spec fn progress_text(
    down_speed: u64,
    up_speed: u64,
    progress_bytes: u64,
    finished: bool,
    share_ratio_text: Seq<char>,
) -> Seq<char> {
    if finished {
        "seeding | up "@ + size_text(up_speed) + "/s | ratio "@ + share_ratio_text
    } else {
        "down "@ + size_text(down_speed) + "/s | "@ + size_text(progress_bytes)
    }
}

/// `after` is `before` once it has taken in `event` at `elapsed_secs`.
pub open spec fn event_applied(before: DownloadStatus, event: DownloadEvent, elapsed_secs: u64, after: DownloadStatus) -> bool {
    &&& after.torrent == before.torrent
    &&& after.target_path == before.target_path
    &&& after.tracking == before.tracking
    &&& match event {
            DownloadEvent::Status(msg) => {
                &&& after.status_text == msg
                &&& after.finished_secs == before.finished_secs
                &&& after.outcome == before.outcome
            },
            DownloadEvent::Progress {
                down_speed,
                up_speed,
                progress_bytes,
                finished,
                share_ratio_text,
            } => {
                &&& after.status_text@ == progress_text(
                    down_speed,
                    up_speed,
                    progress_bytes,
                    finished,
                    share_ratio_text@,
                )
                &&& after.finished_secs == if finished && before.finished_secs is None {
                    Some(elapsed_secs)
                } else {
                    before.finished_secs
                }
                &&& after.outcome == before.outcome
            },
            DownloadEvent::Success => {
                &&& after.status_text == before.status_text
                &&& after.finished_secs == if before.finished_secs is None {
                    Some(elapsed_secs)
                } else {
                    before.finished_secs
                }
                &&& after.outcome == Some(DownloadOutcome::Success)
            },
            DownloadEvent::Error(err) => {
                &&& after.status_text@ == "Error: "@ + err@
                &&& after.finished_secs == if before.finished_secs is None {
                    Some(elapsed_secs)
                } else {
                    before.finished_secs
                }
                &&& after.outcome == Some(DownloadOutcome::Failed)
            },
        }
}

impl DownloadStatus {
    /// Is this a download of this session that has not ended?
    pub open spec fn managed_active(&self) -> bool {
        self.tracking == DownloadTracking::Managed && self.outcome is None
    }

    /// A download of `torrent` into `target_path` that starts now; with the
    /// firewall blocking peers it goes straight to the cloud accelerator.
    pub fn start(torrent: Torrent, target_path: PathBuf, dpi_blocked: bool) -> (d: DownloadStatus)
        ensures
            d.torrent == torrent,
            d.target_path == target_path,
            d.tracking == DownloadTracking::Managed,
            d.status_text@ == start_status_text(dpi_blocked),
            d.finished_secs is None,
            d.outcome is None,
    {
        let mut status_text = String::new();
        if dpi_blocked {
            status_text.append("Canary: DPI detected. Activating Cloud Accelerator (0s delay)...");
        } else {
            status_text.append("Connecting to swarm...");
        }
        DownloadStatus {
            torrent,
            target_path,
            tracking: DownloadTracking::Managed,
            status_text,
            finished_secs: None,
            outcome: None,
        }
    }

    /// `d` is the finished download that the history entry `e` stands for.
    pub open spec fn shows_history_entry(d: DownloadStatus, e: DownloadHistoryEntry) -> bool {
        &&& d.torrent.name == e.name
        &&& d.torrent.info_hash == e.info_hash
        &&& d.torrent.magnet is None
        &&& d.torrent.torrent_url is None
        &&& d.torrent.seeders == 0
        &&& d.torrent.size_bytes == 0
        &&& d.target_path == e.target_path
        &&& d.tracking == DownloadTracking::History
        &&& d.status_text@ == "Finished"@
        &&& d.finished_secs == Some(history_duration(e))
        &&& d.outcome == Some(DownloadOutcome::Success)
    }

    /// A finished download read from the history.
    pub fn from_history_entry(entry: DownloadHistoryEntry) -> (d: DownloadStatus)
        ensures
            DownloadStatus::shows_history_entry(d, entry),
    {
        let end = match entry.completed_at_epoch_secs {
            Some(c) => c,
            None => entry.added_at_epoch_secs,
        };
        let duration_secs = end.saturating_sub(entry.added_at_epoch_secs);
        let mut status_text = String::new();
        status_text.append("Finished");
        DownloadStatus {
            torrent: Torrent {
                name: entry.name,
                info_hash: entry.info_hash,
                magnet: None,
                torrent_url: None,
                seeders: 0,
                size_bytes: 0,
            },
            target_path: entry.target_path,
            tracking: DownloadTracking::History,
            status_text,
            finished_secs: Some(duration_secs),
            outcome: Some(DownloadOutcome::Success),
        }
    }

    /// Is this a download of this session that has not ended?
    pub fn is_managed_active(&self) -> (r: bool)
        ensures
            r == self.managed_active(),
    {
        match (self.tracking, &self.outcome) {
            (DownloadTracking::Managed, None) => true,
            _ => false,
        }
    }

    /// Takes in one report from the download; `elapsed_secs` is the time since
    /// it started, kept as its duration when this report ends it.
    pub fn apply_event(&mut self, event: DownloadEvent, elapsed_secs: u64)
        ensures
            event_applied(*old(self), event, elapsed_secs, *final(self)),
    {
        match event {
            DownloadEvent::Status(msg) => {
                self.status_text = msg;
            },
            DownloadEvent::Progress {
                down_speed,
                up_speed,
                progress_bytes,
                finished,
                share_ratio_text,
            } => {
                let mut text = String::new();
                if finished {
                    if self.finished_secs.is_none() {
                        self.finished_secs = Some(elapsed_secs);
                    }
                    text.append("seeding | up ");
                    let up = format_size(up_speed);
                    text.append(up.as_str());
                    text.append("/s | ratio ");
                    text.append(share_ratio_text.as_str());
                } else {
                    text.append("down ");
                    let down = format_size(down_speed);
                    text.append(down.as_str());
                    text.append("/s | ");
                    let got = format_size(progress_bytes);
                    text.append(got.as_str());
                }
                self.status_text = text;
            },
            DownloadEvent::Success => {
                self.outcome = Some(DownloadOutcome::Success);
                if self.finished_secs.is_none() {
                    self.finished_secs = Some(elapsed_secs);
                }
            },
            DownloadEvent::Error(err) => {
                let mut text = String::new();
                text.append("Error: ");
                text.append(err.as_str());
                self.status_text = text;
                self.outcome = Some(DownloadOutcome::Failed);
                if self.finished_secs.is_none() {
                    self.finished_secs = Some(elapsed_secs);
                }
            },
        }
    }

    /// Marks a download of this session as aborted; history entries stay as they are.
    pub fn abort(&mut self, elapsed_secs: u64)
        ensures
            old(self).tracking == DownloadTracking::History ==> *final(self) == *old(self),
            old(self).tracking == DownloadTracking::Managed ==> {
                &&& final(self).torrent == old(self).torrent
                &&& final(self).target_path == old(self).target_path
                &&& final(self).tracking == old(self).tracking
                &&& final(self).status_text@ == "Download aborted"@
                &&& final(self).outcome == Some(DownloadOutcome::Aborted)
                &&& final(self).finished_secs == if old(self).finished_secs is None {
                    Some(elapsed_secs)
                } else {
                    old(self).finished_secs
                }
            },
    {
        if self.tracking == DownloadTracking::History {
            return;
        }
        let mut text = String::new();
        text.append("Download aborted");
        self.status_text = text;
        self.outcome = Some(DownloadOutcome::Aborted);
        if self.finished_secs.is_none() {
            self.finished_secs = Some(elapsed_secs);
        }
    }

    /// How long the download ran (or has run, `running_secs`, while it runs).
    pub fn elapsed_time(&self, running_secs: u64) -> (s: String)
        ensures
            s@ == duration_text(
                match self.finished_secs {
                    Some(f) => f,
                    None => running_secs,
                },
            ),
    {
        match self.finished_secs {
            Some(f) => format_duration(f),
            None => format_duration(running_secs),
        }
    }
}

// ---------------------------------------------------------------------------
// The search screen
// ---------------------------------------------------------------------------

/// The pane Tab moves to.
pub open spec fn next_focus(f: FocusPane) -> FocusPane {
    match f {
        FocusPane::Query => FocusPane::Results,
        FocusPane::Results => FocusPane::Downloads,
        FocusPane::Downloads => FocusPane::Query,
    }
}

/// The pane Shift-Tab moves to.
pub open spec fn prev_focus(f: FocusPane) -> FocusPane {
    match f {
        FocusPane::Query => FocusPane::Downloads,
        FocusPane::Results => FocusPane::Query,
        FocusPane::Downloads => FocusPane::Results,
    }
}

/// `after` is `before` aborted at `elapsed_secs` (see `DownloadStatus::abort`).
pub open spec fn aborted_from(before: DownloadStatus, after: DownloadStatus, elapsed_secs: u64) -> bool {
    &&& after.torrent == before.torrent
    &&& after.target_path == before.target_path
    &&& after.tracking == before.tracking
    &&& after.status_text@ == "Download aborted"@
    &&& after.outcome == Some(DownloadOutcome::Aborted)
    &&& after.finished_secs == if before.finished_secs is None {
        Some(elapsed_secs)
    } else {
        before.finished_secs
    }
}

/// `after` is `before` with every download of this session that is still
/// running aborted at its own elapsed time.
pub open spec fn all_aborted(
    before: Seq<DownloadStatus>,
    after: Seq<DownloadStatus>,
    elapsed: Seq<u64>,
) -> bool {
    &&& after.len() == before.len()
    &&& forall|i: int|
        0 <= i < before.len() ==> if before[i].managed_active() {
            aborted_from(before[i], #[trigger] after[i], elapsed[i])
        } else {
            after[i] == before[i]
        }
}

/// The state of the search screen.
#[derive(Debug)]
pub struct SearchState {
    pub query_input: String,
    pub results: Vec<Torrent>,
    pub selected_result: usize,
    pub selected_download: usize,
    pub downloads: Vec<DownloadStatus>,
    pub should_quit: bool,
    pub show_help: bool,
    pub focus: FocusPane,
    pub is_searching: bool,
}

/// The number of downloads of this session still running.
pub open spec fn count_active(ds: Seq<DownloadStatus>) -> nat
    decreases ds.len(),
{
    if ds.len() == 0 {
        0
    } else {
        count_active(ds.drop_last()) + if ds.last().managed_active() {
            1nat
        } else {
            0nat
        }
    }
}

impl SearchState {
    /// Selections point at an entry, or are 0 when there is none.
    pub open spec fn wf(&self) -> bool {
        &&& self.selected_result == 0 || self.selected_result < self.results@.len()
        &&& self.selected_download == 0 || self.selected_download < self.downloads@.len()
    }

    /// The screen at start: the history's downloads, focus on the results.
    pub fn new(history_entries: Vec<DownloadHistoryEntry>) -> (s: SearchState)
        ensures
            s.wf(),
            s.query_input@ == Seq::<char>::empty(),
            s.results@.len() == 0,
            s.selected_result == 0,
            s.selected_download == 0,
            s.downloads@.len() == history_entries@.len(),
            forall|i: int|
                0 <= i < history_entries@.len() ==> DownloadStatus::shows_history_entry(
                    #[trigger] s.downloads@[i],
                    history_entries@[i],
                ),
            !s.should_quit,
            !s.show_help,
            s.focus == FocusPane::Results,
            !s.is_searching,
    {
        let ghost all = history_entries@;
        let mut downloads: Vec<DownloadStatus> = Vec::new();
        for entry in it: history_entries.into_iter()
            invariant
                it.seq() == all,
                downloads@.len() == it.index(),
                forall|i: int|
                    0 <= i < it.index() ==> DownloadStatus::shows_history_entry(
                        #[trigger] downloads@[i],
                        all[i],
                    ),
        {
            downloads.push(DownloadStatus::from_history_entry(entry));
        }
        SearchState {
            query_input: String::new(),
            results: Vec::new(),
            selected_result: 0,
            selected_download: 0,
            downloads,
            should_quit: false,
            show_help: false,
            focus: FocusPane::Results,
            is_searching: false,
        }
    }

    /// The number of downloads of this session still running.
    pub fn active_downloads(&self) -> (n: usize)
        ensures
            n == count_active(self.downloads@),
    {
        let mut n: usize = 0;
        let mut i: usize = 0;
        while i < self.downloads.len()
            invariant
                i <= self.downloads@.len(),
                n == count_active(self.downloads@.take(i as int)),
                n <= i,
            decreases self.downloads@.len() - i,
        {
            assert(self.downloads@.take(i + 1).drop_last() == self.downloads@.take(i as int));
            if self.downloads[i].is_managed_active() {
                n = n + 1;
            }
            i = i + 1;
        }
        assert(self.downloads@.take(i as int) == self.downloads@);
        n
    }

    /// Aborts every download of this session that is still running.
    pub fn abort_all_downloads(&mut self, elapsed: &Vec<u64>)
        requires
            elapsed@.len() == old(self).downloads@.len(),
        ensures
            all_aborted(old(self).downloads@, final(self).downloads@, elapsed@),
            *final(self) == (SearchState { downloads: final(self).downloads, ..*old(self) }),
    {
        let ghost before = self.downloads@;
        let mut i: usize = 0;
        while i < self.downloads.len()
            invariant
                i <= self.downloads@.len(),
                self.downloads@.len() == before.len(),
                elapsed@.len() == before.len(),
                forall|k: int|
                    0 <= k < i ==> if before[k].managed_active() {
                        aborted_from(before[k], #[trigger] self.downloads@[k], elapsed@[k])
                    } else {
                        self.downloads@[k] == before[k]
                    },
                forall|k: int| i <= k < before.len() ==> self.downloads@[k] == before[k],
                *self == (SearchState { downloads: self.downloads, ..*old(self) }),
            decreases before.len() - i,
        {
            if self.downloads[i].is_managed_active() {
                self.downloads[i].abort(elapsed[i]);
            }
            i = i + 1;
        }
    }

    /// `after` is `before` with the download of `torrent` to `target_path`
    /// started: put at the end of the list, selected, and focused.
    pub open spec fn download_begun(
        before: SearchState,
        torrent: Torrent,
        target_path: PathBuf,
        dpi_blocked: bool,
        after: SearchState,
    ) -> bool {
        &&& after.downloads@.len() == before.downloads@.len() + 1
        &&& after.downloads@.take(before.downloads@.len() as int) == before.downloads@
        &&& after.downloads@.last().torrent == torrent
        &&& after.downloads@.last().target_path == target_path
        &&& after.downloads@.last().tracking == DownloadTracking::Managed
        &&& after.downloads@.last().status_text@ == start_status_text(dpi_blocked)
        &&& after.downloads@.last().outcome is None
        &&& after.downloads@.last().finished_secs is None
        &&& after.selected_download == before.downloads@.len()
        &&& after == (SearchState {
            downloads: after.downloads,
            selected_download: after.selected_download,
            focus: FocusPane::Downloads,
            ..before
        })
    }

    /// Puts a started download at the end of the list, selects it and
    /// moves the focus to the downloads.
    pub fn begin_download(&mut self, torrent: Torrent, target_path: PathBuf, dpi_blocked: bool)
        requires
            old(self).wf(),
        ensures
            final(self).wf(),
            SearchState::download_begun(*old(self), torrent, target_path, dpi_blocked, *final(self)),
    {
        let d = DownloadStatus::start(torrent, target_path, dpi_blocked);
        self.downloads.push(d);
        self.selected_download = self.downloads.len() - 1;
        self.focus = FocusPane::Downloads;
        assert(self.downloads@.take(old(self).downloads@.len() as int) == old(self).downloads@);
    }

    /// Takes in the merged results of a search (`None` when it failed).
    pub fn receive_results(&mut self, results: Option<Vec<Torrent>>)
        requires
            old(self).wf(),
        ensures
            final(self).wf(),
            match results {
                Some(r) => *final(self) == (SearchState {
                    results: r,
                    selected_result: 0,
                    focus: FocusPane::Results,
                    is_searching: false,
                    ..*old(self)
                }),
                None => *final(self) == (SearchState { is_searching: false, ..*old(self) }),
            },
    {
        self.is_searching = false;
        if let Some(r) = results {
            self.results = r;
            self.selected_result = 0;
            self.focus = FocusPane::Results;
        }
    }

    /// Index of the first download of the torrent with this info hash.
    pub fn find_download(&self, info_hash: &str) -> (r: Option<usize>)
        ensures
            r matches Some(i) ==> {
                &&& i < self.downloads@.len()
                &&& self.downloads@[i as int].torrent.info_hash@ == info_hash@
                &&& forall|j: int|
                    0 <= j < i ==> self.downloads@[j].torrent.info_hash@ != info_hash@
            },
            r is None ==> forall|j: int|
                0 <= j < self.downloads@.len() ==> self.downloads@[j].torrent.info_hash@
                    != info_hash@,
    {
        let mut i: usize = 0;
        while i < self.downloads.len()
            invariant
                i <= self.downloads@.len(),
                forall|j: int|
                    0 <= j < i ==> self.downloads@[j].torrent.info_hash@ != info_hash@,
            decreases self.downloads@.len() - i,
        {
            if str_eq(self.downloads[i].torrent.info_hash.as_str(), info_hash) {
                return Some(i);
            }
            i = i + 1;
        }
        None
    }

    /// Passes a report to download `index`. Returns whether a download of
    /// this session has just succeeded, so that it goes into the history.
    pub fn apply_download_event(&mut self, index: usize, event: DownloadEvent, elapsed_secs: u64) -> (record: bool)
        requires
            old(self).wf(),
            index < old(self).downloads@.len(),
        ensures
            final(self).wf(),
            record == (event is Success && old(self).downloads@[index as int].tracking
                == DownloadTracking::Managed),
            event_applied(
                old(self).downloads@[index as int],
                event,
                elapsed_secs,
                final(self).downloads@[index as int],
            ),
            final(self).downloads@.len() == old(self).downloads@.len(),
            forall|j: int|
                0 <= j < old(self).downloads@.len() && j != index ==> final(self).downloads@[j]
                    == old(self).downloads@[j],
            *final(self) == (SearchState { downloads: final(self).downloads, ..*old(self) }),
    {
        let is_success = match &event {
            DownloadEvent::Success => true,
            _ => false,
        };
        self.downloads[index].apply_event(event, elapsed_secs);
        is_success && self.downloads[index].tracking == DownloadTracking::Managed
    }

    /// Enter in the query box: a non-blank query starts a search.
    fn submit_query(&mut self) -> (action: TuiAction)
        requires
            old(self).wf(),
        ensures
            final(self).wf(),
            trim(old(self).query_input@).len() == 0 ==> *final(self) == *old(self)
                && action is Nothing,
            trim(old(self).query_input@).len() > 0 ==> {
                &&& *final(self) == (SearchState {
                    results: final(self).results,
                    selected_result: 0,
                    is_searching: true,
                    ..*old(self)
                })
                &&& final(self).results@.len() == 0
                &&& action matches TuiAction::Search(q) && q@ == trim(old(self).query_input@)
            },
    {
        let chars = str_chars(self.query_input.as_str());
        let (a, b) = trim_range(&chars);
        if a == b {
            return TuiAction::Nothing;
        }
        let query = string_of_chars(&chars, a, b);
        self.results.clear();
        self.is_searching = true;
        self.selected_result = 0;
        TuiAction::Search(query)
    }

    /// A key while the query box has the focus.
    fn handle_query_key(&mut self, key: Key) -> (action: TuiAction)
        requires
            old(self).wf(),
            old(self).focus == FocusPane::Query,
        ensures
            final(self).wf(),
            query_key_effect(*old(self), key, *final(self), action),
    {
        match key {
            Key::Enter => self.submit_query(),
            Key::Backspace => {
                pop_char(&mut self.query_input);
                TuiAction::Nothing
            },
            Key::Char(c) => {
                push_char(&mut self.query_input, c);
                TuiAction::Nothing
            },
            _ => TuiAction::Nothing,
        }
    }

    /// A key while the results table has the focus.
    fn handle_results_key(&mut self, key: Key) -> (action: TuiAction)
        requires
            old(self).wf(),
            old(self).focus == FocusPane::Results,
        ensures
            final(self).wf(),
            results_key_effect(*old(self), key, *final(self), action),
    {
        match key {
            Key::Up | Key::Char('k') => {
                if self.selected_result > 0 {
                    self.selected_result = self.selected_result - 1;
                }
                TuiAction::Nothing
            },
            Key::Down | Key::Char('j') => {
                let n = self.results.len();
                if n > 0 && self.selected_result < n - 1 {
                    self.selected_result = self.selected_result + 1;
                }
                TuiAction::Nothing
            },
            Key::Enter => {
                if self.selected_result < self.results.len() {
                    TuiAction::StartDownload(self.results[self.selected_result].duplicate())
                } else {
                    TuiAction::Nothing
                }
            },
            _ => TuiAction::Nothing,
        }
    }

    /// A key while the downloads list has the focus.
    fn handle_downloads_key(&mut self, key: Key, elapsed: &Vec<u64>) -> (action: TuiAction)
        requires
            old(self).wf(),
            old(self).focus == FocusPane::Downloads,
            elapsed@.len() == old(self).downloads@.len(),
        ensures
            final(self).wf(),
            action is Nothing,
            downloads_key_effect(*old(self), key, elapsed@, *final(self)),
    {
        match key {
            Key::Up | Key::Char('k') => {
                if self.selected_download > 0 {
                    self.selected_download = self.selected_download - 1;
                }
            },
            Key::Down | Key::Char('j') => {
                let n = self.downloads.len();
                if n > 0 && self.selected_download < n - 1 {
                    self.selected_download = self.selected_download + 1;
                }
            },
            Key::Char('d') => {
                let i = self.selected_download;
                if i < self.downloads.len() && self.downloads[i].is_managed_active() {
                    self.downloads[i].abort(elapsed[i]);
                }
            },
            _ => {},
        }
        TuiAction::Nothing
    }

    /// Answers one key press: help, focus and quitting first, then the
    /// focused pane. `elapsed[i]` is how long download `i` has been running.
    pub fn handle_key(&mut self, key: Key, elapsed: &Vec<u64>) -> (action: TuiAction)
        requires
            old(self).wf(),
            elapsed@.len() == old(self).downloads@.len(),
        ensures
            final(self).wf(),
            key_effect(*old(self), key, elapsed@, *final(self), action),
    {
        match key {
            Key::Char('?') => {
                if self.focus != FocusPane::Query {
                    self.show_help = !self.show_help;
                    return TuiAction::Nothing;
                }
            },
            Key::Tab => {
                self.focus = match self.focus {
                    FocusPane::Query => FocusPane::Results,
                    FocusPane::Results => FocusPane::Downloads,
                    FocusPane::Downloads => FocusPane::Query,
                };
                return TuiAction::Nothing;
            },
            Key::BackTab => {
                self.focus = match self.focus {
                    FocusPane::Query => FocusPane::Downloads,
                    FocusPane::Results => FocusPane::Query,
                    FocusPane::Downloads => FocusPane::Results,
                };
                return TuiAction::Nothing;
            },
            Key::Esc => {
                if self.show_help {
                    self.show_help = false;
                    return TuiAction::Nothing;
                }
                if self.active_downloads() > 0 {
                    self.abort_all_downloads(elapsed);
                } else {
                    proof {
                        lemma_no_active(self.downloads@, elapsed@);
                    }
                }
                self.should_quit = true;
                return TuiAction::Nothing;
            },
            _ => {},
        }
        match self.focus {
            FocusPane::Query => self.handle_query_key(key),
            FocusPane::Results => self.handle_results_key(key),
            FocusPane::Downloads => self.handle_downloads_key(key, elapsed),
        }
    }
}

/// Effect of a key on the query box.
pub open spec fn query_key_effect(s: SearchState, key: Key, t: SearchState, action: TuiAction) -> bool {
    match key {
        Key::Enter => if trim(s.query_input@).len() == 0 {
            t == s && action is Nothing
        } else {
            &&& t == (SearchState {
                results: t.results,
                selected_result: 0,
                is_searching: true,
                ..s
            })
            &&& t.results@.len() == 0
            &&& action matches TuiAction::Search(q) && q@ == trim(s.query_input@)
        },
        Key::Backspace => {
            &&& t == (SearchState { query_input: t.query_input, ..s })
            &&& t.query_input@ == if s.query_input@.len() == 0 {
                s.query_input@
            } else {
                s.query_input@.drop_last()
            }
            &&& action is Nothing
        },
        Key::Char(c) => {
            &&& t == (SearchState { query_input: t.query_input, ..s })
            &&& t.query_input@ == s.query_input@.push(c)
            &&& action is Nothing
        },
        _ => t == s && action is Nothing,
    }
}

/// Effect of a key on the results table.
pub open spec fn results_key_effect(s: SearchState, key: Key, t: SearchState, action: TuiAction) -> bool {
    if key == Key::Up || key == Key::Char('k') {
        &&& t == (SearchState {
            selected_result: if s.selected_result > 0 {
                (s.selected_result - 1) as usize
            } else {
                s.selected_result
            },
            ..s
        })
        &&& action is Nothing
    } else if key == Key::Down || key == Key::Char('j') {
        &&& t == (SearchState {
            selected_result: if s.selected_result + 1 < s.results@.len() {
                (s.selected_result + 1) as usize
            } else {
                s.selected_result
            },
            ..s
        })
        &&& action is Nothing
    } else if key == Key::Enter {
        &&& t == s
        &&& if s.selected_result < s.results@.len() {
            action == TuiAction::StartDownload(s.results@[s.selected_result as int])
        } else {
            action is Nothing
        }
    } else {
        t == s && action is Nothing
    }
}

/// Effect of a key on the downloads list.
pub open spec fn downloads_key_effect(s: SearchState, key: Key, elapsed: Seq<u64>, t: SearchState) -> bool {
    if key == Key::Up || key == Key::Char('k') {
        t == (SearchState {
            selected_download: if s.selected_download > 0 {
                (s.selected_download - 1) as usize
            } else {
                s.selected_download
            },
            ..s
        })
    } else if key == Key::Down || key == Key::Char('j') {
        t == (SearchState {
            selected_download: if s.selected_download + 1 < s.downloads@.len() {
                (s.selected_download + 1) as usize
            } else {
                s.selected_download
            },
            ..s
        })
    } else if key == Key::Char('d') {
        let i = s.selected_download as int;
        if i < s.downloads@.len() && s.downloads@[i].managed_active() {
            &&& t == (SearchState { downloads: t.downloads, ..s })
            &&& t.downloads@.len() == s.downloads@.len()
            &&& aborted_from(s.downloads@[i], t.downloads@[i], elapsed[i])
            &&& forall|j: int|
                0 <= j < s.downloads@.len() && j != i ==> t.downloads@[j] == s.downloads@[j]
        } else {
            t == s
        }
    } else {
        t == s
    }
}

/// Effect of a key press on the whole screen.
pub open spec fn key_effect(
    s: SearchState,
    key: Key,
    elapsed: Seq<u64>,
    t: SearchState,
    action: TuiAction,
) -> bool {
    if key == Key::Char('?') && s.focus != FocusPane::Query {
        t == (SearchState { show_help: !s.show_help, ..s }) && action is Nothing
    } else if key == Key::Tab {
        t == (SearchState { focus: next_focus(s.focus), ..s }) && action is Nothing
    } else if key == Key::BackTab {
        t == (SearchState { focus: prev_focus(s.focus), ..s }) && action is Nothing
    } else if key == Key::Esc {
        if s.show_help {
            t == (SearchState { show_help: false, ..s }) && action is Nothing
        } else {
            &&& t == (SearchState { downloads: t.downloads, should_quit: true, ..s })
            &&& all_aborted(s.downloads@, t.downloads@, elapsed)
            &&& action is Nothing
        }
    } else {
        match s.focus {
            FocusPane::Query => query_key_effect(s, key, t, action),
            FocusPane::Results => results_key_effect(s, key, t, action),
            FocusPane::Downloads => downloads_key_effect(s, key, elapsed, t) && action is Nothing,
        }
    }
}

/// With no download of this session running, aborting all changes nothing.
proof fn lemma_no_active(ds: Seq<DownloadStatus>, elapsed: Seq<u64>)
    requires
        count_active(ds) == 0,
    ensures
        all_aborted(ds, ds, elapsed),
    decreases ds.len(),
{
    if ds.len() > 0 {
        lemma_no_active(ds.drop_last(), elapsed);
        assert forall|i: int| 0 <= i < ds.len() implies !ds[i].managed_active() by {
            if i < ds.len() - 1 {
                assert(ds[i] == ds.drop_last()[i]);
            }
        }
    }
}

// ---------------------------------------------------------------------------
// Merging the indexers' results
// ---------------------------------------------------------------------------

/// Both indexers' results, Pirate Bay first; a failed search gives none.
pub open spec fn combined_results(pb: Option<Vec<Torrent>>, nyaa: Option<Vec<Torrent>>) -> Seq<Torrent> {
    let a = match pb {
        Some(v) => v@,
        None => Seq::empty(),
    };
    let b = match nyaa {
        Some(v) => v@,
        None => Seq::empty(),
    };
    a + b
}

/// Most seeders first.
pub open spec fn seeders_descending(s: Seq<Torrent>) -> bool {
    forall|i: int, j: int| 0 <= i < j < s.len() ==> s[i].seeders >= s[j].seeders
}

/// `out` is `limit` (or all, if fewer) of the torrents of `all` with the most
/// seeders, most seeders first; which of several equally seeded torrents are
/// kept is left open.
pub open spec fn top_by_seeders(all: Seq<Torrent>, out: Seq<Torrent>, limit: nat) -> bool {
    &&& out.len() == if all.len() < limit {
        all.len()
    } else {
        limit
    }
    &&& seeders_descending(out)
    &&& forall|x: Torrent| out.to_multiset().count(x) <= all.to_multiset().count(x)
    &&& forall|x: Torrent, i: int|
        #![trigger all.to_multiset().count(x), out[i]]
        all.to_multiset().count(x) > out.to_multiset().count(x) && 0 <= i < out.len()
            ==> x.seeders <= out[i].seeders
}

/// Index of the first torrent with the most seeders.
fn max_seeders_index(v: &Vec<Torrent>) -> (m: usize)
    requires
        v@.len() > 0,
    ensures
        m < v@.len(),
        forall|j: int| 0 <= j < v@.len() ==> v@[j].seeders <= v@[m as int].seeders,
{
    let mut m: usize = 0;
    let mut i: usize = 1;
    while i < v.len()
        invariant
            1 <= i <= v@.len(),
            m < i,
            forall|j: int| 0 <= j < i ==> v@[j].seeders <= v@[m as int].seeders,
        decreases v@.len() - i,
    {
        if v[i].seeders > v[m].seeders {
            m = i;
        }
        i = i + 1;
    }
    m
}

/// The combined results of both indexers, most seeders first, cut to `limit`.
pub fn merge_search_results(
    pb: Option<Vec<Torrent>>,
    nyaa: Option<Vec<Torrent>>,
    limit: usize,
) -> (out: Vec<Torrent>)
    ensures
        top_by_seeders(combined_results(pb, nyaa), out@, limit as nat),
{
    broadcast use vstd::seq_lib::group_to_multiset_ensures;

    let ghost all = combined_results(pb, nyaa);
    let mut rem: Vec<Torrent> = match pb {
        Some(v) => v,
        None => Vec::new(),
    };
    match nyaa {
        Some(v) => {
            let mut w = v;
            rem.append(&mut w);
        },
        None => {},
    }
    assert(rem@ =~= all);
    let mut out: Vec<Torrent> = Vec::new();
    assert(out@.to_multiset() =~= Multiset::empty());
    assert(rem@.to_multiset().add(out@.to_multiset()) =~= all.to_multiset());
    while out.len() < limit && rem.len() > 0
        invariant
            out@.len() <= limit,
            out@.len() + rem@.len() == all.len(),
            rem@.to_multiset().add(out@.to_multiset()) == all.to_multiset(),
            seeders_descending(out@),
            forall|r: int, i: int|
                #![trigger rem@[r], out@[i]]
                0 <= r < rem@.len() && 0 <= i < out@.len() ==> rem@[r].seeders
                    <= out@[i].seeders,
        decreases rem@.len(),
    {
        let m = max_seeders_index(&rem);
        let ghost before_rem = rem@;
        let ghost before_out = out@;
        let x = rem.remove(m);
        assert(before_rem.remove(m as int) == rem@);
        out.push(x);
        proof {
            before_rem.to_multiset_ensures();
            before_out.to_multiset_ensures();
            assert(x == before_rem[m as int]);
            assert(before_rem.remove(m as int).to_multiset() =~= before_rem.to_multiset().remove(x));
            assert(out@ == before_out.push(x));
            assert(before_out.push(x).to_multiset() =~= before_out.to_multiset().insert(x));
        }
        assert(rem@.to_multiset().add(out@.to_multiset()) =~= all.to_multiset());
        assert forall|r: int, i: int|
            #![trigger rem@[r], out@[i]]
            0 <= r < rem@.len() && 0 <= i < out@.len() implies rem@[r].seeders
                <= out@[i].seeders by {
            let r0 = if r < m {
                r
            } else {
                r + 1
            };
            assert(rem@[r] == before_rem[r0]);
            if i < before_out.len() {
                assert(out@[i] == before_out[i]);
            }
        }
        assert forall|i: int, j: int|
            0 <= i < j < out@.len() implies out@[i].seeders >= out@[j].seeders by {
            if j == out@.len() - 1 {
                assert(out@[j] == before_rem[m as int]);
                assert(out@[i] == before_out[i]);
            } else {
                assert(out@[i] == before_out[i]);
                assert(out@[j] == before_out[j]);
            }
        }
    }
    assert forall|x: Torrent| out@.to_multiset().count(x) <= all.to_multiset().count(x) by {}
    assert forall|x: Torrent, i: int|
        #![trigger all.to_multiset().count(x), out@[i]]
        all.to_multiset().count(x) > out@.to_multiset().count(x) && 0 <= i < out@.len()
            implies x.seeders <= out@[i].seeders by {
        assert(rem@.to_multiset().count(x) > 0);
        assert(rem@.contains(x));
        let r = choose|r: int| 0 <= r < rem@.len() && rem@[r] == x;
        assert(rem@[r].seeders <= out@[i].seeders);
    }
    out
}

// ---------------------------------------------------------------------------
// Laws of the search screen
// ---------------------------------------------------------------------------

/// Tab and Shift-Tab undo each other, and three Tabs come back to the same pane.
pub proof fn law_focus_cycle(f: FocusPane)
    ensures
        prev_focus(next_focus(f)) == f,
        next_focus(prev_focus(f)) == f,
        next_focus(next_focus(next_focus(f))) == f,
{
}

proof fn lemma_none_active(ds: Seq<DownloadStatus>)
    requires
        forall|i: int| 0 <= i < ds.len() ==> !(#[trigger] ds[i]).managed_active(),
    ensures
        count_active(ds) == 0,
    decreases ds.len(),
{
    if ds.len() > 0 {
        assert forall|i: int| 0 <= i < ds.drop_last().len() implies !(
        #[trigger] ds.drop_last()[i]).managed_active() by {
            assert(ds.drop_last()[i] == ds[i]);
        }
        lemma_none_active(ds.drop_last());
        assert(!ds[ds.len() - 1].managed_active());
    }
}

/// Esc, with the help closed, quits and leaves no download of this session
/// running.
pub proof fn law_esc_stops_downloads(
    s: SearchState,
    elapsed: Seq<u64>,
    t: SearchState,
    action: TuiAction,
)
    requires
        !s.show_help,
        elapsed.len() == s.downloads@.len(),
        key_effect(s, Key::Esc, elapsed, t, action),
    ensures
        t.should_quit,
        count_active(t.downloads@) == 0,
{
    assert forall|i: int| 0 <= i < t.downloads@.len() implies !(
    #[trigger] t.downloads@[i]).managed_active() by {
        if s.downloads@[i].managed_active() {
            assert(aborted_from(s.downloads@[i], t.downloads@[i], elapsed[i]));
        } else {
            assert(t.downloads@[i] == s.downloads@[i]);
        }
    }
    lemma_none_active(t.downloads@);
}

/// Esc with the help open only closes the help.
pub proof fn law_esc_closes_help(
    s: SearchState,
    elapsed: Seq<u64>,
    t: SearchState,
    action: TuiAction,
)
    requires
        s.show_help,
        key_effect(s, Key::Esc, elapsed, t, action),
    ensures
        !t.show_help,
        t.should_quit == s.should_quit,
        t.downloads == s.downloads,
        action is Nothing,
{
}

/// In the downloads list Down (or `j`) moves the selection to the next
/// download, staying on the last one; Up (or `k`) moves it to the previous
/// one, staying on the first; nothing else changes.
pub proof fn law_downloads_navigation(
    s: SearchState,
    key: Key,
    elapsed: Seq<u64>,
    t: SearchState,
    action: TuiAction,
)
    requires
        s.wf(),
        s.focus == FocusPane::Downloads,
        key == Key::Up || key == Key::Char('k') || key == Key::Down || key == Key::Char('j'),
        key_effect(s, key, elapsed, t, action),
    ensures
        t.downloads == s.downloads,
        t.results == s.results,
        t.selected_result == s.selected_result,
        t.focus == s.focus,
        action is Nothing,
        t.selected_download < if t.downloads@.len() > 0 {
            t.downloads@.len()
        } else {
            1
        },
        (key == Key::Down || key == Key::Char('j')) ==> t.selected_download == if s.selected_download
            + 1 < s.downloads@.len() {
            s.selected_download + 1
        } else {
            s.selected_download as int
        },
        (key == Key::Up || key == Key::Char('k')) ==> t.selected_download == if s.selected_download
            > 0 {
            s.selected_download - 1
        } else {
            0
        },
{
    assert(s.downloads@.len() == s.downloads.len());
}

/// The elapsed time reads back to the duration: with hours, the hours and
/// minutes printed are the whole hours and the whole minutes left, within
/// a minute of the duration; under an hour, the minutes and seconds
/// printed add up to it exactly; under a minute, the seconds are printed.
pub proof fn law_duration_reads_back(total_secs: u64)
    ensures
        total_secs >= 3600 ==> exists|h: nat, m: nat|
            {
                &&& m < 60
                &&& 3600 * h + 60 * m <= total_secs < 3600 * h + 60 * m + 60
                &&& #[trigger] duration_text(total_secs) == decimal(h) + "h "@ + decimal(m) + "m"@
            },
        60 <= total_secs < 3600 ==> exists|m: nat, sec: nat|
            {
                &&& 1 <= m < 60
                &&& sec < 60
                &&& 60 * m + sec == total_secs
                &&& #[trigger] duration_text(total_secs) == decimal(m) + "m "@ + decimal(sec) + "s"@
            },
        total_secs < 60 ==> duration_text(total_secs) == decimal(total_secs as nat) + "s"@,
{
    let t = total_secs as nat;
    let h = t / 3600;
    let r = t % 3600;
    let m = r / 60;
    let sec = t % 60;
    vstd::arithmetic::div_mod::lemma_fundamental_div_mod(t as int, 3600);
    vstd::arithmetic::div_mod::lemma_fundamental_div_mod(r as int, 60);
    assert(t == 3600 * h + r && r < 3600);
    assert(r == 60 * m + r % 60 && r % 60 < 60);
    assert(r % 60 == sec) by {
        vstd::arithmetic::div_mod::lemma_fundamental_div_mod(t as int, 60);
        vstd::arithmetic::div_mod::lemma_fundamental_div_mod_converse(
            t as int,
            60,
            (60 * h + m) as int,
            (r % 60) as int,
        );
        assert(t == 60 * (60 * h + m) + r % 60) by (nonlinear_arith)
            requires
                t == 3600 * h + r,
                r == 60 * m + r % 60,
        ;
    }
    if total_secs >= 3600 {
        assert(h >= 1) by (nonlinear_arith)
            requires
                t == 3600 * h + r,
                r < 3600,
                t >= 3600,
        ;
        assert(m < 60);
        assert(duration_text(total_secs) == decimal(h) + "h "@ + decimal(m) + "m"@);
    } else if total_secs >= 60 {
        assert(h == 0) by (nonlinear_arith)
            requires
                t == 3600 * h + r,
                t < 3600,
        ;
        assert(m >= 1);
        assert(duration_text(total_secs) == decimal(m) + "m "@ + decimal(sec) + "s"@);
    } else {
        assert(h == 0 && m == 0) by (nonlinear_arith)
            requires
                t == 3600 * h + r,
                r == 60 * m + r % 60,
                r % 60 < 60,
                t < 60,
        ;
    }
}

/// In the results table the selection stays on a result (or at 0 when
/// there is none): Down moves it one further, stopping at the last result;
/// Up one back, stopping at the first; Enter on a result starts its
/// download, which puts it last in the downloads, selected and focused.
pub proof fn law_results_navigation(
    s: SearchState,
    key: Key,
    elapsed: Seq<u64>,
    t: SearchState,
    action: TuiAction,
)
    requires
        s.wf(),
        s.focus == FocusPane::Results,
        key == Key::Up || key == Key::Char('k') || key == Key::Down || key == Key::Char('j')
            || key == Key::Enter,
        key_effect(s, key, elapsed, t, action),
    ensures
        t.selected_result < if t.results@.len() > 0 {
            t.results@.len()
        } else {
            1
        },
        t.results == s.results,
        (key == Key::Down || key == Key::Char('j')) ==> t.selected_result == if s.selected_result
            + 1 < s.results@.len() {
            s.selected_result + 1
        } else {
            s.selected_result as int
        },
        (key == Key::Up || key == Key::Char('k')) ==> t.selected_result == if s.selected_result
            > 0 {
            s.selected_result - 1
        } else {
            0
        },
        key == Key::Enter && s.results@.len() > 0 ==> action == TuiAction::StartDownload(
            s.results@[s.selected_result as int],
        ),
        key == Key::Enter && s.results@.len() == 0 ==> action is Nothing,
{
    assert(s.results@.len() == s.results.len());
}

/// Starting the download that Enter asks for puts the selected result last
/// in the downloads, selects it and moves the focus there.
pub proof fn law_enter_starts_selected(
    s: SearchState,
    elapsed: Seq<u64>,
    t: SearchState,
    torrent: Torrent,
    target_path: PathBuf,
    dpi_blocked: bool,
    u: SearchState,
)
    requires
        s.wf(),
        s.focus == FocusPane::Results,
        key_effect(s, Key::Enter, elapsed, t, TuiAction::StartDownload(torrent)),
        SearchState::download_begun(t, torrent, target_path, dpi_blocked, u),
    ensures
        u.downloads@.len() == s.downloads@.len() + 1,
        u.downloads@.last().torrent == s.results@[s.selected_result as int],
        u.selected_download == u.downloads@.len() - 1,
        u.focus == FocusPane::Downloads,
        u.results == s.results,
{
}

/// In the query box, a typed character erased with Backspace leaves the
/// query as it was.
pub proof fn law_type_then_erase(
    s: SearchState,
    c: char,
    elapsed: Seq<u64>,
    t: SearchState,
    a1: TuiAction,
    u: SearchState,
    a2: TuiAction,
)
    requires
        s.focus == FocusPane::Query,
        key_effect(s, Key::Char(c), elapsed, t, a1),
        key_effect(t, Key::Backspace, elapsed, u, a2),
    ensures
        u.query_input@ == s.query_input@,
        u == (SearchState { query_input: u.query_input, ..s }),
{
    assert(t.query_input@ == s.query_input@.push(c));
    assert(t.query_input@.drop_last() =~= s.query_input@);
}

} // verus!
