//! The download history: its record, how a record is added or replaced,
//! which records survive loading, and the clock it is stamped with.

use vstd::prelude::*;
use std::path::PathBuf;
use std::time::{Duration, SystemTime};
use crate::text::str_eq;

verus! {

#[verifier::external_type_specification]
#[verifier::external_body]
pub struct ExPathBuf(PathBuf);

#[verifier::external_type_specification]
#[verifier::external_body]
pub struct ExSystemTime(SystemTime);

/// `Clone::clone` of `PathBuf` from std, which the derived `Clone` of a
/// history entry calls. Nothing is claimed of the copy.
pub assume_specification[ <PathBuf as Clone>::clone ](p: &PathBuf) -> PathBuf;

/// One finished (or started) download remembered across runs.
#[derive(Debug, Clone, PartialEq, Eq)]
pub struct DownloadHistoryEntry {
    pub info_hash: String,
    pub name: String,
    pub target_path: PathBuf,
    pub added_at_epoch_secs: u64,
    pub completed_at_epoch_secs: Option<u64>,
}

/// Index of the first entry with this info hash.
pub open spec fn first_with_hash(entries: Seq<DownloadHistoryEntry>, hash: Seq<char>) -> Option<int>
    decreases entries.len(),
{
    if entries.len() == 0 {
        None
    } else if entries[0].info_hash@ == hash {
        Some(0)
    } else {
        match first_with_hash(entries.drop_first(), hash) {
            Some(i) => Some(i + 1),
            None => None,
        }
    }
}

/// The history after recording `entry`: it replaces the first entry with the
/// same info hash, or is appended when there is none.
pub open spec fn upserted(entries: Seq<DownloadHistoryEntry>, entry: DownloadHistoryEntry) -> Seq<
    DownloadHistoryEntry,
> {
    match first_with_hash(entries, entry.info_hash@) {
        Some(i) => entries.update(i, entry),
        None => entries.push(entry),
    }
}

pub proof fn lemma_first_with_hash(entries: Seq<DownloadHistoryEntry>, hash: Seq<char>)
    ensures
        first_with_hash(entries, hash) matches Some(i) ==> {
            &&& 0 <= i < entries.len()
            &&& entries[i].info_hash@ == hash
            &&& forall|j: int| 0 <= j < i ==> entries[j].info_hash@ != hash
        },
        first_with_hash(entries, hash) is None ==> forall|j: int|
            0 <= j < entries.len() ==> entries[j].info_hash@ != hash,
    decreases entries.len(),
{
    if entries.len() > 0 && entries[0].info_hash@ != hash {
        lemma_first_with_hash(entries.drop_first(), hash);
        let rest = entries.drop_first();
        assert forall|j: int| 1 <= j < entries.len() implies entries[j] == rest[j - 1] by {}
    }
}

/// Records `entry` in the history (see `upserted`).
pub fn upsert_entry(entries: &mut Vec<DownloadHistoryEntry>, entry: DownloadHistoryEntry)
    ensures
        final(entries)@ == upserted(old(entries)@, entry),
{
    proof {
        lemma_first_with_hash(entries@, entry.info_hash@);
    }
    let mut i: usize = 0;
    while i < entries.len()
        invariant
            i <= entries@.len(),
            entries@ == old(entries)@,
            forall|j: int| 0 <= j < i ==> entries@[j].info_hash@ != entry.info_hash@,
            first_with_hash(entries@, entry.info_hash@) matches Some(k) ==> {
                &&& 0 <= k < entries@.len()
                &&& entries@[k].info_hash@ == entry.info_hash@
                &&& forall|j: int| 0 <= j < k ==> entries@[j].info_hash@ != entry.info_hash@
            },
            first_with_hash(entries@, entry.info_hash@) is None ==> forall|j: int|
                0 <= j < entries@.len() ==> entries@[j].info_hash@ != entry.info_hash@,
        decreases entries@.len() - i,
    {
        if str_eq(entries[i].info_hash.as_str(), entry.info_hash.as_str()) {
            assert(first_with_hash(entries@, entry.info_hash@) == Some(i as int));
            entries.set(i, entry);
            return;
        }
        i = i + 1;
    }
    entries.push(entry);
}

/// Does loading keep this entry? Unfinished downloads are kept; finished
/// ones only while their file still exists.
pub open spec fn keeps_entry(e: DownloadHistoryEntry, target_exists: bool) -> bool {
    e.completed_at_epoch_secs is None || target_exists
}

/// The entries loading keeps, in order; `exists[i]` tells whether the
/// target of `entries[i]` exists.
pub open spec fn kept_entries(entries: Seq<DownloadHistoryEntry>, exists: Seq<bool>) -> Seq<
    DownloadHistoryEntry,
>
    decreases entries.len(),
{
    if entries.len() == 0 || exists.len() < entries.len() {
        Seq::empty()
    } else {
        let n = entries.len() - 1;
        let rest = kept_entries(entries.drop_last(), exists.take(n));
        if keeps_entry(entries.last(), exists[n]) {
            rest.push(entries.last())
        } else {
            rest
        }
    }
}

/// The entries worth showing after a load.
pub fn filter_history(entries: Vec<DownloadHistoryEntry>, exists: &Vec<bool>) -> (kept: Vec<
    DownloadHistoryEntry,
>)
    requires
        exists@.len() == entries@.len(),
    ensures
        kept@ == kept_entries(entries@, exists@),
{
    let ghost all = entries@;
    let mut kept: Vec<DownloadHistoryEntry> = Vec::new();
    let mut i: usize = 0;
    let n = exists.len();
    for e in it: entries.into_iter()
        invariant
            it.seq() == all,
            n == exists@.len(),
            all.len() == exists@.len(),
            i == it.index(),
            kept@ == kept_entries(all.take(i as int), exists@.take(i as int)),
    {
        let ghost done2 = all.take(i + 1);
        assert(done2.drop_last() == all.take(i as int));
        assert(exists@.take(i + 1).take(i as int) == exists@.take(i as int));
        assert(done2.last() == e);
        if e.completed_at_epoch_secs.is_none() || exists[i] {
            kept.push(e);
        }
        i = i + 1;
    }
    assert(all.take(all.len() as int) == all);
    assert(exists@.take(all.len() as int) == exists@);
    kept
}

/// Reads the clock: `SystemTime::now` from std. Nothing is claimed of the value.
#[verifier::external_body]
fn clock_now() -> SystemTime {
    SystemTime::now()
}

/// The time from the Unix epoch to `t`: `SystemTime::duration_since` from
/// std, `None` when `t` is before the epoch. Nothing is claimed of the
/// duration.
#[verifier::external_body]
fn since_unix_epoch(t: &SystemTime) -> Option<Duration> {
    match t.duration_since(std::time::UNIX_EPOCH) {
        Ok(d) => Some(d),
        Err(_) => None,
    }
}

/// Whole seconds of a duration: `Duration::as_secs` from std. Nothing is
/// claimed of the value.
#[verifier::external_body]
fn whole_secs(d: &Duration) -> u64 {
    d.as_secs()
}

/// The current time in whole seconds since the Unix epoch (0 if the clock
/// is set before the epoch).
#[must_use]
pub fn now_epoch_secs() -> u64 {
    let now = clock_now();
    match since_unix_epoch(&now) {
        Some(d) => whole_secs(&d),
        None => 0,
    }
}

/// No two entries share an info hash.
pub open spec fn unique_hashes(entries: Seq<DownloadHistoryEntry>) -> bool {
    forall|i: int, j: int|
        0 <= i < j < entries.len() ==> entries[i].info_hash@ != entries[j].info_hash@
}

/// After recording an entry, looking up its info hash finds exactly that entry.
pub proof fn law_upsert_then_lookup(entries: Seq<DownloadHistoryEntry>, entry: DownloadHistoryEntry)
    ensures
        first_with_hash(upserted(entries, entry), entry.info_hash@) matches Some(i) && upserted(
            entries,
            entry,
        )[i] == entry,
{
    lemma_first_with_hash(entries, entry.info_hash@);
    let after = upserted(entries, entry);
    lemma_first_with_hash(after, entry.info_hash@);
    match first_with_hash(entries, entry.info_hash@) {
        Some(i) => {
            assert(after[i].info_hash@ == entry.info_hash@);
            match first_with_hash(after, entry.info_hash@) {
                Some(k) => {
                    if k < i {
                        assert(after[k] == entries[k]);
                    }
                    if k > i {
                        assert(after[i].info_hash@ == entry.info_hash@);
                    }
                },
                None => {
                    assert(after[i].info_hash@ == entry.info_hash@);
                },
            }
        },
        None => {
            let n = entries.len() as int;
            assert(after[n] == entry);
            match first_with_hash(after, entry.info_hash@) {
                Some(k) => {
                    if k < n {
                        assert(after[k] == entries[k]);
                    }
                },
                None => {
                    assert(after[n].info_hash@ == entry.info_hash@);
                },
            }
        },
    }
}

/// Recording an entry leaves every entry with another info hash where it
/// was, and adds at most one entry.
pub proof fn law_upsert_keeps_others(entries: Seq<DownloadHistoryEntry>, entry: DownloadHistoryEntry)
    ensures
        forall|j: int|
            0 <= j < entries.len() && entries[j].info_hash@ != entry.info_hash@ ==> upserted(
                entries,
                entry,
            )[j] == entries[j],
        upserted(entries, entry).len() == entries.len() + if first_with_hash(
            entries,
            entry.info_hash@,
        ) is Some {
            0int
        } else {
            1int
        },
{
    lemma_first_with_hash(entries, entry.info_hash@);
}

/// Recording the same entry twice is the same as recording it once.
pub proof fn law_upsert_idempotent(entries: Seq<DownloadHistoryEntry>, entry: DownloadHistoryEntry)
    ensures
        upserted(upserted(entries, entry), entry) == upserted(entries, entry),
{
    let once = upserted(entries, entry);
    law_upsert_then_lookup(entries, entry);
    lemma_first_with_hash(once, entry.info_hash@);
    let i = first_with_hash(once, entry.info_hash@)->0;
    assert(once.update(i, entry) =~= once);
}

/// A history without repeated info hashes stays so after recording an entry.
pub proof fn law_upsert_unique(entries: Seq<DownloadHistoryEntry>, entry: DownloadHistoryEntry)
    requires
        unique_hashes(entries),
    ensures
        unique_hashes(upserted(entries, entry)),
{
    lemma_first_with_hash(entries, entry.info_hash@);
    let after = upserted(entries, entry);
    match first_with_hash(entries, entry.info_hash@) {
        Some(k) => {
            assert forall|i: int, j: int|
                0 <= i < j < after.len() implies after[i].info_hash@ != after[j].info_hash@ by {
                if i == k {
                    assert(entries[k].info_hash@ == entry.info_hash@);
                } else if j == k {
                    assert(entries[k].info_hash@ == entry.info_hash@);
                }
            }
        },
        None => {
            assert forall|i: int, j: int|
                0 <= i < j < after.len() implies after[i].info_hash@ != after[j].info_hash@ by {
                if j == entries.len() {
                    assert(after[i] == entries[i]);
                }
            }
        },
    }
}


/// Loading keeps every entry when each one passes: a history whose entries
/// are all unfinished or have their file reads back whole.
pub proof fn law_loading_keeps_passing(entries: Seq<DownloadHistoryEntry>, exists: Seq<bool>)
    requires
        exists.len() == entries.len(),
        forall|i: int| 0 <= i < entries.len() ==> keeps_entry(#[trigger] entries[i], exists[i]),
    ensures
        kept_entries(entries, exists) == entries,
    decreases entries.len(),
{
    if entries.len() > 0 {
        let n = entries.len() - 1;
        let es = entries.drop_last();
        let ex = exists.take(n);
        assert forall|i: int| 0 <= i < es.len() implies keeps_entry(#[trigger] es[i], ex[i]) by {
            assert(es[i] == entries[i]);
            assert(keeps_entry(entries[i], exists[i]));
        }
        law_loading_keeps_passing(es, ex);
        assert(keeps_entry(entries[n], exists[n]));
        assert(es.push(entries.last()) =~= entries);
    }
}

/// Which targets exist, read off for each entry of a history.
pub open spec fn existence(entries: Seq<DownloadHistoryEntry>, on_disk: spec_fn(PathBuf) -> bool) -> Seq<
    bool,
> {
    Seq::new(entries.len(), |i: int| on_disk(entries[i].target_path))
}

/// Every entry that loading keeps passes the filter.
proof fn lemma_kept_pass(entries: Seq<DownloadHistoryEntry>, on_disk: spec_fn(PathBuf) -> bool)
    ensures
        forall|i: int|
            0 <= i < kept_entries(entries, existence(entries, on_disk)).len() ==> {
                let e = #[trigger] kept_entries(entries, existence(entries, on_disk))[i];
                keeps_entry(e, on_disk(e.target_path))
            },
    decreases entries.len(),
{
    if entries.len() > 0 {
        let n = entries.len() - 1;
        let es = entries.drop_last();
        lemma_kept_pass(es, on_disk);
        assert(existence(entries, on_disk).take(n) =~= existence(es, on_disk));
    }
}

/// Recording an entry that passes the filter in a loaded history, then
/// loading again with the same files on disk, gives the recorded history
/// back whole; recording it once more then changes nothing.
pub proof fn law_upsert_then_reload(
    stored: Seq<DownloadHistoryEntry>,
    entry: DownloadHistoryEntry,
    on_disk: spec_fn(PathBuf) -> bool,
)
    requires
        keeps_entry(entry, on_disk(entry.target_path)),
    ensures
        ({
            let loaded = kept_entries(stored, existence(stored, on_disk));
            let written = upserted(loaded, entry);
            &&& kept_entries(written, existence(written, on_disk)) == written
            &&& upserted(written, entry) == written
        }),
{
    let loaded = kept_entries(stored, existence(stored, on_disk));
    let written = upserted(loaded, entry);
    lemma_kept_pass(stored, on_disk);
    lemma_first_with_hash(loaded, entry.info_hash@);
    assert forall|i: int| 0 <= i < written.len() implies keeps_entry(
        #[trigger] written[i],
        existence(written, on_disk)[i],
    ) by {
        if i < loaded.len() && written[i] == loaded[i] {
            let e = loaded[i];
            assert(keeps_entry(e, on_disk(e.target_path)));
        }
    }
    law_loading_keeps_passing(written, existence(written, on_disk));
    law_upsert_idempotent(loaded, entry);
}
} // verus!
