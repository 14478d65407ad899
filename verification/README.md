# torrentty

A terminal torrent searcher and downloader. Searches go to the Pirate Bay API
and the Nyaa RSS feed; downloads run in a BitTorrent session, or, when a
firewall blocks the swarm, through a cloud runner that streams the file back.

The logic is a Verus library under `src/`, verified:

- `text`: searching, trimming, splitting and integer parsing on characters.
- `util`: size formatting (exactly as binary64 arithmetic and `{:.2}` print
  it), magnet links, tracker lists, and reading indexer JSON fields.
- `bigdec`, `binary64`: exact decimal arithmetic and rounding to binary64,
  used to read sizes such as `1.5 GiB` as a float would.
- `indexer`: XML tags, Nyaa sizes and items, Pirate Bay records, proxy choice.
- `storage`: the download history and the clock.
- `tui`: the search screen's state machine, download status, merging of
  results, and the swarm watch that hands stalled downloads to the cloud.
- `cloud`: release tags, GitHub CLI arguments, the wait for the cloud
  runner, the byte ranges that parallel workers fetch, their retries, and
  the fallbacks of the stream (one request, then the release's asset).

`app/` holds what runs around it: the HTTP client, the torrent session, the
terminal drawing and event loop, the history file and the GitHub CLI
processes. `tests/` runs the library on concrete values.
