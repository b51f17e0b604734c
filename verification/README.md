# twitchdl

A recorder of Twitch live streams, with the logic that decides what to fetch and
what to write proved correct with Verus.

* `src/` — the verified library:
  * `twitch` — the URLs of the Twitch endpoints, the lookup of a channel's stream
    (access token, master playlist, first variant) as a state machine, reading media
    playlists, and reading the channels of the All Access Pass;
  * `manager` — the bookkeeping of the download manager: followed playlists, the
    bounded queue of scheduled segment URLs, progress counters;
  * `threadpool` — when to wake, start and stop pool workers;
  * `legacy` — the decisions of the first, channel-based download manager;
  * `playlist` — building the playlist of a download directory;
  * `cli` — reading typed answers and options;
  * `http`, `query`, `json`, `strings`, `number`, `error` — requests, query
    strings, JSON access, text and numbers.
* `tests/` — tests of the library.
* `app/` — the program: command line, threads, HTTP with `hyper` (or `curl`), the
  file system and the `m3u8` writer.
