# AutoFilm

AutoFilm scans an AList server and writes, for every video it finds, a `.strm`
file that Emby or Jellyfin can play directly; subtitles, images and `.nfo`
files can be downloaded next to them, and a local library can be kept in sync
with the server, with protection against deleting it all after a failed scan.

## Layout

- `src/` — the library, verified with Verus:
  - `text.rs`, `fspath.rs`, `extensions.rs`: strings as `Seq<char>`, local
    paths with the Unix semantics of `std::path`, the extension lists;
  - `alist2strm.rs`: task configuration and extension parsing;
  - `alist2strm/path.rs`: the remote path model, download links (URL
    encoding through `urlencoding`), local paths, Blu-ray discs;
  - `alist2strm/protection.rs`: counters that hold back mass deletions of
    `.strm` files, with the laws of the grace period;
  - `alist2strm/runner.rs`: the decisions of a run (authentication, `.strm`
    content, classification of listed files, clean-up, ignore patterns
    through `regex`);
  - `alist2strm/scan.rs`: a run's scan as a state machine with its counters;
  - `alist.rs`, `ani2alist.rs`, `config.rs`, `app_info.rs`: connections,
    Ani2Alist settings, the whole configuration, the banner.
- `app/` — the program: command line, YAML loading, logging, the AList HTTP
  client, file-system work and the cron schedule.
- `tests/` — tests of the library.
