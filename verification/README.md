# cirrust

The core of a desktop client for Nextcloud and ownCloud servers, written in
Verus: folder synchronisation, calendars and contacts, the file browser's
rules, and the status surface. Verus checks every function in `src/`, and
nearly all of them state in a contract what they return or change; the
calls into outside crates (chrono, sha1, hex, percent-encoding, url,
roxmltree) and a few std functions sit behind small trusted items, each
documented with what it claims.

## Layout

- `src/` — the verified library.
  - `contentline`, `lossless`, `lookup` — the iCalendar/vCard content-line
    codec and the proof that parsing gives back what serializing wrote.
  - `ical`, `vcard`, `readback` — events and contacts to and from their
    display models; edits keep every property the editor does not manage,
    and what is written reads back.
  - `caldav`, `carddav`, `dav`, `xml`, `store` — collections, refresh rules
    and the `multistatus` reader.
  - `engine`, `plan`, `journal`, `pathmap`, `paths`, `progress`, `status`,
    `control`, `checksum` — the three-way sync: classification of every path,
    the plan of a run, the deletion guard, the journal, progress and status.
  - `webdav`, `trash`, `ocs`, `files`, `mediacache`, `mediahttp`, `stream`,
    `install`, `auth`, `config`, `bus` — the rules around the server calls,
    the media server, self-install, accounts and configuration.
  - `text`, `num`, `datetime`, `clock` — text, numbers, dates and the clock.

Maps and sets keyed by relative paths (the walks of both sides, the
journal, the files in flight) are `PathMap`, a vector kept sorted by path
with a verified contract. With `String` keys, vstd's specifications of std's
`HashMap` and `BTreeMap` let Verus prove nothing of what a lookup returns,
so the engine's laws could not be stated over them.
- `tests/` — tests of the library on concrete values.
- `app/` — the unverified shell: the network client, the file system, the
  background tasks and the secret store, calling the library for every
  decision.
