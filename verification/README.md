# drift

The core of Drift, a desktop torrent client, as a Verus-verified library,
with the desktop shell around it.

- `src/` — the verified library. Each public function states what it returns
  in its `ensures`, over spec functions and views; the laws that relate
  several functions are public proof functions.
  - `category`, `commands`: sorting a torrent into a category folder and
    deciding where it is saved; the "Copy magnet" link.
  - `magnet`: parsing `magnet:?` links.
  - `queue`, `queue_laws`: the download queue's plan and what every plan
    satisfies (forced torrents run, the cap and priority are honored, a plan
    applied needs no further change).
  - `state`: the persisted torrent list and its update rules.
  - `progress`, `engine`, `events`: the progress loop's labels, stall
    detection and per-file progress; the rows the list shows.
  - `clipboard`, `launch`, `tray`, `updater`, `seeding`, `persist`,
    `settings`: the decisions behind the clipboard watcher, command-line and
    drag-and-drop sources, the tray menu, the update flow, seeding limits,
    store-file recovery and settings defaults.
  - `text`, `paths`: character helpers and the path operations of `std`.
- `tests/` — tests of the library on concrete values.
- `app/` — the Tauri program: windows, tray, the librqbit session, files on
  disk, and the serde forms of the library's types. It performs what the
  library decides.
