# Sway

A music library for DJs: tracks, folders and playlists in a manual order, synced
between devices over the local network, and written out as an iTunes library file
that other DJ software reads.

`src/` is the library. All of its logic is verified with Verus: each function says in
its contract what it returns or changes, and the laws that span several functions
stand beside them as proof functions. `app/` holds what talks to the world around it:
the database file, sockets, audio output, the file system, the window.

## Layout of `src/`

| Modules | What they hold |
| --- | --- |
| `text`, `paths`, `encoding`, `seqs`, `table`, `uidset`, `graph` | strings, paths, bytes as text, sequences, tables kept in order, sets of ids |
| `library`, `db`, `tracks`, `tree`, `upgrade` | the rows of a library and what may be done to them |
| `rank`, `dates` | places in a manual order; calendar dates |
| `import`, `cover`, `loudness`, `player` | taking files in, covers, silence at the edges, playback |
| `manifest`, `merge`, `scope`, `scope_db` | what two devices compare, what changes hands, what a device wants to hold |
| `merge_laws`, `sync_laws` | what holds of a sync as a whole |
| `wire`, `msg_text`, `address`, `devices`, `pairing` | messages, frames and sessions between devices, and who may open one |
| `discovery`, `autosync`, `watch`, `power`, `transfer` | finding devices, when to sync, when to hold back, receiving files |
| `export_xml`, `xml_sync`, `xml_laws` | the iTunes library file |
| `state`, `device_info` | what the running program keeps in mind |

## What is trusted

The proofs rest on contracts for a few outside functions: random ids (`uuid`), the
clock and string primitives of std, the Noise sessions (`snow`), thumbnails (`image`)
and base64 text (`base64`). Each of them stands behind a function of its own, whose
comment says what is taken for granted.
