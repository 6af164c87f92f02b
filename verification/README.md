# cdi-serial

`cdi-serial` talks to a Philips CD-i player over a serial line, in the protocol
of the CD-i Stub: it downloads applications to the player's memory, uploads
memory from it, copies OS-9 files in both directions, and mounts the player's
files on the host.

The library under `src/` is verified with Verus. Its contracts are stated over
dialogues: for every operation a spec function says which calls are made on the
line, in which order, and what is concluded from every answer. The program under
`app/` is a thin layer of argument handling, serial I/O and FUSE around it.

## Layout

| Module | What it holds |
| --- | --- |
| `transport`, `line`, `dialogue` | the byte stream, the record of its use, and the language of contracts |
| `progress` | who is told how far a transfer is |
| `frame`, `text`, `error` | frames and numbers on the wire, text for the user, failures |
| `stub`, `session` | the protocol as dialogues, and the session that carries them out |
| `service`, `os9`, `directory` | OS-9 files and directories through a full Stub |
| `volume`, `mount`, `table` | the mounted player and what it remembers |
| `console`, `plan` | what the user types and sees, and the steps of a command |
| `replay` | a transport that plays back what it was given |
| `record`, `laws` | what went over the line, and what holds of it |
| `service_laws`, `volume_laws` | what holds of the file service and of a mounted player |
| `conduct`, `conduct_files`, `conduct_mount` | what pacing and tracing change of an operation, and what not |
| `player`, `player_files` | a player that does everything right, and what records of operations come to with it |
| `world`, `world_files` | an error-free line to such a player, and what operations come to on it |

## Terms

`download` always means host to player, `upload` player to host. Addresses are
hexadecimal, with or without a prefix (`8000`, `0x8000`, `$8000`).
