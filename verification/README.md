# netgol

Conway's Game of Life on one shared, persistent, effectively infinite world that any number of
clients can pan, zoom and edit in real time.

`src/` is the library, written in Verus. Every function states what it does in `requires` and
`ensures`, and the laws that span several of them are public proof functions named `law_*`.

| module | what it holds |
| --- | --- |
| `bits`, `chunk` | 64x64 bitsets, halos, the bit-parallel step, frozen cells |
| `coord`, `sort`, `codec`, `shared` | maps by chunk coordinate, merge sort, little-endian bytes, shared pointers |
| `world`, `life`, `play` | the sparse world, its ticks, pausing and waking; the plane of cells that it stands for |
| `oscillator`, `group`, `ensemble` | detection of chunks that repeat themselves, and of chunks that hang together; chunks that run together, apart from the rest |
| `protocol`, `frames` | the wire format, frames to and from peers |
| `snapshot`, `wal` | what is written to disk, and how a world is brought back from it |
| `region`, `claims`, `reaper` | what may be edited by whom, claims of users, eviction of chunks |
| `sim`, `hub`, `mirror` | decisions of the simulation and of the hub, and how the hub keeps up |
| `auth`, `user_store`, `config` | logins, keys of users, settings |
| `bindings` | chunks and halos as bytes, for the browser |

What is not proved is what the library takes on trust of code outside it: `u64::count_ones`,
`Arc::clone`, `Arc::from`, `String::from_utf8`, `bytes::Bytes::from`, `sha2::Sha256::digest` and
`hex::encode`. Each stands behind one small item whose comment says what is claimed of it.

`app/` is the server around the library: sockets, files, logins with providers, metrics and clocks.
It holds no rule of the game.
