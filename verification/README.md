# breadbin

A library for a Commodore 64 collection: it finds, fetches and launches games, demos and tunes.
The rules behind it are in `src/`, written in Verus and proved against their contracts; `app/`
is the program around it, which does the reading, fetching, drawing and playing.

## What is where

| Part | Modules |
|---|---|
| Text, tables, sorting | `text`, `table`, `order`, `grouping`, `keyed`, `paths`, `url`, `layout` |
| Numbers in single precision | `single`, `large` |
| Titles and how alike they are | `titles`, `pattern`, `similarity` |
| The catalogue of games | `catalogue`, `sections`, `build_index`, `ia_index`, `info`, `cover` |
| Disks and tapes | `disk`, `releases`, `search`, `downloads`, `tosec`, `tapes`, `picker` |
| Demos and tunes | `csdb`, `demos`, `tunes`, `jukebox` |
| The sound engine | `machine`, `machine_laws`, `cpu`, `chip`, `sid` |
| The screens | `grid`, `menu`, `kiosk`, `boot`, `desktop`, `progress` |
| Starting games | `run`, `roms`, `cli` |
| Formats read by other crates | `formats`, `json` |

Functions named `law_…` state what holds of the library as a whole: that what is written is
read back, that nothing is lost in sorting, that the cursor stays on the screen.

## What is taken on trust

The crates that the library calls are described by contracts that are not proved: `regex`
(`pattern`), `serde_json` (`json`), `zip`, `flate2`, `encoding_rs` and `shlex` (`formats`),
`resid-rs` (`chip`), and a few functions of the standard library (`text`, `formats`,
`layout`). What such a crate computes has a name there, and the contracts built on it speak of
that name.

## Building

The arithmetic of `resid-rs` is meant to wrap, so that crate is built without overflow checks,
as it is in a release build. `extras/profile.toml` says so for the other profiles:

    cargo --config extras/profile.toml test
