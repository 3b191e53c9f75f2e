# rsplug

A plugin manager for Neovim whose decisions are verified with Verus.

Plugins are declared in TOML files.  They are fetched, merged into as few packages as their files
allow, and published as a generation of a `packpath`; lazy plugins are loaded on events, commands,
functions, filetypes, modules and mappings.

## Layout

- `src/` is the library.  Its functions are verified, except for the few listed under "What is
  trusted"; contracts are stated over mathematical models of the data, and the laws of the library
  are public proof functions whose names begin with `law_`.
  - `path`, `text`, `order`, `names`, `patterns`, `digest`: paths, texts, ordered collections, name
    indexes, patterns of file names, and the codes that identities are digested from.
  - `dag`, `resolve`, `scheduler`: the order in which plugins are loaded.
  - `config`, `sources`, `repo`, `parse_error`: what the configuration says.
  - `acquisition`, `semaphore`, `inventory`, `manifest`: how snapshots of repositories come about.
  - `identity`, `files`, `loaded`, `merge`, `assembly`: plugins and how they become packages.
  - `lazy_type`, `lazy_registration`: when plugins are loaded, and the Lua that does it.
  - `pack_plan`, `publication`, `install`, `generation`: the packages of a generation and how it is
    published.
  - `lockfile`: the revisions that are locked.
  - `log`, `progress`: what is shown meanwhile.
- `app/` is the program around the library: arguments, files, the network, the screen.
- `tests/` runs the library on examples.

## What is trusted

The library calls a few functions of other crates and of the standard library.  Each call stands in
a wrapper whose contract is taken without proof:

- `digest::xxh3_128`: `xxh3_128` of `xxhash-rust`.
- `text::push_char`: `String::push`.
- `text::quoted`: the `{:?}` form of a string.
- `text::display_width`: the width of a string on a terminal, of `unicode-width`.
- `identity::lossy_string`: `String::from_utf8_lossy`.
- `parse_error::tables_of`: the tables of a TOML text and where they stand, of `toml_edit`.
- `names::NameIndex`, `names::NameSet` and `names::PathIndex`: the hash maps of `hashbrown`, with
  the methods `new`, `insert`, `remove`, `get`, `any` and `len` as far as each has them.
