# wireutils

One host list, written into the `AllowedIPs` of many WireGuard configs.

A folder of `.conf` files, each with its own `AllowedIPs`, and one site to add
to all of them: the list is edited once, its domains are resolved, and its
addresses go into every file. Nothing else in a file changes, a backup is made
before the first change, and a list that would lose a route is refused.

## Layout

* `src/`: the library. It holds the list, the config format, the rules and the
  words, with their contracts, and proofs that the code meets them. It reads
  no file and asks no server: it says what is to be read, written or asked, and
  takes what came back. Functions named `law_…` state what holds of several
  operations together.
* `app/`: the program around it. Files, the environment, name lookups,
  downloads, the JSON of `hosts.json` and of the template catalog, the window
  and the tray icon.
* `tests/`: tests of the library.

## What is trusted

Three items are taken from the standard library without proof: that
`String::push` appends a character, and that `str::to_lowercase` and the
`{:?}` form of a string depend on the text alone, the former turning ASCII
capitals into small letters. They are in `src/text.rs`.
