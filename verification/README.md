# ADS-B radar

The core of a desktop radar gadget: it decides which aircraft around home deserve
attention, when to alert, what to log, and what to show.

- `src/` is the library. Every function states what it does, and the statements are
  proved with Verus. The exceptions are the few wrappers around std, serde_json and
  base64 in `clock`, `text`, `routes` and `weather`: what they state of the outside
  call is taken on trust.
- `app/` is the program around it: windows, requests, files, the database, and the
  geometry in floating point.
- `tests/` runs the library on concrete values.

Where to start:

| module | what it decides |
|---|---|
| `classify` | overhead, interesting and emergency contacts, and why |
| `alerts`, `radar` | when an alert fires, and how the two pollers share that |
| `feeds` | failover, what a reply amounts to, how often to ask |
| `store`, `sighting`, `rarity`, `milestones` | the log, the dex, tiers, achievements |
| `snapshots` | names of backups, and which to delete |
| `routes` | filed routes: cache and plausibility |
| `weather`, `airports`, `globe`, `toast`, `desktop` | tiles, airport tags, links, alert texts, window placement |
| `operators`, `config`, `clock` | operator names, settings, time stamps |
| `double`, `number`, `order`, `table`, `text` | numbers as bit patterns, decimal notation, stable ranking, keyed tables, text |

Measured quantities travel through the library as the bit patterns of binary64
numbers (`Double`): the library compares, clamps and truncates them, and leaves
arithmetic on them to the program.

The airport list `airports.dat` (OurAirports, public domain: one `code|name|lat|lon`
line for each large or medium airport) belongs beside `Cargo.toml`, where the program
embeds it. It is not part of this tree.
