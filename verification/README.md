# zonekeeper

The verified core of ZoneKeeper, a desktop manager for local DNS zones served
by CoreDNS, and of its Docker-side NOTIFY relay.

- `src/` is the library, checked by Verus: zone files (serial bumping, AXFR
  conversion, templates, zone file names), Corefile generation, the messages
  made of CoreDNS log lines, DNS NOTIFY packets and replies, the data
  directory layout and identities, the relay's command line and what is read
  from `docker` output. Each public function states its result in `ensures`;
  the public `law_*` proof functions state properties that span calls.
- `tests/` runs the library on concrete values.
- `app/` is the unverified shell around it: files, processes, sockets,
  `docker`, settings files through serde, and the relay's network loops.

Notes on behaviour:

- Paths are held as bytes, as Unix paths are, so every home directory gives
  a data directory; the Corefile names zone files as `to_string_lossy`
  writes them.
- A new identity's id is a version 7 UUID made with one counter state per
  process (so ids are ordered by when they were made), from the clock as the
  library reads it (a clock before 1970 counting as time 0).
- The settings command `set_zone_notify`, and the formatting flag and server
  list that `set_config` is given, have no place in the settings file: the
  `Config` they refer to has no `zone_notify`, `auto_format` or
  `notify_servers` fields, so they are not kept (`set_config` accepts and
  ignores those two arguments).
