# deep_log

A two-axis logger: each message has a zone (one bit of a 32-bit set) and a
level. An output shows a message when the output's level is above 0 (level
0 turns it off), the message's level is at most the output's level, and its
zone shares a bit with the output's zones. The console and the files are two
such outputs, set independently. Every call that turns on file logging opens
a new file per zone, named after the zone (`CUSTOM<bits>` for custom zones)
and the date and time.

- `src/zone.rs`: `LogZone`, its bit-set view, union, `contains`,
  `iter_single`, names and text.
- `src/config.rs`: `LogState` (both outputs' settings), `set`, `should_log`,
  `should_log_file`, turning on the file output, routing a message.
- `src/datetime.rs`: the Gregorian calendar, the era-based date of a day, and
  `YYYY-MM-DD_HH-MM-SS` timestamps.
- `src/output.rs`: log file names and paths, which files to open, the text of a line.
- `src/text.rs`: decimal digits, zero padding, joining strings.
- `app/main.rs`: the process-wide state, files and `dlog!` macro, and a demo.
