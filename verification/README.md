# idfm_realtime

Turns the SIRI estimated timetables of Île-de-France into GTFS-Realtime trip updates. A journey of
the feed is matched to a trip of the static schedule, first strictly, then tolerantly, and the
times, cancellations and platforms that it tells are put at the stops of that trip.

The library under `src/` is verified with Verus; the server under `app/` reads, fetches, serves and
writes.

| module | what it holds |
| --- | --- |
| `text`, `table`, `order`, `permutations`, `lists` | texts, tables with keys, stable sorting, orders of the same values, lists filed by key |
| `clock` | time stamps, zones and days, through chrono and chrono-tz |
| `gtfs`, `siri_models` | the schedule and the feed |
| `stops`, `alignment`, `directions`, `services` | how stops are named, how calls fit stops, stop patterns, running days |
| `scoring`, `matching`, `matching_laws` | the strict match, and what holds of it |
| `matching_diagnostics` | why no trip was found |
| `adaptive_matching`, `adaptive_laws` | the tolerant match, and what holds of it |
| `feed`, `processor`, `enhanced_processor` | the trip updates, strict ones and recovered ones |
| `state`, `keys`, `gtfs_manager`, `survey` | what is kept between two readings, keys in turn, renewing the schedule, short names |

Contracts are stated over the views of the types; the `pub proof fn` items state what holds of the
library as a whole. What is believed of other crates stands in `clock`, `state` and `text`, each
with a comment that says what is claimed.

`app/` needs `protoc` to build, for the GTFS-Realtime types.
