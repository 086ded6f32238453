# Watchtower

A server watchdog: an agent that reads the health and the security of a host,
and a control plane that turns what agents report into incidents and tells
people about them.

The library under `src/` holds the decisions, each with a contract that Verus
proves:

- `agent`: the parsers of /proc, journal, command output and access logs, the
  sensors, the state across polls, discovery for the install checklist, and the
  spool's file format;
- `server`: tokens, ingest, the correlation of events into incidents, incidents
  and their lifecycle, notifications and their retries, uptime probes, the
  watchdog over agents, and the JSON that the API answers with;
- `sdk`: the requests that report an application's exceptions;
- `common`, `civil`, `json`, `ids`, `table`, `seqs`, `text`: event types and
  configuration, calendar dates, JSON texts, ids, small tables, and the
  functions on sequences and texts that the rest is stated with.

What should hold of the library as a whole stands beside the functions it is
about, in public proof functions whose names begin with `law_`.

Few things are believed without proof, all of them calls out of the library:
`ids::fresh_id` (uuid), `agent::pattern::try_match` (regex), the readers and
writers of `json` (serde_json), and in `text` the standard library's
`String::push` and the comparison of two `str`. Each says in its documentation
what is claimed of the call.

`app/` is the program around the library: the command line, files, sockets, the
database, the clock, and the readings that are floating point.
