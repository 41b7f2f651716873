# Vigilon

A local-first system and security observer: it samples processes, sockets,
services, interfaces and hardware, keeps the history in a local SQLite
store, and raises explainable findings when something changes.

The decision logic is a Verus library whose behaviour is stated in
contracts and proved:

- `engine` — the detection engine: per-rule baselines, cooldowns,
  suppression, and what each observation raises (with the laws it keeps:
  a cooldown refuses repeats, first sightings are reported once, stable
  sockets and services stay quiet, baselines survive a reload, …).
- `detection`, `events` — risk scoring and the wording of findings.
- `blocklist`, `netparse` — the block list and address parsing.
- `baseline` — stored baselines: decay, caps, and reading back.
- `runtime`, `notifier`, `settings` — the agent loop's decisions, the
  notification throttle, and settings read from text.
- `hostinfo`, `api` — interpreting raw system data, and the API's paging,
  validation, export naming and topology view.
- `text`, `textlines`, `numtext`, `assoc`, `metrics` — text, numbers,
  association lists and the observed records.

`tests/` exercises the library from outside. `app/` is the daemon around
it: collectors, the SQLite store, the event bus, the HTTP/WebSocket API
and the agent loop.
