# cloudyy-system-monitor

Prints one JSON object per line (NDJSON) with the state of the machine: processor, memory,
graphics card, disks, network, temperatures and fans.

    cloudyy-system-monitor                      # a snapshot every 2 s
    cloudyy-system-monitor --interval-ms 1000
    cloudyy-system-monitor --once               # one snapshot

## Layout

- `src/` is the library, verified with Verus. It turns the text of `/proc` and `/sys` files and
  the output of `df`, `ip` and `nvidia-smi` into a snapshot, and keeps the counters that the next
  snapshot is compared with.
  - `text`, `number`: words, lines, trimming and decimal numbers over characters.
  - `cpu`, `memory`, `gpu`, `disk`, `net`, `sensors`: one source each.
  - `window`: the running average. `share`: fractions that become percentages.
  - `cache`: the text of the cache file. `collector`: state and snapshots. `cli`: arguments.
  - `command`: what a command left behind. `outside`: what is trusted of the standard library.
- `app/` is the program: it reads files, runs commands, rounds in floating point and prints JSON.
- `tests/` runs the library on concrete inputs.

## Runtime needs

`/proc` and `/sys`; `df` for disks; `ip` for the address; `nvidia-smi` for the graphics card,
which is reported as not available where the command is missing or fails.
