# pvsched_qos

Guest-side QoS reporting for paravirtual scheduling. A guest samples the CPU pressure of its
cgroups and publishes it, per vCPU, in a page that it shares with its host through
`/dev/pvsched_guest`.

- `src/` is the library. It is written in Verus: every function states what it returns, and the
  properties that span functions stand next to them as proof functions whose names begin with
  `law_`. It does no I/O and rests on no trusted declarations of its own.
- `app/` is the program around it: command line, files, clock, timer, shared mapping and the
  watchdog's processes.
- `tests/` runs the library, among other things against the standard library's own parsing, paths
  and floating-point arithmetic.

Pressure ratios are doubles, held by their bit patterns. Dividing, comparing and scaling them is
integer arithmetic, proved to give what IEEE 754 arithmetic gives.
