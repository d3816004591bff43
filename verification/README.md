# hpc_inferno

A hardware burn-in tool: CPU and memory stress workers run until the target
duration is reached or SIGINT/SIGTERM arrives, with a progress report every
minute.

- `src/` is the verified library (Verus): the linear congruential generator
  (`rng`), the `HH:MM:SS` clock display (`duration`), text scanning and
  integer parsing (`text`), the command line (`args`), the readings of
  `/proc/meminfo`, `/proc/stat` and thermal files (`sysinfo`), the memory
  test passes (`memtest`) and the supervising clock (`monitor`).
- `app/` is the program around it: signal handling, threads, file reads,
  the floating-point CPU workload and printing.
- `tests/` exercises the library.
