# orsiktop

A terminal dashboard for machines that run local LLM servers (llama.cpp):
GPU telemetry (NVIDIA through NVML, AMD and Intel through sysfs), host CPU,
memory and sensors, per-process DRM usage, and the llama.cpp server's
throughput, context and slots.

## Layout

- `src/` — the library, verified with Verus. It holds the rules of the
  dashboard: configuration parsing and saving, CPU topology detection, GPU
  discovery and selection, the DRM fdinfo parser and utilization sampler,
  server discovery from process command lines, the server-to-GPU mapping,
  the llama.cpp metrics and slot parsing, the diagnostics report, the
  process table state (sorting, grouping, pinning, selection, mouse hits,
  scrollbar), the key bindings and the sampling cadence.
  Every filesystem read goes through the `Sys` trait, so all of it is
  stated over an abstract view of `/proc` and `/sys`.
- `tests/` — tests of the library on fixture filesystems.
- `app/` — the program: command line, terminal, worker threads, NVML and
  HTTP calls, and drawing with ratatui.
