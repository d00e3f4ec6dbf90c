# vram-map

A terminal monitor of GPU memory for AMD integrated GPUs: VRAM, GTT, the combined
UMA pool, GPU load and per-process GPU memory, read from sysfs and `/proc`.

The library under `src/` holds the logic, verified with Verus:

- `text`: whitespace, trimming, tokens, lines and decimal numbers, each against a
  specification of what the corresponding `str` operation does;
- `gpu`: sysfs attribute values, the active clock level of a DPM table, the device
  name of a PCI id, the driver version to show, and the live statistics;
- `procs`: the DRM memory fields of fdinfo files, per-process maxima, and the table
  of processes with one entry per pid, sorted by total use;
- `display`: bar colours, size units, the combined pool, the 500 ms refresh pacing
  and the quit keys.

`app/` is the program around it: file system reads, the terminal and the event loop.
