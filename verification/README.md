# teehee

Streams the audio of one machine to another over UDP, with the logic verified
by [Verus](https://github.com/verus-lang/verus).

* `src/` is the library: the packet format, the reorder buffer, the capture
  ring, rate and channel conversion, drift tracking, pacing, the command line's
  rules, the control commands and the structured log. Each function states in
  `requires` and `ensures` what it does; properties that span functions are the
  proof functions named `law_*`.
* `app/` is the program around it: devices, sockets, files, threads, and
  everything computed with floats.
* `tests/` runs the library.

In the library a sample is the bit pattern of a 32-bit float (`u32`), a time is
a number of nanoseconds from any fixed moment, and what takes floating-point
arithmetic is handed out as a recipe: which samples to blend at which position,
which channels to average, which frame of a tone to compute.
