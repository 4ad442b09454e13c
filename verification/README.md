# wavalyze (verified model logic)

The model logic of Wavalyze, a WAV file viewer and diff tool, written in Verus: every function
in `src/` carries a contract that Verus proves.

- `src/` — the verified library: diff planning and channel pairing, leading-silence offsets,
  peak search, diff-recipe dependencies and their recomputation order, the job and load
  bookkeeping, disk-change monitoring of opened files, the reload of changed files (which
  files a batch takes, whether a prepared batch may still be installed, what a failure
  leaves), the channel sources of a file-pair diff, the integer decisions of action
  processing and of file/track management, the track order, track selection, selection snapping,
  keyboard-shortcut configuration and the integer ruler ticks. Public `proof fn`s state the
  laws the operations obey.
- `app/` — the runtime around it: worker threads and event channels, the OS file watcher,
  the egui boundary of shortcuts, configuration types with serde derives, and the
  floating-point sample arithmetic (diff samples, RMS, decibels, the demo waveform and the
  value ruler).
- `tests/` — executable tests of the library.
