# Scrim

Scrim plays movies with explicit content covered up. It is built for one
requirement above all others: an uncovered frame must never reach the screen or
a cast device.

This is its engine, written in Verus: what a scan of a movie finds, what gets
covered and when, the filtergraph that covers it, how mpv is driven, how
playback is kept behind a running scan, and what is sent to a Chromecast. All
of it is executable Rust whose contracts are proved.

## Layout

- `src/` is the engine. The modules whose names end in `laws` hold what is
  proved of it as a whole: that something is covered all through the lead and
  hold of every detection; that on screen and in a cast no pixel of a detected
  box is bare within the merge gap of it, nor in the lead of a run's first
  detection and the hold of its last, but for the last column and row of a frame
  with odd sides; that merging windows never covers less; that the graph stays
  inside ffmpeg's limits; and that nothing past the frontier is shown.
- `tests/` runs the engine on concrete values.
- `app/` is the program around it: files, processes, pipes, the network, the
  ONNX model and the window. The window is Windows-only and needs `tauri`.

## Units

Times are whole milliseconds, fractions whole thousandths, and what the model
reads and answers is fixed-point, so that all arithmetic is exact. `app/`
converts at its edges.

## What is not proved

Three things are taken on trust, each stated where it is declared: what
`String::push` does, how serde_json escapes a string, and that what serde_json
finds under a key depends on the document and the key alone.
