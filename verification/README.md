# strand

The host side of Strand, a small language of actors that draw themselves: what
turns a checked program into running actors, their frames into pixels, and
their state into something that survives a reload. The decisions are a library
whose contracts are proved with Verus; the platform around it is ordinary Rust.

## Layout

- `src/` is the library. Every function in it is verified.
  - `hir`, `layout`, `val`, `bytes`, `text`, `words`: programs, where values lie
    in memory, and the text they are written in.
  - `encode`, `run`: messages into an actor's memory, and results out of it.
  - `shape`, `fingerprint`, `capture`, `snapshot`, `kin`, `survival`: an actor's
    state as one image that can be moved to another arena and to another program
    of the same shape, and what is true of doing so.
  - `plan`, `watch`, `view`, `input`, `runtime`: which actors run, how they are
    wired, what they hear, and when a running program may be replaced.
  - `scalar`, `pixels`, `scene`, `flex`, `flatten`, `widgets`, `frame`: trees of
    boxes and text, and the command arrays they become. Geometry is written once
    over any number type with the usual operations.
  - `paint`, `inspect`, `describe`, `compositor`, `window`, `todo`, `demo`: draw
    calls, the inspector, and what a window does with events.
  - `features`, `documents`, `examples`: what an editor is told.
- `tests/` runs the library on concrete values, with a real flex solver where
  geometry is computed.
- `app/` is the `strand` binary: files, windows, the GPU, fonts, the WebAssembly
  engine, the language server's connection, and everything in floating point.

Geometry contracts are stated for number types whose operations are functions
of their operands (`scalar::exact`). `pixels::Pixels` is proved to be one; the
binary uses the machine's `f32`.
