# trio-capture

Composes three cameras and one master recording into one video. The clips of every
camera are placed on the recording by their sound, the cameras are graded to match
each other, and three pictures are laid out side by side, stacked or over one
another, in a picture that is as wide as 16:9 or as tall as 9:16.

## Layout

- `src/` is the library: everything that is decided and computed. All of it is
  verified with Verus; what a function promises stands in its contract, and what the
  functions promise together stands in the public proof functions.
- `app/` is the program around it: files, ffmpeg, the sound card, the graphics card,
  the window, and the arithmetic on floating-point samples and pixels.
- `tests/` runs the library on concrete values.

## Numbers

The library counts in whole numbers. Times are microseconds, confidences, grades,
zoom and pan are millionths, distances on the screen are thousandths of a pixel, and
frame rates are fractions. Quotients go to the nearest whole number, halves away from
zero; only in numbers that are shown with a fixed count of decimal places do halves go
to the even digit.

## Modules

| Module | What it holds |
|---|---|
| `model`, `layout`, `compose` | the project, its layouts, what is drawn |
| `discover`, `calendar`, `probe` | shoot folders, recording times, what the prober says |
| `sync`, `arrange`, `placement` | votes of sound chunks, candidates, the arrangement of clips |
| `sampling`, `autograde` | frames to measure, pixel counts, matching grades |
| `engine`, `decoder`, `ffmpeg`, `audio`, `player` | decoders, clocks, command lines, samples |
| `export`, `export_job` | the encoder's command line, exports frame by frame |
| `app`, `timeline`, `transport`, `preview`, `panels`, `cli` | the running program, its timeline, keys and commands |
| `text`, `order`, `units` | texts, stable order, rounding |

The only trusted functions are in `probe`: they read values out of JSON documents with
`serde_json`.
