# rustspeck

Audio spectrograms, verified with Verus: a renderer that draws the spectrogram of a
sound file as a PNG image, and the logic of an interactive viewer.

## Layout

- `src/` is the library. Verus proves every function in it against its contract.
  - Numbers: `double`, `rounding`, `arith`, `root`, `convert`, `decimal`, `bounds`.
    Doubles are held by their bits, and each operation is specified as the exact
    result rounded to nearest.
  - Sound: `audio` turns decoded buffers into samples, `feeder` and `loader` hand
    them on in batches, and `fallback` reads what an outside decoder prints.
  - Analysis: `config`, `timeparse` and `cli` read what is asked for, `geometry` lays
    it out, `window` and `taper` weigh the frames, `channel` schedules them and
    `spectrogram` collects the levels.
  - Drawing: `gradient`, `palette`, `image`, `canvas`, `axis`, `general`, `labels`,
    `legend`, `render` and `codec`.
  - Viewer: `viewer`, `course`, `ticks`, `track`.
  - The modules whose names end in `_laws` state what holds across functions: that the
    levels do not show how the input was cut up (`level_laws`), that every level has
    its pixel (`render_laws`), what a written time stands for (`time_laws`).
- `app/` is the program around it: arguments, files, decoding, the transforms and
  transcendental functions, the window on the screen.
- `tests/` runs the library on concrete values.

## What is trusted

Three outside functions are believed by their contracts: `String::push` of the
standard library (`src/text.rs`), the zlib decoder of `flate2` and the encoder of
`png` (`src/codec.rs`).

## Running

The program reads its tables and fonts from files at start: see `app/assets.rs` for
their names and where they are looked for.
