# tone

A small **pitch-detection toy**: it captures the microphone in real time, estimates
the fundamental frequency, and plots a scrolling pitch trace on a chromatic grid
with note labels. Click or drag on the plot to set a target note and hear it as a
reference tone. An offline analyzer runs the same detector over a WAV file and
reports its artifacts.

The logic is a library verified with [Verus](https://github.com/verus-lang/verus);
the window, the audio streams and the command line around it are ordinary Rust.

## Layout

| Where | What |
|-------|------|
| `src/single.rs` | single-precision numbers as bit patterns: order, rounding, conversion |
| `src/arith.rs` | the floating-point operations that a caller supplies; mixing down |
| `src/pitch.rs` | the detector: NSDF, tallest peak, octave correction, refinement |
| `src/loudness.rs` | why neither loudness nor polarity moves the pitch |
| `src/notes.rs` | note names, the MIDI scale, the live readout |
| `src/order.rs` | order statistics: the element that a stable sort puts at a place |
| `src/history.rs` | the pitch history and its five-frame median filter |
| `src/shared.rs` | the window of most recent samples |
| `src/rounding.rs` | what IEEE 754 says of the basic operations, for the laws that ask it |
| `src/tone.rs` | the reference tone and its oscillator |
| `src/plot.rs`, `src/reference.rs` | view, grid, places on the screen; the target note |
| `src/wav.rs` | a minimal WAV reader |
| `src/analysis.rs`, `src/histogram.rs` | the analyzer's statistics |
| `src/cadence.rs` | when the next frame is due |
| `app/` | window, audio streams, command line |
| `tests/` | tests with the machine's floating point |

## Numbers

A sample or a pitch is a `Single`, the bit pattern of an IEEE 754 single. Comparing
and rounding are proved against an integer model: a number is a whole number of
units of `2^-149`. Adding, multiplying, roots, logarithms, powers and sines come
from an implementation of `Arithmetic`. Nothing is taken for granted about it: the
contracts say which operations are applied to what, and in which order, for every
implementation that answers equal operands alike in the operations that they name.

## Detection

1. The normalized square difference function (NSDF) over the window, for every lag
   from the period of 1200 Hz to that of 60 Hz.
2. The strongest peak, then a climb to a half, a third or a quarter of its lag where
   that is nearly as strong. The lag is refined between the samples, as long as it
   stays in the range.
3. A frame is voiced if the window and its oldest quarter are above the noise gate
   and the strongest peak is clear enough.
4. What is shown is the median of five frames, where at least three are voiced.

## Analyzer

```sh
tone analyze recording.wav 0.008 --timeline
```

`CSV=1` prints the track for plotting, `FAULTS=1` lists the frames that are off, and
`WINDOW` sets the length of the analysis window.
