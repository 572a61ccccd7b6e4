# demucs_core

The verified core of a music source separation pipeline, written in Rust and
proved with Verus: how a recording is cut into chunks, how the buffers of the
network are laid out, how its output is put together again, and in what order a
run takes its steps. The network, the spectral transforms and the resampler are
called through parameters; nothing is proved of what they compute.

- `src/chunk.rs`: where the chunks of a long recording lie.
- `src/model.rs`: model variants and their stems.
- `src/arithmetic.rs`: arithmetic on samples, as a parameter.
- `src/overlap.rs`: the triangular window and overlap-add.
- `src/crossfade.rs`: what overlap-add computes in exact arithmetic.
- `src/segment.rs`: input buffers of the network, and stems from its output.
- `src/blocks.rs`: which parts of the network's output a stem is made of.
- `src/rate.rs`: sample rates on the way in and out.
- `src/recording.rs`: the run of a recording at any sample rate.
- `src/step.rs`, `src/segment_run.rs`, `src/pipelined_run.rs`,
  `src/sequential_run.rs`, `src/separation.rs`: runs, as state machines that say
  what is to be done next.
- `src/device.rs`: what runs make on a device that always makes the same stems of
  the same samples.
- `src/repeat.rs`: the output depends on the chunks, not on the schedule.
- `src/order.rs`: two additions give the same mix in either order.

`app/` drives the runs on a device: it holds the tensors, waits for them, and
supplies single-precision arithmetic. The network itself is behind its `Network`
trait, the spectral transforms and the resampler behind its `Dsp` trait.
