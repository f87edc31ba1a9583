# gantz

Graphs that are edited live, as a verified library.

A graph is content: it has an address, commits record it, and names point at commits. From
the DSP nodes of a graph synth definitions are derived, and a driver keeps a synth running
for every open graph. The library holds the data structures, the algorithms and the
decisions; everything it promises is stated in `requires` and `ensures` and proved with
Verus. `src/lib.rs` lists the modules by subject.

- `src/` is the library.
- `tests/` runs it, with the real outside crates linked.
- `app/` is the runtime around it: storage in RON, the wire codec, the Steel VM's values,
  the audio engine and the egui surface. It decides nothing.

Floats are carried as their bits (`dsp::Float`, `value::Number`): the library compares and
moves them, and rounds a size; it does no other arithmetic on them.

What is not proved, but believed of outside code, is stated at the few items that call
it: BLAKE3 in `hash`, base64 in `armor`, `String::push` in `text`, and egui's ids in
`ui_tree`.
