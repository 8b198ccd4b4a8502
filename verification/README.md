# quartz

A visual programming and audio environment built from circles: each circle
holds a number, an array, an op and an audio net, and circles are joined by
connections (a black hole on the source, a white hole on the sink) that carry
one property of the source into the sink.

- `src/` is the verified library (Verus): the command line and its commands,
  link types and entity ids as text, the drag modes and vertex counts, the processing order, array ops, the
  connections of a patch (reading, opening and closing white holes, connecting,
  deleting), the shapes that audio nets can be joined in, and the sample-level
  state machines of the audio nodes (sequencer, control-rate and reset clocks,
  fft window, shift register, delay line).
- `app/` is the program around it: windowing, drawing and input (bevy), audio
  devices (cpal), audio nets (fundsp), OSC, the clipboard and scene files.
- `tests/` exercises the library.
