# piano-midi

Capture, project and control a digital piano over MIDI.

- `src/` is the library: the capture schema and its session view, the append-only
  log and its tail, the projection to a Standard MIDI File, Roland system-exclusive
  frames, the address map with its consistency rules, profiles, and the decisions of
  the tools that talk to the piano. Every function states in its contract what it
  returns, and Verus proves it. The public proof functions whose names begin with
  `law_` state what holds across functions.
- `tests/` runs the library on concrete values.
- `app/` holds the command-line tools around it: `midilogd` captures, `midi-exporter`
  pushes metrics, `midi2smf` writes MIDI files, `pianoctl` reads and sets the piano.
  They read, write, wait and print; what they decide is decided in `src/`.

What is believed without proof is marked `external_body` or `assume_specification`,
with a comment that names the outside function: a few numbers of `midly`, the next
day of `chrono`, and what the standard library does to text in four places.
