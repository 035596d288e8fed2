# game_rs

Transcribes singing to notes: an audio file is prepared and cut at its silences, a
model finds the notes of every chunk, and the notes are written as MIDI, tab-separated
text or CSV.

`src/` is the library, verified with Verus. Each function states what it returns for
every input in its `requires` and `ensures`; laws that span functions are public proof
functions whose names begin with `law_`. Numbers with a fraction never enter it: it
handles them as bit patterns or texts, or takes the arithmetic as a function or as an
implementation of `tensor::numbers::Number`.

| Module | What it holds |
| --- | --- |
| `audio`, `wav` | reading, mixing, resampling, slicing and splitting waveforms |
| `midi_writer`, `output` | notes as MIDI tracks and as lines of text |
| `service`, `service_chunks`, `service_session`, `seeds` | requests, chunks and the stages of a run |
| `tensor` | shapes, dense tensors and what they hold, numbers, strided views, schedules and plans for adapters |
| `model` | attention and the blocks that are built from it; that work in blocks changes nothing |
| `cli`, `cli_progress`, `cli_summary` | what the command line shows |
| `inspect`, `inspect_report`, `inspect_json` | what a model file holds |
| `gui` | the state of the window and what its pages say |
| `paths` | paths and their parts, as the program takes them apart |
| `profiler`, `notify`, `machine`, `text`, `slices`, `float_order`, `error` | what the others share |

What rests on other crates (`midly`, `hound`, `console`, `rayon`, `num_cpus`) or on the
standard library goes through functions marked `external_body`, each with a comment
that says what is claimed of the call.

`tests/` runs the library. `app/` is the command-line program around it: arguments,
files, threads, the terminal and floating-point arithmetic. The networks themselves are
linked in through the `Engines` trait of `app/engine.rs`.
