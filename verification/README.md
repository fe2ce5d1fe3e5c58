# clipclip

Continuously capture audio and hand fixed-length Opus/WAV segments to your code: the
microphone, system audio (loopback), both mixed into one track, or both on tracks of their own.

The project is in two parts.

- `src/` is the library, written in Verus. It holds the rules of a recording: the calendar and
  the clock, the ring between the threads, resampling in chunks, mixing, cutting and placing
  windows, numbering, activity decisions, WAV files, the steps of an Opus encoding, source
  switching, and what a caller is told. Its contracts are proved.
- `app/` is ordinary Rust around it: the threads, cpal, libopusenc, the Silero model, and the
  floating-point arithmetic on samples, which the library takes as functions.

## Where to look

| Module | What it states |
|---|---|
| `calendar`, `timestamp` | the Gregorian date of a day, ISO 8601 timestamps |
| `double`, `span` | conversions between time and samples in double precision, in integers |
| `config`, `segment`, `error` | the types a caller deals with |
| `sample`, `ring`, `capture`, `source` | from the audio callback to the worker |
| `converter`, `resample` | sample-rate conversion behind `rubato` |
| `mix`, `tap` | one mono stream out of two sources |
| `segmenter`, `pipeline` | windows, their times, their numbers |
| `vad`, `encode`, `opus` | what is kept, and the bytes it becomes |
| `worker`, `recording` | all of it between two ticks, and how it begins and ends |
| `rounds` | what holds of a session from its start to its end |

Public proof functions named `law_..` state what holds of several functions together: that no
captured frame is lost, that dropping a segment moves no timestamp, that numbers have no gaps,
that memory stays flat. Those in `rounds` speak of a whole session, from its start to the last
flush.

## What is trusted

`ringbuf` and `rubato` are called through small wrappers in `ring` and `converter`; their doc
comments say what is claimed of the outside functions. `str::to_lowercase` is the only other
call of that kind, in `capture`.
