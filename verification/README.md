# koe

`koe` turns a recorded meeting into a transcript that says who said what, and minutes drawn
up from it, all on the local machine.

The library in `src/` is verified with [Verus](https://github.com/verus-lang/verus). It holds
everything that is decided between the tools:

| module | what it does |
|---|---|
| `media` | arguments for the probe and the decoder, the choice of the audio stream, samples |
| `stitch` | UTF-8 decoding across segment boundaries |
| `segments` | recognised segments to timed text |
| `merge` | timed text and who spoke when to turns |
| `speakers` | how long each speaker talks, and under which letter |
| `transcript` | the transcript as text |
| `minutes` | whether minutes are drawn up, the prompt, and the answer in the model's output |
| `progress` | a percentage bar |
| `text` | trimming, searching and number formatting on characters |

Times of recognised text are in centiseconds and times of speech in nanoseconds, both whole
numbers, so that comparing overlaps is exact.

Two facts about the standard library are taken on trust, each stated where it is used: what
`char::from_u32` and `String::push` do.

`app/` is the program around the library: processes, files, the environment, speech
recognition (`whisper-rs`) and diarization (`speakrs`).
