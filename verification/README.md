# murmur

Local speech transcription and speaker diarization: a web service that takes in a
recording, transcribes it with whisper.cpp, tells its speakers apart with pyannote and
sherpa-onnx, and has a local language model summarize it. Nothing leaves the machine.

The rules of the service are a library, `src/`, whose functions state what they do in
contracts that Verus proves. `app/` is the program around it: the web server, files,
processes, and everything that computes with floating-point numbers.

## Layout

| Module | What it holds |
|---|---|
| `text`, `path`, `ids`, `calendar` | characters and numbers, file names, random identifiers, dates |
| `job`, `slot`, `state` | jobs and their store, the slot of the running transcription, the state of the service |
| `auth` | credentials, sessions and cookies |
| `audio`, `worker`, `clustering`, `diarize` | tracks and resampling, speech segments and turns, sorting voices into speakers, the worker process |
| `transcribe`, `models`, `models_dir`, `model_download` | the speech model, loaded models, model files and where they come from |
| `summarize`, `llama_server` | what the language model is asked and answers, its server process |
| `export` | transcripts as plain text and subtitles |
| `routes` | the requests that the service answers |
| `startup` | what the program does when it is started |
| `laws` | what every request keeps |

## Units

Times in the library are milliseconds, positions are samples at 16 kHz, progress is in
percent. Numbers that the models give are compared by *order keys*: integers that are
ordered as the numbers are.

## What is trusted

Calls into other crates and the standard library stand behind small functions marked
`#[verifier::external_body]`. Each says above it which function it calls and what is
taken for granted of it.
