# Strata

A local inference engine for mixture-of-experts models. It reads a model file's
own index, solves where the weights should sit across VRAM and host memory,
starts and owns the compute process, and serves an OpenAI-compatible API.

`src/` is the engine's logic, proved with Verus:

| module | what it holds |
|---|---|
| `format`, `gguf` | reading a GGUF index, and the facts of a model |
| `hardware`, `rocm` | reading what the runtime and the toolchain report |
| `placement`, `expert` | where experts go, and how that is written down |
| `setup`, `tune` | choosing a context, and the sweep that measures a split |
| `runner` | the compute process: flags, loader path, log, readiness |
| `compact`, `message` | keeping a conversation inside its context |
| `stream` | reassembling a streamed answer |
| `server`, `grid` | access, scheduling, requests, telemetry |
| `hub`, `digest` | fetching models, and the SHA-256 they are told by |
| `json`, `text`, `scale` | JSON, text and single-precision shares |

Proof functions named `law_...` state what holds of the engine as a whole.
Functions marked `external_body` are calls into `serde_json` and the standard
library; each says what it claims of the function it calls.

`app/` is the program around the library: the command line, files, processes,
HTTP, and whatever is computed in floating point. `tests/` runs the library on
concrete values.
