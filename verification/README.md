# grande

State in, typed questions in, probability distributions out. A request is a
state (text or JSON) and a map of questions: a Noul (true or false), a Choice
among named options, or a Score on ordered levels. It is rendered into one
shared prefix and one isolated branch per question, evaluated in as few passes
as the backend allows, and read back as a distribution over each question's
options.

`src/` is the library. Everything in it is verified with Verus: requests and
their validation, rendering, the plan of a request (option orders, groups and
finalists of a large Choice), packing and batching, reading rows, folding runs,
checkpoints and their configurations, the wiring and the launches of the GPU
passes, the prompt of the decision-head encoder, the texts of the sentence
embedder, which tokenizer files can be read and which tokenizers asked to encode
any text, what a llama.cpp context remembers, evaluation tasks, and the answers
of the HTTP server. Floating-point numbers are carried as bit patterns.

`app/` is the program around it: the command line, files, the HTTP server, the
GPU, llama.cpp, the browser exports, and the floating-point arithmetic. Shaders
are read from `$GRANDE_SHADERS/shaders`; `$GRANDE_WGPU_LAYERS` runs only the
first layers of a Gemma pass.

`tests/` runs the library on concrete values.

## Commands

    grande probe --model <gguf or directory> --request request.json
    grande serve --model <gguf or directory> --port 8080
    grande jglue --model <model> --task jnli --out runs/jnli
    grande suite --model <model> --data suite.jsonl --out runs/suite
    grande features --model <model> --task jcqa --out features.safetensors
    grande bench | mechanism | iia | render | meta | pieces | tokens

## Trust

The library believes, without proof, what `src/map.rs` says of `indexmap`, what
`src/json.rs` says of `serde_json` and of how the standard library prints a
double, what `src/parts.rs` and `src/tokenize.rs` say of `tokenizers`, and what
`src/text.rs`, `src/setup.rs` and `src/charsmap.rs` say of the standard
library's strings. Each such item says in its doc comment what it claims.
`Backend` and `Tokenize` are for callers to implement; what they
promise holds of an implementation that keeps it.
