# parapper_models

Model contracts for Parapper's speech recognition and local translation,
written in Verus: the functions under `src/` carry `requires`/`ensures`
contracts that the verifier proves, except for a few small trusted wrappers
whose contracts are taken as given: `String::push`, `char::from_u32`,
`char::to_lowercase`, the NFKC normalization of `unicode-normalization`, and
the `serde_json` decoding of a safetensors header, a Unigram
`tokenizer.json`, a Nemotron prompt dictionary and a language label list.

- `src/model.rs`, `src/mt.rs`, `src/engine.rs`, `src/session.rs`: model
  identities, their static facts, language codes, stream settings.
- `src/backend/`: model file tables, token-table parsing, the engine plan
  chosen for a model and decoder, hotword tokenization for the ReazonSpeech
  and Japanese Parakeet vocabularies, Nemotron detokenization, the
  one-splice reranker's lattice bookkeeping, the static-embedding tokenizer's
  artifact checks and text normalization, the frame-bucket TDT search's
  request checks and child routing, and the static-embedding weight header.
- `src/decoder/`: the hotword context graph (a trie with Aho-Corasick links),
  hotword validation and matching, the RNN-T search bookkeeping (prefix and
  alignment arenas, hypothesis transitions, request planning and compact
  score checks), and the structure of the approximate lattice built from
  aligned beam candidates.
- `src/frontend/`, `src/td.rs`, `src/transcript.rs`, `src/text.rs`: sample
  index arithmetic of the audio front ends, turn-boundary candidates, token
  character ranges, and character-level text helpers.
- `tests/`: tests of the library on concrete values.
- `src/language_id.rs`: the label table of the spoken-language model.
- `app/`: code the verifier does not see: serde wire names, reading model
  files, and the floating-point scores computed on top of the library
  (hotword scores, reranker evidence, Unigram piece scores and the piece
  search, stream fade-in, language choice by probability).

The ONNX Runtime sessions of the speech engines (the `ort` crate) and the
rewriting of exported ONNX graphs (`onnx_protobuf`) are not part of this
crate. What the library holds of the engines' decisions around a network
call is: the engine plans (`plan_engine`, `plan_reazon_engine` with its
joiner variant), token tables, tensor-shape checks of CTC, TDT and compact
joiner outputs, the Nemotron encoder-output and prompt-dictionary checks,
and the search bookkeeping. The session-level contract checks (input and
output counts, metadata values read from a session) and the tensor copies
stay with the host, which backs the network traits in `app/` with its
inference runtime.
