# linguaspark

Inference for Bergamot-compatible Marian translation models, with a verified
core.

`src/` is a library whose contracts Verus proves. It holds everything that is
decided with integers, bytes and text:

- `model`: the binary archive of a model, its configuration, and the lexical
  shortlist
- `text`, `wire` and `rules`: SentencePiece vocabularies
- `inference`: compiling the network, 8-bit matrix products, embeddings, and
  where attention finds its numbers
- `decoding`: greedy and beam search, as a state machine
- `runtime`: loading a model, preparing a batch, and making up translations
- `cli`: the arguments and the input lines of the command-line program
- `asset`, `bytes`, `error`, `ieee`, `decimal`, `natural`, `message`: what these
  share

Floating-point numbers cross the library as their 32-bit patterns; `ieee` says
how patterns compare, and `decimal` how they are shown. Other arithmetic on
them, files and the command line are in `app/`, an ordinary Rust program around
the library:

    linguaspark translate MODEL SRC_VOCAB TRG_VOCAB SHORTLIST [--beam-size N] [TEXT]
    linguaspark bench MODEL SRC_VOCAB TRG_VOCAB SHORTLIST [--beam-size N] [TEXT]

A translation alternates between the two. The library prepares a batch and
starts a search; as long as the search asks for decoder rows, the program
computes their scores and hands them back; in the end the library picks the
outputs and turns them into text.

Calls into other crates stand behind small functions marked
`#[verifier::external_body]`. The comment above each says what is believed of
the call.

`tests/` runs the library on concrete values, with the real crates behind it.
