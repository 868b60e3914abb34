# primd

The predictive turn-cache for real-time conversational AI: retrieval that runs
while the user is still speaking and while the answer is being spoken, so that
the query at the end of the utterance is mostly answered already.

Documents are 256-bit binary signatures. A query is answered by the documents at
the smallest Hamming distance, narrowed down to the events that the conversation
is likely to be about.

## Layout

- `src/` is the library, written in Verus. Every function states what it returns
  or changes, and the statements are proved. What rests on rand, rayon, bytemuck
  or the standard library is stated at the few functions that call them.
- `tests/` runs the library.
- `app/` is the program around it: the command line, files, HTTP, WebAssembly
  bindings, and everything that computes with floating-point numbers.

## The turn of a conversation

| Phase | Call | What it does |
|---|---|---|
| the user speaks | `QueryContext::observe_partial` | scans for partial transcripts that have drifted far enough |
| end of speech | `QueryContext::finalize` | answers from the last partial, from the cache, or by a scan |
| the answer is spoken | `QueryContext::warm_next` | predicts the next events and stages their documents |

`service::ServeState` answers HTTP requests for many conversations at once;
`embedded::PrimdIndex` holds one conversation for embedding in another program.

## Numbers

Probabilities, rates and thresholds are fractions of integers. A predictor is
generic in how it weighs what it saw (`markov::WeightModel`); the library has
plain counts, the program adds weights that decay.
