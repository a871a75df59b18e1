# learning_rust

A set of small programs (a game, a puzzle solver, parsers, a card-deck
model and the checks of card and message services) whose logic is proved
correct by Verus.

- `src/` is the verified library, one module per topic:
  - `basics`: warm-up functions, reading an unsigned integer from text, the
    bookkeeping of a line-echo server, a future polled to completion;
  - `floodit`: the flood-it game (flood fill over `graph`);
  - `aoc`: a bag-rules puzzle with two readers of the rules (`fast`, `slow`)
    and the shared lookups in `bags`;
  - `parsing`: sensor reports and nested packets read from text, packets
    written back;
  - `cards`: card codes, deck identifiers, building and shuffling decks;
  - `services`: the checks that the greeting and card services make of
    requests and of the deck API's answers;
  - `monitoring`: which requests are counted and which responses succeed,
    the running counts, and the headers that carry a tracing context;
  - `messaging`: how messages from a queue are routed, settled and counted;
  - `bytes`, `text`, `graph`, `chance`: shared helpers (text on bytes,
    reachability, draws from the random generator).
- `tests/` runs the library on concrete values.
- `app/` holds the programs around it: terminal and file input, HTTP and
  message-queue clients, servers, and the serde forms of the card model.
