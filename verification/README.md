# configmaton

Configuration automata laid out in relocatable blobs, with their layout,
their reading and their running verified by Verus.

## Layout of the crate

- `src/ancha.rs`, `src/ancha/`: the blob layer. Strategies lay structures out
  in a byte buffer (vectors, lists, sediments, pairs and triples, vector maps,
  list maps, hash maps, array maps, decision diagrams) at positions measured
  from the blob's anchor, and walk back over them. Each strategy states where
  its structure ends and what the bytes hold; reservation and layout agree,
  and walking over a laid-out structure ends exactly where it ends.
- `src/blob/`: preparing byte states (grouping guard transitions and byte
  transitions), the serialization strategies of the blob vectors, layout
  by type (`Build`, `BlobReserve`, `BlobSerialize`, `BlobDeserialize`), and
  the blob vector, vector map and decision diagram, which share the layouts
  of the blob layer.
- `src/my_ancha/`: the automaton's own structures: byte states, key-value
  states, and the automaton as a whole.
- `src/char_nfa.rs`, `src/guards.rs`: byte-automaton states and their guards.
- `src/keyval_nfa.rs`: compiling a configuration into key-value states
  (the chain of states of each match, labels and jumps, against the spec
  `sp_parse`), joining leaves, laying out an automaton, and reading the
  fields of a configuration command. The byte automata of the patterns come
  as arguments.
- `src/char_runner.rs`, `src/keyval_runner.rs`, `src/keyval_simulator.rs`:
  running an automaton from its blob over key-value updates.
- `src/readback.rs`: what the runner reads of a laid-out automaton is what
  was laid out.
- `src/server.rs`: the decisions of the configuration server: the answer a
  request gets, the hash a stored body is kept under, and its version.
- `tests/`: tests of the library.
- `app/`: a command-line front end (checking configurations, running an
  automaton over `key=value` lines).
