# ipmes_rust

Incremental pattern matching over streams of audit events (provenance graphs), written in
Verus: the library in `src/` carries its contracts and proofs, `app/` is the command-line
program around it, and `tests/` exercises the library.

A behavioural pattern (a JSON file) is decomposed into sub-patterns; the input events, read
from a CSV file in time order, go through these steps:

- `process_layers::parse_layer`: records to input events, grouped in time batches;
- `process_layers::matching_layer`: input events matched against the pattern events, by
  signature (literal or regular expression);
- `process_layers::compo_layer` (with the tables of `composition_layer`): match instances
  advanced through the states of each sub-pattern. Events of flow pattern events are tagged
  as such and then handled like default events;
- `process_layers::join_layer`: sub-pattern matches joined into complete matches;
- `process_layers::uniqueness_layer`: each complete match reported once.

`pattern` holds the pattern model, the readers of the pattern and order-relation JSON files
and the order relation between pattern events; `sub_pattern` the decomposition.

The transitive closure (`matching_layer::transitive_closure`) and the flow tracers
(`composition_layer::flow_tracer` and `matching_layer::flow_tracer`) are verified
building blocks for flow pattern events; the pipeline above does not use them yet.
