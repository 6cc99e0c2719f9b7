# kfnetlist

Hierarchical photonic netlist documents and the layout-independent rules of
netlist extraction, as a verified library.

- `src/` — the library, verified with Verus:
  - `document`, `portref`, `netlist`, `roundtrip`: PIC documents, port
    references, connectivity netlists, elaboration and its inverse;
  - `wire`, `proto`: the protobuf wire format and the circuit messages;
  - `convert`, `circuit`: documents as circuit messages and back;
  - `extract`, `geometry`, `ports`, `parser`, `shorts`, `settings`: the
    decisions of extraction (canonical port names, markers, optical
    adjacency, port comparison, the JSON description of an extraction, shorts,
    setting encoding); flattening is left to the caller.
  - `text`, `json`, `ordmap`, `keyed`: text, JSON values, ordered maps and
    maps kept sorted by key.
- `tests/` — tests of the library on concrete values.
- `app/` — the boundary: YAML and JSON through serde, the JSON texts of
  circuit properties, and the conversion of JSON numbers to doubles.
