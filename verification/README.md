# roxi

A reasoning and stream-processing library for RDF, with its behaviour stated
in contracts and proved with Verus.

- `src/` holds the library: the dictionary encoding (`encoding`), triples and
  rules (`triples`), the line, N3 and RDF parsers (`parser`, `n3_parser`,
  `text`, `utils`), the triple and rule indexes (`tripleindex`, `ruleindex`),
  variable bindings (`bindings`), forward and backward reasoning (`reasoner`,
  `backwardchaining`, `store`), delete-and-rederive maintenance (`dred`), what queries find and the
  closure of materialization (`closure`, `instances`), windows over timestamped data
  (`imars_window`, `time_window`, `rsp`), C-Sprite and window reasoning
  (`csprite`, `pipeline`), SPARQL plans and their evaluation (`sparql`,
  `sparql_syntax`), observers (`observer`) and prefix handling
  (`reasoningstore`).
- `tests/` exercises the library.
- `app/` is the command-line reasoner and the threaded stream-processing
  engine built on the library.
