# hubullu

The finite-state core of a morphology compiler, verified with Verus.

`src/` holds the library: an FST kernel (`fst/machine.rs`, `fst/minimize.rs`,
`fst/serial.rs`), the phonrule alphabet, and the compilers that turn
phonological rewrite rules, context patterns, character classes, maps,
lexicons and inflection chains into transducers, each stated against a
mathematical model of the machine it builds (`accepts`, and structural
predicates such as `concats`, `unites`, `stars`, `composes`).
`fst/laws.rs` holds the language laws of the kernel's constructions.

`tests/` runs the library on concrete rules and words; `app/` holds the
parts that touch the environment and the file system.

Not carried over: the SQLite emitter (`emit_sqlite`) and the build cache
(`Cache`, `CacheState`). They read and write database files and take their
input from the front end (parser, name resolution, symbol table), which is
not part of this library.
