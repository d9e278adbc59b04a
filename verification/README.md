# opal

A JavaScript toolkit built on one shared module graph: a content-addressed store,
a module graph that is remembered between runs, and a package manager on top of
both.

- `src/` is the library. Everything in it is verified with Verus: every function
  states what it returns or changes, and the laws that relate functions to each
  other stand beside them as proof functions.
- `app/` is the `opal` command: files, locks, the registry, and the serialized
  forms of the library's types. It asks the library what to do next and does it.
- `tests/` runs the library on concrete values, with files kept in memory.

What the library takes from other crates (BLAKE3, SHA-1 and SHA-512 digests, JSON
documents, gzipped tar archives, the syntax of source text) it takes through a few
small wrappers, whose contracts are the only thing believed without proof.
