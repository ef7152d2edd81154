# libedit

Structured file editing for coding agents, verified with Verus.

Four built-in methods edit files through a small filesystem trait:

- `hashline`: line-addressed edits. Every line is displayed as
  `LINE#HASH:TEXT`; an edit refers to lines by `LINE#HASH`, and a reference whose
  hash is stale is refused before anything changes.
- `replace`: find and replace, exact first, then by similarity.
- `patch`: hunks of a diff, located by context, line hints and similarity.
- `apply_patch`: patches of several files in the Codex format.

## Layout

- `src/` is the library. Every function states what it returns or changes, over
  spec functions on sequences of characters and maps of files:
  - `text`, `normalize`, `double`: texts, line endings and indentation, and
    binary64 arithmetic on bit patterns
  - `fuzzy`, `locate`, `variants`, `reindent`, `splice`: finding lines and texts,
    and putting others in their place
  - `parser`, `applicator`, `diff`, `hashline`: the formats and what they do
  - `fs`, `traits`, `value`, `methods`, `operations`: the interfaces, the
    built-in methods, and what a host does with their results
- `tests/` holds the tests.
- `app/` is what surrounds the library: the filesystem on disk, serialization,
  and the bindings for Node.js and WebAssembly.

## Contracts

A function that computes a value has a contract of the form
`r@ == spec(arguments)`. A function that works on files states the pair of its
answer and the state that it leaves, for a filesystem whose answers depend on a
state that its type can name. `InMemoryFs` is one. The filesystems in `app/` (on
disk, shared, and in a JavaScript host) declare `type State = ()`: what they hold
can change outside the program, and what is proved of files does not speak of
them. Functions named `law_` prove what holds of several functions at once:
that displayed references are accepted and stale ones are refused, that edits
which do not overlap act on the lines as they stood, that a failed patch leaves
the files as they were, that line endings and marks survive an edit.

What is not proved is stated in the doc comments of the few functions that call
`crc32fast`, `similar` and `std`.
