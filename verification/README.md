# rag-bone

Semantic search over documentation and code. The library splits files into chunks, keeps
them with their vectors in one index file, and finds them again by vector, by keyword, or by
both fused.

- `src/` is the library. Verus checks it: what a function returns is stated in its
  contract, over the character sequences, maps and sequences that its data stands for, and
  proved. What the outside functions below return is believed. Numbers that are only
  carried, compared or checked for being finite are kept as their bit patterns; arithmetic
  on them is left to the caller.
- `app/` is the program around the library: the command line, files, models, JSON, and
  floating-point arithmetic.
- `tests/` runs the library on concrete values.

## What is believed and not proved

The library calls outside functions in a few places. Each has a contract of its own, with a
comment on what that claims; no other item of `src/` is taken on trust.

| Module | Outside functions |
|---|---|
| `chunk` | the code, Markdown and text splitters of `text-splitter` |
| `syntax` | `tree-sitter`: parsing, the nodes of a tree, the smallest node around a range |
| `hash` | `xxhash-rust`: the XXH3 hashes with 64 and 128 bits |
| `text` | of the standard library `String::push`, `String::push_str`, `char::is_whitespace`, `char::is_alphanumeric`, `char::is_lowercase`, `char::is_uppercase`, `str::to_lowercase` |

## Builds

Models run on the CPU unless the compiler is given one of the flags `--cfg gpu` (CUDA),
`--cfg directml` and `--cfg coreml`.

## Modules

| Module | Holds |
|---|---|
| `text`, `path`, `order`, `float`, `hash` | text, paths, sorting, float bit patterns, hashes |
| `chunk`, `syntax`, `metadata` | chunks of a file, its syntax tree, and what a chunk is called |
| `hashes`, `store` | the index: its validity, its file, and its look-ups |
| `lexical`, `search`, `find` | keyword search, the search pipeline, and jump to definition |
| `embed`, `embcache`, `rerank`, `accel` | model registries, the embedding cache, and which model file to use |
| `walk`, `index`, `progress` | discovering files, building the index, and progress reports |
| `eval` | golden sets and their scores |
| `config`, `cli`, `output`, `message` | settings, commands, and what is shown |
