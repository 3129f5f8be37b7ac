# forgelsp

A language server for ForgeScript, the scripting language of the ForgeScript
Discord bot framework. The library under `src/` holds the server's logic with
Verus contracts and proofs; `app/` is the program around it: the LSP
transport, the network and the file system.

## The library

- `parser`: finds the `code:` blocks of a file and parses their calls,
  arguments, escapes and JavaScript expressions into tokens, parsed calls and
  diagnostics.
- `trie`, `metadata`: the index of known functions (a prefix tree keyed by
  lower-cased names), the sources they came from, custom functions and the
  files that define them.
- `js`: reads custom function declarations out of JavaScript sources.
- `features`: hover, definitions, signature help, completions, folding
  ranges, depth and diagnostics placement.
- `semantic`: semantic tokens and highlight ranges.
- `text`, `chars`, `strings`, `position`: escapes, bracket matching, UTF-8 and
  UTF-16 positions.
- `config`, `cache`, `custom`, `function`, `docs`: configuration, cache file
  names, function metadata and its documentation.
- `fetch`: the decisions of fetching one metadata source (network first,
  cache next, retry on request), one step at a time.
- `laws`: properties that span several operations, stated and proved.

## The program

`app/` starts the server on standard input and output, fetches metadata with
a file cache beside it, watches custom function files and answers editor
requests by calling the library.
