# mojom-lsp

A language server for Mojom, the interface definition language of Chromium. The library under
`src/` is verified with Verus; the program under `app/` runs it.

What the library holds:

| Module | What it does |
| --- | --- |
| `grammar`, `peg`, `parser` | the grammar of Mojom, what a parsing expression matches, and the parser |
| `ranks` | why the grammar does not recurse without consuming |
| `tree`, `syntax`, `fits`, `order`, `traversal` | the syntax tree: how it is built, where its ranges lie, how it is walked |
| `locality`, `moved`, `shifted`, `joined` | why two files, one behind the other, have the statements of both |
| `mojomast`, `definition`, `document`, `document_symbol` | a parsed document: its symbols, its definitions, its semantic errors |
| `workspace`, `search`, `walk`, `uri_map`, `laws` | the documents of a workspace and the requests about them |
| `diagnostic` | one document at a time |
| `server`, `rpc`, `frame`, `protocol`, `lsp` | the life of the server and its messages |
| `clangd`, `bindings` | what is asked of clangd about the C++ bindings |
| `text` | strings and their UTF-8 form |

The contracts speak of a text by its characters and of places in it by byte offsets into its
UTF-8 form. A line and a column are counted in characters, as the parser library `pest` does.

What is not proved are the contracts of five functions from outside: two of `pest` (in
`syntax`), one of `lsp_types` (in `bindings`), `str::from_utf8` (in `frame`) and `String::push`
(in `text`).
