# traversal_core

Cross-references for a code base.  A `[traverse-tgt: foo]` tag marks a place
to link to and a `[traverse-lnk: foo]` tag a place to link from, in any kind
of file.

The library in `src/` is verified with Verus:

- `scan` recognises every tag of a line, left to right (Unicode whitespace,
  longest id), over the line's UTF-8 bytes;
- `tags` records the tags of reported lines into per-searcher lists;
- `paths` gives each file path a key that equals another path's key exactly
  when the two have the same components;
- `mapping` gathers the lists into a registry of targets and links, each
  indexed by id and by file;
- `links` resolves the links of a document to every target of the same id,
  and `lsp` attaches the target URIs, each one proved to hold exactly the
  link's target text (`uri` states what the URI parser gives back);
- `report` lists the tags of a registry, and `protocol` chooses what the
  language server does with a request or a notification.

`app/main.rs` is the language server `traversal-lsp`: it walks the workspace
with `ignore` and `grep`, speaks LSP through `lsp-server` and `lsp-types`, and
calls the library for every decision.
