# backend

Code-graph analysis for TypeScript, TSX, JavaScript and C# sources: walk a directory, parse
each source file with tree-sitter, extract its classes, functions and imports, resolve
relative imports into edges between files, and report the graph with its totals. A small
HTTP API runs the same analysis on a cloned git remote.

Layout:

- `src/` is the verified library (Verus). `text` and `paths` model the string and Unix path
  operations that the analysis relies on; `syntax` holds a syntax tree as plain values;
  `grammar` is the boundary to tree-sitter; `extract` reads names out of a tree; `graph`
  resolves imports into edges and nodes for unparsed files and states the laws of that walk;
  `parser` chooses the files to parse, builds each file's node and assembles the result;
  `scan` and `server` hold the decisions of the command line and the HTTP API.
- `app/` is the program around it: the command line, the directory walk and file reads, the
  on-disk probes of import targets, git cloning, JSON output and the HTTP server.
- `tests/` runs the library on concrete inputs, tree-sitter included.
