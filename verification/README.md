# file_rat

A small file archive format, `.rat`, with a command-line tool to add, list,
extract and remove files.  The library in `src/` is verified with Verus; the
tool in `app/` reads and writes the files and talks to the user.

## Archive layout

```text
<compressed data of each item> '|' <version> ';' <compression code> ';' <lock flag> '/' <entry> ';' <entry> ';' ...
```

Each entry is the URL-safe base64 encoding of an item header, a JSON document
with the item's id, name, metadata and the start and end of its data.  The
base64 alphabet holds neither `|`, `/` nor `;`, so the last `|` of a file
starts the general header and the last `/` starts the item headers.

## Modules

- `compression`: the compression types and their names and codes.
- `format`: the byte layout, searching it, and rewriting it, with the laws
  that adding, cutting and rewriting keep it well formed.
- `archive`: `RatFile` and its operations (create, open, list, add,
  extract, remove), with the laws relating them.
- `item`, `meta`: item headers and their metadata.
- `cli`: reading the command line and the answers to the tool's questions.
- `text`: character helpers (ASCII case, Unicode white space).
- `bindings`: the trusted calls into base64, bzip2, uuid, serde_json and
  parts of `std`.
