# wc3_formats

Readers for the text data of Warcraft III, verified with Verus:

- `.txt` data files (INI-like sections of `key=value` lines, with quoted
  strings and comma-separated lists): `txt_grammar` states the grammar over
  bytes, `txt_parse` parses by it, `txt_data` turns a file into owned data
  (section name to properties, the last of each name winning).
- SYLK (`.slk`) spreadsheets: `sylk_grammar` states the record grammar,
  `sylk_parse` parses records, `sylk_reader` gathers cells into rows, line by
  line.
- The paths and file names of the export tool: `skin`, `locale`, `art`.
- DDS textures to PNG and JPEG (`dds`), done by the `image` crate behind
  two trusted wrappers.

`src/` is the verified library. `app/` is the export program around it: it
opens the CASC storage, reads files, and writes the JSON and JPEG files;
none of that is verified.
