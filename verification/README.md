# tipitaka_xml_parser

Splits the VRI CST Tipitaka XML files into fragments that keep their exact
text and position, derives the CST metadata of each sutta fragment, links it
to SuttaCentral codes, and checks that the stored fragments give the files
back.

The library in `src/` is verified with Verus: each public function states what
it returns in its `requires`/`ensures` contract, and the `law_*` proof
functions state properties that span several functions. Calls into outside
crates (quick-xml, regex, csv, html-escape, encoding_rs) go through small
trusted wrappers whose contracts say what the crate documents.

- `text`, `types`: strings, numbers and the core data types.
- `xml_events`, `nikaya`, `hierarchy`, `cst`, `content`: reading the XML, the
  nikaya structure, the group hierarchy and the CST fields.
- `parser`, `boundaries`, `mula`, `tika`: splitting a file into fragments.
- `sc`, `fill`, `tsv`, `sutta_code`: SuttaCentral codes and the CST to SC
  mapping.
- `integration`, `regenerate`, `corrections`: importing files and checking
  the results.
- `html`, `tsv_export`, `tsv_diff`, `fragment_edit`, `encoding`, `logger`:
  HTML form, TSV export and regression check, editing stored fragments, file
  decoding and log lines.

`app/` is the command line around the library: files, the SQLite database
(diesel), the terminal and the log file.
