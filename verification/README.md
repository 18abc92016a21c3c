# manslib

Reads the manual pages of section one of a POSIX system: for each command,
its names, its description, and its options with their comments. Both the
BSD `mdoc` dialect (sections opened by `.Sh`) and the GNU `man` dialect
(sections opened by `.SH`) are read.

Layout:

- `src/text.rs`: searching, replacing, trimming and splitting of text, each
  function proved against a specification of what it returns.
- `src/reader.rs`: a line reader over the bytes of a manual file, as a
  buffered reader reads lines, and the two line searches of the readers.
- `src/mans.rs`: `Command`, `Argument`, `Man`, and the readers of both
  dialects; `Man::from_buff` is proved to return `man_of` of the file's bytes.
- `src/laws.rs`: what holds of every manual read, and of the roots of a
  `MANPATH`.
- `app/main.rs`: walks the roots of `$MANPATH`, reads the files of section
  one and prints what the library reads from them.
