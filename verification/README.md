# p4y

A read-only Perforce workspace browser. The library (`src/`) holds its logic,
verified with Verus:

- `text`: whitespace, trimming, words, decimal numbers and string order on
  sequences of characters;
- `ztag`: the parser of `p4 -Ztag` output into records, with its laws
  (no empty record, optional final newline, CRLF endings, padding of lines,
  last value wins);
- `p4`: the errors of `p4`, the arguments and environment it is run with,
  what is made of its output, the change lists of a history (`p4 filelog`)
  and change list details;
- `tree`: depot tree nodes, the children that `p4 dirs` and `p4 files` list,
  and their stable sort by name;
- `style`: the dark theme as tables of plain colors.

`app/` is the program around it: the iced window, the `p4` processes (tokio),
the serializable tree nodes and the binding of the theme to iced.
