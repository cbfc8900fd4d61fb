# nls

`nls` lists files like `ls`, but the long format (`-l`) writes the
modification date with a numeric month: `7/ 4  11:29` for a file of the
current year, ` 1/ 1 (1970)` for an older one, both twelve characters wide.

Layout:

- `src/` — the verified library (Verus):
  - `text.rs`: decimal numbers, right alignment, zero padding;
  - `mode.rs`: hidden names and the permission string;
  - `order.rs`: which names are listed and in which order (case-insensitive,
    stable), with the laws of that order;
  - `long.rs`: the long-format line and its date column, and the calls into
    chrono and users;
  - `listing.rs`: which entries of a directory are kept, whether every date
    to show can be computed, and what is printed for each path, with aligned
    columns.
- `app/` — the program: command-line parsing, reading the file system,
  printing, and shell completion files.
- `tests/` — tests of the library.
