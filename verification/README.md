# fim

A file integrity monitor. It hashes every file under a directory with
SHA-256, compares the hashes with the records kept in a MySQL table, reports
new, modified and deleted files, and brings the records up to date.

- `src/` is the verified library:
  - `hasher`: SHA-256 of bytes, strings and streams of bytes as lowercase hex;
  - `scanner`: which entries of a directory walk are files to monitor;
  - `comparator`: the classification of a scan against the records, with its laws;
  - `symmetry`: comparing `a` with `b` against comparing `b` with `a`;
  - `sync`: the writes that follow a comparison, and the proof that, for a
    scan that lists each path once, they leave the records equal to the scan;
  - `report`: the report and summary lines;
  - `db`: the stored record type.
- `app/` is the program: argument parsing, the directory walk, file reading,
  the MySQL connection and the log file.
- `tests/` exercises the library on concrete values.
