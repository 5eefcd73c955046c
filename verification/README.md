# fed

`fed` opens files with their operating system's default application, or, with
`--options FILE`, lists the applications registered to open a file.

- `src/` is the verified library (Verus): the `.desktop` file reader and the
  Linux, macOS and Windows discovery rules, the ordered duplicate-free option
  listing, and the messages and exit status of a run.
- `app/main.rs` is the command: argument parsing (clap), the file system,
  `xdg-mime`, `cmd`, Launch Services and the platform opener (`open`).
- `tests/` runs the library on concrete values.
