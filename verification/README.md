# fcoreutils

The core logic of a set of text and file utilities (`truncate`, `touch`,
`tsort`, `shuf`, `seq`, `sum`, `unexpand`, `uptime`, `uname`, `yes`, `tee`,
`timeout`, and parts of `wc`, `tail` and the checksum tools), written in
Verus and proved against its `requires` / `ensures` contracts.

- `src/`: the verified library, one module per tool, plus shared modules for
  bytes, decimal numbers and text (`bytes`, `decimal`, `text`) and the
  printf-style formats of `seq -f` (`printf`). Each module
  states its results over spec functions and proves the properties that tie
  its operations together (`lemma_*` proof functions).
- `tests/`: tests of the library on concrete values.
- `app/`: a single command-line program that runs the tool named by the name
  it is called by, or by its first argument. It reads arguments and files,
  talks to the operating system, and formats floating-point values; every
  decision about what to print is left to the library. It has commands for
  `truncate`, `touch`, `tsort`, `shuf`, `seq`, `sum`, `unexpand`, `uptime`,
  `uname`, `yes`, `tee`, `timeout` and `sleep`; the `wc`, `tail` and checksum
  modules of the library have no command of their own, since the hashing,
  counting and file-following work around them is not part of this crate.

The outside crates `itoa` and `memchr` are called from the library through
small trusted wrappers whose contracts are stated next to them; `libc` is
used by the command-line program.
