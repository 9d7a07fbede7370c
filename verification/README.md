# kame

An SSH toolkit for the terminal: `kame pick` offers the host aliases of your
SSH config in a fuzzy picker, `kame probe` shows what `ssh -G` resolves for a
host and how fast it answers.

## Layout

- `src/` is the library, verified with Verus:
  - `ssh/host_finder.rs`: the aliases an SSH config declares (`Host` lines,
    `ssh_config(5)` tokenizing, quoting and comments), and the sorted list
    the picker shows;
  - `ssh/var_map.rs`, `ssh/host_config.rs`, `ssh/shell_cfg.rs`: reading the
    `<name> <value>` lines `ssh -G` prints;
  - `cli.rs`: normalizing what the argument parser matched (field order,
    lowercasing, deduplication, `-L`), and the examples of `pick --help`;
  - `pick.rs`, `probe.rs`: what the two subcommands decide and print;
  - `text.rs`: characters, lines, ordering and joining of strings.
- `app/` is the program around it: clap's command definition, the skim
  picker, running `ssh -G`, reading files, the russh handshake probe.
- `tests/` exercises the library.
