# cargo-notch

Version and release automation for cargo workspaces. It finds the packages that
changed since the default branch, works out a version bump for each from its
conventional commits (or lets you pick one), rewrites the manifests and what
their dependents require, and commits the result. A second command prints the
tags for the versions that a merge brought in.

The library under `src/` is written in Verus: every function states what it
returns in `requires` / `ensures` clauses, and the clauses are proved. The
program under `app/` is ordinary Rust around it. It talks to git, cargo, the
terminal and GitHub, hands plain values to the library, and carries out what the
library decides.

## Layout

| module | what it decides |
| --- | --- |
| `text`, `order` | texts, and lists in the order of names |
| `version`, `bump` | versions, how they are read and written, and bumps |
| `config`, `cli`, `error` | settings, arguments, and what can go wrong |
| `commits`, `auto`, `fsm` | commits, and the bump that they call for |
| `package`, `tracking` | packages, and the files that count as theirs |
| `history`, `assign`, `sections`, `rewind` | the branch: bump commits, who changed what, earlier runs |
| `document`, `manifest`, `cargo` | TOML documents, manifests, and the workspace as a whole |
| `tui`, `prompt`, `workspace` | picking bumps, on a screen or at a prompt |
| `release`, `apply` | what a run does, and in which order it writes |
| `remote`, `command`, `pr`, `tag`, `init` | pushing, running programs, pull requests, tags, scaffolding |

What is taken on trust is marked `external_body` or `assume_specification`, and
each such item says which outside function it stands for and what is claimed of
it: `semver` for reading and comparing versions and requirements, `toml_edit` and
`toml` for documents, and two functions of the standard library.

## Laws

Beyond what single functions return, the library proves what holds of them
together. A few of these:

- a bump always increases a version, and a bigger bump increases it more;
- the suggested bump is the maximum over the commits, however they are handed in;
- a version, and the trailer of a bump commit, read back as they were written;
- after as many rebases as the branch has bump commits, none is left and every
  other commit is;
- putting files back after a failed write leaves every one as it was, whatever the
  failed write left behind;
- nothing is written before every package has been checked;
- bumps change nothing in a manifest but the strings that have to change, and keep
  its layout: the order of the keys, the whitespace and the comments;
- a requirement that is rewritten admits the new version, and is then left alone.
