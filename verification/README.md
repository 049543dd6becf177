# runix

runix runs programs from Nix binary caches without a Nix installation: it
fetches store entries into a store under `$RUNIX_ROOT` (by default
`~/.cache/runix`), rewrites their `/nix/store` references to `/tmp/runix`, and
executes the entrypoint named by a *runscript*.

## Layout

- `src/` is the verified library (Verus):
  - `store`: store identities (`<hash>-<name>`), metadata versions;
  - `rewrite`: rewriting store references inside file contents;
  - `cache`: binary cache servers and narinfo parsing;
  - `walk`: the walk that decides which entries to look up, download or
    touch, each once, references first;
  - `runner`: runscripts, their file framing, and what a run needs;
  - `cli`: command line options and the runscript they describe;
  - `platform`, `paths`, `perms`, `install`, `nix_evaluate`: platforms,
    runtime paths, permission bits, where the `runix` symlink goes, and the
    nix expressions that are evaluated;
  - `builder`, `build_script`: planning release builds;
  - `inject`: remapping `/nix/` paths under the runix root.
- `app/` is the program around it: the environment, files, HTTP, child
  processes, JSON, and the release builder (run as `runix-build`).
- `tests/` exercises the library on concrete values.
