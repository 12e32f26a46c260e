# GridLock launcher

The launcher installs the newest build of the game, keeps it up to date by fetching only the
blocks of a file that changed, checks what is installed, and starts the game.

- `src/` is the library, with its contracts and proofs:
  - `blob` the block-blob header and table, `adler` adler32 and its rolling form,
    `search` the search of the old copy of a file for blocks of the new one,
    `transfer` missing runs, Range requests, block decoding and the progress count,
    `digest` SHA-256, zlib and hex through their crates;
  - `install` the plan from the installed record to the newest manifest,
    `net` the site's answers, `launcher` settings and command decisions,
    `host` the environment handed to child processes.
- `app/` is the command-line program around it: files, network, the browser sign-in, processes.
- `tests/` runs the library on concrete inputs.
