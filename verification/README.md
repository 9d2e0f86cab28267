# diskus

Computes disk usage: the total size of filesystem entries (`diskus`), or a
chart of the direct children of the given directories (`diskus --list`, `ku`).

- `src/` is the verified library. `walk` decides what each visited entry
  contributes and folds the contributions into totals, counting the hard
  links of an inode once (per direct child in the chart). `chart` orders the
  chart's rows and draws its bars and table. `cli` decides what the
  programs' arguments mean and what they print. `text` holds string helpers,
  and `outside` the calls into `humansize`, `num-format` and std's paths
  (paths are carried as `PathBuf`, unchanged).
- `app/` reads the filesystem on worker threads, parses the command line
  with `clap` and prints.
- `tests/` exercises the library on concrete values.
