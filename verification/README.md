# josh_filters

Filters on the files and the history of git repositories, with their behaviour proved.

A filter is written as a row of items, such as `:/lib:prefix=vendor`, or as a list of mounts:

```
docs = :/documentation
src/lib = :/lib:hide=internal
```

| Item | What it keeps |
|---|---|
| `:nop`, `:empty` | everything, nothing |
| `:/path` | the directory at a path |
| `:prefix=path` | everything, below a path |
| `:hide=path` | everything but what stands at a path |
| `:glob=pattern`, `:~glob=pattern` | the files that match, or do not match |
| `:workspace=path` | what the file `workspace.josh` in that directory describes |
| `:INFO=key=value,...` | everything, and a file with the values |
| `:DIRS` | workspace files, and where each directory stood |
| `:FOLD` | for each commit, also what its history held |
| `:CUTOFF=name` | each commit, without its history |

## Layout

- `node`, `path`, `strip`, `merge`: trees of files as values, and what is done to them. Which
  names entries may have depends on two settings of the repository.
- `arena`, `repo`, `entries`, `tree`, `ids`: a repository in memory, and the same on its objects.
- `table`, `memo`: what is known of trees of which files were selected.
- `pattern`, `text`, `bytes`, `values`: patterns, texts and tables.
- `filter`, `grammar`: filters, and how they are written.
- `apply`: filters on trees, in both directions.
- `walk`, `cache`, `commits`, `history`: filters on commits and their history.
- `path_laws`, `laws`, `nesting_laws`, `combine_laws`, `glob_laws`, `merge_laws`, `grammar_laws`,
  `history_laws`, `step_laws`, `chain_laws`: what holds of all this together.

`app/` reads objects from a git repository on disk and writes new ones back.

What is believed without proof is what `glob` says of patterns, the id that `git2` computes for
the content of an object, and that `std` reads UTF-8 as it says.
