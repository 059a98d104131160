# bedit

A versioned backup repository for edited files. An editor is run under a wrapper; what it saves is
published as a revision: a backup, a diff that leads from the backup to the saved content, and
records of when, by whom and with which editor. Revisions are listed, searched, compared, tagged and
restored from the command line or in an interactive browser.

## Layout

- `src/` is the library, verified with Verus: the rules, parsers, plans and state machines. It does
  no input or output. A function that needs something of the outside returns a request, or is a
  state machine that says what it waits for, and takes the reply as an argument.
- `app/` is the program around it: the terminal, processes, descriptors and files. It performs what
  the library asks for and hands the replies back.
- `tests/` runs the library on concrete inputs, with repositories held in memory.

## Modules of the library

| module | what it holds |
|---|---|
| `text`, `encoding`, `order`, `path`, `clock` | text, bytes, stable sorting, paths as text, dates |
| `failure` | failures: a class and a message |
| `identity`, `config`, `editor` | accounts and policies, the configuration, editors and their shims |
| `paths`, `store`, `mutation` | names of records, reading a repository, publishing and restoring |
| `repository` | what holds of a repository as a whole after a revision, a tag or a restore |
| `trusted_fs` | walks that stay inside a directory, and writes that take effect at once |
| `wrapper`, `session`, `watching` | discovered files, the editing session, directory events |
| `cli`, `listing` | the commands and what they print |
| `browse`, `tui`, `screen`, `drawing`, `header` | the browser: state, keys, screens, layout |
| `installer` | plans for installing and uninstalling |

## What is stated

Contracts are exact: they say what is returned, and each failure with the inputs on which it comes.
Functions named `law_...` state what holds across functions, such as that a published revision reads
back as it was prepared and is the one that the list gains, that a publication which fails takes out
what it made and leaves every record that was there as it was, that a live file is replaced only once
its content is recorded, or that an entry of a directory changes at once or not at all. Each says in
its `requires` under which conditions it holds.

A few functions of the standard library and of outside crates are called through items whose
contracts are taken on trust; the comment above each names the function and says what is claimed.
