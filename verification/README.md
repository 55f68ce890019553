# btsh

A small shell, with its logic in a library that is verified with Verus.

`src/` is the library. It decides and computes: what a key does to the line that
is being edited, what a command line consists of and stands for, in which order
things are run, and what is kept in the history and in the settings. Its public
functions state in their contracts what they return and change, and the proofs
named `law_...` state what holds of several of them together.

`app/` is the program around it: signals, the terminal, files and processes. It
asks the library what is to be done next, does it, and says what came of it.

`tests/` holds examples.

| Module | What it is about |
| --- | --- |
| `text`, `order`, `numbers` | texts, their order, and numbers as texts |
| `token`, `parser` | the tokens of a command line and the trees they form |
| `alias`, `brace`, `expand` | what words stand for |
| `keys`, `screen`, `editor` | editing a line on a terminal |
| `history`, `suggest` | lines from before, and what could come next |
| `exec`, `process` | what is run, and in which order |
| `builtins`, `control` | commands that the shell carries out itself |
| `prompt`, `config`, `settings` | the prompt, the settings file, and what holds of it |
| `correct` | what a command that failed was meant to be |
| `shell` | what a shell remembers |

What is taken on trust is what is said of functions of other crates and of the
standard library: `glob::glob`, `libc::WIFEXITED`, `libc::WIFSIGNALED`,
`UnicodeWidthStr::width`, `char::is_alphanumeric`, `char::from_u32`,
`str::to_lowercase` and `String::push`. Each is named where it is used.
