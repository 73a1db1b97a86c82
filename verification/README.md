# libedit

The logic of a line editor built on the C library libedit, verified with Verus.

`src/` is the library. It decides what the bytes of the terminal mean, what becomes of a
line that was read, how a line is split into words, which lines the history keeps and how
they are saved. Every function has a contract, and the properties that span functions are
stated as public proof functions whose names begin with `law_`.

`app/` is the editor that programs use: it reads, draws, and calls the C library. It is
ordinary Rust, and nothing of it is verified. It decides a few things of its own, such as
which stream a text goes to, what a signal does, and how a file that cannot be opened is
reported. `app/repl.rs` is a small command line that shows how the editor is used.

`tests/` runs the library on concrete values.

What the library takes on trust of the standard library is in `src/ext.rs`.
