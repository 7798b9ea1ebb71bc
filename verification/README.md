# scribe

The core of a modal text editor for writers, verified with Verus: a text with
an undo tree, motions and operators, text objects, registers, marks and macros,
folds and the items of HyperLists, search and substitution, spelling, exports,
and the state machine that turns keys into changes.

- `src/` is the library. An `Editor` takes one key at a time and says what the
  program around it has to do; the contracts speak of its model, `EdV`. What
  holds of all texts and all states is stated in the proof functions whose names
  start with `law_`.
- `tests/` runs the library on concrete texts.
- `app/` is the program: the terminal, files and the other programs it runs. It
  draws with `crust` and colours with `highlight`, which come from repositories
  of their own.
