# lwt

A small vocabulary trainer. The library (`src/`) holds what the trainer decides
and computes, each function with its contract checked by Verus:

- `entity`: word pairs (word, translation, UUID held as a `u128`) and the
  commands of the window.
- `functions`: the dice, the store file format (`word|translated|id` lines) and
  its reader, the settings file (a theme number) and its reader, and the themes.
- `text`: building strings, finding separators, trimming white space, and
  reading and writing decimal `i32` values.
- `trainer`: the main loop's decisions, a step function from state and command
  to next state and the effects the window has to carry out.

`app/` is the FLTK window: it reads and writes the two files, applies color
themes, reads the input fields, and carries out the effects that the library's
step function returns.
