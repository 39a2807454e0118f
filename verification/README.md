# zρ

zρ is a small assembly language for hacking into video game machines. This
crate holds its assembler, a cycle-accurate simulator of the machines that run
it, and the text editing that its programs are written with, each with its
behaviour stated as contracts and proved with Verus.

- `simulation`: integers bounded by a number of digits, instruction arguments,
  the instruction set and what each instruction does, the computer and its
  registers, and the assembler that turns source text into a program.
- `defaults`: the machine that programs run on unless told otherwise.
- `interface`: the text editor (lines, cursors, edits and their history, undo
  and redo, comment coloring), moving cursors with the navigation keys, typing,
  and where a computer's registers are shown.
- `ui`: which element of a window has the keyboard focus, and what an element
  asks of its window.
- `zrho_program`: an early model of zρ instructions with typed arguments.

`app/` runs a program from a file on the command line, stepping the simulator
as the user asks.
