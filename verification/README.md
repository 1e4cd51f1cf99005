# beef

Tools for Brainfuck programs, with their logic proved correct by Verus.

- `src/parser.rs`: turns source bytes into a program tree; proved to keep every
  command in order, and to give back any program from its own source text.
- `src/context.rs`: the interpreter's tape and head.
- `src/eval.rs`: a resumable interpreter; each call runs a bounded number of steps
  and reports output, a need for input, the end, or a fault.
- `src/structured.rs`: proof that the resumable interpreter runs programs exactly as
  the plain recursive reading of the language does.
- `src/compiler.rs`: emits i386 `nasm` assembly; the listing's labels and jumps are
  proved well formed.
- `src/jit.rs`: builds the x86-64 machine code that the loader runs.
- `app/`: the command-line front ends (`beef`, `bfc`, `bfjit`): file and terminal
  I/O, and mapping and jumping into generated code.
