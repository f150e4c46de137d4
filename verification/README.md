# barb

A Brainfuck toolchain: an interpreter, a JIT compiler through LLVM, and a
small package manager whose packages provide snippets that source files
paste in with `@package/feature`.

- `src/` is the verified library (Verus):
  - `shared.rs`: the operations of a program.
  - `interpreter.rs`: parsing source text into operations (bracket pairing
    proved against a nesting-depth specification, and parsing of joined
    balanced texts) and the machine, one step at a time.
  - `compiler.rs`: the block layout of the compiled program, and the proof
    that running the blocks writes what the interpreter writes wherever the
    two can agree (no fault, no read past the end of input, no byte of 128
    or more written); the model keeps the differences: the compiled `,`
    stores 255 at the end of input, and the interpreter writes each byte as
    a UTF-8 character. On the same runs both stop together.
  - `package.rs`: manifests, finding the dependencies of a project (the
    loaded packages are exactly those the project needs, and resolving
    again over the disk a resolution leaves loads the same packages without
    cloning), and expanding
    snippet references (matching through the `regex` crate).
- `app/` is the command-line program: argument handling, files, stdin and
  stdout, git, TOML, and the LLVM code emission through `inkwell`.
- `tests/` runs the library on concrete programs and projects.
