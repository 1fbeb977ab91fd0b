# rosy

The verified core of the Rosy transpiler and of its runtime library. Rosy is a
language for beam physics and differential algebra (DA); its programs are
transpiled to Rust.

`src/` is proved with Verus. It holds:

- DA vectors as exact terms (`da`, `monomial`) and the coefficient-level DA
  operations (`da_ops`, `da_shift`): sign flips, order, size and template
  filters, division by a variable and moving a power between variables, the
  monomial bookkeeping of derivatives, integrals and gradients;
- the DAPRV table layout and the DAREV reader (`daprv`, `darev`), with the law
  that DAREV reads back what DAPRV prints (`roundtrip`);
- POLVAL's Horner plans over the union of monomials, shared between
  polynomials (`polval`), and its untyped cells (`polval_any`, `value`);
- the binary images of values and the unit table behind OPENF, READ, WRITE,
  READB, WRITEB and BACKF (`binary`, `file_io`);
- the transpiler's decisions: type inference on assignment, the code of the
  statements, INCLUDE tracking, MODULE checks, project generation and
  syntax highlighting (`transpile`, `assign`, `statements`, `program`,
  `embedded`, `highlight`, `syntax_config`, `cases`);
- text helpers with exact specifications (`text`).

Reals are carried as IEEE-754 binary64 bit patterns: the library moves,
compares and selects them, and the floating-point arithmetic and formatting
happen in `app/`, which also does the file system work and the command line.

`tests/` runs the library on concrete values.
