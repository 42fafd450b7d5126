# polylang

Support code of the Polylang compiler for the Miden virtual machine, written
in Verus with its behaviour stated in contracts and proved.

- `src/encoder.rs`: Miden assembly instructions, their text, and the lowering
  of `break`/`return` into flag cells and guards (`unabstract`).
- `src/memory.rs`: the static memory layout and the code that moves values
  between memory and the stack.
- `src/machine.rs`: a model of what the machine does with the stack for the
  instructions the integer, string and float code uses; `src/uint32.rs`,
  `src/string.rs` and `src/float32.rs` prove what their generated code
  computes against it.
- `src/float32.rs`: `f32` values as IEEE 754 bit patterns: the code that
  takes a float apart, classifies it, compares two floats (`lt`, `lte`,
  `gt`, `gte`, each proved to compute the IEEE 754 comparison), and adds,
  subtracts, multiplies and divides them (`add`, `sub`, `add_impl`, `mul`,
  `div`; for `mul` and `div` the code is proved to give the IEEE 754 result
  where an operand is a NaN, an infinity or a zero, and for `add` where an
  operand is a NaN or an infinity, or one operand is a zero, with one
  exception: `+0 + -0` gives `-0`, which compares equal to the `+0` that
  IEEE 754 gives).
- `src/float32_product.rs`: what the code of `mul` computes for finite
  nonzero floats: the product of the two 24-bit significands cut back to 24
  bits, proved to be the exact product cut toward zero where the floats and
  the result are normal.
- `src/float32_quotient.rs`: what the code of `div` computes for finite
  nonzero floats: 24 rounds of long division of the significands, whose
  divisor is halved by a shift each round, then a shift of the quotient's
  top bit into place; proved to lie within two units in the last place of
  the exact quotient (a relative error below `2^-21`) where the floats and
  the result are normal.
- `src/boolean.rs`: booleans, and `&&`/`||`, proved against the machine
  model; `src/uint64.rs`: 64-bit integers, computed on by the `u64`
  procedures of the Miden standard library; `src/int32.rs`: signed 32-bit
  integers, with addition and subtraction proved to give the two's
  complement result or fault on overflow, multiplication proved to give the
  product where its absolute value is below `2^31` and to fault otherwise,
  division and remainder proved to round toward zero (the remainder with
  the sign of the dividend) and to fault on a zero divisor and on `i32::MIN`,
  the right shift proved to shift the absolute value and keep the sign, the
  left shift given its code,
  the absolute value and the negation proved to fault only on `i32::MIN`,
  and the comparisons `lt`, `lte`, `gt` and `gte` proved to compare the
  signed values.
- `src/abi.rs`: values of the program interface, their layout on the advice
  tape, how they are read back from memory and parsed from text.
- `src/prover.rs`: the final state of a run: stack, `this`, logs, the
  self-destruct flag and the report of a failed run.
- `src/diagnostic.rs`: parse errors rendered with their line, column and a
  row of carets.
- `src/publickey.rs`: JSON Web Key parts, their codes, and the base64 text of
  key coordinates.
- `src/stableast.rs`: the stable description of collections and how its
  field types are written.
- `src/text.rs`, `src/decimal.rs`: text helpers shared by the above.

Not in this crate: the compiler itself (`compile`, the compilation of
expressions and statements, the equality and ownership checks), the code
generators for arrays, maps and nullable values, the interpreter and the
syntax-tree conversions; the float equality tests and the conversions from
integers.

`app/` holds the JSON forms of the library's types (serde derives) and the
entry points that take or give JSON. `tests/` runs the library on concrete
values.
