# calyx-runtime (verified core)

The parts of the calyx interpreter's runtime that stand on their own,
written in Verus and proved against their contracts:

- `perms`: permutations of `{1, ..., n}`, their products, inverses,
  conjugates, powers, cycles, signs and cycle notation, the symmetric
  groups `Sym(n)` (one per degree) and the operators on permutations;
- `random`: the xoshiro256** generator seeded by splitmix64, with
  reproducible seeds and unbiased draws below a bound;
- `integer`: integers of any size (a sign and 64-bit limbs), for
  exponents and integer operands, with their residues and powers;
- `sym`: interned names;
- `nmod`, `small`, `arith`: word-sized residue rings and prime fields,
  their registry, and the arithmetic and comparison operators on their
  elements (with Magma's `div` in `Z/nZ`);
- `fp`: dense linear algebra over word-sized prime fields (inverse,
  left inverse, solutions of linear systems);
- `weights`, `monomials`: the monomial combinatorics behind ideals of
  multivariate polynomial rings (weights that make polynomials
  homogeneous, dimension, independent sets, standard monomials,
  homogenization, Bayer's order);
- `print`: the text of sums of terms as Magma prints ring elements;
- `output`: output sinks, redirection and capture;
- `reals`, `ir`, `interp`, `text`: the precision of the default real
  field and small pieces of the interpreter's state and representation.

`app/` holds what performs input and output: the clock seed and the
console that writes to the terminal, files and the log.
