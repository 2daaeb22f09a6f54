# fplll

Integer lattice bases and the exact operations on them, verified with Verus.

- `src/` is the verified library: multi-precision integers (`integer`,
  computed by GMP through `rug`, see `gmp`), matrices of them (`matrix`) and
  the row operations that keep the lattice they generate (`lattice`), a basis
  type whose lattice provably never changes (`basis`), the generators of
  classical bases (`generators`, `rand_util`), the bounded list of best
  solutions of a search (`solutions`), and the text formats of matrices
  (`text`) and vectors (`io`), with their round trips.
- `app/` holds what computes in floating point or does I/O: Gram-Schmidt
  orthogonalisation, LLL, HLLL, BKZ, enumeration, SVP/CVP, file reading and
  writing, and the `fplll` and `latticegen` command-line tools. LLL and HLLL
  work on the library's `LatticeBasis`, so the lattice they reduce is
  provably the one they were given.
- `tests/` exercises the library.

## Dependencies

- `rug` provides the GMP integers and random generator, with only its
  `integer` and `rand` features.
- `gmp-mpfr-sys` is named directly only to turn on its `use-system-libs`
  feature, so that `rug` links the system GMP instead of building GMP from
  source (which needs `m4` and a newer GMP than some systems carry). It holds
  none of the library's logic.
- The MPFR-based modules of `app/` (`float_mpfr`, `gso_mpfr`, `lll_mpfr`)
  additionally need `rug`'s `float` feature and a system MPFR; the library
  does not depend on them.
