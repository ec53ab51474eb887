# symbolica (verified core)

Symbolic expressions with alias maps, and matrices with exact rational coefficients, written
in Verus and proved against their contracts.

- `src/atom.rs`: the expression tree (`Atom`), its normal form (`norm`), top-down replacement
  and the other queries the alias logic needs.
- `src/normal.rs`: the normal form is normal and idempotent; replacement lemmas.
- `src/alias_table.rs`: the alias map, kept in `ahash`'s `HashMap` behind specified wrappers.
- `src/alias.rs`: `AliasedAtom`, an atom with a map from alias handles to definitions:
  registering, renaming, applying, expanding, pruning and fusing aliases, with laws on adding
  an alias, renaming, pruning and the agreement of `add` with `try_add`.
- `src/fuse.rs`: fusing the alias map of a right-hand operand into the left-hand one, renaming
  conflicting aliases through a resolver in dependency order.
- `src/expansion.rs`: when alias expansion ends (acyclic maps of variables, or of handles
  over atoms whose sums and products each keep a term that is no number), and the laws that
  expanding the result of `add`, `mul`, `pow` (renamed aliases included) and their `try_`
  forms gives the operation on the expanded operands, and that renaming an alias (to a fresh
  handle, or to one with the same definition) and fusing duplicate aliases keep the
  expansion; these laws are stated for alias handles and atoms whose sums and products hold
  no numbers.
- `src/rational.rs`: 64-bit rationals in lowest terms with checked arithmetic.
- `src/matrix.rs`: dense matrices of rationals and the arithmetic, shape and entry operations
  of the Python matrix class.
- `src/reduce.rs`: row reduction (Gaussian elimination, with the row operations it applied),
  the determinant by cofactor expansion, solving linear systems and the inverse; solutions and
  inverses are multiplied out and compared before they are returned.
- `app/lib.rs`: the exception texts of the matrix errors.
