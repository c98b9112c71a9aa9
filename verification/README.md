# vulpi

The core of the Vulpi compiler as a verified library: source locations, de Bruijn
levels and indices, the type language of the type checker, and the module tree that
the resolver fills with declarations.

Types are checked against a store of holes (unification variables) kept in a
`Context`. Each operation on the store states what it does to the holes in its
contract, over a model of the store in which every hole has a resolution:

- `unify` tries to make two types equal by filling holes, with an occurs check (it looks
  into every part of a type) and a scope check for bound variables; its contract says
  that an `Error` side succeeds, that a type succeeds against itself unless it holds an
  arrow or a `forall` where unification compares, that a hole succeeds against a type
  exactly when the occurs check passes, that different heads fail and change nothing,
  and that a failure leaves the two types stuck at some compared place (differing
  heads, an arrow or `forall` on both sides, or a hole that fails its occurs check);
- `subsumes` checks that one type is at least as polymorphic as another, opening the
  `forall`s on the right and instantiating those on the left;
- `instantiate` (every leading `forall`), `as_function` and `generalize` move between
  polymorphic types and types with holes;
- `Type::show` gives the text of a type as error messages show it, and `Span::text`
  that of a span;
- `Env` keeps the bound variables in scope, on persistent vectors of `im-rc`.

Layout:

- `src/` the library, verified with Verus; the laws of the library are the public
  `proof fn`s next to the functions they speak of;
- `tests/` tests on concrete values;
- `app/` copies of the location types with their textual forms.
