# panproto-gat

Generalized algebraic theories (GATs): terms with binders, dependent sorts,
operations and equations, theories, and the constructions on them. Each
function of the library states its behaviour in a contract; the laws that
relate functions are stated as proof functions.

## Layout

- `src/` — the library.
  - `term`, `eq`, `alpha`, `matching`, `normalize`, `rewriting`: terms,
    capture-avoiding substitution, alpha-equivalence, first-order matching,
    directed-equation normalization, critical pairs and LPO termination.
  - `sort`, `op`, `theory`, `ident`, `enrichment`, `alg_struct`,
    `refinement`: the declarations a theory is made of.
  - `morphism`, `colimit`, `pushout`, `pullback`, `quotient`,
    `composition`, `factorize`, `schema_functor`, `nat_transform`:
    morphisms and the universal constructions. Among their laws: the
    pushout's cocone commutes, a mediator factors both legs and is unique,
    the pullback square commutes, transform composition has units and is
    associative, the identity transformation is a unit of vertical
    composition.
  - `model`: table models and their migration.
  - `maps`, `text`, `error`: name-keyed maps, rendering, errors.
- `tests/` — executable tests of the library.
- `app/` — the floating-point comparison of refinement bounds, and the
  serde and error-trait forms of library types.

## Trusted code

Two functions take their contracts on trust: the digest of std's
`DefaultHasher` behind legacy identifiers (`ident::legacy_hash`), and the
`Hash` impl of `Ident`, which hashes the scope and index only.

## Models

`model` holds models given by tables (a carrier per sort, a table of
argument rows per operation), their evaluation, and their migration along
morphisms. Model checking against equations and free-model construction
are not part of this library: both infer the sorts of an equation's
variables with a type checker that this code base does not contain, and
proof witnesses of normalization likewise rest on a witness type that it
does not contain.
