# locus

The verified core of the Locus compiler's front half, written in Verus:

- `ast`: the surface syntax tree, with the spellings of its operators,
  attributes and forms.
- `elab::generics`: the expansion of generic declarations into their
  instances, including the reading of `forall`/`exists` as the prelude's
  `ForAll`/`Exists`; it is proved to terminate on every program, within
  the limits on instances and on type nesting.
- `elab::env`, `elab::preview`, and helpers of the elaborator that read the
  syntax tree.
- `arith`: the decision procedure for linear integer arithmetic
  (Fourier–Motzkin with certificates); a proof it returns is proved to
  establish its goal from the context, a counterexample it reports is
  proved to satisfy the constraints it collected and to falsify the goal,
  and back-substitution is proved to give each atom the least integer its
  bounds allow.
- `diagnostic`: diagnostics, their stable order, their JSON form, and their
  rendering with annotate-snippets.
- `integer`, `term`, `text`, `source`: arbitrary-precision integers over
  num-bigint, logical terms, text helpers, and source files.

`app/` holds what reads the file system and the `Display` adapters.

## What is not here

The elaborator's main passes — declarations, expressions, propositions,
`match`, function bodies, blocks, dynamic types, and the driver that
elaborates a whole program (`elaborate_with_options`), and the audit report's
rendering — are not part of
this crate. They work through the kernel, the typed and erased trees, the
executor, the parser, the project and store layers, the measurement and
limits modules, and the `moves` and `mutation` passes of the elaborator,
none of which is available to this crate; the kernel's check of a returned
arithmetic proof, and with it the `Rejected` reason, is left out for the
same reason. The benchmark driver's I/O goes through those layers too;
its argument parsing is here (`bench`). `integer`, `term`, `source` and
`elab::preview` are this crate's own forms of the types those passes
share with the parts that are here.
