# ergoscript_cse

Common-subexpression elimination for ErgoScript expression trees, written
in Verus. The passes work on `Node`, a tree of ValDefs, ValUses, blocks,
Ifs, lambdas and operators (an operator's kind, a payload and its
operands); `TypeTags` gives, per payload, the type tag of an operator's
value and whether a `BinOp` is an equality, an arithmetic operator or a
relation.

Every public function states its result over a spec function of the
input trees. What a caller must meet stands in `requires`: ids and
counts that fit their machine integers and, for the passes that repeat
until nothing changes (the pass within If branches, the duplicate rules),
that they finish, stated as the existence of a bound on their nested
steps (`branches_ok`, `dedup_ok`); `cse_pipeline` also asks that the
ValDefs of every block can be put in dependency order (`reorderable`,
no cycle). These conditions are part of `pipeline_spec`.

Layout of `src/`:

- `node`, `walk`, `dag`, `pick`, `predicates`, `visibility`, `scopes`,
  `thunk_scope`: the tree, its walks, counts and scope predicates.
- `sym_table`: a scoped hash-cons table of structurally equal trees. Its
  per-scope tables and its canonical-form table are association lists
  (`assoc`) of trees and symbols, searched with `node_eq`: vstd specifies
  `HashMap` only for key types known to obey its key model (integers,
  `bool`, and the like); for a type of this crate that could only be
  assumed, and nothing here is assumed.
- `alias`, `single_use`, `flatten`, `chain`, `extract`, `if_cond`,
  `pre_extract`, `rescue`, `const_vals`: the rewriting passes.
- `schedule`, `graph`, `ast_graph`, `branch_graph`: the graph pass at the
  root and within branches.
- `hash_cons`: the two graph passes whose scope gate is a hash-cons walk
  over `sym_table` (top-down and bottom-up), chosen by `TypeTags::hash_cons`.
- `cse`: `cse_expr`, `process_lambdas` and `apply_cse_within_branches`.
- `dedup`: the duplicate rules applied inside If branches.
- `disambig`, `renumber`, `reassign`, `reorder`, `topo`, `id_laws`: id
  renaming, renumbering, ValDef ordering and their laws.
- `pipeline`: `cse_pipeline`, the whole pass stage by stage.

`app/` converts `ergotree_ir` expressions to `Node` and back, reads the
hash-cons and branch-narrowing switches from the environment, and runs the pipeline on a
thread with a large stack (`apply_cse`).
