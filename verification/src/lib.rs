pub mod node;
pub mod assoc;
pub mod sym_table;
pub mod max_id;
pub mod renumber;
pub mod disambig;
pub mod id_laws;
pub mod walk;
pub mod flatten;
pub mod scopes;
pub mod visibility;
pub mod predicates;
pub mod collect;
pub mod alias;
pub mod schedule;
pub mod removal;
pub mod def_ids;
pub mod thunk_scope;
pub mod reorder;
pub mod topo;
pub mod dag;
pub mod graph;
pub mod pick;
pub mod const_vals;
pub mod reassign;
pub mod single_use;
pub mod chain;
pub mod extract;
pub mod if_cond;
pub mod pre_extract;
pub mod rescue;
pub mod ast_graph;
pub mod branch_graph;
pub mod cse;
pub mod dedup;
pub mod pipeline;
pub mod hash_cons;
