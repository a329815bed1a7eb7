use std::collections::HashMap;

use vstd::prelude::*;

use crate::alias::{alias_inlined, alias_occ, inline_alias_vals};
use crate::chain::{chain_rewritten, rewrite_byindex_globalvars_chain};
use crate::branch_graph::branch_opts;
use crate::cse::{apply_cse_within_branches, branches_ok, branches_result, cse_expr, cse_spec};
use crate::dag::TypeTags;
use crate::dedup::{dedup_ok, dedup_result, deduplicate_inner_consts};
use crate::disambig::{count_valdefs, dis, disambiguate_val_ids, is_max_id};
use crate::extract::{lemma_max_id_unique, max_id, max_id_is};
use crate::flatten::{flat, flatten_nested_blocks};
use crate::max_id::{find_max_val_id, occurs_id};
use crate::node::{Node, Tree};
use crate::pre_extract::{pre_extract_from_valdefs, pre_extracted};
use crate::reassign::{dfs_reassign_val_ids, reassigned};
use crate::renumber::{assign, rewrite, sequential_renumber, tree_size};
use crate::reorder::{reorder_valdefs, reorderable, reordered};
use crate::single_use::{inline_single_use_vals, single_inlined};
use crate::walk::node_count;

use crate::hash_cons::HashCons;

verus! {

/// The largest id of `expr`, as `max_id` says.
fn largest_id(expr: &Node) -> (r: u32)
    ensures
        r == max_id(expr@),
{
    let m = find_max_val_id(expr);
    proof {
        let c = choose|r: u32| max_id_is(expr@, r);
        assert(max_id_is(expr@, m));
        lemma_max_id_unique(expr@, c, m);
    }
    m
}

/// The ids of `t` can be made distinct above its largest id without
/// running out of `u32`.
pub open spec fn disambig_fits(t: Tree) -> bool {
    &&& count_valdefs(t) < u32::MAX
    &&& forall|x: u32| occurs_id(t, x) ==> x + 1 + count_valdefs(t) <= u32::MAX
}

/// The whole CSE pass over `t`, stage by stage: alias ValDefs inlined;
/// `cse_expr` at the root with the largest id; CSE within If branches;
/// ValDef pre-extraction from one past the largest id; single-use values
/// inlined; the duplicate rules of the branches; single-use values
/// inlined again; nested blocks flattened; chain links rewritten; ids
/// made distinct; ids reassigned in depth-first order; ValDefs reordered;
/// and the ids renumbered from 0. `None` where a stage would overflow.
pub open spec fn pipeline_spec(t: Tree, tags: TypeTags) -> Option<Tree> {
    let ops = tags.op_types@;
    let big = tags.big_int;
    let hc = tags.hash_cons;
    if node_count(t) > usize::MAX {
        None
    } else {
        let a = alias_inlined(
            t,
            false,
            Set::new(|x: Tree| alias_occ(t, false, false).contains(x)),
            Set::new(|x: Tree| alias_occ(t, false, true).contains(x)),
        );
        let c = cse_spec(a, max_id(a), false, ops, big, hc);
        if !c.1 || !branches_ok(c.0, max_id(c.0), ops, big, branch_opts(tags)) {
            None
        } else {
            let w = branches_result(c.0, max_id(c.0), ops, big, branch_opts(tags));
            if max_id(w) as nat + 1 > u32::MAX || node_count(w) > usize::MAX {
                None
            } else {
                let p = pre_extracted(w, max_id(w) as nat + 1, ops, big, tags.equality_ops@);
                let s1 = single_inlined(p.0, ops);
                if p.1 > u32::MAX || !dedup_ok(s1, ops, tags.arith_ops@, tags.relation_ops@) {
                    None
                } else {
                    let s2 = single_inlined(dedup_result(s1, ops, tags.arith_ops@, tags.relation_ops@), ops);
                    let f = chain_rewritten(flat(s2), ops);
                    if !disambig_fits(f) {
                        None
                    } else {
                        let r = reassigned(dis(f, Seq::empty(), (max_id(f) + 1) as nat).0);
                        if !reorderable(r) || tree_size(reordered(r)) > u32::MAX {
                            None
                        } else {
                            let o = reordered(r);
                            Some(rewrite(o, assign(o, Map::empty(), 0, None).0))
                        }
                    }
                }
            }
        }
    }
}

/// The whole CSE pass, as `pipeline_spec` says; no stage may overflow.
pub fn cse_pipeline(expr: Node, tags: &TypeTags) -> (r: Node)
    requires
        pipeline_spec(expr@, *tags) is Some,
    ensures
        r@ == pipeline_spec(expr@, *tags).unwrap(),
{
    let a = inline_alias_vals(expr);
    let g = largest_id(&a);
    let c = cse_expr(a, g, false, tags);
    let bm = largest_id(&c);
    let w = apply_cse_within_branches(c, bm, tags);
    let pm = largest_id(&w);
    let mut next_id = pm + 1;
    let p = pre_extract_from_valdefs(w, &mut next_id, tags);
    let s1 = inline_single_use_vals(p, tags);
    let d = deduplicate_inner_consts(s1, tags);
    let s2 = inline_single_use_vals(d, tags);
    let fl = flatten_nested_blocks(s2);
    let f = rewrite_byindex_globalvars_chain(fl, tags);
    let dz = disambiguate_val_ids(f);
    proof {
        let m = choose|m: u32| is_max_id(f@, m) && dz@ == dis(f@, Seq::empty(), (m + 1) as nat).0;
        let c2 = choose|r: u32| max_id_is(f@, r);
        assert(max_id_is(f@, m));
        lemma_max_id_unique(f@, c2, m);
    }
    let positions: HashMap<u32, usize> = HashMap::new();
    let r = dfs_reassign_val_ids(dz, &positions);
    let o = reorder_valdefs(r);
    sequential_renumber(o)
}

} // verus!
