use vstd::prelude::*;

use crate::assoc::{
    assoc_find, assoc_get, assoc_map, keys_distinct, lemma_assoc_absent, lemma_assoc_found, lemma_assoc_len,
    lemma_assoc_push, lemma_assoc_update, pairs_view,
};
use crate::node::{clone_node, Node, Tree};

verus! {

/// A scope is identified by its index; scope 0 is the root.
pub type ScopeId = usize;

/// A symbol handed out by the hash-cons table.
pub type SymId = u32;

/// `a` is `s` or an ancestor of `s` along the parent links.
pub open spec fn is_anc(parents: Seq<Option<usize>>, a: usize, s: usize) -> bool
    decreases s,
{
    if s == a {
        true
    } else if s < parents.len() {
        match parents[s as int] {
            Some(p) => if p < s {
                is_anc(parents, a, p)
            } else {
                false
            },
            None => false,
        }
    } else {
        false
    }
}

/// The symbol bound to `t` in the nearest scope, from `s` up to the root,
/// that binds it.
pub open spec fn lookup(
    parents: Seq<Option<usize>>,
    defs: Seq<Map<Tree, u32>>,
    t: Tree,
    s: usize,
) -> Option<u32>
    decreases s,
{
    if s < defs.len() && defs[s as int].contains_key(t) {
        Some(defs[s as int][t])
    } else if s < parents.len() {
        match parents[s as int] {
            Some(p) => if p < s {
                lookup(parents, defs, t, p)
            } else {
                None
            },
            None => None,
        }
    } else {
        None
    }
}

/// Scope links form a tree rooted at 0: every other scope has a parent
/// created before it.
pub open spec fn scope_tree_wf(parents: Seq<Option<usize>>) -> bool {
    &&& parents.len() >= 1
    &&& parents[0] is None
    &&& forall|i: int|
        0 < i < parents.len() ==> (#[trigger] parents[i] matches Some(p) && (p as int) < i)
}

/// `c` is an ancestor of every scope in `scopes`.
pub open spec fn common_anc(parents: Seq<Option<usize>>, c: usize, scopes: Seq<usize>) -> bool {
    forall|i: int| 0 <= i < scopes.len() ==> is_anc(parents, c, #[trigger] scopes[i])
}

/// The abstract state of a hash-cons table.
pub struct SymTableView {
    pub parents: Seq<Option<usize>>,
    pub defs: Seq<Map<Tree, u32>>,
    pub homes: Seq<usize>,
    pub canonical: Map<Tree, u32>,
    pub counts: Map<u32, u32>,
    pub scope_lists: Map<u32, Seq<usize>>,
    pub next: u32,
    pub keys: Seq<Tree>,
}

/// Hash-cons table of structurally equal expressions per scope. Each
/// scope has its own table; lookups walk from a scope up to the root.
/// Beside it, each structural form has a canonical symbol (the first one
/// ever given to it, in any scope), with a count of lookups and the list
/// of scopes they came from.
pub struct SymTable {
    scope_parents: Vec<Option<usize>>,
    scope_defs: Vec<Vec<(Node, u32)>>,
    sym_scope: Vec<usize>,
    canonical: Vec<(Node, u32)>,
    canonical_counts: Vec<u32>,
    canonical_scopes: Vec<Vec<usize>>,
    next_sym: u32,
    /// The form each symbol was interned for.
    sym_key: Ghost<Seq<Tree>>,
}

impl View for SymTable {
    type V = SymTableView;

    closed spec fn view(&self) -> SymTableView {
        SymTableView {
            parents: self.scope_parents@,
            defs: Seq::new(
                self.scope_defs@.len(),
                |i: int| assoc_map(pairs_view(self.scope_defs@[i]@)),
            ),
            homes: self.sym_scope@,
            canonical: assoc_map(pairs_view(self.canonical@)),
            counts: Map::new(
                |k: u32| k < self.canonical_counts@.len() && self.canonical_counts@[k as int] > 0,
                |k: u32| self.canonical_counts@[k as int],
            ),
            scope_lists: Map::new(
                |k: u32| k < self.canonical_counts@.len() && self.canonical_counts@[k as int] > 0,
                |k: u32| self.canonical_scopes@[k as int]@,
            ),
            next: self.next_sym,
            keys: self.sym_key@,
        }
    }
}

impl SymTable {
    /// Internal consistency of the table.
    pub closed spec fn wf(&self) -> bool {
        &&& scope_tree_wf(self.scope_parents@)
        &&& self.scope_defs@.len() == self.scope_parents@.len()
        &&& forall|s: int|
            0 <= s < self.scope_defs@.len() ==> keys_distinct(
                #[trigger] pairs_view(self.scope_defs@[s]@),
            )
        &&& forall|s: int, t: Tree|
            0 <= s < self.scope_defs@.len() && #[trigger] assoc_map(pairs_view(self.scope_defs@[s]@)).contains_key(t) ==> {
                let v = assoc_map(pairs_view(self.scope_defs@[s]@))[t];
                &&& v < self.next_sym
                &&& self.sym_scope@[v as int] == s
                &&& self.sym_key@[v as int] == t
            }
        &&& self.sym_scope@.len() == self.next_sym
        &&& self.sym_key@.len() == self.next_sym
        &&& forall|i: int|
            0 <= i < self.sym_scope@.len() ==> #[trigger] self.sym_scope@[i]
                < self.scope_parents@.len()
        &&& keys_distinct(pairs_view(self.canonical@))
        &&& forall|t: Tree| #[trigger]
            assoc_map(pairs_view(self.canonical@)).contains_key(t) ==> {
                let c = assoc_map(pairs_view(self.canonical@))[t];
                &&& c < self.next_sym
                &&& self.canonical_counts@[c as int] > 0
                &&& self.sym_key@[c as int] == t
            }
        &&& forall|c: u32|
            c < self.next_sym && #[trigger] self.canonical_counts@[c as int] > 0 ==> exists|
                t: Tree,
            | #[trigger] assoc_map(pairs_view(self.canonical@)).contains_key(t) && assoc_map(
                pairs_view(self.canonical@),
            )[t] == c
        &&& self.canonical_counts@.len() == self.next_sym
        &&& self.canonical_scopes@.len() == self.next_sym
        &&& forall|c: int|
            0 <= c < self.canonical_counts@.len() && #[trigger] self.canonical_counts@[c] == 0
                ==> self.canonical_scopes@[c]@.len() == 0
        &&& forall|c: int, j: int|
            0 <= c < self.canonical_scopes@.len() && 0 <= j
                < self.canonical_scopes@[c]@.len() ==> #[trigger] self.canonical_scopes@[c]@[j]
                < self.scope_parents@.len()
    }

    /// The form each symbol was interned for, by symbol.
    pub open spec fn sym_keys(&self) -> Seq<Tree> {
        self@.keys
    }

    /// Number of scopes created so far.
    pub open spec fn num_scopes(&self) -> nat {
        self@.parents.len()
    }

    /// The public facts that the internal consistency gives: the scopes
    /// form a tree rooted at 0 (so every scope descends from it), each
    /// scope has its own table, every symbol has a home scope among them,
    /// and every count held is positive.
    pub proof fn lemma_wf_facts(&self)
        requires
            self.wf(),
        ensures
            scope_tree_wf(self@.parents),
            self@.defs.len() == self@.parents.len(),
            self@.homes.len() == self@.next,
            forall|i: int| 0 <= i < self@.homes.len() ==> #[trigger] self@.homes[i] < self@.parents.len(),
            forall|c: u32| #[trigger] self@.counts.contains_key(c) ==> self@.counts[c] > 0 && c < self@.next,
            forall|t: Tree| #[trigger] self@.canonical.contains_key(t) ==> self@.counts.contains_key(self@.canonical[t]),
            forall|s: usize| s < self@.parents.len() ==> is_anc(self@.parents, 0, s),
            forall|s: int, t: Tree|
                0 <= s < self@.defs.len() && #[trigger] self@.defs[s].contains_key(t) ==> {
                    let v = self@.defs[s][t];
                    &&& v < self@.next
                    &&& self@.homes[v as int] == s
                },
    {
        assert forall|s: usize| s < self@.parents.len() implies is_anc(self@.parents, 0, s) by {
            lemma_root_anc(self@.parents, s);
        }
    }

    /// A table with the root scope alone and no symbol.
    pub fn new() -> (t: Self)
        ensures
            t.wf(),
            t@.parents == seq![None::<usize>],
            t@.defs == seq![Map::<Tree, u32>::empty()],
            t@.homes == Seq::<usize>::empty(),
            t@.canonical == Map::<Tree, u32>::empty(),
            t@.counts == Map::<u32, u32>::empty(),
            t@.scope_lists == Map::<u32, Seq<usize>>::empty(),
            t@.next == 0,
            t@.keys == Seq::<Tree>::empty(),
    {
        let mut scope_parents: Vec<Option<usize>> = Vec::new();
        scope_parents.push(None);
        let mut scope_defs: Vec<Vec<(Node, u32)>> = Vec::new();
        scope_defs.push(Vec::new());
        let t = SymTable {
            scope_parents,
            scope_defs,
            sym_scope: Vec::new(),
            canonical: Vec::new(),
            canonical_counts: Vec::new(),
            canonical_scopes: Vec::new(),
            next_sym: 0,
            sym_key: Ghost(Seq::empty()),
        };
        proof {
            assert(pairs_view(t.canonical@) =~= Seq::empty());
            assert(pairs_view(t.scope_defs@[0]@) =~= Seq::empty());
            assert(t@.parents =~= seq![None::<usize>]);
            assert(t@.defs =~= seq![Map::<Tree, u32>::empty()]);
            assert(t@.counts =~= Map::<u32, u32>::empty());
            assert(t@.scope_lists =~= Map::<u32, Seq<usize>>::empty());
        }
        t
    }

    /// Scope in which symbol `sym` was interned.
    pub fn scope_of(&self, sym: SymId) -> (r: ScopeId)
        requires
            self.wf(),
            sym < self@.next,
        ensures
            r == self@.homes[sym as int],
            r < self.num_scopes(),
    {
        self.sym_scope[sym as usize]
    }

    /// Number of expressions bound in `scope` itself.
    pub fn scope_def_count(&self, scope: ScopeId) -> (r: usize)
        requires
            self.wf(),
            scope < self.num_scopes(),
        ensures
            r == self@.defs[scope as int].len(),
    {
        let ghost s = pairs_view(self.scope_defs@[scope as int]@);
        proof {
            lemma_assoc_len(s);
        }
        self.scope_defs[scope].len()
    }

    /// The canonical symbol of `expr`'s structural form, if any scope ever
    /// interned it.
    pub fn canonical_for(&self, expr: &Node) -> (r: Option<SymId>)
        requires
            self.wf(),
        ensures
            r == self@.canonical.get(expr@),
    {
        assoc_get(&self.canonical, expr)
    }

    /// Number of lookups recorded for canonical symbol `sym`; 0 when `sym`
    /// is not canonical.
    pub fn canonical_count(&self, sym: SymId) -> (r: u32)
        requires
            self.wf(),
        ensures
            r == (if self@.counts.contains_key(sym) {
                self@.counts[sym]
            } else {
                0
            }),
    {
        if (sym as usize) < self.canonical_counts.len() {
            self.canonical_counts[sym as usize]
        } else {
            0
        }
    }

    /// Scopes the lookups of canonical symbol `sym` came from, in order;
    /// empty when `sym` is not canonical.
    pub fn canonical_scopes_for(&self, sym: SymId) -> (r: &[ScopeId])
        requires
            self.wf(),
        ensures
            r@ == (if self@.scope_lists.contains_key(sym) {
                self@.scope_lists[sym]
            } else {
                Seq::<usize>::empty()
            }),
    {
        if (sym as usize) < self.canonical_scopes.len() && self.canonical_counts[sym as usize] > 0 {
            self.canonical_scopes[sym as usize].as_slice()
        } else {
            &[]
        }
    }

    /// The canonical symbols, in increasing order.
    pub fn canonical_syms(&self) -> (r: Vec<SymId>)
        requires
            self.wf(),
        ensures
            forall|i: int, j: int| 0 <= i < j < r@.len() ==> r@[i] < r@[j],
            forall|k: u32| r@.contains(k) <==> self@.counts.contains_key(k),
    {
        let mut out: Vec<SymId> = Vec::new();
        let mut k: u32 = 0;
        while k < self.next_sym
            invariant
                self.wf(),
                k <= self.next_sym,
                forall|i: int, j: int| 0 <= i < j < out@.len() ==> out@[i] < out@[j],
                forall|i: int| 0 <= i < out@.len() ==> out@[i] < k,
                forall|c: u32|
                    c < k ==> (out@.contains(c) <==> self@.counts.contains_key(c)),
                forall|c: u32| out@.contains(c) ==> c < k,
            decreases self.next_sym - k,
        {
            let ghost old_out = out@;
            if self.canonical_counts[k as usize] > 0 {
                out.push(k);
            }
            proof {
                assert(self@.counts.contains_key(k) == (self.canonical_counts@[k as int] > 0));
                assert forall|c: u32| out@.contains(c) <==> (old_out.contains(c) || (c == k
                    && self.canonical_counts@[k as int] > 0)) by {
                    if old_out.contains(c) {
                        let j = choose|j: int| 0 <= j < old_out.len() && old_out[j] == c;
                        assert(out@[j] == c);
                    }
                    if c == k && self.canonical_counts@[k as int] > 0 {
                        assert(out@[old_out.len() as int] == c);
                    }
                    if out@.contains(c) {
                        let j = choose|j: int| 0 <= j < out@.len() && out@[j] == c;
                        if j < old_out.len() {
                            assert(old_out[j] == c);
                        }
                    }
                }
                assert(!old_out.contains(k));
                assert forall|c: u32| c <= k implies (out@.contains(c)
                    <==> self@.counts.contains_key(c)) by {
                    if c < k {
                        assert(old_out.contains(c) <==> self@.counts.contains_key(c));
                    }
                }
            }
            k += 1;
        }
        proof {
            assert forall|c: u32| out@.contains(c) <==> self@.counts.contains_key(c) by {
                if c >= k {
                    assert(!self@.counts.contains_key(c));
                }
            }
        }
        out
    }

    /// Lowest common ancestor of the given scopes; the root for none.
    pub fn lca_of_scopes(&self, scopes: &[ScopeId]) -> (r: ScopeId)
        requires
            self.wf(),
            forall|i: int| 0 <= i < scopes@.len() ==> #[trigger] scopes@[i] < self.num_scopes(),
        ensures
            r < self.num_scopes(),
            scopes@.len() == 0 ==> r == 0,
            common_anc(self@.parents, r, scopes@),
            scopes@.len() > 0 ==> forall|c: usize|
                c < self.num_scopes() && common_anc(self@.parents, c, scopes@) ==> is_anc(
                    self@.parents,
                    c,
                    r,
                ),
            scopes@.len() > 0 ==> is_lca(self@.parents, r, scopes@),
    {
        if scopes.len() == 0 {
            return 0;
        }
        let ghost p = self.scope_parents@;
        let mut acc = scopes[0];
        let mut i: usize = 1;
        proof {
            lemma_anc_refl(p, acc);
            let pre = scopes@.subrange(0, 1);
            assert(pre[0] == acc);
            assert forall|c: usize| c < p.len() && common_anc(p, c, pre) implies is_anc(p, c, acc) by {
                assert(is_anc(p, c, pre[0]));
            }
        }
        while i < scopes.len()
            invariant
                self.wf(),
                p == self.scope_parents@,
                forall|k: int| 0 <= k < scopes@.len() ==> #[trigger] scopes@[k] < p.len(),
                1 <= i <= scopes@.len(),
                acc < p.len(),
                common_anc(p, acc, scopes@.subrange(0, i as int)),
                forall|c: usize|
                    c < p.len() && common_anc(p, c, scopes@.subrange(0, i as int)) ==> is_anc(
                        p,
                        c,
                        acc,
                    ),
            decreases scopes.len() - i,
        {
            let s = scopes[i];
            let next = self.lca_pair(acc, s);
            proof {
                let old_pre = scopes@.subrange(0, i as int);
                let pre = scopes@.subrange(0, i + 1);
                assert forall|k: int| 0 <= k < pre.len() implies is_anc(p, next, #[trigger] pre[k]) by {
                    if k < i {
                        assert(pre[k] == old_pre[k]);
                        lemma_anc_trans(p, next, acc, pre[k]);
                    }
                }
                assert forall|c: usize| c < p.len() && common_anc(p, c, pre) implies is_anc(
                    p,
                    c,
                    next,
                ) by {
                    assert forall|k: int| 0 <= k < old_pre.len() implies is_anc(
                        p,
                        c,
                        #[trigger] old_pre[k],
                    ) by {
                        assert(old_pre[k] == pre[k]);
                    }
                    assert(pre[i as int] == s);
                }
            }
            acc = next;
            i += 1;
            if acc == 0 {
                proof {
                    assert forall|k: int| 0 <= k < scopes@.len() implies is_anc(
                        p,
                        0,
                        #[trigger] scopes@[k],
                    ) by {
                        lemma_root_anc(p, scopes@[k]);
                    }
                    assert forall|c: usize|
                        c < p.len() && common_anc(p, c, scopes@) implies is_anc(p, c, 0) by {
                        let pre = scopes@.subrange(0, i as int);
                        assert forall|k: int| 0 <= k < pre.len() implies is_anc(
                            p,
                            c,
                            #[trigger] pre[k],
                        ) by {
                            assert(pre[k] == scopes@[k]);
                        }
                    }
                }
                return 0;
            }
        }
        proof {
            assert(scopes@.subrange(0, i as int) =~= scopes@);
        }
        acc
    }

    /// Lowest common ancestor of two scopes.
    fn lca_pair(&self, a: ScopeId, b: ScopeId) -> (r: ScopeId)
        requires
            self.wf(),
            a < self.num_scopes(),
            b < self.num_scopes(),
        ensures
            r < self.num_scopes(),
            is_anc(self@.parents, r, a),
            is_anc(self@.parents, r, b),
            forall|c: usize|
                is_anc(self@.parents, c, a) && is_anc(self@.parents, c, b) ==> is_anc(
                    self@.parents,
                    c,
                    r,
                ),
    {
        let ghost p = self.scope_parents@;
        let a_chain = self.ancestors(a);
        // a_chain now holds exactly the ancestors of a.
        let mut cur = b;
        proof {
            lemma_anc_refl(p, b);
        }
        loop
            invariant
                self.wf(),
                p == self.scope_parents@,
                cur < p.len(),
                is_anc(p, cur, b),
                a < p.len(),
                forall|x: usize| is_anc(p, x, a) <==> a_chain@.contains(x),
                forall|x: usize|
                    is_anc(p, x, b) && !is_anc(p, x, cur) ==> !a_chain@.contains(x),
            decreases cur,
        {
            if contains_scope(&a_chain, cur) {
                return cur;
            }
            proof {
                lemma_anc_unfold(p, cur);
            }
            match self.scope_parents[cur] {
                Some(q) => {
                    proof {
                        lemma_anc_trans(p, q, cur, b);
                        lemma_anc_refl(p, q);
                    }
                    cur = q;
                },
                None => {
                    proof {
                        lemma_root_anc(p, a);
                        assert(cur == 0);
                        assert(false);
                    }
                    return cur;
                },
            }
        }
    }

    /// The ancestors of `a`, itself included.
    fn ancestors(&self, a: ScopeId) -> (r: Vec<ScopeId>)
        requires
            self.wf(),
            a < self.num_scopes(),
        ensures
            forall|x: usize| is_anc(self@.parents, x, a) <==> r@.contains(x),
    {
        let ghost p = self.scope_parents@;
        let mut chain: Vec<ScopeId> = Vec::new();
        let mut cur = a;
        proof {
            lemma_anc_refl(p, a);
        }
        loop
            invariant_except_break
                self.wf(),
                p == self.scope_parents@,
                cur < p.len(),
                is_anc(p, cur, a),
                forall|x: usize| is_anc(p, x, a) <==> (chain@.contains(x) || is_anc(p, x, cur)),
            ensures
                forall|x: usize| is_anc(p, x, a) <==> chain@.contains(x),
            decreases cur,
        {
            let ghost old_chain = chain@;
            chain.push(cur);
            proof {
                lemma_anc_unfold(p, cur);
                assert forall|x: usize| chain@.contains(x) <==> (old_chain.contains(x) || x == cur) by {
                    if old_chain.contains(x) {
                        let j = choose|j: int| 0 <= j < old_chain.len() && old_chain[j] == x;
                        assert(chain@[j] == x);
                    }
                    if x == cur {
                        assert(chain@[old_chain.len() as int] == x);
                    }
                    if chain@.contains(x) {
                        let j = choose|j: int| 0 <= j < chain@.len() && chain@[j] == x;
                        if j < old_chain.len() {
                            assert(old_chain[j] == x);
                        }
                    }
                }
            }
            match self.scope_parents[cur] {
                Some(q) => {
                    proof {
                        lemma_anc_refl(p, q);
                        lemma_anc_trans(p, q, cur, a);
                    }
                    cur = q;
                },
                None => {
                    break ;
                },
            }
        }
        chain
    }

    /// Create a child scope of `parent`; returns the new scope's id.
    pub fn new_scope(&mut self, parent: ScopeId) -> (r: ScopeId)
        requires
            old(self).wf(),
            parent < old(self).num_scopes(),
        ensures
            final(self).wf(),
            r == old(self)@.parents.len(),
            final(self)@.parents == old(self)@.parents.push(Some(parent)),
            final(self)@.defs == old(self)@.defs.push(Map::<Tree, u32>::empty()),
            final(self)@.homes == old(self)@.homes,
            final(self)@.canonical == old(self)@.canonical,
            final(self)@.counts == old(self)@.counts,
            final(self)@.scope_lists == old(self)@.scope_lists,
            final(self)@.next == old(self)@.next,
            final(self)@.keys == old(self)@.keys,
    {
        let id = self.scope_parents.len();
        self.scope_parents.push(Some(parent));
        self.scope_defs.push(Vec::new());
        proof {
            let old_defs = old(self).scope_defs@;
            assert(pairs_view(self.scope_defs@[id as int]@) =~= Seq::empty());
            assert forall|s: int| 0 <= s < old_defs.len() implies self.scope_defs@[s] == old_defs[s] by {}
            assert(self@.defs =~= old(self)@.defs.push(Map::<Tree, u32>::empty()));
            assert(self@.counts =~= old(self)@.counts);
            assert(self@.scope_lists =~= old(self)@.scope_lists);
        }
        id
    }

    /// Search `expr` from `scope` up through its ancestors to the root.
    pub fn find(&self, expr: &Node, scope: ScopeId) -> (r: Option<SymId>)
        requires
            self.wf(),
            scope < self.num_scopes(),
        ensures
            r == lookup(self@.parents, self@.defs, expr@, scope),
    {
        let mut current = scope;
        loop
            invariant
                self.wf(),
                current < self.num_scopes(),
                lookup(self@.parents, self@.defs, expr@, scope) == lookup(
                    self@.parents,
                    self@.defs,
                    expr@,
                    current,
                ),
            decreases current,
        {
            let hit = assoc_get(&self.scope_defs[current], expr);
            if let Some(sym_id) = hit {
                return Some(sym_id);
            }
            match self.scope_parents[current] {
                Some(parent) => {
                    current = parent;
                },
                None => {
                    return None;
                },
            }
        }
    }

    /// Bind `expr` in `scope` to a fresh symbol and return it. Where
    /// `scope` itself already binds `expr`, the binding is replaced.
    pub fn intern(&mut self, expr: &Node, scope: ScopeId) -> (r: SymId)
        requires
            old(self).wf(),
            scope < old(self).num_scopes(),
            old(self)@.next < u32::MAX,
        ensures
            final(self).wf(),
            r == old(self)@.next,
            final(self)@.next == old(self)@.next + 1,
            final(self)@.parents == old(self)@.parents,
            final(self)@.defs == old(self)@.defs.update(
                scope as int,
                old(self)@.defs[scope as int].insert(expr@, r),
            ),
            final(self)@.homes == old(self)@.homes.push(scope),
            final(self)@.canonical == old(self)@.canonical,
            final(self)@.counts == old(self)@.counts,
            final(self)@.scope_lists == old(self)@.scope_lists,
            final(self).sym_keys() == old(self).sym_keys().push(expr@),
    {
        let id = self.next_sym;
        self.next_sym = self.next_sym + 1;
        let ghost old_list = pairs_view(self.scope_defs@[scope as int]@);
        let mut list: Vec<(Node, u32)> = Vec::new();
        std::mem::swap(&mut list, &mut self.scope_defs[scope]);
        assert(pairs_view(list@) == old_list);
        match assoc_find(&list, expr) {
            Some(i) => {
                let key = clone_node(&list[i].0);
                list.set(i, (key, id));
                proof {
                    assert(pairs_view(list@) =~= old_list.update(i as int, (old_list[i as int].0, id)));
                    lemma_assoc_update(old_list, i as int, id);
                }
            },
            None => {
                list.push((clone_node(expr), id));
                proof {
                    assert(pairs_view(list@) =~= old_list.push((expr@, id)));
                    lemma_assoc_push(old_list, expr@, id);
                }
            },
        }
        self.scope_defs.set(scope, list);
        self.sym_scope.push(scope);
        self.sym_key = Ghost(self.sym_key@.push(expr@));
        self.canonical_counts.push(0);
        self.canonical_scopes.push(Vec::new());
        proof {
            let o = old(self);
            let nd = self@.defs;
            assert(nd =~= o@.defs.update(scope as int, o@.defs[scope as int].insert(expr@, id)));
            assert forall|s: int| 0 <= s < self.scope_defs@.len() implies keys_distinct(
                #[trigger] pairs_view(self.scope_defs@[s]@),
            ) by {
                if s != scope {
                    assert(self.scope_defs@[s] == o.scope_defs@[s]);
                }
            }
            assert forall|s: int, t: Tree|
                0 <= s < self.scope_defs@.len() && #[trigger] assoc_map(pairs_view(self.scope_defs@[s]@)).contains_key(t) implies {
                let v = assoc_map(pairs_view(self.scope_defs@[s]@))[t];
                &&& v < self.next_sym
                &&& self.sym_scope@[v as int] == s
                &&& self.sym_key@[v as int] == t
            } by {
                if s != scope {
                    assert(self.scope_defs@[s] == o.scope_defs@[s]);
                    let v = assoc_map(pairs_view(o.scope_defs@[s]@))[t];
                    assert(o.sym_scope@[v as int] == s);
                    assert(o.sym_key@[v as int] == t);
                } else if t != expr@ {
                    let v = assoc_map(pairs_view(o.scope_defs@[s]@))[t];
                    assert(o.sym_scope@[v as int] == s);
                    assert(o.sym_key@[v as int] == t);
                }
            }
            assert forall|t: Tree| #[trigger]
                assoc_map(pairs_view(self.canonical@)).contains_key(t) implies {
                let c = assoc_map(pairs_view(self.canonical@))[t];
                &&& c < self.next_sym
                &&& self.canonical_counts@[c as int] > 0
                &&& self.sym_key@[c as int] == t
            } by {
                assert(assoc_map(pairs_view(o.canonical@)).contains_key(t));
            }
            assert forall|c: u32|
                c < self.next_sym && #[trigger] self.canonical_counts@[c as int] > 0 implies exists|
                t: Tree,
            | #[trigger] assoc_map(pairs_view(self.canonical@)).contains_key(t) && assoc_map(
                pairs_view(self.canonical@),
            )[t] == c by {
                assert(c < o.next_sym);
                assert(o.canonical_counts@[c as int] > 0);
            }
            assert forall|c: int, j: int|
                0 <= c < self.canonical_scopes@.len() && 0 <= j
                    < self.canonical_scopes@[c]@.len() implies #[trigger] self.canonical_scopes@[c]@[j]
                    < self.scope_parents@.len() by {
                if c < o.canonical_scopes@.len() {
                    assert(self.canonical_scopes@[c] == o.canonical_scopes@[c]);
                }
            }
            assert(self@.counts =~= o@.counts);
            assert(self@.scope_lists =~= o@.scope_lists);
        }
        id
    }

    /// Look `expr` up from `scope`; intern it in `scope` when no ancestor
    /// binds it. Returns the symbol and whether it is new. Every call also
    /// counts one lookup against the canonical symbol of `expr`'s form (the
    /// returned symbol when the form is seen for the first time) and
    /// records `scope` for it.
    pub fn find_or_intern(&mut self, expr: &Node, scope: ScopeId) -> (r: (SymId, bool))
        requires
            old(self).wf(),
            scope < old(self).num_scopes(),
            old(self)@.next < u32::MAX,
            old(self)@.canonical.contains_key(expr@) ==> old(self)@.counts[old(
                self,
            )@.canonical[expr@]] < u32::MAX,
        ensures
            final(self).wf(),
            final(self)@.parents == old(self)@.parents,
            match lookup(old(self)@.parents, old(self)@.defs, expr@, scope) {
                Some(id) => {
                    &&& r == (id, false)
                    &&& final(self)@.defs == old(self)@.defs
                    &&& final(self)@.homes == old(self)@.homes
                    &&& final(self)@.next == old(self)@.next
                    &&& final(self)@.keys == old(self)@.keys
                },
                None => {
                    &&& r == (old(self)@.next, true)
                    &&& final(self)@.defs == old(self)@.defs.update(
                        scope as int,
                        old(self)@.defs[scope as int].insert(expr@, r.0),
                    )
                    &&& final(self)@.homes == old(self)@.homes.push(scope)
                    &&& final(self)@.next == old(self)@.next + 1
                    &&& final(self)@.keys == old(self)@.keys.push(expr@)
                },
            },
            final(self)@.canonical == (if old(self)@.canonical.contains_key(expr@) {
                old(self)@.canonical
            } else {
                old(self)@.canonical.insert(expr@, r.0)
            }),
            ({
                let c = final(self)@.canonical[expr@];
                &&& final(self)@.counts == old(self)@.counts.insert(
                    c,
                    ((if old(self)@.counts.contains_key(c) {
                        old(self)@.counts[c]
                    } else {
                        0
                    }) + 1) as u32,
                )
                &&& final(self)@.scope_lists == old(self)@.scope_lists.insert(
                    c,
                    (if old(self)@.scope_lists.contains_key(c) {
                        old(self)@.scope_lists[c]
                    } else {
                        Seq::<usize>::empty()
                    }).push(scope),
                )
            }),
    {
        let result = match self.find(expr, scope) {
            Some(sym_id) => {
                proof {
                    self.lemma_lookup_home(expr@, scope);
                }
                let sym_home = self.sym_scope[sym_id as usize];
                let visible = self.is_ancestor(sym_home, scope);
                if visible {
                    (sym_id, false)
                } else {
                    let new_id = self.intern(expr, scope);
                    (new_id, true)
                }
            },
            None => {
                let sym_id = self.intern(expr, scope);
                (sym_id, true)
            },
        };
        let (sym_id, _is_new) = result;
        self.record_canonical(expr, sym_id, scope);
        result
    }

    /// Count one lookup of `expr` from `scope` against its canonical
    /// symbol, making `sym_id` canonical when the form is new.
    fn record_canonical(&mut self, expr: &Node, sym_id: SymId, scope: ScopeId)
        requires
            old(self).wf(),
            scope < old(self).num_scopes(),
            sym_id < old(self)@.next,
            old(self).sym_key@[sym_id as int] == expr@,
            old(self)@.canonical.contains_key(expr@) ==> old(self)@.counts[old(
                self,
            )@.canonical[expr@]] < u32::MAX,
        ensures
            final(self).wf(),
            final(self)@.parents == old(self)@.parents,
            final(self)@.defs == old(self)@.defs,
            final(self)@.homes == old(self)@.homes,
            final(self)@.next == old(self)@.next,
            final(self)@.keys == old(self)@.keys,
            final(self)@.canonical == (if old(self)@.canonical.contains_key(expr@) {
                old(self)@.canonical
            } else {
                old(self)@.canonical.insert(expr@, sym_id)
            }),
            ({
                let c = final(self)@.canonical[expr@];
                &&& final(self)@.counts == old(self)@.counts.insert(
                    c,
                    ((if old(self)@.counts.contains_key(c) {
                        old(self)@.counts[c]
                    } else {
                        0
                    }) + 1) as u32,
                )
                &&& final(self)@.scope_lists == old(self)@.scope_lists.insert(
                    c,
                    (if old(self)@.scope_lists.contains_key(c) {
                        old(self)@.scope_lists[c]
                    } else {
                        Seq::<usize>::empty()
                    }).push(scope),
                )
            }),
    {
        let ghost o = *self;
        let ghost old_list = pairs_view(self.canonical@);
        let canonical_sym = match assoc_find(&self.canonical, expr) {
            Some(i) => {
                proof {
                    lemma_assoc_found(old_list, i as int);
                }
                self.canonical[i].1
            },
            None => {
                proof {
                    lemma_assoc_absent(old_list, expr@);
                    if self.canonical_counts@[sym_id as int] > 0 {
                        let t = choose|t: Tree|
                            #[trigger] assoc_map(old_list).contains_key(t) && assoc_map(
                                old_list,
                            )[t] == sym_id;
                        assert(self.sym_key@[sym_id as int] == t);
                        assert(false);
                    }
                }
                self.canonical.push((clone_node(expr), sym_id));
                proof {
                    assert(pairs_view(self.canonical@) =~= old_list.push((expr@, sym_id)));
                    lemma_assoc_push(old_list, expr@, sym_id);
                }
                sym_id
            },
        };
        let ghost cmap = assoc_map(pairs_view(self.canonical@));
        assert(cmap.contains_key(expr@) && cmap[expr@] == canonical_sym);
        assert(cmap == (if o@.canonical.contains_key(expr@) {
            o@.canonical
        } else {
            o@.canonical.insert(expr@, sym_id)
        }));
        let c = canonical_sym as usize;
        let cnt = self.canonical_counts[c];
        proof {
            if o@.canonical.contains_key(expr@) {
                assert(o.canonical_counts@[c as int] > 0);
                assert(o@.counts.contains_key(canonical_sym));
            }
        }
        self.canonical_counts.set(c, cnt + 1);
        let ghost old_lst = self.canonical_scopes@[c as int]@;
        let mut lst: Vec<usize> = Vec::new();
        std::mem::swap(&mut lst, &mut self.canonical_scopes[c]);
        lst.push(scope);
        self.canonical_scopes.set(c, lst);
        proof {
            if cnt == 0 {
                assert(old_lst =~= Seq::<usize>::empty());
            }
            assert(self@.counts =~= o@.counts.insert(canonical_sym, (cnt + 1) as u32));
            assert(self@.scope_lists =~= o@.scope_lists.insert(
                canonical_sym,
                (if o@.scope_lists.contains_key(canonical_sym) {
                    o@.scope_lists[canonical_sym]
                } else {
                    Seq::<usize>::empty()
                }).push(scope),
            ));
            assert(self@.defs =~= o@.defs);
            assert forall|t: Tree| #[trigger]
                assoc_map(pairs_view(self.canonical@)).contains_key(t) implies {
                let cc = assoc_map(pairs_view(self.canonical@))[t];
                &&& cc < self.next_sym
                &&& self.canonical_counts@[cc as int] > 0
                &&& self.sym_key@[cc as int] == t
            } by {
                if t != expr@ {
                    assert(o@.canonical.contains_key(t));
                }
            }
            assert forall|cc: u32|
                cc < self.next_sym && #[trigger] self.canonical_counts@[cc as int] > 0 implies exists|
                t: Tree,
            | #[trigger] assoc_map(pairs_view(self.canonical@)).contains_key(t) && assoc_map(
                pairs_view(self.canonical@),
            )[t] == cc by {
                if cc != canonical_sym {
                    assert(o.canonical_counts@[cc as int] > 0);
                    let t = choose|t: Tree|
                        #[trigger] assoc_map(old_list).contains_key(t) && assoc_map(old_list)[t]
                            == cc;
                    assert(cmap.contains_key(t));
                } else {
                    assert(cmap.contains_key(expr@));
                }
            }
            assert forall|k: int|
                0 <= k < self.canonical_counts@.len() && #[trigger] self.canonical_counts@[k] == 0
                    implies self.canonical_scopes@[k]@.len() == 0 by {
                if k != c {
                    assert(o.canonical_counts@[k] == 0);
                }
            }
            assert forall|k: int, j: int|
                0 <= k < self.canonical_scopes@.len() && 0 <= j
                    < self.canonical_scopes@[k]@.len() implies #[trigger] self.canonical_scopes@[k]@[j]
                    < self.scope_parents@.len() by {
                if k != c {
                    assert(self.canonical_scopes@[k] == o.canonical_scopes@[k]);
                } else if j < old_lst.len() {
                    assert(self.canonical_scopes@[k]@[j] == old_lst[j]);
                }
            }
            assert forall|s: int| 0 <= s < self.scope_defs@.len() implies keys_distinct(
                #[trigger] pairs_view(self.scope_defs@[s]@),
            ) by {
                assert(self.scope_defs@[s] == o.scope_defs@[s]);
            }
        }
    }

    /// A symbol found from `scope` was interned in an ancestor of `scope`.
    proof fn lemma_lookup_home(&self, t: Tree, s: usize)
        requires
            self.wf(),
            s < self.num_scopes(),
        ensures
            lookup(self@.parents, self@.defs, t, s) matches Some(id) ==> id < self@.next && is_anc(
                self@.parents,
                self@.homes[id as int],
                s,
            ) && self.sym_key@[id as int] == t,
        decreases s,
    {
        let p = self@.parents;
        if self@.defs[s as int].contains_key(t) {
            assert(assoc_map(pairs_view(self.scope_defs@[s as int]@)).contains_key(t));
        } else {
            lemma_anc_unfold(p, s);
            match p[s as int] {
                Some(q) => {
                    self.lemma_lookup_home(t, q);
                    match lookup(self@.parents, self@.defs, t, s) {
                        Some(id) => {
                            lemma_anc_refl(p, q);
                            lemma_anc_trans(p, q, q, s);
                            lemma_anc_trans(p, self@.homes[id as int], q, s);
                        },
                        None => {},
                    }
                },
                None => {},
            }
        }
    }

    /// Is `ancestor` an ancestor of `scope`, or `scope` itself?
    pub fn is_ancestor(&self, ancestor: ScopeId, scope: ScopeId) -> (r: bool)
        requires
            self.wf(),
            scope < self.num_scopes(),
        ensures
            r == is_anc(self@.parents, ancestor, scope),
    {
        let mut current = scope;
        loop
            invariant
                self.wf(),
                current < self.num_scopes(),
                is_anc(self@.parents, ancestor, scope) == is_anc(
                    self@.parents,
                    ancestor,
                    current,
                ),
            decreases current,
        {
            if current == ancestor {
                return true;
            }
            match self.scope_parents[current] {
                Some(parent) => {
                    current = parent;
                },
                None => {
                    return false;
                },
            }
        }
    }
}

fn contains_scope(v: &Vec<ScopeId>, x: ScopeId) -> (r: bool)
    ensures
        r == v@.contains(x),
{
    let mut i: usize = 0;
    while i < v.len()
        invariant
            0 <= i <= v@.len(),
            forall|j: int| 0 <= j < i ==> v@[j] != x,
        decreases v.len() - i,
    {
        if v[i] == x {
            return true;
        }
        i += 1;
    }
    false
}

pub proof fn lemma_anc_refl(p: Seq<Option<usize>>, s: usize)
    ensures
        is_anc(p, s, s),
{
}

pub proof fn lemma_anc_unfold(p: Seq<Option<usize>>, s: usize)
    requires
        scope_tree_wf(p),
        s < p.len(),
    ensures
        forall|x: usize|
            is_anc(p, x, s) <==> (x == s || (p[s as int] matches Some(q) && is_anc(p, x, q))),
        s == 0 <==> p[s as int] is None,
        p[s as int] matches Some(q) ==> q < s,
{
    if s > 0 {
        assert(p[s as int] matches Some(q) && (q as int) < s);
    }
}

pub proof fn lemma_anc_trans(p: Seq<Option<usize>>, a: usize, b: usize, c: usize)
    requires
        is_anc(p, a, b),
        is_anc(p, b, c),
    ensures
        is_anc(p, a, c),
    decreases c,
{
    if c != b {
        match p[c as int] {
            Some(q) => {
                lemma_anc_trans(p, a, b, q);
            },
            None => {},
        }
    }
}

pub proof fn lemma_root_anc(p: Seq<Option<usize>>, s: usize)
    requires
        scope_tree_wf(p),
        s < p.len(),
    ensures
        is_anc(p, 0, s),
    decreases s,
{
    if s > 0 {
        assert(p[s as int] matches Some(q) && (q as int) < s);
        match p[s as int] {
            Some(q) => lemma_root_anc(p, q),
            None => {},
        }
    }
}


/// An ancestor never comes after the scope it is an ancestor of.
pub proof fn lemma_anc_le(p: Seq<Option<usize>>, a: usize, s: usize)
    requires
        is_anc(p, a, s),
    ensures
        a <= s,
    decreases s,
{
    if s != a {
        match p[s as int] {
            Some(q) => lemma_anc_le(p, a, q),
            None => {},
        }
    }
}

/// The ancestor relation is antisymmetric: two scopes that are each an
/// ancestor of the other are the same scope.
pub proof fn law_anc_antisymmetric(p: Seq<Option<usize>>, a: usize, b: usize)
    requires
        is_anc(p, a, b),
        is_anc(p, b, a),
    ensures
        a == b,
{
    lemma_anc_le(p, a, b);
    lemma_anc_le(p, b, a);
}

/// `r` is the deepest common ancestor of `scopes`: an ancestor of each of
/// them, below every other common ancestor.
pub open spec fn is_lca(parents: Seq<Option<usize>>, r: usize, scopes: Seq<usize>) -> bool {
    &&& common_anc(parents, r, scopes)
    &&& forall|c: usize| c < parents.len() && common_anc(parents, c, scopes) ==> is_anc(parents, c, r)
}

proof fn lemma_common_anc_same_elems(p: Seq<Option<usize>>, c: usize, a: Seq<usize>, b: Seq<usize>)
    requires
        forall|x: usize| a.contains(x) ==> b.contains(x),
        common_anc(p, c, b),
    ensures
        common_anc(p, c, a),
{
    assert forall|i: int| 0 <= i < a.len() implies is_anc(p, c, #[trigger] a[i]) by {
        assert(a.contains(a[i]));
        let j = choose|j: int| 0 <= j < b.len() && b[j] == a[i];
        assert(is_anc(p, c, b[j]));
    }
}

/// The lowest common ancestor does not depend on the order of the scopes
/// (nor on repeats): two lists with the same scopes have the same one.
pub proof fn law_lca_independent_of_order(
    p: Seq<Option<usize>>,
    a: Seq<usize>,
    b: Seq<usize>,
    ra: usize,
    rb: usize,
)
    requires
        forall|x: usize| a.contains(x) <==> b.contains(x),
        ra < p.len(),
        rb < p.len(),
        is_lca(p, ra, a),
        is_lca(p, rb, b),
    ensures
        ra == rb,
{
    lemma_common_anc_same_elems(p, ra, b, a);
    lemma_common_anc_same_elems(p, rb, a, b);
    assert(is_anc(p, ra, rb));
    assert(is_anc(p, rb, ra));
    law_anc_antisymmetric(p, ra, rb);
}

/// What is bound in a scope is what a lookup from that scope finds: after
/// binding `t` to `v` in scope `s`, a lookup of `t` from `s` gives `v`.
pub proof fn law_lookup_after_bind(
    parents: Seq<Option<usize>>,
    defs: Seq<Map<Tree, u32>>,
    t: Tree,
    s: usize,
    v: u32,
)
    requires
        s < defs.len(),
    ensures
        lookup(parents, defs.update(s as int, defs[s as int].insert(t, v)), t, s) == Some(v),
{
}

/// A binding in scope `a` is seen only from `a` and its descendants: from
/// any scope `b` of which `a` is not an ancestor (a sibling, or an
/// ancestor of `a`), every lookup gives what it gave before.
pub proof fn law_bind_invisible_outside_subtree(
    parents: Seq<Option<usize>>,
    defs: Seq<Map<Tree, u32>>,
    a: usize,
    t: Tree,
    v: u32,
    u: Tree,
    b: usize,
)
    requires
        a < defs.len(),
        !is_anc(parents, a, b),
    ensures
        lookup(parents, defs.update(a as int, defs[a as int].insert(t, v)), u, b) == lookup(
            parents,
            defs,
            u,
            b,
        ),
    decreases b,
{
    let nd = defs.update(a as int, defs[a as int].insert(t, v));
    assert(b != a);
    if b < defs.len() {
        assert(nd[b as int] == defs[b as int]);
    }
    if !(b < defs.len() && defs[b as int].contains_key(u)) && b < parents.len() {
        match parents[b as int] {
            Some(p) => {
                if p < b {
                    law_bind_invisible_outside_subtree(parents, defs, a, t, v, u, p);
                }
            },
            None => {},
        }
    }
}

/// Binding `t` changes no lookup of another form, from any scope.
pub proof fn law_bind_other_form_unchanged(
    parents: Seq<Option<usize>>,
    defs: Seq<Map<Tree, u32>>,
    a: usize,
    t: Tree,
    v: u32,
    u: Tree,
    b: usize,
)
    requires
        a < defs.len(),
        u != t,
    ensures
        lookup(parents, defs.update(a as int, defs[a as int].insert(t, v)), u, b) == lookup(
            parents,
            defs,
            u,
            b,
        ),
    decreases b,
{
    let nd = defs.update(a as int, defs[a as int].insert(t, v));
    if b < defs.len() {
        assert(nd[b as int].contains_key(u) == defs[b as int].contains_key(u));
        if defs[b as int].contains_key(u) {
            assert(nd[b as int][u] == defs[b as int][u]);
        }
    }
    if !(b < defs.len() && defs[b as int].contains_key(u)) && b < parents.len() {
        match parents[b as int] {
            Some(p) => {
                if p < b {
                    law_bind_other_form_unchanged(parents, defs, a, t, v, u, p);
                }
            },
            None => {},
        }
    }
}

/// A new, empty child scope sees exactly what its parent sees, and adding
/// it changes no lookup from the scopes that were there before.
pub proof fn law_new_scope_sees_parent(
    parents: Seq<Option<usize>>,
    defs: Seq<Map<Tree, u32>>,
    parent: usize,
    t: Tree,
    s: usize,
)
    requires
        scope_tree_wf(parents),
        defs.len() == parents.len(),
        parent < parents.len(),
        s < parents.len(),
        parents.len() <= usize::MAX,
    ensures
        lookup(
            parents.push(Some(parent)),
            defs.push(Map::<Tree, u32>::empty()),
            t,
            parents.len() as usize,
        ) == lookup(parents, defs, t, parent),
        lookup(parents.push(Some(parent)), defs.push(Map::<Tree, u32>::empty()), t, s) == lookup(
            parents,
            defs,
            t,
            s,
        ),
{
    lemma_new_scope_keeps(parents, defs, parent, t, s);
    lemma_new_scope_keeps(parents, defs, parent, t, parent);
    let np = parents.push(Some(parent));
    let nd = defs.push(Map::<Tree, u32>::empty());
    let n = parents.len() as usize;
    assert(np[n as int] == Some(parent));
    assert(!nd[n as int].contains_key(t));
}

proof fn lemma_new_scope_keeps(
    parents: Seq<Option<usize>>,
    defs: Seq<Map<Tree, u32>>,
    parent: usize,
    t: Tree,
    s: usize,
)
    requires
        scope_tree_wf(parents),
        defs.len() == parents.len(),
        s < parents.len(),
    ensures
        lookup(parents.push(Some(parent)), defs.push(Map::<Tree, u32>::empty()), t, s) == lookup(
            parents,
            defs,
            t,
            s,
        ),
    decreases s,
{
    let np = parents.push(Some(parent));
    let nd = defs.push(Map::<Tree, u32>::empty());
    assert(np[s as int] == parents[s as int]);
    assert(nd[s as int] == defs[s as int]);
    lemma_anc_unfold(parents, s);
    match parents[s as int] {
        Some(p) => {
            lemma_new_scope_keeps(parents, defs, parent, t, p);
        },
        None => {},
    }
}

impl SymTable {
    /// A symbol that `find` returns from `scope` was interned in `scope`
    /// or one of its ancestors, for the very form looked up: the visibility
    /// check that `find_or_intern` makes after `find` always passes.
    pub proof fn law_found_symbol_is_visible(&self, t: Tree, scope: ScopeId)
        requires
            self.wf(),
            scope < self.num_scopes(),
        ensures
            lookup(self@.parents, self@.defs, t, scope) matches Some(id) ==> id < self@.next
                && is_anc(self@.parents, self@.homes[id as int], scope) && self.sym_keys()[id as int]
                == t,
    {
        self.lemma_lookup_home(t, scope);
    }
}

} // verus!
