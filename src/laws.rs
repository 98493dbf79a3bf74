//! What holds of every resolution: direct bindings are never lost or overridden,
//! the result depends on the source alone, the order of modules within a pass
//! does not matter, and the number of passes is bounded.
use vstd::prelude::*;
use crate::syntax::{MFileId, Name};
use crate::module_tree::ModuleSource;
use crate::db::{Database, DefId, DefKind};
use crate::module_tree::ModuleTree;
use crate::nameres::{
    Binding, ImportModel, Resolution, all_distinct, apply_imports, bind_all_glob, bind_children,
    bind_decls, bind_direct, bind_new, distinct, finalize, has_name, import_name, index_of,
    iterate, lookup, mark_imports, passes_needed, resolve_plain, resolved, seed, start_of, step,
    source_decls, source_imports, unit_decls, unit_imports, walk,
};

verus! {

/// Every binding of `a` that is direct stands at the same place in `b`.
pub open spec fn keeps_direct(a: Seq<Binding>, b: Seq<Binding>) -> bool {
    &&& a.len() <= b.len()
    &&& forall|i: int| 0 <= i < a.len() && !(#[trigger] a[i]).glob ==> b[i] == a[i]
}

/// No binding is a glob binding.
pub open spec fn all_direct(bs: Seq<Binding>) -> bool {
    forall|i: int| 0 <= i < bs.len() ==> !(#[trigger] bs[i]).glob
}

proof fn lemma_index_of(bs: Seq<Binding>, n: Name)
    requires
        has_name(bs, n),
    ensures
        0 <= index_of(bs, n) < bs.len(),
        bs[index_of(bs, n)].name == n,
{
}

proof fn lemma_bind_direct(bs: Seq<Binding>, n: Name, r: Resolution)
    ensures
        keeps_direct(bs, bind_direct(bs, n, r)),
        distinct(bs) ==> distinct(bind_direct(bs, n, r)),
        all_direct(bs) ==> all_direct(bind_direct(bs, n, r)),
{
    if has_name(bs, n) {
        lemma_index_of(bs, n);
    }
    let out = bind_direct(bs, n, r);
    if distinct(bs) {
        assert forall|i: int, j: int| 0 <= i < j < out.len() implies
            (#[trigger] out[i]).name != (#[trigger] out[j]).name by {
            if !has_name(bs, n) && j == bs.len() {
                assert(bs[i].name != n);
            } else if has_name(bs, n) && (i == index_of(bs, n) || j == index_of(bs, n)) {
                assert(bs[i].name != bs[j].name);
            }
        }
    }
}

proof fn lemma_bind_new(bs: Seq<Binding>, b: Binding)
    ensures
        keeps_direct(bs, bind_new(bs, b)),
        distinct(bs) ==> distinct(bind_new(bs, b)),
{
    let out = bind_new(bs, b);
    if distinct(bs) {
        assert forall|i: int, j: int| 0 <= i < j < out.len() implies
            (#[trigger] out[i]).name != (#[trigger] out[j]).name by {
            if !has_name(bs, b.name) && j == bs.len() {
                assert(bs[i].name != b.name);
            }
        }
    }
}

proof fn lemma_keeps_trans(a: Seq<Binding>, b: Seq<Binding>, c: Seq<Binding>)
    requires
        keeps_direct(a, b),
        keeps_direct(b, c),
    ensures
        keeps_direct(a, c),
{
    assert forall|i: int| 0 <= i < a.len() && !(#[trigger] a[i]).glob implies c[i] == a[i] by {
        assert(b[i] == a[i]);
    }
}

proof fn lemma_bind_all_glob(bs: Seq<Binding>, src: Seq<Binding>)
    ensures
        keeps_direct(bs, bind_all_glob(bs, src)),
        distinct(bs) ==> distinct(bind_all_glob(bs, src)),
    decreases src.len(),
{
    if src.len() > 0 {
        let prev = bind_all_glob(bs, src.drop_last());
        lemma_bind_all_glob(bs, src.drop_last());
        lemma_bind_new(prev, Binding { name: src.last().name, res: src.last().res, glob: true });
        lemma_keeps_trans(bs, prev, bind_all_glob(bs, src));
    }
}

proof fn lemma_apply_imports(state: Seq<Seq<Binding>>, tree: ModuleTree, m: int, bs: Seq<Binding>, imps: Seq<ImportModel>)
    ensures
        keeps_direct(bs, apply_imports(state, tree, m, bs, imps)),
        distinct(bs) ==> distinct(apply_imports(state, tree, m, bs, imps)),
    decreases imps.len(),
{
    if imps.len() > 0 {
        let prev = apply_imports(state, tree, m, bs, imps.drop_last());
        lemma_apply_imports(state, tree, m, bs, imps.drop_last());
        let i = imps.last();
        let cur = state.update(m, prev);
        if i.glob {
            match walk(cur, start_of(tree, m, i.root), i.segments) {
                Some(t) => lemma_bind_all_glob(prev, cur[t as int]),
                None => {},
            }
        } else {
            match (resolve_plain(cur, tree, m, i), import_name(i)) {
                (Some(r), Some(n)) => lemma_bind_direct(prev, n, r),
                _ => {},
            }
        }
        lemma_keeps_trans(bs, prev, apply_imports(state, tree, m, bs, imps));
    }
}

proof fn lemma_mark_imports(bs: Seq<Binding>, imps: Seq<ImportModel>)
    ensures
        keeps_direct(bs, mark_imports(bs, imps)),
        distinct(bs) ==> distinct(mark_imports(bs, imps)),
    decreases imps.len(),
{
    if imps.len() > 0 {
        let prev = mark_imports(bs, imps.drop_last());
        lemma_mark_imports(bs, imps.drop_last());
        let i = imps.last();
        if !i.glob && import_name(i) is Some {
            lemma_bind_direct(prev, import_name(i)->Some_0, Resolution::Unresolved);
        }
        lemma_keeps_trans(bs, prev, mark_imports(bs, imps));
    }
}

/// Every module keeps its direct bindings from `a` to `b`.
pub open spec fn state_keeps(a: Seq<Seq<Binding>>, b: Seq<Seq<Binding>>) -> bool {
    &&& a.len() == b.len()
    &&& forall|m: int| 0 <= m < a.len() ==> keeps_direct(#[trigger] a[m], b[m])
}

proof fn lemma_iterate(state: Seq<Seq<Binding>>, tree: ModuleTree, imports: Seq<Seq<ImportModel>>, fuel: nat)
    ensures
        state_keeps(state, iterate(state, tree, imports, fuel).0),
        all_distinct(state) ==> all_distinct(iterate(state, tree, imports, fuel).0),
        iterate(state, tree, imports, fuel).1 <= fuel,
        iterate(state, tree, imports, fuel).1 < fuel ==> {
            let s = iterate(state, tree, imports, fuel).0;
            step(s, tree, imports) == s
        },
    decreases fuel,
{
    let out = iterate(state, tree, imports, fuel).0;
    if fuel == 0 {
        assert(state_keeps(state, out));
    } else {
        let next = step(state, tree, imports);
        assert forall|m: int| 0 <= m < state.len() implies keeps_direct(#[trigger] state[m], next[m])
            && (distinct(state[m]) ==> distinct(next[m])) by {
            lemma_apply_imports(state, tree, m, state[m], imports[m]);
        }
        if next == state {
            assert(state_keeps(state, out));
        } else {
            lemma_iterate(next, tree, imports, (fuel - 1) as nat);
            assert forall|m: int| 0 <= m < state.len() implies keeps_direct(#[trigger] state[m], out[m]) by {
                lemma_keeps_trans(state[m], next[m], out[m]);
            }
        }
    }
}

proof fn lemma_finalize(state: Seq<Seq<Binding>>, imports: Seq<Seq<ImportModel>>)
    ensures
        state_keeps(state, finalize(state, imports)),
        all_distinct(state) ==> all_distinct(finalize(state, imports)),
{
    let out = finalize(state, imports);
    assert forall|m: int| 0 <= m < state.len() implies keeps_direct(#[trigger] state[m], out[m])
        && (distinct(state[m]) ==> distinct(out[m])) by {
        lemma_mark_imports(state[m], imports[m]);
    }
}

proof fn lemma_bind_children(bs: Seq<Binding>, cs: Seq<(Name, usize)>)
    ensures
        distinct(bs) ==> distinct(bind_children(bs, cs)),
        all_direct(bs) ==> all_direct(bind_children(bs, cs)),
    decreases cs.len(),
{
    if cs.len() > 0 {
        lemma_bind_children(bs, cs.drop_last());
        lemma_bind_direct(bind_children(bs, cs.drop_last()), cs.last().0, Resolution::Module(cs.last().1));
    }
}

proof fn lemma_bind_decls(bs: Seq<Binding>, ds: Seq<(Name, DefId)>)
    ensures
        distinct(bs) ==> distinct(bind_decls(bs, ds)),
        all_direct(bs) ==> all_direct(bind_decls(bs, ds)),
    decreases ds.len(),
{
    if ds.len() > 0 {
        lemma_bind_decls(bs, ds.drop_last());
        if ds.last().1.kind != DefKind::Module {
            lemma_bind_direct(bind_decls(bs, ds.drop_last()), ds.last().0, Resolution::Def(ds.last().1));
        }
    }
}

proof fn lemma_seed(tree: ModuleTree, decls: Seq<Seq<(Name, DefId)>>)
    ensures
        all_distinct(seed(tree, decls)),
        forall|m: int| 0 <= m < tree.mods@.len() ==> all_direct(#[trigger] seed(tree, decls)[m]),
{
    assert forall|m: int| 0 <= m < tree.mods@.len() implies distinct(#[trigger] seed(tree, decls)[m])
        && all_direct(seed(tree, decls)[m]) by {
        let e = Seq::<Binding>::empty();
        lemma_bind_children(e, tree.mods@[m].children@);
        lemma_bind_decls(bind_children(e, tree.mods@[m].children@), decls[m]);
    }
}

/// Direct bindings only grow: every binding that the seed makes (a module's
/// children and own declarations) is in the final map, unchanged, at the same
/// place.
pub proof fn lemma_seed_bindings_kept(tree: ModuleTree, decls: Seq<Seq<(Name, DefId)>>, imports: Seq<Seq<ImportModel>>, m: int, i: int)
    requires
        0 <= m < tree.mods@.len(),
        0 <= i < seed(tree, decls)[m].len(),
    ensures
        !seed(tree, decls)[m][i].glob,
        i < resolved(tree, decls, imports)[m].len(),
        resolved(tree, decls, imports)[m][i] == seed(tree, decls)[m][i],
{
    let s0 = seed(tree, decls);
    let fuel = (tree.mods@.len() + 1) as nat;
    let s = iterate(s0, tree, imports, fuel).0;
    lemma_seed(tree, decls);
    assert(!s0[m][i].glob);
    lemma_iterate(s0, tree, imports, fuel);
    lemma_finalize(s, imports);
    assert(keeps_direct(s0[m], s[m]));
    assert(keeps_direct(s[m], resolved(tree, decls, imports)[m]));
    lemma_keeps_trans(s0[m], s[m], resolved(tree, decls, imports)[m]);
}

/// The final map binds no name twice in a module.
pub proof fn lemma_resolved_distinct(tree: ModuleTree, decls: Seq<Seq<(Name, DefId)>>, imports: Seq<Seq<ImportModel>>)
    ensures
        all_distinct(resolved(tree, decls, imports)),
        resolved(tree, decls, imports).len() == tree.mods@.len(),
{
    let s0 = seed(tree, decls);
    let fuel = (tree.mods@.len() + 1) as nat;
    lemma_seed(tree, decls);
    lemma_iterate(s0, tree, imports, fuel);
    lemma_finalize(iterate(s0, tree, imports, fuel).0, imports);
}

/// A glob never overrides a direct binding: when module `m` binds `n` directly
/// (as a child module or a declaration of its own), the final binding of `n` in
/// `m` is that one, whatever globs offer `n` too.
pub proof fn lemma_glob_never_overrides_direct(tree: ModuleTree, decls: Seq<Seq<(Name, DefId)>>, imports: Seq<Seq<ImportModel>>, m: int, n: Name)
    requires
        0 <= m < tree.mods@.len(),
        has_name(seed(tree, decls)[m], n),
    ensures
        lookup(resolved(tree, decls, imports)[m], n) == lookup(seed(tree, decls)[m], n),
        !lookup(resolved(tree, decls, imports)[m], n)->Some_0.glob,
{
    lemma_resolved_distinct(tree, decls, imports);
    let s0 = seed(tree, decls)[m];
    let fin = resolved(tree, decls, imports)[m];
    lemma_index_of(s0, n);
    let i = index_of(s0, n);
    lemma_seed_bindings_kept(tree, decls, imports, m, i);
    assert(fin[i].name == n);
    assert(has_name(fin, n));
    lemma_index_of(fin, n);
    let j = index_of(fin, n);
    assert(distinct(fin));
    assert(j == i) by {
        if j != i {
            if j < i {
                assert(fin[j].name != fin[i].name);
            } else {
                assert(fin[i].name != fin[j].name);
            }
        }
    }
}

/// Convergence is bounded: resolving a unit of K modules makes at most K + 1
/// passes, and when it makes fewer, the last state is a fixed point of a pass.
pub proof fn lemma_passes_bounded(tree: ModuleTree, decls: Seq<Seq<(Name, DefId)>>, imports: Seq<Seq<ImportModel>>)
    ensures
        passes_needed(tree, decls, imports) <= tree.mods@.len() + 1,
        passes_needed(tree, decls, imports) < tree.mods@.len() + 1 ==> {
            let s = iterate(seed(tree, decls), tree, imports, (tree.mods@.len() + 1) as nat).0;
            step(s, tree, imports) == s
        },
{
    lemma_iterate(seed(tree, decls), tree, imports, (tree.mods@.len() + 1) as nat);
}

/// Resolution depends on the sources alone: two stores that hold the same trees
/// give the same item map, whatever their revisions; so running it again with
/// no edit in between gives the same result.
pub proof fn lemma_item_map_idempotent(db1: &Database, db2: &Database, tree: ModuleTree)
    requires
        forall|f: MFileId| #[trigger] db1.tree_of(f) == db2.tree_of(f),
    ensures
        resolved(tree, unit_decls(db1, tree), unit_imports(db1, tree))
            == resolved(tree, unit_decls(db2, tree), unit_imports(db2, tree)),
        passes_needed(tree, unit_decls(db1, tree), unit_imports(db1, tree))
            == passes_needed(tree, unit_decls(db2, tree), unit_imports(db2, tree)),
{
    assert(unit_decls(db1, tree) =~= unit_decls(db2, tree)) by {
        assert forall|m: int| 0 <= m < tree.mods@.len() implies
            #[trigger] unit_decls(db1, tree)[m] == unit_decls(db2, tree)[m] by {
            assert(db1.tree_of(tree.mods@[m].source.file_id) == db2.tree_of(tree.mods@[m].source.file_id));
        }
    }
    assert(unit_imports(db1, tree) =~= unit_imports(db2, tree)) by {
        assert forall|m: int| 0 <= m < tree.mods@.len() implies
            #[trigger] unit_imports(db1, tree)[m] == unit_imports(db2, tree)[m] by {
            assert(db1.tree_of(tree.mods@[m].source.file_id) == db2.tree_of(tree.mods@[m].source.file_id));
        }
    }
}

/// One pass that visits the modules in the given order, each module reading
/// only the state from before the pass.
pub open spec fn step_in_order(state: Seq<Seq<Binding>>, tree: ModuleTree, imports: Seq<Seq<ImportModel>>, order: Seq<int>) -> Seq<Seq<Binding>>
    decreases order.len(),
{
    if order.len() == 0 {
        state
    } else {
        let m = order.last();
        step_in_order(state, tree, imports, order.drop_last()).update(m, apply_imports(state, tree, m, state[m], imports[m]))
    }
}

proof fn lemma_step_in_order(state: Seq<Seq<Binding>>, tree: ModuleTree, imports: Seq<Seq<ImportModel>>, order: Seq<int>, m: int)
    requires
        0 <= m < state.len(),
        forall|k: int| 0 <= k < order.len() ==> 0 <= #[trigger] order[k] < state.len(),
    ensures
        step_in_order(state, tree, imports, order).len() == state.len(),
        step_in_order(state, tree, imports, order)[m] == if order.contains(m) {
            apply_imports(state, tree, m, state[m], imports[m])
        } else {
            state[m]
        },
    decreases order.len(),
{
    if order.len() > 0 {
        let prev = order.drop_last();
        lemma_step_in_order(state, tree, imports, prev, m);
        if order.contains(m) && order.last() != m {
            let k = choose|k: int| 0 <= k < order.len() && order[k] == m;
            assert(prev[k] == m);
        }
        if prev.contains(m) {
            let k = choose|k: int| 0 <= k < prev.len() && prev[k] == m;
            assert(order[k] == m);
        }
        if order.last() == m {
            assert(order[order.len() - 1] == m);
        }
    }
}

/// The order in which a pass visits the modules does not matter: any order
/// that visits every module gives the same state as the pass in index order,
/// so every pass, and the final map, are the same.
pub proof fn lemma_pass_order_independent(state: Seq<Seq<Binding>>, tree: ModuleTree, imports: Seq<Seq<ImportModel>>, order: Seq<int>)
    requires
        forall|k: int| 0 <= k < order.len() ==> 0 <= #[trigger] order[k] < state.len(),
        forall|m: int| 0 <= m < state.len() ==> order.contains(m),
    ensures
        step_in_order(state, tree, imports, order) == step(state, tree, imports),
{
    let a = step_in_order(state, tree, imports, order);
    assert forall|m: int| 0 <= m < state.len() implies #[trigger] a[m] == step(state, tree, imports)[m] by {
        lemma_step_in_order(state, tree, imports, order, m);
    }
    lemma_step_in_order_len(state, tree, imports, order);
    assert(a =~= step(state, tree, imports));
}

proof fn lemma_step_in_order_len(state: Seq<Seq<Binding>>, tree: ModuleTree, imports: Seq<Seq<ImportModel>>, order: Seq<int>)
    requires
        forall|k: int| 0 <= k < order.len() ==> 0 <= #[trigger] order[k] < state.len(),
    ensures
        step_in_order(state, tree, imports, order).len() == state.len(),
    decreases order.len(),
{
    if order.len() > 0 {
        lemma_step_in_order_len(state, tree, imports, order.drop_last());
    }
}

/// Every entry of `order` is a module, and every module is in `order`.
pub open spec fn visits_all(order: Seq<int>, k: int) -> bool {
    &&& forall|j: int| 0 <= j < order.len() ==> 0 <= #[trigger] order[j] < k
    &&& forall|m: int| 0 <= m < k ==> order.contains(m)
}

/// The passes of `iterate`, where pass `p` visits the modules in `orders[p]`.
pub open spec fn iterate_in_orders(state: Seq<Seq<Binding>>, tree: ModuleTree, imports: Seq<Seq<ImportModel>>, orders: Seq<Seq<int>>, fuel: nat) -> (Seq<Seq<Binding>>, nat)
    decreases fuel,
{
    if fuel == 0 || orders.len() == 0 {
        (state, 0)
    } else {
        let next = step_in_order(state, tree, imports, orders[0]);
        if next == state {
            (state, 1)
        } else {
            let r = iterate_in_orders(next, tree, imports, orders.skip(1), (fuel - 1) as nat);
            (r.0, r.1 + 1)
        }
    }
}

/// The final map does not depend on the order in which each pass visits the
/// modules: with any complete order for every pass, the passes reach the same
/// state in the same number of passes, so the item map is the same.
pub proof fn lemma_resolution_order_independent(tree: ModuleTree, decls: Seq<Seq<(Name, DefId)>>, imports: Seq<Seq<ImportModel>>, orders: Seq<Seq<int>>)
    requires
        orders.len() >= tree.mods@.len() + 1,
        forall|p: int| 0 <= p < orders.len() ==> visits_all(#[trigger] orders[p], tree.mods@.len() as int),
    ensures
        iterate_in_orders(seed(tree, decls), tree, imports, orders, (tree.mods@.len() + 1) as nat)
            == iterate(seed(tree, decls), tree, imports, (tree.mods@.len() + 1) as nat),
        finalize(iterate_in_orders(seed(tree, decls), tree, imports, orders, (tree.mods@.len() + 1) as nat).0, imports)
            == resolved(tree, decls, imports),
{
    lemma_iterate_in_orders(seed(tree, decls), tree, imports, orders, (tree.mods@.len() + 1) as nat);
}

proof fn lemma_iterate_in_orders(state: Seq<Seq<Binding>>, tree: ModuleTree, imports: Seq<Seq<ImportModel>>, orders: Seq<Seq<int>>, fuel: nat)
    requires
        orders.len() >= fuel,
        forall|p: int| 0 <= p < orders.len() ==> visits_all(#[trigger] orders[p], state.len() as int),
    ensures
        iterate_in_orders(state, tree, imports, orders, fuel) == iterate(state, tree, imports, fuel),
    decreases fuel,
{
    if fuel > 0 {
        assert(visits_all(orders[0], state.len() as int));
        lemma_pass_order_independent(state, tree, imports, orders[0]);
        let next = step(state, tree, imports);
        if next != state {
            assert forall|p: int| 0 <= p < orders.skip(1).len() implies
                visits_all(#[trigger] orders.skip(1)[p], next.len() as int) by {
                assert(orders.skip(1)[p] == orders[p + 1]);
            }
            lemma_iterate_in_orders(next, tree, imports, orders.skip(1), (fuel - 1) as nat);
        }
    }
}

proof fn lemma_iterate_keeps_importless(state: Seq<Seq<Binding>>, tree: ModuleTree, imports: Seq<Seq<ImportModel>>, fuel: nat, m: int)
    requires
        0 <= m < state.len(),
        m < imports.len(),
        imports[m].len() == 0,
    ensures
        iterate(state, tree, imports, fuel).0.len() == state.len(),
        iterate(state, tree, imports, fuel).0[m] == state[m],
    decreases fuel,
{
    if fuel > 0 {
        let next = step(state, tree, imports);
        assert(next[m] == state[m]);
        if next != state {
            lemma_iterate_keeps_importless(next, tree, imports, (fuel - 1) as nat, m);
        }
    }
}

/// A module whose source has no declarations, such as a macro invocation with
/// no expansion, and which has no child modules, gets an entry with no
/// bindings: no error, and nothing from elsewhere.
pub proof fn lemma_empty_module_empty_entry(db: &Database, tree: ModuleTree, m: int)
    requires
        0 <= m < tree.mods@.len(),
        db.tree_of(tree.mods@[m].source.file_id).len() == 0,
        tree.mods@[m].children@.len() == 0,
    ensures
        resolved(tree, unit_decls(db, tree), unit_imports(db, tree)).len() == tree.mods@.len(),
        resolved(tree, unit_decls(db, tree), unit_imports(db, tree))[m].len() == 0,
{
    let decls = unit_decls(db, tree);
    let imports = unit_imports(db, tree);
    let src: ModuleSource = tree.mods@[m].source;
    assert(source_decls(db, src).len() == 0);
    assert(source_imports(db, src).len() == 0);
    assert(decls[m].len() == 0);
    assert(imports[m].len() == 0);
    let s0 = seed(tree, decls);
    assert(s0[m].len() == 0);
    let fuel = (tree.mods@.len() + 1) as nat;
    lemma_iterate_keeps_importless(s0, tree, imports, fuel, m);
    lemma_resolved_distinct(tree, decls, imports);
}

} // verus!
