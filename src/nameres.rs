//! Name resolution: per-module raw declarations, and the fixed-point resolver
//! that turns them into a unit-wide item map.
use std::sync::Arc;
use vstd::prelude::*;
use crate::syntax::{ImportDecl, Item, ItemNode, MFileId, Name, PathRoot, copy_names};
use crate::db::{Canceled, Database};
use crate::db::{DefId, DefKind, SourceItemId, file_items};
use crate::module_tree::{ModuleSource, ModuleTree};

verus! {

/// What a name is bound to.
#[derive(Clone, Copy, Debug, PartialEq, Eq, Structural)]
pub enum Resolution {
    Def(DefId),
    /// A module of the unit, by index.
    Module(usize),
    /// A plain import whose path did not resolve.
    Unresolved,
}

/// One entry of a module's name table. A glob entry came from a glob import and
/// yields to any direct binding of the same name.
#[derive(Clone, Copy, Debug, PartialEq, Eq, Structural)]
pub struct Binding {
    pub name: Name,
    pub res: Resolution,
    pub glob: bool,
}

/// An import declaration as a value.
pub struct ImportModel {
    pub root: PathRoot,
    pub segments: Seq<Name>,
    pub glob: bool,
    pub alias: Option<Name>,
}

impl View for ImportDecl {
    type V = ImportModel;

    open spec fn view(&self) -> ImportModel {
        ImportModel { root: self.root, segments: self.segments@, glob: self.glob, alias: self.alias }
    }
}

/// Some binding of `bs` has the name `n`.
pub open spec fn has_name(bs: Seq<Binding>, n: Name) -> bool {
    exists|i: int| 0 <= i < bs.len() && (#[trigger] bs[i]).name == n
}

/// The position of the binding of `n`, when `has_name(bs, n)`.
pub open spec fn index_of(bs: Seq<Binding>, n: Name) -> int {
    choose|i: int| 0 <= i < bs.len() && (#[trigger] bs[i]).name == n
}

/// No name is bound twice.
pub open spec fn distinct(bs: Seq<Binding>) -> bool {
    forall|i: int, j: int| 0 <= i < j < bs.len() ==> (#[trigger] bs[i]).name != (#[trigger] bs[j]).name
}

/// The binding of `n`, if any.
pub open spec fn lookup(bs: Seq<Binding>, n: Name) -> Option<Binding> {
    if has_name(bs, n) {
        Some(bs[index_of(bs, n)])
    } else {
        None
    }
}

/// Binds `n` directly: a new name is added, a glob binding is replaced, and a
/// direct binding already there is kept (the first one seen wins).
pub open spec fn bind_direct(bs: Seq<Binding>, n: Name, r: Resolution) -> Seq<Binding> {
    if !has_name(bs, n) {
        bs.push(Binding { name: n, res: r, glob: false })
    } else if bs[index_of(bs, n)].glob {
        bs.update(index_of(bs, n), Binding { name: n, res: r, glob: false })
    } else {
        bs
    }
}

/// Adds `b` when its name is not bound yet.
pub open spec fn bind_new(bs: Seq<Binding>, b: Binding) -> Seq<Binding> {
    if !has_name(bs, b.name) {
        bs.push(b)
    } else {
        bs
    }
}

/// Binds `n` through a glob: only a name not bound yet is added.
pub open spec fn bind_glob(bs: Seq<Binding>, n: Name, r: Resolution) -> Seq<Binding> {
    bind_new(bs, Binding { name: n, res: r, glob: true })
}

/// Binds every name of `src` through a glob, in order.
pub open spec fn bind_all_glob(bs: Seq<Binding>, src: Seq<Binding>) -> Seq<Binding>
    decreases src.len(),
{
    if src.len() == 0 {
        bs
    } else {
        let prev = bind_all_glob(bs, src.drop_last());
        bind_glob(prev, src.last().name, src.last().res)
    }
}

/// The position of the binding of `n` in `bs`.
fn find_binding(bs: &Vec<Binding>, n: Name) -> (r: Option<usize>)
    requires
        distinct(bs@),
    ensures
        r is None <==> !has_name(bs@, n),
        r matches Some(i) ==> i == index_of(bs@, n) && i < bs@.len() && bs@[i as int].name == n,
{
    let mut i: usize = 0;
    while i < bs.len()
        invariant
            i <= bs@.len(),
            distinct(bs@),
            forall|j: int| 0 <= j < i ==> (#[trigger] bs@[j]).name != n,
        decreases bs@.len() - i,
    {
        if bs[i].name == n {
            assert(bs@[i as int].name == n);
            assert(has_name(bs@, n));
            let ghost k = index_of(bs@, n);
            assert(0 <= k < bs@.len() && bs@[k].name == n);
            assert(k == i) by {
                if k > i {
                    assert(bs@[i as int].name != bs@[k].name);
                }
            }
            return Some(i);
        }
        i = i + 1;
    }
    None
}

/// Binds `n` directly (see `bind_direct`); tells whether the name clashed.
fn add_direct(bs: &mut Vec<Binding>, n: Name, r: Resolution) -> (clash: bool)
    requires
        distinct(old(bs)@),
    ensures
        final(bs)@ == bind_direct(old(bs)@, n, r),
        distinct(final(bs)@),
        clash == clashes(old(bs)@, n),
{
    match find_binding(bs, n) {
        None => {
            bs.push(Binding { name: n, res: r, glob: false });
            assert forall|i: int, j: int| 0 <= i < j < bs@.len() implies
                (#[trigger] bs@[i]).name != (#[trigger] bs@[j]).name by {
                if j == bs@.len() - 1 {
                    assert(bs@[i] == old(bs)@[i]);
                }
            }
            false
        },
        Some(i) => {
            if bs[i].glob {
                bs.set(i, Binding { name: n, res: r, glob: false });
                false
            } else {
                true
            }
        },
    }
}

/// Adds `b` when its name is not bound yet (see `bind_new`).
fn add_new(bs: &mut Vec<Binding>, b: Binding)
    requires
        distinct(old(bs)@),
    ensures
        final(bs)@ == bind_new(old(bs)@, b),
        distinct(final(bs)@),
{
    if find_binding(bs, b.name).is_none() {
        bs.push(b);
        assert forall|i: int, j: int| 0 <= i < j < bs@.len() implies
            (#[trigger] bs@[i]).name != (#[trigger] bs@[j]).name by {
            if j == bs@.len() - 1 {
                assert(bs@[i] == old(bs)@[i]);
            }
        }
    }
}

/// Binds every name of `src` through a glob.
fn add_all_glob(bs: &mut Vec<Binding>, src: &Vec<Binding>)
    requires
        distinct(old(bs)@),
    ensures
        final(bs)@ == bind_all_glob(old(bs)@, src@),
        distinct(final(bs)@),
{
    let mut k: usize = 0;
    while k < src.len()
        invariant
            k <= src@.len(),
            bs@ == bind_all_glob(old(bs)@, src@.take(k as int)),
            distinct(bs@),
        decreases src@.len() - k,
    {
        assert(src@.take(k + 1).drop_last() =~= src@.take(k as int));
        add_new(bs, Binding { name: src[k].name, res: src[k].res, glob: true });
        k = k + 1;
    }
    assert(src@.take(k as int) =~= src@);
}

/// The module that an import path starts from; `super` of the root is none.
pub open spec fn start_of(tree: ModuleTree, m: int, root: PathRoot) -> Option<usize> {
    match root {
        PathRoot::Crate => Some(0),
        PathRoot::SelfMod => Some(m as usize),
        PathRoot::Super => tree.parent_of(m),
    }
}

/// The module that `n` names in `bs`, if it names one.
pub open spec fn module_named(bs: Seq<Binding>, n: Name) -> Option<usize> {
    match lookup(bs, n) {
        Some(b) => match b.res {
            Resolution::Module(c) => Some(c),
            _ => None,
        },
        None => None,
    }
}

/// The module reached from `start` by following each segment as a module name.
pub open spec fn walk(state: Seq<Seq<Binding>>, start: Option<usize>, segs: Seq<Name>) -> Option<usize>
    decreases segs.len(),
{
    if segs.len() == 0 {
        match start {
            Some(c) => if c < state.len() { Some(c) } else { None },
            None => None,
        }
    } else {
        match walk(state, start, segs.drop_last()) {
            Some(c) => match module_named(state[c as int], segs.last()) {
                Some(d) => if d < state.len() { Some(d) } else { None },
                None => None,
            },
            None => None,
        }
    }
}

/// The name a plain import binds: its alias, else its last segment.
pub open spec fn import_name(i: ImportModel) -> Option<Name> {
    match i.alias {
        Some(a) => Some(a),
        None => if i.segments.len() > 0 { Some(i.segments.last()) } else { None },
    }
}

/// What a plain import of module `m` resolves to in `state`.
pub open spec fn resolve_plain(state: Seq<Seq<Binding>>, tree: ModuleTree, m: int, i: ImportModel) -> Option<Resolution> {
    if i.segments.len() == 0 {
        None
    } else {
        match walk(state, start_of(tree, m, i.root), i.segments.drop_last()) {
            Some(c) => match lookup(state[c as int], i.segments.last()) {
                Some(b) => if b.res is Unresolved { None } else { Some(b.res) },
                None => None,
            },
            None => None,
        }
    }
}

/// The effect of one import of module `m` on its current bindings `bs`. Paths
/// read `bs` for module `m` itself and `state` for the other modules.
pub open spec fn apply_import(state: Seq<Seq<Binding>>, tree: ModuleTree, m: int, bs: Seq<Binding>, i: ImportModel) -> Seq<Binding> {
    let cur = state.update(m, bs);
    if i.glob {
        match walk(cur, start_of(tree, m, i.root), i.segments) {
            Some(t) => bind_all_glob(bs, cur[t as int]),
            None => bs,
        }
    } else {
        match (resolve_plain(cur, tree, m, i), import_name(i)) {
            (Some(r), Some(n)) => bind_direct(bs, n, r),
            _ => bs,
        }
    }
}

/// The effect of all imports of module `m`, in order.
pub open spec fn apply_imports(state: Seq<Seq<Binding>>, tree: ModuleTree, m: int, bs: Seq<Binding>, imps: Seq<ImportModel>) -> Seq<Binding>
    decreases imps.len(),
{
    if imps.len() == 0 {
        bs
    } else {
        apply_import(state, tree, m, apply_imports(state, tree, m, bs, imps.drop_last()), imps.last())
    }
}

/// One pass: every module applies its imports, in order, to its own bindings,
/// reading the bindings that the other modules had before the pass.
pub open spec fn step(state: Seq<Seq<Binding>>, tree: ModuleTree, imports: Seq<Seq<ImportModel>>) -> Seq<Seq<Binding>> {
    Seq::new(state.len(), |m: int| apply_imports(state, tree, m, state[m], imports[m]))
}

/// The bindings of every module, as values.
pub open spec fn model(v: Seq<Vec<Binding>>) -> Seq<Seq<Binding>> {
    v.map_values(|b: Vec<Binding>| b@)
}

/// No module binds a name twice.
pub open spec fn all_distinct(state: Seq<Seq<Binding>>) -> bool {
    forall|m: int| 0 <= m < state.len() ==> distinct(#[trigger] state[m])
}

/// The module reached by `segs[..upto]` from `start`.
fn walk_path(state: &Vec<Vec<Binding>>, own: &Vec<Binding>, m: usize, start: Option<usize>, segs: &Vec<Name>, upto: usize) -> (r: Option<usize>)
    requires
        all_distinct(model(state@)),
        distinct(own@),
        m < state@.len(),
        upto <= segs@.len(),
    ensures
        r == walk(model(state@).update(m as int, own@), start, segs@.take(upto as int)),
{
    let ghost st = model(state@).update(m as int, own@);
    let mut cur: Option<usize> = match start {
        Some(c) => if c < state.len() { Some(c) } else { None },
        None => None,
    };
    assert(segs@.take(0) =~= Seq::<Name>::empty());
    let mut k: usize = 0;
    while k < upto
        invariant
            k <= upto <= segs@.len(),
            st == model(state@).update(m as int, own@),
            all_distinct(model(state@)),
            distinct(own@),
            m < state@.len(),
            cur == walk(st, start, segs@.take(k as int)),
        decreases upto - k,
    {
        assert(segs@.take(k + 1).drop_last() =~= segs@.take(k as int));
        assert(segs@.take(k + 1).last() == segs@[k as int]);
        cur = match cur {
            Some(c) => {
                let bs = row(state, own, m, c);
                match find_binding(bs, segs[k]) {
                    Some(j) => match bs[j].res {
                        Resolution::Module(d) => if d < state.len() { Some(d) } else { None },
                        _ => None,
                    },
                    None => None,
                }
            },
            None => None,
        };
        k = k + 1;
    }
    cur
}

/// The bindings of module `c`: `own` for module `m`, else those in `state`.
fn row<'a>(state: &'a Vec<Vec<Binding>>, own: &'a Vec<Binding>, m: usize, c: usize) -> (r: &'a Vec<Binding>)
    requires
        all_distinct(model(state@)),
        distinct(own@),
        m < state@.len(),
        c < state@.len(),
    ensures
        r@ == model(state@).update(m as int, own@)[c as int],
        distinct(r@),
{
    if c == m {
        own
    } else {
        assert(model(state@)[c as int] == state@[c as int]@);
        &state[c]
    }
}

/// The start module of an import of module `m`.
fn start_module(tree: &ModuleTree, m: usize, root: PathRoot) -> (r: Option<usize>)
    requires
        m < tree.mods@.len(),
    ensures
        r == start_of(*tree, m as int, root),
{
    match root {
        PathRoot::Crate => Some(0),
        PathRoot::SelfMod => Some(m),
        PathRoot::Super => tree.mods[m].parent,
    }
}

/// What a plain import of module `m` resolves to (see `resolve_plain`).
fn resolve_plain_exec(state: &Vec<Vec<Binding>>, own: &Vec<Binding>, tree: &ModuleTree, m: usize, imp: &ImportDecl) -> (r: Option<Resolution>)
    requires
        all_distinct(model(state@)),
        distinct(own@),
        m < state@.len(),
        m < tree.mods@.len(),
    ensures
        r == resolve_plain(model(state@).update(m as int, own@), *tree, m as int, imp@),
{
    let n = imp.segments.len();
    if n == 0 {
        return None;
    }
    let start = start_module(tree, m, imp.root);
    assert(imp@.segments.drop_last() =~= imp.segments@.take(n - 1));
    match walk_path(state, own, m, start, &imp.segments, n - 1) {
        Some(c) => {
            let bs = row(state, own, m, c);
            match find_binding(bs, imp.segments[n - 1]) {
                Some(j) => match bs[j].res {
                    Resolution::Unresolved => None,
                    r => Some(r),
                },
                None => None,
            }
        },
        None => None,
    }
}

/// The raw declarations of one module: its named functions, structs, enums and
/// submodules, and its imports, verbatim.
pub struct InputModuleItems {
    pub decls: Vec<(Name, DefId)>,
    pub imports: Vec<ImportDecl>,
}

/// The imports of every module, as values.
pub open spec fn imports_model(inputs: Seq<Arc<InputModuleItems>>) -> Seq<Seq<ImportModel>> {
    inputs.map_values(|x: Arc<InputModuleItems>| x.imports@.map_values(|i: ImportDecl| i@))
}

/// The declarations of every module.
pub open spec fn decls_model(inputs: Seq<Arc<InputModuleItems>>) -> Seq<Seq<(Name, DefId)>> {
    inputs.map_values(|x: Arc<InputModuleItems>| x.decls@)
}

/// Binds each child module by its name, in order.
pub open spec fn bind_children(bs: Seq<Binding>, cs: Seq<(Name, usize)>) -> Seq<Binding>
    decreases cs.len(),
{
    if cs.len() == 0 {
        bs
    } else {
        bind_direct(bind_children(bs, cs.drop_last()), cs.last().0, Resolution::Module(cs.last().1))
    }
}

/// Binds each declaration by its name, in order. Submodule declarations are
/// skipped: the module tree binds them, to the module they name.
pub open spec fn bind_decls(bs: Seq<Binding>, ds: Seq<(Name, DefId)>) -> Seq<Binding>
    decreases ds.len(),
{
    if ds.len() == 0 {
        bs
    } else if ds.last().1.kind == DefKind::Module {
        bind_decls(bs, ds.drop_last())
    } else {
        bind_direct(bind_decls(bs, ds.drop_last()), ds.last().0, Resolution::Def(ds.last().1))
    }
}

/// `n` is already bound directly, so a second direct binding of it clashes.
pub open spec fn clashes(bs: Seq<Binding>, n: Name) -> bool {
    has_name(bs, n) && !bs[index_of(bs, n)].glob
}

/// The names of the child modules that clash with an earlier direct binding.
pub open spec fn child_clashes(bs: Seq<Binding>, cs: Seq<(Name, usize)>) -> Seq<Name>
    decreases cs.len(),
{
    if cs.len() == 0 {
        Seq::empty()
    } else if clashes(bind_children(bs, cs.drop_last()), cs.last().0) {
        child_clashes(bs, cs.drop_last()).push(cs.last().0)
    } else {
        child_clashes(bs, cs.drop_last())
    }
}

/// The names of the declarations that clash with an earlier direct binding.
pub open spec fn decl_clashes(bs: Seq<Binding>, ds: Seq<(Name, DefId)>) -> Seq<Name>
    decreases ds.len(),
{
    if ds.len() == 0 {
        Seq::empty()
    } else if ds.last().1.kind != DefKind::Module && clashes(bind_decls(bs, ds.drop_last()), ds.last().0) {
        decl_clashes(bs, ds.drop_last()).push(ds.last().0)
    } else {
        decl_clashes(bs, ds.drop_last())
    }
}

/// Every module's ambiguous names: each direct declaration that met an earlier
/// direct binding of its name, which was kept.
pub open spec fn seed_clashes(tree: ModuleTree, decls: Seq<Seq<(Name, DefId)>>) -> Seq<Seq<Name>> {
    Seq::new(tree.mods@.len(), |m: int| child_clashes(Seq::empty(), tree.mods@[m].children@)
        + decl_clashes(bind_children(Seq::empty(), tree.mods@[m].children@), decls[m]))
}

/// The seed of the resolution: every module's child modules, then its own
/// declarations, all as direct bindings.
pub open spec fn seed(tree: ModuleTree, decls: Seq<Seq<(Name, DefId)>>) -> Seq<Seq<Binding>> {
    Seq::new(tree.mods@.len(), |m: int| bind_decls(bind_children(Seq::empty(), tree.mods@[m].children@), decls[m]))
}

/// Runs passes until one changes nothing, at most `fuel` of them. Gives the last
/// state and the number of passes made.
pub open spec fn iterate(state: Seq<Seq<Binding>>, tree: ModuleTree, imports: Seq<Seq<ImportModel>>, fuel: nat) -> (Seq<Seq<Binding>>, nat)
    decreases fuel,
{
    if fuel == 0 {
        (state, 0)
    } else {
        let next = step(state, tree, imports);
        if next == state {
            (state, 1)
        } else {
            let r = iterate(next, tree, imports, (fuel - 1) as nat);
            (r.0, r.1 + 1)
        }
    }
}

/// Records a plain import that bound nothing within the passes made, under the
/// name it would bind, unless a direct binding holds that name: a glob binding
/// there gives way to the marker, as it would have to the import.
pub open spec fn mark_import(bs: Seq<Binding>, i: ImportModel) -> Seq<Binding> {
    if !i.glob && import_name(i) is Some {
        bind_direct(bs, import_name(i)->Some_0, Resolution::Unresolved)
    } else {
        bs
    }
}

/// Marks the unresolved plain imports of a module, in order.
pub open spec fn mark_imports(bs: Seq<Binding>, imps: Seq<ImportModel>) -> Seq<Binding>
    decreases imps.len(),
{
    if imps.len() == 0 {
        bs
    } else {
        mark_import(mark_imports(bs, imps.drop_last()), imps.last())
    }
}

/// The final state with every unresolved plain import marked.
pub open spec fn finalize(state: Seq<Seq<Binding>>, imports: Seq<Seq<ImportModel>>) -> Seq<Seq<Binding>> {
    Seq::new(state.len(), |m: int| mark_imports(state[m], imports[m]))
}

/// The item map of a unit: the seed, at most one pass more than there are
/// modules, and the unresolved imports marked.
pub open spec fn resolved(tree: ModuleTree, decls: Seq<Seq<(Name, DefId)>>, imports: Seq<Seq<ImportModel>>) -> Seq<Seq<Binding>> {
    finalize(iterate(seed(tree, decls), tree, imports, (tree.mods@.len() + 1) as nat).0, imports)
}

/// The number of passes the resolution of a unit makes.
pub open spec fn passes_needed(tree: ModuleTree, decls: Seq<Seq<(Name, DefId)>>, imports: Seq<Seq<ImportModel>>) -> nat {
    iterate(seed(tree, decls), tree, imports, (tree.mods@.len() + 1) as nat).1
}

fn copy_bindings(v: &Vec<Binding>) -> (r: Vec<Binding>)
    ensures
        r@ == v@,
{
    let mut r: Vec<Binding> = Vec::new();
    let mut i: usize = 0;
    while i < v.len()
        invariant
            i <= v@.len(),
            r@ == v@.take(i as int),
        decreases v@.len() - i,
    {
        r.push(v[i]);
        i = i + 1;
        assert(r@ =~= v@.take(i as int));
    }
    assert(v@.take(i as int) =~= v@);
    r
}

/// Module `m`'s bindings after one pass of its imports.
fn apply_imports_exec(state: &Vec<Vec<Binding>>, tree: &ModuleTree, m: usize, imps: &Vec<ImportDecl>) -> (r: Vec<Binding>)
    requires
        all_distinct(model(state@)),
        m < state@.len(),
        m < tree.mods@.len(),
    ensures
        r@ == apply_imports(model(state@), *tree, m as int, state@[m as int]@, imps@.map_values(|i: ImportDecl| i@)),
        distinct(r@),
{
    let ghost st = model(state@);
    let ghost ims = imps@.map_values(|i: ImportDecl| i@);
    assert(st[m as int] == state@[m as int]@);
    let mut bs = copy_bindings(&state[m]);
    let mut k: usize = 0;
    assert(ims.take(0) =~= Seq::<ImportModel>::empty());
    while k < imps.len()
        invariant
            k <= imps@.len(),
            st == model(state@),
            ims == imps@.map_values(|i: ImportDecl| i@),
            all_distinct(st),
            m < state@.len(),
            m < tree.mods@.len(),
            bs@ == apply_imports(st, *tree, m as int, state@[m as int]@, ims.take(k as int)),
            distinct(bs@),
        decreases imps@.len() - k,
    {
        assert(ims.take(k + 1).drop_last() =~= ims.take(k as int));
        assert(ims.take(k + 1).last() == imps@[k as int]@);
        let imp = &imps[k];
        if imp.glob {
            let start = start_module(tree, m, imp.root);
            assert(imp.segments@.take(imp.segments@.len() as int) =~= imp.segments@);
            match walk_path(state, &bs, m, start, &imp.segments, imp.segments.len()) {
                Some(t) => {
                    if t == m {
                        proof { lemma_bind_all_glob_self(bs@, bs@.len() as int); }
                        assert(bs@.take(bs@.len() as int) =~= bs@);
                    } else {
                        assert(st[t as int] == state@[t as int]@);
                        add_all_glob(&mut bs, &state[t]);
                    }
                },
                None => {},
            }
        } else {
            let r = resolve_plain_exec(state, &bs, tree, m, imp);
            let name = match imp.alias {
                Some(a) => Some(a),
                None => if imp.segments.len() > 0 { Some(imp.segments[imp.segments.len() - 1]) } else { None },
            };
            match (r, name) {
                (Some(r), Some(n)) => {
                    add_direct(&mut bs, n, r);
                },
                _ => {},
            }
        }
        k = k + 1;
    }
    assert(ims.take(k as int) =~= ims);
    bs
}

/// One pass over every module (see `step`).
fn step_exec(state: &Vec<Vec<Binding>>, tree: &ModuleTree, inputs: &Vec<Arc<InputModuleItems>>) -> (r: Vec<Vec<Binding>>)
    requires
        all_distinct(model(state@)),
        state@.len() == tree.mods@.len(),
        inputs@.len() == tree.mods@.len(),
    ensures
        model(r@) == step(model(state@), *tree, imports_model(inputs@)),
        all_distinct(model(r@)),
        r@.len() == state@.len(),
{
    let ghost st = model(state@);
    let ghost target = step(st, *tree, imports_model(inputs@));
    let mut next: Vec<Vec<Binding>> = Vec::new();
    let mut m: usize = 0;
    while m < state.len()
        invariant
            m <= state@.len(),
            st == model(state@),
            all_distinct(st),
            state@.len() == tree.mods@.len(),
            inputs@.len() == tree.mods@.len(),
            target == step(st, *tree, imports_model(inputs@)),
            next@.len() == m,
            forall|j: int| 0 <= j < m ==> (#[trigger] next@[j])@ == target[j] && distinct(next@[j]@),
        decreases state@.len() - m,
    {
        let bs = apply_imports_exec(state, tree, m, &inputs[m].imports);
        assert(imports_model(inputs@)[m as int] == inputs@[m as int].imports@.map_values(|i: ImportDecl| i@));
        next.push(bs);
        m = m + 1;
    }
    assert(model(next@) =~= target);
    next
}

/// Whether two states hold the same bindings.
fn same_state(a: &Vec<Vec<Binding>>, b: &Vec<Vec<Binding>>) -> (r: bool)
    ensures
        r == (model(a@) == model(b@)),
{
    if a.len() != b.len() {
        assert(model(a@).len() != model(b@).len());
        return false;
    }
    let mut m: usize = 0;
    while m < a.len()
        invariant
            m <= a@.len() == b@.len(),
            forall|j: int| 0 <= j < m ==> (#[trigger] a@[j])@ == b@[j]@,
        decreases a@.len() - m,
    {
        if a[m].len() != b[m].len() {
            assert(model(a@)[m as int].len() != model(b@)[m as int].len());
            return false;
        }
        let mut k: usize = 0;
        while k < a[m].len()
            invariant
                m < a@.len() == b@.len(),
                k <= a@[m as int]@.len() == b@[m as int]@.len(),
                forall|i: int| 0 <= i < k ==> (#[trigger] a@[m as int]@[i]) == b@[m as int]@[i],
            decreases a@[m as int]@.len() - k,
        {
            if a[m][k] != b[m][k] {
                assert(model(a@)[m as int][k as int] != model(b@)[m as int][k as int]);
                return false;
            }
            k = k + 1;
        }
        assert(a@[m as int]@ =~= b@[m as int]@);
        m = m + 1;
    }
    assert(model(a@) =~= model(b@));
    true
}

/// The seed of every module (see `seed`).
fn seed_exec(tree: &ModuleTree, inputs: &Vec<Arc<InputModuleItems>>) -> (r: (Vec<Vec<Binding>>, Vec<Vec<Name>>))
    requires
        inputs@.len() == tree.mods@.len(),
    ensures
        model(r.0@) == seed(*tree, decls_model(inputs@)),
        all_distinct(model(r.0@)),
        r.0@.len() == tree.mods@.len(),
        r.1@.map_values(|v: Vec<Name>| v@) == seed_clashes(*tree, decls_model(inputs@)),
{
    let ghost target = seed(*tree, decls_model(inputs@));
    let ghost target_clashes = seed_clashes(*tree, decls_model(inputs@));
    let mut amb: Vec<Vec<Name>> = Vec::new();
    let mut out: Vec<Vec<Binding>> = Vec::new();
    let mut m: usize = 0;
    while m < tree.mods.len()
        invariant
            m <= tree.mods@.len(),
            inputs@.len() == tree.mods@.len(),
            target == seed(*tree, decls_model(inputs@)),
            target_clashes == seed_clashes(*tree, decls_model(inputs@)),
            out@.len() == m,
            amb@.len() == m,
            forall|j: int| 0 <= j < m ==> (#[trigger] out@[j])@ == target[j] && distinct(out@[j]@),
            forall|j: int| 0 <= j < m ==> (#[trigger] amb@[j])@ == target_clashes[j],
        decreases tree.mods@.len() - m,
    {
        let children = &tree.mods[m].children;
        let decls = &inputs[m].decls;
        let mut bs: Vec<Binding> = Vec::new();
        let mut clash_names: Vec<Name> = Vec::new();
        let mut k: usize = 0;
        assert(children@.take(0) =~= Seq::<(Name, usize)>::empty());
        while k < children.len()
            invariant
                k <= children@.len(),
                bs@ == bind_children(Seq::empty(), children@.take(k as int)),
                clash_names@ == child_clashes(Seq::empty(), children@.take(k as int)),
                distinct(bs@),
            decreases children@.len() - k,
        {
            assert(children@.take(k + 1).drop_last() =~= children@.take(k as int));
            if add_direct(&mut bs, children[k].0, Resolution::Module(children[k].1)) {
                clash_names.push(children[k].0);
            }
            k = k + 1;
        }
        assert(children@.take(k as int) =~= children@);
        let ghost base = bs@;
        let ghost base_clashes = clash_names@;
        let mut k: usize = 0;
        assert(decls@.take(0) =~= Seq::<(Name, DefId)>::empty());
        assert(base_clashes + decl_clashes(base, decls@.take(0)) =~= base_clashes);
        while k < decls.len()
            invariant
                k <= decls@.len(),
                bs@ == bind_decls(base, decls@.take(k as int)),
                clash_names@ == base_clashes + decl_clashes(base, decls@.take(k as int)),
                distinct(bs@),
            decreases decls@.len() - k,
        {
            assert(decls@.take(k + 1).drop_last() =~= decls@.take(k as int));
            let (n, d) = decls[k];
            if !matches!(d.kind, DefKind::Module) {
                if add_direct(&mut bs, n, Resolution::Def(d)) {
                    clash_names.push(n);
                }
            }
            k = k + 1;
            assert(clash_names@ =~= base_clashes + decl_clashes(base, decls@.take(k as int)));
        }
        assert(decls@.take(k as int) =~= decls@);
        assert(decls_model(inputs@)[m as int] == decls@);
        out.push(bs);
        amb.push(clash_names);
        m = m + 1;
    }
    assert(model(out@) =~= target);
    assert(amb@.map_values(|v: Vec<Name>| v@) =~= target_clashes);
    (out, amb)
}

/// Every module's bindings with its unresolved plain imports marked (see `finalize`).
fn finalize_exec(state: &Vec<Vec<Binding>>, inputs: &Vec<Arc<InputModuleItems>>) -> (r: Vec<Vec<Binding>>)
    requires
        all_distinct(model(state@)),
        inputs@.len() == state@.len(),
    ensures
        model(r@) == finalize(model(state@), imports_model(inputs@)),
        all_distinct(model(r@)),
{
    let ghost st = model(state@);
    let ghost target = finalize(st, imports_model(inputs@));
    let mut out: Vec<Vec<Binding>> = Vec::new();
    let mut m: usize = 0;
    while m < state.len()
        invariant
            m <= state@.len(),
            st == model(state@),
            all_distinct(st),
            inputs@.len() == state@.len(),
            target == finalize(st, imports_model(inputs@)),
            out@.len() == m,
            forall|j: int| 0 <= j < m ==> (#[trigger] out@[j])@ == target[j] && distinct(out@[j]@),
        decreases state@.len() - m,
    {
        let imps = &inputs[m].imports;
        let ghost ims = imps@.map_values(|i: ImportDecl| i@);
        assert(imports_model(inputs@)[m as int] == ims);
        assert(st[m as int] == state@[m as int]@);
        let mut bs = copy_bindings(&state[m]);
        let mut k: usize = 0;
        assert(ims.take(0) =~= Seq::<ImportModel>::empty());
        while k < imps.len()
            invariant
                k <= imps@.len(),
                st == model(state@),
                ims == imps@.map_values(|i: ImportDecl| i@),
                all_distinct(st),
                m < state@.len(),
                bs@ == mark_imports(state@[m as int]@, ims.take(k as int)),
                distinct(bs@),
            decreases imps@.len() - k,
        {
            assert(ims.take(k + 1).drop_last() =~= ims.take(k as int));
            assert(ims.take(k + 1).last() == imps@[k as int]@);
            let imp = &imps[k];
            if !imp.glob {
                let name = match imp.alias {
                    Some(a) => Some(a),
                    None => if imp.segments.len() > 0 { Some(imp.segments[imp.segments.len() - 1]) } else { None },
                };
                if let Some(n) = name {
                    add_direct(&mut bs, n, Resolution::Unresolved);
                }
            }
            k = k + 1;
        }
        assert(ims.take(k as int) =~= ims);
        out.push(bs);
        m = m + 1;
    }
    assert(model(out@) =~= target);
    out
}

/// The modules that the glob imports of module `m` name, in order, as they
/// resolve in `state`.
pub open spec fn glob_targets(state: Seq<Seq<Binding>>, tree: ModuleTree, m: int, imps: Seq<ImportModel>) -> Seq<usize>
    decreases imps.len(),
{
    if imps.len() == 0 {
        Seq::empty()
    } else {
        let rest = glob_targets(state, tree, m, imps.drop_last());
        let i = imps.last();
        if i.glob {
            match walk(state, start_of(tree, m, i.root), i.segments) {
                Some(t) => rest.push(t),
                None => rest,
            }
        } else {
            rest
        }
    }
}

/// The re-export edges of the final map: for every module, the modules it
/// takes names from by glob.
pub open spec fn reexports(tree: ModuleTree, decls: Seq<Seq<(Name, DefId)>>, imports: Seq<Seq<ImportModel>>) -> Seq<Seq<usize>> {
    let s = iterate(seed(tree, decls), tree, imports, (tree.mods@.len() + 1) as nat).0;
    Seq::new(s.len(), |m: int| glob_targets(s, tree, m, imports[m]))
}

/// The glob targets of every module in `state` (see `glob_targets`).
fn reexport_edges(state: &Vec<Vec<Binding>>, tree: &ModuleTree, inputs: &Vec<Arc<InputModuleItems>>) -> (r: Vec<Vec<usize>>)
    requires
        all_distinct(model(state@)),
        inputs@.len() == state@.len(),
        state@.len() == tree.mods@.len(),
    ensures
        r@.map_values(|v: Vec<usize>| v@) == Seq::new(state@.len(), |m: int| glob_targets(model(state@), *tree, m, imports_model(inputs@)[m])),
{
    let ghost st = model(state@);
    let ghost target = Seq::new(state@.len(), |m: int| glob_targets(st, *tree, m, imports_model(inputs@)[m]));
    let mut out: Vec<Vec<usize>> = Vec::new();
    let mut m: usize = 0;
    while m < state.len()
        invariant
            m <= state@.len(),
            st == model(state@),
            all_distinct(st),
            inputs@.len() == state@.len(),
            state@.len() == tree.mods@.len(),
            target == Seq::new(state@.len(), |m: int| glob_targets(st, *tree, m, imports_model(inputs@)[m])),
            out@.len() == m,
            forall|j: int| 0 <= j < m ==> (#[trigger] out@[j])@ == target[j],
        decreases state@.len() - m,
    {
        let imps = &inputs[m].imports;
        let ghost ims = imps@.map_values(|i: ImportDecl| i@);
        assert(imports_model(inputs@)[m as int] == ims);
        assert(st.update(m as int, state@[m as int]@) =~= st);
        let mut ts: Vec<usize> = Vec::new();
        let mut k: usize = 0;
        assert(ims.take(0) =~= Seq::<ImportModel>::empty());
        while k < imps.len()
            invariant
                k <= imps@.len(),
                st == model(state@),
                st.update(m as int, state@[m as int]@) == st,
                ims == imps@.map_values(|i: ImportDecl| i@),
                all_distinct(st),
                m < state@.len(),
                m < tree.mods@.len(),
                ts@ == glob_targets(st, *tree, m as int, ims.take(k as int)),
            decreases imps@.len() - k,
        {
            assert(ims.take(k + 1).drop_last() =~= ims.take(k as int));
            assert(ims.take(k + 1).last() == imps@[k as int]@);
            let imp = &imps[k];
            if imp.glob {
                let start = start_module(tree, m, imp.root);
                assert(imp.segments@.take(imp.segments@.len() as int) =~= imp.segments@);
                assert(st[m as int] == state@[m as int]@);
                if let Some(t) = walk_path(state, &state[m], m, start, &imp.segments, imp.segments.len()) {
                    ts.push(t);
                }
            }
            k = k + 1;
        }
        assert(ims.take(k as int) =~= ims);
        out.push(ts);
        m = m + 1;
    }
    assert(out@.map_values(|v: Vec<usize>| v@) =~= target);
    out
}

/// The resolved name tables of a unit: one list of bindings per module, the
/// modules each one re-exports by glob, the names that each module declares
/// directly more than once (the first declaration is the one bound), and the
/// number of passes that resolution made.
pub struct ItemMap {
    pub per_module: Vec<Vec<Binding>>,
    pub reexports: Vec<Vec<usize>>,
    pub ambiguous: Vec<Vec<Name>>,
    pub passes: usize,
}

/// Resolves a unit: seeds the direct bindings, runs passes until one adds
/// nothing (at most one more than there are modules), then marks what did not
/// resolve. Stops with `Canceled` when a cancellation is pending.
pub fn resolve(db: &Database, tree: &ModuleTree, inputs: &Vec<Arc<InputModuleItems>>) -> (r: Result<ItemMap, Canceled>)
    requires
        inputs@.len() == tree.mods@.len(),
        tree.mods@.len() < usize::MAX,
    ensures
        r is Err <==> db.cancel_requested,
        r matches Ok(map) ==> model(map.per_module@) == resolved(*tree, decls_model(inputs@), imports_model(inputs@))
            && map.passes == passes_needed(*tree, decls_model(inputs@), imports_model(inputs@))
            && map.ambiguous@.map_values(|v: Vec<Name>| v@) == seed_clashes(*tree, decls_model(inputs@))
            && map.reexports@.map_values(|v: Vec<usize>| v@) == reexports(*tree, decls_model(inputs@), imports_model(inputs@)),
{
    let ghost imports = imports_model(inputs@);
    let ghost s0 = seed(*tree, decls_model(inputs@));
    let limit = tree.mods.len() + 1;
    let (mut state, ambiguous) = seed_exec(tree, inputs);
    let mut passes: usize = 0;
    let mut done = false;
    while passes < limit && !done
        invariant
            passes <= limit == tree.mods@.len() + 1,
            inputs@.len() == tree.mods@.len(),
            state@.len() == tree.mods@.len(),
            all_distinct(model(state@)),
            imports == imports_model(inputs@),
            s0 == seed(*tree, decls_model(inputs@)),
            passes > 0 ==> !db.cancel_requested,
            !done ==> iterate(s0, *tree, imports, limit as nat).0
                == iterate(model(state@), *tree, imports, (limit - passes) as nat).0,
            !done ==> iterate(s0, *tree, imports, limit as nat).1
                == iterate(model(state@), *tree, imports, (limit - passes) as nat).1 + passes,
            done ==> iterate(s0, *tree, imports, limit as nat).0 == model(state@),
            done ==> iterate(s0, *tree, imports, limit as nat).1 == passes,
        decreases limit - passes,
    {
        db.check_canceled()?;
        let next = step_exec(&state, tree, inputs);
        passes = passes + 1;
        if same_state(&next, &state) {
            done = true;
        } else {
            state = next;
        }
    }
    let per_module = finalize_exec(&state, inputs);
    let reexports = reexport_edges(&state, tree, inputs);
    Ok(ItemMap { per_module, reexports, ambiguous, passes })
}

/// The definition handle of a named function, struct, enum or module node.
pub open spec fn def_of(node: ItemNode, file: MFileId, slot: int) -> Option<(Name, DefId)> {
    let loc = SourceItemId { mfile_id: file, item_id: Some(slot as usize) };
    match node.item {
        Item::Function { name: Some(n), .. } => Some((n, DefId { source_item_id: loc, kind: DefKind::Function })),
        Item::Struct { name: Some(n), .. } => Some((n, DefId { source_item_id: loc, kind: DefKind::Struct })),
        Item::Enum { name: Some(n), .. } => Some((n, DefId { source_item_id: loc, kind: DefKind::Enum })),
        Item::Module { name: Some(n), .. } => Some((n, DefId { source_item_id: loc, kind: DefKind::Module })),
        _ => None,
    }
}

/// The named functions, structs, enums and modules directly inside `parent`, in order.
pub open spec fn declared(items: Seq<ItemNode>, file: MFileId, parent: Option<usize>) -> Seq<(Name, DefId)>
    decreases items.len(),
{
    if items.len() == 0 {
        Seq::empty()
    } else {
        let rest = declared(items.drop_last(), file, parent);
        if items.last().parent == parent && def_of(items.last(), file, items.len() - 1) is Some {
            rest.push(def_of(items.last(), file, items.len() - 1)->Some_0)
        } else {
            rest
        }
    }
}

/// The imports directly inside `parent`, in order.
pub open spec fn imports_in(items: Seq<ItemNode>, parent: Option<usize>) -> Seq<ImportModel>
    decreases items.len(),
{
    if items.len() == 0 {
        Seq::empty()
    } else {
        let rest = imports_in(items.drop_last(), parent);
        match items.last().item {
            Item::Import(d) => if items.last().parent == parent { rest.push(d@) } else { rest },
            _ => rest,
        }
    }
}

/// The declarations of a module with the given source.
pub open spec fn source_decls(db: &Database, src: ModuleSource) -> Seq<(Name, DefId)> {
    declared(db.tree_of(src.file_id), src.file_id, src.inline)
}

/// The imports of a module with the given source.
pub open spec fn source_imports(db: &Database, src: ModuleSource) -> Seq<ImportModel> {
    imports_in(db.tree_of(src.file_id), src.inline)
}

/// The raw declarations of one module of the tree. Unnamed declarations are
/// skipped; paths are kept as written.
pub fn input_module_items(db: &Database, tree: &ModuleTree, module_id: usize) -> (r: Arc<InputModuleItems>)
    requires
        module_id < tree.mods@.len(),
    ensures
        r.decls@ == source_decls(db, tree.mods@[module_id as int].source),
        r.imports@.map_values(|i: ImportDecl| i@) == source_imports(db, tree.mods@[module_id as int].source),
{
    source_module_items(db, tree.source(module_id))
}

/// The raw declarations of the module that lives at `source`.
pub fn source_module_items(db: &Database, source: ModuleSource) -> (r: Arc<InputModuleItems>)
    ensures
        r.decls@ == source_decls(db, source),
        r.imports@.map_values(|i: ImportDecl| i@) == source_imports(db, source),
{
    let mfile_id = source.file_id;
    let file_items = file_items(db, mfile_id);
    let items = &file_items.source.items;
    let ghost nodes = items@;
    let mut decls: Vec<(Name, DefId)> = Vec::new();
    let mut imports: Vec<ImportDecl> = Vec::new();
    let mut i: usize = 0;
    while i < items.len()
        invariant
            i <= nodes.len(),
            nodes == items@,
            decls@ == declared(nodes.take(i as int), mfile_id, source.inline),
            imports@.map_values(|d: ImportDecl| d@) == imports_in(nodes.take(i as int), source.inline),
        decreases nodes.len() - i,
    {
        assert(nodes.take(i + 1).drop_last() =~= nodes.take(i as int));
        let node = &items[i];
        if node.parent == source.inline {
            let loc = SourceItemId { mfile_id, item_id: Some(i) };
            match &node.item {
                Item::Function { name: Some(n), .. } => decls.push((*n, DefId { source_item_id: loc, kind: DefKind::Function })),
                Item::Struct { name: Some(n), .. } => decls.push((*n, DefId { source_item_id: loc, kind: DefKind::Struct })),
                Item::Enum { name: Some(n), .. } => decls.push((*n, DefId { source_item_id: loc, kind: DefKind::Enum })),
                Item::Module { name: Some(n), .. } => decls.push((*n, DefId { source_item_id: loc, kind: DefKind::Module })),
                Item::Import(d) => {
                    imports.push(ImportDecl { root: d.root, segments: copy_names(&d.segments), glob: d.glob, alias: d.alias });
                },
                _ => {},
            }
        }
        i = i + 1;
        assert(imports@.map_values(|d: ImportDecl| d@) =~= imports_in(nodes.take(i as int), source.inline));
    }
    assert(nodes.take(i as int) =~= nodes);
    Arc::new(InputModuleItems { decls, imports })
}

/// The declarations of every module of a unit.
pub open spec fn unit_decls(db: &Database, tree: ModuleTree) -> Seq<Seq<(Name, DefId)>> {
    Seq::new(tree.mods@.len(), |m: int| source_decls(db, tree.mods@[m].source))
}

/// The imports of every module of a unit.
pub open spec fn unit_imports(db: &Database, tree: ModuleTree) -> Seq<Seq<ImportModel>> {
    Seq::new(tree.mods@.len(), |m: int| source_imports(db, tree.mods@[m].source))
}

/// The item map of a unit: collects every module's raw declarations and
/// resolves them. Stops with `Canceled` when a cancellation is pending.
pub fn item_map(db: &Database, tree: &ModuleTree) -> (r: Result<Arc<ItemMap>, Canceled>)
    requires
        tree.mods@.len() < usize::MAX,
    ensures
        r is Err <==> db.cancel_requested,
        r matches Ok(map) ==> model(map.per_module@) == resolved(*tree, unit_decls(db, *tree), unit_imports(db, *tree))
            && map.passes == passes_needed(*tree, unit_decls(db, *tree), unit_imports(db, *tree))
            && map.ambiguous@.map_values(|v: Vec<Name>| v@) == seed_clashes(*tree, unit_decls(db, *tree))
            && map.reexports@.map_values(|v: Vec<usize>| v@) == reexports(*tree, unit_decls(db, *tree), unit_imports(db, *tree)),
{
    let mut input: Vec<Arc<InputModuleItems>> = Vec::new();
    let mut id: usize = 0;
    while id < tree.len()
        invariant
            id <= tree.mods@.len(),
            input@.len() == id,
            forall|m: int| 0 <= m < id ==> (#[trigger] input@[m]).decls@ == source_decls(db, tree.mods@[m].source)
                && input@[m].imports@.map_values(|i: ImportDecl| i@) == source_imports(db, tree.mods@[m].source),
        decreases tree.mods@.len() - id,
    {
        let items = input_module_items(db, tree, id);
        input.push(items);
        id = id + 1;
    }
    assert(decls_model(input@) =~= unit_decls(db, *tree));
    assert(imports_model(input@) =~= unit_imports(db, *tree));
    let res = resolve(db, tree, &input)?;
    Ok(Arc::new(res))
}

/// The item map of a unit, reading each module's raw declarations through the
/// store's memo table: a module whose file has not changed keeps its entry.
pub fn item_map_memoized(db: &mut Database, tree: &ModuleTree) -> (r: Result<Arc<ItemMap>, Canceled>)
    requires
        old(db).wf(),
        tree.mods@.len() < usize::MAX,
    ensures
        final(db).wf(),
        forall|f: MFileId| #[trigger] final(db).tree_of(f) == old(db).tree_of(f),
        final(db).revision == old(db).revision,
        final(db).cancel_requested == old(db).cancel_requested,
        r is Err <==> old(db).cancel_requested,
        r matches Ok(map) ==> model(map.per_module@) == resolved(*tree, unit_decls(old(db), *tree), unit_imports(old(db), *tree))
            && map.passes == passes_needed(*tree, unit_decls(old(db), *tree), unit_imports(old(db), *tree))
            && map.ambiguous@.map_values(|v: Vec<Name>| v@) == seed_clashes(*tree, unit_decls(old(db), *tree))
            && map.reexports@.map_values(|v: Vec<usize>| v@) == reexports(*tree, unit_decls(old(db), *tree), unit_imports(old(db), *tree)),
{
    let mut input: Vec<Arc<InputModuleItems>> = Vec::new();
    let mut id: usize = 0;
    while id < tree.len()
        invariant
            db.wf(),
            forall|f: MFileId| #[trigger] db.tree_of(f) == old(db).tree_of(f),
            db.revision == old(db).revision,
            db.cancel_requested == old(db).cancel_requested,
            id <= tree.mods@.len(),
            input@.len() == id,
            forall|m: int| 0 <= m < id ==> (#[trigger] input@[m]).decls@ == source_decls(db, tree.mods@[m].source)
                && input@[m].imports@.map_values(|i: ImportDecl| i@) == source_imports(db, tree.mods@[m].source),
        decreases tree.mods@.len() - id,
    {
        let items = db.module_items(tree.source(id));
        input.push(items);
        id = id + 1;
    }
    assert(decls_model(input@) =~= unit_decls(db, *tree));
    assert(imports_model(input@) =~= unit_imports(db, *tree));
    let res = resolve(db, tree, &input)?;
    proof {
        assert(unit_decls(db, *tree) =~= unit_decls(old(db), *tree));
        assert(unit_imports(db, *tree) =~= unit_imports(old(db), *tree));
    }
    Ok(Arc::new(res))
}

/// Globbing a module's own bindings into themselves changes nothing.
proof fn lemma_bind_all_glob_self(bs: Seq<Binding>, k: int)
    requires
        0 <= k <= bs.len(),
    ensures
        bind_all_glob(bs, bs.take(k)) == bs,
    decreases k,
{
    if k > 0 {
        lemma_bind_all_glob_self(bs, k - 1);
        assert(bs.take(k).drop_last() =~= bs.take(k - 1));
        assert(bs.take(k).last() == bs[k - 1]);
        assert(has_name(bs, bs[k - 1].name));
    }
}

} // verus!
