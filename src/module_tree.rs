//! Modules: where each one's declarations live, its submodules, and the tree
//! that links a unit's modules by index.
use std::sync::Arc;
use vstd::prelude::*;
use crate::syntax::{Item, ItemNode, MFileId, Name, SourceFile};
use crate::db::{Canceled, Database, m_source_file};

verus! {

/// Where a module's declarations live: a whole logical file, or the body of the
/// inline module at a slot of it.
#[derive(Clone, Copy, Debug, PartialEq, Eq, Hash, Structural)]
pub struct ModuleSource {
    pub file_id: MFileId,
    pub inline: Option<usize>,
}

impl ModuleSource {
    pub fn new_inline(file_id: MFileId, slot: usize) -> (r: ModuleSource)
        ensures
            r == (ModuleSource { file_id, inline: Some(slot) }),
    {
        ModuleSource { file_id, inline: Some(slot) }
    }
}

/// A child module: declared here with its body in another file, or defined here
/// with an inline body.
#[derive(Clone, Copy, Debug, PartialEq, Eq, Structural)]
pub enum Submodule {
    Declaration(Name),
    Definition(Name, ModuleSource),
}

/// The named module declarations directly inside `parent`, with their slots,
/// in source order.
pub open spec fn named_modules(items: Seq<ItemNode>, parent: Option<usize>) -> Seq<(Name, usize)>
    decreases items.len(),
{
    if items.len() == 0 {
        Seq::empty()
    } else {
        let rest = named_modules(items.drop_last(), parent);
        match items.last().item {
            Item::Module { name: Some(n), .. } => if items.last().parent == parent {
                rest.push((n, (items.len() - 1) as usize))
            } else {
                rest
            },
            _ => rest,
        }
    }
}

/// What a module declaration at a slot of a file contributes as a submodule.
pub open spec fn submodule_of(items: Seq<ItemNode>, file_id: MFileId, m: (Name, usize)) -> Submodule {
    if items[m.1 as int].item->Module_has_semi {
        Submodule::Declaration(m.0)
    } else {
        Submodule::Definition(m.0, ModuleSource { file_id, inline: Some(m.1) })
    }
}

/// The named module declarations of a file directly inside `parent` (the file's
/// top level when `None`), with their slots.
pub fn modules(root: &SourceFile, parent: Option<usize>) -> (r: Vec<(Name, usize)>)
    ensures
        r@ == named_modules(root.items@, parent),
{
    let mut r: Vec<(Name, usize)> = Vec::new();
    let mut i: usize = 0;
    while i < root.items.len()
        invariant
            i <= root.items@.len(),
            r@ == named_modules(root.items@.take(i as int), parent),
        decreases root.items@.len() - i,
    {
        assert(root.items@.take(i + 1).drop_last() =~= root.items@.take(i as int));
        match &root.items[i].item {
            Item::Module { name: Some(n), .. } => {
                if root.items[i].parent == parent {
                    r.push((*n, i));
                }
            },
            _ => {},
        }
        i = i + 1;
    }
    assert(root.items@.take(i as int) =~= root.items@);
    r
}

/// The submodules of a module, in declaration order; duplicate names are kept.
pub fn submodules(db: &Database, source: ModuleSource) -> (r: Result<Arc<Vec<Submodule>>, Canceled>)
    ensures
        r is Err <==> db.cancel_requested,
        r matches Ok(v) ==> v@ == named_modules(db.tree_of(source.file_id), source.inline).map_values(
            |m: (Name, usize)| submodule_of(db.tree_of(source.file_id), source.file_id, m),
        ),
{
    db.check_canceled()?;
    let file_id = source.file_id;
    let tree = m_source_file(db, file_id);
    let found = modules(&tree, source.inline);
    let ghost items = db.tree_of(file_id);
    let n_items = tree.items.len();
    let mut submodules: Vec<Submodule> = Vec::new();
    let mut k: usize = 0;
    while k < found.len()
        invariant
            k <= found@.len(),
            tree.items@ == items,
            items.len() == n_items,
            found@ == named_modules(items, source.inline),
            submodules@ == found@.take(k as int).map_values(
                |m: (Name, usize)| submodule_of(items, file_id, m),
            ),
        decreases found@.len() - k,
    {
        let (name, slot) = found[k];
        proof { lemma_named_modules_are_modules(items, source.inline, k as int); }
        let sub = match &tree.items[slot].item {
            Item::Module { has_semi, .. } => if *has_semi {
                Submodule::Declaration(name)
            } else {
                Submodule::Definition(name, ModuleSource::new_inline(file_id, slot))
            },
            _ => Submodule::Declaration(name),
        };
        submodules.push(sub);
        k = k + 1;
        assert(submodules@ =~= found@.take(k as int).map_values(
            |m: (Name, usize)| submodule_of(items, file_id, m),
        ));
    }
    assert(found@.take(k as int) =~= found@);
    Ok(Arc::new(submodules))
}

/// Each entry of `named_modules` addresses a module node inside `parent`.
proof fn lemma_named_modules_are_modules(items: Seq<ItemNode>, parent: Option<usize>, k: int)
    requires
        0 <= k < named_modules(items, parent).len(),
        items.len() <= usize::MAX,
    ensures
        named_modules(items, parent)[k].1 < items.len(),
        items[named_modules(items, parent)[k].1 as int].item is Module,
        items[named_modules(items, parent)[k].1 as int].parent == parent,
    decreases items.len(),
{
    if items.len() > 0 {
        let rest = named_modules(items.drop_last(), parent);
        if k < rest.len() {
            lemma_named_modules_are_modules(items.drop_last(), parent, k);
            assert(named_modules(items, parent)[k] == rest[k]);
            assert(items.drop_last()[rest[k].1 as int] == items[rest[k].1 as int]);
        }
    }
}

/// One module of a unit: where it lives, its parent, and its children by name.
pub struct ModuleData {
    pub source: ModuleSource,
    pub parent: Option<usize>,
    pub children: Vec<(Name, usize)>,
}

/// The modules of a unit, by index; index 0 is the root.
pub struct ModuleTree {
    pub mods: Vec<ModuleData>,
}

impl ModuleTree {
    /// The parent of a module.
    pub open spec fn parent_of(&self, m: int) -> Option<usize> {
        self.mods@[m].parent
    }

    /// The number of modules.
    pub fn len(&self) -> (r: usize)
        ensures
            r == self.mods@.len(),
    {
        self.mods.len()
    }

    /// Where a module's declarations live.
    pub fn source(&self, module_id: usize) -> (r: ModuleSource)
        requires
            module_id < self.mods@.len(),
        ensures
            r == self.mods@[module_id as int].source,
    {
        self.mods[module_id].source
    }
}

} // verus!
