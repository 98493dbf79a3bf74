//! The content store and the per-file and per-definition queries over it.
use std::sync::Arc;
use vstd::prelude::*;
use crate::syntax::{FileId, ImportDecl, MFileId, MacroCallId, SourceFile, Item, ItemNode, copy_fields, copy_variants, VariantDef, variant_model};
use crate::scopes::{FnScopes, StructData, EnumData};
use crate::module_tree::ModuleSource;
use crate::nameres::{InputModuleItems, source_decls, source_imports, source_module_items};

verus! {

/// The signal that a query stopped because a write is pending.
#[derive(Clone, Copy, Debug, PartialEq, Eq, Structural)]
pub struct Canceled;

/// The kind of declaration a definition handle points at.
#[derive(Clone, Copy, Debug, PartialEq, Eq, Hash, Structural)]
pub enum DefKind {
    Function,
    Struct,
    Enum,
    Module,
}

/// The address of a node: a slot of a file, or the whole file when `item_id` is `None`.
#[derive(Clone, Copy, Debug, PartialEq, Eq, Hash, Structural)]
pub struct SourceItemId {
    pub mfile_id: MFileId,
    pub item_id: Option<usize>,
}

/// The identity of a declaration: where it stands and what it is.
#[derive(Clone, Copy, Debug, PartialEq, Eq, Hash, Structural)]
pub struct DefId {
    pub source_item_id: SourceItemId,
    pub kind: DefKind,
}

/// A memoised scope tree: the function it belongs to, the revision at which it
/// was last known to match the source, and the shared value.
pub struct ScopesMemo {
    pub def_id: DefId,
    pub verified_at: u64,
    pub value: Arc<FnScopes>,
}

/// A memoised set of raw module declarations: where the module lives, the
/// revision at which the entry was last known to match the source, and the
/// shared value.
pub struct ItemsMemo {
    pub source: ModuleSource,
    pub verified_at: u64,
    pub value: Arc<InputModuleItems>,
}

/// The content store: the current tree of every physical file, the expansion of
/// every macro invocation (when one is available), the revision at which each
/// of them last changed, and a revision counter that each write advances. It
/// also holds the memo tables of function scopes and of raw module declarations.
pub struct Database {
    pub files: Vec<Option<Arc<SourceFile>>>,
    pub file_revs: Vec<u64>,
    pub expansions: Vec<Option<Arc<SourceFile>>>,
    pub expansion_revs: Vec<u64>,
    pub revision: u64,
    pub cancel_requested: bool,
    pub scopes_memo: Vec<ScopesMemo>,
    pub items_memo: Vec<ItemsMemo>,
}

/// A reference to one node of a shared tree, or to the tree's root.
pub struct SyntaxRef {
    pub file: Arc<SourceFile>,
    pub slot: Option<usize>,
}

/// The item index of a logical file: its nodes in source order, slot by slot.
pub struct SourceFileItems {
    pub file_id: MFileId,
    pub source: Arc<SourceFile>,
}

impl Database {
    /// The nodes of a logical file: a missing file or expansion has none.
    pub open spec fn tree_of(&self, m: MFileId) -> Seq<ItemNode> {
        match m {
            MFileId::File(f) => if (f.0 as int) < self.files@.len() && self.files@[f.0 as int] is Some {
                self.files@[f.0 as int]->Some_0.items@
            } else {
                Seq::empty()
            },
            MFileId::Macro(c) => if (c.0 as int) < self.expansions@.len()
                && self.expansions@[c.0 as int] is Some {
                self.expansions@[c.0 as int]->Some_0.items@
            } else {
                Seq::empty()
            },
        }
    }

    /// The revision at which a logical file last changed.
    pub open spec fn changed_at(&self, m: MFileId) -> u64 {
        match m {
            MFileId::File(f) => if (f.0 as int) < self.file_revs@.len() { self.file_revs@[f.0 as int] } else { 0 },
            MFileId::Macro(c) => if (c.0 as int) < self.expansion_revs@.len() {
                self.expansion_revs@[c.0 as int]
            } else {
                0
            },
        }
    }

    /// A memo entry whose file has not changed since it was verified describes
    /// the function as it stands now.
    pub open spec fn memo_valid(&self, e: ScopesMemo) -> bool {
        &&& e.verified_at <= self.revision
        &&& self.changed_at(e.def_id.source_item_id.mfile_id) <= e.verified_at ==> match def_item(self, e.def_id) {
            Some(Item::Function { params, body, .. }) => e.value.describes(params@, body@),
            _ => false,
        }
    }

    /// A memo entry whose file has not changed since it was verified holds the
    /// module's declarations as they stand now.
    pub open spec fn items_memo_valid(&self, e: ItemsMemo) -> bool {
        &&& e.verified_at <= self.revision
        &&& self.changed_at(e.source.file_id) <= e.verified_at ==> {
            &&& e.value.decls@ == source_decls(self, e.source)
            &&& e.value.imports@.map_values(|i: ImportDecl| i@) == source_imports(self, e.source)
        }
    }

    /// Entry `k` of the scope memo holds `def_id` and its file has not changed since.
    pub open spec fn scopes_hit(&self, def_id: DefId, k: int) -> bool {
        &&& 0 <= k < self.scopes_memo@.len()
        &&& self.scopes_memo@[k].def_id == def_id
        &&& self.changed_at(def_id.source_item_id.mfile_id) <= self.scopes_memo@[k].verified_at
    }

    /// Entry `k` of the items memo holds `source` and its file has not changed since.
    pub open spec fn items_hit(&self, source: ModuleSource, k: int) -> bool {
        &&& 0 <= k < self.items_memo@.len()
        &&& self.items_memo@[k].source == source
        &&& self.changed_at(source.file_id) <= self.items_memo@[k].verified_at
    }

    pub open spec fn wf(&self) -> bool {
        &&& self.files@.len() == self.file_revs@.len()
        &&& self.expansions@.len() == self.expansion_revs@.len()
        &&& forall|i: int| 0 <= i < self.file_revs@.len() ==> #[trigger] self.file_revs@[i] <= self.revision
        &&& forall|i: int| 0 <= i < self.expansion_revs@.len() ==> #[trigger] self.expansion_revs@[i] <= self.revision
        &&& forall|k: int| 0 <= k < self.scopes_memo@.len() ==> self.memo_valid(#[trigger] self.scopes_memo@[k])
        &&& forall|k: int| 0 <= k < self.items_memo@.len() ==> self.items_memo_valid(#[trigger] self.items_memo@[k])
    }

    pub fn new() -> (r: Database)
        ensures
            r.wf(),
            r.files@.len() == 0,
            r.expansions@.len() == 0,
            r.revision == 0,
            !r.cancel_requested,
            forall|m: MFileId| r.tree_of(m).len() == 0,
    {
        Database {
            files: Vec::new(),
            file_revs: Vec::new(),
            expansions: Vec::new(),
            expansion_revs: Vec::new(),
            revision: 0,
            cancel_requested: false,
            scopes_memo: Vec::new(),
            items_memo: Vec::new(),
        }
    }
}

/// Stores `val` at `idx`, growing the table with empty entries as needed.
fn put_entry(v: &mut Vec<Option<Arc<SourceFile>>>, idx: usize, val: Option<Arc<SourceFile>>)
    ensures
        final(v)@.len() == if idx < old(v)@.len() { old(v)@.len() as int } else { idx + 1 },
        final(v)@[idx as int] == val,
        forall|i: int| 0 <= i < final(v)@.len() && i != idx ==>
            #[trigger] final(v)@[i] == if i < old(v)@.len() { old(v)@[i] } else { None },
{
    while v.len() <= idx
        invariant
            forall|i: int| 0 <= i < v@.len() ==>
                #[trigger] v@[i] == if i < old(v)@.len() { old(v)@[i] } else { None },
            v@.len() >= old(v)@.len(),
            v@.len() <= if idx < old(v)@.len() { old(v)@.len() as int } else { idx + 1 },
        decreases idx + 1 - v.len(),
    {
        v.push(None);
    }
    v.set(idx, val);
}

/// Stores `val` at `idx`, growing the table with zeros as needed.
fn put_rev(v: &mut Vec<u64>, idx: usize, val: u64)
    ensures
        final(v)@.len() == if idx < old(v)@.len() { old(v)@.len() as int } else { idx + 1 },
        final(v)@[idx as int] == val,
        forall|i: int| 0 <= i < final(v)@.len() && i != idx ==>
            #[trigger] final(v)@[i] == if i < old(v)@.len() { old(v)@[i] } else { 0 },
{
    while v.len() <= idx
        invariant
            forall|i: int| 0 <= i < v@.len() ==>
                #[trigger] v@[i] == if i < old(v)@.len() { old(v)@[i] } else { 0 },
            v@.len() >= old(v)@.len(),
            v@.len() <= if idx < old(v)@.len() { old(v)@.len() as int } else { idx + 1 },
        decreases idx + 1 - v.len(),
    {
        v.push(0);
    }
    v.set(idx, val);
}

impl Database {
    /// A write keeps every memo entry valid: entries of the written file become
    /// stale, the others see the same tree.
    proof fn lemma_write_keeps_memo(old_db: &Database, new_db: &Database, written: MFileId)
        requires
            old_db.wf(),
            new_db.revision == old_db.revision + 1,
            new_db.scopes_memo@ == old_db.scopes_memo@,
            new_db.items_memo@ == old_db.items_memo@,
            new_db.changed_at(written) == new_db.revision,
            forall|m: MFileId| m != written ==> #[trigger] new_db.tree_of(m) == old_db.tree_of(m)
                && new_db.changed_at(m) == old_db.changed_at(m),
        ensures
            forall|k: int| 0 <= k < new_db.scopes_memo@.len() ==> new_db.memo_valid(#[trigger] new_db.scopes_memo@[k]),
            forall|k: int| 0 <= k < new_db.items_memo@.len() ==> new_db.items_memo_valid(#[trigger] new_db.items_memo@[k]),
    {
        assert forall|k: int| 0 <= k < new_db.items_memo@.len() implies new_db.items_memo_valid(#[trigger] new_db.items_memo@[k]) by {
            let e = new_db.items_memo@[k];
            assert(old_db.items_memo_valid(old_db.items_memo@[k]));
            if e.source.file_id != written {
                assert(new_db.tree_of(e.source.file_id) == old_db.tree_of(e.source.file_id));
            }
        }
        assert forall|k: int| 0 <= k < new_db.scopes_memo@.len() implies new_db.memo_valid(#[trigger] new_db.scopes_memo@[k]) by {
            let e = new_db.scopes_memo@[k];
            assert(old_db.memo_valid(old_db.scopes_memo@[k]));
            if e.def_id.source_item_id.mfile_id != written {
                assert(new_db.tree_of(e.def_id.source_item_id.mfile_id) == old_db.tree_of(e.def_id.source_item_id.mfile_id));
            }
        }
    }

    /// Replaces the tree of a physical file and advances the revision. A pending
    /// cancellation is settled by the write.
    pub fn set_text(&mut self, file: FileId, tree: SourceFile)
        requires
            old(self).wf(),
            old(self).revision < u64::MAX,
        ensures
            final(self).wf(),
            final(self).tree_of(MFileId::File(file)) == tree.items@,
            forall|m: MFileId| m != MFileId::File(file) ==>
                #[trigger] final(self).tree_of(m) == old(self).tree_of(m),
            final(self).revision == old(self).revision + 1,
            !final(self).cancel_requested,
            final(self).scopes_memo@ == old(self).scopes_memo@,
            final(self).items_memo@ == old(self).items_memo@,
    {
        let ghost old_db = *self;
        put_entry(&mut self.files, file.0 as usize, Some(Arc::new(tree)));
        self.revision = self.revision + 1;
        put_rev(&mut self.file_revs, file.0 as usize, self.revision);
        self.cancel_requested = false;
        proof { Database::lemma_write_keeps_memo(&old_db, self, MFileId::File(file)); }
    }

    /// Removes a physical file: its tree becomes empty.
    pub fn remove_file(&mut self, file: FileId)
        requires
            old(self).wf(),
            old(self).revision < u64::MAX,
        ensures
            final(self).wf(),
            final(self).tree_of(MFileId::File(file)).len() == 0,
            forall|m: MFileId| m != MFileId::File(file) ==>
                #[trigger] final(self).tree_of(m) == old(self).tree_of(m),
            final(self).revision == old(self).revision + 1,
            !final(self).cancel_requested,
            final(self).scopes_memo@ == old(self).scopes_memo@,
            final(self).items_memo@ == old(self).items_memo@,
    {
        let ghost old_db = *self;
        put_entry(&mut self.files, file.0 as usize, None);
        self.revision = self.revision + 1;
        put_rev(&mut self.file_revs, file.0 as usize, self.revision);
        self.cancel_requested = false;
        proof { Database::lemma_write_keeps_memo(&old_db, self, MFileId::File(file)); }
    }

    /// Records what a macro invocation expands to, or that no expansion is
    /// available.
    pub fn set_expansion(&mut self, call: MacroCallId, expansion: Option<SourceFile>)
        requires
            old(self).wf(),
            old(self).revision < u64::MAX,
        ensures
            final(self).wf(),
            final(self).tree_of(MFileId::Macro(call)) == match expansion {
                Some(t) => t.items@,
                None => Seq::<ItemNode>::empty(),
            },
            forall|m: MFileId| m != MFileId::Macro(call) ==>
                #[trigger] final(self).tree_of(m) == old(self).tree_of(m),
            final(self).revision == old(self).revision + 1,
            !final(self).cancel_requested,
            final(self).scopes_memo@ == old(self).scopes_memo@,
            final(self).items_memo@ == old(self).items_memo@,
    {
        let entry = match expansion {
            Some(t) => Some(Arc::new(t)),
            None => None,
        };
        let ghost old_db = *self;
        put_entry(&mut self.expansions, call.0 as usize, entry);
        self.revision = self.revision + 1;
        put_rev(&mut self.expansion_revs, call.0 as usize, self.revision);
        self.cancel_requested = false;
        proof { Database::lemma_write_keeps_memo(&old_db, self, MFileId::Macro(call)); }
    }

    /// Asks the queries in flight to stop.
    pub fn request_cancel(&mut self)
        requires
            old(self).wf(),
        ensures
            final(self).wf(),
            final(self).cancel_requested,
            forall|m: MFileId| #[trigger] final(self).tree_of(m) == old(self).tree_of(m),
            final(self).files == old(self).files,
            final(self).expansions == old(self).expansions,
            final(self).revision == old(self).revision,
    {
        self.cancel_requested = true;
    }

    /// The cancellation check of long-running queries.
    pub fn check_canceled(&self) -> (r: Result<(), Canceled>)
        ensures
            r is Err <==> self.cancel_requested,
    {
        if self.cancel_requested {
            Err(Canceled)
        } else {
            Ok(())
        }
    }

    /// The tree of a physical file; a missing file has the empty tree.
    pub fn source_file(&self, file: FileId) -> (r: Arc<SourceFile>)
        ensures
            r.items@ == self.tree_of(MFileId::File(file)),
    {
        let i = file.0 as usize;
        if i < self.files.len() {
            match &self.files[i] {
                Some(t) => {
                    return t.clone();
                },
                None => {},
            }
        }
        Arc::new(SourceFile::empty())
    }

    /// The expansion of a macro invocation, when one is available.
    pub fn expand_macro_invocation(&self, call: MacroCallId) -> (r: Option<Arc<SourceFile>>)
        ensures
            r is Some ==> r->Some_0.items@ == self.tree_of(MFileId::Macro(call)),
            r is None ==> self.tree_of(MFileId::Macro(call)).len() == 0,
    {
        let i = call.0 as usize;
        if i < self.expansions.len() {
            match &self.expansions[i] {
                Some(t) => {
                    return Some(t.clone());
                },
                None => {},
            }
        }
        None
    }
}

/// The tree of a logical file. A macro invocation with no expansion has the
/// empty tree: it is no error.
pub fn m_source_file(db: &Database, mfile_id: MFileId) -> (r: Arc<SourceFile>)
    ensures
        r.items@ == db.tree_of(mfile_id),
{
    match mfile_id {
        MFileId::File(file_id) => db.source_file(file_id),
        MFileId::Macro(m) => {
            if let Some(exp) = db.expand_macro_invocation(m) {
                return exp;
            }
            let r = Arc::new(SourceFile::empty());
            assert(r.items@ =~= db.tree_of(mfile_id));
            r
        },
    }
}

/// The item index of a logical file.
pub fn file_items(db: &Database, mfile_id: MFileId) -> (r: Arc<SourceFileItems>)
    ensures
        r.file_id == mfile_id,
        r.source.items@ == db.tree_of(mfile_id),
{
    let source_file = m_source_file(db, mfile_id);
    Arc::new(SourceFileItems { file_id: mfile_id, source: source_file })
}

/// The node that a source item id addresses; `None` addresses the file's root.
pub fn file_item(db: &Database, source_item_id: SourceItemId) -> (r: SyntaxRef)
    requires
        source_item_id.item_id matches Some(s) ==> s < db.tree_of(source_item_id.mfile_id).len(),
    ensures
        r.file.items@ == db.tree_of(source_item_id.mfile_id),
        r.slot == source_item_id.item_id,
{
    match source_item_id.item_id {
        Some(id) => {
            let items = file_items(db, source_item_id.mfile_id);
            SyntaxRef { file: items.source.clone(), slot: Some(id) }
        },
        None => SyntaxRef { file: m_source_file(db, source_item_id.mfile_id), slot: None },
    }
}

/// The declaration that a definition handle addresses, when it addresses a node.
pub open spec fn def_item(db: &Database, def_id: DefId) -> Option<Item> {
    match def_id.source_item_id.item_id {
        Some(s) => if s < db.tree_of(def_id.source_item_id.mfile_id).len() {
            Some(db.tree_of(def_id.source_item_id.mfile_id)[s as int].item)
        } else {
            None
        },
        None => None,
    }
}

/// The scope tree of the function that `def_id` addresses.
pub fn fn_scopes(db: &Database, def_id: DefId) -> (r: Arc<FnScopes>)
    requires
        def_id.kind == DefKind::Function,
        def_item(db, def_id) matches Some(Item::Function { .. }),
    ensures
        match def_item(db, def_id) {
            Some(Item::Function { params, body, .. }) => r.describes(params@, body@),
            _ => false,
        },
{
    let syntax = file_item(db, def_id.source_item_id);
    let slot = syntax.slot.unwrap();
    match &syntax.file.items[slot].item {
        Item::Function { params, body, .. } => Arc::new(FnScopes::new(params, body)),
        _ => {
            assert(false);
            Arc::new(FnScopes::new(&Vec::new(), &Vec::new()))
        },
    }
}

/// The shape of the struct that `def_id` addresses.
pub fn struct_data(db: &Database, def_id: DefId) -> (r: Arc<StructData>)
    requires
        def_id.kind == DefKind::Struct,
        def_item(db, def_id) matches Some(Item::Struct { .. }),
    ensures
        match def_item(db, def_id) {
            Some(Item::Struct { name, fields }) => r.name == name && r.fields@ == fields@,
            _ => false,
        },
{
    let syntax = file_item(db, def_id.source_item_id);
    let slot = syntax.slot.unwrap();
    match &syntax.file.items[slot].item {
        Item::Struct { name, fields } => Arc::new(StructData { name: *name, fields: copy_fields(fields) }),
        _ => {
            assert(false);
            Arc::new(StructData { name: None, fields: Vec::new() })
        },
    }
}

/// The shape of the enum that `def_id` addresses.
pub fn enum_data(db: &Database, def_id: DefId) -> (r: Arc<EnumData>)
    requires
        def_id.kind == DefKind::Enum,
        def_item(db, def_id) matches Some(Item::Enum { .. }),
    ensures
        match def_item(db, def_id) {
            Some(Item::Enum { name, variants }) => r.name == name
                && r.variants@.map_values(|v: VariantDef| variant_model(v)) == variants@.map_values(|v: VariantDef| variant_model(v)),
            _ => false,
        },
{
    let syntax = file_item(db, def_id.source_item_id);
    let slot = syntax.slot.unwrap();
    match &syntax.file.items[slot].item {
        Item::Enum { name, variants } => Arc::new(EnumData { name: *name, variants: copy_variants(variants) }),
        _ => {
            assert(false);
            Arc::new(EnumData { name: None, variants: Vec::new() })
        },
    }
}

impl Database {
    /// The revision at which a logical file last changed.
    pub fn changed_at_exec(&self, m: MFileId) -> (r: u64)
        ensures
            r == self.changed_at(m),
    {
        match m {
            MFileId::File(f) => if (f.0 as usize) < self.file_revs.len() { self.file_revs[f.0 as usize] } else { 0 },
            MFileId::Macro(c) => if (c.0 as usize) < self.expansion_revs.len() {
                self.expansion_revs[c.0 as usize]
            } else {
                0
            },
        }
    }

    /// The memoised scope tree of the function that `def_id` addresses. An entry
    /// is reused, as the same shared value, while its file has not changed since
    /// the entry was made; otherwise the tree is computed and remembered.
    pub fn function_scopes(&mut self, def_id: DefId) -> (r: Arc<FnScopes>)
        requires
            old(self).wf(),
            def_id.kind == DefKind::Function,
            def_item(old(self), def_id) matches Some(Item::Function { .. }),
        ensures
            final(self).wf(),
            match def_item(old(self), def_id) {
                Some(Item::Function { params, body, .. }) => r.describes(params@, body@),
                _ => false,
            },
            forall|m: MFileId| #[trigger] final(self).tree_of(m) == old(self).tree_of(m),
            final(self).revision == old(self).revision,
            final(self).cancel_requested == old(self).cancel_requested,
            final(self).items_memo@ == old(self).items_memo@,
            (exists|k: int| old(self).scopes_hit(def_id, k)) ==> final(self).scopes_memo@ == old(self).scopes_memo@
                && exists|k: int| old(self).scopes_hit(def_id, k) && old(self).scopes_memo@[k].value == r,
            !(exists|k: int| old(self).scopes_hit(def_id, k)) ==> final(self).scopes_memo@ == old(self).scopes_memo@.push(
                ScopesMemo { def_id, verified_at: old(self).revision, value: r },
            ),
    {
        let file = def_id.source_item_id.mfile_id;
        let changed = self.changed_at_exec(file);
        let mut k: usize = 0;
        while k < self.scopes_memo.len()
            invariant
                *self == *old(self),
                self.wf(),
                file == def_id.source_item_id.mfile_id,
                changed == self.changed_at(file),
                k <= self.scopes_memo@.len(),
                forall|j: int| 0 <= j < k ==> !#[trigger] self.scopes_hit(def_id, j),
            decreases self.scopes_memo@.len() - k,
        {
            let e = &self.scopes_memo[k];
            if e.def_id == def_id && changed <= e.verified_at {
                assert(self.memo_valid(self.scopes_memo@[k as int]));
                assert(self.scopes_hit(def_id, k as int));
                let v = e.value.clone();
                return v;
            }
            k = k + 1;
        }
        let value = fn_scopes(self, def_id);
        let ghost before = *self;
        self.scopes_memo.push(ScopesMemo { def_id, verified_at: self.revision, value: value.clone() });
        assert forall|k: int| 0 <= k < self.scopes_memo@.len() implies self.memo_valid(#[trigger] self.scopes_memo@[k]) by {
            if k < before.scopes_memo@.len() {
                assert(before.memo_valid(before.scopes_memo@[k]));
            }
        }
        value
    }
}

impl Database {
    /// The memoised raw declarations of the module that lives at `source`. An
    /// entry is reused, as the same shared value, while its file has not changed
    /// since the entry was made; otherwise they are collected and remembered.
    pub fn module_items(&mut self, source: ModuleSource) -> (r: Arc<InputModuleItems>)
        requires
            old(self).wf(),
        ensures
            final(self).wf(),
            r.decls@ == source_decls(old(self), source),
            r.imports@.map_values(|i: ImportDecl| i@) == source_imports(old(self), source),
            forall|m: MFileId| #[trigger] final(self).tree_of(m) == old(self).tree_of(m),
            final(self).revision == old(self).revision,
            final(self).cancel_requested == old(self).cancel_requested,
            final(self).scopes_memo@ == old(self).scopes_memo@,
            (exists|k: int| old(self).items_hit(source, k)) ==> final(self).items_memo@ == old(self).items_memo@
                && exists|k: int| old(self).items_hit(source, k) && old(self).items_memo@[k].value == r,
            !(exists|k: int| old(self).items_hit(source, k)) ==> final(self).items_memo@ == old(self).items_memo@.push(
                ItemsMemo { source, verified_at: old(self).revision, value: r },
            ),
    {
        let changed = self.changed_at_exec(source.file_id);
        let mut k: usize = 0;
        while k < self.items_memo.len()
            invariant
                *self == *old(self),
                self.wf(),
                changed == self.changed_at(source.file_id),
                k <= self.items_memo@.len(),
                forall|j: int| 0 <= j < k ==> !#[trigger] self.items_hit(source, j),
            decreases self.items_memo@.len() - k,
        {
            let e = &self.items_memo[k];
            if e.source == source && changed <= e.verified_at {
                assert(self.items_memo_valid(self.items_memo@[k as int]));
                assert(self.items_hit(source, k as int));
                return e.value.clone();
            }
            k = k + 1;
        }
        let value = source_module_items(self, source);
        let ghost before = *self;
        self.items_memo.push(ItemsMemo { source, verified_at: self.revision, value: value.clone() });
        assert forall|k: int| 0 <= k < self.items_memo@.len() implies self.items_memo_valid(#[trigger] self.items_memo@[k]) by {
            if k < before.items_memo@.len() {
                assert(before.items_memo_valid(before.items_memo@[k]));
            }
        }
        assert forall|k: int| 0 <= k < self.scopes_memo@.len() implies self.memo_valid(#[trigger] self.scopes_memo@[k]) by {
            assert(before.memo_valid(before.scopes_memo@[k]));
        }
        value
    }
}

} // verus!
