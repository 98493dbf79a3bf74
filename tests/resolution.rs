use std::sync::Arc;

use ra_hir::cli::CreateJsonCmd;
use ra_hir::db::{
    enum_data, file_item, file_items, fn_scopes, m_source_file, struct_data, Database, DefId,
    DefKind, SourceItemId,
};
use ra_hir::module_tree::{modules, submodules, ModuleData, ModuleSource, ModuleTree, Submodule};
use ra_hir::nameres::{
    input_module_items, item_map, item_map_memoized, resolve, source_module_items, Binding, ItemMap,
    Resolution,
};
use ra_hir::syntax::{
    FieldDef, FileId, ImportDecl, Item, ItemNode, MFileId, MacroCallId, Name, PathRoot, SourceFile,
    Stmt, VariantDef,
};

const A: Name = Name(1);
const B: Name = Name(2);
const C: Name = Name(3);
const POINT: Name = Name(10);
const F: Name = Name(11);
const G: Name = Name(12);

fn top(item: Item) -> ItemNode {
    ItemNode { parent: None, item }
}

fn func(name: Name) -> Item {
    Item::Function { name: Some(name), params: vec![], body: vec![] }
}

fn strukt(name: Name) -> Item {
    Item::Struct { name: Some(name), fields: vec![] }
}

fn decl_mod(name: Name) -> Item {
    Item::Module { name: Some(name), has_semi: true }
}

fn import(root: PathRoot, segments: Vec<Name>, glob: bool, alias: Option<Name>) -> Item {
    Item::Import(ImportDecl { root, segments, glob, alias })
}

fn file(items: Vec<ItemNode>) -> SourceFile {
    SourceFile { items }
}

fn file_module(f: u32, parent: Option<usize>, children: Vec<(Name, usize)>) -> ModuleData {
    ModuleData { source: ModuleSource { file_id: MFileId::File(FileId(f)), inline: None }, parent, children }
}

fn def(f: u32, slot: usize, kind: DefKind) -> DefId {
    DefId { source_item_id: SourceItemId { mfile_id: MFileId::File(FileId(f)), item_id: Some(slot) }, kind }
}

fn binding(map: &ItemMap, module: usize, name: Name) -> Option<Binding> {
    map.per_module[module].iter().copied().find(|b| b.name == name)
}

/// Root declares modules a, b, c in files 1, 2, 3.
fn three_module_tree() -> ModuleTree {
    ModuleTree {
        mods: vec![
            file_module(0, None, vec![(A, 1), (B, 2), (C, 3)]),
            file_module(1, Some(0), vec![]),
            file_module(2, Some(0), vec![]),
            file_module(3, Some(0), vec![]),
        ],
    }
}

fn store(files: Vec<SourceFile>) -> Database {
    let mut db = Database::new();
    for (i, f) in files.into_iter().enumerate() {
        db.set_text(FileId(i as u32), f);
    }
    db
}

fn root_file() -> SourceFile {
    file(vec![top(decl_mod(A)), top(decl_mod(B)), top(decl_mod(C))])
}

#[test]
fn use_of_struct_maps_to_same_definition() {
    let db = store(vec![
        root_file(),
        file(vec![top(strukt(POINT))]),
        file(vec![top(import(PathRoot::Crate, vec![A, POINT], false, None))]),
        file(vec![]),
    ]);
    let tree = three_module_tree();
    let map = item_map(&db, &tree).unwrap();
    let in_a = binding(&map, 1, POINT).unwrap();
    let in_b = binding(&map, 2, POINT).unwrap();
    assert_eq!(in_a.res, Resolution::Def(def(1, 0, DefKind::Struct)));
    assert_eq!(in_b.res, in_a.res);
    assert!(!in_b.glob);
}

#[test]
fn glob_reexport_binds_function() {
    let db = store(vec![
        root_file(),
        file(vec![top(import(PathRoot::Crate, vec![B], true, None))]),
        file(vec![top(func(F))]),
        file(vec![]),
    ]);
    let tree = three_module_tree();
    let map = item_map(&db, &tree).unwrap();
    let f_in_b = binding(&map, 2, F).unwrap();
    let f_in_a = binding(&map, 1, F).unwrap();
    assert_eq!(f_in_b.res, Resolution::Def(def(2, 0, DefKind::Function)));
    assert_eq!(f_in_a.res, f_in_b.res);
    assert!(f_in_a.glob);
    assert_eq!(map.reexports, vec![vec![], vec![2], vec![], vec![]]);
}

#[test]
fn edit_of_one_file_keeps_other_memos() {
    let with_body = |name: Name| Item::Function { name: Some(name), params: vec![Name(50)], body: vec![Stmt::Let(Name(51))] };
    let mut db = store(vec![
        root_file(),
        file(vec![top(with_body(F))]),
        file(vec![]),
        file(vec![top(with_body(G))]),
    ]);
    let tree = three_module_tree();
    let c_def = def(3, 0, DefKind::Function);
    let a_def = def(1, 0, DefKind::Function);
    let c_before = db.function_scopes(c_def);
    let a_before = db.function_scopes(a_def);
    assert!(Arc::ptr_eq(&c_before, &db.function_scopes(c_def)));
    assert!(Arc::ptr_eq(&a_before, &db.function_scopes(a_def)));
    let map_before = item_map(&db, &tree).unwrap();
    assert!(binding(&map_before, 1, F).is_some());

    db.set_text(FileId(1), file(vec![]));
    let c_after = db.function_scopes(c_def);
    assert!(Arc::ptr_eq(&c_before, &c_after));
    let map_after = item_map(&db, &tree).unwrap();
    assert!(binding(&map_after, 1, F).is_none());
    assert_eq!(map_after.per_module[3], map_before.per_module[3]);
    assert_eq!(input_module_items(&db, &tree, 1).decls.len(), 0);
    assert_eq!(input_module_items(&db, &tree, 3).decls, vec![(G, c_def)]);
}

#[test]
fn edit_invalidates_only_its_module_items() {
    let mut db = store(vec![
        root_file(),
        file(vec![top(func(F))]),
        file(vec![top(import(PathRoot::Crate, vec![A, F], false, None))]),
        file(vec![top(func(G))]),
    ]);
    let tree = three_module_tree();
    let a_src = tree.mods[1].source;
    let c_src = tree.mods[3].source;
    let map_before = item_map_memoized(&mut db, &tree).unwrap();
    let a_before = db.module_items(a_src);
    let c_before = db.module_items(c_src);
    assert_eq!(binding(&map_before, 2, F).unwrap().res, Resolution::Def(def(1, 0, DefKind::Function)));

    db.set_text(FileId(1), file(vec![top(func(G))]));
    let a_after = db.module_items(a_src);
    let c_after = db.module_items(c_src);
    assert!(Arc::ptr_eq(&c_before, &c_after));
    assert!(!Arc::ptr_eq(&a_before, &a_after));
    assert_eq!(a_after.decls, vec![(G, def(1, 0, DefKind::Function))]);
    let map_after = item_map_memoized(&mut db, &tree).unwrap();
    assert!(binding(&map_after, 1, F).is_none());
    assert_eq!(binding(&map_after, 2, F).unwrap().res, Resolution::Unresolved);
    assert_eq!(map_after.per_module[3], map_before.per_module[3]);
    assert_eq!(map_after.per_module, item_map(&db, &tree).unwrap().per_module);
    assert_eq!(source_module_items(&db, c_src).decls, c_after.decls);
}

#[test]
fn rewritten_function_gets_new_scopes() {
    let mut db = store(vec![file(vec![top(Item::Function { name: Some(F), params: vec![Name(50)], body: vec![] })])]);
    let d = def(0, 0, DefKind::Function);
    let before = db.function_scopes(d);
    assert_eq!(before.scopes[0].entries, vec![Name(50)]);
    db.set_text(FileId(0), file(vec![top(Item::Function { name: Some(F), params: vec![Name(60)], body: vec![] })]));
    let after = db.function_scopes(d);
    assert!(!Arc::ptr_eq(&before, &after));
    assert_eq!(after.scopes[0].entries, vec![Name(60)]);
}

#[test]
fn macro_file_without_expansion_gives_empty_module() {
    let db = store(vec![file(vec![top(func(F))])]);
    let tree = ModuleTree {
        mods: vec![
            file_module(0, None, vec![]),
            ModuleData {
                source: ModuleSource { file_id: MFileId::Macro(MacroCallId(7)), inline: None },
                parent: Some(0),
                children: vec![],
            },
        ],
    };
    let map = item_map(&db, &tree).unwrap();
    assert_eq!(map.per_module.len(), 2);
    assert!(map.per_module[1].is_empty());
    assert_eq!(m_source_file(&db, MFileId::Macro(MacroCallId(7))).items.len(), 0);
}

#[test]
fn macro_file_with_expansion_is_read() {
    let mut db = store(vec![file(vec![])]);
    db.set_expansion(MacroCallId(2), Some(file(vec![top(strukt(POINT))])));
    let tree = ModuleTree {
        mods: vec![
            file_module(0, None, vec![(A, 1)]),
            ModuleData {
                source: ModuleSource { file_id: MFileId::Macro(MacroCallId(2)), inline: None },
                parent: Some(0),
                children: vec![],
            },
        ],
    };
    let map = item_map(&db, &tree).unwrap();
    let p = binding(&map, 1, POINT).unwrap();
    let expected = DefId {
        source_item_id: SourceItemId { mfile_id: MFileId::Macro(MacroCallId(2)), item_id: Some(0) },
        kind: DefKind::Struct,
    };
    assert_eq!(p.res, Resolution::Def(expected));
}

#[test]
fn item_map_twice_is_identical() {
    let db = store(vec![
        root_file(),
        file(vec![top(import(PathRoot::Crate, vec![B], true, None)), top(strukt(POINT))]),
        file(vec![top(func(F)), top(import(PathRoot::Super, vec![A, POINT], false, None))]),
        file(vec![top(import(PathRoot::Crate, vec![A, F], false, Some(G)))]),
    ]);
    let tree = three_module_tree();
    let first = item_map(&db, &tree).unwrap();
    let second = item_map(&db, &tree).unwrap();
    assert_eq!(first.per_module, second.per_module);
    assert_eq!(first.passes, second.passes);
}

#[test]
fn direct_bindings_survive_resolution() {
    let db = store(vec![
        root_file(),
        file(vec![top(func(F)), top(import(PathRoot::Crate, vec![B], true, None))]),
        file(vec![top(func(F)), top(func(G))]),
        file(vec![]),
    ]);
    let tree = three_module_tree();
    let map = item_map(&db, &tree).unwrap();
    assert_eq!(map.per_module[1][0], Binding { name: F, res: Resolution::Def(def(1, 0, DefKind::Function)), glob: false });
    assert_eq!(map.per_module[0][0], Binding { name: A, res: Resolution::Module(1), glob: false });
    assert_eq!(map.per_module[0][1], Binding { name: B, res: Resolution::Module(2), glob: false });
    assert_eq!(map.per_module[0][2], Binding { name: C, res: Resolution::Module(3), glob: false });
}

#[test]
fn glob_does_not_override_direct() {
    let db = store(vec![
        root_file(),
        file(vec![top(import(PathRoot::Crate, vec![B], true, None)), top(func(F))]),
        file(vec![top(func(F)), top(func(G))]),
        file(vec![]),
    ]);
    let tree = three_module_tree();
    let map = item_map(&db, &tree).unwrap();
    let f = binding(&map, 1, F).unwrap();
    assert_eq!(f.res, Resolution::Def(def(1, 1, DefKind::Function)));
    assert!(!f.glob);
    let g = binding(&map, 1, G).unwrap();
    assert_eq!(g.res, Resolution::Def(def(2, 1, DefKind::Function)));
    assert!(g.glob);
}

#[test]
fn explicit_import_replaces_glob() {
    let db = store(vec![
        root_file(),
        file(vec![
            top(import(PathRoot::Crate, vec![B], true, None)),
            top(import(PathRoot::Crate, vec![C, F], false, None)),
        ]),
        file(vec![top(func(F))]),
        file(vec![top(func(F))]),
    ]);
    let tree = three_module_tree();
    let map = item_map(&db, &tree).unwrap();
    let f = binding(&map, 1, F).unwrap();
    assert_eq!(f.res, Resolution::Def(def(3, 0, DefKind::Function)));
    assert!(!f.glob);
}

#[test]
fn chain_of_imports_converges_within_bound() {
    // c imports from b, which imports from a: two passes add bindings, a third sees none.
    let db = store(vec![
        root_file(),
        file(vec![top(func(F))]),
        file(vec![top(import(PathRoot::Crate, vec![A, F], false, None))]),
        file(vec![top(import(PathRoot::Crate, vec![B, F], false, None))]),
    ]);
    let tree = three_module_tree();
    let map = item_map(&db, &tree).unwrap();
    assert_eq!(map.passes, 3);
    assert!(map.passes <= tree.mods.len() + 1);
    assert_eq!(binding(&map, 3, F).unwrap().res, Resolution::Def(def(1, 0, DefKind::Function)));
}

#[test]
fn cyclic_globs_converge() {
    let db = store(vec![
        root_file(),
        file(vec![top(import(PathRoot::Crate, vec![B], true, None)), top(func(F))]),
        file(vec![top(import(PathRoot::Crate, vec![A], true, None)), top(func(G))]),
        file(vec![]),
    ]);
    let tree = three_module_tree();
    let map = item_map(&db, &tree).unwrap();
    assert!(map.passes <= 5);
    assert_eq!(binding(&map, 1, G).unwrap().res, Resolution::Def(def(2, 1, DefKind::Function)));
    assert_eq!(binding(&map, 2, F).unwrap().res, Resolution::Def(def(1, 1, DefKind::Function)));
}

#[test]
fn unresolved_import_is_marked() {
    let db = store(vec![
        root_file(),
        file(vec![top(import(PathRoot::Crate, vec![B, POINT], false, None))]),
        file(vec![]),
        file(vec![]),
    ]);
    let tree = three_module_tree();
    let map = item_map(&db, &tree).unwrap();
    assert_eq!(binding(&map, 1, POINT).unwrap(), Binding { name: POINT, res: Resolution::Unresolved, glob: false });
}

#[test]
fn super_of_root_does_not_resolve() {
    let db = store(vec![file(vec![top(import(PathRoot::Super, vec![F], false, None))])]);
    let tree = ModuleTree { mods: vec![file_module(0, None, vec![])] };
    let map = item_map(&db, &tree).unwrap();
    assert_eq!(map.per_module[0], vec![Binding { name: F, res: Resolution::Unresolved, glob: false }]);
}

#[test]
fn alias_and_self_paths() {
    let db = store(vec![file(vec![
        top(func(F)),
        top(import(PathRoot::SelfMod, vec![F], false, Some(G))),
    ])]);
    let tree = ModuleTree { mods: vec![file_module(0, None, vec![])] };
    let map = item_map(&db, &tree).unwrap();
    assert_eq!(binding(&map, 0, G).unwrap().res, Resolution::Def(def(0, 0, DefKind::Function)));
}

#[test]
fn duplicate_direct_names_keep_first() {
    let db = store(vec![file(vec![top(func(F)), top(strukt(F))])]);
    let tree = ModuleTree { mods: vec![file_module(0, None, vec![])] };
    let map = item_map(&db, &tree).unwrap();
    assert_eq!(map.per_module[0], vec![Binding { name: F, res: Resolution::Def(def(0, 0, DefKind::Function)), glob: false }]);
    assert_eq!(map.ambiguous, vec![vec![F]]);
}

#[test]
fn child_module_and_declaration_clash() {
    let db = store(vec![file(vec![top(decl_mod(A)), top(func(A))]), file(vec![])]);
    let tree = ModuleTree { mods: vec![file_module(0, None, vec![(A, 1)]), file_module(1, Some(0), vec![])] };
    let map = item_map(&db, &tree).unwrap();
    assert_eq!(binding(&map, 0, A).unwrap().res, Resolution::Module(1));
    assert_eq!(map.ambiguous, vec![vec![A], vec![]]);
}

#[test]
fn submodule_declarations_are_raw_items() {
    let db = store(vec![file(vec![
        top(Item::Module { name: Some(A), has_semi: false }),
        ItemNode { parent: Some(0), item: func(G) },
        top(decl_mod(B)),
    ])]);
    let tree = ModuleTree { mods: vec![file_module(0, None, vec![])] };
    let items = input_module_items(&db, &tree, 0);
    assert_eq!(items.decls, vec![(A, def(0, 0, DefKind::Module)), (B, def(0, 2, DefKind::Module))]);
}

#[test]
fn unresolved_import_replaces_glob_binding() {
    let db = store(vec![
        root_file(),
        file(vec![
            top(import(PathRoot::Crate, vec![B], true, None)),
            top(import(PathRoot::Crate, vec![C, F], false, None)),
        ]),
        file(vec![top(func(F))]),
        file(vec![]),
    ]);
    let tree = three_module_tree();
    let map = item_map(&db, &tree).unwrap();
    assert_eq!(binding(&map, 1, F).unwrap(), Binding { name: F, res: Resolution::Unresolved, glob: false });
}

#[test]
fn cancelled_item_map_fails() {
    let mut db = store(vec![file(vec![top(func(F))])]);
    let tree = ModuleTree { mods: vec![file_module(0, None, vec![])] };
    db.request_cancel();
    assert!(item_map(&db, &tree).is_err());
    assert!(submodules(&db, ModuleSource { file_id: MFileId::File(FileId(0)), inline: None }).is_err());
    let inputs = vec![input_module_items(&db, &tree, 0)];
    assert!(resolve(&db, &tree, &inputs).is_err());
    db.set_text(FileId(0), file(vec![]));
    assert!(item_map(&db, &tree).is_ok());
}

#[test]
fn submodules_declared_and_inline() {
    let db = store(vec![file(vec![
        top(decl_mod(A)),
        top(Item::Module { name: Some(B), has_semi: false }),
        ItemNode { parent: Some(1), item: decl_mod(C) },
        top(Item::Module { name: None, has_semi: true }),
        top(decl_mod(A)),
    ])]);
    let root = ModuleSource { file_id: MFileId::File(FileId(0)), inline: None };
    let subs = submodules(&db, root).unwrap();
    assert_eq!(
        *subs,
        vec![
            Submodule::Declaration(A),
            Submodule::Definition(B, ModuleSource { file_id: MFileId::File(FileId(0)), inline: Some(1) }),
            Submodule::Declaration(A),
        ]
    );
    let inner = submodules(&db, ModuleSource { file_id: MFileId::File(FileId(0)), inline: Some(1) }).unwrap();
    assert_eq!(*inner, vec![Submodule::Declaration(C)]);
    let tree = m_source_file(&db, MFileId::File(FileId(0)));
    assert_eq!(modules(&tree, None), vec![(A, 0), (B, 1), (A, 4)]);
}

#[test]
fn inline_module_items_are_collected() {
    let db = store(vec![file(vec![
        top(Item::Module { name: Some(A), has_semi: false }),
        ItemNode { parent: Some(0), item: func(F) },
        top(func(G)),
        ItemNode { parent: Some(0), item: import(PathRoot::Super, vec![G], false, None) },
    ])]);
    let tree = ModuleTree {
        mods: vec![
            file_module(0, None, vec![(A, 1)]),
            ModuleData { source: ModuleSource { file_id: MFileId::File(FileId(0)), inline: Some(0) }, parent: Some(0), children: vec![] },
        ],
    };
    let inner = input_module_items(&db, &tree, 1);
    assert_eq!(inner.decls, vec![(F, def(0, 1, DefKind::Function))]);
    assert_eq!(inner.imports.len(), 1);
    let map = item_map(&db, &tree).unwrap();
    assert_eq!(binding(&map, 1, G).unwrap().res, Resolution::Def(def(0, 2, DefKind::Function)));
    assert!(binding(&map, 0, F).is_none());
}

#[test]
fn unnamed_declarations_are_skipped() {
    let db = store(vec![file(vec![
        top(Item::Function { name: None, params: vec![], body: vec![] }),
        top(Item::Enum { name: None, variants: vec![] }),
        top(strukt(POINT)),
    ])]);
    let tree = ModuleTree { mods: vec![file_module(0, None, vec![])] };
    assert_eq!(input_module_items(&db, &tree, 0).decls, vec![(POINT, def(0, 2, DefKind::Struct))]);
}

#[test]
fn struct_and_enum_shapes() {
    let db = store(vec![file(vec![
        top(Item::Struct {
            name: Some(POINT),
            fields: vec![FieldDef { name: Name(20), ty: Name(90) }, FieldDef { name: Name(21), ty: Name(91) }],
        }),
        top(Item::Enum {
            name: Some(Name(30)),
            variants: vec![
                VariantDef { name: Name(31), payload: vec![] },
                VariantDef { name: Name(32), payload: vec![Name(90), Name(91)] },
            ],
        }),
    ])]);
    let s = struct_data(&db, def(0, 0, DefKind::Struct));
    assert_eq!(s.name, Some(POINT));
    assert_eq!(s.fields, vec![FieldDef { name: Name(20), ty: Name(90) }, FieldDef { name: Name(21), ty: Name(91) }]);
    let e = enum_data(&db, def(0, 1, DefKind::Enum));
    assert_eq!(e.name, Some(Name(30)));
    assert_eq!(
        e.variants,
        vec![VariantDef { name: Name(31), payload: vec![] }, VariantDef { name: Name(32), payload: vec![Name(90), Name(91)] }]
    );
}

#[test]
fn function_scope_tree() {
    let body = vec![Stmt::Let(Name(1)), Stmt::Open, Stmt::Let(Name(2)), Stmt::Close, Stmt::Let(Name(3))];
    let db = store(vec![file(vec![top(Item::Function { name: Some(F), params: vec![Name(9)], body })])]);
    let scopes = fn_scopes(&db, def(0, 0, DefKind::Function));
    assert_eq!(scopes.scopes.len(), 5);
    assert_eq!(scopes.scopes[0].entries, vec![Name(9)]);
    assert_eq!(scopes.scopes[0].parent, None);
    assert_eq!(scopes.scopes[1].entries, vec![Name(1)]);
    assert_eq!(scopes.scopes[1].parent, Some(0));
    assert_eq!(scopes.scopes[2].entries, vec![]);
    assert_eq!(scopes.scopes[2].parent, Some(1));
    assert_eq!(scopes.scopes[3].entries, vec![Name(2)]);
    assert_eq!(scopes.scopes[3].parent, Some(2));
    assert_eq!(scopes.scopes[4].entries, vec![Name(3)]);
    assert_eq!(scopes.scopes[4].parent, Some(1));
}

#[test]
fn content_store_revisions() {
    let mut db = Database::new();
    assert_eq!(db.revision, 0);
    assert_eq!(db.source_file(FileId(4)).items.len(), 0);
    db.set_text(FileId(4), file(vec![top(func(F))]));
    assert_eq!(db.revision, 1);
    assert_eq!(db.source_file(FileId(4)).items.len(), 1);
    assert_eq!(db.source_file(FileId(2)).items.len(), 0);
    db.remove_file(FileId(4));
    assert_eq!(db.revision, 2);
    assert_eq!(db.source_file(FileId(4)).items.len(), 0);
    db.set_expansion(MacroCallId(0), None);
    assert_eq!(db.revision, 3);
    assert!(db.expand_macro_invocation(MacroCallId(0)).is_none());
    assert!(db.check_canceled().is_ok());
}

#[test]
fn item_index_and_node_lookup() {
    let db = store(vec![file(vec![top(func(F)), top(strukt(POINT))])]);
    let idx = file_items(&db, MFileId::File(FileId(0)));
    assert_eq!(idx.file_id, MFileId::File(FileId(0)));
    assert_eq!(idx.source.items.len(), 2);
    let node = file_item(&db, SourceItemId { mfile_id: MFileId::File(FileId(0)), item_id: Some(1) });
    assert_eq!(node.slot, Some(1));
    assert!(matches!(node.file.items[1].item, Item::Struct { .. }));
    let root = file_item(&db, SourceItemId { mfile_id: MFileId::File(FileId(0)), item_id: None });
    assert_eq!(root.slot, None);
    assert_eq!(root.file.items.len(), 2);
}

#[test]
fn command_value_exists() {
    let _cmd = CreateJsonCmd {};
}

#[test]
fn chain_inside_one_module_resolves_in_one_pass() {
    let db = store(vec![file(vec![
        top(func(F)),
        top(import(PathRoot::SelfMod, vec![F], false, Some(Name(40)))),
        top(import(PathRoot::SelfMod, vec![Name(40)], false, Some(Name(41)))),
        top(import(PathRoot::SelfMod, vec![Name(41)], false, Some(Name(42)))),
    ])]);
    let tree = ModuleTree { mods: vec![file_module(0, None, vec![])] };
    let map = item_map(&db, &tree).unwrap();
    assert_eq!(map.passes, 2);
    let f = Resolution::Def(def(0, 0, DefKind::Function));
    assert_eq!(binding(&map, 0, Name(40)).unwrap().res, f);
    assert_eq!(binding(&map, 0, Name(41)).unwrap().res, f);
    assert_eq!(binding(&map, 0, Name(42)).unwrap().res, f);
}

#[test]
fn pass_cap_marks_long_chains_unresolved() {
    // Each link crosses between a and b, so each pass resolves one; the cap is four passes.
    let x = Name(40);
    let db = store(vec![
        file(vec![top(decl_mod(A)), top(decl_mod(B))]),
        file(vec![
            top(import(PathRoot::Crate, vec![B, x], false, Some(Name(41)))),
            top(import(PathRoot::Crate, vec![B, Name(42)], false, Some(Name(43)))),
            top(import(PathRoot::Crate, vec![B, Name(44)], false, Some(Name(45)))),
        ]),
        file(vec![
            top(func(x)),
            top(import(PathRoot::Crate, vec![A, Name(41)], false, Some(Name(42)))),
            top(import(PathRoot::Crate, vec![A, Name(43)], false, Some(Name(44)))),
        ]),
    ]);
    let tree = ModuleTree {
        mods: vec![file_module(0, None, vec![(A, 1), (B, 2)]), file_module(1, Some(0), vec![]), file_module(2, Some(0), vec![])],
    };
    let map = item_map(&db, &tree).unwrap();
    assert_eq!(map.passes, 4);
    let f = Resolution::Def(def(2, 0, DefKind::Function));
    assert_eq!(binding(&map, 1, Name(41)).unwrap().res, f);
    assert_eq!(binding(&map, 2, Name(42)).unwrap().res, f);
    assert_eq!(binding(&map, 1, Name(43)).unwrap().res, f);
    assert_eq!(binding(&map, 2, Name(44)).unwrap().res, f);
    assert_eq!(binding(&map, 1, Name(45)).unwrap().res, Resolution::Unresolved);
}
