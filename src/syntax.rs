//! The syntactic model that the queries work on: a source file is an ordered list
//! of declaration nodes, each addressed by its slot.
use vstd::prelude::*;

verus! {

/// An interned identifier.
#[derive(Clone, Copy, Debug, PartialEq, Eq, Hash, Structural)]
pub struct Name(pub u64);

/// A handle to one physical file of the content store.
#[derive(Clone, Copy, Debug, PartialEq, Eq, Hash, Structural)]
pub struct FileId(pub u32);

/// A handle to one macro invocation, whose expansion is synthesised source.
#[derive(Clone, Copy, Debug, PartialEq, Eq, Hash, Structural)]
pub struct MacroCallId(pub u32);

/// A unit of source text: a physical file or a macro expansion.
#[derive(Clone, Copy, Debug, PartialEq, Eq, Hash, Structural)]
pub enum MFileId {
    File(FileId),
    Macro(MacroCallId),
}

/// One statement of a function body, as far as scoping is concerned.
#[derive(Clone, Copy, Debug, PartialEq, Eq, Structural)]
pub enum Stmt {
    /// `let name = ...;`: the binding is visible from here to the end of the block.
    Let(Name),
    /// The start of a nested block.
    Open,
    /// The end of the innermost open block.
    Close,
}

/// Where an import path starts.
#[derive(Clone, Copy, Debug, PartialEq, Eq, Structural)]
pub enum PathRoot {
    /// The root module of the unit (`crate::a` or a plain `a`).
    Crate,
    /// The importing module itself (`self::a`).
    SelfMod,
    /// The parent of the importing module (`super::a`).
    Super,
}

/// An import declaration, kept verbatim: nothing in it is resolved yet.
#[derive(Clone, Debug)]
pub struct ImportDecl {
    pub root: PathRoot,
    pub segments: Vec<Name>,
    /// `use path::*;`
    pub glob: bool,
    /// `use path as alias;`
    pub alias: Option<Name>,
}

/// A named field and the name of its type.
#[derive(Clone, Copy, Debug, PartialEq, Eq, Structural)]
pub struct FieldDef {
    pub name: Name,
    pub ty: Name,
}

/// An enum variant: its name and the types of its payload, in order.
#[derive(Clone, Debug, PartialEq, Eq)]
pub struct VariantDef {
    pub name: Name,
    pub payload: Vec<Name>,
}

/// A variant as a value.
pub open spec fn variant_model(v: VariantDef) -> (Name, Seq<Name>) {
    (v.name, v.payload@)
}

/// A declaration node. A name of `None` is a malformed declaration.
#[derive(Clone, Debug)]
pub enum Item {
    Function { name: Option<Name>, params: Vec<Name>, body: Vec<Stmt> },
    Struct { name: Option<Name>, fields: Vec<FieldDef> },
    Enum { name: Option<Name>, variants: Vec<VariantDef> },
    /// `mod name;` when `has_semi`, else an inline module whose body is made of
    /// the nodes whose parent is this node's slot.
    Module { name: Option<Name>, has_semi: bool },
    Import(ImportDecl),
}

/// A node of the file: the declaration and the slot of the inline module that
/// encloses it (`None` at the top level of the file).
#[derive(Clone, Debug)]
pub struct ItemNode {
    pub parent: Option<usize>,
    pub item: Item,
}

/// A parsed source file: every declaration node in source order. The slot of a
/// node is its position in `items`.
#[derive(Clone, Debug)]
pub struct SourceFile {
    pub items: Vec<ItemNode>,
}

impl SourceFile {
    /// The tree of a file with no text.
    pub fn empty() -> (r: SourceFile)
        ensures
            r.items@.len() == 0,
    {
        SourceFile { items: Vec::new() }
    }
}

/// A copy of a list of names.
pub(crate) fn copy_names(v: &Vec<Name>) -> (r: Vec<Name>)
    ensures
        r@ == v@,
{
    let mut r: Vec<Name> = Vec::new();
    let mut i: usize = 0;
    while i < v.len()
        invariant
            i <= v@.len(),
            r@ == v@.take(i as int),
        decreases v@.len() - i,
    {
        r.push(v[i]);
        i = i + 1;
        assert(r@ =~= v@.take(i as int));
    }
    assert(v@.take(i as int) =~= v@);
    r
}

/// A copy of a list of fields.
pub(crate) fn copy_fields(v: &Vec<FieldDef>) -> (r: Vec<FieldDef>)
    ensures
        r@ == v@,
{
    let mut r: Vec<FieldDef> = Vec::new();
    let mut i: usize = 0;
    while i < v.len()
        invariant
            i <= v@.len(),
            r@ == v@.take(i as int),
        decreases v@.len() - i,
    {
        r.push(v[i]);
        i = i + 1;
        assert(r@ =~= v@.take(i as int));
    }
    assert(v@.take(i as int) =~= v@);
    r
}

/// A copy of a list of variants.
pub(crate) fn copy_variants(v: &Vec<VariantDef>) -> (r: Vec<VariantDef>)
    ensures
        r@.map_values(|x: VariantDef| variant_model(x)) == v@.map_values(|x: VariantDef| variant_model(x)),
{
    let mut r: Vec<VariantDef> = Vec::new();
    let mut i: usize = 0;
    while i < v.len()
        invariant
            i <= v@.len(),
            r@.len() == i,
            r@.map_values(|x: VariantDef| variant_model(x)) == v@.take(i as int).map_values(|x: VariantDef| variant_model(x)),
        decreases v@.len() - i,
    {
        let ghost before = r@;
        r.push(VariantDef { name: v[i].name, payload: copy_names(&v[i].payload) });
        i = i + 1;
        assert forall|j: int| 0 <= j < i implies #[trigger] variant_model(r@[j]) == variant_model(v@.take(i as int)[j]) by {
            if j < i - 1 {
                assert(r@[j] == before[j]);
                assert(before.map_values(|x: VariantDef| variant_model(x))[j] == v@.take(i - 1).map_values(|x: VariantDef| variant_model(x))[j]);
            }
        }
        assert(r@.map_values(|x: VariantDef| variant_model(x)) =~= v@.take(i as int).map_values(|x: VariantDef| variant_model(x)));
    }
    assert(v@.take(i as int) =~= v@);
    r
}

} // verus!
