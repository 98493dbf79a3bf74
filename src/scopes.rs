//! Lexical scopes of a function body, and the shapes of structs and enums.
use vstd::prelude::*;
use crate::syntax::{FieldDef, Name, Stmt, VariantDef, copy_names};

verus! {

/// One scope: the names it binds and the scope that encloses it.
pub struct ScopeData {
    pub parent: Option<usize>,
    pub entries: Vec<Name>,
}

/// The scope tree of a function. Scope 0 holds the parameters; every `let` and
/// every nested block opens a new scope inside the one that is current there.
pub struct FnScopes {
    pub scopes: Vec<ScopeData>,
}

/// The statements that open a scope (`let` and block starts), in order.
pub open spec fn opening_stmts(body: Seq<Stmt>) -> Seq<Stmt>
    decreases body.len(),
{
    if body.len() == 0 {
        Seq::empty()
    } else if body.last() is Close {
        opening_stmts(body.drop_last())
    } else {
        opening_stmts(body.drop_last()).push(body.last())
    }
}

/// What the scope opened by a statement binds.
pub open spec fn bound_by(s: Stmt) -> Seq<Name> {
    match s {
        Stmt::Let(n) => seq![n],
        _ => Seq::empty(),
    }
}

/// After the statements `body`: the scope current there, and the stack of
/// scopes to return to at each `Close`. A `let` or a block start makes its new
/// scope current; a block start also saves the scope it was opened in.
pub open spec fn scope_walk(body: Seq<Stmt>) -> (int, Seq<int>)
    decreases body.len(),
{
    if body.len() == 0 {
        (0, Seq::empty())
    } else {
        let prev = scope_walk(body.drop_last());
        let fresh = 1 + opening_stmts(body.drop_last()).len() as int;
        match body.last() {
            Stmt::Let(_) => (fresh, prev.1),
            Stmt::Open => (fresh, prev.1.push(prev.0)),
            Stmt::Close => if prev.1.len() > 0 {
                (prev.1.last(), prev.1.drop_last())
            } else {
                prev
            },
        }
    }
}

/// The scope that the opening statement at `i` creates.
pub open spec fn scope_of_stmt(body: Seq<Stmt>, i: int) -> int {
    1 + opening_stmts(body.take(i)).len() as int
}

impl FnScopes {
    /// Each scope's parent comes before it.
    pub open spec fn wf(&self) -> bool {
        &&& self.scopes@.len() >= 1
        &&& self.scopes@[0].parent is None
        &&& forall|k: int| 1 <= k < self.scopes@.len() ==>
                ((#[trigger] self.scopes@[k]).parent matches Some(p) && p < k)
    }

    /// This is the scope tree of a function with these parameters and body: one
    /// scope for the parameters, then one per opening statement, in order, each
    /// inside the scope that is current just before its statement.
    pub open spec fn describes(&self, params: Seq<Name>, body: Seq<Stmt>) -> bool {
        &&& self.wf()
        &&& self.scopes@.len() == 1 + opening_stmts(body).len()
        &&& self.scopes@[0].entries@ == params
        &&& forall|k: int| 0 <= k < opening_stmts(body).len() ==>
                #[trigger] self.scopes@[k + 1].entries@ == bound_by(opening_stmts(body)[k])
        &&& forall|i: int| 0 <= i < body.len() && !(#[trigger] body[i] is Close) ==>
                self.scopes@[scope_of_stmt(body, i)].parent
                    == Some(scope_walk(body.take(i)).0 as usize)
    }

    /// The scope tree of a function with the given parameters and body.
    pub fn new(params: &Vec<Name>, body: &Vec<Stmt>) -> (r: FnScopes)
        ensures
            r.describes(params@, body@),
    {
        let mut scopes: Vec<ScopeData> = Vec::new();
        scopes.push(ScopeData { parent: None, entries: copy_names(params) });
        let mut current: usize = 0;
        let mut stack: Vec<usize> = Vec::new();
        let mut i: usize = 0;
        while i < body.len()
            invariant
                i <= body@.len(),
                scopes@.len() == 1 + opening_stmts(body@.take(i as int)).len(),
                current < scopes@.len(),
                forall|j: int| 0 <= j < stack@.len() ==> #[trigger] stack@[j] < scopes@.len(),
                scopes@[0].parent is None,
                scopes@[0].entries@ == params@,
                forall|k: int| 1 <= k < scopes@.len() ==>
                    ((#[trigger] scopes@[k]).parent matches Some(p) && p < k),
                forall|k: int| 0 <= k < opening_stmts(body@.take(i as int)).len() ==>
                    #[trigger] scopes@[k + 1].entries@ == bound_by(opening_stmts(body@.take(i as int))[k]),
                current as int == scope_walk(body@.take(i as int)).0,
                stack@.len() == scope_walk(body@.take(i as int)).1.len(),
                forall|j: int| 0 <= j < stack@.len() ==> #[trigger] stack@[j] as int == scope_walk(body@.take(i as int)).1[j],
                forall|j: int| 0 <= j < i && !(#[trigger] body@[j] is Close) ==>
                    scope_of_stmt(body@, j) < scopes@.len()
                    && scopes@[scope_of_stmt(body@, j)].parent
                        == Some(scope_walk(body@.take(j)).0 as usize),
            decreases body@.len() - i,
        {
            let s = body[i];
            assert(body@.take(i + 1).drop_last() =~= body@.take(i as int));
            assert(body@.take(i + 1).last() == body@[i as int]);
            let ghost before = scopes@;
            match s {
                Stmt::Let(n) => {
                    let mut e: Vec<Name> = Vec::new();
                    e.push(n);
                    assert(e@ =~= bound_by(s));
                    scopes.push(ScopeData { parent: Some(current), entries: e });
                    current = scopes.len() - 1;
                },
                Stmt::Open => {
                    stack.push(current);
                    let e: Vec<Name> = Vec::new();
                    assert(e@ =~= bound_by(s));
                    scopes.push(ScopeData { parent: Some(current), entries: e });
                    current = scopes.len() - 1;
                },
                Stmt::Close => {
                    if let Some(c) = stack.pop() {
                        current = c;
                    }
                },
            }
            proof {
                assert forall|j: int| 0 <= j < i + 1 && !(#[trigger] body@[j] is Close) implies
                    scope_of_stmt(body@, j) < scopes@.len()
                    && scopes@[scope_of_stmt(body@, j)].parent
                        == Some(scope_walk(body@.take(j)).0 as usize) by {
                    if j < i {
                        assert(scopes@[scope_of_stmt(body@, j)] == before[scope_of_stmt(body@, j)]);
                    }
                }
            }
            i = i + 1;
        }
        assert(body@.take(i as int) =~= body@);
        FnScopes { scopes }
    }
}

/// The shape of a struct: its name and its fields with their types.
pub struct StructData {
    pub name: Option<Name>,
    pub fields: Vec<FieldDef>,
}

/// The shape of an enum: its name and its variants with their payloads.
pub struct EnumData {
    pub name: Option<Name>,
    pub variants: Vec<VariantDef>,
}

} // verus!
