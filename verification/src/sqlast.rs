//! The statement shape the plan builder consumes: exactly the parts of a
//! parsed SQL statement that the builder inspects, as plain values. The
//! process wiring converts the external parser's output into this form.

use vstd::prelude::*;

verus! {

/// One identifier, already unquoted.
pub struct Ident {
    pub value: String,
}

/// A function call in a projection; the name may be multi-part.
pub struct FunctionCall {
    pub name: Vec<Ident>,
}

/// A projection expression: the kinds the builder distinguishes.
pub enum Expr {
    Identifier(Ident),
    Function(FunctionCall),
    Other,
}

/// One item of the SELECT list.
pub enum SelectItem {
    UnnamedExpr(Expr),
    Other,
}

/// One FROM-clause relation; the name may be schema-qualified.
pub enum TableFactor {
    Table { name: Vec<Ident> },
    Other,
}

/// One FROM-clause entry: a relation and the number of JOIN clauses
/// attached to it. The builder only rejects a non-zero count, so the
/// join bodies themselves are not carried.
pub struct TableWithJoins {
    pub relation: TableFactor,
    pub joins: usize,
}

/// The SELECT core. Clauses the builder rejects outright are carried as
/// presence flags or counts; clauses it consumes are carried in full.
pub struct Select {
    pub distinct: bool,
    pub top: bool,
    pub lateral_views: usize,
    pub cluster_by: usize,
    pub distribute_by: usize,
    pub sort_by: usize,
    pub from: Vec<TableWithJoins>,
    pub selection: bool,
    pub projection: Vec<SelectItem>,
}

/// A query body: a plain SELECT or any other set expression.
pub enum SetExpr {
    Select(Select),
    Other,
}

/// A full query: outer clauses as presence flags, plus the body.
pub struct Query {
    pub with: bool,
    pub order_by: usize,
    pub limit: bool,
    pub offset: bool,
    pub fetch: bool,
    pub body: SetExpr,
}

/// One parsed statement.
pub enum Statement {
    Query(Query),
    Other,
}

} // verus!
