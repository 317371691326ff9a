//! Logical query plans: an arena of operator nodes built bottom-up from one
//! statement, validating eagerly and rejecting every clause outside the
//! supported subset with a named reason.

use crate::sqlast::{
    Expr, Query, Select, SelectItem, SetExpr, Statement, TableFactor, TableWithJoins,
};
use vstd::prelude::*;

verus! {

/// How a join combines its two inputs; only `Cross` is produced today.
#[derive(Debug)]
pub enum JoinMode {
    Inner,
    Left,
    Right,
    FullOuter,
    Cross,
}

/// What one plan node does.
#[derive(Debug)]
pub enum LQPNodeData {
    Projection,
    Table { schema_name: Option<String>, table_name: String },
    Join(JoinMode),
    Filter,
}

/// The nullary session functions a projection may call.
#[derive(Debug)]
pub enum FunctionType {
    CurrentSchema,
    SessionUser,
}

/// What one plan expression computes.
#[derive(Debug)]
pub enum LQPExpressionData {
    Function(FunctionType),
}

/// One expression of the plan; arguments index the plan's expression table.
#[derive(Debug)]
pub struct LQPExpression {
    pub arguments: Vec<usize>,
    pub data: LQPExpressionData,
}

/// One plan operator: up to two input links, a list of expression indices,
/// and a non-owning back-reference to the consuming node.
#[derive(Debug)]
pub struct LQPNode {
    pub output: Option<usize>,
    pub inputs: [Option<usize>; 2],
    pub expressions: Vec<usize>,
    pub data: LQPNodeData,
}

/// A rooted plan graph: the node arena, the expression table, and the root.
#[derive(Debug)]
pub struct LQP {
    pub expressions: Vec<LQPExpression>,
    pub nodes: Vec<LQPNode>,
    pub root_node: usize,
}

/// Why a statement was rejected.
#[derive(Debug)]
pub enum LQPError {
    Generic,
    NotSupported(String),
    ASTError(String),
}

/// A plan error with its reason as a mathematical string.
pub enum PlanErr {
    Generic,
    NotSupported(Seq<char>),
    ASTError(Seq<char>),
}

/// The mathematical value of an `LQPError`.
pub open spec fn err_view(e: LQPError) -> PlanErr {
    match e {
        LQPError::Generic => PlanErr::Generic,
        LQPError::NotSupported(m) => PlanErr::NotSupported(m@),
        LQPError::ASTError(m) => PlanErr::ASTError(m@),
    }
}

impl LQPError {
    /// The reason rendered for an error response, mirroring the error's
    /// display form.
    pub fn to_message(&self) -> (r: String)
        ensures
            r@ == err_message(err_view(*self)),
    {
        match self {
            LQPError::Generic => "Generic".to_owned(),
            LQPError::NotSupported(m) => {
                let mut s = "Not supported: ".to_owned();
                s.append(m.as_str());
                s
            },
            LQPError::ASTError(m) => {
                let mut s = "AST Error: ".to_owned();
                s.append(m.as_str());
                s
            },
        }
    }
}

/// The display form of a plan error.
pub open spec fn err_message(e: PlanErr) -> Seq<char> {
    match e {
        PlanErr::Generic => "Generic"@,
        PlanErr::NotSupported(m) => "Not supported: "@ + m,
        PlanErr::ASTError(m) => "AST Error: "@ + m,
    }
}

impl LQP {
    /// Append a node; its index is the arena's previous length.
    pub fn add_node(&mut self, node: LQPNode) -> (r: usize)
        ensures
            final(self).nodes@ == old(self).nodes@.push(node),
            final(self).expressions@ == old(self).expressions@,
            final(self).root_node == old(self).root_node,
            r == old(self).nodes@.len(),
    {
        self.nodes.push(node);
        self.nodes.len() - 1
    }

    /// Append an expression; its index is the table's previous length.
    pub fn add_expression(&mut self, expression: LQPExpression) -> (r: usize)
        ensures
            final(self).expressions@ == old(self).expressions@.push(expression),
            final(self).nodes@ == old(self).nodes@,
            final(self).root_node == old(self).root_node,
            r == old(self).expressions@.len(),
    {
        self.expressions.push(expression);
        self.expressions.len() - 1
    }

    /// Set a node's back-reference to the node that consumes it.
    pub fn set_output(&mut self, node_id: usize, output_node_id: usize)
        requires
            node_id < old(self).nodes@.len(),
        ensures
            final(self).nodes@.len() == old(self).nodes@.len(),
            final(self).nodes@[node_id as int].output == Some(output_node_id),
            final(self).nodes@[node_id as int].inputs == old(self).nodes@[node_id as int].inputs,
            final(self).nodes@[node_id as int].expressions == old(
                self,
            ).nodes@[node_id as int].expressions,
            final(self).nodes@[node_id as int].data == old(self).nodes@[node_id as int].data,
            forall|j: int|
                0 <= j < old(self).nodes@.len() && j != node_id ==> final(self).nodes@[j] == old(
                    self,
                ).nodes@[j],
            final(self).expressions@ == old(self).expressions@,
            final(self).root_node == old(self).root_node,
    {
        let node = &mut self.nodes[node_id];
        node.output = Some(output_node_id);
    }
}

/// The unqualified table name carried by one FROM entry.
pub open spec fn table_name_of(t: TableWithJoins) -> Seq<char> {
    match t.relation {
        TableFactor::Table { name } => name@[0].value@,
        TableFactor::Other => Seq::empty(),
    }
}

/// The table names of a FROM list, in clause order.
pub open spec fn table_names(from: Seq<TableWithJoins>) -> Seq<Seq<char>> {
    Seq::new(from.len(), |i: int| table_name_of(from[i]))
}

/// The first reason the FROM list is rejected, if any.
pub open spec fn from_error(from: Seq<TableWithJoins>) -> Option<PlanErr>
    decreases from.len(),
{
    if from.len() == 0 {
        None
    } else {
        let t = from[0];
        if t.joins > 0 {
            Some(PlanErr::NotSupported("JOIN"@))
        } else {
            match t.relation {
                TableFactor::Table { name } => if name@.len() == 0 {
                    Some(PlanErr::ASTError("empty table name"@))
                } else {
                    from_error(from.drop_first())
                },
                TableFactor::Other => Some(PlanErr::NotSupported("TableFactor!=Table"@)),
            }
        }
    }
}

/// How many FROM entries pass validation before the first offender; the
/// whole list when none offends.
pub open spec fn from_ok_prefix(from: Seq<TableWithJoins>) -> int
    decreases from.len(),
{
    if from.len() == 0 {
        0
    } else {
        let t = from[0];
        if t.joins > 0 {
            0
        } else {
            match t.relation {
                TableFactor::Table { name } => if name@.len() == 0 {
                    0
                } else {
                    1 + from_ok_prefix(from.drop_first())
                },
                TableFactor::Other => 0,
            }
        }
    }
}

/// An error-free prefix counts fully toward the first offender's position.
proof fn lemma_from_ok_prefix_skip(from: Seq<TableWithJoins>, i: int)
    requires
        0 <= i <= from.len(),
        from_error(from.take(i)) is None,
    ensures
        from_ok_prefix(from) == i + from_ok_prefix(from.skip(i)),
    decreases i,
{
    if i > 0 {
        assert(from.take(i)[0] == from[0]);
        assert(from.take(i).drop_first() =~= from.drop_first().take(i - 1));
        assert(from.drop_first().skip(i - 1) =~= from.skip(i));
        lemma_from_ok_prefix_skip(from.drop_first(), i - 1);
    } else {
        assert(from.skip(0) =~= from);
    }
}

/// Nodes agree on everything a plan's shape is judged by; only the
/// back-reference may differ.
pub open spec fn shape_eq(a: LQPNode, b: LQPNode) -> bool {
    a.data == b.data && a.inputs == b.inputs && a.expressions@ == b.expressions@
}

/// A leaf node scanning one table, with no inputs and no expressions.
pub open spec fn is_table_node(n: LQPNode, name: Seq<char>) -> bool {
    &&& n.data matches LQPNodeData::Table { schema_name, table_name } && schema_name is None
        && table_name@ == name
    &&& n.inputs[0] is None
    &&& n.inputs[1] is None
    &&& n.expressions@.len() == 0
}

/// A cross-join node combining the nodes at the two given indices.
pub open spec fn is_cross_join(n: LQPNode, left: int, right: int) -> bool {
    &&& n.data matches LQPNodeData::Join(m) && m == JoinMode::Cross
    &&& n.inputs[0] == Some(left as usize)
    &&& n.inputs[1] == Some(right as usize)
    &&& n.expressions@.len() == 0
}

/// The arena index of the root of the FROM plan for `k` tables appended
/// from `base`: the table itself for one table, the last cross join after.
pub open spec fn chain_root(base: int, k: int) -> int {
    if k <= 1 {
        base
    } else {
        base + 2 * (k - 1)
    }
}

/// The FROM plan for the named tables stands in the arena from `base` on: a
/// left fold of cross joins, each joining the next table (first input) with
/// the plan built so far (second input).
pub open spec fn cross_chain(n: Seq<LQPNode>, base: int, names: Seq<Seq<char>>) -> bool
    decreases names.len(),
{
    let k = names.len() as int;
    if k == 0 {
        true
    } else if k == 1 {
        0 <= base < n.len() && is_table_node(n[base], names[0])
    } else {
        let t = base + 2 * (k - 1) - 1;
        let j = base + 2 * (k - 1);
        &&& 0 <= base
        &&& j < n.len()
        &&& is_table_node(n[t], names[k - 1])
        &&& is_cross_join(n[j], t, chain_root(base, k - 1))
        &&& cross_chain(n, base, names.drop_last())
    }
}

/// A cross-join chain only reads node shapes, so it survives any change
/// that keeps the shapes of the nodes it covers.
proof fn lemma_cross_chain_congruent(
    n1: Seq<LQPNode>,
    n2: Seq<LQPNode>,
    base: int,
    names: Seq<Seq<char>>,
)
    requires
        cross_chain(n1, base, names),
        n2.len() >= n1.len(),
        forall|j: int| base <= j < n1.len() ==> shape_eq(#[trigger] n2[j], n1[j]),
    ensures
        cross_chain(n2, base, names),
    decreases names.len(),
{
    let k = names.len() as int;
    if k == 0 {
    } else if k == 1 {
        assert(shape_eq(n2[base], n1[base]));
    } else {
        lemma_cross_chain_congruent(n1, n2, base, names.drop_last());
        let t = base + 2 * (k - 1) - 1;
        let j = base + 2 * (k - 1);
        assert(shape_eq(n2[t], n1[t]));
        assert(shape_eq(n2[j], n1[j]));
    }
}

/// Skipping an error-free prefix does not change which error a FROM list
/// produces.
proof fn lemma_from_error_skip(from: Seq<TableWithJoins>, i: int)
    requires
        0 <= i <= from.len(),
        from_error(from.take(i)) is None,
    ensures
        from_error(from) == from_error(from.skip(i)),
    decreases i,
{
    if i > 0 {
        let t = from[0];
        assert(from.take(i)[0] == t);
        assert(from.take(i).drop_first() =~= from.drop_first().take(i - 1));
        assert(from.drop_first().skip(i - 1) =~= from.skip(i));
        lemma_from_error_skip(from.drop_first(), i - 1);
    } else {
        assert(from.skip(0) =~= from);
    }
}

/// The first reason the SELECT list is rejected, if any.
pub open spec fn proj_error(items: Seq<SelectItem>) -> Option<PlanErr>
    decreases items.len(),
{
    if items.len() == 0 {
        None
    } else {
        match items[0] {
            SelectItem::UnnamedExpr(e) => match e {
                Expr::Identifier(id) => if id.value@ == "session_user"@ {
                    proj_error(items.drop_first())
                } else {
                    Some(PlanErr::NotSupported("Column expressions are not yet supported"@))
                },
                Expr::Function(f) => if f.name@.len() > 1 {
                    Some(PlanErr::NotSupported("Multipart function names are not supported"@))
                } else if f.name@.len() == 0 {
                    Some(PlanErr::ASTError("empty function name"@))
                } else if f.name@[0].value@ == "current_schema"@ {
                    proj_error(items.drop_first())
                } else {
                    Some(PlanErr::NotSupported("Unsupported function name"@))
                },
                Expr::Other => Some(PlanErr::NotSupported("Unsupported expression type"@)),
            },
            SelectItem::Other => Some(PlanErr::NotSupported("SelectItem != UnnamedExpr"@)),
        }
    }
}

/// The session function one accepted SELECT item resolves to.
pub open spec fn proj_fn_of(item: SelectItem) -> FunctionType {
    match item {
        SelectItem::UnnamedExpr(e) => match e {
            Expr::Identifier(_) => FunctionType::SessionUser,
            Expr::Function(_) => FunctionType::CurrentSchema,
            Expr::Other => FunctionType::SessionUser,
        },
        SelectItem::Other => FunctionType::SessionUser,
    }
}

/// The session functions of a SELECT list, in item order.
pub open spec fn proj_fns(items: Seq<SelectItem>) -> Seq<FunctionType> {
    Seq::new(items.len(), |j: int| proj_fn_of(items[j]))
}

/// The first reason a SELECT core is rejected, if any, in check order.
pub open spec fn select_error(s: Select) -> Option<PlanErr> {
    if s.distinct {
        Some(PlanErr::NotSupported("DISTINCT"@))
    } else if s.top {
        Some(PlanErr::NotSupported("TOP"@))
    } else if s.lateral_views > 0 {
        Some(PlanErr::NotSupported("LATERAL VIEW"@))
    } else if s.cluster_by > 0 {
        Some(PlanErr::NotSupported("CLUSTER BY"@))
    } else if s.distribute_by > 0 {
        Some(PlanErr::NotSupported("DISTRIBUTE BY"@))
    } else if s.sort_by > 0 {
        Some(PlanErr::NotSupported("SORT BY"@))
    } else if from_error(s.from@) is Some {
        from_error(s.from@)
    } else {
        proj_error(s.projection@)
    }
}

/// Skipping an error-free prefix does not change which error a SELECT list
/// produces.
proof fn lemma_proj_error_skip(items: Seq<SelectItem>, i: int)
    requires
        0 <= i <= items.len(),
        proj_error(items.take(i)) is None,
    ensures
        proj_error(items) == proj_error(items.skip(i)),
    decreases i,
{
    if i > 0 {
        assert(items.take(i)[0] == items[0]);
        assert(items.take(i).drop_first() =~= items.drop_first().take(i - 1));
        assert(items.drop_first().skip(i - 1) =~= items.skip(i));
        lemma_proj_error_skip(items.drop_first(), i - 1);
    } else {
        assert(items.skip(0) =~= items);
    }
}

/// What a successful SELECT build leaves behind: the FROM chain, an optional
/// filter wrapping it, and the final projection node carrying the resolved
/// expressions, all appended to the arenas with exact indices and
/// back-references.
pub open spec fn select_result_shape(
    old_n: Seq<LQPNode>,
    old_e: Seq<LQPExpression>,
    n: Seq<LQPNode>,
    e: Seq<LQPExpression>,
    s: Select,
    root: int,
) -> bool {
    let names = table_names(s.from@);
    let k = s.from@.len() as int;
    let base = old_n.len() as int;
    let elen = old_e.len() as int;
    let from_cnt: int = if k > 0 {
        2 * k - 1
    } else {
        0
    };
    let from_root = chain_root(base, k);
    let filter_idx = base + from_cnt;
    let proj_idx = filter_idx + (if s.selection {
        1int
    } else {
        0int
    });
    let ecnt = s.projection@.len() as int;
    let proj_input: Option<usize> = if s.selection {
        Some(filter_idx as usize)
    } else if k > 0 {
        Some(from_root as usize)
    } else {
        None
    };
    &&& root == proj_idx
    &&& n.len() == proj_idx + 1
    &&& n.take(base) =~= old_n
    &&& e.len() == elen + ecnt
    &&& e.take(elen) =~= old_e
    &&& (k > 0 ==> cross_chain(n, base, names))
    &&& (k > 0 ==> n[from_root].output == Some(
        (if s.selection {
            filter_idx
        } else {
            proj_idx
        }) as usize,
    ))
    &&& forall|j: int|
        base <= j < base + from_cnt && j != from_root ==> (#[trigger] n[j]).output is None
    &&& (s.selection ==> {
        &&& n[filter_idx].data is Filter
        &&& n[filter_idx].inputs[0] == (if k > 0 {
            Some(from_root as usize)
        } else {
            None::<usize>
        })
        &&& n[filter_idx].inputs[1] is None
        &&& n[filter_idx].expressions@.len() == 0
        &&& n[filter_idx].output == Some(proj_idx as usize)
    })
    &&& n[root].data is Projection
    &&& n[root].inputs[0] == proj_input
    &&& n[root].inputs[1] is None
    &&& n[root].output is None
    &&& n[root].expressions@.len() == ecnt
    &&& forall|j: int|
        0 <= j < ecnt ==> (#[trigger] n[root].expressions@[j]) == (elen + j) as usize
    &&& forall|j: int|
        0 <= j < ecnt ==> (#[trigger] e[elen + j]).data == LQPExpressionData::Function(
            proj_fns(s.projection@)[j],
        ) && e[elen + j].arguments@.len() == 0
}

impl LQPNode {
    /// Fold the FROM list into a plan: the first table is the accumulator,
    /// and every further table is cross-joined with it, the new table first.
    pub fn from_from(from: &Vec<TableWithJoins>, lqp: &mut LQP) -> (r: Result<
        Option<usize>,
        LQPError,
    >)
        ensures
            r is Err <==> from_error(from@) is Some,
            final(lqp).expressions@ == old(lqp).expressions@,
            final(lqp).root_node == old(lqp).root_node,
            final(lqp).nodes@.take(old(lqp).nodes@.len() as int) =~= old(lqp).nodes@,
            match r {
                Result::Err(e) => {
                    let names = table_names(from@);
                    let base = old(lqp).nodes@.len() as int;
                    let i = from_ok_prefix(from@);
                    &&& err_view(e) == from_error(from@)->Some_0
                    &&& (i == 0 ==> final(lqp).nodes@ == old(lqp).nodes@)
                    &&& (i > 0 ==> {
                        &&& final(lqp).nodes@.len() == base + 2 * i - 1
                        &&& cross_chain(final(lqp).nodes@, base, names.take(i))
                        &&& forall|j: int|
                            base <= j < final(lqp).nodes@.len()
                                ==> (#[trigger] final(lqp).nodes@[j]).output is None
                    })
                },
                Result::Ok(root) => {
                    let names = table_names(from@);
                    let base = old(lqp).nodes@.len() as int;
                    let k = from@.len() as int;
                    &&& (k == 0 ==> root is None && final(lqp).nodes@ == old(lqp).nodes@)
                    &&& (k > 0 ==> {
                        &&& root == Some(chain_root(base, k) as usize)
                        &&& final(lqp).nodes@.len() == base + 2 * k - 1
                        &&& cross_chain(final(lqp).nodes@, base, names)
                        &&& forall|j: int|
                            base <= j < final(lqp).nodes@.len()
                                ==> (#[trigger] final(lqp).nodes@[j]).output is None
                    })
                },
            },
    {
        let ghost base = lqp.nodes@.len() as int;
        let ghost names = table_names(from@);
        let mut node: Option<usize> = None;
        let mut i: usize = 0;
        while i < from.len()
            invariant
                0 <= i <= from@.len(),
                base == old(lqp).nodes@.len() as int,
                names == table_names(from@),
                from_error(from@.take(i as int)) is None,
                lqp.expressions@ == old(lqp).expressions@,
                lqp.root_node == old(lqp).root_node,
                lqp.nodes@.take(base) =~= old(lqp).nodes@,
                i == 0 ==> node is None && lqp.nodes@ == old(lqp).nodes@,
                i > 0 ==> {
                    &&& node == Some(chain_root(base, i as int) as usize)
                    &&& lqp.nodes@.len() == base + 2 * (i as int) - 1
                    &&& cross_chain(lqp.nodes@, base, names.take(i as int))
                },
                forall|j: int|
                    base <= j < lqp.nodes@.len() ==> (#[trigger] lqp.nodes@[j]).output is None,
            decreases from@.len() - i,
        {
            let twj = &from[i];
            proof {
                assert(from@.take(i + 1).take(i as int) =~= from@.take(i as int));
                assert(from@.take(i + 1).skip(i as int) =~= seq![from@[i as int]]);
                lemma_from_error_skip(from@.take(i + 1), i as int);
                lemma_from_error_skip(from@, i as int);
                assert(from@.skip(i as int)[0] == from@[i as int]);
            }
            if twj.joins > 0 {
                proof {
                    lemma_from_ok_prefix_skip(from@, i as int);
                    assert(from@[i as int] == *twj);
                    assert(from_ok_prefix(from@.skip(i as int)) == 0);
                    assert(from_ok_prefix(from@) == i as int);
                }
                return Err(LQPError::NotSupported("JOIN".to_owned()));
            }
            match &twj.relation {
                TableFactor::Table { name } => {
                    if name.len() == 0 {
                        proof {
                            lemma_from_ok_prefix_skip(from@, i as int);
                            assert(from@[i as int] == *twj);
                            assert(twj.relation == TableFactor::Table { name: *name });
                            assert(name@.len() == 0);
                            assert(from_ok_prefix(from@.skip(i as int)) == 0);
                            assert(from_ok_prefix(from@) == i as int);
                        }
                        return Err(LQPError::ASTError("empty table name".to_owned()));
                    }
                    let ghost before = lqp.nodes@;
                    let table_node = lqp.add_node(
                        LQPNode {
                            output: None,
                            inputs: [None, None],
                            expressions: Vec::new(),
                            data: LQPNodeData::Table {
                                schema_name: None,
                                table_name: name[0].value.clone(),
                            },
                        },
                    );
                    let prev_node = node;
                    node = match prev_node {
                        Some(prev) => Some(
                            lqp.add_node(
                                LQPNode {
                                    output: None,
                                    inputs: [Some(table_node), Some(prev)],
                                    expressions: Vec::new(),
                                    data: LQPNodeData::Join(JoinMode::Cross),
                                },
                            ),
                        ),
                        None => Some(table_node),
                    };
                    proof {
                        assert(names.take(i + 1)[i as int] == table_name_of(from@[i as int]));
                        assert(names.take(i + 1).drop_last() =~= names.take(i as int));
                        if i == 0 {
                            assert(is_table_node(lqp.nodes@[base], names.take(1)[0]));
                            assert(cross_chain(lqp.nodes@, base, names.take(1)));
                        } else {
                            let t = base + 2 * (i as int + 1 - 1) - 1;
                            let j = base + 2 * (i as int + 1 - 1);
                            assert(lqp.nodes@.len() == j + 1);
                            assert(is_table_node(lqp.nodes@[t], names.take(i + 1)[i as int]));
                            assert(is_cross_join(lqp.nodes@[j], t, chain_root(base, i as int)));
                            lemma_cross_chain_congruent(
                                before,
                                lqp.nodes@,
                                base,
                                names.take(i as int),
                            );
                            assert(cross_chain(lqp.nodes@, base, names.take(i + 1)));
                        }
                        assert(lqp.nodes@.take(base) =~= before.take(base));
                        assert(from_error(seq![from@[i as int]]) is None) by {
                            reveal_with_fuel(from_error, 3);
                            assert(seq![from@[i as int]][0] == from@[i as int]);
                            assert(from@[i as int] == *twj);
                            assert(twj.joins == 0);
                            assert(twj.relation == TableFactor::Table { name: *name });
                            assert(name@.len() > 0);
                            assert(seq![from@[i as int]].drop_first()
                                =~= Seq::<TableWithJoins>::empty());
                        }
                        assert(from_error(from@.take(i + 1)) is None);
                    }
                },
                TableFactor::Other => {
                    proof {
                        lemma_from_ok_prefix_skip(from@, i as int);
                        assert(from@[i as int] == *twj);
                        assert(twj.relation is Other);
                        assert(from_ok_prefix(from@.skip(i as int)) == 0);
                        assert(from_ok_prefix(from@) == i as int);
                    }
                    return Err(LQPError::NotSupported("TableFactor!=Table".to_owned()));
                },
            }
            i = i + 1;
        }
        proof {
            assert(from@.take(from@.len() as int) =~= from@);
            if from@.len() > 0 {
                assert(names.take(from@.len() as int) =~= names);
            }
        }
        Ok(node)
    }

    /// Build the plan for one SELECT core: reject unsupported clauses, fold
    /// the FROM list, wrap it in a filter when a WHERE clause is present,
    /// and top it with the projection node.
    #[verifier::loop_isolation(false)]
    pub fn from_select(select: &Select, lqp: &mut LQP) -> (r: Result<usize, LQPError>)
        ensures
            r is Err <==> select_error(*select) is Some,
            select_rejected_outright(*select) ==> final(lqp).nodes@ == old(lqp).nodes@
                && final(lqp).expressions@ == old(lqp).expressions@,
            final(lqp).root_node == old(lqp).root_node,
            final(lqp).nodes@.take(old(lqp).nodes@.len() as int) =~= old(lqp).nodes@,
            final(lqp).expressions@.take(old(lqp).expressions@.len() as int) =~= old(
                lqp,
            ).expressions@,
            match r {
                Result::Err(e) => err_view(e) == select_error(*select)->Some_0,
                Result::Ok(root) => select_result_shape(
                    old(lqp).nodes@,
                    old(lqp).expressions@,
                    final(lqp).nodes@,
                    final(lqp).expressions@,
                    *select,
                    root as int,
                ),
            },
    {
        if select.distinct {
            return Err(LQPError::NotSupported("DISTINCT".to_owned()));
        }
        if select.top {
            return Err(LQPError::NotSupported("TOP".to_owned()));
        }
        if select.lateral_views > 0 {
            return Err(LQPError::NotSupported("LATERAL VIEW".to_owned()));
        }
        if select.cluster_by > 0 {
            return Err(LQPError::NotSupported("CLUSTER BY".to_owned()));
        }
        if select.distribute_by > 0 {
            return Err(LQPError::NotSupported("DISTRIBUTE BY".to_owned()));
        }
        if select.sort_by > 0 {
            return Err(LQPError::NotSupported("SORT BY".to_owned()));
        }

        let ghost base = lqp.nodes@.len() as int;
        let ghost elen = lqp.expressions@.len() as int;
        let ghost k = select.from@.len() as int;
        let ghost names = table_names(select.from@);
        let ghost from_root = chain_root(base, k);

        let mut from: Option<usize> = match LQPNode::from_from(&select.from, lqp) {
            Ok(f) => f,
            Err(e) => {
                return Err(e);
            },
        };
        if select.selection {
            let ghost after_from = lqp.nodes@;
            let new_from = lqp.add_node(
                LQPNode {
                    output: None,
                    inputs: [from, None],
                    expressions: Vec::new(),
                    data: LQPNodeData::Filter,
                },
            );
            proof {
                if k > 0 {
                    assert(from == Some(from_root as usize));
                    assert(new_from == base + 2 * k - 1);
                    assert forall|j: int| base <= j < after_from.len() implies shape_eq(
                        #[trigger] lqp.nodes@[j],
                        after_from[j],
                    ) by {}
                    lemma_cross_chain_congruent(after_from, lqp.nodes@, base, names);
                }
            }
            if let Some(f) = from {
                let ghost before = lqp.nodes@;
                lqp.set_output(f, new_from);
                proof {
                    assert forall|j: int| base <= j < before.len() implies shape_eq(
                        #[trigger] lqp.nodes@[j],
                        before[j],
                    ) by {}
                    lemma_cross_chain_congruent(before, lqp.nodes@, base, names);
                    assert(lqp.nodes@.take(base) =~= before.take(base));
                }
            }
            from = Some(new_from);
        }
        let ghost nodes_pf = lqp.nodes@;
        let ghost from_pf = from;

        let mut projection_expressions: Vec<usize> = Vec::new();
        let mut i: usize = 0;
        while i < select.projection.len()
            invariant
                0 <= i <= select.projection@.len(),
                elen == old(lqp).expressions@.len() as int,
                lqp.nodes@ == nodes_pf,
                lqp.root_node == old(lqp).root_node,
                proj_error(select.projection@.take(i as int)) is None,
                lqp.expressions@.len() == elen + i,
                lqp.expressions@.take(elen) =~= old(lqp).expressions@,
                projection_expressions@.len() == i,
                forall|j: int|
                    0 <= j < i ==> (#[trigger] projection_expressions@[j]) == (elen + j) as usize,
                forall|j: int|
                    0 <= j < i ==> (#[trigger] lqp.expressions@[elen + j]).data
                        == LQPExpressionData::Function(proj_fn_of(select.projection@[j]))
                        && lqp.expressions@[elen + j].arguments@.len() == 0,
            decreases select.projection@.len() - i,
        {
            let ghost items = select.projection@;
            proof {
                assert(items.take(i + 1).take(i as int) =~= items.take(i as int));
                lemma_proj_error_skip(items.take(i + 1), i as int);
                lemma_proj_error_skip(items, i as int);
                assert(items.take(i + 1).skip(i as int) =~= seq![items[i as int]]);
                assert(items.skip(i as int)[0] == items[i as int]);
            }
            let item = &select.projection[i];
            match item {
                SelectItem::UnnamedExpr(expr) => {
                    match expr {
                        Expr::Identifier(ident) => {
                            let expected = "session_user".to_owned();
                            if ident.value == expected {
                                let id = lqp.add_expression(
                                    LQPExpression {
                                        arguments: Vec::new(),
                                        data: LQPExpressionData::Function(FunctionType::SessionUser),
                                    },
                                );
                                projection_expressions.push(id);
                            } else {
                                return Err(
                                    LQPError::NotSupported(
                                        "Column expressions are not yet supported".to_owned(),
                                    ),
                                );
                            }
                        },
                        Expr::Function(func) => {
                            if func.name.len() > 1 {
                                return Err(
                                    LQPError::NotSupported(
                                        "Multipart function names are not supported".to_owned(),
                                    ),
                                );
                            }
                            if func.name.len() == 0 {
                                return Err(LQPError::ASTError("empty function name".to_owned()));
                            }
                            let expected = "current_schema".to_owned();
                            if func.name[0].value == expected {
                                let id = lqp.add_expression(
                                    LQPExpression {
                                        arguments: Vec::new(),
                                        data: LQPExpressionData::Function(
                                            FunctionType::CurrentSchema,
                                        ),
                                    },
                                );
                                projection_expressions.push(id);
                            } else {
                                return Err(
                                    LQPError::NotSupported("Unsupported function name".to_owned()),
                                );
                            }
                        },
                        Expr::Other => {
                            return Err(
                                LQPError::NotSupported("Unsupported expression type".to_owned()),
                            );
                        },
                    }
                },
                SelectItem::Other => {
                    return Err(LQPError::NotSupported("SelectItem != UnnamedExpr".to_owned()));
                },
            }
            proof {
                assert(proj_error(seq![items[i as int]]) is None) by {
                    reveal_with_fuel(proj_error, 3);
                    assert(seq![items[i as int]][0] == items[i as int]);
                    assert(seq![items[i as int]].drop_first() =~= Seq::<SelectItem>::empty());
                }
                assert(proj_error(items.take(i + 1)) is None);
            }
            i = i + 1;
        }
        proof {
            assert(select.projection@.take(select.projection@.len() as int)
                =~= select.projection@);
        }

        let ghost after_loop = lqp.nodes@;
        let projection = lqp.add_node(
            LQPNode {
                output: None,
                inputs: [from, None],
                expressions: projection_expressions,
                data: LQPNodeData::Projection,
            },
        );
        proof {
            if k > 0 {
                assert forall|j: int| base <= j < after_loop.len() implies shape_eq(
                    #[trigger] lqp.nodes@[j],
                    after_loop[j],
                ) by {}
                lemma_cross_chain_congruent(after_loop, lqp.nodes@, base, names);
            }
        }
        if let Some(f) = from {
            let ghost before = lqp.nodes@;
            lqp.set_output(f, projection);
            proof {
                if k > 0 {
                    assert forall|j: int| base <= j < before.len() implies shape_eq(
                        #[trigger] lqp.nodes@[j],
                        before[j],
                    ) by {}
                    lemma_cross_chain_congruent(before, lqp.nodes@, base, names);
                }
                assert(lqp.nodes@.take(base) =~= before.take(base));
            }
        }
        proof {
            assert(final(lqp).nodes@.take(base) =~= old(lqp).nodes@) by {
                assert(nodes_pf.take(base) =~= old(lqp).nodes@);
            }
        }
        Ok(projection)
    }

    /// Build the plan for one query: reject the outer clauses the engine
    /// does not support, then delegate to the SELECT core.
    pub fn from_query(query: &Query, lqp: &mut LQP) -> (r: Result<usize, LQPError>)
        ensures
            r is Err <==> query_error(*query) is Some,
            final(lqp).root_node == old(lqp).root_node,
            final(lqp).nodes@.take(old(lqp).nodes@.len() as int) =~= old(lqp).nodes@,
            final(lqp).expressions@.take(old(lqp).expressions@.len() as int) =~= old(
                lqp,
            ).expressions@,
            query_rejected_outright(*query) ==> final(lqp).nodes@ == old(lqp).nodes@
                && final(lqp).expressions@ == old(lqp).expressions@,
            query.body matches SetExpr::Select(s) && select_rejected_outright(s)
                ==> final(lqp).nodes@ == old(lqp).nodes@ && final(lqp).expressions@ == old(
                lqp,
            ).expressions@,
            match r {
                Result::Err(e) => err_view(e) == query_error(*query)->Some_0,
                Result::Ok(root) => query.body matches SetExpr::Select(s)
                    && select_result_shape(
                    old(lqp).nodes@,
                    old(lqp).expressions@,
                    final(lqp).nodes@,
                    final(lqp).expressions@,
                    s,
                    root as int,
                ),
            },
    {
        if query.with {
            return Err(LQPError::NotSupported("WITH".to_owned()));
        }
        if query.order_by > 0 {
            return Err(LQPError::NotSupported("ORDER BY".to_owned()));
        }
        if query.limit {
            return Err(LQPError::NotSupported("LIMIT".to_owned()));
        }
        if query.offset {
            return Err(LQPError::NotSupported("OFFSET".to_owned()));
        }
        if query.fetch {
            return Err(LQPError::NotSupported("FETCH".to_owned()));
        }
        match &query.body {
            SetExpr::Select(select) => LQPNode::from_select(select, lqp),
            SetExpr::Other => Err(LQPError::NotSupported("SetExpr!=SELECT".to_owned())),
        }
    }

    /// Build the plan node graph for one statement; only queries are
    /// translated.
    pub fn from(sql_statement: &Statement, lqp: &mut LQP) -> (r: Result<usize, LQPError>)
        ensures
            r is Err <==> stmt_error(*sql_statement) is Some,
            sql_statement is Other ==> final(lqp).nodes@ == old(lqp).nodes@
                && final(lqp).expressions@ == old(lqp).expressions@,
            sql_statement matches Statement::Query(q) && (query_rejected_outright(*q) || (
            q.body matches SetExpr::Select(s)
                && select_rejected_outright(s))) ==> final(lqp).nodes@ == old(lqp).nodes@
                && final(lqp).expressions@ == old(lqp).expressions@,
            final(lqp).root_node == old(lqp).root_node,
            final(lqp).nodes@.take(old(lqp).nodes@.len() as int) =~= old(lqp).nodes@,
            final(lqp).expressions@.take(old(lqp).expressions@.len() as int) =~= old(
                lqp,
            ).expressions@,
            match r {
                Result::Err(e) => err_view(e) == stmt_error(*sql_statement)->Some_0,
                Result::Ok(root) => sql_statement matches Statement::Query(q)
                    && q.body matches SetExpr::Select(s)
                    && select_result_shape(
                    old(lqp).nodes@,
                    old(lqp).expressions@,
                    final(lqp).nodes@,
                    final(lqp).expressions@,
                    s,
                    root as int,
                ),
            },
    {
        match sql_statement {
            Statement::Query(query) => LQPNode::from_query(query, lqp),
            Statement::Other => Err(LQPError::Generic),
        }
    }
}

/// The outer checks that reject a query before any node is created.
pub open spec fn query_rejected_outright(q: Query) -> bool {
    q.with || q.order_by > 0 || q.limit || q.offset || q.fetch || !(q.body is Select)
}

/// The SELECT-core checks that reject a statement before any node or
/// expression is created.
pub open spec fn select_rejected_outright(s: Select) -> bool {
    s.distinct || s.top || s.lateral_views > 0 || s.cluster_by > 0 || s.distribute_by > 0
        || s.sort_by > 0
}

/// The first reason a query is rejected, if any, in check order.
pub open spec fn query_error(q: Query) -> Option<PlanErr> {
    if q.with {
        Some(PlanErr::NotSupported("WITH"@))
    } else if q.order_by > 0 {
        Some(PlanErr::NotSupported("ORDER BY"@))
    } else if q.limit {
        Some(PlanErr::NotSupported("LIMIT"@))
    } else if q.offset {
        Some(PlanErr::NotSupported("OFFSET"@))
    } else if q.fetch {
        Some(PlanErr::NotSupported("FETCH"@))
    } else {
        match q.body {
            SetExpr::Select(s) => select_error(s),
            SetExpr::Other => Some(PlanErr::NotSupported("SetExpr!=SELECT"@)),
        }
    }
}

/// The first reason a statement is rejected, if any; non-queries are
/// rejected generically.
pub open spec fn stmt_error(st: Statement) -> Option<PlanErr> {
    match st {
        Statement::Query(q) => query_error(q),
        Statement::Other => Some(PlanErr::Generic),
    }
}

/// The rendered form of one plan expression.
pub open spec fn dot_expr_chars(e: LQPExpression) -> Seq<char> {
    match e.data {
        LQPExpressionData::Function(FunctionType::CurrentSchema) => "CurrentSchema()"@,
        LQPExpressionData::Function(FunctionType::SessionUser) => "SessionUser()"@,
    }
}

/// The label of one plan node: its kind, with the table name for scans.
pub open spec fn dot_label(d: LQPNodeData) -> Seq<char> {
    match d {
        LQPNodeData::Projection => "Projection"@,
        LQPNodeData::Filter => "Filter"@,
        LQPNodeData::Table { schema_name, table_name } => "Table ["@ + table_name@ + "]"@,
        LQPNodeData::Join(m) => match m {
            JoinMode::Inner => "Join(Inner)"@,
            JoinMode::Left => "Join(Left)"@,
            JoinMode::Right => "Join(Right)"@,
            JoinMode::FullOuter => "Join(FullOuter)"@,
            JoinMode::Cross => "Join(Cross)"@,
        },
    }
}

/// A node's expression texts joined with commas.
pub open spec fn dot_expr_items(exprs: Seq<LQPExpression>, idxs: Seq<usize>) -> Seq<char>
    decreases idxs.len(),
{
    if idxs.len() == 0 {
        Seq::empty()
    } else if idxs.len() == 1 {
        dot_expr_chars(exprs[idxs[0] as int])
    } else {
        dot_expr_items(exprs, idxs.drop_last()) + ", "@ + dot_expr_chars(
            exprs[idxs.last() as int],
        )
    }
}

/// A node's expression list as rendered into its label: empty, or a bar
/// followed by the comma-joined expressions.
pub open spec fn dot_expr_list(exprs: Seq<LQPExpression>, idxs: Seq<usize>) -> Seq<char> {
    if idxs.len() == 0 {
        Seq::empty()
    } else {
        "|"@ + dot_expr_items(exprs, idxs)
    }
}

/// One node's line in the graph description.
pub open spec fn dot_node_chars(n: LQPNode, id: int, exprs: Seq<LQPExpression>) -> Seq<char> {
    "plannode_"@ + crate::wire::dec_chars(id as nat) + "[label=\"{"@ + dot_label(n.data)
        + dot_expr_list(exprs, n.expressions@) + "}\", style=\"rounded\", shape=record];\n"@
}

/// One edge's line in the graph description.
pub open spec fn dot_edge_chars(from: int, to: int) -> Seq<char> {
    "plannode_"@ + crate::wire::dec_chars(from as nat) + "->plannode_"@ + crate::wire::dec_chars(
        to as nat,
    ) + "\n"@
}

/// The node and edge text a depth-first walk from `id` produces: the node's
/// own line, then each input's edge followed by that subtree. Inputs that
/// do not point strictly downward are skipped, which on a well-formed plan
/// never happens.
pub open spec fn dot_walk(nodes: Seq<LQPNode>, exprs: Seq<LQPExpression>, id: int) -> (
    Seq<char>,
    Seq<char>,
)
    decreases id via dot_walk_decreases
{
    if !(0 <= id < nodes.len()) {
        (Seq::empty(), Seq::empty())
    } else {
        let n = nodes[id];
        let own = dot_node_chars(n, id, exprs);
        let left: (Seq<char>, Seq<char>) = match n.inputs[0] {
            Option::Some(l) => if (l as int) < id {
                let sub = dot_walk(nodes, exprs, l as int);
                (sub.0, dot_edge_chars(id, l as int) + sub.1)
            } else {
                (Seq::empty(), Seq::empty())
            },
            Option::None => (Seq::empty(), Seq::empty()),
        };
        let right: (Seq<char>, Seq<char>) = match n.inputs[1] {
            Option::Some(rr) => if (rr as int) < id {
                let sub = dot_walk(nodes, exprs, rr as int);
                (sub.0, dot_edge_chars(id, rr as int) + sub.1)
            } else {
                (Seq::empty(), Seq::empty())
            },
            Option::None => (Seq::empty(), Seq::empty()),
        };
        (own + left.0 + right.0, left.1 + right.1)
    }
}

#[via_fn]
proof fn dot_walk_decreases(nodes: Seq<LQPNode>, exprs: Seq<LQPExpression>, id: int) {
}

/// The whole graph description.
pub open spec fn dot_graph_chars(nodes: Seq<LQPNode>, exprs: Seq<LQPExpression>, root: int) -> Seq<
    char,
> {
    let walk = dot_walk(nodes, exprs, root);
    "digraph logical_plan {\n"@ + walk.0 + "\n"@ + walk.1 + "}"@
}

impl LQPExpression {
    /// Render one expression for the graph description.
    pub fn get_dot_str(&self, _expressions: &Vec<LQPExpression>) -> (r: String)
        ensures
            r@ == dot_expr_chars(*self),
    {
        match &self.data {
            LQPExpressionData::Function(FunctionType::CurrentSchema) => "CurrentSchema()".to_owned(),
            LQPExpressionData::Function(FunctionType::SessionUser) => "SessionUser()".to_owned(),
        }
    }
}

impl LQPNode {
    /// Render one node's graph line: its label and its expression list.
    pub fn get_dot_node(&self, id: usize, expressions: &Vec<LQPExpression>) -> (r: String)
        requires
            forall|j: int|
                0 <= j < self.expressions@.len() ==> (#[trigger] self.expressions@[j]) < expressions@.len(),
        ensures
            r@ == dot_node_chars(*self, id as int, expressions@),
    {
        let label: String = match &self.data {
            LQPNodeData::Table { table_name, .. } => {
                let mut s = "Table [".to_owned();
                s.append(table_name.as_str());
                s.append("]");
                proof {
                    assert(s@ =~= dot_label(self.data));
                }
                s
            },
            LQPNodeData::Projection => "Projection".to_owned(),
            LQPNodeData::Filter => "Filter".to_owned(),
            LQPNodeData::Join(m) => match m {
                JoinMode::Inner => "Join(Inner)".to_owned(),
                JoinMode::Left => "Join(Left)".to_owned(),
                JoinMode::Right => "Join(Right)".to_owned(),
                JoinMode::FullOuter => "Join(FullOuter)".to_owned(),
                JoinMode::Cross => "Join(Cross)".to_owned(),
            },
        };
        let expr_list: String = if self.expressions.len() == 0 {
            String::new()
        } else {
            let mut result = "|".to_owned();
            let n = self.expressions.len();
            let mut i: usize = 0;
            while i < n
                invariant
                    0 <= i <= n,
                    n == self.expressions@.len(),
                    forall|j: int|
                        0 <= j < self.expressions@.len() ==> (#[trigger] self.expressions@[j])
                            < expressions@.len(),
                    result@ == "|"@ + dot_expr_items(
                        expressions@,
                        self.expressions@.take(i as int),
                    ),
                decreases n - i,
            {
                let idx = self.expressions[i];
                let expr_str = expressions[idx].get_dot_str(expressions);
                if i == 0 {
                    result.append(expr_str.as_str());
                } else {
                    result.append(", ");
                    result.append(expr_str.as_str());
                }
                proof {
                    let idxs = self.expressions@;
                    if i == 0 {
                        assert(idxs.take(1)[0] == idxs[0]);
                        assert(dot_expr_items(expressions@, idxs.take(1)) == dot_expr_chars(
                            expressions@[idxs[0] as int],
                        ));
                    } else {
                        assert(idxs.take(i + 1).drop_last() =~= idxs.take(i as int));
                        assert(idxs.take(i + 1).last() == idxs[i as int]);
                    }
                    assert(result@ =~= "|"@ + dot_expr_items(expressions@, idxs.take(i + 1)));
                }
                i = i + 1;
            }
            proof {
                assert(self.expressions@.take(self.expressions@.len() as int)
                    =~= self.expressions@);
            }
            result
        };
        let mut out = "plannode_".to_owned();
        let id_str = crate::wire::dec_u64_string(id as u64);
        out.append(id_str.as_str());
        out.append("[label=\"{");
        out.append(label.as_str());
        out.append(expr_list.as_str());
        out.append("}\", style=\"rounded\", shape=record];\n");
        proof {
            assert(out@ =~= dot_node_chars(*self, id as int, expressions@));
        }
        out
    }
}

impl LQP {
    /// A well-formed plan: every input link points strictly downward in the
    /// arena, every expression index is in range, and the root is a node.
    pub open spec fn wf(&self) -> bool {
        &&& forall|i: int|
            0 <= i < self.nodes@.len() ==> {
                let n = #[trigger] self.nodes@[i];
                &&& (n.inputs[0] matches Some(x) ==> (x as int) < i)
                &&& (n.inputs[1] matches Some(x) ==> (x as int) < i)
                &&& forall|j: int|
                    0 <= j < n.expressions@.len() ==> (#[trigger] n.expressions@[j])
                        < self.expressions@.len()
            }
        &&& (self.root_node as int) < self.nodes@.len()
    }

    /// Append the graph lines of the subtree rooted at `id`: nodes into one
    /// buffer, edges into the other, depth first.
    #[verifier::rlimit(60)]
    pub fn create_dot_plan_nodes_and_edges(&self, id: usize, nodes: &mut String, edges: &mut String)
        requires
            self.wf(),
            (id as int) < self.nodes@.len(),
        ensures
            final(nodes)@ == old(nodes)@ + dot_walk(self.nodes@, self.expressions@, id as int).0,
            final(edges)@ == old(edges)@ + dot_walk(self.nodes@, self.expressions@, id as int).1,
        decreases id,
    {
        let node = &self.nodes[id];
        let own = node.get_dot_node(id, &self.expressions);
        nodes.append(own.as_str());
        if let Some(left) = node.inputs[0] {
            let mut edge = "plannode_".to_owned();
            let a = crate::wire::dec_u64_string(id as u64);
            edge.append(a.as_str());
            edge.append("->plannode_");
            let b = crate::wire::dec_u64_string(left as u64);
            edge.append(b.as_str());
            edge.append("\n");
            proof {
                assert(edge@ =~= dot_edge_chars(id as int, left as int));
            }
            edges.append(edge.as_str());
            self.create_dot_plan_nodes_and_edges(left, nodes, edges);
        }
        if let Some(right) = node.inputs[1] {
            let mut edge = "plannode_".to_owned();
            let a = crate::wire::dec_u64_string(id as u64);
            edge.append(a.as_str());
            edge.append("->plannode_");
            let b = crate::wire::dec_u64_string(right as u64);
            edge.append(b.as_str());
            edge.append("\n");
            proof {
                assert(edge@ =~= dot_edge_chars(id as int, right as int));
            }
            edges.append(edge.as_str());
            self.create_dot_plan_nodes_and_edges(right, nodes, edges);
        }
    }

    /// Render the plan as a directed-graph description: one line per node,
    /// one per input edge, from a depth-first walk of the root.
    pub fn get_dot_graph(&self) -> (r: String)
        requires
            self.wf(),
        ensures
            r@ == dot_graph_chars(self.nodes@, self.expressions@, self.root_node as int),
    {
        let mut nodes = String::new();
        let mut edges = String::new();
        self.create_dot_plan_nodes_and_edges(self.root_node, &mut nodes, &mut edges);
        let mut out = "digraph logical_plan {\n".to_owned();
        out.append(nodes.as_str());
        out.append("\n");
        out.append(edges.as_str());
        out.append("}");
        proof {
            assert(out@ =~= dot_graph_chars(self.nodes@, self.expressions@, self.root_node as int));
        }
        out
    }
}

impl LQP {
    /// Build a complete plan for one statement: a fresh arena whose root is
    /// the final projection.
    pub fn from(sql_statement: &Statement) -> (r: Result<LQP, LQPError>)
        ensures
            r is Err <==> stmt_error(*sql_statement) is Some,
            match r {
                Result::Err(e) => err_view(e) == stmt_error(*sql_statement)->Some_0,
                Result::Ok(lqp) => sql_statement matches Statement::Query(q)
                    && q.body matches SetExpr::Select(s)
                    && select_result_shape(
                    Seq::empty(),
                    Seq::empty(),
                    lqp.nodes@,
                    lqp.expressions@,
                    s,
                    lqp.root_node as int,
                ),
            },
    {
        let mut result = LQP { expressions: Vec::new(), nodes: Vec::new(), root_node: 0 };
        match LQPNode::from(sql_statement, &mut result) {
            Ok(node) => {
                result.root_node = node;
                Ok(result)
            },
            Err(e) => Err(e),
        }
    }
}

/// Within a cross-join chain every input link points strictly downward,
/// never below the chain's base.
proof fn lemma_chain_inputs(n: Seq<LQPNode>, base: int, names: Seq<Seq<char>>)
    requires
        cross_chain(n, base, names),
        names.len() > 0,
        n.len() <= usize::MAX,
    ensures
        forall|i: int|
            base <= i <= chain_root(base, names.len() as int) ==> {
                let nd = #[trigger] n[i];
                &&& (nd.inputs[0] matches Some(x) ==> base <= x < i)
                &&& (nd.inputs[1] matches Some(x) ==> base <= x < i)
                &&& nd.expressions@.len() == 0
            },
    decreases names.len(),
{
    let k = names.len() as int;
    if k == 1 {
        assert(is_table_node(n[base], names[0]));
        assert forall|i: int| base <= i <= chain_root(base, 1) implies {
            let nd = #[trigger] n[i];
            &&& (nd.inputs[0] matches Some(x) ==> base <= x < i)
            &&& (nd.inputs[1] matches Some(x) ==> base <= x < i)
            &&& nd.expressions@.len() == 0
        } by {
            assert(i == base);
            assert(n[base].inputs[0] is None);
            assert(n[base].inputs[1] is None);
        }
    } else {
        lemma_chain_inputs(n, base, names.drop_last());
        let t = base + 2 * (k - 1) - 1;
        let j = base + 2 * (k - 1);
        assert(is_table_node(n[t], names[k - 1]));
        assert(is_cross_join(n[j], t, chain_root(base, k - 1)));
        assert forall|i: int| base <= i <= chain_root(base, k) implies {
            let nd = #[trigger] n[i];
            &&& (nd.inputs[0] matches Some(x) ==> base <= x < i)
            &&& (nd.inputs[1] matches Some(x) ==> base <= x < i)
            &&& nd.expressions@.len() == 0
        } by {
            if i <= chain_root(base, k - 1) {
                assert(base <= i <= chain_root(base, k - 1));
            } else if i == t {
                assert(n[t].inputs[0] is None);
                assert(n[t].inputs[1] is None);
            } else {
                assert(i == j);
                assert(n[j].inputs[0] == Some(t as usize));
                assert(n[j].inputs[1] == Some(chain_root(base, k - 1) as usize));
                assert(base <= t < j);
                assert(base <= chain_root(base, k - 1) < j);
            }
        }
    }
}

/// A plan built from scratch for one SELECT is well formed: input links
/// point downward, expression indices are in range, and the root is the
/// last node.
pub proof fn lemma_built_plan_wf(lqp: LQP, s: Select)
    requires
        select_result_shape(
            Seq::empty(),
            Seq::empty(),
            lqp.nodes@,
            lqp.expressions@,
            s,
            lqp.root_node as int,
        ),
    ensures
        lqp.wf(),
{
    let n = lqp.nodes@;
    let k = s.from@.len() as int;
    let from_cnt: int = if k > 0 {
        2 * k - 1
    } else {
        0
    };
    let from_root = chain_root(0, k);
    let filter_idx = from_cnt;
    let proj_idx = filter_idx + (if s.selection {
        1int
    } else {
        0int
    });
    vstd::std_specs::vec::axiom_spec_len(&lqp.nodes);
    vstd::std_specs::vec::axiom_spec_len(&lqp.expressions);
    if k > 0 {
        lemma_chain_inputs(n, 0, table_names(s.from@));
    }
    assert forall|i: int| 0 <= i < n.len() implies {
        let nd = #[trigger] n[i];
        &&& (nd.inputs[0] matches Some(x) ==> (x as int) < i)
        &&& (nd.inputs[1] matches Some(x) ==> (x as int) < i)
        &&& forall|j: int|
            0 <= j < nd.expressions@.len() ==> (#[trigger] nd.expressions@[j])
                < lqp.expressions@.len()
    } by {
        if i < from_cnt {
            assert(k > 0);
            assert(0 <= i <= chain_root(0, k));
            assert(n[i].expressions@.len() == 0);
        } else if s.selection && i == filter_idx {
            assert(n[filter_idx].inputs[1] is None);
            assert(n[filter_idx].expressions@.len() == 0);
            if k > 0 {
                assert(n[filter_idx].inputs[0] == Some(from_root as usize));
                assert(0 <= from_root < filter_idx);
            } else {
                assert(n[filter_idx].inputs[0] is None);
            }
        } else {
            let root = lqp.root_node as int;
            assert(i == proj_idx == root);
            assert(n[root].inputs[1] is None);
            assert forall|j: int| 0 <= j < n[root].expressions@.len() implies (#[trigger] n[root].expressions@[j])
                < lqp.expressions@.len() by {
                assert(lqp.expressions@.len() == s.projection@.len());
                assert(s.projection@.len() <= usize::MAX);
                assert(n[root].expressions@[j] == (0 + j) as usize);
            }
        }
    }
}

} // verus!
