use minipg::lqp::{FunctionType, JoinMode, LQPError, LQPExpressionData, LQPNode, LQPNodeData, LQP};
use minipg::sqlast::{
    Expr, FunctionCall, Ident, Query, Select, SelectItem, SetExpr, Statement, TableFactor,
    TableWithJoins,
};

fn table(name: &str) -> TableWithJoins {
    TableWithJoins {
        relation: TableFactor::Table { name: vec![Ident { value: name.to_string() }] },
        joins: 0,
    }
}

fn session_user_item() -> SelectItem {
    SelectItem::UnnamedExpr(Expr::Identifier(Ident { value: "session_user".to_string() }))
}

fn select_stmt(from: Vec<TableWithJoins>, selection: bool, projection: Vec<SelectItem>)
    -> Statement {
    Statement::Query(Query {
        with: false,
        order_by: 0,
        limit: false,
        offset: false,
        fetch: false,
        body: SetExpr::Select(Select {
            distinct: false,
            top: false,
            lateral_views: 0,
            cluster_by: 0,
            distribute_by: 0,
            sort_by: 0,
            from,
            selection,
            projection,
        }),
    })
}

fn not_supported_reason(r: &Result<LQP, LQPError>) -> &str {
    match r {
        Err(LQPError::NotSupported(m)) => m.as_str(),
        _ => panic!("expected a NotSupported error"),
    }
}

#[test]
fn session_user_over_one_table() {
    let stmt = select_stmt(vec![table("t")], false, vec![session_user_item()]);
    let lqp = LQP::from(&stmt).unwrap();
    assert_eq!(lqp.nodes.len(), 2);
    assert_eq!(lqp.root_node, 1);
    match &lqp.nodes[0].data {
        LQPNodeData::Table { schema_name, table_name } => {
            assert!(schema_name.is_none());
            assert_eq!(table_name, "t");
        },
        _ => panic!("expected a table leaf"),
    }
    assert!(matches!(lqp.nodes[1].data, LQPNodeData::Projection));
    assert_eq!(lqp.nodes[1].inputs, [Some(0), None]);
    assert_eq!(lqp.nodes[0].output, Some(1));
    assert_eq!(lqp.nodes[1].expressions, vec![0]);
    assert!(matches!(
        lqp.expressions[0].data,
        LQPExpressionData::Function(FunctionType::SessionUser)
    ));
}

#[test]
fn cross_product_joins_new_table_on_the_left() {
    let stmt = select_stmt(vec![table("t1"), table("t2")], false, vec![session_user_item()]);
    let lqp = LQP::from(&stmt).unwrap();
    // nodes: Table(t1), Table(t2), Join(Cross), Projection
    assert_eq!(lqp.nodes.len(), 4);
    assert_eq!(lqp.root_node, 3);
    assert!(matches!(lqp.nodes[3].data, LQPNodeData::Projection));
    assert_eq!(lqp.nodes[3].inputs, [Some(2), None]);
    assert!(matches!(lqp.nodes[2].data, LQPNodeData::Join(JoinMode::Cross)));
    // the newest table is the join's first input, the accumulator its second
    assert_eq!(lqp.nodes[2].inputs, [Some(1), Some(0)]);
    match &lqp.nodes[1].data {
        LQPNodeData::Table { table_name, .. } => assert_eq!(table_name, "t2"),
        _ => panic!("expected the new table on the left"),
    }
    match &lqp.nodes[0].data {
        LQPNodeData::Table { table_name, .. } => assert_eq!(table_name, "t1"),
        _ => panic!("expected the first table as accumulator"),
    }
}

#[test]
fn where_clause_wraps_a_filter_between_scan_and_projection() {
    let stmt = select_stmt(vec![table("t")], true, vec![session_user_item()]);
    let lqp = LQP::from(&stmt).unwrap();
    // nodes: Table(t), Filter, Projection
    assert_eq!(lqp.nodes.len(), 3);
    assert_eq!(lqp.root_node, 2);
    assert!(matches!(lqp.nodes[1].data, LQPNodeData::Filter));
    assert_eq!(lqp.nodes[1].inputs, [Some(0), None]);
    assert_eq!(lqp.nodes[1].output, Some(2));
    assert!(matches!(lqp.nodes[2].data, LQPNodeData::Projection));
    assert_eq!(lqp.nodes[2].inputs, [Some(1), None]);
    assert_eq!(lqp.nodes[0].output, Some(1));
}

#[test]
fn order_by_is_rejected_with_no_nodes_created() {
    let stmt = Statement::Query(Query {
        with: false,
        order_by: 1,
        limit: false,
        offset: false,
        fetch: false,
        body: SetExpr::Select(Select {
            distinct: false,
            top: false,
            lateral_views: 0,
            cluster_by: 0,
            distribute_by: 0,
            sort_by: 0,
            from: vec![table("t")],
            selection: false,
            projection: vec![session_user_item()],
        }),
    });
    let mut lqp = LQP { expressions: Vec::new(), nodes: Vec::new(), root_node: 0 };
    let query = match &stmt {
        Statement::Query(q) => q,
        _ => unreachable!(),
    };
    let r = LQPNode::from_query(query, &mut lqp);
    match r {
        Err(LQPError::NotSupported(m)) => assert_eq!(m, "ORDER BY"),
        _ => panic!("expected NotSupported"),
    }
    assert_eq!(lqp.nodes.len(), 0);
    assert_eq!(lqp.expressions.len(), 0);
}

#[test]
fn current_schema_function_is_recognized() {
    let item = SelectItem::UnnamedExpr(Expr::Function(FunctionCall {
        name: vec![Ident { value: "current_schema".to_string() }],
    }));
    let stmt = select_stmt(vec![table("t")], false, vec![item]);
    let lqp = LQP::from(&stmt).unwrap();
    assert!(matches!(
        lqp.expressions[0].data,
        LQPExpressionData::Function(FunctionType::CurrentSchema)
    ));
}

#[test]
fn select_without_from_projects_from_nothing() {
    let stmt = select_stmt(Vec::new(), false, vec![session_user_item()]);
    let lqp = LQP::from(&stmt).unwrap();
    assert_eq!(lqp.nodes.len(), 1);
    assert_eq!(lqp.nodes[0].inputs, [None, None]);
    assert!(matches!(lqp.nodes[0].data, LQPNodeData::Projection));
}

#[test]
fn outer_clauses_are_rejected_by_name() {
    let base = |with, order_by, limit, offset, fetch| {
        Statement::Query(Query {
            with,
            order_by,
            limit,
            offset,
            fetch,
            body: SetExpr::Select(Select {
                distinct: false,
                top: false,
                lateral_views: 0,
                cluster_by: 0,
                distribute_by: 0,
                sort_by: 0,
                from: vec![table("t")],
                selection: false,
                projection: vec![session_user_item()],
            }),
        })
    };
    assert_eq!(not_supported_reason(&LQP::from(&base(true, 0, false, false, false))), "WITH");
    assert_eq!(not_supported_reason(&LQP::from(&base(false, 2, false, false, false))), "ORDER BY");
    assert_eq!(not_supported_reason(&LQP::from(&base(false, 0, true, false, false))), "LIMIT");
    assert_eq!(not_supported_reason(&LQP::from(&base(false, 0, false, true, false))), "OFFSET");
    assert_eq!(not_supported_reason(&LQP::from(&base(false, 0, false, false, true))), "FETCH");
}

#[test]
fn select_clauses_are_rejected_by_name() {
    let base = |distinct, top, lateral_views, cluster_by, distribute_by, sort_by| {
        Statement::Query(Query {
            with: false,
            order_by: 0,
            limit: false,
            offset: false,
            fetch: false,
            body: SetExpr::Select(Select {
                distinct,
                top,
                lateral_views,
                cluster_by,
                distribute_by,
                sort_by,
                from: vec![table("t")],
                selection: false,
                projection: vec![session_user_item()],
            }),
        })
    };
    assert_eq!(
        not_supported_reason(&LQP::from(&base(true, false, 0, 0, 0, 0))),
        "DISTINCT"
    );
    assert_eq!(not_supported_reason(&LQP::from(&base(false, true, 0, 0, 0, 0))), "TOP");
    assert_eq!(
        not_supported_reason(&LQP::from(&base(false, false, 1, 0, 0, 0))),
        "LATERAL VIEW"
    );
    assert_eq!(
        not_supported_reason(&LQP::from(&base(false, false, 0, 1, 0, 0))),
        "CLUSTER BY"
    );
    assert_eq!(
        not_supported_reason(&LQP::from(&base(false, false, 0, 0, 1, 0))),
        "DISTRIBUTE BY"
    );
    assert_eq!(
        not_supported_reason(&LQP::from(&base(false, false, 0, 0, 0, 1))),
        "SORT BY"
    );
}

#[test]
fn non_select_bodies_and_non_queries_are_rejected() {
    let stmt = Statement::Query(Query {
        with: false,
        order_by: 0,
        limit: false,
        offset: false,
        fetch: false,
        body: SetExpr::Other,
    });
    assert_eq!(not_supported_reason(&LQP::from(&stmt)), "SetExpr!=SELECT");
    assert!(matches!(LQP::from(&Statement::Other), Err(LQPError::Generic)));
}

#[test]
fn from_items_are_rejected_by_name() {
    let joined = TableWithJoins {
        relation: TableFactor::Table { name: vec![Ident { value: "t".to_string() }] },
        joins: 1,
    };
    let stmt = select_stmt(vec![joined], false, vec![session_user_item()]);
    assert_eq!(not_supported_reason(&LQP::from(&stmt)), "JOIN");

    let derived = TableWithJoins { relation: TableFactor::Other, joins: 0 };
    let stmt = select_stmt(vec![derived], false, vec![session_user_item()]);
    assert_eq!(not_supported_reason(&LQP::from(&stmt)), "TableFactor!=Table");

    let unnamed = TableWithJoins { relation: TableFactor::Table { name: Vec::new() }, joins: 0 };
    let stmt = select_stmt(vec![unnamed], false, vec![session_user_item()]);
    match LQP::from(&stmt) {
        Err(LQPError::ASTError(m)) => assert_eq!(m, "empty table name"),
        _ => panic!("expected an ASTError"),
    }
}

#[test]
fn projection_items_are_rejected_by_name() {
    let column = SelectItem::UnnamedExpr(Expr::Identifier(Ident { value: "a".to_string() }));
    let stmt = select_stmt(vec![table("t")], false, vec![column]);
    assert_eq!(
        not_supported_reason(&LQP::from(&stmt)),
        "Column expressions are not yet supported"
    );

    let multipart = SelectItem::UnnamedExpr(Expr::Function(FunctionCall {
        name: vec![Ident { value: "a".to_string() }, Ident { value: "b".to_string() }],
    }));
    let stmt = select_stmt(vec![table("t")], false, vec![multipart]);
    assert_eq!(
        not_supported_reason(&LQP::from(&stmt)),
        "Multipart function names are not supported"
    );

    let unknown_fn = SelectItem::UnnamedExpr(Expr::Function(FunctionCall {
        name: vec![Ident { value: "now".to_string() }],
    }));
    let stmt = select_stmt(vec![table("t")], false, vec![unknown_fn]);
    assert_eq!(not_supported_reason(&LQP::from(&stmt)), "Unsupported function name");

    let other_expr = SelectItem::UnnamedExpr(Expr::Other);
    let stmt = select_stmt(vec![table("t")], false, vec![other_expr]);
    assert_eq!(not_supported_reason(&LQP::from(&stmt)), "Unsupported expression type");

    let wildcard = SelectItem::Other;
    let stmt = select_stmt(vec![table("t")], false, vec![wildcard]);
    assert_eq!(not_supported_reason(&LQP::from(&stmt)), "SelectItem != UnnamedExpr");
}

#[test]
fn non_query_statement_leaves_the_arena_untouched() {
    let mut lqp = LQP { expressions: Vec::new(), nodes: Vec::new(), root_node: 0 };
    let r = LQPNode::from(&Statement::Other, &mut lqp);
    assert!(matches!(r, Err(LQPError::Generic)));
    assert_eq!(lqp.nodes.len(), 0);
    assert_eq!(lqp.expressions.len(), 0);
}

#[test]
fn outright_select_rejection_leaves_the_arena_untouched() {
    let mut lqp = LQP { expressions: Vec::new(), nodes: Vec::new(), root_node: 0 };
    let select = Select {
        distinct: true,
        top: false,
        lateral_views: 0,
        cluster_by: 0,
        distribute_by: 0,
        sort_by: 0,
        from: vec![table("t")],
        selection: false,
        projection: vec![session_user_item()],
    };
    let r = LQPNode::from_select(&select, &mut lqp);
    match r {
        Err(LQPError::NotSupported(m)) => assert_eq!(m, "DISTINCT"),
        _ => panic!("expected NotSupported"),
    }
    assert_eq!(lqp.nodes.len(), 0);
    assert_eq!(lqp.expressions.len(), 0);
}

#[test]
fn from_error_after_the_first_table_keeps_its_node() {
    let mut lqp = LQP { expressions: Vec::new(), nodes: Vec::new(), root_node: 0 };
    let joined = TableWithJoins {
        relation: TableFactor::Table { name: vec![Ident { value: "t2".to_string() }] },
        joins: 1,
    };
    let from = vec![table("t1"), joined];
    let r = LQPNode::from_from(&from, &mut lqp);
    match r {
        Err(LQPError::NotSupported(m)) => assert_eq!(m, "JOIN"),
        _ => panic!("expected NotSupported"),
    }
    // the valid first table's node was already appended; no rollback
    assert_eq!(lqp.nodes.len(), 1);
    match &lqp.nodes[0].data {
        LQPNodeData::Table { table_name, .. } => assert_eq!(table_name, "t1"),
        _ => panic!("expected the first table's node"),
    }
}

#[test]
fn error_messages_render_like_the_error() {
    assert_eq!(LQPError::Generic.to_message(), "Generic");
    assert_eq!(
        LQPError::NotSupported("ORDER BY".to_string()).to_message(),
        "Not supported: ORDER BY"
    );
    assert_eq!(
        LQPError::ASTError("empty table name".to_string()).to_message(),
        "AST Error: empty table name"
    );
}

#[test]
fn dot_graph_of_a_single_table_projection() {
    let stmt = select_stmt(vec![table("t")], false, vec![session_user_item()]);
    let lqp = LQP::from(&stmt).unwrap();
    let dot = lqp.get_dot_graph();
    let expected = "digraph logical_plan {\n\
                    plannode_1[label=\"{Projection|SessionUser()}\", style=\"rounded\", shape=record];\n\
                    plannode_0[label=\"{Table [t]}\", style=\"rounded\", shape=record];\n\
                    \n\
                    plannode_1->plannode_0\n\
                    }";
    assert_eq!(dot, expected);
}

#[test]
fn dot_graph_of_a_cross_join() {
    let stmt = select_stmt(vec![table("t1"), table("t2")], false, vec![session_user_item()]);
    let lqp = LQP::from(&stmt).unwrap();
    let dot = lqp.get_dot_graph();
    assert!(dot.starts_with("digraph logical_plan {\n"));
    assert!(dot.contains("plannode_2[label=\"{Join(Cross)}\""));
    assert!(dot.contains("plannode_3->plannode_2\n"));
    assert!(dot.contains("plannode_2->plannode_1\n"));
    assert!(dot.contains("plannode_2->plannode_0\n"));
    assert!(dot.ends_with("}"));
}
