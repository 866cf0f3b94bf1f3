use nabla::definition::{classify, validate, Shape, ViewSpec};
use nabla::query::{
    check_source, check_statement_count, collect_quals, Aggregate, Attribute, Clauses, Expression, Function, JoinKind,
    JoinNode, Node, Query, RangeEntry, RangeKind, Table, TableColumn, Target,
};
use nabla::quote::Quoting;

fn clauses() -> Clauses {
    Clauses {
        select: true,
        set_operations: false,
        ctes: false,
        sublinks: false,
        window_functions: false,
        target_srfs: false,
        distinct_on: false,
        distinct: false,
        order_by: false,
        limit: false,
        offset: false,
        having: false,
        grouping_sets: false,
        for_update: false,
        row_marks: false,
    }
}

fn column(varno: i32, attno: i16, sql: &str) -> Expression {
    Expression { tree: Node::Var { varno, attno, levels_up: 0 }, mutable: false, sql: sql.into() }
}

fn call(name: &str, volatility: u8, args: Vec<Node>, sql: &str) -> Expression {
    Expression {
        tree: Node::Call { function: Some(Function { name: name.into(), volatility }), args },
        mutable: volatility != b'i',
        sql: sql.into(),
    }
}

fn target(expr: Expression, alias: &str) -> Target {
    Target { expr, alias: alias.into(), sortgroupref: 0, resjunk: false, aggregate: None, contains_aggregate: false }
}

fn key(expr: Expression, alias: &str, sortgroupref: u32) -> Target {
    Target { sortgroupref, ..target(expr, alias) }
}

fn aggregate(function: &str, args: Vec<Expression>, alias: &str) -> Target {
    Target {
        aggregate: Some(Aggregate {
            function: function.into(),
            builtin: true,
            kind: b'n',
            direct_args: false,
            distinct: false,
            filter: false,
            order: false,
            star: args.is_empty(),
            args,
        }),
        contains_aggregate: true,
        ..target(
            Expression { tree: Node::Other { children: vec![] }, mutable: false, sql: String::new() },
            alias,
        )
    }
}

fn table(oid: u32, name: &str) -> Table {
    let attribute = |attno: i16, name: &str| Attribute { attno, name: name.into() };
    Table {
        oid,
        kind: b'r',
        schema: "public".into(),
        name: name.into(),
        qualified: format!("public.{name}"),
        alias: Some(name[..1].to_string()),
        bound_to_view: false,
        named_like_view: false,
        has_children: false,
        replident: "d".into(),
        columns: vec![
            TableColumn { name: "id".into(), ty: "bigint".into() },
            TableColumn { name: "k".into(), ty: "integer".into() },
            TableColumn { name: "amount".into(), ty: "numeric".into() },
        ],
        key: vec![attribute(1, "id")],
        attributes: vec![attribute(1, "id"), attribute(2, "k"), attribute(3, "amount")],
    }
}

fn single(targets: Vec<Target>) -> Query {
    Query {
        clauses: clauses(),
        rtable: vec![RangeEntry { kind: RangeKind::Relation, lateral: false }],
        tables: vec![table(16, "orders")],
        jointree: JoinNode::From { items: vec![JoinNode::Other], qual: None },
        quals: vec![],
        targets,
        group_refs: vec![],
        has_aggs: false,
    }
}

fn projection() -> Query {
    let mut q = single(vec![target(column(1, 1, "id"), "id"), target(column(1, 2, "k"), "K")]);
    q.jointree = JoinNode::From { items: vec![JoinNode::Other], qual: Some(0) };
    q.quals = vec![Expression {
        tree: Node::Call {
            function: Some(Function { name: "int4gt".into(), volatility: b'i' }),
            args: vec![Node::Var { varno: 1, attno: 3, levels_up: 0 }],
        },
        mutable: false,
        sql: "(amount > 1)".into(),
    }];
    q
}

fn grouped() -> Query {
    let mut q = single(vec![
        key(column(1, 2, "k"), "k", 1),
        aggregate("sum", vec![column(1, 3, "amount")], "total"),
        aggregate("count", vec![column(1, 1, "id")], "c"),
    ]);
    q.group_refs = vec![1];
    q.has_aggs = true;
    q
}

fn join() -> Query {
    let mut q = single(vec![target(column(1, 2, "o.k"), "k")]);
    q.rtable = vec![
        RangeEntry { kind: RangeKind::Relation, lateral: false },
        RangeEntry { kind: RangeKind::Relation, lateral: false },
        RangeEntry { kind: RangeKind::Join, lateral: false },
    ];
    q.tables = vec![table(16, "orders"), table(17, "customers")];
    q.jointree = JoinNode::From {
        items: vec![JoinNode::Join {
            kind: JoinKind::Inner,
            left: Box::new(JoinNode::Other),
            right: Box::new(JoinNode::Other),
            qual: Some(0),
        }],
        qual: Some(1),
    };
    q.quals = vec![
        Expression {
            tree: Node::Other {
                children: vec![
                    Node::Var { varno: 1, attno: 3, levels_up: 0 },
                    Node::Var { varno: 2, attno: 2, levels_up: 0 },
                ],
            },
            mutable: false,
            sql: "o.amount = c.k".into(),
        },
        column(1, 2, "o.k > 0"),
    ];
    q
}

fn quoting() -> Quoting {
    Quoting {
        entries: ["id", "k", "total", "c", "o", "_nabla_pk1_id", "_nabla_pk2_id"]
            .iter()
            .map(|s| (s.to_string(), s.to_string()))
            .collect(),
    }
}

fn accept(q: &Query) -> ViewSpec {
    match validate(q, &quoting()) {
        Ok((spec, base)) => {
            assert_eq!(base.oid, 16);
            assert_eq!(base.qualified, "public.orders");
            assert_eq!(base.replident, "d");
            assert_eq!(base.pk_columns, vec!["id"]);
            spec
        }
        Err(report) => panic!("{report:?}"),
    }
}

fn reason(q: &Query) -> String {
    match classify(q, &quoting()) {
        Ok(_) => panic!("accepted"),
        Err(reason) => reason,
    }
}

#[test]
fn projections_are_accepted() {
    let spec = accept(&projection());
    assert_eq!(spec.shape, Shape::Projection);
    assert_eq!(spec.shape.as_str(), "projection");
    assert_eq!(spec.predicate, Some("(amount > 1)".to_string()));
    assert_eq!(spec.select_list, "id AS id, k AS \"K\"");
    assert_eq!(spec.populate_sql, "SELECT id AS id, k AS \"K\" FROM public.orders WHERE (amount > 1)");
    assert_eq!(spec.pk_columns, vec!["id"]);
    assert_eq!(spec.pk_view_columns, vec!["id"]);
    assert_eq!(spec.visible_columns, vec!["id", "K"]);
    assert!(spec.hidden_columns.is_empty());
    assert!(!spec.is_join());
    assert_eq!(spec.relations.len(), 1);
    assert_eq!(spec.relations[0].alias, "o");
    assert_eq!(spec.relations[0].columns, vec!["id", "k", "amount"]);
    assert_eq!(spec.relations[0].used_columns, vec!["id", "k", "amount"]);
    assert_eq!(spec.relations[0].used_column_types, vec!["bigint", "integer", "numeric"]);
}

#[test]
fn aggregates_get_hidden_counters() {
    let spec = accept(&grouped());
    assert_eq!(spec.shape.as_str(), "aggregate");
    assert_eq!(spec.count_alias, Some("_nabla_n".to_string()));
    assert!(spec.hidden_count);
    assert_eq!(spec.hidden_columns, vec!["_nabla_nn_0", "_nabla_n"]);
    assert_eq!(spec.sums[0].counter, "_nabla_nn_0");
    assert_eq!(spec.counts[0].alias, "c");
    assert_eq!(spec.group_by, Some("k".to_string()));
    assert_eq!(
        spec.populate_sql,
        "SELECT k AS k, sum(amount) AS total, count(id) AS c, count(amount) AS _nabla_nn_0, count(*) AS _nabla_n \
         FROM public.orders GROUP BY k"
    );

    let mut q = grouped();
    q.targets.push(aggregate("count", vec![], "n"));
    let spec = accept(&q);
    assert_eq!(spec.count_alias, Some("n".to_string()));
    assert!(!spec.hidden_count);
    assert_eq!(spec.hidden_columns, vec!["_nabla_nn_0"]);
}

#[test]
fn joins_carry_every_key() {
    let spec = accept(&join());
    assert!(spec.is_join());
    assert_eq!(spec.predicate, Some("(o.amount = c.k) AND (o.k > 0)".to_string()));
    assert_eq!(spec.pk_view_columns, vec!["_nabla_pk1_id", "_nabla_pk2_id"]);
    assert_eq!(spec.hidden_columns, spec.pk_view_columns);
    assert_eq!(
        spec.populate_sql,
        "SELECT o.k AS k, o.id AS _nabla_pk1_id, c.id AS _nabla_pk2_id FROM public.orders AS o, public.customers AS c \
         WHERE (o.amount = c.k) AND (o.k > 0)"
    );
    assert_eq!(spec.relations[0].used_columns, vec!["id", "k", "amount"]);
    assert_eq!(spec.relations[1].used_columns, vec!["id", "k"]);
    assert_eq!(spec.relations[1].rti, 2);
}

#[test]
fn reports_carry_the_reason_and_the_shapes() {
    let mut q = projection();
    q.clauses.order_by = true;
    let report = validate(&q, &quoting()).err().unwrap();
    assert_eq!(report.message, "nabla: unsupported view definition: ORDER BY is not supported");
    assert_eq!(report.code.sqlstate(), "0A000");
    assert_eq!(report.hint.as_deref(), Some(nabla::errors::SHAPES_HINT));
}

#[test]
fn clauses_are_rejected_in_order() {
    let mut q = projection();
    q.clauses.select = false;
    q.clauses.limit = true;
    assert_eq!(reason(&q), "only SELECT statements are supported");
    q.clauses.select = true;
    assert_eq!(reason(&q), "LIMIT and OFFSET are not supported");
    q.clauses.limit = false;
    q.clauses.row_marks = true;
    assert_eq!(reason(&q), "FOR UPDATE and FOR SHARE are not supported");
    q.clauses.distinct_on = true;
    assert_eq!(reason(&q), "DISTINCT is not supported");
}

#[test]
fn range_tables_hold_ordinary_tables() {
    let mut q = projection();
    q.rtable.push(RangeEntry { kind: RangeKind::Subquery, lateral: false });
    assert_eq!(reason(&q), "subqueries in FROM are not supported");
    q.rtable[1].lateral = true;
    assert_eq!(reason(&q), "LATERAL is not supported");
    q.rtable.clear();
    q.tables.clear();
    assert_eq!(reason(&q), "a FROM clause with one or more ordinary tables is required");
}

#[test]
fn base_tables_are_checked() {
    let with = |change: fn(&mut Table)| {
        let mut q = projection();
        change(&mut q.tables[0]);
        reason(&q)
    };
    assert_eq!(
        with(|t| t.schema = "nabla_store".into()),
        "public.orders is a nabla storage table and cannot be a base table"
    );
    assert_eq!(
        with(|t| t.schema = "nabla_shadow".into()),
        "public.orders is a nabla shadow table and cannot be a base table"
    );
    assert_eq!(with(|t| t.kind = b'v'), "public.orders is a view; the base must be an ordinary table");
    assert_eq!(with(|t| t.kind = b'S'), "public.orders is not an ordinary table (relkind 'S')");
    assert_eq!(
        with(|t| t.named_like_view = true),
        "public.orders is a nabla view; views cannot be built on other nabla views"
    );
    assert_eq!(
        with(|t| t.has_children = true),
        "public.orders has inheritance children, which logical decoding does not follow"
    );
    assert_eq!(
        with(|t| t.key.clear()),
        "public.orders has no primary key; a projection view needs one to locate deleted rows"
    );
    let mut q = join();
    q.tables[1].oid = 16;
    assert_eq!(reason(&q), "table public.customers is referenced twice; self-joins are not supported");
    let mut q = join();
    q.tables[1].key.clear();
    assert_eq!(reason(&q), "public.customers has no primary key; every table in a join view needs one");
}

#[test]
fn only_inner_joins_are_accepted() {
    let mut q = join();
    q.jointree = JoinNode::Join {
        kind: JoinKind::RightAnti,
        left: Box::new(JoinNode::Other),
        right: Box::new(JoinNode::Other),
        qual: None,
    };
    assert_eq!(reason(&q), "ANTI JOIN is not supported; only inner joins are");
    let mut out = vec![9];
    assert!(collect_quals(&join().jointree, &mut out).is_ok());
    assert_eq!(out, vec![9, 0, 1]);
}

#[test]
fn mutable_expressions_are_named() {
    let mut q = projection();
    q.targets[1].expr = call("lower", b'i', vec![], "x");
    q.targets[1].expr.mutable = true;
    q.targets[1].expr.tree = Node::Other {
        children: vec![Node::Call {
            function: Some(Function { name: "now".into(), volatility: b's' }),
            args: vec![],
        }],
    };
    assert_eq!(
        reason(&q),
        "column \"K\" uses \"now\", which is not IMMUTABLE; the view must be a pure function of the base table"
    );
    q.targets[1].expr.tree = Node::SqlValue;
    assert!(reason(&q).contains("current_date/current_time/current_user or similar"));
    q.targets[1].expr.tree = Node::Other { children: vec![] };
    assert_eq!(reason(&q), "column \"K\" uses a function that is not IMMUTABLE");
    let mut q = projection();
    q.quals[0].mutable = true;
    q.quals[0].tree = Node::NextValue;
    assert!(reason(&q).starts_with("the WHERE clause uses \"nextval\""));
}

#[test]
fn select_lists_are_checked() {
    let mut q = projection();
    q.targets[1].alias = "_nabla_x".into();
    assert_eq!(reason(&q), "column names starting with _nabla_ are reserved (\"_nabla_x\")");
    q.targets[1].alias = "id".into();
    assert_eq!(reason(&q), "output column names must be unique; add AS aliases (duplicate: \"id\")");
    let mut q = projection();
    q.targets[1].expr = column(2, 1, "x");
    assert_eq!(reason(&q), "a column reference could not be resolved to one of the joined tables");
    let mut q = projection();
    q.targets[1].expr = column(1, 0, "orders");
    assert_eq!(reason(&q), "whole-row references are not supported");
    let mut q = projection();
    q.targets.remove(0);
    assert_eq!(
        reason(&q),
        "the select list must include the primary key column(s) of public.orders as plain columns: missing id"
    );
    let mut q = projection();
    for t in q.targets.iter_mut() {
        t.resjunk = true;
    }
    assert_eq!(reason(&q), "the select list is empty");
    let mut q = grouped();
    q.targets[0].resjunk = true;
    assert_eq!(reason(&q), "every GROUP BY expression must also appear in the select list");
    let mut q = projection();
    q.group_refs = vec![1];
    assert_eq!(reason(&q), "GROUP BY without an aggregate is not supported");
}

#[test]
fn other_aggregates_are_rejected() {
    let with = |change: fn(&mut Aggregate)| {
        let mut q = grouped();
        change(q.targets[1].aggregate.as_mut().unwrap());
        reason(&q)
    };
    assert_eq!(
        with(|a| a.function = "avg".into()),
        "aggregate \"avg\" is not supported; only count(*), count(expression) and sum(expression) are accepted"
    );
    assert!(with(|a| a.builtin = false).starts_with("aggregate \"sum\" is not supported"));
    assert_eq!(
        with(|a| a.kind = b'o'),
        "ordered-set and hypothetical-set aggregates like \"sum\" are not supported"
    );
    assert_eq!(with(|a| a.distinct = true), "DISTINCT inside aggregates is not supported (column \"total\")");
    assert_eq!(with(|a| a.filter = true), "FILTER on aggregates is not supported (column \"total\")");
    assert_eq!(with(|a| a.order = true), "ORDER BY inside aggregates is not supported (column \"total\")");
    assert_eq!(with(|a| a.args.clear()), "sum() must have exactly one argument");
    assert!(with(|a| a.args[0] = call("random", b'v', vec![], "random()"))
        .starts_with("the argument of sum() in column \"total\" uses \"random\""));
    let mut q = grouped();
    q.targets.push(aggregate("count", vec![], "n"));
    q.targets.push(aggregate("count", vec![], "m"));
    assert_eq!(reason(&q), "count(*) may appear only once");
    let mut q = grouped();
    q.targets[1].aggregate = None;
    assert!(reason(&q).starts_with("column \"total\" is an expression over an aggregate"));
    q.targets[1].contains_aggregate = false;
    assert_eq!(reason(&q), "column \"total\" is neither a GROUP BY key nor an accepted aggregate");
    let mut q = grouped();
    q.group_refs.clear();
    assert_eq!(reason(&q), "aggregates require a GROUP BY clause");
    let mut q = grouped();
    q.targets.remove(0);
    assert_eq!(reason(&q), "at least one GROUP BY key must be selected");
}

#[test]
fn definitions_are_one_statement() {
    assert!(check_source("SELECT 1").is_ok());
    assert_eq!(check_source("a\0b").unwrap_err().message, "nabla: the definition contains a NUL byte");
    assert_eq!(check_statement_count(0), Err("the definition is empty".to_string()));
    assert_eq!(check_statement_count(1), Ok(()));
    assert_eq!(
        check_statement_count(12),
        Err("the definition must be exactly one SELECT statement, found 12".to_string())
    );
}
