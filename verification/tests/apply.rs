use nabla::apply::{
    conclude, execute, net, plan_cache_full, plan_join, plan_single_delete, plan_single_insert, resolve_unchanged,
    row_args, statement_failure, Delta, Execution, Op, Plan, PlanEnd, Planned, Stale, Step, ViewTarget,
};
use nabla::definition::{BaseRelation, OutputColumn, Shape, SumSpec, ViewSpec};
use nabla::pgoutput::{ColumnValue, Relation, RelationColumn};
use nabla::quote::Quoting;
use nabla::statement::{Arg, Statement};

fn spec() -> ViewSpec {
    ViewSpec {
        shape: Shape::Aggregate,
        base_table: String::new(),
        base_relname: String::new(),
        predicate: None,
        columns: vec![OutputColumn { expr: "k".into(), alias: "k".into() }],
        pk_columns: vec![],
        pk_view_columns: vec![],
        count_alias: Some("n".into()),
        hidden_count: false,
        counts: vec![],
        sums: vec![],
        populate_sql: String::new(),
        relations: vec![],
        select_list: String::new(),
        group_by: None,
        visible_columns: vec!["k".into(), "n".into()],
        hidden_columns: vec!["_nabla_nn_0".into()],
    }
}

fn projection() -> ViewSpec {
    ViewSpec {
        shape: Shape::Projection,
        base_relname: "orders".into(),
        predicate: Some("(k > 1)".into()),
        columns: vec![OutputColumn { expr: "id".into(), alias: "Id".into() }],
        pk_columns: vec!["id".into()],
        pk_view_columns: vec!["Id".into()],
        count_alias: None,
        select_list: "id AS \"Id\"".into(),
        visible_columns: vec!["Id".into()],
        hidden_columns: vec![],
        ..spec()
    }
}

fn quoting() -> Quoting {
    Quoting {
        entries: ["id", "k", "n", "t", "orders", "o", "c", "_nabla_nn_1"]
            .iter()
            .map(|s| (s.to_string(), s.to_string()))
            .collect(),
    }
}

fn relation(resolved: bool) -> Relation {
    let column = |name: &str, ty: &str| RelationColumn {
        name: name.into(),
        is_key: name == "id",
        typid: 20,
        typmod: -1,
        resolved_type: if resolved { Some(ty.to_string()) } else { None },
    };
    Relation {
        id: 16,
        namespace: "public".into(),
        name: "orders".into(),
        replident: b'd',
        columns: vec![column("id", "bigint"), column("k", "integer")],
    }
}

fn d(op: char, json: &str) -> Delta {
    Delta { op, row_json: json.to_string() }
}

fn text(s: &str) -> ColumnValue {
    ColumnValue::Text(s.into())
}

#[test]
fn nets_to_final_state() {
    let out =
        net(&spec(), vec![d('I', r#"{"k":1,"n":1}"#), d('D', r#"{"k":1,"n":1}"#), d('I', r#"{"k":1,"n":2}"#)]);
    assert_eq!(out.len(), 1);
    assert_eq!(out[0].op, 'I');
    assert!(out[0].row_json.contains(r#""n":2"#));
}

#[test]
fn insert_then_delete_is_silent_and_delete_keeps_before() {
    assert!(net(&spec(), vec![d('I', r#"{"k":1,"n":1}"#), d('D', r#"{"k":1,"n":1}"#)]).is_empty());
    let out =
        net(&spec(), vec![d('D', r#"{"k":2,"n":3}"#), d('I', r#"{"k":2,"n":1}"#), d('D', r#"{"k":2,"n":1}"#)]);
    assert_eq!(out.len(), 1);
    assert_eq!((out[0].op, out[0].row_json.contains(r#""n":3"#)), ('D', true));
}

#[test]
fn hidden_only_changes_are_silent_and_keys_keep_order() {
    assert!(net(
        &spec(),
        vec![d('D', r#"{"k":1,"n":1,"_nabla_nn_0":0}"#), d('I', r#"{"k":1,"n":1,"_nabla_nn_0":1}"#)]
    )
    .is_empty());
    let out =
        net(&spec(), vec![d('D', r#"{"k":9,"n":1}"#), d('I', r#"{"k":9,"n":2}"#), d('D', r#"{"k":3,"n":5}"#)]);
    let ops: Vec<(char, i64)> = out
        .iter()
        .map(|x| (x.op, serde_json::from_str::<serde_json::Value>(&x.row_json).unwrap()["k"].as_i64().unwrap()))
        .collect();
    assert_eq!(ops, vec![('D', 9), ('I', 9), ('D', 3)]);
}

#[test]
fn netted_rows_are_printed_with_sorted_members() {
    let out = net(&spec(), vec![d('I', "{ \"n\" : 1.50, \"k\" : [1, null, \"x\"] }"), d('I', "no json")]);
    assert_eq!(out, vec![d('I', r#"{"k":[1,null,"x"],"n":1.5}"#)]);
}

#[test]
fn netting_compares_values_not_texts() {
    // The two zeros are one number; an integer is never equal to a fraction.
    assert!(net(&spec(), vec![d('D', r#"{"k":1,"n":0.0}"#), d('I', r#"{"n":-0.0,"k":1}"#)]).is_empty());
    assert_eq!(net(&spec(), vec![d('D', r#"{"k":1,"n":1}"#), d('I', r#"{"k":1,"n":1.0}"#)]).len(), 2);
    // A missing key column counts as null.
    assert!(net(&spec(), vec![d('I', r#"{"n":1}"#), d('D', r#"{"k":null}"#)]).is_empty());
    // Nested values are compared member by member.
    assert!(net(
        &spec(),
        vec![d('D', r#"{"k":{"a":[1,2],"b":true},"n":1}"#), d('I', r#"{"k":{"b":true,"a":[1,2]},"n":1}"#)]
    )
    .is_empty());
    // Rows that are no objects share the key of nulls.
    assert_eq!(net(&spec(), vec![d('I', "1"), d('I', "2")]), vec![d('I', "2")]);
}

#[test]
fn projection_rows_are_told_apart_by_key_columns() {
    let out = net(&projection(), vec![d('I', r#"{"Id":1}"#), d('I', r#"{"Id":2}"#), d('D', r#"{"Id":1}"#)]);
    assert_eq!(out, vec![d('I', r#"{"Id":2}"#)]);
}

#[test]
fn decoded_values_become_text_parameters() {
    assert_eq!(
        row_args(&vec![text("1"), ColumnValue::Null, ColumnValue::Unchanged]),
        vec![Some("1".to_string()), None, None]
    );
}

#[test]
fn unchanged_values_are_resolved() {
    let rel = relation(true);
    let new = vec![text("1"), ColumnValue::Unchanged];
    let old = vec![text("0"), text("7")];
    assert_eq!(resolve_unchanged(&rel, &new, Some(&old), |_: &str| true), Ok(vec![text("1"), text("7")]));
    assert_eq!(resolve_unchanged(&rel, &new, None, |_: &str| false), Ok(vec![text("1"), ColumnValue::Null]));
    let lost = vec![text("0"), ColumnValue::Unchanged];
    assert_eq!(
        resolve_unchanged(&rel, &new, Some(&lost), |c: &str| c == "k"),
        Err(Stale(
            "unchanged TOAST value for column k could not be recovered (REPLICA IDENTITY FULL is required)".to_string()
        ))
    );
}

#[test]
fn inserts_are_planned_over_one_row_of_values() {
    let spec = projection();
    let view = ViewTarget { name: "nabla_store.v1", spec: &spec };
    let plan = plan_single_insert(&view, &relation(true), &vec![text("1"), ColumnValue::Null], &quoting());
    assert_eq!(
        plan,
        Plan {
            steps: vec![Step::Rows {
                query: Statement {
                    sql: "SELECT to_jsonb(r)::text FROM (SELECT id AS \"Id\" FROM (VALUES ($1::bigint, $2::integer)) \
                          AS orders(id, k) WHERE (k > 1)) AS r"
                        .to_string(),
                    args: vec![Arg::Text(Some("1".into())), Arg::Text(None)],
                },
                sign: 1,
            }],
            end: PlanEnd::Done,
        }
    );
    let unresolved = plan_single_insert(&view, &relation(false), &vec![text("1"), ColumnValue::Null], &quoting());
    assert_eq!(unresolved.steps, vec![]);
    assert_eq!(unresolved.end, PlanEnd::Failed("type of column id not resolved".to_string()));
}

#[test]
fn deletes_are_planned_by_key() {
    let spec = projection();
    let view = ViewTarget { name: "nabla_store.v1", spec: &spec };
    let rel = relation(true);
    let plan = plan_single_delete(&view, &rel, b'K', &vec![text("5"), ColumnValue::Null], &quoting());
    assert_eq!(
        plan.steps,
        vec![Step::Delete { conds: "v.\"Id\" = $1::bigint".to_string(), values: vec![Some("5".to_string())] }]
    );
    let plan = plan_single_delete(&view, &rel, b'K', &vec![ColumnValue::Null, text("5")], &quoting());
    assert_eq!(
        plan.end,
        PlanEnd::Stale(Stale("primary key column id missing from the decoded old row".to_string()))
    );
    let plan = plan_single_delete(&view, &relation(false), b'K', &vec![text("5"), ColumnValue::Null], &quoting());
    assert_eq!(plan.end, PlanEnd::Failed("type not resolved".to_string()));
    let mut renamed = relation(true);
    renamed.columns[0].name = "other".into();
    let plan = plan_single_delete(&view, &renamed, b'K', &vec![text("5"), ColumnValue::Null], &quoting());
    assert_eq!(plan.end, PlanEnd::Failed("primary key column id missing".to_string()));
}

#[test]
fn aggregates_need_the_full_old_row() {
    let spec = ViewSpec { group_by: Some("k".into()), base_relname: "orders".into(), select_list: "k AS k, count(*) AS n".into(), ..spec() };
    let view = ViewTarget { name: "nabla_store.v1", spec: &spec };
    let rel = relation(true);
    let old = vec![text("5"), text("1")];
    let plan = plan_single_delete(&view, &rel, b'K', &old, &quoting());
    assert_eq!(
        plan.end,
        PlanEnd::Stale(Stale("old row not available; the base table needs REPLICA IDENTITY FULL".to_string()))
    );
    let plan = plan_single_delete(&view, &rel, b'O', &old, &quoting());
    match &plan.steps[0] {
        Step::Rows { query, sign } => {
            assert_eq!(*sign, -1);
            assert!(query.sql.ends_with("AS orders(id, k) GROUP BY k) AS r"));
        }
        other => panic!("{other:?}"),
    }
}

#[test]
fn join_rows_meet_the_shadows_of_the_others() {
    let base = |oid: u32, rti: usize, alias: &str| BaseRelation {
        oid,
        rti,
        alias: alias.into(),
        qualified: format!("public.{alias}"),
        pk_columns: vec!["id".into()],
        columns: vec!["id".into()],
        column_types: vec!["bigint".into()],
        used_columns: vec!["id".into()],
        used_column_types: vec!["bigint".into()],
    };
    let spec = ViewSpec { relations: vec![base(16, 1, "o"), base(17, 2, "c")], select_list: "o.id AS id".into(), ..projection() };
    let view = ViewTarget { name: "nabla_store.v1", spec: &spec };
    let plan = plan_join(&view, 0, &relation(true), &vec![text("1"), text("2")], -1, &quoting());
    match &plan.steps[0] {
        Step::Rows { query, sign } => {
            assert_eq!(*sign, -1);
            assert_eq!(
                query.sql,
                "SELECT to_jsonb(r)::text FROM (SELECT o.id AS id FROM (VALUES ($1::bigint, $2::integer)) AS o(id, k), \
                 nabla_shadow.t17 AS c WHERE (k > 1)) AS r"
            );
        }
        other => panic!("{other:?}"),
    }
}

#[test]
fn plans_are_concluded_with_their_rows() {
    let rows = |sign: i32| Step::Rows { query: Statement { sql: "q".into(), args: vec![] }, sign };
    let plan = Plan {
        steps: vec![rows(-1), Step::Delete { conds: "c".into(), values: vec![None] }, rows(1)],
        end: PlanEnd::Done,
    };
    let result = conclude(plan, vec![vec!["a".into(), "b".into()], vec![], vec!["c".into()]]);
    assert_eq!(
        result,
        Ok(Planned::Ops(vec![
            Op::Row { sign: -1, row_json: "a".into() },
            Op::Row { sign: -1, row_json: "b".into() },
            Op::DeleteByKey { conds: "c".into(), values: vec![None] },
            Op::Row { sign: 1, row_json: "c".into() },
        ]))
    );
    let stale = Plan { steps: vec![], end: PlanEnd::Stale(Stale("s".into())) };
    assert_eq!(conclude(stale, vec![]), Ok(Planned::Stale(Stale("s".into()))));
    let failed = Plan { steps: vec![], end: PlanEnd::Failed("f".into()) };
    assert_eq!(conclude(failed, vec![]), Err("f".to_string()));
}

#[test]
fn a_plan_stops_where_an_earlier_one_ended() {
    let first = Plan { steps: vec![Step::Delete { conds: "c".into(), values: vec![] }], end: PlanEnd::Done };
    let second = Plan { steps: vec![], end: PlanEnd::Stale(Stale("s".into())) };
    let both = first.followed(second);
    assert_eq!((both.steps.len(), &both.end), (1, &PlanEnd::Stale(Stale("s".into()))));
    let third = Plan { steps: vec![], end: PlanEnd::Done };
    assert_eq!(both.followed(third).end, PlanEnd::Stale(Stale("s".into())));
}

fn sql_of(ex: &Execution, view: &ViewTarget) -> String {
    ex.next(view, &quoting()).unwrap().unwrap().sql
}

#[test]
fn projection_rows_are_executed_one_by_one() {
    let spec = projection();
    let view = ViewTarget { name: "nabla_store.v1", spec: &spec };
    let mut ex = execute(vec![
        Op::DeleteByKey { conds: "v.id = $1::bigint".into(), values: vec![Some("5".into())] },
        Op::Row { sign: 1, row_json: "{\"Id\":1}".into() },
        Op::Row { sign: -1, row_json: "{\"Id\":2}".into() },
    ]);
    let first = ex.next(&view, &quoting()).unwrap().unwrap();
    assert_eq!(first.sql, "DELETE FROM nabla_store.v1 AS v WHERE v.id = $1::bigint RETURNING to_jsonb(v)::text");
    assert_eq!(first.args, vec![Arg::Text(Some("5".into()))]);
    ex.feed(&view, vec!["{\"Id\":5}".into()]).unwrap();
    let second = ex.next(&view, &quoting()).unwrap().unwrap();
    assert_eq!(
        second.sql,
        "INSERT INTO nabla_store.v1 AS v SELECT * FROM jsonb_populate_record(NULL::nabla_store.v1, $1::jsonb) \
         RETURNING to_jsonb(v)::text"
    );
    assert_eq!(second.args, vec![Arg::Text(Some("{\"Id\":1}".into()))]);
    ex.feed(&view, vec!["{\"Id\":1}".into()]).unwrap();
    assert_eq!(
        sql_of(&ex, &view),
        "DELETE FROM nabla_store.v1 AS v USING jsonb_populate_record(NULL::nabla_store.v1, $1::jsonb) AS d \
         WHERE v.\"Id\" = d.\"Id\" RETURNING to_jsonb(v)::text"
    );
    ex.feed(&view, vec![]).unwrap();
    assert!(ex.next(&view, &quoting()).unwrap().is_none());
    assert_eq!(ex.deltas, vec![d('D', "{\"Id\":5}"), d('I', "{\"Id\":1}")]);
}

fn sums() -> ViewSpec {
    ViewSpec {
        counts: vec![OutputColumn { expr: "id".into(), alias: "c".into() }],
        sums: vec![SumSpec { expr: "id".into(), alias: "t".into(), counter: "_nabla_nn_1".into() }],
        ..spec()
    }
}

#[test]
fn contributions_are_added_to_their_group() {
    let spec = sums();
    let view = ViewTarget { name: "v1", spec: &spec };
    let mut ex = execute(vec![Op::Row { sign: -1, row_json: "{}".into() }]);
    assert_eq!(
        sql_of(&ex, &view),
        "WITH src AS (SELECT * FROM jsonb_populate_record(NULL::v1, $1::jsonb)) SELECT to_jsonb(v)::text FROM v1 AS v \
         JOIN src ON v.k IS NOT DISTINCT FROM src.k"
    );
    ex.feed(&view, vec!["old".into()]).unwrap();
    assert_eq!(
        sql_of(&ex, &view),
        "WITH src AS (SELECT * FROM jsonb_populate_record(NULL::v1, $1::jsonb)) INSERT INTO v1 AS v \
         (k, n, c, t, _nabla_nn_1) SELECT k, (-1) * n, (-1) * c, (-1) * t, (-1) * _nabla_nn_1 FROM src \
         ON CONFLICT (k) DO UPDATE SET n = v.n + EXCLUDED.n, c = v.c + EXCLUDED.c, \
         t = CASE WHEN v._nabla_nn_1 + EXCLUDED._nabla_nn_1 = 0 THEN NULL WHEN EXCLUDED.t IS NULL THEN v.t \
         WHEN v.t IS NULL THEN EXCLUDED.t ELSE v.t + EXCLUDED.t END, \
         _nabla_nn_1 = v._nabla_nn_1 + EXCLUDED._nabla_nn_1 \
         RETURNING to_jsonb(v)::text || ' ' || v.n::text"
    );
    ex.feed(&view, vec!["new row 2".into()]).unwrap();
    assert!(ex.next(&view, &quoting()).unwrap().is_none());
    assert_eq!(ex.deltas, vec![d('D', "old"), d('I', "new row")]);
}

#[test]
fn emptied_groups_are_cleaned_up() {
    let spec = sums();
    let view = ViewTarget { name: "v1", spec: &spec };
    let mut ex = execute(vec![Op::Row { sign: -1, row_json: "{}".into() }, Op::Row { sign: 1, row_json: "{}".into() }]);
    ex.feed(&view, vec!["old".into()]).unwrap();
    ex.feed(&view, vec!["gone 0".into()]).unwrap();
    assert_eq!(sql_of(&ex, &view), "DELETE FROM v1 AS v WHERE v.n <= 0");
    assert_eq!(ex.failure("q", "boom"), "group cleanup failed: q: boom");
    ex.feed(&view, vec![]).unwrap();
    assert_eq!(ex.deltas, vec![d('D', "old")]);
    assert_eq!(ex.failure("q", "boom"), "q: boom");
    // Nothing returned by the upsert: the previous row stays.
    ex.feed(&view, vec!["kept".into()]).unwrap();
    ex.feed(&view, vec![]).unwrap();
    assert_eq!(ex.deltas, vec![d('D', "old")]);
    assert!(ex.next(&view, &quoting()).unwrap().is_none());
}

#[test]
fn unexpected_answers_fail_the_execution() {
    let spec = sums();
    let view = ViewTarget { name: "v1", spec: &spec };
    let start = || {
        let mut ex = execute(vec![Op::Row { sign: 1, row_json: "{}".into() }]);
        ex.feed(&view, vec![]).unwrap();
        ex
    };
    assert_eq!(start().feed(&view, vec!["nospace".into()]), Err("unexpected RETURNING shape".to_string()));
    assert_eq!(
        start().feed(&view, vec!["row x".into()]),
        Err("bad count: invalid digit found in string".to_string())
    );
    assert_eq!(
        start().feed(&view, vec!["row 9223372036854775808".into()]),
        Err("bad count: number too large to fit in target type".to_string())
    );
    assert_eq!(start().feed(&view, vec!["row +3".into()]), Ok(()));
    let no_count = ViewSpec { count_alias: None, ..spec_without_count() };
    let view = ViewTarget { name: "v1", spec: &no_count };
    let ex = execute(vec![Op::Row { sign: 1, row_json: "{}".into() }]);
    assert_eq!(ex.next(&view, &quoting()), Err("aggregate view without count(*)".to_string()));
}

fn spec_without_count() -> ViewSpec {
    spec()
}

#[test]
fn failures_name_the_statement() {
    assert_eq!(statement_failure("SELECT 1", "boom"), "SELECT 1: boom");
    assert!(!plan_cache_full(4095));
    assert!(plan_cache_full(4096));
}
