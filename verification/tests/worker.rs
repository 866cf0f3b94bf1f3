use std::collections::HashMap;

use nabla::apply::{Delta, Op, Plan, PlanEnd, Planned, Stale, Step};
use nabla::definition::{BaseRelation, OutputColumn, Shape, ViewSpec};
use nabla::guc;
use nabla::idle::{effective_frontier, publish, IdleWindow};
use nabla::pgoutput::{Change, ColumnValue, Relation, RelationColumn, SourceTransaction};
use nabla::poll::{Next, Outcome, Poll};
use nabla::quote::{quote_ident, Quoting};
use nabla::round::{
    changed_relations, insert_deltas, know_all, lock_statements, resolve_type, type_query, unknown_relation, Ask,
    PendingDelta, Reply, Round, RoundStats,
};
use nabla::statement::{Arg, Level, Notice, Statement};
use nabla::worker::{
    describe, key_predicate, key_values, place_old_row, plan_change, record_failure, shadow_apply, shadow_drift,
    shadow_old_row, LiveView, Shadow,
};

fn text(s: &str) -> ColumnValue {
    ColumnValue::Text(s.into())
}

fn column(name: &str, ty: Option<&str>) -> RelationColumn {
    RelationColumn {
        name: name.into(),
        is_key: name == "id",
        typid: 20,
        typmod: -1,
        resolved_type: ty.map(|t| t.to_string()),
    }
}

fn relation(id: u32) -> Relation {
    Relation {
        id,
        namespace: "public".into(),
        name: format!("t{id}"),
        replident: b'f',
        columns: vec![column("id", Some("bigint")), column("k", Some("integer")), column("note", Some("text"))],
    }
}

fn base(oid: u32, rti: usize) -> BaseRelation {
    BaseRelation {
        oid,
        rti,
        alias: format!("t{oid}"),
        qualified: format!("public.t{oid}"),
        pk_columns: vec!["id".into()],
        columns: vec!["id".into(), "k".into(), "note".into()],
        column_types: vec!["bigint".into(), "integer".into(), "text".into()],
        used_columns: vec!["id".into(), "k".into()],
        used_column_types: vec!["bigint".into(), "integer".into()],
    }
}

fn view(id: i32, relations: Vec<BaseRelation>) -> LiveView {
    LiveView {
        id,
        name: format!("public.v{id}"),
        storage: format!("nabla_store.v{id}"),
        spec: ViewSpec {
            shape: Shape::Projection,
            base_table: "public.t1".into(),
            base_relname: "t1".into(),
            predicate: None,
            columns: vec![OutputColumn { expr: "id".into(), alias: "id".into() }],
            pk_columns: vec!["id".into()],
            pk_view_columns: vec!["id".into()],
            count_alias: None,
            hidden_count: false,
            counts: vec![],
            sums: vec![],
            populate_sql: String::new(),
            relations,
            select_list: "id AS id".into(),
            group_by: None,
            visible_columns: vec!["id".into()],
            hidden_columns: vec![],
        },
        frontier: 100,
        last_seq: 7,
        apply_failures: 0,
        definition: "SELECT ID, K FROM t1".into(),
        touched: false,
        ops: vec![],
        failed: None,
        stale: None,
        dead: false,
        failed_this_round: false,
    }
}

fn shadow(relid: u32) -> Shadow {
    Shadow {
        relid,
        table: format!("nabla_shadow.t{relid}"),
        frontier: 100,
        failed: false,
        columns: vec!["id".into(), "k".into()],
        column_types: vec!["bigint".into(), "integer".into()],
        pk_columns: vec!["id".into()],
        advanced: false,
    }
}

fn quoting() -> Quoting {
    Quoting {
        entries: ["id", "k", "note", "t1", "t2"].iter().map(|s| (s.to_string(), s.to_string())).collect(),
    }
}

fn tx(end_lsn: u64, changes: Vec<Change>) -> SourceTransaction {
    SourceTransaction { xid: 5, commit_lsn: end_lsn - 1, end_lsn, changes }
}

fn insert(relid: u32, id: &str) -> Change {
    Change::Insert { relid, new: vec![text(id), text("1"), ColumnValue::Null] }
}

fn delete(relid: u32, id: &str) -> Change {
    Change::Delete { relid, key_kind: b'O', old: vec![text(id), text("1"), ColumnValue::Null] }
}

#[test]
fn unused_columns_do_not_matter() {
    let v = view(1, vec![base(1, 1)]);
    let rel = relation(1);
    let old = vec![text("1"), text("2"), text("x")];
    assert!(!v.touches_used_columns(1, &rel, Some(&old), &vec![text("1"), text("2"), text("y")]));
    assert!(!v.touches_used_columns(1, &rel, Some(&old), &vec![text("1"), ColumnValue::Unchanged, text("y")]));
    assert!(v.touches_used_columns(1, &rel, Some(&old), &vec![text("1"), text("3"), text("x")]));
    assert!(v.touches_used_columns(1, &rel, None, &old));
    assert!(v.touches_used_columns(2, &rel, Some(&old), &old));
    assert_eq!(v.relation_index(1), Some(0));
    assert_eq!(v.relation_index(2), None);

    let mut dropped = relation(1);
    dropped.columns.remove(2);
    assert_eq!(v.drift(1, &dropped), None);
    dropped.columns[1].resolved_type = Some("text".into());
    assert_eq!(
        v.drift(1, &dropped),
        Some("column \"k\" of public.t1 was dropped, renamed or changed type".to_string())
    );
    assert_eq!(v.drift(9, &dropped), None);
}

#[test]
fn activity_follows_the_frontier() {
    let mut v = view(1, vec![base(1, 1)]);
    assert!(v.active_for(1, 101));
    assert!(!v.active_for(1, 100));
    assert!(!v.active_for(2, 101));
    v.stale = Some("s".into());
    assert!(!v.active_for(1, 101));
}

#[test]
fn keys_come_from_the_old_row_first() {
    let rel = relation(1);
    let pk = vec!["id".to_string()];
    let old = vec![text("1"), ColumnValue::Null, ColumnValue::Null];
    let new = vec![text("2"), ColumnValue::Null, ColumnValue::Null];
    assert_eq!(key_values(&pk, &rel, Some(&old), Some(&new)), Ok(vec![(0, "1".to_string())]));
    assert_eq!(key_values(&pk, &rel, None, Some(&new)), Ok(vec![(0, "2".to_string())]));
    assert_eq!(
        key_values(&pk, &rel, None, None),
        Err("primary key column id has no value in the decoded row".to_string())
    );
    assert_eq!(
        key_values(&vec!["x".to_string()], &rel, Some(&old), None),
        Err("primary key column x is missing from the decoded row".to_string())
    );
    assert_eq!(
        key_values(&vec![], &rel, Some(&old), None),
        Err("no primary key columns recorded for the shadow".to_string())
    );
    assert_eq!(
        key_predicate(&rel, &vec![(0, "1".into()), (1, "2".into())], 3, &quoting()),
        Ok(("id = $3::bigint AND k = $4::integer".to_string(), vec![Some("1".into()), Some("2".into())]))
    );
    assert_eq!(key_predicate(&rel, &vec![], 1, &quoting()), Err("empty key predicate".to_string()));
}

#[test]
fn shadows_provide_old_rows() {
    let rel = relation(1);
    let old = vec![text("1"), ColumnValue::Null, ColumnValue::Null];
    let query = shadow_old_row(&shadow(1), &rel, Some(&old), None, &quoting()).unwrap();
    assert_eq!(query.sql, "SELECT id::text, k::text FROM nabla_shadow.t1 WHERE id = $1::bigint");
    assert_eq!(query.args, vec![Arg::Text(Some("1".into()))]);
    assert_eq!(
        place_old_row(&shadow(1), &rel, &vec![Some("1".into()), None]),
        vec![text("1"), ColumnValue::Null, ColumnValue::Null]
    );
}

#[test]
fn shadows_take_in_changes() {
    let rel = relation(1);
    let row = vec![text("1"), text("2"), text("x")];
    let plan = shadow_apply(&shadow(1), &rel, &insert(1, "1"), None, Some(&row), &quoting());
    assert_eq!(plan.failure, None);
    assert_eq!(plan.statements[0].sql, "INSERT INTO nabla_shadow.t1 (id, k) VALUES ($1::bigint, $2::integer)");
    assert_eq!(plan.statements[0].args, vec![Arg::Text(Some("1".into())), Arg::Text(Some("2".into()))]);
    let plan = shadow_apply(&shadow(1), &rel, &insert(1, "1"), None, None, &quoting());
    assert_eq!(plan.failure, Some("missing new row".to_string()));
    let plan = shadow_apply(&shadow(1), &rel, &delete(1, "9"), None, None, &quoting());
    assert_eq!(plan.statements[0].sql, "DELETE FROM nabla_shadow.t1 WHERE id = $1::bigint");
    let update = Change::Update { relid: 1, old: None, new: row };
    let plan = shadow_apply(&shadow(1), &rel, &update, None, None, &quoting());
    assert_eq!((plan.statements.len(), plan.failure), (1, Some("missing new row".to_string())));
    let truncate = Change::Truncate { relids: vec![1] };
    let plan = shadow_apply(&shadow(1), &rel, &truncate, None, None, &quoting());
    assert_eq!((plan.statements.len(), plan.failure), (0, None));
    let mut empty = shadow(1);
    empty.columns = vec!["z".into()];
    let row = vec![text("1"), text("2"), text("x")];
    let plan = shadow_apply(&empty, &rel, &insert(1, "1"), None, Some(&row), &quoting());
    assert_eq!(plan.failure, Some("the shadow has no active column present in the decoded row".to_string()));
}

#[test]
fn drifted_shadows_lose_columns_or_fail() {
    let mut s = shadow(1);
    assert!(shadow_drift(&mut s, &relation(1), "public.t1").is_none());
    let mut rel = relation(1);
    rel.columns.remove(1);
    let (statement, notice) = shadow_drift(&mut s, &rel, "public.t1").unwrap();
    assert_eq!(
        notice.text,
        "nabla worker: shadow nabla_shadow.t1 no longer carries: \
         column \"k\" of public.t1 was dropped, renamed or changed type"
    );
    assert_eq!((s.columns.clone(), s.column_types.clone()), (vec!["id".to_string()], vec!["bigint".to_string()]));
    assert!(!s.failed);
    assert_eq!(
        statement.args,
        vec![
            Arg::Int8(1),
            Arg::Texts(vec!["id".into()]),
            Arg::Texts(vec!["bigint".into()]),
            Arg::Text(Some("column \"k\" of public.t1 was dropped, renamed or changed type".into())),
        ]
    );
    rel.columns.remove(0);
    let (statement, notice) = shadow_drift(&mut s, &rel, "public.t1").unwrap();
    assert!(notice.text.starts_with("nabla worker: shadow nabla_shadow.t1 could not be maintained: column \"id\""));
    assert!(s.failed);
    assert!(statement.sql.contains("failed = true"));
}

#[test]
fn failures_are_counted_until_the_view_goes_stale() {
    let mut v = view(1, vec![base(1, 1)]);
    let (live, statement, notice) = record_failure(&mut v, 16, "boom", 2);
    assert_eq!(notice.level, Level::Log);
    assert_eq!(
        notice.text,
        "nabla worker: view public.v1 failed to apply the transaction ending at 0/10 (attempt 1 of 2): boom"
    );
    assert!(live && v.stale.is_none());
    assert_eq!(statement.args, vec![Arg::Int4(1), Arg::Int4(1), Arg::Text(Some("boom".into()))]);
    let (live, statement, notice) = record_failure(&mut v, 16, "boom", 2);
    let stale = "nabla worker: view public.v1 marked stale: apply failed 2 times: boom";
    assert_eq!(notice, Notice::warning(stale.to_string()));
    assert!(!live);
    assert_eq!(v.stale, Some("apply failed 2 times: boom".to_string()));
    assert_eq!(statement.args[1], Arg::Text(Some("apply failed 2 times: boom".into())));
    let mut v = view(1, vec![base(1, 1)]);
    assert!(!record_failure(&mut v, 16, "boom", 0).0);
}

#[test]
fn errors_are_described_on_one_line() {
    assert_eq!(describe("boom", None), "boom");
    assert_eq!(describe("boom", Some("a\nb")), "boom (a b)");
}

#[test]
fn changes_are_planned_by_shape() {
    let rel = relation(1);
    let v = view(1, vec![base(1, 1)]);
    let plan = plan_change(&v, &rel, &insert(1, "3"), None, &quoting());
    assert_eq!((plan.steps.len(), &plan.end), (1, &PlanEnd::Done));
    let old = Some((b'O', vec![text("1"), text("2"), text("x")]));
    let same = Change::Update { relid: 1, old, new: vec![text("1"), text("2"), text("y")] };
    assert_eq!(plan_change(&v, &rel, &same, None, &quoting()), Plan { steps: vec![], end: PlanEnd::Done });
    let moved = Change::Update { relid: 1, old: None, new: vec![text("1"), text("3"), text("y")] };
    let plan = plan_change(&v, &rel, &moved, None, &quoting());
    assert!(matches!(plan.steps[0], Step::Delete { .. }));
    assert!(matches!(plan.steps[1], Step::Rows { sign: 1, .. }));
    let truncate = Change::Truncate { relids: vec![1] };
    assert_eq!(
        plan_change(&v, &rel, &truncate, None, &quoting()).end,
        PlanEnd::Stale(Stale("base table was truncated; TRUNCATE is not maintained incrementally".into()))
    );
}

#[test]
fn mentioned_columns_need_their_value() {
    let rel = relation(1);
    let v = view(1, vec![base(1, 1)]);
    // The definition mentions K in upper case, and never the note.
    let lost = Change::Insert { relid: 1, new: vec![text("1"), ColumnValue::Unchanged, text("x")] };
    assert!(matches!(plan_change(&v, &rel, &lost, None, &quoting()).end, PlanEnd::Stale(_)));
    let fine = Change::Insert { relid: 1, new: vec![text("1"), text("2"), ColumnValue::Unchanged] };
    assert_eq!(plan_change(&v, &rel, &fine, None, &quoting()).end, PlanEnd::Done);
}

#[test]
fn joins_take_old_rows_from_shadows() {
    let rel = relation(1);
    let v = view(1, vec![base(1, 1), base(2, 2)]);
    assert_eq!(
        plan_change(&v, &rel, &delete(1, "3"), None, &quoting()).end,
        PlanEnd::Stale(Stale("old row of t1 unavailable (its shadow is ahead of the view)".into()))
    );
    let old = vec![text("3"), text("1"), ColumnValue::Null];
    assert_eq!(plan_change(&v, &rel, &delete(1, "3"), Some(&old), &quoting()).steps.len(), 1);
    let update = Change::Update { relid: 1, old: None, new: vec![text("3"), text("2"), ColumnValue::Null] };
    assert_eq!(plan_change(&v, &rel, &update, Some(&old), &quoting()).steps.len(), 2);
    let other = relation(9);
    assert_eq!(
        plan_change(&v, &other, &insert(9, "1"), None, &quoting()).end,
        PlanEnd::Failed("view does not use this relation".into())
    );
}

/// Runs a round with one delta row for every planned operation; views in
/// `failing` fail to execute.
fn drive(round: &mut Round, failing: &[usize]) -> (Vec<Statement>, Vec<String>) {
    let q = quoting();
    let mut all = Vec::new();
    let mut log = Vec::new();
    let mut statements = Vec::new();
    let mut ask = round.run(&q, 2, &mut statements);
    loop {
        all.append(&mut statements);
        let reply = match ask {
            Ask::OldRow { .. } => {
                log.push("old".to_string());
                Reply::OldRow(Ok(Some(vec![Some("1".to_string()), Some("1".to_string())])))
            }
            Ask::Plan { view, plan } => {
                log.push(format!("plan {view}"));
                let ops = plan.steps.iter().map(|_| Op::Row { sign: 1, row_json: "{}".to_string() }).collect();
                Reply::Planned(match plan.end {
                    PlanEnd::Done => Ok(Planned::Ops(ops)),
                    PlanEnd::Stale(stale) => Ok(Planned::Stale(stale)),
                    PlanEnd::Failed(message) => Err(message),
                })
            }
            Ask::Shadow { .. } => {
                log.push("shadow".to_string());
                Reply::Shadow(Ok(()))
            }
            Ask::Execute { view, ops } => {
                log.push(format!("execute {view} {}", ops.len()));
                if failing.contains(&view) {
                    Reply::Executed(Err("boom".to_string()))
                } else {
                    let deltas = ops
                        .iter()
                        .enumerate()
                        .map(|(i, _)| Delta { op: 'I', row_json: format!("{{\"id\":{i}}}") })
                        .collect();
                    Reply::Executed(Ok(deltas))
                }
            }
            Ask::Fail { message } => panic!("{message}"),
            Ask::Done => return (all, log),
        };
        ask = round.resume(reply, &q, 2, &mut statements);
    }
}

fn round(txs: Vec<SourceTransaction>, views: Vec<LiveView>, shadows: Vec<Shadow>) -> Round {
    let relations = vec![relation(1), relation(2)];
    assert!(know_all(&relations, &txs));
    Round::new(txs, relations, views, shadows)
}

#[test]
fn a_round_absorbs_its_transactions() {
    let txs = vec![tx(110, vec![insert(1, "1"), insert(1, "2")]), tx(120, vec![insert(1, "3")])];
    let mut r = round(txs, vec![view(1, vec![base(1, 1)]), view(2, vec![base(2, 1)])], vec![]);
    assert!(r.drift().is_empty());
    let (statements, log) = drive(&mut r, &[]);
    assert!(statements.is_empty());
    assert_eq!(
        log,
        vec!["plan 0", "plan 0", "execute 0 2", "execute 1 0", "plan 0", "execute 0 1", "execute 1 0"]
    );
    let seqs: Vec<(i64, u64)> = r.pending[0].iter().map(|p| (p.seq, p.lsn)).collect();
    assert_eq!(seqs, vec![(8, 110), (9, 110), (10, 120)]);
    assert_eq!((r.views[0].frontier, r.views[1].frontier), (120, 120));
    let (statements, stats) = r.finish(100);
    assert_eq!(stats, RoundStats { deltas: 3, processed: 2, blocked_at: None });
    assert_eq!(statements.len(), 5);
    assert_eq!(
        statements[0].args,
        vec![Arg::Text(Some("0/78".into())), Arg::Int8(10), Arg::Int4(1)]
    );
    assert!(statements[0].sql.contains("apply_failures = 0"));
    assert_eq!(statements[2].args, vec![Arg::Int4(1), Arg::Int8(-90)]);
    assert_eq!(
        statements[3].args,
        vec![Arg::Text(Some("nabla:public.v1".into())), Arg::Text(Some("10:0/78".into()))]
    );
}

#[test]
fn absorbed_transactions_are_skipped() {
    let txs = vec![tx(90, vec![insert(1, "1")]), tx(100, vec![delete(1, "1")])];
    let mut r = round(txs, vec![view(1, vec![base(1, 1)])], vec![shadow(1)]);
    let (statements, log) = drive(&mut r, &[]);
    assert!(statements.is_empty() && log.is_empty());
    let (statements, stats) = r.finish(100);
    assert!(statements.is_empty());
    assert_eq!((stats.deltas, stats.processed), (0, 2));
}

#[test]
fn failing_views_block_the_round_but_not_the_others() {
    let txs = vec![tx(110, vec![insert(1, "1")]), tx(120, vec![insert(1, "2")]), tx(130, vec![insert(1, "3")])];
    let mut first = view(1, vec![base(1, 1)]);
    first.frontier = 110;
    let mut r = round(txs, vec![first, view(2, vec![base(1, 1)])], vec![]);
    let (statements, _) = drive(&mut r, &[0]);
    assert_eq!(statements.len(), 1);
    assert_eq!(statements[0].args, vec![Arg::Int4(1), Arg::Int4(1), Arg::Text(Some("boom".into()))]);
    assert_eq!(r.blocked_at, Some(1));
    assert_eq!((r.views[0].frontier, r.views[1].frontier), (110, 130));
    assert!(r.views[0].dead && r.views[0].failed_this_round);
    let (_, stats) = r.finish(100);
    assert_eq!(stats.blocked_at, Some(1));

    // The second failure in a row is one too many: nothing is blocked any more.
    let mut worn = view(1, vec![base(1, 1)]);
    worn.apply_failures = 1;
    let mut r = round(vec![tx(110, vec![insert(1, "1")])], vec![worn], vec![]);
    let (statements, _) = drive(&mut r, &[0]);
    assert!(statements[0].sql.contains("status = 'stale'"));
    assert_eq!(r.blocked_at, None);
}

#[test]
fn shadows_are_maintained_in_stream_order() {
    let txs = vec![tx(110, vec![insert(1, "1"), delete(1, "1")])];
    let mut r = round(txs, vec![view(1, vec![base(1, 1), base(2, 2)])], vec![shadow(1), shadow(2)]);
    let (_, log) = drive(&mut r, &[]);
    assert_eq!(log, vec!["plan 0", "shadow", "old", "plan 0", "shadow", "execute 0 2"]);
    assert_eq!((r.shadows[0].frontier, r.shadows[1].frontier), (110, 110));
    let (statements, _) = r.finish(100);
    assert_eq!(statements.iter().filter(|s| s.sql.starts_with("UPDATE nabla.shadows")).count(), 2);
}

#[test]
fn lost_shadows_make_their_join_views_stale() {
    let txs = vec![tx(110, vec![delete(1, "1")])];
    let q = quoting();
    let join = || view(1, vec![base(1, 1), base(2, 2)]);
    let mut r = round(txs, vec![join(), view(2, vec![base(1, 1)])], vec![shadow(1)]);
    let mut statements = Vec::new();
    assert!(matches!(r.run(&q, 2, &mut statements), Ask::OldRow { .. }));
    // The shadow has no such row: the join view goes stale, the other one is planned.
    let ask = r.resume(Reply::OldRow(Ok(None)), &q, 2, &mut statements);
    assert!(matches!(ask, Ask::Plan { view: 1, .. }));
    assert!(statements.is_empty());
    let ask = r.resume(Reply::Planned(Ok(Planned::Stale(Stale("why".into())))), &q, 2, &mut statements);
    assert!(matches!(ask, Ask::Done));
    assert!(r.shadows[0].failed);
    assert_eq!(r.shadows[0].frontier, 100);
    assert_eq!(statements.len(), 3);
    assert!(statements[0].sql.starts_with("UPDATE nabla.shadows SET stale_reason"));
    assert_eq!(
        statements[1].args[1],
        Arg::Text(Some(
            "shadow of t1 could not provide the old row: row not found in shadow nabla_shadow.t1 (shadow out of sync with \
             the base table)"
                .into()
        ))
    );
    assert_eq!(statements[2].args[1], Arg::Text(Some("why".into())));
}

#[test]
fn failed_plans_are_retried() {
    let q = quoting();
    let mut r = round(vec![tx(110, vec![insert(1, "1")])], vec![view(1, vec![base(1, 1)])], vec![]);
    let mut statements = Vec::new();
    assert!(matches!(r.run(&q, 3, &mut statements), Ask::Plan { view: 0, .. }));
    assert!(matches!(r.resume(Reply::Planned(Err("boom".into())), &q, 3, &mut statements), Ask::Done));
    assert_eq!(r.blocked_at, Some(0));
    assert_eq!(statements.len(), 1);
}

#[test]
fn schema_drift_is_found_once_per_round() {
    let txs = vec![tx(110, vec![insert(1, "1")])];
    let mut relations = vec![relation(1)];
    relations[0].columns[1].name = "renamed".into();
    let mut r = Round::new(txs, relations, vec![view(1, vec![base(1, 1)])], vec![shadow(1)]);
    let statements = r.drift();
    assert_eq!(statements.len(), 1);
    assert_eq!(r.shadows[0].columns, vec!["id"]);
    assert_eq!(
        r.views[0].stale,
        Some("column \"k\" of public.t1 was dropped, renamed or changed type".to_string())
    );
}

#[test]
fn rows_that_do_not_fit_fail_one_view() {
    let short = Change::Delete { relid: 1, key_kind: b'K', old: vec![] };
    let plan = plan_change(&view(1, vec![base(1, 1)]), &relation(1), &short, None, &quoting());
    assert_eq!(plan.end, PlanEnd::Failed("index out of bounds: the len is 0 but the index is 0".to_string()));
    let long = Change::Insert {
        relid: 1,
        new: vec![text("1"), text("2"), text("3"), ColumnValue::Unchanged],
    };
    let plan = plan_change(&view(1, vec![base(1, 1)]), &relation(1), &long, None, &quoting());
    assert_eq!(plan.end, PlanEnd::Failed("index out of bounds: the len is 3 but the index is 3".to_string()));
    // A value too many that was sent is no reason to fail.
    let wide = Change::Insert { relid: 1, new: vec![text("1"), text("2"), text("3"), text("4")] };
    assert_eq!(plan_change(&view(1, vec![base(1, 1)]), &relation(1), &wide, None, &quoting()).end, PlanEnd::Done);
    let row = vec![text("1")];
    let plan = shadow_apply(&shadow(1), &relation(1), &insert(1, "1"), None, Some(&row), &quoting());
    assert_eq!(plan.failure, Some("index out of bounds: the len is 1 but the index is 1".to_string()));

    let mut r = round(vec![tx(110, vec![short])], vec![view(1, vec![base(1, 1)]), view(2, vec![base(2, 1)])], vec![]);
    drive(&mut r, &[]);
    assert_eq!((r.views[0].apply_failures, r.views[1].frontier), (1, 110));
    assert_eq!(r.blocked_at, Some(0));
    assert_eq!(r.log.len(), 1);
}

#[test]
fn rows_that_cannot_be_completed_fail_the_round() {
    // The new row has a value too many, left out as unchanged.
    let update = Change::Update {
        relid: 1,
        old: None,
        new: vec![text("1"), text("2"), text("3"), ColumnValue::Unchanged],
    };
    let q = quoting();
    let fails = |shadows: Vec<Shadow>| {
        let mut r = round(vec![tx(110, vec![update_copy(&update)])], vec![view(1, vec![base(1, 1)])], shadows);
        let mut statements = Vec::new();
        let mut ask = r.run(&q, 2, &mut statements);
        loop {
            statements.clear();
            let reply = match ask {
                Ask::OldRow { .. } => Reply::OldRow(Ok(Some(vec![Some("1".to_string()), Some("1".to_string())]))),
                Ask::Plan { plan, .. } => Reply::Planned(match plan.end {
                    PlanEnd::Failed(message) => Err(message),
                    _ => Ok(Planned::Ops(vec![])),
                }),
                Ask::Shadow { .. } => Reply::Shadow(Ok(())),
                Ask::Execute { .. } => Reply::Executed(Ok(vec![])),
                Ask::Fail { message } => return (Some(message), r.shadows.iter().any(|s| s.failed)),
                Ask::Done => return (None, r.shadows.iter().any(|s| s.failed)),
            };
            ask = r.resume(reply, &q, 2, &mut statements);
        }
    };
    let message = "index out of bounds: the len is 3 but the index is 3".to_string();
    assert_eq!(fails(vec![shadow(1)]), (Some(message), false));
    // Without a shadow only the view fails.
    assert_eq!(fails(vec![]), (None, false));
}

fn update_copy(change: &Change) -> Change {
    match change {
        Change::Update { relid, old, new } => Change::Update { relid: *relid, old: old.clone(), new: new.clone() },
        _ => panic!("not an update"),
    }
}

#[test]
fn rounds_know_what_they_touch() {
    let txs = vec![
        tx(110, vec![insert(2, "1"), insert(1, "1"), Change::Truncate { relids: vec![3, 2] }]),
        tx(120, vec![insert(1, "1")]),
    ];
    assert_eq!(changed_relations(&txs), vec![2, 1, 3]);
    assert!(!know_all(&vec![relation(1), relation(2)], &txs));
    let short = vec![tx(110, vec![Change::Insert { relid: 1, new: vec![] }])];
    assert!(know_all(&vec![relation(1)], &short));
    assert_eq!(unknown_relation(3), "change for unknown relation 3");
    assert_eq!(
        lock_statements(&vec![view(1, vec![])])[0].sql,
        "LOCK TABLE nabla_store.v1 IN ROW EXCLUSIVE MODE"
    );
    let mut rel = relation(1);
    assert!(type_query(&rel, 0).is_none());
    rel.columns[0].resolved_type = None;
    assert_eq!(type_query(&rel, 0).unwrap().args, vec![Arg::Int8(20), Arg::Int4(-1)]);
    assert_eq!(resolve_type(&mut rel, 0, None), Err("unknown type oid 20".to_string()));
    assert_eq!(resolve_type(&mut rel, 0, Some("int8".into())), Ok(()));
    assert_eq!(rel.columns[0].resolved_type, Some("int8".to_string()));
}

#[test]
fn deltas_are_inserted_in_chunks() {
    let deltas: Vec<PendingDelta> = (0..401)
        .map(|i| PendingDelta { seq: i, lsn: 16, xid: 9, op: 'I', row_json: "{}".to_string() })
        .collect();
    let statements = insert_deltas(3, &deltas);
    let counts: Vec<usize> = statements.iter().map(|s| s.args.len()).collect();
    assert_eq!(counts, vec![1200, 1200, 6]);
    assert_eq!(
        statements[2].sql,
        "INSERT INTO nabla.deltas (view_id, seq, lsn, xid, op, row) VALUES \
         ($1, $2, $3::pg_lsn, $4, $5::\"char\", $6::jsonb)"
    );
    assert_eq!(
        statements[2].args,
        vec![
            Arg::Int4(3),
            Arg::Int8(400),
            Arg::Text(Some("0/10".into())),
            Arg::Int8(9),
            Arg::Text(Some("I".into())),
            Arg::Text(Some("{}".into())),
        ]
    );
    assert!(statements[0].sql.ends_with("($1195, $1196, $1197::pg_lsn, $1198, $1199::\"char\", $1200::jsonb)"));
    assert!(insert_deltas(3, &vec![]).is_empty());
}

fn begin(xid: u32) -> Vec<u8> {
    let mut m = vec![b'B'];
    m.extend(0u64.to_be_bytes());
    m.extend(0u64.to_be_bytes());
    m.extend(xid.to_be_bytes());
    m
}

fn commit(end_lsn: u64) -> Vec<u8> {
    let mut m = vec![b'C', 0];
    m.extend(end_lsn.to_be_bytes());
    m.extend(end_lsn.to_be_bytes());
    m.extend(0u64.to_be_bytes());
    m
}

#[test]
fn polls_wait_for_the_extension_and_the_slot() {
    let mut p = Poll::default();
    assert!(matches!(p.start(), Next::Installed { .. }));
    let (next, report) = p.installed(false);
    assert!(report && matches!(next, Next::Done { outcome: Outcome::Idle, window: None }));
    assert!(!p.installed(false).1);
    assert!(matches!(p.installed(true).0, Next::Populate));
    assert!(matches!(p.populated(), Next::Slot { .. }));
    assert!(matches!(p.slot(None, 10), Next::Done { .. }));
    match p.slot(Some((Some("0/10".into()), Some(11))), 10) {
        Next::DropSlot { statements } => assert_eq!(statements.len(), 2),
        _ => panic!("slot kept"),
    }
    assert!(matches!(p.slot(Some((Some("0/10".into()), Some(10))), 10), Next::Flush { .. }));
    assert_eq!(p.confirmed, 16);
}

#[test]
fn polls_decode_and_advance() {
    let mut p = Poll::default();
    p.slot(Some((Some("0/10".into()), Some(0))), 10);
    assert_eq!(p.flush(None, 5), Err("could not read flush lsn".to_string()));
    assert_eq!(p.flush(Some("0/10".into()), 5), Ok(None));
    let query = p.flush(Some("0/30".into()), 0).unwrap().unwrap();
    assert!(query.sql.contains("$2::pg_lsn, 1, 'proto_version'"));
    assert_eq!(query.args[1], Arg::Text(Some("0/30".into())));
    let rows = vec![begin(1), commit(0x18), begin(2), commit(0x20), begin(3)];
    let transactions = match p.peeked(&rows, 10).unwrap() {
        Next::Apply { transactions } => transactions,
        _ => panic!("nothing to apply"),
    };
    assert_eq!(transactions.len(), 2);
    assert!(!p.decoder.has_incomplete());
    let stats = RoundStats { deltas: 0, processed: 2, blocked_at: Some(1) };
    match p.applied(&stats) {
        Next::Advance { statement, blocked } => {
            assert!(blocked);
            assert_eq!(statement.args[1], Arg::Text(Some("0/18".into())));
        }
        _ => panic!("slot not advanced"),
    }
    assert!(matches!(p.advanced(true), Next::Done { outcome: Outcome::Idle, window: None }));
    let stats = RoundStats { deltas: 0, processed: 2, blocked_at: None };
    assert!(matches!(p.applied(&stats), Next::Advance { blocked: false, .. }));
    match p.advanced(false) {
        Next::IdleAdvance { statements } => {
            assert_eq!(statements.len(), 3);
            assert_eq!(statements[0].args, vec![Arg::Text(Some("0/30".into()))]);
        }
        _ => panic!("no idle advance"),
    }
    assert!(matches!(p.idle_advanced(), Next::FlushAgain { .. }));
    assert!(matches!(
        p.flushed_again(Some("0/40".into())),
        Next::Done { outcome: Outcome::Idle, window: Some((0x30, 0x30)) }
    ));
    assert_eq!((p.self_flush, p.last_advance), (0x40, 0x30));
    // Nothing new beyond our own commit: an idle window is published.
    p.slot(Some((Some("0/40".into()), Some(0))), 10);
    assert_eq!(p.flush(Some("0/40".into()), 5), Ok(None));
    assert!(matches!(
        p.peeked(&vec![], 5).unwrap(),
        Next::Done { outcome: Outcome::Idle, window: Some((0x30, 0x40)) }
    ));
}

#[test]
fn full_peeks_leave_more_work() {
    let mut p = Poll::default();
    p.flush(Some("0/30".into()), 2).unwrap();
    assert!(matches!(p.peeked(&vec![begin(1), commit(0x18)], 2).unwrap(), Next::Apply { .. }));
    let stats = RoundStats { deltas: 0, processed: 1, blocked_at: None };
    p.applied(&stats);
    assert!(matches!(p.advanced(false), Next::Done { outcome: Outcome::MoreWork, window: None }));
    let blocked = RoundStats { deltas: 0, processed: 1, blocked_at: Some(0) };
    assert!(matches!(p.applied(&blocked), Next::Done { outcome: Outcome::Idle, window: None }));
    assert!(p.peeked(&vec![vec![b'Z']], 5).is_err());
    p.decoder.feed(&begin(7)).unwrap();
    p.failed();
    assert!(!p.decoder.has_incomplete());
}

#[test]
fn idle_windows_lift_the_frontier() {
    let mut window = Some(IdleWindow::default());
    assert_eq!(effective_frontier(window, 5), 5);
    publish(&mut window, 10, 20);
    assert_eq!(effective_frontier(window, 9), 9);
    assert_eq!(effective_frontier(window, 10), 20);
    assert_eq!(effective_frontier(window, 25), 25);
    let mut none = None;
    publish(&mut none, 10, 20);
    assert_eq!(effective_frontier(none, 10), 10);
}

#[test]
fn settings_have_defaults_and_ranges() {
    let s = guc::retain_deltas();
    assert_eq!((s.name, s.default, s.min, s.max), ("nabla.retain_deltas", 100_000, 1, i32::MAX));
    assert_eq!(guc::max_slot_lag_bytes().default, 1 << 30);
    assert_eq!(guc::poll_interval_ms().default, 100);
    assert_eq!(guc::max_apply_failures().default, 3);
    assert_eq!(guc::batch_changes().max, 1_000_000);
    assert_eq!(guc::debug_populate_delay_ms().min, 0);
    assert_eq!((guc::at_least(0), guc::at_least(9)), (1, 9));
    assert_eq!(guc::database(None), None);
    assert_eq!(guc::database(Some(b" \t".to_vec())), None);
    assert_eq!(guc::database(Some(vec![0xFF])), None);
    assert_eq!(guc::database(Some(b" app ".to_vec())), Some(" app ".to_string()));
}

#[test]
fn identifiers_are_quoted() {
    assert_eq!(quote_ident("a\"b"), "\"a\"\"b\"");
    assert_eq!(quote_ident(""), "\"\"");
    let q = quoting();
    assert_eq!(q.ident("id"), "id");
    assert_eq!(q.ident("Other"), "\"Other\"");
    let names: HashMap<&str, String> = ["k", "K"].iter().map(|n| (*n, q.ident(n))).collect();
    assert_ne!(names["k"], names["K"]);
}
