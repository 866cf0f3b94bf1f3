use std::collections::BTreeSet;

use nabla::api::{
    changes, check_creation, create_table, ensure_publication_includes, ensure_slot, forget_view, lock_relations, missing_relation,
    missing_view, record_refresh, record_relations, record_view, refill_single, refresh_cascade, refresh_closure,
    release_publication, relids_of, require_free_name, require_logical_wal, require_old_rows, require_qualified_name,
    stale_error, statement_failed, tables_to_lock, timeout, wait_for, CatalogRow, Membership, Wait,
};
use nabla::command::{create_view, drop_view, refresh, Ask, Command};
use nabla::definition::{BaseRelation, BaseTable, OutputColumn, Shape, ViewSpec};
use nabla::idle::IdleWindow;
use nabla::populate::{
    build, check_main_slot, delay_step, group, init_slot_name, is_rebuild, needed_columns, populate_group,
    record_failure, shadows_to_build, specs_query, storage_name, view_ddl, BuildAsk, Pending,
};
use nabla::quote::Quoting;
use nabla::shadow::{self, Standing};
use nabla::statement::{Arg, Notice, Statement};

fn base(oid: u32, rti: usize, used: &[&str]) -> BaseRelation {
    BaseRelation {
        oid,
        rti,
        alias: format!("t{oid}"),
        qualified: format!("public.t{oid}"),
        pk_columns: vec!["id".into(), "Part".into()],
        columns: vec!["id".into(), "Part".into(), "k".into()],
        column_types: vec!["bigint".into(), "text".into(), "integer".into()],
        used_columns: used.iter().map(|s| s.to_string()).collect(),
        used_column_types: used.iter().map(|_| "text".to_string()).collect(),
    }
}

fn spec(shape: Shape, relations: Vec<BaseRelation>) -> ViewSpec {
    ViewSpec {
        shape,
        base_table: "public.t1".into(),
        base_relname: "t1".into(),
        predicate: None,
        columns: vec![OutputColumn { expr: "k".into(), alias: "k".into() }],
        pk_columns: vec![],
        pk_view_columns: vec!["id".into(), "Part".into()],
        count_alias: None,
        hidden_count: false,
        counts: vec![],
        sums: vec![],
        populate_sql: "SELECT 1".into(),
        relations,
        select_list: "1".into(),
        group_by: None,
        visible_columns: vec!["id".into(), "Part".into()],
        hidden_columns: vec![],
    }
}

fn row(id: i32, relations: Vec<BaseRelation>) -> CatalogRow {
    CatalogRow {
        id,
        name: format!("public.v{id}"),
        base_oid: 99,
        spec: spec(Shape::Projection, relations),
        frontier: 0,
        epoch: 1,
        status: "live".into(),
        last_seq: 10,
        resync_seq: 3,
        stale_reason: None,
    }
}

fn quoting() -> Quoting {
    Quoting { entries: vec![("id".into(), "id".into()), ("k".into(), "k".into()), ("nabla".into(), "nabla".into())] }
}

fn sqls(statements: &[Statement]) -> Vec<&str> {
    statements.iter().map(|s| s.sql.as_str()).collect()
}

fn pending(id: i32, status: &str, populated: bool, relations: Vec<BaseRelation>) -> Pending {
    Pending {
        id,
        name: format!("public.v{id}"),
        status: status.into(),
        definition: String::new(),
        spec: spec(Shape::Projection, relations),
        populated,
    }
}

#[test]
fn view_names_are_schema_qualified() {
    assert_eq!(require_qualified_name("  Public.Paid_Orders ").unwrap(), "public.paid_orders");
    for bad in ["orders", "a.b.c", ".b", "a.", "1a.b", "a.b c", "a.2", ""] {
        let report = require_qualified_name(bad).unwrap_err();
        assert_eq!(report.code.sqlstate(), "22023");
        assert!(report.message.ends_with("must be schema-qualified (schema.name)"));
        assert!(report.hint.is_some());
    }
    assert_eq!(
        require_qualified_name(" ORDERS").unwrap_err().message,
        "nabla: view name \"orders\" must be schema-qualified (schema.name)"
    );
}

#[test]
fn prerequisites_are_reported() {
    assert!(require_logical_wal("logical").is_ok());
    let report = require_logical_wal("replica").unwrap_err();
    assert_eq!(report.message, "nabla: wal_level must be 'logical' (currently 'replica')");
    assert_eq!(report.code.sqlstate(), "55000");

    let table = |replident: &str| BaseTable {
        oid: 1,
        qualified: "public.t1".into(),
        replident: replident.into(),
        pk_columns: vec![],
    };
    assert!(require_old_rows(&spec(Shape::Aggregate, vec![]), &table("f")).is_ok());
    assert!(require_old_rows(&spec(Shape::Projection, vec![]), &table("d")).is_ok());
    assert!(require_old_rows(&spec(Shape::Aggregate, vec![base(1, 1, &[]), base(2, 2, &[])]), &table("d")).is_ok());
    let report = require_old_rows(&spec(Shape::Aggregate, vec![]), &table("d")).unwrap_err();
    assert!(report.message.ends_with("but public.t1 has REPLICA IDENTITY 'd'"));
    assert_eq!(report.hint.unwrap(), "Run: ALTER TABLE public.t1 REPLICA IDENTITY FULL;");

    assert!(require_free_name("a.b", false, false).is_ok());
    assert_eq!(require_free_name("a.b", true, true).unwrap_err().message, "nabla: relation \"a.b\" already exists");
    assert_eq!(require_free_name("a.b", false, true).unwrap_err().message, "nabla: view \"a.b\" already exists");
}

#[test]
fn reports_have_their_codes() {
    let report = stale_error("a.b", None);
    assert_eq!(report.message, "nabla: view \"a.b\" is stale: reason not recorded");
    assert_eq!(report.hint.unwrap(), "Run nabla.refresh('a.b') after fixing the cause.");
    assert_eq!(missing_view("a.b").code.sqlstate(), "42704");
    assert_eq!(missing_relation(7).message, "nabla: relation 7 does not exist");
    assert_eq!(statement_failed("boom").message, "nabla: boom");
    assert_eq!(statement_failed("boom").code.sqlstate(), "XX000");
}

#[test]
fn slot_and_publication_are_brought_about_once() {
    assert!(ensure_slot(true).is_none());
    assert_eq!(ensure_slot(false).unwrap().args, vec![Arg::Text(Some("nabla".into()))]);
    assert!(ensure_publication_includes(true, true, "t", &quoting()).is_empty());
    assert_eq!(
        sqls(&ensure_publication_includes(false, false, "t", &quoting())),
        vec!["CREATE PUBLICATION nabla", "ALTER PUBLICATION nabla ADD TABLE t"]
    );
    assert!(release_publication(true, "t", &quoting()).is_none());
    assert_eq!(release_publication(false, "t", &quoting()).unwrap().sql, "ALTER PUBLICATION nabla DROP TABLE t");
}

#[test]
fn creating_a_view_runs_its_statements() {
    let join = spec(Shape::Aggregate, vec![base(1, 1, &[]), base(2, 2, &[])]);
    assert_eq!(
        sqls(&lock_relations(&join)),
        vec!["LOCK TABLE public.t1 IN SHARE MODE", "LOCK TABLE public.t2 IN SHARE MODE"]
    );
    assert_eq!(
        sqls(&create_table("a.b", &join, &quoting()))[..2],
        ["CREATE TABLE a.b AS SELECT 1", "CREATE UNIQUE INDEX ON a.b (k) NULLS NOT DISTINCT"]
    );
    let table = BaseTable { oid: 1, qualified: "t".into(), replident: "d".into(), pk_columns: vec![] };
    let recorded = record_view("a.b", &table, "SELECT", Shape::Aggregate, "{}");
    assert_eq!(recorded.args[3], Arg::Text(Some("aggregate".into())));
    assert_eq!(
        record_relations(5, &join.relations)[1].args,
        vec![Arg::Int4(5), Arg::Int8(2), Arg::Int4(2)]
    );
}

#[test]
fn dropping_a_view_releases_its_relations() {
    assert_eq!(relids_of(&row(1, vec![])), vec![99]);
    assert_eq!(relids_of(&row(1, vec![base(4, 1, &[]), base(2, 2, &[])])), vec![4, 2]);
    assert_eq!(
        sqls(&forget_view(&row(1, vec![]), "a.b")),
        vec!["DROP TABLE IF EXISTS a.b", "DELETE FROM nabla.views WHERE id = $1"]
    );
}

#[test]
fn refreshes_spread_over_shared_shadows() {
    let m = |view_id: i64, relid: u32, join: bool| Membership { view_id, relid, join };
    let members = vec![
        m(3, 30, true),
        m(3, 40, true),
        m(2, 20, true),
        m(2, 30, true),
        m(1, 10, true),
        m(1, 20, true),
        m(4, 40, false),
        m(5, 50, true),
    ];
    let (live, rels) = refresh_closure(1, &vec![10, 20, 10], &members);
    assert_eq!((live, rels), (BTreeSet::from([1, 2, 3]), BTreeSet::from([10, 20, 30, 40])));
    let (live, rels) = refresh_closure(5, &vec![50], &members);
    assert_eq!((live, rels), (BTreeSet::from([5]), BTreeSet::from([50])));
    assert_eq!(refresh_closure(6, &vec![], &vec![]), (BTreeSet::from([6]), BTreeSet::new()));
}

#[test]
fn refreshes_lock_in_the_order_of_oids() {
    let rows = vec![row(1, vec![base(20, 1, &[]), base(10, 2, &[])]), row(2, vec![base(10, 1, &[]), base(5, 2, &[])])];
    assert_eq!(
        tables_to_lock(&rows, &BTreeSet::from([20, 10])),
        vec![(10, "public.t10".to_string()), (20, "public.t20".to_string())]
    );
    let statements = refresh_cascade(&rows, &BTreeSet::from([5, 10, 20]));
    let texts = sqls(&statements);
    assert_eq!(
        texts[..4],
        [
            "LOCK TABLE public.t5 IN SHARE MODE",
            "LOCK TABLE public.t10 IN SHARE MODE",
            "LOCK TABLE public.t20 IN SHARE MODE",
            "SET LOCAL nabla.internal_write = on",
        ]
    );
    // Each shadow is snapshotted once, each view filled once.
    assert_eq!(texts.iter().filter(|s| s.starts_with("DELETE FROM nabla_shadow.")).count(), 3);
    assert_eq!(texts[texts.len() - 4..][..2], ["DELETE FROM public.v2", "INSERT INTO public.v2 SELECT 1"]);

    let single = refill_single(&row(1, vec![]), "public.v1");
    assert_eq!(
        sqls(&single)[..4],
        [
            "LOCK TABLE public.t1 IN SHARE MODE",
            "SET LOCAL nabla.internal_write = on",
            "DELETE FROM public.v1",
            "INSERT INTO public.v1 SELECT 1",
        ]
    );
    let records = record_refresh(7);
    assert_eq!(
        records[0].sql,
        "UPDATE nabla.views SET frontier_lsn = pg_catalog.pg_current_wal_lsn(), epoch = epoch + 1, \
         status = 'live', last_seq = last_seq + 1, resync_seq = last_seq + 1, \
         apply_failures = 0, last_error = NULL, last_error_at = NULL, stale_reason = NULL WHERE id = $1"
    );
    assert_eq!(records[1].args, vec![Arg::Int4(7)]);
}

#[test]
fn waiting_ends_at_the_target_or_the_deadline() {
    assert_eq!(wait_for("a.b", None, 10, "live", None, 10, true).unwrap(), Wait::Reached);
    assert_eq!(wait_for("a.b", None, 9, "live", None, 10, true).unwrap(), Wait::TimedOut);
    assert_eq!(wait_for("a.b", None, 9, "live", None, 10, false).unwrap(), Wait::Again);
    assert!(wait_for("a.b", None, 10, "stale", Some("why"), 10, false).unwrap_err().message.ends_with("is stale: why"));
    assert_eq!((timeout(-1), timeout(7)), (0, 7));
}

#[test]
fn waiting_counts_the_idle_window() {
    let window = Some(IdleWindow { from: 8, to: 12 });
    assert_eq!(wait_for("a.b", window, 9, "live", None, 12, true).unwrap(), Wait::Reached);
    assert_eq!(wait_for("a.b", window, 9, "live", None, 13, true).unwrap(), Wait::TimedOut);
    assert_eq!(wait_for("a.b", window, 7, "live", None, 12, false).unwrap(), Wait::Again);
    // Only a live view reflects the window.
    assert_eq!(wait_for("a.b", window, 9, "initializing", None, 12, true).unwrap(), Wait::TimedOut);
    assert_eq!(wait_for("a.b", window, 9, "refreshing", None, 9, true).unwrap(), Wait::Reached);
}

#[test]
fn accepted_names_are_accepted_again() {
    let name = require_qualified_name("  Public.Paid_Orders2 ").unwrap();
    assert_eq!(name, "public.paid_orders2");
    assert_eq!(require_qualified_name(&name).unwrap(), name);
}

#[test]
fn refreshed_views_tell_older_readers_that_they_lag() {
    let before = row(1, vec![]);
    let last_seq = before.last_seq;
    assert!(changes(&before, "a.b", None, last_seq, 10).is_ok());
    let after = CatalogRow { last_seq: last_seq + 1, resync_seq: last_seq + 1, ..row(1, vec![]) };
    for seq in 0..=last_seq {
        assert!(changes(&after, "a.b", None, seq, 10).unwrap_err().message.contains("lagged behind retention"));
    }
    assert!(changes(&after, "a.b", None, last_seq + 1, 10).is_ok());
}

#[test]
fn readers_behind_retention_are_told_so() {
    let view = row(1, vec![]);
    assert!(changes(&view, "a.b", Some(6), 5, 100).is_ok());
    assert!(changes(&view, "a.b", Some(7), 5, 100).unwrap_err().message.contains("lagged behind retention"));
    assert!(changes(&view, "a.b", Some(1), 2, 100).is_err());
    assert!(changes(&view, "a.b", None, 9, 100).is_err());
    let statement = changes(&view, "a.b", None, 10, -5).unwrap();
    assert_eq!(statement.args, vec![Arg::Int4(1), Arg::Int8(10), Arg::Int8(0)]);
    // The trailing transaction is returned whole, past the limit.
    assert!(statement.sql.contains("ORDER BY seq LIMIT $3), last AS"));
    assert!(statement.sql.contains("d.seq > l.seq AND d.lsn = l.lsn AND d.xid IS NOT DISTINCT FROM l.xid"));
    assert!(statement.sql.ends_with("ORDER BY r.seq"));
    let stale = CatalogRow { status: "stale".into(), ..row(1, vec![]) };
    assert!(changes(&stale, "a.b", None, 10, 1).unwrap_err().message.contains("is stale"));
}

#[test]
fn shadows_are_shared_and_released() {
    let rel = base(17, 1, &[]);
    assert_eq!(shadow::table_name(17), "nabla_shadow.t17");
    assert_eq!(shadow::ensure(&rel, Some((1, None)), &quoting()).len(), 1);
    assert_eq!(shadow::ensure(&rel, Some((1, Some("x".into()))), &quoting()).len(), 5);
    let created = shadow::ensure(&rel, None, &quoting());
    assert_eq!(
        sqls(&created)[..2],
        [
            "CREATE TABLE nabla_shadow.t17 AS SELECT * FROM public.t17",
            "CREATE UNIQUE INDEX ON nabla_shadow.t17 (id, \"Part\")",
        ]
    );
    assert_eq!(created[4].args, vec![Arg::Int8(17), Arg::Text(Some("nabla_shadow.t17".into()))]);
    assert_eq!(shadow::snapshot(&rel)[2].sql, "INSERT INTO nabla_shadow.t17 SELECT * FROM public.t17");
    assert_eq!(shadow::state_query(17).args, vec![Arg::Int8(17)]);
    let (none, dropped) = shadow::release(17, None);
    assert!(none.is_empty() && !dropped);
    assert!(!shadow::release(17, Some((2, None))).1);
    let (statements, dropped) = shadow::release(17, Some((1, None)));
    assert!(dropped);
    assert_eq!(statements[0].sql, "DROP TABLE IF EXISTS nabla_shadow.t17");
}

#[test]
fn views_sharing_a_shadow_are_rebuilt_together() {
    let join = |a: u32, b: u32| vec![base(a, 1, &[]), base(b, 2, &[])];
    let groups = group(vec![
        pending(1, "refreshing", true, join(10, 20)),
        pending(2, "initializing", false, join(10, 20)),
        pending(3, "refreshing", true, vec![base(10, 1, &[])]),
        pending(4, "refreshing", true, join(30, 20)),
        pending(5, "refreshing", true, join(30, 40)),
        pending(6, "refreshing", true, join(50, 60)),
    ]);
    let ids: Vec<Vec<i32>> = groups.iter().map(|g| g.iter().map(|v| v.id).collect()).collect();
    assert_eq!(ids, vec![vec![1, 4, 5], vec![2], vec![3], vec![6]]);
}

#[test]
fn later_views_bring_groups_together() {
    let join = |a: u32, b: u32| vec![base(a, 1, &[]), base(b, 2, &[])];
    let ids = |pending: Vec<Pending>| -> Vec<Vec<i32>> {
        group(pending).iter().map(|g| g.iter().map(|v| v.id).collect()).collect()
    };
    assert_eq!(
        ids(vec![
            pending(1, "refreshing", true, join(1, 2)),
            pending(2, "refreshing", true, join(3, 4)),
            pending(3, "refreshing", true, join(2, 3)),
        ]),
        vec![vec![1, 2, 3]]
    );
    // Members keep the order in which they wait, also when groups meet late.
    assert_eq!(
        ids(vec![
            pending(1, "refreshing", true, join(1, 2)),
            pending(2, "refreshing", true, join(3, 4)),
            pending(3, "initializing", false, join(1, 3)),
            pending(4, "refreshing", true, join(1, 5)),
            pending(5, "refreshing", true, join(7, 8)),
            pending(6, "refreshing", true, join(5, 4)),
        ]),
        vec![vec![1, 2, 4, 6], vec![3], vec![5]]
    );
    assert!(ids(vec![]).is_empty());
}

#[test]
fn shadows_are_built_at_the_point() {
    let rel = base(17, 1, &["k"]);
    let needed = vec!["k".to_string(), "gone".to_string()];
    let statements = shadow::rebuild(&rel, 0x1_0000_0010, &needed, &quoting());
    assert_eq!(
        sqls(&statements)[..4],
        [
            "SET LOCAL nabla.internal_write = on",
            "DROP TABLE IF EXISTS nabla_shadow.t17",
            "CREATE TABLE nabla_shadow.t17 AS SELECT id, \"Part\", k FROM public.t17",
            "CREATE UNIQUE INDEX ON nabla_shadow.t17 (id, \"Part\")",
        ]
    );
    assert_eq!(statements.len(), 8);
    assert_eq!(
        statements[7].args,
        vec![
            Arg::Int8(17),
            Arg::Text(Some("nabla_shadow.t17".into())),
            Arg::Text(Some("1/10".into())),
            Arg::Texts(vec!["id".into(), "Part".into(), "k".into()]),
            Arg::Texts(vec!["bigint".into(), "text".into(), "integer".into()]),
            Arg::Texts(vec!["id".into(), "Part".into()]),
        ]
    );
    assert_eq!(shadow::standing_query(17).args, vec![Arg::Int8(17)]);
    let missing = shadow::ensure_at(&rel, None, 0x1_0000_0010, &needed, &quoting());
    assert_eq!(missing, statements);
}

#[test]
fn healthy_shadows_are_extended() {
    let rel = base(17, 1, &["k"]);
    let needed = vec!["k".to_string()];
    let standing = |failed: bool, columns: &[&str], types: &[&str]| {
        Some(Standing {
            failed,
            columns: columns.iter().map(|c| c.to_string()).collect(),
            column_types: types.iter().map(|c| c.to_string()).collect(),
        })
    };
    let ensured = |found: Option<Standing>| shadow::ensure_at(&rel, found, 16, &needed, &quoting());
    let extended = ensured(standing(false, &["id", "Part", "note"], &["bigint", "text", "text"]));
    assert_eq!(
        sqls(&extended)[..4],
        [
            "SET LOCAL nabla.internal_write = on",
            "ALTER TABLE nabla_shadow.t17 DROP COLUMN IF EXISTS k",
            "ALTER TABLE nabla_shadow.t17 ADD COLUMN k integer",
            "UPDATE nabla_shadow.t17 AS s SET k = b.k FROM public.t17 AS b \
             WHERE s.id = b.id AND s.\"Part\" = b.\"Part\"",
        ]
    );
    assert_eq!(extended[4].args[1], Arg::Texts(vec!["id".into(), "Part".into(), "note".into(), "k".into()]));
    assert!(!extended[4].sql.contains("frontier_lsn"));
    // Nothing is missing: the table is left alone.
    let held = ensured(standing(false, &["id", "Part", "k"], &["bigint", "text", "integer"]));
    assert_eq!(held.len(), 2);
    // A column under another type is replaced.
    let replaced = ensured(standing(false, &["id", "Part", "k"], &["bigint", "text", "text"]));
    assert_eq!(replaced[4].args[2], Arg::Texts(vec!["bigint".into(), "text".into(), "integer".into()]));
    // A failed shadow, or one that lost its key, is built at the point.
    let failed = ensured(standing(true, &["id", "Part", "k"], &["bigint", "text", "integer"]));
    assert_eq!(failed.len(), 8);
    let no_key = ensured(standing(false, &["id", "k"], &["bigint", "integer"]));
    assert_eq!(no_key, failed);
}

#[test]
fn shadows_hold_what_their_views_use() {
    let others = vec![
        spec(Shape::Projection, vec![base(10, 1, &["id", "k"]), base(11, 2, &["z"])]),
        spec(Shape::Projection, vec![base(10, 1, &["k", "a"])]),
    ];
    let own = spec(Shape::Projection, vec![base(10, 1, &["b", "id"])]);
    assert_eq!(needed_columns(10, &others, &own), vec!["id", "k", "a", "b"]);
    assert_eq!(specs_query(10).args, vec![Arg::Int8(10)]);
    let mut done = BTreeSet::from([11]);
    let join = spec(Shape::Projection, vec![base(10, 1, &[]), base(11, 2, &[]), base(12, 3, &[])]);
    assert_eq!(shadows_to_build(&join, &mut done), vec![0, 2]);
    assert_eq!(done, BTreeSet::from([10, 11, 12]));
    assert!(shadows_to_build(&spec(Shape::Projection, vec![base(13, 1, &[])]), &mut done).is_empty());
}

#[test]
fn views_are_built_behind_a_plain_view() {
    assert_eq!(storage_name(4), "nabla_store.v4");
    let view = pending(4, "initializing", false, vec![]);
    assert!(!is_rebuild(&view));
    let plan = build(&view, &view.spec, false, 0x10, &quoting());
    assert!(plan.new_table);
    assert_eq!(
        sqls(&plan.fill)[..2],
        ["CREATE TABLE nabla_store.v4 AS SELECT 1", "CREATE UNIQUE INDEX ON nabla_store.v4 (id, \"Part\")"]
    );
    assert_eq!(plan.expose[0].sql, "CREATE VIEW public.v4 AS SELECT id, \"Part\" FROM nabla_store.v4");
    assert_eq!(plan.live[0].args, vec![Arg::Text(Some("0/10".into())), Arg::Int4(0), Arg::Int4(4)]);
    assert_eq!(view_ddl("x", &view.spec, &quoting()).len(), 3);

    let again = pending(4, "refreshing", true, vec![]);
    assert!(is_rebuild(&again));
    let plan = build(&again, &again.spec, true, 0x10, &quoting());
    assert!(!plan.new_table && plan.expose.is_empty());
    assert_eq!(sqls(&plan.fill), vec!["DELETE FROM nabla_store.v4", "INSERT INTO nabla_store.v4 SELECT 1"]);
    assert_eq!(plan.live[0].args[1], Arg::Int4(1));
}

#[test]
fn failed_builds_are_recorded() {
    let view = pending(4, "refreshing", true, vec![]);
    assert_eq!(record_failure(&vec![view], "boom")[0].args[1], Arg::Text(Some("boom".into())));
    assert_eq!(init_slot_name(4), "nabla_init_4");
    assert!(check_main_slot(None, 1).is_ok());
    assert!(check_main_slot(Some(1), 1).is_ok());
    assert_eq!(
        check_main_slot(Some(0x20), 0x10),
        Err("main slot at 0/20 is past the consistent point 0/10".to_string())
    );
    assert_eq!((delay_step(250), delay_step(50), delay_step(0)), (100, 50, 0));
}

#[test]
fn groups_are_built_view_by_view() {
    let join = |id: i32| pending(id, "refreshing", true, vec![base(10, 1, &["id"]), base(20, 2, &["k"])]);
    assert_eq!(
        populate_group(vec![join(1)], true, None, 16).err(),
        Some("a snapshot was already taken in the population transaction".to_string())
    );
    assert!(populate_group(vec![join(1)], false, Some(17), 16).is_err());
    let mut p = populate_group(vec![join(1), join(2), pending(3, "initializing", false, vec![])], false, Some(16), 16).unwrap();

    // The first view no longer resolves: it fails alone.
    let (statements, ask) = p.start();
    assert_eq!(sqls(&statements), vec!["SET LOCAL nabla.internal_write = on"]);
    assert!(matches!(ask, BuildAsk::Validate { .. }));
    let (statements, ask) = p.validated(Err("no table".to_string()));
    assert_eq!(statements[0].args, vec![Arg::Int4(1), Arg::Text(Some("no table".into()))]);
    assert_eq!(p.log, vec![Notice::warning("nabla worker: rebuild of public.v1 failed: no table".to_string())]);
    assert!(matches!(ask, BuildAsk::Validate { .. }));

    // The second is rebuilt: both shadows, then the storage table that exists.
    let spec = spec(Shape::Projection, vec![base(10, 1, &["id"]), base(20, 2, &["k"])]);
    let (statements, ask) = p.validated(Ok((spec, "{}".to_string())));
    assert_eq!(statements[0].sql, "UPDATE nabla.views SET spec = $2::jsonb WHERE id = $1");
    assert!(matches!(ask, BuildAsk::Specs { .. }));
    match p.specs(&vec![]).1 {
        BuildAsk::Shadow { relation, rebuild, point, needed } => {
            assert_eq!((relation, rebuild, point, needed), (0, true, 16, vec!["id".to_string()]));
        }
        _ => panic!("no shadow"),
    }
    assert!(matches!(p.shadow_built().1, BuildAsk::Specs { .. }));
    assert!(matches!(p.specs(&vec![]).1, BuildAsk::Shadow { relation: 1, .. }));
    match p.shadow_built().1 {
        BuildAsk::Exists { query } => assert_eq!(query.args, vec![Arg::Text(Some("nabla_store.v2".into()))]),
        _ => panic!("storage not looked for"),
    }
    let (statements, ask) = p.storage_found(true, &quoting());
    assert_eq!(sqls(&statements)[0], "DELETE FROM nabla_store.v2");
    assert_eq!(sqls(&statements)[4], "SET LOCAL nabla.internal_write = on");
    assert!(matches!(ask, BuildAsk::Exists { .. }));

    // The third is built for the first time.
    match p.storage_found(false, &quoting()).1 {
        BuildAsk::Depend { storage, oids } => assert_eq!((storage.as_str(), oids.len()), ("nabla_store.v3", 0)),
        _ => panic!("dependencies not recorded"),
    }
    let (statements, ask) = p.depended(&quoting());
    assert!(sqls(&statements)[0].starts_with("CREATE VIEW public.v3"));
    assert!(matches!(ask, BuildAsk::Done));
}

#[test]
fn new_views_are_checked_before_anything_is_locked() {
    let table = |replident: &str| BaseTable {
        oid: 1,
        qualified: "public.t1".into(),
        replident: replident.into(),
        pk_columns: vec![],
    };
    let single = || spec(Shape::Aggregate, vec![base(1, 1, &[])]);
    let refused = |level: &str, replident: &str, relation: bool, view: bool| {
        check_creation("a.b", &single(), &table(replident), level, relation, view).unwrap_err().message
    };
    assert!(refused("minimal", "d", true, true).contains("wal_level"));
    assert!(refused("logical", "d", true, true).contains("REPLICA IDENTITY"));
    assert!(refused("logical", "f", true, true).starts_with("nabla: relation"));
    assert!(refused("logical", "f", false, true).starts_with("nabla: view"));
    let command = |level: &str, spec: ViewSpec| {
        create_view("a.b", &spec, &table("f"), "SELECT 1", "{}", level, false, false, &quoting())
    };
    assert!(command("minimal", single()).is_err());
    let mut command = command("logical", single()).unwrap();
    assert!(matches!(command.next(), Ask::Slot { .. }));
    assert!(command.slot(true).is_none());
    match command.next() {
        Ask::Run { statements } => assert_eq!(sqls(&statements), vec!["LOCK TABLE public.t1 IN SHARE MODE"]),
        _ => panic!("nothing locked"),
    }
}

/// Runs a command with a server that has nothing yet; what was done, in order.
fn run(mut command: Command) -> Vec<String> {
    let q = quoting();
    let mut log = Vec::new();
    loop {
        match command.next() {
            Ask::Done => return log,
            Ask::Slot { .. } => log.extend(command.slot(false).map(|s| s.sql)),
            Ask::Run { statements } => {
                log.extend(statements.into_iter().map(|s| s.sql));
                command.ran();
            }
            Ask::Shadow { query } => {
                assert!(query.sql.starts_with("SELECT refcount, stale_reason"));
                log.extend(command.shadow(Some((1, None)), &q).into_iter().map(|s| s.sql));
            }
            Ask::Publication { oid, .. } => {
                let table = format!("public.t{oid}");
                log.extend(command.publication(true, false, &table, &q).into_iter().map(|s| s.sql));
            }
            Ask::Record { statement } => {
                log.push(statement.sql);
                log.extend(command.recorded(7).into_iter().map(|s| format!("{} {:?}", s.sql, s.args[0])));
            }
            Ask::Release { .. } => log.extend(command.released(Some((1, None))).into_iter().map(|s| s.sql)),
            Ask::Use { oid, .. } => {
                let table = format!("public.t{oid}");
                log.extend(command.used(oid == 20, false, &table, &q).map(|s| s.sql));
            }
            Ask::Members { .. } => {
                let m = |view_id: i64, relid: u32| Membership { view_id, relid, join: true };
                command.members(&vec![m(1, 10), m(1, 20), m(2, 20), m(2, 30), m(3, 40)]);
            }
            Ask::Rows { ids } => {
                assert_eq!(ids, BTreeSet::from([1, 2]));
                let rows = vec![
                    row(1, vec![base(20, 1, &[]), base(10, 2, &[])]),
                    row(2, vec![base(20, 1, &[]), base(30, 2, &[])]),
                ];
                command.rows(&rows);
            }
        }
    }
}

fn starts(log: &[String], starts: &[&str]) {
    assert_eq!(log.len(), starts.len(), "{log:?}");
    for (line, start) in log.iter().zip(starts) {
        assert!(line.starts_with(start), "{line} does not start with {start}");
    }
}

#[test]
fn commands_keep_their_order() {
    let table = BaseTable { oid: 10, qualified: "public.t10".into(), replident: "f".into(), pk_columns: vec![] };
    let join = spec(Shape::Projection, vec![base(10, 1, &[]), base(20, 2, &[])]);
    let created =
        create_view("a.b", &join, &table, "SELECT 1", "{}", "logical", false, false, &quoting()).unwrap();
    starts(
        &run(created),
        &[
            "SELECT pg_catalog.pg_create_logical_replication_slot",
            "LOCK TABLE public.t10 IN SHARE MODE",
            "LOCK TABLE public.t20 IN SHARE MODE",
            "UPDATE nabla.shadows SET refcount = refcount + 1",
            "UPDATE nabla.shadows SET refcount = refcount + 1",
            "ALTER PUBLICATION nabla ADD TABLE public.t10",
            "ALTER PUBLICATION nabla ADD TABLE public.t20",
            "CREATE TABLE a.b AS SELECT 1",
            "CREATE UNIQUE INDEX ON a.b",
            "CREATE TRIGGER nabla_guard ",
            "CREATE TRIGGER nabla_guard_truncate ",
            "INSERT INTO nabla.views",
            "INSERT INTO nabla.view_relations (view_id, relid, rti) VALUES ($1, $2::oid, $3) Int4(7)",
            "INSERT INTO nabla.view_relations",
        ],
    );
    starts(
        &run(drop_view(&row(1, vec![base(10, 1, &[]), base(20, 2, &[])]), "a.b")),
        &[
            "DROP TABLE IF EXISTS a.b",
            "DELETE FROM nabla.views",
            "DROP TABLE IF EXISTS nabla_shadow.t10",
            "DELETE FROM nabla.shadows",
            "DROP TABLE IF EXISTS nabla_shadow.t20",
            "DELETE FROM nabla.shadows",
            "ALTER PUBLICATION nabla DROP TABLE public.t10",
        ],
    );
    let single = run(refresh(&row(1, vec![]), "a.b"));
    starts(
        &single,
        &[
            "SELECT pg_catalog.pg_create_logical_replication_slot",
            "ALTER PUBLICATION nabla ADD TABLE",
            "LOCK TABLE public.t1 IN SHARE MODE",
            "SET LOCAL nabla.internal_write = on",
            "DELETE FROM a.b",
            "INSERT INTO a.b SELECT 1",
            "UPDATE nabla.views SET frontier_lsn",
            "DELETE FROM nabla.deltas",
        ],
    );
    let spread = run(refresh(&row(1, vec![base(10, 1, &[]), base(20, 2, &[])]), "a.b"));
    starts(
        &spread[..8],
        &[
            "SELECT pg_catalog.pg_create_logical_replication_slot",
            "ALTER PUBLICATION nabla ADD TABLE public.t10",
            "ALTER PUBLICATION nabla ADD TABLE public.t20",
            "ALTER PUBLICATION nabla ADD TABLE public.t30",
            "LOCK TABLE public.t10 IN SHARE MODE",
            "LOCK TABLE public.t20 IN SHARE MODE",
            "LOCK TABLE public.t30 IN SHARE MODE",
            "SET LOCAL nabla.internal_write = on",
        ],
    );
}
