//! Shadow tables: a copy of every base table used by a join view, kept at the
//! same position in the change stream as the views. Invariant after the
//! worker absorbs transaction T: shadow(X) == X as of T's commit. Join deltas
//! are evaluated against shadows, never against live tables, which may have
//! moved on since T.
//!
//! Shadow tables live in schema `nabla_shadow` as `t<oid>` and are written
//! only by the worker (same guard trigger as views). They are not dumped by
//! pg_dump; after a restore, `nabla.refresh` rebuilds them.
use vstd::prelude::*;

use crate::definition::{BaseModel, BaseRelation};
use crate::lsn;
use crate::quote::Quoting;
use crate::statement::{bare, oid_arg, text_arg, Arg, ArgModel, Statement, StatementModel};
use crate::text;
use crate::text::{
    decimal, has_part, joined, lemma_part_at, lemma_part_left, lemma_part_of_itself,
    lemma_part_of_joined, lemma_part_right, view_of_option, views,
};

verus! {

pub const SCHEMA: &'static str = "nabla_shadow";

/// The shadow table of the relation with this oid.
pub open spec fn named(oid: u32) -> Seq<char> {
    SCHEMA@ + ".t"@ + decimal(oid as nat)
}

pub fn table_name(oid: u32) -> (result: String)
    ensures
        result@ == named(oid),
{
    SCHEMA.to_string().concat(".t").concat(&text::decimal_text(oid as u64))
}

// --- building and releasing shadows --------------------------------------------------

/// The statement that binds a shadow's relation.
pub open spec fn on_relation(sql: Seq<char>, oid: u32) -> StatementModel {
    StatementModel { sql, args: seq![ArgModel::Int8(oid as i64)] }
}

/// The statements that populate a shadow from the live table.
pub open spec fn snapshot_statements(rel: BaseModel) -> Seq<StatementModel> {
    seq![
        bare("SET LOCAL nabla.internal_write = on"@),
        bare("DELETE FROM "@ + named(rel.oid)),
        bare("INSERT INTO "@ + named(rel.oid) + " SELECT * FROM "@ + rel.qualified),
        on_relation(
            "UPDATE nabla.shadows SET frontier_lsn = pg_catalog.pg_current_wal_lsn(), stale_reason = NULL WHERE relid = $1::oid"@,
            rel.oid,
        ),
    ]
}

/// The statements that create a shadow for its first view.
pub open spec fn create_statements(rel: BaseModel, quoting: spec_fn(Seq<char>) -> Seq<char>) -> Seq<
    StatementModel,
> {
    let table = named(rel.oid);
    seq![
        bare("CREATE TABLE "@ + table + " AS SELECT * FROM "@ + rel.qualified),
        bare(
            "CREATE UNIQUE INDEX ON "@ + table + " ("@ + joined(
                rel.pk_columns.map_values(|c: Seq<char>| quoting(c)),
                ", "@,
            ) + ")"@,
        ),
        bare(
            "CREATE TRIGGER nabla_guard BEFORE INSERT OR UPDATE OR DELETE ON "@ + table
                + " FOR EACH ROW EXECUTE FUNCTION nabla.guard_view()"@,
        ),
        bare(
            "CREATE TRIGGER nabla_guard_truncate BEFORE TRUNCATE ON "@ + table
                + " FOR EACH STATEMENT EXECUTE FUNCTION nabla.guard_view()"@,
        ),
        StatementModel {
            sql: "INSERT INTO nabla.shadows (relid, table_name, frontier_lsn, refcount) VALUES ($1::oid, $2, pg_catalog.pg_current_wal_lsn(), 1)"@,
            args: seq![ArgModel::Int8(rel.oid as i64), ArgModel::Text(Some(table))],
        },
    ]
}

pub open spec fn add_reference(oid: u32) -> StatementModel {
    on_relation("UPDATE nabla.shadows SET refcount = refcount + 1 WHERE relid = $1::oid"@, oid)
}

/// What brings the shadow of `rel` about for one more view, given the
/// references and the stale reason of an existing one.
pub open spec fn ensured(
    rel: BaseModel,
    state: Option<(i32, Option<Seq<char>>)>,
    quoting: spec_fn(Seq<char>) -> Seq<char>,
) -> Seq<StatementModel> {
    match state {
        Some((_, None)) => seq![add_reference(rel.oid)],
        Some((_, Some(_))) => seq![add_reference(rel.oid)] + snapshot_statements(rel),
        None => create_statements(rel, quoting),
    }
}

/// What drops one reference: the statements, and whether the shadow is dropped.
pub open spec fn released(oid: u32, state: Option<(i32, Option<Seq<char>>)>) -> (
    Seq<StatementModel>,
    bool,
) {
    match state {
        None => (Seq::empty(), false),
        Some((refcount, _)) => if refcount > 1 {
            (
                seq![
                    on_relation(
                        "UPDATE nabla.shadows SET refcount = refcount - 1 WHERE relid = $1::oid"@,
                        oid,
                    ),
                ],
                false,
            )
        } else {
            (
                seq![
                    bare("DROP TABLE IF EXISTS "@ + named(oid)),
                    on_relation("DELETE FROM nabla.shadows WHERE relid = $1::oid"@, oid),
                ],
                true,
            )
        },
    }
}

pub open spec fn state_model(state: Option<(i32, Option<String>)>) -> Option<
    (i32, Option<Seq<char>>),
> {
    match state {
        Some((refcount, reason)) => Some((refcount, view_of_option(reason))),
        None => None,
    }
}

fn for_relation(sql: &str, oid: u32) -> (result: Statement)
    ensures
        result@ == on_relation(sql@, oid),
{
    let s = Statement { sql: sql.to_string(), args: vec![oid_arg(oid)] };
    assert(s@.args =~= on_relation(sql@, oid).args);
    s
}

/// The query for (refcount, stale_reason) of an existing shadow.
pub fn state_query(oid: u32) -> (result: Statement)
    ensures
        result@ == on_relation(
            "SELECT refcount, stale_reason FROM nabla.shadows WHERE relid = $1::oid"@,
            oid,
        ),
{
    for_relation("SELECT refcount, stale_reason FROM nabla.shadows WHERE relid = $1::oid", oid)
}

/// Populate the shadow from the live table. The caller holds SHARE locks on
/// every table involved, so the snapshot is exact.
pub fn snapshot(rel: &BaseRelation) -> (result: Vec<Statement>)
    ensures
        views(result@) == snapshot_statements(rel@),
{
    let table = table_name(rel.oid);
    let out = vec![
        Statement::bare("SET LOCAL nabla.internal_write = on".to_string()),
        Statement::bare("DELETE FROM ".to_string().concat(&table)),
        Statement::bare(
            "INSERT INTO ".to_string().concat(&table).concat(" SELECT * FROM ").concat(
                &rel.qualified,
            ),
        ),
        for_relation(
            "UPDATE nabla.shadows SET frontier_lsn = pg_catalog.pg_current_wal_lsn(), stale_reason = NULL WHERE relid = $1::oid",
            rel.oid,
        ),
    ];
    assert(views(out@) =~= snapshot_statements(rel@));
    out
}

fn create(rel: &BaseRelation, quoting: &Quoting) -> (result: Vec<Statement>)
    ensures
        views(result@) == create_statements(rel@, quoting@),
{
    let table = table_name(rel.oid);
    let mut pk: Vec<String> = Vec::new();
    let mut i: usize = 0;
    while i < rel.pk_columns.len()
        invariant
            i <= rel.pk_columns@.len(),
            pk@.len() == i,
            forall|j: int| 0 <= j < i ==> (#[trigger] pk@[j])@ == quoting@(rel.pk_columns@[j]@),
        decreases rel.pk_columns@.len() - i,
    {
        pk.push(quoting.ident(&rel.pk_columns[i]));
        i = i + 1;
    }
    assert(views(pk@) =~= rel@.pk_columns.map_values(|c: Seq<char>| quoting@(c)));
    let recorded = Statement {
        sql: "INSERT INTO nabla.shadows (relid, table_name, frontier_lsn, refcount) VALUES ($1::oid, $2, pg_catalog.pg_current_wal_lsn(), 1)".to_string(),
        args: vec![oid_arg(rel.oid), text_arg(&table)],
    };
    assert(recorded@.args =~= create_statements(rel@, quoting@)[4].args);
    let out = vec![
        Statement::bare(
            "CREATE TABLE ".to_string().concat(&table).concat(" AS SELECT * FROM ").concat(
                &rel.qualified,
            ),
        ),
        Statement::bare(
            "CREATE UNIQUE INDEX ON ".to_string().concat(&table).concat(" (").concat(
                &text::join(&pk, ", "),
            ).concat(")"),
        ),
        Statement::bare(
            "CREATE TRIGGER nabla_guard BEFORE INSERT OR UPDATE OR DELETE ON ".to_string().concat(
                &table,
            ).concat(" FOR EACH ROW EXECUTE FUNCTION nabla.guard_view()"),
        ),
        Statement::bare(
            "CREATE TRIGGER nabla_guard_truncate BEFORE TRUNCATE ON ".to_string().concat(
                &table,
            ).concat(" FOR EACH STATEMENT EXECUTE FUNCTION nabla.guard_view()"),
        ),
        recorded,
    ];
    assert(views(out@) =~= create_statements(rel@, quoting@));
    out
}

/// Create the shadow of `rel` for one more view, or add a reference to the
/// existing one. An existing healthy shadow is deliberately NOT re-snapshotted:
/// it has its own frontier and the worker skips transactions at or below it,
/// so it will absorb what the new view (populated later, at a higher LSN)
/// already contains. A shadow whose maintenance failed has no live dependents
/// any more and is rebuilt.
pub fn ensure(rel: &BaseRelation, state: Option<(i32, Option<String>)>, quoting: &Quoting) -> (result:
    Vec<Statement>)
    ensures
        views(result@) == ensured(rel@, state_model(state), quoting@),
{
    match state {
        None => create(rel, quoting),
        Some((_, reason)) => {
            let mut out = vec![
                for_relation(
                    "UPDATE nabla.shadows SET refcount = refcount + 1 WHERE relid = $1::oid",
                    rel.oid,
                ),
            ];
            let ghost first = seq![add_reference(rel@.oid)];
            assert(views(out@) =~= first);
            if reason.is_some() {
                let mut more = snapshot(rel);
                let ghost added = views(more@);
                out.append(&mut more);
                assert(views(out@) =~= first + added);
            }
            out
        },
    }
}

/// Drop one reference; the shadow is dropped when nobody uses it. Returns also
/// whether the shadow is dropped.
pub fn release(oid: u32, state: Option<(i32, Option<String>)>) -> (result: (Vec<Statement>, bool))
    ensures
        (views((result.0)@), result.1) == released(oid, state_model(state)),
{
    let none: Vec<Statement> = Vec::new();
    assert(views(none@) =~= Seq::empty());
    match state {
        None => (none, false),
        Some((refcount, _)) => {
            if refcount > 1 {
                let out = vec![
                    for_relation(
                        "UPDATE nabla.shadows SET refcount = refcount - 1 WHERE relid = $1::oid",
                        oid,
                    ),
                ];
                assert(views(out@) =~= released(oid, state_model(state)).0);
                return (out, false);
            }
            let out = vec![
                Statement::bare("DROP TABLE IF EXISTS ".to_string().concat(&table_name(oid))),
                for_relation("DELETE FROM nabla.shadows WHERE relid = $1::oid", oid),
            ];
            assert(views(out@) =~= released(oid, state_model(state)).0);
            (out, true)
        },
    }
}

// --- shadows at a consistent point -----------------------------------------------------

/// An existing shadow as the catalog has it.
pub struct Standing {
    /// Maintenance failed; it has no live dependents any more.
    pub failed: bool,
    /// The active columns and their types.
    pub columns: Vec<String>,
    pub column_types: Vec<String>,
}

pub struct StandingModel {
    pub failed: bool,
    pub columns: Seq<Seq<char>>,
    pub column_types: Seq<Seq<char>>,
}

impl View for Standing {
    type V = StandingModel;

    open spec fn view(&self) -> StandingModel {
        StandingModel {
            failed: self.failed,
            columns: views(self.columns@),
            column_types: views(self.column_types@),
        }
    }
}

/// The query for an existing shadow's standing.
pub fn standing_query(oid: u32) -> (result: Statement)
    ensures
        result@ == on_relation(
            "SELECT failed, columns, column_types FROM nabla.shadows WHERE relid = $1::oid"@,
            oid,
        ),
{
    for_relation(
        "SELECT failed, columns, column_types FROM nabla.shadows WHERE relid = $1::oid",
        oid,
    )
}

/// A column and its type.
pub type Column = (Seq<char>, Seq<char>);

/// How many entries two parallel lists have.
pub open spec fn paired(a: nat, b: nat) -> nat {
    if a <= b {
        a
    } else {
        b
    }
}

/// The first `n` columns of a table that its shadow holds: those that are
/// needed and the primary key, in attribute order.
pub open spec fn held_among(rel: BaseModel, needed: Seq<Seq<char>>, n: nat) -> Seq<Column>
    decreases n,
{
    if n == 0 {
        Seq::empty()
    } else if needed.contains(rel.columns[n - 1]) || rel.pk_columns.contains(rel.columns[n - 1]) {
        held_among(rel, needed, (n - 1) as nat).push((rel.columns[n - 1], rel.column_types[n - 1]))
    } else {
        held_among(rel, needed, (n - 1) as nat)
    }
}

pub open spec fn held_columns(rel: BaseModel, needed: Seq<Seq<char>>) -> Seq<Column> {
    held_among(rel, needed, paired(rel.columns.len(), rel.column_types.len()))
}

pub open spec fn names_of(columns: Seq<Column>) -> Seq<Seq<char>> {
    columns.map_values(|c: Column| c.0)
}

pub open spec fn types_of(columns: Seq<Column>) -> Seq<Seq<char>> {
    columns.map_values(|c: Column| c.1)
}

/// How many join views reference a table.
pub open spec fn references() -> Seq<char> {
    "(SELECT count(*)::int4 FROM nabla.view_relations vr JOIN nabla.views v ON v.id = vr.view_id WHERE vr.relid = $1::oid AND jsonb_array_length(v.spec->'relations') > 1)"@
}

/// The statement that records a shadow at a point, with its active columns.
pub open spec fn record_at(rel: BaseModel, point: u64, columns: Seq<Column>) -> StatementModel {
    StatementModel {
        sql: "INSERT INTO nabla.shadows (relid, table_name, frontier_lsn, refcount, failed, columns, column_types, pk_columns) VALUES ($1::oid, $2, $3::pg_lsn, "@
            + references() + ", false, $4, $5, $6)"@,
        args: seq![
            ArgModel::Int8(rel.oid as i64),
            ArgModel::Text(Some(named(rel.oid))),
            ArgModel::Text(Some(lsn::formatted(point))),
            ArgModel::Texts(names_of(columns)),
            ArgModel::Texts(types_of(columns)),
            ArgModel::Texts(rel.pk_columns),
        ],
    }
}

/// The statements that build a shadow anew at a point: what is needed of the
/// table as the snapshot has it, and the point as the shadow's frontier.
pub open spec fn build_at(
    rel: BaseModel,
    point: u64,
    needed: Seq<Seq<char>>,
    quoting: spec_fn(Seq<char>) -> Seq<char>,
) -> Seq<StatementModel> {
    let table = named(rel.oid);
    let columns = held_columns(rel, needed);
    let made = create_statements(rel, quoting);
    seq![
        bare("SET LOCAL nabla.internal_write = on"@),
        bare("DROP TABLE IF EXISTS "@ + table),
        bare(
            "CREATE TABLE "@ + table + " AS SELECT "@ + joined(
                names_of(columns).map_values(|c: Seq<char>| quoting(c)),
                ", "@,
            ) + " FROM "@ + rel.qualified,
        ),
        made[1],
        made[2],
        made[3],
        on_relation("DELETE FROM nabla.shadows WHERE relid = $1::oid"@, rel.oid),
        record_at(rel, point, columns),
    ]
}

/// Whether a shadow holds a column, under this type.
pub open spec fn holds(standing: StandingModel, column: Column) -> bool {
    exists|i: int|
        0 <= i < paired(standing.columns.len(), standing.column_types.len())
            && #[trigger] standing.columns[i] == column.0 && standing.column_types[i] == column.1
}

/// Those of the first `n` columns that a shadow does not hold yet.
pub open spec fn missing_among(standing: StandingModel, columns: Seq<Column>, n: nat) -> Seq<Column>
    decreases n,
{
    if n == 0 {
        Seq::empty()
    } else if holds(standing, columns[n - 1]) {
        missing_among(standing, columns, (n - 1) as nat)
    } else {
        missing_among(standing, columns, (n - 1) as nat).push(columns[n - 1])
    }
}

/// The columns that are needed of a table and that its shadow does not hold yet.
pub open spec fn missing(standing: StandingModel, rel: BaseModel, needed: Seq<Seq<char>>) -> Seq<
    Column,
> {
    let columns = held_columns(rel, needed);
    missing_among(standing, columns, columns.len())
}

/// The first `n` columns of a shadow that are not replaced.
pub open spec fn kept_among(standing: StandingModel, added: Seq<Column>, n: nat) -> Seq<Column>
    decreases n,
{
    if n == 0 {
        Seq::empty()
    } else if names_of(added).contains(standing.columns[n - 1]) {
        kept_among(standing, added, (n - 1) as nat)
    } else {
        kept_among(standing, added, (n - 1) as nat).push(
            (standing.columns[n - 1], standing.column_types[n - 1]),
        )
    }
}

/// The columns of an extended shadow.
pub open spec fn extended_columns(standing: StandingModel, added: Seq<Column>) -> Seq<Column> {
    kept_among(
        standing,
        added,
        paired(standing.columns.len(), standing.column_types.len()),
    ) + added
}

/// The statements that add the first `n` columns to a shadow table.
pub open spec fn add_columns(
    table: Seq<char>,
    added: Seq<Column>,
    quoting: spec_fn(Seq<char>) -> Seq<char>,
    n: nat,
) -> Seq<StatementModel>
    decreases n,
{
    if n == 0 {
        Seq::empty()
    } else {
        let name = quoting(added[n - 1].0);
        add_columns(table, added, quoting, (n - 1) as nat).push(
            bare("ALTER TABLE "@ + table + " DROP COLUMN IF EXISTS "@ + name),
        ).push(bare("ALTER TABLE "@ + table + " ADD COLUMN "@ + name + " "@ + added[n - 1].1))
    }
}

/// The statement that fills added columns from the live table, by primary key.
pub open spec fn fill_columns(
    rel: BaseModel,
    added: Seq<Column>,
    quoting: spec_fn(Seq<char>) -> Seq<char>,
) -> StatementModel {
    bare(
        "UPDATE "@ + named(rel.oid) + " AS s SET "@ + joined(
            names_of(added).map_values(|c: Seq<char>| quoting(c) + " = b."@ + quoting(c)),
            ", "@,
        ) + " FROM "@ + rel.qualified + " AS b WHERE "@ + joined(
            rel.pk_columns.map_values(|c: Seq<char>| "s."@ + quoting(c) + " = b."@ + quoting(c)),
            " AND "@,
        ),
    )
}

/// The statement that records the columns of an extended shadow. Its frontier
/// stays its own.
pub open spec fn record_columns(rel: BaseModel, columns: Seq<Column>) -> StatementModel {
    StatementModel {
        sql: "UPDATE nabla.shadows SET columns = $2, column_types = $3, refcount = "@
            + references() + " WHERE relid = $1::oid"@,
        args: seq![
            ArgModel::Int8(rel.oid as i64),
            ArgModel::Texts(names_of(columns)),
            ArgModel::Texts(types_of(columns)),
        ],
    }
}

/// The statements that make a healthy shadow hold what is needed.
pub open spec fn extend(
    rel: BaseModel,
    standing: StandingModel,
    needed: Seq<Seq<char>>,
    quoting: spec_fn(Seq<char>) -> Seq<char>,
) -> Seq<StatementModel> {
    let added = missing(standing, rel, needed);
    let filled = if added.len() > 0 {
        add_columns(named(rel.oid), added, quoting, added.len()).push(
            fill_columns(rel, added, quoting),
        )
    } else {
        Seq::empty()
    };
    seq![bare("SET LOCAL nabla.internal_write = on"@)] + filled + seq![
        record_columns(rel, extended_columns(standing, added)),
    ]
}

/// Whether an existing shadow can be extended: its maintenance has not failed,
/// and it holds the primary key as the table has it.
pub open spec fn is_extensible(
    rel: BaseModel,
    standing: StandingModel,
    needed: Seq<Seq<char>>,
) -> bool {
    !standing.failed && forall|i: int|
        0 <= i < missing(standing, rel, needed).len() ==> !rel.pk_columns.contains(
            (#[trigger] missing(standing, rel, needed)[i]).0,
        )
}

/// What the first build of a view runs for the shadow of `rel`.
pub open spec fn ensured_at(
    rel: BaseModel,
    standing: Option<StandingModel>,
    point: u64,
    needed: Seq<Seq<char>>,
    quoting: spec_fn(Seq<char>) -> Seq<char>,
) -> Seq<StatementModel> {
    match standing {
        Some(s) if is_extensible(rel, s, needed) => extend(rel, s, needed, quoting),
        _ => build_at(rel, point, needed, quoting),
    }
}

fn references_text() -> (result: String)
    ensures
        result@ == references(),
{
    "(SELECT count(*)::int4 FROM nabla.view_relations vr JOIN nabla.views v ON v.id = vr.view_id WHERE vr.relid = $1::oid AND jsonb_array_length(v.spec->'relations') > 1)".to_string()
}

fn columns_to_hold(rel: &BaseRelation, needed: &Vec<String>) -> (result: Vec<(String, String)>)
    ensures
        views(result@) == held_columns(rel@, views(needed@)),
{
    let ghost model = rel@;
    let ghost wanted = views(needed@);
    let mut out: Vec<(String, String)> = Vec::new();
    let mut i: usize = 0;
    assert(views(out@) =~= Seq::empty());
    while i < rel.columns.len() && i < rel.column_types.len()
        invariant
            model == rel@,
            wanted == views(needed@),
            i <= rel.columns@.len(),
            i <= rel.column_types@.len(),
            views(out@) == held_among(model, wanted, i as nat),
        decreases rel.columns@.len() - i,
    {
        let ghost before = views(out@);
        assert(model.columns[i as int] == rel.columns@[i as int]@);
        assert(model.column_types[i as int] == rel.column_types@[i as int]@);
        if text::contains(needed, &rel.columns[i]) || text::contains(
            &rel.pk_columns,
            &rel.columns[i],
        ) {
            out.push((rel.columns[i].clone(), rel.column_types[i].clone()));
            assert(views(out@) =~= before.push(
                (model.columns[i as int], model.column_types[i as int]),
            ));
        }
        i = i + 1;
    }
    out
}

fn split_columns(columns: &Vec<(String, String)>) -> (result: (Vec<String>, Vec<String>))
    ensures
        views((result.0)@) == names_of(views(columns@)),
        views((result.1)@) == types_of(views(columns@)),
{
    let ghost models = views(columns@);
    let mut names: Vec<String> = Vec::new();
    let mut types: Vec<String> = Vec::new();
    let mut i: usize = 0;
    while i < columns.len()
        invariant
            models == views(columns@),
            i <= columns@.len(),
            names@.len() == i,
            types@.len() == i,
            forall|j: int| 0 <= j < i ==> (#[trigger] names@[j])@ == models[j].0,
            forall|j: int| 0 <= j < i ==> (#[trigger] types@[j])@ == models[j].1,
        decreases columns@.len() - i,
    {
        assert(models[i as int] == columns@[i as int]@);
        names.push(columns[i].0.clone());
        types.push(columns[i].1.clone());
        i = i + 1;
    }
    assert(views(names@) =~= names_of(models));
    assert(views(types@) =~= types_of(models));
    (names, types)
}

fn quoted_names(columns: &Vec<(String, String)>, quoting: &Quoting) -> (result: Vec<String>)
    ensures
        views(result@) == names_of(views(columns@)).map_values(|c: Seq<char>| quoting@(c)),
{
    let ghost models = views(columns@);
    let mut out: Vec<String> = Vec::new();
    let mut i: usize = 0;
    while i < columns.len()
        invariant
            models == views(columns@),
            i <= columns@.len(),
            out@.len() == i,
            forall|j: int| 0 <= j < i ==> (#[trigger] out@[j])@ == quoting@(models[j].0),
        decreases columns@.len() - i,
    {
        assert(models[i as int] == columns@[i as int]@);
        out.push(quoting.ident(&columns[i].0));
        i = i + 1;
    }
    assert(views(out@) =~= names_of(models).map_values(|c: Seq<char>| quoting@(c)));
    out
}

fn copy_names(names: &Vec<String>) -> (result: Vec<String>)
    ensures
        views(result@) == views(names@),
{
    let mut out: Vec<String> = Vec::new();
    let mut i: usize = 0;
    while i < names.len()
        invariant
            i <= names@.len(),
            out@.len() == i,
            forall|j: int| 0 <= j < i ==> (#[trigger] out@[j])@ == names@[j]@,
        decreases names@.len() - i,
    {
        out.push(names[i].clone());
        i = i + 1;
    }
    assert(views(out@) =~= views(names@));
    out
}

/// Build the shadow of `rel` anew at a consistent point, holding the needed
/// columns and the primary key. It runs under the snapshot of that point, and
/// the point is the shadow's frontier.
pub fn rebuild(rel: &BaseRelation, point: u64, needed: &Vec<String>, quoting: &Quoting) -> (result:
    Vec<Statement>)
    ensures
        views(result@) == build_at(rel@, point, views(needed@), quoting@),
{
    let columns = columns_to_hold(rel, needed);
    let ghost models = views(columns@);
    let table = table_name(rel.oid);
    let (names, types) = split_columns(&columns);
    let ghost args = record_at(rel@, point, models).args;
    let recorded = Statement {
        sql: "INSERT INTO nabla.shadows (relid, table_name, frontier_lsn, refcount, failed, columns, column_types, pk_columns) VALUES ($1::oid, $2, $3::pg_lsn, ".to_string().concat(
            &references_text(),
        ).concat(", false, $4, $5, $6)"),
        args: vec![
            oid_arg(rel.oid),
            text_arg(&table),
            Arg::Text(Some(lsn::format(point))),
            Arg::Texts(names),
            Arg::Texts(types),
            Arg::Texts(copy_names(&rel.pk_columns)),
        ],
    };
    assert(recorded@.args =~= args);
    let mut made = create(rel, quoting);
    let ghost statements = create_statements(rel@, quoting@);
    assert(views(made@).len() == statements.len());
    assert(forall|i: int| 0 <= i < statements.len() ==> views(made@)[i] == made@[i]@);
    made.pop();
    let truncate = made.pop();
    let guard = made.pop();
    let index = made.pop();
    let mut out = vec![
        Statement::bare("SET LOCAL nabla.internal_write = on".to_string()),
        Statement::bare("DROP TABLE IF EXISTS ".to_string().concat(&table)),
        Statement::bare(
            "CREATE TABLE ".to_string().concat(&table).concat(" AS SELECT ").concat(
                &text::join(&quoted_names(&columns, quoting), ", "),
            ).concat(" FROM ").concat(&rel.qualified),
        ),
    ];
    if let (Some(index), Some(guard), Some(truncate)) = (index, guard, truncate) {
        out.push(index);
        out.push(guard);
        out.push(truncate);
    }
    out.push(for_relation("DELETE FROM nabla.shadows WHERE relid = $1::oid", rel.oid));
    out.push(recorded);
    assert(views(out@) =~= build_at(rel@, point, views(needed@), quoting@));
    out
}

fn is_held(standing: &Standing, name: &str, ty: &str) -> (result: bool)
    ensures
        result == holds(standing@, (name@, ty@)),
{
    let ghost model = standing@;
    let mut i: usize = 0;
    while i < standing.columns.len() && i < standing.column_types.len()
        invariant
            model == standing@,
            i <= standing.columns@.len(),
            i <= standing.column_types@.len(),
            forall|j: int|
                0 <= j < i ==> !(#[trigger] model.columns[j] == name@ && model.column_types[j]
                    == ty@),
        decreases standing.columns@.len() - i,
    {
        assert(model.columns[i as int] == standing.columns@[i as int]@);
        assert(model.column_types[i as int] == standing.column_types@[i as int]@);
        if text::same(&standing.columns[i], name) && text::same(&standing.column_types[i], ty) {
            assert(holds(model, (name@, ty@)));
            return true;
        }
        i = i + 1;
    }
    false
}

fn columns_to_add(standing: &Standing, columns: &Vec<(String, String)>) -> (result: Vec<
    (String, String),
>)
    ensures
        views(result@) == missing_among(standing@, views(columns@), columns@.len()),
{
    let ghost models = views(columns@);
    let mut out: Vec<(String, String)> = Vec::new();
    let mut i: usize = 0;
    assert(views(out@) =~= Seq::empty());
    while i < columns.len()
        invariant
            models == views(columns@),
            i <= columns@.len(),
            views(out@) == missing_among(standing@, models, i as nat),
        decreases columns@.len() - i,
    {
        let ghost before = views(out@);
        assert(models[i as int] == columns@[i as int]@);
        if !is_held(standing, &columns[i].0, &columns[i].1) {
            out.push((columns[i].0.clone(), columns[i].1.clone()));
            assert(views(out@) =~= before.push(models[i as int]));
        }
        i = i + 1;
    }
    out
}

fn extended(standing: &Standing, added: &Vec<(String, String)>) -> (result: Vec<(String, String)>)
    ensures
        views(result@) == extended_columns(standing@, views(added@)),
{
    let ghost model = standing@;
    let ghost more = views(added@);
    let (new_names, _) = split_columns(added);
    let mut out: Vec<(String, String)> = Vec::new();
    let mut i: usize = 0;
    assert(views(out@) =~= Seq::empty());
    while i < standing.columns.len() && i < standing.column_types.len()
        invariant
            model == standing@,
            more == views(added@),
            views(new_names@) == names_of(more),
            i <= standing.columns@.len(),
            i <= standing.column_types@.len(),
            views(out@) == kept_among(model, more, i as nat),
        decreases standing.columns@.len() - i,
    {
        let ghost before = views(out@);
        assert(model.columns[i as int] == standing.columns@[i as int]@);
        assert(model.column_types[i as int] == standing.column_types@[i as int]@);
        if !text::contains(&new_names, &standing.columns[i]) {
            out.push((standing.columns[i].clone(), standing.column_types[i].clone()));
            assert(views(out@) =~= before.push(
                (model.columns[i as int], model.column_types[i as int]),
            ));
        }
        i = i + 1;
    }
    let ghost kept = views(out@);
    let mut k: usize = 0;
    assert(kept =~= kept + more.take(0));
    while k < added.len()
        invariant
            more == views(added@),
            k <= added@.len(),
            views(out@) == kept + more.take(k as int),
        decreases added@.len() - k,
    {
        let ghost before = views(out@);
        assert(more[k as int] == added@[k as int]@);
        out.push((added[k].0.clone(), added[k].1.clone()));
        assert(views(out@) =~= before.push(more[k as int]));
        assert(more.take(k + 1) =~= more.take(k as int).push(more[k as int]));
        assert(views(out@) =~= kept + more.take(k + 1));
        k = k + 1;
    }
    assert(more.take(k as int) =~= more);
    out
}

fn fill(rel: &BaseRelation, added: &Vec<(String, String)>, quoting: &Quoting) -> (result: Statement)
    ensures
        result@ == fill_columns(rel@, views(added@), quoting@),
{
    let ghost models = views(added@);
    let mut sets: Vec<String> = Vec::new();
    let mut i: usize = 0;
    while i < added.len()
        invariant
            models == views(added@),
            i <= added@.len(),
            sets@.len() == i,
            forall|j: int|
                0 <= j < i ==> (#[trigger] sets@[j])@ == quoting@(models[j].0) + " = b."@
                    + quoting@(models[j].0),
        decreases added@.len() - i,
    {
        assert(models[i as int] == added@[i as int]@);
        let name = quoting.ident(&added[i].0);
        sets.push(name.clone().concat(" = b.").concat(&name));
        i = i + 1;
    }
    assert(views(sets@) =~= names_of(models).map_values(
        |c: Seq<char>| quoting@(c) + " = b."@ + quoting@(c),
    ));
    let mut conds: Vec<String> = Vec::new();
    let mut k: usize = 0;
    while k < rel.pk_columns.len()
        invariant
            k <= rel.pk_columns@.len(),
            conds@.len() == k,
            forall|j: int|
                0 <= j < k ==> (#[trigger] conds@[j])@ == "s."@ + quoting@(rel.pk_columns@[j]@)
                    + " = b."@ + quoting@(rel.pk_columns@[j]@),
        decreases rel.pk_columns@.len() - k,
    {
        let name = quoting.ident(&rel.pk_columns[k]);
        conds.push("s.".to_string().concat(&name).concat(" = b.").concat(&name));
        k = k + 1;
    }
    assert(views(conds@) =~= rel@.pk_columns.map_values(
        |c: Seq<char>| "s."@ + quoting@(c) + " = b."@ + quoting@(c),
    ));
    Statement::bare(
        "UPDATE ".to_string().concat(&table_name(rel.oid)).concat(" AS s SET ").concat(
            &text::join(&sets, ", "),
        ).concat(" FROM ").concat(&rel.qualified).concat(" AS b WHERE ").concat(
            &text::join(&conds, " AND "),
        ),
    )
}

/// Make the shadow of `rel` hold what the first build of a view needs. An
/// existing healthy shadow is extended, never re-snapshotted: it keeps its own
/// frontier, at or below the point, and absorbs what lies between on its own;
/// an added column is filled as of the point, which is what every change up to
/// the point leaves in it. A shadow that is missing, has failed or lost its key
/// is built at the point.
pub fn ensure_at(
    rel: &BaseRelation,
    standing: Option<Standing>,
    point: u64,
    needed: &Vec<String>,
    quoting: &Quoting,
) -> (result: Vec<Statement>)
    ensures
        views(result@) == ensured_at(
            rel@,
            view_of_option(standing),
            point,
            views(needed@),
            quoting@,
        ),
{
    let Some(found) = standing else {
        return rebuild(rel, point, needed, quoting);
    };
    if found.failed {
        return rebuild(rel, point, needed, quoting);
    }
    let columns = columns_to_hold(rel, needed);
    let added = columns_to_add(&found, &columns);
    let ghost models = views(added@);
    assert(models == missing(found@, rel@, views(needed@)));
    let mut i: usize = 0;
    while i < added.len()
        invariant
            i <= added@.len(),
            models == views(added@),
            forall|j: int|
                0 <= j < i ==> !rel@.pk_columns.contains((#[trigger] models[j]).0),
            view_of_option(standing) == Some(found@),
            models == missing(found@, rel@, views(needed@)),
        decreases added@.len() - i,
    {
        assert(models[i as int] == added@[i as int]@);
        if text::contains(&rel.pk_columns, &added[i].0) {
            assert(!is_extensible(rel@, found@, views(needed@)));
            return rebuild(rel, point, needed, quoting);
        }
        i = i + 1;
    }
    assert(is_extensible(rel@, found@, views(needed@)));
    let table = table_name(rel.oid);
    let mut out = vec![Statement::bare("SET LOCAL nabla.internal_write = on".to_string())];
    let ghost head = seq![bare("SET LOCAL nabla.internal_write = on"@)];
    assert(views(out@) =~= head);
    let mut k: usize = 0;
    assert(head =~= head + add_columns(table@, models, quoting@, 0));
    while k < added.len()
        invariant
            k <= added@.len(),
            models == views(added@),
            views(out@) == head + add_columns(table@, models, quoting@, k as nat),
        decreases added@.len() - k,
    {
        let ghost before = views(out@);
        assert(models[k as int] == added@[k as int]@);
        let name = quoting.ident(&added[k].0);
        out.push(
            Statement::bare(
                "ALTER TABLE ".to_string().concat(&table).concat(" DROP COLUMN IF EXISTS ").concat(
                    &name,
                ),
            ),
        );
        out.push(
            Statement::bare(
                "ALTER TABLE ".to_string().concat(&table).concat(" ADD COLUMN ").concat(
                    &name,
                ).concat(" ").concat(&added[k].1),
            ),
        );
        k = k + 1;
        proof {
            let done = add_columns(table@, models, quoting@, (k - 1) as nat);
            let now = add_columns(table@, models, quoting@, k as nat);
            let dropped = now[done.len() as int];
            let added_one = now[done.len() as int + 1];
            assert(now == done.push(dropped).push(added_one));
            assert(views(out@) =~= before.push(dropped).push(added_one));
            assert(views(out@) =~= head + now);
        }
    }
    let ghost altered = add_columns(table@, models, quoting@, models.len());
    let ghost filled = if models.len() > 0 {
        altered.push(fill_columns(rel@, models, quoting@))
    } else {
        Seq::empty()
    };
    let ghost before = views(out@);
    if added.len() > 0 {
        out.push(fill(rel, &added, quoting));
        assert(views(out@) =~= before.push(fill_columns(rel@, models, quoting@)));
    }
    assert(views(out@) =~= head + filled);
    let all = extended(&found, &added);
    let (names, types) = split_columns(&all);
    let recorded = Statement {
        sql: "UPDATE nabla.shadows SET columns = $2, column_types = $3, refcount = ".to_string().concat(
            &references_text(),
        ).concat(" WHERE relid = $1::oid"),
        args: vec![oid_arg(rel.oid), Arg::Texts(names), Arg::Texts(types)],
    };
    assert(recorded@.args =~= record_columns(rel@, views(all@)).args);
    out.push(recorded);
    assert(views(out@) =~= (head + filled).push(record_columns(rel@, views(all@))));
    assert(views(out@) =~= extend(rel@, found@, views(needed@), quoting@));
    out
}

proof fn lemma_held(rel: BaseModel, needed: Seq<Seq<char>>, n: nat)
    requires
        n <= rel.columns.len(),
        n <= rel.column_types.len(),
    ensures
        forall|i: int|
            0 <= i < n && (needed.contains(#[trigger] rel.columns[i]) || rel.pk_columns.contains(
                rel.columns[i],
            )) ==> held_among(rel, needed, n).contains((rel.columns[i], rel.column_types[i])),
        forall|k: int|
            0 <= k < held_among(rel, needed, n).len() ==> needed.contains(
                (#[trigger] held_among(rel, needed, n)[k]).0,
            ) || rel.pk_columns.contains(held_among(rel, needed, n)[k].0),
    decreases n,
{
    if n > 0 {
        lemma_held(rel, needed, (n - 1) as nat);
        let before = held_among(rel, needed, (n - 1) as nat);
        let after = held_among(rel, needed, n);
        assert forall|i: int|
            0 <= i < n && (needed.contains(#[trigger] rel.columns[i]) || rel.pk_columns.contains(
                rel.columns[i],
            )) implies after.contains((rel.columns[i], rel.column_types[i])) by {
            if i < n - 1 {
                let c = (rel.columns[i], rel.column_types[i]);
                assert(before.contains(c));
                let k = choose|k: int| 0 <= k < before.len() && before[k] == c;
                assert(after[k] == c);
            } else {
                assert(after[before.len() as int] == (rel.columns[i], rel.column_types[i]));
            }
        }
    }
}

/// A shadow that is built at a point stands at that point, and holds exactly
/// the needed columns of the table and its key, each under the table's type.
pub proof fn law_shadows_stand_at_their_point(
    rel: BaseModel,
    point: u64,
    needed: Seq<Seq<char>>,
    quoting: spec_fn(Seq<char>) -> Seq<char>,
)
    requires
        rel.columns.len() == rel.column_types.len(),
    ensures
        build_at(rel, point, needed, quoting).last() == record_at(
            rel,
            point,
            held_columns(rel, needed),
        ),
        record_at(rel, point, held_columns(rel, needed)).args[2] == ArgModel::Text(
            Some(lsn::formatted(point)),
        ),
        forall|i: int|
            0 <= i < rel.columns.len() && (needed.contains(#[trigger] rel.columns[i])
                || rel.pk_columns.contains(rel.columns[i])) ==> held_columns(
                rel,
                needed,
            ).contains((rel.columns[i], rel.column_types[i])),
        forall|k: int|
            0 <= k < held_columns(rel, needed).len() ==> needed.contains(
                (#[trigger] held_columns(rel, needed)[k]).0,
            ) || rel.pk_columns.contains(held_columns(rel, needed)[k].0),
{
    lemma_held(rel, needed, rel.columns.len());
}

proof fn lemma_missing(standing: StandingModel, columns: Seq<Column>, n: nat)
    requires
        n <= columns.len(),
    ensures
        forall|i: int|
            0 <= i < n ==> holds(standing, #[trigger] columns[i]) || missing_among(
                standing,
                columns,
                n,
            ).contains(columns[i]),
    decreases n,
{
    if n > 0 {
        lemma_missing(standing, columns, (n - 1) as nat);
        let before = missing_among(standing, columns, (n - 1) as nat);
        let after = missing_among(standing, columns, n);
        assert forall|i: int| 0 <= i < n implies holds(standing, #[trigger] columns[i])
            || after.contains(columns[i]) by {
            if i < n - 1 {
                if before.contains(columns[i]) {
                    let k = choose|k: int| 0 <= k < before.len() && before[k] == columns[i];
                    assert(after[k] == columns[i]);
                }
            } else if !holds(standing, columns[i]) {
                assert(after[before.len() as int] == columns[i]);
            }
        }
    }
}

/// An extended shadow is only ever added to what is missing, and every column
/// that is needed was there already or is added; nothing moves its frontier:
/// where nothing is missing the table is not written.
pub proof fn law_extended_shadows_hold_what_is_needed(
    rel: BaseModel,
    standing: StandingModel,
    needed: Seq<Seq<char>>,
    quoting: spec_fn(Seq<char>) -> Seq<char>,
    i: int,
)
    requires
        0 <= i < held_columns(rel, needed).len(),
    ensures
        holds(standing, held_columns(rel, needed)[i]) || missing(standing, rel, needed).contains(
            held_columns(rel, needed)[i],
        ),
        missing(standing, rel, needed).len() == 0 ==> extend(rel, standing, needed, quoting) == seq![
            bare("SET LOCAL nabla.internal_write = on"@),
            record_columns(rel, extended_columns(standing, missing(standing, rel, needed))),
        ],
{
    lemma_missing(standing, held_columns(rel, needed), held_columns(rel, needed).len());
    if missing(standing, rel, needed).len() == 0 {
        assert(extend(rel, standing, needed, quoting) =~= seq![
            bare("SET LOCAL nabla.internal_write = on"@),
            record_columns(rel, extended_columns(standing, missing(standing, rel, needed))),
        ]);
    }
}

/// Different relations have different shadow tables.
pub proof fn law_shadow_tables_are_apart(a: u32, b: u32)
    requires
        named(a) == named(b),
    ensures
        a == b,
{
    let prefix = SCHEMA@ + ".t"@;
    let x = decimal(a as nat);
    let y = decimal(b as nat);
    assert(named(a).skip(prefix.len() as int) =~= x);
    assert(named(b).skip(prefix.len() as int) =~= y);
    text::lemma_decimal_value(a as nat);
    text::lemma_decimal_value(b as nat);
}

/// A shadow is dropped with its last reference and not before; one that is
/// healthy is never populated again for another view.
pub proof fn law_references_keep_shadows(
    rel: BaseModel,
    refcount: i32,
    reason: Option<Seq<char>>,
    quoting: spec_fn(Seq<char>) -> Seq<char>,
)
    ensures
        released(rel.oid, Some((refcount, reason))).1 <==> refcount <= 1,
        ensured(rel, Some((refcount, None)), quoting) == seq![add_reference(rel.oid)],
{
}

// --- laws of what is run ---------------------------------------------------------------------

/// Whether a statement is bound to a relation.
pub open spec fn is_of(s: StatementModel, oid: u32) -> bool {
    s.args.len() > 0 && s.args[0] == ArgModel::Int8(oid as i64)
}

/// A text of parts holds each of them, and what stands in one.
proof fn lemma_held_in_parts(a: Seq<char>, b: Seq<char>, c: Seq<char>, d: Seq<char>, part: Seq<char>)
    ensures
        has_part(a, part) || has_part(b, part) || has_part(c, part) || has_part(d, part)
            ==> has_part(a + b + c + d, part),
        has_part(a + b, part) || has_part(c + d, part) ==> has_part(a + b + c + d, part),
{
    assert((a + b) + (c + d) =~= a + b + c + d);
    if has_part(a, part) {
        lemma_part_left(a, b, part);
    }
    if has_part(b, part) {
        lemma_part_right(a, b, part);
    }
    if has_part(c, part) {
        lemma_part_left(c, d, part);
    }
    if has_part(d, part) {
        lemma_part_right(c, d, part);
    }
    if has_part(a + b, part) {
        lemma_part_left(a + b, c + d, part);
    }
    if has_part(c + d, part) {
        lemma_part_right(a + b, c + d, part);
    }
}

/// One more view adds one reference and one less takes it away again; the last one drops
/// the table and its record, and nothing is done where there is no shadow.
pub proof fn law_references_are_counted(
    rel: BaseModel,
    refcount: i32,
    reason: Option<Seq<char>>,
    quoting: spec_fn(Seq<char>) -> Seq<char>,
)
    ensures
        ({
            let added = ensured(rel, Some((refcount, reason)), quoting)[0];
            &&& is_of(added, rel.oid)
            &&& has_part(added.sql, "refcount = refcount + 1"@)
        }),
        ({
            let made = ensured(rel, None, quoting);
            &&& has_part(made[0].sql, "CREATE TABLE "@ + named(rel.oid))
            &&& has_part(made[0].sql, " FROM "@ + rel.qualified)
            &&& is_of(made.last(), rel.oid)
            &&& has_part(made.last().sql, "INSERT INTO nabla.shadows"@)
            &&& has_part(made.last().sql, ", 1)"@)
            &&& made.last().args[1] == ArgModel::Text(Some(named(rel.oid)))
        }),
        ({
            let (run, dropped) = released(rel.oid, Some((refcount, reason)));
            &&& dropped <==> refcount <= 1
            &&& !dropped ==> run.len() == 1 && is_of(run[0], rel.oid) && has_part(
                run[0].sql,
                "refcount = refcount - 1"@,
            )
            &&& dropped ==> run.len() == 2 && has_part(
                run[0].sql,
                "DROP TABLE IF EXISTS "@ + named(rel.oid),
            ) && is_of(run[1], rel.oid) && has_part(run[1].sql, "DELETE FROM nabla.shadows"@)
        }),
        released(rel.oid, None).0.len() == 0,
        !released(rel.oid, None).1,
{
    lemma_reference_texts();
    let table = named(rel.oid);
    assert(has_part(ensured(rel, None, quoting)[0].sql, "CREATE TABLE "@ + table)) by {
        lemma_part_of_itself("CREATE TABLE "@ + table);
        lemma_held_in_parts(
            "CREATE TABLE "@,
            table,
            " AS SELECT * FROM "@,
            rel.qualified,
            "CREATE TABLE "@ + table,
        );
    }
    assert(has_part(ensured(rel, None, quoting)[0].sql, " FROM "@ + rel.qualified)) by {
        lemma_from_part(rel.qualified);
        lemma_held_in_parts(
            "CREATE TABLE "@,
            table,
            " AS SELECT * FROM "@,
            rel.qualified,
            " FROM "@ + rel.qualified,
        );
    }
    lemma_part_of_itself("DROP TABLE IF EXISTS "@ + table);
}

proof fn lemma_from_part(table: Seq<char>)
    ensures
        has_part(" AS SELECT * FROM "@ + table, " FROM "@ + table),
{
    reveal_strlit(" AS SELECT * FROM ");
    reveal_strlit(" FROM ");
    let whole = " AS SELECT * FROM "@ + table;
    let part = " FROM "@ + table;
    assert(whole.subrange(12, 12 + part.len() as int) =~= part);
    lemma_part_at(whole, part, 12);
}

proof fn lemma_reference_texts()
    ensures
        has_part(
            "UPDATE nabla.shadows SET refcount = refcount + 1 WHERE relid = $1::oid"@,
            "refcount = refcount + 1"@,
        ),
        has_part(
            "UPDATE nabla.shadows SET refcount = refcount - 1 WHERE relid = $1::oid"@,
            "refcount = refcount - 1"@,
        ),
        has_part("DELETE FROM nabla.shadows WHERE relid = $1::oid"@, "DELETE FROM nabla.shadows"@),
        has_part(
            "INSERT INTO nabla.shadows (relid, table_name, frontier_lsn, refcount) VALUES ($1::oid, $2, pg_catalog.pg_current_wal_lsn(), 1)"@,
            "INSERT INTO nabla.shadows"@,
        ),
        has_part(
            "INSERT INTO nabla.shadows (relid, table_name, frontier_lsn, refcount) VALUES ($1::oid, $2, pg_catalog.pg_current_wal_lsn(), 1)"@,
            ", 1)"@,
        ),
        has_part(
            "UPDATE nabla.shadows SET frontier_lsn = pg_catalog.pg_current_wal_lsn(), stale_reason = NULL WHERE relid = $1::oid"@,
            "stale_reason = NULL"@,
        ),
{
    reveal_strlit("UPDATE nabla.shadows SET refcount = refcount + 1 WHERE relid = $1::oid");
    reveal_strlit("UPDATE nabla.shadows SET refcount = refcount - 1 WHERE relid = $1::oid");
    reveal_strlit("refcount = refcount + 1");
    reveal_strlit("refcount = refcount - 1");
    reveal_strlit("DELETE FROM nabla.shadows WHERE relid = $1::oid");
    reveal_strlit("DELETE FROM nabla.shadows");
    reveal_strlit("INSERT INTO nabla.shadows");
    reveal_strlit(", 1)");
    reveal_strlit("stale_reason = NULL");
    reveal_strlit(
        "INSERT INTO nabla.shadows (relid, table_name, frontier_lsn, refcount) VALUES ($1::oid, $2, pg_catalog.pg_current_wal_lsn(), 1)",
    );
    reveal_strlit(
        "UPDATE nabla.shadows SET frontier_lsn = pg_catalog.pg_current_wal_lsn(), stale_reason = NULL WHERE relid = $1::oid",
    );
    let plus = "UPDATE nabla.shadows SET refcount = refcount + 1 WHERE relid = $1::oid"@;
    assert(plus.subrange(25, 48) =~= "refcount = refcount + 1"@);
    lemma_part_at(plus, "refcount = refcount + 1"@, 25);
    let minus = "UPDATE nabla.shadows SET refcount = refcount - 1 WHERE relid = $1::oid"@;
    assert(minus.subrange(25, 48) =~= "refcount = refcount - 1"@);
    lemma_part_at(minus, "refcount = refcount - 1"@, 25);
    let delete = "DELETE FROM nabla.shadows WHERE relid = $1::oid"@;
    assert(delete.subrange(0, 25) =~= "DELETE FROM nabla.shadows"@);
    lemma_part_at(delete, "DELETE FROM nabla.shadows"@, 0);
    let insert = "INSERT INTO nabla.shadows (relid, table_name, frontier_lsn, refcount) VALUES ($1::oid, $2, pg_catalog.pg_current_wal_lsn(), 1)"@;
    assert(insert.subrange(0, 25) =~= "INSERT INTO nabla.shadows"@);
    lemma_part_at(insert, "INSERT INTO nabla.shadows"@, 0);
    let n = insert.len() as int;
    assert(insert.subrange(n - 4, n) =~= ", 1)"@);
    lemma_part_at(insert, ", 1)"@, n - 4);
    let clear = "UPDATE nabla.shadows SET frontier_lsn = pg_catalog.pg_current_wal_lsn(), stale_reason = NULL WHERE relid = $1::oid"@;
    assert(clear.subrange(73, 92) =~= "stale_reason = NULL"@);
    lemma_part_at(clear, "stale_reason = NULL"@, 73);
}

/// A shadow whose maintenance failed is emptied, filled anew from the table and healthy
/// again; one that is healthy is left as it is.
pub proof fn law_failed_shadows_are_taken_anew(
    rel: BaseModel,
    refcount: i32,
    reason: Option<Seq<char>>,
    quoting: spec_fn(Seq<char>) -> Seq<char>,
)
    ensures
        ({
            let run = ensured(rel, Some((refcount, reason)), quoting);
            &&& reason is None ==> run.len() == 1
            &&& reason is Some ==> exists|d: int, f: int|
                0 < d < f < run.len() - 1 && #[trigger] run[d] == bare(
                    "DELETE FROM "@ + named(rel.oid),
                ) && #[trigger] run[f] == bare(
                    "INSERT INTO "@ + named(rel.oid) + " SELECT * FROM "@ + rel.qualified,
                ) && is_of(run.last(), rel.oid) && has_part(run.last().sql, "stale_reason = NULL"@)
        }),
{
    let run = ensured(rel, Some((refcount, reason)), quoting);
    if reason is Some {
        lemma_reference_texts();
        assert(run[2] == bare("DELETE FROM "@ + named(rel.oid)));
        assert(run[3] == bare(
            "INSERT INTO "@ + named(rel.oid) + " SELECT * FROM "@ + rel.qualified,
        ));
        assert(run.len() == 5);
    }
}

/// Whether a shadow holds every column of the table's primary key as the table has it.
pub open spec fn holds_key(rel: BaseModel, standing: StandingModel) -> bool {
    forall|p: int|
        0 <= p < rel.columns.len() && rel.pk_columns.contains(#[trigger] rel.columns[p]) ==> holds(
            standing,
            (rel.columns[p], rel.column_types[p]),
        )
}

proof fn lemma_held_are_columns(rel: BaseModel, needed: Seq<Seq<char>>, n: nat)
    requires
        n <= rel.columns.len(),
        n <= rel.column_types.len(),
    ensures
        forall|k: int|
            0 <= k < held_among(rel, needed, n).len() ==> is_column(
                rel,
                #[trigger] held_among(rel, needed, n)[k],
            ),
    decreases n,
{
    if n > 0 {
        lemma_held_are_columns(rel, needed, (n - 1) as nat);
        let before = held_among(rel, needed, (n - 1) as nat);
        let after = held_among(rel, needed, n);
        assert forall|k: int| 0 <= k < after.len() implies is_column(
            rel,
            #[trigger] after[k],
        ) by {
            if k < before.len() {
                assert(after[k] == before[k]);
            } else {
                assert(rel.columns[n - 1] == after[k].0);
            }
        }
    }
}

/// Whether a table has a column, under this type.
pub open spec fn is_column(rel: BaseModel, c: Column) -> bool {
    exists|p: int|
        0 <= p < rel.columns.len() && #[trigger] rel.columns[p] == c.0 && rel.column_types[p]
            == c.1
}

proof fn lemma_only_missing(standing: StandingModel, columns: Seq<Column>, n: nat)
    requires
        n <= columns.len(),
    ensures
        forall|k: int|
            0 <= k < missing_among(standing, columns, n).len() ==> !holds(
                standing,
                #[trigger] missing_among(standing, columns, n)[k],
            ) && columns.contains(missing_among(standing, columns, n)[k]),
    decreases n,
{
    if n > 0 {
        lemma_only_missing(standing, columns, (n - 1) as nat);
        let before = missing_among(standing, columns, (n - 1) as nat);
        let after = missing_among(standing, columns, n);
        assert forall|k: int| 0 <= k < after.len() implies !holds(standing, #[trigger] after[k])
            && columns.contains(after[k]) by {
            if k < before.len() {
                assert(after[k] == before[k]);
            } else {
                assert(columns[n - 1] == after[k]);
            }
        }
    }
}

/// A column is added to a shadow exactly where it is needed of the table, or of its key,
/// and the shadow does not hold it yet under the table's type.
pub proof fn law_missing_columns_are_added(
    rel: BaseModel,
    standing: StandingModel,
    needed: Seq<Seq<char>>,
    c: Column,
)
    requires
        rel.columns.len() == rel.column_types.len(),
    ensures
        missing(standing, rel, needed).contains(c) <==> is_column(rel, c) && !holds(standing, c)
            && (needed.contains(c.0) || rel.pk_columns.contains(c.0)),
{
    let columns = held_columns(rel, needed);
    let n = rel.columns.len();
    lemma_held(rel, needed, n);
    lemma_held_are_columns(rel, needed, n);
    lemma_missing(standing, columns, columns.len());
    lemma_only_missing(standing, columns, columns.len());
    let added = missing(standing, rel, needed);
    if added.contains(c) {
        let k = choose|k: int| 0 <= k < added.len() && added[k] == c;
        assert(!holds(standing, added[k]) && columns.contains(added[k]));
        let h = choose|h: int| 0 <= h < columns.len() && columns[h] == c;
        assert(is_column(rel, columns[h]));
    }
    if is_column(rel, c) && !holds(standing, c) && (needed.contains(c.0)
        || rel.pk_columns.contains(c.0)) {
        let p = choose|p: int|
            0 <= p < rel.columns.len() && #[trigger] rel.columns[p] == c.0 && rel.column_types[p]
                == c.1;
        assert(columns.contains((rel.columns[p], rel.column_types[p])));
        let h = choose|h: int| 0 <= h < columns.len() && columns[h] == c;
        assert(holds(standing, columns[h]) || added.contains(columns[h]));
    }
}

/// A shadow is built anew, at the point, exactly where there is none, where its
/// maintenance failed or where it does not hold the key as the table has it; else its
/// frontier stays and only what it holds is recorded.
pub proof fn law_shadows_are_built_anew_where_they_must(
    rel: BaseModel,
    standing: Option<StandingModel>,
    point: u64,
    needed: Seq<Seq<char>>,
    quoting: spec_fn(Seq<char>) -> Seq<char>,
)
    requires
        rel.columns.len() == rel.column_types.len(),
    ensures
        ({
            let last = ensured_at(rel, standing, point, needed, quoting).last();
            let kept = standing is Some && !(standing->0).failed && holds_key(rel, standing->0);
            &&& is_of(last, rel.oid)
            &&& kept ==> last.args.len() == 3
            &&& !kept ==> last.args.len() == 6 && last.args[1] == ArgModel::Text(
                Some(named(rel.oid)),
            ) && last.args[2] == ArgModel::Text(Some(lsn::formatted(point))) && last.args[5]
                == ArgModel::Texts(rel.pk_columns)
        }),
{
    if standing is Some {
        let s = standing->0;
        let added = missing(s, rel, needed);
        if is_extensible(rel, s, needed) {
            assert forall|p: int|
                0 <= p < rel.columns.len() && rel.pk_columns.contains(
                    #[trigger] rel.columns[p],
                ) implies holds(s, (rel.columns[p], rel.column_types[p])) by {
                let c = (rel.columns[p], rel.column_types[p]);
                law_missing_columns_are_added(rel, s, needed, c);
                if !holds(s, c) {
                    assert(is_column(rel, c));
                    let k = choose|k: int| 0 <= k < added.len() && added[k] == c;
                    assert(!rel.pk_columns.contains(added[k].0));
                }
            }
        }
        if !s.failed && holds_key(rel, s) {
            assert forall|i: int| 0 <= i < added.len() implies !rel.pk_columns.contains(
                (#[trigger] added[i]).0,
            ) by {
                law_missing_columns_are_added(rel, s, needed, added[i]);
                assert(added.contains(added[i]));
                let p = choose|p: int|
                    0 <= p < rel.columns.len() && #[trigger] rel.columns[p] == added[i].0
                        && rel.column_types[p] == added[i].1;
                assert(rel.columns[p] == added[i].0);
            }
            assert(is_extensible(rel, s, needed));
        }
    }
}

proof fn lemma_quoted_list_has(
    names: Seq<Seq<char>>,
    quoting: spec_fn(Seq<char>) -> Seq<char>,
    i: int,
)
    requires
        0 <= i < names.len(),
    ensures
        has_part(
            joined(names.map_values(|c: Seq<char>| quoting(c)), ", "@),
            quoting(names[i]),
        ),
{
    lemma_part_of_joined(names.map_values(|c: Seq<char>| quoting(c)), ", "@, i);
}

/// A shadow that is built holds every needed column and every key column of its own table,
/// and its rows are told apart by every column of the key.
pub proof fn law_built_shadows_hold_every_column(
    rel: BaseModel,
    point: u64,
    needed: Seq<Seq<char>>,
    quoting: spec_fn(Seq<char>) -> Seq<char>,
    p: int,
    k: int,
)
    requires
        rel.columns.len() == rel.column_types.len(),
        0 <= p < rel.columns.len(),
        needed.contains(rel.columns[p]) || rel.pk_columns.contains(rel.columns[p]),
        0 <= k < rel.pk_columns.len(),
    ensures
        ({
            let run = build_at(rel, point, needed, quoting);
            &&& has_part(run[1].sql, "DROP TABLE IF EXISTS "@ + named(rel.oid))
            &&& has_part(run[2].sql, "CREATE TABLE "@ + named(rel.oid))
            &&& has_part(run[2].sql, quoting(rel.columns[p]))
            &&& has_part(run[2].sql, " FROM "@ + rel.qualified)
            &&& has_part(run[3].sql, "CREATE UNIQUE INDEX ON "@ + named(rel.oid))
            &&& has_part(run[3].sql, quoting(rel.pk_columns[k]))
            &&& ensured(rel, None, quoting)[1] == run[3]
        }),
{
    let table = named(rel.oid);
    let columns = held_columns(rel, needed);
    lemma_held(rel, needed, rel.columns.len());
    let c = (rel.columns[p], rel.column_types[p]);
    assert(columns.contains(c));
    let h = choose|h: int| 0 <= h < columns.len() && columns[h] == c;
    assert(names_of(columns)[h] == rel.columns[p]);
    lemma_quoted_list_has(names_of(columns), quoting, h);
    lemma_quoted_list_has(rel.pk_columns, quoting, k);
    let list = joined(names_of(columns).map_values(|c: Seq<char>| quoting(c)), ", "@);
    let keys = joined(rel.pk_columns.map_values(|c: Seq<char>| quoting(c)), ", "@);
    let run = build_at(rel, point, needed, quoting);
    assert(has_part(run[1].sql, "DROP TABLE IF EXISTS "@ + table)) by {
        lemma_part_of_itself("DROP TABLE IF EXISTS "@ + table);
    }
    lemma_create_text(table, list, rel.qualified, quoting(rel.columns[p]));
    lemma_index_text(table, keys, quoting(rel.pk_columns[k]));
}

proof fn lemma_create_text(table: Seq<char>, list: Seq<char>, from: Seq<char>, item: Seq<char>)
    requires
        has_part(list, item),
    ensures
        ({
            let sql = "CREATE TABLE "@ + table + " AS SELECT "@ + list + " FROM "@ + from;
            &&& has_part(sql, "CREATE TABLE "@ + table)
            &&& has_part(sql, item)
            &&& has_part(sql, " FROM "@ + from)
        }),
{
    let head = "CREATE TABLE "@ + table;
    let tail = " FROM "@ + from;
    let sql = head + " AS SELECT "@ + list + " FROM "@ + from;
    assert(head + " AS SELECT "@ + list + tail =~= sql);
    lemma_part_of_itself(head);
    lemma_part_of_itself(tail);
    lemma_held_in_parts(head, " AS SELECT "@, list, tail, head);
    lemma_held_in_parts(head, " AS SELECT "@, list, tail, item);
    lemma_held_in_parts(head, " AS SELECT "@, list, tail, tail);
}

proof fn lemma_index_text(table: Seq<char>, keys: Seq<char>, item: Seq<char>)
    requires
        has_part(keys, item),
    ensures
        ({
            let sql = "CREATE UNIQUE INDEX ON "@ + table + " ("@ + keys + ")"@;
            &&& has_part(sql, "CREATE UNIQUE INDEX ON "@ + table)
            &&& has_part(sql, item)
        }),
{
    let head = "CREATE UNIQUE INDEX ON "@ + table;
    lemma_part_of_itself(head);
    lemma_held_in_parts(head, " ("@, keys, ")"@, head);
    lemma_held_in_parts(head, " ("@, keys, ")"@, item);
}

proof fn lemma_columns_are_altered(
    table: Seq<char>,
    added: Seq<Column>,
    quoting: spec_fn(Seq<char>) -> Seq<char>,
    n: nat,
    i: int,
)
    requires
        0 <= i < n <= added.len(),
    ensures
        add_columns(table, added, quoting, n).len() == 2 * n,
        add_columns(table, added, quoting, n)[2 * i + 1] == bare(
            "ALTER TABLE "@ + table + " ADD COLUMN "@ + quoting(added[i].0) + " "@ + added[i].1,
        ),
    decreases n,
{
    if i < n - 1 {
        lemma_columns_are_altered(table, added, quoting, (n - 1) as nat, i);
    } else if n > 1 {
        lemma_columns_are_altered(table, added, quoting, (n - 1) as nat, 0);
    } else {
        assert(add_columns(table, added, quoting, 0).len() == 0);
    }
}

/// Every column that is added to a shadow is added under its own name and type, filled
/// from the same column of the table, and the rows are matched by every column of the key.
pub proof fn law_added_columns_are_filled(
    rel: BaseModel,
    standing: StandingModel,
    needed: Seq<Seq<char>>,
    quoting: spec_fn(Seq<char>) -> Seq<char>,
    i: int,
    k: int,
)
    requires
        0 <= i < missing(standing, rel, needed).len(),
        0 <= k < rel.pk_columns.len(),
    ensures
        ({
            let run = extend(rel, standing, needed, quoting);
            let (name, ty) = missing(standing, rel, needed)[i];
            let fill = run[run.len() - 2].sql;
            &&& exists|s: int|
                0 < s < run.len() - 2 && #[trigger] run[s] == bare(
                    "ALTER TABLE "@ + named(rel.oid) + " ADD COLUMN "@ + quoting(name) + " "@ + ty,
                )
            &&& has_part(fill, "UPDATE "@ + named(rel.oid))
            &&& has_part(fill, " FROM "@ + rel.qualified)
            &&& has_part(fill, quoting(name) + " = b."@ + quoting(name))
            &&& has_part(
                fill,
                "s."@ + quoting(rel.pk_columns[k]) + " = b."@ + quoting(rel.pk_columns[k]),
            )
        }),
{
    let run = extend(rel, standing, needed, quoting);
    let added = missing(standing, rel, needed);
    let (name, ty) = added[i];
    let altered = add_columns(named(rel.oid), added, quoting, added.len());
    lemma_columns_are_altered(named(rel.oid), added, quoting, added.len(), i);
    assert(run[1 + (2 * i + 1)] == altered[2 * i + 1]);
    assert(run[run.len() - 2] == fill_columns(rel, added, quoting));
    let sets = names_of(added).map_values(|c: Seq<char>| quoting(c) + " = b."@ + quoting(c));
    let keys = rel.pk_columns.map_values(
        |c: Seq<char>| "s."@ + quoting(c) + " = b."@ + quoting(c),
    );
    assert(sets[i] == quoting(name) + " = b."@ + quoting(name));
    lemma_part_of_joined(sets, ", "@, i);
    lemma_part_of_joined(keys, " AND "@, k);
    lemma_fill_text(
        named(rel.oid),
        joined(sets, ", "@),
        rel.qualified,
        joined(keys, " AND "@),
        sets[i],
        keys[k],
    );
}

proof fn lemma_fill_text(
    table: Seq<char>,
    sets: Seq<char>,
    from: Seq<char>,
    keys: Seq<char>,
    set: Seq<char>,
    key: Seq<char>,
)
    requires
        has_part(sets, set),
        has_part(keys, key),
    ensures
        ({
            let sql = "UPDATE "@ + table + " AS s SET "@ + sets + " FROM "@ + from
                + " AS b WHERE "@ + keys;
            &&& has_part(sql, "UPDATE "@ + table)
            &&& has_part(sql, " FROM "@ + from)
            &&& has_part(sql, set)
            &&& has_part(sql, key)
        }),
{
    let head = "UPDATE "@ + table;
    let read = " FROM "@ + from;
    let front = head + " AS s SET "@ + sets + read;
    let sql = head + " AS s SET "@ + sets + " FROM "@ + from + " AS b WHERE "@ + keys;
    assert(front + " AS b WHERE "@ + keys =~= sql);
    lemma_part_of_itself(head);
    lemma_part_of_itself(read);
    lemma_held_in_parts(head, " AS s SET "@, sets, read, head);
    lemma_held_in_parts(head, " AS s SET "@, sets, read, read);
    lemma_held_in_parts(head, " AS s SET "@, sets, read, set);
    assert(front + " AS b WHERE "@ + keys + Seq::<char>::empty() =~= sql);
    lemma_held_in_parts(front, " AS b WHERE "@, keys, Seq::empty(), head);
    lemma_held_in_parts(front, " AS b WHERE "@, keys, Seq::empty(), read);
    lemma_held_in_parts(front, " AS b WHERE "@, keys, Seq::empty(), set);
    lemma_held_in_parts(front, " AS b WHERE "@, keys, Seq::empty(), key);
}

proof fn lemma_kept(standing: StandingModel, added: Seq<Column>, n: nat, c: Column)
    requires
        n <= standing.columns.len(),
        n <= standing.column_types.len(),
    ensures
        kept_among(standing, added, n).contains(c) <==> !names_of(added).contains(c.0) && exists|
            i: int,
        |
            0 <= i < n && #[trigger] standing.columns[i] == c.0 && standing.column_types[i] == c.1,
    decreases n,
{
    if n > 0 {
        lemma_kept(standing, added, (n - 1) as nat, c);
        let before = kept_among(standing, added, (n - 1) as nat);
        let last = (standing.columns[n - 1], standing.column_types[n - 1]);
        if before.contains(c) {
            let k = choose|k: int| 0 <= k < before.len() && before[k] == c;
            assert(before.push(last)[k] == c);
        }
        assert(before.push(last)[before.len() as int] == last);
        if before.push(last).contains(c) && c != last {
            let k = choose|k: int| 0 <= k < before.push(last).len() && before.push(last)[k] == c;
            assert(before[k] == c);
        }
    } else {
        assert(!kept_among(standing, added, n).contains(c));
    }
}

/// An extended shadow holds what was added to it and what it held under other names, and
/// nothing else.
pub proof fn law_extended_shadows_keep_their_columns(
    standing: StandingModel,
    added: Seq<Column>,
    c: Column,
)
    ensures
        extended_columns(standing, added).contains(c) <==> added.contains(c) || (holds(standing, c)
            && forall|k: int| 0 <= k < added.len() ==> (#[trigger] added[k]).0 != c.0),
{
    let n = paired(standing.columns.len(), standing.column_types.len());
    let kept = kept_among(standing, added, n);
    lemma_kept(standing, added, n, c);
    let all = extended_columns(standing, added);
    if all.contains(c) {
        let k = choose|k: int| 0 <= k < all.len() && all[k] == c;
        if k < kept.len() {
            assert(kept[k] == c);
        } else {
            assert(added[k - kept.len()] == c);
        }
    }
    if kept.contains(c) {
        let k = choose|k: int| 0 <= k < kept.len() && kept[k] == c;
        assert(all[k] == c);
    }
    if added.contains(c) {
        let k = choose|k: int| 0 <= k < added.len() && added[k] == c;
        assert(all[kept.len() + k] == c);
    }
    let names = names_of(added);
    if names.contains(c.0) {
        let k = choose|k: int| 0 <= k < names.len() && names[k] == c.0;
        assert(added[k].0 == c.0);
    }
    assert forall|k: int| 0 <= k < added.len() && (#[trigger] added[k]).0 == c.0 implies names.contains(
        c.0,
    ) by {
        assert(names[k] == c.0);
    }
}

proof fn lemma_guards_told(table: Seq<char>)
    ensures
        ({
            let rows = "CREATE TRIGGER nabla_guard BEFORE INSERT OR UPDATE OR DELETE ON "@ + table
                + " FOR EACH ROW EXECUTE FUNCTION nabla.guard_view()"@;
            &&& has_part(rows, "BEFORE INSERT OR UPDATE OR DELETE ON "@ + table)
            &&& has_part(rows, "nabla.guard_view()"@)
        }),
{
    reveal_strlit("CREATE TRIGGER nabla_guard BEFORE INSERT OR UPDATE OR DELETE ON ");
    reveal_strlit("BEFORE INSERT OR UPDATE OR DELETE ON ");
    reveal_strlit(" FOR EACH ROW EXECUTE FUNCTION nabla.guard_view()");
    reveal_strlit("nabla.guard_view()");
    let front = "CREATE TRIGGER nabla_guard BEFORE INSERT OR UPDATE OR DELETE ON "@;
    let back = " FOR EACH ROW EXECUTE FUNCTION nabla.guard_view()"@;
    let rows = front + table + back;
    let when = "BEFORE INSERT OR UPDATE OR DELETE ON "@ + table;
    let call = "nabla.guard_view()"@;
    assert(rows.subrange(27, 27 + when.len() as int) =~= when);
    text::lemma_part_at(rows, when, 27);
    let n = rows.len() as int;
    assert(rows.subrange(n - 18, n) =~= call);
    text::lemma_part_at(rows, call, n - 18);
}

proof fn lemma_truncate_guard_told(table: Seq<char>)
    ensures
        ({
            let all = "CREATE TRIGGER nabla_guard_truncate BEFORE TRUNCATE ON "@ + table
                + " FOR EACH STATEMENT EXECUTE FUNCTION nabla.guard_view()"@;
            &&& has_part(all, "BEFORE TRUNCATE ON "@ + table)
            &&& has_part(all, "nabla.guard_view()"@)
        }),
{
    reveal_strlit("CREATE TRIGGER nabla_guard_truncate BEFORE TRUNCATE ON ");
    reveal_strlit("BEFORE TRUNCATE ON ");
    reveal_strlit(" FOR EACH STATEMENT EXECUTE FUNCTION nabla.guard_view()");
    reveal_strlit("nabla.guard_view()");
    let front = "CREATE TRIGGER nabla_guard_truncate BEFORE TRUNCATE ON "@;
    let back = " FOR EACH STATEMENT EXECUTE FUNCTION nabla.guard_view()"@;
    let all = front + table + back;
    let when = "BEFORE TRUNCATE ON "@ + table;
    let call = "nabla.guard_view()"@;
    assert(all.subrange(36, 36 + when.len() as int) =~= when);
    text::lemma_part_at(all, when, 36);
    let n = all.len() as int;
    assert(all.subrange(n - 18, n) =~= call);
    text::lemma_part_at(all, call, n - 18);
}

/// A new shadow has an index over every column of the key, and every way of changing it is
/// guarded: rows that are inserted, updated or deleted, and truncation.
pub proof fn law_new_shadows_are_guarded(
    rel: BaseModel,
    quoting: spec_fn(Seq<char>) -> Seq<char>,
    k: int,
)
    requires
        0 <= k < rel.pk_columns.len(),
    ensures
        ({
            let made = ensured(rel, None, quoting);
            let table = named(rel.oid);
            &&& made.len() == 5
            &&& has_part(made[1].sql, "CREATE UNIQUE INDEX ON "@ + table)
            &&& has_part(made[1].sql, quoting(rel.pk_columns[k]))
            &&& has_part(made[2].sql, "BEFORE INSERT OR UPDATE OR DELETE ON "@ + table)
            &&& has_part(made[2].sql, "nabla.guard_view()"@)
            &&& has_part(made[3].sql, "BEFORE TRUNCATE ON "@ + table)
            &&& has_part(made[3].sql, "nabla.guard_view()"@)
        }),
{
    let made = ensured(rel, None, quoting);
    let table = named(rel.oid);
    let names = rel.pk_columns.map_values(|c: Seq<char>| quoting(c));
    let index = "CREATE UNIQUE INDEX ON "@ + table;
    let list = joined(names, ", "@);
    assert(made[1].sql == index + " ("@ + list + ")"@);
    assert(made[1].sql =~= index + (" ("@ + list + ")"@));
    text::lemma_part_of_itself(index);
    text::lemma_part_left(index, " ("@ + list + ")"@, index);
    text::lemma_part_of_joined(names, ", "@, k);
    text::lemma_part_within(index + " ("@, list, ")"@, names[k]);
    lemma_guards_told(table);
    lemma_truncate_guard_told(table);
}

} // verus!
