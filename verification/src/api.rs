//! The SQL-callable API, all in schema `nabla`: what each function requires,
//! decides and runs.
use vstd::prelude::*;

use std::collections::BTreeSet;

use crate::definition::{BaseModel, BaseRelation, BaseTable, BaseTableModel, Shape, SpecModel, ViewSpec};
use crate::errors;
use crate::errors::{ErrorCode, Report, ReportModel};
use crate::idle::{effective_frontier, reflected, IdleWindow};
use crate::populate::{built_after, guard_sql, guard_truncate_sql, index_sql, view_ddl};
use crate::quote::Quoting;
use crate::shadow;
use crate::statement::{bare, oid_arg, text_arg, Arg, ArgModel, Statement, StatementModel};
use crate::text;
use crate::text::{
    decimal, first_of, has_part, joined, lemma_part_left, lemma_part_of_itself,
    lemma_part_of_joined, lemma_part_right, lemma_part_within, lowercased, trimmed,
    view_of_option, views,
};
use crate::worker::{PUBLICATION, SLOT};

verus! {

/// A view as the catalog has it.
pub struct CatalogRow {
    pub id: i32,
    pub name: String,
    pub base_oid: u32,
    pub spec: ViewSpec,
    pub frontier: u64,
    pub epoch: i32,
    pub status: String,
    pub last_seq: i64,
    pub resync_seq: i64,
    pub stale_reason: Option<String>,
}

pub struct RowModel {
    pub id: i32,
    pub name: Seq<char>,
    pub base_oid: u32,
    pub spec: SpecModel,
    pub frontier: u64,
    pub epoch: i32,
    pub status: Seq<char>,
    pub last_seq: i64,
    pub resync_seq: i64,
    pub stale_reason: Option<Seq<char>>,
}

impl View for CatalogRow {
    type V = RowModel;

    open spec fn view(&self) -> RowModel {
        RowModel {
            id: self.id,
            name: self.name@,
            base_oid: self.base_oid,
            spec: self.spec@,
            frontier: self.frontier,
            epoch: self.epoch,
            status: self.status@,
            last_seq: self.last_seq,
            resync_seq: self.resync_seq,
            stale_reason: view_of_option(self.stale_reason),
        }
    }
}

// --- names -------------------------------------------------------------------------------

pub open spec fn is_digit(c: char) -> bool {
    '0' <= c <= '9'
}

pub open spec fn is_name_char(c: char) -> bool {
    is_digit(c) || 'a' <= c <= 'z' || 'A' <= c <= 'Z' || c == '_'
}

/// One part of a view name: letters, digits and underscores, no digit first.
pub open spec fn is_part(part: Seq<char>) -> bool {
    part.len() > 0 && (forall|i: int| 0 <= i < part.len() ==> is_name_char(#[trigger] part[i]))
        && !is_digit(part[0])
}

/// A schema-qualified name: two parts with a dot between them.
pub open spec fn is_qualified(name: Seq<char>) -> bool {
    match first_of(name, '.') {
        Some(dot) => is_part(name.take(dot)) && is_part(name.skip(dot + 1)),
        None => false,
    }
}

/// The name that a caller means: without blanks around it, in lower case.
pub open spec fn meant(name: Seq<char>) -> Seq<char> {
    lowercased(trimmed(name))
}

fn name_part(chars: &Vec<char>, from: usize, to: usize) -> (result: bool)
    requires
        from <= to <= chars@.len(),
    ensures
        result == is_part(chars@.subrange(from as int, to as int)),
{
    let ghost part = chars@.subrange(from as int, to as int);
    if from == to {
        return false;
    }
    let mut i: usize = from;
    while i < to
        invariant
            from <= i <= to <= chars@.len(),
            part == chars@.subrange(from as int, to as int),
            forall|j: int| 0 <= j < i - from ==> is_name_char(#[trigger] part[j]),
        decreases to - i,
    {
        let c = chars[i];
        assert(part[i - from] == c);
        if !(('0' <= c && c <= '9') || ('a' <= c && c <= 'z') || ('A' <= c && c <= 'Z') || c
            == '_') {
            return false;
        }
        i = i + 1;
    }
    let first = chars[from];
    assert(part[0] == first);
    !('0' <= first && first <= '9')
}

/// Whether a name is schema-qualified.
pub fn is_qualified_name(name: &str) -> (result: bool)
    ensures
        result == is_qualified(name@),
{
    let chars = text::chars_of(name);
    let n: usize = chars.len();
    assert(chars@.subrange(0, n as int) =~= name@);
    match text::find_char(&chars, 0, n, '.') {
        None => false,
        Some(dot) => {
            assert(chars@.subrange(0, dot as int) =~= name@.take(dot as int));
            assert(chars@.subrange(dot + 1, n as int) =~= name@.skip(dot + 1));
            name_part(&chars, 0, dot) && name_part(&chars, dot + 1, n)
        },
    }
}

pub open spec fn unqualified_error(name: Seq<char>) -> ReportModel {
    ReportModel {
        code: ErrorCode::InvalidParameterValue,
        message: "nabla: view name \""@ + name
            + "\" must be schema-qualified (schema.name)"@,
        hint: Some("Example: nabla.create_view('public.paid_orders', ...)"@),
    }
}

proof fn lemma_qualified_chars(name: Seq<char>)
    requires
        is_qualified(name),
    ensures
        forall|i: int| 0 <= i < name.len() ==> is_name_char(#[trigger] name[i]) || name[i] == '.',
        trimmed(name) == name,
{
    text::lemma_first_of(name, '.');
    let dot = first_of(name, '.')->0;
    let schema = name.take(dot);
    let rest = name.skip(dot + 1);
    assert forall|i: int| 0 <= i < name.len() implies is_name_char(#[trigger] name[i]) || name[i]
        == '.' by {
        if i < dot {
            assert(schema[i] == name[i]);
        } else if i > dot {
            assert(rest[i - dot - 1] == name[i]);
        }
    }
    assert(!text::is_whitespace(name[0]));
    assert(!text::is_whitespace(name.last()));
}

/// The schema-qualified name that a caller means. A name that is accepted means
/// itself: it is accepted again, unchanged.
pub fn require_qualified_name(name: &str) -> (result: Result<String, Report>)
    ensures
        match result {
            Ok(n) => n@ == meant(name@) && is_qualified(n@) && meant(n@) == n@,
            Err(report) => !is_qualified(meant(name@)) && report@ == unqualified_error(
                meant(name@),
            ),
        },
{
    let name = text::to_lowercase(&text::trim(name));
    if is_qualified_name(&name) {
        proof {
            lemma_qualified_chars(name@);
            assert forall|i: int| 0 <= i < name@.len() implies #[trigger] name@[i] <= '\x7f' by {
                assert(is_name_char(name@[i]) || name@[i] == '.');
            }
        }
        Ok(name)
    } else {
        Err(
            errors::invalid(
                "nabla: view name \"".to_string().concat(&name).concat(
                    "\" must be schema-qualified (schema.name)",
                ),
                Some("Example: nabla.create_view('public.paid_orders', ...)"),
            ),
        )
    }
}

// --- prerequisites -------------------------------------------------------------------------

pub fn require_logical_wal(level: &str) -> (result: Result<(), Report>)
    ensures
        match result {
            Ok(()) => level@ == "logical"@,
            Err(report) => level@ != "logical"@ && report@ == (ReportModel {
                code: ErrorCode::ObjectNotInPrerequisiteState,
                message: "nabla: wal_level must be 'logical' (currently '"@ + level@ + "')"@,
                hint: Some(
                    "Set wal_level = logical in postgresql.conf and restart PostgreSQL."@,
                ),
            }),
        },
{
    if text::same(level, "logical") {
        return Ok(());
    }
    Err(
        errors::prerequisite(
            "nabla: wal_level must be 'logical' (currently '".to_string().concat(level).concat(
                "')",
            ),
            Some("Set wal_level = logical in postgresql.conf and restart PostgreSQL."),
        ),
    )
}

/// Single-table aggregates take old rows from pgoutput and need the full row;
/// join views take them from the shadows and need only a key.
pub open spec fn lacks_old_rows(spec: SpecModel, base: BaseTableModel) -> bool {
    spec.relations.len() <= 1 && spec.shape == Shape::Aggregate && base.replident != "f"@
}

pub open spec fn identity_error(base: BaseTableModel) -> ReportModel {
    ReportModel {
        code: ErrorCode::ObjectNotInPrerequisiteState,
        message: "nabla: the aggregate shape needs the full old row of every change, but "@
            + base.qualified + " has REPLICA IDENTITY '"@ + base.replident + "'"@,
        hint: Some(
            "Run: ALTER TABLE "@ + base.qualified + " REPLICA IDENTITY FULL;"@,
        ),
    }
}

pub fn require_old_rows(spec: &ViewSpec, base: &BaseTable) -> (result: Result<(), Report>)
    ensures
        match result {
            Ok(()) => !lacks_old_rows(spec@, base@),
            Err(report) => lacks_old_rows(spec@, base@) && report@ == identity_error(base@),
        },
{
    let aggregate = match spec.shape {
        Shape::Aggregate => true,
        Shape::Projection => false,
    };
    if !spec.is_join() && aggregate && !text::same(&base.replident, "f") {
        let hint = "Run: ALTER TABLE ".to_string().concat(&base.qualified).concat(
            " REPLICA IDENTITY FULL;",
        );
        return Err(
            errors::prerequisite(
                "nabla: the aggregate shape needs the full old row of every change, but ".to_string().concat(
                    &base.qualified,
                ).concat(" has REPLICA IDENTITY '").concat(&base.replident).concat("'"),
                Some(hint.as_str()),
            ),
        );
    }
    Ok(())
}

pub open spec fn exists_error(kind: Seq<char>, name: Seq<char>) -> ReportModel {
    ReportModel {
        code: ErrorCode::InvalidParameterValue,
        message: "nabla: "@ + kind + " \""@ + name + "\" already exists"@,
        hint: None,
    }
}

/// The name of a new view is free.
pub fn require_free_name(name: &str, relation_exists: bool, view_exists: bool) -> (result: Result<
    (),
    Report,
>)
    ensures
        match result {
            Ok(()) => !relation_exists && !view_exists,
            Err(report) => (relation_exists || view_exists) && report@ == exists_error(
                if relation_exists {
                    "relation"@
                } else {
                    "view"@
                },
                name@,
            ),
        },
{
    let kind = if relation_exists {
        "relation"
    } else if view_exists {
        "view"
    } else {
        return Ok(());
    };
    Err(
        errors::invalid(
            "nabla: ".to_string().concat(kind).concat(" \"").concat(name).concat(
                "\" already exists",
            ),
            None,
        ),
    )
}

/// Raised by subscriber-facing functions on a stale view.
pub open spec fn stale_report(name: Seq<char>, reason: Option<Seq<char>>) -> ReportModel {
    ReportModel {
        code: ErrorCode::ObjectNotInPrerequisiteState,
        message: "nabla: view \""@ + name + "\" is stale: "@ + match reason {
            Some(r) => r,
            None => "reason not recorded"@,
        },
        hint: Some("Run nabla.refresh('"@ + name + "') after fixing the cause."@),
    }
}

pub fn stale_error(name: &str, reason: Option<&str>) -> (result: Report)
    ensures
        result@ == stale_report(name@, view_of_option(reason)),
{
    let why = match reason {
        Some(r) => r,
        None => "reason not recorded",
    };
    let hint = "Run nabla.refresh('".to_string().concat(name).concat(
        "') after fixing the cause.",
    );
    errors::prerequisite(
        "nabla: view \"".to_string().concat(name).concat("\" is stale: ").concat(why),
        Some(hint.as_str()),
    )
}

/// Raised for a view that the catalog does not have.
pub fn missing_view(name: &str) -> (result: Report)
    ensures
        result@ == (ReportModel {
            code: ErrorCode::UndefinedObject,
            message: "nabla: view \""@ + name@ + "\" does not exist"@,
            hint: None,
        }),
{
    errors::raise(
        ErrorCode::UndefinedObject,
        "nabla: view \"".to_string().concat(name).concat("\" does not exist"),
        None,
    )
}

/// Raised for a relation that the catalog does not have.
pub fn missing_relation(oid: u32) -> (result: Report)
    ensures
        result@ == (ReportModel {
            code: ErrorCode::InvalidParameterValue,
            message: "nabla: relation "@ + decimal(oid as nat) + " does not exist"@,
            hint: None,
        }),
{
    errors::invalid(
        "nabla: relation ".to_string().concat(&text::decimal_text(oid as u64)).concat(
            " does not exist",
        ),
        None,
    )
}

/// Raised when the server fails a statement.
pub fn statement_failed(error: &str) -> (result: Report)
    ensures
        result@ == (ReportModel {
            code: ErrorCode::Internal,
            message: "nabla: "@ + error@,
            hint: None,
        }),
{
    errors::raise(ErrorCode::Internal, "nabla: ".to_string().concat(error), None)
}

// --- slot and publication ----------------------------------------------------------------

/// The statement that creates the slot, where there is none. It must run before
/// the calling transaction performs any write: PostgreSQL refuses to create a
/// logical slot in a transaction that already has an xid.
pub fn ensure_slot(slot_exists: bool) -> (result: Option<Statement>)
    ensures
        view_of_option(result) == if slot_exists {
            None
        } else {
            Some(
                crate::poll::one_text(
                    "SELECT pg_catalog.pg_create_logical_replication_slot($1, 'pgoutput')"@,
                    SLOT@,
                ),
            )
        },
{
    if slot_exists {
        return None;
    }
    let s = Statement {
        sql: "SELECT pg_catalog.pg_create_logical_replication_slot($1, 'pgoutput')".to_string(),
        args: vec![text_arg(SLOT)],
    };
    assert(s@.args =~= seq![ArgModel::Text(Some(SLOT@))]);
    Some(s)
}

/// What puts a table into the publication.
pub open spec fn publish_statements(
    publication_exists: bool,
    included: bool,
    table: Seq<char>,
    quoting: spec_fn(Seq<char>) -> Seq<char>,
) -> Seq<StatementModel> {
    let name = quoting(PUBLICATION@);
    let create = if publication_exists {
        Seq::empty()
    } else {
        seq![bare("CREATE PUBLICATION "@ + name)]
    };
    let add_table = if included {
        Seq::empty()
    } else {
        seq![bare("ALTER PUBLICATION "@ + name + " ADD TABLE "@ + table)]
    };
    create + add_table
}

pub fn ensure_publication_includes(
    publication_exists: bool,
    included: bool,
    table: &str,
    quoting: &Quoting,
) -> (result: Vec<Statement>)
    ensures
        views(result@) == publish_statements(publication_exists, included, table@, quoting@),
{
    let name = quoting.ident(PUBLICATION);
    let mut out: Vec<Statement> = Vec::new();
    if !publication_exists {
        out.push(Statement::bare("CREATE PUBLICATION ".to_string().concat(&name)));
    }
    if !included {
        out.push(
            Statement::bare(
                "ALTER PUBLICATION ".to_string().concat(&name).concat(" ADD TABLE ").concat(table),
            ),
        );
    }
    assert(views(out@) =~= publish_statements(publication_exists, included, table@, quoting@));
    out
}

/// Remove a base table from the publication when no view uses it any more.
pub fn release_publication(still_used: bool, table: &str, quoting: &Quoting) -> (result: Option<
    Statement,
>)
    ensures
        view_of_option(result) == if still_used {
            None
        } else {
            Some(
                bare(
                    "ALTER PUBLICATION "@ + quoting@(PUBLICATION@) + " DROP TABLE "@ + table@,
                ),
            )
        },
{
    if still_used {
        return None;
    }
    Some(
        Statement::bare(
            "ALTER PUBLICATION ".to_string().concat(&quoting.ident(PUBLICATION)).concat(
                " DROP TABLE ",
            ).concat(table),
        ),
    )
}

// --- create ------------------------------------------------------------------------------

pub open spec fn lock_statement(qualified: Seq<char>) -> StatementModel {
    bare("LOCK TABLE "@ + qualified + " IN SHARE MODE"@)
}

fn share_lock(qualified: &str) -> (result: Statement)
    ensures
        result@ == lock_statement(qualified@),
{
    Statement::bare("LOCK TABLE ".to_string().concat(qualified).concat(" IN SHARE MODE"))
}

/// Brief, documented write pause on the base tables: SHARE waits for in-flight
/// writers to finish so the starting snapshot is exact and shared by the view
/// table and every shadow.
pub fn lock_relations(spec: &ViewSpec) -> (result: Vec<Statement>)
    ensures
        views(result@) == spec@.relations.map_values(|r: BaseModel| lock_statement(r.qualified)),
{
    let mut out: Vec<Statement> = Vec::new();
    let mut i: usize = 0;
    while i < spec.relations.len()
        invariant
            i <= spec.relations@.len(),
            out@.len() == i,
            forall|j: int|
                0 <= j < i ==> (#[trigger] out@[j])@ == lock_statement(
                    spec.relations@[j].qualified@,
                ),
        decreases spec.relations@.len() - i,
    {
        out.push(share_lock(&spec.relations[i].qualified));
        i = i + 1;
    }
    assert(views(out@) =~= spec@.relations.map_values(
        |r: BaseModel| lock_statement(r.qualified),
    ));
    out
}

/// What stands against a new view.
pub open spec fn creation_error(
    name: Seq<char>,
    spec: SpecModel,
    base: BaseTableModel,
    wal_level: Seq<char>,
    relation_exists: bool,
    view_exists: bool,
) -> Option<ReportModel> {
    if wal_level != "logical"@ {
        Some(
            ReportModel {
                code: ErrorCode::ObjectNotInPrerequisiteState,
                message: "nabla: wal_level must be 'logical' (currently '"@ + wal_level + "')"@,
                hint: Some(
                    "Set wal_level = logical in postgresql.conf and restart PostgreSQL."@,
                ),
            },
        )
    } else if lacks_old_rows(spec, base) {
        Some(identity_error(base))
    } else if relation_exists {
        Some(exists_error("relation"@, name))
    } else if view_exists {
        Some(exists_error("view"@, name))
    } else {
        None
    }
}

/// Whether a view can be created.
pub fn check_creation(
    name: &str,
    spec: &ViewSpec,
    base: &BaseTable,
    wal_level: &str,
    relation_exists: bool,
    view_exists: bool,
) -> (result: Result<(), Report>)
    ensures
        match result {
            Ok(()) => creation_error(
                name@,
                spec@,
                base@,
                wal_level@,
                relation_exists,
                view_exists,
            ) is None,
            Err(report) => creation_error(
                name@,
                spec@,
                base@,
                wal_level@,
                relation_exists,
                view_exists,
            ) == Some(report@),
        },
{
    match require_logical_wal(wal_level) {
        Ok(()) => {},
        Err(report) => return Err(report),
    }
    match require_old_rows(spec, base) {
        Ok(()) => {},
        Err(report) => return Err(report),
    }
    require_free_name(name, relation_exists, view_exists)
}

/// The statements that create a view table.
pub open spec fn create_table_statements(
    name: Seq<char>,
    spec: SpecModel,
    quoting: spec_fn(Seq<char>) -> Seq<char>,
) -> Seq<StatementModel> {
    seq![
        bare("CREATE TABLE "@ + name + " AS "@ + spec.populate_sql),
        bare(index_sql(name, spec, quoting)),
        bare(guard_sql(name)),
        bare(guard_truncate_sql(name)),
    ]
}

pub fn create_table(name: &str, spec: &ViewSpec, quoting: &Quoting) -> (result: Vec<Statement>)
    ensures
        views(result@) == create_table_statements(name@, spec@, quoting@),
{
    let ddl = view_ddl(name, spec, quoting);
    assert(views(ddl@).len() == 3);
    assert(ddl@[0]@ == views(ddl@)[0]);
    assert(ddl@[1]@ == views(ddl@)[1]);
    assert(ddl@[2]@ == views(ddl@)[2]);
    let out = vec![
        Statement::bare(
            "CREATE TABLE ".to_string().concat(name).concat(" AS ").concat(&spec.populate_sql),
        ),
        Statement::bare(ddl[0].clone()),
        Statement::bare(ddl[1].clone()),
        Statement::bare(ddl[2].clone()),
    ];
    assert(views(out@) =~= create_table_statements(name@, spec@, quoting@));
    out
}

/// The statement that records a view and returns its number. The spec is given
/// as JSON.
pub open spec fn record_statement(
    name: Seq<char>,
    base_oid: u32,
    definition: Seq<char>,
    shape: Shape,
    spec_json: Seq<char>,
) -> StatementModel {
    StatementModel {
        sql: "INSERT INTO nabla.views (name, base_table, definition, shape, spec, frontier_lsn) VALUES ($1, $2::oid::regclass, $3, $4, $5::jsonb, pg_catalog.pg_current_wal_lsn()) RETURNING id"@,
        args: seq![
            ArgModel::Text(Some(name)),
            ArgModel::Int8(base_oid as i64),
            ArgModel::Text(Some(definition)),
            ArgModel::Text(
                Some(
                    match shape {
                        Shape::Projection => "projection"@,
                        Shape::Aggregate => "aggregate"@,
                    },
                ),
            ),
            ArgModel::Text(Some(spec_json)),
        ],
    }
}

pub fn record_view(name: &str, base: &BaseTable, definition: &str, shape: Shape, spec_json: &str) -> (result:
    Statement)
    ensures
        result@ == record_statement(name@, base.oid, definition@, shape, spec_json@),
{
    let s = Statement {
        sql: "INSERT INTO nabla.views (name, base_table, definition, shape, spec, frontier_lsn) VALUES ($1, $2::oid::regclass, $3, $4, $5::jsonb, pg_catalog.pg_current_wal_lsn()) RETURNING id".to_string(),
        args: vec![
            text_arg(name),
            oid_arg(base.oid),
            text_arg(definition),
            text_arg(shape.as_str()),
            text_arg(spec_json),
        ],
    };
    assert(s@.args =~= record_statement(name@, base.oid, definition@, shape, spec_json@).args);
    s
}

pub open spec fn relation_statement(view_id: i32, rel: BaseModel) -> StatementModel {
    StatementModel {
        sql: "INSERT INTO nabla.view_relations (view_id, relid, rti) VALUES ($1, $2::oid, $3)"@,
        args: seq![
            ArgModel::Int4(view_id),
            ArgModel::Int8(rel.oid as i64),
            ArgModel::Int4(rel.rti as i32),
        ],
    }
}

/// The statements that record the relations of a view.
pub fn record_relations(view_id: i32, relations: &Vec<BaseRelation>) -> (result: Vec<Statement>)
    requires
        forall|i: int| 0 <= i < relations@.len() ==> (#[trigger] relations@[i]).rti <= i32::MAX,
    ensures
        views(result@) == views(relations@).map_values(
            |r: BaseModel| relation_statement(view_id, r),
        ),
{
    let mut out: Vec<Statement> = Vec::new();
    let mut i: usize = 0;
    while i < relations.len()
        invariant
            forall|k: int|
                0 <= k < relations@.len() ==> (#[trigger] relations@[k]).rti
                    <= i32::MAX,
            i <= relations@.len(),
            out@.len() == i,
            forall|j: int|
                0 <= j < i ==> (#[trigger] out@[j])@ == relation_statement(
                    view_id,
                    relations@[j]@,
                ),
        decreases relations@.len() - i,
    {
        let rel = &relations[i];
        let s = Statement {
            sql: "INSERT INTO nabla.view_relations (view_id, relid, rti) VALUES ($1, $2::oid, $3)".to_string(),
            args: vec![Arg::Int4(view_id), oid_arg(rel.oid), Arg::Int4(rel.rti as i32)],
        };
        assert(s@.args =~= relation_statement(view_id, rel@).args);
        out.push(s);
        i = i + 1;
    }
    assert(views(out@) =~= views(relations@).map_values(
        |r: BaseModel| relation_statement(view_id, r),
    ));
    out
}

// --- drop --------------------------------------------------------------------------------

/// The relations that a view may release: those of its spec, or its base table
/// for a view that was created before relations were recorded.
pub open spec fn released_relids(view: RowModel) -> Seq<u32> {
    if view.spec.relations.len() == 0 {
        seq![view.base_oid]
    } else {
        view.spec.relations.map_values(|r: BaseModel| r.oid)
    }
}

pub fn relids_of(view: &CatalogRow) -> (result: Vec<u32>)
    ensures
        result@ == released_relids(view@),
{
    if view.spec.relations.len() == 0 {
        let out = vec![view.base_oid];
        assert(out@ =~= seq![view.base_oid]);
        return out;
    }
    let mut out: Vec<u32> = Vec::new();
    let mut i: usize = 0;
    while i < view.spec.relations.len()
        invariant
            i <= view.spec.relations@.len(),
            out@.len() == i,
            forall|j: int| 0 <= j < i ==> out@[j] == view.spec.relations@[j].oid,
        decreases view.spec.relations@.len() - i,
    {
        out.push(view.spec.relations[i].oid);
        i = i + 1;
    }
    assert(out@ =~= released_relids(view@));
    out
}

pub open spec fn drop_statements(view: RowModel, name: Seq<char>) -> Seq<StatementModel> {
    seq![
        bare("DROP TABLE IF EXISTS "@ + name),
        StatementModel {
            sql: "DELETE FROM nabla.views WHERE id = $1"@,
            args: seq![ArgModel::Int4(view.id)],
        },
    ]
}

/// The statements that drop a view; its shadows and its place in the
/// publication are released behind them.
/// The table and the record of a view go.
pub fn forget_view(view: &CatalogRow, name: &str) -> (result: Vec<Statement>)
    ensures
        views(result@) == drop_statements(view@, name@),
{
    let forget = Statement {
        sql: "DELETE FROM nabla.views WHERE id = $1".to_string(),
        args: vec![Arg::Int4(view.id)],
    };
    assert(forget@.args =~= drop_statements(view@, name@)[1].args);
    let out = vec![Statement::bare("DROP TABLE IF EXISTS ".to_string().concat(name)), forget];
    assert(views(out@) =~= drop_statements(view@, name@));
    out
}

// --- refresh -------------------------------------------------------------------------------

/// A column of the catalog that a refresh sets.
#[derive(Clone, Copy, Debug, PartialEq, Eq, Structural)]
pub enum Column {
    FrontierLsn,
    Epoch,
    Status,
    LastSeq,
    ResyncSeq,
    ApplyFailures,
    LastError,
    LastErrorAt,
    StaleReason,
}

/// What a column is set to, over the row as it was.
#[derive(Clone, Copy, Debug, PartialEq, Eq, Structural)]
pub enum Setting {
    /// The server's current WAL position.
    WalPosition,
    /// One more than a column holds.
    OneMore(Column),
    Live,
    Zero,
    Null,
}

pub open spec fn column_name(column: Column) -> Seq<char> {
    match column {
        Column::FrontierLsn => "frontier_lsn"@,
        Column::Epoch => "epoch"@,
        Column::Status => "status"@,
        Column::LastSeq => "last_seq"@,
        Column::ResyncSeq => "resync_seq"@,
        Column::ApplyFailures => "apply_failures"@,
        Column::LastError => "last_error"@,
        Column::LastErrorAt => "last_error_at"@,
        Column::StaleReason => "stale_reason"@,
    }
}

/// A setting as SQL.
pub open spec fn setting_sql(setting: Setting) -> Seq<char> {
    match setting {
        Setting::WalPosition => "pg_catalog.pg_current_wal_lsn()"@,
        Setting::OneMore(column) => column_name(column) + " + 1"@,
        Setting::Live => "'live'"@,
        Setting::Zero => "0"@,
        Setting::Null => "NULL"@,
    }
}

/// What a refresh sets.
pub open spec fn refresh_settings() -> Seq<(Column, Setting)> {
    seq![
        (Column::FrontierLsn, Setting::WalPosition),
        (Column::Epoch, Setting::OneMore(Column::Epoch)),
        (Column::Status, Setting::Live),
        (Column::LastSeq, Setting::OneMore(Column::LastSeq)),
        (Column::ResyncSeq, Setting::OneMore(Column::LastSeq)),
        (Column::ApplyFailures, Setting::Zero),
        (Column::LastError, Setting::Null),
        (Column::LastErrorAt, Setting::Null),
        (Column::StaleReason, Setting::Null),
    ]
}

pub open spec fn assignment_sql(a: (Column, Setting)) -> Seq<char> {
    column_name(a.0) + " = "@ + setting_sql(a.1)
}

/// The statements that make a refilled view live: a new epoch, a number behind
/// every delta that was given out, and an empty log.
pub open spec fn refresh_records(view_id: i32) -> Seq<StatementModel> {
    seq![
        StatementModel {
            sql: "UPDATE nabla.views SET "@ + joined(
                refresh_settings().map_values(|a: (Column, Setting)| assignment_sql(a)),
                ", "@,
            ) + " WHERE id = $1"@,
            args: seq![ArgModel::Int4(view_id)],
        },
        StatementModel {
            sql: "DELETE FROM nabla.deltas WHERE view_id = $1"@,
            args: seq![ArgModel::Int4(view_id)],
        },
    ]
}

fn name_of(column: Column) -> (result: &'static str)
    ensures
        result@ == column_name(column),
{
    match column {
        Column::FrontierLsn => "frontier_lsn",
        Column::Epoch => "epoch",
        Column::Status => "status",
        Column::LastSeq => "last_seq",
        Column::ResyncSeq => "resync_seq",
        Column::ApplyFailures => "apply_failures",
        Column::LastError => "last_error",
        Column::LastErrorAt => "last_error_at",
        Column::StaleReason => "stale_reason",
    }
}

fn setting_text(setting: Setting) -> (result: String)
    ensures
        result@ == setting_sql(setting),
{
    match setting {
        Setting::WalPosition => "pg_catalog.pg_current_wal_lsn()".to_string(),
        Setting::OneMore(column) => name_of(column).to_string().concat(" + 1"),
        Setting::Live => "'live'".to_string(),
        Setting::Zero => "0".to_string(),
        Setting::Null => "NULL".to_string(),
    }
}

/// Reset a refilled view's bookkeeping.
pub fn record_refresh(view_id: i32) -> (result: Vec<Statement>)
    ensures
        views(result@) == refresh_records(view_id),
{
    let settings = vec![
        (Column::FrontierLsn, Setting::WalPosition),
        (Column::Epoch, Setting::OneMore(Column::Epoch)),
        (Column::Status, Setting::Live),
        (Column::LastSeq, Setting::OneMore(Column::LastSeq)),
        (Column::ResyncSeq, Setting::OneMore(Column::LastSeq)),
        (Column::ApplyFailures, Setting::Zero),
        (Column::LastError, Setting::Null),
        (Column::LastErrorAt, Setting::Null),
        (Column::StaleReason, Setting::Null),
    ];
    assert(settings@ =~= refresh_settings());
    let mut parts: Vec<String> = Vec::new();
    let mut i: usize = 0;
    while i < settings.len()
        invariant
            i <= settings@.len(),
            parts@.len() == i,
            forall|j: int| 0 <= j < i ==> (#[trigger] parts@[j])@ == assignment_sql(settings@[j]),
        decreases settings@.len() - i,
    {
        parts.push(
            name_of(settings[i].0).to_string().concat(" = ").concat(
                &setting_text(settings[i].1),
            ),
        );
        i = i + 1;
    }
    assert(views(parts@) =~= refresh_settings().map_values(
        |a: (Column, Setting)| assignment_sql(a),
    ));
    let reset = Statement {
        sql: "UPDATE nabla.views SET ".to_string().concat(&text::join(&parts, ", ")).concat(
            " WHERE id = $1",
        ),
        args: vec![Arg::Int4(view_id)],
    };
    let clear = Statement {
        sql: "DELETE FROM nabla.deltas WHERE view_id = $1".to_string(),
        args: vec![Arg::Int4(view_id)],
    };
    assert(reset@.args =~= refresh_records(view_id)[0].args);
    assert(clear@.args =~= refresh_records(view_id)[1].args);
    let out = vec![reset, clear];
    assert(views(out@) =~= refresh_records(view_id));
    out
}

/// The statements that fill a view table anew.
pub open spec fn refill_statements(id: i32, name: Seq<char>, spec: SpecModel) -> Seq<
    StatementModel,
> {
    seq![
        bare("DELETE FROM "@ + name),
        bare("INSERT INTO "@ + name + " "@ + spec.populate_sql),
    ] + refresh_records(id)
}

fn refill(view: &CatalogRow, name: &str) -> (result: Vec<Statement>)
    ensures
        views(result@) == refill_statements(view@.id, name@, view@.spec),
{
    let mut out = vec![
        Statement::bare("DELETE FROM ".to_string().concat(name)),
        Statement::bare(
            "INSERT INTO ".to_string().concat(name).concat(" ").concat(&view.spec.populate_sql),
        ),
    ];
    let ghost first = views(out@);
    let mut more = record_refresh(view.id);
    let ghost added = views(more@);
    out.append(&mut more);
    assert(views(out@) =~= first + added);
    assert(first =~= seq![
        bare("DELETE FROM "@ + name@),
        bare("INSERT INTO "@ + name@ + " "@ + view@.spec.populate_sql),
    ]);
    out
}

/// The statements that refresh a single-table view.
pub open spec fn refresh_single(view: RowModel, name: Seq<char>) -> Seq<StatementModel> {
    seq![
        lock_statement(view.spec.base_table),
        bare("SET LOCAL nabla.internal_write = on"@),
    ] + refill_statements(view.id, name, view.spec)
}

/// A view over one table is filled anew.
pub fn refill_single(view: &CatalogRow, name: &str) -> (result: Vec<Statement>)
    ensures
        views(result@) == refresh_single(view@, name@),
{
    let mut out = vec![
        share_lock(&view.spec.base_table),
        Statement::bare("SET LOCAL nabla.internal_write = on".to_string()),
    ];
    let ghost first = views(out@);
    let mut more = refill(view, name);
    let ghost added = views(more@);
    out.append(&mut more);
    assert(views(out@) =~= first + added);
    assert(first =~= seq![
        lock_statement(view@.spec.base_table),
        bare("SET LOCAL nabla.internal_write = on"@),
    ]);
    out
}

/// A relation of a view, and whether the view is a join view.
pub struct Membership {
    pub view_id: i64,
    pub relid: u32,
    pub join: bool,
}

/// A set of views and relations that a refresh can stop at: it holds every
/// join view over one of its relations, and every relation of its views.
pub open spec fn closed(members: Seq<Membership>, live: Set<i64>, rels: Set<u32>) -> bool {
    forall|i: int|
        0 <= i < members.len() ==> {
            let m = #[trigger] members[i];
            &&& m.join && rels.contains(m.relid) ==> live.contains(m.view_id)
            &&& live.contains(m.view_id) ==> rels.contains(m.relid)
        }
}

/// A refresh set that holds the view and its relations.
pub open spec fn closed_over(
    members: Seq<Membership>,
    view_id: i64,
    relids: Seq<u32>,
    live: Set<i64>,
    rels: Set<u32>,
) -> bool {
    &&& closed(members, live, rels)
    &&& live.contains(view_id)
    &&& forall|i: int| 0 <= i < relids.len() ==> rels.contains(#[trigger] relids[i])
}

/// How much of the membership list is outside of a set.
pub open spec fn outside(members: Seq<Membership>, live: Set<i64>, rels: Set<u32>, n: nat) -> nat
    decreases n,
{
    if n == 0 {
        0
    } else {
        let m = members[n - 1];
        outside(members, live, rels, (n - 1) as nat) + (if live.contains(m.view_id) {
            0nat
        } else {
            1
        }) + (if rels.contains(m.relid) {
            0nat
        } else {
            1
        })
    }
}

proof fn lemma_outside_shrinks(
    members: Seq<Membership>,
    live: Set<i64>,
    rels: Set<u32>,
    more_live: Set<i64>,
    more_rels: Set<u32>,
    n: nat,
)
    requires
        n <= members.len(),
        live.subset_of(more_live),
        rels.subset_of(more_rels),
    ensures
        outside(members, more_live, more_rels, n) <= outside(members, live, rels, n),
        (exists|i: int|
            0 <= i < n && ((!live.contains((#[trigger] members[i]).view_id) && more_live.contains(
                members[i].view_id,
            )) || (!rels.contains(members[i].relid) && more_rels.contains(members[i].relid))))
            ==> outside(members, more_live, more_rels, n) < outside(members, live, rels, n),
    decreases n,
{
    if n > 0 {
        lemma_outside_shrinks(members, live, rels, more_live, more_rels, (n - 1) as nat);
    }
}

/// What a set of views and relations under construction keeps: it holds the view
/// and its relations, and nothing that some refresh set lacks.
spec fn within_every(
    members: Seq<Membership>,
    view_id: i64,
    relids: Seq<u32>,
    live: Set<i64>,
    rels: Set<u32>,
) -> bool {
    &&& live.contains(view_id)
    &&& forall|i: int| 0 <= i < relids.len() ==> rels.contains(#[trigger] relids[i])
    &&& forall|v: Set<i64>, r: Set<u32>| #[trigger]
        closed_over(members, view_id, relids, v, r) ==> live.subset_of(v) && rels.subset_of(r)
}

/// One pass over the membership list.
fn widen(
    members: &Vec<Membership>,
    live: &mut BTreeSet<i64>,
    rels: &mut BTreeSet<u32>,
    Ghost(view_id): Ghost<i64>,
    Ghost(relids): Ghost<Seq<u32>>,
) -> (result: bool)
    requires
        within_every(members@, view_id, relids, old(live)@, old(rels)@),
    ensures
        within_every(members@, view_id, relids, final(live)@, final(rels)@),
        result ==> outside(members@, final(live)@, final(rels)@, members@.len()) < outside(
            members@,
            old(live)@,
            old(rels)@,
            members@.len(),
        ),
        !result ==> closed(members@, final(live)@, final(rels)@),
        !result ==> final(live)@ == old(live)@ && final(rels)@ == old(rels)@,
{
    let ghost live0 = live@;
    let ghost rels0 = rels@;
    let mut changed = false;
    let mut i: usize = 0;
    while i < members.len()
        invariant
            i <= members@.len(),
            within_every(members@, view_id, relids, live@, rels@),
            live0.subset_of(live@),
            rels0.subset_of(rels@),
            changed ==> outside(members@, live@, rels@, members@.len()) < outside(
                members@,
                live0,
                rels0,
                members@.len(),
            ),
            !changed ==> live@ == live0 && rels@ == rels0 && forall|k: int|
                0 <= k < i ==> {
                    let m = #[trigger] members@[k];
                    &&& m.join && rels@.contains(m.relid) ==> live@.contains(m.view_id)
                    &&& live@.contains(m.view_id) ==> rels@.contains(m.relid)
                },
        decreases members@.len() - i,
    {
        broadcast use vstd::std_specs::btree::group_btree_axioms;

        let m = &members[i];
        let ghost n = members@.len();
        let ghost before_live = live@;
        let ghost before_rels = rels@;
        if m.join && rels.contains(&m.relid) && !live.contains(&m.view_id) {
            live.insert(m.view_id);
            changed = true;
            proof {
                assert(live@ =~= before_live.insert(m.view_id));
                assert forall|v: Set<i64>, r: Set<u32>| #[trigger]
                    closed_over(members@, view_id, relids, v, r) implies live@.subset_of(v)
                    && rels@.subset_of(r) by {
                    assert(members@[i as int] == *m);
                    assert(r.contains(m.relid));
                }
                lemma_outside_shrinks(members@, before_live, before_rels, live@, rels@, n);
                lemma_outside_shrinks(members@, live0, rels0, before_live, before_rels, n);
                assert(!before_live.contains(members@[i as int].view_id) && live@.contains(
                    members@[i as int].view_id,
                ));
            }
        }
        let ghost mid_live = live@;
        let ghost mid_rels = rels@;
        if live.contains(&m.view_id) && !rels.contains(&m.relid) {
            rels.insert(m.relid);
            changed = true;
            proof {
                assert(rels@ =~= mid_rels.insert(m.relid));
                assert forall|v: Set<i64>, r: Set<u32>| #[trigger]
                    closed_over(members@, view_id, relids, v, r) implies live@.subset_of(v)
                    && rels@.subset_of(r) by {
                    assert(members@[i as int] == *m);
                    assert(v.contains(m.view_id));
                }
                lemma_outside_shrinks(members@, mid_live, mid_rels, live@, rels@, n);
                lemma_outside_shrinks(members@, live0, rels0, mid_live, mid_rels, n);
                assert(!mid_rels.contains(members@[i as int].relid) && rels@.contains(
                    members@[i as int].relid,
                ));
            }
        }
        i = i + 1;
    }
    changed
}

/// The refresh set of a join view: it, every shadow it uses, and every other
/// join view sharing any of those shadows — transitively, because a shadow
/// re-snapshotted at a new LSN would be wrong for a view still at an older one.
/// It is the smallest set that a refresh can stop at.
pub fn refresh_closure(view_id: i64, relids: &Vec<u32>, members: &Vec<Membership>) -> (result: (
    BTreeSet<i64>,
    BTreeSet<u32>,
))
    ensures
        closed_over(members@, view_id, relids@, (result.0)@, (result.1)@),
        forall|v: Set<i64>, r: Set<u32>| #[trigger]
            closed_over(members@, view_id, relids@, v, r) ==> (result.0)@.subset_of(v)
                && (result.1)@.subset_of(r),
{
    broadcast use vstd::std_specs::btree::group_btree_axioms;

    let mut live: BTreeSet<i64> = BTreeSet::new();
    live.insert(view_id);
    assert(live@ =~= Set::empty().insert(view_id));
    let mut rels: BTreeSet<u32> = BTreeSet::new();
    let mut i: usize = 0;
    while i < relids.len()
        invariant
            i <= relids@.len(),
            forall|k: int| 0 <= k < i ==> rels@.contains(#[trigger] relids@[k]),
            forall|x: u32| rels@.contains(x) ==> exists|k: int| 0 <= k < i && relids@[k] == x,
        decreases relids@.len() - i,
    {
        broadcast use vstd::std_specs::btree::group_btree_axioms;

        let ghost before = rels@;
        rels.insert(relids[i]);
        proof {
            assert(rels@ =~= before.insert(relids@[i as int]));
            assert forall|x: u32| rels@.contains(x) implies exists|k: int|
                0 <= k < i + 1 && relids@[k] == x by {
                if !before.contains(x) {
                    assert(relids@[i as int] == x);
                }
            }
        }
        i = i + 1;
    }
    assert(within_every(members@, view_id, relids@, live@, rels@));
    let mut changed = true;
    while changed
        invariant
            within_every(members@, view_id, relids@, live@, rels@),
            !changed ==> closed(members@, live@, rels@),
        decreases
                outside(members@, live@, rels@, members@.len()),
                if changed {
                    1nat
                } else {
                    0nat
                },
    {
        changed = widen(members, &mut live, &mut rels, Ghost(view_id), Ghost(relids@));
    }
    (live, rels)
}

/// The tables in a lock list, by oid.
pub open spec fn lists(names: Seq<(u32, Seq<char>)>, oid: u32) -> bool {
    exists|i: int| 0 <= i < names.len() && (#[trigger] names[i]).0 == oid
}

/// How many tables at the front have a smaller oid.
pub open spec fn rank(names: Seq<(u32, Seq<char>)>, oid: u32) -> nat
    decreases names.len(),
{
    if names.len() == 0 || names[0].0 >= oid {
        0
    } else {
        1 + rank(names.drop_first(), oid)
    }
}

/// A lock list and one more table, in its place.
pub open spec fn with_table(names: Seq<(u32, Seq<char>)>, oid: u32, qualified: Seq<char>) -> Seq<
    (u32, Seq<char>),
> {
    if lists(names, oid) {
        names
    } else {
        names.insert(rank(names, oid) as int, (oid, qualified))
    }
}

/// A lock list and the first `n` relations of a view, as far as they are
/// refreshed.
pub open spec fn with_tables(
    names: Seq<(u32, Seq<char>)>,
    relations: Seq<BaseModel>,
    relids: Set<u32>,
    n: nat,
) -> Seq<(u32, Seq<char>)>
    decreases n,
{
    if n == 0 {
        names
    } else {
        let before = with_tables(names, relations, relids, (n - 1) as nat);
        let r = relations[n - 1];
        if relids.contains(r.oid) {
            with_table(before, r.oid, r.qualified)
        } else {
            before
        }
    }
}

/// The tables that the first `n` views lock for a refresh, each once.
pub open spec fn tables_of(rows: Seq<RowModel>, relids: Set<u32>, n: nat) -> Seq<(u32, Seq<char>)>
    decreases n,
{
    if n == 0 {
        Seq::empty()
    } else {
        with_tables(
            tables_of(rows, relids, (n - 1) as nat),
            rows[n - 1].spec.relations,
            relids,
            rows[n - 1].spec.relations.len(),
        )
    }
}

pub open spec fn table_models(names: Seq<(u32, String)>) -> Seq<(u32, Seq<char>)> {
    names.map_values(|t: (u32, String)| (t.0, t.1@))
}

proof fn lemma_rank(names: Seq<(u32, Seq<char>)>, oid: u32)
    ensures
        rank(names, oid) <= names.len(),
        forall|i: int| 0 <= i < rank(names, oid) ==> (#[trigger] names[i]).0 < oid,
        rank(names, oid) < names.len() ==> names[rank(names, oid) as int].0 >= oid,
    decreases names.len(),
{
    if names.len() > 0 && names[0].0 < oid {
        let rest = names.drop_first();
        lemma_rank(rest, oid);
        assert forall|i: int| 0 <= i < rank(names, oid) implies (#[trigger] names[i]).0 < oid by {
            if i > 0 {
                assert(names[i] == rest[i - 1]);
            }
        }
    }
}

proof fn lemma_rank_is(names: Seq<(u32, Seq<char>)>, oid: u32, k: nat)
    requires
        k <= names.len(),
        forall|i: int| 0 <= i < k ==> (#[trigger] names[i]).0 < oid,
        k < names.len() ==> names[k as int].0 >= oid,
    ensures
        rank(names, oid) == k,
{
    lemma_rank(names, oid);
    if rank(names, oid) < k {
        assert(names[rank(names, oid) as int].0 < oid);
    } else if rank(names, oid) > k {
        assert(names[k as int].0 < oid);
    }
}

fn insert_table(names: &mut Vec<(u32, String)>, oid: u32, qualified: &String)
    ensures
        table_models(final(names)@) == with_table(table_models(old(names)@), oid, qualified@),
{
    let ghost models = table_models(names@);
    let mut i: usize = 0;
    while i < names.len()
        invariant
            models == table_models(names@),
            i <= names@.len(),
            forall|j: int| 0 <= j < i ==> (#[trigger] models[j]).0 != oid,
        decreases names@.len() - i,
    {
        assert(models[i as int].0 == names@[i as int].0);
        if names[i].0 == oid {
            assert(lists(models, oid));
            return ;
        }
        i = i + 1;
    }
    assert(!lists(models, oid));
    let mut at: usize = 0;
    while at < names.len() && names[at].0 < oid
        invariant
            models == table_models(names@),
            at <= names@.len(),
            forall|j: int| 0 <= j < at ==> (#[trigger] models[j]).0 < oid,
        decreases names@.len() - at,
    {
        assert(models[at as int].0 == names@[at as int].0);
        at = at + 1;
    }
    proof {
        if at < names.len() {
            assert(models[at as int].0 == names@[at as int].0);
        }
        lemma_rank_is(models, oid, at as nat);
    }
    names.insert(at, (oid, qualified.clone()));
    assert(table_models(names@) =~= models.insert(at as int, (oid, qualified@)));
}

/// The tables that a refresh of the views locks, by oid: a stable lock order
/// across concurrent refreshes.
pub fn tables_to_lock(rows: &Vec<CatalogRow>, relids: &BTreeSet<u32>) -> (result: Vec<(u32, String)>)
    ensures
        table_models(result@) == tables_of(views(rows@), relids@, rows@.len()),
{
    let ghost models = views(rows@);
    let mut names: Vec<(u32, String)> = Vec::new();
    let mut v: usize = 0;
    assert(table_models(names@) =~= Seq::empty());
    while v < rows.len()
        invariant
            models == views(rows@),
            v <= rows@.len(),
            table_models(names@) == tables_of(models, relids@, v as nat),
        decreases rows@.len() - v,
    {
        let relations = &rows[v].spec.relations;
        let ghost bases = models[v as int].spec.relations;
        assert(bases == views(relations@));
        let ghost start = table_models(names@);
        let mut i: usize = 0;
        while i < relations.len()
            invariant
                bases == views(relations@),
                i <= relations@.len(),
                table_models(names@) == with_tables(start, bases, relids@, i as nat),
            decreases relations@.len() - i,
        {
            assert(bases[i as int] == relations@[i as int]@);
            if relids.contains(&relations[i].oid) {
                insert_table(&mut names, relations[i].oid, &relations[i].qualified);
            }
            i = i + 1;
        }
        v = v + 1;
    }
    names
}

/// The statements that snapshot the shadows of the first `n` relations that
/// are not in `done`.
pub open spec fn snapshots(relations: Seq<BaseModel>, done: Set<u32>, n: nat) -> Seq<
    StatementModel,
>
    decreases n,
{
    if n == 0 {
        Seq::empty()
    } else {
        let before = snapshots(relations, done, (n - 1) as nat);
        if built_after(relations, done, (n - 1) as nat).contains(relations[n - 1].oid) {
            before
        } else {
            before + shadow::snapshot_statements(relations[n - 1])
        }
    }
}

/// The relations that are snapshotted once the first `n` views were looked at.
pub open spec fn snapshotted(rows: Seq<RowModel>, n: nat) -> Set<u32>
    decreases n,
{
    if n == 0 {
        Set::empty()
    } else {
        built_after(
            rows[n - 1].spec.relations,
            snapshotted(rows, (n - 1) as nat),
            rows[n - 1].spec.relations.len(),
        )
    }
}

/// The statements that snapshot the shadows of the first `n` views, each once.
pub open spec fn all_snapshots(rows: Seq<RowModel>, n: nat) -> Seq<StatementModel>
    decreases n,
{
    if n == 0 {
        Seq::empty()
    } else {
        all_snapshots(rows, (n - 1) as nat) + snapshots(
            rows[n - 1].spec.relations,
            snapshotted(rows, (n - 1) as nat),
            rows[n - 1].spec.relations.len(),
        )
    }
}

/// The statements that fill the first `n` views anew.
pub open spec fn all_refills(rows: Seq<RowModel>, n: nat) -> Seq<StatementModel>
    decreases n,
{
    if n == 0 {
        Seq::empty()
    } else {
        all_refills(rows, (n - 1) as nat) + refill_statements(
            rows[n - 1].id,
            rows[n - 1].name,
            rows[n - 1].spec,
        )
    }
}

/// The statements of a refresh that cascades to views sharing a shadow:
/// everything in the closure is re-snapshotted under SHARE locks, in one
/// transaction.
pub open spec fn cascade_statements(rows: Seq<RowModel>, relids: Set<u32>) -> Seq<StatementModel> {
    tables_of(rows, relids, rows.len()).map_values(
        |t: (u32, Seq<char>)| lock_statement(t.1),
    ) + seq![bare("SET LOCAL nabla.internal_write = on"@)] + all_snapshots(rows, rows.len())
        + all_refills(rows, rows.len())
}

fn append_statements(out: &mut Vec<Statement>, more: Vec<Statement>)
    ensures
        views(final(out)@) == views(old(out)@) + views(more@),
{
    let mut rest = more;
    let ghost before = views(out@);
    let ghost added = views(rest@);
    out.append(&mut rest);
    assert(views(out@) =~= before + added);
}

pub fn refresh_cascade(rows: &Vec<CatalogRow>, relids: &BTreeSet<u32>) -> (result: Vec<Statement>)
    ensures
        views(result@) == cascade_statements(views(rows@), relids@),
{
    let ghost models = views(rows@);
    let names = tables_to_lock(rows, relids);
    let ghost tables = table_models(names@);
    let ghost locks = tables.map_values(|t: (u32, Seq<char>)| lock_statement(t.1));
    let mut out: Vec<Statement> = Vec::new();
    let mut i: usize = 0;
    while i < names.len()
        invariant
            tables == table_models(names@),
            i <= names@.len(),
            out@.len() == i,
            forall|j: int| 0 <= j < i ==> (#[trigger] out@[j])@ == lock_statement(tables[j].1),
        decreases names@.len() - i,
    {
        assert(tables[i as int].1 == names@[i as int].1@);
        out.push(share_lock(&names[i].1));
        i = i + 1;
    }
    assert(views(out@) =~= locks);
    out.push(Statement::bare("SET LOCAL nabla.internal_write = on".to_string()));
    let ghost head = locks + seq![bare("SET LOCAL nabla.internal_write = on"@)];
    assert(views(out@) =~= head);
    let mut done: BTreeSet<u32> = BTreeSet::new();
    let mut v: usize = 0;
    assert(head =~= head + all_snapshots(models, 0));
    while v < rows.len()
        invariant
            models == views(rows@),
            v <= rows@.len(),
            done@ == snapshotted(models, v as nat),
            views(out@) == head + all_snapshots(models, v as nat),
        decreases rows@.len() - v,
    {
        let relations = &rows[v].spec.relations;
        let ghost bases = models[v as int].spec.relations;
        assert(bases == views(relations@));
        let ghost start = done@;
        let ghost so_far = views(out@);
        let mut r: usize = 0;
        assert(so_far =~= so_far + snapshots(bases, start, 0));
        while r < relations.len()
            invariant
                bases == views(relations@),
                r <= relations@.len(),
                done@ == built_after(bases, start, r as nat),
                views(out@) == so_far + snapshots(bases, start, r as nat),
            decreases relations@.len() - r,
        {
            broadcast use vstd::std_specs::btree::group_btree_axioms;

            assert(bases[r as int] == relations@[r as int]@);
            let ghost built = done@;
            let first = done.insert(relations[r].oid);
            assert(done@ =~= built.insert(relations[r as int].oid));
            if first {
                append_statements(&mut out, shadow::snapshot(&relations[r]));
            }
            r = r + 1;
            assert(views(out@) =~= so_far + snapshots(bases, start, r as nat));
        }
        v = v + 1;
        assert(views(out@) =~= head + all_snapshots(models, v as nat));
    }
    let ghost middle = views(out@);
    let mut w: usize = 0;
    assert(middle =~= middle + all_refills(models, 0));
    while w < rows.len()
        invariant
            models == views(rows@),
            w <= rows@.len(),
            views(out@) == middle + all_refills(models, w as nat),
        decreases rows@.len() - w,
    {
        assert(models[w as int] == rows@[w as int]@);
        append_statements(&mut out, refill(&rows[w], &rows[w].name));
        w = w + 1;
        assert(views(out@) =~= middle + all_refills(models, w as nat));
    }
    out
}

// --- waiting and reading -------------------------------------------------------------------

/// What a waiting caller is told.
#[derive(Clone, Copy, Debug, PartialEq, Eq, Structural)]
pub enum Wait {
    Reached,
    TimedOut,
    Again,
}

/// The frontier that a view effectively reflects: a live one may reflect more
/// than its stored frontier, by the idle window.
pub open spec fn frontier_of(window: Option<IdleWindow>, status: Seq<char>, frontier: u64) -> u64 {
    if status == "live"@ {
        reflected(window, frontier)
    } else {
        frontier
    }
}

/// Whether a view has reached `target`, or the caller waits on. What counts is
/// the frontier that the view effectively reflects, given the stored one and, for
/// a live view, the idle window.
pub fn wait_for(
    name: &str,
    window: Option<IdleWindow>,
    frontier: u64,
    status: &str,
    stale_reason: Option<&str>,
    target: u64,
    expired: bool,
) -> (result: Result<Wait, Report>)
    ensures
        match result {
            Err(report) => status@ == "stale"@ && report@ == stale_report(
                name@,
                view_of_option(stale_reason),
            ),
            Ok(wait) => status@ != "stale"@ && wait == if frontier_of(
                window,
                status@,
                frontier,
            ) >= target {
                Wait::Reached
            } else if expired {
                Wait::TimedOut
            } else {
                Wait::Again
            },
        },
{
    if text::same(status, "stale") {
        return Err(stale_error(name, stale_reason));
    }
    let reached = if text::same(status, "live") {
        effective_frontier(window, frontier)
    } else {
        frontier
    };
    if reached >= target {
        return Ok(Wait::Reached);
    }
    if expired {
        return Ok(Wait::TimedOut);
    }
    Ok(Wait::Again)
}

/// How long a caller waits at most.
pub fn timeout(timeout_ms: i32) -> (result: u64)
    ensures
        result == if timeout_ms < 0 {
            0
        } else {
            timeout_ms as int
        },
{
    if timeout_ms < 0 {
        0
    } else {
        timeout_ms as u64
    }
}

/// The last delta number in front of those that the log still has; `oldest` is
/// the first of these.
pub open spec fn oldest_available(view: RowModel, oldest: Option<i64>) -> int {
    match oldest {
        Some(seq) => seq - 1,
        None => view.last_seq as int,
    }
}

/// Whether a subscriber at `after_seq` has missed deltas for good.
pub open spec fn lagged(view: RowModel, oldest: Option<i64>, after_seq: i64) -> bool {
    after_seq < view.resync_seq || after_seq < oldest_available(view, oldest)
}

pub open spec fn lagged_report(name: Seq<char>) -> ReportModel {
    ReportModel {
        code: ErrorCode::ObjectNotInPrerequisiteState,
        message: "nabla: subscriber lagged behind retention for view \""@ + name + "\""@,
        hint: Some("Resync from the view table and continue from nabla.current_seq(name)."@),
    }
}

/// The query for the deltas behind `after_seq`, in order: as many as the limit
/// says, and those behind them that belong to the same source transaction as the
/// last of these, so that no transaction is ever split across two calls.
pub open spec fn changes_statement(view_id: i32, after_seq: i64, max_rows: i32) -> StatementModel {
    StatementModel {
        sql: "WITH page AS (SELECT seq, lsn, xid, op, row FROM nabla.deltas WHERE view_id = $1 AND seq > $2 ORDER BY seq LIMIT $3), last AS (SELECT seq, lsn, xid FROM page ORDER BY seq DESC LIMIT 1) SELECT r.seq, r.lsn::text, r.xid, r.op, r.row FROM (SELECT seq, lsn, xid, op, row FROM page UNION ALL SELECT d.seq, d.lsn, d.xid, d.op, d.row FROM nabla.deltas AS d JOIN last AS l ON d.seq > l.seq AND d.lsn = l.lsn AND d.xid IS NOT DISTINCT FROM l.xid WHERE d.view_id = $1) AS r ORDER BY r.seq"@,
        args: seq![
            ArgModel::Int4(view_id),
            ArgModel::Int8(after_seq),
            ArgModel::Int8(
                if max_rows < 0 {
                    0
                } else {
                    max_rows as i64
                },
            ),
        ],
    }
}

/// The deltas of a view behind `after_seq`, unless the view is stale or the log
/// no longer has them all.
pub fn changes(
    view: &CatalogRow,
    name: &str,
    oldest: Option<i64>,
    after_seq: i64,
    max_rows: i32,
) -> (result: Result<Statement, Report>)
    ensures
        match result {
            Ok(statement) => view@.status != "stale"@ && !lagged(view@, oldest, after_seq)
                && statement@ == changes_statement(view.id, after_seq, max_rows),
            Err(report) => if view@.status == "stale"@ {
                report@ == stale_report(name@, view@.stale_reason)
            } else {
                lagged(view@, oldest, after_seq) && report@ == lagged_report(name@)
            },
        },
{
    if text::same(&view.status, "stale") {
        let reason: Option<&str> = match &view.stale_reason {
            Some(r) => Some(r.as_str()),
            None => None,
        };
        return Err(stale_error(name, reason));
    }
    let behind = match oldest {
        Some(seq) => seq > i64::MIN && after_seq < seq - 1,
        None => after_seq < view.last_seq,
    };
    if after_seq < view.resync_seq || behind {
        return Err(
            errors::raise(
                ErrorCode::ObjectNotInPrerequisiteState,
                "nabla: subscriber lagged behind retention for view \"".to_string().concat(
                    name,
                ).concat("\""),
                Some("Resync from the view table and continue from nabla.current_seq(name)."),
            ),
        );
    }
    let limit: i64 = if max_rows < 0 {
        0
    } else {
        max_rows as i64
    };
    let s = Statement {
        sql: "WITH page AS (SELECT seq, lsn, xid, op, row FROM nabla.deltas WHERE view_id = $1 AND seq > $2 ORDER BY seq LIMIT $3), last AS (SELECT seq, lsn, xid FROM page ORDER BY seq DESC LIMIT 1) SELECT r.seq, r.lsn::text, r.xid, r.op, r.row FROM (SELECT seq, lsn, xid, op, row FROM page UNION ALL SELECT d.seq, d.lsn, d.xid, d.op, d.row FROM nabla.deltas AS d JOIN last AS l ON d.seq > l.seq AND d.lsn = l.lsn AND d.xid IS NOT DISTINCT FROM l.xid WHERE d.view_id = $1) AS r ORDER BY r.seq".to_string(),
        args: vec![Arg::Int4(view.id), Arg::Int8(after_seq), Arg::Int8(limit)],
    };
    assert(s@.args =~= changes_statement(view.id, after_seq, max_rows).args);
    Ok(s)
}

// --- laws ------------------------------------------------------------------------------------

pub open spec fn in_lock_order(names: Seq<(u32, Seq<char>)>) -> bool {
    forall|i: int, j: int|
        0 <= i < j < names.len() ==> (#[trigger] names[i]).0 < (#[trigger] names[j]).0
}

proof fn lemma_with_table(names: Seq<(u32, Seq<char>)>, oid: u32, qualified: Seq<char>)
    requires
        in_lock_order(names),
    ensures
        in_lock_order(with_table(names, oid, qualified)),
        lists(with_table(names, oid, qualified), oid),
        forall|x: u32| lists(names, x) ==> #[trigger] lists(with_table(names, oid, qualified), x),
{
    let after = with_table(names, oid, qualified);
    if !lists(names, oid) {
        lemma_rank(names, oid);
        let k = rank(names, oid) as int;
        assert(after[k].0 == oid);
        assert forall|i: int, j: int| 0 <= i < j < after.len() implies (#[trigger] after[i]).0 < (
        #[trigger] after[j]).0 by {
            if i < k && j > k {
                assert(names[i].0 < oid);
                assert(names[j - 1].0 > oid) by {
                    assert(names[k].0 >= oid);
                    assert(names[k].0 != oid);
                    if k < j - 1 {
                        assert(names[k].0 < names[j - 1].0);
                    }
                }
            } else if i == k {
                assert(names[k].0 >= oid);
                assert(names[k].0 != oid);
                if k < j - 1 {
                    assert(names[k].0 < names[j - 1].0);
                }
                assert(after[j] == names[j - 1]);
            } else if j == k {
                assert(names[i].0 < oid);
            } else if i > k {
                assert(names[i - 1].0 < names[j - 1].0);
            } else {
                assert(names[i].0 < names[j].0);
            }
        }
        assert forall|x: u32| lists(names, x) implies #[trigger] lists(after, x) by {
            let i = choose|i: int| 0 <= i < names.len() && (#[trigger] names[i]).0 == x;
            if i < k {
                assert(after[i].0 == x);
            } else {
                assert(after[i + 1].0 == x);
            }
        }
    }
}

proof fn lemma_with_tables(
    names: Seq<(u32, Seq<char>)>,
    relations: Seq<BaseModel>,
    relids: Set<u32>,
    n: nat,
)
    requires
        in_lock_order(names),
        n <= relations.len(),
    ensures
        in_lock_order(with_tables(names, relations, relids, n)),
        forall|x: u32|
            lists(names, x) ==> #[trigger] lists(with_tables(names, relations, relids, n), x),
        forall|i: int|
            0 <= i < n && relids.contains((#[trigger] relations[i]).oid) ==> lists(
                with_tables(names, relations, relids, n),
                relations[i].oid,
            ),
    decreases n,
{
    if n > 0 {
        lemma_with_tables(names, relations, relids, (n - 1) as nat);
        let before = with_tables(names, relations, relids, (n - 1) as nat);
        let r = relations[n - 1];
        lemma_with_table(before, r.oid, r.qualified);
    }
}

/// Refreshes lock tables in the order of their oids, each once, and every
/// refreshed table of every view is among them: concurrent refreshes cannot
/// wait for each other in a circle.
pub proof fn law_locks_are_taken_in_order(rows: Seq<RowModel>, relids: Set<u32>, n: nat)
    requires
        n <= rows.len(),
    ensures
        in_lock_order(tables_of(rows, relids, n)),
        forall|v: int, i: int|
            0 <= v < n && 0 <= i < rows[v].spec.relations.len() && relids.contains(
                (#[trigger] rows[v].spec.relations[i]).oid,
            ) ==> lists(tables_of(rows, relids, n), rows[v].spec.relations[i].oid),
    decreases n,
{
    if n > 0 {
        law_locks_are_taken_in_order(rows, relids, (n - 1) as nat);
        let before = tables_of(rows, relids, (n - 1) as nat);
        let relations = rows[n - 1].spec.relations;
        lemma_with_tables(before, relations, relids, relations.len());
    }
}

/// A subscriber that is not behind retention is handed every delta it has not
/// seen: the log still holds all numbers behind its own up to the last one.
pub proof fn law_readers_miss_nothing(view: RowModel, oldest: Option<i64>, after_seq: i64)
    requires
        !lagged(view, oldest, after_seq),
    ensures
        match oldest {
            Some(first) => first <= after_seq + 1,
            None => after_seq >= view.last_seq,
        },
        after_seq >= view.resync_seq,
{
}

/// What a column holds.
pub enum Content {
    Null,
    Text(Seq<char>),
    Number(int),
    Position(u64),
}

/// What a setting comes to over a row, at a WAL position.
pub open spec fn set_to(setting: Setting, row: Map<Column, Content>, wal: u64) -> Content {
    match setting {
        Setting::WalPosition => Content::Position(wal),
        Setting::OneMore(column) => match row[column] {
            Content::Number(n) => Content::Number(n + 1),
            _ => Content::Null,
        },
        Setting::Live => Content::Text("live"@),
        Setting::Zero => Content::Number(0),
        Setting::Null => Content::Null,
    }
}

/// A row once the first `n` settings were made; each reads the row as it was.
pub open spec fn set_all(
    row: Map<Column, Content>,
    settings: Seq<(Column, Setting)>,
    wal: u64,
    n: nat,
) -> Map<Column, Content>
    decreases n,
{
    if n == 0 {
        row
    } else {
        set_all(row, settings, wal, (n - 1) as nat).insert(
            settings[n - 1].0,
            set_to(settings[n - 1].1, row, wal),
        )
    }
}

/// A catalog row as it is read.
pub open spec fn reads(view: RowModel, row: Map<Column, Content>) -> bool {
    &&& row[Column::FrontierLsn] == Content::Position(view.frontier)
    &&& row[Column::Epoch] == Content::Number(view.epoch as int)
    &&& row[Column::Status] == Content::Text(view.status)
    &&& row[Column::LastSeq] == Content::Number(view.last_seq as int)
    &&& row[Column::ResyncSeq] == Content::Number(view.resync_seq as int)
    &&& row[Column::StaleReason] == match view.stale_reason {
        Some(reason) => Content::Text(reason),
        None => Content::Null,
    }
}

/// After a refresh the view is live at the new position, in the next epoch, with
/// no failure on record; and every reader at a number that was given out before
/// is told that they lag, whatever the view's status was.
pub proof fn law_refreshed_readers_lag(
    before: RowModel,
    after: RowModel,
    row: Map<Column, Content>,
    wal: u64,
    after_seq: i64,
)
    requires
        reads(before, row),
        reads(after, set_all(row, refresh_settings(), wal, refresh_settings().len())),
        after_seq <= before.last_seq,
    ensures
        ({
            let made = set_all(row, refresh_settings(), wal, refresh_settings().len());
            &&& after.frontier == wal
            &&& after.epoch == before.epoch + 1
            &&& after.status == "live"@
            &&& after.last_seq == before.last_seq + 1
            &&& after.resync_seq == after.last_seq
            &&& after.stale_reason is None
            &&& made[Column::ApplyFailures] == Content::Number(0)
            &&& made[Column::LastError] == Content::Null
            &&& made[Column::LastErrorAt] == Content::Null
            &&& lagged(after, None, after_seq)
        }),
{
    let s = refresh_settings();
    reveal_with_fuel(set_all, 10);
    let made = set_all(row, s, wal, 9);
    assert(made[Column::StaleReason] == Content::Null);
    assert(made[Column::LastSeq] == Content::Number(before.last_seq + 1));
    assert(made[Column::ResyncSeq] == Content::Number(before.last_seq + 1));
    assert(made[Column::Epoch] == Content::Number(before.epoch + 1));
}

/// A row of the log, by what orders and groups it.
pub struct LogRow {
    pub seq: i64,
    pub lsn: u64,
    pub xid: Option<i64>,
}

pub open spec fn of_one_transaction(a: LogRow, b: LogRow) -> bool {
    a.lsn == b.lsn && a.xid == b.xid
}

/// Those of the first `n` rows of a log that stand behind a number.
pub open spec fn rows_behind(log: Seq<LogRow>, after_seq: i64, n: nat) -> Seq<LogRow>
    decreases n,
{
    if n == 0 {
        Seq::empty()
    } else if log[n - 1].seq > after_seq {
        rows_behind(log, after_seq, (n - 1) as nat).push(log[n - 1])
    } else {
        rows_behind(log, after_seq, (n - 1) as nat)
    }
}

/// Those of the rows from `from` to `n` that go with a row's transaction.
pub open spec fn rows_with(rows: Seq<LogRow>, row: LogRow, from: int, n: nat) -> Seq<LogRow>
    decreases n,
{
    if n <= from || n == 0 {
        Seq::empty()
    } else if of_one_transaction(rows[n - 1], row) {
        rows_with(rows, row, from, (n - 1) as nat).push(rows[n - 1])
    } else {
        rows_with(rows, row, from, (n - 1) as nat)
    }
}

/// What the query of `changes` selects of a log: the rows behind a number up to
/// the limit, and those behind them that go with the last one's transaction.
pub open spec fn page(log: Seq<LogRow>, after_seq: i64, limit: nat) -> Seq<LogRow> {
    let rows = rows_behind(log, after_seq, log.len());
    if rows.len() <= limit {
        rows
    } else if limit == 0 {
        Seq::empty()
    } else {
        rows.take(limit as int) + rows_with(rows, rows[limit - 1], limit as int, rows.len())
    }
}

/// A log in the order of its numbers.
pub open spec fn in_order(log: Seq<LogRow>) -> bool {
    forall|i: int, j: int|
        0 <= i < j < log.len() ==> (#[trigger] log[i]).seq < (#[trigger] log[j]).seq
}

proof fn lemma_rows_behind(log: Seq<LogRow>, after_seq: i64, n: nat)
    requires
        in_order(log),
        n <= log.len(),
    ensures
        in_order(rows_behind(log, after_seq, n)),
        forall|i: int|
            0 <= i < n && (#[trigger] log[i]).seq > after_seq ==> rows_behind(
                log,
                after_seq,
                n,
            ).contains(log[i]),
        forall|k: int|
            0 <= k < rows_behind(log, after_seq, n).len() ==> log.take(n as int).contains(
                #[trigger] rows_behind(log, after_seq, n)[k],
            ) && rows_behind(log, after_seq, n)[k].seq > after_seq,
    decreases n,
{
    if n > 0 {
        lemma_rows_behind(log, after_seq, (n - 1) as nat);
        let before = rows_behind(log, after_seq, (n - 1) as nat);
        let after = rows_behind(log, after_seq, n);
        let old_take = log.take(n - 1);
        let take = log.take(n as int);
        assert forall|k: int| 0 <= k < after.len() implies take.contains(#[trigger] after[k])
            && after[k].seq > after_seq by {
            if k < before.len() {
                let x = before[k];
                let i = choose|i: int| 0 <= i < old_take.len() && old_take[i] == x;
                assert(take[i] == x);
            } else {
                assert(take[n - 1] == after[k]);
            }
        }
        assert forall|i: int, j: int| 0 <= i < j < after.len() implies (#[trigger] after[i]).seq < (
        #[trigger] after[j]).seq by {
            if j == before.len() {
                let x = before[i];
                assert(old_take.contains(x));
                let k = choose|k: int| 0 <= k < old_take.len() && old_take[k] == x;
                assert(log[k].seq < log[n - 1].seq);
            }
        }
        assert forall|i: int| 0 <= i < n && (#[trigger] log[i]).seq > after_seq implies after.contains(
            log[i],
        ) by {
            if i < n - 1 {
                assert(before.contains(log[i]));
                let k = choose|k: int| 0 <= k < before.len() && before[k] == log[i];
                assert(after[k] == log[i]);
            } else {
                assert(after[before.len() as int] == log[i]);
            }
        }
    }
}

proof fn lemma_rows_with(rows: Seq<LogRow>, row: LogRow, from: int, n: nat)
    requires
        in_order(rows),
        0 <= from,
        n <= rows.len(),
    ensures
        forall|i: int|
            from <= i < n && of_one_transaction(#[trigger] rows[i], row) ==> rows_with(
                rows,
                row,
                from,
                n,
            ).contains(rows[i]),
        forall|k: int|
            0 <= k < rows_with(rows, row, from, n).len() ==> of_one_transaction(
                #[trigger] rows_with(rows, row, from, n)[k],
                row,
            ),
        rows_with(rows, row, from, n).len() > 0 ==> forall|i: int|
            from <= i < n && of_one_transaction(#[trigger] rows[i], row) ==> rows[i].seq
                <= rows_with(rows, row, from, n).last().seq,
    decreases n,
{
    if n > from && n > 0 {
        lemma_rows_with(rows, row, from, (n - 1) as nat);
        let before = rows_with(rows, row, from, (n - 1) as nat);
        let after = rows_with(rows, row, from, n);
        assert forall|i: int|
            from <= i < n && of_one_transaction(
                #[trigger] rows[i],
                row,
            ) implies after.contains(rows[i]) by {
            if i < n - 1 {
                let k = choose|k: int| 0 <= k < before.len() && before[k] == rows[i];
                assert(before.contains(rows[i]));
                assert(after[k] == rows[i]);
            } else {
                assert(after[before.len() as int] == rows[i]);
            }
        }
        if after.len() > 0 {
            assert forall|i: int|
                from <= i < n && of_one_transaction(#[trigger] rows[i], row) implies rows[i].seq
                <= after.last().seq by {
                if of_one_transaction(rows[n - 1], row) {
                    assert(after.last() == rows[n - 1]);
                }
            }
        }
    }
}

/// A source transaction is never split across two calls: no row of the log
/// behind the last one that is returned belongs to its transaction, though the
/// trailing transaction may make the result longer than the limit.
pub proof fn law_pages_hold_whole_transactions(
    log: Seq<LogRow>,
    after_seq: i64,
    limit: nat,
    i: int,
)
    requires
        in_order(log),
        page(log, after_seq, limit).len() > 0,
        0 <= i < log.len(),
        log[i].seq > page(log, after_seq, limit).last().seq,
    ensures
        !of_one_transaction(log[i], page(log, after_seq, limit).last()),
{
    let rows = rows_behind(log, after_seq, log.len());
    let got = page(log, after_seq, limit);
    let last = got.last();
    lemma_rows_behind(log, after_seq, log.len());
    let more = rows_with(rows, rows[limit - 1], limit as int, rows.len());
    if rows.len() > limit {
        lemma_rows_with(rows, rows[limit - 1], limit as int, rows.len());
        if more.len() == 0 {
            assert(last == rows[limit - 1]);
        } else {
            assert(last == more.last());
            assert(rows_with(rows, rows[limit - 1], limit as int, rows.len())[more.len() - 1]
                == last);
        }
    }
    lemma_page_behind(log, after_seq, limit);
    assert(rows.contains(log[i]));
    let k = choose|k: int| 0 <= k < rows.len() && rows[k] == log[i];
    if rows.len() <= limit {
        assert(last == rows[rows.len() - 1]);
    } else if of_one_transaction(rows[k], last) {
        assert(of_one_transaction(rows[k], rows[limit - 1]));
        if k >= limit {
            assert(more.contains(rows[k]));
        } else {
            if more.len() > 0 {
                lemma_with_is_behind(rows, rows[limit - 1], limit as int, rows.len());
            }
        }
    }
}

proof fn lemma_with_is_behind(rows: Seq<LogRow>, row: LogRow, from: int, n: nat)
    requires
        in_order(rows),
        0 <= from,
        n <= rows.len(),
    ensures
        forall|k: int, i: int|
            0 <= k < rows_with(rows, row, from, n).len() && 0 <= i < from && i < rows.len()
                ==> (#[trigger] rows[i]).seq < (#[trigger] rows_with(rows, row, from, n)[k]).seq,
    decreases n,
{
    if n > from && n > 0 {
        lemma_with_is_behind(rows, row, from, (n - 1) as nat);
    }
}

proof fn lemma_page_behind(log: Seq<LogRow>, after_seq: i64, limit: nat)
    requires
        in_order(log),
        page(log, after_seq, limit).len() > 0,
    ensures
        page(log, after_seq, limit).last().seq > after_seq,
{
    let rows = rows_behind(log, after_seq, log.len());
    lemma_rows_behind(log, after_seq, log.len());
    if rows.len() <= limit {
        assert(rows[rows.len() - 1].seq > after_seq);
    } else {
        assert(rows[limit - 1].seq > after_seq);
        lemma_with_is_behind(rows, rows[limit - 1], limit as int, rows.len());
    }
}

// --- laws of names and reports ---------------------------------------------------------------

/// Whether a character can stand in a part of a view name.
pub open spec fn is_letter_or_digit(c: char) -> bool {
    "abcdefghijklmnopqrstuvwxyzABCDEFGHIJKLMNOPQRSTUVWXYZ_0123456789"@.contains(c)
}

proof fn lemma_name_chars(c: char)
    ensures
        is_name_char(c) <==> is_letter_or_digit(c),
        is_digit(c) <==> "0123456789"@.contains(c),
{
    reveal_strlit("abcdefghijklmnopqrstuvwxyzABCDEFGHIJKLMNOPQRSTUVWXYZ_0123456789");
    reveal_strlit("0123456789");
    let all = "abcdefghijklmnopqrstuvwxyzABCDEFGHIJKLMNOPQRSTUVWXYZ_0123456789"@;
    let digits = "0123456789"@;
    if is_digit(c) {
        assert(digits[c as int - 48] == c);
        assert(all[53 + (c as int - 48)] == c);
    }
    if 'a' <= c <= 'z' {
        assert(all[c as int - 97] == c);
    }
    if 'A' <= c <= 'Z' {
        assert(all[26 + (c as int - 65)] == c);
    }
    if c == '_' {
        assert(all[52] == c);
    }
}

/// Whether a text can be a part of a view name.
pub open spec fn is_identifier(part: Seq<char>) -> bool {
    &&& part.len() > 0
    &&& !"0123456789"@.contains(part[0])
    &&& forall|i: int| 0 <= i < part.len() ==> is_letter_or_digit(#[trigger] part[i])
}

/// A name is accepted exactly where it is two identifiers with a dot between them.
pub proof fn law_qualified_names_have_two_parts(name: Seq<char>)
    ensures
        is_qualified(name) <==> exists|dot: int|
            0 <= dot < name.len() && #[trigger] name[dot] == '.' && is_identifier(name.take(dot))
                && is_identifier(name.skip(dot + 1)),
{
    text::lemma_first_of(name, '.');
    assert forall|part: Seq<char>| #[trigger] is_part(part) <==> is_identifier(part) by {
        assert forall|i: int| 0 <= i < part.len() implies (is_name_char(#[trigger] part[i])
            <==> is_letter_or_digit(part[i])) && (is_digit(part[i]) <==> "0123456789"@.contains(
            part[i],
        )) by {
            lemma_name_chars(part[i]);
        }
        if part.len() > 0 {
            assert(is_digit(part[0]) <==> "0123456789"@.contains(part[0])) by {
                lemma_name_chars(part[0]);
            }
        }
    }
    if exists|dot: int|
        0 <= dot < name.len() && #[trigger] name[dot] == '.' && is_identifier(name.take(dot))
            && is_identifier(name.skip(dot + 1)) {
        let dot = choose|dot: int|
            0 <= dot < name.len() && #[trigger] name[dot] == '.' && is_identifier(name.take(dot))
                && is_identifier(name.skip(dot + 1));
        let first = first_of(name, '.')->0;
        assert(first == dot) by {
            if first < dot {
                assert(name.take(dot)[first] == '.');
                assert(is_letter_or_digit('.'));
                lemma_name_chars('.');
            }
        }
        assert(is_part(name.take(dot)) && is_part(name.skip(dot + 1)));
    }
    if is_qualified(name) {
        let dot = first_of(name, '.')->0;
        assert(is_part(name.take(dot)) && is_part(name.skip(dot + 1)));
        assert(name[dot] == '.');
    }
}

/// A view is created exactly where the server logs what it needs, its base table sends the
/// old rows that it needs, and its name is free.
pub proof fn law_creations_need_their_prerequisites(
    name: Seq<char>,
    spec: SpecModel,
    base: BaseTableModel,
    wal_level: Seq<char>,
    relation_exists: bool,
    view_exists: bool,
)
    ensures
        creation_error(name, spec, base, wal_level, relation_exists, view_exists) is None <==> (
        wal_level == "logical"@ && !relation_exists && !view_exists && (base.replident == "f"@
            || spec.shape == Shape::Projection || spec.relations.len() > 1)),
{
}

/// Whether a report is about a text, in its message.
pub open spec fn is_about(report: ReportModel, part: Seq<char>) -> bool {
    has_part(report.message, part) && report.message.len() >= 6 && report.message.take(6)
        == "nabla:"@
}

proof fn lemma_said(front: Seq<char>, part: Seq<char>, back: Seq<char>)
    requires
        front.len() >= 6,
        front.take(6) == "nabla:"@,
    ensures
        has_part(front + part + back, part),
        has_part(front + part, part),
        (front + part + back).len() >= 6,
        (front + part + back).take(6) == "nabla:"@,
        (front + part).len() >= 6,
        (front + part).take(6) == "nabla:"@,
{
    lemma_part_of_itself(part);
    lemma_part_within(front, part, back, part);
    lemma_part_right(front, part, part);
    assert((front + part + back).take(6) =~= front.take(6));
    assert((front + part).take(6) =~= front.take(6));
}

/// Every report begins with the extension's name and says what it is about: the name that
/// was given, the table and its identity, the view and why it is stale.
pub proof fn law_reports_say_what_they_are_about(
    name: Seq<char>,
    reason: Seq<char>,
    base: BaseTableModel,
)
    ensures
        is_about(unqualified_error(name), name),
        is_about(identity_error(base), base.qualified),
        is_about(exists_error("relation"@, name), name),
        is_about(exists_error("view"@, name), name),
        is_about(stale_report(name, None), name),
        is_about(stale_report(name, Some(reason)), name),
        is_about(stale_report(name, Some(reason)), reason),
        is_about(lagged_report(name), name),
{
    lemma_unqualified_said(name);
    lemma_identity_said(base);
    lemma_exists_said("relation"@, name);
    lemma_exists_said("view"@, name);
    lemma_stale_said(name, None);
    lemma_stale_said(name, Some(reason));
    lemma_lagged_said(name);
}

proof fn lemma_unqualified_said(name: Seq<char>)
    ensures
        is_about(unqualified_error(name), name),
{
    reveal_strlit("nabla:");
    reveal_strlit("nabla: view name \"");
    let front = "nabla: view name \""@;
    assert(front.take(6) =~= "nabla:"@);
    lemma_said(front, name, "\" must be schema-qualified (schema.name)"@);
}

proof fn lemma_identity_said(base: BaseTableModel)
    ensures
        is_about(identity_error(base), base.qualified),
{
    reveal_strlit("nabla:");
    reveal_strlit("nabla: the aggregate shape needs the full old row of every change, but ");
    let front = "nabla: the aggregate shape needs the full old row of every change, but "@;
    assert(front.take(6) =~= "nabla:"@);
    let back = " has REPLICA IDENTITY '"@ + base.replident + "'"@;
    lemma_said(front, base.qualified, back);
    assert(front + base.qualified + back =~= identity_error(base).message);
}

proof fn lemma_lagged_said(name: Seq<char>)
    ensures
        is_about(lagged_report(name), name),
{
    reveal_strlit("nabla:");
    reveal_strlit("nabla: subscriber lagged behind retention for view \"");
    let front = "nabla: subscriber lagged behind retention for view \""@;
    assert(front.take(6) =~= "nabla:"@);
    lemma_said(front, name, "\""@);
}

proof fn lemma_exists_said(kind: Seq<char>, name: Seq<char>)
    ensures
        is_about(exists_error(kind, name), name),
{
    reveal_strlit("nabla: ");
    reveal_strlit("nabla:");
    let front = "nabla: "@ + kind + " \""@;
    assert(front.take(6) =~= "nabla:"@);
    lemma_said(front, name, "\" already exists"@);
}

proof fn lemma_stale_said(name: Seq<char>, reason: Option<Seq<char>>)
    ensures
        is_about(stale_report(name, reason), name),
        reason is Some ==> is_about(stale_report(name, reason), reason->0),
{
    reveal_strlit("nabla: view \"");
    reveal_strlit("nabla:");
    let front = "nabla: view \""@;
    assert(front.take(6) =~= "nabla:"@);
    let why = match reason {
        Some(r) => r,
        None => "reason not recorded"@,
    };
    lemma_said(front, name, "\" is stale: "@ + why);
    assert(front + name + ("\" is stale: "@ + why) =~= stale_report(name, reason).message);
    let longer = front + name + "\" is stale: "@;
    assert(longer.take(6) =~= "nabla:"@);
    lemma_said(longer, why, Seq::empty());
}

// --- laws of what is run -----------------------------------------------------------------------

/// A table comes into the publication where it is not in it yet, and the publication is
/// created first where there is none.
pub proof fn law_tables_are_published(
    publication_exists: bool,
    included: bool,
    table: Seq<char>,
    quoting: spec_fn(Seq<char>) -> Seq<char>,
)
    ensures
        ({
            let run = publish_statements(publication_exists, included, table, quoting);
            &&& !publication_exists ==> run.len() > 0 && run[0] == bare(
                "CREATE PUBLICATION "@ + quoting("nabla"@),
            )
            &&& !included ==> run.len() > 0 && has_part(run.last().sql, "ADD TABLE "@ + table)
                && has_part(run.last().sql, "ALTER PUBLICATION "@ + quoting("nabla"@))
            &&& publication_exists && included ==> run.len() == 0
        }),
{
    lemma_published_text(quoting(PUBLICATION@), table);
}

proof fn lemma_published_text(name: Seq<char>, table: Seq<char>)
    ensures
        has_part(
            "ALTER PUBLICATION "@ + name + " ADD TABLE "@ + table,
            "ALTER PUBLICATION "@ + name,
        ),
        has_part("ALTER PUBLICATION "@ + name + " ADD TABLE "@ + table, "ADD TABLE "@ + table),
{
    let head = "ALTER PUBLICATION "@ + name;
    let tail = " ADD TABLE "@ + table;
    let part = "ADD TABLE "@ + table;
    assert(head + tail =~= head + " ADD TABLE "@ + table);
    lemma_part_of_itself(head);
    lemma_part_left(head, tail, head);
    reveal_strlit(" ADD TABLE ");
    reveal_strlit("ADD TABLE ");
    assert(tail =~= seq![' '] + part);
    lemma_part_of_itself(part);
    lemma_part_right(seq![' '], part, part);
    lemma_part_right(head, tail, part);
}

/// A view is recorded under its name, over its base table, with its definition, its shape
/// and its spec; and each of its relations under its number, with its place.
pub proof fn law_views_are_recorded_as_given(
    name: Seq<char>,
    base_oid: u32,
    definition: Seq<char>,
    shape: Shape,
    spec_json: Seq<char>,
    view_id: i32,
    rel: BaseModel,
)
    ensures
        ({
            let args = record_statement(name, base_oid, definition, shape, spec_json).args;
            &&& args.len() == 5
            &&& args[0] == ArgModel::Text(Some(name))
            &&& args[1] == ArgModel::Int8(base_oid as i64)
            &&& args[2] == ArgModel::Text(Some(definition))
            &&& shape == Shape::Projection ==> args[3] == ArgModel::Text(Some("projection"@))
            &&& shape == Shape::Aggregate ==> args[3] == ArgModel::Text(Some("aggregate"@))
            &&& args[4] == ArgModel::Text(Some(spec_json))
        }),
        relation_statement(view_id, rel).args == seq![
            ArgModel::Int4(view_id),
            ArgModel::Int8(rel.oid as i64),
            ArgModel::Int4(rel.rti as i32),
        ],
{
}

/// A dropped view releases every relation it reads, and no others: its base table, where
/// it was recorded without relations. Its table goes, and its own record.
pub proof fn law_dropped_views_release_every_relation(view: RowModel, name: Seq<char>, oid: u32)
    ensures
        released_relids(view).contains(oid) <==> (exists|i: int|
            0 <= i < view.spec.relations.len() && (#[trigger] view.spec.relations[i]).oid == oid)
            || (view.spec.relations.len() == 0 && oid == view.base_oid),
        has_part(drop_statements(view, name)[0].sql, "DROP TABLE IF EXISTS "@ + name),
        drop_statements(view, name)[1].args == seq![ArgModel::Int4(view.id)],
        has_part(drop_statements(view, name)[1].sql, "DELETE FROM nabla.views WHERE id = $1"@),
{
    let all = released_relids(view);
    if view.spec.relations.len() == 0 {
        assert(all[0] == view.base_oid);
    }
    if all.contains(oid) {
        let i = choose|i: int| 0 <= i < all.len() && all[i] == oid;
        if view.spec.relations.len() > 0 {
            assert(view.spec.relations[i].oid == oid);
        }
    }
    assert forall|i: int|
        0 <= i < view.spec.relations.len() && (#[trigger] view.spec.relations[i]).oid
            == oid implies all.contains(oid) by {
        assert(all[i] == oid);
    }
    lemma_part_of_itself("DROP TABLE IF EXISTS "@ + name);
    lemma_part_of_itself("DELETE FROM nabla.views WHERE id = $1"@);
}

/// The record of a refresh says, of the view's own row, that it is live and healthy at the
/// current position, in the next epoch, at the next number, with every earlier reader told
/// to begin anew; and its log is emptied.
pub proof fn law_refreshes_are_recorded(view_id: i32)
    ensures
        ({
            let run = refresh_records(view_id);
            let sql = run[0].sql;
            &&& run.len() == 2
            &&& run[0].args == seq![ArgModel::Int4(view_id)]
            &&& run[1] == (StatementModel {
                sql: "DELETE FROM nabla.deltas WHERE view_id = $1"@,
                args: seq![ArgModel::Int4(view_id)],
            })
            &&& has_part(sql, "UPDATE nabla.views SET "@)
            &&& has_part(sql, " WHERE id = $1"@)
            &&& has_part(sql, "frontier_lsn = pg_catalog.pg_current_wal_lsn()"@)
            &&& has_part(sql, "epoch = epoch + 1"@)
            &&& has_part(sql, "status = 'live'"@)
            &&& has_part(sql, "last_seq = last_seq + 1"@)
            &&& has_part(sql, "resync_seq = last_seq + 1"@)
            &&& has_part(sql, "apply_failures = 0"@)
            &&& has_part(sql, "last_error = NULL"@)
            &&& has_part(sql, "last_error_at = NULL"@)
            &&& has_part(sql, "stale_reason = NULL"@)
        }),
{
    let settings = refresh_settings();
    let parts = settings.map_values(|a: (Column, Setting)| assignment_sql(a));
    let list = joined(parts, ", "@);
    let front = "UPDATE nabla.views SET "@;
    let back = " WHERE id = $1"@;
    lemma_part_of_itself(front);
    lemma_part_of_itself(back);
    lemma_part_left(front, list, front);
    lemma_part_left(front + list, back, front);
    lemma_part_right(front + list, back, back);
    assert forall|i: int| 0 <= i < 9 implies has_part(
        refresh_records(view_id)[0].sql,
        #[trigger] assignment_sql(settings[i]),
    ) by {
        lemma_part_of_joined(parts, ", "@, i);
        assert(parts[i] == assignment_sql(settings[i]));
        lemma_part_within(front, list, back, parts[i]);
    }
    lemma_assignments();
    assert(has_part(refresh_records(view_id)[0].sql, assignment_sql(settings[0])));
    assert(has_part(refresh_records(view_id)[0].sql, assignment_sql(settings[1])));
    assert(has_part(refresh_records(view_id)[0].sql, assignment_sql(settings[2])));
    assert(has_part(refresh_records(view_id)[0].sql, assignment_sql(settings[3])));
    assert(has_part(refresh_records(view_id)[0].sql, assignment_sql(settings[4])));
    assert(has_part(refresh_records(view_id)[0].sql, assignment_sql(settings[5])));
    assert(has_part(refresh_records(view_id)[0].sql, assignment_sql(settings[6])));
    assert(has_part(refresh_records(view_id)[0].sql, assignment_sql(settings[7])));
    assert(has_part(refresh_records(view_id)[0].sql, assignment_sql(settings[8])));
}

proof fn lemma_assignments()
    ensures
        assignment_sql((Column::FrontierLsn, Setting::WalPosition))
            == "frontier_lsn = pg_catalog.pg_current_wal_lsn()"@,
        assignment_sql((Column::Epoch, Setting::OneMore(Column::Epoch))) == "epoch = epoch + 1"@,
        assignment_sql((Column::Status, Setting::Live)) == "status = 'live'"@,
        assignment_sql((Column::LastSeq, Setting::OneMore(Column::LastSeq)))
            == "last_seq = last_seq + 1"@,
        assignment_sql((Column::ResyncSeq, Setting::OneMore(Column::LastSeq)))
            == "resync_seq = last_seq + 1"@,
        assignment_sql((Column::ApplyFailures, Setting::Zero)) == "apply_failures = 0"@,
        assignment_sql((Column::LastError, Setting::Null)) == "last_error = NULL"@,
        assignment_sql((Column::LastErrorAt, Setting::Null)) == "last_error_at = NULL"@,
        assignment_sql((Column::StaleReason, Setting::Null)) == "stale_reason = NULL"@,
{
    reveal_strlit(" = ");
    reveal_strlit(" + 1");
    reveal_strlit("frontier_lsn");
    reveal_strlit("epoch");
    reveal_strlit("status");
    reveal_strlit("last_seq");
    reveal_strlit("resync_seq");
    reveal_strlit("apply_failures");
    reveal_strlit("last_error");
    reveal_strlit("last_error_at");
    reveal_strlit("stale_reason");
    reveal_strlit("pg_catalog.pg_current_wal_lsn()");
    reveal_strlit("'live'");
    reveal_strlit("0");
    reveal_strlit("NULL");
    reveal_strlit("frontier_lsn = pg_catalog.pg_current_wal_lsn()");
    reveal_strlit("epoch = epoch + 1");
    reveal_strlit("status = 'live'");
    reveal_strlit("last_seq = last_seq + 1");
    reveal_strlit("resync_seq = last_seq + 1");
    reveal_strlit("apply_failures = 0");
    reveal_strlit("last_error = NULL");
    reveal_strlit("last_error_at = NULL");
    reveal_strlit("stale_reason = NULL");
    assert(assignment_sql((Column::FrontierLsn, Setting::WalPosition))
        =~= "frontier_lsn = pg_catalog.pg_current_wal_lsn()"@);
    assert(assignment_sql((Column::Epoch, Setting::OneMore(Column::Epoch)))
        =~= "epoch = epoch + 1"@);
    assert(assignment_sql((Column::Status, Setting::Live)) =~= "status = 'live'"@);
    assert(assignment_sql((Column::LastSeq, Setting::OneMore(Column::LastSeq)))
        =~= "last_seq = last_seq + 1"@);
    assert(assignment_sql((Column::ResyncSeq, Setting::OneMore(Column::LastSeq)))
        =~= "resync_seq = last_seq + 1"@);
    assert(assignment_sql((Column::ApplyFailures, Setting::Zero)) =~= "apply_failures = 0"@);
    assert(assignment_sql((Column::LastError, Setting::Null)) =~= "last_error = NULL"@);
    assert(assignment_sql((Column::LastErrorAt, Setting::Null)) =~= "last_error_at = NULL"@);
    assert(assignment_sql((Column::StaleReason, Setting::Null)) =~= "stale_reason = NULL"@);
}

/// Whether some statements are run one behind the other, from a place on.
pub open spec fn runs_at(run: Seq<StatementModel>, part: Seq<StatementModel>, at: int) -> bool {
    0 <= at && at + part.len() <= run.len() && run.subrange(at, at + part.len()) == part
}

/// A view that is filled anew is emptied, filled by its own query and recorded as
/// refreshed, in this order; one over a single table behind a lock on that table.
pub proof fn law_refills_run_the_views_own_query(view: RowModel, name: Seq<char>)
    ensures
        ({
            let run = refresh_single(view, name);
            &&& run.len() > 0
            &&& has_part(run[0].sql, "LOCK TABLE "@ + view.spec.base_table)
            &&& has_part(run[0].sql, " IN SHARE MODE"@)
            &&& runs_at(
                run,
                seq![
                    bare("DELETE FROM "@ + name),
                    bare("INSERT INTO "@ + name + " "@ + view.spec.populate_sql),
                ] + refresh_records(view.id),
                2,
            )
            &&& run[1] == bare("SET LOCAL nabla.internal_write = on"@)
        }),
{
    let run = refresh_single(view, name);
    let filled = refill_statements(view.id, name, view.spec);
    assert(run.subrange(2, 2 + filled.len() as int) =~= filled);
    lemma_lock_text(view.spec.base_table);
}

pub proof fn lemma_lock_text(table: Seq<char>)
    ensures
        has_part(lock_statement(table).sql, "LOCK TABLE "@ + table),
        has_part(lock_statement(table).sql, " IN SHARE MODE"@),
{
    let head = "LOCK TABLE "@ + table;
    lemma_part_of_itself(head);
    lemma_part_of_itself(" IN SHARE MODE"@);
    lemma_part_left(head, " IN SHARE MODE"@, head);
    lemma_part_right(head, " IN SHARE MODE"@, " IN SHARE MODE"@);
}

/// A new view table is made by the view's own query, and guarded.
pub proof fn law_view_tables_are_made_by_their_query(
    name: Seq<char>,
    spec: SpecModel,
    quoting: spec_fn(Seq<char>) -> Seq<char>,
)
    ensures
        ({
            let run = create_table_statements(name, spec, quoting);
            &&& run.len() == 4
            &&& has_part(run[0].sql, "CREATE TABLE "@ + name)
            &&& has_part(run[0].sql, " AS "@ + spec.populate_sql)
            &&& run[1] == bare(index_sql(name, spec, quoting))
            &&& run[2] == bare(guard_sql(name))
            &&& run[3] == bare(guard_truncate_sql(name))
        }),
{
    let head = "CREATE TABLE "@ + name;
    let tail = " AS "@ + spec.populate_sql;
    lemma_part_of_itself(head);
    lemma_part_of_itself(tail);
    lemma_part_left(head, tail, head);
    lemma_part_right(head, tail, tail);
    assert(head + tail =~= head + " AS "@ + spec.populate_sql);
}

/// A refresh reaches every join view that shares a relation with one it reaches, and goes
/// no further: where no other join view reads a relation of the view, it is the view and
/// its relations alone.
pub proof fn law_refreshes_reach_what_shares_a_relation(
    members: Seq<Membership>,
    view_id: i64,
    relids: Seq<u32>,
    live: Set<i64>,
    rels: Set<u32>,
    i: int,
    j: int,
)
    requires
        0 <= i < members.len(),
        0 <= j < members.len(),
    ensures
        closed_over(members, view_id, relids, live, rels) ==> {
            &&& live.contains(view_id)
            &&& relids.contains(members[j].relid) && members[j].join ==> live.contains(
                members[j].view_id,
            )
            &&& live.contains(members[i].view_id) && members[i].relid == members[j].relid
                && members[j].join ==> live.contains(members[j].view_id)
            &&& live.contains(members[j].view_id) ==> rels.contains(members[j].relid)
        },
        (forall|k: int|
            0 <= k < members.len() ==> {
                let m = #[trigger] members[k];
                if m.view_id == view_id {
                    relids.contains(m.relid)
                } else {
                    m.join ==> !relids.contains(m.relid)
                }
            }) ==> closed_over(
            members,
            view_id,
            relids,
            Set::empty().insert(view_id),
            relids.to_set(),
        ),
{
    if closed_over(members, view_id, relids, live, rels) {
        if relids.contains(members[j].relid) {
            let k = choose|k: int| 0 <= k < relids.len() && relids[k] == members[j].relid;
            assert(rels.contains(relids[k]));
        }
        assert(live.contains(members[i].view_id) ==> rels.contains(members[i].relid));
    }
}

/// The tables that a refresh locks are relations of the views, under their names, and
/// only those that are refreshed.
pub proof fn law_only_refreshed_tables_are_locked(
    rows: Seq<RowModel>,
    relids: Set<u32>,
    n: nat,
    t: int,
)
    requires
        n <= rows.len(),
        0 <= t < tables_of(rows, relids, n).len(),
    ensures
        relids.contains(tables_of(rows, relids, n)[t].0),
        exists|v: int, i: int|
            0 <= v < n && 0 <= i < rows[v].spec.relations.len() && (
            #[trigger] rows[v].spec.relations[i]).oid == tables_of(rows, relids, n)[t].0
                && rows[v].spec.relations[i].qualified == tables_of(rows, relids, n)[t].1,
    decreases n,
{
    let before = tables_of(rows, relids, (n - 1) as nat);
    let all = tables_of(rows, relids, n);
    let relations = rows[n - 1].spec.relations;
    lemma_only_of(before, relations, relids, relations.len(), t);
    if before.contains(all[t]) {
        let k = choose|k: int| 0 <= k < before.len() && before[k] == all[t];
        law_only_refreshed_tables_are_locked(rows, relids, (n - 1) as nat, k);
    }
}

proof fn lemma_only_of(
    names: Seq<(u32, Seq<char>)>,
    relations: Seq<BaseModel>,
    relids: Set<u32>,
    n: nat,
    t: int,
)
    requires
        n <= relations.len(),
        0 <= t < with_tables(names, relations, relids, n).len(),
    ensures
        ({
            let x = with_tables(names, relations, relids, n)[t];
            names.contains(x) || (relids.contains(x.0) && exists|i: int|
                0 <= i < n && (#[trigger] relations[i]).oid == x.0 && relations[i].qualified
                    == x.1)
        }),
    decreases n,
{
    if n > 0 {
        let before = with_tables(names, relations, relids, (n - 1) as nat);
        let after = with_tables(names, relations, relids, n);
        let r = relations[n - 1];
        lemma_rank(before, r.oid);
        let at = rank(before, r.oid) as int;
        if after == before {
            lemma_only_of(names, relations, relids, (n - 1) as nat, t);
        } else if t < at {
            assert(after[t] == before[t]);
            lemma_only_of(names, relations, relids, (n - 1) as nat, t);
        } else if t == at {
            assert(after[t] == (r.oid, r.qualified));
            assert(relations[n - 1].oid == after[t].0);
        } else {
            assert(after[t] == before[t - 1]);
            lemma_only_of(names, relations, relids, (n - 1) as nat, t - 1);
        }
    }
}

proof fn lemma_refill_in(rows: Seq<RowModel>, n: nat, v: int) -> (at: int)
    requires
        0 <= v < n <= rows.len(),
    ensures
        runs_at(
            all_refills(rows, n),
            refill_statements(rows[v].id, rows[v].name, rows[v].spec),
            at,
        ),
    decreases n,
{
    let part = refill_statements(rows[v].id, rows[v].name, rows[v].spec);
    let before = all_refills(rows, (n - 1) as nat);
    let all = all_refills(rows, n);
    if v < n - 1 {
        let at = lemma_refill_in(rows, (n - 1) as nat, v);
        assert(all.subrange(at, at + part.len()) =~= before.subrange(at, at + part.len()));
        at
    } else {
        let at = before.len() as int;
        assert(all.subrange(at, at + part.len()) =~= part);
        at
    }
}

/// Whether a relation is among the first `n`.
pub open spec fn has_relation(relations: Seq<BaseModel>, n: nat, oid: u32) -> bool {
    exists|i: int| 0 <= i < n && (#[trigger] relations[i]).oid == oid
}

proof fn lemma_snapshot_in(relations: Seq<BaseModel>, done: Set<u32>, n: nat, i: int) -> (found: (
    int,
    int,
))
    requires
        0 <= i < n <= relations.len(),
        !done.contains(relations[i].oid),
    ensures
        0 <= found.0 < n,
        relations[found.0].oid == relations[i].oid,
        runs_at(
            snapshots(relations, done, n),
            shadow::snapshot_statements(relations[found.0]),
            found.1,
        ),
    decreases n,
{
    let before = snapshots(relations, done, (n - 1) as nat);
    let all = snapshots(relations, done, n);
    if i < n - 1 {
        let (k, at) = lemma_snapshot_in(relations, done, (n - 1) as nat, i);
        let part = shadow::snapshot_statements(relations[k]);
        assert(all.subrange(at, at + part.len()) =~= before.subrange(at, at + part.len()));
        (k, at)
    } else if built_after(relations, done, (n - 1) as nat).contains(relations[i].oid) {
        let k = lemma_built(relations, done, (n - 1) as nat, relations[i].oid);
        let (m, at) = lemma_snapshot_in(relations, done, (n - 1) as nat, k);
        let part = shadow::snapshot_statements(relations[m]);
        assert(all.subrange(at, at + part.len()) =~= before.subrange(at, at + part.len()));
        (m, at)
    } else {
        let at = before.len() as int;
        let part = shadow::snapshot_statements(relations[i]);
        assert(all.subrange(at, at + part.len()) =~= part);
        (i, at)
    }
}

proof fn lemma_built(relations: Seq<BaseModel>, done: Set<u32>, n: nat, oid: u32) -> (k: int)
    requires
        n <= relations.len(),
        built_after(relations, done, n).contains(oid),
        !done.contains(oid),
    ensures
        0 <= k < n,
        relations[k].oid == oid,
    decreases n,
{
    if relations[n - 1].oid == oid {
        n - 1
    } else {
        lemma_built(relations, done, (n - 1) as nat, oid)
    }
}

proof fn lemma_snapshotted(rows: Seq<RowModel>, n: nat, oid: u32) -> (found: (int, int, int))
    requires
        n <= rows.len(),
        snapshotted(rows, n).contains(oid),
    ensures
        0 <= found.0 < n,
        0 <= found.1 < rows[found.0].spec.relations.len(),
        rows[found.0].spec.relations[found.1].oid == oid,
        runs_at(
            all_snapshots(rows, n),
            shadow::snapshot_statements(rows[found.0].spec.relations[found.1]),
            found.2,
        ),
    decreases n,
{
    let before = all_snapshots(rows, (n - 1) as nat);
    let all = all_snapshots(rows, n);
    let done = snapshotted(rows, (n - 1) as nat);
    if done.contains(oid) {
        let (v, i, at) = lemma_snapshotted(rows, (n - 1) as nat, oid);
        let part = shadow::snapshot_statements(rows[v].spec.relations[i]);
        assert(all.subrange(at, at + part.len()) =~= before.subrange(at, at + part.len()));
        (v, i, at)
    } else {
        let relations = rows[n - 1].spec.relations;
        let k = lemma_built(relations, done, relations.len(), oid);
        let (m, at) = lemma_snapshot_in(relations, done, relations.len(), k);
        let part = shadow::snapshot_statements(relations[m]);
        let here = snapshots(relations, done, relations.len());
        let from = before.len() + at;
        assert(all.subrange(from, from + part.len()) =~= here.subrange(at, at + part.len()));
        (n - 1, m, from)
    }
}

proof fn lemma_all_are_snapshotted(rows: Seq<RowModel>, n: nat, v: int, i: int)
    requires
        0 <= v < n <= rows.len(),
        0 <= i < rows[v].spec.relations.len(),
    ensures
        snapshotted(rows, n).contains(rows[v].spec.relations[i].oid),
    decreases n,
{
    let oid = rows[v].spec.relations[i].oid;
    let done = snapshotted(rows, (n - 1) as nat);
    let relations = rows[n - 1].spec.relations;
    if v < n - 1 {
        lemma_all_are_snapshotted(rows, (n - 1) as nat, v, i);
    }
    lemma_built_holds(relations, done, relations.len(), oid);
    if v == n - 1 {
        assert(has_relation(relations, relations.len(), oid));
    }
}

proof fn lemma_built_holds(relations: Seq<BaseModel>, done: Set<u32>, n: nat, oid: u32)
    requires
        n <= relations.len(),
    ensures
        done.contains(oid) || has_relation(relations, n, oid) ==> built_after(
            relations,
            done,
            n,
        ).contains(oid),
    decreases n,
{
    if n > 0 {
        lemma_built_holds(relations, done, (n - 1) as nat, oid);
        if has_relation(relations, n, oid) {
            let i = choose|i: int| 0 <= i < n && (#[trigger] relations[i]).oid == oid;
            if i < n - 1 {
                assert(has_relation(relations, (n - 1) as nat, oid));
            }
        }
    }
}

/// A cascading refresh snapshots the shadow of every relation of its views, and fills
/// every view anew behind all of that.
pub proof fn law_cascades_refresh_everything(
    rows: Seq<RowModel>,
    relids: Set<u32>,
    v: int,
    i: int,
)
    requires
        0 <= v < rows.len(),
    ensures
        ({
            let run = cascade_statements(rows, relids);
            &&& exists|at: int| #[trigger]
                runs_at(run, refill_statements(rows[v].id, rows[v].name, rows[v].spec), at)
                    && at >= run.len() - all_refills(rows, rows.len()).len()
            &&& 0 <= i < rows[v].spec.relations.len() ==> exists|w: int, k: int, at: int|
                #![trigger rows[w].spec.relations[k], run[at]]
                0 <= w < rows.len() && 0 <= k < rows[w].spec.relations.len()
                    && rows[w].spec.relations[k].oid == rows[v].spec.relations[i].oid && runs_at(
                    run,
                    shadow::snapshot_statements(rows[w].spec.relations[k]),
                    at,
                ) && at < run.len() - all_refills(rows, rows.len()).len()
        }),
{
    let run = cascade_statements(rows, relids);
    let n = rows.len();
    let locks = tables_of(rows, relids, n).map_values(|t: (u32, Seq<char>)| lock_statement(t.1));
    let head = locks + seq![bare("SET LOCAL nabla.internal_write = on"@)];
    let middle = all_snapshots(rows, n);
    let tail = all_refills(rows, n);
    assert(run =~= head + middle + tail);
    let at = lemma_refill_in(rows, n, v);
    let part = refill_statements(rows[v].id, rows[v].name, rows[v].spec);
    let from = head.len() + middle.len() + at;
    assert(run.subrange(from, from + part.len()) =~= tail.subrange(at, at + part.len()));
    assert(runs_at(run, part, from));
    if 0 <= i < rows[v].spec.relations.len() {
        lemma_all_are_snapshotted(rows, n, v, i);
        let (w, k, at) = lemma_snapshotted(rows, n, rows[v].spec.relations[i].oid);
        let part = shadow::snapshot_statements(rows[w].spec.relations[k]);
        let from = head.len() + at;
        assert(run.subrange(from, from + part.len()) =~= middle.subrange(at, at + part.len()));
        assert(runs_at(run, part, from));
        let x = rows[w].spec.relations[k];
        let y = run[from];
    }
}

/// A reader lags exactly where a number that they have not seen is gone from the log, or
/// where the view was filled anew behind them.
pub proof fn law_readers_lag_where_numbers_are_gone(
    view: RowModel,
    oldest: Option<i64>,
    after_seq: i64,
)
    ensures
        lagged(view, oldest, after_seq) <==> after_seq < view.resync_seq || exists|n: int|
            #[trigger] is_gone(view, oldest, n) && after_seq < n,
{
    match oldest {
        Some(first) => {
            assert(is_gone(view, oldest, first - 1));
        },
        None => {
            assert(is_gone(view, oldest, view.last_seq as int));
        },
    }
}

/// Whether a number is no longer in the log: it is in front of the first that is there, or
/// was given out and none is there.
pub open spec fn is_gone(view: RowModel, oldest: Option<i64>, n: int) -> bool {
    match oldest {
        Some(first) => n < first,
        None => n <= view.last_seq,
    }
}

/// What a reader asks for is read from the view's own log, behind the number they give, up
/// to the limit they give; a limit below zero asks for nothing.
pub proof fn law_changes_are_read_behind_the_readers_number(
    view_id: i32,
    after_seq: i64,
    max_rows: i32,
)
    ensures
        ({
            let args = changes_statement(view_id, after_seq, max_rows).args;
            &&& args.len() == 3
            &&& args[0] == ArgModel::Int4(view_id)
            &&& args[1] == ArgModel::Int8(after_seq)
            &&& max_rows >= 0 ==> args[2] == ArgModel::Int8(max_rows as i64)
            &&& max_rows <= 0 ==> args[2] == ArgModel::Int8(0)
        }),
{
}

/// Only a live view reflects more than its stored frontier.
pub proof fn law_only_live_views_are_lifted(
    from: u64,
    to: u64,
    status: Seq<char>,
    frontier: u64,
)
    ensures
        status == "live"@ && 0 < from <= frontier < to ==> frontier_of(
            Some(IdleWindow { from, to }),
            status,
            frontier,
        ) == to,
        status != "live"@ ==> frontier_of(Some(IdleWindow { from, to }), status, frontier)
            == frontier,
        frontier_of(None, status, frontier) == frontier,
{
}

/// Blanks around a view's name do not matter.
pub proof fn law_blanks_around_names_do_not_matter(
    front: Seq<char>,
    name: Seq<char>,
    back: Seq<char>,
)
    requires
        text::is_blank(front),
        text::is_blank(back),
    ensures
        meant(front + name + back) == meant(name),
{
    text::law_white_space_around_does_not_matter(front, name, back);
}

/// A creation that is refused says what is missing first, as a matter of the state that the
/// server or the table is in; only then does it say that the name is taken, which is a matter of
/// the name given.
pub proof fn law_missing_prerequisites_come_first(
    name: Seq<char>,
    spec: SpecModel,
    base: BaseTableModel,
    wal_level: Seq<char>,
    relation_exists: bool,
    view_exists: bool,
)
    requires
        creation_error(name, spec, base, wal_level, relation_exists, view_exists) is Some,
    ensures
        ({
            let report = creation_error(name, spec, base, wal_level, relation_exists, view_exists)->0;
            let without_old_rows = base.replident != "f"@ && spec.shape == Shape::Aggregate
                && spec.relations.len() <= 1;
            let missing = wal_level != "logical"@ || without_old_rows;
            &&& missing <==> report.code == ErrorCode::ObjectNotInPrerequisiteState
            &&& !missing <==> report.code == ErrorCode::InvalidParameterValue
            &&& missing <==> report.hint is Some
            &&& wal_level != "logical"@ ==> has_part(report.message, wal_level) && has_part(
                report.hint->0,
                "wal_level = logical"@,
            )
            &&& wal_level == "logical"@ && without_old_rows ==> has_part(
                report.message,
                base.qualified,
            ) && has_part(report.hint->0, base.qualified + " REPLICA IDENTITY FULL"@)
            &&& !missing ==> has_part(report.message, name)
        }),
{
    lemma_level_said(wal_level);
    lemma_identity_said(base);
    lemma_identity_hinted(base.qualified);
    lemma_exists_said("relation"@, name);
    lemma_exists_said("view"@, name);
}

proof fn lemma_level_said(wal_level: Seq<char>)
    ensures
        has_part(
            "nabla: wal_level must be 'logical' (currently '"@ + wal_level + "')"@,
            wal_level,
        ),
        has_part(
            "Set wal_level = logical in postgresql.conf and restart PostgreSQL."@,
            "wal_level = logical"@,
        ),
{
    let front = "nabla: wal_level must be 'logical' (currently '"@;
    text::lemma_part_of_itself(wal_level);
    text::lemma_part_within(front, wal_level, "')"@, wal_level);
    let hint = "Set wal_level = logical in postgresql.conf and restart PostgreSQL."@;
    reveal_strlit("Set wal_level = logical in postgresql.conf and restart PostgreSQL.");
    reveal_strlit("wal_level = logical");
    assert(hint.subrange(4, 23) =~= "wal_level = logical"@);
    text::lemma_part_at(hint, "wal_level = logical"@, 4);
}

proof fn lemma_identity_hinted(qualified: Seq<char>)
    ensures
        has_part(
            "Run: ALTER TABLE "@ + qualified + " REPLICA IDENTITY FULL;"@,
            qualified + " REPLICA IDENTITY FULL"@,
        ),
{
    reveal_strlit(" REPLICA IDENTITY FULL;");
    reveal_strlit(" REPLICA IDENTITY FULL");
    let front = "Run: ALTER TABLE "@;
    let hint = front + qualified + " REPLICA IDENTITY FULL;"@;
    let part = qualified + " REPLICA IDENTITY FULL"@;
    let n = front.len() as int;
    assert(hint.subrange(n, n + part.len()) =~= part);
    text::lemma_part_at(hint, part, n);
}

/// A view that is stale and a reader that lags are matters of state, and the hint says what to
/// do: refresh that view, or read its current number; an unqualified name is one of the name.
pub proof fn law_reports_can_be_acted_on(name: Seq<char>, reason: Option<Seq<char>>)
    ensures
        stale_report(name, reason).code == ErrorCode::ObjectNotInPrerequisiteState,
        has_part(stale_report(name, reason).hint->0, "nabla.refresh('"@ + name + "')"@),
        lagged_report(name).code == ErrorCode::ObjectNotInPrerequisiteState,
        has_part(lagged_report(name).hint->0, "nabla.current_seq"@),
        unqualified_error(name).code == ErrorCode::InvalidParameterValue,
        unqualified_error(name).hint is Some,
        stale_report(name, reason).hint is Some,
        lagged_report(name).hint is Some,
{
    lemma_refresh_hinted(name);
    lemma_current_hinted();
}

proof fn lemma_refresh_hinted(name: Seq<char>)
    ensures
        has_part(
            "Run nabla.refresh('"@ + name + "') after fixing the cause."@,
            "nabla.refresh('"@ + name + "')"@,
        ),
{
    reveal_strlit("Run nabla.refresh('");
    reveal_strlit("nabla.refresh('");
    reveal_strlit("')");
    reveal_strlit("') after fixing the cause.");
    let hint = "Run nabla.refresh('"@ + name + "') after fixing the cause."@;
    let part = "nabla.refresh('"@ + name + "')"@;
    assert(hint.subrange(4, 4 + part.len() as int) =~= part);
    text::lemma_part_at(hint, part, 4);
}

proof fn lemma_current_hinted()
    ensures
        has_part(
            "Resync from the view table and continue from nabla.current_seq(name)."@,
            "nabla.current_seq"@,
        ),
{
    let hint = "Resync from the view table and continue from nabla.current_seq(name)."@;
    reveal_strlit("Resync from the view table and continue from nabla.current_seq(name).");
    reveal_strlit("nabla.current_seq");
    assert(hint.subrange(45, 62) =~= "nabla.current_seq"@);
    text::lemma_part_at(hint, "nabla.current_seq"@, 45);
}

} // verus!
