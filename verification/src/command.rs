//! The order of effects of `create_view`, `drop_view` and `refresh`. Order
//! matters: the slot comes first (PostgreSQL refuses to create a logical slot in
//! a transaction that has written), then locks, then writes.
//!
//! A `Command` is a list of tasks. It says what to ask or run next and is handed
//! what came back; what it hands out in return is run before it goes on.
use vstd::prelude::*;

use std::collections::BTreeSet;

use crate::api;
use crate::api::{
    cascade_statements, closed_over, create_table_statements, creation_error, drop_statements,
    lock_statement, publish_statements, record_statement, refresh_single, relation_statement,
    released_relids, tables_of, CatalogRow, Membership, RowModel,
};
use crate::definition::{
    BaseModel, BaseRelation, BaseTable, BaseTableModel, Shape, SpecModel, ViewSpec,
};
use crate::errors::{Report, ReportModel};
use crate::poll::one_text;
use crate::quote::Quoting;
use crate::shadow;
use crate::statement::{bare, oid_arg, text_arg, ArgModel, Statement, StatementModel};
use crate::text::{
    has_part, lemma_part_of_itself, lemma_part_right, view_of_option, views,
};
use crate::worker::{PUBLICATION, SLOT};

verus! {

/// One step of a command.
#[allow(inconsistent_fields)]
pub enum Task {
    /// The slot is there, or is created.
    Slot,
    Run { statements: Vec<Statement> },
    /// The shadow of a relation gets one more reference.
    Shadow { rel: BaseRelation },
    /// A table is in the publication.
    Publish { oid: u32 },
    /// A new view is recorded, and its relations under the number it gets.
    Record { statement: Statement, relations: Vec<BaseRelation> },
    /// The shadow of a relation loses a reference.
    Release { oid: u32 },
    /// A table leaves the publication when no view uses it any more.
    Unpublish { oid: u32 },
    /// The views and shadows that a refresh spreads to are found.
    Spread { view_id: i64, relids: Vec<u32> },
    /// These views are refreshed together, with the shadows of these relations.
    Cascade { ids: BTreeSet<i64>, relids: BTreeSet<u32> },
}

#[allow(inconsistent_fields)]
pub enum TaskModel {
    Slot,
    Run { statements: Seq<StatementModel> },
    Shadow { rel: BaseModel },
    Publish { oid: u32 },
    Record { statement: StatementModel, relations: Seq<BaseModel> },
    Release { oid: u32 },
    Unpublish { oid: u32 },
    Spread { view_id: i64, relids: Seq<u32> },
    Cascade { ids: Set<i64>, relids: Set<u32> },
}

impl View for Task {
    type V = TaskModel;

    open spec fn view(&self) -> TaskModel {
        match self {
            Task::Slot => TaskModel::Slot,
            Task::Run { statements } => TaskModel::Run { statements: views(statements@) },
            Task::Shadow { rel } => TaskModel::Shadow { rel: rel@ },
            Task::Publish { oid } => TaskModel::Publish { oid: *oid },
            Task::Record { statement, relations } => TaskModel::Record {
                statement: statement@,
                relations: views(relations@),
            },
            Task::Release { oid } => TaskModel::Release { oid: *oid },
            Task::Unpublish { oid } => TaskModel::Unpublish { oid: *oid },
            Task::Spread { view_id, relids } => TaskModel::Spread {
                view_id: *view_id,
                relids: relids@,
            },
            Task::Cascade { ids, relids } => TaskModel::Cascade { ids: ids@, relids: relids@ },
        }
    }
}

/// A command in progress.
pub struct Command {
    pub tasks: Vec<Task>,
    pub position: usize,
}

pub struct CommandModel {
    pub tasks: Seq<TaskModel>,
    pub position: nat,
}

impl View for Command {
    type V = CommandModel;

    open spec fn view(&self) -> CommandModel {
        CommandModel { tasks: views(self.tasks@), position: self.position as nat }
    }
}

/// What a command asks for.
#[allow(inconsistent_fields)]
pub enum Ask {
    /// Whether the slot exists.
    Slot { query: Statement },
    /// Run the statements.
    Run { statements: Vec<Statement> },
    /// References and stale reason of an existing shadow.
    Shadow { query: Statement },
    /// Whether the publication exists and includes a table; the table's name is
    /// needed where it does not.
    Publication { exists_query: Statement, included_query: Statement, oid: u32 },
    /// Run the statement and tell the number that it returns.
    Record { statement: Statement },
    /// References and stale reason of an existing shadow, to release.
    Release { query: Statement },
    /// Whether a view is based on a table, and whether anything else uses it; the
    /// table's name is needed where neither holds.
    Use { based_query: Statement, used_query: Statement, oid: u32 },
    /// The relations of every view.
    Members { query: Statement },
    /// The catalog rows of these views, in the order of their numbers.
    Rows { ids: BTreeSet<i64> },
    Done,
}

#[allow(inconsistent_fields)]
pub enum AskModel {
    Slot { query: StatementModel },
    Run { statements: Seq<StatementModel> },
    Shadow { query: StatementModel },
    Publication { exists_query: StatementModel, included_query: StatementModel, oid: u32 },
    Record { statement: StatementModel },
    Release { query: StatementModel },
    Use { based_query: StatementModel, used_query: StatementModel, oid: u32 },
    Members { query: StatementModel },
    Rows { ids: Set<i64> },
    Done,
}

impl View for Ask {
    type V = AskModel;

    open spec fn view(&self) -> AskModel {
        match self {
            Ask::Slot { query } => AskModel::Slot { query: query@ },
            Ask::Run { statements } => AskModel::Run { statements: views(statements@) },
            Ask::Shadow { query } => AskModel::Shadow { query: query@ },
            Ask::Publication { exists_query, included_query, oid } => AskModel::Publication {
                exists_query: exists_query@,
                included_query: included_query@,
                oid: *oid,
            },
            Ask::Record { statement } => AskModel::Record { statement: statement@ },
            Ask::Release { query } => AskModel::Release { query: query@ },
            Ask::Use { based_query, used_query, oid } => AskModel::Use {
                based_query: based_query@,
                used_query: used_query@,
                oid: *oid,
            },
            Ask::Members { query } => AskModel::Members { query: query@ },
            Ask::Rows { ids } => AskModel::Rows { ids: ids@ },
            Ask::Done => AskModel::Done,
        }
    }
}

// --- queries ---------------------------------------------------------------------------

pub open spec fn slot_exists_query() -> StatementModel {
    one_text(
        "SELECT EXISTS (SELECT 1 FROM pg_catalog.pg_replication_slots WHERE slot_name = $1)"@,
        SLOT@,
    )
}

pub open spec fn publication_exists_query() -> StatementModel {
    one_text(
        "SELECT EXISTS (SELECT 1 FROM pg_catalog.pg_publication WHERE pubname = $1)"@,
        PUBLICATION@,
    )
}

pub open spec fn included_query(oid: u32) -> StatementModel {
    StatementModel {
        sql: "SELECT EXISTS (SELECT 1 FROM pg_catalog.pg_publication_rel pr JOIN pg_catalog.pg_publication p ON p.oid = pr.prpubid WHERE p.pubname = $1 AND pr.prrelid = $2::oid)"@,
        args: seq![ArgModel::Text(Some(PUBLICATION@)), ArgModel::Int8(oid as i64)],
    }
}

pub open spec fn state_statement(oid: u32) -> StatementModel {
    shadow::on_relation(
        "SELECT refcount, stale_reason FROM nabla.shadows WHERE relid = $1::oid"@,
        oid,
    )
}

/// Views created before `view_relations` existed are covered by `base_table`.
pub open spec fn based_query(oid: u32) -> StatementModel {
    shadow::on_relation(
        "SELECT EXISTS (SELECT 1 FROM nabla.views WHERE base_table = $1::oid::regclass)"@,
        oid,
    )
}

pub open spec fn used_query(oid: u32) -> StatementModel {
    shadow::on_relation(
        "SELECT EXISTS (SELECT 1 FROM nabla.view_relations WHERE relid = $1::oid) OR EXISTS (SELECT 1 FROM nabla.shadows WHERE relid = $1::oid)"@,
        oid,
    )
}

pub open spec fn members_query() -> StatementModel {
    bare(
        "SELECT vr.view_id::int8, vr.relid::int8, jsonb_array_length(v.spec->'relations') > 1 FROM nabla.view_relations vr JOIN nabla.views v ON v.id = vr.view_id"@,
    )
}

fn with_name(sql: &str, name: &str) -> (result: Statement)
    ensures
        result@ == one_text(sql@, name@),
{
    let s = Statement { sql: sql.to_string(), args: vec![text_arg(name)] };
    assert(s@.args =~= seq![ArgModel::Text(Some(name@))]);
    s
}

fn with_oid(sql: &str, oid: u32) -> (result: Statement)
    ensures
        result@ == shadow::on_relation(sql@, oid),
{
    let s = Statement { sql: sql.to_string(), args: vec![oid_arg(oid)] };
    assert(s@.args =~= seq![ArgModel::Int8(oid as i64)]);
    s
}

// --- the lists of tasks ------------------------------------------------------------------

pub open spec fn shadow_tasks(relations: Seq<BaseModel>) -> Seq<TaskModel> {
    if relations.len() > 1 {
        relations.map_values(|r: BaseModel| TaskModel::Shadow { rel: r })
    } else {
        Seq::empty()
    }
}

pub open spec fn publish_tasks(relations: Seq<BaseModel>) -> Seq<TaskModel> {
    relations.map_values(|r: BaseModel| TaskModel::Publish { oid: r.oid })
}

/// What a new view takes: the slot first (no writes yet), then a brief write
/// pause on the base tables (SHARE waits for in-flight writers to finish, so that
/// the starting snapshot is exact and shared by the view table and every shadow),
/// then the shadows of a join, the publication, the table and the records.
pub open spec fn creation_tasks(
    name: Seq<char>,
    spec: SpecModel,
    base_oid: u32,
    definition: Seq<char>,
    spec_json: Seq<char>,
    quoting: spec_fn(Seq<char>) -> Seq<char>,
) -> Seq<TaskModel> {
    seq![
        TaskModel::Slot,
        TaskModel::Run {
            statements: spec.relations.map_values(|r: BaseModel| lock_statement(r.qualified)),
        },
    ] + shadow_tasks(spec.relations) + publish_tasks(spec.relations) + seq![
        TaskModel::Run { statements: create_table_statements(name, spec, quoting) },
        TaskModel::Record {
            statement: record_statement(name, base_oid, definition, spec.shape, spec_json),
            relations: spec.relations,
        },
    ]
}

/// What dropping a view takes: the table and the record go, then the references
/// of a join to its shadows, then tables that nothing uses any more leave the
/// publication.
pub open spec fn drop_tasks(view: RowModel, name: Seq<char>) -> Seq<TaskModel> {
    let relids = released_relids(view);
    seq![TaskModel::Run { statements: drop_statements(view, name) }] + (if view.spec.relations.len()
        > 1 {
        relids.map_values(|oid: u32| TaskModel::Release { oid })
    } else {
        Seq::empty()
    }) + relids.map_values(|oid: u32| TaskModel::Unpublish { oid })
}

/// What a refresh takes: the slot first, which may have been dropped for lag; then
/// the one view, or everything that shares a shadow with it.
pub open spec fn refresh_tasks(view: RowModel, name: Seq<char>) -> Seq<TaskModel> {
    if view.spec.relations.len() > 1 {
        seq![
            TaskModel::Slot,
            TaskModel::Spread { view_id: view.id as i64, relids: released_relids(view) },
        ]
    } else {
        seq![
            TaskModel::Slot,
            TaskModel::Publish { oid: view.base_oid },
            TaskModel::Run { statements: refresh_single(view, name) },
        ]
    }
}

/// What a refresh of several views takes: every table is in the publication, then
/// everything is re-snapshotted under SHARE locks, in one transaction.
pub open spec fn cascade_tasks(rows: Seq<RowModel>, relids: Set<u32>) -> Seq<TaskModel> {
    tables_of(rows, relids, rows.len()).map_values(
        |t: (u32, Seq<char>)| TaskModel::Publish { oid: t.0 },
    ) + seq![TaskModel::Run { statements: cascade_statements(rows, relids) }]
}

/// Create a view, unless something stands against it.
pub fn create_view(
    name: &str,
    spec: &ViewSpec,
    base: &BaseTable,
    definition: &str,
    spec_json: &str,
    wal_level: &str,
    relation_exists: bool,
    view_exists: bool,
    quoting: &Quoting,
) -> (result: Result<Command, Report>)
    ensures
        match result {
            Ok(command) => creation_error(
                name@,
                spec@,
                base@,
                wal_level@,
                relation_exists,
                view_exists,
            ) is None && command@ == (CommandModel {
                tasks: creation_tasks(
                    name@,
                    spec@,
                    base.oid,
                    definition@,
                    spec_json@,
                    quoting@,
                ),
                position: 0,
            }),
            Err(report) => creation_error(
                name@,
                spec@,
                base@,
                wal_level@,
                relation_exists,
                view_exists,
            ) == Some(report@),
        },
{
    match api::check_creation(name, spec, base, wal_level, relation_exists, view_exists) {
        Ok(()) => {},
        Err(report) => return Err(report),
    }
    let ghost relations = spec@.relations;
    let mut tasks = vec![Task::Slot, Task::Run { statements: api::lock_relations(spec) }];
    let ghost head = views(tasks@);
    assert(head =~= seq![
        TaskModel::Slot,
        TaskModel::Run {
            statements: relations.map_values(|r: BaseModel| lock_statement(r.qualified)),
        },
    ]);
    if spec.is_join() {
        let mut i: usize = 0;
        assert(head =~= head + shadow_tasks(relations).take(0));
        while i < spec.relations.len()
            invariant
                relations == spec@.relations,
                relations.len() > 1,
                i <= spec.relations@.len(),
                views(tasks@) == head + shadow_tasks(relations).take(i as int),
            decreases spec.relations@.len() - i,
        {
            let ghost before = views(tasks@);
            assert(relations[i as int] == spec.relations@[i as int]@);
            let rel = spec.relations[i].clone();
            tasks.push(Task::Shadow { rel });
            assert(views(tasks@) =~= before.push(shadow_tasks(relations)[i as int]));
            i = i + 1;
            assert(views(tasks@) =~= head + shadow_tasks(relations).take(i as int));
        }
        assert(shadow_tasks(relations).take(i as int) =~= shadow_tasks(relations));
    }
    let ghost shadowed = head + shadow_tasks(relations);
    assert(views(tasks@) =~= shadowed);
    let mut k: usize = 0;
    assert(shadowed =~= shadowed + publish_tasks(relations).take(0));
    while k < spec.relations.len()
        invariant
            relations == spec@.relations,
            k <= spec.relations@.len(),
            views(tasks@) == shadowed + publish_tasks(relations).take(k as int),
        decreases spec.relations@.len() - k,
    {
        let ghost before = views(tasks@);
        assert(relations[k as int] == spec.relations@[k as int]@);
        tasks.push(Task::Publish { oid: spec.relations[k].oid });
        assert(views(tasks@) =~= before.push(publish_tasks(relations)[k as int]));
        k = k + 1;
        assert(views(tasks@) =~= shadowed + publish_tasks(relations).take(k as int));
    }
    assert(publish_tasks(relations).take(k as int) =~= publish_tasks(relations));
    let ghost published = views(tasks@);
    let table = Task::Run { statements: api::create_table(name, spec, quoting) };
    let ghost made = table@;
    tasks.push(table);
    let copies = spec.relations.clone();
    assert(views(copies@) =~= relations);
    let record = Task::Record {
        statement: api::record_view(name, base, definition, spec.shape, spec_json),
        relations: copies,
    };
    let ghost noted = record@;
    tasks.push(record);
    assert(views(tasks@) =~= published + seq![made, noted]);
    let command = Command { tasks, position: 0 };
    assert(command@.tasks =~= creation_tasks(
        name@,
        spec@,
        base.oid,
        definition@,
        spec_json@,
        quoting@,
    ));
    Ok(command)
}

/// Drop a view.
pub fn drop_view(view: &CatalogRow, name: &str) -> (result: Command)
    ensures
        result@ == (CommandModel { tasks: drop_tasks(view@, name@), position: 0 }),
{
    let relids = api::relids_of(view);
    let ghost releases = relids@.map_values(|oid: u32| TaskModel::Release { oid });
    let ghost leaves = relids@.map_values(|oid: u32| TaskModel::Unpublish { oid });
    let mut tasks = vec![Task::Run { statements: api::forget_view(view, name) }];
    let ghost head = views(tasks@);
    assert(head =~= seq![TaskModel::Run { statements: drop_statements(view@, name@) }]);
    if view.spec.is_join() {
        let mut i: usize = 0;
        assert(head =~= head + releases.take(0));
        while i < relids.len()
            invariant
                releases == relids@.map_values(|oid: u32| TaskModel::Release { oid }),
                i <= relids@.len(),
                views(tasks@) == head + releases.take(i as int),
            decreases relids@.len() - i,
        {
            let ghost before = views(tasks@);
            tasks.push(Task::Release { oid: relids[i] });
            assert(views(tasks@) =~= before.push(releases[i as int]));
            i = i + 1;
            assert(views(tasks@) =~= head + releases.take(i as int));
        }
        assert(releases.take(i as int) =~= releases);
    }
    let ghost released = views(tasks@);
    let mut k: usize = 0;
    assert(released =~= released + leaves.take(0));
    while k < relids.len()
        invariant
            leaves == relids@.map_values(|oid: u32| TaskModel::Unpublish { oid }),
            k <= relids@.len(),
            views(tasks@) == released + leaves.take(k as int),
        decreases relids@.len() - k,
    {
        let ghost before = views(tasks@);
        tasks.push(Task::Unpublish { oid: relids[k] });
        assert(views(tasks@) =~= before.push(leaves[k as int]));
        k = k + 1;
        assert(views(tasks@) =~= released + leaves.take(k as int));
    }
    assert(leaves.take(k as int) =~= leaves);
    let command = Command { tasks, position: 0 };
    assert(command@.tasks =~= drop_tasks(view@, name@));
    command
}

/// Refresh a view, and everything that shares a shadow with it.
pub fn refresh(view: &CatalogRow, name: &str) -> (result: Command)
    ensures
        result@ == (CommandModel { tasks: refresh_tasks(view@, name@), position: 0 }),
{
    let tasks = if view.spec.is_join() {
        vec![
            Task::Slot,
            Task::Spread { view_id: view.id as i64, relids: api::relids_of(view) },
        ]
    } else {
        vec![
            Task::Slot,
            Task::Publish { oid: view.base_oid },
            Task::Run { statements: api::refill_single(view, name) },
        ]
    };
    let command = Command { tasks, position: 0 };
    assert(command@.tasks =~= refresh_tasks(view@, name@));
    command
}

// --- running a command ---------------------------------------------------------------------

/// What a command asks for now.
pub open spec fn ask_of(m: CommandModel) -> AskModel {
    if m.position >= m.tasks.len() {
        AskModel::Done
    } else {
        match m.tasks[m.position as int] {
            TaskModel::Slot => AskModel::Slot { query: slot_exists_query() },
            TaskModel::Run { statements } => AskModel::Run { statements },
            TaskModel::Shadow { rel } => AskModel::Shadow { query: state_statement(rel.oid) },
            TaskModel::Publish { oid } => AskModel::Publication {
                exists_query: publication_exists_query(),
                included_query: included_query(oid),
                oid,
            },
            TaskModel::Record { statement, relations } => AskModel::Record { statement },
            TaskModel::Release { oid } => AskModel::Release { query: state_statement(oid) },
            TaskModel::Unpublish { oid } => AskModel::Use {
                based_query: based_query(oid),
                used_query: used_query(oid),
                oid,
            },
            TaskModel::Spread { view_id, relids } => AskModel::Members {
                query: members_query(),
            },
            TaskModel::Cascade { ids, relids } => AskModel::Rows { ids },
        }
    }
}

/// The task at hand.
pub open spec fn at_hand(m: CommandModel) -> Option<TaskModel> {
    if m.position < m.tasks.len() {
        Some(m.tasks[m.position as int])
    } else {
        None
    }
}

/// The command behind the task at hand.
pub open spec fn moved(m: CommandModel) -> CommandModel {
    CommandModel { position: m.position + 1, ..m }
}

/// The smallest set of views and relations that a refresh can stop at.
pub open spec fn is_closure(
    members: Seq<Membership>,
    view_id: i64,
    relids: Seq<u32>,
    live: Set<i64>,
    rels: Set<u32>,
) -> bool {
    &&& closed_over(members, view_id, relids, live, rels)
    &&& forall|v: Set<i64>, r: Set<u32>| #[trigger]
        closed_over(members, view_id, relids, v, r) ==> live.subset_of(v) && rels.subset_of(r)
}

/// Whether the views and relations of a cascade are those that a refresh spreads
/// to.
pub open spec fn spreads_to(task: TaskModel, members: Seq<Membership>, cascade: TaskModel) -> bool {
    match (task, cascade) {
        (
            TaskModel::Spread { view_id, relids },
            TaskModel::Cascade { ids, relids: rels },
        ) => is_closure(members, view_id, relids, ids, rels),
        _ => false,
    }
}

/// Whether a task records a view whose relations' positions can be written.
pub open spec fn can_record(task: TaskModel) -> bool {
    match task {
        TaskModel::Record { statement, relations } => all_placed(relations),
        _ => false,
    }
}

/// Whether the positions of relations can be written.
pub open spec fn all_placed(relations: Seq<BaseModel>) -> bool {
    forall|i: int| 0 <= i < relations.len() ==> (#[trigger] relations[i]).rti <= i32::MAX
}

/// What takes a table out of the publication, where nothing uses it any more.
pub open spec fn unpublish_statement(
    based: bool,
    used: bool,
    table: Seq<char>,
    quoting: spec_fn(Seq<char>) -> Seq<char>,
) -> Option<StatementModel> {
    if based || used {
        None
    } else {
        Some(bare("ALTER PUBLICATION "@ + quoting(PUBLICATION@) + " DROP TABLE "@ + table))
    }
}

impl Command {
    fn advance(&mut self)
        requires
            old(self)@.position < old(self)@.tasks.len(),
        ensures
            final(self)@ == moved(old(self)@),
    {
        assert(self.tasks.len() == self.tasks@.len());
        self.position = self.position + 1;
    }

    /// What to ask for or run now.
    pub fn next(&self) -> (result: Ask)
        ensures
            result@ == ask_of(self@),
    {
        if self.position >= self.tasks.len() {
            return Ask::Done;
        }
        let task = &self.tasks[self.position];
        assert(self@.tasks[self.position as int] == task@);
        match task {
            Task::Slot => Ask::Slot {
                query: with_name(
                    "SELECT EXISTS (SELECT 1 FROM pg_catalog.pg_replication_slots WHERE slot_name = $1)",
                    SLOT,
                ),
            },
            Task::Run { statements } => {
                let copies = statements.clone();
                assert(views(copies@) =~= views(statements@));
                Ask::Run { statements: copies }
            },
            Task::Shadow { rel } => Ask::Shadow { query: shadow::state_query(rel.oid) },
            Task::Publish { oid } => {
                let included = Statement {
                    sql: "SELECT EXISTS (SELECT 1 FROM pg_catalog.pg_publication_rel pr JOIN pg_catalog.pg_publication p ON p.oid = pr.prpubid WHERE p.pubname = $1 AND pr.prrelid = $2::oid)".to_string(),
                    args: vec![text_arg(PUBLICATION), oid_arg(*oid)],
                };
                assert(included@.args =~= included_query(*oid).args);
                Ask::Publication {
                    exists_query: with_name(
                        "SELECT EXISTS (SELECT 1 FROM pg_catalog.pg_publication WHERE pubname = $1)",
                        PUBLICATION,
                    ),
                    included_query: included,
                    oid: *oid,
                }
            },
            Task::Record { statement, .. } => Ask::Record { statement: statement.clone() },
            Task::Release { oid } => Ask::Release { query: shadow::state_query(*oid) },
            Task::Unpublish { oid } => Ask::Use {
                based_query: with_oid(
                    "SELECT EXISTS (SELECT 1 FROM nabla.views WHERE base_table = $1::oid::regclass)",
                    *oid,
                ),
                used_query: with_oid(
                    "SELECT EXISTS (SELECT 1 FROM nabla.view_relations WHERE relid = $1::oid) OR EXISTS (SELECT 1 FROM nabla.shadows WHERE relid = $1::oid)",
                    *oid,
                ),
                oid: *oid,
            },
            Task::Spread { .. } => Ask::Members {
                query: Statement::bare(
                    "SELECT vr.view_id::int8, vr.relid::int8, jsonb_array_length(v.spec->'relations') > 1 FROM nabla.view_relations vr JOIN nabla.views v ON v.id = vr.view_id".to_string(),
                ),
            },
            Task::Cascade { ids, .. } => Ask::Rows { ids: ids.clone() },
        }
    }

    /// Whether the slot exists: what creates it, if it does not. It has to run
    /// before the transaction writes, and must not write itself.
    pub fn slot(&mut self, exists_already: bool) -> (result: Option<Statement>)
        requires
            at_hand(old(self)@) matches Some(task) && task is Slot,
        ensures
            final(self)@ == moved(old(self)@),
            view_of_option(result) == if exists_already {
                None
            } else {
                Some(
                    one_text(
                        "SELECT pg_catalog.pg_create_logical_replication_slot($1, 'pgoutput')"@,
                        SLOT@,
                    ),
                )
            },
    {
        self.advance();
        api::ensure_slot(exists_already)
    }

    /// The statements were run.
    pub fn ran(&mut self)
        requires
            at_hand(old(self)@) matches Some(task) && task is Run,
        ensures
            final(self)@ == moved(old(self)@),
    {
        self.advance();
    }

    /// The state of a shadow: what brings it about for one more view.
    pub fn shadow(&mut self, state: Option<(i32, Option<String>)>, quoting: &Quoting) -> (result:
        Vec<Statement>)
        requires
            at_hand(old(self)@) matches Some(task) && task is Shadow,
        ensures
            final(self)@ == moved(old(self)@),
            at_hand(old(self)@) matches Some(TaskModel::Shadow { rel }) && views(result@)
                == shadow::ensured(rel, shadow::state_model(state), quoting@),
    {
        let task = &self.tasks[self.position];
        assert(self@.tasks[self.position as int] == task@);
        let statements = match task {
            Task::Shadow { rel } => shadow::ensure(rel, state, quoting),
            _ => Vec::new(),
        };
        self.advance();
        statements
    }

    /// Whether the publication exists and includes the table.
    pub fn publication(
        &mut self,
        exists_already: bool,
        included: bool,
        table: &str,
        quoting: &Quoting,
    ) -> (result: Vec<Statement>)
        requires
            at_hand(old(self)@) matches Some(task) && task is Publish,
        ensures
            final(self)@ == moved(old(self)@),
            views(result@) == publish_statements(exists_already, included, table@, quoting@),
    {
        self.advance();
        api::ensure_publication_includes(exists_already, included, table, quoting)
    }

    /// The view was recorded under this number: its relations are.
    pub fn recorded(&mut self, view_id: i32) -> (result: Vec<Statement>)
        requires
            at_hand(old(self)@) matches Some(task) && can_record(task),
        ensures
            final(self)@ == moved(old(self)@),
            at_hand(old(self)@) matches Some(TaskModel::Record { statement, relations })
                && views(result@) == relations.map_values(
                |r: BaseModel| relation_statement(view_id, r),
            ),
    {
        let task = &self.tasks[self.position];
        assert(self@.tasks[self.position as int] == task@);
        let statements = match task {
            Task::Record { statement, relations } => {
                proof {
                    let models = views(relations@);
                    assert(at_hand(old(self)@) == Some(
                        TaskModel::Record { statement: statement@, relations: models },
                    ));
                    assert(all_placed(models));
                    assert forall|i: int| 0 <= i < relations@.len() implies (
                    #[trigger] relations@[i]).rti <= i32::MAX by {
                        assert(models[i] == relations@[i]@);
                        assert(models[i].rti <= i32::MAX);
                    }
                }
                api::record_relations(view_id, relations)
            },
            _ => Vec::new(),
        };
        self.advance();
        statements
    }

    /// The state of a shadow: what drops one reference to it.
    pub fn released(&mut self, state: Option<(i32, Option<String>)>) -> (result: Vec<Statement>)
        requires
            at_hand(old(self)@) matches Some(task) && task is Release,
        ensures
            final(self)@ == moved(old(self)@),
            at_hand(old(self)@) matches Some(TaskModel::Release { oid }) && views(result@)
                == shadow::released(oid, shadow::state_model(state)).0,
    {
        let task = &self.tasks[self.position];
        assert(self@.tasks[self.position as int] == task@);
        let statements = match task {
            Task::Release { oid } => {
                let (statements, _) = shadow::release(*oid, state);
                statements
            },
            _ => Vec::new(),
        };
        self.advance();
        statements
    }

    /// Whether a view is based on the table, or anything else uses it.
    pub fn used(&mut self, based: bool, used: bool, table: &str, quoting: &Quoting) -> (result:
        Option<Statement>)
        requires
            at_hand(old(self)@) matches Some(task) && task is Unpublish,
        ensures
            final(self)@ == moved(old(self)@),
            view_of_option(result) == unpublish_statement(based, used, table@, quoting@),
    {
        self.advance();
        api::release_publication(based || used, table, quoting)
    }

    /// The relations of every view: how far the refresh spreads.
    pub fn members(&mut self, members: &Vec<Membership>)
        requires
            at_hand(old(self)@) matches Some(task) && task is Spread,
        ensures
            final(self)@.position == old(self)@.position + 1,
            final(self)@.tasks == old(self)@.tasks.push(final(self)@.tasks.last()),
            spreads_to(at_hand(old(self)@)->0, members@, final(self)@.tasks.last()),
    {
        let ghost before = views(self.tasks@);
        let task = &self.tasks[self.position];
        assert(self@.tasks[self.position as int] == task@);
        let (ids, relids) = match task {
            Task::Spread { view_id, relids } => api::refresh_closure(*view_id, relids, members),
            _ => (BTreeSet::new(), BTreeSet::new()),
        };
        self.advance();
        let cascade = Task::Cascade { ids, relids };
        let ghost added = cascade@;
        self.tasks.push(cascade);
        assert(views(self.tasks@) =~= before.push(added));
    }

    /// The catalog rows of the views that are refreshed together.
    pub fn rows(&mut self, rows: &Vec<CatalogRow>)
        requires
            at_hand(old(self)@) matches Some(task) && task is Cascade,
        ensures
            at_hand(old(self)@) matches Some(TaskModel::Cascade { ids, relids }) && final(self)@
                == (CommandModel {
                tasks: old(self)@.tasks + cascade_tasks(views(rows@), relids),
                position: old(self)@.position + 1,
            }),
    {
        let ghost before = views(self.tasks@);
        let ghost models = views(rows@);
        let task = &self.tasks[self.position];
        assert(self@.tasks[self.position as int] == task@);
        let (names, statements, Ghost(rels)): (Vec<(u32, String)>, Vec<Statement>, Ghost<Set<u32>>) =
            match task {
            Task::Cascade { ids, relids } => (
                api::tables_to_lock(rows, relids),
                api::refresh_cascade(rows, relids),
                Ghost(relids@),
            ),
            _ => (Vec::new(), Vec::new(), Ghost(Set::empty())),
        };
        self.advance();
        let ghost position = self.position;
        let ghost tables = tables_of(models, rels, models.len());
        let ghost publish = tables.map_values(
            |t: (u32, Seq<char>)| TaskModel::Publish { oid: t.0 },
        );
        let mut i: usize = 0;
        assert(before =~= before + publish.take(0));
        while i < names.len()
            invariant
                self.position == position,
                api::table_models(names@) == tables,
                names@.len() == tables.len(),
                publish == tables.map_values(
                    |t: (u32, Seq<char>)| TaskModel::Publish { oid: t.0 },
                ),
                i <= names@.len(),
                views(self.tasks@) == before + publish.take(i as int),
            decreases names@.len() - i,
        {
            let ghost so_far = views(self.tasks@);
            assert(api::table_models(names@)[i as int].0 == names@[i as int].0);
            self.tasks.push(Task::Publish { oid: names[i].0 });
            assert(views(self.tasks@) =~= so_far.push(publish[i as int]));
            i = i + 1;
            assert(views(self.tasks@) =~= before + publish.take(i as int));
        }
        assert(publish.take(i as int) =~= publish);
        let run = Task::Run { statements };
        let ghost last = run@;
        self.tasks.push(run);
        assert(views(self.tasks@) =~= (before + publish).push(last));
        assert(cascade_tasks(models, rels) =~= publish + seq![last]);
        assert(views(self.tasks@) =~= before + cascade_tasks(models, rels));
    }
}

// --- laws ------------------------------------------------------------------------------

/// A task that writes, or may write.
pub open spec fn may_write(task: TaskModel) -> bool {
    !(task is Slot || task is Spread || task is Cascade)
}

/// The slot is asked for before anything is written, by a command that needs one;
/// and the base tables of a new view are locked before anything else is.
pub proof fn law_slots_come_before_writes(
    name: Seq<char>,
    spec: SpecModel,
    base_oid: u32,
    definition: Seq<char>,
    spec_json: Seq<char>,
    view: RowModel,
    quoting: spec_fn(Seq<char>) -> Seq<char>,
)
    ensures
        ({
            let tasks = creation_tasks(name, spec, base_oid, definition, spec_json, quoting);
            &&& tasks[0] is Slot
            &&& tasks[1] == (TaskModel::Run {
                statements: spec.relations.map_values(
                    |r: BaseModel| lock_statement(r.qualified),
                ),
            })
            &&& forall|i: int| 2 <= i < tasks.len() ==> may_write(#[trigger] tasks[i])
        }),
        refresh_tasks(view, name)[0] is Slot,
        forall|i: int|
            1 <= i < refresh_tasks(view, name).len() ==> !(#[trigger] refresh_tasks(view, name)[i]
                is Slot),
{
    let tasks = creation_tasks(name, spec, base_oid, definition, spec_json, quoting);
    assert(tasks[0] is Slot);
}

/// A refresh that spreads puts every table into the publication before it locks or
/// writes anything, and runs everything else as one list of statements.
pub proof fn law_cascades_publish_first(rows: Seq<RowModel>, relids: Set<u32>, i: int)
    requires
        0 <= i < cascade_tasks(rows, relids).len(),
    ensures
        if i < tables_of(rows, relids, rows.len()).len() {
            cascade_tasks(rows, relids)[i] == (TaskModel::Publish {
                oid: tables_of(rows, relids, rows.len())[i].0,
            })
        } else {
            i == cascade_tasks(rows, relids).len() - 1 && cascade_tasks(rows, relids)[i] == (
            TaskModel::Run { statements: cascade_statements(rows, relids) })
        },
{
}

/// Whether a command has a task between two places.
pub open spec fn has_task(tasks: Seq<TaskModel>, task: TaskModel, from: int, to: int) -> bool {
    exists|k: int| from <= k < to && #[trigger] tasks[k] == task
}

/// A new view locks every relation; the shadows of a join all get one more reference, a
/// single table has none; every relation comes into the publication; then the table is made
/// and the view recorded, with all its relations.
pub proof fn law_creations_cover_every_relation(
    name: Seq<char>,
    spec: SpecModel,
    base_oid: u32,
    definition: Seq<char>,
    spec_json: Seq<char>,
    quoting: spec_fn(Seq<char>) -> Seq<char>,
    i: int,
)
    requires
        0 <= i < spec.relations.len(),
    ensures
        ({
            let tasks = creation_tasks(name, spec, base_oid, definition, spec_json, quoting);
            let n = tasks.len() as int;
            let rel = spec.relations[i];
            &&& tasks[0] is Slot
            &&& tasks[1] matches TaskModel::Run { statements } && statements.len()
                == spec.relations.len() && has_part(
                statements[i].sql,
                "LOCK TABLE "@ + rel.qualified,
            )
            &&& spec.relations.len() > 1 <==> has_task(tasks, TaskModel::Shadow { rel }, 2, n - 2)
            &&& has_task(tasks, TaskModel::Publish { oid: rel.oid }, 2, n - 2)
            &&& tasks[n - 2] == (TaskModel::Run {
                statements: create_table_statements(name, spec, quoting),
            })
            &&& tasks[n - 1] == (TaskModel::Record {
                statement: record_statement(name, base_oid, definition, spec.shape, spec_json),
                relations: spec.relations,
            })
        }),
{
    let tasks = creation_tasks(name, spec, base_oid, definition, spec_json, quoting);
    let n = tasks.len() as int;
    let rel = spec.relations[i];
    let shadows = shadow_tasks(spec.relations);
    let publish = publish_tasks(spec.relations);
    if spec.relations.len() > 1 {
        assert(shadows[i] == (TaskModel::Shadow { rel }));
        assert(tasks[2 + i] == shadows[i]);
        assert(has_task(tasks, TaskModel::Shadow { rel }, 2, n - 2));
    } else {
        assert forall|k: int| 2 <= k < n - 2 implies #[trigger] tasks[k] != (TaskModel::Shadow {
            rel,
        }) by {
            assert(tasks[k] == publish[k - 2]);
        }
    }
    assert(publish[i] == (TaskModel::Publish { oid: rel.oid }));
    assert(tasks[2 + shadows.len() + i] == publish[i]);
    assert(has_task(tasks, TaskModel::Publish { oid: rel.oid }, 2, n - 2));
    api::lemma_lock_text(rel.qualified);
}

/// A dropped view's table and record go first; then a join releases the shadow of every
/// relation, and every relation leaves the publication where nothing else uses it.
pub proof fn law_drops_release_every_relation(view: RowModel, name: Seq<char>, i: int)
    requires
        0 <= i < released_relids(view).len(),
    ensures
        ({
            let tasks = drop_tasks(view, name);
            let n = tasks.len() as int;
            let oid = released_relids(view)[i];
            let join = view.spec.relations.len() > 1;
            &&& tasks[0] == (TaskModel::Run { statements: drop_statements(view, name) })
            &&& join <==> has_task(tasks, TaskModel::Release { oid }, 1, n)
            &&& has_task(tasks, TaskModel::Unpublish { oid }, 1, n)
            &&& forall|a: int, b: int|
                0 <= a < n && 0 <= b < n && (#[trigger] tasks[a]) is Release && (
                #[trigger] tasks[b]) is Unpublish ==> a < b
        }),
{
    let tasks = drop_tasks(view, name);
    let n = tasks.len() as int;
    let relids = released_relids(view);
    let oid = relids[i];
    let releases = relids.map_values(|oid: u32| TaskModel::Release { oid });
    let leaves = relids.map_values(|oid: u32| TaskModel::Unpublish { oid });
    let join = view.spec.relations.len() > 1;
    let skipped = if join {
        releases.len() as int
    } else {
        0
    };
    assert(leaves[i] == (TaskModel::Unpublish { oid }));
    assert(tasks[1 + skipped + i] == leaves[i]);
    if join {
        assert(releases[i] == (TaskModel::Release { oid }));
        assert(tasks[1 + i] == releases[i]);
    }
    assert forall|k: int| 1 <= k < n implies #[trigger] tasks[k] == (if k < 1 + skipped {
        releases[k - 1]
    } else {
        leaves[k - 1 - skipped]
    }) by {}
}

/// A join view is refreshed with everything that shares a shadow with it, from its own
/// relations on; another one alone, and its base table is published first.
pub proof fn law_refreshes_begin_at_the_view(view: RowModel, name: Seq<char>)
    ensures
        ({
            let tasks = refresh_tasks(view, name);
            &&& view.spec.relations.len() > 1 ==> tasks.len() == 2 && tasks[1] == (
            TaskModel::Spread { view_id: view.id as i64, relids: released_relids(view) })
            &&& view.spec.relations.len() <= 1 ==> tasks.len() == 3 && tasks[1] == (
            TaskModel::Publish { oid: view.base_oid }) && tasks[2] == (TaskModel::Run {
                statements: refresh_single(view, name),
            })
        }),
{
}

/// What a command asks is about the task at hand, and no other: its table, its statement,
/// its views. It is done when no task is left.
pub proof fn law_commands_ask_about_the_task_at_hand(m: CommandModel)
    ensures
        ask_of(m) is Done <==> m.position >= m.tasks.len(),
        at_hand(m) matches Some(task) ==> match task {
            TaskModel::Slot => ask_of(m) is Slot,
            TaskModel::Run { statements } => ask_of(m) == (AskModel::Run { statements }),
            TaskModel::Shadow { rel } => ask_of(m) matches AskModel::Shadow { query }
                && shadow::is_of(query, rel.oid),
            TaskModel::Publish { oid } => ask_of(m) matches AskModel::Publication {
                exists_query,
                included_query,
                oid: asked,
            } && asked == oid && exists_query.args == seq![ArgModel::Text(Some("nabla"@))]
                && included_query.args == seq![
                ArgModel::Text(Some("nabla"@)),
                ArgModel::Int8(oid as i64),
            ],
            TaskModel::Record { statement, relations } => ask_of(m) == (AskModel::Record {
                statement,
            }),
            TaskModel::Release { oid } => ask_of(m) matches AskModel::Release { query }
                && shadow::is_of(query, oid),
            TaskModel::Unpublish { oid } => ask_of(m) matches AskModel::Use {
                based_query,
                used_query,
                oid: asked,
            } && asked == oid && shadow::is_of(based_query, oid) && shadow::is_of(used_query, oid),
            TaskModel::Spread { view_id, relids } => ask_of(m) is Members,
            TaskModel::Cascade { ids, relids } => ask_of(m) == (AskModel::Rows { ids }),
        },
        m.position < m.tasks.len() ==> at_hand(m) == Some(m.tasks[m.position as int]),
        moved(m).position == m.position + 1,
        moved(m).tasks == m.tasks,
{
    if m.position < m.tasks.len() {
        if let TaskModel::Publish { oid } = m.tasks[m.position as int] {
            assert(publication_exists_query().args =~= seq![ArgModel::Text(Some("nabla"@))]);
        }
    }
}

/// A table leaves the publication exactly where no view is based on it and nothing else
/// uses it.
pub proof fn law_used_tables_stay_published(
    based: bool,
    used: bool,
    table: Seq<char>,
    quoting: spec_fn(Seq<char>) -> Seq<char>,
)
    ensures
        unpublish_statement(based, used, table, quoting) is Some <==> !based && !used,
        unpublish_statement(based, used, table, quoting) matches Some(s) ==> has_part(
            s.sql,
            "DROP TABLE "@ + table,
        ) && s.args.len() == 0,
{
    let head = "ALTER PUBLICATION "@ + quoting(PUBLICATION@);
    lemma_leave_text(head, table);
}

proof fn lemma_leave_text(head: Seq<char>, table: Seq<char>)
    ensures
        has_part(head + " DROP TABLE "@ + table, "DROP TABLE "@ + table),
{
    let part = "DROP TABLE "@ + table;
    let sql = head + " DROP TABLE "@ + table;
    assert(sql =~= head + seq![' '] + part) by {
        reveal_strlit(" DROP TABLE ");
        reveal_strlit("DROP TABLE ");
        assert(" DROP TABLE "@ =~= seq![' '] + "DROP TABLE "@);
    }
    assert(has_part(sql, part)) by {
        lemma_part_of_itself(part);
        lemma_part_right(head + seq![' '], part, part);
    }
}

} // verus!
