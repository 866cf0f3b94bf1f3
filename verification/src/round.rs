//! Applying every complete source transaction of a peek in ONE worker
//! transaction, in commit order.
//!
//! Why one transaction per round is correct under deferred transactional
//! consistency: a reader only ever sees the view at the state it had after
//! the last applied source transaction, which is a committed snapshot of the
//! base tables. Committing once per round means readers skip the
//! intermediate committed states of the round; they never see a state that
//! was not committed. The frontier still means "reflects the base tables at
//! this LSN". Per-source-transaction delta batches and netting are unchanged:
//! each source transaction is planned, executed and netted on its own; only
//! the catalog bookkeeping (frontier update, delta insert, notification,
//! garbage collection) happens once per view per round, and the slot is
//! advanced once per round.
//!
//! Failure isolation: each view's execution of each source transaction runs
//! in its own subtransaction, so a failing view rolls back alone; it counts
//! one failure per round and stops absorbing at the failing transaction,
//! while the other views absorb the whole peek. The slot is then held right
//! before the failing transaction, which is retried on the next poll.
//!
//! A `Round` decides; what it asks for is run outside and its reply handed
//! back.
use vstd::prelude::*;

use crate::apply;
use crate::apply::{
    netted, planned_model, resolved_row, Delta, DeltaModel,
    EndModel, Op, OpModel, Plan, PlanEnd, PlanModel, Planned, PlannedModel,
};
use crate::lsn;
use crate::pgoutput;
use crate::pgoutput::{
    Cell, Change, ChangeModel, Relation, RelationModel, SourceTransaction, TransactionModel, Tuple,
};
use crate::quote::Quoting;
use crate::statement::{
    push_notice, texts, Arg, ArgModel, Level, Notice, NoticeModel, Statement, StatementModel,
};
use crate::text;
use crate::text::{decimal, has_part, joined, view_of_option, views};
use crate::worker;
use crate::worker::{
    carried, failed_once_more, failure_notice, failures_allowed, is_active, old_row, old_row_statement, planned_change, relids_of, shadow_failed, shadow_failed_notice, shadow_plan, stale_notice, stale_statement, without_shadow, LiveModel, LiveView, Shadow, ShadowModel, ShadowPlan, ShadowPlanModel,
};

verus! {

/// One delta row waiting for the round's batched insert.
#[derive(Debug, PartialEq, Eq)]
pub struct PendingDelta {
    pub seq: i64,
    pub lsn: u64,
    pub xid: u32,
    pub op: char,
    pub row_json: String,
}

pub struct PendingModel {
    pub seq: i64,
    pub lsn: u64,
    pub xid: u32,
    pub op: char,
    pub row_json: Seq<char>,
}

impl View for PendingDelta {
    type V = PendingModel;

    open spec fn view(&self) -> PendingModel {
        PendingModel {
            seq: self.seq,
            lsn: self.lsn,
            xid: self.xid,
            op: self.op,
            row_json: self.row_json@,
        }
    }
}

/// A piece of a round: one relation of one change, for which every view is
/// planned and the shadow maintained; or the end of a source transaction,
/// where every view's planned rows are executed.
#[derive(Clone, Copy, Debug, PartialEq, Eq, Structural)]
pub enum Unit {
    Change { tx: usize, change: usize, relid: u32 },
    Apply { tx: usize },
}

/// The pieces of a change.
pub open spec fn change_units(tx: int, change: int, relids: Seq<u32>) -> Seq<Unit> {
    relids.map_values(
        |relid: u32| Unit::Change { tx: tx as usize, change: change as usize, relid },
    )
}

/// The pieces of the first `n` changes of a transaction.
pub open spec fn tx_units(tx: int, changes: Seq<ChangeModel>, n: nat) -> Seq<Unit>
    decreases n,
{
    if n == 0 {
        Seq::empty()
    } else {
        tx_units(tx, changes, (n - 1) as nat) + change_units(
            tx,
            n - 1,
            relids_of(changes[n - 1]),
        )
    }
}

/// The pieces of the first `n` transactions.
pub open spec fn all_units(txs: Seq<TransactionModel>, n: nat) -> Seq<Unit>
    decreases n,
{
    if n == 0 {
        Seq::empty()
    } else {
        (all_units(txs, (n - 1) as nat) + tx_units(
            n - 1,
            txs[n - 1].changes,
            txs[n - 1].changes.len(),
        )).push(Unit::Apply { tx: (n - 1) as usize })
    }
}

/// What is done in one stage of a piece: of a change first the old row is
/// fetched from the shadow, then every view is planned, then the shadow is
/// maintained; at the end of a transaction every view is executed, then the
/// transaction is closed.
pub enum Task {
    Fetch { tx: int, change: int, relid: u32 },
    Plan { tx: int, change: int, relid: u32, view: int },
    Maintain { tx: int, change: int, relid: u32 },
    Execute { tx: int, view: int },
    Close { tx: int },
}

/// How many stages a piece has, with `width` views.
pub open spec fn stages(unit: Unit, width: nat) -> nat {
    match unit {
        Unit::Change { .. } => width + 2,
        Unit::Apply { .. } => width + 1,
    }
}

pub open spec fn task_of(unit: Unit, width: nat, stage: nat) -> Task {
    match unit {
        Unit::Change { tx, change, relid } => if stage == 0 {
            Task::Fetch { tx: tx as int, change: change as int, relid }
        } else if stage <= width {
            Task::Plan { tx: tx as int, change: change as int, relid, view: stage - 1 }
        } else {
            Task::Maintain { tx: tx as int, change: change as int, relid }
        },
        Unit::Apply { tx } => if stage < width {
            Task::Execute { tx: tx as int, view: stage as int }
        } else {
            Task::Close { tx: tx as int }
        },
    }
}

/// A round in progress.
pub struct Round {
    pub txs: Vec<SourceTransaction>,
    /// The relations that the changes touch.
    pub relations: Vec<Relation>,
    pub views: Vec<LiveView>,
    pub shadows: Vec<Shadow>,
    pub units: Vec<Unit>,
    pub position: usize,
    pub stage: usize,
    /// The old row of the change at hand, read from the shadow.
    pub old_full: Option<Tuple>,
    /// Why the shadow could not provide it.
    pub shadow_error: Option<String>,
    /// The deltas of each view.
    pub pending: Vec<Vec<PendingDelta>>,
    /// The end of the last transaction that each view absorbed.
    pub absorbed: Vec<Option<u64>>,
    /// Source transactions processed in this round.
    pub processed: usize,
    /// Index of the first transaction some live view could not absorb.
    pub blocked_at: Option<usize>,
    /// What the operator is to be told.
    pub log: Vec<Notice>,
}

pub struct RoundModel {
    pub txs: Seq<TransactionModel>,
    pub relations: Seq<RelationModel>,
    pub views: Seq<LiveModel>,
    pub shadows: Seq<ShadowModel>,
    pub units: Seq<Unit>,
    pub width: nat,
    pub position: nat,
    pub stage: nat,
    pub old_full: Option<Seq<Cell>>,
    pub shadow_error: Option<Seq<char>>,
    pub pending: Seq<Seq<PendingModel>>,
    pub absorbed: Seq<Option<u64>>,
    pub processed: nat,
    pub blocked_at: Option<usize>,
    pub log: Seq<NoticeModel>,
}

pub open spec fn row_model(row: Option<Tuple>) -> Option<Seq<Cell>> {
    match row {
        Some(t) => Some(views(t@)),
        None => None,
    }
}

pub open spec fn pending_models(pending: Seq<Vec<PendingDelta>>) -> Seq<Seq<PendingModel>> {
    pending.map_values(|p: Vec<PendingDelta>| views(p@))
}

impl View for Round {
    type V = RoundModel;

    open spec fn view(&self) -> RoundModel {
        RoundModel {
            txs: views(self.txs@),
            relations: views(self.relations@),
            views: views(self.views@),
            shadows: views(self.shadows@),
            units: self.units@,
            width: self.views@.len(),
            position: self.position as nat,
            stage: self.stage as nat,
            old_full: row_model(self.old_full),
            shadow_error: view_of_option(self.shadow_error),
            pending: pending_models(self.pending@),
            absorbed: self.absorbed@,
            processed: self.processed as nat,
            blocked_at: self.blocked_at,
            log: views(self.log@),
        }
    }
}

/// The relation with this identifier.
pub open spec fn relation_at(relations: Seq<RelationModel>, relid: u32) -> Option<int>
    decreases relations.len(),
{
    if relations.len() == 0 {
        None
    } else if relations.last().id == relid {
        Some(relations.len() - 1)
    } else {
        relation_at(relations.drop_last(), relid)
    }
}

/// The shadow of this relation.
pub open spec fn shadow_at(shadows: Seq<ShadowModel>, relid: u32) -> Option<int>
    decreases shadows.len(),
{
    if shadows.len() == 0 {
        None
    } else if shadows.last().relid == relid {
        Some(shadows.len() - 1)
    } else {
        shadow_at(shadows.drop_last(), relid)
    }
}

proof fn lemma_relation_at(relations: Seq<RelationModel>, relid: u32)
    ensures
        relation_at(relations, relid) matches Some(i) ==> 0 <= i < relations.len()
            && relations[i].id == relid,
    decreases relations.len(),
{
    if relations.len() > 0 {
        lemma_relation_at(relations.drop_last(), relid);
    }
}

proof fn lemma_shadow_at(shadows: Seq<ShadowModel>, relid: u32)
    ensures
        shadow_at(shadows, relid) matches Some(i) ==> 0 <= i < shadows.len() && shadows[i].relid
            == relid,
    decreases shadows.len(),
{
    if shadows.len() > 0 {
        lemma_shadow_at(shadows.drop_last(), relid);
    }
}

pub fn find_relation(relations: &Vec<Relation>, relid: u32) -> (result: Option<usize>)
    ensures
        match result {
            Some(i) => i < relations@.len() && relation_at(views(relations@), relid) == Some(
                i as int,
            ),
            None => relation_at(views(relations@), relid) is None,
        },
{
    let ghost models = views(relations@);
    let mut i: usize = relations.len();
    assert(models.take(i as int) =~= models);
    while i > 0
        invariant
            models == views(relations@),
            i <= relations@.len(),
            relation_at(models, relid) == relation_at(models.take(i as int), relid),
        decreases i,
    {
        assert(models.take(i as int).drop_last() =~= models.take(i - 1));
        i = i - 1;
        assert(models[i as int] == relations@[i as int]@);
        if relations[i].id == relid {
            return Some(i);
        }
    }
    None
}

pub fn find_shadow(shadows: &Vec<Shadow>, relid: u32) -> (result: Option<usize>)
    ensures
        match result {
            Some(i) => i < shadows@.len() && shadow_at(views(shadows@), relid) == Some(i as int),
            None => shadow_at(views(shadows@), relid) is None,
        },
{
    let ghost models = views(shadows@);
    let mut i: usize = shadows.len();
    assert(models.take(i as int) =~= models);
    while i > 0
        invariant
            models == views(shadows@),
            i <= shadows@.len(),
            shadow_at(models, relid) == shadow_at(models.take(i as int), relid),
        decreases i,
    {
        assert(models.take(i as int).drop_last() =~= models.take(i - 1));
        i = i - 1;
        assert(models[i as int] == shadows@[i as int]@);
        if shadows[i].relid == relid {
            return Some(i);
        }
    }
    None
}

// --- what a round does -----------------------------------------------------------------

/// What a round asks for.
#[allow(inconsistent_fields)]
pub enum Ask {
    /// The first row of the query, each column as text, in a subtransaction.
    OldRow { query: Statement },
    /// The rows of a plan, in a subtransaction.
    Plan { view: usize, plan: Plan },
    /// A shadow's statements, in a subtransaction.
    Shadow { plan: ShadowPlan },
    /// The execution of planned operations on a view, in a subtransaction.
    Execute { view: usize, ops: Vec<Op> },
    /// The round fails as a whole and its transaction is given up: the next
    /// poll reads its transactions again.
    Fail { message: String },
    Done,
}

#[allow(inconsistent_fields)]
pub enum AskModel {
    OldRow { query: StatementModel },
    Plan { view: int, plan: PlanModel },
    Shadow { plan: ShadowPlanModel },
    Execute { view: int, ops: Seq<OpModel> },
    Fail { message: Seq<char> },
    Done,
}

impl View for Ask {
    type V = AskModel;

    open spec fn view(&self) -> AskModel {
        match self {
            Ask::OldRow { query } => AskModel::OldRow { query: query@ },
            Ask::Plan { view, plan } => AskModel::Plan { view: *view as int, plan: plan@ },
            Ask::Shadow { plan } => AskModel::Shadow { plan: plan@ },
            Ask::Execute { view, ops } => AskModel::Execute {
                view: *view as int,
                ops: views(ops@),
            },
            Ask::Fail { message } => AskModel::Fail { message: message@ },
            Ask::Done => AskModel::Done,
        }
    }
}

/// What came of an ask.
pub enum Reply {
    OldRow(Result<Option<Vec<Option<String>>>, String>),
    Planned(Result<Planned, String>),
    Shadow(Result<(), String>),
    Executed(Result<Vec<Delta>, String>),
}

pub enum ReplyModel {
    OldRow(Result<Option<Seq<Option<Seq<char>>>>, Seq<char>>),
    Planned(PlannedModel),
    Shadow(Result<(), Seq<char>>),
    Executed(Result<Seq<DeltaModel>, Seq<char>>),
}

impl View for Reply {
    type V = ReplyModel;

    open spec fn view(&self) -> ReplyModel {
        match self {
            Reply::OldRow(Ok(Some(values))) => ReplyModel::OldRow(Ok(Some(texts(values@)))),
            Reply::OldRow(Ok(None)) => ReplyModel::OldRow(Ok(None)),
            Reply::OldRow(Err(e)) => ReplyModel::OldRow(Err(e@)),
            Reply::Planned(result) => ReplyModel::Planned(planned_model(*result)),
            Reply::Shadow(Ok(())) => ReplyModel::Shadow(Ok(())),
            Reply::Shadow(Err(e)) => ReplyModel::Shadow(Err(e@)),
            Reply::Executed(Ok(deltas)) => ReplyModel::Executed(Ok(views(deltas@))),
            Reply::Executed(Err(e)) => ReplyModel::Executed(Err(e@)),
        }
    }
}

/// A step of a round: the round afterwards, the statements that record what
/// happened, and what is asked for, if anything.
pub struct Step {
    pub round: RoundModel,
    pub statements: Seq<StatementModel>,
    pub ask: Option<AskModel>,
}

pub open spec fn quiet(round: RoundModel) -> Step {
    Step { round, statements: Seq::empty(), ask: None }
}

pub open spec fn asks(round: RoundModel, ask: AskModel) -> Step {
    Step { round, statements: Seq::empty(), ask: Some(ask) }
}

pub open spec fn change_at(m: RoundModel, tx: int, change: int) -> ChangeModel {
    m.txs[tx].changes[change]
}

pub open spec fn relation_in(m: RoundModel, relid: u32) -> RelationModel {
    m.relations[relation_at(m.relations, relid)->0]
}

/// Whether the shadow of a relation still has to take in a transaction.
pub open spec fn shadow_is_active(m: RoundModel, relid: u32, end_lsn: u64) -> bool {
    shadow_at(m.shadows, relid) matches Some(i) && !m.shadows[i].failed && end_lsn
        > m.shadows[i].frontier
}

/// The rows that a change carries: the one before it and the one after it.
pub open spec fn rows_of(change: ChangeModel) -> (Option<Seq<Cell>>, Option<Seq<Cell>>) {
    match change {
        ChangeModel::Update { relid, old: before, new } => (carried(before), Some(new)),
        ChangeModel::Delete { relid, key_kind, old: row } => (Some(row), None),
        _ => (None, None),
    }
}

pub open spec fn has_old_row(change: ChangeModel) -> bool {
    change is Update || change is Delete
}

/// The old row of an update or a delete is fetched from an active shadow.
pub open spec fn fetch_begun(
    m: RoundModel,
    tx: int,
    change: int,
    relid: u32,
    quoting: spec_fn(Seq<char>) -> Seq<char>,
) -> Step {
    let fresh = RoundModel { old_full: None, shadow_error: None, ..m };
    let c = change_at(m, tx, change);
    if shadow_is_active(m, relid, m.txs[tx].end_lsn) && has_old_row(c) {
        let s = m.shadows[shadow_at(m.shadows, relid)->0];
        match old_row_statement(s, relation_in(m, relid), rows_of(c).0, rows_of(c).1, quoting) {
            Ok(query) => asks(fresh, AskModel::OldRow { query }),
            Err(e) => quiet(RoundModel { shadow_error: Some(e), ..fresh }),
        }
    } else {
        quiet(fresh)
    }
}

/// The old row arrived, or did not.
pub open spec fn fetched(
    m: RoundModel,
    relid: u32,
    reply: Result<Option<Seq<Option<Seq<char>>>>, Seq<char>>,
) -> RoundModel {
    let s = m.shadows[shadow_at(m.shadows, relid)->0];
    match reply {
        Ok(Some(values)) => RoundModel {
            old_full: Some(old_row(s, relation_in(m, relid), values)),
            ..m
        },
        Ok(None) => RoundModel {
            shadow_error: Some(
                "row not found in shadow "@ + s.table
                    + " (shadow out of sync with the base table)"@,
            ),
            ..m
        },
        Err(e) => RoundModel { shadow_error: Some(e), ..m },
    }
}

/// A view is planned for a change that it has not absorbed. A join view whose
/// shadow could not provide the old row goes stale.
pub open spec fn plan_view(
    m: RoundModel,
    tx: int,
    change: int,
    relid: u32,
    view: int,
    quoting: spec_fn(Seq<char>) -> Seq<char>,
) -> Step {
    let v = m.views[view];
    let rel = relation_in(m, relid);
    if v.dead || !is_active(v, relid, m.txs[tx].end_lsn) {
        quiet(m)
    } else if m.shadow_error is Some && v.spec.relations.len() > 1 {
        quiet(
            RoundModel {
                views: m.views.update(
                    view,
                    LiveModel {
                        stale: Some(
                            "shadow of "@ + rel.name + " could not provide the old row: "@
                                + m.shadow_error->0,
                        ),
                        ..v
                    },
                ),
                ..m
            },
        )
    } else {
        asks(
            m,
            AskModel::Plan {
                view,
                plan: planned_change(v, rel, change_at(m, tx, change), m.old_full, quoting),
            },
        )
    }
}

/// A plan came to operations, made the view stale, or failed.
pub open spec fn planned_view(m: RoundModel, view: int, reply: PlannedModel) -> RoundModel {
    let v = m.views[view];
    let after = match reply {
        PlannedModel::Ops(ops) => LiveModel { ops: v.ops + ops, ..v },
        PlannedModel::Stale(reason) => LiveModel { stale: Some(reason), ..v },
        PlannedModel::Failed(message) => LiveModel { failed: Some(message), ..v },
    };
    RoundModel { views: m.views.update(view, after), ..m }
}

/// A shadow could not be maintained: it has failed, and the join views over it
/// go stale.
pub open spec fn shadow_lost(m: RoundModel, relid: u32, message: Seq<char>) -> Step {
    let i = shadow_at(m.shadows, relid)->0;
    let rel = relation_in(m, relid);
    let (failed, statement) = shadow_failed(m.shadows[i], message);
    Step {
        round: RoundModel {
            shadows: m.shadows.update(i, failed),
            views: m.views.map_values(|v: LiveModel| without_shadow(v, relid, rel, message)),
            log: m.log.push(shadow_failed_notice(m.shadows[i], message)),
            ..m
        },
        statements: seq![statement],
        ask: None,
    }
}

/// Why the new row of a change cannot be completed at all: an unchanged value
/// stands for no column of the relation.
pub open spec fn new_row_fault(
    rel: RelationModel,
    change: ChangeModel,
    old_full: Option<Seq<Cell>>,
) -> Option<Seq<char>> {
    match change {
        ChangeModel::Update { relid, old: before, new } => match resolved_row(
            rel,
            new,
            old_full,
            |name: Seq<char>| true,
        ) {
            Err(EndModel::Failed(message)) => Some(message),
            _ => None,
        },
        _ => None,
    }
}

/// The new row of a change, complete; none where an unchanged value is unknown.
pub open spec fn new_full_of(
    rel: RelationModel,
    change: ChangeModel,
    old_full: Option<Seq<Cell>>,
) -> Option<Seq<Cell>> {
    match change {
        ChangeModel::Insert { relid, new } => Some(new),
        ChangeModel::Update { relid, old: before, new } => match resolved_row(
            rel,
            new,
            old_full,
            |name: Seq<char>| true,
        ) {
            Ok(row) => Some(row),
            Err(_) => None,
        },
        _ => None,
    }
}

/// An active shadow takes in the change. A new row that cannot be completed at
/// all fails the round, outside any subtransaction.
pub open spec fn maintain(
    m: RoundModel,
    tx: int,
    change: int,
    relid: u32,
    quoting: spec_fn(Seq<char>) -> Seq<char>,
) -> Step {
    let c = change_at(m, tx, change);
    let rel = relation_in(m, relid);
    let new_full = new_full_of(rel, c, m.old_full);
    if !shadow_is_active(m, relid, m.txs[tx].end_lsn) {
        quiet(m)
    } else if let Some(message) = new_row_fault(rel, c, m.old_full) {
        asks(m, AskModel::Fail { message })
    } else if m.shadow_error is Some {
        shadow_lost(m, relid, m.shadow_error->0)
    } else if c is Update && new_full is None {
        shadow_lost(
            m,
            relid,
            "unchanged TOAST value could not be recovered from the shadow"@,
        )
    } else {
        let s = m.shadows[shadow_at(m.shadows, relid)->0];
        asks(
            m,
            AskModel::Shadow { plan: shadow_plan(s, rel, c, m.old_full, new_full, quoting) },
        )
    }
}

pub open spec fn maintained(m: RoundModel, relid: u32, reply: Result<(), Seq<char>>) -> Step {
    match reply {
        Ok(()) => quiet(m),
        Err(message) => shadow_lost(m, relid, message),
    }
}

/// A view failed to apply a transaction: it stops absorbing for the rest of
/// the round, and where it is still live the round is blocked there.
pub open spec fn view_failed(
    m: RoundModel,
    tx: int,
    view: int,
    v: LiveModel,
    message: Seq<char>,
    max_apply_failures: i32,
) -> Step {
    let (counted, statement) = failed_once_more(v, message, max_apply_failures);
    let live = v.apply_failures + 1 < failures_allowed(max_apply_failures);
    Step {
        round: RoundModel {
            views: m.views.update(
                view,
                LiveModel { failed_this_round: true, dead: true, ..counted },
            ),
            blocked_at: if live && m.blocked_at is None {
                Some(tx as usize)
            } else {
                m.blocked_at
            },
            log: m.log.push(
                failure_notice(v, m.txs[tx].end_lsn, message, max_apply_failures),
            ),
            ..m
        },
        statements: seq![statement],
        ask: None,
    }
}

/// A view's planned rows are executed, unless it is dead for this round, has
/// absorbed the transaction already, went stale or failed to be planned.
pub open spec fn execute_view(m: RoundModel, tx: int, view: int, max_apply_failures: i32) -> Step {
    let v = m.views[view];
    if v.dead || m.txs[tx].end_lsn <= v.frontier {
        quiet(m)
    } else if v.stale is Some {
        Step {
            round: RoundModel {
                views: m.views.update(view, LiveModel { stale: None, dead: true, ..v }),
                log: m.log.push(stale_notice(v.name, v.stale->0)),
                ..m
            },
            statements: seq![stale_statement(v.id, v.stale->0)],
            ask: None,
        }
    } else if v.failed is Some {
        view_failed(
            m,
            tx,
            view,
            LiveModel { failed: None, ..v },
            v.failed->0,
            max_apply_failures,
        )
    } else {
        asks(
            RoundModel {
                views: m.views.update(view, LiveModel { ops: Seq::empty(), ..v }),
                ..m
            },
            AskModel::Execute { view, ops: v.ops },
        )
    }
}

/// The deltas of a transaction as they wait for the insert, numbered behind
/// `last_seq`.
pub open spec fn numbered(
    deltas: Seq<DeltaModel>,
    last_seq: int,
    lsn: u64,
    xid: u32,
) -> Seq<PendingModel> {
    Seq::new(
        deltas.len(),
        |i: int|
            PendingModel {
                seq: (last_seq + 1 + i) as i64,
                lsn,
                xid,
                op: deltas[i].op,
                row_json: deltas[i].row_json,
            },
    )
}

/// A view absorbed a transaction: the log gets its net effect, and the
/// frontier moves to the transaction's end.
pub open spec fn view_absorbed(m: RoundModel, tx: int, view: int, deltas: Seq<DeltaModel>) ->
    RoundModel {
    let v = m.views[view];
    let t = m.txs[tx];
    let net = netted(v.spec, deltas);
    RoundModel {
        views: m.views.update(
            view,
            LiveModel {
                last_seq: (v.last_seq + net.len()) as i64,
                touched: v.touched || net.len() > 0,
                frontier: t.end_lsn,
                ..v
            },
        ),
        pending: m.pending.update(
            view,
            m.pending[view] + numbered(net, v.last_seq as int, t.end_lsn, t.xid),
        ),
        absorbed: m.absorbed.update(view, Some(t.end_lsn)),
        ..m
    }
}

pub open spec fn executed_view(
    m: RoundModel,
    tx: int,
    view: int,
    reply: Result<Seq<DeltaModel>, Seq<char>>,
    max_apply_failures: i32,
) -> Step {
    match reply {
        Ok(deltas) => quiet(view_absorbed(m, tx, view, deltas)),
        Err(message) => view_failed(m, tx, view, m.views[view], message, max_apply_failures),
    }
}

pub open spec fn shadow_closed(s: ShadowModel, end_lsn: u64) -> ShadowModel {
    if !s.failed && end_lsn > s.frontier {
        ShadowModel { frontier: end_lsn, advanced: true, ..s }
    } else {
        s
    }
}

/// Every maintained shadow has absorbed the transaction. A blocked view stops
/// absorbing (it is dead for the round) but the healthy views go on to the end
/// of the peek; the slot is held right before the failing transaction and they
/// skip the replay through their frontier.
pub open spec fn close(m: RoundModel, tx: int) -> Step {
    quiet(
        RoundModel {
            shadows: m.shadows.map_values(
                |s: ShadowModel| shadow_closed(s, m.txs[tx].end_lsn),
            ),
            processed: (tx + 1) as nat,
            ..m
        },
    )
}

/// What is done at the stage at hand.
pub open spec fn begin(
    m: RoundModel,
    quoting: spec_fn(Seq<char>) -> Seq<char>,
    max_apply_failures: i32,
) -> Step {
    match task_of(m.units[m.position as int], m.width, m.stage) {
        Task::Fetch { tx, change, relid } => fetch_begun(m, tx, change, relid, quoting),
        Task::Plan { tx, change, relid, view } => plan_view(m, tx, change, relid, view, quoting),
        Task::Maintain { tx, change, relid } => maintain(m, tx, change, relid, quoting),
        Task::Execute { tx, view } => execute_view(m, tx, view, max_apply_failures),
        Task::Close { tx } => close(m, tx),
    }
}

/// What is done when the reply to an ask of the stage at hand is there.
pub open spec fn answered(m: RoundModel, reply: ReplyModel, max_apply_failures: i32) -> Step {
    match (task_of(m.units[m.position as int], m.width, m.stage), reply) {
        (Task::Fetch { tx, change, relid }, ReplyModel::OldRow(row)) => quiet(
            fetched(m, relid, row),
        ),
        (Task::Plan { tx, change, relid, view }, ReplyModel::Planned(planned)) => quiet(
            planned_view(m, view, planned),
        ),
        (Task::Maintain { tx, change, relid }, ReplyModel::Shadow(result)) => maintained(
            m,
            relid,
            result,
        ),
        (Task::Execute { tx, view }, ReplyModel::Executed(result)) => executed_view(
            m,
            tx,
            view,
            result,
            max_apply_failures,
        ),
        _ => quiet(m),
    }
}

/// The cursor behind the stage at hand.
pub open spec fn next_cursor(units: Seq<Unit>, width: nat, position: nat, stage: nat) -> (
    nat,
    nat,
) {
    if stage + 1 < stages(units[position as int], width) {
        (position, stage + 1)
    } else {
        (position + 1, 0)
    }
}

pub open spec fn stepped(m: RoundModel) -> RoundModel {
    let (position, stage) = next_cursor(m.units, m.width, m.position, m.stage);
    RoundModel { position, stage, ..m }
}

/// The round goes on until it asks for something or is done.
pub open spec fn run(
    m: RoundModel,
    done: Seq<StatementModel>,
    quoting: spec_fn(Seq<char>) -> Seq<char>,
    max_apply_failures: i32,
) -> Step
    decreases m.units.len() - m.position, m.width + 2 - m.stage,
{
    if m.position >= m.units.len() || m.stage >= m.width + 2 {
        Step { round: m, statements: done, ask: Some(AskModel::Done) }
    } else {
        let step = begin(m, quoting, max_apply_failures);
        if step.ask is Some {
            Step { statements: done + step.statements, ..step }
        } else {
            let (position, stage) = next_cursor(m.units, m.width, m.position, m.stage);
            run(
                RoundModel { units: m.units, width: m.width, position, stage, ..step.round },
                done + step.statements,
                quoting,
                max_apply_failures,
            )
        }
    }
}

/// The round goes on with the reply to what it asked for.
pub open spec fn resumed(
    m: RoundModel,
    reply: ReplyModel,
    quoting: spec_fn(Seq<char>) -> Seq<char>,
    max_apply_failures: i32,
) -> Step {
    let step = answered(m, reply, max_apply_failures);
    run(stepped(step.round), step.statements, quoting, max_apply_failures)
}

// --- rounds that fit together ------------------------------------------------------------

/// The relation of a change is known.
pub open spec fn known(relations: Seq<RelationModel>, relid: u32) -> bool {
    relation_at(relations, relid) matches Some(i) && relations[i].columns.len() < usize::MAX
}

pub open spec fn change_known(relations: Seq<RelationModel>, change: ChangeModel) -> bool {
    forall|k: int|
        0 <= k < relids_of(change).len() ==> known(relations, #[trigger] relids_of(change)[k])
}

pub open spec fn tx_known(relations: Seq<RelationModel>, tx: TransactionModel) -> bool {
    forall|c: int|
        0 <= c < tx.changes.len() ==> change_known(relations, #[trigger] tx.changes[c])
}

/// Every change of every transaction is known.
pub open spec fn all_known(relations: Seq<RelationModel>, txs: Seq<TransactionModel>) -> bool {
    forall|t: int| 0 <= t < txs.len() ==> tx_known(relations, #[trigger] txs[t])
}

/// A shadow whose columns can be counted.
pub open spec fn shadow_sized(s: ShadowModel) -> bool {
    s.columns.len() < usize::MAX && s.pk_columns.len() < usize::MAX
}

pub open spec fn can_fail(v: LiveModel) -> bool {
    v.dead || v.apply_failures < i32::MAX
}

/// A round whose parts fit together.
pub open spec fn fits(m: RoundModel) -> bool {
    &&& m.units == all_units(m.txs, m.txs.len())
    &&& m.views.len() == m.width
    &&& m.pending.len() == m.width
    &&& m.absorbed.len() == m.width
    &&& m.width + 2 <= usize::MAX
    &&& m.txs.len() <= usize::MAX
    &&& forall|t: int|
        0 <= t < m.txs.len() ==> (#[trigger] m.txs[t]).changes.len() <= usize::MAX
    &&& all_known(m.relations, m.txs)
    &&& m.position <= m.units.len()
    &&& m.position < m.units.len() ==> m.stage < stages(m.units[m.position as int], m.width)
    &&& forall|i: int| 0 <= i < m.views.len() ==> can_fail(#[trigger] m.views[i])
    &&& forall|i: int| 0 <= i < m.shadows.len() ==> shadow_sized(#[trigger] m.shadows[i])
}

/// A piece of a round belongs to one of its transactions and changes.
pub open spec fn unit_known(m: RoundModel, unit: Unit) -> bool {
    match unit {
        Unit::Change { tx, change, relid } => tx < m.txs.len() && change
            < m.txs[tx as int].changes.len() && known(m.relations, relid),
        Unit::Apply { tx } => tx < m.txs.len(),
    }
}

proof fn lemma_tx_unit(
    relations: Seq<RelationModel>,
    txs: Seq<TransactionModel>,
    t: int,
    n: nat,
    i: int,
)
    requires
        0 <= t < txs.len() <= usize::MAX,
        n <= txs[t].changes.len() <= usize::MAX,
        tx_known(relations, txs[t]),
        0 <= i < tx_units(t, txs[t].changes, n).len(),
    ensures
        tx_units(t, txs[t].changes, n)[i] matches Unit::Change { tx, change, relid } && tx == t
            && change < txs[t].changes.len() && known(relations, relid),
    decreases n,
{
    let changes = txs[t].changes;
    let before = tx_units(t, changes, (n - 1) as nat);
    if i < before.len() {
        lemma_tx_unit(relations, txs, t, (n - 1) as nat, i);
    } else {
        let relids = relids_of(changes[n - 1]);
        assert(change_known(relations, changes[n - 1]));
        assert(known(relations, relids[i - before.len()]));
    }
}

proof fn lemma_unit_known(m: RoundModel, n: nat, i: int)
    requires
        m.txs.len() <= usize::MAX,
        forall|t: int|
            0 <= t < m.txs.len() ==> (#[trigger] m.txs[t]).changes.len() <= usize::MAX,
        all_known(m.relations, m.txs),
        n <= m.txs.len(),
        0 <= i < all_units(m.txs, n).len(),
    ensures
        unit_known(m, all_units(m.txs, n)[i]),
    decreases n,
{
    let before = all_units(m.txs, (n - 1) as nat);
    let these = tx_units(n - 1, m.txs[n - 1].changes, m.txs[n - 1].changes.len());
    if i < before.len() {
        lemma_unit_known(m, (n - 1) as nat, i);
    } else if i < before.len() + these.len() {
        assert(tx_known(m.relations, m.txs[n - 1]));
        lemma_tx_unit(
            m.relations,
            m.txs,
            n - 1,
            m.txs[n - 1].changes.len(),
            i - before.len(),
        );
        assert(all_units(m.txs, n)[i] == these[i - before.len()]);
    }
}

fn units_of(txs: &Vec<SourceTransaction>) -> (result: Vec<Unit>)
    ensures
        result@ == all_units(views(txs@), txs@.len()),
{
    let ghost models = views(txs@);
    let mut units: Vec<Unit> = Vec::new();
    let mut t: usize = 0;
    while t < txs.len()
        invariant
            models == views(txs@),
            t <= txs@.len(),
            units@ == all_units(models, t as nat),
        decreases txs@.len() - t,
    {
        let changes = &txs[t].changes;
        let ghost change_models = models[t as int].changes;
        assert(change_models == views(changes@));
        let ghost before = units@;
        let mut c: usize = 0;
        assert(units@ =~= before + tx_units(t as int, change_models, 0));
        while c < changes.len()
            invariant
                change_models == views(changes@),
                c <= changes@.len(),
                units@ == before + tx_units(t as int, change_models, c as nat),
            decreases changes@.len() - c,
        {
            assert(change_models[c as int] == changes@[c as int]@);
            let relids = worker::change_relids(&changes[c]);
            let ghost start = units@;
            let ghost added = change_units(t as int, c as int, relids@);
            let mut k: usize = 0;
            assert(units@ =~= start + added.take(0));
            while k < relids.len()
                invariant
                    added == change_units(t as int, c as int, relids@),
                    k <= relids@.len(),
                    units@ == start + added.take(k as int),
                decreases relids@.len() - k,
            {
                units.push(Unit::Change { tx: t, change: c, relid: relids[k] });
                assert(added.take(k + 1) =~= added.take(k as int).push(added[k as int]));
                k = k + 1;
                assert(units@ =~= start + added.take(k as int));
            }
            assert(added.take(k as int) =~= added);
            c = c + 1;
            assert(units@ =~= before + tx_units(t as int, change_models, c as nat));
        }
        units.push(Unit::Apply { tx: t });
        t = t + 1;
    }
    units
}

/// Whether every change of every transaction is known: a round can only begin
/// where it is.
pub fn know_all(relations: &Vec<Relation>, txs: &Vec<SourceTransaction>) -> (result: bool)
    ensures
        result == all_known(views(relations@), views(txs@)),
{
    let ghost rels = views(relations@);
    let ghost models = views(txs@);
    let mut t: usize = 0;
    while t < txs.len()
        invariant
            rels == views(relations@),
            models == views(txs@),
            t <= txs@.len(),
            forall|j: int| 0 <= j < t ==> tx_known(rels, #[trigger] models[j]),
        decreases txs@.len() - t,
    {
        let changes = &txs[t].changes;
        assert(models[t as int].changes == views(changes@));
        let mut c: usize = 0;
        while c < changes.len()
            invariant
                rels == views(relations@),
                models == views(txs@),
                t < txs@.len(),
                models[t as int].changes == views(changes@),
                c <= changes@.len(),
                forall|j: int|
                    0 <= j < c ==> change_known(rels, #[trigger] models[t as int].changes[j]),
            decreases changes@.len() - c,
        {
            let change = &changes[c];
            assert(models[t as int].changes[c as int] == change@);
            let relids = worker::change_relids(change);
            let mut k: usize = 0;
            while k < relids.len()
                invariant
                    rels == views(relations@),
                    models == views(txs@),
                    t < txs@.len(),
                    c < models[t as int].changes.len(),
                    models[t as int].changes[c as int] == change@,
                    relids@ == relids_of(change@),
                    k <= relids@.len(),
                    forall|j: int|
                        0 <= j < k ==> known(rels, #[trigger] relids_of(change@)[j]),
                decreases relids@.len() - k,
            {
                let ok = match find_relation(relations, relids[k]) {
                    None => false,
                    Some(i) => {
                        assert(rels[i as int] == relations@[i as int]@);
                        relations[i].columns.len() < usize::MAX
                    },
                };
                assert(ok == known(rels, relids_of(change@)[k as int]));
                if !ok {
                    assert(!change_known(rels, models[t as int].changes[c as int]));
                    assert(!tx_known(rels, models[t as int]));
                    return false;
                }
                k = k + 1;
            }
            c = c + 1;
        }
        t = t + 1;
    }
    true
}

/// A round before its first piece.
pub open spec fn fresh_round(
    txs: Seq<TransactionModel>,
    relations: Seq<RelationModel>,
    live: Seq<LiveModel>,
    shadows: Seq<ShadowModel>,
) -> RoundModel {
    RoundModel {
        txs,
        relations,
        views: live,
        shadows,
        units: all_units(txs, txs.len()),
        width: live.len(),
        position: 0,
        stage: 0,
        old_full: None,
        shadow_error: None,
        pending: Seq::new(live.len(), |i: int| Seq::empty()),
        absorbed: Seq::new(live.len(), |i: int| None),
        processed: 0,
        blocked_at: None,
        log: Seq::empty(),
    }
}

impl Round {
    /// A round over the views and shadows as the catalog has them.
    pub fn new(
        txs: Vec<SourceTransaction>,
        relations: Vec<Relation>,
        live: Vec<LiveView>,
        shadows: Vec<Shadow>,
    ) -> (result: Round)
        requires
            all_known(views(relations@), views(txs@)),
            live@.len() + 2 <= usize::MAX,
            forall|i: int| 0 <= i < live@.len() ==> can_fail((#[trigger] live@[i])@),
            forall|i: int| 0 <= i < shadows@.len() ==> shadow_sized((#[trigger] shadows@[i])@),
        ensures
            result@ == fresh_round(
                views(txs@),
                views(relations@),
                views(live@),
                views(shadows@),
            ),
            fits(result@),
    {
        let units = units_of(&txs);
        let mut pending: Vec<Vec<PendingDelta>> = Vec::new();
        let mut absorbed: Vec<Option<u64>> = Vec::new();
        let mut i: usize = 0;
        while i < live.len()
            invariant
                i <= live@.len(),
                pending@.len() == i,
                absorbed@.len() == i,
                forall|j: int| 0 <= j < i ==> (#[trigger] pending@[j])@.len() == 0,
                forall|j: int| 0 <= j < i ==> #[trigger] absorbed@[j] == None::<u64>,
            decreases live@.len() - i,
        {
            pending.push(Vec::new());
            absorbed.push(None);
            i = i + 1;
        }
        let round = Round {
            txs,
            relations,
            views: live,
            shadows,
            units,
            position: 0,
            stage: 0,
            old_full: None,
            shadow_error: None,
            pending,
            absorbed,
            processed: 0,
            blocked_at: None,
            log: Vec::new(),
        };
        proof {
            assert(round@.log =~= Seq::empty());
            let model = fresh_round(
                views(txs@),
                views(relations@),
                views(live@),
                views(shadows@),
            );
            assert forall|j: int| 0 <= j < live@.len() implies #[trigger] round@.pending[j]
                =~= Seq::<PendingModel>::empty() by {}
            assert(round.txs.len() == round.txs@.len());
            assert(round@.pending =~= model.pending);
            assert(round@.absorbed =~= model.absorbed);
            assert forall|j: int| 0 <= j < round@.views.len() implies can_fail(
                #[trigger] round@.views[j],
            ) by {
                assert(can_fail(live@[j]@));
            }
            assert forall|j: int| 0 <= j < round@.shadows.len() implies shadow_sized(
                #[trigger] round@.shadows[j],
            ) by {
                assert(shadow_sized(shadows@[j]@));
            }
            assert forall|t: int| 0 <= t < round@.txs.len() implies (
            #[trigger] round@.txs[t]).changes.len() <= usize::MAX by {
                assert(round@.txs[t] == txs@[t]@);
                assert(txs@[t].changes.len() == txs@[t].changes@.len());
            }
        }
        round
    }
}

// --- running a round ---------------------------------------------------------------------

/// The round waits for a reply: the view that it is for is not dead and has not
/// absorbed the transaction, and the shadow that it is for is there.
pub open spec fn awaiting(m: RoundModel) -> bool {
    m.position < m.units.len() && match task_of(
        m.units[m.position as int],
        m.width,
        m.stage,
    ) {
        Task::Fetch { tx, change, relid } => shadow_at(m.shadows, relid) is Some,
        Task::Plan { view, .. } => !m.views[view].dead,
        Task::Maintain { tx, change, relid } => shadow_at(m.shadows, relid) is Some
            && new_row_fault(
            relation_in(m, relid),
            change_at(m, tx, change),
            m.old_full,
        ) is None,
        Task::Execute { tx, view } => !m.views[view].dead && m.txs[tx].end_lsn
            > m.views[view].frontier,
        Task::Close { .. } => false,
    }
}

/// Whether an ask waits for a reply: the round is neither done nor failed.
pub open spec fn wants_reply(ask: Option<AskModel>) -> bool {
    ask matches Some(a) && !(a is Done) && !(a is Fail)
}

/// What the round waits for is the reply to this ask.
pub open spec fn asked(m: RoundModel, ask: AskModel) -> bool {
    match (task_of(m.units[m.position as int], m.width, m.stage), ask) {
        (Task::Fetch { .. }, AskModel::OldRow { .. }) => true,
        (Task::Plan { view, .. }, AskModel::Plan { view: v, .. }) => v == view,
        (Task::Maintain { .. }, AskModel::Shadow { .. }) => true,
        (Task::Execute { view, .. }, AskModel::Execute { view: v, .. }) => v == view,
        _ => false,
    }
}

/// The reply is of the kind that was asked for, and the deltas it brings can
/// be numbered.
pub open spec fn answers(m: RoundModel, reply: ReplyModel) -> bool {
    awaiting(m) && match (task_of(m.units[m.position as int], m.width, m.stage), reply) {
        (Task::Fetch { .. }, ReplyModel::OldRow(_)) => true,
        (Task::Plan { .. }, ReplyModel::Planned(_)) => true,
        (Task::Maintain { .. }, ReplyModel::Shadow(_)) => true,
        (Task::Execute { tx, view }, ReplyModel::Executed(result)) => result matches Ok(deltas)
            ==> m.views[view].last_seq + deltas.len() <= i64::MAX,
        _ => false,
    }
}

/// The statements of a list and one behind it.
fn push_all(statements: &mut Vec<Statement>, statement: Statement)
    ensures
        views(final(statements)@) == views(old(statements)@) + seq![statement@],
{
    let ghost before = views(statements@);
    let ghost added = statement@;
    statements.push(statement);
    assert(views(statements@) =~= before + seq![added]);
}

/// `views` of a vector in which one element was replaced.
proof fn lemma_views_update<T: View>(items: Seq<T>, i: int, item: T)
    requires
        0 <= i < items.len(),
    ensures
        views(items.update(i, item)) == views(items).update(i, item@),
{
    assert(views(items.update(i, item)) =~= views(items).update(i, item@));
}

/// The new row of a change, complete, or why it cannot be completed at all.
fn complete_new_row(rel: &Relation, change: &Change, old_full: Option<&Tuple>) -> (result: Result<
    Option<Tuple>,
    String,
>)
    ensures
        match result {
            Ok(row) => new_row_fault(rel@, change@, apply::tuple_model(old_full)) is None
                && row_model(row) == new_full_of(rel@, change@, apply::tuple_model(old_full)),
            Err(e) => new_row_fault(rel@, change@, apply::tuple_model(old_full)) == Some(e@),
        },
{
    match change {
        Change::Insert { new, .. } => Ok(Some(pgoutput::clone_tuple(new))),
        Change::Update { new, .. } => {
            let always = |name: &str| -> (found: bool)
                ensures
                    found,
                { true };
            let ghost mentioned = |name: Seq<char>| true;
            assert(apply::computes(always, mentioned));
            match apply::resolve_row(rel, new, old_full, always) {
                Ok(row) => Ok(Some(row)),
                Err(PlanEnd::Failed(message)) => Err(message),
                Err(_) => Ok(None),
            }
        },
        _ => Ok(None),
    }
}

impl Round {
    fn fetch_old_row(&mut self, tx: usize, change: usize, relid: u32, quoting: &Quoting) -> (result:
        Option<Ask>)
        requires
            fits(old(self)@),
            unit_known(old(self)@, Unit::Change { tx, change, relid }),
        ensures
            ({
                let step = fetch_begun(old(self)@, tx as int, change as int, relid, quoting@);
                final(self)@ == step.round && view_of_option(result) == step.ask
                    && step.statements.len() == 0
            }),
    {
        let ghost m = self@;
        self.old_full = None;
        self.shadow_error = None;
        let end_lsn: u64 = self.txs[tx].end_lsn;
        assert(m.txs[tx as int] == self.txs@[tx as int]@);
        assert(m.txs[tx as int].changes[change as int] == self.txs@[tx as int].changes@[change as int]@);
        let r = match find_relation(&self.relations, relid) {
            Some(r) => r,
            None => return None,
        };
        assert(m.relations[r as int] == self.relations@[r as int]@);
        let i = match find_shadow(&self.shadows, relid) {
            Some(i) => i,
            None => return None,
        };
        assert(m.shadows[i as int] == self.shadows@[i as int]@);
        assert(shadow_sized(m.shadows[i as int]));
        let shadow = &self.shadows[i];
        if shadow.failed || end_lsn <= shadow.frontier {
            return None;
        }
        let (before, after): (Option<&Tuple>, Option<&Tuple>) = match &self.txs[tx].changes[change] {
            Change::Update { old, new, .. } => (
                match old {
                    Some(row) => Some(&row.1),
                    None => None,
                },
                Some(new),
            ),
            Change::Delete { old, .. } => (Some(old), None),
            _ => return None,
        };
        match worker::shadow_old_row(shadow, &self.relations[r], before, after, quoting) {
            Ok(query) => Some(Ask::OldRow { query }),
            Err(e) => {
                self.shadow_error = Some(e);
                None
            },
        }
    }

    fn take_old_row(&mut self, relid: u32, reply: Result<Option<Vec<Option<String>>>, String>)
        requires
            relation_at(old(self)@.relations, relid) is Some,
            shadow_at(old(self)@.shadows, relid) is Some,
        ensures
            ReplyModel::OldRow(old_row_reply(reply)) == Reply::OldRow(reply)@,
            final(self)@ == fetched(old(self)@, relid, old_row_reply(reply)),
    {
        let ghost m = self@;
        let r = match find_relation(&self.relations, relid) {
            Some(r) => r,
            None => return ,
        };
        let i = match find_shadow(&self.shadows, relid) {
            Some(i) => i,
            None => return ,
        };
        assert(m.relations[r as int] == self.relations@[r as int]@);
        assert(m.shadows[i as int] == self.shadows@[i as int]@);
        match reply {
            Ok(Some(values)) => {
                let row = worker::place_old_row(&self.shadows[i], &self.relations[r], &values);
                self.old_full = Some(row);
            },
            Ok(None) => {
                let message = "row not found in shadow ".to_string().concat(
                    &self.shadows[i].table,
                ).concat(" (shadow out of sync with the base table)");
                self.shadow_error = Some(message);
            },
            Err(e) => {
                self.shadow_error = Some(e);
            },
        }
    }

    fn plan_one(
        &mut self,
        tx: usize,
        change: usize,
        relid: u32,
        view: usize,
        quoting: &Quoting,
    ) -> (result: Option<Ask>)
        requires
            fits(old(self)@),
            unit_known(old(self)@, Unit::Change { tx, change, relid }),
            view < old(self)@.width,
        ensures
            ({
                let step = plan_view(
                    old(self)@,
                    tx as int,
                    change as int,
                    relid,
                    view as int,
                    quoting@,
                );
                final(self)@ == step.round && view_of_option(result) == step.ask
                    && step.statements.len() == 0
            }),
    {
        let ghost m = self@;
        let end_lsn: u64 = self.txs[tx].end_lsn;
        assert(m.txs[tx as int] == self.txs@[tx as int]@);
        assert(m.txs[tx as int].changes[change as int] == self.txs@[tx as int].changes@[change as int]@);
        assert(m.views[view as int] == self.views@[view as int]@);
        if self.views[view].dead || !self.views[view].active_for(relid, end_lsn) {
            return None;
        }
        let r = match find_relation(&self.relations, relid) {
            Some(r) => r,
            None => return None,
        };
        assert(m.relations[r as int] == self.relations@[r as int]@);
        if self.views[view].spec.is_join() {
            if let Some(e) = &self.shadow_error {
                let reason = "shadow of ".to_string().concat(&self.relations[r].name).concat(
                    " could not provide the old row: ",
                ).concat(e);
                let ghost before = self.views@;
                self.views[view].stale = Some(reason);
                proof {
                    lemma_views_update(before, view as int, self.views@[view as int]);
                    assert(self.views@ =~= before.update(view as int, self.views@[view as int]));
                }
                return None;
            }
        }
        let old_full: Option<&Tuple> = match &self.old_full {
            Some(row) => Some(row),
            None => None,
        };
        let plan = worker::plan_change(
            &self.views[view],
            &self.relations[r],
            &self.txs[tx].changes[change],
            old_full,
            quoting,
        );
        Some(Ask::Plan { view, plan })
    }

    fn take_plan(&mut self, view: usize, reply: Result<Planned, String>)
        requires
            view < old(self)@.views.len(),
        ensures
            final(self)@ == planned_view(old(self)@, view as int, planned_model(reply)),
    {
        let ghost m = self@;
        let ghost before = self.views@;
        assert(m.views[view as int] == self.views@[view as int]@);
        match reply {
            Ok(Planned::Ops(ops)) => {
                let mut more = ops;
                let ghost added = views(more@);
                let ghost had = views(self.views@[view as int].ops@);
                self.views[view].ops.append(&mut more);
                assert(views(self.views@[view as int].ops@) =~= had + added);
            },
            Ok(Planned::Stale(stale)) => {
                self.views[view].stale = Some(stale.0);
            },
            Err(message) => {
                self.views[view].failed = Some(message);
            },
        }
        proof {
            lemma_views_update(before, view as int, self.views@[view as int]);
            assert(self.views@ =~= before.update(view as int, self.views@[view as int]));
        }
    }

    fn lose_shadow(&mut self, relid: u32, message: &str, statements: &mut Vec<Statement>)
        requires
            relation_at(old(self)@.relations, relid) is Some,
            shadow_at(old(self)@.shadows, relid) is Some,
        ensures
            ({
                let step = shadow_lost(old(self)@, relid, message@);
                final(self)@ == step.round && views(final(statements)@) == views(
                    old(statements)@,
                ) + step.statements
            }),
    {
        let ghost m = self@;
        let r = match find_relation(&self.relations, relid) {
            Some(r) => r,
            None => return ,
        };
        let i = match find_shadow(&self.shadows, relid) {
            Some(i) => i,
            None => return ,
        };
        let ghost rel = m.relations[r as int];
        assert(rel == self.relations@[r as int]@);
        assert(m.shadows[i as int] == self.shadows@[i as int]@);
        let ghost shadows_before = self.shadows@;
        let (statement, notice) = worker::record_shadow_failure(&mut self.shadows[i], message);
        push_notice(&mut self.log, notice);
        let ghost told = self.log;
        proof {
            lemma_views_update(shadows_before, i as int, self.shadows@[i as int]);
            assert(self.shadows@ =~= shadows_before.update(i as int, self.shadows@[i as int]));
        }
        push_all(statements, statement);
        let ghost views_before = self.views@;
        let mut v: usize = 0;
        while v < self.views.len()
            invariant
                v <= self.views@.len() == views_before.len(),
                r < self.relations@.len(),
                rel == self.relations@[r as int]@,
                self@ == (RoundModel { views: views(self.views@), ..self@ }),
                self.txs == old(self).txs,
                self.relations == old(self).relations,
                self.units == old(self).units,
                self.position == old(self).position,
                self.stage == old(self).stage,
                self.old_full == old(self).old_full,
                self.shadow_error == old(self).shadow_error,
                self.pending == old(self).pending,
                self.absorbed == old(self).absorbed,
                self.processed == old(self).processed,
                self.blocked_at == old(self).blocked_at,
                self.log == told,
                views(self.shadows@) == shadow_lost(m, relid, message@).round.shadows,
                forall|j: int|
                    0 <= j < v ==> (#[trigger] self.views@[j])@ == without_shadow(
                        views_before[j]@,
                        relid,
                        rel,
                        message@,
                    ),
                forall|j: int| v <= j < self.views@.len() ==> #[trigger] self.views@[j] == views_before[j],
            decreases self.views@.len() - v,
        {
            worker::record_shadow_failure_for_view(
                &mut self.views[v],
                relid,
                &self.relations[r],
                message,
            );
            v = v + 1;
        }
        assert(views(self.views@) =~= m.views.map_values(
            |x: LiveModel| without_shadow(x, relid, rel, message@),
        ));
    }

    fn maintain_shadow(
        &mut self,
        tx: usize,
        change: usize,
        relid: u32,
        quoting: &Quoting,
        statements: &mut Vec<Statement>,
    ) -> (result: Option<Ask>)
        requires
            fits(old(self)@),
            unit_known(old(self)@, Unit::Change { tx, change, relid }),
        ensures
            ({
                let step = maintain(old(self)@, tx as int, change as int, relid, quoting@);
                final(self)@ == step.round && view_of_option(result) == step.ask && views(
                    final(statements)@,
                ) == views(old(statements)@) + step.statements
            }),
    {
        let ghost m = self@;
        let end_lsn: u64 = self.txs[tx].end_lsn;
        assert(m.txs[tx as int] == self.txs@[tx as int]@);
        assert(m.txs[tx as int].changes[change as int] == self.txs@[tx as int].changes@[change as int]@);
        assert(views(statements@) =~= views(statements@) + Seq::empty());
        let r = match find_relation(&self.relations, relid) {
            Some(r) => r,
            None => return None,
        };
        assert(m.relations[r as int] == self.relations@[r as int]@);
        let i = match find_shadow(&self.shadows, relid) {
            Some(i) => i,
            None => return None,
        };
        assert(m.shadows[i as int] == self.shadows@[i as int]@);
        assert(shadow_sized(m.shadows[i as int]));
        if self.shadows[i].failed || end_lsn <= self.shadows[i].frontier {
            return None;
        }
        let old_full: Option<&Tuple> = match &self.old_full {
            Some(row) => Some(row),
            None => None,
        };
        let c = &self.txs[tx].changes[change];
        let new_full = match complete_new_row(&self.relations[r], c, old_full) {
            Ok(row) => row,
            Err(message) => return Some(Ask::Fail { message }),
        };
        if let Some(e) = &self.shadow_error {
            let message = e.clone();
            self.lose_shadow(relid, &message, statements);
            return None;
        }
        let is_update = match c {
            Change::Update { .. } => true,
            _ => false,
        };
        if is_update && new_full.is_none() {
            self.lose_shadow(
                relid,
                "unchanged TOAST value could not be recovered from the shadow",
                statements,
            );
            return None;
        }
        let new_row: Option<&Tuple> = match &new_full {
            Some(row) => Some(row),
            None => None,
        };
        let plan = worker::shadow_apply(
            &self.shadows[i],
            &self.relations[r],
            c,
            old_full,
            new_row,
            quoting,
        );
        Some(Ask::Shadow { plan })
    }
}

pub open spec fn old_row_reply(reply: Result<Option<Vec<Option<String>>>, String>) -> Result<
    Option<Seq<Option<Seq<char>>>>,
    Seq<char>,
> {
    match reply {
        Ok(Some(values)) => Ok(Some(texts(values@))),
        Ok(None) => Ok(None),
        Err(e) => Err(e@),
    }
}

impl Round {
    fn fail_view(
        &mut self,
        tx: usize,
        view: usize,
        message: &str,
        max_apply_failures: i32,
        statements: &mut Vec<Statement>,
    )
        requires
            tx < old(self)@.txs.len(),
            view < old(self)@.views.len(),
            old(self)@.views[view as int].apply_failures < i32::MAX,
        ensures
            ({
                let m = old(self)@;
                let step = view_failed(
                    m,
                    tx as int,
                    view as int,
                    m.views[view as int],
                    message@,
                    max_apply_failures,
                );
                final(self)@ == step.round && views(final(statements)@) == views(
                    old(statements)@,
                ) + step.statements
            }),
    {
        let ghost m = self@;
        let ghost before = self.views@;
        assert(m.views[view as int] == self.views@[view as int]@);
        let end_lsn: u64 = self.txs[tx].end_lsn;
        assert(m.txs[tx as int] == self.txs@[tx as int]@);
        let (live, statement, notice) = worker::record_failure(
            &mut self.views[view],
            end_lsn,
            message,
            max_apply_failures,
        );
        push_all(statements, statement);
        push_notice(&mut self.log, notice);
        if live && self.blocked_at.is_none() {
            self.blocked_at = Some(tx);
        }
        self.views[view].failed_this_round = true;
        self.views[view].dead = true;
        proof {
            lemma_views_update(before, view as int, self.views@[view as int]);
            assert(self.views@ =~= before.update(view as int, self.views@[view as int]));
        }
    }

    fn execute_one(
        &mut self,
        tx: usize,
        view: usize,
        max_apply_failures: i32,
        statements: &mut Vec<Statement>,
    ) -> (result: Option<Ask>)
        requires
            fits(old(self)@),
            tx < old(self)@.txs.len(),
            view < old(self)@.width,
        ensures
            ({
                let step = execute_view(old(self)@, tx as int, view as int, max_apply_failures);
                final(self)@ == step.round && view_of_option(result) == step.ask && views(
                    final(statements)@,
                ) == views(old(statements)@) + step.statements
            }),
    {
        let ghost m = self@;
        let ghost before = self.views@;
        let end_lsn: u64 = self.txs[tx].end_lsn;
        assert(m.txs[tx as int] == self.txs@[tx as int]@);
        assert(m.views[view as int] == self.views@[view as int]@);
        assert(can_fail(m.views[view as int]));
        assert(views(statements@) =~= views(statements@) + Seq::empty());
        if self.views[view].dead || end_lsn <= self.views[view].frontier {
            return None;  // dead for this round, or already absorbed
        }
        let stale = self.views[view].stale.take();
        if let Some(reason) = stale {
            let (statement, notice) = worker::mark_stale(&self.views[view], &reason);
            push_all(statements, statement);
            push_notice(&mut self.log, notice);
            self.views[view].dead = true;
            proof {
                lemma_views_update(before, view as int, self.views@[view as int]);
                assert(self.views@ =~= before.update(view as int, self.views@[view as int]));
            }
            return None;
        }
        let failed = self.views[view].failed.take();
        if let Some(message) = failed {
            proof {
                lemma_views_update(before, view as int, self.views@[view as int]);
                assert(self.views@ =~= before.update(view as int, self.views@[view as int]));
                let v = m.views[view as int];
                assert(m.views.update(view as int, LiveModel { failed: None, ..v }).update(
                    view as int,
                    view_failed(
                        m,
                        tx as int,
                        view as int,
                        LiveModel { failed: None, ..v },
                        message@,
                        max_apply_failures,
                    ).round.views[view as int],
                ) =~= view_failed(
                    m,
                    tx as int,
                    view as int,
                    LiveModel { failed: None, ..v },
                    message@,
                    max_apply_failures,
                ).round.views);
            }
            self.fail_view(tx, view, &message, max_apply_failures, statements);
            return None;
        }
        let mut ops: Vec<Op> = Vec::new();
        std::mem::swap(&mut ops, &mut self.views[view].ops);
        proof {
            assert(views(self.views@[view as int].ops@) =~= Seq::empty());
            lemma_views_update(before, view as int, self.views@[view as int]);
            assert(self.views@ =~= before.update(view as int, self.views@[view as int]));
        }
        Some(Ask::Execute { view, ops })
    }

    fn absorb(&mut self, tx: usize, view: usize, deltas: Vec<Delta>)
        requires
            fits(old(self)@),
            tx < old(self)@.txs.len(),
            view < old(self)@.width,
            old(self)@.views[view as int].last_seq + deltas@.len() <= i64::MAX,
        ensures
            final(self)@ == view_absorbed(old(self)@, tx as int, view as int, views(deltas@)),
    {
        let ghost m = self@;
        let ghost before = self.views@;
        let ghost pending_before = self.pending@;
        let ghost given = views(deltas@);
        assert(m.txs[tx as int] == self.txs@[tx as int]@);
        assert(m.views[view as int] == self.views@[view as int]@);
        assert(m.pending[view as int] == views(self.pending@[view as int]@));
        let end_lsn: u64 = self.txs[tx].end_lsn;
        let xid: u32 = self.txs[tx].xid;
        proof {
            apply::law_net_is_no_longer(m.views[view as int].spec, given);
        }
        // Storage writes stay per change; the log gets the transaction's
        // net effect per identity key.
        let net = apply::net(&self.views[view].spec, deltas);
        let ghost netted_deltas = views(net@);
        let start: i64 = self.views[view].last_seq;
        let ghost had = m.pending[view as int];
        let ghost added = numbered(netted_deltas, start as int, end_lsn, xid);
        let total: usize = net.len();
        let mut rows: Vec<PendingDelta> = Vec::new();
        let mut seq: i64 = start;
        let mut i: usize = 0;
        for delta in it: net
            invariant
                i == it.index(),
                it.seq() == net@,
                netted_deltas == views(net@),
                total == net@.len(),
                i <= total,
                seq == start + i,
                start + total <= i64::MAX,
                added == numbered(netted_deltas, start as int, end_lsn, xid),
                rows@.len() == i,
                forall|j: int| 0 <= j < i ==> (#[trigger] rows@[j])@ == added[j],
        {
            assert(netted_deltas[i as int] == net@[i as int]@);
            seq = seq + 1;
            rows.push(
                PendingDelta { seq, lsn: end_lsn, xid, op: delta.op, row_json: delta.row_json },
            );
            i = i + 1;
        }
        assert(views(rows@) =~= added);
        self.pending[view].append(&mut rows);
        self.views[view].touched = self.views[view].touched || total > 0;
        self.views[view].last_seq = seq;
        self.views[view].frontier = end_lsn;
        self.absorbed[view] = Some(end_lsn);
        proof {
            lemma_views_update(before, view as int, self.views@[view as int]);
            assert(self.views@ =~= before.update(view as int, self.views@[view as int]));
            assert(views(self.pending@[view as int]@) =~= had + added);
            assert(self.pending@ =~= pending_before.update(
                view as int,
                self.pending@[view as int],
            ));
            assert(pending_models(self.pending@) =~= m.pending.update(
                view as int,
                had + added,
            ));
            assert(self.absorbed@ =~= m.absorbed.update(view as int, Some(end_lsn)));
        }
    }

    fn close_transaction(&mut self, tx: usize)
        requires
            fits(old(self)@),
            tx < old(self)@.txs.len(),
        ensures
            final(self)@ == close(old(self)@, tx as int).round,
    {
        let ghost m = self@;
        let ghost before = self.shadows@;
        assert(m.txs[tx as int] == self.txs@[tx as int]@);
        assert(self.txs.len() == self.txs@.len());
        let end_lsn: u64 = self.txs[tx].end_lsn;
        let mut i: usize = 0;
        while i < self.shadows.len()
            invariant
                i <= self.shadows@.len() == before.len(),
                self.txs == old(self).txs,
                self.relations == old(self).relations,
                self.views == old(self).views,
                self.units == old(self).units,
                self.position == old(self).position,
                self.stage == old(self).stage,
                self.old_full == old(self).old_full,
                self.shadow_error == old(self).shadow_error,
                self.pending == old(self).pending,
                self.absorbed == old(self).absorbed,
                self.blocked_at == old(self).blocked_at,
                self.log == old(self).log,
                forall|j: int|
                    0 <= j < i ==> (#[trigger] self.shadows@[j])@ == shadow_closed(
                        before[j]@,
                        end_lsn,
                    ),
                forall|j: int|
                    i <= j < self.shadows@.len() ==> #[trigger] self.shadows@[j] == before[j],
            decreases self.shadows@.len() - i,
        {
            if !self.shadows[i].failed && end_lsn > self.shadows[i].frontier {
                self.shadows[i].frontier = end_lsn;
                self.shadows[i].advanced = true;
            }
            i = i + 1;
        }
        assert(views(self.shadows@) =~= m.shadows.map_values(
            |s: ShadowModel| shadow_closed(s, end_lsn),
        ));
        self.processed = tx + 1;
    }

    fn step(&mut self)
        requires
            fits(old(self)@),
            old(self)@.position < old(self)@.units.len(),
        ensures
            final(self)@ == stepped(old(self)@),
    {
        let width: usize = self.views.len();
        assert(self.units.len() == self.units@.len());
        let count: usize = match self.units[self.position] {
            Unit::Change { .. } => width + 2,
            Unit::Apply { .. } => width + 1,
        };
        if self.stage + 1 < count {
            self.stage = self.stage + 1;
        } else {
            self.position = self.position + 1;
            self.stage = 0;
        }
    }

    fn begin_stage(
        &mut self,
        quoting: &Quoting,
        max_apply_failures: i32,
        statements: &mut Vec<Statement>,
    ) -> (result: Option<Ask>)
        requires
            fits(old(self)@),
            old(self)@.position < old(self)@.units.len(),
        ensures
            ({
                let step = begin(old(self)@, quoting@, max_apply_failures);
                final(self)@ == step.round && view_of_option(result) == step.ask && views(
                    final(statements)@,
                ) == views(old(statements)@) + step.statements
            }),
    {
        let ghost m = self@;
        let width: usize = self.views.len();
        let stage: usize = self.stage;
        let unit = self.units[self.position];
        proof {
            lemma_unit_known(m, m.txs.len(), m.position as int);
        }
        assert(views(statements@) =~= views(statements@) + Seq::empty());
        match unit {
            Unit::Change { tx, change, relid } => if stage == 0 {
                let ask = self.fetch_old_row(tx, change, relid, quoting);
                proof {
                    let none = fetch_begun(m, tx as int, change as int, relid, quoting@).statements;
                    assert(views(statements@) =~= views(statements@) + none);
                }
                ask
            } else if stage <= width {
                let ask = self.plan_one(tx, change, relid, stage - 1, quoting);
                proof {
                    let none = plan_view(
                        m,
                        tx as int,
                        change as int,
                        relid,
                        stage - 1,
                        quoting@,
                    ).statements;
                    assert(views(statements@) =~= views(statements@) + none);
                }
                ask
            } else {
                self.maintain_shadow(tx, change, relid, quoting, statements)
            },
            Unit::Apply { tx } => if stage < width {
                self.execute_one(tx, stage, max_apply_failures, statements)
            } else {
                self.close_transaction(tx);
                None
            },
        }
    }
}

proof fn lemma_lost_fits(m: RoundModel, relid: u32, message: Seq<char>)
    requires
        fits(m),
        shadow_at(m.shadows, relid) is Some,
    ensures
        fits(shadow_lost(m, relid, message).round),
{
    lemma_shadow_at(m.shadows, relid);
    let after = shadow_lost(m, relid, message).round;
    assert forall|i: int| 0 <= i < after.views.len() implies can_fail(#[trigger] after.views[i]) by {
        assert(can_fail(m.views[i]));
    }
    assert forall|i: int| 0 <= i < after.shadows.len() implies shadow_sized(
        #[trigger] after.shadows[i],
    ) by {
        assert(shadow_sized(m.shadows[i]));
    }
}

proof fn lemma_begin_fits(
    m: RoundModel,
    quoting: spec_fn(Seq<char>) -> Seq<char>,
    max_apply_failures: i32,
)
    requires
        fits(m),
        m.position < m.units.len(),
    ensures
        fits(begin(m, quoting, max_apply_failures).round),
{
    let after = begin(m, quoting, max_apply_failures).round;
    match task_of(m.units[m.position as int], m.width, m.stage) {
        Task::Fetch { .. } => {},
        Task::Plan { view, .. } => {
            assert(can_fail(m.views[view]));
        },
        Task::Maintain { tx, change, relid } => {
            if shadow_at(m.shadows, relid) is Some {
                lemma_lost_fits(
                    m,
                    relid,
                    "unchanged TOAST value could not be recovered from the shadow"@,
                );
                if m.shadow_error is Some {
                    lemma_lost_fits(m, relid, m.shadow_error->0);
                }
            }
        },
        Task::Execute { tx, view } => {
            assert(can_fail(m.views[view]));
        },
        Task::Close { tx } => {
            assert forall|i: int| 0 <= i < after.shadows.len() implies shadow_sized(
                #[trigger] after.shadows[i],
            ) by {
                assert(shadow_sized(m.shadows[i]));
            }
        },
    }
}

proof fn lemma_begin_awaits(
    m: RoundModel,
    quoting: spec_fn(Seq<char>) -> Seq<char>,
    max_apply_failures: i32,
)
    requires
        fits(m),
        m.position < m.units.len(),
    ensures
        ({
            let step = begin(m, quoting, max_apply_failures);
            wants_reply(step.ask) ==> awaiting(step.round) && asked(step.round, step.ask->0)
        }),
{
}

proof fn lemma_answered_fits(m: RoundModel, reply: ReplyModel, max_apply_failures: i32)
    requires
        fits(m),
        answers(m, reply),
    ensures
        fits(answered(m, reply, max_apply_failures).round),
{
    match (task_of(m.units[m.position as int], m.width, m.stage), reply) {
        (Task::Maintain { tx, change, relid }, ReplyModel::Shadow(Err(message))) => {
            lemma_lost_fits(m, relid, message);
        },
        (Task::Execute { tx, view }, ReplyModel::Executed(result)) => {
            assert(can_fail(m.views[view]));
        },
        (Task::Plan { view, .. }, ReplyModel::Planned(_)) => {
            assert(can_fail(m.views[view]));
        },
        _ => {},
    }
}

impl Round {
    /// Run the round until it asks for something or is done. The statements
    /// record what happened and are to be run first.
    pub fn run(
        &mut self,
        quoting: &Quoting,
        max_apply_failures: i32,
        statements: &mut Vec<Statement>,
    ) -> (result: Ask)
        requires
            fits(old(self)@),
        ensures
            ({
                let step = run(
                    old(self)@,
                    views(old(statements)@),
                    quoting@,
                    max_apply_failures,
                );
                final(self)@ == step.round && step.ask == Some(result@) && views(
                    final(statements)@,
                ) == step.statements
            }),
            fits(final(self)@),
            wants_reply(Some(result@)) ==> awaiting(final(self)@) && asked(
                final(self)@,
                result@,
            ),
    {
        let ghost outcome = run(self@, views(statements@), quoting@, max_apply_failures);
        while self.position < self.units.len()
            invariant
                fits(self@),
                outcome == run(
                    old(self)@,
                    views(old(statements)@),
                    quoting@,
                    max_apply_failures,
                ),
                outcome == run(self@, views(statements@), quoting@, max_apply_failures),
            decreases self.units@.len() - self.position, self.views@.len() + 2 - self.stage,
        {
            proof {
                lemma_begin_fits(self@, quoting@, max_apply_failures);
                lemma_begin_awaits(self@, quoting@, max_apply_failures);
            }
            if let Some(ask) = self.begin_stage(quoting, max_apply_failures, statements) {
                return ask;
            }
            self.step();
        }
        Ask::Done
    }

    /// Go on with the reply to what was asked for.
    pub fn resume(
        &mut self,
        reply: Reply,
        quoting: &Quoting,
        max_apply_failures: i32,
        statements: &mut Vec<Statement>,
    ) -> (result: Ask)
        requires
            fits(old(self)@),
            answers(old(self)@, reply@),
            old(statements)@.len() == 0,
        ensures
            ({
                let step = resumed(old(self)@, reply@, quoting@, max_apply_failures);
                final(self)@ == step.round && step.ask == Some(result@) && views(
                    final(statements)@,
                ) == step.statements
            }),
            fits(final(self)@),
            wants_reply(Some(result@)) ==> awaiting(final(self)@) && asked(
                final(self)@,
                result@,
            ),
    {
        let ghost m = self@;
        let ghost model = reply@;
        proof {
            lemma_answered_fits(m, model, max_apply_failures);
            lemma_unit_known(m, m.txs.len(), m.position as int);
        }
        assert(views(statements@) =~= Seq::empty());
        let stage: usize = self.stage;
        match self.units[self.position] {
            Unit::Change { tx, change, relid } => match reply {
                Reply::OldRow(row) => {
                    self.take_old_row(relid, row);
                },
                Reply::Planned(result) => {
                    self.take_plan(stage - 1, result);
                },
                Reply::Shadow(Err(message)) => {
                    self.lose_shadow(relid, &message, statements);
                },
                _ => {},
            },
            Unit::Apply { tx } => match reply {
                Reply::Executed(Ok(deltas)) => {
                    self.absorb(tx, stage, deltas);
                },
                Reply::Executed(Err(message)) => {
                    assert(can_fail(m.views[stage as int]));
                    self.fail_view(tx, stage, &message, max_apply_failures, statements);
                },
                _ => {},
            },
        }
        assert(views(statements@) =~= answered(m, model, max_apply_failures).statements);
        self.step();
        self.run(quoting, max_apply_failures, statements)
    }
}

// --- opening a round -----------------------------------------------------------------------

/// The relations that the first `n` pieces touch, in the order of their first
/// appearance.
pub open spec fn touched_relids(units: Seq<Unit>, n: nat) -> Seq<u32>
    decreases n,
{
    if n == 0 {
        Seq::empty()
    } else {
        let before = touched_relids(units, (n - 1) as nat);
        match units[n - 1] {
            Unit::Change { tx, change, relid } => if before.contains(relid) {
                before
            } else {
                before.push(relid)
            },
            Unit::Apply { .. } => before,
        }
    }
}

/// The relations whose definitions a round over `txs` needs.
pub fn changed_relations(txs: &Vec<SourceTransaction>) -> (result: Vec<u32>)
    ensures
        ({
            let units = all_units(views(txs@), txs@.len());
            result@ == touched_relids(units, units.len())
        }),
{
    let units = units_of(txs);
    let mut out: Vec<u32> = Vec::new();
    let mut i: usize = 0;
    while i < units.len()
        invariant
            i <= units@.len(),
            out@ == touched_relids(units@, i as nat),
        decreases units@.len() - i,
    {
        if let Unit::Change { relid, .. } = units[i] {
            let mut seen = false;
            let mut k: usize = 0;
            while k < out.len()
                invariant
                    k <= out@.len(),
                    seen == exists|j: int| 0 <= j < k && out@[j] == relid,
                decreases out@.len() - k,
            {
                if out[k] == relid {
                    seen = true;
                }
                k = k + 1;
            }
            if !seen {
                out.push(relid);
            }
        }
        i = i + 1;
    }
    out
}

/// What a change of a relation is answered that was never announced.
pub fn unknown_relation(relid: u32) -> (result: String)
    ensures
        result@ == "change for unknown relation "@ + decimal(relid as nat),
{
    "change for unknown relation ".to_string().concat(&text::decimal_text(relid as u64))
}

/// The query for the type name of a column that has not been resolved.
pub open spec fn type_statement(typid: u32, typmod: i32) -> StatementModel {
    StatementModel {
        sql: "SELECT pg_catalog.format_type($1::oid, $2)"@,
        args: seq![ArgModel::Int8(typid as i64), ArgModel::Int4(typmod)],
    }
}

pub fn type_query(rel: &Relation, column: usize) -> (result: Option<Statement>)
    requires
        column < rel.columns@.len(),
    ensures
        view_of_option(result) == match rel@.columns[column as int].resolved_type {
            Some(_) => None,
            None => Some(
                type_statement(
                    rel@.columns[column as int].typid,
                    rel@.columns[column as int].typmod,
                ),
            ),
        },
{
    let col = &rel.columns[column];
    assert(rel@.columns[column as int] == col@);
    if col.resolved_type.is_some() {
        return None;
    }
    let s = Statement {
        sql: "SELECT pg_catalog.format_type($1::oid, $2)".to_string(),
        args: vec![Arg::Int8(col.typid as i64), Arg::Int4(col.typmod)],
    };
    assert(s@.args =~= type_statement(col.typid, col.typmod).args);
    Some(s)
}

/// The type of a column is resolved to what the query returned.
pub fn resolve_type(rel: &mut Relation, column: usize, name: Option<String>) -> (result: Result<
    (),
    String,
>)
    requires
        column < old(rel).columns@.len(),
    ensures
        match name {
            Some(ty) => result is Ok && final(rel)@ == (RelationModel {
                columns: old(rel)@.columns.update(
                    column as int,
                    pgoutput::ColumnModel {
                        resolved_type: Some(ty@),
                        ..old(rel)@.columns[column as int]
                    },
                ),
                ..old(rel)@
            }),
            None => final(rel)@ == old(rel)@ && result is Err && (result->Err_0)@
                == "unknown type oid "@ + decimal(old(rel)@.columns[column as int].typid as nat),
        },
{
    let ghost before = rel.columns@;
    assert(rel@.columns[column as int] == rel.columns@[column as int]@);
    match name {
        None => Err(
            "unknown type oid ".to_string().concat(
                &text::decimal_text(rel.columns[column].typid as u64),
            ),
        ),
        Some(ty) => {
            rel.columns[column].resolved_type = Some(ty);
            proof {
                lemma_views_update(before, column as int, rel.columns@[column as int]);
                assert(rel.columns@ =~= before.update(column as int, rel.columns@[column as int]));
            }
            Ok(())
        },
    }
}

/// The name by which the first `n` views know a relation.
pub open spec fn known_as(live: Seq<LiveModel>, relid: u32, n: nat) -> Option<Seq<char>>
    decreases n,
{
    if n == 0 {
        None
    } else {
        match known_as(live, relid, (n - 1) as nat) {
            Some(name) => Some(name),
            None => match worker::relation_position(live[n - 1].spec.relations, relid) {
                Some(i) => Some(live[n - 1].spec.relations[i].qualified),
                None => None,
            },
        }
    }
}

pub open spec fn qualified_name(live: Seq<LiveModel>, rel: RelationModel) -> Seq<char> {
    match known_as(live, rel.id, live.len()) {
        Some(name) => name,
        None => rel.namespace + "."@ + rel.name,
    }
}

pub open spec fn round_end(txs: Seq<TransactionModel>) -> u64 {
    if txs.len() == 0 {
        0
    } else {
        txs.last().end_lsn
    }
}

/// A view over a relation with this definition: it loses exactly the columns
/// that it uses.
pub open spec fn view_drifted(v: LiveModel, rel: RelationModel, end: u64) -> LiveModel {
    if v.stale is None && end > v.frontier && worker::drifted(v.spec, rel.id, rel) is Some {
        LiveModel { stale: worker::drifted(v.spec, rel.id, rel), ..v }
    } else {
        v
    }
}

/// The round once the definition of the relation at `r` is compared with what
/// views and shadows expect: shadows drop the columns from their active set
/// (or fail on a key).
pub open spec fn drift_one(m: RoundModel, r: int) -> Step {
    let rel = m.relations[r];
    let end = round_end(m.txs);
    let name = qualified_name(m.views, rel);
    let live = m.views.map_values(|v: LiveModel| view_drifted(v, rel, end));
    match shadow_at(m.shadows, rel.id) {
        Some(i) if !m.shadows[i].failed && end > m.shadows[i].frontier => {
            let (s, statement) = worker::shadow_drifted(m.shadows[i], rel, name);
            Step {
                round: RoundModel {
                    shadows: m.shadows.update(i, s),
                    views: live,
                    log: match worker::drift_notice(m.shadows[i], rel, name) {
                        Some(notice) => m.log.push(notice),
                        None => m.log,
                    },
                    ..m
                },
                statements: match statement {
                    Some(st) => seq![st],
                    None => Seq::empty(),
                },
                ask: None,
            }
        },
        _ => quiet(RoundModel { views: live, ..m }),
    }
}

/// The same for the first `n` relations.
pub open spec fn drift_first(m: RoundModel, n: nat) -> Step
    decreases n,
{
    if n == 0 {
        quiet(m)
    } else {
        let before = drift_first(m, (n - 1) as nat);
        let step = drift_one(before.round, n - 1);
        Step {
            round: step.round,
            statements: before.statements + step.statements,
            ask: None,
        }
    }
}

impl Round {
    fn name_of(&self, r: usize) -> (result: String)
        requires
            r < self.relations@.len(),
        ensures
            result@ == qualified_name(self@.views, self@.relations[r as int]),
    {
        let rel = &self.relations[r];
        let ghost live = self@.views;
        assert(self@.relations[r as int] == rel@);
        let mut found: Option<String> = None;
        let mut v: usize = 0;
        while v < self.views.len()
            invariant
                live == self@.views,
                v <= self.views@.len(),
                view_of_option(found) == known_as(live, rel.id, v as nat),
            decreases self.views@.len() - v,
        {
            assert(live[v as int] == self.views@[v as int]@);
            if found.is_none() {
                if let Some(i) = self.views[v].relation_index(rel.id) {
                    assert(live[v as int].spec.relations[i as int]
                        == self.views@[v as int].spec.relations@[i as int]@);
                    found = Some(self.views[v].spec.relations[i].qualified.clone());
                }
            }
            v = v + 1;
        }
        match found {
            Some(name) => name,
            None => rel.namespace.clone().concat(".").concat(&rel.name),
        }
    }

    fn drift_relation(&mut self, r: usize, statements: &mut Vec<Statement>)
        requires
            fits(old(self)@),
            r < old(self)@.relations.len(),
        ensures
            ({
                let step = drift_one(old(self)@, r as int);
                final(self)@ == step.round && views(final(statements)@) == views(
                    old(statements)@,
                ) + step.statements
            }),
            fits(final(self)@),
    {
        let ghost m = self@;
        let end: u64 = if self.txs.len() == 0 {
            0
        } else {
            let last: usize = self.txs.len() - 1;
            assert(m.txs[last as int] == self.txs@[last as int]@);
            self.txs[last].end_lsn
        };
        let ghost rel = m.relations[r as int];
        assert(rel == self.relations@[r as int]@);
        let name = self.name_of(r);
        assert(views(statements@) =~= views(statements@) + Seq::empty());
        if let Some(i) = find_shadow(&self.shadows, self.relations[r].id) {
            assert(m.shadows[i as int] == self.shadows@[i as int]@);
            assert(shadow_sized(m.shadows[i as int]));
            let ghost before = self.shadows@;
            if !self.shadows[i].failed && end > self.shadows[i].frontier {
                let drift = worker::shadow_drift(
                    &mut self.shadows[i],
                    &self.relations[r],
                    &name,
                );
                proof {
                    lemma_views_update(before, i as int, self.shadows@[i as int]);
                    assert(self.shadows@ =~= before.update(i as int, self.shadows@[i as int]));
                }
                if let Some((statement, notice)) = drift {
                    push_all(statements, statement);
                    push_notice(&mut self.log, notice);
                }
            }
        }
        let ghost shadows_after = self.shadows;
        let ghost told = self.log;
        let ghost live = self.views@;
        let mut v: usize = 0;
        while v < self.views.len()
            invariant
                v <= self.views@.len() == live.len(),
                r < self.relations@.len(),
                rel == self.relations@[r as int]@,
                self.txs == old(self).txs,
                self.relations == old(self).relations,
                self.shadows == shadows_after,
                self.units == old(self).units,
                self.position == old(self).position,
                self.stage == old(self).stage,
                self.old_full == old(self).old_full,
                self.shadow_error == old(self).shadow_error,
                self.pending == old(self).pending,
                self.absorbed == old(self).absorbed,
                self.processed == old(self).processed,
                self.blocked_at == old(self).blocked_at,
                self.log == told,
                forall|j: int|
                    0 <= j < v ==> (#[trigger] self.views@[j])@ == view_drifted(
                        live[j]@,
                        rel,
                        end,
                    ),
                forall|j: int| v <= j < self.views@.len() ==> #[trigger] self.views@[j] == live[j],
            decreases self.views@.len() - v,
        {
            if self.views[v].stale.is_none() && end > self.views[v].frontier {
                let reason = self.views[v].drift(self.relations[r].id, &self.relations[r]);
                if reason.is_some() {
                    self.views[v].stale = reason;
                }
            }
            v = v + 1;
        }
        proof {
            assert(views(self.views@) =~= m.views.map_values(
                |x: LiveModel| view_drifted(x, rel, end),
            ));
            assert forall|i: int| 0 <= i < self@.views.len() implies can_fail(
                #[trigger] self@.views[i],
            ) by {
                assert(can_fail(m.views[i]));
            }
            assert forall|i: int| 0 <= i < self@.shadows.len() implies shadow_sized(
                #[trigger] self@.shadows[i],
            ) by {
                assert(shadow_sized(m.shadows[i]));
            }
        }
    }

    /// Schema drift, once per relation: views lose exactly the columns they
    /// use; shadows drop the columns from their active set (or fail on a key).
    pub fn drift(&mut self) -> (result: Vec<Statement>)
        requires
            fits(old(self)@),
        ensures
            ({
                let step = drift_first(old(self)@, old(self)@.relations.len());
                final(self)@ == step.round && views(result@) == step.statements
            }),
            fits(final(self)@),
    {
        let ghost m = self@;
        let mut statements: Vec<Statement> = Vec::new();
        let mut r: usize = 0;
        assert(views(statements@) =~= Seq::empty());
        while r < self.relations.len()
            invariant
                m == old(self)@,
                fits(self@),
                self@.relations == m.relations,
                self.relations@.len() == m.relations.len(),
                r <= self.relations@.len(),
                self@ == drift_first(m, r as nat).round,
                views(statements@) == drift_first(m, r as nat).statements,
            decreases self.relations@.len() - r,
        {
            self.drift_relation(r, &mut statements);
            assert(self@.relations.len() == self.relations@.len());
            r = r + 1;
        }
        statements
    }
}

/// Lock order storage table -> shadows -> catalog, the same order a DROP of
/// a view takes (ACCESS EXCLUSIVE on the storage table, then its sql_drop
/// trigger touches shadows and catalog rows). Taking the storage locks
/// first keeps the worker and concurrent DDL from deadlocking.
pub fn lock_statements(live: &Vec<LiveView>) -> (result: Vec<Statement>)
    ensures
        views(result@) == views(live@).map_values(
            |v: LiveModel|
                crate::statement::bare(
                    "LOCK TABLE "@ + v.storage + " IN ROW EXCLUSIVE MODE"@,
                ),
        ),
{
    let mut out: Vec<Statement> = Vec::new();
    let mut i: usize = 0;
    while i < live.len()
        invariant
            i <= live@.len(),
            out@.len() == i,
            forall|j: int|
                0 <= j < i ==> (#[trigger] out@[j])@ == crate::statement::bare(
                    "LOCK TABLE "@ + live@[j].storage@ + " IN ROW EXCLUSIVE MODE"@,
                ),
        decreases live@.len() - i,
    {
        out.push(
            Statement::bare(
                "LOCK TABLE ".to_string().concat(&live[i].storage).concat(
                    " IN ROW EXCLUSIVE MODE",
                ),
            ),
        );
        i = i + 1;
    }
    assert(views(out@) =~= views(live@).map_values(
        |v: LiveModel|
            crate::statement::bare("LOCK TABLE "@ + v.storage + " IN ROW EXCLUSIVE MODE"@),
    ));
    out
}

// --- closing a round -----------------------------------------------------------------------

/// How many deltas one INSERT carries, far below the parameter limit.
pub const DELTA_CHUNK: usize = 200;

/// The placeholders of the delta at position `i` of an INSERT.
pub open spec fn delta_placeholders(i: nat) -> Seq<char> {
    "($"@ + decimal(i * 6 + 1) + ", $"@ + decimal(i * 6 + 2) + ", $"@ + decimal(i * 6 + 3)
        + "::pg_lsn, $"@ + decimal(i * 6 + 4) + ", $"@ + decimal(i * 6 + 5) + "::\"char\", $"@
        + decimal(i * 6 + 6) + "::jsonb)"@
}

/// The values of one delta.
pub open spec fn delta_args(view_id: i32, d: PendingModel) -> Seq<ArgModel> {
    seq![
        ArgModel::Int4(view_id),
        ArgModel::Int8(d.seq),
        ArgModel::Text(Some(lsn::formatted(d.lsn))),
        ArgModel::Int8(d.xid as i64),
        ArgModel::Text(Some(seq![d.op])),
        ArgModel::Text(Some(d.row_json)),
    ]
}

/// The values of the first `n` deltas, one behind the other.
pub open spec fn all_delta_args(view_id: i32, deltas: Seq<PendingModel>, n: nat) -> Seq<ArgModel>
    decreases n,
{
    if n == 0 {
        Seq::empty()
    } else {
        all_delta_args(view_id, deltas, (n - 1) as nat) + delta_args(view_id, deltas[n - 1])
    }
}

/// One multi-row INSERT.
pub open spec fn delta_insert(view_id: i32, deltas: Seq<PendingModel>) -> StatementModel {
    StatementModel {
        sql: "INSERT INTO nabla.deltas (view_id, seq, lsn, xid, op, row) VALUES "@ + joined(
            Seq::new(deltas.len(), |i: int| delta_placeholders(i as nat)),
            ", "@,
        ),
        args: all_delta_args(view_id, deltas, deltas.len()),
    }
}

/// The INSERTs of a view's deltas, in chunks.
pub open spec fn delta_inserts(view_id: i32, deltas: Seq<PendingModel>) -> Seq<StatementModel>
    decreases deltas.len(),
{
    if deltas.len() == 0 {
        Seq::empty()
    } else if deltas.len() <= DELTA_CHUNK {
        seq![delta_insert(view_id, deltas)]
    } else {
        seq![delta_insert(view_id, deltas.take(DELTA_CHUNK as int))] + delta_inserts(
            view_id,
            deltas.skip(DELTA_CHUNK as int),
        )
    }
}

fn number(n: usize) -> (result: String)
    ensures
        result@ == decimal(n as nat),
{
    text::decimal_text(n as u64)
}

fn insert_chunk(view_id: i32, deltas: &Vec<PendingDelta>, from: usize, to: usize) -> (result:
    Statement)
    requires
        from <= to <= deltas@.len(),
        to - from <= DELTA_CHUNK,
    ensures
        result@ == delta_insert(view_id, views(deltas@).subrange(from as int, to as int)),
{
    let ghost chunk = views(deltas@).subrange(from as int, to as int);
    let mut values: Vec<String> = Vec::new();
    let mut args: Vec<Arg> = Vec::new();
    let mut i: usize = 0;
    assert(views(args@) =~= Seq::empty());
    while i < to - from
        invariant
            from <= to <= deltas@.len(),
            to - from <= DELTA_CHUNK,
            i <= to - from,
            chunk == views(deltas@).subrange(from as int, to as int),
            values@.len() == i,
            forall|j: int| 0 <= j < i ==> (#[trigger] values@[j])@ == delta_placeholders(j as nat),
            views(args@) == all_delta_args(view_id, chunk, i as nat),
        decreases to - from - i,
    {
        let d = &deltas[from + i];
        assert(chunk[i as int] == d@);
        let b: usize = i * 6;
        values.push(
            "($".to_string().concat(&number(b + 1)).concat(", $").concat(&number(b + 2)).concat(
                ", $",
            ).concat(&number(b + 3)).concat("::pg_lsn, $").concat(&number(b + 4)).concat(
                ", $",
            ).concat(&number(b + 5)).concat("::\"char\", $").concat(&number(b + 6)).concat(
                "::jsonb)",
            ),
        );
        let mut op = String::new();
        op.push(d.op);
        assert(op@ =~= seq![d.op]);
        let ghost before = views(args@);
        args.push(Arg::Int4(view_id));
        args.push(Arg::Int8(d.seq));
        args.push(Arg::Text(Some(lsn::format(d.lsn))));
        args.push(Arg::Int8(d.xid as i64));
        args.push(Arg::Text(Some(op)));
        args.push(Arg::Text(Some(d.row_json.clone())));
        assert(views(args@) =~= before + delta_args(view_id, d@));
        i = i + 1;
    }
    assert(views(values@) =~= Seq::new(chunk.len(), |i: int| delta_placeholders(i as nat)));
    Statement {
        sql: "INSERT INTO nabla.deltas (view_id, seq, lsn, xid, op, row) VALUES ".to_string().concat(
            &text::join(&values, ", "),
        ),
        args,
    }
}

/// Append a view's netted deltas of the round in multi-row INSERTs (chunked to
/// stay far below the parameter limit).
pub fn insert_deltas(view_id: i32, deltas: &Vec<PendingDelta>) -> (result: Vec<Statement>)
    ensures
        views(result@) == delta_inserts(view_id, views(deltas@)),
{
    let ghost all = views(deltas@);
    let mut out: Vec<Statement> = Vec::new();
    let mut from: usize = 0;
    assert(all.skip(0) =~= all);
    assert(views(out@) + delta_inserts(view_id, all) =~= delta_inserts(view_id, all));
    while from < deltas.len()
        invariant
            all == views(deltas@),
            from <= deltas@.len(),
            views(out@) + delta_inserts(view_id, all.skip(from as int)) == delta_inserts(
                view_id,
                all,
            ),
        decreases deltas@.len() - from,
    {
        let left: usize = deltas.len() - from;
        let to: usize = if left <= DELTA_CHUNK {
            deltas.len()
        } else {
            from + DELTA_CHUNK
        };
        let ghost before = views(out@);
        let ghost rest = all.skip(from as int);
        let statement = insert_chunk(view_id, deltas, from, to);
        let ghost added = statement@;
        out.push(statement);
        proof {
            assert(views(out@) =~= before.push(added));
            if left <= DELTA_CHUNK {
                assert(all.subrange(from as int, to as int) =~= rest);
                assert(all.skip(to as int) =~= Seq::empty());
            } else {
                assert(all.subrange(from as int, to as int) =~= rest.take(DELTA_CHUNK as int));
                assert(all.skip(to as int) =~= rest.skip(DELTA_CHUNK as int));
            }
            assert(before.push(added) + delta_inserts(view_id, all.skip(to as int)) =~= before
                + delta_inserts(view_id, rest));
        }
        from = to;
    }
    assert(all.skip(from as int) =~= Seq::empty());
    assert(views(out@) + Seq::empty() =~= views(out@));
    out
}

/// The catalog update of a view that absorbed something. A view that absorbed
/// part of the round and then failed keeps the failure bookkeeping; a clean
/// round resets it.
pub open spec fn frontier_statement(v: LiveModel, end: u64) -> StatementModel {
    StatementModel {
        sql: if v.failed_this_round {
            "UPDATE nabla.views SET frontier_lsn = $1::pg_lsn, last_seq = $2 WHERE id = $3"@
        } else {
            "UPDATE nabla.views SET frontier_lsn = $1::pg_lsn, last_seq = $2, apply_failures = 0, last_error = NULL, last_error_at = NULL WHERE id = $3"@
        },
        args: seq![
            ArgModel::Text(Some(lsn::formatted(end))),
            ArgModel::Int8(v.last_seq),
            ArgModel::Int4(v.id),
        ],
    }
}

/// The log keeps the last `retain` deltas of a view.
pub open spec fn retain_statement(v: LiveModel, retain: i32) -> StatementModel {
    StatementModel {
        sql: "DELETE FROM nabla.deltas WHERE view_id = $1 AND seq <= $2"@,
        args: seq![ArgModel::Int4(v.id), ArgModel::Int8((v.last_seq - retain) as i64)],
    }
}

/// Whether the number up to which a view's log is cleared can be written: it is
/// asked for only where the round has deltas of the view.
pub open spec fn can_retain(m: RoundModel, i: int, retain: i32) -> bool {
    m.absorbed[i] is Some && m.pending[i].len() > 0 ==> i64::MIN <= m.views[i].last_seq - retain
        <= i64::MAX
}

/// Subscribers are told of the last delta.
pub open spec fn notify_statement(v: LiveModel, last: PendingModel) -> StatementModel {
    StatementModel {
        sql: "SELECT pg_catalog.pg_notify($1, $2)"@,
        args: seq![
            ArgModel::Text(Some("nabla:"@ + v.name)),
            ArgModel::Text(
                Some(text::signed_decimal(last.seq as int) + ":"@ + lsn::formatted(last.lsn)),
            ),
        ],
    }
}

/// Once per view per round: frontier, bookkeeping reset, deltas, retention,
/// notification.
pub open spec fn view_statements(
    v: LiveModel,
    absorbed: Option<u64>,
    pending: Seq<PendingModel>,
    retain: i32,
) -> Seq<StatementModel> {
    match absorbed {
        None => Seq::empty(),
        Some(end) => if pending.len() == 0 {
            seq![frontier_statement(v, end)]
        } else {
            seq![frontier_statement(v, end)] + delta_inserts(v.id, pending) + seq![
                retain_statement(v, retain),
                notify_statement(v, pending.last()),
            ]
        },
    }
}

/// The statements of the first `n` views.
pub open spec fn views_statements(m: RoundModel, retain: i32, n: nat) -> Seq<StatementModel>
    decreases n,
{
    if n == 0 {
        Seq::empty()
    } else {
        views_statements(m, retain, (n - 1) as nat) + view_statements(
            m.views[n - 1],
            m.absorbed[n - 1],
            m.pending[n - 1],
            retain,
        )
    }
}

pub open spec fn shadow_statement(s: ShadowModel) -> StatementModel {
    StatementModel {
        sql: "UPDATE nabla.shadows SET frontier_lsn = $1::pg_lsn WHERE relid = $2::oid"@,
        args: seq![
            ArgModel::Text(Some(lsn::formatted(s.frontier))),
            ArgModel::Int8(s.relid as i64),
        ],
    }
}

/// The statements of the first `n` shadows.
pub open spec fn shadows_statements(shadows: Seq<ShadowModel>, n: nat) -> Seq<StatementModel>
    decreases n,
{
    if n == 0 {
        Seq::empty()
    } else if shadows[n - 1].advanced {
        shadows_statements(shadows, (n - 1) as nat).push(shadow_statement(shadows[n - 1]))
    } else {
        shadows_statements(shadows, (n - 1) as nat)
    }
}

/// How many deltas the first `n` views have.
pub open spec fn delta_count(m: RoundModel, n: nat) -> nat
    decreases n,
{
    if n == 0 {
        0
    } else if m.absorbed[n - 1] is Some {
        delta_count(m, (n - 1) as nat) + m.pending[n - 1].len()
    } else {
        delta_count(m, (n - 1) as nat)
    }
}

/// What a round came to.
#[derive(Debug, PartialEq, Eq)]
pub struct RoundStats {
    /// Deltas written to the log.
    pub deltas: usize,
    /// Source transactions processed in this round (a blocked round still
    /// reaches its end; the slot stops before the transaction that failed).
    pub processed: usize,
    /// Index of the first transaction some live view could not absorb.
    pub blocked_at: Option<usize>,
}

fn append_statements(out: &mut Vec<Statement>, more: Vec<Statement>)
    ensures
        views(final(out)@) == views(old(out)@) + views(more@),
{
    let mut rest = more;
    let ghost before = views(out@);
    let ghost added = views(rest@);
    out.append(&mut rest);
    assert(views(out@) =~= before + added);
}

impl Round {
    fn finish_view(&self, view: usize, retain: i32) -> (result: Vec<Statement>)
        requires
            fits(self@),
            view < self@.width,
            can_retain(self@, view as int, retain),
        ensures
            views(result@) == view_statements(
                self@.views[view as int],
                self@.absorbed[view as int],
                self@.pending[view as int],
                retain,
            ),
    {
        let v = &self.views[view];
        let ghost m = self@;
        let ghost model = m.views[view as int];
        assert(model == v@);
        assert(m.pending[view as int] == views(self.pending@[view as int]@));
        let mut out: Vec<Statement> = Vec::new();
        assert(views(out@) =~= Seq::empty());
        let end = match self.absorbed[view] {
            None => return out,
            Some(end) => end,
        };
        let sql = if v.failed_this_round {
            "UPDATE nabla.views SET frontier_lsn = $1::pg_lsn, last_seq = $2 WHERE id = $3"
        } else {
            "UPDATE nabla.views SET frontier_lsn = $1::pg_lsn, last_seq = $2, apply_failures = 0, last_error = NULL, last_error_at = NULL WHERE id = $3"
        };
        let frontier = Statement {
            sql: sql.to_string(),
            args: vec![
                Arg::Text(Some(lsn::format(end))),
                Arg::Int8(v.last_seq),
                Arg::Int4(v.id),
            ],
        };
        assert(frontier@.args =~= frontier_statement(model, end).args);
        push_all(&mut out, frontier);
        let pending = &self.pending[view];
        if pending.len() == 0 {
            assert(views(out@) =~= seq![frontier_statement(model, end)]);
            return out;
        }
        append_statements(&mut out, insert_deltas(v.id, pending));
        let oldest: i64 = v.last_seq - retain as i64;
        let gc = Statement {
            sql: "DELETE FROM nabla.deltas WHERE view_id = $1 AND seq <= $2".to_string(),
            args: vec![Arg::Int4(v.id), Arg::Int8(oldest)],
        };
        assert(gc@.args =~= retain_statement(model, retain).args);
        push_all(&mut out, gc);
        let last = &pending[pending.len() - 1];
        assert(views(pending@).last() == last@);
        let channel = "nabla:".to_string().concat(&v.name);
        let payload = text::signed_text(last.seq).concat(":").concat(&lsn::format(last.lsn));
        let notify = Statement {
            sql: "SELECT pg_catalog.pg_notify($1, $2)".to_string(),
            args: vec![Arg::Text(Some(channel)), Arg::Text(Some(payload))],
        };
        assert(notify@.args =~= notify_statement(model, last@).args);
        push_all(&mut out, notify);
        assert(views(out@) =~= view_statements(
            model,
            m.absorbed[view as int],
            m.pending[view as int],
            retain,
        ));
        out
    }

    /// The round-end bookkeeping, and what the round came to.
    pub fn finish(&self, retain: i32) -> (result: (Vec<Statement>, RoundStats))
        requires
            fits(self@),
            forall|i: int| 0 <= i < self@.width ==> #[trigger] can_retain(self@, i, retain),
            delta_count(self@, self@.width) <= usize::MAX,
        ensures
            views(result.0@) == views_statements(self@, retain, self@.width)
                + shadows_statements(self@.shadows, self@.shadows.len()),
            result.1.deltas == delta_count(self@, self@.width),
            result.1.processed == self@.processed,
            result.1.blocked_at == self@.blocked_at,
    {
        let ghost m = self@;
        let mut out: Vec<Statement> = Vec::new();
        let mut deltas: usize = 0;
        let mut v: usize = 0;
        assert(views(out@) =~= Seq::empty());
        while v < self.views.len()
            invariant
                m == self@,
                fits(m),
                forall|i: int| 0 <= i < m.width ==> #[trigger] can_retain(m, i, retain),
                delta_count(m, m.width) <= usize::MAX,
                v <= self.views@.len() == m.width,
                views(out@) == views_statements(m, retain, v as nat),
                deltas == delta_count(m, v as nat),
            decreases self.views@.len() - v,
        {
            proof {
                lemma_count_grows(m, (v + 1) as nat, m.width);
            }
            append_statements(&mut out, self.finish_view(v, retain));
            assert(m.pending[v as int] == views(self.pending@[v as int]@));
            if self.absorbed[v].is_some() {
                deltas = deltas + self.pending[v].len();
            }
            v = v + 1;
        }
        let ghost of_views = views(out@);
        let mut s: usize = 0;
        assert(of_views =~= of_views + shadows_statements(m.shadows, 0));
        while s < self.shadows.len()
            invariant
                m == self@,
                s <= self.shadows@.len(),
                views(out@) == of_views + shadows_statements(m.shadows, s as nat),
            decreases self.shadows@.len() - s,
        {
            let shadow = &self.shadows[s];
            assert(m.shadows[s as int] == shadow@);
            if shadow.advanced {
                let statement = Statement {
                    sql: "UPDATE nabla.shadows SET frontier_lsn = $1::pg_lsn WHERE relid = $2::oid".to_string(),
                    args: vec![
                        Arg::Text(Some(lsn::format(shadow.frontier))),
                        Arg::Int8(shadow.relid as i64),
                    ],
                };
                assert(statement@.args =~= shadow_statement(shadow@).args);
                push_all(&mut out, statement);
            }
            s = s + 1;
            assert(views(out@) =~= of_views + shadows_statements(m.shadows, s as nat));
        }
        let stats = RoundStats {
            deltas,
            processed: self.processed,
            blocked_at: self.blocked_at,
        };
        (out, stats)
    }
}

proof fn lemma_count_grows(m: RoundModel, n: nat, k: nat)
    requires
        n <= k,
    ensures
        delta_count(m, n) <= delta_count(m, k),
    decreases k - n,
{
    if n < k {
        lemma_count_grows(m, n, (k - 1) as nat);
    }
}

// --- laws ------------------------------------------------------------------------------------

/// A view takes no part in a transaction that it has absorbed already, nor in
/// any once it is dead for the round; neither does a shadow.
pub proof fn law_absorbed_is_skipped(
    m: RoundModel,
    tx: int,
    change: int,
    relid: u32,
    view: int,
    quoting: spec_fn(Seq<char>) -> Seq<char>,
    max_apply_failures: i32,
)
    requires
        0 <= view < m.views.len(),
    ensures
        m.views[view].dead || m.txs[tx].end_lsn <= m.views[view].frontier ==> plan_view(
            m,
            tx,
            change,
            relid,
            view,
            quoting,
        ) == quiet(m) && execute_view(m, tx, view, max_apply_failures) == quiet(m),
        shadow_at(m.shadows, relid) matches Some(i) && (m.shadows[i].failed || m.txs[tx].end_lsn
            <= m.shadows[i].frontier) ==> maintain(m, tx, change, relid, quoting) == quiet(m),
{
}

/// Everything has absorbed every transaction of the round.
pub open spec fn caught_up(m: RoundModel) -> bool {
    &&& forall|v: int, t: int|
        0 <= v < m.views.len() && 0 <= t < m.txs.len() ==> (#[trigger] m.txs[t]).end_lsn <= (
        #[trigger] m.views[v]).frontier
    &&& forall|s: int, t: int|
        0 <= s < m.shadows.len() && 0 <= t < m.txs.len() ==> (#[trigger] m.txs[t]).end_lsn <= (
        #[trigger] m.shadows[s]).frontier
}

/// A round over transactions that everything has absorbed is a no-op: it asks
/// for nothing, records nothing and changes neither views nor shadows, so that
/// a transaction that is delivered again is applied only once.
pub proof fn law_replay_is_a_no_op(
    m: RoundModel,
    done: Seq<StatementModel>,
    quoting: spec_fn(Seq<char>) -> Seq<char>,
    max_apply_failures: i32,
)
    requires
        fits(m),
        caught_up(m),
    ensures
        ({
            let step = run(m, done, quoting, max_apply_failures);
            &&& step.ask == Some(AskModel::Done)
            &&& step.statements == done
            &&& step.round.views == m.views
            &&& step.round.shadows == m.shadows
            &&& step.round.pending == m.pending
            &&& step.round.absorbed == m.absorbed
            &&& step.round.blocked_at == m.blocked_at
            &&& step.round.log == m.log
        }),
    decreases m.units.len() - m.position, m.width + 2 - m.stage,
{
    if m.position < m.units.len() {
        lemma_unit_known(m, m.txs.len(), m.position as int);
        lemma_begin_fits(m, quoting, max_apply_failures);
        let step = begin(m, quoting, max_apply_failures);
        match task_of(m.units[m.position as int], m.width, m.stage) {
            Task::Fetch { tx, change, relid } => {
                lemma_shadow_at(m.shadows, relid);
            },
            Task::Plan { tx, change, relid, view } => {
                assert(m.txs[tx].end_lsn <= m.views[view].frontier);
            },
            Task::Maintain { tx, change, relid } => {
                lemma_shadow_at(m.shadows, relid);
            },
            Task::Execute { tx, view } => {
                assert(m.txs[tx].end_lsn <= m.views[view].frontier);
            },
            Task::Close { tx } => {
                let end = m.txs[tx].end_lsn;
                assert forall|s: int| 0 <= s < m.shadows.len() implies shadow_closed(
                    #[trigger] m.shadows[s],
                    end,
                ) == m.shadows[s] by {
                    assert(m.txs[tx].end_lsn <= m.shadows[s].frontier);
                }
                assert(step.round.shadows =~= m.shadows);
            },
        }
        let (position, stage) = next_cursor(m.units, m.width, m.position, m.stage);
        let next = RoundModel { units: m.units, width: m.width, position, stage, ..step.round };
        assert(done + step.statements =~= done);
        law_replay_is_a_no_op(next, done, quoting, max_apply_failures);
    }
}

/// The transaction that the round has come to.
pub open spec fn tx_of(unit: Unit) -> int {
    match unit {
        Unit::Change { tx, .. } => tx as int,
        Unit::Apply { tx } => tx as int,
    }
}

pub open spec fn reached(m: RoundModel) -> int {
    if m.position < m.units.len() {
        tx_of(m.units[m.position as int])
    } else {
        m.txs.len() as int
    }
}

/// Whether a view has absorbed a transaction.
pub open spec fn covers(v: LiveModel, tx: TransactionModel) -> bool {
    tx.end_lsn <= v.frontier
}

/// A view that the catalog still has as live: it is not dead for the round, or
/// it failed and is to retry.
pub open spec fn is_live(v: LiveModel) -> bool {
    !v.dead || (v.failed_this_round && v.stale is None)
}

/// The deltas of a view carry the numbers up to its last one, without a gap.
pub open spec fn contiguous(pending: Seq<PendingModel>, last_seq: i64) -> bool {
    forall|k: int|
        0 <= k < pending.len() ==> (#[trigger] pending[k]).seq == last_seq - (pending.len() - 1 - k)
}

/// What holds of one view throughout a round.
pub open spec fn view_sound(m: RoundModel, i: int) -> bool {
    let v = m.views[i];
    &&& contiguous(m.pending[i], v.last_seq)
    &&& v.failed_this_round ==> v.dead
    &&& !v.dead ==> forall|t: int|
        0 <= t < reached(m) && t < m.txs.len() ==> covers(v, #[trigger] m.txs[t])
    &&& !v.dead && m.position < m.units.len() && (m.units[m.position as int] matches Unit::Apply {
        tx,
    } && i < m.stage) ==> covers(v, m.txs[reached(m)])
    &&& v.dead && is_live(v) ==> m.blocked_at is Some && forall|t: int|
        0 <= t < m.blocked_at->0 && t < m.txs.len() ==> covers(v, #[trigger] m.txs[t])
}

/// What holds throughout a round: every transaction that the round has left
/// behind is counted; deltas are numbered without a gap; a view
/// that is not dead has absorbed every transaction that the round has left
/// behind; and a dead view that is to retry has absorbed every transaction in
/// front of the one at which the round is blocked.
pub open spec fn sound(m: RoundModel) -> bool {
    &&& m.processed == reached(m)
    &&& m.blocked_at matches Some(b) ==> b <= reached(m) && b < m.txs.len()
    &&& forall|i: int| 0 <= i < m.views.len() ==> #[trigger] view_sound(m, i)
}

proof fn lemma_units_follow(txs: Seq<TransactionModel>, n: nat, i: int)
    requires
        n <= txs.len() <= usize::MAX,
        0 <= i < all_units(txs, n).len(),
    ensures
        ({
            let units = all_units(txs, n);
            &&& 0 <= tx_of(units[i]) < n
            &&& i == 0 ==> tx_of(units[i]) == 0
            &&& i + 1 < units.len() ==> tx_of(units[i + 1]) == tx_of(units[i]) + (if units[i]
                is Apply {
                1int
            } else {
                0int
            })
            &&& i + 1 == units.len() ==> units[i] is Apply && tx_of(units[i]) == n - 1
        }),
    decreases n,
{
    let units = all_units(txs, n);
    let before = all_units(txs, (n - 1) as nat);
    let changes = txs[n - 1].changes;
    let these = tx_units(n - 1, changes, changes.len());
    lemma_tx_units_of(n - 1, changes, changes.len());
    assert(units.len() == before.len() + these.len() + 1);
    if i < before.len() {
        lemma_units_follow(txs, (n - 1) as nat, i);
        assert(units[i] == before[i]);
        if i + 1 < before.len() {
            assert(units[i + 1] == before[i + 1]);
        } else if these.len() > 0 {
            assert(units[i + 1] == these[0]);
        } else {
            assert(units[i + 1] == (Unit::Apply { tx: (n - 1) as usize }));
        }
    } else {
        if n > 1 {
            lemma_units_nonempty(txs, (n - 1) as nat);
        }
        let k = i - before.len();
        if k < these.len() {
            assert(units[i] == these[k]);
            if k + 1 < these.len() {
                assert(units[i + 1] == these[k + 1]);
            } else {
                assert(units[i + 1] == (Unit::Apply { tx: (n - 1) as usize }));
            }
        }
    }
}

proof fn lemma_tx_units_of(t: int, changes: Seq<ChangeModel>, n: nat)
    requires
        0 <= t <= usize::MAX,
        n <= changes.len(),
    ensures
        forall|i: int|
            0 <= i < tx_units(t, changes, n).len() ==> tx_of(#[trigger] tx_units(t, changes, n)[i])
                == t && tx_units(t, changes, n)[i] is Change,
    decreases n,
{
    if n > 0 {
        lemma_tx_units_of(t, changes, (n - 1) as nat);
        let before = tx_units(t, changes, (n - 1) as nat);
        let after = tx_units(t, changes, n);
        assert forall|i: int| 0 <= i < after.len() implies tx_of(#[trigger] after[i]) == t
            && after[i] is Change by {
            if i < before.len() {
                assert(after[i] == before[i]);
            }
        }
    }
}

proof fn lemma_units_nonempty(txs: Seq<TransactionModel>, n: nat)
    requires
        0 < n <= txs.len(),
    ensures
        all_units(txs, n).len() > 0,
{
}

/// The transaction that the next stage has come to.
proof fn lemma_reached_next(m: RoundModel)
    requires
        fits(m),
        m.position < m.units.len(),
    ensures
        0 <= reached(m) < m.txs.len(),
        ({
            let next = stepped(m);
            if next.position == m.position {
                reached(next) == reached(m) && next.stage == m.stage + 1
            } else {
                next.stage == 0 && next.position == m.position + 1 && reached(next) == reached(m)
                    + (if m.units[m.position as int] is Apply {
                    1int
                } else {
                    0int
                })
            }
        }),
{
    lemma_units_follow(m.txs, m.txs.len(), m.position as int);
}

/// A step that leaves a view as it was, but for what planning notes about it.
spec fn same_standing(a: LiveModel, b: LiveModel) -> bool {
    &&& a.frontier == b.frontier
    &&& a.last_seq == b.last_seq
    &&& a.dead == b.dead
    &&& a.failed_this_round == b.failed_this_round
    &&& a.dead ==> a.stale == b.stale
}

/// A sound round stays sound at the next stage, when the step left every view
/// but one in its standing, and that one is dead or has absorbed what the
/// stage asks of it.
proof fn lemma_step_sound(m: RoundModel, after: RoundModel)
    requires
        fits(m),
        fits(after),
        sound(m),
        m.position < m.units.len(),
        after.txs == m.txs,
        after.units == m.units,
        after.width == m.width,
        after.position == m.position,
        after.stage == m.stage,
        forall|i: int|
            0 <= i < m.views.len() ==> same_standing(#[trigger] m.views[i], after.views[i]),
        after.pending == m.pending,
        after.blocked_at == m.blocked_at,
        after.processed == match task_of(m.units[m.position as int], m.width, m.stage) {
            Task::Close { tx } => (tx + 1) as nat,
            _ => m.processed,
        },
        task_of(m.units[m.position as int], m.width, m.stage) matches Task::Execute { tx, view }
            ==> m.views[view].dead || covers(m.views[view], m.txs[tx]),
    ensures
        sound(stepped(after)),
{
    lemma_reached_next(after);
    let next = stepped(after);
    assert forall|i: int| 0 <= i < next.views.len() implies #[trigger] view_sound(next, i) by {
        assert(view_sound(m, i));
        assert(same_standing(m.views[i], after.views[i]));
    }
}

/// The same when the step killed the view at hand, or made it absorb the
/// transaction at hand.
proof fn lemma_execute_sound(m: RoundModel, after: RoundModel, tx: int, view: int)
    requires
        fits(m),
        fits(after),
        sound(m),
        m.position < m.units.len(),
        task_of(m.units[m.position as int], m.width, m.stage) == (Task::Execute { tx, view }),
        after.txs == m.txs,
        after.units == m.units,
        after.width == m.width,
        after.position == m.position,
        after.stage == m.stage,
        after.processed == m.processed,
        !m.views[view].dead,
        m.views[view].frontier < m.txs[tx].end_lsn,
        forall|i: int|
            0 <= i < m.views.len() && i != view ==> after.views[i] == #[trigger] m.views[i]
                && after.pending[i] == m.pending[i],
        contiguous(after.pending[view], after.views[view].last_seq),
        ({
            let v = after.views[view];
            ||| (!v.dead && !v.failed_this_round && v.frontier == m.txs[tx].end_lsn
                && after.blocked_at == m.blocked_at)
            ||| (v.dead && v.frontier == m.views[view].frontier && (is_live(v)
                ==> after.blocked_at is Some) && (after.blocked_at == m.blocked_at || (m.blocked_at
                is None && after.blocked_at == Some(tx as usize))))
        }),
    ensures
        sound(stepped(after)),
{
    lemma_reached_next(m);
    lemma_reached_next(after);
    let next = stepped(after);
    assert forall|i: int| 0 <= i < next.views.len() implies #[trigger] view_sound(next, i) by {
        assert(view_sound(m, i));
        if i == view {
            let v = m.views[view];
            assert forall|t: int| 0 <= t < reached(m) && t < m.txs.len() implies covers(
                after.views[view],
                #[trigger] m.txs[t],
            ) by {
                assert(covers(v, m.txs[t]));
            }
        }
    }
}

proof fn lemma_begin_sound(
    m: RoundModel,
    quoting: spec_fn(Seq<char>) -> Seq<char>,
    max_apply_failures: i32,
)
    requires
        fits(m),
        sound(m),
        m.position < m.units.len(),
    ensures
        ({
            let step = begin(m, quoting, max_apply_failures);
            if step.ask is Some {
                sound(step.round) && (wants_reply(step.ask) ==> awaiting(step.round)) && step.round.position == m.position
            } else {
                sound(stepped(step.round))
            }
        }),
{
    let step = begin(m, quoting, max_apply_failures);
    let after = step.round;
    lemma_begin_fits(m, quoting, max_apply_failures);
    lemma_unit_known(m, m.txs.len(), m.position as int);
    let task = task_of(m.units[m.position as int], m.width, m.stage);
    if step.ask is Some {
        assert forall|i: int| 0 <= i < after.views.len() implies #[trigger] view_sound(after, i) by {
            assert(view_sound(m, i));
        }
    } else {
        match task {
            Task::Execute { tx, view } => {
                assert(view_sound(m, view));
                if m.views[view].dead || m.txs[tx].end_lsn <= m.views[view].frontier {
                    lemma_step_sound(m, after);
                } else {
                    lemma_execute_sound(m, after, tx, view);
                }
            },
            _ => {
                lemma_step_sound(m, after);
            },
        }
    }
}

proof fn lemma_answered_sound(m: RoundModel, reply: ReplyModel, max_apply_failures: i32)
    requires
        fits(m),
        sound(m),
        awaiting(m),
        answers(m, reply),
    ensures
        sound(stepped(answered(m, reply, max_apply_failures).round)),
{
    let after = answered(m, reply, max_apply_failures).round;
    lemma_answered_fits(m, reply, max_apply_failures);
    lemma_unit_known(m, m.txs.len(), m.position as int);
    match task_of(m.units[m.position as int], m.width, m.stage) {
        Task::Execute { tx, view } => {
            assert(view_sound(m, view));
            if let ReplyModel::Executed(Ok(deltas)) = reply {
                let v = m.views[view];
                apply::law_net_is_no_longer(v.spec, deltas);
                let had = m.pending[view];
                let all = after.pending[view];
                assert forall|k: int| 0 <= k < all.len() implies (#[trigger] all[k]).seq
                    == after.views[view].last_seq - (all.len() - 1 - k) by {
                    if k < had.len() {
                        assert(all[k] == had[k]);
                    }
                }
            }
            lemma_execute_sound(m, after, tx, view);
        },
        _ => {
            lemma_step_sound(m, after);
        },
    }
}

/// A round that is run from a sound state stays sound. When it is done, every
/// view that the catalog has as live has absorbed every transaction in front
/// of the one at which the round is blocked, and all of them when it is not:
/// the slot can be advanced to there without a live view missing anything.
pub proof fn law_no_live_view_is_left_behind(
    m: RoundModel,
    done: Seq<StatementModel>,
    quoting: spec_fn(Seq<char>) -> Seq<char>,
    max_apply_failures: i32,
)
    requires
        fits(m),
        sound(m),
    ensures
        ({
            let step = run(m, done, quoting, max_apply_failures);
            let after = step.round;
            &&& fits(after)
            &&& sound(after)
            &&& wants_reply(step.ask) ==> awaiting(after)
            &&& step.ask == Some(AskModel::Done) ==> after.processed == after.txs.len()
            &&& step.ask == Some(AskModel::Done) ==> forall|i: int, t: int|
                0 <= i < after.views.len() && 0 <= t < (match after.blocked_at {
                    Some(b) => b as int,
                    None => after.txs.len() as int,
                }) && is_live(#[trigger] after.views[i]) ==> covers(
                    after.views[i],
                    #[trigger] after.txs[t],
                )
        }),
    decreases m.units.len() - m.position, m.width + 2 - m.stage,
{
    if m.position < m.units.len() {
        lemma_begin_sound(m, quoting, max_apply_failures);
        lemma_begin_fits(m, quoting, max_apply_failures);
        let step = begin(m, quoting, max_apply_failures);
        if step.ask is None {
            lemma_reached_next(step.round);
            law_no_live_view_is_left_behind(
                stepped(step.round),
                done + step.statements,
                quoting,
                max_apply_failures,
            );
        }
    } else {
        assert forall|i: int, t: int|
            0 <= i < m.views.len() && 0 <= t < (match m.blocked_at {
                Some(b) => b as int,
                None => m.txs.len() as int,
            }) && is_live(#[trigger] m.views[i]) implies covers(
            m.views[i],
            #[trigger] m.txs[t],
        ) by {
            assert(view_sound(m, i));
        }
    }
}

/// The same for a round that goes on with a reply, whatever the reply is.
pub proof fn law_replies_leave_no_live_view_behind(
    m: RoundModel,
    reply: ReplyModel,
    quoting: spec_fn(Seq<char>) -> Seq<char>,
    max_apply_failures: i32,
)
    requires
        fits(m),
        sound(m),
        awaiting(m),
        answers(m, reply),
    ensures
        ({
            let step = resumed(m, reply, quoting, max_apply_failures);
            let after = step.round;
            &&& fits(after)
            &&& sound(after)
            &&& wants_reply(step.ask) ==> awaiting(after)
            &&& step.ask == Some(AskModel::Done) ==> after.processed == after.txs.len()
            &&& step.ask == Some(AskModel::Done) ==> forall|i: int, t: int|
                0 <= i < after.views.len() && 0 <= t < (match after.blocked_at {
                    Some(b) => b as int,
                    None => after.txs.len() as int,
                }) && is_live(#[trigger] after.views[i]) ==> covers(
                    after.views[i],
                    #[trigger] after.txs[t],
                )
        }),
{
    lemma_answered_sound(m, reply, max_apply_failures);
    lemma_answered_fits(m, reply, max_apply_failures);
    let step = answered(m, reply, max_apply_failures);
    law_no_live_view_is_left_behind(
        stepped(step.round),
        step.statements,
        quoting,
        max_apply_failures,
    );
}

/// A round begins sound, also once schema drift was looked for.
pub proof fn law_rounds_begin_sound(
    txs: Seq<TransactionModel>,
    relations: Seq<RelationModel>,
    live: Seq<LiveModel>,
    shadows: Seq<ShadowModel>,
    n: nat,
)
    requires
        txs.len() <= usize::MAX,
        forall|i: int|
            0 <= i < live.len() ==> !(#[trigger] live[i]).dead && !live[i].failed_this_round,
    ensures
        sound(drift_first(fresh_round(txs, relations, live, shadows), n).round),
    decreases n,
{
    let fresh = fresh_round(txs, relations, live, shadows);
    if txs.len() > 0 {
        lemma_units_nonempty(txs, txs.len());
        lemma_units_follow(txs, txs.len(), 0);
    }
    lemma_drift_keeps(fresh, n);
    let m = drift_first(fresh, n).round;
    assert forall|i: int| 0 <= i < m.views.len() implies #[trigger] view_sound(m, i) by {
        assert(!live[i].dead);
    }
}

proof fn lemma_drift_keeps(m: RoundModel, n: nat)
    ensures
        ({
            let after = drift_first(m, n).round;
            &&& after.txs == m.txs
            &&& after.relations == m.relations
            &&& after.units == m.units
            &&& after.position == m.position
            &&& after.stage == m.stage
            &&& after.pending == m.pending
            &&& after.blocked_at == m.blocked_at
            &&& after.processed == m.processed
            &&& after.views.len() == m.views.len()
            &&& forall|i: int|
                0 <= i < m.views.len() ==> (#[trigger] after.views[i]).dead == m.views[i].dead
                    && after.views[i].failed_this_round == m.views[i].failed_this_round
        }),
    decreases n,
{
    if n > 0 {
        lemma_drift_keeps(m, (n - 1) as nat);
        let before = drift_first(m, (n - 1) as nat).round;
        let after = drift_first(m, n).round;
        assert forall|i: int| 0 <= i < m.views.len() implies (#[trigger] after.views[i]).dead
            == m.views[i].dead && after.views[i].failed_this_round
            == m.views[i].failed_this_round by {
            assert(before.views[i].dead == m.views[i].dead);
        }
    }
}

/// What no step of a round takes back: frontiers and delta numbers only grow,
/// a dead view keeps its own, and the transaction at which the round is
/// blocked stays the first one.
pub open spec fn goes_forward(a: RoundModel, b: RoundModel) -> bool {
    &&& b.views.len() == a.views.len()
    &&& b.shadows.len() == a.shadows.len()
    &&& b.txs == a.txs
    &&& a.blocked_at is Some ==> b.blocked_at == a.blocked_at
    &&& forall|i: int| 0 <= i < a.views.len() ==> view_forward(#[trigger] a.views[i], b.views[i])
    &&& forall|s: int|
        0 <= s < a.shadows.len() ==> (#[trigger] a.shadows[s]).frontier <= b.shadows[s].frontier
}

pub open spec fn view_forward(a: LiveModel, b: LiveModel) -> bool {
    &&& a.frontier <= b.frontier
    &&& a.last_seq <= b.last_seq
    &&& a.dead ==> b.dead && b.frontier == a.frontier && b.last_seq == a.last_seq
}

proof fn lemma_forward_trans(a: RoundModel, b: RoundModel, c: RoundModel)
    requires
        goes_forward(a, b),
        goes_forward(b, c),
    ensures
        goes_forward(a, c),
{
    assert forall|i: int| 0 <= i < a.views.len() implies view_forward(
        #[trigger] a.views[i],
        c.views[i],
    ) by {
        assert(view_forward(a.views[i], b.views[i]));
        assert(view_forward(b.views[i], c.views[i]));
    }
    assert forall|s: int| 0 <= s < a.shadows.len() implies (#[trigger] a.shadows[s]).frontier
        <= c.shadows[s].frontier by {
        assert(a.shadows[s].frontier <= b.shadows[s].frontier);
        assert(b.shadows[s].frontier <= c.shadows[s].frontier);
    }
}

proof fn lemma_begin_forward(
    m: RoundModel,
    quoting: spec_fn(Seq<char>) -> Seq<char>,
    max_apply_failures: i32,
)
    requires
        fits(m),
        m.position < m.units.len(),
    ensures
        goes_forward(m, begin(m, quoting, max_apply_failures).round),
{
    match task_of(m.units[m.position as int], m.width, m.stage) {
        Task::Maintain { tx, change, relid } => {
            lemma_shadow_at(m.shadows, relid);
        },
        _ => {},
    }
}

/// No step of a round takes back what it has reached: frontiers and delta
/// numbers only grow until the round asks for something or is done.
pub proof fn law_rounds_go_forward(
    m: RoundModel,
    done: Seq<StatementModel>,
    quoting: spec_fn(Seq<char>) -> Seq<char>,
    max_apply_failures: i32,
)
    requires
        fits(m),
    ensures
        goes_forward(m, run(m, done, quoting, max_apply_failures).round),
    decreases m.units.len() - m.position, m.width + 2 - m.stage,
{
    if m.position < m.units.len() {
        lemma_begin_forward(m, quoting, max_apply_failures);
        lemma_begin_fits(m, quoting, max_apply_failures);
        let step = begin(m, quoting, max_apply_failures);
        if step.ask is None {
            let next = stepped(step.round);
            law_rounds_go_forward(
                next,
                done + step.statements,
                quoting,
                max_apply_failures,
            );
            assert(goes_forward(step.round, next));
            lemma_forward_trans(m, step.round, next);
            lemma_forward_trans(
                m,
                next,
                run(next, done + step.statements, quoting, max_apply_failures).round,
            );
        }
    }
}

/// The same for a round that goes on with a reply.
pub proof fn law_replies_go_forward(
    m: RoundModel,
    reply: ReplyModel,
    quoting: spec_fn(Seq<char>) -> Seq<char>,
    max_apply_failures: i32,
)
    requires
        fits(m),
        awaiting(m),
        answers(m, reply),
    ensures
        goes_forward(m, resumed(m, reply, quoting, max_apply_failures).round),
{
    let step = answered(m, reply, max_apply_failures);
    lemma_answered_fits(m, reply, max_apply_failures);
    match (task_of(m.units[m.position as int], m.width, m.stage), reply) {
        (Task::Maintain { tx, change, relid }, ReplyModel::Shadow(_)) => {
            lemma_shadow_at(m.shadows, relid);
        },
        (Task::Execute { tx, view }, ReplyModel::Executed(Ok(deltas))) => {
            apply::law_net_is_no_longer(m.views[view].spec, deltas);
        },
        _ => {},
    }
    let next = stepped(step.round);
    assert(goes_forward(m, step.round));
    assert(goes_forward(step.round, next));
    lemma_forward_trans(m, step.round, next);
    law_rounds_go_forward(next, step.statements, quoting, max_apply_failures);
    lemma_forward_trans(
        m,
        next,
        run(next, step.statements, quoting, max_apply_failures).round,
    );
}

/// Where the deltas of a view come from: each carries the end and the xid of its
/// source transaction, and transactions come in commit order.
pub open spec fn come_from(m: RoundModel, i: int, origins: Seq<int>) -> bool {
    &&& origins.len() == m.pending[i].len()
    &&& forall|k: int|
        0 <= k < origins.len() ==> 0 <= #[trigger] origins[k] < m.txs.len() && origins[k] <= reached(
            m,
        ) && m.pending[i][k].lsn == m.txs[origins[k]].end_lsn && m.pending[i][k].xid
            == m.txs[origins[k]].xid
    &&& forall|k: int, l: int|
        0 <= k < l < origins.len() ==> #[trigger] origins[k] <= #[trigger] origins[l]
}

/// The deltas of a view are numbered right behind the number that the view
/// started the round with.
pub open spec fn view_counted(m: RoundModel, i: int, start: i64) -> bool {
    &&& m.views[i].last_seq == start + m.pending[i].len()
    &&& forall|k: int|
        0 <= k < m.pending[i].len() ==> (#[trigger] m.pending[i][k]).seq == start + 1 + k
    &&& exists|origins: Seq<int>| come_from(m, i, origins)
}

/// The same for every view; `starts` are the numbers that they started with.
pub open spec fn counted_from(m: RoundModel, starts: Seq<i64>) -> bool {
    &&& starts.len() == m.views.len()
    &&& forall|i: int| 0 <= i < m.views.len() ==> #[trigger] view_counted(m, i, starts[i])
}

/// What a step leaves as it is where no view absorbs anything.
spec fn same_numbers(a: RoundModel, b: RoundModel) -> bool {
    &&& b.txs == a.txs
    &&& b.pending == a.pending
    &&& b.views.len() == a.views.len()
    &&& reached(a) <= reached(b)
    &&& forall|i: int|
        0 <= i < a.views.len() ==> (#[trigger] b.views[i]).last_seq == a.views[i].last_seq
}

proof fn lemma_same_numbers(a: RoundModel, b: RoundModel, starts: Seq<i64>)
    requires
        same_numbers(a, b),
        counted_from(a, starts),
    ensures
        counted_from(b, starts),
{
    assert forall|i: int| 0 <= i < b.views.len() implies #[trigger] view_counted(
        b,
        i,
        starts[i],
    ) by {
        assert(view_counted(a, i, starts[i]));
        let origins = choose|origins: Seq<int>| come_from(a, i, origins);
        assert(come_from(b, i, origins));
        assert(b.views[i].last_seq == a.views[i].last_seq);
    }
}

proof fn lemma_begin_numbers(
    m: RoundModel,
    quoting: spec_fn(Seq<char>) -> Seq<char>,
    max_apply_failures: i32,
)
    requires
        fits(m),
        m.position < m.units.len(),
    ensures
        same_numbers(m, begin(m, quoting, max_apply_failures).round),
{
    match task_of(m.units[m.position as int], m.width, m.stage) {
        Task::Maintain { tx, change, relid } => {
            lemma_shadow_at(m.shadows, relid);
        },
        _ => {},
    }
}

/// A view's deltas of a round are numbered right behind the last number that it
/// had, each with the end and the xid of its source transaction, in commit order:
/// a round that goes on keeps that.
pub proof fn law_deltas_are_numbered_in_order(
    m: RoundModel,
    starts: Seq<i64>,
    done: Seq<StatementModel>,
    quoting: spec_fn(Seq<char>) -> Seq<char>,
    max_apply_failures: i32,
)
    requires
        fits(m),
        counted_from(m, starts),
    ensures
        counted_from(run(m, done, quoting, max_apply_failures).round, starts),
    decreases m.units.len() - m.position, m.width + 2 - m.stage,
{
    if m.position < m.units.len() {
        lemma_begin_numbers(m, quoting, max_apply_failures);
        lemma_begin_fits(m, quoting, max_apply_failures);
        let step = begin(m, quoting, max_apply_failures);
        lemma_same_numbers(m, step.round, starts);
        if step.ask is None {
            lemma_reached_next(step.round);
            let next = stepped(step.round);
            lemma_same_numbers(step.round, next, starts);
            law_deltas_are_numbered_in_order(
                next,
                starts,
                done + step.statements,
                quoting,
                max_apply_failures,
            );
        }
    }
}

proof fn lemma_absorbed_numbers(
    m: RoundModel,
    starts: Seq<i64>,
    view: int,
    deltas: Seq<DeltaModel>,
)
    requires
        counted_from(m, starts),
        0 <= view < m.views.len(),
        m.pending.len() == m.views.len(),
        0 <= reached(m) < m.txs.len(),
        m.views[view].last_seq + deltas.len() <= i64::MAX,
    ensures
        counted_from(view_absorbed(m, reached(m), view, deltas), starts),
{
    let tx = reached(m);
    let t = m.txs[tx];
    let after = view_absorbed(m, tx, view, deltas);
    let net = netted(m.views[view].spec, deltas);
    apply::law_net_is_no_longer(m.views[view].spec, deltas);
    assert forall|i: int| 0 <= i < after.views.len() implies #[trigger] view_counted(
        after,
        i,
        starts[i],
    ) by {
        assert(view_counted(m, i, starts[i]));
        let origins = choose|origins: Seq<int>| come_from(m, i, origins);
        if i == view {
            let added = Seq::new(net.len(), |k: int| tx);
            assert(come_from(after, i, origins + added));
        } else {
            assert(come_from(after, i, origins));
        }
    }
}

/// The same for a round that goes on with a reply.
pub proof fn law_replies_keep_deltas_numbered(
    m: RoundModel,
    starts: Seq<i64>,
    reply: ReplyModel,
    quoting: spec_fn(Seq<char>) -> Seq<char>,
    max_apply_failures: i32,
)
    requires
        fits(m),
        counted_from(m, starts),
        answers(m, reply),
    ensures
        counted_from(resumed(m, reply, quoting, max_apply_failures).round, starts),
{
    let step = answered(m, reply, max_apply_failures);
    lemma_answered_fits(m, reply, max_apply_failures);
    lemma_unit_known(m, m.txs.len(), m.position as int);
    match (task_of(m.units[m.position as int], m.width, m.stage), reply) {
        (Task::Maintain { tx, change, relid }, ReplyModel::Shadow(_)) => {
            lemma_shadow_at(m.shadows, relid);
            lemma_same_numbers(m, step.round, starts);
        },
        (Task::Execute { tx, view }, ReplyModel::Executed(Ok(deltas))) => {
            lemma_absorbed_numbers(m, starts, view, deltas);
        },
        _ => {
            lemma_same_numbers(m, step.round, starts);
        },
    }
    let next = stepped(step.round);
    lemma_reached_next(step.round);
    lemma_same_numbers(step.round, next, starts);
    law_deltas_are_numbered_in_order(
        next,
        starts,
        step.statements,
        quoting,
        max_apply_failures,
    );
}

proof fn lemma_drift_numbers(m: RoundModel, n: nat)
    ensures
        forall|i: int|
            0 <= i < m.views.len() ==> (#[trigger] drift_first(m, n).round.views[i]).last_seq
                == m.views[i].last_seq,
    decreases n,
{
    lemma_drift_keeps(m, n);
    if n > 0 {
        lemma_drift_numbers(m, (n - 1) as nat);
        lemma_drift_keeps(m, (n - 1) as nat);
        let before = drift_first(m, (n - 1) as nat).round;
        let after = drift_first(m, n).round;
        assert forall|i: int| 0 <= i < m.views.len() implies (#[trigger] after.views[i]).last_seq
            == m.views[i].last_seq by {
            assert(before.views[i].last_seq == m.views[i].last_seq);
        }
    }
}

/// A round begins to number behind what the catalog has as each view's last
/// number, also once schema drift was looked for.
pub proof fn law_rounds_number_from_the_catalog(
    txs: Seq<TransactionModel>,
    relations: Seq<RelationModel>,
    live: Seq<LiveModel>,
    shadows: Seq<ShadowModel>,
    n: nat,
)
    ensures
        counted_from(
            drift_first(fresh_round(txs, relations, live, shadows), n).round,
            live.map_values(|v: LiveModel| v.last_seq),
        ),
{
    let fresh = fresh_round(txs, relations, live, shadows);
    lemma_drift_keeps(fresh, n);
    lemma_drift_numbers(fresh, n);
    let m = drift_first(fresh, n).round;
    let starts = live.map_values(|v: LiveModel| v.last_seq);
    assert forall|i: int| 0 <= i < m.views.len() implies #[trigger] view_counted(
        m,
        i,
        starts[i],
    ) by {
        assert(m.views[i].last_seq == live[i].last_seq);
        assert(come_from(m, i, Seq::empty()));
    }
}

// --- laws of the order of work -----------------------------------------------------------

proof fn lemma_change_has_units(tx: int, changes: Seq<ChangeModel>, n: nat, c: int, k: int) -> (at:
    int)
    requires
        0 <= c < n <= changes.len(),
        0 <= k < relids_of(changes[c]).len(),
    ensures
        0 <= at < tx_units(tx, changes, n).len(),
        tx_units(tx, changes, n)[at] == (Unit::Change {
            tx: tx as usize,
            change: c as usize,
            relid: relids_of(changes[c])[k],
        }),
    decreases n,
{
    let before = tx_units(tx, changes, (n - 1) as nat);
    if c < n - 1 {
        let at = lemma_change_has_units(tx, changes, (n - 1) as nat, c, k);
        assert(tx_units(tx, changes, n)[at] == before[at]);
        at
    } else {
        before.len() + k
    }
}

/// Every relation of every change of every transaction is worked on, and the transaction is
/// applied behind it.
pub proof fn law_every_change_is_worked_on(
    txs: Seq<TransactionModel>,
    n: nat,
    t: int,
    c: int,
    k: int,
)
    requires
        0 <= t < n <= txs.len(),
        0 <= c < txs[t].changes.len(),
        0 <= k < relids_of(txs[t].changes[c]).len(),
    ensures
        exists|p: int, a: int|
            0 <= p < a < all_units(txs, n).len() && #[trigger] all_units(txs, n)[p] == (
            Unit::Change {
                tx: t as usize,
                change: c as usize,
                relid: relids_of(txs[t].changes[c])[k],
            }) && #[trigger] all_units(txs, n)[a] == (Unit::Apply { tx: t as usize }),
    decreases n,
{
    let units = all_units(txs, n);
    let before = all_units(txs, (n - 1) as nat);
    if t < n - 1 {
        law_every_change_is_worked_on(txs, (n - 1) as nat, t, c, k);
        let (p, a) = choose|p: int, a: int|
            0 <= p < a < before.len() && #[trigger] before[p] == (Unit::Change {
                tx: t as usize,
                change: c as usize,
                relid: relids_of(txs[t].changes[c])[k],
            }) && #[trigger] before[a] == (Unit::Apply { tx: t as usize });
        assert(units[p] == before[p]);
        assert(units[a] == before[a]);
    } else {
        let changes = txs[t].changes;
        let at = lemma_change_has_units(t, changes, changes.len(), c, k);
        let p = before.len() + at;
        let a = units.len() - 1;
        assert(units[p] == tx_units(t, changes, changes.len())[at]);
        assert(units[a] == (Unit::Apply { tx: t as usize }));
    }
}

/// Whether a piece of work comes in front of another: that of an earlier transaction, and
/// in one transaction that of an earlier change, with the application at the end.
pub open spec fn comes_first(a: Unit, b: Unit) -> bool {
    match (a, b) {
        (Unit::Change { tx, change, .. }, Unit::Change { tx: later, change: next, .. }) => tx
            < later || (tx == later && change <= next),
        (Unit::Change { tx, .. }, Unit::Apply { tx: later }) => tx <= later,
        (Unit::Apply { tx }, Unit::Change { tx: later, .. }) => tx < later,
        (Unit::Apply { tx }, Unit::Apply { tx: later }) => tx < later,
    }
}

proof fn lemma_units_of_changes(tx: int, changes: Seq<ChangeModel>, n: nat)
    requires
        0 <= tx <= usize::MAX,
        n <= changes.len() <= usize::MAX,
    ensures
        forall|i: int|
            0 <= i < tx_units(tx, changes, n).len() ==> (#[trigger] tx_units(tx, changes, n)[i]
                matches Unit::Change { tx: t, change, .. } && t == tx && change < n),
        forall|i: int, j: int|
            0 <= i < j < tx_units(tx, changes, n).len() ==> comes_first(
                #[trigger] tx_units(tx, changes, n)[i],
                #[trigger] tx_units(tx, changes, n)[j],
            ),
    decreases n,
{
    if n > 0 {
        lemma_units_of_changes(tx, changes, (n - 1) as nat);
        let before = tx_units(tx, changes, (n - 1) as nat);
        let after = tx_units(tx, changes, n);
        assert forall|i: int| 0 <= i < after.len() implies (#[trigger] after[i]
            matches Unit::Change { tx: t, change, .. } && t == tx && change < n) by {
            if i < before.len() {
                assert(after[i] == before[i]);
            }
        }
        assert forall|i: int, j: int| 0 <= i < j < after.len() implies comes_first(
            #[trigger] after[i],
            #[trigger] after[j],
        ) by {
            if i < before.len() {
                assert(after[i] == before[i]);
                assert(before[i] matches Unit::Change { tx: t, change, .. } && change < n - 1);
            }
            if j < before.len() {
                assert(after[j] == before[j]);
            }
        }
    }
}

/// Work is done in commit order: transaction by transaction, each change by change, and
/// each transaction is applied once, behind its changes.
pub proof fn law_work_is_done_in_commit_order(txs: Seq<TransactionModel>, n: nat)
    requires
        n <= txs.len() <= usize::MAX,
        forall|t: int| 0 <= t < txs.len() ==> (#[trigger] txs[t]).changes.len() <= usize::MAX,
    ensures
        forall|i: int|
            0 <= i < all_units(txs, n).len() ==> 0 <= tx_of(#[trigger] all_units(txs, n)[i]) < n,
        forall|i: int, j: int|
            0 <= i < j < all_units(txs, n).len() ==> comes_first(
                #[trigger] all_units(txs, n)[i],
                #[trigger] all_units(txs, n)[j],
            ),
    decreases n,
{
    if n > 0 {
        law_work_is_done_in_commit_order(txs, (n - 1) as nat);
        let before = all_units(txs, (n - 1) as nat);
        let changes = txs[n - 1].changes;
        let these = tx_units(n - 1, changes, changes.len());
        lemma_units_of_changes(n - 1, changes, changes.len());
        let units = all_units(txs, n);
        let all = before + these;
        assert(units == all.push(Unit::Apply { tx: (n - 1) as usize }));
        assert forall|i: int| 0 <= i < units.len() implies 0 <= tx_of(#[trigger] units[i]) < n by {
            if i < before.len() {
                assert(units[i] == before[i]);
            } else if i < all.len() {
                assert(units[i] == these[i - before.len()]);
            }
        }
        assert forall|i: int, j: int| 0 <= i < j < units.len() implies comes_first(
            #[trigger] units[i],
            #[trigger] units[j],
        ) by {
            if i < before.len() {
                assert(units[i] == before[i]);
                assert(tx_of(before[i]) < n - 1);
            } else if i < all.len() {
                assert(units[i] == these[i - before.len()]);
            }
            if j < before.len() {
                assert(units[j] == before[j]);
            } else if j < all.len() {
                assert(units[j] == these[j - before.len()]);
            }
        }
    }
}

/// Of a change first the old row is fetched, then every view is planned once, then the
/// shadow is maintained; of a transaction every view is executed once, then it is closed.
pub proof fn law_every_view_has_its_turn(unit: Unit, width: nat, view: int)
    requires
        0 <= view < width,
    ensures
        match unit {
            Unit::Change { tx, change, relid } => {
                &&& task_of(unit, width, 0) == (Task::Fetch {
                    tx: tx as int,
                    change: change as int,
                    relid,
                })
                &&& forall|s: nat|
                    s < stages(unit, width) ==> (#[trigger] task_of(unit, width, s) == (
                    Task::Plan { tx: tx as int, change: change as int, relid, view }) <==> s == view
                        + 1)
                &&& view + 1 < stages(unit, width) - 1
                &&& task_of(unit, width, (stages(unit, width) - 1) as nat) == (Task::Maintain {
                    tx: tx as int,
                    change: change as int,
                    relid,
                })
            },
            Unit::Apply { tx } => {
                &&& forall|s: nat|
                    s < stages(unit, width) ==> (#[trigger] task_of(unit, width, s) == (
                    Task::Execute { tx: tx as int, view }) <==> s == view)
                &&& view < stages(unit, width) - 1
                &&& task_of(unit, width, (stages(unit, width) - 1) as nat) == (Task::Close {
                    tx: tx as int,
                })
            },
        },
{
}

/// No stage of any piece of work is passed over: of those behind the one at hand the next
/// one is the first.
pub proof fn law_no_stage_is_passed_over(
    units: Seq<Unit>,
    width: nat,
    position: nat,
    stage: nat,
    p: nat,
    s: nat,
)
    requires
        position < units.len(),
        stage < stages(units[position as int], width),
        p < units.len(),
        s < stages(units[p as int], width),
    ensures
        ({
            let (next, at) = next_cursor(units, width, position, stage);
            &&& position < next || (position == next && stage < at)
            &&& position < p || (position == p && stage < s) ==> next < p || (next == p && at <= s)
            &&& next < units.len() ==> at < stages(units[next as int], width)
        }),
{
}

/// The relations that a round needs are those that its work touches, each once.
pub proof fn law_touched_relations_are_needed_once(units: Seq<Unit>, n: nat)
    requires
        n <= units.len(),
    ensures
        forall|relid: u32| #[trigger]
            touched_relids(units, n).contains(relid) <==> exists|i: int|
                0 <= i < n && (#[trigger] units[i] matches Unit::Change { relid: r, .. } && r
                    == relid),
        touched_relids(units, n).no_duplicates(),
    decreases n,
{
    if n > 0 {
        law_touched_relations_are_needed_once(units, (n - 1) as nat);
        let before = touched_relids(units, (n - 1) as nat);
        let after = touched_relids(units, n);
        assert forall|relid: u32| #[trigger] after.contains(relid) <==> exists|i: int|
            0 <= i < n && (#[trigger] units[i] matches Unit::Change { relid: r, .. } && r
                == relid) by {
            if before.contains(relid) {
                let k = choose|k: int| 0 <= k < before.len() && before[k] == relid;
                assert(after[k] == relid);
                let i = choose|i: int|
                    0 <= i < n - 1 && (#[trigger] units[i] matches Unit::Change { relid: r, .. }
                        && r == relid);
                assert(units[i] matches Unit::Change { relid: r, .. } && r == relid);
            }
            if let Unit::Change { tx, change, relid: r } = units[n - 1] {
                if !before.contains(r) {
                    assert(after[before.len() as int] == r);
                }
            }
            if after.contains(relid) && !before.contains(relid) {
                let k = choose|k: int| 0 <= k < after.len() && after[k] == relid;
                assert(k == before.len());
                assert(units[n - 1] matches Unit::Change { relid: r, .. } && r == relid);
            }
        }
    } else {
        assert(touched_relids(units, n) =~= Seq::empty());
    }
}

// --- laws of single steps ------------------------------------------------------------------

proof fn lemma_found_shadow(shadows: Seq<ShadowModel>, relid: u32)
    ensures
        shadow_at(shadows, relid) is None <==> forall|i: int|
            0 <= i < shadows.len() ==> (#[trigger] shadows[i]).relid != relid,
    decreases shadows.len(),
{
    if shadows.len() > 0 {
        lemma_found_shadow(shadows.drop_last(), relid);
        lemma_shadow_at(shadows, relid);
        if shadow_at(shadows, relid) is None {
            assert forall|i: int| 0 <= i < shadows.len() implies (#[trigger] shadows[i]).relid
                != relid by {
                if i < shadows.len() - 1 {
                    assert(shadows.drop_last()[i] == shadows[i]);
                }
            }
        } else {
            let i = shadow_at(shadows, relid)->0;
            assert(shadows[i].relid == relid);
        }
    }
}

/// A relation and a shadow are found by their relation's number: what is found has that
/// number, and one is found where there is one.
pub proof fn law_relations_and_shadows_are_found(
    relations: Seq<RelationModel>,
    shadows: Seq<ShadowModel>,
    relid: u32,
)
    ensures
        shadow_at(shadows, relid) matches Some(i) ==> 0 <= i < shadows.len() && shadows[i].relid
            == relid,
        shadow_at(shadows, relid) is None <==> forall|i: int|
            0 <= i < shadows.len() ==> (#[trigger] shadows[i]).relid != relid,
        relation_at(relations, relid) matches Some(i) ==> 0 <= i < relations.len()
            && relations[i].id == relid,
        relation_at(relations, relid) is None <==> forall|i: int|
            0 <= i < relations.len() ==> (#[trigger] relations[i]).id != relid,
    decreases relations.len(),
{
    lemma_shadow_at(shadows, relid);
    lemma_found_shadow(shadows, relid);
    lemma_relation_at(relations, relid);
    if relations.len() > 0 {
        law_relations_and_shadows_are_found(relations.drop_last(), shadows, relid);
        if relation_at(relations, relid) is None {
            assert forall|i: int| 0 <= i < relations.len() implies (#[trigger] relations[i]).id
                != relid by {
                if i < relations.len() - 1 {
                    assert(relations.drop_last()[i] == relations[i]);
                }
            }
        } else {
            let i = relation_at(relations, relid)->0;
            assert(relations[i].id == relid);
        }
    }
}

/// Whether the shadow of a relation is healthy and has not taken in a transaction yet.
pub open spec fn has_healthy_shadow(m: RoundModel, relid: u32, end_lsn: u64) -> bool {
    exists|i: int|
        0 <= i < m.shadows.len() && (#[trigger] m.shadows[i]).relid == relid
            && !m.shadows[i].failed && m.shadows[i].frontier < end_lsn
}

/// Relations have one shadow at most.
pub open spec fn shadows_are_apart(m: RoundModel) -> bool {
    forall|i: int, j: int|
        0 <= i < j < m.shadows.len() ==> (#[trigger] m.shadows[i]).relid != (
        #[trigger] m.shadows[j]).relid
}

proof fn lemma_healthy(m: RoundModel, relid: u32, end_lsn: u64)
    requires
        shadows_are_apart(m),
    ensures
        shadow_is_active(m, relid, end_lsn) <==> has_healthy_shadow(m, relid, end_lsn),
{
    lemma_shadow_at(m.shadows, relid);
    lemma_found_shadow(m.shadows, relid);
    if has_healthy_shadow(m, relid, end_lsn) {
        let i = choose|i: int|
            0 <= i < m.shadows.len() && (#[trigger] m.shadows[i]).relid == relid
                && !m.shadows[i].failed && m.shadows[i].frontier < end_lsn;
        let j = shadow_at(m.shadows, relid)->0;
        assert(m.shadows[j].relid == relid);
        assert(i == j) by {
            if i < j {
                assert(m.shadows[i].relid != m.shadows[j].relid);
            } else if j < i {
                assert(m.shadows[j].relid != m.shadows[i].relid);
            }
        }
    }
}

/// The old row of an update or a delete is fetched, with the key that the change carries,
/// exactly where the relation's shadow is healthy and has not taken the transaction in; it
/// is forgotten what was fetched for the change before.
pub proof fn law_old_rows_are_fetched_from_healthy_shadows(
    m: RoundModel,
    tx: int,
    change: int,
    relid: u32,
    quoting: spec_fn(Seq<char>) -> Seq<char>,
)
    requires
        shadows_are_apart(m),
    ensures
        ({
            let step = fetch_begun(m, tx, change, relid, quoting);
            let c = change_at(m, tx, change);
            let wanted = (c is Update || c is Delete) && has_healthy_shadow(
                m,
                relid,
                m.txs[tx].end_lsn,
            );
            &&& step.round.old_full is None
            &&& step.round == (RoundModel {
                old_full: None,
                shadow_error: step.round.shadow_error,
                ..m
            })
            &&& step.statements.len() == 0
            &&& !wanted ==> step.ask is None && step.round.shadow_error is None
            &&& wanted ==> (step.ask is Some <==> step.round.shadow_error is None)
            &&& step.ask matches Some(ask) ==> exists|i: int|
                0 <= i < m.shadows.len() && (#[trigger] m.shadows[i]).relid == relid && (ask
                    matches AskModel::OldRow { query } && worker::finds_by_key(
                    query,
                    m.shadows[i],
                    relation_in(m, relid),
                    match c {
                        ChangeModel::Update { old: before, .. } => carried(before),
                        ChangeModel::Delete { old: row, .. } => Some(row),
                        _ => None,
                    },
                    match c {
                        ChangeModel::Update { new, .. } => Some(new),
                        _ => None,
                    },
                    quoting,
                ) && has_part(query.sql, " FROM "@ + m.shadows[i].table))
        }),
{
    lemma_healthy(m, relid, m.txs[tx].end_lsn);
    lemma_shadow_at(m.shadows, relid);
    let step = fetch_begun(m, tx, change, relid, quoting);
    let c = change_at(m, tx, change);
    if step.ask is Some {
        let i = shadow_at(m.shadows, relid)->0;
        worker::law_shadow_rows_are_found_by_the_whole_key(
            m.shadows[i],
            relation_in(m, relid),
            rows_of(c).0,
            rows_of(c).1,
            quoting,
        );
        assert(m.shadows[i].relid == relid);
    }
}

/// What came of the fetch is kept: the row, or why there is none.
pub proof fn law_fetched_rows_are_kept(
    m: RoundModel,
    relid: u32,
    reply: Result<Option<Seq<Option<Seq<char>>>>, Seq<char>>,
)
    ensures
        ({
            let after = fetched(m, relid, reply);
            &&& after == (RoundModel {
                old_full: after.old_full,
                shadow_error: after.shadow_error,
                ..m
            })
            &&& match reply {
                Ok(Some(values)) => after.old_full is Some && after.old_full->0 == old_row(
                    m.shadows[shadow_at(m.shadows, relid)->0],
                    relation_in(m, relid),
                    values,
                ) && after.shadow_error == m.shadow_error,
                Ok(None) => after.shadow_error is Some && after.old_full == m.old_full,
                Err(e) => after.shadow_error == Some(e) && after.old_full == m.old_full,
            }
        }),
{
}

/// A view is planned for a change exactly where it takes it in: it is not dead, healthy,
/// reads the relation, and has not taken the transaction in; but a join view goes stale
/// where the shadow could not give the old row. No other view is touched.
pub proof fn law_views_are_planned_for_what_they_take_in(
    m: RoundModel,
    tx: int,
    change: int,
    relid: u32,
    view: int,
    quoting: spec_fn(Seq<char>) -> Seq<char>,
)
    requires
        0 <= view < m.views.len(),
    ensures
        ({
            let step = plan_view(m, tx, change, relid, view, quoting);
            let v = m.views[view];
            let taken = !v.dead && v.failed is None && v.stale is None && v.frontier
                < m.txs[tx].end_lsn && exists|i: int|
                0 <= i < v.spec.relations.len() && (#[trigger] v.spec.relations[i]).oid == relid;
            let lost = m.shadow_error is Some && v.spec.relations.len() > 1;
            &&& step.statements.len() == 0
            &&& step.ask is Some <==> taken && !lost
            &&& step.ask is Some ==> step.round == m && step.ask == Some(
                AskModel::Plan {
                    view,
                    plan: planned_change(
                        v,
                        relation_in(m, relid),
                        m.txs[tx].changes[change],
                        m.old_full,
                        quoting,
                    ),
                },
            )
            &&& !taken ==> step.round == m
            &&& taken && lost ==> step.round.views[view].stale is Some && has_part(
                step.round.views[view].stale->0,
                m.shadow_error->0,
            ) && step.round == (RoundModel {
                views: m.views.update(
                    view,
                    LiveModel { stale: step.round.views[view].stale, ..v },
                ),
                ..m
            })
        }),
{
    let v = m.views[view];
    worker::law_views_take_in_what_they_read(v, relid, m.txs[tx].end_lsn);
    if m.shadow_error is Some {
        let e = m.shadow_error->0;
        let front = "shadow of "@ + relation_in(m, relid).name
            + " could not provide the old row: "@;
        text::lemma_part_of_itself(e);
        text::lemma_part_right(front, e, e);
    }
}

/// What a plan comes to is added behind what the view has planned already, or makes it
/// stale or failed with the reason; nothing else changes.
pub proof fn law_planned_work_is_added(m: RoundModel, view: int, reply: PlannedModel)
    requires
        0 <= view < m.views.len(),
    ensures
        ({
            let after = planned_view(m, view, reply);
            let v = m.views[view];
            let w = after.views[view];
            &&& after == (RoundModel { views: m.views.update(view, w), ..m })
            &&& w == (LiveModel { ops: w.ops, stale: w.stale, failed: w.failed, ..v })
            &&& match reply {
                PlannedModel::Ops(ops) => w.ops.len() == v.ops.len() + ops.len() && w.ops.take(
                    v.ops.len() as int,
                ) == v.ops && w.ops.skip(v.ops.len() as int) == ops && w.stale == v.stale
                    && w.failed == v.failed,
                PlannedModel::Stale(reason) => w.stale == Some(reason) && w.ops == v.ops
                    && w.failed == v.failed,
                PlannedModel::Failed(message) => w.failed == Some(message) && w.ops == v.ops
                    && w.stale == v.stale,
            }
        }),
{
    let v = m.views[view];
    if let PlannedModel::Ops(ops) = reply {
        assert((v.ops + ops).take(v.ops.len() as int) =~= v.ops);
        assert((v.ops + ops).skip(v.ops.len() as int) =~= ops);
    }
}

/// A healthy shadow that has not taken the transaction in takes in the change, by the
/// relation and the rows of that change; where it cannot, it fails and the join views over
/// it go stale. A shadow that is not asked to is left as it is.
pub proof fn law_shadows_are_maintained(
    m: RoundModel,
    tx: int,
    change: int,
    relid: u32,
    quoting: spec_fn(Seq<char>) -> Seq<char>,
)
    requires
        shadows_are_apart(m),
    ensures
        ({
            let step = maintain(m, tx, change, relid, quoting);
            let c = change_at(m, tx, change);
            let wanted = has_healthy_shadow(m, relid, m.txs[tx].end_lsn);
            &&& !wanted ==> step.ask is None && step.round == m && step.statements.len() == 0
            &&& step.ask matches Some(AskModel::Shadow { plan }) ==> wanted && m.shadow_error
                is None && step.round == m && step.statements.len() == 0 && exists|i: int|
                0 <= i < m.shadows.len() && (#[trigger] m.shadows[i]).relid == relid && plan
                    == shadow_plan(
                    m.shadows[i],
                    relation_in(m, relid),
                    c,
                    m.old_full,
                    new_full_of(relation_in(m, relid), c, m.old_full),
                    quoting,
                )
            &&& wanted && step.ask is None ==> step.statements.len() == 1 && (m.shadow_error is Some
                || (c is Update && new_full_of(relation_in(m, relid), c, m.old_full) is None))
            &&& wanted && m.shadow_error is Some ==> step.ask is None || step.ask->0 is Fail
        }),
{
    lemma_healthy(m, relid, m.txs[tx].end_lsn);
    lemma_shadow_at(m.shadows, relid);
    if shadow_is_active(m, relid, m.txs[tx].end_lsn) {
        let i = shadow_at(m.shadows, relid)->0;
        assert(m.shadows[i].relid == relid);
    }
}

/// A lost shadow is recorded as failed, alone; every live join view that reads its relation
/// goes stale, and no other view changes.
pub proof fn law_lost_shadows_are_recorded(
    m: RoundModel,
    relid: u32,
    message: Seq<char>,
    i: int,
    v: int,
)
    requires
        shadow_at(m.shadows, relid) is Some,
        0 <= i < m.shadows.len(),
        0 <= v < m.views.len(),
    ensures
        ({
            let step = maintained(m, relid, Err(message));
            let at = shadow_at(m.shadows, relid)->0;
            let reads = exists|k: int|
                0 <= k < m.views[v].spec.relations.len() && (
                #[trigger] m.views[v].spec.relations[k]).oid == relid;
            &&& step.round.shadows.len() == m.shadows.len()
            &&& step.round.shadows[at].failed
            &&& i != at ==> step.round.shadows[i] == m.shadows[i]
            &&& step.round.views.len() == m.views.len()
            &&& reads && m.views[v].spec.relations.len() > 1 && !m.views[v].dead
                ==> step.round.views[v].stale is Some
            &&& !reads || m.views[v].spec.relations.len() <= 1 || m.views[v].dead
                ==> step.round.views[v] == m.views[v]
            &&& step.statements.len() == 1
            &&& step.statements[0].args[0] == ArgModel::Int8(relid as i64)
            &&& step.ask is None
            &&& maintained(m, relid, Ok(())) == quiet(m)
        }),
{
    lemma_shadow_at(m.shadows, relid);
    worker::law_lost_shadows_make_their_views_stale(
        m.views[v],
        relid,
        relation_in(m, relid),
        message,
    );
}

/// At the end of a transaction a view's planned work is executed, exactly where the view is
/// not dead and has not taken the transaction in, and neither went stale nor failed; one
/// that went stale is recorded with its reason and is dead for the round.
pub proof fn law_planned_work_is_executed(
    m: RoundModel,
    tx: int,
    view: int,
    max_apply_failures: i32,
)
    requires
        0 <= view < m.views.len(),
    ensures
        ({
            let step = execute_view(m, tx, view, max_apply_failures);
            let v = m.views[view];
            let due = !v.dead && v.frontier < m.txs[tx].end_lsn;
            &&& !due ==> step.round == m && step.ask is None && step.statements.len() == 0
            &&& step.ask is Some <==> due && v.stale is None && v.failed is None
            &&& step.ask is Some ==> step.ask == Some(AskModel::Execute { view, ops: v.ops })
                && step.round.views[view].ops.len() == 0 && step.round.views[view] == (LiveModel {
                ops: Seq::empty(),
                ..v
            }) && step.statements.len() == 0
            &&& due && v.stale is Some ==> step.round.views[view].dead && step.statements == seq![
                stale_statement(v.id, v.stale->0),
            ] && step.round.blocked_at == m.blocked_at
            &&& due && v.stale is None && v.failed is Some ==> step.round.views[view].dead
                && step.round.views[view].failed_this_round && step.statements.len() == 1
                && step.statements[0].args[0] == ArgModel::Int4(v.id)
                && step.statements[0].args.last() == ArgModel::Text(v.failed)
            &&& forall|w: int|
                0 <= w < m.views.len() && w != view ==> #[trigger] step.round.views[w] == m.views[w]
        }),
{
}

/// A view that fails to apply a transaction is dead for the round and recorded once more;
/// the slot is held at the first such transaction of a view that is to retry, and at none
/// for one that is given up.
pub proof fn law_failing_views_hold_the_slot(
    m: RoundModel,
    tx: int,
    view: int,
    message: Seq<char>,
    max_apply_failures: i32,
)
    requires
        0 <= view < m.views.len(),
        0 <= tx <= usize::MAX,
        0 <= m.views[view].apply_failures < i32::MAX,
        m.views[view].stale is None,
    ensures
        ({
            let step = executed_view(m, tx, view, Err(message), max_apply_failures);
            let v = m.views[view];
            let w = step.round.views[view];
            &&& w.dead && w.failed_this_round
            &&& w.apply_failures == v.apply_failures + 1
            &&& w.frontier == v.frontier && w.last_seq == v.last_seq
            &&& w.stale is None <==> v.apply_failures + 1 < max_apply_failures
            &&& w.stale is None && m.blocked_at is None ==> step.round.blocked_at == Some(
                tx as usize,
            )
            &&& w.stale is Some || m.blocked_at is Some ==> step.round.blocked_at == m.blocked_at
            &&& step.statements.len() == 1
            &&& step.statements[0].args[0] == ArgModel::Int4(v.id)
            &&& step.statements[0].args.last() == ArgModel::Text(Some(message))
            &&& step.round.pending == m.pending
            &&& step.round.absorbed == m.absorbed
            &&& forall|o: int|
                0 <= o < m.views.len() && o != view ==> #[trigger] step.round.views[o] == m.views[o]
        }),
{
}

/// A view that took a transaction in stands at its end, and its log gets the net of what
/// was changed: every delta with its own operation and row, the end and the number of the
/// transaction; the other views are left as they are.
pub proof fn law_absorbed_transactions_are_logged(
    m: RoundModel,
    tx: int,
    view: int,
    deltas: Seq<DeltaModel>,
    k: int,
)
    requires
        0 <= view < m.views.len(),
        m.pending.len() == m.views.len(),
        m.absorbed.len() == m.views.len(),
        m.views[view].last_seq + deltas.len() <= i64::MAX,
    ensures
        ({
            let after = view_absorbed(m, tx, view, deltas);
            let v = m.views[view];
            let net = netted(v.spec, deltas);
            let had = m.pending[view].len();
            &&& after.views[view].frontier == m.txs[tx].end_lsn
            &&& after.views[view].last_seq == v.last_seq + net.len()
            &&& after.absorbed[view] == Some(m.txs[tx].end_lsn)
            &&& after.pending[view].len() == had + net.len()
            &&& after.pending[view].take(had as int) == m.pending[view]
            &&& after.views[view].touched <==> v.touched || net.len() > 0
            &&& 0 <= k < net.len() ==> after.pending[view][had + k] == (PendingModel {
                seq: (v.last_seq + 1 + k) as i64,
                lsn: m.txs[tx].end_lsn,
                xid: m.txs[tx].xid,
                op: net[k].op,
                row_json: net[k].row_json,
            })
            &&& forall|o: int|
                0 <= o < m.views.len() && o != view ==> #[trigger] after.views[o] == m.views[o]
                    && after.pending[o] == m.pending[o] && after.absorbed[o] == m.absorbed[o]
            &&& after.shadows == m.shadows
            &&& after.blocked_at == m.blocked_at
        }),
{
    apply::law_net_is_no_longer(m.views[view].spec, deltas);
    let after = view_absorbed(m, tx, view, deltas);
    assert(after.pending[view].take(m.pending[view].len() as int) =~= m.pending[view]);
}

/// When a transaction is closed every healthy shadow stands at its end at least, and is
/// recorded where it moved; a failed one stays where it is.
pub proof fn law_closed_transactions_move_shadows(m: RoundModel, tx: int, i: int)
    requires
        0 <= i < m.shadows.len(),
        0 <= tx,
    ensures
        ({
            let step = close(m, tx);
            let s = m.shadows[i];
            let t = step.round.shadows[i];
            &&& step.round.shadows.len() == m.shadows.len()
            &&& !s.failed && s.frontier < m.txs[tx].end_lsn ==> t.frontier == m.txs[tx].end_lsn
                && t.advanced
            &&& s.failed || m.txs[tx].end_lsn <= s.frontier ==> t == s
            &&& step.round.processed == tx + 1
            &&& step.round.views == m.views
            &&& step.round.pending == m.pending
            &&& step.statements.len() == 0
            &&& step.ask is None
        }),
{
}

// --- laws of what is recorded --------------------------------------------------------------

proof fn lemma_args_of(view_id: i32, deltas: Seq<PendingModel>, n: nat, k: int)
    requires
        0 <= k < n <= deltas.len(),
    ensures
        all_delta_args(view_id, deltas, n).len() == 6 * n,
        all_delta_args(view_id, deltas, n).subrange(6 * k, 6 * k + 6) == delta_args(
            view_id,
            deltas[k],
        ),
    decreases n,
{
    let before = all_delta_args(view_id, deltas, (n - 1) as nat);
    let all = all_delta_args(view_id, deltas, n);
    if k < n - 1 {
        lemma_args_of(view_id, deltas, (n - 1) as nat, k);
        assert(all.subrange(6 * k, 6 * k + 6) =~= before.subrange(6 * k, 6 * k + 6));
    } else {
        if n > 1 {
            lemma_args_of(view_id, deltas, (n - 1) as nat, 0);
        } else {
            assert(before.len() == 0);
        }
        assert(all.subrange(6 * k, 6 * k + 6) =~= delta_args(view_id, deltas[k]));
    }
}

/// Whether a statement inserts a delta of a view: its own number, position, transaction,
/// operation and row, one behind the other.
pub open spec fn inserts(
    statement: StatementModel,
    view_id: i32,
    d: PendingModel,
    at: int,
) -> bool {
    &&& 0 <= at
    &&& 6 * at + 6 <= statement.args.len()
    &&& statement.args[6 * at] == ArgModel::Int4(view_id)
    &&& statement.args[6 * at + 1] == ArgModel::Int8(d.seq)
    &&& statement.args[6 * at + 2] == ArgModel::Text(Some(lsn::formatted(d.lsn)))
    &&& statement.args[6 * at + 3] == ArgModel::Int8(d.xid as i64)
    &&& statement.args[6 * at + 4] == ArgModel::Text(Some(seq![d.op]))
    &&& statement.args[6 * at + 5] == ArgModel::Text(Some(d.row_json))
    &&& has_part(statement.sql, delta_placeholders(at as nat))
}

proof fn lemma_inserted(view_id: i32, deltas: Seq<PendingModel>, k: int)
    requires
        0 <= k < deltas.len(),
    ensures
        inserts(delta_insert(view_id, deltas), view_id, deltas[k], k),
        delta_insert(view_id, deltas).args.len() == 6 * deltas.len(),
{
    let statement = delta_insert(view_id, deltas);
    let n = deltas.len();
    lemma_args_of(view_id, deltas, n, k);
    let part = statement.args.subrange(6 * k, 6 * k + 6);
    assert(part == delta_args(view_id, deltas[k]));
    assert(statement.args[6 * k] == part[0]);
    assert(statement.args[6 * k + 1] == part[1]);
    assert(statement.args[6 * k + 2] == part[2]);
    assert(statement.args[6 * k + 3] == part[3]);
    assert(statement.args[6 * k + 4] == part[4]);
    assert(statement.args[6 * k + 5] == part[5]);
    let places = Seq::new(n, |i: int| delta_placeholders(i as nat));
    text::lemma_part_of_joined(places, ", "@, k);
    assert(places[k] == delta_placeholders(k as nat));
    text::lemma_part_right(
        "INSERT INTO nabla.deltas (view_id, seq, lsn, xid, op, row) VALUES "@,
        joined(places, ", "@),
        places[k],
    );
}

/// Every delta of a view is inserted into the log, with its own values.
pub proof fn law_every_delta_is_inserted(view_id: i32, deltas: Seq<PendingModel>, k: int)
    requires
        0 <= k < deltas.len(),
    ensures
        exists|s: int, at: int|
            0 <= s < delta_inserts(view_id, deltas).len() && #[trigger] inserts(
                delta_inserts(view_id, deltas)[s],
                view_id,
                deltas[k],
                at,
            ),
    decreases deltas.len(),
{
    let run = delta_inserts(view_id, deltas);
    if deltas.len() <= DELTA_CHUNK {
        lemma_inserted(view_id, deltas, k);
        assert(inserts(run[0], view_id, deltas[k], k));
    } else if k < DELTA_CHUNK {
        let first = deltas.take(DELTA_CHUNK as int);
        lemma_inserted(view_id, first, k);
        assert(first[k] == deltas[k]);
        assert(inserts(run[0], view_id, deltas[k], k));
    } else {
        let rest = deltas.skip(DELTA_CHUNK as int);
        let more = delta_inserts(view_id, rest);
        law_every_delta_is_inserted(view_id, rest, k - DELTA_CHUNK);
        assert(rest[k - DELTA_CHUNK] == deltas[k]);
        let (s, at) = choose|s: int, at: int|
            0 <= s < more.len() && #[trigger] inserts(more[s], view_id, deltas[k], at);
        assert(run[s + 1] == more[s]);
        assert(inserts(run[s + 1], view_id, deltas[k], at));
    }
}

/// How many values some statements bind.
pub open spec fn bound_in_all(run: Seq<StatementModel>) -> nat
    decreases run.len(),
{
    if run.len() == 0 {
        0
    } else {
        bound_in_all(run.drop_first()) + run[0].args.len()
    }
}

/// Nothing but the deltas is inserted: six values for each.
pub proof fn law_only_deltas_are_inserted(view_id: i32, deltas: Seq<PendingModel>)
    ensures
        bound_in_all(delta_inserts(view_id, deltas)) == 6 * deltas.len(),
    decreases deltas.len(),
{
    let run = delta_inserts(view_id, deltas);
    if deltas.len() == 0 {
    } else if deltas.len() <= DELTA_CHUNK {
        lemma_inserted(view_id, deltas, 0);
        assert(run.drop_first() =~= Seq::empty());
        assert(bound_in_all(run.drop_first()) == 0);
    } else {
        let first = deltas.take(DELTA_CHUNK as int);
        let rest = deltas.skip(DELTA_CHUNK as int);
        lemma_inserted(view_id, first, 0);
        law_only_deltas_are_inserted(view_id, rest);
        assert(run.drop_first() =~= delta_inserts(view_id, rest));
    }
}

/// Whether a view's row in the catalog is moved: to a position and a number.
pub open spec fn moves_view(s: StatementModel, id: i32, end: u64, last_seq: i64) -> bool {
    s.args == seq![
        ArgModel::Text(Some(lsn::formatted(end))),
        ArgModel::Int8(last_seq),
        ArgModel::Int4(id),
    ]
}

/// A view that took nothing in leaves nothing to record. One that did is moved to the end
/// of what it took in and to its last number; where it has deltas, these are inserted, what
/// is too old is cleared from its own log, and its subscribers are told of the last one.
pub proof fn law_rounds_record_what_views_took_in(
    v: LiveModel,
    absorbed: Option<u64>,
    pending: Seq<PendingModel>,
    retain: i32,
)
    requires
        i64::MIN <= v.last_seq - retain <= i64::MAX,
    ensures
        ({
            let run = view_statements(v, absorbed, pending, retain);
            &&& absorbed is None ==> run.len() == 0
            &&& absorbed matches Some(end) ==> run.len() > 0 && moves_view(
                run[0],
                v.id,
                end,
                v.last_seq,
            )
            &&& absorbed is Some && pending.len() == 0 ==> run.len() == 1
            &&& absorbed is Some && pending.len() > 0 ==> {
                let n = run.len() as int;
                &&& run.subrange(1, n - 2) == delta_inserts(v.id, pending)
                &&& run[n - 2].args == seq![
                    ArgModel::Int4(v.id),
                    ArgModel::Int8((v.last_seq - retain) as i64),
                ]
                &&& run[n - 1].args == seq![
                    ArgModel::Text(Some("nabla:"@ + v.name)),
                    ArgModel::Text(
                        Some(
                            text::signed_decimal(pending.last().seq as int) + ":"@ + lsn::formatted(
                                pending.last().lsn,
                            ),
                        ),
                    ),
                ]
            }
        }),
{
    let run = view_statements(v, absorbed, pending, retain);
    if absorbed is Some && pending.len() > 0 {
        assert(run.subrange(1, run.len() - 2) =~= delta_inserts(v.id, pending));
    }
}

/// A clean round clears the record of a view's failures; one in which it failed keeps it.
pub proof fn law_clean_rounds_clear_failures(v: LiveModel, end: u64)
    ensures
        !v.failed_this_round ==> has_part(frontier_statement(v, end).sql, "apply_failures = 0"@)
            && has_part(frontier_statement(v, end).sql, "last_error = NULL"@),
        v.failed_this_round ==> frontier_statement(v, end).sql
            == "UPDATE nabla.views SET frontier_lsn = $1::pg_lsn, last_seq = $2 WHERE id = $3"@,
{
    if !v.failed_this_round {
        lemma_reset_text();
    }
}

proof fn lemma_reset_text()
    ensures
        ({
            let sql = "UPDATE nabla.views SET frontier_lsn = $1::pg_lsn, last_seq = $2, apply_failures = 0, last_error = NULL, last_error_at = NULL WHERE id = $3"@;
            has_part(sql, "apply_failures = 0"@) && has_part(sql, "last_error = NULL"@)
        }),
{
    reveal_strlit(
        "UPDATE nabla.views SET frontier_lsn = $1::pg_lsn, last_seq = $2, apply_failures = 0, last_error = NULL, last_error_at = NULL WHERE id = $3",
    );
    reveal_strlit("apply_failures = 0");
    reveal_strlit("last_error = NULL");
    let sql = "UPDATE nabla.views SET frontier_lsn = $1::pg_lsn, last_seq = $2, apply_failures = 0, last_error = NULL, last_error_at = NULL WHERE id = $3"@;
    assert(sql.subrange(65, 83) =~= "apply_failures = 0"@);
    text::lemma_part_at(sql, "apply_failures = 0"@, 65);
    assert(sql.subrange(85, 102) =~= "last_error = NULL"@);
    text::lemma_part_at(sql, "last_error = NULL"@, 85);
}

/// What every view has to record is recorded, view by view.
pub proof fn law_every_view_is_recorded(m: RoundModel, retain: i32, n: nat, i: int)
    requires
        0 <= i < n,
    ensures
        exists|at: int|
            0 <= at && at + view_statements(m.views[i], m.absorbed[i], m.pending[i], retain).len()
                <= views_statements(m, retain, n).len() && #[trigger] views_statements(
                m,
                retain,
                n,
            ).subrange(
                at,
                at + view_statements(m.views[i], m.absorbed[i], m.pending[i], retain).len(),
            ) == view_statements(m.views[i], m.absorbed[i], m.pending[i], retain),
    decreases n,
{
    let part = view_statements(m.views[i], m.absorbed[i], m.pending[i], retain);
    let before = views_statements(m, retain, (n - 1) as nat);
    let all = views_statements(m, retain, n);
    if i < n - 1 {
        law_every_view_is_recorded(m, retain, (n - 1) as nat, i);
        let at = choose|at: int|
            0 <= at && at + part.len() <= before.len() && #[trigger] before.subrange(
                at,
                at + part.len(),
            ) == part;
        assert(all.subrange(at, at + part.len()) =~= before.subrange(at, at + part.len()));
    } else {
        let at = before.len() as int;
        assert(all.subrange(at, at + part.len()) =~= part);
    }
}

/// Whether a statement records a shadow at its frontier.
pub open spec fn records_shadow(statement: StatementModel, s: ShadowModel) -> bool {
    statement.args == seq![
        ArgModel::Text(Some(lsn::formatted(s.frontier))),
        ArgModel::Int8(s.relid as i64),
    ]
}

/// Every shadow that moved is recorded at its frontier.
pub proof fn law_moved_shadows_are_recorded(shadows: Seq<ShadowModel>, n: nat, i: int)
    requires
        0 <= i < n <= shadows.len(),
        shadows[i].advanced,
    ensures
        exists|k: int|
            0 <= k < shadows_statements(shadows, n).len() && records_shadow(
                #[trigger] shadows_statements(shadows, n)[k],
                shadows[i],
            ),
    decreases n,
{
    let before = shadows_statements(shadows, (n - 1) as nat);
    let after = shadows_statements(shadows, n);
    if i < n - 1 {
        law_moved_shadows_are_recorded(shadows, (n - 1) as nat, i);
        let k = choose|k: int|
            0 <= k < before.len() && records_shadow(#[trigger] before[k], shadows[i]);
        assert(after[k] == before[k]);
    } else {
        assert(records_shadow(after[before.len() as int], shadows[i]));
    }
}

/// No shadow is recorded that did not move.
pub proof fn law_only_moved_shadows_are_recorded(shadows: Seq<ShadowModel>, n: nat, k: int)
    requires
        n <= shadows.len(),
        0 <= k < shadows_statements(shadows, n).len(),
    ensures
        exists|i: int|
            0 <= i < n && (#[trigger] shadows[i]).advanced && records_shadow(
                shadows_statements(shadows, n)[k],
                shadows[i],
            ),
    decreases n,
{
    let before = shadows_statements(shadows, (n - 1) as nat);
    if k < before.len() {
        law_only_moved_shadows_are_recorded(shadows, (n - 1) as nat, k);
        assert(shadows_statements(shadows, n)[k] == before[k]);
    } else {
        assert(shadows[n - 1].advanced);
    }
}

/// The deltas of a round are those of the views that took something in.
pub proof fn law_deltas_are_counted(m: RoundModel, n: nat)
    ensures
        delta_count(m, 0) == 0,
        delta_count(m, n + 1) == delta_count(m, n) + (if m.absorbed[n as int] is Some {
            m.pending[n as int].len()
        } else {
            0
        }),
{
}

// --- laws of drift -------------------------------------------------------------------------

/// A new definition makes stale exactly the healthy views that have yet to take in the
/// round and that use a column that is gone from it or has another type; nothing else of a
/// view changes.
pub proof fn law_only_views_that_lost_a_column_drift(v: LiveModel, rel: RelationModel, end: u64)
    ensures
        ({
            let after = view_drifted(v, rel, end);
            &&& after == (LiveModel { stale: after.stale, ..v })
            &&& v.stale is Some || end <= v.frontier ==> after == v
            &&& v.stale is None && v.frontier < end ==> after.stale == worker::drifted(
                v.spec,
                rel.id,
                rel,
            )
        }),
{
}

/// The end of a round is that of its last transaction, and every transaction of a round in
/// commit order ends by then.
pub proof fn law_rounds_end_with_their_last_transaction(txs: Seq<TransactionModel>, t: int)
    requires
        0 <= t < txs.len(),
        forall|i: int, j: int|
            0 <= i < j < txs.len() ==> (#[trigger] txs[i]).end_lsn <= (#[trigger] txs[j]).end_lsn,
    ensures
        txs[t].end_lsn <= round_end(txs),
        round_end(txs) == txs[txs.len() - 1].end_lsn,
{
    if t < txs.len() - 1 {
        assert(txs[t].end_lsn <= txs[txs.len() - 1].end_lsn);
    }
}

/// A definition is compared with every view, and with the relation's own shadow where it is
/// healthy and has yet to take in the round; other shadows stay as they are.
pub proof fn law_every_view_is_compared(m: RoundModel, r: int, v: int, s: int)
    requires
        0 <= r < m.relations.len(),
        0 <= v < m.views.len(),
        0 <= s < m.shadows.len(),
        shadows_are_apart(m),
    ensures
        ({
            let step = drift_one(m, r);
            let rel = m.relations[r];
            let end = round_end(m.txs);
            let shadow = m.shadows[s];
            &&& step.round.views.len() == m.views.len()
            &&& step.round.views[v] == view_drifted(m.views[v], rel, end)
            &&& step.round.shadows.len() == m.shadows.len()
            &&& shadow.relid != rel.id || shadow.failed || end <= shadow.frontier
                ==> step.round.shadows[s] == shadow
            &&& shadow.relid == rel.id && !shadow.failed && shadow.frontier < end
                ==> step.round.shadows[s] == worker::shadow_drifted(
                shadow,
                rel,
                qualified_name(m.views, rel),
            ).0
            &&& step.round.pending == m.pending
        }),
{
    let rel = m.relations[r];
    lemma_shadow_at(m.shadows, rel.id);
    lemma_found_shadow(m.shadows, rel.id);
    if let Some(i) = shadow_at(m.shadows, rel.id) {
        if m.shadows[s].relid == rel.id {
            if i < s {
                assert(m.shadows[i].relid != m.shadows[s].relid);
            } else if s < i {
                assert(m.shadows[s].relid != m.shadows[i].relid);
            }
        }
    }
}

/// A relation goes by the name that a view has for it, and by its own where none has one.
pub proof fn law_relations_go_by_the_views_name(live: Seq<LiveModel>, rel: RelationModel)
    ensures
        (exists|v: int, i: int|
            0 <= v < live.len() && 0 <= i < live[v].spec.relations.len() && (
            #[trigger] live[v].spec.relations[i]).oid == rel.id && live[v].spec.relations[i].qualified
                == qualified_name(live, rel)) || ((forall|v: int, i: int|
            0 <= v < live.len() && 0 <= i < live[v].spec.relations.len() ==> (
            #[trigger] live[v].spec.relations[i]).oid != rel.id) && qualified_name(live, rel)
            == rel.namespace + "."@ + rel.name),
{
    lemma_known_as(live, rel.id, live.len());
}

proof fn lemma_known_as(live: Seq<LiveModel>, relid: u32, n: nat)
    requires
        n <= live.len(),
    ensures
        match known_as(live, relid, n) {
            Some(name) => exists|v: int, i: int|
                0 <= v < n && 0 <= i < live[v].spec.relations.len() && (
                #[trigger] live[v].spec.relations[i]).oid == relid
                    && live[v].spec.relations[i].qualified == name,
            None => forall|v: int, i: int|
                0 <= v < n && 0 <= i < live[v].spec.relations.len() ==> (
                #[trigger] live[v].spec.relations[i]).oid != relid,
        },
    decreases n,
{
    if n > 0 {
        lemma_known_as(live, relid, (n - 1) as nat);
        worker::law_relations_are_found(live[n - 1].spec.relations, relid);
        if known_as(live, relid, (n - 1) as nat) is None {
            if let Some(i) = worker::relation_position(live[n - 1].spec.relations, relid) {
                assert(live[n - 1].spec.relations[i].oid == relid);
            }
        }
    }
}

/// What is done at a stage is the work of its task, for the transaction, the change, the
/// relation and the view of that task; a reply is taken in by the task that asked for it.
pub proof fn law_stages_do_the_work_of_their_task(
    m: RoundModel,
    quoting: spec_fn(Seq<char>) -> Seq<char>,
    max_apply_failures: i32,
    row: Result<Option<Seq<Option<Seq<char>>>>, Seq<char>>,
    planned: PlannedModel,
    result: Result<(), Seq<char>>,
    deltas: Result<Seq<DeltaModel>, Seq<char>>,
)
    requires
        m.position < m.units.len(),
        m.stage < stages(m.units[m.position as int], m.width),
    ensures
        match m.units[m.position as int] {
            Unit::Change { tx, change, relid } => {
                let t = tx as int;
                let c = change as int;
                let stage = m.stage as int;
                let last = m.width + 1;
                &&& stage == 0 ==> begin(m, quoting, max_apply_failures) == fetch_begun(
                    m,
                    t,
                    c,
                    relid,
                    quoting,
                ) && answered(m, ReplyModel::OldRow(row), max_apply_failures).round == fetched(
                    m,
                    relid,
                    row,
                )
                &&& 0 < stage < last ==> begin(m, quoting, max_apply_failures) == plan_view(
                    m,
                    t,
                    c,
                    relid,
                    stage - 1,
                    quoting,
                ) && answered(m, ReplyModel::Planned(planned), max_apply_failures).round
                    == planned_view(m, stage - 1, planned)
                &&& stage == last ==> begin(m, quoting, max_apply_failures) == maintain(
                    m,
                    t,
                    c,
                    relid,
                    quoting,
                ) && answered(m, ReplyModel::Shadow(result), max_apply_failures) == maintained(
                    m,
                    relid,
                    result,
                )
            },
            Unit::Apply { tx } => {
                let t = tx as int;
                let stage = m.stage as int;
                &&& stage < m.width ==> begin(m, quoting, max_apply_failures) == execute_view(
                    m,
                    t,
                    stage,
                    max_apply_failures,
                ) && answered(m, ReplyModel::Executed(deltas), max_apply_failures)
                    == executed_view(m, t, stage, deltas, max_apply_failures)
                &&& stage == m.width ==> begin(m, quoting, max_apply_failures) == close(m, t)
            },
        },
{
}

/// A round goes on from stage to stage until it asks for something or no stage is left, and
/// with a reply from the stage behind the one that asked.
pub proof fn law_rounds_go_from_stage_to_stage(
    m: RoundModel,
    done: Seq<StatementModel>,
    reply: ReplyModel,
    quoting: spec_fn(Seq<char>) -> Seq<char>,
    max_apply_failures: i32,
)
    requires
        m.stage < m.width + 2,
    ensures
        m.position >= m.units.len() ==> run(m, done, quoting, max_apply_failures) == (Step {
            round: m,
            statements: done,
            ask: Some(AskModel::Done),
        }),
        m.position < m.units.len() ==> {
            let step = begin(m, quoting, max_apply_failures);
            let (position, stage) = next_cursor(m.units, m.width, m.position, m.stage);
            let next = RoundModel { units: m.units, width: m.width, position, stage, ..step.round };
            &&& step.ask is Some ==> run(m, done, quoting, max_apply_failures).ask == step.ask
                && run(m, done, quoting, max_apply_failures).round == step.round
            &&& step.ask is None ==> run(m, done, quoting, max_apply_failures) == run(
                next,
                done + step.statements,
                quoting,
                max_apply_failures,
            )
        },
        ({
            let step = answered(m, reply, max_apply_failures);
            let (position, stage) = next_cursor(
                step.round.units,
                step.round.width,
                step.round.position,
                step.round.stage,
            );
            resumed(m, reply, quoting, max_apply_failures) == run(
                RoundModel { position, stage, ..step.round },
                step.statements,
                quoting,
                max_apply_failures,
            )
        }),
{
}

/// The new row of a change that reaches the shadow is the row that was sent, each value that
/// was not sent taken from the old row; there is none where such a value is not known.
pub proof fn law_shadows_get_whole_rows(
    rel: RelationModel,
    relid: u32,
    before: Option<(u8, Seq<Cell>)>,
    new: Seq<Cell>,
    old_full: Option<Seq<Cell>>,
    kind: u8,
)
    requires
        new.len() <= rel.columns.len(),
    ensures
        new_full_of(rel, ChangeModel::Insert { relid, new }, old_full) == Some(new),
        new_full_of(rel, ChangeModel::Delete { relid, key_kind: kind, old: new }, old_full) is None,
        ({
            let change = ChangeModel::Update { relid, old: before, new };
            let whole = forall|i: int|
                0 <= i < new.len() && #[trigger] new[i] == Cell::Unchanged ==> apply::is_known_of(
                    old_full,
                    i,
                );
            &&& new_full_of(rel, change, old_full) is Some <==> whole
            &&& new_full_of(rel, change, old_full) matches Some(row) ==> row.len() == new.len()
                && forall|i: int|
                0 <= i < new.len() ==> #[trigger] row[i] == (if new[i] != Cell::Unchanged {
                    new[i]
                } else {
                    (old_full->0)[i]
                })
            &&& new_row_fault(rel, change, old_full) is None
        }),
{
    apply::law_unsent_values_come_from_the_old_row(rel, new, old_full, |name: Seq<char>| true);
}

/// An update whose row has an unsent value behind the last column of its relation fails the
/// round, unless a value before it is lost already; nothing else does.
pub proof fn law_only_stray_values_fail_a_round(
    rel: RelationModel,
    change: ChangeModel,
    old_full: Option<Seq<Cell>>,
)
    ensures
        new_row_fault(rel, change, old_full) is Some <==> {
            &&& change is Update
            &&& exists|i: int|
                rel.columns.len() <= i < (change->Update_new).len() && #[trigger] (
                change->Update_new)[i] == Cell::Unchanged
            &&& forall|i: int|
                0 <= i < rel.columns.len() && i < (change->Update_new).len() && #[trigger] (
                change->Update_new)[i] == Cell::Unchanged ==> apply::is_known_of(old_full, i)
        },
{
    if let ChangeModel::Update { relid, old: before, new } = change {
        apply::law_unsent_values_come_from_the_old_row(
            rel,
            new,
            old_full,
            |name: Seq<char>| true,
        );
    }
}

/// The placeholders of a delta number the values that are bound for it, in their order: the
/// view, the number, the position, the transaction, the operation and the row.
pub proof fn law_placeholders_number_the_values(i: nat)
    ensures
        ({
            let sql = delta_placeholders(i);
            let first = 6 * i;
            &&& has_part(
                sql,
                "($"@ + decimal(first + 1) + ", $"@ + decimal(first + 2) + ", $"@ + decimal(
                    first + 3,
                ) + "::pg_lsn"@,
            )
            &&& has_part(
                sql,
                ", $"@ + decimal(first + 4) + ", $"@ + decimal(first + 5) + "::\"char\""@,
            )
            &&& has_part(sql, decimal(first + 6) + "::jsonb)"@)
        }),
{
    let a = decimal(6 * i + 1);
    let b = decimal(6 * i + 2);
    let c = decimal(6 * i + 3);
    let d = decimal(6 * i + 4);
    let e = decimal(6 * i + 5);
    let f = decimal(6 * i + 6);
    assert(i * 6 == 6 * i);
    lemma_placeholder_text(a, b, c, d, e, f);
}

proof fn lemma_placeholder_text(
    a: Seq<char>,
    b: Seq<char>,
    c: Seq<char>,
    d: Seq<char>,
    e: Seq<char>,
    f: Seq<char>,
)
    ensures
        ({
            let sql = "($"@ + a + ", $"@ + b + ", $"@ + c + "::pg_lsn, $"@ + d + ", $"@ + e
                + "::\"char\", $"@ + f + "::jsonb)"@;
            &&& has_part(sql, "($"@ + a + ", $"@ + b + ", $"@ + c + "::pg_lsn"@)
            &&& has_part(sql, ", $"@ + d + ", $"@ + e + "::\"char\""@)
            &&& has_part(sql, f + "::jsonb)"@)
        }),
{
    let front = "($"@ + a + ", $"@ + b + ", $"@ + c + "::pg_lsn"@;
    let middle = ", $"@ + d + ", $"@ + e + "::\"char\""@;
    let back = f + "::jsonb)"@;
    let sql = "($"@ + a + ", $"@ + b + ", $"@ + c + "::pg_lsn, $"@ + d + ", $"@ + e
        + "::\"char\", $"@ + f + "::jsonb)"@;
    lemma_placeholder_pieces();
    assert(sql =~= front + middle + (", $"@ + back));
    assert(has_part(sql, front)) by {
        text::lemma_part_of_itself(front);
        text::lemma_part_left(front, middle, front);
        text::lemma_part_left(front + middle, ", $"@ + back, front);
    }
    assert(has_part(sql, middle)) by {
        text::lemma_part_of_itself(middle);
        text::lemma_part_within(front, middle, ", $"@ + back, middle);
    }
    assert(has_part(sql, back)) by {
        text::lemma_part_of_itself(back);
        text::lemma_part_right(", $"@, back, back);
        text::lemma_part_right(front + middle, ", $"@ + back, back);
    }
}

proof fn lemma_placeholder_pieces()
    ensures
        "::pg_lsn, $"@ == "::pg_lsn"@ + ", $"@,
        "::\"char\", $"@ == "::\"char\""@ + ", $"@,
{
    reveal_strlit("::pg_lsn, $");
    reveal_strlit("::pg_lsn");
    reveal_strlit(", $");
    reveal_strlit("::\"char\", $");
    reveal_strlit("::\"char\"");
    assert("::pg_lsn, $"@ =~= "::pg_lsn"@ + ", $"@);
    assert("::\"char\", $"@ =~= "::\"char\""@ + ", $"@);
}

/// The type of a column is asked for by its own type and modifier.
pub proof fn law_types_are_asked_for_by_number(typid: u32, typmod: i32)
    ensures
        type_statement(typid, typmod).args == seq![
            ArgModel::Int8(typid as i64),
            ArgModel::Int4(typmod),
        ],
{
}

/// Every failure is told, once and behind what was told before: that of a shadow as a warning
/// with its table and the reason, that of a view with its name and the reason, as a warning only
/// where the view is given up.
pub proof fn law_failures_are_told(
    m: RoundModel,
    relid: u32,
    tx: int,
    view: int,
    message: Seq<char>,
    max_apply_failures: i32,
)
    requires
        shadow_at(m.shadows, relid) is Some,
        0 <= tx < m.txs.len(),
        0 <= view < m.views.len(),
        0 <= m.views[view].apply_failures < i32::MAX,
        m.views[view].stale is None,
    ensures
        ({
            let lost = maintained(m, relid, Err(message)).round;
            let failed = executed_view(m, tx, view, Err(message), max_apply_failures).round;
            let s = m.shadows[shadow_at(m.shadows, relid)->0];
            &&& lost.log.len() == m.log.len() + 1
            &&& m.log.is_prefix_of(lost.log)
            &&& lost.log.last().level == Level::Warning
            &&& has_part(lost.log.last().text, s.table)
            &&& has_part(lost.log.last().text, message)
            &&& failed.log.len() == m.log.len() + 1
            &&& m.log.is_prefix_of(failed.log)
            &&& failed.log.last().level == Level::Warning <==> failed.views[view].stale is Some
            &&& has_part(failed.log.last().text, m.views[view].name)
            &&& has_part(failed.log.last().text, message)
        }),
{
    let lost = maintained(m, relid, Err(message)).round;
    let failed = executed_view(m, tx, view, Err(message), max_apply_failures).round;
    worker::law_notices_name_what_they_are_about(
        m.views[view],
        m.shadows[shadow_at(m.shadows, relid)->0],
        m.txs[tx].end_lsn,
        message,
        max_apply_failures,
    );
    assert(m.log =~= lost.log.subrange(0, m.log.len() as int));
    assert(m.log =~= failed.log.subrange(0, m.log.len() as int));
}

} // verus!
