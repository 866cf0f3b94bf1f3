//! One poll of the replication slot: what the worker asks the server in turn,
//! and what it makes of the answers.
//!
//! Views that were queued are built first, each group under its own consistent
//! snapshot; then everything committed up to the current flush point is peeked,
//! decoded and applied, and the slot is advanced once.
use vstd::prelude::*;

use crate::guc::at_least_one;
use crate::lsn;
use crate::pgoutput;
use crate::pgoutput::{Decoder, DecoderModel, SourceTransaction, TransactionModel};
use crate::round::{covers, is_live, sound, view_sound, RoundModel, RoundStats};
use crate::statement::{
    bare, push_notice, text_arg, warning, Arg, ArgModel, Notice, NoticeModel, Statement,
    StatementModel,
};
use crate::text;
use crate::text::{has_part, signed_decimal, view_of_option, views};
use crate::worker::{PUBLICATION, SLOT};

verus! {

/// The worker between polls, and how far the poll at hand has come.
pub struct Poll {
    pub decoder: Decoder,
    /// Flush position right after our own last idle-advance write, so the
    /// worker does not chase its own WAL every poll.
    pub self_flush: u64,
    /// Frontier every live object was advanced to by the last idle advance.
    pub last_advance: u64,
    pub reported_missing_extension: bool,
    /// The position that the slot had at the start of the poll.
    pub confirmed: u64,
    /// The flush point up to which this poll decodes.
    pub target: u64,
    /// Everything up to the flush point was decoded.
    pub drained: bool,
    /// The end of the last transaction that the poll applied.
    pub last_end: u64,
    /// The ends of the transactions that are applied.
    pub ends: Vec<u64>,
    /// What the operator is to be told.
    pub log: Vec<Notice>,
}

pub struct PollModel {
    pub decoder: DecoderModel,
    pub self_flush: u64,
    pub last_advance: u64,
    pub reported_missing_extension: bool,
    pub confirmed: u64,
    pub target: u64,
    pub drained: bool,
    pub last_end: u64,
    pub ends: Seq<u64>,
    pub log: Seq<NoticeModel>,
}

impl View for Poll {
    type V = PollModel;

    open spec fn view(&self) -> PollModel {
        PollModel {
            decoder: self.decoder@,
            self_flush: self.self_flush,
            last_advance: self.last_advance,
            reported_missing_extension: self.reported_missing_extension,
            confirmed: self.confirmed,
            target: self.target,
            drained: self.drained,
            last_end: self.last_end,
            ends: self.ends@,
            log: views(self.log@),
        }
    }
}

/// Whether there is more to decode right away.
#[derive(Clone, Copy, Debug, PartialEq, Eq, Structural)]
pub enum Outcome {
    Idle,
    MoreWork,
}

/// What the poll asks for next.
#[allow(inconsistent_fields)]
pub enum Next {
    /// Whether the extension is installed.
    Installed { query: Statement },
    /// Build the views that wait for it.
    Populate,
    /// Slot presence and lag.
    Slot { query: Statement },
    /// Give up on the slot, in one transaction; the poll is over then.
    DropSlot { statements: Vec<Statement> },
    /// The current flush point.
    Flush { query: Statement },
    /// Apply the transactions in one worker transaction.
    Apply { transactions: Vec<SourceTransaction> },
    /// Advance the slot; the poll is over then if it is blocked.
    Advance { statement: Statement, blocked: bool },
    /// Advance every live object, then the slot, in one transaction.
    IdleAdvance { statements: Vec<Statement> },
    /// The flush point after the idle advance.
    FlushAgain { query: Statement },
    /// The poll is over; an idle window is published first, if there is one.
    Done { outcome: Outcome, window: Option<(u64, u64)> },
}

#[allow(inconsistent_fields)]
pub enum NextModel {
    Installed { query: StatementModel },
    Populate,
    Slot { query: StatementModel },
    DropSlot { statements: Seq<StatementModel> },
    Flush { query: StatementModel },
    Apply { transactions: Seq<TransactionModel> },
    Advance { statement: StatementModel, blocked: bool },
    IdleAdvance { statements: Seq<StatementModel> },
    FlushAgain { query: StatementModel },
    Done { outcome: Outcome, window: Option<(u64, u64)> },
}

impl View for Next {
    type V = NextModel;

    open spec fn view(&self) -> NextModel {
        match self {
            Next::Installed { query } => NextModel::Installed { query: query@ },
            Next::Populate => NextModel::Populate,
            Next::Slot { query } => NextModel::Slot { query: query@ },
            Next::DropSlot { statements } => NextModel::DropSlot {
                statements: views(statements@),
            },
            Next::Flush { query } => NextModel::Flush { query: query@ },
            Next::Apply { transactions } => NextModel::Apply {
                transactions: views(transactions@),
            },
            Next::Advance { statement, blocked } => NextModel::Advance {
                statement: statement@,
                blocked: *blocked,
            },
            Next::IdleAdvance { statements } => NextModel::IdleAdvance {
                statements: views(statements@),
            },
            Next::FlushAgain { query } => NextModel::FlushAgain { query: query@ },
            Next::Done { outcome, window } => NextModel::Done {
                outcome: *outcome,
                window: *window,
            },
        }
    }
}

pub open spec fn idle() -> NextModel {
    NextModel::Done { outcome: Outcome::Idle, window: None }
}

// --- statements ------------------------------------------------------------------------

pub open spec fn installed_query() -> StatementModel {
    bare("SELECT EXISTS (SELECT 1 FROM pg_catalog.pg_extension WHERE extname = 'nabla')"@)
}

pub open spec fn one_text(sql: Seq<char>, arg: Seq<char>) -> StatementModel {
    StatementModel { sql, args: seq![ArgModel::Text(Some(arg))] }
}

pub open spec fn slot_query() -> StatementModel {
    one_text(
        "SELECT confirmed_flush_lsn::text, (pg_catalog.pg_current_wal_lsn() - confirmed_flush_lsn)::int8 FROM pg_catalog.pg_replication_slots WHERE slot_name = $1"@,
        SLOT@,
    )
}

pub open spec fn drop_slot() -> Seq<StatementModel> {
    seq![
        bare(
            "UPDATE nabla.views SET status = 'stale', stale_reason = 'replication slot lag exceeded nabla.max_slot_lag_bytes; slot dropped' WHERE status = 'live'"@,
        ),
        one_text("SELECT pg_catalog.pg_drop_replication_slot($1)"@, SLOT@),
    ]
}

pub open spec fn flush_query() -> StatementModel {
    bare("SELECT pg_catalog.pg_current_wal_flush_lsn()::text"@)
}

/// The server never splits a transaction across the limit (it is checked
/// between WAL records), so a large transaction simply returns more rows.
pub open spec fn peek_query(target: u64, batch_changes: i32) -> StatementModel {
    StatementModel {
        sql: "SELECT data FROM pg_catalog.pg_logical_slot_peek_binary_changes($1, $2::pg_lsn, "@
            + signed_decimal(at_least_one(batch_changes) as int)
            + ", 'proto_version', '1', 'publication_names', '"@ + PUBLICATION@ + "')"@,
        args: seq![
            ArgModel::Text(Some(SLOT@)),
            ArgModel::Text(Some(lsn::formatted(target))),
        ],
    }
}

/// The slot never goes back.
pub open spec fn advance_statement(to: u64) -> StatementModel {
    StatementModel {
        sql: "SELECT pg_catalog.pg_replication_slot_advance($1, GREATEST($2::pg_lsn, confirmed_flush_lsn)) FROM pg_catalog.pg_replication_slots WHERE slot_name = $1"@,
        args: seq![ArgModel::Text(Some(SLOT@)), ArgModel::Text(Some(lsn::formatted(to)))],
    }
}

/// Everything up to `frontier` was decoded: views and shadows reflect the base
/// tables there.
pub open spec fn idle_advance(frontier: u64) -> Seq<StatementModel> {
    seq![
        one_text(
            "UPDATE nabla.views SET frontier_lsn = $1::pg_lsn WHERE status = 'live' AND frontier_lsn < $1::pg_lsn"@,
            lsn::formatted(frontier),
        ),
        one_text(
            "UPDATE nabla.shadows SET frontier_lsn = $1::pg_lsn WHERE NOT failed AND frontier_lsn < $1::pg_lsn"@,
            lsn::formatted(frontier),
        ),
        advance_statement(frontier),
    ]
}

fn with_text(sql: &str, arg: &str) -> (result: Statement)
    ensures
        result@ == one_text(sql@, arg@),
{
    let s = Statement { sql: sql.to_string(), args: vec![text_arg(arg)] };
    assert(s@.args =~= seq![ArgModel::Text(Some(arg@))]);
    s
}

fn flush_statement() -> (result: Statement)
    ensures
        result@ == flush_query(),
{
    Statement::bare("SELECT pg_catalog.pg_current_wal_flush_lsn()::text".to_string())
}

pub fn advance_slot(to: u64) -> (result: Statement)
    ensures
        result@ == advance_statement(to),
{
    let s = Statement {
        sql: "SELECT pg_catalog.pg_replication_slot_advance($1, GREATEST($2::pg_lsn, confirmed_flush_lsn)) FROM pg_catalog.pg_replication_slots WHERE slot_name = $1".to_string(),
        args: vec![text_arg(SLOT), Arg::Text(Some(lsn::format(to)))],
    };
    assert(s@.args =~= advance_statement(to).args);
    s
}

// --- decisions -------------------------------------------------------------------------

pub open spec fn lsn_or_zero(text: Option<Seq<char>>) -> u64 {
    match text {
        Some(t) => match lsn::parsed(t) {
            Some(at) => at,
            None => 0,
        },
        None => 0,
    }
}

/// What the operator is told of a slot that is given up.
pub open spec fn lag_notice(lag: i64) -> NoticeModel {
    warning(
        "nabla worker: slot lag "@ + signed_decimal(lag as int)
            + " bytes exceeds nabla.max_slot_lag_bytes; all views marked stale and slot dropped"@,
    )
}

/// What the operator is told of a transaction that the peek did not hold whole.
pub open spec fn incomplete_notice() -> NoticeModel {
    warning(
        "nabla worker: discarding an incomplete trailing transaction; it will be re-read"@,
    )
}

/// What a slot's position and lag lead to.
pub open spec fn after_slot(
    p: PollModel,
    slot: Option<(Option<Seq<char>>, Option<i64>)>,
    max_slot_lag_bytes: i32,
) -> (PollModel, NextModel) {
    match slot {
        Some((Some(confirmed), Some(lag))) => {
            let at = PollModel { confirmed: lsn_or_zero(Some(confirmed)), ..p };
            if lag > max_slot_lag_bytes {
                (
                    PollModel { log: p.log.push(lag_notice(lag)), ..at },
                    NextModel::DropSlot { statements: drop_slot() },
                )
            } else {
                (at, NextModel::Flush { query: flush_query() })
            }
        },
        _ => (p, idle()),
    }
}

/// What the flush point leads to: there is something to peek only beyond the
/// slot's position.
pub open spec fn after_flush(p: PollModel, flush: Option<Seq<char>>, batch_changes: i32) -> Result<
    (PollModel, Option<StatementModel>),
    Seq<char>,
> {
    match flush {
        Some(text) if lsn::parsed(text) is Some => {
            let target = lsn::parsed(text)->0;
            let at = PollModel { target, ..p };
            Ok(
                (
                    at,
                    if target <= p.confirmed {
                        None
                    } else {
                        Some(peek_query(target, batch_changes))
                    },
                ),
            )
        },
        _ => Err("could not read flush lsn"@),
    }
}

/// The decoder once the first `n` rows of the peek are fed.
pub open spec fn fed_rows(decoder: DecoderModel, rows: Seq<Seq<u8>>, n: nat) -> Result<
    DecoderModel,
    Seq<char>,
>
    decreases n,
{
    if n == 0 {
        Ok(decoder)
    } else {
        match fed_rows(decoder, rows, (n - 1) as nat) {
            Ok(before) => pgoutput::fed(before, rows[n - 1]),
            Err(e) => Err(e),
        }
    }
}

/// The decoder as it stands where the peek fails: fed with the rows in front of
/// the first one that it does not take.
pub open spec fn stops_at(decoder: DecoderModel, rows: Seq<Seq<u8>>, at: DecoderModel) -> bool {
    exists|k: nat|
        k < rows.len() && #[trigger] fed_rows(decoder, rows, k) == Ok::<DecoderModel, Seq<char>>(at)
            && fed_rows(decoder, rows, k + 1) is Err
}

pub open spec fn ends_of(txs: Seq<TransactionModel>) -> Seq<u64> {
    txs.map_values(|t: TransactionModel| t.end_lsn)
}

pub open spec fn later(a: u64, b: u64) -> u64 {
    if a >= b {
        a
    } else {
        b
    }
}

/// What is left to do once everything decoded is applied: live objects are
/// advanced when nothing is left in front of the flush point.
pub open spec fn wind_down(p: PollModel) -> NextModel {
    if p.drained {
        NextModel::IdleAdvance { statements: idle_advance(later(p.target, p.last_end)) }
    } else {
        NextModel::Done { outcome: Outcome::MoreWork, window: None }
    }
}

/// What the peeked rows lead to.
pub open spec fn after_peek(p: PollModel, rows: Seq<Seq<u8>>, batch_changes: i32) -> Result<
    (PollModel, NextModel),
    Seq<char>,
> {
    let at = PollModel {
        drained: rows.len() < at_least_one(batch_changes),
        last_end: p.confirmed,
        ends: Seq::empty(),
        ..p
    };
    if rows.len() == 0 && p.target == p.self_flush {
        // Nothing decodable and no WAL beyond our own last commit: the
        // range (last_advance, target] holds no published change, so a
        // view at last_advance also reflects the base tables at target.
        Ok(
            (
                at,
                NextModel::Done {
                    outcome: Outcome::Idle,
                    window: if p.last_advance > 0 {
                        Some((p.last_advance, p.target))
                    } else {
                        None
                    },
                },
            ),
        )
    } else {
        match fed_rows(p.decoder, rows, rows.len()) {
            Err(e) => Err(e),
            Ok(decoder) => {
                let kept = PollModel {
                    decoder: DecoderModel { current: None, complete: Seq::empty(), ..decoder },
                    ends: ends_of(decoder.complete),
                    log: if decoder.current is Some {
                        p.log.push(incomplete_notice())
                    } else {
                        p.log
                    },
                    ..at
                };
                Ok(
                    (
                        kept,
                        if decoder.complete.len() > 0 {
                            NextModel::Apply { transactions: decoder.complete }
                        } else {
                            wind_down(kept)
                        },
                    ),
                )
            },
        }
    }
}

/// What an applied round leads to. A live view that must retry transaction k
/// on the next poll holds the slot just before it (the healthy views absorbed
/// the whole peek and skip the replay through their frontier), and there is no
/// idle advance: the blocked view does not reflect the flush point. Otherwise
/// the slot goes to the end of the last applied transaction.
pub open spec fn after_apply(p: PollModel, processed: nat, blocked_at: Option<usize>) -> (
    PollModel,
    NextModel,
) {
    match blocked_at {
        Some(k) => if k > 0 {
            (
                p,
                NextModel::Advance {
                    statement: advance_statement(p.ends[k - 1]),
                    blocked: true,
                },
            )
        } else {
            (p, idle())
        },
        None => {
            let end = later(p.last_end, p.ends[processed - 1]);
            (
                PollModel { last_end: end, ..p },
                NextModel::Advance { statement: advance_statement(end), blocked: false },
            )
        },
    }
}

/// What the idle advance leads to: the flush point afterwards is our own.
pub open spec fn after_idle_advance(p: PollModel, flush: Option<Seq<char>>) -> (
    PollModel,
    NextModel,
) {
    let frontier = later(p.target, p.last_end);
    (
        PollModel { self_flush: lsn_or_zero(flush), last_advance: frontier, ..p },
        NextModel::Done { outcome: Outcome::Idle, window: Some((frontier, frontier)) },
    )
}

pub open spec fn slot_model(slot: Option<(Option<String>, Option<i64>)>) -> Option<
    (Option<Seq<char>>, Option<i64>),
> {
    match slot {
        Some((confirmed, lag)) => Some((view_of_option(confirmed), lag)),
        None => None,
    }
}

pub open spec fn row_bytes(rows: Seq<Vec<u8>>) -> Seq<Seq<u8>> {
    rows.map_values(|r: Vec<u8>| r@)
}

fn later_of(a: u64, b: u64) -> (result: u64)
    ensures
        result == later(a, b),
{
    if a >= b {
        a
    } else {
        b
    }
}

impl Default for Poll {
    fn default() -> (result: Self)
        ensures
            result@ == (PollModel {
                decoder: DecoderModel {
                    relations: Map::empty(),
                    current: None,
                    complete: Seq::empty(),
                },
                self_flush: 0,
                last_advance: 0,
                reported_missing_extension: false,
                confirmed: 0,
                target: 0,
                drained: false,
                last_end: 0,
                ends: Seq::empty(),
                log: Seq::empty(),
            }),
    {
        let poll = Poll {
            decoder: Decoder::default(),
            self_flush: 0,
            last_advance: 0,
            reported_missing_extension: false,
            confirmed: 0,
            target: 0,
            drained: false,
            last_end: 0,
            ends: Vec::new(),
            log: Vec::new(),
        };
        assert(poll@.log =~= Seq::empty());
        poll
    }
}

impl Poll {
    /// The extension may not be installed (yet) in this database.
    pub fn start(&self) -> (result: Next)
        ensures
            result@ == (NextModel::Installed { query: installed_query() }),
    {
        Next::Installed {
            query: Statement::bare(
                "SELECT EXISTS (SELECT 1 FROM pg_catalog.pg_extension WHERE extname = 'nabla')".to_string(),
            ),
        }
    }

    /// Go on, or wait. Returns also whether the missing extension is to be
    /// reported, which it is once.
    pub fn installed(&mut self, installed: bool) -> (result: (Next, bool))
        ensures
            final(self)@ == (PollModel { reported_missing_extension: !installed, ..old(self)@ }),
            (result.0)@ == if installed {
                NextModel::Populate
            } else {
                idle()
            },
            result.1 == (!installed && !old(self)@.reported_missing_extension),
    {
        if !installed {
            let report = !self.reported_missing_extension;
            self.reported_missing_extension = true;
            return (Next::Done { outcome: Outcome::Idle, window: None }, report);
        }
        self.reported_missing_extension = false;
        (Next::Populate, false)
    }

    /// The views that waited were built.
    pub fn populated(&self) -> (result: Next)
        ensures
            result@ == (NextModel::Slot { query: slot_query() }),
    {
        Next::Slot {
            query: with_text(
                "SELECT confirmed_flush_lsn::text, (pg_catalog.pg_current_wal_lsn() - confirmed_flush_lsn)::int8 FROM pg_catalog.pg_replication_slots WHERE slot_name = $1",
                SLOT,
            ),
        }
    }

    /// Slot presence and lag.
    pub fn slot(&mut self, slot: Option<(Option<String>, Option<i64>)>, max_slot_lag_bytes: i32) -> (result:
        Next)
        ensures
            (final(self)@, result@) == after_slot(old(self)@, slot_model(slot), max_slot_lag_bytes),
    {
        match slot {
            Some((Some(confirmed), Some(lag))) => {
                self.confirmed = match lsn::parse(&confirmed) {
                    Some(at) => at,
                    None => 0,
                };
                if lag > max_slot_lag_bytes as i64 {
                    let statements = vec![
                        Statement::bare(
                            "UPDATE nabla.views SET status = 'stale', stale_reason = 'replication slot lag exceeded nabla.max_slot_lag_bytes; slot dropped' WHERE status = 'live'".to_string(),
                        ),
                        with_text("SELECT pg_catalog.pg_drop_replication_slot($1)", SLOT),
                    ];
                    assert(views(statements@) =~= drop_slot());
                    let notice = Notice::warning(
                        "nabla worker: slot lag ".to_string().concat(
                            &text::signed_text(lag),
                        ).concat(
                            " bytes exceeds nabla.max_slot_lag_bytes; all views marked stale and slot dropped",
                        ),
                    );
                    push_notice(&mut self.log, notice);
                    return Next::DropSlot { statements };
                }
                Next::Flush { query: flush_statement() }
            },
            _ => Next::Done { outcome: Outcome::Idle, window: None },
        }
    }

    /// The flush point: the query for the changes up to there, if there can be
    /// any.
    pub fn flush(&mut self, flush: Option<String>, batch_changes: i32) -> (result: Result<
        Option<Statement>,
        String,
    >)
        ensures
            match result {
                Ok(query) => after_flush(old(self)@, view_of_option(flush), batch_changes) == Ok::<
                    (PollModel, Option<StatementModel>),
                    Seq<char>,
                >((final(self)@, view_of_option(query))),
                Err(e) => after_flush(old(self)@, view_of_option(flush), batch_changes) == Err::<
                    (PollModel, Option<StatementModel>),
                    Seq<char>,
                >(e@) && final(self)@ == old(self)@,
            },
    {
        let parsed = match flush {
            Some(text) => lsn::parse(&text),
            None => None,
        };
        let target = match parsed {
            Some(target) => target,
            None => return Err("could not read flush lsn".to_string()),
        };
        self.target = target;
        if target <= self.confirmed {
            return Ok(None);
        }
        let limit = crate::guc::at_least(batch_changes);
        let query = Statement {
            sql: "SELECT data FROM pg_catalog.pg_logical_slot_peek_binary_changes($1, $2::pg_lsn, ".to_string().concat(
                &text::signed_text(limit as i64),
            ).concat(", 'proto_version', '1', 'publication_names', '").concat(PUBLICATION).concat(
                "')",
            ),
            args: vec![text_arg(SLOT), Arg::Text(Some(lsn::format(target)))],
        };
        assert(query@.args =~= peek_query(target, batch_changes).args);
        Ok(Some(query))
    }

    fn wind(&self) -> (result: Next)
        ensures
            result@ == wind_down(self@),
    {
        if !self.drained {
            return Next::Done { outcome: Outcome::MoreWork, window: None };
        }
        let frontier = later_of(self.target, self.last_end);
        let at = lsn::format(frontier);
        let statements = vec![
            with_text(
                "UPDATE nabla.views SET frontier_lsn = $1::pg_lsn WHERE status = 'live' AND frontier_lsn < $1::pg_lsn",
                &at,
            ),
            with_text(
                "UPDATE nabla.shadows SET frontier_lsn = $1::pg_lsn WHERE NOT failed AND frontier_lsn < $1::pg_lsn",
                &at,
            ),
            advance_slot(frontier),
        ];
        assert(views(statements@) =~= idle_advance(frontier));
        Next::IdleAdvance { statements }
    }

    /// Take in the peeked rows.
    pub fn peeked(&mut self, rows: &Vec<Vec<u8>>, batch_changes: i32) -> (result: Result<
        Next,
        String,
    >)
        ensures
            match result {
                Ok(next) => after_peek(old(self)@, row_bytes(rows@), batch_changes) == Ok::<
                    (PollModel, NextModel),
                    Seq<char>,
                >((final(self)@, next@)),
                Err(e) => after_peek(old(self)@, row_bytes(rows@), batch_changes) == Err::<
                    (PollModel, NextModel),
                    Seq<char>,
                >(e@) && stops_at(
                    old(self)@.decoder,
                    row_bytes(rows@),
                    final(self)@.decoder,
                ) && final(self)@ == (PollModel {
                    decoder: final(self)@.decoder,
                    drained: rows@.len() < at_least_one(batch_changes),
                    last_end: old(self)@.confirmed,
                    ends: Seq::empty(),
                    ..old(self)@
                }),
            },
    {
        let ghost p = self@;
        let ghost data = row_bytes(rows@);
        let limit = crate::guc::at_least(batch_changes);
        self.drained = (rows.len() as u64) < limit as u64;
        self.last_end = self.confirmed;
        self.ends = Vec::new();
        if rows.len() == 0 && self.target == self.self_flush {
            let window = if self.last_advance > 0 {
                Some((self.last_advance, self.target))
            } else {
                None
            };
            return Ok(Next::Done { outcome: Outcome::Idle, window });
        }
        let ghost at = self@;
        let mut i: usize = 0;
        while i < rows.len()
            invariant
                data == row_bytes(rows@),
                !(data.len() == 0 && p.target == p.self_flush),
                p == old(self)@,
                at == (PollModel {
                    drained: data.len() < at_least_one(batch_changes),
                    last_end: p.confirmed,
                    ends: Seq::empty(),
                    ..p
                }),
                i <= rows@.len(),
                self@ == (PollModel { decoder: self@.decoder, ..at }),
                fed_rows(p.decoder, data, i as nat) == Ok::<DecoderModel, Seq<char>>(
                    self@.decoder,
                ),
            decreases rows@.len() - i,
        {
            assert(data[i as int] == rows@[i as int]@);
            match self.decoder.feed(rows[i].as_slice()) {
                Ok(()) => {},
                Err(e) => {
                    proof {
                        lemma_fed_error_stays(p.decoder, data, (i + 1) as nat, data.len());
                        assert(fed_rows(p.decoder, data, i as nat) == Ok::<
                            DecoderModel,
                            Seq<char>,
                        >(self@.decoder));
                        assert(fed_rows(p.decoder, data, i as nat + 1) is Err);
                        assert(stops_at(p.decoder, data, self@.decoder));
                    }
                    return Err(e);
                },
            }
            i = i + 1;
        }
        if self.decoder.has_incomplete() {
            let notice = Notice::warning(
                "nabla worker: discarding an incomplete trailing transaction; it will be re-read".to_string(),
            );
            push_notice(&mut self.log, notice);
            self.decoder.discard_incomplete();
        }
        let ghost complete = self@.decoder.complete;
        let transactions = self.decoder.take_complete();
        let mut ends: Vec<u64> = Vec::new();
        let mut t: usize = 0;
        while t < transactions.len()
            invariant
                t <= transactions@.len(),
                ends@.len() == t,
                forall|j: int| 0 <= j < t ==> ends@[j] == transactions@[j].end_lsn,
            decreases transactions@.len() - t,
        {
            ends.push(transactions[t].end_lsn);
            t = t + 1;
        }
        assert(ends@ =~= ends_of(complete));
        self.ends = ends;
        if transactions.len() > 0 {
            return Ok(Next::Apply { transactions });
        }
        Ok(self.wind())
    }

    /// The transactions were applied.
    pub fn applied(&mut self, stats: &RoundStats) -> (result: Next)
        requires
            match stats.blocked_at {
                Some(k) => k <= old(self)@.ends.len(),
                None => 1 <= stats.processed <= old(self)@.ends.len(),
            },
        ensures
            (final(self)@, result@) == after_apply(
                old(self)@,
                stats.processed as nat,
                stats.blocked_at,
            ),
    {
        match stats.blocked_at {
            Some(k) => if k > 0 {
                Next::Advance { statement: advance_slot(self.ends[k - 1]), blocked: true }
            } else {
                Next::Done { outcome: Outcome::Idle, window: None }
            },
            None => {
                // One slot advance per round, to the end of the last applied transaction.
                self.last_end = later_of(self.last_end, self.ends[stats.processed - 1]);
                Next::Advance { statement: advance_slot(self.last_end), blocked: false }
            },
        }
    }

    /// The slot was advanced.
    pub fn advanced(&self, blocked: bool) -> (result: Next)
        ensures
            result@ == if blocked {
                idle()
            } else {
                wind_down(self@)
            },
    {
        if blocked {
            Next::Done { outcome: Outcome::Idle, window: None }
        } else {
            self.wind()
        }
    }

    /// Live objects and the slot were advanced.
    pub fn idle_advanced(&self) -> (result: Next)
        ensures
            result@ == (NextModel::FlushAgain { query: flush_query() }),
    {
        Next::FlushAgain { query: flush_statement() }
    }

    /// The flush point after the idle advance.
    pub fn flushed_again(&mut self, flush: Option<String>) -> (result: Next)
        ensures
            (final(self)@, result@) == after_idle_advance(old(self)@, view_of_option(flush)),
    {
        self.self_flush = match flush {
            Some(text) => match lsn::parse(&text) {
                Some(at) => at,
                None => 0,
            },
            None => 0,
        };
        let frontier = later_of(self.target, self.last_end);
        self.last_advance = frontier;
        Next::Done { outcome: Outcome::Idle, window: Some((frontier, frontier)) }
    }

    /// The poll failed: what was decoded is dropped and read again.
    pub fn failed(&mut self)
        ensures
            final(self)@ == (PollModel {
                decoder: DecoderModel {
                    relations: Map::empty(),
                    current: None,
                    complete: Seq::empty(),
                },
                log: Seq::empty(),
                ..old(self)@
            }),
    {
        self.decoder = Decoder::default();
        self.log = Vec::new();
        assert(self@.log =~= Seq::empty());
    }
}

proof fn lemma_fed_error_stays(decoder: DecoderModel, rows: Seq<Seq<u8>>, n: nat, m: nat)
    requires
        n <= m,
        fed_rows(decoder, rows, n) is Err,
    ensures
        fed_rows(decoder, rows, m) == fed_rows(decoder, rows, n),
    decreases m - n,
{
    if n < m {
        lemma_fed_error_stays(decoder, rows, n, (m - 1) as nat);
    }
}

// --- laws ------------------------------------------------------------------------------

/// Where an applied round takes the slot.
pub open spec fn slot_target(p: PollModel, processed: nat, blocked_at: Option<usize>) -> u64 {
    match blocked_at {
        Some(k) => p.ends[k - 1],
        None => later(p.last_end, p.ends[processed - 1]),
    }
}

/// The slot is never taken past a live view: where a round is done, the slot
/// goes to a point that every view the catalog has as live has reached, or
/// stays where it was. A round that is blocked at its first transaction leaves
/// the slot alone.
pub proof fn law_slot_stays_behind_live_views(p: PollModel, m: RoundModel)
    requires
        p.ends == ends_of(m.txs),
        m.txs.len() > 0,
        sound(m),
        m.position >= m.units.len(),
    ensures
        ({
            let to = slot_target(p, m.processed, m.blocked_at);
            let (after, next) = after_apply(p, m.processed, m.blocked_at);
            if m.blocked_at == Some(0usize) {
                next == idle()
            } else {
                &&& next == (NextModel::Advance {
                    statement: advance_statement(to),
                    blocked: m.blocked_at is Some,
                })
                &&& forall|i: int|
                    0 <= i < m.views.len() && is_live(#[trigger] m.views[i]) ==> to
                        <= m.views[i].frontier || to == p.last_end
            }
        }),
{
    if m.blocked_at != Some(0usize) {
        let to = slot_target(p, m.processed, m.blocked_at);
        let t = match m.blocked_at {
            Some(k) => k - 1,
            None => m.txs.len() - 1,
        };
        assert(p.ends[t] == m.txs[t].end_lsn);
        assert forall|i: int| 0 <= i < m.views.len() && is_live(#[trigger] m.views[i]) implies to
            <= m.views[i].frontier || to == p.last_end by {
            assert(view_sound(m, i));
            assert(covers(m.views[i], m.txs[t]));
        }
    }
}

/// A blocked round is followed by nothing that would take a view's frontier
/// past the transaction that it has to retry: the poll is over once the slot
/// was advanced, and the next one decodes that transaction again.
pub proof fn law_blocked_rounds_end_the_poll(p: PollModel, processed: nat, k: usize)
    requires
        k < p.ends.len(),
        forall|i: int, j: int| 0 <= i < j < p.ends.len() ==> p.ends[i] < p.ends[j],
    ensures
        ({
            let (after, next) = after_apply(p, processed, Some(k));
            &&& after == p
            &&& next == idle() || (next matches NextModel::Advance { statement, blocked } && blocked
                && statement == advance_statement(p.ends[k - 1]) && p.ends[k - 1] < p.ends[k as int])
        }),
{
}

/// An idle window is published only up to a point in front of which nothing is
/// left to decode, and it begins where every live object was advanced to.
pub proof fn law_windows_hold_no_change(p: PollModel, rows: Seq<Seq<u8>>, batch_changes: i32)
    ensures
        match after_peek(p, rows, batch_changes) {
            Ok((after, NextModel::Done { outcome, window: Some(window) })) => rows.len() == 0
                && p.target == p.self_flush && window == (p.last_advance, p.target),
            _ => true,
        },
{
}

/// A slot that lags further than allowed is dropped, and every live view is told that it is
/// stale before that; one within the limit is polled up to the flush point, from the
/// position it has. Without a slot there is nothing to do.
pub proof fn law_lagging_slots_are_given_up(
    p: PollModel,
    confirmed: Option<Seq<char>>,
    lag: Option<i64>,
    max_slot_lag_bytes: i32,
)
    ensures
        ({
            let (after, next) = after_slot(p, Some((confirmed, lag)), max_slot_lag_bytes);
            let there = confirmed is Some && lag is Some;
            &&& there && lag->0 > max_slot_lag_bytes <==> next is DropSlot
            &&& there && lag->0 <= max_slot_lag_bytes <==> next is Flush
            &&& !there ==> next == idle() && after == p
            &&& there ==> after == (PollModel {
                confirmed: after.confirmed,
                log: after.log,
                ..p
            })
            &&& there && lsn::parsed(confirmed->0) is Some ==> after.confirmed == lsn::parsed(
                confirmed->0,
            )->0
            &&& there && lsn::parsed(confirmed->0) is None ==> after.confirmed == 0
            &&& next matches NextModel::DropSlot { statements } ==> statements.len() == 2
                && statements[0].args.len() == 0 && statements[1].args == seq![
                ArgModel::Text(Some("nabla"@)),
            ] && after.log.len() == p.log.len() + 1
            &&& next is Flush ==> after.log == p.log
        }),
        after_slot(p, None, max_slot_lag_bytes) == (p, idle()),
{
}

/// Dropping a slot marks the live views stale, then drops it.
pub proof fn law_dropped_slots_make_views_stale()
    ensures
        drop_slot().len() == 2,
        has_part(drop_slot()[0].sql, "UPDATE nabla.views SET status = 'stale'"@),
        has_part(drop_slot()[0].sql, " WHERE status = 'live'"@),
        has_part(drop_slot()[1].sql, "pg_drop_replication_slot($1)"@),
{
    reveal_strlit("UPDATE nabla.views SET status = 'stale'");
    reveal_strlit(" WHERE status = 'live'");
    reveal_strlit("pg_drop_replication_slot($1)");
    reveal_strlit("SELECT pg_catalog.pg_drop_replication_slot($1)");
    reveal_strlit(
        "UPDATE nabla.views SET status = 'stale', stale_reason = 'replication slot lag exceeded nabla.max_slot_lag_bytes; slot dropped' WHERE status = 'live'",
    );
    let a = "UPDATE nabla.views SET status = 'stale', stale_reason = 'replication slot lag exceeded nabla.max_slot_lag_bytes; slot dropped' WHERE status = 'live'"@;
    let b = "SELECT pg_catalog.pg_drop_replication_slot($1)"@;
    assert(a.subrange(0, 39) =~= "UPDATE nabla.views SET status = 'stale'"@);
    text::lemma_part_at(a, "UPDATE nabla.views SET status = 'stale'"@, 0);
    let n = a.len() as int;
    assert(a.subrange(n - 22, n) =~= " WHERE status = 'live'"@);
    text::lemma_part_at(a, " WHERE status = 'live'"@, n - 22);
    let m = b.len() as int;
    assert(b.subrange(m - 28, m) =~= "pg_drop_replication_slot($1)"@);
    text::lemma_part_at(b, "pg_drop_replication_slot($1)"@, m - 28);
}

/// The slot is peeked exactly where the flush point is beyond its position, up to that
/// point and with the limit that was given, at least one.
pub proof fn law_peeks_go_up_to_the_flush_point(
    p: PollModel,
    flush: Option<Seq<char>>,
    batch_changes: i32,
)
    ensures
        ({
            let at = match flush {
                Some(text) => lsn::parsed(text),
                None => None,
            };
            match after_flush(p, flush, batch_changes) {
                Err(_) => at is None,
                Ok((after, query)) => {
                    &&& at is Some
                    &&& after == (PollModel { target: at->0, ..p })
                    &&& query is Some <==> at->0 > p.confirmed
                    &&& query matches Some(q) ==> q.args == seq![
                        ArgModel::Text(Some("nabla"@)),
                        ArgModel::Text(Some(lsn::formatted(at->0))),
                    ] && has_part(
                        q.sql,
                        signed_decimal(
                            if batch_changes < 1 {
                                1
                            } else {
                                batch_changes as int
                            },
                        ),
                    )
                },
            }
        }),
{
    let limit = signed_decimal(at_least_one(batch_changes) as int);
    let front = "SELECT data FROM pg_catalog.pg_logical_slot_peek_binary_changes($1, $2::pg_lsn, "@;
    let a = ", 'proto_version', '1', 'publication_names', '"@;
    text::lemma_part_of_itself(limit);
    text::lemma_part_right(front, limit, limit);
    text::lemma_part_left(front + limit, a, limit);
    text::lemma_part_left(front + limit + a, PUBLICATION@, limit);
    text::lemma_part_left(front + limit + a + PUBLICATION@, "')"@, limit);
}

/// Rows are fed one behind the other, none twice and none left out: to feed some rows and
/// then more is to feed them all.
pub proof fn law_rows_are_fed_in_order(decoder: DecoderModel, rows: Seq<Seq<u8>>, more: Seq<Seq<u8>>)
    ensures
        fed_rows(decoder, rows + more, (rows + more).len()) == match fed_rows(
            decoder,
            rows,
            rows.len(),
        ) {
            Ok(at) => fed_rows(at, more, more.len()),
            Err(e) => Err(e),
        },
        fed_rows(decoder, Seq::empty(), 0) == Ok::<DecoderModel, Seq<char>>(decoder),
        rows.len() == 1 ==> fed_rows(decoder, rows, 1) == pgoutput::fed(decoder, rows[0]),
{
    reveal_with_fuel(fed_rows, 2);
    lemma_fed_front(decoder, rows, more, rows.len());
    lemma_fed_back(decoder, rows, more, more.len());
}

proof fn lemma_fed_front(decoder: DecoderModel, rows: Seq<Seq<u8>>, more: Seq<Seq<u8>>, n: nat)
    requires
        n <= rows.len(),
    ensures
        fed_rows(decoder, rows + more, n) == fed_rows(decoder, rows, n),
    decreases n,
{
    if n > 0 {
        lemma_fed_front(decoder, rows, more, (n - 1) as nat);
        assert((rows + more)[n - 1] == rows[n - 1]);
    }
}

proof fn lemma_fed_back(decoder: DecoderModel, rows: Seq<Seq<u8>>, more: Seq<Seq<u8>>, n: nat)
    requires
        n <= more.len(),
    ensures
        fed_rows(decoder, rows + more, rows.len() + n) == match fed_rows(
            decoder,
            rows,
            rows.len(),
        ) {
            Ok(at) => fed_rows(at, more, n),
            Err(e) => Err(e),
        },
    decreases n,
{
    if n > 0 {
        lemma_fed_back(decoder, rows, more, (n - 1) as nat);
        assert((rows + more)[rows.len() + n - 1] == more[n - 1]);
    } else {
        lemma_fed_front(decoder, rows, more, rows.len());
    }
}

/// Every transaction that the peek completed is applied, in order, with its end noted; one
/// that it did not complete is dropped, to be read again. Where none is complete, live
/// objects go to the flush point if the peek was not cut off by its limit, and not before.
pub proof fn law_complete_transactions_are_applied(
    p: PollModel,
    rows: Seq<Seq<u8>>,
    batch_changes: i32,
)
    requires
        rows.len() > 0 || p.target != p.self_flush,
    ensures
        match (fed_rows(p.decoder, rows, rows.len()), after_peek(p, rows, batch_changes)) {
            (Err(e), result) => result == Err::<(PollModel, NextModel), Seq<char>>(e),
            (Ok(_), Err(_)) => false,
            (Ok(decoder), Ok((after, next))) => {
                &&& next is Apply <==> decoder.complete.len() > 0
                &&& next matches NextModel::Apply { transactions } ==> transactions
                    == decoder.complete
                &&& after.ends.len() == decoder.complete.len()
                &&& forall|i: int|
                    0 <= i < decoder.complete.len() ==> #[trigger] after.ends[i]
                        == decoder.complete[i].end_lsn
                &&& after.decoder.complete.len() == 0
                &&& after.decoder.current is None
                &&& after.decoder.relations == decoder.relations
                &&& after.last_end == p.confirmed
                &&& after.target == p.target
                &&& after.drained <==> rows.len() < batch_changes || (batch_changes < 1
                    && rows.len() == 0)
                &&& decoder.complete.len() == 0 ==> (next is IdleAdvance <==> after.drained)
                &&& decoder.complete.len() == 0 && !after.drained ==> next == (NextModel::Done {
                    outcome: Outcome::MoreWork,
                    window: None,
                })
                &&& after.log.len() == p.log.len() + (if decoder.current is Some {
                    1int
                } else {
                    0
                })
            },
        },
{
}

/// Where nothing is left in front of the flush point, live views and healthy shadows are
/// moved to it and the slot goes there too; else the poll has more work. The point is no
/// earlier than the flush point, nor than the end of what was applied.
pub proof fn law_idle_polls_move_everything(p: PollModel)
    ensures
        wind_down(p) is IdleAdvance <==> p.drained,
        !p.drained ==> wind_down(p) == (NextModel::Done {
            outcome: Outcome::MoreWork,
            window: None,
        }),
        wind_down(p) matches NextModel::IdleAdvance { statements } ==> exists|to: u64|
            #![trigger lsn::formatted(to)]
            to >= p.target && to >= p.last_end && (to == p.target || to == p.last_end)
                && statements.len() == 3 && statements[0].args == seq![
                ArgModel::Text(Some(lsn::formatted(to))),
            ] && statements[1].args == seq![ArgModel::Text(Some(lsn::formatted(to)))]
                && statements[2].args == seq![
                ArgModel::Text(Some("nabla"@)),
                ArgModel::Text(Some(lsn::formatted(to))),
            ],
{
    if p.drained {
        let to = later(p.target, p.last_end);
        let text = lsn::formatted(to);
        assert(idle_advance(to)[0].args =~= seq![ArgModel::Text(Some(lsn::formatted(to)))]);
        assert(idle_advance(to)[1].args =~= seq![ArgModel::Text(Some(lsn::formatted(to)))]);
    }
}

/// Only what is behind is moved by an idle advance: live views and healthy shadows.
pub proof fn law_idle_advances_only_go_forward(to: u64)
    ensures
        has_part(
            idle_advance(to)[0].sql,
            "UPDATE nabla.views SET frontier_lsn = $1::pg_lsn WHERE status = 'live'"@,
        ),
        has_part(
            idle_advance(to)[1].sql,
            "UPDATE nabla.shadows SET frontier_lsn = $1::pg_lsn WHERE NOT failed"@,
        ),
        has_part(idle_advance(to)[0].sql, " AND frontier_lsn < $1::pg_lsn"@),
        has_part(idle_advance(to)[1].sql, " AND frontier_lsn < $1::pg_lsn"@),
        has_part(advance_statement(to).sql, "GREATEST($2::pg_lsn, confirmed_flush_lsn)"@),
{
    lemma_idle_texts();
    lemma_advance_text();
}

proof fn lemma_idle_texts()
    ensures
        ({
            let a = "UPDATE nabla.views SET frontier_lsn = $1::pg_lsn WHERE status = 'live' AND frontier_lsn < $1::pg_lsn"@;
            let b = "UPDATE nabla.shadows SET frontier_lsn = $1::pg_lsn WHERE NOT failed AND frontier_lsn < $1::pg_lsn"@;
            let back = " AND frontier_lsn < $1::pg_lsn"@;
            &&& has_part(
                a,
                "UPDATE nabla.views SET frontier_lsn = $1::pg_lsn WHERE status = 'live'"@,
            )
            &&& has_part(
                b,
                "UPDATE nabla.shadows SET frontier_lsn = $1::pg_lsn WHERE NOT failed"@,
            )
            &&& has_part(a, back)
            &&& has_part(b, back)
        }),
{
    reveal_strlit(
        "UPDATE nabla.views SET frontier_lsn = $1::pg_lsn WHERE status = 'live' AND frontier_lsn < $1::pg_lsn",
    );
    reveal_strlit(
        "UPDATE nabla.shadows SET frontier_lsn = $1::pg_lsn WHERE NOT failed AND frontier_lsn < $1::pg_lsn",
    );
    reveal_strlit("UPDATE nabla.views SET frontier_lsn = $1::pg_lsn WHERE status = 'live'");
    reveal_strlit("UPDATE nabla.shadows SET frontier_lsn = $1::pg_lsn WHERE NOT failed");
    reveal_strlit(" AND frontier_lsn < $1::pg_lsn");
    let a = "UPDATE nabla.views SET frontier_lsn = $1::pg_lsn WHERE status = 'live' AND frontier_lsn < $1::pg_lsn"@;
    let b = "UPDATE nabla.shadows SET frontier_lsn = $1::pg_lsn WHERE NOT failed AND frontier_lsn < $1::pg_lsn"@;
    let x = "UPDATE nabla.views SET frontier_lsn = $1::pg_lsn WHERE status = 'live'"@;
    let y = "UPDATE nabla.shadows SET frontier_lsn = $1::pg_lsn WHERE NOT failed"@;
    let back = " AND frontier_lsn < $1::pg_lsn"@;
    assert(a =~= x + back);
    assert(b =~= y + back);
    text::lemma_part_of_itself(x);
    text::lemma_part_of_itself(y);
    text::lemma_part_of_itself(back);
    text::lemma_part_left(x, back, x);
    text::lemma_part_left(y, back, y);
    text::lemma_part_right(x, back, back);
    text::lemma_part_right(y, back, back);
}

proof fn lemma_advance_text()
    ensures
        has_part(
            "SELECT pg_catalog.pg_replication_slot_advance($1, GREATEST($2::pg_lsn, confirmed_flush_lsn)) FROM pg_catalog.pg_replication_slots WHERE slot_name = $1"@,
            "GREATEST($2::pg_lsn, confirmed_flush_lsn)"@,
        ),
{
    reveal_strlit(
        "SELECT pg_catalog.pg_replication_slot_advance($1, GREATEST($2::pg_lsn, confirmed_flush_lsn)) FROM pg_catalog.pg_replication_slots WHERE slot_name = $1",
    );
    reveal_strlit("GREATEST($2::pg_lsn, confirmed_flush_lsn)");
    let sql = "SELECT pg_catalog.pg_replication_slot_advance($1, GREATEST($2::pg_lsn, confirmed_flush_lsn)) FROM pg_catalog.pg_replication_slots WHERE slot_name = $1"@;
    let part = "GREATEST($2::pg_lsn, confirmed_flush_lsn)"@;
    assert(sql.subrange(50, 91) =~= part);
    text::lemma_part_at(sql, part, 50);
}

/// A round that was applied whole takes the slot to the end of its last transaction, and no
/// further back than it was; the poll notes that point.
pub proof fn law_applied_rounds_move_the_slot(p: PollModel, processed: nat, i: int)
    requires
        0 <= i < processed <= p.ends.len(),
        forall|a: int, b: int|
            0 <= a < b < p.ends.len() ==> #[trigger] p.ends[a] <= #[trigger] p.ends[b],
    ensures
        ({
            let (after, next) = after_apply(p, processed, None);
            &&& p.ends[i] <= after.last_end
            &&& p.last_end <= after.last_end
            &&& after.last_end == p.last_end || p.ends.contains(after.last_end)
            &&& after == (PollModel { last_end: after.last_end, ..p })
            &&& next == (NextModel::Advance {
                statement: advance_statement(after.last_end),
                blocked: false,
            })
            &&& advance_statement(after.last_end).args == seq![
                ArgModel::Text(Some("nabla"@)),
                ArgModel::Text(Some(lsn::formatted(after.last_end))),
            ]
        }),
{
    if i < processed - 1 {
        assert(p.ends[i] <= p.ends[processed - 1]);
    }
}

/// After an idle advance every live object is known to stand where it was moved to, and
/// that is published as an idle window; the flush point read then is the worker's own.
pub proof fn law_idle_advances_are_noted(p: PollModel, flush: Option<Seq<char>>)
    ensures
        ({
            let (after, next) = after_idle_advance(p, flush);
            &&& after.last_advance >= p.target
            &&& after.last_advance >= p.last_end
            &&& after.last_advance == p.target || after.last_advance == p.last_end
            &&& after.self_flush == match flush {
                Some(text) => match lsn::parsed(text) {
                    Some(at) => at,
                    None => 0,
                },
                None => 0,
            }
            &&& next == (NextModel::Done {
                outcome: Outcome::Idle,
                window: Some((after.last_advance, after.last_advance)),
            })
            &&& after == (PollModel {
                self_flush: after.self_flush,
                last_advance: after.last_advance,
                ..p
            })
        }),
{
}

/// A position that the server gives is taken as it was written. One that it does not give, or
/// that is none, counts as the beginning.
pub proof fn law_positions_are_taken_as_written(at: u64, text: Option<Seq<char>>)
    ensures
        lsn_or_zero(Some(lsn::formatted(at))) == at,
        lsn_or_zero(None) == 0,
        text matches Some(t) && !t.contains('/') ==> lsn_or_zero(text) == 0,
{
    lsn::law_parse_reads_what_format_writes(at);
    if let Some(t) = text {
        lsn::law_only_positions_are_read(at, at, t);
    }
}

} // verus!
