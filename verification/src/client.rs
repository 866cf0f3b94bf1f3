//! Following a view: the subscription protocol of a client.
//!
//! 1. Connect, read the canonical view name from `nabla.status(view)` and
//!    `LISTEN "nabla:<name>"`.
//! 2. Bootstrap atomically: in one `REPEATABLE READ` transaction read
//!    `nabla.status(view)`, `nabla.visible_columns(view)` and the view's rows,
//!    and emit [`Event::Snapshot`] whose `cursor` is the view's current
//!    sequence number and whose `epoch` every later `changes()` call carries.
//!    While the view is `initializing` or `refreshing` the client waits and
//!    retries; a `failed` view is an error carrying the recorded reason.
//! 3. Follow: on every notification, and on a fallback timer, call
//!    `nabla.changes(view, cursor, epoch, batch)` until it returns fewer rows
//!    than `batch` (the server never splits a transaction); consecutive rows
//!    sharing `(xid, lsn)` form one [`Event::Transaction`]; the cursor
//!    advances only after the event was handed to the caller.
//! 4. Resync: SQLSTATE `NB001` (lagged), `NB002` (stale) or `NB003` (epoch
//!    changed), or a lost connection, produce [`Event::Resync`] followed by a
//!    new bootstrap. No error message text is ever inspected.
//!
//! Buffers are bounded: at most one batch plus the trailing (possibly
//! incomplete) transaction is held, and notifications are coalesced.
use std::collections::VecDeque;

use vstd::prelude::*;

use crate::quote::{always_quoted, quote_ident};
use crate::text;
use crate::text::{first_of, joined, signed_decimal, trimmed, view_of_option, views};

verus! {

pub const SQLSTATE_LAGGED: &'static str = "NB001";

pub const SQLSTATE_STALE: &'static str = "NB002";

pub const SQLSTATE_EPOCH_CHANGED: &'static str = "NB003";

pub const SQLSTATE_FAILED: &'static str = "NB006";

#[derive(Debug)]
pub enum Error {
    /// An error of the server or of the connection, by its text.
    Postgres(String),
    /// The server violated the subscription protocol (for example a gap in
    /// sequence numbers). Not recoverable by resync.
    Protocol(String),
    NotConnected,
    /// The view's build or rebuild failed (status `failed`, NB006); not
    /// recoverable by resync.
    ViewFailed(String),
}

pub enum ErrorModel {
    Postgres(Seq<char>),
    Protocol(Seq<char>),
    NotConnected,
    ViewFailed(Seq<char>),
}

impl View for Error {
    type V = ErrorModel;

    open spec fn view(&self) -> ErrorModel {
        match self {
            Error::Postgres(e) => ErrorModel::Postgres(e@),
            Error::Protocol(m) => ErrorModel::Protocol(m@),
            Error::NotConnected => ErrorModel::NotConnected,
            Error::ViewFailed(r) => ErrorModel::ViewFailed(r@),
        }
    }
}

impl Error {
    /// The error in words.
    pub fn message(&self) -> (result: String)
        ensures
            result@ == match self@ {
                ErrorModel::Postgres(e) => "postgres: "@ + e,
                ErrorModel::Protocol(m) => "protocol violation: "@ + m,
                ErrorModel::NotConnected => "not connected"@,
                ErrorModel::ViewFailed(r) => "view failed to build: "@ + r,
            },
    {
        match self {
            Error::Postgres(e) => "postgres: ".to_string().concat(e),
            Error::Protocol(m) => "protocol violation: ".to_string().concat(m),
            Error::NotConnected => "not connected".to_string(),
            Error::ViewFailed(r) => "view failed to build: ".to_string().concat(r),
        }
    }
}

#[derive(Debug, Clone, Copy, PartialEq, Eq, Structural)]
pub enum Op {
    Insert,
    Delete,
}

#[derive(Debug)]
pub struct Delta {
    pub seq: i64,
    pub op: Op,
    pub row: serde_json::Value,
}

impl Clone for Delta {
    fn clone(&self) -> (result: Self)
        ensures
            result == *self,
    {
        Delta { seq: self.seq, op: self.op, row: self.row.clone() }
    }
}

#[derive(Debug)]
pub enum ResyncReason {
    /// The cursor fell behind `nabla.retain_deltas` (NB001).
    Lagged,
    /// The view was refreshed (NB003).
    EpochChanged { from: i32, to: i32 },
    /// The view is no longer maintained (NB002); bootstrap retries with backoff.
    Stale { reason: String },
    /// The connection was lost and re-established.
    Disconnected,
}

pub enum ReasonModel {
    Lagged,
    EpochChanged { from: i32, to: i32 },
    Stale { reason: Seq<char> },
    Disconnected,
}

impl View for ResyncReason {
    type V = ReasonModel;

    open spec fn view(&self) -> ReasonModel {
        match self {
            ResyncReason::Lagged => ReasonModel::Lagged,
            ResyncReason::EpochChanged { from, to } => ReasonModel::EpochChanged {
                from: *from,
                to: *to,
            },
            ResyncReason::Stale { reason } => ReasonModel::Stale { reason: reason@ },
            ResyncReason::Disconnected => ReasonModel::Disconnected,
        }
    }
}

impl Clone for ResyncReason {
    fn clone(&self) -> (result: Self)
        ensures
            result == *self,
    {
        match self {
            ResyncReason::Lagged => ResyncReason::Lagged,
            ResyncReason::EpochChanged { from, to } => ResyncReason::EpochChanged {
                from: *from,
                to: *to,
            },
            ResyncReason::Stale { reason } => ResyncReason::Stale { reason: reason.clone() },
            ResyncReason::Disconnected => ResyncReason::Disconnected,
        }
    }
}

impl ResyncReason {
    /// The reason in words.
    pub fn message(&self) -> (result: String)
        ensures
            result@ == match self@ {
                ReasonModel::Lagged => "lagged"@,
                ReasonModel::EpochChanged { from, to } => "epoch changed ("@ + signed_decimal(
                    from as int,
                ) + " -> "@ + signed_decimal(to as int) + ")"@,
                ReasonModel::Stale { reason } => "stale: "@ + reason,
                ReasonModel::Disconnected => "disconnected"@,
            },
    {
        match self {
            ResyncReason::Lagged => "lagged".to_string(),
            ResyncReason::EpochChanged { from, to } => "epoch changed (".to_string().concat(
                &text::signed_text(*from as i64),
            ).concat(" -> ").concat(&text::signed_text(*to as i64)).concat(")"),
            ResyncReason::Stale { reason } => "stale: ".to_string().concat(reason),
            ResyncReason::Disconnected => "disconnected".to_string(),
        }
    }
}

#[derive(Debug)]
#[allow(inconsistent_fields)]
pub enum Event {
    Snapshot { epoch: i32, frontier: String, cursor: i64, rows: Vec<serde_json::Value> },
    Transaction { xid: Option<i64>, lsn: String, epoch: i32, deltas: Vec<Delta> },
    Resync { reason: ResyncReason },
}

#[allow(inconsistent_fields)]
pub enum EventModel {
    Snapshot { epoch: i32, frontier: Seq<char>, cursor: i64, rows: Seq<serde_json::Value> },
    Transaction { xid: Option<i64>, lsn: Seq<char>, epoch: i32, deltas: Seq<Delta> },
    Resync { reason: ReasonModel },
}

impl View for Event {
    type V = EventModel;

    open spec fn view(&self) -> EventModel {
        match self {
            Event::Snapshot { epoch, frontier, cursor, rows } => EventModel::Snapshot {
                epoch: *epoch,
                frontier: frontier@,
                cursor: *cursor,
                rows: rows@,
            },
            Event::Transaction { xid, lsn, epoch, deltas } => EventModel::Transaction {
                xid: *xid,
                lsn: lsn@,
                epoch: *epoch,
                deltas: deltas@,
            },
            Event::Resync { reason } => EventModel::Resync { reason: reason@ },
        }
    }
}

impl Clone for Event {
    fn clone(&self) -> (result: Self)
        ensures
            result@ == self@,
    {
        match self {
            Event::Snapshot { epoch, frontier, cursor, rows } => {
                let copies = rows.clone();
                assert(copies@ =~= rows@);
                Event::Snapshot {
                    epoch: *epoch,
                    frontier: frontier.clone(),
                    cursor: *cursor,
                    rows: copies,
                }
            },
            Event::Transaction { xid, lsn, epoch, deltas } => {
                let copies = deltas.clone();
                assert(copies@ =~= deltas@);
                Event::Transaction {
                    xid: *xid,
                    lsn: lsn.clone(),
                    epoch: *epoch,
                    deltas: copies,
                }
            },
            Event::Resync { reason } => Event::Resync { reason: reason.clone() },
        }
    }
}

/// How a subscription behaves. Times are in nanoseconds, so that every
/// `std::time::Duration` can be written.
#[derive(Debug, Clone, Copy, PartialEq, Eq, Structural)]
pub struct Options {
    /// Rows per `nabla.changes` call (a trailing transaction may exceed it).
    pub batch: i32,
    /// Fallback poll when no notification arrives.
    pub poll_interval: u128,
    /// Include the `_nabla_*` maintenance columns in snapshot rows and deltas.
    pub keep_hidden: bool,
    /// Longest wait between bootstrap attempts on a stale view.
    pub max_backoff: u128,
    /// Wait between bootstrap attempts while the view is being built.
    pub build_poll: u128,
}

impl Default for Options {
    fn default() -> (result: Self)
        ensures
            result == (Options {
                batch: 1000,
                poll_interval: 1_000_000_000,
                keep_hidden: false,
                max_backoff: 30_000_000_000,
                build_poll: 200_000_000,
            }),
    {
        Options {
            batch: 1000,
            poll_interval: 1_000_000_000,
            keep_hidden: false,
            max_backoff: 30_000_000_000,
            build_poll: 200_000_000,
        }
    }
}

/// A row of `nabla.changes`, as the server sends it.
pub struct RawChange {
    pub seq: i64,
    pub lsn: String,
    pub xid: Option<i64>,
    pub op: String,
    pub row: serde_json::Value,
}

pub struct RawModel {
    pub seq: i64,
    pub lsn: Seq<char>,
    pub xid: Option<i64>,
    pub op: Seq<char>,
    pub row: serde_json::Value,
}

impl View for RawChange {
    type V = RawModel;

    open spec fn view(&self) -> RawModel {
        RawModel {
            seq: self.seq,
            lsn: self.lsn@,
            xid: self.xid,
            op: self.op@,
            row: self.row,
        }
    }
}

pub struct ChangeRow {
    pub seq: i64,
    pub lsn: String,
    pub xid: Option<i64>,
    pub op: Op,
    pub row: serde_json::Value,
}

pub struct ChangeModel {
    pub seq: i64,
    pub lsn: Seq<char>,
    pub xid: Option<i64>,
    pub op: Op,
    pub row: serde_json::Value,
}

impl View for ChangeRow {
    type V = ChangeModel;

    open spec fn view(&self) -> ChangeModel {
        ChangeModel {
            seq: self.seq,
            lsn: self.lsn@,
            xid: self.xid,
            op: self.op,
            row: self.row,
        }
    }
}

#[derive(Debug, Clone, Copy, PartialEq, Eq, Structural)]
pub enum State {
    NeedBootstrap,
    Following,
}

#[allow(inconsistent_fields)]
pub enum Failure {
    Lagged,
    Stale(String),
    EpochChanged { from: i32, to: i32 },
    Disconnected,
    Other(Error),
}

#[allow(inconsistent_fields)]
pub enum FailureModel {
    Lagged,
    Stale(Seq<char>),
    EpochChanged { from: i32, to: i32 },
    Disconnected,
    Other(ErrorModel),
}

impl View for Failure {
    type V = FailureModel;

    open spec fn view(&self) -> FailureModel {
        match self {
            Failure::Lagged => FailureModel::Lagged,
            Failure::Stale(reason) => FailureModel::Stale(reason@),
            Failure::EpochChanged { from, to } => FailureModel::EpochChanged {
                from: *from,
                to: *to,
            },
            Failure::Disconnected => FailureModel::Disconnected,
            Failure::Other(e) => FailureModel::Other(e@),
        }
    }
}

// --- names ---------------------------------------------------------------------------------

/// A view's name, quoted part by part.
pub open spec fn quoted_view(view: Seq<char>) -> Seq<char> {
    match first_of(view, '.') {
        Some(dot) => always_quoted(view.take(dot)) + "."@ + always_quoted(view.skip(dot + 1)),
        None => always_quoted(view),
    }
}

pub fn quote_view(view: &str) -> (result: String)
    ensures
        result@ == quoted_view(view@),
{
    let chars = text::chars_of(view);
    let n: usize = chars.len();
    assert(chars@.subrange(0, n as int) =~= view@);
    match text::find_char(&chars, 0, n, '.') {
        Some(dot) => {
            assert(chars@.subrange(0, dot as int) =~= view@.take(dot as int));
            assert(chars@.subrange(dot + 1, n as int) =~= view@.skip(dot + 1));
            let schema = text::string_of(&chars, 0, dot);
            let name = text::string_of(&chars, dot + 1, n);
            quote_ident(&schema).concat(".").concat(&quote_ident(&name))
        },
        None => quote_ident(view),
    }
}

// --- errors --------------------------------------------------------------------------------

/// What went wrong with a query: a server-reported error, or a transport problem.
pub enum QueryError {
    Server { code: String, detail: Option<String>, text: String },
    Transport,
}

pub open spec fn detail_or_default(detail: Option<Seq<char>>) -> Seq<char> {
    match detail {
        Some(d) => d,
        None => "reason not recorded"@,
    }
}

/// The text behind the last space, or all of it.
pub open spec fn last_word(text: Seq<char>) -> Seq<char> {
    match text::split_at_last(text, ' ') {
        Some((front, back)) => back,
        None => text,
    }
}

/// The epoch that a detail of the form "epoch N -> M" leads to.
pub open spec fn new_epoch(detail: Option<Seq<char>>, epoch: i32) -> i32 {
    match detail {
        Some(d) => match text::signed_value(last_word(d)) {
            Some(n) if i32::MIN <= n <= i32::MAX => n as i32,
            _ => epoch,
        },
        None => epoch,
    }
}

/// The class of an error, by SQLSTATE only.
pub open spec fn classified(e: QueryError, epoch: i32) -> FailureModel {
    match e {
        QueryError::Transport => FailureModel::Disconnected,
        QueryError::Server { code, detail, text } => if code@ == SQLSTATE_LAGGED@ {
            FailureModel::Lagged
        } else if code@ == SQLSTATE_STALE@ {
            FailureModel::Stale(detail_or_default(view_of_option(detail)))
        } else if code@ == SQLSTATE_EPOCH_CHANGED@ {
            FailureModel::EpochChanged {
                from: epoch,
                to: new_epoch(view_of_option(detail), epoch),
            }
        } else if code@ == SQLSTATE_FAILED@ {
            FailureModel::Other(
                ErrorModel::ViewFailed(detail_or_default(view_of_option(detail))),
            )
        } else {
            FailureModel::Other(ErrorModel::Postgres(text@))
        },
    }
}

fn detail_text(detail: Option<String>) -> (result: String)
    ensures
        result@ == detail_or_default(view_of_option(detail)),
{
    match detail {
        Some(d) => d,
        None => "reason not recorded".to_string(),
    }
}

fn epoch_of(detail: &Option<String>, epoch: i32) -> (result: i32)
    ensures
        result == new_epoch(view_of_option(*detail), epoch),
{
    match detail {
        None => epoch,
        Some(d) => {
            let word = match text::split_last(d, ' ') {
                Some(parts) => parts.1,
                None => d.clone(),
            };
            match text::signed_number(&word) {
                Some(n) => if i32::MIN as i64 <= n && n <= i32::MAX as i64 {
                    n as i32
                } else {
                    epoch
                },
                None => epoch,
            }
        },
    }
}

/// Classify a server error by SQLSTATE only. Anything that is not a
/// server-reported error is a transport problem.
pub fn classify(e: QueryError, epoch: i32) -> (result: Failure)
    ensures
        result@ == classified(e, epoch),
{
    match e {
        QueryError::Transport => Failure::Disconnected,
        QueryError::Server { code, detail, text } => {
            if text::same(&code, SQLSTATE_LAGGED) {
                Failure::Lagged
            } else if text::same(&code, SQLSTATE_STALE) {
                Failure::Stale(detail_text(detail))
            } else if text::same(&code, SQLSTATE_EPOCH_CHANGED) {
                Failure::EpochChanged { from: epoch, to: epoch_of(&detail, epoch) }
            } else if text::same(&code, SQLSTATE_FAILED) {
                Failure::Other(Error::ViewFailed(detail_text(detail)))
            } else {
                Failure::Other(Error::Postgres(text))
            }
        },
    }
}

// --- waiting -------------------------------------------------------------------------------

/// A delay doubled, up to a longest one.
pub open spec fn doubled_up_to(delay: u128, longest: u128) -> u128 {
    if 2 * delay <= longest {
        (2 * delay) as u128
    } else {
        longest
    }
}

pub fn double_up_to(delay: u128, longest: u128) -> (result: u128)
    ensures
        result == doubled_up_to(delay, longest),
{
    if delay <= longest / 2 {
        delay * 2
    } else {
        longest
    }
}

/// The first wait between attempts to reconnect.
pub const RECONNECT_DELAY: u128 = 500_000_000;

/// The next wait between attempts to reconnect: twice as long, up to 5 s.
pub fn next_reconnect_delay(delay: u128) -> (result: u128)
    ensures
        result == doubled_up_to(delay, 5_000_000_000),
{
    double_up_to(delay, 5_000_000_000)
}

/// A timeout as the server takes it: whole milliseconds, as many as it can.
pub open spec fn whole_ms(timeout: u128) -> int {
    let ms = timeout as int / 1_000_000;
    if ms <= i32::MAX {
        ms
    } else {
        i32::MAX as int
    }
}

pub fn timeout_ms(timeout: u128) -> (result: i32)
    ensures
        result == whole_ms(timeout),
{
    let ms: u128 = timeout / 1_000_000;
    if ms <= i32::MAX as u128 {
        ms as i32
    } else {
        i32::MAX
    }
}

// --- the subscription ------------------------------------------------------------------------

/// A subscription, as far as it does not depend on the connection itself.
pub struct Subscription {
    /// Canonical view name as stored by nabla (`nabla.status(...).name`).
    pub view: String,
    pub options: Options,
    pub connected: bool,
    pub state: State,
    pub epoch: i32,
    pub cursor: i64,
    /// Events ready to hand out, with the cursor to adopt once handed out.
    pub pending: VecDeque<(Event, Option<i64>)>,
    /// Rows of a transaction that may continue in the next batch.
    pub tail: Vec<ChangeRow>,
    /// The wait before the next bootstrap attempt on a stale view.
    pub stale_backoff: u128,
}

pub struct SubscriptionModel {
    pub view: Seq<char>,
    pub options: Options,
    pub connected: bool,
    pub state: State,
    pub epoch: i32,
    pub cursor: i64,
    pub pending: Seq<(EventModel, Option<i64>)>,
    pub tail: Seq<ChangeModel>,
    pub stale_backoff: u128,
}

pub open spec fn pending_models(pending: Seq<(Event, Option<i64>)>) -> Seq<
    (EventModel, Option<i64>),
> {
    pending.map_values(|p: (Event, Option<i64>)| (p.0@, p.1))
}

impl Subscription {
    pub open spec fn model(&self) -> SubscriptionModel {
        SubscriptionModel {
            view: self.view@,
            options: self.options,
            connected: self.connected,
            state: self.state,
            epoch: self.epoch,
            cursor: self.cursor,
            pending: pending_models(self.pending@),
            tail: views(self.tail@),
            stale_backoff: self.stale_backoff,
        }
    }
}

/// The first wait before another bootstrap attempt on a stale view.
pub const STALE_BACKOFF: u128 = 1_000_000_000;

/// A subscription before its first connection.
pub open spec fn opened(view: Seq<char>, options: Options) -> SubscriptionModel {
    SubscriptionModel {
        view: trimmed(view),
        options,
        connected: false,
        state: State::NeedBootstrap,
        epoch: 0,
        cursor: 0,
        pending: Seq::empty(),
        tail: Seq::empty(),
        stale_backoff: STALE_BACKOFF,
    }
}

pub open spec fn with_event(m: SubscriptionModel, event: EventModel, cursor: Option<i64>) ->
    SubscriptionModel {
    SubscriptionModel { pending: m.pending.push((event, cursor)), ..m }
}

/// What the subscription does next.
pub enum Action {
    /// Hand the event out.
    Yield(Event),
    Reconnect,
    Bootstrap,
    /// Fetch the changes behind `after`, where `wait` is set only once a
    /// notification or the fallback timer came.
    Follow { wait: bool, after: i64 },
}

pub enum ActionModel {
    Yield(EventModel),
    Reconnect,
    Bootstrap,
    Follow { wait: bool, after: i64 },
}

impl View for Action {
    type V = ActionModel;

    open spec fn view(&self) -> ActionModel {
        match self {
            Action::Yield(event) => ActionModel::Yield(event@),
            Action::Reconnect => ActionModel::Reconnect,
            Action::Bootstrap => ActionModel::Bootstrap,
            Action::Follow { wait, after } => ActionModel::Follow { wait: *wait, after: *after },
        }
    }
}

/// The last sequence number that the subscription has.
pub open spec fn known_seq(m: SubscriptionModel) -> i64 {
    if m.tail.len() > 0 {
        m.tail.last().seq
    } else {
        m.cursor
    }
}

/// What a subscription does next: events that are ready are handed out first,
/// and only then is their cursor adopted.
pub open spec fn next_action(m: SubscriptionModel) -> (SubscriptionModel, ActionModel) {
    if m.pending.len() > 0 {
        let (event, cursor) = m.pending[0];
        (
            SubscriptionModel {
                pending: m.pending.drop_first(),
                cursor: match cursor {
                    Some(c) => c,
                    None => m.cursor,
                },
                ..m
            },
            ActionModel::Yield(event),
        )
    } else if !m.connected {
        (m, ActionModel::Reconnect)
    } else {
        match m.state {
            State::NeedBootstrap => (m, ActionModel::Bootstrap),
            State::Following => (
                m,
                ActionModel::Follow { wait: m.tail.len() == 0, after: known_seq(m) },
            ),
        }
    }
}

/// A connection was made; the server's name for the view is adopted.
pub open spec fn connected(m: SubscriptionModel, name: Seq<char>) -> SubscriptionModel {
    SubscriptionModel {
        view: name,
        connected: true,
        state: State::NeedBootstrap,
        tail: Seq::empty(),
        ..m
    }
}

/// A lost connection was made again.
pub open spec fn reconnected(m: SubscriptionModel, name: Seq<char>) -> SubscriptionModel {
    with_event(
        connected(m, name),
        EventModel::Resync { reason: ReasonModel::Disconnected },
        None,
    )
}

/// The subscription begins anew with a bootstrap.
pub open spec fn resynced(m: SubscriptionModel, reason: ReasonModel) -> SubscriptionModel {
    SubscriptionModel {
        tail: Seq::empty(),
        state: State::NeedBootstrap,
        ..with_event(m, EventModel::Resync { reason }, None)
    }
}

/// Outcome of a bootstrap attempt, by the view's status.
pub enum Boot {
    Ready,
    /// The view is being built or rebuilt: try again shortly, silently.
    Building,
    Stale(String),
    Failed(String),
}

pub enum BootModel {
    Ready,
    Building,
    Stale(Seq<char>),
    Failed(Seq<char>),
}

impl View for Boot {
    type V = BootModel;

    open spec fn view(&self) -> BootModel {
        match self {
            Boot::Ready => BootModel::Ready,
            Boot::Building => BootModel::Building,
            Boot::Stale(r) => BootModel::Stale(r@),
            Boot::Failed(r) => BootModel::Failed(r@),
        }
    }
}

pub open spec fn booted(status: Seq<char>, reason: Option<Seq<char>>) -> BootModel {
    if status == "initializing"@ || status == "refreshing"@ {
        BootModel::Building
    } else if status == "failed"@ {
        BootModel::Failed(detail_or_default(reason))
    } else if status == "stale"@ {
        BootModel::Stale(detail_or_default(reason))
    } else {
        BootModel::Ready
    }
}

/// Whether a view can be read, by its status.
pub fn boot(status: &str, reason: Option<String>) -> (result: Boot)
    ensures
        result@ == booted(status@, view_of_option(reason)),
{
    if text::same(status, "initializing") || text::same(status, "refreshing") {
        Boot::Building
    } else if text::same(status, "failed") {
        Boot::Failed(detail_text(reason))
    } else if text::same(status, "stale") {
        Boot::Stale(detail_text(reason))
    } else {
        Boot::Ready
    }
}

/// The query for the rows of a view: all columns, or the visible ones.
pub open spec fn rows_sql(view: Seq<char>, columns: Option<Seq<Seq<char>>>) -> Seq<char> {
    match columns {
        None => "SELECT to_jsonb(v) FROM "@ + quoted_view(view) + " AS v"@,
        Some(names) => "SELECT to_jsonb(v) FROM (SELECT "@ + joined(
            names.map_values(|c: Seq<char>| always_quoted(c)),
            ", "@,
        ) + " FROM "@ + quoted_view(view) + ") AS v"@,
    }
}

/// The content of a view was read.
pub open spec fn snapshot_taken(
    m: SubscriptionModel,
    epoch: i32,
    frontier: Seq<char>,
    cursor: i64,
    rows: Seq<serde_json::Value>,
) -> SubscriptionModel {
    SubscriptionModel {
        epoch,
        cursor,
        stale_backoff: STALE_BACKOFF,
        state: State::Following,
        tail: Seq::empty(),
        ..with_event(m, EventModel::Snapshot { epoch, frontier, cursor, rows }, Some(cursor))
    }
}

/// The view turned out stale at a bootstrap attempt.
pub open spec fn found_stale(m: SubscriptionModel, reason: Seq<char>) -> SubscriptionModel {
    SubscriptionModel {
        stale_backoff: doubled_up_to(m.stale_backoff, m.options.max_backoff),
        ..with_event(m, EventModel::Resync { reason: ReasonModel::Stale { reason } }, None)
    }
}

/// What a failed bootstrap leads to.
pub open spec fn boot_failure(m: SubscriptionModel, failure: FailureModel) -> Result<
    SubscriptionModel,
    ErrorModel,
> {
    match failure {
        FailureModel::Disconnected => Ok(SubscriptionModel { connected: false, ..m }),
        FailureModel::Other(e) => Err(e),
        _ => Ok(m),
    }
}

/// What a failed fetch leads to.
pub open spec fn fetch_failure(m: SubscriptionModel, failure: FailureModel) -> Result<
    SubscriptionModel,
    ErrorModel,
> {
    match failure {
        FailureModel::Lagged => Ok(resynced(m, ReasonModel::Lagged)),
        FailureModel::Stale(reason) => Ok(resynced(m, ReasonModel::Stale { reason })),
        FailureModel::EpochChanged { from, to } => Ok(
            resynced(m, ReasonModel::EpochChanged { from, to }),
        ),
        FailureModel::Disconnected => Ok(
            SubscriptionModel { tail: Seq::empty(), connected: false, ..m },
        ),
        FailureModel::Other(e) => Err(e),
    }
}

// --- batches -----------------------------------------------------------------------------------

/// What `{:?}` makes of a text.
pub uninterp spec fn debugged(text: Seq<char>) -> Seq<char>;

/// std's `Debug` of a `str`: a function of the text alone, named `debugged`.
#[verifier::external_body]
fn debug_text(text: &str) -> (result: String)
    ensures
        result@ == debugged(text@),
{
    format!("{:?}", text)
}

pub open spec fn op_of(op: Seq<char>) -> Option<Op> {
    if op == "I"@ {
        Some(Op::Insert)
    } else if op == "D"@ {
        Some(Op::Delete)
    } else {
        None
    }
}

pub open spec fn gap_error(expected: int, seq: i64) -> ErrorModel {
    ErrorModel::Protocol(
        "expected seq "@ + signed_decimal(expected) + ", got "@ + signed_decimal(seq as int)
            + ": deltas of a view must be contiguous"@,
    )
}

/// The first `n` rows behind `after`: their numbers have no gap and their
/// operations are known.
pub open spec fn checked_rows(rows: Seq<RawModel>, after: i64, n: nat) -> Result<
    Seq<ChangeModel>,
    ErrorModel,
>
    decreases n,
{
    if n == 0 {
        Ok(Seq::empty())
    } else {
        let r = rows[n - 1];
        match checked_rows(rows, after, (n - 1) as nat) {
            Err(e) => Err(e),
            Ok(before) => if r.seq != after + n {
                Err(gap_error(after + n, r.seq))
            } else {
                match op_of(r.op) {
                    None => Err(ErrorModel::Protocol("unknown op "@ + debugged(r.op))),
                    Some(op) => Ok(
                        before.push(
                            ChangeModel { seq: r.seq, lsn: r.lsn, xid: r.xid, op, row: r.row },
                        ),
                    ),
                }
            },
        }
    }
}

/// Whether two rows belong to one transaction.
pub open spec fn same_transaction(a: ChangeModel, b: ChangeModel) -> bool {
    a.xid == b.xid && a.lsn == b.lsn
}

/// The first `n` rows in groups of consecutive rows of one transaction; the
/// same xid with another lsn is another transaction.
pub open spec fn grouped(rows: Seq<ChangeModel>, n: nat) -> Seq<Seq<ChangeModel>>
    decreases n,
{
    if n == 0 {
        Seq::empty()
    } else {
        let before = grouped(rows, (n - 1) as nat);
        let row = rows[n - 1];
        if before.len() > 0 && same_transaction(before.last()[0], row) {
            before.update(before.len() - 1, before.last().push(row))
        } else {
            before.push(seq![row])
        }
    }
}

pub open spec fn delta_of(row: ChangeModel) -> Delta {
    Delta { seq: row.seq, op: row.op, row: row.row }
}

/// The event of a transaction, with the cursor to adopt once it is handed out.
pub open spec fn transaction_of(group: Seq<ChangeModel>, epoch: i32) -> (EventModel, Option<i64>) {
    (
        EventModel::Transaction {
            xid: group[0].xid,
            lsn: group[0].lsn,
            epoch,
            deltas: group.map_values(|r: ChangeModel| delta_of(r)),
        },
        Some(group.last().seq),
    )
}

/// Whether a batch may have more rows behind it. The server returns whole
/// transactions; a trailing one may exceed `batch`, so "full" means "possibly
/// more after this".
pub open spec fn is_full(rows: nat, batch: i32) -> bool {
    rows >= batch
}

/// A batch was fetched: complete transactions become pending events. The last
/// group of a full batch is kept until the next call confirms that nothing
/// continues it.
pub open spec fn batch_fetched(m: SubscriptionModel, rows: Seq<RawModel>) -> Result<
    SubscriptionModel,
    ErrorModel,
> {
    match checked_rows(rows, known_seq(m), rows.len()) {
        Err(e) => Err(e),
        Ok(parsed) => {
            let all = m.tail + parsed;
            let groups = grouped(all, all.len());
            let keep = is_full(rows.len(), m.options.batch) && groups.len() > 0;
            let ready = if keep {
                groups.drop_last()
            } else {
                groups
            };
            Ok(
                SubscriptionModel {
                    tail: if keep {
                        groups.last()
                    } else {
                        Seq::empty()
                    },
                    pending: m.pending + ready.map_values(
                        |g: Seq<ChangeModel>| transaction_of(g, m.epoch),
                    ),
                    ..m
                },
            )
        },
    }
}

pub open spec fn group_models(groups: Seq<Vec<ChangeRow>>) -> Seq<Seq<ChangeModel>> {
    groups.map_values(|g: Vec<ChangeRow>| views(g@))
}

proof fn lemma_checked_stays(rows: Seq<RawModel>, after: i64, n: nat, m: nat)
    requires
        n <= m,
        checked_rows(rows, after, n) is Err,
    ensures
        checked_rows(rows, after, m) == checked_rows(rows, after, n),
    decreases m - n,
{
    if n < m {
        lemma_checked_stays(rows, after, n, (m - 1) as nat);
    }
}

fn check_rows(rows: Vec<RawChange>, after: i64) -> (result: Result<Vec<ChangeRow>, Error>)
    requires
        after + rows@.len() <= i64::MAX,
    ensures
        match result {
            Ok(parsed) => checked_rows(views(rows@), after, rows@.len()) == Ok::<
                Seq<ChangeModel>,
                ErrorModel,
            >(views(parsed@)),
            Err(e) => checked_rows(views(rows@), after, rows@.len()) == Err::<
                Seq<ChangeModel>,
                ErrorModel,
            >(e@),
        },
{
    let ghost models = views(rows@);
    let total: usize = rows.len();
    let mut parsed: Vec<ChangeRow> = Vec::new();
    let mut expected: i64 = after;
    let mut i: usize = 0;
    assert(views(parsed@) =~= Seq::empty());
    for r in it: rows
        invariant
            models == views(rows@),
            it.seq() == rows@,
            i == it.index(),
            total == rows@.len(),
            i <= total,
            after + total <= i64::MAX,
            expected == after + i,
            checked_rows(models, after, i as nat) == Ok::<Seq<ChangeModel>, ErrorModel>(
                views(parsed@),
            ),
    {
        assert(models[i as int] == rows@[i as int]@);
        expected = expected + 1;
        if r.seq != expected {
            proof {
                lemma_checked_stays(models, after, (i + 1) as nat, models.len());
            }
            return Err(
                Error::Protocol(
                    "expected seq ".to_string().concat(&text::signed_text(expected)).concat(
                        ", got ",
                    ).concat(&text::signed_text(r.seq)).concat(
                        ": deltas of a view must be contiguous",
                    ),
                ),
            );
        }
        let op = if text::same(&r.op, "I") {
            Op::Insert
        } else if text::same(&r.op, "D") {
            Op::Delete
        } else {
            proof {
                lemma_checked_stays(models, after, (i + 1) as nat, models.len());
            }
            return Err(Error::Protocol("unknown op ".to_string().concat(&debug_text(&r.op))));
        };
        let ghost before = views(parsed@);
        let row = ChangeRow { seq: r.seq, lsn: r.lsn, xid: r.xid, op, row: r.row };
        let ghost model = row@;
        parsed.push(row);
        assert(views(parsed@) =~= before.push(model));
        i = i + 1;
    }
    Ok(parsed)
}

fn continues(group: &Vec<ChangeRow>, row: &ChangeRow) -> (result: bool)
    requires
        group@.len() > 0,
    ensures
        result == same_transaction(views(group@)[0], row@),
{
    let first = &group[0];
    let same_xid = match (first.xid, row.xid) {
        (Some(a), Some(b)) => a == b,
        (None, None) => true,
        _ => false,
    };
    same_xid && text::same(&first.lsn, &row.lsn)
}

fn group_rows(rows: Vec<ChangeRow>) -> (result: Vec<Vec<ChangeRow>>)
    ensures
        group_models(result@) == grouped(views(rows@), rows@.len()),
        forall|g: int| 0 <= g < result@.len() ==> (#[trigger] result@[g])@.len() > 0,
{
    let ghost models = views(rows@);
    let total: usize = rows.len();
    let mut groups: Vec<Vec<ChangeRow>> = Vec::new();
    let mut n: usize = 0;
    assert(group_models(groups@) =~= Seq::empty());
    for row in it: rows
        invariant
            models == views(rows@),
            it.seq() == rows@,
            n == it.index(),
            total == rows@.len(),
            n <= total,
            group_models(groups@) == grouped(models, n as nat),
            forall|g: int| 0 <= g < groups@.len() ==> (#[trigger] groups@[g])@.len() > 0,
    {
        let ghost model = row@;
        assert(models[n as int] == rows@[n as int]@);
        let ghost before = groups@;
        let count: usize = groups.len();
        let ghost had = group_models(before);
        if count > 0 && continues(&groups[count - 1], &row) {
            let ghost last = groups@[count - 1]@;
            assert(had.last() == views(last));
            groups[count - 1].push(row);
            proof {
                assert(groups@ =~= before.update(count - 1, groups@[count - 1]));
                assert(views(groups@[count - 1]@) =~= views(last).push(model));
                assert(group_models(groups@) =~= had.update(
                    count - 1,
                    had.last().push(model),
                ));
            }
        } else {
            proof {
                if count > 0 {
                    assert(had.last() == views(groups@[count - 1]@));
                }
            }
            groups.push(vec![row]);
            proof {
                assert(views(groups@[count as int]@) =~= seq![model]);
                assert(group_models(groups@) =~= had.push(seq![model]));
            }
        }
        n = n + 1;
    }
    groups
}

fn transaction(group: Vec<ChangeRow>, epoch: i32) -> (result: (Event, Option<i64>))
    requires
        group@.len() > 0,
    ensures
        ((result.0)@, result.1) == transaction_of(views(group@), epoch),
{
    let ghost rows = views(group@);
    let total: usize = group.len();
    let xid = group[0].xid;
    let lsn = group[0].lsn.clone();
    let last_seq: i64 = group[total - 1].seq;
    assert(rows[0] == group@[0]@);
    assert(rows.last() == group@[total - 1]@);
    let mut deltas: Vec<Delta> = Vec::new();
    let mut i: usize = 0;
    for r in it: group
        invariant
            rows == views(group@),
            it.seq() == group@,
            i == it.index(),
            total == group@.len(),
            i <= total,
            deltas@.len() == i,
            forall|j: int| 0 <= j < i ==> #[trigger] deltas@[j] == delta_of(rows[j]),
    {
        assert(rows[i as int] == group@[i as int]@);
        deltas.push(Delta { seq: r.seq, op: r.op, row: r.row });
        i = i + 1;
    }
    assert(deltas@ =~= rows.map_values(|r: ChangeModel| delta_of(r)));
    (Event::Transaction { xid, lsn, epoch, deltas }, Some(last_seq))
}

/// The command that subscribes to the notifications of a view.
pub open spec fn listening(view: Seq<char>) -> Seq<char> {
    "LISTEN "@ + always_quoted("nabla:"@ + view)
}

pub fn listen_to(view: &str) -> (result: String)
    ensures
        result@ == listening(view@),
{
    let channel = "nabla:".to_string().concat(view);
    "LISTEN ".to_string().concat(&quote_ident(&channel))
}

impl Subscription {
    /// A subscription to `view` (schema-qualified, as given to
    /// `nabla.create_view`), before its first connection.
    pub fn open(view: &str) -> (result: Self)
        ensures
            result.model() == opened(
                view@,
                (Options {
                    batch: 1000,
                    poll_interval: 1_000_000_000,
                    keep_hidden: false,
                    max_backoff: 30_000_000_000,
                    build_poll: 200_000_000,
                }),
            ),
    {
        Self::open_with(view, Options::default())
    }

    pub fn open_with(view: &str, options: Options) -> (result: Self)
        ensures
            result.model() == opened(view@, options),
    {
        let sub = Subscription {
            view: text::trim(view),
            options,
            connected: false,
            state: State::NeedBootstrap,
            epoch: 0,
            cursor: 0,
            pending: VecDeque::new(),
            tail: Vec::new(),
            stale_backoff: STALE_BACKOFF,
        };
        assert(sub.model().pending =~= Seq::empty());
        assert(sub.model().tail =~= Seq::empty());
        sub
    }

    fn push(&mut self, event: Event, cursor: Option<i64>)
        ensures
            final(self).model() == with_event(old(self).model(), event@, cursor),
    {
        let ghost before = self.model().pending;
        let ghost model = event@;
        self.pending.push_back((event, cursor));
        assert(self.model().pending =~= before.push((model, cursor)));
    }

    fn drop_tail(&mut self)
        ensures
            final(self).model() == (SubscriptionModel {
                tail: Seq::empty(),
                ..old(self).model()
            }),
    {
        self.tail = Vec::new();
        assert(self.model().tail =~= Seq::empty());
    }

    /// The command that subscribes to notifications. The channel is derived
    /// from the canonical name nabla stores.
    pub fn listen(&self) -> (result: String)
        ensures
            result@ == listening(self.model().view),
    {
        listen_to(&self.view)
    }

    /// A connection was made; the server's name for the view is `name`.
    pub fn connected(&mut self, name: String)
        ensures
            final(self).model() == connected(old(self).model(), name@),
    {
        self.view = name;
        self.connected = true;
        self.state = State::NeedBootstrap;
        self.drop_tail();
    }

    /// A lost connection was made again.
    pub fn reconnected(&mut self, name: String)
        ensures
            final(self).model() == reconnected(old(self).model(), name@),
    {
        self.connected(name);
        self.push(Event::Resync { reason: ResyncReason::Disconnected }, None);
    }

    /// The connection is gone.
    pub fn disconnected(&mut self)
        ensures
            final(self).model() == (SubscriptionModel { connected: false, ..old(self).model() }),
    {
        self.connected = false;
    }

    fn resync(&mut self, reason: ResyncReason)
        ensures
            final(self).model() == resynced(old(self).model(), reason@),
    {
        self.push(Event::Resync { reason }, None);
        self.drop_tail();
        self.state = State::NeedBootstrap;
    }

    /// What to do next. An event is handed out when one is ready, and only
    /// then is its cursor adopted.
    pub fn next(&mut self) -> (result: Action)
        ensures
            (final(self).model(), result@) == next_action(old(self).model()),
    {
        let ghost m = self.model();
        let ghost before = self.pending@;
        if let Some((event, cursor)) = self.pending.pop_front() {
            proof {
                assert(m.pending[0] == (before[0].0@, before[0].1));
                assert(pending_models(self.pending@) =~= m.pending.drop_first());
            }
            if let Some(c) = cursor {
                self.cursor = c;
            }
            return Action::Yield(event);
        }
        if !self.connected {
            return Action::Reconnect;
        }
        match self.state {
            State::NeedBootstrap => Action::Bootstrap,
            State::Following => {
                let count: usize = self.tail.len();
                let after: i64 = if count > 0 {
                    assert(m.tail.last() == self.tail@[count - 1]@);
                    self.tail[count - 1].seq
                } else {
                    self.cursor
                };
                Action::Follow { wait: count == 0, after }
            },
        }
    }

    /// The query for the rows of the view, given its visible columns unless
    /// hidden ones are kept.
    pub fn rows_query(&self, columns: Option<&Vec<String>>) -> (result: String)
        ensures
            result@ == rows_sql(
                self.model().view,
                match columns {
                    Some(names) => Some(views(names@)),
                    None => None,
                },
            ),
    {
        let view = quote_view(&self.view);
        match columns {
            None => "SELECT to_jsonb(v) FROM ".to_string().concat(&view).concat(" AS v"),
            Some(names) => {
                let mut list: Vec<String> = Vec::new();
                let mut i: usize = 0;
                while i < names.len()
                    invariant
                        i <= names@.len(),
                        list@.len() == i,
                        forall|j: int|
                            0 <= j < i ==> (#[trigger] list@[j])@ == always_quoted(names@[j]@),
                    decreases names@.len() - i,
                {
                    list.push(quote_ident(&names[i]));
                    i = i + 1;
                }
                assert(views(list@) =~= views(names@).map_values(
                    |c: Seq<char>| always_quoted(c),
                ));
                "SELECT to_jsonb(v) FROM (SELECT ".to_string().concat(
                    &text::join(&list, ", "),
                ).concat(" FROM ").concat(&view).concat(") AS v")
            },
        }
    }

    /// The content of the view was read, with status and columns from the same
    /// snapshot.
    pub fn snapshot(
        &mut self,
        epoch: i32,
        frontier: String,
        cursor: i64,
        rows: Vec<serde_json::Value>,
    )
        ensures
            final(self).model() == snapshot_taken(
                old(self).model(),
                epoch,
                frontier@,
                cursor,
                rows@,
            ),
    {
        self.epoch = epoch;
        self.cursor = cursor;
        self.stale_backoff = STALE_BACKOFF;
        self.state = State::Following;
        self.drop_tail();
        self.push(Event::Snapshot { epoch, frontier, cursor, rows }, Some(cursor));
    }

    /// The view turned out stale at a bootstrap attempt. Returns how long to
    /// wait before the next one.
    pub fn stale(&mut self, reason: String) -> (result: u128)
        ensures
            final(self).model() == found_stale(old(self).model(), reason@),
            result == old(self).model().stale_backoff,
    {
        let backoff: u128 = self.stale_backoff;
        self.stale_backoff = double_up_to(backoff, self.options.max_backoff);
        self.push(Event::Resync { reason: ResyncReason::Stale { reason } }, None);
        backoff
    }

    /// A bootstrap attempt failed. An error is final.
    pub fn boot_failed(&mut self, failure: Failure) -> (result: Result<(), Error>)
        ensures
            match result {
                Ok(()) => boot_failure(old(self).model(), failure@) == Ok::<
                    SubscriptionModel,
                    ErrorModel,
                >(final(self).model()),
                Err(e) => boot_failure(old(self).model(), failure@) == Err::<
                    SubscriptionModel,
                    ErrorModel,
                >(e@) && final(self).model() == old(self).model(),
            },
    {
        match failure {
            Failure::Disconnected => {
                self.connected = false;
                Ok(())
            },
            Failure::Other(e) => Err(e),
            _ => Ok(()),
        }
    }

    /// A fetch failed. An error is final.
    pub fn fetch_failed(&mut self, failure: Failure) -> (result: Result<(), Error>)
        ensures
            match result {
                Ok(()) => fetch_failure(old(self).model(), failure@) == Ok::<
                    SubscriptionModel,
                    ErrorModel,
                >(final(self).model()),
                Err(e) => fetch_failure(old(self).model(), failure@) == Err::<
                    SubscriptionModel,
                    ErrorModel,
                >(e@) && final(self).model() == old(self).model(),
            },
    {
        match failure {
            Failure::Lagged => {
                self.resync(ResyncReason::Lagged);
                Ok(())
            },
            Failure::Stale(reason) => {
                self.resync(ResyncReason::Stale { reason });
                Ok(())
            },
            Failure::EpochChanged { from, to } => {
                self.resync(ResyncReason::EpochChanged { from, to });
                Ok(())
            },
            Failure::Disconnected => {
                self.drop_tail();
                self.connected = false;
                Ok(())
            },
            Failure::Other(e) => Err(e),
        }
    }

    /// A batch behind the last known row was fetched: complete transactions
    /// become pending events. On an error nothing changes.
    pub fn fetched(&mut self, rows: Vec<RawChange>) -> (result: Result<(), Error>)
        requires
            known_seq(old(self).model()) + rows@.len() <= i64::MAX,
        ensures
            match result {
                Ok(()) => batch_fetched(old(self).model(), views(rows@)) == Ok::<
                    SubscriptionModel,
                    ErrorModel,
                >(final(self).model()),
                Err(e) => batch_fetched(old(self).model(), views(rows@)) == Err::<
                    SubscriptionModel,
                    ErrorModel,
                >(e@) && final(self).model() == old(self).model(),
            },
    {
        let ghost m = self.model();
        let kept: usize = self.tail.len();
        let after: i64 = if kept > 0 {
            assert(m.tail.last() == self.tail@[kept - 1]@);
            self.tail[kept - 1].seq
        } else {
            self.cursor
        };
        let full = self.options.batch <= 0 || rows.len() as u64 >= self.options.batch as u64;
        let mut parsed = match check_rows(rows, after) {
            Ok(parsed) => parsed,
            Err(e) => return Err(e),
        };
        let ghost more = views(parsed@);
        let mut all: Vec<ChangeRow> = Vec::new();
        std::mem::swap(&mut all, &mut self.tail);
        all.append(&mut parsed);
        assert(views(all@) =~= m.tail + more);
        let mut groups = group_rows(all);
        let ghost whole = group_models(groups@);
        let mut tail: Vec<ChangeRow> = Vec::new();
        assert(views(tail@) =~= Seq::empty());
        if full {
            if let Some(last) = groups.pop() {
                assert(whole.last() == views(last@));
                assert(group_models(groups@) =~= whole.drop_last());
                tail = last;
            }
        }
        let ghost ready = group_models(groups@);
        let ghost events = ready.map_values(
            |g: Seq<ChangeModel>| transaction_of(g, m.epoch),
        );
        self.tail = tail;
        let epoch: i32 = self.epoch;
        let total: usize = groups.len();
        let mut i: usize = 0;
        let ghost at = self.model();
        assert(at.pending =~= m.pending + events.take(0));
        for group in it: groups
            invariant
                ready == group_models(groups@),
                events == ready.map_values(|g: Seq<ChangeModel>| transaction_of(g, epoch)),
                it.seq() == groups@,
                i == it.index(),
                total == groups@.len(),
                i <= total,
                forall|g: int| 0 <= g < groups@.len() ==> (#[trigger] groups@[g])@.len() > 0,
                self.model() == (SubscriptionModel {
                    pending: m.pending + events.take(i as int),
                    ..at
                }),
        {
            assert(ready[i as int] == views(groups@[i as int]@));
            let (event, cursor) = transaction(group, epoch);
            let ghost before = m.pending + events.take(i as int);
            self.push(event, cursor);
            assert(events.take(i + 1) =~= events.take(i as int).push(events[i as int]));
            i = i + 1;
            assert(before.push(events[i - 1]) =~= m.pending + events.take(i as int));
        }
        assert(events.take(i as int) =~= events);
        Ok(())
    }

    /// The timeout of a read-your-writes wait, as the server takes it: the
    /// caller blocks until the view's frontier reaches an LSN (the `X/Y` text
    /// form, for example `pg_current_wal_lsn()::text` taken right after a
    /// commit, or a `lsn` from a delta).
    pub fn wait_for(&self, timeout: u128) -> (result: Result<i32, Error>)
        ensures
            match result {
                Ok(ms) => self.model().connected && ms == whole_ms(timeout),
                Err(e) => !self.model().connected && e@ == ErrorModel::NotConnected,
            },
    {
        if !self.connected {
            return Err(Error::NotConnected);
        }
        Ok(timeout_ms(timeout))
    }

    /// The canonical view name (as stored by nabla).
    pub fn view(&self) -> (result: &str)
        ensures
            result@ == self.model().view,
    {
        self.view.as_str()
    }

    pub fn cursor(&self) -> (result: i64)
        ensures
            result == self.model().cursor,
    {
        self.cursor
    }

    pub fn epoch(&self) -> (result: i32)
        ensures
            result == self.model().epoch,
    {
        self.epoch
    }
}

// --- laws ----------------------------------------------------------------------------------------

/// The rows of groups, one behind the other.
pub open spec fn ungrouped(groups: Seq<Seq<ChangeModel>>) -> Seq<ChangeModel>
    decreases groups.len(),
{
    if groups.len() == 0 {
        Seq::empty()
    } else {
        ungrouped(groups.drop_last()) + groups.last()
    }
}

/// Grouping takes rows apart into transactions and loses none: the groups hold
/// the rows in their order, all rows of a group are of one transaction, and a
/// transaction is never split over two groups in a row.
pub proof fn law_transactions_stay_whole(rows: Seq<ChangeModel>, n: nat)
    requires
        n <= rows.len(),
    ensures
        ungrouped(grouped(rows, n)) == rows.take(n as int),
        forall|g: int|
            0 <= g < grouped(rows, n).len() ==> (#[trigger] grouped(rows, n)[g]).len() > 0,
        forall|g: int, k: int|
            0 <= g < grouped(rows, n).len() && 0 <= k < grouped(rows, n)[g].len()
                ==> same_transaction(
                grouped(rows, n)[g][0],
                #[trigger] grouped(rows, n)[g][k],
            ),
        forall|g: int|
            0 <= g < grouped(rows, n).len() - 1 ==> !same_transaction(
                (#[trigger] grouped(rows, n)[g])[0],
                grouped(rows, n)[g + 1][0],
            ),
    decreases n,
{
    if n == 0 {
        assert(ungrouped(grouped(rows, 0)) =~= rows.take(0));
    } else {
        law_transactions_stay_whole(rows, (n - 1) as nat);
        let before = grouped(rows, (n - 1) as nat);
        let after = grouped(rows, n);
        let row = rows[n - 1];
        let last = before.len() - 1;
        assert(rows.take(n as int) =~= rows.take(n - 1).push(row));
        if before.len() > 0 && same_transaction(before.last()[0], row) {
            assert(after.drop_last() =~= before.drop_last());
            assert(after.last() == before.last().push(row));
            assert(ungrouped(after) =~= ungrouped(before).push(row));
            assert(after[last][0] == before[last][0]);
            assert forall|g: int, k: int|
                0 <= g < after.len() && 0 <= k < after[g].len() implies same_transaction(
                after[g][0],
                #[trigger] after[g][k],
            ) by {
                if g < last || k < before[last].len() {
                    assert(after[g][k] == before[g][k]);
                }
            }
            assert forall|g: int| 0 <= g < after.len() - 1 implies !same_transaction(
                (#[trigger] after[g])[0],
                after[g + 1][0],
            ) by {
                assert(after[g] == before[g]);
                assert(after[g + 1][0] == before[g + 1][0]);
            }
        } else {
            assert(after.drop_last() =~= before);
            assert(ungrouped(after) =~= ungrouped(before).push(row));
            assert forall|g: int, k: int|
                0 <= g < after.len() && 0 <= k < after[g].len() implies same_transaction(
                after[g][0],
                #[trigger] after[g][k],
            ) by {
                if g < before.len() {
                    assert(after[g][k] == before[g][k]);
                }
            }
            assert forall|g: int| 0 <= g < after.len() - 1 implies !same_transaction(
                (#[trigger] after[g])[0],
                after[g + 1][0],
            ) by {
                assert(after[g] == before[g]);
                if g + 1 < before.len() {
                    assert(after[g + 1] == before[g + 1]);
                }
            }
        }
    }
}

/// The sequence numbers of the deltas of pending events, in order.
pub open spec fn pending_seqs(pending: Seq<(EventModel, Option<i64>)>) -> Seq<i64>
    decreases pending.len(),
{
    if pending.len() == 0 {
        Seq::empty()
    } else {
        let seqs = match pending.last().0 {
            EventModel::Transaction { xid, lsn, epoch, deltas } => deltas.map_values(
                |d: Delta| d.seq,
            ),
            _ => Seq::empty(),
        };
        pending_seqs(pending.drop_last()) + seqs
    }
}

pub open spec fn row_seqs(rows: Seq<ChangeModel>) -> Seq<i64> {
    rows.map_values(|r: ChangeModel| r.seq)
}

/// Everything behind the cursor that the subscription has.
pub open spec fn held_seqs(m: SubscriptionModel) -> Seq<i64> {
    pending_seqs(m.pending) + row_seqs(m.tail)
}

/// A transaction that takes the cursor to its last delta.
pub open spec fn is_transaction(p: (EventModel, Option<i64>)) -> bool {
    match p.0 {
        EventModel::Transaction { xid, lsn, epoch, deltas } => deltas.len() > 0 && p.1 == Some(
            deltas.last().seq,
        ),
        _ => false,
    }
}

/// The subscription follows without a gap: only transactions are pending, and
/// what it holds carries the numbers right behind the cursor, one by one.
pub open spec fn gapless(m: SubscriptionModel) -> bool {
    &&& forall|i: int| 0 <= i < m.pending.len() ==> is_transaction(#[trigger] m.pending[i])
    &&& forall|k: int| 0 <= k < held_seqs(m).len() ==> #[trigger] held_seqs(m)[k] == m.cursor + 1 + k
}

proof fn lemma_checked_rows(rows: Seq<RawModel>, after: i64, n: nat)
    requires
        n <= rows.len(),
    ensures
        checked_rows(rows, after, n) matches Ok(parsed) ==> parsed.len() == n && forall|k: int|
            0 <= k < n ==> (#[trigger] parsed[k]).seq == after + 1 + k,
    decreases n,
{
    if n > 0 {
        lemma_checked_rows(rows, after, (n - 1) as nat);
    }
}

proof fn lemma_pending_of_groups(groups: Seq<Seq<ChangeModel>>, epoch: i32)
    ensures
        pending_seqs(
            groups.map_values(|g: Seq<ChangeModel>| transaction_of(g, epoch)),
        ) == row_seqs(ungrouped(groups)),
    decreases groups.len(),
{
    let events = groups.map_values(|g: Seq<ChangeModel>| transaction_of(g, epoch));
    if groups.len() == 0 {
        assert(pending_seqs(events) =~= row_seqs(ungrouped(groups)));
    } else {
        lemma_pending_of_groups(groups.drop_last(), epoch);
        assert(events.drop_last() =~= groups.drop_last().map_values(
            |g: Seq<ChangeModel>| transaction_of(g, epoch),
        ));
        let last = groups.last().map_values(|r: ChangeModel| delta_of(r)).map_values(
            |d: Delta| d.seq,
        );
        assert(last =~= row_seqs(groups.last()));
        assert(pending_seqs(events) =~= row_seqs(ungrouped(groups)));
    }
}

/// A batch leaves the subscription without a gap: the transactions it makes
/// pending and the rows it keeps carry the numbers right behind the cursor.
pub proof fn law_batches_leave_no_gap(m: SubscriptionModel, rows: Seq<RawModel>)
    requires
        gapless(m),
        m.pending.len() == 0,
        batch_fetched(m, rows) is Ok,
    ensures
        gapless(batch_fetched(m, rows)->Ok_0),
        (batch_fetched(m, rows)->Ok_0).cursor == m.cursor,
{
    let after = batch_fetched(m, rows)->Ok_0;
    let parsed = checked_rows(rows, known_seq(m), rows.len())->Ok_0;
    let all = m.tail + parsed;
    let groups = grouped(all, all.len());
    lemma_checked_rows(rows, known_seq(m), rows.len());
    law_transactions_stay_whole(all, all.len());
    assert(all.take(all.len() as int) =~= all);
    assert(held_seqs(m) =~= row_seqs(m.tail));
    if m.tail.len() > 0 {
        assert(held_seqs(m)[m.tail.len() - 1] == m.cursor + m.tail.len());
    }
    assert forall|k: int| 0 <= k < all.len() implies (#[trigger] all[k]).seq == m.cursor + 1 + k by {
        if k < m.tail.len() {
            assert(held_seqs(m)[k] == m.tail[k].seq);
        }
    }
    let keep = is_full(rows.len(), m.options.batch) && groups.len() > 0;
    let ready = if keep {
        groups.drop_last()
    } else {
        groups
    };
    let events = ready.map_values(|g: Seq<ChangeModel>| transaction_of(g, m.epoch));
    lemma_pending_of_groups(ready, m.epoch);
    assert(after.pending =~= events);
    if keep {
        assert(row_seqs(ungrouped(ready)) + row_seqs(groups.last()) =~= row_seqs(all));
    } else {
        assert(row_seqs(ungrouped(ready)) + row_seqs(Seq::<ChangeModel>::empty()) =~= row_seqs(
            all,
        ));
    }
    assert(held_seqs(after) == row_seqs(all));
    assert forall|i: int| 0 <= i < after.pending.len() implies is_transaction(
        #[trigger] after.pending[i],
    ) by {
        let g = ready[i];
        assert(groups[i] == g);
        assert(after.pending[i] == transaction_of(g, m.epoch));
        let deltas = g.map_values(|r: ChangeModel| delta_of(r));
        assert(deltas.last() == delta_of(g.last()));
    }
}

proof fn lemma_pending_front(pending: Seq<(EventModel, Option<i64>)>)
    requires
        pending.len() > 0,
    ensures
        pending_seqs(pending) == pending_seqs(seq![pending[0]]) + pending_seqs(
            pending.drop_first(),
        ),
    decreases pending.len(),
{
    if pending.len() == 1 {
        assert(pending =~= seq![pending[0]]);
        assert(pending.drop_first() =~= Seq::empty());
        assert(pending_seqs(pending) =~= pending_seqs(seq![pending[0]]) + pending_seqs(
            pending.drop_first(),
        ));
    } else {
        lemma_pending_front(pending.drop_last());
        assert(pending.drop_last().drop_first() =~= pending.drop_first().drop_last());
        assert(pending.drop_first().last() == pending.last());
        assert(pending_seqs(pending) =~= pending_seqs(seq![pending[0]]) + pending_seqs(
            pending.drop_first(),
        ));
    }
}

/// Handing out a transaction leaves no gap: it carries the numbers right behind
/// the cursor, and the cursor goes to its last one, never before it was handed
/// out.
pub proof fn law_handing_out_leaves_no_gap(m: SubscriptionModel)
    requires
        gapless(m),
        m.pending.len() > 0,
    ensures
        ({
            let (after, action) = next_action(m);
            &&& gapless(after)
            &&& match action {
                ActionModel::Yield(EventModel::Transaction { xid, lsn, epoch, deltas }) => {
                    &&& deltas.len() > 0
                    &&& forall|k: int|
                        0 <= k < deltas.len() ==> (#[trigger] deltas[k]).seq == m.cursor + 1 + k
                    &&& after.cursor == m.cursor + deltas.len()
                },
                _ => false,
            }
        }),
{
    let (after, action) = next_action(m);
    let p = m.pending[0];
    assert(is_transaction(p));
    lemma_pending_front(m.pending);
    match p.0 {
        EventModel::Transaction { xid, lsn, epoch, deltas } => {
            let first = deltas.map_values(|d: Delta| d.seq);
            assert(seq![p].drop_last() =~= Seq::empty());
            assert(pending_seqs(seq![p].drop_last()) =~= Seq::empty());
            assert(pending_seqs(seq![p]) =~= first);
            assert(held_seqs(m) =~= first + held_seqs(after));
            assert forall|k: int| 0 <= k < deltas.len() implies (#[trigger] deltas[k]).seq
                == m.cursor + 1 + k by {
                assert(held_seqs(m)[k] == first[k]);
            }
            assert forall|k: int| 0 <= k < held_seqs(after).len() implies #[trigger] held_seqs(
                after,
            )[k] == after.cursor + 1 + k by {
                assert(held_seqs(m)[deltas.len() + k] == held_seqs(after)[k]);
            }
            assert forall|i: int| 0 <= i < after.pending.len() implies is_transaction(
                #[trigger] after.pending[i],
            ) by {
                assert(is_transaction(m.pending[i + 1]));
            }
        },
        _ => {},
    }
}

/// What can happen to a subscription.
#[allow(inconsistent_fields)]
pub enum StepModel {
    HandOut,
    Connected { name: Seq<char> },
    Reconnected { name: Seq<char> },
    Disconnected,
    Snapshot { epoch: i32, frontier: Seq<char>, cursor: i64, rows: Seq<serde_json::Value> },
    Stale { reason: Seq<char> },
    BootFailed { failure: FailureModel },
    Fetched { rows: Seq<RawModel> },
    FetchFailed { failure: FailureModel },
}

/// Whether a step can come now: batches are fetched only while following.
pub open spec fn can_come(m: SubscriptionModel, step: StepModel) -> bool {
    match step {
        StepModel::Fetched { .. } => m.state == State::Following,
        StepModel::FetchFailed { .. } => m.state == State::Following,
        StepModel::Stale { .. } => m.state == State::NeedBootstrap,
        StepModel::HandOut => m.pending.len() > 0,
        _ => true,
    }
}

/// The subscription after a step; an error leaves it as it was.
pub open spec fn after_step(m: SubscriptionModel, step: StepModel) -> SubscriptionModel {
    match step {
        StepModel::HandOut => next_action(m).0,
        StepModel::Connected { name } => connected(m, name),
        StepModel::Reconnected { name } => reconnected(m, name),
        StepModel::Disconnected => SubscriptionModel { connected: false, ..m },
        StepModel::Snapshot { epoch, frontier, cursor, rows } => snapshot_taken(
            m,
            epoch,
            frontier,
            cursor,
            rows,
        ),
        StepModel::Stale { reason } => found_stale(m, reason),
        StepModel::BootFailed { failure } => match boot_failure(m, failure) {
            Ok(after) => after,
            Err(_) => m,
        },
        StepModel::Fetched { rows } => match batch_fetched(m, rows) {
            Ok(after) => after,
            Err(_) => m,
        },
        StepModel::FetchFailed { failure } => match fetch_failure(m, failure) {
            Ok(after) => after,
            Err(_) => m,
        },
    }
}

/// The events handed out after a step.
pub open spec fn handed_out(
    history: Seq<EventModel>,
    m: SubscriptionModel,
    step: StepModel,
) -> Seq<EventModel> {
    match step {
        StepModel::HandOut => history.push(m.pending[0].0),
        _ => history,
    }
}

/// All events so far: those handed out, and those that are pending.
pub open spec fn all_events(history: Seq<EventModel>, m: SubscriptionModel) -> Seq<EventModel> {
    history + m.pending.map_values(|p: (EventModel, Option<i64>)| p.0)
}

/// No transaction comes first or right behind a resync, and a subscription
/// that follows has had something else than a resync last.
pub open spec fn well_ordered(history: Seq<EventModel>, m: SubscriptionModel) -> bool {
    let events = all_events(history, m);
    &&& forall|i: int|
        0 <= i < events.len() && #[trigger] events[i] is Transaction ==> i > 0 && !(events[i - 1]
            is Resync)
    &&& m.state == State::Following ==> events.len() > 0 && !(events.last() is Resync)
}

/// A caller that is told to resync gets a snapshot before any further
/// transaction, whatever happens to the subscription.
pub proof fn law_resync_is_followed_by_a_snapshot(
    history: Seq<EventModel>,
    m: SubscriptionModel,
    step: StepModel,
)
    requires
        well_ordered(history, m),
        can_come(m, step),
    ensures
        well_ordered(handed_out(history, m, step), after_step(m, step)),
{
    let events = all_events(history, m);
    let after = after_step(m, step);
    let more = all_events(handed_out(history, m, step), after);
    match step {
        StepModel::HandOut => {
            assert(more =~= events);
        },
        StepModel::Fetched { rows } => {
            if batch_fetched(m, rows) is Ok {
                let added = after.pending.skip(m.pending.len() as int).map_values(
                    |p: (EventModel, Option<i64>)| p.0,
                );
                assert(after.pending.take(m.pending.len() as int) =~= m.pending);
                assert(more =~= events + added);
                assert forall|i: int| 0 <= i < added.len() implies #[trigger] added[i]
                    is Transaction by {}
                assert forall|i: int|
                    0 <= i < more.len() && #[trigger] more[i] is Transaction implies i > 0 && !(
                more[i - 1] is Resync) by {
                    if i < events.len() {
                        assert(events[i] is Transaction);
                    } else if i > events.len() {
                        assert(added[i - 1 - events.len()] is Transaction);
                    }
                }
                if added.len() > 0 {
                    assert(more.last() == added.last());
                } else {
                    assert(more =~= events);
                }
            }
        },
        StepModel::Snapshot { epoch, frontier, cursor, rows } => {
            assert(more =~= events.push(EventModel::Snapshot { epoch, frontier, cursor, rows }));
        },
        StepModel::Reconnected { name } => {
            assert(more =~= events.push(
                EventModel::Resync { reason: ReasonModel::Disconnected },
            ));
        },
        StepModel::Stale { reason } => {
            assert(more =~= events.push(
                EventModel::Resync { reason: ReasonModel::Stale { reason } },
            ));
        },
        StepModel::FetchFailed { failure } => {
            match failure {
                FailureModel::Lagged => {
                    assert(more =~= events.push(
                        EventModel::Resync { reason: ReasonModel::Lagged },
                    ));
                },
                FailureModel::Stale(reason) => {
                    assert(more =~= events.push(
                        EventModel::Resync { reason: ReasonModel::Stale { reason } },
                    ));
                },
                FailureModel::EpochChanged { from, to } => {
                    assert(more =~= events.push(
                        EventModel::Resync { reason: ReasonModel::EpochChanged { from, to } },
                    ));
                },
                _ => {
                    assert(more =~= events);
                },
            }
        },
        _ => {
            assert(more =~= events);
        },
    }
}

/// Waits grow, but never past the longest one.
pub proof fn law_backoff_is_bounded(delay: u128, longest: u128)
    requires
        0 < delay <= longest,
    ensures
        delay <= doubled_up_to(delay, longest) <= longest,
        doubled_up_to(delay, longest) == delay ==> delay == longest,
{
}

// --- a whole run -----------------------------------------------------------------------------

/// The number that an event brings a subscriber to.
pub open spec fn end_of(event: EventModel) -> int {
    match event {
        EventModel::Snapshot { epoch, frontier, cursor, rows } => cursor as int,
        EventModel::Transaction { xid, lsn, epoch, deltas } => deltas.last().seq as int,
        EventModel::Resync { .. } => 0,
    }
}

/// The epoch that an event belongs to.
pub open spec fn epoch_of_event(event: EventModel) -> Option<i32> {
    match event {
        EventModel::Snapshot { epoch, frontier, cursor, rows } => Some(epoch),
        EventModel::Transaction { xid, lsn, epoch, deltas } => Some(epoch),
        EventModel::Resync { .. } => None,
    }
}

/// An event behind another one: a transaction goes on where a snapshot or a
/// transaction of its own epoch ended, number by number.
pub open spec fn links(before: EventModel, event: EventModel) -> bool {
    match event {
        EventModel::Transaction { xid, lsn, epoch, deltas } => {
            &&& !(before is Resync)
            &&& epoch_of_event(before) == Some(epoch)
            &&& deltas.len() > 0
            &&& forall|k: int|
                0 <= k < deltas.len() ==> (#[trigger] deltas[k]).seq == end_of(before) + 1 + k
        },
        _ => true,
    }
}

/// Every transaction links to the event in front of it, and there is one.
pub open spec fn chained(events: Seq<EventModel>) -> bool {
    forall|i: int|
        0 <= i < events.len() && #[trigger] events[i] is Transaction ==> i > 0 && links(
            events[i - 1],
            events[i],
        )
}

/// The cursor that a subscriber adopts with an event.
pub open spec fn adopted(event: EventModel) -> Option<i64> {
    match event {
        EventModel::Snapshot { epoch, frontier, cursor, rows } => Some(cursor),
        EventModel::Transaction { xid, lsn, epoch, deltas } => Some(deltas.last().seq),
        EventModel::Resync { .. } => None,
    }
}

pub open spec fn one_transaction(rows: Seq<ChangeModel>) -> bool {
    forall|k: int| 0 <= k < rows.len() ==> same_transaction(rows[0], #[trigger] rows[k])
}

/// What holds of a subscription and the events that it handed out so far.
pub open spec fn in_run(history: Seq<EventModel>, m: SubscriptionModel) -> bool {
    let events = all_events(history, m);
    &&& chained(events)
    &&& forall|i: int|
        0 <= i < m.pending.len() ==> (#[trigger] m.pending[i]).1 == adopted(m.pending[i].0)
    &&& one_transaction(m.tail)
    &&& m.state == State::NeedBootstrap ==> events.len() == 0 || events.last() is Resync
    &&& m.state == State::Following ==> {
        &&& events.len() > 0
        &&& epoch_of_event(events.last()) == Some(m.epoch)
        &&& forall|k: int|
            0 <= k < m.tail.len() ==> (#[trigger] m.tail[k]).seq == end_of(events.last()) + 1 + k
    }
    &&& history.len() > 0 && !(history.last() is Resync) ==> m.cursor == end_of(history.last())
}

/// Whether a step comes in answer to what the subscription asked for: it hands
/// out what is pending first, connects at first and reconnects when it has to,
/// and bootstraps or follows as its state says.
pub open spec fn comes_now(history: Seq<EventModel>, m: SubscriptionModel, step: StepModel) -> bool {
    let action = next_action(m).1;
    match step {
        StepModel::HandOut => action is Yield,
        StepModel::Connected { .. } => action is Reconnect && history.len() == 0,
        StepModel::Reconnected { .. } => action is Reconnect,
        StepModel::Disconnected => action is Follow,
        StepModel::Snapshot { .. } => action is Bootstrap,
        StepModel::Stale { .. } => action is Bootstrap,
        StepModel::BootFailed { .. } => action is Bootstrap,
        StepModel::Fetched { .. } => action is Follow,
        StepModel::FetchFailed { .. } => action is Follow,
    }
}

/// A group of rows: some, of one transaction, numbered one by one.
spec fn is_run_of_rows(group: Seq<ChangeModel>) -> bool {
    &&& group.len() > 0
    &&& forall|k: int|
        0 <= k < group.len() ==> (#[trigger] group[k]).seq == group[0].seq + k && same_transaction(
            group[0],
            group[k],
        )
}

/// The number in front of the group at `g`, where the first one begins behind
/// `end`.
spec fn front_of(groups: Seq<Seq<ChangeModel>>, g: int, end: int) -> int {
    if g <= 0 {
        end
    } else {
        groups[g - 1].last().seq as int
    }
}

spec fn group_fits(groups: Seq<Seq<ChangeModel>>, g: int, end: int) -> bool {
    is_run_of_rows(groups[g]) && groups[g][0].seq == front_of(groups, g, end) + 1
}

proof fn lemma_grouped_numbers(rows: Seq<ChangeModel>, n: nat, end: int)
    requires
        n <= rows.len(),
        forall|k: int| 0 <= k < rows.len() ==> (#[trigger] rows[k]).seq == end + 1 + k,
    ensures
        forall|g: int|
            0 <= g < grouped(rows, n).len() ==> #[trigger] group_fits(grouped(rows, n), g, end),
        front_of(grouped(rows, n), grouped(rows, n).len() as int, end) == end + n,
    decreases n,
{
    if n > 0 {
        lemma_grouped_numbers(rows, (n - 1) as nat, end);
        let before = grouped(rows, (n - 1) as nat);
        let after = grouped(rows, n);
        let row = rows[n - 1];
        let last = before.len() - 1;
        if before.len() > 0 && same_transaction(before.last()[0], row) {
            let group = before[last];
            let longer = group.push(row);
            assert(group_fits(before, last, end));
            assert(after == before.update(last, longer));
            assert(group[group.len() - 1].seq == group[0].seq + (group.len() - 1));
            assert(is_run_of_rows(longer)) by {
                assert forall|k: int| 0 <= k < longer.len() implies (#[trigger] longer[k]).seq
                    == longer[0].seq + k && same_transaction(longer[0], longer[k]) by {
                    if k < group.len() {
                        assert(longer[k] == group[k]);
                    }
                }
            }
            assert forall|g: int| 0 <= g < after.len() implies #[trigger] group_fits(
                after,
                g,
                end,
            ) by {
                assert(group_fits(before, g, end));
                assert(longer[0] == group[0]);
            }
        } else {
            let single = seq![row];
            assert(after == before.push(single));
            assert(is_run_of_rows(single));
            assert forall|g: int| 0 <= g < after.len() implies #[trigger] group_fits(
                after,
                g,
                end,
            ) by {
                if g < before.len() {
                    assert(group_fits(before, g, end));
                }
            }
        }
    }
}

/// The event of a group links to what stands in front of it.
proof fn lemma_group_links(group: Seq<ChangeModel>, epoch: i32, before: EventModel)
    requires
        is_run_of_rows(group),
        group[0].seq == end_of(before) + 1,
        epoch_of_event(before) == Some(epoch),
    ensures
        links(before, transaction_of(group, epoch).0),
        end_of(transaction_of(group, epoch).0) == group.last().seq,
        transaction_of(group, epoch).1 == adopted(transaction_of(group, epoch).0),
        epoch_of_event(transaction_of(group, epoch).0) == Some(epoch),
{
    let deltas = group.map_values(|r: ChangeModel| delta_of(r));
    assert(deltas.last() == delta_of(group.last()));
    assert forall|k: int| 0 <= k < deltas.len() implies (#[trigger] deltas[k]).seq == end_of(before)
        + 1 + k by {
        assert(group[k].seq == group[0].seq + k);
    }
}

/// The events of the first `n` groups.
spec fn group_events(groups: Seq<Seq<ChangeModel>>, epoch: i32, n: nat) -> Seq<EventModel>
    decreases n,
{
    if n == 0 {
        Seq::empty()
    } else {
        group_events(groups, epoch, (n - 1) as nat).push(transaction_of(groups[n - 1], epoch).0)
    }
}

proof fn lemma_group_events(groups: Seq<Seq<ChangeModel>>, epoch: i32, n: nat)
    ensures
        group_events(groups, epoch, n).len() == n,
        forall|g: int|
            0 <= g < n ==> #[trigger] group_events(groups, epoch, n)[g] == transaction_of(
                groups[g],
                epoch,
            ).0,
    decreases n,
{
    if n > 0 {
        lemma_group_events(groups, epoch, (n - 1) as nat);
    }
}

proof fn lemma_chained_on(events: Seq<EventModel>, event: EventModel)
    requires
        chained(events),
        events.len() > 0,
        links(events.last(), event),
    ensures
        chained(events.push(event)),
{
    let more = events.push(event);
    assert forall|i: int| 0 <= i < more.len() && #[trigger] more[i] is Transaction implies i > 0
        && links(more[i - 1], more[i]) by {
        if i < events.len() {
            assert(events[i] is Transaction);
        }
    }
}

/// The events of groups that go on where the last event ended.
proof fn lemma_groups_link(
    events: Seq<EventModel>,
    groups: Seq<Seq<ChangeModel>>,
    epoch: i32,
    n: nat,
)
    requires
        n <= groups.len(),
        events.len() > 0,
        chained(events),
        epoch_of_event(events.last()) == Some(epoch),
        forall|g: int|
            0 <= g < groups.len() ==> #[trigger] group_fits(groups, g, end_of(events.last())),
    ensures
        chained(events + group_events(groups, epoch, n)),
        epoch_of_event((events + group_events(groups, epoch, n)).last()) == Some(epoch),
        end_of((events + group_events(groups, epoch, n)).last()) == front_of(
            groups,
            n as int,
            end_of(events.last()),
        ),
    decreases n,
{
    let all = events + group_events(groups, epoch, n);
    if n == 0 {
        assert(all =~= events);
    } else {
        lemma_groups_link(events, groups, epoch, (n - 1) as nat);
        let before = events + group_events(groups, epoch, (n - 1) as nat);
        let event = transaction_of(groups[n - 1], epoch).0;
        assert(group_fits(groups, n - 1, end_of(events.last())));
        lemma_group_links(groups[n - 1], epoch, before.last());
        assert(all =~= before.push(event));
        lemma_chained_on(before, event);
    }
}

proof fn lemma_fetched_in_run(history: Seq<EventModel>, m: SubscriptionModel, rows: Seq<RawModel>)
    requires
        in_run(history, m),
        next_action(m).1 is Follow,
        batch_fetched(m, rows) is Ok,
    ensures
        in_run(history, batch_fetched(m, rows)->Ok_0),
{
    let after = batch_fetched(m, rows)->Ok_0;
    assert(all_events(history, m) =~= history);
    let end = end_of(history.last());
    let parsed = checked_rows(rows, known_seq(m), rows.len())->Ok_0;
    let all = m.tail + parsed;
    let groups = grouped(all, all.len());
    lemma_checked_rows(rows, known_seq(m), rows.len());
    if m.tail.len() > 0 {
        assert(m.tail[m.tail.len() - 1].seq == end + m.tail.len());
    }
    assert forall|k: int| 0 <= k < all.len() implies (#[trigger] all[k]).seq == end + 1 + k by {
        if k < m.tail.len() {
            assert(all[k] == m.tail[k]);
        } else {
            assert(all[k] == parsed[k - m.tail.len()]);
        }
    }
    lemma_grouped_numbers(all, all.len(), end);
    let keep = is_full(rows.len(), m.options.batch) && groups.len() > 0;
    let n: nat = if keep {
        (groups.len() - 1) as nat
    } else {
        groups.len()
    };
    let ready = groups.take(n as int);
    if keep {
        assert(ready =~= groups.drop_last());
    } else {
        assert(ready =~= groups);
    }
    lemma_groups_link(history, groups, m.epoch, n);
    lemma_group_events(groups, m.epoch, n);
    let added = group_events(groups, m.epoch, n);
    assert(after.pending =~= ready.map_values(|g: Seq<ChangeModel>| transaction_of(g, m.epoch)));
    assert(all_events(history, after) =~= history + added);
    assert forall|i: int| 0 <= i < after.pending.len() implies (#[trigger] after.pending[i]).1
        == adopted(after.pending[i].0) by {
        let deltas = ready[i].map_values(|r: ChangeModel| delta_of(r));
        assert(group_fits(groups, i, end));
        assert(deltas.last() == delta_of(ready[i].last()));
    }
    if keep {
        let g = groups.len() - 1;
        assert(group_fits(groups, g, end));
        assert(after.tail == groups[g]);
    }
}

/// Whatever happens to a subscription, in the order in which it asks for things,
/// every transaction that it hands out goes on where the snapshot or transaction
/// in front of it ended, in the same epoch; and the cursor is the last number
/// that was handed out, not of anything that is still waiting.
pub proof fn law_runs_stay_chained(
    history: Seq<EventModel>,
    m: SubscriptionModel,
    step: StepModel,
)
    requires
        in_run(history, m),
        comes_now(history, m, step),
    ensures
        in_run(handed_out(history, m, step), after_step(m, step)),
{
    let events = all_events(history, m);
    let after = after_step(m, step);
    let now = handed_out(history, m, step);
    let more = all_events(now, after);
    match step {
        StepModel::HandOut => {
            assert(more =~= events);
            assert forall|i: int| 0 <= i < after.pending.len() implies (
            #[trigger] after.pending[i]).1 == adopted(after.pending[i].0) by {
                assert(after.pending[i] == m.pending[i + 1]);
            }
            assert(m.pending[0].1 == adopted(m.pending[0].0));
            assert(now.last() == m.pending[0].0);
        },
        StepModel::Fetched { rows } => {
            if batch_fetched(m, rows) is Ok {
                lemma_fetched_in_run(history, m, rows);
            }
        },
        StepModel::Snapshot { epoch, frontier, cursor, rows } => {
            assert(events =~= history);
            assert(more =~= history.push(EventModel::Snapshot { epoch, frontier, cursor, rows }));
            lemma_chained_push(history, EventModel::Snapshot { epoch, frontier, cursor, rows });
        },
        StepModel::Reconnected { name } => {
            let event = EventModel::Resync { reason: ReasonModel::Disconnected };
            assert(more =~= events.push(event));
            lemma_chained_push(events, event);
        },
        StepModel::Stale { reason } => {
            let event = EventModel::Resync { reason: ReasonModel::Stale { reason } };
            assert(more =~= events.push(event));
            lemma_chained_push(events, event);
        },
        StepModel::FetchFailed { failure } => {
            match failure {
                FailureModel::Lagged => {
                    let event = EventModel::Resync { reason: ReasonModel::Lagged };
                    assert(more =~= events.push(event));
                    lemma_chained_push(events, event);
                },
                FailureModel::Stale(reason) => {
                    let event = EventModel::Resync { reason: ReasonModel::Stale { reason } };
                    assert(more =~= events.push(event));
                    lemma_chained_push(events, event);
                },
                FailureModel::EpochChanged { from, to } => {
                    let event = EventModel::Resync {
                        reason: ReasonModel::EpochChanged { from, to },
                    };
                    assert(more =~= events.push(event));
                    lemma_chained_push(events, event);
                },
                _ => {
                    assert(more =~= events);
                },
            }
        },
        _ => {
            assert(more =~= events);
        },
    }
}

proof fn lemma_chained_push(events: Seq<EventModel>, event: EventModel)
    requires
        chained(events),
        !(event is Transaction),
    ensures
        chained(events.push(event)),
{
    let more = events.push(event);
    assert forall|i: int| 0 <= i < more.len() && #[trigger] more[i] is Transaction implies i > 0
        && links(more[i - 1], more[i]) by {
        assert(events[i] is Transaction);
    }
}

/// A subscription begins its run with nothing handed out.
pub proof fn law_runs_begin(view: Seq<char>, options: Options)
    ensures
        in_run(Seq::empty(), opened(view, options)),
{
    assert(all_events(Seq::empty(), opened(view, options)) =~= Seq::empty());
}

/// The numbers of the deltas of the events from `from` to `n`, in order.
pub open spec fn run_seqs(events: Seq<EventModel>, from: int, n: int) -> Seq<i64>
    decreases n - from,
{
    if n <= from {
        Seq::empty()
    } else {
        run_seqs(events, from, n - 1) + match events[n - 1] {
            EventModel::Transaction { xid, lsn, epoch, deltas } => deltas.map_values(
                |d: Delta| d.seq,
            ),
            _ => Seq::empty(),
        }
    }
}

proof fn lemma_run(events: Seq<EventModel>, s: int, e: int)
    requires
        chained(events),
        0 <= s <= e < events.len(),
        events[s] is Snapshot,
        forall|i: int| s < i <= e ==> #[trigger] events[i] is Transaction,
    ensures
        forall|i: int| s <= i <= e ==> epoch_of_event(#[trigger] events[i]) == epoch_of_event(events[s]),
        forall|k: int|
            0 <= k < run_seqs(events, s + 1, e + 1).len() ==> #[trigger] run_seqs(
                events,
                s + 1,
                e + 1,
            )[k] == end_of(events[s]) + 1 + k,
        end_of(events[e]) == end_of(events[s]) + run_seqs(events, s + 1, e + 1).len(),
    decreases e - s,
{
    if s < e {
        lemma_run(events, s, e - 1);
        assert(events[e] is Transaction);
        assert(links(events[e - 1], events[e]));
        let deltas = events[e]->deltas;
        let before = run_seqs(events, s + 1, e);
        let seqs = deltas.map_values(|d: Delta| d.seq);
        assert(run_seqs(events, s + 1, e + 1) == before + seqs);
        assert(deltas[deltas.len() - 1].seq == end_of(events[e - 1]) + deltas.len());
        assert forall|k: int| 0 <= k < (before + seqs).len() implies #[trigger] (before + seqs)[k]
            == end_of(events[s]) + 1 + k by {
            if k >= before.len() {
                assert(seqs[k - before.len()] == deltas[k - before.len()].seq);
            }
        }
    }
}

/// From a snapshot on, as long as only transactions are handed out: all of them
/// carry the snapshot's epoch, none is empty, and their deltas carry the numbers
/// right behind the snapshot's cursor, without a gap or a repeat. The cursor is
/// now the last number that was handed out.
pub proof fn law_a_run_has_no_gap(history: Seq<EventModel>, m: SubscriptionModel, s: int)
    requires
        in_run(history, m),
        0 <= s < history.len(),
        history[s] is Snapshot,
        forall|i: int| s < i < history.len() ==> #[trigger] history[i] is Transaction,
    ensures
        forall|i: int|
            s < i < history.len() ==> (#[trigger] history[i])->Transaction_epoch
                == history[s]->Snapshot_epoch && history[i]->deltas.len() > 0,
        forall|k: int|
            0 <= k < run_seqs(history, s + 1, history.len() as int).len() ==> #[trigger] run_seqs(
                history,
                s + 1,
                history.len() as int,
            )[k] == history[s]->cursor + 1 + k,
        m.cursor == history[s]->cursor + run_seqs(history, s + 1, history.len() as int).len(),
{
    let events = all_events(history, m);
    let e = history.len() - 1;
    assert forall|i: int| 0 <= i < history.len() && #[trigger] history[i] is Transaction implies i
        > 0 && links(history[i - 1], history[i]) by {
        assert(events[i] == history[i]);
        assert(events[i - 1] == history[i - 1] || i == 0);
    }
    lemma_run(history, s, e);
    assert forall|i: int| s < i < history.len() implies (#[trigger] history[i])->Transaction_epoch
        == history[s]->Snapshot_epoch && history[i]->deltas.len() > 0 by {
        assert(epoch_of_event(history[i]) == epoch_of_event(history[s]));
        assert(links(history[i - 1], history[i]));
    }
}

/// Buffers are bounded: a batch is fetched only when nothing is pending, and
/// what is held then is that one batch and the rows of one trailing transaction.
pub proof fn law_buffers_are_bounded(
    history: Seq<EventModel>,
    m: SubscriptionModel,
    rows: Seq<RawModel>,
)
    requires
        in_run(history, m),
        comes_now(history, m, StepModel::Fetched { rows }),
        batch_fetched(m, rows) is Ok,
    ensures
        m.pending.len() == 0,
        one_transaction(m.tail),
        held_seqs(batch_fetched(m, rows)->Ok_0).len() == rows.len() + m.tail.len(),
        one_transaction((batch_fetched(m, rows)->Ok_0).tail),
        !is_full(rows.len(), m.options.batch) ==> (batch_fetched(m, rows)->Ok_0).tail.len() == 0,
{
    let after = batch_fetched(m, rows)->Ok_0;
    lemma_fetched_in_run(history, m, rows);
    let parsed = checked_rows(rows, known_seq(m), rows.len())->Ok_0;
    let all = m.tail + parsed;
    let groups = grouped(all, all.len());
    lemma_checked_rows(rows, known_seq(m), rows.len());
    law_transactions_stay_whole(all, all.len());
    assert(all.take(all.len() as int) =~= all);
    let keep = is_full(rows.len(), m.options.batch) && groups.len() > 0;
    let ready = if keep {
        groups.drop_last()
    } else {
        groups
    };
    lemma_pending_of_groups(ready, m.epoch);
    assert(after.pending =~= ready.map_values(|g: Seq<ChangeModel>| transaction_of(g, m.epoch)));
    if keep {
        assert(ungrouped(groups) == ungrouped(ready) + groups.last());
    }
}

// --- laws of what is handed out --------------------------------------------------------------

/// A delta as a subscriber gets it, with the transaction that it belongs to.
pub struct Given {
    pub seq: i64,
    pub op: Op,
    pub row: serde_json::Value,
    pub xid: Option<i64>,
    pub lsn: Seq<char>,
}

/// The deltas of pending events, in order.
pub open spec fn given_by(pending: Seq<(EventModel, Option<i64>)>) -> Seq<Given>
    decreases pending.len(),
{
    if pending.len() == 0 {
        Seq::empty()
    } else {
        given_by(pending.drop_last()) + match pending.last().0 {
            EventModel::Transaction { xid, lsn, epoch, deltas } => deltas.map_values(
                |d: Delta| Given { seq: d.seq, op: d.op, row: d.row, xid, lsn },
            ),
            _ => Seq::empty(),
        }
    }
}

/// The rows that are kept for the next batch, as they will be handed out.
pub open spec fn kept_back(tail: Seq<ChangeModel>) -> Seq<Given> {
    tail.map_values(
        |r: ChangeModel| Given { seq: r.seq, op: r.op, row: r.row, xid: r.xid, lsn: r.lsn },
    )
}

/// A row as the server sends it, as it is to be handed out.
pub open spec fn as_sent(r: RawModel) -> Given {
    Given {
        seq: r.seq,
        op: if r.op == "I"@ {
            Op::Insert
        } else {
            Op::Delete
        },
        row: r.row,
        xid: r.xid,
        lsn: r.lsn,
    }
}

proof fn lemma_checked_contents(rows: Seq<RawModel>, after: i64, n: nat)
    requires
        n <= rows.len(),
    ensures
        checked_rows(rows, after, n) matches Ok(parsed) ==> kept_back(parsed) == rows.take(
            n as int,
        ).map_values(|r: RawModel| as_sent(r)) && forall|k: int|
            0 <= k < n ==> (#[trigger] rows[k]).op == "I"@ || rows[k].op == "D"@,
    decreases n,
{
    if n == 0 {
        if let Ok(parsed) = checked_rows(rows, after, 0) {
            assert(kept_back(parsed) =~= rows.take(0).map_values(|r: RawModel| as_sent(r)));
        }
    } else {
        lemma_checked_contents(rows, after, (n - 1) as nat);
        if let Ok(parsed) = checked_rows(rows, after, n) {
            let before = checked_rows(rows, after, (n - 1) as nat)->Ok_0;
            assert(parsed.drop_last() =~= before);
            reveal_strlit("I");
            reveal_strlit("D");
            assert("I"@[0] != "D"@[0]);
            assert(rows.take(n as int) =~= rows.take(n - 1).push(rows[n - 1]));
            assert(kept_back(parsed) =~= kept_back(before).push(as_sent(rows[n - 1])));
            assert(rows.take(n as int).map_values(|r: RawModel| as_sent(r)) =~= rows.take(
                n - 1,
            ).map_values(|r: RawModel| as_sent(r)).push(as_sent(rows[n - 1])));
        }
    }
}

proof fn lemma_given_by_groups(groups: Seq<Seq<ChangeModel>>, epoch: i32)
    requires
        forall|g: int, k: int|
            0 <= g < groups.len() && 0 <= k < groups[g].len() ==> same_transaction(
                groups[g][0],
                #[trigger] groups[g][k],
            ),
    ensures
        given_by(groups.map_values(|g: Seq<ChangeModel>| transaction_of(g, epoch))) == kept_back(
            ungrouped(groups),
        ),
    decreases groups.len(),
{
    let f = |g: Seq<ChangeModel>| transaction_of(g, epoch);
    let events = groups.map_values(f);
    if groups.len() == 0 {
        assert(given_by(events) =~= kept_back(ungrouped(groups)));
    } else {
        let fewer = groups.drop_last();
        assert forall|g: int, k: int|
            0 <= g < fewer.len() && 0 <= k < fewer[g].len() implies same_transaction(
            fewer[g][0],
            #[trigger] fewer[g][k],
        ) by {
            assert(groups[g][k] == fewer[g][k]);
        }
        lemma_given_by_groups(fewer, epoch);
        assert(events.drop_last() =~= fewer.map_values(f));
        let last = groups.last();
        let deltas = last.map_values(|r: ChangeModel| delta_of(r));
        let given = deltas.map_values(
            |d: Delta|
                Given { seq: d.seq, op: d.op, row: d.row, xid: last[0].xid, lsn: last[0].lsn },
        );
        assert(given =~= kept_back(last)) by {
            assert forall|k: int| 0 <= k < last.len() implies given[k] == kept_back(last)[k] by {
                assert(same_transaction(groups[groups.len() - 1][0], groups[groups.len() - 1][k]));
            }
        }
        assert(kept_back(ungrouped(groups)) =~= kept_back(ungrouped(fewer)) + kept_back(last));
    }
}

proof fn lemma_given_by_both(a: Seq<(EventModel, Option<i64>)>, b: Seq<(EventModel, Option<i64>)>)
    ensures
        given_by(a + b) == given_by(a) + given_by(b),
    decreases b.len(),
{
    if b.len() == 0 {
        assert(a + b =~= a);
        assert(given_by(a) + given_by(b) =~= given_by(a));
    } else {
        lemma_given_by_both(a, b.drop_last());
        assert((a + b).drop_last() =~= a + b.drop_last());
        assert((a + b).last() == b.last());
        let more = match b.last().0 {
            EventModel::Transaction { xid, lsn, epoch, deltas } => deltas.map_values(
                |d: Delta| Given { seq: d.seq, op: d.op, row: d.row, xid, lsn },
            ),
            _ => Seq::empty(),
        };
        assert(given_by(a) + given_by(b.drop_last()) + more =~= given_by(a) + (given_by(
            b.drop_last(),
        ) + more));
    }
}

/// The rows of a batch are handed out as they were sent, one by one and in order: each
/// delta carries its row's own number, kind and JSON value, under its row's own
/// transaction; nothing is lost, added or exchanged.
pub proof fn law_batches_are_handed_out_as_sent(m: SubscriptionModel, rows: Seq<RawModel>)
    requires
        batch_fetched(m, rows) is Ok,
    ensures
        ({
            let after = batch_fetched(m, rows)->Ok_0;
            &&& given_by(after.pending) + kept_back(after.tail) == given_by(m.pending) + kept_back(
                m.tail,
            ) + rows.map_values(|r: RawModel| as_sent(r))
            &&& forall|k: int|
                0 <= k < rows.len() ==> (#[trigger] rows[k]).op == "I"@ || rows[k].op == "D"@
            &&& after.pending.len() >= m.pending.len()
            &&& after.pending.take(m.pending.len() as int) == m.pending
            &&& forall|i: int|
                m.pending.len() <= i < after.pending.len() ==> ((#[trigger] after.pending[i]).0
                    matches EventModel::Transaction { xid, lsn, epoch, deltas } && epoch == m.epoch
                    && deltas.len() > 0 && after.pending[i].1 == Some(deltas.last().seq))
        }),
{
    let after = batch_fetched(m, rows)->Ok_0;
    let parsed = checked_rows(rows, known_seq(m), rows.len())->Ok_0;
    let all = m.tail + parsed;
    let groups = grouped(all, all.len());
    lemma_checked_contents(rows, known_seq(m), rows.len());
    assert(rows.take(rows.len() as int) =~= rows);
    law_transactions_stay_whole(all, all.len());
    assert(all.take(all.len() as int) =~= all);
    let keep = is_full(rows.len(), m.options.batch) && groups.len() > 0;
    let ready = if keep {
        groups.drop_last()
    } else {
        groups
    };
    assert forall|g: int, k: int|
        0 <= g < ready.len() && 0 <= k < ready[g].len() implies same_transaction(
        ready[g][0],
        #[trigger] ready[g][k],
    ) by {
        assert(groups[g][k] == ready[g][k]);
    }
    lemma_given_by_groups(ready, m.epoch);
    let events = ready.map_values(|g: Seq<ChangeModel>| transaction_of(g, m.epoch));
    assert(after.pending =~= m.pending + events);
    lemma_given_by_both(m.pending, events);
    assert(kept_back(all) =~= kept_back(m.tail) + kept_back(parsed));
    if keep {
        assert(ungrouped(groups) == ungrouped(ready) + groups.last());
        assert(kept_back(ungrouped(ready)) + kept_back(groups.last()) =~= kept_back(all));
    } else {
        assert(kept_back(after.tail) =~= Seq::empty());
        assert(kept_back(ungrouped(ready)) + kept_back(after.tail) =~= kept_back(all));
    }
    let sent = rows.map_values(|r: RawModel| as_sent(r));
    assert(given_by(after.pending) + kept_back(after.tail) =~= given_by(m.pending) + (given_by(
        events,
    ) + kept_back(after.tail)));
    assert(given_by(m.pending) + kept_back(m.tail) + sent =~= given_by(m.pending) + (kept_back(
        m.tail,
    ) + sent));
    assert(after.pending.take(m.pending.len() as int) =~= m.pending);
    assert forall|i: int| m.pending.len() <= i < after.pending.len() implies ((
    #[trigger] after.pending[i]).0 matches EventModel::Transaction { xid, lsn, epoch, deltas }
        && epoch == m.epoch && deltas.len() > 0 && after.pending[i].1 == Some(
        deltas.last().seq,
    )) by {
        let g = i - m.pending.len();
        assert(ready[g] == groups[g]);
        assert(groups[g].len() > 0);
        let deltas = groups[g].map_values(|r: ChangeModel| delta_of(r));
        assert(deltas.last() == delta_of(groups[g].last()));
    }
}

/// Events are handed out in the order in which they came, each with the cursor that
/// goes with it, and nothing is asked for before all of them are.
pub proof fn law_events_are_handed_out_in_order(m: SubscriptionModel)
    ensures
        ({
            let (after, action) = next_action(m);
            if m.pending.len() > 0 {
                &&& action == ActionModel::Yield(m.pending[0].0)
                &&& after.pending.len() == m.pending.len() - 1
                &&& forall|i: int|
                    0 <= i < after.pending.len() ==> #[trigger] after.pending[i] == m.pending[i + 1]
                &&& m.pending[0].1 matches Some(c) ==> after.cursor == c
                &&& m.pending[0].1 is None ==> after.cursor == m.cursor
                &&& after.tail == m.tail && after.epoch == m.epoch && after.state == m.state
                    && after.connected == m.connected && after.view == m.view
            } else {
                &&& after == m
                &&& !m.connected <==> action is Reconnect
                &&& action is Bootstrap <==> m.connected && m.state == State::NeedBootstrap
                &&& action matches ActionModel::Follow { wait, after: seq } ==> m.state
                    == State::Following && wait == (m.tail.len() == 0) && seq == (if m.tail.len()
                    > 0 {
                    m.tail[m.tail.len() - 1].seq
                } else {
                    m.cursor
                })
            }
        }),
{
}

/// A snapshot is handed out as it was taken, and the subscription follows on from it:
/// in its epoch, at its cursor, with nothing kept back from before.
pub proof fn law_snapshots_are_handed_out_as_taken(
    m: SubscriptionModel,
    epoch: i32,
    frontier: Seq<char>,
    cursor: i64,
    rows: Seq<serde_json::Value>,
)
    ensures
        ({
            let after = snapshot_taken(m, epoch, frontier, cursor, rows);
            &&& after.pending.len() == m.pending.len() + 1
            &&& after.pending.take(m.pending.len() as int) == m.pending
            &&& after.pending.last().1 == Some(cursor)
            &&& after.pending.last().0 matches EventModel::Snapshot {
                epoch: e,
                frontier: f,
                cursor: c,
                rows: r,
            } && e == epoch && f == frontier && c == cursor && r == rows
            &&& after.epoch == epoch
            &&& after.cursor == cursor
            &&& after.state == State::Following
            &&& after.tail.len() == 0
            &&& after.connected == m.connected
        }),
{
    let after = snapshot_taken(m, epoch, frontier, cursor, rows);
    assert(after.pending.take(m.pending.len() as int) =~= m.pending);
}

/// What a refused request for changes leads to, by its code alone: a subscriber that
/// lags, a view that went stale and one that was refreshed each get their own resync,
/// anything else is an error; and a lost connection is made anew.
pub proof fn law_refusals_lead_to_their_resync(m: SubscriptionModel, e: QueryError)
    ensures
        ({
            let outcome = fetch_failure(m, classified(e, m.epoch));
            match e {
                QueryError::Transport => outcome matches Ok(after) && !after.connected
                    && after.pending == m.pending && after.tail.len() == 0,
                QueryError::Server { code, detail, text } => {
                    let reason = if code@ == "NB001"@ {
                        Some(ReasonModel::Lagged)
                    } else if code@ == "NB002"@ {
                        Some(
                            ReasonModel::Stale {
                                reason: match detail {
                                    Some(d) => d@,
                                    None => "reason not recorded"@,
                                },
                            },
                        )
                    } else if code@ == "NB003"@ {
                        Some(
                            ReasonModel::EpochChanged {
                                from: m.epoch,
                                to: new_epoch(view_of_option(detail), m.epoch),
                            },
                        )
                    } else {
                        None
                    };
                    match reason {
                        Some(r) => outcome matches Ok(after) && after.state == State::NeedBootstrap
                            && after.tail.len() == 0 && after.pending == m.pending.push(
                            (EventModel::Resync { reason: r }, None),
                        ),
                        None => outcome matches Err(error) && (code@ == "NB006"@ ==> error
                            is ViewFailed) && (code@ != "NB006"@ ==> error == ErrorModel::Postgres(
                            text@,
                        )),
                    }
                },
            }
        }),
{
    reveal_strlit("NB001");
    reveal_strlit("NB002");
    reveal_strlit("NB003");
    reveal_strlit("NB006");
}

/// The epoch that a refused request names is read from its detail: the number behind the
/// last space, where there is one.
pub proof fn law_new_epochs_are_read(front: Seq<char>, number: Seq<char>, to: i32, epoch: i32)
    requires
        text::signed_value(number) == Some(to as int),
        forall|i: int| 0 <= i < number.len() ==> #[trigger] number[i] != ' ',
    ensures
        new_epoch(Some(front + seq![' '] + number), epoch) == to,
        new_epoch(None, epoch) == epoch,
{
    text::lemma_split_at_last(front, ' ', number);
}

/// A view is read only when it is there: one that is being built is waited for, one that
/// failed or went stale is told with its reason.
pub proof fn law_views_are_read_when_they_are_there(status: Seq<char>, reason: Option<Seq<char>>)
    ensures
        booted(status, reason) is Building <==> status == "initializing"@ || status
            == "refreshing"@,
        booted(status, reason) is Failed <==> status == "failed"@,
        booted(status, reason) is Stale <==> status == "stale"@,
        booted(status, reason) matches BootModel::Failed(r) ==> (reason is Some ==> r == reason->0),
        booted(status, reason) matches BootModel::Stale(r) ==> (reason is Some ==> r == reason->0),
{
    reveal_strlit("initializing");
    reveal_strlit("refreshing");
    reveal_strlit("failed");
    reveal_strlit("stale");
    assert("failed"@.len() == 6 && "stale"@.len() == 5);
}

/// A snapshot reads the view itself, and every column that is asked for.
pub proof fn law_snapshots_read_every_column(view: Seq<char>, names: Seq<Seq<char>>, k: int)
    requires
        0 <= k < names.len(),
    ensures
        text::has_part(rows_sql(view, Some(names)), always_quoted(names[k])),
        text::has_part(rows_sql(view, Some(names)), " FROM "@ + quoted_view(view)),
        text::has_part(rows_sql(view, None), " FROM "@ + quoted_view(view)),
{
    let parts = names.map_values(|c: Seq<char>| always_quoted(c));
    let list = joined(parts, ", "@);
    let from = " FROM "@ + quoted_view(view);
    text::lemma_part_of_joined(parts, ", "@, k);
    let head = "SELECT to_jsonb(v) FROM (SELECT "@;
    text::lemma_part_within(head, list, from + ") AS v"@, parts[k]);
    assert(rows_sql(view, Some(names)) =~= head + list + (from + ") AS v"@));
    text::lemma_part_of_itself(from);
    text::lemma_part_within(head + list, from, ") AS v"@, from);
    assert(rows_sql(view, Some(names)) =~= head + list + from + ") AS v"@);
    reveal_strlit("SELECT to_jsonb(v) FROM ");
    reveal_strlit("SELECT to_jsonb(v)");
    reveal_strlit(" FROM ");
    assert("SELECT to_jsonb(v) FROM "@ =~= "SELECT to_jsonb(v)"@ + " FROM "@);
    text::lemma_part_within("SELECT to_jsonb(v)"@, from, " AS v"@, from);
    assert(rows_sql(view, None) =~= "SELECT to_jsonb(v)"@ + from + " AS v"@);
}

/// A schema-qualified name is quoted part by part, at its first dot.
pub proof fn law_views_are_quoted_part_by_part(schema: Seq<char>, name: Seq<char>)
    requires
        forall|i: int| 0 <= i < schema.len() ==> #[trigger] schema[i] != '.',
    ensures
        quoted_view(schema + seq!['.'] + name) == always_quoted(schema) + "."@ + always_quoted(name),
{
    let view = schema + seq!['.'] + name;
    lemma_first_dot(schema, name);
    assert(view.take(schema.len() as int) =~= schema);
    assert(view.skip(schema.len() as int + 1) =~= name);
}

proof fn lemma_first_dot(schema: Seq<char>, name: Seq<char>)
    requires
        forall|i: int| 0 <= i < schema.len() ==> #[trigger] schema[i] != '.',
    ensures
        first_of(schema + seq!['.'] + name, '.') == Some(schema.len() as int),
    decreases schema.len(),
{
    let view = schema + seq!['.'] + name;
    if schema.len() > 0 {
        assert(view[0] == schema[0]);
        assert forall|i: int| 0 <= i < schema.drop_first().len() implies #[trigger]
            schema.drop_first()[i] != '.' by {
            assert(schema[i + 1] != '.');
        }
        lemma_first_dot(schema.drop_first(), name);
        assert(view.drop_first() =~= schema.drop_first() + seq!['.'] + name);
    } else {
        assert(view[0] == '.');
    }
}

/// The last number that a subscriber was sent: that of the rows that are kept back, or the
/// one that was handed out.
pub open spec fn last_sent(m: SubscriptionModel) -> int {
    if m.tail.len() > 0 {
        m.tail[m.tail.len() - 1].seq as int
    } else {
        m.cursor as int
    }
}

proof fn lemma_checked_exactly(rows: Seq<RawModel>, after: i64, n: nat)
    requires
        n <= rows.len(),
    ensures
        checked_rows(rows, after, n) is Ok <==> forall|k: int|
            0 <= k < n ==> (#[trigger] rows[k]).seq == after + 1 + k && (rows[k].op == "I"@
                || rows[k].op == "D"@),
        checked_rows(rows, after, n) matches Ok(parsed) ==> parsed.len() == n,
    decreases n,
{
    if n > 0 {
        lemma_checked_exactly(rows, after, (n - 1) as nat);
        if checked_rows(rows, after, n) is Ok {
            assert forall|k: int| 0 <= k < n implies (#[trigger] rows[k]).seq == after + 1 + k && (
            rows[k].op == "I"@ || rows[k].op == "D"@) by {}
        }
    }
}

/// A batch is accepted exactly where it goes on without a gap behind the last number that
/// was sent, and every row is an insert or a delete.
pub proof fn law_only_batches_without_a_gap_are_accepted(m: SubscriptionModel, rows: Seq<RawModel>)
    ensures
        batch_fetched(m, rows) is Ok <==> forall|k: int|
            0 <= k < rows.len() ==> (#[trigger] rows[k]).seq == last_sent(m) + 1 + k && (rows[k].op
                == "I"@ || rows[k].op == "D"@),
        batch_fetched(m, rows) is Err ==> batch_fetched(m, rows)->Err_0 is Protocol,
{
    lemma_checked_exactly(rows, known_seq(m), rows.len());
    lemma_refused_is_protocol(rows, known_seq(m), rows.len());
}

proof fn lemma_refused_is_protocol(rows: Seq<RawModel>, after: i64, n: nat)
    ensures
        checked_rows(rows, after, n) matches Err(e) ==> e is Protocol,
    decreases n,
{
    if n > 0 {
        lemma_refused_is_protocol(rows, after, (n - 1) as nat);
    }
}

proof fn lemma_groups_are_there(rows: Seq<ChangeModel>, n: nat)
    requires
        n <= rows.len(),
    ensures
        grouped(rows, n).len() > 0 <==> n > 0,
        forall|g: int| 0 <= g < grouped(rows, n).len() ==> (#[trigger] grouped(rows, n)[g]).len() > 0,
        forall|g: int|
            0 <= g < grouped(rows, n).len() - 1 ==> !same_transaction(
                (#[trigger] grouped(rows, n)[g])[0],
                grouped(rows, n)[g + 1][0],
            ),
    decreases n,
{
    if n > 0 {
        lemma_groups_are_there(rows, (n - 1) as nat);
        let before = grouped(rows, (n - 1) as nat);
        let after = grouped(rows, n);
        assert forall|g: int| 0 <= g < after.len() implies (#[trigger] after[g]).len() > 0 by {
            if g < before.len() {
                assert(before[g].len() > 0);
            }
        }
        assert forall|g: int| 0 <= g < after.len() - 1 implies !same_transaction(
            (#[trigger] after[g])[0],
            after[g + 1][0],
        ) by {
            assert(before[g].len() > 0);
            if g < before.len() - 1 {
                assert(before[g + 1].len() > 0);
                assert(after[g][0] == before[g][0]);
                assert(after[g + 1][0] == before[g + 1][0]);
            }
        }
    }
}

/// Rows are kept back exactly where a batch was full, so that more of its last transaction
/// may follow; two events that follow each other are of different transactions, and so are
/// the last event of a batch and what is kept back.
pub proof fn law_full_batches_keep_their_last_transaction(
    m: SubscriptionModel,
    rows: Seq<RawModel>,
    i: int,
)
    requires
        batch_fetched(m, rows) is Ok,
    ensures
        ({
            let after = batch_fetched(m, rows)->Ok_0;
            let n = after.pending.len();
            &&& after.tail.len() > 0 <==> rows.len() >= m.options.batch && m.tail.len() + rows.len()
                > 0
            &&& m.pending.len() <= i < n - 1 ==> (match (after.pending[i].0, after.pending[i + 1].0) {
                (
                    EventModel::Transaction { xid, lsn, .. },
                    EventModel::Transaction { xid: other, lsn: position, .. },
                ) => xid != other || lsn != position,
                _ => false,
            })
            &&& m.pending.len() < n && after.tail.len() > 0 ==> (match after.pending[n - 1].0 {
                EventModel::Transaction { xid, lsn, .. } => xid != after.tail[0].xid || lsn
                    != after.tail[0].lsn,
                _ => false,
            })
        }),
{
    let after = batch_fetched(m, rows)->Ok_0;
    lemma_checked_exactly(rows, known_seq(m), rows.len());
    let parsed = checked_rows(rows, known_seq(m), rows.len())->Ok_0;
    let all = m.tail + parsed;
    let groups = grouped(all, all.len());
    lemma_groups_are_there(all, all.len());
    let had = m.pending.len() as int;
    let n = after.pending.len() as int;
    if had <= i < n - 1 {
        let g = i - had;
        assert(after.pending[i] == transaction_of(groups[g], m.epoch));
        assert(after.pending[i + 1] == transaction_of(groups[g + 1], m.epoch));
        assert(!same_transaction(groups[g][0], groups[g + 1][0]));
    }
    if had < n && after.tail.len() > 0 {
        let g = n - 1 - had;
        assert(after.pending[n - 1] == transaction_of(groups[g], m.epoch));
        assert(after.tail == groups[g + 1]);
        assert(!same_transaction(groups[g][0], groups[g + 1][0]));
    }
    if groups.len() > 0 {
        assert(groups[groups.len() - 1].len() > 0);
    }
}

/// Events that are ready are handed out before anything else; then a lost connection is made
/// again, a view that has to be read is read, and else changes are fetched behind the last
/// number that was sent, at once where some of a transaction is kept back.
pub proof fn law_events_come_before_requests(m: SubscriptionModel)
    ensures
        ({
            let (after, action) = next_action(m);
            &&& action is Yield <==> m.pending.len() > 0
            &&& action is Reconnect <==> m.pending.len() == 0 && !m.connected
            &&& action is Bootstrap <==> m.pending.len() == 0 && m.connected && m.state
                == State::NeedBootstrap
            &&& action matches ActionModel::Follow { wait, after: behind } ==> behind == last_sent(
                m,
            ) && (wait <==> m.tail.len() == 0)
            &&& !(action is Yield) ==> after == m
        }),
{
}

/// A connection begins with a bootstrap under the server's name for the view, and what was
/// kept back is dropped, as it will be sent again; one that was lost tells the subscriber.
pub proof fn law_connections_begin_with_a_bootstrap(m: SubscriptionModel, name: Seq<char>)
    ensures
        ({
            let first = connected(m, name);
            let again = reconnected(m, name);
            &&& first.connected && again.connected
            &&& first.view == name && again.view == name
            &&& first.state == State::NeedBootstrap && again.state == State::NeedBootstrap
            &&& first.tail.len() == 0 && again.tail.len() == 0
            &&& first.pending == m.pending
            &&& again.pending == m.pending.push(
                (EventModel::Resync { reason: ReasonModel::Disconnected }, None),
            )
            &&& first.cursor == m.cursor && again.cursor == m.cursor
            &&& first.epoch == m.epoch && again.epoch == m.epoch
        }),
{
}

/// A view that is stale when it is to be read is told to the subscriber with the reason, and
/// the next attempt waits twice as long, up to the longest wait.
pub proof fn law_stale_views_are_waited_for(m: SubscriptionModel, reason: Seq<char>)
    ensures
        ({
            let after = found_stale(m, reason);
            &&& after.pending == m.pending.push(
                (EventModel::Resync { reason: ReasonModel::Stale { reason } }, None),
            )
            &&& after.stale_backoff <= m.options.max_backoff
            &&& after.stale_backoff == 2 * m.stale_backoff || (after.stale_backoff
                == m.options.max_backoff && 2 * m.stale_backoff > m.options.max_backoff)
            &&& after.state == m.state && after.cursor == m.cursor && after.tail == m.tail
        }),
{
}

/// A bootstrap that fails is an error where the server refused it for good; a lost
/// connection is made again, and else it is tried again.
pub proof fn law_failed_bootstraps_are_tried_again(m: SubscriptionModel, e: ErrorModel)
    ensures
        boot_failure(m, FailureModel::Other(e)) == Err::<SubscriptionModel, ErrorModel>(e),
        boot_failure(m, FailureModel::Lagged) == Ok::<SubscriptionModel, ErrorModel>(m),
        boot_failure(m, FailureModel::Disconnected) matches Ok(after) && !after.connected && after
            == (SubscriptionModel { connected: false, ..m }),
{
}

/// A timeout is given to the server in whole milliseconds, no more than it can take.
pub proof fn law_timeouts_are_given_in_milliseconds(timeout: u128)
    ensures
        0 <= whole_ms(timeout) <= i32::MAX,
        whole_ms(timeout) * 1_000_000 <= timeout,
        whole_ms(timeout) == i32::MAX || timeout < (whole_ms(timeout) + 1) * 1_000_000,
{
}

/// A subscriber listens on the channel of its own view.
pub proof fn law_subscribers_listen_to_their_view(view: Seq<char>)
    ensures
        listening(view).take(7) == "LISTEN "@,
        listening(view).skip(7) == always_quoted("nabla:"@ + view),
{
    reveal_strlit("LISTEN ");
    assert(listening(view).take(7) =~= "LISTEN "@);
    assert(listening(view).skip(7) =~= always_quoted("nabla:"@ + view));
}

/// A subscription begins without a connection and with everything still to be read, under
/// the name that was given, without white space around it.
pub proof fn law_subscriptions_begin_empty(view: Seq<char>, options: Options)
    ensures
        ({
            let m = opened(view, options);
            &&& !m.connected
            &&& m.state == State::NeedBootstrap
            &&& m.pending.len() == 0
            &&& m.tail.len() == 0
            &&& m.cursor == 0
            &&& m.options == options
            &&& m.view == trimmed(view)
        }),
{
}

} // verus!
