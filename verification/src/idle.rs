//! The idle window: a WAL range the worker has verified to contain no
//! published change, shared with backends.
//!
//! The worker's own bookkeeping commits (frontier updates, delta rows)
//! advance `pg_current_wal_lsn()` but can never affect a view, and the worker
//! deliberately does not chase its own WAL (it would loop). Without this
//! window a client calling `nabla.wait_for(view, pg_current_wal_lsn())` right
//! after such a commit, with no user write in between, would wait forever.
//! When a poll finds no decodable change and no WAL beyond the worker's last
//! commit, the worker publishes `(from, to]`: every live view whose frontier
//! is at least `from` also reflects the base tables at `to`.
use vstd::prelude::*;

verus! {

#[derive(Copy, Clone, Debug, PartialEq, Eq, Structural)]
pub struct IdleWindow {
    pub from: u64,
    pub to: u64,
}

impl Default for IdleWindow {
    fn default() -> (result: Self)
        ensures
            result == (IdleWindow { from: 0, to: 0 }),
    {
        IdleWindow { from: 0, to: 0 }
    }
}

/// Worker side: WAL in `(from, to]` holds no published change. Without a shared
/// window there is none afterwards either.
pub fn publish(window: &mut Option<IdleWindow>, from: u64, to: u64)
    ensures
        *final(window) == match *old(window) {
            Some(_) => Some(IdleWindow { from, to }),
            None => None,
        },
{
    if window.is_some() {
        *window = Some(IdleWindow { from, to });
    }
}

/// The frontier a live view effectively reflects.
pub open spec fn reflected(window: Option<IdleWindow>, frontier: u64) -> u64 {
    match window {
        Some(w) if w.from != 0 && frontier >= w.from && w.to > frontier => w.to,
        _ => frontier,
    }
}

/// The frontier a live view effectively reflects, given its stored frontier.
pub fn effective_frontier(window: Option<IdleWindow>, frontier: u64) -> (result: u64)
    ensures
        result == reflected(window, frontier),
{
    match window {
        None => frontier,
        Some(w) => if w.from != 0 && frontier >= w.from && w.to > frontier {
            w.to
        } else {
            frontier
        },
    }
}

/// A view reflects at least its stored frontier, and more only where that lies
/// in the window: then the end of the window.
pub proof fn law_window_only_adds(window: Option<IdleWindow>, frontier: u64)
    ensures
        reflected(window, frontier) >= frontier,
        reflected(window, frontier) != frontier ==> (window matches Some(w) && w.from <= frontier
            < w.to && reflected(window, frontier) == w.to),
{
}

/// A view that is further reflects no less, and what a view reflects, stored as
/// its frontier, reflects no more.
pub proof fn law_window_keeps_order(window: Option<IdleWindow>, a: u64, b: u64)
    ensures
        a <= b ==> reflected(window, a) <= reflected(window, b),
        reflected(window, reflected(window, a)) == reflected(window, a),
{
}

/// A view whose frontier lies in a published window reflects the end of it; without a
/// window, before it and behind it a view reflects its own frontier.
pub proof fn law_window_lifts_what_lies_in_it(from: u64, to: u64, frontier: u64)
    ensures
        reflected(None, frontier) == frontier,
        0 < from <= frontier < to ==> reflected(Some(IdleWindow { from, to }), frontier) == to,
        frontier < from || to <= frontier || from == 0 ==> reflected(
            Some(IdleWindow { from, to }),
            frontier,
        ) == frontier,
{
}

} // verus!
