//! The background worker's decisions: which view absorbs which source
//! transaction, how the shadow tables that join views depend on are
//! maintained, and what is recorded when something fails.
//!
//! Ordering per source transaction: apply deltas + advance frontiers and
//! COMMIT, then advance the slot in a separate transaction. A crash between
//! the two replays the transaction, and the per-object frontier check makes
//! the replay a no-op (at-least-once delivery, effectively exactly-once).
//!
//! Skip rule: an object (view or shadow) with `frontier >= T.end_lsn` has
//! already absorbed T and is skipped. This is also what lets a new view share
//! an existing shadow without re-snapshotting it: the view is populated at a
//! consistent point F_new and skips everything at or below F_new, while an
//! older shadow at F_s < F_new keeps absorbing (F_s, F_new] on its own; from
//! F_new on both absorb the same transactions.
//!
//! Schema changes: every column is addressed by name from the pgoutput
//! Relation message. Columns a view or shadow does not use are ignored, so
//! adding, dropping or renaming unrelated columns changes nothing. A needed
//! column that disappears or changes type marks exactly the views that use
//! it stale, with a reason naming the column; a shadow drops that column from
//! its active set and keeps serving the other views.
//!
//! Failure isolation: every view's planning step and its final write step
//! run in subtransactions. A failing view is rolled back alone, its failure
//! is recorded in the catalog, and the slot is held back until the view
//! either absorbs the transaction on a later poll or exceeds
//! `nabla.max_apply_failures` and goes stale.
use vstd::prelude::*;

use crate::apply;
use crate::apply::{
    cast, cell_text, column_names, first_stray, followed_by, join_rows, out_of_bounds, plan_nothing,
    resolved, resolved_row, row_fits, single_delete, single_rows, tuple_model, EndModel, Op, OpModel,
    Plan, PlanEnd, PlanModel, Stale, StepModel, ViewTarget,
};
use crate::definition::{BaseModel, Shape, SpecModel, ViewSpec};
use crate::lsn;
use crate::pgoutput::{
    Cell, Change, ChangeModel, ColumnValue, Relation, RelationModel, Tuple, TAG_KEY,
};
use crate::quote::Quoting;
use crate::statement::{
    oid_arg, text_arg, text_args, texts, warning, Arg, ArgModel, Level, Notice, NoticeModel,
    Statement, StatementModel,
};
use crate::text;
use crate::text::{
    decimal, has_part, index_of, joined, signed_decimal, view_of_option, views,
};

verus! {

pub const SLOT: &'static str = "nabla";

pub const PUBLICATION: &'static str = "nabla";

/// pgoutput tag of a complete old tuple (REPLICA IDENTITY FULL).
pub const FULL_OLD_TUPLE: u8 = 79;

// --- per-transaction state -----------------------------------------------------

pub struct LiveView {
    pub id: i32,
    pub name: String,
    /// The storage table behind the VIEW: where the worker writes.
    pub storage: String,
    pub spec: ViewSpec,
    pub frontier: u64,
    pub last_seq: i64,
    pub apply_failures: i32,
    pub definition: String,
    pub touched: bool,
    /// Planned operations for the current source transaction.
    pub ops: Vec<Op>,
    /// Set when a planning step failed: the view must retry the transaction.
    pub failed: Option<String>,
    pub stale: Option<String>,
    /// Stopped absorbing for the rest of the round (failed or went stale).
    pub dead: bool,
    /// A failure was recorded for this view in the current round; the
    /// round-end catalog update must not clear that bookkeeping.
    pub failed_this_round: bool,
}

pub struct LiveModel {
    pub id: i32,
    pub name: Seq<char>,
    pub storage: Seq<char>,
    pub spec: SpecModel,
    pub frontier: u64,
    pub last_seq: i64,
    pub apply_failures: i32,
    pub definition: Seq<char>,
    pub touched: bool,
    pub ops: Seq<OpModel>,
    pub failed: Option<Seq<char>>,
    pub stale: Option<Seq<char>>,
    pub dead: bool,
    pub failed_this_round: bool,
}

impl View for LiveView {
    type V = LiveModel;

    open spec fn view(&self) -> LiveModel {
        LiveModel {
            id: self.id,
            name: self.name@,
            storage: self.storage@,
            spec: self.spec@,
            frontier: self.frontier,
            last_seq: self.last_seq,
            apply_failures: self.apply_failures,
            definition: self.definition@,
            touched: self.touched,
            ops: views(self.ops@),
            failed: view_of_option(self.failed),
            stale: view_of_option(self.stale),
            dead: self.dead,
            failed_this_round: self.failed_this_round,
        }
    }
}

pub struct Shadow {
    pub relid: u32,
    pub table: String,
    pub frontier: u64,
    /// Maintenance failed; dependents are stale, refresh rebuilds it.
    pub failed: bool,
    /// Active column set (primary key plus columns some view uses) and types.
    pub columns: Vec<String>,
    pub column_types: Vec<String>,
    pub pk_columns: Vec<String>,
    /// Frontier moved during this round (written once at the end).
    pub advanced: bool,
}

pub struct ShadowModel {
    pub relid: u32,
    pub table: Seq<char>,
    pub frontier: u64,
    pub failed: bool,
    pub columns: Seq<Seq<char>>,
    pub column_types: Seq<Seq<char>>,
    pub pk_columns: Seq<Seq<char>>,
    pub advanced: bool,
}

impl View for Shadow {
    type V = ShadowModel;

    open spec fn view(&self) -> ShadowModel {
        ShadowModel {
            relid: self.relid,
            table: self.table@,
            frontier: self.frontier,
            failed: self.failed,
            columns: views(self.columns@),
            column_types: views(self.column_types@),
            pk_columns: views(self.pk_columns@),
            advanced: self.advanced,
        }
    }
}

// --- what a view uses ------------------------------------------------------------

/// The position of the first relation with this oid.
pub open spec fn relation_position(relations: Seq<BaseModel>, relid: u32) -> Option<int>
    decreases relations.len(),
{
    if relations.len() == 0 {
        None
    } else if relations[0].oid == relid {
        Some(0)
    } else {
        match relation_position(relations.drop_first(), relid) {
            Some(i) => Some(i + 1),
            None => None,
        }
    }
}

proof fn lemma_relation_position(relations: Seq<BaseModel>, relid: u32)
    ensures
        match relation_position(relations, relid) {
            Some(i) => 0 <= i < relations.len() && relations[i].oid == relid && forall|j: int|
                0 <= j < i ==> (#[trigger] relations[j]).oid != relid,
            None => forall|j: int| 0 <= j < relations.len() ==> (#[trigger] relations[j]).oid != relid,
        },
    decreases relations.len(),
{
    if relations.len() > 0 && relations[0].oid != relid {
        let rest = relations.drop_first();
        lemma_relation_position(rest, relid);
        assert forall|j: int| 1 <= j < relations.len() implies relations[j] == rest[j - 1] by {}
    }
}

/// Whether the value of the column at `i` is known to be the same in two rows.
/// An unchanged-TOAST marker counts as equal.
pub open spec fn same_value(old: Seq<Cell>, new: Seq<Cell>, i: int) -> bool {
    i < new.len() && (new[i] == Cell::Unchanged || (i < old.len() && old[i] == new[i]))
}

/// Whether a column of the decoded relation differs between two rows.
pub open spec fn column_touched(
    rel: RelationModel,
    old: Seq<Cell>,
    new: Seq<Cell>,
    name: Seq<char>,
) -> bool {
    match index_of(column_names(rel), name) {
        Some(i) => !same_value(old, new, i),
        None => true,
    }
}

/// Whether one of the columns differs between two rows.
pub open spec fn any_touched(
    rel: RelationModel,
    before: Seq<Cell>,
    after: Seq<Cell>,
    names: Seq<Seq<char>>,
) -> bool {
    exists|k: int|
        0 <= k < names.len() && column_touched(rel, before, after, #[trigger] names[k])
}

/// Whether the rows before and after differ in at least one column of `relid`
/// that the view uses. Without a full old row the answer is conservatively true.
pub open spec fn touches(
    spec: SpecModel,
    relid: u32,
    rel: RelationModel,
    before: Option<Seq<Cell>>,
    after: Seq<Cell>,
) -> bool {
    match (relation_position(spec.relations, relid), before) {
        (Some(index), Some(row)) => any_touched(
            rel,
            row,
            after,
            spec.relations[index].used_columns,
        ),
        _ => true,
    }
}

/// Whether the decoded relation provides the column with the expected type.
pub open spec fn provided(rel: RelationModel, name: Seq<char>, ty: Seq<char>) -> bool {
    exists|i: int|
        0 <= i < rel.columns.len() && (#[trigger] rel.columns[i]).name == name
            && rel.columns[i].resolved_type == Some(ty)
}

/// The first of `n` columns that the decoded relation does not provide.
pub open spec fn first_drifted(
    rel: RelationModel,
    names: Seq<Seq<char>>,
    types: Seq<Seq<char>>,
    n: nat,
) -> Option<Seq<char>>
    decreases n,
{
    if n == 0 {
        None
    } else {
        match first_drifted(rel, names, types, (n - 1) as nat) {
            Some(name) => Some(name),
            None => if provided(rel, names[n - 1], types[n - 1]) {
                None
            } else {
                Some(names[n - 1])
            },
        }
    }
}

proof fn lemma_first_drifted_stays(
    rel: RelationModel,
    names: Seq<Seq<char>>,
    types: Seq<Seq<char>>,
    n: nat,
    m: nat,
)
    requires
        n <= m,
        first_drifted(rel, names, types, n) is Some,
    ensures
        first_drifted(rel, names, types, m) == first_drifted(rel, names, types, n),
    decreases m - n,
{
    if n < m {
        lemma_first_drifted_stays(rel, names, types, n, (m - 1) as nat);
    }
}

pub open spec fn shorter(a: nat, b: nat) -> nat {
    if a <= b {
        a
    } else {
        b
    }
}

pub open spec fn drift_reason(name: Seq<char>, qualified: Seq<char>) -> Seq<char> {
    "column \""@ + name + "\" of "@ + qualified + " was dropped, renamed or changed type"@
}

/// Why a view cannot be maintained over the decoded relation: the first column
/// of `relid` that it uses and the relation no longer provides as expected.
pub open spec fn drifted(spec: SpecModel, relid: u32, rel: RelationModel) -> Option<Seq<char>> {
    match relation_position(spec.relations, relid) {
        None => None,
        Some(index) => {
            let base = spec.relations[index];
            match first_drifted(
                rel,
                base.used_columns,
                base.used_column_types,
                shorter(base.used_columns.len(), base.used_column_types.len()),
            ) {
                Some(name) => Some(drift_reason(name, base.qualified)),
                None => None,
            }
        },
    }
}

/// Whether a view still has to take in a change of `relid` from a transaction
/// that ends at `end_lsn`.
pub open spec fn is_active(v: LiveModel, relid: u32, end_lsn: u64) -> bool {
    v.failed is None && v.stale is None && end_lsn > v.frontier && relation_position(
        v.spec.relations,
        relid,
    ) is Some
}

fn provides(rel: &Relation, name: &str, ty: &str) -> (result: bool)
    ensures
        result == provided(rel@, name@, ty@),
{
    let ghost model = rel@;
    let mut i: usize = 0;
    while i < rel.columns.len()
        invariant
            model == rel@,
            i <= rel.columns@.len(),
            forall|j: int|
                0 <= j < i ==> !((#[trigger] model.columns[j]).name == name@
                    && model.columns[j].resolved_type == Some(ty@)),
        decreases rel.columns@.len() - i,
    {
        let c = &rel.columns[i];
        assert(model.columns[i as int] == c@);
        if text::same(&c.name, name) {
            if let Some(t) = &c.resolved_type {
                if text::same(t, ty) {
                    assert(provided(model, name@, ty@));
                    return true;
                }
            }
        }
        i = i + 1;
    }
    false
}

fn same_cell(a: &ColumnValue, b: &ColumnValue) -> (result: bool)
    ensures
        result == (a@ == b@),
{
    match (a, b) {
        (ColumnValue::Null, ColumnValue::Null) => true,
        (ColumnValue::Unchanged, ColumnValue::Unchanged) => true,
        (ColumnValue::Text(x), ColumnValue::Text(y)) => text::same(x, y),
        _ => false,
    }
}

fn is_column_touched(rel: &Relation, old: &Tuple, new: &Tuple, name: &str) -> (result: bool)
    ensures
        result == column_touched(rel@, views(old@), views(new@), name@),
{
    match apply::rel_column_index(rel, name) {
        None => true,
        Some(i) => {
            if i >= new.len() {
                return true;
            }
            assert(views(new@)[i as int] == new@[i as int]@);
            if let ColumnValue::Unchanged = &new[i] {
                return false;
            }
            if i >= old.len() {
                return true;
            }
            assert(views(old@)[i as int] == old@[i as int]@);
            !same_cell(&old[i], &new[i])
        },
    }
}

impl LiveView {
    /// Position of `relid` in the view's relation list, if the view uses it.
    pub fn relation_index(&self, relid: u32) -> (result: Option<usize>)
        ensures
            match result {
                Some(i) => i < self.spec.relations@.len() && relation_position(
                    self@.spec.relations,
                    relid,
                ) == Some(i as int),
                None => relation_position(self@.spec.relations, relid) is None,
            },
    {
        let ghost relations = self@.spec.relations;
        proof {
            lemma_relation_position(relations, relid);
        }
        let mut i: usize = 0;
        while i < self.spec.relations.len()
            invariant
                relations == self@.spec.relations,
                i <= self.spec.relations@.len(),
                forall|j: int| 0 <= j < i ==> (#[trigger] relations[j]).oid != relid,
            decreases self.spec.relations@.len() - i,
        {
            assert(relations[i as int] == self.spec.relations@[i as int]@);
            if self.spec.relations[i].oid == relid {
                proof {
                    lemma_relation_position(relations, relid);
                }
                return Some(i);
            }
            i = i + 1;
        }
        None
    }

    /// True when `old` and `new` differ in at least one column of `relid`
    /// this view uses. An unchanged-TOAST marker counts as equal. Without a
    /// full old row the answer is conservatively true.
    pub fn touches_used_columns(
        &self,
        relid: u32,
        rel: &Relation,
        old: Option<&Tuple>,
        new: &Tuple,
    ) -> (result: bool)
        ensures
            result == touches(self@.spec, relid, rel@, tuple_model(old), views(new@)),
    {
        let index = match self.relation_index(relid) {
            None => return true,
            Some(index) => index,
        };
        let before = match old {
            None => return true,
            Some(row) => row,
        };
        let base = &self.spec.relations[index];
        assert(self@.spec.relations[index as int] == base@);
        let ghost used = base@.used_columns;
        let mut k: usize = 0;
        while k < base.used_columns.len()
            invariant
                relation_position(self@.spec.relations, relid) == Some(index as int),
                self@.spec.relations[index as int] == base@,
                used == base@.used_columns,
                index < self@.spec.relations.len(),
                tuple_model(old) == Some(views(before@)),
                k <= base.used_columns@.len(),
                forall|j: int|
                    0 <= j < k ==> !column_touched(
                        rel@,
                        views(before@),
                        views(new@),
                        #[trigger] used[j],
                    ),
            decreases base.used_columns@.len() - k,
        {
            assert(used[k as int] == base.used_columns@[k as int]@);
            if is_column_touched(rel, before, new, &base.used_columns[k]) {
                assert(any_touched(rel@, views(before@), views(new@), used));
                return true;
            }
            k = k + 1;
        }
        false
    }

    pub fn active_for(&self, relid: u32, end_lsn: u64) -> (result: bool)
        ensures
            result == is_active(self@, relid, end_lsn),
    {
        self.failed.is_none() && self.stale.is_none() && end_lsn > self.frontier
            && self.relation_index(relid).is_some()
    }

    /// The first column of `relid` the view uses that the decoded relation
    /// no longer provides with the expected type.
    pub fn drift(&self, relid: u32, rel: &Relation) -> (result: Option<String>)
        ensures
            view_of_option(result) == drifted(self@.spec, relid, rel@),
    {
        let index = match self.relation_index(relid) {
            None => return None,
            Some(index) => index,
        };
        let base = &self.spec.relations[index];
        let ghost model = base@;
        assert(self@.spec.relations[index as int] == model);
        let mut k: usize = 0;
        while k < base.used_columns.len() && k < base.used_column_types.len()
            invariant
                model == base@,
                self@.spec.relations[index as int] == model,
                relation_position(self@.spec.relations, relid) == Some(index as int),
                k <= base.used_columns@.len(),
                k <= base.used_column_types@.len(),
                first_drifted(
                    rel@,
                    model.used_columns,
                    model.used_column_types,
                    k as nat,
                ) is None,
            decreases base.used_columns@.len() - k,
        {
            let name = &base.used_columns[k];
            assert(model.used_columns[k as int] == name@);
            assert(model.used_column_types[k as int] == base.used_column_types@[k as int]@);
            if !provides(rel, name, &base.used_column_types[k]) {
                proof {
                    lemma_first_drifted_stays(
                        rel@,
                        model.used_columns,
                        model.used_column_types,
                        (k + 1) as nat,
                        shorter(model.used_columns.len(), model.used_column_types.len()),
                    );
                }
                return Some(
                    "column \"".to_string().concat(name).concat("\" of ").concat(
                        &base.qualified,
                    ).concat(" was dropped, renamed or changed type"),
                );
            }
            k = k + 1;
        }
        None
    }
}

/// The relations that a change touches.
pub open spec fn relids_of(change: ChangeModel) -> Seq<u32> {
    match change {
        ChangeModel::Insert { relid, .. } => seq![relid],
        ChangeModel::Update { relid, .. } => seq![relid],
        ChangeModel::Delete { relid, .. } => seq![relid],
        ChangeModel::Truncate { relids } => relids,
    }
}

pub fn change_relids(change: &Change) -> (result: Vec<u32>)
    ensures
        result@ == relids_of(change@),
{
    match change {
        Change::Insert { relid, .. } => vec![*relid],
        Change::Update { relid, .. } => vec![*relid],
        Change::Delete { relid, .. } => vec![*relid],
        Change::Truncate { relids } => {
            let copy = relids.clone();
            assert(copy@ =~= relids@);
            copy
        },
    }
}

// --- shadows: keys ---------------------------------------------------------------

/// The text at position `i` of an optional row.
pub open spec fn text_at(row: Option<Seq<Cell>>, i: int) -> Option<Seq<char>> {
    match row {
        Some(cells) => if i < cells.len() {
            cell_text(cells[i])
        } else {
            None
        },
        None => None,
    }
}

/// A key value: from the old tuple where it has one, else from the new tuple.
pub open spec fn key_text(before: Option<Seq<Cell>>, after: Option<Seq<Cell>>, i: int) -> Option<
    Seq<char>,
> {
    match text_at(before, i) {
        Some(s) => Some(s),
        None => text_at(after, i),
    }
}

/// The first `n` primary key values of a change, each with its position in the
/// decoded relation.
pub open spec fn keys_of(
    pk_columns: Seq<Seq<char>>,
    rel: RelationModel,
    before: Option<Seq<Cell>>,
    after: Option<Seq<Cell>>,
    n: nat,
) -> Result<Seq<(int, Seq<char>)>, Seq<char>>
    decreases n,
{
    if n == 0 {
        Ok(Seq::empty())
    } else {
        let pk = pk_columns[n - 1];
        match keys_of(pk_columns, rel, before, after, (n - 1) as nat) {
            Err(e) => Err(e),
            Ok(keys) => match index_of(column_names(rel), pk) {
                None => Err(
                    "primary key column "@ + pk + " is missing from the decoded row"@,
                ),
                Some(i) => match key_text(before, after, i) {
                    None => Err(
                        "primary key column "@ + pk + " has no value in the decoded row"@,
                    ),
                    Some(value) => Ok(keys.push((i, value))),
                },
            },
        }
    }
}

proof fn lemma_keys_error_stays(
    pk_columns: Seq<Seq<char>>,
    rel: RelationModel,
    before: Option<Seq<Cell>>,
    after: Option<Seq<Cell>>,
    n: nat,
    m: nat,
)
    requires
        n <= m,
        keys_of(pk_columns, rel, before, after, n) is Err,
    ensures
        keys_of(pk_columns, rel, before, after, m) == keys_of(pk_columns, rel, before, after, n),
    decreases m - n,
{
    if n < m {
        lemma_keys_error_stays(pk_columns, rel, before, after, n, (m - 1) as nat);
    }
}

/// The primary key values of a change.
pub open spec fn change_keys(
    pk_columns: Seq<Seq<char>>,
    rel: RelationModel,
    before: Option<Seq<Cell>>,
    after: Option<Seq<Cell>>,
) -> Result<Seq<(int, Seq<char>)>, Seq<char>> {
    if pk_columns.len() == 0 {
        Err("no primary key columns recorded for the shadow"@)
    } else {
        keys_of(pk_columns, rel, before, after, pk_columns.len())
    }
}

pub open spec fn key_models(keys: Seq<(usize, String)>) -> Seq<(int, Seq<char>)> {
    keys.map_values(|k: (usize, String)| (k.0 as int, k.1@))
}

fn cell_at(row: Option<&Tuple>, i: usize) -> (result: Option<String>)
    ensures
        view_of_option(result) == text_at(tuple_model(row), i as int),
{
    match row {
        Some(cells) => if i < cells.len() {
            match &cells[i] {
                ColumnValue::Text(s) => Some(s.clone()),
                _ => None,
            }
        } else {
            None
        },
        None => None,
    }
}

/// Primary key values of a change, taken from the old key tuple when pgoutput
/// sent one, otherwise from the new tuple (the key did not change).
pub fn key_values(
    pk_columns: &Vec<String>,
    rel: &Relation,
    old: Option<&Tuple>,
    new: Option<&Tuple>,
) -> (result: Result<Vec<(usize, String)>, String>)
    ensures
        match result {
            Ok(keys) => change_keys(
                views(pk_columns@),
                rel@,
                tuple_model(old),
                tuple_model(new),
            ) == Ok::<Seq<(int, Seq<char>)>, Seq<char>>(key_models(keys@)) && keys@.len() == pk_columns@.len() && forall|i: int|
                0 <= i < keys@.len() ==> (#[trigger] keys@[i]).0 < rel.columns@.len(),
            Err(e) => change_keys(
                views(pk_columns@),
                rel@,
                tuple_model(old),
                tuple_model(new),
            ) == Err::<Seq<(int, Seq<char>)>, Seq<char>>(e@),
        },
{
    if pk_columns.len() == 0 {
        return Err("no primary key columns recorded for the shadow".to_string());
    }
    let ghost names = views(pk_columns@);
    let ghost before = tuple_model(old);
    let ghost after = tuple_model(new);
    let mut out: Vec<(usize, String)> = Vec::new();
    let mut i: usize = 0;
    assert(key_models(out@) =~= Seq::empty());
    while i < pk_columns.len()
        invariant
            names == views(pk_columns@),
            before == tuple_model(old),
            after == tuple_model(new),
            i <= pk_columns@.len(),
            pk_columns@.len() > 0,
            out@.len() == i,
            keys_of(names, rel@, before, after, i as nat) == Ok::<
                Seq<(int, Seq<char>)>,
                Seq<char>,
            >(key_models(out@)),
            forall|j: int| 0 <= j < out@.len() ==> (#[trigger] out@[j]).0 < rel.columns@.len(),
        decreases pk_columns@.len() - i,
    {
        let pk = &pk_columns[i];
        assert(names[i as int] == pk@);
        let found: Result<(usize, String), String> = match apply::rel_column_index(rel, pk) {
            None => Err(
                "primary key column ".to_string().concat(pk).concat(
                    " is missing from the decoded row",
                ),
            ),
            Some(idx) => {
                let value = match cell_at(old, idx) {
                    Some(s) => Some(s),
                    None => cell_at(new, idx),
                };
                match value {
                    Some(s) => Ok((idx, s)),
                    None => Err(
                        "primary key column ".to_string().concat(pk).concat(
                            " has no value in the decoded row",
                        ),
                    ),
                }
            },
        };
        match found {
            Ok(key) => {
                let ghost keys = key_models(out@);
                let ghost added = (key.0 as int, key.1@);
                out.push(key);
                assert(key_models(out@) =~= keys.push(added));
            },
            Err(e) => {
                proof {
                    lemma_keys_error_stays(
                        names,
                        rel@,
                        before,
                        after,
                        (i + 1) as nat,
                        names.len(),
                    );
                }
                return Err(e);
            },
        }
        i = i + 1;
    }
    Ok(out)
}

/// The conditions on the first `n` keys.
pub open spec fn conditions_on(
    rel: RelationModel,
    keys: Seq<(int, Seq<char>)>,
    first_param: nat,
    quoting: spec_fn(Seq<char>) -> Seq<char>,
    n: nat,
) -> Result<Seq<Seq<char>>, Seq<char>>
    decreases n,
{
    if n == 0 {
        Ok(Seq::empty())
    } else {
        match conditions_on(rel, keys, first_param, quoting, (n - 1) as nat) {
            Err(e) => Err(e),
            Ok(conds) => {
                let col = rel.columns[keys[n - 1].0];
                match col.resolved_type {
                    None => Err("type not resolved"@),
                    Some(ty) => Ok(
                        conds.push(
                            quoting(col.name) + " = "@ + cast((first_param + n - 1) as nat, ty),
                        ),
                    ),
                }
            },
        }
    }
}

proof fn lemma_conditions_error_stays(
    rel: RelationModel,
    keys: Seq<(int, Seq<char>)>,
    first_param: nat,
    quoting: spec_fn(Seq<char>) -> Seq<char>,
    n: nat,
    m: nat,
)
    requires
        n <= m,
        conditions_on(rel, keys, first_param, quoting, n) is Err,
    ensures
        conditions_on(rel, keys, first_param, quoting, m) == conditions_on(
            rel,
            keys,
            first_param,
            quoting,
            n,
        ),
    decreases m - n,
{
    if n < m {
        lemma_conditions_error_stays(rel, keys, first_param, quoting, n, (m - 1) as nat);
    }
}

/// A WHERE clause on the keys, and the values that it binds.
pub open spec fn predicate_on(
    rel: RelationModel,
    keys: Seq<(int, Seq<char>)>,
    first_param: nat,
    quoting: spec_fn(Seq<char>) -> Seq<char>,
) -> Result<(Seq<char>, Seq<Option<Seq<char>>>), Seq<char>> {
    match conditions_on(rel, keys, first_param, quoting, keys.len()) {
        Err(e) => Err(e),
        Ok(conds) => if conds.len() == 0 {
            Err("empty key predicate"@)
        } else {
            Ok(
                (
                    joined(conds, " AND "@),
                    keys.map_values(|k: (int, Seq<char>)| Some(k.1)),
                ),
            )
        },
    }
}

pub fn key_predicate(
    rel: &Relation,
    keys: &Vec<(usize, String)>,
    first_param: usize,
    quoting: &Quoting,
) -> (result: Result<(String, Vec<Option<String>>), String>)
    requires
        forall|i: int| 0 <= i < keys@.len() ==> (#[trigger] keys@[i]).0 < rel.columns@.len(),
        first_param + keys@.len() <= usize::MAX,
    ensures
        match result {
            Ok((conds, values)) => predicate_on(
                rel@,
                key_models(keys@),
                first_param as nat,
                quoting@,
            ) == Ok::<(Seq<char>, Seq<Option<Seq<char>>>), Seq<char>>(
                (conds@, texts(values@)),
            ),
            Err(e) => predicate_on(rel@, key_models(keys@), first_param as nat, quoting@) == Err::<
                (Seq<char>, Seq<Option<Seq<char>>>),
                Seq<char>,
            >(e@),
        },
{
    let ghost model = rel@;
    let ghost found = key_models(keys@);
    let mut conds: Vec<String> = Vec::new();
    let mut values: Vec<Option<String>> = Vec::new();
    let mut i: usize = 0;
    assert(views(conds@) =~= Seq::empty());
    while i < keys.len()
        invariant
            model == rel@,
            found == key_models(keys@),
            forall|j: int| 0 <= j < keys@.len() ==> (#[trigger] keys@[j]).0 < rel.columns@.len(),
            first_param + keys@.len() <= usize::MAX,
            i <= keys@.len(),
            conditions_on(model, found, first_param as nat, quoting@, i as nat) == Ok::<
                Seq<Seq<char>>,
                Seq<char>,
            >(views(conds@)),
            conds@.len() == i,
            values@.len() == i,
            forall|j: int|
                0 <= j < i ==> view_of_option(#[trigger] values@[j]) == Some(found[j].1),
        decreases keys@.len() - i,
    {
        let idx: usize = keys[i].0;
        assert(found[i as int] == (keys@[i as int].0 as int, keys@[i as int].1@));
        assert(model.columns[idx as int] == rel.columns@[idx as int]@);
        match &rel.columns[idx].resolved_type {
            None => {
                proof {
                    lemma_conditions_error_stays(
                        model,
                        found,
                        first_param as nat,
                        quoting@,
                        (i + 1) as nat,
                        found.len(),
                    );
                }
                return Err("type not resolved".to_string());
            },
            Some(ty) => {
                let ghost before = views(conds@);
                let quoted = quoting.ident(&rel.columns[idx].name);
                let place = "$".to_string().concat(
                    &text::decimal_text((first_param + i) as u64),
                ).concat("::").concat(ty);
                conds.push(quoted.concat(" = ").concat(&place));
                values.push(Some(keys[i].1.clone()));
                assert(views(conds@) =~= before.push(
                    quoting@(model.columns[idx as int].name) + " = "@ + cast(
                        (first_param + i) as nat,
                        ty@,
                    ),
                ));
            },
        }
        i = i + 1;
    }
    if conds.len() == 0 {
        return Err("empty key predicate".to_string());
    }
    assert(texts(values@) =~= found.map_values(|k: (int, Seq<char>)| Some(k.1)));
    Ok((text::join(&conds, " AND "), values))
}

/// A WHERE clause on the primary key of a change.
pub open spec fn key_clause(
    s: ShadowModel,
    rel: RelationModel,
    before: Option<Seq<Cell>>,
    after: Option<Seq<Cell>>,
    quoting: spec_fn(Seq<char>) -> Seq<char>,
) -> Result<(Seq<char>, Seq<Option<Seq<char>>>), Seq<char>> {
    match change_keys(s.pk_columns, rel, before, after) {
        Err(e) => Err(e),
        Ok(keys) => predicate_on(rel, keys, 1, quoting),
    }
}

fn key_condition(
    shadow: &Shadow,
    rel: &Relation,
    old: Option<&Tuple>,
    new: Option<&Tuple>,
    quoting: &Quoting,
) -> (result: Result<(String, Vec<Option<String>>), String>)
    requires
        shadow.pk_columns@.len() < usize::MAX,
    ensures
        match result {
            Ok((conds, values)) => key_clause(
                shadow@,
                rel@,
                tuple_model(old),
                tuple_model(new),
                quoting@,
            ) == Ok::<(Seq<char>, Seq<Option<Seq<char>>>), Seq<char>>(
                (conds@, texts(values@)),
            ),
            Err(e) => key_clause(
                shadow@,
                rel@,
                tuple_model(old),
                tuple_model(new),
                quoting@,
            ) == Err::<(Seq<char>, Seq<Option<Seq<char>>>), Seq<char>>(e@),
        },
{
    let keys = match key_values(&shadow.pk_columns, rel, old, new) {
        Ok(keys) => keys,
        Err(e) => return Err(e),
    };
    key_predicate(rel, &keys, 1, quoting)
}

// --- shadows: rows ---------------------------------------------------------------

/// The positions (in the decoded relation) of the columns among the first `n`
/// that it has.
pub open spec fn column_positions(columns: Seq<Seq<char>>, rel: RelationModel, n: nat) -> Seq<int>
    decreases n,
{
    if n == 0 {
        Seq::empty()
    } else {
        let before = column_positions(columns, rel, (n - 1) as nat);
        match index_of(column_names(rel), columns[n - 1]) {
            Some(i) => before.push(i),
            None => before,
        }
    }
}

pub open spec fn positions(indexes: Seq<usize>) -> Seq<int> {
    indexes.map_values(|i: usize| i as int)
}

/// Indexes (in the decoded relation) of the shadow's active columns.
pub fn shadow_column_indexes(shadow: &Shadow, rel: &Relation) -> (result: Vec<usize>)
    ensures
        positions(result@) == column_positions(shadow@.columns, rel@, shadow@.columns.len()),
        result@.len() <= shadow.columns@.len(),
        forall|i: int| 0 <= i < result@.len() ==> (#[trigger] result@[i]) < rel.columns@.len(),
{
    let ghost names = shadow@.columns;
    let mut out: Vec<usize> = Vec::new();
    let mut k: usize = 0;
    assert(positions(out@) =~= Seq::empty());
    while k < shadow.columns.len()
        invariant
            names == shadow@.columns,
            k <= shadow.columns@.len(),
            out@.len() <= k,
            positions(out@) == column_positions(names, rel@, k as nat),
            forall|i: int| 0 <= i < out@.len() ==> (#[trigger] out@[i]) < rel.columns@.len(),
        decreases shadow.columns@.len() - k,
    {
        assert(names[k as int] == shadow.columns@[k as int]@);
        if let Some(i) = apply::rel_column_index(rel, &shadow.columns[k]) {
            let ghost before = positions(out@);
            out.push(i);
            assert(positions(out@) =~= before.push(i as int));
        }
        k = k + 1;
    }
    out
}

/// The query that reads the old row of a change from the shadow.
pub open spec fn old_row_statement(
    s: ShadowModel,
    rel: RelationModel,
    before: Option<Seq<Cell>>,
    after: Option<Seq<Cell>>,
    quoting: spec_fn(Seq<char>) -> Seq<char>,
) -> Result<StatementModel, Seq<char>> {
    match key_clause(s, rel, before, after, quoting) {
        Err(e) => Err(e),
        Ok((conds, values)) => Ok(
            StatementModel {
                sql: "SELECT "@ + joined(
                    column_positions(s.columns, rel, s.columns.len()).map_values(
                        |i: int| quoting(rel.columns[i].name) + "::text"@,
                    ),
                    ", "@,
                ) + " FROM "@ + s.table + " WHERE "@ + conds,
                args: text_args(values),
            },
        ),
    }
}

/// The query for the full old row of a change, by primary key. It has to see
/// what this very transaction wrote to the shadow (insert then delete of the
/// same row inside one source transaction).
pub fn shadow_old_row(
    shadow: &Shadow,
    rel: &Relation,
    old: Option<&Tuple>,
    new: Option<&Tuple>,
    quoting: &Quoting,
) -> (result: Result<Statement, String>)
    requires
        shadow.pk_columns@.len() < usize::MAX,
    ensures
        match result {
            Ok(statement) => old_row_statement(
                shadow@,
                rel@,
                tuple_model(old),
                tuple_model(new),
                quoting@,
            ) == Ok::<StatementModel, Seq<char>>(statement@),
            Err(e) => old_row_statement(
                shadow@,
                rel@,
                tuple_model(old),
                tuple_model(new),
                quoting@,
            ) == Err::<StatementModel, Seq<char>>(e@),
        },
{
    let (conds, values) = match key_condition(shadow, rel, old, new, quoting) {
        Ok(found) => found,
        Err(e) => return Err(e),
    };
    let indexes = shadow_column_indexes(shadow, rel);
    let ghost places = positions(indexes@);
    let ghost model = rel@;
    let mut cols: Vec<String> = Vec::new();
    let mut i: usize = 0;
    while i < indexes.len()
        invariant
            places == positions(indexes@),
            model == rel@,
            forall|j: int| 0 <= j < indexes@.len() ==> (#[trigger] indexes@[j]) < rel.columns@.len(),
            i <= indexes@.len(),
            cols@.len() == i,
            forall|j: int|
                0 <= j < i ==> (#[trigger] cols@[j])@ == quoting@(model.columns[places[j]].name)
                    + "::text"@,
        decreases indexes@.len() - i,
    {
        let idx: usize = indexes[i];
        assert(model.columns[idx as int] == rel.columns@[idx as int]@);
        cols.push(quoting.ident(&rel.columns[idx].name).concat("::text"));
        i = i + 1;
    }
    assert(views(cols@) =~= places.map_values(
        |i: int| quoting@(model.columns[i].name) + "::text"@,
    ));
    Ok(
        Statement::with_texts(
            "SELECT ".to_string().concat(&text::join(&cols, ", ")).concat(" FROM ").concat(
                &shadow.table,
            ).concat(" WHERE ").concat(&conds),
            &values,
        ),
    )
}

/// A text, or NULL.
pub open spec fn cell_of(value: Option<Seq<char>>) -> Cell {
    match value {
        Some(s) => Cell::Text(s),
        None => Cell::Null,
    }
}

/// A row of `width` values in the decoded relation's column order, with the
/// first `n` values read from the shadow in their places and NULL elsewhere.
pub open spec fn placed(
    width: nat,
    places: Seq<int>,
    values: Seq<Option<Seq<char>>>,
    n: nat,
) -> Seq<Cell>
    decreases n,
{
    if n == 0 {
        Seq::new(width, |i: int| Cell::Null)
    } else {
        placed(width, places, values, (n - 1) as nat).update(
            places[n - 1],
            cell_of(values[n - 1]),
        )
    }
}

/// The old row that the shadow's answer stands for.
pub open spec fn old_row(
    s: ShadowModel,
    rel: RelationModel,
    values: Seq<Option<Seq<char>>>,
) -> Seq<Cell> {
    let places = column_positions(s.columns, rel, s.columns.len());
    placed(rel.columns.len(), places, values, shorter(places.len(), values.len()))
}

proof fn lemma_column_positions(columns: Seq<Seq<char>>, rel: RelationModel, n: nat)
    requires
        n <= columns.len(),
    ensures
        forall|k: int|
            0 <= k < column_positions(columns, rel, n).len() ==> 0 <= (#[trigger] column_positions(
                columns,
                rel,
                n,
            )[k]) < rel.columns.len(),
    decreases n,
{
    if n > 0 {
        lemma_column_positions(columns, rel, (n - 1) as nat);
        text::lemma_index_of(column_names(rel), columns[n - 1]);
        let before = column_positions(columns, rel, (n - 1) as nat);
        let after = column_positions(columns, rel, n);
        assert forall|k: int| 0 <= k < after.len() implies 0 <= #[trigger] after[k]
            < rel.columns.len() by {
            if k < before.len() {
                assert(after[k] == before[k]);
            }
        }
    }
}

proof fn lemma_placed_len(width: nat, places: Seq<int>, values: Seq<Option<Seq<char>>>, n: nat)
    requires
        n <= places.len(),
        forall|k: int| 0 <= k < places.len() ==> 0 <= #[trigger] places[k] < width,
    ensures
        placed(width, places, values, n).len() == width,
    decreases n,
{
    if n > 0 {
        lemma_placed_len(width, places, values, (n - 1) as nat);
    }
}

/// A row read from the shadow has a value for every column of the relation.
pub proof fn law_old_rows_fit(s: ShadowModel, rel: RelationModel, values: Seq<Option<Seq<char>>>)
    ensures
        row_fits(rel, old_row(s, rel, values)),
{
    let places = column_positions(s.columns, rel, s.columns.len());
    lemma_column_positions(s.columns, rel, s.columns.len());
    lemma_placed_len(rel.columns.len(), places, values, shorter(places.len(), values.len()));
}

/// The full old row of a change, as read from the shadow, in the decoded
/// relation's column order (NULL for columns the shadow does not hold).
pub fn place_old_row(shadow: &Shadow, rel: &Relation, values: &Vec<Option<String>>) -> (result:
    Tuple)
    ensures
        views(result@) == old_row(shadow@, rel@, texts(values@)),
{
    let indexes = shadow_column_indexes(shadow, rel);
    let ghost places = positions(indexes@);
    let ghost width = rel@.columns.len();
    let ghost found = texts(values@);
    let mut tuple: Tuple = Vec::new();
    let mut i: usize = 0;
    while i < rel.columns.len()
        invariant
            i <= rel.columns@.len(),
            tuple@.len() == i,
            forall|j: int| 0 <= j < i ==> #[trigger] tuple@[j]@ == Cell::Null,
        decreases rel.columns@.len() - i,
    {
        tuple.push(ColumnValue::Null);
        i = i + 1;
    }
    assert(views(tuple@) =~= placed(width, places, found, 0));
    let mut n: usize = 0;
    while n < indexes.len() && n < values.len()
        invariant
            places == positions(indexes@),
            found == texts(values@),
            width == rel.columns@.len(),
            n <= indexes@.len(),
            n <= values@.len(),
            forall|j: int| 0 <= j < indexes@.len() ==> (#[trigger] indexes@[j]) < rel.columns@.len(),
            tuple@.len() == width,
            views(tuple@) == placed(width, places, found, n as nat),
        decreases indexes@.len() - n,
    {
        let ghost before = views(tuple@);
        let value = match &values[n] {
            Some(s) => ColumnValue::Text(s.clone()),
            None => ColumnValue::Null,
        };
        assert(found[n as int] == view_of_option(values@[n as int]));
        let ghost added = value@;
        assert(places[n as int] == indexes@[n as int]);
        tuple.set(indexes[n], value);
        assert(views(tuple@) =~= before.update(places[n as int], added));
        n = n + 1;
    }
    tuple
}

// --- shadows: maintenance ----------------------------------------------------------

/// The statement that deletes the row of a change from the shadow.
pub open spec fn shadow_delete(
    s: ShadowModel,
    rel: RelationModel,
    before: Option<Seq<Cell>>,
    after: Option<Seq<Cell>>,
    quoting: spec_fn(Seq<char>) -> Seq<char>,
) -> Result<StatementModel, Seq<char>> {
    match key_clause(s, rel, before, after, quoting) {
        Err(e) => Err(e),
        Ok((conds, values)) => Ok(
            StatementModel {
                sql: "DELETE FROM "@ + s.table + " WHERE "@ + conds,
                args: text_args(values),
            },
        ),
    }
}

/// Why a row cannot be inserted at the first `n` places: a column without a
/// resolved type, or one that the row has no value for.
pub open spec fn insert_fault(rel: RelationModel, places: Seq<int>, row: Seq<Cell>, n: nat) -> Option<
    Seq<char>,
>
    decreases n,
{
    if n == 0 {
        None
    } else {
        match insert_fault(rel, places, row, (n - 1) as nat) {
            Some(fault) => Some(fault),
            None => if rel.columns[places[n - 1]].resolved_type is None {
                Some("type not resolved"@)
            } else if places[n - 1] >= row.len() {
                Some(out_of_bounds(row.len(), places[n - 1] as nat))
            } else {
                None
            },
        }
    }
}

proof fn lemma_insert_fault(rel: RelationModel, places: Seq<int>, row: Seq<Cell>, n: nat, m: nat)
    requires
        n <= m,
    ensures
        insert_fault(rel, places, row, n) is Some ==> insert_fault(rel, places, row, m)
            == insert_fault(rel, places, row, n),
    decreases m - n,
{
    if n < m {
        lemma_insert_fault(rel, places, row, n, (m - 1) as nat);
    }
}

/// The statement that inserts a row into the shadow.
pub open spec fn shadow_insert(
    s: ShadowModel,
    rel: RelationModel,
    row: Seq<Cell>,
    quoting: spec_fn(Seq<char>) -> Seq<char>,
) -> Result<StatementModel, Seq<char>> {
    let places = column_positions(s.columns, rel, s.columns.len());
    if places.len() == 0 {
        Err("the shadow has no active column present in the decoded row"@)
    } else if let Some(fault) = insert_fault(rel, places, row, places.len()) {
        Err(fault)
    } else {
        Ok(
            StatementModel {
                sql: "INSERT INTO "@ + s.table + " ("@ + joined(
                    places.map_values(|i: int| quoting(rel.columns[i].name)),
                    ", "@,
                ) + ") VALUES ("@ + joined(
                    Seq::new(
                        places.len(),
                        |k: int| cast((k + 1) as nat, rel.columns[places[k]].resolved_type->0),
                    ),
                    ", "@,
                ) + ")"@,
                args: text_args(places.map_values(|i: int| cell_text(row[i]))),
            },
        )
    }
}

fn delete_from_shadow(
    shadow: &Shadow,
    rel: &Relation,
    old: Option<&Tuple>,
    new: Option<&Tuple>,
    quoting: &Quoting,
) -> (result: Result<Statement, String>)
    requires
        shadow.pk_columns@.len() < usize::MAX,
    ensures
        match result {
            Ok(statement) => shadow_delete(
                shadow@,
                rel@,
                tuple_model(old),
                tuple_model(new),
                quoting@,
            ) == Ok::<StatementModel, Seq<char>>(statement@),
            Err(e) => shadow_delete(
                shadow@,
                rel@,
                tuple_model(old),
                tuple_model(new),
                quoting@,
            ) == Err::<StatementModel, Seq<char>>(e@),
        },
{
    match key_condition(shadow, rel, old, new, quoting) {
        Ok((conds, values)) => Ok(
            Statement::with_texts(
                "DELETE FROM ".to_string().concat(&shadow.table).concat(" WHERE ").concat(&conds),
                &values,
            ),
        ),
        Err(e) => Err(e),
    }
}

fn insert_into_shadow(shadow: &Shadow, rel: &Relation, row: &Tuple, quoting: &Quoting) -> (result:
    Result<Statement, String>)
    requires
        shadow.columns@.len() < usize::MAX,
    ensures
        match result {
            Ok(statement) => shadow_insert(shadow@, rel@, views(row@), quoting@) == Ok::<
                StatementModel,
                Seq<char>,
            >(statement@),
            Err(e) => shadow_insert(shadow@, rel@, views(row@), quoting@) == Err::<
                StatementModel,
                Seq<char>,
            >(e@),
        },
{
    let indexes = shadow_column_indexes(shadow, rel);
    let ghost places = positions(indexes@);
    let ghost model = rel@;
    let ghost cells = views(row@);
    if indexes.len() == 0 {
        return Err("the shadow has no active column present in the decoded row".to_string());
    }
    let mut cols: Vec<String> = Vec::new();
    let mut casts: Vec<String> = Vec::new();
    let mut args: Vec<Option<String>> = Vec::new();
    let mut n: usize = 0;
    while n < indexes.len()
        invariant
            places == positions(indexes@),
            places == column_positions(shadow@.columns, model, shadow@.columns.len()),
            places.len() > 0,
            model == rel@,
            cells == views(row@),
            forall|j: int| 0 <= j < indexes@.len() ==> (#[trigger] indexes@[j]) < rel.columns@.len(),
            n <= indexes@.len() <= shadow.columns@.len() < usize::MAX,
            cols@.len() == n,
            casts@.len() == n,
            args@.len() == n,
            insert_fault(model, places, cells, n as nat) is None,
            forall|j: int|
                0 <= j < n ==> (#[trigger] cols@[j])@ == quoting@(model.columns[places[j]].name),
            forall|j: int|
                0 <= j < n ==> (#[trigger] casts@[j])@ == cast(
                    (j + 1) as nat,
                    model.columns[places[j]].resolved_type->0,
                ),
            forall|j: int|
                0 <= j < n ==> view_of_option(#[trigger] args@[j]) == cell_text(cells[places[j]]),
        decreases indexes@.len() - n,
    {
        let idx: usize = indexes[n];
        assert(places[n as int] == idx);
        assert(model.columns[idx as int] == rel.columns@[idx as int]@);
        let c = &rel.columns[idx];
        let ty = match &c.resolved_type {
            None => {
                proof {
                    lemma_insert_fault(model, places, cells, (n + 1) as nat, places.len());
                }
                return Err("type not resolved".to_string());
            },
            Some(ty) => ty,
        };
        if idx >= row.len() {
            proof {
                lemma_insert_fault(model, places, cells, (n + 1) as nat, places.len());
            }
            return Err(apply::out_of_bounds_text(row.len(), idx));
        }
        assert(cells[idx as int] == row@[idx as int]@);
        cols.push(quoting.ident(&c.name));
        casts.push(
            "$".to_string().concat(&text::decimal_text((n + 1) as u64)).concat("::").concat(ty),
        );
        args.push(
            match &row[idx] {
                ColumnValue::Text(s) => Some(s.clone()),
                _ => None,
            },
        );
        n = n + 1;
    }
    assert(views(cols@) =~= places.map_values(|i: int| quoting@(model.columns[i].name)));
    assert(views(casts@) =~= Seq::new(
        places.len(),
        |k: int| cast((k + 1) as nat, model.columns[places[k]].resolved_type->0),
    ));
    assert(texts(args@) =~= places.map_values(|i: int| cell_text(cells[i])));
    Ok(
        Statement::with_texts(
            "INSERT INTO ".to_string().concat(&shadow.table).concat(" (").concat(
                &text::join(&cols, ", "),
            ).concat(") VALUES (").concat(&text::join(&casts, ", ")).concat(")"),
            &args,
        ),
    )
}

/// The maintenance of a shadow for one change: statements to run, and why it
/// fails behind them, if it does.
#[derive(Debug, PartialEq, Eq)]
pub struct ShadowPlan {
    pub statements: Vec<Statement>,
    pub failure: Option<String>,
}

pub struct ShadowPlanModel {
    pub statements: Seq<StatementModel>,
    pub failure: Option<Seq<char>>,
}

impl View for ShadowPlan {
    type V = ShadowPlanModel;

    open spec fn view(&self) -> ShadowPlanModel {
        ShadowPlanModel {
            statements: views(self.statements@),
            failure: view_of_option(self.failure),
        }
    }
}

/// One more statement behind others, or why there is none.
pub open spec fn then_statement(
    statements: Seq<StatementModel>,
    next: Result<StatementModel, Seq<char>>,
) -> ShadowPlanModel {
    match next {
        Ok(statement) => ShadowPlanModel { statements: statements.push(statement), failure: None },
        Err(e) => ShadowPlanModel { statements, failure: Some(e) },
    }
}

pub open spec fn insert_new(
    s: ShadowModel,
    rel: RelationModel,
    new_full: Option<Seq<Cell>>,
    quoting: spec_fn(Seq<char>) -> Seq<char>,
) -> Result<StatementModel, Seq<char>> {
    match new_full {
        None => Err("missing new row"@),
        Some(row) => shadow_insert(s, rel, row, quoting),
    }
}

/// The old row of an update as the change itself carries it.
pub open spec fn carried(before: Option<(u8, Seq<Cell>)>) -> Option<Seq<Cell>> {
    match before {
        Some((kind, row)) => Some(row),
        None => None,
    }
}

/// The maintenance of a shadow: insert, delete by key, or delete + insert,
/// touching only the shadow's active columns (by name).
pub open spec fn shadow_plan(
    s: ShadowModel,
    rel: RelationModel,
    change: ChangeModel,
    old_full: Option<Seq<Cell>>,
    new_full: Option<Seq<Cell>>,
    quoting: spec_fn(Seq<char>) -> Seq<char>,
) -> ShadowPlanModel {
    match change {
        ChangeModel::Insert { .. } => then_statement(
            Seq::empty(),
            insert_new(s, rel, new_full, quoting),
        ),
        ChangeModel::Delete { relid, key_kind, old: row } => then_statement(
            Seq::empty(),
            shadow_delete(s, rel, Some(row), None, quoting),
        ),
        ChangeModel::Update { relid, old: before, new } => {
            let row = if old_full is Some {
                old_full
            } else {
                carried(before)
            };
            let first = then_statement(
                Seq::empty(),
                shadow_delete(s, rel, row, Some(new), quoting),
            );
            if first.failure is Some {
                first
            } else {
                then_statement(first.statements, insert_new(s, rel, new_full, quoting))
            }
        },
        ChangeModel::Truncate { .. } => ShadowPlanModel {
            statements: Seq::empty(),
            failure: None,
        },
    }
}

fn insert_new_row(shadow: &Shadow, rel: &Relation, new_full: Option<&Tuple>, quoting: &Quoting) -> (result:
    Result<Statement, String>)
    requires
        shadow.columns@.len() < usize::MAX,
    ensures
        match result {
            Ok(statement) => insert_new(shadow@, rel@, tuple_model(new_full), quoting@) == Ok::<
                StatementModel,
                Seq<char>,
            >(statement@),
            Err(e) => insert_new(shadow@, rel@, tuple_model(new_full), quoting@) == Err::<
                StatementModel,
                Seq<char>,
            >(e@),
        },
{
    match new_full {
        None => Err("missing new row".to_string()),
        Some(row) => insert_into_shadow(shadow, rel, row, quoting),
    }
}

fn push_statement(statements: Vec<Statement>, next: Result<Statement, String>) -> (result:
    ShadowPlan)
    ensures
        match next {
            Ok(statement) => result@ == then_statement(
                views(statements@),
                Ok::<StatementModel, Seq<char>>(statement@),
            ),
            Err(e) => result@ == then_statement(
                views(statements@),
                Err::<StatementModel, Seq<char>>(e@),
            ),
        },
{
    let mut all = statements;
    match next {
        Ok(statement) => {
            let ghost before = views(all@);
            let ghost added = statement@;
            all.push(statement);
            assert(views(all@) =~= before.push(added));
            ShadowPlan { statements: all, failure: None }
        },
        Err(e) => ShadowPlan { statements: all, failure: Some(e) },
    }
}

/// Apply a change to the shadow: insert, delete by key, or delete + insert,
/// touching only the shadow's active columns (by name).
pub fn shadow_apply(
    shadow: &Shadow,
    rel: &Relation,
    change: &Change,
    old_full: Option<&Tuple>,
    new_full: Option<&Tuple>,
    quoting: &Quoting,
) -> (result: ShadowPlan)
    requires
        shadow.columns@.len() < usize::MAX,
        shadow.pk_columns@.len() < usize::MAX,
    ensures
        result@ == shadow_plan(
            shadow@,
            rel@,
            change@,
            tuple_model(old_full),
            tuple_model(new_full),
            quoting@,
        ),
{
    let none: Vec<Statement> = Vec::new();
    assert(views(none@) =~= Seq::empty());
    match change {
        Change::Insert { .. } => push_statement(
            none,
            insert_new_row(shadow, rel, new_full, quoting),
        ),
        Change::Delete { old, .. } => push_statement(
            none,
            delete_from_shadow(shadow, rel, Some(old), None, quoting),
        ),
        Change::Update { old, new, .. } => {
            let row: Option<&Tuple> = match old_full {
                Some(row) => Some(row),
                None => match old {
                    Some(before) => Some(&before.1),
                    None => None,
                },
            };
            let first = push_statement(
                none,
                delete_from_shadow(shadow, rel, row, Some(new), quoting),
            );
            if first.failure.is_some() {
                return first;
            }
            push_statement(first.statements, insert_new_row(shadow, rel, new_full, quoting))
        },
        Change::Truncate { .. } => ShadowPlan { statements: none, failure: None },
    }
}

// --- shadows: drift and failure ------------------------------------------------------

/// The columns among the first `n` that the decoded relation does not provide
/// as expected.
pub open spec fn drifted_columns(
    rel: RelationModel,
    names: Seq<Seq<char>>,
    types: Seq<Seq<char>>,
    n: nat,
) -> Seq<Seq<char>>
    decreases n,
{
    if n == 0 {
        Seq::empty()
    } else {
        let before = drifted_columns(rel, names, types, (n - 1) as nat);
        if provided(rel, names[n - 1], types[n - 1]) {
            before
        } else {
            before.push(names[n - 1])
        }
    }
}

/// The positions among the first `n` of the columns that are not in `gone`.
pub open spec fn kept_positions(names: Seq<Seq<char>>, gone: Seq<Seq<char>>, n: nat) -> Seq<int>
    decreases n,
{
    if n == 0 {
        Seq::empty()
    } else {
        let before = kept_positions(names, gone, (n - 1) as nat);
        if gone.contains(names[n - 1]) {
            before
        } else {
            before.push(n - 1)
        }
    }
}

/// A shadow that can no longer be maintained, and the statement that records it.
pub open spec fn shadow_failed(s: ShadowModel, message: Seq<char>) -> (
    ShadowModel,
    StatementModel,
) {
    (
        ShadowModel { failed: true, ..s },
        StatementModel {
            sql: "UPDATE nabla.shadows SET stale_reason = $2, failed = true WHERE relid = $1::oid"@,
            args: seq![
                ArgModel::Int8(s.relid as i64),
                ArgModel::Text(
                    Some("shadow "@ + s.table + " could not be maintained: "@ + message),
                ),
            ],
        },
    )
}

/// A shadow next to the decoded relation: the columns that disappeared or
/// changed type leave the active set, unless a primary key column is among
/// them, which makes the shadow unmaintainable. The statement records it.
pub open spec fn shadow_drifted(s: ShadowModel, rel: RelationModel, qualified: Seq<char>) -> (
    ShadowModel,
    Option<StatementModel>,
) {
    let n = shorter(s.columns.len(), s.column_types.len());
    let gone = drifted_columns(rel, s.columns, s.column_types, n);
    let reason = joined(
        gone.map_values(|c: Seq<char>| drift_reason(c, qualified)),
        "; "@,
    );
    if gone.len() == 0 {
        (s, None)
    } else if exists|i: int| 0 <= i < gone.len() && s.pk_columns.contains(#[trigger] gone[i]) {
        let (failed, statement) = shadow_failed(s, reason);
        (failed, Some(statement))
    } else {
        let kept = kept_positions(s.columns, gone, n);
        let names = kept.map_values(|i: int| s.columns[i]);
        let types = kept.map_values(|i: int| s.column_types[i]);
        (
            ShadowModel { columns: names, column_types: types, ..s },
            Some(
                StatementModel {
                    sql: "UPDATE nabla.shadows SET columns = $2, column_types = $3, stale_reason = $4 WHERE relid = $1::oid"@,
                    args: seq![
                        ArgModel::Int8(s.relid as i64),
                        ArgModel::Texts(names),
                        ArgModel::Texts(types),
                        ArgModel::Text(Some(reason)),
                    ],
                },
            ),
        )
    }
}

/// What the operator is told of a failed shadow.
pub open spec fn shadow_failed_notice(s: ShadowModel, message: Seq<char>) -> NoticeModel {
    warning(
        "nabla worker: "@ + ("shadow "@ + s.table + " could not be maintained: "@ + message),
    )
}

/// What the operator is told of a drifted shadow.
pub open spec fn drift_notice(s: ShadowModel, rel: RelationModel, qualified: Seq<char>) -> Option<
    NoticeModel,
> {
    let n = shorter(s.columns.len(), s.column_types.len());
    let gone = drifted_columns(rel, s.columns, s.column_types, n);
    let reason = joined(
        gone.map_values(|c: Seq<char>| drift_reason(c, qualified)),
        "; "@,
    );
    if gone.len() == 0 {
        None
    } else if exists|i: int| 0 <= i < gone.len() && s.pk_columns.contains(#[trigger] gone[i]) {
        Some(shadow_failed_notice(s, reason))
    } else {
        Some(warning("nabla worker: shadow "@ + s.table + " no longer carries: "@ + reason))
    }
}

pub fn record_shadow_failure(shadow: &mut Shadow, message: &str) -> (result: (Statement, Notice))
    ensures
        (final(shadow)@, result.0@) == shadow_failed(old(shadow)@, message@),
        result.1@ == shadow_failed_notice(old(shadow)@, message@),
        final(shadow).columns@.len() == old(shadow).columns@.len(),
        final(shadow).pk_columns@.len() == old(shadow).pk_columns@.len(),
{
    let ghost before = shadow@;
    shadow.failed = true;
    let reason = "shadow ".to_string().concat(&shadow.table).concat(
        " could not be maintained: ",
    ).concat(message);
    let notice = Notice::warning("nabla worker: ".to_string().concat(&reason));
    let statement = Statement {
        sql: "UPDATE nabla.shadows SET stale_reason = $2, failed = true WHERE relid = $1::oid".to_string(),
        args: vec![oid_arg(shadow.relid), Arg::Text(Some(reason))],
    };
    assert(statement@.args =~= shadow_failed(before, message@).1.args);
    (statement, notice)
}

fn find_drifted(shadow: &Shadow, rel: &Relation) -> (result: Vec<String>)
    ensures
        views(result@) == drifted_columns(
            rel@,
            shadow@.columns,
            shadow@.column_types,
            shorter(shadow@.columns.len(), shadow@.column_types.len()),
        ),
{
    let ghost names = shadow@.columns;
    let ghost types = shadow@.column_types;
    let mut out: Vec<String> = Vec::new();
    let mut k: usize = 0;
    assert(views(out@) =~= Seq::empty());
    while k < shadow.columns.len() && k < shadow.column_types.len()
        invariant
            names == shadow@.columns,
            types == shadow@.column_types,
            k <= shadow.columns@.len(),
            k <= shadow.column_types@.len(),
            views(out@) == drifted_columns(rel@, names, types, k as nat),
        decreases shadow.columns@.len() - k,
    {
        assert(names[k as int] == shadow.columns@[k as int]@);
        assert(types[k as int] == shadow.column_types@[k as int]@);
        if !provides(rel, &shadow.columns[k], &shadow.column_types[k]) {
            let ghost before = views(out@);
            out.push(shadow.columns[k].clone());
            assert(views(out@) =~= before.push(names[k as int]));
        }
        k = k + 1;
    }
    out
}

fn any_contained(names: &Vec<String>, set: &Vec<String>) -> (result: bool)
    ensures
        result == exists|i: int|
            0 <= i < views(names@).len() && views(set@).contains(#[trigger] views(names@)[i]),
{
    let ghost all = views(names@);
    let mut i: usize = 0;
    while i < names.len()
        invariant
            all == views(names@),
            i <= names@.len(),
            forall|j: int| 0 <= j < i ==> !views(set@).contains(#[trigger] all[j]),
        decreases names@.len() - i,
    {
        assert(all[i as int] == names@[i as int]@);
        if text::contains(set, &names[i]) {
            return true;
        }
        i = i + 1;
    }
    false
}

/// Compare the decoded relation with the shadow's active columns. The columns
/// that disappeared or changed type are removed from the active set unless a
/// primary key column is among them, which makes the shadow unmaintainable.
/// Returns what records it.
pub fn shadow_drift(shadow: &mut Shadow, rel: &Relation, qualified: &str) -> (result: Option<
    (Statement, Notice),
>)
    ensures
        match result {
            Some((statement, notice)) => (final(shadow)@, Some(statement@)) == shadow_drifted(
                old(shadow)@,
                rel@,
                qualified@,
            ) && drift_notice(old(shadow)@, rel@, qualified@) == Some(notice@),
            None => (final(shadow)@, None::<StatementModel>) == shadow_drifted(
                old(shadow)@,
                rel@,
                qualified@,
            ) && drift_notice(old(shadow)@, rel@, qualified@) is None,
        },
        final(shadow).columns@.len() <= old(shadow).columns@.len(),
        final(shadow).pk_columns@.len() == old(shadow).pk_columns@.len(),
{
    let ghost s = shadow@;
    let drifted = find_drifted(shadow, rel);
    let ghost gone = views(drifted@);
    if drifted.len() == 0 {
        return None;
    }
    let mut reasons: Vec<String> = Vec::new();
    let mut i: usize = 0;
    while i < drifted.len()
        invariant
            gone == views(drifted@),
            i <= drifted@.len(),
            reasons@.len() == i,
            forall|j: int|
                0 <= j < i ==> (#[trigger] reasons@[j])@ == drift_reason(gone[j], qualified@),
        decreases drifted@.len() - i,
    {
        reasons.push(
            "column \"".to_string().concat(&drifted[i]).concat("\" of ").concat(qualified).concat(
                " was dropped, renamed or changed type",
            ),
        );
        i = i + 1;
    }
    assert(views(reasons@) =~= gone.map_values(|c: Seq<char>| drift_reason(c, qualified@)));
    let reason = text::join(&reasons, "; ");
    if any_contained(&drifted, &shadow.pk_columns) {
        return Some(record_shadow_failure(shadow, &reason));
    }
    let mut names: Vec<String> = Vec::new();
    let mut types: Vec<String> = Vec::new();
    let ghost mut kept: Seq<int> = Seq::empty();
    let mut k: usize = 0;
    while k < shadow.columns.len() && k < shadow.column_types.len()
        invariant
            s == shadow@,
            gone == views(drifted@),
            k <= shadow.columns@.len(),
            k <= shadow.column_types@.len(),
            kept == kept_positions(s.columns, gone, k as nat),
            names@.len() == kept.len(),
            types@.len() == kept.len(),
            kept.len() <= k,
            forall|j: int| 0 <= j < kept.len() ==> (#[trigger] names@[j])@ == s.columns[kept[j]],
            forall|j: int|
                0 <= j < kept.len() ==> (#[trigger] types@[j])@ == s.column_types[kept[j]],
        decreases shadow.columns@.len() - k,
    {
        assert(s.columns[k as int] == shadow.columns@[k as int]@);
        assert(s.column_types[k as int] == shadow.column_types@[k as int]@);
        if !text::contains(&drifted, &shadow.columns[k]) {
            names.push(shadow.columns[k].clone());
            types.push(shadow.column_types[k].clone());
            proof {
                kept = kept.push(k as int);
            }
        }
        k = k + 1;
    }
    assert(views(names@) =~= kept.map_values(|i: int| s.columns[i]));
    assert(views(types@) =~= kept.map_values(|i: int| s.column_types[i]));
    let names_arg = names.clone();
    let types_arg = types.clone();
    assert(names_arg@ =~= names@);
    assert(types_arg@ =~= types@);
    shadow.columns = names;
    shadow.column_types = types;
    let notice = Notice::warning(
        "nabla worker: shadow ".to_string().concat(&shadow.table).concat(
            " no longer carries: ",
        ).concat(&reason),
    );
    let statement = Statement {
        sql: "UPDATE nabla.shadows SET columns = $2, column_types = $3, stale_reason = $4 WHERE relid = $1::oid".to_string(),
        args: vec![
            oid_arg(shadow.relid),
            Arg::Texts(names_arg),
            Arg::Texts(types_arg),
            Arg::Text(Some(reason)),
        ],
    };
    assert(statement@.args =~= shadow_drifted(s, rel@, qualified@).1->0.args);
    Some((statement, notice))
}

// --- catalog bookkeeping -------------------------------------------------------------

/// The statement that records that a view can no longer be maintained.
pub open spec fn stale_statement(id: i32, reason: Seq<char>) -> StatementModel {
    StatementModel {
        sql: "UPDATE nabla.views SET status = 'stale', stale_reason = $2 WHERE id = $1"@,
        args: seq![ArgModel::Int4(id), ArgModel::Text(Some(reason))],
    }
}

/// What the operator is told of a view that goes stale.
pub open spec fn stale_notice(name: Seq<char>, reason: Seq<char>) -> NoticeModel {
    warning("nabla worker: view "@ + name + " marked stale: "@ + reason)
}

fn tell_stale(name: &str, reason: &str) -> (result: Notice)
    ensures
        result@ == stale_notice(name@, reason@),
{
    Notice::warning(
        "nabla worker: view ".to_string().concat(name).concat(" marked stale: ").concat(reason),
    )
}

pub fn mark_stale(view: &LiveView, reason: &str) -> (result: (Statement, Notice))
    ensures
        result.0@ == stale_statement(view.id, reason@),
        result.1@ == stale_notice(view.name@, reason@),
{
    let s = Statement {
        sql: "UPDATE nabla.views SET status = 'stale', stale_reason = $2 WHERE id = $1".to_string(),
        args: vec![Arg::Int4(view.id), text_arg(reason)],
    };
    assert(s@.args =~= stale_statement(view.id, reason@).args);
    (s, tell_stale(&view.name, reason))
}

/// At least one failure is allowed.
pub open spec fn failures_allowed(max_apply_failures: i32) -> i32 {
    if max_apply_failures < 1 {
        1
    } else {
        max_apply_failures
    }
}

pub open spec fn given_up(failures: int, message: Seq<char>) -> Seq<char> {
    "apply failed "@ + signed_decimal(failures) + " times: "@ + message
}

/// A view that failed once more to apply a transaction: it is given up when
/// that was once too often. The statement records it.
pub open spec fn failed_once_more(v: LiveModel, message: Seq<char>, max_apply_failures: i32) -> (
    LiveModel,
    StatementModel,
) {
    let failures = (v.apply_failures + 1) as i32;
    let counted = LiveModel { apply_failures: failures, ..v };
    if failures >= failures_allowed(max_apply_failures) {
        let reason = given_up(failures as int, message);
        (
            LiveModel { stale: Some(reason), ..counted },
            StatementModel {
                sql: "UPDATE nabla.views SET status = 'stale', stale_reason = $2, apply_failures = $3, last_error = $4, last_error_at = now() WHERE id = $1"@,
                args: seq![
                    ArgModel::Int4(v.id),
                    ArgModel::Text(Some(reason)),
                    ArgModel::Int4(failures),
                    ArgModel::Text(Some(message)),
                ],
            },
        )
    } else {
        (
            counted,
            StatementModel {
                sql: "UPDATE nabla.views SET apply_failures = $2, last_error = $3, last_error_at = now() WHERE id = $1"@,
                args: seq![
                    ArgModel::Int4(v.id),
                    ArgModel::Int4(failures),
                    ArgModel::Text(Some(message)),
                ],
            },
        )
    }
}

/// What the operator is told of a view that failed once more.
pub open spec fn failure_notice(
    v: LiveModel,
    end_lsn: u64,
    message: Seq<char>,
    max_apply_failures: i32,
) -> NoticeModel {
    let failures = v.apply_failures + 1;
    let max = failures_allowed(max_apply_failures);
    if failures >= max {
        stale_notice(v.name, given_up(failures, message))
    } else {
        NoticeModel {
            level: Level::Log,
            text: "nabla worker: view "@ + v.name + " failed to apply the transaction ending at "@
                + lsn::formatted(end_lsn) + " (attempt "@ + signed_decimal(failures) + " of "@
                + signed_decimal(max as int) + "): "@ + message,
        }
    }
}

/// Record a failed apply. Returns true when the view is still live (and the
/// transaction must be retried), false when it just went stale.
pub fn record_failure(
    view: &mut LiveView,
    end_lsn: u64,
    message: &str,
    max_apply_failures: i32,
) -> (result: (bool, Statement, Notice))
    requires
        old(view).apply_failures < i32::MAX,
    ensures
        (final(view)@, result.1@) == failed_once_more(old(view)@, message@, max_apply_failures),
        result.0 == (old(view).apply_failures + 1 < failures_allowed(max_apply_failures)),
        result.2@ == failure_notice(old(view)@, end_lsn, message@, max_apply_failures),
{
    let ghost v = view@;
    let max: i32 = if max_apply_failures < 1 {
        1
    } else {
        max_apply_failures
    };
    let failures: i32 = view.apply_failures + 1;
    view.apply_failures = failures;
    if failures >= max {
        let reason = "apply failed ".to_string().concat(&text::signed_text(failures as i64)).concat(
            " times: ",
        ).concat(message);
        let statement = Statement {
            sql: "UPDATE nabla.views SET status = 'stale', stale_reason = $2, apply_failures = $3, last_error = $4, last_error_at = now() WHERE id = $1".to_string(),
            args: vec![
                Arg::Int4(view.id),
                text_arg(&reason),
                Arg::Int4(failures),
                text_arg(message),
            ],
        };
        let notice = tell_stale(&view.name, &reason);
        view.stale = Some(reason);
        assert(statement@.args =~= failed_once_more(v, message@, max_apply_failures).1.args);
        return (false, statement, notice);
    }
    let statement = Statement {
        sql: "UPDATE nabla.views SET apply_failures = $2, last_error = $3, last_error_at = now() WHERE id = $1".to_string(),
        args: vec![Arg::Int4(view.id), Arg::Int4(failures), text_arg(message)],
    };
    assert(statement@.args =~= failed_once_more(v, message@, max_apply_failures).1.args);
    let notice = Notice {
        level: Level::Log,
        text: "nabla worker: view ".to_string().concat(&view.name).concat(
            " failed to apply the transaction ending at ",
        ).concat(&lsn::format(end_lsn)).concat(" (attempt ").concat(
            &text::signed_text(failures as i64),
        ).concat(" of ").concat(&text::signed_text(max as i64)).concat("): ").concat(message),
    };
    (true, statement, notice)
}

/// A view whose shadow could not be maintained.
pub open spec fn without_shadow(
    v: LiveModel,
    relid: u32,
    rel: RelationModel,
    message: Seq<char>,
) -> LiveModel {
    if v.spec.relations.len() > 1 && relation_position(v.spec.relations, relid) is Some && v.stale
        is None && !v.dead {
        LiveModel {
            stale: Some(
                "shadow of "@ + rel.name + " could not be maintained: "@ + message,
            ),
            ..v
        }
    } else {
        v
    }
}

pub fn record_shadow_failure_for_view(
    view: &mut LiveView,
    relid: u32,
    rel: &Relation,
    message: &str,
)
    ensures
        final(view)@ == without_shadow(old(view)@, relid, rel@, message@),
{
    if view.spec.is_join() && view.relation_index(relid).is_some() && view.stale.is_none()
        && !view.dead {
        view.stale = Some(
            "shadow of ".to_string().concat(&rel.name).concat(
                " could not be maintained: ",
            ).concat(message),
        );
    }
}

/// The text of an error report: its message, with the detail in brackets where
/// there is one, on one line.
pub open spec fn described(message: Seq<char>, detail: Option<Seq<char>>) -> Seq<char> {
    match detail {
        Some(d) => message + " ("@ + one_line(d) + ")"@,
        None => message,
    }
}

/// A text with a space for every line break.
pub open spec fn one_line(text: Seq<char>) -> Seq<char> {
    text.map_values(
        |c: char|
            if c == '\n' {
                ' '
            } else {
                c
            },
    )
}

pub fn describe(message: &str, detail: Option<&str>) -> (result: String)
    ensures
        result@ == described(message@, view_of_option(detail)),
{
    match detail {
        None => message.to_string(),
        Some(d) => {
            let chars = text::chars_of(d);
            let mut line = String::new();
            let mut i: usize = 0;
            while i < chars.len()
                invariant
                    i <= chars@.len(),
                    line@ == one_line(chars@.take(i as int)),
                decreases chars@.len() - i,
            {
                let c = chars[i];
                line.push(
                    if c == '\n' {
                        ' '
                    } else {
                        c
                    },
                );
                i = i + 1;
                assert(line@ =~= one_line(chars@.take(i as int)));
            }
            assert(chars@.take(i as int) =~= chars@);
            message.to_string().concat(" (").concat(&line).concat(")")
        },
    }
}

// --- planning one change for one view --------------------------------------------------

/// Whether a definition mentions a column, whatever the case of its letters.
pub open spec fn mentions(definition: Seq<char>) -> spec_fn(Seq<char>) -> bool {
    |column: Seq<char>| text::occurs(text::lowercased(definition), text::lowercased(column))
}

pub open spec fn truncated() -> PlanModel {
    plan_nothing(
        EndModel::Stale(
            "base table was truncated; TRUNCATE is not maintained incrementally"@,
        ),
    )
}

pub open spec fn no_old_row(rel: RelationModel) -> PlanModel {
    plan_nothing(
        EndModel::Stale(
            "old row of "@ + rel.name + " unavailable (its shadow is ahead of the view)"@,
        ),
    )
}

/// The plan for a new row of relation `index` of a join view.
pub open spec fn join_new_row(
    v: LiveModel,
    index: int,
    rel: RelationModel,
    new: Seq<Cell>,
    before: Option<Seq<Cell>>,
    quoting: spec_fn(Seq<char>) -> Seq<char>,
) -> PlanModel {
    match resolved_row(rel, new, before, mentions(v.definition)) {
        Err(end) => plan_nothing(end),
        Ok(row) => join_rows(v.spec, index, rel, row, 1, quoting),
    }
}

/// The plan for a new row of the base table of a single-table view.
pub open spec fn single_new_row(
    v: LiveModel,
    rel: RelationModel,
    new: Seq<Cell>,
    before: Option<Seq<Cell>>,
    quoting: spec_fn(Seq<char>) -> Seq<char>,
) -> PlanModel {
    match resolved_row(rel, new, before, mentions(v.definition)) {
        Err(end) => plan_nothing(end),
        Ok(row) => single_rows(v.spec, rel, row, 1, quoting),
    }
}

/// The plan of one change for a join view.
pub open spec fn join_change(
    v: LiveModel,
    rel: RelationModel,
    change: ChangeModel,
    old_full: Option<Seq<Cell>>,
    quoting: spec_fn(Seq<char>) -> Seq<char>,
) -> PlanModel {
    match relation_position(v.spec.relations, rel.id) {
        None => plan_nothing(EndModel::Failed("view does not use this relation"@)),
        Some(index) => match change {
            ChangeModel::Insert { relid, new } => join_new_row(v, index, rel, new, None, quoting),
            ChangeModel::Delete { .. } => match old_full {
                None => no_old_row(rel),
                Some(row) => join_rows(v.spec, index, rel, row, (-1) as i32, quoting),
            },
            ChangeModel::Update { relid, old: before, new } => match old_full {
                None => no_old_row(rel),
                Some(row) => if !touches(v.spec, rel.id, rel, Some(row), new) {
                    plan_nothing(EndModel::Done)
                } else {
                    followed_by(
                        join_rows(v.spec, index, rel, row, (-1) as i32, quoting),
                        join_new_row(v, index, rel, new, Some(row), quoting),
                    )
                },
            },
            ChangeModel::Truncate { .. } => truncated(),
        },
    }
}

/// The plan of one change for a single-table view. Without an old tuple the
/// key is unchanged: it is taken from the new row.
pub open spec fn single_change(
    v: LiveModel,
    rel: RelationModel,
    change: ChangeModel,
    quoting: spec_fn(Seq<char>) -> Seq<char>,
) -> PlanModel {
    match change {
        ChangeModel::Insert { relid, new } => single_new_row(v, rel, new, None, quoting),
        ChangeModel::Delete { relid, key_kind, old: row } => single_delete(
            v.spec,
            rel,
            key_kind,
            row,
            quoting,
        ),
        ChangeModel::Update { relid, old: before, new } => {
            let only_unused = match before {
                Some((kind, full)) => kind == FULL_OLD_TUPLE && !touches(
                    v.spec,
                    rel.id,
                    rel,
                    Some(full),
                    new,
                ),
                None => false,
            };
            let (key_kind, row) = match before {
                Some((kind, row)) => (kind, row),
                None => (TAG_KEY, new),
            };
            if only_unused {
                plan_nothing(EndModel::Done)
            } else {
                followed_by(
                    single_delete(v.spec, rel, key_kind, row, quoting),
                    single_new_row(v, rel, new, carried(before), quoting),
                )
            }
        },
        ChangeModel::Truncate { .. } => truncated(),
    }
}

/// The plan of one change for one view. `old_full` is the complete old row
/// when it came from a shadow.
pub open spec fn planned_change(
    v: LiveModel,
    rel: RelationModel,
    change: ChangeModel,
    old_full: Option<Seq<Cell>>,
    quoting: spec_fn(Seq<char>) -> Seq<char>,
) -> PlanModel {
    if v.spec.relations.len() > 1 {
        join_change(v, rel, change, old_full, quoting)
    } else {
        single_change(v, rel, change, quoting)
    }
}

/// A new row with its unchanged values resolved, as the definition needs them.
fn resolve_for(view: &LiveView, rel: &Relation, new: &Tuple, old: Option<&Tuple>) -> (result:
    Result<Tuple, PlanEnd>)
    ensures
        match result {
            Ok(row) => resolved_row(
                rel@,
                views(new@),
                tuple_model(old),
                mentions(view@.definition),
            ) == Ok::<Seq<Cell>, EndModel>(views(row@)),
            Err(end) => resolved_row(
                rel@,
                views(new@),
                tuple_model(old),
                mentions(view@.definition),
            ) == Err::<Seq<Cell>, EndModel>(end@),
        },
{
    let definition = text::to_lowercase(&view.definition);
    let mentioned = |column: &str| -> (found: bool)
        ensures
            found == text::occurs(definition@, text::lowercased(column@)),
        {
            let lower = text::to_lowercase(column);
            text::contains_text(&definition, &lower)
        };
    assert(apply::computes(mentioned, mentions(view@.definition)));
    apply::resolve_row(rel, new, old, mentioned)
}

fn plan_join_new(
    view: &LiveView,
    index: usize,
    rel: &Relation,
    new: &Tuple,
    old: Option<&Tuple>,
    quoting: &Quoting,
) -> (result: Plan)
    requires
        rel.columns@.len() < usize::MAX,
        index < view.spec.relations@.len(),
    ensures
        result@ == join_new_row(
            view@,
            index as int,
            rel@,
            views(new@),
            tuple_model(old),
            quoting@,
        ),
{
    let target = ViewTarget { name: view.storage.as_str(), spec: &view.spec };
    match resolve_for(view, rel, new, old) {
        Err(end) => Plan::nothing(end),
        Ok(row) => apply::plan_join(&target, index, rel, &row, 1, quoting),
    }
}

fn plan_single_new(
    view: &LiveView,
    rel: &Relation,
    new: &Tuple,
    old: Option<&Tuple>,
    quoting: &Quoting,
) -> (result: Plan)
    requires
        rel.columns@.len() < usize::MAX,
    ensures
        result@ == single_new_row(view@, rel@, views(new@), tuple_model(old), quoting@),
{
    let target = ViewTarget { name: view.storage.as_str(), spec: &view.spec };
    match resolve_for(view, rel, new, old) {
        Err(end) => Plan::nothing(end),
        Ok(row) => apply::plan_single_insert(&target, rel, &row, quoting),
    }
}

fn plan_truncated() -> (result: Plan)
    ensures
        result@ == truncated(),
{
    Plan::nothing(
        PlanEnd::Stale(
            Stale(
                "base table was truncated; TRUNCATE is not maintained incrementally".to_string(),
            ),
        ),
    )
}

fn plan_no_old_row(rel: &Relation) -> (result: Plan)
    ensures
        result@ == no_old_row(rel@),
{
    Plan::nothing(
        PlanEnd::Stale(
            Stale(
                "old row of ".to_string().concat(&rel.name).concat(
                    " unavailable (its shadow is ahead of the view)",
                ),
            ),
        ),
    )
}

fn plan_join_change(
    view: &LiveView,
    rel: &Relation,
    change: &Change,
    old_full: Option<&Tuple>,
    quoting: &Quoting,
) -> (result: Plan)
    requires
        rel.columns@.len() < usize::MAX,
    ensures
        result@ == join_change(view@, rel@, change@, tuple_model(old_full), quoting@),
{
    let index = match view.relation_index(rel.id) {
        None => return Plan::nothing(
            PlanEnd::Failed("view does not use this relation".to_string()),
        ),
        Some(index) => index,
    };
    let target = ViewTarget { name: view.storage.as_str(), spec: &view.spec };
    match change {
        Change::Insert { new, .. } => plan_join_new(view, index, rel, new, None, quoting),
        Change::Delete { .. } => match old_full {
            None => plan_no_old_row(rel),
            Some(row) => apply::plan_join(&target, index, rel, row, -1, quoting),
        },
        Change::Update { new, .. } => match old_full {
            None => plan_no_old_row(rel),
            Some(row) => {
                if !view.touches_used_columns(rel.id, rel, Some(row), new) {
                    return Plan::nothing(PlanEnd::Done);  // only unused columns changed
                }
                let removal = apply::plan_join(&target, index, rel, row, -1, quoting);
                removal.followed(plan_join_new(view, index, rel, new, Some(row), quoting))
            },
        },
        Change::Truncate { .. } => plan_truncated(),
    }
}

fn plan_single_change(view: &LiveView, rel: &Relation, change: &Change, quoting: &Quoting) -> (result:
    Plan)
    requires
        rel.columns@.len() < usize::MAX,
    ensures
        result@ == single_change(view@, rel@, change@, quoting@),
{
    let target = ViewTarget { name: view.storage.as_str(), spec: &view.spec };
    match change {
        Change::Insert { new, .. } => plan_single_new(view, rel, new, None, quoting),
        Change::Delete { key_kind, old, .. } => apply::plan_single_delete(
            &target,
            rel,
            *key_kind,
            old,
            quoting,
        ),
        Change::Update { old, new, .. } => {
            let (key_kind, row, full): (u8, &Tuple, Option<&Tuple>) = match old {
                Some(before) => {
                    if before.0 == FULL_OLD_TUPLE && !view.touches_used_columns(
                        rel.id,
                        rel,
                        Some(&before.1),
                        new,
                    ) {
                        return Plan::nothing(PlanEnd::Done);  // only unused columns changed
                    }
                    (before.0, &before.1, Some(&before.1))
                },
                None => (TAG_KEY, new, None),
            };
            let removal = apply::plan_single_delete(&target, rel, key_kind, row, quoting);
            removal.followed(plan_single_new(view, rel, new, full, quoting))
        },
        Change::Truncate { .. } => plan_truncated(),
    }
}

/// Plan the effect of one change on one view. `old_full` is the complete old
/// row when it came from a shadow.
pub fn plan_change(
    view: &LiveView,
    rel: &Relation,
    change: &Change,
    old_full: Option<&Tuple>,
    quoting: &Quoting,
) -> (result: Plan)
    requires
        rel.columns@.len() < usize::MAX,
    ensures
        result@ == planned_change(view@, rel@, change@, tuple_model(old_full), quoting@),
{
    if view.spec.is_join() {
        plan_join_change(view, rel, change, old_full, quoting)
    } else {
        plan_single_change(view, rel, change, quoting)
    }
}

// --- laws ------------------------------------------------------------------------------

proof fn lemma_first_drifted(
    rel: RelationModel,
    names: Seq<Seq<char>>,
    types: Seq<Seq<char>>,
    n: nat,
)
    ensures
        first_drifted(rel, names, types, n) is None <==> forall|k: int|
            0 <= k < n ==> provided(rel, #[trigger] names[k], types[k]),
    decreases n,
{
    if n > 0 {
        lemma_first_drifted(rel, names, types, (n - 1) as nat);
    }
}

/// Columns that a view does not use are ignored: a relation's new definition
/// makes a view stale exactly when it lacks a column that the view uses, or
/// has it with another type.
pub proof fn law_only_used_columns_matter(
    spec: SpecModel,
    relid: u32,
    rel: RelationModel,
    index: int,
)
    requires
        relation_position(spec.relations, relid) == Some(index),
    ensures
        ({
            let base = spec.relations[index];
            drifted(spec, relid, rel) is None <==> forall|k: int|
                0 <= k < shorter(base.used_columns.len(), base.used_column_types.len())
                    ==> provided(
                    rel,
                    #[trigger] base.used_columns[k],
                    base.used_column_types[k],
                )
        }),
{
    let base = spec.relations[index];
    lemma_first_drifted(
        rel,
        base.used_columns,
        base.used_column_types,
        shorter(base.used_columns.len(), base.used_column_types.len()),
    );
}

/// A view that does not use a relation at all is never touched by its new
/// definition.
pub proof fn law_other_relations_do_not_matter(spec: SpecModel, relid: u32, rel: RelationModel)
    requires
        relation_position(spec.relations, relid) is None,
    ensures
        drifted(spec, relid, rel) is None,
{
}

proof fn lemma_drifted_columns(
    rel: RelationModel,
    names: Seq<Seq<char>>,
    types: Seq<Seq<char>>,
    n: nat,
)
    requires
        n <= names.len(),
    ensures
        forall|k: int|
            0 <= k < n && !provided(rel, #[trigger] names[k], types[k]) ==> drifted_columns(
                rel,
                names,
                types,
                n,
            ).contains(names[k]),
    decreases n,
{
    if n > 0 {
        lemma_drifted_columns(rel, names, types, (n - 1) as nat);
        let before = drifted_columns(rel, names, types, (n - 1) as nat);
        let after = drifted_columns(rel, names, types, n);
        assert forall|k: int|
            0 <= k < n && !provided(rel, #[trigger] names[k], types[k]) implies after.contains(
            names[k],
        ) by {
            if k < n - 1 {
                let i = choose|i: int| 0 <= i < before.len() && before[i] == names[k];
                assert(after[i] == names[k]);
            } else {
                assert(after[before.len() as int] == names[k]);
            }
        }
    }
}

proof fn lemma_kept_positions(names: Seq<Seq<char>>, gone: Seq<Seq<char>>, n: nat)
    ensures
        forall|k: int|
            0 <= k < kept_positions(names, gone, n).len() ==> 0 <= (#[trigger] kept_positions(
                names,
                gone,
                n,
            )[k]) < n && !gone.contains(names[kept_positions(names, gone, n)[k]]),
    decreases n,
{
    if n > 0 {
        lemma_kept_positions(names, gone, (n - 1) as nat);
        let before = kept_positions(names, gone, (n - 1) as nat);
        let after = kept_positions(names, gone, n);
        assert forall|k: int| 0 <= k < after.len() implies 0 <= (#[trigger] after[k]) < n
            && !gone.contains(names[after[k]]) by {
            if k < before.len() {
                assert(after[k] == before[k]);
            }
        }
    }
}

/// A shadow that outlives a schema change carries only columns that the
/// relation still provides, each with its type, and keeps its key.
pub proof fn law_drifted_shadows_stay_maintainable(
    s: ShadowModel,
    rel: RelationModel,
    qualified: Seq<char>,
)
    requires
        s.columns.len() == s.column_types.len(),
        !s.failed,
    ensures
        ({
            let after = shadow_drifted(s, rel, qualified).0;
            &&& after.pk_columns == s.pk_columns
            &&& after.frontier == s.frontier
            &&& !after.failed ==> after.columns.len() == after.column_types.len() && forall|k: int|
                0 <= k < after.columns.len() ==> provided(
                    rel,
                    #[trigger] after.columns[k],
                    after.column_types[k],
                )
        }),
{
    let n = s.columns.len();
    let gone = drifted_columns(rel, s.columns, s.column_types, n);
    let after = shadow_drifted(s, rel, qualified).0;
    lemma_drifted_columns(rel, s.columns, s.column_types, n);
    lemma_kept_positions(s.columns, gone, n);
    let kept = kept_positions(s.columns, gone, n);
    if !after.failed {
        assert forall|k: int| 0 <= k < after.columns.len() implies provided(
            rel,
            #[trigger] after.columns[k],
            after.column_types[k],
        ) by {
            if gone.len() > 0 {
                assert(after.columns[k] == s.columns[kept[k]]);
                assert(after.column_types[k] == s.column_types[kept[k]]);
                assert(!gone.contains(s.columns[kept[k]]));
            } else {
                assert(!gone.contains(s.columns[k]));
            }
        }
    }
}

/// A view is given up exactly at the failure that uses up its allowance, and
/// stays live before that.
pub proof fn law_failures_are_counted(v: LiveModel, message: Seq<char>, max_apply_failures: i32)
    requires
        v.stale is None,
        v.apply_failures < i32::MAX,
    ensures
        ({
            let after = failed_once_more(v, message, max_apply_failures).0;
            &&& after.apply_failures == v.apply_failures + 1
            &&& after.stale is Some <==> after.apply_failures >= failures_allowed(
                max_apply_failures,
            )
        }),
{
}

// --- laws of planning --------------------------------------------------------------------

/// What is bound for a value of a row: its text, or NULL.
pub open spec fn bound(cell: Cell) -> ArgModel {
    match cell {
        Cell::Text(s) => ArgModel::Text(Some(s)),
        _ => ArgModel::Text(None),
    }
}

/// Whether a query is evaluated over a row: its parameters are the row's values.
pub open spec fn evaluates(query: StatementModel, row: Seq<Cell>) -> bool {
    &&& query.args.len() == row.len()
    &&& forall|i: int| 0 <= i < row.len() ==> #[trigger] query.args[i] == bound(row[i])
}

/// The row that an update or insert leaves behind: every value that was sent, and
/// for the others what the old row has, or NULL.
pub open spec fn left_behind(new: Seq<Cell>, before: Option<Seq<Cell>>) -> Seq<Cell> {
    Seq::new(
        new.len(),
        |i: int|
            if new[i] != Cell::Unchanged {
                new[i]
            } else if before is Some && i < (before->0).len() && (before->0)[i] != Cell::Unchanged {
                (before->0)[i]
            } else {
                Cell::Null
            },
    )
}

/// Whether a step evaluates the view's query over a row, with a sign.
pub open spec fn shows(step: StepModel, row: Seq<Cell>, sign: int) -> bool {
    step matches StepModel::Rows { query, sign: s } && s == sign && evaluates(query, row)
}

/// Whether two steps evaluate the same query over the same values, the one adding
/// what the other removes.
pub open spec fn undoes(a: StepModel, b: StepModel) -> bool {
    match (a, b) {
        (
            StepModel::Rows { query: q, sign: s },
            StepModel::Rows { query: r, sign: t },
        ) => q == r && s == -t && s != 0,
        _ => false,
    }
}

pub open spec fn all_sent(row: Seq<Cell>) -> bool {
    forall|i: int| 0 <= i < row.len() ==> #[trigger] row[i] != Cell::Unchanged
}

pub open spec fn all_resolved(rel: RelationModel) -> bool {
    forall|i: int| 0 <= i < rel.columns.len() ==> (#[trigger] rel.columns[i]).resolved_type is Some
}

proof fn lemma_left_behind(
    rel: RelationModel,
    new: Seq<Cell>,
    before: Option<Seq<Cell>>,
    mentioned: spec_fn(Seq<char>) -> bool,
    n: nat,
)
    requires
        n <= new.len(),
    ensures
        resolved(rel, new, before, mentioned, n) matches Ok(row) ==> row == left_behind(
            new,
            before,
        ).take(n as int),
        all_sent(new) ==> resolved(rel, new, before, mentioned, n) is Ok,
    decreases n,
{
    let whole = left_behind(new, before);
    if n == 0 {
        assert(whole.take(0) =~= Seq::empty());
    } else {
        lemma_left_behind(rel, new, before, mentioned, (n - 1) as nat);
        assert(whole.take(n as int) =~= whole.take(n - 1).push(whole[n - 1]));
        assert(all_sent(new) ==> new[n - 1] != Cell::Unchanged);
    }
}

proof fn lemma_no_stray(rel: RelationModel, new: Seq<Cell>, n: nat)
    requires
        n <= new.len(),
        all_sent(new),
    ensures
        first_stray(rel, new, n) is None,
    decreases n,
{
    if n > 0 {
        lemma_no_stray(rel, new, (n - 1) as nat);
        assert(new[n - 1] != Cell::Unchanged);
    }
}

proof fn lemma_row_left_behind(
    rel: RelationModel,
    new: Seq<Cell>,
    before: Option<Seq<Cell>>,
    mentioned: spec_fn(Seq<char>) -> bool,
)
    ensures
        resolved_row(rel, new, before, mentioned) matches Ok(row) ==> row == left_behind(
            new,
            before,
        ),
        all_sent(new) ==> resolved_row(rel, new, before, mentioned) == Ok::<Seq<Cell>, EndModel>(
            new,
        ),
{
    lemma_left_behind(rel, new, before, mentioned, new.len());
    let whole = left_behind(new, before);
    assert(whole.take(new.len() as int) =~= whole);
    if all_sent(new) {
        lemma_no_stray(rel, new, new.len());
        assert(whole =~= new) by {
            assert forall|i: int| 0 <= i < new.len() implies whole[i] == new[i] by {
                assert(new[i] != Cell::Unchanged);
            }
        }
    }
}

proof fn lemma_all_resolved(rel: RelationModel, n: nat)
    requires
        all_resolved(rel),
        n <= rel.columns.len(),
    ensures
        apply::unresolved(rel, n) is None,
    decreases n,
{
    if n > 0 {
        lemma_all_resolved(rel, (n - 1) as nat);
        assert(rel.columns[n - 1].resolved_type is Some);
    }
}

/// An insert evaluates the view's query over the new row, with sign +1, and does
/// nothing else; and it is planned wherever the row was sent whole and the
/// column types are known.
pub proof fn law_inserts_add_the_new_row(
    v: LiveModel,
    rel: RelationModel,
    relid: u32,
    new: Seq<Cell>,
    old_full: Option<Seq<Cell>>,
    quoting: spec_fn(Seq<char>) -> Seq<char>,
)
    ensures
        ({
            let plan = planned_change(v, rel, ChangeModel::Insert { relid, new }, old_full, quoting);
            &&& plan.end == EndModel::Done ==> plan.steps.len() == 1 && shows(
                plan.steps[0],
                left_behind(new, None),
                1,
            )
            &&& plan.end != EndModel::Done ==> plan.steps.len() == 0
            &&& all_sent(new) && all_resolved(rel) && (v.spec.relations.len() <= 1
                || relation_position(v.spec.relations, rel.id) is Some) ==> plan.end
                == EndModel::Done
        }),
{
    lemma_row_left_behind(rel, new, None, mentions(v.definition));
    if all_resolved(rel) {
        lemma_all_resolved(rel, rel.columns.len());
    }
}

/// A delete takes from a join view or an aggregate exactly what its old row gave
/// it: the view's query over the old row, with sign -1, and nothing else. A join
/// view takes the old row from the shadow, an aggregate from the change, which has
/// to carry the whole row.
pub proof fn law_deletes_remove_the_old_row(
    v: LiveModel,
    rel: RelationModel,
    relid: u32,
    key_kind: u8,
    old_row: Seq<Cell>,
    old_full: Option<Seq<Cell>>,
    quoting: spec_fn(Seq<char>) -> Seq<char>,
)
    requires
        v.spec.relations.len() > 1 || v.spec.shape == Shape::Aggregate,
    ensures
        ({
            let plan = planned_change(
                v,
                rel,
                ChangeModel::Delete { relid, key_kind, old: old_row },
                old_full,
                quoting,
            );
            let row = if v.spec.relations.len() > 1 {
                old_full
            } else if key_kind == 79u8 {
                Some(old_row)
            } else {
                None
            };
            &&& plan.end == EndModel::Done ==> row is Some && plan.steps.len() == 1 && shows(
                plan.steps[0],
                row->0,
                -1,
            )
            &&& plan.end != EndModel::Done ==> plan.steps.len() == 0
            &&& row is None && (v.spec.relations.len() <= 1 || relation_position(
                v.spec.relations,
                rel.id,
            ) is Some) ==> plan.end is Stale
            &&& row is Some && all_resolved(rel) && (v.spec.relations.len() <= 1
                || relation_position(v.spec.relations, rel.id) is Some) ==> plan.end
                == EndModel::Done
        }),
{
    if all_resolved(rel) {
        lemma_all_resolved(rel, rel.columns.len());
    }
}

/// What an insert adds to a join view or an aggregate, a delete of the same row
/// removes: the same query over the same values, with the opposite sign.
pub proof fn law_deletes_undo_inserts(
    v: LiveModel,
    rel: RelationModel,
    relid: u32,
    row: Seq<Cell>,
    quoting: spec_fn(Seq<char>) -> Seq<char>,
)
    requires
        v.spec.relations.len() > 1 || v.spec.shape == Shape::Aggregate,
        v.spec.relations.len() <= 1 || relation_position(v.spec.relations, rel.id) is Some,
        all_sent(row),
        all_resolved(rel),
    ensures
        ({
            let add = planned_change(
                v,
                rel,
                ChangeModel::Insert { relid, new: row },
                Some(row),
                quoting,
            );
            let remove = planned_change(
                v,
                rel,
                ChangeModel::Delete { relid, key_kind: 79u8, old: row },
                Some(row),
                quoting,
            );
            &&& add.steps.len() == 1
            &&& remove.steps.len() == 1
            &&& undoes(remove.steps[0], add.steps[0])
        }),
{
    law_inserts_add_the_new_row(v, rel, relid, row, Some(row), quoting);
    law_deletes_remove_the_old_row(v, rel, relid, 79u8, row, Some(row), quoting);
    lemma_row_left_behind(rel, row, None, mentions(v.definition));
}

proof fn lemma_key_values(
    spec: SpecModel,
    rel: RelationModel,
    row: Seq<Cell>,
    quoting: spec_fn(Seq<char>) -> Seq<char>,
    n: nat,
)
    requires
        n <= spec.pk_columns.len(),
        n <= spec.pk_view_columns.len(),
    ensures
        apply::key_conditions(spec, rel, row, quoting, n) matches Ok((conds, values))
            ==> conds.len() == n && values.len() == n && forall|k: int|
            0 <= k < n ==> key_is(spec, rel, row, quoting, conds, values, k),
        apply::key_conditions(spec, rel, row, quoting, n) matches Err(end) ==> end
            != EndModel::Done,
    decreases n,
{
    if n > 0 {
        lemma_key_values(spec, rel, row, quoting, (n - 1) as nat);
        let before = apply::key_conditions(spec, rel, row, quoting, (n - 1) as nat);
        text::lemma_index_of(column_names(rel), spec.pk_columns[n - 1]);
        if let Ok((conds, values)) = apply::key_conditions(spec, rel, row, quoting, n) {
            let (c, w) = before->Ok_0;
            let i = index_of(column_names(rel), spec.pk_columns[n - 1])->0;
            assert(rel.columns[i].name == spec.pk_columns[n - 1]);
            assert forall|k: int| 0 <= k < n implies key_is(
                spec,
                rel,
                row,
                quoting,
                conds,
                values,
                k,
            ) by {
                if k < n - 1 {
                    assert(key_is(spec, rel, row, quoting, c, w, k));
                    let j = choose|j: int| key_stands_at(spec, rel, row, quoting, c, w, k, j);
                    assert(key_stands_at(spec, rel, row, quoting, conds, values, k, j));
                } else {
                    assert(key_stands_at(spec, rel, row, quoting, conds, values, k, i));
                }
            }
        }
    }
}

/// Whether the `k`-th condition compares the `k`-th key column of the view with
/// the text that the row has for the `k`-th key column of the table, at `j`.
pub open spec fn key_stands_at(
    spec: SpecModel,
    rel: RelationModel,
    row: Seq<Cell>,
    quoting: spec_fn(Seq<char>) -> Seq<char>,
    conds: Seq<Seq<char>>,
    values: Seq<Option<Seq<char>>>,
    k: int,
    j: int,
) -> bool {
    &&& 0 <= j < rel.columns.len() && j < row.len()
    &&& rel.columns[j].name == spec.pk_columns[k]
    &&& row[j] == Cell::Text(values[k]->0)
    &&& values[k] is Some
    &&& conds[k] == "v."@ + quoting(spec.pk_view_columns[k]) + " = "@ + ("$"@ + text::decimal(
        (k + 1) as nat,
    ) + "::"@ + rel.columns[j].resolved_type->0)
}

pub open spec fn key_is(
    spec: SpecModel,
    rel: RelationModel,
    row: Seq<Cell>,
    quoting: spec_fn(Seq<char>) -> Seq<char>,
    conds: Seq<Seq<char>>,
    values: Seq<Option<Seq<char>>>,
    k: int,
) -> bool {
    exists|j: int| #[trigger] key_stands_at(spec, rel, row, quoting, conds, values, k, j)
}

/// A step that deletes by key: under every key column stands the value that the
/// row has for it, and every condition stands in the WHERE clause.
pub open spec fn deletes_by_key(
    step: StepModel,
    spec: SpecModel,
    rel: RelationModel,
    row: Seq<Cell>,
    quoting: spec_fn(Seq<char>) -> Seq<char>,
    conds: Seq<Seq<char>>,
) -> bool {
    step matches StepModel::Delete { conds: clause, values } && {
        &&& values.len() == spec.pk_columns.len()
        &&& conds.len() == spec.pk_columns.len()
        &&& forall|k: int|
            0 <= k < spec.pk_columns.len() ==> text::has_part(clause, #[trigger] conds[k]) && key_is(
                spec,
                rel,
                row,
                quoting,
                conds,
                values,
                k,
            )
    }
}

/// A delete from a single-table projection removes the row whose key the old row
/// carries: every key column is compared with the old row's value of it.
pub proof fn law_projection_deletes_go_by_key(
    v: LiveModel,
    rel: RelationModel,
    relid: u32,
    key_kind: u8,
    old_row: Seq<Cell>,
    old_full: Option<Seq<Cell>>,
    quoting: spec_fn(Seq<char>) -> Seq<char>,
)
    requires
        v.spec.relations.len() <= 1,
        v.spec.shape == Shape::Projection,
        v.spec.pk_columns.len() == v.spec.pk_view_columns.len(),
    ensures
        ({
            let plan = planned_change(
                v,
                rel,
                ChangeModel::Delete { relid, key_kind, old: old_row },
                old_full,
                quoting,
            );
            &&& plan.end == EndModel::Done ==> plan.steps.len() == 1 && exists|
                conds: Seq<Seq<char>>,
            | #[trigger]
                deletes_by_key(plan.steps[0], v.spec, rel, old_row, quoting, conds)
            &&& plan.end != EndModel::Done ==> plan.steps.len() == 0
        }),
{
    let n = v.spec.pk_columns.len();
    let plan = planned_change(
        v,
        rel,
        ChangeModel::Delete { relid, key_kind, old: old_row },
        old_full,
        quoting,
    );
    lemma_key_values(v.spec, rel, old_row, quoting, n);
    if plan.end == EndModel::Done {
        let (conds, values) = apply::key_conditions(v.spec, rel, old_row, quoting, n)->Ok_0;
        assert forall|k: int| 0 <= k < n implies text::has_part(
            joined(conds, " AND "@),
            #[trigger] conds[k],
        ) by {
            text::lemma_part_of_joined(conds, " AND "@, k);
        }
        assert(deletes_by_key(plan.steps[0], v.spec, rel, old_row, quoting, conds));
    }
}

/// The old row of an update, as a view gets to know it: the whole row from the
/// shadow for a join view; for a single-table view the row that the change
/// carries, or the new row where the key did not change.
pub open spec fn row_before(
    v: LiveModel,
    before: Option<(u8, Seq<Cell>)>,
    new: Seq<Cell>,
    old_full: Option<Seq<Cell>>,
) -> (u8, Seq<Cell>) {
    if v.spec.relations.len() > 1 {
        (79u8, old_full->0)
    } else if before is Some {
        before->0
    } else {
        (75u8, new)
    }
}

/// An update is a delete of the old row followed by an insert of the row that it
/// leaves behind, which has every value that was sent; unless the view sees
/// nothing of it.
pub proof fn law_updates_delete_then_insert(
    v: LiveModel,
    rel: RelationModel,
    relid: u32,
    before: Option<(u8, Seq<Cell>)>,
    new: Seq<Cell>,
    old_full: Option<Seq<Cell>>,
    quoting: spec_fn(Seq<char>) -> Seq<char>,
)
    ensures
        ({
            let plan = planned_change(
                v,
                rel,
                ChangeModel::Update { relid, old: before, new },
                old_full,
                quoting,
            );
            let (kind, row) = row_before(v, before, new, old_full);
            let known = if v.spec.relations.len() > 1 {
                old_full
            } else if before is Some {
                Some((before->0).1)
            } else {
                None
            };
            let after = left_behind(new, known);
            let remove = planned_change(
                v,
                rel,
                ChangeModel::Delete { relid, key_kind: kind, old: row },
                old_full,
                quoting,
            );
            let add = planned_change(
                v,
                rel,
                ChangeModel::Insert { relid, new: after },
                old_full,
                quoting,
            );
            plan.end == EndModel::Done && plan.steps.len() > 0 ==> {
                &&& remove.end == EndModel::Done
                &&& add.end == EndModel::Done
                &&& plan.steps == remove.steps + add.steps
                &&& plan.steps.len() == 2
                &&& shows(plan.steps[1], after, 1)
            }
        }),
{
    let known = if v.spec.relations.len() > 1 {
        old_full
    } else if before is Some {
        Some((before->0).1)
    } else {
        None
    };
    let after = left_behind(new, known);
    let (kind, row) = row_before(v, before, new, old_full);
    lemma_key_values(v.spec, rel, row, quoting, apply::key_pairs(v.spec));
    assert(all_sent(after));
    lemma_row_left_behind(rel, new, known, mentions(v.definition));
    lemma_row_left_behind(rel, after, None, mentions(v.definition));
    law_inserts_add_the_new_row(v, rel, relid, after, old_full, quoting);
    assert(left_behind(after, None) =~= after);
    let plan = planned_change(
        v,
        rel,
        ChangeModel::Update { relid, old: before, new },
        old_full,
        quoting,
    );
    let remove = planned_change(
        v,
        rel,
        ChangeModel::Delete { relid, key_kind: kind, old: row },
        old_full,
        quoting,
    );
    let add = planned_change(
        v,
        rel,
        ChangeModel::Insert { relid, new: after },
        old_full,
        quoting,
    );
    if plan.end == EndModel::Done && plan.steps.len() > 0 {
        assert(plan.steps =~= remove.steps + add.steps);
    }
}

/// Whether the two rows of an update agree on a column, as far as the new one was
/// sent.
pub open spec fn agree_on(
    rel: RelationModel,
    before: Seq<Cell>,
    after: Seq<Cell>,
    name: Seq<char>,
) -> bool {
    exists|i: int|
        0 <= i < rel.columns.len() && i < after.len() && (#[trigger] rel.columns[i]).name == name && (
        after[i] == Cell::Unchanged || (i < before.len() && before[i] == after[i]))
}

/// An update is passed over only where the view sees nothing of it: both rows agree
/// on every column that the view uses of the relation.
pub proof fn law_only_unseen_updates_are_passed_over(
    v: LiveModel,
    rel: RelationModel,
    relid: u32,
    before: Option<(u8, Seq<Cell>)>,
    new: Seq<Cell>,
    old_full: Option<Seq<Cell>>,
    quoting: spec_fn(Seq<char>) -> Seq<char>,
    index: int,
    k: int,
)
    requires
        ({
            let plan = planned_change(
                v,
                rel,
                ChangeModel::Update { relid, old: before, new },
                old_full,
                quoting,
            );
            plan.end == EndModel::Done && plan.steps.len() == 0
        }),
        relation_position(v.spec.relations, rel.id) == Some(index),
        0 <= k < v.spec.relations[index].used_columns.len(),
    ensures
        v.spec.relations.len() <= 1 ==> before is Some && (before->0).0 == 79u8 && agree_on(
            rel,
            (before->0).1,
            new,
            v.spec.relations[index].used_columns[k],
        ),
        v.spec.relations.len() > 1 ==> old_full is Some && agree_on(
            rel,
            old_full->0,
            new,
            v.spec.relations[index].used_columns[k],
        ),
{
    let name = v.spec.relations[index].used_columns[k];
    let row = if v.spec.relations.len() > 1 {
        old_full->0
    } else {
        (before->0).1
    };
    lemma_row_left_behind(
        rel,
        new,
        if v.spec.relations.len() > 1 {
            old_full
        } else {
            carried(before)
        },
        mentions(v.definition),
    );
    assert(!column_touched(rel, row, new, name));
    text::lemma_index_of(column_names(rel), name);
    let i = index_of(column_names(rel), name)->0;
    assert(rel.columns[i].name == name);
}

/// A truncated table makes every view over it stale.
pub proof fn law_truncates_make_views_stale(
    v: LiveModel,
    rel: RelationModel,
    relids: Seq<u32>,
    old_full: Option<Seq<Cell>>,
    quoting: spec_fn(Seq<char>) -> Seq<char>,
)
    requires
        v.spec.relations.len() <= 1 || relation_position(v.spec.relations, rel.id) is Some,
    ensures
        ({
            let plan = planned_change(v, rel, ChangeModel::Truncate { relids }, old_full, quoting);
            plan.end is Stale && plan.steps.len() == 0
        }),
{
}

/// The relation of a view with an identifier is the first one that has it, and there
/// is one wherever any has it.
pub proof fn law_relations_are_found(relations: Seq<BaseModel>, relid: u32)
    ensures
        match relation_position(relations, relid) {
            Some(i) => 0 <= i < relations.len() && relations[i].oid == relid,
            None => forall|i: int| 0 <= i < relations.len() ==> (#[trigger] relations[i]).oid != relid,
        },
{
    lemma_relation_position(relations, relid);
}

/// An update whose new row was sent whole is planned wherever its delete and its
/// insert are.
pub proof fn law_complete_updates_are_planned(
    v: LiveModel,
    rel: RelationModel,
    relid: u32,
    before: Option<(u8, Seq<Cell>)>,
    new: Seq<Cell>,
    old_full: Option<Seq<Cell>>,
    quoting: spec_fn(Seq<char>) -> Seq<char>,
)
    requires
        all_sent(new),
        ({
            let (kind, row) = row_before(v, before, new, old_full);
            planned_change(
                v,
                rel,
                ChangeModel::Delete { relid, key_kind: kind, old: row },
                old_full,
                quoting,
            ).end == EndModel::Done
        }),
        planned_change(v, rel, ChangeModel::Insert { relid, new }, old_full, quoting).end
            == EndModel::Done,
    ensures
        planned_change(
            v,
            rel,
            ChangeModel::Update { relid, old: before, new },
            old_full,
            quoting,
        ).end == EndModel::Done,
{
    let (kind, row) = row_before(v, before, new, old_full);
    lemma_key_values(v.spec, rel, row, quoting, apply::key_pairs(v.spec));
    lemma_row_left_behind(rel, new, None, mentions(v.definition));
    lemma_row_left_behind(rel, new, old_full, mentions(v.definition));
    lemma_row_left_behind(rel, new, carried(before), mentions(v.definition));
}

/// An update that leaves every column as it was that the view uses of the relation
/// is passed over, wherever the whole old row is known.
pub proof fn law_unseen_updates_are_passed_over(
    v: LiveModel,
    rel: RelationModel,
    relid: u32,
    before: Option<(u8, Seq<Cell>)>,
    new: Seq<Cell>,
    old_full: Option<Seq<Cell>>,
    quoting: spec_fn(Seq<char>) -> Seq<char>,
    index: int,
)
    requires
        relation_position(v.spec.relations, rel.id) == Some(index),
        v.spec.relations.len() > 1 ==> old_full is Some,
        v.spec.relations.len() <= 1 ==> before is Some && (before->0).0 == 79u8,
        ({
            let row = row_before(v, before, new, old_full).1;
            forall|k: int, i: int|
                0 <= k < v.spec.relations[index].used_columns.len() && 0 <= i < rel.columns.len()
                    && (#[trigger] rel.columns[i]).name
                    == #[trigger] v.spec.relations[index].used_columns[k] ==> i < new.len() && (new[i]
                    == Cell::Unchanged || (i < row.len() && row[i] == new[i]))
        }),
        forall|k: int|
            0 <= k < v.spec.relations[index].used_columns.len() ==> has_column(
                rel,
                #[trigger] v.spec.relations[index].used_columns[k],
            ),
    ensures
        ({
            let plan = planned_change(
                v,
                rel,
                ChangeModel::Update { relid, old: before, new },
                old_full,
                quoting,
            );
            plan.end == EndModel::Done && plan.steps.len() == 0
        }),
{
    let names = v.spec.relations[index].used_columns;
    let row = row_before(v, before, new, old_full).1;
    assert forall|k: int| 0 <= k < names.len() implies !column_touched(
        rel,
        row,
        new,
        #[trigger] names[k],
    ) by {
        assert(has_column(rel, names[k]));
        text::lemma_index_of(column_names(rel), names[k]);
        let j = choose|j: int| 0 <= j < rel.columns.len() && rel.columns[j].name == names[k];
        assert(column_names(rel)[j] == names[k]);
        let i = index_of(column_names(rel), names[k])->0;
        assert(rel.columns[i].name == names[k]);
    }
}

pub open spec fn has_column(rel: RelationModel, name: Seq<char>) -> bool {
    exists|j: int| 0 <= j < rel.columns.len() && (#[trigger] rel.columns[j]).name == name
}

// --- laws of shadows ---------------------------------------------------------------------

/// The value of a column by which a row of the shadow is found: that of the old row, or of
/// the new one where the old row has none.
pub open spec fn is_key_value(
    rel: RelationModel,
    before: Option<Seq<Cell>>,
    after: Option<Seq<Cell>>,
    column: Seq<char>,
    value: Seq<char>,
) -> bool {
    exists|i: int|
        0 <= i < rel.columns.len() && (#[trigger] rel.columns[i]).name == column && (forall|j: int|
            0 <= j < i ==> (#[trigger] rel.columns[j]).name != column) && if before is Some && i < (
        before->0).len() && (before->0)[i] is Text {
            (before->0)[i] == Cell::Text(value)
        } else {
            after is Some && i < (after->0).len() && (after->0)[i] == Cell::Text(value)
        }
}

pub open spec fn has_key_value(
    rel: RelationModel,
    before: Option<Seq<Cell>>,
    after: Option<Seq<Cell>>,
    column: Seq<char>,
) -> bool {
    exists|value: Seq<char>| is_key_value(rel, before, after, column, value)
}

proof fn lemma_key_value(
    rel: RelationModel,
    before: Option<Seq<Cell>>,
    after: Option<Seq<Cell>>,
    column: Seq<char>,
    value: Seq<char>,
)
    ensures
        is_key_value(rel, before, after, column, value) <==> (index_of(
            column_names(rel),
            column,
        ) matches Some(i) && key_text(before, after, i) == Some(value)),
{
    text::lemma_index_of(column_names(rel), column);
    let names = column_names(rel);
    assert(forall|j: int| 0 <= j < names.len() ==> names[j] == rel.columns[j].name);
    if is_key_value(rel, before, after, column, value) {
        let i = choose|i: int|
            0 <= i < rel.columns.len() && (#[trigger] rel.columns[i]).name == column && (forall|
                j: int,
            |
                0 <= j < i ==> (#[trigger] rel.columns[j]).name != column) && if before is Some
                && i < (before->0).len() && (before->0)[i] is Text {
                (before->0)[i] == Cell::Text(value)
            } else {
                after is Some && i < (after->0).len() && (after->0)[i] == Cell::Text(value)
            };
        assert(names[i] == column);
        assert forall|j: int| 0 <= j < i implies names[j] != column by {
            assert(rel.columns[j].name != column);
        }
        text::lemma_index_is(names, column, i);
    }
    if let Some(i) = index_of(names, column) {
        if key_text(before, after, i) == Some(value) {
            assert(rel.columns[i].name == column);
            assert forall|j: int| 0 <= j < i implies (#[trigger] rel.columns[j]).name != column by {
                assert(names[j] != column);
            }
        }
    }
}

proof fn lemma_keys(
    pk_columns: Seq<Seq<char>>,
    rel: RelationModel,
    before: Option<Seq<Cell>>,
    after: Option<Seq<Cell>>,
    n: nat,
)
    requires
        n <= pk_columns.len(),
    ensures
        keys_of(pk_columns, rel, before, after, n) is Ok <==> forall|k: int|
            0 <= k < n ==> has_key_value(rel, before, after, #[trigger] pk_columns[k]),
        keys_of(pk_columns, rel, before, after, n) matches Ok(keys) ==> keys.len() == n && forall|
            k: int,
        |
            0 <= k < n ==> is_key_value(rel, before, after, pk_columns[k], (#[trigger] keys[k]).1)
                && 0 <= keys[k].0 < rel.columns.len() && rel.columns[keys[k].0].name
                == pk_columns[k],
    decreases n,
{
    if n > 0 {
        lemma_keys(pk_columns, rel, before, after, (n - 1) as nat);
        let pk = pk_columns[n - 1];
        text::lemma_index_of(column_names(rel), pk);
        if let Some(i) = index_of(column_names(rel), pk) {
            assert(column_names(rel)[i] == rel.columns[i].name);
            if let Some(value) = key_text(before, after, i) {
                lemma_key_value(rel, before, after, pk, value);
            }
        }
        if has_key_value(rel, before, after, pk) {
            let value = choose|value: Seq<char>| is_key_value(rel, before, after, pk, value);
            lemma_key_value(rel, before, after, pk, value);
        }
        if keys_of(pk_columns, rel, before, after, n) is Ok {
            let keys = keys_of(pk_columns, rel, before, after, n)->Ok_0;
            let fewer = keys_of(pk_columns, rel, before, after, (n - 1) as nat)->Ok_0;
            assert forall|k: int| 0 <= k < n implies is_key_value(
                rel,
                before,
                after,
                pk_columns[k],
                (#[trigger] keys[k]).1,
            ) && 0 <= keys[k].0 < rel.columns.len() && rel.columns[keys[k].0].name
                == pk_columns[k] by {
                if k < n - 1 {
                    assert(keys[k] == fewer[k]);
                }
            }
            assert forall|k: int| 0 <= k < n implies has_key_value(
                rel,
                before,
                after,
                #[trigger] pk_columns[k],
            ) by {
                assert(is_key_value(rel, before, after, pk_columns[k], keys[k].1));
            }
        }
    }
}

/// Whether a text compares a column of a relation with a parameter.
spec fn is_condition(
    rel: RelationModel,
    at: int,
    n: nat,
    quoting: spec_fn(Seq<char>) -> Seq<char>,
    text: Seq<char>,
) -> bool {
    let col = rel.columns[at];
    col.resolved_type is Some && text == quoting(col.name) + " = "@ + cast(
        n,
        col.resolved_type->0,
    )
}

proof fn lemma_conditions(
    rel: RelationModel,
    keys: Seq<(int, Seq<char>)>,
    first_param: nat,
    quoting: spec_fn(Seq<char>) -> Seq<char>,
    n: nat,
)
    ensures
        conditions_on(rel, keys, first_param, quoting, n) matches Ok(conds) ==> conds.len() == n
            && forall|k: int|
            0 <= k < n ==> is_condition(
                rel,
                keys[k].0,
                (first_param + k) as nat,
                quoting,
                #[trigger] conds[k],
            ),
    decreases n,
{
    if n > 0 {
        lemma_conditions(rel, keys, first_param, quoting, (n - 1) as nat);
        if let Ok(conds) = conditions_on(rel, keys, first_param, quoting, n) {
            let before = conditions_on(rel, keys, first_param, quoting, (n - 1) as nat)->Ok_0;
            assert(conds.len() == n);
            assert forall|k: int| 0 <= k < n implies is_condition(
                rel,
                keys[k].0,
                (first_param + k) as nat,
                quoting,
                #[trigger] conds[k],
            ) by {
                if k < n - 1 {
                    assert(conds[k] == before[k]);
                }
            }
        }
    }
}

/// Whether a statement finds a row by its key: every key column is compared, and the value
/// that is bound for it is that of the row.
pub open spec fn finds_by_key(
    statement: StatementModel,
    s: ShadowModel,
    rel: RelationModel,
    before: Option<Seq<Cell>>,
    after: Option<Seq<Cell>>,
    quoting: spec_fn(Seq<char>) -> Seq<char>,
) -> bool {
    &&& s.pk_columns.len() > 0
    &&& statement.args.len() == s.pk_columns.len()
    &&& forall|k: int|
        0 <= k < s.pk_columns.len() ==> finds_by_column(
            statement,
            rel,
            before,
            after,
            #[trigger] s.pk_columns[k],
            k,
            quoting,
        )
}

/// Whether a statement compares a column with the value that it binds at a place.
pub open spec fn finds_by_column(
    statement: StatementModel,
    rel: RelationModel,
    before: Option<Seq<Cell>>,
    after: Option<Seq<Cell>>,
    column: Seq<char>,
    k: int,
    quoting: spec_fn(Seq<char>) -> Seq<char>,
) -> bool {
    &&& exists|value: Seq<char>|
        is_key_value(rel, before, after, column, value) && #[trigger] statement.args[k]
            == ArgModel::Text(Some(value))
    &&& has_part(statement.sql, quoting(column) + " = $"@ + decimal((k + 1) as nat))
}

proof fn lemma_key_clause(
    s: ShadowModel,
    rel: RelationModel,
    before: Option<Seq<Cell>>,
    after: Option<Seq<Cell>>,
    quoting: spec_fn(Seq<char>) -> Seq<char>,
    front: Seq<char>,
)
    ensures
        key_clause(s, rel, before, after, quoting) matches Ok((conds, values)) ==> finds_by_key(
            StatementModel { sql: front + conds, args: text_args(values) },
            s,
            rel,
            before,
            after,
            quoting,
        ),
{
    if let Ok((text, values)) = key_clause(s, rel, before, after, quoting) {
        let n = s.pk_columns.len();
        lemma_keys(s.pk_columns, rel, before, after, n);
        let keys = change_keys(s.pk_columns, rel, before, after)->Ok_0;
        lemma_conditions(rel, keys, 1, quoting, keys.len());
        let conds = conditions_on(rel, keys, 1, quoting, keys.len())->Ok_0;
        let statement = StatementModel { sql: front + text, args: text_args(values) };
        assert forall|k: int| 0 <= k < n implies finds_by_column(
            statement,
            rel,
            before,
            after,
            #[trigger] s.pk_columns[k],
            k,
            quoting,
        ) by {
            assert(is_key_value(rel, before, after, s.pk_columns[k], keys[k].1));
            assert(values[k] == Some(keys[k].1));
            assert(statement.args[k] == ArgModel::Text(Some(keys[k].1)));
            let ty = rel.columns[keys[k].0].resolved_type->0;
            let shown = quoting(s.pk_columns[k]) + " = "@ + cast((1 + k) as nat, ty);
            let part = quoting(s.pk_columns[k]) + " = $"@ + decimal((k + 1) as nat);
            assert(is_condition(rel, keys[k].0, (1 + k) as nat, quoting, conds[k]));
            assert(conds[k] == shown);
            lemma_cast_part(quoting(s.pk_columns[k]), (1 + k) as nat, ty);
            text::lemma_part_of_joined(conds, " AND "@, k);
            lemma_part_in_part(text, shown, part);
            text::lemma_part_right(front, text, part);
        }
    }
}

proof fn lemma_part_in_part(whole: Seq<char>, middle: Seq<char>, part: Seq<char>)
    requires
        has_part(whole, middle),
        has_part(middle, part),
    ensures
        has_part(whole, part),
{
    reveal(has_part);
    let i = choose|i: int| text::has_part_at(whole, middle, i);
    text::lemma_part_within(
        whole.take(i),
        middle,
        whole.skip(i + middle.len()),
        part,
    );
    assert(whole =~= whole.take(i) + middle + whole.skip(i + middle.len())) by {
        assert(whole.subrange(i, i + middle.len()) == middle);
    }
}

proof fn lemma_cast_part(name: Seq<char>, n: nat, ty: Seq<char>)
    ensures
        has_part(name + " = "@ + cast(n, ty), name + " = $"@ + decimal(n)),
{
    lemma_dollar();
    let part = name + " = $"@ + decimal(n);
    let back = "::"@ + ty;
    text::lemma_part_of_itself(part);
    text::lemma_part_left(part, back, part);
    assert(part + back =~= name + " = "@ + cast(n, ty));
}

proof fn lemma_dollar()
    ensures
        " = $"@ == " = "@ + "$"@,
{
    reveal_strlit(" = ");
    reveal_strlit(" = $");
    reveal_strlit("$");
    assert(" = $"@ =~= " = "@ + "$"@);
}

/// The old row of a change is read from the change's own shadow, by every column of its
/// key, with the values that the change carries; a row that leaves is deleted from it in
/// the same way.
pub proof fn law_shadow_rows_are_found_by_the_whole_key(
    s: ShadowModel,
    rel: RelationModel,
    before: Option<Seq<Cell>>,
    after: Option<Seq<Cell>>,
    quoting: spec_fn(Seq<char>) -> Seq<char>,
)
    ensures
        old_row_statement(s, rel, before, after, quoting) matches Ok(query) ==> finds_by_key(
            query,
            s,
            rel,
            before,
            after,
            quoting,
        ) && has_part(query.sql, " FROM "@ + s.table),
        shadow_delete(s, rel, before, after, quoting) matches Ok(delete) ==> finds_by_key(
            delete,
            s,
            rel,
            before,
            after,
            quoting,
        ) && has_part(delete.sql, "DELETE FROM "@ + s.table),
        old_row_statement(s, rel, before, after, quoting) is Ok <==> shadow_delete(
            s,
            rel,
            before,
            after,
            quoting,
        ) is Ok,
        shadow_delete(s, rel, before, after, quoting) is Ok ==> forall|k: int|
            0 <= k < s.pk_columns.len() ==> has_key_value(
                rel,
                before,
                after,
                #[trigger] s.pk_columns[k],
            ),
{
    if key_clause(s, rel, before, after, quoting) is Ok {
        lemma_read_by_key(s, rel, before, after, quoting);
        lemma_deleted_by_key(s, rel, before, after, quoting);
        lemma_keys(s.pk_columns, rel, before, after, s.pk_columns.len());
    }
}

proof fn lemma_read_by_key(
    s: ShadowModel,
    rel: RelationModel,
    before: Option<Seq<Cell>>,
    after: Option<Seq<Cell>>,
    quoting: spec_fn(Seq<char>) -> Seq<char>,
)
    requires
        old_row_statement(s, rel, before, after, quoting) is Ok,
    ensures
        ({
            let query = old_row_statement(s, rel, before, after, quoting)->Ok_0;
            finds_by_key(query, s, rel, before, after, quoting) && has_part(
                query.sql,
                " FROM "@ + s.table,
            )
        }),
{
    let list = joined(
        column_positions(s.columns, rel, s.columns.len()).map_values(
            |i: int| quoting(rel.columns[i].name) + "::text"@,
        ),
        ", "@,
    );
    let (conds, values) = key_clause(s, rel, before, after, quoting)->Ok_0;
    lemma_key_clause(
        s,
        rel,
        before,
        after,
        quoting,
        "SELECT "@ + list + " FROM "@ + s.table + " WHERE "@,
    );
    lemma_read_text(list, s.table, conds);
}

proof fn lemma_read_text(list: Seq<char>, table: Seq<char>, conds: Seq<char>)
    ensures
        has_part("SELECT "@ + list + " FROM "@ + table + " WHERE "@ + conds, " FROM "@ + table),
{
    let front = "SELECT "@ + list;
    let from = " FROM "@ + table;
    let back = " WHERE "@ + conds;
    assert("SELECT "@ + list + " FROM "@ + table + " WHERE "@ + conds =~= front + from + back);
    assert(has_part(front + from + back, from)) by {
        text::lemma_part_of_itself(from);
        text::lemma_part_within(front, from, back, from);
    }
}

proof fn lemma_delete_text(table: Seq<char>, conds: Seq<char>)
    ensures
        has_part("DELETE FROM "@ + table + " WHERE "@ + conds, "DELETE FROM "@ + table),
{
    let head = "DELETE FROM "@ + table;
    let back = " WHERE "@ + conds;
    assert(head + " WHERE "@ + conds =~= head + back);
    assert(has_part(head + back, head)) by {
        text::lemma_part_of_itself(head);
        text::lemma_part_left(head, back, head);
    }
}

proof fn lemma_deleted_by_key(
    s: ShadowModel,
    rel: RelationModel,
    before: Option<Seq<Cell>>,
    after: Option<Seq<Cell>>,
    quoting: spec_fn(Seq<char>) -> Seq<char>,
)
    requires
        shadow_delete(s, rel, before, after, quoting) is Ok,
    ensures
        ({
            let delete = shadow_delete(s, rel, before, after, quoting)->Ok_0;
            finds_by_key(delete, s, rel, before, after, quoting) && has_part(
                delete.sql,
                "DELETE FROM "@ + s.table,
            )
        }),
{
    let (conds, values) = key_clause(s, rel, before, after, quoting)->Ok_0;
    let head = "DELETE FROM "@ + s.table;
    lemma_key_clause(s, rel, before, after, quoting, head + " WHERE "@);
    lemma_delete_text(s.table, conds);
}

proof fn lemma_places(columns: Seq<Seq<char>>, rel: RelationModel, n: nat, k: int) -> (at: int)
    requires
        0 <= k < n <= columns.len(),
        column_names(rel).contains(columns[k]),
    ensures
        0 <= at < column_positions(columns, rel, n).len(),
        column_positions(columns, rel, n)[at] == index_of(column_names(rel), columns[k])->0,
        (forall|j: int| 0 <= j < n ==> column_names(rel).contains(#[trigger] columns[j])) ==> at
            == k && column_positions(columns, rel, n).len() == n,
    decreases n,
{
    text::lemma_index_of(column_names(rel), columns[k]);
    text::lemma_index_of(column_names(rel), columns[n - 1]);
    let before = column_positions(columns, rel, (n - 1) as nat);
    if k < n - 1 {
        lemma_places(columns, rel, (n - 1) as nat, k)
    } else {
        if n > 1 && forall|j: int| 0 <= j < n ==> column_names(rel).contains(#[trigger] columns[j]) {
            let first = lemma_places(columns, rel, (n - 1) as nat, 0);
        }
        before.len() as int
    }
}

/// Every active column of a shadow is read with an old row.
pub proof fn law_old_rows_are_read_with_every_column(
    s: ShadowModel,
    rel: RelationModel,
    before: Option<Seq<Cell>>,
    after: Option<Seq<Cell>>,
    quoting: spec_fn(Seq<char>) -> Seq<char>,
    k: int,
)
    requires
        0 <= k < s.columns.len(),
        column_names(rel).contains(s.columns[k]),
    ensures
        old_row_statement(s, rel, before, after, quoting) matches Ok(query) ==> has_part(
            query.sql,
            quoting(s.columns[k]) + "::text"@,
        ),
{
    let places = column_positions(s.columns, rel, s.columns.len());
    let items = places.map_values(|i: int| quoting(rel.columns[i].name) + "::text"@);
    if let Ok((conds, values)) = key_clause(s, rel, before, after, quoting) {
        let at = lemma_places(s.columns, rel, s.columns.len(), k);
        text::lemma_index_of(column_names(rel), s.columns[k]);
        let item = quoting(s.columns[k]) + "::text"@;
        assert(items[at] == item);
        text::lemma_part_of_joined(items, ", "@, at);
        let list = joined(items, ", "@);
        let back = " FROM "@ + s.table + " WHERE "@ + conds;
        text::lemma_part_within("SELECT "@, list, back, item);
        assert("SELECT "@ + list + back =~= "SELECT "@ + list + " FROM "@ + s.table + " WHERE "@
            + conds);
    }
}

proof fn lemma_placed(
    width: nat,
    places: Seq<int>,
    values: Seq<Option<Seq<char>>>,
    n: nat,
    k: int,
)
    requires
        n <= places.len(),
        forall|j: int| 0 <= j < places.len() ==> 0 <= #[trigger] places[j] < width,
        0 <= k < n,
        forall|j: int| 0 <= j < n && j != k ==> #[trigger] places[j] != places[k],
    ensures
        placed(width, places, values, n)[places[k]] == cell_of(values[k]),
    decreases n,
{
    lemma_placed_len(width, places, values, (n - 1) as nat);
    if k < n - 1 {
        lemma_placed(width, places, values, (n - 1) as nat, k);
        assert(places[n - 1] != places[k]);
    }
}

/// Each value that the shadow returns stands in the old row at its own column: the value of
/// the k-th active column at the place that the relation has for it.
pub proof fn law_old_values_stand_at_their_columns(
    s: ShadowModel,
    rel: RelationModel,
    values: Seq<Option<Seq<char>>>,
    k: int,
    i: int,
)
    requires
        values.len() == s.columns.len(),
        0 <= k < s.columns.len(),
        forall|j: int| 0 <= j < s.columns.len() ==> column_names(rel).contains(#[trigger] s.columns[j]),
        forall|a: int, b: int|
            0 <= a < b < s.columns.len() ==> #[trigger] s.columns[a] != #[trigger] s.columns[b],
        0 <= i < rel.columns.len(),
        rel.columns[i].name == s.columns[k],
        forall|j: int| 0 <= j < i ==> (#[trigger] rel.columns[j]).name != s.columns[k],
    ensures
        old_row(s, rel, values)[i] == match values[k] {
            Some(text) => Cell::Text(text),
            None => Cell::Null,
        },
{
    let n = s.columns.len();
    let names = column_names(rel);
    let places = column_positions(s.columns, rel, n);
    lemma_column_positions(s.columns, rel, n);
    assert forall|j: int| 0 <= j < n implies places[j] == index_of(names, #[trigger] s.columns[j])->0
        && names[places[j]] == s.columns[j] by {
        let at = lemma_places(s.columns, rel, n, j);
        text::lemma_index_of(names, s.columns[j]);
    }
    let at = lemma_places(s.columns, rel, n, k);
    assert(names[i] == s.columns[k]);
    assert forall|j: int| 0 <= j < i implies names[j] != s.columns[k] by {
        assert(rel.columns[j].name != s.columns[k]);
    }
    text::lemma_index_is(names, s.columns[k], i);
    assert(places[k] == i);
    assert forall|j: int| 0 <= j < n && j != k implies #[trigger] places[j] != places[k] by {
        assert(names[places[j]] == s.columns[j]);
        assert(names[places[k]] == s.columns[k]);
    }
    lemma_placed(rel.columns.len(), places, values, n, k);
}

/// A row that comes into a shadow is inserted with its own value in every active column.
pub proof fn law_shadows_take_in_the_row(
    s: ShadowModel,
    rel: RelationModel,
    row: Seq<Cell>,
    quoting: spec_fn(Seq<char>) -> Seq<char>,
    k: int,
    i: int,
)
    requires
        0 <= k < s.columns.len(),
        0 <= i < rel.columns.len(),
        rel.columns[i].name == s.columns[k],
        forall|j: int| 0 <= j < i ==> (#[trigger] rel.columns[j]).name != s.columns[k],
    ensures
        shadow_insert(s, rel, row, quoting) matches Ok(insert) ==> i < row.len() && exists|at: int|
            0 <= at < insert.args.len() && #[trigger] insert.args[at] == bound(row[i]) && has_part(
                insert.sql,
                "$"@ + decimal((at + 1) as nat),
            ) && has_part(insert.sql, quoting(s.columns[k])) && has_part(
                insert.sql,
                "INSERT INTO "@ + s.table,
            ),
{
    let n = s.columns.len();
    let names = column_names(rel);
    let places = column_positions(s.columns, rel, n);
    assert(names[i] == s.columns[k]);
    assert(names.contains(s.columns[k]));
    let at = lemma_places(s.columns, rel, n, k);
    assert forall|j: int| 0 <= j < i implies names[j] != s.columns[k] by {
        assert(rel.columns[j].name != s.columns[k]);
    }
    text::lemma_index_is(names, s.columns[k], i);
    assert(places[at] == i);
    if let Ok(insert) = shadow_insert(s, rel, row, quoting) {
        lemma_no_fault(rel, places, row, places.len(), at);
        let values = places.map_values(|i: int| cell_text(row[i]));
        assert(values[at] == cell_text(row[i]));
        assert(insert.args[at] == ArgModel::Text(values[at]));
        assert(insert.args[at] == bound(row[i]));
        let columns = places.map_values(|i: int| quoting(rel.columns[i].name));
        let casts = Seq::new(
            places.len(),
            |k: int| cast((k + 1) as nat, rel.columns[places[k]].resolved_type->0),
        );
        text::lemma_part_of_joined(columns, ", "@, at);
        text::lemma_part_of_joined(casts, ", "@, at);
        let list = joined(columns, ", "@);
        let bindings = joined(casts, ", "@);
        lemma_dollar_part((at + 1) as nat, rel.columns[i].resolved_type->0);
        lemma_part_in_part(bindings, casts[at], "$"@ + decimal((at + 1) as nat));
        lemma_insert_text(
            s.table,
            list,
            bindings,
            quoting(s.columns[k]),
            "$"@ + decimal((at + 1) as nat),
        );
    }
}

proof fn lemma_insert_text(
    table: Seq<char>,
    list: Seq<char>,
    bindings: Seq<char>,
    column: Seq<char>,
    value: Seq<char>,
)
    requires
        has_part(list, column),
        has_part(bindings, value),
    ensures
        ({
            let sql = "INSERT INTO "@ + table + " ("@ + list + ") VALUES ("@ + bindings + ")"@;
            &&& has_part(sql, "INSERT INTO "@ + table)
            &&& has_part(sql, column)
            &&& has_part(sql, value)
        }),
{
    let head = "INSERT INTO "@ + table;
    let sql = head + " ("@ + list + ") VALUES ("@ + bindings + ")"@;
    text::lemma_part_of_itself(head);
    let after_head = " ("@ + list + ") VALUES ("@ + bindings + ")"@;
    assert(head + after_head =~= sql);
    text::lemma_part_left(head, after_head, head);
    let after_list = ") VALUES ("@ + bindings + ")"@;
    text::lemma_part_within(head + " ("@, list, after_list, column);
    assert(head + " ("@ + list + after_list =~= sql);
    text::lemma_part_within(head + " ("@ + list + ") VALUES ("@, bindings, ")"@, value);
}

proof fn lemma_dollar_part(n: nat, ty: Seq<char>)
    ensures
        has_part(cast(n, ty), "$"@ + decimal(n)),
{
    let part = "$"@ + decimal(n);
    let back = cast(n, ty).skip(part.len() as int);
    reveal_strlit("$");
    text::lemma_part_of_itself(part);
    text::lemma_part_left(part, back, part);
    assert(part + back =~= cast(n, ty));
}

proof fn lemma_no_fault(rel: RelationModel, places: Seq<int>, row: Seq<Cell>, n: nat, k: int)
    requires
        insert_fault(rel, places, row, n) is None,
        0 <= k < n,
    ensures
        rel.columns[places[k]].resolved_type is Some,
        places[k] < row.len(),
    decreases n,
{
    if k < n - 1 {
        lemma_no_fault(rel, places, row, (n - 1) as nat, k);
    }
}

/// A shadow takes in an update as the removal of the old row and then the arrival of the
/// new one: where each of them alone can be done, the update is the one behind the other.
pub proof fn law_shadows_take_updates_as_both(
    s: ShadowModel,
    rel: RelationModel,
    relid: u32,
    kind: u8,
    row: Seq<Cell>,
    new: Seq<Cell>,
    full: Seq<Cell>,
    quoting: spec_fn(Seq<char>) -> Seq<char>,
)
    ensures
        ({
            let removal = shadow_plan(
                s,
                rel,
                ChangeModel::Delete { relid, key_kind: kind, old: row },
                None,
                None,
                quoting,
            );
            let arrival = shadow_plan(
                s,
                rel,
                ChangeModel::Insert { relid, new: full },
                None,
                Some(full),
                quoting,
            );
            let both = shadow_plan(
                s,
                rel,
                ChangeModel::Update { relid, old: Some((kind, row)), new },
                Some(row),
                Some(full),
                quoting,
            );
            removal.failure is None && arrival.failure is None ==> both.failure is None
                && both.statements == removal.statements + arrival.statements
        }),
{
    let removal = shadow_delete(s, rel, Some(row), None, quoting);
    if removal is Ok {
        lemma_same_key(s, rel, Some(row), new, quoting);
        let arrival = shadow_insert(s, rel, full, quoting);
        if arrival is Ok {
            assert(seq![removal->Ok_0] + seq![arrival->Ok_0] =~= Seq::empty().push(
                removal->Ok_0,
            ).push(arrival->Ok_0));
            assert(Seq::empty().push(removal->Ok_0) =~= seq![removal->Ok_0]);
            assert(Seq::empty().push(arrival->Ok_0) =~= seq![arrival->Ok_0]);
        }
    }
}

proof fn lemma_same_key(
    s: ShadowModel,
    rel: RelationModel,
    row: Option<Seq<Cell>>,
    new: Seq<Cell>,
    quoting: spec_fn(Seq<char>) -> Seq<char>,
)
    requires
        shadow_delete(s, rel, row, None, quoting) is Ok,
    ensures
        shadow_delete(s, rel, row, Some(new), quoting) == shadow_delete(s, rel, row, None, quoting),
{
    lemma_same_keys(s.pk_columns, rel, row, new, s.pk_columns.len());
}

proof fn lemma_same_keys(
    pk_columns: Seq<Seq<char>>,
    rel: RelationModel,
    row: Option<Seq<Cell>>,
    new: Seq<Cell>,
    n: nat,
)
    requires
        keys_of(pk_columns, rel, row, None, n) is Ok,
    ensures
        keys_of(pk_columns, rel, row, Some(new), n) == keys_of(pk_columns, rel, row, None, n),
    decreases n,
{
    if n > 0 {
        lemma_same_keys(pk_columns, rel, row, new, (n - 1) as nat);
    }
}

/// An insert brings its row into the shadow, a delete takes out the row that it carries,
/// each in one statement; a truncate does nothing.
pub proof fn law_shadows_take_in_the_change(
    s: ShadowModel,
    rel: RelationModel,
    change: ChangeModel,
    old_full: Option<Seq<Cell>>,
    new_full: Option<Seq<Cell>>,
    quoting: spec_fn(Seq<char>) -> Seq<char>,
)
    ensures
        ({
            let plan = shadow_plan(s, rel, change, old_full, new_full, quoting);
            &&& change is Insert && plan.failure is None ==> new_full is Some
                && plan.statements.len() == 1 && shadow_insert(
                s,
                rel,
                new_full->0,
                quoting,
            ) == Ok::<StatementModel, Seq<char>>(plan.statements[0])
            &&& change is Delete && plan.failure is None ==> plan.statements.len() == 1
                && finds_by_key(
                plan.statements[0],
                s,
                rel,
                Some(change->Delete_old),
                None,
                quoting,
            ) && has_part(plan.statements[0].sql, "DELETE FROM "@ + s.table)
            &&& change is Update && plan.failure is None ==> new_full is Some
                && plan.statements.len() == 2 && has_part(
                plan.statements[0].sql,
                "DELETE FROM "@ + s.table,
            ) && shadow_insert(s, rel, new_full->0, quoting) == Ok::<StatementModel, Seq<char>>(
                plan.statements[1],
            )
            &&& change is Update && plan.failure is None && old_full is Some ==> finds_by_key(
                plan.statements[0],
                s,
                rel,
                old_full,
                Some(change->Update_new),
                quoting,
            )
            &&& change is Truncate ==> plan.statements.len() == 0 && plan.failure is None
        }),
{
    match change {
        ChangeModel::Delete { relid, key_kind, old: row } => {
            law_shadow_rows_are_found_by_the_whole_key(s, rel, Some(row), None, quoting);
        },
        ChangeModel::Update { relid, old: before, new } => {
            let row = if old_full is Some {
                old_full
            } else {
                carried(before)
            };
            law_shadow_rows_are_found_by_the_whole_key(s, rel, row, Some(new), quoting);
        },
        _ => {},
    }
}

/// A change touches the relation it names; a truncate touches every one it names.
pub proof fn law_changes_touch_their_relations(
    relid: u32,
    key_kind: u8,
    before: Option<(u8, Seq<Cell>)>,
    row: Seq<Cell>,
    relids: Seq<u32>,
)
    ensures
        relids_of(ChangeModel::Insert { relid, new: row }) == seq![relid],
        relids_of(ChangeModel::Update { relid, old: before, new: row }) == seq![relid],
        relids_of(ChangeModel::Delete { relid, key_kind, old: row }) == seq![relid],
        relids_of(ChangeModel::Truncate { relids }) == relids,
{
}

/// A view takes in a change exactly where it reads the relation, is healthy and has not
/// taken in its transaction yet.
pub proof fn law_views_take_in_what_they_read(v: LiveModel, relid: u32, end_lsn: u64)
    ensures
        is_active(v, relid, end_lsn) <==> v.failed is None && v.stale is None && v.frontier
            < end_lsn && exists|i: int|
            0 <= i < v.spec.relations.len() && (#[trigger] v.spec.relations[i]).oid == relid,
{
    lemma_relation_position(v.spec.relations, relid);
}

/// When a shadow is lost every live join view that reads its relation goes stale, with the
/// reason; other views are left as they are.
pub proof fn law_lost_shadows_make_their_views_stale(
    v: LiveModel,
    relid: u32,
    rel: RelationModel,
    message: Seq<char>,
)
    ensures
        ({
            let after = without_shadow(v, relid, rel, message);
            let reads = exists|i: int|
                0 <= i < v.spec.relations.len() && (#[trigger] v.spec.relations[i]).oid == relid;
            &&& reads && v.spec.relations.len() > 1 && !v.dead ==> after.stale is Some
            &&& reads && v.spec.relations.len() > 1 && !v.dead && v.stale is None ==> has_part(
                after.stale->0,
                message,
            ) && has_part(after.stale->0, rel.name)
            &&& !reads || v.spec.relations.len() <= 1 || v.dead || v.stale is Some ==> after == v
            &&& after == (LiveModel { stale: after.stale, ..v })
        }),
{
    lemma_relation_position(v.spec.relations, relid);
    let front = "shadow of "@ + rel.name + " could not be maintained: "@;
    text::lemma_part_of_itself(message);
    text::lemma_part_of_itself(rel.name);
    text::lemma_part_right(front, message, message);
    text::lemma_part_within("shadow of "@, rel.name, " could not be maintained: "@, rel.name);
    text::lemma_part_left(front, message, rel.name);
}

/// A failure is recorded with its count and its message, at the view's own row; the view is
/// given up at the last one that is allowed, at least the first, and then it is recorded as
/// stale with the reason.
pub proof fn law_failures_are_recorded(v: LiveModel, message: Seq<char>, max_apply_failures: i32)
    requires
        v.apply_failures < i32::MAX,
    ensures
        ({
            let (after, statement) = failed_once_more(v, message, max_apply_failures);
            let count = v.apply_failures + 1;
            let last = count >= max_apply_failures || count >= 1 && max_apply_failures < 1;
            &&& after.apply_failures == count
            &&& statement.args[0] == ArgModel::Int4(v.id)
            &&& statement.args.contains(ArgModel::Int4(count as i32))
            &&& statement.args.last() == ArgModel::Text(Some(message))
            &&& count >= 1 && last ==> after.stale is Some && has_part(after.stale->0, message)
                && statement.args[1] == ArgModel::Text(after.stale) && has_part(
                statement.sql,
                "status = 'stale'"@,
            )
            &&& count < max_apply_failures ==> after == (LiveModel {
                apply_failures: count as i32,
                ..v
            })
        }),
{
    let (after, statement) = failed_once_more(v, message, max_apply_failures);
    let count = (v.apply_failures + 1) as i32;
    if count >= failures_allowed(max_apply_failures) {
        assert(statement.args[2] == ArgModel::Int4(count));
        text::lemma_part_of_itself(message);
        text::lemma_part_right(
            "apply failed "@ + signed_decimal(count as int) + " times: "@,
            message,
            message,
        );
        lemma_stale_text();
    } else {
        assert(statement.args[1] == ArgModel::Int4(count));
    }
}

proof fn lemma_stale_text()
    ensures
        has_part(
            "UPDATE nabla.views SET status = 'stale', stale_reason = $2, apply_failures = $3, last_error = $4, last_error_at = now() WHERE id = $1"@,
            "status = 'stale'"@,
        ),
        has_part(
            "UPDATE nabla.views SET status = 'stale', stale_reason = $2 WHERE id = $1"@,
            "status = 'stale'"@,
        ),
{
    reveal_strlit("status = 'stale'");
    reveal_strlit("UPDATE nabla.views SET status = 'stale', stale_reason = $2 WHERE id = $1");
    reveal_strlit(
        "UPDATE nabla.views SET status = 'stale', stale_reason = $2, apply_failures = $3, last_error = $4, last_error_at = now() WHERE id = $1",
    );
    let a = "UPDATE nabla.views SET status = 'stale', stale_reason = $2 WHERE id = $1"@;
    let b = "UPDATE nabla.views SET status = 'stale', stale_reason = $2, apply_failures = $3, last_error = $4, last_error_at = now() WHERE id = $1"@;
    assert(a.subrange(23, 39) =~= "status = 'stale'"@);
    text::lemma_part_at(a, "status = 'stale'"@, 23);
    assert(b.subrange(23, 39) =~= "status = 'stale'"@);
    text::lemma_part_at(b, "status = 'stale'"@, 23);
}

/// A view that goes stale is recorded as such at its own row, with the reason; so is a
/// shadow that fails.
pub proof fn law_stale_views_are_recorded(
    id: i32,
    reason: Seq<char>,
    s: ShadowModel,
    message: Seq<char>,
)
    ensures
        stale_statement(id, reason).args == seq![
            ArgModel::Int4(id),
            ArgModel::Text(Some(reason)),
        ],
        has_part(stale_statement(id, reason).sql, "status = 'stale'"@),
        shadow_failed(s, message).0 == (ShadowModel { failed: true, ..s }),
        shadow_failed(s, message).1.args[0] == ArgModel::Int8(s.relid as i64),
        shadow_failed(s, message).1.args[1] matches ArgModel::Text(Some(text)) && has_part(
            text,
            message,
        ) && has_part(text, s.table),
{
    lemma_stale_text();
    let front = "shadow "@ + s.table + " could not be maintained: "@;
    text::lemma_part_of_itself(message);
    text::lemma_part_of_itself(s.table);
    text::lemma_part_right(front, message, message);
    text::lemma_part_within("shadow "@, s.table, " could not be maintained: "@, s.table);
    text::lemma_part_left(front, message, s.table);
}

proof fn lemma_only_drifted(
    rel: RelationModel,
    names: Seq<Seq<char>>,
    types: Seq<Seq<char>>,
    n: nat,
    name: Seq<char>,
)
    requires
        n <= names.len(),
    ensures
        drifted_columns(rel, names, types, n).contains(name) <==> exists|k: int|
            0 <= k < n && #[trigger] names[k] == name && !provided(rel, name, types[k]),
    decreases n,
{
    if n > 0 {
        lemma_only_drifted(rel, names, types, (n - 1) as nat, name);
        let before = drifted_columns(rel, names, types, (n - 1) as nat);
        let last = names[n - 1];
        if before.contains(name) {
            let k = choose|k: int| 0 <= k < before.len() && before[k] == name;
            assert(before.push(last)[k] == name);
        }
        assert(before.push(last)[before.len() as int] == last);
        if before.push(last).contains(name) && name != last {
            let k = choose|k: int|
                0 <= k < before.push(last).len() && before.push(last)[k] == name;
            assert(before[k] == name);
        }
    } else {
        assert(!drifted_columns(rel, names, types, n).contains(name));
    }
}

proof fn lemma_all_kept(names: Seq<Seq<char>>, gone: Seq<Seq<char>>, n: nat, k: int)
    requires
        0 <= k < n,
        !gone.contains(names[k]),
    ensures
        kept_positions(names, gone, n).contains(k),
    decreases n,
{
    let before = kept_positions(names, gone, (n - 1) as nat);
    if k < n - 1 {
        lemma_all_kept(names, gone, (n - 1) as nat, k);
        let i = choose|i: int| 0 <= i < before.len() && before[i] == k;
        assert(kept_positions(names, gone, n)[i] == k);
    } else {
        assert(kept_positions(names, gone, n)[before.len() as int] == k);
    }
}

/// A shadow fails over a schema change exactly where a key column is no longer provided as
/// it was; else it loses the columns that are not, and no others, and the loss is recorded.
pub proof fn law_shadows_lose_only_what_is_gone(
    s: ShadowModel,
    rel: RelationModel,
    qualified: Seq<char>,
    k: int,
)
    requires
        s.columns.len() == s.column_types.len(),
        !s.failed,
        0 <= k < s.columns.len(),
        forall|a: int, b: int|
            0 <= a < b < s.columns.len() ==> #[trigger] s.columns[a] != #[trigger] s.columns[b],
    ensures
        ({
            let (after, statement) = shadow_drifted(s, rel, qualified);
            let gone = |j: int| 0 <= j < s.columns.len() && !provided(
                rel,
                s.columns[j],
                s.column_types[j],
            );
            &&& after.failed <==> exists|j: int|
                #[trigger] gone(j) && s.pk_columns.contains(s.columns[j])
            &&& !after.failed ==> (after.columns.contains(s.columns[k]) <==> !gone(k))
            &&& statement is Some <==> exists|j: int| #[trigger] gone(j)
            &&& statement is Some ==> (statement->0).args[0] == ArgModel::Int8(s.relid as i64)
            &&& statement is Some && !after.failed ==> (statement->0).args[1] == ArgModel::Texts(
                after.columns,
            ) && (statement->0).args[2] == ArgModel::Texts(after.column_types)
            &&& statement is None ==> after == s
        }),
{
    let n = s.columns.len();
    let (after, statement) = shadow_drifted(s, rel, qualified);
    let lost = drifted_columns(rel, s.columns, s.column_types, n);
    let gone = |j: int| 0 <= j < s.columns.len() && !provided(rel, s.columns[j], s.column_types[j]);
    assert forall|j: int| 0 <= j < n implies (lost.contains(#[trigger] s.columns[j]) <==> gone(
        j,
    )) by {
        lemma_only_drifted(rel, s.columns, s.column_types, n, s.columns[j]);
        if lost.contains(s.columns[j]) {
            let i = choose|i: int|
                0 <= i < n && #[trigger] s.columns[i] == s.columns[j] && !provided(
                    rel,
                    s.columns[j],
                    s.column_types[i],
                );
            assert(i == j);
        }
    }
    if lost.len() > 0 {
        lemma_only_drifted(rel, s.columns, s.column_types, n, lost[0]);
        assert(lost.contains(lost[0]));
        let j = choose|j: int|
            0 <= j < n && #[trigger] s.columns[j] == lost[0] && !provided(
                rel,
                lost[0],
                s.column_types[j],
            );
        assert(gone(j));
    }
    if exists|j: int| #[trigger] gone(j) {
        let j = choose|j: int| #[trigger] gone(j);
        assert(lost.contains(s.columns[j]));
    }
    if exists|i: int| 0 <= i < lost.len() && s.pk_columns.contains(#[trigger] lost[i]) {
        let i = choose|i: int| 0 <= i < lost.len() && s.pk_columns.contains(#[trigger] lost[i]);
        lemma_only_drifted(rel, s.columns, s.column_types, n, lost[i]);
        assert(lost.contains(lost[i]));
        let j = choose|j: int|
            0 <= j < n && #[trigger] s.columns[j] == lost[i] && !provided(
                rel,
                lost[i],
                s.column_types[j],
            );
        assert(gone(j) && s.pk_columns.contains(s.columns[j]));
    }
    if exists|j: int| #[trigger] gone(j) && s.pk_columns.contains(s.columns[j]) {
        let j = choose|j: int| #[trigger] gone(j) && s.pk_columns.contains(s.columns[j]);
        assert(lost.contains(s.columns[j]));
        let i = choose|i: int| 0 <= i < lost.len() && lost[i] == s.columns[j];
        assert(s.pk_columns.contains(lost[i]));
    }
    if !after.failed {
        if lost.len() == 0 {
            assert(after.columns[k] == s.columns[k]);
            assert(!lost.contains(s.columns[k]));
        } else {
            let kept = kept_positions(s.columns, lost, n);
            lemma_kept_positions(s.columns, lost, n);
            if !gone(k) {
                lemma_all_kept(s.columns, lost, n, k);
                let i = choose|i: int| 0 <= i < kept.len() && kept[i] == k;
                assert(after.columns[i] == s.columns[k]);
            } else if after.columns.contains(s.columns[k]) {
                let i = choose|i: int|
                    0 <= i < after.columns.len() && after.columns[i] == s.columns[k];
                assert(after.columns[i] == s.columns[kept[i]]);
                assert(!lost.contains(s.columns[kept[i]]));
            }
        }
    }
}

/// An error is described by its message, and by its detail on the same line.
pub proof fn law_errors_are_described_on_one_line(message: Seq<char>, detail: Seq<char>)
    ensures
        described(message, None) == message,
        described(message, Some(detail)).len() == message.len() + detail.len() + 3,
        described(message, Some(detail)).take(message.len() as int) == message,
        forall|i: int|
            0 <= i < detail.len() ==> ({
                let c = #[trigger] described(message, Some(detail))[message.len() + 2 + i];
                if detail[i] == '\n' {
                    c == ' '
                } else {
                    c == detail[i]
                }
            }),
{
    reveal_strlit(" (");
    reveal_strlit(")");
    let text = described(message, Some(detail));
    assert(text.take(message.len() as int) =~= message);
}

/// What the operator is told names the view or the shadow and gives the reason.
pub proof fn law_notices_name_what_they_are_about(
    v: LiveModel,
    s: ShadowModel,
    end_lsn: u64,
    message: Seq<char>,
    max_apply_failures: i32,
)
    ensures
        has_part(stale_notice(v.name, message).text, v.name),
        has_part(stale_notice(v.name, message).text, message),
        has_part(shadow_failed_notice(s, message).text, s.table),
        has_part(shadow_failed_notice(s, message).text, message),
        has_part(failure_notice(v, end_lsn, message, max_apply_failures).text, v.name),
        has_part(failure_notice(v, end_lsn, message, max_apply_failures).text, message),
{
    lemma_told(
        "nabla worker: view "@,
        v.name,
        " marked stale: "@,
        message,
    );
    lemma_told("shadow "@, s.table, " could not be maintained: "@, message);
    let inner = "shadow "@ + s.table + " could not be maintained: "@ + message;
    text::lemma_part_right("nabla worker: "@, inner, s.table);
    text::lemma_part_right("nabla worker: "@, inner, message);
    let failures = v.apply_failures + 1;
    let max = failures_allowed(max_apply_failures);
    if failures >= max {
        let reason = given_up(failures, message);
        text::lemma_part_of_itself(message);
        text::lemma_part_right(
            "apply failed "@ + signed_decimal(failures) + " times: "@,
            message,
            message,
        );
        lemma_told("nabla worker: view "@, v.name, " marked stale: "@, reason);
        lemma_part_in_part(stale_notice(v.name, reason).text, reason, message);
    } else {
        let middle = " failed to apply the transaction ending at "@ + lsn::formatted(end_lsn)
            + " (attempt "@ + signed_decimal(failures) + " of "@ + signed_decimal(max as int)
            + "): "@;
        lemma_told("nabla worker: view "@, v.name, middle, message);
        assert("nabla worker: view "@ + v.name + middle + message =~= failure_notice(
            v,
            end_lsn,
            message,
            max_apply_failures,
        ).text);
    }
}

proof fn lemma_told(front: Seq<char>, a: Seq<char>, middle: Seq<char>, b: Seq<char>)
    ensures
        has_part(front + a + middle + b, a),
        has_part(front + a + middle + b, b),
{
    assert(has_part(front + a + middle + b, a)) by {
        text::lemma_part_of_itself(a);
        text::lemma_part_within(front, a, middle, a);
        text::lemma_part_left(front + a + middle, b, a);
    }
    assert(has_part(front + a + middle + b, b)) by {
        text::lemma_part_of_itself(b);
        text::lemma_part_right(front + a + middle, b, b);
    }
}

/// A view that lost a column says which one, of which table.
pub proof fn law_drift_names_the_column(name: Seq<char>, qualified: Seq<char>)
    ensures
        has_part(drift_reason(name, qualified), name),
        has_part(drift_reason(name, qualified), qualified),
{
    lemma_told("column \""@, name, "\" of "@, qualified);
    let told = "column \""@ + name + "\" of "@ + qualified;
    text::lemma_part_left(told, " was dropped, renamed or changed type"@, name);
    text::lemma_part_left(told, " was dropped, renamed or changed type"@, qualified);
}

proof fn lemma_first_drifted_is(
    rel: RelationModel,
    names: Seq<Seq<char>>,
    types: Seq<Seq<char>>,
    n: nat,
)
    ensures
        first_drifted(rel, names, types, n) matches Some(name) ==> exists|k: int|
            0 <= k < n && #[trigger] names[k] == name && !provided(rel, name, types[k]),
    decreases n,
{
    if n > 0 {
        lemma_first_drifted_is(rel, names, types, (n - 1) as nat);
        if first_drifted(rel, names, types, (n - 1) as nat) is None && first_drifted(
            rel,
            names,
            types,
            n,
        ) is Some {
            assert(!provided(rel, names[n - 1], types[n - 1]));
        }
    }
}

/// The column that a stale view names is one that it uses and that is gone or changed, and
/// the table is the one that changed, by the view's own name for it.
pub proof fn law_drifted_views_name_a_lost_column(spec: SpecModel, relid: u32, rel: RelationModel)
    ensures
        drifted(spec, relid, rel) matches Some(reason) ==> exists|i: int, k: int|
            0 <= i < spec.relations.len() && (#[trigger] spec.relations[i]).oid == relid && 0 <= k
                < spec.relations[i].used_columns.len() && !provided(
                rel,
                #[trigger] spec.relations[i].used_columns[k],
                spec.relations[i].used_column_types[k],
            ) && has_part(reason, spec.relations[i].used_columns[k]) && has_part(
                reason,
                spec.relations[i].qualified,
            ),
{
    lemma_relation_position(spec.relations, relid);
    if let Some(index) = relation_position(spec.relations, relid) {
        let base = spec.relations[index];
        let n = shorter(base.used_columns.len(), base.used_column_types.len());
        lemma_first_drifted_is(rel, base.used_columns, base.used_column_types, n);
        if let Some(name) = first_drifted(rel, base.used_columns, base.used_column_types, n) {
            let k = choose|k: int|
                0 <= k < n && #[trigger] base.used_columns[k] == name && !provided(
                    rel,
                    name,
                    base.used_column_types[k],
                );
            law_drift_names_the_column(name, base.qualified);
            assert(spec.relations[index].used_columns[k] == name);
        }
    }
}

} // verus!
