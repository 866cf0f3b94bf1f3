//! Shape decisions for view definitions, made on the analyzed query tree.
//!
//! A definition reaches this module as a `Query`: the clauses it uses, its
//! range table with the catalog facts of each base table, its join tree, its
//! quals and its targets, each expression with its tree and its SQL text.
//! Single-table views have their columns printed bare; join views have every
//! column printed as `alias.column`, matching the FROM list that a one-row
//! VALUES for the changed table and shadow tables for the others make up.
//! Anything outside the two accepted shapes is rejected with a specific reason.
use vstd::prelude::*;

use crate::errors;
use crate::errors::Report;
use crate::query::{
    all_inner, check_tables, checks, clauses_error, collect_quals, collect_relations, collected,
    contains_number, first_table_error, foreign_error, law_every_qual_is_taken,
    law_every_reference_is_read, law_only_inner_joins_are_accepted, mutable_error, quals_of,
    referenced_vars, refers, reject_unsupported_clauses, relation_indexes, require_base_vars,
    require_immutable, stands_in, table_error, vars_of, Aggregate, Attribute, Expression,
    NORMAL_AGGREGATE, Node, Query, Table, TableColumn, Target,
};
use crate::quote::Quoting;
use crate::text;
use crate::text::{
    decimal, has_part, joined, lemma_part_left, lemma_part_of_itself, lemma_part_of_joined,
    lemma_part_right, lemma_part_within, occurs_at, view_of_option, views,
};

verus! {

/// Name of the group-count column added when an aggregate definition has no
/// count(*). It is a real column of the view table and appears in deltas.
pub const HIDDEN_COUNT_COLUMN: &'static str = "_nabla_n";

/// Prefix of the hidden non-NULL counter that accompanies every sum():
/// `_nabla_nn_<n>`, where n is the 0-based position of that sum among the
/// view's aggregates in select-list order. Clients ignore `_nabla_*` columns.
pub const HIDDEN_SUM_COUNTER_PREFIX: &'static str = "_nabla_nn_";

/// Prefix of the hidden primary-key columns of a projection join view:
/// `_nabla_pk<rti>_<column>`, rti being the base relation's 1-based position
/// in the view's relation list (range-table order).
pub const HIDDEN_PK_PREFIX: &'static str = "_nabla_pk";

#[derive(Clone, Copy, Debug, PartialEq, Eq, Structural)]
pub enum Shape {
    Projection,
    Aggregate,
}

impl Shape {
    pub fn as_str(self) -> (result: &'static str)
        ensures
            result@ == match self {
                Shape::Projection => "projection"@,
                Shape::Aggregate => "aggregate"@,
            },
    {
        match self {
            Shape::Projection => "projection",
            Shape::Aggregate => "aggregate",
        }
    }
}

/// One output column: the SQL of an expression over base columns and the
/// (unquoted) name it has in the view table.
#[derive(Debug, PartialEq, Eq)]
pub struct OutputColumn {
    pub expr: String,
    pub alias: String,
}

pub struct OutputModel {
    pub expr: Seq<char>,
    pub alias: Seq<char>,
}

impl View for OutputColumn {
    type V = OutputModel;

    open spec fn view(&self) -> OutputModel {
        OutputModel { expr: self.expr@, alias: self.alias@ }
    }
}

impl Clone for OutputColumn {
    fn clone(&self) -> (result: Self)
        ensures
            result@ == self@,
    {
        OutputColumn {
            expr: self.expr.clone(),
            alias: self.alias.clone(),
        }
    }
}

/// A sum() aggregate: the SQL of the argument, the output column, and the
/// hidden column counting its non-NULL contributions (the stored sum is
/// NULL exactly when that counter is 0, matching PostgreSQL).
#[derive(Debug, PartialEq, Eq)]
pub struct SumSpec {
    pub expr: String,
    pub alias: String,
    pub counter: String,
}

pub struct SumModel {
    pub expr: Seq<char>,
    pub alias: Seq<char>,
    pub counter: Seq<char>,
}

impl View for SumSpec {
    type V = SumModel;

    open spec fn view(&self) -> SumModel {
        SumModel { expr: self.expr@, alias: self.alias@, counter: self.counter@ }
    }
}

impl Clone for SumSpec {
    fn clone(&self) -> (result: Self)
        ensures
            result@ == self@,
    {
        SumSpec {
            expr: self.expr.clone(),
            alias: self.alias.clone(),
            counter: self.counter.clone(),
        }
    }
}

/// One base relation of a view, in range-table order.
#[derive(Debug, PartialEq, Eq)]
pub struct BaseRelation {
    pub oid: u32,
    /// 1-based position in the view's relation list.
    pub rti: usize,
    /// The alias the definition used for it (or the relation name), unquoted.
    pub alias: String,
    /// Quoted, schema-qualified name, ready for SQL.
    pub qualified: String,
    pub pk_columns: Vec<String>,
    /// All column names in attribute order.
    pub columns: Vec<String>,
    /// Types of `columns` (`format_type` text), parallel to it.
    pub column_types: Vec<String>,
    /// Columns this view reads from the relation (select list, group keys,
    /// quals and, for join views, the primary key), in attribute order.
    pub used_columns: Vec<String>,
    /// Types of `used_columns`, parallel to it; a mismatch with the decoded
    /// relation marks the view stale.
    pub used_column_types: Vec<String>,
}

pub struct BaseModel {
    pub oid: u32,
    pub rti: usize,
    pub alias: Seq<char>,
    pub qualified: Seq<char>,
    pub pk_columns: Seq<Seq<char>>,
    pub columns: Seq<Seq<char>>,
    pub column_types: Seq<Seq<char>>,
    pub used_columns: Seq<Seq<char>>,
    pub used_column_types: Seq<Seq<char>>,
}

impl View for BaseRelation {
    type V = BaseModel;

    open spec fn view(&self) -> BaseModel {
        BaseModel {
            oid: self.oid,
            rti: self.rti,
            alias: self.alias@,
            qualified: self.qualified@,
            pk_columns: views(self.pk_columns@),
            columns: views(self.columns@),
            column_types: views(self.column_types@),
            used_columns: views(self.used_columns@),
            used_column_types: views(self.used_column_types@),
        }
    }
}

impl Clone for BaseRelation {
    fn clone(&self) -> (result: Self)
        ensures
            result@ == self@,
    {
        let pk_columns = self.pk_columns.clone();
        assert(views(pk_columns@) =~= views(self.pk_columns@));
        let columns = self.columns.clone();
        assert(views(columns@) =~= views(self.columns@));
        let column_types = self.column_types.clone();
        assert(views(column_types@) =~= views(self.column_types@));
        let used_columns = self.used_columns.clone();
        assert(views(used_columns@) =~= views(self.used_columns@));
        let used_column_types = self.used_column_types.clone();
        assert(views(used_column_types@) =~= views(self.used_column_types@));
        BaseRelation {
            oid: self.oid,
            rti: self.rti,
            alias: self.alias.clone(),
            qualified: self.qualified.clone(),
            pk_columns,
            columns,
            column_types,
            used_columns,
            used_column_types,
        }
    }
}

#[derive(Debug)]
pub struct ViewSpec {
    pub shape: Shape,
    /// Quoted, schema-qualified name of the (first) base table.
    pub base_table: String,
    /// Bare (unquoted) relation name of the single base table; the decoded
    /// row is aliased with it for single-table views.
    pub base_relname: String,
    /// The WHERE clause (for joins: the conjunction of every ON and WHERE).
    pub predicate: Option<String>,
    /// Projection: every visible output column. Aggregate: the group keys.
    pub columns: Vec<OutputColumn>,
    /// Base primary key column names (single-table projection only).
    pub pk_columns: Vec<String>,
    /// View columns identifying a row of a projection view, in order:
    /// the selected PK columns (single table) or the hidden `_nabla_pk*`
    /// columns (join).
    pub pk_view_columns: Vec<String>,
    /// View column carrying the group count (aggregate only).
    pub count_alias: Option<String>,
    /// True when `count_alias` is the hidden column nabla added.
    pub hidden_count: bool,
    /// count(<expr>) aggregates: the output column is the non-NULL counter itself.
    pub counts: Vec<OutputColumn>,
    /// sum() aggregates with their hidden non-NULL counters.
    pub sums: Vec<SumSpec>,
    /// SELECT that fills the view table (create and refresh).
    pub populate_sql: String,
    /// Base relations in range-table order (one entry for single-table views).
    pub relations: Vec<BaseRelation>,
    /// The populate query's select list (visible and hidden columns).
    pub select_list: String,
    /// GROUP BY expressions of the populate query, if any.
    pub group_by: Option<String>,
    /// The definition's output column names, in order.
    pub visible_columns: Vec<String>,
    /// Maintenance columns nabla added (`_nabla_*`), stripped from delta rows by default.
    pub hidden_columns: Vec<String>,
}

pub struct SpecModel {
    pub shape: Shape,
    pub base_table: Seq<char>,
    pub base_relname: Seq<char>,
    pub predicate: Option<Seq<char>>,
    pub columns: Seq<OutputModel>,
    pub pk_columns: Seq<Seq<char>>,
    pub pk_view_columns: Seq<Seq<char>>,
    pub count_alias: Option<Seq<char>>,
    pub hidden_count: bool,
    pub counts: Seq<OutputModel>,
    pub sums: Seq<SumModel>,
    pub populate_sql: Seq<char>,
    pub relations: Seq<BaseModel>,
    pub select_list: Seq<char>,
    pub group_by: Option<Seq<char>>,
    pub visible_columns: Seq<Seq<char>>,
    pub hidden_columns: Seq<Seq<char>>,
}

impl View for ViewSpec {
    type V = SpecModel;

    open spec fn view(&self) -> SpecModel {
        SpecModel {
            shape: self.shape,
            base_table: self.base_table@,
            base_relname: self.base_relname@,
            predicate: view_of_option(self.predicate),
            columns: views(self.columns@),
            pk_columns: views(self.pk_columns@),
            pk_view_columns: views(self.pk_view_columns@),
            count_alias: view_of_option(self.count_alias),
            hidden_count: self.hidden_count,
            counts: views(self.counts@),
            sums: views(self.sums@),
            populate_sql: self.populate_sql@,
            relations: views(self.relations@),
            select_list: self.select_list@,
            group_by: view_of_option(self.group_by),
            visible_columns: views(self.visible_columns@),
            hidden_columns: views(self.hidden_columns@),
        }
    }
}

impl Clone for ViewSpec {
    fn clone(&self) -> (result: Self)
        ensures
            result@ == self@,
    {
        let columns = self.columns.clone();
        assert(views(columns@) =~= views(self.columns@));
        let pk_columns = self.pk_columns.clone();
        assert(views(pk_columns@) =~= views(self.pk_columns@));
        let pk_view_columns = self.pk_view_columns.clone();
        assert(views(pk_view_columns@) =~= views(self.pk_view_columns@));
        let counts = self.counts.clone();
        assert(views(counts@) =~= views(self.counts@));
        let sums = self.sums.clone();
        assert(views(sums@) =~= views(self.sums@));
        let relations = self.relations.clone();
        assert(views(relations@) =~= views(self.relations@));
        let visible_columns = self.visible_columns.clone();
        assert(views(visible_columns@) =~= views(self.visible_columns@));
        let hidden_columns = self.hidden_columns.clone();
        assert(views(hidden_columns@) =~= views(self.hidden_columns@));
        ViewSpec {
            shape: self.shape,
            base_table: self.base_table.clone(),
            base_relname: self.base_relname.clone(),
            predicate: self.predicate.clone(),
            columns,
            pk_columns,
            pk_view_columns,
            count_alias: self.count_alias.clone(),
            hidden_count: self.hidden_count,
            counts,
            sums,
            populate_sql: self.populate_sql.clone(),
            relations,
            select_list: self.select_list.clone(),
            group_by: self.group_by.clone(),
            visible_columns,
            hidden_columns,
        }
    }
}

impl ViewSpec {
    pub fn is_join(&self) -> (result: bool)
        ensures
            result == (self@.relations.len() > 1),
    {
        self.relations.len() > 1
    }
}

/// Base table facts from the catalog (single-table API checks).
pub struct BaseTable {
    pub oid: u32,
    pub qualified: String,
    pub replident: String,
    pub pk_columns: Vec<String>,
}

pub struct BaseTableModel {
    pub oid: u32,
    pub qualified: Seq<char>,
    pub replident: Seq<char>,
    pub pk_columns: Seq<Seq<char>>,
}

impl View for BaseTable {
    type V = BaseTableModel;

    open spec fn view(&self) -> BaseTableModel {
        BaseTableModel {
            oid: self.oid,
            qualified: self.qualified@,
            replident: self.replident@,
            pk_columns: views(self.pk_columns@),
        }
    }
}

// --- quals ---------------------------------------------------------------------

pub open spec fn qual_place(is_join: bool) -> Seq<char> {
    if is_join {
        "the WHERE or ON clause"@
    } else {
        "the WHERE clause"@
    }
}

/// The error of the first qual, in the order of `order`, that has one.
pub open spec fn quals_error(
    quals: Seq<Expression>,
    order: Seq<usize>,
    is_join: bool,
    allowed: Seq<i32>,
    n: nat,
) -> Option<Seq<char>>
    decreases n,
{
    if n == 0 {
        None
    } else {
        let qual = quals[order[n - 1] as int];
        match quals_error(quals, order, is_join, allowed, (n - 1) as nat) {
            Some(reason) => Some(reason),
            None => match mutable_error(qual, qual_place(is_join)) {
                Some(reason) => Some(reason),
                None => foreign_error(qual, allowed),
            },
        }
    }
}

proof fn lemma_quals_check_stays(
    quals: Seq<Expression>,
    order: Seq<usize>,
    is_join: bool,
    allowed: Seq<i32>,
    n: nat,
    m: nat,
)
    requires
        n <= m,
        quals_error(quals, order, is_join, allowed, n) is Some,
    ensures
        quals_error(quals, order, is_join, allowed, m) == quals_error(
            quals,
            order,
            is_join,
            allowed,
            n,
        ),
    decreases m - n,
{
    if n < m {
        lemma_quals_check_stays(quals, order, is_join, allowed, n, (m - 1) as nat);
    }
}

fn check_quals(
    quals: &Vec<Expression>,
    order: &Vec<usize>,
    is_join: bool,
    allowed: &Vec<i32>,
) -> (result: Result<(), String>)
    requires
        forall|i: int| 0 <= i < order@.len() ==> (#[trigger] order@[i]) < quals@.len(),
    ensures
        checks(result, quals_error(quals@, order@, is_join, allowed@, order@.len())),
{
    let place = if is_join {
        "the WHERE or ON clause"
    } else {
        "the WHERE clause"
    };
    let mut i: usize = 0;
    while i < order.len()
        invariant
            place@ == qual_place(is_join),
            i <= order@.len(),
            forall|j: int| 0 <= j < order@.len() ==> (#[trigger] order@[j]) < quals@.len(),
            quals_error(quals@, order@, is_join, allowed@, i as nat) is None,
        decreases order@.len() - i,
    {
        let qual = &quals[order[i]];
        match require_immutable(qual, place) {
            Ok(()) => {},
            Err(reason) => {
                proof {
                    lemma_quals_check_stays(
                        quals@,
                        order@,
                        is_join,
                        allowed@,
                        (i + 1) as nat,
                        order@.len(),
                    );
                }
                return Err(reason);
            },
        }
        match require_base_vars(qual, allowed) {
            Ok(()) => {},
            Err(reason) => {
                proof {
                    lemma_quals_check_stays(
                        quals@,
                        order@,
                        is_join,
                        allowed@,
                        (i + 1) as nat,
                        order@.len(),
                    );
                }
                return Err(reason);
            },
        }
        i = i + 1;
    }
    Ok(())
}

/// The conjunction of the quals.
pub open spec fn conjunction(parts: Seq<Seq<char>>) -> Option<Seq<char>> {
    if parts.len() == 0 {
        None
    } else if parts.len() == 1 {
        Some(parts[0])
    } else {
        Some(joined(parts.map_values(|p: Seq<char>| "("@ + p + ")"@), " AND "@))
    }
}

/// The SQL of the quals, in the order of `order`.
pub open spec fn qual_texts(quals: Seq<Expression>, order: Seq<usize>) -> Seq<Seq<char>> {
    order.map_values(|i: usize| quals[i as int].sql@)
}

fn predicate_of(quals: &Vec<Expression>, order: &Vec<usize>) -> (result: Option<String>)
    requires
        forall|i: int| 0 <= i < order@.len() ==> (#[trigger] order@[i]) < quals@.len(),
    ensures
        view_of_option(result) == conjunction(qual_texts(quals@, order@)),
{
    if order.len() == 0 {
        return None;
    }
    if order.len() == 1 {
        assert(qual_texts(quals@, order@)[0] == quals@[order@[0] as int].sql@);
        return Some(quals[order[0]].sql.clone());
    }
    let mut parts: Vec<String> = Vec::new();
    let mut i: usize = 0;
    while i < order.len()
        invariant
            i <= order@.len(),
            parts@.len() == i,
            forall|j: int| 0 <= j < order@.len() ==> (#[trigger] order@[j]) < quals@.len(),
            forall|j: int|
                0 <= j < i ==> (#[trigger] parts@[j])@ == "("@ + quals@[order@[j] as int].sql@ + ")"@,
        decreases order@.len() - i,
    {
        parts.push("(".to_string().concat(&quals[order[i]].sql).concat(")"));
        i = i + 1;
    }
    assert(views(parts@) =~= qual_texts(quals@, order@).map_values(
        |p: Seq<char>| "("@ + p + ")"@,
    ));
    Some(text::join(&parts, " AND "))
}

// --- select list ---------------------------------------------------------------

/// Whether a group key is left out of the select list.
pub open spec fn hidden_group_key(targets: Seq<Target>, refs: Seq<u32>) -> bool {
    exists|i: int|
        0 <= i < targets.len() && (#[trigger] targets[i]).resjunk && targets[i].sortgroupref != 0
            && refs.contains(targets[i].sortgroupref)
}

/// The names of the visible targets among the first `n`.
pub open spec fn visible_names(targets: Seq<Target>, n: nat) -> Seq<Seq<char>>
    decreases n,
{
    if n == 0 {
        Seq::empty()
    } else if targets[n - 1].resjunk {
        visible_names(targets, (n - 1) as nat)
    } else {
        visible_names(targets, (n - 1) as nat).push(targets[n - 1].alias@)
    }
}

/// Why the target at position `i` cannot be an output column.
pub open spec fn target_error(targets: Seq<Target>, allowed: Seq<i32>, i: int) -> Option<
    Seq<char>,
> {
    let t = targets[i];
    if t.resjunk {
        None
    } else if occurs_at(t.alias@, "_nabla_"@, 0) {
        Some("column names starting with _nabla_ are reserved (\""@ + t.alias@ + "\")"@)
    } else if visible_names(targets, i as nat).contains(t.alias@) {
        Some(
            "output column names must be unique; add AS aliases (duplicate: \""@ + t.alias@
                + "\")"@,
        )
    } else {
        foreign_error(t.expr, allowed)
    }
}

/// The error of the first target that has one.
pub open spec fn targets_error(targets: Seq<Target>, allowed: Seq<i32>, n: nat) -> Option<Seq<char>>
    decreases n,
{
    if n == 0 {
        None
    } else {
        match targets_error(targets, allowed, (n - 1) as nat) {
            Some(reason) => Some(reason),
            None => target_error(targets, allowed, n - 1),
        }
    }
}

proof fn lemma_targets_error_stays(targets: Seq<Target>, allowed: Seq<i32>, n: nat, m: nat)
    requires
        n <= m,
        targets_error(targets, allowed, n) is Some,
    ensures
        targets_error(targets, allowed, m) == targets_error(targets, allowed, n),
    decreases m - n,
{
    if n < m {
        lemma_targets_error_stays(targets, allowed, n, (m - 1) as nat);
    }
}

/// What the select list is rejected for.
pub open spec fn select_list_error(
    targets: Seq<Target>,
    refs: Seq<u32>,
    allowed: Seq<i32>,
) -> Option<Seq<char>> {
    if hidden_group_key(targets, refs) {
        Some("every GROUP BY expression must also appear in the select list"@)
    } else if visible_names(targets, targets.len()).len() == 0 {
        Some("the select list is empty"@)
    } else {
        targets_error(targets, allowed, targets.len())
    }
}

fn contains_ref(refs: &Vec<u32>, r: u32) -> (result: bool)
    ensures
        result == refs@.contains(r),
{
    let mut i: usize = 0;
    while i < refs.len()
        invariant
            i <= refs@.len(),
            forall|j: int| 0 <= j < i ==> refs@[j] != r,
        decreases refs@.len() - i,
    {
        if refs[i] == r {
            return true;
        }
        i = i + 1;
    }
    false
}

fn names_of_visible(targets: &Vec<Target>) -> (result: Vec<String>)
    ensures
        views(result@) == visible_names(targets@, targets@.len()),
{
    let mut out: Vec<String> = Vec::new();
    let mut i: usize = 0;
    assert(views(out@) =~= visible_names(targets@, 0));
    while i < targets.len()
        invariant
            i <= targets@.len(),
            views(out@) == visible_names(targets@, i as nat),
        decreases targets@.len() - i,
    {
        if !targets[i].resjunk {
            let ghost before = views(out@);
            out.push(targets[i].alias.clone());
            assert(views(out@) =~= before.push(targets@[i as int].alias@));
        }
        i = i + 1;
    }
    out
}

/// Names, uniqueness and column references of the select list. The names come
/// back in order.
fn check_select_list(targets: &Vec<Target>, refs: &Vec<u32>, allowed: &Vec<i32>) -> (result: Result<
    Vec<String>,
    String,
>)
    ensures
        match result {
            Ok(names) => select_list_error(targets@, refs@, allowed@) is None && views(names@)
                == visible_names(targets@, targets@.len()),
            Err(e) => select_list_error(targets@, refs@, allowed@) == Some(e@),
        },
{
    let mut i: usize = 0;
    while i < targets.len()
        invariant
            i <= targets@.len(),
            forall|j: int|
                0 <= j < i ==> !((#[trigger] targets@[j]).resjunk && targets@[j].sortgroupref != 0
                    && refs@.contains(targets@[j].sortgroupref)),
        decreases targets@.len() - i,
    {
        let t = &targets[i];
        if t.resjunk && t.sortgroupref != 0 && contains_ref(refs, t.sortgroupref) {
            return Err(
                "every GROUP BY expression must also appear in the select list".to_string(),
            );
        }
        i = i + 1;
    }
    let visible = names_of_visible(targets);
    if visible.len() == 0 {
        return Err("the select list is empty".to_string());
    }
    let mut seen: Vec<String> = Vec::new();
    assert(views(seen@) =~= visible_names(targets@, 0));
    i = 0;
    while i < targets.len()
        invariant
            i <= targets@.len(),
            !hidden_group_key(targets@, refs@),
            visible_names(targets@, targets@.len()).len() > 0,
            views(seen@) == visible_names(targets@, i as nat),
            targets_error(targets@, allowed@, i as nat) is None,
        decreases targets@.len() - i,
    {
        let t = &targets[i];
        if !t.resjunk {
            let reserved = text::starts_with(&t.alias, "_nabla_");
            let duplicate = text::contains(&seen, &t.alias);
            let outcome = if reserved {
                Err(
                    "column names starting with _nabla_ are reserved (\"".to_string().concat(
                        &t.alias,
                    ).concat("\")"),
                )
            } else if duplicate {
                Err(
                    "output column names must be unique; add AS aliases (duplicate: \"".to_string().concat(
                        &t.alias,
                    ).concat("\")"),
                )
            } else {
                require_base_vars(&t.expr, allowed)
            };
            if let Err(reason) = outcome {
                proof {
                    lemma_targets_error_stays(
                        targets@,
                        allowed@,
                        (i + 1) as nat,
                        targets@.len(),
                    );
                }
                return Err(reason);
            }
            let ghost before = views(seen@);
            seen.push(t.alias.clone());
            assert(views(seen@) =~= before.push(t.alias@));
        }
        i = i + 1;
    }
    Ok(visible)
}

// --- columns that the view reads -----------------------------------------------

/// The columns that the quals refer to, in the order of `order`.
pub open spec fn qual_vars(quals: Seq<Expression>, order: Seq<usize>, n: nat) -> Seq<(i32, i16)>
    decreases n,
{
    if n == 0 {
        Seq::empty()
    } else {
        qual_vars(quals, order, (n - 1) as nat) + vars_of(quals[order[n - 1] as int].tree)
    }
}

/// The columns that the visible targets refer to.
pub open spec fn target_vars(targets: Seq<Target>, n: nat) -> Seq<(i32, i16)>
    decreases n,
{
    if n == 0 {
        Seq::empty()
    } else if targets[n - 1].resjunk {
        target_vars(targets, (n - 1) as nat)
    } else {
        target_vars(targets, (n - 1) as nat) + vars_of(targets[n - 1].expr.tree)
    }
}

/// Whether a whole row of one of the relations is referred to.
pub open spec fn whole_row(vars: Seq<(i32, i16)>, indexes: Seq<i32>) -> bool {
    exists|i: int|
        0 <= i < vars.len() && (#[trigger] vars[i]).1 <= 0 && indexes.contains(vars[i].0)
}

/// Whether an attribute with this number and name is among `attributes`.
pub open spec fn names_attribute(attributes: Seq<Attribute>, attno: i16, name: Seq<char>) -> bool {
    exists|i: int|
        0 <= i < attributes.len() && (#[trigger] attributes[i]).attno == attno
            && attributes[i].name@ == name
}

/// Whether one of `vars` is the column `name` of the relation at `index`.
pub open spec fn refers_to(
    vars: Seq<(i32, i16)>,
    index: i32,
    attributes: Seq<Attribute>,
    name: Seq<char>,
) -> bool {
    exists|i: int|
        0 <= i < vars.len() && (#[trigger] vars[i]).0 == index && names_attribute(
            attributes,
            vars[i].1,
            name,
        )
}

/// Whether a view reads the column `name` of a table.
pub open spec fn uses(
    t: Table,
    index: i32,
    vars: Seq<(i32, i16)>,
    is_join: bool,
    name: Seq<char>,
) -> bool {
    refers_to(vars, index, t.attributes@, name) || (is_join && exists|k: int|
        0 <= k < t.key@.len() && (#[trigger] t.key@[k]).name@ == name)
}

/// The columns of a table that the view reads, as positions in attribute order.
pub open spec fn used_positions(
    t: Table,
    index: i32,
    vars: Seq<(i32, i16)>,
    is_join: bool,
    n: nat,
) -> Seq<int>
    decreases n,
{
    if n == 0 {
        Seq::empty()
    } else if uses(t, index, vars, is_join, t.columns@[n - 1].name@) {
        used_positions(t, index, vars, is_join, (n - 1) as nat).push(n - 1)
    } else {
        used_positions(t, index, vars, is_join, (n - 1) as nat)
    }
}

/// The base relation at position `i` of a view.
pub open spec fn base_relation(
    t: Table,
    i: int,
    index: i32,
    vars: Seq<(i32, i16)>,
    is_join: bool,
) -> BaseModel {
    let used = used_positions(t, index, vars, is_join, t.columns@.len());
    BaseModel {
        oid: t.oid,
        rti: (i + 1) as usize,
        alias: match t.alias {
            Some(alias) => alias@,
            None => t.name@,
        },
        qualified: t.qualified@,
        pk_columns: t.key@.map_values(|k: Attribute| k.name@),
        columns: t.columns@.map_values(|c: TableColumn| c.name@),
        column_types: t.columns@.map_values(|c: TableColumn| c.ty@),
        used_columns: used.map_values(|p: int| t.columns@[p].name@),
        used_column_types: used.map_values(|p: int| t.columns@[p].ty@),
    }
}

fn is_attribute(attributes: &Vec<Attribute>, attno: i16, name: &str) -> (result: bool)
    ensures
        result == names_attribute(attributes@, attno, name@),
{
    let mut i: usize = 0;
    while i < attributes.len()
        invariant
            i <= attributes@.len(),
            forall|j: int|
                0 <= j < i ==> !((#[trigger] attributes@[j]).attno == attno
                    && attributes@[j].name@ == name@),
        decreases attributes@.len() - i,
    {
        if attributes[i].attno == attno && text::same(&attributes[i].name, name) {
            return true;
        }
        i = i + 1;
    }
    false
}

fn is_used(t: &Table, index: i32, vars: &Vec<(i32, i16)>, is_join: bool, name: &str) -> (result:
    bool)
    ensures
        result == uses(*t, index, vars@, is_join, name@),
{
    let mut i: usize = 0;
    while i < vars.len()
        invariant
            i <= vars@.len(),
            forall|j: int|
                0 <= j < i ==> !((#[trigger] vars@[j]).0 == index && names_attribute(
                    t.attributes@,
                    vars@[j].1,
                    name@,
                )),
        decreases vars@.len() - i,
    {
        if vars[i].0 == index && is_attribute(&t.attributes, vars[i].1, name) {
            assert(refers_to(vars@, index, t.attributes@, name@));
            return true;
        }
        i = i + 1;
    }
    assert(!refers_to(vars@, index, t.attributes@, name@));
    if is_join {
        let mut k: usize = 0;
        while k < t.key.len()
            invariant
                is_join,
                k <= t.key@.len(),
                forall|j: int| 0 <= j < k ==> (#[trigger] t.key@[j]).name@ != name@,
            decreases t.key@.len() - k,
        {
            if text::same(&t.key[k].name, name) {
                return true;
            }
            k = k + 1;
        }
    }
    false
}

fn key_names(t: &Table) -> (result: Vec<String>)
    ensures
        views(result@) == t.key@.map_values(|k: Attribute| k.name@),
{
    let mut out: Vec<String> = Vec::new();
    let mut i: usize = 0;
    while i < t.key.len()
        invariant
            i <= t.key@.len(),
            out@.len() == i,
            forall|j: int| 0 <= j < i ==> (#[trigger] out@[j])@ == t.key@[j].name@,
        decreases t.key@.len() - i,
    {
        out.push(t.key[i].name.clone());
        i = i + 1;
    }
    assert(views(out@) =~= t.key@.map_values(|k: Attribute| k.name@));
    out
}

fn relation_of(t: &Table, i: usize, index: i32, vars: &Vec<(i32, i16)>, is_join: bool) -> (result:
    BaseRelation)
    requires
        i < usize::MAX,
    ensures
        result@ == base_relation(*t, i as int, index, vars@, is_join),
{
    let mut columns: Vec<String> = Vec::new();
    let mut column_types: Vec<String> = Vec::new();
    let mut used_columns: Vec<String> = Vec::new();
    let mut used_column_types: Vec<String> = Vec::new();
    let ghost mut used: Seq<int> = Seq::empty();
    let mut c: usize = 0;
    while c < t.columns.len()
        invariant
            c <= t.columns@.len(),
            columns@.len() == c,
            column_types@.len() == c,
            forall|j: int| 0 <= j < c ==> (#[trigger] columns@[j])@ == t.columns@[j].name@,
            forall|j: int| 0 <= j < c ==> (#[trigger] column_types@[j])@ == t.columns@[j].ty@,
            used == used_positions(*t, index, vars@, is_join, c as nat),
            used_columns@.len() == used.len(),
            used_column_types@.len() == used.len(),
            forall|j: int|
                0 <= j < used.len() ==> (#[trigger] used_columns@[j])@
                    == t.columns@[used[j]].name@,
            forall|j: int|
                0 <= j < used.len() ==> (#[trigger] used_column_types@[j])@
                    == t.columns@[used[j]].ty@,
        decreases t.columns@.len() - c,
    {
        let column = &t.columns[c];
        columns.push(column.name.clone());
        column_types.push(column.ty.clone());
        if is_used(t, index, vars, is_join, &column.name) {
            used_columns.push(column.name.clone());
            used_column_types.push(column.ty.clone());
            proof {
                used = used.push(c as int);
            }
        }
        c = c + 1;
    }
    let alias = match &t.alias {
        Some(alias) => alias.clone(),
        None => t.name.clone(),
    };
    let relation = BaseRelation {
        oid: t.oid,
        rti: i + 1,
        alias,
        qualified: t.qualified.clone(),
        pk_columns: key_names(t),
        columns,
        column_types,
        used_columns,
        used_column_types,
    };
    proof {
        let model = base_relation(*t, i as int, index, vars@, is_join);
        assert(relation@.columns =~= model.columns);
        assert(relation@.column_types =~= model.column_types);
        assert(relation@.used_columns =~= model.used_columns);
        assert(relation@.used_column_types =~= model.used_column_types);
    }
    relation
}

/// The columns that quals and visible targets refer to.
pub open spec fn all_vars(q: Query, order: Seq<usize>) -> Seq<(i32, i16)> {
    qual_vars(q.quals@, order, order.len()) + target_vars(q.targets@, q.targets@.len())
}

fn collect_vars(q: &Query, order: &Vec<usize>) -> (result: Vec<(i32, i16)>)
    requires
        forall|i: int| 0 <= i < order@.len() ==> (#[trigger] order@[i]) < q.quals@.len(),
    ensures
        result@ == all_vars(*q, order@),
{
    let mut vars: Vec<(i32, i16)> = Vec::new();
    let mut i: usize = 0;
    while i < order.len()
        invariant
            i <= order@.len(),
            forall|j: int| 0 <= j < order@.len() ==> (#[trigger] order@[j]) < q.quals@.len(),
            vars@ == qual_vars(q.quals@, order@, i as nat),
        decreases order@.len() - i,
    {
        referenced_vars(&q.quals[order[i]].tree, &mut vars);
        i = i + 1;
    }
    let ghost from_quals = vars@;
    let mut k: usize = 0;
    assert(vars@ =~= from_quals + target_vars(q.targets@, 0));
    while k < q.targets.len()
        invariant
            k <= q.targets@.len(),
            from_quals == qual_vars(q.quals@, order@, order@.len()),
            vars@ == from_quals + target_vars(q.targets@, k as nat),
        decreases q.targets@.len() - k,
    {
        if !q.targets[k].resjunk {
            referenced_vars(&q.targets[k].expr.tree, &mut vars);
        }
        k = k + 1;
        assert(vars@ =~= from_quals + target_vars(q.targets@, k as nat));
    }
    vars
}

fn check_whole_rows(vars: &Vec<(i32, i16)>, indexes: &Vec<i32>) -> (result: bool)
    ensures
        result == whole_row(vars@, indexes@),
{
    let mut i: usize = 0;
    while i < vars.len()
        invariant
            i <= vars@.len(),
            forall|j: int|
                0 <= j < i ==> !((#[trigger] vars@[j]).1 <= 0 && indexes@.contains(vars@[j].0)),
        decreases vars@.len() - i,
    {
        if vars[i].1 <= 0 && contains_number(indexes, vars[i].0) {
            return true;
        }
        i = i + 1;
    }
    false
}

/// The base relations of a view.
pub open spec fn base_relations(
    tables: Seq<Table>,
    indexes: Seq<i32>,
    vars: Seq<(i32, i16)>,
) -> Seq<BaseModel> {
    Seq::new(
        tables.len(),
        |i: int| base_relation(tables[i], i, indexes[i], vars, tables.len() > 1),
    )
}

fn relations_of(tables: &Vec<Table>, indexes: &Vec<i32>, vars: &Vec<(i32, i16)>) -> (result: Vec<
    BaseRelation,
>)
    requires
        indexes@.len() == tables@.len(),
    ensures
        views(result@) == base_relations(tables@, indexes@, vars@),
{
    let mut out: Vec<BaseRelation> = Vec::new();
    let mut i: usize = 0;
    while i < tables.len()
        invariant
            indexes@.len() == tables@.len(),
            i <= tables@.len(),
            out@.len() == i,
            forall|j: int|
                0 <= j < i ==> (#[trigger] out@[j])@ == base_relation(
                    tables@[j],
                    j,
                    indexes@[j],
                    vars@,
                    tables@.len() > 1,
                ),
        decreases tables@.len() - i,
    {
        out.push(relation_of(&tables[i], i, indexes[i], vars, tables.len() > 1));
        i = i + 1;
    }
    assert(views(out@) =~= base_relations(tables@, indexes@, vars@));
    out
}

// --- aggregates ----------------------------------------------------------------

/// An accepted aggregate, with the SQL of its argument.
pub enum AggKind {
    Count,
    CountExpr(String),
    Sum(String),
}

pub enum AggModel {
    Count,
    CountExpr(Seq<char>),
    Sum(Seq<char>),
}

impl View for AggKind {
    type V = AggModel;

    open spec fn view(&self) -> AggModel {
        match self {
            AggKind::Count => AggModel::Count,
            AggKind::CountExpr(sql) => AggModel::CountExpr(sql@),
            AggKind::Sum(sql) => AggModel::Sum(sql@),
        }
    }
}

/// The aggregate as the view keeps it: only count(*), count(<expression>) and
/// sum(<expression>) in their plain forms are accepted.
pub open spec fn classified(agg: Aggregate, alias: Seq<char>) -> Result<AggModel, Seq<char>> {
    if agg.kind != NORMAL_AGGREGATE || agg.direct_args {
        Err(
            "ordered-set and hypothetical-set aggregates like \""@ + agg.function@
                + "\" are not supported"@,
        )
    } else if agg.distinct {
        Err("DISTINCT inside aggregates is not supported (column \""@ + alias + "\")"@)
    } else if agg.filter {
        Err("FILTER on aggregates is not supported (column \""@ + alias + "\")"@)
    } else if agg.order {
        Err("ORDER BY inside aggregates is not supported (column \""@ + alias + "\")"@)
    } else if agg.builtin && agg.function@ == "count"@ {
        if agg.star {
            Ok(AggModel::Count)
        } else if agg.args@.len() != 1 {
            Err("count() must be count(*) or count(expression)"@)
        } else {
            match mutable_error(
                agg.args@[0],
                "the argument of count() in column \""@ + alias + "\""@,
            ) {
                Some(reason) => Err(reason),
                None => Ok(AggModel::CountExpr(agg.args@[0].sql@)),
            }
        }
    } else if agg.builtin && agg.function@ == "sum"@ {
        if agg.args@.len() != 1 {
            Err("sum() must have exactly one argument"@)
        } else {
            match mutable_error(
                agg.args@[0],
                "the argument of sum() in column \""@ + alias + "\""@,
            ) {
                Some(reason) => Err(reason),
                None => Ok(AggModel::Sum(agg.args@[0].sql@)),
            }
        }
    } else {
        Err(
            "aggregate \""@ + agg.function@
                + "\" is not supported; only count(*), count(expression) and sum(expression) are accepted"@,
        )
    }
}

pub fn classify_aggregate(agg: &Aggregate, alias: &str) -> (result: Result<AggKind, String>)
    ensures
        match result {
            Ok(kind) => classified(*agg, alias@) == Ok::<AggModel, Seq<char>>(kind@),
            Err(e) => classified(*agg, alias@) == Err::<AggModel, Seq<char>>(e@),
        },
{
    if agg.kind != NORMAL_AGGREGATE || agg.direct_args {
        return Err(
            "ordered-set and hypothetical-set aggregates like \"".to_string().concat(
                &agg.function,
            ).concat("\" are not supported"),
        );
    }
    if agg.distinct {
        return Err(
            "DISTINCT inside aggregates is not supported (column \"".to_string().concat(
                alias,
            ).concat("\")"),
        );
    }
    if agg.filter {
        return Err(
            "FILTER on aggregates is not supported (column \"".to_string().concat(alias).concat(
                "\")",
            ),
        );
    }
    if agg.order {
        return Err(
            "ORDER BY inside aggregates is not supported (column \"".to_string().concat(
                alias,
            ).concat("\")"),
        );
    }
    if agg.builtin && text::same(&agg.function, "count") {
        if agg.star {
            return Ok(AggKind::Count);
        }
        if agg.args.len() != 1 {
            return Err("count() must be count(*) or count(expression)".to_string());
        }
        let place = "the argument of count() in column \"".to_string().concat(alias).concat("\"");
        return match require_immutable(&agg.args[0], &place) {
            Ok(()) => Ok(AggKind::CountExpr(agg.args[0].sql.clone())),
            Err(reason) => Err(reason),
        };
    }
    if agg.builtin && text::same(&agg.function, "sum") {
        if agg.args.len() != 1 {
            return Err("sum() must have exactly one argument".to_string());
        }
        let place = "the argument of sum() in column \"".to_string().concat(alias).concat("\"");
        return match require_immutable(&agg.args[0], &place) {
            Ok(()) => Ok(AggKind::Sum(agg.args[0].sql.clone())),
            Err(reason) => Err(reason),
        };
    }
    Err(
        "aggregate \"".to_string().concat(&agg.function).concat(
            "\" is not supported; only count(*), count(expression) and sum(expression) are accepted",
        ),
    )
}

/// The columns of a view while its select list is read.
pub struct Columns {
    /// The populate query's visible output columns.
    pub targets: Vec<String>,
    /// Its hidden ones, which go behind the user's columns in the view table.
    pub hidden_targets: Vec<String>,
    pub group_exprs: Vec<String>,
    pub columns: Vec<OutputColumn>,
    pub count_alias: Option<String>,
    pub counts: Vec<OutputColumn>,
    pub sums: Vec<SumSpec>,
    pub hidden_columns: Vec<String>,
    /// How many aggregates the select list has had so far.
    pub aggregates: usize,
}

pub struct ColumnsModel {
    pub targets: Seq<Seq<char>>,
    pub hidden_targets: Seq<Seq<char>>,
    pub group_exprs: Seq<Seq<char>>,
    pub columns: Seq<OutputModel>,
    pub count_alias: Option<Seq<char>>,
    pub counts: Seq<OutputModel>,
    pub sums: Seq<SumModel>,
    pub hidden_columns: Seq<Seq<char>>,
    pub aggregates: nat,
}

impl View for Columns {
    type V = ColumnsModel;

    open spec fn view(&self) -> ColumnsModel {
        ColumnsModel {
            targets: views(self.targets@),
            hidden_targets: views(self.hidden_targets@),
            group_exprs: views(self.group_exprs@),
            columns: views(self.columns@),
            count_alias: view_of_option(self.count_alias),
            counts: views(self.counts@),
            sums: views(self.sums@),
            hidden_columns: views(self.hidden_columns@),
            aggregates: self.aggregates as nat,
        }
    }
}

pub open spec fn no_columns() -> ColumnsModel {
    ColumnsModel {
        targets: Seq::empty(),
        hidden_targets: Seq::empty(),
        group_exprs: Seq::empty(),
        columns: Seq::empty(),
        count_alias: None,
        counts: Seq::empty(),
        sums: Seq::empty(),
        hidden_columns: Seq::empty(),
        aggregates: 0,
    }
}

fn new_columns() -> (result: Columns)
    ensures
        result@ == no_columns(),
{
    let c = Columns {
        targets: Vec::new(),
        hidden_targets: Vec::new(),
        group_exprs: Vec::new(),
        columns: Vec::new(),
        count_alias: None,
        counts: Vec::new(),
        sums: Vec::new(),
        hidden_columns: Vec::new(),
        aggregates: 0,
    };
    assert(c@.targets =~= Seq::empty());
    assert(c@.hidden_targets =~= Seq::empty());
    assert(c@.group_exprs =~= Seq::empty());
    assert(c@.columns =~= Seq::empty());
    assert(c@.counts =~= Seq::empty());
    assert(c@.sums =~= Seq::empty());
    assert(c@.hidden_columns =~= Seq::empty());
    c
}

/// A group key in the select list.
pub open spec fn with_key(c: ColumnsModel, expr: Seq<char>, alias: Seq<char>, quoted: Seq<char>) ->
    ColumnsModel {
    ColumnsModel {
        targets: c.targets.push(expr + " AS "@ + quoted),
        group_exprs: c.group_exprs.push(expr),
        columns: c.columns.push(OutputModel { expr, alias }),
        ..c
    }
}

/// An accepted aggregate in the select list.
pub open spec fn with_aggregate(
    c: ColumnsModel,
    kind: AggModel,
    alias: Seq<char>,
    quoted: Seq<char>,
) -> Result<ColumnsModel, Seq<char>> {
    let c1 = ColumnsModel { aggregates: c.aggregates + 1, ..c };
    match kind {
        AggModel::Count => if c.count_alias is Some {
            Err("count(*) may appear only once"@)
        } else {
            Ok(
                ColumnsModel {
                    targets: c.targets.push("count(*) AS "@ + quoted),
                    count_alias: Some(alias),
                    ..c1
                },
            )
        },
        AggModel::CountExpr(expr) => Ok(
            ColumnsModel {
                targets: c.targets.push("count("@ + expr + ") AS "@ + quoted),
                counts: c.counts.push(OutputModel { expr, alias }),
                ..c1
            },
        ),
        AggModel::Sum(expr) => {
            let counter = HIDDEN_SUM_COUNTER_PREFIX@ + decimal(c.aggregates);
            Ok(
                ColumnsModel {
                    targets: c.targets.push("sum("@ + expr + ") AS "@ + quoted),
                    hidden_targets: c.hidden_targets.push("count("@ + expr + ") AS "@ + counter),
                    hidden_columns: c.hidden_columns.push(counter),
                    sums: c.sums.push(SumModel { expr, alias, counter }),
                    ..c1
                },
            )
        },
    }
}

/// One more entry of an aggregate view's select list.
pub open spec fn with_target(
    c: ColumnsModel,
    t: Target,
    refs: Seq<u32>,
    quoting: spec_fn(Seq<char>) -> Seq<char>,
) -> Result<ColumnsModel, Seq<char>> {
    let alias = t.alias@;
    if t.resjunk {
        Ok(c)
    } else if t.sortgroupref != 0 && refs.contains(t.sortgroupref) {
        match mutable_error(t.expr, "the GROUP BY key \""@ + alias + "\""@) {
            Some(reason) => Err(reason),
            None => Ok(with_key(c, t.expr.sql@, alias, quoting(alias))),
        }
    } else if t.aggregate is Some {
        match classified(t.aggregate->0, alias) {
            Ok(kind) => with_aggregate(c, kind, alias, quoting(alias)),
            Err(reason) => Err(reason),
        }
    } else if t.contains_aggregate {
        Err(
            "column \""@ + alias
                + "\" is an expression over an aggregate; alias the aggregate and compute outside the view"@,
        )
    } else {
        Err("column \""@ + alias + "\" is neither a GROUP BY key nor an accepted aggregate"@)
    }
}

/// The first `n` entries of an aggregate view's select list.
pub open spec fn aggregate_columns(
    targets: Seq<Target>,
    refs: Seq<u32>,
    quoting: spec_fn(Seq<char>) -> Seq<char>,
    n: nat,
) -> Result<ColumnsModel, Seq<char>>
    decreases n,
{
    if n == 0 {
        Ok(no_columns())
    } else {
        match aggregate_columns(targets, refs, quoting, (n - 1) as nat) {
            Ok(c) => with_target(c, targets[n - 1], refs, quoting),
            Err(reason) => Err(reason),
        }
    }
}

proof fn lemma_aggregate_error_stays(
    targets: Seq<Target>,
    refs: Seq<u32>,
    quoting: spec_fn(Seq<char>) -> Seq<char>,
    n: nat,
    m: nat,
)
    requires
        n <= m,
        aggregate_columns(targets, refs, quoting, n) is Err,
    ensures
        aggregate_columns(targets, refs, quoting, m) == aggregate_columns(
            targets,
            refs,
            quoting,
            n,
        ),
    decreases m - n,
{
    if n < m {
        lemma_aggregate_error_stays(targets, refs, quoting, n, (m - 1) as nat);
    }
}

/// A result that is a value of a model type, or a reason.
pub open spec fn comes_to<T: View>(result: Result<T, String>, model: Result<T::V, Seq<char>>) ->
    bool {
    match result {
        Ok(value) => model == Ok::<T::V, Seq<char>>(value@),
        Err(e) => model == Err::<T::V, Seq<char>>(e@),
    }
}

fn add_aggregate(columns: Columns, kind: AggKind, alias: &String, quoted: &str) -> (result: Result<
    Columns,
    String,
>)
    requires
        columns.aggregates < usize::MAX,
    ensures
        comes_to(result, with_aggregate(columns@, kind@, alias@, quoted@)),
        result matches Ok(c) ==> c.aggregates == columns.aggregates + 1,
{
    let mut c = columns;
    let ghost before = c@;
    let index: usize = c.aggregates;
    c.aggregates = index + 1;
    match kind {
        AggKind::Count => {
            if c.count_alias.is_some() {
                return Err("count(*) may appear only once".to_string());
            }
            c.targets.push("count(*) AS ".to_string().concat(quoted));
            c.count_alias = Some(alias.clone());
            assert(c@.targets =~= before.targets.push("count(*) AS "@ + quoted@));
        },
        AggKind::CountExpr(expr) => {
            c.targets.push("count(".to_string().concat(&expr).concat(") AS ").concat(quoted));
            let column = OutputColumn { expr, alias: alias.clone() };
            let ghost model = column@;
            c.counts.push(column);
            assert(c@.targets =~= before.targets.push("count("@ + expr@ + ") AS "@ + quoted@));
            assert(c@.counts =~= before.counts.push(model));
        },
        AggKind::Sum(expr) => {
            let counter = HIDDEN_SUM_COUNTER_PREFIX.to_string().concat(
                &text::decimal_text(index as u64),
            );
            c.targets.push("sum(".to_string().concat(&expr).concat(") AS ").concat(quoted));
            c.hidden_targets.push(
                "count(".to_string().concat(&expr).concat(") AS ").concat(&counter),
            );
            c.hidden_columns.push(counter.clone());
            let sum = SumSpec { expr, alias: alias.clone(), counter };
            let ghost model = sum@;
            c.sums.push(sum);
            assert(c@.targets =~= before.targets.push("sum("@ + expr@ + ") AS "@ + quoted@));
            assert(c@.hidden_targets =~= before.hidden_targets.push(
                "count("@ + expr@ + ") AS "@ + counter@,
            ));
            assert(c@.hidden_columns =~= before.hidden_columns.push(counter@));
            assert(c@.sums =~= before.sums.push(model));
        },
    }
    Ok(c)
}

fn add_target(columns: Columns, t: &Target, refs: &Vec<u32>, quoting: &Quoting) -> (result: Result<
    Columns,
    String,
>)
    requires
        columns.aggregates < usize::MAX,
    ensures
        comes_to(result, with_target(columns@, *t, refs@, quoting@)),
        result matches Ok(c) ==> c.aggregates <= columns.aggregates + 1,
{
    if t.resjunk {
        return Ok(columns);
    }
    let quoted = quoting.ident(&t.alias);
    if t.sortgroupref != 0 && contains_ref(refs, t.sortgroupref) {
        let place = "the GROUP BY key \"".to_string().concat(&t.alias).concat("\"");
        match require_immutable(&t.expr, &place) {
            Ok(()) => {},
            Err(reason) => return Err(reason),
        }
        let mut c = columns;
        let ghost before = c@;
        c.targets.push(t.expr.sql.clone().concat(" AS ").concat(&quoted));
        c.group_exprs.push(t.expr.sql.clone());
        let column = OutputColumn { expr: t.expr.sql.clone(), alias: t.alias.clone() };
        let ghost model = column@;
        c.columns.push(column);
        assert(c@.targets =~= before.targets.push(t.expr.sql@ + " AS "@ + quoted@));
        assert(c@.group_exprs =~= before.group_exprs.push(t.expr.sql@));
        assert(c@.columns =~= before.columns.push(model));
        return Ok(c);
    }
    match &t.aggregate {
        Some(aggregate) => match classify_aggregate(aggregate, &t.alias) {
            Ok(kind) => add_aggregate(columns, kind, &t.alias, &quoted),
            Err(reason) => Err(reason),
        },
        None => if t.contains_aggregate {
            Err(
                "column \"".to_string().concat(&t.alias).concat(
                    "\" is an expression over an aggregate; alias the aggregate and compute outside the view",
                ),
            )
        } else {
            Err(
                "column \"".to_string().concat(&t.alias).concat(
                    "\" is neither a GROUP BY key nor an accepted aggregate",
                ),
            )
        },
    }
}

/// An aggregate view's columns, the hidden count included.
pub open spec fn with_hidden_count(c: ColumnsModel) -> ColumnsModel {
    if c.count_alias is Some {
        ColumnsModel { targets: c.targets + c.hidden_targets, ..c }
    } else {
        ColumnsModel {
            targets: (c.targets + c.hidden_targets).push("count(*) AS "@ + HIDDEN_COUNT_COLUMN@),
            count_alias: Some(HIDDEN_COUNT_COLUMN@),
            hidden_columns: c.hidden_columns.push(HIDDEN_COUNT_COLUMN@),
            ..c
        }
    }
}

/// The columns of an aggregate view, and whether its count is a hidden one.
pub open spec fn aggregate_shape(q: Query, quoting: spec_fn(Seq<char>) -> Seq<char>) -> Result<
    (ColumnsModel, bool),
    Seq<char>,
> {
    if q.group_refs@.len() == 0 {
        Err("aggregates require a GROUP BY clause"@)
    } else {
        match aggregate_columns(q.targets@, q.group_refs@, quoting, q.targets@.len()) {
            Err(reason) => Err(reason),
            Ok(c) => if c.columns.len() == 0 {
                Err("at least one GROUP BY key must be selected"@)
            } else {
                Ok((with_hidden_count(c), c.count_alias is None))
            },
        }
    }
}

fn append_all(out: &mut Vec<String>, more: &Vec<String>)
    ensures
        views(final(out)@) == views(old(out)@) + views(more@),
{
    let ghost start = views(out@);
    let mut i: usize = 0;
    assert(views(out@) =~= start + views(more@).take(0));
    while i < more.len()
        invariant
            i <= more@.len(),
            views(out@) == start + views(more@).take(i as int),
        decreases more@.len() - i,
    {
        let ghost before = views(out@);
        out.push(more[i].clone());
        assert(views(out@) =~= before.push(more@[i as int]@));
        assert(views(more@).take(i + 1) =~= views(more@).take(i as int).push(more@[i as int]@));
        i = i + 1;
        assert(views(out@) =~= start + views(more@).take(i as int));
    }
    assert(views(more@).take(more@.len() as int) =~= views(more@));
}

fn read_aggregates(q: &Query, quoting: &Quoting) -> (result: Result<(Columns, bool), String>)
    ensures
        match result {
            Ok((columns, hidden)) => aggregate_shape(*q, quoting@) == Ok::<
                (ColumnsModel, bool),
                Seq<char>,
            >((columns@, hidden)),
            Err(e) => aggregate_shape(*q, quoting@) == Err::<(ColumnsModel, bool), Seq<char>>(e@),
        },
{
    if q.group_refs.len() == 0 {
        return Err("aggregates require a GROUP BY clause".to_string());
    }
    let mut c = new_columns();
    let mut i: usize = 0;
    while i < q.targets.len()
        invariant
            i <= q.targets@.len(),
            q.group_refs@.len() > 0,
            c.aggregates <= i,
            aggregate_columns(q.targets@, q.group_refs@, quoting@, i as nat) == Ok::<
                ColumnsModel,
                Seq<char>,
            >(c@),
        decreases q.targets@.len() - i,
    {
        match add_target(c, &q.targets[i], &q.group_refs, quoting) {
            Ok(more) => {
                c = more;
            },
            Err(reason) => {
                proof {
                    lemma_aggregate_error_stays(
                        q.targets@,
                        q.group_refs@,
                        quoting@,
                        (i + 1) as nat,
                        q.targets@.len(),
                    );
                }
                return Err(reason);
            },
        }
        i = i + 1;
    }
    if c.columns.len() == 0 {
        return Err("at least one GROUP BY key must be selected".to_string());
    }
    let ghost before = c@;
    append_all(&mut c.targets, &c.hidden_targets);
    if c.count_alias.is_some() {
        return Ok((c, false));
    }
    c.targets.push("count(*) AS ".to_string().concat(HIDDEN_COUNT_COLUMN));
    c.count_alias = Some(HIDDEN_COUNT_COLUMN.to_string());
    c.hidden_columns.push(HIDDEN_COUNT_COLUMN.to_string());
    proof {
        let model = with_hidden_count(before);
        assert(c@.targets =~= model.targets);
        assert(c@.hidden_columns =~= model.hidden_columns);
    }
    Ok((c, true))
}

// --- projections ---------------------------------------------------------------

/// The first `n` entries of a projection view's select list.
pub open spec fn projection_columns(
    targets: Seq<Target>,
    quoting: spec_fn(Seq<char>) -> Seq<char>,
    n: nat,
) -> Result<ColumnsModel, Seq<char>>
    decreases n,
{
    if n == 0 {
        Ok(no_columns())
    } else {
        let t = targets[n - 1];
        match projection_columns(targets, quoting, (n - 1) as nat) {
            Err(reason) => Err(reason),
            Ok(c) => if t.resjunk {
                Ok(c)
            } else {
                match mutable_error(t.expr, "column \""@ + t.alias@ + "\""@) {
                    Some(reason) => Err(reason),
                    None => Ok(
                        ColumnsModel {
                            targets: c.targets.push(
                                t.expr.sql@ + " AS "@ + quoting(t.alias@),
                            ),
                            columns: c.columns.push(
                                OutputModel { expr: t.expr.sql@, alias: t.alias@ },
                            ),
                            ..c
                        },
                    ),
                }
            },
        }
    }
}

proof fn lemma_projection_error_stays(
    targets: Seq<Target>,
    quoting: spec_fn(Seq<char>) -> Seq<char>,
    n: nat,
    m: nat,
)
    requires
        n <= m,
        projection_columns(targets, quoting, n) is Err,
    ensures
        projection_columns(targets, quoting, m) == projection_columns(targets, quoting, n),
    decreases m - n,
{
    if n < m {
        lemma_projection_error_stays(targets, quoting, n, (m - 1) as nat);
    }
}

fn read_projection(targets: &Vec<Target>, quoting: &Quoting) -> (result: Result<Columns, String>)
    ensures
        comes_to(result, projection_columns(targets@, quoting@, targets@.len())),
{
    let mut c = new_columns();
    let mut i: usize = 0;
    while i < targets.len()
        invariant
            i <= targets@.len(),
            projection_columns(targets@, quoting@, i as nat) == Ok::<ColumnsModel, Seq<char>>(c@),
        decreases targets@.len() - i,
    {
        let t = &targets[i];
        if !t.resjunk {
            let place = "column \"".to_string().concat(&t.alias).concat("\"");
            match require_immutable(&t.expr, &place) {
                Ok(()) => {},
                Err(reason) => {
                    proof {
                        lemma_projection_error_stays(
                            targets@,
                            quoting@,
                            (i + 1) as nat,
                            targets@.len(),
                        );
                    }
                    return Err(reason);
                },
            }
            let ghost before = c@;
            let quoted = quoting.ident(&t.alias);
            c.targets.push(t.expr.sql.clone().concat(" AS ").concat(&quoted));
            let column = OutputColumn { expr: t.expr.sql.clone(), alias: t.alias.clone() };
            let ghost model = column@;
            c.columns.push(column);
            assert(c@.targets =~= before.targets.push(t.expr.sql@ + " AS "@ + quoted@));
            assert(c@.columns =~= before.columns.push(model));
        }
        i = i + 1;
    }
    Ok(c)
}

/// The hidden column that carries a primary key column of the relation at
/// position `rti` of a join view.
pub open spec fn hidden_key(rti: nat, column: Seq<char>) -> Seq<char> {
    HIDDEN_PK_PREFIX@ + decimal(rti) + "_"@ + column
}

pub fn hidden_key_name(rti: usize, column: &str) -> (result: String)
    ensures
        result@ == hidden_key(rti as nat, column@),
{
    HIDDEN_PK_PREFIX.to_string().concat(&text::decimal_text(rti as u64)).concat("_").concat(column)
}

/// The hidden key columns of one relation.
pub open spec fn hidden_keys_of(relation: BaseModel) -> Seq<Seq<char>> {
    relation.pk_columns.map_values(|c: Seq<char>| hidden_key(relation.rti as nat, c))
}

/// The hidden key columns of the first `n` relations.
pub open spec fn hidden_keys(relations: Seq<BaseModel>, n: nat) -> Seq<Seq<char>>
    decreases n,
{
    if n == 0 {
        Seq::empty()
    } else {
        hidden_keys(relations, (n - 1) as nat) + hidden_keys_of(relations[n - 1])
    }
}

/// What the populate query selects for the hidden key columns of one relation.
pub open spec fn key_targets_of(relation: BaseModel, quoting: spec_fn(Seq<char>) -> Seq<char>) ->
    Seq<Seq<char>> {
    relation.pk_columns.map_values(
        |c: Seq<char>|
            quoting(relation.alias) + "."@ + quoting(c) + " AS "@ + quoting(
                hidden_key(relation.rti as nat, c),
            ),
    )
}

pub open spec fn key_targets(
    relations: Seq<BaseModel>,
    quoting: spec_fn(Seq<char>) -> Seq<char>,
    n: nat,
) -> Seq<Seq<char>>
    decreases n,
{
    if n == 0 {
        Seq::empty()
    } else {
        key_targets(relations, quoting, (n - 1) as nat) + key_targets_of(relations[n - 1], quoting)
    }
}

/// The hidden key columns of a join view, and what the populate query selects
/// for them. Row identity of a join row: every base table's primary key,
/// carried in hidden columns so the user's select list is free.
pub fn join_keys(relations: &Vec<BaseRelation>, quoting: &Quoting) -> (result: (
    Vec<String>,
    Vec<String>,
))
    ensures
        views(result.0@) == hidden_keys(views(relations@), relations@.len()),
        views(result.1@) == key_targets(views(relations@), quoting@, relations@.len()),
{
    let ghost models = views(relations@);
    let mut names: Vec<String> = Vec::new();
    let mut targets: Vec<String> = Vec::new();
    assert(views(names@) =~= hidden_keys(models, 0));
    assert(views(targets@) =~= key_targets(models, quoting@, 0));
    let mut i: usize = 0;
    while i < relations.len()
        invariant
            models == views(relations@),
            i <= relations@.len(),
            views(names@) == hidden_keys(models, i as nat),
            views(targets@) == key_targets(models, quoting@, i as nat),
        decreases relations@.len() - i,
    {
        let rel = &relations[i];
        let ghost names_before = views(names@);
        let ghost targets_before = views(targets@);
        let ghost these = hidden_keys_of(rel@);
        let ghost those = key_targets_of(rel@, quoting@);
        let alias = quoting.ident(&rel.alias);
        let mut k: usize = 0;
        assert(names_before =~= names_before + these.take(0));
        assert(targets_before =~= targets_before + those.take(0));
        while k < rel.pk_columns.len()
            invariant
                k <= rel.pk_columns@.len(),
                alias@ == quoting@(rel.alias@),
                these == hidden_keys_of(rel@),
                those == key_targets_of(rel@, quoting@),
                views(names@) == names_before + these.take(k as int),
                views(targets@) == targets_before + those.take(k as int),
            decreases rel.pk_columns@.len() - k,
        {
            let column = &rel.pk_columns[k];
            let hidden = hidden_key_name(rel.rti, column);
            let ghost n = views(names@);
            let ghost t = views(targets@);
            targets.push(
                alias.clone().concat(".").concat(&quoting.ident(column)).concat(" AS ").concat(
                    &quoting.ident(&hidden),
                ),
            );
            names.push(hidden);
            assert(rel@.pk_columns[k as int] == column@);
            assert(views(names@) =~= n.push(these[k as int]));
            assert(views(targets@) =~= t.push(those[k as int]));
            assert(these.take(k + 1) =~= these.take(k as int).push(these[k as int]));
            assert(those.take(k + 1) =~= those.take(k as int).push(those[k as int]));
            k = k + 1;
            assert(views(names@) =~= names_before + these.take(k as int));
            assert(views(targets@) =~= targets_before + those.take(k as int));
        }
        assert(these.take(k as int) =~= these);
        assert(those.take(k as int) =~= those);
        assert(models[i as int] == rel@);
        i = i + 1;
    }
    (names, targets)
}

/// Whether a tree is a column of the query itself and nothing else.
pub open spec fn plain_var(node: Node, index: i32, attno: i16) -> bool {
    node matches Node::Var { varno, attno: a, levels_up } && varno == index && levels_up == 0 && a
        == attno
}

fn is_plain_var(node: &Node, index: i32, attnum: i16) -> (result: bool)
    ensures
        result == plain_var(*node, index, attnum),
{
    match node {
        Node::Var { varno, attno, levels_up } => *varno == index && *levels_up == 0 && *attno
            == attnum,
        _ => false,
    }
}

/// The name of the first of `n` targets that is the column and nothing else.
pub open spec fn selected_as(targets: Seq<Target>, index: i32, attno: i16, n: nat) -> Option<
    Seq<char>,
>
    decreases n,
{
    if n == 0 {
        None
    } else {
        match selected_as(targets, index, attno, (n - 1) as nat) {
            Some(alias) => Some(alias),
            None => if !targets[n - 1].resjunk && plain_var(
                targets[n - 1].expr.tree,
                index,
                attno,
            ) {
                Some(targets[n - 1].alias@)
            } else {
                None
            },
        }
    }
}

proof fn lemma_selected_stays(targets: Seq<Target>, index: i32, attno: i16, n: nat, m: nat)
    requires
        n <= m,
        selected_as(targets, index, attno, n) is Some,
    ensures
        selected_as(targets, index, attno, m) == selected_as(targets, index, attno, n),
    decreases m - n,
{
    if n < m {
        lemma_selected_stays(targets, index, attno, n, (m - 1) as nat);
    }
}

fn find_selected(targets: &Vec<Target>, index: i32, attno: i16) -> (result: Option<String>)
    ensures
        view_of_option(result) == selected_as(targets@, index, attno, targets@.len()),
{
    let mut i: usize = 0;
    while i < targets.len()
        invariant
            i <= targets@.len(),
            selected_as(targets@, index, attno, i as nat) is None,
        decreases targets@.len() - i,
    {
        if !targets[i].resjunk && is_plain_var(&targets[i].expr.tree, index, attno) {
            proof {
                lemma_selected_stays(targets@, index, attno, (i + 1) as nat, targets@.len());
            }
            return Some(targets[i].alias.clone());
        }
        i = i + 1;
    }
    None
}

/// The view columns that hold the first `n` primary key columns, as far as the
/// select list has them.
pub open spec fn selected_keys(q: Query, index: i32, n: nat) -> Seq<Seq<char>>
    decreases n,
{
    if n == 0 {
        Seq::empty()
    } else {
        let before = selected_keys(q, index, (n - 1) as nat);
        match selected_as(q.targets@, index, q.tables@[0].key@[n - 1].attno, q.targets@.len()) {
            Some(alias) => before.push(alias),
            None => before,
        }
    }
}

/// The primary key columns among the first `n` that the select list lacks.
pub open spec fn missing_keys(q: Query, index: i32, n: nat) -> Seq<Seq<char>>
    decreases n,
{
    if n == 0 {
        Seq::empty()
    } else {
        let before = missing_keys(q, index, (n - 1) as nat);
        let key = q.tables@[0].key@[n - 1];
        if selected_as(q.targets@, index, key.attno, q.targets@.len()) is None {
            before.push(key.name@)
        } else {
            before
        }
    }
}

/// The view columns that identify a row of a single-table projection.
pub open spec fn single_keys(q: Query, index: i32) -> Result<Seq<Seq<char>>, Seq<char>> {
    let t = q.tables@[0];
    if t.key@.len() == 0 {
        Err(
            t.qualified@
                + " has no primary key; a projection view needs one to locate deleted rows"@,
        )
    } else if missing_keys(q, index, t.key@.len()).len() > 0 {
        Err(
            "the select list must include the primary key column(s) of "@ + t.qualified@
                + " as plain columns: missing "@ + joined(
                missing_keys(q, index, t.key@.len()),
                ", "@,
            ),
        )
    } else {
        Ok(selected_keys(q, index, t.key@.len()))
    }
}

fn find_single_keys(q: &Query, index: i32) -> (result: Result<Vec<String>, String>)
    requires
        q.tables@.len() > 0,
    ensures
        match result {
            Ok(keys) => single_keys(*q, index) == Ok::<Seq<Seq<char>>, Seq<char>>(views(keys@)),
            Err(e) => single_keys(*q, index) == Err::<Seq<Seq<char>>, Seq<char>>(e@),
        },
{
    let t = &q.tables[0];
    if t.key.len() == 0 {
        return Err(
            t.qualified.clone().concat(
                " has no primary key; a projection view needs one to locate deleted rows",
            ),
        );
    }
    let mut found: Vec<String> = Vec::new();
    let mut missing: Vec<String> = Vec::new();
    assert(views(found@) =~= selected_keys(*q, index, 0));
    assert(views(missing@) =~= missing_keys(*q, index, 0));
    let mut i: usize = 0;
    while i < t.key.len()
        invariant
            q.tables@.len() > 0,
            *t == q.tables@[0],
            i <= t.key@.len(),
            views(found@) == selected_keys(*q, index, i as nat),
            views(missing@) == missing_keys(*q, index, i as nat),
        decreases t.key@.len() - i,
    {
        let key = &t.key[i];
        let ghost f = views(found@);
        let ghost m = views(missing@);
        match find_selected(&q.targets, index, key.attno) {
            Some(alias) => {
                found.push(alias);
                assert(views(found@) =~= f.push(alias@));
            },
            None => {
                missing.push(key.name.clone());
                assert(views(missing@) =~= m.push(key.name@));
            },
        }
        i = i + 1;
    }
    if missing.len() > 0 {
        return Err(
            "the select list must include the primary key column(s) of ".to_string().concat(
                &t.qualified,
            ).concat(" as plain columns: missing ").concat(&text::join(&missing, ", ")),
        );
    }
    Ok(found)
}

// --- the whole definition ------------------------------------------------------

/// What a definition's shape makes of it: the columns and the row identity.
pub struct Shaped {
    pub columns: Columns,
    pub hidden_count: bool,
    pub pk_columns: Vec<String>,
    pub pk_view_columns: Vec<String>,
}

pub struct ShapedModel {
    pub columns: ColumnsModel,
    pub hidden_count: bool,
    pub pk_columns: Seq<Seq<char>>,
    pub pk_view_columns: Seq<Seq<char>>,
}

impl View for Shaped {
    type V = ShapedModel;

    open spec fn view(&self) -> ShapedModel {
        ShapedModel {
            columns: self.columns@,
            hidden_count: self.hidden_count,
            pk_columns: views(self.pk_columns@),
            pk_view_columns: views(self.pk_view_columns@),
        }
    }
}

/// The shape of a definition over `relations`.
pub open spec fn shaped(
    q: Query,
    indexes: Seq<i32>,
    relations: Seq<BaseModel>,
    quoting: spec_fn(Seq<char>) -> Seq<char>,
) -> Result<ShapedModel, Seq<char>> {
    if q.has_aggs {
        match aggregate_shape(q, quoting) {
            Err(reason) => Err(reason),
            Ok((columns, hidden_count)) => Ok(
                ShapedModel {
                    columns,
                    hidden_count,
                    pk_columns: Seq::empty(),
                    pk_view_columns: Seq::empty(),
                },
            ),
        }
    } else if q.group_refs@.len() > 0 {
        Err("GROUP BY without an aggregate is not supported"@)
    } else {
        match projection_columns(q.targets@, quoting, q.targets@.len()) {
            Err(reason) => Err(reason),
            Ok(c) => if q.tables@.len() > 1 {
                let keys = hidden_keys(relations, relations.len());
                Ok(
                    ShapedModel {
                        columns: ColumnsModel {
                            targets: c.targets + key_targets(relations, quoting, relations.len()),
                            hidden_columns: keys,
                            ..c
                        },
                        hidden_count: false,
                        pk_columns: Seq::empty(),
                        pk_view_columns: keys,
                    },
                )
            } else {
                match single_keys(q, indexes[0]) {
                    Err(reason) => Err(reason),
                    Ok(keys) => Ok(
                        ShapedModel {
                            columns: c,
                            hidden_count: false,
                            pk_columns: q.tables@[0].key@.map_values(|k: Attribute| k.name@),
                            pk_view_columns: keys,
                        },
                    ),
                }
            },
        }
    }
}

fn copied(names: &Vec<String>) -> (result: Vec<String>)
    ensures
        views(result@) == views(names@),
{
    let copy = names.clone();
    assert(copy@ =~= names@);
    copy
}

fn shape_of(q: &Query, indexes: &Vec<i32>, relations: &Vec<BaseRelation>, quoting: &Quoting) -> (result:
    Result<Shaped, String>)
    requires
        q.tables@.len() > 0,
        indexes@.len() == q.tables@.len(),
    ensures
        comes_to(result, shaped(*q, indexes@, views(relations@), quoting@)),
{
    if q.has_aggs {
        return match read_aggregates(q, quoting) {
            Err(reason) => Err(reason),
            Ok((columns, hidden_count)) => {
                let s = Shaped {
                    columns,
                    hidden_count,
                    pk_columns: Vec::new(),
                    pk_view_columns: Vec::new(),
                };
                assert(s@.pk_columns =~= Seq::empty());
                assert(s@.pk_view_columns =~= Seq::empty());
                Ok(s)
            },
        };
    }
    if q.group_refs.len() > 0 {
        return Err("GROUP BY without an aggregate is not supported".to_string());
    }
    let mut columns = match read_projection(&q.targets, quoting) {
        Ok(columns) => columns,
        Err(reason) => return Err(reason),
    };
    if q.tables.len() > 1 {
        let (keys, targets) = join_keys(relations, quoting);
        append_all(&mut columns.targets, &targets);
        columns.hidden_columns = copied(&keys);
        let s = Shaped {
            columns,
            hidden_count: false,
            pk_columns: Vec::new(),
            pk_view_columns: keys,
        };
        assert(s@.pk_columns =~= Seq::empty());
        Ok(s)
    } else {
        match find_single_keys(q, indexes[0]) {
            Err(reason) => Err(reason),
            Ok(keys) => Ok(
                Shaped {
                    columns,
                    hidden_count: false,
                    pk_columns: key_names(&q.tables[0]),
                    pk_view_columns: keys,
                },
            ),
        }
    }
}

/// The FROM list of the populate query.
pub open spec fn from_list(
    q: Query,
    relations: Seq<BaseModel>,
    quoting: spec_fn(Seq<char>) -> Seq<char>,
) -> Seq<char> {
    if q.tables@.len() > 1 {
        joined(
            relations.map_values(
                |r: BaseModel| r.qualified + " AS "@ + quoting(r.alias),
            ),
            ", "@,
        )
    } else {
        q.tables@[0].qualified@
    }
}

fn from_list_of(q: &Query, relations: &Vec<BaseRelation>, quoting: &Quoting) -> (result: String)
    requires
        q.tables@.len() > 0,
    ensures
        result@ == from_list(*q, views(relations@), quoting@),
{
    if q.tables.len() <= 1 {
        return q.tables[0].qualified.clone();
    }
    let mut parts: Vec<String> = Vec::new();
    let mut i: usize = 0;
    while i < relations.len()
        invariant
            i <= relations@.len(),
            parts@.len() == i,
            forall|j: int|
                0 <= j < i ==> (#[trigger] parts@[j])@ == relations@[j].qualified@ + " AS "@
                    + quoting@(relations@[j].alias@),
        decreases relations@.len() - i,
    {
        let quoted = quoting.ident(&relations[i].alias);
        parts.push(relations[i].qualified.clone().concat(" AS ").concat(&quoted));
        i = i + 1;
    }
    assert(views(parts@) =~= views(relations@).map_values(
        |r: BaseModel| r.qualified + " AS "@ + quoting@(r.alias),
    ));
    text::join(&parts, ", ")
}

/// ` <keyword> <clause>`, where there is a clause.
pub open spec fn clause(keyword: Seq<char>, body: Option<Seq<char>>) -> Seq<char> {
    match body {
        Some(sql) => keyword + sql,
        None => Seq::empty(),
    }
}

/// GROUP BY expressions of the populate query, if any.
pub open spec fn grouping(exprs: Seq<Seq<char>>) -> Option<Seq<char>> {
    if exprs.len() > 0 {
        Some(joined(exprs, ", "@))
    } else {
        None
    }
}

/// The spec of a definition with the given shape.
pub open spec fn assembled(
    q: Query,
    order: Seq<usize>,
    relations: Seq<BaseModel>,
    shape: ShapedModel,
    quoting: spec_fn(Seq<char>) -> Seq<char>,
) -> SpecModel {
    let predicate = conjunction(qual_texts(q.quals@, order));
    let select_list = joined(shape.columns.targets, ", "@);
    let group_by = grouping(shape.columns.group_exprs);
    SpecModel {
        shape: if q.has_aggs {
            Shape::Aggregate
        } else {
            Shape::Projection
        },
        base_table: q.tables@[0].qualified@,
        base_relname: q.tables@[0].name@,
        predicate,
        columns: shape.columns.columns,
        pk_columns: shape.pk_columns,
        pk_view_columns: shape.pk_view_columns,
        count_alias: shape.columns.count_alias,
        hidden_count: shape.hidden_count,
        counts: shape.columns.counts,
        sums: shape.columns.sums,
        populate_sql: "SELECT "@ + select_list + " FROM "@ + from_list(q, relations, quoting)
            + clause(" WHERE "@, predicate) + clause(" GROUP BY "@, group_by),
        relations,
        select_list,
        group_by,
        visible_columns: visible_names(q.targets@, q.targets@.len()),
        hidden_columns: shape.columns.hidden_columns,
    }
}

/// The catalog facts of a table.
pub open spec fn base_facts(t: Table) -> BaseTableModel {
    BaseTableModel {
        oid: t.oid,
        qualified: t.qualified@,
        replident: t.replident@,
        pk_columns: t.key@.map_values(|k: Attribute| k.name@),
    }
}

/// The spec of a definition and the facts of its first base table, or the
/// first reason why it has neither of the two shapes.
pub open spec fn validated(q: Query, quoting: spec_fn(Seq<char>) -> Seq<char>) -> Result<
    (SpecModel, BaseTableModel),
    Seq<char>,
> {
    if let Some(reason) = clauses_error(q.clauses) {
        Err(reason)
    } else {
        match collected(q.rtable@) {
            Err(reason) => Err(reason),
            Ok(indexes) => if let Some(reason) = first_table_error(q.tables@, q.tables@.len()) {
                Err(reason)
            } else {
                match quals_of(q.jointree) {
                    Err(reason) => Err(reason),
                    Ok(order) => validated_parts(q, indexes, order, quoting),
                }
            },
        }
    }
}

/// The same, once the relations and the order of the quals are known.
pub open spec fn validated_parts(
    q: Query,
    indexes: Seq<i32>,
    order: Seq<usize>,
    quoting: spec_fn(Seq<char>) -> Seq<char>,
) -> Result<(SpecModel, BaseTableModel), Seq<char>> {
    let vars = all_vars(q, order);
    if let Some(reason) = quals_error(
        q.quals@,
        order,
        q.tables@.len() > 1,
        indexes,
        order.len(),
    ) {
        Err(reason)
    } else if let Some(reason) = select_list_error(q.targets@, q.group_refs@, indexes) {
        Err(reason)
    } else if whole_row(vars, indexes) {
        Err("whole-row references are not supported"@)
    } else {
        let relations = base_relations(q.tables@, indexes, vars);
        match shaped(q, indexes, relations, quoting) {
            Err(reason) => Err(reason),
            Ok(shape) => Ok(
                (assembled(q, order, relations, shape, quoting), base_facts(q.tables@[0])),
            ),
        }
    }
}

/// A query whose parts fit together: a table for every relation of the range
/// table, and every qual of the join tree among the quals.
pub open spec fn well_formed(q: Query) -> bool {
    &&& q.rtable@.len() < i32::MAX
    &&& q.tables@.len() == relation_indexes(q.rtable@, q.rtable@.len()).len()
    &&& quals_of(q.jointree) matches Ok(order) ==> forall|i: int|
        0 <= i < order.len() ==> (#[trigger] order[i]) < q.quals@.len()
}

/// Classify an analyzed definition.
pub fn classify(q: &Query, quoting: &Quoting) -> (result: Result<(ViewSpec, BaseTable), String>)
    requires
        well_formed(*q),
    ensures
        match result {
            Ok((spec, base)) => validated(*q, quoting@) == Ok::<
                (SpecModel, BaseTableModel),
                Seq<char>,
            >((spec@, base@)),
            Err(e) => validated(*q, quoting@) == Err::<(SpecModel, BaseTableModel), Seq<char>>(e@),
        },
{
    match reject_unsupported_clauses(&q.clauses) {
        Ok(()) => {},
        Err(reason) => return Err(reason),
    }
    let indexes = match collect_relations(&q.rtable) {
        Ok(indexes) => indexes,
        Err(reason) => return Err(reason),
    };
    match check_tables(&q.tables) {
        Ok(()) => {},
        Err(reason) => return Err(reason),
    }
    let is_join = q.tables.len() > 1;

    // Quals: WHERE for a single table; every ON plus WHERE for joins.
    let mut order: Vec<usize> = Vec::new();
    match collect_quals(&q.jointree, &mut order) {
        Ok(()) => {},
        Err(reason) => return Err(reason),
    }
    assert(order@ =~= quals_of(q.jointree)->Ok_0);
    match check_quals(&q.quals, &order, is_join, &indexes) {
        Ok(()) => {},
        Err(reason) => return Err(reason),
    }
    let predicate = predicate_of(&q.quals, &order);

    let visible_columns = match check_select_list(&q.targets, &q.group_refs, &indexes) {
        Ok(names) => names,
        Err(reason) => return Err(reason),
    };
    let vars = collect_vars(q, &order);
    if check_whole_rows(&vars, &indexes) {
        return Err("whole-row references are not supported".to_string());
    }
    let relations = relations_of(&q.tables, &indexes, &vars);
    let shape = match shape_of(q, &indexes, &relations, quoting) {
        Ok(shape) => shape,
        Err(reason) => return Err(reason),
    };

    let select_list = text::join(&shape.columns.targets, ", ");
    let from = from_list_of(q, &relations, quoting);
    let mut populate_sql = "SELECT ".to_string().concat(&select_list).concat(" FROM ").concat(
        &from,
    );
    let ghost head = populate_sql@;
    if let Some(p) = &predicate {
        populate_sql.append(" WHERE ");
        populate_sql.append(p);
    }
    assert(populate_sql@ =~= head + clause(" WHERE "@, view_of_option(predicate)));
    let ghost filtered = populate_sql@;
    let group_by = if shape.columns.group_exprs.len() > 0 {
        Some(text::join(&shape.columns.group_exprs, ", "))
    } else {
        None
    };
    if let Some(g) = &group_by {
        populate_sql.append(" GROUP BY ");
        populate_sql.append(g);
    }
    assert(populate_sql@ =~= filtered + clause(" GROUP BY "@, view_of_option(group_by)));
    let base = &q.tables[0];
    let facts = BaseTable {
        oid: base.oid,
        qualified: base.qualified.clone(),
        replident: base.replident.clone(),
        pk_columns: key_names(base),
    };
    let spec = ViewSpec {
        shape: if q.has_aggs {
            Shape::Aggregate
        } else {
            Shape::Projection
        },
        base_table: base.qualified.clone(),
        base_relname: base.name.clone(),
        predicate,
        columns: shape.columns.columns,
        pk_columns: shape.pk_columns,
        pk_view_columns: shape.pk_view_columns,
        count_alias: shape.columns.count_alias,
        hidden_count: shape.hidden_count,
        counts: shape.columns.counts,
        sums: shape.columns.sums,
        populate_sql,
        relations,
        select_list,
        group_by,
        visible_columns,
        hidden_columns: shape.columns.hidden_columns,
    };
    Ok((spec, facts))
}

/// Classify an analyzed definition. Anything outside the two shapes is
/// reported as `nabla: unsupported view definition: <reason>`. Returns the
/// spec and the catalog facts of the first base table.
pub fn validate(q: &Query, quoting: &Quoting) -> (result: Result<(ViewSpec, BaseTable), Report>)
    requires
        well_formed(*q),
    ensures
        match result {
            Ok((spec, base)) => validated(*q, quoting@) == Ok::<
                (SpecModel, BaseTableModel),
                Seq<char>,
            >((spec@, base@)),
            Err(report) => validated(*q, quoting@) is Err && report@ == errors::unsupported(
                validated(*q, quoting@)->Err_0,
            ),
        },
{
    match classify(q, quoting) {
        Ok(found) => Ok(found),
        Err(reason) => Err(errors::unsupported_definition(&reason)),
    }
}

// --- laws ----------------------------------------------------------------------

proof fn lemma_reserved_prefix(rest: Seq<char>)
    ensures
        occurs_at(HIDDEN_SUM_COUNTER_PREFIX@ + rest, "_nabla_"@, 0),
        occurs_at(HIDDEN_PK_PREFIX@ + rest, "_nabla_"@, 0),
        occurs_at(HIDDEN_COUNT_COLUMN@ + rest, "_nabla_"@, 0),
{
    reveal_strlit("_nabla_");
    reveal_strlit("_nabla_nn_");
    reveal_strlit("_nabla_pk");
    reveal_strlit("_nabla_n");
    let p = "_nabla_"@;
    assert((HIDDEN_SUM_COUNTER_PREFIX@ + rest).subrange(0, 7) =~= p);
    assert((HIDDEN_PK_PREFIX@ + rest).subrange(0, 7) =~= p);
    assert((HIDDEN_COUNT_COLUMN@ + rest).subrange(0, 7) =~= p);
}

pub open spec fn all_reserved(names: Seq<Seq<char>>) -> bool {
    forall|i: int| 0 <= i < names.len() ==> occurs_at(#[trigger] names[i], "_nabla_"@, 0)
}

proof fn lemma_aggregate_hidden(
    targets: Seq<Target>,
    refs: Seq<u32>,
    quoting: spec_fn(Seq<char>) -> Seq<char>,
    n: nat,
)
    ensures
        aggregate_columns(targets, refs, quoting, n) matches Ok(c) ==> all_reserved(
            c.hidden_columns,
        ),
    decreases n,
{
    if n > 0 {
        lemma_aggregate_hidden(targets, refs, quoting, (n - 1) as nat);
        if let Ok(c) = aggregate_columns(targets, refs, quoting, (n - 1) as nat) {
            lemma_reserved_prefix(decimal(c.aggregates));
        }
    }
}

proof fn lemma_join_hidden(relations: Seq<BaseModel>, n: nat)
    requires
        n <= relations.len(),
    ensures
        all_reserved(hidden_keys(relations, n)),
    decreases n,
{
    if n > 0 {
        lemma_join_hidden(relations, (n - 1) as nat);
        let rel = relations[n - 1];
        let these = hidden_keys_of(rel);
        assert forall|i: int| 0 <= i < these.len() implies occurs_at(
            #[trigger] these[i],
            "_nabla_"@,
            0,
        ) by {
            lemma_reserved_prefix(decimal(rel.rti as nat) + "_"@ + rel.pk_columns[i]);
            assert(these[i] =~= HIDDEN_PK_PREFIX@ + (decimal(rel.rti as nat) + "_"@
                + rel.pk_columns[i]));
        }
    }
}

proof fn lemma_visible_names(targets: Seq<Target>, allowed: Seq<i32>, n: nat)
    requires
        n <= targets.len(),
        targets_error(targets, allowed, n) is None,
    ensures
        visible_names(targets, n).no_duplicates(),
        forall|i: int|
            0 <= i < visible_names(targets, n).len() ==> !occurs_at(
                #[trigger] visible_names(targets, n)[i],
                "_nabla_"@,
                0,
            ),
    decreases n,
{
    if n > 0 {
        lemma_visible_names(targets, allowed, (n - 1) as nat);
        let before = visible_names(targets, (n - 1) as nat);
        if !targets[n - 1].resjunk {
            assert(forall|i: int| 0 <= i < before.len() ==> before.contains(#[trigger] before[i]));
        }
    }
}

proof fn lemma_projection_columns(
    targets: Seq<Target>,
    quoting: spec_fn(Seq<char>) -> Seq<char>,
    n: nat,
)
    ensures
        projection_columns(targets, quoting, n) matches Ok(c) ==> c.hidden_columns.len() == 0
            && c.count_alias is None && c.group_exprs.len() == 0,
    decreases n,
{
    if n > 0 {
        lemma_projection_columns(targets, quoting, (n - 1) as nat);
    }
}

/// The output columns of an accepted definition have distinct names, and the
/// names of the columns added to them are ones that the user cannot have: every
/// hidden column begins with `_nabla_` and no visible one does.
pub proof fn law_hidden_columns_are_apart(q: Query, quoting: spec_fn(Seq<char>) -> Seq<char>)
    requires
        well_formed(q),
    ensures
        validated(q, quoting) matches Ok((spec, base)) ==> spec.visible_columns.no_duplicates()
            && all_reserved(spec.hidden_columns) && forall|i: int|
            0 <= i < spec.visible_columns.len() ==> !occurs_at(
                #[trigger] spec.visible_columns[i],
                "_nabla_"@,
                0,
            ),
{
    if let Ok((spec, base)) = validated(q, quoting) {
        let indexes = collected(q.rtable@)->Ok_0;
        let order = quals_of(q.jointree)->Ok_0;
        let relations = base_relations(q.tables@, indexes, all_vars(q, order));
        lemma_visible_names(q.targets@, indexes, q.targets@.len());
        if q.has_aggs {
            lemma_aggregate_hidden(q.targets@, q.group_refs@, quoting, q.targets@.len());
            lemma_reserved_prefix(Seq::empty());
            assert(HIDDEN_COUNT_COLUMN@ + Seq::empty() =~= HIDDEN_COUNT_COLUMN@);
        } else {
            lemma_projection_columns(q.targets@, quoting, q.targets@.len());
            lemma_join_hidden(relations, relations.len());
        }
    }
}

proof fn lemma_table_checked(tables: Seq<Table>, n: nat, i: int)
    requires
        0 <= i < n <= tables.len(),
        first_table_error(tables, n) is None,
    ensures
        table_error(tables, i) is None,
    decreases n,
{
    if i < n - 1 {
        lemma_table_checked(tables, (n - 1) as nat, i);
    }
}

proof fn lemma_hidden_keys_there(relations: Seq<BaseModel>, n: nat)
    requires
        0 < n <= relations.len(),
        relations[0].pk_columns.len() > 0,
    ensures
        hidden_keys(relations, n).len() > 0,
    decreases n,
{
    if n > 1 {
        lemma_hidden_keys_there(relations, (n - 1) as nat);
    } else {
        assert(hidden_keys(relations, 1) == hidden_keys(relations, 0) + hidden_keys_of(
            relations[0],
        ));
    }
}

proof fn lemma_keys_found_or_missing(q: Query, index: i32, n: nat)
    ensures
        selected_keys(q, index, n).len() + missing_keys(q, index, n).len() == n,
    decreases n,
{
    if n > 0 {
        lemma_keys_found_or_missing(q, index, (n - 1) as nat);
    }
}

/// Every row of an accepted view can be found again: an aggregate view has a
/// group key and a group count, a single-table projection selects every column
/// of the primary key, and a join projection carries key columns of its own.
pub proof fn law_rows_have_an_identity(q: Query, quoting: spec_fn(Seq<char>) -> Seq<char>)
    requires
        well_formed(q),
    ensures
        validated(q, quoting) matches Ok((spec, base)) ==> match spec.shape {
            Shape::Aggregate => spec.columns.len() > 0 && spec.count_alias is Some && spec.group_by
                is Some,
            Shape::Projection => {
                &&& spec.pk_view_columns.len() > 0
                &&& spec.relations.len() == 1 ==> spec.pk_view_columns.len()
                    == spec.pk_columns.len()
                &&& spec.relations.len() > 1 ==> spec.pk_view_columns == spec.hidden_columns
            },
        },
{
    if let Ok((spec, base)) = validated(q, quoting) {
        let indexes = collected(q.rtable@)->Ok_0;
        let order = quals_of(q.jointree)->Ok_0;
        let relations = base_relations(q.tables@, indexes, all_vars(q, order));
        if q.has_aggs {
            lemma_group_keys(q.targets@, q.group_refs@, quoting, q.targets@.len());
        } else if q.tables@.len() > 1 {
            lemma_table_checked(q.tables@, q.tables@.len(), 0);
            assert(relations[0].pk_columns.len() > 0);
            lemma_hidden_keys_there(relations, relations.len());
        } else {
            lemma_keys_found_or_missing(q, indexes[0], q.tables@[0].key@.len());
        }
    }
}

proof fn lemma_group_keys(
    targets: Seq<Target>,
    refs: Seq<u32>,
    quoting: spec_fn(Seq<char>) -> Seq<char>,
    n: nat,
)
    ensures
        aggregate_columns(targets, refs, quoting, n) matches Ok(c) ==> c.group_exprs.len()
            == c.columns.len(),
    decreases n,
{
    if n > 0 {
        lemma_group_keys(targets, refs, quoting, (n - 1) as nat);
    }
}

proof fn lemma_used_positions(
    t: Table,
    index: i32,
    vars: Seq<(i32, i16)>,
    is_join: bool,
    n: nat,
)
    ensures
        forall|i: int|
            0 <= i < used_positions(t, index, vars, is_join, n).len() ==> 0 <= (
            #[trigger] used_positions(t, index, vars, is_join, n)[i]) < n,
        forall|i: int, j: int|
            0 <= i < j < used_positions(t, index, vars, is_join, n).len() ==> used_positions(
                t,
                index,
                vars,
                is_join,
                n,
            )[i] < used_positions(t, index, vars, is_join, n)[j],
        forall|p: int|
            0 <= p < n && uses(t, index, vars, is_join, (#[trigger] t.columns@[p]).name@)
                ==> used_positions(t, index, vars, is_join, n).contains(p),
    decreases n,
{
    if n > 0 {
        lemma_used_positions(t, index, vars, is_join, (n - 1) as nat);
        let before = used_positions(t, index, vars, is_join, (n - 1) as nat);
        let after = used_positions(t, index, vars, is_join, n);
        assert forall|p: int|
            0 <= p < n && uses(t, index, vars, is_join, (#[trigger] t.columns@[p]).name@) implies
            after.contains(p) by {
            if p < n - 1 {
                let k = choose|k: int| 0 <= k < before.len() && before[k] == p;
                assert(after[k] == p);
            } else {
                assert(after[before.len() as int] == p);
            }
        }
    }
}

/// The columns a view reads from a relation are columns of that relation, in
/// attribute order, each with its own type; and a join view reads the whole
/// primary key of every relation, as far as its columns are among them.
pub proof fn law_used_columns_are_columns(
    q: Query,
    quoting: spec_fn(Seq<char>) -> Seq<char>,
    r: int,
)
    requires
        well_formed(q),
        validated(q, quoting) is Ok,
        0 <= r < (validated(q, quoting)->Ok_0).0.relations.len(),
    ensures
        ({
            let spec = (validated(q, quoting)->Ok_0).0;
            let rel = spec.relations[r];
            &&& rel.columns.len() == rel.column_types.len()
            &&& rel.used_columns.len() == rel.used_column_types.len()
            &&& exists|at: Seq<int>|
                #![trigger at.len()]
                at.len() == rel.used_columns.len() && (forall|i: int|
                    0 <= i < at.len() ==> 0 <= #[trigger] at[i] < rel.columns.len()
                        && rel.used_columns[i] == rel.columns[at[i]] && rel.used_column_types[i]
                        == rel.column_types[at[i]]) && (forall|i: int, j: int|
                    0 <= i < j < at.len() ==> at[i] < at[j])
            &&& spec.relations.len() > 1 ==> forall|k: int|
                0 <= k < rel.pk_columns.len() && rel.columns.contains(#[trigger] rel.pk_columns[k])
                    ==> rel.used_columns.contains(rel.pk_columns[k])
        }),
{
    let spec = (validated(q, quoting)->Ok_0).0;
    let rel = spec.relations[r];
    let indexes = collected(q.rtable@)->Ok_0;
    let order = quals_of(q.jointree)->Ok_0;
    let vars = all_vars(q, order);
    let t = q.tables@[r];
    let is_join = q.tables@.len() > 1;
    let n = t.columns@.len();
    lemma_used_positions(t, indexes[r], vars, is_join, n);
    let at = used_positions(t, indexes[r], vars, is_join, n);
    assert(at.len() == rel.used_columns.len());
    if is_join {
        assert forall|k: int|
            0 <= k < rel.pk_columns.len() && rel.columns.contains(
                #[trigger] rel.pk_columns[k],
            ) implies rel.used_columns.contains(rel.pk_columns[k]) by {
            let p = choose|p: int| 0 <= p < rel.columns.len() && rel.columns[p] == rel.pk_columns[k];
            assert(t.key@[k].name@ == t.columns@[p].name@);
            assert(uses(t, indexes[r], vars, is_join, t.columns@[p].name@));
            let i = choose|i: int| 0 <= i < at.len() && at[i] == p;
            assert(rel.used_columns[i] == rel.pk_columns[k]);
        }
    }
}

// --- laws of acceptance ----------------------------------------------------------------------

/// Whether an aggregate can be maintained: count(*), or count or sum of one immutable
/// expression, in their plain forms.
pub open spec fn is_plain_aggregate(agg: Aggregate) -> bool {
    &&& agg.kind == 110u8
    &&& !agg.direct_args
    &&& !agg.distinct
    &&& !agg.filter
    &&& !agg.order
    &&& agg.builtin
    &&& (agg.function@ == "count"@ && (agg.star || (agg.args@.len() == 1 && !agg.args@[0].mutable)))
        || (agg.function@ == "sum"@ && agg.args@.len() == 1 && !agg.args@[0].mutable)
}

/// Only plain counts and sums are accepted, and each is taken for what it is, with its
/// own argument.
pub proof fn law_only_plain_aggregates_are_accepted(agg: Aggregate, alias: Seq<char>)
    ensures
        classified(agg, alias) is Ok <==> is_plain_aggregate(agg),
        classified(agg, alias) matches Ok(kind) ==> match kind {
            AggModel::Count => agg.function@ == "count"@ && agg.star,
            AggModel::CountExpr(sql) => agg.function@ == "count"@ && !agg.star && sql
                == agg.args@[0].sql@,
            AggModel::Sum(sql) => agg.function@ == "sum"@ && sql == agg.args@[0].sql@,
        },
{
    reveal_strlit("count");
    reveal_strlit("sum");
    assert("count"@.len() == 5 && "sum"@.len() == 3);
}

proof fn lemma_quals_checked(
    quals: Seq<Expression>,
    order: Seq<usize>,
    is_join: bool,
    allowed: Seq<i32>,
    n: nat,
)
    ensures
        quals_error(quals, order, is_join, allowed, n) is None <==> forall|k: int|
            0 <= k < n ==> !quals[#[trigger] order[k] as int].mutable && foreign_error(
                quals[order[k] as int],
                allowed,
            ) is None,
    decreases n,
{
    if n > 0 {
        lemma_quals_checked(quals, order, is_join, allowed, (n - 1) as nat);
        assert(n - 1 < n);
        if quals_error(quals, order, is_join, allowed, n) is None {
            assert forall|k: int| 0 <= k < n implies !quals[#[trigger] order[k] as int].mutable
                && foreign_error(quals[order[k] as int], allowed) is None by {}
        }
    }
}

/// Whether a name is one of those that are kept for hidden columns.
pub open spec fn is_reserved(name: Seq<char>) -> bool {
    name.len() >= 7 && name.take(7) == "_nabla_"@
}

proof fn lemma_visible_names_hold(targets: Seq<Target>, n: nat, name: Seq<char>)
    requires
        n <= targets.len(),
    ensures
        visible_names(targets, n).contains(name) <==> exists|j: int|
            0 <= j < n && !(#[trigger] targets[j]).resjunk && targets[j].alias@ == name,
    decreases n,
{
    if n > 0 {
        lemma_visible_names_hold(targets, (n - 1) as nat, name);
        let before = visible_names(targets, (n - 1) as nat);
        let after = visible_names(targets, n);
        if before.contains(name) {
            let k = choose|k: int| 0 <= k < before.len() && before[k] == name;
            assert(after[k] == name);
        }
        if !targets[n - 1].resjunk {
            assert(after[before.len() as int] == targets[n - 1].alias@);
        }
        if after.contains(name) {
            let k = choose|k: int| 0 <= k < after.len() && after[k] == name;
            if k < before.len() {
                assert(before[k] == name);
            } else {
                assert(!targets[n - 1].resjunk && targets[n - 1].alias@ == name);
            }
        }
    } else {
        assert(!visible_names(targets, n).contains(name));
    }
}

/// Whether an output column can stand where it does: its name is not reserved and new, and
/// its expression reads base tables alone.
pub open spec fn is_fit_target(targets: Seq<Target>, allowed: Seq<i32>, i: int) -> bool {
    &&& !is_reserved(targets[i].alias@)
    &&& forall|j: int|
        0 <= j < i && !(#[trigger] targets[j]).resjunk ==> targets[j].alias@ != targets[i].alias@
    &&& foreign_error(targets[i].expr, allowed) is None
}

proof fn lemma_targets_checked(targets: Seq<Target>, allowed: Seq<i32>, n: nat)
    requires
        n <= targets.len(),
    ensures
        targets_error(targets, allowed, n) is None <==> forall|i: int|
            0 <= i < n && !(#[trigger] targets[i]).resjunk ==> is_fit_target(targets, allowed, i),
    decreases n,
{
    if n > 0 {
        lemma_targets_checked(targets, allowed, (n - 1) as nat);
        let t = targets[n - 1];
        lemma_visible_names_hold(targets, (n - 1) as nat, t.alias@);
        reveal_strlit("_nabla_");
        assert(occurs_at(t.alias@, "_nabla_"@, 0) <==> is_reserved(t.alias@)) by {
            if t.alias@.len() >= 7 {
                assert(t.alias@.subrange(0, 7) =~= t.alias@.take(7));
            }
        }
        if targets_error(targets, allowed, n) is None {
            assert forall|i: int| 0 <= i < n && !(#[trigger] targets[i]).resjunk implies is_fit_target(
                targets,
                allowed,
                i,
            ) by {}
        }
    }
}

/// Whether a target is a GROUP BY key.
pub open spec fn is_group_key(t: Target, refs: Seq<u32>) -> bool {
    t.sortgroupref != 0 && refs.contains(t.sortgroupref)
}

/// Whether a target can stand in the select list of an aggregate: an immutable GROUP BY
/// key, or a plain aggregate.
pub open spec fn fits_group(t: Target, refs: Seq<u32>) -> bool {
    if is_group_key(t, refs) {
        !t.expr.mutable
    } else {
        t.aggregate is Some && is_plain_aggregate(t.aggregate->0)
    }
}

/// Whether a target is count(*).
pub open spec fn counts_rows(t: Target, refs: Seq<u32>) -> bool {
    !t.resjunk && !is_group_key(t, refs) && t.aggregate is Some && is_plain_aggregate(
        t.aggregate->0,
    ) && (t.aggregate->0).function@ == "count"@ && (t.aggregate->0).star
}

/// What a target of an aggregate leaves in the columns of the view.
pub open spec fn is_laid_out(
    c: ColumnsModel,
    t: Target,
    refs: Seq<u32>,
    quoting: spec_fn(Seq<char>) -> Seq<char>,
) -> bool {
    if is_group_key(t, refs) {
        &&& c.columns.contains(OutputModel { expr: t.expr.sql@, alias: t.alias@ })
        &&& c.group_exprs.contains(t.expr.sql@)
        &&& c.targets.contains(t.expr.sql@ + " AS "@ + quoting(t.alias@))
    } else if counts_rows(t, refs) {
        &&& c.count_alias == Some(t.alias@)
        &&& c.targets.contains("count(*) AS "@ + quoting(t.alias@))
    } else if (t.aggregate->0).function@ == "count"@ {
        let arg = (t.aggregate->0).args@[0].sql@;
        &&& c.counts.contains(OutputModel { expr: arg, alias: t.alias@ })
        &&& c.targets.contains("count("@ + arg + ") AS "@ + quoting(t.alias@))
    } else {
        let arg = (t.aggregate->0).args@[0].sql@;
        &&& c.targets.contains("sum("@ + arg + ") AS "@ + quoting(t.alias@))
        &&& is_summed(c, arg, t.alias@)
    }
}

/// Whether a sum has a counter of its own: a hidden column that counts its argument.
pub open spec fn is_summed(c: ColumnsModel, arg: Seq<char>, alias: Seq<char>) -> bool {
    exists|k: int|
        0 <= k < c.sums.len() && (#[trigger] c.sums[k]).expr == arg && c.sums[k].alias == alias
            && c.hidden_columns.contains(c.sums[k].counter) && c.hidden_targets.contains(
            "count("@ + arg + ") AS "@ + c.sums[k].counter,
        )
}

proof fn lemma_pushed<A>(s: Seq<A>, x: A)
    ensures
        s.push(x).contains(x),
        forall|y: A| s.contains(y) ==> #[trigger] s.push(x).contains(y),
{
    assert(s.push(x)[s.len() as int] == x);
    assert forall|y: A| s.contains(y) implies #[trigger] s.push(x).contains(y) by {
        let k = choose|k: int| 0 <= k < s.len() && s[k] == y;
        assert(s.push(x)[k] == y);
    }
}

/// What a step over one more target keeps, and what it adds.
proof fn lemma_with_target(
    c: ColumnsModel,
    t: Target,
    refs: Seq<u32>,
    quoting: spec_fn(Seq<char>) -> Seq<char>,
    other: Target,
)
    ensures
        with_target(c, t, refs, quoting) is Ok <==> t.resjunk || (fits_group(t, refs) && !(
        counts_rows(t, refs) && c.count_alias is Some)),
        with_target(c, t, refs, quoting) matches Ok(after) ==> {
            &&& !t.resjunk ==> is_laid_out(after, t, refs, quoting)
            &&& is_laid_out(c, other, refs, quoting) ==> is_laid_out(after, other, refs, quoting)
            &&& after.count_alias is Some <==> c.count_alias is Some || counts_rows(t, refs)
            &&& after.columns.len() == c.columns.len() + (if !t.resjunk && is_group_key(t, refs) {
                1int
            } else {
                0
            })
            &&& after.group_exprs.len() - after.columns.len() == c.group_exprs.len()
                - c.columns.len()
            &&& after.targets.len() == c.targets.len() + (if t.resjunk {
                0int
            } else {
                1
            })
        },
{
    let alias = t.alias@;
    if t.aggregate is Some {
        law_only_plain_aggregates_are_accepted(t.aggregate->0, alias);
        reveal_strlit("count");
        reveal_strlit("sum");
        assert("count"@.len() == 5 && "sum"@.len() == 3);
    }
    if let Ok(after) = with_target(c, t, refs, quoting) {
        if !t.resjunk {
            lemma_pushed(c.targets, after.targets.last());
            assert(after.targets =~= c.targets.push(after.targets.last()));
            if is_group_key(t, refs) {
                lemma_pushed(c.columns, after.columns.last());
                lemma_pushed(c.group_exprs, after.group_exprs.last());
            } else {
                match classified(t.aggregate->0, alias)->Ok_0 {
                    AggModel::Count => {},
                    AggModel::CountExpr(e) => {
                        lemma_pushed(c.counts, after.counts.last());
                    },
                    AggModel::Sum(e) => {
                        lemma_pushed(c.hidden_targets, after.hidden_targets.last());
                        lemma_pushed(c.hidden_columns, after.hidden_columns.last());
                        let k = c.sums.len() as int;
                        assert(after.sums[k].expr == e && after.sums[k].alias == alias);
                        assert(is_summed(after, e, alias));
                    },
                }
            }
            if is_laid_out(c, other, refs, quoting) {
                if !is_group_key(other, refs) && !counts_rows(other, refs) && (
                other.aggregate->0).function@ != "count"@ {
                    let arg = (other.aggregate->0).args@[0].sql@;
                    let k = choose|k: int|
                        0 <= k < c.sums.len() && (#[trigger] c.sums[k]).expr == arg
                            && c.sums[k].alias == other.alias@ && c.hidden_columns.contains(
                            c.sums[k].counter,
                        ) && c.hidden_targets.contains(
                            "count("@ + arg + ") AS "@ + c.sums[k].counter,
                        );
                    assert(after.sums[k] == c.sums[k]);
                }
            }
        }
    }
}

proof fn lemma_aggregates(
    targets: Seq<Target>,
    refs: Seq<u32>,
    quoting: spec_fn(Seq<char>) -> Seq<char>,
    n: nat,
)
    requires
        n <= targets.len(),
    ensures
        aggregate_columns(targets, refs, quoting, n) is Ok <==> (forall|i: int|
            0 <= i < n && !(#[trigger] targets[i]).resjunk ==> fits_group(targets[i], refs)) && (
        forall|i: int, j: int|
            0 <= i < j < n ==> !(counts_rows(#[trigger] targets[i], refs) && counts_rows(
                #[trigger] targets[j],
                refs,
            ))),
        aggregate_columns(targets, refs, quoting, n) matches Ok(c) ==> {
            &&& forall|i: int|
                0 <= i < n && !(#[trigger] targets[i]).resjunk ==> is_laid_out(
                    c,
                    targets[i],
                    refs,
                    quoting,
                )
            &&& c.count_alias is Some <==> exists|i: int|
                0 <= i < n && counts_rows(#[trigger] targets[i], refs)
            &&& c.columns.len() > 0 <==> exists|i: int|
                0 <= i < n && !(#[trigger] targets[i]).resjunk && is_group_key(targets[i], refs)
            &&& c.group_exprs.len() == c.columns.len()
            &&& c.targets.len() == visible_names(targets, n).len()
        },
    decreases n,
{
    if n > 0 {
        let m = (n - 1) as nat;
        lemma_aggregates(targets, refs, quoting, m);
        let t = targets[n - 1];
        if let Ok(c) = aggregate_columns(targets, refs, quoting, m) {
            lemma_with_target(c, t, refs, quoting, t);
            if let Ok(after) = aggregate_columns(targets, refs, quoting, n) {
                assert forall|i: int| 0 <= i < n && !(#[trigger] targets[i]).resjunk implies is_laid_out(
                    after,
                    targets[i],
                    refs,
                    quoting,
                ) by {
                    if i < n - 1 {
                        lemma_with_target(c, t, refs, quoting, targets[i]);
                    }
                }
                if c.count_alias is Some {
                    let i = choose|i: int| 0 <= i < m && counts_rows(#[trigger] targets[i], refs);
                    assert(counts_rows(targets[i], refs));
                }
                if c.columns.len() > 0 {
                    let i = choose|i: int|
                        0 <= i < m && !(#[trigger] targets[i]).resjunk && is_group_key(
                            targets[i],
                            refs,
                        );
                    assert(!targets[i].resjunk && is_group_key(targets[i], refs));
                }
                if counts_rows(t, refs) {
                    assert(c.count_alias is None);
                }
                assert forall|i: int, j: int| 0 <= i < j < n implies !(counts_rows(
                    #[trigger] targets[i],
                    refs,
                ) && counts_rows(#[trigger] targets[j], refs)) by {
                    if j == n - 1 && counts_rows(targets[i], refs) && counts_rows(t, refs) {
                        assert(c.count_alias is Some);
                    }
                }
            } else if !t.resjunk && fits_group(t, refs) {
                assert(counts_rows(t, refs) && c.count_alias is Some);
                let i = choose|i: int| 0 <= i < m && counts_rows(#[trigger] targets[i], refs);
                assert(counts_rows(targets[i], refs) && counts_rows(targets[n - 1], refs));
            }
        }
    }
}

proof fn lemma_projections(
    targets: Seq<Target>,
    quoting: spec_fn(Seq<char>) -> Seq<char>,
    n: nat,
)
    requires
        n <= targets.len(),
    ensures
        projection_columns(targets, quoting, n) is Ok <==> forall|i: int|
            0 <= i < n && !(#[trigger] targets[i]).resjunk ==> !targets[i].expr.mutable,
        projection_columns(targets, quoting, n) matches Ok(c) ==> {
            &&& c.columns.len() == visible_names(targets, n).len()
            &&& c.targets.len() == visible_names(targets, n).len()
            &&& c.group_exprs.len() == 0
            &&& forall|i: int|
                0 <= i < n && !(#[trigger] targets[i]).resjunk ==> c.columns.contains(
                    OutputModel { expr: targets[i].expr.sql@, alias: targets[i].alias@ },
                ) && c.targets.contains(
                    targets[i].expr.sql@ + " AS "@ + quoting(targets[i].alias@),
                )
        },
    decreases n,
{
    if n > 0 {
        lemma_projections(targets, quoting, (n - 1) as nat);
        if let Ok(c) = projection_columns(targets, quoting, (n - 1) as nat) {
            if let Ok(after) = projection_columns(targets, quoting, n) {
                if !targets[n - 1].resjunk {
                    lemma_pushed(c.columns, after.columns.last());
                    lemma_pushed(c.targets, after.targets.last());
                }
            }
        }
    }
}

/// Whether a key column of the table is selected as it is.
pub open spec fn is_selected(targets: Seq<Target>, index: i32, attno: i16) -> bool {
    exists|i: int|
        0 <= i < targets.len() && !(#[trigger] targets[i]).resjunk && targets[i].expr.tree == (
        Node::Var { varno: index, attno, levels_up: 0 })
}

proof fn lemma_selected(targets: Seq<Target>, index: i32, attno: i16, n: nat)
    requires
        n <= targets.len(),
    ensures
        match selected_as(targets, index, attno, n) {
            Some(alias) => exists|i: int|
                0 <= i < n && !(#[trigger] targets[i]).resjunk && targets[i].alias@ == alias
                    && targets[i].expr.tree == (Node::Var { varno: index, attno, levels_up: 0 }),
            None => forall|i: int|
                0 <= i < n && !(#[trigger] targets[i]).resjunk ==> targets[i].expr.tree != (
                Node::Var { varno: index, attno, levels_up: 0 }),
        },
    decreases n,
{
    if n > 0 {
        lemma_selected(targets, index, attno, (n - 1) as nat);
    }
}

proof fn lemma_missing_keys(q: Query, index: i32, n: nat)
    requires
        n <= q.tables@[0].key@.len(),
    ensures
        missing_keys(q, index, n).len() == 0 <==> forall|k: int|
            0 <= k < n ==> is_selected(
                q.targets@,
                index,
                (#[trigger] q.tables@[0].key@[k]).attno,
            ),
        missing_keys(q, index, n).len() == 0 ==> selected_keys(q, index, n).len() == n && forall|
            k: int,
        |
            0 <= k < n ==> names_key(
                q.targets@,
                index,
                q.tables@[0].key@[k].attno,
                #[trigger] selected_keys(q, index, n)[k],
            ),
    decreases n,
{
    if n > 0 {
        lemma_missing_keys(q, index, (n - 1) as nat);
        let key = q.tables@[0].key@[n - 1];
        lemma_selected(q.targets@, index, key.attno, q.targets@.len());
        if missing_keys(q, index, n).len() == 0 {
            let before = selected_keys(q, index, (n - 1) as nat);
            let after = selected_keys(q, index, n);
            assert forall|k: int| 0 <= k < n implies names_key(
                q.targets@,
                index,
                q.tables@[0].key@[k].attno,
                #[trigger] after[k],
            ) by {
                if k < n - 1 {
                    assert(after[k] == before[k]);
                }
            }
        }
    }
}

/// Whether a name is that of an output column that is a key column of the table.
pub open spec fn names_key(targets: Seq<Target>, index: i32, attno: i16, name: Seq<char>) -> bool {
    exists|i: int|
        0 <= i < targets.len() && !(#[trigger] targets[i]).resjunk && targets[i].alias@ == name
            && targets[i].expr.tree == (Node::Var { varno: index, attno, levels_up: 0 })
}

/// Whether an expression of the definition, a qual or an output column, refers to a column.
pub open spec fn is_referred_to(q: Query, order: Seq<usize>, varno: i32, attno: i16) -> bool {
    ||| exists|k: int|
        0 <= k < order.len() && refers(
            q.quals@[#[trigger] order[k] as int].tree,
            varno,
            attno,
            0,
        )
    ||| exists|i: int|
        0 <= i < q.targets@.len() && !(#[trigger] q.targets@[i]).resjunk && refers(
            q.targets@[i].expr.tree,
            varno,
            attno,
            0,
        )
}

proof fn lemma_in_both<A>(a: Seq<A>, b: Seq<A>, x: A)
    ensures
        (a + b).contains(x) <==> a.contains(x) || b.contains(x),
{
    if a.contains(x) {
        let k = choose|k: int| 0 <= k < a.len() && a[k] == x;
        assert((a + b)[k] == x);
    }
    if b.contains(x) {
        let k = choose|k: int| 0 <= k < b.len() && b[k] == x;
        assert((a + b)[a.len() + k] == x);
    }
    if (a + b).contains(x) {
        let k = choose|k: int| 0 <= k < (a + b).len() && (a + b)[k] == x;
        if k < a.len() {
            assert(a[k] == x);
        } else {
            assert(b[k - a.len()] == x);
        }
    }
}

proof fn lemma_qual_vars(quals: Seq<Expression>, order: Seq<usize>, n: nat, varno: i32, attno: i16)
    requires
        n <= order.len(),
    ensures
        qual_vars(quals, order, n).contains((varno, attno)) <==> exists|k: int|
            0 <= k < n && refers(quals[#[trigger] order[k] as int].tree, varno, attno, 0),
    decreases n,
{
    if n > 0 {
        lemma_qual_vars(quals, order, (n - 1) as nat, varno, attno);
        let tree = quals[order[n - 1] as int].tree;
        law_every_reference_is_read(tree, varno, attno);
        lemma_in_both(qual_vars(quals, order, (n - 1) as nat), vars_of(tree), (varno, attno));
        if refers(tree, varno, attno, 0) {
            assert(refers(quals[order[n - 1] as int].tree, varno, attno, 0));
        }
    } else {
        assert(!qual_vars(quals, order, n).contains((varno, attno)));
    }
}

proof fn lemma_target_vars(targets: Seq<Target>, n: nat, varno: i32, attno: i16)
    requires
        n <= targets.len(),
    ensures
        target_vars(targets, n).contains((varno, attno)) <==> exists|i: int|
            0 <= i < n && !(#[trigger] targets[i]).resjunk && refers(
                targets[i].expr.tree,
                varno,
                attno,
                0,
            ),
    decreases n,
{
    if n > 0 {
        lemma_target_vars(targets, (n - 1) as nat, varno, attno);
        let tree = targets[n - 1].expr.tree;
        law_every_reference_is_read(tree, varno, attno);
        lemma_in_both(target_vars(targets, (n - 1) as nat), vars_of(tree), (varno, attno));
    } else {
        assert(!target_vars(targets, n).contains((varno, attno)));
    }
}

proof fn lemma_all_vars(q: Query, order: Seq<usize>, varno: i32, attno: i16)
    ensures
        all_vars(q, order).contains((varno, attno)) <==> is_referred_to(q, order, varno, attno),
{
    lemma_qual_vars(q.quals@, order, order.len(), varno, attno);
    lemma_target_vars(q.targets@, q.targets@.len(), varno, attno);
    lemma_in_both(
        qual_vars(q.quals@, order, order.len()),
        target_vars(q.targets@, q.targets@.len()),
        (varno, attno),
    );
}

/// Whether the select list of a definition can be maintained: at least one column, every
/// GROUP BY key among them, every column fit to stand where it does.
pub open spec fn is_fit_select_list(q: Query, indexes: Seq<i32>) -> bool {
    &&& exists|i: int| 0 <= i < q.targets@.len() && !(#[trigger] q.targets@[i]).resjunk
    &&& forall|i: int|
        0 <= i < q.targets@.len() && (#[trigger] q.targets@[i]).resjunk ==> !is_group_key(
            q.targets@[i],
            q.group_refs@,
        )
    &&& forall|i: int|
        0 <= i < q.targets@.len() && !(#[trigger] q.targets@[i]).resjunk ==> is_fit_target(
            q.targets@,
            indexes,
            i,
        )
}

/// Whether a definition has one of the two shapes: an aggregate by at least one selected
/// key, with count(*) at most once; or a projection whose rows can be told apart, a join
/// by keys of its own, a single table by its selected primary key.
pub open spec fn has_a_shape(q: Query, indexes: Seq<i32>) -> bool {
    if q.has_aggs {
        &&& q.group_refs@.len() > 0
        &&& forall|i: int|
            0 <= i < q.targets@.len() && !(#[trigger] q.targets@[i]).resjunk ==> fits_group(
                q.targets@[i],
                q.group_refs@,
            )
        &&& forall|i: int, j: int|
            0 <= i < j < q.targets@.len() ==> !(counts_rows(
                #[trigger] q.targets@[i],
                q.group_refs@,
            ) && counts_rows(#[trigger] q.targets@[j], q.group_refs@))
        &&& exists|i: int|
            0 <= i < q.targets@.len() && !(#[trigger] q.targets@[i]).resjunk && is_group_key(
                q.targets@[i],
                q.group_refs@,
            )
    } else {
        &&& q.group_refs@.len() == 0
        &&& forall|i: int|
            0 <= i < q.targets@.len() && !(#[trigger] q.targets@[i]).resjunk
                ==> !q.targets@[i].expr.mutable
        &&& q.tables@.len() <= 1 ==> q.tables@[0].key@.len() > 0 && forall|k: int|
            0 <= k < q.tables@[0].key@.len() ==> is_selected(
                q.targets@,
                indexes[0],
                (#[trigger] q.tables@[0].key@[k]).attno,
            )
    }
}

/// A definition is accepted exactly where all of it can be maintained: its clauses, its
/// FROM list, its tables and its joins; every qual and every output column, in all of
/// their references; and its shape.
pub proof fn law_only_maintainable_definitions_are_accepted(
    q: Query,
    quoting: spec_fn(Seq<char>) -> Seq<char>,
)
    requires
        well_formed(q),
    ensures
        validated(q, quoting) is Ok <==> {
            let indexes = relation_indexes(q.rtable@, q.rtable@.len());
            &&& clauses_error(q.clauses) is None
            &&& collected(q.rtable@) is Ok
            &&& first_table_error(q.tables@, q.tables@.len()) is None
            &&& all_inner(q.jointree)
            &&& forall|k: usize| #[trigger]
                stands_in(q.jointree, k) ==> !q.quals@[k as int].mutable && foreign_error(
                    q.quals@[k as int],
                    indexes,
                ) is None
            &&& is_fit_select_list(q, indexes)
            &&& forall|varno: i32, attno: i16|
                attno <= 0 && indexes.contains(varno) ==> !#[trigger] is_referred_to(
                    q,
                    quals_of(q.jointree)->Ok_0,
                    varno,
                    attno,
                )
            &&& has_a_shape(q, indexes)
        },
{
    let indexes = relation_indexes(q.rtable@, q.rtable@.len());
    law_only_inner_joins_are_accepted(q.jointree);
    if quals_of(q.jointree) is Ok {
        let order = quals_of(q.jointree)->Ok_0;
        let n = q.targets@.len();
        lemma_quals_checked(q.quals@, order, q.tables@.len() > 1, indexes, order.len());
        assert forall|k: usize| #[trigger] stands_in(q.jointree, k) <==> order.contains(k) by {
            law_every_qual_is_taken(q.jointree, k);
        }
        assert((forall|k: int|
            0 <= k < order.len() ==> !q.quals@[#[trigger] order[k] as int].mutable && foreign_error(
                q.quals@[order[k] as int],
                indexes,
            ) is None) <==> (forall|k: usize| #[trigger]
            stands_in(q.jointree, k) ==> !q.quals@[k as int].mutable && foreign_error(
                q.quals@[k as int],
                indexes,
            ) is None)) by {
            if forall|k: usize| #[trigger]
                stands_in(q.jointree, k) ==> !q.quals@[k as int].mutable && foreign_error(
                    q.quals@[k as int],
                    indexes,
                ) is None {
                assert forall|k: int| 0 <= k < order.len() implies !q.quals@[#[trigger] order[k]
                    as int].mutable && foreign_error(q.quals@[order[k] as int], indexes)
                    is None by {
                    assert(order.contains(order[k]));
                    assert(stands_in(q.jointree, order[k]));
                }
            }
        }
        lemma_targets_checked(q.targets@, indexes, n);
        assert(visible_names(q.targets@, n).len() > 0 <==> exists|i: int|
            0 <= i < n && !(#[trigger] q.targets@[i]).resjunk) by {
            if visible_names(q.targets@, n).len() > 0 {
                let name = visible_names(q.targets@, n)[0];
                lemma_visible_names_hold(q.targets@, n, name);
                assert(visible_names(q.targets@, n).contains(name));
            }
            if exists|i: int| 0 <= i < n && !(#[trigger] q.targets@[i]).resjunk {
                let i = choose|i: int| 0 <= i < n && !(#[trigger] q.targets@[i]).resjunk;
                lemma_visible_names_hold(q.targets@, n, q.targets@[i].alias@);
                assert(visible_names(q.targets@, n).contains(q.targets@[i].alias@));
            }
        }
        let vars = all_vars(q, order);
        assert(whole_row(vars, indexes) <==> exists|varno: i32, attno: i16|
            attno <= 0 && indexes.contains(varno) && #[trigger] is_referred_to(
                q,
                order,
                varno,
                attno,
            )) by {
            if whole_row(vars, indexes) {
                let i = choose|i: int|
                    0 <= i < vars.len() && (#[trigger] vars[i]).1 <= 0 && indexes.contains(
                        vars[i].0,
                    );
                assert(vars.contains((vars[i].0, vars[i].1)));
                lemma_all_vars(q, order, vars[i].0, vars[i].1);
                assert(is_referred_to(q, order, vars[i].0, vars[i].1));
            }
            if exists|varno: i32, attno: i16|
                attno <= 0 && indexes.contains(varno) && #[trigger] is_referred_to(
                    q,
                    order,
                    varno,
                    attno,
                ) {
                let (varno, attno) = choose|varno: i32, attno: i16|
                    attno <= 0 && indexes.contains(varno) && #[trigger] is_referred_to(
                        q,
                        order,
                        varno,
                        attno,
                    );
                lemma_all_vars(q, order, varno, attno);
                let i = choose|i: int| 0 <= i < vars.len() && vars[i] == (varno, attno);
                assert(vars[i].1 <= 0 && indexes.contains(vars[i].0));
            }
        }
        lemma_aggregates(q.targets@, q.group_refs@, quoting, n);
        lemma_projections(q.targets@, quoting, n);
        if q.tables@.len() == 1 {
            lemma_missing_keys(q, indexes[0], q.tables@[0].key@.len());
        }
    }
}

// --- laws of content -------------------------------------------------------------------------

/// How a visible target is written in the select list.
pub open spec fn select_item(t: Target, is_aggregate: bool, refs: Seq<u32>, quoted: Seq<char>) ->
    Seq<char> {
    if !is_aggregate || is_group_key(t, refs) {
        t.expr.sql@ + " AS "@ + quoted
    } else if counts_rows(t, refs) {
        "count(*) AS "@ + quoted
    } else if (t.aggregate->0).function@ == "count"@ {
        "count("@ + (t.aggregate->0).args@[0].sql@ + ") AS "@ + quoted
    } else {
        "sum("@ + (t.aggregate->0).args@[0].sql@ + ") AS "@ + quoted
    }
}

/// Whether a spec holds a visible target of its definition, as what it is: an output
/// column or a group key with its expression; the group count; a counter of its argument;
/// or a sum of its argument with a hidden counter of that same argument.
pub open spec fn keeps_target(spec: SpecModel, t: Target, is_aggregate: bool, refs: Seq<u32>) ->
    bool {
    if !is_aggregate || is_group_key(t, refs) {
        spec.columns.contains(OutputModel { expr: t.expr.sql@, alias: t.alias@ })
    } else if counts_rows(t, refs) {
        spec.count_alias == Some(t.alias@)
    } else if (t.aggregate->0).function@ == "count"@ {
        spec.counts.contains(
            OutputModel { expr: (t.aggregate->0).args@[0].sql@, alias: t.alias@ },
        )
    } else {
        exists|k: int|
            0 <= k < spec.sums.len() && (#[trigger] spec.sums[k]).expr == (
            t.aggregate->0).args@[0].sql@ && spec.sums[k].alias == t.alias@
                && spec.hidden_columns.contains(spec.sums[k].counter) && has_part(
                spec.populate_sql,
                "count("@ + spec.sums[k].expr + ") AS "@ + spec.sums[k].counter,
            )
    }
}

proof fn lemma_select_list_has(parts: Seq<Seq<char>>, item: Seq<char>)
    requires
        parts.contains(item),
    ensures
        has_part(joined(parts, ", "@), item),
{
    let k = choose|k: int| 0 <= k < parts.len() && parts[k] == item;
    lemma_part_of_joined(parts, ", "@, k);
}

/// What stands in a clause of the populate query stands in the query.
proof fn lemma_populate_has(
    select_list: Seq<char>,
    from: Seq<char>,
    filter: Seq<char>,
    group: Seq<char>,
    item: Seq<char>,
)
    requires
        has_part(select_list, item) || has_part(from, item) || has_part(filter, item) || has_part(
            group,
            item,
        ),
    ensures
        has_part("SELECT "@ + select_list + " FROM "@ + from + filter + group, item),
{
    let head = "SELECT "@ + select_list + " FROM "@;
    if has_part(select_list, item) {
        lemma_part_within("SELECT "@, select_list, " FROM "@, item);
        lemma_part_left(head, from, item);
        lemma_part_left(head + from, filter, item);
        lemma_part_left(head + from + filter, group, item);
    } else if has_part(from, item) {
        lemma_part_right(head, from, item);
        lemma_part_left(head + from, filter, item);
        lemma_part_left(head + from + filter, group, item);
    } else if has_part(filter, item) {
        lemma_part_right(head + from, filter, item);
        lemma_part_left(head + from + filter, group, item);
    } else {
        lemma_part_right(head + from + filter, group, item);
    }
}

/// Every output column of a definition is kept in its spec, as what it is, and is
/// selected by the populate query under its own name.
pub proof fn law_every_target_is_kept(
    q: Query,
    quoting: spec_fn(Seq<char>) -> Seq<char>,
    i: int,
)
    requires
        well_formed(q),
        validated(q, quoting) is Ok,
        0 <= i < q.targets@.len(),
        !q.targets@[i].resjunk,
    ensures
        ({
            let spec = (validated(q, quoting)->Ok_0).0;
            let t = q.targets@[i];
            let item = select_item(t, q.has_aggs, q.group_refs@, quoting(t.alias@));
            &&& keeps_target(spec, t, q.has_aggs, q.group_refs@)
            &&& spec.visible_columns.contains(t.alias@)
            &&& has_part(spec.select_list, item)
            &&& has_part(spec.populate_sql, item)
        }),
{
    let spec = (validated(q, quoting)->Ok_0).0;
    let t = q.targets@[i];
    let item = select_item(t, q.has_aggs, q.group_refs@, quoting(t.alias@));
    let indexes = collected(q.rtable@)->Ok_0;
    let order = quals_of(q.jointree)->Ok_0;
    let relations = base_relations(q.tables@, indexes, all_vars(q, order));
    let shape = shaped(q, indexes, relations, quoting)->Ok_0;
    let from = from_list(q, relations, quoting);
    let filter = clause(" WHERE "@, spec.predicate);
    let group = clause(" GROUP BY "@, spec.group_by);
    let n = q.targets@.len();
    lemma_visible_names_hold(q.targets@, n, t.alias@);
    if q.has_aggs {
        lemma_aggregates(q.targets@, q.group_refs@, quoting, n);
        let c = aggregate_columns(q.targets@, q.group_refs@, quoting, n)->Ok_0;
        assert(is_laid_out(c, t, q.group_refs@, quoting));
        assert(c.targets.contains(item));
        lemma_in_both(c.targets, c.hidden_targets, item);
        lemma_pushed(c.targets + c.hidden_targets, "count(*) AS "@ + HIDDEN_COUNT_COLUMN@);
        assert(shape.columns.targets.contains(item));
        if !is_group_key(t, q.group_refs@) && !counts_rows(t, q.group_refs@) && (
        t.aggregate->0).function@ != "count"@ {
            let arg = (t.aggregate->0).args@[0].sql@;
            let k = choose|k: int|
                0 <= k < c.sums.len() && (#[trigger] c.sums[k]).expr == arg && c.sums[k].alias
                    == t.alias@ && c.hidden_columns.contains(c.sums[k].counter)
                    && c.hidden_targets.contains("count("@ + arg + ") AS "@ + c.sums[k].counter);
            let counter = "count("@ + arg + ") AS "@ + c.sums[k].counter;
            lemma_in_both(c.targets, c.hidden_targets, counter);
            lemma_pushed(c.hidden_columns, HIDDEN_COUNT_COLUMN@);
            lemma_select_list_has(shape.columns.targets, counter);
            lemma_populate_has(spec.select_list, from, filter, group, counter);
            assert(spec.sums[k] == c.sums[k]);
        }
    } else {
        lemma_projections(q.targets@, quoting, n);
        let c = projection_columns(q.targets@, quoting, n)->Ok_0;
        lemma_in_both(c.targets, key_targets(relations, quoting, relations.len()), item);
        assert(shape.columns.targets.contains(item));
    }
    lemma_select_list_has(shape.columns.targets, item);
    lemma_populate_has(spec.select_list, from, filter, group, item);
}

proof fn lemma_visible_in_order(targets: Seq<Target>, n: nat)
    requires
        n <= targets.len(),
    ensures
        visible_names(targets, n) == targets.take(n as int).filter(
            |t: Target| !t.resjunk,
        ).map_values(|t: Target| t.alias@),
    decreases n,
{
    reveal(Seq::filter);
    let shown = |t: Target| !t.resjunk;
    let name = |t: Target| t.alias@;
    if n > 0 {
        lemma_visible_in_order(targets, (n - 1) as nat);
        assert(targets.take(n as int).drop_last() =~= targets.take(n - 1));
        let before = targets.take(n - 1).filter(shown);
        assert(before.push(targets[n - 1]).map_values(name) =~= before.map_values(name).push(
            targets[n - 1].alias@,
        ));
        assert(visible_names(targets, n) =~= targets.take(n as int).filter(shown).map_values(name));
    } else {
        assert(visible_names(targets, n) =~= targets.take(0).filter(shown).map_values(name));
    }
}

/// The visible columns of a view are the output columns of its definition, in their
/// order, and no others.
pub proof fn law_visible_columns_are_in_order(q: Query, quoting: spec_fn(Seq<char>) -> Seq<char>)
    requires
        well_formed(q),
        validated(q, quoting) is Ok,
    ensures
        (validated(q, quoting)->Ok_0).0.visible_columns == q.targets@.filter(
            |t: Target| !t.resjunk,
        ).map_values(|t: Target| t.alias@),
{
    lemma_visible_in_order(q.targets@, q.targets@.len());
    assert(q.targets@.take(q.targets@.len() as int) =~= q.targets@);
}

/// A view keeps the rows that every qual of its definition keeps: the predicate is the
/// qual, where there is one; where there are more, each of them stands in it in brackets
/// of its own, one after the other, with AND between them. The populate query is filtered
/// by it.
pub proof fn law_every_qual_is_kept(q: Query, quoting: spec_fn(Seq<char>) -> Seq<char>, k: usize)
    requires
        well_formed(q),
        validated(q, quoting) is Ok,
        stands_in(q.jointree, k),
    ensures
        ({
            let spec = (validated(q, quoting)->Ok_0).0;
            let order = quals_of(q.jointree)->Ok_0;
            &&& spec.predicate is Some
            &&& has_part(spec.populate_sql, " WHERE "@ + spec.predicate->0)
            &&& order.len() == 1 ==> spec.predicate->0 == q.quals@[k as int].sql@
            &&& order.len() > 1 ==> has_part(
                spec.predicate->0,
                "("@ + q.quals@[k as int].sql@ + ")"@,
            )
        }),
{
    let spec = (validated(q, quoting)->Ok_0).0;
    let indexes = collected(q.rtable@)->Ok_0;
    let order = quals_of(q.jointree)->Ok_0;
    let relations = base_relations(q.tables@, indexes, all_vars(q, order));
    law_every_qual_is_taken(q.jointree, k);
    let at = choose|at: int| 0 <= at < order.len() && order[at] == k;
    let parts = qual_texts(q.quals@, order);
    assert(parts[at] == q.quals@[k as int].sql@);
    if order.len() > 1 {
        let bracketed = parts.map_values(|p: Seq<char>| "("@ + p + ")"@);
        assert(bracketed[at] == "("@ + q.quals@[k as int].sql@ + ")"@);
        lemma_part_of_joined(bracketed, " AND "@, at);
    }
    lemma_part_of_itself(" WHERE "@ + spec.predicate->0);
    lemma_populate_has(
        spec.select_list,
        from_list(q, relations, quoting),
        clause(" WHERE "@, spec.predicate),
        clause(" GROUP BY "@, spec.group_by),
        " WHERE "@ + spec.predicate->0,
    );
}

/// A further qual is added behind the others with AND.
pub proof fn law_quals_are_conjoined(parts: Seq<Seq<char>>, first: Seq<char>, more: Seq<char>)
    ensures
        conjunction(Seq::empty()) is None,
        conjunction(seq![first]) == Some(first),
        conjunction(seq![first, more]) == Some("("@ + first + ") AND ("@ + more + ")"@),
        parts.len() > 1 ==> conjunction(parts.push(more)) == Some(
            conjunction(parts)->0 + " AND ("@ + more + ")"@,
        ),
{
    reveal_strlit("(");
    reveal_strlit(")");
    reveal_strlit(" AND ");
    reveal_strlit(") AND (");
    reveal_strlit(" AND (");
    let bracket = |p: Seq<char>| "("@ + p + ")"@;
    let two = seq![first, more].map_values(bracket);
    assert(two.drop_last() =~= seq![bracket(first)]);
    assert(two.drop_last().drop_last() =~= Seq::<Seq<char>>::empty());
    reveal_with_fuel(joined, 3);
    assert(joined(two, " AND "@) =~= "("@ + first + ") AND ("@ + more + ")"@);
    if parts.len() > 1 {
        let all = parts.push(more).map_values(bracket);
        assert(all.drop_last() =~= parts.map_values(bracket));
        assert(joined(all, " AND "@) =~= conjunction(parts)->0 + " AND ("@ + more + ")"@);
    }
}

/// Every table of the FROM list is a relation of the view, in its place, with the facts of
/// that table; and the populate query reads from each of them.
pub proof fn law_every_table_is_kept(q: Query, quoting: spec_fn(Seq<char>) -> Seq<char>, i: int)
    requires
        well_formed(q),
        validated(q, quoting) is Ok,
        0 <= i < q.tables@.len(),
        q.tables@.len() <= i32::MAX,
    ensures
        ({
            let spec = (validated(q, quoting)->Ok_0).0;
            let facts = (validated(q, quoting)->Ok_0).1;
            let t = q.tables@[i];
            let rel = spec.relations[i];
            &&& spec.relations.len() == q.tables@.len()
            &&& rel.oid == t.oid
            &&& rel.rti == i + 1
            &&& rel.qualified == t.qualified@
            &&& rel.alias == (if t.alias is Some {
                (t.alias->0)@
            } else {
                t.name@
            })
            &&& rel.pk_columns.len() == t.key@.len()
            &&& forall|k: int| 0 <= k < t.key@.len() ==> #[trigger] rel.pk_columns[k] == t.key@[k].name@
            &&& rel.columns.len() == t.columns@.len()
            &&& rel.column_types.len() == t.columns@.len()
            &&& forall|k: int|
                0 <= k < t.columns@.len() ==> #[trigger] rel.columns[k] == t.columns@[k].name@
            &&& forall|k: int|
                0 <= k < t.columns@.len() ==> #[trigger] rel.column_types[k] == t.columns@[k].ty@
            &&& q.tables@.len() == 1 ==> has_part(spec.populate_sql, " FROM "@ + t.qualified@)
            &&& q.tables@.len() > 1 ==> has_part(
                spec.populate_sql,
                t.qualified@ + " AS "@ + quoting(rel.alias),
            )
            &&& i == 0 ==> spec.base_table == t.qualified@ && spec.base_relname == t.name@
                && facts.oid == t.oid && facts.qualified == t.qualified@ && facts.replident
                == t.replident@ && facts.pk_columns == rel.pk_columns
        }),
{
    let spec = (validated(q, quoting)->Ok_0).0;
    let indexes = collected(q.rtable@)->Ok_0;
    let order = quals_of(q.jointree)->Ok_0;
    let relations = base_relations(q.tables@, indexes, all_vars(q, order));
    let t = q.tables@[i];
    let rel = spec.relations[i];
    let from = from_list(q, relations, quoting);
    let filter = clause(" WHERE "@, spec.predicate);
    let group = clause(" GROUP BY "@, spec.group_by);
    if q.tables@.len() > 1 {
        let items = relations.map_values(
            |r: BaseModel| r.qualified + " AS "@ + quoting(r.alias),
        );
        lemma_part_of_joined(items, ", "@, i);
        assert(items[i] == t.qualified@ + " AS "@ + quoting(rel.alias));
        lemma_populate_has(spec.select_list, from, filter, group, items[i]);
    } else {
        let item = " FROM "@ + t.qualified@;
        let head = "SELECT "@ + spec.select_list;
        lemma_part_of_itself(item);
        lemma_part_right(head, item, item);
        assert(head + item =~= head + " FROM "@ + from);
        lemma_part_left(head + " FROM "@ + from, filter, item);
        lemma_part_left(head + " FROM "@ + from + filter, group, item);
    }
}

/// A view reads from each relation the columns that its definition refers to, those of
/// the primary key in a join, and no others.
pub proof fn law_referred_columns_are_read(
    q: Query,
    quoting: spec_fn(Seq<char>) -> Seq<char>,
    r: int,
    p: int,
)
    requires
        well_formed(q),
        validated(q, quoting) is Ok,
        0 <= r < q.tables@.len(),
        0 <= p < q.tables@[r].columns@.len(),
    ensures
        ({
            let spec = (validated(q, quoting)->Ok_0).0;
            let t = q.tables@[r];
            let name = t.columns@[p].name@;
            let index = relation_indexes(q.rtable@, q.rtable@.len())[r];
            spec.relations[r].used_columns.contains(name) <==> (exists|a: int|
                0 <= a < t.attributes@.len() && (#[trigger] t.attributes@[a]).name@ == name
                    && is_referred_to(
                    q,
                    quals_of(q.jointree)->Ok_0,
                    index,
                    t.attributes@[a].attno,
                )) || (q.tables@.len() > 1 && exists|k: int|
                0 <= k < t.key@.len() && (#[trigger] t.key@[k]).name@ == name)
        }),
{
    let spec = (validated(q, quoting)->Ok_0).0;
    let t = q.tables@[r];
    let name = t.columns@[p].name@;
    let indexes = collected(q.rtable@)->Ok_0;
    let index = indexes[r];
    let order = quals_of(q.jointree)->Ok_0;
    let vars = all_vars(q, order);
    let is_join = q.tables@.len() > 1;
    let rel = spec.relations[r];
    let n = t.columns@.len();
    let at = used_positions(t, index, vars, is_join, n);
    lemma_used_positions(t, index, vars, is_join, n);
    lemma_only_used(t, index, vars, is_join, n);
    if rel.used_columns.contains(name) {
        let i = choose|i: int| 0 <= i < rel.used_columns.len() && rel.used_columns[i] == name;
        assert(uses(t, index, vars, is_join, t.columns@[at[i]].name@));
        assert(uses(t, index, vars, is_join, name));
    }
    if uses(t, index, vars, is_join, name) {
        let i = choose|i: int| 0 <= i < at.len() && at[i] == p;
        assert(rel.used_columns[i] == name);
    }
    if refers_to(vars, index, t.attributes@, name) {
        let v = choose|v: int|
            0 <= v < vars.len() && (#[trigger] vars[v]).0 == index && names_attribute(
                t.attributes@,
                vars[v].1,
                name,
            );
        let a = choose|a: int|
            0 <= a < t.attributes@.len() && (#[trigger] t.attributes@[a]).attno == vars[v].1
                && t.attributes@[a].name@ == name;
        lemma_all_vars(q, order, index, vars[v].1);
        assert(vars[v] == (index, vars[v].1));
        assert(vars.contains((index, vars[v].1)));
        assert(t.attributes@[a].name@ == name);
    }
    assert forall|a: int|
        0 <= a < t.attributes@.len() && (#[trigger] t.attributes@[a]).name@ == name
            && is_referred_to(q, order, index, t.attributes@[a].attno) implies refers_to(
        vars,
        index,
        t.attributes@,
        name,
    ) by {
        let attno = t.attributes@[a].attno;
        lemma_all_vars(q, order, index, attno);
        let v = choose|v: int| 0 <= v < vars.len() && vars[v] == (index, attno);
        assert(vars[v].0 == index && names_attribute(t.attributes@, vars[v].1, name));
    }
}

proof fn lemma_only_used(t: Table, index: i32, vars: Seq<(i32, i16)>, is_join: bool, n: nat)
    ensures
        forall|i: int|
            0 <= i < used_positions(t, index, vars, is_join, n).len() ==> uses(
                t,
                index,
                vars,
                is_join,
                t.columns@[#[trigger] used_positions(t, index, vars, is_join, n)[i]].name@,
            ),
    decreases n,
{
    if n > 0 {
        lemma_only_used(t, index, vars, is_join, (n - 1) as nat);
        let before = used_positions(t, index, vars, is_join, (n - 1) as nat);
        let after = used_positions(t, index, vars, is_join, n);
        assert forall|i: int| 0 <= i < after.len() implies uses(
            t,
            index,
            vars,
            is_join,
            t.columns@[#[trigger] after[i]].name@,
        ) by {
            if i < before.len() {
                assert(after[i] == before[i]);
            }
        }
    }
}

/// Only an aggregate is grouped, by the expression of every key that it selects.
pub proof fn law_groups_are_by_every_key(
    q: Query,
    quoting: spec_fn(Seq<char>) -> Seq<char>,
    i: int,
)
    requires
        well_formed(q),
        validated(q, quoting) is Ok,
        0 <= i < q.targets@.len(),
        !q.targets@[i].resjunk,
    ensures
        ({
            let spec = (validated(q, quoting)->Ok_0).0;
            let t = q.targets@[i];
            &&& spec.shape == (if q.has_aggs {
                Shape::Aggregate
            } else {
                Shape::Projection
            })
            &&& spec.group_by is Some <==> q.has_aggs
            &&& q.has_aggs ==> has_part(spec.populate_sql, " GROUP BY "@ + spec.group_by->0)
            &&& q.has_aggs && is_group_key(t, q.group_refs@) ==> has_part(
                spec.group_by->0,
                t.expr.sql@,
            )
        }),
{
    let spec = (validated(q, quoting)->Ok_0).0;
    let t = q.targets@[i];
    let indexes = collected(q.rtable@)->Ok_0;
    let order = quals_of(q.jointree)->Ok_0;
    let relations = base_relations(q.tables@, indexes, all_vars(q, order));
    let n = q.targets@.len();
    if q.has_aggs {
        lemma_aggregates(q.targets@, q.group_refs@, quoting, n);
        let c = aggregate_columns(q.targets@, q.group_refs@, quoting, n)->Ok_0;
        if is_group_key(t, q.group_refs@) {
            assert(is_laid_out(c, t, q.group_refs@, quoting));
            lemma_select_list_has(c.group_exprs, t.expr.sql@);
        }
        lemma_part_of_itself(" GROUP BY "@ + spec.group_by->0);
        lemma_populate_has(
            spec.select_list,
            from_list(q, relations, quoting),
            clause(" WHERE "@, spec.predicate),
            clause(" GROUP BY "@, spec.group_by),
            " GROUP BY "@ + spec.group_by->0,
        );
    } else {
        lemma_projections(q.targets@, quoting, n);
    }
}

/// A group is counted: by the definition's own count(*), or by a hidden one that is added
/// where it has none. A projection counts nothing.
pub proof fn law_groups_are_counted(q: Query, quoting: spec_fn(Seq<char>) -> Seq<char>)
    requires
        well_formed(q),
        validated(q, quoting) is Ok,
    ensures
        ({
            let spec = (validated(q, quoting)->Ok_0).0;
            let own = exists|i: int|
                0 <= i < q.targets@.len() && counts_rows(#[trigger] q.targets@[i], q.group_refs@);
            &&& spec.count_alias is Some <==> q.has_aggs
            &&& spec.hidden_count <==> q.has_aggs && !own
            &&& spec.hidden_count ==> spec.count_alias == Some("_nabla_n"@)
                && spec.hidden_columns.contains("_nabla_n"@) && has_part(
                spec.populate_sql,
                "count(*) AS _nabla_n"@,
            )
            &&& !q.has_aggs ==> spec.counts.len() == 0 && spec.sums.len() == 0
        }),
{
    let spec = (validated(q, quoting)->Ok_0).0;
    let indexes = collected(q.rtable@)->Ok_0;
    let order = quals_of(q.jointree)->Ok_0;
    let relations = base_relations(q.tables@, indexes, all_vars(q, order));
    let n = q.targets@.len();
    if q.has_aggs {
        lemma_aggregates(q.targets@, q.group_refs@, quoting, n);
        let c = aggregate_columns(q.targets@, q.group_refs@, quoting, n)->Ok_0;
        let shape = shaped(q, indexes, relations, quoting)->Ok_0;
        if spec.hidden_count {
            lemma_hidden_count_item();
            let item = "count(*) AS "@ + HIDDEN_COUNT_COLUMN@;
            lemma_pushed(c.hidden_columns, HIDDEN_COUNT_COLUMN@);
            lemma_pushed(c.targets + c.hidden_targets, item);
            lemma_select_list_has(shape.columns.targets, item);
            lemma_populate_has(
                spec.select_list,
                from_list(q, relations, quoting),
                clause(" WHERE "@, spec.predicate),
                clause(" GROUP BY "@, spec.group_by),
                item,
            );
        }
    } else {
        lemma_projection_counts_nothing(q.targets@, quoting, n);
    }
}

proof fn lemma_hidden_count_item()
    ensures
        "count(*) AS "@ + HIDDEN_COUNT_COLUMN@ == "count(*) AS _nabla_n"@,
{
    reveal_strlit("count(*) AS ");
    reveal_strlit("_nabla_n");
    reveal_strlit("count(*) AS _nabla_n");
    assert("count(*) AS "@ + HIDDEN_COUNT_COLUMN@ =~= "count(*) AS _nabla_n"@);
}

proof fn lemma_projection_counts_nothing(
    targets: Seq<Target>,
    quoting: spec_fn(Seq<char>) -> Seq<char>,
    n: nat,
)
    ensures
        projection_columns(targets, quoting, n) matches Ok(c) ==> c.count_alias is None
            && c.counts.len() == 0 && c.sums.len() == 0,
    decreases n,
{
    if n > 0 {
        lemma_projection_counts_nothing(targets, quoting, (n - 1) as nat);
    }
}

/// The name of the hidden key column of a relation in a join.
pub open spec fn hidden_name(position: nat, column: Seq<char>) -> Seq<char> {
    "_nabla_pk"@ + decimal(position) + "_"@ + column
}

proof fn lemma_keys_of_every_relation(
    relations: Seq<BaseModel>,
    quoting: spec_fn(Seq<char>) -> Seq<char>,
    n: nat,
    r: int,
    k: int,
)
    requires
        0 <= r < n <= relations.len(),
        0 <= k < relations[r].pk_columns.len(),
    ensures
        hidden_keys(relations, n).contains(
            hidden_name(relations[r].rti as nat, relations[r].pk_columns[k]),
        ),
        key_targets(relations, quoting, n).contains(
            quoting(relations[r].alias) + "."@ + quoting(relations[r].pk_columns[k]) + " AS "@
                + quoting(hidden_name(relations[r].rti as nat, relations[r].pk_columns[k])),
        ),
    decreases n,
{
    let rel = relations[r];
    let name = hidden_name(rel.rti as nat, rel.pk_columns[k]);
    let item = quoting(rel.alias) + "."@ + quoting(rel.pk_columns[k]) + " AS "@ + quoting(name);
    let m = (n - 1) as nat;
    lemma_in_both(hidden_keys(relations, m), hidden_keys_of(relations[n - 1]), name);
    lemma_in_both(
        key_targets(relations, quoting, m),
        key_targets_of(relations[n - 1], quoting),
        item,
    );
    if r < n - 1 {
        lemma_keys_of_every_relation(relations, quoting, m, r, k);
    } else {
        assert(hidden_keys_of(rel)[k] == name);
        assert(key_targets_of(rel, quoting)[k] == item);
    }
}

/// The rows of a projection are told apart by the whole primary key: that of the table, by
/// the columns that it is selected as; that of every relation of a join, by hidden columns
/// that the populate query fills from it.
pub proof fn law_rows_are_told_apart_by_the_whole_key(
    q: Query,
    quoting: spec_fn(Seq<char>) -> Seq<char>,
    r: int,
    k: int,
)
    requires
        well_formed(q),
        validated(q, quoting) is Ok,
        !q.has_aggs,
        0 <= r < q.tables@.len() <= i32::MAX,
        0 <= k < q.tables@[r].key@.len(),
    ensures
        ({
            let spec = (validated(q, quoting)->Ok_0).0;
            let t = q.tables@[r];
            let rel = spec.relations[r];
            let index = relation_indexes(q.rtable@, q.rtable@.len())[r];
            if q.tables@.len() > 1 {
                let name = hidden_name((r + 1) as nat, t.key@[k].name@);
                &&& spec.pk_view_columns.contains(name)
                &&& spec.hidden_columns.contains(name)
                &&& has_part(
                    spec.populate_sql,
                    quoting(rel.alias) + "."@ + quoting(t.key@[k].name@) + " AS "@ + quoting(name),
                )
            } else {
                &&& spec.pk_columns.len() == t.key@.len()
                &&& spec.pk_view_columns.len() == t.key@.len()
                &&& spec.pk_columns[k] == t.key@[k].name@
                &&& names_key(q.targets@, index, t.key@[k].attno, spec.pk_view_columns[k])
            }
        }),
{
    let spec = (validated(q, quoting)->Ok_0).0;
    let t = q.tables@[r];
    let indexes = collected(q.rtable@)->Ok_0;
    let order = quals_of(q.jointree)->Ok_0;
    let relations = base_relations(q.tables@, indexes, all_vars(q, order));
    let c = projection_columns(q.targets@, quoting, q.targets@.len())->Ok_0;
    if q.tables@.len() > 1 {
        let name = hidden_name((r + 1) as nat, t.key@[k].name@);
        let item = quoting(relations[r].alias) + "."@ + quoting(t.key@[k].name@) + " AS "@ + quoting(
            name,
        );
        lemma_keys_of_every_relation(relations, quoting, relations.len(), r, k);
        let keys = key_targets(relations, quoting, relations.len());
        lemma_in_both(c.targets, keys, item);
        lemma_select_list_has(c.targets + keys, item);
        lemma_populate_has(
            spec.select_list,
            from_list(q, relations, quoting),
            clause(" WHERE "@, spec.predicate),
            clause(" GROUP BY "@, spec.group_by),
            item,
        );
    } else {
        lemma_missing_keys(q, indexes[0], t.key@.len());
    }
}

proof fn lemma_quals_place(
    quals: Seq<Expression>,
    order: Seq<usize>,
    is_join: bool,
    allowed: Seq<i32>,
    n: nat,
)
    requires
        quals_error(quals, order, is_join, allowed, n) is Some,
        forall|k: int|
            0 <= k < n ==> foreign_error(quals[#[trigger] order[k] as int], allowed) is None,
    ensures
        has_part(quals_error(quals, order, is_join, allowed, n)->0, qual_place(is_join)),
    decreases n,
{
    if n > 0 {
        if quals_error(quals, order, is_join, allowed, (n - 1) as nat) is Some {
            lemma_quals_place(quals, order, is_join, allowed, (n - 1) as nat);
        } else {
            assert(foreign_error(quals[order[n - 1] as int], allowed) is None);
            crate::query::law_refused_expressions_name_what_they_use(
                quals[order[n - 1] as int],
                qual_place(is_join),
            );
        }
    }
}

/// A condition that is refused for what it uses is looked for in the WHERE clause, and in a join
/// in the ON clauses too: the reason says so.
pub proof fn law_refused_conditions_say_where_they_stand(
    quals: Seq<Expression>,
    order: Seq<usize>,
    is_join: bool,
    allowed: Seq<i32>,
)
    requires
        quals_error(quals, order, is_join, allowed, order.len()) is Some,
        forall|k: int|
            0 <= k < order.len() ==> foreign_error(quals[#[trigger] order[k] as int], allowed)
                is None,
    ensures
        has_part(
            quals_error(quals, order, is_join, allowed, order.len())->0,
            if is_join {
                "the WHERE or ON clause"@
            } else {
                "the WHERE clause"@
            },
        ),
{
    lemma_quals_place(quals, order, is_join, allowed, order.len());
}

} // verus!
