//! Analyzed queries: the clauses a definition uses, its range table with the
//! catalog facts of each base table, its join tree, its quals and its targets,
//! each expression with its tree and its SQL text. The checks here know nothing
//! of the two view shapes; they reject what neither of them can have.
use vstd::prelude::*;

use crate::errors;
use crate::errors::{Report, ReportModel};
use crate::shadow;
use crate::text;
use crate::text::{decimal, view_of_option};

verus! {

// --- the analyzed query --------------------------------------------------------

/// A function called in an expression, with its volatility code.
pub struct Function {
    pub name: String,
    pub volatility: u8,
}

/// The volatility code of an IMMUTABLE function.
pub const IMMUTABLE: u8 = 105;

/// An expression tree. `Call` stands for function and operator calls, without
/// a function where the call names none; its arguments and the children of
/// other nodes stand in walking order.
pub enum Node {
    Var { varno: i32, attno: i16, levels_up: u32 },
    Call { function: Option<Function>, args: Vec<Node> },
    SqlValue,
    NextValue,
    Other { children: Vec<Node> },
}

/// An expression: its tree, whether the server finds a function in it that is
/// not IMMUTABLE, and its SQL text.
pub struct Expression {
    pub tree: Node,
    pub mutable: bool,
    pub sql: String,
}

/// An aggregate call.
pub struct Aggregate {
    pub function: String,
    /// Whether the function is one of the server's own.
    pub builtin: bool,
    /// The aggregate kind code; ordinary aggregates have `NORMAL_AGGREGATE`.
    pub kind: u8,
    pub direct_args: bool,
    pub distinct: bool,
    pub filter: bool,
    pub order: bool,
    pub star: bool,
    pub args: Vec<Expression>,
}

/// The kind code of an ordinary aggregate.
pub const NORMAL_AGGREGATE: u8 = 110;

/// One entry of the select list. `aggregate` is there when the whole entry is
/// an aggregate call; `contains_aggregate` when one stands anywhere in it.
pub struct Target {
    pub expr: Expression,
    pub alias: String,
    pub sortgroupref: u32,
    pub resjunk: bool,
    pub aggregate: Option<Aggregate>,
    pub contains_aggregate: bool,
}

/// The clauses a statement uses.
pub struct Clauses {
    pub select: bool,
    pub set_operations: bool,
    pub ctes: bool,
    pub sublinks: bool,
    pub window_functions: bool,
    pub target_srfs: bool,
    pub distinct_on: bool,
    pub distinct: bool,
    pub order_by: bool,
    pub limit: bool,
    pub offset: bool,
    pub having: bool,
    pub grouping_sets: bool,
    pub for_update: bool,
    pub row_marks: bool,
}

#[derive(Clone, Copy, Debug, PartialEq, Eq, Structural)]
pub enum RangeKind {
    Relation,
    Join,
    Subquery,
    Function,
    TableFunction,
    Values,
    Cte,
    Other,
}

/// An entry of the range table.
pub struct RangeEntry {
    pub kind: RangeKind,
    pub lateral: bool,
}

#[derive(Clone, Copy, Debug, PartialEq, Eq, Structural)]
pub enum JoinKind {
    Inner,
    Left,
    Right,
    Full,
    Semi,
    Anti,
    RightAnti,
    Other,
}

/// The join tree. A qual is given by its position among the query's quals.
pub enum JoinNode {
    From { items: Vec<JoinNode>, qual: Option<usize> },
    Join { kind: JoinKind, left: Box<JoinNode>, right: Box<JoinNode>, qual: Option<usize> },
    Other,
}

/// A column of a base table with its type (`format_type` text).
pub struct TableColumn {
    pub name: String,
    pub ty: String,
}

/// A column by its attribute number.
pub struct Attribute {
    pub attno: i16,
    pub name: String,
}

/// Catalog facts of a table in the range table.
pub struct Table {
    pub oid: u32,
    /// The relation kind code.
    pub kind: u8,
    pub schema: String,
    pub name: String,
    /// Quoted, schema-qualified name.
    pub qualified: String,
    /// The alias the definition gave it.
    pub alias: Option<String>,
    /// Whether a nabla view is bound to this relation.
    pub bound_to_view: bool,
    /// Whether the name of a nabla view resolves to this relation.
    pub named_like_view: bool,
    pub has_children: bool,
    pub replident: String,
    /// The live columns in attribute order.
    pub columns: Vec<TableColumn>,
    /// The columns of the primary key in key order.
    pub key: Vec<Attribute>,
    /// The names of the attributes.
    pub attributes: Vec<Attribute>,
}

/// An analyzed definition.
pub struct Query {
    pub clauses: Clauses,
    pub rtable: Vec<RangeEntry>,
    /// One for each entry of `rtable` that is a relation, in its order.
    pub tables: Vec<Table>,
    pub jointree: JoinNode,
    pub quals: Vec<Expression>,
    pub targets: Vec<Target>,
    pub group_refs: Vec<u32>,
    pub has_aggs: bool,
}

/// Whether a check came out as `reason` says: the reason is what it rejects with.
pub open spec fn checks(result: Result<(), String>, reason: Option<Seq<char>>) -> bool {
    match result {
        Ok(()) => reason is None,
        Err(e) => reason == Some(e@),
    }
}

// --- the definition as a statement ---------------------------------------------

/// The definition cannot hold a NUL byte.
pub fn check_source(definition: &str) -> (result: Result<(), Report>)
    ensures
        match result {
            Ok(()) => !definition@.contains('\0'),
            Err(report) => definition@.contains('\0') && report@ == (ReportModel {
                code: errors::ErrorCode::InvalidParameterValue,
                message: "nabla: the definition contains a NUL byte"@,
                hint: None,
            }),
        },
{
    let chars = text::chars_of(definition);
    match text::find_char(&chars, 0, chars.len(), '\0') {
        Some(i) => {
            assert(definition@[i as int] == '\0');
            Err(errors::invalid("nabla: the definition contains a NUL byte".to_string(), None))
        },
        None => Ok(()),
    }
}

pub open spec fn statement_count_error(n: nat) -> Option<Seq<char>> {
    if n == 0 {
        Some("the definition is empty"@)
    } else if n == 1 {
        None
    } else {
        Some("the definition must be exactly one SELECT statement, found "@ + decimal(n))
    }
}

/// The definition is one statement.
pub fn check_statement_count(n: usize) -> (result: Result<(), String>)
    ensures
        checks(result, statement_count_error(n as nat)),
{
    if n == 0 {
        Err("the definition is empty".to_string())
    } else if n == 1 {
        Ok(())
    } else {
        Err(
            "the definition must be exactly one SELECT statement, found ".to_string().concat(
                &text::decimal_text(n as u64),
            ),
        )
    }
}

/// The first clause of a statement that no view can have.
pub open spec fn clauses_error(c: Clauses) -> Option<Seq<char>> {
    if !c.select {
        Some("only SELECT statements are supported"@)
    } else if c.set_operations {
        Some("UNION, INTERSECT and EXCEPT are not supported"@)
    } else if c.ctes {
        Some("common table expressions (WITH) are not supported"@)
    } else if c.sublinks {
        Some("subqueries are not supported"@)
    } else if c.window_functions {
        Some("window functions are not supported"@)
    } else if c.target_srfs {
        Some("set-returning functions are not supported"@)
    } else if c.distinct_on || c.distinct {
        Some("DISTINCT is not supported"@)
    } else if c.order_by {
        Some("ORDER BY is not supported"@)
    } else if c.limit || c.offset {
        Some("LIMIT and OFFSET are not supported"@)
    } else if c.having {
        Some("HAVING is not supported"@)
    } else if c.grouping_sets {
        Some("GROUPING SETS, CUBE and ROLLUP are not supported"@)
    } else if c.for_update || c.row_marks {
        Some("FOR UPDATE and FOR SHARE are not supported"@)
    } else {
        None
    }
}

pub fn reject_unsupported_clauses(c: &Clauses) -> (result: Result<(), String>)
    ensures
        checks(result, clauses_error(*c)),
{
    if !c.select {
        Err("only SELECT statements are supported".to_string())
    } else if c.set_operations {
        Err("UNION, INTERSECT and EXCEPT are not supported".to_string())
    } else if c.ctes {
        Err("common table expressions (WITH) are not supported".to_string())
    } else if c.sublinks {
        Err("subqueries are not supported".to_string())
    } else if c.window_functions {
        Err("window functions are not supported".to_string())
    } else if c.target_srfs {
        Err("set-returning functions are not supported".to_string())
    } else if c.distinct_on || c.distinct {
        Err("DISTINCT is not supported".to_string())
    } else if c.order_by {
        Err("ORDER BY is not supported".to_string())
    } else if c.limit || c.offset {
        Err("LIMIT and OFFSET are not supported".to_string())
    } else if c.having {
        Err("HAVING is not supported".to_string())
    } else if c.grouping_sets {
        Err("GROUPING SETS, CUBE and ROLLUP are not supported".to_string())
    } else if c.for_update || c.row_marks {
        Err("FOR UPDATE and FOR SHARE are not supported".to_string())
    } else {
        Ok(())
    }
}

// --- range table ---------------------------------------------------------------

/// Why a range table entry cannot be part of a view.
pub open spec fn entry_error(entry: RangeEntry) -> Option<Seq<char>> {
    if entry.lateral {
        Some("LATERAL is not supported"@)
    } else {
        match entry.kind {
            RangeKind::Relation => None,
            RangeKind::Join => None,
            RangeKind::Subquery => Some("subqueries in FROM are not supported"@),
            RangeKind::Function => Some("set-returning functions are not supported"@),
            RangeKind::TableFunction => Some("set-returning functions are not supported"@),
            RangeKind::Values => Some("VALUES lists are not supported"@),
            RangeKind::Cte => Some("common table expressions (WITH) are not supported"@),
            RangeKind::Other => Some(
                "a FROM clause with one or more ordinary tables is required"@,
            ),
        }
    }
}

fn check_entry(entry: &RangeEntry) -> (result: Result<(), String>)
    ensures
        checks(result, entry_error(*entry)),
{
    if entry.lateral {
        return Err("LATERAL is not supported".to_string());
    }
    match entry.kind {
        RangeKind::Relation => Ok(()),
        RangeKind::Join => Ok(()),
        RangeKind::Subquery => Err("subqueries in FROM are not supported".to_string()),
        RangeKind::Function => Err("set-returning functions are not supported".to_string()),
        RangeKind::TableFunction => Err("set-returning functions are not supported".to_string()),
        RangeKind::Values => Err("VALUES lists are not supported".to_string()),
        RangeKind::Cte => Err("common table expressions (WITH) are not supported".to_string()),
        RangeKind::Other => Err(
            "a FROM clause with one or more ordinary tables is required".to_string(),
        ),
    }
}

/// The 1-based range table positions (what columns use as their relation
/// number) of the relations among the first `n` entries.
pub open spec fn relation_indexes(rtable: Seq<RangeEntry>, n: nat) -> Seq<i32>
    decreases n,
{
    if n == 0 || n > rtable.len() {
        Seq::empty()
    } else if rtable[n - 1].kind == RangeKind::Relation {
        relation_indexes(rtable, (n - 1) as nat).push(n as i32)
    } else {
        relation_indexes(rtable, (n - 1) as nat)
    }
}

/// The error of the first entry that has one.
pub open spec fn first_entry_error(rtable: Seq<RangeEntry>, n: nat) -> Option<Seq<char>>
    decreases n,
{
    if n == 0 || n > rtable.len() {
        None
    } else {
        match first_entry_error(rtable, (n - 1) as nat) {
            Some(reason) => Some(reason),
            None => entry_error(rtable[n - 1]),
        }
    }
}

/// The base relations of the query, after rejecting every other kind of
/// range table entry. Join entries (from explicit JOIN syntax) are allowed.
pub open spec fn collected(rtable: Seq<RangeEntry>) -> Result<Seq<i32>, Seq<char>> {
    match first_entry_error(rtable, rtable.len()) {
        Some(reason) => Err(reason),
        None => {
            let indexes = relation_indexes(rtable, rtable.len());
            if indexes.len() == 0 {
                Err("a FROM clause with one or more ordinary tables is required"@)
            } else {
                Ok(indexes)
            }
        },
    }
}

proof fn lemma_entry_error_stays(rtable: Seq<RangeEntry>, n: nat, m: nat)
    requires
        n <= m <= rtable.len(),
        first_entry_error(rtable, n) is Some,
    ensures
        first_entry_error(rtable, m) == first_entry_error(rtable, n),
    decreases m - n,
{
    if n < m {
        lemma_entry_error_stays(rtable, n, (m - 1) as nat);
    }
}

pub fn collect_relations(rtable: &Vec<RangeEntry>) -> (result: Result<Vec<i32>, String>)
    requires
        rtable@.len() < i32::MAX,
    ensures
        match result {
            Ok(indexes) => collected(rtable@) == Ok::<Seq<i32>, Seq<char>>(indexes@),
            Err(e) => collected(rtable@) == Err::<Seq<i32>, Seq<char>>(e@),
        },
{
    let mut relations: Vec<i32> = Vec::new();
    let mut i: usize = 0;
    while i < rtable.len()
        invariant
            i <= rtable@.len() < i32::MAX,
            relations@ == relation_indexes(rtable@, i as nat),
            first_entry_error(rtable@, i as nat) is None,
        decreases rtable@.len() - i,
    {
        match check_entry(&rtable[i]) {
            Ok(()) => {},
            Err(reason) => {
                proof {
                    lemma_entry_error_stays(rtable@, (i + 1) as nat, rtable@.len());
                }
                return Err(reason);
            },
        }
        i = i + 1;
        if rtable[i - 1].kind == RangeKind::Relation {
            relations.push(i as i32);
        }
    }
    if relations.len() == 0 {
        return Err("a FROM clause with one or more ordinary tables is required".to_string());
    }
    Ok(relations)
}

// --- join tree -----------------------------------------------------------------

pub open spec fn join_error(kind: JoinKind) -> Option<Seq<char>> {
    match kind {
        JoinKind::Inner => None,
        JoinKind::Left => Some("LEFT JOIN"@ + " is not supported; only inner joins are"@),
        JoinKind::Right => Some("RIGHT JOIN"@ + " is not supported; only inner joins are"@),
        JoinKind::Full => Some("FULL JOIN"@ + " is not supported; only inner joins are"@),
        JoinKind::Semi => Some("SEMI JOIN"@ + " is not supported; only inner joins are"@),
        JoinKind::Anti => Some("ANTI JOIN"@ + " is not supported; only inner joins are"@),
        JoinKind::RightAnti => Some("ANTI JOIN"@ + " is not supported; only inner joins are"@),
        JoinKind::Other => Some("this join type"@ + " is not supported; only inner joins are"@),
    }
}

fn check_join(kind: JoinKind) -> (result: Result<(), String>)
    ensures
        checks(result, join_error(kind)),
{
    let name = match kind {
        JoinKind::Inner => return Ok(()),
        JoinKind::Left => "LEFT JOIN",
        JoinKind::Right => "RIGHT JOIN",
        JoinKind::Full => "FULL JOIN",
        JoinKind::Semi => "SEMI JOIN",
        JoinKind::Anti => "ANTI JOIN",
        JoinKind::RightAnti => "ANTI JOIN",
        JoinKind::Other => "this join type",
    };
    Err(name.to_string().concat(" is not supported; only inner joins are"))
}

pub open spec fn with_qual(quals: Seq<usize>, qual: Option<usize>) -> Seq<usize> {
    match qual {
        Some(q) => quals.push(q),
        None => quals,
    }
}

/// The quals of a join tree, in the order of a walk that meets a node's quals
/// behind those of its parts. A join that is not an inner join stops the walk.
/// With only inner joins, cross product plus the conjunction of all quals is
/// equivalent to the original nesting.
pub open spec fn quals_of(node: JoinNode) -> Result<Seq<usize>, Seq<char>>
    decreases node, 0nat,
{
    match node {
        JoinNode::From { items, qual } => match quals_among(items, items@.len()) {
            Ok(quals) => Ok(with_qual(quals, qual)),
            Err(reason) => Err(reason),
        },
        JoinNode::Join { kind, left, right, qual } => match join_error(kind) {
            Some(reason) => Err(reason),
            None => match quals_of(*left) {
                Ok(l) => match quals_of(*right) {
                    Ok(r) => Ok(with_qual(l + r, qual)),
                    Err(reason) => Err(reason),
                },
                Err(reason) => Err(reason),
            },
        },
        JoinNode::Other => Ok(Seq::empty()),
    }
}

/// The quals of the first `n` items of a FROM list.
pub open spec fn quals_among(items: Vec<JoinNode>, n: nat) -> Result<Seq<usize>, Seq<char>>
    decreases items, n,
{
    if n == 0 || n > items@.len() {
        Ok(Seq::empty())
    } else {
        match quals_among(items, (n - 1) as nat) {
            Ok(quals) => match quals_of(items@[n - 1]) {
                Ok(more) => Ok(quals + more),
                Err(reason) => Err(reason),
            },
            Err(reason) => Err(reason),
        }
    }
}

proof fn lemma_quals_error_stays(items: Vec<JoinNode>, n: nat, m: nat)
    requires
        n <= m <= items@.len(),
        quals_among(items, n) is Err,
    ensures
        quals_among(items, m) == quals_among(items, n),
    decreases m - n,
{
    if n < m {
        lemma_quals_error_stays(items, n, (m - 1) as nat);
    }
}

/// Walk the join tree: reject anything but inner joins and collect every
/// ON and WHERE qual behind those in `out`.
pub fn collect_quals(node: &JoinNode, out: &mut Vec<usize>) -> (result: Result<(), String>)
    ensures
        match result {
            Ok(()) => quals_of(*node) is Ok && final(out)@ == old(out)@ + quals_of(*node)->Ok_0,
            Err(e) => quals_of(*node) == Err::<Seq<usize>, Seq<char>>(e@),
        },
    decreases node,
{
    match node {
        JoinNode::From { items, qual } => {
            let ghost start = out@;
            let mut i: usize = 0;
            while i < items.len()
                invariant
                    node matches JoinNode::From { items: its, qual: q } && its == items && q
                        == qual,
                    i <= items@.len(),
                    quals_among(*items, i as nat) is Ok,
                    out@ =~= start + quals_among(*items, i as nat)->Ok_0,
                decreases items@.len() - i,
            {
                match collect_quals(&items[i], out) {
                    Ok(()) => {},
                    Err(reason) => {
                        proof {
                            lemma_quals_error_stays(*items, (i + 1) as nat, items@.len());
                        }
                        return Err(reason);
                    },
                }
                i = i + 1;
            }
            if let Some(q) = qual {
                out.push(*q);
            }
            assert(out@ =~= start + quals_of(*node)->Ok_0);
            Ok(())
        },
        JoinNode::Join { kind, left, right, qual } => {
            let ghost start = out@;
            match check_join(*kind) {
                Ok(()) => {},
                Err(reason) => return Err(reason),
            }
            match collect_quals(left, out) {
                Ok(()) => {},
                Err(reason) => return Err(reason),
            }
            match collect_quals(right, out) {
                Ok(()) => {},
                Err(reason) => return Err(reason),
            }
            if let Some(q) = qual {
                out.push(*q);
            }
            assert(out@ =~= start + quals_of(*node)->Ok_0);
            Ok(())
        },
        JoinNode::Other => {
            assert(out@ =~= out@ + Seq::empty());
            Ok(())
        },
    }
}

// --- expressions ---------------------------------------------------------------

/// The name of the first thing in a tree that is not IMMUTABLE, in walking order.
pub open spec fn mutable_in(node: Node) -> Option<Seq<char>>
    decreases node, 0nat,
{
    match node {
        Node::Var { .. } => None,
        Node::Call { function, args } => {
            if function is Some && function->0.volatility != IMMUTABLE {
                Some(function->0.name@)
            } else {
                mutable_among(args, args@.len())
            }
        },
        Node::SqlValue => Some("current_date/current_time/current_user or similar"@),
        Node::NextValue => Some("nextval"@),
        Node::Other { children } => mutable_among(children, children@.len()),
    }
}

/// The same over the first `n` trees of a list.
pub open spec fn mutable_among(nodes: Vec<Node>, n: nat) -> Option<Seq<char>>
    decreases nodes, n,
{
    if n == 0 || n > nodes@.len() {
        None
    } else {
        match mutable_among(nodes, (n - 1) as nat) {
            Some(name) => Some(name),
            None => mutable_in(nodes@[n - 1]),
        }
    }
}

proof fn lemma_mutable_stays(nodes: Vec<Node>, n: nat, m: nat)
    requires
        n <= m <= nodes@.len(),
        mutable_among(nodes, n) is Some,
    ensures
        mutable_among(nodes, m) == mutable_among(nodes, n),
    decreases m - n,
{
    if n < m {
        lemma_mutable_stays(nodes, n, (m - 1) as nat);
    }
}

/// Stop at the first non-IMMUTABLE function.
fn find_mutable(node: &Node) -> (result: Option<String>)
    ensures
        view_of_option(result) == mutable_in(*node),
    decreases node,
{
    let children = match node {
        Node::Var { .. } => return None,
        Node::SqlValue => return Some(
            "current_date/current_time/current_user or similar".to_string(),
        ),
        Node::NextValue => return Some("nextval".to_string()),
        Node::Call { function, args } => {
            if let Some(f) = function {
                if f.volatility != IMMUTABLE {
                    return Some(f.name.clone());
                }
            }
            args
        },
        Node::Other { children } => children,
    };
    let mut i: usize = 0;
    while i < children.len()
        invariant
            decreases_to!(node => children),
            mutable_in(*node) == mutable_among(*children, children@.len()),
            i <= children@.len(),
            mutable_among(*children, i as nat) is None,
        decreases children@.len() - i,
    {
        if let Some(name) = find_mutable(&children[i]) {
            proof {
                lemma_mutable_stays(*children, (i + 1) as nat, children@.len());
            }
            return Some(name);
        }
        i = i + 1;
    }
    None
}

/// Why an expression is not a pure function of the base tables' rows.
pub open spec fn mutable_error(expr: Expression, place: Seq<char>) -> Option<Seq<char>> {
    if !expr.mutable {
        None
    } else {
        match mutable_in(expr.tree) {
            Some(name) => Some(
                place + " uses \""@ + name
                    + "\", which is not IMMUTABLE; the view must be a pure function of the base table"@,
            ),
            None => Some(place + " uses a function that is not IMMUTABLE"@),
        }
    }
}

/// Reject when `expr` uses anything that is not IMMUTABLE: the view must be a
/// pure function of the base tables' rows.
pub fn require_immutable(expr: &Expression, place: &str) -> (result: Result<(), String>)
    ensures
        checks(result, mutable_error(*expr, place@)),
{
    if !expr.mutable {
        return Ok(());
    }
    match find_mutable(&expr.tree) {
        Some(name) => Err(
            place.to_string().concat(" uses \"").concat(&name).concat(
                "\", which is not IMMUTABLE; the view must be a pure function of the base table",
            ),
        ),
        None => Err(place.to_string().concat(" uses a function that is not IMMUTABLE")),
    }
}

/// The columns a tree refers to at the level of the query, each as its range
/// table position and attribute number, in walking order.
pub open spec fn vars_of(node: Node) -> Seq<(i32, i16)>
    decreases node, 0nat,
{
    match node {
        Node::Var { varno, attno, levels_up } => if levels_up == 0 {
            seq![(varno, attno)]
        } else {
            Seq::empty()
        },
        Node::Call { function, args } => vars_among(args, args@.len()),
        Node::SqlValue => Seq::empty(),
        Node::NextValue => Seq::empty(),
        Node::Other { children } => vars_among(children, children@.len()),
    }
}

pub open spec fn vars_among(nodes: Vec<Node>, n: nat) -> Seq<(i32, i16)>
    decreases nodes, n,
{
    if n == 0 || n > nodes@.len() {
        Seq::empty()
    } else {
        vars_among(nodes, (n - 1) as nat) + vars_of(nodes@[n - 1])
    }
}

/// Every (varno, attno) referenced by `node`, behind those in `out`.
pub fn referenced_vars(node: &Node, out: &mut Vec<(i32, i16)>)
    ensures
        final(out)@ == old(out)@ + vars_of(*node),
    decreases node,
{
    let ghost start = out@;
    let children = match node {
        Node::Var { varno, attno, levels_up } => {
            if *levels_up == 0 {
                out.push((*varno, *attno));
            }
            assert(out@ =~= start + vars_of(*node));
            return;
        },
        Node::SqlValue | Node::NextValue => {
            assert(out@ =~= start + vars_of(*node));
            return;
        },
        Node::Call { function: _, args } => args,
        Node::Other { children } => children,
    };
    assert(out@ =~= start + vars_among(*children, 0));
    let mut i: usize = 0;
    while i < children.len()
        invariant
            decreases_to!(node => children),
            vars_of(*node) == vars_among(*children, children@.len()),
            i <= children@.len(),
            out@ == start + vars_among(*children, i as nat),
        decreases children@.len() - i,
    {
        referenced_vars(&children[i], out);
        i = i + 1;
        assert(out@ =~= start + vars_among(*children, i as nat));
    }
}

/// Whether a tree refers to a column of anything but the allowed relations of
/// the query itself.
pub open spec fn foreign_in(node: Node, allowed: Seq<i32>) -> bool
    decreases node, 0nat,
{
    match node {
        Node::Var { varno, attno, levels_up } => levels_up != 0 || !allowed.contains(varno),
        Node::Call { function, args } => foreign_among(args, args@.len(), allowed),
        Node::SqlValue => false,
        Node::NextValue => false,
        Node::Other { children } => foreign_among(children, children@.len(), allowed),
    }
}

pub open spec fn foreign_among(nodes: Vec<Node>, n: nat, allowed: Seq<i32>) -> bool
    decreases nodes, n,
{
    if n == 0 || n > nodes@.len() {
        false
    } else {
        foreign_among(nodes, (n - 1) as nat, allowed) || foreign_in(nodes@[n - 1], allowed)
    }
}

proof fn lemma_foreign_stays(nodes: Vec<Node>, n: nat, m: nat, allowed: Seq<i32>)
    requires
        n <= m <= nodes@.len(),
        foreign_among(nodes, n, allowed),
    ensures
        foreign_among(nodes, m, allowed),
    decreases m - n,
{
    if n < m {
        lemma_foreign_stays(nodes, n, (m - 1) as nat, allowed);
    }
}

pub fn contains_number(numbers: &Vec<i32>, n: i32) -> (result: bool)
    ensures
        result == numbers@.contains(n),
{
    let mut i: usize = 0;
    while i < numbers.len()
        invariant
            i <= numbers@.len(),
            forall|j: int| 0 <= j < i ==> numbers@[j] != n,
        decreases numbers@.len() - i,
    {
        if numbers[i] == n {
            return true;
        }
        i = i + 1;
    }
    false
}

/// Every column must belong to a base relation of the current query level.
fn find_foreign_var(node: &Node, allowed: &Vec<i32>) -> (result: bool)
    ensures
        result == foreign_in(*node, allowed@),
    decreases node,
{
    let children = match node {
        Node::Var { varno, attno: _, levels_up } => {
            return *levels_up != 0 || !contains_number(allowed, *varno);
        },
        Node::SqlValue | Node::NextValue => return false,
        Node::Call { function: _, args } => args,
        Node::Other { children } => children,
    };
    let mut i: usize = 0;
    while i < children.len()
        invariant
            decreases_to!(node => children),
            foreign_in(*node, allowed@) == foreign_among(*children, children@.len(), allowed@),
            i <= children@.len(),
            !foreign_among(*children, i as nat, allowed@),
        decreases children@.len() - i,
    {
        if find_foreign_var(&children[i], allowed) {
            proof {
                lemma_foreign_stays(*children, (i + 1) as nat, children@.len(), allowed@);
            }
            return true;
        }
        i = i + 1;
    }
    false
}

pub open spec fn foreign_error(expr: Expression, allowed: Seq<i32>) -> Option<Seq<char>> {
    if foreign_in(expr.tree, allowed) {
        Some("a column reference could not be resolved to one of the joined tables"@)
    } else {
        None
    }
}

pub fn require_base_vars(expr: &Expression, allowed: &Vec<i32>) -> (result: Result<(), String>)
    ensures
        checks(result, foreign_error(*expr, allowed@)),
{
    if find_foreign_var(&expr.tree, allowed) {
        return Err(
            "a column reference could not be resolved to one of the joined tables".to_string(),
        );
    }
    Ok(())
}

// --- base tables ---------------------------------------------------------------

pub const KIND_TABLE: u8 = 114;

pub const KIND_PARTITIONED: u8 = 112;

pub const KIND_VIEW: u8 = 118;

pub const KIND_MATERIALIZED: u8 = 109;

pub const KIND_FOREIGN: u8 = 102;

/// Why a relation is not an ordinary table of the user.
pub open spec fn kind_error(t: Table) -> Option<Seq<char>> {
    let q = t.qualified@;
    if t.schema@ == "nabla_store"@ {
        Some(q + " is a nabla storage table and cannot be a base table"@)
    } else if t.bound_to_view {
        Some(q + " is a nabla view; views cannot be built on other nabla views"@)
    } else if t.kind == KIND_PARTITIONED {
        Some(q + " is a partitioned table; partitioned tables are not supported"@)
    } else if t.kind == KIND_VIEW {
        Some(q + " is a view; the base must be an ordinary table"@)
    } else if t.kind == KIND_MATERIALIZED {
        Some(q + " is a materialized view; the base must be an ordinary table"@)
    } else if t.kind == KIND_FOREIGN {
        Some(q + " is a foreign table; the base must be an ordinary table"@)
    } else if t.kind != KIND_TABLE {
        Some(q + " is not an ordinary table (relkind '"@ + seq![t.kind as char] + "')"@)
    } else if t.schema@ == "nabla"@ {
        Some(q + " is a nabla catalog table and cannot be a base table"@)
    } else if t.schema@ == shadow::SCHEMA@ {
        Some(q + " is a nabla shadow table and cannot be a base table"@)
    } else {
        None
    }
}

pub fn check_relation_kind(t: &Table) -> (result: Result<(), String>)
    ensures
        checks(result, kind_error(*t)),
{
    let q = t.qualified.clone();
    if text::same(&t.schema, "nabla_store") {
        return Err(q.concat(" is a nabla storage table and cannot be a base table"));
    }
    if t.bound_to_view {
        return Err(q.concat(" is a nabla view; views cannot be built on other nabla views"));
    }
    if t.kind == KIND_PARTITIONED {
        return Err(q.concat(" is a partitioned table; partitioned tables are not supported"));
    }
    if t.kind == KIND_VIEW {
        return Err(q.concat(" is a view; the base must be an ordinary table"));
    }
    if t.kind == KIND_MATERIALIZED {
        return Err(q.concat(" is a materialized view; the base must be an ordinary table"));
    }
    if t.kind == KIND_FOREIGN {
        return Err(q.concat(" is a foreign table; the base must be an ordinary table"));
    }
    if t.kind != KIND_TABLE {
        let mut message = q.concat(" is not an ordinary table (relkind '");
        message.push(t.kind as char);
        message.append("')");
        assert(message@ =~= kind_error(*t)->0);
        return Err(message);
    }
    if text::same(&t.schema, "nabla") {
        return Err(q.concat(" is a nabla catalog table and cannot be a base table"));
    }
    if text::same(&t.schema, shadow::SCHEMA) {
        return Err(q.concat(" is a nabla shadow table and cannot be a base table"));
    }
    Ok(())
}

/// Whether a table before position `i` is the same table.
pub open spec fn seen_before(tables: Seq<Table>, i: int) -> bool {
    exists|j: int| 0 <= j < i && (#[trigger] tables[j]).oid == tables[i].oid
}

/// Why the table at position `i` cannot be a base table.
pub open spec fn table_error(tables: Seq<Table>, i: int) -> Option<Seq<char>> {
    let t = tables[i];
    let q = t.qualified@;
    if kind_error(t) is Some {
        kind_error(t)
    } else if seen_before(tables, i) {
        Some("table "@ + q + " is referenced twice; self-joins are not supported"@)
    } else if t.named_like_view {
        Some(q + " is a nabla view; views cannot be built on other nabla views"@)
    } else if t.has_children {
        Some(q + " has inheritance children, which logical decoding does not follow"@)
    } else if tables.len() > 1 && t.key@.len() == 0 {
        Some(q + " has no primary key; every table in a join view needs one"@)
    } else {
        None
    }
}

/// The error of the first table that has one.
pub open spec fn first_table_error(tables: Seq<Table>, n: nat) -> Option<Seq<char>>
    decreases n,
{
    if n == 0 || n > tables.len() {
        None
    } else {
        match first_table_error(tables, (n - 1) as nat) {
            Some(reason) => Some(reason),
            None => table_error(tables, n - 1),
        }
    }
}

proof fn lemma_table_error_stays(tables: Seq<Table>, n: nat, m: nat)
    requires
        n <= m <= tables.len(),
        first_table_error(tables, n) is Some,
    ensures
        first_table_error(tables, m) == first_table_error(tables, n),
    decreases m - n,
{
    if n < m {
        lemma_table_error_stays(tables, n, (m - 1) as nat);
    }
}

fn check_table(tables: &Vec<Table>, i: usize) -> (result: Result<(), String>)
    requires
        i < tables@.len(),
    ensures
        checks(result, table_error(tables@, i as int)),
{
    let t = &tables[i];
    match check_relation_kind(t) {
        Ok(()) => {},
        Err(reason) => return Err(reason),
    }
    let mut j: usize = 0;
    while j < i
        invariant
            j <= i < tables@.len(),
            *t == tables@[i as int],
            kind_error(*t) is None,
            forall|k: int| 0 <= k < j ==> (#[trigger] tables@[k]).oid != t.oid,
        decreases i - j,
    {
        if tables[j].oid == t.oid {
            assert(seen_before(tables@, i as int));
            return Err(
                "table ".to_string().concat(&t.qualified).concat(
                    " is referenced twice; self-joins are not supported",
                ),
            );
        }
        j = j + 1;
    }
    let q = t.qualified.clone();
    if t.named_like_view {
        return Err(q.concat(" is a nabla view; views cannot be built on other nabla views"));
    }
    if t.has_children {
        return Err(q.concat(" has inheritance children, which logical decoding does not follow"));
    }
    if tables.len() > 1 && t.key.len() == 0 {
        return Err(q.concat(" has no primary key; every table in a join view needs one"));
    }
    Ok(())
}

/// Kind checks, self-join rejection and the keys a join needs, for every table.
pub fn check_tables(tables: &Vec<Table>) -> (result: Result<(), String>)
    ensures
        checks(result, first_table_error(tables@, tables@.len())),
{
    let mut i: usize = 0;
    while i < tables.len()
        invariant
            i <= tables@.len(),
            first_table_error(tables@, i as nat) is None,
        decreases tables@.len() - i,
    {
        match check_table(tables, i) {
            Ok(()) => {},
            Err(reason) => {
                proof {
                    lemma_table_error_stays(tables@, (i + 1) as nat, tables@.len());
                }
                return Err(reason);
            },
        }
        i = i + 1;
    }
    Ok(())
}

// --- laws ------------------------------------------------------------------------------

/// Whether every join anywhere in a tree is an inner join.
pub open spec fn all_inner(node: JoinNode) -> bool
    decreases node, 0nat,
{
    match node {
        JoinNode::From { items, qual } => all_inner_among(items, items@.len()),
        JoinNode::Join { kind, left, right, qual } => kind == JoinKind::Inner && all_inner(*left)
            && all_inner(*right),
        JoinNode::Other => true,
    }
}

pub open spec fn all_inner_among(items: Vec<JoinNode>, n: nat) -> bool
    decreases items, n,
{
    if n == 0 || n > items@.len() {
        true
    } else {
        all_inner_among(items, (n - 1) as nat) && all_inner(items@[n - 1])
    }
}

/// Whether a qual stands anywhere in a tree.
pub open spec fn stands_in(node: JoinNode, qual: usize) -> bool
    decreases node, 0nat,
{
    match node {
        JoinNode::From { items, qual: q } => q == Some(qual) || stands_among(
            items,
            items@.len(),
            qual,
        ),
        JoinNode::Join { kind, left, right, qual: q } => q == Some(qual) || stands_in(*left, qual)
            || stands_in(*right, qual),
        JoinNode::Other => false,
    }
}

pub open spec fn stands_among(items: Vec<JoinNode>, n: nat, qual: usize) -> bool
    decreases items, n,
{
    if n == 0 || n > items@.len() {
        false
    } else {
        stands_among(items, (n - 1) as nat, qual) || stands_in(items@[n - 1], qual)
    }
}

proof fn lemma_contains_both(a: Seq<usize>, b: Seq<usize>, x: usize)
    ensures
        (a + b).contains(x) <==> a.contains(x) || b.contains(x),
{
    if a.contains(x) {
        let k = choose|k: int| 0 <= k < a.len() && a[k] == x;
        assert((a + b)[k] == x);
    }
    if b.contains(x) {
        let k = choose|k: int| 0 <= k < b.len() && b[k] == x;
        assert((a + b)[a.len() + k] == x);
    }
    if (a + b).contains(x) {
        let k = choose|k: int| 0 <= k < (a + b).len() && (a + b)[k] == x;
        if k < a.len() {
            assert(a[k] == x);
        } else {
            assert(b[k - a.len()] == x);
        }
    }
}

proof fn lemma_with_qual(quals: Seq<usize>, qual: Option<usize>, x: usize)
    ensures
        with_qual(quals, qual).contains(x) <==> quals.contains(x) || qual == Some(x),
{
    if let Some(q) = qual {
        assert(quals.push(q) =~= quals + seq![q]);
        lemma_contains_both(quals, seq![q], x);
        assert(seq![q].contains(x) <==> q == x) by {
            assert(seq![q][0] == q);
        }
    }
}

proof fn lemma_tree(node: JoinNode, qual: usize)
    ensures
        quals_of(node) is Ok <==> all_inner(node),
        quals_of(node) matches Ok(quals) ==> (quals.contains(qual) <==> stands_in(node, qual)),
    decreases node, 0nat,
{
    match node {
        JoinNode::From { items, qual: q } => {
            lemma_trees(items, items@.len(), qual);
            if let Ok(quals) = quals_among(items, items@.len()) {
                lemma_with_qual(quals, q, qual);
            }
        },
        JoinNode::Join { kind, left, right, qual: q } => {
            lemma_tree(*left, qual);
            lemma_tree(*right, qual);
            if let (Ok(l), Ok(r)) = (quals_of(*left), quals_of(*right)) {
                lemma_contains_both(l, r, qual);
                lemma_with_qual(l + r, q, qual);
            }
        },
        JoinNode::Other => {},
    }
}

proof fn lemma_trees(items: Vec<JoinNode>, n: nat, qual: usize)
    ensures
        quals_among(items, n) is Ok <==> all_inner_among(items, n),
        quals_among(items, n) matches Ok(quals) ==> (quals.contains(qual) <==> stands_among(
            items,
            n,
            qual,
        )),
    decreases items, n,
{
    if n > 0 && n <= items@.len() {
        lemma_trees(items, (n - 1) as nat, qual);
        lemma_tree(items@[n - 1], qual);
        if let (Ok(a), Ok(b)) = (quals_among(items, (n - 1) as nat), quals_of(items@[n - 1])) {
            lemma_contains_both(a, b, qual);
        }
    }
}

/// Only inner joins are accepted, anywhere in the join tree; and they always are.
pub proof fn law_only_inner_joins_are_accepted(node: JoinNode)
    ensures
        quals_of(node) is Ok <==> all_inner(node),
{
    lemma_tree(node, 0);
}

/// Every ON and WHERE qual of an accepted join tree is taken, and nothing else is.
pub proof fn law_every_qual_is_taken(node: JoinNode, qual: usize)
    requires
        quals_of(node) is Ok,
    ensures
        (quals_of(node)->Ok_0).contains(qual) <==> stands_in(node, qual),
{
    lemma_tree(node, qual);
}

/// A definition is a plain SELECT: none of the clauses that cannot be maintained stands
/// in it, and one without them is not refused for its clauses.
pub proof fn law_only_plain_selects_are_accepted(c: Clauses)
    ensures
        clauses_error(c) is None <==> {
            &&& c.select
            &&& !c.set_operations
            &&& !c.ctes
            &&& !c.sublinks
            &&& !c.window_functions
            &&& !c.target_srfs
            &&& !c.distinct_on
            &&& !c.distinct
            &&& !c.order_by
            &&& !c.limit
            &&& !c.offset
            &&& !c.having
            &&& !c.grouping_sets
            &&& !c.for_update
            &&& !c.row_marks
        },
{
}

proof fn lemma_entries(rtable: Seq<RangeEntry>, n: nat)
    requires
        n <= rtable.len(),
    ensures
        first_entry_error(rtable, n) is None <==> forall|i: int|
            0 <= i < n ==> !(#[trigger] rtable[i]).lateral && (rtable[i].kind == RangeKind::Relation
                || rtable[i].kind == RangeKind::Join),
    decreases n,
{
    if n > 0 {
        lemma_entries(rtable, (n - 1) as nat);
    }
}

proof fn lemma_indexes(rtable: Seq<RangeEntry>, n: nat)
    requires
        n <= rtable.len() < i32::MAX,
    ensures
        forall|k: int|
            0 <= k < relation_indexes(rtable, n).len() ==> 1 <= #[trigger] relation_indexes(
                rtable,
                n,
            )[k] <= n && rtable[relation_indexes(rtable, n)[k] - 1].kind == RangeKind::Relation,
        forall|i: int|
            0 <= i < n && (#[trigger] rtable[i]).kind == RangeKind::Relation ==> relation_indexes(
                rtable,
                n,
            ).contains((i + 1) as i32),
    decreases n,
{
    if n > 0 {
        lemma_indexes(rtable, (n - 1) as nat);
        let before = relation_indexes(rtable, (n - 1) as nat);
        let after = relation_indexes(rtable, n);
        assert forall|i: int|
            0 <= i < n && (#[trigger] rtable[i]).kind == RangeKind::Relation implies after.contains(
            (i + 1) as i32,
        ) by {
            if i < n - 1 {
                assert(before.contains((i + 1) as i32));
                let k = choose|k: int| 0 <= k < before.len() && before[k] == (i + 1) as i32;
                assert(after[k] == (i + 1) as i32);
            } else {
                assert(after[before.len() as int] == (i + 1) as i32);
            }
        }
    }
}

/// A FROM clause is accepted where it is made of tables and joins alone, none of them
/// LATERAL, with at least one table; and every table is taken, under its own number.
pub proof fn law_only_tables_are_read_from(rtable: Seq<RangeEntry>)
    requires
        rtable.len() < i32::MAX,
    ensures
        collected(rtable) is Ok <==> (forall|i: int|
            0 <= i < rtable.len() ==> !(#[trigger] rtable[i]).lateral && (rtable[i].kind
                == RangeKind::Relation || rtable[i].kind == RangeKind::Join)) && exists|i: int|
            0 <= i < rtable.len() && (#[trigger] rtable[i]).kind == RangeKind::Relation,
        collected(rtable) matches Ok(indexes) ==> (forall|k: int|
            0 <= k < indexes.len() ==> 1 <= #[trigger] indexes[k] <= rtable.len()
                && rtable[indexes[k] - 1].kind == RangeKind::Relation) && (forall|i: int|
            0 <= i < rtable.len() && (#[trigger] rtable[i]).kind == RangeKind::Relation
                ==> indexes.contains((i + 1) as i32)),
{
    lemma_entries(rtable, rtable.len());
    lemma_indexes(rtable, rtable.len());
    let indexes = relation_indexes(rtable, rtable.len());
    if exists|i: int| 0 <= i < rtable.len() && (#[trigger] rtable[i]).kind == RangeKind::Relation {
        let i = choose|i: int|
            0 <= i < rtable.len() && (#[trigger] rtable[i]).kind == RangeKind::Relation;
        assert(indexes.contains((i + 1) as i32));
    }
    if indexes.len() > 0 {
        assert(rtable[indexes[0] - 1].kind == RangeKind::Relation);
    }
}

/// Whether a table can be a base table: an ordinary one that is not nabla's own, with no
/// inheritance children.
pub open spec fn is_plain_table(t: Table) -> bool {
    &&& t.kind == 114u8
    &&& t.schema@ != "nabla_store"@
    &&& t.schema@ != "nabla"@
    &&& t.schema@ != "nabla_shadow"@
    &&& !t.bound_to_view
    &&& !t.named_like_view
    &&& !t.has_children
}

proof fn lemma_tables(tables: Seq<Table>, n: nat)
    requires
        n <= tables.len(),
    ensures
        first_table_error(tables, n) is None <==> forall|i: int|
            0 <= i < n ==> is_plain_table(#[trigger] tables[i]) && (forall|j: int|
                0 <= j < i ==> (#[trigger] tables[j]).oid != tables[i].oid) && (tables.len() > 1
                ==> tables[i].key@.len() > 0),
    decreases n,
{
    if n > 0 {
        lemma_tables(tables, (n - 1) as nat);
        let i = n - 1;
        assert(table_error(tables, i) is None <==> is_plain_table(tables[i]) && (forall|j: int|
            0 <= j < i ==> (#[trigger] tables[j]).oid != tables[i].oid) && (tables.len() > 1
            ==> tables[i].key@.len() > 0));
        if first_table_error(tables, n) is None {
            assert forall|k: int| 0 <= k < n implies is_plain_table(#[trigger] tables[k]) && (
            forall|j: int| 0 <= j < k ==> (#[trigger] tables[j]).oid != tables[k].oid) && (
            tables.len() > 1 ==> tables[k].key@.len() > 0) by {}
        }
    }
}

/// Base tables are accepted where each is an ordinary table that is not nabla's own and
/// has no children, none is there twice, and in a join each has a primary key.
pub proof fn law_only_plain_tables_are_accepted(tables: Seq<Table>)
    ensures
        first_table_error(tables, tables.len()) is None <==> forall|i: int|
            0 <= i < tables.len() ==> is_plain_table(#[trigger] tables[i]) && (forall|j: int|
                0 <= j < i ==> (#[trigger] tables[j]).oid != tables[i].oid) && (tables.len() > 1
                ==> tables[i].key@.len() > 0),
{
    lemma_tables(tables, tables.len());
}

/// Whether a column reference stands anywhere in an expression.
pub open spec fn refers(node: Node, varno: i32, attno: i16, levels_up: u32) -> bool
    decreases node, 0nat,
{
    match node {
        Node::Var { varno: v, attno: a, levels_up: l } => v == varno && a == attno && l == levels_up,
        Node::Call { function, args } => refers_among(args, args@.len(), varno, attno, levels_up),
        Node::SqlValue => false,
        Node::NextValue => false,
        Node::Other { children } => refers_among(
            children,
            children@.len(),
            varno,
            attno,
            levels_up,
        ),
    }
}

pub open spec fn refers_among(
    nodes: Vec<Node>,
    n: nat,
    varno: i32,
    attno: i16,
    levels_up: u32,
) -> bool
    decreases nodes, n,
{
    if n == 0 || n > nodes@.len() {
        false
    } else {
        refers_among(nodes, (n - 1) as nat, varno, attno, levels_up) || refers(
            nodes@[n - 1],
            varno,
            attno,
            levels_up,
        )
    }
}

proof fn lemma_refs(node: Node, allowed: Seq<i32>, varno: i32, attno: i16, levels_up: u32)
    ensures
        vars_of(node).contains((varno, attno)) <==> refers(node, varno, attno, 0),
        refers(node, varno, attno, levels_up) && (levels_up != 0 || !allowed.contains(varno))
            ==> foreign_in(node, allowed),
    decreases node, 0nat,
{
    match node {
        Node::Var { varno: v, attno: a, levels_up: l } => {
            assert(seq![(v, a)].contains((varno, attno)) <==> v == varno && a == attno) by {
                assert(seq![(v, a)][0] == (v, a));
            }
            assert(!Seq::<(i32, i16)>::empty().contains((varno, attno)));
        },
        Node::Call { function, args } => {
            lemma_refs_among(args, args@.len(), allowed, varno, attno, levels_up);
        },
        Node::Other { children } => {
            lemma_refs_among(children, children@.len(), allowed, varno, attno, levels_up);
        },
        _ => {
            assert(!Seq::<(i32, i16)>::empty().contains((varno, attno)));
        },
    }
}

proof fn lemma_refs_among(
    nodes: Vec<Node>,
    n: nat,
    allowed: Seq<i32>,
    varno: i32,
    attno: i16,
    levels_up: u32,
)
    ensures
        vars_among(nodes, n).contains((varno, attno)) <==> refers_among(nodes, n, varno, attno, 0),
        refers_among(nodes, n, varno, attno, levels_up) && (levels_up != 0 || !allowed.contains(
            varno,
        )) ==> foreign_among(nodes, n, allowed),
    decreases nodes, n,
{
    if n > 0 && n <= nodes@.len() {
        lemma_refs_among(nodes, (n - 1) as nat, allowed, varno, attno, levels_up);
        lemma_refs(nodes@[n - 1], allowed, varno, attno, levels_up);
        let a = vars_among(nodes, (n - 1) as nat);
        let b = vars_of(nodes@[n - 1]);
        let x = (varno, attno);
        if a.contains(x) {
            let k = choose|k: int| 0 <= k < a.len() && a[k] == x;
            assert((a + b)[k] == x);
        }
        if b.contains(x) {
            let k = choose|k: int| 0 <= k < b.len() && b[k] == x;
            assert((a + b)[a.len() + k] == x);
        }
        if (a + b).contains(x) {
            let k = choose|k: int| 0 <= k < (a + b).len() && (a + b)[k] == x;
            if k < a.len() {
                assert(a[k] == x);
            } else {
                assert(b[k - a.len()] == x);
            }
        }
    } else {
        assert(!vars_among(nodes, n).contains((varno, attno)));
    }
}

proof fn lemma_foreign_shows(node: Node, allowed: Seq<i32>) -> (found: (i32, i16, u32))
    requires
        foreign_in(node, allowed),
    ensures
        refers(node, found.0, found.1, found.2),
        found.2 != 0 || !allowed.contains(found.0),
    decreases node, 0nat,
{
    match node {
        Node::Var { varno, attno, levels_up } => (varno, attno, levels_up),
        Node::Call { function, args } => lemma_foreign_shows_among(args, args@.len(), allowed),
        Node::Other { children } => lemma_foreign_shows_among(children, children@.len(), allowed),
        _ => (0, 0, 0),
    }
}

proof fn lemma_foreign_shows_among(nodes: Vec<Node>, n: nat, allowed: Seq<i32>) -> (found: (
    i32,
    i16,
    u32,
))
    requires
        foreign_among(nodes, n, allowed),
    ensures
        refers_among(nodes, n, found.0, found.1, found.2),
        found.2 != 0 || !allowed.contains(found.0),
    decreases nodes, n,
{
    if foreign_among(nodes, (n - 1) as nat, allowed) {
        lemma_foreign_shows_among(nodes, (n - 1) as nat, allowed)
    } else {
        lemma_foreign_shows(nodes@[n - 1], allowed)
    }
}

/// An expression is refused exactly where some column reference in it, however deep, is
/// not one to a base table of the query itself.
pub proof fn law_every_reference_is_resolved(expr: Expression, allowed: Seq<i32>)
    ensures
        foreign_error(expr, allowed) is None <==> forall|varno: i32, attno: i16, levels_up: u32| #[trigger]
            refers(expr.tree, varno, attno, levels_up) ==> levels_up == 0 && allowed.contains(varno),
{
    if foreign_in(expr.tree, allowed) {
        let found = lemma_foreign_shows(expr.tree, allowed);
    } else {
        assert forall|varno: i32, attno: i16, levels_up: u32| #[trigger]
            refers(expr.tree, varno, attno, levels_up) implies levels_up == 0 && allowed.contains(
            varno,
        ) by {
            lemma_refs(expr.tree, allowed, varno, attno, levels_up);
        }
    }
}

/// The columns that an expression reads are those that it refers to, however deep.
pub proof fn law_every_reference_is_read(node: Node, varno: i32, attno: i16)
    ensures
        vars_of(node).contains((varno, attno)) <==> refers(node, varno, attno, 0),
{
    lemma_refs(node, Seq::empty(), varno, attno, 0);
}

/// An expression is refused exactly where it is not immutable.
pub proof fn law_only_immutable_expressions_are_accepted(expr: Expression, place: Seq<char>)
    ensures
        mutable_error(expr, place) is None <==> !expr.mutable,
{
}

/// What a kind of join is called.
pub open spec fn is_called(kind: JoinKind, name: Seq<char>) -> bool {
    match kind {
        JoinKind::Inner => false,
        JoinKind::Left => name == "LEFT JOIN"@,
        JoinKind::Right => name == "RIGHT JOIN"@,
        JoinKind::Full => name == "FULL JOIN"@,
        JoinKind::Semi => name == "SEMI JOIN"@,
        JoinKind::Anti => name == "ANTI JOIN"@,
        JoinKind::RightAnti => name == "ANTI JOIN"@,
        JoinKind::Other => name == "this join type"@,
    }
}

/// A join that is refused is called by its name in the reason.
pub proof fn law_refused_joins_are_named(kind: JoinKind, name: Seq<char>)
    requires
        is_called(kind, name),
    ensures
        join_error(kind) is Some,
        text::has_part(join_error(kind)->0, name),
{
    let back = " is not supported; only inner joins are"@;
    text::lemma_part_of_itself(name);
    text::lemma_part_left(name, back, name);
}

/// A table that is refused is named in the reason, whatever the reason.
pub proof fn law_refused_tables_are_named(tables: Seq<Table>, i: int)
    requires
        0 <= i < tables.len(),
        table_error(tables, i) is Some,
    ensures
        text::has_part(table_error(tables, i)->0, tables[i].qualified@),
{
    let q = tables[i].qualified@;
    let reason = table_error(tables, i)->0;
    if kind_error(tables[i]) is None && seen_before(tables, i) {
        let back = " is referenced twice; self-joins are not supported"@;
        reveal_strlit("table ");
        assert(reason == "table "@ + q + back);
        assert(reason.subrange(6, 6 + q.len() as int) =~= q);
        text::lemma_part_at(reason, q, 6);
    } else {
        assert(reason.subrange(0, q.len() as int) =~= q);
        text::lemma_part_at(reason, q, 0);
    }
}

/// Whether an expression uses, however deep, what is not immutable under a name.
pub open spec fn uses_mutable(node: Node, name: Seq<char>) -> bool
    decreases node, 0nat,
{
    match node {
        Node::Var { .. } => false,
        Node::Call { function, args } => (function is Some && function->0.volatility != IMMUTABLE
            && function->0.name@ == name) || uses_mutable_among(args, args@.len(), name),
        Node::SqlValue => name == "current_date/current_time/current_user or similar"@,
        Node::NextValue => name == "nextval"@,
        Node::Other { children } => uses_mutable_among(children, children@.len(), name),
    }
}

pub open spec fn uses_mutable_among(nodes: Vec<Node>, n: nat, name: Seq<char>) -> bool
    decreases nodes, n,
{
    n > 0 && n <= nodes@.len() && (uses_mutable_among(nodes, (n - 1) as nat, name) || uses_mutable(
        nodes@[n - 1],
        name,
    ))
}

proof fn lemma_mutable_use(node: Node, name: Seq<char>)
    ensures
        mutable_in(node) matches Some(found) ==> uses_mutable(node, found),
        mutable_in(node) is None ==> !uses_mutable(node, name),
    decreases node, 0nat,
{
    match node {
        Node::Call { function, args } => lemma_mutable_use_among(args, args@.len(), name),
        Node::Other { children } => lemma_mutable_use_among(children, children@.len(), name),
        _ => {},
    }
}

proof fn lemma_mutable_use_among(nodes: Vec<Node>, n: nat, name: Seq<char>)
    ensures
        mutable_among(nodes, n) matches Some(found) ==> uses_mutable_among(nodes, n, found),
        mutable_among(nodes, n) is None ==> !uses_mutable_among(nodes, n, name),
    decreases nodes, n,
{
    if 0 < n <= nodes@.len() {
        lemma_mutable_use_among(nodes, (n - 1) as nat, name);
        lemma_mutable_use(nodes@[n - 1], name);
    }
}

/// An expression that is refused is refused with the place where it stands; and where it uses
/// anything that is known not to be immutable, one such thing is named.
pub proof fn law_refused_expressions_name_what_they_use(expr: Expression, place: Seq<char>)
    requires
        expr.mutable,
    ensures
        text::has_part(mutable_error(expr, place)->0, place),
        forall|name: Seq<char>| #[trigger]
            uses_mutable(expr.tree, name) ==> exists|found: Seq<char>|
                uses_mutable(expr.tree, found) && text::has_part(
                    mutable_error(expr, place)->0,
                    "\""@ + found + "\""@,
                ),
{
    let reason = mutable_error(expr, place)->0;
    assert(reason.subrange(0, place.len() as int) =~= place);
    text::lemma_part_at(reason, place, 0);
    assert forall|name: Seq<char>| #[trigger] uses_mutable(expr.tree, name) implies exists|
        found: Seq<char>,
    |
        uses_mutable(expr.tree, found) && text::has_part(reason, "\""@ + found + "\""@) by {
        lemma_mutable_use(expr.tree, name);
        let found = mutable_in(expr.tree)->0;
        let quoted = "\""@ + found + "\""@;
        let back =
            "\", which is not IMMUTABLE; the view must be a pure function of the base table"@;
        let i = place.len() as int + 6;
        reveal_strlit(" uses \"");
        reveal_strlit("\"");
        reveal_strlit(
            "\", which is not IMMUTABLE; the view must be a pure function of the base table",
        );
        assert(reason == place + " uses \""@ + found + back);
        assert(reason.subrange(i, i + quoted.len()) =~= quoted);
        text::lemma_part_at(reason, quoted, i);
    }
}

} // verus!
