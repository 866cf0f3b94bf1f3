//! Asynchronous population of views: `create_view` and `refresh` only record
//! intent; the worker builds the table, under a snapshot that is exactly
//! consistent with a logical-decoding consistent point, the way PostgreSQL's
//! own table synchronization does it.
//!
//! Every transaction whose commit is at or below the consistent point is
//! visible to the population queries; every later one is decoded by the main
//! slot, whose `confirmed_flush_lsn` is at or below the consistent point (the
//! main slot only advances from this very process, and only after this step).
//! The view's frontier is set to the consistent point, so the skip rule
//! (`end_lsn <= frontier`) makes the two halves meet exactly.
//!
//! A rebuild (refresh) re-validates the stored definition text first, so a
//! definition that no longer resolves (dropped column, renamed table) fails
//! with PostgreSQL's own error, and the regenerated spec picks up type
//! changes.
use vstd::prelude::*;

use std::collections::BTreeSet;

use crate::apply::group_keys;
use crate::definition::{BaseModel, Shape, SpecModel, ViewSpec};
use crate::lsn;
use crate::quote::Quoting;
use crate::shadow;
use crate::statement::{
    bare, push_notice, text_arg, warning, Arg, ArgModel, Notice, NoticeModel, Statement,
    StatementModel,
};
use crate::text;
use crate::text::{has_part, joined, signed_decimal, view_of_option, views};

verus! {

/// A view waiting to be built or rebuilt.
pub struct Pending {
    pub id: i32,
    pub name: String,
    pub status: String,
    pub definition: String,
    pub spec: ViewSpec,
    /// A build has committed before (shadow references exist, epoch bumps).
    pub populated: bool,
}

pub struct WaitingModel {
    pub id: i32,
    pub name: Seq<char>,
    pub status: Seq<char>,
    pub definition: Seq<char>,
    pub spec: SpecModel,
    pub populated: bool,
}

impl View for Pending {
    type V = WaitingModel;

    open spec fn view(&self) -> WaitingModel {
        WaitingModel {
            id: self.id,
            name: self.name@,
            status: self.status@,
            definition: self.definition@,
            spec: self.spec@,
            populated: self.populated,
        }
    }
}

/// The storage table behind a view: user columns and hidden maintenance columns.
pub open spec fn stored_as(view_id: i32) -> Seq<char> {
    "nabla_store.v"@ + signed_decimal(view_id as int)
}

pub fn storage_name(view_id: i32) -> (result: String)
    ensures
        result@ == stored_as(view_id),
{
    "nabla_store.v".to_string().concat(&text::signed_text(view_id as i64))
}

// --- view tables -------------------------------------------------------------------------

/// The quoted columns that identify a row of a view table.
pub open spec fn index_columns(spec: SpecModel, quoting: spec_fn(Seq<char>) -> Seq<char>) -> Seq<
    Seq<char>,
> {
    match spec.shape {
        Shape::Projection => spec.pk_view_columns.map_values(|c: Seq<char>| quoting(c)),
        Shape::Aggregate => group_keys(spec, quoting),
    }
}

/// The index on a view table. GROUP BY treats NULLs as equal, so the group key
/// index must as well.
pub open spec fn index_sql(
    name: Seq<char>,
    spec: SpecModel,
    quoting: spec_fn(Seq<char>) -> Seq<char>,
) -> Seq<char> {
    "CREATE UNIQUE INDEX ON "@ + name + " ("@ + joined(index_columns(spec, quoting), ", "@)
        + ")"@ + match spec.shape {
        Shape::Aggregate => " NULLS NOT DISTINCT"@,
        Shape::Projection => ""@,
    }
}

pub fn view_index_sql(name: &str, spec: &ViewSpec, quoting: &Quoting) -> (result: String)
    ensures
        result@ == index_sql(name@, spec@, quoting@),
{
    let mut cols: Vec<String> = Vec::new();
    let nulls = match spec.shape {
        Shape::Projection => {
            let mut i: usize = 0;
            while i < spec.pk_view_columns.len()
                invariant
                    i <= spec.pk_view_columns@.len(),
                    cols@.len() == i,
                    forall|j: int|
                        0 <= j < i ==> (#[trigger] cols@[j])@ == quoting@(
                            spec.pk_view_columns@[j]@,
                        ),
                decreases spec.pk_view_columns@.len() - i,
            {
                cols.push(quoting.ident(&spec.pk_view_columns[i]));
                i = i + 1;
            }
            ""
        },
        Shape::Aggregate => {
            let mut i: usize = 0;
            while i < spec.columns.len()
                invariant
                    i <= spec.columns@.len(),
                    cols@.len() == i,
                    forall|j: int|
                        0 <= j < i ==> (#[trigger] cols@[j])@ == quoting@(
                            spec.columns@[j].alias@,
                        ),
                decreases spec.columns@.len() - i,
            {
                cols.push(quoting.ident(&spec.columns[i].alias));
                i = i + 1;
            }
            " NULLS NOT DISTINCT"
        },
    };
    assert(views(cols@) =~= index_columns(spec@, quoting@));
    "CREATE UNIQUE INDEX ON ".to_string().concat(name).concat(" (").concat(
        &text::join(&cols, ", "),
    ).concat(")").concat(nulls)
}

pub open spec fn guard_sql(name: Seq<char>) -> Seq<char> {
    "CREATE TRIGGER nabla_guard BEFORE INSERT OR UPDATE OR DELETE ON "@ + name
        + " FOR EACH ROW EXECUTE FUNCTION nabla.guard_view()"@
}

pub open spec fn guard_truncate_sql(name: Seq<char>) -> Seq<char> {
    "CREATE TRIGGER nabla_guard_truncate BEFORE TRUNCATE ON "@ + name
        + " FOR EACH STATEMENT EXECUTE FUNCTION nabla.guard_view()"@
}

/// DDL that turns a freshly populated table into a nabla-managed view table.
pub open spec fn ddl_of(
    name: Seq<char>,
    spec: SpecModel,
    quoting: spec_fn(Seq<char>) -> Seq<char>,
) -> Seq<Seq<char>> {
    seq![index_sql(name, spec, quoting), guard_sql(name), guard_truncate_sql(name)]
}

pub fn view_ddl(name: &str, spec: &ViewSpec, quoting: &Quoting) -> (result: Vec<String>)
    ensures
        views(result@) == ddl_of(name@, spec@, quoting@),
{
    let out = vec![
        view_index_sql(name, spec, quoting),
        "CREATE TRIGGER nabla_guard BEFORE INSERT OR UPDATE OR DELETE ON ".to_string().concat(
            name,
        ).concat(" FOR EACH ROW EXECUTE FUNCTION nabla.guard_view()"),
        "CREATE TRIGGER nabla_guard_truncate BEFORE TRUNCATE ON ".to_string().concat(name).concat(
            " FOR EACH STATEMENT EXECUTE FUNCTION nabla.guard_view()",
        ),
    ];
    assert(views(out@) =~= ddl_of(name@, spec@, quoting@));
    out
}

// --- groups --------------------------------------------------------------------------------

/// Whether a view is rebuilt together with others: a refreshing join view.
pub open spec fn is_shared(view: WaitingModel) -> bool {
    view.status == "refreshing"@ && view.spec.relations.len() > 1
}

pub open spec fn relation_oids(spec: SpecModel) -> Seq<u32> {
    spec.relations.map_values(|r: BaseModel| r.oid)
}

pub open spec fn overlap(a: Seq<u32>, b: Seq<u32>) -> bool {
    exists|i: int| 0 <= i < b.len() && a.contains(#[trigger] b[i])
}

/// Two views that share a shadow: refreshing join views with a common relation.
pub open spec fn binds(a: WaitingModel, b: WaitingModel) -> bool {
    is_shared(a) && is_shared(b) && overlap(relation_oids(a.spec), relation_oids(b.spec))
}

/// A set of waiting views that no shared shadow leads out of.
pub open spec fn closed(pending: Seq<WaitingModel>, s: Set<int>) -> bool {
    forall|a: int, b: int|
        0 <= a < pending.len() && 0 <= b < pending.len() && #[trigger] s.contains(a)
            && #[trigger] binds(pending[a], pending[b]) ==> s.contains(b)
}

/// Two waiting views belong together where shared shadows lead from the one to
/// the other, over however many views.
pub open spec fn together(pending: Seq<WaitingModel>, i: int, j: int) -> bool {
    forall|s: Set<int>| #[trigger] closed(pending, s) && s.contains(i) ==> s.contains(j)
}

/// Whether a waiting view is the first of those that belong together with it.
pub open spec fn leads(pending: Seq<WaitingModel>, i: int) -> bool {
    forall|j: int| 0 <= j < i ==> !#[trigger] together(pending, j, i)
}

/// The first views of the groups among the first `n` views.
pub open spec fn leaders(pending: Seq<WaitingModel>, n: nat) -> Seq<int>
    decreases n,
{
    if n == 0 {
        Seq::empty()
    } else if leads(pending, n - 1) {
        leaders(pending, (n - 1) as nat).push(n - 1)
    } else {
        leaders(pending, (n - 1) as nat)
    }
}

/// Those of the first `n` views that belong together with view `i`, in order.
pub open spec fn members(pending: Seq<WaitingModel>, i: int, n: nat) -> Seq<int>
    decreases n,
{
    if n == 0 {
        Seq::empty()
    } else if together(pending, i, n - 1) {
        members(pending, i, (n - 1) as nat).push(n - 1)
    } else {
        members(pending, i, (n - 1) as nat)
    }
}

/// The groups of the first `n` views, by position.
pub open spec fn positions(pending: Seq<WaitingModel>, n: nat) -> Seq<Seq<int>> {
    leaders(pending, n).map_values(|i: int| members(pending, i, n))
}

/// The groups of the first `n` views.
pub open spec fn groups_of(pending: Seq<WaitingModel>, n: nat) -> Seq<Seq<WaitingModel>> {
    positions(pending, n).map_values(|g: Seq<int>| g.map_values(|i: int| pending[i]))
}

pub open spec fn group_models(groups: Seq<Vec<Pending>>) -> Seq<Seq<WaitingModel>> {
    groups.map_values(|g: Vec<Pending>| views(g@))
}

proof fn lemma_binds_back(a: WaitingModel, b: WaitingModel)
    requires
        binds(a, b),
    ensures
        binds(b, a),
{
    let x = relation_oids(a.spec);
    let y = relation_oids(b.spec);
    let i = choose|i: int| 0 <= i < y.len() && x.contains(#[trigger] y[i]);
    let k = choose|k: int| 0 <= k < x.len() && x[k] == y[i];
    assert(y.contains(x[k]));
}

proof fn lemma_together_back(pending: Seq<WaitingModel>, i: int, j: int)
    requires
        together(pending, i, j),
    ensures
        together(pending, j, i),
{
    assert forall|s: Set<int>| #[trigger] closed(pending, s) && s.contains(j) implies s.contains(
        i,
    ) by {
        let rest = s.complement();
        assert forall|a: int, b: int|
            0 <= a < pending.len() && 0 <= b < pending.len() && #[trigger] rest.contains(a)
                && #[trigger] binds(pending[a], pending[b]) implies rest.contains(b) by {
            lemma_binds_back(pending[a], pending[b]);
            if s.contains(b) {
                assert(s.contains(a));
            }
        }
        assert(closed(pending, rest));
        if !s.contains(i) {
            assert(rest.contains(i));
            assert(rest.contains(j));
        }
    }
}

proof fn lemma_together_on(pending: Seq<WaitingModel>, i: int, j: int, k: int)
    requires
        together(pending, i, j),
        together(pending, j, k),
    ensures
        together(pending, i, k),
{
}

proof fn lemma_bound_together(pending: Seq<WaitingModel>, i: int, j: int)
    requires
        0 <= i < pending.len(),
        0 <= j < pending.len(),
        binds(pending[i], pending[j]),
    ensures
        together(pending, i, j),
{
}

/// Labels under which every two bound views among the first `n` stand together
/// with the view that gives the label.
spec fn labelled(pending: Seq<WaitingModel>, labels: Seq<usize>, n: int) -> bool {
    &&& labels.len() == n <= pending.len()
    &&& forall|i: int|
        0 <= i < n ==> (#[trigger] labels[i]) <= i && labels[labels[i] as int] == labels[i]
            && together(pending, labels[i] as int, i)
}

spec fn bound_alike(pending: Seq<WaitingModel>, labels: Seq<usize>, n: int) -> bool {
    forall|i: int, j: int|
        0 <= i < n && 0 <= j < n && #[trigger] binds(pending[i], pending[j]) ==> labels[i]
            == labels[j]
}

/// Labels of bound views agree, so they are the same exactly where views belong
/// together.
proof fn lemma_labels_tell(pending: Seq<WaitingModel>, labels: Seq<usize>)
    requires
        labelled(pending, labels, pending.len() as int),
        bound_alike(pending, labels, pending.len() as int),
    ensures
        forall|i: int, j: int|
            0 <= i < pending.len() && 0 <= j < pending.len() ==> (#[trigger] together(
                pending,
                i,
                j,
            ) <==> labels[i] == labels[j]),
        forall|i: int|
            0 <= i < pending.len() ==> (#[trigger] leads(pending, i) <==> labels[i] == i),
{
    assert forall|i: int, j: int|
        0 <= i < pending.len() && 0 <= j < pending.len() implies (#[trigger] together(
        pending,
        i,
        j,
    ) <==> labels[i] == labels[j]) by {
        let class = Set::<int>::new(
            |k: int| 0 <= k < pending.len() && labels[k] == labels[i],
        );
        assert(closed(pending, class));
        assert(class.contains(i));
        if labels[i] == labels[j] {
            lemma_together_back(pending, labels[i] as int, i);
            lemma_together_on(pending, i, labels[i] as int, j);
        }
    }
    assert forall|i: int| 0 <= i < pending.len() implies (#[trigger] leads(pending, i) <==> labels[i]
        == i) by {
        let l = labels[i] as int;
        assert(together(pending, l, i));
        if l == i {
            assert forall|j: int| 0 <= j < i implies !#[trigger] together(pending, j, i) by {
                assert(labels[j] <= j);
            }
        }
    }
}

fn oids_of(spec: &ViewSpec) -> (result: Vec<u32>)
    ensures
        result@ == relation_oids(spec@),
{
    let mut out: Vec<u32> = Vec::new();
    let mut i: usize = 0;
    while i < spec.relations.len()
        invariant
            i <= spec.relations@.len(),
            out@.len() == i,
            forall|j: int| 0 <= j < i ==> out@[j] == spec.relations@[j].oid,
        decreases spec.relations@.len() - i,
    {
        out.push(spec.relations[i].oid);
        i = i + 1;
    }
    assert(out@ =~= relation_oids(spec@));
    out
}

/// The relations of a view as a set.
fn oid_set(spec: &ViewSpec) -> (result: BTreeSet<u32>)
    ensures
        result@ == relation_oids(spec@).to_set(),
{
    broadcast use vstd::std_specs::btree::group_btree_axioms;

    let mut out: BTreeSet<u32> = BTreeSet::new();
    let ghost oids = relation_oids(spec@);
    let mut i: usize = 0;
    assert(oids.take(0).to_set() =~= Set::empty());
    while i < spec.relations.len()
        invariant
            oids == relation_oids(spec@),
            i <= spec.relations@.len(),
            oids.len() == spec.relations@.len(),
            out@ == oids.take(i as int).to_set(),
        decreases spec.relations@.len() - i,
    {
        broadcast use vstd::std_specs::btree::group_btree_axioms;

        let ghost before = oids.take(i as int);
        out.insert(spec.relations[i].oid);
        proof {
            let after = oids.take(i + 1);
            assert(after =~= before.push(oids[i as int]));
            assert forall|x: u32| after.to_set().contains(x) <==> before.to_set().insert(
                oids[i as int],
            ).contains(x) by {
                if before.contains(x) {
                    let k = choose|k: int| 0 <= k < before.len() && before[k] == x;
                    assert(after[k] == x);
                }
                assert(after[i as int] == oids[i as int]);
            }
            assert(out@ =~= after.to_set());
        }
        i = i + 1;
    }
    assert(oids.take(oids.len() as int) =~= oids);
    out
}

/// Whether one of the relations of a view is in a set of relations.
fn meets(set: &BTreeSet<u32>, spec: &ViewSpec, Ghost(oids): Ghost<Seq<u32>>) -> (result: bool)
    requires
        set@ == oids.to_set(),
    ensures
        result == overlap(oids, relation_oids(spec@)),
{
    broadcast use vstd::std_specs::btree::group_btree_axioms;

    let ghost other = relation_oids(spec@);
    let mut i: usize = 0;
    while i < spec.relations.len()
        invariant
            set@ == oids.to_set(),
            other == relation_oids(spec@),
            i <= spec.relations@.len(),
            other.len() == spec.relations@.len(),
            forall|j: int| 0 <= j < i ==> !oids.contains(#[trigger] other[j]),
        decreases spec.relations@.len() - i,
    {
        broadcast use vstd::std_specs::btree::group_btree_axioms;

        assert(other[i as int] == spec.relations@[i as int].oid);
        if set.contains(&spec.relations[i].oid) {
            assert(oids.contains(other[i as int]));
            return true;
        }
        i = i + 1;
    }
    false
}

fn waits_shared(view: &Pending) -> (result: bool)
    ensures
        result == is_shared(view@),
{
    text::same(&view.status, "refreshing") && view.spec.is_join()
}

/// Two classes of labels become one, under the lower label.
fn unite(labels: &mut Vec<usize>, a: usize, b: usize, Ghost(pending): Ghost<Seq<WaitingModel>>)
    requires
        a < old(labels)@.len(),
        b < old(labels)@.len(),
        labelled(pending, old(labels)@, old(labels)@.len() as int),
        together(pending, a as int, b as int),
    ensures
        labelled(pending, final(labels)@, old(labels)@.len() as int),
        final(labels)@[a as int] == final(labels)@[b as int],
        forall|i: int, j: int|
            0 <= i < old(labels)@.len() && 0 <= j < old(labels)@.len() && old(labels)@[i] == old(
                labels,
            )@[j] ==> #[trigger] final(labels)@[i] == #[trigger] final(labels)@[j],
{
    let ghost before = labels@;
    let (low, high) = if labels[a] <= labels[b] {
        (labels[a], labels[b])
    } else {
        (labels[b], labels[a])
    };
    proof {
        lemma_together_back(pending, a as int, b as int);
        lemma_together_back(pending, before[a as int] as int, a as int);
        lemma_together_back(pending, before[b as int] as int, b as int);
        assert(together(pending, low as int, high as int));
    }
    let mut i: usize = 0;
    while i < labels.len()
        invariant
            labels@.len() == before.len(),
            i <= before.len(),
            forall|k: int|
                0 <= k < i ==> #[trigger] labels@[k] == if before[k] == high {
                    low
                } else {
                    before[k]
                },
            forall|k: int| i <= k < before.len() ==> #[trigger] labels@[k] == before[k],
        decreases before.len() - i,
    {
        if labels[i] == high {
            labels.set(i, low);
        }
        i = i + 1;
    }
    proof {
        assert(before[low as int] == low);
        assert forall|k: int| 0 <= k < before.len() implies (#[trigger] labels@[k]) <= k
            && labels@[labels@[k] as int] == labels@[k] && together(
            pending,
            labels@[k] as int,
            k,
        ) by {
            assert(before[k] <= k && before[before[k] as int] == before[k]);
            assert(together(pending, before[k] as int, k));
        }
    }
}

/// A label for each view: that of the first one that belongs together with it.
fn label_all(pending: &Vec<Pending>) -> (result: Vec<usize>)
    ensures
        labelled(views(pending@), result@, pending@.len() as int),
        bound_alike(views(pending@), result@, pending@.len() as int),
{
    let ghost models = views(pending@);
    let mut labels: Vec<usize> = Vec::new();
    let mut n: usize = 0;
    while n < pending.len()
        invariant
            models == views(pending@),
            models.len() == pending@.len(),
            n <= pending@.len(),
            labelled(models, labels@, n as int),
            bound_alike(models, labels@, n as int),
        decreases pending@.len() - n,
    {
        let ghost before = labels@;
        labels.push(n);
        assert(models[n as int] == pending@[n as int]@);
        assert(together(models, n as int, n as int));
        assert forall|i: int| 0 <= i < n + 1 implies (#[trigger] labels@[i]) <= i
            && labels@[labels@[i] as int] == labels@[i] && together(
            models,
            labels@[i] as int,
            i,
        ) by {
            if i < n {
                assert(labels@[i] == before[i]);
                assert(before[i] <= i);
            }
        }
        if waits_shared(&pending[n]) {
            let rels = oid_set(&pending[n].spec);
            let ghost oids = relation_oids(models[n as int].spec);
            let mut j: usize = 0;
            while j < n
                invariant
                    models == views(pending@),
                    models.len() == pending@.len(),
                    n < pending@.len(),
                    j <= n,
                    is_shared(models[n as int]),
                    oids == relation_oids(models[n as int].spec),
                    rels@ == oids.to_set(),
                    labelled(models, labels@, n + 1),
                    bound_alike(models, labels@, n as int),
                    forall|k: int|
                        0 <= k < j && binds(models[n as int], #[trigger] models[k]) ==> labels@[n
                            as int] == labels@[k],
                decreases n - j,
            {
                assert(models[j as int] == pending@[j as int]@);
                let ghost was = labels@;
                if waits_shared(&pending[j]) && meets(&rels, &pending[j].spec, Ghost(oids)) {
                    proof {
                        lemma_bound_together(models, n as int, j as int);
                    }
                    unite(&mut labels, n, j, Ghost(models));
                    proof {
                        assert forall|a: int, b: int|
                            0 <= a < n && 0 <= b < n && #[trigger] binds(
                                models[a],
                                models[b],
                            ) implies labels@[a] == labels@[b] by {
                            assert(was[a] == was[b]);
                        }
                        assert forall|k: int|
                            0 <= k < j && binds(
                                models[n as int],
                                #[trigger] models[k],
                            ) implies labels@[n as int] == labels@[k] by {
                            assert(was[n as int] == was[k]);
                        }
                    }
                }
                j = j + 1;
            }
            proof {
                assert forall|a: int, b: int|
                    0 <= a < n + 1 && 0 <= b < n + 1 && #[trigger] binds(
                        models[a],
                        models[b],
                    ) implies labels@[a] == labels@[b] by {
                    if a == n && b < n {
                        assert(binds(models[n as int], models[b]));
                    } else if b == n && a < n {
                        lemma_binds_back(models[a], models[b]);
                        assert(binds(models[n as int], models[a]));
                    }
                }
            }
        } else {
            assert forall|a: int, b: int|
                0 <= a < n + 1 && 0 <= b < n + 1 && #[trigger] binds(
                    models[a],
                    models[b],
                ) implies labels@[a] == labels@[b] by {
                assert(is_shared(models[a]) && is_shared(models[b]));
                assert(before[a] == before[b]);
            }
        }
        n = n + 1;
    }
    labels
}

/// Views rebuilt together: refreshing join views that share a shadow, directly
/// or over other views, must be re-snapshotted from the same consistent point;
/// everything else is built on its own.
pub fn group(pending: Vec<Pending>) -> (result: Vec<Vec<Pending>>)
    ensures
        group_models(result@) == groups_of(views(pending@), pending@.len()),
{
    let ghost models = views(pending@);
    let labels = label_all(&pending);
    proof {
        lemma_labels_tell(models, labels@);
    }
    let mut groups: Vec<Vec<Pending>> = Vec::new();
    // Where the group of each first view stands.
    let mut places: Vec<usize> = Vec::new();
    let mut n: usize = 0;
    let total: usize = pending.len();
    for view in it: pending
        invariant
            models == views(pending@),
            models.len() == pending@.len(),
            it.seq() == pending@,
            n == it.index(),
            total == pending@.len(),
            n <= total,
            labelled(models, labels@, total as int),
            forall|i: int, j: int|
                0 <= i < total && 0 <= j < total ==> (#[trigger] together(models, i, j)
                    <==> labels@[i] == labels@[j]),
            forall|i: int| 0 <= i < total ==> (#[trigger] leads(models, i) <==> labels@[i] == i),
            places@.len() == n,
            groups@.len() == leaders(models, n as nat).len(),
            forall|i: int|
                0 <= i < n && labels@[i] == i ==> (#[trigger] places@[i]) < groups@.len()
                    && leaders(models, n as nat)[places@[i] as int] == i,
            forall|g: int|
                0 <= g < groups@.len() ==> 0 <= #[trigger] leaders(models, n as nat)[g] < n
                    && labels@[leaders(models, n as nat)[g]] == leaders(models, n as nat)[g],
            forall|g: int, h: int|
                0 <= g < h < groups@.len() ==> #[trigger] leaders(models, n as nat)[g]
                    < #[trigger] leaders(models, n as nat)[h],
            forall|g: int|
                0 <= g < groups@.len() ==> views((#[trigger] groups@[g])@) == members(
                    models,
                    leaders(models, n as nat)[g],
                    n as nat,
                ).map_values(|i: int| models[i]),
    {
        let ghost model = view@;
        let ghost had = groups@;
        let ghost first = leaders(models, n as nat);
        let ghost next = leaders(models, (n + 1) as nat);
        assert(models[n as int] == pending@[n as int]@);
        let label = labels[n];
        assert(label <= n && labels@[label as int] == label);
        if label == n {
            places.push(groups.len());
            groups.push(vec![view]);
            proof {
                assert(leads(models, n as int));
                assert(next == first.push(n as int));
                lemma_no_member(models, n as int, n as nat);
                assert forall|g: int| 0 <= g < groups@.len() implies views((#[trigger] groups@[g])@)
                    == members(models, next[g], (n + 1) as nat).map_values(|i: int| models[i]) by {
                    if g < had.len() {
                        assert(labels@[first[g]] == first[g]);
                        assert(!together(models, first[g], n as int));
                    } else {
                        assert(together(models, n as int, n as int));
                        assert(views(groups@[g]@) =~= members(
                            models,
                            n as int,
                            (n + 1) as nat,
                        ).map_values(|i: int| models[i]));
                    }
                }
            }
        } else {
            let place = places[label];
            places.push(place);
            let ghost list = groups@[place as int]@;
            groups[place].push(view);
            proof {
                assert(!leads(models, n as int));
                assert(next == first);
                assert(groups@ =~= had.update(place as int, groups@[place as int]));
                assert forall|g: int| 0 <= g < groups@.len() implies views((#[trigger] groups@[g])@)
                    == members(models, next[g], (n + 1) as nat).map_values(|i: int| models[i]) by {
                    assert(labels@[first[g]] == first[g]);
                    if g == place {
                        assert(together(models, label as int, n as int));
                        assert(views(groups@[g]@) =~= views(list).push(model));
                        assert(views(groups@[g]@) =~= members(
                            models,
                            label as int,
                            (n + 1) as nat,
                        ).map_values(|i: int| models[i]));
                    } else {
                        assert(first[g] != label);
                        assert(!together(models, first[g], n as int));
                    }
                }
            }
        }
        n = n + 1;
    }
    assert(group_models(groups@) =~= groups_of(models, models.len()));
    groups
}

proof fn lemma_no_member(pending: Seq<WaitingModel>, i: int, n: nat)
    requires
        n <= i < pending.len(),
        forall|j: int| 0 <= j < n ==> !#[trigger] together(pending, i, j),
    ensures
        members(pending, i, n) == Seq::<int>::empty(),
    decreases n,
{
    if n > 0 {
        assert(!together(pending, i, n - 1));
        lemma_no_member(pending, i, (n - 1) as nat);
    }
}

// --- what shadows must hold ----------------------------------------------------------------

/// Names and the first `n` of others that are not yet among them.
pub open spec fn with_names(names: Seq<Seq<char>>, more: Seq<Seq<char>>, n: nat) -> Seq<Seq<char>>
    decreases n,
{
    if n == 0 {
        names
    } else {
        let before = with_names(names, more, (n - 1) as nat);
        if before.contains(more[n - 1]) {
            before
        } else {
            before.push(more[n - 1])
        }
    }
}

/// The same with the columns that the first `n` relations use, where they are
/// `relid`.
pub open spec fn with_relations(
    names: Seq<Seq<char>>,
    relations: Seq<BaseModel>,
    relid: u32,
    n: nat,
) -> Seq<Seq<char>>
    decreases n,
{
    if n == 0 {
        names
    } else {
        let before = with_relations(names, relations, relid, (n - 1) as nat);
        let rel = relations[n - 1];
        if rel.oid == relid {
            with_names(before, rel.used_columns, rel.used_columns.len())
        } else {
            before
        }
    }
}

/// The same over the first `n` views.
pub open spec fn with_specs(specs: Seq<SpecModel>, relid: u32, n: nat) -> Seq<Seq<char>>
    decreases n,
{
    if n == 0 {
        Seq::empty()
    } else {
        with_relations(
            with_specs(specs, relid, (n - 1) as nat),
            specs[n - 1].relations,
            relid,
            specs[n - 1].relations.len(),
        )
    }
}

fn add_names(names: &mut Vec<String>, more: &Vec<String>)
    ensures
        views(final(names)@) == with_names(views(old(names)@), views(more@), more@.len()),
{
    let ghost start = views(names@);
    let ghost all = views(more@);
    let mut i: usize = 0;
    while i < more.len()
        invariant
            all == views(more@),
            i <= more@.len(),
            views(names@) == with_names(start, all, i as nat),
        decreases more@.len() - i,
    {
        assert(all[i as int] == more@[i as int]@);
        if !text::contains(names, &more[i]) {
            let ghost before = views(names@);
            names.push(more[i].clone());
            assert(views(names@) =~= before.push(all[i as int]));
        }
        i = i + 1;
    }
}

fn add_relations(names: &mut Vec<String>, spec: &ViewSpec, relid: u32)
    ensures
        views(final(names)@) == with_relations(
            views(old(names)@),
            spec@.relations,
            relid,
            spec@.relations.len(),
        ),
{
    let ghost start = views(names@);
    let ghost relations = spec@.relations;
    let mut i: usize = 0;
    while i < spec.relations.len()
        invariant
            relations == spec@.relations,
            i <= spec.relations@.len(),
            views(names@) == with_relations(start, relations, relid, i as nat),
        decreases spec.relations@.len() - i,
    {
        assert(relations[i as int] == spec.relations@[i as int]@);
        if spec.relations[i].oid == relid {
            add_names(names, &spec.relations[i].used_columns);
        }
        i = i + 1;
    }
}

/// The query for the specs of every view that references a table (any status).
pub open spec fn specs_statement(relid: u32) -> StatementModel {
    StatementModel {
        sql: "SELECT v.spec FROM nabla.views v JOIN nabla.view_relations vr ON vr.view_id = v.id WHERE vr.relid = $1::oid"@,
        args: seq![ArgModel::Int8(relid as i64)],
    }
}

pub fn specs_query(relid: u32) -> (result: Statement)
    ensures
        result@ == specs_statement(relid),
{
    let s = Statement {
        sql: "SELECT v.spec FROM nabla.views v JOIN nabla.view_relations vr ON vr.view_id = v.id WHERE vr.relid = $1::oid".to_string(),
        args: vec![crate::statement::oid_arg(relid)],
    };
    assert(s@.args =~= specs_statement(relid).args);
    s
}

/// What a shadow of `relid` must hold: the union of `used_columns` over every
/// view that references the table, plus this view's own.
pub fn needed_columns(relid: u32, specs: &Vec<ViewSpec>, own: &ViewSpec) -> (result: Vec<String>)
    ensures
        views(result@) == with_relations(
            with_specs(views(specs@), relid, specs@.len()),
            own@.relations,
            relid,
            own@.relations.len(),
        ),
{
    let ghost models = views(specs@);
    let mut needed: Vec<String> = Vec::new();
    let mut i: usize = 0;
    assert(views(needed@) =~= Seq::empty());
    while i < specs.len()
        invariant
            models == views(specs@),
            i <= specs@.len(),
            views(needed@) == with_specs(models, relid, i as nat),
        decreases specs@.len() - i,
    {
        assert(models[i as int] == specs@[i as int]@);
        add_relations(&mut needed, &specs[i], relid);
        i = i + 1;
    }
    add_relations(&mut needed, own, relid);
    needed
}

// --- building a view -------------------------------------------------------------------------

/// Whether a view is built anew: a definition that was built before.
pub open spec fn rebuilds(view: WaitingModel) -> bool {
    view.status == "refreshing"@ && view.populated
}

pub fn is_rebuild(view: &Pending) -> (result: bool)
    ensures
        result == rebuilds(view@),
{
    text::same(&view.status, "refreshing") && view.populated
}

/// A rebuild stores the regenerated spec (types, used columns), given as JSON.
pub open spec fn spec_statement(view_id: i32, spec_json: Seq<char>) -> StatementModel {
    StatementModel {
        sql: "UPDATE nabla.views SET spec = $2::jsonb WHERE id = $1"@,
        args: seq![ArgModel::Int4(view_id), ArgModel::Text(Some(spec_json))],
    }
}

pub open spec fn failed_statement(view_id: i32, message: Seq<char>) -> StatementModel {
    StatementModel {
        sql: "UPDATE nabla.views SET status = 'failed', last_error = $2, last_error_at = now() WHERE id = $1"@,
        args: seq![ArgModel::Int4(view_id), ArgModel::Text(Some(message))],
    }
}

fn with_id(sql: &str, view_id: i32, value: &str) -> (result: Statement)
    ensures
        result@ == (StatementModel {
            sql: sql@,
            args: seq![ArgModel::Int4(view_id), ArgModel::Text(Some(value@))],
        }),
{
    let s = Statement { sql: sql.to_string(), args: vec![Arg::Int4(view_id), text_arg(value)] };
    assert(s@.args =~= seq![ArgModel::Int4(view_id), ArgModel::Text(Some(value@))]);
    s
}

/// The relations among the first `n` whose shadows have not been built yet, by
/// their positions.
pub open spec fn missing_shadows(relations: Seq<BaseModel>, done: Set<u32>, n: nat) -> Seq<int>
    decreases n,
{
    if n == 0 {
        Seq::empty()
    } else {
        let before = missing_shadows(relations, done, (n - 1) as nat);
        if built_after(relations, done, (n - 1) as nat).contains(relations[n - 1].oid) {
            before
        } else {
            before.push(n - 1)
        }
    }
}

/// The relations whose shadows are built after the first `n` were looked at.
pub open spec fn built_after(relations: Seq<BaseModel>, done: Set<u32>, n: nat) -> Set<u32>
    decreases n,
{
    if n == 0 {
        done
    } else {
        built_after(relations, done, (n - 1) as nat).insert(relations[n - 1].oid)
    }
}

/// The shadows that the build of a view brings about: none for a single table;
/// every relation of a join whose shadow was not built for an earlier view of
/// the group.
pub fn shadows_to_build(spec: &ViewSpec, done: &mut BTreeSet<u32>) -> (result: Vec<usize>)
    ensures
        spec@.relations.len() > 1 ==> result@.map_values(|i: usize| i as int) == missing_shadows(
            spec@.relations,
            old(done)@,
            spec@.relations.len(),
        ) && final(done)@ == built_after(spec@.relations, old(done)@, spec@.relations.len()),
        spec@.relations.len() <= 1 ==> result@.len() == 0 && final(done)@ == old(done)@,
        forall|k: int| 0 <= k < result@.len() ==> (#[trigger] result@[k]) < spec.relations@.len(),
{
    let mut out: Vec<usize> = Vec::new();
    if !spec.is_join() {
        return out;
    }
    let ghost relations = spec@.relations;
    let ghost start = done@;
    let mut i: usize = 0;
    assert(out@.map_values(|k: usize| k as int) =~= Seq::empty());
    while i < spec.relations.len()
        invariant
            relations == spec@.relations,
            i <= spec.relations@.len(),
            done@ == built_after(relations, start, i as nat),
            out@.map_values(|k: usize| k as int) == missing_shadows(relations, start, i as nat),
            forall|k: int| 0 <= k < out@.len() ==> (#[trigger] out@[k]) < spec.relations@.len(),
        decreases spec.relations@.len() - i,
    {
        broadcast use vstd::std_specs::btree::group_btree_axioms;

        assert(relations[i as int] == spec.relations@[i as int]@);
        let oid: u32 = spec.relations[i].oid;
        let ghost built = done@;
        let first = done.insert(oid);
        assert(done@ =~= built.insert(oid));
        if first {
            let ghost before = out@.map_values(|k: usize| k as int);
            out.push(i);
            assert(out@.map_values(|k: usize| k as int) =~= before.push(i as int));
        }
        i = i + 1;
    }
    out
}

/// The statements that fill the storage table. DELETE, not TRUNCATE: readers
/// keep seeing the old rows under MVCC until the transaction commits, never an
/// empty table.
pub open spec fn fill_statements(
    view: WaitingModel,
    spec: SpecModel,
    exists_already: bool,
    quoting: spec_fn(Seq<char>) -> Seq<char>,
) -> Seq<StatementModel> {
    let storage = stored_as(view.id);
    if exists_already {
        seq![
            bare("DELETE FROM "@ + storage),
            bare("INSERT INTO "@ + storage + " "@ + spec.populate_sql),
        ]
    } else {
        let ddl = ddl_of(storage, spec, quoting);
        seq![
            bare("CREATE TABLE "@ + storage + " AS "@ + spec.populate_sql),
            bare(ddl[0]),
            bare(ddl[1]),
            bare(ddl[2]),
        ]
    }
}

/// The statements that put a plain VIEW exposing the visible columns in front
/// of a new storage table. The VIEW is created once and survives every rebuild.
pub open spec fn expose_statements(
    view: WaitingModel,
    spec: SpecModel,
    quoting: spec_fn(Seq<char>) -> Seq<char>,
) -> Seq<StatementModel> {
    seq![
        bare(
            "CREATE VIEW "@ + view.name + " AS SELECT "@ + joined(
                spec.visible_columns.map_values(|c: Seq<char>| quoting(c)),
                ", "@,
            ) + " FROM "@ + stored_as(view.id),
        ),
        StatementModel {
            sql: "UPDATE nabla.views SET relid = pg_catalog.to_regclass($2)::oid WHERE id = $1"@,
            args: seq![ArgModel::Int4(view.id), ArgModel::Text(Some(view.name))],
        },
    ]
}

/// The statements that make a built view live at the consistent point, with an
/// empty log. A rebuild begins a new epoch.
pub open spec fn live_statements(view: WaitingModel, consistent_point: u64) -> Seq<
    StatementModel,
> {
    seq![
        StatementModel {
            sql: "UPDATE nabla.views SET frontier_lsn = $1::pg_lsn, epoch = epoch + $2, status = 'live', apply_failures = 0, last_error = NULL, last_error_at = NULL, stale_reason = NULL, populated_at = coalesce(populated_at, now()) WHERE id = $3"@,
            args: seq![
                ArgModel::Text(Some(lsn::formatted(consistent_point))),
                ArgModel::Int4(
                    if rebuilds(view) {
                        1
                    } else {
                        0
                    },
                ),
                ArgModel::Int4(view.id),
            ],
        },
        StatementModel {
            sql: "DELETE FROM nabla.deltas WHERE view_id = $1"@,
            args: seq![ArgModel::Int4(view.id)],
        },
    ]
}

/// What the build of a view runs: the statements that fill its storage table;
/// those behind them, once the dependencies of a new table are recorded; and
/// those that make it live.
pub struct BuildPlan {
    pub fill: Vec<Statement>,
    /// A new storage table depends on its base tables, like a SQL view does.
    pub new_table: bool,
    pub expose: Vec<Statement>,
    pub live: Vec<Statement>,
}

pub fn build(
    view: &Pending,
    spec: &ViewSpec,
    exists_already: bool,
    consistent_point: u64,
    quoting: &Quoting,
) -> (result: BuildPlan)
    ensures
        views(result.fill@) == fill_statements(view@, spec@, exists_already, quoting@),
        result.new_table == !exists_already,
        views(result.expose@) == if exists_already {
            Seq::empty()
        } else {
            expose_statements(view@, spec@, quoting@)
        },
        views(result.live@) == live_statements(view@, consistent_point),
{
    let storage = storage_name(view.id);
    let fill = if exists_already {
        let out = vec![
            Statement::bare("DELETE FROM ".to_string().concat(&storage)),
            Statement::bare(
                "INSERT INTO ".to_string().concat(&storage).concat(" ").concat(&spec.populate_sql),
            ),
        ];
        assert(views(out@) =~= fill_statements(view@, spec@, exists_already, quoting@));
        out
    } else {
        let ddl = view_ddl(&storage, spec, quoting);
        assert(views(ddl@).len() == 3);
        assert(ddl@[0]@ == views(ddl@)[0]);
        assert(ddl@[1]@ == views(ddl@)[1]);
        assert(ddl@[2]@ == views(ddl@)[2]);
        let out = vec![
            Statement::bare(
                "CREATE TABLE ".to_string().concat(&storage).concat(" AS ").concat(
                    &spec.populate_sql,
                ),
            ),
            Statement::bare(ddl[0].clone()),
            Statement::bare(ddl[1].clone()),
            Statement::bare(ddl[2].clone()),
        ];
        assert(views(out@) =~= fill_statements(view@, spec@, exists_already, quoting@));
        out
    };
    let expose = if exists_already {
        let none: Vec<Statement> = Vec::new();
        assert(views(none@) =~= Seq::empty());
        none
    } else {
        let mut columns: Vec<String> = Vec::new();
        let mut i: usize = 0;
        while i < spec.visible_columns.len()
            invariant
                i <= spec.visible_columns@.len(),
                columns@.len() == i,
                forall|j: int|
                    0 <= j < i ==> (#[trigger] columns@[j])@ == quoting@(
                        spec.visible_columns@[j]@,
                    ),
            decreases spec.visible_columns@.len() - i,
        {
            columns.push(quoting.ident(&spec.visible_columns[i]));
            i = i + 1;
        }
        assert(views(columns@) =~= spec@.visible_columns.map_values(
            |c: Seq<char>| quoting@(c),
        ));
        let out = vec![
            Statement::bare(
                "CREATE VIEW ".to_string().concat(&view.name).concat(" AS SELECT ").concat(
                    &text::join(&columns, ", "),
                ).concat(" FROM ").concat(&storage),
            ),
            with_id(
                "UPDATE nabla.views SET relid = pg_catalog.to_regclass($2)::oid WHERE id = $1",
                view.id,
                &view.name,
            ),
        ];
        assert(views(out@) =~= expose_statements(view@, spec@, quoting@));
        out
    };
    let bump: i32 = if is_rebuild(view) {
        1
    } else {
        0
    };
    let live_update = Statement {
        sql: "UPDATE nabla.views SET frontier_lsn = $1::pg_lsn, epoch = epoch + $2, status = 'live', apply_failures = 0, last_error = NULL, last_error_at = NULL, stale_reason = NULL, populated_at = coalesce(populated_at, now()) WHERE id = $3".to_string(),
        args: vec![
            Arg::Text(Some(lsn::format(consistent_point))),
            Arg::Int4(bump),
            Arg::Int4(view.id),
        ],
    };
    let clear = Statement {
        sql: "DELETE FROM nabla.deltas WHERE view_id = $1".to_string(),
        args: vec![Arg::Int4(view.id)],
    };
    let ghost model = live_statements(view@, consistent_point);
    assert(live_update@.args =~= model[0].args);
    assert(clear@.args =~= model[1].args);
    let live = vec![live_update, clear];
    assert(views(live@) =~= model);
    BuildPlan { fill, new_table: !exists_already, expose, live }
}

// --- groups under one snapshot -----------------------------------------------------------------

/// The temporary slot under which a group is populated.
pub fn init_slot_name(view_id: i32) -> (result: String)
    ensures
        result@ == "nabla_init_"@ + signed_decimal(view_id as int),
{
    "nabla_init_".to_string().concat(&text::signed_text(view_id as i64))
}

/// Invariant: the main slot has not advanced past the consistent point, so
/// everything after it will still be decoded for these views.
pub fn check_main_slot(main: Option<u64>, consistent_point: u64) -> (result: Result<(), String>)
    ensures
        match result {
            Ok(()) => main matches Some(at) ==> at <= consistent_point,
            Err(e) => main matches Some(at) && at > consistent_point && e@ == "main slot at "@
                + lsn::formatted(at) + " is past the consistent point "@ + lsn::formatted(
                consistent_point,
            ),
        },
{
    match main {
        Some(at) => if at > consistent_point {
            Err(
                "main slot at ".to_string().concat(&lsn::format(at)).concat(
                    " is past the consistent point ",
                ).concat(&lsn::format(consistent_point)),
            )
        } else {
            Ok(())
        },
        None => Ok(()),
    }
}

/// The next part of a delay that is slept in parts of at most 100 ms.
pub fn delay_step(left_ms: u64) -> (result: u64)
    ensures
        result <= left_ms,
        result <= 100,
        result == left_ms || result == 100,
{
    if left_ms < 100 {
        left_ms
    } else {
        100
    }
}

/// The population of a group failed: none of its views is built.
pub fn record_failure(group: &Vec<Pending>, message: &str) -> (result: Vec<Statement>)
    ensures
        views(result@) == views(group@).map_values(
            |v: WaitingModel| failed_statement(v.id, message@),
        ),
{
    let mut out: Vec<Statement> = Vec::new();
    let mut i: usize = 0;
    while i < group.len()
        invariant
            i <= group@.len(),
            out@.len() == i,
            forall|j: int|
                0 <= j < i ==> (#[trigger] out@[j])@ == failed_statement(
                    group@[j].id,
                    message@,
                ),
        decreases group@.len() - i,
    {
        out.push(
            with_id(
                "UPDATE nabla.views SET status = 'failed', last_error = $2, last_error_at = now() WHERE id = $1",
                group[i].id,
                message,
            ),
        );
        i = i + 1;
    }
    assert(views(out@) =~= views(group@).map_values(
        |v: WaitingModel| failed_statement(v.id, message@),
    ));
    out
}

// --- the population of a group -------------------------------------------------------------------

/// The population of a group of views in one transaction, under one snapshot.
/// It decides; what it asks for is run outside and its reply handed back.
pub struct Population {
    pub group: Vec<Pending>,
    /// The point that the snapshot is consistent with.
    pub point: u64,
    /// The relations whose shadows were built for the group.
    pub done: BTreeSet<u32>,
    /// The view at hand.
    pub index: usize,
    /// The regenerated spec of the view at hand, where it is rebuilt.
    pub rebuilt: Option<ViewSpec>,
    /// The relations of the view at hand whose shadows are to be built.
    pub todo: Vec<usize>,
    pub position: usize,
    /// What the operator is to be told.
    pub log: Vec<Notice>,
}

pub struct PopulationModel {
    pub group: Seq<WaitingModel>,
    pub point: u64,
    pub done: Set<u32>,
    pub index: nat,
    pub rebuilt: Option<SpecModel>,
    pub todo: Seq<int>,
    pub position: nat,
    pub log: Seq<NoticeModel>,
}

impl View for Population {
    type V = PopulationModel;

    open spec fn view(&self) -> PopulationModel {
        PopulationModel {
            group: views(self.group@),
            point: self.point,
            done: self.done@,
            index: self.index as nat,
            rebuilt: view_of_option(self.rebuilt),
            todo: self.todo@.map_values(|i: usize| i as int),
            position: self.position as nat,
            log: views(self.log@),
        }
    }
}

/// What the population asks for.
#[allow(inconsistent_fields)]
pub enum BuildAsk {
    /// Validate a definition against the current schema, in a subtransaction.
    Validate { definition: String },
    /// The specs of every view over a relation.
    Specs { query: Statement },
    /// Build the shadow of a relation (by its position in the spec) at the
    /// point, holding the needed columns: a rebuild snapshots it anew
    /// (`shadow::rebuild`), a first build extends an existing healthy one,
    /// never re-snapshotting it (`shadow::ensure_at`).
    Shadow { relation: usize, rebuild: bool, point: u64, needed: Vec<String> },
    /// Whether the storage table exists.
    Exists { query: Statement },
    /// Record the dependencies of the new storage table on these tables.
    Depend { storage: String, oids: Vec<u32> },
    Done,
}

#[allow(inconsistent_fields)]
pub enum BuildAskModel {
    Validate { definition: Seq<char> },
    Specs { query: StatementModel },
    Shadow { relation: int, rebuild: bool, point: u64, needed: Seq<Seq<char>> },
    Exists { query: StatementModel },
    Depend { storage: Seq<char>, oids: Seq<u32> },
    Done,
}

impl View for BuildAsk {
    type V = BuildAskModel;

    open spec fn view(&self) -> BuildAskModel {
        match self {
            BuildAsk::Validate { definition } => BuildAskModel::Validate {
                definition: definition@,
            },
            BuildAsk::Specs { query } => BuildAskModel::Specs { query: query@ },
            BuildAsk::Shadow { relation, rebuild, point, needed } => BuildAskModel::Shadow {
                relation: *relation as int,
                rebuild: *rebuild,
                point: *point,
                needed: views(needed@),
            },
            BuildAsk::Exists { query } => BuildAskModel::Exists { query: query@ },
            BuildAsk::Depend { storage, oids } => BuildAskModel::Depend {
                storage: storage@,
                oids: oids@,
            },
            BuildAsk::Done => BuildAskModel::Done,
        }
    }
}

/// A step of the population: the state afterwards, the statements to run, and
/// what is asked for then.
pub struct BuildStep {
    pub state: PopulationModel,
    pub statements: Seq<StatementModel>,
    pub ask: BuildAskModel,
}

/// The spec that the view at hand is built from.
pub open spec fn current_spec(m: PopulationModel) -> SpecModel {
    match m.rebuilt {
        Some(spec) => spec,
        None => m.group[m.index as int].spec,
    }
}

pub open spec fn exists_statement(view_id: i32) -> StatementModel {
    StatementModel {
        sql: "SELECT pg_catalog.to_regclass($1)::text"@,
        args: seq![ArgModel::Text(Some(stored_as(view_id)))],
    }
}

/// The next shadow of the view at hand, or its storage table.
pub open spec fn next_shadow(m: PopulationModel, statements: Seq<StatementModel>) -> BuildStep {
    if m.position < m.todo.len() {
        BuildStep {
            state: m,
            statements,
            ask: BuildAskModel::Specs {
                query: specs_statement(
                    current_spec(m).relations[m.todo[m.position as int]].oid,
                ),
            },
        }
    } else {
        BuildStep {
            state: m,
            statements,
            ask: BuildAskModel::Exists { query: exists_statement(m.group[m.index as int].id) },
        }
    }
}

/// The shadows of the view at hand come first: none for a single table; every
/// relation of a join whose shadow was not built for an earlier view.
pub open spec fn begin_shadows(m: PopulationModel, statements: Seq<StatementModel>) -> BuildStep {
    let relations = current_spec(m).relations;
    let n = relations.len();
    next_shadow(
        if n > 1 {
            PopulationModel {
                todo: missing_shadows(relations, m.done, n),
                done: built_after(relations, m.done, n),
                position: 0,
                ..m
            }
        } else {
            PopulationModel { todo: Seq::empty(), position: 0, ..m }
        },
        statements,
    )
}

/// The view at hand is begun; a rebuild re-validates its definition first.
pub open spec fn begin_view(m: PopulationModel, before: Seq<StatementModel>) -> BuildStep {
    let m1 = PopulationModel { rebuilt: None, ..m };
    if m.index >= m.group.len() {
        BuildStep { state: m1, statements: before, ask: BuildAskModel::Done }
    } else {
        let v = m.group[m.index as int];
        let statements = before.push(bare("SET LOCAL nabla.internal_write = on"@));
        if rebuilds(v) {
            BuildStep {
                state: m1,
                statements,
                ask: BuildAskModel::Validate { definition: v.definition },
            }
        } else {
            begin_shadows(m1, statements)
        }
    }
}

pub open spec fn next_view(m: PopulationModel, before: Seq<StatementModel>) -> BuildStep {
    begin_view(PopulationModel { index: m.index + 1, ..m }, before)
}

/// What the operator is told of a rebuild that failed.
pub open spec fn rebuild_notice(name: Seq<char>, message: Seq<char>) -> NoticeModel {
    warning("nabla worker: rebuild of "@ + name + " failed: "@ + message)
}

/// The definition was validated: the regenerated spec and its JSON, or why
/// there is none. A failure is the view's alone.
pub open spec fn after_validation(
    m: PopulationModel,
    outcome: Result<(SpecModel, Seq<char>), Seq<char>>,
) -> BuildStep {
    let id = m.group[m.index as int].id;
    match outcome {
        Ok((spec, json)) => begin_shadows(
            PopulationModel { rebuilt: Some(spec), ..m },
            seq![spec_statement(id, json)],
        ),
        Err(message) => next_view(
            PopulationModel {
                log: m.log.push(rebuild_notice(m.group[m.index as int].name, message)),
                ..m
            },
            seq![failed_statement(id, message)],
        ),
    }
}

/// The specs of the views over the relation at hand were read.
pub open spec fn after_specs(m: PopulationModel, specs: Seq<SpecModel>) -> BuildStep {
    let own = current_spec(m);
    let relation = m.todo[m.position as int];
    let relid = own.relations[relation].oid;
    BuildStep {
        state: m,
        statements: Seq::empty(),
        ask: BuildAskModel::Shadow {
            relation,
            rebuild: rebuilds(m.group[m.index as int]),
            point: m.point,
            needed: with_relations(
                with_specs(specs, relid, specs.len()),
                own.relations,
                relid,
                own.relations.len(),
            ),
        },
    }
}

/// The shadow at hand was built.
pub open spec fn after_shadow(m: PopulationModel) -> BuildStep {
    next_shadow(PopulationModel { position: m.position + 1, ..m }, Seq::empty())
}

/// It is known whether the storage table exists.
pub open spec fn after_exists(
    m: PopulationModel,
    exists_already: bool,
    quoting: spec_fn(Seq<char>) -> Seq<char>,
) -> BuildStep {
    let v = m.group[m.index as int];
    let spec = current_spec(m);
    let fill = fill_statements(v, spec, exists_already, quoting);
    if exists_already {
        next_view(m, fill + live_statements(v, m.point))
    } else {
        BuildStep {
            state: m,
            statements: fill,
            ask: BuildAskModel::Depend {
                storage: stored_as(v.id),
                oids: relation_oids(spec),
            },
        }
    }
}

/// The dependencies of a new storage table were recorded.
pub open spec fn after_depend(m: PopulationModel, quoting: spec_fn(Seq<char>) -> Seq<char>) ->
    BuildStep {
    let v = m.group[m.index as int];
    next_view(
        m,
        expose_statements(v, current_spec(m), quoting) + live_statements(v, m.point),
    )
}

/// A population whose positions are in range.
pub open spec fn populating(m: PopulationModel) -> bool {
    &&& m.index < m.group.len()
    &&& m.position <= m.todo.len()
    &&& forall|i: int|
        0 <= i < m.todo.len() ==> 0 <= #[trigger] m.todo[i] < current_spec(m).relations.len()
}

/// Populate one group in one transaction under a consistent snapshot: the
/// transaction took no snapshot before, and the main slot has not advanced
/// past the consistent point.
pub fn populate_group(
    group: Vec<Pending>,
    snapshot_taken: bool,
    main: Option<u64>,
    consistent_point: u64,
) -> (result: Result<Population, String>)
    ensures
        match result {
            Ok(p) => !snapshot_taken && (main matches Some(at) ==> at <= consistent_point) && p@
                == (PopulationModel {
                group: views(group@),
                point: consistent_point,
                done: Set::empty(),
                index: 0,
                rebuilt: None,
                todo: Seq::empty(),
                position: 0,
                log: Seq::empty(),
            }),
            Err(e) => if snapshot_taken {
                e@ == "a snapshot was already taken in the population transaction"@
            } else {
                main matches Some(at) && at > consistent_point && e@ == "main slot at "@
                    + lsn::formatted(at) + " is past the consistent point "@ + lsn::formatted(
                    consistent_point,
                )
            },
        },
{
    if snapshot_taken {
        return Err("a snapshot was already taken in the population transaction".to_string());
    }
    match check_main_slot(main, consistent_point) {
        Ok(()) => {},
        Err(e) => return Err(e),
    }
    let p = Population {
        group,
        point: consistent_point,
        done: BTreeSet::new(),
        index: 0,
        rebuilt: None,
        todo: Vec::new(),
        position: 0,
        log: Vec::new(),
    };
    assert(p@.log =~= Seq::empty());
    assert(p@.todo =~= Seq::empty());
    Ok(p)
}

/// The statements and the ask of a step.
pub open spec fn takes(before: BuildStep, state: PopulationModel, result: (Vec<Statement>, BuildAsk)) ->
    bool {
    before.state == state && before.statements == views((result.0)@) && before.ask == (result.1)@
}

impl Population {
    fn next_shadow(&self, statements: Vec<Statement>) -> (result: (Vec<Statement>, BuildAsk))
        requires
            populating(self@),
        ensures
            takes(next_shadow(self@, views(statements@)), self@, result),
    {
        let view = &self.group[self.index];
        assert(self@.group[self.index as int] == view@);
        let spec = match &self.rebuilt {
            Some(spec) => spec,
            None => &view.spec,
        };
        if self.position < self.todo.len() {
            let r: usize = self.todo[self.position];
            assert(self@.todo[self.position as int] == r);
            assert(spec@.relations[r as int] == spec.relations@[r as int]@);
            return (statements, BuildAsk::Specs { query: specs_query(spec.relations[r].oid) });
        }
        let query = Statement {
            sql: "SELECT pg_catalog.to_regclass($1)::text".to_string(),
            args: vec![Arg::Text(Some(storage_name(view.id)))],
        };
        assert(query@.args =~= exists_statement(view.id).args);
        (statements, BuildAsk::Exists { query })
    }

    fn begin_shadows(&mut self, statements: Vec<Statement>) -> (result: (Vec<Statement>, BuildAsk))
        requires
            old(self)@.index < old(self)@.group.len(),
        ensures
            takes(begin_shadows(old(self)@, views(statements@)), final(self)@, result),
            populating(final(self)@),
            (result.1)@ is Specs ==> final(self)@.position < final(self)@.todo.len(),
    {
        let ghost m = self@;
        assert(m.group[self.index as int] == self.group@[self.index as int]@);
        let spec = match &self.rebuilt {
            Some(spec) => spec,
            None => &self.group[self.index].spec,
        };
        self.todo = shadows_to_build(spec, &mut self.done);
        self.position = 0;
        proof {
            if current_spec(m).relations.len() <= 1 {
                assert(self@.todo =~= Seq::empty());
            }
            assert forall|i: int| 0 <= i < self@.todo.len() implies 0 <= #[trigger] self@.todo[i]
                < current_spec(self@).relations.len() by {
                assert(self@.todo[i] == self.todo@[i]);
            }
        }
        self.next_shadow(statements)
    }

    fn begin_view(&mut self, before: Vec<Statement>) -> (result: (Vec<Statement>, BuildAsk))
        ensures
            takes(begin_view(old(self)@, views(before@)), final(self)@, result),
            (result.1)@ != BuildAskModel::Done ==> final(self)@.index < final(self)@.group.len(),
            (result.1)@ is Specs || (result.1)@ is Exists ==> populating(final(self)@),
            (result.1)@ is Specs ==> final(self)@.position < final(self)@.todo.len(),
    {
        self.rebuilt = None;
        if self.index >= self.group.len() {
            return (before, BuildAsk::Done);
        }
        let ghost m = self@;
        assert(m.group[self.index as int] == self.group@[self.index as int]@);
        let mut statements = before;
        let ghost had = views(statements@);
        statements.push(Statement::bare("SET LOCAL nabla.internal_write = on".to_string()));
        assert(views(statements@) =~= had.push(bare("SET LOCAL nabla.internal_write = on"@)));
        if is_rebuild(&self.group[self.index]) {
            let definition = self.group[self.index].definition.clone();
            return (statements, BuildAsk::Validate { definition });
        }
        self.begin_shadows(statements)
    }

    fn next_view(&mut self, before: Vec<Statement>) -> (result: (Vec<Statement>, BuildAsk))
        requires
            old(self)@.index < old(self)@.group.len(),
        ensures
            takes(next_view(old(self)@, views(before@)), final(self)@, result),
            (result.1)@ != BuildAskModel::Done ==> final(self)@.index < final(self)@.group.len(),
            (result.1)@ is Specs || (result.1)@ is Exists ==> populating(final(self)@),
            (result.1)@ is Specs ==> final(self)@.position < final(self)@.todo.len(),
    {
        assert(self.group.len() == self.group@.len());
        self.index = self.index + 1;
        self.begin_view(before)
    }

    /// Begin with the first view.
    pub fn start(&mut self) -> (result: (Vec<Statement>, BuildAsk))
        ensures
            takes(begin_view(old(self)@, Seq::empty()), final(self)@, result),
            (result.1)@ != BuildAskModel::Done ==> final(self)@.index < final(self)@.group.len(),
            (result.1)@ is Specs || (result.1)@ is Exists ==> populating(final(self)@),
            (result.1)@ is Specs ==> final(self)@.position < final(self)@.todo.len(),
    {
        let none: Vec<Statement> = Vec::new();
        assert(views(none@) =~= Seq::empty());
        self.begin_view(none)
    }

    /// The definition was validated: the regenerated spec and its JSON, or why
    /// there is none.
    pub fn validated(&mut self, outcome: Result<(ViewSpec, String), String>) -> (result: (
        Vec<Statement>,
        BuildAsk,
    ))
        requires
            old(self)@.index < old(self)@.group.len(),
        ensures
            takes(
                after_validation(
                    old(self)@,
                    match outcome {
                        Ok((spec, json)) => Ok((spec@, json@)),
                        Err(message) => Err(message@),
                    },
                ),
                final(self)@,
                result,
            ),
            (result.1)@ != BuildAskModel::Done ==> final(self)@.index < final(self)@.group.len(),
            (result.1)@ is Specs || (result.1)@ is Exists ==> populating(final(self)@),
            (result.1)@ is Specs ==> final(self)@.position < final(self)@.todo.len(),
    {
        let id: i32 = self.group[self.index].id;
        assert(self@.group[self.index as int] == self.group@[self.index as int]@);
        match outcome {
            Ok((spec, json)) => {
                let statements = vec![
                    with_id("UPDATE nabla.views SET spec = $2::jsonb WHERE id = $1", id, &json),
                ];
                assert(views(statements@) =~= seq![spec_statement(id, json@)]);
                self.rebuilt = Some(spec);
                self.begin_shadows(statements)
            },
            Err(message) => {
                let statements = vec![
                    with_id(
                        "UPDATE nabla.views SET status = 'failed', last_error = $2, last_error_at = now() WHERE id = $1",
                        id,
                        &message,
                    ),
                ];
                assert(views(statements@) =~= seq![failed_statement(id, message@)]);
                let notice = Notice::warning(
                    "nabla worker: rebuild of ".to_string().concat(
                        &self.group[self.index].name,
                    ).concat(" failed: ").concat(&message),
                );
                push_notice(&mut self.log, notice);
                self.next_view(statements)
            },
        }
    }

    /// The specs of the views over the relation at hand were read.
    pub fn specs(&self, specs: &Vec<ViewSpec>) -> (result: (Vec<Statement>, BuildAsk))
        requires
            populating(self@),
            self@.position < self@.todo.len(),
        ensures
            takes(after_specs(self@, views(specs@)), self@, result),
    {
        let view = &self.group[self.index];
        assert(self@.group[self.index as int] == view@);
        let spec = match &self.rebuilt {
            Some(spec) => spec,
            None => &view.spec,
        };
        let relation: usize = self.todo[self.position];
        assert(self@.todo[self.position as int] == relation);
        assert(spec@.relations[relation as int] == spec.relations@[relation as int]@);
        let needed = needed_columns(spec.relations[relation].oid, specs, spec);
        let none: Vec<Statement> = Vec::new();
        assert(views(none@) =~= Seq::empty());
        (none, BuildAsk::Shadow { relation, rebuild: is_rebuild(view), point: self.point, needed })
    }

    /// The shadow at hand was built.
    pub fn shadow_built(&mut self) -> (result: (Vec<Statement>, BuildAsk))
        requires
            populating(old(self)@),
            old(self)@.position < old(self)@.todo.len(),
        ensures
            takes(after_shadow(old(self)@), final(self)@, result),
            populating(final(self)@),
            (result.1)@ is Specs ==> final(self)@.position < final(self)@.todo.len(),
    {
        assert(self.todo.len() == self.todo@.len());
        self.position = self.position + 1;
        let none: Vec<Statement> = Vec::new();
        assert(views(none@) =~= Seq::empty());
        self.next_shadow(none)
    }

    /// It is known whether the storage table exists.
    pub fn storage_found(&mut self, exists_already: bool, quoting: &Quoting) -> (result: (
        Vec<Statement>,
        BuildAsk,
    ))
        requires
            old(self)@.index < old(self)@.group.len(),
        ensures
            takes(after_exists(old(self)@, exists_already, quoting@), final(self)@, result),
            (result.1)@ != BuildAskModel::Done ==> final(self)@.index < final(self)@.group.len(),
            (result.1)@ is Specs || (result.1)@ is Exists ==> populating(final(self)@),
            (result.1)@ is Specs ==> final(self)@.position < final(self)@.todo.len(),
    {
        let ghost m = self@;
        let view = &self.group[self.index];
        assert(m.group[self.index as int] == view@);
        let spec = match &self.rebuilt {
            Some(spec) => spec,
            None => &view.spec,
        };
        let plan = build(view, spec, exists_already, self.point, quoting);
        if exists_already {
            let mut statements = plan.fill;
            let mut live = plan.live;
            let ghost first = views(statements@);
            let ghost second = views(live@);
            statements.append(&mut live);
            assert(views(statements@) =~= first + second);
            return self.next_view(statements);
        }
        let oids = oids_of(spec);
        let storage = storage_name(view.id);
        (plan.fill, BuildAsk::Depend { storage, oids })
    }

    /// The dependencies of the new storage table were recorded.
    pub fn depended(&mut self, quoting: &Quoting) -> (result: (Vec<Statement>, BuildAsk))
        requires
            old(self)@.index < old(self)@.group.len(),
        ensures
            takes(after_depend(old(self)@, quoting@), final(self)@, result),
            (result.1)@ != BuildAskModel::Done ==> final(self)@.index < final(self)@.group.len(),
            (result.1)@ is Specs || (result.1)@ is Exists ==> populating(final(self)@),
            (result.1)@ is Specs ==> final(self)@.position < final(self)@.todo.len(),
    {
        let ghost m = self@;
        let view = &self.group[self.index];
        assert(m.group[self.index as int] == view@);
        let spec = match &self.rebuilt {
            Some(spec) => spec,
            None => &view.spec,
        };
        let plan = build(view, spec, false, self.point, quoting);
        let mut statements = plan.expose;
        let mut live = plan.live;
        let ghost first = views(statements@);
        let ghost second = views(live@);
        statements.append(&mut live);
        assert(views(statements@) =~= first + second);
        self.next_view(statements)
    }
}

// --- laws --------------------------------------------------------------------------------------

/// Whether a group holds a view, by position.
pub open spec fn holds(pending: Seq<WaitingModel>, g: int, i: int) -> bool {
    positions(pending, pending.len())[g].contains(i)
}

/// Whether some group holds a view.
pub open spec fn is_held(pending: Seq<WaitingModel>, i: int) -> bool {
    exists|g: int| 0 <= g < positions(pending, pending.len()).len() && #[trigger] holds(pending, g, i)
}

proof fn lemma_leaders(pending: Seq<WaitingModel>, n: nat)
    ensures
        forall|i: int| #[trigger] leaders(pending, n).contains(i) <==> 0 <= i < n && leads(pending, i),
        forall|g: int, h: int|
            0 <= g < h < leaders(pending, n).len() ==> #[trigger] leaders(pending, n)[g]
                < #[trigger] leaders(pending, n)[h],
    decreases n,
{
    if n > 0 {
        lemma_leaders(pending, (n - 1) as nat);
        let before = leaders(pending, (n - 1) as nat);
        let after = leaders(pending, n);
        assert forall|i: int| #[trigger] after.contains(i) <==> 0 <= i < n && leads(pending, i) by {
            assert(before.contains(i) <==> 0 <= i < n - 1 && leads(pending, i));
            if before.contains(i) {
                let k = choose|k: int| 0 <= k < before.len() && before[k] == i;
                assert(after[k] == i);
            }
            if i == n - 1 && leads(pending, i) {
                assert(after[before.len() as int] == i);
            }
        }
        assert forall|g: int, h: int| 0 <= g < h < after.len() implies #[trigger] after[g]
            < #[trigger] after[h] by {
            assert(before.contains(before[g]));
        }
    }
}

proof fn lemma_members(pending: Seq<WaitingModel>, i: int, n: nat)
    ensures
        forall|j: int|
            #[trigger] members(pending, i, n).contains(j) <==> 0 <= j < n && together(pending, i, j),
        forall|g: int, h: int|
            0 <= g < h < members(pending, i, n).len() ==> #[trigger] members(pending, i, n)[g]
                < #[trigger] members(pending, i, n)[h],
    decreases n,
{
    if n > 0 {
        lemma_members(pending, i, (n - 1) as nat);
        let before = members(pending, i, (n - 1) as nat);
        let after = members(pending, i, n);
        assert forall|j: int| #[trigger] after.contains(j) <==> 0 <= j < n && together(pending, i, j) by {
            assert(before.contains(j) <==> 0 <= j < n - 1 && together(pending, i, j));
            if before.contains(j) {
                let k = choose|k: int| 0 <= k < before.len() && before[k] == j;
                assert(after[k] == j);
            }
            if j == n - 1 && together(pending, i, j) {
                assert(after[before.len() as int] == j);
            }
        }
        assert forall|g: int, h: int| 0 <= g < h < after.len() implies #[trigger] after[g]
            < #[trigger] after[h] by {
            assert(before.contains(before[g]));
        }
    }
}

proof fn lemma_led(pending: Seq<WaitingModel>, i: int) -> (l: int)
    requires
        0 <= i < pending.len(),
    ensures
        0 <= l <= i,
        leads(pending, l),
        together(pending, l, i),
    decreases i,
{
    if leads(pending, i) {
        i
    } else {
        let j = choose|j: int| 0 <= j < i && #[trigger] together(pending, j, i);
        let l = lemma_led(pending, j);
        lemma_together_on(pending, l, j, i);
        l
    }
}

/// Groups partition the waiting views: every view is held by exactly one group,
/// no group is empty, and inside a group the views keep their order, so that
/// each is there once.
pub proof fn law_groups_hold_every_view(pending: Seq<WaitingModel>)
    ensures
        ({
            let groups = positions(pending, pending.len());
            &&& forall|i: int| 0 <= i < pending.len() ==> #[trigger] is_held(pending, i)
            &&& forall|g: int, h: int, i: int|
                0 <= g < groups.len() && 0 <= h < groups.len() && #[trigger] holds(pending, g, i)
                    && #[trigger] holds(pending, h, i) ==> g == h && 0 <= i < pending.len()
            &&& forall|g: int| 0 <= g < groups.len() ==> (#[trigger] groups[g]).len() > 0
            &&& forall|g: int, a: int, b: int|
                0 <= g < groups.len() && 0 <= a < b < groups[g].len() ==> #[trigger] groups[g][a]
                    < #[trigger] groups[g][b]
        }),
{
    let n = pending.len();
    let first = leaders(pending, n);
    let groups = positions(pending, n);
    lemma_leaders(pending, n);
    assert forall|g: int| 0 <= g < groups.len() implies (#[trigger] groups[g]).len() > 0 && groups[g]
        == members(pending, first[g], n) && leads(pending, first[g]) && 0 <= first[g] < n by {
        assert(first.contains(first[g]));
        lemma_members(pending, first[g], n);
        assert(together(pending, first[g], first[g]));
        assert(groups[g].contains(first[g]));
    }
    assert forall|i: int| 0 <= i < n implies #[trigger] is_held(pending, i) by {
        let l = lemma_led(pending, i);
        assert(first.contains(l));
        let g = choose|g: int| 0 <= g < first.len() && first[g] == l;
        lemma_members(pending, l, n);
        assert(groups[g].len() > 0);
        assert(holds(pending, g, i));
    }
    assert forall|g: int, h: int, i: int|
        0 <= g < groups.len() && 0 <= h < groups.len() && #[trigger] holds(pending, g, i)
            && #[trigger] holds(pending, h, i) implies g == h && 0 <= i < n by {
        assert(groups[g].len() > 0 && groups[h].len() > 0);
        lemma_members(pending, first[g], n);
        lemma_members(pending, first[h], n);
        lemma_together_back(pending, first[g], i);
        lemma_together_back(pending, first[h], i);
        assert(together(pending, first[g], first[h]) && together(pending, first[h], first[g]));
        if first[g] < first[h] {
            assert(!together(pending, first[g], first[h]));
        } else if first[h] < first[g] {
            assert(!together(pending, first[h], first[g]));
        }
    }
    assert forall|g: int, a: int, b: int|
        0 <= g < groups.len() && 0 <= a < b < groups[g].len() implies #[trigger] groups[g][a]
        < #[trigger] groups[g][b] by {
        assert(groups[g].len() > 0);
        lemma_members(pending, first[g], n);
    }
}

/// Refreshing join views that share a shadow are rebuilt together, whatever
/// order they wait in and over however many views: the group that holds the one
/// holds the other. A view that is not one of them is alone in its group.
pub proof fn law_shared_shadows_bind_views(pending: Seq<WaitingModel>, g: int, i: int, j: int)
    requires
        0 <= g < positions(pending, pending.len()).len(),
        0 <= i < pending.len(),
        0 <= j < pending.len(),
        holds(pending, g, i),
    ensures
        binds(pending[i], pending[j]) ==> holds(pending, g, j),
        !is_shared(pending[i]) ==> positions(pending, pending.len())[g] == seq![i],
{
    let n = pending.len();
    let l = leaders(pending, n)[g];
    lemma_members(pending, l, n);
    if binds(pending[i], pending[j]) {
        lemma_bound_together(pending, i, j);
        lemma_together_on(pending, l, i, j);
    }
    if !is_shared(pending[i]) {
        let alone = Set::<int>::empty().insert(i);
        assert(closed(pending, alone));
        lemma_together_back(pending, l, i);
        assert(alone.contains(l));
        let group = members(pending, l, n);
        assert(l == i);
        assert forall|k: int| 0 <= k < group.len() implies group[k] == i by {
            assert(group.contains(group[k]));
            assert(alone.contains(group[k]));
        }
        assert(group.contains(i));
        assert(group.len() > 0);
        if group.len() > 1 {
            assert(group[0] < group[1]);
        }
        assert(group =~= seq![i]);
    }
}

proof fn lemma_with_names(names: Seq<Seq<char>>, more: Seq<Seq<char>>, n: nat)
    requires
        names.no_duplicates(),
        n <= more.len(),
    ensures
        with_names(names, more, n).no_duplicates(),
        forall|i: int|
            0 <= i < names.len() ==> with_names(names, more, n).contains(#[trigger] names[i]),
        forall|i: int| 0 <= i < n ==> with_names(names, more, n).contains(#[trigger] more[i]),
    decreases n,
{
    if n == 0 {
        assert forall|i: int| 0 <= i < names.len() implies names.contains(#[trigger] names[i]) by {}
    } else {
        lemma_with_names(names, more, (n - 1) as nat);
        let before = with_names(names, more, (n - 1) as nat);
        let after = with_names(names, more, n);
        assert forall|x: Seq<char>| before.contains(x) implies #[trigger] after.contains(x) by {
            let k = choose|k: int| 0 <= k < before.len() && before[k] == x;
            assert(after[k] == x);
        }
        if !before.contains(more[n - 1]) {
            assert(after[before.len() as int] == more[n - 1]);
        }
    }
}

proof fn lemma_with_relations(
    names: Seq<Seq<char>>,
    relations: Seq<BaseModel>,
    relid: u32,
    n: nat,
)
    requires
        names.no_duplicates(),
        n <= relations.len(),
    ensures
        with_relations(names, relations, relid, n).no_duplicates(),
        forall|i: int|
            0 <= i < names.len() ==> with_relations(names, relations, relid, n).contains(
                #[trigger] names[i],
            ),
        forall|r: int, c: int|
            0 <= r < n && (#[trigger] relations[r]).oid == relid && 0 <= c
                < relations[r].used_columns.len() ==> with_relations(
                names,
                relations,
                relid,
                n,
            ).contains(#[trigger] relations[r].used_columns[c]),
    decreases n,
{
    if n == 0 {
        assert forall|i: int| 0 <= i < names.len() implies names.contains(#[trigger] names[i]) by {}
    } else {
        lemma_with_relations(names, relations, relid, (n - 1) as nat);
        let before = with_relations(names, relations, relid, (n - 1) as nat);
        let after = with_relations(names, relations, relid, n);
        let rel = relations[n - 1];
        if rel.oid == relid {
            lemma_with_names(before, rel.used_columns, rel.used_columns.len());
        }
        assert forall|x: Seq<char>| before.contains(x) implies #[trigger] after.contains(x) by {
            let k = choose|k: int| 0 <= k < before.len() && before[k] == x;
            assert(before[k] == x);
        }
    }
}

/// A shadow holds every column that one of its views reads from the table,
/// each once.
pub proof fn law_shadows_hold_what_views_read(
    specs: Seq<SpecModel>,
    own: SpecModel,
    relid: u32,
    n: nat,
)
    requires
        n <= specs.len(),
    ensures
        with_specs(specs, relid, n).no_duplicates(),
        forall|s: int, r: int, c: int|
            0 <= s < n && 0 <= r < specs[s].relations.len() && (
            #[trigger] specs[s].relations[r]).oid == relid && 0 <= c
                < specs[s].relations[r].used_columns.len() ==> with_specs(
                specs,
                relid,
                n,
            ).contains(#[trigger] specs[s].relations[r].used_columns[c]),
        ({
            let held = with_relations(
                with_specs(specs, relid, n),
                own.relations,
                relid,
                own.relations.len(),
            );
            &&& held.no_duplicates()
            &&& forall|i: int|
                0 <= i < with_specs(specs, relid, n).len() ==> held.contains(
                    #[trigger] with_specs(specs, relid, n)[i],
                )
            &&& forall|r: int, c: int|
                0 <= r < own.relations.len() && (#[trigger] own.relations[r]).oid == relid && 0
                    <= c < own.relations[r].used_columns.len() ==> held.contains(
                    #[trigger] own.relations[r].used_columns[c],
                )
        }),
    decreases n,
{
    if n > 0 {
        law_shadows_hold_what_views_read(specs, own, relid, (n - 1) as nat);
        let before = with_specs(specs, relid, (n - 1) as nat);
        let after = with_specs(specs, relid, n);
        let relations = specs[n - 1].relations;
        lemma_with_relations(before, relations, relid, relations.len());
        assert forall|s: int, r: int, c: int|
            0 <= s < n && 0 <= r < specs[s].relations.len() && (
            #[trigger] specs[s].relations[r]).oid == relid && 0 <= c
                < specs[s].relations[r].used_columns.len() implies after.contains(
            #[trigger] specs[s].relations[r].used_columns[c],
        ) by {
            if s < n - 1 {
                let x = specs[s].relations[r].used_columns[c];
                assert(before.contains(x));
                let k = choose|k: int| 0 <= k < before.len() && before[k] == x;
                assert(after.contains(before[k]));
            } else {
                assert(relations[r].used_columns[c] == specs[s].relations[r].used_columns[c]);
            }
        }
    }
    lemma_with_relations(
        with_specs(specs, relid, n),
        own.relations,
        relid,
        own.relations.len(),
    );
}

proof fn lemma_built_after(relations: Seq<BaseModel>, done: Set<u32>, n: nat)
    requires
        n <= relations.len(),
    ensures
        done.subset_of(built_after(relations, done, n)),
        forall|i: int| 0 <= i < n ==> built_after(relations, done, n).contains((#[trigger] relations[i]).oid),
        forall|k: int|
            0 <= k < missing_shadows(relations, done, n).len() ==> 0 <= (
            #[trigger] missing_shadows(relations, done, n)[k]) < n && !done.contains(
                relations[missing_shadows(relations, done, n)[k]].oid,
            ),
        forall|k: int, l: int|
            0 <= k < l < missing_shadows(relations, done, n).len()
                ==> relations[#[trigger] missing_shadows(relations, done, n)[k]].oid
                != relations[#[trigger] missing_shadows(relations, done, n)[l]].oid,
    decreases n,
{
    if n > 0 {
        lemma_built_after(relations, done, (n - 1) as nat);
        let missing = missing_shadows(relations, done, (n - 1) as nat);
        let now = missing_shadows(relations, done, n);
        assert forall|k: int| 0 <= k < now.len() implies 0 <= (#[trigger] now[k]) < n
            && !done.contains(relations[now[k]].oid) by {
            if k < missing.len() {
                assert(now[k] == missing[k]);
            }
        }
        assert forall|k: int, l: int| 0 <= k < l < now.len() implies relations[#[trigger] now[k]].oid
            != relations[#[trigger] now[l]].oid by {
            assert(now[k] == missing[k]);
            if l < missing.len() {
                assert(now[l] == missing[l]);
            }
        }
    }
}

/// Within a group every shadow is built at most once, and once a view's turn
/// is over all of its shadows are: views that share a shadow are built from one
/// snapshot of it.
pub proof fn law_shadows_are_built_once(relations: Seq<BaseModel>, done: Set<u32>)
    ensures
        ({
            let n = relations.len();
            let after = built_after(relations, done, n);
            let todo = missing_shadows(relations, done, n);
            &&& done.subset_of(after)
            &&& forall|i: int| 0 <= i < n ==> after.contains((#[trigger] relations[i]).oid)
            &&& forall|k: int|
                0 <= k < todo.len() ==> 0 <= (#[trigger] todo[k]) < n && !done.contains(
                    relations[todo[k]].oid,
                )
            &&& forall|k: int, l: int|
                0 <= k < l < todo.len() ==> relations[#[trigger] todo[k]].oid
                    != relations[#[trigger] todo[l]].oid
        }),
{
    lemma_built_after(relations, done, relations.len());
}

/// Whether the statements of `part` stand in `all`, one behind the other.
pub open spec fn runs_through(all: Seq<StatementModel>, part: Seq<StatementModel>) -> bool {
    exists|k: int|
        0 <= k && k + part.len() <= all.len() && #[trigger] all.subrange(k, k + part.len())
            == part
}

/// The last step of a view's build.
pub open spec fn built(
    m: PopulationModel,
    exists_already: bool,
    quoting: spec_fn(Seq<char>) -> Seq<char>,
) -> BuildStep {
    if exists_already {
        after_exists(m, true, quoting)
    } else {
        after_depend(m, quoting)
    }
}

/// Every view of a group that is built becomes live at the group's one
/// consistent point, and the transaction goes on with the next view.
pub proof fn law_groups_share_a_point(
    m: PopulationModel,
    exists_already: bool,
    quoting: spec_fn(Seq<char>) -> Seq<char>,
)
    requires
        m.index < m.group.len(),
    ensures
        built(m, exists_already, quoting).state.point == m.point,
        built(m, exists_already, quoting).state.index == m.index + 1,
        built(m, exists_already, quoting).state.group == m.group,
        runs_through(
            built(m, exists_already, quoting).statements,
            live_statements(m.group[m.index as int], m.point),
        ),
{
    let v = m.group[m.index as int];
    let live = live_statements(v, m.point);
    let front = if exists_already {
        fill_statements(v, current_spec(m), true, quoting)
    } else {
        expose_statements(v, current_spec(m), quoting)
    };
    let all = built(m, exists_already, quoting).statements;
    let k = front.len() as int;
    assert(all.subrange(k, k + live.len()) =~= live);
}

/// A population keeps its group and its point from the first step to the last.
pub proof fn law_populations_keep_their_point(
    m: PopulationModel,
    before: Seq<StatementModel>,
    outcome: Result<(SpecModel, Seq<char>), Seq<char>>,
    specs: Seq<SpecModel>,
    exists_already: bool,
    quoting: spec_fn(Seq<char>) -> Seq<char>,
)
    ensures
        begin_view(m, before).state.point == m.point,
        begin_view(m, before).state.group == m.group,
        after_validation(m, outcome).state.point == m.point,
        after_validation(m, outcome).state.group == m.group,
        after_specs(m, specs).state == m,
        after_shadow(m).state.point == m.point,
        after_shadow(m).state.group == m.group,
        after_exists(m, exists_already, quoting).state.point == m.point,
        after_exists(m, exists_already, quoting).state.group == m.group,
        after_depend(m, quoting).state.point == m.point,
        after_depend(m, quoting).state.group == m.group,
{
}

/// The shadows of a group stand where its views do: a shadow is asked for at the
/// group's one consistent point, with every column that the view reads; and a
/// shadow that is built there records the very frontier under which the view
/// goes live.
pub proof fn law_shadows_stand_where_views_do(
    m: PopulationModel,
    specs: Seq<SpecModel>,
    quoting: spec_fn(Seq<char>) -> Seq<char>,
)
    requires
        populating(m),
        m.position < m.todo.len(),
    ensures
        match after_specs(m, specs).ask {
            BuildAskModel::Shadow { relation, rebuild, point, needed } => {
                let rel = current_spec(m).relations[relation];
                let view = m.group[m.index as int];
                &&& point == m.point
                &&& rebuild == rebuilds(view)
                &&& shadow::build_at(rel, point, needed, quoting).last().args[2]
                    == live_statements(view, m.point)[0].args[0]
                &&& forall|c: int|
                    0 <= c < rel.used_columns.len() ==> needed.contains(
                        #[trigger] rel.used_columns[c],
                    )
            },
            _ => false,
        },
{
    let own = current_spec(m);
    let relation = m.todo[m.position as int];
    let rel = own.relations[relation];
    law_shadows_hold_what_views_read(specs, own, rel.oid, specs.len());
}

/// Rows of a view table are told apart by a unique index over every column that identifies
/// them: the key columns of a projection, the group keys of an aggregate, where NULLs are
/// alike.
pub proof fn law_view_tables_are_indexed_by_identity(
    name: Seq<char>,
    spec: SpecModel,
    quoting: spec_fn(Seq<char>) -> Seq<char>,
    i: int,
)
    ensures
        ({
            let sql = index_sql(name, spec, quoting);
            &&& has_part(sql, "CREATE UNIQUE INDEX ON "@ + name)
            &&& spec.shape == Shape::Projection && 0 <= i < spec.pk_view_columns.len() ==> has_part(
                sql,
                quoting(spec.pk_view_columns[i]),
            )
            &&& spec.shape == Shape::Aggregate && 0 <= i < spec.columns.len() ==> has_part(
                sql,
                quoting(spec.columns[i].alias),
            )
            &&& spec.shape == Shape::Aggregate ==> has_part(sql, " NULLS NOT DISTINCT"@)
        }),
{
    let columns = index_columns(spec, quoting);
    let list = joined(columns, ", "@);
    let back = match spec.shape {
        Shape::Aggregate => " NULLS NOT DISTINCT"@,
        Shape::Projection => ""@,
    };
    lemma_index_text(name, list, back);
    if 0 <= i < columns.len() {
        text::lemma_part_of_joined(columns, ", "@, i);
        lemma_index_item(name, list, back, columns[i]);
        if spec.shape == Shape::Projection {
            assert(columns[i] == quoting(spec.pk_view_columns[i]));
        } else {
            assert(columns[i] == quoting(spec.columns[i].alias));
        }
    }
}

proof fn lemma_index_text(name: Seq<char>, list: Seq<char>, back: Seq<char>)
    ensures
        ({
            let sql = "CREATE UNIQUE INDEX ON "@ + name + " ("@ + list + ")"@ + back;
            has_part(sql, "CREATE UNIQUE INDEX ON "@ + name) && has_part(sql, back)
        }),
{
    let head = "CREATE UNIQUE INDEX ON "@ + name;
    let middle = " ("@ + list + ")"@;
    let sql = head + " ("@ + list + ")"@ + back;
    assert(head + middle + back =~= sql);
    text::lemma_part_of_itself(head);
    text::lemma_part_of_itself(back);
    text::lemma_part_left(head, middle, head);
    text::lemma_part_left(head + middle, back, head);
    text::lemma_part_right(head + middle, back, back);
}

proof fn lemma_index_item(name: Seq<char>, list: Seq<char>, back: Seq<char>, item: Seq<char>)
    requires
        has_part(list, item),
    ensures
        has_part("CREATE UNIQUE INDEX ON "@ + name + " ("@ + list + ")"@ + back, item),
{
    let front = "CREATE UNIQUE INDEX ON "@ + name + " ("@;
    text::lemma_part_within(front, list, ")"@ + back, item);
    assert(front + list + (")"@ + back) =~= front + list + ")"@ + back);
}

/// A view table is guarded against writes to its rows and against truncation.
pub proof fn law_view_tables_are_guarded(
    name: Seq<char>,
    spec: SpecModel,
    quoting: spec_fn(Seq<char>) -> Seq<char>,
)
    ensures
        ({
            let ddl = ddl_of(name, spec, quoting);
            &&& ddl.len() == 3
            &&& ddl[0] == index_sql(name, spec, quoting)
            &&& has_part(ddl[1], "BEFORE INSERT OR UPDATE OR DELETE ON "@ + name)
            &&& has_part(ddl[1], "nabla.guard_view()"@)
            &&& has_part(ddl[2], "BEFORE TRUNCATE ON "@ + name)
            &&& has_part(ddl[2], "nabla.guard_view()"@)
        }),
{
    lemma_guard_text(name);
    lemma_guard_truncate_text(name);
}

proof fn lemma_guard_text(name: Seq<char>)
    ensures
        has_part(guard_sql(name), "BEFORE INSERT OR UPDATE OR DELETE ON "@ + name),
        has_part(guard_sql(name), "nabla.guard_view()"@),
{
    reveal_strlit("CREATE TRIGGER nabla_guard BEFORE INSERT OR UPDATE OR DELETE ON ");
    reveal_strlit("BEFORE INSERT OR UPDATE OR DELETE ON ");
    reveal_strlit(" FOR EACH ROW EXECUTE FUNCTION nabla.guard_view()");
    reveal_strlit("nabla.guard_view()");
    let whole = "CREATE TRIGGER nabla_guard BEFORE INSERT OR UPDATE OR DELETE ON "@;
    let tail = "BEFORE INSERT OR UPDATE OR DELETE ON "@;
    let back = " FOR EACH ROW EXECUTE FUNCTION nabla.guard_view()"@;
    let call = "nabla.guard_view()"@;
    let head = whole.take(27);
    assert(whole =~= head + tail);
    let part = tail + name;
    text::lemma_part_of_itself(part);
    text::lemma_part_within(head, part, back, part);
    assert(head + part + back =~= guard_sql(name));
    let n = back.len() as int;
    assert(back.subrange(n - 18, n) =~= call);
    text::lemma_part_at(back, call, n - 18);
    text::lemma_part_right(whole + name, back, call);
}

proof fn lemma_guard_truncate_text(name: Seq<char>)
    ensures
        has_part(guard_truncate_sql(name), "BEFORE TRUNCATE ON "@ + name),
        has_part(guard_truncate_sql(name), "nabla.guard_view()"@),
{
    reveal_strlit("CREATE TRIGGER nabla_guard_truncate BEFORE TRUNCATE ON ");
    reveal_strlit("BEFORE TRUNCATE ON ");
    reveal_strlit(" FOR EACH STATEMENT EXECUTE FUNCTION nabla.guard_view()");
    reveal_strlit("nabla.guard_view()");
    let whole = "CREATE TRIGGER nabla_guard_truncate BEFORE TRUNCATE ON "@;
    let tail = "BEFORE TRUNCATE ON "@;
    let back = " FOR EACH STATEMENT EXECUTE FUNCTION nabla.guard_view()"@;
    let call = "nabla.guard_view()"@;
    let head = whole.take(36);
    assert(whole =~= head + tail);
    let part = tail + name;
    text::lemma_part_of_itself(part);
    text::lemma_part_within(head, part, back, part);
    assert(head + part + back =~= guard_truncate_sql(name));
    let n = back.len() as int;
    assert(back.subrange(n - 18, n) =~= call);
    text::lemma_part_at(back, call, n - 18);
    text::lemma_part_right(whole + name, back, call);
}

/// Different views are stored in different tables.
pub proof fn law_storage_tables_are_apart(a: i32, b: i32)
    requires
        stored_as(a) == stored_as(b),
    ensures
        a == b,
{
    let prefix = "nabla_store.v"@;
    let x = signed_decimal(a as int);
    let y = signed_decimal(b as int);
    assert(stored_as(a).skip(prefix.len() as int) =~= x);
    assert(stored_as(b).skip(prefix.len() as int) =~= y);
    text::law_numbers_are_read_as_written(a as int);
    text::law_numbers_are_read_as_written(b as int);
}

/// Two waiting views bind each other exactly where both are refreshing join views and one
/// table is read by both.
pub proof fn law_views_bind_over_a_common_table(a: WaitingModel, b: WaitingModel)
    ensures
        binds(a, b) <==> a.status == "refreshing"@ && b.status == "refreshing"@
            && a.spec.relations.len() > 1 && b.spec.relations.len() > 1 && exists|i: int, j: int|
            0 <= i < a.spec.relations.len() && 0 <= j < b.spec.relations.len() && (
            #[trigger] a.spec.relations[i]).oid == (#[trigger] b.spec.relations[j]).oid,
        binds(a, b) <==> binds(b, a),
        rebuilds(a) <==> a.status == "refreshing"@ && a.populated,
{
    let x = relation_oids(a.spec);
    let y = relation_oids(b.spec);
    if overlap(x, y) {
        let j = choose|j: int| 0 <= j < y.len() && x.contains(#[trigger] y[j]);
        let i = choose|i: int| 0 <= i < x.len() && x[i] == y[j];
        assert(a.spec.relations[i].oid == b.spec.relations[j].oid);
    }
    if exists|i: int, j: int|
        0 <= i < a.spec.relations.len() && 0 <= j < b.spec.relations.len() && (
        #[trigger] a.spec.relations[i]).oid == (#[trigger] b.spec.relations[j]).oid {
        let (i, j) = choose|i: int, j: int|
            0 <= i < a.spec.relations.len() && 0 <= j < b.spec.relations.len() && (
            #[trigger] a.spec.relations[i]).oid == (#[trigger] b.spec.relations[j]).oid;
        assert(x[i] == y[j]);
        assert(x.contains(y[j]));
    }
    if binds(a, b) {
        lemma_binds_back(a, b);
    }
    if binds(b, a) {
        lemma_binds_back(b, a);
    }
}

/// Views that nothing binds are not rebuilt together: where the waiting views fall into two
/// parts and no view of the one binds one of the other, no group holds views of both.
pub proof fn law_groups_hold_only_bound_views(
    pending: Seq<WaitingModel>,
    part: Set<int>,
    g: int,
    i: int,
    j: int,
)
    requires
        0 <= g < positions(pending, pending.len()).len(),
        0 <= i < pending.len(),
        0 <= j < pending.len(),
        part.contains(i),
        !part.contains(j),
        forall|a: int, b: int|
            0 <= a < pending.len() && 0 <= b < pending.len() && #[trigger] part.contains(a)
                && !#[trigger] part.contains(b) ==> !binds(pending[a], pending[b]),
    ensures
        !(holds(pending, g, i) && holds(pending, g, j)),
{
    let n = pending.len();
    let l = leaders(pending, n)[g];
    lemma_members(pending, l, n);
    if holds(pending, g, i) && holds(pending, g, j) {
        assert(together(pending, l, i));
        assert(together(pending, l, j));
        lemma_together_back(pending, l, i);
        lemma_together_on(pending, i, l, j);
        assert(closed(pending, part)) by {
            assert forall|a: int, b: int|
                0 <= a < pending.len() && 0 <= b < pending.len() && #[trigger] part.contains(a)
                    && #[trigger] binds(pending[a], pending[b]) implies part.contains(b) by {
                if !part.contains(b) {
                    assert(!binds(pending[a], pending[b]));
                }
            }
        }
        assert(part.contains(j));
    }
}

/// Whether a view reads a column of a table.
pub open spec fn reads_column(spec: SpecModel, relid: u32, name: Seq<char>) -> bool {
    exists|r: int|
        0 <= r < spec.relations.len() && (#[trigger] spec.relations[r]).oid == relid
            && spec.relations[r].used_columns.contains(name)
}

proof fn lemma_only_names(
    names: Seq<Seq<char>>,
    more: Seq<Seq<char>>,
    n: nat,
    name: Seq<char>,
)
    requires
        n <= more.len(),
        with_names(names, more, n).contains(name),
    ensures
        names.contains(name) || more.contains(name),
    decreases n,
{
    if n > 0 {
        let before = with_names(names, more, (n - 1) as nat);
        if before.contains(name) {
            lemma_only_names(names, more, (n - 1) as nat, name);
        } else {
            let all = with_names(names, more, n);
            let k = choose|k: int| 0 <= k < all.len() && all[k] == name;
            if k < before.len() {
                assert(before[k] == name);
            }
            assert(more[n - 1] == name);
        }
    }
}

proof fn lemma_only_relations(
    names: Seq<Seq<char>>,
    spec: SpecModel,
    relid: u32,
    n: nat,
    name: Seq<char>,
)
    requires
        n <= spec.relations.len(),
        with_relations(names, spec.relations, relid, n).contains(name),
    ensures
        names.contains(name) || reads_column(spec, relid, name),
    decreases n,
{
    if n > 0 {
        let before = with_relations(names, spec.relations, relid, (n - 1) as nat);
        let rel = spec.relations[n - 1];
        if rel.oid == relid {
            lemma_only_names(before, rel.used_columns, rel.used_columns.len(), name);
            if rel.used_columns.contains(name) {
                assert(spec.relations[n - 1].oid == relid);
            }
        }
        if before.contains(name) {
            lemma_only_relations(names, spec, relid, (n - 1) as nat, name);
        }
    }
}

/// A shadow holds no column for the sake of views that none of them reads from the table.
pub proof fn law_shadows_hold_only_what_views_read(
    specs: Seq<SpecModel>,
    own: SpecModel,
    relid: u32,
    n: nat,
    name: Seq<char>,
)
    requires
        n <= specs.len(),
    ensures
        with_specs(specs, relid, n).contains(name) ==> exists|s: int|
            0 <= s < n && reads_column(#[trigger] specs[s], relid, name),
        with_relations(
            with_specs(specs, relid, n),
            own.relations,
            relid,
            own.relations.len(),
        ).contains(name) ==> reads_column(own, relid, name) || exists|s: int|
            0 <= s < n && reads_column(#[trigger] specs[s], relid, name),
    decreases n,
{
    if n > 0 {
        law_shadows_hold_only_what_views_read(specs, own, relid, (n - 1) as nat, name);
        let before = with_specs(specs, relid, (n - 1) as nat);
        if with_specs(specs, relid, n).contains(name) {
            let spec = specs[n - 1];
            lemma_only_relations(before, spec, relid, spec.relations.len(), name);
            if reads_column(spec, relid, name) {
                assert(reads_column(specs[n - 1], relid, name));
            } else {
                let s = choose|s: int|
                    0 <= s < n - 1 && reads_column(#[trigger] specs[s], relid, name);
                assert(reads_column(specs[s], relid, name));
            }
        }
    } else {
        assert(!with_specs(specs, relid, 0).contains(name));
    }
    let base = with_specs(specs, relid, n);
    if with_relations(base, own.relations, relid, own.relations.len()).contains(name) {
        lemma_only_relations(base, own, relid, own.relations.len(), name);
    }
}

proof fn lemma_none_missed(relations: Seq<BaseModel>, done: Set<u32>, n: nat, i: int)
    requires
        0 <= i < n <= relations.len(),
        !done.contains(relations[i].oid),
    ensures
        exists|k: int|
            0 <= k < missing_shadows(relations, done, n).len() && relations[
                #[trigger] missing_shadows(relations, done, n)[k]
            ].oid == relations[i].oid,
    decreases n,
{
    let before = missing_shadows(relations, done, (n - 1) as nat);
    let all = missing_shadows(relations, done, n);
    if i < n - 1 {
        lemma_none_missed(relations, done, (n - 1) as nat, i);
        let k = choose|k: int|
            0 <= k < before.len() && relations[#[trigger] before[k]].oid == relations[i].oid;
        assert(all[k] == before[k]);
    } else if built_after(relations, done, (n - 1) as nat).contains(relations[i].oid) {
        let j = lemma_built_by(relations, done, (n - 1) as nat, relations[i].oid);
        lemma_none_missed(relations, done, (n - 1) as nat, j);
        let k = choose|k: int|
            0 <= k < before.len() && relations[#[trigger] before[k]].oid == relations[j].oid;
        assert(all[k] == before[k]);
    } else {
        assert(all[before.len() as int] == i);
    }
}

proof fn lemma_built_by(relations: Seq<BaseModel>, done: Set<u32>, n: nat, oid: u32) -> (j: int)
    requires
        n <= relations.len(),
        built_after(relations, done, n).contains(oid),
        !done.contains(oid),
    ensures
        0 <= j < n,
        relations[j].oid == oid,
    decreases n,
{
    if relations[n - 1].oid == oid {
        n - 1
    } else {
        lemma_built_by(relations, done, (n - 1) as nat, oid)
    }
}

/// No shadow of a view is left unbuilt: each of its relations was built for an earlier view
/// of the group, or is among those to be built.
pub proof fn law_no_shadow_is_left_unbuilt(relations: Seq<BaseModel>, done: Set<u32>, i: int)
    requires
        0 <= i < relations.len(),
    ensures
        done.contains(relations[i].oid) || exists|k: int|
            0 <= k < missing_shadows(relations, done, relations.len()).len() && relations[
                #[trigger] missing_shadows(relations, done, relations.len())[k]
            ].oid == relations[i].oid,
{
    if !done.contains(relations[i].oid) {
        lemma_none_missed(relations, done, relations.len(), i);
    }
}

/// A view's storage is filled by the view's own query: emptied first where it is there, else
/// made by it, indexed and guarded.
pub proof fn law_storage_is_filled_by_the_views_query(
    view: WaitingModel,
    spec: SpecModel,
    quoting: spec_fn(Seq<char>) -> Seq<char>,
)
    ensures
        ({
            let run = fill_statements(view, spec, true, quoting);
            &&& run.len() == 2
            &&& run[0] == bare("DELETE FROM "@ + stored_as(view.id))
            &&& run[1] == bare("INSERT INTO "@ + stored_as(view.id) + " "@ + spec.populate_sql)
        }),
        ({
            let run = fill_statements(view, spec, false, quoting);
            &&& run.len() == 4
            &&& has_part(run[0].sql, "CREATE TABLE "@ + stored_as(view.id))
            &&& has_part(run[0].sql, " AS "@ + spec.populate_sql)
            &&& run[1] == bare(index_sql(stored_as(view.id), spec, quoting))
            &&& run[2] == bare(guard_sql(stored_as(view.id)))
            &&& run[3] == bare(guard_truncate_sql(stored_as(view.id)))
        }),
{
    lemma_made_text(stored_as(view.id), spec.populate_sql);
}

proof fn lemma_made_text(storage: Seq<char>, query: Seq<char>)
    ensures
        has_part("CREATE TABLE "@ + storage + " AS "@ + query, "CREATE TABLE "@ + storage),
        has_part("CREATE TABLE "@ + storage + " AS "@ + query, " AS "@ + query),
{
    let head = "CREATE TABLE "@ + storage;
    let tail = " AS "@ + query;
    let sql = head + " AS "@ + query;
    assert(head + tail =~= sql);
    assert(has_part(sql, head)) by {
        text::lemma_part_of_itself(head);
        text::lemma_part_left(head, tail, head);
    }
    assert(has_part(sql, tail)) by {
        text::lemma_part_of_itself(tail);
        text::lemma_part_right(head, tail, tail);
    }
}

/// A view shows every visible column of its definition, from its own storage, under its own
/// name, and is recorded under it.
pub proof fn law_views_expose_every_visible_column(
    view: WaitingModel,
    spec: SpecModel,
    quoting: spec_fn(Seq<char>) -> Seq<char>,
    i: int,
)
    requires
        0 <= i < spec.visible_columns.len(),
    ensures
        ({
            let run = expose_statements(view, spec, quoting);
            &&& run.len() == 2
            &&& has_part(run[0].sql, "CREATE VIEW "@ + view.name)
            &&& has_part(run[0].sql, quoting(spec.visible_columns[i]))
            &&& has_part(run[0].sql, " FROM "@ + stored_as(view.id))
            &&& run[1].args == seq![ArgModel::Int4(view.id), ArgModel::Text(Some(view.name))]
        }),
{
    let items = spec.visible_columns.map_values(|c: Seq<char>| quoting(c));
    text::lemma_part_of_joined(items, ", "@, i);
    assert(items[i] == quoting(spec.visible_columns[i]));
    lemma_view_text(view.name, joined(items, ", "@), stored_as(view.id), items[i]);
}

proof fn lemma_view_text(name: Seq<char>, list: Seq<char>, storage: Seq<char>, item: Seq<char>)
    requires
        has_part(list, item),
    ensures
        ({
            let sql = "CREATE VIEW "@ + name + " AS SELECT "@ + list + " FROM "@ + storage;
            &&& has_part(sql, "CREATE VIEW "@ + name)
            &&& has_part(sql, item)
            &&& has_part(sql, " FROM "@ + storage)
        }),
{
    let head = "CREATE VIEW "@ + name;
    let from = " FROM "@ + storage;
    let sql = head + " AS SELECT "@ + list + " FROM "@ + storage;
    let middle = " AS SELECT "@ + list;
    assert(head + middle + from =~= sql);
    text::lemma_part_of_itself(head);
    text::lemma_part_of_itself(from);
    text::lemma_part_right(" AS SELECT "@, list, item);
    text::lemma_part_within(head, middle, from, item);
    text::lemma_part_left(head, middle, head);
    text::lemma_part_left(head + middle, from, head);
    text::lemma_part_right(head + middle, from, from);
}

/// A built view goes live at the point it was built at, in the next epoch where it was
/// built before and else in the one it has, and its log is emptied.
pub proof fn law_built_views_go_live(view: WaitingModel, point: u64)
    ensures
        ({
            let run = live_statements(view, point);
            let again = view.status == "refreshing"@ && view.populated;
            &&& run.len() == 2
            &&& run[0].args.len() == 3
            &&& run[0].args[0] == ArgModel::Text(Some(lsn::formatted(point)))
            &&& again ==> run[0].args[1] == ArgModel::Int4(1)
            &&& !again ==> run[0].args[1] == ArgModel::Int4(0)
            &&& run[0].args[2] == ArgModel::Int4(view.id)
            &&& has_part(run[0].sql, "epoch = epoch + $2, status = 'live'"@)
            &&& run[1] == (StatementModel {
                sql: "DELETE FROM nabla.deltas WHERE view_id = $1"@,
                args: seq![ArgModel::Int4(view.id)],
            })
        }),
{
    lemma_live_text();
}

proof fn lemma_live_text()
    ensures
        has_part(
            "UPDATE nabla.views SET frontier_lsn = $1::pg_lsn, epoch = epoch + $2, status = 'live', apply_failures = 0, last_error = NULL, last_error_at = NULL, stale_reason = NULL, populated_at = coalesce(populated_at, now()) WHERE id = $3"@,
            "epoch = epoch + $2, status = 'live'"@,
        ),
{
    reveal_strlit(
        "UPDATE nabla.views SET frontier_lsn = $1::pg_lsn, epoch = epoch + $2, status = 'live', apply_failures = 0, last_error = NULL, last_error_at = NULL, stale_reason = NULL, populated_at = coalesce(populated_at, now()) WHERE id = $3",
    );
    reveal_strlit("epoch = epoch + $2, status = 'live'");
    let sql = "UPDATE nabla.views SET frontier_lsn = $1::pg_lsn, epoch = epoch + $2, status = 'live', apply_failures = 0, last_error = NULL, last_error_at = NULL, stale_reason = NULL, populated_at = coalesce(populated_at, now()) WHERE id = $3"@;
    let part = "epoch = epoch + $2, status = 'live'"@;
    assert(sql.subrange(50, 85) =~= part);
    text::lemma_part_at(sql, part, 50);
}

/// A view that was built before has its own definition validated first; every other one is
/// built from the spec it waits with. When no view is left the population is done.
pub proof fn law_rebuilds_are_validated_first(m: PopulationModel, before: Seq<StatementModel>)
    ensures
        ({
            let step = begin_view(m, before);
            let v = m.group[m.index as int];
            let again = v.status == "refreshing"@ && v.populated;
            &&& step.ask is Done <==> m.index >= m.group.len()
            &&& m.index < m.group.len() ==> (step.ask is Validate <==> again)
            &&& step.ask matches BuildAskModel::Validate { definition } ==> definition
                == v.definition
            &&& m.index < m.group.len() && !again ==> current_spec(step.state) == v.spec
            &&& step.state.index == m.index
            &&& step.state.rebuilt is None
            &&& m.index < m.group.len() ==> step.statements == before.push(
                bare("SET LOCAL nabla.internal_write = on"@),
            )
        }),
{
}

/// A validated view is built from the spec that came out, which is recorded; one that no
/// longer validates is recorded as failed, with the reason, and the next view has its turn.
pub proof fn law_validated_views_are_built_anew(
    m: PopulationModel,
    spec: SpecModel,
    json: Seq<char>,
    message: Seq<char>,
)
    requires
        m.index < m.group.len(),
    ensures
        ({
            let id = m.group[m.index as int].id;
            let good = after_validation(m, Ok((spec, json)));
            let bad = after_validation(m, Err(message));
            &&& current_spec(good.state) == spec
            &&& good.state.index == m.index
            &&& good.statements.len() == 1
            &&& good.statements[0].args == seq![
                ArgModel::Int4(id),
                ArgModel::Text(Some(json)),
            ]
            &&& bad.state.index == m.index + 1
            &&& bad.statements.len() > 0
            &&& bad.statements[0].args == seq![
                ArgModel::Int4(id),
                ArgModel::Text(Some(message)),
            ]
            &&& bad.state.log.len() == m.log.len() + 1
        }),
{
}

/// The shadows of a join view are built one after the other before its storage is looked
/// for; a view over a single table has none.
pub proof fn law_shadows_come_before_storage(m: PopulationModel, statements: Seq<StatementModel>)
    requires
        m.index < m.group.len(),
    ensures
        ({
            let step = begin_shadows(m, statements);
            let relations = current_spec(m).relations;
            let id = m.group[m.index as int].id;
            &&& step.statements == statements
            &&& relations.len() <= 1 ==> step.state.todo.len() == 0
            &&& step.state.position == 0
            &&& step.state.todo.len() > 0 ==> step.ask == (BuildAskModel::Specs {
                query: specs_statement(relations[step.state.todo[0]].oid),
            })
            &&& step.state.todo.len() == 0 ==> step.ask == (BuildAskModel::Exists {
                query: exists_statement(id),
            })
            &&& relations.len() > 1 ==> forall|i: int|
                0 <= i < relations.len() ==> m.done.contains((#[trigger] relations[i]).oid)
                    || to_be_built(relations, step.state.todo, relations[i].oid)
        }),
        ({
            let step = after_shadow(m);
            let next = (m.position + 1) as int;
            &&& step.state.position == m.position + 1
            &&& step.state.todo == m.todo
            &&& step.statements.len() == 0
            &&& next < m.todo.len() ==> step.ask == (BuildAskModel::Specs {
                query: specs_statement(current_spec(m).relations[m.todo[next]].oid),
            })
            &&& next >= m.todo.len() ==> step.ask == (BuildAskModel::Exists {
                query: exists_statement(m.group[m.index as int].id),
            })
        }),
{
    let relations = current_spec(m).relations;
    let step = begin_shadows(m, statements);
    if relations.len() > 1 {
        assert forall|i: int| 0 <= i < relations.len() implies m.done.contains(
            (#[trigger] relations[i]).oid,
        ) || to_be_built(relations, step.state.todo, relations[i].oid) by {
            law_no_shadow_is_left_unbuilt(relations, m.done, i);
        }
    }
}

/// Whether a relation is among those whose shadows are to be built.
pub open spec fn to_be_built(relations: Seq<BaseModel>, todo: Seq<int>, oid: u32) -> bool {
    exists|k: int| 0 <= k < todo.len() && relations[#[trigger] todo[k]].oid == oid
}

/// A storage table that is new depends on every table that the view reads, and is made and
/// exposed before the view goes live; one that was there is filled anew.
pub proof fn law_new_storage_depends_on_every_table(
    m: PopulationModel,
    quoting: spec_fn(Seq<char>) -> Seq<char>,
    i: int,
)
    requires
        m.index < m.group.len(),
        0 <= i < current_spec(m).relations.len(),
    ensures
        ({
            let v = m.group[m.index as int];
            let spec = current_spec(m);
            let made = after_exists(m, false, quoting);
            let there = after_exists(m, true, quoting);
            let exposed = after_depend(m, quoting);
            &&& made.statements == fill_statements(v, spec, false, quoting)
            &&& made.ask matches BuildAskModel::Depend { storage, oids } && storage == stored_as(
                v.id,
            ) && oids.len() == spec.relations.len() && oids[i] == spec.relations[i].oid
            &&& runs_through(there.statements, fill_statements(v, spec, true, quoting))
            &&& runs_through(exposed.statements, expose_statements(v, spec, quoting))
        }),
{
    let v = m.group[m.index as int];
    let spec = current_spec(m);
    let fill = fill_statements(v, spec, true, quoting);
    let expose = expose_statements(v, spec, quoting);
    let there = after_exists(m, true, quoting).statements;
    let exposed = after_depend(m, quoting).statements;
    assert(there.subrange(0, 0 + fill.len() as int) =~= fill);
    assert(exposed.subrange(0, 0 + expose.len() as int) =~= expose);
}

/// The failure of a rebuild is recorded as one, and told with the view's name and the reason.
pub proof fn law_failed_rebuilds_are_told(m: PopulationModel, message: Seq<char>)
    requires
        m.index < m.group.len(),
    ensures
        ({
            let bad = after_validation(m, Err(message));
            &&& has_part(bad.statements[0].sql, "status = 'failed'"@)
            &&& m.log.is_prefix_of(bad.state.log)
            &&& has_part(bad.state.log.last().text, m.group[m.index as int].name)
            &&& has_part(bad.state.log.last().text, message)
        }),
{
    let bad = after_validation(m, Err(message));
    let name = m.group[m.index as int].name;
    assert(m.log =~= bad.state.log.subrange(0, m.log.len() as int));
    lemma_failed_text();
    lemma_rebuild_text(name, message);
}

proof fn lemma_failed_text()
    ensures
        has_part(
            "UPDATE nabla.views SET status = 'failed', last_error = $2, last_error_at = now() WHERE id = $1"@,
            "status = 'failed'"@,
        ),
{
    let whole =
        "UPDATE nabla.views SET status = 'failed', last_error = $2, last_error_at = now() WHERE id = $1"@;
    reveal_strlit(
        "UPDATE nabla.views SET status = 'failed', last_error = $2, last_error_at = now() WHERE id = $1",
    );
    reveal_strlit("status = 'failed'");
    assert(whole.subrange(23, 40) =~= "status = 'failed'"@);
    text::lemma_part_at(whole, "status = 'failed'"@, 23);
}

proof fn lemma_rebuild_text(name: Seq<char>, message: Seq<char>)
    ensures
        has_part(rebuild_notice(name, message).text, name),
        has_part(rebuild_notice(name, message).text, message),
{
    let front = "nabla worker: rebuild of "@;
    let back = " failed: "@;
    let whole = rebuild_notice(name, message).text;
    let n = front.len() as int;
    let k = (front + name + back).len() as int;
    assert(whole.subrange(n, n + name.len()) =~= name);
    text::lemma_part_at(whole, name, n);
    assert(whole.subrange(k, k + message.len()) =~= message);
    text::lemma_part_at(whole, message, k);
}

} // verus!
