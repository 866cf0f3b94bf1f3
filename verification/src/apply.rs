//! Delta computation for the two view shapes, in two phases:
//!
//! * planning (`plan_*`): evaluate the view's own select list over a
//!   one-row VALUES built from the decoded row (plus, for join views, the
//!   shadow tables of the other relations) and collect signed delta rows —
//!   full view rows shaped exactly like the view table, or a keyed delete;
//! * execution (`execute`): apply the collected rows to the view table and
//!   gather the subscriber deltas.
//!
//! The split lets planning interleave with shadow maintenance in stream order
//! while every view's writes stay in one subtransaction. Decoded values are
//! bound as text parameters and cast to the base column types, never
//! interpolated.
use vstd::prelude::*;

use crate::definition::{clause, Shape, SpecModel, ViewSpec};
use crate::json;
use crate::json::{equal, field, without, Json, JsonModel};
use crate::pgoutput::{Cell, ColumnValue, Relation, RelationModel, Tuple, TAG_OLD};
use crate::quote::Quoting;
use crate::shadow;
use crate::statement::{bare, text_args, texts, ArgModel, Statement, StatementModel};
use crate::text;
use crate::text::{decimal, has_part, joined, signed_decimal, view_of_option, views};

verus! {

/// A delta row produced for the subscriber log.
#[derive(Debug, PartialEq, Eq)]
pub struct Delta {
    pub op: char,
    pub row_json: String,
}

pub struct DeltaModel {
    pub op: char,
    pub row_json: Seq<char>,
}

impl View for Delta {
    type V = DeltaModel;

    open spec fn view(&self) -> DeltaModel {
        DeltaModel { op: self.op, row_json: self.row_json@ }
    }
}

impl Clone for Delta {
    fn clone(&self) -> (result: Self)
        ensures
            result@ == self@,
    {
        Delta { op: self.op, row_json: self.row_json.clone() }
    }
}

/// A view with what planning needs.
pub struct ViewTarget<'a> {
    pub name: &'a str,
    pub spec: &'a ViewSpec,
}

// --- netting -------------------------------------------------------------------

/// The identity of a view row: the group keys of an aggregate view, the
/// selected primary key columns of a single-table projection, the hidden
/// `_nabla_pk*` columns of a join projection.
pub open spec fn identity(spec: SpecModel) -> Seq<Seq<char>> {
    match spec.shape {
        Shape::Aggregate => spec.columns.map_values(
            |c: crate::definition::OutputModel| c.alias,
        ),
        Shape::Projection => spec.pk_view_columns,
    }
}

fn identity_columns(spec: &ViewSpec) -> (result: Vec<String>)
    ensures
        views(result@) == identity(spec@),
{
    match spec.shape {
        Shape::Aggregate => {
            let mut out: Vec<String> = Vec::new();
            let mut i: usize = 0;
            while i < spec.columns.len()
                invariant
                    i <= spec.columns@.len(),
                    out@.len() == i,
                    forall|j: int| 0 <= j < i ==> (#[trigger] out@[j])@ == spec.columns@[j].alias@,
                decreases spec.columns@.len() - i,
            {
                out.push(spec.columns[i].alias.clone());
                i = i + 1;
            }
            assert(views(out@) =~= identity(spec@));
            out
        },
        Shape::Projection => {
            let copy = spec.pk_view_columns.clone();
            assert(copy@ =~= spec.pk_view_columns@);
            copy
        },
    }
}

/// A delta whose row could be read: the row's value and the text it is
/// printed as.
pub struct Event {
    pub op: char,
    pub row: Json,
    pub text: String,
}

pub struct EventModel {
    pub op: char,
    pub row: JsonModel,
    pub text: Seq<char>,
}

impl View for Event {
    type V = EventModel;

    open spec fn view(&self) -> EventModel {
        EventModel { op: self.op, row: self.row@, text: self.text@ }
    }
}

/// The event of a delta, where its row can be read.
pub open spec fn event_of(delta: DeltaModel) -> Option<EventModel> {
    match (json::parsed(delta.row_json), json::printed(delta.row_json)) {
        (Some(row), Some(text)) => Some(EventModel { op: delta.op, row, text }),
        _ => None,
    }
}

/// The events of the deltas; deltas whose rows cannot be read have none.
pub open spec fn events_of(deltas: Seq<DeltaModel>) -> Seq<EventModel>
    decreases deltas.len(),
{
    if deltas.len() == 0 {
        Seq::empty()
    } else {
        match event_of(deltas.last()) {
            Some(event) => events_of(deltas.drop_last()).push(event),
            None => events_of(deltas.drop_last()),
        }
    }
}

/// Whether two rows agree on the identity columns.
pub open spec fn same_key(identity: Seq<Seq<char>>, a: JsonModel, b: JsonModel) -> bool {
    forall|i: int|
        0 <= i < identity.len() ==> equal(
            field(a, #[trigger] identity[i]),
            field(b, identity[i]),
        )
}

/// Whether the event at `i` is the first of its key.
pub open spec fn is_first(identity: Seq<Seq<char>>, events: Seq<EventModel>, i: int) -> bool {
    forall|j: int| 0 <= j < i ==> !same_key(identity, (#[trigger] events[j]).row, events[i].row)
}

/// The events among the first `n` that are the first of their keys.
pub open spec fn firsts(identity: Seq<Seq<char>>, events: Seq<EventModel>, n: nat) -> Seq<int>
    decreases n,
{
    if n == 0 {
        Seq::empty()
    } else if is_first(identity, events, n - 1) {
        firsts(identity, events, (n - 1) as nat).push(n - 1)
    } else {
        firsts(identity, events, (n - 1) as nat)
    }
}

/// The last event among the first `n` that has the key of the event at `i`.
pub open spec fn last_of(
    identity: Seq<Seq<char>>,
    events: Seq<EventModel>,
    i: int,
    n: nat,
) -> int
    decreases n,
{
    if n == 0 || n <= i + 1 {
        i
    } else if same_key(identity, events[i].row, events[n - 1].row) {
        n - 1
    } else {
        last_of(identity, events, i, (n - 1) as nat)
    }
}

/// What is left of a key, given its first and its last event: `D(before)`, the
/// row of the first event if that is a `D`, and `I(after)`, the row of the last
/// one if that is an `I`; nothing when the two are equal on visible columns.
pub open spec fn net_events(
    hidden: Seq<Seq<char>>,
    first: EventModel,
    last: EventModel,
) -> Seq<EventModel> {
    if first.op == 'D' && last.op == 'I' {
        if equal(without(first.row, hidden), without(last.row, hidden)) {
            Seq::empty()
        } else {
            seq![first, last]
        }
    } else if first.op == 'D' {
        seq![first]
    } else if last.op == 'I' {
        seq![last]
    } else {
        Seq::empty()
    }
}

/// What a key leaves in the log.
pub open spec fn netted_key(
    hidden: Seq<Seq<char>>,
    first: EventModel,
    last: EventModel,
) -> Seq<DeltaModel> {
    net_events(hidden, first, last).map_values(
        |e: EventModel| DeltaModel { op: e.op, row_json: e.text },
    )
}

/// What the first `k` keys leave in the log.
pub open spec fn netted_keys(
    hidden: Seq<Seq<char>>,
    identity: Seq<Seq<char>>,
    events: Seq<EventModel>,
    k: nat,
) -> Seq<DeltaModel>
    decreases k,
{
    if k == 0 {
        Seq::empty()
    } else {
        let first = firsts(identity, events, events.len())[k - 1];
        netted_keys(hidden, identity, events, (k - 1) as nat) + netted_key(
            hidden,
            events[first],
            events[last_of(identity, events, first, events.len())],
        )
    }
}

/// The net effect of events: what each identity key leaves, keys in the order
/// of their first appearance.
pub open spec fn netted_events(spec: SpecModel, events: Seq<EventModel>) -> Seq<DeltaModel> {
    netted_keys(
        spec.hidden_columns,
        identity(spec),
        events,
        firsts(identity(spec), events, events.len()).len(),
    )
}

/// The net effect of the deltas of one source transaction on one view.
pub open spec fn netted(spec: SpecModel, deltas: Seq<DeltaModel>) -> Seq<DeltaModel> {
    netted_events(spec, events_of(deltas))
}

fn agree(identity: &Vec<String>, a: &Json, b: &Json) -> (result: bool)
    ensures
        result == same_key(views(identity@), a@, b@),
{
    let ghost names = views(identity@);
    let mut i: usize = 0;
    while i < identity.len()
        invariant
            names == views(identity@),
            i <= identity@.len(),
            forall|j: int|
                0 <= j < i ==> equal(field(a@, #[trigger] names[j]), field(b@, names[j])),
        decreases identity@.len() - i,
    {
        assert(names[i as int] == identity@[i as int]@);
        if !json::same_field(a, b, &identity[i]) {
            return false;
        }
        i = i + 1;
    }
    true
}

fn read_events(deltas: Vec<Delta>) -> (result: Vec<Event>)
    ensures
        views(result@) == events_of(views(deltas@)),
{
    let ghost models = views(deltas@);
    let mut out: Vec<Event> = Vec::new();
    let mut i: usize = 0;
    assert(views(out@) =~= events_of(models.take(0)));
    while i < deltas.len()
        invariant
            models == views(deltas@),
            i <= deltas@.len(),
            views(out@) == events_of(models.take(i as int)),
        decreases deltas@.len() - i,
    {
        let d = &deltas[i];
        assert(models.take(i + 1).drop_last() =~= models.take(i as int));
        assert(models.take(i + 1).last() == d@);
        let ghost before = views(out@);
        match (json::parse(&d.row_json), json::print(&d.row_json)) {
            (Some(row), Some(text)) => {
                let event = Event { op: d.op, row, text };
                let ghost model = event@;
                out.push(event);
                assert(views(out@) =~= before.push(model));
            },
            _ => {},
        }
        i = i + 1;
    }
    assert(models.take(i as int) =~= models);
    out
}

/// One key: the positions of its first and of its last event.
struct Group {
    first: usize,
    last: usize,
}

proof fn lemma_key_agrees(identity: Seq<Seq<char>>, a: JsonModel, b: JsonModel, c: JsonModel)
    ensures
        same_key(identity, a, a),
        same_key(identity, a, b) ==> same_key(identity, b, a),
        same_key(identity, a, b) && same_key(identity, b, c) ==> same_key(identity, a, c),
{
    assert forall|i: int| 0 <= i < identity.len() implies equal(
        field(a, #[trigger] identity[i]),
        field(a, identity[i]),
    ) && (same_key(identity, a, b) ==> equal(field(b, identity[i]), field(a, identity[i]))) && (
    same_key(identity, a, b) && same_key(identity, b, c) ==> equal(
        field(a, identity[i]),
        field(c, identity[i]),
    )) by {
        json::law_equal_is_an_equivalence(
            field(a, identity[i]),
            field(b, identity[i]),
            field(c, identity[i]),
        );
    }
}

proof fn lemma_firsts(identity: Seq<Seq<char>>, events: Seq<EventModel>, n: nat)
    requires
        n <= events.len(),
    ensures
        forall|k: int|
            0 <= k < firsts(identity, events, n).len() ==> 0 <= (#[trigger] firsts(
                identity,
                events,
                n,
            )[k]) < n && is_first(identity, events, firsts(identity, events, n)[k]),
        forall|i: int|
            0 <= i < n && is_first(identity, events, i) ==> #[trigger] firsts(
                identity,
                events,
                n,
            ).contains(i),
        forall|k: int, l: int|
            0 <= k < l < firsts(identity, events, n).len() ==> firsts(identity, events, n)[k]
                < firsts(identity, events, n)[l],
    decreases n,
{
    if n > 0 {
        lemma_firsts(identity, events, (n - 1) as nat);
        let before = firsts(identity, events, (n - 1) as nat);
        let after = firsts(identity, events, n);
        assert forall|i: int| 0 <= i < n && is_first(identity, events, i) implies #[trigger]
            after.contains(i) by {
            if i < n - 1 {
                assert(before.contains(i));
                let k = choose|k: int| 0 <= k < before.len() && before[k] == i;
                assert(after[k] == i);
            } else {
                assert(after[before.len() as int] == i);
            }
        }
    }
}

/// Every event has the key of exactly one first event.
proof fn lemma_key_of_event(identity: Seq<Seq<char>>, events: Seq<EventModel>, i: int, n: nat)
    requires
        0 <= i < n <= events.len(),
    ensures
        exists|k: int|
            0 <= k < firsts(identity, events, n).len() && same_key(
                identity,
                events[#[trigger] firsts(identity, events, n)[k]].row,
                events[i].row,
            ),
    decreases i,
{
    lemma_firsts(identity, events, n);
    let f = firsts(identity, events, n);
    if is_first(identity, events, i) {
        lemma_key_agrees(identity, events[i].row, events[i].row, events[i].row);
        assert(f.contains(i));
        let k = choose|k: int| 0 <= k < f.len() && f[k] == i;
        assert(same_key(identity, events[f[k]].row, events[i].row));
    } else {
        let j = choose|j: int|
            0 <= j < i && same_key(identity, (#[trigger] events[j]).row, events[i].row);
        lemma_key_of_event(identity, events, j, n);
        let k = choose|k: int|
            0 <= k < f.len() && same_key(identity, events[#[trigger] f[k]].row, events[j].row);
        lemma_key_agrees(identity, events[f[k]].row, events[j].row, events[i].row);
        assert(same_key(identity, events[f[k]].row, events[i].row));
    }
}

/// The keys of the events, in the order of their first appearance.
fn group_events(identity: &Vec<String>, events: &Vec<Event>) -> (result: Vec<Group>)
    ensures
        ({
            let id = views(identity@);
            let models = views(events@);
            let f = firsts(id, models, models.len());
            &&& result@.len() == f.len()
            &&& forall|k: int|
                0 <= k < f.len() ==> (#[trigger] result@[k]).first == f[k] && result@[k].last
                    == last_of(id, models, f[k], models.len()) && result@[k].first
                    < events@.len() && result@[k].last < events@.len()
        }),
{
    let ghost id = views(identity@);
    let ghost models = views(events@);
    let mut groups: Vec<Group> = Vec::new();
    let mut i: usize = 0;
    while i < events.len()
        invariant
            id == views(identity@),
            models == views(events@),
            i <= events@.len(),
            groups@.len() == firsts(id, models, i as nat).len(),
            forall|k: int|
                0 <= k < groups@.len() ==> (#[trigger] groups@[k]).first == firsts(
                    id,
                    models,
                    i as nat,
                )[k] && groups@[k].last == last_of(
                    id,
                    models,
                    groups@[k].first as int,
                    i as nat,
                ) && groups@[k].first < i && groups@[k].last < i,
        decreases events@.len() - i,
    {
        let ghost before = groups@;
        let ghost f = firsts(id, models, i as nat);
        proof {
            lemma_firsts(id, models, i as nat);
        }
        let mut g: usize = 0;
        while g < groups.len() && !agree(identity, &events[groups[g].first].row, &events[i].row)
            invariant
                id == views(identity@),
                models == views(events@),
                i < events@.len(),
                groups@ == before,
                g <= groups@.len(),
                groups@.len() == f.len(),
                forall|k: int|
                    0 <= k < groups@.len() ==> (#[trigger] groups@[k]).first == f[k]
                        && groups@[k].first < i,
                forall|k: int|
                    0 <= k < g ==> !same_key(id, models[#[trigger] f[k]].row, models[i as int].row),
            ensures
                g < groups@.len() ==> same_key(id, models[f[g as int]].row, models[i as int].row),
            decreases groups@.len() - g,
        {
            assert(groups@[g as int].first == f[g as int]);
            g = g + 1;
        }
        if g < groups.len() {
            proof {
                let j = f[g as int];
                assert(!is_first(id, models, i as int)) by {
                    assert(same_key(id, models[j].row, models[i as int].row));
                }
                assert forall|k: int| 0 <= k < before.len() && k != g implies !same_key(
                    id,
                    models[#[trigger] f[k]].row,
                    models[i as int].row,
                ) by {
                    if same_key(id, models[f[k]].row, models[i as int].row) {
                        lemma_key_agrees(id, models[j].row, models[i as int].row, models[f[k]].row);
                        lemma_key_agrees(
                            id,
                            models[f[k]].row,
                            models[i as int].row,
                            models[j].row,
                        );
                        let (low, high) = if k < g {
                            (f[k], j)
                        } else {
                            (j, f[k])
                        };
                        assert(is_first(id, models, high));
                        assert(same_key(id, models[low].row, models[high].row));
                    }
                }
            }
            let first: usize = groups[g].first;
            groups.set(g, Group { first, last: i });
            assert(forall|k: int|
                0 <= k < groups@.len() && k != g ==> #[trigger] groups@[k] == before[k]);
        } else {
            proof {
                if !is_first(id, models, i as int) {
                    let j = choose|j: int|
                        0 <= j < i && same_key(id, (#[trigger] models[j]).row, models[i as int].row);
                    lemma_key_of_event(id, models, j, i as nat);
                    let k = choose|k: int|
                        0 <= k < f.len() && same_key(id, models[#[trigger] f[k]].row, models[j].row);
                    lemma_key_agrees(id, models[f[k]].row, models[j].row, models[i as int].row);
                    assert(false);
                }
                assert forall|k: int| 0 <= k < before.len() implies !same_key(
                    id,
                    models[#[trigger] f[k]].row,
                    models[i as int].row,
                ) by {}
            }
            groups.push(Group { first: i, last: i });
            assert(forall|k: int|
                0 <= k < before.len() ==> #[trigger] groups@[k] == before[k]);
        }
        i = i + 1;
    }
    groups
}

/// Net the deltas of one source transaction for one view. Subscribers
/// therefore only ever see committed states, never the intermediate rows the
/// per-change maintenance passed through.
pub fn net(spec: &ViewSpec, deltas: Vec<Delta>) -> (result: Vec<Delta>)
    ensures
        views(result@) == netted(spec@, views(deltas@)),
{
    let events = read_events(deltas);
    net_events_of(spec, &events)
}

/// Net the events of one source transaction for one view.
pub fn net_events_of(spec: &ViewSpec, events: &Vec<Event>) -> (result: Vec<Delta>)
    ensures
        views(result@) == netted_events(spec@, views(events@)),
{
    let identity = identity_columns(spec);
    let groups = group_events(&identity, events);
    let ghost id = views(identity@);
    let ghost models = views(events@);
    let ghost hidden = views(spec.hidden_columns@);
    let ghost f = firsts(id, models, models.len());
    let mut out: Vec<Delta> = Vec::new();
    let mut k: usize = 0;
    assert(views(out@) =~= netted_keys(hidden, id, models, 0));
    while k < groups.len()
        invariant
            id == views(identity@),
            models == views(events@),
            hidden == views(spec.hidden_columns@),
            f == firsts(id, models, models.len()),
            k <= groups@.len() == f.len(),
            forall|j: int|
                0 <= j < f.len() ==> (#[trigger] groups@[j]).first == f[j] && groups@[j].last
                    == last_of(id, models, f[j], models.len()) && groups@[j].first < events@.len()
                    && groups@[j].last < events@.len(),
            views(out@) == netted_keys(hidden, id, models, k as nat),
        decreases groups@.len() - k,
    {
        let ghost start = views(out@);
        assert(groups@[k as int].first == f[k as int]);
        let first = &events[groups[k].first];
        let last = &events[groups[k].last];
        let before = first.op == 'D';
        let after = last.op == 'I';
        if !(before && after && json::same_shown(&first.row, &last.row, &spec.hidden_columns)) {
            if before {
                out.push(Delta { op: 'D', row_json: first.text.clone() });
            }
            if after {
                out.push(Delta { op: 'I', row_json: last.text.clone() });
            }
        }
        assert(views(out@) =~= start + netted_key(hidden, first@, last@));
        k = k + 1;
    }
    out
}

// --- laws of netting -------------------------------------------------------------

/// What a subscriber sees of a key after events: the visible columns of its
/// row, where there is one.
pub open spec fn shown_after(
    hidden: Seq<Seq<char>>,
    start: Option<JsonModel>,
    events: Seq<EventModel>,
) -> Option<JsonModel>
    decreases events.len(),
{
    if events.len() == 0 {
        start
    } else if events.last().op == 'I' {
        Some(without(events.last().row, hidden))
    } else {
        None
    }
}

/// Whether a subscriber sees the same.
pub open spec fn shown_alike(a: Option<JsonModel>, b: Option<JsonModel>) -> bool {
    match (a, b) {
        (Some(x), Some(y)) => equal(x, y),
        (None, None) => true,
        _ => false,
    }
}

/// What a subscriber saw of a key before its first event: the row that a `D`
/// carries, and no row before an `I`.
pub open spec fn shown_before(hidden: Seq<Seq<char>>, first: EventModel) -> Option<JsonModel> {
    if first.op == 'D' {
        Some(without(first.row, hidden))
    } else {
        None
    }
}

/// The net deltas of a key take a subscriber from what they saw before the
/// transaction to what all of its events would have taken them to, and they
/// are silent exactly when the two look alike.
pub proof fn law_net_reaches_the_final_state(hidden: Seq<Seq<char>>, events: Seq<EventModel>)
    requires
        events.len() > 0,
    ensures
        ({
            let start = shown_before(hidden, events[0]);
            let net = net_events(hidden, events[0], events.last());
            &&& shown_alike(
                shown_after(hidden, start, net),
                shown_after(hidden, start, events),
            )
            &&& net.len() == 0 <==> shown_alike(start, shown_after(hidden, start, events))
        }),
{
    let last = without(events.last().row, hidden);
    json::law_equal_is_an_equivalence(last, last, last);
    let net = net_events(hidden, events[0], events.last());
    if events[0].op == 'D' && net.len() == 1 {
        assert(net.last() == events[0]);
    }
}

proof fn lemma_last_of(identity: Seq<Seq<char>>, events: Seq<EventModel>, i: int, n: nat)
    requires
        0 <= i < n <= events.len(),
    ensures
        i <= last_of(identity, events, i, n) < n,
        same_key(identity, events[i].row, events[last_of(identity, events, i, n)].row),
        forall|j: int|
            i <= j < n && same_key(identity, events[i].row, (#[trigger] events[j]).row) ==> j
                <= last_of(identity, events, i, n),
    decreases n,
{
    lemma_key_agrees(identity, events[i].row, events[i].row, events[i].row);
    if n > i + 1 {
        lemma_last_of(identity, events, i, (n - 1) as nat);
    }
}

/// Each key is netted from its own events: the key at position `k` is taken
/// from its first event to its last one, and every event of that key lies
/// between them.
pub proof fn law_net_spans_each_key(identity: Seq<Seq<char>>, events: Seq<EventModel>, k: int)
    requires
        0 <= k < firsts(identity, events, events.len()).len(),
    ensures
        ({
            let first = firsts(identity, events, events.len())[k];
            let last = last_of(identity, events, first, events.len());
            &&& 0 <= first <= last < events.len()
            &&& same_key(identity, events[first].row, events[last].row)
            &&& forall|j: int|
                0 <= j < events.len() && same_key(
                    identity,
                    (#[trigger] events[j]).row,
                    events[first].row,
                ) ==> first <= j <= last
        }),
{
    lemma_firsts(identity, events, events.len());
    let first = firsts(identity, events, events.len())[k];
    lemma_last_of(identity, events, first, events.len());
    assert forall|j: int|
        0 <= j < events.len() && same_key(
            identity,
            (#[trigger] events[j]).row,
            events[first].row,
        ) implies first <= j <= last_of(identity, events, first, events.len()) by {
        lemma_key_agrees(identity, events[j].row, events[first].row, events[first].row);
        if j < first {
            assert(is_first(identity, events, first));
        }
    }
}

/// Keys keep the order of their first appearance, and no key is netted twice.
pub proof fn law_net_keeps_key_order(
    identity: Seq<Seq<char>>,
    events: Seq<EventModel>,
    k: int,
    l: int,
)
    requires
        0 <= k < l < firsts(identity, events, events.len()).len(),
    ensures
        ({
            let f = firsts(identity, events, events.len());
            f[k] < f[l] && !same_key(identity, events[f[k]].row, events[f[l]].row)
        }),
{
    lemma_firsts(identity, events, events.len());
    let f = firsts(identity, events, events.len());
    assert(is_first(identity, events, f[l]));
}

proof fn lemma_events_bounded(deltas: Seq<DeltaModel>)
    ensures
        events_of(deltas).len() <= deltas.len(),
    decreases deltas.len(),
{
    if deltas.len() > 0 {
        lemma_events_bounded(deltas.drop_last());
    }
}

/// The events that the first `k` keys are netted from.
spec fn kept_events(identity: Seq<Seq<char>>, events: Seq<EventModel>, k: nat) -> Set<int>
    decreases k,
{
    if k == 0 {
        Set::empty()
    } else {
        let first = firsts(identity, events, events.len())[k - 1];
        kept_events(identity, events, (k - 1) as nat).insert(first).insert(
            last_of(identity, events, first, events.len()),
        )
    }
}

proof fn lemma_kept_events(
    hidden: Seq<Seq<char>>,
    identity: Seq<Seq<char>>,
    events: Seq<EventModel>,
    k: nat,
)
    requires
        k <= firsts(identity, events, events.len()).len(),
    ensures
        kept_events(identity, events, k).finite(),
        netted_keys(hidden, identity, events, k).len() <= kept_events(identity, events, k).len(),
        forall|i: int| #[trigger]
            kept_events(identity, events, k).contains(i) ==> 0 <= i < events.len() && exists|j: int|
                0 <= j < k && same_key(
                    identity,
                    events[#[trigger] firsts(identity, events, events.len())[j]].row,
                    events[i].row,
                ),
    decreases k,
{
    if k > 0 {
        let before = kept_events(identity, events, (k - 1) as nat);
        let f = firsts(identity, events, events.len());
        lemma_kept_events(hidden, identity, events, (k - 1) as nat);
        lemma_firsts(identity, events, events.len());
        let first = f[k - 1];
        let last = last_of(identity, events, first, events.len());
        lemma_last_of(identity, events, first, events.len());
        lemma_key_agrees(identity, events[first].row, events[last].row, events[first].row);
        assert forall|i: int| (i == first || i == last) implies !before.contains(i) by {
            if before.contains(i) {
                let j = choose|j: int|
                    0 <= j < k - 1 && same_key(
                        identity,
                        events[#[trigger] f[j]].row,
                        events[i].row,
                    );
                lemma_key_agrees(identity, events[first].row, events[i].row, events[first].row);
                lemma_key_agrees(identity, events[f[j]].row, events[i].row, events[first].row);
                assert(is_first(identity, events, first));
                assert(f[j] < first);
            }
        }
        assert(same_key(identity, events[f[k - 1]].row, events[first].row));
        assert(same_key(identity, events[f[k - 1]].row, events[last].row));
    }
}

/// Netting never makes the log longer than the deltas it was given.
pub proof fn law_net_is_no_longer(spec: SpecModel, deltas: Seq<DeltaModel>)
    ensures
        netted(spec, deltas).len() <= deltas.len(),
{
    let events = events_of(deltas);
    let id = identity(spec);
    let k = firsts(id, events, events.len()).len();
    lemma_events_bounded(deltas);
    lemma_kept_events(spec.hidden_columns, id, events, k);
    let all = vstd::set_lib::set_int_range(0, events.len() as int);
    vstd::set_lib::lemma_int_range(0, events.len() as int);
    assert(kept_events(id, events, k).subset_of(all));
    vstd::set_lib::lemma_len_subset(kept_events(id, events, k), all);
}

// --- planned changes -------------------------------------------------------------

/// Why a view can no longer be maintained incrementally.
#[derive(Debug, PartialEq, Eq)]
pub struct Stale(pub String);

/// One planned change to a view table.
#[derive(Debug, PartialEq, Eq)]
pub enum Op {
    /// A row shaped like the view table (JSON object keyed by column name).
    /// Projection: the row to insert (+1) or delete (-1). Aggregate: one
    /// group's contribution, added (+1) or removed (-1).
    Row { sign: i32, row_json: String },
    /// Delete by typed key values (single-table projection deletes, where
    /// the decoded old row carries only the key).
    DeleteByKey { conds: String, values: Vec<Option<String>> },
}

pub enum OpModel {
    Row { sign: i32, row_json: Seq<char> },
    DeleteByKey { conds: Seq<char>, values: Seq<Option<Seq<char>>> },
}

impl View for Op {
    type V = OpModel;

    open spec fn view(&self) -> OpModel {
        match self {
            Op::Row { sign, row_json } => OpModel::Row { sign: *sign, row_json: row_json@ },
            Op::DeleteByKey { conds, values } => OpModel::DeleteByKey {
                conds: conds@,
                values: texts(values@),
            },
        }
    }
}

#[derive(Debug, PartialEq, Eq)]
pub enum Planned {
    Ops(Vec<Op>),
    Stale(Stale),
}

/// One step of planning: a query whose rows are delta rows of the given sign,
/// or an operation that needs no query.
#[derive(Debug, PartialEq, Eq)]
pub enum Step {
    Rows { query: Statement, sign: i32 },
    Delete { conds: String, values: Vec<Option<String>> },
}

pub enum StepModel {
    Rows { query: StatementModel, sign: i32 },
    Delete { conds: Seq<char>, values: Seq<Option<Seq<char>>> },
}

impl View for Step {
    type V = StepModel;

    open spec fn view(&self) -> StepModel {
        match self {
            Step::Rows { query, sign } => StepModel::Rows { query: query@, sign: *sign },
            Step::Delete { conds, values } => StepModel::Delete {
                conds: conds@,
                values: texts(values@),
            },
        }
    }
}

/// What planning comes to once its steps have run.
#[derive(Debug, PartialEq, Eq)]
pub enum PlanEnd {
    Done,
    Stale(Stale),
    Failed(String),
}

pub enum EndModel {
    Done,
    Stale(Seq<char>),
    Failed(Seq<char>),
}

impl View for PlanEnd {
    type V = EndModel;

    open spec fn view(&self) -> EndModel {
        match self {
            PlanEnd::Done => EndModel::Done,
            PlanEnd::Stale(s) => EndModel::Stale(s.0@),
            PlanEnd::Failed(e) => EndModel::Failed(e@),
        }
    }
}

/// The planning of one change for one view: the steps to run, in order, and
/// what it comes to when none of them fails.
#[derive(Debug, PartialEq, Eq)]
pub struct Plan {
    pub steps: Vec<Step>,
    pub end: PlanEnd,
}

pub struct PlanModel {
    pub steps: Seq<StepModel>,
    pub end: EndModel,
}

impl View for Plan {
    type V = PlanModel;

    open spec fn view(&self) -> PlanModel {
        PlanModel { steps: views(self.steps@), end: self.end@ }
    }
}

pub open spec fn plan_nothing(end: EndModel) -> PlanModel {
    PlanModel { steps: Seq::empty(), end }
}

pub open spec fn plan_step(step: StepModel) -> PlanModel {
    PlanModel { steps: seq![step], end: EndModel::Done }
}

/// One planning behind another. The second is reached only where the first
/// comes to an end of its own.
pub open spec fn followed_by(first: PlanModel, second: PlanModel) -> PlanModel {
    match first.end {
        EndModel::Done => PlanModel { steps: first.steps + second.steps, end: second.end },
        _ => first,
    }
}

impl Plan {
    pub fn nothing(end: PlanEnd) -> (result: Plan)
        ensures
            result@ == plan_nothing(end@),
    {
        let plan = Plan { steps: Vec::new(), end };
        assert(plan@.steps =~= Seq::empty());
        plan
    }

    pub fn step(step: Step) -> (result: Plan)
        ensures
            result@ == plan_step(step@),
    {
        let plan = Plan { steps: vec![step], end: PlanEnd::Done };
        assert(plan@.steps =~= seq![step@]);
        plan
    }

    pub fn followed(self, second: Plan) -> (result: Plan)
        ensures
            result@ == followed_by(self@, second@),
    {
        match self.end {
            PlanEnd::Done => {
                let mut steps = self.steps;
                let mut more = second.steps;
                let ghost first = views(steps@);
                let ghost behind = views(more@);
                steps.append(&mut more);
                assert(views(steps@) =~= first + behind);
                Plan { steps, end: second.end }
            },
            _ => self,
        }
    }
}

/// The operations of a step, given the rows of its query.
pub open spec fn step_ops(step: StepModel, rows: Seq<Seq<char>>) -> Seq<OpModel> {
    match step {
        StepModel::Rows { query, sign } => rows.map_values(
            |row_json: Seq<char>| OpModel::Row { sign, row_json },
        ),
        StepModel::Delete { conds, values } => seq![OpModel::DeleteByKey { conds, values }],
    }
}

/// The operations of the first `n` steps, given the rows of each.
pub open spec fn steps_ops(
    steps: Seq<StepModel>,
    rows: Seq<Seq<Seq<char>>>,
    n: nat,
) -> Seq<OpModel>
    decreases n,
{
    if n == 0 {
        Seq::empty()
    } else {
        steps_ops(steps, rows, (n - 1) as nat) + step_ops(steps[n - 1], rows[n - 1])
    }
}

/// What the planning of a change came to.
pub enum PlannedModel {
    Ops(Seq<OpModel>),
    Stale(Seq<char>),
    Failed(Seq<char>),
}

pub open spec fn planned_model(result: Result<Planned, String>) -> PlannedModel {
    match result {
        Ok(Planned::Ops(ops)) => PlannedModel::Ops(views(ops@)),
        Ok(Planned::Stale(s)) => PlannedModel::Stale(s.0@),
        Err(e) => PlannedModel::Failed(e@),
    }
}

/// The outcome of a plan whose steps have all run.
pub open spec fn plan_outcome(plan: PlanModel, rows: Seq<Seq<Seq<char>>>) -> PlannedModel {
    match plan.end {
        EndModel::Done => PlannedModel::Ops(steps_ops(plan.steps, rows, plan.steps.len())),
        EndModel::Stale(reason) => PlannedModel::Stale(reason),
        EndModel::Failed(message) => PlannedModel::Failed(message),
    }
}

/// The rows that queries returned.
pub open spec fn row_texts(rows: Seq<Vec<String>>) -> Seq<Seq<Seq<char>>> {
    rows.map_values(|r: Vec<String>| views(r@))
}

/// The outcome of a plan, given the rows that each step's query returned (none
/// for a step without one).
pub fn conclude(plan: Plan, rows: Vec<Vec<String>>) -> (result: Result<Planned, String>)
    requires
        rows@.len() == plan.steps@.len(),
    ensures
        planned_model(result) == plan_outcome(plan@, row_texts(rows@)),
{
    match plan.end {
        PlanEnd::Stale(s) => return Ok(Planned::Stale(s)),
        PlanEnd::Failed(e) => return Err(e),
        PlanEnd::Done => {},
    }
    let ghost model = plan@;
    let ghost results = row_texts(rows@);
    let mut ops: Vec<Op> = Vec::new();
    let mut i: usize = 0;
    assert(views(ops@) =~= steps_ops(model.steps, results, 0));
    while i < plan.steps.len()
        invariant
            model == plan@,
            results == row_texts(rows@),
            rows@.len() == plan.steps@.len(),
            i <= plan.steps@.len(),
            views(ops@) == steps_ops(model.steps, results, i as nat),
        decreases plan.steps@.len() - i,
    {
        let ghost start = views(ops@);
        let step = &plan.steps[i];
        assert(model.steps[i as int] == step@);
        assert(results[i as int] == views(rows@[i as int]@));
        match step {
            Step::Rows { query, sign } => {
                let ghost added = step_ops(step@, results[i as int]);
                let found = &rows[i];
                let mut k: usize = 0;
                assert(start =~= start + added.take(0));
                while k < found.len()
                    invariant
                        k <= found@.len(),
                        added == views(found@).map_values(
                            |row_json: Seq<char>| OpModel::Row { sign: *sign, row_json },
                        ),
                        views(ops@) == start + added.take(k as int),
                    decreases found@.len() - k,
                {
                    let ghost before = views(ops@);
                    ops.push(Op::Row { sign: *sign, row_json: found[k].clone() });
                    assert(views(ops@) =~= before.push(added[k as int]));
                    assert(added.take(k + 1) =~= added.take(k as int).push(added[k as int]));
                    k = k + 1;
                    assert(views(ops@) =~= start + added.take(k as int));
                }
                assert(added.take(k as int) =~= added);
            },
            Step::Delete { conds, values } => {
                let copy = values.clone();
                assert(copy@ =~= values@);
                ops.push(Op::DeleteByKey { conds: conds.clone(), values: copy });
                assert(views(ops@) =~= start + step_ops(step@, results[i as int]));
            },
        }
        i = i + 1;
    }
    Ok(Planned::Ops(ops))
}

// --- rows as sources -------------------------------------------------------------

/// The column names of a decoded relation.
pub open spec fn column_names(rel: RelationModel) -> Seq<Seq<char>> {
    rel.columns.map_values(|c: crate::pgoutput::ColumnModel| c.name)
}

pub fn rel_column_index(rel: &Relation, name: &str) -> (result: Option<usize>)
    ensures
        match result {
            Some(i) => i < rel.columns@.len() && text::index_of(column_names(rel@), name@) == Some(
                i as int,
            ),
            None => text::index_of(column_names(rel@), name@) is None,
        },
{
    let ghost names = column_names(rel@);
    let mut i: usize = 0;
    while i < rel.columns.len()
        invariant
            names == column_names(rel@),
            i <= rel.columns@.len(),
            forall|j: int| 0 <= j < i ==> names[j] != name@,
        decreases rel.columns@.len() - i,
    {
        assert(names[i as int] == rel.columns@[i as int].name@);
        if text::same(&rel.columns[i].name, name) {
            proof {
                text::lemma_index_is(names, name@, i as int);
            }
            return Some(i);
        }
        i = i + 1;
    }
    proof {
        text::lemma_index_of(names, name@);
    }
    None
}

/// The first column whose type has not been resolved.
pub open spec fn unresolved(rel: RelationModel, n: nat) -> Option<Seq<char>>
    decreases n,
{
    if n == 0 {
        None
    } else {
        match unresolved(rel, (n - 1) as nat) {
            Some(name) => Some(name),
            None => if rel.columns[n - 1].resolved_type is None {
                Some(rel.columns[n - 1].name)
            } else {
                None
            },
        }
    }
}

proof fn lemma_unresolved_stays(rel: RelationModel, n: nat, m: nat)
    requires
        n <= m,
        unresolved(rel, n) is Some,
    ensures
        unresolved(rel, m) == unresolved(rel, n),
    decreases m - n,
{
    if n < m {
        lemma_unresolved_stays(rel, n, (m - 1) as nat);
    }
}

/// `$<n>::<type>`: a text parameter cast to a column's type.
pub open spec fn cast(n: nat, ty: Seq<char>) -> Seq<char> {
    "$"@ + decimal(n) + "::"@ + ty
}

/// `(VALUES ($1::t1, $2::t2, ...)) AS alias(c1, c2, ...)`, using the
/// resolved type of each column so text values are cast correctly.
pub open spec fn values_text(
    rel: RelationModel,
    alias: Seq<char>,
    first_param: nat,
    quoting: spec_fn(Seq<char>) -> Seq<char>,
) -> Result<Seq<char>, Seq<char>> {
    match unresolved(rel, rel.columns.len()) {
        Some(name) => Err("type of column "@ + name + " not resolved"@),
        None => Ok(
            "(VALUES ("@ + joined(
                Seq::new(
                    rel.columns.len(),
                    |i: int| cast((first_param + i) as nat, rel.columns[i].resolved_type->0),
                ),
                ", "@,
            ) + ")) AS "@ + quoting(alias) + "("@ + joined(
                column_names(rel).map_values(|name: Seq<char>| quoting(name)),
                ", "@,
            ) + ")"@,
        ),
    }
}

pub fn values_source(rel: &Relation, alias: &str, first_param: usize, quoting: &Quoting) -> (result:
    Result<String, String>)
    requires
        first_param + rel.columns@.len() <= usize::MAX,
    ensures
        match result {
            Ok(sql) => values_text(rel@, alias@, first_param as nat, quoting@) == Ok::<
                Seq<char>,
                Seq<char>,
            >(sql@),
            Err(e) => values_text(rel@, alias@, first_param as nat, quoting@) == Err::<
                Seq<char>,
                Seq<char>,
            >(e@),
        },
{
    let ghost model = rel@;
    let mut casts: Vec<String> = Vec::new();
    let mut names: Vec<String> = Vec::new();
    let mut i: usize = 0;
    while i < rel.columns.len()
        invariant
            model == rel@,
            first_param + rel.columns@.len() <= usize::MAX,
            i <= rel.columns@.len(),
            unresolved(model, i as nat) is None,
            casts@.len() == i,
            names@.len() == i,
            forall|j: int|
                0 <= j < i ==> (#[trigger] casts@[j])@ == cast(
                    (first_param + j) as nat,
                    model.columns[j].resolved_type->0,
                ),
            forall|j: int| 0 <= j < i ==> (#[trigger] names@[j])@ == quoting@(model.columns[j].name),
        decreases rel.columns@.len() - i,
    {
        let col = &rel.columns[i];
        assert(model.columns[i as int] == col@);
        match &col.resolved_type {
            None => {
                proof {
                    lemma_unresolved_stays(model, (i + 1) as nat, model.columns.len());
                }
                return Err(
                    "type of column ".to_string().concat(&col.name).concat(" not resolved"),
                );
            },
            Some(ty) => {
                casts.push(
                    "$".to_string().concat(&text::decimal_text((first_param + i) as u64)).concat(
                        "::",
                    ).concat(ty),
                );
            },
        }
        names.push(quoting.ident(&col.name));
        i = i + 1;
    }
    assert(views(casts@) =~= Seq::new(
        model.columns.len(),
        |i: int| cast((first_param + i) as nat, model.columns[i].resolved_type->0),
    ));
    assert(views(names@) =~= column_names(model).map_values(|name: Seq<char>| quoting@(name)));
    Ok(
        "(VALUES (".to_string().concat(&text::join(&casts, ", ")).concat(")) AS ").concat(
            &quoting.ident(alias),
        ).concat("(").concat(&text::join(&names, ", ")).concat(")"),
    )
}

/// A decoded value as a text parameter.
pub open spec fn cell_text(cell: Cell) -> Option<Seq<char>> {
    match cell {
        Cell::Text(s) => Some(s),
        _ => None,
    }
}

/// The values of a row as text parameters.
pub fn row_args(tuple: &Tuple) -> (result: Vec<Option<String>>)
    ensures
        texts(result@) == views(tuple@).map_values(|c: Cell| cell_text(c)),
{
    let mut out: Vec<Option<String>> = Vec::new();
    let mut i: usize = 0;
    while i < tuple.len()
        invariant
            i <= tuple@.len(),
            out@.len() == i,
            forall|j: int|
                0 <= j < i ==> view_of_option(#[trigger] out@[j]) == cell_text(tuple@[j]@),
        decreases tuple@.len() - i,
    {
        out.push(
            match &tuple[i] {
                ColumnValue::Text(s) => Some(s.clone()),
                _ => None,
            },
        );
        i = i + 1;
    }
    assert(texts(out@) =~= views(tuple@).map_values(|c: Cell| cell_text(c)));
    out
}

// --- unchanged values ------------------------------------------------------------

/// The value of a column whose new value is left out as unchanged: the old
/// value where that is known, NULL where the definition never mentions the
/// column; otherwise it stays unknown.
pub open spec fn resolved_cell(
    name: Seq<char>,
    new: Cell,
    old: Option<Seq<Cell>>,
    i: int,
    mentions: spec_fn(Seq<char>) -> bool,
) -> Option<Cell> {
    match new {
        Cell::Unchanged => match old {
            Some(cells) if i < cells.len() && cells[i] != Cell::Unchanged => Some(cells[i]),
            _ => if mentions(name) {
                None
            } else {
                Some(Cell::Null)
            },
        },
        other => Some(other),
    }
}

/// The first `n` values of a row with every unchanged one resolved.
pub open spec fn resolved(
    rel: RelationModel,
    new: Seq<Cell>,
    old: Option<Seq<Cell>>,
    mentions: spec_fn(Seq<char>) -> bool,
    n: nat,
) -> Result<Seq<Cell>, Seq<char>>
    decreases n,
{
    if n == 0 {
        Ok(Seq::empty())
    } else {
        match resolved(rel, new, old, mentions, (n - 1) as nat) {
            Err(reason) => Err(reason),
            Ok(cells) => match resolved_cell(
                rel.columns[n - 1].name,
                new[n - 1],
                old,
                n - 1,
                mentions,
            ) {
                Some(cell) => Ok(cells.push(cell)),
                None => Err(
                    "unchanged TOAST value for column "@ + rel.columns[n - 1].name
                        + " could not be recovered (REPLICA IDENTITY FULL is required)"@,
                ),
            },
        }
    }
}

proof fn lemma_resolved_stays(
    rel: RelationModel,
    new: Seq<Cell>,
    old: Option<Seq<Cell>>,
    mentions: spec_fn(Seq<char>) -> bool,
    n: nat,
    m: nat,
)
    requires
        n <= m,
        resolved(rel, new, old, mentions, n) is Err,
    ensures
        resolved(rel, new, old, mentions, m) == resolved(rel, new, old, mentions, n),
    decreases m - n,
{
    if n < m {
        lemma_resolved_stays(rel, new, old, mentions, n, (m - 1) as nat);
    }
}

/// Whether `mentions` is what the function `f` computes.
pub open spec fn computes<F: Fn(&str) -> bool>(f: F, mentions: spec_fn(Seq<char>) -> bool) -> bool {
    forall|s: &str, r: bool| #[trigger] call_ensures(f, (s,), r) ==> r == mentions(s@)
}

/// Whether one of the first `n` values is unchanged, of the column with this name,
/// and the old row does not have it either: what a definition is asked about.
pub open spec fn is_lost(
    rel: RelationModel,
    new: Seq<Cell>,
    old: Option<Seq<Cell>>,
    n: nat,
    name: Seq<char>,
) -> bool {
    exists|i: int|
        0 <= i < n && i < new.len() && i < rel.columns.len() && #[trigger] new[i] == Cell::Unchanged
            && !(old matches Some(cells) && i < cells.len() && cells[i] != Cell::Unchanged)
            && rel.columns[i].name == name
}

/// Every unchanged value stands for a column of the relation.
pub open spec fn unchanged_in_range(rel: RelationModel, new: Seq<Cell>) -> bool {
    forall|i: int|
        0 <= i < new.len() && #[trigger] new[i] == Cell::Unchanged ==> i < rel.columns.len()
}

/// The first `n` values of a new row with the unchanged ones resolved.
fn resolve_first<F: Fn(&str) -> bool>(
    rel: &Relation,
    new: &Tuple,
    old: Option<&Tuple>,
    definition_mentions: F,
    n: usize,
) -> (result: Result<Tuple, Stale>)
    requires
        n <= new@.len(),
        forall|i: int|
            0 <= i < n && #[trigger] views(new@)[i] == Cell::Unchanged ==> i < rel.columns@.len(),
        forall|s: &str|
            is_lost(rel@, views(new@), tuple_model(old), n as nat, s@) ==> #[trigger] call_requires(
                definition_mentions,
                (s,),
            ),
    ensures
        forall|m: spec_fn(Seq<char>) -> bool|
            computes(definition_mentions, m) ==> match result {
                Ok(tuple) => #[trigger] resolved(
                    rel@,
                    views(new@),
                    tuple_model(old),
                    m,
                    n as nat,
                ) == Ok::<Seq<Cell>, Seq<char>>(views(tuple@)),
                Err(stale) => resolved(rel@, views(new@), tuple_model(old), m, n as nat) == Err::<
                    Seq<Cell>,
                    Seq<char>,
                >(stale.0@),
            },
{
    let ghost model = rel@;
    let ghost cells = views(new@);
    let ghost before = tuple_model(old);
    let mut out: Tuple = Vec::new();
    let mut i: usize = 0;
    assert(views(out@) =~= Seq::empty());
    while i < n
        invariant
            model == rel@,
            cells == views(new@),
            before == tuple_model(old),
            n <= new@.len(),
            forall|i: int|
                0 <= i < n && #[trigger] cells[i] == Cell::Unchanged ==> i < rel.columns@.len(),
            forall|s: &str|
                is_lost(model, cells, before, n as nat, s@) ==> #[trigger] call_requires(
                    definition_mentions,
                    (s,),
                ),
            i <= n,
            forall|m: spec_fn(Seq<char>) -> bool|
                computes(definition_mentions, m) ==> #[trigger] resolved(
                    model,
                    cells,
                    before,
                    m,
                    i as nat,
                ) == Ok::<Seq<Cell>, Seq<char>>(views(out@)),
        decreases n - i,
    {
        let ghost start = views(out@);
        assert(cells[i as int] == new@[i as int]@);
        let value = match &new[i] {
            ColumnValue::Unchanged => {
                assert(cells[i as int] == Cell::Unchanged);
                let col = rel.columns[i].name.as_str();
                assert(model.columns[i as int].name == col@);
                let known: Option<ColumnValue> = match old {
                    Some(old_tuple) => if i < old_tuple.len() {
                        match &old_tuple[i] {
                            ColumnValue::Unchanged => None,
                            value => Some(value.clone()),
                        }
                    } else {
                        None
                    },
                    None => None,
                };
                match known {
                    Some(value) => value,
                    None => {
                        assert(is_lost(model, cells, before, n as nat, col@)) by {
                            assert(cells[i as int] == Cell::Unchanged);
                        }
                        if definition_mentions(col) {
                            let reason = "unchanged TOAST value for column ".to_string().concat(
                                col,
                            ).concat(
                                " could not be recovered (REPLICA IDENTITY FULL is required)",
                            );
                            proof {
                                assert forall|m: spec_fn(Seq<char>) -> bool|
                                    computes(definition_mentions, m) implies #[trigger] resolved(
                                    model,
                                    cells,
                                    before,
                                    m,
                                    n as nat,
                                ) == Err::<Seq<Cell>, Seq<char>>(reason@) by {
                                    assert(resolved(model, cells, before, m, i as nat) is Ok);
                                    assert(m(col@));
                                    assert(resolved(model, cells, before, m, (i + 1) as nat)
                                        == Err::<Seq<Cell>, Seq<char>>(reason@));
                                    lemma_resolved_stays(
                                        model,
                                        cells,
                                        before,
                                        m,
                                        (i + 1) as nat,
                                        n as nat,
                                    );
                                }
                            }
                            return Err(Stale(reason));
                        }
                        ColumnValue::Null
                    },
                }
            },
            value => value.clone(),
        };
        let ghost added = value@;
        out.push(value);
        assert(views(out@) =~= start.push(added));
        proof {
            assert forall|m: spec_fn(Seq<char>) -> bool|
                computes(definition_mentions, m) implies #[trigger] resolved(
                model,
                cells,
                before,
                m,
                (i + 1) as nat,
            ) == Ok::<Seq<Cell>, Seq<char>>(views(out@)) by {
                assert(resolved(model, cells, before, m, i as nat) is Ok);
            }
        }
        i = i + 1;
    }
    Ok(out)
}

/// Substitute unchanged-TOAST markers from the old tuple when available.
/// Columns the definition never mentions are set to NULL; anything else that
/// stays unknown makes the view stale.
pub fn resolve_unchanged<F: Fn(&str) -> bool>(
    rel: &Relation,
    new: &Tuple,
    old: Option<&Tuple>,
    definition_mentions: F,
) -> (result: Result<Tuple, Stale>)
    requires
        unchanged_in_range(rel@, views(new@)),
        forall|s: &str|
            is_lost(rel@, views(new@), tuple_model(old), new@.len(), s@)
                ==> #[trigger] call_requires(definition_mentions, (s,)),
    ensures
        forall|m: spec_fn(Seq<char>) -> bool|
            computes(definition_mentions, m) ==> match result {
                Ok(tuple) => #[trigger] resolved(
                    rel@,
                    views(new@),
                    tuple_model(old),
                    m,
                    new@.len(),
                ) == Ok::<Seq<Cell>, Seq<char>>(views(tuple@)),
                Err(stale) => resolved(rel@, views(new@), tuple_model(old), m, new@.len()) == Err::<
                    Seq<Cell>,
                    Seq<char>,
                >(stale.0@),
            },
{
    resolve_first(rel, new, old, definition_mentions, new.len())
}

/// The text of an index that a list does not have.
pub open spec fn out_of_bounds(len: nat, index: nat) -> Seq<char> {
    "index out of bounds: the len is "@ + decimal(len) + " but the index is "@ + decimal(index)
}

pub(crate) fn out_of_bounds_text(len: usize, index: usize) -> (result: String)
    ensures
        result@ == out_of_bounds(len as nat, index as nat),
{
    "index out of bounds: the len is ".to_string().concat(&text::decimal_text(len as u64)).concat(
        " but the index is ",
    ).concat(&text::decimal_text(index as u64))
}

/// The first of the first `n` values that is unchanged and stands for no column
/// of the relation.
pub open spec fn first_stray(rel: RelationModel, new: Seq<Cell>, n: nat) -> Option<int>
    decreases n,
{
    if n == 0 {
        None
    } else {
        match first_stray(rel, new, (n - 1) as nat) {
            Some(i) => Some(i),
            None => if n - 1 >= rel.columns.len() && new[n - 1] == Cell::Unchanged {
                Some(n - 1)
            } else {
                None
            },
        }
    }
}

/// A new row with its unchanged values resolved; or how its plan ends: a value
/// that stays unknown makes the view stale, one that stands for no column fails.
pub open spec fn resolved_row(
    rel: RelationModel,
    new: Seq<Cell>,
    old: Option<Seq<Cell>>,
    mentions: spec_fn(Seq<char>) -> bool,
) -> Result<Seq<Cell>, EndModel> {
    let stray = first_stray(rel, new, new.len());
    let n = match stray {
        Some(i) => i as nat,
        None => new.len(),
    };
    match resolved(rel, new, old, mentions, n) {
        Err(reason) => Err(EndModel::Stale(reason)),
        Ok(row) => match stray {
            Some(i) => Err(EndModel::Failed(out_of_bounds(rel.columns.len(), i as nat))),
            None => Ok(row),
        },
    }
}

proof fn lemma_first_stray(rel: RelationModel, new: Seq<Cell>, n: nat, m: nat)
    requires
        n <= m,
    ensures
        first_stray(rel, new, n) is Some ==> first_stray(rel, new, m) == first_stray(rel, new, n),
    decreases m - n,
{
    if n < m {
        lemma_first_stray(rel, new, n, (m - 1) as nat);
    }
}

/// A new row with its unchanged values resolved, whatever its length.
pub fn resolve_row<F: Fn(&str) -> bool>(
    rel: &Relation,
    new: &Tuple,
    old: Option<&Tuple>,
    definition_mentions: F,
) -> (result: Result<Tuple, PlanEnd>)
    requires
        forall|s: &str|
            is_lost(rel@, views(new@), tuple_model(old), new@.len(), s@)
                ==> #[trigger] call_requires(definition_mentions, (s,)),
    ensures
        forall|m: spec_fn(Seq<char>) -> bool|
            computes(definition_mentions, m) ==> match result {
                Ok(tuple) => #[trigger] resolved_row(rel@, views(new@), tuple_model(old), m) == Ok::<
                    Seq<Cell>,
                    EndModel,
                >(views(tuple@)),
                Err(end) => resolved_row(rel@, views(new@), tuple_model(old), m) == Err::<
                    Seq<Cell>,
                    EndModel,
                >(end@),
            },
{
    let ghost model = rel@;
    let ghost cells = views(new@);
    let mut i: usize = 0;
    while i < new.len()
        invariant
            model == rel@,
            cells == views(new@),
            i <= new@.len(),
            first_stray(model, cells, i as nat) is None,
            forall|k: int|
                0 <= k < i && #[trigger] cells[k] == Cell::Unchanged ==> k < rel.columns@.len(),
        ensures
            i < new@.len() ==> i >= rel.columns@.len() && cells[i as int] == Cell::Unchanged,
        decreases new@.len() - i,
    {
        assert(cells[i as int] == new@[i as int]@);
        if i >= rel.columns.len() && matches!(new[i], ColumnValue::Unchanged) {
            break;
        }
        i = i + 1;
    }
    proof {
        if i < new@.len() {
            assert(cells[i as int] == new@[i as int]@);
            assert(first_stray(model, cells, (i + 1) as nat) == Some(i as int));
            lemma_first_stray(model, cells, (i + 1) as nat, cells.len());
        }
    }
    let outcome = resolve_first(rel, new, old, definition_mentions, i);
    let result = match outcome {
        Err(stale) => Err(PlanEnd::Stale(stale)),
        Ok(row) => if i < new.len() {
            Err(PlanEnd::Failed(out_of_bounds_text(rel.columns.len(), i)))
        } else {
            Ok(row)
        },
    };
    proof {
        let before = tuple_model(old);
        assert forall|m: spec_fn(Seq<char>) -> bool| computes(definition_mentions, m) implies (
        match result {
            Ok(tuple) => #[trigger] resolved_row(model, cells, before, m) == Ok::<
                Seq<Cell>,
                EndModel,
            >(views(tuple@)),
            Err(end) => resolved_row(model, cells, before, m) == Err::<Seq<Cell>, EndModel>(end@),
        }) by {
            let known = resolved(model, cells, before, m, i as nat);
        }
    }
    result
}

/// The values of an optional row.
pub open spec fn tuple_model(tuple: Option<&Tuple>) -> Option<Seq<Cell>> {
    match tuple {
        Some(t) => Some(views(t@)),
        None => None,
    }
}

// --- planning: queries -------------------------------------------------------------

/// The view's own query over an arbitrary FROM list, returning each result
/// row as a JSON object shaped like the view table.
pub open spec fn delta_query(spec: SpecModel, from_list: Seq<char>) -> Seq<char> {
    "SELECT to_jsonb(r)::text FROM (SELECT "@ + spec.select_list + " FROM "@ + from_list + clause(
        " WHERE "@,
        spec.predicate,
    ) + clause(" GROUP BY "@, spec.group_by) + ") AS r"@
}

/// The step that evaluates the view's query for one row.
pub open spec fn delta_step(
    spec: SpecModel,
    from_list: Seq<char>,
    row: Seq<Cell>,
    sign: i32,
) -> StepModel {
    StepModel::Rows {
        query: StatementModel {
            sql: delta_query(spec, from_list),
            args: text_args(row.map_values(|c: Cell| cell_text(c))),
        },
        sign,
    }
}

fn delta_rows(spec: &ViewSpec, from_list: &str, row: &Tuple, sign: i32) -> (result: Step)
    ensures
        result@ == delta_step(spec@, from_list@, views(row@), sign),
{
    let mut sql = "SELECT to_jsonb(r)::text FROM (SELECT ".to_string().concat(
        &spec.select_list,
    ).concat(" FROM ").concat(from_list);
    let ghost head = sql@;
    if let Some(p) = &spec.predicate {
        sql.append(" WHERE ");
        sql.append(p);
    }
    assert(sql@ =~= head + clause(" WHERE "@, spec@.predicate));
    let ghost filtered = sql@;
    if let Some(g) = &spec.group_by {
        sql.append(" GROUP BY ");
        sql.append(g);
    }
    assert(sql@ =~= filtered + clause(" GROUP BY "@, spec@.group_by));
    sql.append(") AS r");
    Step::Rows { query: Statement::with_texts(sql, &row_args(row)), sign }
}

// --- planning: single-table views ----------------------------------------------------

/// The plan that evaluates the view's query over one row of its base table.
pub open spec fn single_rows(
    spec: SpecModel,
    rel: RelationModel,
    row: Seq<Cell>,
    sign: i32,
    quoting: spec_fn(Seq<char>) -> Seq<char>,
) -> PlanModel {
    match values_text(rel, spec.base_relname, 1, quoting) {
        Ok(source) => plan_step(delta_step(spec, source, row, sign)),
        Err(e) => plan_nothing(EndModel::Failed(e)),
    }
}

fn plan_single_rows(spec: &ViewSpec, rel: &Relation, row: &Tuple, sign: i32, quoting: &Quoting) -> (result:
    Plan)
    requires
        rel.columns@.len() < usize::MAX,
    ensures
        result@ == single_rows(spec@, rel@, views(row@), sign, quoting@),
{
    match values_source(rel, &spec.base_relname, 1, quoting) {
        Ok(source) => Plan::step(delta_rows(spec, &source, row, sign)),
        Err(e) => Plan::nothing(PlanEnd::Failed(e)),
    }
}

pub fn plan_single_insert(view: &ViewTarget<'_>, rel: &Relation, new: &Tuple, quoting: &Quoting) -> (result:
    Plan)
    requires
        rel.columns@.len() < usize::MAX,
    ensures
        result@ == single_rows(view.spec@, rel@, views(new@), 1, quoting@),
{
    plan_single_rows(view.spec, rel, new, 1, quoting)
}

/// The conditions and values that locate a view row by the old row's key, for
/// the first `n` key columns; or how planning ends there.
pub open spec fn key_conditions(
    spec: SpecModel,
    rel: RelationModel,
    old: Seq<Cell>,
    quoting: spec_fn(Seq<char>) -> Seq<char>,
    n: nat,
) -> Result<(Seq<Seq<char>>, Seq<Option<Seq<char>>>), EndModel>
    decreases n,
{
    if n == 0 {
        Ok((Seq::empty(), Seq::empty()))
    } else {
        let pk = spec.pk_columns[n - 1];
        match key_conditions(spec, rel, old, quoting, (n - 1) as nat) {
            Err(end) => Err(end),
            Ok((conds, values)) => match text::index_of(column_names(rel), pk) {
                None => Err(EndModel::Failed("primary key column "@ + pk + " missing"@)),
                Some(i) => match rel.columns[i].resolved_type {
                    None => Err(EndModel::Failed("type not resolved"@)),
                    Some(ty) => if i >= old.len() {
                        Err(EndModel::Failed(out_of_bounds(old.len(), i as nat)))
                    } else {
                        match old[i] {
                            Cell::Text(s) => Ok(
                                (
                                    conds.push(
                                        "v."@ + quoting(spec.pk_view_columns[n - 1]) + " = "@ + cast(
                                            n,
                                            ty,
                                        ),
                                    ),
                                    values.push(Some(s)),
                                ),
                            ),
                            _ => Err(
                                EndModel::Stale(
                                    "primary key column "@ + pk
                                        + " missing from the decoded old row"@,
                                ),
                            ),
                        }
                    },
                },
            },
        }
    }
}

proof fn lemma_key_conditions_stay(
    spec: SpecModel,
    rel: RelationModel,
    old: Seq<Cell>,
    quoting: spec_fn(Seq<char>) -> Seq<char>,
    n: nat,
    m: nat,
)
    requires
        n <= m,
        key_conditions(spec, rel, old, quoting, n) is Err,
    ensures
        key_conditions(spec, rel, old, quoting, m) == key_conditions(spec, rel, old, quoting, n),
    decreases m - n,
{
    if n < m {
        lemma_key_conditions_stay(spec, rel, old, quoting, n, (m - 1) as nat);
    }
}

/// How many key columns a single-table projection pairs with view columns.
pub open spec fn key_pairs(spec: SpecModel) -> nat {
    if spec.pk_columns.len() <= spec.pk_view_columns.len() {
        spec.pk_columns.len()
    } else {
        spec.pk_view_columns.len()
    }
}

/// The plan for the removal of an old row from a single-table view.
pub open spec fn single_delete(
    spec: SpecModel,
    rel: RelationModel,
    key_kind: u8,
    old: Seq<Cell>,
    quoting: spec_fn(Seq<char>) -> Seq<char>,
) -> PlanModel {
    match spec.shape {
        Shape::Projection => match key_conditions(spec, rel, old, quoting, key_pairs(spec)) {
            Ok((conds, values)) => plan_step(
                StepModel::Delete { conds: joined(conds, " AND "@), values },
            ),
            Err(end) => plan_nothing(end),
        },
        Shape::Aggregate => if key_kind != TAG_OLD {
            plan_nothing(
                EndModel::Stale(
                    "old row not available; the base table needs REPLICA IDENTITY FULL"@,
                ),
            )
        } else {
            single_rows(spec, rel, old, (-1) as i32, quoting)
        },
    }
}

/// A row with a value for every column of the relation.
pub open spec fn row_fits(rel: RelationModel, row: Seq<Cell>) -> bool {
    row.len() == rel.columns.len()
}

pub fn plan_single_delete(
    view: &ViewTarget<'_>,
    rel: &Relation,
    key_kind: u8,
    old: &Tuple,
    quoting: &Quoting,
) -> (result: Plan)
    requires
        rel.columns@.len() < usize::MAX,
    ensures
        result@ == single_delete(view.spec@, rel@, key_kind, views(old@), quoting@),
{
    let spec = view.spec;
    match spec.shape {
        Shape::Projection => {
            let ghost model = spec@;
            let ghost cells = views(old@);
            let mut conds: Vec<String> = Vec::new();
            let mut values: Vec<Option<String>> = Vec::new();
            let mut i: usize = 0;
            assert(views(conds@) =~= Seq::empty());
            assert(texts(values@) =~= Seq::empty());
            while i < spec.pk_columns.len() && i < spec.pk_view_columns.len()
                invariant
                    spec == view.spec,
                    model == spec@,
                    model.shape == Shape::Projection,
                    cells == views(old@),
                    i <= spec.pk_columns@.len(),
                    i <= spec.pk_view_columns@.len(),
                    key_conditions(model, rel@, cells, quoting@, i as nat) == Ok::<
                        (Seq<Seq<char>>, Seq<Option<Seq<char>>>),
                        EndModel,
                    >((views(conds@), texts(values@))),
                decreases spec.pk_columns@.len() - i,
            {
                let pk = &spec.pk_columns[i];
                assert(model.pk_columns[i as int] == pk@);
                assert(model.pk_view_columns[i as int] == spec.pk_view_columns@[i as int]@);
                let end: Option<PlanEnd> = match rel_column_index(rel, pk) {
                    None => Some(
                        PlanEnd::Failed(
                            "primary key column ".to_string().concat(pk).concat(" missing"),
                        ),
                    ),
                    Some(idx) => {
                        assert(rel@.columns[idx as int] == rel.columns@[idx as int]@);
                        match &rel.columns[idx].resolved_type {
                            None => Some(PlanEnd::Failed("type not resolved".to_string())),
                            Some(ty) => if idx >= old.len() {
                                Some(PlanEnd::Failed(out_of_bounds_text(old.len(), idx)))
                            } else {
                                assert(cells[idx as int] == old@[idx as int]@);
                                match &old[idx] {
                                    ColumnValue::Text(s) => {
                                        let quoted = quoting.ident(&spec.pk_view_columns[i]);
                                        let number = text::decimal_text((i + 1) as u64);
                                        let place = "$".to_string().concat(&number).concat(
                                            "::",
                                        ).concat(ty);
                                        values.push(Some(s.clone()));
                                        conds.push(
                                            "v.".to_string().concat(&quoted).concat(" = ").concat(
                                                &place,
                                            ),
                                        );
                                        None
                                    },
                                    _ => Some(
                                        PlanEnd::Stale(
                                            Stale(
                                                "primary key column ".to_string().concat(pk).concat(
                                                    " missing from the decoded old row",
                                                ),
                                            ),
                                        ),
                                    ),
                                }
                            },
                        }
                    },
                };
                if let Some(end) = end {
                    proof {
                        lemma_key_conditions_stay(
                            model,
                            rel@,
                            cells,
                            quoting@,
                            (i + 1) as nat,
                            key_pairs(model),
                        );
                    }
                    return Plan::nothing(end);
                }
                i = i + 1;
                proof {
                    let (c, v) = key_conditions(model, rel@, cells, quoting@, i as nat)->Ok_0;
                    assert(views(conds@) =~= c);
                    assert(texts(values@) =~= v);
                }
            }
            Plan::step(Step::Delete { conds: text::join(&conds, " AND "), values })
        },
        Shape::Aggregate => {
            if key_kind != TAG_OLD {
                return Plan::nothing(
                    PlanEnd::Stale(
                        Stale(
                            "old row not available; the base table needs REPLICA IDENTITY FULL".to_string(),
                        ),
                    ),
                );
            }
            plan_single_rows(spec, rel, old, -1, quoting)
        },
    }
}

// --- planning: join views --------------------------------------------------------------

/// One entry of a join view's FROM list: the changed row in its own place,
/// the shadow of every other relation.
pub open spec fn join_source(
    spec: SpecModel,
    rel_index: int,
    source: Seq<char>,
    i: int,
    quoting: spec_fn(Seq<char>) -> Seq<char>,
) -> Seq<char> {
    if i == rel_index {
        source
    } else {
        shadow::named(spec.relations[i].oid) + " AS "@ + quoting(spec.relations[i].alias)
    }
}

/// Delta rows of a join view for one row of relation `rel_index` (position
/// in `spec.relations`): the row joins the shadows of every other relation.
pub open spec fn join_rows(
    spec: SpecModel,
    rel_index: int,
    rel: RelationModel,
    row: Seq<Cell>,
    sign: i32,
    quoting: spec_fn(Seq<char>) -> Seq<char>,
) -> PlanModel {
    match values_text(rel, spec.relations[rel_index].alias, 1, quoting) {
        Err(e) => plan_nothing(EndModel::Failed(e)),
        Ok(source) => plan_step(
            delta_step(
                spec,
                joined(
                    Seq::new(
                        spec.relations.len(),
                        |i: int| join_source(spec, rel_index, source, i, quoting),
                    ),
                    ", "@,
                ),
                row,
                sign,
            ),
        ),
    }
}

pub fn plan_join(
    view: &ViewTarget<'_>,
    rel_index: usize,
    rel: &Relation,
    row: &Tuple,
    sign: i32,
    quoting: &Quoting,
) -> (result: Plan)
    requires
        rel.columns@.len() < usize::MAX,
        rel_index < view.spec.relations@.len(),
    ensures
        result@ == join_rows(view.spec@, rel_index as int, rel@, views(row@), sign, quoting@),
{
    let spec = view.spec;
    let ghost model = spec@;
    assert(model.relations[rel_index as int] == spec.relations@[rel_index as int]@);
    let source = match values_source(rel, &spec.relations[rel_index].alias, 1, quoting) {
        Ok(source) => source,
        Err(e) => return Plan::nothing(PlanEnd::Failed(e)),
    };
    let mut from: Vec<String> = Vec::new();
    let mut i: usize = 0;
    while i < spec.relations.len()
        invariant
            model == spec@,
            i <= spec.relations@.len(),
            from@.len() == i,
            forall|j: int|
                0 <= j < i ==> (#[trigger] from@[j])@ == join_source(
                    model,
                    rel_index as int,
                    source@,
                    j,
                    quoting@,
                ),
        decreases spec.relations@.len() - i,
    {
        let r = &spec.relations[i];
        assert(model.relations[i as int] == r@);
        if i == rel_index {
            from.push(source.clone());
        } else {
            from.push(
                shadow::table_name(r.oid).concat(" AS ").concat(&quoting.ident(&r.alias)),
            );
        }
        i = i + 1;
    }
    assert(views(from@) =~= Seq::new(
        model.relations.len(),
        |i: int| join_source(model, rel_index as int, source@, i, quoting@),
    ));
    Plan::step(delta_rows(spec, &text::join(&from, ", "), row, sign))
}

// --- execution: statements -------------------------------------------------------------

/// The statement that deletes a view row by its key.
pub open spec fn delete_by_key(
    name: Seq<char>,
    conds: Seq<char>,
    values: Seq<Option<Seq<char>>>,
) -> StatementModel {
    StatementModel {
        sql: "DELETE FROM "@ + name + " AS v WHERE "@ + conds + " RETURNING to_jsonb(v)::text"@,
        args: text_args(values),
    }
}

/// `v.c = d.c` for a key column.
pub open spec fn key_match(quoted: Seq<char>) -> Seq<char> {
    "v."@ + quoted + " = d."@ + quoted
}

/// The statement that inserts or deletes one row of a projection view.
pub open spec fn projection_statement(
    name: Seq<char>,
    spec: SpecModel,
    sign: i32,
    row_json: Seq<char>,
    quoting: spec_fn(Seq<char>) -> Seq<char>,
) -> StatementModel {
    let sql = if sign > 0 {
        "INSERT INTO "@ + name + " AS v SELECT * FROM jsonb_populate_record(NULL::"@ + name
            + ", $1::jsonb) RETURNING to_jsonb(v)::text"@
    } else {
        "DELETE FROM "@ + name + " AS v USING jsonb_populate_record(NULL::"@ + name
            + ", $1::jsonb) AS d WHERE "@ + joined(
            spec.pk_view_columns.map_values(|c: Seq<char>| key_match(quoting(c))),
            " AND "@,
        ) + " RETURNING to_jsonb(v)::text"@
    };
    StatementModel { sql, args: text_args(seq![Some(row_json)]) }
}

fn one_text(sql: String, text: &String) -> (result: Statement)
    ensures
        result@ == (StatementModel { sql: sql@, args: text_args(seq![Some(text@)]) }),
{
    let values = vec![Some(text.clone())];
    assert(texts(values@) =~= seq![Some(text@)]);
    Statement::with_texts(sql, &values)
}

fn projection_row(
    view: &ViewTarget<'_>,
    sign: i32,
    row_json: &String,
    quoting: &Quoting,
) -> (result: Statement)
    ensures
        result@ == projection_statement(view.name@, view.spec@, sign, row_json@, quoting@),
{
    let name = view.name;
    if sign > 0 {
        return one_text(
            "INSERT INTO ".to_string().concat(name).concat(
                " AS v SELECT * FROM jsonb_populate_record(NULL::",
            ).concat(name).concat(", $1::jsonb) RETURNING to_jsonb(v)::text"),
            row_json,
        );
    }
    let keys = &view.spec.pk_view_columns;
    let mut conds: Vec<String> = Vec::new();
    let mut i: usize = 0;
    while i < keys.len()
        invariant
            i <= keys@.len(),
            conds@.len() == i,
            forall|j: int|
                0 <= j < i ==> (#[trigger] conds@[j])@ == key_match(quoting@(keys@[j]@)),
        decreases keys@.len() - i,
    {
        let c = quoting.ident(&keys[i]);
        conds.push("v.".to_string().concat(&c).concat(" = d.").concat(&c));
        i = i + 1;
    }
    assert(views(conds@) =~= view.spec@.pk_view_columns.map_values(
        |c: Seq<char>| key_match(quoting@(c)),
    ));
    one_text(
        "DELETE FROM ".to_string().concat(name).concat(
            " AS v USING jsonb_populate_record(NULL::",
        ).concat(name).concat(", $1::jsonb) AS d WHERE ").concat(
            &text::join(&conds, " AND "),
        ).concat(" RETURNING to_jsonb(v)::text"),
        row_json,
    )
}

/// The contribution row as a source of its own.
pub open spec fn contribution(name: Seq<char>) -> Seq<char> {
    "WITH src AS (SELECT * FROM jsonb_populate_record(NULL::"@ + name + ", $1::jsonb))"@
}

/// The quoted group keys of an aggregate view.
pub open spec fn group_keys(spec: SpecModel, quoting: spec_fn(Seq<char>) -> Seq<char>) -> Seq<
    Seq<char>,
> {
    spec.columns.map_values(|c: crate::definition::OutputModel| quoting(c.alias))
}

/// The statement that reads the row of a contribution's group.
pub open spec fn previous_statement(
    name: Seq<char>,
    spec: SpecModel,
    row_json: Seq<char>,
    quoting: spec_fn(Seq<char>) -> Seq<char>,
) -> StatementModel {
    StatementModel {
        sql: contribution(name) + " SELECT to_jsonb(v)::text FROM "@ + name
            + " AS v JOIN src ON "@ + joined(
            group_keys(spec, quoting).map_values(
                |a: Seq<char>| "v."@ + a + " IS NOT DISTINCT FROM src."@ + a,
            ),
            " AND "@,
        ),
        args: text_args(seq![Some(row_json)]),
    }
}

/// The quoted columns of the first `n` sums, each with its non-NULL counter.
pub open spec fn sum_columns(
    sums: Seq<crate::definition::SumModel>,
    quoting: spec_fn(Seq<char>) -> Seq<char>,
    n: nat,
) -> Seq<Seq<char>>
    decreases n,
{
    if n == 0 {
        Seq::empty()
    } else {
        sum_columns(sums, quoting, (n - 1) as nat).push(quoting(sums[n - 1].alias)).push(
            quoting(sums[n - 1].counter),
        )
    }
}

/// The quoted columns that a contribution adds to: count(*) carries the number
/// of rows, count(expr) the number of non-NULL values, sum(expr) the sum with
/// its hidden non-NULL counter.
pub open spec fn contributed(spec: SpecModel, quoting: spec_fn(Seq<char>) -> Seq<char>) -> Seq<
    Seq<char>,
> {
    seq![quoting(spec.count_alias->0)] + spec.counts.map_values(
        |c: crate::definition::OutputModel| quoting(c.alias),
    ) + sum_columns(spec.sums, quoting, spec.sums.len())
}

/// `c = v.c + EXCLUDED.c`
pub open spec fn added(c: Seq<char>) -> Seq<char> {
    c + " = v."@ + c + " + EXCLUDED."@ + c
}

/// The update of a sum: sum() ignores NULLs and is NULL when nothing non-NULL
/// contributed, so the stored sum is NULL exactly when the counter is 0; the
/// CASE keeps that atomic with the row update.
pub open spec fn sum_update(a: Seq<char>, nn: Seq<char>) -> Seq<char> {
    a + " = CASE WHEN v."@ + nn + " + EXCLUDED."@ + nn + " = 0 THEN NULL WHEN EXCLUDED."@ + a
        + " IS NULL THEN v."@ + a + " WHEN v."@ + a + " IS NULL THEN EXCLUDED."@ + a
        + " ELSE v."@ + a + " + EXCLUDED."@ + a + " END"@
}

pub open spec fn sum_updates(
    sums: Seq<crate::definition::SumModel>,
    quoting: spec_fn(Seq<char>) -> Seq<char>,
    n: nat,
) -> Seq<Seq<char>>
    decreases n,
{
    if n == 0 {
        Seq::empty()
    } else {
        let a = quoting(sums[n - 1].alias);
        let nn = quoting(sums[n - 1].counter);
        sum_updates(sums, quoting, (n - 1) as nat).push(sum_update(a, nn)).push(added(nn))
    }
}

/// The updates of a group that is there already.
pub open spec fn updates(spec: SpecModel, quoting: spec_fn(Seq<char>) -> Seq<char>) -> Seq<
    Seq<char>,
> {
    seq![added(quoting(spec.count_alias->0))] + spec.counts.map_values(
        |c: crate::definition::OutputModel| added(quoting(c.alias)),
    ) + sum_updates(spec.sums, quoting, spec.sums.len())
}

/// `(sign) * c`
pub open spec fn signed(sign: i32, c: Seq<char>) -> Seq<char> {
    "("@ + signed_decimal(sign as int) + ") * "@ + c
}

/// The statement that adds a contribution to its group.
pub open spec fn upsert_statement(
    name: Seq<char>,
    spec: SpecModel,
    sign: i32,
    row_json: Seq<char>,
    quoting: spec_fn(Seq<char>) -> Seq<char>,
) -> StatementModel {
    let keys = group_keys(spec, quoting);
    StatementModel {
        sql: contribution(name) + " INSERT INTO "@ + name + " AS v ("@ + joined(
            keys + contributed(spec, quoting),
            ", "@,
        ) + ") SELECT "@ + joined(
            keys + contributed(spec, quoting).map_values(|c: Seq<char>| signed(sign, c)),
            ", "@,
        ) + " FROM src ON CONFLICT ("@ + joined(keys, ", "@) + ") DO UPDATE SET "@ + joined(
            updates(spec, quoting),
            ", "@,
        ) + " RETURNING to_jsonb(v)::text || ' ' || v."@ + quoting(spec.count_alias->0)
            + "::text"@,
        args: text_args(seq![Some(row_json)]),
    }
}

/// The statement that removes the groups that nothing contributes to any more.
pub open spec fn cleanup_statement(name: Seq<char>, count: Seq<char>) -> StatementModel {
    bare("DELETE FROM "@ + name + " AS v WHERE v."@ + count + " <= 0"@)
}

fn quoted_keys(spec: &ViewSpec, quoting: &Quoting) -> (result: Vec<String>)
    ensures
        views(result@) == group_keys(spec@, quoting@),
{
    let mut out: Vec<String> = Vec::new();
    let mut i: usize = 0;
    while i < spec.columns.len()
        invariant
            i <= spec.columns@.len(),
            out@.len() == i,
            forall|j: int|
                0 <= j < i ==> (#[trigger] out@[j])@ == quoting@(spec.columns@[j].alias@),
        decreases spec.columns@.len() - i,
    {
        out.push(quoting.ident(&spec.columns[i].alias));
        i = i + 1;
    }
    assert(views(out@) =~= group_keys(spec@, quoting@));
    out
}

fn contribution_source(name: &str) -> (result: String)
    ensures
        result@ == contribution(name@),
{
    "WITH src AS (SELECT * FROM jsonb_populate_record(NULL::".to_string().concat(name).concat(
        ", $1::jsonb))",
    )
}

fn previous_query(view: &ViewTarget<'_>, row_json: &String, quoting: &Quoting) -> (result:
    Statement)
    ensures
        result@ == previous_statement(view.name@, view.spec@, row_json@, quoting@),
{
    let keys = quoted_keys(view.spec, quoting);
    let ghost names = group_keys(view.spec@, quoting@);
    let mut on: Vec<String> = Vec::new();
    let mut i: usize = 0;
    while i < keys.len()
        invariant
            names == views(keys@),
            i <= keys@.len(),
            on@.len() == i,
            forall|j: int|
                0 <= j < i ==> (#[trigger] on@[j])@ == "v."@ + names[j]
                    + " IS NOT DISTINCT FROM src."@ + names[j],
        decreases keys@.len() - i,
    {
        on.push(
            "v.".to_string().concat(&keys[i]).concat(" IS NOT DISTINCT FROM src.").concat(
                &keys[i],
            ),
        );
        i = i + 1;
    }
    assert(views(on@) =~= names.map_values(
        |a: Seq<char>| "v."@ + a + " IS NOT DISTINCT FROM src."@ + a,
    ));
    one_text(
        contribution_source(view.name).concat(" SELECT to_jsonb(v)::text FROM ").concat(
            view.name,
        ).concat(" AS v JOIN src ON ").concat(&text::join(&on, " AND ")),
        row_json,
    )
}

fn sum_of(c: &str) -> (result: String)
    ensures
        result@ == added(c@),
{
    c.to_string().concat(" = v.").concat(c).concat(" + EXCLUDED.").concat(c)
}

/// The columns that a contribution adds to, and the updates that add it.
fn contribution_columns(spec: &ViewSpec, count: &String, quoting: &Quoting) -> (result: (
    Vec<String>,
    Vec<String>,
))
    requires
        spec@.count_alias is Some,
        count@ == quoting@(spec@.count_alias->0),
    ensures
        views(result.0@) == contributed(spec@, quoting@),
        views(result.1@) == updates(spec@, quoting@),
{
    let ghost model = spec@;
    let mut columns: Vec<String> = vec![count.clone()];
    let mut sets: Vec<String> = vec![sum_of(count)];
    let ghost base_columns = seq![count@];
    let ghost base_sets = seq![added(count@)];
    let ghost more = model.counts.map_values(
        |c: crate::definition::OutputModel| quoting@(c.alias),
    );
    let ghost more_sets = model.counts.map_values(
        |c: crate::definition::OutputModel| added(quoting@(c.alias)),
    );
    let mut i: usize = 0;
    assert(views(columns@) =~= base_columns + more.take(0));
    assert(views(sets@) =~= base_sets + more_sets.take(0));
    while i < spec.counts.len()
        invariant
            model == spec@,
            more == model.counts.map_values(
                |c: crate::definition::OutputModel| quoting@(c.alias),
            ),
            more_sets == model.counts.map_values(
                |c: crate::definition::OutputModel| added(quoting@(c.alias)),
            ),
            i <= spec.counts@.len(),
            views(columns@) == base_columns + more.take(i as int),
            views(sets@) == base_sets + more_sets.take(i as int),
        decreases spec.counts@.len() - i,
    {
        let ghost c = views(columns@);
        let ghost s = views(sets@);
        assert(model.counts[i as int] == spec.counts@[i as int]@);
        let a = quoting.ident(&spec.counts[i].alias);
        sets.push(sum_of(&a));
        columns.push(a);
        assert(views(columns@) =~= c.push(more[i as int]));
        assert(views(sets@) =~= s.push(more_sets[i as int]));
        assert(more.take(i + 1) =~= more.take(i as int).push(more[i as int]));
        assert(more_sets.take(i + 1) =~= more_sets.take(i as int).push(more_sets[i as int]));
        i = i + 1;
        assert(views(columns@) =~= base_columns + more.take(i as int));
        assert(views(sets@) =~= base_sets + more_sets.take(i as int));
    }
    let ghost counted = views(columns@);
    let ghost counted_sets = views(sets@);
    assert(more.take(i as int) =~= more);
    assert(more_sets.take(i as int) =~= more_sets);
    let mut k: usize = 0;
    assert(counted =~= counted + sum_columns(model.sums, quoting@, 0));
    assert(counted_sets =~= counted_sets + sum_updates(model.sums, quoting@, 0));
    while k < spec.sums.len()
        invariant
            model == spec@,
            k <= spec.sums@.len(),
            views(columns@) == counted + sum_columns(model.sums, quoting@, k as nat),
            views(sets@) == counted_sets + sum_updates(model.sums, quoting@, k as nat),
        decreases spec.sums@.len() - k,
    {
        let ghost c = views(columns@);
        let ghost s = views(sets@);
        assert(model.sums[k as int] == spec.sums@[k as int]@);
        let a = quoting.ident(&spec.sums[k].alias);
        let nn = quoting.ident(&spec.sums[k].counter);
        sets.push(
            a.clone().concat(" = CASE WHEN v.").concat(&nn).concat(" + EXCLUDED.").concat(
                &nn,
            ).concat(" = 0 THEN NULL WHEN EXCLUDED.").concat(&a).concat(" IS NULL THEN v.").concat(
                &a,
            ).concat(" WHEN v.").concat(&a).concat(" IS NULL THEN EXCLUDED.").concat(&a).concat(
                " ELSE v.",
            ).concat(&a).concat(" + EXCLUDED.").concat(&a).concat(" END"),
        );
        sets.push(sum_of(&nn));
        assert(views(sets@) =~= s.push(sum_update(a@, nn@)).push(added(nn@)));
        columns.push(a);
        columns.push(nn);
        assert(views(columns@) =~= c.push(a@).push(nn@));
        k = k + 1;
        assert(views(columns@) =~= counted + sum_columns(model.sums, quoting@, k as nat));
        assert(views(sets@) =~= counted_sets + sum_updates(model.sums, quoting@, k as nat));
    }
    (columns, sets)
}

/// Add (`sign = 1`) or remove (`sign = -1`) one group contribution, given as
/// a view-shaped row whose count and sum columns hold the contribution.
fn upsert_query(
    view: &ViewTarget<'_>,
    sign: i32,
    row_json: &String,
    count: &String,
    quoting: &Quoting,
) -> (result: Statement)
    requires
        view.spec@.count_alias is Some,
        count@ == quoting@(view.spec@.count_alias->0),
    ensures
        result@ == upsert_statement(view.name@, view.spec@, sign, row_json@, quoting@),
{
    let keys = quoted_keys(view.spec, quoting);
    let (columns, sets) = contribution_columns(view.spec, count, quoting);
    let ghost names = views(keys@);
    let ghost contributions = views(columns@);
    let ghost multiplied = contributions.map_values(|c: Seq<char>| signed(sign, c));
    let number = text::signed_text(sign as i64);
    let mut insert_cols: Vec<String> = keys.clone();
    let mut insert_select: Vec<String> = keys.clone();
    assert(insert_cols@ =~= keys@);
    assert(insert_select@ =~= keys@);
    let mut i: usize = 0;
    assert(names =~= names + contributions.take(0));
    assert(names =~= names + multiplied.take(0));
    while i < columns.len()
        invariant
            contributions == views(columns@),
            multiplied == contributions.map_values(|c: Seq<char>| signed(sign, c)),
            number@ == signed_decimal(sign as int),
            i <= columns@.len(),
            views(insert_cols@) == names + contributions.take(i as int),
            views(insert_select@) == names + multiplied.take(i as int),
        decreases columns@.len() - i,
    {
        let ghost c = views(insert_cols@);
        let ghost s = views(insert_select@);
        insert_cols.push(columns[i].clone());
        insert_select.push("(".to_string().concat(&number).concat(") * ").concat(&columns[i]));
        assert(views(insert_cols@) =~= c.push(contributions[i as int]));
        assert(views(insert_select@) =~= s.push(multiplied[i as int]));
        assert(contributions.take(i + 1) =~= contributions.take(i as int).push(
            contributions[i as int],
        ));
        assert(multiplied.take(i + 1) =~= multiplied.take(i as int).push(multiplied[i as int]));
        i = i + 1;
        assert(views(insert_cols@) =~= names + contributions.take(i as int));
        assert(views(insert_select@) =~= names + multiplied.take(i as int));
    }
    assert(contributions.take(i as int) =~= contributions);
    assert(multiplied.take(i as int) =~= multiplied);
    one_text(
        contribution_source(view.name).concat(" INSERT INTO ").concat(view.name).concat(
            " AS v (",
        ).concat(&text::join(&insert_cols, ", ")).concat(") SELECT ").concat(
            &text::join(&insert_select, ", "),
        ).concat(" FROM src ON CONFLICT (").concat(&text::join(&keys, ", ")).concat(
            ") DO UPDATE SET ",
        ).concat(&text::join(&sets, ", ")).concat(
            " RETURNING to_jsonb(v)::text || ' ' || v.",
        ).concat(count).concat("::text"),
        row_json,
    )
}

// --- execution -------------------------------------------------------------------------

/// How far the operation at hand has come. Only a group contribution takes
/// more than one statement: the group's previous row is read, the
/// contribution is added, and groups that nothing contributes to any more are
/// removed.
pub enum Stage {
    Ready,
    Upsert { previous: Vec<String> },
    Cleanup,
}

pub enum StageModel {
    Ready,
    Upsert { previous: Seq<Seq<char>> },
    Cleanup,
}

impl View for Stage {
    type V = StageModel;

    open spec fn view(&self) -> StageModel {
        match self {
            Stage::Ready => StageModel::Ready,
            Stage::Upsert { previous } => StageModel::Upsert { previous: views(previous@) },
            Stage::Cleanup => StageModel::Cleanup,
        }
    }
}

/// The application of planned operations to a view table, in order, with the
/// subscriber deltas gathered so far.
pub struct Execution {
    pub ops: Vec<Op>,
    /// The operation at hand.
    pub position: usize,
    pub stage: Stage,
    pub deltas: Vec<Delta>,
}

pub struct ExecutionModel {
    pub ops: Seq<OpModel>,
    pub position: nat,
    pub stage: StageModel,
    pub deltas: Seq<DeltaModel>,
}

impl View for Execution {
    type V = ExecutionModel;

    open spec fn view(&self) -> ExecutionModel {
        ExecutionModel {
            ops: views(self.ops@),
            position: self.position as nat,
            stage: self.stage@,
            deltas: views(self.deltas@),
        }
    }
}

/// The start of an execution.
pub open spec fn started(ops: Seq<OpModel>) -> ExecutionModel {
    ExecutionModel { ops, position: 0, stage: StageModel::Ready, deltas: Seq::empty() }
}

/// The next statement of an execution; none when all operations are applied.
pub open spec fn next_statement(
    name: Seq<char>,
    spec: SpecModel,
    ex: ExecutionModel,
    quoting: spec_fn(Seq<char>) -> Seq<char>,
) -> Result<Option<StatementModel>, Seq<char>> {
    if ex.position >= ex.ops.len() {
        Ok(None)
    } else {
        match ex.ops[ex.position as int] {
            OpModel::DeleteByKey { conds, values } => Ok(Some(delete_by_key(name, conds, values))),
            OpModel::Row { sign, row_json } => match spec.shape {
                Shape::Projection => Ok(
                    Some(projection_statement(name, spec, sign, row_json, quoting)),
                ),
                Shape::Aggregate => match spec.count_alias {
                    None => Err("aggregate view without count(*)"@),
                    Some(count) => Ok(
                        Some(
                            match ex.stage {
                                StageModel::Ready => previous_statement(
                                    name,
                                    spec,
                                    row_json,
                                    quoting,
                                ),
                                StageModel::Upsert { previous } => upsert_statement(
                                    name,
                                    spec,
                                    sign,
                                    row_json,
                                    quoting,
                                ),
                                StageModel::Cleanup => cleanup_statement(name, quoting(count)),
                            },
                        ),
                    ),
                },
            },
        }
    }
}

/// Rows as deltas of one kind.
pub open spec fn row_deltas(op: char, rows: Seq<Seq<char>>) -> Seq<DeltaModel> {
    rows.map_values(|row_json: Seq<char>| DeltaModel { op, row_json })
}

/// The operation at hand is done and has brought `more` deltas.
pub open spec fn op_done(ex: ExecutionModel, more: Seq<DeltaModel>) -> ExecutionModel {
    ExecutionModel {
        position: ex.position + 1,
        stage: StageModel::Ready,
        deltas: ex.deltas + more,
        ..ex
    }
}

/// The execution once a contribution was added to its group: the previous row
/// leaves, the new one comes unless nothing contributes to it any more.
pub open spec fn upserted(
    ex: ExecutionModel,
    previous: Seq<Seq<char>>,
    returned: Seq<Seq<char>>,
) -> Result<ExecutionModel, Seq<char>> {
    if returned.len() == 0 {
        Ok(op_done(ex, Seq::empty()))
    } else {
        match text::split_at_last(returned[0], ' ') {
            None => Err("unexpected RETURNING shape"@),
            Some((new_row, count_text)) => match text::signed_value(count_text) {
                Some(n) if i64::MIN <= n <= i64::MAX => if n > 0 {
                    Ok(
                        op_done(
                            ex,
                            row_deltas('D', previous).push(
                                DeltaModel { op: 'I', row_json: new_row },
                            ),
                        ),
                    )
                } else {
                    Ok(
                        ExecutionModel {
                            stage: StageModel::Cleanup,
                            deltas: ex.deltas + row_deltas('D', previous),
                            ..ex
                        },
                    )
                },
                _ => Err("bad count: "@ + text::integer_error(count_text)),
            },
        }
    }
}

/// The execution once the statement at hand has returned `rows`.
pub open spec fn fed(spec: SpecModel, ex: ExecutionModel, rows: Seq<Seq<char>>) -> Result<
    ExecutionModel,
    Seq<char>,
> {
    if ex.position >= ex.ops.len() {
        Ok(ex)
    } else {
        match ex.ops[ex.position as int] {
            OpModel::DeleteByKey { conds, values } => Ok(op_done(ex, row_deltas('D', rows))),
            OpModel::Row { sign, row_json } => match spec.shape {
                Shape::Projection => Ok(
                    op_done(
                        ex,
                        row_deltas(
                            if sign > 0 {
                                'I'
                            } else {
                                'D'
                            },
                            rows,
                        ),
                    ),
                ),
                Shape::Aggregate => match ex.stage {
                    StageModel::Ready => Ok(
                        ExecutionModel { stage: StageModel::Upsert { previous: rows }, ..ex },
                    ),
                    StageModel::Upsert { previous } => upserted(ex, previous, rows),
                    StageModel::Cleanup => Ok(op_done(ex, Seq::empty())),
                },
            },
        }
    }
}

/// Apply planned operations to the view table, in order, gathering the
/// subscriber deltas.
pub fn execute(ops: Vec<Op>) -> (result: Execution)
    ensures
        result@ == started(views(ops@)),
{
    let ex = Execution { ops, position: 0, stage: Stage::Ready, deltas: Vec::new() };
    assert(ex@.deltas =~= Seq::empty());
    ex
}

/// Append rows to `deltas`, as deltas of one kind.
fn push_rows(deltas: &mut Vec<Delta>, op: char, rows: &Vec<String>)
    ensures
        views(final(deltas)@) == views(old(deltas)@) + row_deltas(op, views(rows@)),
{
    let ghost start = views(deltas@);
    let ghost more = row_deltas(op, views(rows@));
    let mut i: usize = 0;
    assert(start =~= start + more.take(0));
    while i < rows.len()
        invariant
            more == row_deltas(op, views(rows@)),
            i <= rows@.len(),
            views(deltas@) == start + more.take(i as int),
        decreases rows@.len() - i,
    {
        let ghost before = views(deltas@);
        deltas.push(Delta { op, row_json: rows[i].clone() });
        assert(views(deltas@) =~= before.push(more[i as int]));
        assert(more.take(i + 1) =~= more.take(i as int).push(more[i as int]));
        i = i + 1;
        assert(views(deltas@) =~= start + more.take(i as int));
    }
    assert(more.take(i as int) =~= more);
}

impl Execution {
    /// The statement to run next.
    pub fn next(&self, view: &ViewTarget<'_>, quoting: &Quoting) -> (result: Result<
        Option<Statement>,
        String,
    >)
        ensures
            match result {
                Ok(statement) => next_statement(view.name@, view.spec@, self@, quoting@) == Ok::<
                    Option<StatementModel>,
                    Seq<char>,
                >(view_of_option(statement)),
                Err(e) => next_statement(view.name@, view.spec@, self@, quoting@) == Err::<
                    Option<StatementModel>,
                    Seq<char>,
                >(e@),
            },
    {
        if self.position >= self.ops.len() {
            return Ok(None);
        }
        let op = &self.ops[self.position];
        assert(self@.ops[self.position as int] == op@);
        match op {
            Op::DeleteByKey { conds, values } => {
                let sql = "DELETE FROM ".to_string().concat(view.name).concat(
                    " AS v WHERE ",
                ).concat(conds).concat(" RETURNING to_jsonb(v)::text");
                Ok(Some(Statement::with_texts(sql, values)))
            },
            Op::Row { sign, row_json } => match view.spec.shape {
                Shape::Projection => Ok(Some(projection_row(view, *sign, row_json, quoting))),
                Shape::Aggregate => {
                    let count = match &view.spec.count_alias {
                        None => return Err("aggregate view without count(*)".to_string()),
                        Some(count) => quoting.ident(count),
                    };
                    match &self.stage {
                        Stage::Ready => Ok(Some(previous_query(view, row_json, quoting))),
                        Stage::Upsert { .. } => Ok(
                            Some(upsert_query(view, *sign, row_json, &count, quoting)),
                        ),
                        Stage::Cleanup => Ok(
                            Some(
                                Statement::bare(
                                    "DELETE FROM ".to_string().concat(view.name).concat(
                                        " AS v WHERE v.",
                                    ).concat(&count).concat(" <= 0"),
                                ),
                            ),
                        ),
                    }
                },
            },
        }
    }

    /// Take in the rows that the statement returned.
    pub fn feed(&mut self, view: &ViewTarget<'_>, rows: Vec<String>) -> (result: Result<(), String>)
        ensures
            match result {
                Ok(()) => fed(view.spec@, old(self)@, views(rows@)) == Ok::<
                    ExecutionModel,
                    Seq<char>,
                >(final(self)@),
                Err(e) => fed(view.spec@, old(self)@, views(rows@)) == Err::<
                    ExecutionModel,
                    Seq<char>,
                >(e@) && final(self)@ == old(self)@,
            },
    {
        if self.position >= self.ops.len() {
            return Ok(());
        }
        let ghost start = self@;
        assert(start.ops[self.position as int] == self.ops@[self.position as int]@);
        let kind = match &self.ops[self.position] {
            Op::DeleteByKey { .. } => Some('D'),
            Op::Row { sign, .. } => match view.spec.shape {
                Shape::Projection => if *sign > 0 {
                    Some('I')
                } else {
                    Some('D')
                },
                Shape::Aggregate => None,
            },
        };
        match kind {
            Some(op) => {
                push_rows(&mut self.deltas, op, &rows);
                self.position = self.position + 1;
                self.stage = Stage::Ready;
                Ok(())
            },
            None => {
                let mut stage = Stage::Ready;
                std::mem::swap(&mut stage, &mut self.stage);
                match stage {
                    Stage::Ready => {
                        self.stage = Stage::Upsert { previous: rows };
                        Ok(())
                    },
                    Stage::Upsert { previous } => {
                        if rows.len() == 0 {
                            self.position = self.position + 1;
                            assert(start.deltas + Seq::empty() =~= start.deltas);
                            return Ok(());
                        }
                        let ghost returned = views(rows@);
                        assert(returned[0] == rows@[0]@);
                        let (new_row, count_text) = match text::split_last(&rows[0], ' ') {
                            None => {
                                self.stage = Stage::Upsert { previous };
                                return Err("unexpected RETURNING shape".to_string());
                            },
                            Some(parts) => parts,
                        };
                        let new_count = match text::parse_i64(&count_text) {
                            Ok(n) => n,
                            Err(e) => {
                                self.stage = Stage::Upsert { previous };
                                return Err("bad count: ".to_string().concat(&e));
                            },
                        };
                        push_rows(&mut self.deltas, 'D', &previous);
                        if new_count > 0 {
                            let ghost before = views(self.deltas@);
                            let delta = Delta { op: 'I', row_json: new_row };
                            let ghost model = delta@;
                            self.deltas.push(delta);
                            self.position = self.position + 1;
                            let ghost gone = row_deltas('D', views(previous@));
                            assert(views(self.deltas@) =~= before.push(model));
                            assert((start.deltas + gone).push(model) =~= start.deltas + gone.push(
                                model,
                            ));
                        } else {
                            self.stage = Stage::Cleanup;
                        }
                        Ok(())
                    },
                    Stage::Cleanup => {
                        self.position = self.position + 1;
                        assert(start.deltas + Seq::empty() =~= start.deltas);
                        Ok(())
                    },
                }
            },
        }
    }

    /// What a failed statement is reported as.
    pub fn failure(&self, sql: &str, error: &str) -> (result: String)
        ensures
            result@ == match self@.stage {
                StageModel::Cleanup => "group cleanup failed: "@ + (sql@ + ": "@ + error@),
                _ => sql@ + ": "@ + error@,
            },
    {
        let message = statement_failure(sql, error);
        match &self.stage {
            Stage::Cleanup => "group cleanup failed: ".to_string().concat(&message),
            _ => message,
        }
    }
}

/// What a failed statement is reported as.
pub fn statement_failure(sql: &str, error: &str) -> (result: String)
    ensures
        result@ == sql@ + ": "@ + error@,
{
    sql.to_string().concat(": ").concat(error)
}

/// Bound of the cache of prepared statements; DDL churn (views come and go)
/// produces distinct texts, so the cache is dropped wholesale when it grows
/// past this.
pub const PLAN_CACHE_LIMIT: usize = 4096;

/// Whether a cache with this many prepared statements is dropped before
/// another one comes in.
pub fn plan_cache_full(prepared: usize) -> (result: bool)
    ensures
        result == (prepared >= PLAN_CACHE_LIMIT),
{
    prepared >= PLAN_CACHE_LIMIT
}

// --- laws of execution -----------------------------------------------------------------

/// How far an execution has come.
pub open spec fn progress(ex: ExecutionModel) -> nat {
    3 * ex.position + match ex.stage {
        StageModel::Ready => 0nat,
        StageModel::Upsert { .. } => 1,
        StageModel::Cleanup => 2,
    }
}

/// Every statement takes an execution further, whatever it returns, so that
/// each operation takes at most three; the deltas gathered before stay as they
/// are, in front.
pub proof fn law_execution_advances(spec: SpecModel, ex: ExecutionModel, rows: Seq<Seq<char>>)
    requires
        ex.position < ex.ops.len(),
        fed(spec, ex, rows) is Ok,
    ensures
        ({
            let after = fed(spec, ex, rows)->Ok_0;
            &&& progress(ex) < progress(after) <= 3 * ex.ops.len()
            &&& after.ops == ex.ops
            &&& ex.deltas.len() <= after.deltas.len()
            &&& after.deltas.take(ex.deltas.len() as int) == ex.deltas
        }),
{
    let after = fed(spec, ex, rows)->Ok_0;
    assert(after.deltas.take(ex.deltas.len() as int) =~= ex.deltas);
}

/// A group that nothing contributes to any more leaves the log as deletions
/// only, and its removal from the view table is the next statement; a group
/// that stays is logged with its new row last.
pub proof fn law_emptied_groups_are_removed(
    name: Seq<char>,
    spec: SpecModel,
    ex: ExecutionModel,
    previous: Seq<Seq<char>>,
    row: Seq<char>,
    count: i64,
    returned: Seq<char>,
    quoting: spec_fn(Seq<char>) -> Seq<char>,
)
    requires
        ex.position < ex.ops.len(),
        ex.ops[ex.position as int] is Row,
        spec.shape == Shape::Aggregate,
        spec.count_alias is Some,
        ex.stage == (StageModel::Upsert { previous }),
        text::split_at_last(returned, ' ') matches Some((r, c)) && r == row && text::signed_value(
            c,
        ) == Some(count as int),
    ensures
        fed(spec, ex, seq![returned]) is Ok,
        ({
            let after = fed(spec, ex, seq![returned])->Ok_0;
            let removed = ex.deltas + row_deltas('D', previous);
            if count > 0 {
                after.deltas == removed.push(DeltaModel { op: 'I', row_json: row })
            } else {
                after.deltas == removed && next_statement(name, spec, after, quoting) == Ok::<
                    Option<StatementModel>,
                    Seq<char>,
                >(Some(cleanup_statement(name, quoting(spec.count_alias->0))))
            }
        }),
{
    let after = fed(spec, ex, seq![returned])->Ok_0;
    assert(seq![returned][0] == returned);
    if count > 0 {
        assert(after.deltas =~= (ex.deltas + row_deltas('D', previous)).push(
            DeltaModel { op: 'I', row_json: row },
        ));
    }
}

/// A row that could be resolved has a value for every column of the new row and
/// none that is left out as unchanged; values that were sent stay as they are.
pub proof fn law_resolved_rows_are_complete(
    rel: RelationModel,
    new: Seq<Cell>,
    before: Option<Seq<Cell>>,
    mentions: spec_fn(Seq<char>) -> bool,
    n: nat,
)
    requires
        n <= new.len(),
    ensures
        resolved(rel, new, before, mentions, n) matches Ok(row) ==> row.len() == n && forall|i: int|
            0 <= i < n ==> (#[trigger] row[i]) != Cell::Unchanged && (new[i] != Cell::Unchanged
                ==> row[i] == new[i]),
    decreases n,
{
    if n > 0 {
        law_resolved_rows_are_complete(rel, new, before, mentions, (n - 1) as nat);
    }
}

// --- laws of netting by key ------------------------------------------------------------

/// Whether two rows are the same row of the view: they agree on every GROUP BY key
/// of an aggregate, on every column that identifies a row of a projection.
pub open spec fn are_one_row(spec: SpecModel, a: JsonModel, b: JsonModel) -> bool {
    match spec.shape {
        Shape::Aggregate => forall|k: int|
            0 <= k < spec.columns.len() ==> equal(
                field(a, (#[trigger] spec.columns[k]).alias),
                field(b, spec.columns[k].alias),
            ),
        Shape::Projection => forall|k: int|
            0 <= k < spec.pk_view_columns.len() ==> equal(
                field(a, #[trigger] spec.pk_view_columns[k]),
                field(b, spec.pk_view_columns[k]),
            ),
    }
}

/// Rows are told apart by all of their key columns, and by nothing else.
pub proof fn law_rows_are_told_apart_by_every_key_column(
    spec: SpecModel,
    a: JsonModel,
    b: JsonModel,
)
    ensures
        same_key(identity(spec), a, b) <==> are_one_row(spec, a, b),
{
    let names = identity(spec);
    if spec.shape == Shape::Aggregate {
        assert(names.len() == spec.columns.len());
        assert forall|k: int| 0 <= k < names.len() implies #[trigger] names[k]
            == spec.columns[k].alias by {}
        if same_key(names, a, b) {
            assert forall|k: int| 0 <= k < spec.columns.len() implies equal(
                field(a, (#[trigger] spec.columns[k]).alias),
                field(b, spec.columns[k].alias),
            ) by {
                assert(equal(field(a, names[k]), field(b, names[k])));
            }
        }
        if are_one_row(spec, a, b) {
            assert forall|k: int| 0 <= k < names.len() implies equal(
                field(a, #[trigger] names[k]),
                field(b, names[k]),
            ) by {
                assert(equal(
                    field(a, spec.columns[k].alias),
                    field(b, spec.columns[k].alias),
                ));
            }
        }
    }
}

/// Whether an event is the first, or the last, one of its row.
pub open spec fn opens(spec: SpecModel, events: Seq<EventModel>, i: int) -> bool {
    forall|j: int| 0 <= j < i ==> !are_one_row(spec, (#[trigger] events[j]).row, events[i].row)
}

pub open spec fn closes(spec: SpecModel, events: Seq<EventModel>, i: int) -> bool {
    forall|j: int|
        i < j < events.len() ==> !are_one_row(spec, events[i].row, (#[trigger] events[j]).row)
}

/// Whether what subscribers see of a row is the same at its first event as at its
/// last: it was there before, is there again, and looks alike.
pub open spec fn looks_alike(spec: SpecModel, first: EventModel, last: EventModel) -> bool {
    first.op == 'D' && last.op == 'I' && equal(
        without(first.row, spec.hidden_columns),
        without(last.row, spec.hidden_columns),
    )
}

proof fn lemma_netted_has_key(
    hidden: Seq<Seq<char>>,
    key: Seq<Seq<char>>,
    events: Seq<EventModel>,
    n: nat,
    k: int,
    delta: DeltaModel,
)
    requires
        0 <= k < n,
        n <= firsts(key, events, events.len()).len(),
        ({
            let first = firsts(key, events, events.len())[k];
            netted_key(
                hidden,
                events[first],
                events[last_of(key, events, first, events.len())],
            ).contains(delta)
        }),
    ensures
        netted_keys(hidden, key, events, n).contains(delta),
    decreases n,
{
    let before = netted_keys(hidden, key, events, (n - 1) as nat);
    let after = netted_keys(hidden, key, events, n);
    if k < n - 1 {
        lemma_netted_has_key(hidden, key, events, (n - 1) as nat, k, delta);
        let i = choose|i: int| 0 <= i < before.len() && before[i] == delta;
        assert(after[i] == delta);
    } else {
        let first = firsts(key, events, events.len())[k];
        let more = netted_key(
            hidden,
            events[first],
            events[last_of(key, events, first, events.len())],
        );
        let i = choose|i: int| 0 <= i < more.len() && more[i] == delta;
        assert(after[before.len() + i] == delta);
    }
}

proof fn lemma_firsts_hold(key: Seq<Seq<char>>, events: Seq<EventModel>, n: nat, i: int)
    requires
        0 <= i < n <= events.len(),
        is_first(key, events, i),
    ensures
        firsts(key, events, n).contains(i),
    decreases n,
{
    let before = firsts(key, events, (n - 1) as nat);
    if i < n - 1 {
        lemma_firsts_hold(key, events, (n - 1) as nat, i);
        let k = choose|k: int| 0 <= k < before.len() && before[k] == i;
        assert(firsts(key, events, n)[k] == i);
    } else {
        assert(firsts(key, events, n)[before.len() as int] == i);
    }
}

/// Every row of the view leaves its own deltas: the row as it was at its first event,
/// where that removed it, and as it is at its last, where that put it there; but
/// neither where subscribers see no difference.
pub proof fn law_each_row_leaves_its_own_deltas(
    spec: SpecModel,
    events: Seq<EventModel>,
    f: int,
    l: int,
)
    requires
        0 <= f <= l < events.len(),
        are_one_row(spec, events[f].row, events[l].row),
        opens(spec, events, f),
        closes(spec, events, l),
        !looks_alike(spec, events[f], events[l]),
    ensures
        events[f].op == 'D' ==> netted_events(spec, events).contains(
            DeltaModel { op: 'D', row_json: events[f].text },
        ),
        events[l].op == 'I' ==> netted_events(spec, events).contains(
            DeltaModel { op: 'I', row_json: events[l].text },
        ),
{
    let key = identity(spec);
    let n = events.len();
    assert forall|j: int| 0 <= j < f implies !same_key(
        key,
        (#[trigger] events[j]).row,
        events[f].row,
    ) by {
        law_rows_are_told_apart_by_every_key_column(spec, events[j].row, events[f].row);
    }
    lemma_firsts_hold(key, events, n, f);
    let all = firsts(key, events, n);
    let k = choose|k: int| 0 <= k < all.len() && all[k] == f;
    lemma_last_of(key, events, f, n);
    let last = last_of(key, events, f, n);
    law_rows_are_told_apart_by_every_key_column(spec, events[f].row, events[l].row);
    law_rows_are_told_apart_by_every_key_column(spec, events[l].row, events[last].row);
    assert(l <= last);
    if l < last {
        lemma_key_agrees(key, events[l].row, events[f].row, events[last].row);
        lemma_key_agrees(key, events[f].row, events[l].row, events[last].row);
        assert(same_key(key, events[l].row, events[last].row));
    }
    let net = net_events(spec.hidden_columns, events[f], events[l]);
    let deltas = netted_key(spec.hidden_columns, events[f], events[l]);
    if events[f].op == 'D' {
        assert(net[0] == events[f]);
        assert(deltas[0] == (DeltaModel { op: 'D', row_json: events[f].text }));
        lemma_netted_has_key(spec.hidden_columns, key, events, all.len(), k, deltas[0]);
    }
    if events[l].op == 'I' {
        let d = deltas[deltas.len() - 1];
        assert(net[net.len() - 1] == events[l]);
        assert(d == (DeltaModel { op: 'I', row_json: events[l].text }));
        lemma_netted_has_key(spec.hidden_columns, key, events, all.len(), k, d);
    }
}

/// Whether a netted delta is a removal by the first event of a row, or an addition by
/// the last one, that subscribers see.
pub open spec fn comes_of(
    spec: SpecModel,
    events: Seq<EventModel>,
    delta: DeltaModel,
    f: int,
    l: int,
) -> bool {
    &&& 0 <= f <= l < events.len()
    &&& are_one_row(spec, events[f].row, events[l].row)
    &&& opens(spec, events, f)
    &&& closes(spec, events, l)
    &&& !looks_alike(spec, events[f], events[l])
    &&& (delta.op == 'D' && events[f].op == 'D' && delta.row_json == events[f].text) || (delta.op
        == 'I' && events[l].op == 'I' && delta.row_json == events[l].text)
}

proof fn lemma_netted_comes_of(spec: SpecModel, events: Seq<EventModel>, n: nat, d: int)
    requires
        n <= firsts(identity(spec), events, events.len()).len(),
        0 <= d < netted_keys(spec.hidden_columns, identity(spec), events, n).len(),
    ensures
        exists|f: int, l: int| #[trigger]
            comes_of(
                spec,
                events,
                netted_keys(spec.hidden_columns, identity(spec), events, n)[d],
                f,
                l,
            ),
    decreases n,
{
    let key = identity(spec);
    let total = events.len();
    let before = netted_keys(spec.hidden_columns, key, events, (n - 1) as nat);
    let delta = netted_keys(spec.hidden_columns, key, events, n)[d];
    if d < before.len() {
        lemma_netted_comes_of(spec, events, (n - 1) as nat, d);
        assert(before[d] == delta);
    } else {
        lemma_firsts(key, events, total);
        let f = firsts(key, events, total)[n - 1];
        let l = last_of(key, events, f, total);
        lemma_last_of(key, events, f, total);
        law_rows_are_told_apart_by_every_key_column(spec, events[f].row, events[l].row);
        assert forall|j: int| 0 <= j < f implies !are_one_row(
            spec,
            (#[trigger] events[j]).row,
            events[f].row,
        ) by {
            law_rows_are_told_apart_by_every_key_column(spec, events[j].row, events[f].row);
            assert(is_first(key, events, f));
        }
        assert forall|j: int| l < j < total implies !are_one_row(
            spec,
            events[l].row,
            (#[trigger] events[j]).row,
        ) by {
            law_rows_are_told_apart_by_every_key_column(spec, events[l].row, events[j].row);
            lemma_key_agrees(key, events[f].row, events[l].row, events[j].row);
            lemma_key_agrees(key, events[l].row, events[f].row, events[j].row);
        }
        assert(comes_of(spec, events, delta, f, l));
    }
}

/// Nothing else is logged: every netted delta is the first removal or the last
/// addition of a row, as that event had it.
pub proof fn law_netted_deltas_come_of_events(spec: SpecModel, events: Seq<EventModel>, d: int)
    requires
        0 <= d < netted_events(spec, events).len(),
    ensures
        exists|f: int, l: int| #[trigger]
            comes_of(spec, events, netted_events(spec, events)[d], f, l),
{
    lemma_netted_comes_of(
        spec,
        events,
        firsts(identity(spec), events, events.len()).len(),
        d,
    );
}

/// Whether a delta can be read: then its event has the delta's kind and the row that
/// its text stands for.
pub proof fn law_events_are_read_in_order(deltas: Seq<DeltaModel>, more: DeltaModel)
    ensures
        ({
            let before = events_of(deltas);
            let after = events_of(deltas.push(more));
            match (json::parsed(more.row_json), json::printed(more.row_json)) {
                (Some(row), Some(text)) => after.len() == before.len() + 1 && after.drop_last()
                    == before && after.last().op == more.op && after.last().row == row
                    && after.last().text == text,
                _ => after == before,
            }
        }),
{
    assert(deltas.push(more).drop_last() =~= deltas);
    let before = events_of(deltas);
    let after = events_of(deltas.push(more));
    if after.len() == before.len() + 1 {
        assert(after.drop_last() =~= before);
    }
}

// --- laws of statements and their rows --------------------------------------------------

/// The rows that a query returns, as deltas of one kind, in their order.
pub open spec fn are_deltas(
    deltas: Seq<DeltaModel>,
    from: int,
    op: char,
    rows: Seq<Seq<char>>,
) -> bool {
    &&& from + rows.len() <= deltas.len()
    &&& forall|i: int|
        0 <= i < rows.len() ==> (#[trigger] deltas[from + i]).op == op && deltas[from + i].row_json
            == rows[i]
}

/// What a statement returns is what subscribers get: a keyed delete, or a removed row
/// of a projection, gives removals; an added one gives additions; one delta for each
/// row, behind those of earlier statements.
pub proof fn law_returned_rows_become_deltas(
    spec: SpecModel,
    ex: ExecutionModel,
    rows: Seq<Seq<char>>,
)
    requires
        ex.position < ex.ops.len(),
        ex.ops[ex.position as int] is DeleteByKey || spec.shape == Shape::Projection,
    ensures
        fed(spec, ex, rows) matches Ok(after) && {
            &&& after.deltas.len() == ex.deltas.len() + rows.len()
            &&& after.deltas.take(ex.deltas.len() as int) == ex.deltas
            &&& after.ops == ex.ops
            &&& after.position == ex.position + 1
            &&& match ex.ops[ex.position as int] {
                OpModel::DeleteByKey { conds, values } => are_deltas(
                    after.deltas,
                    ex.deltas.len() as int,
                    'D',
                    rows,
                ),
                OpModel::Row { sign, row_json } => are_deltas(
                    after.deltas,
                    ex.deltas.len() as int,
                    if sign > 0 {
                        'I'
                    } else {
                        'D'
                    },
                    rows,
                ),
            }
        },
{
    let after = fed(spec, ex, rows)->Ok_0;
    assert(after.deltas.take(ex.deltas.len() as int) =~= ex.deltas);
}

/// A contribution to a group replaces the group's row: the row that it had is removed,
/// the row that it has now is added, unless no row is left in the group.
pub proof fn law_contributions_replace_the_group(
    spec: SpecModel,
    ex: ExecutionModel,
    previous: Seq<Seq<char>>,
    row: Seq<char>,
    count: Seq<char>,
)
    requires
        ex.position < ex.ops.len(),
        ex.ops[ex.position as int] is Row,
        spec.shape == Shape::Aggregate,
        ex.stage == (StageModel::Upsert { previous }),
        text::signed_value(count) matches Some(n) && i64::MIN <= n <= i64::MAX,
        forall|i: int| 0 <= i < count.len() ==> #[trigger] count[i] != ' ',
    ensures
        fed(spec, ex, seq![row + " "@ + count]) matches Ok(after) && {
            let n = text::signed_value(count)->0;
            &&& after.deltas.take(ex.deltas.len() as int) == ex.deltas
            &&& are_deltas(after.deltas, ex.deltas.len() as int, 'D', previous)
            &&& if n > 0 {
                after.deltas.len() == ex.deltas.len() + previous.len() + 1 && are_deltas(
                    after.deltas,
                    (ex.deltas.len() + previous.len()) as int,
                    'I',
                    seq![row],
                ) && after.position == ex.position + 1
            } else {
                after.deltas.len() == ex.deltas.len() + previous.len() && after.stage is Cleanup
                    && after.position == ex.position
            }
        },
{
    reveal_strlit(" ");
    let returned = row + " "@ + count;
    assert(seq![returned][0] == returned);
    text::lemma_split_at_last(row, ' ', count);
    assert(returned =~= row + seq![' '] + count);
    let after = fed(spec, ex, seq![returned])->Ok_0;
    assert(after.deltas.take(ex.deltas.len() as int) =~= ex.deltas);
}

/// Every statement for a row writes or reads the view's own table and binds the row
/// itself; a keyed delete binds the key.
pub proof fn law_statements_are_of_their_row(
    name: Seq<char>,
    spec: SpecModel,
    ex: ExecutionModel,
    quoting: spec_fn(Seq<char>) -> Seq<char>,
)
    requires
        ex.position < ex.ops.len(),
    ensures
        next_statement(name, spec, ex, quoting) matches Ok(statement) ==> statement is Some && {
            let st = statement->0;
            &&& has_part(st.sql, name)
            &&& match ex.ops[ex.position as int] {
                OpModel::DeleteByKey { conds, values } => has_part(st.sql, "DELETE FROM "@ + name)
                    && has_part(st.sql, conds) && st.args.len() == values.len() && forall|i: int|
                    0 <= i < values.len() ==> #[trigger] st.args[i] == ArgModel::Text(values[i]),
                OpModel::Row { sign, row_json } => if spec.shape == Shape::Aggregate && ex.stage
                    is Cleanup {
                    has_part(st.sql, "DELETE FROM "@ + name) && st.args.len() == 0
                } else {
                    st.args.len() == 1 && st.args[0] == ArgModel::Text(Some(row_json))
                },
            }
            &&& spec.shape == Shape::Projection ==> match ex.ops[ex.position as int] {
                OpModel::Row { sign, row_json } => has_part(
                    st.sql,
                    if sign > 0 {
                        "INSERT INTO "@ + name
                    } else {
                        "DELETE FROM "@ + name
                    },
                ),
                _ => true,
            }
        },
{
    let from = "DELETE FROM "@ + name;
    let into = "INSERT INTO "@ + name;
    text::lemma_part_of_itself(name);
    text::lemma_part_of_itself(from);
    text::lemma_part_of_itself(into);
    text::lemma_part_right("DELETE FROM "@, name, name);
    text::lemma_part_right("INSERT INTO "@, name, name);
    if let Ok(statement) = next_statement(name, spec, ex, quoting) {
        let sql = (statement->0).sql;
        match ex.ops[ex.position as int] {
            OpModel::DeleteByKey { conds, values } => {
                let back = " AS v WHERE "@ + conds + " RETURNING to_jsonb(v)::text"@;
                assert(sql =~= from + back);
                text::lemma_part_left(from, back, from);
                text::lemma_part_left(from, back, name);
                text::lemma_part_of_itself(conds);
                text::lemma_part_within(
                    from + " AS v WHERE "@,
                    conds,
                    " RETURNING to_jsonb(v)::text"@,
                    conds,
                );
            },
            OpModel::Row { sign, row_json } => {
                if spec.shape == Shape::Projection {
                    let head = if sign > 0 {
                        into
                    } else {
                        from
                    };
                    let back = sql.skip(head.len() as int);
                    assert(sql =~= head + back);
                    text::lemma_part_left(head, back, head);
                    text::lemma_part_left(head, back, name);
                } else if ex.stage is Cleanup {
                    let back = sql.skip(from.len() as int);
                    assert(sql =~= from + back);
                    text::lemma_part_left(from, back, from);
                    text::lemma_part_left(from, back, name);
                } else {
                    let head = "WITH src AS (SELECT * FROM jsonb_populate_record(NULL::"@ + name;
                    let back = sql.skip(head.len() as int);
                    assert(sql =~= head + back);
                    text::lemma_part_right(
                        "WITH src AS (SELECT * FROM jsonb_populate_record(NULL::"@,
                        name,
                        name,
                    );
                    text::lemma_part_left(head, back, name);
                }
            },
        }
    }
}

/// A removed row of a projection is found by all of its key columns.
pub proof fn law_removed_rows_are_found_by_every_key_column(
    name: Seq<char>,
    spec: SpecModel,
    sign: i32,
    row_json: Seq<char>,
    quoting: spec_fn(Seq<char>) -> Seq<char>,
    k: int,
)
    requires
        sign <= 0,
        0 <= k < spec.pk_view_columns.len(),
    ensures
        has_part(
            projection_statement(name, spec, sign, row_json, quoting).sql,
            "v."@ + quoting(spec.pk_view_columns[k]) + " = d."@ + quoting(spec.pk_view_columns[k]),
        ),
{
    let parts = spec.pk_view_columns.map_values(|c: Seq<char>| key_match(quoting(c)));
    text::lemma_part_of_joined(parts, " AND "@, k);
    let head = "DELETE FROM "@ + name + " AS v USING jsonb_populate_record(NULL::"@ + name
        + ", $1::jsonb) AS d WHERE "@;
    text::lemma_part_within(
        head,
        joined(parts, " AND "@),
        " RETURNING to_jsonb(v)::text"@,
        parts[k],
    );
}

/// A group is found by all of its keys: the query for its previous row compares every
/// one, NULLs as equal, and the upsert conflicts on every one.
pub proof fn law_groups_are_found_by_every_key(
    name: Seq<char>,
    spec: SpecModel,
    sign: i32,
    row_json: Seq<char>,
    quoting: spec_fn(Seq<char>) -> Seq<char>,
    k: int,
)
    requires
        0 <= k < spec.columns.len(),
    ensures
        has_part(
            previous_statement(name, spec, row_json, quoting).sql,
            "v."@ + quoting(spec.columns[k].alias) + " IS NOT DISTINCT FROM src."@ + quoting(
                spec.columns[k].alias,
            ),
        ),
        has_part(
            upsert_statement(name, spec, sign, row_json, quoting).sql,
            " FROM src ON CONFLICT ("@ + joined(
                spec.columns.map_values(
                    |c: crate::definition::OutputModel| quoting(c.alias),
                ),
                ", "@,
            ) + ") DO UPDATE SET "@,
        ),
{
    let keys = spec.columns.map_values(|c: crate::definition::OutputModel| quoting(c.alias));
    assert(keys =~= group_keys(spec, quoting));
    let parts = keys.map_values(|a: Seq<char>| "v."@ + a + " IS NOT DISTINCT FROM src."@ + a);
    text::lemma_part_of_joined(parts, " AND "@, k);
    let head = contribution(name) + " SELECT to_jsonb(v)::text FROM "@ + name
        + " AS v JOIN src ON "@;
    text::lemma_part_right(head, joined(parts, " AND "@), parts[k]);
    let clause = " FROM src ON CONFLICT ("@ + joined(keys, ", "@) + ") DO UPDATE SET "@;
    lemma_upsert_parts(name, spec, sign, row_json, quoting, clause);
}

spec fn upsert_head(
    name: Seq<char>,
    spec: SpecModel,
    sign: i32,
    quoting: spec_fn(Seq<char>) -> Seq<char>,
) -> Seq<char> {
    let keys = group_keys(spec, quoting);
    contribution(name) + " INSERT INTO "@ + name + " AS v ("@ + joined(
        keys + contributed(spec, quoting),
        ", "@,
    ) + ") SELECT "@ + joined(
        keys + contributed(spec, quoting).map_values(|c: Seq<char>| signed(sign, c)),
        ", "@,
    )
}

spec fn upsert_middle(spec: SpecModel, quoting: spec_fn(Seq<char>) -> Seq<char>) -> Seq<char> {
    " FROM src ON CONFLICT ("@ + joined(group_keys(spec, quoting), ", "@) + ") DO UPDATE SET "@
}

spec fn upsert_tail(spec: SpecModel, quoting: spec_fn(Seq<char>) -> Seq<char>) -> Seq<char> {
    " RETURNING to_jsonb(v)::text || ' ' || v."@ + quoting(spec.count_alias->0) + "::text"@
}

/// A part of one of the pieces of an upsert is a part of the upsert.
proof fn lemma_upsert_parts(
    name: Seq<char>,
    spec: SpecModel,
    sign: i32,
    row_json: Seq<char>,
    quoting: spec_fn(Seq<char>) -> Seq<char>,
    part: Seq<char>,
)
    ensures
        has_part(upsert_head(name, spec, sign, quoting), part) || part == upsert_middle(
            spec,
            quoting,
        ) || has_part(joined(updates(spec, quoting), ", "@), part) ==> has_part(
            upsert_statement(name, spec, sign, row_json, quoting).sql,
            part,
        ),
{
    let sql = upsert_statement(name, spec, sign, row_json, quoting).sql;
    let head = upsert_head(name, spec, sign, quoting);
    let middle = upsert_middle(spec, quoting);
    let sets = joined(updates(spec, quoting), ", "@);
    let tail = upsert_tail(spec, quoting);
    assert(sql =~= head + middle + sets + tail);
    if has_part(head, part) {
        text::lemma_part_left(head, middle + sets + tail, part);
        assert(head + (middle + sets + tail) =~= sql);
    } else if part == middle {
        text::lemma_part_of_itself(middle);
        text::lemma_part_within(head, middle, sets + tail, middle);
        assert(head + middle + (sets + tail) =~= sql);
    } else if has_part(sets, part) {
        text::lemma_part_within(head + middle, sets, tail, part);
    }
}

/// What stands in the lists of an upsert stands in the upsert.
proof fn lemma_upsert_lists(
    name: Seq<char>,
    spec: SpecModel,
    sign: i32,
    row_json: Seq<char>,
    quoting: spec_fn(Seq<char>) -> Seq<char>,
    c: int,
)
    requires
        0 <= c < contributed(spec, quoting).len(),
    ensures
        has_part(
            upsert_statement(name, spec, sign, row_json, quoting).sql,
            signed(sign, contributed(spec, quoting)[c]),
        ),
{
    let keys = group_keys(spec, quoting);
    let all = contributed(spec, quoting);
    let scaled = all.map_values(|x: Seq<char>| signed(sign, x));
    let list = keys + scaled;
    assert(list[keys.len() + c] == signed(sign, all[c]));
    text::lemma_part_of_joined(list, ", "@, keys.len() + c);
    let front = contribution(name) + " INSERT INTO "@ + name + " AS v ("@ + joined(
        keys + all,
        ", "@,
    ) + ") SELECT "@;
    text::lemma_part_right(front, joined(list, ", "@), list[keys.len() + c]);
    lemma_upsert_parts(name, spec, sign, row_json, quoting, signed(sign, all[c]));
}

proof fn lemma_update_stands(
    name: Seq<char>,
    spec: SpecModel,
    sign: i32,
    row_json: Seq<char>,
    quoting: spec_fn(Seq<char>) -> Seq<char>,
    u: int,
)
    requires
        0 <= u < updates(spec, quoting).len(),
    ensures
        has_part(
            upsert_statement(name, spec, sign, row_json, quoting).sql,
            updates(spec, quoting)[u],
        ),
{
    text::lemma_part_of_joined(updates(spec, quoting), ", "@, u);
    lemma_upsert_parts(name, spec, sign, row_json, quoting, updates(spec, quoting)[u]);
}

proof fn lemma_sum_lists(
    sums: Seq<crate::definition::SumModel>,
    quoting: spec_fn(Seq<char>) -> Seq<char>,
    n: nat,
)
    ensures
        sum_columns(sums, quoting, n).len() == 2 * n,
        sum_updates(sums, quoting, n).len() == 2 * n,
        forall|k: int|
            0 <= k < n ==> sum_columns(sums, quoting, n)[2 * k] == quoting(
                (#[trigger] sums[k]).alias,
            ) && sum_columns(sums, quoting, n)[2 * k + 1] == quoting(sums[k].counter)
                && sum_updates(sums, quoting, n)[2 * k] == sum_update(
                quoting(sums[k].alias),
                quoting(sums[k].counter),
            ) && sum_updates(sums, quoting, n)[2 * k + 1] == added(quoting(sums[k].counter)),
    decreases n,
{
    if n > 0 {
        lemma_sum_lists(sums, quoting, (n - 1) as nat);
    }
}

/// Whether an upsert adds the signed contribution to a column of the group's row.
pub open spec fn adds_to(sql: Seq<char>, column: Seq<char>, sign: int) -> bool {
    &&& has_part(sql, "("@ + signed_decimal(sign) + ") * "@ + column)
    &&& has_part(sql, column + " = v."@ + column + " + EXCLUDED."@ + column)
}

/// Whether an upsert maintains a sum: it is NULL exactly while nothing that is not
/// NULL contributed.
pub open spec fn sums_up(sql: Seq<char>, column: Seq<char>, counter: Seq<char>, sign: int) -> bool {
    &&& has_part(sql, "("@ + signed_decimal(sign) + ") * "@ + column)
    &&& has_part(
        sql,
        column + " = CASE WHEN v."@ + counter + " + EXCLUDED."@ + counter
            + " = 0 THEN NULL WHEN EXCLUDED."@ + column + " IS NULL THEN v."@ + column
            + " WHEN v."@ + column + " IS NULL THEN EXCLUDED."@ + column + " ELSE v."@ + column
            + " + EXCLUDED."@ + column + " END"@,
    )
}

/// A contribution reaches every aggregate of the group's row with its sign: the group
/// count, every count(expr), every sum(expr) and its counter.
pub proof fn law_contributions_reach_every_aggregate(
    name: Seq<char>,
    spec: SpecModel,
    sign: i32,
    row_json: Seq<char>,
    quoting: spec_fn(Seq<char>) -> Seq<char>,
)
    requires
        spec.count_alias is Some,
    ensures
        ({
            let sql = upsert_statement(name, spec, sign, row_json, quoting).sql;
            &&& adds_to(sql, quoting(spec.count_alias->0), sign as int)
            &&& forall|k: int|
                0 <= k < spec.counts.len() ==> adds_to(
                    sql,
                    quoting((#[trigger] spec.counts[k]).alias),
                    sign as int,
                )
            &&& forall|k: int|
                0 <= k < spec.sums.len() ==> adds_to(
                    sql,
                    quoting((#[trigger] spec.sums[k]).counter),
                    sign as int,
                ) && sums_up(
                    sql,
                    quoting(spec.sums[k].alias),
                    quoting(spec.sums[k].counter),
                    sign as int,
                )
        }),
{
    let sql = upsert_statement(name, spec, sign, row_json, quoting).sql;
    let m = spec.counts.len();
    lemma_sum_lists(spec.sums, quoting, spec.sums.len());
    lemma_upsert_lists(name, spec, sign, row_json, quoting, 0);
    lemma_update_stands(name, spec, sign, row_json, quoting, 0);
    assert forall|k: int| 0 <= k < m implies adds_to(
        sql,
        quoting((#[trigger] spec.counts[k]).alias),
        sign as int,
    ) by {
        lemma_upsert_lists(name, spec, sign, row_json, quoting, 1 + k);
        lemma_update_stands(name, spec, sign, row_json, quoting, 1 + k);
    }
    assert forall|k: int| 0 <= k < spec.sums.len() implies adds_to(
        sql,
        quoting((#[trigger] spec.sums[k]).counter),
        sign as int,
    ) && sums_up(
        sql,
        quoting(spec.sums[k].alias),
        quoting(spec.sums[k].counter),
        sign as int,
    ) by {
        let at = 1 + m + 2 * k;
        lemma_upsert_lists(name, spec, sign, row_json, quoting, at);
        lemma_upsert_lists(name, spec, sign, row_json, quoting, at + 1);
        lemma_update_stands(name, spec, sign, row_json, quoting, at);
        lemma_update_stands(name, spec, sign, row_json, quoting, at + 1);
    }
}

/// How many operations the first `n` steps of a plan come to.
pub open spec fn ops_before(steps: Seq<StepModel>, rows: Seq<Seq<Seq<char>>>, n: nat) -> nat
    decreases n,
{
    if n == 0 {
        0
    } else {
        ops_before(steps, rows, (n - 1) as nat) + (if steps[n - 1] is Rows {
            rows[n - 1].len()
        } else {
            1
        })
    }
}

proof fn lemma_ops_stand(
    steps: Seq<StepModel>,
    rows: Seq<Seq<Seq<char>>>,
    n: nat,
    k: int,
)
    requires
        0 <= k < n,
    ensures
        steps_ops(steps, rows, n).len() == ops_before(steps, rows, n),
        ops_before(steps, rows, k as nat) + (if steps[k] is Rows {
            rows[k].len()
        } else {
            1
        }) <= ops_before(steps, rows, n),
        match steps[k] {
            StepModel::Rows { query, sign } => forall|r: int|
                0 <= r < rows[k].len() ==> #[trigger] steps_ops(steps, rows, n)[ops_before(
                    steps,
                    rows,
                    k as nat,
                ) + r] == (OpModel::Row { sign, row_json: rows[k][r] }),
            StepModel::Delete { conds, values } => steps_ops(steps, rows, n)[ops_before(
                steps,
                rows,
                k as nat,
            ) as int] == (OpModel::DeleteByKey { conds, values }),
        },
    decreases n,
{
    let before = steps_ops(steps, rows, (n - 1) as nat);
    if n == 1 {
        assert(before =~= Seq::empty());
    } else {
        lemma_ops_stand(
            steps,
            rows,
            (n - 1) as nat,
            if k < n - 1 {
                k
            } else {
                0
            },
        );
    }
    let all = steps_ops(steps, rows, n);
    let at = ops_before(steps, rows, k as nat);
    if k < n - 1 {
        assert forall|i: int| 0 <= i < before.len() implies all[i] == before[i] by {}
        if let StepModel::Rows { query, sign } = steps[k] {
            assert forall|r: int| 0 <= r < rows[k].len() implies #[trigger] all[at + r] == (
            OpModel::Row { sign, row_json: rows[k][r] }) by {
                assert(before[at + r] == (OpModel::Row { sign, row_json: rows[k][r] }));
            }
        }
    }
}

/// Everything that a plan's queries return is executed, in the order of the plan: each
/// returned row becomes an operation with the sign of its step, each keyed delete one
/// with its own key; and nothing else is.
pub proof fn law_plans_come_to_all_their_rows(plan: PlanModel, rows: Seq<Seq<Seq<char>>>, k: int)
    requires
        plan.end == EndModel::Done,
        0 <= k < plan.steps.len(),
    ensures
        plan_outcome(plan, rows) matches PlannedModel::Ops(ops) && {
            let at = ops_before(plan.steps, rows, k as nat);
            &&& ops.len() == ops_before(plan.steps, rows, plan.steps.len())
            &&& match plan.steps[k] {
                StepModel::Rows { query, sign } => forall|r: int|
                    0 <= r < rows[k].len() ==> #[trigger] ops[at + r] == (OpModel::Row {
                        sign,
                        row_json: rows[k][r],
                    }),
                StepModel::Delete { conds, values } => ops[at as int] == (OpModel::DeleteByKey {
                    conds,
                    values,
                }),
            }
        },
{
    lemma_ops_stand(plan.steps, rows, plan.steps.len(), k);
}

/// A plan that makes a view stale, or fails, comes to that and to no operations.
pub proof fn law_unfinished_plans_come_to_nothing(plan: PlanModel, rows: Seq<Seq<Seq<char>>>)
    ensures
        plan.end matches EndModel::Stale(reason) ==> plan_outcome(plan, rows)
            == PlannedModel::Stale(reason),
        plan.end matches EndModel::Failed(message) ==> plan_outcome(plan, rows)
            == PlannedModel::Failed(message),
{
}

/// Whether a VALUES list binds the columns of a relation one by one: the `i`-th
/// parameter is cast to the `i`-th column's type and stands under its name.
pub open spec fn lists_columns(
    rel: RelationModel,
    first_param: nat,
    quoting: spec_fn(Seq<char>) -> Seq<char>,
    casts: Seq<Seq<char>>,
    names: Seq<Seq<char>>,
) -> bool {
    &&& casts.len() == rel.columns.len()
    &&& names.len() == rel.columns.len()
    &&& forall|i: int|
        0 <= i < rel.columns.len() ==> #[trigger] casts[i] == "$"@ + decimal(
            (first_param + i) as nat,
        ) + "::"@ + rel.columns[i].resolved_type->0
    &&& forall|i: int|
        0 <= i < rel.columns.len() ==> #[trigger] names[i] == quoting(rel.columns[i].name)
}

/// The row of a change stands in its FROM list as one VALUES row, every column under
/// its own name and type; and it does wherever all types are known.
pub proof fn law_changed_rows_keep_their_columns(
    rel: RelationModel,
    alias: Seq<char>,
    first_param: nat,
    quoting: spec_fn(Seq<char>) -> Seq<char>,
    casts: Seq<Seq<char>>,
    names: Seq<Seq<char>>,
)
    requires
        forall|i: int|
            0 <= i < rel.columns.len() ==> (#[trigger] rel.columns[i]).resolved_type is Some,
        lists_columns(rel, first_param, quoting, casts, names),
    ensures
        values_text(rel, alias, first_param, quoting) == Ok::<Seq<char>, Seq<char>>(
            "(VALUES ("@ + joined(casts, ", "@) + ")) AS "@ + quoting(alias) + "("@ + joined(
                names,
                ", "@,
            ) + ")"@,
        ),
{
    lemma_unresolved_none(rel, rel.columns.len());
    assert(casts =~= Seq::new(
        rel.columns.len(),
        |i: int| cast((first_param + i) as nat, rel.columns[i].resolved_type->0),
    ));
    assert(names =~= column_names(rel).map_values(|name: Seq<char>| quoting(name)));
}

proof fn lemma_unresolved_none(rel: RelationModel, n: nat)
    requires
        n <= rel.columns.len(),
        forall|i: int|
            0 <= i < rel.columns.len() ==> (#[trigger] rel.columns[i]).resolved_type is Some,
    ensures
        unresolved(rel, n) is None,
    decreases n,
{
    if n > 0 {
        lemma_unresolved_none(rel, (n - 1) as nat);
        assert(rel.columns[n - 1].resolved_type is Some);
    }
}

/// The deltas of a join come from the changed row joined with the shadow of every other
/// relation, under the view's own aliases, by the view's own select list, predicate and
/// grouping.
pub proof fn law_joins_read_the_other_shadows(
    spec: SpecModel,
    rel_index: int,
    rel: RelationModel,
    row: Seq<Cell>,
    sign: i32,
    quoting: spec_fn(Seq<char>) -> Seq<char>,
    source: Seq<char>,
    j: int,
)
    requires
        0 <= rel_index < spec.relations.len(),
        0 <= j < spec.relations.len(),
        values_text(rel, spec.relations[rel_index].alias, 1, quoting) == Ok::<Seq<char>, Seq<char>>(
            source,
        ),
    ensures
        ({
            let plan = join_rows(spec, rel_index, rel, row, sign, quoting);
            &&& plan.steps.len() == 1
            &&& plan.steps[0] matches StepModel::Rows { query, sign: s } && has_part(
                query.sql,
                if j == rel_index {
                    source
                } else {
                    "nabla_shadow.t"@ + decimal(spec.relations[j].oid as nat) + " AS "@ + quoting(
                        spec.relations[j].alias,
                    )
                },
            )
        }),
{
    reveal_strlit("nabla_shadow.t");
    reveal_strlit("nabla_shadow");
    reveal_strlit(".t");
    assert("nabla_shadow.t"@ =~= "nabla_shadow"@ + ".t"@);
    let parts = Seq::new(
        spec.relations.len(),
        |i: int| join_source(spec, rel_index, source, i, quoting),
    );
    text::lemma_part_of_joined(parts, ", "@, j);
    let from = joined(parts, ", "@);
    let back = crate::definition::clause(" WHERE "@, spec.predicate)
        + crate::definition::clause(" GROUP BY "@, spec.group_by) + ") AS r"@;
    let front = "SELECT to_jsonb(r)::text FROM (SELECT "@ + spec.select_list + " FROM "@;
    text::lemma_part_within(front, from, back, parts[j]);
    assert(delta_query(spec, from) =~= front + from + back);
    let part = if j == rel_index {
        source
    } else {
        "nabla_shadow.t"@ + decimal(spec.relations[j].oid as nat) + " AS "@ + quoting(
            spec.relations[j].alias,
        )
    };
    assert(parts[j] =~= part);
}

/// Deltas are evaluated by the query that fills the view: the same query, over another
/// FROM list, with each of its rows as JSON.
pub proof fn law_deltas_come_from_the_views_own_query(spec: SpecModel, from_list: Seq<char>)
    requires
        spec.populate_sql == "SELECT "@ + spec.select_list + " FROM "@ + from_list + (
        match spec.predicate {
            Some(p) => " WHERE "@ + p,
            None => Seq::empty(),
        }) + (match spec.group_by {
            Some(g) => " GROUP BY "@ + g,
            None => Seq::empty(),
        }),
    ensures
        delta_query(spec, from_list) == "SELECT to_jsonb(r)::text FROM ("@ + spec.populate_sql
            + ") AS r"@,
{
    reveal_strlit("SELECT to_jsonb(r)::text FROM (SELECT ");
    reveal_strlit("SELECT to_jsonb(r)::text FROM (");
    reveal_strlit("SELECT ");
    assert("SELECT to_jsonb(r)::text FROM (SELECT "@ =~= "SELECT to_jsonb(r)::text FROM ("@
        + "SELECT "@);
    assert(delta_query(spec, from_list) =~= "SELECT to_jsonb(r)::text FROM ("@ + spec.populate_sql
        + ") AS r"@);
}

/// Whether the old row has a value for a column.
pub open spec fn is_known_of(old_row: Option<Seq<Cell>>, i: int) -> bool {
    old_row is Some && i < (old_row->0).len() && (old_row->0)[i] != Cell::Unchanged
}

proof fn lemma_resolved_exactly(
    rel: RelationModel,
    new: Seq<Cell>,
    old_row: Option<Seq<Cell>>,
    mentions: spec_fn(Seq<char>) -> bool,
    n: nat,
)
    requires
        n <= new.len(),
    ensures
        resolved(rel, new, old_row, mentions, n) is Ok <==> forall|i: int|
            0 <= i < n && #[trigger] new[i] == Cell::Unchanged ==> is_known_of(old_row, i)
                || !mentions(rel.columns[i].name),
        resolved(rel, new, old_row, mentions, n) matches Ok(row) ==> row.len() == n && forall|
            i: int,
        |
            0 <= i < n ==> #[trigger] row[i] == (if new[i] != Cell::Unchanged {
                new[i]
            } else if is_known_of(old_row, i) {
                (old_row->0)[i]
            } else {
                Cell::Null
            }),
    decreases n,
{
    if n > 0 {
        lemma_resolved_exactly(rel, new, old_row, mentions, (n - 1) as nat);
        if resolved(rel, new, old_row, mentions, n) is Ok {
            let row = resolved(rel, new, old_row, mentions, n)->Ok_0;
            let before = resolved(rel, new, old_row, mentions, (n - 1) as nat)->Ok_0;
            assert forall|i: int| 0 <= i < n implies #[trigger] row[i] == (if new[i]
                != Cell::Unchanged {
                new[i]
            } else if is_known_of(old_row, i) {
                (old_row->0)[i]
            } else {
                Cell::Null
            }) by {
                if i < n - 1 {
                    assert(row[i] == before[i]);
                }
            }
            assert forall|i: int| 0 <= i < n && #[trigger] new[i] == Cell::Unchanged implies is_known_of(
                old_row,
                i,
            ) || !mentions(rel.columns[i].name) by {}
        }
    }
}

proof fn lemma_stray(rel: RelationModel, new: Seq<Cell>, n: nat)
    requires
        n <= new.len(),
    ensures
        match first_stray(rel, new, n) {
            Some(i) => rel.columns.len() <= i < n && new[i] == Cell::Unchanged && forall|j: int|
                rel.columns.len() <= j < i ==> #[trigger] new[j] != Cell::Unchanged,
            None => forall|j: int|
                rel.columns.len() <= j < n ==> #[trigger] new[j] != Cell::Unchanged,
        },
    decreases n,
{
    if n > 0 {
        lemma_stray(rel, new, (n - 1) as nat);
    }
}

/// A value that was not sent is the old row's, where that has it, and NULL where the
/// definition never mentions its column; where neither holds the view goes stale, and where
/// it stands for no column at all the change fails. Values that were sent stay as they are.
pub proof fn law_unsent_values_come_from_the_old_row(
    rel: RelationModel,
    new: Seq<Cell>,
    old_row: Option<Seq<Cell>>,
    mentions: spec_fn(Seq<char>) -> bool,
)
    ensures
        ({
            let lost = exists|i: int|
                0 <= i < new.len() && i < rel.columns.len() && #[trigger] new[i] == Cell::Unchanged
                    && !is_known_of(old_row, i) && mentions(rel.columns[i].name);
            let stray = exists|i: int|
                rel.columns.len() <= i < new.len() && #[trigger] new[i] == Cell::Unchanged;
            match resolved_row(rel, new, old_row, mentions) {
                Ok(row) => !lost && !stray && row.len() == new.len() && forall|i: int|
                    0 <= i < new.len() ==> #[trigger] row[i] == (if new[i] != Cell::Unchanged {
                        new[i]
                    } else if is_known_of(old_row, i) {
                        (old_row->0)[i]
                    } else {
                        Cell::Null
                    }),
                Err(EndModel::Stale(_)) => lost,
                Err(EndModel::Failed(_)) => !lost && stray,
                Err(EndModel::Done) => false,
            }
        }),
{
    lemma_stray(rel, new, new.len());
    let stray = first_stray(rel, new, new.len());
    let n = match stray {
        Some(i) => i as nat,
        None => new.len(),
    };
    lemma_resolved_exactly(rel, new, old_row, mentions, n);
    if stray is Some {
        assert(new[stray->0] == Cell::Unchanged);
    }
}

/// A contribution to a group first reads the group's row, then adds itself, and then, where
/// the group is left empty, removes the groups without rows: those whose count is used up.
pub proof fn law_groups_are_read_then_updated(
    name: Seq<char>,
    spec: SpecModel,
    ex: ExecutionModel,
    quoting: spec_fn(Seq<char>) -> Seq<char>,
)
    requires
        ex.position < ex.ops.len(),
        spec.shape == Shape::Aggregate,
        spec.count_alias is Some,
    ensures
        ex.ops[ex.position as int] matches OpModel::Row { sign, row_json } ==> (next_statement(
            name,
            spec,
            ex,
            quoting,
        ) matches Ok(Some(st)) && match ex.stage {
            StageModel::Ready => st == previous_statement(name, spec, row_json, quoting),
            StageModel::Upsert { previous } => st == upsert_statement(
                name,
                spec,
                sign,
                row_json,
                quoting,
            ),
            StageModel::Cleanup => has_part(
                st.sql,
                " WHERE v."@ + quoting(spec.count_alias->0) + " <= 0"@,
            ),
        }),
        started(ex.ops).stage is Ready,
        started(ex.ops).position == 0,
        started(ex.ops).deltas.len() == 0,
        started(ex.ops).ops == ex.ops,
{
    lemma_cleanup_text(name, quoting(spec.count_alias->0));
}

proof fn lemma_cleanup_text(name: Seq<char>, count: Seq<char>)
    ensures
        has_part(cleanup_statement(name, count).sql, " WHERE v."@ + count + " <= 0"@),
{
    let part = " WHERE v."@ + count + " <= 0"@;
    let front = "DELETE FROM "@ + name + " AS v"@;
    assert(cleanup_statement(name, count).sql =~= front + part) by {
        reveal_strlit(" AS v WHERE v.");
        reveal_strlit(" AS v");
        reveal_strlit(" WHERE v.");
        assert(" AS v WHERE v."@ =~= " AS v"@ + " WHERE v."@);
    }
    assert(has_part(front + part, part)) by {
        text::lemma_part_of_itself(part);
        text::lemma_part_right(front, part, part);
    }
}

/// A plan that is continued keeps its own steps, in front. One that came to its end early is not
/// continued; one that is done goes on with every step of the other and ends as it does.
pub proof fn law_plans_are_continued_only_when_done(first: PlanModel, second: PlanModel)
    ensures
        ({
            let both = followed_by(first, second);
            &&& first.steps.is_prefix_of(both.steps)
            &&& first.end == EndModel::Done ==> both.end == second.end && both.steps.len()
                == first.steps.len() + second.steps.len() && second.steps.is_suffix_of(both.steps)
            &&& first.end != EndModel::Done ==> both.end == first.end && both.steps.len()
                == first.steps.len()
        }),
{
    let both = followed_by(first, second);
    assert(first.steps =~= both.steps.subrange(0, first.steps.len() as int));
    if first.end == EndModel::Done {
        assert(second.steps =~= both.steps.subrange(
            both.steps.len() - second.steps.len(),
            both.steps.len() as int,
        ));
    }
}

/// Whether a key column can be looked up in a row: the relation has it, with its type, and the
/// row is long enough to hold it.
pub open spec fn is_placed(rel: RelationModel, column: Seq<char>, row: Seq<Cell>) -> bool {
    exists|i: int|
        0 <= i < rel.columns.len() && i < row.len() && (#[trigger] rel.columns[i]).name == column
            && rel.columns[i].resolved_type is Some && text::index_of(column_names(rel), column)
            == Some(i)
}

/// Whether a row has a value in the column of a name.
pub open spec fn has_value(rel: RelationModel, column: Seq<char>, row: Seq<Cell>) -> bool {
    text::index_of(column_names(rel), column) matches Some(i) && row[i] is Text
}

proof fn lemma_keys_with_values(
    spec: SpecModel,
    rel: RelationModel,
    old: Seq<Cell>,
    quoting: spec_fn(Seq<char>) -> Seq<char>,
    n: nat,
)
    requires
        n <= spec.pk_columns.len(),
        forall|k: int| 0 <= k < n ==> is_placed(rel, #[trigger] spec.pk_columns[k], old),
    ensures
        key_conditions(spec, rel, old, quoting, n) is Ok <==> forall|k: int|
            0 <= k < n ==> has_value(rel, #[trigger] spec.pk_columns[k], old),
        key_conditions(spec, rel, old, quoting, n) matches Err(end) ==> end is Stale,
    decreases n,
{
    if n > 0 {
        lemma_keys_with_values(spec, rel, old, quoting, (n - 1) as nat);
        assert(is_placed(rel, spec.pk_columns[n - 1], old));
        let before = key_conditions(spec, rel, old, quoting, (n - 1) as nat);
        if before is Ok && has_value(rel, spec.pk_columns[n - 1], old) {
            assert forall|k: int| 0 <= k < n implies has_value(
                rel,
                #[trigger] spec.pk_columns[k],
                old,
            ) by {}
        }
    }
}

/// A row is removed by its key where the old row has a value in every key column. Where one of
/// them was not sent, or is null, the view becomes stale: the row cannot be found any more.
pub proof fn law_rows_without_their_key_make_views_stale(
    spec: SpecModel,
    rel: RelationModel,
    key_kind: u8,
    old: Seq<Cell>,
    quoting: spec_fn(Seq<char>) -> Seq<char>,
)
    requires
        spec.shape == Shape::Projection,
        spec.pk_columns.len() == spec.pk_view_columns.len(),
        forall|k: int|
            0 <= k < spec.pk_columns.len() ==> is_placed(rel, #[trigger] spec.pk_columns[k], old),
    ensures
        ({
            let plan = single_delete(spec, rel, key_kind, old, quoting);
            let whole = forall|k: int|
                0 <= k < spec.pk_columns.len() ==> has_value(
                    rel,
                    #[trigger] spec.pk_columns[k],
                    old,
                );
            &&& whole ==> plan.end == EndModel::Done && plan.steps.len() == 1
            &&& !whole ==> plan.end is Stale && plan.steps.len() == 0
        }),
{
    lemma_keys_with_values(spec, rel, old, quoting, spec.pk_columns.len());
}

} // verus!
