use vstd::prelude::*;

verus! {

/// Identity of one named output of one producer (a cycler and an output path).
#[derive(Clone, Debug, PartialEq, Eq, Hash)]
pub struct OutputKey {
    pub cycler: String,
    pub output: String,
}

/// The value of an [`OutputKey`]: the cycler's name and the output's path.
pub type KeyView = (Seq<char>, Seq<char>);

impl View for OutputKey {
    type V = KeyView;

    open spec fn view(&self) -> KeyView {
        (self.cycler@, self.output@)
    }
}

impl OutputKey {
    pub fn new(cycler: String, output: String) -> (r: OutputKey)
        ensures
            r.cycler == cycler,
            r.output == output,
    {
        OutputKey { cycler, output }
    }

    /// Whether both keys name the same output.
    pub fn same_as(&self, other: &OutputKey) -> (r: bool)
        ensures
            r == (self@ == other@),
    {
        self.cycler.eq(&other.cycler) && self.output.eq(&other.output)
    }

    /// A copy of the key with the same value.
    pub fn duplicate(&self) -> (r: OutputKey)
        ensures
            r@ == self@,
    {
        OutputKey { cycler: self.cycler.clone(), output: self.output.clone() }
    }
}

/// The token that a consumer receives when it subscribes and hands back to
/// unsubscribe.
#[derive(Clone, Copy, Debug, PartialEq, Eq, Structural, Hash)]
pub struct SubscriptionId {
    pub value: u128,
}

/// The subscribers of one output, in the order in which they joined: each
/// with its id and the send handle of its channel.
pub type Subscribers<S> = Seq<(SubscriptionId, S)>;

/// The table's value: one entry per subscribed output, in the order in which
/// the outputs were first subscribed.
pub type TableView<S> = Seq<(KeyView, Subscribers<S>)>;

pub open spec fn has_output<S>(t: TableView<S>, k: KeyView) -> bool {
    exists|i: int| 0 <= i < t.len() && t[i].0 == k
}

pub open spec fn position<S>(t: TableView<S>, k: KeyView) -> int {
    choose|i: int| 0 <= i < t.len() && t[i].0 == k
}

/// The subscribers registered for output `k`; none where `k` is not in the
/// table.
pub open spec fn subscribers_of<S>(t: TableView<S>, k: KeyView) -> Subscribers<S> {
    if has_output(t, k) {
        t[position(t, k)].1
    } else {
        Seq::empty()
    }
}

pub open spec fn ids<S>(subs: Subscribers<S>) -> Seq<SubscriptionId> {
    subs.map_values(|p: (SubscriptionId, S)| p.0)
}

pub open spec fn holds_id<S>(subs: Subscribers<S>, id: SubscriptionId) -> bool {
    exists|j: int| 0 <= j < subs.len() && subs[j].0 == id
}

pub open spec fn id_position<S>(subs: Subscribers<S>, id: SubscriptionId) -> int {
    choose|j: int| 0 <= j < subs.len() && subs[j].0 == id
}

/// `subs` with `id` bound to `ch`: an existing binding of `id` is replaced in
/// place, a new one joins at the end.
pub open spec fn with_subscriber<S>(subs: Subscribers<S>, id: SubscriptionId, ch: S) -> Subscribers<
    S,
> {
    if holds_id(subs, id) {
        subs.update(id_position(subs, id), (id, ch))
    } else {
        subs.push((id, ch))
    }
}

/// `subs` without the binding of `id`, if it has one.
pub open spec fn without_subscriber<S>(subs: Subscribers<S>, id: SubscriptionId) -> Subscribers<S> {
    if holds_id(subs, id) {
        subs.remove(id_position(subs, id))
    } else {
        subs
    }
}

/// The table after subscriber `id` with channel `ch` joined output `k`.
pub open spec fn added<S>(t: TableView<S>, k: KeyView, id: SubscriptionId, ch: S) -> TableView<S> {
    if has_output(t, k) {
        let i = position(t, k);
        t.update(i, (k, with_subscriber(t[i].1, id, ch)))
    } else {
        t.push((k, seq![(id, ch)]))
    }
}

/// The table after subscriber `id` left output `k`: the output's entry goes
/// away with its last subscriber.
pub open spec fn removed<S>(t: TableView<S>, k: KeyView, id: SubscriptionId) -> TableView<S> {
    if has_output(t, k) {
        let i = position(t, k);
        let rest = without_subscriber(t[i].1, id);
        if rest.len() == 0 {
            t.remove(i)
        } else {
            t.update(i, (k, rest))
        }
    } else {
        t
    }
}

pub open spec fn unique_ids<S>(subs: Subscribers<S>) -> bool {
    forall|a: int, b: int| 0 <= a < b < subs.len() ==> subs[a].0 != subs[b].0
}

/// Each output appears once, has at least one subscriber, and holds each id
/// once.
pub open spec fn well_formed<S>(t: TableView<S>) -> bool {
    &&& forall|i: int, j: int| 0 <= i < j < t.len() ==> t[i].0 != t[j].0
    &&& forall|i: int| 0 <= i < t.len() ==> t[i].1.len() > 0
    &&& forall|i: int| 0 <= i < t.len() ==> unique_ids(#[trigger] t[i].1)
}

pub proof fn lemma_position<S>(t: TableView<S>, k: KeyView, i: int)
    requires
        well_formed(t),
        0 <= i < t.len(),
        t[i].0 == k,
    ensures
        has_output(t, k),
        position(t, k) == i,
        subscribers_of(t, k) == t[i].1,
{
    let p = position(t, k);
    assert(0 <= p < t.len() && t[p].0 == k);
    if p < i {
        assert(t[p].0 != t[i].0);
    } else if i < p {
        assert(t[i].0 != t[p].0);
    }
}

pub proof fn lemma_id_position<S>(subs: Subscribers<S>, id: SubscriptionId, j: int)
    requires
        unique_ids(subs),
        0 <= j < subs.len(),
        subs[j].0 == id,
    ensures
        holds_id(subs, id),
        id_position(subs, id) == j,
{
    let p = id_position(subs, id);
    assert(0 <= p < subs.len() && subs[p].0 == id);
    if p < j {
        assert(subs[p].0 != subs[j].0);
    } else if j < p {
        assert(subs[j].0 != subs[p].0);
    }
}

pub proof fn lemma_with_subscriber<S>(subs: Subscribers<S>, id: SubscriptionId, ch: S)
    requires
        unique_ids(subs),
    ensures
        unique_ids(with_subscriber(subs, id, ch)),
        holds_id(with_subscriber(subs, id, ch), id),
        with_subscriber(subs, id, ch).len() > 0,
{
    let w = with_subscriber(subs, id, ch);
    if holds_id(subs, id) {
        let j = id_position(subs, id);
        assert(w[j].0 == id);
        assert forall|a: int, b: int| 0 <= a < b < w.len() implies w[a].0 != w[b].0 by {
            assert(w[a].0 == subs[a].0);
            assert(w[b].0 == subs[b].0);
        }
    } else {
        assert(w[subs.len() as int].0 == id);
        assert forall|a: int, b: int| 0 <= a < b < w.len() implies w[a].0 != w[b].0 by {
            if b == subs.len() {
                assert(w[a] == subs[a]);
            } else {
                assert(w[a] == subs[a]);
                assert(w[b] == subs[b]);
            }
        }
    }
}

pub proof fn lemma_without_subscriber<S>(subs: Subscribers<S>, id: SubscriptionId)
    requires
        unique_ids(subs),
    ensures
        unique_ids(without_subscriber(subs, id)),
        !holds_id(without_subscriber(subs, id), id),
        without_subscriber(subs, id).len() == (if holds_id(subs, id) {
            subs.len() - 1
        } else {
            subs.len() as int
        }),
        forall|j: int|
            0 <= j < subs.len() && subs[j].0 != id ==> without_subscriber(subs, id).contains(
                #[trigger] subs[j],
            ),
{
    let rest = without_subscriber(subs, id);
    if holds_id(subs, id) {
        let p = id_position(subs, id);
        assert forall|a: int, b: int| 0 <= a < b < rest.len() implies rest[a].0 != rest[b].0 by {
            let a0 = if a < p {
                a
            } else {
                a + 1
            };
            let b0 = if b < p {
                b
            } else {
                b + 1
            };
            assert(rest[a] == subs[a0]);
            assert(rest[b] == subs[b0]);
        }
        assert forall|x: int| 0 <= x < rest.len() implies rest[x].0 != id by {
            let x0 = if x < p {
                x
            } else {
                x + 1
            };
            assert(rest[x] == subs[x0]);
            assert(x0 != p);
        }
        assert forall|j: int| 0 <= j < subs.len() && subs[j].0 != id implies rest.contains(
            #[trigger] subs[j],
        ) by {
            if j < p {
                assert(rest[j] == subs[j]);
            } else {
                assert(j != p);
                assert(rest[j - 1] == subs[j]);
            }
        }
    } else {
        assert forall|j: int| 0 <= j < subs.len() && subs[j].0 != id implies rest.contains(
            #[trigger] subs[j],
        ) by {
            assert(rest[j] == subs[j]);
        }
    }
}

/// Adding to output `k` keeps the table well formed, gives `k` the new
/// binding and leaves every other output as it was.
pub proof fn lemma_added<S>(t: TableView<S>, k: KeyView, id: SubscriptionId, ch: S)
    requires
        well_formed(t),
    ensures
        well_formed(added(t, k, id, ch)),
        has_output(added(t, k, id, ch), k),
        subscribers_of(added(t, k, id, ch), k) == with_subscriber(subscribers_of(t, k), id, ch),
        holds_id(subscribers_of(added(t, k, id, ch), k), id),
        forall|k2: KeyView|
            k2 != k ==> #[trigger] subscribers_of(added(t, k, id, ch), k2) == subscribers_of(t, k2)
                && has_output(added(t, k, id, ch), k2) == has_output(t, k2),
{
    let t2 = added(t, k, id, ch);
    if has_output(t, k) {
        let i = position(t, k);
        lemma_position(t, k, i);
        lemma_with_subscriber(t[i].1, id, ch);
        assert(well_formed(t2)) by {
            assert forall|a: int, b: int| 0 <= a < b < t2.len() implies t2[a].0 != t2[b].0 by {
                assert(t2[a].0 == t[a].0);
                assert(t2[b].0 == t[b].0);
            }
            assert forall|a: int| 0 <= a < t2.len() implies unique_ids(#[trigger] t2[a].1) by {
                if a != i {
                    assert(t2[a] == t[a]);
                }
            }
        }
        lemma_position(t2, k, i);
        assert forall|k2: KeyView| k2 != k implies #[trigger] subscribers_of(t2, k2)
            == subscribers_of(t, k2) && has_output(t2, k2) == has_output(t, k2) by {
            if has_output(t, k2) {
                let p = position(t, k2);
                lemma_position(t, k2, p);
                assert(t2[p] == t[p]);
                lemma_position(t2, k2, p);
            } else {
                assert forall|x: int| 0 <= x < t2.len() implies t2[x].0 != k2 by {
                    assert(t2[x].0 == t[x].0);
                }
            }
        }
    } else {
        let i = t.len() as int;
        assert(with_subscriber(Seq::<(SubscriptionId, S)>::empty(), id, ch) =~= seq![(id, ch)]);
        assert(seq![(id, ch)][0].0 == id);
        assert(well_formed(t2)) by {
            assert forall|a: int, b: int| 0 <= a < b < t2.len() implies t2[a].0 != t2[b].0 by {
                assert(t2[a] == t[a]);
                if b < i {
                    assert(t2[b] == t[b]);
                }
            }
            assert forall|a: int| 0 <= a < t2.len() implies unique_ids(#[trigger] t2[a].1) by {
                if a < i {
                    assert(t2[a] == t[a]);
                }
            }
        }
        lemma_position(t2, k, i);
        assert forall|k2: KeyView| k2 != k implies #[trigger] subscribers_of(t2, k2)
            == subscribers_of(t, k2) && has_output(t2, k2) == has_output(t, k2) by {
            if has_output(t, k2) {
                let p = position(t, k2);
                lemma_position(t, k2, p);
                assert(t2[p] == t[p]);
                lemma_position(t2, k2, p);
            } else {
                assert forall|x: int| 0 <= x < t2.len() implies t2[x].0 != k2 by {
                    if x < i {
                        assert(t2[x] == t[x]);
                    }
                }
            }
        }
    }
}

/// Removing from output `k` keeps the table well formed, drops the binding
/// (and the output with its last subscriber) and leaves every other output
/// as it was.
pub proof fn lemma_removed<S>(t: TableView<S>, k: KeyView, id: SubscriptionId)
    requires
        well_formed(t),
    ensures
        well_formed(removed(t, k, id)),
        subscribers_of(removed(t, k, id), k) == without_subscriber(subscribers_of(t, k), id),
        has_output(removed(t, k, id), k) == (has_output(t, k) && without_subscriber(
            subscribers_of(t, k),
            id,
        ).len() > 0),
        forall|k2: KeyView|
            k2 != k ==> #[trigger] subscribers_of(removed(t, k, id), k2) == subscribers_of(t, k2)
                && has_output(removed(t, k, id), k2) == has_output(t, k2),
{
    let t2 = removed(t, k, id);
    if !has_output(t, k) {
        assert(!holds_id(Seq::<(SubscriptionId, S)>::empty(), id));
        return;
    }
    let i = position(t, k);
    lemma_position(t, k, i);
    let rest = without_subscriber(t[i].1, id);
    lemma_without_subscriber(t[i].1, id);
    if rest.len() == 0 {
        let shift = |x: int| if x < i { x } else { x + 1 };
        assert forall|x: int| 0 <= x < t2.len() implies t2[x] == t[shift(x)] by {}
        assert(well_formed(t2)) by {
            assert forall|a: int, b: int| 0 <= a < b < t2.len() implies t2[a].0 != t2[b].0 by {
                assert(t2[a] == t[shift(a)]);
                assert(t2[b] == t[shift(b)]);
            }
            assert forall|a: int| 0 <= a < t2.len() implies #[trigger] t2[a].1.len() > 0
                && unique_ids(t2[a].1) by {
                assert(t2[a] == t[shift(a)]);
            }
        }
        assert forall|x: int| 0 <= x < t2.len() implies t2[x].0 != k by {
            assert(t2[x] == t[shift(x)]);
            assert(shift(x) != i);
        }
        assert(rest =~= Seq::<(SubscriptionId, S)>::empty());
        assert forall|k2: KeyView| k2 != k implies #[trigger] subscribers_of(t2, k2)
            == subscribers_of(t, k2) && has_output(t2, k2) == has_output(t, k2) by {
            if has_output(t, k2) {
                let p = position(t, k2);
                lemma_position(t, k2, p);
                let p2 = if p < i { p } else { p - 1 };
                assert(t2[p2] == t[shift(p2)]);
                lemma_position(t2, k2, p2);
            } else {
                assert forall|x: int| 0 <= x < t2.len() implies t2[x].0 != k2 by {
                    assert(t2[x] == t[shift(x)]);
                }
            }
        }
    } else {
        assert(well_formed(t2)) by {
            assert forall|a: int, b: int| 0 <= a < b < t2.len() implies t2[a].0 != t2[b].0 by {
                assert(t2[a].0 == t[a].0);
                assert(t2[b].0 == t[b].0);
            }
            assert forall|a: int| 0 <= a < t2.len() implies #[trigger] t2[a].1.len() > 0
                && unique_ids(t2[a].1) by {
                if a != i {
                    assert(t2[a] == t[a]);
                }
            }
        }
        lemma_position(t2, k, i);
        assert forall|k2: KeyView| k2 != k implies #[trigger] subscribers_of(t2, k2)
            == subscribers_of(t, k2) && has_output(t2, k2) == has_output(t, k2) by {
            if has_output(t, k2) {
                let p = position(t, k2);
                lemma_position(t, k2, p);
                assert(t2[p] == t[p]);
                lemma_position(t2, k2, p);
            } else {
                assert forall|x: int| 0 <= x < t2.len() implies t2[x].0 != k2 by {
                    assert(t2[x].0 == t[x].0);
                }
            }
        }
    }
}

/// One value to hand on: the entry at `index` of an update goes to
/// `subscriber`.
#[derive(Clone, Copy, Debug, PartialEq, Eq, Structural)]
pub struct Delivery {
    pub index: usize,
    pub subscriber: SubscriptionId,
}

/// The entry at `index` of an update, once for each of `to`.
pub open spec fn targets(index: int, to: Seq<SubscriptionId>) -> Seq<Delivery> {
    to.map_values(|id: SubscriptionId| Delivery { index: index as usize, subscriber: id })
}

/// What an update of `cycler` with entries named `names` hands on: for each
/// entry in order, one delivery to each subscriber of that output, in the
/// order in which they joined.
pub open spec fn deliveries_for<S>(t: TableView<S>, cycler: Seq<char>, names: Seq<Seq<char>>) -> Seq<
    Delivery,
>
    decreases names.len(),
{
    if names.len() == 0 {
        Seq::empty()
    } else {
        deliveries_for(t, cycler, names.drop_last()) + targets(
            names.len() - 1,
            ids(subscribers_of(t, (cycler, names.last()))),
        )
    }
}

fn id_index<S>(subs: &Vec<(SubscriptionId, S)>, id: SubscriptionId) -> (r: Option<usize>)
    requires
        unique_ids(subs@),
    ensures
        r == (if holds_id(subs@, id) {
            Some(id_position(subs@, id) as usize)
        } else {
            None::<usize>
        }),
        r matches Some(j) ==> j < subs@.len() && subs@[j as int].0 == id,
{
    let mut j: usize = 0;
    while j < subs.len()
        invariant
            j <= subs@.len(),
            unique_ids(subs@),
            forall|a: int| 0 <= a < j ==> subs@[a].0 != id,
        decreases subs@.len() - j,
    {
        if subs[j].0 == id {
            proof {
                lemma_id_position(subs@, id, j as int);
            }
            return Some(j);
        }
        j += 1;
    }
    None
}

struct OutputEntry<S> {
    key: OutputKey,
    subscribers: Vec<(SubscriptionId, S)>,
}

/// For each subscribed output, who is subscribed to it and through which
/// channel.
pub struct SubscriptionTable<S> {
    entries: Vec<OutputEntry<S>>,
}

impl<S> View for SubscriptionTable<S> {
    type V = TableView<S>;

    closed spec fn view(&self) -> TableView<S> {
        self.entries@.map_values(|e: OutputEntry<S>| (e.key@, e.subscribers@))
    }
}

impl<S> SubscriptionTable<S> {
    pub fn new() -> (r: SubscriptionTable<S>)
        ensures
            r@ == Seq::<(KeyView, Subscribers<S>)>::empty(),
            well_formed(r@),
    {
        let r = SubscriptionTable { entries: Vec::new() };
        assert(r@ =~= Seq::<(KeyView, Subscribers<S>)>::empty());
        r
    }

    /// Number of subscribed outputs.
    pub fn len(&self) -> (r: usize)
        ensures
            r == self@.len(),
    {
        self.entries.len()
    }

    /// Where output `k` stands in the table, if it is there.
    pub fn find(&self, k: &OutputKey) -> (r: Option<usize>)
        requires
            well_formed(self@),
        ensures
            r == (if has_output(self@, k@) {
                Some(position(self@, k@) as usize)
            } else {
                None::<usize>
            }),
            r matches Some(i) ==> i < self@.len() && self@[i as int].0 == k@,
    {
        self.find_output(&k.cycler, &k.output)
    }

    /// Where the output `output` of `cycler` stands in the table, if it is
    /// there.
    pub fn find_output(&self, cycler: &String, output: &String) -> (r: Option<usize>)
        requires
            well_formed(self@),
        ensures
            r == (if has_output(self@, (cycler@, output@)) {
                Some(position(self@, (cycler@, output@)) as usize)
            } else {
                None::<usize>
            }),
            r matches Some(i) ==> i < self@.len() && self@[i as int].0 == (cycler@, output@),
    {
        let ghost k: KeyView = (cycler@, output@);
        let mut i: usize = 0;
        while i < self.entries.len()
            invariant
                i <= self.entries@.len(),
                well_formed(self@),
                k == (cycler@, output@),
                self@.len() == self.entries@.len(),
                forall|j: int| 0 <= j < i ==> self@[j].0 != k,
            decreases self.entries@.len() - i,
        {
            let key = &self.entries[i].key;
            assert(self@[i as int].0 == (key.cycler@, key.output@));
            if key.cycler.eq(cycler) && key.output.eq(output) {
                proof {
                    lemma_position(self@, k, i as int);
                }
                return Some(i);
            }
            i += 1;
        }
        None
    }

    /// The output at position `i`.
    pub fn key_at(&self, i: usize) -> (r: &OutputKey)
        requires
            i < self@.len(),
        ensures
            r@ == self@[i as int].0,
    {
        &self.entries[i].key
    }

    /// The ids of the subscribers of the output at position `i`, in the order
    /// in which they joined.
    pub fn ids_at(&self, i: usize) -> (r: Vec<SubscriptionId>)
        requires
            i < self@.len(),
        ensures
            r@ == ids(self@[i as int].1),
    {
        let subs = &self.entries[i].subscribers;
        let mut r: Vec<SubscriptionId> = Vec::new();
        let mut j: usize = 0;
        while j < subs.len()
            invariant
                subs@ == self@[i as int].1,
                j <= subs@.len(),
                r@ == ids(subs@.take(j as int)),
            decreases subs@.len() - j,
        {
            r.push(subs[j].0);
            proof {
                assert(subs@.take(j + 1) =~= subs@.take(j as int).push(subs@[j as int]));
            }
            j += 1;
        }
        assert(subs@.take(j as int) =~= subs@);
        r
    }

    /// Lets subscriber `id`, reached through `ch`, join output `k`. Says
    /// whether `k` was new to the table.
    pub fn add(&mut self, k: OutputKey, id: SubscriptionId, ch: S) -> (created: bool)
        requires
            well_formed(old(self)@),
        ensures
            final(self)@ == added(old(self)@, k@, id, ch),
            created == !has_output(old(self)@, k@),
            well_formed(final(self)@),
    {
        let ghost t = self@;
        let ghost kv = k@;
        proof {
            lemma_added(t, kv, id, ch);
        }
        match self.find(&k) {
            Some(i) => {
                let ghost entries = self.entries@;
                assert(unique_ids(t[i as int].1));
                match id_index(&self.entries[i].subscribers, id) {
                    Some(j) => {
                        self.entries[i].subscribers.set(j, (id, ch));
                    },
                    None => {
                        self.entries[i].subscribers.push((id, ch));
                    },
                }
                assert(self.entries@ =~= entries.update(i as int, self.entries@[i as int]));
                assert(self@ =~= added(t, kv, id, ch));
                false
            },
            None => {
                let mut subscribers: Vec<(SubscriptionId, S)> = Vec::new();
                subscribers.push((id, ch));
                assert(subscribers@ =~= seq![(id, ch)]);
                self.entries.push(OutputEntry { key: k, subscribers });
                assert(self@ =~= added(t, kv, id, ch));
                true
            },
        }
    }

    /// Lets subscriber `id` leave output `k`; the output's entry goes with
    /// its last subscriber. Says whether that happened.
    pub fn remove(&mut self, k: &OutputKey, id: SubscriptionId) -> (emptied: bool)
        requires
            well_formed(old(self)@),
        ensures
            final(self)@ == removed(old(self)@, k@, id),
            emptied == (has_output(old(self)@, k@) && without_subscriber(
                subscribers_of(old(self)@, k@),
                id,
            ).len() == 0),
            well_formed(final(self)@),
    {
        let ghost t = self@;
        proof {
            lemma_removed(t, k@, id);
        }
        match self.find(k) {
            None => false,
            Some(i) => {
                assert(unique_ids(t[i as int].1));
                match id_index(&self.entries[i].subscribers, id) {
                    None => false,
                    Some(j) => {
                        let ghost entries = self.entries@;
                        let _ = self.entries[i].subscribers.remove(j);
                        assert(self.entries@ =~= entries.update(i as int, self.entries@[i as int]));
                        if self.entries[i].subscribers.len() == 0 {
                            let _ = self.entries.remove(i);
                            assert(self@ =~= removed(t, k@, id));
                            true
                        } else {
                            assert(self@ =~= removed(t, k@, id));
                            false
                        }
                    },
                }
            },
        }
    }

    /// The channel of subscriber `id` of output `k`, if it is subscribed.
    pub fn channel(&self, k: &OutputKey, id: SubscriptionId) -> (r: Option<&S>)
        requires
            well_formed(self@),
        ensures
            r.is_some() == holds_id(subscribers_of(self@, k@), id),
            r.is_some() ==> *r.unwrap() == subscribers_of(self@, k@)[id_position(
                subscribers_of(self@, k@),
                id,
            )].1,
    {
        match self.find(k) {
            None => None,
            Some(i) => {
                proof {
                    lemma_position(self@, k@, i as int);
                }
                assert(unique_ids(self@[i as int].1));
                match id_index(&self.entries[i].subscribers, id) {
                    None => None,
                    Some(j) => Some(&self.entries[i].subscribers[j].1),
                }
            },
        }
    }

    /// Who receives which entry of an update of `cycler` whose entries are
    /// named `outputs`.
    pub fn deliveries(&self, cycler: &String, outputs: &Vec<String>) -> (r: Vec<Delivery>)
        requires
            well_formed(self@),
        ensures
            r@ == deliveries_for(self@, cycler@, outputs@.map_values(|s: String| s@)),
    {
        let ghost names = outputs@.map_values(|s: String| s@);
        let mut r: Vec<Delivery> = Vec::new();
        let mut i: usize = 0;
        while i < outputs.len()
            invariant
                well_formed(self@),
                i <= outputs@.len(),
                names == outputs@.map_values(|s: String| s@),
                r@ == deliveries_for(self@, cycler@, names.take(i as int)),
            decreases outputs@.len() - i,
        {
            let ghost before = r@;
            let ghost k: KeyView = (cycler@, outputs@[i as int]@);
            let ghost to = ids(subscribers_of(self@, k));
            assert(names.take(i + 1).drop_last() =~= names.take(i as int));
            assert(names.take(i + 1).last() == k.1);
            match self.find_output(cycler, &outputs[i]) {
                None => {
                    assert(to =~= Seq::<SubscriptionId>::empty());
                    assert(r@ =~= before + targets(i as int, to));
                },
                Some(e) => {
                    proof {
                        lemma_position(self@, k, e as int);
                    }
                    let subs = &self.entries[e].subscribers;
                    let mut j: usize = 0;
                    while j < subs.len()
                        invariant
                            subs@ == self@[e as int].1,
                            to == ids(subs@),
                            j <= subs@.len(),
                            r@ == before + targets(i as int, to.take(j as int)),
                        decreases subs@.len() - j,
                    {
                        r.push(Delivery { index: i, subscriber: subs[j].0 });
                        assert(to.take(j + 1) =~= to.take(j as int).push(subs@[j as int].0));
                        assert(r@ =~= before + targets(i as int, to.take(j + 1)));
                        j += 1;
                    }
                    assert(to.take(j as int) =~= to);
                },
            }
            i += 1;
        }
        assert(names.take(i as int) =~= names);
        r
    }
}

} // verus!
