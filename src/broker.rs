use vstd::prelude::*;

use crate::table::{
    added, deliveries_for, has_output, ids, removed, subscribers_of, well_formed,
    without_subscriber, Delivery, KeyView, OutputKey, SubscriptionId, SubscriptionTable, TableView,
};

verus! {

/// A request to send upstream on the current connection, each later tagged
/// with a correlation id by whoever sends it.
#[derive(Clone, Debug, PartialEq, Eq)]
pub enum Request {
    /// Ask the producer side to start emitting `output`; its reply is to be
    /// told to the subscribers `notify`.
    StartSubscription { output: OutputKey, notify: Vec<SubscriptionId> },
    /// Ask the producer side to stop emitting `output`.
    StopSubscription { output: OutputKey },
    /// Ask for the catalog of all outputs.
    QueryCatalog,
}

pub enum RequestView {
    Start(KeyView, Seq<SubscriptionId>),
    Stop(KeyView),
    Query,
}

impl View for Request {
    type V = RequestView;

    open spec fn view(&self) -> RequestView {
        match self {
            Request::StartSubscription { output, notify } => RequestView::Start(output@, notify@),
            Request::StopSubscription { output } => RequestView::Stop(output@),
            Request::QueryCatalog => RequestView::Query,
        }
    }
}

pub open spec fn requests_view(r: Seq<Request>) -> Seq<RequestView> {
    r.map_values(|q: Request| q@)
}

/// The broker's value: the subscription table, the connection (absent while
/// disconnected) and the last catalog received.
pub struct BrokerView<S, R, C> {
    pub table: TableView<S>,
    pub connection: Option<R>,
    pub catalog: Option<C>,
}

pub open spec fn initial<S, R, C>() -> BrokerView<S, R, C> {
    BrokerView { table: Seq::empty(), connection: None, catalog: None }
}

/// One start request for each tracked output, with its current subscribers.
pub open spec fn starts<S>(t: TableView<S>) -> Seq<RequestView> {
    t.map_values(|e: (KeyView, Seq<(SubscriptionId, S)>)| RequestView::Start(e.0, ids(e.1)))
}

/// What a new connection asks for: every tracked output again, then the
/// catalog.
pub open spec fn replay<S>(t: TableView<S>) -> Seq<RequestView> {
    starts(t).push(RequestView::Query)
}

pub open spec fn connect_effect<S, R, C>(s: BrokerView<S, R, C>, conn: R) -> (
    BrokerView<S, R, C>,
    Seq<RequestView>,
) {
    (BrokerView { table: s.table, connection: Some(conn), catalog: s.catalog }, replay(s.table))
}

pub open spec fn disconnect_effect<S, R, C>(s: BrokerView<S, R, C>) -> BrokerView<S, R, C> {
    BrokerView { table: s.table, connection: None, catalog: s.catalog }
}

/// A new subscriber is tracked at once; only the first subscriber of an
/// output, and only while connected, asks upstream to start it.
pub open spec fn subscribe_effect<S, R, C>(
    s: BrokerView<S, R, C>,
    k: KeyView,
    id: SubscriptionId,
    ch: S,
) -> (BrokerView<S, R, C>, Seq<RequestView>) {
    (
        BrokerView {
            table: added(s.table, k, id, ch),
            connection: s.connection,
            catalog: s.catalog,
        },
        if !has_output(s.table, k) && s.connection is Some {
            seq![RequestView::Start(k, seq![id])]
        } else {
            Seq::empty()
        },
    )
}

/// Whether subscriber `id` leaving output `k` leaves `k` without subscribers.
pub open spec fn last_leaves<S>(t: TableView<S>, k: KeyView, id: SubscriptionId) -> bool {
    has_output(t, k) && without_subscriber(subscribers_of(t, k), id).len() == 0
}

/// A subscriber leaves at once; when the last one leaves an output, and only
/// while connected, upstream is asked to stop it.
pub open spec fn unsubscribe_effect<S, R, C>(
    s: BrokerView<S, R, C>,
    k: KeyView,
    id: SubscriptionId,
) -> (BrokerView<S, R, C>, Seq<RequestView>) {
    (
        BrokerView { table: removed(s.table, k, id), connection: s.connection, catalog: s.catalog },
        if last_leaves(s.table, k, id) && s.connection is Some {
            seq![RequestView::Stop(k)]
        } else {
            Seq::empty()
        },
    )
}

pub open spec fn update_catalog_effect<S, R, C>(s: BrokerView<S, R, C>, c: C) -> BrokerView<
    S,
    R,
    C,
> {
    BrokerView { table: s.table, connection: s.connection, catalog: Some(c) }
}

/// The outcome of a catalog query, as its flow hands it back.
#[derive(Clone, Debug, PartialEq)]
pub enum CatalogReply<C> {
    /// The reply arrived and its payload is a catalog.
    Parsed(C),
    /// The reply arrived but its payload is no catalog.
    Malformed(String),
    /// The request failed upstream.
    Failed(String),
}

/// The catalog after a query ended with `reply`: only a parsed catalog
/// replaces the cached one.
pub open spec fn catalog_after<C>(cached: Option<C>, reply: CatalogReply<C>) -> Option<C> {
    match reply {
        CatalogReply::Parsed(c) => Some(c),
        _ => cached,
    }
}

/// What a subscriber's channel carries.
#[derive(Clone, Debug, PartialEq)]
pub enum SubscriberMessage<V> {
    /// A new value of the subscribed output.
    Update { value: V },
    /// The upstream start request that this subscriber waited on succeeded.
    SubscriptionSuccess,
    /// The upstream start request that this subscriber waited on failed.
    SubscriptionFailure { info: String },
}

/// The notice that a start request's reply becomes for the subscribers that
/// wait on it.
pub fn start_notice<P, V>(reply: &Result<P, String>) -> (r: SubscriberMessage<V>)
    ensures
        match reply {
            Ok(_) => r is SubscriptionSuccess,
            Err(e) => r matches SubscriberMessage::SubscriptionFailure { info } && info@ == e@,
        },
{
    match reply {
        Ok(_) => SubscriberMessage::SubscriptionSuccess,
        Err(e) => SubscriberMessage::SubscriptionFailure { info: e.clone() },
    }
}

/// Relies on uuid::Uuid::new_v4 for a random version-4 uuid, taken as its
/// 128-bit value by Uuid::as_u128.
#[verifier::external_body]
fn random_id() -> (r: SubscriptionId) {
    SubscriptionId { value: uuid::Uuid::new_v4().as_u128() }
}

/// The subscription broker: which local subscribers want which outputs, the
/// connection upstream (if any) and the cached catalog. Each operation
/// returns what is to be sent upstream on the current connection.
pub struct Broker<S, R, C> {
    table: SubscriptionTable<S>,
    connection: Option<R>,
    catalog: Option<C>,
}

impl<S, R, C> View for Broker<S, R, C> {
    type V = BrokerView<S, R, C>;

    closed spec fn view(&self) -> BrokerView<S, R, C> {
        BrokerView { table: self.table@, connection: self.connection, catalog: self.catalog }
    }
}

impl<S, R, C> Broker<S, R, C> {
    /// The table's invariant, which every operation keeps.
    pub open spec fn wf(&self) -> bool {
        well_formed(self@.table)
    }

    /// A broker with no subscribers, no connection and no catalog.
    pub fn new() -> (r: Broker<S, R, C>)
        ensures
            r@ == initial::<S, R, C>(),
            r.wf(),
    {
        Broker { table: SubscriptionTable::new(), connection: None, catalog: None }
    }

    /// Installs `conn` as the connection, replacing any earlier one. Every
    /// tracked output is to be started again on it, for all its current
    /// subscribers, and the catalog fetched anew.
    pub fn connect(&mut self, conn: R) -> (r: Vec<Request>)
        requires
            old(self).wf(),
        ensures
            (final(self)@, requests_view(r@)) == connect_effect(old(self)@, conn),
            final(self).wf(),
    {
        let mut r: Vec<Request> = Vec::new();
        let mut i: usize = 0;
        let n = self.table.len();
        while i < n
            invariant
                n == self.table@.len(),
                i <= n,
                requests_view(r@) == starts(self.table@).take(i as int),
            decreases n - i,
        {
            let ghost before = r@;
            let output = self.table.key_at(i).duplicate();
            let notify = self.table.ids_at(i);
            let q = Request::StartSubscription { output, notify };
            assert(q@ == starts(self.table@)[i as int]);
            r.push(q);
            assert(r@ == before.push(q));
            assert(requests_view(r@) =~= requests_view(before).push(q@));
            assert(starts(self.table@).take(i + 1) =~= starts(self.table@).take(i as int).push(q@));
            i += 1;
        }
        let ghost before = r@;
        r.push(Request::QueryCatalog);
        assert(requests_view(r@) =~= requests_view(before).push(RequestView::Query));
        assert(starts(self.table@).take(n as int) =~= starts(self.table@));
        self.connection = Some(conn);
        r
    }

    /// Drops the connection. Subscribers stay tracked and nothing is to be
    /// sent.
    pub fn disconnect(&mut self)
        requires
            old(self).wf(),
        ensures
            final(self)@ == disconnect_effect(old(self)@),
            final(self).wf(),
    {
        self.connection = None;
    }

    /// Lets subscriber `id`, reached through `subscriber`, join `output`.
    pub fn subscribe_with_id(&mut self, output: OutputKey, id: SubscriptionId, subscriber: S) -> (r:
        Vec<Request>)
        requires
            old(self).wf(),
        ensures
            (final(self)@, requests_view(r@)) == subscribe_effect(
                old(self)@,
                output@,
                id,
                subscriber,
            ),
            final(self).wf(),
    {
        let ghost k = output@;
        let start = self.connection.is_some();
        let key = output.duplicate();
        let created = self.table.add(output, id, subscriber);
        let mut r: Vec<Request> = Vec::new();
        if created && start {
            let mut notify: Vec<SubscriptionId> = Vec::new();
            notify.push(id);
            r.push(Request::StartSubscription { output: key, notify });
            assert(notify@ =~= seq![id]);
        }
        assert(requests_view(r@) =~= subscribe_effect(old(self)@, k, id, subscriber).1);
        r
    }

    /// Lets a new subscriber, reached through `subscriber`, join `output`,
    /// under a freshly drawn random id, which it returns.
    pub fn subscribe(&mut self, output: OutputKey, subscriber: S) -> (r: (
        SubscriptionId,
        Vec<Request>,
    ))
        requires
            old(self).wf(),
        ensures
            (final(self)@, requests_view(r.1@)) == subscribe_effect(
                old(self)@,
                output@,
                r.0,
                subscriber,
            ),
            final(self).wf(),
    {
        let id = random_id();
        let requests = self.subscribe_with_id(output, id, subscriber);
        (id, requests)
    }

    /// Lets subscriber `id` leave `output`. Unknown outputs and ids are
    /// ignored.
    pub fn unsubscribe(&mut self, output: &OutputKey, id: SubscriptionId) -> (r: Vec<Request>)
        requires
            old(self).wf(),
        ensures
            (final(self)@, requests_view(r@)) == unsubscribe_effect(old(self)@, output@, id),
            final(self).wf(),
    {
        let emptied = self.table.remove(output, id);
        let mut r: Vec<Request> = Vec::new();
        if emptied && self.connection.is_some() {
            r.push(Request::StopSubscription { output: output.duplicate() });
        }
        assert(requests_view(r@) =~= unsubscribe_effect(old(self)@, output@, id).1);
        r
    }

    /// Who receives which entry of an update of `cycler` whose entries are
    /// named `outputs`: entries of outputs without subscribers are dropped.
    pub fn update(&self, cycler: &String, outputs: &Vec<String>) -> (r: Vec<Delivery>)
        requires
            self.wf(),
        ensures
            r@ == deliveries_for(self@.table, cycler@, outputs@.map_values(|s: String| s@)),
    {
        self.table.deliveries(cycler, outputs)
    }

    /// Replaces the cached catalog.
    pub fn update_catalog(&mut self, catalog: C)
        requires
            old(self).wf(),
        ensures
            final(self)@ == update_catalog_effect(old(self)@, catalog),
            final(self).wf(),
    {
        self.catalog = Some(catalog);
    }

    /// Takes the outcome of a catalog query: a parsed catalog replaces the
    /// cached one, a failure leaves it as it was.
    pub fn finish_catalog_query(&mut self, reply: CatalogReply<C>)
        requires
            old(self).wf(),
        ensures
            final(self)@.catalog == catalog_after(old(self)@.catalog, reply),
            final(self)@.table == old(self)@.table,
            final(self)@.connection == old(self)@.connection,
            final(self).wf(),
    {
        match reply {
            CatalogReply::Parsed(c) => self.update_catalog(c),
            CatalogReply::Malformed(_) => {},
            CatalogReply::Failed(_) => {},
        }
    }

    /// The cached catalog; none before the first successful query.
    pub fn catalog(&self) -> (r: &Option<C>)
        ensures
            *r == self@.catalog,
    {
        &self.catalog
    }

    /// The current connection; none while disconnected.
    pub fn connection(&self) -> (r: &Option<R>)
        ensures
            *r == self@.connection,
    {
        &self.connection
    }

    pub fn is_connected(&self) -> (r: bool)
        ensures
            r == self@.connection is Some,
    {
        self.connection.is_some()
    }

    /// The subscription table.
    pub fn table(&self) -> (r: &SubscriptionTable<S>)
        requires
            self.wf(),
        ensures
            r@ == self@.table,
            well_formed(r@),
    {
        &self.table
    }
}

} // verus!
