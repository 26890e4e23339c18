use vstd::prelude::*;

use crate::broker::{
    catalog_after, connect_effect, initial, last_leaves, starts, subscribe_effect,
    unsubscribe_effect, BrokerView, CatalogReply, RequestView,
};
use crate::table::{
    deliveries_for, has_output, holds_id, ids, lemma_added, lemma_position, lemma_removed,
    position, subscribers_of, targets, well_formed, without_subscriber, Delivery, KeyView,
    SubscriptionId,
};

verus! {

/// The broker after `subs` subscribe to output `k` one after another, with
/// every request that this asked for, in order.
pub open spec fn subscribe_all<S, R, C>(
    s: BrokerView<S, R, C>,
    k: KeyView,
    subs: Seq<(SubscriptionId, S)>,
) -> (BrokerView<S, R, C>, Seq<RequestView>)
    decreases subs.len(),
{
    if subs.len() == 0 {
        (s, Seq::empty())
    } else {
        let (s1, q1) = subscribe_all(s, k, subs.drop_last());
        let (s2, q2) = subscribe_effect(s1, k, subs.last().0, subs.last().1);
        (s2, q1 + q2)
    }
}

/// The cached catalog after queries that ended with `replies`, in order.
pub open spec fn catalog_after_all<C>(cached: Option<C>, replies: Seq<CatalogReply<C>>) -> Option<
    C,
>
    decreases replies.len(),
{
    if replies.len() == 0 {
        cached
    } else {
        catalog_after(catalog_after_all(cached, replies.drop_last()), replies.last())
    }
}

/// However many subscribers join output `k` one after another while
/// connected, upstream is asked to start `k` at most once: exactly once,
/// for the first of them, if `k` had no subscribers before, and never if it
/// had.
pub proof fn lemma_one_start_per_output<S, R, C>(
    s: BrokerView<S, R, C>,
    k: KeyView,
    subs: Seq<(SubscriptionId, S)>,
)
    requires
        well_formed(s.table),
        s.connection is Some,
    ensures
        well_formed(subscribe_all(s, k, subs).0.table),
        subscribe_all(s, k, subs).0.connection == s.connection,
        subscribe_all(s, k, subs).1 == (if subs.len() == 0 || has_output(s.table, k) {
            Seq::<RequestView>::empty()
        } else {
            seq![RequestView::Start(k, seq![subs[0].0])]
        }),
        subs.len() > 0 ==> has_output(subscribe_all(s, k, subs).0.table, k),
    decreases subs.len(),
{
    if subs.len() > 0 {
        let rest = subs.drop_last();
        lemma_one_start_per_output(s, k, rest);
        let s1 = subscribe_all(s, k, rest).0;
        lemma_added(s1.table, k, subs.last().0, subs.last().1);
        if rest.len() == 0 {
            assert(s1 == s);
            assert(subscribe_all(s, k, subs).1 =~= subscribe_effect(
                s,
                k,
                subs.last().0,
                subs.last().1,
            ).1);
        } else {
            assert(rest[0] == subs[0]);
            assert(subscribe_all(s, k, subs).1 =~= subscribe_all(s, k, rest).1);
        }
    }
}

/// A new connection asks to start each tracked output exactly once, with its
/// current subscribers, asks for nothing else but one catalog query, and asks
/// it last.
pub proof fn lemma_reconnect_replays_tracked<S, R, C>(s: BrokerView<S, R, C>, conn: R)
    requires
        well_formed(s.table),
    ensures
        ({
            let q = connect_effect(s, conn).1;
            &&& q.len() == s.table.len() + 1
            &&& q.last() == RequestView::Query
            &&& forall|i: int| 0 <= i < q.len() - 1 ==> #[trigger] q[i] is Start
            &&& forall|kv: KeyView|
                #![trigger has_output(s.table, kv)]
                has_output(s.table, kv) <==> exists|i: int|
                    0 <= i < q.len() && #[trigger] q[i] == RequestView::Start(
                        kv,
                        ids(subscribers_of(s.table, kv)),
                    )
            &&& forall|i: int, j: int|
                0 <= i < j < q.len() - 1 ==> #[trigger] q[i]->Start_0 != #[trigger] q[j]->Start_0
        }),
{
    let q = connect_effect(s, conn).1;
    let t = s.table;
    assert(q == starts(t).push(RequestView::Query));
    assert forall|i: int| 0 <= i < q.len() - 1 implies q[i] == RequestView::Start(
        t[i].0,
        ids(t[i].1),
    ) by {}
    assert forall|kv: KeyView| has_output(t, kv) implies exists|i: int|
        0 <= i < q.len() && #[trigger] q[i] == RequestView::Start(kv, ids(subscribers_of(t, kv))) by {
        let p = position(t, kv);
        lemma_position(t, kv, p);
        assert(q[p] == RequestView::Start(kv, ids(subscribers_of(t, kv))));
    }
    assert forall|kv: KeyView|
        (exists|i: int|
            0 <= i < q.len() && #[trigger] q[i] == RequestView::Start(
                kv,
                ids(subscribers_of(t, kv)),
            )) implies has_output(t, kv) by {
        let i = choose|i: int|
            0 <= i < q.len() && #[trigger] q[i] == RequestView::Start(
                kv,
                ids(subscribers_of(t, kv)),
            );
        assert(i < q.len() - 1);
        assert(t[i].0 == kv);
    }
}

/// While disconnected, neither joining nor leaving asks anything of
/// upstream, and an output first joined while disconnected is started on
/// the next connection, for a set of subscribers that holds the one that
/// joined.
pub proof fn lemma_offline_is_silent<S, R, C>(
    s: BrokerView<S, R, C>,
    k: KeyView,
    id: SubscriptionId,
    ch: S,
    conn: R,
)
    requires
        well_formed(s.table),
        s.connection is None,
    ensures
        subscribe_effect(s, k, id, ch).1 == Seq::<RequestView>::empty(),
        unsubscribe_effect(s, k, id).1 == Seq::<RequestView>::empty(),
        ({
            let s1 = subscribe_effect(s, k, id, ch).0;
            let q = connect_effect(s1, conn).1;
            let later = ids(subscribers_of(s1.table, k));
            &&& later.contains(id)
            &&& exists|i: int| 0 <= i < q.len() && q[i] == RequestView::Start(k, later)
        }),
{
    let s1 = subscribe_effect(s, k, id, ch).0;
    lemma_added(s.table, k, id, ch);
    lemma_reconnect_replays_tracked(s1, conn);
    let subs = subscribers_of(s1.table, k);
    assert(holds_id(subs, id));
    let j = choose|j: int| 0 <= j < subs.len() && subs[j].0 == id;
    assert(ids(subs)[j] == id);
}

/// When the last subscriber leaves an output, the output leaves the table;
/// when another leaves, the output stays with all its other subscribers.
/// Either way, every other output keeps its subscribers.
pub proof fn lemma_table_pruning<S, R, C>(s: BrokerView<S, R, C>, k: KeyView, id: SubscriptionId)
    requires
        well_formed(s.table),
    ensures
        ({
            let subs = subscribers_of(s.table, k);
            let after = unsubscribe_effect(s, k, id).0.table;
            &&& well_formed(after)
            &&& ids(subs) == seq![id] ==> !has_output(after, k) && last_leaves(s.table, k, id)
            &&& holds_id(subs, id) && subs.len() > 1 ==> {
                &&& has_output(after, k)
                &&& subscribers_of(after, k) == without_subscriber(subs, id)
                &&& forall|j: int|
                    0 <= j < subs.len() && subs[j].0 != id ==> subscribers_of(
                        after,
                        k,
                    ).contains(#[trigger] subs[j])
            }
            &&& forall|k2: KeyView|
                k2 != k ==> #[trigger] subscribers_of(after, k2) == subscribers_of(s.table, k2)
        }),
{
    let subs = subscribers_of(s.table, k);
    lemma_removed(s.table, k, id);
    if has_output(s.table, k) {
        let p = position(s.table, k);
        lemma_position(s.table, k, p);
        crate::table::lemma_without_subscriber(subs, id);
        if ids(subs) == seq![id] {
            assert(ids(subs).len() == subs.len());
            assert(subs.len() == 1);
            assert(subs[0].0 == ids(subs)[0]);
            assert(holds_id(subs, id));
        }
    } else {
        assert(subs.len() == 0);
        assert(ids(subs).len() == 0);
    }
}

/// An update hands entry `i` to subscriber `id` exactly when `id` is
/// subscribed to the output that entry `i` names; entries of outputs without
/// subscribers go nowhere.
pub proof fn lemma_fan_out<S>(t: Seq<(KeyView, Seq<(SubscriptionId, S)>)>, cycler: Seq<char>, names: Seq<Seq<char>>)
    requires
        well_formed(t),
        names.len() <= usize::MAX,
    ensures
        forall|d: Delivery| #[trigger]
            deliveries_for(t, cycler, names).contains(d) <==> {
                &&& d.index < names.len()
                &&& ids(subscribers_of(t, (cycler, names[d.index as int]))).contains(d.subscriber)
            },
    decreases names.len(),
{
    if names.len() > 0 {
        let n = names.len() - 1;
        let rest = names.drop_last();
        lemma_fan_out(t, cycler, rest);
        let before = deliveries_for(t, cycler, rest);
        let to = ids(subscribers_of(t, (cycler, names.last())));
        let tail = targets(n, to);
        let all = deliveries_for(t, cycler, names);
        assert(all == before + tail);
        assert forall|d: Delivery| #[trigger] all.contains(d) <==> {
            &&& d.index < names.len()
            &&& ids(subscribers_of(t, (cycler, names[d.index as int]))).contains(d.subscriber)
        } by {
            if all.contains(d) {
                let x = choose|x: int| 0 <= x < all.len() && all[x] == d;
                if x < before.len() {
                    assert(before[x] == d);
                    assert(before.contains(d));
                    assert(names[d.index as int] == rest[d.index as int]);
                } else {
                    assert(tail[x - before.len()] == d);
                    assert(to[x - before.len()] == d.subscriber);
                }
            }
            if d.index < names.len() && ids(subscribers_of(t, (cycler, names[d.index as int]))).contains(d.subscriber) {
                if d.index < n {
                    assert(names[d.index as int] == rest[d.index as int]);
                    assert(before.contains(d));
                    let x = choose|x: int| 0 <= x < before.len() && before[x] == d;
                    assert(all[x] == d);
                } else {
                    let y = choose|y: int| 0 <= y < to.len() && to[y] == d.subscriber;
                    assert(tail[y] == d);
                    assert(all[before.len() + y] == d);
                }
            }
        }
    }
}

/// A subscriber that joins an output that already has subscribers asks for
/// no start request, so it is told of no start outcome; it is tracked at
/// once and so receives the output's later values.
pub proof fn lemma_late_joiner<S, R, C>(
    s: BrokerView<S, R, C>,
    k: KeyView,
    first: SubscriptionId,
    first_ch: S,
    late: SubscriptionId,
    late_ch: S,
)
    requires
        well_formed(s.table),
        s.connection is Some,
        !has_output(s.table, k),
    ensures
        ({
            let (s1, q1) = subscribe_effect(s, k, first, first_ch);
            let (s2, q2) = subscribe_effect(s1, k, late, late_ch);
            &&& q1 == seq![RequestView::Start(k, seq![first])]
            &&& q2 == Seq::<RequestView>::empty()
            &&& ids(subscribers_of(s2.table, k)).contains(late)
        }),
{
    let s1 = subscribe_effect(s, k, first, first_ch).0;
    lemma_added(s.table, k, first, first_ch);
    lemma_added(s1.table, k, late, late_ch);
    let s2 = subscribe_effect(s1, k, late, late_ch).0;
    let subs = subscribers_of(s2.table, k);
    let j = choose|j: int| 0 <= j < subs.len() && subs[j].0 == late;
    assert(ids(subs)[j] == late);
}

/// Before any successful catalog query the catalog is absent; a successful
/// one caches its catalog, which failed queries after it leave in place.
pub proof fn lemma_catalog_staleness<S, R, C>(
    failed_before: Seq<CatalogReply<C>>,
    c: C,
    failed_after: Seq<CatalogReply<C>>,
)
    requires
        forall|i: int| 0 <= i < failed_before.len() ==> !(#[trigger] failed_before[i] is Parsed),
        forall|i: int| 0 <= i < failed_after.len() ==> !(#[trigger] failed_after[i] is Parsed),
    ensures
        initial::<S, R, C>().catalog == None::<C>,
        catalog_after_all(initial::<S, R, C>().catalog, failed_before) == None::<C>,
        catalog_after_all(
            catalog_after_all(
                initial::<S, R, C>().catalog,
                failed_before.push(CatalogReply::Parsed(c)),
            ),
            failed_after,
        ) == Some(c),
{
    lemma_failures_keep_catalog(None, failed_before);
    assert(failed_before.push(CatalogReply::Parsed(c)).drop_last() =~= failed_before);
    lemma_failures_keep_catalog(Some(c), failed_after);
}

proof fn lemma_failures_keep_catalog<C>(cached: Option<C>, failed: Seq<CatalogReply<C>>)
    requires
        forall|i: int| 0 <= i < failed.len() ==> !(#[trigger] failed[i] is Parsed),
    ensures
        catalog_after_all(cached, failed) == cached,
    decreases failed.len(),
{
    if failed.len() > 0 {
        let rest = failed.drop_last();
        assert forall|i: int| 0 <= i < rest.len() implies !(#[trigger] rest[i] is Parsed) by {
            assert(rest[i] == failed[i]);
        }
        lemma_failures_keep_catalog(cached, rest);
        assert(!(failed[failed.len() - 1] is Parsed));
    }
}

} // verus!
