//! The broadcast dispatcher: who receives an inbound frame.
//!
//! A text payload goes to the connections on the sender's channel, with or
//! without the sender itself as the self-delivery policy says. The liveness
//! probe is the one exception: it goes back to its sender alone, whatever
//! the policy. Frames that are not text go to nobody.

use vstd::prelude::*;
use vstd::utf8::encode_utf8;
use crate::envelope::{
    is_ping, is_probe_text, law_plain_probe_is_recognised, plain_probe, Inbound,
};
use crate::key::{ConnectionKey, KeyModel};
use crate::queue::QueueHandle;
use crate::registry::{chosen, distinct_keys, has_key, Entry, Registry, Roster};

verus! {

/// Which keys a route addresses, relative to the sender as anchor.
#[derive(Clone, Copy, Debug, PartialEq, Eq, Structural)]
pub enum Scope {
    /// Every connection on the anchor's channel but the anchor itself.
    Peers,
    /// Every connection on the anchor's channel.
    Channel,
    /// The anchor alone.
    Only,
}

/// Whether `k` is selected by `scope` around `anchor`.
pub open spec fn in_scope(scope: Scope, anchor: KeyModel, k: KeyModel) -> bool {
    match scope {
        Scope::Peers => k.0 == anchor.0 && k != anchor,
        Scope::Channel => k.0 == anchor.0,
        Scope::Only => k == anchor,
    }
}

/// The entries of `r` that `scope` selects around `anchor`, in roster order.
pub open spec fn matching(r: Roster, scope: Scope, anchor: KeyModel) -> Roster {
    r.filter(|e: (KeyModel, QueueHandle)| in_scope(scope, anchor, e.0))
}

/// Whether a sender receives its own broadcasts.
#[derive(Clone, Copy, Debug, PartialEq, Eq, Structural)]
pub enum SelfDelivery {
    /// The sender is skipped.
    Exclude,
    /// The sender is served like every other member of its channel.
    Include,
}

/// What the dispatcher does with a frame.
#[derive(Clone, Copy, Debug, PartialEq, Eq, Structural)]
pub enum Route {
    /// The frame is dropped.
    Discard,
    /// The payload goes back to its sender alone.
    Echo,
    /// The payload goes to the sender's channel.
    FanOut,
}

/// The route of a frame: it depends on the frame alone.
pub open spec fn route_of(inbound: Inbound) -> Route {
    match inbound {
        Inbound::Other => Route::Discard,
        Inbound::Text(text) => if is_probe_text(text@) {
            Route::Echo
        } else {
            Route::FanOut
        },
    }
}

/// The scope that a route addresses under a policy.
pub open spec fn scope_of(route: Route, policy: SelfDelivery) -> Option<Scope> {
    match route {
        Route::Discard => None,
        Route::Echo => Some(Scope::Only),
        Route::FanOut => match policy {
            SelfDelivery::Exclude => Some(Scope::Peers),
            SelfDelivery::Include => Some(Scope::Channel),
        },
    }
}

/// The keys of a roster's entries, in order.
pub open spec fn keys_of(r: Roster) -> Seq<KeyModel> {
    r.map_values(|e: (KeyModel, QueueHandle)| e.0)
}

/// The keys on whose queues a frame from `sender` is put, in roster order.
pub open spec fn recipients(
    r: Roster,
    sender: KeyModel,
    inbound: Inbound,
    policy: SelfDelivery,
) -> Seq<KeyModel> {
    match scope_of(route_of(inbound), policy) {
        Some(scope) => keys_of(matching(r, scope, sender)),
        None => Seq::empty(),
    }
}

/// The payload that a frame carries to its recipients: the text as it was
/// received. A frame that is not text carries none.
pub open spec fn payload_of(inbound: Inbound) -> Seq<char> {
    match inbound {
        Inbound::Text(text) => text@,
        Inbound::Other => Seq::empty(),
    }
}

/// What became of one enqueue.
#[derive(Debug)]
pub struct Outcome<'a> {
    /// The connection whose queue was offered the payload.
    pub recipient: ConnectionKey,
    /// The payload that was offered.
    pub payload: &'a str,
    /// Whether the queue took it; `false` means that the queue's consumer
    /// was gone and the payload was dropped.
    pub accepted: bool,
}

/// The keys that a list of outcomes speaks of, in order.
pub open spec fn served(outcomes: Seq<Outcome>) -> Seq<KeyModel> {
    outcomes.map_values(|o: Outcome| o.recipient@)
}

/// Every outcome of the list speaks of the payload `text`.
pub open spec fn all_carry(outcomes: Seq<Outcome>, text: Seq<char>) -> bool {
    forall|i: int| 0 <= i < outcomes.len() ==> (#[trigger] outcomes[i]).payload@ == text
}

/// The payloads that a log of outcomes shows as taken by the queue of `k`,
/// in the order in which they were offered.
pub open spec fn taken_by(log: Seq<Outcome>, k: KeyModel) -> Seq<Seq<char>>
    decreases log.len(),
{
    if log.len() == 0 {
        Seq::empty()
    } else {
        let earlier = taken_by(log.drop_last(), k);
        if log.last().recipient@ == k && log.last().accepted {
            earlier.push(log.last().payload@)
        } else {
            earlier
        }
    }
}

/// Decides the route of a frame.
pub fn classify(inbound: &Inbound) -> (route: Route)
    ensures
        route == route_of(*inbound),
{
    match inbound {
        Inbound::Other => Route::Discard,
        Inbound::Text(text) => if is_ping(text.as_str()) {
            Route::Echo
        } else {
            Route::FanOut
        },
    }
}

/// The scope that `route` addresses under `policy`.
pub fn scope_for(route: Route, policy: SelfDelivery) -> (scope: Option<Scope>)
    ensures
        scope == scope_of(route, policy),
{
    match route {
        Route::Discard => None,
        Route::Echo => Some(Scope::Only),
        Route::FanOut => match policy {
            SelfDelivery::Exclude => Some(Scope::Peers),
            SelfDelivery::Include => Some(Scope::Channel),
        },
    }
}

/// Puts the payload of `inbound`, as it was received, on the queue of every
/// recipient, in registry order, and reports each enqueue. A queue that
/// refuses the payload is reported and otherwise ignored: the remaining
/// recipients are still served and the sender learns nothing of it.
pub fn dispatch<'a>(
    registry: &Registry,
    sender: &ConnectionKey,
    inbound: &'a Inbound,
    policy: SelfDelivery,
) -> (outcomes: Vec<Outcome<'a>>)
    ensures
        served(outcomes@) == recipients(registry@, sender@, *inbound, policy),
        served(outcomes@).no_duplicates(),
        all_carry(outcomes@, payload_of(*inbound)),
{
    let mut outcomes: Vec<Outcome> = Vec::new();
    let scope = match scope_for(classify(inbound), policy) {
        Some(scope) => scope,
        None => {
            assert(served(outcomes@) =~= Seq::<KeyModel>::empty());
            return outcomes;
        },
    };
    let text = match inbound {
        Inbound::Text(text) => text.as_str(),
        Inbound::Other => {
            return outcomes;
        },
    };
    let in_reach = |k: &ConnectionKey| -> (reached: bool)
        ensures
            reached == in_scope(scope, sender@, k@),
        {
            match scope {
                Scope::Peers => k.same_channel(sender) && !k.matches(sender),
                Scope::Channel => k.same_channel(sender),
                Scope::Only => k.matches(sender),
            }
        };
    let targets = registry.snapshot_matching(in_reach);
    let ghost wanted = keys_of(matching(registry@, scope, sender@));
    proof {
        let picks = choose|picks: Seq<bool>| #[trigger]
            registry.answers(in_reach, picks) && targets@.map_values(|e: &Entry| e@) == chosen(
                registry@,
                picks,
            );
        registry.lemma_keys();
        assert forall|i: int| 0 <= i < registry@.len() implies picks[i] == in_scope(
            scope,
            sender@,
            (#[trigger] registry@[i]).0,
        ) by {
            assert(in_reach.ensures((&registry.keys()[i],), picks[i]));
        }
        lemma_chosen_is_matching(registry@, picks, scope, sender@);
        assert(wanted =~= targets@.map_values(|e: &Entry| e@.0)) by {
            assert(targets@.map_values(|e: &Entry| e@) == matching(registry@, scope, sender@));
            assert forall|j: int| 0 <= j < targets@.len() implies wanted[j] == (#[trigger] targets@[j])@.0 by {
                assert(targets@.map_values(|e: &Entry| e@)[j] == targets@[j]@);
            }
        }
        assert(served(outcomes@) =~= wanted.take(0));
    }
    let mut i: usize = 0;
    while i < targets.len()
        invariant
            i <= targets@.len(),
            wanted.len() == targets@.len(),
            forall|j: int| 0 <= j < targets@.len() ==> wanted[j] == (#[trigger] targets@[j])@.0,
            served(outcomes@) == wanted.take(i as int),
            all_carry(outcomes@, text@),
        decreases targets@.len() - i,
    {
        let entry = targets[i];
        let ghost before = served(outcomes@);
        let accepted = entry.handle().enqueue(text);
        outcomes.push(Outcome { recipient: entry.key().clone(), payload: text, accepted });
        proof {
            assert(served(outcomes@) =~= before.push(wanted[i as int]));
            assert(wanted.take(i + 1) =~= wanted.take(i as int).push(wanted[i as int]));
        }
        i += 1;
    }
    proof {
        assert(wanted.take(i as int) =~= wanted);
        law_at_most_once(registry@, sender@, *inbound, policy);
    }
    outcomes
}

/// Choosing by the answers of a scope's predicate is filtering by the scope.
proof fn lemma_chosen_is_matching(r: Roster, picks: Seq<bool>, scope: Scope, anchor: KeyModel)
    requires
        picks.len() == r.len(),
        forall|i: int| 0 <= i < r.len() ==> picks[i] == in_scope(scope, anchor, (#[trigger] r[i]).0),
    ensures
        chosen(r, picks) == matching(r, scope, anchor),
    decreases r.len(),
{
    reveal(Seq::filter);
    if r.len() > 0 {
        let front = r.drop_last();
        assert forall|i: int| 0 <= i < front.len() implies picks.drop_last()[i] == in_scope(
            scope,
            anchor,
            (#[trigger] front[i]).0,
        ) by {
            assert(front[i] == r[i]);
        }
        lemma_chosen_is_matching(front, picks.drop_last(), scope, anchor);
        assert(picks.last() == in_scope(scope, anchor, r[r.len() - 1].0));
    }
}

/// What a scope selects from a roster: exactly the entries of the roster
/// that are in scope, each at most as often as the roster holds its key.
pub proof fn lemma_matching_selects(r: Roster, scope: Scope, anchor: KeyModel)
    ensures
        forall|e: (KeyModel, QueueHandle)| #[trigger]
            matching(r, scope, anchor).contains(e) <==> r.contains(e) && in_scope(
                scope,
                anchor,
                e.0,
            ),
        distinct_keys(r) ==> distinct_keys(matching(r, scope, anchor)),
    decreases r.len(),
{
    reveal(Seq::filter);
    let m = matching(r, scope, anchor);
    if r.len() == 0 {
        assert forall|e: (KeyModel, QueueHandle)| #[trigger] m.contains(e) <==> r.contains(e)
            && in_scope(scope, anchor, e.0) by {}
    } else {
        let front = r.drop_last();
        let last = r.last();
        let fm = matching(front, scope, anchor);
        lemma_matching_selects(front, scope, anchor);
        assert(m == if in_scope(scope, anchor, last.0) {
            fm.push(last)
        } else {
            fm
        });
        assert forall|e: (KeyModel, QueueHandle)| #[trigger] m.contains(e) <==> r.contains(e)
            && in_scope(scope, anchor, e.0) by {
            if m.contains(e) {
                let i = choose|i: int| 0 <= i < m.len() && m[i] == e;
                if i < fm.len() {
                    assert(fm[i] == e);
                    assert(fm.contains(e));
                    assert(front.contains(e));
                    let j = choose|j: int| 0 <= j < front.len() && front[j] == e;
                    assert(r[j] == e);
                } else {
                    assert(e == last);
                    assert(r[r.len() - 1] == e);
                }
            }
            if r.contains(e) && in_scope(scope, anchor, e.0) {
                let j = choose|j: int| 0 <= j < r.len() && r[j] == e;
                if j < front.len() {
                    assert(front[j] == e);
                    assert(front.contains(e));
                    assert(fm.contains(e));
                    let i = choose|i: int| 0 <= i < fm.len() && fm[i] == e;
                    assert(m[i] == e);
                } else {
                    assert(m[m.len() - 1] == e);
                }
            }
        }
        if distinct_keys(r) {
            assert(distinct_keys(front)) by {
                assert forall|i: int, j: int| 0 <= i < j < front.len() implies front[i].0
                    != front[j].0 by {
                    assert(front[i] == r[i] && front[j] == r[j]);
                }
            }
            assert forall|i: int, j: int| 0 <= i < j < m.len() implies m[i].0 != m[j].0 by {
                if j < fm.len() {
                    assert(m[i] == fm[i] && m[j] == fm[j]);
                } else {
                    assert(m[j] == last);
                    assert(m[i] == fm[i]);
                    assert(fm.contains(fm[i]));
                    assert(front.contains(fm[i]));
                    let p = choose|p: int| 0 <= p < front.len() && front[p] == fm[i];
                    assert(r[p] == fm[i]);
                    assert(r[r.len() - 1] == last);
                }
            }
        }
    }
}

/// Membership among the recipients, key by key: a key is served exactly if
/// the roster holds it and the route's scope selects it.
pub proof fn lemma_recipient_iff(
    r: Roster,
    sender: KeyModel,
    inbound: Inbound,
    policy: SelfDelivery,
    k: KeyModel,
)
    ensures
        recipients(r, sender, inbound, policy).contains(k) <==> match scope_of(
            route_of(inbound),
            policy,
        ) {
            Some(scope) => has_key(r, k) && in_scope(scope, sender, k),
            None => false,
        },
{
    let out = recipients(r, sender, inbound, policy);
    match scope_of(route_of(inbound), policy) {
        Some(scope) => {
            let m = matching(r, scope, sender);
            lemma_matching_selects(r, scope, sender);
            if out.contains(k) {
                let i = choose|i: int| 0 <= i < out.len() && out[i] == k;
                assert(m[i].0 == k);
                assert(m.contains(m[i]));
                assert(r.contains(m[i]));
                let j = choose|j: int| 0 <= j < r.len() && r[j] == m[i];
                assert(r[j].0 == k);
            }
            if has_key(r, k) && in_scope(scope, sender, k) {
                let j = choose|j: int| 0 <= j < r.len() && (#[trigger] r[j]).0 == k;
                assert(r.contains(r[j]));
                assert(m.contains(r[j]));
                let i = choose|i: int| 0 <= i < m.len() && m[i] == r[j];
                assert(out[i] == k);
            }
        },
        None => {},
    }
}

/// A broadcast reaches every other connection registered on the sender's
/// channel, and the sender itself exactly if the policy includes it.
pub proof fn law_same_channel_delivery(
    r: Roster,
    a: KeyModel,
    b: KeyModel,
    inbound: Inbound,
    policy: SelfDelivery,
)
    requires
        route_of(inbound) == Route::FanOut,
        has_key(r, a),
        has_key(r, b),
        b.0 == a.0,
        b != a,
    ensures
        recipients(r, a, inbound, policy).contains(b),
        recipients(r, a, inbound, policy).contains(a) <==> policy == SelfDelivery::Include,
{
    lemma_recipient_iff(r, a, inbound, policy, b);
    lemma_recipient_iff(r, a, inbound, policy, a);
}

/// Nothing a connection sends reaches a connection on another channel.
pub proof fn law_channel_isolation(
    r: Roster,
    a: KeyModel,
    c: KeyModel,
    inbound: Inbound,
    policy: SelfDelivery,
)
    requires
        c.0 != a.0,
    ensures
        !recipients(r, a, inbound, policy).contains(c),
{
    lemma_recipient_iff(r, a, inbound, policy, c);
}

/// No connection is served twice by one dispatch.
pub proof fn law_at_most_once(r: Roster, a: KeyModel, inbound: Inbound, policy: SelfDelivery)
    requires
        distinct_keys(r),
    ensures
        recipients(r, a, inbound, policy).no_duplicates(),
{
    let out = recipients(r, a, inbound, policy);
    match scope_of(route_of(inbound), policy) {
        Some(scope) => {
            let m = matching(r, scope, a);
            lemma_matching_selects(r, scope, a);
            assert forall|i: int, j: int| 0 <= i < out.len() && 0 <= j < out.len() && i
                != j implies out[i] != out[j] by {
                assert(out[i] == m[i].0 && out[j] == m[j].0);
                if i < j {
                    assert(m[i].0 != m[j].0);
                } else {
                    assert(m[j].0 != m[i].0);
                }
            }
        },
        None => {},
    }
}

/// A liveness probe is served to its sender alone: to nobody else, whatever
/// channel they are on and whatever the policy, and to the sender once if it
/// is registered.
pub proof fn law_probe_echo(r: Roster, a: KeyModel, inbound: Inbound, policy: SelfDelivery)
    requires
        distinct_keys(r),
        route_of(inbound) == Route::Echo,
    ensures
        recipients(r, a, inbound, policy) == if has_key(r, a) {
            seq![a]
        } else {
            Seq::<KeyModel>::empty()
        },
{
    let out = recipients(r, a, inbound, policy);
    law_at_most_once(r, a, inbound, policy);
    assert forall|i: int| 0 <= i < out.len() implies out[i] == a by {
        assert(out.contains(out[i]));
        lemma_recipient_iff(r, a, inbound, policy, out[i]);
    }
    lemma_recipient_iff(r, a, inbound, policy, a);
    if out.len() >= 2 {
        assert(out[0] != out[1]);
    }
    if has_key(r, a) {
        let i = choose|i: int| 0 <= i < out.len() && out[i] == a;
        assert(out =~= seq![a]);
    } else {
        if out.len() > 0 {
            assert(out.contains(out[0]));
        }
        assert(out =~= Seq::<KeyModel>::empty());
    }
}

/// The plain probe `{"command":"ping"}` from a registered sender is put on
/// the sender's own queue and on no other, under either policy.
pub proof fn law_plain_probe_returns_to_sender(
    r: Roster,
    a: KeyModel,
    text: String,
    policy: SelfDelivery,
)
    requires
        distinct_keys(r),
        has_key(r, a),
        encode_utf8(text@) == plain_probe(),
    ensures
        recipients(r, a, Inbound::Text(text), policy) == seq![a],
        payload_of(Inbound::Text(text)) == text@,
{
    law_plain_probe_is_recognised();
    law_probe_echo(r, a, Inbound::Text(text), policy);
}

/// A broadcast on a channel that has no other member is put on no queue but,
/// where the policy includes it, the sender's own.
pub proof fn law_lonely_channel(r: Roster, a: KeyModel, inbound: Inbound, policy: SelfDelivery)
    requires
        route_of(inbound) == Route::FanOut,
        forall|k: KeyModel| has_key(r, k) && k.0 == a.0 ==> k == a,
    ensures
        policy == SelfDelivery::Exclude ==> recipients(r, a, inbound, policy).len() == 0,
        forall|k: KeyModel| recipients(r, a, inbound, policy).contains(k) ==> k == a,
{
    let out = recipients(r, a, inbound, policy);
    assert forall|k: KeyModel| out.contains(k) implies k == a && policy
        == SelfDelivery::Include by {
        lemma_recipient_iff(r, a, inbound, policy, k);
    }
    if out.len() > 0 {
        assert(out.contains(out[0]));
    }
}

proof fn lemma_taken_none(log: Seq<Outcome>, k: KeyModel)
    requires
        forall|i: int| 0 <= i < log.len() ==> !((#[trigger] log[i]).recipient@ == k && log[i].accepted),
    ensures
        taken_by(log, k) == Seq::<Seq<char>>::empty(),
    decreases log.len(),
{
    if log.len() > 0 {
        let front = log.drop_last();
        assert forall|i: int| 0 <= i < front.len() implies !((#[trigger] front[i]).recipient@ == k
            && front[i].accepted) by {
            assert(front[i] == log[i]);
        }
        lemma_taken_none(front, k);
        assert(!(log[log.len() - 1].recipient@ == k && log[log.len() - 1].accepted));
    }
}

proof fn lemma_taken_once(log: Seq<Outcome>, k: KeyModel, at: int, text: Seq<char>)
    requires
        served(log).no_duplicates(),
        all_carry(log, text),
        0 <= at < log.len(),
        log[at].recipient@ == k,
        log[at].accepted,
    ensures
        taken_by(log, k) == seq![text],
    decreases log.len(),
{
    let front = log.drop_last();
    let last = log.len() - 1;
    assert(served(front) =~= served(log).drop_last());
    assert(served(log)[at] == k);
    if at == last {
        assert forall|i: int| 0 <= i < front.len() implies !((#[trigger] front[i]).recipient@ == k
            && front[i].accepted) by {
            assert(front[i] == log[i]);
            assert(served(log)[i] == log[i].recipient@);
        }
        lemma_taken_none(front, k);
        assert(log.last().payload@ == text);
        assert(taken_by(log, k) =~= seq![text]);
    } else {
        assert(served(log)[last] == log[last].recipient@);
        assert(log.last().recipient@ != k);
        assert(front[at] == log[at]);
        assert(all_carry(front, text)) by {
            assert forall|i: int| 0 <= i < front.len() implies (#[trigger] front[i]).payload@
                == text by {
                assert(front[i] == log[i]);
            }
        }
        lemma_taken_once(front, k, at, text);
    }
}

proof fn lemma_taken_concat(first: Seq<Outcome>, second: Seq<Outcome>, k: KeyModel)
    ensures
        taken_by(first + second, k) == taken_by(first, k) + taken_by(second, k),
    decreases second.len(),
{
    if second.len() == 0 {
        assert(first + second =~= first);
        assert(taken_by(first, k) + taken_by(second, k) =~= taken_by(first, k));
    } else {
        assert((first + second).drop_last() =~= first + second.drop_last());
        assert((first + second).last() == second.last());
        lemma_taken_concat(first, second.drop_last(), k);
        let earlier = taken_by(first, k) + taken_by(second.drop_last(), k);
        if second.last().recipient@ == k && second.last().accepted {
            assert(taken_by(first, k) + taken_by(second.drop_last(), k).push(
                second.last().payload@,
            ) =~= earlier.push(second.last().payload@));
        }
    }
}

/// Sending order is kept for each recipient: where the outcomes of one
/// dispatch are followed by those of a later one, and the queue of `k` took
/// the payload of both, it took the earlier payload first. The two logs are
/// what `dispatch` returns for the two frames.
pub proof fn law_sending_order_is_kept(
    first: Seq<Outcome>,
    second: Seq<Outcome>,
    k: KeyModel,
    m1: Seq<char>,
    m2: Seq<char>,
)
    requires
        served(first).no_duplicates(),
        served(second).no_duplicates(),
        all_carry(first, m1),
        all_carry(second, m2),
        exists|i: int| 0 <= i < first.len() && (#[trigger] first[i]).recipient@ == k && first[i].accepted,
        exists|j: int|
            0 <= j < second.len() && (#[trigger] second[j]).recipient@ == k && second[j].accepted,
    ensures
        taken_by(first, k) == seq![m1],
        taken_by(second, k) == seq![m2],
        taken_by(first + second, k) == seq![m1, m2],
{
    let i = choose|i: int| 0 <= i < first.len() && (#[trigger] first[i]).recipient@ == k && first[i].accepted;
    let j = choose|j: int|
        0 <= j < second.len() && (#[trigger] second[j]).recipient@ == k && second[j].accepted;
    lemma_taken_once(first, k, i, m1);
    lemma_taken_once(second, k, j, m2);
    lemma_taken_concat(first, second, k);
    assert(seq![m1] + seq![m2] =~= seq![m1, m2]);
}

} // verus!
