//! Publish/subscribe: channel patterns, subscriptions and message
//! delivery, used among others for cache invalidation events.

use vstd::prelude::*;
use crate::error::KVResult;
use crate::pattern::{glob, glob_matches};
use crate::text::chars_of;
use crate::time::{Timestamp, MAX_TIMESTAMP, now_millis};
use crate::ttl::{duration_secs, duration_subsec_nanos, duration_as_secs, duration_nanos, duration_from_secs};
use crate::types::{Value, ValueView, PubSubMessage};

verus! {

/// The sending half of a tokio unbounded channel.
#[verifier::external_type_specification]
#[verifier::external_body]
#[verifier::reject_recursive_types(T)]
pub struct ExUnboundedSender<T>(tokio::sync::mpsc::UnboundedSender<T>);

/// The receiving half of a tokio unbounded channel.
#[verifier::external_type_specification]
#[verifier::external_body]
#[verifier::reject_recursive_types(T)]
pub struct ExUnboundedReceiver<T>(tokio::sync::mpsc::UnboundedReceiver<T>);

/// `tokio::sync::mpsc::unbounded_channel`: a new channel, as a connected
/// sender and receiver. Nothing is stated of the two halves.
#[verifier::external_body]
fn new_channel() -> (r: (tokio::sync::mpsc::UnboundedSender<PubSubMessage>, tokio::sync::mpsc::UnboundedReceiver<PubSubMessage>)) {
    tokio::sync::mpsc::unbounded_channel()
}

/// `UnboundedSender::send` on the sender of `sub`: hands `message` to the
/// channel; true when the channel took it, false when its receiving half
/// is gone. Which of the two happens depends on the receiver and is not
/// stated. The subscription's two logs record the call: `offered` (what
/// was handed to the channel) gains `message` whatever the outcome, and
/// `delivered` (what the channel took) gains it exactly when it was taken;
/// nothing else of the subscription changes (see `offered_to`).
#[verifier::external_body]
fn send_message(sub: &mut Subscription, message: PubSubMessage) -> (ok: bool)
    ensures
        *final(sub) == offered_to(*old(sub), message_view(message), ok),
{
    sub.sender.send(message).is_ok()
}

/// Pattern matching for channel subscriptions.
#[derive(Debug, PartialEq, Eq, Hash)]
pub enum ChannelPattern {
    /// Exact channel match.
    Exact(String),
    /// Wildcard pattern (e.g. "cache:*" matches "cache:invalidate:user123").
    Wildcard(String),
}

/// A channel pattern, as seen by specifications.
pub enum ChannelPatternView {
    Exact(Seq<char>),
    Wildcard(Seq<char>),
}

impl View for ChannelPattern {
    type V = ChannelPatternView;

    open spec fn view(&self) -> ChannelPatternView {
        match self {
            ChannelPattern::Exact(s) => ChannelPatternView::Exact(s@),
            ChannelPattern::Wildcard(s) => ChannelPatternView::Wildcard(s@),
        }
    }
}

impl Clone for ChannelPattern {
    fn clone(&self) -> (r: Self)
        ensures
            r@ == self@,
    {
        match self {
            ChannelPattern::Exact(s) => ChannelPattern::Exact(s.clone()),
            ChannelPattern::Wildcard(s) => ChannelPattern::Wildcard(s.clone()),
        }
    }
}

/// Whether `channel` matches `pattern`: an exact pattern matches itself
/// only; a wildcard pattern is a glob pattern, in which `*` matches any
/// run of characters (see `glob`).
pub open spec fn pattern_matches(pattern: ChannelPatternView, channel: Seq<char>) -> bool {
    match pattern {
        ChannelPatternView::Exact(e) => e == channel,
        ChannelPatternView::Wildcard(p) => glob(p, channel),
    }
}

impl ChannelPattern {
    /// A new exact channel pattern.
    pub fn exact(channel: String) -> (r: Self)
        ensures
            r == ChannelPattern::Exact(channel),
    {
        ChannelPattern::Exact(channel)
    }

    /// A new wildcard pattern.
    pub fn wildcard(pattern: String) -> (r: Self)
        ensures
            r == ChannelPattern::Wildcard(pattern),
    {
        ChannelPattern::Wildcard(pattern)
    }

    /// Whether `channel` matches this pattern.
    pub fn matches(&self, channel: &str) -> (r: bool)
        ensures
            r == pattern_matches(self@, channel@),
    {
        match self {
            ChannelPattern::Exact(exact) => {
                let c = channel.to_owned();
                *exact == c
            },
            ChannelPattern::Wildcard(pattern) => {
                let p = chars_of(pattern.as_str());
                let ch = chars_of(channel);
                glob_matches(&p, &ch)
            },
        }
    }
}


/// A published message, as seen by specifications: its channel, its value
/// and its timestamp.
pub type MessageView = (Seq<char>, ValueView, Timestamp);

/// The view of message `m`.
pub open spec fn message_view(m: PubSubMessage) -> MessageView {
    (m.channel@, m.message@, m.timestamp)
}

/// A subscription: the channel's sending half, when it was made and last
/// reached, the log of the messages handed to its channel and the log of
/// those its channel took.
pub struct Subscription {
    pub pattern: ChannelPattern,
    pub sender: tokio::sync::mpsc::UnboundedSender<PubSubMessage>,
    pub created_at: Timestamp,
    pub last_activity: Timestamp,
    pub offered: Ghost<Seq<MessageView>>,
    pub delivered: Ghost<Seq<MessageView>>,
}

/// `s` after `msg` was handed to its channel, `ok` telling whether the
/// channel took it: the message is last in its log of offered messages,
/// and, when taken, last in its log of taken ones.
pub open spec fn offered_to(s: Subscription, msg: MessageView, ok: bool) -> Subscription {
    Subscription {
        pattern: s.pattern,
        sender: s.sender,
        created_at: s.created_at,
        last_activity: s.last_activity,
        offered: Ghost(s.offered@.push(msg)),
        delivered: Ghost(if ok { s.delivered@.push(msg) } else { s.delivered@ }),
    }
}

/// The subscriptions of one pattern, as seen by specifications.
pub type PatternSubscriptions = (ChannelPatternView, Seq<Subscription>);

/// The subscriptions of each pattern.
pub open spec fn groups_view(g: Seq<(ChannelPattern, Vec<Subscription>)>) -> Seq<PatternSubscriptions> {
    g.map_values(|e: (ChannelPattern, Vec<Subscription>)| (e.0@, e.1@))
}

/// The number of subscriptions in all groups.
pub open spec fn total_subscriptions(v: Seq<PatternSubscriptions>) -> nat
    decreases v.len(),
{
    if v.len() == 0 {
        0
    } else {
        total_subscriptions(v.drop_last()) + v.last().1.len()
    }
}

/// The number of groups whose pattern is exact.
pub open spec fn exact_groups(v: Seq<PatternSubscriptions>) -> nat
    decreases v.len(),
{
    if v.len() == 0 {
        0
    } else {
        exact_groups(v.drop_last()) + if v.last().0 is Exact { 1nat } else { 0nat }
    }
}

/// The position of the group for `p`.
pub open spec fn group_position(v: Seq<PatternSubscriptions>, p: ChannelPatternView) -> int {
    choose|i: int| 0 <= i < v.len() && (#[trigger] v[i]).0 == p
}

/// Whether a group for `p` exists.
pub open spec fn has_group(v: Seq<PatternSubscriptions>, p: ChannelPatternView) -> bool {
    exists|i: int| 0 <= i < v.len() && (#[trigger] v[i]).0 == p
}

/// `s` after a message `msg` reached it at `now`: the message is last in
/// both its logs and its last activity is `now`.
pub open spec fn reached(s: Subscription, msg: MessageView, now: Timestamp) -> Subscription {
    Subscription {
        pattern: s.pattern,
        sender: s.sender,
        created_at: s.created_at,
        last_activity: now,
        offered: Ghost(s.offered@.push(msg)),
        delivered: Ghost(s.delivered@.push(msg)),
    }
}

/// What sending `msg` at `now` to each subscription of `subs` leaves,
/// `oks[i]` telling whether the channel of `subs[i]` took it: the
/// subscriptions reached, in their order; the others are dropped.
pub open spec fn deliver_group(subs: Seq<Subscription>, oks: Seq<bool>, msg: MessageView, now: Timestamp) -> Seq<Subscription>
    decreases subs.len(),
{
    if subs.len() == 0 || oks.len() == 0 {
        Seq::empty()
    } else {
        let rest = deliver_group(subs.drop_last(), oks.drop_last(), msg, now);
        if oks.last() {
            rest.push(reached(subs.last(), msg, now))
        } else {
            rest
        }
    }
}

/// The number of sends that succeeded.
pub open spec fn successes(oks: Seq<bool>) -> nat
    decreases oks.len(),
{
    if oks.len() == 0 {
        0
    } else {
        successes(oks.drop_last()) + if oks.last() { 1nat } else { 0nat }
    }
}

/// `oks` has one outcome for each subscription of each group of `v`.
pub open spec fn sends_fit(v: Seq<PatternSubscriptions>, oks: Seq<Seq<bool>>) -> bool {
    oks.len() == v.len() && forall|i: int| 0 <= i < v.len() ==> #[trigger] oks[i].len() == v[i].1.len()
}

/// What publishing `msg` on `channel` at `now` leaves of the groups `v`,
/// `oks[g][i]` telling whether the channel of subscription `i` of group
/// `g` took the message: each group whose pattern matches `channel` keeps
/// the subscriptions reached (see `deliver_group`) and is dropped when none
/// is left; the other groups stay as they were.
pub open spec fn deliver(v: Seq<PatternSubscriptions>, channel: Seq<char>, oks: Seq<Seq<bool>>, msg: MessageView, now: Timestamp) -> Seq<PatternSubscriptions>
    decreases v.len(),
{
    if v.len() == 0 || oks.len() == 0 {
        Seq::empty()
    } else {
        let rest = deliver(v.drop_last(), channel, oks.drop_last(), msg, now);
        let g = v.last();
        if pattern_matches(g.0, channel) {
            let kept = deliver_group(g.1, oks.last(), msg, now);
            if kept.len() > 0 {
                rest.push((g.0, kept))
            } else {
                rest
            }
        } else {
            rest.push(g)
        }
    }
}

/// The number of subscriptions of matching groups whose channel took the
/// message.
pub open spec fn delivered_count(v: Seq<PatternSubscriptions>, channel: Seq<char>, oks: Seq<Seq<bool>>) -> nat
    decreases v.len(),
{
    if v.len() == 0 || oks.len() == 0 {
        0
    } else {
        delivered_count(v.drop_last(), channel, oks.drop_last()) + if pattern_matches(v.last().0, channel) {
            successes(oks.last())
        } else {
            0nat
        }
    }
}

/// The offers made to the subscriptions `subs`, in order, `oks[i]`
/// telling whether the channel of `subs[i]` took `msg`: each subscription
/// as the send left it (see `offered_to`), with the outcome.
pub open spec fn group_offers(subs: Seq<Subscription>, oks: Seq<bool>, msg: MessageView) -> Seq<(Subscription, bool)>
    decreases subs.len(),
{
    if subs.len() == 0 || oks.len() == 0 {
        Seq::empty()
    } else {
        group_offers(subs.drop_last(), oks.drop_last(), msg).push((offered_to(subs.last(), msg, oks.last()), oks.last()))
    }
}

/// The offers that publishing `msg` on `channel` makes to the groups `v`:
/// those of each group whose pattern matches `channel`, in group order.
pub open spec fn offers(v: Seq<PatternSubscriptions>, channel: Seq<char>, oks: Seq<Seq<bool>>, msg: MessageView) -> Seq<(Subscription, bool)>
    decreases v.len(),
{
    if v.len() == 0 || oks.len() == 0 {
        Seq::empty()
    } else {
        offers(v.drop_last(), channel, oks.drop_last(), msg) + if pattern_matches(v.last().0, channel) {
            group_offers(v.last().1, oks.last(), msg)
        } else {
            Seq::empty()
        }
    }
}

/// What publishing `message` on `channel` at `now` does: the message
/// `(channel, message, now)` is handed to the channel of every
/// subscription whose pattern matches `channel`, and `made` records those
/// offers (see `offers`); for the outcome of those sends (`oks`), the
/// groups become `deliver(before, ..)` (a subscription is dropped exactly
/// when its channel refused the message) and the result counts the sends
/// that succeeded.
pub open spec fn publish_effect(
    before: Seq<PatternSubscriptions>,
    after: Seq<PatternSubscriptions>,
    made: Seq<(Subscription, bool)>,
    channel: Seq<char>,
    message: ValueView,
    now: Timestamp,
    r: KVResult<usize>,
) -> bool {
    exists|oks: Seq<Seq<bool>>| #![trigger deliver(before, channel, oks, (channel, message, now), now)]
        sends_fit(before, oks) && after == deliver(before, channel, oks, (channel, message, now), now)
        && made == offers(before, channel, oks, (channel, message, now))
        && (r matches Ok(n) && n == delivered_count(before, channel, oks))
}

/// The number of subscriptions whose pattern matches `channel`.
pub open spec fn matching_subscriptions(v: Seq<PatternSubscriptions>, channel: Seq<char>) -> nat
    decreases v.len(),
{
    if v.len() == 0 {
        0
    } else {
        matching_subscriptions(v.drop_last(), channel) + if pattern_matches(v.last().0, channel) {
            v.last().1.len()
        } else {
            0
        }
    }
}

/// Every subscription that a delivery keeps was reached: the message is
/// last in its log and its last activity is `now`; as many are kept as
/// sends succeeded.
pub proof fn lemma_deliver_group(subs: Seq<Subscription>, oks: Seq<bool>, msg: MessageView, now: Timestamp)
    requires
        oks.len() == subs.len(),
    ensures
        deliver_group(subs, oks, msg, now).len() == successes(oks),
        forall|i: int| 0 <= i < deliver_group(subs, oks, msg, now).len() ==> {
            let s = #[trigger] deliver_group(subs, oks, msg, now)[i];
            &&& s.delivered@.len() > 0
            &&& s.delivered@.last() == msg
            &&& s.last_activity == now
        },
    decreases subs.len(),
{
    if subs.len() > 0 {
        lemma_deliver_group(subs.drop_last(), oks.drop_last(), msg, now);
    }
}

/// What a delivery leaves in the groups whose pattern matches: only
/// subscriptions that were reached, as many as the sends that succeeded.
pub proof fn lemma_deliver_reached(v: Seq<PatternSubscriptions>, channel: Seq<char>, oks: Seq<Seq<bool>>, msg: MessageView, now: Timestamp)
    requires
        sends_fit(v, oks),
    ensures
        matching_subscriptions(deliver(v, channel, oks, msg, now), channel) == delivered_count(v, channel, oks),
        forall|g: int, i: int| 0 <= g < deliver(v, channel, oks, msg, now).len()
            && pattern_matches(deliver(v, channel, oks, msg, now)[g].0, channel)
            && 0 <= i < deliver(v, channel, oks, msg, now)[g].1.len() ==> {
            let s = #[trigger] deliver(v, channel, oks, msg, now)[g].1[i];
            &&& s.delivered@.len() > 0
            &&& s.delivered@.last() == msg
            &&& s.last_activity == now
        },
    decreases v.len(),
{
    if v.len() > 0 {
        let w = v.drop_last();
        let o = oks.drop_last();
        assert(sends_fit(w, o)) by {
            assert forall|i: int| 0 <= i < w.len() implies #[trigger] o[i].len() == w[i].1.len() by {
                assert(o[i] == oks[i]);
                assert(w[i] == v[i]);
            }
        }
        lemma_deliver_reached(w, channel, o, msg, now);
        let rest = deliver(w, channel, o, msg, now);
        let d = deliver(v, channel, oks, msg, now);
        let last = v.last();
        assert(oks.last().len() == last.1.len()) by {
            assert(oks[v.len() - 1].len() == v[v.len() - 1].1.len());
        }
        lemma_deliver_group(last.1, oks.last(), msg, now);
        if pattern_matches(last.0, channel) {
            let kept = deliver_group(last.1, oks.last(), msg, now);
            if kept.len() > 0 {
                assert(d == rest.push((last.0, kept)));
                assert(d.drop_last() =~= rest);
            } else {
                assert(d == rest);
            }
        } else {
            assert(d == rest.push(last));
            assert(d.drop_last() =~= rest);
        }
        assert forall|g: int, i: int| 0 <= g < d.len() && pattern_matches(d[g].0, channel) && 0 <= i < d[g].1.len() implies {
            let s = #[trigger] d[g].1[i];
            &&& s.delivered@.len() > 0
            &&& s.delivered@.last() == msg
            &&& s.last_activity == now
        } by {
            if g < rest.len() {
                assert(d[g] == rest[g]);
            }
        }
    }
}

/// The subscriptions of the groups of `v` whose pattern matches
/// `channel`, group by group, each group in its order.
pub open spec fn matching_list(v: Seq<PatternSubscriptions>, channel: Seq<char>) -> Seq<Subscription>
    decreases v.len(),
{
    if v.len() == 0 {
        Seq::empty()
    } else {
        matching_list(v.drop_last(), channel) + if pattern_matches(v.last().0, channel) {
            v.last().1
        } else {
            Seq::empty()
        }
    }
}

/// The number of offers whose channel took the message.
pub open spec fn accepted(made: Seq<(Subscription, bool)>) -> nat
    decreases made.len(),
{
    if made.len() == 0 {
        0
    } else {
        accepted(made.drop_last()) + if made.last().1 { 1nat } else { 0nat }
    }
}

/// `made` offers `msg` once to each subscription of `before` whose pattern
/// matches `channel`, in order: the `k`-th offer is the `k`-th such
/// subscription as its send left it.
pub open spec fn offered_each(before: Seq<PatternSubscriptions>, made: Seq<(Subscription, bool)>, channel: Seq<char>, msg: MessageView) -> bool {
    &&& made.len() == matching_list(before, channel).len()
    &&& forall|k: int| 0 <= k < made.len() ==> #[trigger] made[k].0 == offered_to(matching_list(before, channel)[k], msg, made[k].1)
}

/// What a publish of `msg` on `channel` announces: `msg` was offered once
/// to each matching subscription of `before` (see `offered_each`); the
/// subscriptions left in matching groups of `after` are as many as the
/// offers taken, and each was reached by `msg` at its time.
pub open spec fn announced(
    before: Seq<PatternSubscriptions>,
    after: Seq<PatternSubscriptions>,
    made: Seq<(Subscription, bool)>,
    channel: Seq<char>,
    msg: MessageView,
) -> bool {
    &&& offered_each(before, made, channel, msg)
    &&& matching_subscriptions(after, channel) == accepted(made)
    &&& forall|g: int, i: int| 0 <= g < after.len() && pattern_matches(after[g].0, channel) && 0 <= i < after[g].1.len() ==> {
        let s = #[trigger] after[g].1[i];
        &&& s.delivered@.len() > 0
        &&& s.delivered@.last() == msg
        &&& s.last_activity == msg.2
    }
}

/// The offers to one group: one per subscription, in order, and as many
/// taken as the sends that succeeded.
pub proof fn lemma_group_offers(subs: Seq<Subscription>, oks: Seq<bool>, msg: MessageView)
    requires
        oks.len() == subs.len(),
    ensures
        group_offers(subs, oks, msg).len() == subs.len(),
        forall|i: int| 0 <= i < subs.len() ==> #[trigger] group_offers(subs, oks, msg)[i] == (offered_to(subs[i], msg, oks[i]), oks[i]),
        accepted(group_offers(subs, oks, msg)) == successes(oks),
    decreases subs.len(),
{
    if subs.len() > 0 {
        lemma_group_offers(subs.drop_last(), oks.drop_last(), msg);
        let r = group_offers(subs, oks, msg);
        assert(r.drop_last() =~= group_offers(subs.drop_last(), oks.drop_last(), msg));
        assert forall|i: int| 0 <= i < subs.len() implies #[trigger] r[i] == (offered_to(subs[i], msg, oks[i]), oks[i]) by {
            if i < subs.len() - 1 {
                assert(r[i] == r.drop_last()[i]);
                assert(subs.drop_last()[i] == subs[i]);
                assert(oks.drop_last()[i] == oks[i]);
            }
        }
    }
}

/// Offers taken add up over a concatenation.
pub proof fn lemma_accepted_concat(a: Seq<(Subscription, bool)>, b: Seq<(Subscription, bool)>)
    ensures
        accepted(a + b) == accepted(a) + accepted(b),
    decreases b.len(),
{
    if b.len() > 0 {
        lemma_accepted_concat(a, b.drop_last());
        assert((a + b).drop_last() =~= a + b.drop_last());
        assert((a + b).last() == b.last());
    } else {
        assert(a + b =~= a);
    }
}

/// The offers of a publish: one per matching subscription, in order, as
/// many taken as the sends that succeeded.
pub proof fn lemma_offers(v: Seq<PatternSubscriptions>, channel: Seq<char>, oks: Seq<Seq<bool>>, msg: MessageView)
    requires
        sends_fit(v, oks),
    ensures
        offered_each(v, offers(v, channel, oks, msg), channel, msg),
        accepted(offers(v, channel, oks, msg)) == delivered_count(v, channel, oks),
    decreases v.len(),
{
    if v.len() > 0 {
        let w = v.drop_last();
        let o = oks.drop_last();
        assert(sends_fit(w, o)) by {
            assert forall|i: int| 0 <= i < w.len() implies #[trigger] o[i].len() == w[i].1.len() by {
                assert(o[i] == oks[i]);
                assert(w[i] == v[i]);
            }
        }
        lemma_offers(w, channel, o, msg);
        let last = v.last();
        assert(oks.last().len() == last.1.len()) by {
            assert(oks[v.len() - 1].len() == v[v.len() - 1].1.len());
        }
        lemma_group_offers(last.1, oks.last(), msg);
        let a = offers(w, channel, o, msg);
        let ml = matching_list(w, channel);
        let (b, mb) = if pattern_matches(last.0, channel) {
            (group_offers(last.1, oks.last(), msg), last.1)
        } else {
            (Seq::<(Subscription, bool)>::empty(), Seq::<Subscription>::empty())
        };
        assert(offers(v, channel, oks, msg) == a + b);
        assert(matching_list(v, channel) == ml + mb);
        lemma_accepted_concat(a, b);
        assert forall|k: int| 0 <= k < (a + b).len() implies #[trigger] (a + b)[k].0 == offered_to((ml + mb)[k], msg, (a + b)[k].1) by {
            if k < a.len() {
                assert((a + b)[k] == a[k]);
                assert((ml + mb)[k] == ml[k]);
            } else {
                assert((a + b)[k] == b[k - a.len()]);
                assert((ml + mb)[k] == mb[k - ml.len()]);
            }
        }
    }
}

/// Publishing where no pattern matches leaves every group and reaches
/// nobody.
pub proof fn lemma_deliver_unmatched(v: Seq<PatternSubscriptions>, channel: Seq<char>, oks: Seq<Seq<bool>>, msg: MessageView, now: Timestamp)
    requires
        sends_fit(v, oks),
        forall|i: int| 0 <= i < v.len() ==> !pattern_matches(#[trigger] v[i].0, channel),
    ensures
        deliver(v, channel, oks, msg, now) == v,
        delivered_count(v, channel, oks) == 0,
        offers(v, channel, oks, msg) == Seq::<(Subscription, bool)>::empty(),
    decreases v.len(),
{
    if v.len() > 0 {
        assert(!pattern_matches(v[v.len() - 1].0, channel));
        lemma_deliver_unmatched(v.drop_last(), channel, oks.drop_last(), msg, now);
        assert(v.drop_last().push(v.last()) =~= v);
        assert(offers(v, channel, oks, msg) =~= Seq::<(Subscription, bool)>::empty());
    }
}

/// Each pattern has one group, no group is empty, and the number of
/// subscriptions fits in a `usize`.
pub open spec fn groups_wf(v: Seq<PatternSubscriptions>) -> bool {
    &&& forall|a: int, b: int| 0 <= a < b < v.len() ==> (#[trigger] v[a]).0 != (#[trigger] v[b]).0
    &&& forall|a: int| 0 <= a < v.len() ==> (#[trigger] v[a]).1.len() > 0
    &&& total_subscriptions(v) <= usize::MAX
}

/// `v` with `sub` added to the group for `p`, or in a new last group.
pub open spec fn add_subscription(v: Seq<PatternSubscriptions>, p: ChannelPatternView, sub: Subscription) -> Seq<PatternSubscriptions> {
    if has_group(v, p) {
        let g = group_position(v, p);
        v.update(g, (p, v[g].1.push(sub)))
    } else {
        v.push((p, seq![sub]))
    }
}

proof fn lemma_total_update(v: Seq<PatternSubscriptions>, g: int, x: PatternSubscriptions)
    requires
        0 <= g < v.len(),
    ensures
        total_subscriptions(v.update(g, x)) == total_subscriptions(v) - v[g].1.len() + x.1.len(),
    decreases v.len(),
{
    if g < v.len() - 1 {
        lemma_total_update(v.drop_last(), g, x);
        assert(v.update(g, x).drop_last() =~= v.drop_last().update(g, x));
    } else {
        assert(v.update(g, x).drop_last() =~= v.drop_last());
    }
}

proof fn lemma_total_remove(v: Seq<PatternSubscriptions>, g: int)
    requires
        0 <= g < v.len(),
    ensures
        total_subscriptions(v.remove(g)) == total_subscriptions(v) - v[g].1.len(),
    decreases v.len(),
{
    if g < v.len() - 1 {
        lemma_total_remove(v.drop_last(), g);
        assert(v.remove(g).drop_last() =~= v.drop_last().remove(g));
        assert(v.remove(g).last() == v.last());
    } else {
        assert(v.remove(g) =~= v.drop_last());
    }
}

proof fn lemma_total_push(v: Seq<PatternSubscriptions>, x: PatternSubscriptions)
    ensures
        total_subscriptions(v.push(x)) == total_subscriptions(v) + x.1.len(),
{
    assert(v.push(x).drop_last() =~= v);
}

/// Whether a subscription whose last activity was at `last` is still
/// active at `now`: no time before it, and less than the timeout
/// (`secs` seconds and `nanos` nanoseconds) since.
pub open spec fn still_active(last: Timestamp, now: Timestamp, secs: u64, nanos: u32) -> bool {
    now >= last && (now - last) * 1_000_000 < secs * 1_000_000_000 + nanos
}

/// The subscriptions of `subs` still active at `now`.
pub open spec fn active_subscriptions(subs: Seq<Subscription>, now: Timestamp, secs: u64, nanos: u32) -> Seq<Subscription> {
    subs.filter(|s: Subscription| still_active(s.last_activity, now, secs, nanos))
}

/// The groups of `v` with their inactive subscriptions dropped, and the
/// groups left empty dropped.
pub open spec fn prune_inactive(v: Seq<PatternSubscriptions>, now: Timestamp, secs: u64, nanos: u32) -> Seq<PatternSubscriptions>
    decreases v.len(),
{
    if v.len() == 0 {
        Seq::empty()
    } else {
        let kept = active_subscriptions(v.last().1, now, secs, nanos);
        prune_inactive(v.drop_last(), now, secs, nanos) + if kept.len() > 0 {
            seq![(v.last().0, kept)]
        } else {
            Seq::empty()
        }
    }
}

/// Statistics for the pub/sub system.
#[derive(Debug, Clone, Copy)]
pub struct PubSubStats {
    pub total_subscriptions: usize,
    pub pattern_count: usize,
    pub exact_patterns: usize,
    pub wildcard_patterns: usize,
}

/// Pub/sub manager: channel patterns with their subscribers.
pub struct PubSubManager {
    /// Each pattern with its subscriptions, in the order the patterns were
    /// first subscribed to.
    subscriptions: Vec<(ChannelPattern, Vec<Subscription>)>,
    /// Cleanup interval for inactive subscriptions.
    cleanup_interval: std::time::Duration,
    /// Subscription timeout.
    subscription_timeout: std::time::Duration,
    /// The offers made by the last publish, in order.
    last_round: Ghost<Seq<(Subscription, bool)>>,
}

impl View for PubSubManager {
    type V = Seq<PatternSubscriptions>;

    closed spec fn view(&self) -> Seq<PatternSubscriptions> {
        groups_view(self.subscriptions@)
    }
}

impl PubSubManager {
    /// Each pattern has one group, no group is empty, and the number of
    /// subscriptions fits in a `usize`.
    pub open spec fn wf(&self) -> bool {
        groups_wf(self@)
    }

    /// The offers that the last publish made, in order: each subscription
    /// as its send left it, with whether its channel took the message.
    pub closed spec fn last_offers(&self) -> Seq<(Subscription, bool)> {
        self.last_round@
    }

    /// The interval between cleanups.
    pub closed spec fn spec_cleanup_interval(&self) -> std::time::Duration {
        self.cleanup_interval
    }

    /// How long a subscription stays active.
    pub closed spec fn spec_subscription_timeout(&self) -> std::time::Duration {
        self.subscription_timeout
    }

    /// A new pub/sub manager without subscriptions.
    pub fn new(cleanup_interval: std::time::Duration, subscription_timeout: std::time::Duration) -> (m: Self)
        ensures
            m.wf(),
            m@ == Seq::<PatternSubscriptions>::empty(),
            m.spec_cleanup_interval() == cleanup_interval,
            m.spec_subscription_timeout() == subscription_timeout,
    {
        let m = PubSubManager { subscriptions: Vec::new(), cleanup_interval, subscription_timeout, last_round: Ghost(Seq::empty()) };
        assert(m@ =~= Seq::<PatternSubscriptions>::empty());
        m
    }

    /// The interval between cleanups.
    pub fn cleanup_interval(&self) -> (d: std::time::Duration)
        ensures
            d == self.spec_cleanup_interval(),
    {
        self.cleanup_interval
    }

    /// Subscribes to `pattern`; the new subscription goes last in the
    /// pattern's group. Gives back the receiving half of its channel.
    pub fn subscribe(&mut self, pattern: ChannelPattern) -> (r: KVResult<tokio::sync::mpsc::UnboundedReceiver<PubSubMessage>>)
        requires
            old(self).wf(),
            total_subscriptions(old(self)@) < usize::MAX,
        ensures
            final(self).wf(),
            r is Ok,
            exists|sub: Subscription| sub.pattern@ == pattern@ && 0 <= sub.created_at <= MAX_TIMESTAMP
                && sub.last_activity == sub.created_at && sub.offered@ == Seq::<MessageView>::empty()
                && sub.delivered@ == Seq::<MessageView>::empty()
                && final(self)@ == #[trigger] add_subscription(old(self)@, pattern@, sub),
            final(self).spec_cleanup_interval() == old(self).spec_cleanup_interval(),
            final(self).spec_subscription_timeout() == old(self).spec_subscription_timeout(),
    {
        let (sender, receiver) = new_channel();
        let now = now_millis();
        let key = pattern.clone();
        let subscription = Subscription {
            pattern,
            sender,
            created_at: now,
            last_activity: now,
            offered: Ghost(Seq::empty()),
            delivered: Ghost(Seq::empty()),
        };
        let ghost sub = subscription;
        let ghost v0 = self@;
        match self.find_group(&key) {
            Some(g) => {
                let (p, mut subs) = self.subscriptions.remove(g);
                subs.push(subscription);
                self.subscriptions.insert(g, (p, subs));
                proof {
                    assert(self@ =~= v0.update(g as int, (key@, v0[g as int].1.push(sub))));
                    lemma_total_update(v0, g as int, (key@, v0[g as int].1.push(sub)));
                    let v = self@;
                    assert forall|a: int, b: int| 0 <= a < b < v.len() implies (#[trigger] v[a]).0 != (#[trigger] v[b]).0 by {
                        assert(v[a].0 == v0[a].0);
                        assert(v[b].0 == v0[b].0);
                    }
                }
            },
            None => {
                let mut subs: Vec<Subscription> = Vec::new();
                subs.push(subscription);
                self.subscriptions.push((key, subs));
                proof {
                    assert(self@ =~= v0.push((key@, seq![sub])));
                    lemma_total_push(v0, (key@, seq![sub]));
                    let v = self@;
                    assert forall|a: int, b: int| 0 <= a < b < v.len() implies (#[trigger] v[a]).0 != (#[trigger] v[b]).0 by {
                        if b == v.len() - 1 {
                            assert(v[a] == v0[a]);
                        }
                    }
                }
            },
        }
        assert(self@ == add_subscription(v0, key@, sub));
        Ok(receiver)
    }

    /// Unsubscribes every subscriber of `pattern`; gives back how many
    /// there were.
    pub fn unsubscribe(&mut self, pattern: &ChannelPattern) -> (r: KVResult<usize>)
        requires
            old(self).wf(),
        ensures
            final(self).wf(),
            has_group(old(self)@, pattern@) ==> final(self)@ == old(self)@.remove(group_position(old(self)@, pattern@))
                && r == Ok::<usize, crate::error::KVError>(old(self)@[group_position(old(self)@, pattern@)].1.len() as usize),
            !has_group(old(self)@, pattern@) ==> final(self)@ == old(self)@ && r == Ok::<usize, crate::error::KVError>(0),
            final(self).spec_cleanup_interval() == old(self).spec_cleanup_interval(),
            final(self).spec_subscription_timeout() == old(self).spec_subscription_timeout(),
    {
        let ghost v0 = self@;
        match self.find_group(pattern) {
            Some(g) => {
                let (_, subs) = self.subscriptions.remove(g);
                let count = subs.len();
                proof {
                    assert(self@ =~= v0.remove(g as int));
                    lemma_total_remove(v0, g as int);
                    let v = self@;
                    assert forall|a: int, b: int| 0 <= a < b < v.len() implies (#[trigger] v[a]).0 != (#[trigger] v[b]).0 by {
                        let a2 = if a < g { a } else { a + 1 };
                        let b2 = if b < g { b } else { b + 1 };
                        assert(v[a] == v0[a2]);
                        assert(v[b] == v0[b2]);
                    }
                    assert forall|a: int| 0 <= a < v.len() implies (#[trigger] v[a]).1.len() > 0 by {
                        let a2 = if a < g { a } else { a + 1 };
                        assert(v[a] == v0[a2]);
                    }
                }
                Ok(count)
            },
            None => Ok(0),
        }
    }

    /// Publishes `message` on `channel` now (see `publish_at`).
    pub fn publish(&mut self, channel: &str, message: Value) -> (r: KVResult<usize>)
        requires
            old(self).wf(),
        ensures
            final(self).wf(),
            exists|now: Timestamp| 0 <= now <= MAX_TIMESTAMP
                && #[trigger] publish_effect(old(self)@, final(self)@, final(self).last_offers(), channel@, message@, now, r),
            final(self).spec_cleanup_interval() == old(self).spec_cleanup_interval(),
            final(self).spec_subscription_timeout() == old(self).spec_subscription_timeout(),
    {
        let now = now_millis();
        self.publish_at(channel, message, now)
    }

    /// Publishes `message` on `channel` at `now` to every subscription whose
    /// pattern matches it: each is sent the message `(channel, message,
    /// now)`; one whose channel takes it counts as reached and its last
    /// activity becomes `now`; one whose receiving half is gone is dropped,
    /// and so is a pattern left without subscriptions. Gives back how many
    /// were reached; the offers made are recorded (`last_offers`).
    pub fn publish_at(&mut self, channel: &str, message: Value, now: Timestamp) -> (r: KVResult<usize>)
        requires
            old(self).wf(),
        ensures
            final(self).wf(),
            publish_effect(old(self)@, final(self)@, final(self).last_offers(), channel@, message@, now, r),
            final(self).spec_cleanup_interval() == old(self).spec_cleanup_interval(),
            final(self).spec_subscription_timeout() == old(self).spec_subscription_timeout(),
    {
        let pubsub_message = PubSubMessage { channel: channel.to_owned(), message, timestamp: now };
        let ghost msg = message_view(pubsub_message);
        assert(msg == (channel@, message@, now));
        let ghost v0 = self@;
        let mut old_groups: Vec<(ChannelPattern, Vec<Subscription>)> = Vec::new();
        std::mem::swap(&mut old_groups, &mut self.subscriptions);
        assert(groups_view(old_groups@) == v0);
        let mut taken: usize = 0;
        let total_groups = old_groups.len();
        let mut groups: Vec<(ChannelPattern, Vec<Subscription>)> = Vec::new();
        let mut delivered: usize = 0;
        let ghost mut oks: Seq<Seq<bool>> = Seq::empty();
        let ghost mut round: Seq<(Subscription, bool)> = Seq::empty();
        proof {
            assert(v0.take(0) =~= Seq::<PatternSubscriptions>::empty());
            assert(groups_view(groups@) =~= Seq::<PatternSubscriptions>::empty());
        }
        while old_groups.len() > 0
            invariant
                groups_wf(v0),
                taken + old_groups@.len() == total_groups,
                total_groups == v0.len(),
                groups_view(old_groups@) == v0.skip(taken as int),
                message_view(pubsub_message) == msg,
                oks.len() == taken,
                sends_fit(v0.take(taken as int), oks),
                groups_view(groups@) == deliver(v0.take(taken as int), channel@, oks, msg, now),
                round == offers(v0.take(taken as int), channel@, oks, msg),
                delivered == delivered_count(v0.take(taken as int), channel@, oks),
                delivered <= total_subscriptions(v0.take(taken as int)),
                total_subscriptions(groups_view(groups@)) <= total_subscriptions(v0.take(taken as int)),
                groups_wf(groups_view(groups@)),
                forall|a: int| 0 <= a < groups@.len() ==> exists|b: int| 0 <= b < taken && #[trigger] groups_view(groups@)[a].0 == v0[b].0,
            decreases old_groups@.len(),
        {
            let (pattern, mut subs) = old_groups.remove(0);
            let ghost g = v0[taken as int];
            assert(v0.skip(taken as int)[0] == g);
            assert(pattern@ == g.0 && subs@ == g.1);
            let ghost before = groups_view(groups@);
            let ghost gok: Seq<bool>;
            let ghost gro: Seq<(Subscription, bool)>;
            proof {
                assert(v0.take(taken + 1).drop_last() =~= v0.take(taken as int));
                assert(v0.take(taken + 1).last() == g);
                assert(v0.skip(taken + 1) =~= v0.skip(taken as int).drop_first());
                lemma_total_prefix(v0, taken + 1);
            }
            if pattern.matches(channel) {
                let mut kept: Vec<Subscription> = Vec::new();
                let ghost all = subs@;
                let ghost mut used: int = 0;
                let ghost mut sent: Seq<bool> = Seq::empty();
                let ghost mut tried: Seq<(Subscription, bool)> = Seq::empty();
                proof {
                    assert(all.take(0) =~= Seq::<Subscription>::empty());
                }
                while subs.len() > 0
                    invariant
                        0 <= used,
                        used + subs@.len() == all.len(),
                        subs@ == all.skip(used),
                        sent.len() == used,
                        message_view(pubsub_message) == msg,
                        kept@ == deliver_group(all.take(used), sent, msg, now),
                        tried == group_offers(all.take(used), sent, msg),
                        kept@.len() == successes(sent),
                        kept@.len() <= used,
                    decreases subs@.len(),
                {
                    let mut sub = subs.remove(0);
                    assert(all.skip(used)[0] == sub);
                    let ghost sub0 = sub;
                    let ok = send_message(&mut sub, pubsub_message.clone());
                    let ghost sub1 = sub;
                    if ok {
                        sub.last_activity = now;
                        assert(sub == reached(sub0, msg, now));
                        kept.push(sub);
                    }
                    proof {
                        assert(all.take(used + 1).drop_last() =~= all.take(used));
                        assert(all.take(used + 1).last() == sub0);
                        assert(all.skip(used + 1) =~= all.skip(used).drop_first());
                        assert(sent.push(ok).drop_last() =~= sent);
                        assert(sub1 == offered_to(sub0, msg, ok));
                        sent = sent.push(ok);
                        tried = tried.push((sub1, ok));
                        used = used + 1;
                    }
                }
                proof {
                    assert(all.take(all.len() as int) =~= all);
                    gok = sent;
                    gro = tried;
                }
                let ghost kv = kept@;
                delivered = delivered + kept.len();
                if kept.len() > 0 {
                    groups.push((pattern, kept));
                    proof {
                        assert(groups_view(groups@) =~= before.push((g.0, kv)));
                        lemma_total_push(before, (g.0, kv));
                        let nv = groups_view(groups@);
                        assert forall|a: int, b: int| 0 <= a < b < nv.len() implies (#[trigger] nv[a]).0 != (#[trigger] nv[b]).0 by {
                            if b == nv.len() - 1 {
                                let c = choose|c: int| 0 <= c < taken && #[trigger] before[a].0 == v0[c].0;
                                assert(nv[a] == before[a]);
                                assert(v0[c].0 != v0[taken as int].0);
                            } else {
                                assert(nv[a] == before[a]);
                                assert(nv[b] == before[b]);
                            }
                        }
                        assert forall|a: int| 0 <= a < nv.len() implies exists|b: int| 0 <= b < taken + 1 && #[trigger] nv[a].0 == v0[b].0 by {
                            if a == nv.len() - 1 {
                                assert(nv[a].0 == v0[taken as int].0);
                            } else {
                                let c = choose|c: int| 0 <= c < taken && #[trigger] before[a].0 == v0[c].0;
                                assert(nv[a] == before[a]);
                            }
                        }
                    }
                }
            } else {
                proof {
                    gok = Seq::new(g.1.len(), |j: int| false);
                    gro = Seq::empty();
                }
                groups.push((pattern, subs));
                proof {
                    assert(groups_view(groups@) =~= before.push(g));
                    lemma_total_push(before, g);
                    let nv = groups_view(groups@);
                    assert forall|a: int, b: int| 0 <= a < b < nv.len() implies (#[trigger] nv[a]).0 != (#[trigger] nv[b]).0 by {
                        if b == nv.len() - 1 {
                            let c = choose|c: int| 0 <= c < taken && #[trigger] before[a].0 == v0[c].0;
                            assert(nv[a] == before[a]);
                            assert(v0[c].0 != v0[taken as int].0);
                        } else {
                            assert(nv[a] == before[a]);
                            assert(nv[b] == before[b]);
                        }
                    }
                    assert forall|a: int| 0 <= a < nv.len() implies exists|b: int| 0 <= b < taken + 1 && #[trigger] nv[a].0 == v0[b].0 by {
                        if a == nv.len() - 1 {
                            assert(nv[a].0 == v0[taken as int].0);
                        } else {
                            let c = choose|c: int| 0 <= c < taken && #[trigger] before[a].0 == v0[c].0;
                            assert(nv[a] == before[a]);
                        }
                    }
                }
            }
            proof {
                assert(oks.push(gok).drop_last() =~= oks);
                assert(oks.push(gok).last() == gok);
                let t1 = v0.take(taken + 1);
                assert forall|i: int| 0 <= i < t1.len() implies #[trigger] oks.push(gok)[i].len() == t1[i].1.len() by {
                    if i < taken {
                        assert(oks.push(gok)[i] == oks[i]);
                        assert(t1[i] == v0.take(taken as int)[i]);
                    }
                }
                oks = oks.push(gok);
                assert(round + gro == offers(v0.take(taken + 1), channel@, oks, msg)) by {
                    if !pattern_matches(g.0, channel@) {
                        assert(round + gro =~= round + Seq::<(Subscription, bool)>::empty());
                    }
                }
                round = round + gro;
            }
            taken = taken + 1;
        }
        proof {
            assert(v0.take(taken as int) =~= v0);
        }
        self.subscriptions = groups;
        self.last_round = Ghost(round);
        Ok(delivered)
    }

    /// Statistics about the subscriptions.
    pub fn get_stats(&self) -> (r: KVResult<PubSubStats>)
        requires
            self.wf(),
        ensures
            r matches Ok(st) && st.total_subscriptions == total_subscriptions(self@)
                && st.pattern_count == self@.len()
                && st.exact_patterns == exact_groups(self@)
                && st.wildcard_patterns == self@.len() - exact_groups(self@),
    {
        let ghost v = self@;
        let mut total: usize = 0;
        let mut exact: usize = 0;
        let mut i: usize = 0;
        while i < self.subscriptions.len()
            invariant
                self.wf(),
                v == self@,
                v.len() == self.subscriptions@.len(),
                i <= v.len(),
                total == total_subscriptions(v.take(i as int)),
                exact == exact_groups(v.take(i as int)),
                exact <= i,
            decreases v.len() - i,
        {
            proof {
                assert(v.take(i + 1).drop_last() =~= v.take(i as int));
                assert(v.take(i + 1).last() == v[i as int]);
                lemma_total_prefix(v, i as int + 1);
            }
            total = total + self.subscriptions[i].1.len();
            match self.subscriptions[i].0 {
                ChannelPattern::Exact(_) => {
                    exact = exact + 1;
                },
                ChannelPattern::Wildcard(_) => {},
            }
            i = i + 1;
        }
        assert(v.take(v.len() as int) =~= v);
        let n = self.subscriptions.len();
        Ok(PubSubStats { total_subscriptions: total, pattern_count: n, exact_patterns: exact, wildcard_patterns: n - exact })
    }

    /// The patterns that have subscribers, in subscription order.
    pub fn get_active_patterns(&self) -> (r: KVResult<Vec<ChannelPattern>>)
        ensures
            r matches Ok(ps) && ps@.len() == self@.len()
                && forall|i: int| 0 <= i < ps@.len() ==> (#[trigger] ps@[i])@ == self@[i].0,
    {
        let mut ps: Vec<ChannelPattern> = Vec::new();
        let mut i: usize = 0;
        while i < self.subscriptions.len()
            invariant
                i <= self.subscriptions@.len(),
                self@.len() == self.subscriptions@.len(),
                ps@.len() == i,
                forall|j: int| 0 <= j < i ==> (#[trigger] ps@[j])@ == self@[j].0,
            decreases self.subscriptions@.len() - i,
        {
            ps.push(self.subscriptions[i].0.clone());
            i = i + 1;
        }
        Ok(ps)
    }

    /// Drops the subscriptions that are no longer active at `now` (see
    /// `still_active`; the timeout is the manager's), and the patterns left
    /// without subscribers.
    pub fn cleanup_inactive_at(&mut self, now: Timestamp)
        requires
            old(self).wf(),
        ensures
            final(self).wf(),
            final(self)@ == prune_inactive(
                old(self)@,
                now,
                duration_secs(old(self).spec_subscription_timeout()),
                duration_subsec_nanos(old(self).spec_subscription_timeout()),
            ),
            final(self).spec_cleanup_interval() == old(self).spec_cleanup_interval(),
            final(self).spec_subscription_timeout() == old(self).spec_subscription_timeout(),
    {
        let secs = duration_as_secs(&self.subscription_timeout);
        let nanos = duration_nanos(&self.subscription_timeout);
        let ghost v0 = self@;
        let mut old_groups: Vec<(ChannelPattern, Vec<Subscription>)> = Vec::new();
        std::mem::swap(&mut old_groups, &mut self.subscriptions);
        assert(groups_view(old_groups@) == v0);
        let mut taken: usize = 0;
        let total_groups = old_groups.len();
        let mut groups: Vec<(ChannelPattern, Vec<Subscription>)> = Vec::new();
        while old_groups.len() > 0
            invariant
                groups_wf(v0),
                taken + old_groups@.len() == total_groups,
                total_groups == v0.len(),
                groups_view(old_groups@) == v0.skip(taken as int),
                groups_view(groups@) == prune_inactive(v0.take(taken as int), now, secs, nanos),
                total_subscriptions(groups_view(groups@)) <= total_subscriptions(v0.take(taken as int)),
                groups_wf(groups_view(groups@)),
                forall|a: int| 0 <= a < groups@.len() ==> exists|b: int| 0 <= b < taken && #[trigger] groups_view(groups@)[a].0 == v0[b].0,
            decreases old_groups@.len(),
        {
            let (pattern, mut subs) = old_groups.remove(0);
            let ghost g = v0[taken as int];
            assert(v0.skip(taken as int)[0] == g);
            assert(pattern@ == g.0 && subs@ == g.1);
            let mut kept: Vec<Subscription> = Vec::new();
            let ghost all = subs@;
            let ghost mut used: int = 0;
            while subs.len() > 0
                invariant
                    0 <= used,
                    used + subs@.len() == all.len(),
                    subs@ == all.skip(used),
                    kept@ == active_subscriptions(all.take(used), now, secs, nanos),
                decreases subs@.len(),
            {
                let sub = subs.remove(0);
                assert(all.skip(used)[0] == sub);
                let keep = now >= sub.last_activity && active_within((now as i128) - (sub.last_activity as i128), secs, nanos);
                proof {
                    reveal(Seq::filter);
                    assert(all.take(used + 1).drop_last() =~= all.take(used));
                    assert(all.take(used + 1).last() == sub);
                    assert(all.skip(used + 1) =~= all.skip(used).drop_first());
                }
                if keep {
                    kept.push(sub);
                }
                proof {
                    used = used + 1;
                }
            }
            assert(all.take(all.len() as int) =~= all);
            let ghost kv = kept@;
            proof {
                assert(v0.take(taken + 1).drop_last() =~= v0.take(taken as int));
                assert(v0.take(taken + 1).last() == g);
                assert(v0.skip(taken + 1) =~= v0.skip(taken as int).drop_first());
                lemma_total_prefix(v0, taken + 1);
                lemma_filter_len(all, now, secs, nanos);
            }
            let ghost before = groups_view(groups@);
            if kept.len() > 0 {
                groups.push((pattern, kept));
                proof {
                    assert(groups_view(groups@) =~= before.push((g.0, kv)));
                    lemma_total_push(before, (g.0, kv));
                    let nv = groups_view(groups@);
                    assert forall|a: int, b: int| 0 <= a < b < nv.len() implies (#[trigger] nv[a]).0 != (#[trigger] nv[b]).0 by {
                        if b == nv.len() - 1 {
                            let c = choose|c: int| 0 <= c < taken && #[trigger] before[a].0 == v0[c].0;
                            assert(nv[a] == before[a]);
                            assert(v0[c].0 != v0[taken as int].0);
                        } else {
                            assert(nv[a] == before[a]);
                            assert(nv[b] == before[b]);
                        }
                    }
                    assert forall|a: int| 0 <= a < nv.len() implies exists|b: int| 0 <= b < taken + 1 && #[trigger] nv[a].0 == v0[b].0 by {
                        if a == nv.len() - 1 {
                            assert(nv[a].0 == v0[taken as int].0);
                        } else {
                            let c = choose|c: int| 0 <= c < taken && #[trigger] before[a].0 == v0[c].0;
                            assert(nv[a] == before[a]);
                        }
                    }
                }
            } else {
                proof {
                    assert(prune_inactive(v0.take(taken + 1), now, secs, nanos) =~= before);
                }
            }
            taken = taken + 1;
        }
        assert(v0.take(taken as int) =~= v0);
        self.subscriptions = groups;
    }

    /// The position of the group for `pattern`.
    fn find_group(&self, pattern: &ChannelPattern) -> (r: Option<usize>)
        requires
            self.wf(),
        ensures
            match r {
                Some(i) => i < self@.len() && self@[i as int].0 == pattern@ && group_position(self@, pattern@) == i
                    && has_group(self@, pattern@),
                None => !has_group(self@, pattern@),
            },
    {
        let mut i: usize = 0;
        while i < self.subscriptions.len()
            invariant
                self.wf(),
                i <= self@.len(),
                self@.len() == self.subscriptions@.len(),
                forall|j: int| 0 <= j < i ==> (#[trigger] self@[j]).0 != pattern@,
            decreases self@.len() - i,
        {
            if pattern_equals(&self.subscriptions[i].0, pattern) {
                proof {
                    let g = group_position(self@, pattern@);
                    assert(self@[i as int].0 == pattern@);
                    if g != i {
                        if g < i { assert(self@[g].0 != self@[i as int].0); } else { assert(self@[i as int].0 != self@[g].0); }
                    }
                }
                return Some(i);
            }
            i = i + 1;
        }
        None
    }
}

/// The subscriptions of `v` up to group `n` number at most all of them.
proof fn lemma_total_prefix(v: Seq<PatternSubscriptions>, n: int)
    requires
        0 <= n <= v.len(),
    ensures
        total_subscriptions(v.take(n)) <= total_subscriptions(v),
    decreases v.len(),
{
    if n < v.len() {
        lemma_total_prefix(v.drop_last(), n);
        assert(v.drop_last().take(n) =~= v.take(n));
    } else {
        assert(v.take(n) =~= v);
    }
}

proof fn lemma_filter_len(s: Seq<Subscription>, now: Timestamp, secs: u64, nanos: u32)
    ensures
        active_subscriptions(s, now, secs, nanos).len() <= s.len(),
    decreases s.len(),
{
    reveal(Seq::filter);
    if s.len() > 0 {
        lemma_filter_len(s.drop_last(), now, secs, nanos);
    }
}

/// Whether `elapsed` milliseconds are less than `secs` seconds and `nanos`
/// nanoseconds.
fn active_within(elapsed: i128, secs: u64, nanos: u32) -> (r: bool)
    requires
        0 <= elapsed <= u64::MAX,
    ensures
        r == (elapsed * 1_000_000 < secs * 1_000_000_000 + nanos),
{
    // Compare in u128, where no product overflows.
    let lhs: u128 = (elapsed as u128) * 1_000_000;
    let rhs: u128 = (secs as u128) * 1_000_000_000 + (nanos as u128);
    lhs < rhs
}

impl Default for PubSubManager {
    /// A manager that cleans up every 5 minutes and drops subscriptions
    /// after an hour.
    fn default() -> (m: Self)
        ensures
            m.wf(),
            m@ == Seq::<PatternSubscriptions>::empty(),
            duration_secs(m.spec_cleanup_interval()) == 300,
            duration_subsec_nanos(m.spec_cleanup_interval()) == 0,
            duration_secs(m.spec_subscription_timeout()) == 3600,
            duration_subsec_nanos(m.spec_subscription_timeout()) == 0,
    {
        Self::new(duration_from_secs(300), duration_from_secs(3600))
    }
}

/// Whether two patterns are equal.
pub fn pattern_equals(a: &ChannelPattern, b: &ChannelPattern) -> (r: bool)
    ensures
        r == (a@ == b@),
{
    match (a, b) {
        (ChannelPattern::Exact(x), ChannelPattern::Exact(y)) => *x == *y,
        (ChannelPattern::Wildcard(x), ChannelPattern::Wildcard(y)) => *x == *y,
        _ => false,
    }
}

} // verus!
