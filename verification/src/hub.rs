//! The connection registry and the two hub operations, `connect` and
//! `report_location`. The registry owns, per connection, its current
//! identified position and the sending half of its outbound channel, and it
//! carries, as ghost state, the sequence of messages offered to each channel
//! and the sequence it accepted. The contracts relate the registry's model —
//! a sequence of records — before and after each operation: they fix which
//! messages each operation must offer, and tie survival and eviction to the
//! channel's acceptance or refusal of those offers.

use vstd::prelude::*;
use crate::channel::{new_channel, send_message};
use crate::messages::{Location, Message, MessageModel, UserLocation};

verus! {

/// Model of one connection record: the identity and position the registry
/// stores for it, every message offered to its outbound channel so far, and
/// every message that channel accepted, each oldest first. `sent` selects
/// from `offered` those offers the channel took; an offer is refused only
/// when the receiving half is gone.
#[verifier::ext_equal]
pub struct Rec {
    pub ul: UserLocation,
    pub offered: Seq<MessageModel>,
    pub sent: Seq<MessageModel>,
}

impl Rec {
    /// The record's identity.
    pub open spec fn id(self) -> int {
        self.ul.user_id as int
    }
}

/// No two records carry the same identity.
pub open spec fn distinct_ids(m: Seq<Rec>) -> bool {
    forall|i: int, j: int| 0 <= i < j < m.len() ==> m[i].id() != m[j].id()
}

/// Some record carries the identity `id`.
pub open spec fn has_id(m: Seq<Rec>, id: int) -> bool {
    exists|i: int| 0 <= i < m.len() && m[i].id() == id
}

/// The record carrying the identity `id`, meaningful when `has_id(m, id)`
/// and the identities are distinct.
pub open spec fn rec_of(m: Seq<Rec>, id: int) -> Rec {
    m[choose|i: int| 0 <= i < m.len() && m[i].id() == id]
}

/// When the identities in `m` are distinct, the record of `m[i]`'s identity
/// is `m[i]` itself.
pub proof fn lemma_rec_of(m: Seq<Rec>, i: int)
    requires
        distinct_ids(m),
        0 <= i < m.len(),
    ensures
        has_id(m, m[i].id()),
        rec_of(m, m[i].id()) == m[i],
{
    assert(has_id(m, m[i].id()));
    let j = choose|j: int| 0 <= j < m.len() && m[j].id() == m[i].id();
    if j < i {
        assert(m[j].id() != m[i].id());
    } else if i < j {
        assert(m[i].id() != m[j].id());
    }
}

/// One connection known to the hub: its current identified position, the
/// sending half of its outbound channel, and (ghost) the messages offered
/// to that channel and the messages it accepted.
pub struct User {
    pub user_location: UserLocation,
    tx: tokio::sync::mpsc::UnboundedSender<Message>,
    pub offered: Ghost<Seq<MessageModel>>,
    pub sent: Ghost<Seq<MessageModel>>,
}

impl User {
    /// The record this connection contributes to the registry's model.
    pub closed spec fn model(self) -> Rec {
        Rec { ul: self.user_location, offered: self.offered@, sent: self.sent@ }
    }
}

/// The records of a table of connections, in table order.
pub open spec fn models(us: Seq<User>) -> Seq<Rec> {
    us.map_values(|u: User| u.model())
}

/// The identities in `v`, as integers, in order.
pub open spec fn ids_of(v: Seq<usize>) -> Seq<int> {
    v.map_values(|x: usize| x as int)
}

/// The messages `connect` offers a new connection at admission: the new
/// identity first, then one position message per record already present, in
/// table order.
pub open spec fn admission(m: Seq<Rec>, id: int) -> Seq<MessageModel> {
    seq![MessageModel::UserId(id)] + m.map_values(|r: Rec| MessageModel::Location(r.ul))
}

/// Of the messages `msgs` offered to a channel one by one, those the channel
/// accepted, `oks[i]` telling whether message `i` was accepted; an `oks`
/// shorter than `msgs` cuts the attempt list short.
pub open spec fn delivered(msgs: Seq<MessageModel>, oks: Seq<bool>) -> Seq<MessageModel>
    decreases msgs.len(),
{
    if msgs.len() == 0 || oks.len() == 0 {
        Seq::empty()
    } else {
        let rest = delivered(
            msgs.subrange(1, msgs.len() as int),
            oks.subrange(1, oks.len() as int),
        );
        if oks[0] {
            seq![msgs[0]] + rest
        } else {
            rest
        }
    }
}

/// Extending the outcome list by one more attempt appends the attempted
/// message exactly when the channel accepted it.
proof fn lemma_delivered_extend(msgs: Seq<MessageModel>, oks: Seq<bool>, b: bool)
    requires
        oks.len() < msgs.len(),
    ensures
        delivered(msgs, oks.push(b)) == if b {
            delivered(msgs, oks).push(msgs[oks.len() as int])
        } else {
            delivered(msgs, oks)
        },
    decreases msgs.len(),
{
    let okse = oks.push(b);
    if oks.len() == 0 {
        assert(delivered(msgs, oks) == Seq::<MessageModel>::empty());
        assert(okse.subrange(1, 1) =~= Seq::<bool>::empty());
        assert(delivered(msgs.subrange(1, msgs.len() as int), okse.subrange(1, 1))
            == Seq::<MessageModel>::empty());
        if b {
            assert(delivered(msgs, okse) =~= delivered(msgs, oks).push(msgs[0]));
        }
    } else {
        let mtail = msgs.subrange(1, msgs.len() as int);
        let otail = oks.subrange(1, oks.len() as int);
        assert(okse.subrange(1, okse.len() as int) =~= otail.push(b));
        lemma_delivered_extend(mtail, otail, b);
        assert(mtail[otail.len() as int] == msgs[oks.len() as int]);
        if b {
            assert(delivered(msgs, okse) =~= delivered(msgs, oks).push(msgs[oks.len() as int]));
        } else {
            assert(delivered(msgs, okse) =~= delivered(msgs, oks));
        }
    }
}

/// When a channel accepts every message offered, it receives exactly the
/// offered sequence.
pub proof fn lemma_delivered_all(msgs: Seq<MessageModel>, oks: Seq<bool>)
    requires
        oks.len() == msgs.len(),
        forall|i: int| 0 <= i < oks.len() ==> oks[i],
    ensures
        delivered(msgs, oks) == msgs,
    decreases msgs.len(),
{
    if msgs.len() > 0 {
        let mtail = msgs.subrange(1, msgs.len() as int);
        let otail = oks.subrange(1, oks.len() as int);
        lemma_delivered_all(mtail, otail);
        assert(oks[0]);
        assert(delivered(msgs, oks) =~= msgs);
    }
}

/// A surviving record's passage through a report of `upd`: the stored
/// position is overwritten when the record is the reporter's own, the
/// reported position was offered to its channel, and the channel accepted
/// it — that acceptance is what makes the record survive.
pub open spec fn step_match(r0: Rec, r1: Rec, upd: UserLocation) -> bool {
    &&& r1.ul == (if r0.id() == upd.user_id as int {
        upd
    } else {
        r0.ul
    })
    &&& r1.offered == r0.offered.push(MessageModel::Location(upd))
    &&& r1.sent == r0.sent.push(MessageModel::Location(upd))
}

/// An evicted record's passage through a report of `upd`: the reported
/// position was offered to its channel and the channel refused it — it
/// accepted nothing — which is the sole ground for eviction.
pub open spec fn step_refuse(r0: Rec, r1: Rec, upd: UserLocation) -> bool {
    &&& r1.ul == (if r0.id() == upd.user_id as int {
        upd
    } else {
        r0.ul
    })
    &&& r1.offered == r0.offered.push(MessageModel::Location(upd))
    &&& r1.sent == r0.sent
}

/// A record after the eviction notice naming `ev` was offered to its
/// channel, which accepted it or not.
pub open spec fn notice_rec(r: Rec, ev: Seq<int>, accepted: bool) -> Rec {
    Rec {
        ul: r.ul,
        offered: r.offered.push(MessageModel::Kickout(ev)),
        sent: if accepted {
            r.sent.push(MessageModel::Kickout(ev))
        } else {
            r.sent
        },
    }
}

/// How one report of `upd` relates the registry model `m1` after the call
/// to the model `m0` before it. `ev` is the sequence of identities the call
/// evicted, `gone` the final records of those connections (destroyed, so
/// returned as ghost output), and `kicked` the set of surviving identities
/// whose channel accepted the eviction notice:
/// - only identities present before remain, and an identity was evicted
///   exactly if it was present before and is gone after, each named once in
///   the notice;
/// - a record was evicted only because its channel refused the offered
///   position message: `gone[x]` shows the offer and that nothing was
///   accepted (`step_refuse`);
/// - every survivor's channel was offered, and accepted, the reported
///   position — the reporter, if it survives, now stores `upd` — and when
///   anything was evicted every survivor's channel was then offered the
///   eviction notice, which exactly the members of `kicked` accepted;
/// - the notice goes out only to survivors, and only when something was
///   evicted.
pub open spec fn report_post(
    m0: Seq<Rec>,
    m1: Seq<Rec>,
    upd: UserLocation,
    ev: Seq<int>,
    gone: Seq<Rec>,
    kicked: Set<int>,
) -> bool {
    &&& forall|id: int| #[trigger] has_id(m1, id) ==> has_id(m0, id)
    &&& forall|id: int| #[trigger] ev.contains(id) <==> has_id(m0, id) && !has_id(m1, id)
    &&& ev.no_duplicates()
    &&& gone.len() == ev.len()
    &&& forall|x: int| 0 <= x < gone.len() ==> (#[trigger] gone[x]).id() == ev[x]
        && step_refuse(rec_of(m0, ev[x]), gone[x], upd)
    &&& forall|id: int| #[trigger] has_id(m1, id) ==> rec_of(m1, id).ul == (
        if id == upd.user_id as int {
            upd
        } else {
            rec_of(m0, id).ul
        })
    &&& forall|id: int| #[trigger] has_id(m1, id) ==> rec_of(m1, id).offered == (
        if ev.len() > 0 {
            rec_of(m0, id).offered.push(MessageModel::Location(upd)).push(
                MessageModel::Kickout(ev),
            )
        } else {
            rec_of(m0, id).offered.push(MessageModel::Location(upd))
        })
    &&& forall|id: int| #[trigger] has_id(m1, id) ==> rec_of(m1, id).sent == (
        if kicked.contains(id) {
            rec_of(m0, id).sent.push(MessageModel::Location(upd)).push(MessageModel::Kickout(ev))
        } else {
            rec_of(m0, id).sent.push(MessageModel::Location(upd))
        })
    &&& forall|id: int| #[trigger] kicked.contains(id) ==> has_id(m1, id)
    &&& (ev.len() == 0 ==> kicked == Set::<int>::empty())
}

/// `r1` is some record of the first `k` of `m0` after its passage through a
/// report of `upd`.
pub open spec fn matched_from(m0: Seq<Rec>, k: int, r1: Rec, upd: UserLocation) -> bool {
    exists|i: int|
        0 <= i < k && (#[trigger] m0[i]).id() == r1.id() && step_match(m0[i], r1, upd)
}

/// `r1` is some record of the first `k` of `m0` whose channel refused the
/// report of `upd`.
pub open spec fn refused_from(m0: Seq<Rec>, k: int, r1: Rec, upd: UserLocation) -> bool {
    exists|i: int|
        0 <= i < k && (#[trigger] m0[i]).id() == r1.id() && step_refuse(m0[i], r1, upd)
}

/// The identity `id` occurs among the first `k` records of `m0`.
pub open spec fn appears_before(m0: Seq<Rec>, k: int, id: int) -> bool {
    exists|i: int| 0 <= i < k && (#[trigger] m0[i]).id() == id
}

proof fn lemma_matched_mono(m0: Seq<Rec>, k1: int, k2: int, r: Rec, upd: UserLocation)
    requires
        matched_from(m0, k1, r, upd),
        k1 <= k2,
    ensures
        matched_from(m0, k2, r, upd),
{
    let i = choose|i: int|
        0 <= i < k1 && (#[trigger] m0[i]).id() == r.id() && step_match(m0[i], r, upd);
    assert(0 <= i < k2 && m0[i].id() == r.id() && step_match(m0[i], r, upd));
}

proof fn lemma_refused_mono(m0: Seq<Rec>, k1: int, k2: int, r: Rec, upd: UserLocation)
    requires
        refused_from(m0, k1, r, upd),
        k1 <= k2,
    ensures
        refused_from(m0, k2, r, upd),
{
    let i = choose|i: int|
        0 <= i < k1 && (#[trigger] m0[i]).id() == r.id() && step_refuse(m0[i], r, upd);
    assert(0 <= i < k2 && m0[i].id() == r.id() && step_refuse(m0[i], r, upd));
}

proof fn lemma_push_contains(s: Seq<int>, x: int, y: int)
    ensures
        s.push(x).contains(y) <==> (s.contains(y) || x == y),
{
    let sp = s.push(x);
    if s.contains(y) {
        let i = choose|i: int| 0 <= i < s.len() && s[i] == y;
        assert(sp[i] == y);
    }
    if x == y {
        assert(sp[s.len() as int] == y);
    }
    if sp.contains(y) {
        let i = choose|i: int| 0 <= i < sp.len() && sp[i] == y;
        if i < s.len() {
            assert(s[i] == y);
        }
    }
}

proof fn lemma_push_no_dup(s: Seq<int>, x: int)
    requires
        s.no_duplicates(),
        !s.contains(x),
    ensures
        s.push(x).no_duplicates(),
{
    let sp = s.push(x);
    assert forall|i: int, j: int|
        0 <= i < sp.len() && 0 <= j < sp.len() && i != j implies sp[i] != sp[j] by {
        if i < s.len() && j < s.len() {
        } else if i < s.len() {
            assert(sp[j] == x);
            if s[i] == x {
                assert(s.contains(x));
            }
        } else {
            assert(sp[i] == x);
            if s[j] == x {
                assert(s.contains(x));
            }
        }
    }
}

proof fn lemma_models_push(us: Seq<User>, u: User)
    ensures
        models(us.push(u)) == models(us).push(u.model()),
{
    assert(models(us.push(u)) =~= models(us).push(u.model()));
}

/// Derives the report relation from the facts the two passes establish:
/// `s1` is the table after the broadcast-and-reap pass — each of its records
/// stems from a record of `m0` whose channel accepted the offered position
/// message, every record of `m0` either went to `s1` or, having refused the
/// offer, into the eviction list `ev` (its final state in `gone`), and no
/// identity went to both — and `m1` is `s1` with the eviction notice
/// offered to every record, accepted by exactly the members of `kicked`.
proof fn lemma_report_post_from(
    m0: Seq<Rec>,
    s1: Seq<Rec>,
    m1: Seq<Rec>,
    upd: UserLocation,
    ev: Seq<int>,
    gone: Seq<Rec>,
    kicked: Set<int>,
)
    requires
        distinct_ids(m0),
        distinct_ids(s1),
        forall|j: int| 0 <= j < s1.len()
            ==> matched_from(m0, m0.len() as int, #[trigger] s1[j], upd),
        forall|j: int| 0 <= j < s1.len() ==> !ev.contains((#[trigger] s1[j]).id()),
        forall|i: int| 0 <= i < m0.len()
            ==> ev.contains((#[trigger] m0[i]).id()) || has_id(s1, m0[i].id()),
        forall|id: int| #[trigger] ev.contains(id) ==> appears_before(m0, m0.len() as int, id),
        ev.no_duplicates(),
        gone.len() == ev.len(),
        forall|x: int| 0 <= x < gone.len() ==> (#[trigger] gone[x]).id() == ev[x]
            && refused_from(m0, m0.len() as int, gone[x], upd),
        m1.len() == s1.len(),
        forall|t: int| 0 <= t < m1.len() ==> #[trigger] m1[t] == (
            if ev.len() > 0 {
                notice_rec(s1[t], ev, kicked.contains(s1[t].id()))
            } else {
                s1[t]
            }),
        forall|id: int| #[trigger] kicked.contains(id) ==> has_id(s1, id),
        ev.len() == 0 ==> kicked == Set::<int>::empty(),
    ensures
        report_post(m0, m1, upd, ev, gone, kicked),
        distinct_ids(m1),
        forall|t: int| 0 <= t < m1.len() ==> (#[trigger] m1[t]).id() == s1[t].id(),
{
    let n0 = m0.len() as int;
    assert forall|t: int| 0 <= t < m1.len() implies (#[trigger] m1[t]).id() == s1[t].id() by {
        if ev.len() > 0 {
            assert(m1[t] == notice_rec(s1[t], ev, kicked.contains(s1[t].id())));
        }
    }
    assert(distinct_ids(m1));
    assert forall|id: int| has_id(m1, id) implies has_id(s1, id) by {
        let t = choose|t: int| 0 <= t < m1.len() && m1[t].id() == id;
        assert(s1[t].id() == id);
    }
    assert forall|id: int| has_id(s1, id) implies has_id(m1, id) by {
        let t = choose|t: int| 0 <= t < s1.len() && s1[t].id() == id;
        assert(m1[t].id() == id);
    }
    assert forall|id: int| #[trigger] has_id(m1, id) implies has_id(m0, id) by {
        let t = choose|t: int| 0 <= t < m1.len() && m1[t].id() == id;
        assert(matched_from(m0, n0, s1[t], upd));
        let i = choose|i: int|
            0 <= i < n0 && (#[trigger] m0[i]).id() == s1[t].id() && step_match(m0[i], s1[t], upd);
        assert(m0[i].id() == id);
    }
    assert forall|id: int| #[trigger] ev.contains(id) implies has_id(m0, id) && !has_id(m1, id) by {
        assert(appears_before(m0, n0, id));
        let i = choose|i: int| 0 <= i < n0 && (#[trigger] m0[i]).id() == id;
        assert(has_id(m0, id));
        if has_id(m1, id) {
            assert(has_id(s1, id));
            let t = choose|t: int| 0 <= t < s1.len() && s1[t].id() == id;
            assert(!ev.contains(s1[t].id()));
        }
    }
    assert forall|id: int| has_id(m0, id) && !has_id(m1, id) implies ev.contains(id) by {
        let i = choose|i: int| 0 <= i < m0.len() && m0[i].id() == id;
        assert(ev.contains(m0[i].id()) || has_id(s1, m0[i].id()));
        if has_id(s1, id) {
            assert(has_id(m1, id));
        }
    }
    assert forall|x: int| 0 <= x < gone.len() implies (#[trigger] gone[x]).id() == ev[x]
        && step_refuse(rec_of(m0, ev[x]), gone[x], upd) by {
        assert(refused_from(m0, n0, gone[x], upd));
        let i = choose|i: int|
            0 <= i < n0 && (#[trigger] m0[i]).id() == gone[x].id() && step_refuse(m0[i], gone[x], upd);
        lemma_rec_of(m0, i);
        assert(rec_of(m0, ev[x]) == m0[i]);
    }
    assert forall|id: int| #[trigger] has_id(m1, id) implies rec_of(m1, id).ul == (
        if id == upd.user_id as int {
            upd
        } else {
            rec_of(m0, id).ul
        }) && rec_of(m1, id).offered == (
        if ev.len() > 0 {
            rec_of(m0, id).offered.push(MessageModel::Location(upd)).push(
                MessageModel::Kickout(ev),
            )
        } else {
            rec_of(m0, id).offered.push(MessageModel::Location(upd))
        }) && rec_of(m1, id).sent == (
        if kicked.contains(id) {
            rec_of(m0, id).sent.push(MessageModel::Location(upd)).push(MessageModel::Kickout(ev))
        } else {
            rec_of(m0, id).sent.push(MessageModel::Location(upd))
        }) by {
        let t = choose|t: int| 0 <= t < m1.len() && m1[t].id() == id;
        lemma_rec_of(m1, t);
        assert(rec_of(m1, id) == m1[t]);
        assert(matched_from(m0, n0, s1[t], upd));
        let i = choose|i: int|
            0 <= i < n0 && (#[trigger] m0[i]).id() == s1[t].id() && step_match(m0[i], s1[t], upd);
        lemma_rec_of(m0, i);
        assert(rec_of(m0, id) == m0[i]);
        assert(s1[t].ul == (if m0[i].id() == upd.user_id as int {
            upd
        } else {
            m0[i].ul
        }));
        assert(s1[t].offered == m0[i].offered.push(MessageModel::Location(upd)));
        assert(s1[t].sent == m0[i].sent.push(MessageModel::Location(upd)));
        if ev.len() > 0 {
            assert(m1[t] == notice_rec(s1[t], ev, kicked.contains(s1[t].id())));
        } else {
            assert(m1[t] == s1[t]);
            assert(!kicked.contains(id));
        }
    }
    assert forall|id: int| #[trigger] kicked.contains(id) implies has_id(m1, id) by {
        assert(has_id(s1, id));
    }
    assert forall|id: int| #[trigger] ev.contains(id) <==> has_id(m0, id) && !has_id(m1, id) by {}
}

/// Copies a list of identities (the eviction notice carries its own copy
/// per survivor).
fn copy_ids(v: &Vec<usize>) -> (r: Vec<usize>)
    ensures
        r@ == v@,
{
    let mut r: Vec<usize> = Vec::new();
    let n = v.len();
    let mut i: usize = 0;
    while i < n
        invariant
            i <= n,
            n == v@.len(),
            r@ == v@.subrange(0, i as int),
        decreases n - i,
    {
        let x = v[i];
        r.push(x);
        proof {
            assert(r@ =~= v@.subrange(0, i + 1));
        }
        i = i + 1;
    }
    proof {
        assert(r@ =~= v@);
    }
    r
}

/// Offers one message to a connection's channel, recording the offer in the
/// connection's ghost offer log and, when the channel accepts it, in its
/// ghost acceptance log as well. The only place either log grows.
fn send_and_log(u: &mut User, m: Message) -> (ok: bool)
    ensures
        final(u).user_location == old(u).user_location,
        final(u).offered@ == old(u).offered@.push(m@),
        final(u).sent@ == if ok {
            old(u).sent@.push(m@)
        } else {
            old(u).sent@
        },
{
    let ghost mv = m@;
    let ok = send_message(&u.tx, m);
    u.offered = Ghost(u.offered@.push(mv));
    if ok {
        u.sent = Ghost(u.sent@.push(mv));
    }
    ok
}

/// The registry of currently connected users, together with the identity
/// counter. The sole piece of shared state of the system: callers serialize
/// all access to it (the transport layer keeps it behind one lock).
pub struct Hub {
    next_id: usize,
    users: Vec<User>,
}

impl Hub {
    /// The registry's model: one record per connection, in table order.
    pub closed spec fn model(self) -> Seq<Rec> {
        models(self.users@)
    }

    /// The identity the hub will assign next.
    pub closed spec fn next(self) -> int {
        self.next_id as int
    }

    /// Well-formedness: identities are pairwise distinct, positive, and
    /// below the assignment counter, which starts at one.
    pub open spec fn wf(self) -> bool {
        &&& 1 <= self.next()
        &&& distinct_ids(self.model())
        &&& forall|i: int| 0 <= i < self.model().len()
            ==> 1 <= (#[trigger] self.model()[i].id()) < self.next()
    }

    /// An empty hub: no connections, identities assigned from one upward.
    pub fn new() -> (h: Hub)
        ensures
            h.wf(),
            h.model() == Seq::<Rec>::empty(),
            h.next() == 1,
    {
        let h = Hub { next_id: 1, users: Vec::new() };
        proof {
            assert(h.model() =~= Seq::<Rec>::empty());
        }
        h
    }

    /// Whether the identity space still has an identity to assign —
    /// `connect`'s one precondition beyond well-formedness, a machine
    /// limit, testable here by callers that cannot carry proofs.
    pub fn can_admit(&self) -> (r: bool)
        ensures
            r <==> self.next() < usize::MAX,
    {
        self.next_id < usize::MAX
    }

    /// Admits a new connection: assigns the next identity, creates its
    /// outbound channel, offers it its identity message and then one
    /// position message per connection present, and registers it with the
    /// default position. Returns the identity, the receiving half of the
    /// new channel, and (ghost) which of the offered admission messages the
    /// channel accepted — all of them, whenever the returned receiver is
    /// still open, which it is here until the caller drops it.
    pub fn connect(&mut self) -> (r: (
        usize,
        tokio::sync::mpsc::UnboundedReceiver<Message>,
        Ghost<Seq<bool>>,
    ))
        requires
            old(self).wf(),
            old(self).next() < usize::MAX,
        ensures
            final(self).wf(),
            r.0 as int == old(self).next(),
            final(self).next() == old(self).next() + 1,
            !has_id(old(self).model(), r.0 as int),
            r.2@.len() == old(self).model().len() + 1,
            final(self).model() == old(self).model().push(Rec {
                ul: UserLocation { user_id: r.0, location: Location { x: 0, y: 0 } },
                offered: admission(old(self).model(), r.0 as int),
                sent: delivered(admission(old(self).model(), r.0 as int), r.2@),
            }),
    {
        let ghost m0 = old(self).model();
        let my_id = self.next_id;
        self.next_id = self.next_id + 1;
        let (tx, rx) = new_channel();
        let mut user = User {
            user_location: UserLocation { user_id: my_id, location: Location { x: 0, y: 0 } },
            tx,
            offered: Ghost(Seq::empty()),
            sent: Ghost(Seq::empty()),
        };
        let ghost msgs = admission(m0, my_id as int);
        let ghost mut oks: Seq<bool> = Seq::empty();
        let ok0 = send_and_log(&mut user, Message::UserId(my_id));
        proof {
            assert(msgs[0] == MessageModel::UserId(my_id as int));
            lemma_delivered_extend(msgs, oks, ok0);
            oks = oks.push(ok0);
            assert(delivered(msgs, Seq::<bool>::empty()) == Seq::<MessageModel>::empty());
            if ok0 {
                assert(user.sent@ =~= delivered(msgs, oks));
            }
            assert(user.offered@ =~= msgs.subrange(0, 1));
        }
        let n = self.users.len();
        let mut i: usize = 0;
        while i < n
            invariant
                i <= n,
                n == self.users.len(),
                models(self.users@) == m0,
                msgs == admission(m0, my_id as int),
                msgs.len() == n + 1,
                oks.len() == i + 1,
                user.user_location == (UserLocation {
                    user_id: my_id,
                    location: Location { x: 0, y: 0 },
                }),
                user.offered@ == msgs.subrange(0, oks.len() as int),
                user.sent@ == delivered(msgs, oks),
            decreases n - i,
        {
            let ul = self.users[i].user_location;
            let ghost offered_pre = user.offered@;
            proof {
                assert(m0[i as int] == self.users@[i as int].model());
                assert(msgs[i + 1] == MessageModel::Location(m0[i as int].ul));
                lemma_delivered_extend(msgs, oks, true);
                lemma_delivered_extend(msgs, oks, false);
            }
            let ok = send_and_log(&mut user, Message::Location(ul));
            proof {
                oks = oks.push(ok);
                assert(user.offered@ =~= msgs.subrange(0, oks.len() as int));
            }
            i = i + 1;
        }
        proof {
            assert(user.offered@ =~= msgs);
        }
        let ghost new_rec = user.model();
        self.users.push(user);
        proof {
            assert(final(self).model() =~= m0.push(new_rec));
            assert forall|k: int| 0 <= k < final(self).model().len()
                implies 1 <= (#[trigger] final(self).model()[k].id()) < final(self).next() by {
                if k < m0.len() {
                    assert(final(self).model()[k] == m0[k]);
                }
            }
            assert(distinct_ids(final(self).model())) by {
                assert forall|a: int, b: int|
                    0 <= a < b < final(self).model().len()
                    implies final(self).model()[a].id() != final(self).model()[b].id() by {
                    if b < m0.len() {
                        assert(m0[a].id() != m0[b].id());
                    } else {
                        assert(final(self).model()[a].id() < my_id as int);
                        assert(final(self).model()[b].id() == my_id as int);
                    }
                }
            }
            assert(!has_id(m0, my_id as int)) by {
                if has_id(m0, my_id as int) {
                    let w = choose|w: int| 0 <= w < m0.len() && m0[w].id() == my_id as int;
                    assert(m0[w].id() < my_id as int);
                }
            }
        }
        (my_id, rx, Ghost(oks))
    }

    /// Ingests one position report from `user_id`: stores the reported
    /// position under the reporter's identity and offers the position
    /// message to every connection in one pass — the reporter itself
    /// included, so the reporter hears its own echo. A connection whose
    /// channel refuses the message is evicted in the same pass; when any
    /// were evicted, a second, best-effort pass offers every survivor one
    /// eviction notice naming all of them. Returns (ghost) the evicted
    /// identities in table order, the final records of those connections —
    /// each shows the refused offer that caused the eviction — and the set
    /// of surviving identities whose channel accepted the notice.
    #[verifier::loop_isolation(false)]
    pub fn report_location(&mut self, user_id: usize, location: Location) -> (r: Ghost<
        (Seq<int>, Seq<Rec>, Set<int>),
    >)
        requires
            old(self).wf(),
        ensures
            final(self).wf(),
            final(self).next() == old(self).next(),
            report_post(
                old(self).model(),
                final(self).model(),
                UserLocation { user_id, location },
                r@.0,
                r@.1,
                r@.2,
            ),
    {
        let update = UserLocation { user_id, location };
        let ghost m0 = old(self).model();
        let ghost n0 = m0.len() as int;
        let mut olds: Vec<User> = Vec::new();
        core::mem::swap(&mut olds, &mut self.users);
        proof {
            assert(models(olds@) == m0);
            assert(m0.subrange(0, n0) =~= m0);
        }
        let mut survivors: Vec<User> = Vec::new();
        let mut removed: Vec<usize> = Vec::new();
        let ghost mut gone: Seq<Rec> = Seq::empty();
        let ghost mut k: int = 0;
        while olds.len() > 0
            invariant
                0 <= k,
                k + olds@.len() == n0,
                models(olds@) == m0.subrange(k, n0),
                forall|j: int| 0 <= j < survivors@.len()
                    ==> matched_from(m0, k, (#[trigger] survivors@[j]).model(), update),
                distinct_ids(models(survivors@)),
                forall|j: int| 0 <= j < survivors@.len()
                    ==> !ids_of(removed@).contains((#[trigger] survivors@[j]).model().id()),
                forall|i: int| 0 <= i < k ==> ids_of(removed@).contains((#[trigger] m0[i]).id())
                    || has_id(models(survivors@), m0[i].id()),
                forall|id: int| #[trigger] ids_of(removed@).contains(id)
                    ==> appears_before(m0, k, id),
                ids_of(removed@).no_duplicates(),
                gone.len() == removed@.len(),
                forall|x: int| 0 <= x < gone.len()
                    ==> (#[trigger] gone[x]).id() == ids_of(removed@)[x]
                        && refused_from(m0, k, gone[x], update),
            decreases olds@.len(),
        {
            let ghost pre_olds = olds@;
            let ghost pre_surv = survivors@;
            let ghost pre_rem = removed@;
            let mut u = olds.remove(0);
            proof {
                assert(models(pre_olds)[0] == pre_olds[0].model());
                assert(u.model() == m0[k]);
                assert(olds@ =~= pre_olds.subrange(1, pre_olds.len() as int));
                assert forall|i2: int| 0 <= i2 < olds@.len()
                    implies #[trigger] models(olds@)[i2] == m0[k + 1 + i2] by {
                    assert(models(olds@)[i2] == olds@[i2].model());
                    assert(olds@[i2] == pre_olds[i2 + 1]);
                    assert(models(pre_olds)[i2 + 1] == pre_olds[i2 + 1].model());
                    assert(models(pre_olds)[i2 + 1] == m0.subrange(k, n0)[i2 + 1]);
                }
                assert(models(olds@) =~= m0.subrange(k + 1, n0));
            }
            if u.user_location.user_id == user_id {
                u.user_location = update;
            }
            proof {
                assert(u.model().ul == (if m0[k].id() == update.user_id as int {
                    update
                } else {
                    m0[k].ul
                }));
                assert(u.model().offered == m0[k].offered);
                assert(u.model().sent == m0[k].sent);
            }
            let ok = send_and_log(&mut u, Message::Location(update));
            proof {
                assert(Message::Location(update)@ == MessageModel::Location(update));
                assert(u.model().id() == m0[k].id());
            }
            if ok {
                proof {
                    assert(step_match(m0[k], u.model(), update));
                    assert forall|j: int| 0 <= j < pre_surv.len()
                        implies (#[trigger] pre_surv[j]).model().id() != m0[k].id() by {
                        assert(matched_from(m0, k, pre_surv[j].model(), update));
                        let i = choose|i: int|
                            0 <= i < k && (#[trigger] m0[i]).id() == pre_surv[j].model().id()
                                && step_match(m0[i], pre_surv[j].model(), update);
                        assert(m0[i].id() != m0[k].id());
                    }
                    assert(!ids_of(removed@).contains(m0[k].id())) by {
                        if ids_of(removed@).contains(m0[k].id()) {
                            assert(appears_before(m0, k, m0[k].id()));
                            let i = choose|i: int| 0 <= i < k && (#[trigger] m0[i]).id() == m0[k].id();
                            assert(m0[i].id() != m0[k].id());
                        }
                    }
                }
                let ghost u_now = u.model();
                survivors.push(u);
                proof {
                    lemma_models_push(pre_surv, u);
                    assert forall|j: int| 0 <= j < survivors@.len()
                        implies matched_from(m0, k + 1, (#[trigger] survivors@[j]).model(), update) by {
                        if j < pre_surv.len() {
                            assert(survivors@[j] == pre_surv[j]);
                            lemma_matched_mono(m0, k, k + 1, survivors@[j].model(), update);
                        } else {
                            assert(survivors@[j] == u);
                            assert(0 <= k < k + 1 && m0[k].id() == u_now.id()
                                && step_match(m0[k], u_now, update));
                        }
                    }
                    assert(distinct_ids(models(survivors@))) by {
                        assert forall|a: int, b: int| 0 <= a < b < models(survivors@).len()
                            implies models(survivors@)[a].id() != models(survivors@)[b].id() by {
                            if b < pre_surv.len() {
                                assert(models(survivors@)[a] == models(pre_surv)[a]);
                                assert(models(survivors@)[b] == models(pre_surv)[b]);
                            } else {
                                assert(models(survivors@)[b] == u_now);
                                assert(models(survivors@)[a] == pre_surv[a].model());
                            }
                        }
                    }
                    assert forall|i: int| 0 <= i < k + 1
                        implies ids_of(removed@).contains((#[trigger] m0[i]).id())
                            || has_id(models(survivors@), m0[i].id()) by {
                        if i < k {
                            if has_id(models(pre_surv), m0[i].id()) {
                                let j = choose|j: int|
                                    0 <= j < models(pre_surv).len()
                                        && models(pre_surv)[j].id() == m0[i].id();
                                assert(models(survivors@)[j].id() == m0[i].id());
                            }
                        } else {
                            assert(models(survivors@)[pre_surv.len() as int].id() == m0[k].id());
                        }
                    }
                    assert forall|x: int| 0 <= x < gone.len()
                        implies refused_from(m0, k + 1, #[trigger] gone[x], update) by {
                        lemma_refused_mono(m0, k, k + 1, gone[x], update);
                    }
                }
            } else {
                let uid = u.user_location.user_id;
                proof {
                    assert(uid as int == m0[k].id());
                    assert(step_refuse(m0[k], u.model(), update));
                    assert(!ids_of(pre_rem).contains(m0[k].id())) by {
                        if ids_of(pre_rem).contains(m0[k].id()) {
                            assert(appears_before(m0, k, m0[k].id()));
                            let i = choose|i: int| 0 <= i < k && (#[trigger] m0[i]).id() == m0[k].id();
                            assert(m0[i].id() != m0[k].id());
                        }
                    }
                }
                removed.push(uid);
                proof {
                    assert(ids_of(removed@) =~= ids_of(pre_rem).push(uid as int));
                    lemma_push_no_dup(ids_of(pre_rem), uid as int);
                    assert forall|id: int| #[trigger] ids_of(removed@).contains(id)
                        implies appears_before(m0, k + 1, id) by {
                        lemma_push_contains(ids_of(pre_rem), uid as int, id);
                        if ids_of(pre_rem).contains(id) {
                            let i = choose|i: int| 0 <= i < k && (#[trigger] m0[i]).id() == id;
                            assert(0 <= i < k + 1 && m0[i].id() == id);
                        } else {
                            assert(0 <= k < k + 1 && m0[k].id() == id);
                        }
                    }
                    assert forall|j: int| 0 <= j < survivors@.len()
                        implies !ids_of(removed@).contains(
                            (#[trigger] survivors@[j]).model().id()) by {
                        lemma_push_contains(
                            ids_of(pre_rem),
                            uid as int,
                            survivors@[j].model().id(),
                        );
                        assert(matched_from(m0, k, survivors@[j].model(), update));
                        let i = choose|i: int|
                            0 <= i < k && (#[trigger] m0[i]).id() == survivors@[j].model().id()
                                && step_match(m0[i], survivors@[j].model(), update);
                        assert(m0[i].id() != m0[k].id());
                    }
                    assert forall|i: int| 0 <= i < k + 1
                        implies ids_of(removed@).contains((#[trigger] m0[i]).id())
                            || has_id(models(survivors@), m0[i].id()) by {
                        lemma_push_contains(ids_of(pre_rem), uid as int, m0[i].id());
                    }
                    assert forall|j: int| 0 <= j < survivors@.len()
                        implies matched_from(m0, k + 1, (#[trigger] survivors@[j]).model(), update) by {
                        lemma_matched_mono(m0, k, k + 1, survivors@[j].model(), update);
                    }
                    let pre_gone = gone;
                    gone = gone.push(u.model());
                    assert(0 <= k < k + 1 && m0[k].id() == u.model().id()
                        && step_refuse(m0[k], u.model(), update));
                    assert forall|x: int| 0 <= x < gone.len()
                        implies (#[trigger] gone[x]).id() == ids_of(removed@)[x]
                            && refused_from(m0, k + 1, gone[x], update) by {
                        if x < pre_gone.len() {
                            assert(gone[x] == pre_gone[x]);
                            assert(ids_of(removed@)[x] == ids_of(pre_rem)[x]);
                            lemma_refused_mono(m0, k, k + 1, gone[x], update);
                        } else {
                            assert(gone[x] == u.model());
                            assert(ids_of(removed@)[x] == uid as int);
                        }
                    }
                }
            }
            proof {
                k = k + 1;
            }
        }
        let ghost s1 = models(survivors@);
        let ghost ev = ids_of(removed@);
        proof {
            assert(k == n0);
            assert(distinct_ids(s1));
            assert forall|j: int| 0 <= j < s1.len()
                implies matched_from(m0, n0, #[trigger] s1[j], update) by {
                assert(s1[j] == survivors@[j].model());
            }
            assert forall|j: int| 0 <= j < s1.len()
                implies !ev.contains((#[trigger] s1[j]).id()) by {
                assert(s1[j] == survivors@[j].model());
            }
            assert(forall|i: int| 0 <= i < n0 ==> ev.contains((#[trigger] m0[i]).id())
                || has_id(s1, m0[i].id()));
            assert(forall|id: int| #[trigger] ev.contains(id) ==> appears_before(m0, n0, id));
            assert(ev.no_duplicates());
            assert(ev.len() == removed@.len());
            assert(gone.len() == ev.len());
            assert(forall|x: int| 0 <= x < gone.len() ==> (#[trigger] gone[x]).id() == ev[x]
                && refused_from(m0, n0, gone[x], update));
        }
        let ghost mut kicked: Set<int> = Set::empty();
        if removed.len() > 0 {
            let mut finals: Vec<User> = Vec::new();
            while survivors.len() > 0
                invariant
                    finals@.len() + survivors@.len() == s1.len(),
                    models(survivors@) == s1.subrange(finals@.len() as int, s1.len() as int),
                    forall|t: int| 0 <= t < finals@.len() ==> (#[trigger] finals@[t]).model()
                        == notice_rec(s1[t], ev, kicked.contains(s1[t].id())),
                    forall|id: int| #[trigger] kicked.contains(id)
                        ==> appears_before(s1, finals@.len() as int, id),
                decreases survivors@.len(),
            {
                let ghost t0 = finals@.len() as int;
                let ghost pre_surv2 = survivors@;
                let ghost pre_finals = finals@;
                let ghost pre_kicked = kicked;
                let mut u = survivors.remove(0);
                proof {
                    assert(models(pre_surv2)[0] == pre_surv2[0].model());
                    assert(u.model() == s1[t0]);
                    assert(survivors@ =~= pre_surv2.subrange(1, pre_surv2.len() as int));
                    assert forall|i2: int| 0 <= i2 < survivors@.len()
                        implies #[trigger] models(survivors@)[i2] == s1[t0 + 1 + i2] by {
                        assert(models(survivors@)[i2] == survivors@[i2].model());
                        assert(survivors@[i2] == pre_surv2[i2 + 1]);
                        assert(models(pre_surv2)[i2 + 1] == pre_surv2[i2 + 1].model());
                        assert(models(pre_surv2)[i2 + 1]
                            == s1.subrange(t0, s1.len() as int)[i2 + 1]);
                    }
                    assert(models(survivors@) =~= s1.subrange(t0 + 1, s1.len() as int));
                    assert(!pre_kicked.contains(s1[t0].id())) by {
                        if pre_kicked.contains(s1[t0].id()) {
                            let t = choose|t: int|
                                0 <= t < t0 && (#[trigger] s1[t]).id() == s1[t0].id();
                            assert(s1[t].id() != s1[t0].id());
                        }
                    }
                }
                let ids_copy = copy_ids(&removed);
                proof {
                    assert(Message::Kickout(ids_copy)@ == MessageModel::Kickout(ids_of(ids_copy@)));
                    assert(ids_of(ids_copy@) == ev);
                }
                let ok = send_and_log(&mut u, Message::Kickout(ids_copy));
                if ok {
                    proof {
                        assert(u.user_location.user_id as int == s1[t0].id());
                        kicked = kicked.insert(u.user_location.user_id as int);
                        assert(u.model() == notice_rec(s1[t0], ev, true));
                    }
                } else {
                    proof {
                        assert(u.model() == notice_rec(s1[t0], ev, false));
                    }
                }
                finals.push(u);
                proof {
                    assert forall|t: int| 0 <= t < finals@.len()
                        implies (#[trigger] finals@[t]).model()
                        == notice_rec(s1[t], ev, kicked.contains(s1[t].id())) by {
                        if t < t0 {
                            assert(finals@[t] == pre_finals[t]);
                            assert(kicked.contains(s1[t].id())
                                == pre_kicked.contains(s1[t].id())) by {
                                assert(s1[t].id() != s1[t0].id());
                            }
                        } else {
                            assert(finals@[t] == u);
                        }
                    }
                    assert forall|id: int| #[trigger] kicked.contains(id)
                        implies appears_before(s1, finals@.len() as int, id) by {
                        if pre_kicked.contains(id) {
                            let t = choose|t: int| 0 <= t < t0 && (#[trigger] s1[t]).id() == id;
                            assert(0 <= t < t0 + 1 && s1[t].id() == id);
                        } else {
                            assert(id == s1[t0].id());
                            assert(0 <= t0 < t0 + 1 && s1[t0].id() == id);
                        }
                    }
                }
            }
            self.users = finals;
            proof {
                let m1 = self.model();
                assert(ev.len() > 0);
                assert forall|t: int| 0 <= t < m1.len() implies #[trigger] m1[t] == (
                    if ev.len() > 0 {
                        notice_rec(s1[t], ev, kicked.contains(s1[t].id()))
                    } else {
                        s1[t]
                    }) by {
                    assert(m1[t] == finals@[t].model());
                }
                assert forall|id: int| #[trigger] kicked.contains(id) implies has_id(s1, id) by {
                    let t = choose|t: int|
                        0 <= t < s1.len() && (#[trigger] s1[t]).id() == id;
                    assert(s1[t].id() == id);
                }
                lemma_report_post_from(m0, s1, m1, update, ev, gone, kicked);
                assert forall|t: int| 0 <= t < m1.len()
                    implies 1 <= (#[trigger] m1[t].id()) < old(self).next() by {
                    assert(matched_from(m0, n0, s1[t], update));
                    let i = choose|i: int|
                        0 <= i < n0 && (#[trigger] m0[i]).id() == s1[t].id()
                            && step_match(m0[i], s1[t], update);
                    assert(1 <= m0[i].id() < old(self).next());
                }
            }
        } else {
            self.users = survivors;
            proof {
                let m1 = self.model();
                assert(m1 == s1);
                assert(ev.len() == 0);
                assert forall|t: int| 0 <= t < m1.len() implies #[trigger] m1[t] == (
                    if ev.len() > 0 {
                        notice_rec(s1[t], ev, kicked.contains(s1[t].id()))
                    } else {
                        s1[t]
                    }) by {}
                lemma_report_post_from(m0, s1, m1, update, ev, gone, kicked);
                assert forall|t: int| 0 <= t < m1.len()
                    implies 1 <= (#[trigger] m1[t].id()) < old(self).next() by {
                    assert(matched_from(m0, n0, s1[t], update));
                    let i = choose|i: int|
                        0 <= i < n0 && (#[trigger] m0[i]).id() == s1[t].id()
                            && step_match(m0[i], s1[t], update);
                    assert(1 <= m0[i].id() < old(self).next());
                }
            }
        }
        Ghost((ev, gone, kicked))
    }
}

/// Identity uniqueness: in a well-formed hub the identities of all admitted
/// connections are pairwise distinct, and the identity `connect` will assign
/// next is not among them — so every sequence of `connect` calls returns
/// pairwise distinct identities.
pub proof fn lemma_identity_uniqueness(h: Hub)
    requires
        h.wf(),
    ensures
        forall|i: int, j: int| 0 <= i < j < h.model().len()
            ==> h.model()[i].id() != h.model()[j].id(),
        !has_id(h.model(), h.next()),
{
    if has_id(h.model(), h.next()) {
        let i = choose|i: int| 0 <= i < h.model().len() && h.model()[i].id() == h.next();
        assert(h.model()[i].id() < h.next());
    }
}

/// Admission snapshot completeness: when the fresh channel accepts every
/// admission message — it does as long as the receiving half returned by
/// `connect` is not yet dropped — a connection admitted while `m` holds N
/// records receives exactly its identity message followed by N position
/// messages, one per prior record's stored position, in table order, and
/// nothing else.
pub proof fn lemma_admission_snapshot(m: Seq<Rec>, id: int, oks: Seq<bool>)
    requires
        oks.len() == m.len() + 1,
        forall|i: int| 0 <= i < oks.len() ==> oks[i],
    ensures
        delivered(admission(m, id), oks) == admission(m, id),
        admission(m, id).len() == m.len() + 1,
        admission(m, id)[0] == MessageModel::UserId(id),
        forall|i: int| 0 <= i < m.len()
            ==> admission(m, id)[i + 1] == MessageModel::Location((#[trigger] m[i]).ul),
{
    lemma_delivered_all(admission(m, id), oks);
    assert forall|i: int| 0 <= i < m.len()
        implies admission(m, id)[i + 1] == MessageModel::Location((#[trigger] m[i]).ul) by {
        assert(admission(m, id)[i + 1]
            == m.map_values(|r: Rec| MessageModel::Location(r.ul))[i]);
    }
}

/// Fan-out completeness: every connection that survives a report — the
/// reporter itself included — has the reported position appended to its
/// message log, directly after everything it had received before the
/// report.
pub proof fn lemma_fan_out(
    m0: Seq<Rec>,
    m1: Seq<Rec>,
    upd: UserLocation,
    ev: Seq<int>,
    gone: Seq<Rec>,
    kicked: Set<int>,
    peer: int,
)
    requires
        report_post(m0, m1, upd, ev, gone, kicked),
        has_id(m1, peer),
    ensures
        rec_of(m1, peer).sent[rec_of(m0, peer).sent.len() as int] == MessageModel::Location(upd),
        rec_of(m1, peer).sent.contains(MessageModel::Location(upd)),
{
    let s0 = rec_of(m0, peer).sent;
    let s1 = rec_of(m1, peer).sent;
    assert(s1[s0.len() as int] == MessageModel::Location(upd));
    assert(0 <= s0.len() < s1.len());
}

/// Self-echo: a reporter that survives its own report finds its own
/// reported position in its message log.
pub proof fn lemma_self_echo(
    m0: Seq<Rec>,
    m1: Seq<Rec>,
    upd: UserLocation,
    ev: Seq<int>,
    gone: Seq<Rec>,
    kicked: Set<int>,
)
    requires
        report_post(m0, m1, upd, ev, gone, kicked),
        has_id(m1, upd.user_id as int),
    ensures
        rec_of(m1, upd.user_id as int).sent.contains(MessageModel::Location(upd)),
{
    lemma_fan_out(m0, m1, upd, ev, gone, kicked, upd.user_id as int);
}

/// Eviction correctness: an identity present before a report and gone after
/// it is named exactly once in the report's eviction notice; every survivor
/// whose channel accepted the notice has it as the last entry of its log;
/// and no admission snapshot taken afterwards mentions the evicted
/// identity.
pub proof fn lemma_eviction(
    m0: Seq<Rec>,
    m1: Seq<Rec>,
    upd: UserLocation,
    ev: Seq<int>,
    gone: Seq<Rec>,
    kicked: Set<int>,
    b: int,
    peer: int,
    newid: int,
)
    requires
        report_post(m0, m1, upd, ev, gone, kicked),
        has_id(m0, b),
        !has_id(m1, b),
        kicked.contains(peer),
    ensures
        ev.contains(b),
        ev.no_duplicates(),
        rec_of(m1, peer).sent.last() == MessageModel::Kickout(ev),
        forall|i: int| 0 <= i < m1.len()
            ==> admission(m1, newid)[i + 1] == MessageModel::Location((#[trigger] m1[i]).ul)
                && m1[i].id() != b,
{
    assert(ev.contains(b));
    assert(has_id(m1, peer));
    let s1 = rec_of(m1, peer).sent;
    assert(s1.last() == MessageModel::Kickout(ev));
    assert forall|i: int| 0 <= i < m1.len()
        implies admission(m1, newid)[i + 1] == MessageModel::Location((#[trigger] m1[i]).ul)
            && m1[i].id() != b by {
        assert(admission(m1, newid)[i + 1]
            == m1.map_values(|r: Rec| MessageModel::Location(r.ul))[i]);
        if m1[i].id() == b {
            assert(has_id(m1, b));
        }
    }
}

/// Eviction cause: an identity is evicted only because its channel refused
/// the offered position message — the connection's final record shows the
/// offer appended to its offer log and an acceptance log that did not grow.
/// A channel that accepts what it is offered is therefore never evicted.
pub proof fn lemma_eviction_cause(
    m0: Seq<Rec>,
    m1: Seq<Rec>,
    upd: UserLocation,
    ev: Seq<int>,
    gone: Seq<Rec>,
    kicked: Set<int>,
    b: int,
)
    requires
        report_post(m0, m1, upd, ev, gone, kicked),
        ev.contains(b),
    ensures
        exists|x: int|
            0 <= x < gone.len() && ev[x] == b
                && (#[trigger] gone[x]).offered == rec_of(m0, b).offered.push(
                MessageModel::Location(upd),
            ) && gone[x].sent == rec_of(m0, b).sent,
{
    let x = choose|x: int| 0 <= x < ev.len() && ev[x] == b;
    assert(gone[x].id() == ev[x] && step_refuse(rec_of(m0, ev[x]), gone[x], upd));
    assert(0 <= x < gone.len() && ev[x] == b
        && gone[x].offered == rec_of(m0, b).offered.push(MessageModel::Location(upd))
        && gone[x].sent == rec_of(m0, b).sent);
}

/// No self-eviction false-positive: an identity that survives a report — in
/// particular one whose channel accepted every message, that is, a live and
/// consuming connection — is never named in that report's eviction notice.
pub proof fn lemma_no_false_eviction(
    m0: Seq<Rec>,
    m1: Seq<Rec>,
    upd: UserLocation,
    ev: Seq<int>,
    gone: Seq<Rec>,
    kicked: Set<int>,
    id: int,
)
    requires
        report_post(m0, m1, upd, ev, gone, kicked),
        has_id(m1, id),
    ensures
        !ev.contains(id),
{
    if ev.contains(id) {
        assert(!has_id(m1, id));
    }
}

} // verus!
