use vstd::prelude::*;
use crate::event_hash::EventHash;
use crate::event_index::EventIndex;
use crate::packed_event::{Cause, Content, PackedEvent, content_hash};

verus! {

/// A node of the graph: a packed event with what the store derived for it.
#[derive(Clone, Debug)]
pub struct Event {
    pub packed: PackedEvent,
    pub hash: EventHash,
    /// Position of the self-parent in the store.
    pub self_parent: Option<usize>,
    /// Position of the other-parent in the store.
    pub other_parent: Option<usize>,
}

/// Why an event was not taken as it stood.
#[derive(Clone, Copy, Debug, PartialEq, Eq, Structural)]
pub enum GraphError {
    /// The identity service rejected the signature; nothing was stored.
    InvalidSignature,
    /// An event with the same hash is stored already; nothing was stored.
    DuplicateEvent,
    /// A parent hash names no stored event; nothing was stored.
    UnknownParent,
    /// The creator already has another event on the same self-parent. The
    /// event was stored, at the given index.
    ForkDetected(EventIndex),
}

/// An append-only store of events in topological order.
pub struct Graph {
    pub events: Vec<Event>,
    /// The round of each stored event, by index.
    pub rounds: Vec<u64>,
    /// How many distinct creators make a quorum.
    pub quorum: usize,
}

pub open spec fn parent_ok(events: Seq<Event>, i: int, link: Option<usize>, named: Option<EventHash>) -> bool {
    match link {
        None => named is None,
        Some(p) => p < i && named == Some(events[p as int].hash),
    }
}

/// Event `i` is consistent with the events before it.
pub open spec fn event_ok(events: Seq<Event>, i: int) -> bool {
    &&& events[i].hash == content_hash(events[i].packed.content)
    &&& parent_ok(events, i, events[i].self_parent, events[i].packed.content.self_parent)
    &&& parent_ok(events, i, events[i].other_parent, events[i].packed.content.other_parent)
}

pub open spec fn events_wf(events: Seq<Event>) -> bool {
    &&& forall|i: int| 0 <= i < events.len() ==> #[trigger] event_ok(events, i)
    &&& forall|i: int, j: int|
        0 <= i < events.len() && 0 <= j < events.len() && i != j ==> events[i].hash
            != events[j].hash
}

/// `a` lies in the causal history of `b` (or is `b`): it is reached from `b`
/// by following parent links.
pub open spec fn ancestor(events: Seq<Event>, a: int, b: int) -> bool
    decreases b,
{
    if b < 0 || b >= events.len() {
        false
    } else if a == b {
        true
    } else {
        (match events[b].self_parent {
            Some(p) => (p as int) < b && ancestor(events, a, p as int),
            None => false,
        }) || (match events[b].other_parent {
            Some(q) => (q as int) < b && ancestor(events, a, q as int),
            None => false,
        })
    }
}

pub open spec fn stored(events: Seq<Event>, h: EventHash) -> bool {
    exists|i: int| 0 <= i < events.len() && events[i].hash == h
}

/// Another stored event of the same creator stands on the same self-parent.
pub open spec fn forks(events: Seq<Event>, c: Content) -> bool {
    exists|j: int|
        0 <= j < events.len() && events[j].packed.content.creator == c.creator
            && events[j].packed.content.self_parent == c.self_parent
}

pub open spec fn parent_known(events: Seq<Event>, p: Option<EventHash>) -> bool {
    match p {
        None => true,
        Some(h) => stored(events, h),
    }
}

pub open spec fn creator_of(events: Seq<Event>, i: int) -> u64 {
    events[i].packed.content.creator
}

/// Two distinct events of creator `c` on the same self-parent lie in the
/// history of `a`.
pub open spec fn fork_seen(events: Seq<Event>, a: int, c: u64) -> bool {
    exists|x: int, y: int|
        0 <= x < y < events.len() && #[trigger] ancestor(events, x, a) && #[trigger] ancestor(events, y, a)
            && creator_of(events, x) == c && creator_of(events, y) == c
            && events[x].packed.content.self_parent == events[y].packed.content.self_parent
}

/// `a` sees `b`: `b` is in the history of `a`, and that history holds no
/// fork by the creator of `b`.
pub open spec fn sees(events: Seq<Event>, a: int, b: int) -> bool {
    ancestor(events, b, a) && !fork_seen(events, a, creator_of(events, b))
}

/// Event `e` relays `b` to `a`: `a` sees `e` and `e` sees `b`.
pub open spec fn relays(events: Seq<Event>, a: int, b: int, e: int) -> bool {
    0 <= e < events.len() && sees(events, a, e) && sees(events, e, b)
}

/// `e` satisfies `pred`, and no earlier event of its creator does.
pub open spec fn first_by_creator(events: Seq<Event>, pred: spec_fn(int) -> bool, e: int) -> bool {
    pred(e) && !exists|f: int|
        0 <= f < e && #[trigger] pred(f) && creator_of(events, f) == creator_of(events, e)
}

/// How many distinct creators made an event among the first `n` that
/// satisfies `pred`.
pub open spec fn distinct_creators(events: Seq<Event>, pred: spec_fn(int) -> bool, n: int) -> nat
    decreases n,
{
    if n <= 0 {
        0
    } else {
        distinct_creators(events, pred, n - 1) + if first_by_creator(events, pred, n - 1) {
            1nat
        } else {
            0nat
        }
    }
}

pub open spec fn relays_to(events: Seq<Event>, a: int, b: int) -> spec_fn(int) -> bool {
    |e: int| relays(events, a, b, e)
}

/// `a` strongly sees `b`: events of at least `quorum` distinct creators that
/// `a` sees each see `b`.
pub open spec fn strongly_sees(events: Seq<Event>, a: int, b: int, quorum: nat) -> bool {
    distinct_creators(events, relays_to(events, a, b), events.len() as int) >= quorum
}

pub open spec fn parent_round(rounds: Seq<u64>, link: Option<usize>) -> int {
    match link {
        None => 0,
        Some(p) => rounds[p as int] as int,
    }
}

/// The larger of the rounds of the parents of event `i` (zero for a genesis
/// event).
pub open spec fn base_round(events: Seq<Event>, rounds: Seq<u64>, i: int) -> int {
    let s = parent_round(rounds, events[i].self_parent);
    let o = parent_round(rounds, events[i].other_parent);
    if s >= o {
        s
    } else {
        o
    }
}

/// Earlier events of round `r` that event `i` strongly sees.
pub open spec fn round_witness(events: Seq<Event>, rounds: Seq<u64>, i: int, r: int, quorum: nat) -> spec_fn(int) -> bool {
    |x: int| 0 <= x < i && rounds[x] as int == r && strongly_sees(events, i, x, quorum)
}

/// The round of the last event of `events`, given the rounds of all the
/// others: the base round of its parents, one more where it strongly sees
/// events of that round by a quorum of distinct creators.
pub open spec fn round_rule(events: Seq<Event>, rounds: Seq<u64>, quorum: nat) -> int {
    let i = events.len() - 1;
    let r = base_round(events, rounds, i);
    if distinct_creators(events, round_witness(events, rounds, i, r, quorum), i) >= quorum {
        r + 1
    } else {
        r
    }
}

pub open spec fn rounds_wf(events: Seq<Event>, rounds: Seq<u64>, quorum: nat) -> bool {
    &&& rounds.len() == events.len()
    &&& forall|i: int|
        0 <= i < rounds.len() ==> #[trigger] rounds[i] as int == round_rule(
            events.subrange(0, i + 1),
            rounds.subrange(0, i),
            quorum,
        ) && rounds[i] <= i + 1
}

/// Rounds never decrease from parent to child, and an event's round exceeds
/// the larger of its parents' rounds by at most one; so where the
/// other-parent's round is no greater than the self-parent's, the round is
/// at most the self-parent's round plus one.
pub proof fn lemma_round_monotone(events: Seq<Event>, rounds: Seq<u64>, quorum: nat, i: int)
    requires
        events_wf(events),
        rounds_wf(events, rounds, quorum),
        0 <= i < events.len(),
    ensures
        events[i].self_parent matches Some(p) ==> rounds[p as int] <= rounds[i],
        events[i].other_parent matches Some(q) ==> rounds[q as int] <= rounds[i],
        rounds[i] <= base_round(events, rounds, i) + 1,
        events[i].self_parent matches Some(p) ==> (parent_round(rounds, events[i].other_parent)
            <= rounds[p as int] ==> rounds[i] <= rounds[p as int] + 1),
{
    assert(event_ok(events, i));
    let pre = events.subrange(0, i + 1);
    let pr = rounds.subrange(0, i);
    assert(rounds[i] as int == round_rule(pre, pr, quorum));
    assert(pre[i] == events[i]);
    match events[i].self_parent {
        Some(p) => { assert(pr[p as int] == rounds[p as int]); },
        None => {},
    }
    match events[i].other_parent {
        Some(q) => { assert(pr[q as int] == rounds[q as int]); },
        None => {},
    }
    assert(base_round(pre, pr, i) == base_round(events, rounds, i));
}

/// Two distinct stored events of creator `c` stand on the same self-parent.
pub open spec fn forked(events: Seq<Event>, c: u64) -> bool {
    exists|x: int, y: int|
        0 <= x < y < events.len() && #[trigger] creator_of(events, x) == c && #[trigger] creator_of(events, y) == c
            && events[x].packed.content.self_parent == events[y].packed.content.self_parent
}

/// Creator `me` has stored an accusation against `c`.
pub open spec fn accused(events: Seq<Event>, me: u64, c: u64) -> bool {
    exists|i: int|
        0 <= i < events.len() && creator_of(events, i) == me
            && #[trigger] events[i].packed.content.cause == Cause::Accusation(c)
}

/// `me` owes an accusation against `c`: `c` forked and `me` has not accused it.
pub open spec fn accusation_due(events: Seq<Event>, me: u64, c: u64) -> bool {
    forked(events, c) && !accused(events, me, c)
}

/// A fork stays detected as the store grows, and once `me` has stored one
/// accusation against `c`, no later state of the store asks `me` for another.
pub proof fn lemma_single_accusation(events: Seq<Event>, e: Event, more: Seq<Event>, me: u64, c: u64)
    requires
        e.packed.content.creator == me,
        e.packed.content.cause == Cause::Accusation(c),
    ensures
        forked(events, c) ==> forked(events + more, c),
        !accusation_due(events.push(e) + more, me, c),
{
    let all = events.push(e) + more;
    let n = events.len() as int;
    assert(all[n] == e);
    assert(creator_of(all, n) == me);
    assert(all[n].packed.content.cause == Cause::Accusation(c));
    if forked(events, c) {
        let (x, y) = choose|x: int, y: int|
            0 <= x < y < events.len() && #[trigger] creator_of(events, x) == c && #[trigger] creator_of(events, y) == c
                && events[x].packed.content.self_parent == events[y].packed.content.self_parent;
        let ext = events + more;
        assert(ext[x] == events[x] && ext[y] == events[y]);
        assert(creator_of(ext, x) == c && creator_of(ext, y) == c);
    }
}

/// Where `w` lists events among the first `n`, each satisfying `pred`, with
/// pairwise distinct creators, at least `w.len()` distinct creators made an
/// event among the first `n` that satisfies `pred`.
pub proof fn lemma_distinct_creators_at_least(events: Seq<Event>, pred: spec_fn(int) -> bool, n: int, w: Seq<int>)
    requires
        forall|i: int| 0 <= i < w.len() ==> 0 <= #[trigger] w[i] < n && pred(w[i]),
        forall|i: int, j: int|
            0 <= i < w.len() && 0 <= j < w.len() && i != j ==> creator_of(events, #[trigger] w[i])
                != creator_of(events, #[trigger] w[j]),
    ensures
        distinct_creators(events, pred, n) >= w.len(),
    decreases n,
{
    if n <= 0 {
        if w.len() > 0 {
            assert(0 <= w[0] < n);
        }
    } else {
        let last = n - 1;
        if exists|i: int| 0 <= i < w.len() && w[i] == last {
            let i = choose|i: int| 0 <= i < w.len() && w[i] == last;
            if first_by_creator(events, pred, last) {
                let w2 = w.remove(i);
                assert forall|k: int| 0 <= k < w2.len() implies 0 <= #[trigger] w2[k] < last && pred(w2[k]) by {
                    if k < i {
                        assert(w2[k] == w[k]);
                    } else {
                        assert(w2[k] == w[k + 1]);
                    }
                }
                assert forall|a: int, b: int|
                    0 <= a < w2.len() && 0 <= b < w2.len() && a != b implies creator_of(events, #[trigger] w2[a])
                        != creator_of(events, #[trigger] w2[b]) by {
                    let a1 = if a < i { a } else { a + 1 };
                    let b1 = if b < i { b } else { b + 1 };
                    assert(w2[a] == w[a1] && w2[b] == w[b1]);
                }
                lemma_distinct_creators_at_least(events, pred, last, w2);
            } else {
                let f = choose|f: int|
                    0 <= f < last && #[trigger] pred(f) && creator_of(events, f) == creator_of(events, last);
                let w2 = w.update(i, f);
                assert forall|k: int| 0 <= k < w2.len() implies 0 <= #[trigger] w2[k] < last && pred(w2[k]) by {
                    if k != i {
                        assert(w2[k] == w[k]);
                        assert(creator_of(events, w[k]) != creator_of(events, w[i]));
                    }
                }
                assert forall|a: int, b: int|
                    0 <= a < w2.len() && 0 <= b < w2.len() && a != b implies creator_of(events, #[trigger] w2[a])
                        != creator_of(events, #[trigger] w2[b]) by {
                    assert(creator_of(events, w[a]) != creator_of(events, w[b]));
                }
                lemma_distinct_creators_at_least(events, pred, last, w2);
            }
        } else {
            assert forall|k: int| 0 <= k < w.len() implies 0 <= #[trigger] w[k] < last && pred(w[k]) by {
                assert(w[k] != last);
            }
            lemma_distinct_creators_at_least(events, pred, last, w);
        }
    }
}

/// `events` is the store as it stood before the events that follow it in `ext`.
pub open spec fn is_prefix(events: Seq<Event>, ext: Seq<Event>) -> bool {
    events.len() <= ext.len() && events == ext.subrange(0, events.len() as int)
}

proof fn lemma_ancestor_prefix(events: Seq<Event>, ext: Seq<Event>, a: int, b: int)
    requires
        is_prefix(events, ext),
        b < events.len(),
    ensures
        ancestor(ext, a, b) == ancestor(events, a, b),
    decreases b,
{
    if b >= 0 {
        assert(ext[b] == events[b]);
        match events[b].self_parent {
            Some(p) => {
                if (p as int) < b {
                    lemma_ancestor_prefix(events, ext, a, p as int);
                }
            },
            None => {},
        }
        match events[b].other_parent {
            Some(q) => {
                if (q as int) < b {
                    lemma_ancestor_prefix(events, ext, a, q as int);
                }
            },
            None => {},
        }
    }
}

proof fn lemma_sees_prefix(events: Seq<Event>, ext: Seq<Event>, a: int, b: int)
    requires
        is_prefix(events, ext),
        0 <= a < events.len(),
        0 <= b < events.len(),
    ensures
        sees(ext, a, b) == sees(events, a, b),
{
    lemma_ancestor_prefix(events, ext, b, a);
    assert(ext[b] == events[b]);
    let c = creator_of(events, b);
    if fork_seen(ext, a, c) {
        let (x, y) = choose|x: int, y: int|
            0 <= x < y < ext.len() && #[trigger] ancestor(ext, x, a) && #[trigger] ancestor(ext, y, a)
                && creator_of(ext, x) == c && creator_of(ext, y) == c
                && ext[x].packed.content.self_parent == ext[y].packed.content.self_parent;
        lemma_ancestor_precedes(ext, y, a);
        lemma_ancestor_prefix(events, ext, x, a);
        lemma_ancestor_prefix(events, ext, y, a);
        assert(ext[x] == events[x] && ext[y] == events[y]);
        assert(fork_seen(events, a, c));
    }
    if fork_seen(events, a, c) {
        let (x, y) = choose|x: int, y: int|
            0 <= x < y < events.len() && #[trigger] ancestor(events, x, a) && #[trigger] ancestor(events, y, a)
                && creator_of(events, x) == c && creator_of(events, y) == c
                && events[x].packed.content.self_parent == events[y].packed.content.self_parent;
        lemma_ancestor_prefix(events, ext, x, a);
        lemma_ancestor_prefix(events, ext, y, a);
        assert(ext[x] == events[x] && ext[y] == events[y]);
        assert(fork_seen(ext, a, c));
    }
}

/// Counts of distinct creators agree where the predicates and the creators
/// agree on the events counted.
pub proof fn lemma_distinct_creators_agree(
    events: Seq<Event>,
    ext: Seq<Event>,
    p: spec_fn(int) -> bool,
    p_ext: spec_fn(int) -> bool,
    m: int,
)
    requires
        m <= events.len(),
        is_prefix(events, ext),
        forall|k: int| 0 <= k < m ==> #[trigger] p(k) == p_ext(k),
    ensures
        distinct_creators(events, p, m) == distinct_creators(ext, p_ext, m),
    decreases m,
{
    if m > 0 {
        lemma_distinct_creators_agree(events, ext, p, p_ext, m - 1);
        assert(ext[m - 1] == events[m - 1]);
        if first_by_creator(events, p, m - 1) != first_by_creator(ext, p_ext, m - 1) {
            if first_by_creator(events, p, m - 1) {
                let f = choose|f: int|
                    0 <= f < m - 1 && #[trigger] p_ext(f) && creator_of(ext, f) == creator_of(ext, m - 1);
                assert(ext[f] == events[f]);
                assert(p(f));
            } else {
                let f = choose|f: int|
                    0 <= f < m - 1 && #[trigger] p(f) && creator_of(events, f) == creator_of(events, m - 1);
                assert(ext[f] == events[f]);
                assert(p_ext(f));
            }
        }
    }
}

/// Counting over more events never finds fewer creators.
pub proof fn lemma_distinct_creators_grow(events: Seq<Event>, p: spec_fn(int) -> bool, m: int, n: int)
    requires
        m <= n,
    ensures
        distinct_creators(events, p, m) <= distinct_creators(events, p, n),
    decreases n - m,
{
    if m < n {
        lemma_distinct_creators_grow(events, p, m, n - 1);
    }
}

/// What the store said of whether one stored event strongly sees another
/// stays true as later events are added.
pub proof fn lemma_strongly_sees_prefix(events: Seq<Event>, ext: Seq<Event>, a: int, b: int, quorum: nat)
    requires
        is_prefix(events, ext),
        0 <= a < events.len(),
        0 <= b < events.len(),
    ensures
        strongly_sees(ext, a, b, quorum) == strongly_sees(events, a, b, quorum),
{
    let n = events.len() as int;
    let p = relays_to(events, a, b);
    let p_ext = relays_to(ext, a, b);
    assert forall|k: int| 0 <= k < n implies #[trigger] p(k) == p_ext(k) by {
        lemma_sees_prefix(events, ext, a, k);
        lemma_sees_prefix(events, ext, k, b);
    }
    lemma_distinct_creators_agree(events, ext, p, p_ext, n);
    assert forall|k: int| n <= k < ext.len() implies !#[trigger] p_ext(k) by {
        if ancestor(ext, k, a) {
            lemma_ancestor_precedes(ext, k, a);
        }
    }
    lemma_distinct_creators_tail(ext, p_ext, n, ext.len() as int);
}

proof fn lemma_distinct_creators_tail(events: Seq<Event>, p: spec_fn(int) -> bool, m: int, n: int)
    requires
        m <= n,
        forall|k: int| m <= k < n ==> !#[trigger] p(k),
    ensures
        distinct_creators(events, p, n) == distinct_creators(events, p, m),
    decreases n - m,
{
    if m < n {
        lemma_distinct_creators_tail(events, p, m, n - 1);
    }
}

/// Every ancestor of an event was stored no later than the event itself.
pub proof fn lemma_ancestor_precedes(events: Seq<Event>, a: int, b: int)
    requires
        ancestor(events, a, b),
    ensures
        a <= b,
        0 <= a,
    decreases b,
{
    if a != b {
        match events[b].self_parent {
            Some(p) => {
                if (p as int) < b && ancestor(events, a, p as int) {
                    lemma_ancestor_precedes(events, a, p as int);
                }
            },
            None => {},
        }
        match events[b].other_parent {
            Some(q) => {
                if (q as int) < b && ancestor(events, a, q as int) {
                    lemma_ancestor_precedes(events, a, q as int);
                }
            },
            None => {},
        }
    }
}

/// The graph is acyclic: in a well-formed store each parent of an event was
/// stored strictly before it, and no two distinct events are ancestors of one
/// another.
pub proof fn lemma_acyclic(events: Seq<Event>, a: int, b: int)
    requires
        events_wf(events),
        0 <= b < events.len(),
    ensures
        events[b].self_parent matches Some(p) ==> p < b,
        events[b].other_parent matches Some(q) ==> q < b,
        a != b && ancestor(events, a, b) ==> !ancestor(events, b, a),
{
    assert(event_ok(events, b));
    if a != b && ancestor(events, a, b) && ancestor(events, b, a) {
        lemma_ancestor_precedes(events, a, b);
        lemma_ancestor_precedes(events, b, a);
    }
}

/// Ancestry is a partial order over the stored events: reflexive,
/// antisymmetric and transitive.
pub proof fn lemma_ancestor_partial_order(events: Seq<Event>, a: int, b: int, c: int)
    requires
        0 <= a < events.len(),
        0 <= b < events.len(),
        0 <= c < events.len(),
    ensures
        ancestor(events, a, a),
        ancestor(events, a, b) && ancestor(events, b, a) ==> a == b,
        ancestor(events, a, b) && ancestor(events, b, c) ==> ancestor(events, a, c),
{
    if ancestor(events, a, b) && ancestor(events, b, a) {
        lemma_ancestor_precedes(events, a, b);
        lemma_ancestor_precedes(events, b, a);
    }
    if ancestor(events, a, b) && ancestor(events, b, c) {
        lemma_ancestor_trans(events, a, b, c);
    }
}

proof fn lemma_ancestor_trans(events: Seq<Event>, a: int, b: int, c: int)
    requires
        ancestor(events, a, b),
        ancestor(events, b, c),
    ensures
        ancestor(events, a, c),
    decreases c,
{
    if b != c {
        match events[c].self_parent {
            Some(p) => {
                if (p as int) < c && ancestor(events, b, p as int) {
                    lemma_ancestor_trans(events, a, b, p as int);
                }
            },
            None => {},
        }
        match events[c].other_parent {
            Some(q) => {
                if (q as int) < c && ancestor(events, b, q as int) {
                    lemma_ancestor_trans(events, a, b, q as int);
                }
            },
            None => {},
        }
    }
}

fn holds(v: &Vec<u64>, c: u64) -> (r: bool)
    ensures
        r == v@.contains(c),
{
    let mut i: usize = 0;
    while i < v.len()
        invariant
            i <= v@.len(),
            forall|k: int| 0 <= k < i ==> v@[k] != c,
        decreases v@.len() - i,
    {
        if v[i] == c {
            return true;
        }
        i = i + 1;
    }
    false
}

impl Graph {
    pub open spec fn wf(&self) -> bool {
        &&& self.links_wf()
        &&& rounds_wf(self.events@, self.rounds@, self.quorum as nat)
    }

    /// Hashes and parent links are consistent.
    pub open spec fn links_wf(&self) -> bool {
        events_wf(self.events@)
    }

    pub open spec fn len(&self) -> nat {
        self.events@.len()
    }

    /// An empty graph whose rounds advance on a quorum of `quorum` creators.
    pub fn new(quorum: usize) -> (r: Graph)
        ensures
            r.wf(),
            r.len() == 0,
            r.quorum == quorum,
    {
        Graph { events: Vec::new(), rounds: Vec::new(), quorum }
    }

    /// The round of a stored event.
    pub fn round(&self, index: EventIndex) -> (r: u64)
        requires
            self.wf(),
            index.0 < self.len(),
        ensures
            r == self.rounds@[index.0 as int],
    {
        self.rounds[index.0]
    }

    /// The round of the last stored event, from the rounds of those before it.
    fn compute_round(&self) -> (r: u64)
        requires
            self.links_wf(),
            self.len() >= 1,
            self.rounds@.len() == self.len() - 1,
            forall|x: int| 0 <= x < self.rounds@.len() ==> self.rounds@[x] <= x + 1,
        ensures
            r as int == round_rule(self.events@, self.rounds@, self.quorum as nat),
            r <= self.len(),
    {
        let i = self.events.len() - 1;
        proof {
            assert(event_ok(self.events@, i as int));
        }
        let ev = &self.events[i];
        let s: u64 = match ev.self_parent {
            Some(p) => self.rounds[p],
            None => 0,
        };
        let o: u64 = match ev.other_parent {
            Some(q) => self.rounds[q],
            None => 0,
        };
        let base = if s >= o { s } else { o };
        assert(base as int == base_round(self.events@, self.rounds@, i as int));
        let ghost pred = round_witness(self.events@, self.rounds@, i as int, base as int, self.quorum as nat);
        let mut marks: Vec<bool> = Vec::new();
        let mut x: usize = 0;
        while x < i
            invariant
                self.links_wf(),
                i == self.events@.len() - 1,
                pred == round_witness(self.events@, self.rounds@, i as int, base as int, self.quorum as nat),
                self.rounds@.len() == i,
                base <= i,
                x <= i,
                marks@.len() == x,
                forall|k: int| 0 <= k < x ==> marks@[k] == pred(k),
            decreases i - x,
        {
            let m = self.rounds[x] == base && self.strongly_sees(EventIndex(i), EventIndex(x), self.quorum);
            marks.push(m);
            x = x + 1;
        }
        let count = self.count_creators(&marks, Ghost(pred));
        if count >= self.quorum {
            base + 1
        } else {
            base
        }
    }

    pub fn event_count(&self) -> (r: usize)
        ensures
            r == self.len(),
    {
        self.events.len()
    }

    /// The stored event at `index`, if any.
    pub fn get(&self, index: EventIndex) -> (r: Option<&Event>)
        ensures
            index.0 < self.len() ==> r == Some(&self.events@[index.0 as int]),
            index.0 >= self.len() ==> r is None,
    {
        if index.0 < self.events.len() {
            Some(&self.events[index.0])
        } else {
            None
        }
    }

    /// The index of the stored event with hash `h`, if any.
    pub fn find(&self, h: EventHash) -> (r: Option<EventIndex>)
        ensures
            match r {
                Some(i) => i.0 < self.len() && self.events@[i.0 as int].hash == h,
                None => !stored(self.events@, h),
            },
    {
        let mut i: usize = 0;
        while i < self.events.len()
            invariant
                i <= self.events@.len(),
                forall|j: int| 0 <= j < i ==> self.events@[j].hash != h,
            decreases self.events@.len() - i,
        {
            if self.events[i].hash == h {
                return Some(EventIndex(i));
            }
            i = i + 1;
        }
        None
    }


    /// Whether event `a` lies in the causal history of event `b` (an event
    /// is in its own history).
    pub fn is_ancestor(&self, a: EventIndex, b: EventIndex) -> (r: bool)
        requires
            self.links_wf(),
            a.0 < self.len(),
            b.0 < self.len(),
        ensures
            r == ancestor(self.events@, a.0 as int, b.0 as int),
    {
        let marks = self.history_marks(a);
        marks[b.0]
    }

    /// For each stored event, whether `a` is in its history.
    fn history_marks(&self, a: EventIndex) -> (marks: Vec<bool>)
        requires
            self.links_wf(),
        ensures
            marks@.len() == self.len(),
            forall|k: int| 0 <= k < marks@.len() ==> marks@[k] == ancestor(self.events@, a.0 as int, k),
    {
        let mut marks: Vec<bool> = Vec::new();
        let mut k: usize = 0;
        while k < self.events.len()
            invariant
                self.links_wf(),
                k <= self.events@.len(),
                marks@.len() == k,
                forall|i: int| 0 <= i < k ==> marks@[i] == ancestor(self.events@, a.0 as int, i),
            decreases self.events@.len() - k,
        {
            proof {
                assert(event_ok(self.events@, k as int));
            }
            let e = &self.events[k];
            let via_self = match e.self_parent {
                Some(p) => marks[p],
                None => false,
            };
            let via_other = match e.other_parent {
                Some(q) => marks[q],
                None => false,
            };
            marks.push(k == a.0 || via_self || via_other);
            k = k + 1;
        }
        marks
    }


    /// For each stored event, whether it lies in the history of `a`.
    fn history_of(&self, a: EventIndex) -> (marks: Vec<bool>)
        requires
            self.links_wf(),
            a.0 < self.len(),
        ensures
            marks@.len() == self.len(),
            forall|x: int| 0 <= x < marks@.len() ==> marks@[x] == ancestor(self.events@, x, a.0 as int),
    {
        let mut marks: Vec<bool> = Vec::new();
        let mut x: usize = 0;
        while x < self.events.len()
            invariant
                self.links_wf(),
                a.0 < self.events@.len(),
                x <= self.events@.len(),
                marks@.len() == x,
                forall|i: int| 0 <= i < x ==> marks@[i] == ancestor(self.events@, i, a.0 as int),
            decreases self.events@.len() - x,
        {
            let m = self.is_ancestor(EventIndex(x), a);
            marks.push(m);
            x = x + 1;
        }
        marks
    }

    /// Whether the history of `a` holds a fork by creator `c`.
    fn sees_fork_by(&self, a: EventIndex, c: u64) -> (r: bool)
        requires
            self.links_wf(),
            a.0 < self.len(),
        ensures
            r == fork_seen(self.events@, a.0 as int, c),
    {
        let hist = self.history_of(a);
        let n = self.events.len();
        let mut x: usize = 0;
        while x < n
            invariant
                n == self.events@.len(),
                hist@.len() == n,
                forall|i: int| 0 <= i < n ==> hist@[i] == ancestor(self.events@, i, a.0 as int),
                x <= n,
                forall|i: int, j: int|
                    0 <= i < x && i < j < n ==> !(ancestor(self.events@, i, a.0 as int)
                        && ancestor(self.events@, j, a.0 as int) && creator_of(self.events@, i) == c
                        && creator_of(self.events@, j) == c
                        && self.events@[i].packed.content.self_parent
                        == self.events@[j].packed.content.self_parent),
            decreases n - x,
        {
            let ex = &self.events[x];
            if hist[x] && ex.packed.content.creator == c {
                let mut y: usize = x + 1;
                while y < n
                    invariant
                        n == self.events@.len(),
                        hist@.len() == n,
                        forall|i: int| 0 <= i < n ==> hist@[i] == ancestor(self.events@, i, a.0 as int),
                        x < y <= n,
                        hist@[x as int],
                        ex.packed.content.creator == c,
                        ex == self.events@[x as int],
                        forall|j: int|
                            x < j < y ==> !(ancestor(self.events@, j, a.0 as int) && creator_of(self.events@, j) == c
                                && ex.packed.content.self_parent
                                == self.events@[j].packed.content.self_parent),
                    decreases n - y,
                {
                    let ey = &self.events[y];
                    if hist[y] && ey.packed.content.creator == c
                        && ey.packed.content.self_parent == ex.packed.content.self_parent {
                        assert(ancestor(self.events@, x as int, a.0 as int));
                        assert(ancestor(self.events@, y as int, a.0 as int));
                        return true;
                    }
                    y = y + 1;
                }
            }
            x = x + 1;
        }
        false
    }

    /// Whether `a` sees `b`: `b` is in the history of `a`, and no fork by the
    /// creator of `b` is.
    pub fn sees(&self, a: EventIndex, b: EventIndex) -> (r: bool)
        requires
            self.links_wf(),
            a.0 < self.len(),
            b.0 < self.len(),
        ensures
            r == sees(self.events@, a.0 as int, b.0 as int),
    {
        self.is_ancestor(b, a) && !self.sees_fork_by(a, self.events[b.0].packed.content.creator)
    }

    /// Whether `a` strongly sees `b`: at least `quorum` distinct creators have
    /// an event that `a` sees and that sees `b`.
    pub fn strongly_sees(&self, a: EventIndex, b: EventIndex, quorum: usize) -> (r: bool)
        requires
            self.links_wf(),
            a.0 < self.len(),
            b.0 < self.len(),
        ensures
            r == strongly_sees(self.events@, a.0 as int, b.0 as int, quorum as nat),
    {
        self.count_relay_creators(a, b) >= quorum
    }

    /// The number of distinct creators whose events relay `b` to `a`.
    pub fn count_relay_creators(&self, a: EventIndex, b: EventIndex) -> (r: usize)
        requires
            self.links_wf(),
            a.0 < self.len(),
            b.0 < self.len(),
        ensures
            r == distinct_creators(self.events@, relays_to(self.events@, a.0 as int, b.0 as int), self.len() as int),
    {
        let ghost pred = relays_to(self.events@, a.0 as int, b.0 as int);
        let n = self.events.len();
        let mut marks: Vec<bool> = Vec::new();
        let mut e: usize = 0;
        while e < n
            invariant
                self.links_wf(),
                pred == relays_to(self.events@, a.0 as int, b.0 as int),
                n == self.events@.len(),
                a.0 < n,
                b.0 < n,
                e <= n,
                marks@.len() == e,
                forall|i: int| 0 <= i < e ==> marks@[i] == pred(i),
            decreases n - e,
        {
            let m = self.sees(a, EventIndex(e)) && self.sees(EventIndex(e), b);
            marks.push(m);
            e = e + 1;
        }
        self.count_creators(&marks, Ghost(pred))
    }

    /// The number of distinct creators among the events whose mark is set.
    pub(crate) fn count_creators(&self, marks: &Vec<bool>, Ghost(pred): Ghost<spec_fn(int) -> bool>) -> (r: usize)
        requires
            marks@.len() <= self.len(),
            forall|i: int| 0 <= i < marks@.len() ==> marks@[i] == pred(i),
        ensures
            r == distinct_creators(self.events@, pred, marks@.len() as int),
            r <= marks@.len(),
    {
        let ghost g = self.events@;
        let n = marks.len();
        let mut count: usize = 0;
        let mut e: usize = 0;
        while e < n
            invariant
                g == self.events@,
                n == marks@.len(),
                n <= g.len(),
                forall|i: int| 0 <= i < n ==> marks@[i] == pred(i),
                e <= n,
                count == distinct_creators(g, pred, e as int),
                count <= e,
            decreases n - e,
        {
            let mut first = marks[e];
            if first {
                let ce = self.events[e].packed.content.creator;
                let mut f: usize = 0;
                while f < e
                    invariant
                        g == self.events@,
                        n == marks@.len(),
                        n <= g.len(),
                        forall|i: int| 0 <= i < n ==> marks@[i] == pred(i),
                        f <= e < n,
                        ce == creator_of(g, e as int),
                        pred(e as int),
                        first <==> forall|i: int| 0 <= i < f ==> !(#[trigger] pred(i) && creator_of(g, i) == ce),
                    decreases e - f,
                {
                    if marks[f] && self.events[f].packed.content.creator == ce {
                        first = false;
                    }
                    f = f + 1;
                }
            }
            proof {
                assert(first == first_by_creator(g, pred, e as int));
            }
            if first {
                count = count + 1;
            }
            e = e + 1;
        }
        count
    }


    /// Whether `me` owes an accusation against `offender`.
    pub fn accusation_due(&self, me: u64, offender: u64) -> (r: bool)
        ensures
            r == accusation_due(self.events@, me, offender),
    {
        self.has_forked(offender) && !self.has_accused(me, offender)
    }

    /// The creators against which `me` owes an accusation, each once, in the
    /// order of their forks in the store.
    pub fn accusations_due(&self, me: u64) -> (r: Vec<u64>)
        ensures
            forall|c: u64| r@.contains(c) <==> accusation_due(self.events@, me, c),
            r@.no_duplicates(),
    {
        let mut out: Vec<u64> = Vec::new();
        let mut i: usize = 0;
        while i < self.events.len()
            invariant
                i <= self.events@.len(),
                out@.no_duplicates(),
                forall|c: u64| out@.contains(c) ==> accusation_due(self.events@, me, c),
                forall|k: int| 0 <= k < i ==> (accusation_due(self.events@, me, #[trigger] creator_of(self.events@, k))
                    ==> out@.contains(creator_of(self.events@, k))),
            decreases self.events@.len() - i,
        {
            let c = self.events[i].packed.content.creator;
            let ghost prev = out@;
            if !holds(&out, c) && self.accusation_due(me, c) {
                out.push(c);
                proof {
                    assert forall|d: u64| out@.contains(d) implies accusation_due(self.events@, me, d) by {
                        let j = choose|j: int| 0 <= j < out@.len() && out@[j] == d;
                        if j < prev.len() {
                            assert(prev[j] == d);
                            assert(prev.contains(d));
                        } else {
                            assert(d == c);
                        }
                    }
                    assert forall|k: int| 0 <= k < i + 1 && accusation_due(self.events@, me, #[trigger] creator_of(self.events@, k))
                        implies out@.contains(creator_of(self.events@, k)) by {
                        if k < i {
                            let j = choose|j: int| 0 <= j < prev.len() && prev[j] == creator_of(self.events@, k);
                            assert(out@[j] == prev[j]);
                        } else {
                            assert(out@[prev.len() as int] == c);
                        }
                    }
                }
            }
            i = i + 1;
        }
        proof {
            assert forall|c: u64| accusation_due(self.events@, me, c) implies out@.contains(c) by {
                let (x, y) = choose|x: int, y: int|
                    0 <= x < y < self.events@.len() && #[trigger] creator_of(self.events@, x) == c
                        && #[trigger] creator_of(self.events@, y) == c
                        && self.events@[x].packed.content.self_parent == self.events@[y].packed.content.self_parent;
                assert(creator_of(self.events@, x) == c);
            }
        }
        out
    }

    fn has_forked(&self, c: u64) -> (r: bool)
        ensures
            r == forked(self.events@, c),
    {
        let n = self.events.len();
        let mut x: usize = 0;
        while x < n
            invariant
                n == self.events@.len(),
                x <= n,
                forall|i: int, j: int|
                    0 <= i < x && i < j < n ==> !(creator_of(self.events@, i) == c && creator_of(self.events@, j) == c
                        && self.events@[i].packed.content.self_parent
                        == self.events@[j].packed.content.self_parent),
            decreases n - x,
        {
            let ex = &self.events[x];
            if ex.packed.content.creator == c {
                let mut y: usize = x + 1;
                while y < n
                    invariant
                        n == self.events@.len(),
                        x < y <= n,
                        ex == self.events@[x as int],
                        ex.packed.content.creator == c,
                        forall|j: int|
                            x < j < y ==> !(creator_of(self.events@, j) == c
                                && ex.packed.content.self_parent == self.events@[j].packed.content.self_parent),
                    decreases n - y,
                {
                    let ey = &self.events[y];
                    if ey.packed.content.creator == c && ey.packed.content.self_parent == ex.packed.content.self_parent {
                        assert(creator_of(self.events@, x as int) == c);
                        assert(creator_of(self.events@, y as int) == c);
                        return true;
                    }
                    y = y + 1;
                }
            }
            x = x + 1;
        }
        false
    }

    fn has_accused(&self, me: u64, c: u64) -> (r: bool)
        ensures
            r == accused(self.events@, me, c),
    {
        let mut i: usize = 0;
        while i < self.events.len()
            invariant
                i <= self.events@.len(),
                forall|k: int| 0 <= k < i ==> !(creator_of(self.events@, k) == me
                    && #[trigger] self.events@[k].packed.content.cause == Cause::Accusation(c)),
            decreases self.events@.len() - i,
        {
            let e = &self.events[i];
            if e.packed.content.creator == me && e.packed.content.cause == Cause::Accusation(c) {
                return true;
            }
            i = i + 1;
        }
        false
    }

    /// The most recently stored event of `creator`, if any.
    pub fn last_event_of(&self, creator: u64) -> (r: Option<EventIndex>)
        ensures
            match r {
                Some(i) => i.0 < self.len() && creator_of(self.events@, i.0 as int) == creator
                    && forall|k: int| i.0 < k < self.len() ==> creator_of(self.events@, k) != creator,
                None => forall|k: int| 0 <= k < self.len() ==> creator_of(self.events@, k) != creator,
            },
    {
        let mut i: usize = self.events.len();
        while i > 0
            invariant
                i <= self.events@.len(),
                forall|k: int| i <= k < self.events@.len() ==> creator_of(self.events@, k) != creator,
            decreases i,
        {
            i = i - 1;
            if self.events[i].packed.content.creator == creator {
                return Some(EventIndex(i));
            }
        }
        None
    }

    fn resolve(&self, p: Option<EventHash>) -> (r: Result<Option<usize>, GraphError>)
        ensures
            r is Ok <==> parent_known(self.events@, p),
            r matches Ok(link) ==> parent_ok(self.events@, self.events@.len() as int, link, p),
            r matches Err(e) ==> e == GraphError::UnknownParent,
    {
        match p {
            None => Ok(None),
            Some(h) => match self.find(h) {
                Some(i) => Ok(Some(i.0)),
                None => Err(GraphError::UnknownParent),
            },
        }
    }

    fn would_fork(&self, c: &Content) -> (r: bool)
        ensures
            r == forks(self.events@, *c),
    {
        let mut j: usize = 0;
        while j < self.events.len()
            invariant
                j <= self.events@.len(),
                forall|k: int|
                    0 <= k < j ==> !(self.events@[k].packed.content.creator == c.creator
                        && self.events@[k].packed.content.self_parent == c.self_parent),
            decreases self.events@.len() - j,
        {
            let e = &self.events[j];
            if e.packed.content.creator == c.creator && e.packed.content.self_parent == c.self_parent {
                return true;
            }
            j = j + 1;
        }
        false
    }

    /// Takes a received event into the store. `signature_valid` is what the
    /// identity service said of the event's signature.
    pub fn insert(&mut self, packed: PackedEvent, signature_valid: bool) -> (r: Result<EventIndex, GraphError>)
        requires
            old(self).wf(),
            old(self).len() < usize::MAX,
        ensures
            final(self).wf(),
            !signature_valid <==> r == Err::<EventIndex, GraphError>(GraphError::InvalidSignature),
            signature_valid && stored(old(self).events@, content_hash(packed.content))
                <==> r == Err::<EventIndex, GraphError>(GraphError::DuplicateEvent),
            signature_valid && !stored(old(self).events@, content_hash(packed.content)) && !(
            parent_known(old(self).events@, packed.content.self_parent) && parent_known(
                old(self).events@,
                packed.content.other_parent,
            )) <==> r == Err::<EventIndex, GraphError>(GraphError::UnknownParent),
            match r {
                Ok(i) => !forks(old(self).events@, packed.content),
                Err(GraphError::ForkDetected(i)) => forks(old(self).events@, packed.content),
                Err(_) => final(self).events@ == old(self).events@ && final(self).rounds@ == old(self).rounds@,
            },
            (r is Ok || r is Err && r->Err_0 is ForkDetected) ==> {
                let i = if r is Ok { r->Ok_0 } else { r->Err_0->ForkDetected_0 };
                &&& i.0 == old(self).len()
                &&& final(self).len() == old(self).len() + 1
                &&& final(self).events@.subrange(0, i.0 as int) == old(self).events@
                &&& final(self).events@[i.0 as int].packed == packed
                &&& final(self).rounds@.subrange(0, i.0 as int) == old(self).rounds@
            },
            final(self).quorum == old(self).quorum,
    {
        if !signature_valid {
            return Err(GraphError::InvalidSignature);
        }
        let hash = packed.compute_hash();
        if self.find(hash).is_some() {
            return Err(GraphError::DuplicateEvent);
        }
        let sp = match self.resolve(packed.content.self_parent) {
            Ok(l) => l,
            Err(e) => return Err(e),
        };
        let op = match self.resolve(packed.content.other_parent) {
            Ok(l) => l,
            Err(e) => return Err(e),
        };
        let fork = self.would_fork(&packed.content);
        let index = EventIndex(self.events.len());
        let ghost before = self.events@;
        let ghost rounds_before = self.rounds@;
        self.events.push(Event { packed, hash, self_parent: sp, other_parent: op });
        proof {
            assert(self.events@.subrange(0, index.0 as int) =~= before);
            assert forall|i: int| 0 <= i < self.events@.len() implies #[trigger] event_ok(self.events@, i) by {
                if i < before.len() {
                    assert(event_ok(before, i));
                }
            }
        }
        let round = self.compute_round();
        self.rounds.push(round);
        proof {
            let ev = self.events@;
            let rs = self.rounds@;
            assert(ev.subrange(0, index.0 + 1) =~= ev);
            assert(rs.subrange(0, index.0 as int) =~= rounds_before);
            assert forall|i: int| 0 <= i < rs.len() implies #[trigger] rs[i] as int == round_rule(
                ev.subrange(0, i + 1),
                rs.subrange(0, i),
                self.quorum as nat,
            ) && rs[i] <= i + 1 by {
                if i < rounds_before.len() {
                    assert(rounds_before[i] as int == round_rule(
                        before.subrange(0, i + 1),
                        rounds_before.subrange(0, i),
                        self.quorum as nat,
                    ));
                    assert(ev.subrange(0, i + 1) =~= before.subrange(0, i + 1));
                    assert(rs.subrange(0, i) =~= rounds_before.subrange(0, i));
                }
            }
        }
        if fork {
            Err(GraphError::ForkDetected(index))
        } else {
            Ok(index)
        }
    }
}

} // verus!
