use vstd::prelude::*;
use crate::event_hash::EventHash;
use crate::event_index::EventIndex;
use crate::graph::{
    Event, Graph, creator_of, distinct_creators, is_prefix, lemma_distinct_creators_agree,
    lemma_distinct_creators_at_least, lemma_distinct_creators_grow, lemma_strongly_sees_prefix,
    strongly_sees,
};
use crate::packed_event::Cause;

verus! {

/// An application value that consensus has ordered, with the key that orders it.
#[derive(Clone, Copy, Debug, PartialEq, Eq, Structural)]
pub struct Block {
    pub round: u64,
    pub creator: u64,
    pub hash: EventHash,
    pub value: u64,
}

/// The output order: by round, then creator, then event hash.
pub open spec fn block_before(a: Block, b: Block) -> bool {
    a.round < b.round || (a.round == b.round && (a.creator < b.creator || (a.creator == b.creator
        && a.hash.0 < b.hash.0)))
}

pub open spec fn sorted_blocks(s: Seq<Block>) -> bool {
    forall|i: int, j: int| 0 <= i < j < s.len() ==> block_before(#[trigger] s[i], #[trigger] s[j])
}

/// Later-round events that strongly see event `e`.
pub open spec fn decision_witness(events: Seq<Event>, rounds: Seq<u64>, e: int, quorum: nat) -> spec_fn(int) -> bool {
    |x: int| 0 <= x < events.len() && rounds[x] > rounds[e] && strongly_sees(events, x, e, quorum)
}

/// Event `e` is decided: events of a later round by a quorum of distinct
/// creators each strongly see it.
pub open spec fn decided(events: Seq<Event>, rounds: Seq<u64>, e: int, quorum: nat) -> bool {
    distinct_creators(events, decision_witness(events, rounds, e, quorum), events.len() as int) >= quorum
}

/// The block that a stored vote yields.
pub open spec fn block_of(events: Seq<Event>, rounds: Seq<u64>, e: int) -> Block {
    Block {
        round: rounds[e],
        creator: creator_of(events, e),
        hash: events[e].hash,
        value: match events[e].packed.content.cause {
            Cause::Vote(v) => v,
            _ => 0,
        },
    }
}

/// Event `e` is a decided vote, so its value belongs to the output.
pub open spec fn output_event(events: Seq<Event>, rounds: Seq<u64>, e: int, quorum: nat) -> bool {
    0 <= e < events.len() && events[e].packed.content.cause is Vote && decided(events, rounds, e, quorum)
}

/// An event that events of later rounds by at least `quorum` distinct creators
/// each strongly see is decided.
pub proof fn lemma_quorum_decides(events: Seq<Event>, rounds: Seq<u64>, e: int, quorum: nat, w: Seq<int>)
    requires
        0 <= e < events.len(),
        rounds.len() == events.len(),
        w.len() >= quorum,
        forall|i: int|
            0 <= i < w.len() ==> 0 <= #[trigger] w[i] < events.len() && rounds[w[i]] > rounds[e]
                && strongly_sees(events, w[i], e, quorum),
        forall|i: int, j: int|
            0 <= i < w.len() && 0 <= j < w.len() && i != j ==> creator_of(events, #[trigger] w[i])
                != creator_of(events, #[trigger] w[j]),
    ensures
        decided(events, rounds, e, quorum),
{
    let pred = decision_witness(events, rounds, e, quorum);
    assert forall|i: int| 0 <= i < w.len() implies 0 <= #[trigger] w[i] < events.len() && pred(w[i]) by {}
    lemma_distinct_creators_at_least(events, pred, events.len() as int, w);
}

/// A decision is final: an event decided in one state of the store stays
/// decided, and yields the same block, in every later state, so output once
/// emitted is never withdrawn.
pub proof fn lemma_decision_final(
    events: Seq<Event>,
    rounds: Seq<u64>,
    ext: Seq<Event>,
    ext_rounds: Seq<u64>,
    quorum: nat,
    e: int,
)
    requires
        is_prefix(events, ext),
        ext_rounds.len() == ext.len(),
        rounds == ext_rounds.subrange(0, events.len() as int),
        0 <= e < events.len(),
        decided(events, rounds, e, quorum),
    ensures
        decided(ext, ext_rounds, e, quorum),
        output_event(events, rounds, e, quorum) ==> output_event(ext, ext_rounds, e, quorum),
        block_of(ext, ext_rounds, e) == block_of(events, rounds, e),
{
    let n = events.len() as int;
    let p = decision_witness(events, rounds, e, quorum);
    let p_ext = decision_witness(ext, ext_rounds, e, quorum);
    assert forall|k: int| 0 <= k < n implies #[trigger] p(k) == p_ext(k) by {
        lemma_strongly_sees_prefix(events, ext, k, e, quorum);
        assert(rounds[k] == ext_rounds[k] && rounds[e] == ext_rounds[e]);
    }
    lemma_distinct_creators_agree(events, ext, p, p_ext, n);
    lemma_distinct_creators_grow(ext, p_ext, n, ext.len() as int);
    assert(ext[e] == events[e]);
    assert(rounds[e] == ext_rounds[e]);
}

/// Two strictly ordered block sequences with the same members are equal: the
/// output is fixed by which blocks it holds, whatever order they were found in.
pub proof fn lemma_output_determined(s: Seq<Block>, t: Seq<Block>)
    requires
        sorted_blocks(s),
        sorted_blocks(t),
        forall|b: Block| s.contains(b) <==> t.contains(b),
    ensures
        s == t,
    decreases s.len(),
{
    if s.len() == 0 {
        if t.len() > 0 {
            assert(t.contains(t[0]));
        }
        assert(t.len() == 0);
        assert(s =~= t);
    } else {
        assert(s.contains(s[0]));
        assert(t.len() > 0);
        assert(t.contains(t[0]));
        let j = choose|j: int| 0 <= j < t.len() && t[j] == s[0];
        let k = choose|k: int| 0 <= k < s.len() && s[k] == t[0];
        if j > 0 {
            assert(block_before(t[0], t[j]));
            if k > 0 {
                assert(block_before(s[0], s[k]));
            }
        }
        assert(s[0] == t[0]);
        let s1 = s.drop_first();
        let t1 = t.drop_first();
        assert forall|b: Block| s1.contains(b) <==> t1.contains(b) by {
            if s1.contains(b) {
                let i = choose|i: int| 0 <= i < s1.len() && s1[i] == b;
                assert(s[i + 1] == b);
                assert(block_before(s[0], s[i + 1]));
                assert(t.contains(b));
                let m = choose|m: int| 0 <= m < t.len() && t[m] == b;
                assert(m != 0);
                assert(t1[m - 1] == b);
            }
            if t1.contains(b) {
                let i = choose|i: int| 0 <= i < t1.len() && t1[i] == b;
                assert(t[i + 1] == b);
                assert(block_before(t[0], t[i + 1]));
                assert(s.contains(b));
                let m = choose|m: int| 0 <= m < s.len() && s[m] == b;
                assert(m != 0);
                assert(s1[m - 1] == b);
            }
        }
        lemma_output_determined(s1, t1);
        assert(s =~= seq![s[0]] + s1);
        assert(t =~= seq![t[0]] + t1);
    }
}

proof fn lemma_hashes_fresh(g: Seq<Event>, rs: Seq<u64>, q: nat, e: int, prev: Seq<Block>)
    requires
        crate::graph::events_wf(g),
        0 <= e < g.len(),
        forall|b: Block| prev.contains(b) <==> exists|k: int|
            0 <= k < e && output_event(g, rs, k, q) && #[trigger] block_of(g, rs, k) == b,
    ensures
        forall|k: int| 0 <= k < prev.len() ==> prev[k].hash != g[e].hash,
{
    assert forall|k: int| 0 <= k < prev.len() implies prev[k].hash != g[e].hash by {
        assert(prev.contains(prev[k]));
        let m = choose|m: int| 0 <= m < e && output_event(g, rs, m, q) && #[trigger] block_of(g, rs, m) == prev[k];
        assert(g[m].hash != g[e].hash);
    }
}

proof fn lemma_output_step(g: Seq<Event>, rs: Seq<u64>, q: nat, e: int, prev: Seq<Block>, out: Seq<Block>)
    requires
        0 <= e < g.len(),
        forall|b: Block| prev.contains(b) <==> exists|k: int|
            0 <= k < e && output_event(g, rs, k, q) && #[trigger] block_of(g, rs, k) == b,
        output_event(g, rs, e, q) ==> forall|x: Block| out.contains(x) <==> (prev.contains(x) || x == block_of(g, rs, e)),
        !output_event(g, rs, e, q) ==> out == prev,
    ensures
        forall|b: Block| out.contains(b) <==> exists|k: int|
            0 <= k < e + 1 && output_event(g, rs, k, q) && #[trigger] block_of(g, rs, k) == b,
{
    assert forall|x: Block| out.contains(x) <==> exists|k: int|
        0 <= k < e + 1 && output_event(g, rs, k, q) && #[trigger] block_of(g, rs, k) == x by {
        if exists|k: int| 0 <= k < e + 1 && output_event(g, rs, k, q) && #[trigger] block_of(g, rs, k) == x {
            let k = choose|k: int| 0 <= k < e + 1 && output_event(g, rs, k, q) && #[trigger] block_of(g, rs, k) == x;
            if k < e {
                assert(prev.contains(x));
            }
        }
        if out.contains(x) && output_event(g, rs, e, q) && x == block_of(g, rs, e) {
        } else if out.contains(x) {
            assert(prev.contains(x));
        }
    }
}

fn block_lt(a: &Block, b: &Block) -> (r: bool)
    ensures
        r == block_before(*a, *b),
{
    a.round < b.round || (a.round == b.round && (a.creator < b.creator || (a.creator == b.creator
        && a.hash.0 < b.hash.0)))
}

/// Puts `b` into the ordered sequence `out`.
#[verifier::spinoff_prover]
fn insert_sorted(out: &mut Vec<Block>, b: Block)
    requires
        sorted_blocks(old(out)@),
        forall|k: int| 0 <= k < old(out)@.len() ==> old(out)@[k].hash != b.hash,
    ensures
        sorted_blocks(final(out)@),
        forall|x: Block| final(out)@.contains(x) <==> (old(out)@.contains(x) || x == b),
{
    let mut pos: usize = 0;
    while pos < out.len() && block_lt(&out[pos], &b)
        invariant
            pos <= out@.len(),
            forall|k: int| 0 <= k < pos ==> block_before(out@[k], b),
        decreases out@.len() - pos,
    {
        pos = pos + 1;
    }
    let ghost prev = out@;
    out.insert(pos, b);
    proof {
        assert(out@ == prev.insert(pos as int, b));
        assert(prev == old(out)@);
        assert forall|i: int, j: int| 0 <= i < j < out@.len() implies block_before(#[trigger] out@[i], #[trigger] out@[j]) by {
            if j < pos {
                assert(out@[i] == prev[i] && out@[j] == prev[j]);
            } else if j == pos {
                assert(out@[i] == prev[i]);
            } else if i < pos {
                assert(out@[j] == prev[j - 1]);
                assert(block_before(prev[i], b));
                if j - 1 > pos as int {
                    assert(block_before(prev[pos as int], prev[j - 1]));
                }
            } else if i == pos {
                assert(out@[j] == prev[j - 1]);
                assert(prev[pos as int].hash != b.hash);
                assert(block_before(b, prev[pos as int]));
                if j - 1 > pos as int {
                    assert(block_before(prev[pos as int], prev[j - 1]));
                }
            } else {
                assert(out@[i] == prev[i - 1]);
                assert(out@[j] == prev[j - 1]);
            }
        }
        assert forall|x: Block| out@.contains(x) <==> (prev.contains(x) || x == b) by {
            if out@.contains(x) {
                let i = choose|i: int| 0 <= i < out@.len() && out@[i] == x;
                if i < pos {
                    assert(prev[i] == x);
                } else if i > pos {
                    assert(prev[i - 1] == x);
                }
            }
            if prev.contains(x) {
                let i = choose|i: int| 0 <= i < prev.len() && prev[i] == x;
                if i < pos {
                    assert(out@[i] == x);
                } else {
                    assert(out@[i + 1] == x);
                }
            }
            if x == b {
                assert(out@[pos as int] == b);
            }
        }
    }
}

impl Graph {
    /// Whether event `e` is decided: events of a later round by a quorum of
    /// distinct creators each strongly see it.
    pub fn is_decided(&self, e: EventIndex) -> (r: bool)
        requires
            self.wf(),
            e.0 < self.len(),
        ensures
            r == decided(self.events@, self.rounds@, e.0 as int, self.quorum as nat),
    {
        let ghost pred = decision_witness(self.events@, self.rounds@, e.0 as int, self.quorum as nat);
        let n = self.events.len();
        let mut marks: Vec<bool> = Vec::new();
        let mut x: usize = 0;
        while x < n
            invariant
                self.wf(),
                n == self.events@.len(),
                e.0 < n,
                pred == decision_witness(self.events@, self.rounds@, e.0 as int, self.quorum as nat),
                x <= n,
                marks@.len() == x,
                forall|k: int| 0 <= k < x ==> marks@[k] == pred(k),
            decreases n - x,
        {
            let m = self.rounds[x] > self.rounds[e.0] && self.strongly_sees(EventIndex(x), e, self.quorum);
            marks.push(m);
            x = x + 1;
        }
        self.count_creators(&marks, Ghost(pred)) >= self.quorum
    }

    /// The values of all decided votes, each once, in consensus order: by
    /// round, then creator, then event hash.
    pub fn consensus_output(&self) -> (r: Vec<Block>)
        requires
            self.wf(),
        ensures
            sorted_blocks(r@),
            forall|b: Block| r@.contains(b) <==> exists|e: int|
                output_event(self.events@, self.rounds@, e, self.quorum as nat)
                    && #[trigger] block_of(self.events@, self.rounds@, e) == b,
    {
        let ghost g = self.events@;
        let ghost rs = self.rounds@;
        let ghost q = self.quorum as nat;
        let mut out: Vec<Block> = Vec::new();
        let mut e: usize = 0;
        while e < self.events.len()
            invariant
                self.wf(),
                g == self.events@,
                rs == self.rounds@,
                q == self.quorum as nat,
                e <= g.len(),
                sorted_blocks(out@),
                forall|b: Block| out@.contains(b) <==> exists|k: int|
                    0 <= k < e && output_event(g, rs, k, q) && #[trigger] block_of(g, rs, k) == b,
            decreases g.len() - e,
        {
            let ev = &self.events[e];
            let ghost prev = out@;
            if let Cause::Vote(v) = ev.packed.content.cause {
                if self.is_decided(EventIndex(e)) {
                    let b = Block { round: self.rounds[e], creator: ev.packed.content.creator, hash: ev.hash, value: v };
                    proof {
                        lemma_hashes_fresh(g, rs, q, e as int, prev);
                    }
                    insert_sorted(&mut out, b);
                }
            }
            proof {
                lemma_output_step(g, rs, q, e as int, prev, out@);
            }
            e = e + 1;
        }
        proof {
            assert forall|b: Block| out@.contains(b) <==> exists|e: int|
                output_event(g, rs, e, q) && #[trigger] block_of(g, rs, e) == b by {
                if exists|e: int| output_event(g, rs, e, q) && #[trigger] block_of(g, rs, e) == b {
                    let k = choose|k: int| output_event(g, rs, k, q) && #[trigger] block_of(g, rs, k) == b;
                    assert(0 <= k < g.len());
                }
            }
        }
        out
    }
}

} // verus!
