use vstd::prelude::*;
use crate::event_hash::{EventHash, digest, digest_bytes};

verus! {

/// What an event carries.
#[derive(Clone, Copy, Debug, PartialEq, Eq, Structural, PartialOrd, Ord, Hash)]
pub enum Cause {
    /// The first event of a creator.
    Initial,
    /// A record that gossip was exchanged with a peer.
    Sync,
    /// A vote for an application value.
    Vote(u64),
    /// An accusation of the given creator of having forked its chain.
    Accusation(u64),
}

/// The signable part of an event.
#[derive(Clone, Copy, Debug, PartialEq, Eq, Structural, PartialOrd, Ord, Hash)]
pub struct Content {
    pub creator: u64,
    pub cause: Cause,
    pub self_parent: Option<EventHash>,
    pub other_parent: Option<EventHash>,
}

/// An event as it travels between nodes: its content and a signature over it.
#[derive(Clone, Debug, PartialEq, Eq, PartialOrd, Ord, Hash)]
pub struct PackedEvent {
    pub content: Content,
    pub signature: Vec<u8>,
}

/// The `n` low bytes of `x`, least significant first.
pub open spec fn le_bytes(x: nat, n: nat) -> Seq<u8>
    decreases n,
{
    if n == 0 {
        Seq::empty()
    } else {
        seq![(x % 256) as u8] + le_bytes(x / 256, (n - 1) as nat)
    }
}

pub open spec fn encode_u64(x: u64) -> Seq<u8> {
    le_bytes(x as nat, 8)
}

pub open spec fn encode_parent(p: Option<EventHash>) -> Seq<u8> {
    match p {
        None => seq![0u8],
        Some(h) => seq![1u8] + encode_u64(h.0),
    }
}

pub open spec fn encode_cause(c: Cause) -> Seq<u8> {
    match c {
        Cause::Initial => seq![0u8],
        Cause::Sync => seq![1u8],
        Cause::Vote(v) => seq![2u8] + encode_u64(v),
        Cause::Accusation(o) => seq![3u8] + encode_u64(o),
    }
}

/// The canonical byte encoding of a content: creator, cause, self-parent,
/// other-parent, in that order.
pub open spec fn encode_content(c: Content) -> Seq<u8> {
    encode_u64(c.creator) + encode_cause(c.cause) + encode_parent(c.self_parent)
        + encode_parent(c.other_parent)
}

/// The identity of an event with the given content.
pub open spec fn content_hash(c: Content) -> EventHash {
    EventHash(digest(encode_content(c)))
}

fn push_u64(out: &mut Vec<u8>, x: u64)
    ensures
        final(out)@ == old(out)@ + encode_u64(x),
{
    let ghost start = old(out)@;
    let mut v: u64 = x;
    let mut i: usize = 0;
    while i < 8
        invariant
            i <= 8,
            out@ + le_bytes(v as nat, (8 - i) as nat) == start + le_bytes(x as nat, 8),
        decreases 8 - i,
    {
        let ghost before = out@;
        let ghost rest = le_bytes(v as nat / 256, (8 - i - 1) as nat);
        out.push((v % 256) as u8);
        proof {
            assert(le_bytes(v as nat, (8 - i) as nat) == seq![(v as nat % 256) as u8] + rest);
            assert(out@ + rest =~= before + (seq![(v as nat % 256) as u8] + rest));
        }
        v = v / 256;
        i = i + 1;
    }
    assert(le_bytes(v as nat, 0) =~= Seq::<u8>::empty());
    assert(out@ =~= out@ + le_bytes(v as nat, 0));
}

fn push_parent(out: &mut Vec<u8>, p: Option<EventHash>)
    ensures
        final(out)@ == old(out)@ + encode_parent(p),
{
    match p {
        None => {
            out.push(0u8);
            assert(out@ =~= old(out)@ + encode_parent(p));
        },
        Some(h) => {
            out.push(1u8);
            push_u64(out, h.0);
            assert(out@ =~= old(out)@ + encode_parent(p));
        },
    }
}

fn push_cause(out: &mut Vec<u8>, c: Cause)
    ensures
        final(out)@ == old(out)@ + encode_cause(c),
{
    match c {
        Cause::Initial => {
            out.push(0u8);
        },
        Cause::Sync => {
            out.push(1u8);
        },
        Cause::Vote(v) => {
            out.push(2u8);
            push_u64(out, v);
        },
        Cause::Accusation(o) => {
            out.push(3u8);
            push_u64(out, o);
        },
    }
    assert(out@ =~= old(out)@ + encode_cause(c));
}

impl Content {
    /// The canonical encoding of this content.
    pub fn serialise(&self) -> (r: Vec<u8>)
        ensures
            r@ == encode_content(*self),
    {
        let mut out: Vec<u8> = Vec::new();
        push_u64(&mut out, self.creator);
        push_cause(&mut out, self.cause);
        push_parent(&mut out, self.self_parent);
        push_parent(&mut out, self.other_parent);
        assert(out@ =~= encode_content(*self));
        out
    }
}

impl PackedEvent {
    pub fn new(content: Content, signature: Vec<u8>) -> (r: PackedEvent)
        ensures
            r.content == content,
            r.signature@ == signature@,
    {
        PackedEvent { content, signature }
    }

    /// The event's identity: the digest of its encoded content. The signature
    /// takes no part in it.
    pub fn compute_hash(&self) -> (r: EventHash)
        ensures
            r == content_hash(self.content),
    {
        let bytes = self.content.serialise();
        digest_bytes(&bytes)
    }

    pub fn self_parent(&self) -> (r: Option<EventHash>)
        ensures
            r == self.content.self_parent,
    {
        self.content.self_parent
    }

    pub fn other_parent(&self) -> (r: Option<EventHash>)
        ensures
            r == self.content.other_parent,
    {
        self.content.other_parent
    }

    pub fn creator(&self) -> (r: u64)
        ensures
            r == self.content.creator,
    {
        self.content.creator
    }
}

} // verus!
