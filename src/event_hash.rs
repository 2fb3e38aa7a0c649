use vstd::prelude::*;

verus! {

/// The digest of an event's encoded content; identifies the event across nodes.
#[derive(Clone, Copy, Debug, PartialEq, Eq, Structural, PartialOrd, Ord, Hash)]
pub struct EventHash(pub u64);

pub const DIGEST_OFFSET: u64 = 0xcbf2_9ce4_8422_2325;

pub const DIGEST_PRIME: u64 = 0x0000_0100_0000_01b3;

/// One step of the digest: fold a byte into the running state.
pub open spec fn digest_step(h: u64, b: u8) -> u64 {
    (((h ^ (b as u64)) as int * DIGEST_PRIME as int) % 0x1_0000_0000_0000_0000int) as u64
}

/// The digest of a byte string: every byte folded, first to last, into the
/// running state that starts at `DIGEST_OFFSET`.
pub open spec fn digest_from(h: u64, s: Seq<u8>) -> u64
    decreases s.len(),
{
    if s.len() == 0 {
        h
    } else {
        digest_from(digest_step(h, s[0]), s.drop_first())
    }
}

pub open spec fn digest(s: Seq<u8>) -> u64 {
    digest_from(DIGEST_OFFSET, s)
}

proof fn lemma_digest_push(h: u64, s: Seq<u8>, b: u8)
    ensures
        digest_from(h, s.push(b)) == digest_step(digest_from(h, s), b),
    decreases s.len(),
{
    if s.len() == 0 {
        assert(s.push(b).drop_first() =~= Seq::<u8>::empty());
        assert(s.push(b)[0] == b);
        assert(digest_from(digest_step(h, b), Seq::<u8>::empty()) == digest_step(h, b));
    } else {
        assert(s.push(b).drop_first() =~= s.drop_first().push(b));
        assert(s.push(b)[0] == s[0]);
        lemma_digest_push(digest_step(h, s[0]), s.drop_first(), b);
    }
}

/// Digest of a byte string.
pub fn digest_bytes(bytes: &Vec<u8>) -> (r: EventHash)
    ensures
        r.0 == digest(bytes@),
{
    let mut h: u64 = DIGEST_OFFSET;
    let mut i: usize = 0;
    while i < bytes.len()
        invariant
            i <= bytes@.len(),
            h == digest(bytes@.subrange(0, i as int)),
        decreases bytes@.len() - i,
    {
        proof {
            lemma_digest_push(DIGEST_OFFSET, bytes@.subrange(0, i as int), bytes@[i as int]);
            assert(bytes@.subrange(0, i as int).push(bytes@[i as int]) =~= bytes@.subrange(0, i + 1));
        }
        h = (h ^ (bytes[i] as u64)).wrapping_mul(DIGEST_PRIME);
        i = i + 1;
    }
    assert(bytes@.subrange(0, bytes@.len() as int) =~= bytes@);
    EventHash(h)
}

} // verus!
