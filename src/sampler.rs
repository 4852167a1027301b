use vstd::prelude::*;

use crate::probability::ONE;

verus! {

/// The state of a biased-bit sampler, apart from its uniform source.
///
/// All values on the unit interval are scaled by `ONE`. The uniform value
/// that the sampler decodes lies in `[low, high)`; an output bit is `1` when
/// that value lies below `p`.
#[derive(Clone, Copy, Debug, PartialEq, Eq, Structural)]
pub struct Sampler {
    /// The success probability.
    pub p: u64,
    /// The lower end of the interval, included.
    pub low: u64,
    /// The upper end of the interval, excluded.
    pub high: u64,
    /// Buffered uniform bits, read from the least significant end.
    pub bits: u64,
    /// How many buffered bits are still unread.
    pub shift: u8,
}

impl Sampler {
    /// A probability within the unit interval, and a nonempty interval
    /// `0 <= low < high <= ONE`.
    pub open spec fn wf(self) -> bool {
        &&& self.p <= ONE
        &&& self.low < self.high
        &&& self.high <= ONE
        &&& self.shift <= 64
    }
}

/// The interval lies below `p`: the bit is `1`; stretch `[0, p)` onto the
/// unit interval.
pub open spec fn stretch_success(s: Sampler) -> Sampler {
    Sampler {
        low: (s.low as int * ONE as int / s.p as int) as u64,
        high: (s.high as int * ONE as int / s.p as int) as u64,
        ..s
    }
}

/// The interval lies at or above `p`: the bit is `0`; stretch `[p, ONE)`
/// onto the unit interval.
pub open spec fn stretch_failure(s: Sampler) -> Sampler {
    Sampler {
        low: ((s.low - s.p) * ONE as int / (ONE - s.p)) as u64,
        high: ((s.high - s.p) * ONE as int / (ONE - s.p)) as u64,
        ..s
    }
}

/// Keep the upper half of the interval on a fresh `1` bit, the lower half
/// on a fresh `0` bit.
pub open spec fn halve(s: Sampler, bit: bool) -> Sampler {
    let mid = ((s.low + s.high) / 2) as u64;
    if bit {
        Sampler { low: mid, ..s }
    } else {
        Sampler { high: mid, ..s }
    }
}

/// The next buffered bit: the least significant one.
pub open spec fn buffered_bit(s: Sampler) -> bool {
    s.bits % 2 == 1
}

/// The buffer once its next bit has been read.
pub open spec fn after_read(s: Sampler) -> Sampler {
    Sampler { bits: s.bits / 2, shift: (s.shift - 1) as u8, ..s }
}

/// The buffer filled with a fresh word of 64 bits.
pub open spec fn refilled(s: Sampler, word: u64) -> Sampler {
    Sampler { bits: word, shift: 64, ..s }
}

/// Produces the output bits `i` to 31 of a word whose bits so far are
/// `ret`, reading fresh words from the front of `feed` when the buffer is
/// empty.
///
/// The interval is half-open, so it lies wholly below `p` once
/// `high <= p`, and wholly at or above `p` once `low >= p`. A fresh bit is
/// read only when `low < p < high`; the interval is then at least two
/// units wide, and halving it always makes progress. With `p = 0` or
/// `p = ONE` the interval never straddles `p`, and no division by zero
/// can occur: each bit is decided without fresh entropy. The result is the finished word, the final state and the words
/// of `feed` that were not read; `None` when `feed` ran out first.
pub open spec fn run(s: Sampler, ret: nat, i: nat, feed: Seq<u64>) -> Option<(nat, Sampler, Seq<u64>)>
    decreases 32 - i, s.high - s.low,
{
    if i >= 32 {
        Some((ret, s, feed))
    } else if s.high <= s.p {
        run(stretch_success(s), 2 * ret + 1, i + 1, feed)
    } else if s.low >= s.p {
        run(stretch_failure(s), 2 * ret, i + 1, feed)
    } else if s.shift == 0 {
        if feed.len() == 0 {
            None
        } else {
            let t = refilled(s, feed[0]);
            run(halve(after_read(t), buffered_bit(t)), ret, i, feed.drop_first())
        }
    } else {
        run(halve(after_read(s), buffered_bit(s)), ret, i, feed)
    }
}

/// The word was finished, and every word of the feed was read.
pub open spec fn reads_all(o: Option<(nat, Sampler, Seq<u64>)>) -> bool {
    match o {
        Some((_, _, rest)) => rest.len() == 0,
        None => false,
    }
}

/// Two samplers in one state that read from one stream of uniform words
/// read the same words for a word of output, and end in the same output
/// and state: where each finished the word having read all of its feed,
/// and one feed begins the other, the two feeds are equal.
pub proof fn lemma_replay(s: Sampler, ret: nat, i: nat, f1: Seq<u64>, f2: Seq<u64>)
    requires
        f1.len() <= f2.len(),
        f1 == f2.subrange(0, f1.len() as int),
        reads_all(run(s, ret, i, f1)),
        reads_all(run(s, ret, i, f2)),
    ensures
        f1 == f2,
        run(s, ret, i, f1) == run(s, ret, i, f2),
    decreases 32 - i, s.high - s.low,
{
    if i >= 32 {
        assert(f1 =~= f2);
    } else if s.high <= s.p {
        lemma_replay(stretch_success(s), 2 * ret + 1, i + 1, f1, f2);
    } else if s.low >= s.p {
        lemma_replay(stretch_failure(s), 2 * ret, i + 1, f1, f2);
    } else if s.shift == 0 {
        assert(f1.len() > 0);
        assert(f1[0] == f2[0]);
        let t = refilled(s, f1[0]);
        assert(f1.drop_first() =~= f2.drop_first().subrange(0, f1.len() - 1));
        lemma_replay(halve(after_read(t), buffered_bit(t)), ret, i, f1.drop_first(), f2.drop_first());
        assert(f1 =~= f2);
    } else {
        lemma_replay(halve(after_read(s), buffered_bit(s)), ret, i, f1, f2);
    }
}

} // verus!
