use vstd::arithmetic::div_mod::{lemma_div_is_ordered, lemma_div_plus_one};
use vstd::arithmetic::power2::{lemma2_to64, lemma_pow2_adds, lemma_pow2_strictly_increases, pow2};
use vstd::prelude::*;

use crate::error::Error;
use crate::probability::{fixed_of_bits, in_unit_interval, probability_from_bits, ONE};
use crate::sampler::{
    after_read, buffered_bit, halve, refilled, run, stretch_failure, stretch_success, Sampler,
};
use crate::source::UniformSource;

verus! {

/// A generator of independent biased bits, `1` with probability `p`,
/// packed 32 to a word.
///
/// It owns its uniform source, and keeps between calls both the narrowed
/// interval and the unread bits of the last uniform word, so that no
/// entropy drawn from the source is thrown away.
pub struct BernoulliRng<R> {
    state: Sampler,
    rng: R,
    /// Every word drawn from the source so far, in order.
    drawn: Ghost<Seq<u64>>,
}

/// `x * ONE / d`: stretching `[0, d)` onto the unit interval moves `x` there.
pub open spec fn stretched(x: int, d: int) -> int {
    x * ONE as int / d
}

proof fn lemma_stretch(a: int, b: int, d: int)
    requires
        0 <= a < b <= d <= ONE,
    ensures
        0 <= stretched(a, d) < stretched(b, d) <= ONE,
{
    let k = ONE as int;
    assert(a * k + d <= b * k) by (nonlinear_arith)
        requires
            a + 1 <= b,
            d <= k,
            0 <= k,
    ;
    assert(0 <= a * k) by (nonlinear_arith)
        requires
            0 <= a,
            0 <= k,
    ;
    assert(b * k <= d * k) by (nonlinear_arith)
        requires
            b <= d,
            0 <= k,
    ;
    lemma_div_plus_one(a * k, d);
    lemma_div_is_ordered(a * k + d, b * k, d);
    lemma_div_is_ordered(b * k, d * k, d);
    lemma_div_is_ordered(0, a * k, d);
    assert((d * k) / d == k) by {
        vstd::arithmetic::div_mod::lemma_div_by_multiple(k, d);
        assert(d * k == k * d) by (nonlinear_arith);
    }
}

/// `x * ONE / d` on machine integers.
fn stretch(x: u64, d: u64) -> (r: u64)
    requires
        x <= d <= ONE,
        0 < d,
    ensures
        r == stretched(x as int, d as int),
{
    assert((x as int) * (ONE as int) <= (ONE as int) * (ONE as int)) by (nonlinear_arith)
        requires
            x <= ONE,
    ;
    assert(stretched(x as int, d as int) <= ONE) by {
        if x < d {
            lemma_stretch(x as int, d as int, d as int);
        } else {
            lemma_stretch(0, d as int, d as int);
        }
    }
    ((x as u128) * (ONE as u128) / (d as u128)) as u64
}

impl<R: UniformSource> BernoulliRng<R> {
    /// The interval state.
    pub closed spec fn state(&self) -> Sampler {
        self.state
    }

    /// The uniform source that the generator owns.
    pub closed spec fn source(&self) -> R {
        self.rng
    }

    /// Every word drawn from the uniform source so far, in order.
    pub closed spec fn drawn(&self) -> Seq<u64> {
        self.drawn@
    }

    /// The state keeps a probability and a nonempty interval within the
    /// unit interval.
    pub open spec fn wf(&self) -> bool {
        self.state().wf()
    }

    /// Builds a generator over `rng` with the success probability whose
    /// IEEE-754 binary64 encoding is `probability` (as `f64::to_bits` gives
    /// it). Fails exactly when that number is not within `[0, 1]`.
    ///
    /// The probability is kept as `floor(p * 2^62)`: it is rounded down to
    /// a multiple of `2^-62`, so a probability below `2^-62` acts as `0`,
    /// and one below `2^-10` keeps fewer significant bits than the `f64`
    /// held. The source is stored as it was given; no word is drawn.
    pub fn new(rng: R, probability: u64) -> (r: Result<Self, Error>)
        ensures
            r is Ok <==> in_unit_interval(probability),
            r is Err ==> r->Err_0 == Error::InvalidProbability,
            r is Ok ==> r->Ok_0.source() == rng,
            r is Ok ==> r->Ok_0.wf() && r->Ok_0.drawn() == Seq::<u64>::empty() && r->Ok_0.state()
                == (Sampler {
                p: fixed_of_bits(probability) as u64,
                low: 0,
                high: ONE,
                bits: 0,
                shift: 0,
            }),
    {
        match probability_from_bits(probability) {
            Ok(p) => Ok(
                BernoulliRng {
                    state: Sampler { p, low: 0, high: ONE, bits: 0, shift: 0 },
                    rng,
                    drawn: Ghost(Seq::empty()),
                },
            ),
            Err(e) => Err(e),
        }
    }

    /// Reads one uniform bit from the buffer, refilling it from the source
    /// with a fresh word when it is empty.
    fn next_bit(&mut self) -> (r: bool)
        requires
            old(self).state.shift <= 64,
        ensures
            old(self).state.shift == 0 ==> {
                let t = refilled(old(self).state, final(self).drawn@.last());
                &&& final(self).drawn@ == old(self).drawn@.push(final(self).drawn@.last())
                &&& r == buffered_bit(t)
                &&& final(self).state == after_read(t)
            },
            old(self).state.shift != 0 ==> {
                &&& final(self).drawn@ == old(self).drawn@
                &&& r == buffered_bit(old(self).state)
                &&& final(self).state == after_read(old(self).state)
            },
    {
        if self.state.shift == 0 {
            let word = self.rng.next_word();
            self.state.bits = word;
            self.state.shift = 64;
            self.drawn = Ghost(self.drawn@.push(word));
        }
        let bits = self.state.bits;
        let bit = (bits & 1) == 1;
        assert((bits & 1) == 1 <==> bits % 2 == 1) by (bit_vector);
        assert(bits >> 1 == bits / 2) by (bit_vector);
        self.state.bits = bits >> 1;
        self.state.shift = self.state.shift - 1;
        bit
    }

    /// Produces 32 independent biased bits packed in a word, each `1` with
    /// probability `p`; the first bit produced ends in the most significant
    /// place. Fresh uniform bits are read only while the interval straddles
    /// `p`. The result and the new state depend on the old state and the
    /// words drawn during the call alone, and those words are exactly the
    /// ones that the call reads. With `p = 0` every bit is `0`, with `p = 1`
    /// every bit is `1`, and no word is drawn.
    pub fn next_u32(&mut self) -> (r: u32)
        requires
            old(self).wf(),
        ensures
            final(self).wf(),
            final(self).state().p == old(self).state().p,
            final(self).drawn().len() >= old(self).drawn().len(),
            final(self).drawn().subrange(0, old(self).drawn().len() as int) == old(self).drawn(),
            run(
                old(self).state(),
                0,
                0,
                final(self).drawn().subrange(
                    old(self).drawn().len() as int,
                    final(self).drawn().len() as int,
                ),
            ) == Some((r as nat, final(self).state(), Seq::<u64>::empty())),
            old(self).state().p == 0 ==> r == 0 && final(self).drawn() == old(self).drawn(),
            old(self).state().p == ONE ==> r == u32::MAX && final(self).drawn() == old(
                self,
            ).drawn(),
    {
        let ghost s0 = self.state;
        let ghost d0 = self.drawn@;
        let ghost mut fresh: Seq<u64> = Seq::empty();
        let mut ret: u32 = 0;
        let mut i: u32 = 0;
        proof {
            lemma2_to64();
            assert forall|ext: Seq<u64>| #[trigger]
                run(s0, 0, 0, fresh + ext) == run(self.state, ret as nat, i as nat, ext) by {
                assert(fresh + ext =~= ext);
            }
        }
        while i != 32
            invariant
                i <= 32,
                self.state.wf(),
                self.state.p == s0.p,
                self.drawn@ == d0 + fresh,
                (ret as nat) < pow2(i as nat),
                forall|ext: Seq<u64>| #[trigger]
                    run(s0, 0, 0, fresh + ext) == run(self.state, ret as nat, i as nat, ext),
                s0.p == 0 ==> ret == 0 && fresh.len() == 0,
                s0.p == ONE ==> ret as nat + 1 == pow2(i as nat) && fresh.len() == 0,
            decreases 32 - i, self.state.high - self.state.low,
        {
            let ghost before = self.state;
            let p = self.state.p;
            let low = self.state.low;
            let high = self.state.high;
            proof {
                lemma2_to64();
                lemma_pow2_adds(i as nat, 1);
                if i < 31 {
                    lemma_pow2_strictly_increases(i as nat, 31);
                }
            }
            if high <= p {
                proof {
                    lemma_stretch(low as int, high as int, p as int);
                }
                self.state.low = stretch(low, p);
                self.state.high = stretch(high, p);
                ret = ret * 2 + 1;
                i = i + 1;
                assert(self.state == stretch_success(before));
            } else if low >= p {
                proof {
                    lemma_stretch((low - p) as int, (high - p) as int, (ONE - p) as int);
                }
                self.state.low = stretch(low - p, ONE - p);
                self.state.high = stretch(high - p, ONE - p);
                ret = ret * 2;
                i = i + 1;
                assert(self.state == stretch_failure(before));
            } else {
                let mid = (low + high) / 2;
                let bit = self.next_bit();
                if bit {
                    self.state.low = mid;
                } else {
                    self.state.high = mid;
                }
                proof {
                    if before.shift == 0 {
                        let w = self.drawn@.last();
                        let t = refilled(before, w);
                        assert(self.state == halve(after_read(t), buffered_bit(t)));
                        let fresh2 = fresh.push(w);
                        assert forall|ext: Seq<u64>| #[trigger]
                            run(s0, 0, 0, fresh2 + ext) == run(
                                self.state,
                                ret as nat,
                                i as nat,
                                ext,
                            ) by {
                            let longer = seq![w] + ext;
                            assert(fresh2 + ext =~= fresh + longer);
                            assert(longer.drop_first() =~= ext);
                            assert(longer[0] == w);
                            assert(run(s0, 0, 0, fresh + longer) == run(
                                before,
                                ret as nat,
                                i as nat,
                                longer,
                            ));
                        }
                        assert(self.drawn@ =~= d0 + fresh2);
                        fresh = fresh2;
                    } else {
                        assert(self.state == halve(after_read(before), buffered_bit(before)));
                    }
                }
            }
        }
        proof {
            let none = Seq::<u64>::empty();
            assert(fresh + none =~= fresh);
            assert(run(s0, 0, 0, fresh + none) == run(self.state, ret as nat, 32, none));
            assert(self.drawn@.subrange(d0.len() as int, self.drawn@.len() as int) =~= fresh);
            assert(self.drawn@.subrange(0, d0.len() as int) =~= d0);
        }
        ret
    }
}

} // verus!
