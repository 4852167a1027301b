use bernoulli::{probability_from_bits, BernoulliRng, Error, UniformSource, ONE};
use rand::rngs::StdRng;
use rand::SeedableRng;
use std::cell::Cell;
use std::rc::Rc;

/// Hands out the same word every time, and counts the words handed out.
struct Repeat {
    word: u64,
    count: usize,
}

impl UniformSource for Repeat {
    fn next_word(&mut self) -> u64 {
        self.count += 1;
        self.word
    }
}

/// Wraps a seeded generator and counts the words handed out.
struct Counting {
    rng: StdRng,
    count: Rc<Cell<usize>>,
}

impl UniformSource for Counting {
    fn next_word(&mut self) -> u64 {
        self.count.set(self.count.get() + 1);
        self.rng.next_word()
    }
}

/// The thread-local generator of rand as a source of uniform words.
struct Thread(rand::rngs::ThreadRng);

impl UniformSource for Thread {
    fn next_word(&mut self) -> u64 {
        rand::RngCore::next_u64(&mut self.0)
    }
}

fn repeat(word: u64, p: f64) -> BernoulliRng<Repeat> {
    BernoulliRng::new(Repeat { word, count: 0 }, p.to_bits()).unwrap()
}

fn counting(seed: u64, p: f64) -> (BernoulliRng<Counting>, Rc<Cell<usize>>) {
    let rng = StdRng::seed_from_u64(seed);
    let count = Rc::new(Cell::new(0));
    let distr = BernoulliRng::new(Counting { rng, count: count.clone() }, p.to_bits()).unwrap();
    (distr, count)
}

#[test]
fn it_works() {
    let mut v = 0;
    let rng = Thread(rand::thread_rng());
    let mut distr = if let Ok(v) = BernoulliRng::new(rng, 0.75f64.to_bits()) { v } else { panic!() };
    for _ in 0..10000 {
        let o = distr.next_u32();
        v += o.count_ones();
    }
    println!("{}/{}", v, 320000);
}

#[test]
fn bias_converges_to_probability() {
    let mut distr = BernoulliRng::new(StdRng::seed_from_u64(1), 0.75f64.to_bits()).unwrap();
    let mut ones: u64 = 0;
    for _ in 0..10000 {
        ones += distr.next_u32().count_ones() as u64;
    }
    // Expectation 240000, standard deviation about 245.
    assert!(ones > 240000 - 1500 && ones < 240000 + 1500, "{}", ones);
}

#[test]
fn accepts_unit_interval() {
    for p in [0.0f64, 1.0, 0.5, 0.75, 1e-300, 5e-324, 0.999999] {
        assert!(BernoulliRng::new(StdRng::seed_from_u64(0), p.to_bits()).is_ok(), "{}", p);
    }
}

#[test]
fn rejects_outside_unit_interval() {
    for p in [-0.0f64, -1e-300, -0.5, -1.0, 1.0000000000000002, 2.0, f64::INFINITY, f64::NEG_INFINITY, f64::NAN] {
        let r = BernoulliRng::new(StdRng::seed_from_u64(0), p.to_bits());
        assert!(matches!(r, Err(Error::InvalidProbability)), "{}", p);
    }
}

#[test]
fn probability_scaled_exactly() {
    assert_eq!(probability_from_bits(0.0f64.to_bits()), Ok(0));
    assert_eq!(probability_from_bits(1.0f64.to_bits()), Ok(ONE));
    assert_eq!(probability_from_bits(0.5f64.to_bits()), Ok(ONE / 2));
    assert_eq!(probability_from_bits(0.75f64.to_bits()), Ok(3458764513820540928));
    assert_eq!(probability_from_bits(0.1f64.to_bits()), Ok(461168601842738816));
    assert_eq!(probability_from_bits(0.3f64.to_bits()), Ok(1383505805528216320));
    assert_eq!(probability_from_bits(5e-324f64.to_bits()), Ok(0));
    assert_eq!(probability_from_bits(1.5f64.to_bits()), Err(Error::InvalidProbability));
}

#[test]
fn error_description() {
    assert_eq!(Error::InvalidProbability.description(), "invalid probability specified");
}

#[test]
fn zero_probability_gives_zero_bits_without_entropy() {
    let mut distr = repeat(0x5555_5555_5555_5555, 0.0);
    for _ in 0..1000 {
        assert_eq!(distr.next_u32(), 0);
    }
    let (mut distr, count) = counting(3, 0.0);
    for _ in 0..1000 {
        assert_eq!(distr.next_u32(), 0);
    }
    assert_eq!(count.get(), 0);
}

#[test]
fn one_probability_gives_one_bits_without_entropy() {
    let mut distr = repeat(0, 1.0);
    for _ in 0..1000 {
        assert_eq!(distr.next_u32(), u32::MAX);
    }
    let (mut distr, count) = counting(4, 1.0);
    for _ in 0..1000 {
        assert_eq!(distr.next_u32(), u32::MAX);
    }
    assert_eq!(count.get(), 0);
}

#[test]
fn fair_coin_copies_inverted_fresh_bits() {
    // With p = 1/2 each fresh bit decides one output bit: a 0 keeps the
    // lower half, below p, so the output bit is 1.
    let mut distr = repeat(0, 0.5);
    assert_eq!(distr.next_u32(), u32::MAX);
    assert_eq!(distr.next_u32(), u32::MAX);
    let mut distr = repeat(u64::MAX, 0.5);
    assert_eq!(distr.next_u32(), 0);
    // Fresh bits are read from the least significant end; the first output
    // bit lands in the most significant place.
    let mut distr = repeat(0xAAAA_AAAA_AAAA_AAAA, 0.5);
    assert_eq!(distr.next_u32(), 0xAAAA_AAAA);
    let mut distr = repeat(0x0000_0000_0000_0001, 0.5);
    assert_eq!(distr.next_u32(), 0x7FFF_FFFF);
    assert_eq!(distr.next_u32(), 0xFFFF_FFFF);
}

#[test]
fn fair_coin_reads_one_word_per_two_output_words() {
    let mut source = Repeat { word: 0x1234_5678_9ABC_DEF0, count: 0 };
    let mut distr = BernoulliRng::new(Repeat { word: source.word, count: 0 }, 0.5f64.to_bits()).unwrap();
    let mut outputs = Vec::new();
    for _ in 0..4 {
        outputs.push(distr.next_u32());
    }
    let word = source.next_word();
    let expected_low = !(word as u32).reverse_bits();
    let expected_high = !((word >> 32) as u32).reverse_bits();
    assert_eq!(outputs, vec![expected_low, expected_high, expected_low, expected_high]);
}

#[test]
fn same_seed_same_words() {
    let mut a = BernoulliRng::new(StdRng::seed_from_u64(42), 0.3f64.to_bits()).unwrap();
    let mut b = BernoulliRng::new(StdRng::seed_from_u64(42), 0.3f64.to_bits()).unwrap();
    for _ in 0..1000 {
        assert_eq!(a.next_u32(), b.next_u32());
    }
}

#[test]
fn skewed_probability_reads_fewer_words() {
    let (mut fair, fair_words) = counting(9, 0.5);
    let (mut skewed, skewed_words) = counting(9, 0.01);
    for _ in 0..1000 {
        fair.next_u32();
        skewed.next_u32();
    }
    // A fair coin needs one fresh bit per output bit.
    assert_eq!(fair_words.get(), 500);
    assert!(skewed_words.get() < fair_words.get() / 4, "{}", skewed_words.get());
}
