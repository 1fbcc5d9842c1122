use crossbeam_channel::Sender;
use std::collections::VecDeque;
use vstd::prelude::*;

verus! {

/// Line level of symbol `k` (0 ..= 9) of the frame that carries `b`:
/// the start bit, the data bits least significant first, the stop bit.
pub open spec fn frame_bit(b: u8, k: int) -> u8 {
    if k == 0 {
        0
    } else if 1 <= k <= 8 {
        (b >> ((k - 1) as u8)) & 1
    } else {
        1
    }
}

/// The line signal of one frame carrying `b`, each symbol held for `sps` samples.
pub open spec fn frame_signal(b: u8, sps: nat) -> Seq<u8> {
    Seq::new(10 * sps, |i: int| frame_bit(b, i / (sps as int)))
}

/// The idle line: `n` samples at level 1.
pub open spec fn idle_signal(n: nat) -> Seq<u8> {
    Seq::new(n, |i: int| 1u8)
}

proof fn lemma_symbol_index(j: int, k: int, sps: int)
    requires
        sps > 0,
        k * sps <= j < (k + 1) * sps,
    ensures
        j / sps == k,
{
    assert(j == k * sps + (j - k * sps)) by (nonlinear_arith);
    assert(0 <= j - k * sps < sps) by (nonlinear_arith)
        requires
            k * sps <= j < (k + 1) * sps,
    ;
    vstd::arithmetic::div_mod::lemma_fundamental_div_mod_converse(j, sps, k, j - k * sps);
}

/// The first `k + 1` symbols of a frame are its first `k` symbols followed by symbol `k`.
proof fn lemma_frame_prefix(b: u8, sps: nat, k: int)
    requires
        sps > 0,
        0 <= k < 10,
    ensures
        frame_signal(b, sps).take((k + 1) * sps) =~= frame_signal(b, sps).take(k * sps) + Seq::new(
            sps,
            |i: int| frame_bit(b, k),
        ),
{
    assert(k * sps + sps == (k + 1) * sps) by (nonlinear_arith);
    assert((k + 1) * sps <= 10 * sps) by (nonlinear_arith)
        requires
            k < 10,
            sps > 0,
    ;
    assert(0 <= k * sps) by (nonlinear_arith)
        requires
            k >= 0,
    ;
    assert forall|j: int| k * sps <= j < (k + 1) * sps implies #[trigger] (j / (sps as int)) == k by {
        lemma_symbol_index(j, k, sps as int);
    }
}

/// Expands bytes into a line signal, one value per sample.
pub struct UartTx {
    samples_per_symbol: usize,
    samples: VecDeque<u8>,
}

impl UartTx {
    /// The symbol length is positive.
    pub closed spec fn wf(&self) -> bool {
        self.samples_per_symbol >= 1
    }

    pub closed spec fn samples_per_symbol(&self) -> nat {
        self.samples_per_symbol as nat
    }

    /// The samples queued for transmission, oldest first.
    pub closed spec fn pending(&self) -> Seq<u8> {
        self.samples@
    }

    pub fn new(samples_per_symbol: usize) -> (r: UartTx)
        requires
            samples_per_symbol >= 1,
        ensures
            r.wf(),
            r.samples_per_symbol() == samples_per_symbol,
            r.pending() == Seq::<u8>::empty(),
    {
        UartTx { samples_per_symbol, samples: VecDeque::new() }
    }

    fn put_bit(&mut self, bit: u8)
        ensures
            final(self).samples_per_symbol == old(self).samples_per_symbol,
            final(self).samples@ == old(self).samples@ + Seq::new(
                old(self).samples_per_symbol as nat,
                |i: int| bit,
            ),
    {
        let ghost start = self.samples@;
        let mut i: usize = 0;
        while i < self.samples_per_symbol
            invariant
                i <= self.samples_per_symbol,
                self.samples_per_symbol == old(self).samples_per_symbol,
                start == old(self).samples@,
                self.samples@ == start + Seq::new(i as nat, |j: int| bit),
            decreases self.samples_per_symbol - i,
        {
            self.samples.push_back(bit);
            i = i + 1;
            assert(self.samples@ =~= start + Seq::new(i as nat, |j: int| bit));
        }
    }

    /// Queues the frame that carries `byte`: `10 * samples_per_symbol` samples.
    pub fn put_byte(&mut self, byte: u8)
        requires
            old(self).wf(),
        ensures
            final(self).wf(),
            final(self).samples_per_symbol() == old(self).samples_per_symbol(),
            final(self).pending() == old(self).pending() + frame_signal(
                byte,
                old(self).samples_per_symbol(),
            ),
    {
        let ghost start = self.samples@;
        let ghost sps = self.samples_per_symbol as nat;
        proof {
            lemma_frame_prefix(byte, sps, 0);
            assert(frame_signal(byte, sps).take(0) =~= Seq::<u8>::empty());
        }
        self.put_bit(0);
        assert(self.samples@ =~= start + frame_signal(byte, sps).take(sps as int));
        let mut k: u8 = 0;
        let mut rest: u8 = byte;
        assert(byte >> 0u8 == byte) by (bit_vector);
        while k < 8
            invariant
                k <= 8,
                self.samples_per_symbol == sps,
                sps > 0,
                rest == byte >> k,
                self.samples@ == start + frame_signal(byte, sps).take((k + 1) * sps),
            decreases 8 - k,
        {
            proof {
                lemma_frame_prefix(byte, sps, k + 1);
            }
            self.put_bit(rest & 1);
            assert(self.samples@ =~= start + frame_signal(byte, sps).take((k + 2) * sps));
            rest = rest >> 1;
            assert((byte >> k) >> 1u8 == byte >> ((k + 1) as u8)) by (bit_vector)
                requires
                    k < 8,
            ;
            k = k + 1;
        }
        proof {
            lemma_frame_prefix(byte, sps, 9);
        }
        self.put_bit(1);
        assert(frame_signal(byte, sps).take((10 * sps) as int) =~= frame_signal(byte, sps));
        assert(self.samples@ =~= start + frame_signal(byte, sps));
    }

    /// Fills `buffer` from the front of the queue, and with the idle level 1
    /// once the queue is empty.
    pub fn get_samples(&mut self, buffer: &mut [u8])
        requires
            old(self).wf(),
        ensures
            final(self).wf(),
            final(self).samples_per_symbol() == old(self).samples_per_symbol(),
            old(buffer)@.len() <= old(self).pending().len() ==> final(buffer)@ == old(
                self,
            ).pending().take(old(buffer)@.len() as int) && final(self).pending() == old(
                self,
            ).pending().skip(old(buffer)@.len() as int),
            old(buffer)@.len() > old(self).pending().len() ==> final(buffer)@ == old(
                self,
            ).pending() + idle_signal((old(buffer)@.len() - old(self).pending().len()) as nat)
                && final(self).pending() == Seq::<u8>::empty(),
    {
        let ghost q0 = self.samples@;
        let ghost n = buffer@.len();
        let mut i: usize = 0;
        while i < buffer.len()
            invariant
                buffer@.len() == n,
                0 <= i <= n,
                self.samples_per_symbol == old(self).samples_per_symbol,
                q0 == old(self).samples@,
                i <= q0.len() ==> self.samples@ == q0.skip(i as int) && buffer@.take(i as int)
                    == q0.take(i as int),
                i > q0.len() ==> self.samples@.len() == 0 && buffer@.take(i as int) == q0
                    + idle_signal((i - q0.len()) as nat),
            decreases n - i,
        {
            let v = match self.samples.pop_front() {
                Some(x) => x,
                None => 1,
            };
            let ghost b0 = buffer@;
            buffer[i] = v;
            proof {
                assert(buffer@ == b0.update(i as int, v));
                if i < q0.len() {
                    assert(v == q0[i as int]);
                    assert(self.samples@ =~= q0.skip(i + 1));
                    assert(buffer@.take(i + 1) =~= q0.take(i + 1));
                } else {
                    assert(buffer@.take(i + 1) =~= b0.take(i as int).push(1u8));
                    assert(q0 + idle_signal((i + 1 - q0.len()) as nat) =~= (q0 + idle_signal(
                        (i - q0.len()) as nat,
                    )).push(1u8));
                }
            }
            i = i + 1;
        }
        assert(buffer@.take(n as int) =~= buffer@);
    }
}

} // verus!

verus! {

/// Samples kept in the trailing window that qualifies a start bit.
pub const HISTORY_LEN: usize = 30;

/// Low samples the full window must hold for a start bit to be accepted.
pub const START_MIN_LOW: usize = 25;

/// Samples waited after the start edge before data symbols are counted.
pub const SETTLE_SAMPLES: usize = 50;

/// Phase of the receive framer.
#[derive(Clone, Copy, Debug, PartialEq, Eq, Structural)]
pub enum RxState {
    Idle,
    MidBit,
    Receiving,
    StopBit,
}

/// Abstract state of a receive framer.
pub struct FramerView {
    pub sps: nat,
    pub state: RxState,
    pub history: Seq<u8>,
    pub sample_count: nat,
    pub bit_index: nat,
    pub current_byte: u8,
    pub settle_count: nat,
}

/// Number of low (0) samples in `s`.
pub open spec fn count_low(s: Seq<u8>) -> nat
    decreases s.len(),
{
    if s.len() == 0 {
        0
    } else {
        count_low(s.drop_last()) + if s.last() == 0 {
            1nat
        } else {
            0nat
        }
    }
}

/// The trailing window after `x` arrives: the oldest sample leaves once it is over-full.
pub open spec fn window_push(h: Seq<u8>, x: u8) -> Seq<u8> {
    if h.len() + 1 > HISTORY_LEN {
        h.push(x).drop_first()
    } else {
        h.push(x)
    }
}

/// A start bit is accepted on a low sample whose full window is mostly low
/// and begins low.
pub open spec fn start_edge(h: Seq<u8>, x: u8) -> bool {
    &&& x == 0
    &&& h.len() == HISTORY_LEN
    &&& count_low(h) >= START_MIN_LOW
    &&& h[0] == 0
}

/// Invariant of a framer: a positive symbol length whose frame fits in `usize`,
/// a bounded window, and counters short of the boundary that ends their phase.
pub open spec fn framer_wf(v: FramerView) -> bool {
    &&& v.sps >= 1
    &&& 9 * v.sps <= usize::MAX
    &&& v.history.len() <= HISTORY_LEN
    &&& v.bit_index <= 8
    &&& match v.state {
        RxState::Idle => true,
        RxState::MidBit => v.settle_count < SETTLE_SAMPLES && v.bit_index == 0 && v.sample_count == 0,
        RxState::Receiving => v.bit_index < 8 && v.sample_count < (v.bit_index + 1) * v.sps,
        RxState::StopBit => v.sample_count < 9 * v.sps,
    }
}

/// One sample through the framer: the next state, and the byte completed by it.
/// The stop bit's level is not checked: a frame is delivered once its stop
/// symbol has been reached, whatever the line holds there.
pub open spec fn rx_step(v: FramerView, x: u8) -> (FramerView, Option<u8>) {
    let h = window_push(v.history, x);
    match v.state {
        RxState::Idle => if start_edge(h, x) {
            (
                FramerView {
                    state: RxState::MidBit,
                    history: h,
                    sample_count: 0,
                    bit_index: 0,
                    current_byte: 0,
                    settle_count: 0,
                    ..v
                },
                None,
            )
        } else {
            (FramerView { history: h, ..v }, None)
        },
        RxState::MidBit => {
            let c = v.settle_count + 1;
            (
                FramerView {
                    state: if c >= SETTLE_SAMPLES {
                        RxState::Receiving
                    } else {
                        RxState::MidBit
                    },
                    history: h,
                    settle_count: c,
                    ..v
                },
                None,
            )
        },
        RxState::Receiving => {
            let c = v.sample_count + 1;
            if c == (v.bit_index + 1) * v.sps {
                let bi = v.bit_index + 1;
                (
                    FramerView {
                        state: if bi >= 8 {
                            RxState::StopBit
                        } else {
                            RxState::Receiving
                        },
                        history: h,
                        sample_count: c,
                        bit_index: bi,
                        current_byte: v.current_byte | ((x & 1) << (v.bit_index as u8)),
                        ..v
                    },
                    None,
                )
            } else {
                (FramerView { history: h, sample_count: c, ..v }, None)
            }
        },
        RxState::StopBit => {
            let c = v.sample_count + 1;
            if c == 9 * v.sps {
                (
                    FramerView {
                        state: RxState::Idle,
                        history: Seq::empty(),
                        sample_count: c,
                        ..v
                    },
                    Some(v.current_byte),
                )
            } else {
                (FramerView { history: h, sample_count: c, ..v }, None)
            }
        },
    }
}

/// The samples `xs` through the framer in order: the final state, and the
/// bytes completed, in order.
pub open spec fn rx_run(v: FramerView, xs: Seq<u8>) -> (FramerView, Seq<u8>)
    decreases xs.len(),
{
    if xs.len() == 0 {
        (v, Seq::empty())
    } else {
        let (v1, out) = rx_run(v, xs.drop_last());
        let (v2, o) = rx_step(v1, xs.last());
        (
            v2,
            match o {
                Some(b) => out.push(b),
                None => out,
            },
        )
    }
}

/// Recovers bytes from a line signal of one value per sample.
pub struct RxFramer {
    samples_per_symbol: usize,
    history: VecDeque<u8>,
    state: RxState,
    sample_count: usize,
    bit_index: usize,
    current_byte: u8,
    settle_count: usize,
}

impl View for RxFramer {
    type V = FramerView;

    closed spec fn view(&self) -> FramerView {
        FramerView {
            sps: self.samples_per_symbol as nat,
            state: self.state,
            history: self.history@,
            sample_count: self.sample_count as nat,
            bit_index: self.bit_index as nat,
            current_byte: self.current_byte,
            settle_count: self.settle_count as nat,
        }
    }
}

fn count_low_samples(h: &VecDeque<u8>) -> (r: usize)
    ensures
        r == count_low(h@),
{
    let mut n: usize = 0;
    let mut i: usize = 0;
    while i < h.len()
        invariant
            i <= h@.len(),
            n == count_low(h@.take(i as int)),
            n <= i,
        decreases h@.len() - i,
    {
        assert(h@.take(i + 1).drop_last() =~= h@.take(i as int));
        if h[i] == 0 {
            n = n + 1;
        }
        i = i + 1;
    }
    assert(h@.take(i as int) =~= h@);
    n
}

impl RxFramer {
    pub fn new(samples_per_symbol: usize) -> (r: RxFramer)
        requires
            samples_per_symbol >= 1,
            9 * samples_per_symbol <= usize::MAX,
        ensures
            framer_wf(r@),
            r@.sps == samples_per_symbol,
            r@.state == RxState::Idle,
            r@.history == Seq::<u8>::empty(),
    {
        RxFramer {
            samples_per_symbol,
            history: VecDeque::new(),
            state: RxState::Idle,
            sample_count: 0,
            bit_index: 0,
            current_byte: 0,
            settle_count: 0,
        }
    }

    pub fn state(&self) -> (r: RxState)
        ensures
            r == self@.state,
    {
        self.state
    }

    /// Feeds one sample; returns the byte whose frame it completes.
    pub fn push_sample(&mut self, sample: u8) -> (r: Option<u8>)
        requires
            framer_wf(old(self)@),
        ensures
            framer_wf(final(self)@),
            (final(self)@, r) == rx_step(old(self)@, sample),
    {
        let ghost v = self@;
        self.history.push_back(sample);
        if self.history.len() > HISTORY_LEN {
            self.history.pop_front();
        }
        assert(self.history@ =~= window_push(v.history, sample));
        match self.state {
            RxState::Idle => {
                if sample == 0 && self.history.len() == HISTORY_LEN {
                    let low = count_low_samples(&self.history);
                    if low >= START_MIN_LOW && self.history[0] == 0 {
                        self.bit_index = 0;
                        self.sample_count = 0;
                        self.settle_count = 0;
                        self.current_byte = 0;
                        self.state = RxState::MidBit;
                    }
                }
                None
            },
            RxState::MidBit => {
                self.settle_count = self.settle_count + 1;
                if self.settle_count >= SETTLE_SAMPLES {
                    self.state = RxState::Receiving;
                }
                assert((self.bit_index + 1) * self.samples_per_symbol == self.samples_per_symbol)
                    by (nonlinear_arith)
                    requires
                        self.bit_index == 0,
                ;
                None
            },
            RxState::Receiving => {
                assert((self.bit_index + 1) * self.samples_per_symbol <= 9 * self.samples_per_symbol)
                    by (nonlinear_arith)
                    requires
                        self.bit_index < 8,
                ;
                self.sample_count = self.sample_count + 1;
                if self.sample_count == (self.bit_index + 1) * self.samples_per_symbol {
                    self.current_byte = self.current_byte | ((sample & 1) << (
                    self.bit_index as u8));
                    self.bit_index = self.bit_index + 1;
                    assert(self.bit_index * self.samples_per_symbol < (self.bit_index + 1)
                        * self.samples_per_symbol) by (nonlinear_arith)
                        requires
                            self.samples_per_symbol >= 1,
                    ;
                    assert(self.bit_index * self.samples_per_symbol < 9 * self.samples_per_symbol)
                        by (nonlinear_arith)
                        requires
                            self.samples_per_symbol >= 1,
                            self.bit_index <= 8,
                    ;
                    if self.bit_index >= 8 {
                        self.state = RxState::StopBit;
                    }
                }
                None
            },
            RxState::StopBit => {
                self.sample_count = self.sample_count + 1;
                if self.sample_count == 9 * self.samples_per_symbol {
                    self.state = RxState::Idle;
                    self.history.clear();
                    Some(self.current_byte)
                } else {
                    None
                }
            },
        }
    }

    /// Feeds `buffer` in order; returns the bytes completed, in order.
    pub fn push_samples(&mut self, buffer: &[u8]) -> (r: Vec<u8>)
        requires
            framer_wf(old(self)@),
        ensures
            framer_wf(final(self)@),
            (final(self)@, r@) == rx_run(old(self)@, buffer@),
    {
        let mut out: Vec<u8> = Vec::new();
        let mut i: usize = 0;
        while i < buffer.len()
            invariant
                i <= buffer@.len(),
                framer_wf(self@),
                (self@, out@) == rx_run(old(self)@, buffer@.take(i as int)),
            decreases buffer@.len() - i,
        {
            assert(buffer@.take(i + 1).drop_last() =~= buffer@.take(i as int));
            match self.push_sample(buffer[i]) {
                Some(b) => out.push(b),
                None => {},
            }
            i = i + 1;
        }
        assert(buffer@.take(i as int) =~= buffer@);
        out
    }
}

} // verus!

verus! {

#[verifier::external_type_specification]
#[verifier::external_body]
#[verifier::reject_recursive_types(T)]
pub struct ExSender<T>(Sender<T>);

/// Relies on crossbeam_channel::Sender::try_send: hands `byte` to the channel
/// without blocking, and reports whether the channel took it (it does not when
/// full or disconnected).
#[verifier::external_body]
fn try_deliver(to: &Sender<u8>, byte: u8) -> (delivered: bool) {
    to.try_send(byte).is_ok()
}

/// A receive framer that hands each completed byte to a channel.
pub struct UartRx {
    framer: RxFramer,
    to_pty: Sender<u8>,
}

impl UartRx {
    /// State of the framer inside.
    pub closed spec fn framer(&self) -> FramerView {
        self.framer@
    }

    pub fn new(samples_per_symbol: usize, to_pty: Sender<u8>) -> (r: UartRx)
        requires
            samples_per_symbol >= 1,
            9 * samples_per_symbol <= usize::MAX,
        ensures
            framer_wf(r.framer()),
            r.framer().sps == samples_per_symbol,
            r.framer().state == RxState::Idle,
            r.framer().history == Seq::<u8>::empty(),
    {
        UartRx { framer: RxFramer::new(samples_per_symbol), to_pty }
    }

    pub fn state(&self) -> (r: RxState)
        ensures
            r == self.framer().state,
    {
        self.framer.state()
    }

    /// Feeds `buffer` in order and offers each completed byte to the channel,
    /// without blocking. Returns how many of those bytes the channel refused;
    /// a refused byte is not offered again.
    pub fn put_samples(&mut self, buffer: &[u8]) -> (refused: usize)
        requires
            framer_wf(old(self).framer()),
        ensures
            framer_wf(final(self).framer()),
            final(self).framer() == rx_run(old(self).framer(), buffer@).0,
            refused <= rx_run(old(self).framer(), buffer@).1.len(),
    {
        let bytes = self.framer.push_samples(buffer);
        let mut refused: usize = 0;
        let mut i: usize = 0;
        while i < bytes.len()
            invariant
                i <= bytes@.len(),
                refused <= i,
            decreases bytes@.len() - i,
        {
            if !try_deliver(&self.to_pty, bytes[i]) {
                refused = refused + 1;
            }
            i = i + 1;
        }
        refused
    }
}

/// A line held at the idle level never yields a byte: an idle framer fed
/// only 1s stays idle, with a window of 1s.
pub proof fn lemma_idle_line_is_silent(v: FramerView, xs: Seq<u8>)
    requires
        framer_wf(v),
        v.state == RxState::Idle,
        forall|i: int| 0 <= i < xs.len() ==> xs[i] == 1,
    ensures
        rx_run(v, xs).1 == Seq::<u8>::empty(),
        rx_run(v, xs).0.state == RxState::Idle,
        framer_wf(rx_run(v, xs).0),
    decreases xs.len(),
{
    if xs.len() > 0 {
        lemma_idle_line_is_silent(v, xs.drop_last());
    }
}

} // verus!

verus! {

/// The byte assembled from the `k` lowest data bits of `b`, least significant first.
pub open spec fn low_bits(b: u8, k: nat) -> u8
    decreases k,
{
    if k == 0 {
        0
    } else {
        low_bits(b, (k - 1) as nat) | (((b >> ((k - 1) as u8)) & 1) << ((k - 1) as u8))
    }
}

proof fn lemma_low_bits_full(b: u8)
    ensures
        low_bits(b, 8) == b,
{
    reveal_with_fuel(low_bits, 9);
    assert(0u8 | (((b >> 0u8) & 1u8) << 0u8) | (((b >> 1u8) & 1u8) << 1u8) | (((b >> 2u8) & 1u8)
        << 2u8) | (((b >> 3u8) & 1u8) << 3u8) | (((b >> 4u8) & 1u8) << 4u8) | (((b >> 5u8) & 1u8)
        << 5u8) | (((b >> 6u8) & 1u8) << 6u8) | (((b >> 7u8) & 1u8) << 7u8) == b) by (bit_vector);
}

proof fn lemma_count_low_all_low(s: Seq<u8>)
    requires
        forall|i: int| 0 <= i < s.len() ==> s[i] == 0,
    ensures
        count_low(s) == s.len(),
    decreases s.len(),
{
    if s.len() > 0 {
        lemma_count_low_all_low(s.drop_last());
    }
}

proof fn lemma_succ_div(c: int, l: int)
    requires
        l > 0,
        c >= 0,
    ensures
        c + 1 == (c / l + 1) * l ==> (c + 1) / l == c / l + 1,
        c + 1 != (c / l + 1) * l ==> (c + 1) / l == c / l,
        c / l >= 0,
{
    let q = c / l;
    let r = c % l;
    vstd::arithmetic::div_mod::lemma_fundamental_div_mod(c, l);
    assert(0 <= r < l);
    assert(q >= 0) by (nonlinear_arith)
        requires
            c == l * q + r,
            c >= 0,
            0 <= r < l,
    ;
    if r == l - 1 {
        assert(c + 1 == (q + 1) * l) by (nonlinear_arith)
            requires
                c == l * q + r,
                r == l - 1,
        ;
        vstd::arithmetic::div_mod::lemma_fundamental_div_mod_converse(c + 1, l, q + 1, 0);
    } else {
        assert(c + 1 == q * l + (r + 1)) by (nonlinear_arith)
            requires
                c == l * q + r,
        ;
        assert(c + 1 != (q + 1) * l) by (nonlinear_arith)
            requires
                c + 1 == q * l + (r + 1),
                r + 1 < l,
        ;
        vstd::arithmetic::div_mod::lemma_fundamental_div_mod_converse(c + 1, l, q, r + 1);
    }
}

/// Where the framer stands after the first `n` samples of the frame carrying
/// `b`, started idle with an idle window `v.history`.
pub open spec fn frame_progress(v: FramerView, b: u8, n: int, r: (FramerView, Seq<u8>)) -> bool {
    let l = v.sps as int;
    let w = HISTORY_LEN as int;
    let d = w + SETTLE_SAMPLES as int;
    let st = r.0;
    &&& st.sps == v.sps
    &&& if n < w {
        &&& r.1 == Seq::<u8>::empty()
        &&& st.state == RxState::Idle
        &&& st.history.len() == if v.history.len() + n <= w {
            v.history.len() + n
        } else {
            w
        }
        &&& forall|i: int|
            0 <= i < st.history.len() ==> #[trigger] st.history[i] == if i < st.history.len() - n {
                1u8
            } else {
                0u8
            }
    } else if n < d {
        &&& r.1 == Seq::<u8>::empty()
        &&& st.state == RxState::MidBit
        &&& st.settle_count == n - w
        &&& st.bit_index == 0
        &&& st.sample_count == 0
        &&& st.current_byte == 0
    } else if n < d + 9 * l {
        &&& r.1 == Seq::<u8>::empty()
        &&& st.sample_count == n - d
        &&& (n - d < 8 * l ==> st.state == RxState::Receiving && st.bit_index == (n - d) / l
            && st.current_byte == low_bits(b, ((n - d) / l) as nat))
        &&& (n - d >= 8 * l ==> st.state == RxState::StopBit && st.bit_index == 8 && st.current_byte
            == b)
    } else {
        &&& r.1 == seq![b]
        &&& st.state == RxState::Idle
        &&& st.history.len() <= w
        &&& st.bit_index <= 8
        &&& forall|i: int| 0 <= i < st.history.len() ==> #[trigger] st.history[i] == 1
    }
}

proof fn lemma_frame_progress(v: FramerView, b: u8, n: int)
    requires
        framer_wf(v),
        v.state == RxState::Idle,
        forall|i: int| 0 <= i < v.history.len() ==> #[trigger] v.history[i] == 1,
        v.sps >= HISTORY_LEN + SETTLE_SAMPLES,
        0 <= n <= 10 * v.sps,
    ensures
        frame_progress(v, b, n, rx_run(v, frame_signal(b, v.sps).take(n))),
    decreases n,
{
    let s = frame_signal(b, v.sps);
    let l = v.sps as int;
    let w = HISTORY_LEN as int;
    let d = w + SETTLE_SAMPLES as int;
    if n == 0 {
        assert(s.take(0) =~= Seq::<u8>::empty());
    } else {
        let m = n - 1;
        lemma_frame_progress(v, b, m);
        assert(s.take(n).drop_last() =~= s.take(m));
        let r = rx_run(v, s.take(m));
        let st = r.0;
        let x = s[m];
        assert(s.take(n).last() == x);
        assert(x == frame_bit(b, m / l));
        if m < d {
            lemma_symbol_index(m, 0, l);
            assert(x == 0);
        }
        if m < w {
            let h = window_push(st.history, x);
            assert(forall|i: int|
                0 <= i < h.len() ==> #[trigger] h[i] == if i < h.len() - n {
                    1u8
                } else {
                    0u8
                });
            if n == w {
                lemma_count_low_all_low(h);
            } else {
                if h.len() == w {
                    assert(h[0] == 1);
                }
            }
        } else if m < d {
        } else if m < d + 8 * l {
            let c = m - d;
            let k = c / l;
            lemma_succ_div(c, l);
            assert(c < (k + 1) * l && k < 8) by {
                vstd::arithmetic::div_mod::lemma_fundamental_div_mod(c, l);
                assert(c < (k + 1) * l && k < 8) by (nonlinear_arith)
                    requires
                        c == l * k + c % l,
                        0 <= c % l < l,
                        c < 8 * l,
                ;
            }
            if c + 1 == (k + 1) * l {
                assert(m == (k + 1) * l + d - 1);
                assert((k + 2) * l == (k + 1) * l + l) by (nonlinear_arith);
                lemma_symbol_index(m, k + 1, l);
                assert(x == (b >> (k as u8)) & 1);
                let kk = k as u8;
                assert(((b >> kk) & 1) & 1 == (b >> kk) & 1) by (bit_vector);
                assert(k + 1 < 8 <==> c + 1 < 8 * l) by (nonlinear_arith)
                    requires
                        c + 1 == (k + 1) * l,
                        l > 0,
                ;
                if k + 1 == 8 {
                    lemma_low_bits_full(b);
                }
            } else {
                assert(c + 1 < 8 * l) by (nonlinear_arith)
                    requires
                        (c + 1) / l == k,
                        c + 1 < (k + 1) * l,
                        c + 1 != (k + 1) * l,
                        k + 1 <= 8,
                        l > 0,
                ;
            }
        } else if m < d + 9 * l {
        } else {
            lemma_symbol_index(m, 9, l);
            assert(x == 1);
        }
    }
}

/// Framing round trip: the frame that the transmitter makes of `b`, fed to
/// an idle framer whose window holds only idle samples, yields exactly `b`
/// and leaves the framer idle with such a window again, so frames chain.
/// The start qualification and the settle delay must end inside the start
/// symbol, hence the lower bound on the symbol length.
pub proof fn lemma_frame_round_trip(v: FramerView, b: u8)
    requires
        framer_wf(v),
        v.state == RxState::Idle,
        forall|i: int| 0 <= i < v.history.len() ==> #[trigger] v.history[i] == 1,
        v.sps >= HISTORY_LEN + SETTLE_SAMPLES,
    ensures
        rx_run(v, frame_signal(b, v.sps)).1 == seq![b],
        framer_wf(rx_run(v, frame_signal(b, v.sps)).0),
        rx_run(v, frame_signal(b, v.sps)).0.sps == v.sps,
        rx_run(v, frame_signal(b, v.sps)).0.state == RxState::Idle,
        forall|i: int|
            0 <= i < rx_run(v, frame_signal(b, v.sps)).0.history.len() ==> #[trigger] rx_run(
                v,
                frame_signal(b, v.sps),
            ).0.history[i] == 1,
{
    let s = frame_signal(b, v.sps);
    lemma_frame_progress(v, b, (10 * v.sps) as int);
    assert(s.take((10 * v.sps) as int) =~= s);
}

} // verus!

verus! {

/// The line signal of the frames of `bs`, back to back.
pub open spec fn message_signal(bs: Seq<u8>, sps: nat) -> Seq<u8>
    decreases bs.len(),
{
    if bs.len() == 0 {
        Seq::empty()
    } else {
        message_signal(bs.drop_last(), sps) + frame_signal(bs.last(), sps)
    }
}

/// Feeding `xs` and then `ys` is feeding `xs + ys`.
pub proof fn lemma_rx_run_concat(v: FramerView, xs: Seq<u8>, ys: Seq<u8>)
    ensures
        rx_run(v, xs + ys).0 == rx_run(rx_run(v, xs).0, ys).0,
        rx_run(v, xs + ys).1 == rx_run(v, xs).1 + rx_run(rx_run(v, xs).0, ys).1,
    decreases ys.len(),
{
    if ys.len() == 0 {
        assert(xs + ys =~= xs);
        assert(rx_run(v, xs).1 + Seq::<u8>::empty() =~= rx_run(v, xs).1);
    } else {
        lemma_rx_run_concat(v, xs, ys.drop_last());
        assert((xs + ys).drop_last() =~= xs + ys.drop_last());
        assert((xs + ys).last() == ys.last());
        let a = rx_run(v, xs).1;
        let bb = rx_run(rx_run(v, xs).0, ys.drop_last()).1;
        let (v2, o) = rx_step(rx_run(rx_run(v, xs).0, ys.drop_last()).0, ys.last());
        match o {
            Some(x) => {
                assert((a + bb).push(x) =~= a + bb.push(x));
            },
            None => {},
        }
    }
}

/// Message round trip: the frames of `bs`, back to back, fed to an idle
/// framer whose window holds only idle samples, yield exactly `bs`.
pub proof fn lemma_message_round_trip(v: FramerView, bs: Seq<u8>)
    requires
        framer_wf(v),
        v.state == RxState::Idle,
        forall|i: int| 0 <= i < v.history.len() ==> #[trigger] v.history[i] == 1,
        v.sps >= HISTORY_LEN + SETTLE_SAMPLES,
    ensures
        rx_run(v, message_signal(bs, v.sps)).1 == bs,
        framer_wf(rx_run(v, message_signal(bs, v.sps)).0),
        rx_run(v, message_signal(bs, v.sps)).0.sps == v.sps,
        rx_run(v, message_signal(bs, v.sps)).0.state == RxState::Idle,
        forall|i: int|
            0 <= i < rx_run(v, message_signal(bs, v.sps)).0.history.len() ==> #[trigger] rx_run(
                v,
                message_signal(bs, v.sps),
            ).0.history[i] == 1,
    decreases bs.len(),
{
    if bs.len() == 0 {
        assert(message_signal(bs, v.sps) =~= Seq::<u8>::empty());
    } else {
        let init = bs.drop_last();
        lemma_message_round_trip(v, init);
        let mid = rx_run(v, message_signal(init, v.sps)).0;
        lemma_frame_round_trip(mid, bs.last());
        lemma_rx_run_concat(v, message_signal(init, v.sps), frame_signal(bs.last(), v.sps));
        assert(init.push(bs.last()) =~= bs);
    }
}

} // verus!
