//! WS2812 pixels, driven by a pulse generator.
//!
//! A pixel takes 24 bits, the highest first. Each bit is one pulse: high for a short or a long
//! while, then low for the rest of the bit time.

use vstd::prelude::*;

verus! {

/// Clock of the pulse generator, in megahertz.
pub const APB_CLOCK_MHZ: u32 = 80;

/// What the clock is divided by.
pub const RMT_CLK_DIVIDER: u8 = 2;

/// Ticks per microsecond: the clock over the divider.
pub const RMT_CHAN_FREQ: u16 = APB_CLOCK_MHZ as u16 / RMT_CLK_DIVIDER as u16;

/// How long a zero bit is high: 0.4 microseconds.
pub const T0H: u16 = RMT_CHAN_FREQ * 400 / 1000;

/// How long a zero bit is low: 0.85 microseconds.
pub const T0L: u16 = RMT_CHAN_FREQ * 850 / 1000;

/// How long a one bit is high: 0.8 microseconds.
pub const T1H: u16 = RMT_CHAN_FREQ * 800 / 1000;

/// How long a one bit is low: 0.45 microseconds.
pub const T1L: u16 = RMT_CHAN_FREQ * 450 / 1000;

/// How long a reset is low: 500 microseconds.
pub const RESET_H: u16 = RMT_CHAN_FREQ * 500;

/// The most pixels that one transaction can set.
pub const MAX_PIXELS: usize = 64;

/// Pulses of one pixel.
pub const N_PIXEL: usize = 24;

/// Microseconds of silence before and after a transaction.
pub const QUIET_MICROS: u64 = 60;

/// A line level.
#[derive(Clone, Copy, Debug, PartialEq, Eq, Structural)]
pub enum Level {
    Low,
    High,
}

/// Two levels, each held for a number of ticks. A length of zero ends a transmission.
#[derive(Clone, Copy, Debug, PartialEq, Eq, Structural)]
pub struct Pulse {
    pub level1: Level,
    pub length1: u16,
    pub level2: Level,
    pub length2: u16,
}

/// The pulse of one bit.
pub open spec fn bit_pulse(bit: bool) -> Pulse {
    if bit {
        Pulse { level1: Level::High, length1: T1H, level2: Level::Low, length2: T1L }
    } else {
        Pulse { level1: Level::High, length1: T0H, level2: Level::Low, length2: T0L }
    }
}

/// The empty pulse that ends a transmission.
pub open spec fn end_pulse() -> Pulse {
    Pulse { level1: Level::Low, length1: 0, level2: Level::Low, length2: 0 }
}

/// The long low pulse that makes the pixels show what they have got. It ends a transmission too.
pub open spec fn reset_pulse() -> Pulse {
    Pulse { level1: Level::Low, length1: RESET_H, level2: Level::High, length2: 0 }
}

/// The `i`-th of the 24 low bits of a colour word, counted from the highest.
pub open spec fn colour_bit(word: u32, i: int) -> bool {
    (word >> ((23 - i) as u32)) & 1 != 0
}

/// The pulses of one pixel.
pub open spec fn pixel_pulses(word: u32) -> Seq<Pulse> {
    Seq::new(N_PIXEL as nat, |i: int| bit_pulse(colour_bit(word, i)))
}

/// The pulses of a row of pixels.
pub open spec fn row_pulses(words: Seq<u32>) -> Seq<Pulse>
    decreases words.len(),
{
    if words.len() == 0 {
        Seq::empty()
    } else {
        row_pulses(words.drop_last()) + pixel_pulses(words.last())
    }
}

/// What pixels take these pulses for: a binary number, the highest bit first, where a bit is one
/// when its pulse is high for more than half of its 50 ticks.
pub open spec fn taken_for(pulses: Seq<Pulse>) -> int
    decreases pulses.len(),
{
    if pulses.len() == 0 {
        0
    } else {
        2 * taken_for(pulses.drop_last()) + if pulses.last().length1 > 25 {
            1int
        } else {
            0int
        }
    }
}

/// These are pulses of data: each is high and then low, for 50 ticks in all, 16 or 32 of them high.
pub open spec fn data_pulses(pulses: Seq<Pulse>) -> bool {
    forall|i: int|
        0 <= i < pulses.len() ==> {
            &&& (#[trigger] pulses[i]).level1 is High
            &&& pulses[i].level2 is Low
            &&& pulses[i].length1 == 16 || pulses[i].length1 == 32
            &&& pulses[i].length1 + pulses[i].length2 == 50
        }
}

/// The first `k` pulses of a pixel are taken for the `k` highest of its 24 bits.
proof fn lemma_taken_for(word: u32, k: int)
    requires
        0 <= k <= 24,
    ensures
        taken_for(pixel_pulses(word).take(k)) == (word & 0xff_ffff) >> ((24 - k) as u32),
    decreases k,
{
    let low = word & 0xff_ffff;
    let part = pixel_pulses(word).take(k);
    if k == 0 {
        assert(low >> 24u32 == 0) by (bit_vector)
            requires
                low == word & 0xff_ffff,
        ;
    } else {
        lemma_taken_for(word, k - 1);
        assert(part.drop_last() =~= pixel_pulses(word).take(k - 1));
        let down = (24 - k) as u32;
        let up = (25 - k) as u32;
        assert(part.last() == bit_pulse(colour_bit(word, k - 1)));
        assert((23 - (k - 1)) as u32 == down);
        assert(low >> down == 2 * (low >> up) + if (word >> down) & 1 != 0 {
            1int
        } else {
            0int
        }) by (bit_vector)
            requires
                down < 24,
                up == down + 1,
                low == word & 0xff_ffff,
        ;
    }
}

/// A pixel shows the colour that it is sent: what it takes its 24 pulses for, the first as the
/// highest bit, is the colour word without its bits above 24.
pub proof fn law_pixel_takes_its_colour(word: u32)
    ensures
        pixel_pulses(word).len() == 24,
        taken_for(pixel_pulses(word)) == word % 0x100_0000,
        data_pulses(pixel_pulses(word)),
{
    lemma_taken_for(word, 24);
    assert(pixel_pulses(word).take(24) =~= pixel_pulses(word));
    assert((word & 0xff_ffff) >> 0u32 == word % 0x100_0000) by (bit_vector);
}

impl Pulse {
    /// The pulse of one bit.
    pub fn bit(bit: bool) -> (result: Self)
        ensures
            result == bit_pulse(bit),
            result.level1 is High,
            result.level2 is Low,
            result.length1 == if bit {
                32int
            } else {
                16int
            },
            result.length1 + result.length2 == 50,
    {
        if bit {
            Pulse { level1: Level::High, length1: T1H, level2: Level::Low, length2: T1L }
        } else {
            Pulse { level1: Level::High, length1: T0H, level2: Level::Low, length2: T0L }
        }
    }

    /// The empty pulse that ends a transmission.
    pub fn end_marker() -> (result: Self)
        ensures
            result == end_pulse(),
            result.level1 is Low && result.length1 == 0,
            result.level2 is Low && result.length2 == 0,
    {
        Pulse { level1: Level::Low, length1: 0, level2: Level::Low, length2: 0 }
    }

    /// The long low pulse that makes the pixels show what they have got.
    pub fn reset() -> (result: Self)
        ensures
            result == reset_pulse(),
            result.level1 is Low && result.length1 == 20000,
            result.level2 is High && result.length2 == 0,
    {
        Pulse { level1: Level::Low, length1: RESET_H, level2: Level::High, length2: 0 }
    }
}

/// The pulses of the pixel with this colour word.
pub fn encode_pixel(word: u32) -> (result: [Pulse; 24])
    ensures
        result@ == pixel_pulses(word),
        taken_for(result@) == word % 0x100_0000,
        data_pulses(result@),
{
    let mut pulses: [Pulse; 24] = [Pulse::end_marker(); 24];
    let mut i: usize = 0;
    while i < N_PIXEL
        invariant
            i <= N_PIXEL,
            forall|j: int| 0 <= j < i ==> pulses@[j] == bit_pulse(colour_bit(word, j)),
        decreases N_PIXEL - i,
    {
        pulses[i] = Pulse::bit((word >> ((23 - i) as u32)) & 1 != 0);
        i += 1;
    }
    assert(pulses@ =~= pixel_pulses(word));
    proof {
        law_pixel_takes_its_colour(word);
    }
    pulses
}

/// The pulses of the pixel with this colour word, and an end marker.
pub fn encode_pixel_with_end_marker(word: u32) -> (result: [Pulse; 25])
    ensures
        result@ == pixel_pulses(word).push(end_pulse()),
        taken_for(result@.take(24)) == word % 0x100_0000,
        data_pulses(result@.take(24)),
        result@[24].length1 == 0 && result@[24].length2 == 0,
{
    let mut pulses: [Pulse; 25] = [Pulse::end_marker(); 25];
    let mut i: usize = 0;
    while i < N_PIXEL
        invariant
            i <= N_PIXEL,
            forall|j: int| 0 <= j < i ==> pulses@[j] == bit_pulse(colour_bit(word, j)),
            pulses@[24] == end_pulse(),
        decreases N_PIXEL - i,
    {
        pulses[i] = Pulse::bit((word >> ((23 - i) as u32)) & 1 != 0);
        i += 1;
    }
    assert(pulses@ =~= pixel_pulses(word).push(end_pulse()));
    assert(pulses@.take(24) =~= pixel_pulses(word));
    proof {
        law_pixel_takes_its_colour(word);
    }
    pulses
}

/// One thing to do on the line.
pub enum Step {
    /// Leave the line alone for this many microseconds.
    Pause(u64),
    /// Send these pulses.
    Transmit(Vec<Pulse>),
}

/// A step as a mathematical value.
pub enum StepView {
    Pause(u64),
    Transmit(Seq<Pulse>),
}

impl View for Step {
    type V = StepView;

    open spec fn view(&self) -> StepView {
        match *self {
            Step::Pause(micros) => StepView::Pause(micros),
            Step::Transmit(pulses) => StepView::Transmit(pulses@),
        }
    }
}

/// The views of a list of steps.
pub open spec fn step_views(steps: Seq<Step>) -> Seq<StepView> {
    steps.map_values(|step: Step| step@)
}

/// Setting a row in one transaction: all pulses and an end marker, with silence around them.
pub open spec fn transaction_steps(words: Seq<u32>) -> Seq<StepView> {
    seq![
        StepView::Pause(QUIET_MICROS),
        StepView::Transmit(row_pulses(words).push(end_pulse())),
        StepView::Pause(QUIET_MICROS),
    ]
}

/// The transmission of a reset.
pub open spec fn reset_step() -> StepView {
    StepView::Transmit(seq![reset_pulse(), end_pulse()])
}

/// The transmissions of pixels, one for each.
pub open spec fn pixel_steps(words: Seq<u32>) -> Seq<StepView> {
    words.map_values(|word: u32| StepView::Transmit(pixel_pulses(word).push(end_pulse())))
}

/// Setting a row pixel by pixel: a reset, one transmission for each pixel, and a reset.
pub open spec fn single_steps(words: Seq<u32>) -> Seq<StepView> {
    seq![reset_step()] + pixel_steps(words) + seq![reset_step()]
}

/// These steps set a row in one transaction: between two pauses of 60 microseconds, one
/// transmission of 24 data pulses for each word, which a pixel takes for that colour, and an empty
/// pulse.
pub open spec fn sends_in_one(words: Seq<u32>, steps: Seq<StepView>) -> bool {
    &&& steps.len() == 3
    &&& steps[0] == StepView::Pause(60)
    &&& steps[2] == StepView::Pause(60)
    &&& steps[1] matches StepView::Transmit(pulses) && {
        &&& pulses.len() == 24 * words.len() + 1
        &&& data_pulses(pulses.drop_last())
        &&& pulses.last().length1 == 0
        &&& pulses.last().length2 == 0
        &&& forall|i: int|
            0 <= i < words.len() ==> taken_for(pulses.subrange(24 * i, 24 * i + 24)) == (
            #[trigger] words[i]) % 0x100_0000
    }
}

/// The step is a reset: low for 20000 ticks, then nothing.
pub open spec fn resets(step: StepView) -> bool {
    step matches StepView::Transmit(pulses) && {
        &&& pulses.len() == 2
        &&& pulses[0].level1 is Low
        &&& pulses[0].length1 == 20000
        &&& pulses[0].length2 == 0
        &&& pulses[1].length1 == 0
        &&& pulses[1].length2 == 0
    }
}

/// These steps set a row pixel by pixel: a reset, then for each word one transmission of 24 data
/// pulses, which a pixel takes for that colour, and an empty pulse, and a reset.
pub open spec fn sends_one_by_one(words: Seq<u32>, steps: Seq<StepView>) -> bool {
    &&& steps.len() == words.len() + 2
    &&& resets(steps[0])
    &&& resets(steps.last())
    &&& forall|i: int|
        0 <= i < words.len() ==> (#[trigger] steps[i + 1] matches StepView::Transmit(pulses) && {
            &&& pulses.len() == 25
            &&& data_pulses(pulses.take(24))
            &&& taken_for(pulses.take(24)) == words[i] % 0x100_0000
            &&& pulses[24].length1 == 0
            &&& pulses[24].length2 == 0
        })
}

/// The pulses of a row are the pulses of its pixels, 24 for each.
proof fn lemma_row(words: Seq<u32>)
    ensures
        row_pulses(words).len() == 24 * words.len(),
        data_pulses(row_pulses(words)),
        forall|i: int|
            0 <= i < words.len() ==> row_pulses(words).subrange(24 * i, 24 * i + 24)
                == pixel_pulses(#[trigger] words[i]),
    decreases words.len(),
{
    if words.len() > 0 {
        let fewer = words.drop_last();
        let last = pixel_pulses(words.last());
        let row = row_pulses(words);
        lemma_row(fewer);
        law_pixel_takes_its_colour(words.last());
        assert forall|i: int| 0 <= i < words.len() implies row.subrange(24 * i, 24 * i + 24)
            == pixel_pulses(#[trigger] words[i]) by {
            if i < fewer.len() {
                assert(words[i] == fewer[i]);
                assert(row.subrange(24 * i, 24 * i + 24) =~= row_pulses(fewer).subrange(
                    24 * i,
                    24 * i + 24,
                ));
            } else {
                assert(row.subrange(24 * i, 24 * i + 24) =~= last);
            }
        }
    }
}

/// Setting a row in one transaction sends every pixel its colour, in order, and nothing else.
pub proof fn law_transaction_sends_every_colour(words: Seq<u32>)
    ensures
        sends_in_one(words, transaction_steps(words)),
{
    let row = row_pulses(words);
    let pulses = row.push(end_pulse());
    lemma_row(words);
    assert(pulses.drop_last() =~= row);
    assert forall|i: int| 0 <= i < words.len() implies taken_for(
        pulses.subrange(24 * i, 24 * i + 24),
    ) == (#[trigger] words[i]) % 0x100_0000 by {
        law_pixel_takes_its_colour(words[i]);
        assert(pulses.subrange(24 * i, 24 * i + 24) =~= row.subrange(24 * i, 24 * i + 24));
    }
}

/// Setting a row pixel by pixel sends every pixel its colour, in order, between two resets.
pub proof fn law_single_steps_send_every_colour(words: Seq<u32>)
    ensures
        sends_one_by_one(words, single_steps(words)),
{
    let steps = single_steps(words);
    assert forall|i: int| 0 <= i < words.len() implies (
    #[trigger] steps[i + 1] matches StepView::Transmit(pulses) && {
        &&& pulses.len() == 25
        &&& data_pulses(pulses.take(24))
        &&& taken_for(pulses.take(24)) == words[i] % 0x100_0000
        &&& pulses[24].length1 == 0
        &&& pulses[24].length2 == 0
    }) by {
        law_pixel_takes_its_colour(words[i]);
        assert(steps[i + 1] == pixel_steps(words)[i]);
        assert(pixel_pulses(words[i]).push(end_pulse()).take(24) =~= pixel_pulses(words[i]));
    }
}

/// A driver as a mathematical value: what is still to be done, and whether a transmission failed.
pub struct DriverView {
    pub pending: Seq<StepView>,
    pub failed: bool,
}

impl DriverView {
    /// The driver after its first pending step went well or failed. A failure ends everything.
    pub open spec fn stepped(self, ok: bool) -> DriverView {
        if ok {
            DriverView { pending: self.pending.drop_first(), failed: self.failed }
        } else {
            DriverView { pending: Seq::empty(), failed: true }
        }
    }
}

/// Drives a row of pixels: says step by step what to do on the line.
pub struct Ws2812 {
    steps: Vec<Step>,
    position: usize,
    failed: bool,
}

impl View for Ws2812 {
    type V = DriverView;

    closed spec fn view(&self) -> DriverView {
        DriverView {
            pending: step_views(self.steps@.skip(self.position as int)),
            failed: self.failed,
        }
    }
}

impl Ws2812 {
    #[verifier::type_invariant]
    closed spec fn inv(self) -> bool {
        self.position <= self.steps@.len()
    }

    /// A driver with nothing to do.
    pub fn new() -> (result: Self)
        ensures
            result@ == (DriverView { pending: Seq::empty(), failed: false }),
            result@.pending.len() == 0,
            !result@.failed,
    {
        let result = Ws2812 { steps: Vec::new(), position: 0, failed: false };
        assert(result@.pending =~= Seq::<StepView>::empty());
        result
    }

    /// Starts on a list of steps.
    fn start(steps: Vec<Step>) -> (result: Self)
        ensures
            result@ == (DriverView { pending: step_views(steps@), failed: false }),
    {
        let result = Ws2812 { steps, position: 0, failed: false };
        assert(result.steps@.skip(0) =~= result.steps@);
        result
    }

    /// Sets pixels to these colour words in one transaction.
    pub fn set_n(&mut self, words: &[u32])
        requires
            words@.len() <= MAX_PIXELS,
        ensures
            final(self)@ == (DriverView { pending: transaction_steps(words@), failed: false }),
            !final(self)@.failed,
            sends_in_one(words@, final(self)@.pending),
    {
        let mut pulses: Vec<Pulse> = Vec::new();
        let mut i: usize = 0;
        assert(words@.take(0) =~= Seq::<u32>::empty());
        while i < words.len()
            invariant
                i <= words@.len(),
                pulses@ == row_pulses(words@.take(i as int)),
            decreases words@.len() - i,
        {
            append(&mut pulses, &encode_pixel(words[i]));
            assert(words@.take(i + 1).drop_last() =~= words@.take(i as int));
            i += 1;
        }
        assert(words@.take(i as int) =~= words@);
        pulses.push(Pulse::end_marker());
        let steps: Vec<Step> = vec![
            Step::Pause(QUIET_MICROS),
            Step::Transmit(pulses),
            Step::Pause(QUIET_MICROS),
        ];
        assert(step_views(steps@) =~= transaction_steps(words@));
        proof {
            law_transaction_sends_every_colour(words@);
        }
        *self = Self::start(steps);
    }

    /// Sets pixels to these colour words one by one.
    pub fn set(&mut self, words: &[u32])
        ensures
            final(self)@ == (DriverView { pending: single_steps(words@), failed: false }),
            !final(self)@.failed,
            sends_one_by_one(words@, final(self)@.pending),
    {
        let mut steps: Vec<Step> = vec![reset_transmission()];
        let mut i: usize = 0;
        assert(step_views(steps@) =~= seq![reset_step()] + pixel_steps(words@.take(0)));
        while i < words.len()
            invariant
                i <= words@.len(),
                step_views(steps@) == seq![reset_step()] + pixel_steps(words@.take(i as int)),
            decreases words@.len() - i,
        {
            let mut pulses: Vec<Pulse> = Vec::new();
            append(&mut pulses, &encode_pixel_with_end_marker(words[i]));
            assert(pulses@ =~= pixel_pulses(words@[i as int]).push(end_pulse()));
            let ghost before = step_views(steps@);
            steps.push(Step::Transmit(pulses));
            assert(step_views(steps@) =~= before.push(steps@.last()@));
            assert(words@.take(i + 1) =~= words@.take(i as int).push(words@[i as int]));
            assert(step_views(steps@) =~= seq![reset_step()] + pixel_steps(words@.take(i + 1)));
            i += 1;
        }
        assert(words@.take(i as int) =~= words@);
        let ghost before = step_views(steps@);
        steps.push(reset_transmission());
        assert(step_views(steps@) =~= before.push(steps@.last()@));
        assert(step_views(steps@) =~= single_steps(words@));
        proof {
            law_single_steps_send_every_colour(words@);
        }
        *self = Self::start(steps);
    }

    /// What to do next; nothing when all is done or a transmission has failed.
    pub fn next_step(&self) -> (result: Option<&Step>)
        ensures
            match result {
                Some(step) => self@.pending.len() > 0 && step@ == self@.pending[0],
                None => self@.pending.len() == 0,
            },
            result matches Some(step) ==> self@.pending[0] == match *step {
                Step::Pause(micros) => StepView::Pause(micros),
                Step::Transmit(pulses) => StepView::Transmit(pulses@),
            },
    {
        proof {
            use_type_invariant(self);
        }
        if self.position < self.steps.len() {
            assert(self@.pending[0] == self.steps@[self.position as int]@);
            Some(&self.steps[self.position])
        } else {
            None
        }
    }

    /// Takes in how the next step went.
    pub fn step_done(&mut self, ok: bool)
        requires
            old(self)@.pending.len() > 0,
        ensures
            final(self)@ == old(self)@.stepped(ok),
            ok ==> final(self)@.pending == old(self)@.pending.skip(1) && final(self)@.failed == old(
                self,
            )@.failed,
            !ok ==> final(self)@.pending.len() == 0 && final(self)@.failed,
    {
        proof {
            use_type_invariant(&*self);
        }
        assert(self@.pending.len() == self.steps@.len() - self.position);
        if ok {
            assert(self.position < self.steps.len());
            self.position = self.position + 1;
            assert(self@.pending =~= old(self)@.pending.drop_first());
            assert(self@.pending =~= old(self)@.pending.skip(1));
        } else {
            self.failed = true;
            self.position = self.steps.len();
            assert(self@.pending =~= Seq::<StepView>::empty());
        }
    }

    /// Whether a transmission has failed since the pixels were set.
    pub fn has_failed(&self) -> (result: bool)
        ensures
            result == self@.failed,
    {
        self.failed
    }
}

/// Appends pulses.
fn append(out: &mut Vec<Pulse>, pulses: &[Pulse])
    ensures
        final(out)@ == old(out)@ + pulses@,
{
    let mut i: usize = 0;
    while i < pulses.len()
        invariant
            i <= pulses@.len(),
            out@ == old(out)@ + pulses@.take(i as int),
        decreases pulses@.len() - i,
    {
        out.push(pulses[i]);
        assert(pulses@.take(i + 1) =~= pulses@.take(i as int).push(pulses@[i as int]));
        i += 1;
    }
    assert(pulses@.take(i as int) =~= pulses@);
}

/// Makes the step of `reset_step`.
fn reset_transmission() -> (result: Step)
    ensures
        result@ == reset_step(),
{
    let pulses: Vec<Pulse> = vec![Pulse::reset(), Pulse::end_marker()];
    assert(pulses@ =~= seq![reset_pulse(), end_pulse()]);
    Step::Transmit(pulses)
}

/// Words that agree in each of their `k` lowest bits agree in all of them together.
proof fn lemma_low_bits(a: u32, b: u32, k: u32)
    requires
        1 <= k <= 24,
        forall|i: u32| i < k ==> #[trigger] ((a >> i) & 1) == (b >> i) & 1,
    ensures
        a << ((32 - k) as u32) == b << ((32 - k) as u32),
    decreases k,
{
    let top = (k - 1) as u32;
    assert((a >> top) & 1 == (b >> top) & 1);
    if k == 1 {
        assert(a << 31u32 == b << 31u32) by (bit_vector)
            requires
                (a >> 0u32) & 1 == (b >> 0u32) & 1,
        ;
    } else {
        lemma_low_bits(a, b, top);
        let up = (32 - k) as u32;
        assert(a << up == b << up) by (bit_vector)
            requires
                8 <= up < 31,
                top == 31 - up,
                a << ((up + 1) as u32) == b << ((up + 1) as u32),
                (a >> top) & 1 == (b >> top) & 1,
        ;
    }
}

/// Two colour words give the same pulses exactly when their low 24 bits agree.
pub proof fn law_pulses_tell_colours_apart(a: u32, b: u32)
    ensures
        pixel_pulses(a) == pixel_pulses(b) <==> a & 0xff_ffff == b & 0xff_ffff,
{
    if a & 0xff_ffff == b & 0xff_ffff {
        assert forall|i: int| 0 <= i < 24 implies #[trigger] colour_bit(a, i) == colour_bit(
            b,
            i,
        ) by {
            let k = (23 - i) as u32;
            assert((a >> k) & 1 == (b >> k) & 1) by (bit_vector)
                requires
                    k < 24,
                    a & 0xff_ffff == b & 0xff_ffff,
            ;
        }
        assert(pixel_pulses(a) =~= pixel_pulses(b));
    }
    if pixel_pulses(a) == pixel_pulses(b) {
        assert forall|k: u32| k < 24 implies #[trigger] ((a >> k) & 1) == (b >> k) & 1 by {
            let i = 23 - k as int;
            assert(pixel_pulses(a)[i] == pixel_pulses(b)[i]);
            assert(colour_bit(a, i) == colour_bit(b, i));
            assert((a >> k) & 1 <= 1 && (b >> k) & 1 <= 1) by (bit_vector);
        }
        lemma_low_bits(a, b, 24);
        assert(a & 0xff_ffff == b & 0xff_ffff) by (bit_vector)
            requires
                a << 8u32 == b << 8u32,
        ;
    }
}

/// Every bit takes the same time on the line, and differs from the other in how much of it is high.
pub proof fn law_bits_last_equally_long(a: bool, b: bool)
    ensures
        bit_pulse(a).length1 + bit_pulse(a).length2 == bit_pulse(b).length1 + bit_pulse(b).length2,
        a != b ==> bit_pulse(a).length1 != bit_pulse(b).length1,
{
}

/// The pulse behind `i` pixels and `j` bits is that of bit `j` of pixel `i`.
pub proof fn law_row_pulses(words: Seq<u32>, i: int, j: int)
    requires
        0 <= i < words.len(),
        0 <= j < N_PIXEL,
    ensures
        row_pulses(words).len() == 24 * words.len(),
        row_pulses(words)[24 * i + j] == bit_pulse(colour_bit(words[i], j)),
    decreases words.len(),
{
    let fewer = words.drop_last();
    if fewer.len() > 0 {
        law_row_pulses(fewer, if i < fewer.len() { i } else { 0 }, j);
    } else {
        assert(row_pulses(fewer).len() == 0);
    }
}

/// The pixels' part of a list of transmissions: each without its last pulse, one after another.
pub open spec fn payload_pulses(steps: Seq<StepView>) -> Seq<Pulse>
    decreases steps.len(),
{
    if steps.len() == 0 {
        Seq::empty()
    } else {
        match steps.last() {
            StepView::Pause(_) => payload_pulses(steps.drop_last()),
            StepView::Transmit(pulses) => payload_pulses(steps.drop_last()) + pulses.drop_last(),
        }
    }
}

/// Pixel by pixel or in one transaction, the pixels get the same pulses in the same order.
pub proof fn law_both_ways_send_the_same(words: Seq<u32>)
    ensures
        payload_pulses(pixel_steps(words)) == row_pulses(words),
        payload_pulses(transaction_steps(words)) == row_pulses(words),
    decreases words.len(),
{
    let steps = pixel_steps(words);
    if words.len() > 0 {
        law_both_ways_send_the_same(words.drop_last());
        assert(steps.drop_last() =~= pixel_steps(words.drop_last()));
        let last = pixel_pulses(words.last());
        assert(last.push(end_pulse()).drop_last() =~= last);
    }
    reveal_with_fuel(payload_pulses, 4);
    let all = transaction_steps(words);
    let row = row_pulses(words);
    assert(row.push(end_pulse()).drop_last() =~= row);
    assert(all.drop_last().drop_last().drop_last().len() == 0);
    assert(payload_pulses(all) =~= row);
}

/// The pulses end where they should: both lengths of a pulse are positive, but for the last.
pub open spec fn ends_properly(pulses: Seq<Pulse>) -> bool {
    &&& pulses.len() > 0
    &&& pulses.last() == end_pulse()
    &&& forall|i: int|
        0 <= i < pulses.len() - 1 ==> 0 < (#[trigger] pulses[i]).length1 <= 0x7fff
            && 0 < pulses[i].length2 <= 0x7fff
}

/// Pixel data is never cut short: no pulse in front of the end marker ends the transmission, and
/// every length fits the 15 bits that the pulse generator has for it.
pub proof fn law_pixel_data_is_never_cut_short(words: Seq<u32>)
    ensures
        ends_properly(row_pulses(words).push(end_pulse())),
        forall|i: int|
            0 <= i < words.len() ==> ends_properly(
                #[trigger] pixel_pulses(words[i]).push(end_pulse()),
            ),
    decreases words.len(),
{
    if words.len() > 0 {
        let fewer = words.drop_last();
        law_pixel_data_is_never_cut_short(fewer);
        let row = row_pulses(words);
        let earlier = row_pulses(fewer).push(end_pulse());
        assert forall|i: int| 0 <= i < row.len() implies 0 < (
        #[trigger] row.push(end_pulse())[i]).length1 <= 0x7fff && 0 < row[i].length2 <= 0x7fff by {
            if i < row_pulses(fewer).len() {
                assert(row[i] == earlier[i]);
            }
        }
    }
}

/// A failed transmission ends everything: nothing more is sent, and the failure stays known until
/// pixels are set again.
pub proof fn law_failure_ends_everything(driver: DriverView)
    ensures
        driver.stepped(false).pending.len() == 0,
        driver.stepped(false).failed,
        driver.stepped(true).failed == driver.failed,
{
}

} // verus!
