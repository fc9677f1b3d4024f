//! A bit-banged implementation of the MDIO traits.
//!
//! The transport owns a data line, a clock line and a periodic timing
//! source, and produces a precisely timed sequence of line-level changes:
//! one clock pulse per bit transferred. Its contracts describe the exact
//! sequence of bus events of every operation, so that the frame layout —
//! the 32-pulse preamble, most-significant-bit-first ordering, and the
//! two-pulse turnaround with the data line released — is machine-checked.
//! A failed collaborator call aborts the transaction right there: on the
//! error path every contract bounds what reached the bus to a prefix of
//! the transaction's event sequence, cut at the failing operation.

use crate::bits::{bit_is_set, set_bit, u16_bits, u8_bit, u8_msb_bits};
use vstd::prelude::*;

verus! {

/// One observable event on the MDIO bus.
pub enum Ev {
    /// The data line was driven to the given level (`true` = high).
    Drive(bool),
    /// The data line's level was sensed, with the given outcome.
    Sense(bool),
    /// One full pulse of the clock line: high, then low.
    Pulse,
}

/// The data (MDIO) line: a bidirectional line that this side can drive to a
/// level or sense.
///
/// Implementors live outside this library (typically a GPIO pin in
/// open-drain mode); the contracts record every drive and sense of the line
/// as an event, so that transports built on the pin can account for exactly
/// what happened on the wire. A failed operation reports no event.
pub trait DataPin {
    /// Errors that might occur when driving or sensing the line.
    type Error;

    /// Every event this pin has seen, oldest first. Verified
    /// implementations override this model; the default stands in for
    /// implementations outside the proof's reach.
    open spec fn events(&self) -> Seq<Ev> {
        Seq::empty()
    }

    /// Drive the line high.
    fn set_high(&mut self) -> (r: Result<(), Self::Error>)
        ensures
            r is Ok ==> final(self).events() == old(self).events().push(Ev::Drive(true)),
            r is Err ==> final(self).events() == old(self).events(),
    ;

    /// Drive the line low.
    fn set_low(&mut self) -> (r: Result<(), Self::Error>)
        ensures
            r is Ok ==> final(self).events() == old(self).events().push(Ev::Drive(false)),
            r is Err ==> final(self).events() == old(self).events(),
    ;

    /// Sense the line's current level (`true` = high).
    fn is_high(&mut self) -> (r: Result<bool, Self::Error>)
        ensures
            (r matches Ok(level) ==> final(self).events() == old(self).events().push(
                Ev::Sense(level))),
            r is Err ==> final(self).events() == old(self).events(),
    ;
}

/// The clock (MDC) line, driven only by this side.
///
/// Implementors live outside this library (typically a push-pull GPIO pin);
/// the contracts record every level driven onto the line. A failed
/// operation reports no level.
pub trait ClockPin {
    /// Errors that might occur when driving the line.
    type Error;

    /// Every level driven onto the line, oldest first. Verified
    /// implementations override this model; the default stands in for
    /// implementations outside the proof's reach.
    open spec fn levels(&self) -> Seq<bool> {
        Seq::empty()
    }

    /// Drive the line high.
    fn set_high(&mut self) -> (r: Result<(), Self::Error>)
        ensures
            r is Ok ==> final(self).levels() == old(self).levels().push(true),
            r is Err ==> final(self).levels() == old(self).levels(),
    ;

    /// Drive the line low.
    fn set_low(&mut self) -> (r: Result<(), Self::Error>)
        ensures
            r is Ok ==> final(self).levels() == old(self).levels().push(false),
            r is Err ==> final(self).levels() == old(self).levels(),
    ;
}

/// The periodic timing source that paces each half clock cycle.
///
/// Implementors live outside this library (typically a hardware countdown
/// timer in periodic mode); the contract counts the periods waited for.
/// Timing-source failures are propagated, not discarded: a silently skipped
/// wait would corrupt frame timing without signalling the caller.
pub trait Timer {
    /// Errors that might occur while waiting for the next period.
    type Error;

    /// The number of periods waited for so far. Verified implementations
    /// override this model; the default stands in for implementations
    /// outside the proof's reach.
    open spec fn ticks(&self) -> nat {
        0
    }

    /// Block until the next period boundary.
    fn wait(&mut self) -> (r: Result<(), Self::Error>)
        ensures
            r is Ok ==> final(self).ticks() == old(self).ticks() + 1,
            r is Err ==> final(self).ticks() == old(self).ticks(),
    ;
}

/// `n` clock pulses, as bus events.
pub open spec fn pulse_evs(n: nat) -> Seq<Ev> {
    Seq::new(n, |i: int| Ev::Pulse)
}

/// The clock-line levels of `n` pulses: high then low, `n` times over.
pub open spec fn pulse_levels(n: nat) -> Seq<bool> {
    Seq::new(2 * n, |i: int| i % 2 == 0)
}

/// The given bits as drive events, in order.
pub open spec fn drive_evs(bits: Seq<bool>) -> Seq<Ev> {
    Seq::new(bits.len(), |i: int| Ev::Drive(bits[i]))
}

/// The given bits as sense events, in order.
pub open spec fn sense_evs(bits: Seq<bool>) -> Seq<Ev> {
    Seq::new(bits.len(), |i: int| Ev::Sense(bits[i]))
}

/// Writing the given bits out, in order: each bit is driven onto the data
/// line and then gated by one clock pulse.
pub open spec fn drive_pulse_evs(bits: Seq<bool>) -> Seq<Ev> {
    Seq::new(
        2 * bits.len(),
        |i: int| if i % 2 == 0 { Ev::Drive(bits[i / 2]) } else { Ev::Pulse },
    )
}

/// Reading the given bits in, in order: each bit is sensed from the data
/// line and then acknowledged by one clock pulse.
pub open spec fn sense_pulse_evs(bits: Seq<bool>) -> Seq<Ev> {
    Seq::new(
        2 * bits.len(),
        |i: int| if i % 2 == 0 { Ev::Sense(bits[i / 2]) } else { Ev::Pulse },
    )
}

/// The clock levels of a sum of pulses are the levels of each part in turn.
pub proof fn lemma_pulse_levels_add(m: nat, n: nat)
    ensures
        pulse_levels(m + n) == pulse_levels(m) + pulse_levels(n),
{
    assert forall|i: int| 0 <= i < 2 * (m + n) implies (pulse_levels(m) + pulse_levels(n))[i] == (i
        % 2 == 0) by {
        if 2 * m <= i {
            assert((i - 2 * (m as int)) % 2 == i % 2);
        }
    }
    assert(pulse_levels(m + n) =~= pulse_levels(m) + pulse_levels(n));
}

/// Writing two bit sequences back to back produces the events of each in
/// turn.
pub proof fn lemma_drive_pulse_evs_add(a: Seq<bool>, b: Seq<bool>)
    ensures
        drive_pulse_evs(a + b) == drive_pulse_evs(a) + drive_pulse_evs(b),
{
    assert forall|i: int| 0 <= i < 2 * (a.len() + b.len()) implies drive_pulse_evs(a + b)[i] == (
    drive_pulse_evs(a) + drive_pulse_evs(b))[i] by {
        let la = a.len() as int;
        if i < 2 * la {
            assert(i / 2 < la);
        } else {
            assert((i - 2 * la) / 2 == i / 2 - la);
            assert((i - 2 * la) % 2 == i % 2);
        }
    }
    assert(drive_pulse_evs(a + b) =~= drive_pulse_evs(a) + drive_pulse_evs(b));
}

/// Reading two bit sequences back to back produces the events of each in
/// turn.
pub proof fn lemma_sense_pulse_evs_add(a: Seq<bool>, b: Seq<bool>)
    ensures
        sense_pulse_evs(a + b) == sense_pulse_evs(a) + sense_pulse_evs(b),
{
    assert forall|i: int| 0 <= i < 2 * (a.len() + b.len()) implies sense_pulse_evs(a + b)[i] == (
    sense_pulse_evs(a) + sense_pulse_evs(b))[i] by {
        let la = a.len() as int;
        if i < 2 * la {
            assert(i / 2 < la);
        } else {
            assert((i - 2 * la) / 2 == i / 2 - la);
            assert((i - 2 * la) % 2 == i % 2);
        }
    }
    assert(sense_pulse_evs(a + b) =~= sense_pulse_evs(a) + sense_pulse_evs(b));
}

/// The record `post` is `pre` with some prefix of `evs` appended, and
/// nothing else: how far an operation that was cut short got.
pub open spec fn grew_by_prefix_of<A>(pre: Seq<A>, post: Seq<A>, evs: Seq<A>) -> bool {
    &&& pre.is_prefix_of(post)
    &&& post.is_prefix_of(pre + evs)
}

/// An unchanged record counts as growth by the empty prefix.
pub proof fn lemma_grew_none<A>(s: Seq<A>, evs: Seq<A>)
    ensures
        grew_by_prefix_of(s, s, evs),
{
    assert(s =~= s.subrange(0, s.len() as int));
    assert(s =~= (s + evs).subrange(0, s.len() as int));
}

/// Appending all of `t` counts as growth by a prefix of `t`.
pub proof fn lemma_grew_all<A>(s: Seq<A>, t: Seq<A>)
    ensures
        grew_by_prefix_of(s, s + t, t),
{
    assert(s =~= (s + t).subrange(0, s.len() as int));
    assert((s + t) =~= (s + t).subrange(0, (s + t).len() as int));
}

/// A prefix relation is preserved by appending to a common front.
pub proof fn lemma_prefix_append_left<A>(front: Seq<A>, e1: Seq<A>, e2: Seq<A>)
    requires
        e1.is_prefix_of(e2),
    ensures
        (front + e1).is_prefix_of(front + e2),
{
    assert forall|i: int| 0 <= i < front.len() + e1.len() implies (front + e1)[i] == (front
        + e2)[i] by {
        if front.len() <= i {
            assert(e1[i - front.len()] == e2[i - front.len()]);
        }
    }
    assert((front + e1) =~= (front + e2).subrange(0, (front + e1).len() as int));
}

/// Growth by a prefix of `e1` is growth by a prefix of any extension of
/// `e1`.
pub proof fn lemma_grew_widen<A>(pre: Seq<A>, post: Seq<A>, e1: Seq<A>, e2: Seq<A>)
    requires
        grew_by_prefix_of(pre, post, e1),
        e1.is_prefix_of(e2),
    ensures
        grew_by_prefix_of(pre, post, e2),
{
    lemma_prefix_append_left(pre, e1, e2);
    assert(post =~= (pre + e2).subrange(0, post.len() as int));
}

/// Growth by a prefix of `evs`, after a completed advance by `t`, is growth
/// by a prefix of the concatenation.
pub proof fn lemma_grew_after<A>(a: Seq<A>, t: Seq<A>, c: Seq<A>, evs: Seq<A>)
    requires
        grew_by_prefix_of(a + t, c, evs),
    ensures
        grew_by_prefix_of(a, c, t + evs),
{
    assert(a =~= c.subrange(0, a.len() as int));
    assert((a + t) + evs =~= a + (t + evs));
    assert(c =~= (a + (t + evs)).subrange(0, c.len() as int));
}

/// A sequence is a prefix of itself extended by anything.
pub proof fn lemma_prefix_extends<A>(s: Seq<A>, t: Seq<A>)
    ensures
        s.is_prefix_of(s + t),
{
    assert(s =~= (s + t).subrange(0, s.len() as int));
}

/// The prefix relation is transitive.
pub proof fn lemma_prefix_trans<A>(a: Seq<A>, b: Seq<A>, c: Seq<A>)
    requires
        a.is_prefix_of(b),
        b.is_prefix_of(c),
    ensures
        a.is_prefix_of(c),
{
    assert forall|i: int| 0 <= i < a.len() implies a[i] == c[i] by {
        assert(a[i] == b.subrange(0, a.len() as int)[i]);
        assert(b[i] == c.subrange(0, b.len() as int)[i]);
    }
    assert(a =~= c.subrange(0, a.len() as int));
}

/// Fewer pulses drive a prefix of the clock levels of more pulses.
pub proof fn lemma_pulse_levels_prefix(m: nat, n: nat)
    requires
        m <= n,
    ensures
        pulse_levels(m).is_prefix_of(pulse_levels(n)),
{
    lemma_pulse_levels_add(m, (n - m) as nat);
    lemma_prefix_extends(pulse_levels(m), pulse_levels((n - m) as nat));
}

/// A pulse cut short after its rising edge still leaves a prefix of the
/// clock levels of more pulses.
pub proof fn lemma_pulse_levels_half_prefix(m: nat, n: nat)
    requires
        m < n,
    ensures
        (pulse_levels(m) + seq![true]).is_prefix_of(pulse_levels(n)),
{
    lemma_pulse_levels_add(m, 1);
    assert(pulse_levels(1) =~= seq![true, false]);
    assert((pulse_levels(m) + seq![true]) =~= (pulse_levels(m) + pulse_levels(1)).subrange(
        0,
        (2 * m + 1) as int,
    ));
    lemma_pulse_levels_prefix((m + 1) as nat, n);
    lemma_prefix_trans(
        pulse_levels(m) + seq![true],
        pulse_levels((m + 1) as nat),
        pulse_levels(n),
    );
}

/// Writing a prefix of some bits produces a prefix of the events of
/// writing them all.
pub proof fn lemma_drive_pulse_evs_prefix(a: Seq<bool>, b: Seq<bool>)
    requires
        a.is_prefix_of(b),
    ensures
        drive_pulse_evs(a).is_prefix_of(drive_pulse_evs(b)),
{
    assert(b =~= a + b.skip(a.len() as int));
    lemma_drive_pulse_evs_add(a, b.skip(a.len() as int));
    lemma_prefix_extends(drive_pulse_evs(a), drive_pulse_evs(b.skip(a.len() as int)));
}

/// The drive events of a prefix of some bits are a prefix of the drive
/// events of them all.
pub proof fn lemma_drive_evs_prefix(a: Seq<bool>, b: Seq<bool>)
    requires
        a.is_prefix_of(b),
    ensures
        drive_evs(a).is_prefix_of(drive_evs(b)),
{
    assert(drive_evs(a) =~= drive_evs(b).subrange(0, a.len() as int));
}

/// A type providing a "bit-banged" MDIO implementation around two given
/// GPIO pins and a timing source.
///
/// The `mdio::Read` implementation writes the 32-bit preamble, writes the 14
/// most significant bits of the given control bits in most-significant-bit
/// order, waits 2 bit times for the turnaround, and reads the 16-bit data.
///
/// The `mdio::Write` implementation writes the 32-bit preamble, the 16
/// control bits and the 16 data bits, each in most-significant-bit order.
pub struct Mdio<MdioPin, MdcPin, Clk> {
    /// The data pin.
    mdio: MdioPin,
    /// The clock pin.
    mdc: MdcPin,
    /// The timing source used to pace the bangs.
    clk: Clk,
    /// The bus events produced since construction.
    trace: Ghost<Seq<Ev>>,
    /// The completed read transactions, as (control bits, data bits).
    done_reads: Ghost<Seq<(u16, u16)>>,
    /// The completed write transactions, as (control bits, data bits).
    done_writes: Ghost<Seq<(u16, u16)>>,
}

impl<MdioPin, MdcPin, Clk, E> Mdio<MdioPin, MdcPin, Clk> where
    MdioPin: DataPin<Error = E>,
    MdcPin: ClockPin<Error = E>,
    Clk: Timer<Error = E>,
 {
    /// The bus events this transport has produced since construction,
    /// oldest first.
    pub closed spec fn log(&self) -> Seq<Ev> {
        self.trace@
    }

    /// The events the owned data pin has seen.
    pub closed spec fn data_events(&self) -> Seq<Ev> {
        self.mdio.events()
    }

    /// The levels driven onto the owned clock pin.
    pub closed spec fn clock_levels(&self) -> Seq<bool> {
        self.mdc.levels()
    }

    /// The periods the owned timing source has waited for.
    pub closed spec fn ticks(&self) -> nat {
        self.clk.ticks()
    }

    /// The three owned collaborators: data pin, clock pin, timing source.
    pub closed spec fn parts(&self) -> (MdioPin, MdcPin, Clk) {
        (self.mdio, self.mdc, self.clk)
    }

    /// The read transactions completed through this transport.
    pub closed spec fn reads_done(&self) -> Seq<(u16, u16)> {
        self.done_reads@
    }

    /// The write transactions completed through this transport.
    pub closed spec fn writes_done(&self) -> Seq<(u16, u16)> {
        self.done_writes@
    }

    /// The transport advanced from `pre` to `post` by exactly the bus
    /// events `evs`: its log grew by `evs`, the data pin saw the drives and
    /// senses of `evs` (given as `data`), the clock pin pulsed high-low once
    /// per pulse event (`pulses` many), and the timing source was waited on
    /// twice per pulse — one full pulse is two half periods.
    pub open spec fn advanced_by(
        pre: Self,
        post: Self,
        evs: Seq<Ev>,
        data: Seq<Ev>,
        pulses: nat,
    ) -> bool {
        &&& post.log() == pre.log() + evs
        &&& post.data_events() == pre.data_events() + data
        &&& post.clock_levels() == pre.clock_levels() + pulse_levels(pulses)
        &&& post.ticks() == pre.ticks() + 2 * pulses
    }

    /// The transaction logs are the same in `pre` and `post`.
    pub open spec fn same_txn_logs(pre: Self, post: Self) -> bool {
        &&& post.reads_done() == pre.reads_done()
        &&& post.writes_done() == pre.writes_done()
    }

    /// The transport advanced from `pre` to `post` by some prefix of the
    /// given success-path streams, and nothing more: what an operation that
    /// failed partway leaves behind. The failing collaborator call reports
    /// no event, and nothing follows it — the frame aborts right there.
    pub open spec fn aborted_within(
        pre: Self,
        post: Self,
        evs: Seq<Ev>,
        data: Seq<Ev>,
        clks: Seq<bool>,
        ticks_max: nat,
    ) -> bool {
        &&& grew_by_prefix_of(pre.log(), post.log(), evs)
        &&& grew_by_prefix_of(pre.data_events(), post.data_events(), data)
        &&& grew_by_prefix_of(pre.clock_levels(), post.clock_levels(), clks)
        &&& pre.ticks() <= post.ticks() <= pre.ticks() + ticks_max
    }

    /// A failed single-bit read aborted within the events of sensing some
    /// level `l`: at most the sense of `l` went on record, and at most the
    /// rising edge of its clock pulse.
    pub open spec fn aborted_read_bit(pre: Self, post: Self, l: bool) -> bool {
        Self::aborted_within(
            pre,
            post,
            seq![Ev::Sense(l), Ev::Pulse],
            seq![Ev::Sense(l)],
            seq![true],
            2,
        )
    }

    /// A failed read transaction aborted partway through its frame: at
    /// most the preamble, the 14 most significant control bits, the
    /// turnaround and the senses of `s` went on record, cut at the failing
    /// operation.
    pub open spec fn aborted_read_frame(pre: Self, post: Self, ctrl_bits: u16, s: Seq<bool>) -> bool {
        Self::aborted_within(
            pre,
            post,
            seq![Ev::Drive(true)] + pulse_evs(32) + drive_pulse_evs(u16_bits(ctrl_bits).take(14))
                + pulse_evs(2) + sense_pulse_evs(s),
            seq![Ev::Drive(true)] + drive_evs(u16_bits(ctrl_bits).take(14)) + sense_evs(s),
            pulse_levels(64),
            128,
        )
    }

    /// A failed write transaction aborted partway through its frame: at
    /// most the preamble, the control bits and the data bits went on
    /// record, cut at the failing operation.
    pub open spec fn aborted_write_frame(
        pre: Self,
        post: Self,
        ctrl_bits: u16,
        data_bits: u16,
    ) -> bool {
        Self::aborted_within(
            pre,
            post,
            seq![Ev::Drive(true)] + pulse_evs(32) + drive_pulse_evs(u16_bits(ctrl_bits))
                + drive_pulse_evs(u16_bits(data_bits)),
            seq![Ev::Drive(true)] + drive_evs(u16_bits(ctrl_bits)) + drive_evs(
                u16_bits(data_bits),
            ),
            pulse_levels(64),
            128,
        )
    }

    /// An abort, after a completed advance, is an abort within the
    /// concatenated streams.
    pub proof fn lemma_aborted_after_advance(
        a: Self,
        b: Self,
        c: Self,
        e1: Seq<Ev>,
        d1: Seq<Ev>,
        p1: nat,
        e2: Seq<Ev>,
        d2: Seq<Ev>,
        c2: Seq<bool>,
        t2: nat,
    )
        requires
            Self::advanced_by(a, b, e1, d1, p1),
            Self::aborted_within(b, c, e2, d2, c2, t2),
        ensures
            Self::aborted_within(a, c, e1 + e2, d1 + d2, pulse_levels(p1) + c2, 2 * p1 + t2),
    {
        lemma_grew_after(a.log(), e1, c.log(), e2);
        lemma_grew_after(a.data_events(), d1, c.data_events(), d2);
        lemma_grew_after(a.clock_levels(), pulse_levels(p1), c.clock_levels(), c2);
    }

    /// An abort within one set of streams is an abort within any extension
    /// of them.
    pub proof fn lemma_aborted_widen(
        a: Self,
        c: Self,
        e1: Seq<Ev>,
        d1: Seq<Ev>,
        c1: Seq<bool>,
        t1: nat,
        e2: Seq<Ev>,
        d2: Seq<Ev>,
        c2: Seq<bool>,
        t2: nat,
    )
        requires
            Self::aborted_within(a, c, e1, d1, c1, t1),
            e1.is_prefix_of(e2),
            d1.is_prefix_of(d2),
            c1.is_prefix_of(c2),
            t1 <= t2,
        ensures
            Self::aborted_within(a, c, e2, d2, c2, t2),
    {
        lemma_grew_widen(a.log(), c.log(), e1, e2);
        lemma_grew_widen(a.data_events(), c.data_events(), d1, d2);
        lemma_grew_widen(a.clock_levels(), c.clock_levels(), c1, c2);
    }

    /// Advances compose: one advance followed by another is an advance by
    /// the concatenated events.
    pub proof fn lemma_advanced_by_trans(
        a: Self,
        b: Self,
        c: Self,
        e1: Seq<Ev>,
        d1: Seq<Ev>,
        p1: nat,
        e2: Seq<Ev>,
        d2: Seq<Ev>,
        p2: nat,
    )
        requires
            Self::advanced_by(a, b, e1, d1, p1),
            Self::advanced_by(b, c, e2, d2, p2),
        ensures
            Self::advanced_by(a, c, e1 + e2, d1 + d2, p1 + p2),
    {
        lemma_pulse_levels_add(p1, p2);
        assert(c.log() =~= a.log() + (e1 + e2));
        assert(c.data_events() =~= a.data_events() + (d1 + d2));
        assert(c.clock_levels() =~= a.clock_levels() + pulse_levels(p1 + p2));
    }

    /// Create the bit-banged MDIO instance.
    pub fn new(mdio: MdioPin, mdc: MdcPin, clk: Clk) -> (r: Self)
        ensures
            r.parts() == (mdio, mdc, clk),
            r.log() == Seq::<Ev>::empty(),
            r.reads_done() == Seq::<(u16, u16)>::empty(),
            r.writes_done() == Seq::<(u16, u16)>::empty(),
            r.data_events() == mdio.events(),
            r.clock_levels() == mdc.levels(),
            r.ticks() == clk.ticks(),
    {
        Self {
            mdio,
            mdc,
            clk,
            trace: Ghost(Seq::empty()),
            done_reads: Ghost(Seq::empty()),
            done_writes: Ghost(Seq::empty()),
        }
    }

    /// Split the MDIO bit-banged implementation into its parts.
    pub fn into_parts(self) -> (r: (MdioPin, MdcPin, Clk))
        ensures
            r == self.parts(),
            r.0.events() == self.data_events(),
            r.1.levels() == self.clock_levels(),
            r.2.ticks() == self.ticks(),
    {
        let Self { mdio, mdc, clk, trace: _, done_reads: _, done_writes: _ } = self;
        (mdio, mdc, clk)
    }

    /// Wait for the next period of the timing source, propagating its
    /// error.
    fn wait_for_clk(&mut self) -> (r: Result<(), E>)
        ensures
            final(self).log() == old(self).log(),
            final(self).data_events() == old(self).data_events(),
            final(self).clock_levels() == old(self).clock_levels(),
            Self::same_txn_logs(*old(self), *final(self)),
            r is Ok ==> final(self).ticks() == old(self).ticks() + 1,
            r is Err ==> final(self).ticks() == old(self).ticks(),
    {
        self.clk.wait()
    }

    /// Emit one full clock pulse: wait a half period, raise the clock,
    /// wait a half period, lower the clock.
    fn pulse_clock(&mut self) -> (r: Result<(), E>)
        ensures
            Self::same_txn_logs(*old(self), *final(self)),
            r is Ok ==> Self::advanced_by(
                *old(self),
                *final(self),
                seq![Ev::Pulse],
                Seq::empty(),
                1,
            ),
            r is Err ==> Self::aborted_within(
                *old(self),
                *final(self),
                Seq::empty(),
                Seq::empty(),
                seq![true],
                2,
            ),
    {
        if let Err(e) = self.wait_for_clk() {
            proof {
                lemma_grew_none(old(self).log(), Seq::<Ev>::empty());
                lemma_grew_none(old(self).data_events(), Seq::<Ev>::empty());
                lemma_grew_none(old(self).clock_levels(), seq![true]);
            }
            return Err(e);
        }
        if let Err(e) = self.mdc.set_high() {
            proof {
                lemma_grew_none(old(self).log(), Seq::<Ev>::empty());
                lemma_grew_none(old(self).data_events(), Seq::<Ev>::empty());
                lemma_grew_none(old(self).clock_levels(), seq![true]);
            }
            return Err(e);
        }
        if let Err(e) = self.wait_for_clk() {
            proof {
                lemma_grew_none(old(self).log(), Seq::<Ev>::empty());
                lemma_grew_none(old(self).data_events(), Seq::<Ev>::empty());
                assert(self.clock_levels() =~= old(self).clock_levels() + seq![true]);
                lemma_grew_all(old(self).clock_levels(), seq![true]);
            }
            return Err(e);
        }
        if let Err(e) = self.mdc.set_low() {
            proof {
                lemma_grew_none(old(self).log(), Seq::<Ev>::empty());
                lemma_grew_none(old(self).data_events(), Seq::<Ev>::empty());
                assert(self.clock_levels() =~= old(self).clock_levels() + seq![true]);
                lemma_grew_all(old(self).clock_levels(), seq![true]);
            }
            return Err(e);
        }
        self.trace = Ghost(self.trace@.push(Ev::Pulse));
        proof {
            assert(self.log() =~= old(self).log() + seq![Ev::Pulse]);
            assert(self.data_events() =~= old(self).data_events() + Seq::<Ev>::empty());
            assert(pulse_levels(1) =~= seq![true, false]);
            assert(self.clock_levels() =~= old(self).clock_levels() + pulse_levels(1));
        }
        Ok(())
    }

    /// Hold the data line high and pulse the clock 32 times, forcing any
    /// listening device into a known synchronization state. Runs before
    /// every transaction.
    pub fn preamble(&mut self) -> (r: Result<(), E>)
        ensures
            Self::same_txn_logs(*old(self), *final(self)),
            r is Ok ==> Self::advanced_by(
                *old(self),
                *final(self),
                seq![Ev::Drive(true)] + pulse_evs(32),
                seq![Ev::Drive(true)],
                32,
            ),
            r is Err ==> Self::aborted_within(
                *old(self),
                *final(self),
                seq![Ev::Drive(true)] + pulse_evs(32),
                seq![Ev::Drive(true)],
                pulse_levels(32),
                64,
            ),
    {
        if let Err(e) = self.mdio.set_high() {
            proof {
                lemma_grew_none(old(self).log(), seq![Ev::Drive(true)] + pulse_evs(32));
                lemma_grew_none(old(self).data_events(), seq![Ev::Drive(true)]);
                lemma_grew_none(old(self).clock_levels(), pulse_levels(32));
            }
            return Err(e);
        }
        self.trace = Ghost(self.trace@.push(Ev::Drive(true)));
        proof {
            assert(pulse_evs(0) =~= Seq::<Ev>::empty());
            assert(self.log() =~= old(self).log() + (seq![Ev::Drive(true)] + pulse_evs(0)));
            assert(self.data_events() =~= old(self).data_events() + seq![Ev::Drive(true)]);
            assert(pulse_levels(0) =~= Seq::<bool>::empty());
            assert(self.clock_levels() =~= old(self).clock_levels() + pulse_levels(0));
        }
        for i in 0usize..32
            invariant
                Self::advanced_by(
                    *old(self),
                    *self,
                    seq![Ev::Drive(true)] + pulse_evs(i as nat),
                    seq![Ev::Drive(true)],
                    i as nat,
                ),
                Self::same_txn_logs(*old(self), *self),
        {
            let ghost pre = *self;
            if let Err(e) = self.pulse_clock() {
                proof {
                    Self::lemma_aborted_after_advance(
                        *old(self),
                        pre,
                        *self,
                        seq![Ev::Drive(true)] + pulse_evs(i as nat),
                        seq![Ev::Drive(true)],
                        i as nat,
                        Seq::empty(),
                        Seq::empty(),
                        seq![true],
                        2,
                    );
                    assert((seq![Ev::Drive(true)] + pulse_evs(i as nat)) + Seq::<Ev>::empty()
                        =~= seq![Ev::Drive(true)] + pulse_evs(i as nat));
                    assert(seq![Ev::Drive(true)] + Seq::<Ev>::empty() =~= seq![Ev::Drive(true)]);
                    assert((seq![Ev::Drive(true)] + pulse_evs(i as nat)).is_prefix_of(
                        seq![Ev::Drive(true)] + pulse_evs(32)));
                    assert(seq![Ev::Drive(true)].is_prefix_of(seq![Ev::Drive(true)]));
                    assert((pulse_levels(i as nat) + seq![true]).is_prefix_of(pulse_levels(32)));
                    Self::lemma_aborted_widen(
                        *old(self),
                        *self,
                        seq![Ev::Drive(true)] + pulse_evs(i as nat),
                        seq![Ev::Drive(true)],
                        pulse_levels(i as nat) + seq![true],
                        (2 * i + 2) as nat,
                        seq![Ev::Drive(true)] + pulse_evs(32),
                        seq![Ev::Drive(true)],
                        pulse_levels(32),
                        64,
                    );
                }
                return Err(e);
            }
            proof {
                Self::lemma_advanced_by_trans(
                    *old(self),
                    pre,
                    *self,
                    seq![Ev::Drive(true)] + pulse_evs(i as nat),
                    seq![Ev::Drive(true)],
                    i as nat,
                    seq![Ev::Pulse],
                    Seq::empty(),
                    1,
                );
                assert((seq![Ev::Drive(true)] + pulse_evs(i as nat)) + seq![Ev::Pulse]
                    =~= seq![Ev::Drive(true)] + pulse_evs((i + 1) as nat));
                assert(seq![Ev::Drive(true)] + Seq::<Ev>::empty() =~= seq![Ev::Drive(true)]);
            }
        }
        Ok(())
    }

    /// Drive one bit onto the data line, then pulse the clock once.
    fn write_bit(&mut self, bit: bool) -> (r: Result<(), E>)
        ensures
            Self::same_txn_logs(*old(self), *final(self)),
            r is Ok ==> Self::advanced_by(
                *old(self),
                *final(self),
                seq![Ev::Drive(bit), Ev::Pulse],
                seq![Ev::Drive(bit)],
                1,
            ),
            r is Err ==> Self::aborted_within(
                *old(self),
                *final(self),
                seq![Ev::Drive(bit), Ev::Pulse],
                seq![Ev::Drive(bit)],
                seq![true],
                2,
            ),
            (r is Err && final(self).data_events() == old(self).data_events()) ==> {
                &&& final(self).log() == old(self).log()
                &&& final(self).clock_levels() == old(self).clock_levels()
                &&& final(self).ticks() == old(self).ticks()
            },
    {
        let driven = if bit {
            self.mdio.set_high()
        } else {
            self.mdio.set_low()
        };
        if let Err(e) = driven {
            proof {
                lemma_grew_none(old(self).log(), seq![Ev::Drive(bit), Ev::Pulse]);
                lemma_grew_none(old(self).data_events(), seq![Ev::Drive(bit)]);
                lemma_grew_none(old(self).clock_levels(), seq![true]);
            }
            return Err(e);
        }
        self.trace = Ghost(self.trace@.push(Ev::Drive(bit)));
        let ghost mid = *self;
        proof {
            assert(mid.log() =~= old(self).log() + seq![Ev::Drive(bit)]);
            assert(mid.data_events() =~= old(self).data_events() + seq![Ev::Drive(bit)]);
            assert(pulse_levels(0) =~= Seq::<bool>::empty());
            assert(mid.clock_levels() =~= old(self).clock_levels() + pulse_levels(0));
        }
        if let Err(e) = self.pulse_clock() {
            proof {
                Self::lemma_aborted_after_advance(
                    *old(self),
                    mid,
                    *self,
                    seq![Ev::Drive(bit)],
                    seq![Ev::Drive(bit)],
                    0,
                    Seq::empty(),
                    Seq::empty(),
                    seq![true],
                    2,
                );
                assert(seq![Ev::Drive(bit)] + Seq::<Ev>::empty() =~= seq![Ev::Drive(bit)]);
                assert(pulse_levels(0) + seq![true] =~= seq![true]);
                assert(seq![Ev::Drive(bit)].is_prefix_of(seq![Ev::Drive(bit), Ev::Pulse]));
                assert(seq![Ev::Drive(bit)].is_prefix_of(seq![Ev::Drive(bit)]));
                assert(seq![true].is_prefix_of(seq![true]));
                Self::lemma_aborted_widen(
                    *old(self),
                    *self,
                    seq![Ev::Drive(bit)],
                    seq![Ev::Drive(bit)],
                    seq![true],
                    2,
                    seq![Ev::Drive(bit), Ev::Pulse],
                    seq![Ev::Drive(bit)],
                    seq![true],
                    2,
                );
            }
            return Err(e);
        }
        proof {
            Self::lemma_advanced_by_trans(
                *old(self),
                mid,
                *self,
                seq![Ev::Drive(bit)],
                seq![Ev::Drive(bit)],
                0,
                seq![Ev::Pulse],
                Seq::empty(),
                1,
            );
            assert(seq![Ev::Drive(bit)] + seq![Ev::Pulse] =~= seq![Ev::Drive(bit), Ev::Pulse]);
            assert(seq![Ev::Drive(bit)] + Seq::<Ev>::empty() =~= seq![Ev::Drive(bit)]);
        }
        Ok(())
    }

    /// Write the `count` most significant bits of the given byte, most
    /// significant first, one clock pulse per bit. A `count` beyond 8 is
    /// clamped to the byte's 8 bits.
    pub fn write_bits(&mut self, byte: u8, count: usize) -> (r: Result<(), E>)
        ensures
            Self::same_txn_logs(*old(self), *final(self)),
            r is Ok ==> Self::advanced_by(
                *old(self),
                *final(self),
                drive_pulse_evs(u8_msb_bits(byte, vstd::math::min(count as int, 8) as nat)),
                drive_evs(u8_msb_bits(byte, vstd::math::min(count as int, 8) as nat)),
                vstd::math::min(count as int, 8) as nat,
            ),
            r is Err ==> Self::aborted_within(
                *old(self),
                *final(self),
                drive_pulse_evs(u8_msb_bits(byte, vstd::math::min(count as int, 8) as nat)),
                drive_evs(u8_msb_bits(byte, vstd::math::min(count as int, 8) as nat)),
                pulse_levels(vstd::math::min(count as int, 8) as nat),
                2 * (vstd::math::min(count as int, 8) as nat),
            ),
    {
        let n = if count < 8 {
            count
        } else {
            8
        };
        proof {
            assert(drive_pulse_evs(u8_msb_bits(byte, 0)) =~= Seq::<Ev>::empty());
            assert(drive_evs(u8_msb_bits(byte, 0)) =~= Seq::<Ev>::empty());
            assert(pulse_levels(0) =~= Seq::<bool>::empty());
            assert(old(self).log() =~= old(self).log() + Seq::<Ev>::empty());
            assert(old(self).data_events() =~= old(self).data_events() + Seq::<Ev>::empty());
            assert(old(self).clock_levels() =~= old(self).clock_levels() + pulse_levels(0));
        }
        for bit_offset in 0usize..n
            invariant
                n <= 8,
                n as int == vstd::math::min(count as int, 8),
                Self::advanced_by(
                    *old(self),
                    *self,
                    drive_pulse_evs(u8_msb_bits(byte, bit_offset as nat)),
                    drive_evs(u8_msb_bits(byte, bit_offset as nat)),
                    bit_offset as nat,
                ),
                Self::same_txn_logs(*old(self), *self),
        {
            let ghost pre = *self;
            let bit = bit_is_set(byte, bit_offset);
            if let Err(e) = self.write_bit(bit) {
                proof {
                    let taken = u8_msb_bits(byte, bit_offset as nat);
                    let all = u8_msb_bits(byte, n as nat);
                    Self::lemma_aborted_after_advance(
                        *old(self),
                        pre,
                        *self,
                        drive_pulse_evs(taken),
                        drive_evs(taken),
                        bit_offset as nat,
                        seq![Ev::Drive(bit), Ev::Pulse],
                        seq![Ev::Drive(bit)],
                        seq![true],
                        2,
                    );
                    assert(taken.push(bit) =~= u8_msb_bits(byte, (bit_offset + 1) as nat));
                    assert(u8_msb_bits(byte, (bit_offset + 1) as nat).is_prefix_of(all));
                    lemma_drive_pulse_evs_add(taken, seq![bit]);
                    assert(taken + seq![bit] =~= taken.push(bit));
                    assert(drive_pulse_evs(seq![bit]) =~= seq![Ev::Drive(bit), Ev::Pulse]);
                    assert(drive_pulse_evs(taken) + seq![Ev::Drive(bit), Ev::Pulse]
                        =~= drive_pulse_evs(taken.push(bit)));
                    lemma_drive_pulse_evs_prefix(taken.push(bit), all);
                    assert(drive_evs(taken) + seq![Ev::Drive(bit)] =~= drive_evs(taken.push(bit)));
                    lemma_drive_evs_prefix(taken.push(bit), all);
                    lemma_pulse_levels_half_prefix(bit_offset as nat, n as nat);
                    Self::lemma_aborted_widen(
                        *old(self),
                        *self,
                        drive_pulse_evs(taken) + seq![Ev::Drive(bit), Ev::Pulse],
                        drive_evs(taken) + seq![Ev::Drive(bit)],
                        pulse_levels(bit_offset as nat) + seq![true],
                        (2 * bit_offset + 2) as nat,
                        drive_pulse_evs(all),
                        drive_evs(all),
                        pulse_levels(n as nat),
                        2 * (n as nat),
                    );
                }
                return Err(e);
            }
            proof {
                let taken = u8_msb_bits(byte, bit_offset as nat);
                Self::lemma_advanced_by_trans(
                    *old(self),
                    pre,
                    *self,
                    drive_pulse_evs(taken),
                    drive_evs(taken),
                    bit_offset as nat,
                    seq![Ev::Drive(bit), Ev::Pulse],
                    seq![Ev::Drive(bit)],
                    1,
                );
                assert(u8_msb_bits(byte, (bit_offset + 1) as nat) =~= taken + seq![bit]);
                lemma_drive_pulse_evs_add(taken, seq![bit]);
                assert(drive_pulse_evs(seq![bit]) =~= seq![Ev::Drive(bit), Ev::Pulse]);
                assert(drive_evs(taken + seq![bit]) =~= drive_evs(taken) + seq![Ev::Drive(bit)]);
            }
        }
        Ok(())
    }

    /// Write each bit in the byte, starting with the most significant, one
    /// clock pulse per bit.
    pub fn write_u8(&mut self, byte: u8) -> (r: Result<(), E>)
        ensures
            Self::same_txn_logs(*old(self), *final(self)),
            r is Ok ==> Self::advanced_by(
                *old(self),
                *final(self),
                drive_pulse_evs(u8_msb_bits(byte, 8)),
                drive_evs(u8_msb_bits(byte, 8)),
                8,
            ),
            r is Err ==> Self::aborted_within(
                *old(self),
                *final(self),
                drive_pulse_evs(u8_msb_bits(byte, 8)),
                drive_evs(u8_msb_bits(byte, 8)),
                pulse_levels(8),
                16,
            ),
    {
        self.write_bits(byte, 8)
    }

    /// Write both bytes in the given word, starting with the most
    /// significant, one clock pulse per bit.
    pub fn write_u16(&mut self, bytes: u16) -> (r: Result<(), E>)
        ensures
            Self::same_txn_logs(*old(self), *final(self)),
            r is Ok ==> Self::advanced_by(
                *old(self),
                *final(self),
                drive_pulse_evs(u16_bits(bytes)),
                drive_evs(u16_bits(bytes)),
                16,
            ),
            r is Err ==> Self::aborted_within(
                *old(self),
                *final(self),
                drive_pulse_evs(u16_bits(bytes)),
                drive_evs(u16_bits(bytes)),
                pulse_levels(16),
                32,
            ),
    {
        if let Err(e) = self.write_u8((bytes >> 8) as u8) {
            proof {
                let hi = u8_msb_bits((bytes >> 8) as u8, 8);
                crate::bits::lemma_u16_bits_split(bytes);
                lemma_prefix_extends(hi, u8_msb_bits(bytes as u8, 8));
                lemma_drive_pulse_evs_prefix(hi, u16_bits(bytes));
                lemma_drive_evs_prefix(hi, u16_bits(bytes));
                lemma_pulse_levels_prefix(8, 16);
                Self::lemma_aborted_widen(
                    *old(self),
                    *self,
                    drive_pulse_evs(hi),
                    drive_evs(hi),
                    pulse_levels(8),
                    16,
                    drive_pulse_evs(u16_bits(bytes)),
                    drive_evs(u16_bits(bytes)),
                    pulse_levels(16),
                    32,
                );
            }
            return Err(e);
        }
        let ghost mid = *self;
        if let Err(e) = self.write_u8(bytes as u8) {
            proof {
                let hi = u8_msb_bits((bytes >> 8) as u8, 8);
                let lo = u8_msb_bits(bytes as u8, 8);
                Self::lemma_aborted_after_advance(
                    *old(self),
                    mid,
                    *self,
                    drive_pulse_evs(hi),
                    drive_evs(hi),
                    8,
                    drive_pulse_evs(lo),
                    drive_evs(lo),
                    pulse_levels(8),
                    16,
                );
                crate::bits::lemma_u16_bits_split(bytes);
                lemma_drive_pulse_evs_add(hi, lo);
                assert(drive_evs(hi) + drive_evs(lo) =~= drive_evs(hi + lo));
                lemma_pulse_levels_add(8, 8);
            }
            return Err(e);
        }
        proof {
            let hi = u8_msb_bits((bytes >> 8) as u8, 8);
            let lo = u8_msb_bits(bytes as u8, 8);
            Self::lemma_advanced_by_trans(
                *old(self),
                mid,
                *self,
                drive_pulse_evs(hi),
                drive_evs(hi),
                8,
                drive_pulse_evs(lo),
                drive_evs(lo),
                8,
            );
            crate::bits::lemma_u16_bits_split(bytes);
            lemma_drive_pulse_evs_add(hi, lo);
            assert(drive_evs(hi) + drive_evs(lo) =~= drive_evs(hi + lo));
        }
        Ok(())
    }

    /// Wait out the two-bit-time turnaround before reading: two plain
    /// clock pulses during which this side asserts nothing onto the data
    /// line, so the remote device can take it over.
    pub fn turnaround(&mut self) -> (r: Result<(), E>)
        ensures
            Self::same_txn_logs(*old(self), *final(self)),
            r is Ok ==> Self::advanced_by(
                *old(self),
                *final(self),
                pulse_evs(2),
                Seq::empty(),
                2,
            ),
            r is Err ==> Self::aborted_within(
                *old(self),
                *final(self),
                pulse_evs(2),
                Seq::empty(),
                pulse_levels(2),
                4,
            ),
    {
        if let Err(e) = self.pulse_clock() {
            proof {
                assert(Seq::<Ev>::empty().is_prefix_of(pulse_evs(2)));
                assert(Seq::<Ev>::empty().is_prefix_of(Seq::<Ev>::empty()));
                lemma_pulse_levels_half_prefix(0, 2);
                assert(pulse_levels(0) + seq![true] =~= seq![true]);
                Self::lemma_aborted_widen(
                    *old(self),
                    *self,
                    Seq::empty(),
                    Seq::empty(),
                    seq![true],
                    2,
                    pulse_evs(2),
                    Seq::empty(),
                    pulse_levels(2),
                    4,
                );
            }
            return Err(e);
        }
        let ghost mid = *self;
        if let Err(e) = self.pulse_clock() {
            proof {
                Self::lemma_aborted_after_advance(
                    *old(self),
                    mid,
                    *self,
                    seq![Ev::Pulse],
                    Seq::empty(),
                    1,
                    Seq::empty(),
                    Seq::empty(),
                    seq![true],
                    2,
                );
                assert(seq![Ev::Pulse] + Seq::<Ev>::empty() =~= seq![Ev::Pulse]);
                assert(seq![Ev::Pulse].is_prefix_of(pulse_evs(2)));
                assert(Seq::<Ev>::empty() + Seq::<Ev>::empty() =~= Seq::<Ev>::empty());
                assert(Seq::<Ev>::empty().is_prefix_of(Seq::<Ev>::empty()));
                lemma_pulse_levels_half_prefix(1, 2);
                Self::lemma_aborted_widen(
                    *old(self),
                    *self,
                    seq![Ev::Pulse],
                    Seq::empty(),
                    pulse_levels(1) + seq![true],
                    4,
                    pulse_evs(2),
                    Seq::empty(),
                    pulse_levels(2),
                    4,
                );
            }
            return Err(e);
        }
        proof {
            Self::lemma_advanced_by_trans(
                *old(self),
                mid,
                *self,
                seq![Ev::Pulse],
                Seq::empty(),
                1,
                seq![Ev::Pulse],
                Seq::empty(),
                1,
            );
            assert(seq![Ev::Pulse] + seq![Ev::Pulse] =~= pulse_evs(2));
            assert(Seq::<Ev>::empty() + Seq::<Ev>::empty() =~= Seq::<Ev>::empty());
        }
        Ok(())
    }

    /// Sense one bit from the data line, then pulse the clock once.
    fn read_bit(&mut self) -> (r: Result<bool, E>)
        ensures
            Self::same_txn_logs(*old(self), *final(self)),
            (r matches Ok(b) ==> Self::advanced_by(
                *old(self),
                *final(self),
                seq![Ev::Sense(b), Ev::Pulse],
                seq![Ev::Sense(b)],
                1,
            )),
            r is Err ==> exists|l: bool|
                #[trigger] Self::aborted_read_bit(*old(self), *final(self), l),
    {
        let b = match self.mdio.is_high() {
            Ok(b) => b,
            Err(e) => {
                proof {
                    lemma_grew_none(old(self).log(), seq![Ev::Sense(false), Ev::Pulse]);
                    lemma_grew_none(old(self).data_events(), seq![Ev::Sense(false)]);
                    lemma_grew_none(old(self).clock_levels(), seq![true]);
                    assert(Self::aborted_read_bit(*old(self), *self, false));
                }
                return Err(e);
            },
        };
        self.trace = Ghost(self.trace@.push(Ev::Sense(b)));
        let ghost mid = *self;
        proof {
            assert(mid.log() =~= old(self).log() + seq![Ev::Sense(b)]);
            assert(mid.data_events() =~= old(self).data_events() + seq![Ev::Sense(b)]);
            assert(pulse_levels(0) =~= Seq::<bool>::empty());
            assert(mid.clock_levels() =~= old(self).clock_levels() + pulse_levels(0));
        }
        if let Err(e) = self.pulse_clock() {
            proof {
                Self::lemma_aborted_after_advance(
                    *old(self),
                    mid,
                    *self,
                    seq![Ev::Sense(b)],
                    seq![Ev::Sense(b)],
                    0,
                    Seq::empty(),
                    Seq::empty(),
                    seq![true],
                    2,
                );
                assert(seq![Ev::Sense(b)] + Seq::<Ev>::empty() =~= seq![Ev::Sense(b)]);
                assert(pulse_levels(0) + seq![true] =~= seq![true]);
                assert(seq![Ev::Sense(b)].is_prefix_of(seq![Ev::Sense(b), Ev::Pulse]));
                assert(seq![Ev::Sense(b)].is_prefix_of(seq![Ev::Sense(b)]));
                assert(seq![true].is_prefix_of(seq![true]));
                Self::lemma_aborted_widen(
                    *old(self),
                    *self,
                    seq![Ev::Sense(b)],
                    seq![Ev::Sense(b)],
                    seq![true],
                    2,
                    seq![Ev::Sense(b), Ev::Pulse],
                    seq![Ev::Sense(b)],
                    seq![true],
                    2,
                );
                assert(Self::aborted_read_bit(*old(self), *self, b));
            }
            return Err(e);
        }
        proof {
            Self::lemma_advanced_by_trans(
                *old(self),
                mid,
                *self,
                seq![Ev::Sense(b)],
                seq![Ev::Sense(b)],
                0,
                seq![Ev::Pulse],
                Seq::empty(),
                1,
            );
            assert(seq![Ev::Sense(b)] + seq![Ev::Pulse] =~= seq![Ev::Sense(b), Ev::Pulse]);
            assert(seq![Ev::Sense(b)] + Seq::<Ev>::empty() =~= seq![Ev::Sense(b)]);
        }
        Ok(b)
    }

    /// Read one byte from the data line: sense eight bits, most significant
    /// first, one clock pulse per bit. The events sensed on the wire are
    /// exactly the bits of the returned byte, in order.
    pub fn read_byte(&mut self) -> (r: Result<u8, E>)
        ensures
            Self::same_txn_logs(*old(self), *final(self)),
            (r matches Ok(byte) ==> Self::advanced_by(
                *old(self),
                *final(self),
                sense_pulse_evs(u8_msb_bits(byte, 8)),
                sense_evs(u8_msb_bits(byte, 8)),
                8,
            )),
            r is Err ==> exists|s: Seq<bool>|
                s.len() <= 8 && #[trigger] Self::aborted_within(
                    *old(self),
                    *final(self),
                    sense_pulse_evs(s),
                    sense_evs(s),
                    pulse_levels(8),
                    16,
                ),
    {
        let mut byte = 0u8;
        let ghost mut sensed: Seq<bool> = Seq::empty();
        proof {
            assert(sense_pulse_evs(sensed) =~= Seq::<Ev>::empty());
            assert(sense_evs(sensed) =~= Seq::<Ev>::empty());
            assert(pulse_levels(0) =~= Seq::<bool>::empty());
            assert(old(self).log() =~= old(self).log() + Seq::<Ev>::empty());
            assert(old(self).data_events() =~= old(self).data_events() + Seq::<Ev>::empty());
            assert(old(self).clock_levels() =~= old(self).clock_levels() + pulse_levels(0));
            assert forall|j: u8| j < 8 implies !u8_bit(0u8, j) by {
                assert((0u8 >> ((7 - j) as u8)) & 1u8 != 1u8) by (bit_vector)
                    requires
                        j < 8,
                ;
            }
        }
        for bit_offset in 0usize..8
            invariant
                sensed.len() == bit_offset,
                Self::advanced_by(
                    *old(self),
                    *self,
                    sense_pulse_evs(sensed),
                    sense_evs(sensed),
                    bit_offset as nat,
                ),
                Self::same_txn_logs(*old(self), *self),
                forall|j: u8| j < bit_offset as u8 ==> u8_bit(byte, j) == sensed[j as int],
                forall|j: u8| bit_offset as u8 <= j < 8 ==> !u8_bit(byte, j),
        {
            let ghost pre = *self;
            let b = match self.read_bit() {
                Ok(b) => b,
                Err(e) => {
                    proof {
                        let l = choose|l: bool| Self::aborted_read_bit(pre, *self, l);
                        Self::lemma_aborted_after_advance(
                            *old(self),
                            pre,
                            *self,
                            sense_pulse_evs(sensed),
                            sense_evs(sensed),
                            bit_offset as nat,
                            seq![Ev::Sense(l), Ev::Pulse],
                            seq![Ev::Sense(l)],
                            seq![true],
                            2,
                        );
                        let s2 = sensed.push(l);
                        lemma_sense_pulse_evs_add(sensed, seq![l]);
                        assert(sensed + seq![l] =~= s2);
                        assert(sense_pulse_evs(seq![l]) =~= seq![Ev::Sense(l), Ev::Pulse]);
                        assert(sense_pulse_evs(sensed) + seq![Ev::Sense(l), Ev::Pulse]
                            =~= sense_pulse_evs(s2));
                        assert(sense_evs(sensed) + seq![Ev::Sense(l)] =~= sense_evs(s2));
                        assert(sense_pulse_evs(s2) =~= sense_pulse_evs(s2).subrange(
                            0,
                            sense_pulse_evs(s2).len() as int,
                        ));
                        assert(sense_evs(s2) =~= sense_evs(s2).subrange(
                            0,
                            sense_evs(s2).len() as int,
                        ));
                        lemma_pulse_levels_half_prefix(bit_offset as nat, 8);
                        Self::lemma_aborted_widen(
                            *old(self),
                            *self,
                            sense_pulse_evs(s2),
                            sense_evs(s2),
                            pulse_levels(bit_offset as nat) + seq![true],
                            (2 * bit_offset + 2) as nat,
                            sense_pulse_evs(s2),
                            sense_evs(s2),
                            pulse_levels(8),
                            16,
                        );
                        assert(s2.len() <= 8 && Self::aborted_within(
                            *old(self),
                            *self,
                            sense_pulse_evs(s2),
                            sense_evs(s2),
                            pulse_levels(8),
                            16,
                        ));
                    }
                    return Err(e);
                },
            };
            if b {
                set_bit(&mut byte, bit_offset);
            }
            proof {
                Self::lemma_advanced_by_trans(
                    *old(self),
                    pre,
                    *self,
                    sense_pulse_evs(sensed),
                    sense_evs(sensed),
                    bit_offset as nat,
                    seq![Ev::Sense(b), Ev::Pulse],
                    seq![Ev::Sense(b)],
                    1,
                );
                lemma_sense_pulse_evs_add(sensed, seq![b]);
                assert(sense_pulse_evs(seq![b]) =~= seq![Ev::Sense(b), Ev::Pulse]);
                assert(sense_evs(sensed + seq![b]) =~= sense_evs(sensed) + seq![Ev::Sense(b)]);
                sensed = sensed + seq![b];
            }
        }
        proof {
            assert(u8_msb_bits(byte, 8) =~= sensed);
        }
        Ok(byte)
    }

    /// Read one word from the data line: two bytes, most significant
    /// first. The events sensed on the wire are exactly the bits of the
    /// returned word, in order.
    pub fn read_u16(&mut self) -> (r: Result<u16, E>)
        ensures
            Self::same_txn_logs(*old(self), *final(self)),
            (r matches Ok(word) ==> Self::advanced_by(
                *old(self),
                *final(self),
                sense_pulse_evs(u16_bits(word)),
                sense_evs(u16_bits(word)),
                16,
            )),
            r is Err ==> exists|s: Seq<bool>|
                s.len() <= 16 && #[trigger] Self::aborted_within(
                    *old(self),
                    *final(self),
                    sense_pulse_evs(s),
                    sense_evs(s),
                    pulse_levels(16),
                    32,
                ),
    {
        let a = match self.read_byte() {
            Ok(a) => a,
            Err(e) => {
                proof {
                    let s1 = choose|s: Seq<bool>|
                        s.len() <= 8 && Self::aborted_within(
                            *old(self),
                            *self,
                            sense_pulse_evs(s),
                            sense_evs(s),
                            pulse_levels(8),
                            16,
                        );
                    assert(sense_pulse_evs(s1) =~= sense_pulse_evs(s1).subrange(
                        0,
                        sense_pulse_evs(s1).len() as int,
                    ));
                    assert(sense_evs(s1) =~= sense_evs(s1).subrange(
                        0,
                        sense_evs(s1).len() as int,
                    ));
                    lemma_pulse_levels_prefix(8, 16);
                    Self::lemma_aborted_widen(
                        *old(self),
                        *self,
                        sense_pulse_evs(s1),
                        sense_evs(s1),
                        pulse_levels(8),
                        16,
                        sense_pulse_evs(s1),
                        sense_evs(s1),
                        pulse_levels(16),
                        32,
                    );
                    assert(s1.len() <= 16 && Self::aborted_within(
                        *old(self),
                        *self,
                        sense_pulse_evs(s1),
                        sense_evs(s1),
                        pulse_levels(16),
                        32,
                    ));
                }
                return Err(e);
            },
        };
        let ghost mid = *self;
        let b = match self.read_byte() {
            Ok(b) => b,
            Err(e) => {
                proof {
                    let s2 = choose|s: Seq<bool>|
                        s.len() <= 8 && Self::aborted_within(
                            mid,
                            *self,
                            sense_pulse_evs(s),
                            sense_evs(s),
                            pulse_levels(8),
                            16,
                        );
                    let hi = u8_msb_bits(a, 8);
                    Self::lemma_aborted_after_advance(
                        *old(self),
                        mid,
                        *self,
                        sense_pulse_evs(hi),
                        sense_evs(hi),
                        8,
                        sense_pulse_evs(s2),
                        sense_evs(s2),
                        pulse_levels(8),
                        16,
                    );
                    let sw = hi + s2;
                    lemma_sense_pulse_evs_add(hi, s2);
                    assert(sense_evs(hi) + sense_evs(s2) =~= sense_evs(sw));
                    lemma_pulse_levels_add(8, 8);
                    assert(sw.len() <= 16 && Self::aborted_within(
                        *old(self),
                        *self,
                        sense_pulse_evs(sw),
                        sense_evs(sw),
                        pulse_levels(16),
                        32,
                    ));
                }
                return Err(e);
            },
        };
        let u = ((a as u16) << 8) | (b as u16);
        proof {
            let hi = u8_msb_bits(a, 8);
            let lo = u8_msb_bits(b, 8);
            Self::lemma_advanced_by_trans(
                *old(self),
                mid,
                *self,
                sense_pulse_evs(hi),
                sense_evs(hi),
                8,
                sense_pulse_evs(lo),
                sense_evs(lo),
                8,
            );
            assert((u >> 8) as u8 == a && u as u8 == b) by (bit_vector)
                requires
                    u == ((a as u16) << 8u16) | (b as u16),
            ;
            crate::bits::lemma_u16_bits_split(u);
            lemma_sense_pulse_evs_add(hi, lo);
            assert(sense_evs(hi) + sense_evs(lo) =~= sense_evs(hi + lo));
        }
        Ok(u)
    }

    /// One full read transaction: preamble, the 14 most significant bits of
    /// the control word (stopping short of the two turnaround bit times,
    /// which this side does not drive on a read), the two-pulse turnaround,
    /// then 16 sensed data bits, assembled most significant first.
    pub fn read_frame(&mut self, ctrl_bits: u16) -> (r: Result<u16, E>)
        ensures
            Self::same_txn_logs(*old(self), *final(self)),
            (r matches Ok(data) ==> Self::advanced_by(
                *old(self),
                *final(self),
                seq![Ev::Drive(true)] + pulse_evs(32) + drive_pulse_evs(
                    u16_bits(ctrl_bits).take(14),
                ) + pulse_evs(2) + sense_pulse_evs(u16_bits(data)),
                seq![Ev::Drive(true)] + drive_evs(u16_bits(ctrl_bits).take(14)) + sense_evs(
                    u16_bits(data),
                ),
                64,
            )),
            r is Err ==> exists|s: Seq<bool>|
                s.len() <= 16 && #[trigger] Self::aborted_read_frame(
                    *old(self),
                    *final(self),
                    ctrl_bits,
                    s,
                ),
    {
        if let Err(e) = self.preamble() {
            proof {
                let e0 = seq![Ev::Drive(true)] + pulse_evs(32);
                let c14 = u16_bits(ctrl_bits).take(14);
                let fe = ((e0 + drive_pulse_evs(c14)) + pulse_evs(2)) + sense_pulse_evs(
                    Seq::empty(),
                );
                let fd = (seq![Ev::Drive(true)] + drive_evs(c14)) + sense_evs(Seq::empty());
                lemma_prefix_extends(e0, drive_pulse_evs(c14));
                lemma_prefix_extends(e0 + drive_pulse_evs(c14), pulse_evs(2));
                lemma_prefix_extends(
                    (e0 + drive_pulse_evs(c14)) + pulse_evs(2),
                    sense_pulse_evs(Seq::empty()),
                );
                lemma_prefix_trans(
                    e0,
                    e0 + drive_pulse_evs(c14),
                    (e0 + drive_pulse_evs(c14)) + pulse_evs(2),
                );
                lemma_prefix_trans(e0, (e0 + drive_pulse_evs(c14)) + pulse_evs(2), fe);
                lemma_prefix_extends(seq![Ev::Drive(true)], drive_evs(c14));
                lemma_prefix_extends(
                    seq![Ev::Drive(true)] + drive_evs(c14),
                    sense_evs(Seq::empty()),
                );
                lemma_prefix_trans(
                    seq![Ev::Drive(true)],
                    seq![Ev::Drive(true)] + drive_evs(c14),
                    fd,
                );
                lemma_pulse_levels_prefix(32, 64);
                Self::lemma_aborted_widen(
                    *old(self),
                    *self,
                    e0,
                    seq![Ev::Drive(true)],
                    pulse_levels(32),
                    64,
                    fe,
                    fd,
                    pulse_levels(64),
                    128,
                );
                assert(Seq::<bool>::empty().len() <= 16 && Self::aborted_read_frame(
                    *old(self),
                    *self,
                    ctrl_bits,
                    Seq::empty(),
                ));
            }
            return Err(e);
        }
        let ghost s1 = *self;
        if let Err(e) = self.write_u8((ctrl_bits >> 8) as u8) {
            proof {
                let e0 = seq![Ev::Drive(true)] + pulse_evs(32);
                let hi = u8_msb_bits((ctrl_bits >> 8) as u8, 8);
                let lo = u8_msb_bits(ctrl_bits as u8, 6);
                let c14 = u16_bits(ctrl_bits).take(14);
                crate::bits::lemma_u16_bits_split(ctrl_bits);
                assert(c14 =~= hi + lo);
                let fe = ((e0 + drive_pulse_evs(c14)) + pulse_evs(2)) + sense_pulse_evs(
                    Seq::empty(),
                );
                let fd = (seq![Ev::Drive(true)] + drive_evs(c14)) + sense_evs(Seq::empty());
                Self::lemma_aborted_after_advance(
                    *old(self),
                    s1,
                    *self,
                    e0,
                    seq![Ev::Drive(true)],
                    32,
                    drive_pulse_evs(hi),
                    drive_evs(hi),
                    pulse_levels(8),
                    16,
                );
                lemma_pulse_levels_add(32, 8);
                lemma_prefix_extends(hi, lo);
                lemma_drive_pulse_evs_prefix(hi, c14);
                lemma_prefix_append_left(e0, drive_pulse_evs(hi), drive_pulse_evs(c14));
                lemma_prefix_extends(e0 + drive_pulse_evs(c14), pulse_evs(2));
                lemma_prefix_extends(
                    (e0 + drive_pulse_evs(c14)) + pulse_evs(2),
                    sense_pulse_evs(Seq::empty()),
                );
                lemma_prefix_trans(
                    e0 + drive_pulse_evs(hi),
                    e0 + drive_pulse_evs(c14),
                    (e0 + drive_pulse_evs(c14)) + pulse_evs(2),
                );
                lemma_prefix_trans(
                    e0 + drive_pulse_evs(hi),
                    (e0 + drive_pulse_evs(c14)) + pulse_evs(2),
                    fe,
                );
                lemma_drive_evs_prefix(hi, c14);
                lemma_prefix_append_left(seq![Ev::Drive(true)], drive_evs(hi), drive_evs(c14));
                lemma_prefix_extends(
                    seq![Ev::Drive(true)] + drive_evs(c14),
                    sense_evs(Seq::empty()),
                );
                lemma_prefix_trans(
                    seq![Ev::Drive(true)] + drive_evs(hi),
                    seq![Ev::Drive(true)] + drive_evs(c14),
                    fd,
                );
                lemma_pulse_levels_prefix(40, 64);
                Self::lemma_aborted_widen(
                    *old(self),
                    *self,
                    e0 + drive_pulse_evs(hi),
                    seq![Ev::Drive(true)] + drive_evs(hi),
                    pulse_levels(40),
                    80,
                    fe,
                    fd,
                    pulse_levels(64),
                    128,
                );
                assert(Seq::<bool>::empty().len() <= 16 && Self::aborted_read_frame(
                    *old(self),
                    *self,
                    ctrl_bits,
                    Seq::empty(),
                ));
            }
            return Err(e);
        }
        let ghost s2 = *self;
        if let Err(e) = self.write_bits(ctrl_bits as u8, 6) {
            proof {
                let e0 = seq![Ev::Drive(true)] + pulse_evs(32);
                let hi = u8_msb_bits((ctrl_bits >> 8) as u8, 8);
                let lo = u8_msb_bits(ctrl_bits as u8, 6);
                let c14 = u16_bits(ctrl_bits).take(14);
                crate::bits::lemma_u16_bits_split(ctrl_bits);
                assert(c14 =~= hi + lo);
                let fe = ((e0 + drive_pulse_evs(c14)) + pulse_evs(2)) + sense_pulse_evs(
                    Seq::empty(),
                );
                let fd = (seq![Ev::Drive(true)] + drive_evs(c14)) + sense_evs(Seq::empty());
                Self::lemma_advanced_by_trans(
                    *old(self),
                    s1,
                    s2,
                    e0,
                    seq![Ev::Drive(true)],
                    32,
                    drive_pulse_evs(hi),
                    drive_evs(hi),
                    8,
                );
                Self::lemma_aborted_after_advance(
                    *old(self),
                    s2,
                    *self,
                    e0 + drive_pulse_evs(hi),
                    seq![Ev::Drive(true)] + drive_evs(hi),
                    40,
                    drive_pulse_evs(lo),
                    drive_evs(lo),
                    pulse_levels(6),
                    12,
                );
                lemma_drive_pulse_evs_add(hi, lo);
                assert((e0 + drive_pulse_evs(hi)) + drive_pulse_evs(lo) =~= e0 + drive_pulse_evs(
                    c14,
                ));
                assert(drive_evs(hi) + drive_evs(lo) =~= drive_evs(hi + lo));
                assert((seq![Ev::Drive(true)] + drive_evs(hi)) + drive_evs(lo)
                    =~= seq![Ev::Drive(true)] + drive_evs(c14));
                lemma_pulse_levels_add(40, 6);
                lemma_prefix_extends(e0 + drive_pulse_evs(c14), pulse_evs(2));
                lemma_prefix_extends(
                    (e0 + drive_pulse_evs(c14)) + pulse_evs(2),
                    sense_pulse_evs(Seq::empty()),
                );
                lemma_prefix_trans(
                    e0 + drive_pulse_evs(c14),
                    (e0 + drive_pulse_evs(c14)) + pulse_evs(2),
                    fe,
                );
                lemma_prefix_extends(
                    seq![Ev::Drive(true)] + drive_evs(c14),
                    sense_evs(Seq::empty()),
                );
                lemma_pulse_levels_prefix(46, 64);
                Self::lemma_aborted_widen(
                    *old(self),
                    *self,
                    e0 + drive_pulse_evs(c14),
                    seq![Ev::Drive(true)] + drive_evs(c14),
                    pulse_levels(46),
                    92,
                    fe,
                    fd,
                    pulse_levels(64),
                    128,
                );
                assert(Seq::<bool>::empty().len() <= 16 && Self::aborted_read_frame(
                    *old(self),
                    *self,
                    ctrl_bits,
                    Seq::empty(),
                ));
            }
            return Err(e);
        }
        let ghost s3 = *self;
        if let Err(e) = self.turnaround() {
            proof {
                let e0 = seq![Ev::Drive(true)] + pulse_evs(32);
                let hi = u8_msb_bits((ctrl_bits >> 8) as u8, 8);
                let lo = u8_msb_bits(ctrl_bits as u8, 6);
                let c14 = u16_bits(ctrl_bits).take(14);
                crate::bits::lemma_u16_bits_split(ctrl_bits);
                assert(c14 =~= hi + lo);
                let fe = ((e0 + drive_pulse_evs(c14)) + pulse_evs(2)) + sense_pulse_evs(
                    Seq::empty(),
                );
                let fd = (seq![Ev::Drive(true)] + drive_evs(c14)) + sense_evs(Seq::empty());
                Self::lemma_advanced_by_trans(
                    *old(self),
                    s1,
                    s2,
                    e0,
                    seq![Ev::Drive(true)],
                    32,
                    drive_pulse_evs(hi),
                    drive_evs(hi),
                    8,
                );
                Self::lemma_advanced_by_trans(
                    *old(self),
                    s2,
                    s3,
                    e0 + drive_pulse_evs(hi),
                    seq![Ev::Drive(true)] + drive_evs(hi),
                    40,
                    drive_pulse_evs(lo),
                    drive_evs(lo),
                    6,
                );
                Self::lemma_aborted_after_advance(
                    *old(self),
                    s3,
                    *self,
                    (e0 + drive_pulse_evs(hi)) + drive_pulse_evs(lo),
                    (seq![Ev::Drive(true)] + drive_evs(hi)) + drive_evs(lo),
                    46,
                    pulse_evs(2),
                    Seq::empty(),
                    pulse_levels(2),
                    4,
                );
                lemma_drive_pulse_evs_add(hi, lo);
                assert(((e0 + drive_pulse_evs(hi)) + drive_pulse_evs(lo)) + pulse_evs(2) =~= (e0
                    + drive_pulse_evs(c14)) + pulse_evs(2));
                assert(drive_evs(hi) + drive_evs(lo) =~= drive_evs(hi + lo));
                assert(((seq![Ev::Drive(true)] + drive_evs(hi)) + drive_evs(lo))
                    + Seq::<Ev>::empty() =~= seq![Ev::Drive(true)] + drive_evs(c14));
                lemma_pulse_levels_add(46, 2);
                lemma_prefix_extends(
                    (e0 + drive_pulse_evs(c14)) + pulse_evs(2),
                    sense_pulse_evs(Seq::empty()),
                );
                lemma_prefix_extends(
                    seq![Ev::Drive(true)] + drive_evs(c14),
                    sense_evs(Seq::empty()),
                );
                lemma_pulse_levels_prefix(48, 64);
                Self::lemma_aborted_widen(
                    *old(self),
                    *self,
                    (e0 + drive_pulse_evs(c14)) + pulse_evs(2),
                    seq![Ev::Drive(true)] + drive_evs(c14),
                    pulse_levels(48),
                    96,
                    fe,
                    fd,
                    pulse_levels(64),
                    128,
                );
                assert(Seq::<bool>::empty().len() <= 16 && Self::aborted_read_frame(
                    *old(self),
                    *self,
                    ctrl_bits,
                    Seq::empty(),
                ));
            }
            return Err(e);
        }
        let ghost s4 = *self;
        let data = match self.read_u16() {
            Ok(data) => data,
            Err(e) => {
                proof {
                    let e0 = seq![Ev::Drive(true)] + pulse_evs(32);
                    let hi = u8_msb_bits((ctrl_bits >> 8) as u8, 8);
                    let lo = u8_msb_bits(ctrl_bits as u8, 6);
                    let c14 = u16_bits(ctrl_bits).take(14);
                    crate::bits::lemma_u16_bits_split(ctrl_bits);
                    assert(c14 =~= hi + lo);
                    let sc = choose|s: Seq<bool>|
                        s.len() <= 16 && Self::aborted_within(
                            s4,
                            *self,
                            sense_pulse_evs(s),
                            sense_evs(s),
                            pulse_levels(16),
                            32,
                        );
                    Self::lemma_advanced_by_trans(
                        *old(self),
                        s1,
                        s2,
                        e0,
                        seq![Ev::Drive(true)],
                        32,
                        drive_pulse_evs(hi),
                        drive_evs(hi),
                        8,
                    );
                    Self::lemma_advanced_by_trans(
                        *old(self),
                        s2,
                        s3,
                        e0 + drive_pulse_evs(hi),
                        seq![Ev::Drive(true)] + drive_evs(hi),
                        40,
                        drive_pulse_evs(lo),
                        drive_evs(lo),
                        6,
                    );
                    Self::lemma_advanced_by_trans(
                        *old(self),
                        s3,
                        s4,
                        (e0 + drive_pulse_evs(hi)) + drive_pulse_evs(lo),
                        (seq![Ev::Drive(true)] + drive_evs(hi)) + drive_evs(lo),
                        46,
                        pulse_evs(2),
                        Seq::empty(),
                        2,
                    );
                    Self::lemma_aborted_after_advance(
                        *old(self),
                        s4,
                        *self,
                        ((e0 + drive_pulse_evs(hi)) + drive_pulse_evs(lo)) + pulse_evs(2),
                        ((seq![Ev::Drive(true)] + drive_evs(hi)) + drive_evs(lo))
                            + Seq::<Ev>::empty(),
                        48,
                        sense_pulse_evs(sc),
                        sense_evs(sc),
                        pulse_levels(16),
                        32,
                    );
                    lemma_drive_pulse_evs_add(hi, lo);
                    assert((((e0 + drive_pulse_evs(hi)) + drive_pulse_evs(lo)) + pulse_evs(2))
                        + sense_pulse_evs(sc) =~= ((e0 + drive_pulse_evs(c14)) + pulse_evs(2))
                        + sense_pulse_evs(sc));
                    assert(drive_evs(hi) + drive_evs(lo) =~= drive_evs(hi + lo));
                    assert((((seq![Ev::Drive(true)] + drive_evs(hi)) + drive_evs(lo))
                        + Seq::<Ev>::empty()) + sense_evs(sc) =~= (seq![Ev::Drive(true)]
                        + drive_evs(c14)) + sense_evs(sc));
                    lemma_pulse_levels_add(48, 16);
                    assert(sc.len() <= 16 && Self::aborted_read_frame(
                        *old(self),
                        *self,
                        ctrl_bits,
                        sc,
                    ));
                }
                return Err(e);
            },
        };
        proof {
            let hi = u8_msb_bits((ctrl_bits >> 8) as u8, 8);
            let lo = u8_msb_bits(ctrl_bits as u8, 6);
            let ctrl14 = u16_bits(ctrl_bits).take(14);
            let pre_e = seq![Ev::Drive(true)] + pulse_evs(32);
            let pre_d = seq![Ev::Drive(true)];
            Self::lemma_advanced_by_trans(
                *old(self),
                s1,
                s2,
                pre_e,
                pre_d,
                32,
                drive_pulse_evs(hi),
                drive_evs(hi),
                8,
            );
            Self::lemma_advanced_by_trans(
                *old(self),
                s2,
                s3,
                pre_e + drive_pulse_evs(hi),
                pre_d + drive_evs(hi),
                40,
                drive_pulse_evs(lo),
                drive_evs(lo),
                6,
            );
            Self::lemma_advanced_by_trans(
                *old(self),
                s3,
                s4,
                (pre_e + drive_pulse_evs(hi)) + drive_pulse_evs(lo),
                (pre_d + drive_evs(hi)) + drive_evs(lo),
                46,
                pulse_evs(2),
                Seq::empty(),
                2,
            );
            Self::lemma_advanced_by_trans(
                *old(self),
                s4,
                *self,
                ((pre_e + drive_pulse_evs(hi)) + drive_pulse_evs(lo)) + pulse_evs(2),
                ((pre_d + drive_evs(hi)) + drive_evs(lo)) + Seq::empty(),
                48,
                sense_pulse_evs(u16_bits(data)),
                sense_evs(u16_bits(data)),
                16,
            );
            crate::bits::lemma_u16_bits_split(ctrl_bits);
            assert(ctrl14 =~= hi + lo);
            lemma_drive_pulse_evs_add(hi, lo);
            assert((((pre_e + drive_pulse_evs(hi)) + drive_pulse_evs(lo)) + pulse_evs(2))
                + sense_pulse_evs(u16_bits(data)) =~= pre_e + drive_pulse_evs(ctrl14) + pulse_evs(
                2,
            ) + sense_pulse_evs(u16_bits(data)));
            assert(drive_evs(hi) + drive_evs(lo) =~= drive_evs(hi + lo));
            assert((((pre_d + drive_evs(hi)) + drive_evs(lo)) + Seq::<Ev>::empty()) + sense_evs(
                u16_bits(data),
            ) =~= pre_d + drive_evs(ctrl14) + sense_evs(u16_bits(data)));
        }
        Ok(data)
    }

    /// One full write transaction: preamble, all 16 control bits (the
    /// turnaround bits included, since this side drives them on a write),
    /// then all 16 data bits, most significant first throughout.
    pub fn write_frame(&mut self, ctrl_bits: u16, data_bits: u16) -> (r: Result<(), E>)
        ensures
            Self::same_txn_logs(*old(self), *final(self)),
            r is Ok ==> Self::advanced_by(
                *old(self),
                *final(self),
                seq![Ev::Drive(true)] + pulse_evs(32) + drive_pulse_evs(u16_bits(ctrl_bits))
                    + drive_pulse_evs(u16_bits(data_bits)),
                seq![Ev::Drive(true)] + drive_evs(u16_bits(ctrl_bits)) + drive_evs(
                    u16_bits(data_bits),
                ),
                64,
            ),
            r is Err ==> Self::aborted_write_frame(
                *old(self),
                *final(self),
                ctrl_bits,
                data_bits,
            ),
    {
        if let Err(e) = self.preamble() {
            proof {
                let e0 = seq![Ev::Drive(true)] + pulse_evs(32);
                let fe = (e0 + drive_pulse_evs(u16_bits(ctrl_bits))) + drive_pulse_evs(
                    u16_bits(data_bits),
                );
                let fd = (seq![Ev::Drive(true)] + drive_evs(u16_bits(ctrl_bits))) + drive_evs(
                    u16_bits(data_bits),
                );
                lemma_prefix_extends(e0, drive_pulse_evs(u16_bits(ctrl_bits)));
                lemma_prefix_extends(
                    e0 + drive_pulse_evs(u16_bits(ctrl_bits)),
                    drive_pulse_evs(u16_bits(data_bits)),
                );
                lemma_prefix_trans(e0, e0 + drive_pulse_evs(u16_bits(ctrl_bits)), fe);
                lemma_prefix_extends(seq![Ev::Drive(true)], drive_evs(u16_bits(ctrl_bits)));
                lemma_prefix_extends(
                    seq![Ev::Drive(true)] + drive_evs(u16_bits(ctrl_bits)),
                    drive_evs(u16_bits(data_bits)),
                );
                lemma_prefix_trans(
                    seq![Ev::Drive(true)],
                    seq![Ev::Drive(true)] + drive_evs(u16_bits(ctrl_bits)),
                    fd,
                );
                lemma_pulse_levels_prefix(32, 64);
                Self::lemma_aborted_widen(
                    *old(self),
                    *self,
                    e0,
                    seq![Ev::Drive(true)],
                    pulse_levels(32),
                    64,
                    fe,
                    fd,
                    pulse_levels(64),
                    128,
                );
            }
            return Err(e);
        }
        let ghost s1 = *self;
        if let Err(e) = self.write_u16(ctrl_bits) {
            proof {
                let e0 = seq![Ev::Drive(true)] + pulse_evs(32);
                let fe = (e0 + drive_pulse_evs(u16_bits(ctrl_bits))) + drive_pulse_evs(
                    u16_bits(data_bits),
                );
                let fd = (seq![Ev::Drive(true)] + drive_evs(u16_bits(ctrl_bits))) + drive_evs(
                    u16_bits(data_bits),
                );
                Self::lemma_aborted_after_advance(
                    *old(self),
                    s1,
                    *self,
                    e0,
                    seq![Ev::Drive(true)],
                    32,
                    drive_pulse_evs(u16_bits(ctrl_bits)),
                    drive_evs(u16_bits(ctrl_bits)),
                    pulse_levels(16),
                    32,
                );
                lemma_pulse_levels_add(32, 16);
                lemma_prefix_extends(
                    e0 + drive_pulse_evs(u16_bits(ctrl_bits)),
                    drive_pulse_evs(u16_bits(data_bits)),
                );
                lemma_prefix_extends(
                    seq![Ev::Drive(true)] + drive_evs(u16_bits(ctrl_bits)),
                    drive_evs(u16_bits(data_bits)),
                );
                lemma_pulse_levels_prefix(48, 64);
                Self::lemma_aborted_widen(
                    *old(self),
                    *self,
                    e0 + drive_pulse_evs(u16_bits(ctrl_bits)),
                    seq![Ev::Drive(true)] + drive_evs(u16_bits(ctrl_bits)),
                    pulse_levels(48),
                    96,
                    fe,
                    fd,
                    pulse_levels(64),
                    128,
                );
            }
            return Err(e);
        }
        let ghost s2 = *self;
        if let Err(e) = self.write_u16(data_bits) {
            proof {
                let e0 = seq![Ev::Drive(true)] + pulse_evs(32);
                Self::lemma_advanced_by_trans(
                    *old(self),
                    s1,
                    s2,
                    e0,
                    seq![Ev::Drive(true)],
                    32,
                    drive_pulse_evs(u16_bits(ctrl_bits)),
                    drive_evs(u16_bits(ctrl_bits)),
                    16,
                );
                Self::lemma_aborted_after_advance(
                    *old(self),
                    s2,
                    *self,
                    e0 + drive_pulse_evs(u16_bits(ctrl_bits)),
                    seq![Ev::Drive(true)] + drive_evs(u16_bits(ctrl_bits)),
                    48,
                    drive_pulse_evs(u16_bits(data_bits)),
                    drive_evs(u16_bits(data_bits)),
                    pulse_levels(16),
                    32,
                );
                lemma_pulse_levels_add(48, 16);
            }
            return Err(e);
        }
        proof {
            let pre_e = seq![Ev::Drive(true)] + pulse_evs(32);
            let pre_d = seq![Ev::Drive(true)];
            Self::lemma_advanced_by_trans(
                *old(self),
                s1,
                s2,
                pre_e,
                pre_d,
                32,
                drive_pulse_evs(u16_bits(ctrl_bits)),
                drive_evs(u16_bits(ctrl_bits)),
                16,
            );
            Self::lemma_advanced_by_trans(
                *old(self),
                s2,
                *self,
                pre_e + drive_pulse_evs(u16_bits(ctrl_bits)),
                pre_d + drive_evs(u16_bits(ctrl_bits)),
                48,
                drive_pulse_evs(u16_bits(data_bits)),
                drive_evs(u16_bits(data_bits)),
                16,
            );
            assert((pre_e + drive_pulse_evs(u16_bits(ctrl_bits))) + drive_pulse_evs(
                u16_bits(data_bits),
            ) =~= pre_e + drive_pulse_evs(u16_bits(ctrl_bits)) + drive_pulse_evs(
                u16_bits(data_bits),
            ));
            assert((pre_d + drive_evs(u16_bits(ctrl_bits))) + drive_evs(u16_bits(data_bits))
                =~= pre_d + drive_evs(u16_bits(ctrl_bits)) + drive_evs(u16_bits(data_bits)));
        }
        Ok(())
    }
}

impl<MdioPin, MdcPin, Clk, E> crate::Read for Mdio<MdioPin, MdcPin, Clk> where
    MdioPin: DataPin<Error = E>,
    MdcPin: ClockPin<Error = E>,
    Clk: Timer<Error = E>,
 {
    type Error = E;

    open spec fn read_log(&self) -> Seq<(u16, u16)> {
        self.reads_done()
    }

    fn read(&mut self, ctrl_bits: u16) -> (r: Result<u16, E>)
        ensures
            (r matches Ok(data) ==> Self::advanced_by(
                *old(self),
                *final(self),
                seq![Ev::Drive(true)] + pulse_evs(32) + drive_pulse_evs(
                    u16_bits(ctrl_bits).take(14),
                ) + pulse_evs(2) + sense_pulse_evs(u16_bits(data)),
                seq![Ev::Drive(true)] + drive_evs(u16_bits(ctrl_bits).take(14)) + sense_evs(
                    u16_bits(data),
                ),
                64,
            )),
            final(self).writes_done() == old(self).writes_done(),
            r is Err ==> exists|s: Seq<bool>|
                s.len() <= 16 && #[trigger] Self::aborted_read_frame(
                    *old(self),
                    *final(self),
                    ctrl_bits,
                    s,
                ),
    {
        let data = self.read_frame(ctrl_bits)?;
        self.done_reads = Ghost(self.done_reads@.push((ctrl_bits, data)));
        Ok(data)
    }
}

impl<MdioPin, MdcPin, Clk, E> crate::Write for Mdio<MdioPin, MdcPin, Clk> where
    MdioPin: DataPin<Error = E>,
    MdcPin: ClockPin<Error = E>,
    Clk: Timer<Error = E>,
 {
    type Error = E;

    open spec fn write_log(&self) -> Seq<(u16, u16)> {
        self.writes_done()
    }

    fn write(&mut self, ctrl_bits: u16, data_bits: u16) -> (r: Result<(), E>)
        ensures
            r is Ok ==> Self::advanced_by(
                *old(self),
                *final(self),
                seq![Ev::Drive(true)] + pulse_evs(32) + drive_pulse_evs(u16_bits(ctrl_bits))
                    + drive_pulse_evs(u16_bits(data_bits)),
                seq![Ev::Drive(true)] + drive_evs(u16_bits(ctrl_bits)) + drive_evs(
                    u16_bits(data_bits),
                ),
                64,
            ),
            final(self).reads_done() == old(self).reads_done(),
            r is Err ==> Self::aborted_write_frame(
                *old(self),
                *final(self),
                ctrl_bits,
                data_bits,
            ),
    {
        self.write_frame(ctrl_bits, data_bits)?;
        self.done_writes = Ghost(self.done_writes@.push((ctrl_bits, data_bits)));
        Ok(())
    }
}

} // verus!
