//! The quantized recorded loop: construction from raw events, tempo
//! rescaling, and real-time replay.
//!
//! A [`Sample`] owns one recorded loop: the events snapped to the
//! quantization grid in their original arrival order, the loop length in
//! measures and in grid steps, a phase shift relative to the global
//! transport, and a millisecond replay cursor for cursor-pull replay.

use vstd::prelude::*;

verus! {

use vstd::arithmetic::div_mod::{
    lemma_fundamental_div_mod,
    lemma_fundamental_div_mod_converse,
    lemma_div_non_zero,
    lemma_div_is_ordered,
    lemma_div_by_multiple,
    lemma_multiply_divide_lt,
    lemma_mod_add_multiples_vanish,
    lemma_small_mod,
};
use vstd::arithmetic::mul::{
    lemma_mul_inequality,
    lemma_mul_strict_inequality,
    lemma_mul_nonnegative,
    lemma_mul_upper_bound,
};
use vstd::seq_lib::{lemma_multiset_commutative, to_multiset_build};
use crate::measure::{Measure, Quant};
use crate::midi::{
    AbsMidiEvent,
    Note,
    TypedMidiMessage,
    event_in_table,
    message_in_table,
    events_to_notes,
    notes_of_events,
};

/// An event snapped to the quantization grid.
#[derive(Clone, Copy, PartialEq, Eq, Structural, Debug)]
pub struct QuantMidiEvent {
    pub message: TypedMidiMessage,
    pub quant: Quant,
}

/// One recorded loop.
pub struct Sample {
    /// Quantized events, in original arrival order.
    pub buffer: Vec<QuantMidiEvent>,
    /// Whole measures the loop spans; at least one.
    pub amount_of_measures: u32,
    /// How far into the loop the recording began, relative to the global
    /// transport, in grid steps.
    pub quant_shift: Quant,
    /// Note spans reconstructed from the buffer, for windowed queries.
    pub notes: Vec<Note>,
    /// Loop length in grid steps: `amount_of_measures * quants_per_measure`.
    pub sample_quant_length: Quant,
    /// Grid steps per measure, fixed at construction.
    pub quants_per_measure: Quant,
    /// Milliseconds per grid step under the current tempo; the only
    /// length-derived field that tempo rescaling replaces.
    pub quant_size_millis: u32,
    /// Millisecond replay cursor for cursor-pull replay.
    pub time_cursor: u32,
}

/// Timestamps never decrease along the recorded buffer.
pub open spec fn timestamps_sorted(buffer: Seq<AbsMidiEvent>) -> bool {
    forall|i: int, j: int|
        0 <= i <= j < buffer.len() ==> (#[trigger] buffer[i]).timestamp
            <= (#[trigger] buffer[j]).timestamp
}

/// Measures spanned by a recorded buffer: the span from first to last
/// timestamp, rounded up to whole measures, counting a zero-length span
/// as one measure; an empty buffer occupies one measure.
pub open spec fn spec_amount_of_measures(buffer: Seq<AbsMidiEvent>, measure: Measure) -> int {
    if buffer.len() > 0 {
        (buffer.last().timestamp - buffer[0].timestamp + measure.spec_measure_size_millis())
            / measure.spec_measure_size_millis()
    } else {
        1
    }
}

/// The messages of the events that sit exactly at grid position `q`,
/// in original order.
pub open spec fn messages_at_quant(events: Seq<QuantMidiEvent>, q: int) -> Seq<TypedMidiMessage>
    decreases events.len(),
{
    if events.len() == 0 {
        Seq::empty()
    } else {
        let prev = messages_at_quant(events.drop_last(), q);
        if events.last().quant.0 == q {
            prev.push(events.last().message)
        } else {
            prev
        }
    }
}

/// The messages of the events whose millisecond position (grid position
/// times `step`) falls in the half-open window `(lo, hi]`, in original
/// order.
pub open spec fn messages_in_window(
    events: Seq<QuantMidiEvent>,
    step: int,
    lo: int,
    hi: int,
) -> Seq<TypedMidiMessage>
    decreases events.len(),
{
    if events.len() == 0 {
        Seq::empty()
    } else {
        let prev = messages_in_window(events.drop_last(), step, lo, hi);
        let position = events.last().quant.0 * step;
        if lo < position <= hi {
            prev.push(events.last().message)
        } else {
            prev
        }
    }
}

/// The notes whose start or end grid position falls in `[lo, hi]`
/// (inclusive on both ends: boundary positions are shared between
/// adjacent measures), in emission order.
pub open spec fn notes_in_window(notes: Seq<Note>, lo: int, hi: int) -> Seq<Note>
    decreases notes.len(),
{
    if notes.len() == 0 {
        Seq::empty()
    } else {
        let prev = notes_in_window(notes.drop_last(), lo, hi);
        let n = notes.last();
        if (lo <= n.start_quant.0 <= hi) || (lo <= n.end_quant.0 <= hi) {
            prev.push(n)
        } else {
            prev
        }
    }
}

/// An event's millisecond position stays inside the loop duration:
/// a grid position below `length` leaves at least one step before the end.
proof fn lemma_position_in_loop(quant: int, step: int, length: int)
    by (nonlinear_arith)
    requires
        0 <= quant < length,
        1 <= step,
    ensures
        0 <= quant * step,
        quant * step + step <= length * step,
{
}

/// A cursor strictly inside the old loop duration, rescaled by the ratio
/// of the new duration to the old, lands strictly inside the new one.
proof fn lemma_rescaled_cursor_in_range(value: int, old_total: int, new_total: int)
    requires
        0 <= value < old_total,
        1 <= new_total,
    ensures
        0 <= value * new_total / old_total < new_total,
{
    lemma_mul_strict_inequality(value, old_total, new_total);
    lemma_mul_nonnegative(value, new_total);
    lemma_multiply_divide_lt(value * new_total, old_total, new_total);
    vstd::arithmetic::div_mod::lemma_div_pos_is_pos(value * new_total, old_total);
}

/// Grid geometry: `amount` measures of `per_measure` steps of `step`
/// milliseconds each fit in the same bound as the loop's total duration.
proof fn lemma_grid_fits(amount: int, step: int, per_measure: int, limit: int)
    by (nonlinear_arith)
    requires
        1 <= amount,
        1 <= step,
        1 <= per_measure,
        amount * (step * per_measure) <= limit,
    ensures
        1 <= amount * per_measure,
        amount * per_measure <= limit,
        (amount * per_measure) * step == amount * (step * per_measure),
        1 <= (amount * per_measure) * step,
{
}

impl Sample {
    /// Internal consistency of a loop: positive geometry, loop length and
    /// duration within `u32`, every event and the phase shift inside the
    /// loop, the replay cursor inside the loop duration, and the note
    /// list agreeing with the buffer.
    pub open spec fn wf(self) -> bool {
        &&& 1 <= self.amount_of_measures
        &&& 1 <= self.quants_per_measure.0
        &&& 1 <= self.quant_size_millis
        &&& self.sample_quant_length.0 == self.amount_of_measures * self.quants_per_measure.0
        &&& 1 <= self.sample_quant_length.0
        &&& self.sample_quant_length.0 * self.quant_size_millis <= u32::MAX
        &&& self.quant_shift.0 < self.sample_quant_length.0
        &&& self.time_cursor < self.sample_quant_length.0 * self.quant_size_millis
        &&& forall|i: int|
            0 <= i < self.buffer@.len() ==> (#[trigger] self.buffer@[i]).quant.0
                < self.sample_quant_length.0
        &&& self.notes@ == notes_of_events(self.buffer@)
    }

    /// The loop's total duration in milliseconds under the current tempo.
    pub open spec fn spec_loop_duration_millis(self) -> int {
        self.sample_quant_length.0 * self.quant_size_millis
    }

    fn amount_of_measures_in_buffer(buffer: &[AbsMidiEvent], measure: &Measure) -> (amount: u32)
        requires
            measure.wf(),
            buffer@.len() > 0 ==> buffer@[0].timestamp <= buffer@.last().timestamp,
            buffer@.len() > 0 ==> buffer@.last().timestamp - buffer@[0].timestamp
                + measure.spec_measure_size_millis() <= u32::MAX,
        ensures
            amount == spec_amount_of_measures(buffer@, *measure),
            1 <= amount,
    {
        let n = buffer.len();

        if n > 0 {
            let millis = measure.measure_size_millis();
            let total = buffer[n - 1].timestamp - buffer[0].timestamp + millis;
            proof {
                assert(buffer@[n - 1] == buffer@.last());
                lemma_div_non_zero(total as int, millis as int);
            }
            total / millis
        } else {
            1
        }
    }

    /// Builds a loop from one completed recording pass: the raw events in
    /// arrival order, the measure configuration active while recording,
    /// and how many whole measures the global transport had completed
    /// when recording began.
    ///
    /// Construction never fails: an empty buffer yields a silent
    /// one-measure loop.
    pub fn new(buffer: &[AbsMidiEvent], measure: &Measure, measure_shift: u32) -> (sample: Sample)
        requires
            measure.wf(),
            timestamps_sorted(buffer@),
            buffer@.len() > 0 ==> buffer@.last().timestamp - buffer@[0].timestamp
                + measure.spec_measure_size_millis() <= u32::MAX,
            forall|i: int|
                0 <= i < buffer@.len() ==> message_in_table((#[trigger] buffer@[i]).message),
        ensures
            sample.wf(),
            sample.amount_of_measures == spec_amount_of_measures(buffer@, *measure),
            sample.quants_per_measure.0 == measure.spec_quants_per_measure(),
            sample.quant_size_millis == measure.spec_quant_size_millis(),
            sample.sample_quant_length.0 == sample.amount_of_measures
                * measure.spec_quants_per_measure(),
            sample.quant_shift.0 == (measure_shift * measure.spec_quants_per_measure()) % (
            sample.sample_quant_length.0 as int),
            sample.time_cursor == 0,
            sample.buffer@.len() == buffer@.len(),
            forall|i: int|
                0 <= i < buffer@.len() ==> (#[trigger] sample.buffer@[i]).message
                    == buffer@[i].message && sample.buffer@[i].quant.0
                    == measure.spec_snap_timestamp_to_quant(buffer@[i].timestamp as int) % (
                sample.sample_quant_length.0 as int),
            sample.notes@ == notes_of_events(sample.buffer@),
    {
        let amount = Self::amount_of_measures_in_buffer(buffer, measure);
        proof {
            crate::measure::lemma_measure_wf_bounds(*measure);
            // The loop's total duration never exceeds span + one measure.
            if buffer@.len() > 0 {
                let span = buffer@.last().timestamp - buffer@[0].timestamp;
                let millis = measure.spec_measure_size_millis();
                lemma_fundamental_div_mod(span + millis, millis);
                assert(millis * ((span + millis) / millis) == ((span + millis) / millis) * millis)
                    by (nonlinear_arith);
                assert(amount * millis <= span + millis);
            }
            lemma_grid_fits(
                amount as int,
                measure.spec_quant_size_millis(),
                measure.spec_quants_per_measure(),
                u32::MAX as int,
            );
        }
        let per_measure = measure.quants_per_measure();
        let length = amount * per_measure.0;
        let step = measure.quant_size_millis();

        let mut quant_buffer: Vec<QuantMidiEvent> = Vec::new();
        let mut i: usize = 0;
        while i < buffer.len()
            invariant
                i <= buffer@.len(),
                measure.wf(),
                1 <= length,
                quant_buffer@.len() == i,
                forall|j: int|
                    0 <= j < i ==> (#[trigger] quant_buffer@[j]).message == buffer@[j].message
                        && quant_buffer@[j].quant.0 == measure.spec_snap_timestamp_to_quant(
                        buffer@[j].timestamp as int,
                    ) % (length as int),
            decreases buffer@.len() - i,
        {
            let event = buffer[i];
            let snapped = measure.snap_timestamp_to_quant(event.timestamp);
            quant_buffer.push(
                QuantMidiEvent { message: event.message, quant: Quant(snapped.0 % length) },
            );
            i += 1;
        }

        proof {
            assert forall|j: int| 0 <= j < quant_buffer@.len() implies event_in_table(
                #[trigger] quant_buffer@[j],
            ) by {
                assert(message_in_table(buffer@[j].message));
            }
            lemma_mul_upper_bound(
                measure_shift as int,
                u32::MAX as int,
                per_measure.0 as int,
                u32::MAX as int,
            );
        }
        let notes = events_to_notes(&quant_buffer);
        let shift = (measure_shift as u64 * per_measure.0 as u64 % length as u64) as u32;

        Sample {
            buffer: quant_buffer,
            amount_of_measures: amount,
            quant_shift: Quant(shift),
            notes,
            sample_quant_length: Quant(length),
            quants_per_measure: per_measure,
            quant_size_millis: step,
            time_cursor: 0,
        }
    }

    /// The position inside the loop that the global transport position
    /// `current` addresses, after folding out the phase shift: a circular
    /// subtraction that stays in `[0, loop length)`.
    pub open spec fn spec_local_quant(self, current: int) -> int {
        let normalized = current % (self.sample_quant_length.0 as int);
        if self.quant_shift.0 > normalized {
            self.sample_quant_length.0 - (self.quant_shift.0 - normalized)
        } else {
            normalized - self.quant_shift.0
        }
    }

    /// The messages due exactly at the global transport position
    /// `current_quant`, in original recorded order. The caller drives
    /// this once per grid step; positions map onto the loop circularly.
    pub fn replay_quant(&self, current_quant: Quant) -> (messages: Vec<TypedMidiMessage>)
        requires
            self.wf(),
        ensures
            messages@ == messages_at_quant(
                self.buffer@,
                self.spec_local_quant(current_quant.0 as int),
            ),
    {
        let normalized = current_quant.0 % self.sample_quant_length.0;
        let sample_quant = if self.quant_shift.0 > normalized {
            self.sample_quant_length.0 - (self.quant_shift.0 - normalized)
        } else {
            normalized - self.quant_shift.0
        };

        let mut messages: Vec<TypedMidiMessage> = Vec::new();
        let mut i: usize = 0;
        while i < self.buffer.len()
            invariant
                i <= self.buffer@.len(),
                sample_quant == self.spec_local_quant(current_quant.0 as int),
                messages@ == messages_at_quant(self.buffer@.take(i as int), sample_quant as int),
            decreases self.buffer@.len() - i,
        {
            proof {
                assert(self.buffer@.take(i as int + 1).drop_last() =~= self.buffer@.take(i as int));
                assert(self.buffer@.take(i as int + 1).last() == self.buffer@[i as int]);
            }
            let event = self.buffer[i];
            if event.quant.0 == sample_quant {
                messages.push(event.message);
            }
            i += 1;
        }
        proof {
            assert(self.buffer@.take(self.buffer@.len() as int) =~= self.buffer@);
        }
        messages
    }

    /// The messages that one cursor-pull call of `delta` milliseconds
    /// returns: the events in the circular window `(cursor, cursor + delta]`.
    /// When the window crosses the loop end it splits exactly once, into
    /// `(cursor, duration]` followed by the wrapped-around prefix; the two
    /// halves never share an event.
    pub open spec fn spec_advance_messages(self, delta: int) -> Seq<TypedMidiMessage> {
        let cursor = self.time_cursor as int;
        let step = self.quant_size_millis as int;
        let duration = self.spec_loop_duration_millis();
        if cursor + delta < duration {
            messages_in_window(self.buffer@, step, cursor, cursor + delta)
        } else {
            let wrapped = (cursor + delta) % duration;
            let second_hi = if wrapped <= cursor {
                wrapped
            } else {
                cursor
            };
            messages_in_window(self.buffer@, step, cursor, duration) + messages_in_window(
                self.buffer@,
                step,
                -1,
                second_hi,
            )
        }
    }

    /// Cursor-pull replay: moves the millisecond cursor forward by
    /// `delta_millis` and returns the messages of every event whose
    /// position falls in the interval just consumed, in original recorded
    /// order, the half before the loop boundary first. The cursor wraps
    /// circularly; the exact boundary position is never counted twice.
    pub fn advance(&mut self, delta_millis: u32) -> (messages: Vec<TypedMidiMessage>)
        requires
            old(self).wf(),
        ensures
            final(self).wf(),
            final(self).buffer == old(self).buffer,
            final(self).amount_of_measures == old(self).amount_of_measures,
            final(self).quant_shift == old(self).quant_shift,
            final(self).notes == old(self).notes,
            final(self).sample_quant_length == old(self).sample_quant_length,
            final(self).quants_per_measure == old(self).quants_per_measure,
            final(self).quant_size_millis == old(self).quant_size_millis,
            final(self).time_cursor == (old(self).time_cursor + delta_millis) % old(
                self,
            ).spec_loop_duration_millis(),
            messages@ == old(self).spec_advance_messages(delta_millis as int),
    {
        let step = self.quant_size_millis;
        let length = self.sample_quant_length.0;
        let duration = length * step;
        let cursor = self.time_cursor;
        let next = cursor as u64 + delta_millis as u64;
        let mut messages: Vec<TypedMidiMessage> = Vec::new();

        if next < duration as u64 {
            let hi = cursor + delta_millis;
            let mut i: usize = 0;
            while i < self.buffer.len()
                invariant
                    i <= self.buffer@.len(),
                    1 <= step,
                    duration == length as int * step as int,
                    forall|j: int|
                        0 <= j < self.buffer@.len() ==> (#[trigger] self.buffer@[j]).quant.0
                            < length,
                    messages@ == messages_in_window(
                        self.buffer@.take(i as int),
                        step as int,
                        cursor as int,
                        hi as int,
                    ),
                decreases self.buffer@.len() - i,
            {
                proof {
                    assert(self.buffer@.take(i as int + 1).drop_last() =~= self.buffer@.take(
                        i as int,
                    ));
                    assert(self.buffer@.take(i as int + 1).last() == self.buffer@[i as int]);
                    lemma_position_in_loop(
                        self.buffer@[i as int].quant.0 as int,
                        step as int,
                        length as int,
                    );
                }
                let event = self.buffer[i];
                let position = event.quant.0 * step;
                if cursor < position && position <= hi {
                    messages.push(event.message);
                }
                i += 1;
            }
            self.time_cursor = hi;
            proof {
                assert(self.buffer@.take(self.buffer@.len() as int) =~= self.buffer@);
                vstd::arithmetic::div_mod::lemma_small_mod(hi as nat, duration as nat);
            }
        } else {
            let wrapped = (next % duration as u64) as u32;
            let second_hi = if wrapped <= cursor {
                wrapped
            } else {
                cursor
            };
            let mut i: usize = 0;
            while i < self.buffer.len()
                invariant
                    i <= self.buffer@.len(),
                    1 <= step,
                    duration == length as int * step as int,
                    forall|j: int|
                        0 <= j < self.buffer@.len() ==> (#[trigger] self.buffer@[j]).quant.0
                            < length,
                    messages@ == messages_in_window(
                        self.buffer@.take(i as int),
                        step as int,
                        cursor as int,
                        duration as int,
                    ),
                decreases self.buffer@.len() - i,
            {
                proof {
                    assert(self.buffer@.take(i as int + 1).drop_last() =~= self.buffer@.take(
                        i as int,
                    ));
                    assert(self.buffer@.take(i as int + 1).last() == self.buffer@[i as int]);
                    lemma_position_in_loop(
                        self.buffer@[i as int].quant.0 as int,
                        step as int,
                        length as int,
                    );
                }
                let event = self.buffer[i];
                let position = event.quant.0 * step;
                if position > cursor {
                    messages.push(event.message);
                }
                i += 1;
            }
            proof {
                assert(self.buffer@.take(self.buffer@.len() as int) =~= self.buffer@);
            }
            let ghost first_half = messages@;
            let mut i: usize = 0;
            while i < self.buffer.len()
                invariant
                    i <= self.buffer@.len(),
                    1 <= step,
                    duration == length as int * step as int,
                    forall|j: int|
                        0 <= j < self.buffer@.len() ==> (#[trigger] self.buffer@[j]).quant.0
                            < length,
                    messages@ == first_half + messages_in_window(
                        self.buffer@.take(i as int),
                        step as int,
                        -1,
                        second_hi as int,
                    ),
                decreases self.buffer@.len() - i,
            {
                proof {
                    assert(self.buffer@.take(i as int + 1).drop_last() =~= self.buffer@.take(
                        i as int,
                    ));
                    assert(self.buffer@.take(i as int + 1).last() == self.buffer@[i as int]);
                    lemma_position_in_loop(
                        self.buffer@[i as int].quant.0 as int,
                        step as int,
                        length as int,
                    );
                    assert(first_half + messages_in_window(
                        self.buffer@.take(i as int + 1),
                        step as int,
                        -1,
                        second_hi as int,
                    ) == (first_half + messages_in_window(
                        self.buffer@.take(i as int),
                        step as int,
                        -1,
                        second_hi as int,
                    )).push(self.buffer@[i as int].message) || first_half + messages_in_window(
                        self.buffer@.take(i as int + 1),
                        step as int,
                        -1,
                        second_hi as int,
                    ) == first_half + messages_in_window(
                        self.buffer@.take(i as int),
                        step as int,
                        -1,
                        second_hi as int,
                    )) by {
                        if -1 < self.buffer@[i as int].quant.0 * step as int <= second_hi as int {
                            assert(first_half + messages_in_window(
                                self.buffer@.take(i as int + 1),
                                step as int,
                                -1,
                                second_hi as int,
                            ) =~= (first_half + messages_in_window(
                                self.buffer@.take(i as int),
                                step as int,
                                -1,
                                second_hi as int,
                            )).push(self.buffer@[i as int].message));
                        }
                    }
                }
                let event = self.buffer[i];
                let position = event.quant.0 * step;
                if position <= second_hi {
                    messages.push(event.message);
                }
                i += 1;
            }
            self.time_cursor = wrapped;
            proof {
                assert(self.buffer@.take(self.buffer@.len() as int) =~= self.buffer@);
            }
        }
        messages
    }

    /// Replaces the tempo-derived grid-step duration with the one of
    /// `new_measure` and rescales the replay cursor proportionally, so
    /// that the fraction of the loop already played is preserved. The
    /// stored event grid is not re-quantized. This is the only operation
    /// that mutates length-derived state after construction.
    pub fn update_measure(&mut self, new_measure: &Measure)
        requires
            old(self).wf(),
            new_measure.wf(),
            old(self).sample_quant_length.0 * new_measure.spec_quant_size_millis() <= u32::MAX,
        ensures
            final(self).wf(),
            final(self).buffer == old(self).buffer,
            final(self).amount_of_measures == old(self).amount_of_measures,
            final(self).quant_shift == old(self).quant_shift,
            final(self).notes == old(self).notes,
            final(self).sample_quant_length == old(self).sample_quant_length,
            final(self).quants_per_measure == old(self).quants_per_measure,
            final(self).quant_size_millis == new_measure.spec_quant_size_millis(),
            final(self).time_cursor == old(self).time_cursor * (old(self).sample_quant_length.0
                * new_measure.spec_quant_size_millis()) / old(self).spec_loop_duration_millis(),
    {
        let new_step = new_measure.quant_size_millis();
        let old_duration = self.sample_quant_length.0 * self.quant_size_millis;
        let new_duration = self.sample_quant_length.0 * new_step;
        proof {
            assert(1 <= self.sample_quant_length.0 as int * new_step as int) by (nonlinear_arith)
                requires
                    1 <= self.sample_quant_length.0,
                    1 <= new_step,
            ;
            lemma_rescaled_cursor_in_range(
                self.time_cursor as int,
                old_duration as int,
                new_duration as int,
            );
            lemma_mul_upper_bound(
                self.time_cursor as int,
                u32::MAX as int,
                new_duration as int,
                u32::MAX as int,
            );
        }
        let scaled = (self.time_cursor as u64 * new_duration as u64 / old_duration as u64) as u32;
        self.time_cursor = scaled;
        self.quant_size_millis = new_step;
    }

    /// The notes whose start or end falls within measure `measure_number`
    /// of the loop, boundary grid positions included on both sides.
    pub fn measure_notes(&self, measure_number: u32) -> (result: Vec<Note>)
        requires
            self.wf(),
            (measure_number + 1) * self.quants_per_measure.0 <= u32::MAX,
        ensures
            result@ == notes_in_window(
                self.notes@,
                measure_number * self.quants_per_measure.0,
                (measure_number + 1) * self.quants_per_measure.0,
            ),
    {
        proof {
            lemma_mul_inequality(
                measure_number as int,
                measure_number as int + 1,
                self.quants_per_measure.0 as int,
            );
            lemma_mul_inequality(1, self.quants_per_measure.0 as int, measure_number as int + 1);
            assert((measure_number + 1) as int * self.quants_per_measure.0 as int
                == self.quants_per_measure.0 as int * (measure_number as int + 1))
                by (nonlinear_arith);
        }
        let start = measure_number * self.quants_per_measure.0;
        let end = (measure_number + 1) * self.quants_per_measure.0;
        let mut result: Vec<Note> = Vec::new();
        let mut i: usize = 0;
        while i < self.notes.len()
            invariant
                i <= self.notes@.len(),
                result@ == notes_in_window(self.notes@.take(i as int), start as int, end as int),
            decreases self.notes@.len() - i,
        {
            proof {
                assert(self.notes@.take(i as int + 1).drop_last() =~= self.notes@.take(i as int));
                assert(self.notes@.take(i as int + 1).last() == self.notes@[i as int]);
            }
            let note = self.notes[i];
            if (start <= note.start_quant.0 && note.start_quant.0 <= end) || (start
                <= note.end_quant.0 && note.end_quant.0 <= end) {
                result.push(note);
            }
            i += 1;
        }
        proof {
            assert(self.notes@.take(self.notes@.len() as int) =~= self.notes@);
        }
        result
    }
}

/// The messages of all events, in original recorded order.
pub open spec fn messages_of(events: Seq<QuantMidiEvent>) -> Seq<TypedMidiMessage>
    decreases events.len(),
{
    if events.len() == 0 {
        Seq::empty()
    } else {
        messages_of(events.drop_last()).push(events.last().message)
    }
}

/// For a non-empty buffer whose span is not an exact multiple of the
/// measure duration, the measure count is the span divided by the
/// measure duration, rounded up to the next whole measure.
pub proof fn lemma_amount_of_measures_is_ceiling(buffer: Seq<AbsMidiEvent>, measure: Measure)
    requires
        measure.wf(),
        buffer.len() > 0,
        buffer[0].timestamp <= buffer.last().timestamp,
        (buffer.last().timestamp - buffer[0].timestamp) % measure.spec_measure_size_millis() != 0,
    ensures
        spec_amount_of_measures(buffer, measure) == (buffer.last().timestamp - buffer[0].timestamp
            + measure.spec_measure_size_millis() - 1) / measure.spec_measure_size_millis(),
{
    let span = buffer.last().timestamp - buffer[0].timestamp;
    let millis = measure.spec_measure_size_millis();
    crate::measure::lemma_measure_wf_bounds(measure);
    let k = span / millis;
    let r = span % millis;
    lemma_fundamental_div_mod(span, millis);
    assert(millis * (k + 1) == millis * k + millis) by (nonlinear_arith);
    assert((k + 1) * millis == millis * (k + 1)) by (nonlinear_arith);
    lemma_fundamental_div_mod_converse(span + millis, millis, k + 1, r);
    lemma_fundamental_div_mod_converse(span + millis - 1, millis, k + 1, r - 1);
}

/// Absolute-quant replay is periodic in the loop length: advancing the
/// global position by one whole loop addresses the same local position,
/// so every cycle reproduces the same per-position message sets.
pub proof fn lemma_replay_quant_periodic(s: Sample, current: int)
    requires
        s.wf(),
        0 <= current,
    ensures
        s.spec_local_quant(current + s.sample_quant_length.0) == s.spec_local_quant(current),
{
    lemma_mod_add_multiples_vanish(current, s.sample_quant_length.0 as int);
}

/// A tempo change preserves phase: an event's millisecond position lies
/// strictly beyond the replay cursor under the old grid-step duration
/// exactly when it lies strictly beyond the proportionally rescaled
/// cursor under the new one. The set of not-yet-fired events — and,
/// since positions are ordered by grid position under either tempo,
/// their replay order — is unchanged by the rescale.
pub proof fn lemma_rescale_preserves_pending(s: Sample, new_step: int, quant: int)
    requires
        s.wf(),
        1 <= new_step,
        0 <= quant < s.sample_quant_length.0,
    ensures
        (quant * s.quant_size_millis > s.time_cursor) <==> (quant * new_step > s.time_cursor * (
        s.sample_quant_length.0 * new_step) / s.spec_loop_duration_millis()),
{
    let c = s.time_cursor as int;
    let length = s.sample_quant_length.0 as int;
    let old_step = s.quant_size_millis as int;
    let old_total = length * old_step;
    let new_total = length * new_step;
    let rescaled = c * new_total / old_total;
    assert(1 <= new_total && (quant * old_step) * new_total == (quant * new_step) * old_total
        && old_total * (quant * new_step) == (quant * old_step) * new_total) by (nonlinear_arith)
        requires
            1 <= length,
            1 <= new_step,
            old_total == length * old_step,
            new_total == length * new_step,
    ;
    if c < quant * old_step {
        lemma_mul_strict_inequality(c, quant * old_step, new_total);
        lemma_multiply_divide_lt(c * new_total, old_total, quant * new_step);
    } else {
        lemma_mul_inequality(quant * old_step, c, new_total);
        lemma_mul_nonnegative(quant as int, new_step);
        lemma_div_by_multiple(quant * new_step, old_total);
        lemma_div_is_ordered((quant * new_step) * old_total, c * new_total, old_total);
    }
}

/// Consuming the window `(lo, hi]` in one pull returns the same messages,
/// each exactly once, as consuming `(lo, mid]` and then `(mid, hi]` in
/// two: successive `advance` calls aggregate to a single pass over the
/// interval they jointly cover.
pub proof fn lemma_window_split(events: Seq<QuantMidiEvent>, step: int, lo: int, mid: int, hi: int)
    requires
        lo <= mid <= hi,
    ensures
        (messages_in_window(events, step, lo, mid) + messages_in_window(
            events,
            step,
            mid,
            hi,
        )).to_multiset() == messages_in_window(events, step, lo, hi).to_multiset(),
    decreases events.len(),
{
    broadcast use vstd::multiset::group_multiset_axioms;
    broadcast use to_multiset_build;

    if events.len() == 0 {
        assert(messages_in_window(events, step, lo, mid) + messages_in_window(events, step, mid, hi)
            =~= messages_in_window(events, step, lo, hi));
    } else {
        let rest = events.drop_last();
        let m = events.last().message;
        let p = events.last().quant.0 * step;
        lemma_window_split(rest, step, lo, mid, hi);
        let w1 = messages_in_window(rest, step, lo, mid);
        let w2 = messages_in_window(rest, step, mid, hi);
        let w3 = messages_in_window(rest, step, lo, hi);
        lemma_multiset_commutative(w1, w2);
        if lo < p && p <= mid {
            lemma_multiset_commutative(w1.push(m), w2);
            assert((w1.push(m) + w2).to_multiset() =~= w3.push(m).to_multiset());
        } else if mid < p && p <= hi {
            lemma_multiset_commutative(w1, w2.push(m));
            assert((w1 + w2.push(m)).to_multiset() =~= w3.push(m).to_multiset());
        }
    }
}

/// One pull over the whole loop — the window up to the loop end plus the
/// wrapped window back up to the cursor — returns exactly the recorded
/// messages, each exactly once.
pub proof fn lemma_full_lap_covers_buffer(
    events: Seq<QuantMidiEvent>,
    step: int,
    length: int,
    cursor: int,
)
    requires
        1 <= step,
        0 <= cursor,
        forall|i: int| 0 <= i < events.len() ==> (#[trigger] events[i]).quant.0 < length,
    ensures
        (messages_in_window(events, step, cursor, length * step) + messages_in_window(
            events,
            step,
            -1,
            cursor,
        )).to_multiset() == messages_of(events).to_multiset(),
    decreases events.len(),
{
    broadcast use vstd::multiset::group_multiset_axioms;
    broadcast use to_multiset_build;

    if events.len() == 0 {
        assert(messages_in_window(events, step, cursor, length * step) + messages_in_window(
            events,
            step,
            -1,
            cursor,
        ) =~= messages_of(events));
    } else {
        let rest = events.drop_last();
        let m = events.last().message;
        let p = events.last().quant.0 * step;
        assert(forall|i: int| 0 <= i < rest.len() ==> (#[trigger] rest[i]).quant.0 < length);
        lemma_full_lap_covers_buffer(rest, step, length, cursor);
        lemma_position_in_loop(events.last().quant.0 as int, step, length);
        let w1 = messages_in_window(rest, step, cursor, length * step);
        let w2 = messages_in_window(rest, step, -1, cursor);
        lemma_multiset_commutative(w1, w2);
        if p > cursor {
            lemma_multiset_commutative(w1.push(m), w2);
            assert((w1.push(m) + w2).to_multiset() =~= messages_of(rest).push(m).to_multiset());
        } else {
            lemma_multiset_commutative(w1, w2.push(m));
            assert((w1 + w2.push(m)).to_multiset() =~= messages_of(rest).push(m).to_multiset());
        }
    }
}

/// The cursor that `update_measure` computes is the same one that
/// `Measure::scale_time_cursor` computes from the two measure
/// configurations, whenever the sample's grid came from the old measure:
/// both scale by the ratio of the new loop duration to the old.
pub proof fn lemma_update_measure_matches_scale_time_cursor(
    s: Sample,
    old_measure: Measure,
    new_measure: Measure,
)
    requires
        s.wf(),
        old_measure.wf(),
        new_measure.wf(),
        s.quants_per_measure.0 == old_measure.spec_quants_per_measure(),
        s.quants_per_measure.0 == new_measure.spec_quants_per_measure(),
        s.quant_size_millis == old_measure.spec_quant_size_millis(),
    ensures
        s.time_cursor * (s.sample_quant_length.0 * new_measure.spec_quant_size_millis()) / s.spec_loop_duration_millis()
            == old_measure.spec_scale_time_cursor(
            new_measure,
            s.amount_of_measures as int,
            s.time_cursor as int,
        ),
{
    let amount = s.amount_of_measures as int;
    let per_measure = s.quants_per_measure.0 as int;
    let length = s.sample_quant_length.0 as int;
    assert(length * new_measure.spec_quant_size_millis() == amount
        * new_measure.spec_measure_size_millis() && length * old_measure.spec_quant_size_millis()
        == amount * old_measure.spec_measure_size_millis()) by (nonlinear_arith)
        requires
            length == amount * per_measure,
            per_measure == old_measure.spec_quants_per_measure(),
            per_measure == new_measure.spec_quants_per_measure(),
            old_measure.spec_measure_size_millis() == old_measure.spec_quant_size_millis()
                * old_measure.spec_quants_per_measure(),
            new_measure.spec_measure_size_millis() == new_measure.spec_quant_size_millis()
                * new_measure.spec_quants_per_measure(),
    ;
}

/// A single `advance` over one full loop duration returns every recorded
/// message exactly once, split once at the loop boundary.
pub proof fn lemma_advance_full_lap(s: Sample)
    requires
        s.wf(),
    ensures
        s.spec_advance_messages(s.spec_loop_duration_millis()).to_multiset() == messages_of(
            s.buffer@,
        ).to_multiset(),
{
    let duration = s.spec_loop_duration_millis();
    let cursor = s.time_cursor as int;
    lemma_mod_add_multiples_vanish(cursor, duration);
    lemma_small_mod(s.time_cursor as nat, duration as nat);
    assert((cursor + duration) % duration == cursor);
    lemma_full_lap_covers_buffer(
        s.buffer@,
        s.quant_size_millis as int,
        s.sample_quant_length.0 as int,
        cursor,
    );
}

} // verus!
