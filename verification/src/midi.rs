//! MIDI message model and note reconstruction.
//!
//! Raw messages arrive as a status byte plus two data bytes; the status
//! high nibble selects the message type and the low nibble the channel.
//! [`events_to_notes`] pairs Note-On and Note-Off events per
//! (channel, key) into [`Note`] spans.

use vstd::prelude::*;

verus! {

use crate::measure::Quant;
use crate::sample::QuantMidiEvent;

/// A decoded MIDI channel-voice message.
#[derive(Clone, Copy, PartialEq, Eq, Structural, Debug)]
pub enum TypedMidiMessage {
    NoteOn { channel: u8, key: u8, velocity: u8 },
    NoteOff { channel: u8, key: u8, velocity: u8 },
}

/// A raw MIDI event as recorded: a millisecond timestamp relative to the
/// start of the recording pass, plus the message.
#[derive(Clone, Copy, PartialEq, Eq, Structural, Debug)]
pub struct AbsMidiEvent {
    pub timestamp: u32,
    pub message: TypedMidiMessage,
}

/// A raw MIDI message as a port delivers it: one status byte, two data bytes.
#[derive(Clone, Copy, PartialEq, Eq, Structural, Debug)]
pub struct MidiMessage {
    pub status: u8,
    pub data1: u8,
    pub data2: u8,
}

/// A reconstructed note span on the quantization grid.
#[derive(Clone, Copy, PartialEq, Eq, Structural, Debug)]
pub struct Note {
    pub channel: u8,
    pub key: u8,
    pub start_quant: Quant,
    pub end_quant: Quant,
}

/// Status high nibble of a Note-Off message.
pub const NOTE_OFF_TYPE: u8 = 0b10000000;

/// Status high nibble of a Note-On message.
pub const NOTE_ON_TYPE: u8 = 0b10010000;

pub open spec fn spec_message_type(message: MidiMessage) -> u8 {
    message.status & 0b11110000
}

/// The message type: the status byte with the channel nibble masked off.
pub fn get_message_type(message: &MidiMessage) -> (r: u8)
    ensures
        r == spec_message_type(*message),
{
    message.status & 0b11110000
}

/// Whether the raw message is a Note-On or Note-Off message.
pub fn is_note_message(message: &MidiMessage) -> (r: bool)
    ensures
        r == (spec_message_type(*message) == NOTE_OFF_TYPE
            || spec_message_type(*message) == NOTE_ON_TYPE),
{
    let message_type = get_message_type(message);
    message_type == NOTE_OFF_TYPE || message_type == NOTE_ON_TYPE
}

/// The channel of a channel-voice message: the status low nibble.
pub fn get_note_channel(message: &MidiMessage) -> (r: u8)
    ensures
        r == (message.status & 0b00001111),
{
    message.status & 0b00001111
}

/// The key of a note message: its first data byte.
pub fn get_note_key(message: &MidiMessage) -> (r: u8)
    ensures
        r == message.data1,
{
    message.data1
}

pub open spec fn spec_typed_message(message: MidiMessage) -> Option<TypedMidiMessage> {
    if spec_message_type(message) == NOTE_ON_TYPE {
        Some(TypedMidiMessage::NoteOn {
            channel: message.status & 0b00001111,
            key: message.data1,
            velocity: message.data2,
        })
    } else if spec_message_type(message) == NOTE_OFF_TYPE {
        Some(TypedMidiMessage::NoteOff {
            channel: message.status & 0b00001111,
            key: message.data1,
            velocity: message.data2,
        })
    } else {
        None
    }
}

/// Decodes a raw note message; any other message type yields `None`.
pub fn typed_message(message: &MidiMessage) -> (r: Option<TypedMidiMessage>)
    ensures
        r == spec_typed_message(*message),
{
    let message_type = get_message_type(message);
    if message_type == NOTE_ON_TYPE {
        Some(TypedMidiMessage::NoteOn {
            channel: get_note_channel(message),
            key: get_note_key(message),
            velocity: message.data2,
        })
    } else if message_type == NOTE_OFF_TYPE {
        Some(TypedMidiMessage::NoteOff {
            channel: get_note_channel(message),
            key: get_note_key(message),
            velocity: message.data2,
        })
    } else {
        None
    }
}

/// A note message's channel and key stay inside the 16-channel,
/// 128-key tracking table.
pub open spec fn message_in_table(message: TypedMidiMessage) -> bool {
    match message {
        TypedMidiMessage::NoteOn { channel, key, velocity: _ } => channel < 16 && key < 128,
        TypedMidiMessage::NoteOff { channel, key, velocity: _ } => channel < 16 && key < 128,
    }
}

/// A quantized event whose message stays inside the tracking table.
pub open spec fn event_in_table(e: QuantMidiEvent) -> bool {
    message_in_table(e.message)
}

/// The note currently open for `(channel, key)` after the given events:
/// the grid position of the latest unanswered Note-On, if any.
pub open spec fn open_note_after(events: Seq<QuantMidiEvent>, channel: u8, key: u8) -> Option<
    Quant,
>
    decreases events.len(),
{
    if events.len() == 0 {
        None
    } else {
        let e = events.last();
        match e.message {
            TypedMidiMessage::NoteOn { channel: c, key: k, velocity: _ } => {
                if c == channel && k == key {
                    Some(e.quant)
                } else {
                    open_note_after(events.drop_last(), channel, key)
                }
            },
            TypedMidiMessage::NoteOff { channel: c, key: k, velocity: _ } => {
                if c == channel && k == key {
                    None
                } else {
                    open_note_after(events.drop_last(), channel, key)
                }
            },
        }
    }
}

/// The notes emitted by the pairing pass, in emission order.
///
/// A Note-On or Note-Off closes and emits the open note of its
/// (channel, key), using its own grid position as the end; a Note-On then
/// opens a new note there, a Note-Off leaves the slot empty. An event for
/// a pair with no open note emits nothing, and notes still open at the
/// end of the stream are never emitted.
pub open spec fn notes_of_events(events: Seq<QuantMidiEvent>) -> Seq<Note>
    decreases events.len(),
{
    if events.len() == 0 {
        Seq::empty()
    } else {
        let e = events.last();
        let rest = events.drop_last();
        let prev = notes_of_events(rest);
        match e.message {
            TypedMidiMessage::NoteOn { channel, key, velocity: _ } => {
                match open_note_after(rest, channel, key) {
                    Some(start) => prev.push(
                        Note { channel, key, start_quant: start, end_quant: e.quant },
                    ),
                    None => prev,
                }
            },
            TypedMidiMessage::NoteOff { channel, key, velocity: _ } => {
                match open_note_after(rest, channel, key) {
                    Some(start) => prev.push(
                        Note { channel, key, start_quant: start, end_quant: e.quant },
                    ),
                    None => prev,
                }
            },
        }
    }
}

/// Pairs Note-On and Note-Off events into note spans, in event order,
/// tracking the open note of every (channel, key) in a flat
/// 16-channel-by-128-key table.
pub fn events_to_notes(replay_buffer: &Vec<QuantMidiEvent>) -> (notes: Vec<Note>)
    requires
        forall|i: int| 0 <= i < replay_buffer@.len() ==> event_in_table(#[trigger] replay_buffer@[i]),
    ensures
        notes@ == notes_of_events(replay_buffer@),
{
    let mut note_tracker: Vec<Option<Quant>> = Vec::new();
    let mut j: usize = 0;
    while j < 2048
        invariant
            note_tracker@.len() == j,
            j <= 2048,
            forall|t: int| 0 <= t < j ==> note_tracker@[t] is None,
        decreases 2048 - j,
    {
        note_tracker.push(None);
        j += 1;
    }

    let mut result: Vec<Note> = Vec::new();
    let mut i: usize = 0;
    while i < replay_buffer.len()
        invariant
            i <= replay_buffer@.len(),
            forall|t: int| 0 <= t < replay_buffer@.len() ==> event_in_table(
                #[trigger] replay_buffer@[t],
            ),
            note_tracker@.len() == 2048,
            result@ == notes_of_events(replay_buffer@.take(i as int)),
            forall|c: u8, k: u8|
                c < 16 && k < 128 ==> note_tracker@[c as int * 128 + k as int]
                    == #[trigger] open_note_after(replay_buffer@.take(i as int), c, k),
        decreases replay_buffer@.len() - i,
    {
        let ghost prefix = replay_buffer@.take(i as int);
        let ghost next_prefix = replay_buffer@.take(i as int + 1);
        proof {
            assert(next_prefix.drop_last() =~= prefix);
            assert(next_prefix.last() == replay_buffer@[i as int]);
        }
        let event = replay_buffer[i];
        match event.message {
            TypedMidiMessage::NoteOn { channel, key, velocity: _ } => {
                let slot = channel as usize * 128 + key as usize;
                match note_tracker[slot] {
                    Some(start) => {
                        result.push(
                            Note { channel, key, start_quant: start, end_quant: event.quant },
                        );
                        note_tracker.set(slot, Some(event.quant));
                    },
                    None => {
                        note_tracker.set(slot, Some(event.quant));
                    },
                }
                proof {
                    assert forall|c: u8, k: u8| c < 16 && k < 128 implies note_tracker@[c as int
                        * 128 + k as int] == #[trigger] open_note_after(next_prefix, c, k) by {
                        if c == channel && k == key {
                            assert(note_tracker@[c as int * 128 + k as int] == Some(event.quant));
                            assert(open_note_after(next_prefix, c, k) == Some(event.quant));
                        } else {
                            assert(c as int * 128 + k as int != channel as int * 128 + key as int);
                            assert(note_tracker@[c as int * 128 + k as int] == open_note_after(
                                prefix,
                                c,
                                k,
                            ));
                            assert(open_note_after(next_prefix, c, k) == open_note_after(
                                prefix,
                                c,
                                k,
                            ));
                        }
                    }
                }
            },
            TypedMidiMessage::NoteOff { channel, key, velocity: _ } => {
                let slot = channel as usize * 128 + key as usize;
                match note_tracker[slot] {
                    Some(start) => {
                        result.push(
                            Note { channel, key, start_quant: start, end_quant: event.quant },
                        );
                        note_tracker.set(slot, None);
                    },
                    None => {},
                }
                proof {
                    assert forall|c: u8, k: u8| c < 16 && k < 128 implies note_tracker@[c as int
                        * 128 + k as int] == #[trigger] open_note_after(next_prefix, c, k) by {
                        if c == channel && k == key {
                            assert(note_tracker@[c as int * 128 + k as int] is None);
                            assert(open_note_after(next_prefix, c, k) is None);
                        } else {
                            assert(c as int * 128 + k as int != channel as int * 128 + key as int);
                            assert(note_tracker@[c as int * 128 + k as int] == open_note_after(
                                prefix,
                                c,
                                k,
                            ));
                            assert(open_note_after(next_prefix, c, k) == open_note_after(
                                prefix,
                                c,
                                k,
                            ));
                        }
                    }
                }
            },
        }
        i += 1;
    }
    proof {
        assert(replay_buffer@.take(replay_buffer@.len() as int) =~= replay_buffer@);
    }
    result
}

/// A lone Note-On opens a note and emits nothing; the opened note is
/// dropped if the stream ends before a matching event closes it.
pub proof fn lemma_note_on_opens(
    events: Seq<QuantMidiEvent>,
    channel: u8,
    key: u8,
    velocity: u8,
    quant: Quant,
)
    requires
        open_note_after(events, channel, key) is None,
    ensures
        ({
            let on = QuantMidiEvent {
                message: TypedMidiMessage::NoteOn { channel, key, velocity },
                quant,
            };
            &&& notes_of_events(events.push(on)) == notes_of_events(events)
            &&& open_note_after(events.push(on), channel, key) == Some(quant)
        }),
{
    let on = QuantMidiEvent { message: TypedMidiMessage::NoteOn { channel, key, velocity }, quant };
    assert(events.push(on).drop_last() =~= events);
}

/// A Note-On arriving while a note is already open for its (channel, key)
/// closes and emits that note, ending at the new event's grid position,
/// and immediately opens a new note there.
pub proof fn lemma_note_on_retriggers(
    events: Seq<QuantMidiEvent>,
    channel: u8,
    key: u8,
    velocity: u8,
    quant: Quant,
    start: Quant,
)
    requires
        open_note_after(events, channel, key) == Some(start),
    ensures
        ({
            let on = QuantMidiEvent {
                message: TypedMidiMessage::NoteOn { channel, key, velocity },
                quant,
            };
            &&& notes_of_events(events.push(on)) == notes_of_events(events).push(
                Note { channel, key, start_quant: start, end_quant: quant },
            )
            &&& open_note_after(events.push(on), channel, key) == Some(quant)
        }),
{
    let on = QuantMidiEvent { message: TypedMidiMessage::NoteOn { channel, key, velocity }, quant };
    assert(events.push(on).drop_last() =~= events);
}

} // verus!
