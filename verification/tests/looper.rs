use midi_looper::measure::{Measure, Quant};
use midi_looper::midi::{
    events_to_notes, get_message_type, get_note_channel, get_note_key, is_note_message,
    typed_message, AbsMidiEvent, MidiMessage, Note, TypedMidiMessage,
};
use midi_looper::sample::{QuantMidiEvent, Sample};

const DEFAULT_MEASURE: Measure = Measure {
    tempo_bpm: 120,
    measure_size_bpm: 4,
    quantation_level: 4,
};

fn note_on(channel: u8, key: u8) -> TypedMidiMessage {
    TypedMidiMessage::NoteOn {
        channel,
        key,
        velocity: 0,
    }
}

fn note_off(channel: u8, key: u8) -> TypedMidiMessage {
    TypedMidiMessage::NoteOff {
        channel,
        key,
        velocity: 0,
    }
}

fn key_span(key: u8, start: u32, duration: u32) -> [AbsMidiEvent; 2] {
    [
        AbsMidiEvent {
            timestamp: start,
            message: note_on(0, key),
        },
        AbsMidiEvent {
            timestamp: start + duration - 1,
            message: note_off(0, key),
        },
    ]
}

#[test]
fn test_hello() {
    assert!(true);
}

#[test]
fn test_amount_of_measure_calculation() {
    let expected_amount_of_measures = 2;

    let buffer = key_span(
        0,
        0,
        DEFAULT_MEASURE.measure_size_millis() * expected_amount_of_measures,
    );

    let sample = Sample::new(&buffer, &DEFAULT_MEASURE, 0);

    println!("{}", sample.amount_of_measures);

    assert_eq!(expected_amount_of_measures, sample.amount_of_measures);
}

#[test]
fn empty_buffer_occupies_one_measure() {
    let sample = Sample::new(&[], &DEFAULT_MEASURE, 0);
    assert_eq!(sample.amount_of_measures, 1);
    assert_eq!(sample.sample_quant_length, Quant(16));
}

#[test]
fn measure_derived_constants() {
    assert_eq!(DEFAULT_MEASURE.quant_size_millis(), 125);
    assert_eq!(DEFAULT_MEASURE.quants_per_measure(), Quant(16));
    assert_eq!(DEFAULT_MEASURE.measure_size_millis(), 2000);
    assert_eq!(DEFAULT_MEASURE.measures_to_quants(3), Quant(48));
}

#[test]
fn snap_rounds_to_nearest_grid_step() {
    assert_eq!(DEFAULT_MEASURE.snap_timestamp_to_quant(0), Quant(0));
    assert_eq!(DEFAULT_MEASURE.snap_timestamp_to_quant(62), Quant(0));
    assert_eq!(DEFAULT_MEASURE.snap_timestamp_to_quant(63), Quant(1));
    assert_eq!(DEFAULT_MEASURE.snap_timestamp_to_quant(125), Quant(1));
    assert_eq!(DEFAULT_MEASURE.snap_timestamp_to_quant(1999), Quant(16));
}

#[test]
fn quantize_round_trip_error_within_half_step() {
    for t in [0u32, 1, 62, 63, 124, 125, 1000, 1999, 2000] {
        let q = DEFAULT_MEASURE.snap_timestamp_to_quant(t);
        let back = DEFAULT_MEASURE.quant_to_timestamp(q);
        let diff = if back > t { back - t } else { t - back };
        assert!(2 * diff <= 125, "t = {t}: diff {diff} above half a step");
    }
}

#[test]
fn scale_time_cursor_rescales_proportionally() {
    let slower = Measure {
        tempo_bpm: 60,
        ..DEFAULT_MEASURE
    };
    // One measure lasts 2000 ms at 120 bpm and 4000 ms at 60 bpm.
    assert_eq!(DEFAULT_MEASURE.scale_time_cursor(&slower, 1, 500), 1000);
    assert_eq!(slower.scale_time_cursor(&DEFAULT_MEASURE, 2, 5000), 2500);
    assert_eq!(DEFAULT_MEASURE.scale_time_cursor(&DEFAULT_MEASURE, 1, 789), 789);
}

#[test]
fn example_scenario_single_measure_loop() {
    // Note-On at 0 and Note-Off just before the measure ends: one measure,
    // and each full-measure pull replays exactly that pair, every lap.
    let measure_millis = DEFAULT_MEASURE.measure_size_millis();
    let buffer = key_span(60, 0, measure_millis);
    let mut sample = Sample::new(&buffer, &DEFAULT_MEASURE, 0);

    assert_eq!(sample.amount_of_measures, 1);
    let first_lap = sample.advance(measure_millis);
    assert_eq!(first_lap, vec![note_on(0, 60), note_off(0, 60)]);
    let second_lap = sample.advance(measure_millis);
    assert_eq!(second_lap, vec![note_on(0, 60), note_off(0, 60)]);
}

#[test]
fn advance_splits_once_at_wraparound() {
    let buffer = [
        AbsMidiEvent {
            timestamp: 0,
            message: note_on(0, 10),
        },
        AbsMidiEvent {
            timestamp: 1000,
            message: note_off(0, 10),
        },
        AbsMidiEvent {
            timestamp: 1999,
            message: note_on(0, 11),
        },
    ];
    let mut sample = Sample::new(&buffer, &DEFAULT_MEASURE, 0);
    assert_eq!(sample.amount_of_measures, 1);

    // (0, 1500]: only the event at 1000 ms.
    assert_eq!(sample.advance(1500), vec![note_off(0, 10)]);
    // (1500, 2000] plus the wrapped prefix [0, 0]: the boundary event
    // (snapped onto the loop start) and the event at 0, once each.
    assert_eq!(sample.advance(500), vec![note_on(0, 10), note_on(0, 11)]);
    // The next full lap sees every event exactly once again.
    assert_eq!(
        sample.advance(2000),
        vec![note_off(0, 10), note_on(0, 10), note_on(0, 11)]
    );
}

#[test]
fn successive_advances_aggregate_to_one_pass() {
    let buffer = [
        AbsMidiEvent {
            timestamp: 500,
            message: note_on(0, 1),
        },
        AbsMidiEvent {
            timestamp: 1000,
            message: note_on(0, 2),
        },
        AbsMidiEvent {
            timestamp: 1500,
            message: note_on(0, 3),
        },
    ];

    let mut split = Sample::new(&buffer, &DEFAULT_MEASURE, 0);
    let mut aggregate = split.advance(700);
    assert_eq!(split.advance(0), vec![]);
    aggregate.extend(split.advance(1300));

    let mut single = Sample::new(&buffer, &DEFAULT_MEASURE, 0);
    let one_pass = single.advance(2000);

    assert_eq!(aggregate, one_pass);
    assert_eq!(
        one_pass,
        vec![note_on(0, 1), note_on(0, 2), note_on(0, 3)]
    );
}

#[test]
fn replay_quant_matches_exact_grid_position() {
    let buffer = [
        AbsMidiEvent {
            timestamp: 0,
            message: note_on(0, 60),
        },
        AbsMidiEvent {
            timestamp: 500,
            message: note_off(0, 60),
        },
    ];
    let sample = Sample::new(&buffer, &DEFAULT_MEASURE, 0);

    assert_eq!(sample.replay_quant(Quant(0)), vec![note_on(0, 60)]);
    assert_eq!(sample.replay_quant(Quant(3)), vec![]);
    assert_eq!(sample.replay_quant(Quant(4)), vec![note_off(0, 60)]);
}

#[test]
fn replay_quant_folds_shift_circularly() {
    // Two measures; recording began one measure into the transport.
    let buffer = [
        AbsMidiEvent {
            timestamp: 0,
            message: note_on(0, 72),
        },
        AbsMidiEvent {
            timestamp: 3875,
            message: note_off(0, 72),
        },
    ];
    let sample = Sample::new(&buffer, &DEFAULT_MEASURE, 1);
    assert_eq!(sample.sample_quant_length, Quant(32));

    // Global position 16 maps to local position 0.
    assert_eq!(sample.replay_quant(Quant(16)), vec![note_on(0, 72)]);
    // Global position 0 wraps backwards to local position 16.
    assert_eq!(sample.replay_quant(Quant(0)), vec![]);
    // The Note-Off sits at grid position 31; global 15 maps onto it.
    assert_eq!(sample.replay_quant(Quant(15)), vec![note_off(0, 72)]);
}

#[test]
fn replay_quant_repeats_identically_every_cycle() {
    let buffer = key_span(64, 0, DEFAULT_MEASURE.measure_size_millis());
    let sample = Sample::new(&buffer, &DEFAULT_MEASURE, 0);
    let length = sample.sample_quant_length.0;

    for tick in 0..length {
        let first_cycle = sample.replay_quant(Quant(tick));
        let second_cycle = sample.replay_quant(Quant(tick + length));
        assert_eq!(first_cycle, second_cycle);
    }
}

#[test]
fn tempo_rescale_preserves_phase() {
    let buffer = [
        AbsMidiEvent {
            timestamp: 500,
            message: note_on(0, 60),
        },
        AbsMidiEvent {
            timestamp: 1000,
            message: note_off(0, 60),
        },
    ];
    let mut sample = Sample::new(&buffer, &DEFAULT_MEASURE, 0);
    assert_eq!(sample.amount_of_measures, 1);

    // Fire the first event, leaving the second pending at 1000 ms.
    assert_eq!(sample.advance(600), vec![note_on(0, 60)]);

    // Halve the tempo: the loop now lasts 4000 ms and the cursor lands at
    // 600 * 4000 / 2000 = 1200 ms, still short of the pending event,
    // which now sits at 2000 ms.
    let slower = Measure {
        tempo_bpm: 60,
        ..DEFAULT_MEASURE
    };
    sample.update_measure(&slower);
    assert_eq!(sample.time_cursor, 1200);

    // The pending event still fires exactly once, and nothing refires.
    assert_eq!(sample.advance(800), vec![note_off(0, 60)]);
    assert_eq!(sample.advance(2000), vec![]);
}

#[test]
fn note_on_without_off_emits_nothing() {
    let events = vec![QuantMidiEvent {
        message: note_on(0, 60),
        quant: Quant(0),
    }];
    assert_eq!(events_to_notes(&events), vec![]);
}

#[test]
fn note_retrigger_closes_and_reopens() {
    let events = vec![
        QuantMidiEvent {
            message: note_on(1, 60),
            quant: Quant(0),
        },
        QuantMidiEvent {
            message: note_on(1, 60),
            quant: Quant(4),
        },
        QuantMidiEvent {
            message: note_off(1, 60),
            quant: Quant(6),
        },
    ];
    let notes = events_to_notes(&events);
    assert_eq!(
        notes,
        vec![
            Note {
                channel: 1,
                key: 60,
                start_quant: Quant(0),
                end_quant: Quant(4),
            },
            Note {
                channel: 1,
                key: 60,
                start_quant: Quant(4),
                end_quant: Quant(6),
            },
        ]
    );
}

#[test]
fn orphan_note_off_is_ignored() {
    let events = vec![
        QuantMidiEvent {
            message: note_off(0, 30),
            quant: Quant(2),
        },
        QuantMidiEvent {
            message: note_on(0, 31),
            quant: Quant(3),
        },
        QuantMidiEvent {
            message: note_off(0, 31),
            quant: Quant(5),
        },
    ];
    let notes = events_to_notes(&events);
    assert_eq!(
        notes,
        vec![Note {
            channel: 0,
            key: 31,
            start_quant: Quant(3),
            end_quant: Quant(5),
        }]
    );
}

#[test]
fn notes_pair_per_channel_and_key() {
    let events = vec![
        QuantMidiEvent {
            message: note_on(0, 60),
            quant: Quant(0),
        },
        QuantMidiEvent {
            message: note_on(1, 60),
            quant: Quant(1),
        },
        QuantMidiEvent {
            message: note_off(0, 60),
            quant: Quant(2),
        },
        QuantMidiEvent {
            message: note_off(1, 60),
            quant: Quant(3),
        },
    ];
    let notes = events_to_notes(&events);
    assert_eq!(notes.len(), 2);
    assert_eq!(notes[0].channel, 0);
    assert_eq!(notes[0].end_quant, Quant(2));
    assert_eq!(notes[1].channel, 1);
    assert_eq!(notes[1].end_quant, Quant(3));
}

#[test]
fn measure_notes_shares_boundary_with_adjacent_measures() {
    // Two measures of 16 grid steps; a note ending exactly on the shared
    // boundary position 16 appears in both windows.
    let buffer = [
        AbsMidiEvent {
            timestamp: 0,
            message: note_on(0, 50),
        },
        AbsMidiEvent {
            timestamp: 2000,
            message: note_off(0, 50),
        },
        AbsMidiEvent {
            timestamp: 2500,
            message: note_on(0, 51),
        },
        AbsMidiEvent {
            timestamp: 3000,
            message: note_off(0, 51),
        },
    ];
    let sample = Sample::new(&buffer, &DEFAULT_MEASURE, 0);
    assert_eq!(sample.amount_of_measures, 2);

    let first = sample.measure_notes(0);
    assert_eq!(first.len(), 1);
    assert_eq!(first[0].key, 50);
    assert_eq!(first[0].end_quant, Quant(16));

    let second = sample.measure_notes(1);
    assert_eq!(second.len(), 2);
    assert_eq!(second[0].key, 50);
    assert_eq!(second[1].key, 51);
}

#[test]
fn message_type_and_note_checks() {
    let on = MidiMessage {
        status: 0b10010011,
        data1: 60,
        data2: 100,
    };
    let off = MidiMessage {
        status: 0b10000010,
        data1: 61,
        data2: 0,
    };
    let control = MidiMessage {
        status: 0b10110000,
        data1: 7,
        data2: 90,
    };

    assert_eq!(get_message_type(&on), 0b10010000);
    assert_eq!(get_message_type(&off), 0b10000000);
    assert_eq!(get_message_type(&control), 0b10110000);

    assert!(is_note_message(&on));
    assert!(is_note_message(&off));
    assert!(!is_note_message(&control));

    assert_eq!(get_note_channel(&on), 3);
    assert_eq!(get_note_key(&on), 60);
}

#[test]
fn typed_message_decodes_note_messages_only() {
    let on = MidiMessage {
        status: 0b10010011,
        data1: 60,
        data2: 100,
    };
    let off = MidiMessage {
        status: 0b10000010,
        data1: 61,
        data2: 0,
    };
    let control = MidiMessage {
        status: 0b10110000,
        data1: 7,
        data2: 90,
    };

    assert_eq!(
        typed_message(&on),
        Some(TypedMidiMessage::NoteOn {
            channel: 3,
            key: 60,
            velocity: 100,
        })
    );
    assert_eq!(
        typed_message(&off),
        Some(TypedMidiMessage::NoteOff {
            channel: 2,
            key: 61,
            velocity: 0,
        })
    );
    assert_eq!(typed_message(&control), None);
}
