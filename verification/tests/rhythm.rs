use naive_rhythm::{build, parse, solve, Input, Output, ParseError};

fn make_input(bpm: u32, keys: &[u32]) -> Input {
    Input { bpm, keys: keys.to_vec() }
}

#[test]
fn parse_reads_tempo_and_keys() {
    let input = parse("naive-rhythm bpm 120\n0 250 500 750").unwrap();
    assert_eq!(input.bpm, 120);
    assert_eq!(input.keys, vec![0, 250, 500, 750]);
}

#[test]
fn parse_skips_empty_tokens() {
    let input = parse("naive-rhythm  bpm  120\n\n5  7 ").unwrap();
    assert_eq!(input.bpm, 120);
    assert_eq!(input.keys, vec![5, 7]);
}

#[test]
fn parse_allows_no_keys() {
    let input = parse("naive-rhythm bpm 90").unwrap();
    assert_eq!(input.bpm, 90);
    assert!(input.keys.is_empty());
}

#[test]
fn parse_rejects_wrong_magic() {
    assert_eq!(parse("naive 120").unwrap_err(), ParseError::BadMagic);
    assert_eq!(parse("").unwrap_err(), ParseError::BadMagic);
}

#[test]
fn parse_rejects_missing_bpm_keyword() {
    assert_eq!(parse("naive-rhythm 120\n0 100").unwrap_err(), ParseError::BadBpm);
}

#[test]
fn parse_rejects_bad_tempo_token() {
    assert_eq!(parse("naive-rhythm bpm abc").unwrap_err(), ParseError::BadBpm);
    assert_eq!(parse("naive-rhythm bpm").unwrap_err(), ParseError::BadBpm);
    assert_eq!(parse("naive-rhythm bpm 4294967296").unwrap_err(), ParseError::BadBpm);
}

#[test]
fn parse_rejects_bad_key_token() {
    assert_eq!(parse("naive-rhythm bpm 120\n0 abc").unwrap_err(), ParseError::BadKey);
    assert_eq!(parse("naive-rhythm bpm 120\n99999999999").unwrap_err(), ParseError::BadKey);
}

#[test]
fn solve_quantizes_sorts_and_dedups() {
    let out = solve(make_input(120, &[0, 250, 500, 750]));
    assert_eq!(out.bpm, 120);
    assert_eq!(out.beat, vec![0, 1]);
}

#[test]
fn solve_output_strictly_increasing() {
    let out = solve(make_input(120, &[750, 250, 250, 0, 1499]));
    for w in out.beat.windows(2) {
        assert!(w[0] < w[1]);
    }
    assert_eq!(out.beat, vec![0, 1, 3]);
}

#[test]
fn solve_requantizing_boundaries_is_identity() {
    let beats = vec![0u32, 1, 3, 7];
    let period = 60000 / 120;
    let keys: Vec<u32> = beats.iter().map(|b| b * period).collect();
    let out = solve(make_input(120, &keys));
    assert_eq!(out.beat, beats);
}

#[test]
fn solve_tie_on_boundary_rounds_low() {
    let out = solve(make_input(120, &[500]));
    assert_eq!(out.beat, vec![1]);
    let mid = solve(make_input(120, &[250]));
    assert_eq!(mid.beat, vec![0]);
}

#[test]
fn solve_tempo_extremes() {
    // one-beat-per-minute period is 60000 ms
    let slow = solve(make_input(1, &[29999, 30000, 60000]));
    assert_eq!(slow.beat, vec![0, 1]);
    // at 60000 beats per minute every millisecond is a beat, even the largest
    let fast = solve(make_input(60000, &[7, u32::MAX]));
    assert_eq!(fast.beat, vec![7, u32::MAX]);
}

#[test]
fn solve_empty_keys_empty_beats() {
    let out = solve(make_input(120, &[]));
    assert!(out.beat.is_empty());
}

#[test]
fn build_starts_with_header_chunk() {
    let bytes = build(Output { bpm: 120, beat: vec![0, 1] }).unwrap();
    assert_eq!(
        &bytes[0..14],
        &[0x4d, 0x54, 0x68, 0x64, 0, 0, 0, 6, 0, 1, 0, 2, 0x01, 0xe0]
    );
    let chunk_tags = bytes.windows(4).filter(|w| w == b"MTrk").count();
    assert_eq!(chunk_tags, 2);
}

#[test]
fn build_track_shapes() {
    let bytes = build(Output { bpm: 120, beat: vec![0, 1] }).unwrap();
    let smf = midly::Smf::parse(&bytes).unwrap();
    assert_eq!(smf.header.format, midly::Format::Parallel);
    assert_eq!(
        smf.header.timing,
        midly::Timing::Metrical(midly::num::u15::new(480))
    );
    assert_eq!(smf.tracks.len(), 2);
    assert_eq!(smf.tracks[0].len(), 4);
    assert_eq!(smf.tracks[1].len(), 2 * 2 + 1);
}

#[test]
fn build_empty_beats_single_event_track() {
    let bytes = build(Output { bpm: 120, beat: vec![] }).unwrap();
    let smf = midly::Smf::parse(&bytes).unwrap();
    assert_eq!(smf.tracks.len(), 2);
    assert_eq!(smf.tracks[0].len(), 4);
    assert_eq!(smf.tracks[1].len(), 1);
    assert_eq!(
        smf.tracks[1][0].kind,
        midly::TrackEventKind::Meta(midly::MetaMessage::EndOfTrack)
    );
}

#[test]
fn build_metadata_track_contents() {
    let bytes = build(Output { bpm: 120, beat: vec![0] }).unwrap();
    let smf = midly::Smf::parse(&bytes).unwrap();
    let t0 = &smf.tracks[0];
    assert_eq!(t0[0].kind, midly::TrackEventKind::Meta(midly::MetaMessage::TrackName(&[])));
    assert_eq!(
        t0[1].kind,
        midly::TrackEventKind::Meta(midly::MetaMessage::TimeSignature(4, 2, 24, 8))
    );
    assert_eq!(
        t0[2].kind,
        midly::TrackEventKind::Meta(midly::MetaMessage::Tempo(midly::num::u24::new(500000)))
    );
    assert_eq!(t0[3].kind, midly::TrackEventKind::Meta(midly::MetaMessage::EndOfTrack));
    for ev in t0 {
        assert_eq!(ev.delta, midly::num::u28::new(0));
    }
}

#[test]
fn build_note_track_deltas() {
    let bytes = build(Output { bpm: 60, beat: vec![2, 5] }).unwrap();
    let smf = midly::Smf::parse(&bytes).unwrap();
    let t1 = &smf.tracks[1];
    let deltas: Vec<u32> = t1.iter().map(|ev| ev.delta.as_int()).collect();
    // first on: 2 * 115200 / 60; offs: gap or one unit; second on: 0
    assert_eq!(deltas, vec![3840, 5760, 0, 1920, 0]);
    match t1[0].kind {
        midly::TrackEventKind::Midi { channel, message } => {
            assert_eq!(channel.as_int(), 0);
            match message {
                midly::MidiMessage::NoteOn { key, vel } => {
                    assert_eq!(key.as_int(), 60);
                    assert_eq!(vel.as_int(), 127);
                }
                _ => panic!("expected a note-on"),
            }
        }
        _ => panic!("expected a channel event"),
    }
    match t1[1].kind {
        midly::TrackEventKind::Midi { message, .. } => match message {
            midly::MidiMessage::NoteOff { key, vel } => {
                assert_eq!(key.as_int(), 60);
                assert_eq!(vel.as_int(), 0);
            }
            _ => panic!("expected a note-off"),
        },
        _ => panic!("expected a channel event"),
    }
}

#[test]
fn build_matches_direct_serialization() {
    let bytes = build(Output { bpm: 120, beat: vec![0, 1, 4] }).unwrap();

    let header = midly::Header::new(
        midly::Format::Parallel,
        midly::Timing::Metrical(midly::num::u15::new(480)),
    );
    let meta = |m| midly::TrackEvent { delta: midly::num::u28::new(0), kind: midly::TrackEventKind::Meta(m) };
    let track0 = vec![
        meta(midly::MetaMessage::TrackName(&[])),
        meta(midly::MetaMessage::TimeSignature(4, 2, 24, 8)),
        meta(midly::MetaMessage::Tempo(midly::num::u24::new(60_000_000 / 120))),
        meta(midly::MetaMessage::EndOfTrack),
    ];
    let note = |delta: u32, on: bool| midly::TrackEvent {
        delta: midly::num::u28::new(delta),
        kind: midly::TrackEventKind::Midi {
            channel: midly::num::u4::new(0),
            message: if on {
                midly::MidiMessage::NoteOn { key: midly::num::u7::new(60), vel: midly::num::u7::new(127) }
            } else {
                midly::MidiMessage::NoteOff { key: midly::num::u7::new(60), vel: midly::num::u7::new(0) }
            },
        },
    };
    let scale = 115200 / 120;
    let track1 = vec![
        note(0 * scale, true),
        note(1 * scale, false),
        note(0, true),
        note(3 * scale, false),
        note(0, true),
        note(1 * scale, false),
        meta(midly::MetaMessage::EndOfTrack),
    ];
    let mut smf = midly::Smf::new(header);
    smf.tracks = vec![track0, track1];
    let mut expected = Vec::new();
    smf.write_std(&mut expected).unwrap();

    assert_eq!(bytes, expected);
}
