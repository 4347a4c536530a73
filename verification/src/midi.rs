use vstd::prelude::*;

use crate::Output;
use crate::OutputError;
use crate::quantize::strictly_increasing;

verus! {

/// Ticks per quarter note in the file's metrical timing.
pub const PULSES_PER_QUARTER: u16 = 480;

/// The one note the rhythm repeats.
pub const NOTE_KEY: u8 = 60;

pub const VELOCITY_ON: u8 = 127;

pub const VELOCITY_OFF: u8 = 0;

pub const CHANNEL: u8 = 0;

/// Scale from a beat-index gap to MIDI ticks before division by the tempo.
pub const TICK_SCALE: u32 = 115200;

/// One event of a MIDI track as this library models it: a delta time in ticks
/// and the message to follow it.
#[derive(Clone, Copy, Debug, PartialEq, Eq, Structural)]
pub enum Event {
    /// An empty track-name meta event.
    TrackName { delta: u32 },
    /// A time-signature meta event; the denominator is a power-of-two
    /// exponent, as the MIDI format has it.
    TimeSignature {
        delta: u32,
        numerator: u8,
        denominator_log2: u8,
        clocks_per_click: u8,
        notes_per_quarter: u8,
    },
    /// A tempo meta event, in microseconds per quarter note.
    Tempo { delta: u32, micros_per_quarter: u32 },
    /// An end-of-track meta event.
    EndOfTrack { delta: u32 },
    NoteOn { delta: u32, channel: u8, key: u8, velocity: u8 },
    NoteOff { delta: u32, channel: u8, key: u8, velocity: u8 },
}

/// Every field of the event fits the width the MIDI encoding gives it: the
/// delta a 28-bit quantity, a tempo 24 bits, a channel 4, a key or velocity 7.
pub open spec fn event_wf(e: Event) -> bool {
    match e {
        Event::TrackName { delta } => delta < 0x10000000,
        Event::TimeSignature { delta, .. } => delta < 0x10000000,
        Event::Tempo { delta, micros_per_quarter } => delta < 0x10000000 && micros_per_quarter
            < 0x1000000,
        Event::EndOfTrack { delta } => delta < 0x10000000,
        Event::NoteOn { delta, channel, key, velocity } => delta < 0x10000000 && channel < 16 && key
            < 128 && velocity < 128,
        Event::NoteOff { delta, channel, key, velocity } => delta < 0x10000000 && channel < 16
            && key < 128 && velocity < 128,
    }
}

/// Microseconds per quarter note at a tempo, packed into the 24 bits the
/// tempo meta event holds; tempos below 4 beats per minute overflow that
/// width and lose their top bits, as the original encoding does.
pub open spec fn tempo_micros(bpm: u32) -> int {
    (60000000int / bpm as int) % 0x1000000
}

/// The delta time in MIDI ticks for a gap of whole beats at a tempo, packed
/// into the 28 bits a delta time holds.
pub open spec fn delta_ticks(gap: int, bpm: u32) -> int {
    ((gap * TICK_SCALE) / bpm as int) % 0x10000000
}

/// The metadata track: an empty track name, the 4/4 time signature, the
/// tempo, and the end marker, all at delta zero.
pub open spec fn track0_spec(bpm: u32) -> Seq<Event> {
    seq![
        Event::TrackName { delta: 0 },
        Event::TimeSignature {
            delta: 0,
            numerator: 4,
            denominator_log2: 2,
            clocks_per_click: 24,
            notes_per_quarter: 8,
        },
        Event::Tempo { delta: 0, micros_per_quarter: tempo_micros(bpm) as u32 },
        Event::EndOfTrack { delta: 0 },
    ]
}

/// The delta that precedes the note-on of the beat at index `i`: the first
/// beat's own offset from time zero, then zero, the off event having already
/// moved time to the previous beat.
pub open spec fn on_delta(beats: Seq<u32>, bpm: u32, i: int) -> int {
    if i == 0 {
        delta_ticks(beats[0] as int, bpm)
    } else {
        0
    }
}

/// The delta that precedes the note-off of the beat at index `i`: the gap to
/// the next beat, or a nominal single tick unit after the last beat.
pub open spec fn off_delta(beats: Seq<u32>, bpm: u32, i: int) -> int {
    if i == beats.len() - 1 {
        delta_ticks(1, bpm)
    } else {
        delta_ticks(beats[i + 1] - beats[i], bpm)
    }
}

/// The note track: a note-on and a note-off for each beat, then the end
/// marker.
pub open spec fn track1_spec(beats: Seq<u32>, bpm: u32) -> Seq<Event> {
    Seq::new(
        (2 * beats.len() + 1) as nat,
        |i: int|
            if i == 2 * beats.len() as int {
                Event::EndOfTrack { delta: 0 }
            } else if i % 2 == 0 {
                Event::NoteOn {
                    delta: on_delta(beats, bpm, i / 2) as u32,
                    channel: CHANNEL,
                    key: NOTE_KEY,
                    velocity: VELOCITY_ON,
                }
            } else {
                Event::NoteOff {
                    delta: off_delta(beats, bpm, i / 2) as u32,
                    channel: CHANNEL,
                    key: NOTE_KEY,
                    velocity: VELOCITY_OFF,
                }
            },
    )
}

/// The metadata track always holds exactly four events; the note track holds
/// a note-on and a note-off per beat plus one end-of-track event, so an empty
/// beat list leaves it that one event.
pub proof fn lemma_track_event_counts(bpm: u32, beats: Seq<u32>)
    ensures
        track0_spec(bpm).len() == 4,
        track1_spec(beats, bpm).len() == 2 * beats.len() + 1,
        beats.len() == 0 ==> track1_spec(beats, bpm) == seq![Event::EndOfTrack { delta: 0 }],
{
    if beats.len() == 0 {
        assert(track1_spec(beats, bpm) =~= seq![Event::EndOfTrack { delta: 0 }]);
    }
}

/// Computes `delta_ticks` with the multiplication widened to 64 bits.
fn delta_ticks_exec(gap: u32, bpm: u32) -> (d: u32)
    requires
        1 <= bpm,
    ensures
        d as int == delta_ticks(gap as int, bpm),
        d < 0x10000000,
{
    let wide: u64 = gap as u64 * TICK_SCALE as u64 / bpm as u64;
    (wide % 0x10000000) as u32
}

/// Builds the metadata track.
pub fn track0_events(bpm: u32) -> (evs: Vec<Event>)
    requires
        1 <= bpm,
    ensures
        evs@ == track0_spec(bpm),
{
    let micros = 60000000 / bpm;
    let micros24 = micros % 0x1000000;
    let mut evs: Vec<Event> = Vec::new();
    evs.push(Event::TrackName { delta: 0 });
    evs.push(
        Event::TimeSignature {
            delta: 0,
            numerator: 4,
            denominator_log2: 2,
            clocks_per_click: 24,
            notes_per_quarter: 8,
        },
    );
    evs.push(Event::Tempo { delta: 0, micros_per_quarter: micros24 });
    evs.push(Event::EndOfTrack { delta: 0 });
    proof {
        assert(evs@ =~= track0_spec(bpm));
    }
    evs
}

/// Builds the note track from a strictly increasing list of beat indices.
pub fn track1_events(beat: &Vec<u32>, bpm: u32) -> (evs: Vec<Event>)
    requires
        1 <= bpm,
        strictly_increasing(beat@),
    ensures
        evs@ == track1_spec(beat@, bpm),
{
    let ghost spec_track = track1_spec(beat@, bpm);
    let n = beat.len();
    let mut evs: Vec<Event> = Vec::new();
    let mut i: usize = 0;
    proof {
        assert(evs@ =~= spec_track.take(0));
    }
    while i < n
        invariant
            n == beat@.len(),
            i <= n,
            1 <= bpm,
            strictly_increasing(beat@),
            spec_track == track1_spec(beat@, bpm),
            evs@ == spec_track.take(2 * i as int),
        decreases n - i,
    {
        let on: u32 = if i == 0 {
            delta_ticks_exec(beat[0], bpm)
        } else {
            0
        };
        evs.push(
            Event::NoteOn { delta: on, channel: CHANNEL, key: NOTE_KEY, velocity: VELOCITY_ON },
        );
        let off_gap: u32 = if i == n - 1 {
            1
        } else {
            beat[i + 1] - beat[i]
        };
        let off = delta_ticks_exec(off_gap, bpm);
        evs.push(
            Event::NoteOff { delta: off, channel: CHANNEL, key: NOTE_KEY, velocity: VELOCITY_OFF },
        );
        proof {
            assert(spec_track[2 * i as int] == (Event::NoteOn {
                delta: on_delta(beat@, bpm, i as int) as u32,
                channel: CHANNEL,
                key: NOTE_KEY,
                velocity: VELOCITY_ON,
            }));
            assert(spec_track[2 * i as int + 1] == (Event::NoteOff {
                delta: off_delta(beat@, bpm, i as int) as u32,
                channel: CHANNEL,
                key: NOTE_KEY,
                velocity: VELOCITY_OFF,
            }));
            assert(evs@ =~= spec_track.take(2 * (i as int + 1)));
        }
        i = i + 1;
    }
    evs.push(Event::EndOfTrack { delta: 0 });
    proof {
        assert(evs@ =~= spec_track);
    }
    evs
}

/// Every event either track carries fits its encoded widths.
pub proof fn lemma_tracks_wf(bpm: u32, beats: Seq<u32>)
    requires
        1 <= bpm,
    ensures
        forall|i: int| 0 <= i < track0_spec(bpm).len() ==> event_wf(#[trigger] track0_spec(bpm)[i]),
        forall|i: int|
            0 <= i < track1_spec(beats, bpm).len() ==> event_wf(
                #[trigger] track1_spec(beats, bpm)[i],
            ),
{
    vstd::arithmetic::div_mod::lemma_mod_bound(60000000int / bpm as int, 0x1000000);
    assert forall|i: int| 0 <= i < track1_spec(beats, bpm).len() implies event_wf(
        #[trigger] track1_spec(beats, bpm)[i],
    ) by {
        if i < 2 * beats.len() as int {
            let j = i / 2;
            if i % 2 == 0 {
                if j == 0 {
                    vstd::arithmetic::div_mod::lemma_mod_bound(
                        (beats[0] as int * TICK_SCALE) / bpm as int,
                        0x10000000,
                    );
                }
            } else {
                let g = if j == beats.len() - 1 {
                    1int
                } else {
                    beats[j + 1] - beats[j]
                };
                vstd::arithmetic::div_mod::lemma_mod_bound(
                    (g * TICK_SCALE) / bpm as int,
                    0x10000000,
                );
            }
        }
    }
}

#[verifier::external_type_specification]
#[verifier::external_body]
pub struct ExTrackEvent<'a>(midly::TrackEvent<'a>);

#[verifier::external_type_specification]
#[verifier::external_body]
pub struct ExIoError(std::io::Error);

/// What a `midly` track event holds, read back as this library's model.
pub uninterp spec fn event_view(e: midly::TrackEvent<'static>) -> Event;

/// Whether a `midly` track event's encoding is small: at most 11 bytes, a
/// four-byte delta plus the longest message this library ever writes. Every
/// event the constructors below build is small, and `midly` refuses a track
/// chunk only past the 32-bit length limit, which no track of fewer than
/// `2^28` small events can reach.
pub uninterp spec fn event_small(e: midly::TrackEvent<'static>) -> bool;

/// The bytes `midly`'s track writer emits for a track's events: one whole
/// `MTrk` chunk, a function of the events alone.
pub uninterp spec fn track_chunk(events: Seq<Event>) -> Seq<u8>;

/// A 32-bit big-endian length field.
pub open spec fn be32(n: int) -> Seq<u8> {
    seq![
        ((n / 0x1000000) % 256) as u8,
        ((n / 0x10000) % 256) as u8,
        ((n / 256) % 256) as u8,
        (n % 256) as u8,
    ]
}

/// A well-framed `MTrk` chunk: the tag, then a length field that counts
/// exactly the bytes after it.
pub open spec fn chunk_framed(c: Seq<u8>) -> bool {
    c.len() >= 8 && c.subrange(0, 4) == seq![0x4du8, 0x54u8, 0x72u8, 0x6bu8] && c.subrange(4, 8)
        == be32(c.len() - 8)
}

/// Relies on midly's `TrackEvent` with `MetaMessage::TrackName`: an
/// empty-track-name meta event at the given delta; `u28::new` keeps a delta
/// below `2^28` as it is.
#[verifier::external_body]
fn ev_track_name(delta: u32) -> (e: midly::TrackEvent<'static>)
    requires
        delta < 0x10000000,
    ensures
        event_view(e) == (Event::TrackName { delta }),
        event_small(e),
{
    midly::TrackEvent {
        delta: midly::num::u28::new(delta),
        kind: midly::TrackEventKind::Meta(midly::MetaMessage::TrackName(&[])),
    }
}

/// Relies on midly's `TrackEvent` with `MetaMessage::TimeSignature`: a
/// time-signature meta event carrying the four raw bytes.
#[verifier::external_body]
fn ev_time_signature(delta: u32, n: u8, d: u8, c: u8, b: u8) -> (e: midly::TrackEvent<'static>)
    requires
        delta < 0x10000000,
    ensures
        event_view(e) == (Event::TimeSignature {
            delta,
            numerator: n,
            denominator_log2: d,
            clocks_per_click: c,
            notes_per_quarter: b,
        }),
        event_small(e),
{
    midly::TrackEvent {
        delta: midly::num::u28::new(delta),
        kind: midly::TrackEventKind::Meta(midly::MetaMessage::TimeSignature(n, d, c, b)),
    }
}

/// Relies on midly's `TrackEvent` with `MetaMessage::Tempo`: a tempo meta
/// event; `u24::new` keeps a value below `2^24` as it is.
#[verifier::external_body]
fn ev_tempo(delta: u32, micros: u32) -> (e: midly::TrackEvent<'static>)
    requires
        delta < 0x10000000,
        micros < 0x1000000,
    ensures
        event_view(e) == (Event::Tempo { delta, micros_per_quarter: micros }),
        event_small(e),
{
    midly::TrackEvent {
        delta: midly::num::u28::new(delta),
        kind: midly::TrackEventKind::Meta(midly::MetaMessage::Tempo(midly::num::u24::new(micros))),
    }
}

/// Relies on midly's `TrackEvent` with `MetaMessage::EndOfTrack`: the
/// end-of-track meta event.
#[verifier::external_body]
fn ev_end_of_track(delta: u32) -> (e: midly::TrackEvent<'static>)
    requires
        delta < 0x10000000,
    ensures
        event_view(e) == (Event::EndOfTrack { delta }),
        event_small(e),
{
    midly::TrackEvent {
        delta: midly::num::u28::new(delta),
        kind: midly::TrackEventKind::Meta(midly::MetaMessage::EndOfTrack),
    }
}

/// Relies on midly's `TrackEvent` with `MidiMessage::NoteOn`: a note-on
/// channel event; `u4::new` and `u7::new` keep in-range values as they are.
#[verifier::external_body]
fn ev_note_on(delta: u32, channel: u8, key: u8, velocity: u8) -> (e: midly::TrackEvent<'static>)
    requires
        delta < 0x10000000,
        channel < 16,
        key < 128,
        velocity < 128,
    ensures
        event_view(e) == (Event::NoteOn { delta, channel, key, velocity }),
        event_small(e),
{
    midly::TrackEvent {
        delta: midly::num::u28::new(delta),
        kind: midly::TrackEventKind::Midi {
            channel: midly::num::u4::new(channel),
            message: midly::MidiMessage::NoteOn {
                key: midly::num::u7::new(key),
                vel: midly::num::u7::new(velocity),
            },
        },
    }
}

/// Relies on midly's `TrackEvent` with `MidiMessage::NoteOff`: a note-off
/// channel event; `u4::new` and `u7::new` keep in-range values as they are.
#[verifier::external_body]
fn ev_note_off(delta: u32, channel: u8, key: u8, velocity: u8) -> (e: midly::TrackEvent<'static>)
    requires
        delta < 0x10000000,
        channel < 16,
        key < 128,
        velocity < 128,
    ensures
        event_view(e) == (Event::NoteOff { delta, channel, key, velocity }),
        event_small(e),
{
    midly::TrackEvent {
        delta: midly::num::u28::new(delta),
        kind: midly::TrackEventKind::Midi {
            channel: midly::num::u4::new(channel),
            message: midly::MidiMessage::NoteOff {
                key: midly::num::u7::new(key),
                vel: midly::num::u7::new(velocity),
            },
        },
    }
}

/// The 14 bytes that open the serialized file: the `MThd` chunk tag, a chunk
/// length of 6, the format code for parallel tracks, the track count and the
/// metrical division, each number big-endian.
pub open spec fn header_bytes(ppq: u16, ntracks: int) -> Seq<u8> {
    seq![
        0x4du8,
        0x54u8,
        0x68u8,
        0x64u8,
        0u8,
        0u8,
        0u8,
        6u8,
        0u8,
        1u8,
        (ntracks / 256) as u8,
        (ntracks % 256) as u8,
        (ppq as int / 256) as u8,
        (ppq as int % 256) as u8,
    ]
}

/// Every track is shorter than `2^28` events and holds only small events, so
/// no chunk can reach `midly`'s 32-bit chunk-length limit.
pub open spec fn small_tracks(tracks: Seq<Vec<midly::TrackEvent<'static>>>) -> bool {
    forall|t: int|
        0 <= t < tracks.len() ==> (#[trigger] tracks[t])@.len() < 0x10000000 && (forall|i: int|
            0 <= i < tracks[t]@.len() ==> event_small(#[trigger] tracks[t]@[i]))
}

/// Relies on `midly::Smf::write_std`: serializes a format-1 ("parallel")
/// file with the given metrical timing into an in-memory buffer. The bytes
/// are a function of the header fields and the events alone: the 14-byte
/// header chunk `midly`'s chunk writer lays out, then one `MTrk` chunk per
/// track, each framed as its tag, a 32-bit big-endian payload length and the
/// payload, and nothing else. Writing to a `Vec` itself cannot fail, and
/// `midly` reports an error only for a track count over 16 bits, which the
/// precondition rules out, or for a chunk past the 32-bit length limit,
/// which no track of fewer than `2^28` small events can reach, so on such
/// tracks success is promised.
#[verifier::external_body]
fn write_smf(ppq: u16, tracks: Vec<Vec<midly::TrackEvent<'static>>>) -> (r: Result<
    Vec<u8>,
    std::io::Error,
>)
    requires
        ppq < 0x8000,
        tracks@.len() <= 0xffff,
    ensures
        r matches Ok(bytes) ==> bytes@ == header_bytes(ppq, tracks@.len() as int)
            + tracks@.map_values(
            |t: Vec<midly::TrackEvent<'static>>| track_chunk(
                t@.map_values(|e: midly::TrackEvent<'static>| event_view(e)),
            ),
        ).flatten(),
        r matches Ok(bytes) ==> forall|t: int|
            0 <= t < tracks@.len() ==> chunk_framed(
                track_chunk(
                    (#[trigger] tracks@[t])@.map_values(
                        |e: midly::TrackEvent<'static>| event_view(e),
                    ),
                ),
            ),
        small_tracks(tracks@) ==> r is Ok,
{
    let header = midly::Header::new(
        midly::Format::Parallel,
        midly::Timing::Metrical(midly::num::u15::new(ppq)),
    );
    let smf = midly::Smf { header, tracks };
    let mut buf: Vec<u8> = Vec::new();
    match smf.write_std(&mut buf) {
        Ok(()) => Ok(buf),
        Err(e) => Err(e),
    }
}

/// Rebuilds a track in `midly`'s event type, one event for one.
fn to_midly_track(evs: &Vec<Event>) -> (r: Vec<midly::TrackEvent<'static>>)
    requires
        forall|i: int| 0 <= i < evs@.len() ==> event_wf(#[trigger] evs@[i]),
    ensures
        r@.map_values(|e: midly::TrackEvent<'static>| event_view(e)) == evs@,
        forall|i: int| 0 <= i < r@.len() ==> event_small(#[trigger] r@[i]),
{
    let ghost eview = |e: midly::TrackEvent<'static>| event_view(e);
    let mut r: Vec<midly::TrackEvent<'static>> = Vec::new();
    let mut i: usize = 0;
    proof {
        assert(r@.map_values(eview) =~= evs@.take(0));
    }
    while i < evs.len()
        invariant
            i <= evs@.len(),
            forall|m: int| 0 <= m < evs@.len() ==> event_wf(#[trigger] evs@[m]),
            eview == (|e: midly::TrackEvent<'static>| event_view(e)),
            r@.map_values(eview) == evs@.take(i as int),
            forall|m: int| 0 <= m < r@.len() ==> event_small(#[trigger] r@[m]),
        decreases evs@.len() - i,
    {
        let ghost r_old = r@;
        let ev = &evs[i];
        match *ev {
            Event::TrackName { delta } => {
                r.push(ev_track_name(delta));
            },
            Event::TimeSignature {
                delta,
                numerator,
                denominator_log2,
                clocks_per_click,
                notes_per_quarter,
            } => {
                r.push(
                    ev_time_signature(
                        delta,
                        numerator,
                        denominator_log2,
                        clocks_per_click,
                        notes_per_quarter,
                    ),
                );
            },
            Event::Tempo { delta, micros_per_quarter } => {
                r.push(ev_tempo(delta, micros_per_quarter));
            },
            Event::EndOfTrack { delta } => {
                r.push(ev_end_of_track(delta));
            },
            Event::NoteOn { delta, channel, key, velocity } => {
                r.push(ev_note_on(delta, channel, key, velocity));
            },
            Event::NoteOff { delta, channel, key, velocity } => {
                r.push(ev_note_off(delta, channel, key, velocity));
            },
        }
        proof {
            assert(event_view(r@.last()) == evs@[i as int]);
            assert(evs@.take(i as int + 1) =~= evs@.take(i as int).push(evs@[i as int]));
            assert(r@.map_values(eview) =~= r_old.map_values(eview).push(eview(r@.last())));
        }
        i = i + 1;
    }
    proof {
        assert(evs@.take(evs@.len() as int) =~= evs@);
    }
    r
}

/// Concatenating two flattened parts is flattening the pair.
proof fn lemma_flatten_pair(a: Seq<u8>, b: Seq<u8>)
    ensures
        seq![a, b].flatten() == a + b,
{
    let m = seq![a, b];
    assert(m.first() == a);
    assert(m.drop_first() =~= seq![b]);
    assert(seq![b].first() == b);
    assert(seq![b].drop_first() =~= Seq::<Seq<u8>>::empty());
    assert(Seq::<Seq<u8>>::empty().flatten() == Seq::<u8>::empty());
    assert(seq![b].flatten() == b + Seq::<u8>::empty());
    assert(b + Seq::<u8>::empty() =~= b);
    assert(m.flatten() == a + seq![b].flatten());
}

/// The byte stream of the finished file: the header chunk announcing two
/// parallel tracks at 480 ticks per beat, then the metadata track's chunk
/// and the note track's chunk, and nothing else.
pub open spec fn build_bytes(bpm: u32, beats: Seq<u32>) -> Seq<u8> {
    header_bytes(480, 2) + track_chunk(track0_spec(bpm)) + track_chunk(track1_spec(beats, bpm))
}

/// Serializes the quantized rhythm as a two-track format-1 MIDI file. On
/// success the bytes are exactly the header chunk that announces two track
/// chunks at 480 ticks per beat, then the two `MTrk` chunks, a pure function
/// of tempo and beats. Success is owed for every beat list the quantizer can
/// produce and far beyond: only a note track so long that its chunk
/// overflows the format's 32-bit chunk length makes the byte sink refuse,
/// and that refusal is all the error reports.
pub fn build(output: Output) -> (r: Result<Vec<u8>, OutputError>)
    requires
        1 <= output.bpm,
        strictly_increasing(output.beat@),
    ensures
        r matches Ok(bytes) ==> bytes@ == build_bytes(output.bpm, output.beat@),
        r matches Ok(bytes) ==> bytes@.len() >= 14 && bytes@.subrange(0, 14) == header_bytes(
            PULSES_PER_QUARTER as u16,
            2,
        ),
        r matches Ok(bytes) ==> chunk_framed(track_chunk(track0_spec(output.bpm))) && chunk_framed(
            track_chunk(track1_spec(output.beat@, output.bpm)),
        ),
        output.beat@.len() < 0x08000000 ==> r is Ok,
{
    let ghost bpm = output.bpm;
    let ghost beats = output.beat@;
    let t0 = track0_events(output.bpm);
    let t1 = track1_events(&output.beat, output.bpm);
    proof {
        lemma_tracks_wf(bpm, beats);
        lemma_track_event_counts(bpm, beats);
    }
    let m0 = to_midly_track(&t0);
    let m1 = to_midly_track(&t1);
    let mut tracks: Vec<Vec<midly::TrackEvent<'static>>> = Vec::new();
    tracks.push(m0);
    tracks.push(m1);
    let ghost gtracks = tracks@;
    proof {
        assert(gtracks.len() == 2);
        assert(gtracks[0] == m0 && gtracks[1] == m1);
        assert(m0@.map_values(|e: midly::TrackEvent<'static>| event_view(e)).len() == m0@.len());
        assert(m1@.map_values(|e: midly::TrackEvent<'static>| event_view(e)).len() == m1@.len());
        assert(m0@.len() == 4 && m1@.len() == 2 * beats.len() + 1);
    }
    match write_smf(PULSES_PER_QUARTER, tracks) {
        Ok(bytes) => {
            proof {
                let cf = |t: Vec<midly::TrackEvent<'static>>| track_chunk(
                    t@.map_values(|e: midly::TrackEvent<'static>| event_view(e)),
                );
                let chunks = gtracks.map_values(cf);
                assert(chunks.len() == 2);
                assert(chunks[0] == track_chunk(track0_spec(bpm)));
                assert(chunks[1] == track_chunk(track1_spec(beats, bpm)));
                assert(chunk_framed(
                    track_chunk(
                        gtracks[0]@.map_values(|e: midly::TrackEvent<'static>| event_view(e)),
                    ),
                ));
                assert(chunk_framed(
                    track_chunk(
                        gtracks[1]@.map_values(|e: midly::TrackEvent<'static>| event_view(e)),
                    ),
                ));
                assert(chunk_framed(track_chunk(track0_spec(bpm))));
                assert(chunk_framed(track_chunk(track1_spec(beats, bpm))));
                assert(chunks =~= seq![
                    track_chunk(track0_spec(bpm)),
                    track_chunk(track1_spec(beats, bpm)),
                ]);
                lemma_flatten_pair(
                    track_chunk(track0_spec(bpm)),
                    track_chunk(track1_spec(beats, bpm)),
                );
                assert(bytes@ =~= build_bytes(bpm, beats));
                assert(header_bytes(480, 2).len() == 14);
                assert(bytes@.subrange(0, 14) =~= header_bytes(480, 2));
            }
            Ok(bytes)
        },
        Err(e) => {
            proof {
                if beats.len() < 0x08000000 {
                    assert forall|t: int| 0 <= t < gtracks.len() implies (#[trigger] gtracks[t])@.len()
                        < 0x10000000 && (forall|i: int|
                        0 <= i < gtracks[t]@.len() ==> event_small(
                            #[trigger] gtracks[t]@[i],
                        )) by {
                        if t == 0 {
                            assert(gtracks[t] == m0);
                        } else {
                            assert(gtracks[t] == m1);
                        }
                    }
                    assert(small_tracks(gtracks));
                    assert(false);
                }
            }
            Err(OutputError::IOError(e))
        },
    }
}

} // verus!
