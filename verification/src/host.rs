//! Events as the host takes them: channels count from zero, and a rest is
//! nothing at all.
use vstd::prelude::*;
use crate::playback::channel_of;
use crate::precise::{NoteType, PreciseEventType, VoiceID};

verus! {

/// An event for the host. Channels count from 0 to 15; velocities and
/// controller values count hundredths of full scale.
#[derive(Clone, Copy, Debug, PartialEq, Eq)]
pub enum HostEvent {
    NoteOn { timing: u32, voice_id: Option<VoiceID>, channel: u8, note: u8, velocity: u8 },
    NoteOff { timing: u32, voice_id: Option<VoiceID>, channel: u8, note: u8, velocity: u8 },
    MidiCC { timing: u32, channel: u8, cc: u8, value: u8 },
    VoiceTerminated { timing: u32, voice_id: Option<VoiceID>, channel: u8, note: u8 },
}

/// What the host is told of an event: the event with its channel counted from
/// zero; nothing for the placeholder of a rest. A note-off carries no velocity.
pub open spec fn host_event(e: PreciseEventType) -> Option<HostEvent> {
    match e {
        PreciseEventType::Note(n) => match n.note_type {
            NoteType::On => Some(
                HostEvent::NoteOn {
                    timing: n.timing,
                    voice_id: n.voice_id,
                    channel: (n.channel - 1) as u8,
                    note: n.note,
                    velocity: n.velocity,
                },
            ),
            NoteType::Off => Some(
                HostEvent::NoteOff {
                    timing: n.timing,
                    voice_id: n.voice_id,
                    channel: (n.channel - 1) as u8,
                    note: n.note,
                    velocity: 0,
                },
            ),
            NoteType::Rest => None,
        },
        PreciseEventType::Ctrl(c) => Some(
            HostEvent::MidiCC {
                timing: c.timing,
                channel: (c.channel - 1) as u8,
                cc: c.cc,
                value: c.value,
            },
        ),
        PreciseEventType::VoiceTerminated(v) => Some(
            HostEvent::VoiceTerminated {
                timing: v.timing,
                voice_id: v.voice_id,
                channel: (v.channel - 1) as u8,
                note: v.note,
            },
        ),
    }
}

/// Turns an event of the core into one for the host.
pub fn to_host_event(pevt: PreciseEventType) -> (r: Option<HostEvent>)
    requires
        channel_of(pevt) >= 1,
    ensures
        r == host_event(pevt),
{
    match pevt {
        PreciseEventType::Note(nev) => match nev.note_type {
            NoteType::On => Some(
                HostEvent::NoteOn {
                    timing: nev.timing,
                    voice_id: nev.voice_id,
                    channel: nev.channel - 1,
                    note: nev.note,
                    velocity: nev.velocity,
                },
            ),
            NoteType::Off => Some(
                HostEvent::NoteOff {
                    timing: nev.timing,
                    voice_id: nev.voice_id,
                    channel: nev.channel - 1,
                    note: nev.note,
                    velocity: 0,
                },
            ),
            NoteType::Rest => None,
        },
        PreciseEventType::Ctrl(cev) => Some(
            HostEvent::MidiCC {
                timing: cev.timing,
                channel: cev.channel - 1,
                cc: cev.cc,
                value: cev.value,
            },
        ),
        PreciseEventType::VoiceTerminated(vt) => Some(
            HostEvent::VoiceTerminated {
                timing: vt.timing,
                voice_id: vt.voice_id,
                channel: vt.channel - 1,
                note: vt.note,
            },
        ),
    }
}

} // verus!
