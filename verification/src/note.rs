//! Tones as plain values: an instrument and a key, and the note a key sounds
//! in Minecraft, read through `rsnbs`.

use vstd::prelude::*;

verus! {

/// Mob head sounds.
#[derive(Clone, Copy, Debug, PartialEq, Eq, Structural)]
pub enum ImitateInstrument {
    Creeper,
    Skeleton,
    Dragon,
    WitherSkeleton,
    Piglin,
    Zombie,
    CustomHead,
}

/// Note block instruments.
#[derive(Clone, Copy, Debug, PartialEq, Eq, Structural)]
pub enum Instrument {
    Harp,
    DoubleBass,
    BassDrum,
    SnareDrum,
    Click,
    Guitar,
    Flute,
    Bell,
    Chime,
    Xylophone,
    IronXylophone,
    CowBell,
    Didgeridoo,
    Bit,
    Banjo,
    Pling,
    Trumpet,
    TrumpetExposed,
    TrumpetWeathered,
    TrumpetOxidized,
    /// A mob head sound.
    Imitate(ImitateInstrument),
    /// The custom instrument at the given slot.
    Custom(u8),
}

/// A tone: an instrument and a raw NBS key (`33` is F#3).
#[derive(Clone, Copy, Debug, PartialEq, Eq, Structural)]
pub struct Tone {
    pub instrument: Instrument,
    pub key: u8,
}

/// The Minecraft note (0-24, F#3-F#5) of a raw NBS key, if it has one.
pub open spec fn minecraft_note_spec(key: u8) -> Option<u8> {
    if 33 <= key && key <= 57 {
        Some((key - 33) as u8)
    } else {
        None
    }
}

/// `rsnbs::note::Key::minecraft_note`: the key less 33, when that is within 0..=24.
#[verifier::external_body]
pub fn minecraft_note(key: u8) -> (r: Option<u8>)
    ensures
        r == minecraft_note_spec(key),
{
    rsnbs::note::Key::new(key).minecraft_note()
}

impl ImitateInstrument {
    pub open spec fn index_spec(self) -> nat {
        match self {
            ImitateInstrument::Creeper => 0,
            ImitateInstrument::Skeleton => 1,
            ImitateInstrument::Dragon => 2,
            ImitateInstrument::WitherSkeleton => 3,
            ImitateInstrument::Piglin => 4,
            ImitateInstrument::Zombie => 5,
            ImitateInstrument::CustomHead => 6,
        }
    }
}

impl Instrument {
    /// The position of the instrument in the instruments' order.
    pub open spec fn code_spec(self) -> nat {
        match self {
            Instrument::Harp => 0,
            Instrument::DoubleBass => 1,
            Instrument::BassDrum => 2,
            Instrument::SnareDrum => 3,
            Instrument::Click => 4,
            Instrument::Guitar => 5,
            Instrument::Flute => 6,
            Instrument::Bell => 7,
            Instrument::Chime => 8,
            Instrument::Xylophone => 9,
            Instrument::IronXylophone => 10,
            Instrument::CowBell => 11,
            Instrument::Didgeridoo => 12,
            Instrument::Bit => 13,
            Instrument::Banjo => 14,
            Instrument::Pling => 15,
            Instrument::Trumpet => 16,
            Instrument::TrumpetExposed => 17,
            Instrument::TrumpetWeathered => 18,
            Instrument::TrumpetOxidized => 19,
            Instrument::Imitate(i) => 20 + i.index_spec(),
            Instrument::Custom(c) => 27 + c as nat,
        }
    }
}

impl Tone {
    /// The event that stands for this tone on the plane's event axis.
    pub open spec fn event_spec(self) -> nat {
        self.instrument.code_spec() * 256 + self.key as nat
    }

    /// The event that stands for this tone on the plane's event axis; events
    /// are ordered as tones are (by instrument, then by key).
    pub fn event(&self) -> (r: u32)
        ensures
            r == self.event_spec(),
    {
        let code: u32 = match self.instrument {
            Instrument::Harp => 0,
            Instrument::DoubleBass => 1,
            Instrument::BassDrum => 2,
            Instrument::SnareDrum => 3,
            Instrument::Click => 4,
            Instrument::Guitar => 5,
            Instrument::Flute => 6,
            Instrument::Bell => 7,
            Instrument::Chime => 8,
            Instrument::Xylophone => 9,
            Instrument::IronXylophone => 10,
            Instrument::CowBell => 11,
            Instrument::Didgeridoo => 12,
            Instrument::Bit => 13,
            Instrument::Banjo => 14,
            Instrument::Pling => 15,
            Instrument::Trumpet => 16,
            Instrument::TrumpetExposed => 17,
            Instrument::TrumpetWeathered => 18,
            Instrument::TrumpetOxidized => 19,
            Instrument::Imitate(i) => 20 + match i {
                ImitateInstrument::Creeper => 0,
                ImitateInstrument::Skeleton => 1,
                ImitateInstrument::Dragon => 2,
                ImitateInstrument::WitherSkeleton => 3,
                ImitateInstrument::Piglin => 4,
                ImitateInstrument::Zombie => 5,
                ImitateInstrument::CustomHead => 6,
            },
            Instrument::Custom(c) => 27 + c as u32,
        };
        code * 256 + self.key as u32
    }

    /// The tone that an event stands for, if any.
    pub fn from_event(event: u32) -> (r: Option<Tone>)
        ensures
            r matches Some(t) ==> t.event_spec() == event,
            (exists|t: Tone| t.event_spec() == event) ==> r is Some,
    {
        let key = (event % 256) as u8;
        let code = event / 256;
        let instrument = if code < 20 {
            match code {
                0 => Instrument::Harp,
                1 => Instrument::DoubleBass,
                2 => Instrument::BassDrum,
                3 => Instrument::SnareDrum,
                4 => Instrument::Click,
                5 => Instrument::Guitar,
                6 => Instrument::Flute,
                7 => Instrument::Bell,
                8 => Instrument::Chime,
                9 => Instrument::Xylophone,
                10 => Instrument::IronXylophone,
                11 => Instrument::CowBell,
                12 => Instrument::Didgeridoo,
                13 => Instrument::Bit,
                14 => Instrument::Banjo,
                15 => Instrument::Pling,
                16 => Instrument::Trumpet,
                17 => Instrument::TrumpetExposed,
                18 => Instrument::TrumpetWeathered,
                _ => Instrument::TrumpetOxidized,
            }
        } else if code < 27 {
            Instrument::Imitate(
                match code {
                    20 => ImitateInstrument::Creeper,
                    21 => ImitateInstrument::Skeleton,
                    22 => ImitateInstrument::Dragon,
                    23 => ImitateInstrument::WitherSkeleton,
                    24 => ImitateInstrument::Piglin,
                    25 => ImitateInstrument::Zombie,
                    _ => ImitateInstrument::CustomHead,
                },
            )
        } else if code < 27 + 256 {
            Instrument::Custom((code - 27) as u8)
        } else {
            proof {
                assert forall|t: Tone| t.event_spec() != event by {
                    assert(t.instrument.code_spec() < 27 + 256);
                }
            }
            return None;
        };
        let t = Tone { instrument, key };
        proof {
            assert(event == code * 256 + event % 256);
        }
        Some(t)
    }
}

/// Distinct tones stand for distinct events, and the tone comes back from its event.
pub proof fn lemma_event_round_trip(t: Tone, u: Tone)
    ensures
        t.instrument.code_spec() < 27 + 256,
        (t.event_spec() == u.event_spec()) == (t == u),
{
    assert(t.instrument.code_spec() < 27 + 256);
    assert(u.instrument.code_spec() < 27 + 256);
}

/// Events are ordered as tones are: by instrument, then by key.
pub proof fn lemma_event_order(t: Tone, u: Tone)
    ensures
        (t.event_spec() < u.event_spec()) == (t.instrument.code_spec() < u.instrument.code_spec()
            || (t.instrument.code_spec() == u.instrument.code_spec() && t.key < u.key)),
{
}

} // verus!
