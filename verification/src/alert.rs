use vstd::prelude::*;

use crate::text::{chars_of, text_is};

verus! {

/// Samples per second of the built-in alert.
pub const SAMPLE_RATE: u32 = 44100;

/// The built-in alert lasts two fifths of a second.
pub const ALERT_SAMPLES: u32 = 17640;

/// Where an alert sound comes from, by the `alert_sound` setting.
#[derive(Debug, Clone, Copy, PartialEq, Eq, Structural)]
pub enum AlertSource {
    /// The terminal bell.
    Bell,
    /// The synthesized sting that the shell writes to its state directory.
    BuiltIn,
    /// A sound file at the path the setting names, after variable expansion.
    File,
}

pub open spec fn spec_alert_source(setting: Seq<char>) -> AlertSource {
    if text_is(setting, "bell"@) {
        AlertSource::Bell
    } else if text_is(setting, "metal-gear"@) {
        AlertSource::BuiltIn
    } else {
        AlertSource::File
    }
}

pub fn alert_source(setting: &str) -> (r: AlertSource)
    ensures
        r == spec_alert_source(setting@),
{
    let s = chars_of(setting);
    if crate::text::is_text(s.as_slice(), "bell") {
        AlertSource::Bell
    } else if crate::text::is_text(s.as_slice(), "metal-gear") {
        AlertSource::BuiltIn
    } else {
        AlertSource::File
    }
}

/// The alert after a command, in an interactive shell: the configured sound
/// when the command failed, none when it succeeded or no sound is set.
pub fn alert_after(status: i32, setting: &Option<String>) -> (r: Option<AlertSource>)
    ensures
        match setting {
            Some(s) => if status != 0 {
                r == Some(spec_alert_source(s@))
            } else {
                r is None
            },
            None => r is None,
        },
{
    match setting {
        Some(s) => if status != 0 {
            Some(alert_source(s.as_str()))
        } else {
            None
        },
        None => None,
    }
}

/// `v` in two bytes, least significant first.
pub open spec fn le16(v: nat) -> Seq<u8> {
    seq![(v % 256) as u8, (v / 256 % 256) as u8]
}

/// `v` in four bytes, least significant first.
pub open spec fn le32(v: nat) -> Seq<u8> {
    seq![(v % 256) as u8, (v / 256 % 256) as u8, (v / 65536 % 256) as u8, (v / 16777216 % 256) as u8]
}

/// The bytes of an ASCII text.
pub open spec fn ascii_bytes(s: Seq<char>) -> Seq<u8> {
    Seq::new(s.len(), |i: int| s[i] as u8)
}

/// The 44-byte header of a mono, 16-bit PCM WAV file of `count` samples at `SAMPLE_RATE`.
pub open spec fn wav_header(count: nat) -> Seq<u8> {
    ascii_bytes("RIFF"@) + le32(36 + 2 * count) + ascii_bytes("WAVE"@) + ascii_bytes("fmt "@)
        + le32(16) + le16(1) + le16(1) + le32(SAMPLE_RATE as nat) + le32(2 * SAMPLE_RATE as nat)
        + le16(2) + le16(16) + ascii_bytes("data"@) + le32(2 * count)
}

/// The samples, each in two bytes of two's complement, least significant first.
pub open spec fn sample_bytes(samples: Seq<i16>) -> Seq<u8>
    decreases samples.len(),
{
    if samples.len() == 0 {
        Seq::empty()
    } else {
        sample_bytes(samples.drop_last()) + le16(
            (if samples.last() < 0 {
                samples.last() + 65536
            } else {
                samples.last() as int
            }) as nat,
        )
    }
}

fn push_le(bytes: &mut Vec<u8>, v: u32, width: usize)
    requires
        width == 2 || width == 4,
        width == 2 ==> v < 65536,
    ensures
        final(bytes)@ == old(bytes)@ + (if width == 2 {
            le16(v as nat)
        } else {
            le32(v as nat)
        }),
{
    bytes.push((v % 256) as u8);
    bytes.push((v / 256 % 256) as u8);
    if width == 4 {
        bytes.push((v / 65536 % 256) as u8);
        bytes.push((v / 16777216 % 256) as u8);
    }
    assert(bytes@ =~= old(bytes)@ + (if width == 2 {
        le16(v as nat)
    } else {
        le32(v as nat)
    }));
}

fn push_text(bytes: &mut Vec<u8>, text: &str)
    requires
        text@.len() == 4,
        forall|i: int| 0 <= i < 4 ==> (#[trigger] text@[i] as u32) < 128,
    ensures
        final(bytes)@ == old(bytes)@ + ascii_bytes(text@),
{
    let chars = chars_of(text);
    let mut i: usize = 0;
    while i < 4
        invariant
            i <= 4,
            chars@ == text@,
            text@.len() == 4,
            bytes@ == old(bytes)@ + ascii_bytes(text@.take(i as int)),
        decreases 4 - i,
    {
        bytes.push(chars[i] as u8);
        i += 1;
        assert(bytes@ =~= old(bytes)@ + ascii_bytes(text@.take(i as int)));
    }
    assert(text@.take(4) =~= text@);
}

/// A complete WAV file holding the samples: the header, then the sample data.
pub fn wav_file(samples: &Vec<i16>) -> (r: Vec<u8>)
    requires
        36 + 2 * samples@.len() <= u32::MAX,
    ensures
        r@ == wav_header(samples@.len()) + sample_bytes(samples@),
{
    let count = samples.len() as u32;
    let mut bytes: Vec<u8> = Vec::new();
    proof {
        reveal_strlit("RIFF");
        reveal_strlit("data");
    }
    push_text(&mut bytes, "RIFF");
    push_le(&mut bytes, 36 + 2 * count, 4);
    proof {
        reveal_strlit("WAVE");
        reveal_strlit("fmt ");
    }
    push_text(&mut bytes, "WAVE");
    push_text(&mut bytes, "fmt ");
    push_le(&mut bytes, 16, 4);
    push_le(&mut bytes, 1, 2);
    push_le(&mut bytes, 1, 2);
    push_le(&mut bytes, SAMPLE_RATE, 4);
    push_le(&mut bytes, SAMPLE_RATE * 2, 4);
    push_le(&mut bytes, 2, 2);
    push_le(&mut bytes, 16, 2);
    push_text(&mut bytes, "data");
    push_le(&mut bytes, 2 * count, 4);
    assert(bytes@ =~= wav_header(samples@.len()));
    let ghost header = bytes@;
    let mut i: usize = 0;
    while i < samples.len()
        invariant
            i <= samples@.len(),
            bytes@ == header + sample_bytes(samples@.take(i as int)),
        decreases samples@.len() - i,
    {
        let s = samples[i];
        let v: u32 = if s < 0 {
            (s as i32 + 65536) as u32
        } else {
            s as u32
        };
        push_le(&mut bytes, v, 2);
        assert(samples@.take(i + 1).drop_last() =~= samples@.take(i as int));
        i += 1;
        assert(bytes@ =~= header + sample_bytes(samples@.take(i as int)));
    }
    assert(samples@.take(samples@.len() as int) =~= samples@);
    bytes
}

} // verus!
