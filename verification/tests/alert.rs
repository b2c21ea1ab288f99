use nshell::alert::alert_after;
use nshell::alert::{alert_source, wav_file, AlertSource, ALERT_SAMPLES, SAMPLE_RATE};

/// Samples of the alert's length and rate. The program computes the real
/// sting with floating point, which the library leaves to it; the WAV framing
/// checked here is the library's, and does not depend on the sample values.
fn sting() -> Vec<i16> {
    (0..ALERT_SAMPLES)
        .map(|index| {
            let time = index as f32 / SAMPLE_RATE as f32;
            ((time * 1_280.0 * std::f32::consts::TAU).sin() * 0.4 * i16::MAX as f32) as i16
        })
        .collect()
}

#[test]
fn synthesized_alert_is_a_complete_pcm_wav() {
    let wav = wav_file(&sting());
    assert_eq!(&wav[..4], b"RIFF");
    assert_eq!(&wav[8..12], b"WAVE");
    assert_eq!(&wav[36..40], b"data");
    assert_eq!(wav.len(), 44 + (SAMPLE_RATE * 2 / 5 * 2) as usize);
}

#[test]
fn wav_header_records_sizes_and_format() {
    let wav = wav_file(&vec![1, -1]);
    assert_eq!(&wav[4..8], &(36u32 + 4).to_le_bytes());
    assert_eq!(&wav[12..16], b"fmt ");
    assert_eq!(&wav[24..28], &SAMPLE_RATE.to_le_bytes());
    assert_eq!(&wav[40..44], &4u32.to_le_bytes());
    assert_eq!(&wav[44..], &[1, 0, 0xff, 0xff]);
}

#[test]
fn alert_settings_choose_their_source() {
    assert_eq!(alert_source("bell"), AlertSource::Bell);
    assert_eq!(alert_source("metal-gear"), AlertSource::BuiltIn);
    assert_eq!(alert_source("~/sounds/ding.wav"), AlertSource::File);
}

#[test]
fn alerts_follow_failures_only() {
    assert_eq!(alert_after(1, &Some("bell".to_string())), Some(AlertSource::Bell));
    assert_eq!(alert_after(0, &Some("bell".to_string())), None);
    assert_eq!(alert_after(1, &None), None);
}
