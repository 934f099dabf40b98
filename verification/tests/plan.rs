//! What to send to a device.

use open_bar::plan::{
    dsd_pcm_candidates, dsd_pcm_rate, plan, DeviceCaps, DsdSupport, OutputPlan, PlayOptions, SourceKind,
};

fn caps(dsd: DsdSupport, max_rate: u32) -> DeviceCaps {
    DeviceCaps { max_pcm_rate_hz: max_rate, max_bits: 32, exclusive_mode: true, dsd, mqa_decoder: false }
}

const BP: PlayOptions = PlayOptions { bit_perfect: true };

#[test]
fn dsd_is_sent_as_is_when_the_hardware_supports_it() {
    assert_eq!(
        plan(SourceKind::Dsd { rate_hz: 11_289_600 }, caps(DsdSupport::Native, 384_000), BP),
        OutputPlan::DsdNative { rate_hz: 11_289_600 }
    );
    assert_eq!(
        plan(SourceKind::Dsd { rate_hz: 11_289_600 }, caps(DsdSupport::Dop, 768_000), BP),
        OutputPlan::DsdDop { pcm_rate_hz: 705_600 }
    );
}

#[test]
fn dsd_falls_back_to_pcm_automatically_when_unsupported_or_too_fast_for_dop() {
    assert_eq!(
        plan(SourceKind::Dsd { rate_hz: 2_822_400 }, caps(DsdSupport::PcmOnly, 192_000), BP),
        OutputPlan::DsdToPcm { pcm_rate_hz: 176_400 }
    );
    assert_eq!(
        plan(SourceKind::Dsd { rate_hz: 11_289_600 }, caps(DsdSupport::Dop, 384_000), BP),
        OutputPlan::DsdToPcm { pcm_rate_hz: 352_800 }
    );
    let shared = DeviceCaps { exclusive_mode: false, ..caps(DsdSupport::Dop, 768_000) };
    assert_eq!(
        plan(SourceKind::Dsd { rate_hz: 2_822_400 }, shared, BP),
        OutputPlan::DsdToPcm { pcm_rate_hz: 352_800 }
    );
    assert!(matches!(
        plan(
            SourceKind::Dsd { rate_hz: 2_822_400 },
            caps(DsdSupport::Dop, 768_000),
            PlayOptions { bit_perfect: false }
        ),
        OutputPlan::DsdToPcm { .. }
    ));
}

#[test]
fn dsd_pcm_candidates_are_byte_aligned_44k_multiples() {
    assert_eq!(dsd_pcm_candidates(2_822_400), vec![352_800, 176_400, 88_200, 44_100]);
    assert_eq!(
        dsd_pcm_candidates(11_289_600),
        vec![1_411_200, 705_600, 352_800, 176_400, 88_200, 44_100]
    );
}

#[test]
fn mqa_beyond_the_limits_of_the_device_is_played_as_pcm() {
    let dac = DeviceCaps { mqa_decoder: true, max_bits: 24, ..caps(DsdSupport::PcmOnly, 48_000) };
    let reason = "機器の上限を超えるためビットパーフェクトを保てません";
    assert_eq!(
        plan(SourceKind::Mqa { rate_hz: 96_000, bits: 24 }, dac, BP),
        OutputPlan::MqaAsPlainPcm { rate_hz: 48_000, bits: 24, reason }
    );
    assert_eq!(
        plan(SourceKind::Mqa { rate_hz: 48_000, bits: 32 }, dac, BP),
        OutputPlan::MqaAsPlainPcm { rate_hz: 48_000, bits: 24, reason }
    );
    assert_eq!(
        plan(SourceKind::Mqa { rate_hz: 48_000, bits: 24 }, dac, BP),
        OutputPlan::MqaPassthrough { rate_hz: 48_000, bits: 24 }
    );
}

#[test]
fn mqa_is_passed_through_only_with_a_capable_dac_and_bit_perfect_path() {
    let dac = DeviceCaps { mqa_decoder: true, ..caps(DsdSupport::PcmOnly, 384_000) };
    assert_eq!(
        plan(SourceKind::Mqa { rate_hz: 44_100, bits: 24 }, dac, BP),
        OutputPlan::MqaPassthrough { rate_hz: 44_100, bits: 24 }
    );
    assert!(matches!(
        plan(SourceKind::Mqa { rate_hz: 44_100, bits: 24 }, caps(DsdSupport::PcmOnly, 384_000), BP),
        OutputPlan::MqaAsPlainPcm { .. }
    ));
    assert!(matches!(
        plan(SourceKind::Mqa { rate_hz: 44_100, bits: 24 }, dac, PlayOptions { bit_perfect: false }),
        OutputPlan::MqaAsPlainPcm { .. }
    ));
}

#[test]
fn pcm_is_reduced_within_the_same_rate_family_only_when_needed() {
    let c = DeviceCaps { max_bits: 24, ..caps(DsdSupport::PcmOnly, 192_000) };
    assert_eq!(
        plan(SourceKind::Pcm { rate_hz: 384_000, bits: 32 }, c, BP),
        OutputPlan::Pcm { rate_hz: 192_000, bits: 24, resampled: true, bit_depth_reduced: true }
    );
    assert_eq!(
        plan(SourceKind::Pcm { rate_hz: 352_800, bits: 24 }, c, BP),
        OutputPlan::Pcm { rate_hz: 176_400, bits: 24, resampled: true, bit_depth_reduced: false }
    );
    assert_eq!(
        plan(SourceKind::Pcm { rate_hz: 44_100, bits: 16 }, c, BP),
        OutputPlan::Pcm { rate_hz: 44_100, bits: 16, resampled: false, bit_depth_reduced: false }
    );
}

#[test]
fn each_reason_for_plain_mqa_is_told() {
    let none = caps(DsdSupport::PcmOnly, 384_000);
    let dac = DeviceCaps { mqa_decoder: true, ..none };
    let shared = DeviceCaps { exclusive_mode: false, ..dac };
    let reason = |c: DeviceCaps, o: PlayOptions| match plan(SourceKind::Mqa { rate_hz: 44_100, bits: 24 }, c, o) {
        OutputPlan::MqaAsPlainPcm { rate_hz, bits, reason } => {
            assert_eq!((rate_hz, bits), (44_100, 24));
            reason
        }
        other => panic!("{:?}", other),
    };
    assert_eq!(reason(none, BP), "MQAデコーダ対応の機器ではありません");
    assert_eq!(reason(shared, BP), "排他モードで開けないためビットパーフェクトを保てません");
    assert_eq!(
        reason(dac, PlayOptions { bit_perfect: false }),
        "ビットパーフェクト(DSP無し)が指定されていません"
    );
}

#[test]
fn what_cannot_be_brought_down_is_unplayable() {
    let c = caps(DsdSupport::PcmOnly, 40_000);
    assert_eq!(
        plan(SourceKind::Dsd { rate_hz: 2_822_400 }, c, BP),
        OutputPlan::Unplayable { reason: "この機器の最大PCMレート40000HzではDSDをPCM化できません".to_string() }
    );
    assert_eq!(
        plan(SourceKind::Pcm { rate_hz: 44_101, bits: 16 }, c, BP),
        OutputPlan::Unplayable { reason: "44101Hzをこの機器の最大40000Hz以下にできません".to_string() }
    );
    assert_eq!(
        plan(SourceKind::Mqa { rate_hz: 44_101, bits: 16 }, c, BP),
        OutputPlan::Unplayable { reason: "44101Hzをこの機器の最大40000Hz以下にできません".to_string() }
    );
}

#[test]
fn dsd_is_converted_to_the_target_or_to_what_most_devices_take() {
    assert_eq!(dsd_pcm_rate(11_289_600, Some(352_800)), 352_800);
    assert_eq!(dsd_pcm_rate(11_289_600, Some(96_000)), 176_400);
    assert_eq!(dsd_pcm_rate(11_289_600, None), 176_400);
    assert_eq!(dsd_pcm_rate(2_822_400, None), 176_400);
    assert_eq!(dsd_pcm_rate(100_000, None), 44_100);
}

#[test]
fn plans_stay_within_the_limits_of_the_device() {
    let c = DeviceCaps { max_bits: 20, ..caps(DsdSupport::Dop, 100_000) };
    assert_eq!(
        plan(SourceKind::Dsd { rate_hz: 2_822_400 }, c, BP),
        OutputPlan::DsdToPcm { pcm_rate_hz: 88_200 }
    );
    assert_eq!(
        plan(SourceKind::Pcm { rate_hz: 176_400, bits: 24 }, c, BP),
        OutputPlan::Pcm { rate_hz: 88_200, bits: 20, resampled: true, bit_depth_reduced: true }
    );
}
