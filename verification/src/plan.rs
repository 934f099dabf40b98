//! What to send to a device, given what it can do: DSD as it is where the device takes it, converted to
//! PCM by itself where it does not; MQA untouched only for a device that unfolds it over a bit-perfect
//! path, and as ordinary PCM otherwise.

use vstd::prelude::*;
use crate::text::{decimal, push_decimal};

verus! {

/// How a device takes DSD.
#[derive(Debug, Clone, Copy, PartialEq, Eq, Structural)]
pub enum DsdSupport {
    /// Not at all.
    PcmOnly,
    /// As DSD over PCM.
    Dop,
    /// As it is.
    Native,
}

/// What a device can do.
#[derive(Debug, Clone, Copy, PartialEq, Eq, Structural)]
pub struct DeviceCaps {
    pub max_pcm_rate_hz: u32,
    pub max_bits: u32,
    /// The device can be had without the mixer of the system. DoP and MQA need that.
    pub exclusive_mode: bool,
    pub dsd: DsdSupport,
    /// The device unfolds MQA.
    pub mqa_decoder: bool,
}

/// What is to be played.
#[derive(Debug, Clone, Copy, PartialEq, Eq, Structural)]
pub enum SourceKind {
    Pcm { rate_hz: u32, bits: u32 },
    Dsd { rate_hz: u32 },
    Mqa { rate_hz: u32, bits: u32 },
}

#[derive(Debug, Clone, Copy, PartialEq, Eq, Structural)]
pub struct PlayOptions {
    /// No volume, no equaliser, no conversion.
    pub bit_perfect: bool,
}

/// What to send.
#[derive(Debug, Clone, PartialEq)]
pub enum OutputPlan {
    Pcm { rate_hz: u32, bits: u32, resampled: bool, bit_depth_reduced: bool },
    DsdNative { rate_hz: u32 },
    DsdDop { pcm_rate_hz: u32 },
    /// DSD converted to PCM, for a device that does not take DSD.
    DsdToPcm { pcm_rate_hz: u32 },
    /// MQA untouched, to be unfolded by the device.
    MqaPassthrough { rate_hz: u32, bits: u32 },
    /// MQA as ordinary PCM, not unfolded, and why.
    MqaAsPlainPcm { rate_hz: u32, bits: u32, reason: &'static str },
    Unplayable { reason: String },
}

/// What to send, as a mathematical value.
#[verifier::ext_equal]
pub enum OutputPlanView {
    Pcm { rate_hz: u32, bits: u32, resampled: bool, bit_depth_reduced: bool },
    DsdNative { rate_hz: u32 },
    DsdDop { pcm_rate_hz: u32 },
    DsdToPcm { pcm_rate_hz: u32 },
    MqaPassthrough { rate_hz: u32, bits: u32 },
    MqaAsPlainPcm { rate_hz: u32, bits: u32, reason: Seq<char> },
    Unplayable { reason: Seq<char> },
}

impl OutputPlan {
    /// What to send, as a mathematical value.
    pub open spec fn view(&self) -> OutputPlanView {
        match *self {
            OutputPlan::Pcm { rate_hz, bits, resampled, bit_depth_reduced } => OutputPlanView::Pcm {
                rate_hz,
                bits,
                resampled,
                bit_depth_reduced,
            },
            OutputPlan::DsdNative { rate_hz } => OutputPlanView::DsdNative { rate_hz },
            OutputPlan::DsdDop { pcm_rate_hz } => OutputPlanView::DsdDop { pcm_rate_hz },
            OutputPlan::DsdToPcm { pcm_rate_hz } => OutputPlanView::DsdToPcm { pcm_rate_hz },
            OutputPlan::MqaPassthrough { rate_hz, bits } => OutputPlanView::MqaPassthrough { rate_hz, bits },
            OutputPlan::MqaAsPlainPcm { rate_hz, bits, reason } => OutputPlanView::MqaAsPlainPcm {
                rate_hz,
                bits,
                reason: reason@,
            },
            OutputPlan::Unplayable { reason } => OutputPlanView::Unplayable { reason: reason@ },
        }
    }
}

// ---- DSD to PCM ----

/// The quotients of a DSD rate by `r`, twice `r` and so on, as long as the division leaves no rest and
/// the quotient is not below 44.1 kHz.
pub open spec fn halvings(dsd_rate: u32, r: int) -> Seq<u32>
    decreases 2 * dsd_rate - r,
{
    if r > 0 && r < dsd_rate && dsd_rate as int / r >= 44_100 && dsd_rate as int % r == 0 {
        seq![(dsd_rate as int / r) as u32] + halvings(dsd_rate, 2 * r)
    } else {
        seq![]
    }
}

/// The PCM rates that a DSD rate can be converted to with whole bytes, the highest first.
pub fn dsd_pcm_candidates(dsd_rate_hz: u32) -> (v: Vec<u32>)
    ensures
        v@ == halvings(dsd_rate_hz, 8),
{
    let mut v: Vec<u32> = Vec::new();
    let mut r: u32 = 8;
    while dsd_rate_hz / r >= 44_100 && dsd_rate_hz % r == 0
        invariant
            8 <= r <= 200_000,
            v@ + halvings(dsd_rate_hz, r as int) == halvings(dsd_rate_hz, 8),
        decreases 200_001 - r,
    {
        proof {
            vstd::arithmetic::div_mod::lemma_fundamental_div_mod(dsd_rate_hz as int, r as int);
            assert(dsd_rate_hz >= r * 44_100) by (nonlinear_arith)
                requires
                    dsd_rate_hz == r as int * (dsd_rate_hz as int / r as int) + dsd_rate_hz as int % r as int,
                    dsd_rate_hz as int / r as int >= 44_100,
                    dsd_rate_hz as int % r as int >= 0,
                    r > 0,
            ;
            let q = (dsd_rate_hz as int / r as int) as u32;
            assert(v@ + (seq![q] + halvings(dsd_rate_hz, 2 * r)) =~= v@.push(q) + halvings(dsd_rate_hz, 2 * r));
        }
        v.push(dsd_rate_hz / r);
        r = 2 * r;
    }
    assert(v@ + seq![] =~= v@);
    v
}

/// Every rate that DSD can be converted to is the DSD rate divided by a multiple of eight and not below
/// 44.1 kHz, and each is half of the one before.
pub proof fn candidates_are_whole_byte_steps(dsd_rate: u32, r: int, i: int)
    requires
        r > 0,
        r % 8 == 0,
        0 <= i < halvings(dsd_rate, r).len(),
    ensures
        halvings(dsd_rate, r)[i] >= 44_100,
        exists|d: int|
            d > 0 && d % 8 == 0 && dsd_rate as int == #[trigger] (d * halvings(dsd_rate, r)[i]),
        i > 0 ==> halvings(dsd_rate, r)[i - 1] == 2 * halvings(dsd_rate, r)[i],
    decreases i,
{
    let rest = halvings(dsd_rate, 2 * r);
    let q = dsd_rate as int / r;
    vstd::arithmetic::div_mod::lemma_fundamental_div_mod(dsd_rate as int, r);
    assert(q <= dsd_rate) by (nonlinear_arith)
        requires
            dsd_rate == r * q,
            r > 0,
            q >= 0,
    ;
    if i == 0 {
        assert(dsd_rate as int == r * halvings(dsd_rate, r)[0]);
    } else {
        candidates_are_whole_byte_steps(dsd_rate, 2 * r, i - 1);
        assert(halvings(dsd_rate, r)[i] == rest[i - 1]);
        if i == 1 {
            vstd::arithmetic::div_mod::lemma_fundamental_div_mod(dsd_rate as int, 2 * r);
            let h = dsd_rate as int / (2 * r);
            assert(q == 2 * h) by (nonlinear_arith)
                requires
                    r * q == (2 * r) * h,
                    r > 0,
            ;
            assert(h <= dsd_rate) by (nonlinear_arith)
                requires
                    dsd_rate == (2 * r) * h,
                    r > 0,
                    h >= 0,
            ;
        } else {
            assert(halvings(dsd_rate, r)[i - 1] == rest[i - 2]);
        }
    }
}

/// The first rate that is not above `max`.
pub open spec fn first_within(rates: Seq<u32>, max: u32) -> Option<u32>
    decreases rates.len(),
{
    if rates.len() == 0 {
        None
    } else if rates[0] <= max {
        Some(rates[0])
    } else {
        first_within(rates.drop_first(), max)
    }
}

/// The first rate that is not above `max`.
fn find_within(rates: &Vec<u32>, max: u32) -> (r: Option<u32>)
    ensures
        r == first_within(rates@, max),
{
    assert(rates@.skip(0) =~= rates@);
    for i in 0..rates.len()
        invariant
            first_within(rates@.skip(i as int), max) == first_within(rates@, max),
    {
        if rates[i] <= max {
            return Some(rates[i]);
        }
        assert(rates@.skip(i as int).drop_first() =~= rates@.skip(i + 1));
    }
    None
}

/// The PCM rate to convert DSD to: the one asked for if it can be had, else the highest up to 176.4 kHz,
/// which most devices take.
pub open spec fn dsd_pcm_rate_spec(dsd_rate: u32, target: Option<u32>) -> u32 {
    let rates = halvings(dsd_rate, 8);
    match target {
        Some(t) if rates.contains(t) => t,
        _ => match first_within(rates, 176_400) {
            Some(r) => r,
            None => 44_100,
        },
    }
}

/// The PCM rate to convert DSD to: the one asked for if it can be had, else the highest up to 176.4 kHz,
/// which most devices take.
pub fn dsd_pcm_rate(dsd_rate: u32, target: Option<u32>) -> (r: u32)
    ensures
        r == dsd_pcm_rate_spec(dsd_rate, target),
{
    let rates = dsd_pcm_candidates(dsd_rate);
    if let Some(t) = target {
        for i in 0..rates.len()
            invariant
                rates@ == halvings(dsd_rate, 8),
                target == Some(t),
                forall|j: int| 0 <= j < i ==> rates@[j] != t,
        {
            if rates[i] == t {
                assert(rates@.contains(t));
                return t;
            }
        }
        assert(!rates@.contains(t));
    }
    match find_within(&rates, 176_400) {
        Some(r) => r,
        None => 44_100,
    }
}

// ---- the plan ----

/// A rate halved until it is not above `max`, as long as it is even and stays at 8 kHz or more.
pub open spec fn halved(rate: u32, max: u32) -> u32
    decreases rate,
{
    if rate > max && rate % 2 == 0 && rate / 2 >= 8_000 {
        halved(rate / 2, max)
    } else {
        rate
    }
}

/// What to send for PCM.
pub open spec fn plan_pcm(rate_hz: u32, bits: u32, caps: DeviceCaps) -> OutputPlanView {
    let rate = halved(rate_hz, caps.max_pcm_rate_hz);
    let out_bits = if bits < caps.max_bits {
        bits
    } else {
        caps.max_bits
    };
    if rate > caps.max_pcm_rate_hz {
        OutputPlanView::Unplayable {
            reason: decimal(rate_hz as nat) + "Hzをこの機器の最大"@ + decimal(caps.max_pcm_rate_hz as nat)
                + "Hz以下にできません"@,
        }
    } else {
        OutputPlanView::Pcm {
            rate_hz: rate,
            bits: out_bits,
            resampled: rate != rate_hz,
            bit_depth_reduced: out_bits != bits,
        }
    }
}

/// What to send for DSD.
pub open spec fn plan_dsd(rate_hz: u32, caps: DeviceCaps, opts: PlayOptions) -> OutputPlanView {
    if caps.dsd is Native {
        OutputPlanView::DsdNative { rate_hz }
    } else if caps.dsd is Dop && caps.exclusive_mode && caps.max_bits >= 24 && rate_hz / 16 <= caps.max_pcm_rate_hz
        && opts.bit_perfect {
        OutputPlanView::DsdDop { pcm_rate_hz: rate_hz / 16 }
    } else {
        match first_within(halvings(rate_hz, 8), caps.max_pcm_rate_hz) {
            Some(r) => OutputPlanView::DsdToPcm { pcm_rate_hz: r },
            None => OutputPlanView::Unplayable {
                reason: "この機器の最大PCMレート"@ + decimal(caps.max_pcm_rate_hz as nat)
                    + "HzではDSDをPCM化できません"@,
            },
        }
    }
}

/// The device takes this rate and this many bits as they are.
pub open spec fn takes(caps: DeviceCaps, rate_hz: u32, bits: u32) -> bool {
    rate_hz <= caps.max_pcm_rate_hz && bits <= caps.max_bits
}

/// MQA gets to a device that unfolds it without a bit changed.
pub open spec fn passes_mqa(rate_hz: u32, bits: u32, caps: DeviceCaps, opts: PlayOptions) -> bool {
    caps.mqa_decoder && caps.exclusive_mode && opts.bit_perfect && takes(caps, rate_hz, bits)
}

/// Why MQA is played as ordinary PCM.
pub open spec fn mqa_reason(caps: DeviceCaps, opts: PlayOptions) -> Seq<char> {
    if !caps.mqa_decoder {
        "MQAデコーダ対応の機器ではありません"@
    } else if !caps.exclusive_mode {
        "排他モードで開けないためビットパーフェクトを保てません"@
    } else if !opts.bit_perfect {
        "ビットパーフェクト(DSP無し)が指定されていません"@
    } else {
        "機器の上限を超えるためビットパーフェクトを保てません"@
    }
}

/// What to send.
pub open spec fn plan_spec(src: SourceKind, caps: DeviceCaps, opts: PlayOptions) -> OutputPlanView {
    match src {
        SourceKind::Dsd { rate_hz } => plan_dsd(rate_hz, caps, opts),
        SourceKind::Mqa { rate_hz, bits } => if passes_mqa(rate_hz, bits, caps, opts) {
            OutputPlanView::MqaPassthrough { rate_hz, bits }
        } else {
            match plan_pcm(rate_hz, bits, caps) {
                OutputPlanView::Pcm { rate_hz, bits, .. } => OutputPlanView::MqaAsPlainPcm {
                    rate_hz,
                    bits,
                    reason: mqa_reason(caps, opts),
                },
                other => other,
            }
        },
        SourceKind::Pcm { rate_hz, bits } => plan_pcm(rate_hz, bits, caps),
    }
}

/// What to send for PCM.
fn pcm_plan(rate_hz: u32, bits: u32, caps: DeviceCaps) -> (p: OutputPlan)
    ensures
        p@ == plan_pcm(rate_hz, bits, caps),
{
    let mut rate: u32 = rate_hz;
    while rate > caps.max_pcm_rate_hz && rate % 2 == 0 && rate / 2 >= 8_000
        invariant
            halved(rate, caps.max_pcm_rate_hz) == halved(rate_hz, caps.max_pcm_rate_hz),
        decreases rate,
    {
        rate = rate / 2;
    }
    if rate > caps.max_pcm_rate_hz {
        let mut reason = String::new();
        push_decimal(&mut reason, rate_hz as u64);
        reason.append("Hzをこの機器の最大");
        push_decimal(&mut reason, caps.max_pcm_rate_hz as u64);
        reason.append("Hz以下にできません");
        assert(reason@ =~= decimal(rate_hz as nat) + "Hzをこの機器の最大"@ + decimal(
            caps.max_pcm_rate_hz as nat,
        ) + "Hz以下にできません"@);
        return OutputPlan::Unplayable { reason };
    }
    let out_bits = if bits < caps.max_bits {
        bits
    } else {
        caps.max_bits
    };
    OutputPlan::Pcm {
        rate_hz: rate,
        bits: out_bits,
        resampled: rate != rate_hz,
        bit_depth_reduced: out_bits != bits,
    }
}

/// What to send for a source to a device.
pub fn plan(src: SourceKind, caps: DeviceCaps, opts: PlayOptions) -> (p: OutputPlan)
    ensures
        p@ == plan_spec(src, caps, opts),
{
    match src {
        SourceKind::Dsd { rate_hz } => {
            if caps.dsd == DsdSupport::Native {
                return OutputPlan::DsdNative { rate_hz };
            }
            let dop_rate = rate_hz / 16;
            if caps.dsd == DsdSupport::Dop && caps.exclusive_mode && caps.max_bits >= 24 && dop_rate
                <= caps.max_pcm_rate_hz && opts.bit_perfect {
                return OutputPlan::DsdDop { pcm_rate_hz: dop_rate };
            }
            let rates = dsd_pcm_candidates(rate_hz);
            match find_within(&rates, caps.max_pcm_rate_hz) {
                Some(r) => OutputPlan::DsdToPcm { pcm_rate_hz: r },
                None => {
                    let mut reason = "この機器の最大PCMレート".to_owned();
                    push_decimal(&mut reason, caps.max_pcm_rate_hz as u64);
                    reason.append("HzではDSDをPCM化できません");
                    OutputPlan::Unplayable { reason }
                },
            }
        },
        SourceKind::Mqa { rate_hz, bits } => {
            if caps.mqa_decoder && caps.exclusive_mode && opts.bit_perfect && rate_hz <= caps.max_pcm_rate_hz && bits
                <= caps.max_bits {
                return OutputPlan::MqaPassthrough { rate_hz, bits };
            }
            let reason = if !caps.mqa_decoder {
                "MQAデコーダ対応の機器ではありません"
            } else if !caps.exclusive_mode {
                "排他モードで開けないためビットパーフェクトを保てません"
            } else if !opts.bit_perfect {
                "ビットパーフェクト(DSP無し)が指定されていません"
            } else {
                "機器の上限を超えるためビットパーフェクトを保てません"
            };
            match pcm_plan(rate_hz, bits, caps) {
                OutputPlan::Pcm { rate_hz, bits, .. } => OutputPlan::MqaAsPlainPcm { rate_hz, bits, reason },
                other => other,
            }
        },
        SourceKind::Pcm { rate_hz, bits } => pcm_plan(rate_hz, bits, caps),
    }
}

// ---- what holds of every plan ----

/// A halved rate is the original divided by a power of two; it is the original unless that is too high.
pub proof fn rates_are_reduced_only_when_needed(rate: u32, max: u32)
    ensures
        rate <= max ==> halved(rate, max) == rate,
        exists|k: nat| rate as int == #[trigger] (vstd::arithmetic::power2::pow2(k) * halved(rate, max)),
    decreases rate,
{
    if rate > max && rate % 2 == 0 && rate / 2 >= 8_000 {
        rates_are_reduced_only_when_needed(rate / 2, max);
        let k = choose|k: nat|
            (rate / 2) as int == #[trigger] (vstd::arithmetic::power2::pow2(k) * halved(rate / 2, max));
        vstd::arithmetic::power2::lemma_pow2_unfold(k + 1);
        assert(rate as int == vstd::arithmetic::power2::pow2(k + 1) * halved(rate, max)) by (nonlinear_arith)
            requires
                rate as int == 2 * ((rate / 2) as int),
                (rate / 2) as int == vstd::arithmetic::power2::pow2(k) * halved(rate / 2, max),
                vstd::arithmetic::power2::pow2(k + 1) == 2 * vstd::arithmetic::power2::pow2(k),
                halved(rate, max) == halved(rate / 2, max),
        ;
    } else {
        vstd::arithmetic::power2::lemma2_to64();
        assert(rate as int == vstd::arithmetic::power2::pow2(0) * halved(rate, max));
    }
}

/// A rate found within a bound is within it and one of those offered.
proof fn lemma_first_within(rates: Seq<u32>, max: u32)
    ensures
        first_within(rates, max) matches Some(r) ==> r <= max && rates.contains(r),
    decreases rates.len(),
{
    if rates.len() > 0 && rates[0] > max {
        lemma_first_within(rates.drop_first(), max);
        if let Some(r) = first_within(rates, max) {
            let i = choose|i: int| 0 <= i < rates.drop_first().len() && rates.drop_first()[i] == r;
            assert(rates[i + 1] == r);
        }
    } else if rates.len() > 0 {
        assert(rates[0] <= max && rates.contains(rates[0]));
    }
}

/// A plan never asks more of a device than it can do: PCM rates and bits stay within its limits, DSD goes
/// as it is only to a device that takes it, and what must not be altered goes only over a bit-perfect
/// exclusive path.
pub proof fn plans_stay_within_the_device(src: SourceKind, caps: DeviceCaps, opts: PlayOptions)
    ensures
        match plan_spec(src, caps, opts) {
            OutputPlanView::Pcm { rate_hz, bits, .. } => rate_hz <= caps.max_pcm_rate_hz && bits <= caps.max_bits,
            OutputPlanView::DsdNative { rate_hz } => caps.dsd is Native && src == (SourceKind::Dsd { rate_hz }),
            OutputPlanView::DsdDop { pcm_rate_hz } => caps.dsd is Dop && caps.exclusive_mode && opts.bit_perfect
                && caps.max_bits >= 24 && pcm_rate_hz <= caps.max_pcm_rate_hz,
            OutputPlanView::DsdToPcm { pcm_rate_hz } => pcm_rate_hz <= caps.max_pcm_rate_hz && 44_100
                <= pcm_rate_hz,
            OutputPlanView::MqaPassthrough { rate_hz, bits } => caps.mqa_decoder && caps.exclusive_mode
                && opts.bit_perfect && rate_hz <= caps.max_pcm_rate_hz && bits <= caps.max_bits && src == (
            SourceKind::Mqa { rate_hz, bits }),
            OutputPlanView::MqaAsPlainPcm { rate_hz, bits, .. } => rate_hz <= caps.max_pcm_rate_hz && bits
                <= caps.max_bits && !(caps.mqa_decoder && caps.exclusive_mode && opts.bit_perfect && (
            src matches SourceKind::Mqa { rate_hz: r, bits: b } && takes(caps, r, b))),
            OutputPlanView::Unplayable { .. } => !(src is Dsd && caps.dsd is Native),
        },
{
    if let SourceKind::Dsd { rate_hz } = src {
        lemma_first_within(halvings(rate_hz, 8), caps.max_pcm_rate_hz);
        if let Some(r) = first_within(halvings(rate_hz, 8), caps.max_pcm_rate_hz) {
            let i = choose|i: int| 0 <= i < halvings(rate_hz, 8).len() && halvings(rate_hz, 8)[i] == r;
            candidates_are_whole_byte_steps(rate_hz, 8, i);
        }
    }
}

/// DSD of this rate can be converted to `q` with whole bytes: `q` is the rate divided by eight times a power of
/// two, and it is not below 44.1 kHz.
pub open spec fn is_whole_byte_rate(dsd_rate: u32, q: u32) -> bool {
    q >= 44_100 && exists|k: nat| dsd_rate == 8 * #[trigger] vstd::arithmetic::power2::pow2(k) * q
}

/// `q` is what halving a rate `k` times gives.
pub open spec fn is_halved_to(rate: u32, q: u32) -> bool {
    exists|k: nat| rate == #[trigger] vstd::arithmetic::power2::pow2(k) * q
}

/// The candidates from `8 * 2^j` on are the quotients by that and its doubles.
proof fn lemma_candidates(dsd_rate: u32, r: int, j: nat, q: u32)
    requires
        r == 8 * vstd::arithmetic::power2::pow2(j),
    ensures
        halvings(dsd_rate, r).contains(q) <==> q >= 44_100 && exists|k: nat|
            k >= j && dsd_rate == 8 * #[trigger] vstd::arithmetic::power2::pow2(k) * q,
    decreases 2 * dsd_rate - r,
{
    let all = halvings(dsd_rate, r);
    vstd::arithmetic::power2::lemma_pow2_pos(j);
    vstd::arithmetic::power2::lemma_pow2_unfold((j + 1) as nat);
    let going = r < dsd_rate && dsd_rate as int / r >= 44_100 && dsd_rate as int % r == 0;
    if going {
        let h = dsd_rate as int / r;
        vstd::arithmetic::div_mod::lemma_fundamental_div_mod(dsd_rate as int, r);
        assert(h <= dsd_rate) by (nonlinear_arith)
            requires
                dsd_rate == r * h,
                r >= 1,
                h >= 0,
        ;
        let rest = halvings(dsd_rate, 2 * r);
        lemma_candidates(dsd_rate, 2 * r, (j + 1) as nat, q);
        assert(all.contains(q) <==> q == h || rest.contains(q)) by {
            if q == h {
                assert(all[0] == q);
            }
            if rest.contains(q) {
                let i = choose|i: int| 0 <= i < rest.len() && rest[i] == q;
                assert(all[i + 1] == q);
            }
            if all.contains(q) && q != h {
                let i = choose|i: int| 0 <= i < all.len() && all[i] == q;
                assert(rest[i - 1] == q);
            }
        }
        if q == h {
            assert(dsd_rate == 8 * vstd::arithmetic::power2::pow2(j) * q);
        }
        if exists|k: nat| k >= j && dsd_rate == 8 * #[trigger] vstd::arithmetic::power2::pow2(k) * q {
            let k = choose|k: nat| k >= j && dsd_rate == 8 * #[trigger] vstd::arithmetic::power2::pow2(k) * q;
            if k == j {
                assert(q == h) by (nonlinear_arith)
                    requires
                        dsd_rate == r * h,
                        dsd_rate == r * q,
                        r >= 1,
                ;
            }
        }
    } else {
        assert(!all.contains(q));
        if q >= 44_100 && exists|k: nat| k >= j && dsd_rate == 8 * #[trigger] vstd::arithmetic::power2::pow2(k) * q {
            let k = choose|k: nat| k >= j && dsd_rate == 8 * #[trigger] vstd::arithmetic::power2::pow2(k) * q;
            let d = (k - j) as nat;
            vstd::arithmetic::power2::lemma_pow2_adds(j, d);
            vstd::arithmetic::power2::lemma_pow2_pos(d);
            let m = vstd::arithmetic::power2::pow2(d) * q;
            assert(dsd_rate == m * r && m >= q) by (nonlinear_arith)
                requires
                    dsd_rate == 8 * vstd::arithmetic::power2::pow2(k) * q,
                    vstd::arithmetic::power2::pow2(k) == vstd::arithmetic::power2::pow2(j)
                        * vstd::arithmetic::power2::pow2(d),
                    r == 8 * vstd::arithmetic::power2::pow2(j),
                    m == vstd::arithmetic::power2::pow2(d) * q,
                    vstd::arithmetic::power2::pow2(d) >= 1,
            ;
            vstd::arithmetic::div_mod::lemma_div_multiples_vanish(m, r);
            assert(r * m == m * r) by (nonlinear_arith);
            vstd::arithmetic::div_mod::lemma_mod_multiples_basic(m, r);
            assert(r < dsd_rate) by (nonlinear_arith)
                requires
                    dsd_rate == m * r,
                    m >= 44_100,
                    r >= 1,
            ;
            assert(false);
        }
    }
}

/// No candidate from `r` on is above the quotient by `r`.
proof fn lemma_candidates_are_not_above(dsd_rate: u32, r: int)
    requires
        r > 0,
    ensures
        forall|q: u32| #[trigger] halvings(dsd_rate, r).contains(q) ==> q <= dsd_rate as int / r,
    decreases 2 * dsd_rate - r,
{
    let all = halvings(dsd_rate, r);
    if r < dsd_rate && dsd_rate as int / r >= 44_100 && dsd_rate as int % r == 0 {
        let rest = halvings(dsd_rate, 2 * r);
        lemma_candidates_are_not_above(dsd_rate, 2 * r);
        vstd::arithmetic::div_mod::lemma_div_is_ordered_by_denominator(dsd_rate as int, r, 2 * r);
        vstd::arithmetic::div_mod::lemma_div_is_ordered_by_denominator(dsd_rate as int, 1, r);
        assert forall|q: u32| #[trigger] all.contains(q) implies q <= dsd_rate as int / r by {
            let i = choose|i: int| 0 <= i < all.len() && all[i] == q;
            if i > 0 {
                assert(rest[i - 1] == q);
                assert(rest.contains(q));
            }
        }
    }
}

/// The candidate found within a bound is the highest of them.
proof fn lemma_highest_within(dsd_rate: u32, r: int, max: u32)
    requires
        r > 0,
    ensures
        match first_within(halvings(dsd_rate, r), max) {
            Some(x) => {
                &&& halvings(dsd_rate, r).contains(x)
                &&& x <= max
                &&& forall|q: u32| #[trigger] halvings(dsd_rate, r).contains(q) && q <= max ==> q <= x
            },
            None => forall|q: u32| #[trigger] halvings(dsd_rate, r).contains(q) ==> q > max,
        },
    decreases 2 * dsd_rate - r,
{
    let all = halvings(dsd_rate, r);
    if r < dsd_rate && dsd_rate as int / r >= 44_100 && dsd_rate as int % r == 0 {
        let rest = halvings(dsd_rate, 2 * r);
        lemma_highest_within(dsd_rate, 2 * r, max);
        lemma_candidates_are_not_above(dsd_rate, r);
        vstd::arithmetic::div_mod::lemma_div_is_ordered_by_denominator(dsd_rate as int, 1, r);
        assert(all.drop_first() =~= rest);
        assert(all.contains(all[0]));
        assert forall|q: u32| #[trigger] all.contains(q) implies q == all[0] || rest.contains(q) by {
            let i = choose|i: int| 0 <= i < all.len() && all[i] == q;
            if i > 0 {
                assert(rest[i - 1] == q);
            }
        }
        assert forall|q: u32| #[trigger] rest.contains(q) implies all.contains(q) by {
            let i = choose|i: int| 0 <= i < rest.len() && rest[i] == q;
            assert(all[i + 1] == q);
        }
    }
}

/// The rates that DSD can be converted to are all those that whole bytes give, and no others.
pub proof fn the_candidates_are_all_whole_byte_rates(dsd_rate: u32, v: Vec<u32>, q: u32)
    requires
        call_ensures(dsd_pcm_candidates, (dsd_rate,), v),
    ensures
        v@.contains(q) <==> is_whole_byte_rate(dsd_rate, q),
{
    vstd::arithmetic::power2::lemma2_to64();
    lemma_candidates(dsd_rate, 8, 0, q);
}

/// DSD is converted to the rate asked for if that can be had with whole bytes, else to the highest that can and
/// is not above 176.4 kHz, and if there is none to 44.1 kHz.
pub proof fn dsd_is_converted_to_the_rate_asked_for_or_the_highest_common_one(dsd_rate: u32, target: Option<u32>, r: u32)
    requires
        call_ensures(dsd_pcm_rate, (dsd_rate, target), r),
    ensures
        target matches Some(t) && is_whole_byte_rate(dsd_rate, t) ==> r == target->0,
        !(target matches Some(t) && is_whole_byte_rate(dsd_rate, t)) ==> {
            ||| {
                &&& is_whole_byte_rate(dsd_rate, r)
                &&& r <= 176_400
                &&& forall|q: u32| #[trigger] is_whole_byte_rate(dsd_rate, q) && q <= 176_400 ==> q <= r
            }
            ||| {
                &&& r == 44_100
                &&& forall|q: u32| #[trigger] is_whole_byte_rate(dsd_rate, q) ==> q > 176_400
            }
        },
{
    vstd::arithmetic::power2::lemma2_to64();
    assert forall|q: u32| #![trigger is_whole_byte_rate(dsd_rate, q)] #![trigger halvings(dsd_rate, 8).contains(q)]
        is_whole_byte_rate(dsd_rate, q) <==> halvings(dsd_rate, 8).contains(q) by {
        lemma_candidates(dsd_rate, 8, 0, q);
    }
    lemma_highest_within(dsd_rate, 8, 176_400);
}

/// DSD goes to a device as it is wherever that can be, and is converted only where it must be. A device that takes
/// DSD gets it. One that takes DoP gets DoP, at a sixteenth of the rate, if it has an exclusive mode, at
/// least 24 bits and that PCM rate, and nothing may be altered. Every other gets PCM at the highest
/// rate that whole bytes give and it takes, and only if there is none the file cannot be played.
pub proof fn dsd_is_converted_only_where_it_must_be(rate_hz: u32, caps: DeviceCaps, opts: PlayOptions, p: OutputPlan)
    requires
        call_ensures(plan, (SourceKind::Dsd { rate_hz }, caps, opts), p),
    ensures
        caps.dsd is Native ==> p == (OutputPlan::DsdNative { rate_hz }),
        caps.dsd is Dop && caps.exclusive_mode && caps.max_bits >= 24 && caps.max_pcm_rate_hz >= rate_hz / 16
            && opts.bit_perfect ==> p == (OutputPlan::DsdDop { pcm_rate_hz: rate_hz / 16 }),
        caps.dsd is PcmOnly || (caps.dsd is Dop && !(caps.exclusive_mode && caps.max_bits >= 24
            && caps.max_pcm_rate_hz >= rate_hz / 16 && opts.bit_perfect)) ==> match p {
            OutputPlan::DsdToPcm { pcm_rate_hz } => {
                &&& is_whole_byte_rate(rate_hz, pcm_rate_hz)
                &&& pcm_rate_hz <= caps.max_pcm_rate_hz
                &&& forall|q: u32| #[trigger]
                    is_whole_byte_rate(rate_hz, q) && q <= caps.max_pcm_rate_hz ==> q <= pcm_rate_hz
            },
            OutputPlan::Unplayable { reason } => {
                &&& forall|q: u32| #[trigger] is_whole_byte_rate(rate_hz, q) ==> q > caps.max_pcm_rate_hz
                &&& reason@ == "この機器の最大PCMレート"@ + decimal(caps.max_pcm_rate_hz as nat)
                    + "HzではDSDをPCM化できません"@
            },
            _ => false,
        },
{
    vstd::arithmetic::power2::lemma2_to64();
    assert forall|q: u32|
        #![trigger is_whole_byte_rate(rate_hz, q)]
        #![trigger halvings(rate_hz, 8).contains(q)]
        is_whole_byte_rate(rate_hz, q) <==> halvings(rate_hz, 8).contains(q) by {
        lemma_candidates(rate_hz, 8, 0, q);
    }
    lemma_highest_within(rate_hz, 8, caps.max_pcm_rate_hz);
}

/// A rate that is too high is halved just as often as it takes, and if no number of halvings helps it stays too
/// high.
proof fn lemma_halved(rate: u32, max: u32)
    ensures
        is_halved_to(rate, halved(rate, max)),
        rate <= max ==> halved(rate, max) == rate,
        rate > max && halved(rate, max) <= max ==> halved(rate, max) >= 8_000 && 2 * halved(rate, max) > max,
        halved(rate, max) > max ==> forall|q: u32| #[trigger] is_halved_to(rate, q) && q >= 8_000 ==> q > max,
    decreases rate,
{
    rates_are_reduced_only_when_needed(rate, max);
    if rate > max {
        let going = rate % 2 == 0 && rate / 2 >= 8_000;
        if going {
            lemma_halved(rate / 2, max);
        }
        if halved(rate, max) > max {
            assert forall|q: u32| #[trigger] is_halved_to(rate, q) && q >= 8_000 implies q > max by {
                let k = choose|k: nat| rate == #[trigger] vstd::arithmetic::power2::pow2(k) * q;
                if k == 0 {
                    vstd::arithmetic::power2::lemma2_to64();
                    assert(vstd::arithmetic::power2::pow2(k) * q == q) by (nonlinear_arith)
                        requires
                            vstd::arithmetic::power2::pow2(k) == 1,
                    ;
                } else {
                    vstd::arithmetic::power2::lemma_pow2_unfold(k);
                    let d = (k - 1) as nat;
                    let half = vstd::arithmetic::power2::pow2(d) * q;
                    vstd::arithmetic::power2::lemma_pow2_pos(d);
                    assert(rate == 2 * half && half >= q) by (nonlinear_arith)
                        requires
                            rate == vstd::arithmetic::power2::pow2(k) * q,
                            vstd::arithmetic::power2::pow2(k) == 2 * vstd::arithmetic::power2::pow2(d),
                            half == vstd::arithmetic::power2::pow2(d) * q,
                            vstd::arithmetic::power2::pow2(d) >= 1,
                    ;
                    assert(rate % 2 == 0 && rate / 2 == half);
                    assert(is_halved_to(rate / 2, q));
                }
            }
        }
    }
}

/// PCM goes to a device as it is if the device takes it. A rate that is too high is halved just as often as it
/// takes and never below 8 kHz, bits that are too many are cut off, and the plan says which of the two
/// happened. Only if no number of halvings helps the audio cannot be played.
pub proof fn pcm_is_reduced_no_more_than_needed(rate: u32, bits: u32, caps: DeviceCaps, opts: PlayOptions, p: OutputPlan)
    requires
        call_ensures(plan, (SourceKind::Pcm { rate_hz: rate, bits }, caps, opts), p),
    ensures
        match p {
            OutputPlan::Pcm { rate_hz: r, bits: b, resampled, bit_depth_reduced } => {
                &&& rate <= caps.max_pcm_rate_hz ==> r == rate
                &&& rate > caps.max_pcm_rate_hz ==> {
                    &&& is_halved_to(rate, r)
                    &&& 8_000 <= r <= caps.max_pcm_rate_hz
                    &&& 2 * r > caps.max_pcm_rate_hz
                }
                &&& bits <= caps.max_bits ==> b == bits
                &&& bits > caps.max_bits ==> b == caps.max_bits
                &&& resampled <==> rate > caps.max_pcm_rate_hz
                &&& bit_depth_reduced <==> bits > caps.max_bits
            },
            OutputPlan::Unplayable { reason } => {
                &&& rate > caps.max_pcm_rate_hz
                &&& forall|q: u32| #[trigger] is_halved_to(rate, q) && q >= 8_000 ==> q > caps.max_pcm_rate_hz
                &&& reason@ == decimal(rate as nat) + "Hzをこの機器の最大"@ + decimal(caps.max_pcm_rate_hz as nat)
                    + "Hz以下にできません"@
            },
            _ => false,
        },
{
    lemma_halved(rate, caps.max_pcm_rate_hz);
}

/// MQA goes untouched to a device that unfolds it, in exclusive mode, with nothing altered on the way and within
/// its limits, and to no other. Everywhere else it is what PCM of the same rate and bits is, with the
/// first thing that is missing as the reason.
pub proof fn mqa_is_untouched_or_plain_pcm(
    rate_hz: u32,
    bits: u32,
    caps: DeviceCaps,
    opts: PlayOptions,
    p: OutputPlan,
    plain: OutputPlan,
)
    requires
        call_ensures(plan, (SourceKind::Mqa { rate_hz, bits }, caps, opts), p),
        call_ensures(plan, (SourceKind::Pcm { rate_hz, bits }, caps, opts), plain),
    ensures
        caps.mqa_decoder && caps.exclusive_mode && opts.bit_perfect && rate_hz <= caps.max_pcm_rate_hz && bits
            <= caps.max_bits ==> p == (OutputPlan::MqaPassthrough { rate_hz, bits }),
        !(caps.mqa_decoder && caps.exclusive_mode && opts.bit_perfect && rate_hz <= caps.max_pcm_rate_hz && bits
            <= caps.max_bits) ==> match plain {
            OutputPlan::Pcm { rate_hz: r, bits: b, .. } => p matches OutputPlan::MqaAsPlainPcm {
                rate_hz: r2,
                bits: b2,
                reason,
            } && r2 == r && b2 == b && reason@ == (if !caps.mqa_decoder {
                "MQAデコーダ対応の機器ではありません"@
            } else if !caps.exclusive_mode {
                "排他モードで開けないためビットパーフェクトを保てません"@
            } else if !opts.bit_perfect {
                "ビットパーフェクト(DSP無し)が指定されていません"@
            } else {
                "機器の上限を超えるためビットパーフェクトを保てません"@
            }),
            OutputPlan::Unplayable { reason } => p matches OutputPlan::Unplayable { reason: same } && same@
                == reason@,
            _ => false,
        },
{
}

} // verus!
