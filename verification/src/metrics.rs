//! Pure unit conversions and derived metrics, in fixed-point integers.
//!
//! Percentages, gigabyte figures and temperatures are expressed in hundredths
//! of the unit so that every derived value has an exact integer definition.

use vstd::prelude::*;
use vstd::arithmetic::div_mod::{lemma_div_is_ordered, lemma_div_multiples_vanish};

verus! {

/// Baseline of the synthetic "CPU Package" temperature, hundredths of °C.
pub const CPU_PACKAGE_BASE_TEMP_H: u64 = 4500;

/// Baseline of the synthetic "System" temperature, hundredths of °C.
pub const SYSTEM_BASE_TEMP_H: u64 = 3500;

/// Usage percentage of `part` out of `whole`, in hundredths of a percent.
///
/// 0 when `whole` is 0 (divide-by-zero guard), and clamped to 100% on an
/// inconsistent reading with `part > whole`, so the result always lies in
/// `0..=10000`.
pub open spec fn percent_h(part: u64, whole: u64) -> u64 {
    if whole == 0 {
        0u64
    } else if part >= whole {
        10000u64
    } else {
        ((part * 10000) / (whole as int)) as u64
    }
}

/// A usage percentage lies in [0, 100]: `percent_h` never exceeds 10000
/// hundredths, it is 0 when the denominator is 0, and on every consistent
/// reading (`part <= whole`, `whole > 0`) it equals `part / whole * 100`
/// exactly, in hundredths.
pub proof fn lemma_percent_h_range(part: u64, whole: u64)
    ensures
        percent_h(part, whole) <= 10000,
        whole == 0 ==> percent_h(part, whole) == 0,
        whole > 0 && part <= whole ==> percent_h(part, whole) == part * 10000 / (whole as int),
{
    if whole > 0 {
        lemma_div_multiples_vanish(10000, whole as int);
        if part < whole {
            lemma_div_is_ordered(part * 10000, whole * 10000, whole as int);
        }
    }
}

/// Compute `percent_h(part, whole)` executably.
pub fn percent_of(part: u64, whole: u64) -> (r: u64)
    ensures
        r == percent_h(part, whole),
        r <= 10000,
{
    proof {
        lemma_percent_h_range(part, whole);
    }
    if whole == 0 {
        0
    } else if part >= whole {
        10000
    } else {
        let wide: u128 = (part as u128) * 10000;
        let q: u128 = wide / (whole as u128);
        proof {
            lemma_div_is_ordered(part * 10000, whole * 10000, whole as int);
            lemma_div_multiples_vanish(10000, whole as int);
        }
        q as u64
    }
}

/// Bytes expressed in hundredths of a gigabyte (2^30 bytes), truncated.
pub open spec fn gb_h(bytes: u64) -> u64 {
    ((bytes * 100) / 0x40000000) as u64
}

/// Compute `gb_h(bytes)` executably.
pub fn to_gb_hundredths(bytes: u64) -> (r: u64)
    ensures
        r == gb_h(bytes),
{
    let q: u128 = (bytes as u128) * 100 / 0x40000000;
    proof {
        lemma_div_is_ordered(bytes * 100, 0xffffffffffffffffu64 * 100, 0x40000000);
    }
    q as u64
}

/// The frequency a CPU snapshot reports: the aggregate core's value, or, when
/// that reads 0, the first logical core's value, or 0 when there is no core
/// to fall back on.
pub open spec fn frequency_with_fallback(aggregate: u64, first_core: Option<u64>) -> u64 {
    if aggregate > 0 {
        aggregate
    } else {
        match first_core {
            Some(f) => f,
            None => 0u64,
        }
    }
}

/// Compute `frequency_with_fallback` executably.
pub fn select_frequency(aggregate: u64, first_core: Option<u64>) -> (r: u64)
    ensures
        r == frequency_with_fallback(aggregate, first_core),
{
    if aggregate > 0 {
        aggregate
    } else {
        match first_core {
            Some(f) => f,
            None => 0,
        }
    }
}

/// Synthetic "CPU Package" temperature: baseline plus half the CPU usage
/// (both in hundredths), i.e. `45.0 + 0.5 * cpu%` in degrees Celsius.
pub open spec fn cpu_package_temp_h(cpu_usage_h: u64) -> u64 {
    (CPU_PACKAGE_BASE_TEMP_H + cpu_usage_h / 2) as u64
}

/// Synthetic "System" temperature: baseline plus three tenths of the CPU
/// usage (both in hundredths), i.e. `35.0 + 0.3 * cpu%` in degrees Celsius.
pub open spec fn system_temp_h(cpu_usage_h: u64) -> u64 {
    (SYSTEM_BASE_TEMP_H + (cpu_usage_h * 3) / 10) as u64
}

/// Compute `cpu_package_temp_h` executably.
pub fn derive_cpu_package_temp(cpu_usage_h: u64) -> (r: u64)
    ensures
        r == cpu_package_temp_h(cpu_usage_h),
{
    CPU_PACKAGE_BASE_TEMP_H + cpu_usage_h / 2
}

/// Compute `system_temp_h` executably.
pub fn derive_system_temp(cpu_usage_h: u64) -> (r: u64)
    ensures
        r == system_temp_h(cpu_usage_h),
{
    let scaled: u128 = (cpu_usage_h as u128) * 3 / 10;
    proof {
        lemma_div_is_ordered(cpu_usage_h * 3, 0xffffffffffffffffu64 * 3, 10);
    }
    SYSTEM_BASE_TEMP_H + (scaled as u64)
}

} // verus!
