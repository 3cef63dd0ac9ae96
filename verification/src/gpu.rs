//! The name-based GPU-usage estimate.
//!
//! No real GPU counter is read anywhere in this library: the estimate is a
//! display heuristic derived from the process name and its normalized CPU
//! usage.  It is a priority-ordered list of case-sensitive substring rules,
//! evaluated top-down, first match wins; each rule scales the CPU usage by a
//! fixed coefficient and caps the result.  Callers should treat the value as
//! synthetic, never as a measurement.

use vstd::prelude::*;
use vstd::string::StrSliceExecFns;

verus! {

/// True when `token` occurs in `name` starting at position `i`.
pub open spec fn matches_at(name: Seq<char>, token: Seq<char>, i: int) -> bool {
    0 <= i && i + token.len() <= name.len() && name.subrange(i, i + token.len()) == token
}

/// True when `token` occurs somewhere in `name` (case-sensitive).
pub open spec fn contains_token(name: Seq<char>, token: Seq<char>) -> bool {
    exists|i: int| matches_at(name, token, i)
}

/// True when `token` occurs in `name` starting exactly at `i`.
fn token_matches_at(name: &str, token: &str, i: usize) -> (r: bool)
    requires
        i + token@.len() <= name@.len(),
        name@.len() <= usize::MAX,
    ensures
        r == matches_at(name@, token@, i as int),
{
    let m: usize = token.unicode_len();
    let mut j: usize = 0;
    while j < m
        invariant
            m == token@.len(),
            i + m <= name@.len(),
            name@.len() <= usize::MAX,
            0 <= j <= m,
            forall|k: int| 0 <= k < j ==> name@[i + k] == token@[k],
        decreases m - j,
    {
        if name.get_char(i + j) != token.get_char(j) {
            proof {
                let sub = name@.subrange(i as int, i + m);
                assert(sub[j as int] == name@[i + j]);
            }
            return false;
        }
        j = j + 1;
    }
    proof {
        assert(name@.subrange(i as int, i + m) =~= token@);
    }
    true
}

/// Case-sensitive substring test: true exactly when `token` occurs in `name`.
pub fn str_contains(name: &str, token: &str) -> (r: bool)
    ensures
        r == contains_token(name@, token@),
{
    let n: usize = name.unicode_len();
    let m: usize = token.unicode_len();
    if m > n {
        return false;
    }
    if m == 0 {
        proof {
            assert(name@.subrange(0, 0) =~= token@);
            assert(matches_at(name@, token@, 0));
        }
        return true;
    }
    let mut i: usize = 0;
    loop
        invariant
            n == name@.len(),
            m == token@.len(),
            1 <= m <= n,
            0 <= i <= n - m + 1,
            forall|k: int| 0 <= k < i ==> !matches_at(name@, token@, k),
        decreases n - m + 1 - i,
    {
        if i > n - m {
            return false;
        }
        if token_matches_at(name, token, i) {
            return true;
        }
        i = i + 1;
    }
}

/// `v` capped at `cap`.
pub open spec fn capped(v: int, cap: u64) -> u64 {
    if v >= cap {
        cap
    } else {
        v as u64
    }
}

/// Cap a widened intermediate product at `cap`.
fn cap_at(v: u128, cap: u64) -> (r: u64)
    ensures
        r == capped(v as int, cap),
{
    if v >= cap as u128 {
        cap
    } else {
        v as u64
    }
}

/// True when the name carries a known browser token.
pub open spec fn is_browser_name(name: Seq<char>) -> bool {
    contains_token(name, "chrome"@) || contains_token(name, "firefox"@) || contains_token(
        name,
        "edge"@,
    )
}

/// True when the name carries a known game or game-engine token.
pub open spec fn is_game_name(name: Seq<char>) -> bool {
    contains_token(name, "game"@) || contains_token(name, "unity"@) || contains_token(
        name,
        "unreal"@,
    )
}

/// True when the name carries a GPU-vendor token.
pub open spec fn is_gpu_vendor_name(name: Seq<char>) -> bool {
    contains_token(name, "nvidia"@) || contains_token(name, "amd"@) || contains_token(
        name,
        "gpu"@,
    )
}

/// The estimated GPU usage for a process, in hundredths of a percent.
///
/// `cpu_h` is the normalized CPU usage in hundredths of a percent.  The rules,
/// in priority order, first match wins: browsers get `min(0.3 * cpu, 15%)`,
/// games `min(2.0 * cpu, 85%)`, GPU-vendor processes `min(1.5 * cpu, 25%)`,
/// this application's own monitor process `min(0.1 * cpu, 5%)`, and every
/// other process `min(0.05 * cpu, 3%)`.
pub open spec fn gpu_usage_h(name: Seq<char>, cpu_h: u64) -> u64 {
    if is_browser_name(name) {
        capped(cpu_h * 3 / 10, 1500)
    } else if is_game_name(name) {
        capped(cpu_h * 2, 8500)
    } else if is_gpu_vendor_name(name) {
        capped(cpu_h * 3 / 2, 2500)
    } else if contains_token(name, "WSIMC"@) {
        capped(cpu_h as int / 10, 500)
    } else {
        capped(cpu_h as int / 20, 300)
    }
}

/// Compute `gpu_usage_h(name@, cpu_h)` executably.  The estimate never
/// exceeds the largest cap, 85%.
pub fn estimate_gpu_usage(name: &str, cpu_h: u64) -> (r: u64)
    ensures
        r == gpu_usage_h(name@, cpu_h),
        r <= 8500,
{
    if str_contains(name, "chrome") || str_contains(name, "firefox") || str_contains(name, "edge")
    {
        cap_at((cpu_h as u128) * 3 / 10, 1500)
    } else if str_contains(name, "game") || str_contains(name, "unity") || str_contains(
        name,
        "unreal",
    ) {
        cap_at((cpu_h as u128) * 2, 8500)
    } else if str_contains(name, "nvidia") || str_contains(name, "amd") || str_contains(
        name,
        "gpu",
    ) {
        cap_at((cpu_h as u128) * 3 / 2, 2500)
    } else if str_contains(name, "WSIMC") {
        cap_at((cpu_h as u128) / 10, 500)
    } else {
        cap_at((cpu_h as u128) / 20, 300)
    }
}

} // verus!
