//! Configuration parameters, all under the `nabla.` prefix.
use vstd::prelude::*;
use vstd::utf8::{decode_utf8, valid_utf8};

use crate::text;
use crate::text::{is_blank, trimmed, view_of_option};

verus! {

pub const DEFAULT_POLL_INTERVAL_MS: i32 = 100;

pub const DEFAULT_RETAIN_DELTAS: i32 = 100_000;

pub const DEFAULT_MAX_SLOT_LAG_BYTES: i32 = 1_073_741_824;

pub const DEFAULT_MAX_APPLY_FAILURES: i32 = 3;

pub const DEFAULT_BATCH_CHANGES: i32 = 5000;

pub const DEFAULT_DEBUG_POPULATE_DELAY_MS: i32 = 0;

/// An integer parameter: its name, its default and the values it may have.
pub struct IntSetting {
    pub name: &'static str,
    pub default: i32,
    pub min: i32,
    pub max: i32,
}

pub open spec fn is_setting(
    s: IntSetting,
    name: Seq<char>,
    default: i32,
    min: i32,
    max: i32,
) -> bool {
    s.name@ == name && s.default == default && s.min == min && s.max == max && min <= default
        <= max
}

/// How often the worker polls the replication slot.
pub fn poll_interval_ms() -> (result: IntSetting)
    ensures
        is_setting(result, "nabla.poll_interval_ms"@, 100, 1, 60_000),
{
    IntSetting { name: "nabla.poll_interval_ms", default: DEFAULT_POLL_INTERVAL_MS, min: 1, max: 60_000 }
}

/// Maximum delta-log rows kept per view.
pub fn retain_deltas() -> (result: IntSetting)
    ensures
        is_setting(result, "nabla.retain_deltas"@, 100_000, 1, i32::MAX),
{
    IntSetting { name: "nabla.retain_deltas", default: DEFAULT_RETAIN_DELTAS, min: 1, max: i32::MAX }
}

/// Maximum WAL the slot may retain before the worker drops it and marks views
/// stale; the cap tops out just under 2 GiB.
pub fn max_slot_lag_bytes() -> (result: IntSetting)
    ensures
        is_setting(result, "nabla.max_slot_lag_bytes"@, 1_073_741_824, 1_048_576, i32::MAX),
{
    IntSetting {
        name: "nabla.max_slot_lag_bytes",
        default: DEFAULT_MAX_SLOT_LAG_BYTES,
        min: 1_048_576,
        max: i32::MAX,
    }
}

/// Consecutive failed applies of one source transaction before a view goes stale.
pub fn max_apply_failures() -> (result: IntSetting)
    ensures
        is_setting(result, "nabla.max_apply_failures"@, 3, 1, 1_000_000),
{
    IntSetting { name: "nabla.max_apply_failures", default: DEFAULT_MAX_APPLY_FAILURES, min: 1, max: 1_000_000 }
}

/// Changes decoded per poll; every complete source transaction of the peek is
/// applied in one worker transaction.
pub fn batch_changes() -> (result: IntSetting)
    ensures
        is_setting(result, "nabla.batch_changes"@, 5000, 1, 1_000_000),
{
    IntSetting { name: "nabla.batch_changes", default: DEFAULT_BATCH_CHANGES, min: 1, max: 1_000_000 }
}

/// Hold the population snapshot for this long before building.
pub fn debug_populate_delay_ms() -> (result: IntSetting)
    ensures
        is_setting(result, "nabla.debug_populate_delay_ms"@, 0, 0, 600_000),
{
    IntSetting { name: "nabla.debug_populate_delay_ms", default: DEFAULT_DEBUG_POPULATE_DELAY_MS, min: 0, max: 600_000 }
}

/// A setting that counts something is at least one.
pub open spec fn at_least_one(value: i32) -> i32 {
    if value < 1 {
        1
    } else {
        value
    }
}

pub fn at_least(value: i32) -> (result: i32)
    ensures
        result == at_least_one(value),
{
    if value < 1 {
        1
    } else {
        value
    }
}

/// `String::from_utf8`: the text that the bytes encode, where they are valid UTF-8.
#[verifier::external_body]
fn utf8_text(bytes: Vec<u8>) -> (result: Option<String>)
    ensures
        match result {
            Some(text) => valid_utf8(bytes@) && text@ == decode_utf8(bytes@),
            None => !valid_utf8(bytes@),
        },
{
    String::from_utf8(bytes).ok()
}

/// The configured worker database, or `None` when unset or empty. Empty means
/// the worker idles.
pub open spec fn configured(setting: Option<Seq<u8>>) -> Option<Seq<char>> {
    match setting {
        Some(bytes) if valid_utf8(bytes) && trimmed(decode_utf8(bytes)).len() > 0 => Some(
            decode_utf8(bytes),
        ),
        _ => None,
    }
}

/// The configured worker database, or `None` when unset or empty.
pub fn database(setting: Option<Vec<u8>>) -> (result: Option<String>)
    ensures
        view_of_option(result) == configured(view_of_option(setting)),
{
    match setting {
        None => None,
        Some(bytes) => match utf8_text(bytes) {
            None => None,
            Some(name) => {
                let chars = text::chars_of(&name);
                let (from, to) = text::trim_range(&chars);
                if from < to {
                    Some(name)
                } else {
                    None
                }
            },
        },
    }
}

/// A counting setting is at least one, and its own value where that is enough.
pub proof fn law_settings_are_at_least_one(value: i32)
    ensures
        at_least_one(value) >= 1,
        value >= 1 ==> at_least_one(value) == value,
        value < 1 ==> at_least_one(value) == 1,
{
}

/// The worker has a database exactly where the setting is a text that is not blank, and
/// it is that text, as it stands.
pub proof fn law_blank_settings_name_no_database(setting: Option<Seq<u8>>)
    ensures
        configured(setting) is Some <==> setting is Some && valid_utf8(setting->0) && !is_blank(
            decode_utf8(setting->0),
        ),
        configured(setting) is Some ==> configured(setting)->0 == decode_utf8(setting->0),
{
    if setting is Some {
        text::law_trimming_takes_only_white_space(decode_utf8(setting->0));
    }
}

} // verus!
