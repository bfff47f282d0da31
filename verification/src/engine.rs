//! Plain data types of the audio engine's command surface and the rules
//! that map engine failures and device identities onto them.

use vstd::prelude::*;

use crate::text::{
    chars_of, contains, contains_in, dec, dec_in, hex, hex_in, push_char, push_chars, push_str,
    zero_pad, zero_pad_in,
};

verus! {

/// Errors returned by the audio engine API.
#[derive(Debug)]
pub enum AudioError {
    /// The audio engine is not initialized; prepare it first.
    NotInitialized(String),
    /// A command rejected by the running engine (e.g. decode/open failure).
    Engine(String),
    /// Invalid argument supplied by the caller.
    InvalidArgument(String),
}

/// An engine failure message means "not initialized" when it says so.
pub open spec fn says_not_initialized(m: Seq<char>) -> bool {
    contains(m, "not initialized"@) || contains(m, "not initialize"@)
}

impl From<String> for AudioError {
    /// The engine reports failures as plain messages.
    fn from(value: String) -> (r: Self) {
        let v = chars_of(value.as_str());
        if contains_in(&v, &chars_of("not initialized")) || contains_in(
            &v,
            &chars_of("not initialize"),
        ) {
            AudioError::NotInitialized(value)
        } else {
            AudioError::Engine(value)
        }
    }
}

impl vstd::std_specs::convert::FromSpecImpl<String> for AudioError {
    open spec fn obeys_from_spec() -> bool {
        true
    }

    open spec fn from_spec(v: String) -> AudioError {
        if says_not_initialized(v@) {
            AudioError::NotInitialized(v)
        } else {
            AudioError::Engine(v)
        }
    }
}

/// Text of the error for a preset with `count` bands.
pub open spec fn band_count_message(count: nat) -> Seq<char> {
    "equalizer preset must have 10 bands, got "@ + dec(count)
}

/// A graphic-EQ preset must have exactly 10 bands.
pub fn check_band_count(count: usize) -> (r: Result<(), AudioError>)
    ensures
        count == 10 <==> r is Ok,
        r matches Err(e) ==> e matches AudioError::InvalidArgument(m) && m@ == band_count_message(
            count as nat,
        ),
{
    if count != 10 {
        let mut m = String::new();
        push_str(&mut m, "equalizer preset must have 10 bands, got ");
        push_chars(&mut m, &dec_in(count as u64));
        return Err(AudioError::InvalidArgument(m));
    }
    Ok(())
}

/// Playback state reported to the frontend.
#[derive(Debug, Clone, Copy, PartialEq, Eq, Structural)]
pub enum PlaybackState {
    /// Engine idle, no track loaded.
    Idle,
    /// Track loaded and playing.
    Playing,
    /// Playback paused (position retained).
    Paused,
    /// Loading / buffering.
    Buffering,
    /// Crossfading between two tracks.
    Crossfading,
    /// Playback stopped (track ended or stop requested).
    Stopped,
}

impl Default for PlaybackState {
    fn default() -> (s: Self)
        ensures
            s == PlaybackState::Idle,
    {
        PlaybackState::Idle
    }
}

/// Crossfade curve.
#[derive(Debug, Clone, Copy, PartialEq, Eq, Structural)]
pub enum CrossfadeCurveSerde {
    /// Equal power using sin/cos (constant perceived loudness).
    EqualPower,
    /// Linear fade (may dip in the middle).
    Linear,
    /// Square-root curve (alternative equal power).
    SquareRoot,
    /// S-curve for smoother transitions.
    SCurve,
}

impl Default for CrossfadeCurveSerde {
    fn default() -> (c: Self)
        ensures
            c == CrossfadeCurveSerde::EqualPower,
    {
        CrossfadeCurveSerde::EqualPower
    }
}

/// A discovered USB Audio Class 2.0 device (DAC/AMP).
pub struct Uac2DeviceInfo {
    pub vendor_id: u16,
    pub product_id: u16,
    pub serial: Option<String>,
    pub product_name: String,
    pub manufacturer: String,
    /// `"vid:pid"`, four lower-case hex digits each.
    pub id: String,
}

/// `format!("{:04x}:{:04x}", vendor_id, product_id)`.
pub open spec fn usb_id(vendor_id: u16, product_id: u16) -> Seq<char> {
    zero_pad(hex(vendor_id as nat), 4) + seq![':'] + zero_pad(hex(product_id as nat), 4)
}

/// The `"vid:pid"` identifier of a USB device.
pub fn usb_device_id(vendor_id: u16, product_id: u16) -> (s: String)
    ensures
        s@ == usb_id(vendor_id, product_id),
{
    let mut s = String::new();
    push_chars(&mut s, &zero_pad_in(hex_in(vendor_id as u64), 4));
    push_char(&mut s, ':');
    push_chars(&mut s, &zero_pad_in(hex_in(product_id as u64), 4));
    s
}

impl Uac2DeviceInfo {
    /// Device info from its identification and metadata strings.
    pub fn from_parts(
        vendor_id: u16,
        product_id: u16,
        serial: Option<String>,
        product_name: String,
        manufacturer: String,
    ) -> (d: Self)
        ensures
            d.vendor_id == vendor_id,
            d.product_id == product_id,
            d.serial == serial,
            d.product_name == product_name,
            d.manufacturer == manufacturer,
            d.id@ == usb_id(vendor_id, product_id),
    {
        let id = usb_device_id(vendor_id, product_id);
        Uac2DeviceInfo { vendor_id, product_id, serial, product_name, manufacturer, id }
    }
}

/// The output sample rates the shell prepares the engine with at startup,
/// in the order tried until one succeeds: 48 kHz (which primes a USB
/// device for later rate changes), the engine's own choice, then 44.1 kHz.
pub fn startup_sample_rates() -> (r: Vec<Option<u32>>)
    ensures
        r@ == seq![Some(48_000u32), None, Some(44_100u32)],
{
    let r = vec![Some(48_000u32), None, Some(44_100u32)];
    assert(r@ =~= seq![Some(48_000u32), None, Some(44_100u32)]);
    r
}

/// The rate of the next startup prepare: the first of the startup rates
/// before any attempt, the next one after a failed attempt, and none once
/// an attempt succeeded or all were tried. `tried` attempts were made;
/// `last_failed` tells whether the last of them failed.
pub open spec fn next_rate(tried: nat, last_failed: bool) -> Option<Option<u32>> {
    let rates = seq![Some(48_000u32), None, Some(44_100u32)];
    if tried > 0 && !last_failed {
        None
    } else if tried < 3 {
        Some(rates[tried as int])
    } else {
        None
    }
}

/// Which rate to prepare the engine with next at startup, if any.
pub fn next_startup_rate(tried: usize, last_failed: bool) -> (r: Option<Option<u32>>)
    ensures
        r == next_rate(tried as nat, last_failed),
{
    if tried > 0 && !last_failed {
        return None;
    }
    let rates = startup_sample_rates();
    if tried < rates.len() {
        Some(rates[tried])
    } else {
        None
    }
}

} // verus!
