//! Plain data shared by the components: configuration, channel layout,
//! colour updates and spectrum snapshots.
//!
//! Fractions in [0, 1] are fixed-point levels in `0..=LEVEL_MAX`; channel
//! coordinates are integers in millionths of the layout's unit.
use vstd::prelude::*;
use vstd::string::*;

verus! {

/// The level that stands for 1.0.
pub const LEVEL_MAX: u16 = 10000;

/// Credentials for the controller, as obtained at registration.
#[derive(Debug, Clone)]
pub struct HueConfig {
    pub ip: String,
    pub username: String,
    pub client_key: String,
}

/// One addressable light output: its textual identifier and its position
/// (millionths; each coordinate roughly within -1_000_000..=1_000_000).
#[derive(Debug, Clone)]
pub struct LightNode {
    pub id: String,
    pub x: i32,
    pub y: i32,
    pub z: i32,
}

/// A colour update for one channel.
#[derive(Debug, Clone, Copy, PartialEq, Eq, Structural)]
pub struct LightState {
    pub id: u8,
    pub r: u8,
    pub g: u8,
    pub b: u8,
}

/// The snapshot that one audio block yields: band energies and loudness,
/// each a level where `LEVEL_MAX` stands for 1.0.
#[derive(Debug, Clone, Copy, PartialEq, Eq, Structural)]
pub struct AudioSpectrum {
    pub bass: u16,
    pub mids: u16,
    pub highs: u16,
    pub energy: u16,
}

impl AudioSpectrum {
    /// All four values are within `0..=LEVEL_MAX`.
    pub open spec fn wf(self) -> bool {
        self.bass <= LEVEL_MAX && self.mids <= LEVEL_MAX && self.highs <= LEVEL_MAX && self.energy
            <= LEVEL_MAX
    }
}

pub open spec fn is_digit(c: char) -> bool {
    '0' <= c <= '9'
}

/// The value of one decimal digit.
pub open spec fn digit_value(c: char) -> nat {
    if is_digit(c) {
        (c as int - '0' as int) as nat
    } else {
        0
    }
}

/// The value of a string of decimal digits.
pub open spec fn digits_value(s: Seq<char>) -> nat
    decreases s.len(),
{
    if s.len() == 0 {
        0
    } else {
        digits_value(s.drop_last()) * 10 + digit_value(s.last())
    }
}

/// The digits of an unsigned decimal, past an optional leading `+`.
pub open spec fn unsigned_digits(s: Seq<char>) -> Seq<char> {
    if s.len() > 0 && s[0] == '+' {
        s.drop_first()
    } else {
        s
    }
}

/// A channel identifier read as an 8-bit unsigned decimal: an optional `+`,
/// then at least one digit, the value at most 255; anything else is none.
pub open spec fn parsed_id(s: Seq<char>) -> Option<u8> {
    let d = unsigned_digits(s);
    if d.len() > 0 && (forall|i: int| 0 <= i < d.len() ==> is_digit(#[trigger] d[i]))
        && digits_value(d) <= 255 {
        Some(digits_value(d) as u8)
    } else {
        None
    }
}

proof fn lemma_capped_step(v: nat, d: nat)
    requires
        d < 10,
    ensures
        (if (if v > 256 { 256 } else { v }) * 10 + d > 256 { 256 } else { (if v > 256 { 256 } else { v }) * 10 + d })
            == (if v * 10 + d > 256 { 256 } else { v * 10 + d }),
{
}

/// Reads a channel identifier as an 8-bit unsigned decimal.
pub fn parse_channel_id(s: &str) -> (r: Option<u8>)
    ensures
        r == parsed_id(s@),
{
    let n = s.unicode_len();
    let start: usize = if n > 0 && s.get_char(0) == '+' { 1 } else { 0 };
    let ghost d = unsigned_digits(s@);
    assert(d =~= s@.subrange(start as int, n as int));
    if start == n {
        return None;
    }
    let mut value: u32 = 0;
    let mut i: usize = start;
    while i < n
        invariant
            start <= i <= n,
            n == s@.len(),
            d == s@.subrange(start as int, n as int),
            d == unsigned_digits(s@),
            forall|j: int| 0 <= j < i - start ==> is_digit(#[trigger] d[j]),
            value == (if digits_value(d.subrange(0, i - start)) > 256 { 256 } else { digits_value(d.subrange(0, i - start)) }),
        decreases n - i,
    {
        let c = s.get_char(i);
        if c < '0' || c > '9' {
            assert(!is_digit(d[i - start]));
            assert(!(forall|j: int| 0 <= j < d.len() ==> is_digit(#[trigger] d[j])));
            assert(parsed_id(s@) is None);
            return None;
        }
        let ghost k = (i - start) as int;
        assert(d.subrange(0, k + 1).drop_last() =~= d.subrange(0, k));
        let digit: u32 = (c as u32) - ('0' as u32);
        proof {
            lemma_capped_step(digits_value(d.subrange(0, k)), digit as nat);
        }
        value = value * 10 + digit;
        if value > 256 {
            value = 256;
        }
        i = i + 1;
    }
    assert(d.subrange(0, n - start) =~= d);
    if value > 255 {
        None
    } else {
        Some(value as u8)
    }
}

} // verus!
