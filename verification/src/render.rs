//! Recency classification and rendering. An entry is shown blinking while it
//! is very fresh, in its status colour while it is moderately fresh, and
//! plain afterwards. The displayed line is `[<timestamp in CET>] <text>`,
//! wrapped in the ANSI escape codes of the chosen style.

use crate::message::{Message, MessageView, Status};
use std::io::Write;
use vstd::prelude::*;

verus! {

/// Freshness of an entry relative to a tolerance window.
#[derive(Clone, Copy, PartialEq, Eq, Structural, Debug)]
pub enum Age {
    Recent,
    Old,
}

/// How long an entry keeps its status colour after the blink window closes.
pub const COLOR_PERIOD_MILLIS: u64 = 1000 * 60 * 5;

/// An entry is Recent exactly while `now <= timestamp + tolerance`.
pub open spec fn spec_age(ts: u64, tol_millis: u64, now: u64) -> Age {
    if now <= ts + tol_millis {
        Age::Recent
    } else {
        Age::Old
    }
}

/// Pure recency classifier; deterministic given `now`.
pub fn age(ts: u64, tol_millis: u64, now: u64) -> (a: Age)
    ensures
        a == spec_age(ts, tol_millis, now),
{
    if now <= ts || now - ts <= tol_millis {
        Age::Recent
    } else {
        Age::Old
    }
}

/// Tier boundary: for an entry no newer than `now`, Recent holds exactly
/// while the age is within the tolerance, the boundary itself included; one
/// millisecond past the tolerance the entry is Old.
pub proof fn lemma_tier_boundary(ts: u64, tol_millis: u64, now: u64)
    requires
        now >= ts,
    ensures
        now - ts <= tol_millis <==> spec_age(ts, tol_millis, now) == Age::Recent,
        now - ts > tol_millis <==> spec_age(ts, tol_millis, now) == Age::Old,
{
}

/// What chrono and chrono-tz print for an instant, converted to the fixed
/// display time zone; a function of the millisecond value alone.
pub uninterp spec fn cet_formatted(millis: u64) -> Seq<u8>;

/// Relies on chrono's `DateTime::from_timestamp_millis` and chrono-tz's `CET`
/// zone: formats the instant in the fixed display zone as
/// `YYYY-MM-DD HH:MM:SS`. The result depends on the millisecond value alone,
/// so it is named `cet_formatted`.
#[verifier::external_body]
fn format_cet(millis: u64) -> (r: Vec<u8>)
    ensures
        r@ == cet_formatted(millis),
{
    match chrono::DateTime::from_timestamp_millis(millis as i64) {
        Some(dt) => dt.with_timezone(&chrono_tz::CET).format("%Y-%m-%d %H:%M:%S").to_string()
            .into_bytes(),
        None => Vec::new(),
    }
}

/// The ANSI code that returns the terminal to the default style.
pub open spec fn style_reset() -> Seq<u8> {
    seq![27u8, 91u8, 48u8, 109u8]
}

/// The ANSI code for a red foreground.
pub open spec fn red_prefix() -> Seq<u8> {
    seq![27u8, 91u8, 51u8, 49u8, 109u8]
}

/// The ANSI code for a green foreground.
pub open spec fn green_prefix() -> Seq<u8> {
    seq![27u8, 91u8, 51u8, 50u8, 109u8]
}

/// The ANSI code for black on yellow, used for the blink tier and for the
/// pending status alike.
pub open spec fn black_on_yellow_prefix() -> Seq<u8> {
    seq![27u8, 91u8, 52u8, 51u8, 59u8, 51u8, 48u8, 109u8]
}

/// Relies on ansi_term's `Colour::paint` and `ANSIByteString::write_to`:
/// wraps the bytes in the red-foreground code and the reset code.
#[verifier::external_body]
fn paint_red(text: &[u8]) -> (r: Vec<u8>)
    ensures
        r@ == red_prefix() + text@ + style_reset(),
{
    let styled = ansi_term::Colour::Red.paint(text);
    let mut out: Vec<u8> = Vec::new();
    let _ = styled.write_to(&mut out);
    out
}

/// Relies on ansi_term's `Colour::paint` and `ANSIByteString::write_to`:
/// wraps the bytes in the green-foreground code and the reset code.
#[verifier::external_body]
fn paint_green(text: &[u8]) -> (r: Vec<u8>)
    ensures
        r@ == green_prefix() + text@ + style_reset(),
{
    let styled = ansi_term::Colour::Green.paint(text);
    let mut out: Vec<u8> = Vec::new();
    let _ = styled.write_to(&mut out);
    out
}

/// Relies on ansi_term's `Style::paint` and `ANSIByteString::write_to`: wraps
/// the bytes in the black-on-yellow code and the reset code.
#[verifier::external_body]
fn paint_black_on_yellow(text: &[u8]) -> (r: Vec<u8>)
    ensures
        r@ == black_on_yellow_prefix() + text@ + style_reset(),
{
    let styled = ansi_term::Style::new().fg(ansi_term::Colour::Black).on(
        ansi_term::Colour::Yellow,
    ).paint(text);
    let mut out: Vec<u8> = Vec::new();
    let _ = styled.write_to(&mut out);
    out
}

/// The unstyled display line of an entry: `[<timestamp in CET>] <text>`.
pub open spec fn spec_plain(v: MessageView) -> Seq<u8> {
    seq![91u8] + cet_formatted(v.timestamp) + seq![93u8, 32u8] + v.text
}

/// The display line wrapped in the status colour of the entry.
pub open spec fn spec_styled(v: MessageView) -> Seq<u8> {
    match v.status {
        Status::Error => red_prefix() + spec_plain(v) + style_reset(),
        Status::Success => green_prefix() + spec_plain(v) + style_reset(),
        Status::Pending => black_on_yellow_prefix() + spec_plain(v) + style_reset(),
    }
}

/// The rendered line of an entry under the two-stage tiering: blink style
/// while within the blink tolerance, status colour while within the colour
/// period, plain afterwards.
pub open spec fn spec_render(v: MessageView, blink_millis: u64, now: u64) -> Seq<u8> {
    if spec_age(v.timestamp, blink_millis, now) == Age::Recent {
        black_on_yellow_prefix() + spec_plain(v) + style_reset()
    } else if spec_age(v.timestamp, COLOR_PERIOD_MILLIS, now) == Age::Recent {
        spec_styled(v)
    } else {
        spec_plain(v)
    }
}

impl Message {
    /// The unstyled display line of this entry.
    pub fn plain(&self) -> (r: Vec<u8>)
        ensures
            r@ == spec_plain(self@),
    {
        let mut out: Vec<u8> = Vec::new();
        out.push(91);
        let ts = format_cet(self.timestamp);
        out.extend_from_slice(ts.as_slice());
        out.push(93);
        out.push(32);
        out.extend_from_slice(self.text.as_slice());
        proof {
            assert(out@ =~= spec_plain(self@));
        }
        out
    }

    /// The display line wrapped in this entry's status colour.
    pub fn styled(&self) -> (r: Vec<u8>)
        ensures
            r@ == spec_styled(self@),
    {
        let p = self.plain();
        match self.status {
            Status::Error => paint_red(p.as_slice()),
            Status::Success => paint_green(p.as_slice()),
            Status::Pending => paint_black_on_yellow(p.as_slice()),
        }
    }

    /// The display line in the blink style, the same for every status:
    /// urgency overrides the status colour.
    pub fn blink(&self) -> (r: Vec<u8>)
        ensures
            r@ == black_on_yellow_prefix() + spec_plain(self@) + style_reset(),
    {
        let p = self.plain();
        paint_black_on_yellow(p.as_slice())
    }

    /// The rendered line of this entry at the instant `now`.
    pub fn render(&self, blink_millis: u64, now: u64) -> (r: Vec<u8>)
        ensures
            r@ == spec_render(self@, blink_millis, now),
    {
        match age(self.timestamp, blink_millis, now) {
            Age::Recent => self.blink(),
            Age::Old => match age(self.timestamp, COLOR_PERIOD_MILLIS, now) {
                Age::Recent => self.styled(),
                Age::Old => self.plain(),
            },
        }
    }
}

} // verus!
