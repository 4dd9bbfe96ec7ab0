//! The message model: a timestamp, a status classification, free text, and a
//! total order that ranks newer entries first.

use core::cmp::Ordering;
use vstd::prelude::*;
use vstd::std_specs::cmp::PartialEqSpec;

verus! {

/// Classification tag carried by every feed entry.
#[derive(Clone, Copy, PartialEq, Eq, Structural, Debug)]
pub enum Status {
    Error,
    Success,
    Pending,
}

/// The one failure the core reports: input that is not a valid record or not
/// a recognised status tag.
#[derive(Clone, Copy, PartialEq, Eq, Structural, Debug)]
pub enum ParseError {
    InvalidInput,
}

/// One feed entry. `timestamp` counts milliseconds since the Unix epoch, in
/// UTC. `text` holds the message bytes exactly as captured (not trimmed).
#[derive(Clone, Debug)]
pub struct Message {
    pub timestamp: u64,
    pub status: Status,
    pub text: Vec<u8>,
}

/// Mathematical model of a `Message`.
#[verifier::ext_equal]
pub ghost struct MessageView {
    pub timestamp: u64,
    pub status: Status,
    pub text: Seq<u8>,
}

impl View for Message {
    type V = MessageView;

    open spec fn view(&self) -> MessageView {
        MessageView { timestamp: self.timestamp, status: self.status, text: self.text@ }
    }
}

impl PartialEq for Message {
    fn eq(&self, other: &Self) -> (r: bool) {
        let texts_equal = self.text == other.text;
        proof {
            if self.text@ == other.text@ {
                assert(self.text.eq_spec(&other.text));
            }
            if self.text.eq_spec(&other.text) {
                assert(self.text@ =~= other.text@);
            }
        }
        self.timestamp == other.timestamp && self.status == other.status && texts_equal
    }
}

impl vstd::std_specs::cmp::PartialEqSpecImpl for Message {
    open spec fn obeys_eq_spec() -> bool {
        true
    }

    open spec fn eq_spec(&self, other: &Self) -> bool {
        self@ == other@
    }
}

/// Reverse-chronological order: an entry with a later timestamp compares as
/// less, so that ranking by this order puts the newest entry first. Entries
/// with equal timestamps are equal for ordering purposes.
pub open spec fn spec_compare(a: MessageView, b: MessageView) -> Ordering {
    if a.timestamp > b.timestamp {
        Ordering::Less
    } else if a.timestamp == b.timestamp {
        Ordering::Equal
    } else {
        Ordering::Greater
    }
}

/// ASCII lower case of one byte.
pub open spec fn spec_lower(b: u8) -> u8 {
    if 65 <= b && b <= 90 {
        (b + 32) as u8
    } else {
        b
    }
}

/// ASCII lower case of a byte sequence.
pub open spec fn spec_lower_seq(s: Seq<u8>) -> Seq<u8> {
    s.map_values(|b: u8| spec_lower(b))
}

/// The textual tag of each status: `error`, `success`, `pending`.
pub open spec fn spec_status_tag(st: Status) -> Seq<u8> {
    match st {
        Status::Error => seq![101u8, 114u8, 114u8, 111u8, 114u8],
        Status::Success => seq![115u8, 117u8, 99u8, 99u8, 101u8, 115u8, 115u8],
        Status::Pending => seq![112u8, 101u8, 110u8, 100u8, 105u8, 110u8, 103u8],
    }
}

fn lower_byte(b: u8) -> (r: u8)
    ensures
        r == spec_lower(b),
{
    if 65 <= b && b <= 90 {
        b + 32
    } else {
        b
    }
}

/// The tag bytes of a status, as written to the log.
pub(crate) fn tag_bytes(st: Status) -> (r: Vec<u8>)
    ensures
        r@ == spec_status_tag(st),
{
    let mut v: Vec<u8> = Vec::new();
    match st {
        Status::Error => {
            v.push(101);
            v.push(114);
            v.push(114);
            v.push(111);
            v.push(114);
        },
        Status::Success => {
            v.push(115);
            v.push(117);
            v.push(99);
            v.push(99);
            v.push(101);
            v.push(115);
            v.push(115);
        },
        Status::Pending => {
            v.push(112);
            v.push(101);
            v.push(110);
            v.push(100);
            v.push(105);
            v.push(110);
            v.push(103);
        },
    }
    proof {
        assert(v@ =~= spec_status_tag(st));
    }
    v
}

fn matches_lower(s: &[u8], tag: &Vec<u8>) -> (r: bool)
    ensures
        r <==> spec_lower_seq(s@) == tag@,
{
    if s.len() != tag.len() {
        return false;
    }
    let mut i: usize = 0;
    while i < s.len()
        invariant
            0 <= i <= s@.len(),
            s@.len() == tag@.len(),
            forall|k: int| 0 <= k < i ==> spec_lower(s@[k]) == tag@[k],
        decreases s@.len() - i,
    {
        if lower_byte(s[i]) != tag[i] {
            proof {
                assert(spec_lower_seq(s@)[i as int] != tag@[i as int]);
            }
            return false;
        }
        i += 1;
    }
    proof {
        assert(spec_lower_seq(s@) =~= tag@);
    }
    true
}

/// Case-insensitive parse of a status tag: exactly `error`, `success` or
/// `pending` in any letter case; anything else is invalid input.
pub fn parse_status(s: &[u8]) -> (r: Result<Status, ParseError>)
    ensures
        match r {
            Ok(st) => spec_lower_seq(s@) == spec_status_tag(st),
            Err(_) => forall|st: Status| spec_lower_seq(s@) != spec_status_tag(st),
        },
{
    if matches_lower(s, &tag_bytes(Status::Error)) {
        Ok(Status::Error)
    } else if matches_lower(s, &tag_bytes(Status::Success)) {
        Ok(Status::Success)
    } else if matches_lower(s, &tag_bytes(Status::Pending)) {
        Ok(Status::Pending)
    } else {
        Err(ParseError::InvalidInput)
    }
}

/// Relies on chrono's `Utc::now` and `DateTime::timestamp_millis`: reads the
/// system clock as milliseconds since the Unix epoch. The value depends on
/// the moment of the call, so nothing is promised of it.
#[verifier::external_body]
fn now_millis_raw() -> i64 {
    chrono::Utc::now().timestamp_millis()
}

impl Message {
    /// Builds an entry stamped with the current UTC time (clamped to the
    /// epoch if the clock reports an earlier instant). Never fails.
    pub fn new(status: Status, text: Vec<u8>) -> (m: Message)
        ensures
            m.status == status,
            m.text@ == text@,
    {
        let raw = now_millis_raw();
        let ts: u64 = if raw < 0 {
            0
        } else {
            raw as u64
        };
        Message { timestamp: ts, status, text }
    }

    /// Reverse-chronological comparison; see `spec_compare`.
    pub fn compare(&self, other: &Message) -> (r: Ordering)
        ensures
            r == spec_compare(self@, other@),
    {
        if self.timestamp > other.timestamp {
            Ordering::Less
        } else if self.timestamp == other.timestamp {
            Ordering::Equal
        } else {
            Ordering::Greater
        }
    }
}

/// Reverse order law: of two entries with distinct timestamps, the newer one
/// compares as less, i.e. comes first under this order.
pub proof fn lemma_compare_reverse_order(a: MessageView, b: MessageView)
    requires
        a.timestamp < b.timestamp,
    ensures
        spec_compare(b, a) == Ordering::Less,
        spec_compare(a, b) == Ordering::Greater,
{
}

/// The comparison is a strict total order consistent with timestamp equality:
/// equal exactly on equal timestamps, antisymmetric, transitive, and total.
pub proof fn lemma_compare_total_order(a: MessageView, b: MessageView, c: MessageView)
    ensures
        spec_compare(a, b) == Ordering::Equal <==> a.timestamp == b.timestamp,
        spec_compare(a, b) == Ordering::Less <==> spec_compare(b, a) == Ordering::Greater,
        spec_compare(a, b) == Ordering::Less && spec_compare(b, c) == Ordering::Less
            ==> spec_compare(a, c) == Ordering::Less,
{
}

} // verus!
