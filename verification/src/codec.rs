//! Line codec for the append-only log. Every entry is one JSON object on one
//! line: `{"timestamp":<millis>,"status":"<tag>","message":"<escaped text>"}`.
//! The timestamp is a canonical decimal, the tag is `error`, `success` or
//! `pending`, and every byte of the text that is a control byte, a quote or a
//! backslash is escaped as `\u00XX` with lower-case hex digits, so a record
//! never spans lines. Deserialization accepts exactly the lines this encoding
//! produces; the round trip is proved below.

use crate::message::{Message, MessageView, ParseError, Status, spec_status_tag};
use vstd::prelude::*;

verus! {

/// The bytes of `{"timestamp":`.
pub open spec fn pre_timestamp() -> Seq<u8> {
    seq![123u8, 34u8, 116u8, 105u8, 109u8, 101u8, 115u8, 116u8, 97u8, 109u8, 112u8, 34u8, 58u8]
}

/// The bytes of `,"status":"`.
pub open spec fn pre_status() -> Seq<u8> {
    seq![44u8, 34u8, 115u8, 116u8, 97u8, 116u8, 117u8, 115u8, 34u8, 58u8, 34u8]
}

/// The bytes of `","message":"`.
pub open spec fn pre_message() -> Seq<u8> {
    seq![34u8, 44u8, 34u8, 109u8, 101u8, 115u8, 115u8, 97u8, 103u8, 101u8, 34u8, 58u8, 34u8]
}

pub open spec fn is_digit(b: u8) -> bool {
    48 <= b && b <= 57
}

/// Canonical decimal digits of a number, most significant first.
pub open spec fn spec_dec(n: nat) -> Seq<u8>
    decreases n,
{
    if n < 10 {
        seq![(48 + n) as u8]
    } else {
        spec_dec(n / 10).push((48 + n % 10) as u8)
    }
}

/// The number a digit sequence denotes.
pub open spec fn spec_val(ds: Seq<u8>) -> nat
    decreases ds.len(),
{
    if ds.len() == 0 {
        0
    } else {
        spec_val(ds.drop_last()) * 10 + (ds.last() - 48) as nat
    }
}

/// Bytes that must be escaped inside the message field: control bytes, the
/// quote and the backslash.
pub open spec fn is_special(b: u8) -> bool {
    b < 32 || b == 34 || b == 92
}

/// Lower-case hex digit of a value below 16.
pub open spec fn hex_digit(d: nat) -> u8 {
    if d < 10 {
        (48 + d) as u8
    } else {
        (87 + d) as u8
    }
}

pub open spec fn is_lhex(b: u8) -> bool {
    (48 <= b && b <= 57) || (97 <= b && b <= 102)
}

pub open spec fn hex_val(b: u8) -> nat {
    if 48 <= b && b <= 57 {
        (b - 48) as nat
    } else {
        (b - 87) as nat
    }
}

/// Encoding of one text byte: itself, or `\u00XX` if it is special.
pub open spec fn spec_enc_byte(b: u8) -> Seq<u8> {
    if is_special(b) {
        seq![92u8, 117u8, 48u8, 48u8, hex_digit((b / 16) as nat), hex_digit((b % 16) as nat)]
    } else {
        seq![b]
    }
}

/// Encoding of the whole text.
pub open spec fn spec_esc(t: Seq<u8>) -> Seq<u8>
    decreases t.len(),
{
    if t.len() == 0 {
        seq![]
    } else {
        spec_enc_byte(t[0]) + spec_esc(t.skip(1))
    }
}

/// One serialized record, without the trailing newline.
pub open spec fn spec_serialize(m: MessageView) -> Seq<u8> {
    pre_timestamp() + spec_dec(m.timestamp as nat) + pre_status() + spec_status_tag(m.status)
        + pre_message() + spec_esc(m.text) + seq![34u8, 125u8]
}

/// Whether `p` occurs in `s` at position `i`.
pub open spec fn has_prefix_at(s: Seq<u8>, i: int, p: Seq<u8>) -> bool {
    0 <= i && i + p.len() <= s.len() && s.subrange(i, i + p.len()) == p
}

/// End of the digit run that starts at `i`.
pub open spec fn digits_end(s: Seq<u8>, i: int) -> int
    decreases s.len() - i,
{
    if i < 0 || i >= s.len() {
        i
    } else if is_digit(s[i]) {
        digits_end(s, i + 1)
    } else {
        i
    }
}

/// Reads escaped text from position `i` up to and including the closing
/// quote; yields the decoded bytes and the position after the quote. Accepts
/// exactly what `spec_esc` produces.
pub open spec fn spec_unesc(s: Seq<u8>, i: int) -> Option<(Seq<u8>, int)>
    decreases s.len() - i,
{
    if i < 0 || i >= s.len() {
        None
    } else if s[i] == 34 {
        Some((seq![], i + 1))
    } else if s[i] == 92 {
        if i + 6 <= s.len() && s[i + 1] == 117 && s[i + 2] == 48 && s[i + 3] == 48 && is_lhex(
            s[i + 4],
        ) && is_lhex(s[i + 5]) {
            let b = (16 * hex_val(s[i + 4]) + hex_val(s[i + 5])) as u8;
            if is_special(b) {
                match spec_unesc(s, i + 6) {
                    Some(p) => Some((seq![b] + p.0, p.1)),
                    None => None,
                }
            } else {
                None
            }
        } else {
            None
        }
    } else if s[i] < 32 {
        None
    } else {
        match spec_unesc(s, i + 1) {
            Some(p) => Some((seq![s[i]] + p.0, p.1)),
            None => None,
        }
    }
}

/// The status tag read at position `i`, with the position after it.
pub open spec fn spec_parse_status(s: Seq<u8>, i: int) -> Option<(Status, int)> {
    if has_prefix_at(s, i, spec_status_tag(Status::Error)) {
        Some((Status::Error, i + 5))
    } else if has_prefix_at(s, i, spec_status_tag(Status::Success)) {
        Some((Status::Success, i + 7))
    } else if has_prefix_at(s, i, spec_status_tag(Status::Pending)) {
        Some((Status::Pending, i + 7))
    } else {
        None
    }
}

/// The record a line denotes, if any. A line is accepted exactly when it is
/// the canonical encoding of one record.
pub open spec fn spec_deserialize(line: Seq<u8>) -> Option<MessageView> {
    if !has_prefix_at(line, 0, pre_timestamp()) {
        None
    } else {
        let i0 = pre_timestamp().len() as int;
        let e = digits_end(line, i0);
        if e == i0 {
            None
        } else if line[i0] == 48 && e > i0 + 1 {
            None
        } else if spec_val(line.subrange(i0, e)) > u64::MAX {
            None
        } else {
            let ts = spec_val(line.subrange(i0, e)) as u64;
            if !has_prefix_at(line, e, pre_status()) {
                None
            } else {
                match spec_parse_status(line, e + pre_status().len()) {
                    None => None,
                    Some((st, p)) => {
                        if !has_prefix_at(line, p, pre_message()) {
                            None
                        } else {
                            match spec_unesc(line, p + pre_message().len()) {
                                None => None,
                                Some((text, j)) => {
                                    if j == line.len() - 1 && line[j] == 125 {
                                        Some(MessageView { timestamp: ts, status: st, text })
                                    } else {
                                        None
                                    }
                                },
                            }
                        }
                    },
                }
            }
        }
    }
}

proof fn lemma_dec_props(n: nat)
    ensures
        spec_dec(n).len() >= 1,
        forall|i: int| 0 <= i < spec_dec(n).len() ==> is_digit(#[trigger] spec_dec(n)[i]),
        n > 0 ==> spec_dec(n)[0] != 48,
        spec_val(spec_dec(n)) == n,
    decreases n,
{
    if n < 10 {
        assert(spec_dec(n) =~= seq![(48 + n) as u8]);
        assert(spec_val(spec_dec(n)) == spec_val(seq![(48 + n) as u8].drop_last()) * 10 + n);
    } else {
        lemma_dec_props(n / 10);
        let d = spec_dec(n / 10);
        let full = d.push((48 + n % 10) as u8);
        assert(full.drop_last() =~= d);
        assert(full[0] == d[0]);
        assert(n / 10 > 0);
        assert(spec_val(full) == spec_val(d) * 10 + n % 10);
        assert(spec_val(d) * 10 + n % 10 == n) by {
            assert(n == (n / 10) * 10 + n % 10);
        }
        assert(forall|i: int|
            0 <= i < full.len() ==> is_digit(#[trigger] full[i])) by {
            assert(forall|i: int| 0 <= i < d.len() ==> is_digit(#[trigger] d[i]));
        }
    }
}

proof fn lemma_digits_end_of(s: Seq<u8>, i: int, j: int)
    requires
        0 <= i <= j <= s.len(),
        forall|k: int| i <= k < j ==> is_digit(#[trigger] s[k]),
        j == s.len() || !is_digit(s[j]),
    ensures
        digits_end(s, i) == j,
    decreases j - i,
{
    if i < j {
        lemma_digits_end_of(s, i + 1, j);
    }
}

/// Each digit added on the right can only grow the denoted number.
proof fn lemma_val_take_monotone(ds: Seq<u8>, j: int)
    requires
        0 <= j <= ds.len(),
        forall|k: int| 0 <= k < ds.len() ==> is_digit(#[trigger] ds[k]),
    ensures
        spec_val(ds.take(j)) <= spec_val(ds),
    decreases ds.len() - j,
{
    if j == ds.len() {
        assert(ds.take(j) =~= ds);
    } else {
        let t = ds.take(j + 1);
        assert(t.drop_last() =~= ds.take(j));
        assert(t.last() == ds[j]);
        assert(spec_val(ds.take(j)) <= spec_val(t));
        lemma_val_take_monotone(ds, j + 1);
    }
}

proof fn lemma_esc_push(t: Seq<u8>, x: u8)
    ensures
        spec_esc(t.push(x)) == spec_esc(t) + spec_enc_byte(x),
    decreases t.len(),
{
    let u = t.push(x);
    if t.len() == 0 {
        assert(u[0] == x);
        assert(u.skip(1) =~= Seq::<u8>::empty());
        assert(spec_esc(u) == spec_enc_byte(x) + spec_esc(u.skip(1)));
        assert(spec_esc(u.skip(1)) == Seq::<u8>::empty());
        assert(spec_esc(t) == Seq::<u8>::empty());
        assert(spec_enc_byte(x) + Seq::<u8>::empty() =~= Seq::<u8>::empty() + spec_enc_byte(x));
    } else {
        lemma_esc_push(t.skip(1), x);
        assert(u[0] == t[0]);
        assert(u.skip(1) =~= t.skip(1).push(x));
        assert(spec_esc(u) == spec_enc_byte(u[0]) + spec_esc(u.skip(1)));
        assert(spec_esc(t) == spec_enc_byte(t[0]) + spec_esc(t.skip(1)));
        assert(spec_enc_byte(t[0]) + (spec_esc(t.skip(1)) + spec_enc_byte(x)) =~= (spec_enc_byte(
            t[0],
        ) + spec_esc(t.skip(1))) + spec_enc_byte(x));
    }
}

/// The escape encoding never produces a newline, so a record sits on one line.
proof fn lemma_esc_no_newline(t: Seq<u8>)
    ensures
        forall|i: int| 0 <= i < spec_esc(t).len() ==> #[trigger] spec_esc(t)[i] != 10,
    decreases t.len(),
{
    if t.len() == 0 {
        assert(spec_esc(t) == Seq::<u8>::empty());
    } else {
        lemma_esc_no_newline(t.skip(1));
        let eb = spec_enc_byte(t[0]);
        let er = spec_esc(t.skip(1));
        assert(spec_esc(t) == eb + er);
        assert(forall|i: int| 0 <= i < eb.len() ==> #[trigger] eb[i] != 10) by {
            if is_special(t[0]) {
                assert(eb[0] == 92 && eb[1] == 117 && eb[2] == 48 && eb[3] == 48);
                assert(eb[4] == hex_digit((t[0] / 16) as nat));
                assert(eb[5] == hex_digit((t[0] % 16) as nat));
                assert(hex_digit((t[0] / 16) as nat) >= 48);
                assert(hex_digit((t[0] % 16) as nat) >= 48);
            } else {
                assert(eb[0] == t[0] && t[0] >= 32);
            }
        }
        assert forall|i: int| 0 <= i < spec_esc(t).len() implies #[trigger] spec_esc(t)[i]
            != 10 by {
            if i < eb.len() {
                assert(spec_esc(t)[i] == eb[i]);
            } else {
                assert(spec_esc(t)[i] == er[i - eb.len()]);
            }
        }
    }
}

/// Reading escaped text back: `spec_unesc` inverts `spec_esc` wherever the
/// encoding stands in a larger sequence followed by the closing quote.
proof fn lemma_unesc_esc(t: Seq<u8>, s: Seq<u8>, i: int)
    requires
        0 <= i,
        i + spec_esc(t).len() + 1 <= s.len(),
        forall|k: int| 0 <= k < spec_esc(t).len() ==> s[i + k] == #[trigger] spec_esc(t)[k],
        s[i + spec_esc(t).len()] == 34,
    ensures
        spec_unesc(s, i) == Some((t, i + spec_esc(t).len() + 1)),
    decreases t.len(),
{
    let e = spec_esc(t);
    if t.len() == 0 {
        assert(e == Seq::<u8>::empty());
        assert(s[i] == 34);
        assert(spec_unesc(s, i) == Some((Seq::<u8>::empty(), i + 1)));
        assert(t =~= Seq::<u8>::empty());
    } else {
        let b = t[0];
        let rest = t.skip(1);
        let eb = spec_enc_byte(b);
        let er = spec_esc(rest);
        assert(e == eb + er);
        let i2 = i + eb.len();
        assert forall|k: int| 0 <= k < er.len() implies s[i2 + k] == #[trigger] er[k] by {
            assert(e[eb.len() + k] == er[k]);
            assert(s[i + (eb.len() + k)] == e[eb.len() + k]);
        }
        assert(s[i2 + er.len()] == 34) by {
            assert(i2 + er.len() == i + e.len());
        }
        lemma_unesc_esc(rest, s, i2);
        if is_special(b) {
            assert(eb[0] == 92 && eb[1] == 117 && eb[2] == 48 && eb[3] == 48);
            assert(eb[4] == hex_digit((b / 16) as nat));
            assert(eb[5] == hex_digit((b % 16) as nat));
            assert(e[0] == eb[0] && e[1] == eb[1] && e[2] == eb[2] && e[3] == eb[3] && e[4]
                == eb[4] && e[5] == eb[5]);
            assert(s[i + 0] == e[0] && s[i + 1] == e[1] && s[i + 2] == e[2] && s[i + 3] == e[3]
                && s[i + 4] == e[4] && s[i + 5] == e[5]);
            assert(is_lhex(hex_digit((b / 16) as nat)));
            assert(is_lhex(hex_digit((b % 16) as nat)));
            assert(hex_val(hex_digit((b / 16) as nat)) == (b / 16) as nat);
            assert(hex_val(hex_digit((b % 16) as nat)) == (b % 16) as nat);
            assert(16 * ((b / 16) as nat) + ((b % 16) as nat) == b);
            assert((16 * hex_val(s[i + 4]) + hex_val(s[i + 5])) as u8 == b);
            assert(i + 6 <= s.len());
            assert(s[i] != 34);
            assert(spec_unesc(s, i) == Some((seq![b] + rest, i + e.len() + 1)));
            assert(seq![b] + rest =~= t);
        } else {
            assert(eb[0] == b);
            assert(e[0] == eb[0]);
            assert(s[i + 0] == e[0]);
            assert(s[i] == b);
            assert(b != 34 && b != 92 && b >= 32);
            assert(spec_unesc(s, i) == Some((seq![b] + rest, i + e.len() + 1)));
            assert(seq![b] + rest =~= t);
        }
    }
}

/// Round trip at the level of the models: deserializing a serialized record
/// yields the record back, for every record.
pub proof fn lemma_round_trip(m: MessageView)
    ensures
        spec_deserialize(spec_serialize(m)) == Some(m),
{
    let line = spec_serialize(m);
    let d = spec_dec(m.timestamp as nat);
    let tag = spec_status_tag(m.status);
    let e = spec_esc(m.text);
    let i0 = pre_timestamp().len() as int;
    let e0 = i0 + d.len();
    let p0 = e0 + pre_status().len();
    let p1 = p0 + tag.len();
    let q = p1 + pre_message().len();
    lemma_dec_props(m.timestamp as nat);

    assert(line.len() == q + e.len() + 2);
    assert(forall|k: int| 0 <= k < i0 ==> line[k] == #[trigger] pre_timestamp()[k]);
    assert(forall|k: int| 0 <= k < d.len() ==> line[i0 + k] == #[trigger] d[k]);
    assert(forall|k: int| 0 <= k < pre_status().len() ==> line[e0 + k] == #[trigger] pre_status()[k]);
    assert(forall|k: int| 0 <= k < tag.len() ==> line[p0 + k] == #[trigger] tag[k]);
    assert(forall|k: int|
        0 <= k < pre_message().len() ==> line[p1 + k] == #[trigger] pre_message()[k]);
    assert(forall|k: int| 0 <= k < e.len() ==> line[q + k] == #[trigger] e[k]);
    assert(line[q + e.len()] == 34);
    assert(line[q + e.len() + 1] == 125);

    assert(has_prefix_at(line, 0, pre_timestamp())) by {
        assert(line.subrange(0, i0) =~= pre_timestamp());
    }
    assert(digits_end(line, i0) == e0) by {
        assert(line[e0] == pre_status()[0]);
        assert(!is_digit(line[e0]));
        lemma_digits_end_of(line, i0, e0);
    }
    assert(line.subrange(i0, e0) =~= d);
    assert(spec_val(line.subrange(i0, e0)) == m.timestamp as nat);
    assert(e0 > i0 + 1 ==> line[i0] != 48) by {
        if d.len() > 1 {
            assert(m.timestamp as nat >= 10) by {
                if (m.timestamp as nat) < 10 {
                    assert(d.len() == 1);
                }
            }
        }
    }
    assert(has_prefix_at(line, e0, pre_status())) by {
        assert(line.subrange(e0, e0 + pre_status().len()) =~= pre_status());
    }
    assert(has_prefix_at(line, p0, tag)) by {
        assert(line.subrange(p0, p0 + tag.len()) =~= tag);
    }
    assert(spec_parse_status(line, p0) == Some((m.status, p1))) by {
        match m.status {
            Status::Error => {},
            Status::Success => {
                assert(line[p0] == 115);
                assert(!has_prefix_at(line, p0, spec_status_tag(Status::Error))) by {
                    if has_prefix_at(line, p0, spec_status_tag(Status::Error)) {
                        assert(line.subrange(p0, p0 + 5)[0] == 101);
                    }
                }
            },
            Status::Pending => {
                assert(line[p0] == 112);
                assert(!has_prefix_at(line, p0, spec_status_tag(Status::Error))) by {
                    if has_prefix_at(line, p0, spec_status_tag(Status::Error)) {
                        assert(line.subrange(p0, p0 + 5)[0] == 101);
                    }
                }
                assert(!has_prefix_at(line, p0, spec_status_tag(Status::Success))) by {
                    if has_prefix_at(line, p0, spec_status_tag(Status::Success)) {
                        assert(line.subrange(p0, p0 + 7)[0] == 115);
                    }
                }
            },
        }
    }
    assert(has_prefix_at(line, p1, pre_message())) by {
        assert(line.subrange(p1, p1 + pre_message().len()) =~= pre_message());
    }
    assert(spec_unesc(line, q) == Some((m.text, q + e.len() + 1))) by {
        lemma_unesc_esc(m.text, line, q);
    }
    assert(q + e.len() + 1 == line.len() - 1);
    assert(spec_deserialize(line) == Some(
        MessageView { timestamp: m.timestamp, status: m.status, text: m.text },
    ));
    assert(MessageView { timestamp: m.timestamp, status: m.status, text: m.text } =~= m);
}

proof fn lemma_digits_end_range(s: Seq<u8>, i: int)
    requires
        0 <= i <= s.len(),
    ensures
        i <= digits_end(s, i) <= s.len(),
        forall|k: int| i <= k < digits_end(s, i) ==> is_digit(#[trigger] s[k]),
        digits_end(s, i) == s.len() || !is_digit(s[digits_end(s, i)]),
    decreases s.len() - i,
{
    if i < s.len() && is_digit(s[i]) {
        lemma_digits_end_range(s, i + 1);
    }
}

proof fn lemma_val_pos(ds: Seq<u8>)
    requires
        ds.len() >= 1,
        forall|k: int| 0 <= k < ds.len() ==> is_digit(#[trigger] ds[k]),
        ds[0] != 48,
    ensures
        spec_val(ds) >= 1,
    decreases ds.len(),
{
    if ds.len() == 1 {
        assert(spec_val(ds) == spec_val(ds.drop_last()) * 10 + (ds.last() - 48) as nat);
        assert(ds.last() == ds[0]);
        assert(ds.drop_last() =~= Seq::<u8>::empty());
    } else {
        let dsp = ds.drop_last();
        assert(dsp[0] == ds[0]);
        assert(forall|k: int| 0 <= k < dsp.len() ==> is_digit(#[trigger] dsp[k]));
        lemma_val_pos(dsp);
    }
}

/// Canonical digits are the digits of their value.
proof fn lemma_dec_of_val(ds: Seq<u8>)
    requires
        ds.len() >= 1,
        forall|k: int| 0 <= k < ds.len() ==> is_digit(#[trigger] ds[k]),
        ds.len() > 1 ==> ds[0] != 48,
    ensures
        spec_dec(spec_val(ds)) == ds,
    decreases ds.len(),
{
    if ds.len() == 1 {
        assert(ds.drop_last() =~= Seq::<u8>::empty());
        assert(ds.last() == ds[0]);
        assert(spec_val(ds) == spec_val(ds.drop_last()) * 10 + (ds.last() - 48) as nat);
        assert(spec_val(ds) == (ds[0] - 48) as nat);
        assert(spec_val(ds) < 10);
        assert(spec_dec(spec_val(ds)) =~= ds);
    } else {
        let dsp = ds.drop_last();
        assert(dsp[0] == ds[0]);
        assert(forall|k: int| 0 <= k < dsp.len() ==> is_digit(#[trigger] dsp[k]));
        lemma_val_pos(dsp);
        lemma_dec_of_val(dsp);
        let v = spec_val(ds);
        let r = (ds.last() - 48) as nat;
        assert(v == spec_val(dsp) * 10 + r);
        assert(r < 10);
        assert(v >= 10);
        assert(v / 10 == spec_val(dsp) && v % 10 == r);
        assert(spec_dec(v) == spec_dec(v / 10).push((48 + v % 10) as u8));
        assert(spec_dec(v) =~= ds);
    }
}

/// What `spec_unesc` reads back is the escape encoding of its result.
proof fn lemma_unesc_inverts(s: Seq<u8>, i: int)
    requires
        spec_unesc(s, i) is Some,
    ensures
        ({
            let (t, j) = spec_unesc(s, i).unwrap();
            &&& i + spec_esc(t).len() + 1 == j
            &&& 0 <= i < j <= s.len()
            &&& s.subrange(i, j) == spec_esc(t) + seq![34u8]
        }),
    decreases s.len() - i,
{
    let (t, j) = spec_unesc(s, i).unwrap();
    if s[i] == 34 {
        assert(t =~= Seq::<u8>::empty());
        assert(spec_esc(t) == Seq::<u8>::empty());
        assert(s.subrange(i, i + 1) =~= spec_esc(t) + seq![34u8]);
    } else if s[i] == 92 {
        let h1 = hex_val(s[i + 4]);
        let h2 = hex_val(s[i + 5]);
        let b = (16 * h1 + h2) as u8;
        lemma_unesc_inverts(s, i + 6);
        let (t2, j2) = spec_unesc(s, i + 6).unwrap();
        assert(t == seq![b] + t2 && j == j2);
        assert(t[0] == b);
        assert(t.skip(1) =~= t2);
        assert(spec_esc(t) == spec_enc_byte(b) + spec_esc(t2));
        assert(h1 <= 15 && h2 <= 15);
        assert(16 * h1 + h2 <= 255);
        assert((b / 16) as nat == h1 && (b % 16) as nat == h2);
        assert(hex_digit(h1) == s[i + 4]);
        assert(hex_digit(h2) == s[i + 5]);
        assert(spec_enc_byte(b) =~= s.subrange(i, i + 6));
        assert(s.subrange(i, j) =~= s.subrange(i, i + 6) + s.subrange(i + 6, j));
        assert(spec_esc(t) + seq![34u8] =~= spec_enc_byte(b) + (spec_esc(t2) + seq![34u8]));
        assert(s.subrange(i, j) =~= spec_esc(t) + seq![34u8]);
    } else {
        let b = s[i];
        lemma_unesc_inverts(s, i + 1);
        let (t2, j2) = spec_unesc(s, i + 1).unwrap();
        assert(t == seq![b] + t2 && j == j2);
        assert(t[0] == b);
        assert(t.skip(1) =~= t2);
        assert(!is_special(b));
        assert(spec_esc(t) == spec_enc_byte(b) + spec_esc(t2));
        assert(spec_enc_byte(b) =~= s.subrange(i, i + 1));
        assert(s.subrange(i, j) =~= s.subrange(i, i + 1) + s.subrange(i + 1, j));
        assert(spec_esc(t) + seq![34u8] =~= spec_enc_byte(b) + (spec_esc(t2) + seq![34u8]));
        assert(s.subrange(i, j) =~= spec_esc(t) + seq![34u8]);
    }
}

/// Deserialization is sound for the encoding: a line that yields an entry is
/// exactly that entry's serialization.
#[verifier::rlimit(100)]
pub proof fn lemma_deserialize_sound(line: Seq<u8>, v: MessageView)
    requires
        spec_deserialize(line) == Some(v),
    ensures
        line == spec_serialize(v),
{
    let i0 = pre_timestamp().len() as int;
    let e = digits_end(line, i0);
    lemma_digits_end_range(line, i0);
    let ds = line.subrange(i0, e);
    assert(forall|k: int| 0 <= k < ds.len() ==> is_digit(#[trigger] ds[k]));
    assert(ds.len() > 1 ==> ds[0] != 48);
    lemma_dec_of_val(ds);
    assert(v.timestamp as nat == spec_val(ds));
    assert(spec_dec(v.timestamp as nat) == ds);
    let p0 = e + pre_status().len();
    let tag = spec_status_tag(v.status);
    let p = p0 + tag.len();
    assert(spec_parse_status(line, p0) == Some((v.status, p))) by {
        match v.status {
            Status::Error => {},
            Status::Success => {},
            Status::Pending => {},
        }
    }
    assert(line.subrange(p0, p) == tag);
    let q = p + pre_message().len();
    lemma_unesc_inverts(line, q);
    let (text, j) = spec_unesc(line, q).unwrap();
    assert(text == v.text);
    assert(j == line.len() - 1 && line[j] == 125);
    assert(line.subrange(q, j) == spec_esc(v.text) + seq![34u8]);
    assert(line =~= line.subrange(0, i0) + ds + line.subrange(e, p0) + line.subrange(p0, p)
        + line.subrange(p, q) + line.subrange(q, j) + seq![125u8]) by {
        assert(line[line.len() - 1] == 125);
    }
    assert(line.subrange(0, i0) == pre_timestamp());
    assert(line.subrange(e, p0) == pre_status());
    assert(line.subrange(p, q) == pre_message());
    assert(spec_serialize(v) =~= pre_timestamp() + ds + pre_status() + tag + pre_message() + (
    spec_esc(v.text) + seq![34u8]) + seq![125u8]);
    assert(line =~= spec_serialize(v));
}

/// The codec is exact: a line deserializes to an entry precisely when it is
/// that entry's serialization, so a parse error comes on a line exactly when
/// the line is no serialized record.
pub proof fn lemma_codec_exact(line: Seq<u8>, v: MessageView)
    ensures
        spec_deserialize(line) == Some(v) <==> line == spec_serialize(v),
{
    if spec_deserialize(line) == Some(v) {
        lemma_deserialize_sound(line, v);
    }
    if line == spec_serialize(v) {
        lemma_round_trip(v);
    }
}

/// A serialized record never holds a newline, so one record is one line.
pub proof fn lemma_serialize_no_newline(v: MessageView)
    ensures
        forall|i: int|
            0 <= i < spec_serialize(v).len() ==> #[trigger] spec_serialize(v)[i] != 10,
{
    let line = spec_serialize(v);
    let d = spec_dec(v.timestamp as nat);
    let tag = spec_status_tag(v.status);
    let e = spec_esc(v.text);
    lemma_dec_props(v.timestamp as nat);
    lemma_esc_no_newline(v.text);
    assert(forall|k: int| 0 <= k < pre_timestamp().len() ==> #[trigger] pre_timestamp()[k] != 10);
    assert(forall|k: int| 0 <= k < pre_status().len() ==> #[trigger] pre_status()[k] != 10);
    assert(forall|k: int| 0 <= k < pre_message().len() ==> #[trigger] pre_message()[k] != 10);
    assert(forall|k: int| 0 <= k < tag.len() ==> #[trigger] tag[k] != 10) by {
        match v.status {
            Status::Error => {},
            Status::Success => {},
            Status::Pending => {},
        }
    }
    assert(forall|k: int| 0 <= k < d.len() ==> #[trigger] d[k] != 10);
    let i0 = pre_timestamp().len() as int;
    let e0 = i0 + d.len();
    let p0 = e0 + pre_status().len();
    let p1 = p0 + tag.len();
    let q = p1 + pre_message().len();
    assert forall|i: int| 0 <= i < line.len() implies #[trigger] line[i] != 10 by {
        if i < i0 {
            assert(line[i] == pre_timestamp()[i]);
        } else if i < e0 {
            assert(line[i] == d[i - i0]);
        } else if i < p0 {
            assert(line[i] == pre_status()[i - e0]);
        } else if i < p1 {
            assert(line[i] == tag[i - p0]);
        } else if i < q {
            assert(line[i] == pre_message()[i - p1]);
        } else if i < q + e.len() {
            assert(line[i] == e[i - q]);
        } else if i == q + e.len() {
            assert(line[i] == 34);
        } else {
            assert(line[i] == 125);
        }
    }
}

fn pre_timestamp_bytes() -> (r: Vec<u8>)
    ensures
        r@ == pre_timestamp(),
{
    let mut v: Vec<u8> = Vec::new();
    v.push(123);
    v.push(34);
    v.push(116);
    v.push(105);
    v.push(109);
    v.push(101);
    v.push(115);
    v.push(116);
    v.push(97);
    v.push(109);
    v.push(112);
    v.push(34);
    v.push(58);
    proof {
        assert(v@ =~= pre_timestamp());
    }
    v
}

fn pre_status_bytes() -> (r: Vec<u8>)
    ensures
        r@ == pre_status(),
{
    let mut v: Vec<u8> = Vec::new();
    v.push(44);
    v.push(34);
    v.push(115);
    v.push(116);
    v.push(97);
    v.push(116);
    v.push(117);
    v.push(115);
    v.push(34);
    v.push(58);
    v.push(34);
    proof {
        assert(v@ =~= pre_status());
    }
    v
}

fn pre_message_bytes() -> (r: Vec<u8>)
    ensures
        r@ == pre_message(),
{
    let mut v: Vec<u8> = Vec::new();
    v.push(34);
    v.push(44);
    v.push(34);
    v.push(109);
    v.push(101);
    v.push(115);
    v.push(115);
    v.push(97);
    v.push(103);
    v.push(101);
    v.push(34);
    v.push(58);
    v.push(34);
    proof {
        assert(v@ =~= pre_message());
    }
    v
}

/// Canonical decimal digits of `n`.
fn dec_bytes(n: u64) -> (r: Vec<u8>)
    ensures
        r@ == spec_dec(n as nat),
{
    let mut tmp: Vec<u8> = Vec::new();
    let mut m: u64 = n;
    while m >= 10
        invariant
            spec_dec(n as nat) == spec_dec(m as nat) + tmp@.reverse(),
        decreases m,
    {
        let d: u8 = (m % 10) as u8 + 48;
        proof {
            let old_tmp = tmp@;
            assert(spec_dec(m as nat) == spec_dec((m as nat) / 10).push(
                (48 + (m as nat) % 10) as u8,
            ));
            assert(old_tmp.push(d).reverse() =~= seq![d] + old_tmp.reverse());
            assert(spec_dec((m as nat) / 10) + (seq![d] + old_tmp.reverse()) =~= spec_dec(m as nat)
                + old_tmp.reverse());
        }
        tmp.push(d);
        m = m / 10;
    }
    let mut r: Vec<u8> = Vec::new();
    r.push((m as u8) + 48);
    proof {
        assert(spec_dec(m as nat) =~= seq![(48 + m as nat) as u8]);
        assert(r@ =~= spec_dec(m as nat));
    }
    while tmp.len() > 0
        invariant
            spec_dec(n as nat) == r@ + tmp@.reverse(),
        decreases tmp.len(),
    {
        proof {
            let t = tmp@;
            assert(t.reverse() =~= seq![t.last()] + t.drop_last().reverse());
        }
        let d = tmp.pop().unwrap();
        r.push(d);
        proof {
            assert(spec_dec(n as nat) =~= r@ + tmp@.reverse());
        }
    }
    proof {
        assert(tmp@.reverse() =~= Seq::<u8>::empty());
        assert(r@ =~= spec_dec(n as nat));
    }
    r
}

fn hex_digit_byte(d: u8) -> (r: u8)
    requires
        d < 16,
    ensures
        r == hex_digit(d as nat),
{
    if d < 10 {
        48 + d
    } else {
        87 + d
    }
}

/// The escaped form of the text bytes.
fn esc_bytes(t: &Vec<u8>) -> (r: Vec<u8>)
    ensures
        r@ == spec_esc(t@),
{
    let mut r: Vec<u8> = Vec::new();
    let mut i: usize = 0;
    while i < t.len()
        invariant
            0 <= i <= t@.len(),
            r@ == spec_esc(t@.take(i as int)),
        decreases t@.len() - i,
    {
        let b = t[i];
        proof {
            assert(t@.take(i + 1).drop_last() =~= t@.take(i as int));
            assert(t@.take(i + 1) =~= t@.take(i as int).push(b));
            lemma_esc_push(t@.take(i as int), b);
        }
        if b < 32 || b == 34 || b == 92 {
            r.push(92);
            r.push(117);
            r.push(48);
            r.push(48);
            r.push(hex_digit_byte(b / 16));
            r.push(hex_digit_byte(b % 16));
            proof {
                assert(r@ =~= spec_esc(t@.take(i as int)) + spec_enc_byte(b));
            }
        } else {
            r.push(b);
            proof {
                assert(r@ =~= spec_esc(t@.take(i as int)) + spec_enc_byte(b));
            }
        }
        i += 1;
    }
    proof {
        assert(t@.take(t@.len() as int) =~= t@);
    }
    r
}

/// Serializes one entry to its log line (without the newline).
pub fn serialize(m: &Message) -> (out: Vec<u8>)
    ensures
        out@ == spec_serialize(m@),
{
    let mut out: Vec<u8> = Vec::new();
    let p1 = pre_timestamp_bytes();
    out.extend_from_slice(p1.as_slice());
    let d = dec_bytes(m.timestamp);
    out.extend_from_slice(d.as_slice());
    let p2 = pre_status_bytes();
    out.extend_from_slice(p2.as_slice());
    let tag = crate::message::tag_bytes(m.status);
    out.extend_from_slice(tag.as_slice());
    let p3 = pre_message_bytes();
    out.extend_from_slice(p3.as_slice());
    let e = esc_bytes(&m.text);
    out.extend_from_slice(e.as_slice());
    out.push(34);
    out.push(125);
    proof {
        assert(out@ =~= spec_serialize(m@));
    }
    out
}

fn expect_prefix(line: &[u8], i: usize, p: &Vec<u8>) -> (r: bool)
    ensures
        r <==> has_prefix_at(line@, i as int, p@),
{
    if line.len() < i || line.len() - i < p.len() {
        return false;
    }
    let mut k: usize = 0;
    while k < p.len()
        invariant
            0 <= k <= p@.len(),
            i + p@.len() <= line@.len(),
            line@.len() <= usize::MAX,
            forall|j: int| 0 <= j < k ==> line@[i + j] == #[trigger] p@[j],
        decreases p@.len() - k,
    {
        if line[i + k] != p[k] {
            proof {
                assert(line@.subrange(i as int, i + p@.len())[k as int] != p@[k as int]);
            }
            return false;
        }
        k += 1;
    }
    proof {
        assert(line@.subrange(i as int, i + p@.len()) =~= p@);
    }
    true
}

fn is_lhex_byte(b: u8) -> (r: bool)
    ensures
        r == is_lhex(b),
{
    (48 <= b && b <= 57) || (97 <= b && b <= 102)
}

fn hex_val_byte(b: u8) -> (r: u8)
    requires
        is_lhex(b),
    ensures
        r as nat == hex_val(b),
        r < 16,
{
    if b <= 57 {
        b - 48
    } else {
        b - 87
    }
}

spec fn unesc_then(pre: Seq<u8>, r: Option<(Seq<u8>, int)>) -> Option<(Seq<u8>, int)> {
    match r {
        Some(p) => Some((pre + p.0, p.1)),
        None => None,
    }
}

proof fn lemma_unesc_then_assoc(a: Seq<u8>, b: Seq<u8>, r: Option<(Seq<u8>, int)>)
    ensures
        unesc_then(a, unesc_then(b, r)) == unesc_then(a + b, r),
{
    match r {
        Some(p) => {
            assert(a + (b + p.0) =~= (a + b) + p.0);
        },
        None => {},
    }
}

fn unescape_text(line: &[u8], q: usize) -> (r: Result<(Vec<u8>, usize), ParseError>)
    ensures
        match r {
            Ok(p) => spec_unesc(line@, q as int) == Some((p.0@, p.1 as int)) && p.1
                <= line@.len(),
            Err(_) => spec_unesc(line@, q as int) is None,
        },
{
    let mut text: Vec<u8> = Vec::new();
    let mut i: usize = q;
    loop
        invariant
            q <= i,
            spec_unesc(line@, q as int) == unesc_then(text@, spec_unesc(line@, i as int)),
        decreases line@.len() - i,
    {
        if i >= line.len() {
            return Err(ParseError::InvalidInput);
        }
        let b = line[i];
        if b == 34 {
            proof {
                assert(spec_unesc(line@, i as int) == Some((Seq::<u8>::empty(), i + 1)));
                assert(text@ + Seq::<u8>::empty() =~= text@);
            }
            return Ok((text, i + 1));
        }
        if b == 92 {
            if line.len() - i >= 6 && line[i + 1] == 117 && line[i + 2] == 48 && line[i + 3] == 48
                && is_lhex_byte(line[i + 4]) && is_lhex_byte(line[i + 5]) {
                let v = 16 * hex_val_byte(line[i + 4]) + hex_val_byte(line[i + 5]);
                if v < 32 || v == 34 || v == 92 {
                    proof {
                        assert(spec_unesc(line@, i as int) == unesc_then(
                            seq![v],
                            spec_unesc(line@, i + 6),
                        ));
                        lemma_unesc_then_assoc(text@, seq![v], spec_unesc(line@, i + 6));
                        assert(text@.push(v) =~= text@ + seq![v]);
                    }
                    text.push(v);
                    i += 6;
                } else {
                    return Err(ParseError::InvalidInput);
                }
            } else {
                return Err(ParseError::InvalidInput);
            }
        } else if b < 32 {
            return Err(ParseError::InvalidInput);
        } else {
            proof {
                assert(spec_unesc(line@, i as int) == unesc_then(
                    seq![b],
                    spec_unesc(line@, i + 1),
                ));
                lemma_unesc_then_assoc(text@, seq![b], spec_unesc(line@, i + 1));
                assert(text@.push(b) =~= text@ + seq![b]);
            }
            text.push(b);
            i += 1;
        }
    }
}

/// Deserializes one log line. Returns the entry exactly when the line is the
/// canonical encoding of one; any other line is invalid input.
#[verifier::loop_isolation(false)]
pub fn deserialize(line: &[u8]) -> (r: Result<Message, ParseError>)
    ensures
        match r {
            Ok(m) => spec_deserialize(line@) == Some(m@),
            Err(_) => spec_deserialize(line@) is None,
        },
{
    let p1 = pre_timestamp_bytes();
    if !expect_prefix(line, 0, &p1) {
        return Err(ParseError::InvalidInput);
    }
    let i0: usize = p1.len();
    let mut e: usize = i0;
    while e < line.len() && line[e] >= 48 && line[e] <= 57
        invariant
            i0 <= e <= line@.len(),
            digits_end(line@, i0 as int) == digits_end(line@, e as int),
            forall|k: int| i0 <= k < e ==> is_digit(#[trigger] line@[k]),
        decreases line@.len() - e,
    {
        e += 1;
    }
    proof {
        assert(digits_end(line@, e as int) == e as int);
    }
    if e == i0 {
        return Err(ParseError::InvalidInput);
    }
    if line[i0] == 48 && e > i0 + 1 {
        return Err(ParseError::InvalidInput);
    }
    let ghost digits = line@.subrange(i0 as int, e as int);
    let mut acc: u128 = 0;
    let mut k: usize = i0;
    while k < e
        invariant
            i0 <= k <= e <= line@.len(),
            digits == line@.subrange(i0 as int, e as int),
            forall|j: int| i0 <= j < e ==> is_digit(#[trigger] line@[j]),
            acc as nat == spec_val(digits.take(k - i0)),
            acc <= u64::MAX as u128,
        decreases e - k,
    {
        let d = line[k] - 48;
        proof {
            let t = digits.take(k - i0 + 1);
            assert(t.drop_last() =~= digits.take(k - i0));
            assert(t.last() == line@[k as int]);
            assert(spec_val(t) == spec_val(digits.take(k - i0)) * 10 + d as nat);
        }
        acc = acc * 10 + d as u128;
        k += 1;
        if acc > u64::MAX as u128 {
            proof {
                assert(forall|j: int| 0 <= j < digits.len() ==> is_digit(#[trigger] digits[j]));
                lemma_val_take_monotone(digits, k - i0);
                assert(digits.take(digits.len() as int) =~= digits);
                assert(spec_val(digits) > u64::MAX);
            }
            return Err(ParseError::InvalidInput);
        }
    }
    proof {
        assert(digits.take(digits.len() as int) =~= digits);
        assert(acc as nat == spec_val(digits));
    }
    let ts: u64 = acc as u64;
    let p2 = pre_status_bytes();
    if !expect_prefix(line, e, &p2) {
        return Err(ParseError::InvalidInput);
    }
    let t0 = e + p2.len();
    let st: Status;
    let p: usize;
    if expect_prefix(line, t0, &crate::message::tag_bytes(Status::Error)) {
        st = Status::Error;
        p = t0 + 5;
    } else if expect_prefix(line, t0, &crate::message::tag_bytes(Status::Success)) {
        st = Status::Success;
        p = t0 + 7;
    } else if expect_prefix(line, t0, &crate::message::tag_bytes(Status::Pending)) {
        st = Status::Pending;
        p = t0 + 7;
    } else {
        return Err(ParseError::InvalidInput);
    }
    let p3 = pre_message_bytes();
    if !expect_prefix(line, p, &p3) {
        return Err(ParseError::InvalidInput);
    }
    let q = p + p3.len();
    match unescape_text(line, q) {
        Err(err) => Err(err),
        Ok((text, j)) => {
            if j < line.len() && line.len() - j == 1 && line[j] == 125 {
                proof {
                    assert(spec_deserialize(line@) == Some(
                        MessageView { timestamp: ts, status: st, text: text@ },
                    ));
                }
                Ok(Message { timestamp: ts, status: st, text })
            } else {
                Err(ParseError::InvalidInput)
            }
        },
    }
}

} // verus!
