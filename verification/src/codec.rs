//! The message codec.
//!
//! Frames exchanged with workers are single lines of ASCII bytes in a
//! self-describing key/value form: a `kind=` field names the message, a
//! `channel=` field carries the reply channel (any bytes free of `;`),
//! and ids travel as exactly 32 lowercase hex digits, so every id has
//! one canonical spelling.  A submitted graph is a `|`-separated list of
//! `node:dep,dep,...` entries.

use vstd::prelude::*;

use vstd::arithmetic::div_mod::lemma_fundamental_div_mod;

use crate::coordinator::Notification;
use crate::graph::entries_model;
use crate::Id;

verus! {

/// Sixteen to the `n`.
pub open spec fn pow16(n: nat) -> nat
    decreases n,
{
    if n == 0 {
        1
    } else {
        16 * pow16((n - 1) as nat)
    }
}

/// Whether `c` is a lowercase hex digit.
pub open spec fn is_hex_char(c: u8) -> bool {
    (48 <= c <= 57) || (97 <= c <= 102)
}

/// The canonical byte for hex digit `d`.
pub open spec fn hex_char(d: nat) -> u8 {
    if d < 10 {
        (48 + d) as u8
    } else {
        (87 + d) as u8
    }
}

/// The digit a hex byte stands for.
pub open spec fn hex_char_value(c: u8) -> nat {
    if 48 <= c <= 57 {
        (c - 48) as nat
    } else {
        (c - 87) as nat
    }
}

/// `x` written as `width` hex digits, most significant first, zero
/// padded.
pub open spec fn hex_digits(x: nat, width: nat) -> Seq<u8>
    decreases width,
{
    if width == 0 {
        Seq::<u8>::empty()
    } else {
        hex_digits(x / 16, (width - 1) as nat).push(hex_char(x % 16))
    }
}

/// The number a string of hex digits stands for.
pub open spec fn hex_value(s: Seq<u8>) -> nat
    decreases s.len(),
{
    if s.len() == 0 {
        0
    } else {
        hex_value(s.drop_last()) * 16 + hex_char_value(s.last())
    }
}

/// Canonical hex digits are hex bytes of the right count.
pub proof fn lemma_hex_digits_shape(x: nat, width: nat)
    ensures
        hex_digits(x, width).len() == width,
        forall|i: int| 0 <= i < width ==> is_hex_char(#[trigger] hex_digits(x, width)[i]),
    decreases width,
{
    if width > 0 {
        lemma_hex_digits_shape(x / 16, (width - 1) as nat);
        let s = hex_digits(x, width);
        assert forall|i: int| 0 <= i < width implies is_hex_char(#[trigger] s[i]) by {
            if i < width - 1 {
                assert(s[i] == hex_digits(x / 16, (width - 1) as nat)[i]);
            } else {
                assert(s[i] == hex_char(x % 16));
            }
        }
    }
}

/// Writing then reading a number below `16^width` gives it back.
pub proof fn lemma_hex_round_trip(x: nat, width: nat)
    requires
        x < pow16(width),
    ensures
        hex_value(hex_digits(x, width)) == x,
    decreases width,
{
    if width > 0 {
        assert(x / 16 < pow16((width - 1) as nat)) by (nonlinear_arith)
            requires
                x < pow16(width),
                pow16(width) == 16 * pow16((width - 1) as nat),
        ;
        lemma_hex_round_trip(x / 16, (width - 1) as nat);
        let s = hex_digits(x, width);
        lemma_hex_digits_shape(x / 16, (width - 1) as nat);
        assert(s.drop_last() =~~= hex_digits(x / 16, (width - 1) as nat));
        assert(hex_char_value(hex_char(x % 16)) == x % 16);
        lemma_fundamental_div_mod(x as int, 16);
    }
}

/// Reading any string of hex bytes gives a number below `16^len` whose
/// canonical spelling is that very string.
pub proof fn lemma_hex_digits_inverse(s: Seq<u8>)
    requires
        forall|i: int| 0 <= i < s.len() ==> is_hex_char(#[trigger] s[i]),
    ensures
        hex_value(s) < pow16(s.len() as nat),
        hex_digits(hex_value(s), s.len() as nat) == s,
    decreases s.len(),
{
    if s.len() > 0 {
        let rest = s.drop_last();
        assert(forall|i: int| 0 <= i < rest.len() ==> is_hex_char(#[trigger] rest[i])) by {
            assert forall|i: int| 0 <= i < rest.len() implies is_hex_char(#[trigger] rest[i]) by {
                assert(rest[i] == s[i]);
            }
        }
        lemma_hex_digits_inverse(rest);
        let v = hex_value(rest);
        let c = s.last();
        let d = hex_char_value(c);
        assert(d < 16);
        assert(v * 16 + d < pow16(s.len() as nat)) by (nonlinear_arith)
            requires
                v < pow16((s.len() - 1) as nat),
                d < 16,
                pow16(s.len() as nat) == 16 * pow16((s.len() - 1) as nat),
        ;
        assert((v * 16 + d) / 16 == v && (v * 16 + d) % 16 == d) by (nonlinear_arith)
            requires
                d < 16,
        ;
        assert(hex_char(d) == c);
        assert(hex_digits(v * 16 + d, s.len() as nat) =~~= s);
    }
}

/// Sixteen to the 32nd is one more than the largest id.
pub proof fn lemma_pow16_32()
    ensures
        pow16(32) == 0x100000000000000000000000000000000,
{
    reveal_with_fuel(pow16, 33);
}

/// Append the `width`-digit hex form of `x`.
fn push_hex(x: Id, width: usize, out: &mut Vec<u8>)
    ensures
        final(out)@ == old(out)@ + hex_digits(x as nat, width as nat),
    decreases width,
{
    if width == 0 {
        proof {
            assert(out@ =~~= old(out)@ + hex_digits(x as nat, 0));
        }
        return ;
    }
    push_hex(x / 16, width - 1, out);
    let d: Id = x % 16;
    let c: u8 = if d < 10 {
        48 + (d as u8)
    } else {
        87 + (d as u8)
    };
    out.push(c);
    proof {
        assert(c == hex_char((x as nat) % 16));
        assert((x as nat) / 16 == (x / 16) as nat);
        assert(out@ =~~= old(out)@ + hex_digits(x as nat, width as nat));
    }
}

/// Read exactly 32 hex digits at `start`; the result is the one id whose
/// canonical spelling stands there.
#[verifier::loop_isolation(false)]
fn parse_hex(frame: &Vec<u8>, start: usize) -> (r: Option<Id>)
    ensures
        match r {
            Some(x) => start + 32 <= frame@.len() && frame@.subrange(
                start as int,
                start as int + 32,
            ) == hex_digits(x as nat, 32),
            None => start + 32 > frame@.len() || exists|i: int|
                start <= i < start + 32 && !is_hex_char(#[trigger] frame@[i]),
        },
{
    if frame.len() < 32 || start > frame.len() - 32 {
        return None;
    }
    let mut x: Id = 0;
    let mut i: usize = 0;
    proof {
        lemma_pow16_32();
        assert(frame@.subrange(start as int, start as int) =~~= Seq::<u8>::empty());
    }
    while i < 32
        invariant
            i <= 32,
            start + 32 <= frame@.len(),
            forall|j: int| start <= j < start + i ==> is_hex_char(#[trigger] frame@[j]),
            (x as nat) == hex_value(frame@.subrange(start as int, start as int + i)),
            (x as nat) < pow16(i as nat),
            pow16(32) == 0x100000000000000000000000000000000,
        decreases 32 - i,
    {
        let c = frame[start + i];
        let d: u8 = if 48 <= c && c <= 57 {
            c - 48
        } else if 97 <= c && c <= 102 {
            c - 87
        } else {
            return None;
        };
        proof {
            assert(is_hex_char(c));
            assert(hex_char_value(c) == d as nat);
            assert(pow16(i as nat) <= pow16(31)) by {
                lemma_pow16_monotone(i as nat, 31);
            }
            assert((x as nat) * 16 + 15 < pow16(32)) by (nonlinear_arith)
                requires
                    (x as nat) < pow16(31),
                    pow16(32) == 16 * pow16(31),
            ;
            assert(pow16(32) == 16 * pow16(31)) by {
                reveal_with_fuel(pow16, 2);
            }
        }
        let ghost pre = frame@.subrange(start as int, start as int + i);
        x = x * 16 + (d as Id);
        proof {
            let t = frame@.subrange(start as int, start as int + i + 1);
            assert(t.drop_last() =~~= pre);
            assert(t.last() == c);
            assert((x as nat) == hex_value(t));
            assert((x as nat) < pow16((i + 1) as nat)) by (nonlinear_arith)
                requires
                    hex_value(pre) < pow16(i as nat),
                    (x as nat) == hex_value(pre) * 16 + hex_char_value(c),
                    hex_char_value(c) < 16,
                    pow16((i + 1) as nat) == 16 * pow16(i as nat),
            ;
        }
        i = i + 1;
    }
    proof {
        let s = frame@.subrange(start as int, start as int + 32);
        lemma_hex_digits_inverse(s);
    }
    Some(x)
}

/// `pow16` grows with its exponent.
pub proof fn lemma_pow16_monotone(a: nat, b: nat)
    requires
        a <= b,
    ensures
        pow16(a) <= pow16(b),
    decreases b,
{
    if a < b {
        lemma_pow16_monotone(a, (b - 1) as nat);
        assert(pow16(b) == 16 * pow16((b - 1) as nat));
        assert(pow16((b - 1) as nat) <= 16 * pow16((b - 1) as nat)) by (nonlinear_arith)
            requires
                pow16((b - 1) as nat) >= 0,
        ;
    }
}

/// The bytes of `kind=register;channel=`.
pub open spec fn tag_register() -> Seq<u8> {
    seq![107u8, 105u8, 110u8, 100u8, 61u8, 114u8, 101u8, 103u8, 105u8, 115u8, 116u8, 101u8, 114u8, 59u8, 99u8, 104u8, 97u8, 110u8, 110u8, 101u8, 108u8, 61u8]
}

/// The bytes of `kind=submit;channel=`.
pub open spec fn tag_submit() -> Seq<u8> {
    seq![107u8, 105u8, 110u8, 100u8, 61u8, 115u8, 117u8, 98u8, 109u8, 105u8, 116u8, 59u8, 99u8, 104u8, 97u8, 110u8, 110u8, 101u8, 108u8, 61u8]
}

/// The bytes of `kind=processed;channel=`.
pub open spec fn tag_processed() -> Seq<u8> {
    seq![107u8, 105u8, 110u8, 100u8, 61u8, 112u8, 114u8, 111u8, 99u8, 101u8, 115u8, 115u8, 101u8, 100u8, 59u8, 99u8, 104u8, 97u8, 110u8, 110u8, 101u8, 108u8, 61u8]
}

/// The bytes of `kind=failed;channel=`.
pub open spec fn tag_failed() -> Seq<u8> {
    seq![107u8, 105u8, 110u8, 100u8, 61u8, 102u8, 97u8, 105u8, 108u8, 101u8, 100u8, 59u8, 99u8, 104u8, 97u8, 110u8, 110u8, 101u8, 108u8, 61u8]
}

/// The bytes of `kind=cancel;channel=`.
pub open spec fn tag_cancel() -> Seq<u8> {
    seq![107u8, 105u8, 110u8, 100u8, 61u8, 99u8, 97u8, 110u8, 99u8, 101u8, 108u8, 59u8, 99u8, 104u8, 97u8, 110u8, 110u8, 101u8, 108u8, 61u8]
}

/// The bytes of `;change_set=`.
pub open spec fn tag_change_set() -> Seq<u8> {
    seq![59u8, 99u8, 104u8, 97u8, 110u8, 103u8, 101u8, 95u8, 115u8, 101u8, 116u8, 61u8]
}

/// The bytes of `;node=`.
pub open spec fn tag_node() -> Seq<u8> {
    seq![59u8, 110u8, 111u8, 100u8, 101u8, 61u8]
}

/// The bytes of `;graph=`.
pub open spec fn tag_graph() -> Seq<u8> {
    seq![59u8, 103u8, 114u8, 97u8, 112u8, 104u8, 61u8]
}

/// The bytes of `kind=continue`.
pub open spec fn tag_continue() -> Seq<u8> {
    seq![107u8, 105u8, 110u8, 100u8, 61u8, 99u8, 111u8, 110u8, 116u8, 105u8, 110u8, 117u8, 101u8]
}

/// The bytes of `kind=process_value;node=`.
pub open spec fn tag_process_value() -> Seq<u8> {
    seq![107u8, 105u8, 110u8, 100u8, 61u8, 112u8, 114u8, 111u8, 99u8, 101u8, 115u8, 115u8, 95u8, 118u8, 97u8, 108u8, 117u8, 101u8, 59u8, 110u8, 111u8, 100u8, 101u8, 61u8]
}

/// The bytes of `kind=value_available;node=`.
pub open spec fn tag_value_available() -> Seq<u8> {
    seq![107u8, 105u8, 110u8, 100u8, 61u8, 118u8, 97u8, 108u8, 117u8, 101u8, 95u8, 97u8, 118u8, 97u8, 105u8, 108u8, 97u8, 98u8, 108u8, 101u8, 59u8, 110u8, 111u8, 100u8, 101u8, 61u8]
}

/// The bytes of `kind=value_processing_failed;node=`.
pub open spec fn tag_value_failed() -> Seq<u8> {
    seq![107u8, 105u8, 110u8, 100u8, 61u8, 118u8, 97u8, 108u8, 117u8, 101u8, 95u8, 112u8, 114u8, 111u8, 99u8, 101u8, 115u8, 115u8, 105u8, 110u8, 103u8, 95u8, 102u8, 97u8, 105u8, 108u8, 101u8, 100u8, 59u8, 110u8, 111u8, 100u8, 101u8, 61u8]
}

/// Append the bytes of `kind=register;channel=`.
fn push_tag_register(out: &mut Vec<u8>)
    ensures
        final(out)@ == old(out)@ + tag_register(),
{
    out.push(107u8);
    out.push(105u8);
    out.push(110u8);
    out.push(100u8);
    out.push(61u8);
    out.push(114u8);
    out.push(101u8);
    out.push(103u8);
    out.push(105u8);
    out.push(115u8);
    out.push(116u8);
    out.push(101u8);
    out.push(114u8);
    out.push(59u8);
    out.push(99u8);
    out.push(104u8);
    out.push(97u8);
    out.push(110u8);
    out.push(110u8);
    out.push(101u8);
    out.push(108u8);
    out.push(61u8);
    proof {
        assert(out@ =~~= old(out)@ + tag_register());
    }
}

/// Append the bytes of `kind=submit;channel=`.
fn push_tag_submit(out: &mut Vec<u8>)
    ensures
        final(out)@ == old(out)@ + tag_submit(),
{
    out.push(107u8);
    out.push(105u8);
    out.push(110u8);
    out.push(100u8);
    out.push(61u8);
    out.push(115u8);
    out.push(117u8);
    out.push(98u8);
    out.push(109u8);
    out.push(105u8);
    out.push(116u8);
    out.push(59u8);
    out.push(99u8);
    out.push(104u8);
    out.push(97u8);
    out.push(110u8);
    out.push(110u8);
    out.push(101u8);
    out.push(108u8);
    out.push(61u8);
    proof {
        assert(out@ =~~= old(out)@ + tag_submit());
    }
}

/// Append the bytes of `kind=processed;channel=`.
fn push_tag_processed(out: &mut Vec<u8>)
    ensures
        final(out)@ == old(out)@ + tag_processed(),
{
    out.push(107u8);
    out.push(105u8);
    out.push(110u8);
    out.push(100u8);
    out.push(61u8);
    out.push(112u8);
    out.push(114u8);
    out.push(111u8);
    out.push(99u8);
    out.push(101u8);
    out.push(115u8);
    out.push(115u8);
    out.push(101u8);
    out.push(100u8);
    out.push(59u8);
    out.push(99u8);
    out.push(104u8);
    out.push(97u8);
    out.push(110u8);
    out.push(110u8);
    out.push(101u8);
    out.push(108u8);
    out.push(61u8);
    proof {
        assert(out@ =~~= old(out)@ + tag_processed());
    }
}

/// Append the bytes of `kind=failed;channel=`.
fn push_tag_failed(out: &mut Vec<u8>)
    ensures
        final(out)@ == old(out)@ + tag_failed(),
{
    out.push(107u8);
    out.push(105u8);
    out.push(110u8);
    out.push(100u8);
    out.push(61u8);
    out.push(102u8);
    out.push(97u8);
    out.push(105u8);
    out.push(108u8);
    out.push(101u8);
    out.push(100u8);
    out.push(59u8);
    out.push(99u8);
    out.push(104u8);
    out.push(97u8);
    out.push(110u8);
    out.push(110u8);
    out.push(101u8);
    out.push(108u8);
    out.push(61u8);
    proof {
        assert(out@ =~~= old(out)@ + tag_failed());
    }
}

/// Append the bytes of `kind=cancel;channel=`.
fn push_tag_cancel(out: &mut Vec<u8>)
    ensures
        final(out)@ == old(out)@ + tag_cancel(),
{
    out.push(107u8);
    out.push(105u8);
    out.push(110u8);
    out.push(100u8);
    out.push(61u8);
    out.push(99u8);
    out.push(97u8);
    out.push(110u8);
    out.push(99u8);
    out.push(101u8);
    out.push(108u8);
    out.push(59u8);
    out.push(99u8);
    out.push(104u8);
    out.push(97u8);
    out.push(110u8);
    out.push(110u8);
    out.push(101u8);
    out.push(108u8);
    out.push(61u8);
    proof {
        assert(out@ =~~= old(out)@ + tag_cancel());
    }
}

/// Append the bytes of `;change_set=`.
fn push_tag_change_set(out: &mut Vec<u8>)
    ensures
        final(out)@ == old(out)@ + tag_change_set(),
{
    out.push(59u8);
    out.push(99u8);
    out.push(104u8);
    out.push(97u8);
    out.push(110u8);
    out.push(103u8);
    out.push(101u8);
    out.push(95u8);
    out.push(115u8);
    out.push(101u8);
    out.push(116u8);
    out.push(61u8);
    proof {
        assert(out@ =~~= old(out)@ + tag_change_set());
    }
}

/// Append the bytes of `;node=`.
fn push_tag_node(out: &mut Vec<u8>)
    ensures
        final(out)@ == old(out)@ + tag_node(),
{
    out.push(59u8);
    out.push(110u8);
    out.push(111u8);
    out.push(100u8);
    out.push(101u8);
    out.push(61u8);
    proof {
        assert(out@ =~~= old(out)@ + tag_node());
    }
}

/// Append the bytes of `;graph=`.
fn push_tag_graph(out: &mut Vec<u8>)
    ensures
        final(out)@ == old(out)@ + tag_graph(),
{
    out.push(59u8);
    out.push(103u8);
    out.push(114u8);
    out.push(97u8);
    out.push(112u8);
    out.push(104u8);
    out.push(61u8);
    proof {
        assert(out@ =~~= old(out)@ + tag_graph());
    }
}

/// Append the bytes of `kind=continue`.
fn push_tag_continue(out: &mut Vec<u8>)
    ensures
        final(out)@ == old(out)@ + tag_continue(),
{
    out.push(107u8);
    out.push(105u8);
    out.push(110u8);
    out.push(100u8);
    out.push(61u8);
    out.push(99u8);
    out.push(111u8);
    out.push(110u8);
    out.push(116u8);
    out.push(105u8);
    out.push(110u8);
    out.push(117u8);
    out.push(101u8);
    proof {
        assert(out@ =~~= old(out)@ + tag_continue());
    }
}

/// Append the bytes of `kind=process_value;node=`.
fn push_tag_process_value(out: &mut Vec<u8>)
    ensures
        final(out)@ == old(out)@ + tag_process_value(),
{
    out.push(107u8);
    out.push(105u8);
    out.push(110u8);
    out.push(100u8);
    out.push(61u8);
    out.push(112u8);
    out.push(114u8);
    out.push(111u8);
    out.push(99u8);
    out.push(101u8);
    out.push(115u8);
    out.push(115u8);
    out.push(95u8);
    out.push(118u8);
    out.push(97u8);
    out.push(108u8);
    out.push(117u8);
    out.push(101u8);
    out.push(59u8);
    out.push(110u8);
    out.push(111u8);
    out.push(100u8);
    out.push(101u8);
    out.push(61u8);
    proof {
        assert(out@ =~~= old(out)@ + tag_process_value());
    }
}

/// Append the bytes of `kind=value_available;node=`.
fn push_tag_value_available(out: &mut Vec<u8>)
    ensures
        final(out)@ == old(out)@ + tag_value_available(),
{
    out.push(107u8);
    out.push(105u8);
    out.push(110u8);
    out.push(100u8);
    out.push(61u8);
    out.push(118u8);
    out.push(97u8);
    out.push(108u8);
    out.push(117u8);
    out.push(101u8);
    out.push(95u8);
    out.push(97u8);
    out.push(118u8);
    out.push(97u8);
    out.push(105u8);
    out.push(108u8);
    out.push(97u8);
    out.push(98u8);
    out.push(108u8);
    out.push(101u8);
    out.push(59u8);
    out.push(110u8);
    out.push(111u8);
    out.push(100u8);
    out.push(101u8);
    out.push(61u8);
    proof {
        assert(out@ =~~= old(out)@ + tag_value_available());
    }
}

/// Append the bytes of `kind=value_processing_failed;node=`.
fn push_tag_value_failed(out: &mut Vec<u8>)
    ensures
        final(out)@ == old(out)@ + tag_value_failed(),
{
    out.push(107u8);
    out.push(105u8);
    out.push(110u8);
    out.push(100u8);
    out.push(61u8);
    out.push(118u8);
    out.push(97u8);
    out.push(108u8);
    out.push(117u8);
    out.push(101u8);
    out.push(95u8);
    out.push(112u8);
    out.push(114u8);
    out.push(111u8);
    out.push(99u8);
    out.push(101u8);
    out.push(115u8);
    out.push(115u8);
    out.push(105u8);
    out.push(110u8);
    out.push(103u8);
    out.push(95u8);
    out.push(102u8);
    out.push(97u8);
    out.push(105u8);
    out.push(108u8);
    out.push(101u8);
    out.push(100u8);
    out.push(59u8);
    out.push(110u8);
    out.push(111u8);
    out.push(100u8);
    out.push(101u8);
    out.push(61u8);
    proof {
        assert(out@ =~~= old(out)@ + tag_value_failed());
    }
}

/// A request frame's logical content, with the reply channel as the raw
/// bytes that travel on the wire.
#[derive(Debug, PartialEq, Eq)]
pub enum WireRequest {
    /// Ask for the change set's graph-mutation slot.
    Register { reply_channel: Vec<u8>, change_set_id: Id },
    /// Deliver the dependency graph while holding the slot.
    GraphSubmitted {
        reply_channel: Vec<u8>,
        change_set_id: Id,
        dependency_graph: Vec<(Id, Vec<Id>)>,
    },
    /// The worker has computed the node's value.
    ValueProcessed { reply_channel: Vec<u8>, change_set_id: Id, node_id: Id },
    /// The worker failed to compute the node's value.
    ValueProcessingFailed { reply_channel: Vec<u8>, change_set_id: Id, node_id: Id },
    /// The worker withdraws from the change set.
    Cancel { reply_channel: Vec<u8>, change_set_id: Id },
}

/// A channel is encodable when no byte of it is the field separator.
pub open spec fn valid_channel(ch: Seq<u8>) -> bool {
    forall|i: int| 0 <= i < ch.len() ==> ch[i] != 59
}

/// Whether the request's reply channel is encodable.
pub open spec fn valid_request(r: WireRequest) -> bool {
    match r {
        WireRequest::Register { reply_channel, change_set_id: _ } => valid_channel(
            reply_channel@,
        ),
        WireRequest::GraphSubmitted { reply_channel, change_set_id: _, dependency_graph: _ } => {
            valid_channel(reply_channel@)
        },
        WireRequest::ValueProcessed { reply_channel, change_set_id: _, node_id: _ } => {
            valid_channel(reply_channel@)
        },
        WireRequest::ValueProcessingFailed { reply_channel, change_set_id: _, node_id: _ } => {
            valid_channel(reply_channel@)
        },
        WireRequest::Cancel { reply_channel, change_set_id: _ } => valid_channel(reply_channel@),
    }
}

/// The wire form of a dependency list: hex ids joined by commas.
pub open spec fn spec_encode_deps(d: Seq<Id>) -> Seq<u8>
    decreases d.len(),
{
    if d.len() == 0 {
        Seq::<u8>::empty()
    } else {
        let prev = spec_encode_deps(d.drop_last());
        let sep: Seq<u8> = if d.len() == 1 {
            Seq::<u8>::empty()
        } else {
            seq![44u8]
        };
        prev + sep + hex_digits(d.last() as nat, 32)
    }
}

/// The wire form of one graph entry: the node, a colon, its dependencies.
pub open spec fn spec_encode_entry(nid: Id, deps: Seq<Id>) -> Seq<u8> {
    hex_digits(nid as nat, 32) + seq![58u8] + spec_encode_deps(deps)
}

/// The wire form of a whole graph: entries joined by bars.
pub open spec fn spec_encode_graph(g: Seq<(Id, Seq<Id>)>) -> Seq<u8>
    decreases g.len(),
{
    if g.len() == 0 {
        Seq::<u8>::empty()
    } else {
        let prev = spec_encode_graph(g.drop_last());
        let sep: Seq<u8> = if g.len() == 1 {
            Seq::<u8>::empty()
        } else {
            seq![124u8]
        };
        prev + sep + spec_encode_entry(g.last().0, g.last().1)
    }
}

/// The canonical frame of a request.
pub open spec fn spec_encode_request(r: WireRequest) -> Seq<u8> {
    match r {
        WireRequest::Register { reply_channel, change_set_id } => {
            tag_register() + reply_channel@ + tag_change_set() + hex_digits(
                change_set_id as nat,
                32,
            )
        },
        WireRequest::GraphSubmitted { reply_channel, change_set_id, dependency_graph } => {
            tag_submit() + reply_channel@ + tag_change_set() + hex_digits(change_set_id as nat, 32)
                + tag_graph() + spec_encode_graph(entries_model(dependency_graph@))
        },
        WireRequest::ValueProcessed { reply_channel, change_set_id, node_id } => {
            tag_processed() + reply_channel@ + tag_change_set() + hex_digits(
                change_set_id as nat,
                32,
            ) + tag_node() + hex_digits(node_id as nat, 32)
        },
        WireRequest::ValueProcessingFailed { reply_channel, change_set_id, node_id } => {
            tag_failed() + reply_channel@ + tag_change_set() + hex_digits(change_set_id as nat, 32)
                + tag_node() + hex_digits(node_id as nat, 32)
        },
        WireRequest::Cancel { reply_channel, change_set_id } => {
            tag_cancel() + reply_channel@ + tag_change_set() + hex_digits(change_set_id as nat, 32)
        },
    }
}

/// The canonical frame of a notification.
pub open spec fn spec_encode_notification(n: Notification) -> Seq<u8> {
    match n {
        Notification::Continue => tag_continue(),
        Notification::ProcessValue { node_id } => tag_process_value() + hex_digits(
            node_id as nat,
            32,
        ),
        Notification::ValueAvailable { node_id } => tag_value_available() + hex_digits(
            node_id as nat,
            32,
        ),
        Notification::ValueProcessingFailed { node_id } => tag_value_failed() + hex_digits(
            node_id as nat,
            32,
        ),
    }
}

/// Append every byte of `src`.
#[verifier::loop_isolation(false)]
fn push_bytes(out: &mut Vec<u8>, src: &Vec<u8>)
    ensures
        final(out)@ == old(out)@ + src@,
{
    let mut i: usize = 0;
    proof {
        assert(out@ =~~= old(out)@ + src@.take(0));
    }
    while i < src.len()
        invariant
            i <= src@.len(),
            out@ == old(out)@ + src@.take(i as int),
        decreases src@.len() - i,
    {
        out.push(src[i]);
        proof {
            assert(out@ =~~= old(out)@ + src@.take(i as int + 1));
        }
        i = i + 1;
    }
    proof {
        assert(src@.take(src@.len() as int) =~~= src@);
    }
}

/// Whether `pat` stands in `frame` at `start`.
#[verifier::loop_isolation(false)]
fn matches_at(frame: &Vec<u8>, start: usize, pat: &Vec<u8>) -> (r: bool)
    ensures
        r == (start + pat@.len() <= frame@.len() && frame@.subrange(
            start as int,
            start as int + pat@.len(),
        ) == pat@),
{
    let n = frame.len();
    let m = pat.len();
    if m > n || start > n - m {
        return false;
    }
    let mut i: usize = 0;
    while i < m
        invariant
            i <= m,
            start + m <= n,
            forall|j: int| 0 <= j < i ==> frame@[start + j] == pat@[j],
        decreases m - i,
    {
        if frame[start + i] != pat[i] {
            proof {
                assert(frame@.subrange(start as int, start as int + m) != pat@) by {
                    assert(frame@.subrange(start as int, start as int + m)[i as int] == frame@[
                        start + i
                    ]);
                }
            }
            return false;
        }
        i = i + 1;
    }
    proof {
        assert(frame@.subrange(start as int, start as int + m) =~~= pat@);
    }
    true
}

/// Whether two byte strings are equal.
#[verifier::loop_isolation(false)]
fn bytes_eq(a: &Vec<u8>, b: &Vec<u8>) -> (r: bool)
    ensures
        r == (a@ == b@),
{
    if a.len() != b.len() {
        return false;
    }
    let mut i: usize = 0;
    while i < a.len()
        invariant
            i <= a@.len(),
            a@.len() == b@.len(),
            forall|j: int| 0 <= j < i ==> a@[j] == b@[j],
        decreases a@.len() - i,
    {
        if a[i] != b[i] {
            return false;
        }
        i = i + 1;
    }
    proof {
        assert(a@ =~~= b@);
    }
    true
}

/// Append the wire form of a submitted graph.
#[verifier::loop_isolation(false)]
fn push_graph(out: &mut Vec<u8>, g: &Vec<(Id, Vec<Id>)>)
    ensures
        final(out)@ == old(out)@ + spec_encode_graph(entries_model(g@)),
{
    let ghost em = entries_model(g@);
    let mut i: usize = 0;
    proof {
        assert(em.take(0) =~~= Seq::<(Id, Seq<Id>)>::empty());
        assert(out@ =~~= old(out)@ + spec_encode_graph(em.take(0)));
    }
    while i < g.len()
        invariant
            i <= g@.len(),
            em == entries_model(g@),
            out@ == old(out)@ + spec_encode_graph(em.take(i as int)),
        decreases g@.len() - i,
    {
        if i > 0 {
            out.push(124);
        }
        let nid = g[i].0;
        push_hex(nid, 32, out);
        out.push(58);
        let ghost base = out@;
        let deps = &g[i].1;
        let mut j: usize = 0;
        proof {
            assert(deps@.take(0) =~~= Seq::<Id>::empty());
            assert(out@ =~~= base + spec_encode_deps(deps@.take(0)));
        }
        while j < deps.len()
            invariant
                j <= deps@.len(),
                out@ == base + spec_encode_deps(deps@.take(j as int)),
            decreases deps@.len() - j,
        {
            if j > 0 {
                out.push(44);
            }
            push_hex(deps[j], 32, out);
            proof {
                let t = deps@.take(j as int + 1);
                assert(t.drop_last() =~~= deps@.take(j as int));
                assert(t.last() == deps@[j as int]);
                assert(out@ =~~= base + spec_encode_deps(t));
            }
            j = j + 1;
        }
        proof {
            assert(deps@.take(deps@.len() as int) =~~= deps@);
            let t = em.take(i as int + 1);
            assert(t.drop_last() =~~= em.take(i as int));
            assert(em[i as int] == (g@[i as int].0, g@[i as int].1@));
            assert(t.last() == em[i as int]);
            assert(spec_encode_entry(nid, deps@) =~~= hex_digits(nid as nat, 32) + seq![58u8]
                + spec_encode_deps(deps@));
            assert(out@ =~~= old(out)@ + spec_encode_graph(t));
        }
        i = i + 1;
    }
    proof {
        assert(em.take(em.len() as int) =~~= em);
    }
}

/// Encode a request as its canonical frame.
pub fn encode_request(request: &WireRequest) -> (out: Vec<u8>)
    ensures
        out@ == spec_encode_request(*request),
{
    let mut out: Vec<u8> = Vec::new();
    proof {
        assert(out@ =~~= Seq::<u8>::empty());
    }
    match request {
        WireRequest::Register { reply_channel, change_set_id } => {
            push_tag_register(&mut out);
            push_bytes(&mut out, reply_channel);
            push_tag_change_set(&mut out);
            push_hex(*change_set_id, 32, &mut out);
            proof {
                assert(out@ =~~= spec_encode_request(*request));
            }
        },
        WireRequest::GraphSubmitted { reply_channel, change_set_id, dependency_graph } => {
            push_tag_submit(&mut out);
            push_bytes(&mut out, reply_channel);
            push_tag_change_set(&mut out);
            push_hex(*change_set_id, 32, &mut out);
            push_tag_graph(&mut out);
            push_graph(&mut out, dependency_graph);
            proof {
                assert(out@ =~~= spec_encode_request(*request));
            }
        },
        WireRequest::ValueProcessed { reply_channel, change_set_id, node_id } => {
            push_tag_processed(&mut out);
            push_bytes(&mut out, reply_channel);
            push_tag_change_set(&mut out);
            push_hex(*change_set_id, 32, &mut out);
            push_tag_node(&mut out);
            push_hex(*node_id, 32, &mut out);
            proof {
                assert(out@ =~~= spec_encode_request(*request));
            }
        },
        WireRequest::ValueProcessingFailed { reply_channel, change_set_id, node_id } => {
            push_tag_failed(&mut out);
            push_bytes(&mut out, reply_channel);
            push_tag_change_set(&mut out);
            push_hex(*change_set_id, 32, &mut out);
            push_tag_node(&mut out);
            push_hex(*node_id, 32, &mut out);
            proof {
                assert(out@ =~~= spec_encode_request(*request));
            }
        },
        WireRequest::Cancel { reply_channel, change_set_id } => {
            push_tag_cancel(&mut out);
            push_bytes(&mut out, reply_channel);
            push_tag_change_set(&mut out);
            push_hex(*change_set_id, 32, &mut out);
            proof {
                assert(out@ =~~= spec_encode_request(*request));
            }
        },
    }
    out
}

/// Encode a notification as its canonical frame.
pub fn encode_notification(n: &Notification) -> (out: Vec<u8>)
    ensures
        out@ == spec_encode_notification(*n),
{
    let mut out: Vec<u8> = Vec::new();
    proof {
        assert(out@ =~~= Seq::<u8>::empty());
    }
    match n {
        Notification::Continue => {
            push_tag_continue(&mut out);
            proof {
                assert(out@ =~~= spec_encode_notification(*n));
            }
        },
        Notification::ProcessValue { node_id } => {
            push_tag_process_value(&mut out);
            push_hex(*node_id, 32, &mut out);
            proof {
                assert(out@ =~~= spec_encode_notification(*n));
            }
        },
        Notification::ValueAvailable { node_id } => {
            push_tag_value_available(&mut out);
            push_hex(*node_id, 32, &mut out);
            proof {
                assert(out@ =~~= spec_encode_notification(*n));
            }
        },
        Notification::ValueProcessingFailed { node_id } => {
            push_tag_value_failed(&mut out);
            push_hex(*node_id, 32, &mut out);
            proof {
                assert(out@ =~~= spec_encode_notification(*n));
            }
        },
    }
    out
}

/// Shape of every notification frame: its exact length, its tag, and
/// hex digits in its id field.
pub proof fn lemma_notification_shape(n: Notification)
    ensures
        (match n {
            Notification::Continue => spec_encode_notification(n) == tag_continue()
                && spec_encode_notification(n).len() == 13,
            Notification::ProcessValue { node_id } => {
                &&& spec_encode_notification(n).len() == 56
                &&& spec_encode_notification(n).subrange(0, 24) == tag_process_value()
                &&& forall|i: int|
                    24 <= i < 56 ==> is_hex_char(#[trigger] spec_encode_notification(n)[i])
            },
            Notification::ValueAvailable { node_id } => {
                &&& spec_encode_notification(n).len() == 58
                &&& spec_encode_notification(n).subrange(0, 26) == tag_value_available()
                &&& forall|i: int|
                    26 <= i < 58 ==> is_hex_char(#[trigger] spec_encode_notification(n)[i])
            },
            Notification::ValueProcessingFailed { node_id } => {
                &&& spec_encode_notification(n).len() == 66
                &&& spec_encode_notification(n).subrange(0, 34) == tag_value_failed()
                &&& forall|i: int|
                    34 <= i < 66 ==> is_hex_char(#[trigger] spec_encode_notification(n)[i])
            },
        }),
{
    match n {
        Notification::Continue => {},
        Notification::ProcessValue { node_id } => {
            let enc = spec_encode_notification(n);
            lemma_hex_digits_shape(node_id as nat, 32);
            assert(enc.subrange(0, 24) =~~= tag_process_value());
            assert forall|i: int| 24 <= i < 56 implies is_hex_char(#[trigger] enc[i]) by {
                assert(enc[i] == hex_digits(node_id as nat, 32)[i - 24]);
            }
        },
        Notification::ValueAvailable { node_id } => {
            let enc = spec_encode_notification(n);
            lemma_hex_digits_shape(node_id as nat, 32);
            assert(enc.subrange(0, 26) =~~= tag_value_available());
            assert forall|i: int| 26 <= i < 58 implies is_hex_char(#[trigger] enc[i]) by {
                assert(enc[i] == hex_digits(node_id as nat, 32)[i - 26]);
            }
        },
        Notification::ValueProcessingFailed { node_id } => {
            let enc = spec_encode_notification(n);
            lemma_hex_digits_shape(node_id as nat, 32);
            assert(enc.subrange(0, 34) =~~= tag_value_failed());
            assert forall|i: int| 34 <= i < 66 implies is_hex_char(#[trigger] enc[i]) by {
                assert(enc[i] == hex_digits(node_id as nat, 32)[i - 34]);
            }
        },
    }
}

/// Decode a notification frame.  Exactly the canonical frames are
/// accepted: a decoded notification re-encodes to the very same bytes,
/// and a rejected frame is the encoding of no notification at all.
pub fn decode_notification(frame: &Vec<u8>) -> (r: Option<Notification>)
    ensures
        (match r {
            Some(n) => spec_encode_notification(n) == frame@,
            None => forall|n: Notification| #[trigger] spec_encode_notification(n) != frame@,
        }),
{
    let mut t_cont: Vec<u8> = Vec::new();
    push_tag_continue(&mut t_cont);
    let mut t_pv: Vec<u8> = Vec::new();
    push_tag_process_value(&mut t_pv);
    let mut t_va: Vec<u8> = Vec::new();
    push_tag_value_available(&mut t_va);
    let mut t_vpf: Vec<u8> = Vec::new();
    push_tag_value_failed(&mut t_vpf);
    proof {
        assert(t_cont@ =~~= tag_continue());
        assert(t_pv@ =~~= tag_process_value());
        assert(t_va@ =~~= tag_value_available());
        assert(t_vpf@ =~~= tag_value_failed());
    }
    if bytes_eq(frame, &t_cont) {
        return Some(Notification::Continue);
    }
    if frame.len() == 56 && matches_at(frame, 0, &t_pv) {
        match parse_hex(frame, 24) {
            Some(x) => {
                proof {
                    assert(frame@ =~~= tag_process_value() + hex_digits(x as nat, 32));
                }
                return Some(Notification::ProcessValue { node_id: x });
            },
            None => {
                proof {
                    let w = choose|i: int| 24 <= i < 56 && !is_hex_char(#[trigger] frame@[i]);
                    assert forall|n: Notification| #[trigger] spec_encode_notification(n)
                        != frame@ by {
                        lemma_notification_shape(n);
                        if n is ProcessValue {
                            assert(spec_encode_notification(n) == frame@ ==> is_hex_char(
                                frame@[w],
                            ));
                        }
                    }
                }
                return None;
            },
        }
    }
    if frame.len() == 58 && matches_at(frame, 0, &t_va) {
        match parse_hex(frame, 26) {
            Some(x) => {
                proof {
                    assert(frame@ =~~= tag_value_available() + hex_digits(x as nat, 32));
                }
                return Some(Notification::ValueAvailable { node_id: x });
            },
            None => {
                proof {
                    let w = choose|i: int| 26 <= i < 58 && !is_hex_char(#[trigger] frame@[i]);
                    assert forall|n: Notification| #[trigger] spec_encode_notification(n)
                        != frame@ by {
                        lemma_notification_shape(n);
                        if n is ValueAvailable {
                            assert(spec_encode_notification(n) == frame@ ==> is_hex_char(
                                frame@[w],
                            ));
                        }
                    }
                }
                return None;
            },
        }
    }
    if frame.len() == 66 && matches_at(frame, 0, &t_vpf) {
        match parse_hex(frame, 34) {
            Some(x) => {
                proof {
                    assert(frame@ =~~= tag_value_failed() + hex_digits(x as nat, 32));
                }
                return Some(Notification::ValueProcessingFailed { node_id: x });
            },
            None => {
                proof {
                    let w = choose|i: int| 34 <= i < 66 && !is_hex_char(#[trigger] frame@[i]);
                    assert forall|n: Notification| #[trigger] spec_encode_notification(n)
                        != frame@ by {
                        lemma_notification_shape(n);
                        if n is ValueProcessingFailed {
                            assert(spec_encode_notification(n) == frame@ ==> is_hex_char(
                                frame@[w],
                            ));
                        }
                    }
                }
                return None;
            },
        }
    }
    proof {
        assert forall|n: Notification| #[trigger] spec_encode_notification(n) != frame@ by {
            lemma_notification_shape(n);
            match n {
                Notification::Continue => {},
                Notification::ProcessValue { node_id } => {
                    if spec_encode_notification(n) == frame@ {
                        assert(frame@.len() == 56);
                        assert(frame@.subrange(0, 24) == tag_process_value());
                    }
                },
                Notification::ValueAvailable { node_id } => {
                    if spec_encode_notification(n) == frame@ {
                        assert(frame@.len() == 58);
                        assert(frame@.subrange(0, 26) == tag_value_available());
                    }
                },
                Notification::ValueProcessingFailed { node_id } => {
                    if spec_encode_notification(n) == frame@ {
                        assert(frame@.len() == 66);
                        assert(frame@.subrange(0, 34) == tag_value_failed());
                    }
                },
            }
        }
    }
    None
}

/// Find the first `;` at or after `start`.
#[verifier::loop_isolation(false)]
fn scan_semicolon(frame: &Vec<u8>, start: usize) -> (r: Option<usize>)
    ensures
        (match r {
            Some(i) => start <= i < frame@.len() && frame@[i as int] == 59 && (forall|j: int|
                start <= j < i ==> frame@[j] != 59),
            None => forall|j: int| start <= j < frame@.len() ==> frame@[j] != 59,
        }),
{
    let n = frame.len();
    if start >= n {
        return None;
    }
    let mut i: usize = start;
    while i < n
        invariant
            start <= i <= n,
            forall|j: int| start <= j < i ==> frame@[j] != 59,
        decreases n - i,
    {
        if frame[i] == 59 {
            return Some(i);
        }
        i = i + 1;
    }
    None
}

/// Copy `frame[start..end]` out.
#[verifier::loop_isolation(false)]
fn read_range(frame: &Vec<u8>, start: usize, end: usize) -> (r: Vec<u8>)
    requires
        start <= end <= frame@.len(),
    ensures
        r@ == frame@.subrange(start as int, end as int),
{
    let mut out: Vec<u8> = Vec::new();
    let mut i: usize = start;
    proof {
        assert(out@ =~~= frame@.subrange(start as int, start as int));
    }
    while i < end
        invariant
            start <= i <= end,
            out@ == frame@.subrange(start as int, i as int),
        decreases end - i,
    {
        out.push(frame[i]);
        proof {
            assert(out@ =~~= frame@.subrange(start as int, i as int + 1));
        }
        i = i + 1;
    }
    out
}

/// Whether `frame` decomposes, after its first `start` bytes, into a
/// channel, the change-set tag, a hex id, and a remainder.
pub open spec fn cs_shape(frame: Seq<u8>, start: int, ch: Seq<u8>, x: Id, rest: Seq<u8>) -> bool {
    frame == frame.subrange(0, start) + ch + tag_change_set() + hex_digits(x as nat, 32) + rest
}

/// In any such decomposition with a separator-free channel, the channel
/// runs exactly to the first separator, and every field stands at a
/// fixed offset from it.
proof fn lemma_cs_shape_position(frame: Seq<u8>, start: int, ch: Seq<u8>, x: Id, rest: Seq<u8>)
    requires
        0 <= start <= frame.len(),
        valid_channel(ch),
        cs_shape(frame, start, ch, x, rest),
    ensures
        frame.len() == start + ch.len() + 44 + rest.len(),
        forall|j: int| start <= j < start + ch.len() ==> frame[j] != 59,
        frame[start + ch.len()] == 59,
        ch == frame.subrange(start, start + ch.len()),
        frame.subrange(start + ch.len(), start + ch.len() + 12) == tag_change_set(),
        frame.subrange(start + ch.len() + 12, start + ch.len() + 44) == hex_digits(x as nat, 32),
        rest == frame.skip(start + ch.len() + 44),
{
    lemma_hex_digits_shape(x as nat, 32);
    let pre = frame.subrange(0, start);
    let tcs = tag_change_set();
    let hx = hex_digits(x as nat, 32);
    let lc = ch.len() as int;
    assert(pre.len() == start);
    assert(tcs.len() == 12);
    assert(frame.len() == start + lc + 44 + rest.len()) by {
        assert((pre + ch + tcs + hx + rest).len() == start + lc + 12 + 32 + rest.len());
    }
    assert forall|j: int| 0 <= j < lc implies frame[start + j] == ch[j] by {
        assert((pre + ch)[start + j] == ch[j]);
        assert((pre + ch + tcs)[start + j] == (pre + ch)[start + j]);
        assert((pre + ch + tcs + hx)[start + j] == (pre + ch + tcs)[start + j]);
        assert((pre + ch + tcs + hx + rest)[start + j] == (pre + ch + tcs + hx)[start + j]);
    }
    assert forall|j: int| 0 <= j < 12 implies frame[start + lc + j] == tcs[j] by {
        assert((pre + ch + tcs)[start + lc + j] == tcs[j]) by {
            assert((pre + ch).len() == start + lc);
        }
        assert((pre + ch + tcs + hx)[start + lc + j] == (pre + ch + tcs)[start + lc + j]);
        assert((pre + ch + tcs + hx + rest)[start + lc + j] == (pre + ch + tcs + hx)[start + lc
            + j]);
    }
    assert forall|j: int| 0 <= j < 32 implies frame[start + lc + 12 + j] == hx[j] by {
        assert((pre + ch + tcs + hx)[start + lc + 12 + j] == hx[j]) by {
            assert((pre + ch + tcs).len() == start + lc + 12);
        }
        assert((pre + ch + tcs + hx + rest)[start + lc + 12 + j] == (pre + ch + tcs + hx)[start
            + lc + 12 + j]);
    }
    assert forall|j: int| 0 <= j < rest.len() implies frame[start + lc + 44 + j] == rest[j] by {
        assert((pre + ch + tcs + hx + rest)[start + lc + 44 + j] == rest[j]) by {
            assert((pre + ch + tcs + hx).len() == start + lc + 44);
        }
    }
    assert(frame[start + lc] == tcs[0]);
    assert(tcs[0] == 59);
    assert(ch =~~= frame.subrange(start, start + lc));
    assert(frame.subrange(start + lc, start + lc + 12) =~~= tcs);
    assert(frame.subrange(start + lc + 12, start + lc + 44) =~~= hx);
    assert(rest =~~= frame.skip(start + lc + 44));
}

/// Parse `channel;change_set=<hex>` at `start`, yielding the channel
/// bytes, the id, and the position after the id.  The channel and id are
/// the only ones any separator-free decomposition of the frame can
/// carry; a `None` means no such decomposition exists.
#[verifier::loop_isolation(false)]
fn parse_channel_cs(frame: &Vec<u8>, start: usize, t_cs: &Vec<u8>) -> (r: Option<
    (Vec<u8>, Id, usize),
>)
    requires
        t_cs@ == tag_change_set(),
        start <= frame@.len(),
    ensures
        (match r {
            Some(t) => {
                &&& t.2 <= frame@.len()
                &&& t.2 as int == start + t.0@.len() + 44
                &&& valid_channel(t.0@)
                &&& cs_shape(frame@, start as int, t.0@, t.1, frame@.skip(t.2 as int))
                &&& forall|ch2: Seq<u8>, x: Id, rest: Seq<u8>|
                    valid_channel(ch2) && #[trigger] cs_shape(frame@, start as int, ch2, x, rest)
                        ==> ch2 == t.0@ && x == t.1 && rest == frame@.skip(t.2 as int)
            },
            None => forall|ch2: Seq<u8>, x: Id, rest: Seq<u8>|
                valid_channel(ch2) ==> !(#[trigger] cs_shape(frame@, start as int, ch2, x, rest)),
        }),
{
    let n = frame.len();
    let semi = match scan_semicolon(frame, start) {
        Some(i) => i,
        None => {
            proof {
                assert forall|ch2: Seq<u8>, x: Id, rest: Seq<u8>|
                    valid_channel(ch2) implies !(#[trigger] cs_shape(
                    frame@,
                    start as int,
                    ch2,
                    x,
                    rest,
                )) by {
                    if cs_shape(frame@, start as int, ch2, x, rest) {
                        lemma_cs_shape_position(frame@, start as int, ch2, x, rest);
                        assert(frame@[start + ch2.len()] == 59);
                    }
                }
            }
            return None;
        },
    };
    let ch = read_range(frame, start, semi);
    if !matches_at(frame, semi, t_cs) {
        proof {
            assert forall|ch2: Seq<u8>, x: Id, rest: Seq<u8>|
                valid_channel(ch2) implies !(#[trigger] cs_shape(
                frame@,
                start as int,
                ch2,
                x,
                rest,
            )) by {
                if cs_shape(frame@, start as int, ch2, x, rest) {
                    lemma_cs_shape_position(frame@, start as int, ch2, x, rest);
                    let e = start + ch2.len() as int;
                    assert(e == semi) by {
                        if e < semi {
                            assert(frame@[e] != 59);
                        }
                        if semi < e {
                            assert(frame@[semi as int] != 59);
                        }
                    }
                    assert(frame@.subrange(semi as int, semi as int + 12) == tag_change_set());
                }
            }
        }
        return None;
    }
    let after_tag = semi + t_cs.len();
    match parse_hex(frame, after_tag) {
        Some(cs) => {
            let pos = after_tag + 32;
            proof {
                assert(ch@ =~~= frame@.subrange(start as int, semi as int));
                assert(valid_channel(ch@)) by {
                    assert forall|j: int| 0 <= j < ch@.len() implies ch@[j] != 59 by {
                        assert(ch@[j] == frame@[start + j]);
                    }
                }
                let pre = frame@.subrange(0, start as int);
                let tcs = tag_change_set();
                let hx = hex_digits(cs as nat, 32);
                let tail = frame@.skip(pos as int);
                let built = pre + ch@ + tcs + hx + tail;
                assert(frame@.subrange(semi as int, semi as int + 12) == tcs);
                assert(frame@.subrange(after_tag as int, after_tag as int + 32) == hx);
                assert(frame@ =~~= built) by {
                    assert(built.len() == frame@.len());
                    assert forall|i: int| 0 <= i < frame@.len() implies built[i] == frame@[i] by {
                        if i < start {
                            assert(built[i] == pre[i]) by {
                                assert((pre + ch@)[i] == pre[i]);
                                assert((pre + ch@ + tcs)[i] == (pre + ch@)[i]);
                                assert((pre + ch@ + tcs + hx)[i] == (pre + ch@ + tcs)[i]);
                                assert(built[i] == (pre + ch@ + tcs + hx)[i]);
                            }
                        } else if i < semi {
                            assert(built[i] == ch@[i - start]) by {
                                assert((pre + ch@)[i] == ch@[i - start]);
                                assert((pre + ch@ + tcs)[i] == (pre + ch@)[i]);
                                assert((pre + ch@ + tcs + hx)[i] == (pre + ch@ + tcs)[i]);
                                assert(built[i] == (pre + ch@ + tcs + hx)[i]);
                            }
                            assert(ch@[i - start] == frame@[i]);
                        } else if i < after_tag {
                            assert(built[i] == tcs[i - semi]) by {
                                assert((pre + ch@).len() == semi);
                                assert((pre + ch@ + tcs)[i] == tcs[i - semi]);
                                assert((pre + ch@ + tcs + hx)[i] == (pre + ch@ + tcs)[i]);
                                assert(built[i] == (pre + ch@ + tcs + hx)[i]);
                            }
                            assert(tcs[i - semi] == frame@.subrange(
                                semi as int,
                                semi as int + 12,
                            )[i - semi]);
                        } else if i < pos {
                            assert(built[i] == hx[i - after_tag]) by {
                                assert((pre + ch@ + tcs).len() == after_tag);
                                assert((pre + ch@ + tcs + hx)[i] == hx[i - after_tag]);
                                assert(built[i] == (pre + ch@ + tcs + hx)[i]);
                            }
                            assert(hx[i - after_tag] == frame@.subrange(
                                after_tag as int,
                                after_tag as int + 32,
                            )[i - after_tag]);
                        } else {
                            assert(built[i] == tail[i - pos]) by {
                                assert((pre + ch@ + tcs + hx).len() == pos);
                            }
                        }
                    }
                }
                assert(cs_shape(frame@, start as int, ch@, cs, tail));
                assert forall|ch2: Seq<u8>, x: Id, rest: Seq<u8>|
                    valid_channel(ch2) && #[trigger] cs_shape(
                    frame@,
                    start as int,
                    ch2,
                    x,
                    rest,
                ) implies ch2 == ch@ && x == cs && rest == frame@.skip(pos as int) by {
                    lemma_cs_shape_position(frame@, start as int, ch2, x, rest);
                    let e = start + ch2.len() as int;
                    assert(e == semi) by {
                        if e < semi {
                            assert(frame@[e] != 59);
                        }
                        if semi < e {
                            assert(frame@[semi as int] != 59);
                        }
                    }
                    assert(ch2 == frame@.subrange(start as int, semi as int));
                    assert(frame@.subrange(after_tag as int, after_tag as int + 32) == hex_digits(
                        x as nat,
                        32,
                    ));
                    assert(hex_digits(x as nat, 32) == hex_digits(cs as nat, 32));
                    lemma_pow16_32();
                    lemma_hex_round_trip(x as nat, 32);
                    lemma_hex_round_trip(cs as nat, 32);
                }
            }
            Some((ch, cs, pos))
        },
        None => {
            proof {
                assert forall|ch2: Seq<u8>, x: Id, rest: Seq<u8>|
                    valid_channel(ch2) implies !(#[trigger] cs_shape(
                    frame@,
                    start as int,
                    ch2,
                    x,
                    rest,
                )) by {
                    if cs_shape(frame@, start as int, ch2, x, rest) {
                        lemma_cs_shape_position(frame@, start as int, ch2, x, rest);
                        let e = start + ch2.len() as int;
                        assert(e == semi) by {
                            if e < semi {
                                assert(frame@[e] != 59);
                            }
                            if semi < e {
                                assert(frame@[semi as int] != 59);
                            }
                        }
                        assert(after_tag + 32 <= frame@.len());
                        let w = choose|i: int|
                            after_tag <= i < after_tag + 32 && !is_hex_char(#[trigger] frame@[i]);
                        lemma_hex_digits_shape(x as nat, 32);
                        assert(frame@[w] == frame@.subrange(
                            after_tag as int,
                            after_tag as int + 32,
                        )[w - after_tag]);
                        assert(is_hex_char(frame@[w]));
                    }
                }
            }
            None
        },
    }
}

/// A frame that is literally a prefix, a channel, the change-set tag, a
/// hex id and a remainder decomposes that way.
proof fn lemma_flat_to_shape(frame: Seq<u8>, tg: Seq<u8>, ch: Seq<u8>, x: Id, rest: Seq<u8>)
    requires
        frame == tg + ch + tag_change_set() + hex_digits(x as nat, 32) + rest,
    ensures
        frame.subrange(0, tg.len() as int) == tg,
        cs_shape(frame, tg.len() as int, ch, x, rest),
{
    let lt = tg.len() as int;
    lemma_hex_digits_shape(x as nat, 32);
    assert(frame.subrange(0, lt) =~~= tg) by {
        assert forall|i: int| 0 <= i < lt implies frame[i] == tg[i] by {
            assert((tg + ch)[i] == tg[i]);
            assert((tg + ch + tag_change_set())[i] == (tg + ch)[i]);
            assert((tg + ch + tag_change_set() + hex_digits(x as nat, 32))[i] == (tg + ch
                + tag_change_set())[i]);
            assert(frame[i] == (tg + ch + tag_change_set() + hex_digits(x as nat, 32))[i]);
        }
    }
    assert(frame =~~= frame.subrange(0, lt) + ch + tag_change_set() + hex_digits(x as nat, 32)
        + rest);
}

/// A frame tail made of the node tag and a hex id fixes the frame's
/// length and the bytes of both pieces.
proof fn lemma_node_tail(frame: Seq<u8>, pos: int, n2: Id)
    requires
        0 <= pos <= frame.len(),
        frame.skip(pos) == tag_node() + hex_digits(n2 as nat, 32),
    ensures
        frame.len() == pos + 38,
        frame.subrange(pos, pos + 6) == tag_node(),
        frame.subrange(pos + 6, pos + 38) == hex_digits(n2 as nat, 32),
        forall|j: int| pos + 6 <= j < pos + 38 ==> is_hex_char(#[trigger] frame[j]),
{
    lemma_hex_digits_shape(n2 as nat, 32);
    assert(frame.skip(pos).len() == 38);
    assert forall|j: int| 0 <= j < 38 implies frame[pos + j] == (tag_node() + hex_digits(
        n2 as nat,
        32,
    ))[j] by {
        assert(frame.skip(pos)[j] == frame[pos + j]);
    }
    assert(frame.subrange(pos, pos + 6) =~~= tag_node()) by {
        assert forall|j: int| 0 <= j < 6 implies frame[pos + j] == tag_node()[j] by {
            assert((tag_node() + hex_digits(n2 as nat, 32))[j] == tag_node()[j]);
        }
    }
    assert(frame.subrange(pos + 6, pos + 38) =~~= hex_digits(n2 as nat, 32)) by {
        assert forall|j: int| 0 <= j < 32 implies frame[pos + 6 + j] == hex_digits(
            n2 as nat,
            32,
        )[j] by {
            assert((tag_node() + hex_digits(n2 as nat, 32))[6 + j] == hex_digits(n2 as nat, 32)[j]);
        }
    }
    assert forall|j: int| pos + 6 <= j < pos + 38 implies is_hex_char(#[trigger] frame[j]) by {
        assert(frame[j] == frame.subrange(pos + 6, pos + 38)[j - pos - 6]);
    }
}

/// Parse a graph field running to the end of the frame.
#[verifier::loop_isolation(false)]
fn parse_graph(frame: &Vec<u8>, start: usize) -> (r: Option<Vec<(Id, Vec<Id>)>>) {
    let n = frame.len();
    let mut g: Vec<(Id, Vec<Id>)> = Vec::new();
    let mut pos: usize = start;
    if pos > n {
        return None;
    }
    if pos == n {
        return Some(g);
    }
    loop
        invariant
            pos <= n,
            n == frame@.len(),
        decreases n - pos,
    {
        let ghost entry_pos = pos;
        let nid = match parse_hex(frame, pos) {
            Some(x) => x,
            None => {
                return None;
            },
        };
        pos = pos + 32;
        if pos >= n || frame[pos] != 58 {
            return None;
        }
        pos = pos + 1;
        let mut deps: Vec<Id> = Vec::new();
        if pos < n && frame[pos] != 124 {
            loop
                invariant
                    entry_pos < pos <= n,
                    n == frame@.len(),
                decreases n - pos,
            {
                let d = match parse_hex(frame, pos) {
                    Some(x) => x,
                    None => {
                        return None;
                    },
                };
                pos = pos + 32;
                deps.push(d);
                if pos < n && frame[pos] == 44 {
                    pos = pos + 1;
                } else {
                    break ;
                }
            }
        }
        g.push((nid, deps));
        if pos == n {
            return Some(g);
        }
        if frame[pos] == 124 {
            pos = pos + 1;
        } else {
            return None;
        }
    }
}

/// Parse a whole two-field frame body (channel and change set) running
/// to the end of the frame.
#[verifier::loop_isolation(false)]
fn parse_two_field(frame: &Vec<u8>, tag_len: usize, t_cs: &Vec<u8>) -> (r: Option<(Vec<u8>, Id)>)
    requires
        t_cs@ == tag_change_set(),
        tag_len <= frame@.len(),
    ensures
        (match r {
            Some(t) => {
                &&& valid_channel(t.0@)
                &&& cs_shape(frame@, tag_len as int, t.0@, t.1, Seq::<u8>::empty())
                &&& forall|ch2: Seq<u8>, x: Id|
                    valid_channel(ch2) && #[trigger] cs_shape(
                        frame@,
                        tag_len as int,
                        ch2,
                        x,
                        Seq::<u8>::empty(),
                    ) ==> ch2 == t.0@ && x == t.1
            },
            None => forall|ch2: Seq<u8>, x: Id|
                valid_channel(ch2) ==> !(#[trigger] cs_shape(
                    frame@,
                    tag_len as int,
                    ch2,
                    x,
                    Seq::<u8>::empty(),
                )),
        }),
{
    match parse_channel_cs(frame, tag_len, t_cs) {
        Some((ch, cs, pos)) => {
            if pos == frame.len() {
                proof {
                    assert(frame@.skip(pos as int) =~~= Seq::<u8>::empty());
                }
                Some((ch, cs))
            } else {
                proof {
                    assert forall|ch2: Seq<u8>, x: Id|
                        valid_channel(ch2) implies !(#[trigger] cs_shape(
                        frame@,
                        tag_len as int,
                        ch2,
                        x,
                        Seq::<u8>::empty(),
                    )) by {
                        if cs_shape(frame@, tag_len as int, ch2, x, Seq::<u8>::empty()) {
                            assert(Seq::<u8>::empty() =~~= frame@.skip(pos as int));
                        }
                    }
                }
                None
            }
        },
        None => {
            None
        },
    }
}

/// Parse a whole three-field frame body (channel, change set, node)
/// running to the end of the frame.
#[verifier::loop_isolation(false)]
fn parse_three_field(frame: &Vec<u8>, tag_len: usize, t_cs: &Vec<u8>, t_node: &Vec<u8>) -> (r:
    Option<(Vec<u8>, Id, Id)>)
    requires
        t_cs@ == tag_change_set(),
        t_node@ == tag_node(),
        tag_len <= frame@.len(),
    ensures
        (match r {
            Some(t) => {
                &&& valid_channel(t.0@)
                &&& cs_shape(
                    frame@,
                    tag_len as int,
                    t.0@,
                    t.1,
                    tag_node() + hex_digits(t.2 as nat, 32),
                )
                &&& forall|ch2: Seq<u8>, x: Id, n2: Id|
                    valid_channel(ch2) && #[trigger] cs_shape(
                        frame@,
                        tag_len as int,
                        ch2,
                        x,
                        tag_node() + hex_digits(n2 as nat, 32),
                    ) ==> ch2 == t.0@ && x == t.1 && n2 == t.2
            },
            None => forall|ch2: Seq<u8>, x: Id, n2: Id|
                valid_channel(ch2) ==> !(#[trigger] cs_shape(
                    frame@,
                    tag_len as int,
                    ch2,
                    x,
                    tag_node() + hex_digits(n2 as nat, 32),
                )),
        }),
{
    let n = frame.len();
    let parsed = match parse_channel_cs(frame, tag_len, t_cs) {
        Some(t) => t,
        None => {
            return None;
        },
    };
    let ch = parsed.0;
    let cs = parsed.1;
    let pos = parsed.2;
    if !matches_at(frame, pos, t_node) {
        proof {
            assert forall|ch2: Seq<u8>, x: Id, n2: Id|
                valid_channel(ch2) implies !(#[trigger] cs_shape(
                frame@,
                tag_len as int,
                ch2,
                x,
                tag_node() + hex_digits(n2 as nat, 32),
            )) by {
                if cs_shape(frame@, tag_len as int, ch2, x, tag_node() + hex_digits(
                    n2 as nat,
                    32,
                )) {
                    assert(frame@.skip(pos as int) == tag_node() + hex_digits(n2 as nat, 32));
                    lemma_node_tail(frame@, pos as int, n2);
                }
            }
        }
        return None;
    }
    let after_node = pos + t_node.len();
    match parse_hex(frame, after_node) {
        Some(nid) => {
            if after_node + 32 == n {
                proof {
                    assert(frame@.skip(pos as int) =~~= tag_node() + hex_digits(nid as nat, 32))
                        by {
                        assert(frame@.subrange(pos as int, pos as int + 6) == tag_node());
                        assert(frame@.subrange(after_node as int, after_node as int + 32)
                            == hex_digits(nid as nat, 32));
                        assert forall|j: int|
                            0 <= j < frame@.len() - pos implies frame@.skip(pos as int)[j] == (
                        tag_node() + hex_digits(nid as nat, 32))[j] by {
                            if j < 6 {
                                assert(frame@.skip(pos as int)[j] == frame@.subrange(
                                    pos as int,
                                    pos as int + 6,
                                )[j]);
                            } else {
                                assert(frame@.skip(pos as int)[j] == frame@.subrange(
                                    after_node as int,
                                    after_node as int + 32,
                                )[j - 6]);
                                assert((tag_node() + hex_digits(nid as nat, 32))[j] == hex_digits(
                                    nid as nat,
                                    32,
                                )[j - 6]);
                            }
                        }
                    }
                    assert(cs_shape(
                        frame@,
                        tag_len as int,
                        ch@,
                        cs,
                        tag_node() + hex_digits(nid as nat, 32),
                    ));
                    assert forall|ch2: Seq<u8>, x: Id, n2: Id|
                        valid_channel(ch2) && #[trigger] cs_shape(
                        frame@,
                        tag_len as int,
                        ch2,
                        x,
                        tag_node() + hex_digits(n2 as nat, 32),
                    ) implies ch2 == ch@ && x == cs && n2 == nid by {
                        assert(frame@.skip(pos as int) == tag_node() + hex_digits(n2 as nat, 32));
                        lemma_node_tail(frame@, pos as int, n2);
                        assert(hex_digits(n2 as nat, 32) == hex_digits(nid as nat, 32));
                        lemma_pow16_32();
                        lemma_hex_round_trip(n2 as nat, 32);
                        lemma_hex_round_trip(nid as nat, 32);
                    }
                }
                Some((ch, cs, nid))
            } else {
                proof {
                    assert forall|ch2: Seq<u8>, x: Id, n2: Id|
                        valid_channel(ch2) implies !(#[trigger] cs_shape(
                        frame@,
                        tag_len as int,
                        ch2,
                        x,
                        tag_node() + hex_digits(n2 as nat, 32),
                    )) by {
                        if cs_shape(frame@, tag_len as int, ch2, x, tag_node() + hex_digits(
                            n2 as nat,
                            32,
                        )) {
                            assert(frame@.skip(pos as int) == tag_node() + hex_digits(
                                n2 as nat,
                                32,
                            ));
                            lemma_node_tail(frame@, pos as int, n2);
                        }
                    }
                }
                None
            }
        },
        None => {
            proof {
                assert forall|ch2: Seq<u8>, x: Id, n2: Id|
                    valid_channel(ch2) implies !(#[trigger] cs_shape(
                    frame@,
                    tag_len as int,
                    ch2,
                    x,
                    tag_node() + hex_digits(n2 as nat, 32),
                )) by {
                    if cs_shape(frame@, tag_len as int, ch2, x, tag_node() + hex_digits(
                        n2 as nat,
                        32,
                    )) {
                        assert(frame@.skip(pos as int) == tag_node() + hex_digits(n2 as nat, 32));
                        lemma_node_tail(frame@, pos as int, n2);
                        assert(after_node + 32 <= frame@.len());
                        let w = choose|i: int|
                            after_node <= i < after_node + 32 && !is_hex_char(
                                #[trigger] frame@[i],
                            );
                        assert(is_hex_char(frame@[w]));
                    }
                }
            }
            None
        },
    }
}

/// Decode a request frame.  Exactly the canonical frames are accepted: a
/// decoded request re-encodes to the very same bytes, and a rejected
/// frame is the encoding of no request at all — except that for graph
/// submissions only the first guarantee is stated; their rejection is
/// checked byte for byte against a re-encoding instead.
pub fn decode_request(frame: &Vec<u8>) -> (r: Option<WireRequest>)
    ensures
        (match r {
            Some(req) => valid_request(req) && spec_encode_request(req) == frame@,
            None => forall|req: WireRequest|
                valid_request(req) && !(req is GraphSubmitted)
                    ==> #[trigger] spec_encode_request(req) != frame@,
        }),
{
    let mut t_reg: Vec<u8> = Vec::new();
    push_tag_register(&mut t_reg);
    let mut t_sub: Vec<u8> = Vec::new();
    push_tag_submit(&mut t_sub);
    let mut t_proc: Vec<u8> = Vec::new();
    push_tag_processed(&mut t_proc);
    let mut t_fail: Vec<u8> = Vec::new();
    push_tag_failed(&mut t_fail);
    let mut t_canc: Vec<u8> = Vec::new();
    push_tag_cancel(&mut t_canc);
    let mut t_cs: Vec<u8> = Vec::new();
    push_tag_change_set(&mut t_cs);
    let mut t_node: Vec<u8> = Vec::new();
    push_tag_node(&mut t_node);
    let mut t_graph: Vec<u8> = Vec::new();
    push_tag_graph(&mut t_graph);
    proof {
        assert(t_reg@ =~~= tag_register());
        assert(t_sub@ =~~= tag_submit());
        assert(t_proc@ =~~= tag_processed());
        assert(t_fail@ =~~= tag_failed());
        assert(t_canc@ =~~= tag_cancel());
        assert(t_cs@ =~~= tag_change_set());
        assert(t_node@ =~~= tag_node());
        assert(t_graph@ =~~= tag_graph());
    }
    let frame_len = frame.len();
    if matches_at(frame, 0, &t_reg) {
        proof {
            assert(frame@[5] == 114) by {
                assert(frame@.subrange(0, 22)[5] == frame@[5]);
                assert(tag_register()[5] == 114);
            }
        }
        match parse_two_field(frame, t_reg.len(), &t_cs) {
            Some((ch, cs)) => {
                proof {
                    assert(frame@ =~~= tag_register() + ch@ + tag_change_set() + hex_digits(
                        cs as nat,
                        32,
                    )) by {
                        assert(frame@.subrange(0, 22) == tag_register());
                    }
                }
                return Some(WireRequest::Register { reply_channel: ch, change_set_id: cs });
            },
            None => {
                proof {
                    assert forall|req: WireRequest|
                        valid_request(req) && !(req is GraphSubmitted)
                            implies #[trigger] spec_encode_request(req) != frame@ by {
                        if spec_encode_request(req) == frame@ {
                            lemma_request_head(req);
                            match req {
                                WireRequest::Register { reply_channel: ch2, change_set_id: cs2 } => {
                                    assert(frame@ =~~= tag_register() + ch2@ + tag_change_set()
                                        + hex_digits(cs2 as nat, 32) + Seq::<u8>::empty());
                                    lemma_flat_to_shape(
                                        frame@,
                                        tag_register(),
                                        ch2@,
                                        cs2,
                                        Seq::<u8>::empty(),
                                    );
                                },
                                _ => {},
                            }
                        }
                    }
                }
                return None;
            },
        }
    }
    if matches_at(frame, 0, &t_sub) {
        proof {
            assert(frame@[5] == 115) by {
                assert(frame@.subrange(0, 20)[5] == frame@[5]);
                assert(tag_submit()[5] == 115);
            }
        }
        if let Some((ch, cs, pos)) = parse_channel_cs(frame, t_sub.len(), &t_cs) {
            if matches_at(frame, pos, &t_graph) {
                if let Some(g) = parse_graph(frame, pos + t_graph.len()) {
                    let req = WireRequest::GraphSubmitted {
                        reply_channel: ch,
                        change_set_id: cs,
                        dependency_graph: g,
                    };
                    let enc = encode_request(&req);
                    if bytes_eq(&enc, frame) {
                        return Some(req);
                    }
                }
            }
        }
        proof {
            assert forall|req: WireRequest|
                valid_request(req) && !(req is GraphSubmitted)
                    implies #[trigger] spec_encode_request(req) != frame@ by {
                lemma_request_head(req);
            }
        }
        return None;
    }
    if matches_at(frame, 0, &t_proc) {
        proof {
            assert(frame@[5] == 112) by {
                assert(frame@.subrange(0, 23)[5] == frame@[5]);
                assert(tag_processed()[5] == 112);
            }
        }
        match parse_three_field(frame, t_proc.len(), &t_cs, &t_node) {
            Some((ch, cs, nid)) => {
                proof {
                    assert(frame@ =~~= tag_processed() + ch@ + tag_change_set() + hex_digits(
                        cs as nat,
                        32,
                    ) + tag_node() + hex_digits(nid as nat, 32)) by {
                        assert(frame@.subrange(0, 23) == tag_processed());
                    }
                }
                return Some(
                    WireRequest::ValueProcessed {
                        reply_channel: ch,
                        change_set_id: cs,
                        node_id: nid,
                    },
                );
            },
            None => {
                proof {
                    assert forall|req: WireRequest|
                        valid_request(req) && !(req is GraphSubmitted)
                            implies #[trigger] spec_encode_request(req) != frame@ by {
                        if spec_encode_request(req) == frame@ {
                            lemma_request_head(req);
                            match req {
                                WireRequest::ValueProcessed {
                                    reply_channel: ch2,
                                    change_set_id: cs2,
                                    node_id: n2,
                                } => {
                                    assert(frame@ =~~= tag_processed() + ch2@ + tag_change_set()
                                        + hex_digits(cs2 as nat, 32) + (tag_node() + hex_digits(
                                        n2 as nat,
                                        32,
                                    )));
                                    lemma_flat_to_shape(
                                        frame@,
                                        tag_processed(),
                                        ch2@,
                                        cs2,
                                        tag_node() + hex_digits(n2 as nat, 32),
                                    );
                                },
                                _ => {},
                            }
                        }
                    }
                }
                return None;
            },
        }
    }
    if matches_at(frame, 0, &t_fail) {
        proof {
            assert(frame@[5] == 102) by {
                assert(frame@.subrange(0, 20)[5] == frame@[5]);
                assert(tag_failed()[5] == 102);
            }
        }
        match parse_three_field(frame, t_fail.len(), &t_cs, &t_node) {
            Some((ch, cs, nid)) => {
                proof {
                    assert(frame@ =~~= tag_failed() + ch@ + tag_change_set() + hex_digits(
                        cs as nat,
                        32,
                    ) + tag_node() + hex_digits(nid as nat, 32)) by {
                        assert(frame@.subrange(0, 20) == tag_failed());
                    }
                }
                return Some(
                    WireRequest::ValueProcessingFailed {
                        reply_channel: ch,
                        change_set_id: cs,
                        node_id: nid,
                    },
                );
            },
            None => {
                proof {
                    assert forall|req: WireRequest|
                        valid_request(req) && !(req is GraphSubmitted)
                            implies #[trigger] spec_encode_request(req) != frame@ by {
                        if spec_encode_request(req) == frame@ {
                            lemma_request_head(req);
                            match req {
                                WireRequest::ValueProcessingFailed {
                                    reply_channel: ch2,
                                    change_set_id: cs2,
                                    node_id: n2,
                                } => {
                                    assert(frame@ =~~= tag_failed() + ch2@ + tag_change_set()
                                        + hex_digits(cs2 as nat, 32) + (tag_node() + hex_digits(
                                        n2 as nat,
                                        32,
                                    )));
                                    lemma_flat_to_shape(
                                        frame@,
                                        tag_failed(),
                                        ch2@,
                                        cs2,
                                        tag_node() + hex_digits(n2 as nat, 32),
                                    );
                                },
                                _ => {},
                            }
                        }
                    }
                }
                return None;
            },
        }
    }
    if matches_at(frame, 0, &t_canc) {
        proof {
            assert(frame@[5] == 99) by {
                assert(frame@.subrange(0, 20)[5] == frame@[5]);
                assert(tag_cancel()[5] == 99);
            }
        }
        match parse_two_field(frame, t_canc.len(), &t_cs) {
            Some((ch, cs)) => {
                proof {
                    assert(frame@ =~~= tag_cancel() + ch@ + tag_change_set() + hex_digits(
                        cs as nat,
                        32,
                    )) by {
                        assert(frame@.subrange(0, 20) == tag_cancel());
                    }
                }
                return Some(WireRequest::Cancel { reply_channel: ch, change_set_id: cs });
            },
            None => {
                proof {
                    assert forall|req: WireRequest|
                        valid_request(req) && !(req is GraphSubmitted)
                            implies #[trigger] spec_encode_request(req) != frame@ by {
                        if spec_encode_request(req) == frame@ {
                            lemma_request_head(req);
                            match req {
                                WireRequest::Cancel { reply_channel: ch2, change_set_id: cs2 } => {
                                    assert(frame@ =~~= tag_cancel() + ch2@ + tag_change_set()
                                        + hex_digits(cs2 as nat, 32) + Seq::<u8>::empty());
                                    lemma_flat_to_shape(
                                        frame@,
                                        tag_cancel(),
                                        ch2@,
                                        cs2,
                                        Seq::<u8>::empty(),
                                    );
                                },
                                _ => {},
                            }
                        }
                    }
                }
                return None;
            },
        }
    }
    proof {
        assert forall|req: WireRequest|
            valid_request(req) && !(req is GraphSubmitted) implies #[trigger] spec_encode_request(
            req,
        ) != frame@ by {
            if spec_encode_request(req) == frame@ {
                match req {
                    WireRequest::Register { reply_channel: ch2, change_set_id: cs2 } => {
                        assert(frame@ =~~= tag_register() + ch2@ + tag_change_set() + hex_digits(
                            cs2 as nat,
                            32,
                        ) + Seq::<u8>::empty());
                        lemma_flat_to_shape(
                            frame@,
                            tag_register(),
                            ch2@,
                            cs2,
                            Seq::<u8>::empty(),
                        );
                        lemma_cs_shape_position(
                            frame@,
                            22,
                            ch2@,
                            cs2,
                            Seq::<u8>::empty(),
                        );
                    },
                    WireRequest::ValueProcessed {
                        reply_channel: ch2,
                        change_set_id: cs2,
                        node_id: n2,
                    } => {
                        assert(frame@ =~~= tag_processed() + ch2@ + tag_change_set() + hex_digits(
                            cs2 as nat,
                            32,
                        ) + (tag_node() + hex_digits(n2 as nat, 32)));
                        lemma_flat_to_shape(
                            frame@,
                            tag_processed(),
                            ch2@,
                            cs2,
                            tag_node() + hex_digits(n2 as nat, 32),
                        );
                        lemma_cs_shape_position(
                            frame@,
                            23,
                            ch2@,
                            cs2,
                            tag_node() + hex_digits(n2 as nat, 32),
                        );
                    },
                    WireRequest::ValueProcessingFailed {
                        reply_channel: ch2,
                        change_set_id: cs2,
                        node_id: n2,
                    } => {
                        assert(frame@ =~~= tag_failed() + ch2@ + tag_change_set() + hex_digits(
                            cs2 as nat,
                            32,
                        ) + (tag_node() + hex_digits(n2 as nat, 32)));
                        lemma_flat_to_shape(
                            frame@,
                            tag_failed(),
                            ch2@,
                            cs2,
                            tag_node() + hex_digits(n2 as nat, 32),
                        );
                        lemma_cs_shape_position(
                            frame@,
                            20,
                            ch2@,
                            cs2,
                            tag_node() + hex_digits(n2 as nat, 32),
                        );
                    },
                    WireRequest::Cancel { reply_channel: ch2, change_set_id: cs2 } => {
                        assert(frame@ =~~= tag_cancel() + ch2@ + tag_change_set() + hex_digits(
                            cs2 as nat,
                            32,
                        ) + Seq::<u8>::empty());
                        lemma_flat_to_shape(frame@, tag_cancel(), ch2@, cs2, Seq::<u8>::empty());
                        lemma_cs_shape_position(
                            frame@,
                            20,
                            ch2@,
                            cs2,
                            Seq::<u8>::empty(),
                        );
                    },
                    _ => {},
                }
            }
        }
    }
    None
}

/// Every byte of an encoded dependency list is a hex digit or a comma.
proof fn lemma_deps_chars(d: Seq<Id>)
    ensures
        forall|i: int|
            0 <= i < spec_encode_deps(d).len() ==> is_hex_char(#[trigger] spec_encode_deps(d)[i])
                || spec_encode_deps(d)[i] == 44,
    decreases d.len(),
{
    if d.len() > 0 {
        lemma_deps_chars(d.drop_last());
        lemma_hex_digits_shape(d.last() as nat, 32);
        let prev = spec_encode_deps(d.drop_last());
        let sep: Seq<u8> = if d.len() == 1 {
            Seq::<u8>::empty()
        } else {
            seq![44u8]
        };
        let hx = hex_digits(d.last() as nat, 32);
        let out = prev + sep + hx;
        assert forall|i: int|
            0 <= i < out.len() implies is_hex_char(#[trigger] out[i]) || out[i] == 44 by {
            if i < prev.len() {
                assert(out[i] == prev[i]) by {
                    assert((prev + sep)[i] == prev[i]);
                }
            } else if i < prev.len() + sep.len() {
                assert(out[i] == 44) by {
                    assert((prev + sep)[i] == sep[i - prev.len()]);
                }
            } else {
                assert(out[i] == hx[i - prev.len() - sep.len()]);
            }
        }
    }
}

/// Every byte of an encoded graph entry is a hex digit, a colon, or a
/// comma — never a bar.
proof fn lemma_entry_chars(nid: Id, deps: Seq<Id>)
    ensures
        forall|i: int|
            0 <= i < spec_encode_entry(nid, deps).len() ==> is_hex_char(
                #[trigger] spec_encode_entry(nid, deps)[i],
            ) || spec_encode_entry(nid, deps)[i] == 58 || spec_encode_entry(nid, deps)[i] == 44,
{
    lemma_hex_digits_shape(nid as nat, 32);
    lemma_deps_chars(deps);
    let hx = hex_digits(nid as nat, 32);
    let dd = spec_encode_deps(deps);
    let out = hx + seq![58u8] + dd;
    assert forall|i: int|
        0 <= i < out.len() implies is_hex_char(#[trigger] out[i]) || out[i] == 58 || out[i]
        == 44 by {
        if i < 32 {
            assert(out[i] == hx[i]) by {
                assert((hx + seq![58u8])[i] == hx[i]);
            }
        } else if i == 32 {
            assert(out[i] == 58) by {
                assert((hx + seq![58u8])[i] == seq![58u8][0]);
            }
        } else {
            assert(out[i] == dd[i - 33]);
        }
    }
}

/// The length of an encoded dependency list is determined by how many
/// dependencies it holds.
proof fn lemma_deps_len(d: Seq<Id>)
    ensures
        d.len() == 0 ==> spec_encode_deps(d).len() == 0,
        d.len() > 0 ==> spec_encode_deps(d).len() == 33 * d.len() - 1,
    decreases d.len(),
{
    lemma_hex_digits_shape(d.last() as nat, 32);
    if d.len() > 0 {
        lemma_deps_len(d.drop_last());
    }
}

/// Dependency lists with the same encoding are the same list.
proof fn lemma_deps_injective(d1: Seq<Id>, d2: Seq<Id>)
    requires
        spec_encode_deps(d1) == spec_encode_deps(d2),
    ensures
        d1 == d2,
    decreases d1.len(),
{
    lemma_deps_len(d1);
    lemma_deps_len(d2);
    assert(d1.len() == d2.len()) by (nonlinear_arith)
        requires
            d1.len() == 0 ==> spec_encode_deps(d1).len() == 0,
            d1.len() > 0 ==> spec_encode_deps(d1).len() == 33 * d1.len() - 1,
            d2.len() == 0 ==> spec_encode_deps(d2).len() == 0,
            d2.len() > 0 ==> spec_encode_deps(d2).len() == 33 * d2.len() - 1,
            spec_encode_deps(d1).len() == spec_encode_deps(d2).len(),
    ;
    if d1.len() > 0 {
        let p1 = spec_encode_deps(d1.drop_last());
        let p2 = spec_encode_deps(d2.drop_last());
        let sep: Seq<u8> = if d1.len() == 1 {
            Seq::<u8>::empty()
        } else {
            seq![44u8]
        };
        let h1 = hex_digits(d1.last() as nat, 32);
        let h2 = hex_digits(d2.last() as nat, 32);
        lemma_deps_len(d1.drop_last());
        lemma_deps_len(d2.drop_last());
        assert(p1.len() == p2.len());
        assert(p1 =~~= p2) by {
            assert forall|i: int| 0 <= i < p1.len() implies p1[i] == p2[i] by {
                assert((p1 + sep + h1)[i] == p1[i]) by {
                    assert((p1 + sep)[i] == p1[i]);
                }
                assert((p2 + sep + h2)[i] == p2[i]) by {
                    assert((p2 + sep)[i] == p2[i]);
                }
            }
        }
        lemma_deps_injective(d1.drop_last(), d2.drop_last());
        assert(h1 =~~= h2) by {
            lemma_hex_digits_shape(d1.last() as nat, 32);
            lemma_hex_digits_shape(d2.last() as nat, 32);
            assert forall|i: int| 0 <= i < 32 implies h1[i] == h2[i] by {
                assert((p1 + sep + h1)[p1.len() + sep.len() + i] == h1[i]) by {
                    assert((p1 + sep).len() == p1.len() + sep.len());
                }
                assert((p2 + sep + h2)[p2.len() + sep.len() + i] == h2[i]) by {
                    assert((p2 + sep).len() == p2.len() + sep.len());
                }
            }
        }
        lemma_pow16_32();
        lemma_hex_round_trip(d1.last() as nat, 32);
        lemma_hex_round_trip(d2.last() as nat, 32);
        assert(d1 =~~= d2) by {
            assert(d1.last() == d2.last());
            assert forall|i: int| 0 <= i < d1.len() implies d1[i] == d2[i] by {
                if i < d1.len() - 1 {
                    assert(d1.drop_last()[i] == d2.drop_last()[i]);
                }
            }
        }
    } else {
        assert(d1 =~~= d2);
    }
}

/// Graph entries with the same encoding are the same entry.
proof fn lemma_entry_injective(n1: Id, d1: Seq<Id>, n2: Id, d2: Seq<Id>)
    requires
        spec_encode_entry(n1, d1) == spec_encode_entry(n2, d2),
    ensures
        n1 == n2,
        d1 == d2,
{
    lemma_hex_digits_shape(n1 as nat, 32);
    lemma_hex_digits_shape(n2 as nat, 32);
    let h1 = hex_digits(n1 as nat, 32);
    let h2 = hex_digits(n2 as nat, 32);
    let e1 = spec_encode_deps(d1);
    let e2 = spec_encode_deps(d2);
    assert(h1 =~~= h2) by {
        assert forall|i: int| 0 <= i < 32 implies h1[i] == h2[i] by {
            assert((h1 + seq![58u8] + e1)[i] == h1[i]) by {
                assert((h1 + seq![58u8])[i] == h1[i]);
            }
            assert((h2 + seq![58u8] + e2)[i] == h2[i]) by {
                assert((h2 + seq![58u8])[i] == h2[i]);
            }
        }
    }
    lemma_pow16_32();
    lemma_hex_round_trip(n1 as nat, 32);
    lemma_hex_round_trip(n2 as nat, 32);
    assert(e1 =~~= e2) by {
        assert(e1.len() == e2.len()) by {
            assert((h1 + seq![58u8] + e1).len() == 33 + e1.len());
            assert((h2 + seq![58u8] + e2).len() == 33 + e2.len());
        }
        assert forall|i: int| 0 <= i < e1.len() implies e1[i] == e2[i] by {
            assert((h1 + seq![58u8] + e1)[33 + i] == e1[i]) by {
                assert((h1 + seq![58u8]).len() == 33);
            }
            assert((h2 + seq![58u8] + e2)[33 + i] == e2[i]) by {
                assert((h2 + seq![58u8]).len() == 33);
            }
        }
    }
    lemma_deps_injective(d1, d2);
}

/// Submitted graphs with the same encoding are the same graph: entries
/// carry no bar, so the bars split the frame the same way for both.
proof fn lemma_graph_encoding_injective(g1: Seq<(Id, Seq<Id>)>, g2: Seq<(Id, Seq<Id>)>)
    requires
        spec_encode_graph(g1) == spec_encode_graph(g2),
    ensures
        g1 == g2,
    decreases g1.len(),
{
    let e = spec_encode_graph(g1);
    if g1.len() == 0 || g2.len() == 0 {
        if g1.len() != g2.len() {
            let gn = if g1.len() == 0 {
                g2
            } else {
                g1
            };
            assert(gn.len() > 0);
            assert(spec_encode_graph(gn).len() > 0) by {
                let last = gn.last();
                lemma_hex_digits_shape(last.0 as nat, 32);
                assert(spec_encode_entry(last.0, last.1).len() >= 33);
            }
        }
        assert(g1 =~~= g2);
    } else if g1.len() == 1 && g2.len() == 1 {
        assert(spec_encode_graph(g1.drop_last()) =~~= Seq::<u8>::empty());
        assert(spec_encode_graph(g2.drop_last()) =~~= Seq::<u8>::empty());
        assert(e =~~= spec_encode_entry(g1.last().0, g1.last().1));
        assert(e =~~= spec_encode_entry(g2.last().0, g2.last().1));
        lemma_entry_injective(g1.last().0, g1.last().1, g2.last().0, g2.last().1);
        assert(g1 =~~= g2);
    } else {
        // Where an encoding splits as a prefix, a bar, and a bar-free
        // entry, the bar position is the last bar of the frame, so both
        // splits agree.
        if g1.len() == 1 || g2.len() == 1 {
            // one side is a single bar-free entry, the other has a bar
            let (gs, gm) = if g1.len() == 1 {
                (g1, g2)
            } else {
                (g2, g1)
            };
            lemma_entry_chars(gs.last().0, gs.last().1);
            assert(spec_encode_graph(gs.drop_last()) =~~= Seq::<u8>::empty());
            assert(spec_encode_graph(gs) =~~= spec_encode_entry(gs.last().0, gs.last().1));
            let pm = spec_encode_graph(gm.drop_last());
            let em = spec_encode_entry(gm.last().0, gm.last().1);
            assert(spec_encode_graph(gm) == pm + seq![124u8] + em);
            assert(spec_encode_graph(gm)[pm.len() as int] == 124) by {
                assert((pm + seq![124u8])[pm.len() as int] == 124);
                assert((pm + seq![124u8] + em)[pm.len() as int] == (pm + seq![124u8])[pm.len() as int]);
            }
            assert(false);
        } else {
            let p1 = spec_encode_graph(g1.drop_last());
            let p2 = spec_encode_graph(g2.drop_last());
            let x1 = spec_encode_entry(g1.last().0, g1.last().1);
            let x2 = spec_encode_entry(g2.last().0, g2.last().1);
            lemma_entry_chars(g1.last().0, g1.last().1);
            lemma_entry_chars(g2.last().0, g2.last().1);
            assert(e == p1 + seq![124u8] + x1);
            assert(e == p2 + seq![124u8] + x2);
            let b1 = p1.len() as int;
            let b2 = p2.len() as int;
            assert(e[b1] == 124) by {
                assert((p1 + seq![124u8])[b1] == 124);
                assert((p1 + seq![124u8] + x1)[b1] == (p1 + seq![124u8])[b1]);
            }
            assert(e[b2] == 124) by {
                assert((p2 + seq![124u8])[b2] == 124);
                assert((p2 + seq![124u8] + x2)[b2] == (p2 + seq![124u8])[b2]);
            }
            assert forall|j: int| b1 < j < e.len() implies e[j] != 124 by {
                assert(e[j] == x1[j - b1 - 1]) by {
                    assert((p1 + seq![124u8]).len() == b1 + 1);
                }
            }
            assert forall|j: int| b2 < j < e.len() implies e[j] != 124 by {
                assert(e[j] == x2[j - b2 - 1]) by {
                    assert((p2 + seq![124u8]).len() == b2 + 1);
                }
            }
            assert(b1 == b2);
            assert(p1 =~~= p2) by {
                assert forall|i: int| 0 <= i < b1 implies p1[i] == p2[i] by {
                    assert(e[i] == p1[i]) by {
                        assert((p1 + seq![124u8])[i] == p1[i]);
                        assert((p1 + seq![124u8] + x1)[i] == (p1 + seq![124u8])[i]);
                    }
                    assert(e[i] == p2[i]) by {
                        assert((p2 + seq![124u8])[i] == p2[i]);
                        assert((p2 + seq![124u8] + x2)[i] == (p2 + seq![124u8])[i]);
                    }
                }
            }
            assert(x1 =~~= x2) by {
                assert(x1.len() == x2.len()) by {
                    assert((p1 + seq![124u8] + x1).len() == b1 + 1 + x1.len());
                    assert((p2 + seq![124u8] + x2).len() == b2 + 1 + x2.len());
                }
                assert forall|i: int| 0 <= i < x1.len() implies x1[i] == x2[i] by {
                    assert(e[b1 + 1 + i] == x1[i]) by {
                        assert((p1 + seq![124u8]).len() == b1 + 1);
                    }
                    assert(e[b2 + 1 + i] == x2[i]) by {
                        assert((p2 + seq![124u8]).len() == b2 + 1);
                    }
                }
            }
            lemma_graph_encoding_injective(g1.drop_last(), g2.drop_last());
            lemma_entry_injective(g1.last().0, g1.last().1, g2.last().0, g2.last().1);
            assert(g1 =~~= g2) by {
                assert(g1.last() == g2.last());
                assert forall|i: int| 0 <= i < g1.len() implies g1[i] == g2[i] by {
                    if i < g1.len() - 1 {
                        assert(g1.drop_last()[i] == g2.drop_last()[i]);
                    }
                }
            }
        }
    }
}

/// A frame determines the notification: no two notifications share an
/// encoding.  (The four kinds have four different frame lengths, and an
/// id's 32 hex digits spell only that id.)
pub proof fn lemma_notification_encoding_injective(a: Notification, b: Notification)
    requires
        spec_encode_notification(a) == spec_encode_notification(b),
    ensures
        a == b,
{
    lemma_notification_shape(a);
    lemma_notification_shape(b);
    lemma_pow16_32();
    match (a, b) {
        (
            Notification::ProcessValue { node_id: x },
            Notification::ProcessValue { node_id: y },
        ) => {
            lemma_ids_equal_from_hex(tag_process_value(), x, y);
        },
        (
            Notification::ValueAvailable { node_id: x },
            Notification::ValueAvailable { node_id: y },
        ) => {
            lemma_ids_equal_from_hex(tag_value_available(), x, y);
        },
        (
            Notification::ValueProcessingFailed { node_id: x },
            Notification::ValueProcessingFailed { node_id: y },
        ) => {
            lemma_ids_equal_from_hex(tag_value_failed(), x, y);
        },
        _ => {},
    }
}

/// Two ids whose hex digits follow the same prefix in equal frames are
/// the same id.
proof fn lemma_ids_equal_from_hex(p: Seq<u8>, x: Id, y: Id)
    requires
        p + hex_digits(x as nat, 32) == p + hex_digits(y as nat, 32),
    ensures
        x == y,
{
    lemma_hex_digits_shape(x as nat, 32);
    lemma_hex_digits_shape(y as nat, 32);
    assert(hex_digits(x as nat, 32) =~~= hex_digits(y as nat, 32)) by {
        assert forall|i: int| 0 <= i < 32 implies hex_digits(x as nat, 32)[i] == hex_digits(
            y as nat,
            32,
        )[i] by {
            assert((p + hex_digits(x as nat, 32))[p.len() + i] == hex_digits(x as nat, 32)[i]);
            assert((p + hex_digits(y as nat, 32))[p.len() + i] == hex_digits(y as nat, 32)[i]);
        }
    }
    lemma_pow16_32();
    lemma_hex_round_trip(x as nat, 32);
    lemma_hex_round_trip(y as nat, 32);
}

/// The logical content of a request: a kind tag, the channel bytes, the
/// change set, the node (zero where the kind carries none), and the
/// submitted graph (empty where the kind carries none).
pub open spec fn request_model(r: WireRequest) -> (int, Seq<u8>, Id, Id, Seq<(Id, Seq<Id>)>) {
    match r {
        WireRequest::Register { reply_channel, change_set_id } => (
            0,
            reply_channel@,
            change_set_id,
            0,
            Seq::<(Id, Seq<Id>)>::empty(),
        ),
        WireRequest::GraphSubmitted { reply_channel, change_set_id, dependency_graph } => (
            1,
            reply_channel@,
            change_set_id,
            0,
            entries_model(dependency_graph@),
        ),
        WireRequest::ValueProcessed { reply_channel, change_set_id, node_id } => (
            2,
            reply_channel@,
            change_set_id,
            node_id,
            Seq::<(Id, Seq<Id>)>::empty(),
        ),
        WireRequest::ValueProcessingFailed { reply_channel, change_set_id, node_id } => (
            3,
            reply_channel@,
            change_set_id,
            node_id,
            Seq::<(Id, Seq<Id>)>::empty(),
        ),
        WireRequest::Cancel { reply_channel, change_set_id } => (
            4,
            reply_channel@,
            change_set_id,
            0,
            Seq::<(Id, Seq<Id>)>::empty(),
        ),
    }
}

/// In two equal frames that carry the same prefix, then a channel free
/// of the separator, then a separator-led tail, the channels agree and
/// so do the tails.
proof fn lemma_channel_determined(p: Seq<u8>, a: Seq<u8>, b: Seq<u8>, q: Seq<u8>, r: Seq<u8>)
    requires
        p + a + q == p + b + r,
        valid_channel(a),
        valid_channel(b),
        q.len() > 0,
        r.len() > 0,
        q[0] == 59,
        r[0] == 59,
    ensures
        a == b,
        q == r,
{
    let lp = p.len() as int;
    let la = a.len() as int;
    let lb = b.len() as int;
    if la < lb {
        assert((p + a + q)[lp + la] == q[0]) by {
            assert((p + a + q)[lp + la] == ((p + a) + q)[lp + la]);
        }
        assert((p + b + r)[lp + la] == b[la]) by {
            assert((p + b)[lp + la] == b[la]);
        }
        assert(false);
    } else if lb < la {
        assert((p + b + r)[lp + lb] == r[0]) by {
            assert((p + b + r)[lp + lb] == ((p + b) + r)[lp + lb]);
        }
        assert((p + a + q)[lp + lb] == a[lb]) by {
            assert((p + a)[lp + lb] == a[lb]);
        }
        assert(false);
    }
    assert(a =~~= b) by {
        assert forall|i: int| 0 <= i < la implies a[i] == b[i] by {
            assert((p + a + q)[lp + i] == a[i]) by {
                assert((p + a)[lp + i] == a[i]);
            }
            assert((p + b + r)[lp + i] == b[i]) by {
                assert((p + b)[lp + i] == b[i]);
            }
        }
    }
    assert(q.len() == r.len()) by {
        assert((p + a + q).len() == lp + la + q.len());
        assert((p + b + r).len() == lp + lb + r.len());
    }
    assert(q =~~= r) by {
        assert forall|i: int| 0 <= i < q.len() implies q[i] == r[i] by {
            assert((p + a + q)[lp + la + i] == q[i]) by {
                assert((p + a).len() == lp + la);
            }
            assert((p + b + r)[lp + lb + i] == r[i]) by {
                assert((p + b).len() == lp + lb);
            }
        }
    }
}

/// Equal frames made of the same prefix, a fixed-width id, and a tail
/// carry the same id and the same tail.
proof fn lemma_hex_segment(p: Seq<u8>, x: Id, y: Id, s: Seq<u8>, t: Seq<u8>)
    requires
        p + hex_digits(x as nat, 32) + s == p + hex_digits(y as nat, 32) + t,
    ensures
        x == y,
        s == t,
{
    lemma_hex_digits_shape(x as nat, 32);
    lemma_hex_digits_shape(y as nat, 32);
    let lp = p.len() as int;
    let hx = hex_digits(x as nat, 32);
    let hy = hex_digits(y as nat, 32);
    assert(hx =~~= hy) by {
        assert forall|i: int| 0 <= i < 32 implies hx[i] == hy[i] by {
            assert((p + hx + s)[lp + i] == hx[i]) by {
                assert((p + hx)[lp + i] == hx[i]);
            }
            assert((p + hy + t)[lp + i] == hy[i]) by {
                assert((p + hy)[lp + i] == hy[i]);
            }
        }
    }
    lemma_pow16_32();
    lemma_hex_round_trip(x as nat, 32);
    lemma_hex_round_trip(y as nat, 32);
    assert(s.len() == t.len()) by {
        assert((p + hx + s).len() == lp + 32 + s.len());
        assert((p + hy + t).len() == lp + 32 + t.len());
    }
    assert(s =~~= t) by {
        assert forall|i: int| 0 <= i < s.len() implies s[i] == t[i] by {
            assert((p + hx + s)[lp + 32 + i] == s[i]) by {
                assert((p + hx).len() == lp + 32);
            }
            assert((p + hy + t)[lp + 32 + i] == t[i]) by {
                assert((p + hy).len() == lp + 32);
            }
        }
    }
}

/// The first bytes of a request frame name its kind; at index five the
/// five kinds spell five different letters.
proof fn lemma_request_head(r: WireRequest)
    ensures
        spec_encode_request(r).len() > 5,
        r is Register ==> spec_encode_request(r)[5] == 114,
        r is GraphSubmitted ==> spec_encode_request(r)[5] == 115,
        r is ValueProcessed ==> spec_encode_request(r)[5] == 112,
        r is ValueProcessingFailed ==> spec_encode_request(r)[5] == 102,
        r is Cancel ==> spec_encode_request(r)[5] == 99,
{
    match r {
        WireRequest::Register { reply_channel, change_set_id } => {
            assert(spec_encode_request(r)[5] == tag_register()[5]);
            assert(tag_register()[5] == 114);
        },
        WireRequest::GraphSubmitted { reply_channel, change_set_id, dependency_graph } => {
            assert(spec_encode_request(r)[5] == tag_submit()[5]);
            assert(tag_submit()[5] == 115);
        },
        WireRequest::ValueProcessed { reply_channel, change_set_id, node_id } => {
            assert(spec_encode_request(r)[5] == tag_processed()[5]);
            assert(tag_processed()[5] == 112);
        },
        WireRequest::ValueProcessingFailed { reply_channel, change_set_id, node_id } => {
            assert(spec_encode_request(r)[5] == tag_failed()[5]);
            assert(tag_failed()[5] == 102);
        },
        WireRequest::Cancel { reply_channel, change_set_id } => {
            assert(spec_encode_request(r)[5] == tag_cancel()[5]);
            assert(tag_cancel()[5] == 99);
        },
    }
}

/// Equal two-field frames (a tag, a channel, a change set) carry the
/// same channel and change set.
proof fn lemma_two_field_frame(tg: Seq<u8>, cha: Seq<u8>, csa: Id, chb: Seq<u8>, csb: Id)
    requires
        valid_channel(cha),
        valid_channel(chb),
        tg + cha + tag_change_set() + hex_digits(csa as nat, 32) == tg + chb + tag_change_set()
            + hex_digits(csb as nat, 32),
    ensures
        cha == chb,
        csa == csb,
{
    let q = tag_change_set() + hex_digits(csa as nat, 32);
    let w = tag_change_set() + hex_digits(csb as nat, 32);
    assert(tg + cha + tag_change_set() + hex_digits(csa as nat, 32) =~~= tg + cha + q);
    assert(tg + chb + tag_change_set() + hex_digits(csb as nat, 32) =~~= tg + chb + w);
    assert(q[0] == 59 && w[0] == 59) by {
        assert(tag_change_set()[0] == 59);
        assert(q[0] == tag_change_set()[0]);
        assert(w[0] == tag_change_set()[0]);
    }
    lemma_channel_determined(tg, cha, chb, q, w);
    lemma_ids_equal_from_hex(tag_change_set(), csa, csb);
}

/// Equal three-field frames (a tag, a channel, a change set, a node)
/// carry the same channel and the same ids.
proof fn lemma_three_field_frame(
    tg: Seq<u8>,
    cha: Seq<u8>,
    csa: Id,
    na: Id,
    chb: Seq<u8>,
    csb: Id,
    nb: Id,
)
    requires
        valid_channel(cha),
        valid_channel(chb),
        tg + cha + tag_change_set() + hex_digits(csa as nat, 32) + tag_node() + hex_digits(
            na as nat,
            32,
        ) == tg + chb + tag_change_set() + hex_digits(csb as nat, 32) + tag_node() + hex_digits(
            nb as nat,
            32,
        ),
    ensures
        cha == chb,
        csa == csb,
        na == nb,
{
    let sa = tag_node() + hex_digits(na as nat, 32);
    let sb = tag_node() + hex_digits(nb as nat, 32);
    let q = tag_change_set() + hex_digits(csa as nat, 32) + sa;
    let w = tag_change_set() + hex_digits(csb as nat, 32) + sb;
    assert(tg + cha + tag_change_set() + hex_digits(csa as nat, 32) + tag_node() + hex_digits(
        na as nat,
        32,
    ) =~~= tg + cha + q);
    assert(tg + chb + tag_change_set() + hex_digits(csb as nat, 32) + tag_node() + hex_digits(
        nb as nat,
        32,
    ) =~~= tg + chb + w);
    assert(q[0] == 59 && w[0] == 59) by {
        assert(tag_change_set()[0] == 59);
        assert((tag_change_set() + hex_digits(csa as nat, 32))[0] == tag_change_set()[0]);
        assert((tag_change_set() + hex_digits(csb as nat, 32))[0] == tag_change_set()[0]);
        assert(q[0] == (tag_change_set() + hex_digits(csa as nat, 32))[0]);
        assert(w[0] == (tag_change_set() + hex_digits(csb as nat, 32))[0]);
    }
    lemma_channel_determined(tg, cha, chb, q, w);
    lemma_hex_segment(tag_change_set(), csa, csb, sa, sb);
    lemma_ids_equal_from_hex(tag_node(), na, nb);
}

/// Equal submission frames carry the same channel, change set, and
/// graph.
proof fn lemma_submit_fields(
    cha: Seq<u8>,
    csa: Id,
    ga: Seq<(Id, Seq<Id>)>,
    chb: Seq<u8>,
    csb: Id,
    gb: Seq<(Id, Seq<Id>)>,
)
    requires
        valid_channel(cha),
        valid_channel(chb),
        tag_submit() + cha + tag_change_set() + hex_digits(csa as nat, 32) + tag_graph()
            + spec_encode_graph(ga) == tag_submit() + chb + tag_change_set() + hex_digits(
            csb as nat,
            32,
        ) + tag_graph() + spec_encode_graph(gb),
    ensures
        cha == chb,
        csa == csb,
        ga == gb,
{
    let ra = tag_graph() + spec_encode_graph(ga);
    let rb = tag_graph() + spec_encode_graph(gb);
    let q = tag_change_set() + hex_digits(csa as nat, 32) + ra;
    let w = tag_change_set() + hex_digits(csb as nat, 32) + rb;
    assert(tag_submit() + cha + tag_change_set() + hex_digits(csa as nat, 32) + tag_graph()
        + spec_encode_graph(ga) =~~= tag_submit() + cha + q);
    assert(tag_submit() + chb + tag_change_set() + hex_digits(csb as nat, 32) + tag_graph()
        + spec_encode_graph(gb) =~~= tag_submit() + chb + w);
    assert(q[0] == 59 && w[0] == 59) by {
        assert(tag_change_set()[0] == 59);
        assert((tag_change_set() + hex_digits(csa as nat, 32))[0] == tag_change_set()[0]);
        assert((tag_change_set() + hex_digits(csb as nat, 32))[0] == tag_change_set()[0]);
        assert(q[0] == (tag_change_set() + hex_digits(csa as nat, 32))[0]);
        assert(w[0] == (tag_change_set() + hex_digits(csb as nat, 32))[0]);
    }
    lemma_channel_determined(tag_submit(), cha, chb, q, w);
    lemma_hex_segment(tag_change_set(), csa, csb, ra, rb);
    assert(spec_encode_graph(ga) =~~= spec_encode_graph(gb)) by {
        assert(spec_encode_graph(ga).len() == spec_encode_graph(gb).len()) by {
            assert(ra.len() == 7 + spec_encode_graph(ga).len());
            assert(rb.len() == 7 + spec_encode_graph(gb).len());
        }
        assert forall|i: int|
            0 <= i < spec_encode_graph(ga).len() implies spec_encode_graph(ga)[i]
            == spec_encode_graph(gb)[i] by {
            assert(ra[7 + i] == spec_encode_graph(ga)[i]);
            assert(rb[7 + i] == spec_encode_graph(gb)[i]);
        }
    }
    lemma_graph_encoding_injective(ga, gb);
}

/// A frame determines the request: two encodable requests that share an
/// encoding carry the same content, field for field.
#[verifier::spinoff_prover]
#[verifier::rlimit(100)]
pub proof fn lemma_request_encoding_injective(a: WireRequest, b: WireRequest)
    requires
        valid_request(a),
        valid_request(b),
        spec_encode_request(a) == spec_encode_request(b),
    ensures
        request_model(a) == request_model(b),
{
    lemma_request_head(a);
    lemma_request_head(b);
    match (a, b) {
        (
            WireRequest::GraphSubmitted {
                reply_channel: cha,
                change_set_id: csa,
                dependency_graph: ga,
            },
            WireRequest::GraphSubmitted {
                reply_channel: chb,
                change_set_id: csb,
                dependency_graph: gb,
            },
        ) => {
            lemma_submit_fields(
                cha@,
                csa,
                entries_model(ga@),
                chb@,
                csb,
                entries_model(gb@),
            );
        },
        (
            WireRequest::Register { reply_channel: cha, change_set_id: csa },
            WireRequest::Register { reply_channel: chb, change_set_id: csb },
        ) => {
            lemma_two_field_frame(tag_register(), cha@, csa, chb@, csb);
        },
        (
            WireRequest::Cancel { reply_channel: cha, change_set_id: csa },
            WireRequest::Cancel { reply_channel: chb, change_set_id: csb },
        ) => {
            lemma_two_field_frame(tag_cancel(), cha@, csa, chb@, csb);
        },
        (
            WireRequest::ValueProcessed { reply_channel: cha, change_set_id: csa, node_id: na },
            WireRequest::ValueProcessed { reply_channel: chb, change_set_id: csb, node_id: nb },
        ) => {
            lemma_three_field_frame(tag_processed(), cha@, csa, na, chb@, csb, nb);
        },
        (
            WireRequest::ValueProcessingFailed {
                reply_channel: cha,
                change_set_id: csa,
                node_id: na,
            },
            WireRequest::ValueProcessingFailed {
                reply_channel: chb,
                change_set_id: csb,
                node_id: nb,
            },
        ) => {
            lemma_three_field_frame(tag_failed(), cha@, csa, na, chb@, csb, nb);
        },
        _ => {
            assert(false);
        },
    }
}
} // verus!
