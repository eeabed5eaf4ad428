//! File names: a table file is named by the microsecond it was written in and
//! by its level, a log file by the microsecond it was opened in. Names are
//! plain ASCII, so that their order as strings is the order in time.

use crate::storage::record::string_from_utf8_lossy;
use vstd::prelude::*;
use vstd::string::*;
use vstd::utf8::*;

verus! {

/// The ASCII code of `_`, which parts the time from the level.
pub const UNDERSCORE: u8 = 95;

/// The ASCII code of `0`.
pub const ZERO: u8 = 48;

/// The decimal digits of `n` in ASCII, without leading zeros.
pub open spec fn decimal(n: nat) -> Seq<u8>
    decreases n,
{
    if n < 10 {
        seq![(48 + n) as u8]
    } else {
        decimal(n / 10).push((48 + n % 10) as u8)
    }
}

/// `.ss`, the extension of a table file.
pub open spec fn table_suffix() -> Seq<u8> {
    seq![46u8, 115u8, 115u8]
}

/// `.wal`, the extension of a log file.
pub open spec fn log_suffix() -> Seq<u8> {
    seq![46u8, 119u8, 97u8, 108u8]
}

/// The name of the table file of level `level` written at `micros`:
/// `<micros>_<level>.ss`.
pub open spec fn table_name(micros: u128, level: u8) -> Seq<u8> {
    decimal(micros as nat) + seq![UNDERSCORE] + decimal(level as nat) + table_suffix()
}

/// The name of the log file opened at `micros`: `<micros>.wal`.
pub open spec fn log_name(micros: u128) -> Seq<u8> {
    decimal(micros as nat) + log_suffix()
}

/// ASCII bytes as text.
pub open spec fn ascii_text(bytes: Seq<u8>) -> Seq<char> {
    Seq::new(bytes.len(), |i: int| bytes[i] as char)
}

/// Every byte is ASCII.
pub open spec fn all_ascii(bytes: Seq<u8>) -> bool {
    forall|i: int| 0 <= i < bytes.len() ==> #[trigger] bytes[i] < 128
}

/// Every byte is a decimal digit.
pub open spec fn all_digits(bytes: Seq<u8>) -> bool {
    forall|i: int| 0 <= i < bytes.len() ==> 48 <= #[trigger] bytes[i] <= 57
}

/// The number that decimal digits stand for.
pub open spec fn number(digits: Seq<u8>) -> nat
    decreases digits.len(),
{
    if digits.len() == 0 {
        0
    } else {
        (number(digits.drop_last()) * 10 + (digits.last() - 48)) as nat
    }
}

/// Where `byte` first stands in `bytes`; the length of `bytes` where it
/// does not occur.
pub open spec fn first_position(bytes: Seq<u8>, byte: u8) -> int
    decreases bytes.len(),
{
    if bytes.len() == 0 || bytes[0] == byte {
        0
    } else {
        1 + first_position(bytes.drop_first(), byte)
    }
}

/// The level that the name of a table file carries: the name ends in
/// `.ss`, and what stands between the first `_` and the extension is a
/// decimal number of at most 255. Other names carry no level.
pub open spec fn level_of(name: Seq<u8>) -> Option<u8> {
    if name.len() < 3 || name.skip(name.len() - 3) != table_suffix() {
        None
    } else {
        let stem = name.take(name.len() - 3);
        let at = first_position(stem, UNDERSCORE);
        let digits = stem.skip(at + 1);
        if at >= stem.len() || digits.len() == 0 || !all_digits(digits) || number(digits) > 255 {
            None
        } else {
            Some(number(digits) as u8)
        }
    }
}

/// The decimal digits of a number are digits, and stand for the number.
pub proof fn lemma_decimal(n: nat)
    ensures
        decimal(n).len() > 0,
        all_digits(decimal(n)),
        number(decimal(n)) == n,
    decreases n,
{
    if n < 10 {
        assert(decimal(n).drop_last() =~= Seq::<u8>::empty());
        assert(number(decimal(n).drop_last()) == 0);
    } else {
        lemma_decimal(n / 10);
        assert(decimal(n).drop_last() =~= decimal(n / 10));
    }
}

/// A byte's first position is where it stands after bytes that differ from it.
pub proof fn lemma_first_position(bytes: Seq<u8>, byte: u8, at: int)
    requires
        0 <= at <= bytes.len(),
        forall|i: int| 0 <= i < at ==> bytes[i] != byte,
        at < bytes.len() ==> bytes[at] == byte,
    ensures
        first_position(bytes, byte) == at,
    decreases bytes.len(),
{
    if at > 0 {
        assert(bytes[0] != byte);
        let rest = bytes.drop_first();
        assert forall|i: int| 0 <= i < at - 1 implies rest[i] != byte by {
            assert(bytes[i + 1] != byte);
        }
        lemma_first_position(rest, byte, at - 1);
    }
}

/// The name of a table file carries the file's level.
pub proof fn lemma_level_of_name(micros: u128, level: u8)
    ensures
        level_of(table_name(micros, level)) == Some(level),
{
    let time = decimal(micros as nat);
    let digits = decimal(level as nat);
    let name = table_name(micros, level);
    lemma_decimal(micros as nat);
    lemma_decimal(level as nat);
    let stem = name.take(name.len() - 3);
    assert(name.skip(name.len() - 3) =~= table_suffix());
    assert(stem =~= time + seq![UNDERSCORE] + digits);
    assert forall|i: int| 0 <= i < time.len() implies stem[i] != UNDERSCORE by {
        assert(48 <= time[i] <= 57);
    }
    lemma_first_position(stem, UNDERSCORE, time.len() as int);
    assert(stem.skip(time.len() as int + 1) =~= digits);
}

/// Digits after a number can only make it greater.
proof fn lemma_number_grows(digits: Seq<u8>, n: int)
    requires
        all_digits(digits),
        0 <= n <= digits.len(),
    ensures
        number(digits.take(n)) <= number(digits),
    decreases digits.len() - n,
{
    if n < digits.len() {
        assert(digits.take(n + 1).drop_last() =~= digits.take(n));
        assert(48 <= digits[n] <= 57);
        assert(digits.take(n + 1).last() == digits[n]);
        lemma_number_grows(digits, n + 1);
    } else {
        assert(digits.take(n) =~= digits);
    }
}

/// ASCII bytes are the UTF-8 encoding of the text that they spell.
pub proof fn lemma_ascii_text(bytes: Seq<u8>)
    requires
        all_ascii(bytes),
    ensures
        encode_utf8(ascii_text(bytes)) == bytes,
        valid_utf8(bytes),
        decode_utf8(bytes) == ascii_text(bytes),
{
    let text = ascii_text(bytes);
    assert(is_ascii_chars(text)) by {
        assert forall|i: int| 0 <= i < text.len() implies (#[trigger] text[i] as nat) < 128 by {
            assert(bytes[i] < 128);
        }
    }
    is_ascii_chars_encode_utf8(text);
    assert(encode_utf8(text) =~= bytes) by {
        assert forall|i: int| 0 <= i < bytes.len() implies (text[i] as u8) == bytes[i] by {
            assert(bytes[i] < 128);
        }
    }
    encode_utf8_valid_utf8(text);
    encode_utf8_decode_utf8(text);
}

/// Appends the decimal digits of `n`.
fn push_decimal(out: &mut Vec<u8>, n: u128)
    ensures
        final(out)@ == old(out)@ + decimal(n as nat),
    decreases n,
{
    if n >= 10 {
        push_decimal(out, n / 10);
    }
    let digit = (n % 10) as u8;
    out.push(ZERO + digit);
    assert(out@ =~= old(out)@ + decimal(n as nat));
}

/// Spells ASCII bytes as a string.
fn spell(bytes: Vec<u8>) -> (text: String)
    requires
        all_ascii(bytes@),
    ensures
        text@ == ascii_text(bytes@),
{
    proof {
        lemma_ascii_text(bytes@);
    }
    string_from_utf8_lossy(bytes.as_slice())
}

/// The name of the table file of level `level` written at `micros`.
pub fn table_file_name(micros: u128, level: u8) -> (name: String)
    ensures
        name@ == ascii_text(table_name(micros, level)),
        encode_utf8(name@) == table_name(micros, level),
{
    let mut bytes: Vec<u8> = Vec::new();
    push_decimal(&mut bytes, micros);
    bytes.push(UNDERSCORE);
    push_decimal(&mut bytes, level as u128);
    bytes.push(46);
    bytes.push(115);
    bytes.push(115);
    proof {
        lemma_decimal(micros as nat);
        lemma_decimal(level as nat);
        assert(bytes@ =~= table_name(micros, level));
        assert forall|i: int| 0 <= i < bytes@.len() implies #[trigger] bytes@[i] < 128 by {
            let time = decimal(micros as nat);
            let digits = decimal(level as nat);
            if i < time.len() {
                assert(48 <= time[i] <= 57);
            } else if i > time.len() && i - time.len() - 1 < digits.len() {
                assert(48 <= digits[i - time.len() - 1] <= 57);
            }
        }
        lemma_ascii_text(bytes@);
    }
    spell(bytes)
}

/// The name of the log file opened at `micros`.
pub fn log_file_name(micros: u128) -> (name: String)
    ensures
        name@ == ascii_text(log_name(micros)),
{
    let mut bytes: Vec<u8> = Vec::new();
    push_decimal(&mut bytes, micros);
    bytes.push(46);
    bytes.push(119);
    bytes.push(97);
    bytes.push(108);
    proof {
        lemma_decimal(micros as nat);
        assert(bytes@ =~= log_name(micros));
        assert forall|i: int| 0 <= i < bytes@.len() implies #[trigger] bytes@[i] < 128 by {
            let time = decimal(micros as nat);
            if i < time.len() {
                assert(48 <= time[i] <= 57);
            }
        }
    }
    spell(bytes)
}

/// The level that the name of a table file carries, if it carries one.
pub fn table_level(name: &String) -> (level: Option<u8>)
    ensures
        level == level_of(encode_utf8(name@)),
{
    let bytes = name.as_str().as_bytes();
    let len = bytes.len();
    if len < 3 || bytes[len - 3] != 46 || bytes[len - 2] != 115 || bytes[len - 1] != 115 {
        proof {
            if len >= 3 {
                let tail = bytes@.skip(len - 3);
                assert(tail[0] == bytes@[len - 3] && tail[1] == bytes@[len - 2] && tail[2]
                    == bytes@[len - 1]);
            }
        }
        return None;
    }
    let ghost stem = bytes@.take(len - 3);
    proof {
        assert(bytes@.skip(len - 3) =~= table_suffix());
    }
    let stem_len = len - 3;
    let mut at: usize = 0;
    while at < stem_len && bytes[at] != UNDERSCORE
        invariant
            at <= stem_len,
            stem_len + 3 == bytes@.len(),
            stem == bytes@.take(stem_len as int),
            forall|i: int| 0 <= i < at ==> stem[i] != UNDERSCORE,
        decreases stem_len - at,
    {
        at += 1;
    }
    proof {
        lemma_first_position(stem, UNDERSCORE, at as int);
    }
    if at >= stem_len || at + 1 >= stem_len {
        return None;
    }
    let ghost digits = stem.skip(at + 1);
    let mut value: u32 = 0;
    let mut i: usize = at + 1;
    while i < stem_len
        invariant
            at + 1 <= i <= stem_len,
            at + 1 < stem_len,
            stem_len + 3 == bytes@.len(),
            bytes@ == encode_utf8(name@),
            bytes@.skip(bytes@.len() - 3) == table_suffix(),
            stem == bytes@.take(stem_len as int),
            first_position(stem, UNDERSCORE) == at,
            digits == stem.skip(at + 1),
            all_digits(digits.take(i - at - 1)),
            value == number(digits.take(i - at - 1)),
            value <= 255,
        decreases stem_len - i,
    {
        let byte = bytes[i];
        if byte < 48 || byte > 57 {
            assert(digits[i - at - 1] == byte);
            return None;
        }
        proof {
            let done = digits.take(i - at - 1);
            let more = digits.take(i - at);
            assert(more.drop_last() =~= done);
            assert(more.last() == byte);
            assert forall|j: int| 0 <= j < more.len() implies 48 <= #[trigger] more[j] <= 57 by {
                if j < done.len() {
                    assert(48 <= done[j] <= 57);
                }
            }
        }
        value = value * 10 + (byte - 48) as u32;
        if value > 255 {
            proof {
                let rest_ok = all_digits(digits);
                if rest_ok {
                    lemma_number_grows(digits, i - at);
                }
            }
            return None;
        }
        i += 1;
    }
    proof {
        assert(digits.take(i - at - 1) =~= digits);
    }
    Some(value as u8)
}

} // verus!
