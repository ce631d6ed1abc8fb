//! The names of table files: `L`, the level, `_`, the sequence number and
//! `.sst`, both numbers in decimal.
use vstd::prelude::*;

verus! {

/// The byte `L`, with which a table name starts.
pub const PREFIX: u8 = 76;

/// The byte `_`, which parts the level from the sequence number.
pub const SEPARATOR: u8 = 95;

/// The byte `+`, which may stand before a number.
pub const PLUS: u8 = 43;

/// The byte `0`, the first of the ten digits.
pub const ZERO: u8 = 48;

/// The bytes `.sst`, with which a table name ends.
pub open spec fn suffix() -> Seq<u8> {
    seq![46u8, 115u8, 115u8, 116u8]
}

/// Whether `b` is a decimal digit.
pub open spec fn is_digit(b: u8) -> bool {
    48 <= b <= 57
}

/// Whether every byte of `s` is a decimal digit.
pub open spec fn all_digits(s: Seq<u8>) -> bool {
    forall|i: int| 0 <= i < s.len() ==> is_digit(#[trigger] s[i])
}

/// The number that the decimal digits `s` stand for.
pub open spec fn digits_value(s: Seq<u8>) -> nat
    decreases s.len(),
{
    if s.len() == 0 {
        0
    } else {
        (digits_value(s.drop_last()) * 10 + (s.last() - 48)) as nat
    }
}

/// The decimal digits of `n`, without leading zeros.
pub open spec fn decimal(n: nat) -> Seq<u8>
    decreases n,
{
    if n < 10 {
        seq![(48 + n) as u8]
    } else {
        decimal(n / 10).push((48 + n % 10) as u8)
    }
}

/// Reads `s` as a number of at most `max`: an optional `+`, then one or
/// more decimal digits.
pub open spec fn parse_number(s: Seq<u8>, max: nat) -> Option<nat> {
    let digits = if s.len() > 0 && s[0] == PLUS {
        s.skip(1)
    } else {
        s
    };
    if digits.len() > 0 && all_digits(digits) && digits_value(digits) <= max {
        Some(digits_value(digits))
    } else {
        None
    }
}

/// The position of the first separator in `s`, or the length of `s` if it
/// has none.
pub open spec fn separator_at(s: Seq<u8>) -> int
    decreases s.len(),
{
    if s.len() == 0 {
        0
    } else if s[0] == SEPARATOR {
        0
    } else {
        1 + separator_at(s.skip(1))
    }
}

/// The name of the table file with sequence number `seq` at level `level`.
pub open spec fn table_name(level: nat, seq: nat) -> Seq<u8> {
    seq![PREFIX] + decimal(level) + seq![SEPARATOR] + decimal(seq) + suffix()
}

/// Reads `name` as the name of a table file: the level and the sequence
/// number. There are none if the name does not start with `L` and end with
/// `.sst`, if what lies between has no `_`, or if what stands before and
/// after the first `_` is not a number that fits `usize` and `u64`.
pub open spec fn parse_table_name(name: Seq<u8>) -> Option<(nat, nat)> {
    if name.len() < 5 || name[0] != PREFIX || name.subrange(name.len() - 4, name.len() as int)
        != suffix() {
        None
    } else {
        let body = name.subrange(1, name.len() - 4);
        let at = separator_at(body);
        if at >= body.len() {
            None
        } else {
            match (
                parse_number(body.subrange(0, at), usize::MAX as nat),
                parse_number(body.subrange(at + 1, body.len() as int), u64::MAX as nat),
            ) {
                (Some(level), Some(seq)) => Some((level, seq)),
                _ => None,
            }
        }
    }
}

/// The first separator is at `at` if there is one there and none before.
pub proof fn lemma_separator_at(s: Seq<u8>, at: int)
    requires
        0 <= at <= s.len(),
        forall|j: int| 0 <= j < at ==> #[trigger] s[j] != SEPARATOR,
        at < s.len() ==> s[at] == SEPARATOR,
    ensures
        separator_at(s) == at,
    decreases at,
{
    if s.len() > 0 && at > 0 {
        assert(s[0] != SEPARATOR);
        assert forall|j: int| 0 <= j < at - 1 implies #[trigger] s.skip(1)[j] != SEPARATOR by {
            assert(s.skip(1)[j] == s[j + 1]);
        }
        if at < s.len() {
            assert(s.skip(1)[at - 1] == s[at]);
        }
        lemma_separator_at(s.skip(1), at - 1);
    }
}

/// The value of digits does not fall when more digits follow.
pub proof fn lemma_digits_value_prefix(s: Seq<u8>, n: int)
    requires
        all_digits(s),
        0 <= n <= s.len(),
    ensures
        digits_value(s.subrange(0, n)) <= digits_value(s),
    decreases s.len() - n,
{
    if n < s.len() {
        lemma_digits_value_prefix(s, n + 1);
        let longer = s.subrange(0, n + 1);
        assert(longer.drop_last() =~= s.subrange(0, n));
        assert(is_digit(s[n]));
        assert(longer.last() == s[n]);
    } else {
        assert(s.subrange(0, n) =~= s);
    }
}

/// The decimal digits of a number are digits, at least one, and stand for
/// the number.
pub proof fn lemma_decimal(n: nat)
    ensures
        decimal(n).len() > 0,
        all_digits(decimal(n)),
        digits_value(decimal(n)) == n,
    decreases n,
{
    if n < 10 {
        let s = decimal(n);
        assert(s.drop_last() =~= Seq::<u8>::empty());
        assert(digits_value(s.drop_last()) == 0);
    } else {
        lemma_decimal(n / 10);
        let s = decimal(n);
        assert(s.drop_last() =~= decimal(n / 10));
        assert(s.last() == (48 + n % 10) as u8);
        assert forall|i: int| 0 <= i < s.len() implies is_digit(#[trigger] s[i]) by {
            if i < s.len() - 1 {
                assert(s[i] == decimal(n / 10)[i]);
            }
        }
    }
}

/// The decimal digits of a number are read back as the number.
pub proof fn lemma_parse_decimal(n: nat, max: nat)
    requires
        n <= max,
    ensures
        parse_number(decimal(n), max) == Some(n),
{
    lemma_decimal(n);
    assert(is_digit(decimal(n)[0]));
}

/// The name of a table file is read back as its level and its sequence
/// number.
pub proof fn lemma_parse_table_name(level: nat, seq: nat)
    requires
        level <= usize::MAX,
        seq <= u64::MAX,
    ensures
        parse_table_name(table_name(level, seq)) == Some((level, seq)),
{
    let first = decimal(level);
    let second = decimal(seq);
    let name = table_name(level, seq);
    lemma_decimal(level);
    lemma_decimal(seq);
    lemma_parse_decimal(level, usize::MAX as nat);
    lemma_parse_decimal(seq, u64::MAX as nat);
    let body = name.subrange(1, name.len() - 4);
    assert(body =~= first + seq![SEPARATOR] + second);
    assert(name.subrange(name.len() - 4, name.len() as int) =~= suffix());
    assert forall|j: int| 0 <= j < first.len() implies #[trigger] body[j] != SEPARATOR by {
        assert(body[j] == first[j]);
        assert(is_digit(first[j]));
    }
    lemma_separator_at(body, first.len() as int);
    assert(body.subrange(0, first.len() as int) =~= first);
    assert(body.subrange(first.len() as int + 1, body.len() as int) =~= second);
}

/// Appends the decimal digits of `n` to `out`.
fn put_decimal(out: &mut Vec<u8>, n: u64)
    ensures
        final(out)@ == old(out)@ + decimal(n as nat),
    decreases n,
{
    if n >= 10 {
        put_decimal(out, n / 10);
    }
    out.push(ZERO + (n % 10) as u8);
    assert(out@ =~= old(out)@ + decimal(n as nat));
}

/// The name of the table file with sequence number `seq` at level `level`.
pub fn format_table_name(level: usize, seq: u64) -> (name: Vec<u8>)
    ensures
        name@ == table_name(level as nat, seq as nat),
{
    let mut name: Vec<u8> = Vec::new();
    name.push(PREFIX);
    put_decimal(&mut name, level as u64);
    name.push(SEPARATOR);
    put_decimal(&mut name, seq);
    name.push(46u8);
    name.push(115u8);
    name.push(115u8);
    name.push(116u8);
    assert(name@ =~= table_name(level as nat, seq as nat));
    name
}

/// Reads the bytes of `s` from `from` up to `to` as a number of at most
/// `max`.
fn read_number(s: &[u8], from: usize, to: usize, max: u64) -> (number: Option<u64>)
    requires
        from <= to <= s@.len(),
    ensures
        match number {
            Some(n) => parse_number(s@.subrange(from as int, to as int), max as nat) == Some(
                n as nat,
            ),
            None => parse_number(s@.subrange(from as int, to as int), max as nat) is None,
        },
{
    let ghost text = s@.subrange(from as int, to as int);
    let start: usize = if from < to && s[from] == PLUS {
        from + 1
    } else {
        from
    };
    let ghost digits = s@.subrange(start as int, to as int);
    assert(digits =~= if text.len() > 0 && text[0] == PLUS {
        text.skip(1)
    } else {
        text
    });
    if start == to {
        return None;
    }
    let mut value: u64 = 0;
    let mut i: usize = start;
    assert(digits.subrange(0, 0) =~= Seq::<u8>::empty());
    while i < to
        invariant
            from <= start <= i <= to <= s@.len(),
            text == s@.subrange(from as int, to as int),
            digits == s@.subrange(start as int, to as int),
            digits == if text.len() > 0 && text[0] == PLUS {
                text.skip(1)
            } else {
                text
            },
            all_digits(digits.subrange(0, i - start)),
            value == digits_value(digits.subrange(0, i - start)),
            value <= max,
        decreases to - i,
    {
        let b = s[i];
        assert(digits[i - start] == b);
        let ghost longer = digits.subrange(0, i + 1 - start);
        assert(longer.drop_last() =~= digits.subrange(0, i - start));
        assert(longer.last() == b);
        if b < 48 || b > 57 {
            assert(!is_digit(digits[i - start]));
            return None;
        }
        let digit: u64 = (b - ZERO) as u64;
        if digit > max || value > (max - digit) / 10 {
            proof {
                assert(digits_value(longer) > max);
                if all_digits(digits) {
                    lemma_digits_value_prefix(digits, i + 1 - start);
                }
            }
            return None;
        }
        value = value * 10 + digit;
        assert forall|j: int| 0 <= j < longer.len() implies is_digit(#[trigger] longer[j]) by {
            if j < longer.len() - 1 {
                assert(longer[j] == digits.subrange(0, i - start)[j]);
            }
        }
        i += 1;
    }
    assert(digits.subrange(0, i - start) =~= digits);
    Some(value)
}

/// Reads `name` as the name of a table file: the level and the sequence
/// number, or nothing if it is not such a name.
pub fn read_table_name(name: &[u8]) -> (parsed: Option<(usize, u64)>)
    ensures
        match parsed {
            Some((level, seq)) => parse_table_name(name@) == Some((level as nat, seq as nat)),
            None => parse_table_name(name@) is None,
        },
{
    let len = name.len();
    if len < 5 || name[0] != PREFIX {
        return None;
    }
    if name[len - 4] != 46u8 || name[len - 3] != 115u8 || name[len - 2] != 115u8 || name[len - 1]
        != 116u8 {
        assert(name@.subrange(len - 4, len as int)[0] == name@[len - 4]);
        assert(name@.subrange(len - 4, len as int)[1] == name@[len - 3]);
        assert(name@.subrange(len - 4, len as int)[2] == name@[len - 2]);
        assert(name@.subrange(len - 4, len as int)[3] == name@[len - 1]);
        return None;
    }
    assert(name@.subrange(len - 4, len as int) =~= suffix());
    let end: usize = len - 4;
    let ghost body = name@.subrange(1, end as int);
    let mut at: usize = 1;
    while at < end && name[at] != SEPARATOR
        invariant
            1 <= at <= end,
            end == name@.len() - 4,
            body == name@.subrange(1, end as int),
            forall|j: int| 0 <= j < at - 1 ==> #[trigger] body[j] != SEPARATOR,
        decreases end - at,
    {
        assert(body[at - 1] == name@[at as int]);
        at += 1;
    }
    proof {
        if at < end {
            assert(body[at - 1] == name@[at as int]);
        }
        lemma_separator_at(body, at - 1);
    }
    if at >= end {
        return None;
    }
    assert(body.subrange(0, at - 1) =~= name@.subrange(1, at as int));
    assert(body.subrange(at - 1 + 1, body.len() as int) =~= name@.subrange(at + 1, end as int));
    let level = match read_number(name, 1, at, usize::MAX as u64) {
        Some(n) => n,
        None => {
            return None;
        },
    };
    let seq = match read_number(name, at + 1, end, u64::MAX) {
        Some(n) => n,
        None => {
            return None;
        },
    };
    Some((level as usize, seq))
}

} // verus!
