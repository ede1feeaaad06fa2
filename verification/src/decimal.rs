//! Decimal numerals: the text of a number and the number of a text.

use vstd::prelude::*;
use vstd::string::*;

verus! {

/// `c` is one of the ten decimal digits.
pub open spec fn is_digit(c: char) -> bool {
    '0' <= c <= '9'
}

/// The number that the digit `c` stands for.
pub open spec fn digit_value(c: char) -> nat {
    (c as nat - '0' as nat) as nat
}

/// The digit that stands for `d`, for `d` below ten.
pub open spec fn digit_char(d: nat) -> char {
    (d + '0' as nat) as u8 as char
}

/// Every character of `s` is a decimal digit.
pub open spec fn all_digits(s: Seq<char>) -> bool {
    forall|i: int| 0 <= i < s.len() ==> is_digit(#[trigger] s[i])
}

/// The decimal numeral of `n`, without sign and without leading zeros.
pub open spec fn decimal_text(n: nat) -> Seq<char>
    decreases n,
{
    if n < 10 {
        seq![digit_char(n)]
    } else {
        decimal_text(n / 10).push(digit_char(n % 10))
    }
}

/// The number that a sequence of digits denotes; leading zeros count for
/// nothing and the empty sequence denotes zero.
pub open spec fn decimal_value(s: Seq<char>) -> nat
    decreases s.len(),
{
    if s.len() == 0 {
        0
    } else {
        10 * decimal_value(s.drop_last()) + digit_value(s.last())
    }
}

/// `s` is a numeral as `decimal_text` writes it: digits only, at least one,
/// and no leading zero but for the numeral of zero itself.
pub open spec fn is_canonical(s: Seq<char>) -> bool {
    &&& s.len() >= 1
    &&& all_digits(s)
    &&& s.len() == 1 || s[0] != '0'
}

/// The number that `s` denotes where `s` is a non-empty run of digits whose
/// value does not exceed `max`; leading zeros are accepted.
pub open spec fn bounded_decimal(s: Seq<char>, max: nat) -> Option<nat> {
    if s.len() >= 1 && all_digits(s) && decimal_value(s) <= max {
        Some(decimal_value(s))
    } else {
        None
    }
}

/// `s` shifted to the right end of a field of `width` characters, the room
/// before it filled with `fill`; a longer `s` is left as it is.
pub open spec fn pad_left(s: Seq<char>, width: nat, fill: char) -> Seq<char> {
    if s.len() >= width {
        s
    } else {
        Seq::new((width - s.len()) as nat, |i: int| fill) + s
    }
}

/// A numeral is canonical and denotes the number it was written for.
pub proof fn lemma_decimal_text_value(n: nat)
    ensures
        is_canonical(decimal_text(n)),
        decimal_value(decimal_text(n)) == n,
        n < 10 <==> decimal_text(n).len() == 1,
        n >= 1 ==> decimal_text(n)[0] != '0',
    decreases n,
{
    let text = decimal_text(n);
    if n < 10 {
        assert(text.drop_last() =~= Seq::<char>::empty());
        assert(decimal_value(text.drop_last()) == 0);
    } else {
        lemma_decimal_text_value(n / 10);
        let head = decimal_text(n / 10);
        assert(text.drop_last() =~= head);
        assert(text[0] == head[0]);
        assert forall|i: int| 0 <= i < text.len() implies is_digit(#[trigger] text[i]) by {
            if i < head.len() {
                assert(text[i] == head[i]);
            }
        }
    }
}

/// A canonical numeral is the numeral of the number it denotes.
pub proof fn lemma_canonical_text(s: Seq<char>)
    requires
        is_canonical(s),
    ensures
        decimal_text(decimal_value(s)) == s,
        s[0] != '0' ==> decimal_value(s) >= 1,
    decreases s.len(),
{
    let head = s.drop_last();
    if s.len() == 1 {
        assert(head =~= Seq::<char>::empty());
        assert(decimal_value(head) == 0);
        assert(is_digit(s[0]));
        assert(decimal_text(decimal_value(s)) =~= s);
    } else {
        assert(head[0] == s[0]);
        assert forall|i: int| 0 <= i < head.len() implies is_digit(#[trigger] head[i]) by {
            assert(head[i] == s[i]);
        }
        lemma_canonical_text(head);
        assert(is_digit(s.last()));
        let value = decimal_value(s);
        assert(value / 10 == decimal_value(head));
        assert(value % 10 == digit_value(s.last()));
        assert(decimal_text(value) =~= s);
    }
}

/// Appending a digit to a run of digits multiplies its value by ten and adds
/// the digit.
pub proof fn lemma_decimal_value_push(s: Seq<char>, c: char)
    ensures
        decimal_value(s.push(c)) == 10 * decimal_value(s) + digit_value(c),
{
    assert(s.push(c).drop_last() =~= s);
}

/// Number of characters of a text that holds ASCII characters only.
pub fn ascii_len(text: &str) -> (length: usize)
    requires
        text.is_ascii(),
    ensures
        length == text@.len(),
{
    proof {
        is_ascii_spec_bytes(text);
    }
    text.as_bytes().len()
}

/// The one-character text of a digit.
pub fn digit_str(d: u8) -> (text: &'static str)
    requires
        d < 10,
    ensures
        text@ == seq![digit_char(d as nat)],
{
    proof {
        reveal_strlit("0");
        reveal_strlit("1");
        reveal_strlit("2");
        reveal_strlit("3");
        reveal_strlit("4");
        reveal_strlit("5");
        reveal_strlit("6");
        reveal_strlit("7");
        reveal_strlit("8");
        reveal_strlit("9");
    }
    let text = match d {
        0 => "0",
        1 => "1",
        2 => "2",
        3 => "3",
        4 => "4",
        5 => "5",
        6 => "6",
        7 => "7",
        8 => "8",
        _ => "9",
    };
    assert(text@ =~= seq![digit_char(d as nat)]);
    text
}

/// Appends the decimal numeral of `n` to `out`.
pub fn append_decimal(out: &mut String, n: u64)
    ensures
        final(out)@ == old(out)@ + decimal_text(n as nat),
    decreases n,
{
    if n >= 10 {
        append_decimal(out, n / 10);
    }
    out.append(digit_str((n % 10) as u8));
    assert(final(out)@ =~= old(out)@ + decimal_text(n as nat));
}

/// Appends the decimal numeral of `n` to `out`, after as many copies of
/// `fill` as it takes to make the numeral `width` characters wide.
pub fn append_padded(out: &mut String, n: u64, width: usize, fill: &str)
    requires
        fill@.len() == 1,
    ensures
        final(out)@ == old(out)@ + pad_left(decimal_text(n as nat), width as nat, fill@[0]),
{
    let mut numeral = String::new();
    append_decimal(&mut numeral, n);
    let length = numeral.as_str().unicode_len();
    let ghost before = out@;
    let mut missing: usize = if length >= width {
        0
    } else {
        width - length
    };
    let ghost room = missing;
    while missing > 0
        invariant
            missing <= room,
            fill@.len() == 1,
            out@ == before + Seq::new((room - missing) as nat, |i: int| fill@[0]),
        decreases missing,
    {
        out.append(fill);
        missing = missing - 1;
        assert(out@ =~= before + Seq::new((room - missing) as nat, |i: int| fill@[0]));
    }
    out.append(numeral.as_str());
    assert(final(out)@ =~= old(out)@ + pad_left(decimal_text(n as nat), width as nat, fill@[0]));
}

/// Reads the characters of `text` from `from` up to `to` as a decimal number
/// of at most `max`.
pub fn read_decimal(text: &str, from: usize, to: usize, max: u32) -> (number: Option<u32>)
    requires
        text.is_ascii(),
        from <= to <= text@.len(),
        max <= 400_000_000,
    ensures
        number matches Some(n) ==> bounded_decimal(text@.subrange(from as int, to as int), max as nat)
            == Some(n as nat),
        number is None ==> bounded_decimal(text@.subrange(from as int, to as int), max as nat)
            is None,
{
    let ghost field = text@.subrange(from as int, to as int);
    if from == to {
        return None;
    }
    let mut seen: u32 = 0;
    let mut at: usize = from;
    while at < to
        invariant
            text.is_ascii(),
            from <= at <= to <= text@.len(),
            max <= 400_000_000,
            field == text@.subrange(from as int, to as int),
            all_digits(field.subrange(0, at - from)),
            seen <= max + 1,
            seen <= max ==> seen == decimal_value(field.subrange(0, at - from)),
            seen == max + 1 ==> decimal_value(field.subrange(0, at - from)) > max,
        decreases to - at,
    {
        let byte: u8 = text.get_ascii(at);
        let ghost c = text@[at as int];
        assert(field[at - from] == c);
        if byte < 48 || byte > 57 {
            assert(!is_digit(field[at - from]));
            return None;
        }
        let digit: u32 = (byte - 48) as u32;
        proof {
            let read = field.subrange(0, at - from);
            let next = field.subrange(0, at - from + 1);
            assert(next =~= read.push(c));
            lemma_decimal_value_push(read, c);
            assert(digit == digit_value(c));
        }
        if seen <= max {
            seen = seen * 10 + digit;
            if seen > max {
                seen = max + 1;
            }
        }
        at = at + 1;
    }
    assert(field.subrange(0, at - from) =~= field);
    if seen <= max {
        Some(seen)
    } else {
        None
    }
}

} // verus!
