//! IPv4 addresses as 32-bit numbers, their dotted-quad text and inclusive
//! ranges of them.

use crate::decimal::{
    append_decimal, ascii_len, decimal_text, decimal_value, is_canonical, is_digit,
    lemma_canonical_text, lemma_decimal_text_value, read_decimal,
};
use crate::error::ScanError;
use vstd::prelude::*;
use vstd::string::*;
use vstd::utf8::is_ascii_chars;

verus! {

/// The number whose four bytes, most significant first, are `octets`.
pub open spec fn octets_value(octets: Seq<u8>) -> nat {
    (octets[0] * 0x100_0000 + octets[1] * 0x1_0000 + octets[2] * 0x100 + octets[3]) as nat
}

/// The four bytes of `value`, most significant first.
pub open spec fn value_octets(value: u32) -> Seq<u8> {
    seq![
        (value / 0x100_0000) as u8,
        (value / 0x1_0000 % 0x100) as u8,
        (value / 0x100 % 0x100) as u8,
        (value % 0x100) as u8,
    ]
}

/// The dotted-quad text of four bytes: their decimal numerals with a dot
/// between each two.
pub open spec fn dotted_quad(octets: Seq<u8>) -> Seq<char> {
    decimal_text(octets[0] as nat) + seq!['.'] + decimal_text(octets[1] as nat) + seq!['.']
        + decimal_text(octets[2] as nat) + seq!['.'] + decimal_text(octets[3] as nat)
}

/// Bytes and number determine each other.
pub proof fn lemma_octets_round_trip(value: u32, octets: Seq<u8>)
    requires
        octets.len() == 4,
    ensures
        value_octets(value).len() == 4,
        octets_value(value_octets(value)) == value,
        octets_value(octets) <= u32::MAX,
        value_octets(octets_value(octets) as u32) == octets,
{
    assert((value / 0x100_0000) * 0x100_0000 + (value / 0x1_0000 % 0x100) * 0x1_0000 + (value
        / 0x100 % 0x100) * 0x100 + value % 0x100 == value) by (bit_vector);
    let a = octets[0];
    let b = octets[1];
    let c = octets[2];
    let d = octets[3];
    let packed = octets_value(octets) as u32;
    assert(packed / 0x100_0000 == a && packed / 0x1_0000 % 0x100 == b && packed / 0x100 % 0x100
        == c && packed % 0x100 == d) by (bit_vector)
        requires
            packed == a * 0x100_0000 + b * 0x1_0000 + c * 0x100 + d,
    ;
    assert(value_octets(packed) =~= octets);
}

/// Packs the four bytes of an address, most significant first, into its
/// number.
pub fn ipv4_to_u32(octets: [u8; 4]) -> (value: u32)
    ensures
        value == octets_value(octets@),
        value_octets(value) == octets@,
{
    let a: u32 = octets[0] as u32;
    let b: u32 = octets[1] as u32;
    let c: u32 = octets[2] as u32;
    let d: u32 = octets[3] as u32;
    let value: u32 = (a << 24) | (b << 16) | (c << 8) | d;
    assert(value == a * 0x100_0000 + b * 0x1_0000 + c * 0x100 + d) by (bit_vector)
        requires
            value == (a << 24) | (b << 16) | (c << 8) | d,
            a < 256,
            b < 256,
            c < 256,
            d < 256,
    ;
    proof {
        lemma_octets_round_trip(value, octets@);
    }
    value
}

/// Unpacks the number of an address into its four bytes, most significant
/// first.
pub fn u32_to_ipv4(value: u32) -> (octets: [u8; 4])
    ensures
        octets@ == value_octets(value),
        octets_value(octets@) == value,
{
    let a: u32 = (value >> 24) & 0xFF;
    let b: u32 = (value >> 16) & 0xFF;
    let c: u32 = (value >> 8) & 0xFF;
    let d: u32 = value & 0xFF;
    assert(a == value / 0x100_0000 && b == value / 0x1_0000 % 0x100 && c == value / 0x100 % 0x100
        && d == value % 0x100) by (bit_vector)
        requires
            a == (value >> 24) & 0xFF,
            b == (value >> 16) & 0xFF,
            c == (value >> 8) & 0xFF,
            d == value & 0xFF,
    ;
    let octets: [u8; 4] = [a as u8, b as u8, c as u8, d as u8];
    proof {
        assert(octets@ =~= value_octets(value));
        lemma_octets_round_trip(value, octets@);
    }
    octets
}

/// Number of characters of `s` before its first dot, or the length of `s`
/// where it holds no dot.
pub open spec fn field_len(s: Seq<char>) -> int
    decreases s.len(),
{
    if s.len() == 0 || s[0] == '.' {
        0
    } else {
        1 + field_len(s.drop_first())
    }
}

/// The byte that `s` writes down: its canonical decimal numeral.
pub open spec fn octet_of_text(s: Seq<char>) -> Option<u8> {
    if is_canonical(s) && decimal_value(s) <= 255 {
        Some(decimal_value(s) as u8)
    } else {
        None
    }
}

/// The byte written before the first dot of `s`.
pub open spec fn leading_octet(s: Seq<char>) -> Option<u8> {
    octet_of_text(s.subrange(0, field_len(s)))
}

/// What follows the first dot of `s`, where it holds one.
pub open spec fn after_field(s: Seq<char>) -> Option<Seq<char>> {
    if field_len(s) < s.len() {
        Some(s.subrange(field_len(s) + 1, s.len() as int))
    } else {
        None
    }
}

/// The four bytes that `s` writes down in dotted-quad form: exactly four
/// canonical numerals of at most 255 with exactly three dots between them.
pub open spec fn quad_of_text(s: Seq<char>) -> Option<Seq<u8>> {
    match (leading_octet(s), after_field(s)) {
        (Some(a), Some(s1)) => match (leading_octet(s1), after_field(s1)) {
            (Some(b), Some(s2)) => match (leading_octet(s2), after_field(s2)) {
                (Some(c), Some(s3)) => match (leading_octet(s3), after_field(s3)) {
                    (Some(d), None) => Some(seq![a, b, c, d]),
                    _ => None,
                },
                _ => None,
            },
            _ => None,
        },
        _ => None,
    }
}

/// The first field of a text ends at its first dot and holds none.
pub proof fn lemma_field_len(s: Seq<char>)
    ensures
        0 <= field_len(s) <= s.len(),
        forall|i: int| 0 <= i < field_len(s) ==> #[trigger] s[i] != '.',
        field_len(s) < s.len() ==> s[field_len(s)] == '.',
    decreases s.len(),
{
    if s.len() == 0 || s[0] == '.' {
    } else {
        let tail = s.drop_first();
        lemma_field_len(tail);
        assert forall|i: int| 0 <= i < field_len(s) implies #[trigger] s[i] != '.' by {
            if i > 0 {
                assert(s[i] == tail[i - 1]);
            }
        }
        if field_len(s) < s.len() {
            assert(s[field_len(s)] == tail[field_len(tail)]);
        }
    }
}

/// A position that no dot precedes and at which a dot or the end of the text
/// stands is the end of the first field.
pub proof fn lemma_field_len_unique(s: Seq<char>, end: int)
    requires
        0 <= end <= s.len(),
        forall|i: int| 0 <= i < end ==> #[trigger] s[i] != '.',
        end < s.len() ==> s[end] == '.',
    ensures
        field_len(s) == end,
{
    lemma_field_len(s);
    if field_len(s) < end {
        assert(s[field_len(s)] != '.');
    }
    if end < field_len(s) {
        assert(s[end] != '.');
    }
}

/// A numeral followed by a dot and more text is the first field of the
/// whole, and the rest is what follows the dot.
pub proof fn lemma_field_split(octet: u8, rest: Seq<char>)
    ensures
        leading_octet(decimal_text(octet as nat) + seq!['.'] + rest) == Some(octet),
        after_field(decimal_text(octet as nat) + seq!['.'] + rest) == Some(rest),
        leading_octet(decimal_text(octet as nat)) == Some(octet),
        after_field(decimal_text(octet as nat)) is None,
{
    let numeral = decimal_text(octet as nat);
    let whole = numeral + seq!['.'] + rest;
    lemma_decimal_text_value(octet as nat);
    assert forall|i: int| 0 <= i < numeral.len() implies #[trigger] whole[i] != '.' by {
        assert(whole[i] == numeral[i]);
        assert(is_digit(numeral[i]));
    }
    assert(whole[numeral.len() as int] == '.');
    lemma_field_len_unique(whole, numeral.len() as int);
    assert(whole.subrange(0, numeral.len() as int) =~= numeral);
    assert(whole.subrange(numeral.len() as int + 1, whole.len() as int) =~= rest);
    assert forall|i: int| 0 <= i < numeral.len() implies #[trigger] numeral[i] != '.' by {
        assert(is_digit(numeral[i]));
    }
    lemma_field_len_unique(numeral, numeral.len() as int);
    assert(numeral.subrange(0, numeral.len() as int) =~= numeral);
}

/// Reading the dotted-quad text of four bytes gives the four bytes back.
pub proof fn lemma_quad_round_trip(octets: Seq<u8>)
    requires
        octets.len() == 4,
    ensures
        quad_of_text(dotted_quad(octets)) == Some(octets),
{
    let t0 = decimal_text(octets[0] as nat);
    let t1 = decimal_text(octets[1] as nat);
    let t2 = decimal_text(octets[2] as nat);
    let t3 = decimal_text(octets[3] as nat);
    let dot = seq!['.'];
    let s3 = t3;
    let s2 = t2 + dot + s3;
    let s1 = t1 + dot + s2;
    let s0 = t0 + dot + s1;
    assert(dotted_quad(octets) =~= s0);
    lemma_field_split(octets[0], s1);
    lemma_field_split(octets[1], s2);
    lemma_field_split(octets[2], s3);
    lemma_field_split(octets[3], Seq::empty());
    assert(seq![octets[0], octets[1], octets[2], octets[3]] =~= octets);
}

/// A text from which four bytes are read is the dotted-quad text of these
/// bytes.
pub proof fn lemma_quad_text(s: Seq<char>)
    requires
        quad_of_text(s) is Some,
    ensures
        quad_of_text(s)->0.len() == 4,
        dotted_quad(quad_of_text(s)->0) == s,
{
    let s1 = after_field(s)->0;
    let s2 = after_field(s1)->0;
    let s3 = after_field(s2)->0;
    lemma_field_len(s);
    lemma_field_len(s1);
    lemma_field_len(s2);
    lemma_field_len(s3);
    let f0 = s.subrange(0, field_len(s));
    let f1 = s1.subrange(0, field_len(s1));
    let f2 = s2.subrange(0, field_len(s2));
    let f3 = s3.subrange(0, field_len(s3));
    lemma_canonical_text(f0);
    lemma_canonical_text(f1);
    lemma_canonical_text(f2);
    lemma_canonical_text(f3);
    let dot = seq!['.'];
    assert(s3 =~= f3);
    assert(s2 =~= f2 + dot + s3);
    assert(s1 =~= f1 + dot + s2);
    assert(s =~= f0 + dot + s1);
    assert(dotted_quad(quad_of_text(s)->0) =~= s);
}

/// A dotted-quad text holds ASCII characters only.
pub proof fn lemma_dotted_quad_ascii(octets: Seq<u8>)
    requires
        octets.len() == 4,
    ensures
        is_ascii_chars(dotted_quad(octets)),
{
    lemma_decimal_text_value(octets[0] as nat);
    lemma_decimal_text_value(octets[1] as nat);
    lemma_decimal_text_value(octets[2] as nat);
    lemma_decimal_text_value(octets[3] as nat);
    let t0 = decimal_text(octets[0] as nat);
    let t1 = decimal_text(octets[1] as nat);
    let t2 = decimal_text(octets[2] as nat);
    let t3 = decimal_text(octets[3] as nat);
    let text = dotted_quad(octets);
    assert forall|i: int| 0 <= i < text.len() implies '\0' <= #[trigger] text[i] <= '\u{7f}' by {
        let c = text[i];
        if i < t0.len() {
            assert(c == t0[i] && is_digit(t0[i]));
        } else if i == t0.len() {
            assert(c == '.');
        } else if i < t0.len() + 1 + t1.len() {
            assert(c == t1[i - t0.len() - 1] && is_digit(t1[i - t0.len() - 1]));
        } else if i == t0.len() + 1 + t1.len() {
            assert(c == '.');
        } else if i < t0.len() + 1 + t1.len() + 1 + t2.len() {
            let j = i - t0.len() - 1 - t1.len() - 1;
            assert(c == t2[j] && is_digit(t2[j]));
        } else if i == t0.len() + 1 + t1.len() + 1 + t2.len() {
            assert(c == '.');
        } else {
            let j = i - t0.len() - 1 - t1.len() - 1 - t2.len() - 1;
            assert(c == t3[j] && is_digit(t3[j]));
        }
    }
}

/// An IPv4 address: a 32-bit number, ordered as numbers are.
#[derive(Clone, Copy, Debug, PartialEq, Eq, PartialOrd, Ord, Hash, Structural)]
pub struct Address {
    pub value: u32,
}

impl View for Address {
    type V = nat;

    /// The number of the address.
    open spec fn view(&self) -> nat {
        self.value as nat
    }
}

/// The address that `s` writes down in dotted-quad form, if it writes one
/// down.
pub open spec fn address_of_text(s: Seq<char>) -> Option<Address> {
    if exists|a: Address| a.text() == s {
        Some(choose|a: Address| a.text() == s)
    } else {
        None
    }
}

impl Address {
    /// The four bytes of the address, most significant first.
    pub open spec fn octets_spec(self) -> Seq<u8> {
        value_octets(self.value)
    }

    /// The dotted-quad text of the address.
    pub open spec fn text(self) -> Seq<char> {
        dotted_quad(value_octets(self.value))
    }

    /// The address with the given number.
    pub fn new(value: u32) -> (address: Address)
        ensures
            address.value == value,
    {
        Address { value }
    }

    /// The address with the given bytes, most significant first.
    pub fn from_octets(octets: [u8; 4]) -> (address: Address)
        ensures
            address@ == octets_value(octets@),
            address.octets_spec() == octets@,
    {
        Address { value: ipv4_to_u32(octets) }
    }

    /// The four bytes of the address, most significant first.
    pub fn octets(&self) -> (octets: [u8; 4])
        ensures
            octets@ == self.octets_spec(),
            octets_value(octets@) == self@,
    {
        u32_to_ipv4(self.value)
    }

    /// Writes the address in dotted-quad form.
    pub fn to_text(&self) -> (text: String)
        ensures
            text@ == self.text(),
    {
        let octets = self.octets();
        let mut text = String::new();
        proof {
            reveal_strlit(".");
            assert("."@ =~= seq!['.']);
        }
        append_decimal(&mut text, octets[0] as u64);
        text.append(".");
        append_decimal(&mut text, octets[1] as u64);
        text.append(".");
        append_decimal(&mut text, octets[2] as u64);
        text.append(".");
        append_decimal(&mut text, octets[3] as u64);
        assert(text@ =~= self.text());
        text
    }

    /// Reads an address from its dotted-quad form. The text is accepted
    /// exactly if it is what `to_text` writes for some address: four decimal
    /// numerals of at most 255 without sign or leading zeros, three dots
    /// between them, and nothing else.
    pub fn parse(text: &str) -> (result: Result<Address, ScanError>)
        ensures
            result == match address_of_text(text@) {
                Some(address) => Ok::<Address, ScanError>(address),
                None => Err(ScanError::InvalidAddress),
            },
            result matches Ok(address) ==> address.text() == text@,
            result is Err ==> forall|a: Address| a.text() != text@,
    {
        match read_quad(text) {
            Some(octets) => {
                let address = Address::from_octets(octets);
                proof {
                    lemma_quad_text(text@);
                    assert(address.text() == text@);
                    let chosen = choose|a: Address| a.text() == text@;
                    lemma_text_injective(chosen, address);
                }
                Ok(address)
            },
            None => {
                proof {
                    assert forall|a: Address| a.text() != text@ by {
                        lemma_text_round_trip(a);
                    }
                }
                Err(ScanError::InvalidAddress)
            },
        }
    }
}

/// An inclusive range of addresses, walked in ascending numeric order.
#[derive(Clone, Copy, Debug, PartialEq, Eq)]
pub struct AddressRange {
    start: Address,
    end: Address,
}

impl View for AddressRange {
    type V = Seq<Address>;

    /// The addresses of the range in the order in which they are walked.
    open spec fn view(&self) -> Seq<Address> {
        Seq::new(self.count(), |i: int| Address { value: (self.start().value + i) as u32 })
    }
}

impl AddressRange {
    /// The range does not end before it starts.
    #[verifier::type_invariant]
    pub open spec fn wf(self) -> bool {
        self.start().value <= self.end().value
    }

    /// First address of the range.
    pub closed spec fn start(self) -> Address {
        self.start
    }

    /// Last address of the range.
    pub closed spec fn end(self) -> Address {
        self.end
    }

    /// Number of addresses in the range.
    pub open spec fn count(self) -> nat {
        (self.end().value - self.start().value + 1) as nat
    }

    /// The range from `start` to `end`. A range that would end before it
    /// starts is not made: the two addresses are never swapped.
    pub fn new(start: Address, end: Address) -> (range: AddressRange)
        requires
            start.value <= end.value,
        ensures
            range.start() == start,
            range.end() == end,
            range.wf(),
    {
        AddressRange { start, end }
    }

    /// The range that holds `address` and nothing else.
    pub fn single(address: Address) -> (range: AddressRange)
        ensures
            range.start() == address,
            range.end() == address,
            range.wf(),
            range@ == seq![address],
    {
        let range = AddressRange { start: address, end: address };
        assert(range@ =~= seq![address]);
        range
    }

    /// First address of the range.
    pub fn first(&self) -> (address: Address)
        ensures
            address == self.start(),
            self.wf(),
    {
        proof {
            use_type_invariant(self);
        }
        self.start
    }

    /// Last address of the range.
    pub fn last(&self) -> (address: Address)
        ensures
            address == self.end(),
            self.wf(),
    {
        proof {
            use_type_invariant(self);
        }
        self.end
    }

    /// Number of addresses in the range.
    pub fn len(&self) -> (count: u64)
        ensures
            count == self.count(),
            count == self@.len(),
            1 <= count <= 0x1_0000_0000,
    {
        proof {
            use_type_invariant(self);
        }
        (self.end.value - self.start.value) as u64 + 1
    }

    /// Whether `address` lies in the range.
    pub fn contains(&self, address: Address) -> (inside: bool)
        ensures
            inside == (self.start().value <= address.value <= self.end().value),
            inside == self@.contains(address),
    {
        proof {
            use_type_invariant(self);
            if self.start.value <= address.value <= self.end.value {
                assert(self@[address.value - self.start.value] == address);
            }
        }
        self.start.value <= address.value && address.value <= self.end.value
    }
}

/// Reading what was written gives the address back: the text of an address
/// is the text of no other.
pub proof fn lemma_text_round_trip(a: Address)
    ensures
        quad_of_text(a.text()) == Some(a.octets_spec()),
        address_of_text(a.text()) == Some(a),
{
    lemma_octets_round_trip(a.value, a.octets_spec());
    lemma_quad_round_trip(a.octets_spec());
    let chosen = choose|b: Address| b.text() == a.text();
    lemma_text_injective(chosen, a);
}

/// Two addresses with the same dotted-quad text are the same address.
pub proof fn lemma_text_injective(a: Address, b: Address)
    requires
        a.text() == b.text(),
    ensures
        a == b,
{
    lemma_octets_round_trip(a.value, a.octets_spec());
    lemma_octets_round_trip(b.value, b.octets_spec());
    lemma_quad_round_trip(a.octets_spec());
    lemma_quad_round_trip(b.octets_spec());
}

/// Reads one field of a dotted-quad text, from `from` up to the next dot or
/// the end: the byte written there, if one is, and the place behind the dot,
/// if a dot ends the field.
fn read_field(text: &str, from: usize) -> (field: (Option<u8>, Option<usize>))
    requires
        text.is_ascii(),
        from <= text@.len(),
    ensures
        field.0 == leading_octet(text@.subrange(from as int, text@.len() as int)),
        match field.1 {
            Some(next) => from < next <= text@.len() && after_field(
                text@.subrange(from as int, text@.len() as int),
            ) == Some(text@.subrange(next as int, text@.len() as int)),
            None => after_field(text@.subrange(from as int, text@.len() as int)) is None,
        },
{
    let length: usize = ascii_len(text);
    let ghost s = text@.subrange(from as int, length as int);
    let mut to: usize = from;
    while to < length && text.get_ascii(to) != 46
        invariant
            text.is_ascii(),
            from <= to <= length,
            length == text@.len(),
            forall|i: int| from <= i < to ==> #[trigger] text@[i] != '.',
        decreases length - to,
    {
        to = to + 1;
    }
    proof {
        assert forall|i: int| 0 <= i < to - from implies #[trigger] s[i] != '.' by {
            assert(s[i] == text@[from + i]);
        }
        if to < length {
            assert(s[to - from] == text@[to as int]);
        }
        lemma_field_len_unique(s, to - from);
        assert(s.subrange(0, to - from) =~= text@.subrange(from as int, to as int));
        if to < length {
            assert(s.subrange(to - from + 1, s.len() as int) =~= text@.subrange(
                to + 1,
                length as int,
            ));
        }
    }
    let octet: Option<u8> = match read_decimal(text, from, to, 255) {
        Some(n) => {
            if to - from == 1 || text.get_ascii(from) != 48 {
                Some(n as u8)
            } else {
                None
            }
        },
        None => None,
    };
    let next: Option<usize> = if to < length {
        Some(to + 1)
    } else {
        None
    };
    (octet, next)
}

/// Reads the four bytes of a dotted-quad text.
fn read_quad(text: &str) -> (quad: Option<[u8; 4]>)
    ensures
        quad matches Some(octets) ==> quad_of_text(text@) == Some(octets@),
        quad is None ==> quad_of_text(text@) is None,
{
    if !text.is_ascii() {
        proof {
            if quad_of_text(text@) is Some {
                lemma_quad_text(text@);
                lemma_dotted_quad_ascii(quad_of_text(text@)->0);
            }
        }
        return None;
    }
    assert(text@.subrange(0, text@.len() as int) =~= text@);
    let (a, after_a) = read_field(text, 0);
    match (a, after_a) {
        (Some(a), Some(at_b)) => {
            let (b, after_b) = read_field(text, at_b);
            match (b, after_b) {
                (Some(b), Some(at_c)) => {
                    let (c, after_c) = read_field(text, at_c);
                    match (c, after_c) {
                        (Some(c), Some(at_d)) => {
                            let (d, after_d) = read_field(text, at_d);
                            match (d, after_d) {
                                (Some(d), None) => {
                                    let octets: [u8; 4] = [a, b, c, d];
                                    assert(octets@ =~= seq![a, b, c, d]);
                                    Some(octets)
                                },
                                _ => None,
                            }
                        },
                        _ => None,
                    }
                },
                _ => None,
            }
        },
        _ => None,
    }
}

} // verus!
