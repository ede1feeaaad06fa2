//! Port numbers: their text form and inclusive ranges of them.

use crate::decimal::{ascii_len, bounded_decimal, is_digit, read_decimal};
use vstd::prelude::*;
use vstd::string::*;

verus! {

/// Start of a port range whose text cannot be read.
pub const FALLBACK_START_PORT: u16 = 1;

/// The port that `s` writes down: an optional `+`, then decimal digits that
/// denote a number of at most 65535. Any other text is no port.
pub open spec fn port_of_text(s: Seq<char>) -> Option<u16> {
    let digits = if s.len() >= 1 && s[0] == '+' {
        s.drop_first()
    } else {
        s
    };
    match bounded_decimal(digits, 65535) {
        Some(n) => Some(n as u16),
        None => None,
    }
}

/// The port that `s` writes down, or `fallback` where `s` is no port.
pub open spec fn port_of_text_or(s: Seq<char>, fallback: u16) -> u16 {
    match port_of_text(s) {
        Some(port) => port,
        None => fallback,
    }
}

/// Reads a port number from its text.
pub fn parse_port(text: &str) -> (port: Option<u16>)
    ensures
        port == port_of_text(text@),
{
    if !text.is_ascii() {
        proof {
            let s = text@;
            let bad = choose|i: int| 0 <= i < s.len() && !('\0' <= #[trigger] s[i] <= '\u{7f}');
            assert(!is_digit(s[bad]));
            if s.len() >= 1 && s[0] == '+' {
                assert(s.drop_first()[bad - 1] == s[bad]);
            }
        }
        return None;
    }
    let length: usize = ascii_len(text);
    let from: usize = if length >= 1 && text.get_ascii(0) == 43 {
        1
    } else {
        0
    };
    proof {
        let s = text@;
        if from == 1 {
            assert(s[0] == '+');
            assert(s.drop_first() =~= s.subrange(1, length as int));
        } else {
            assert(s =~= s.subrange(0, length as int));
        }
    }
    match read_decimal(text, from, length, 65535) {
        Some(n) => Some(n as u16),
        None => None,
    }
}

/// Reads a port number from its text; text that is no port gives `fallback`.
pub fn parse_port_or(text: &str, fallback: u16) -> (port: u16)
    ensures
        port == port_of_text_or(text@, fallback),
{
    match parse_port(text) {
        Some(port) => port,
        None => fallback,
    }
}

/// An inclusive range of ports, walked in ascending order.
#[derive(Clone, Copy, Debug, PartialEq, Eq)]
pub struct PortRange {
    start: u16,
    end: u16,
}

impl View for PortRange {
    type V = Seq<u16>;

    /// The ports of the range in the order in which they are walked.
    open spec fn view(&self) -> Seq<u16> {
        Seq::new(self.count(), |i: int| (self.start() + i) as u16)
    }
}

impl PortRange {
    /// The range does not end before it starts.
    #[verifier::type_invariant]
    pub open spec fn wf(self) -> bool {
        self.start() <= self.end()
    }

    /// First port of the range.
    pub closed spec fn start(self) -> u16 {
        self.start
    }

    /// Last port of the range.
    pub closed spec fn end(self) -> u16 {
        self.end
    }

    /// Number of ports in the range.
    pub open spec fn count(self) -> nat {
        (self.end() - self.start() + 1) as nat
    }

    /// The range from `start` to `end`. Where `end` lies below `start` the
    /// range is the single port `start`.
    pub fn new(start: u16, end: u16) -> (range: PortRange)
        ensures
            range.start() == start,
            range.end() == if end < start { start } else { end },
            range.wf(),
    {
        if end < start {
            PortRange { start, end: start }
        } else {
            PortRange { start, end }
        }
    }

    /// The range that two lines of user input ask for. A start that is no
    /// port number stands for port 1 and an end that is none stands for the
    /// start; an end below the start leaves the single port at the start.
    pub fn from_text(start_text: &str, end_text: &str) -> (range: PortRange)
        ensures
            range.start() == port_of_text_or(start_text@, FALLBACK_START_PORT),
            range.end() == ({
                let end = port_of_text_or(end_text@, range.start());
                if end < range.start() {
                    range.start()
                } else {
                    end
                }
            }),
            range.wf(),
    {
        let start = parse_port_or(start_text, FALLBACK_START_PORT);
        let end = parse_port_or(end_text, start);
        PortRange::new(start, end)
    }

    /// First port of the range.
    pub fn first(&self) -> (port: u16)
        ensures
            port == self.start(),
            self.wf(),
    {
        proof {
            use_type_invariant(self);
        }
        self.start
    }

    /// Last port of the range.
    pub fn last(&self) -> (port: u16)
        ensures
            port == self.end(),
            self.wf(),
    {
        proof {
            use_type_invariant(self);
        }
        self.end
    }

    /// Number of ports in the range.
    pub fn len(&self) -> (count: u32)
        ensures
            count == self.count(),
            1 <= count <= 65536,
            count == self@.len(),
    {
        proof {
            use_type_invariant(self);
        }
        (self.end - self.start) as u32 + 1
    }

    /// Whether `port` lies in the range.
    pub fn contains(&self, port: u16) -> (inside: bool)
        ensures
            inside == (self.start() <= port <= self.end()),
            inside == self@.contains(port),
    {
        proof {
            use_type_invariant(self);
            if self.start <= port <= self.end {
                assert(self@[port - self.start] == port);
            }
        }
        self.start <= port && port <= self.end
    }
}

} // verus!
