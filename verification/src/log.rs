//! The log of a scan: its lines and the name of its file.

use crate::address::AddressRange;
use crate::decimal::{append_decimal, append_padded, decimal_text, pad_left};
use crate::scan::{lemma_scan_results, reachable_count, Scan, ScanMode, ScanResult};
use vstd::prelude::*;
use vstd::string::*;

verus! {

/// The first line of a log: what was scanned.
pub open spec fn header_text(mode: ScanMode, addresses: AddressRange) -> Seq<char> {
    match mode {
        ScanMode::Host => "IP escaneado: "@ + addresses.start().text(),
        ScanMode::Range => "IP range escaneado: "@ + addresses.start().text() + " - "@
            + addresses.end().text(),
    }
}

/// The line that reports an open port: the port alone for a scan of one
/// host, address and port for a scan of a range.
pub open spec fn result_line_text(mode: ScanMode, result: ScanResult) -> Seq<char> {
    match mode {
        ScanMode::Host => "Porta "@ + decimal_text(result.unit.port as nat) + " aberta"@,
        ScanMode::Range => result.unit.address.text() + ":"@ + decimal_text(
            result.unit.port as nat,
        ) + " aberta"@,
    }
}

/// The lines of a log: the header, then one line for each result, in the
/// order of the results.
pub open spec fn log_text(mode: ScanMode, addresses: AddressRange, results: Seq<ScanResult>) -> Seq<
    Seq<char>,
> {
    seq![header_text(mode, addresses)] + Seq::new(
        results.len(),
        |i: int| result_line_text(mode, results[i]),
    )
}

/// Writes the first line of a log.
pub fn log_header(mode: ScanMode, addresses: &AddressRange) -> (line: String)
    ensures
        line@ == header_text(mode, *addresses),
{
    match mode {
        ScanMode::Host => {
            let mut line = String::from_str("IP escaneado: ");
            line.append(addresses.first().to_text().as_str());
            line
        },
        ScanMode::Range => {
            let mut line = String::from_str("IP range escaneado: ");
            line.append(addresses.first().to_text().as_str());
            line.append(" - ");
            line.append(addresses.last().to_text().as_str());
            line
        },
    }
}

/// Writes the line that reports an open port.
pub fn result_line(mode: ScanMode, result: &ScanResult) -> (line: String)
    ensures
        line@ == result_line_text(mode, *result),
{
    match mode {
        ScanMode::Host => {
            let mut line = String::from_str("Porta ");
            append_decimal(&mut line, result.unit.port as u64);
            line.append(" aberta");
            line
        },
        ScanMode::Range => {
            let mut line = result.unit.address.to_text();
            line.append(":");
            append_decimal(&mut line, result.unit.port as u64);
            line.append(" aberta");
            line
        },
    }
}

/// Writes the lines of a log: the header and one line for each result.
pub fn log_record(mode: ScanMode, addresses: &AddressRange, results: &Vec<ScanResult>) -> (lines:
    Vec<String>)
    ensures
        lines@.len() == results@.len() + 1,
        lines@[0]@ == header_text(mode, *addresses),
        forall|i: int|
            0 <= i < results@.len() ==> (#[trigger] lines@[i + 1])@ == result_line_text(
                mode,
                results@[i],
            ),
        forall|i: int|
            0 <= i < lines@.len() ==> (#[trigger] lines@[i])@ == log_text(
                mode,
                *addresses,
                results@,
            )[i],
{
    let mut lines: Vec<String> = Vec::new();
    lines.push(log_header(mode, addresses));
    let mut at: usize = 0;
    while at < results.len()
        invariant
            at <= results@.len(),
            lines@.len() == at + 1,
            lines@[0]@ == header_text(mode, *addresses),
            forall|i: int|
                0 <= i < at ==> (#[trigger] lines@[i + 1])@ == result_line_text(mode, results@[i]),
        decreases results@.len() - at,
    {
        lines.push(result_line(mode, &results[at]));
        at = at + 1;
    }
    proof {
        assert forall|i: int| 0 <= i < lines@.len() implies (#[trigger] lines@[i])@ == log_text(
            mode,
            *addresses,
            results@,
        )[i] by {
            if i > 0 {
                assert(lines@[(i - 1) + 1]@ == result_line_text(mode, results@[i - 1]));
            }
        }
    }
    lines
}

/// Writes the log of a scan: what was scanned, then one line for each open
/// port found so far, in the order in which they were found.
pub fn scan_log(scan: &Scan) -> (lines: Vec<String>)
    ensures
        lines@.len() == scan.found().len() + 1,
        scan.wf() ==> lines@.len() == reachable_count(scan.outcomes()) + 1,
        forall|i: int|
            0 <= i < lines@.len() ==> (#[trigger] lines@[i])@ == log_text(
                scan.mode(),
                scan.addresses(),
                scan.found(),
            )[i],
{
    proof {
        if scan.wf() {
            lemma_scan_results(*scan);
        }
    }
    let addresses = scan.address_range();
    log_record(scan.scan_mode(), &addresses, scan.results())
}

/// A moment of a wall clock, to the second.
#[derive(Clone, Copy, Debug, PartialEq, Eq, Structural)]
pub struct Timestamp {
    pub year: i32,
    pub month: u32,
    pub day: u32,
    pub hour: u32,
    pub minute: u32,
    pub second: u32,
}

/// The year as a file name holds it: four digits for the years 0 to 9999,
/// and else a sign and at least four digits.
pub open spec fn year_text(year: int) -> Seq<char> {
    if 0 <= year <= 9999 {
        pad_left(decimal_text(year as nat), 4, '0')
    } else if year < 0 {
        seq!['-'] + pad_left(decimal_text((-year) as nat), 4, '0')
    } else {
        seq!['+'] + pad_left(decimal_text(year as nat), 4, '0')
    }
}

/// A number in two digits.
pub open spec fn two_digits(n: nat) -> Seq<char> {
    pad_left(decimal_text(n), 2, '0')
}

impl Timestamp {
    /// Month, day, hour, minute and second lie within the calendar and the
    /// clock.
    pub open spec fn wf(self) -> bool {
        &&& 1 <= self.month <= 12
        &&& 1 <= self.day <= 31
        &&& self.hour <= 23
        &&& self.minute <= 59
        &&& self.second <= 59
    }

    /// Name of the log file written at this moment: year, month, day, an
    /// underscore, hour, minute, second, and the ending `.log`.
    pub open spec fn file_name_text(self) -> Seq<char> {
        year_text(self.year as int) + two_digits(self.month as nat) + two_digits(self.day as nat)
            + seq!['_'] + two_digits(self.hour as nat) + two_digits(self.minute as nat)
            + two_digits(self.second as nat) + ".log"@
    }

    /// The moment with the given fields, where month, day, hour, minute and
    /// second lie within the calendar and the clock, and else nothing.
    pub fn new(year: i32, month: u32, day: u32, hour: u32, minute: u32, second: u32) -> (moment:
        Option<Timestamp>)
        ensures
            moment is Some <==> (Timestamp { year, month, day, hour, minute, second }).wf(),
            moment matches Some(made) ==> made == (Timestamp {
                year,
                month,
                day,
                hour,
                minute,
                second,
            }),
    {
        if 1 <= month && month <= 12 && 1 <= day && day <= 31 && hour <= 23 && minute <= 59
            && second <= 59 {
            Some(Timestamp { year, month, day, hour, minute, second })
        } else {
            None
        }
    }

    /// Name of the log file written at this moment.
    pub fn log_file_name(&self) -> (name: String)
        ensures
            name@ == self.file_name_text(),
    {
        proof {
            reveal_strlit("-");
            reveal_strlit("+");
            reveal_strlit("_");
            reveal_strlit("0");
        }
        let mut name = String::new();
        if 0 <= self.year && self.year <= 9999 {
            append_padded(&mut name, self.year as u64, 4, "0");
        } else if self.year < 0 {
            name.append("-");
            append_padded(&mut name, (-(self.year as i64)) as u64, 4, "0");
        } else {
            name.append("+");
            append_padded(&mut name, self.year as u64, 4, "0");
        }
        assert(name@ =~= year_text(self.year as int));
        append_padded(&mut name, self.month as u64, 2, "0");
        append_padded(&mut name, self.day as u64, 2, "0");
        name.append("_");
        append_padded(&mut name, self.hour as u64, 2, "0");
        append_padded(&mut name, self.minute as u64, 2, "0");
        append_padded(&mut name, self.second as u64, 2, "0");
        name.append(".log");
        assert(name@ =~= self.file_name_text());
        name
    }
}

} // verus!
