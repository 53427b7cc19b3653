//! Text for people: one cache line's history, the run's counters, and the
//! messages of the errors.
use crate::engine::{CacheEntry, CacheStats};
use crate::geometry::CacheDesc;
use crate::trace::{InvalidArgumentsError, ParseStrategyError, ReadError};
use vstd::prelude::*;
use vstd::string::StringExecFns;

verus! {

/// Relies on `String::push`: it appends the one character to the string.
#[verifier::external_body]
fn push_char(s: &mut String, c: char)
    ensures
        final(s)@ == old(s)@.push(c),
{
    s.push(c);
}

/// The character of digit `d`, lower-case for 10 to 15.
pub open spec fn digit_char(d: nat) -> char {
    "0123456789abcdef"@[d as int]
}

/// `n` in `radix`, most significant digit first, without leading zeros.
pub open spec fn digits(n: nat, radix: nat) -> Seq<char>
    decreases n,
    via digits_decreases
{
    if radix < 2 || n < radix {
        seq![digit_char(n)]
    } else {
        digits(n / radix, radix).push(digit_char(n % radix))
    }
}

#[via_fn]
proof fn digits_decreases(n: nat, radix: nat) {
    if radix >= 2 && n >= radix {
        vstd::arithmetic::div_mod::lemma_div_decreases(n as int, radix as int);
    }
}

/// Appends the digits of `n` in `radix` to `s`.
fn push_digits(s: &mut String, n: u64, radix: u64)
    requires
        2 <= radix <= 16,
    ensures
        final(s)@ == old(s)@ + digits(n as nat, radix as nat),
    decreases n,
{
    proof {
        reveal_strlit("0123456789abcdef");
    }
    if n >= radix {
        push_digits(s, n / radix, radix);
    }
    let c = "0123456789abcdef".get_char((n % radix) as usize);
    push_char(s, c);
    assert(s@ =~= old(s)@ + digits(n as nat, radix as nat));
}

/// One entry as `<tag in hexadecimal> (<step it entered at>)`.
pub open spec fn entry_text(e: CacheEntry) -> Seq<char> {
    digits(e.tag as nat, 16) + " ("@ + digits(e.entered as nat, 10) + ")"@
}

/// Each entry of `es` in order, each after ` | `.
pub open spec fn entries_text(es: Seq<CacheEntry>) -> Seq<char>
    decreases es.len(),
{
    if es.len() == 0 {
        seq![]
    } else {
        entries_text(es.drop_last()) + " | "@ + entry_text(es.last())
    }
}

/// The history `es` of a line of set `set`: the set's number, then its
/// entries, or ` | -` where it has none.
pub open spec fn line_text(set: nat, es: Seq<CacheEntry>) -> Seq<char> {
    digits(set, 10) + if es.len() == 0 {
        " | -"@
    } else {
        entries_text(es)
    }
}

/// Renders the history of the line at table position `pos` as
/// `<set> | <tag> (<entered>) | ...`, or `<set> | -` where it was never
/// filled; `<set>` is `pos / assoc`, tags are hexadecimal.
pub fn format_line(cache: &CacheDesc, pos: usize, line: &Vec<CacheEntry>) -> (r: String)
    requires
        cache.assoc > 0,
    ensures
        r@ == line_text(pos as nat / cache.assoc as nat, line@),
{
    let mut s = String::new();
    push_digits(&mut s, pos as u64 / cache.assoc, 10);
    if line.len() == 0 {
        s.append(" | -");
        return s;
    }
    let ghost head = s@;
    let mut j: usize = 0;
    assert(line@.take(0) =~= Seq::<CacheEntry>::empty());
    while j < line.len()
        invariant
            j <= line.len(),
            s@ == head + entries_text(line@.take(j as int)),
        decreases line.len() - j,
    {
        let e = line[j];
        assert(line@.take(j + 1).drop_last() =~= line@.take(j as int));
        s.append(" | ");
        push_digits(&mut s, e.tag, 16);
        s.append(" (");
        push_digits(&mut s, e.entered, 10);
        s.append(")");
        assert(s@ =~= head + entries_text(line@.take(j + 1)));
        j = j + 1;
    }
    assert(line@.take(line.len() as int) =~= line@);
    s
}

/// `Hits: H/N. Misses: M/N. Evictions: E/N.` for `N` accesses.
pub open spec fn summary_text(stats: CacheStats, total: nat) -> Seq<char> {
    let n = digits(total, 10);
    "Hits: "@ + digits(stats.hits as nat, 10) + "/"@ + n + ". Misses: "@ + digits(
        stats.misses as nat,
        10,
    ) + "/"@ + n + ". Evictions: "@ + digits(stats.evictions as nat, 10) + "/"@ + n + "."@
}

impl CacheStats {
    /// The counters as `Hits: H/N. Misses: M/N. Evictions: E/N.`, out of
    /// `total` accesses.
    pub fn summary(&self, total: u64) -> (r: String)
        ensures
            r@ == summary_text(*self, total as nat),
    {
        let mut s = String::from_str("Hits: ");
        push_digits(&mut s, self.hits, 10);
        s.append("/");
        push_digits(&mut s, total, 10);
        s.append(". Misses: ");
        push_digits(&mut s, self.misses, 10);
        s.append("/");
        push_digits(&mut s, total, 10);
        s.append(". Evictions: ");
        push_digits(&mut s, self.evictions, 10);
        s.append("/");
        push_digits(&mut s, total, 10);
        s.append(".");
        assert(s@ =~= summary_text(*self, total as nat));
        s
    }
}

impl ReadError {
    /// What went wrong, for people.
    pub fn message(&self) -> (r: String)
        ensures
            r@ == match self {
                ReadError::FileTooShort => "Missing parameters."@,
                ReadError::InvalidInteger => "Invalid integer parameter."@,
                ReadError::InvalidStrategy => "Invalid strategy"@,
            },
    {
        match self {
            ReadError::FileTooShort => String::from_str("Missing parameters."),
            ReadError::InvalidInteger => String::from_str("Invalid integer parameter."),
            ReadError::InvalidStrategy => String::from_str("Invalid strategy"),
        }
    }
}

impl ParseStrategyError {
    /// What went wrong, for people.
    pub fn message(&self) -> (r: String)
        ensures
            r@ == "Invalid strategy"@,
    {
        String::from_str("Invalid strategy")
    }
}

impl InvalidArgumentsError {
    /// How the program is called.
    pub fn message(&self) -> (r: String)
        ensures
            r@ == "Usage: cachecache <path-to-test>"@,
    {
        String::from_str("Usage: cachecache <path-to-test>")
    }
}

} // verus!
