//! The trace reader: a text of four decimal parameters, a strategy name and
//! hexadecimal addresses, one per line.
use crate::geometry::{CacheDesc, Strategy};
use vstd::prelude::*;
use vstd::string::StringSliceAdditionalSpecFns;

verus! {

/// Why a trace could not be read.
#[derive(Clone, Copy, Debug, PartialEq, Eq, Structural)]
pub enum ReadError {
    /// Fewer than four parameters, or no strategy line.
    FileTooShort,
    /// A parameter is not a decimal number that fits in 64 bits.
    InvalidInteger,
    /// The strategy is none of `LRU`, `LFU`, `First`.
    InvalidStrategy,
}

/// A strategy name that is none of `LRU`, `LFU`, `First`.
#[derive(Clone, Copy, Debug, PartialEq, Eq, Structural)]
pub struct ParseStrategyError;

/// A command line that does not name exactly one trace file.
#[derive(Clone, Copy, Debug, PartialEq, Eq, Structural)]
pub struct InvalidArgumentsError;

/// Number of bytes before the first `\n` of `b` (all of `b` if it has none).
pub open spec fn line_len(b: Seq<u8>) -> nat
    decreases b.len(),
{
    if b.len() == 0 || b[0] == 10 {
        0
    } else {
        1 + line_len(b.drop_first())
    }
}

/// A line is no longer than the text.
pub proof fn lemma_line_len_bound(b: Seq<u8>)
    ensures
        line_len(b) <= b.len(),
    decreases b.len(),
{
    if b.len() > 0 && b[0] != 10 {
        lemma_line_len_bound(b.drop_first());
    }
}

/// `l` without one trailing `\r`.
pub open spec fn strip_cr(l: Seq<u8>) -> Seq<u8> {
    if l.len() > 0 && l.last() == 13 {
        l.drop_last()
    } else {
        l
    }
}

/// The non-empty lines of `b`, in order. Lines end at `\n` or `\r\n`; the
/// last one may have no terminator.
pub open spec fn content_lines(b: Seq<u8>) -> Seq<Seq<u8>>
    decreases b.len(),
    via content_lines_decreases
{
    if b.len() == 0 {
        seq![]
    } else if line_len(b) == b.len() {
        seq![b]
    } else {
        let n = line_len(b) as int;
        let line = strip_cr(b.take(n));
        let rest = content_lines(b.skip(n + 1));
        if line.len() == 0 {
            rest
        } else {
            seq![line] + rest
        }
    }
}

#[via_fn]
proof fn content_lines_decreases(b: Seq<u8>) {
    lemma_line_len_bound(b);
}

/// Value of an ASCII digit or letter: `0`-`9` are 0 to 9, `a`-`z` and
/// `A`-`Z` are 10 to 35; any other byte is 36, a digit in no radix.
pub open spec fn digit_value(c: u8) -> nat {
    if 48 <= c <= 57 {
        (c - 48) as nat
    } else if 97 <= c <= 122 {
        (c - 87) as nat
    } else if 65 <= c <= 90 {
        (c - 55) as nat
    } else {
        36
    }
}

/// The number that the digits `s` spell in `radix`, most significant first.
pub open spec fn digits_value(s: Seq<u8>, radix: nat) -> nat
    decreases s.len(),
{
    if s.len() == 0 {
        0
    } else {
        digits_value(s.drop_last(), radix) * radix + digit_value(s.last())
    }
}

/// `s` without one leading `+`.
pub open spec fn unsigned_digits(s: Seq<u8>) -> Seq<u8> {
    if s.len() > 0 && s[0] == 43 {
        s.drop_first()
    } else {
        s
    }
}

/// The unsigned 64-bit number that `s` spells in `radix`: an optional `+`,
/// then at least one digit of the radix, with a value below 2^64.
pub open spec fn parse_unsigned(s: Seq<u8>, radix: nat) -> Option<u64> {
    let d = unsigned_digits(s);
    if d.len() > 0 && (forall|j: int| 0 <= j < d.len() ==> #[trigger] digit_value(d[j]) < radix)
        && digits_value(d, radix) <= u64::MAX {
        Some(digits_value(d, radix) as u64)
    } else {
        None
    }
}

/// The strategy that the line `s` names, exactly and case-sensitively.
pub open spec fn strategy_of(s: Seq<u8>) -> Option<Strategy> {
    if s == seq![76u8, 82u8, 85u8] {
        Some(Strategy::LRU)
    } else if s == seq![76u8, 70u8, 85u8] {
        Some(Strategy::LFU)
    } else if s == seq![70u8, 105u8, 114u8, 115u8, 116u8] {
        Some(Strategy::First)
    } else {
        None
    }
}

/// Parameter `k` of the header formed by the lines `f`.
pub open spec fn header_field(f: Seq<Seq<u8>>, k: int) -> Result<u64, ReadError> {
    if f.len() <= k {
        Err(ReadError::FileTooShort)
    } else {
        match parse_unsigned(f[k], 10) {
            Some(v) => Ok(v),
            None => Err(ReadError::InvalidInteger),
        }
    }
}

/// The addresses that the lines `f` spell in hexadecimal, in order; lines
/// that spell none are left out.
pub open spec fn hex_values(f: Seq<Seq<u8>>) -> Seq<u64>
    decreases f.len(),
{
    if f.len() == 0 {
        seq![]
    } else {
        match parse_unsigned(f.last(), 16) {
            Some(v) => hex_values(f.drop_last()).push(v),
            None => hex_values(f.drop_last()),
        }
    }
}

/// The descriptor and addresses that the text `b` holds. Its first four
/// non-empty lines are `addr_size`, `block_size`, `n_blocks` and `assoc`,
/// read in that order; the fifth is the strategy; every later line that
/// spells a hexadecimal address contributes it.
pub open spec fn parse_trace(b: Seq<u8>) -> Result<(CacheDesc, Seq<u64>), ReadError> {
    let f = content_lines(b);
    let addr_size = header_field(f, 0);
    let block_size = header_field(f, 1);
    let n_blocks = header_field(f, 2);
    let assoc = header_field(f, 3);
    if addr_size is Err {
        Err(addr_size->Err_0)
    } else if block_size is Err {
        Err(block_size->Err_0)
    } else if n_blocks is Err {
        Err(n_blocks->Err_0)
    } else if assoc is Err {
        Err(assoc->Err_0)
    } else if f.len() <= 4 {
        Err(ReadError::FileTooShort)
    } else if strategy_of(f[4]) is None {
        Err(ReadError::InvalidStrategy)
    } else {
        Ok(
            (
                CacheDesc {
                    addr_size: addr_size->Ok_0,
                    block_size: block_size->Ok_0,
                    n_blocks: n_blocks->Ok_0,
                    assoc: assoc->Ok_0,
                    strat: strategy_of(f[4])->Some_0,
                },
                hex_values(f.skip(5)),
            ),
        )
    }
}

} // verus!

verus! {

/// `line_len` of a text whose first `k` bytes are no `\n`, followed by a `\n` or the end.
proof fn lemma_line_len_is(s: Seq<u8>, k: int)
    requires
        0 <= k <= s.len(),
        forall|q: int| 0 <= q < k ==> s[q] != 10,
        k < s.len() ==> s[k] == 10,
    ensures
        line_len(s) == k,
    decreases k,
{
    if k > 0 {
        lemma_line_len_is(s.drop_first(), k - 1);
    }
}

/// The pieces of `b` that the ranges `r` delimit.
pub open spec fn ranges_view(b: Seq<u8>, r: Seq<(usize, usize)>) -> Seq<Seq<u8>> {
    r.map_values(|p: (usize, usize)| b.subrange(p.0 as int, p.1 as int))
}

/// Where the non-empty lines of `b` lie, in order.
fn line_ranges(b: &[u8]) -> (r: Vec<(usize, usize)>)
    ensures
        forall|j: int| 0 <= j < r.len() ==> (#[trigger] r@[j]).0 <= r@[j].1 <= b.len(),
        ranges_view(b@, r@) == content_lines(b@),
{
    let n = b.len();
    let mut r: Vec<(usize, usize)> = Vec::new();
    let mut start: usize = 0;
    let mut i: usize = 0;
    assert(b@.skip(0) =~= b@);
    assert(ranges_view(b@, r@) + content_lines(b@) =~= content_lines(b@));
    while i < n
        invariant
            start <= i <= n,
            n == b.len(),
            forall|j: int| 0 <= j < r.len() ==> (#[trigger] r@[j]).0 <= r@[j].1 <= n,
            content_lines(b@) == ranges_view(b@, r@) + content_lines(b@.skip(start as int)),
            forall|q: int| start <= q < i ==> b@[q] != 10,
        decreases n - i,
    {
        if b[i] == 10 {
            let end = if i > start && b[i - 1] == 13 {
                i - 1
            } else {
                i
            };
            let ghost s = b@.skip(start as int);
            let ghost old_r = r@;
            proof {
                lemma_line_len_is(s, i - start);
                assert(s.skip(i - start + 1) =~= b@.skip(i + 1));
                assert(strip_cr(s.take(i - start)) =~= b@.subrange(start as int, end as int));
            }
            if end > start {
                r.push((start, end));
                proof {
                    assert(ranges_view(b@, r@) =~= ranges_view(b@, old_r).push(
                        b@.subrange(start as int, end as int),
                    ));
                    assert(ranges_view(b@, r@) + content_lines(b@.skip(i + 1)) =~= ranges_view(
                        b@,
                        old_r,
                    ) + (seq![b@.subrange(start as int, end as int)] + content_lines(
                        b@.skip(i + 1),
                    )));
                }
            }
            start = i + 1;
        }
        i = i + 1;
    }
    if start < n {
        let ghost old_r = r@;
        proof {
            lemma_line_len_is(b@.skip(start as int), n - start);
            assert(b@.skip(start as int) =~= b@.subrange(start as int, n as int));
        }
        r.push((start, n));
        proof {
            assert(ranges_view(b@, r@) =~= ranges_view(b@, old_r).push(
                b@.subrange(start as int, n as int),
            ));
        }
    } else {
        assert(b@.skip(start as int) =~= Seq::<u8>::empty());
    }
    assert(ranges_view(b@, r@) + Seq::<Seq<u8>>::empty() =~= ranges_view(b@, r@));
    r
}

} // verus!

verus! {

/// A prefix of a digit string spells no larger number than the whole.
proof fn lemma_prefix_value_le(s: Seq<u8>, k: int, radix: nat)
    requires
        0 <= k <= s.len(),
        radix >= 1,
    ensures
        digits_value(s.take(k), radix) <= digits_value(s, radix),
    decreases s.len(),
{
    if k == s.len() {
        assert(s.take(k) =~= s);
    } else {
        let t = s.drop_last();
        lemma_prefix_value_le(t, k, radix);
        assert(t.take(k) =~= s.take(k));
        let v = digits_value(t, radix);
        assert(v <= v * radix) by (nonlinear_arith)
            requires
                radix >= 1,
        ;
    }
}

/// `digit_value` of one byte.
fn digit_of(c: u8) -> (r: u64)
    ensures
        r == digit_value(c),
{
    if 48 <= c && c <= 57 {
        (c - 48) as u64
    } else if 97 <= c && c <= 122 {
        (c - 87) as u64
    } else if 65 <= c && c <= 90 {
        (c - 55) as u64
    } else {
        36
    }
}

/// The number that `b[start..end]` spells in `radix`, as `parse_unsigned` states.
fn parse_range(b: &[u8], start: usize, end: usize, radix: u64) -> (r: Option<u64>)
    requires
        start <= end <= b.len(),
        2 <= radix <= 36,
    ensures
        r == parse_unsigned(b@.subrange(start as int, end as int), radix as nat),
{
    let ghost s = b@.subrange(start as int, end as int);
    let mut first = start;
    if first < end && b[first] == 43 {
        first = first + 1;
    }
    let ghost d = b@.subrange(first as int, end as int);
    assert(unsigned_digits(s) =~= d);
    if first == end {
        return None;
    }
    let mut acc: u64 = 0;
    let mut j = first;
    assert(d.take(0) =~= Seq::<u8>::empty());
    while j < end
        invariant
            start <= first <= j <= end <= b.len(),
            d == b@.subrange(first as int, end as int),
            unsigned_digits(b@.subrange(start as int, end as int)) == d,
            2 <= radix <= 36,
            acc == digits_value(d.take(j - first), radix as nat),
            forall|q: int| 0 <= q < j - first ==> #[trigger] digit_value(d[q]) < radix,
        decreases end - j,
    {
        let v = digit_of(b[j]);
        if v >= radix {
            assert(digit_value(d[j - first]) >= radix);
            return None;
        }
        let ghost next = d.take(j - first + 1);
        assert(next.drop_last() =~= d.take(j - first));
        match acc.checked_mul(radix) {
            Some(m) => match m.checked_add(v) {
                Some(x) => {
                    acc = x;
                },
                None => {
                    proof {
                        lemma_prefix_value_le(d, j - first + 1, radix as nat);
                    }
                    return None;
                },
            },
            None => {
                proof {
                    lemma_prefix_value_le(d, j - first + 1, radix as nat);
                }
                return None;
            },
        }
        j = j + 1;
    }
    assert(d.take(end - first) =~= d);
    Some(acc)
}

/// The strategy that `b[start..end]` names, as `strategy_of` states.
fn strategy_in(b: &[u8], start: usize, end: usize) -> (r: Option<Strategy>)
    requires
        start <= end <= b.len(),
    ensures
        r == strategy_of(b@.subrange(start as int, end as int)),
{
    let ghost s = b@.subrange(start as int, end as int);
    let len = end - start;
    if len == 3 && b[start] == 76 && b[start + 2] == 85 {
        if b[start + 1] == 82 {
            assert(s =~= seq![76u8, 82u8, 85u8]);
            return Some(Strategy::LRU);
        } else if b[start + 1] == 70 {
            assert(s =~= seq![76u8, 70u8, 85u8]);
            return Some(Strategy::LFU);
        }
    }
    if len == 5 && b[start] == 70 && b[start + 1] == 105 && b[start + 2] == 114 && b[start + 3]
        == 115 && b[start + 4] == 116 {
        assert(s =~= seq![70u8, 105u8, 114u8, 115u8, 116u8]);
        return Some(Strategy::First);
    }
    proof {
        let lru = seq![76u8, 82u8, 85u8];
        let lfu = seq![76u8, 70u8, 85u8];
        let first = seq![70u8, 105u8, 114u8, 115u8, 116u8];
        assert(s != lru) by {
            if s == lru {
                assert(s[0] == lru[0] && s[1] == lru[1] && s[2] == lru[2]);
            }
        }
        assert(s != lfu) by {
            if s == lfu {
                assert(s[0] == lfu[0] && s[1] == lfu[1] && s[2] == lfu[2]);
            }
        }
        assert(s != first) by {
            if s == first {
                assert(s.len() == 5);
                assert(b[start as int] == first[0]);
                assert(b[start + 1] == first[1]);
                assert(b[start + 2] == first[2]);
                assert(b[start + 3] == first[3]);
                assert(b[start + 4] == first[4]);
            }
        }
    }
    None
}

} // verus!

verus! {

/// Parameter `k` of the header, as `header_field` states.
fn header_value(b: &[u8], lines: &Vec<(usize, usize)>, k: usize) -> (r: Result<u64, ReadError>)
    requires
        forall|j: int| 0 <= j < lines.len() ==> (#[trigger] lines@[j]).0 <= lines@[j].1 <= b.len(),
        ranges_view(b@, lines@) == content_lines(b@),
    ensures
        r == header_field(content_lines(b@), k as int),
{
    if lines.len() <= k {
        return Err(ReadError::FileTooShort);
    }
    let (start, end) = lines[k];
    assert(content_lines(b@)[k as int] == b@.subrange(start as int, end as int));
    match parse_range(b, start, end, 10) {
        Some(v) => Ok(v),
        None => Err(ReadError::InvalidInteger),
    }
}

/// The read result with its address list as a sequence.
pub open spec fn read_view(r: Result<(CacheDesc, Vec<u64>), ReadError>) -> Result<
    (CacheDesc, Seq<u64>),
    ReadError,
> {
    match r {
        Ok((d, a)) => Ok((d, a@)),
        Err(e) => Err(e),
    }
}

/// Reads a trace from its text: the cache descriptor of its header and the
/// addresses that follow, as `parse_trace` states. The descriptor is not
/// checked here; see [`CacheDesc::is_valid`].
pub fn read(content: &str) -> (r: Result<(CacheDesc, Vec<u64>), ReadError>)
    ensures
        read_view(r) == parse_trace(content.spec_bytes()),
{
    let b = content.as_bytes();
    let lines = line_ranges(b);
    let ghost f = content_lines(b@);
    let addr_size = match header_value(b, &lines, 0) {
        Ok(v) => v,
        Err(e) => return Err(e),
    };
    let block_size = match header_value(b, &lines, 1) {
        Ok(v) => v,
        Err(e) => return Err(e),
    };
    let n_blocks = match header_value(b, &lines, 2) {
        Ok(v) => v,
        Err(e) => return Err(e),
    };
    let assoc = match header_value(b, &lines, 3) {
        Ok(v) => v,
        Err(e) => return Err(e),
    };
    if lines.len() <= 4 {
        return Err(ReadError::FileTooShort);
    }
    assert(f[4] == b@.subrange(lines@[4].0 as int, lines@[4].1 as int));
    let strat = match strategy_in(b, lines[4].0, lines[4].1) {
        Some(s) => s,
        None => return Err(ReadError::InvalidStrategy),
    };
    let mut addrs: Vec<u64> = Vec::new();
    let mut j: usize = 5;
    assert(f.subrange(5, 5) =~= Seq::<Seq<u8>>::empty());
    while j < lines.len()
        invariant
            5 <= j <= lines.len(),
            forall|q: int| 0 <= q < lines.len() ==> (#[trigger] lines@[q]).0 <= lines@[q].1 <= b.len(),
            f == content_lines(b@),
            ranges_view(b@, lines@) == f,
            addrs@ == hex_values(f.subrange(5, j as int)),
        decreases lines.len() - j,
    {
        let (start, end) = lines[j];
        assert(f.subrange(5, j + 1).drop_last() =~= f.subrange(5, j as int));
        assert(f[j as int] == b@.subrange(start as int, end as int));
        match parse_range(b, start, end, 16) {
            Some(v) => addrs.push(v),
            None => {},
        }
        j = j + 1;
    }
    assert(f.subrange(5, f.len() as int) =~= f.skip(5));
    Ok((CacheDesc { addr_size, block_size, n_blocks, assoc, strat }, addrs))
}

impl Strategy {
    /// The strategy named exactly `LRU`, `LFU` or `First`.
    pub fn from_str(s: &str) -> (r: Result<Strategy, ParseStrategyError>)
        ensures
            match r {
                Ok(st) => strategy_of(s.spec_bytes()) == Some(st),
                Err(_) => strategy_of(s.spec_bytes()) is None,
            },
    {
        let b = s.as_bytes();
        assert(b@.subrange(0, b@.len() as int) =~= b@);
        match strategy_in(b, 0, b.len()) {
            Some(st) => Ok(st),
            None => Err(ParseStrategyError),
        }
    }
}

} // verus!
