//! Kernel counter text: the memory statistics, given as keyed lines in
//! kilobytes, and the processor statistics, given as a summary line of tick
//! counters. Values are converted to bytes and to a usage percentage.

use crate::identity::{plain_identity, MetricIdentity};
use crate::sample::{sample_views, samples_wf, RawSample, SampleView};
use crate::text::{
    bytes_equal, bytes_of, lemma_lines_of_first, lines_of, next_line, parse_unsigned, run_len, scan, starts_with,
    single_line, unsigned_value, valid_name, ByteClass,
};
use vstd::prelude::*;
use vstd::slice::slice_subrange;
use vstd::string::is_ascii;
use vstd::string::StringSliceAdditionalSpecFns;

verus! {

/// The largest number of kilobytes whose count of bytes fits in a signed
/// 64-bit integer.
pub const MAX_KILOBYTES: u64 = 9007199254740991;

/// The key of the line that gives the total memory.
pub open spec fn mem_total_key() -> Seq<u8> {
    "MemTotal".spec_bytes()
}

/// The key of the line that gives the free memory.
pub open spec fn mem_free_key() -> Seq<u8> {
    "MemFree".spec_bytes()
}

/// The key of the line that gives the available memory.
pub open spec fn mem_available_key() -> Seq<u8> {
    "MemAvailable".spec_bytes()
}

/// The first field of the processor summary line.
pub open spec fn cpu_key() -> Seq<u8> {
    "cpu".spec_bytes()
}

/// The name of the gauge of total memory in bytes.
pub open spec fn memory_total_name() -> Seq<u8> {
    "memory_total_bytes".spec_bytes()
}

/// The name of the gauge of used memory in bytes.
pub open spec fn memory_used_name() -> Seq<u8> {
    "memory_used_bytes".spec_bytes()
}

/// The name of the gauge of free memory in bytes.
pub open spec fn memory_free_name() -> Seq<u8> {
    "memory_free_bytes".spec_bytes()
}

/// The name of the gauge of processor usage in percent.
pub open spec fn cpu_usage_name() -> Seq<u8> {
    "cpu_usage_percent".spec_bytes()
}

/// The names of the kernel metrics are well-formed metric names.
pub proof fn lemma_kernel_names_valid()
    ensures
        valid_name(memory_total_name()),
        valid_name(memory_used_name()),
        valid_name(memory_free_name()),
        valid_name(cpu_usage_name()),
{
    reveal_strlit("memory_total_bytes");
    reveal_strlit("memory_used_bytes");
    reveal_strlit("memory_free_bytes");
    reveal_strlit("cpu_usage_percent");
    assert(is_ascii("memory_total_bytes"));
    assert(is_ascii("memory_used_bytes"));
    assert(is_ascii("memory_free_bytes"));
    assert(is_ascii("cpu_usage_percent"));
}

/// A line of blanks only.
pub open spec fn is_blank_line(line: Seq<u8>) -> bool {
    run_len(line, ByteClass::Blank) == line.len()
}

/// The number that a line gives for `key`: the line is the key, a colon,
/// at least one blank and an unsigned number; whatever follows the number
/// after a blank, such as a unit, is not read.
pub open spec fn keyed_number(line: Seq<u8>, key: Seq<u8>) -> Option<u64> {
    let k = key.len() as int;
    if line.len() > k && line.take(k) == key && line[k] == 58 {
        let after = line.skip(k + 1);
        let gap = run_len(after, ByteClass::Blank);
        let token = after.skip(gap as int).take(
            run_len(after.skip(gap as int), ByteClass::Graphic) as int,
        );
        if gap > 0 {
            unsigned_value(token)
        } else {
            None
        }
    } else {
        None
    }
}

/// The number of kilobytes that a line gives for `key`, where its count of
/// bytes fits.
pub open spec fn kilobytes_of(line: Seq<u8>, key: Seq<u8>) -> Option<u64> {
    match keyed_number(line, key) {
        Some(v) if v <= MAX_KILOBYTES => Some(v),
        _ => None,
    }
}

/// The number of kilobytes that the last line for `key` gives; zero where
/// no line gives one.
pub open spec fn last_kilobytes(lines: Seq<Seq<u8>>, key: Seq<u8>) -> u64
    decreases lines.len(),
{
    if lines.len() == 0 {
        0
    } else {
        match kilobytes_of(lines.last(), key) {
            Some(v) => v,
            None => last_kilobytes(lines.drop_last(), key),
        }
    }
}

/// A line that gives one of the three memory counters.
pub open spec fn is_memory_line(line: Seq<u8>) -> bool {
    kilobytes_of(line, mem_total_key()).is_some() || kilobytes_of(line, mem_free_key()).is_some()
        || kilobytes_of(line, mem_available_key()).is_some()
}

/// The number of lines of memory statistics that are skipped: those that
/// are not blank and give none of the three counters.
pub open spec fn memory_skipped(lines: Seq<Seq<u8>>) -> nat {
    lines.filter(|l: Seq<u8>| !is_blank_line(l) && !is_memory_line(l)).len()
}

/// The memory counters of one reading, in kilobytes.
#[derive(Clone, Copy, Debug, PartialEq, Eq, Structural)]
pub struct MemoryCounters {
    total_kb: u64,
    free_kb: u64,
    available_kb: u64,
}

impl MemoryCounters {
    /// The invariant of the counters: each has a count of bytes that fits.
    pub closed spec fn wf(self) -> bool {
        self.total_kb <= MAX_KILOBYTES && self.free_kb <= MAX_KILOBYTES && self.available_kb
            <= MAX_KILOBYTES
    }

    /// The total memory in kilobytes.
    pub closed spec fn total(self) -> u64 {
        self.total_kb
    }

    /// The free memory in kilobytes.
    pub closed spec fn free(self) -> u64 {
        self.free_kb
    }

    /// The available memory in kilobytes.
    pub closed spec fn available(self) -> u64 {
        self.available_kb
    }

    /// The total memory in kilobytes.
    pub fn total_kb(&self) -> (r: u64)
        ensures
            r == self.total(),
    {
        self.total_kb
    }

    /// The free memory in kilobytes.
    pub fn free_kb(&self) -> (r: u64)
        ensures
            r == self.free(),
    {
        self.free_kb
    }

    /// The available memory in kilobytes.
    pub fn available_kb(&self) -> (r: u64)
        ensures
            r == self.available(),
    {
        self.available_kb
    }
}

/// What reading the memory statistics gives: the counters and the number
/// of lines skipped.
#[derive(Debug)]
pub struct MemoryReading {
    pub counters: MemoryCounters,
    pub skipped: usize,
}

/// The samples derived from memory counters in kilobytes: total, used
/// (total minus available) and free (what is available), each in bytes.
pub open spec fn memory_sample_views(total_kb: int, available_kb: int) -> Seq<SampleView> {
    seq![
        SampleView { identity: plain_identity(memory_total_name()), value: total_kb * 1024 },
        SampleView {
            identity: plain_identity(memory_used_name()),
            value: (total_kb - available_kb) * 1024,
        },
        SampleView { identity: plain_identity(memory_free_name()), value: available_kb * 1024 },
    ]
}

/// The samples that a text of memory statistics gives.
pub open spec fn meminfo_samples(raw: Seq<u8>) -> Seq<SampleView> {
    memory_sample_views(
        last_kilobytes(lines_of(raw), mem_total_key()) as int,
        last_kilobytes(lines_of(raw), mem_available_key()) as int,
    )
}

/// Reads the kilobytes that a line gives for `key`.
fn read_kilobytes(line: &[u8], key: &[u8]) -> (r: Option<u64>)
    ensures
        r == kilobytes_of(line@, key@),
{
    let k = key.len();
    if line.len() <= k || !starts_with(line, key) || line[k] != 58 {
        return None;
    }
    let gap = scan(line, k + 1, ByteClass::Blank);
    let g = k + 1 + gap;
    let width = scan(line, g, ByteClass::Graphic);
    let token = slice_subrange(line, g, g + width);
    proof {
        let after = line@.skip(k + 1);
        assert(after.skip(gap as int) =~= line@.skip(g as int));
        assert(token@ =~= after.skip(gap as int).take(width as int));
    }
    if gap == 0 {
        return None;
    }
    match parse_unsigned(token) {
        Some(v) => if v <= MAX_KILOBYTES {
            Some(v)
        } else {
            None
        },
        None => None,
    }
}

/// Whether a line holds blanks only.
fn line_is_blank(line: &[u8]) -> (r: bool)
    ensures
        r == is_blank_line(line@),
{
    assert(line@.skip(0) =~= line@);
    scan(line, 0, ByteClass::Blank) == line.len()
}

/// Reads memory statistics: for each of the keys `MemTotal`, `MemFree`
/// and `MemAvailable` the kilobytes of the last line that gives them, zero
/// where none does. Every other line that is not blank is skipped and
/// counted.
pub fn parse_meminfo(raw: &[u8]) -> (r: MemoryReading)
    ensures
        r.counters.wf(),
        r.counters.total() == last_kilobytes(lines_of(raw@), mem_total_key()),
        r.counters.free() == last_kilobytes(lines_of(raw@), mem_free_key()),
        r.counters.available() == last_kilobytes(lines_of(raw@), mem_available_key()),
        r.skipped == memory_skipped(lines_of(raw@)),
{
    let total_key = bytes_of("MemTotal");
    let free_key = bytes_of("MemFree");
    let available_key = bytes_of("MemAvailable");
    let mut total: u64 = 0;
    let mut free: u64 = 0;
    let mut available: u64 = 0;
    let mut skipped: usize = 0;
    let mut i: usize = 0;
    let ghost mut done: Seq<Seq<u8>> = Seq::empty();
    proof {
        assert(raw@.skip(0) =~= raw@);
        assert(done + lines_of(raw@) =~= lines_of(raw@));
        reveal(Seq::filter);
    }
    while i < raw.len()
        invariant
            i <= raw.len(),
            done.len() <= i,
            total_key@ == mem_total_key(),
            free_key@ == mem_free_key(),
            available_key@ == mem_available_key(),
            lines_of(raw@) == done + lines_of(raw@.skip(i as int)),
            total == last_kilobytes(done, mem_total_key()),
            free == last_kilobytes(done, mem_free_key()),
            available == last_kilobytes(done, mem_available_key()),
            total <= MAX_KILOBYTES,
            free <= MAX_KILOBYTES,
            available <= MAX_KILOBYTES,
            skipped == memory_skipped(done),
        decreases raw.len() - i,
    {
        let (end, next) = next_line(raw, i);
        let line = slice_subrange(raw, i, end);
        let ghost before = done;
        proof {
            done = done.push(line@);
            assert(done.drop_last() =~= before);
            assert(before + (seq![line@] + lines_of(raw@.skip(next as int))) =~= done + lines_of(
                raw@.skip(next as int),
            ));
            reveal(Seq::filter);
        }
        let t = read_kilobytes(line, total_key.as_slice());
        let f = read_kilobytes(line, free_key.as_slice());
        let a = read_kilobytes(line, available_key.as_slice());
        if let Some(v) = t {
            total = v;
        }
        if let Some(v) = f {
            free = v;
        }
        if let Some(v) = a {
            available = v;
        }
        if t.is_none() && f.is_none() && a.is_none() && !line_is_blank(line) {
            skipped += 1;
        }
        i = next;
    }
    proof {
        assert(lines_of(raw@.skip(raw.len() as int)) =~= Seq::<Seq<u8>>::empty());
        assert(done + Seq::<Seq<u8>>::empty() =~= done);
    }
    MemoryReading {
        counters: MemoryCounters { total_kb: total, free_kb: free, available_kb: available },
        skipped,
    }
}

/// A sample of the label-free metric `name`.
fn plain_sample(name: &str, value: i64) -> (r: RawSample)
    requires
        valid_name(name.spec_bytes()),
    ensures
        r.wf(),
        r@ == (SampleView { identity: plain_identity(name.spec_bytes()), value: value as int }),
{
    let identity = MetricIdentity::named(name).unwrap();
    RawSample::new(identity, value)
}

/// The samples derived from memory counters.
pub fn memory_samples(counters: &MemoryCounters) -> (r: Vec<RawSample>)
    requires
        counters.wf(),
    ensures
        sample_views(r@) == memory_sample_views(
            counters.total() as int,
            counters.available() as int,
        ),
        samples_wf(r@),
{
    proof {
        lemma_kernel_names_valid();
    }
    let total: i64 = counters.total_kb as i64;
    let available: i64 = counters.available_kb as i64;
    let mut r: Vec<RawSample> = Vec::new();
    r.push(plain_sample("memory_total_bytes", total * 1024));
    r.push(plain_sample("memory_used_bytes", (total - available) * 1024));
    r.push(plain_sample("memory_free_bytes", available * 1024));
    assert(sample_views(r@) =~= memory_sample_views(
        counters.total() as int,
        counters.available() as int,
    ));
    r
}

/// The tick counters of the processor summary line.
#[derive(Clone, Copy, Debug, PartialEq, Eq, Structural)]
pub struct CpuTicks {
    pub idle: u64,
    pub total: u64,
}

/// The fields of a line: its stretches of bytes that are not blank.
pub open spec fn fields_of(s: Seq<u8>) -> Seq<Seq<u8>>
    decreases s.len(),
{
    let gap = run_len(s, ByteClass::Blank);
    let rest = s.skip(gap as int);
    let width = run_len(rest, ByteClass::Graphic);
    if width == 0 || gap + width > s.len() {
        Seq::empty()
    } else {
        seq![rest.take(width as int)] + fields_of(rest.skip(width as int))
    }
}

/// The sum of the numbers that the fields denote; `None` where a field is
/// not an unsigned number or the sum does not fit in 64 bits.
pub open spec fn field_sum(fields: Seq<Seq<u8>>) -> Option<u64>
    decreases fields.len(),
{
    if fields.len() == 0 {
        Some(0)
    } else {
        match (field_sum(fields.drop_last()), unsigned_value(fields.last())) {
            (Some(s), Some(v)) if s + v <= u64::MAX => Some((s + v) as u64),
            _ => None,
        }
    }
}

/// The tick counters that a line gives: its first field is `cpu`, at
/// least four numbers follow, the fourth of them is the idle count and the
/// sum of all of them the total.
pub open spec fn ticks_of_line(line: Seq<u8>) -> Option<CpuTicks> {
    let fields = fields_of(line);
    if fields.len() >= 5 && fields[0] == cpu_key() {
        match field_sum(fields.skip(1)) {
            Some(total) => Some(CpuTicks { idle: unsigned_value(fields[4]).unwrap(), total }),
            None => None,
        }
    } else {
        None
    }
}

/// The tick counters of the first line that gives any: the summary line
/// stands first, and lines before it that give none are passed over.
pub open spec fn first_ticks(lines: Seq<Seq<u8>>) -> Option<CpuTicks>
    decreases lines.len(),
{
    if lines.len() == 0 {
        None
    } else {
        match first_ticks(lines.drop_last()) {
            Some(t) => Some(t),
            None => ticks_of_line(lines.last()),
        }
    }
}

/// The number of lines of processor statistics that are skipped: those
/// that are not blank and give no tick counters.
pub open spec fn cpu_skipped(lines: Seq<Seq<u8>>) -> nat {
    lines.filter(|l: Seq<u8>| !is_blank_line(l) && ticks_of_line(l).is_none()).len()
}

/// The processor usage between two readings in percent, rounded down: the
/// share of the ticks since the previous reading that were not idle.
/// `None` where no tick has passed or a counter has gone backwards.
pub open spec fn usage_percent(previous: CpuTicks, current: CpuTicks) -> Option<int> {
    let ticks = current.total - previous.total;
    let idle = current.idle - previous.idle;
    if ticks > 0 && 0 <= idle <= ticks {
        Some(100 * (ticks - idle) / ticks)
    } else {
        None
    }
}

/// The samples derived from tick counters: the usage since the previous
/// reading, where there is one to state, and nothing else.
pub open spec fn cpu_sample_views(previous: CpuTicks, current: CpuTicks) -> Seq<SampleView> {
    match usage_percent(previous, current) {
        Some(p) => seq![SampleView { identity: plain_identity(cpu_usage_name()), value: p }],
        None => Seq::empty(),
    }
}

/// The samples that a text of processor statistics gives, relative to the
/// tick counters of the previous reading.
pub open spec fn cpu_stat_samples(raw: Seq<u8>, previous: CpuTicks) -> Seq<SampleView> {
    match first_ticks(lines_of(raw)) {
        Some(current) => cpu_sample_views(previous, current),
        None => Seq::empty(),
    }
}

/// The tick counters to remember after a text of processor statistics:
/// those that the text gives, or the previous ones where it gives none.
pub open spec fn remembered_ticks(previous: CpuTicks, raw: Seq<u8>) -> CpuTicks {
    match first_ticks(lines_of(raw)) {
        Some(current) => current,
        None => previous,
    }
}

/// What reading the processor statistics gives: the tick counters, if a
/// line gave any, and the number of lines skipped.
#[derive(Debug)]
pub struct CpuReading {
    pub ticks: Option<CpuTicks>,
    pub skipped: usize,
}

/// Where the fields have a sum, each of them is a number no greater than
/// the sum.
proof fn lemma_field_sum_bound(fields: Seq<Seq<u8>>, i: int)
    requires
        0 <= i < fields.len(),
        field_sum(fields).is_some(),
    ensures
        unsigned_value(fields[i]).is_some(),
        unsigned_value(fields[i]).unwrap() <= field_sum(fields).unwrap(),
    decreases fields.len(),
{
    if i < fields.len() - 1 {
        lemma_field_sum_bound(fields.drop_last(), i);
    }
}

/// Reads the tick counters that a line gives.
fn read_ticks(line: &[u8]) -> (r: Option<CpuTicks>)
    ensures
        r == ticks_of_line(line@),
        r.is_some() ==> r.unwrap().idle <= r.unwrap().total,
{
    let key = bytes_of("cpu");
    let mut i: usize = 0;
    let mut count: usize = 0;
    let mut total: u64 = 0;
    let mut idle: u64 = 0;
    let mut ok: bool = true;
    let ghost mut done: Seq<Seq<u8>> = Seq::empty();
    proof {
        assert(line@.skip(0) =~= line@);
        assert(done + fields_of(line@) =~= fields_of(line@));
    }
    loop
        invariant
            i <= line.len(),
            count == done.len(),
            count <= i,
            key@ == cpu_key(),
            fields_of(line@) == done + fields_of(line@.skip(i as int)),
            ok && count > 0 ==> done[0] == cpu_key() && field_sum(done.skip(1)) == Some(total),
            ok && count > 4 ==> unsigned_value(done[4]) == Some(idle),
            !ok ==> count > 0 && (done[0] != cpu_key() || field_sum(done.skip(1)).is_none()),
            count == 0 ==> total == 0 && ok,
        decreases line.len() - i,
    {
        let ghost s = line@.skip(i as int);
        let gap = scan(line, i, ByteClass::Blank);
        let g = i + gap;
        let width = scan(line, g, ByteClass::Graphic);
        assert(s.skip(gap as int) =~= line@.skip(g as int));
        if width == 0 {
            proof {
                assert(fields_of(s) =~= Seq::<Seq<u8>>::empty());
                assert(done + Seq::<Seq<u8>>::empty() =~= done);
                if ok && count >= 5 {
                    lemma_field_sum_bound(done.skip(1), 3);
                }
            }
            if ok && count >= 5 {
                return Some(CpuTicks { idle, total });
            } else {
                return None;
            }
        }
        let token = slice_subrange(line, g, g + width);
        let ghost before = done;
        proof {
            assert(token@ =~= s.skip(gap as int).take(width as int));
            assert(s.skip(gap as int).skip(width as int) =~= line@.skip(g + width));
            done = done.push(token@);
            assert(before + (seq![token@] + fields_of(line@.skip(g + width))) =~= done
                + fields_of(line@.skip(g + width)));
            if count > 0 {
                assert(done.skip(1).drop_last() =~= before.skip(1));
                assert(done.skip(1).last() == token@);
            } else {
                assert(done.skip(1) =~= Seq::<Seq<u8>>::empty());
            }
        }
        if count == 0 {
            ok = bytes_equal(token, key.as_slice());
        } else if ok {
            match parse_unsigned(token) {
                Some(v) => {
                    if v > u64::MAX - total {
                        ok = false;
                    } else {
                        total = total + v;
                        if count == 4 {
                            idle = v;
                        }
                    }
                },
                None => {
                    ok = false;
                },
            }
        }
        count += 1;
        i = g + width;
    }
}

/// Reads processor statistics: the tick counters of the summary line,
/// which is the first line that gives any. What follows that line does not
/// change them. Every line that gives none and is not blank is skipped and
/// counted.
pub fn parse_cpu_stat(raw: &[u8]) -> (r: CpuReading)
    ensures
        r.ticks == first_ticks(lines_of(raw@)),
        r.ticks.is_some() ==> r.ticks.unwrap().idle <= r.ticks.unwrap().total,
        r.skipped == cpu_skipped(lines_of(raw@)),
{
    let mut ticks: Option<CpuTicks> = None;
    let mut skipped: usize = 0;
    let mut i: usize = 0;
    let ghost mut done: Seq<Seq<u8>> = Seq::empty();
    proof {
        assert(raw@.skip(0) =~= raw@);
        assert(done + lines_of(raw@) =~= lines_of(raw@));
        reveal(Seq::filter);
    }
    while i < raw.len()
        invariant
            i <= raw.len(),
            done.len() <= i,
            lines_of(raw@) == done + lines_of(raw@.skip(i as int)),
            ticks == first_ticks(done),
            ticks.is_some() ==> ticks.unwrap().idle <= ticks.unwrap().total,
            skipped == cpu_skipped(done),
        decreases raw.len() - i,
    {
        let (end, next) = next_line(raw, i);
        let line = slice_subrange(raw, i, end);
        let ghost before = done;
        proof {
            done = done.push(line@);
            assert(done.drop_last() =~= before);
            assert(before + (seq![line@] + lines_of(raw@.skip(next as int))) =~= done + lines_of(
                raw@.skip(next as int),
            ));
            reveal(Seq::filter);
        }
        match read_ticks(line) {
            Some(t) => {
                if ticks.is_none() {
                    ticks = Some(t);
                }
            },
            None => {
                if !line_is_blank(line) {
                    skipped += 1;
                }
            },
        }
        i = next;
    }
    proof {
        assert(lines_of(raw@.skip(raw.len() as int)) =~= Seq::<Seq<u8>>::empty());
        assert(done + Seq::<Seq<u8>>::empty() =~= done);
    }
    CpuReading { ticks, skipped }
}

/// The processor usage between two readings in percent.
pub fn cpu_usage(previous: &CpuTicks, current: &CpuTicks) -> (r: Option<u64>)
    ensures
        match r {
            Some(p) => usage_percent(*previous, *current) == Some(p as int) && p <= 100,
            None => usage_percent(*previous, *current).is_none(),
        },
{
    if current.total <= previous.total || current.idle < previous.idle {
        return None;
    }
    let ticks: u64 = current.total - previous.total;
    let idle: u64 = current.idle - previous.idle;
    if idle > ticks {
        return None;
    }
    let busy: u128 = (ticks - idle) as u128;
    let share: u128 = 100 * busy / (ticks as u128);
    assert(share <= 100) by (nonlinear_arith)
        requires
            share == (100 * busy) / (ticks as int),
            busy <= ticks,
            ticks > 0,
    ;
    Some(share as u64)
}

/// The samples derived from tick counters.
pub fn cpu_samples(previous: &CpuTicks, current: &CpuTicks) -> (r: Vec<RawSample>)
    ensures
        sample_views(r@) == cpu_sample_views(*previous, *current),
        samples_wf(r@),
{
    proof {
        lemma_kernel_names_valid();
    }
    let mut r: Vec<RawSample> = Vec::new();
    match cpu_usage(previous, current) {
        Some(p) => {
            r.push(plain_sample("cpu_usage_percent", p as i64));
        },
        None => {},
    }
    assert(sample_views(r@) =~= cpu_sample_views(*previous, *current));
    r
}

/// Of some lines, the first that gives tick counters decides, whatever
/// lines follow it.
pub proof fn lemma_first_ticks_front(first: Seq<u8>, rest: Seq<Seq<u8>>)
    requires
        ticks_of_line(first).is_some(),
    ensures
        first_ticks(seq![first] + rest) == ticks_of_line(first),
    decreases rest.len(),
{
    let lines = seq![first] + rest;
    if rest.len() == 0 {
        assert(lines.drop_last() =~= Seq::<Seq<u8>>::empty());
        assert(lines.last() == first);
        assert(first_ticks(lines.drop_last()).is_none());
    } else {
        lemma_first_ticks_front(first, rest.drop_last());
        assert(lines.drop_last() =~= seq![first] + rest.drop_last());
    }
}

/// Only the summary line is read: a text whose first line gives tick
/// counters gives the samples of that line, and those counters are what is
/// remembered, whatever the text holds after the line.
pub proof fn lemma_summary_line_decides(first: Seq<u8>, rest: Seq<u8>, previous: CpuTicks)
    requires
        single_line(first),
        ticks_of_line(first).is_some(),
    ensures
        cpu_stat_samples(first + seq![10u8] + rest, previous) == cpu_sample_views(
            previous,
            ticks_of_line(first).unwrap(),
        ),
        remembered_ticks(previous, first + seq![10u8] + rest) == ticks_of_line(first).unwrap(),
{
    lemma_lines_of_first(first, rest);
    lemma_first_ticks_front(first, lines_of(rest));
}

/// The usage that is published lies between 0 and 100; it is 0 where
/// every tick since the previous reading was idle and 100 where none was.
pub proof fn lemma_usage_range(previous: CpuTicks, current: CpuTicks)
    requires
        usage_percent(previous, current).is_some(),
    ensures
        0 <= usage_percent(previous, current).unwrap() <= 100,
        current.idle - previous.idle == current.total - previous.total ==> usage_percent(
            previous,
            current,
        ).unwrap() == 0,
        current.idle == previous.idle ==> usage_percent(previous, current).unwrap() == 100,
{
    let ticks = current.total - previous.total;
    let busy = ticks - (current.idle - previous.idle);
    assert(0 <= (100 * busy) / ticks <= 100) by (nonlinear_arith)
        requires
            0 <= busy <= ticks,
            ticks > 0,
    ;
    assert((100 * ticks) / ticks == 100) by (nonlinear_arith)
        requires
            ticks > 0,
    ;
    assert(busy == 0 ==> (100 * busy) / ticks == 0) by (nonlinear_arith)
        requires
            ticks > 0,
    ;
}

/// The tick counters that a line gives are in order: the idle count is
/// part of the total and never exceeds it.
pub proof fn lemma_ticks_in_order(line: Seq<u8>)
    requires
        ticks_of_line(line).is_some(),
    ensures
        ticks_of_line(line).unwrap().idle <= ticks_of_line(line).unwrap().total,
{
    let fields = fields_of(line);
    lemma_field_sum_bound(fields.skip(1), 3);
}

/// The first reading publishes a usage wherever a tick has been counted:
/// with no earlier reading, tick counters in order and a total above zero
/// give a usage between 0 and 100, which is 0 where the idle count is the
/// total and 100 where the idle count is zero.
pub proof fn lemma_first_usage(current: CpuTicks)
    requires
        current.idle <= current.total,
        current.total > 0,
    ensures
        usage_percent(CpuTicks { idle: 0, total: 0 }, current).is_some(),
        0 <= usage_percent(CpuTicks { idle: 0, total: 0 }, current).unwrap() <= 100,
        current.idle == current.total ==> usage_percent(
            CpuTicks { idle: 0, total: 0 },
            current,
        ).unwrap() == 0,
        current.idle == 0 ==> usage_percent(CpuTicks { idle: 0, total: 0 }, current).unwrap()
            == 100,
{
    lemma_usage_range(CpuTicks { idle: 0, total: 0 }, current);
}

} // verus!
