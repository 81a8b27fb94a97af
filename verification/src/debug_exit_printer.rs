//! The report that is printed when a program ends.

use crate::big_allocations::report::BuddyBackendReport;
use crate::frontend::global_alloc2::debug;
use crate::frontend::global_alloc2::debug::bytes_of_order;
use crate::frontend::global_alloc2::debug::buddy_totals;
use crate::frontend::global_alloc2::debug::summarize_class;
use crate::frontend::global_alloc2::debug::summarize_cpus;
use crate::frontend::global_alloc2::debug::Counters;
use crate::frontend::global_alloc2::debug::LockCounters;
use crate::frontend::global_alloc2::debug::RadixReport;
use crate::frontend::global_alloc2::debug::TrimCounters;
use crate::internals::l3_main_radix::CHUNK_SIZE;
use crate::internals::numa_parser::NumaCpuRange;
use crate::text;
use vstd::prelude::*;
use vstd::string::*;

verus! {

/// How often the transfer cache was called.
#[derive(Clone, Copy, Debug, PartialEq, Eq, Structural)]
pub struct TransferCalls {
    pub pops: usize,
    pub pushes: usize,
}

/// What the transfer cache counted.
#[derive(Clone, Copy, Debug, PartialEq, Eq, Structural)]
pub struct TransferCounters {
    pub calls: Option<TransferCalls>,
    pub steals: usize,
    pub dry_steals: usize,
    pub retries: usize,
}

/// What a report is made from. Shares and averages with decimal places come as text.
pub struct ReportInput {
    pub counters: Counters,
    /// The current time stamp.
    pub stamp: u32,
    pub node_ids: Vec<u16>,
    pub cpu_ranges: Vec<NumaCpuRange>,
    /// Bytes that each processor holds.
    pub cpu_bytes: Vec<usize>,
    /// Bytes of the payloads of each size class.
    pub class_sizes: Vec<usize>,
    /// Refills of each size class.
    pub class_refills: Vec<usize>,
    /// Bytes that each processor holds of each size class.
    pub class_bytes: Vec<Vec<usize>>,
    /// The hints of each size class.
    pub class_hints: Vec<String>,
    /// What is only counted at a cost.
    pub locks: Option<LockCounters>,
    pub transfer: Option<TransferCounters>,
    pub trims: Option<TrimCounters>,
    /// Average times that small and large blocks stay free.
    pub average_small: u32,
    pub average_buddy: u32,
    pub radix: RadixReport,
    /// Mispredicted refills among all, in percent.
    pub miss_percent: String,
    /// Used and free bytes of the buddy allocator, in percent.
    pub used_percent: String,
    pub free_percent: String,
    pub metadata_per_chunk: String,
}

/// There is something to say about each size class.
pub open spec fn well_shaped(s: &ReportInput) -> bool {
    &&& s.class_refills@.len() == s.class_sizes@.len()
    &&& s.class_bytes@.len() == s.class_sizes@.len()
    &&& s.class_hints@.len() == s.class_sizes@.len()
}

/// A number in decimal.
pub open spec fn decimal(n: int) -> Seq<char> {
    text::decimal(n)
}

/// Text with a line added.
pub open spec fn with_line(t: Seq<char>, text: Seq<char>) -> Seq<char> {
    t + text + "\n"@
}

/// Text with the heading of a section added.
pub open spec fn with_section(t: Seq<char>, name: Seq<char>) -> Seq<char> {
    with_line(with_line(t + "\n"@, name), "-"@)
}

/// Text with an item added: a name in a column of its own, and a value.
pub open spec fn with_item(t: Seq<char>, name: Seq<char>, value: Seq<char>) -> Seq<char> {
    with_line(t, "  "@ + text::pad_right(name, 18) + " "@ + value)
}

fn line(report: &mut String, text: &str)
    ensures
        final(report)@ == with_line(old(report)@, text@),
{
    report.append(text);
    report.append("\n");
}

fn section(report: &mut String, name: &str)
    ensures
        final(report)@ == with_section(old(report)@, name@),
{
    report.append("\n");
    line(report, name);
    line(report, "-");
}

fn item(report: &mut String, name: &str, value: &str)
    ensures
        final(report)@ == with_item(old(report)@, name@, value@),
{
    let ghost before = report@;
    report.append("  ");
    text::append_left(report, name, 18);
    report.append(" ");
    report.append(value);
    report.append("\n");
    assert(report@ =~= with_item(before, name@, value@));
}

fn byte_item(report: &mut String, name: &str, bytes: usize)
    ensures
        final(report)@ == with_item(old(report)@, name@, text::bytes_text(bytes as int)),
{
    item(report, name, text::fmt_bytes(bytes).as_str());
}

/// Refills that were not predicted well.
pub open spec fn misses_of(s: &ReportInput) -> int {
    debug::capped(s.counters.refill_under_predicts + s.counters.refill_over_predicts)
}

/// Cycles that giving the pages of one block back took on average.
pub open spec fn cycles_per_block(x: TrimCounters) -> int {
    if x.blocks == 0 {
        x.cycles as int
    } else {
        x.cycles as int / x.blocks as int
    }
}

fn average_cycles(x: TrimCounters) -> (r: usize)
    ensures
        r == cycles_per_block(x),
{
    if x.blocks == 0 {
        x.cycles
    } else {
        x.cycles / x.blocks
    }
}

/// The first `hi` memory nodes in a report.
pub open spec fn with_nodes(t: Seq<char>, ids: Seq<u16>, hi: int) -> Seq<char>
    decreases hi,
{
    if hi <= 0 {
        t
    } else {
        with_item(
            with_nodes(t, ids, hi - 1),
            "node "@ + decimal(hi - 1),
            decimal(ids[hi - 1] as int),
        )
    }
}

fn put_nodes(t: &mut String, ids: &Vec<u16>)
    ensures
        final(t)@ == with_nodes(old(t)@, ids@, ids@.len() as int),
{
    let ghost before = t@;
    let mut i: usize = 0;
    while i < ids.len()
        invariant
            i <= ids@.len(),
            t@ == with_nodes(before, ids@, i as int),
        decreases ids@.len() - i,
    {
        let name = text::joined("node ", text::number(i as u64).as_str());
        item(t, name.as_str(), text::number(ids[i] as u64).as_str());
        i = i + 1;
    }
}

/// A range of processors as text.
pub open spec fn range_text(r: NumaCpuRange) -> Seq<char> {
    "node "@ + decimal(r.node_id as int) + ", cpus "@ + decimal(r.start_cpu as int) + "-"@
        + decimal(r.end_cpu as int)
}

/// The first `hi` ranges of processors in a report.
pub open spec fn with_ranges(t: Seq<char>, ranges: Seq<NumaCpuRange>, hi: int) -> Seq<char>
    decreases hi,
{
    if hi <= 0 {
        t
    } else {
        with_item(
            with_ranges(t, ranges, hi - 1),
            "range "@ + decimal(hi - 1),
            range_text(ranges[hi - 1]),
        )
    }
}

fn put_ranges(t: &mut String, ranges: &Vec<NumaCpuRange>)
    ensures
        final(t)@ == with_ranges(old(t)@, ranges@, ranges@.len() as int),
{
    let ghost before = t@;
    let mut i: usize = 0;
    while i < ranges.len()
        invariant
            i <= ranges@.len(),
            t@ == with_ranges(before, ranges@, i as int),
        decreases ranges@.len() - i,
    {
        let name = text::joined("range ", text::number(i as u64).as_str());
        let mut value = text::joined("node ", text::number(ranges[i].node_id as u64).as_str());
        value.append(", cpus ");
        text::append_decimal(&mut value, ranges[i].start_cpu as u64);
        value.append("-");
        text::append_decimal(&mut value, ranges[i].end_cpu as u64);
        item(t, name.as_str(), value.as_str());
        i = i + 1;
    }
}

/// What the first `hi` processors hold in a report.
pub open spec fn with_each_cpu(t: Seq<char>, bytes: Seq<usize>, hi: int) -> Seq<char>
    decreases hi,
{
    if hi <= 0 {
        t
    } else {
        with_item(
            with_each_cpu(t, bytes, hi - 1),
            "cpu "@ + decimal(hi - 1),
            text::bytes_text(bytes[hi - 1] as int),
        )
    }
}

fn put_each_cpu(t: &mut String, bytes: &Vec<usize>)
    ensures
        final(t)@ == with_each_cpu(old(t)@, bytes@, bytes@.len() as int),
{
    let ghost before = t@;
    let mut i: usize = 0;
    while i < bytes.len()
        invariant
            i <= bytes@.len(),
            t@ == with_each_cpu(before, bytes@, i as int),
        decreases bytes@.len() - i,
    {
        let name = text::joined("cpu ", text::number(i as u64).as_str());
        byte_item(t, name.as_str(), bytes[i]);
        i = i + 1;
    }
}

/// The row of a size class.
pub open spec fn class_row(s: &ReportInput, c: int) -> Seq<char> {
    let u = debug::class_usage(s.class_bytes@[c]@);
    "  "@ + text::pad_left(decimal(c), 3) + "  "@ + text::pad_right(
        text::short_bytes_text(s.class_sizes@[c] as int),
        9,
    ) + " "@ + text::pad_left(decimal(s.class_refills@[c] as int), 7) + "  "@ + text::pad_right(
        text::short_bytes_text(u.cached as int),
        10,
    ) + " "@ + text::pad_left(decimal(u.active as int), 3) + "/"@ + text::pad_right(
        decimal(s.cpu_bytes@.len() as int),
        3,
    ) + "  "@ + text::pad_right(text::short_bytes_text(u.min as int), 9) + "  "@
        + text::pad_right(text::short_bytes_text(u.max as int), 9) + "  "@
        + text::short_bytes_text(u.avg as int)
}

/// The first `hi` size classes in a report.
pub open spec fn with_each_class(t: Seq<char>, s: &ReportInput, hi: int) -> Seq<char>
    decreases hi,
{
    if hi <= 0 {
        t
    } else {
        with_line(with_each_class(t, s, hi - 1), class_row(s, hi - 1))
    }
}

fn put_each_class(t: &mut String, s: &ReportInput)
    requires
        well_shaped(s),
    ensures
        final(t)@ == with_each_class(old(t)@, s, s.class_sizes@.len() as int),
{
    let ghost before = t@;
    let mut i: usize = 0;
    while i < s.class_sizes.len()
        invariant
            well_shaped(s),
            i <= s.class_sizes@.len(),
            t@ == with_each_class(before, s, i as int),
        decreases s.class_sizes@.len() - i,
    {
        let u = summarize_class(&s.class_bytes[i]);
        let mut row = String::new();
        row.append("  ");
        text::append_right(&mut row, text::number(i as u64).as_str(), 3);
        row.append("  ");
        text::append_left(&mut row, text::fmt_bytes_short(s.class_sizes[i]).as_str(), 9);
        row.append(" ");
        text::append_right(&mut row, text::number(s.class_refills[i] as u64).as_str(), 7);
        row.append("  ");
        text::append_left(&mut row, text::fmt_bytes_short(u.cached).as_str(), 10);
        row.append(" ");
        text::append_right(&mut row, text::number(u.active as u64).as_str(), 3);
        row.append("/");
        text::append_left(&mut row, text::number(s.cpu_bytes.len() as u64).as_str(), 3);
        row.append("  ");
        text::append_left(&mut row, text::fmt_bytes_short(u.min).as_str(), 9);
        row.append("  ");
        text::append_left(&mut row, text::fmt_bytes_short(u.max).as_str(), 9);
        row.append("  ");
        row.append(text::fmt_bytes_short(u.avg).as_str());
        assert(row@ =~= class_row(s, i as int));
        line(t, row.as_str());
        i = i + 1;
    }
}

/// The hints of a size class.
pub open spec fn hint_row(s: &ReportInput, c: int) -> Seq<char> {
    "  "@ + text::pad_left(decimal(c), 3) + "  "@ + text::pad_right(
        text::short_bytes_text(s.class_sizes@[c] as int),
        9,
    ) + " "@ + s.class_hints@[c]@
}

/// The hints of the first `hi` size classes in a report.
pub open spec fn with_each_hint(t: Seq<char>, s: &ReportInput, hi: int) -> Seq<char>
    decreases hi,
{
    if hi <= 0 {
        t
    } else {
        with_line(with_each_hint(t, s, hi - 1), hint_row(s, hi - 1))
    }
}

fn put_each_hint(t: &mut String, s: &ReportInput)
    requires
        well_shaped(s),
    ensures
        final(t)@ == with_each_hint(old(t)@, s, s.class_sizes@.len() as int),
{
    let ghost before = t@;
    let mut i: usize = 0;
    while i < s.class_sizes.len()
        invariant
            well_shaped(s),
            i <= s.class_sizes@.len(),
            t@ == with_each_hint(before, s, i as int),
        decreases s.class_sizes@.len() - i,
    {
        let mut row = String::new();
        row.append("  ");
        text::append_right(&mut row, text::number(i as u64).as_str(), 3);
        row.append("  ");
        text::append_left(&mut row, text::fmt_bytes_short(s.class_sizes[i]).as_str(), 9);
        row.append(" ");
        row.append(s.class_hints[i].as_str());
        assert(row@ =~= hint_row(s, i as int));
        line(t, row.as_str());
        i = i + 1;
    }
}

/// The row of an order of the buddy allocator.
pub open spec fn order_row(b: &BuddyBackendReport, i: int) -> Seq<char> {
    let blocks = b.free_blocks@[i] as int;
    "  "@ + text::pad_right(decimal(22 + i), 5) + "  "@ + text::pad_right(
        text::bytes_text(debug::order_bytes(1, i)),
        26,
    ) + " "@ + text::pad_left(decimal(blocks), 6) + "  "@ + text::pad_left(
        decimal(b.never_allocated_by_order@[i] as int),
        5,
    ) + "  "@ + text::pad_left(decimal(b.reused_by_order@[i] as int), 6) + "  "@ + text::pad_left(
        decimal(b.trimmed_by_order@[i] as int),
        7,
    ) + "  "@ + text::bytes_text(debug::order_bytes(blocks, i))
}

/// The first `hi` orders of the buddy allocator in a report.
pub open spec fn with_each_order(t: Seq<char>, b: &BuddyBackendReport, hi: int) -> Seq<char>
    decreases hi,
{
    if hi <= 0 {
        t
    } else {
        with_line(with_each_order(t, b, hi - 1), order_row(b, hi - 1))
    }
}

fn put_each_order(t: &mut String, b: &BuddyBackendReport)
    ensures
        final(t)@ == with_each_order(old(t)@, b, 5),
{
    let ghost before = t@;
    let mut i: usize = 0;
    while i < 5
        invariant
            i <= 5,
            t@ == with_each_order(before, b, i as int),
        decreases 5 - i,
    {
        let mut row = String::new();
        row.append("  ");
        text::append_left(&mut row, text::number(22 + i as u64).as_str(), 5);
        row.append("  ");
        text::append_left(&mut row, text::fmt_bytes(bytes_of_order(1, i)).as_str(), 26);
        row.append(" ");
        text::append_right(&mut row, text::number(b.free_blocks[i] as u64).as_str(), 6);
        row.append("  ");
        text::append_right(
            &mut row,
            text::number(b.never_allocated_by_order[i] as u64).as_str(),
            5,
        );
        row.append("  ");
        text::append_right(&mut row, text::number(b.reused_by_order[i] as u64).as_str(), 6);
        row.append("  ");
        text::append_right(&mut row, text::number(b.trimmed_by_order[i] as u64).as_str(), 7);
        row.append("  ");
        row.append(text::fmt_bytes(bytes_of_order(b.free_blocks[i], i)).as_str());
        assert(row@ =~= order_row(b, i as int));
        line(t, row.as_str());
        i = i + 1;
    }
}

/// The process in a report.
pub open spec fn with_process(t: Seq<char>, s: &ReportInput) -> Seq<char> {
    let t = with_section(t, "process"@);
    let t = with_item(t, "pid"@, decimal(s.counters.pid as int));
    let t = with_item(t, "uptime"@, (decimal(s.counters.uptime_ms as int) + " ms"@));
    let t = with_item(t, "clock"@, (decimal(s.stamp as int) + " ms"@));
    let t = with_item(t, "cpus"@, decimal(s.cpu_bytes.len() as int));
    t
}

fn put_process(t: &mut String, s: &ReportInput)
    ensures
        final(t)@ == with_process(old(t)@, s),
{
    section(t, "process");
    item(t, "pid", text::number(s.counters.pid as u64).as_str());
    let uptime = text::joined(text::number(s.counters.uptime_ms as u64).as_str(), " ms");
    item(t, "uptime", uptime.as_str());
    item(t, "clock", text::joined(text::number(s.stamp as u64).as_str(), " ms").as_str());
    item(t, "cpus", text::number(s.cpu_bytes.len() as u64).as_str());
}

/// The memory nodes in a report.
pub open spec fn with_numa(t: Seq<char>, s: &ReportInput) -> Seq<char> {
    let t = with_section(t, "numa"@);
    let t = with_item(t, "enabled"@, text::truth_text(s.counters.numa_enabled));
    let t = with_item(t, "cpus"@, decimal(s.counters.numa_cpus as int));
    let t = with_item(t, "nodes"@, decimal(s.counters.numa_nodes as int));
    let t = with_item(t, "cpu ranges"@, decimal(s.counters.numa_ranges as int));
    let t = with_nodes(t, s.node_ids@, s.node_ids@.len() as int);
    let t = with_ranges(t, s.cpu_ranges@, s.cpu_ranges@.len() as int);
    t
}

fn put_numa(t: &mut String, s: &ReportInput)
    ensures
        final(t)@ == with_numa(old(t)@, s),
{
    section(t, "numa");
    item(t, "enabled", text::truth(s.counters.numa_enabled).as_str());
    item(t, "cpus", text::number(s.counters.numa_cpus as u64).as_str());
    item(t, "nodes", text::number(s.counters.numa_nodes as u64).as_str());
    item(t, "cpu ranges", text::number(s.counters.numa_ranges as u64).as_str());
    put_nodes(t, &s.node_ids);
    put_ranges(t, &s.cpu_ranges);
}

/// The refills in a report.
pub open spec fn with_rseq(t: Seq<char>, s: &ReportInput) -> Seq<char> {
    let t = with_section(t, "rseq"@);
    let t = with_item(t, "refills"@, decimal(s.counters.total_refills as int));
    let t = with_item(
        t,
        "predictor misses"@,
        decimal(misses_of(s)) + " ("@ + s.miss_percent@ + "%)"@,
    );
    let t = with_item(t, "under predicts"@, decimal(s.counters.refill_under_predicts as int));
    let t = with_item(t, "over predicts"@, decimal(s.counters.refill_over_predicts as int));
    let t = with_item(t, "aborts"@, decimal(s.counters.rseq_aborts as int));
    t
}

fn put_rseq(t: &mut String, s: &ReportInput)
    ensures
        final(t)@ == with_rseq(old(t)@, s),
{
    section(t, "rseq");
    item(t, "refills", text::number(s.counters.total_refills as u64).as_str());
    let under: usize = s.counters.refill_under_predicts;
    let over: usize = s.counters.refill_over_predicts;
    let mut value = text::number(under.saturating_add(over) as u64);
    value.append(" (");
    value.append(s.miss_percent.as_str());
    value.append("%)");
    assert(value@ =~= (decimal(misses_of(s)) + " ("@ + s.miss_percent@ + "%)"@));
    item(t, "predictor misses", value.as_str());
    item(t, "under predicts", text::number(s.counters.refill_under_predicts as u64).as_str());
    item(t, "over predicts", text::number(s.counters.refill_over_predicts as u64).as_str());
    item(t, "aborts", text::number(s.counters.rseq_aborts as u64).as_str());
}

/// The locks in a report.
pub open spec fn with_locks(t: Seq<char>, l: LockCounters) -> Seq<char> {
    let t = with_section(t, "locks"@);
    let t = with_item(t, "lock calls"@, decimal(l.total_locks as int));
    let t = with_item(t, "lock retries"@, decimal(l.total_lock_retries as int));
    let t = with_item(t, "try locks"@, decimal(l.total_try_locks as int));
    let t = with_item(t, "try misses"@, decimal(l.total_try_lock_misses as int));
    let t = with_item(t, "spin waits"@, decimal(l.total_spin_waits as int));
    t
}

fn put_locks(t: &mut String, l: LockCounters)
    ensures
        final(t)@ == with_locks(old(t)@, l),
{
    section(t, "locks");
    item(t, "lock calls", text::number(l.total_locks as u64).as_str());
    item(t, "lock retries", text::number(l.total_lock_retries as u64).as_str());
    item(t, "try locks", text::number(l.total_try_locks as u64).as_str());
    item(t, "try misses", text::number(l.total_try_lock_misses as u64).as_str());
    item(t, "spin waits", text::number(l.total_spin_waits as u64).as_str());
}

/// The mappings and what is cached in a report.
pub open spec fn with_memory(t: Seq<char>, s: &ReportInput) -> Seq<char> {
    let t = with_section(t, "mmap calls"@);
    let t = with_item(t, "calls"@, decimal(s.counters.mmap_calls as int));
    let t = with_item(t, "requested"@, text::bytes_text(s.counters.mmap_bytes_requested as int));
    let t = with_section(t, "cached virtual memory"@);
    let t = with_line(t, "  current"@);
    let t = with_item(t, "slab"@, text::bytes_text(s.counters.slab_cached_va as int));
    let t = with_item(t, "buddy"@, text::bytes_text(s.counters.buddy_cached_va as int));
    let t = with_item(
        t,
        "total"@,
        text::bytes_text(
            debug::capped(s.counters.slab_cached_va + s.counters.buddy_cached_va),
        ),
    );
    let t = with_line(t, "  high water"@);
    let t = with_item(t, "slab"@, text::bytes_text(s.counters.high_water_slab_cached_va as int));
    let t = with_item(t, "buddy"@, text::bytes_text(s.counters.high_water_buddy_cached_va as int));
    let t = with_item(t, "total"@, text::bytes_text(s.counters.high_water_total_cached_va as int));
    t
}

fn put_memory(t: &mut String, s: &ReportInput)
    ensures
        final(t)@ == with_memory(old(t)@, s),
{
    section(t, "mmap calls");
    item(t, "calls", text::number(s.counters.mmap_calls as u64).as_str());
    byte_item(t, "requested", s.counters.mmap_bytes_requested);
    section(t, "cached virtual memory");
    line(t, "  current");
    byte_item(t, "slab", s.counters.slab_cached_va);
    byte_item(t, "buddy", s.counters.buddy_cached_va);
    byte_item(t, "total", s.counters.slab_cached_va.saturating_add(s.counters.buddy_cached_va));
    line(t, "  high water");
    byte_item(t, "slab", s.counters.high_water_slab_cached_va);
    byte_item(t, "buddy", s.counters.high_water_buddy_cached_va);
    byte_item(t, "total", s.counters.high_water_total_cached_va);
}

/// What the processors hold in a report.
pub open spec fn with_cpus(t: Seq<char>, s: &ReportInput) -> Seq<char> {
    let u = debug::cpu_usage(s.cpu_bytes@);
    let t = with_section(t, "rseq cpu cache (exit)"@);
    let t = with_item(t, "total"@, text::bytes_text(u.total as int));
    let t = with_item(t, "min"@, text::bytes_text(u.min as int));
    let t = with_item(t, "max"@, text::bytes_text(u.max as int));
    let t = with_item(
        t,
        "non-empty cpus"@,
        decimal(u.nonempty as int) + " / "@ + decimal(s.cpu_bytes@.len() as int),
    );
    let t = with_each_cpu(t, s.cpu_bytes@, s.cpu_bytes@.len() as int);
    t
}

fn put_cpus(t: &mut String, s: &ReportInput)
    ensures
        final(t)@ == with_cpus(old(t)@, s),
{
    let u = summarize_cpus(&s.cpu_bytes);
    section(t, "rseq cpu cache (exit)");
    byte_item(t, "total", u.total);
    byte_item(t, "min", u.min);
    byte_item(t, "max", u.max);
    let mut value = text::number(u.nonempty as u64);
    value.append(" / ");
    text::append_decimal(&mut value, s.cpu_bytes.len() as u64);
    assert(value@ =~= (decimal(u.nonempty as int) + " / "@ + decimal(s.cpu_bytes@.len() as int)));
    item(t, "non-empty cpus", value.as_str());
    put_each_cpu(t, &s.cpu_bytes);
}

/// The size classes in a report.
pub open spec fn with_classes(t: Seq<char>, s: &ReportInput) -> Seq<char> {
    let t = with_section(t, "size classes"@);
    let t = with_line(t, "  cls  size       refills  cached      cpus       min        max        avg"@);
    let t = with_each_class(t, s, s.class_sizes@.len() as int);
    t
}

fn put_classes(t: &mut String, s: &ReportInput)
    requires
        well_shaped(s),
    ensures
        final(t)@ == with_classes(old(t)@, s),
{
    section(t, "size classes");
    line(t, "  cls  size       refills  cached      cpus       min        max        avg");
    put_each_class(t, s);
}

/// The hints of the transfer cache in a report.
pub open spec fn with_hints(t: Seq<char>, s: &ReportInput) -> Seq<char> {
    let t = with_section(t, "transfer class hints"@);
    let t = with_line(t, "  1 = hinted nonempty, 0 = no nonempty hint"@);
    let t = with_each_hint(t, s, s.class_sizes@.len() as int);
    t
}

fn put_hints(t: &mut String, s: &ReportInput)
    requires
        well_shaped(s),
    ensures
        final(t)@ == with_hints(old(t)@, s),
{
    section(t, "transfer class hints");
    line(t, "  1 = hinted nonempty, 0 = no nonempty hint");
    put_each_hint(t, s);
}

/// The transfer cache in a report.
pub open spec fn with_transfer(t: Seq<char>, x: TransferCounters) -> Seq<char> {
    let t = with_section(t, "transfer cache"@);
    let t = match x.calls {
        Some(calls) => {
            let t = with_item(t, "pop calls"@, decimal(calls.pops as int));
            let t = with_item(t, "push calls"@, decimal(calls.pushes as int));
            t
        },
        None => t,
    };
    let t = with_item(t, "steals"@, decimal(x.steals as int));
    let t = with_item(t, "dry steals"@, decimal(x.dry_steals as int));
    let t = with_item(t, "cas retries"@, decimal(x.retries as int));
    t
}

fn put_transfer(t: &mut String, x: TransferCounters)
    ensures
        final(t)@ == with_transfer(old(t)@, x),
{
    section(t, "transfer cache");
    if let Some(calls) = x.calls {
        item(t, "pop calls", text::number(calls.pops as u64).as_str());
        item(t, "push calls", text::number(calls.pushes as u64).as_str());
    }
    item(t, "steals", text::number(x.steals as u64).as_str());
    item(t, "dry steals", text::number(x.dry_steals as u64).as_str());
    item(t, "cas retries", text::number(x.retries as u64).as_str());
}

/// Trimming and relief in a report.
pub open spec fn with_trim(t: Seq<char>, s: &ReportInput) -> Seq<char> {
    let t = with_section(t, "trim and relief"@);
    let t = with_item(t, "trim calls"@, decimal(s.counters.trim_calls as int));
    let t = with_item(t, "trimmed"@, text::bytes_text(s.counters.trimmed_va as int));
    let t = match s.trims {
        Some(x) => {
            let t = with_item(t, "trimmed blocks (small)"@, decimal(x.blocks as int));
            let t = with_item(t, "average madvise cycles (small)"@, decimal(cycles_per_block(x)));
            t
        },
        None => t,
    };
    let t = with_item(t, "avg small life"@, (decimal(s.average_small as int) + " ms"@));
    let t = with_item(t, "avg buddy life"@, (decimal(s.average_buddy as int) + " ms"@));
    let t = with_item(t, "buddy disabled"@, text::truth_text(s.counters.buddy_disabled));
    t
}

fn put_trim(t: &mut String, s: &ReportInput)
    ensures
        final(t)@ == with_trim(old(t)@, s),
{
    section(t, "trim and relief");
    item(t, "trim calls", text::number(s.counters.trim_calls as u64).as_str());
    byte_item(t, "trimmed", s.counters.trimmed_va);
    if let Some(x) = s.trims {
        item(t, "trimmed blocks (small)", text::number(x.blocks as u64).as_str());
        item(t, "average madvise cycles (small)", text::number(average_cycles(x) as u64).as_str());
    }
    let small_life = text::joined(text::number(s.average_small as u64).as_str(), " ms");
    item(t, "avg small life", small_life.as_str());
    let buddy_life = text::joined(text::number(s.average_buddy as u64).as_str(), " ms");
    item(t, "avg buddy life", buddy_life.as_str());
    item(t, "buddy disabled", text::truth(s.counters.buddy_disabled).as_str());
}

/// The buddy allocator in a report.
pub open spec fn with_buddy(t: Seq<char>, s: &ReportInput, b: &BuddyBackendReport) -> Seq<char> {
    let x = debug::totals_of(b);
    let t = with_section(t, "buddy backend"@);
    let t = with_item(t, "regions"@, decimal(b.regions as int));
    let t = with_item(t, "grow order"@, decimal(b.grow_order as int));
    let t = with_item(t, "thp"@, text::truth_text(b.thp));
    let t = with_item(t, "region bytes"@, text::bytes_text(b.total_region_bytes as int));
    let t = with_item(t, "used bytes"@, text::bytes_text(x.used_bytes as int));
    let t = with_item(t, "free bytes"@, text::bytes_text(b.free_bytes as int));
    let t = with_item(t, "used / free"@, (s.used_percent@ + "% / "@ + s.free_percent@ + "%"@));
    let t = with_item(t, "free blocks"@, decimal(x.free_blocks as int));
    let t = with_item(t, "never allocated"@, decimal(b.never_allocated_blocks as int));
    let t = with_item(t, "never alloc bytes"@, text::bytes_text(x.never_allocated_bytes as int));
    let t = with_item(t, "reused"@, decimal(b.reused_blocks as int));
    let t = with_item(t, "reused bytes"@, text::bytes_text(x.reused_bytes as int));
    let t = with_item(t, "trimmed blocks"@, decimal(b.trimmed_blocks as int));
    let t = with_item(t, "trimmed bytes"@, text::bytes_text(x.trimmed_bytes as int));
    let t = with_line(t, "  free lists by order"@);
    let t = with_line(t, "  order  block size                  blocks  never  reused  trimmed  bytes"@);
    let t = with_each_order(t, b, 5);
    t
}

fn put_buddy(t: &mut String, s: &ReportInput, b: &BuddyBackendReport)
    requires
        debug::adds_up(b),
    ensures
        final(t)@ == with_buddy(old(t)@, s, b),
{
    let x = buddy_totals(b);
    section(t, "buddy backend");
    item(t, "regions", text::number(b.regions as u64).as_str());
    item(t, "grow order", text::number(b.grow_order as u64).as_str());
    item(t, "thp", text::truth(b.thp).as_str());
    byte_item(t, "region bytes", b.total_region_bytes);
    byte_item(t, "used bytes", x.used_bytes);
    byte_item(t, "free bytes", b.free_bytes);
    let mut value = text::joined(s.used_percent.as_str(), "% / ");
    value.append(s.free_percent.as_str());
    value.append("%");
    assert(value@ =~= (s.used_percent@ + "% / "@ + s.free_percent@ + "%"@));
    item(t, "used / free", value.as_str());
    item(t, "free blocks", text::number(x.free_blocks as u64).as_str());
    item(t, "never allocated", text::number(b.never_allocated_blocks as u64).as_str());
    byte_item(t, "never alloc bytes", x.never_allocated_bytes);
    item(t, "reused", text::number(b.reused_blocks as u64).as_str());
    byte_item(t, "reused bytes", x.reused_bytes);
    item(t, "trimmed blocks", text::number(b.trimmed_blocks as u64).as_str());
    byte_item(t, "trimmed bytes", x.trimmed_bytes);
    line(t, "  free lists by order");
    line(t, "  order  block size                  blocks  never  reused  trimmed  bytes");
    put_each_order(t, b);
}

/// The owned pages in a report.
pub open spec fn with_radix(t: Seq<char>, s: &ReportInput) -> Seq<char> {
    let t = with_section(t, "radix"@);
    let t = with_item(t, "l1 nodes"@, decimal(s.radix.l1_nodes as int));
    let t = with_item(t, "l2 nodes"@, decimal(s.radix.l2_nodes as int));
    let t = with_item(t, "leaves"@, decimal(s.radix.leaves as int));
    let t = with_item(t, "owned chunks"@, decimal(s.radix.owned_chunks as int));
    let t = with_item(t, "chunk size"@, text::bytes_text(CHUNK_SIZE as int));
    let t = with_item(
        t,
        "owned bytes"@,
        text::bytes_text(debug::capped(s.radix.owned_chunks * CHUNK_SIZE)),
    );
    let t = with_item(t, "metadata"@, text::bytes_text(s.radix.metadata_bytes as int));
    let t = with_item(t, "metadata / chunk"@, (s.metadata_per_chunk@ + " bytes"@));
    t
}

fn put_radix(t: &mut String, s: &ReportInput)
    ensures
        final(t)@ == with_radix(old(t)@, s),
{
    section(t, "radix");
    item(t, "l1 nodes", text::number(s.radix.l1_nodes as u64).as_str());
    item(t, "l2 nodes", text::number(s.radix.l2_nodes as u64).as_str());
    item(t, "leaves", text::number(s.radix.leaves as u64).as_str());
    item(t, "owned chunks", text::number(s.radix.owned_chunks as u64).as_str());
    byte_item(t, "chunk size", CHUNK_SIZE);
    let owned: usize = match s.radix.owned_chunks.checked_mul(CHUNK_SIZE) {
        Some(n) => n,
        None => usize::MAX,
    };
    byte_item(t, "owned bytes", owned);
    byte_item(t, "metadata", s.radix.metadata_bytes);
    item(t, "metadata / chunk", text::joined(s.metadata_per_chunk.as_str(), " bytes").as_str());
}

/// The whole report.
pub open spec fn report_text(s: &ReportInput, b: &BuddyBackendReport) -> Seq<char> {
    let t = with_line(Seq::empty(), "rsmalloc statistics"@);
    let t = with_rseq(with_numa(with_process(t, s), s), s);
    let t = match s.locks {
        Some(l) => with_locks(t, l),
        None => t,
    };
    let t = with_classes(with_cpus(with_memory(t, s), s), s);
    let t = match s.transfer {
        Some(x) => with_transfer(t, x),
        None => t,
    };
    with_radix(with_buddy(with_trim(with_hints(t, s), s), s, b), s)
}

/// Writes the report.
pub fn print_report(s: &ReportInput, b: &BuddyBackendReport) -> (r: String)
    requires
        well_shaped(s),
        debug::adds_up(b),
    ensures
        r@ == report_text(s, b),
{
    let mut r = String::new();
    assert(r@ =~= Seq::<char>::empty());
    line(&mut r, "rsmalloc statistics");
    put_process(&mut r, s);
    put_numa(&mut r, s);
    put_rseq(&mut r, s);
    if let Some(l) = s.locks {
        put_locks(&mut r, l);
    }
    put_memory(&mut r, s);
    put_cpus(&mut r, s);
    put_classes(&mut r, s);
    if let Some(x) = s.transfer {
        put_transfer(&mut r, x);
    }
    put_hints(&mut r, s);
    put_trim(&mut r, s);
    put_buddy(&mut r, s, b);
    put_radix(&mut r, s);
    r
}

/// The text holds a line.
pub open spec fn tells(t: Seq<char>, line: Seq<char>) -> bool {
    exists|i: int|
        0 <= i && i + line.len() < t.len() && #[trigger] t.subrange(i, i + line.len()) == line
            && t[i + line.len()] == '\n'
}

/// The line of an item: its name starts in the third column and its value in the twenty-second, or
/// behind a longer name.
pub open spec fn item_line(name: Seq<char>, value: Seq<char>) -> Seq<char> {
    "  "@ + text::pad_right(name, 18) + " "@ + value
}

broadcast proof fn lemma_tells_kept(t: Seq<char>, more: Seq<char>, line: Seq<char>)
    ensures
        tells(t, line) ==> #[trigger] tells(t + more, line),
{
    if tells(t, line) {
        let i = choose|i: int|
            0 <= i && i + line.len() < t.len() && #[trigger] t.subrange(i, i + line.len()) == line
                && t[i + line.len()] == '\n';
        let u = t + more;
        assert(u.subrange(i, i + line.len()) =~= t.subrange(i, i + line.len()));
        assert(u[i + line.len()] == '\n');
    }
}

broadcast proof fn lemma_tells_line(t: Seq<char>, line: Seq<char>)
    ensures
        #[trigger] tells(with_line(t, line), line),
{
    reveal_strlit("\n");
    let u = with_line(t, line);
    let i = t.len() as int;
    assert(u.subrange(i, i + line.len()) =~= line);
    assert(u[i + line.len()] == '\n');
}

broadcast proof fn lemma_line_keeps(t: Seq<char>, text: Seq<char>, line: Seq<char>)
    ensures
        tells(t, line) ==> #[trigger] tells(with_line(t, text), line),
{
    lemma_tells_kept(t, text, line);
    lemma_tells_kept(t + text, "\n"@, line);
}

broadcast proof fn lemma_line_appends(t: Seq<char>, more: Seq<char>, text: Seq<char>)
    ensures
        #[trigger] with_line(t + more, text) == t + with_line(more, text),
{
    assert(with_line(t + more, text) =~= t + with_line(more, text));
}

broadcast proof fn lemma_item_appends(t: Seq<char>, more: Seq<char>, name: Seq<char>, value: Seq<char>)
    ensures
        #[trigger] with_item(t + more, name, value) == t + with_item(more, name, value),
{
    lemma_line_appends(t, more, "  "@ + text::pad_right(name, 18) + " "@ + value);
}

broadcast proof fn lemma_section_appends(t: Seq<char>, more: Seq<char>, name: Seq<char>)
    ensures
        #[trigger] with_section(t + more, name) == t + with_section(more, name),
{
    assert(t + more + "\n"@ =~= t + (more + "\n"@));
    lemma_line_appends(t, more + "\n"@, name);
    lemma_line_appends(t, with_line(more + "\n"@, name), "-"@);
}

proof fn lemma_nodes_append(t: Seq<char>, more: Seq<char>, ids: Seq<u16>, hi: int)
    ensures
        with_nodes(t + more, ids, hi) == t + with_nodes(more, ids, hi),
    decreases hi,
{
    if hi > 0 {
        broadcast use {lemma_line_appends, lemma_item_appends};
        lemma_nodes_append(t, more, ids, hi - 1);
    }
}

proof fn lemma_nodes_told(t: Seq<char>, ids: Seq<u16>, hi: int, k: int, line: Seq<char>)
    ensures
        0 <= k < hi ==> tells(with_nodes(t, ids, hi), item_line("node "@ + decimal(k), decimal(ids[k] as int))),
        tells(t, line) ==> tells(with_nodes(t, ids, hi), line),
    decreases hi,
{
    if hi > 0 {
        broadcast use {lemma_line_keeps, lemma_tells_line};
        lemma_nodes_told(t, ids, hi - 1, k, line);
        if k < hi - 1 {
            lemma_nodes_told(t, ids, hi - 1, k, item_line("node "@ + decimal(k), decimal(ids[k] as int)));
        }
    }
}

proof fn lemma_ranges_append(t: Seq<char>, more: Seq<char>, ranges: Seq<NumaCpuRange>, hi: int)
    ensures
        with_ranges(t + more, ranges, hi) == t + with_ranges(more, ranges, hi),
    decreases hi,
{
    if hi > 0 {
        broadcast use {lemma_line_appends, lemma_item_appends};
        lemma_ranges_append(t, more, ranges, hi - 1);
    }
}

proof fn lemma_ranges_told(t: Seq<char>, ranges: Seq<NumaCpuRange>, hi: int, k: int, line: Seq<char>)
    ensures
        0 <= k < hi ==> tells(with_ranges(t, ranges, hi), item_line("range "@ + decimal(k), range_text(ranges[k]))),
        tells(t, line) ==> tells(with_ranges(t, ranges, hi), line),
    decreases hi,
{
    if hi > 0 {
        broadcast use {lemma_line_keeps, lemma_tells_line};
        lemma_ranges_told(t, ranges, hi - 1, k, line);
        if k < hi - 1 {
            lemma_ranges_told(t, ranges, hi - 1, k, item_line("range "@ + decimal(k), range_text(ranges[k])));
        }
    }
}

proof fn lemma_cpu_append(t: Seq<char>, more: Seq<char>, bytes: Seq<usize>, hi: int)
    ensures
        with_each_cpu(t + more, bytes, hi) == t + with_each_cpu(more, bytes, hi),
    decreases hi,
{
    if hi > 0 {
        broadcast use {lemma_line_appends, lemma_item_appends};
        lemma_cpu_append(t, more, bytes, hi - 1);
    }
}

proof fn lemma_cpu_told(t: Seq<char>, bytes: Seq<usize>, hi: int, k: int, line: Seq<char>)
    ensures
        0 <= k < hi ==> tells(with_each_cpu(t, bytes, hi), item_line("cpu "@ + decimal(k), text::bytes_text(bytes[k] as int))),
        tells(t, line) ==> tells(with_each_cpu(t, bytes, hi), line),
    decreases hi,
{
    if hi > 0 {
        broadcast use {lemma_line_keeps, lemma_tells_line};
        lemma_cpu_told(t, bytes, hi - 1, k, line);
        if k < hi - 1 {
            lemma_cpu_told(t, bytes, hi - 1, k, item_line("cpu "@ + decimal(k), text::bytes_text(bytes[k] as int)));
        }
    }
}

proof fn lemma_class_append(t: Seq<char>, more: Seq<char>, s: &ReportInput, hi: int)
    ensures
        with_each_class(t + more, s, hi) == t + with_each_class(more, s, hi),
    decreases hi,
{
    if hi > 0 {
        broadcast use {lemma_line_appends, lemma_item_appends};
        lemma_class_append(t, more, s, hi - 1);
    }
}

proof fn lemma_class_told(t: Seq<char>, s: &ReportInput, hi: int, k: int, line: Seq<char>)
    ensures
        0 <= k < hi ==> tells(with_each_class(t, s, hi), class_row(s, k)),
        tells(t, line) ==> tells(with_each_class(t, s, hi), line),
    decreases hi,
{
    if hi > 0 {
        broadcast use {lemma_line_keeps, lemma_tells_line};
        lemma_class_told(t, s, hi - 1, k, line);
        if k < hi - 1 {
            lemma_class_told(t, s, hi - 1, k, class_row(s, k));
        }
    }
}

proof fn lemma_hint_append(t: Seq<char>, more: Seq<char>, s: &ReportInput, hi: int)
    ensures
        with_each_hint(t + more, s, hi) == t + with_each_hint(more, s, hi),
    decreases hi,
{
    if hi > 0 {
        broadcast use {lemma_line_appends, lemma_item_appends};
        lemma_hint_append(t, more, s, hi - 1);
    }
}

proof fn lemma_hint_told(t: Seq<char>, s: &ReportInput, hi: int, k: int, line: Seq<char>)
    ensures
        0 <= k < hi ==> tells(with_each_hint(t, s, hi), hint_row(s, k)),
        tells(t, line) ==> tells(with_each_hint(t, s, hi), line),
    decreases hi,
{
    if hi > 0 {
        broadcast use {lemma_line_keeps, lemma_tells_line};
        lemma_hint_told(t, s, hi - 1, k, line);
        if k < hi - 1 {
            lemma_hint_told(t, s, hi - 1, k, hint_row(s, k));
        }
    }
}

proof fn lemma_order_append(t: Seq<char>, more: Seq<char>, b: &BuddyBackendReport, hi: int)
    ensures
        with_each_order(t + more, b, hi) == t + with_each_order(more, b, hi),
    decreases hi,
{
    if hi > 0 {
        broadcast use {lemma_line_appends, lemma_item_appends};
        lemma_order_append(t, more, b, hi - 1);
    }
}

proof fn lemma_order_told(t: Seq<char>, b: &BuddyBackendReport, hi: int, k: int, line: Seq<char>)
    ensures
        0 <= k < hi ==> tells(with_each_order(t, b, hi), order_row(b, k)),
        tells(t, line) ==> tells(with_each_order(t, b, hi), line),
    decreases hi,
{
    if hi > 0 {
        broadcast use {lemma_line_keeps, lemma_tells_line};
        lemma_order_told(t, b, hi - 1, k, line);
        if k < hi - 1 {
            lemma_order_told(t, b, hi - 1, k, order_row(b, k));
        }
    }
}

broadcast proof fn lemma_section_keeps(t: Seq<char>, name: Seq<char>, line: Seq<char>)
    ensures
        tells(t, line) ==> #[trigger] tells(with_section(t, name), line),
{
    lemma_tells_kept(t, "\n"@, line);
    lemma_line_keeps(t + "\n"@, name, line);
    lemma_line_keeps(with_line(t + "\n"@, name), "-"@, line);
}

broadcast proof fn lemma_item_told(t: Seq<char>, name: Seq<char>, value: Seq<char>)
    ensures
        #[trigger] tells(with_item(t, name, value), item_line(name, value)),
{
    lemma_tells_line(t, item_line(name, value));
}

broadcast proof fn lemma_item_keeps(t: Seq<char>, name: Seq<char>, value: Seq<char>, line: Seq<char>)
    ensures
        tells(t, line) ==> #[trigger] tells(with_item(t, name, value), line),
{
    lemma_line_keeps(t, item_line(name, value), line);
}

proof fn lemma_process_append(t: Seq<char>, more: Seq<char>, s: &ReportInput)
    ensures
        with_process(t + more, s) == t + with_process(more, s),
{
    broadcast use {lemma_line_appends, lemma_item_appends, lemma_section_appends};
}

proof fn lemma_numa_append(t: Seq<char>, more: Seq<char>, s: &ReportInput)
    ensures
        with_numa(t + more, s) == t + with_numa(more, s),
{
    broadcast use {lemma_line_appends, lemma_item_appends, lemma_section_appends};
    let m0 = with_section(more, "numa"@);
    let m1 = with_item(m0, "enabled"@, text::truth_text(s.counters.numa_enabled));
    let m2 = with_item(m1, "cpus"@, decimal(s.counters.numa_cpus as int));
    let m3 = with_item(m2, "nodes"@, decimal(s.counters.numa_nodes as int));
    let m4 = with_item(m3, "cpu ranges"@, decimal(s.counters.numa_ranges as int));
    lemma_nodes_append(t, m4, s.node_ids@, s.node_ids@.len() as int);
    let m5 = with_nodes(m4, s.node_ids@, s.node_ids@.len() as int);
    lemma_ranges_append(t, m5, s.cpu_ranges@, s.cpu_ranges@.len() as int);
    let m6 = with_ranges(m5, s.cpu_ranges@, s.cpu_ranges@.len() as int);
}

proof fn lemma_rseq_append(t: Seq<char>, more: Seq<char>, s: &ReportInput)
    ensures
        with_rseq(t + more, s) == t + with_rseq(more, s),
{
    broadcast use {lemma_line_appends, lemma_item_appends, lemma_section_appends};
}

proof fn lemma_locks_append(t: Seq<char>, more: Seq<char>, l: LockCounters)
    ensures
        with_locks(t + more, l) == t + with_locks(more, l),
{
    broadcast use {lemma_line_appends, lemma_item_appends, lemma_section_appends};
}

proof fn lemma_memory_append(t: Seq<char>, more: Seq<char>, s: &ReportInput)
    ensures
        with_memory(t + more, s) == t + with_memory(more, s),
{
    broadcast use {lemma_line_appends, lemma_item_appends, lemma_section_appends};
}

proof fn lemma_cpus_append(t: Seq<char>, more: Seq<char>, s: &ReportInput)
    ensures
        with_cpus(t + more, s) == t + with_cpus(more, s),
{
    broadcast use {lemma_line_appends, lemma_item_appends, lemma_section_appends};
    let u = debug::cpu_usage(s.cpu_bytes@);
    let m0 = with_section(more, "rseq cpu cache (exit)"@);
    let m1 = with_item(m0, "total"@, text::bytes_text(u.total as int));
    let m2 = with_item(m1, "min"@, text::bytes_text(u.min as int));
    let m3 = with_item(m2, "max"@, text::bytes_text(u.max as int));
    let m4 = with_item(m3,
        "non-empty cpus"@,
        decimal(u.nonempty as int) + " / "@ + decimal(s.cpu_bytes@.len() as int),
    );
    lemma_cpu_append(t, m4, s.cpu_bytes@, s.cpu_bytes@.len() as int);
    let m5 = with_each_cpu(m4, s.cpu_bytes@, s.cpu_bytes@.len() as int);
}

proof fn lemma_transfer_append(t: Seq<char>, more: Seq<char>, x: TransferCounters)
    ensures
        with_transfer(t + more, x) == t + with_transfer(more, x),
{
    broadcast use {lemma_line_appends, lemma_item_appends, lemma_section_appends};
}

proof fn lemma_trim_append(t: Seq<char>, more: Seq<char>, s: &ReportInput)
    ensures
        with_trim(t + more, s) == t + with_trim(more, s),
{
    broadcast use {lemma_line_appends, lemma_item_appends, lemma_section_appends};
}

proof fn lemma_buddy_append(t: Seq<char>, more: Seq<char>, s: &ReportInput, b: &BuddyBackendReport)
    ensures
        with_buddy(t + more, s, b) == t + with_buddy(more, s, b),
{
    broadcast use {lemma_line_appends, lemma_item_appends, lemma_section_appends};
    let x = debug::totals_of(b);
    let m0 = with_section(more, "buddy backend"@);
    let m1 = with_item(m0, "regions"@, decimal(b.regions as int));
    let m2 = with_item(m1, "grow order"@, decimal(b.grow_order as int));
    let m3 = with_item(m2, "thp"@, text::truth_text(b.thp));
    let m4 = with_item(m3, "region bytes"@, text::bytes_text(b.total_region_bytes as int));
    let m5 = with_item(m4, "used bytes"@, text::bytes_text(x.used_bytes as int));
    let m6 = with_item(m5, "free bytes"@, text::bytes_text(b.free_bytes as int));
    let m7 = with_item(m6, "used / free"@, (s.used_percent@ + "% / "@ + s.free_percent@ + "%"@));
    let m8 = with_item(m7, "free blocks"@, decimal(x.free_blocks as int));
    let m9 = with_item(m8, "never allocated"@, decimal(b.never_allocated_blocks as int));
    let m10 = with_item(m9, "never alloc bytes"@, text::bytes_text(x.never_allocated_bytes as int));
    let m11 = with_item(m10, "reused"@, decimal(b.reused_blocks as int));
    let m12 = with_item(m11, "reused bytes"@, text::bytes_text(x.reused_bytes as int));
    let m13 = with_item(m12, "trimmed blocks"@, decimal(b.trimmed_blocks as int));
    let m14 = with_item(m13, "trimmed bytes"@, text::bytes_text(x.trimmed_bytes as int));
    let m15 = with_line(m14, "  free lists by order"@);
    let m16 = with_line(m15, "  order  block size                  blocks  never  reused  trimmed  bytes"@);
    lemma_order_append(t, m16, b, 5);
    let m17 = with_each_order(m16, b, 5);
}

proof fn lemma_radix_append(t: Seq<char>, more: Seq<char>, s: &ReportInput)
    ensures
        with_radix(t + more, s) == t + with_radix(more, s),
{
    broadcast use {lemma_line_appends, lemma_item_appends, lemma_section_appends};
}

proof fn lemma_classes_append(t: Seq<char>, more: Seq<char>, s: &ReportInput)
    ensures
        with_classes(t + more, s) == t + with_classes(more, s),
{
    broadcast use {lemma_line_appends, lemma_item_appends, lemma_section_appends};
    let m0 = with_section(more, "size classes"@);
    let m1 = with_line(m0, "  cls  size       refills  cached      cpus       min        max        avg"@);
    lemma_class_append(t, m1, s, s.class_sizes@.len() as int);
    let m2 = with_each_class(m1, s, s.class_sizes@.len() as int);
}

proof fn lemma_hints_append(t: Seq<char>, more: Seq<char>, s: &ReportInput)
    ensures
        with_hints(t + more, s) == t + with_hints(more, s),
{
    broadcast use {lemma_line_appends, lemma_item_appends, lemma_section_appends};
    let m0 = with_section(more, "transfer class hints"@);
    let m1 = with_line(m0, "  1 = hinted nonempty, 0 = no nonempty hint"@);
    lemma_hint_append(t, m1, s, s.class_sizes@.len() as int);
    let m2 = with_each_hint(m1, s, s.class_sizes@.len() as int);
}

/// The process is told about: each number stands behind its name.
pub proof fn law_process_is_told(t: Seq<char>, s: &ReportInput)
    ensures
        tells(with_process(t, s), item_line("pid"@, decimal(s.counters.pid as int))),
        tells(
            with_process(t, s),
            item_line("uptime"@, decimal(s.counters.uptime_ms as int) + " ms"@),
        ),
        tells(with_process(t, s), item_line("clock"@, decimal(s.stamp as int) + " ms"@)),
        tells(with_process(t, s), item_line("cpus"@, decimal(s.cpu_bytes.len() as int))),
        with_process(t, s) == t + with_process(Seq::empty(), s),
{
    broadcast use {lemma_line_keeps, lemma_item_keeps, lemma_item_told, lemma_section_keeps};

    lemma_process_append(t, Seq::empty(), s);
    assert(t + Seq::<char>::empty() =~= t);
}

/// The memory nodes are told about: the counts, each node and each range of processors.
pub proof fn law_nodes_are_told(t: Seq<char>, s: &ReportInput)
    ensures
        tells(with_numa(t, s), item_line("enabled"@, text::truth_text(s.counters.numa_enabled))),
        tells(with_numa(t, s), item_line("cpus"@, decimal(s.counters.numa_cpus as int))),
        tells(with_numa(t, s), item_line("nodes"@, decimal(s.counters.numa_nodes as int))),
        tells(with_numa(t, s), item_line("cpu ranges"@, decimal(s.counters.numa_ranges as int))),
        forall|k: int|
            0 <= k < s.node_ids@.len() ==> #[trigger] tells(
                with_numa(t, s),
                item_line("node "@ + decimal(k), decimal(s.node_ids@[k] as int)),
            ),
        forall|k: int|
            0 <= k < s.cpu_ranges@.len() ==> #[trigger] tells(
                with_numa(t, s),
                item_line("range "@ + decimal(k), range_text(s.cpu_ranges@[k])),
            ),
        with_numa(t, s) == t + with_numa(Seq::empty(), s),
{
    broadcast use {lemma_line_keeps, lemma_item_keeps, lemma_item_told, lemma_section_keeps};

    let t0 = with_section(t, "numa"@);
    let t1 = with_item(t0, "enabled"@, text::truth_text(s.counters.numa_enabled));
    let t2 = with_item(t1, "cpus"@, decimal(s.counters.numa_cpus as int));
    let t3 = with_item(t2, "nodes"@, decimal(s.counters.numa_nodes as int));
    let t4 = with_item(t3, "cpu ranges"@, decimal(s.counters.numa_ranges as int));
    let ids = s.node_ids@;
    let ranges = s.cpu_ranges@;
    let t5 = with_nodes(t4, ids, ids.len() as int);
    let t6 = with_ranges(t5, ranges, ranges.len() as int);
    assert forall|line: Seq<char>| tells(t4, line) implies #[trigger] tells(t6, line) by {
        lemma_nodes_told(t4, ids, ids.len() as int, 0, line);
        lemma_ranges_told(t5, ranges, ranges.len() as int, 0, line);
    }
    assert forall|k: int| 0 <= k < ids.len() implies #[trigger] tells(
        t6,
        item_line("node "@ + decimal(k), decimal(ids[k] as int)),
    ) by {
        let line = item_line("node "@ + decimal(k), decimal(ids[k] as int));
        lemma_nodes_told(t4, ids, ids.len() as int, k, line);
        lemma_ranges_told(t5, ranges, ranges.len() as int, 0, line);
    }
    assert forall|k: int| 0 <= k < ranges.len() implies #[trigger] tells(
        t6,
        item_line("range "@ + decimal(k), range_text(ranges[k])),
    ) by {
        lemma_ranges_told(t5, ranges, ranges.len() as int, k, Seq::empty());
    }
    lemma_numa_append(t, Seq::empty(), s);
    assert(t + Seq::<char>::empty() =~= t);
}

/// The refills are told about.
pub proof fn law_refills_are_told(t: Seq<char>, s: &ReportInput)
    ensures
        tells(with_rseq(t, s), item_line("refills"@, decimal(s.counters.total_refills as int))),
        tells(
            with_rseq(t, s),
            item_line("predictor misses"@, decimal(misses_of(s)) + " ("@ + s.miss_percent@ + "%)"@),
        ),
        tells(
            with_rseq(t, s),
            item_line("under predicts"@, decimal(s.counters.refill_under_predicts as int)),
        ),
        tells(
            with_rseq(t, s),
            item_line("over predicts"@, decimal(s.counters.refill_over_predicts as int)),
        ),
        tells(with_rseq(t, s), item_line("aborts"@, decimal(s.counters.rseq_aborts as int))),
        with_rseq(t, s) == t + with_rseq(Seq::empty(), s),
{
    broadcast use {lemma_line_keeps, lemma_item_keeps, lemma_item_told, lemma_section_keeps};

    lemma_rseq_append(t, Seq::empty(), s);
    assert(t + Seq::<char>::empty() =~= t);
}

/// The locks are told about.
pub proof fn law_locks_are_told(t: Seq<char>, l: LockCounters)
    ensures
        tells(with_locks(t, l), item_line("lock calls"@, decimal(l.total_locks as int))),
        tells(with_locks(t, l), item_line("lock retries"@, decimal(l.total_lock_retries as int))),
        tells(with_locks(t, l), item_line("try locks"@, decimal(l.total_try_locks as int))),
        tells(with_locks(t, l), item_line("try misses"@, decimal(l.total_try_lock_misses as int))),
        tells(with_locks(t, l), item_line("spin waits"@, decimal(l.total_spin_waits as int))),
        with_locks(t, l) == t + with_locks(Seq::empty(), l),
{
    broadcast use {lemma_line_keeps, lemma_item_keeps, lemma_item_told, lemma_section_keeps};

    lemma_locks_append(t, Seq::empty(), l);
    assert(t + Seq::<char>::empty() =~= t);
}

/// The mappings and what is cached are told about.
pub proof fn law_mappings_are_told(t: Seq<char>, s: &ReportInput)
    ensures
        tells(with_memory(t, s), item_line("calls"@, decimal(s.counters.mmap_calls as int))),
        tells(
            with_memory(t, s),
            item_line("requested"@, text::bytes_text(s.counters.mmap_bytes_requested as int)),
        ),
        tells(
            with_memory(t, s),
            item_line("slab"@, text::bytes_text(s.counters.slab_cached_va as int)),
        ),
        tells(
            with_memory(t, s),
            item_line("buddy"@, text::bytes_text(s.counters.buddy_cached_va as int)),
        ),
        tells(
            with_memory(t, s),
            item_line(
                "total"@,
                text::bytes_text(debug::capped(s.counters.slab_cached_va + s.counters.buddy_cached_va)),
            ),
        ),
        tells(
            with_memory(t, s),
            item_line("slab"@, text::bytes_text(s.counters.high_water_slab_cached_va as int)),
        ),
        tells(
            with_memory(t, s),
            item_line("buddy"@, text::bytes_text(s.counters.high_water_buddy_cached_va as int)),
        ),
        tells(
            with_memory(t, s),
            item_line("total"@, text::bytes_text(s.counters.high_water_total_cached_va as int)),
        ),
        with_memory(t, s) == t + with_memory(Seq::empty(), s),
{
    broadcast use {lemma_line_keeps, lemma_item_keeps, lemma_item_told, lemma_section_keeps};

    lemma_memory_append(t, Seq::empty(), s);
    assert(t + Seq::<char>::empty() =~= t);
}

/// What the processors hold is told: in all, and of each.
pub proof fn law_processors_are_told(t: Seq<char>, s: &ReportInput)
    ensures
        tells(
            with_cpus(t, s),
            item_line("total"@, text::bytes_text(debug::cpu_usage(s.cpu_bytes@).total as int)),
        ),
        tells(
            with_cpus(t, s),
            item_line("min"@, text::bytes_text(debug::cpu_usage(s.cpu_bytes@).min as int)),
        ),
        tells(
            with_cpus(t, s),
            item_line("max"@, text::bytes_text(debug::cpu_usage(s.cpu_bytes@).max as int)),
        ),
        tells(
            with_cpus(t, s),
            item_line(
                "non-empty cpus"@,
                decimal(debug::cpu_usage(s.cpu_bytes@).nonempty as int) + " / "@ + decimal(s.cpu_bytes@.len() as int),
            ),
        ),
        forall|k: int|
            0 <= k < s.cpu_bytes@.len() ==> #[trigger] tells(
                with_cpus(t, s),
                item_line("cpu "@ + decimal(k), text::bytes_text(s.cpu_bytes@[k] as int)),
            ),
        with_cpus(t, s) == t + with_cpus(Seq::empty(), s),
{
    broadcast use {lemma_line_keeps, lemma_item_keeps, lemma_item_told, lemma_section_keeps};

    let u = debug::cpu_usage(s.cpu_bytes@);
    let t0 = with_section(t, "rseq cpu cache (exit)"@);
    let t1 = with_item(t0, "total"@, text::bytes_text(u.total as int));
    let t2 = with_item(t1, "min"@, text::bytes_text(u.min as int));
    let t3 = with_item(t2, "max"@, text::bytes_text(u.max as int));
    let t4 = with_item(
        t3,
        "non-empty cpus"@,
        decimal(u.nonempty as int) + " / "@ + decimal(s.cpu_bytes@.len() as int),
    );
    let bytes = s.cpu_bytes@;
    let t5 = with_each_cpu(t4, bytes, bytes.len() as int);
    assert forall|line: Seq<char>| tells(t4, line) implies #[trigger] tells(t5, line) by {
        lemma_cpu_told(t4, bytes, bytes.len() as int, 0, line);
    }
    assert forall|k: int| 0 <= k < bytes.len() implies #[trigger] tells(
        t5,
        item_line("cpu "@ + decimal(k), text::bytes_text(bytes[k] as int)),
    ) by {
        lemma_cpu_told(t4, bytes, bytes.len() as int, k, Seq::empty());
    }
    lemma_cpus_append(t, Seq::empty(), s);
    assert(t + Seq::<char>::empty() =~= t);
}

/// The transfer cache is told about, with its calls where those were counted.
pub proof fn law_transfers_are_told(t: Seq<char>, x: TransferCounters)
    ensures
        x.calls matches Some(calls) ==> tells(
            with_transfer(t, x),
            item_line("pop calls"@, decimal(calls.pops as int)),
        ),
        x.calls matches Some(calls) ==> tells(
            with_transfer(t, x),
            item_line("push calls"@, decimal(calls.pushes as int)),
        ),
        tells(with_transfer(t, x), item_line("steals"@, decimal(x.steals as int))),
        tells(with_transfer(t, x), item_line("dry steals"@, decimal(x.dry_steals as int))),
        tells(with_transfer(t, x), item_line("cas retries"@, decimal(x.retries as int))),
        with_transfer(t, x) == t + with_transfer(Seq::empty(), x),
{
    broadcast use {lemma_line_keeps, lemma_item_keeps, lemma_item_told, lemma_section_keeps};

    lemma_transfer_append(t, Seq::empty(), x);
    assert(t + Seq::<char>::empty() =~= t);
}

/// Trimming and relief are told about, with the blocks where those were counted.
pub proof fn law_trims_are_told(t: Seq<char>, s: &ReportInput)
    ensures
        tells(with_trim(t, s), item_line("trim calls"@, decimal(s.counters.trim_calls as int))),
        tells(
            with_trim(t, s),
            item_line("trimmed"@, text::bytes_text(s.counters.trimmed_va as int)),
        ),
        s.trims matches Some(x) ==> tells(
            with_trim(t, s),
            item_line("trimmed blocks (small)"@, decimal(x.blocks as int)),
        ),
        s.trims matches Some(x) ==> tells(
            with_trim(t, s),
            item_line("average madvise cycles (small)"@, decimal(cycles_per_block(x))),
        ),
        tells(
            with_trim(t, s),
            item_line("avg small life"@, decimal(s.average_small as int) + " ms"@),
        ),
        tells(
            with_trim(t, s),
            item_line("avg buddy life"@, decimal(s.average_buddy as int) + " ms"@),
        ),
        tells(
            with_trim(t, s),
            item_line("buddy disabled"@, text::truth_text(s.counters.buddy_disabled)),
        ),
        with_trim(t, s) == t + with_trim(Seq::empty(), s),
{
    broadcast use {lemma_line_keeps, lemma_item_keeps, lemma_item_told, lemma_section_keeps};

    lemma_trim_append(t, Seq::empty(), s);
    assert(t + Seq::<char>::empty() =~= t);
}

/// The buddy allocator is told about: its totals and each order.
pub proof fn law_buddy_is_told(t: Seq<char>, s: &ReportInput, b: &BuddyBackendReport)
    ensures
        tells(with_buddy(t, s, b), item_line("regions"@, decimal(b.regions as int))),
        tells(with_buddy(t, s, b), item_line("grow order"@, decimal(b.grow_order as int))),
        tells(with_buddy(t, s, b), item_line("thp"@, text::truth_text(b.thp))),
        tells(
            with_buddy(t, s, b),
            item_line("region bytes"@, text::bytes_text(b.total_region_bytes as int)),
        ),
        tells(
            with_buddy(t, s, b),
            item_line("used bytes"@, text::bytes_text(debug::totals_of(b).used_bytes as int)),
        ),
        tells(with_buddy(t, s, b), item_line("free bytes"@, text::bytes_text(b.free_bytes as int))),
        tells(
            with_buddy(t, s, b),
            item_line("used / free"@, s.used_percent@ + "% / "@ + s.free_percent@ + "%"@),
        ),
        tells(
            with_buddy(t, s, b),
            item_line("free blocks"@, decimal(debug::totals_of(b).free_blocks as int)),
        ),
        tells(
            with_buddy(t, s, b),
            item_line("never allocated"@, decimal(b.never_allocated_blocks as int)),
        ),
        tells(
            with_buddy(t, s, b),
            item_line(
                "never alloc bytes"@,
                text::bytes_text(debug::totals_of(b).never_allocated_bytes as int),
            ),
        ),
        tells(with_buddy(t, s, b), item_line("reused"@, decimal(b.reused_blocks as int))),
        tells(
            with_buddy(t, s, b),
            item_line("reused bytes"@, text::bytes_text(debug::totals_of(b).reused_bytes as int)),
        ),
        tells(with_buddy(t, s, b), item_line("trimmed blocks"@, decimal(b.trimmed_blocks as int))),
        tells(
            with_buddy(t, s, b),
            item_line("trimmed bytes"@, text::bytes_text(debug::totals_of(b).trimmed_bytes as int)),
        ),
        forall|k: int| 0 <= k < 5 ==> #[trigger] tells(with_buddy(t, s, b), order_row(b, k)),
        with_buddy(t, s, b) == t + with_buddy(Seq::empty(), s, b),
{
    broadcast use {lemma_line_keeps, lemma_item_keeps, lemma_item_told, lemma_section_keeps};

    let x = debug::totals_of(b);
    let t0 = with_section(t, "buddy backend"@);
    let t1 = with_item(t0, "regions"@, decimal(b.regions as int));
    let t2 = with_item(t1, "grow order"@, decimal(b.grow_order as int));
    let t3 = with_item(t2, "thp"@, text::truth_text(b.thp));
    let t4 = with_item(t3, "region bytes"@, text::bytes_text(b.total_region_bytes as int));
    let t5 = with_item(t4, "used bytes"@, text::bytes_text(x.used_bytes as int));
    let t6 = with_item(t5, "free bytes"@, text::bytes_text(b.free_bytes as int));
    let t7 = with_item(t6, "used / free"@, s.used_percent@ + "% / "@ + s.free_percent@ + "%"@);
    let t8 = with_item(t7, "free blocks"@, decimal(x.free_blocks as int));
    let t9 = with_item(t8, "never allocated"@, decimal(b.never_allocated_blocks as int));
    let ta = with_item(t9, "never alloc bytes"@, text::bytes_text(x.never_allocated_bytes as int));
    let tb = with_item(ta, "reused"@, decimal(b.reused_blocks as int));
    let tc = with_item(tb, "reused bytes"@, text::bytes_text(x.reused_bytes as int));
    let td = with_item(tc, "trimmed blocks"@, decimal(b.trimmed_blocks as int));
    let te = with_item(td, "trimmed bytes"@, text::bytes_text(x.trimmed_bytes as int));
    let tf = with_line(te, "  free lists by order"@);
    let tg = with_line(
        tf,
        "  order  block size                  blocks  never  reused  trimmed  bytes"@,
    );
    let th = with_each_order(tg, b, 5);
    assert(th == with_buddy(t, s, b));
    assert forall|line: Seq<char>| tells(tg, line) implies #[trigger] tells(th, line) by {
        lemma_order_told(tg, b, 5, 0, line);
    }
    assert forall|k: int| 0 <= k < 5 implies #[trigger] tells(th, order_row(b, k)) by {
        lemma_order_told(tg, b, 5, k, Seq::empty());
    }
    lemma_buddy_append(t, Seq::empty(), s, b);
    assert(t + Seq::<char>::empty() =~= t);
}

/// The owned pages are told about.
pub proof fn law_owned_pages_are_told(t: Seq<char>, s: &ReportInput)
    ensures
        tells(with_radix(t, s), item_line("l1 nodes"@, decimal(s.radix.l1_nodes as int))),
        tells(with_radix(t, s), item_line("l2 nodes"@, decimal(s.radix.l2_nodes as int))),
        tells(with_radix(t, s), item_line("leaves"@, decimal(s.radix.leaves as int))),
        tells(with_radix(t, s), item_line("owned chunks"@, decimal(s.radix.owned_chunks as int))),
        tells(with_radix(t, s), item_line("chunk size"@, text::bytes_text(CHUNK_SIZE as int))),
        tells(
            with_radix(t, s),
            item_line(
                "owned bytes"@,
                text::bytes_text(debug::capped(s.radix.owned_chunks * CHUNK_SIZE)),
            ),
        ),
        tells(
            with_radix(t, s),
            item_line("metadata"@, text::bytes_text(s.radix.metadata_bytes as int)),
        ),
        tells(with_radix(t, s), item_line("metadata / chunk"@, s.metadata_per_chunk@ + " bytes"@)),
        with_radix(t, s) == t + with_radix(Seq::empty(), s),
{
    broadcast use {lemma_line_keeps, lemma_item_keeps, lemma_item_told, lemma_section_keeps};

    lemma_radix_append(t, Seq::empty(), s);
    assert(t + Seq::<char>::empty() =~= t);
}

/// Each size class has its row.
pub proof fn law_classes_are_told(t: Seq<char>, s: &ReportInput)
    ensures
        forall|k: int|
            0 <= k < s.class_sizes@.len() ==> #[trigger] tells(with_classes(t, s), class_row(s, k)),
        with_classes(t, s) == t + with_classes(Seq::empty(), s),
{
    let n = s.class_sizes@.len() as int;
    let t1 = with_line(
        with_section(t, "size classes"@),
        "  cls  size       refills  cached      cpus       min        max        avg"@,
    );
    assert forall|k: int| 0 <= k < n implies #[trigger] tells(
        with_classes(t, s),
        class_row(s, k),
    ) by {
        lemma_class_told(t1, s, n, k, Seq::empty());
    }
    lemma_classes_append(t, Seq::empty(), s);
    assert(t + Seq::<char>::empty() =~= t);
}

/// Each size class has its hints.
pub proof fn law_hints_are_told(t: Seq<char>, s: &ReportInput)
    ensures
        forall|k: int|
            0 <= k < s.class_sizes@.len() ==> #[trigger] tells(with_hints(t, s), hint_row(s, k)),
        with_hints(t, s) == t + with_hints(Seq::empty(), s),
{
    let n = s.class_sizes@.len() as int;
    let t1 = with_line(
        with_section(t, "transfer class hints"@),
        "  1 = hinted nonempty, 0 = no nonempty hint"@,
    );
    assert forall|k: int| 0 <= k < n implies #[trigger] tells(with_hints(t, s), hint_row(s, k)) by {
        lemma_hint_told(t1, s, n, k, Seq::empty());
    }
    lemma_hints_append(t, Seq::empty(), s);
    assert(t + Seq::<char>::empty() =~= t);
}

/// The report is its sections, one after the other.
#[verifier::rlimit(50)]
pub proof fn law_report_is_its_sections(s: &ReportInput, b: &BuddyBackendReport)
    ensures
        ({
            let e = Seq::<char>::empty();
            let locks = match s.locks {
                Some(l) => with_locks(e, l),
                None => e,
            };
            let transfer = match s.transfer {
                Some(x) => with_transfer(e, x),
                None => e,
            };
            report_text(s, b) == with_line(e, "rsmalloc statistics"@) + with_process(e, s)
                + with_numa(e, s) + with_rseq(e, s) + locks + with_memory(e, s) + with_cpus(e, s)
                + with_classes(e, s) + transfer + with_hints(e, s) + with_trim(e, s) + with_buddy(
                e,
                s,
                b,
            ) + with_radix(e, s)
        }),
{
    let e = Seq::<char>::empty();
    let t0 = with_line(e, "rsmalloc statistics"@);
    let t1 = lemma_first_sections(t0, s);
    let t2 = match s.locks {
        Some(l) => with_locks(t1, l),
        None => t1,
    };
    assert(t1 + e =~= t1);
    if s.locks is Some {
        lemma_locks_append(t1, e, s.locks->0);
    }
    let t3 = lemma_middle_sections(t2, s);
    let t4 = match s.transfer {
        Some(x) => with_transfer(t3, x),
        None => t3,
    };
    assert(t3 + e =~= t3);
    if s.transfer is Some {
        lemma_transfer_append(t3, e, s.transfer->0);
    }
    lemma_last_sections(t4, s, b);
}

proof fn lemma_first_sections(t: Seq<char>, s: &ReportInput) -> (u: Seq<char>)
    ensures
        u == with_rseq(with_numa(with_process(t, s), s), s),
        u == t + with_process(Seq::empty(), s) + with_numa(Seq::empty(), s) + with_rseq(
            Seq::empty(),
            s,
        ),
{
    let e = Seq::<char>::empty();
    let a = with_process(t, s);
    let b = with_numa(a, s);
    assert(t + e =~= t && a + e =~= a && b + e =~= b);
    lemma_process_append(t, e, s);
    lemma_numa_append(a, e, s);
    lemma_rseq_append(b, e, s);
    with_rseq(b, s)
}

proof fn lemma_middle_sections(t: Seq<char>, s: &ReportInput) -> (u: Seq<char>)
    ensures
        u == with_classes(with_cpus(with_memory(t, s), s), s),
        u == t + with_memory(Seq::empty(), s) + with_cpus(Seq::empty(), s) + with_classes(
            Seq::empty(),
            s,
        ),
{
    let e = Seq::<char>::empty();
    let a = with_memory(t, s);
    let b = with_cpus(a, s);
    assert(t + e =~= t && a + e =~= a && b + e =~= b);
    lemma_memory_append(t, e, s);
    lemma_cpus_append(a, e, s);
    lemma_classes_append(b, e, s);
    with_classes(b, s)
}

proof fn lemma_last_sections(t: Seq<char>, s: &ReportInput, b: &BuddyBackendReport)
    ensures
        with_radix(with_buddy(with_trim(with_hints(t, s), s), s, b), s) == t + with_hints(
            Seq::empty(),
            s,
        ) + with_trim(Seq::empty(), s) + with_buddy(Seq::empty(), s, b) + with_radix(
            Seq::empty(),
            s,
        ),
{
    let e = Seq::<char>::empty();
    let x = with_hints(t, s);
    let y = with_trim(x, s);
    let z = with_buddy(y, s, b);
    assert(t + e =~= t && x + e =~= x && y + e =~= y && z + e =~= z);
    lemma_hints_append(t, e, s);
    lemma_trim_append(x, e, s);
    lemma_buddy_append(y, e, s, b);
    lemma_radix_append(z, e, s);
}

/// The cycles of one block on average, times the blocks, are the cycles, up to less than a cycle for
/// each block.
pub proof fn law_cycles_per_block(x: TrimCounters)
    ensures
        x.blocks > 0 ==> cycles_per_block(x) * x.blocks <= x.cycles < (cycles_per_block(x) + 1)
            * x.blocks,
        x.blocks == 0 ==> cycles_per_block(x) == x.cycles,
{
    if x.blocks > 0 {
        let c = x.cycles as int;
        let n = x.blocks as int;
        vstd::arithmetic::div_mod::lemma_fundamental_div_mod(c, n);
        vstd::arithmetic::div_mod::lemma_mod_bound(c, n);
        let q = c / n;
        assert(q * n <= c < (q + 1) * n) by (nonlinear_arith)
            requires
                c == n * q + c % n,
                0 <= c % n < n,
        ;
    }
}

/// Refills that were not predicted well are those that were predicted too low and too high, as far as
/// the sum fits.
pub proof fn law_misses(s: &ReportInput)
    ensures
        misses_of(s) <= s.counters.refill_under_predicts + s.counters.refill_over_predicts,
        misses_of(s) >= s.counters.refill_under_predicts,
        misses_of(s) >= s.counters.refill_over_predicts,
        s.counters.refill_under_predicts + s.counters.refill_over_predicts <= usize::MAX
            ==> misses_of(s) == s.counters.refill_under_predicts
            + s.counters.refill_over_predicts,
{
}

/// The columns of the row of a size class: number, size, refills, what is cached, the processors that
/// hold some of all, and the least, the most and the average that they hold.
pub proof fn law_class_columns(s: &ReportInput, c: int)
    requires
        decimal(c).len() <= 3,
        text::short_bytes_text(s.class_sizes@[c] as int).len() <= 9,
        decimal(s.class_refills@[c] as int).len() <= 7,
        text::short_bytes_text(debug::class_usage(s.class_bytes@[c]@).cached as int).len() <= 10,
        decimal(debug::class_usage(s.class_bytes@[c]@).active as int).len() <= 3,
        decimal(s.cpu_bytes@.len() as int).len() <= 3,
        text::short_bytes_text(debug::class_usage(s.class_bytes@[c]@).min as int).len() <= 9,
        text::short_bytes_text(debug::class_usage(s.class_bytes@[c]@).max as int).len() <= 9,
    ensures
        ({
            let u = debug::class_usage(s.class_bytes@[c]@);
            let row = class_row(s, c);
            &&& row.subrange(2, 5) == text::pad_left(decimal(c), 3)
            &&& row.subrange(7, 16) == text::pad_right(
                text::short_bytes_text(s.class_sizes@[c] as int),
                9,
            )
            &&& row.subrange(17, 24) == text::pad_left(decimal(s.class_refills@[c] as int), 7)
            &&& row.subrange(26, 36) == text::pad_right(
                text::short_bytes_text(u.cached as int),
                10,
            )
            &&& row.subrange(37, 40) == text::pad_left(decimal(u.active as int), 3)
            &&& row[40] == '/'
            &&& row.subrange(41, 44) == text::pad_right(decimal(s.cpu_bytes@.len() as int), 3)
            &&& row.subrange(46, 55) == text::pad_right(text::short_bytes_text(u.min as int), 9)
            &&& row.subrange(57, 66) == text::pad_right(text::short_bytes_text(u.max as int), 9)
            &&& row.skip(68) == text::short_bytes_text(u.avg as int)
        }),
{
    reveal_strlit("  ");
    reveal_strlit(" ");
    reveal_strlit("/");
    let u = debug::class_usage(s.class_bytes@[c]@);
    let row = class_row(s, c);
    assert(row.subrange(2, 5) =~= text::pad_left(decimal(c), 3));
    assert(row.subrange(7, 16) =~= text::pad_right(
        text::short_bytes_text(s.class_sizes@[c] as int),
        9,
    ));
    assert(row.subrange(17, 24) =~= text::pad_left(decimal(s.class_refills@[c] as int), 7));
    assert(row.subrange(26, 36) =~= text::pad_right(text::short_bytes_text(u.cached as int), 10));
    assert(row.subrange(37, 40) =~= text::pad_left(decimal(u.active as int), 3));
    assert(row.subrange(41, 44) =~= text::pad_right(decimal(s.cpu_bytes@.len() as int), 3));
    assert(row.subrange(46, 55) =~= text::pad_right(text::short_bytes_text(u.min as int), 9));
    assert(row.subrange(57, 66) =~= text::pad_right(text::short_bytes_text(u.max as int), 9));
    assert(row.skip(68) =~= text::short_bytes_text(u.avg as int));
}

/// The columns of the hints of a size class: number, size and the hints.
pub proof fn law_hint_columns(s: &ReportInput, c: int)
    requires
        decimal(c).len() <= 3,
        text::short_bytes_text(s.class_sizes@[c] as int).len() <= 9,
    ensures
        hint_row(s, c).subrange(2, 5) == text::pad_left(decimal(c), 3),
        hint_row(s, c).subrange(7, 16) == text::pad_right(
            text::short_bytes_text(s.class_sizes@[c] as int),
            9,
        ),
        hint_row(s, c).skip(17) == s.class_hints@[c]@,
{
    reveal_strlit("  ");
    reveal_strlit(" ");
    let row = hint_row(s, c);
    assert(row.subrange(2, 5) =~= text::pad_left(decimal(c), 3));
    assert(row.subrange(7, 16) =~= text::pad_right(
        text::short_bytes_text(s.class_sizes@[c] as int),
        9,
    ));
    assert(row.skip(17) =~= s.class_hints@[c]@);
}

/// The columns of the row of an order: the order, the size of its blocks, how many are free, how many
/// of those were never handed out, used before and trimmed, and their bytes.
pub proof fn law_order_columns(b: &BuddyBackendReport, i: int)
    requires
        decimal(22 + i).len() <= 5,
        text::bytes_text(debug::order_bytes(1, i)).len() <= 26,
        decimal(b.free_blocks@[i] as int).len() <= 6,
        decimal(b.never_allocated_by_order@[i] as int).len() <= 5,
        decimal(b.reused_by_order@[i] as int).len() <= 6,
        decimal(b.trimmed_by_order@[i] as int).len() <= 7,
    ensures
        ({
            let row = order_row(b, i);
            &&& row.subrange(2, 7) == text::pad_right(decimal(22 + i), 5)
            &&& row.subrange(9, 35) == text::pad_right(
                text::bytes_text(debug::order_bytes(1, i)),
                26,
            )
            &&& row.subrange(36, 42) == text::pad_left(decimal(b.free_blocks@[i] as int), 6)
            &&& row.subrange(44, 49) == text::pad_left(
                decimal(b.never_allocated_by_order@[i] as int),
                5,
            )
            &&& row.subrange(51, 57) == text::pad_left(decimal(b.reused_by_order@[i] as int), 6)
            &&& row.subrange(59, 66) == text::pad_left(decimal(b.trimmed_by_order@[i] as int), 7)
            &&& row.skip(68) == text::bytes_text(debug::order_bytes(b.free_blocks@[i] as int, i))
        }),
{
    reveal_strlit("  ");
    reveal_strlit(" ");
    let row = order_row(b, i);
    assert(row.subrange(2, 7) =~= text::pad_right(decimal(22 + i), 5));
    assert(row.subrange(9, 35) =~= text::pad_right(text::bytes_text(debug::order_bytes(1, i)), 26));
    assert(row.subrange(36, 42) =~= text::pad_left(decimal(b.free_blocks@[i] as int), 6));
    assert(row.subrange(44, 49) =~= text::pad_left(
        decimal(b.never_allocated_by_order@[i] as int),
        5,
    ));
    assert(row.subrange(51, 57) =~= text::pad_left(decimal(b.reused_by_order@[i] as int), 6));
    assert(row.subrange(59, 66) =~= text::pad_left(decimal(b.trimmed_by_order@[i] as int), 7));
    assert(row.skip(68) =~= text::bytes_text(debug::order_bytes(b.free_blocks@[i] as int, i)));
}

/// A range of processors is told by its node and by its first and its last processor.
pub proof fn law_range_text(r: NumaCpuRange)
    ensures
        ({
            let t = range_text(r);
            let node = decimal(r.node_id as int);
            let first = decimal(r.start_cpu as int);
            let last = decimal(r.end_cpu as int);
            let n = node.len() as int;
            let f = first.len() as int;
            &&& t.subrange(5, 5 + n) == node
            &&& t.subrange(12 + n, 12 + n + f) == first
            &&& t[12 + n + f] == '-'
            &&& t.skip(13 + n + f) == last
        }),
{
    reveal_strlit("node ");
    reveal_strlit(", cpus ");
    reveal_strlit("-");
    let t = range_text(r);
    let node = decimal(r.node_id as int);
    let first = decimal(r.start_cpu as int);
    let n = node.len() as int;
    let f = first.len() as int;
    assert(t.subrange(5, 5 + n) =~= node);
    assert(t.subrange(12 + n, 12 + n + f) =~= first);
    assert(t.skip(13 + n + f) =~= decimal(r.end_cpu as int));
}

} // verus!
