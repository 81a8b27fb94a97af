//! Lists of processors and memory nodes as the kernel prints them.

use vstd::prelude::*;

verus! {

/// Marks a processor that no node lists.
pub const INVALID_NODE: u16 = 0xffff;

/// Inclusive range of numbers.
#[derive(Clone, Copy, Debug, PartialEq, Eq, Structural)]
pub struct NumberRange {
    pub start: usize,
    pub end: usize,
}

/// A list could not be read.
#[derive(Clone, Copy, Debug, PartialEq, Eq, Structural)]
pub struct ParseListError;

impl NumberRange {
    /// A range, unless it would run backwards.
    pub fn new(start: usize, end: usize) -> (r: Option<Self>)
        ensures
            r == (if start <= end {
                Some(NumberRange { start, end })
            } else {
                None
            }),
    {
        if start <= end {
            Some(NumberRange { start, end })
        } else {
            None
        }
    }

    /// Walks the numbers of the range.
    pub fn iter(self) -> (r: NumberRangeIter)
        ensures
            r == (NumberRangeIter { next: self.start, end: self.end, finished: false }),
    {
        NumberRangeIter { next: self.start, end: self.end, finished: false }
    }
}

/// Numbers of a range that are still to come.
#[derive(Clone, Copy, Debug, PartialEq, Eq, Structural)]
pub struct NumberRangeIter {
    pub next: usize,
    pub end: usize,
    pub finished: bool,
}

impl NumberRangeIter {
    /// The numbers that are still to come, when the range does not run backwards.
    pub open spec fn rest(&self) -> Seq<usize> {
        if self.finished {
            Seq::empty()
        } else {
            Seq::new((self.end - self.next + 1) as nat, |i: int| (self.next + i) as usize)
        }
    }

    pub open spec fn wf(&self) -> bool {
        self.next <= self.end
    }

    /// The next number.
    pub fn next(&mut self) -> (r: Option<usize>)
        requires
            old(self).wf(),
        ensures
            final(self).wf(),
            final(self).end == old(self).end,
            old(self).rest().len() == 0 ==> r is None && final(self).rest() == old(self).rest(),
            old(self).rest().len() > 0 ==> r == Some(old(self).rest()[0]) && final(self).rest()
                == old(self).rest().subrange(1, old(self).rest().len() as int),
    {
        if self.finished {
            return None;
        }
        let item: usize = self.next;
        self.finished = item == self.end;
        if !self.finished {
            self.next = self.next + 1;
        }
        assert(self.rest() =~= old(self).rest().subrange(1, old(self).rest().len() as int));
        Some(item)
    }
}

/// Blank, tab, line feed, form feed or carriage return.
pub open spec fn is_space(b: u8) -> bool {
    b == 0x20 || b == 0x09 || b == 0x0a || b == 0x0c || b == 0x0d
}

/// Decimal digit.
pub open spec fn is_digit(b: u8) -> bool {
    0x30 <= b <= 0x39
}

/// The first place from `i` on that is not white space.
pub open spec fn skip(s: Seq<u8>, i: int) -> int
    decreases s.len() - i,
{
    if 0 <= i < s.len() && is_space(s[i]) {
        skip(s, i + 1)
    } else {
        i
    }
}

/// The first place from `i` on that is not a digit.
pub open spec fn digits_end(s: Seq<u8>, i: int) -> int
    decreases s.len() - i,
{
    if 0 <= i < s.len() && is_digit(s[i]) {
        digits_end(s, i + 1)
    } else {
        i
    }
}

/// The number that the digits from `i` to `j` spell.
pub open spec fn number(s: Seq<u8>, i: int, j: int) -> int
    decreases j - i,
{
    if j <= i {
        0
    } else {
        number(s, i, j - 1) * 10 + (s[j - 1] - 0x30)
    }
}

/// A number that fits stands at `i`.
pub open spec fn has_number(s: Seq<u8>, i: int) -> bool {
    digits_end(s, i) > i && number(s, i, digits_end(s, i)) <= usize::MAX
}

/// The number that stands at `i`.
pub open spec fn number_at(s: Seq<u8>, i: int) -> int {
    number(s, i, digits_end(s, i))
}

/// What stands at a place in a list.
pub enum Item {
    /// Nothing more.
    End,
    /// A range, and where the list goes on behind it.
    Range(NumberRange, int),
    /// Something that is no list.
    Malformed,
}

/// What follows the last number of an item: the end of the list, or a comma and another item.
pub open spec fn item_tail(s: Seq<u8>, first: int, last: int, i: int) -> Item {
    let d = skip(s, i);
    let range = NumberRange { start: first as usize, end: last as usize };
    if d >= s.len() {
        if first <= last {
            Item::Range(range, d)
        } else {
            Item::Malformed
        }
    } else if s[d] == 0x2c && skip(s, d + 1) < s.len() && first <= last {
        Item::Range(range, skip(s, d + 1))
    } else {
        Item::Malformed
    }
}

/// The item at `i`: a number, or two with a dash between them, white space being allowed anywhere
/// but inside a number.
pub open spec fn item_at(s: Seq<u8>, i: int) -> Item {
    let a = skip(s, i);
    if a >= s.len() {
        Item::End
    } else if !has_number(s, a) {
        Item::Malformed
    } else {
        let b = skip(s, digits_end(s, a));
        if b < s.len() && s[b] == 0x2d {
            let c = skip(s, b + 1);
            if has_number(s, c) {
                item_tail(s, number_at(s, a), number_at(s, c), digits_end(s, c))
            } else {
                Item::Malformed
            }
        } else {
            item_tail(s, number_at(s, a), number_at(s, a), b)
        }
    }
}

proof fn lemma_skip(s: Seq<u8>, i: int)
    requires
        0 <= i,
    ensures
        i <= skip(s, i),
        i <= s.len() ==> skip(s, i) <= s.len(),
        skip(s, skip(s, i)) == skip(s, i),
    decreases s.len() - i,
{
    if i < s.len() && is_space(s[i]) {
        lemma_skip(s, i + 1);
    }
}

pub proof fn lemma_digits(s: Seq<u8>, i: int)
    requires
        0 <= i,
    ensures
        i <= digits_end(s, i),
        i <= s.len() ==> digits_end(s, i) <= s.len(),
    decreases s.len() - i,
{
    if i < s.len() && is_digit(s[i]) {
        lemma_digits(s, i + 1);
    }
}

/// More digits never make a smaller number.
pub proof fn lemma_number_grows(s: Seq<u8>, i: int, j: int, k: int)
    requires
        0 <= i <= j <= k <= s.len(),
        forall|x: int| i <= x < k ==> is_digit(#[trigger] s[x]),
    ensures
        0 <= number(s, i, j) <= number(s, i, k),
    decreases k - i,
{
    if k > j {
        lemma_number_grows(s, i, j, k - 1);
    } else if k > i {
        lemma_number_grows(s, i, j - 1, k - 1);
    }
}

pub proof fn lemma_digits_all(s: Seq<u8>, i: int, j: int)
    requires
        0 <= i <= j <= s.len(),
        forall|x: int| i <= x < j ==> is_digit(#[trigger] s[x]),
    ensures
        digits_end(s, i) == digits_end(s, j),
    decreases j - i,
{
    if i < j {
        lemma_digits_all(s, i + 1, j);
    }
}

pub proof fn lemma_between_digits(s: Seq<u8>, i: int)
    requires
        0 <= i <= s.len(),
    ensures
        forall|x: int| i <= x < digits_end(s, i) ==> is_digit(#[trigger] s[x]),
    decreases s.len() - i,
{
    if i < s.len() && is_digit(s[i]) {
        lemma_between_digits(s, i + 1);
        lemma_digits(s, i + 1);
    }
}

/// Ranges of a list that are still to be read.
pub struct NumberRangeList<'a> {
    bytes: &'a [u8],
    index: usize,
    finished: bool,
}

impl<'a> NumberRangeList<'a> {
    pub closed spec fn text(&self) -> Seq<u8> {
        self.bytes@
    }

    /// Where the list goes on.
    pub closed spec fn place(&self) -> int {
        self.index as int
    }

    /// The list was read to its end or to something malformed.
    pub closed spec fn is_finished(&self) -> bool {
        self.finished
    }

    pub open spec fn wf(&self) -> bool {
        0 <= self.place() <= self.text().len()
    }

    pub fn new(bytes: &'a [u8]) -> (r: Self)
        ensures
            r.wf(),
            r.text() == bytes@,
            r.place() == 0,
            !r.is_finished(),
    {
        NumberRangeList { bytes, index: 0, finished: false }
    }

    fn skip_ascii_whitespace(&mut self)
        requires
            old(self).wf(),
        ensures
            final(self).wf(),
            final(self).text() == old(self).text(),
            final(self).is_finished() == old(self).is_finished(),
            final(self).place() == skip(old(self).text(), old(self).place()),
    {
        while self.index < self.bytes.len() && (self.bytes[self.index] == 0x20
            || self.bytes[self.index] == 0x09 || self.bytes[self.index] == 0x0a
            || self.bytes[self.index] == 0x0c || self.bytes[self.index] == 0x0d)
            invariant
                self.wf(),
                self.text() == old(self).text(),
                self.is_finished() == old(self).is_finished(),
                skip(self.text(), self.place()) == skip(old(self).text(), old(self).place()),
            decreases self.bytes.len() - self.index,
        {
            self.index = self.index + 1;
        }
    }

    fn parse_usize(&mut self) -> (r: Option<usize>)
        requires
            old(self).wf(),
        ensures
            final(self).wf(),
            final(self).text() == old(self).text(),
            final(self).is_finished() == old(self).is_finished(),
            r is Some <==> has_number(old(self).text(), old(self).place()),
            r matches Some(n) ==> n == number_at(old(self).text(), old(self).place())
                && final(self).place() == digits_end(old(self).text(), old(self).place()),
    {
        let ghost s = self.text();
        let ghost from = self.place();
        let mut n: usize = 0;
        let mut parsed_digit: bool = false;
        proof {
            lemma_between_digits(s, from);
            lemma_digits(s, from);
        }
        while self.index < self.bytes.len() && 0x30 <= self.bytes[self.index]
            && self.bytes[self.index] <= 0x39
            invariant
                self.wf(),
                s == self.text(),
                s == old(self).text(),
                from == old(self).place(),
                0 <= from <= self.place(),
                self.is_finished() == old(self).is_finished(),
                parsed_digit == (self.place() > from),
                n == number(s, from, self.place()),
                forall|x: int| from <= x < self.place() ==> is_digit(#[trigger] s[x]),
                forall|x: int| from <= x < digits_end(s, from) ==> is_digit(#[trigger] s[x]),
                digits_end(s, from) <= s.len(),
            decreases self.bytes.len() - self.index,
        {
            proof {
                lemma_digits_all(s, from, self.place() + 1);
                lemma_digits(s, self.place() + 1);
                lemma_number_grows(s, from, self.place() + 1, digits_end(s, from));
                assert(number(s, from, self.place() + 1) == number(s, from, self.place()) * 10 + (
                s[self.place()] - 0x30));
            }
            let digit: u8 = self.bytes[self.index] - 0x30;
            let tenfold: usize = match n.checked_mul(10) {
                Some(t) => t,
                None => {
                    return None;
                },
            };
            n = match tenfold.checked_add(digit as usize) {
                Some(t) => t,
                None => {
                    return None;
                },
            };
            self.index = self.index + 1;
            parsed_digit = true;
        }
        proof {
            lemma_digits_all(s, from, self.place());
        }
        if parsed_digit {
            Some(n)
        } else {
            None
        }
    }

    fn parse_range(&mut self) -> (r: Result<Option<NumberRange>, ParseListError>)
        requires
            old(self).wf(),
        ensures
            final(self).wf(),
            final(self).text() == old(self).text(),
            final(self).is_finished() == old(self).is_finished(),
            match item_at(old(self).text(), old(self).place()) {
                Item::End => r == Ok::<Option<NumberRange>, ParseListError>(None),
                Item::Range(range, next) => r == Ok::<Option<NumberRange>, ParseListError>(
                    Some(range),
                ) && final(self).place() == next,
                Item::Malformed => r is Err,
            },
    {
        let ghost s = self.text();
        proof {
            lemma_skip(s, self.place());
        }
        self.skip_ascii_whitespace();
        if self.index >= self.bytes.len() {
            return Ok(None);
        }
        let start: usize = match self.parse_usize() {
            Some(n) => n,
            None => {
                return Err(ParseListError);
            },
        };
        proof {
            lemma_skip(s, self.place());
        }
        self.skip_ascii_whitespace();
        let end: usize = if self.index < self.bytes.len() && self.bytes[self.index] == 0x2d {
            self.index = self.index + 1;
            self.skip_ascii_whitespace();
            match self.parse_usize() {
                Some(n) => n,
                None => {
                    return Err(ParseListError);
                },
            }
        } else {
            start
        };
        proof {
            lemma_skip(s, self.place());
        }
        self.skip_ascii_whitespace();
        if self.index < self.bytes.len() {
            if self.bytes[self.index] != 0x2c {
                return Err(ParseListError);
            }
            self.index = self.index + 1;
            self.skip_ascii_whitespace();
            if self.index >= self.bytes.len() {
                return Err(ParseListError);
            }
        }
        match NumberRange::new(start, end) {
            Some(range) => Ok(Some(range)),
            None => Err(ParseListError),
        }
    }

    /// The next range, or the error that ends the list.
    pub fn next(&mut self) -> (r: Option<Result<NumberRange, ParseListError>>)
        requires
            old(self).wf(),
        ensures
            final(self).wf(),
            final(self).text() == old(self).text(),
            old(self).is_finished() ==> r is None && final(self).is_finished(),
            !old(self).is_finished() ==> match item_at(old(self).text(), old(self).place()) {
                Item::End => r is None && final(self).is_finished(),
                Item::Range(range, next) => r == Some(Ok::<NumberRange, ParseListError>(range))
                    && final(self).place() == next && !final(self).is_finished(),
                Item::Malformed => r == Some(Err::<NumberRange, ParseListError>(ParseListError))
                    && final(self).is_finished(),
            },
    {
        if self.finished {
            return None;
        }
        match self.parse_range() {
            Ok(Some(range)) => Some(Ok(range)),
            Ok(None) => {
                self.finished = true;
                None
            },
            Err(err) => {
                self.finished = true;
                Some(Err(err))
            },
        }
    }
}

/// Reads a list range by range.
pub fn parse_number_ranges<'a>(bytes: &'a [u8]) -> (r: NumberRangeList<'a>)
    ensures
        r.wf(),
        r.text() == bytes@,
        r.place() == 0,
        !r.is_finished(),
{
    NumberRangeList::new(bytes)
}

/// Every item lies behind the place where it was looked for.
proof fn lemma_item_moves(s: Seq<u8>, i: int)
    requires
        0 <= i <= s.len(),
    ensures
        item_at(s, i) matches Item::Range(range, next) ==> i < next <= s.len() && range.start
            <= range.end,
{
    let a = skip(s, i);
    lemma_skip(s, i);
    if a < s.len() && has_number(s, a) {
        lemma_digits(s, a);
        let e = digits_end(s, a);
        lemma_skip(s, e);
        let b = skip(s, e);
        lemma_number_fits(s, a);
        if b < s.len() && s[b] == 0x2d {
            let c = skip(s, b + 1);
            lemma_skip(s, b + 1);
            if has_number(s, c) {
                lemma_number_fits(s, c);
                lemma_digits(s, c);
                let d = skip(s, digits_end(s, c));
                lemma_skip(s, digits_end(s, c));
                if d < s.len() {
                    lemma_skip(s, d + 1);
                }
            }
        } else {
            let d = skip(s, b);
            lemma_skip(s, b);
            if d < s.len() {
                lemma_skip(s, d + 1);
            }
        }
    }
}

proof fn lemma_number_fits(s: Seq<u8>, i: int)
    requires
        0 <= i <= s.len(),
        has_number(s, i),
    ensures
        0 <= number_at(s, i) <= usize::MAX,
{
    lemma_digits(s, i);
    lemma_between_digits(s, i);
    lemma_number_grows(s, i, i, digits_end(s, i));
}

/// The ranges of the list from `i` on, unless something malformed stands in it.
pub open spec fn ranges_from(s: Seq<u8>, i: int) -> Option<Seq<NumberRange>>
    decreases s.len() - i,
{
    match item_at(s, i) {
        Item::End => Some(Seq::empty()),
        Item::Malformed => None,
        Item::Range(range, next) => if i < next <= s.len() {
            match ranges_from(s, next) {
                Some(rest) => Some(seq![range] + rest),
                None => None,
            }
        } else {
            None
        },
    }
}

/// The numbers of a range.
pub open spec fn expand(range: NumberRange) -> Seq<usize> {
    Seq::new((range.end - range.start + 1) as nat, |i: int| (range.start + i) as usize)
}

/// The numbers of all ranges, in order.
pub open spec fn expand_all(ranges: Seq<NumberRange>) -> Seq<usize>
    decreases ranges.len(),
{
    if ranges.len() == 0 {
        Seq::empty()
    } else {
        expand(ranges[0]) + expand_all(ranges.subrange(1, ranges.len() as int))
    }
}

/// Numbers of a list that are still to be read.
pub struct NumberList<'a> {
    ranges: NumberRangeList<'a>,
    pending: Option<NumberRangeIter>,
}

impl<'a> NumberList<'a> {
    pub closed spec fn text(&self) -> Seq<u8> {
        self.ranges.text()
    }

    pub closed spec fn place(&self) -> int {
        self.ranges.place()
    }

    pub closed spec fn is_finished(&self) -> bool {
        self.ranges.is_finished()
    }

    /// Numbers of the range that is being walked.
    pub closed spec fn pending(&self) -> Seq<usize> {
        match self.pending {
            Some(iter) => iter.rest(),
            None => Seq::empty(),
        }
    }

    pub closed spec fn wf(&self) -> bool {
        &&& self.ranges.wf()
        &&& self.pending matches Some(iter) ==> iter.wf()
    }

    pub fn new(bytes: &'a [u8]) -> (r: Self)
        ensures
            r.wf(),
            r.text() == bytes@,
            r.place() == 0,
            !r.is_finished(),
            r.pending().len() == 0,
    {
        NumberList { ranges: NumberRangeList::new(bytes), pending: None }
    }

    /// The next number, or the error that ends the list.
    pub fn next(&mut self) -> (r: Option<Result<usize, ParseListError>>)
        requires
            old(self).wf(),
        ensures
            final(self).wf(),
            final(self).text() == old(self).text(),
            old(self).pending().len() > 0 ==> {
                &&& r == Some(Ok::<usize, ParseListError>(old(self).pending()[0]))
                &&& final(self).pending() == old(self).pending().subrange(
                    1,
                    old(self).pending().len() as int,
                )
                &&& final(self).place() == old(self).place()
                &&& final(self).is_finished() == old(self).is_finished()
            },
            old(self).pending().len() == 0 && old(self).is_finished() ==> r is None
                && final(self).is_finished() && final(self).pending().len() == 0,
            old(self).pending().len() == 0 && !old(self).is_finished() ==> match item_at(
                old(self).text(),
                old(self).place(),
            ) {
                Item::End => r is None && final(self).is_finished() && final(self).pending().len()
                    == 0,
                Item::Malformed => r == Some(Err::<usize, ParseListError>(ParseListError))
                    && final(self).is_finished() && final(self).pending().len() == 0,
                Item::Range(range, next) => {
                    &&& r == Some(Ok::<usize, ParseListError>(range.start))
                    &&& expand(range) == seq![range.start] + final(self).pending()
                    &&& final(self).place() == next
                    &&& !final(self).is_finished()
                },
            },
    {
        proof {
            lemma_item_moves(self.text(), self.place());
        }
        if let Some(mut range) = self.pending {
            let item = range.next();
            self.pending = Some(range);
            if let Some(item) = item {
                return Some(Ok(item));
            }
        }
        self.pending = None;
        match self.ranges.next() {
            None => None,
            Some(Ok(range)) => {
                let mut iter = range.iter();
                assert(iter.rest() =~= expand(range));
                let first = iter.next();
                proof {
                    assert(expand(range) =~= seq![range.start] + iter.rest());
                }
                self.pending = Some(iter);
                match first {
                    Some(item) => Some(Ok(item)),
                    None => None,
                }
            },
            Some(Err(err)) => Some(Err(err)),
        }
    }
}

/// Reads a list number by number.
pub fn parse_number_list<'a>(bytes: &'a [u8]) -> (r: NumberList<'a>)
    ensures
        r.wf(),
        r.text() == bytes@,
        r.place() == 0,
        !r.is_finished(),
        r.pending().len() == 0,
{
    NumberList::new(bytes)
}

/// The part of a range that names existing processors.
pub fn clipped_cpu_range(range: NumberRange, ncpu: usize) -> (r: Option<NumberRange>)
    ensures
        r == (if ncpu == 0 || range.start >= ncpu {
            None
        } else {
            Some(
                NumberRange {
                    start: range.start,
                    end: if range.end < ncpu - 1 {
                        range.end
                    } else {
                        (ncpu - 1) as usize
                    },
                },
            )
        }),
{
    if ncpu == 0 || range.start >= ncpu {
        return None;
    }
    Some(
        NumberRange {
            start: range.start,
            end: if range.end < ncpu - 1 {
                range.end
            } else {
                ncpu - 1
            },
        },
    )
}

/// The processors of a memory node, from the first to the last.
#[derive(Clone, Copy, Debug, PartialEq, Eq, Structural)]
pub struct NumaCpuRange {
    pub node_id: u16,
    pub start_cpu: usize,
    pub end_cpu: usize,
}

/// Which processors belong to which memory node.
pub struct NumaTopology {
    /// The node of each processor.
    pub cpu_to_node: Vec<u16>,
    /// The nodes that exist.
    pub node_ids: Vec<u16>,
    /// The processors of each node number up to the largest one.
    pub cpu_ranges: Vec<NumaCpuRange>,
}

/// The node of a processor once unknown nodes are replaced by the first one.
pub open spec fn settled_node(node: u16, nranges: int) -> u16 {
    if node == INVALID_NODE || node >= nranges {
        0
    } else {
        node
    }
}

/// Processor `e` is the last one below `hi` of a node.
pub open spec fn last_of(cpus: Seq<u16>, node: int, hi: int, e: int) -> bool {
    &&& 0 <= e < hi
    &&& cpus[e] == node
    &&& forall|c: int| e < c < hi ==> #[trigger] cpus[c] != node
}

/// Processor `b` is the first one below `hi` of a node.
pub open spec fn first_of(cpus: Seq<u16>, node: int, hi: int, b: int) -> bool {
    &&& 0 <= b < hi
    &&& cpus[b] == node
    &&& forall|c: int| 0 <= c < b ==> #[trigger] cpus[c] != node
}

/// No processor below `hi` belongs to a node.
pub open spec fn none_of(cpus: Seq<u16>, node: int, hi: int) -> bool {
    forall|c: int| 0 <= c < hi ==> #[trigger] cpus[c] != node
}

/// The range of a node after the processors below `hi` were recorded in it.
pub open spec fn recorded(
    cpus: Seq<u16>,
    node: int,
    hi: int,
    before: NumaCpuRange,
    after: NumaCpuRange,
) -> bool {
    if none_of(cpus, node, hi) {
        after == before
    } else {
        &&& after.node_id == before.node_id
        &&& last_of(cpus, node, hi, after.end_cpu as int)
        &&& if before.start_cpu == usize::MAX {
            first_of(cpus, node, hi, after.start_cpu as int)
        } else {
            after.start_cpu == before.start_cpu
        }
    }
}

/// Sends processors of unknown nodes to the first node and records the processors of each node. A
/// range that starts out of bounds is open; one that stays open since its node has no processor
/// becomes zero.
pub fn populate_cpu_ranges(cpu_to_node: &mut Vec<u16>, cpu_ranges: &mut Vec<NumaCpuRange>)
    requires
        old(cpu_ranges)@.len() > 0,
    ensures
        final(cpu_to_node)@.len() == old(cpu_to_node)@.len(),
        forall|c: int| 0 <= c < old(cpu_to_node)@.len() ==> #[trigger]
            final(cpu_to_node)@[c] == settled_node(
                old(cpu_to_node)@[c],
                old(cpu_ranges)@.len() as int,
            ),
        final(cpu_ranges)@.len() == old(cpu_ranges)@.len(),
        forall|n: int|
            0 <= n < old(cpu_ranges)@.len() ==> {
                let before = old(cpu_ranges)@[n];
                let ncpu = old(cpu_to_node)@.len() as int;
                if none_of(final(cpu_to_node)@, n, ncpu) && before.start_cpu == usize::MAX {
                    #[trigger] final(cpu_ranges)@[n] == (NumaCpuRange {
                        node_id: before.node_id,
                        start_cpu: 0,
                        end_cpu: 0,
                    })
                } else {
                    recorded(final(cpu_to_node)@, n, ncpu, before, final(cpu_ranges)@[n])
                }
            },
{
    let ncpu: usize = cpu_to_node.len();
    let nranges: usize = cpu_ranges.len();
    let ghost cpus0 = cpu_to_node@;
    let ghost ranges0 = cpu_ranges@;
    let mut cpu: usize = 0;
    while cpu < ncpu
        invariant
            cpu <= ncpu,
            cpu_to_node@.len() == ncpu,
            cpus0.len() == ncpu,
            cpu_ranges@.len() == nranges,
            ranges0.len() == nranges,
            nranges > 0,
            forall|c: int| 0 <= c < cpu ==> #[trigger]
                cpu_to_node@[c] == settled_node(cpus0[c], nranges as int),
            forall|c: int| cpu <= c < ncpu ==> #[trigger] cpu_to_node@[c] == cpus0[c],
            forall|n: int| 0 <= n < nranges ==> recorded(
                cpu_to_node@,
                n,
                cpu as int,
                ranges0[n],
                #[trigger] cpu_ranges@[n],
            ),
        decreases ncpu - cpu,
    {
        let ghost cpus1 = cpu_to_node@;
        let ghost ranges1 = cpu_ranges@;
        let listed: u16 = cpu_to_node[cpu];
        if listed == INVALID_NODE || listed as usize >= nranges {
            cpu_to_node[cpu] = 0;
        }
        let node: usize = cpu_to_node[cpu] as usize;
        let mut range = cpu_ranges[node];
        if range.start_cpu == usize::MAX {
            range.start_cpu = cpu;
        }
        range.end_cpu = cpu;
        cpu_ranges[node] = range;
        proof {
            assert forall|n: int| 0 <= n < nranges implies recorded(
                cpu_to_node@,
                n,
                cpu + 1,
                ranges0[n],
                #[trigger] cpu_ranges@[n],
            ) by {
                assert(recorded(cpus1, n, cpu as int, ranges0[n], ranges1[n]));
                lemma_recorded(cpus1, cpu_to_node@, n, cpu as int, ranges0[n], ranges1[n]);
                if n == node {
                    assert(cpu_to_node@[cpu as int] == n);
                }
            }
        }
        cpu = cpu + 1;
    }
    let ghost cpus2 = cpu_to_node@;
    let ghost ranges2 = cpu_ranges@;
    let mut node: usize = 0;
    while node < nranges
        invariant
            node <= nranges,
            cpu_ranges@.len() == nranges,
            ranges2.len() == nranges,
            forall|n: int| node <= n < nranges ==> #[trigger] cpu_ranges@[n] == ranges2[n],
            forall|n: int|
                0 <= n < node ==> #[trigger] cpu_ranges@[n] == (if ranges2[n].start_cpu
                    == usize::MAX {
                    NumaCpuRange { node_id: ranges2[n].node_id, start_cpu: 0, end_cpu: 0 }
                } else {
                    ranges2[n]
                }),
        decreases nranges - node,
    {
        let mut range = cpu_ranges[node];
        if range.start_cpu == usize::MAX {
            range.start_cpu = 0;
            range.end_cpu = 0;
            cpu_ranges[node] = range;
        }
        node = node + 1;
    }
    proof {
        assert forall|n: int| 0 <= n < nranges implies {
            if none_of(cpu_to_node@, n, ncpu as int) && ranges0[n].start_cpu == usize::MAX {
                #[trigger] cpu_ranges@[n] == (NumaCpuRange {
                    node_id: ranges0[n].node_id,
                    start_cpu: 0,
                    end_cpu: 0,
                })
            } else {
                recorded(cpu_to_node@, n, ncpu as int, ranges0[n], cpu_ranges@[n])
            }
        } by {
            assert(recorded(cpus2, n, ncpu as int, ranges0[n], ranges2[n]));
        }
    }
}

/// Recording does not depend on the processors from `hi` on.
proof fn lemma_recorded(
    a: Seq<u16>,
    b: Seq<u16>,
    node: int,
    hi: int,
    before: NumaCpuRange,
    after: NumaCpuRange,
)
    requires
        0 <= hi <= a.len(),
        b.len() == a.len(),
        forall|c: int| 0 <= c < hi ==> #[trigger] b[c] == a[c],
        recorded(a, node, hi, before, after),
    ensures
        recorded(b, node, hi, before, after),
        none_of(a, node, hi) == none_of(b, node, hi),
{
    if none_of(b, node, hi) {
        assert forall|c: int| 0 <= c < hi implies #[trigger] a[c] != node by {
            assert(b[c] != node);
        }
    }
    if none_of(a, node, hi) {
        assert forall|c: int| 0 <= c < hi implies #[trigger] b[c] != node by {
            assert(a[c] != node);
        }
    }
}

/// The numbers that can be node numbers.
pub open spec fn node_numbers(numbers: Seq<usize>) -> Seq<u16>
    decreases numbers.len(),
{
    if numbers.len() == 0 {
        Seq::empty()
    } else {
        let rest = node_numbers(numbers.drop_last());
        if numbers.last() <= 0xffff {
            rest.push(numbers.last() as u16)
        } else {
            rest
        }
    }
}

proof fn lemma_node_numbers_push(numbers: Seq<usize>, n: usize)
    ensures
        node_numbers(numbers.push(n)) == if n <= 0xffff {
            node_numbers(numbers).push(n as u16)
        } else {
            node_numbers(numbers)
        },
{
    assert(numbers.push(n).drop_last() =~= numbers);
}

/// The nodes that a list names, unless it is malformed.
pub open spec fn listed_nodes(s: Seq<u8>) -> Option<Seq<u16>> {
    match ranges_from(s, 0) {
        Some(ranges) => Some(node_numbers(expand_all(ranges))),
        None => None,
    }
}

/// The nodes that a list names, unless it is malformed.
pub fn online_node_ids(bytes: &[u8]) -> (r: Option<Vec<u16>>)
    ensures
        r is Some <==> listed_nodes(bytes@) is Some,
        r matches Some(ids) ==> Some(ids@) == listed_nodes(bytes@),
{
    let ghost s = bytes@;
    let mut list = parse_number_list(bytes);
    let mut ids: Vec<u16> = Vec::new();
    let ghost mut read: Seq<usize> = Seq::empty();
    proof {
        if let Some(all) = ranges_from(s, 0) {
            assert(expand_all(all) =~= read + list.pending() + expand_all(all));
        }
    }
    loop
        invariant_except_break
            !list.is_finished(),
            ranges_from(s, 0) is Some <==> ranges_from(s, list.place()) is Some,
            ranges_from(s, 0) matches Some(all) ==> expand_all(all) == read + list.pending()
                + expand_all(ranges_from(s, list.place())->0),
        invariant
            s == bytes@,
            list.wf(),
            list.text() == s,
            0 <= list.place() <= s.len(),
            ids@ == node_numbers(read),
        ensures
            ranges_from(s, 0) is Some,
            expand_all(ranges_from(s, 0)->0) == read,
        decreases s.len() - list.place(), list.pending().len(),
    {
        let ghost before = list.pending();
        let ghost place = list.place();
        proof {
            lemma_item_moves(s, place);
        }
        match list.next() {
            None => {
                proof {
                    assert(item_at(s, place) is End);
                    assert(ranges_from(s, place) == Some(Seq::<NumberRange>::empty()));
                    assert(read + before + expand_all(Seq::<NumberRange>::empty()) =~= read);
                }
                break;
            },
            Some(Err(_)) => {
                return None;
            },
            Some(Ok(node)) => {
                proof {
                    if before.len() > 0 {
                        assert(before =~= seq![node] + list.pending());
                        if let Some(rest) = ranges_from(s, place) {
                            assert(read + before + expand_all(rest) =~= read.push(node)
                                + list.pending() + expand_all(rest));
                        }
                    } else {
                        match item_at(s, place) {
                            Item::Range(range, next) => {
                                if let Some(rest) = ranges_from(s, next) {
                                    let whole = seq![range] + rest;
                                    assert(whole.subrange(1, whole.len() as int) =~= rest);
                                    assert(read + before + expand_all(whole) =~= read.push(node)
                                        + list.pending() + expand_all(rest));
                                }
                            },
                            _ => {},
                        }
                    }
                    lemma_node_numbers_push(read, node);
                    read = read.push(node);
                }
                if node <= 0xffff {
                    ids.push(node as u16);
                }
            },
        }
    }
    Some(ids)
}

/// Processor `cpu` lies in one of the ranges.
pub open spec fn covered(ranges: Seq<NumberRange>, cpu: int) -> bool {
    exists|i: int| 0 <= i < ranges.len() && (#[trigger] ranges[i]).start <= cpu <= ranges[i].end
}

/// Gives the listed processors to a node; tells whether the list was well formed.
fn apply_cpulist(cpus: &mut Vec<u16>, node: u16, bytes: &[u8]) -> (r: bool)
    ensures
        final(cpus)@.len() == old(cpus)@.len(),
        r <==> ranges_from(bytes@, 0) is Some,
        r ==> forall|c: int| 0 <= c < old(cpus)@.len() ==> #[trigger]
            final(cpus)@[c] == if covered(ranges_from(bytes@, 0)->0, c) {
                node
            } else {
                old(cpus)@[c]
            },
{
    let ghost s = bytes@;
    let ghost cpus0 = cpus@;
    let ncpu: usize = cpus.len();
    let mut list = parse_number_ranges(bytes);
    let ghost mut read: Seq<NumberRange> = Seq::empty();
    proof {
        if let Some(all) = ranges_from(s, 0) {
            assert(all =~= read + all);
        }
    }
    loop
        invariant_except_break
            !list.is_finished(),
            ranges_from(s, 0) is Some <==> ranges_from(s, list.place()) is Some,
            ranges_from(s, 0) matches Some(all) ==> all == read + ranges_from(
                s,
                list.place(),
            )->0,
        invariant
            s == bytes@,
            list.wf(),
            list.text() == s,
            0 <= list.place() <= s.len(),
            ncpu == cpus0.len(),
            cpus0 == old(cpus)@,
            cpus@.len() == ncpu,
            forall|c: int| 0 <= c < ncpu ==> #[trigger]
                cpus@[c] == if covered(read, c) {
                    node
                } else {
                    cpus0[c]
                },
        ensures
            ranges_from(s, 0) == Some(read),
        decreases s.len() - list.place(),
    {
        let ghost place = list.place();
        proof {
            lemma_item_moves(s, place);
        }
        match list.next() {
            None => {
                proof {
                    assert(read + Seq::<NumberRange>::empty() =~= read);
                }
                break;
            },
            Some(Err(_)) => {
                return false;
            },
            Some(Ok(range)) => {
                let ghost cpus1 = cpus@;
                if let Some(part) = clipped_cpu_range(range, ncpu) {
                    let mut iter = part.iter();
                    let mut cpu: usize = part.start;
                    while cpu <= part.end
                        invariant
                            part.start <= cpu <= part.end + 1,
                            part.end < ncpu,
                            cpus@.len() == ncpu,
                            cpus1.len() == ncpu,
                            iter.wf(),
                            iter.end == part.end,
                            iter.rest().len() == part.end + 1 - cpu,
                            cpu <= part.end ==> iter.rest()[0] == cpu,
                            forall|c: int| 0 <= c < ncpu ==> #[trigger]
                                cpus@[c] == if part.start <= c < cpu {
                                    node
                                } else {
                                    cpus1[c]
                                },
                        decreases part.end + 1 - cpu,
                    {
                        if let Some(item) = iter.next() {
                            cpus[item] = node;
                        }
                        cpu = cpu + 1;
                    }
                }
                proof {
                    assert forall|c: int| 0 <= c < ncpu implies #[trigger] cpus@[c]
                        == if covered(read.push(range), c) {
                        node
                    } else {
                        cpus0[c]
                    } by {
                        let more = read.push(range);
                        assert(cpus1[c] == if covered(read, c) {
                            node
                        } else {
                            cpus0[c]
                        });
                        if covered(read, c) {
                            let i = choose|i: int|
                                0 <= i < read.len() && (#[trigger] read[i]).start <= c
                                    <= read[i].end;
                            assert(more[i] == read[i]);
                        }
                        if range.start <= c <= range.end {
                            assert(more[read.len() as int] == range);
                        }
                        if covered(more, c) && !(range.start <= c <= range.end) {
                            let i = choose|i: int|
                                0 <= i < more.len() && (#[trigger] more[i]).start <= c
                                    <= more[i].end;
                            assert(read[i] == more[i]);
                        }
                    }
                    match item_at(s, place) {
                        Item::Range(found, next) => {
                            if let Some(rest) = ranges_from(s, next) {
                                assert(read + (seq![range] + rest) =~= read.push(range) + rest);
                            }
                        },
                        _ => {},
                    }
                    read = read.push(range);
                }
            },
        }
    }
    true
}

/// The processors of one node when the nodes are unknown.
pub open spec fn single_node(t: NumaTopology, ncpu: int) -> bool {
    &&& t.cpu_to_node@ == Seq::new(ncpu as nat, |c: int| 0u16)
    &&& t.node_ids@ == seq![0u16]
    &&& t.cpu_ranges@ == seq![
        NumaCpuRange {
            node_id: 0,
            start_cpu: 0,
            end_cpu: if ncpu == 0 {
                0
            } else {
                (ncpu - 1) as usize
            },
        },
    ]
}

fn filled(ncpu: usize, node: u16) -> (r: Vec<u16>)
    ensures
        r@ == Seq::new(ncpu as nat, |c: int| node),
{
    let mut cpus: Vec<u16> = Vec::new();
    while cpus.len() < ncpu
        invariant
            cpus@.len() <= ncpu,
            forall|c: int| 0 <= c < cpus@.len() ==> cpus@[c] == node,
        decreases ncpu - cpus@.len(),
    {
        cpus.push(node);
    }
    assert(cpus@ =~= Seq::new(ncpu as nat, |c: int| node));
    cpus
}

/// One node that holds all processors.
pub fn single_node_topology(ncpu: usize) -> (t: NumaTopology)
    ensures
        single_node(t, ncpu as int),
{
    let mut node_ids: Vec<u16> = Vec::new();
    node_ids.push(0);
    let mut cpu_ranges: Vec<NumaCpuRange> = Vec::new();
    cpu_ranges.push(
        NumaCpuRange { node_id: 0, start_cpu: 0, end_cpu: ncpu.saturating_sub(1) },
    );
    let t = NumaTopology { cpu_to_node: filled(ncpu, 0), node_ids, cpu_ranges };
    assert(t.node_ids@ =~= seq![0u16]);
    assert(t.cpu_ranges@ =~= seq![
        NumaCpuRange {
            node_id: 0,
            start_cpu: 0,
            end_cpu: if ncpu == 0 {
                0
            } else {
                (ncpu - 1) as usize
            },
        },
    ]);
    t
}

/// The last of the first `k` nodes whose list names a processor.
pub open spec fn owner(ids: Seq<u16>, lists: Seq<Option<Vec<u8>>>, cpu: int, k: int) -> u16
    decreases k,
{
    if k <= 0 {
        INVALID_NODE
    } else if covered(ranges_from((lists[k - 1]->0)@, 0)->0, cpu) {
        ids[k - 1]
    } else {
        owner(ids, lists, cpu, k - 1)
    }
}

/// The largest of the first `k` numbers.
pub open spec fn largest(ids: Seq<u16>, k: int) -> int
    decreases k,
{
    if k <= 0 {
        0
    } else if ids[k - 1] > largest(ids, k - 1) {
        ids[k - 1] as int
    } else {
        largest(ids, k - 1)
    }
}

/// The processor lists of all nodes were read and are well formed.
pub open spec fn lists_ok(lists: Seq<Option<Vec<u8>>>, n: int) -> bool {
    &&& lists.len() >= n
    &&& forall|j: int|
        0 <= j < n ==> #[trigger] lists[j] is Some && ranges_from((lists[j]->0)@, 0) is Some
}

/// The topology that the list of nodes and the lists of their processors describe.
pub open spec fn described(
    t: NumaTopology,
    ncpu: int,
    ids: Seq<u16>,
    lists: Seq<Option<Vec<u8>>>,
) -> bool {
    let nranges = largest(ids, ids.len() as int) + 1;
    &&& t.node_ids@ == ids
    &&& t.cpu_to_node@.len() == ncpu
    &&& forall|c: int| 0 <= c < ncpu ==> #[trigger]
        t.cpu_to_node@[c] == settled_node(owner(ids, lists, c, ids.len() as int), nranges)
    &&& t.cpu_ranges@.len() == nranges
    &&& forall|n: int|
        0 <= n < nranges ==> {
            let range = #[trigger] t.cpu_ranges@[n];
            &&& range.node_id == n
            &&& if none_of(t.cpu_to_node@, n, ncpu) {
                range.start_cpu == 0 && range.end_cpu == 0
            } else {
                first_of(t.cpu_to_node@, n, ncpu, range.start_cpu as int) && last_of(
                    t.cpu_to_node@,
                    n,
                    ncpu,
                    range.end_cpu as int,
                )
            }
        }
}

/// Builds the topology from the list of online nodes and, for each of them in that order, the list
/// of its processors. Without a list of nodes, or with an empty one, there is a single node.
pub fn parse_numa_topology(
    ncpu: usize,
    online: Option<&Vec<u8>>,
    cpulists: &Vec<Option<Vec<u8>>>,
) -> (r: Option<NumaTopology>)
    ensures
        online is None ==> (r matches Some(t) && single_node(t, ncpu as int)),
        online matches Some(bytes) ==> match listed_nodes(bytes@) {
            None => r is None,
            Some(ids) => if ids.len() == 0 {
                r matches Some(t) && single_node(t, ncpu as int)
            } else {
                &&& r is Some <==> lists_ok(cpulists@, ids.len() as int)
                &&& r matches Some(t) ==> described(t, ncpu as int, ids, cpulists@)
            },
        },
{
    let bytes: &Vec<u8> = match online {
        None => {
            return Some(single_node_topology(ncpu));
        },
        Some(bytes) => bytes,
    };
    let node_ids: Vec<u16> = match online_node_ids(bytes.as_slice()) {
        None => {
            return None;
        },
        Some(ids) => ids,
    };
    if node_ids.len() == 0 {
        return Some(single_node_topology(ncpu));
    }
    let nnodes: usize = node_ids.len();
    let mut cpu_to_node: Vec<u16> = filled(ncpu, INVALID_NODE);
    let mut max_node: u16 = 0;
    let mut index: usize = 0;
    while index < nnodes
        invariant
            index <= nnodes,
            nnodes == node_ids@.len(),
            max_node == largest(node_ids@, index as int),
        decreases nnodes - index,
    {
        if node_ids[index] > max_node {
            max_node = node_ids[index];
        }
        index = index + 1;
    }
    let nranges: usize = max_node as usize + 1;
    let mut cpu_ranges: Vec<NumaCpuRange> = Vec::new();
    while cpu_ranges.len() < nranges
        invariant
            cpu_ranges@.len() <= nranges,
            nranges <= 0x1_0000,
            forall|n: int|
                0 <= n < cpu_ranges@.len() ==> #[trigger] cpu_ranges@[n] == (NumaCpuRange {
                    node_id: n as u16,
                    start_cpu: usize::MAX,
                    end_cpu: 0,
                }),
        decreases nranges - cpu_ranges@.len(),
    {
        let n: usize = cpu_ranges.len();
        cpu_ranges.push(NumaCpuRange { node_id: n as u16, start_cpu: usize::MAX, end_cpu: 0 });
    }
    let mut i: usize = 0;
    while i < nnodes
        invariant
            i <= nnodes,
            nnodes == node_ids@.len(),
            cpu_to_node@.len() == ncpu,
            lists_ok(cpulists@, i as int),
            forall|c: int| 0 <= c < ncpu ==> #[trigger]
                cpu_to_node@[c] == owner(node_ids@, cpulists@, c, i as int),
            online matches Some(b) && Some(node_ids@) == listed_nodes(b@),
        decreases nnodes - i,
    {
        if i >= cpulists.len() {
            return None;
        }
        let ghost before = cpu_to_node@;
        match &cpulists[i] {
            None => {
                return None;
            },
            Some(list) => {
                if !apply_cpulist(&mut cpu_to_node, node_ids[i], list.as_slice()) {
                    return None;
                }
            },
        }
        proof {
            assert forall|c: int| 0 <= c < ncpu implies #[trigger] cpu_to_node@[c] == owner(
                node_ids@,
                cpulists@,
                c,
                i + 1,
            ) by {
                assert(before[c] == owner(node_ids@, cpulists@, c, i as int));
            }
        }
        i = i + 1;
    }
    populate_cpu_ranges(&mut cpu_to_node, &mut cpu_ranges);
    Some(NumaTopology { cpu_to_node, node_ids, cpu_ranges })
}

/// The decimal digits of a number.
pub open spec fn decimal(n: nat) -> Seq<u8>
    decreases n,
{
    if n < 10 {
        seq![(0x30 + n) as u8]
    } else {
        decimal(n / 10).push((0x30 + n % 10) as u8)
    }
}

/// Directory of a node up to its number.
pub open spec fn node_path_prefix() -> Seq<u8> {
    seq![
        0x2fu8, 0x73, 0x79, 0x73, 0x2f, 0x64, 0x65, 0x76, 0x69, 0x63, 0x65, 0x73, 0x2f, 0x73,
        0x79, 0x73, 0x74, 0x65, 0x6d, 0x2f, 0x6e, 0x6f, 0x64, 0x65, 0x2f, 0x6e, 0x6f, 0x64,
        0x65,
    ]
}

/// Name of the file that lists the processors of a node.
pub open spec fn node_path_suffix() -> Seq<u8> {
    seq![0x2fu8, 0x63, 0x70, 0x75, 0x6c, 0x69, 0x73, 0x74]
}

fn append(out: &mut Vec<u8>, part: &Vec<u8>)
    ensures
        final(out)@ == old(out)@ + part@,
{
    let mut i: usize = 0;
    while i < part.len()
        invariant
            i <= part@.len(),
            out@ == old(out)@ + part@.subrange(0, i as int),
        decreases part@.len() - i,
    {
        out.push(part[i]);
        i = i + 1;
        assert(part@.subrange(0, i as int) =~= part@.subrange(0, i - 1).push(part@[i - 1]));
    }
    assert(part@.subrange(0, i as int) =~= part@);
}

/// The decimal digits of a number.
pub fn format_decimal(node: usize) -> (r: Vec<u8>)
    ensures
        r@ == decimal(node as nat),
{
    let mut digits: Vec<u8> = Vec::new();
    let mut n: usize = node;
    while n >= 10
        invariant
            decimal(node as nat) == decimal(n as nat) + digits@.reverse(),
        decreases n,
    {
        let ghost before = digits@;
        let ghost m = n;
        digits.push(0x30 + (n % 10) as u8);
        n = n / 10;
        assert(decimal(n as nat) + digits@.reverse() =~= decimal(m as nat) + before.reverse());
    }
    let ghost before = digits@;
    digits.push(0x30 + n as u8);
    assert(digits@.reverse() =~= decimal(n as nat) + before.reverse());
    let mut out: Vec<u8> = Vec::new();
    let mut d: usize = digits.len();
    while d > 0
        invariant
            d <= digits@.len(),
            out@ == digits@.reverse().subrange(0, digits@.len() - d),
        decreases d,
    {
        d = d - 1;
        out.push(digits[d]);
        assert(out@ =~= digits@.reverse().subrange(0, digits@.len() - d));
    }
    assert(out@ =~= digits@.reverse());
    out
}

/// The path of the file that lists the processors of a node, when it fits in `room` bytes.
pub fn format_node_cpulist_path(node: usize, room: usize) -> (r: Option<Vec<u8>>)
    ensures
        ({
            let path = node_path_prefix() + decimal(node as nat) + node_path_suffix();
            &&& r is Some <==> path.len() <= room
            &&& r matches Some(out) ==> out@ == path
        }),
{
    let mut out: Vec<u8> = vec![
        0x2f, 0x73, 0x79, 0x73, 0x2f, 0x64, 0x65, 0x76, 0x69, 0x63, 0x65, 0x73, 0x2f, 0x73,
        0x79, 0x73, 0x74, 0x65, 0x6d, 0x2f, 0x6e, 0x6f, 0x64, 0x65, 0x2f, 0x6e, 0x6f, 0x64,
        0x65,
    ];
    assert(out@ =~= node_path_prefix());
    let number: Vec<u8> = format_decimal(node);
    append(&mut out, &number);
    let suffix: Vec<u8> = vec![0x2f, 0x63, 0x70, 0x75, 0x6c, 0x69, 0x73, 0x74];
    assert(suffix@ =~= node_path_suffix());
    append(&mut out, &suffix);
    if out.len() <= room {
        Some(out)
    } else {
        None
    }
}

/// Reading the digits of a number gives the number back, and there is no zero in front of them.
pub proof fn law_digits_spell_the_number(n: nat)
    ensures
        decimal(n).len() > 0,
        forall|i: int| 0 <= i < decimal(n).len() ==> is_digit(#[trigger] decimal(n)[i]),
        number(decimal(n), 0, decimal(n).len() as int) == n,
        n > 0 ==> decimal(n)[0] != 0x30,
    decreases n,
{
    if n >= 10 {
        law_digits_spell_the_number(n / 10);
        let rest = decimal(n / 10);
        let all = decimal(n);
        let k = rest.len() as int;
        lemma_number_shifted(rest, all, 0, 0, k);
        assert(all[k] == (0x30 + n % 10) as u8);
        assert(all[0] == rest[0]);
    } else {
        let all = decimal(n);
        assert(number(all, 0, 0) == 0);
        assert(number(all, 0, 1) == number(all, 0, 0) * 10 + (all[0] - 0x30));
    }
}

/// The same digits spell the same number wherever they stand.
proof fn lemma_number_shifted(a: Seq<u8>, b: Seq<u8>, i: int, j: int, len: int)
    requires
        0 <= len,
        forall|x: int| 0 <= x < len ==> a[i + x] == #[trigger] b[j + x],
    ensures
        number(a, i, i + len) == number(b, j, j + len),
    decreases len,
{
    if len > 0 {
        lemma_number_shifted(a, b, i, j, len - 1);
        assert(a[i + (len - 1)] == b[j + (len - 1)]);
    }
}

/// A list of ranges as text: numbers, or two of them with a dash, with commas in between.
pub open spec fn list_text(ranges: Seq<NumberRange>) -> Seq<u8>
    decreases ranges.len(),
{
    if ranges.len() == 0 {
        Seq::empty()
    } else {
        let rest = ranges.subrange(1, ranges.len() as int);
        range_digits(ranges[0]) + if rest.len() == 0 {
            Seq::empty()
        } else {
            seq![0x2cu8] + list_text(rest)
        }
    }
}

/// A range as text.
pub open spec fn range_digits(range: NumberRange) -> Seq<u8> {
    if range.start == range.end {
        decimal(range.start as nat)
    } else {
        decimal(range.start as nat) + seq![0x2du8] + decimal(range.end as nat)
    }
}

/// The digits of a number that stand at `i`, with something else or nothing behind them, are read as
/// that number.
proof fn lemma_number_stands(s: Seq<u8>, i: int, n: nat)
    requires
        0 <= i,
        i + decimal(n).len() <= s.len(),
        n <= usize::MAX,
        forall|x: int| 0 <= x < decimal(n).len() ==> decimal(n)[x] == #[trigger] s[i + x],
        i + decimal(n).len() < s.len() ==> !is_digit(s[i + decimal(n).len()]),
    ensures
        skip(s, i) == i,
        has_number(s, i),
        number_at(s, i) == n,
        digits_end(s, i) == i + decimal(n).len(),
{
    law_digits_spell_the_number(n);
    let d = decimal(n);
    assert(d[0] == s[i + 0]);
    assert forall|x: int| i <= x < i + d.len() implies is_digit(#[trigger] s[x]) by {
        assert(d[x - i] == s[i + (x - i)]);
        assert(is_digit(d[x - i]));
    }
    lemma_end_of_digits(s, i, i + d.len());
    lemma_number_shifted(d, s, 0, i, d.len() as int);
}

proof fn lemma_end_of_digits(s: Seq<u8>, i: int, end: int)
    requires
        0 <= i <= end <= s.len(),
        forall|x: int| i <= x < end ==> is_digit(#[trigger] s[x]),
        end < s.len() ==> !is_digit(s[end]),
    ensures
        digits_end(s, i) == end,
    decreases end - i,
{
    if i < end {
        lemma_end_of_digits(s, i + 1, end);
    }
}

/// Reading a list that was written gives the ranges back, in order, whatever white space stands
/// behind it.
#[verifier::rlimit(60)]
#[verifier::spinoff_prover]
pub proof fn law_written_lists_are_read(
    before: Seq<u8>,
    ranges: Seq<NumberRange>,
    after: Seq<u8>,
)
    requires
        forall|k: int|
            0 <= k < ranges.len() ==> (#[trigger] ranges[k]).start <= ranges[k].end,
        forall|k: int| 0 <= k < after.len() ==> is_space(#[trigger] after[k]),
    ensures
        ranges_from(before + list_text(ranges) + after, before.len() as int) == Some(ranges),
    decreases ranges.len(),
{
    let s = before + list_text(ranges) + after;
    let i = before.len() as int;
    if ranges.len() == 0 {
        lemma_skip_blank(s, i, after);
        assert(ranges_from(s, i)->0 =~= ranges);
    } else {
        let range = ranges[0];
        let rest = ranges.subrange(1, ranges.len() as int);
        let first = decimal(range.start as nat);
        let last = decimal(range.end as nat);
        let head = range_digits(range);
        let behind = i + head.len();
        assert forall|x: int| 0 <= x < head.len() implies head[x] == #[trigger] s[i + x] by {}
        assert forall|x: int| 0 <= x < first.len() implies first[x] == #[trigger] s[i + x] by {
            assert(head[x] == first[x]);
            assert(head[x] == s[i + x]);
        }
        if rest.len() > 0 {
            assert(s[behind] == 0x2c);
        } else if after.len() > 0 {
            assert(s[behind] == after[0]);
            assert(is_space(after[0]));
        }
        if range.start != range.end {
            let dash = i + first.len();
            assert(head[first.len() as int] == 0x2d);
            assert(s[i + first.len()] == 0x2d);
            lemma_number_stands(s, i, range.start as nat);
            assert(skip(s, dash) == dash);
            assert forall|x: int| 0 <= x < last.len() implies last[x] == #[trigger] s[dash + 1
                + x] by {
                assert(head[first.len() + 1 + x] == last[x]);
                assert(s[i + (first.len() + 1 + x)] == head[first.len() + 1 + x]);
            }
            lemma_number_stands(s, dash + 1, range.end as nat);
        } else {
            lemma_number_stands(s, i, range.start as nat);
        }
        if rest.len() > 0 {
            assert(skip(s, behind) == behind);
            let more = before + head + seq![0x2cu8];
            assert(s =~= more + list_text(rest) + after);
            assert forall|k: int| 0 <= k < rest.len() implies (#[trigger] rest[k]).start
                <= rest[k].end by {
                assert(rest[k] == ranges[k + 1]);
            }
            law_written_lists_are_read(more, rest, after);
            let next = rest[0];
            law_digits_spell_the_number(next.start as nat);
            assert(list_text(rest)[0] == decimal(next.start as nat)[0]);
            assert(s[behind + 1] == list_text(rest)[0]);
            assert(skip(s, behind + 1) == behind + 1);
            assert(item_at(s, i) == Item::Range(range, behind + 1));
        } else {
            let end = s.len() as int;
            lemma_skip_blank(s, behind, after);
            assert(item_at(s, i) == Item::Range(range, end));
            assert(item_at(s, end) == Item::End);
            assert(ranges_from(s, end) == Some(Seq::<NumberRange>::empty()));
        }
        assert(seq![range] + rest =~= ranges);
    }
}

/// Nothing but white space is skipped to the end.
proof fn lemma_skip_blank(s: Seq<u8>, i: int, after: Seq<u8>)
    requires
        0 <= i,
        s.len() == i + after.len(),
        forall|k: int| 0 <= k < after.len() ==> s[i + k] == #[trigger] after[k],
        forall|k: int| 0 <= k < after.len() ==> is_space(#[trigger] after[k]),
    ensures
        skip(s, i) == s.len(),
    decreases after.len(),
{
    if after.len() > 0 {
        let rest = after.subrange(1, after.len() as int);
        assert(s[i + 0] == after[0]);
        assert(is_space(after[0]));
        assert forall|k: int| 0 <= k < rest.len() implies s[i + 1 + k] == #[trigger] rest[k]
            && is_space(rest[k]) by {
            assert(s[i + (k + 1)] == after[k + 1]);
            assert(is_space(after[k + 1]));
        }
        lemma_skip_blank(s, i + 1, rest);
    }
}

/// Ranges that are read go up, and a list in which anything else than digits, white space, commas and
/// dashes stands is refused.
pub proof fn law_read_lists_are_well_formed(s: Seq<u8>, i: int, k: int)
    requires
        0 <= i <= k < s.len(),
        ranges_from(s, i) is Some,
    ensures
        is_digit(s[k]) || is_space(s[k]) || s[k] == 0x2c || s[k] == 0x2d,
        forall|r: int|
            0 <= r < (ranges_from(s, i)->0).len() ==> (#[trigger] (ranges_from(s, i)->0)[r]).start
                <= (ranges_from(s, i)->0)[r].end,
    decreases s.len() - i,
{
    let a = skip(s, i);
    lemma_skip(s, i);
    lemma_only_spaces(s, i);
    match item_at(s, i) {
        Item::End => {},
        Item::Malformed => {},
        Item::Range(range, next) => {
            let e = digits_end(s, a);
            lemma_digits(s, a);
            lemma_only_digits(s, a);
            let b = skip(s, e);
            lemma_skip(s, e);
            lemma_only_spaces(s, e);
            if b < s.len() && s[b] == 0x2d {
                let c = skip(s, b + 1);
                lemma_skip(s, b + 1);
                lemma_only_spaces(s, b + 1);
                lemma_digits(s, c);
                lemma_only_digits(s, c);
                lemma_number_grows(s, a, a, e);
                lemma_number_grows(s, c, c, digits_end(s, c));
                lemma_tail(s, number_at(s, a), number_at(s, c), digits_end(s, c), k);
            } else {
                lemma_number_grows(s, a, a, e);
                lemma_tail(s, number_at(s, a), number_at(s, a), b, k);
            }
            let rest = ranges_from(s, next)->0;
            if next < s.len() {
                law_read_lists_are_well_formed(
                    s,
                    next,
                    if k >= next {
                        k
                    } else {
                        next
                    },
                );
            } else {
                assert(skip(s, next) == next);
                assert(rest =~= Seq::<NumberRange>::empty());
            }
            assert forall|r: int| 0 <= r < (ranges_from(s, i)->0).len() implies (
            #[trigger] (ranges_from(s, i)->0)[r]).start <= (ranges_from(s, i)->0)[r].end by {
                if r > 0 {
                    assert((ranges_from(s, i)->0)[r] == rest[r - 1]);
                }
            }
        },
    }
}

/// What stands between the last number of an item and the next item is white space and a comma.
proof fn lemma_tail(s: Seq<u8>, first: int, last: int, i: int, k: int)
    requires
        0 <= i <= s.len(),
        0 <= first <= usize::MAX,
        0 <= last <= usize::MAX,
        item_tail(s, first, last, i) is Range,
    ensures
        item_tail(s, first, last, i) matches Item::Range(range, next) && range.start <= range.end
            && i <= next <= s.len() && (i <= k < next ==> is_space(s[k]) || s[k] == 0x2c),
{
    let d = skip(s, i);
    lemma_skip(s, i);
    lemma_only_spaces(s, i);
    if d < s.len() {
        lemma_skip(s, d + 1);
        lemma_only_spaces(s, d + 1);
    }
}

proof fn lemma_only_spaces(s: Seq<u8>, i: int)
    requires
        0 <= i,
    ensures
        forall|x: int| i <= x < skip(s, i) && x < s.len() ==> is_space(#[trigger] s[x]),
    decreases s.len() - i,
{
    if i < s.len() && is_space(s[i]) {
        lemma_only_spaces(s, i + 1);
    }
}

proof fn lemma_only_digits(s: Seq<u8>, i: int)
    requires
        0 <= i,
    ensures
        forall|x: int| i <= x < digits_end(s, i) && x < s.len() ==> is_digit(#[trigger] s[x]),
    decreases s.len() - i,
{
    if i < s.len() && is_digit(s[i]) {
        lemma_only_digits(s, i + 1);
    }
}

/// The numbers of ranges are exactly those that lie in one of them.
pub proof fn law_expanded_numbers(ranges: Seq<NumberRange>, n: usize)
    requires
        forall|k: int|
            0 <= k < ranges.len() ==> (#[trigger] ranges[k]).start <= ranges[k].end,
    ensures
        expand_all(ranges).contains(n) <==> covered(ranges, n as int),
    decreases ranges.len(),
{
    if ranges.len() > 0 {
        let rest = ranges.subrange(1, ranges.len() as int);
        assert forall|k: int| 0 <= k < rest.len() implies (#[trigger] rest[k]).start
            <= rest[k].end by {
            assert(rest[k] == ranges[k + 1]);
        }
        law_expanded_numbers(rest, n);
        let head = expand(ranges[0]);
        let tail = expand_all(rest);
        let all = expand_all(ranges);
        if ranges[0].start <= n <= ranges[0].end {
            assert(all[n - ranges[0].start] == n);
        }
        if tail.contains(n) {
            let x = choose|x: int| 0 <= x < tail.len() && tail[x] == n;
            assert(all[head.len() + x] == n);
        }
        if covered(rest, n as int) {
            let k = choose|k: int|
                0 <= k < rest.len() && (#[trigger] rest[k]).start <= n <= rest[k].end;
            assert(ranges[k + 1] == rest[k]);
        }
        if covered(ranges, n as int) {
            let k = choose|k: int|
                0 <= k < ranges.len() && (#[trigger] ranges[k]).start <= n <= ranges[k].end;
            if k > 0 {
                assert(rest[k - 1] == ranges[k]);
                assert(covered(rest, n as int));
            }
        }
        if all.contains(n) {
            let x = choose|x: int| 0 <= x < all.len() && all[x] == n;
            if x < head.len() {
                assert(head[x] == n);
                assert(ranges[0].start <= n <= ranges[0].end);
            } else {
                assert(tail[x - head.len()] == n);
            }
        }
    }
}

/// Node numbers are all numbers that a node can have, and no others.
pub proof fn law_node_numbers(numbers: Seq<usize>, n: u16)
    ensures
        node_numbers(numbers).contains(n) <==> numbers.contains(n as usize),
    decreases numbers.len(),
{
    if numbers.len() > 0 {
        let rest = numbers.drop_last();
        law_node_numbers(rest, n);
        let a = node_numbers(rest);
        let b = node_numbers(numbers);
        assert(numbers[numbers.len() - 1] == numbers.last());
        if a.contains(n) {
            let x = choose|x: int| 0 <= x < a.len() && a[x] == n;
            assert(b[x] == n);
        }
        if numbers.last() == n {
            assert(b[b.len() - 1] == n);
        }
        if rest.contains(n as usize) {
            let x = choose|x: int| 0 <= x < rest.len() && rest[x] == n as usize;
            assert(numbers[x] == n as usize);
        }
        if numbers.contains(n as usize) && numbers.last() != n {
            let x = choose|x: int| 0 <= x < numbers.len() && numbers[x] == n as usize;
            assert(rest[x] == n as usize);
        }
        if b.contains(n) && numbers.last() != n {
            let x = choose|x: int| 0 <= x < b.len() && b[x] == n;
            assert(a[x] == n);
        }
    }
}

/// The last node whose list names a processor owns it; a processor that no list names has no owner.
pub proof fn law_last_list_counts(
    ids: Seq<u16>,
    lists: Seq<Option<Vec<u8>>>,
    cpu: int,
    k: int,
    j: int,
)
    requires
        0 <= k,
    ensures
        0 <= j < k && covered(ranges_from((lists[j]->0)@, 0)->0, cpu) && (forall|i: int|
            j < i < k ==> !covered(ranges_from(((#[trigger] lists[i])->0)@, 0)->0, cpu)) ==> owner(
            ids,
            lists,
            cpu,
            k,
        ) == ids[j],
        (forall|i: int|
            0 <= i < k ==> !covered(ranges_from(((#[trigger] lists[i])->0)@, 0)->0, cpu)) ==> owner(
            ids,
            lists,
            cpu,
            k,
        ) == INVALID_NODE,
    decreases k,
{
    if k > 0 {
        law_last_list_counts(ids, lists, cpu, k - 1, j);
        let last = lists[k - 1];
    }
}

/// The largest of some numbers is no less than any of them, and one of them.
pub proof fn law_largest(ids: Seq<u16>, k: int, i: int)
    requires
        0 <= i < k <= ids.len(),
    ensures
        ids[i] <= largest(ids, k),
        exists|j: int| 0 <= j < k && #[trigger] ids[j] == largest(ids, k),
    decreases k,
{
    if k > 1 {
        law_largest(
            ids,
            k - 1,
            if i < k - 1 {
                i
            } else {
                0
            },
        );
        let j = choose|j: int| 0 <= j < k - 1 && #[trigger] ids[j] == largest(ids, k - 1);
        assert(ids[j] == largest(ids, k) || ids[k - 1] == largest(ids, k));
    } else {
        assert(largest(ids, 0) == 0);
        assert(ids[0] == largest(ids, 1));
    }
}

/// In a described topology a processor belongs to the last node whose list names it, or to the first
/// node where none does, and lies within the range of its node.
pub proof fn law_processors_belong_to_their_node(
    t: NumaTopology,
    ncpu: int,
    ids: Seq<u16>,
    lists: Seq<Option<Vec<u8>>>,
    cpu: int,
    j: int,
)
    requires
        described(t, ncpu, ids, lists),
        0 <= cpu < ncpu,
    ensures
        0 <= j < ids.len() && ids[j] != INVALID_NODE && covered(
            ranges_from((lists[j]->0)@, 0)->0,
            cpu,
        ) && (forall|i: int|
            j < i < ids.len() ==> !covered(ranges_from(((#[trigger] lists[i])->0)@, 0)->0, cpu))
            ==> t.cpu_to_node@[cpu] == ids[j],
        (forall|i: int|
            0 <= i < ids.len() ==> !covered(ranges_from(((#[trigger] lists[i])->0)@, 0)->0, cpu))
            ==> t.cpu_to_node@[cpu] == 0,
        t.cpu_to_node@[cpu] < t.cpu_ranges@.len(),
        ({
            let range = t.cpu_ranges@[t.cpu_to_node@[cpu] as int];
            &&& range.node_id == t.cpu_to_node@[cpu]
            &&& range.start_cpu <= cpu <= range.end_cpu
        }),
{
    let k = ids.len() as int;
    let node = t.cpu_to_node@[cpu] as int;
    law_last_list_counts(ids, lists, cpu, k, j);
    if 0 <= j < k {
        law_largest(ids, k, j);
    }
    lemma_largest_nonnegative(ids, k);
    assert(t.cpu_to_node@[cpu] == settled_node(
        owner(ids, lists, cpu, k),
        largest(ids, k) + 1,
    ));
    let range = t.cpu_ranges@[node];
    assert(!none_of(t.cpu_to_node@, node, ncpu));
}

proof fn lemma_largest_nonnegative(ids: Seq<u16>, k: int)
    ensures
        0 <= largest(ids, k),
    decreases k,
{
    if k > 0 {
        lemma_largest_nonnegative(ids, k - 1);
    }
}

/// Digits and white space are what they are in text.
pub proof fn law_characters(b: u8)
    ensures
        is_digit(b) <==> '0' as u8 <= b <= '9' as u8,
        is_space(b) <==> b == ' ' as u8 || b == '\t' as u8 || b == '\n' as u8 || b == '\r' as u8
            || b == 0x0c,
{
}

/// The list of the processors of a node stands where the system puts it.
pub proof fn law_node_path()
    ensures
        node_path_prefix().len() == "/sys/devices/system/node/node"@.len(),
        node_path_suffix().len() == "/cpulist"@.len(),
        forall|i: int|
            0 <= i < node_path_prefix().len() ==> #[trigger] node_path_prefix()[i]
                == "/sys/devices/system/node/node"@[i] as u8,
        forall|i: int|
            0 <= i < node_path_suffix().len() ==> #[trigger] node_path_suffix()[i]
                == "/cpulist"@[i] as u8,
{
    reveal_strlit("/sys/devices/system/node/node");
    reveal_strlit("/cpulist");
}

/// Where the nodes are unknown, every processor belongs to the one node that there is, and its range
/// goes from the first to the last of them.
pub proof fn law_single_node(t: NumaTopology, ncpu: int, c: int)
    requires
        single_node(t, ncpu),
        0 <= c < ncpu,
        ncpu <= usize::MAX,
    ensures
        t.cpu_to_node@.len() == ncpu,
        t.node_ids@.len() == 1,
        t.cpu_to_node@[c] == t.node_ids@[0],
        t.cpu_ranges@.len() == 1,
        t.cpu_ranges@[0].node_id == t.node_ids@[0],
        t.cpu_ranges@[0].start_cpu <= c <= t.cpu_ranges@[0].end_cpu < ncpu,
        first_of(t.cpu_to_node@, 0, ncpu, t.cpu_ranges@[0].start_cpu as int),
        last_of(t.cpu_to_node@, 0, ncpu, t.cpu_ranges@[0].end_cpu as int),
{
}

/// A processor keeps the node that it was found in where that node has a range, and belongs to the
/// first one otherwise.
pub proof fn law_settled_node(node: u16, nranges: int)
    requires
        0 < nranges,
    ensures
        settled_node(node, nranges) < nranges,
        node < nranges && node != u16::MAX ==> settled_node(node, nranges) == node,
        node >= nranges || node == u16::MAX ==> settled_node(node, nranges) == 0,
{
}

} // verus!
