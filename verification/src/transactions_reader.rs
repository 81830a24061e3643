//! Readers: from the bytes of a delimited text to transaction records in
//! input order.
//!
//! The bulk reader parses the whole text at once. The block reader cuts the
//! text behind the header line into line-aligned blocks, parses each block on
//! its own and puts the parsed blocks back into block order.

use crate::account_manager::records_of;
use crate::record_parser::{parse_rows, records_of_rows, rows_of};
use crate::records::{Record, TransactionRecord};
use std::collections::HashMap;
use vstd::prelude::*;
use vstd::std_specs::hash::group_hash_axioms;

verus! {

broadcast use group_hash_axioms;

/// The rows that the `csv` reader finds in a text, each a sequence of
/// fields: comma-separated, every field trimmed of surrounding whitespace,
/// rows of any number of fields. With `has_headers` the first row is taken as
/// the header and left out.
pub uninterp spec fn csv_fields(data: Seq<u8>, has_headers: bool) -> Seq<Seq<Seq<u8>>>;

/// Runs a `csv::Reader` over `data` and collects its byte records. The reader
/// is built to trim all fields and to accept rows of any length.
#[verifier::external_body]
fn csv_rows(data: &[u8], has_headers: bool) -> (rows: Vec<Vec<Vec<u8>>>)
    ensures
        rows_of(rows@) == csv_fields(data@, has_headers),
{
    let mut reader = csv::ReaderBuilder::new()
        .trim(csv::Trim::All)
        .flexible(true)
        .has_headers(has_headers)
        .from_reader(data);
    reader
        .byte_records()
        .map_while(|row| row.ok())
        .map(|row| row.iter().map(|field| field.to_vec()).collect())
        .collect()
}

/// `num_cpus::get`: the number of processors, which differs from machine to
/// machine.
#[verifier::external_body]
fn available_cpus() -> usize {
    num_cpus::get()
}

/// The records that a text without a header line writes.
pub open spec fn block_records(block: Seq<u8>) -> Seq<Record> {
    records_of_rows(csv_fields(block, false))
}

/// Parses a text without a header line.
pub fn parse_block(block: &[u8]) -> (records: Vec<TransactionRecord>)
    ensures
        records_of(records@) == block_records(block@),
{
    let rows = csv_rows(block, false);
    parse_rows(&rows)
}

/// A reader turns the bytes of an input into the records it writes.
pub trait TransactionCSVReader: Sized {
    /// The records that the reader finds in `data`.
    spec fn reading(&self, data: Seq<u8>) -> Seq<Record>;

    /// Reads all records of `data`, in input order.
    fn read_csv(self, data: &[u8]) -> (records: Vec<TransactionRecord>)
        ensures
            records_of(records@) == self.reading(data@),
    ;
}

/// A reader that parses the whole input at once.
pub struct STBulkReader {}

impl STBulkReader {
    /// A bulk reader.
    pub fn new() -> Self {
        Self {  }
    }
}

impl TransactionCSVReader for STBulkReader {
    open spec fn reading(&self, data: Seq<u8>) -> Seq<Record> {
        records_of_rows(csv_fields(data, true))
    }

    fn read_csv(self, data: &[u8]) -> (records: Vec<TransactionRecord>) {
        let rows = csv_rows(data, true);
        parse_rows(&rows)
    }
}

/// The position one past the first newline at or behind `from`, or the end of
/// the data where no newline follows.
pub open spec fn line_end(data: Seq<u8>, from: int) -> int
    decreases data.len() - from,
{
    if from >= data.len() {
        data.len() as int
    } else if data[from] == 10 {
        from + 1
    } else {
        line_end(data, from + 1)
    }
}

/// Where the block that starts at `start` ends: `block_size` bytes further,
/// or at the end of the data if that comes first, and from there up to and
/// including the next newline. With a block size of zero nothing is read.
pub open spec fn block_end(data: Seq<u8>, start: int, block_size: nat) -> int {
    if block_size == 0 {
        start
    } else if start + block_size >= data.len() {
        data.len() as int
    } else {
        line_end(data, start + block_size)
    }
}

/// The blocks that the data from `start` on is cut into.
pub open spec fn blocks(data: Seq<u8>, start: int, block_size: nat) -> Seq<Seq<u8>>
    decreases data.len() - start,
{
    let end = block_end(data, start, block_size);
    if 0 <= start < end <= data.len() {
        seq![data.subrange(start, end)] + blocks(data, end, block_size)
    } else {
        Seq::empty()
    }
}

/// The records of a sequence of blocks: those of the first block, then those
/// of the second, and so on.
pub open spec fn blocks_records(blocks: Seq<Seq<u8>>) -> Seq<Record>
    decreases blocks.len(),
{
    if blocks.len() == 0 {
        Seq::empty()
    } else {
        blocks_records(blocks.drop_last()) + block_records(blocks.last())
    }
}

/// A line ends behind where it is searched from and within the data.
pub proof fn lemma_line_end(data: Seq<u8>, from: int)
    requires
        0 <= from <= data.len(),
    ensures
        from <= line_end(data, from) <= data.len(),
        from < data.len() ==> from < line_end(data, from),
        forall|i: int| from <= i < line_end(data, from) - 1 ==> data[i] != 10,
        line_end(data, from) < data.len() ==> data[line_end(data, from) - 1] == 10,
    decreases data.len() - from,
{
    if from < data.len() && data[from] != 10 {
        lemma_line_end(data, from + 1);
    }
}

/// A block is cut only where data is left and the block size is positive; it
/// is not empty, and it ends behind a newline or at the end of the data.
pub proof fn lemma_block_end(data: Seq<u8>, start: int, block_size: nat)
    requires
        0 <= start <= data.len(),
    ensures
        start <= block_end(data, start, block_size) <= data.len(),
        start < block_end(data, start, block_size) <==> start < data.len() && block_size > 0,
        start < block_end(data, start, block_size) < data.len() ==> data[block_end(
            data,
            start,
            block_size,
        ) - 1] == 10,
{
    if block_size > 0 && start + block_size < data.len() {
        lemma_line_end(data, start + block_size);
    }
}

/// Cutting loses nothing and adds nothing: the blocks, put end to end, are
/// the data from `start` on.
pub proof fn lemma_blocks_cover(data: Seq<u8>, start: int, block_size: nat)
    requires
        0 <= start <= data.len(),
        block_size > 0,
    ensures
        blocks(data, start, block_size).flatten() == data.subrange(start, data.len() as int),
    decreases data.len() - start,
{
    lemma_block_end(data, start, block_size);
    let end = block_end(data, start, block_size);
    let rest = data.subrange(start, data.len() as int);
    if start < end {
        lemma_blocks_cover(data, end, block_size);
        let first = data.subrange(start, end);
        let others = blocks(data, end, block_size);
        assert(blocks(data, start, block_size) == seq![first] + others);
        assert((seq![first] + others).drop_first() =~= others);
        assert(first + data.subrange(end, data.len() as int) =~= rest);
    } else {
        assert(rest =~= Seq::<u8>::empty());
        assert(blocks(data, start, block_size) =~= Seq::<Seq<u8>>::empty());
    }
}

/// Finds the end of the line that `from` lies in.
pub fn find_line_end(data: &[u8], from: usize) -> (end: usize)
    requires
        from <= data.len(),
    ensures
        end == line_end(data@, from as int),
        from <= end <= data.len(),
{
    let mut i: usize = from;
    while i < data.len() && data[i] != 10
        invariant
            from <= i <= data.len(),
            line_end(data@, from as int) == line_end(data@, i as int),
        decreases data.len() - i,
    {
        i += 1;
    }
    if i < data.len() {
        i + 1
    } else {
        i
    }
}

/// The state of the reorder stage: the block it waits for and the blocks
/// that arrived ahead of their turn.
pub struct ReorderView {
    pub waiting_for: nat,
    pub queue: Map<u32, Seq<Record>>,
}

impl ReorderView {
    /// The stage before any block has arrived: it waits for block 1.
    pub open spec fn start() -> ReorderView {
        ReorderView { waiting_for: 1, queue: Map::empty() }
    }

    /// The stage once the block it waited for has passed.
    pub open spec fn advanced(self) -> ReorderView {
        ReorderView {
            waiting_for: self.waiting_for + 1,
            queue: self.queue.remove(self.waiting_for as u32),
        }
    }

    /// Whether the block that the stage waits for is in the queue.
    pub open spec fn has_next(self) -> bool {
        self.waiting_for <= u32::MAX && self.queue.contains_key(self.waiting_for as u32)
    }

    /// The records of the queued blocks that follow one another without a gap
    /// from the awaited block on.
    pub open spec fn backlog(self) -> Seq<Record>
        decreases 0x1_0000_0000 - self.waiting_for,
    {
        if self.has_next() {
            self.queue[self.waiting_for as u32] + self.advanced().backlog()
        } else {
            Seq::empty()
        }
    }

    /// The stage once the backlog has left the queue.
    pub open spec fn drained(self) -> ReorderView
        decreases 0x1_0000_0000 - self.waiting_for,
    {
        if self.has_next() {
            self.advanced().drained()
        } else {
            self
        }
    }

    /// The stage after block `block_id` has arrived: the awaited block passes
    /// through and takes the backlog with it; a later block is queued; an
    /// earlier one is dropped.
    pub open spec fn accept(self, block_id: u32, records: Seq<Record>) -> ReorderView {
        if block_id == self.waiting_for {
            ReorderView { waiting_for: self.waiting_for + 1, queue: self.queue }.drained()
        } else if block_id > self.waiting_for {
            ReorderView { waiting_for: self.waiting_for, queue: self.queue.insert(block_id, records) }
        } else {
            self
        }
    }

    /// The records that leave the stage when block `block_id` arrives.
    pub open spec fn released(self, block_id: u32, records: Seq<Record>) -> Seq<Record> {
        if block_id == self.waiting_for {
            records + ReorderView {
                waiting_for: self.waiting_for + 1,
                queue: self.queue,
            }.backlog()
        } else {
            Seq::empty()
        }
    }
}

/// A parsed block as it arrives at the reorder stage.
pub struct Arrival {
    pub block_id: u32,
    pub records: Seq<Record>,
}

impl ReorderView {
    /// The stage after a sequence of arrivals.
    pub open spec fn accept_all(self, arrivals: Seq<Arrival>) -> ReorderView
        decreases arrivals.len(),
    {
        if arrivals.len() == 0 {
            self
        } else {
            self.accept_all(arrivals.drop_last()).accept(
                arrivals.last().block_id,
                arrivals.last().records,
            )
        }
    }

    /// All records that leave the stage over a sequence of arrivals.
    pub open spec fn released_all(self, arrivals: Seq<Arrival>) -> Seq<Record>
        decreases arrivals.len(),
    {
        if arrivals.len() == 0 {
            Seq::empty()
        } else {
            self.released_all(arrivals.drop_last()) + self.accept_all(
                arrivals.drop_last(),
            ).released(arrivals.last().block_id, arrivals.last().records)
        }
    }
}

/// The blocks `blocks[0]`, `blocks[1]`, ... numbered from 1, in the order of
/// arrival that `order` gives: the block at index `order[k]` arrives as the
/// `k`-th.
pub open spec fn arrivals_in(blocks: Seq<Seq<Record>>, order: Seq<int>) -> Seq<Arrival> {
    Seq::new(
        order.len(),
        |k: int| Arrival { block_id: (order[k] + 1) as u32, records: blocks[order[k]] },
    )
}

/// What holds of the stage while the blocks with indices in `arrived` have
/// come in: the blocks before the awaited one have all arrived and their
/// records have left, in block order; the awaited one has not arrived; the
/// queue holds the arrived blocks behind it.
spec fn in_step(
    stage: ReorderView,
    released: Seq<Record>,
    arrived: Set<int>,
    blocks: Seq<Seq<Record>>,
) -> bool {
    let awaited = stage.waiting_for - 1;
    &&& can_follow(stage, released, arrived, blocks)
    &&& awaited < blocks.len() ==> !arrived.contains(awaited)
}

/// As [`in_step`], but the awaited block may be in the queue.
spec fn can_follow(
    stage: ReorderView,
    released: Seq<Record>,
    arrived: Set<int>,
    blocks: Seq<Seq<Record>>,
) -> bool {
    let awaited = stage.waiting_for - 1;
    &&& blocks.len() <= u32::MAX
    &&& 0 <= awaited <= blocks.len()
    &&& forall|i: int| 0 <= i < awaited ==> #[trigger] arrived.contains(i)
    &&& forall|i: int| #[trigger] arrived.contains(i) ==> 0 <= i < blocks.len()
    &&& forall|id: u32| #[trigger]
        stage.queue.contains_key(id) <==> id - 1 >= awaited && arrived.contains(id - 1)
    &&& forall|id: u32| #[trigger]
        stage.queue.contains_key(id) ==> stage.queue[id] == blocks[id - 1]
    &&& released == blocks.take(awaited).flatten_alt()
}

/// Draining the backlog brings the stage into step.
proof fn lemma_drain(
    stage: ReorderView,
    released: Seq<Record>,
    arrived: Set<int>,
    blocks: Seq<Seq<Record>>,
)
    requires
        can_follow(stage, released, arrived, blocks),
    ensures
        in_step(stage.drained(), released + stage.backlog(), arrived, blocks),
    decreases 0x1_0000_0000 - stage.waiting_for,
{
    let awaited = stage.waiting_for - 1;
    if stage.has_next() {
        let id = stage.waiting_for as u32;
        let next = stage.advanced();
        let more = released + stage.queue[id];
        assert(arrived.contains(awaited));
        assert(blocks.take(awaited + 1).drop_last() =~= blocks.take(awaited));
        assert forall|other: u32| #[trigger]
            next.queue.contains_key(other) <==> other - 1 >= awaited + 1 && arrived.contains(
                other - 1,
            ) by {
            assert(stage.queue.contains_key(other) <==> other - 1 >= awaited && arrived.contains(
                other - 1,
            ));
        }
        assert forall|other: u32| #[trigger] next.queue.contains_key(other) implies next.queue[other]
            == blocks[other - 1] by {
            assert(stage.queue.contains_key(other));
        }
        lemma_drain(next, more, arrived, blocks);
        assert(released + stage.backlog() =~= more + next.backlog());
    } else {
        assert(released + stage.backlog() =~= released);
        if awaited < blocks.len() {
            let id = stage.waiting_for as u32;
            assert(!stage.queue.contains_key(id));
        }
    }
}

/// The stage is in step after the first `k` arrivals.
proof fn lemma_arrivals(blocks: Seq<Seq<Record>>, order: Seq<int>, k: int)
    requires
        blocks.len() <= u32::MAX,
        order.len() == blocks.len(),
        order.no_duplicates(),
        forall|m: int| 0 <= m < order.len() ==> 0 <= #[trigger] order[m] < blocks.len(),
        0 <= k <= order.len(),
    ensures
        in_step(
            ReorderView::start().accept_all(arrivals_in(blocks, order).take(k)),
            ReorderView::start().released_all(arrivals_in(blocks, order).take(k)),
            order.take(k).to_set(),
            blocks,
        ),
    decreases k,
{
    let arrivals = arrivals_in(blocks, order);
    if k == 0 {
        assert(blocks.take(0) =~= Seq::<Seq<Record>>::empty());
        assert(order.take(0).to_set() =~= Set::<int>::empty());
    } else {
        lemma_arrivals(blocks, order, k - 1);
        let earlier = arrivals.take(k - 1);
        assert(arrivals.take(k).drop_last() =~= earlier);
        let stage = ReorderView::start().accept_all(earlier);
        let released = ReorderView::start().released_all(earlier);
        let arrived = order.take(k - 1).to_set();
        let index = order[k - 1];
        let id = (index + 1) as u32;
        let records = blocks[index];
        assert(arrivals.take(k).last() == Arrival { block_id: id, records });
        assert(order.take(k) =~= order.take(k - 1).push(index));
        order.take(k - 1).lemma_push_to_set_commute(index);
        let now = order.take(k).to_set();
        assert(now == arrived.insert(index));
        assert(!arrived.contains(index)) by {
            if order.take(k - 1).contains(index) {
                let earlier_order = order.take(k - 1);
                let m = choose|m: int| 0 <= m < earlier_order.len() && earlier_order[m] == index;
                assert(order[m] == order[k - 1]);
            }
        }
        let awaited = stage.waiting_for - 1;
        assert(index >= awaited) by {
            if index < awaited {
                assert(arrived.contains(index));
            }
        }
        if index == awaited {
            let passed = ReorderView { waiting_for: stage.waiting_for + 1, queue: stage.queue };
            let more = released + records;
            assert(blocks.take(awaited + 1).drop_last() =~= blocks.take(awaited));
            assert forall|other: u32| #[trigger]
                passed.queue.contains_key(other) <==> other - 1 >= awaited + 1 && now.contains(
                    other - 1,
                ) by {
                assert(stage.queue.contains_key(other) <==> other - 1 >= awaited
                    && arrived.contains(other - 1));
            }
            assert forall|i: int| 0 <= i < awaited + 1 implies #[trigger] now.contains(i) by {
                if i < awaited {
                    assert(arrived.contains(i));
                }
            }
            assert(can_follow(passed, more, now, blocks));
            lemma_drain(passed, more, now, blocks);
            assert(released + (records + passed.backlog()) =~= more + passed.backlog());
        } else {
            let queued = stage.accept(id, records);
            assert forall|other: u32| #[trigger]
                queued.queue.contains_key(other) <==> other - 1 >= awaited && now.contains(
                    other - 1,
                ) by {
                assert(stage.queue.contains_key(other) <==> other - 1 >= awaited
                    && arrived.contains(other - 1));
            }
            assert forall|i: int| 0 <= i < awaited implies #[trigger] now.contains(i) by {
                assert(arrived.contains(i));
            }
            assert(released + Seq::<Record>::empty() =~= released);
        }
    }
}

/// The reorder stage restores block order: whatever the order in which the
/// blocks 1 to `n` arrive, each once, the records leave the stage block by
/// block in the order of the block ids, none twice, and the queue is empty at
/// the end.
pub proof fn lemma_reorder(blocks: Seq<Seq<Record>>, order: Seq<int>)
    requires
        blocks.len() <= u32::MAX,
        order.len() == blocks.len(),
        order.no_duplicates(),
        forall|m: int| 0 <= m < order.len() ==> 0 <= #[trigger] order[m] < blocks.len(),
    ensures
        ReorderView::start().released_all(arrivals_in(blocks, order)) == blocks.flatten(),
        ReorderView::start().accept_all(arrivals_in(blocks, order)) == (ReorderView {
            waiting_for: blocks.len() + 1,
            queue: Map::empty(),
        }),
{
    let n = blocks.len() as int;
    let arrivals = arrivals_in(blocks, order);
    lemma_arrivals(blocks, order, n);
    assert(arrivals.take(n) =~= arrivals);
    assert(order.take(n) =~= order);
    let stage = ReorderView::start().accept_all(arrivals);
    let arrived = order.to_set();
    let awaited = stage.waiting_for - 1;
    order.unique_seq_to_set();
    vstd::set_lib::lemma_int_range(0, n);
    assert(arrived.subset_of(vstd::set_lib::set_int_range(0, n)));
    vstd::set_lib::lemma_subset_equality(arrived, vstd::set_lib::set_int_range(0, n));
    if awaited < n {
        assert(vstd::set_lib::set_int_range(0, n).contains(awaited));
    }
    assert(blocks.take(n) =~= blocks);
    blocks.lemma_flatten_and_flatten_alt_are_equivalent();
    assert(stage.queue =~= Map::<u32, Seq<Record>>::empty());
}

/// The reorder stage: it takes parsed blocks in any order and releases their
/// records in block order.
pub struct Reorder {
    waiting_for: u64,
    queue: HashMap<u32, Vec<TransactionRecord>>,
}

impl View for Reorder {
    type V = ReorderView;

    closed spec fn view(&self) -> ReorderView {
        ReorderView {
            waiting_for: self.waiting_for as nat,
            queue: Map::new(
                |id: u32| self.queue@.contains_key(id),
                |id: u32| records_of(self.queue@[id]@),
            ),
        }
    }
}

impl Reorder {
    /// The awaited block is block 1 or later, and at most one past the last
    /// block id.
    pub closed spec fn wf(&self) -> bool {
        1 <= self.waiting_for <= 0x1_0000_0000
    }

    /// A stage that waits for block 1.
    pub fn new() -> (stage: Self)
        ensures
            stage.wf(),
            stage@ == ReorderView::start(),
    {
        let stage = Reorder { waiting_for: 1, queue: HashMap::new() };
        assert(stage@.queue =~= Map::<u32, Seq<Record>>::empty());
        stage
    }

    /// Takes a parsed block and hands back the records that can leave now.
    pub fn accept(&mut self, block_id: u32, records: Vec<TransactionRecord>) -> (released: Vec<
        TransactionRecord,
    >)
        requires
            old(self).wf(),
        ensures
            final(self).wf(),
            final(self)@ == old(self)@.accept(block_id, records_of(records@)),
            records_of(released@) == old(self)@.released(block_id, records_of(records@)),
    {
        if block_id as u64 == self.waiting_for {
            let mut released = records;
            self.waiting_for = self.waiting_for + 1;
            let ghost first = self@;
            while self.waiting_for <= 0xffff_ffff
                invariant
                    1 <= self.waiting_for <= 0x1_0000_0000,
                    records_of(released@) + self@.backlog() == records_of(records@)
                        + first.backlog(),
                    self@.drained() == first.drained(),
                ensures
                    !self@.has_next(),
                decreases 0x1_0000_0000 - self.waiting_for,
            {
                let ghost before = self@;
                let ghost before_released = released@;
                let id = self.waiting_for as u32;
                match self.queue.remove(&id) {
                    Some(mut more) => {
                        let ghost added = more@;
                        released.append(&mut more);
                        self.waiting_for = self.waiting_for + 1;
                        proof {
                            assert(self@.queue =~= before.advanced().queue);
                            assert(self@ == before.advanced());
                            assert(records_of(released@) =~= records_of(before_released)
                                + records_of(added));
                            assert(records_of(released@) + self@.backlog() =~= records_of(
                                before_released,
                            ) + before.backlog());
                        }
                    },
                    None => {
                        proof {
                            assert(self@.queue =~= before.queue);
                        }
                        break ;
                    },
                }
            }
            proof {
                assert(!self@.has_next());
                assert(records_of(released@) + Seq::<Record>::empty() =~= records_of(released@));
            }
            released
        } else if block_id as u64 > self.waiting_for {
            self.queue.insert(block_id, records);
            proof {
                assert(self@.queue =~= old(self)@.queue.insert(block_id, records_of(records@)));
                assert(records_of(Seq::<TransactionRecord>::empty()) =~= Seq::<Record>::empty());
            }
            Vec::new()
        } else {
            proof {
                assert(records_of(Seq::<TransactionRecord>::empty()) =~= Seq::<Record>::empty());
            }
            Vec::new()
        }
    }
}

/// The rows of a sequence of blocks, each block read on its own: those of the
/// first block, then those of the second, and so on.
pub open spec fn blocks_rows(blocks: Seq<Seq<u8>>) -> Seq<Seq<Seq<u8>>>
    decreases blocks.len(),
{
    if blocks.len() == 0 {
        Seq::empty()
    } else {
        blocks_rows(blocks.drop_last()) + csv_fields(blocks.last(), false)
    }
}

/// The records of rows put end to end are the records of the parts put end
/// to end.
pub proof fn lemma_records_of_joined_rows(left: Seq<Seq<Seq<u8>>>, right: Seq<Seq<Seq<u8>>>)
    ensures
        records_of_rows(left + right) == records_of_rows(left) + records_of_rows(right),
    decreases right.len(),
{
    if right.len() == 0 {
        assert(left + right =~= left);
        assert(records_of_rows(left) + records_of_rows(right) =~= records_of_rows(left));
    } else {
        assert((left + right).drop_last() =~= left + right.drop_last());
        lemma_records_of_joined_rows(left, right.drop_last());
        assert(records_of_rows(left + right) =~= records_of_rows(left) + records_of_rows(right));
    }
}

/// Reading block by block gives the records of the rows of all blocks.
pub proof fn lemma_blocks_records(blocks: Seq<Seq<u8>>)
    ensures
        blocks_records(blocks) == records_of_rows(blocks_rows(blocks)),
    decreases blocks.len(),
{
    if blocks.len() > 0 {
        lemma_blocks_records(blocks.drop_last());
        lemma_records_of_joined_rows(
            blocks_rows(blocks.drop_last()),
            csv_fields(blocks.last(), false),
        );
    }
}

/// A reader that cuts the input into blocks and parses block by block.
pub struct MTReader {
    num_threads: usize,
    block_size: usize,
}

/// The largest number of blocks that can be numbered.
pub open spec fn max_blocks() -> int {
    0xffff_ffff
}

impl MTReader {
    /// A reader with one worker per processor and blocks of 32 KiB.
    pub fn new() -> (reader: Self)
        ensures
            reader.spec_block_size() == 32 * 1024,
    {
        Self { num_threads: available_cpus(), block_size: 32 * 1024 }
    }

    /// The same reader with `num_threads` workers.
    pub fn with_threads(self, num_threads: usize) -> (reader: Self)
        ensures
            reader.spec_num_threads() == num_threads,
            reader.spec_block_size() == self.spec_block_size(),
    {
        Self { num_threads, block_size: self.block_size }
    }

    /// The same reader with blocks of about `block_size` bytes.
    pub fn block_size(self, block_size: usize) -> (reader: Self)
        ensures
            reader.spec_block_size() == block_size,
            reader.spec_num_threads() == self.spec_num_threads(),
    {
        Self { num_threads: self.num_threads, block_size }
    }

    /// The number of workers.
    pub closed spec fn spec_num_threads(&self) -> nat {
        self.num_threads as nat
    }

    /// The block size in bytes.
    pub closed spec fn spec_block_size(&self) -> nat {
        self.block_size as nat
    }

    /// The number of workers.
    pub fn num_threads(&self) -> (n: usize)
        ensures
            n == self.spec_num_threads(),
    {
        self.num_threads
    }

    /// The block size in bytes.
    pub fn size_of_block(&self) -> (n: usize)
        ensures
            n == self.spec_block_size(),
    {
        self.block_size
    }

    /// The block that starts at `start`: `None` at the end of the data and
    /// where the block size is zero.
    pub fn read_block(&self, data: &[u8], start: usize) -> (block: Option<Vec<u8>>)
        ensures
            match block {
                Some(bytes) => start < data.len() && self.spec_block_size() > 0 && bytes@
                    == data@.subrange(
                    start as int,
                    block_end(data@, start as int, self.spec_block_size()),
                ) && bytes@.len() > 0,
                None => start >= data.len() || self.spec_block_size() == 0,
            },
    {
        if start >= data.len() || self.block_size == 0 {
            return None;
        }
        let end = if self.block_size >= data.len() - start {
            data.len()
        } else {
            find_line_end(data, start + self.block_size)
        };
        proof {
            lemma_block_end(data@, start as int, self.block_size as nat);
        }
        let mut block: Vec<u8> = Vec::new();
        let mut i: usize = start;
        while i < end
            invariant
                start <= i <= end <= data.len(),
                block@ == data@.subrange(start as int, i as int),
            decreases end - i,
        {
            block.push(data[i]);
            proof {
                assert(block@ =~= data@.subrange(start as int, i + 1));
            }
            i += 1;
        }
        Some(block)
    }
}

impl TransactionCSVReader for MTReader {
    /// The header line is skipped; the rest is cut into blocks, of which as
    /// many as can be numbered are read, and the records of the blocks follow
    /// one another in block order.
    open spec fn reading(&self, data: Seq<u8>) -> Seq<Record> {
        let all = blocks(data, line_end(data, 0), self.spec_block_size());
        if all.len() <= max_blocks() {
            blocks_records(all)
        } else {
            blocks_records(all.take(max_blocks()))
        }
    }

    fn read_csv(self, data: &[u8]) -> (records: Vec<TransactionRecord>) {
        let header_end = find_line_end(data, 0);
        let ghost all = blocks(data@, header_end as int, self.spec_block_size());
        let mut stage = Reorder::new();
        let mut records: Vec<TransactionRecord> = Vec::new();
        let mut block_id: u32 = 0;
        let mut start: usize = header_end;
        proof {
            assert(all.skip(0) =~= all);
            assert(all.take(0) =~= Seq::<Seq<u8>>::empty());
        }
        loop
            invariant
                start <= data.len(),
                block_id <= all.len(),
                all == blocks(data@, line_end(data@, 0), self.spec_block_size()),
                all.skip(block_id as int) == blocks(
                    data@,
                    start as int,
                    self.spec_block_size(),
                ),
                stage.wf(),
                stage@ == (ReorderView { waiting_for: block_id as nat + 1, queue: Map::empty() }),
                records_of(records@) == blocks_records(all.take(block_id as int)),
            ensures
                records_of(records@) == self.reading(data@),
            decreases data.len() - start,
        {
            proof {
                lemma_block_end(data@, start as int, self.spec_block_size());
            }
            match self.read_block(data, start) {
                None => {
                    proof {
                        assert(blocks(data@, start as int, self.spec_block_size()).len() == 0);
                        assert(all.skip(block_id as int).len() == 0);
                        assert(all.take(block_id as int) =~= all);
                    }
                    break ;
                },
                Some(block) => {
                    proof {
                        let end = block_end(data@, start as int, self.spec_block_size());
                        let rest = blocks(data@, end, self.spec_block_size());
                        assert(all.skip(block_id as int) == seq![block@] + rest);
                        assert(all.skip(block_id as int)[0] == block@);
                        assert(all[block_id as int] == block@);
                        assert(all.skip(block_id + 1) =~= all.skip(block_id as int).drop_first());
                        assert((seq![block@] + rest).drop_first() =~= rest);
                    }
                    if block_id == 0xffff_ffff {
                        break ;
                    }
                    block_id = block_id + 1;
                    let parsed = parse_block(block.as_slice());
                    let ghost before = records@;
                    let ghost parsed_records = records_of(parsed@);
                    let mut released = stage.accept(block_id, parsed);
                    proof {
                        let passed = ReorderView {
                            waiting_for: block_id as nat + 1,
                            queue: Map::empty(),
                        };
                        assert(!passed.has_next());
                        assert(records_of(released@) =~= parsed_records);
                    }
                    let ghost released_records = released@;
                    records.append(&mut released);
                    proof {
                        assert(records_of(records@) =~= records_of(before) + records_of(
                            released_records,
                        ));
                        assert(all.take(block_id as int).drop_last() =~= all.take(block_id - 1));
                    }
                    start = start + block.len();
                },
            }
        }
        records
    }
}

/// Whether the rows of `data` behind its header are the rows of its blocks:
/// whether cutting the text at the block ends cuts no row in two.
pub open spec fn cut_between_rows(data: Seq<u8>, block_size: nat) -> bool {
    csv_fields(data, true) == blocks_rows(blocks(data, line_end(data, 0), block_size))
}

/// The bulk reader and the block reader find the same records in every text
/// that the blocks cut between rows and do not cut into more blocks than can
/// be numbered.
pub proof fn lemma_readers_agree(bulk: STBulkReader, reader: MTReader, data: Seq<u8>)
    requires
        cut_between_rows(data, reader.spec_block_size()),
        blocks(data, line_end(data, 0), reader.spec_block_size()).len() <= max_blocks(),
    ensures
        reader.reading(data) == bulk.reading(data),
{
    lemma_blocks_records(blocks(data, line_end(data, 0), reader.spec_block_size()));
}

/// The records of each block.
pub open spec fn parsed_blocks(blocks: Seq<Seq<u8>>) -> Seq<Seq<Record>> {
    Seq::new(blocks.len(), |i: int| block_records(blocks[i]))
}

/// The records of all blocks put end to end are the records of the blocks in
/// block order.
pub proof fn lemma_parsed_blocks(blocks: Seq<Seq<u8>>)
    ensures
        parsed_blocks(blocks).flatten() == blocks_records(blocks),
    decreases blocks.len(),
{
    parsed_blocks(blocks).lemma_flatten_and_flatten_alt_are_equivalent();
    if blocks.len() > 0 {
        lemma_parsed_blocks(blocks.drop_last());
        parsed_blocks(blocks.drop_last()).lemma_flatten_and_flatten_alt_are_equivalent();
        assert(parsed_blocks(blocks).drop_last() =~= parsed_blocks(blocks.drop_last()));
    }
}

/// Whatever the order in which the parsed blocks of a text reach the reorder
/// stage, the records that leave it are those that the block reader finds,
/// in the same order.
pub proof fn lemma_any_arrival_order(reader: MTReader, data: Seq<u8>, order: Seq<int>)
    requires
        blocks(data, line_end(data, 0), reader.spec_block_size()).len() <= max_blocks(),
        order.len() == blocks(data, line_end(data, 0), reader.spec_block_size()).len(),
        order.no_duplicates(),
        forall|m: int| 0 <= m < order.len() ==> 0 <= #[trigger] order[m] < order.len(),
    ensures
        ReorderView::start().released_all(
            arrivals_in(
                parsed_blocks(blocks(data, line_end(data, 0), reader.spec_block_size())),
                order,
            ),
        ) == reader.reading(data),
{
    let all = blocks(data, line_end(data, 0), reader.spec_block_size());
    lemma_reorder(parsed_blocks(all), order);
    lemma_parsed_blocks(all);
}

} // verus!
