//! The stages that work on decoded records, and the plan by which large
//! inputs are cut up for them.

pub mod aggregator;
pub mod calculator;
pub mod cleaner;
pub mod fields;
pub mod groups;
pub mod retain;
pub mod transformer;

pub use aggregator::{AggregationRule, DataAggregator};
pub use calculator::{IndicatorCalculator, TechnicalIndicator};
pub use cleaner::{CleaningResult, CleaningRule, DataCleaner};
pub use transformer::DataTransformer;

use vstd::prelude::*;

verus! {

/// The memory budget of a processor made by default: one gibibyte.
pub const DEFAULT_MEMORY_LIMIT: usize = 1_073_741_824;

/// The size of the chunks into which `length` items are cut for `limit`
/// workers: the least size with which `limit` chunks hold them all.
pub open spec fn chunk_length(length: int, limit: int) -> int {
    (length + limit - 1) / limit
}

/// The number of chunks of `size` items that `length` items fill, the last
/// of which may be short.
pub open spec fn chunk_count(length: int, size: int) -> int {
    if size <= 0 {
        0
    } else {
        (length + size - 1) / size
    }
}

/// Where chunk `k` starts and ends among `length` items cut into chunks of
/// `size` items.
pub open spec fn chunk_bounds(length: int, size: int, k: int) -> (int, int) {
    (
        k * size,
        if (k + 1) * size <= length {
            (k + 1) * size
        } else {
            length
        },
    )
}

/// The chunks of `plan` as pairs of numbers without bound.
pub open spec fn plan_view(plan: Seq<(usize, usize)>) -> Seq<(int, int)> {
    Seq::new(plan.len(), |k: int| (plan[k].0 as int, plan[k].1 as int))
}

/// The chunks into which `length` items are cut for `limit` workers: one
/// behind the other, each of the same size but the last.
pub open spec fn chunk_plan_of(length: int, limit: int) -> Seq<(int, int)> {
    let size = chunk_length(length, limit);
    Seq::new(chunk_count(length, size) as nat, |k: int| chunk_bounds(length, size, k))
}

/// The chunks for `limit` workers are no more than `limit`, none is empty,
/// each starts where the one before ended, the first at the first item,
/// and the last ends with the last item.
pub proof fn lemma_chunk_plan(length: int, limit: int)
    requires
        length >= 0,
        limit >= 1,
    ensures
        chunk_plan_of(length, limit).len() <= limit,
        length == 0 <==> chunk_plan_of(length, limit).len() == 0,
        forall|k: int|
            0 <= k < chunk_plan_of(length, limit).len() ==> (#[trigger] chunk_plan_of(
                length,
                limit,
            )[k]).0 < chunk_plan_of(length, limit)[k].1 && chunk_plan_of(length, limit)[k].1
                <= length,
        forall|k: int|
            0 <= k < chunk_plan_of(length, limit).len() - 1 ==> (#[trigger] chunk_plan_of(
                length,
                limit,
            )[k]).1 == chunk_plan_of(length, limit)[k + 1].0,
        length > 0 ==> chunk_plan_of(length, limit)[0].0 == 0 && chunk_plan_of(
            length,
            limit,
        )[chunk_plan_of(length, limit).len() - 1].1 == length,
{
    let size = chunk_length(length, limit);
    lemma_ceiling(length, limit);
    if length > 0 {
        lemma_ceiling(length, size);
        let count = chunk_count(length, size);
        assert(count <= limit) by (nonlinear_arith)
            requires
                (count - 1) * size < length,
                size * limit >= length,
                size >= 1,
                limit >= 1,
        ;
        let plan = chunk_plan_of(length, limit);
        assert forall|k: int| 0 <= k < plan.len() implies (#[trigger] plan[k]).0 < plan[k].1
            && plan[k].1 <= length && plan[k].0 == k * size by {
            lemma_chunk_inside(length, size, count, k);
        }
        assert forall|k: int| 0 <= k < plan.len() - 1 implies (#[trigger] plan[k]).1 == plan[k
            + 1].0 by {
            lemma_chunk_inside(length, size, count, k);
            lemma_chunk_inside(length, size, count, k + 1);
        }
        lemma_chunk_inside(length, size, count, count - 1);
        assert(0 * size == 0);
        assert((count - 1 + 1) * size >= length);
    }
}

/// Chunk `k` of `count` chunks starts within the items, and all but the
/// last chunk are whole.
proof fn lemma_chunk_inside(length: int, size: int, count: int, k: int)
    requires
        size >= 1,
        0 <= k < count,
        (count - 1) * size < length,
        count * size >= length,
    ensures
        0 <= k * size < length,
        (k + 1) * size == k * size + size,
        k < count - 1 ==> (k + 1) * size < length,
        k == count - 1 ==> (k + 1) * size >= length,
{
    assert(k * size <= (count - 1) * size) by (nonlinear_arith)
        requires
            0 <= k <= count - 1,
            size >= 1,
    ;
    assert((k + 1) * size == k * size + size) by (nonlinear_arith);
    assert(k * size >= 0) by (nonlinear_arith)
        requires
            k >= 0,
            size >= 1,
    ;
    if k < count - 1 {
        assert((k + 1) * size <= (count - 1) * size) by (nonlinear_arith)
            requires
                k + 1 <= count - 1,
                size >= 1,
        ;
    }
}

/// The least number of parts of `size` items that hold `length` items
/// holds them, and one part fewer does not.
pub proof fn lemma_ceiling(length: int, size: int)
    requires
        length >= 0,
        size >= 1,
    ensures
        (length + size - 1) / size >= 0,
        ((length + size - 1) / size) * size >= length,
        length > 0 ==> ((length + size - 1) / size - 1) * size < length && (length + size - 1)
            / size >= 1,
        length == 0 ==> (length + size - 1) / size == 0,
{
    let q = (length + size - 1) / size;
    let r = (length + size - 1) % size;
    vstd::arithmetic::div_mod::lemma_fundamental_div_mod(length + size - 1, size);
    vstd::arithmetic::div_mod::lemma_mod_bound(length + size - 1, size);
    assert(q * size == size * q) by (nonlinear_arith);
    assert((q - 1) * size == q * size - size) by (nonlinear_arith);
    if length == 0 {
        assert((size - 1) / size == 0) by (nonlinear_arith)
            requires
                size >= 1,
        ;
    } else {
        assert(q >= 1) by (nonlinear_arith)
            requires
                q * size >= length,
                length > 0,
                size >= 1,
        ;
    }
    assert(q >= 0) by (nonlinear_arith)
        requires
            q * size >= length,
            length >= 0,
            size >= 1,
    ;
}

/// Asks `num_cpus::get` for the number of processors that this process
/// may use. Trusted: it is at least one.
#[verifier::external_body]
fn available_processors() -> (count: usize)
    ensures
        count >= 1,
{
    num_cpus::get()
}

/// How much work is handed out at once: to how many workers, and within
/// what budget of memory.
#[derive(Clone, Copy, Debug, PartialEq, Eq, Structural)]
pub struct DataProcessor {
    /// The number of workers, and of chunks that a batch is cut into.
    pub concurrency_limit: usize,
    /// The budget of memory, in bytes. It is advisory.
    pub memory_limit: usize,
}

impl DataProcessor {
    /// A processor for `concurrency_limit` workers within `memory_limit`
    /// bytes.
    pub fn new(concurrency_limit: usize, memory_limit: usize) -> (processor: Self)
        ensures
            processor.concurrency_limit == concurrency_limit,
            processor.memory_limit == memory_limit,
    {
        DataProcessor { concurrency_limit, memory_limit }
    }

    /// A processor for as many workers as this process has processors,
    /// within one gibibyte.
    pub fn with_available_parallelism() -> (processor: Self)
        ensures
            processor.concurrency_limit >= 1,
            processor.memory_limit == DEFAULT_MEMORY_LIMIT,
    {
        DataProcessor::new(available_processors(), DEFAULT_MEMORY_LIMIT)
    }

    /// The size of the chunks into which `length` items are cut.
    pub fn chunk_size(&self, length: usize) -> (size: usize)
        requires
            self.concurrency_limit >= 1,
        ensures
            size == chunk_length(length as int, self.concurrency_limit as int),
            length > 0 ==> size >= 1,
            size <= length,
    {
        let limit = self.concurrency_limit;
        proof {
            lemma_ceiling(length as int, limit as int);
            crate::processors::aggregator::lemma_batch_count(length as int, limit as int);
            let ghost q = (length - 1) / (limit as int);
            if length > 0 {
                assert(q <= length - 1) by (nonlinear_arith)
                    requires
                        q == (length - 1) / (limit as int),
                        limit >= 1,
                        length >= 1,
                ;
            }
        }
        if length == 0 {
            0
        } else {
            (length - 1) / limit + 1
        }
    }

    /// Cuts `length` items into chunks for the workers: where each chunk
    /// starts and where it ends. The results of the chunks, one behind the
    /// other, are the results of the items in their order.
    pub fn chunk_plan(&self, length: usize) -> (plan: Vec<(usize, usize)>)
        requires
            self.concurrency_limit >= 1,
        ensures
            plan_view(plan@) == chunk_plan_of(length as int, self.concurrency_limit as int),
            plan.len() <= self.concurrency_limit,
    {
        let mut plan: Vec<(usize, usize)> = Vec::new();
        let size = self.chunk_size(length);
        let ghost wanted = chunk_plan_of(length as int, self.concurrency_limit as int);
        proof {
            lemma_chunk_plan(length as int, self.concurrency_limit as int);
        }
        if length == 0 {
            assert(plan_view(plan@) =~= wanted);
            return plan;
        }
        let mut from: usize = 0;
        let mut k: usize = 0;
        proof {
            lemma_ceiling(length as int, size as int);
        }
        while from < length
            invariant
                size >= 1,
                size == chunk_length(length as int, self.concurrency_limit as int),
                wanted == chunk_plan_of(length as int, self.concurrency_limit as int),
                wanted.len() == chunk_count(length as int, size as int),
                wanted.len() <= self.concurrency_limit,
                (wanted.len() - 1) * size < length,
                wanted.len() * size >= length,
                from <= length,
                plan.len() == k,
                k <= wanted.len(),
                from < length ==> from == k * size,
                from == length ==> k == wanted.len(),
                forall|j: int| 0 <= j < k ==> plan_view(plan@)[j] == wanted[j],
            decreases length - from,
        {
            let to: usize = if length - from <= size {
                length
            } else {
                from + size
            };
            proof {
                let ghost count = wanted.len() as int;
                assert((k + 1) * size == k * size + size) by (nonlinear_arith);
                assert(k < count) by (nonlinear_arith)
                    requires
                        k * size < length,
                        count * size >= length,
                        k <= count,
                        size >= 1,
                ;
                assert(wanted[k as int] == chunk_bounds(length as int, size as int, k as int));
                if to == length {
                    assert(k + 1 == count) by (nonlinear_arith)
                        requires
                            k < count,
                            (k + 1) * size >= length,
                            (count - 1) * size < length,
                            size >= 1,
                    ;
                }
            }
            let ghost before = plan_view(plan@);
            plan.push((from, to));
            proof {
                assert forall|j: int| 0 <= j < k + 1 implies plan_view(plan@)[j] == wanted[j] by {
                    if j < k {
                        assert(plan_view(plan@)[j] == before[j]);
                    }
                }
            }
            from = to;
            k += 1;
        }
        assert(plan_view(plan@) =~= wanted);
        plan
    }
}

/// What is done with the batch of a stream.
#[derive(Clone, Copy, Debug, PartialEq, Eq, Structural)]
pub enum BatchAction {
    /// The batch waits for more items.
    Hold,
    /// The batch is handed over, and a new one begun.
    Flush,
}

impl DataProcessor {
    /// What is done with a batch that holds `held` items once an item has
    /// arrived, where batches are of `batch_size` items: it is handed over
    /// as soon as it is full.
    pub fn after_item(&self, held: usize, batch_size: usize) -> (action: BatchAction)
        ensures
            action == BatchAction::Flush <==> held >= batch_size,
    {
        if held >= batch_size {
            BatchAction::Flush
        } else {
            BatchAction::Hold
        }
    }

    /// What is done with a batch that holds `held` items once the stream
    /// has ended: it is handed over unless it is empty.
    pub fn at_end(&self, held: usize) -> (action: BatchAction)
        ensures
            action == BatchAction::Flush <==> held > 0,
    {
        if held > 0 {
            BatchAction::Flush
        } else {
            BatchAction::Hold
        }
    }
}

impl Default for DataProcessor {
    /// A processor for as many workers as this process has processors,
    /// within one gibibyte.
    fn default() -> (processor: Self)
        ensures
            processor.concurrency_limit >= 1,
            processor.memory_limit == DEFAULT_MEMORY_LIMIT,
    {
        DataProcessor::with_available_parallelism()
    }
}

} // verus!
