//! What an execution reports, and the sinks that take the reports.

use smallvec::SmallVec;
use vstd::prelude::*;

verus! {

/// One report of `execute_order`.
#[derive(Debug, Clone, Copy, PartialEq, Eq, Structural)]
pub enum LogItem {
    /// The order, or what was left of it, was put into its side's queue.
    Enqueued { size: u64 },
    /// `size` units were traded with the resting order of `user_id` at its `price`.
    Fulfilled { size: u64, price: u64, user_id: u64 },
    /// `size` units of the order found no match and were given up.
    Cancelled { size: u64 },
}

/// A sink for the reports of one execution.
pub trait ExecutionLogger {
    /// The items that a reader of the logger finds in it.
    spec fn view(&self) -> Seq<LogItem>;

    /// What a logger that holds `before` holds once `item` has been logged.
    spec fn logged(before: Seq<LogItem>, item: LogItem) -> Seq<LogItem>;

    /// What a logger that holds `before` holds after a cancellation.
    spec fn cancelled(before: Seq<LogItem>) -> Seq<LogItem>;

    /// Takes one report.
    fn log(&mut self, item: LogItem)
        ensures
            final(self)@ == Self::logged(old(self)@, item),
    ;

    /// Forgets the reports of a matching that is being undone.
    fn cancel(&mut self)
        ensures
            final(self)@ == Self::cancelled(old(self)@),
    ;
}

/// What a logger of type `L` that holds `before` holds once `items` have been
/// logged, one after the other.
pub open spec fn after_logging<L: ExecutionLogger>(
    before: Seq<LogItem>,
    items: Seq<LogItem>,
) -> Seq<LogItem>
    decreases items.len(),
{
    if items.len() == 0 {
        before
    } else {
        L::logged(after_logging::<L>(before, items.drop_last()), items.last())
    }
}

/// A logger that keeps nothing.
pub struct DummyLogger;

impl ExecutionLogger for DummyLogger {
    open spec fn view(&self) -> Seq<LogItem> {
        Seq::empty()
    }

    open spec fn logged(before: Seq<LogItem>, item: LogItem) -> Seq<LogItem> {
        Seq::empty()
    }

    open spec fn cancelled(before: Seq<LogItem>) -> Seq<LogItem> {
        Seq::empty()
    }

    fn log(&mut self, _item: LogItem) {
    }

    fn cancel(&mut self) {
    }
}

/// The store of a `VectorLogger`: a `SmallVec` that keeps its first 32 items inline.
#[verifier::external_body]
pub struct ItemStore(SmallVec<[LogItem; 32]>);

/// The items that a store holds, first pushed first.
pub uninterp spec fn stored_items(store: ItemStore) -> Seq<LogItem>;

/// `SmallVec::new`: a vector that holds nothing.
#[verifier::external_body]
fn store_new() -> (store: ItemStore)
    ensures
        stored_items(store) == Seq::<LogItem>::empty(),
{
    ItemStore(SmallVec::new())
}

/// `SmallVec::push`: `item` is appended behind what the vector held. Running out
/// of memory is outside this contract.
#[verifier::external_body]
fn store_push(store: &mut ItemStore, item: LogItem)
    ensures
        stored_items(*final(store)) == stored_items(*old(store)).push(item),
{
    store.0.push(item)
}

/// `SmallVec::clear`: the vector holds nothing afterwards.
#[verifier::external_body]
fn store_clear(store: &mut ItemStore)
    ensures
        stored_items(*final(store)) == Seq::<LogItem>::empty(),
{
    store.0.clear()
}

/// `SmallVec::as_slice`: the items of the vector, in order.
#[verifier::external_body]
fn store_as_slice(store: &ItemStore) -> (slice: &[LogItem])
    ensures
        slice@ == stored_items(*store),
{
    store.0.as_slice()
}

/// A logger that keeps its items in memory.
pub struct VectorLogger(ItemStore);

impl VectorLogger {
    /// A logger that holds nothing.
    pub fn new() -> (logger: Self)
        ensures
            logger@ == Seq::<LogItem>::empty(),
    {
        VectorLogger(store_new())
    }

    /// The logged items, oldest first.
    pub fn as_slice(&self) -> (items: &[LogItem])
        ensures
            items@ == self@,
    {
        store_as_slice(&self.0)
    }
}

impl ExecutionLogger for VectorLogger {
    closed spec fn view(&self) -> Seq<LogItem> {
        stored_items(self.0)
    }

    open spec fn logged(before: Seq<LogItem>, item: LogItem) -> Seq<LogItem> {
        before.push(item)
    }

    open spec fn cancelled(before: Seq<LogItem>) -> Seq<LogItem> {
        Seq::empty()
    }

    fn log(&mut self, item: LogItem) {
        store_push(&mut self.0, item);
    }

    fn cancel(&mut self) {
        store_clear(&mut self.0);
    }
}

/// A `VectorLogger` keeps what it is given: after `items` were logged it holds
/// them behind what it held before.
pub proof fn lemma_vector_logger_keeps(before: Seq<LogItem>, items: Seq<LogItem>)
    ensures
        after_logging::<VectorLogger>(before, items) == before + items,
    decreases items.len(),
{
    if items.len() == 0 {
        assert(before + items =~= before);
    } else {
        lemma_vector_logger_keeps(before, items.drop_last());
        assert((before + items.drop_last()).push(items.last()) =~= before + items);
    }
}

} // verus!
