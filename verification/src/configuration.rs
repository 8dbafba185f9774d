//! The worker that reads the settings of network interfaces in the background: what
//! it is asked for, when, and which of its results count.
use crate::model::Nanos;
use crate::nic::{EthtoolOutcome, NicCollection, NicInterface};
use crate::text;
use crate::text::{copy_option, owned, same_option, same_text};
use crate::translate::CollectionTiming;
use vstd::prelude::*;

verus! {

/// Over how long a recurring request is spread.
pub const STAGGER: Nanos = 5_000_000_000;

/// How many interfaces are read in one go.
pub const BATCH_SIZE: usize = 4;

/// What is said of a worker that is gone.
pub const WORKER_STOPPED: &'static str = "NIC configuration worker stopped";

/// What makes an interface the same interface.
#[derive(Clone, Debug, PartialEq, Eq)]
pub struct Identity<T> {
    pub index: u32,
    pub hardware: bool,
    pub driver: Option<T>,
    pub directory: Option<T>,
    pub device: Option<T>,
}

impl DeepView for Identity<String> {
    type V = Identity<Seq<char>>;

    open spec fn deep_view(&self) -> Identity<Seq<char>> {
        Identity {
            index: self.index,
            hardware: self.hardware,
            driver: text::optional_text(self.driver),
            directory: text::optional_text(self.directory),
            device: text::optional_text(self.device),
        }
    }
}

/// An interface by its name.
#[derive(Clone, Debug, PartialEq, Eq)]
pub struct InventoryEntry<T> {
    pub name: T,
    pub identity: Identity<T>,
}

impl DeepView for InventoryEntry<String> {
    type V = InventoryEntry<Seq<char>>;

    open spec fn deep_view(&self) -> InventoryEntry<Seq<char>> {
        InventoryEntry { name: self.name@, identity: self.identity.deep_view() }
    }
}

impl InventoryEntry<String> {
    fn same(&self, other: &InventoryEntry<String>) -> (same: bool)
        ensures
            same == (self.deep_view() == other.deep_view()),
    {
        same_text(self.name.as_str(), other.name.as_str()) && self.identity.index
            == other.identity.index && self.identity.hardware == other.identity.hardware
            && same_option(&self.identity.driver, &other.identity.driver) && same_option(
            &self.identity.directory,
            &other.identity.directory,
        ) && same_option(&self.identity.device, &other.identity.device)
    }
}

/// The interfaces there are, in the order of their names.
pub type Inventory = Vec<InventoryEntry<String>>;

pub type InventoryModel = Seq<InventoryEntry<Seq<char>>>;

/// Whether two inventories list the same interfaces.
pub fn same_inventory(a: &Inventory, b: &Inventory) -> (same: bool)
    ensures
        same == (a.deep_view() == b.deep_view()),
{
    let ghost left = a.deep_view();
    let ghost right = b.deep_view();
    assert(left.len() == a@.len() && right.len() == b@.len());
    if a.len() != b.len() {
        return false;
    }
    let mut i: usize = 0;
    while i < a.len()
        invariant
            i <= a.len() == b.len(),
            left == a.deep_view(),
            right == b.deep_view(),
            left.len() == a@.len() && right.len() == b@.len(),
            forall|j: int| 0 <= j < i ==> left[j] == right[j],
        decreases a.len() - i,
    {
        assert(left[i as int] == a@[i as int].deep_view());
        assert(right[i as int] == b@[i as int].deep_view());
        if !a[i].same(&b[i]) {
            return false;
        }
        i += 1;
    }
    assert(left =~= right);
    true
}

/// Settings that the worker read, and the interfaces it was asked for.
#[derive(Clone, Debug, PartialEq, Eq)]
pub struct Batch {
    pub collection: NicCollection,
    pub timing: CollectionTiming,
    pub inventory: Inventory,
    /// Whether the interfaces were still the same when the last one was read.
    pub valid: bool,
}

/// What the worker's channel holds.
#[derive(Clone, Debug, PartialEq, Eq)]
pub enum Polled {
    Nothing,
    Finished(Batch),
    Disconnected,
}

/// What is known of the worker.
#[derive(Clone, Debug, PartialEq, Eq)]
pub struct Service {
    pub running: bool,
    pub pending: bool,
    pub inventory: Inventory,
    pub published: Option<Inventory>,
}

/// What a request needs.
#[derive(Clone, Copy, Debug, PartialEq, Eq, Structural)]
pub enum RequestStep {
    /// A request is under way already.
    Wait,
    /// The worker has to be started first.
    Start,
    Send,
}

impl Service {
    pub fn new() -> (service: Service)
        ensures
            !service.running,
            !service.pending,
            service.inventory@.len() == 0,
            service.published is None,
    {
        Service { running: false, pending: false, inventory: Vec::new(), published: None }
    }

    /// Takes note of the interfaces there are.
    pub fn observe_inventory(&mut self, inventory: Inventory)
        ensures
            *final(self) == (Service { inventory, ..*old(self) }),
    {
        self.inventory = inventory;
    }

    /// Whether the settings that were published are of the interfaces there are.
    pub open spec fn is_current(&self) -> bool {
        self.published matches Some(published) && published.deep_view()
            == self.inventory.deep_view()
    }

    pub fn current(&self) -> (current: bool)
        ensures
            current == self.is_current(),
    {
        match &self.published {
            Some(published) => same_inventory(published, &self.inventory),
            None => false,
        }
    }

    /// Gives the worker up.
    pub fn stop(&mut self)
        ensures
            *final(self) == (Service { running: false, pending: false, ..*old(self) }),
    {
        self.running = false;
        self.pending = false;
    }

    /// Takes what the worker's channel holds. A batch counts only if it is of the
    /// interfaces there are; a worker that is gone is given up.
    pub fn poll(&mut self, polled: Polled) -> (result: Result<Option<Batch>, &'static str>)
        ensures
            final(self).inventory == old(self).inventory,
            !old(self).running ==> *final(self) == *old(self) && result matches Ok(None),
            old(self).running ==> match polled {
                Polled::Nothing => *final(self) == *old(self) && result matches Ok(None),
                Polled::Disconnected => *final(self) == (Service {
                    running: false,
                    pending: false,
                    ..*old(self)
                }) && (result matches Err(words) && words@ == WORKER_STOPPED@),
                Polled::Finished(batch) => {
                    &&& final(self).running
                    &&& !final(self).pending
                    &&& if batch.valid && batch.inventory.deep_view()
                        == old(self).inventory.deep_view() {
                        result == Ok::<Option<Batch>, &'static str>(Some(batch))
                            && final(self).is_current()
                    } else {
                        result matches Ok(None) && final(self).published == old(self).published
                    }
                },
            },
    {
        if !self.running {
            return Ok(None);
        }
        match polled {
            Polled::Nothing => Ok(None),
            Polled::Disconnected => {
                self.stop();
                Err(WORKER_STOPPED)
            },
            Polled::Finished(batch) => {
                self.pending = false;
                if !batch.valid || !same_inventory(&batch.inventory, &self.inventory) {
                    return Ok(None);
                }
                let published = copy_inventory(&batch.inventory);
                self.published = Some(published);
                Ok(Some(batch))
            },
        }
    }

    /// What a request needs now.
    pub fn next_request_step(&self) -> (step: RequestStep)
        ensures
            step == if self.pending {
                RequestStep::Wait
            } else if !self.running {
                RequestStep::Start
            } else {
                RequestStep::Send
            },
            step is Wait <==> self.pending,
            step is Send ==> self.running,
            step is Start ==> !self.running,
    {
        if self.pending {
            RequestStep::Wait
        } else if !self.running {
            RequestStep::Start
        } else {
            RequestStep::Send
        }
    }

    /// Takes note that the worker was started.
    pub fn started(&mut self)
        ensures
            *final(self) == (Service { running: true, ..*old(self) }),
    {
        self.running = true;
    }

    /// Takes note that a request was sent.
    pub fn requested(&mut self)
        ensures
            *final(self) == (Service { pending: true, ..*old(self) }),
    {
        self.pending = true;
    }
}

fn copy_inventory(inventory: &Inventory) -> (copy: Inventory)
    ensures
        copy.deep_view() == inventory.deep_view(),
{
    let ghost all = inventory.deep_view();
    let mut copy: Inventory = Vec::new();
    for i in 0..inventory.len()
        invariant
            all == inventory.deep_view(),
            all.len() == inventory@.len(),
            copy@.len() == i,
            forall|j: int| 0 <= j < i ==> (#[trigger] copy@[j]).deep_view() == all[j],
    {
        let entry = &inventory[i];
        assert(all[i as int] == entry.deep_view());
        copy.push(
            InventoryEntry {
                name: owned(entry.name.as_str()),
                identity: Identity {
                    index: entry.identity.index,
                    hardware: entry.identity.hardware,
                    driver: copy_option(&entry.identity.driver),
                    directory: copy_option(&entry.identity.directory),
                    device: copy_option(&entry.identity.device),
                },
            },
        );
    }
    assert(copy.deep_view() =~= all);
    copy
}

/// A published batch is of the interfaces there are, until these change: settings of
/// an interface that was replaced are never taken for those of its successor.
pub proof fn a_changed_inventory_is_not_current(service: Service, inventory: Inventory)
    requires
        service.is_current(),
        inventory.deep_view() != service.inventory.deep_view(),
    ensures
        !(Service { inventory, ..service }).is_current(),
{
}

/// The interfaces of a request: as they were collected, but without their
/// statistics.
pub fn without_statistics(collection: NicCollection) -> (request: NicCollection)
    ensures
        request.errors == collection.errors,
        request.interfaces@.len() == collection.interfaces@.len(),
        forall|i: int|
            0 <= i < collection.interfaces@.len() ==> #[trigger] request.interfaces@[i] == (
            NicInterface {
                ethtool: EthtoolOutcome::NotHardwareInterface,
                ..collection.interfaces@[i]
            }),
{
    let mut request = collection;
    let count: usize = request.interfaces.len();
    for i in 0..count
        invariant
            count == request.interfaces@.len() == collection.interfaces@.len(),
            request.errors == collection.errors,
            forall|j: int|
                0 <= j < i ==> #[trigger] request.interfaces@[j] == (NicInterface {
                    ethtool: EthtoolOutcome::NotHardwareInterface,
                    ..collection.interfaces@[j]
                }),
            forall|j: int|
                i <= j < count ==> #[trigger] request.interfaces@[j] == collection.interfaces@[j],
    {
        request.interfaces[i].ethtool = EthtoolOutcome::NotHardwareInterface;
    }
    request
}

/// The batch that a request becomes: it counts only if the interfaces are still those
/// that it was made for, and reading them took no longer than the session has run.
pub fn finish_batch(
    collection: NicCollection,
    inventory: Inventory,
    found: &Inventory,
    finished_at: Nanos,
    spent: Nanos,
) -> (batch: Batch)
    ensures
        batch == (Batch {
            collection,
            timing: CollectionTiming {
                finished_at,
                collection_duration: if spent < finished_at {
                    spent
                } else {
                    finished_at
                },
            },
            inventory,
            valid: found.deep_view() == inventory.deep_view(),
        }),
        batch.timing.finished_at == finished_at,
        batch.timing.collection_duration <= finished_at,
        batch.timing.collection_duration <= spent,
        spent <= finished_at ==> batch.timing.collection_duration == spent,
        batch.valid <==> found.deep_view() == batch.inventory.deep_view(),
{
    let valid = same_inventory(found, &inventory);
    let collection_duration: Nanos = if spent < finished_at {
        spent
    } else {
        finished_at
    };
    Batch {
        collection,
        timing: CollectionTiming { finished_at, collection_duration },
        inventory,
        valid,
    }
}

/// In how many goes the interfaces are read.
pub fn batch_count(interfaces: usize) -> (batches: usize)
    ensures
        batches == (interfaces + BATCH_SIZE - 1) / (BATCH_SIZE as int),
        4 * batches >= interfaces,
        batches > 0 ==> 4 * (batches - 1) < interfaces,
{
    interfaces / BATCH_SIZE + if interfaces % BATCH_SIZE == 0 {
        0usize
    } else {
        1usize
    }
}

/// When a batch is due, from the start of the request: the batches are spread
/// evenly, the first at once and the last at the end, each to the nearest nanosecond.
pub open spec fn offset_of(stagger: int, index: int, batches: int) -> int {
    if batches < 2 {
        0
    } else {
        (2 * stagger * index + batches - 1) / (2 * (batches - 1))
    }
}

pub fn offset(stagger: Nanos, index: usize, batches: usize) -> (offset: Nanos)
    requires
        2 * stagger * index + batches <= Nanos::MAX,
    ensures
        offset == offset_of(stagger as int, index as int, batches as int),
{
    if batches < 2 {
        0
    } else {
        let gaps: Nanos = (batches - 1) as Nanos;
        assert(stagger * index * 2 == 2 * stagger * index) by (nonlinear_arith);
        assert(0 <= stagger * index) by (nonlinear_arith);
        (stagger * (index as Nanos) * 2 + gaps) / (gaps * 2)
    }
}

/// The batches of a request span the whole window in order, and a single batch is
/// not delayed.
pub proof fn batches_span_the_window(stagger: int, index: int, batches: int)
    requires
        0 <= stagger,
        0 <= index < batches,
    ensures
        offset_of(stagger, 0, batches) == 0,
        batches >= 2 ==> offset_of(stagger, batches - 1, batches) == stagger,
        0 <= offset_of(stagger, index, batches) <= stagger,
        index + 1 < batches ==> offset_of(stagger, index, batches) <= offset_of(
            stagger,
            index + 1,
            batches,
        ),
        offset_of(stagger, index, 1) == 0,
{
    if batches >= 2 {
        let d = batches - 1;
        assert((2 * stagger * 0 + d) / (2 * d) == 0) by (nonlinear_arith)
            requires
                d > 0,
        ;
        assert((2 * stagger * d + d) / (2 * d) == stagger) by (nonlinear_arith)
            requires
                d > 0,
        ;
        assert(0 <= (2 * stagger * index + d) / (2 * d) <= stagger) by (nonlinear_arith)
            requires
                d > 0,
                0 <= index <= d,
                0 <= stagger,
        ;
        assert((2 * stagger * index + d) / (2 * d) <= (2 * stagger * (index + 1) + d) / (2 * d))
            by (nonlinear_arith)
            requires
                d > 0,
                0 <= stagger,
        ;
    }
}

} // verus!
