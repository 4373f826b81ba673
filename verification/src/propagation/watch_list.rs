//! For each variable and each kind of change, the propagators to notify.

use vstd::prelude::*;
use crate::identifiers::PropagatorVarId;
use crate::predicate::DomainId;
use crate::propagation::domain_events::{DomainEvents, IntDomainEvent};

verus! {

struct WatcherLists {
    assign: Vec<PropagatorVarId>,
    lower_bound: Vec<PropagatorVarId>,
    upper_bound: Vec<PropagatorVarId>,
    removal: Vec<PropagatorVarId>,
}

impl WatcherLists {
    spec fn list(&self, event: IntDomainEvent) -> Seq<PropagatorVarId> {
        match event {
            IntDomainEvent::Assign => self.assign@,
            IntDomainEvent::LowerBound => self.lower_bound@,
            IntDomainEvent::UpperBound => self.upper_bound@,
            IntDomainEvent::Removal => self.removal@,
        }
    }
}

/// The watch lists of all variables.
pub struct WatchListCP {
    watchers: Vec<WatcherLists>,
}

impl WatchListCP {
    /// The number of variables that have watch lists.
    pub closed spec fn num_domains(&self) -> nat {
        self.watchers.len() as nat
    }

    /// The subscribers to `event` on `domain`, in the order in which they
    /// subscribed.
    pub closed spec fn watchers(&self, domain: DomainId, event: IntDomainEvent) -> Seq<
        PropagatorVarId,
    > {
        self.watchers[domain.index()].list(event)
    }

    pub fn new() -> (r: WatchListCP)
        ensures
            r.num_domains() == 0,
    {
        WatchListCP { watchers: Vec::new() }
    }

    /// Adds empty watch lists for one more variable.
    pub fn grow(&mut self)
        ensures
            final(self).num_domains() == old(self).num_domains() + 1,
            forall|d: DomainId, e: IntDomainEvent|
                d.index() < old(self).num_domains() ==> #[trigger] final(self).watchers(d, e)
                    == old(self).watchers(d, e),
            forall|d: DomainId, e: IntDomainEvent|
                d.index() == old(self).num_domains() ==> #[trigger] final(self).watchers(d, e)
                    == Seq::<PropagatorVarId>::empty(),
    {
        self.watchers.push(
            WatcherLists {
                assign: Vec::new(),
                lower_bound: Vec::new(),
                upper_bound: Vec::new(),
                removal: Vec::new(),
            },
        );
    }

    pub fn get_num_domains(&self) -> (r: usize)
        ensures
            r == self.num_domains(),
    {
        self.watchers.len()
    }

    /// Whether `self` is `old` with `watcher` appended to the list of each
    /// kind in `events` on `domain`, and nothing else changed.
    pub open spec fn watching(
        &self,
        old: &WatchListCP,
        domain: DomainId,
        events: DomainEvents,
        watcher: PropagatorVarId,
    ) -> bool {
        &&& self.num_domains() == old.num_domains()
        &&& (forall|d: DomainId, e: IntDomainEvent|
            d.index() < old.num_domains() ==> #[trigger] self.watchers(d, e) == if d == domain
                && events.has(e) {
                old.watchers(d, e).push(watcher)
            } else {
                old.watchers(d, e)
            })
    }

    /// Subscribes `watcher` to the changes `events` of `domain`.
    pub fn watch(&mut self, domain: DomainId, events: DomainEvents, watcher: PropagatorVarId)
        requires
            domain.index() < old(self).num_domains(),
        ensures
            final(self).watching(old(self), domain, events, watcher),
    {
        let i = domain.id as usize;
        if events.contains(IntDomainEvent::Assign) {
            self.watchers[i].assign.push(watcher);
        }
        if events.contains(IntDomainEvent::LowerBound) {
            self.watchers[i].lower_bound.push(watcher);
        }
        if events.contains(IntDomainEvent::UpperBound) {
            self.watchers[i].upper_bound.push(watcher);
        }
        if events.contains(IntDomainEvent::Removal) {
            self.watchers[i].removal.push(watcher);
        }
        proof {
            assert forall|d: DomainId, e: IntDomainEvent|
                d.index() < old(self).num_domains() implies #[trigger] self.watchers(d, e) == if d
                == domain && events.has(e) {
                old(self).watchers(d, e).push(watcher)
            } else {
                old(self).watchers(d, e)
            } by {
                if d.index() == domain.index() {
                    assert(d == domain);
                }
            }
        }
    }

    /// The number of subscribers to `event` on `domain`.
    pub fn num_watchers(&self, domain: DomainId, event: IntDomainEvent) -> (r: usize)
        requires
            domain.index() < self.num_domains(),
        ensures
            r == self.watchers(domain, event).len(),
    {
        let lists = &self.watchers[domain.id as usize];
        match event {
            IntDomainEvent::Assign => lists.assign.len(),
            IntDomainEvent::LowerBound => lists.lower_bound.len(),
            IntDomainEvent::UpperBound => lists.upper_bound.len(),
            IntDomainEvent::Removal => lists.removal.len(),
        }
    }

    /// The subscriber at position `index` of the list of `event` on `domain`.
    pub fn get_watcher(&self, domain: DomainId, event: IntDomainEvent, index: usize) -> (r:
        PropagatorVarId)
        requires
            domain.index() < self.num_domains(),
            index < self.watchers(domain, event).len(),
        ensures
            r == self.watchers(domain, event)[index as int],
    {
        let lists = &self.watchers[domain.id as usize];
        match event {
            IntDomainEvent::Assign => lists.assign[index],
            IntDomainEvent::LowerBound => lists.lower_bound[index],
            IntDomainEvent::UpperBound => lists.upper_bound[index],
            IntDomainEvent::Removal => lists.removal[index],
        }
    }
}

} // verus!
