//! Collects the responses to one dispatched directive until every target has
//! answered or the deadline has passed. The caller performs the sends and
//! waits; this module decides what each arrival and the deadline mean.

use vstd::prelude::*;
use crate::protocol::{BarkResponse, ProtocolError, TargetNode};

verus! {

/// The sources of a sequence of responses.
pub open spec fn sources(rs: Seq<BarkResponse>) -> Seq<TargetNode> {
    rs.map_values(|r: BarkResponse| r.source_node)
}

/// Whether an open collection for `id` over `targets`, holding `responses`,
/// takes `r`: it answers `id`, comes from a target, and that target has not
/// answered yet.
pub open spec fn admits(id: u128, targets: Seq<TargetNode>, responses: Seq<BarkResponse>, r: BarkResponse) -> bool {
    &&& r.request_id == id
    &&& targets.contains(r.source_node)
    &&& !sources(responses).contains(r.source_node)
}

/// What an open collection holds after the arrivals `arr`, in order.
pub open spec fn offered(id: u128, targets: Seq<TargetNode>, responses: Seq<BarkResponse>, arr: Seq<BarkResponse>) -> Seq<
    BarkResponse,
>
    decreases arr.len(),
{
    if arr.len() == 0 {
        responses
    } else {
        let prev = offered(id, targets, responses, arr.drop_last());
        if admits(id, targets, prev, arr.last()) {
            prev.push(arr.last())
        } else {
            prev
        }
    }
}

/// Whether a response answers `id` and comes from one of `targets`.
pub open spec fn answers(id: u128, targets: Seq<TargetNode>, r: BarkResponse) -> bool {
    r.request_id == id && targets.contains(r.source_node)
}

/// The arrivals that answer `id` from one of `targets`, in arrival order.
pub open spec fn answering(id: u128, targets: Seq<TargetNode>, arr: Seq<BarkResponse>) -> Seq<BarkResponse>
    decreases arr.len(),
{
    if arr.len() == 0 {
        Seq::empty()
    } else {
        let prev = answering(id, targets, arr.drop_last());
        if answers(id, targets, arr.last()) {
            prev.push(arr.last())
        } else {
            prev
        }
    }
}

proof fn lemma_answering_from(id: u128, targets: Seq<TargetNode>, arr: Seq<BarkResponse>, k: int)
    requires
        0 <= k < answering(id, targets, arr).len(),
    ensures
        exists|i: int|
            0 <= i < arr.len() && arr[i] == answering(id, targets, arr)[k] && answers(id, targets, arr[i]),
    decreases arr.len(),
{
    if arr.len() > 0 {
        let prev = answering(id, targets, arr.drop_last());
        if k < prev.len() {
            lemma_answering_from(id, targets, arr.drop_last(), k);
            let i = choose|i: int|
                0 <= i < arr.drop_last().len() && arr.drop_last()[i] == prev[k] && answers(id, targets, arr.drop_last()[i]);
            assert(arr[i] == arr.drop_last()[i]);
        } else {
            assert(arr[arr.len() - 1] == arr.last());
        }
    }
}

/// Aggregation under partial failure: when no target answers twice, an open
/// collection keeps exactly the arrivals that answer its request from one of
/// its targets. With K of N targets answering before the deadline it thus
/// holds exactly K responses; the others are reported as missing.
pub proof fn lemma_partial_collection(id: u128, targets: Seq<TargetNode>, arr: Seq<BarkResponse>)
    requires
        forall|i: int, j: int|
            0 <= i < j < arr.len() && answers(id, targets, arr[i]) && answers(id, targets, arr[j])
                ==> arr[i].source_node != arr[j].source_node,
    ensures
        offered(id, targets, Seq::empty(), arr) == answering(id, targets, arr),
    decreases arr.len(),
{
    if arr.len() > 0 {
        let init = arr.drop_last();
        assert forall|i: int, j: int|
            0 <= i < j < init.len() && answers(id, targets, init[i]) && answers(id, targets, init[j])
                implies init[i].source_node != init[j].source_node by {
            assert(init[i] == arr[i] && init[j] == arr[j]);
        }
        lemma_partial_collection(id, targets, init);
        let prev = answering(id, targets, init);
        let r = arr.last();
        if answers(id, targets, r) {
            if sources(prev).contains(r.source_node) {
                let k = choose|k: int| 0 <= k < sources(prev).len() && sources(prev)[k] == r.source_node;
                lemma_answering_from(id, targets, init, k);
                let i = choose|i: int| 0 <= i < init.len() && init[i] == prev[k] && answers(id, targets, init[i]);
                assert(arr[i] == init[i]);
                assert(arr[arr.len() - 1] == r);
            }
        }
    }
}

/// A collection in progress.
pub struct Collection {
    pub request_id: u128,
    pub targets: Vec<TargetNode>,
    pub responses: Vec<BarkResponse>,
    pub closed: bool,
}

/// What the collector is told.
pub enum CollectEvent {
    Arrived(BarkResponse),
    DeadlineElapsed,
}

/// What the collector asks of its caller.
#[derive(Debug, Clone, Copy, PartialEq, Eq, Structural)]
pub enum CollectAction {
    KeepWaiting,
    Finish,
}

impl Collection {
    /// Held responses answer the request, come from distinct targets, and
    /// there is at most one per target.
    pub open spec fn wf(&self) -> bool {
        &&& self.targets@.no_duplicates()
        &&& self.targets@.len() > 0
        &&& forall|k: int| 0 <= k < self.responses@.len() ==> #[trigger] self.responses@[k].request_id == self.request_id
        &&& forall|k: int| 0 <= k < self.responses@.len() ==> self.targets@.contains(#[trigger] self.responses@[k].source_node)
        &&& sources(self.responses@).no_duplicates()
    }

    /// Whether every target has answered.
    pub open spec fn complete(&self) -> bool {
        self.responses@.len() == self.targets@.len()
    }

    /// Opens a collection for `request_id` over a set of targets; an empty set
    /// is refused.
    pub fn new(request_id: u128, targets: Vec<TargetNode>) -> (r: Result<Collection, ProtocolError>)
        requires
            targets@.no_duplicates(),
        ensures
            targets@.len() == 0 <==> r is Err,
            r matches Err(e) ==> e == ProtocolError::NoTargetsRouted,
            r matches Ok(c) ==> c.wf() && c.request_id == request_id && c.targets@ == targets@
                && c.responses@.len() == 0 && !c.closed,
    {
        if targets.len() == 0 {
            return Err(ProtocolError::NoTargetsRouted);
        }
        let c = Collection { request_id, targets, responses: Vec::new(), closed: false };
        assert(sources(c.responses@) =~= Seq::empty());
        Ok(c)
    }

    /// Whether `a` has answered already.
    pub fn has_answered(&self, a: TargetNode) -> (r: bool)
        ensures
            r == sources(self.responses@).contains(a),
    {
        let mut i: usize = 0;
        while i < self.responses.len()
            invariant
                i <= self.responses@.len(),
                forall|k: int| 0 <= k < i ==> sources(self.responses@)[k] != a,
            decreases self.responses@.len() - i,
        {
            if self.responses[i].source_node == a {
                assert(sources(self.responses@)[i as int] == a);
                return true;
            }
            i = i + 1;
        }
        false
    }

    fn is_target(&self, a: TargetNode) -> (r: bool)
        ensures
            r == self.targets@.contains(a),
    {
        let mut i: usize = 0;
        while i < self.targets.len()
            invariant
                i <= self.targets@.len(),
                forall|k: int| 0 <= k < i ==> self.targets@[k] != a,
            decreases self.targets@.len() - i,
        {
            if self.targets[i] == a {
                return true;
            }
            i = i + 1;
        }
        false
    }

    /// Takes a response if the collection is open and admits it; anything
    /// else (another request's reply, a stranger, a repeat, a late arrival)
    /// is dropped.
    pub fn offer(&mut self, response: BarkResponse) -> (accepted: bool)
        requires
            old(self).wf(),
        ensures
            final(self).wf(),
            accepted == (!old(self).closed && admits(old(self).request_id, old(self).targets@, old(self).responses@, response)),
            final(self).responses@ == if accepted {
                old(self).responses@.push(response)
            } else {
                old(self).responses@
            },
            final(self).request_id == old(self).request_id,
            final(self).targets@ == old(self).targets@,
            final(self).closed == old(self).closed,
    {
        if self.closed || response.request_id != self.request_id || !self.is_target(response.source_node)
            || self.has_answered(response.source_node) {
            return false;
        }
        let ghost before = self.responses@;
        self.responses.push(response);
        proof {
            assert(sources(self.responses@) =~= sources(before).push(response.source_node));
            assert forall|k: int| 0 <= k < self.responses@.len() implies #[trigger] self.responses@[k].request_id
                == self.request_id by {
                if k < before.len() {
                    assert(self.responses@[k] == before[k]);
                }
            }
            assert forall|k: int| 0 <= k < self.responses@.len() implies self.targets@.contains(
                #[trigger] self.responses@[k].source_node,
            ) by {
                if k < before.len() {
                    assert(self.responses@[k] == before[k]);
                }
            }
        }
        true
    }

    /// Whether every target has answered.
    pub fn is_complete(&self) -> (r: bool)
        ensures
            r == self.complete(),
    {
        self.responses.len() == self.targets.len()
    }

    /// Decides what an event means: an arrival is offered, and the
    /// collection finishes once every target has answered; the deadline
    /// closes the collection, so later arrivals are ignored.
    pub fn on_event(&mut self, event: CollectEvent) -> (action: CollectAction)
        requires
            old(self).wf(),
        ensures
            final(self).wf(),
            final(self).request_id == old(self).request_id,
            final(self).targets@ == old(self).targets@,
            match event {
                CollectEvent::Arrived(r) => {
                    &&& final(self).closed == old(self).closed
                    &&& final(self).responses@ == if !old(self).closed && admits(
                        old(self).request_id,
                        old(self).targets@,
                        old(self).responses@,
                        r,
                    ) {
                        old(self).responses@.push(r)
                    } else {
                        old(self).responses@
                    }
                    &&& action == if final(self).closed || final(self).complete() {
                        CollectAction::Finish
                    } else {
                        CollectAction::KeepWaiting
                    }
                },
                CollectEvent::DeadlineElapsed => {
                    &&& final(self).closed
                    &&& final(self).responses@ == old(self).responses@
                    &&& action == CollectAction::Finish
                },
            },
    {
        match event {
            CollectEvent::Arrived(r) => {
                self.offer(r);
                if self.closed || self.is_complete() {
                    CollectAction::Finish
                } else {
                    CollectAction::KeepWaiting
                }
            },
            CollectEvent::DeadlineElapsed => {
                self.closed = true;
                CollectAction::Finish
            },
        }
    }

    /// The targets that have not answered: reduced coverage, not an error.
    pub fn missing_targets(&self) -> (r: Vec<TargetNode>)
        ensures
            r@ == self.targets@.filter(|a: TargetNode| !sources(self.responses@).contains(a)),
    {
        let mut out: Vec<TargetNode> = Vec::new();
        let mut i: usize = 0;
        while i < self.targets.len()
            invariant
                i <= self.targets@.len(),
                out@ == self.targets@.subrange(0, i as int).filter(
                    |a: TargetNode| !sources(self.responses@).contains(a),
                ),
            decreases self.targets@.len() - i,
        {
            let a = self.targets[i];
            proof {
                let s = self.targets@.subrange(0, i as int);
                assert(self.targets@.subrange(0, i + 1) =~= s.push(a));
                reveal(Seq::filter);
                assert(s.push(a).drop_last() =~= s);
            }
            if !self.has_answered(a) {
                out.push(a);
            }
            i = i + 1;
        }
        assert(self.targets@.subrange(0, self.targets@.len() as int) =~= self.targets@);
        out
    }
}

/// The requests whose responses are being collected; at most one collection
/// runs per request id.
pub struct ActiveDirectives {
    pub ids: Vec<u128>,
}

impl ActiveDirectives {
    pub fn new() -> (r: ActiveDirectives)
        ensures
            r.ids@.len() == 0,
    {
        ActiveDirectives { ids: Vec::new() }
    }

    /// Whether a collection for `id` is outstanding.
    pub fn is_active(&self, id: u128) -> (r: bool)
        ensures
            r == self.ids@.contains(id),
    {
        let mut i: usize = 0;
        while i < self.ids.len()
            invariant
                i <= self.ids@.len(),
                forall|k: int| 0 <= k < i ==> self.ids@[k] != id,
            decreases self.ids@.len() - i,
        {
            if self.ids[i] == id {
                return true;
            }
            i = i + 1;
        }
        false
    }

    /// Registers a collection for `id`; refused while one is outstanding.
    pub fn begin(&mut self, id: u128) -> (r: bool)
        requires
            old(self).ids@.no_duplicates(),
        ensures
            final(self).ids@.no_duplicates(),
            r == !old(self).ids@.contains(id),
            final(self).ids@ == if r {
                old(self).ids@.push(id)
            } else {
                old(self).ids@
            },
    {
        if self.is_active(id) {
            return false;
        }
        self.ids.push(id);
        true
    }

    /// Ends the collection for `id`, if any.
    pub fn finish(&mut self, id: u128)
        requires
            old(self).ids@.no_duplicates(),
        ensures
            final(self).ids@.no_duplicates(),
            final(self).ids@.to_set() == old(self).ids@.to_set().remove(id),
    {
        let mut i: usize = 0;
        while i < self.ids.len()
            invariant
                i <= self.ids@.len(),
                self.ids@ == old(self).ids@,
                old(self).ids@.no_duplicates(),
                forall|k: int| 0 <= k < i ==> self.ids@[k] != id,
            decreases self.ids@.len() - i,
        {
            if self.ids[i] == id {
                let ghost before = self.ids@;
                self.ids.remove(i);
                proof {
                    assert(before.no_duplicates());
                    assert(before[i as int] == id);
                    assert(self.ids@ =~= before.subrange(0, i as int) + before.subrange(i + 1, before.len() as int));
                    assert forall|a, b: int| 0 <= a < b < self.ids@.len() implies self.ids@[a] != self.ids@[b] by {
                        let ia = if a < i { a } else { a + 1 };
                        let ib = if b < i { b } else { b + 1 };
                        assert(self.ids@[a] == before[ia] && self.ids@[b] == before[ib]);
                        assert(ia != ib);
                        assert(before[ia] != before[ib]);
                    }
                    assert forall|x: u128| self.ids@.to_set().contains(x) == before.to_set().remove(id).contains(x) by {
                        if self.ids@.contains(x) {
                            let k = choose|k: int| 0 <= k < self.ids@.len() && self.ids@[k] == x;
                            let ik = if k < i { k } else { k + 1 };
                            assert(before[ik] == x);
                            assert(ik != i);
                            assert(before[ik] != before[i as int]);
                        }
                        if before.contains(x) && x != id {
                            let k = choose|k: int| 0 <= k < before.len() && before[k] == x;
                            assert(k != i);
                            if k < i {
                                assert(self.ids@[k] == x);
                            } else {
                                assert(self.ids@[k - 1] == x);
                            }
                        }
                    }
                    assert(self.ids@.to_set() =~= before.to_set().remove(id));
                }
                return;
            }
            i = i + 1;
        }
        proof {
            assert forall|x: u128| self.ids@.to_set().contains(x) == old(self).ids@.to_set().remove(id).contains(x) by {}
            assert(self.ids@.to_set() =~= old(self).ids@.to_set().remove(id));
        }
    }
}

} // verus!
