//! Gathering the results of one logical call fanned out to several backends.
//!
//! A [`DispatchHandle`] has one slot per backend, in the dispatcher's order.
//! Each backend's result is recorded in its own slot when it arrives, in
//! whatever order that happens; once every slot is filled the results are
//! combined left to right in backend order, and the first error wins.
use crate::error::Error;
use crate::procedure::Procedure;
use vstd::prelude::*;

verus! {

/// The result of combining `acc`, the results so far, with the `next` one: an
/// error stays, else an error of `next` is taken, else the responses are combined.
pub open spec fn merge<P: Procedure>(
    acc: Result<P::Response, Error>,
    next: Result<P::Response, Error>,
) -> Result<P::Response, Error> {
    match acc {
        Err(e) => Err(e),
        Ok(a) => match next {
            Err(e) => Err(e),
            Ok(b) => Ok(P::combine(a, b)),
        },
    }
}

/// The results of all backends folded left to right with [`merge`].
pub open spec fn fold_results<P: Procedure>(rs: Seq<Result<P::Response, Error>>) -> Result<
    P::Response,
    Error,
>
    decreases rs.len(),
{
    if rs.len() <= 1 {
        rs[0]
    } else {
        merge::<P>(fold_results::<P>(rs.drop_last()), rs.last())
    }
}

/// Whether every slot holds a result.
pub open spec fn all_recorded<R>(slots: Seq<Option<R>>) -> bool {
    forall|i: int| 0 <= i < slots.len() ==> (#[trigger] slots[i]) is Some
}

/// The results held by the slots.
pub open spec fn outcomes<R>(slots: Seq<Option<R>>) -> Seq<R> {
    slots.map_values(|o: Option<R>| o->0)
}

/// The slots after the results of backends `order[0]`, `order[1]`, ... arrived
/// in that order, backend `j` delivering `results[j]`.
pub open spec fn after_arrivals<R>(slots: Seq<Option<R>>, results: Seq<R>, order: Seq<int>) -> Seq<
    Option<R>,
>
    decreases order.len(),
{
    if order.len() == 0 {
        slots
    } else {
        after_arrivals(
            slots.update(order[0], Some(results[order[0]])),
            results,
            order.drop_first(),
        )
    }
}

/// Slots that nothing has been recorded in.
pub open spec fn empty_slots<R>(n: nat) -> Seq<Option<R>> {
    Seq::new(n, |j: int| None)
}

/// After a run of arrivals a slot holds its backend's result if that backend
/// arrived, and what it held before otherwise.
pub proof fn lemma_after_arrivals<R>(slots: Seq<Option<R>>, results: Seq<R>, order: Seq<int>)
    requires
        results.len() == slots.len(),
        forall|t: int| 0 <= t < order.len() ==> 0 <= #[trigger] order[t] < slots.len(),
    ensures
        after_arrivals(slots, results, order).len() == slots.len(),
        forall|j: int|
            0 <= j < slots.len() ==> #[trigger] after_arrivals(slots, results, order)[j] == if order.contains(j) {
                Some(results[j])
            } else {
                slots[j]
            },
    decreases order.len(),
{
    if order.len() > 0 {
        let next = slots.update(order[0], Some(results[order[0]]));
        let rest = order.drop_first();
        assert forall|t: int| 0 <= t < rest.len() implies 0 <= #[trigger] rest[t] < next.len() by {
            assert(rest[t] == order[t + 1]);
        }
        lemma_after_arrivals(next, results, rest);
        assert forall|j: int| 0 <= j < slots.len() implies #[trigger] after_arrivals(
            slots,
            results,
            order,
        )[j] == if order.contains(j) {
            Some(results[j])
        } else {
            slots[j]
        } by {
            if rest.contains(j) {
                let t = choose|t: int| 0 <= t < rest.len() && rest[t] == j;
                assert(order[t + 1] == j);
            } else if j == order[0] {
            } else {
                if order.contains(j) {
                    let t = choose|t: int| 0 <= t < order.len() && order[t] == j;
                    assert(t != 0);
                    assert(rest[t - 1] == j);
                }
            }
        }
    }
}

/// The outcome does not depend on the order in which backends complete: once
/// each backend has delivered its result, in any order, every slot is filled,
/// the slots hold the results in backend order, and the combined result is the
/// fold of the backends' results in backend order.
pub proof fn lemma_any_completion_order<P: Procedure>(
    results: Seq<Result<P::Response, Error>>,
    order: Seq<int>,
)
    requires
        forall|t: int| 0 <= t < order.len() ==> 0 <= #[trigger] order[t] < results.len(),
        forall|j: int| 0 <= j < results.len() ==> order.contains(j),
    ensures
        all_recorded(after_arrivals(empty_slots(results.len()), results, order)),
        outcomes(after_arrivals(empty_slots(results.len()), results, order)) == results,
        fold_results::<P>(outcomes(after_arrivals(empty_slots(results.len()), results, order)))
            == fold_results::<P>(results),
{
    let slots = empty_slots::<Result<P::Response, Error>>(results.len());
    lemma_after_arrivals(slots, results, order);
    let fin = after_arrivals(slots, results, order);
    assert forall|j: int| 0 <= j < fin.len() implies (#[trigger] fin[j]) is Some by {
        assert(order.contains(j));
    }
    assert(outcomes(fin) =~= results) by {
        assert forall|j: int| 0 <= j < results.len() implies outcomes(fin)[j] == results[j] by {
            assert(order.contains(j));
        }
    }
}

/// Once every result is in, the fold succeeds when every backend succeeded.
pub proof fn lemma_all_ok<P: Procedure>(rs: Seq<Result<P::Response, Error>>)
    requires
        rs.len() > 0,
        forall|k: int| 0 <= k < rs.len() ==> (#[trigger] rs[k]) is Ok,
    ensures
        fold_results::<P>(rs) is Ok,
    decreases rs.len(),
{
    if rs.len() > 1 {
        let init = rs.drop_last();
        assert forall|k: int| 0 <= k < init.len() implies (#[trigger] init[k]) is Ok by {
            assert(init[k] == rs[k]);
        }
        lemma_all_ok::<P>(init);
        assert(rs.last() is Ok);
    }
}

/// A failed backend fails the whole call: when some backend returns an error
/// and all before it in backend order succeed, the combined result is that
/// error, never a partial success.
pub proof fn lemma_first_error_wins<P: Procedure>(rs: Seq<Result<P::Response, Error>>, i: int)
    requires
        0 <= i < rs.len(),
        rs[i] is Err,
        forall|k: int| 0 <= k < i ==> (#[trigger] rs[k]) is Ok,
    ensures
        fold_results::<P>(rs) == rs[i],
    decreases rs.len(),
{
    if rs.len() > 1 {
        let init = rs.drop_last();
        if i < rs.len() - 1 {
            assert forall|k: int| 0 <= k < i implies (#[trigger] init[k]) is Ok by {
                assert(init[k] == rs[k]);
            }
            lemma_first_error_wins::<P>(init, i);
        } else {
            assert forall|k: int| 0 <= k < init.len() implies (#[trigger] init[k]) is Ok by {
                assert(init[k] == rs[k]);
            }
            lemma_all_ok::<P>(init);
        }
    }
}

/// The results of one logical call on every backend of a dispatcher.
pub struct DispatchHandle<P: Procedure> {
    slots: Vec<Option<Result<P::Response, Error>>>,
}

impl<P: Procedure> DispatchHandle<P> {
    /// The results recorded so far, one slot per backend.
    pub closed spec fn slots(&self) -> Seq<Option<Result<P::Response, Error>>> {
        self.slots@
    }

    /// A handle for a call on `backends` backends, none of which has answered.
    pub fn new(backends: usize) -> (r: DispatchHandle<P>)
        ensures
            r.slots() == empty_slots::<Result<P::Response, Error>>(backends as nat),
    {
        let mut slots: Vec<Option<Result<P::Response, Error>>> = Vec::new();
        let mut j: usize = 0;
        while j < backends
            invariant
                0 <= j <= backends,
                slots@ == empty_slots::<Result<P::Response, Error>>(j as nat),
            decreases backends - j,
        {
            slots.push(None);
            j = j + 1;
            assert(slots@ =~= empty_slots::<Result<P::Response, Error>>(j as nat));
        }
        DispatchHandle { slots }
    }

    /// The number of backends.
    pub fn len(&self) -> (r: usize)
        ensures
            r == self.slots().len(),
    {
        self.slots.len()
    }

    /// Records what backend `backend` returned.
    pub fn record(&mut self, backend: usize, result: Result<P::Response, Error>)
        requires
            backend < old(self).slots().len(),
        ensures
            final(self).slots() == old(self).slots().update(backend as int, Some(result)),
    {
        self.slots.set(backend, Some(result));
    }

    /// Whether every backend has answered.
    pub fn is_finished(&self) -> (r: bool)
        ensures
            r == all_recorded(self.slots()),
    {
        let mut j: usize = 0;
        while j < self.slots.len()
            invariant
                0 <= j <= self.slots@.len(),
                forall|k: int| 0 <= k < j ==> (#[trigger] self.slots@[k]) is Some,
            decreases self.slots@.len() - j,
        {
            if self.slots[j].is_none() {
                return false;
            }
            j = j + 1;
        }
        true
    }

    /// The combined result: the responses folded with [`Procedure::reduce`] in
    /// backend order, or the error of the first backend in that order that failed.
    pub fn get(self) -> (r: Result<P::Response, Error>)
        requires
            self.slots().len() > 0,
            all_recorded(self.slots()),
        ensures
            r == fold_results::<P>(outcomes(self.slots())),
    {
        let ghost outs = outcomes(self.slots@);
        let mut rest = self.slots;
        let total: usize = rest.len();
        let ghost n = total as nat;
        let first = rest.remove(0);
        let mut acc = first.unwrap();
        let mut i: usize = 1;
        assert(outs.subrange(0, 1).len() == 1);
        while rest.len() > 0
            invariant
                1 <= i <= n,
                n == outs.len(),
                n <= usize::MAX,
                rest@.len() == n - i,
                forall|k: int| 0 <= k < rest@.len() ==> (#[trigger] rest@[k]) is Some,
                forall|k: int| 0 <= k < rest@.len() ==> (#[trigger] rest@[k])->0 == outs[i + k],
                acc == fold_results::<P>(outs.subrange(0, i as int)),
            decreases rest@.len(),
        {
            let next = rest.remove(0).unwrap();
            assert(next == outs[i as int]);
            acc = match acc {
                Err(e) => Err(e),
                Ok(a) => match next {
                    Err(e) => Err(e),
                    Ok(b) => Ok(P::reduce(a, b)),
                },
            };
            assert(outs.subrange(0, i + 1).drop_last() =~= outs.subrange(0, i as int));
            i = i + 1;
        }
        assert(outs.subrange(0, n as int) =~= outs);
        acc
    }

    /// Stops waiting for the call and discards whatever was or will be
    /// recorded. What the backends already did is not undone.
    pub fn cancel(self) {
    }
}

} // verus!
