//! Walks over numbered items of which each may ask for a read.

use crate::mem::{Memory, Outcome};
use vstd::prelude::*;

verus! {

/// An optional item as a sequence.
pub open spec fn optional<T>(item: Option<T>) -> Seq<T> {
    match item {
        Some(x) => seq![x],
        None => seq![],
    }
}

/// The items that `step` gives for the numbers from `from` up to, not including,
/// `to`; or the first read that one of them asks for.
pub open spec fn collect<T>(step: spec_fn(int) -> Outcome<Option<T>>, from: int, to: int) -> Outcome<
    Seq<T>,
>
    decreases to - from,
{
    if from >= to {
        Ok(seq![])
    } else {
        match step(from) {
            Err(e) => Err(e),
            Ok(item) => match collect(step, from + 1, to) {
                Err(e) => Err(e),
                Ok(rest) => Ok(optional(item) + rest),
            },
        }
    }
}

/// A walk can be cut in two at any number that it reaches.
pub proof fn lemma_collect_cut<T>(
    step: spec_fn(int) -> Outcome<Option<T>>,
    from: int,
    mid: int,
    to: int,
)
    requires
        from <= mid <= to,
    ensures
        collect(step, from, to) == (match collect(step, from, mid) {
            Err(e) => Err(e),
            Ok(head) => match collect(step, mid, to) {
                Err(e) => Err(e),
                Ok(tail) => Ok(head + tail),
            },
        }),
    decreases mid - from,
{
    if from < mid {
        lemma_collect_cut(step, from + 1, mid, to);
        match step(from) {
            Ok(item) => {
                match (collect(step, from + 1, mid), collect(step, mid, to)) {
                    (Ok(head), Ok(tail)) => {
                        assert(optional(item) + head + tail =~= optional(item) + (head + tail));
                    },
                    _ => {},
                }
            },
            Err(_) => {},
        }
    } else {
        match collect(step, mid, to) {
            Ok(tail) => {
                assert(Seq::<T>::empty() + tail =~= tail);
            },
            Err(_) => {},
        }
    }
}

/// One more number adds the item that it gives.
pub proof fn lemma_collect_next<T>(step: spec_fn(int) -> Outcome<Option<T>>, from: int, to: int)
    requires
        from <= to,
    ensures
        collect(step, from, to + 1) == (match collect(step, from, to) {
            Err(e) => Err(e),
            Ok(head) => match step(to) {
                Err(e) => Err(e),
                Ok(item) => Ok(head + optional(item)),
            },
        }),
{
    lemma_collect_cut(step, from, to, to + 1);
    reveal_with_fuel(collect, 3);
    match step(to) {
        Ok(item) => {
            assert(optional(item) + Seq::<T>::empty() =~= optional(item));
        },
        Err(_) => {},
    }
}

/// Numbers that give nothing add nothing.
pub proof fn lemma_collect_skip<T>(
    step: spec_fn(int) -> Outcome<Option<T>>,
    from: int,
    mid: int,
    to: int,
)
    requires
        from <= mid <= to,
        forall|i: int| mid <= i < to ==> (#[trigger] step(i)) == Ok::<Option<T>, crate::mem::Missing>(None),
    ensures
        collect(step, from, to) == collect(step, from, mid),
    decreases to - mid,
{
    if mid < to {
        lemma_collect_skip(step, from, mid, to - 1);
        lemma_collect_next(step, from, to - 1);
        match collect(step, from, to - 1) {
            Ok(head) => {
                assert(head + Seq::<T>::empty() =~= head);
            },
            Err(_) => {},
        }
    }
}

/// A walk asks for the read that the first unanswered number asks for.
pub proof fn lemma_collect_stop<T>(
    step: spec_fn(int) -> Outcome<Option<T>>,
    from: int,
    mid: int,
    to: int,
)
    requires
        from <= mid < to,
        collect(step, from, mid) is Ok,
        step(mid) is Err,
    ensures
        collect(step, from, to) == Err::<Seq<T>, crate::mem::Missing>(step(mid)->Err_0),
{
    lemma_collect_cut(step, from, mid, to);
}

/// A walk is settled if each of its steps is: what it has found stays found as
/// pages are fetched, and what it asks for is not known.
pub proof fn lemma_collect_settled<T>(
    m: Memory,
    step: spec_fn(int) -> Outcome<Option<T>>,
    later: spec_fn(int) -> Outcome<Option<T>>,
    from: int,
    to: int,
)
    requires
        forall|i: int| from <= i < to ==> m.settles(#[trigger] step(i), later(i)),
    ensures
        m.settles(collect(step, from, to), collect(later, from, to)),
    decreases to - from,
{
    if from < to {
        assert(m.settles(step(from), later(from)));
        lemma_collect_settled(m, step, later, from + 1, to);
    }
}

/// How many items a walk gives at most.
pub proof fn lemma_collect_len<T>(step: spec_fn(int) -> Outcome<Option<T>>, from: int, to: int)
    requires
        from <= to,
    ensures
        collect(step, from, to) matches Ok(items) ==> items.len() <= to - from,
    decreases to - from,
{
    if from < to {
        lemma_collect_len(step, from + 1, to);
    }
}

/// Every item of a walk is one that some number gives.
pub proof fn lemma_collect_from_steps<T>(
    step: spec_fn(int) -> Outcome<Option<T>>,
    from: int,
    to: int,
    at: int,
) -> (i: int)
    requires
        from <= to,
        collect(step, from, to) is Ok,
        0 <= at < collect(step, from, to)->Ok_0.len(),
    ensures
        from <= i < to,
        step(i) == Ok::<Option<T>, crate::mem::Missing>(Some(collect(step, from, to)->Ok_0[at])),
    decreases to - from,
{
    match step(from) {
        Ok(Some(_)) => if at == 0 {
            from
        } else {
            lemma_collect_from_steps(step, from + 1, to, at - 1)
        },
        _ => {
            assert(collect(step, from, to)->Ok_0 =~= collect(step, from + 1, to)->Ok_0);
            lemma_collect_from_steps(step, from + 1, to, at)
        },
    }
}

/// Every item that a number gives is in the walk.
pub proof fn lemma_collect_has_each<T>(
    step: spec_fn(int) -> Outcome<Option<T>>,
    from: int,
    to: int,
    i: int,
)
    requires
        from <= i < to,
        collect(step, from, to) is Ok,
        step(i) matches Ok(Some(_)),
    ensures
        collect(step, from, to)->Ok_0.contains(step(i)->Ok_0->0),
    decreases to - from,
{
    let all = collect(step, from, to)->Ok_0;
    let rest = collect(step, from + 1, to)->Ok_0;
    if i == from {
        assert(all[0] == step(i)->Ok_0->0);
    } else {
        lemma_collect_has_each(step, from + 1, to, i);
        let head = optional(step(from)->Ok_0);
        assert(all[head.len() + rest.index_of(step(i)->Ok_0->0)] == step(i)->Ok_0->0);
    }
}

} // verus!
