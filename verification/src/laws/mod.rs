//! What the operations are for, stated over the bytes, numbers and names that stand in
//! memory.
//!
//! The offsets, limits and texts in these laws are written out: they say what the engine
//! has in memory, whatever the reading side makes of it.

pub mod classes;
pub mod discovery;
pub mod enums;
pub mod game;
pub mod gobjects;
pub mod image;
pub mod memory;
pub mod names;
pub mod objects;
pub mod overlay;
pub mod probe;
pub mod scan;
pub mod search;
pub mod text;
pub mod views;

use crate::mem::{Memory, Missing, Outcome, Scalar};
use crate::ue::fname::Remote;
use vstd::prelude::*;

verus! {

impl Memory {
    /// `v` stands at `addr`.
    pub open spec fn holds<T: Scalar>(self, addr: u64, v: T) -> bool {
        self.value::<T>(addr) == Ok::<Option<T>, Missing>(Some(v))
    }

    /// A pointer to `target` stands at `addr`.
    pub open spec fn points(self, addr: u64, target: u64) -> bool {
        target != 0 && self.holds::<u64>(addr, target)
    }

    /// There is no pointer at `addr`: a null stands there, or nothing that can be read.
    pub open spec fn points_nowhere(self, addr: u64) -> bool {
        self.value_or::<u64>(addr, 0) == Ok::<u64, Missing>(0)
    }

    /// `bytes` stand at `addr`.
    pub open spec fn shows(self, addr: u64, bytes: Seq<u8>) -> bool {
        self.fetch(addr, bytes.len() as usize) == Ok::<Option<Seq<u8>>, Missing>(Some(bytes))
    }
}

impl Remote {
    /// The FName at `addr` stands for `text`.
    pub open spec fn called(self, addr: u64, text: Seq<char>) -> bool {
        self.name_at(addr) == Ok::<Option<Seq<char>>, Missing>(Some(text))
    }
}

/// A pointer into user space that is no small number.
pub open spec fn in_range(p: u64) -> bool {
    0x1_0000 < p <= 0xFFFF_FFFF_FFFF
}

/// `list` holds what `step` gives for the numbers below `n`, in their order: `from` says
/// for each entry which number it comes from, and every other number gives nothing.
pub open spec fn picks<T>(
    list: Seq<T>,
    step: spec_fn(int) -> Outcome<Option<T>>,
    n: int,
    from: Seq<int>,
) -> bool {
    &&& from.len() == list.len()
    &&& forall|k: int| 0 <= k < from.len() ==> 0 <= #[trigger] from[k] < n
    &&& forall|k: int, l: int| 0 <= k < l < from.len() ==> #[trigger] from[k] < #[trigger] from[l]
    &&& forall|k: int|
        0 <= k < from.len() ==> step(#[trigger] from[k]) == Ok::<Option<T>, Missing>(Some(list[k]))
    &&& forall|i: int|
        0 <= i < n && !from.contains(i) ==> #[trigger] step(i) == Ok::<Option<T>, Missing>(None)
}

/// A walk gives what its steps give, in their order, and nothing else.
pub proof fn lemma_walk_picks<T>(step: spec_fn(int) -> Outcome<Option<T>>, n: int) -> (from: Seq<
    int,
>)
    requires
        0 <= n,
        crate::walk::collect(step, 0, n) is Ok,
    ensures
        picks(crate::walk::collect(step, 0, n)->Ok_0, step, n, from),
    decreases n,
{
    if n == 0 {
        seq![]
    } else {
        crate::walk::lemma_collect_next(step, 0, n - 1);
        let before = lemma_walk_picks(step, n - 1);
        let head = crate::walk::collect(step, 0, n - 1)->Ok_0;
        let all = crate::walk::collect(step, 0, n)->Ok_0;
        match step(n - 1) {
            Ok(Some(x)) => {
                let from = before.push(n - 1);
                assert(all == head.push(x)) by {
                    assert(head + crate::walk::optional(Some(x)) =~= head.push(x));
                }
                assert forall|i: int| 0 <= i < n && !from.contains(i) implies #[trigger] step(i)
                    == Ok::<Option<T>, Missing>(None) by {
                    assert(from[before.len() as int] == n - 1);
                    if before.contains(i) {
                        assert(from[before.index_of(i)] == i);
                    }
                }
                from
            },
            _ => {
                assert(head + crate::walk::optional(None::<T>) =~= head);
                before
            },
        }
    }
}

/// Ascending numbers below `n` that leave none out are all of them.
pub proof fn lemma_all_numbers(from: Seq<int>, n: int)
    requires
        0 <= n,
        forall|k: int| 0 <= k < from.len() ==> 0 <= #[trigger] from[k] < n,
        forall|k: int, l: int|
            0 <= k < l < from.len() ==> #[trigger] from[k] < #[trigger] from[l],
        forall|i: int| 0 <= i < n ==> from.contains(i),
    ensures
        from.len() == n,
        forall|k: int| 0 <= k < n ==> #[trigger] from[k] == k,
    decreases n,
{
    if n == 0 {
        if from.len() > 0 {
            assert(from[0] < n);
        }
    } else {
        assert(from.contains(n - 1));
        let at = from.index_of(n - 1);
        let last = from.len() - 1;
        if at < last {
            assert(from[at] < from[last]);
        }
        let before = from.drop_last();
        assert forall|i: int| 0 <= i < n - 1 implies before.contains(i) by {
            assert(from.contains(i));
            let k = from.index_of(i);
            assert(before[k] == i);
        }
        assert forall|k: int| 0 <= k < before.len() implies 0 <= #[trigger] before[k] < n - 1 by {
            assert(before[k] == from[k]);
            assert(from[k] < from[last]);
        }
        lemma_all_numbers(before, n - 1);
        assert forall|k: int| 0 <= k < n implies #[trigger] from[k] == k by {
            if k < n - 1 {
                assert(before[k] == from[k]);
            }
        }
    }
}

} // verus!
