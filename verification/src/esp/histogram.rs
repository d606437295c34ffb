//! How many actors there are of each class.

use crate::esp::actors::{Actor, ActorInfo};
use crate::text::str_equal;
use vstd::prelude::*;
use vstd::string::*;

verus! {

/// How many actors are of a class.
#[derive(Debug)]
pub struct ClassCount {
    pub class: String,
    pub count: usize,
}

impl DeepView for ClassCount {
    type V = (Seq<char>, usize);

    open spec fn deep_view(&self) -> (Seq<char>, usize) {
        (self.class@, self.count)
    }
}

/// The classes of `actors`.
pub open spec fn classes_of(actors: Seq<ActorInfo>) -> Seq<Seq<char>> {
    actors.map_values(|a: ActorInfo| a.class)
}

/// `entries` say how often each of `classes` occurs: each class stands in them once,
/// with the number of its occurrences.
pub open spec fn counts(entries: Seq<(Seq<char>, usize)>, classes: Seq<Seq<char>>) -> bool {
    &&& forall|i: int|
        0 <= i < entries.len() ==> (#[trigger] entries[i]).1 > 0 && entries[i].1
            == classes.to_multiset().count(entries[i].0)
    &&& forall|i: int, j: int|
        0 <= i < j < entries.len() ==> (#[trigger] entries[i]).0 != (#[trigger] entries[j]).0
    &&& forall|k: int| 0 <= k < classes.len() ==> stands_in(entries, #[trigger] classes[k])
}

/// `class` stands in `entries`.
pub open spec fn stands_in(entries: Seq<(Seq<char>, usize)>, class: Seq<char>) -> bool {
    exists|i: int| 0 <= i < entries.len() && (#[trigger] entries[i]).0 == class
}

/// What is more frequent stands in front.
pub open spec fn most_frequent_first(entries: Seq<(Seq<char>, usize)>) -> bool {
    forall|i: int, j: int|
        0 <= i <= j < entries.len() ==> (#[trigger] entries[i]).1 >= (#[trigger] entries[j]).1
}

/// One more of a class that stands at `j` moves it up to `k`, in front of those that
/// were as frequent.
proof fn lemma_count_again(
    entries: Seq<(Seq<char>, usize)>,
    classes: Seq<Seq<char>>,
    j: int,
    k: int,
)
    requires
        counts(entries, classes),
        most_frequent_first(entries),
        0 <= k <= j < entries.len(),
        entries[k].1 == entries[j].1,
        k > 0 ==> entries[k - 1].1 > entries[j].1,
        entries[j].1 < usize::MAX,
    ensures
        counts(
            entries.remove(j).insert(k, (entries[j].0, (entries[j].1 + 1) as usize)),
            classes.push(entries[j].0),
        ),
        most_frequent_first(
            entries.remove(j).insert(k, (entries[j].0, (entries[j].1 + 1) as usize)),
        ),
{
    broadcast use vstd::seq_lib::group_to_multiset_ensures;

    let class = entries[j].0;
    let new = entries.remove(j).insert(k, (class, (entries[j].1 + 1) as usize));
    let more = classes.push(class);
    assert(new.len() == entries.len());
    assert forall|i: int| 0 <= i < new.len() implies #[trigger] new[i] == (if i < k {
        entries[i]
    } else if i == k {
        (class, (entries[j].1 + 1) as usize)
    } else if i <= j {
        entries[i - 1]
    } else {
        entries[i]
    }) by {}
    assert(more.to_multiset() =~= classes.to_multiset().insert(class));
    assert forall|c: Seq<char>| c != class implies #[trigger] more.to_multiset().count(c)
        == classes.to_multiset().count(c) by {}
    assert forall|i: int| 0 <= i < new.len() implies (#[trigger] new[i]).1 > 0 && new[i].1
        == more.to_multiset().count(new[i].0) by {
        let from = if i < k {
            i
        } else if i == k {
            j
        } else if i <= j {
            i - 1
        } else {
            i
        };
        assert(entries[from].1 == classes.to_multiset().count(entries[from].0));
        if i != k {
            assert(entries[from].0 != entries[j].0);
        }
    }
    assert forall|a: int, b: int| 0 <= a < b < new.len() implies (#[trigger] new[a]).0 != (
    #[trigger] new[b]).0 by {
        let fa = if a < k {
            a
        } else if a == k {
            j
        } else if a <= j {
            a - 1
        } else {
            a
        };
        let fb = if b < k {
            b
        } else if b == k {
            j
        } else if b <= j {
            b - 1
        } else {
            b
        };
        assert(fa != fb);
        if fa < fb {
            assert(entries[fa].0 != entries[fb].0);
        } else {
            assert(entries[fb].0 != entries[fa].0);
        }
    }
    assert forall|n: int| 0 <= n < more.len() implies stands_in(new, #[trigger] more[n]) by {
        if n == classes.len() {
            assert(new[k].0 == class);
        } else {
            assert(stands_in(entries, classes[n]));
            let i = choose|i: int|
                0 <= i < entries.len() && (#[trigger] entries[i]).0 == classes[n];
            let to = if i < k {
                i
            } else if i == j {
                k
            } else if i < j {
                i + 1
            } else {
                i
            };
            assert(new[to].0 == more[n]);
        }
    }
    assert forall|a: int, b: int| 0 <= a <= b < new.len() implies (#[trigger] new[a]).1 >= (
    #[trigger] new[b]).1 by {
        if a < k && b >= k {
            assert(entries[a].1 >= entries[k - 1].1);
        }
    }
}

/// One of a class that has not been seen stands at the end.
proof fn lemma_count_first(
    entries: Seq<(Seq<char>, usize)>,
    classes: Seq<Seq<char>>,
    class: Seq<char>,
)
    requires
        counts(entries, classes),
        most_frequent_first(entries),
        !stands_in(entries, class),
    ensures
        counts(entries.push((class, 1)), classes.push(class)),
        most_frequent_first(entries.push((class, 1))),
{
    broadcast use vstd::seq_lib::group_to_multiset_ensures;

    let new = entries.push((class, 1));
    let more = classes.push(class);
    assert(more.to_multiset() =~= classes.to_multiset().insert(class));
    assert(classes.to_multiset().count(class) == 0) by {
        if classes.to_multiset().count(class) > 0 {
            assert(classes.contains(class));
            let n = choose|n: int| 0 <= n < classes.len() && classes[n] == class;
            assert(stands_in(entries, classes[n]));
        }
    }
    assert forall|i: int| 0 <= i < new.len() implies (#[trigger] new[i]).1 > 0 && new[i].1
        == more.to_multiset().count(new[i].0) by {
        if i < entries.len() {
            assert(new[i] == entries[i]);
            assert(entries[i].0 != class);
        }
    }
    assert forall|n: int| 0 <= n < more.len() implies stands_in(new, #[trigger] more[n]) by {
        if n == classes.len() {
            assert(new[entries.len() as int].0 == class);
        } else {
            assert(stands_in(entries, classes[n]));
            let i = choose|i: int|
                0 <= i < entries.len() && (#[trigger] entries[i]).0 == classes[n];
            assert(new[i].0 == more[n]);
        }
    }
    assert forall|a: int, b: int| 0 <= a <= b < new.len() implies (#[trigger] new[a]).1 >= (
    #[trigger] new[b]).1 by {
        if a < entries.len() {
            assert(new[a] == entries[a]);
        }
        if b < entries.len() {
            assert(new[b] == entries[b]);
        }
    }
}

/// Where `class` stands in `entries`, or their length.
fn find_class(entries: &Vec<ClassCount>, class: &str) -> (at: usize)
    ensures
        at <= entries@.len(),
        at < entries@.len() ==> entries.deep_view()[at as int].0 == class@,
        at == entries@.len() ==> !stands_in(entries.deep_view(), class@),
{
    let ghost all = entries.deep_view();
    let mut at: usize = 0;
    while at < entries.len()
        invariant
            at <= entries@.len(),
            all == entries.deep_view(),
            forall|i: int| 0 <= i < at ==> (#[trigger] all[i]).0 != class@,
        decreases entries@.len() - at,
    {
        assert(all[at as int].0 == entries@[at as int].class@);
        if str_equal(entries[at].class.as_str(), class) {
            return at;
        }
        at = at + 1;
    }
    at
}

/// How many of `actors` there are of each class, the most frequent class first. The
/// order among classes that are as frequent is left open.
pub fn class_histogram(actors: &Vec<Actor>) -> (entries: Vec<ClassCount>)
    ensures
        counts(entries.deep_view(), classes_of(actors.deep_view())),
        most_frequent_first(entries.deep_view()),
{
    let ghost classes = classes_of(actors.deep_view());
    let mut entries: Vec<ClassCount> = Vec::new();
    assert(entries.deep_view() =~= seq![]);
    let mut n: usize = 0;
    while n < actors.len()
        invariant
            n <= actors@.len(),
            classes == classes_of(actors.deep_view()),
            counts(entries.deep_view(), classes.take(n as int)),
            most_frequent_first(entries.deep_view()),
        decreases actors@.len() - n,
    {
        let ghost before = entries.deep_view();
        let ghost seen = classes.take(n as int);
        assert(classes.take(n + 1) =~= seen.push(actors@[n as int].class@));
        let at: usize = find_class(&entries, actors[n].class.as_str());
        if at < entries.len() {
            let count: usize = entries[at].count;
            let mut to: usize = at;
            while to > 0 && entries[to - 1].count == count
                invariant
                    to <= at < entries@.len(),
                    before == entries.deep_view(),
                    before[to as int].1 == count,
                    before[at as int].1 == count,
                decreases to,
            {
                to = to - 1;
                assert(before[to as int].1 == entries@[to as int].count);
            }
            proof {
                assert(before[at as int].1 == seen.to_multiset().count(before[at as int].0));
                lemma_multiset_bound(seen, before[at as int].0);
                assert(before[at as int].1 <= n);
                if to > 0 {
                    assert(before[to - 1].1 == entries@[to - 1].count);
                    assert(before[to - 1].1 >= before[at as int].1);
                }
                lemma_count_again(before, seen, at as int, to as int);
            }
            let mut entry = entries.remove(at);
            let ghost class = entry.class@;
            entry.count = count + 1;
            entries.insert(to, entry);
            assert(entries.deep_view() =~= before.remove(at as int).insert(
                to as int,
                (class, (count + 1) as usize),
            ));
        } else {
            proof {
                lemma_count_first(before, seen, actors@[n as int].class@);
            }
            let entry = ClassCount { class: actors[n].class.clone(), count: 1 };
            entries.push(entry);
            assert(entries.deep_view() =~= before.push((actors@[n as int].class@, 1)));
        }
        n = n + 1;
    }
    assert(classes.take(n as int) =~= classes);
    entries
}

/// How many classes are shown.
pub const TOP_CLASSES: usize = 30;

/// The first entries of a histogram, as many as are shown.
pub open spec fn top_of<T>(entries: Seq<T>) -> Seq<T> {
    if entries.len() < TOP_CLASSES {
        entries
    } else {
        entries.take(TOP_CLASSES as int)
    }
}

/// Keep the first entries of a histogram, as many as are shown.
pub fn top_classes(entries: Vec<ClassCount>) -> (top: Vec<ClassCount>)
    ensures
        top@ == top_of(entries@),
{
    let mut top = entries;
    top.truncate(TOP_CLASSES);
    top
}

/// Nothing occurs more often than there are items.
proof fn lemma_multiset_bound(items: Seq<Seq<char>>, item: Seq<char>)
    ensures
        items.to_multiset().count(item) <= items.len(),
    decreases items.len(),
{
    broadcast use vstd::seq_lib::group_to_multiset_ensures;

    if items.len() > 0 {
        lemma_multiset_bound(items.drop_last(), item);
        assert(items =~= items.drop_last().push(items.last()));
        assert(items.to_multiset() =~= items.drop_last().to_multiset().insert(items.last()));
    } else {
        assert(items.to_multiset().count(item) == 0) by {
            if items.to_multiset().count(item) > 0 {
                assert(items.contains(item));
            }
        }
    }
}

} // verus!
