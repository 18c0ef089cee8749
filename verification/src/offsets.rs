//! Sets of offsets: intersection, order and pages.

use crate::text::sort_integers;
use std::collections::HashSet;
use vstd::prelude::*;

verus! {

broadcast use vstd::std_specs::hash::group_hash_axioms;

/// `list` holds the members of `set`, each once, in ascending order.
pub open spec fn lists_ascending(list: Seq<u64>, set: Set<u64>) -> bool {
    &&& forall|i: int, j: int| 0 <= i < j < list.len() ==> list[i] < list[j]
    &&& forall|x: u64| list.contains(x) <==> set.contains(x)
}

/// The members of a finite set in ascending order.
pub open spec fn ascending(set: Set<u64>) -> Seq<u64> {
    choose|list: Seq<u64>| lists_ascending(list, set)
}

/// There is only one such order.
pub proof fn lemma_ascending_unique(list: Seq<u64>, set: Set<u64>)
    requires
        lists_ascending(list, set),
    ensures
        list == ascending(set),
{
    lemma_same_ascending(list, ascending(set), set);
}

proof fn lemma_same_ascending(a: Seq<u64>, b: Seq<u64>, set: Set<u64>)
    requires
        lists_ascending(a, set),
        lists_ascending(b, set),
    ensures
        a == b,
    decreases a.len(),
{
    if a.len() == 0 {
        if b.len() > 0 {
            assert(b.contains(b[0]));
            assert(a.contains(b[0]));
        }
        assert(a =~= b);
    } else {
        assert(a.contains(a.last()));
        let i = choose|i: int| 0 <= i < b.len() && b[i] == a.last();
        assert(b.contains(b.last()));
        let j = choose|j: int| 0 <= j < a.len() && a[j] == b.last();
        assert(i == b.len() - 1);
        assert(a.last() == b.last());
        let less = set.remove(a.last());
        assert forall|x: u64| a.drop_last().contains(x) <==> less.contains(x) by {
            if a.drop_last().contains(x) {
                let k = choose|k: int| 0 <= k < a.drop_last().len() && a.drop_last()[k] == x;
                assert(a[k] == x);
            }
            if less.contains(x) {
                assert(a.contains(x));
                let k = choose|k: int| 0 <= k < a.len() && a[k] == x;
                assert(a.drop_last()[k] == x);
            }
        }
        assert forall|x: u64| b.drop_last().contains(x) <==> less.contains(x) by {
            if b.drop_last().contains(x) {
                let k = choose|k: int| 0 <= k < b.drop_last().len() && b.drop_last()[k] == x;
                assert(b[k] == x);
            }
            if less.contains(x) {
                assert(b.contains(x));
                let k = choose|k: int| 0 <= k < b.len() && b[k] == x;
                assert(b.drop_last()[k] == x);
            }
        }
        lemma_same_ascending(a.drop_last(), b.drop_last(), less);
        assert(a =~= a.drop_last().push(a.last()));
        assert(b =~= b.drop_last().push(b.last()));
    }
}

/// The part of a list that is left without its first `skip` elements, cut after `count`.
pub open spec fn page<A>(list: Seq<A>, skip: nat, count: nat) -> Seq<A> {
    if skip >= list.len() {
        seq![]
    } else if skip + count >= list.len() {
        list.skip(skip as int)
    } else {
        list.subrange(skip as int, (skip + count) as int)
    }
}

/// What is in all of the lists.
pub open spec fn in_all(lists: Seq<Vec<u64>>) -> Set<u64> {
    Set::new(|x: u64| forall|i: int| 0 <= i < lists.len() ==> (#[trigger] lists[i])@.contains(x))
}

/// The elements of a list as a set.
fn as_set(list: &Vec<u64>) -> (res: HashSet<u64>)
    ensures
        forall|x: u64| res@.contains(x) <==> list@.contains(x),
{
    let mut set: HashSet<u64> = HashSet::new();
    let mut i: usize = 0;
    while i < list.len()
        invariant
            i <= list@.len(),
            forall|x: u64| set@.contains(x) <==> list@.take(i as int).contains(x),
        decreases list@.len() - i,
    {
        let ghost before = list@.take(i as int);
        set.insert(list[i]);
        assert(list@.take(i + 1) =~= before.push(list@[i as int]));
        assert forall|x: u64| set@.contains(x) <==> list@.take(i + 1).contains(x) by {
            if before.contains(x) {
                let k = choose|k: int| 0 <= k < before.len() && before[k] == x;
                assert(list@.take(i + 1)[k] == x);
            }
            if x == list@[i as int] {
                assert(list@.take(i + 1)[i as int] == x);
            }
            if list@.take(i + 1).contains(x) && x != list@[i as int] {
                let longer = list@.take(i + 1);
                let k = choose|k: int| 0 <= k < longer.len() && longer[k] == x;
                assert(before[k] == x);
            }
        }
        i = i + 1;
    }
    assert(list@.take(list@.len() as int) =~= list@);
    set
}

/// The elements of a list that are in a set too, each once.
fn meet(list: &Vec<u64>, set: &HashSet<u64>) -> (res: Vec<u64>)
    ensures
        res@.no_duplicates(),
        forall|x: u64| res@.contains(x) <==> list@.contains(x) && set@.contains(x),
{
    let mut out: Vec<u64> = Vec::new();
    let mut seen: HashSet<u64> = HashSet::new();
    let mut i: usize = 0;
    while i < list.len()
        invariant
            i <= list@.len(),
            out@.no_duplicates(),
            forall|x: u64| seen@.contains(x) <==> out@.contains(x),
            forall|x: u64|
                out@.contains(x) <==> list@.take(i as int).contains(x) && set@.contains(x),
        decreases list@.len() - i,
    {
        let x = list[i];
        let ghost before = list@.take(i as int);
        let ghost kept = out@;
        assert(list@.take(i + 1) =~= before.push(x));
        if set.contains(&x) && !seen.contains(&x) {
            seen.insert(x);
            out.push(x);
            assert(out@ =~= kept.push(x));
            assert forall|y: u64| out@.contains(y) <==> kept.contains(y) || y == x by {
                if kept.contains(y) {
                    let k = choose|k: int| 0 <= k < kept.len() && kept[k] == y;
                    assert(out@[k] == y);
                }
                if y == x {
                    assert(out@[kept.len() as int] == y);
                }
            }
        }
        assert forall|y: u64| list@.take(i + 1).contains(y) <==> before.contains(y) || y == x by {
            if before.contains(y) {
                let k = choose|k: int| 0 <= k < before.len() && before[k] == y;
                assert(list@.take(i + 1)[k] == y);
            }
            if y == x {
                assert(list@.take(i + 1)[i as int] == y);
            }
        }
        assert forall|y: u64|
            out@.contains(y) <==> list@.take(i + 1).contains(y) && set@.contains(y) by {
            assert(kept.contains(y) <==> before.contains(y) && set@.contains(y));
        }
        i = i + 1;
    }
    assert(list@.take(list@.len() as int) =~= list@);
    out
}

/// What is in all of the lists, in ascending order.
pub(crate) fn intersect(lists: &Vec<Vec<u64>>) -> (res: Vec<u64>)
    requires
        lists@.len() > 0,
    ensures
        lists_ascending(res@, in_all(lists@)),
        res@ == ascending(in_all(lists@)),
{
    let first = as_set(&lists[0]);
    let mut kept = meet(&lists[0], &first);
    let mut i: usize = 1;
    while i < lists.len()
        invariant
            1 <= i <= lists@.len(),
            kept@.no_duplicates(),
            forall|x: u64|
                kept@.contains(x) <==> forall|k: int|
                    0 <= k < i ==> (#[trigger] lists@[k])@.contains(x),
        decreases lists@.len() - i,
    {
        let set = as_set(&lists[i]);
        kept = meet(&kept, &set);
        i = i + 1;
    }
    let ghost before = kept@;
    sort_integers(&mut kept);
    proof {
        before.lemma_multiset_has_no_duplicates();
        kept@.lemma_multiset_has_no_duplicates_conv();
        assert forall|x: u64| kept@.contains(x) <==> in_all(lists@).contains(x) by {
            vstd::seq_lib::to_multiset_contains(kept@, x);
            vstd::seq_lib::to_multiset_contains(before, x);
        }
        lemma_ascending_unique(kept@, in_all(lists@));
    }
    kept
}

/// The page of a list.
pub(crate) fn take_page(list: &Vec<u64>, skip: usize, count: usize) -> (res: Vec<u64>)
    ensures
        res@ == page(list@, skip as nat, count as nat),
{
    let mut out: Vec<u64> = Vec::new();
    let mut i: usize = skip;
    while i < list.len() && i - skip < count
        invariant
            skip <= i,
            skip >= list@.len() ==> i == skip,
            skip < list@.len() ==> i <= list@.len(),
            i - skip <= count,
            out@ == page(list@, skip as nat, (i - skip) as nat),
        decreases list.len() - i,
    {
        out.push(list[i]);
        i = i + 1;
        assert(out@ =~= page(list@, skip as nat, (i - skip) as nat));
    }
    assert(out@ =~= page(list@, skip as nat, count as nat));
    out
}

} // verus!
