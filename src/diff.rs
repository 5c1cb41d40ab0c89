//! The collection diff: sorts a remote collection's members into those the
//! bundle already tracks (moved out of its items) and those it does not.
use vstd::prelude::*;

verus! {

/// The outcome of diffing `items` against `children`: the items left, the
/// children found among the items, and the children not found, each list in
/// the order of `children`.
pub open spec fn diff_spec(items: Seq<u64>, children: Seq<u64>) -> (Seq<u64>, Seq<u64>, Seq<u64>)
    decreases children.len(),
{
    if children.len() == 0 {
        (items, Seq::empty(), Seq::empty())
    } else {
        let (rest, inc, exc) = diff_spec(items, children.drop_last());
        let c = children.last();
        match rest.index_of_first(c) {
            Some(j) => (rest.remove(j), inc.push(c), exc),
            None => (rest, inc, exc.push(c)),
        }
    }
}

/// Moves each member of `children` found among `items` out of `items` and onto
/// `included`; appends the others to `excluded`.
pub fn diff(items: &mut Vec<u64>, children: &Vec<u64>, included: &mut Vec<u64>, excluded: &mut Vec<u64>)
    ensures
        final(items)@ == diff_spec(old(items)@, children@).0,
        final(included)@ == old(included)@ + diff_spec(old(items)@, children@).1,
        final(excluded)@ == old(excluded)@ + diff_spec(old(items)@, children@).2,
{
    let mut i: usize = 0;
    while i < children.len()
        invariant
            i <= children@.len(),
            items@ == diff_spec(old(items)@, children@.subrange(0, i as int)).0,
            included@ == old(included)@ + diff_spec(old(items)@, children@.subrange(0, i as int)).1,
            excluded@ == old(excluded)@ + diff_spec(old(items)@, children@.subrange(0, i as int)).2,
        decreases children@.len() - i,
    {
        let c = children[i];
        let ghost pre = children@.subrange(0, i as int);
        let ghost next = children@.subrange(0, i + 1);
        assert(next.drop_last() =~= pre);
        assert(next.last() == c);
        let ghost st = diff_spec(old(items)@, pre);
        let mut j: usize = 0;
        while j < items.len() && items[j] != c
            invariant
                j <= items@.len(),
                forall|k: int| 0 <= k < j ==> items@[k] != c,
            decreases items@.len() - j,
        {
            j = j + 1;
        }
        proof {
            items@.index_of_first_ensures(c);
        }
        if j < items.len() {
            assert(items@.index_of_first(c) == Some(j as int)) by {
                match items@.index_of_first(c) {
                    Some(k) => {
                        if k < j {
                            assert(items@[k] != c);
                        }
                        if j < k {
                            assert(items@[j as int] == c);
                        }
                    },
                    None => {
                        assert(items@.contains(c)) by {
                            assert(items@[j as int] == c);
                        }
                    },
                }
            }
            items.remove(j);
            included.push(c);
            assert(included@ =~= old(included)@ + st.1.push(c));
        } else {
            assert(!items@.contains(c)) by {
                if items@.contains(c) {
                    let k = choose|k: int| 0 <= k < items@.len() && items@[k] == c;
                    assert(items@[k] != c);
                }
            }
            excluded.push(c);
            assert(excluded@ =~= old(excluded)@ + st.2.push(c));
        }
        i = i + 1;
    }
    assert(children@.subrange(0, children@.len() as int) =~= children@);
}

/// The diff moves members and loses none: the found and the missing members
/// together are the children, and the items left together with the found
/// members are the items, counting repeats.
pub proof fn lemma_diff_partition(items: Seq<u64>, children: Seq<u64>)
    ensures
        diff_spec(items, children).1.to_multiset().add(diff_spec(items, children).2.to_multiset())
            == children.to_multiset(),
        diff_spec(items, children).0.to_multiset().add(diff_spec(items, children).1.to_multiset())
            == items.to_multiset(),
        diff_spec(items, children).1.len() + diff_spec(items, children).2.len() == children.len(),
    decreases children.len(),
{
    broadcast use vstd::seq_lib::group_to_multiset_ensures, vstd::multiset::group_multiset_axioms;

    if children.len() > 0 {
        let pre = children.drop_last();
        let c = children.last();
        lemma_diff_partition(items, pre);
        assert(pre.push(c) =~= children);
        let (rest, inc, exc) = diff_spec(items, pre);
        rest.index_of_first_ensures(c);
        match rest.index_of_first(c) {
            Some(j) => {
                assert(rest.to_multiset().count(c) > 0);
                assert(rest.remove(j).to_multiset() == rest.to_multiset().remove(c));
                assert(inc.push(c).to_multiset().add(exc.to_multiset()) =~= children.to_multiset());
                assert(rest.remove(j).to_multiset().add(inc.push(c).to_multiset()) =~= items.to_multiset());
            },
            None => {
                assert(inc.to_multiset().add(exc.push(c).to_multiset()) =~= children.to_multiset());
            },
        }
    }
}

/// Where no member of the remote collection repeats, each lands in exactly
/// one of the two lists, and nothing else lands in either.
pub proof fn lemma_diff_exactly_once(items: Seq<u64>, children: Seq<u64>)
    requires
        children.no_duplicates(),
    ensures
        forall|x: u64| #[trigger] children.contains(x) ==> (diff_spec(items, children).1.contains(x)
            != diff_spec(items, children).2.contains(x)),
        forall|x: u64|
            diff_spec(items, children).1.contains(x) || diff_spec(items, children).2.contains(x)
                ==> #[trigger] children.contains(x),
{
    broadcast use vstd::seq_lib::group_to_multiset_ensures, vstd::multiset::group_multiset_axioms;

    lemma_diff_partition(items, children);
    children.lemma_multiset_has_no_duplicates();
    let (rest, inc, exc) = diff_spec(items, children);
    assert forall|x: u64| #[trigger] children.contains(x) implies inc.contains(x) != exc.contains(x) by {
        assert(children.to_multiset().count(x) == 1);
        assert(inc.to_multiset().count(x) + exc.to_multiset().count(x) == 1);
    }
    assert forall|x: u64| inc.contains(x) || exc.contains(x) implies #[trigger] children.contains(x) by {
        assert(inc.to_multiset().count(x) + exc.to_multiset().count(x) == children.to_multiset().count(x));
    }
}

/// A member that is not among the items before the diff only lengthens the missing
/// list by itself; the items left and the found members stay as they were.
pub proof fn lemma_diff_absent_child(items: Seq<u64>, children: Seq<u64>, c: u64)
    requires
        !items.contains(c),
    ensures
        diff_spec(items, children.push(c)) == (
            diff_spec(items, children).0,
            diff_spec(items, children).1,
            diff_spec(items, children).2.push(c),
        ),
{
    broadcast use vstd::seq_lib::group_to_multiset_ensures, vstd::multiset::group_multiset_axioms;

    lemma_diff_partition(items, children);
    let rest = diff_spec(items, children).0;
    assert(children.push(c).drop_last() =~= children);
    assert(rest.to_multiset().count(c) <= items.to_multiset().count(c));
    rest.index_of_first_ensures(c);
}

/// The test for membership in `items`.
pub open spec fn member_of(items: Seq<u64>) -> spec_fn(u64) -> bool {
    |x: u64| items.contains(x)
}

/// The test for absence from `items`.
pub open spec fn absent_from(items: Seq<u64>) -> spec_fn(u64) -> bool {
    |x: u64| !items.contains(x)
}

/// Where no member of the remote collection repeats, the found members are
/// the children that are among the items, and the missing ones the others,
/// each in the order of the children.
pub proof fn lemma_diff_filters(items: Seq<u64>, children: Seq<u64>)
    requires
        children.no_duplicates(),
    ensures
        diff_spec(items, children).1 == children.filter(member_of(items)),
        diff_spec(items, children).2 == children.filter(absent_from(items)),
    decreases children.len(),
{
    broadcast use vstd::seq_lib::group_to_multiset_ensures, vstd::multiset::group_multiset_axioms;

    if children.len() == 0 {
        assert(children.filter(member_of(items)) =~= Seq::<u64>::empty()) by {
            children.lemma_filter_len(member_of(items));
        }
        assert(children.filter(absent_from(items)) =~= Seq::<u64>::empty()) by {
            children.lemma_filter_len(absent_from(items));
        }
    } else {
        let pre = children.drop_last();
        let c = children.last();
        assert(pre.push(c) =~= children);
        assert(pre.no_duplicates());
        assert(!pre.contains(c)) by {
            if pre.contains(c) {
                let i = choose|i: int| 0 <= i < pre.len() && pre[i] == c;
                assert(children[i] == children[children.len() - 1]);
            }
        }
        lemma_diff_filters(items, pre);
        lemma_diff_partition(items, pre);
        let (rest, inc, exc) = diff_spec(items, pre);
        assert(pre.to_multiset().count(c) == 0);
        assert(inc.to_multiset().count(c) == 0);
        assert(rest.to_multiset().count(c) == items.to_multiset().count(c));
        assert(rest.contains(c) == items.contains(c));
        rest.index_of_first_ensures(c);
        pre.lemma_filter_push(c, member_of(items));
        pre.lemma_filter_push(c, absent_from(items));
    }
}

} // verus!
