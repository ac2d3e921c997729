//! Sorting positions by their keys, equal keys staying in the order in which they came.

use vstd::prelude::*;

verus! {

/// A key to sort by.
pub trait SortKey: Sized {
    /// `self` sorts in front of `other` or equal to it.
    spec fn sorts_up_to(self, other: Self) -> bool;

    /// Every key sorts in front of any other one or behind it.
    proof fn total(a: Self, b: Self)
        ensures
            a.sorts_up_to(b) || b.sorts_up_to(a),
    ;

    /// The order is transitive.
    proof fn transitive(a: Self, b: Self, c: Self)
        requires
            a.sorts_up_to(b),
            b.sorts_up_to(c),
        ensures
            a.sorts_up_to(c),
    ;

    /// Whether `self` sorts in front of `other` or equal to it.
    fn up_to(&self, other: &Self) -> (res: bool)
        ensures
            res == self.sorts_up_to(*other),
    ;
}

impl SortKey for u32 {
    open spec fn sorts_up_to(self, other: u32) -> bool {
        self <= other
    }

    proof fn total(a: u32, b: u32) {
    }

    proof fn transitive(a: u32, b: u32, c: u32) {
    }

    fn up_to(&self, other: &u32) -> (res: bool) {
        *self <= *other
    }
}

/// Byte strings in the order of a dictionary.
pub open spec fn bytes_up_to(a: Seq<u8>, b: Seq<u8>) -> bool
    decreases a.len(),
{
    if a.len() == 0 {
        true
    } else if b.len() == 0 {
        false
    } else if a[0] == b[0] {
        bytes_up_to(a.drop_first(), b.drop_first())
    } else {
        a[0] < b[0]
    }
}

proof fn lemma_bytes_total(a: Seq<u8>, b: Seq<u8>)
    ensures
        bytes_up_to(a, b) || bytes_up_to(b, a),
    decreases a.len(),
{
    if a.len() > 0 && b.len() > 0 && a[0] == b[0] {
        lemma_bytes_total(a.drop_first(), b.drop_first());
    }
}

proof fn lemma_bytes_transitive(a: Seq<u8>, b: Seq<u8>, c: Seq<u8>)
    requires
        bytes_up_to(a, b),
        bytes_up_to(b, c),
    ensures
        bytes_up_to(a, c),
    decreases a.len(),
{
    if a.len() > 0 && b.len() > 0 && c.len() > 0 && a[0] == b[0] && b[0] == c[0] {
        lemma_bytes_transitive(a.drop_first(), b.drop_first(), c.drop_first());
    }
}

/// Only equal byte strings sort equal.
pub proof fn law_bytes_order_antisymmetric(a: Seq<u8>, b: Seq<u8>)
    requires
        bytes_up_to(a, b),
        bytes_up_to(b, a),
    ensures
        a == b,
    decreases a.len(),
{
    if a.len() > 0 && b.len() > 0 {
        law_bytes_order_antisymmetric(a.drop_first(), b.drop_first());
        assert(a =~= seq![a[0]] + a.drop_first());
        assert(b =~= seq![b[0]] + b.drop_first());
    } else {
        assert(a =~= b);
    }
}

impl SortKey for Vec<u8> {
    open spec fn sorts_up_to(self, other: Vec<u8>) -> bool {
        bytes_up_to(self@, other@)
    }

    proof fn total(a: Vec<u8>, b: Vec<u8>) {
        lemma_bytes_total(a@, b@);
    }

    proof fn transitive(a: Vec<u8>, b: Vec<u8>, c: Vec<u8>) {
        lemma_bytes_transitive(a@, b@, c@);
    }

    fn up_to(&self, other: &Vec<u8>) -> (res: bool) {
        let mut i: usize = 0;
        assert(self@.skip(0) =~= self@);
        assert(other@.skip(0) =~= other@);
        while i < self.len() && i < other.len() && self[i] == other[i]
            invariant
                i <= self@.len(),
                i <= other@.len(),
                bytes_up_to(self@, other@) == bytes_up_to(
                    self@.skip(i as int),
                    other@.skip(i as int),
                ),
            decreases self@.len() - i,
        {
            assert(self@.skip(i as int).drop_first() =~= self@.skip(i + 1));
            assert(other@.skip(i as int).drop_first() =~= other@.skip(i + 1));
            i = i + 1;
        }
        if i >= self.len() {
            true
        } else if i >= other.len() {
            false
        } else {
            self[i] < other[i]
        }
    }
}

/// Position `a` comes in front of position `b` when sorted by `keys`.
pub open spec fn comes_first<K: SortKey>(keys: Seq<K>, a: int, b: int) -> bool {
    keys[a].sorts_up_to(keys[b]) && (keys[b].sorts_up_to(keys[a]) ==> a < b)
}

/// `order` lists positions of `keys`, each once, sorted.
pub open spec fn sorted_positions<K: SortKey>(keys: Seq<K>, order: Seq<usize>) -> bool {
    &&& forall|i: int| 0 <= i < order.len() ==> (#[trigger] order[i]) < keys.len()
    &&& forall|i: int, j: int|
        0 <= i < j < order.len() ==> comes_first(
            keys,
            (#[trigger] order[i]) as int,
            (#[trigger] order[j]) as int,
        )
}

/// `order` lists all positions of `keys`, each once, sorted; equal keys stay in their order.
pub open spec fn is_stable_order<K: SortKey>(keys: Seq<K>, order: Seq<usize>) -> bool {
    &&& order.len() == keys.len()
    &&& sorted_positions(keys, order)
    &&& forall|p: int| 0 <= p < keys.len() ==> #[trigger] order.contains(p as usize)
}

/// The items at the positions of `order`, in that order.
pub open spec fn rearranged<A>(items: Seq<A>, order: Seq<usize>) -> Seq<A> {
    order.map_values(|p: usize| items[p as int])
}

/// Sorts the positions of keys.
pub fn stable_order<K: SortKey>(keys: &Vec<K>) -> (res: Vec<usize>)
    ensures
        is_stable_order(keys@, res@),
{
    let mut order: Vec<usize> = Vec::new();
    for n in 0..keys.len()
        invariant
            order@.len() == n,
            sorted_positions(keys@, order@),
            forall|i: int| 0 <= i < order@.len() ==> (#[trigger] order@[i]) < n,
            forall|p: int| 0 <= p < n ==> #[trigger] order@.contains(p as usize),
    {
        let mut at: usize = order.len();
        while at > 0 && !keys[order[at - 1]].up_to(&keys[n])
            invariant
                n < keys@.len(),
                at <= order@.len(),
                forall|i: int| 0 <= i < order@.len() ==> (#[trigger] order@[i]) < n,
                forall|i: int|
                    at <= i < order@.len() ==> !keys@[(#[trigger] order@[i]) as int].sorts_up_to(
                        keys@[n as int],
                    ),
            decreases at,
        {
            at = at - 1;
        }
        let ghost before = order@;
        order.insert(at, n);
        proof {
            let after = order@;
            assert forall|i: int, j: int| 0 <= i < j < after.len() implies comes_first(
                keys@,
                (#[trigger] after[i]) as int,
                (#[trigger] after[j]) as int,
            ) by {
                let old_i = if i < at { i } else { i - 1 };
                let old_j = if j < at { j } else { j - 1 };
                if i != at && j != at {
                    assert(after[i] == before[old_i]);
                    assert(after[j] == before[old_j]);
                } else if i == at {
                    assert(after[i] == n);
                    assert(after[j] == before[j - 1]);
                    let k = keys@[before[j - 1] as int];
                    K::total(keys@[n as int], k);
                } else {
                    assert(after[j] == n);
                    assert(after[i] == before[i]);
                    assert(keys@[before[at - 1] as int].sorts_up_to(keys@[n as int]));
                    if i < at - 1 {
                        assert(comes_first(keys@, before[i] as int, before[at - 1] as int));
                        K::transitive(
                            keys@[before[i] as int],
                            keys@[before[at - 1] as int],
                            keys@[n as int],
                        );
                    }
                }
            }
            assert forall|p: int| 0 <= p < n + 1 implies #[trigger] after.contains(p as usize) by {
                if p == n {
                    assert(after[at as int] == n);
                } else {
                    assert(before.contains(p as usize));
                    let i = choose|i: int| 0 <= i < before.len() && before[i] == p;
                    let new_i = if i < at { i } else { i + 1 };
                    assert(after[new_i] == p);
                }
            }
            assert forall|i: int| 0 <= i < after.len() implies (#[trigger] after[i]) < n + 1 by {
                if i < at {
                    assert(after[i] == before[i]);
                } else if i > at {
                    assert(after[i] == before[i - 1]);
                }
            }
        }
    }
    order
}

/// There is only one stable order of the positions of keys.
pub proof fn law_stable_order_is_unique<K: SortKey>(keys: Seq<K>, a: Seq<usize>, b: Seq<usize>)
    requires
        is_stable_order(keys, a),
        is_stable_order(keys, b),
        keys.len() <= usize::MAX,
    ensures
        a == b,
{
    assert forall|i: int| 0 <= i < a.len() implies a[i] == b[i] by {
        lemma_same_position(keys, a, b, i);
    }
    assert(a =~= b);
}

proof fn lemma_same_position<K: SortKey>(keys: Seq<K>, a: Seq<usize>, b: Seq<usize>, i: int)
    requires
        is_stable_order(keys, a),
        is_stable_order(keys, b),
        keys.len() <= usize::MAX,
        0 <= i < a.len(),
    ensures
        a[i] == b[i],
    decreases i,
{
    assert forall|k: int| 0 <= k < i implies a[k] == b[k] by {
        lemma_same_position(keys, a, b, k);
    }
    let x = a[i];
    let y = b[i];
    if x != y {
        assert(b.contains(x as int as usize));
        let j = choose|j: int| 0 <= j < b.len() && b[j] == x;
        assert(a.contains(y as int as usize));
        let k = choose|k: int| 0 <= k < a.len() && a[k] == y;
        if j < i {
            assert(comes_first(keys, a[j] as int, a[i] as int));
        }
        if k < i {
            assert(comes_first(keys, b[k] as int, b[i] as int));
        }
        assert(comes_first(keys, b[i] as int, b[j] as int));
        assert(comes_first(keys, a[i] as int, a[k] as int));
    }
}

/// Byte string `a` comes in front of byte string `b` when sorted.
pub open spec fn bytes_come_first(keys: Seq<Seq<u8>>, a: int, b: int) -> bool {
    bytes_up_to(keys[a], keys[b]) && (bytes_up_to(keys[b], keys[a]) ==> a < b)
}

/// `order` lists all positions of byte strings, each once, sorted; equal ones stay in their order.
pub open spec fn is_byte_order(keys: Seq<Seq<u8>>, order: Seq<usize>) -> bool {
    &&& order.len() == keys.len()
    &&& forall|i: int| 0 <= i < order.len() ==> (#[trigger] order[i]) < keys.len()
    &&& forall|i: int, j: int|
        0 <= i < j < order.len() ==> bytes_come_first(
            keys,
            (#[trigger] order[i]) as int,
            (#[trigger] order[j]) as int,
        )
    &&& forall|p: int| 0 <= p < keys.len() ==> #[trigger] order.contains(p as usize)
}

/// The views of byte strings.
pub open spec fn byte_views(s: Seq<Vec<u8>>) -> Seq<Seq<u8>> {
    s.map_values(|v: Vec<u8>| v@)
}

/// Sorts the positions of byte strings.
pub fn byte_order(keys: &Vec<Vec<u8>>) -> (res: Vec<usize>)
    ensures
        is_byte_order(byte_views(keys@), res@),
{
    let order = stable_order(keys);
    proof {
        assert forall|i: int, j: int| 0 <= i < j < order@.len() implies bytes_come_first(
            byte_views(keys@),
            (#[trigger] order@[i]) as int,
            (#[trigger] order@[j]) as int,
        ) by {
            assert(comes_first(keys@, order@[i] as int, order@[j] as int));
        }
    }
    order
}

/// `kept` holds the items of `all` that are wanted, all of them and in their order: `at` tells where
/// each stands in `all`.
pub open spec fn is_selection<A>(
    all: Seq<A>,
    kept: Seq<A>,
    at: Seq<int>,
    wanted: spec_fn(A) -> bool,
) -> bool {
    &&& at.len() == kept.len()
    &&& forall|i: int|
        0 <= i < at.len() ==> 0 <= (#[trigger] at[i]) < all.len() && kept[i] == all[at[i]] && wanted(
            all[at[i]],
        )
    &&& forall|i: int, j: int| 0 <= i < j < at.len() ==> (#[trigger] at[i]) < (#[trigger] at[j])
    &&& forall|k: int| 0 <= k < all.len() && wanted(#[trigger] all[k]) ==> at.contains(k)
}

/// Filtering selects what the filter lets pass.
pub proof fn lemma_filter_selects<A>(
    all: Seq<A>,
    keep: spec_fn(A) -> bool,
    wanted: spec_fn(A) -> bool,
) -> (at: Seq<int>)
    requires
        forall|a: A| #[trigger] keep(a) == wanted(a),
    ensures
        is_selection(all, all.filter(keep), at, wanted),
    decreases all.len(),
{
    if all.len() == 0 {
        all.lemma_filter_len(keep);
        Seq::empty()
    } else {
        let front = all.drop_last();
        let last = all.last();
        let at = lemma_filter_selects(front, keep, wanted);
        assert(front.push(last) =~= all);
        front.lemma_filter_push(last, keep);
        assert(keep(last) == wanted(last));
        let res = if wanted(last) {
            at.push(all.len() - 1)
        } else {
            at
        };
        assert forall|i: int| 0 <= i < at.len() implies all[#[trigger] at[i]] == front[at[i]] by {}
        assert forall|k: int| 0 <= k < all.len() && wanted(#[trigger] all[k]) implies res.contains(
            k,
        ) by {
            if k < front.len() {
                assert(front[k] == all[k]);
                assert(at.contains(k));
                let i = choose|i: int| 0 <= i < at.len() && at[i] == k;
                assert(res[i] == k);
            } else {
                assert(res[at.len() as int] == k);
            }
        }
        res
    }
}

/// `made` holds what comes of the items of `all` of which something comes, of all of them and in their
/// order: `at` tells from which item each comes.
pub open spec fn is_made_of<A, B>(
    all: Seq<A>,
    made: Seq<B>,
    at: Seq<int>,
    f: spec_fn(A) -> Option<B>,
) -> bool {
    &&& at.len() == made.len()
    &&& forall|i: int|
        0 <= i < at.len() ==> 0 <= (#[trigger] at[i]) < all.len() && f(all[at[i]]) == Some(made[i])
    &&& forall|i: int, j: int| 0 <= i < j < at.len() ==> (#[trigger] at[i]) < (#[trigger] at[j])
    &&& forall|k: int| 0 <= k < all.len() && f(#[trigger] all[k]) is Some ==> at.contains(k)
}

/// `filter_map` makes what the function gives.
pub proof fn lemma_filter_map_makes<A, B>(all: Seq<A>, f: spec_fn(A) -> Option<B>) -> (at: Seq<int>)
    ensures
        is_made_of(all, all.filter_map(f), at, f),
    decreases all.len(),
{
    if all.len() == 0 {
        Seq::empty()
    } else {
        let front = all.drop_last();
        let at = lemma_filter_map_makes(front, f);
        let res = if f(all.last()) is Some {
            at.push(all.len() - 1)
        } else {
            at
        };
        assert forall|i: int| 0 <= i < at.len() implies all[#[trigger] at[i]] == front[at[i]] by {}
        assert forall|k: int| 0 <= k < all.len() && f(#[trigger] all[k]) is Some implies res.contains(
            k,
        ) by {
            if k < front.len() {
                assert(front[k] == all[k]);
                assert(at.contains(k));
                let i = choose|i: int| 0 <= i < at.len() && at[i] == k;
                assert(res[i] == k);
            } else {
                assert(res[at.len() as int] == k);
            }
        }
        res
    }
}

/// Byte strings are in the order of a dictionary: where they first differ, the lesser byte comes first;
/// where one begins the other, it comes first.
pub proof fn law_bytes_are_ordered_as_in_a_dictionary(a: Seq<u8>, b: Seq<u8>, i: int)
    requires
        0 <= i <= a.len(),
        i <= b.len(),
        a.take(i) == b.take(i),
    ensures
        i < a.len() && i < b.len() && a[i] < b[i] ==> bytes_up_to(a, b) && !bytes_up_to(b, a),
        i == a.len() ==> bytes_up_to(a, b),
        i == a.len() && i < b.len() ==> !bytes_up_to(b, a),
    decreases i,
{
    if i > 0 {
        assert(a.take(i)[0] == a[0] && b.take(i)[0] == b[0]);
        let c = a.drop_first();
        let d = b.drop_first();
        assert(c.take(i - 1) =~= a.take(i).drop_first());
        assert(d.take(i - 1) =~= b.take(i).drop_first());
        law_bytes_are_ordered_as_in_a_dictionary(c, d, i - 1);
    }
}

/// A stable order of numbers lists every position once, lesser numbers before greater ones, and equal
/// ones in the order in which they came; what is rearranged by it stands in that order.
pub proof fn law_numbers_are_sorted<A>(keys: Seq<u32>, order: Seq<usize>, items: Seq<A>, i: int, j: int)
    requires
        is_stable_order(keys, order),
        0 <= i < j < order.len(),
    ensures
        order.len() == keys.len(),
        keys[order[i] as int] <= keys[order[j] as int],
        keys[order[i] as int] == keys[order[j] as int] ==> order[i] < order[j],
        order[i] != order[j],
        forall|p: int| 0 <= p < keys.len() ==> #[trigger] order.contains(p as usize),
        rearranged(items, order).len() == order.len(),
        rearranged(items, order)[i] == items[order[i] as int],
{
    assert(comes_first(keys, order[i] as int, order[j] as int));
}

/// The order of byte strings lists every position once, in the order of a dictionary, and equal ones in
/// the order in which they came.
pub proof fn law_byte_strings_are_sorted(keys: Seq<Seq<u8>>, order: Seq<usize>, i: int, j: int)
    requires
        is_byte_order(keys, order),
        0 <= i < j < order.len(),
    ensures
        order.len() == keys.len(),
        bytes_up_to(keys[order[i] as int], keys[order[j] as int]),
        keys[order[i] as int] == keys[order[j] as int] ==> order[i] < order[j],
        order[i] != order[j],
        forall|p: int| 0 <= p < keys.len() ==> #[trigger] order.contains(p as usize),
{
    assert(bytes_come_first(keys, order[i] as int, order[j] as int));
    lemma_bytes_total(keys[order[i] as int], keys[order[j] as int]);
}

} // verus!
