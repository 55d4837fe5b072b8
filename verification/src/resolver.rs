//! The graph resolver: per-node base resolution, ancestor closures,
//! cycle detection, C3-style linearization, and derived composite sets.
//!
//! Everything is specified against a snapshot of the store
//! (`Seq<EntryView>`). The base relation is the edge relation of the
//! graph: an entry has an edge to each declaration its `extends` names
//! resolve to; an entry with an unresolvable base name has no edges and
//! is reported, not guessed at.

use vstd::prelude::*;
use vstd::pervasive::unreached;
use vstd::set_lib::{lemma_len_subset, lemma_int_range, set_int_range};
use crate::Id;
use crate::arena::{Arena, Declaration, EntryView, lookup_spec};
use crate::text::{lex_lt, str_eq, str_lt};

verus! {

/// The integer images of a sequence of identities.
pub open spec fn ids_of(v: Seq<Id>) -> Seq<int> {
    v.map_values(|x: Id| x.index as int)
}

/// Whether `i` names a live slot of the snapshot.
pub open spec fn live(a: Seq<EntryView>, i: int) -> bool {
    0 <= i < a.len() && a[i].alive
}

/// Whether every name in `names` resolves against the snapshot.
pub open spec fn all_names_resolve(a: Seq<EntryView>, names: Seq<Seq<char>>) -> bool {
    forall|k: int| 0 <= k < names.len() ==> lookup_spec(a, names[k]) is Some
}

/// The identities the names resolve to, in declared order.
pub open spec fn resolved_ids(a: Seq<EntryView>, names: Seq<Seq<char>>) -> Seq<int> {
    Seq::new(names.len(), |k: int| lookup_spec(a, names[k])->Some_0.index as int)
}

/// The declared bases of entry `i` as identities; `None` when `i` is
/// not live or some base name does not resolve.
pub open spec fn base_ids(a: Seq<EntryView>, i: int) -> Option<Seq<int>> {
    if live(a, i) && all_names_resolve(a, a[i].decl.extends) {
        Some(resolved_ids(a, a[i].decl.extends))
    } else {
        None
    }
}

/// The base-graph edge relation.
pub open spec fn edge(a: Seq<EntryView>, i: int, j: int) -> bool {
    base_ids(a, i) is Some && base_ids(a, i)->Some_0.contains(j)
}

/// Whether `j` can be reached from `i` along base edges in at most `k`
/// steps, taking at least one step.
pub open spec fn reaches(a: Seq<EntryView>, i: int, j: int, k: nat) -> bool
    decreases k,
{
    if k == 0 {
        false
    } else {
        edge(a, i, j) || exists|m: int| edge(a, i, m) && reaches(a, m, j, (k - 1) as nat)
    }
}

/// Whether `j` is a (strict, transitive) ancestor of `i`.
pub open spec fn is_ancestor(a: Seq<EntryView>, i: int, j: int) -> bool {
    exists|k: nat| reaches(a, i, j, k)
}

/// Reflexive reachability: `i` itself, or an ancestor of `i`.
pub open spec fn rreach(a: Seq<EntryView>, i: int, j: int) -> bool {
    i == j || is_ancestor(a, i, j)
}

/// The reflexive ancestor closure of `i`.
pub open spec fn rclosure(a: Seq<EntryView>, i: int) -> Set<int> {
    Set::new(|j: int| rreach(a, i, j))
}

/// The strict ancestor closure of `i`.
pub open spec fn ancestors_set(a: Seq<EntryView>, i: int) -> Set<int> {
    Set::new(|j: int| is_ancestor(a, i, j))
}

/// The first name of `names`, in declared order, that does not resolve.
pub open spec fn first_unresolved(a: Seq<EntryView>, names: Seq<Seq<char>>) -> Seq<char>
    decreases names.len(),
{
    if names.len() == 0 {
        Seq::empty()
    } else if lookup_spec(a, names[0]) is None {
        names[0]
    } else {
        first_unresolved(a, names.skip(1))
    }
}

/// A successful lookup always names a live slot whose declared name is
/// the name looked up.
pub proof fn lemma_lookup_live(a: Seq<EntryView>, name: Seq<char>)
    requires
        a.len() <= usize::MAX,
    ensures
        lookup_spec(a, name) is Some ==> {
            let i = lookup_spec(a, name)->Some_0.index as int;
            live(a, i) && a[i].decl.ident == name
        },
    decreases a.len(),
{
    if a.len() > 0 {
        if !(a.last().alive && a.last().decl.ident == name) {
            lemma_lookup_live(a.drop_last(), name);
            if lookup_spec(a, name) is Some {
                let i = lookup_spec(a, name)->Some_0.index as int;
                assert(a.drop_last()[i] == a[i]);
            }
        }
    }
}

/// Every resolved base identity is live.
pub proof fn lemma_base_ids_live(a: Seq<EntryView>, i: int)
    requires
        a.len() <= usize::MAX,
        base_ids(a, i) is Some,
    ensures
        forall|t: int|
            0 <= t < base_ids(a, i)->Some_0.len() ==> live(a, #[trigger] base_ids(a, i)->Some_0[t]),
{
    let names = a[i].decl.extends;
    assert forall|t: int| 0 <= t < base_ids(a, i)->Some_0.len() implies live(
        a,
        #[trigger] base_ids(a, i)->Some_0[t],
    ) by {
        lemma_lookup_live(a, names[t]);
    }
}

/// Both endpoints of an edge are live.
pub proof fn lemma_edge_live(a: Seq<EntryView>, i: int, j: int)
    requires
        a.len() <= usize::MAX,
        edge(a, i, j),
    ensures
        live(a, i),
        live(a, j),
{
    lemma_base_ids_live(a, i);
    let bs = base_ids(a, i)->Some_0;
    let t = choose|t: int| 0 <= t < bs.len() && bs[t] == j;
    assert(live(a, bs[t]));
}

/// Both endpoints of a nonempty reachability chain are live.
pub proof fn lemma_reaches_live(a: Seq<EntryView>, i: int, j: int, k: nat)
    requires
        a.len() <= usize::MAX,
        reaches(a, i, j, k),
    ensures
        live(a, i),
        live(a, j),
    decreases k,
{
    if edge(a, i, j) {
        lemma_edge_live(a, i, j);
    } else {
        let m = choose|m: int| edge(a, i, m) && reaches(a, m, j, (k - 1) as nat);
        lemma_edge_live(a, i, m);
        lemma_reaches_live(a, m, j, (k - 1) as nat);
    }
}

/// An ancestor is live, and so is anything that has one.
pub proof fn lemma_ancestor_live(a: Seq<EntryView>, i: int, j: int)
    requires
        a.len() <= usize::MAX,
        is_ancestor(a, i, j),
    ensures
        live(a, i),
        live(a, j),
{
    let k = choose|k: nat| reaches(a, i, j, k);
    lemma_reaches_live(a, i, j, k);
}

/// Chains concatenate: reachability is transitive in the step bounds.
pub proof fn lemma_reaches_trans(a: Seq<EntryView>, i: int, m: int, j: int, k1: nat, k2: nat)
    requires
        reaches(a, i, m, k1),
        reaches(a, m, j, k2),
    ensures
        reaches(a, i, j, k1 + k2),
    decreases k1,
{
    if edge(a, i, m) {
        lemma_reaches_mono(a, m, j, k2, (k1 + k2 - 1) as nat);
        assert(edge(a, i, m) && reaches(a, m, j, (k1 + k2 - 1) as nat));
        assert(reaches(a, i, j, k1 + k2));
    } else {
        let m0 = choose|m0: int| edge(a, i, m0) && reaches(a, m0, m, (k1 - 1) as nat);
        lemma_reaches_trans(a, m0, m, j, (k1 - 1) as nat, k2);
        assert(edge(a, i, m0) && reaches(a, m0, j, (k1 + k2 - 1) as nat));
        assert(reaches(a, i, j, k1 + k2));
    }
}

/// A chain that fits in `k1` steps fits in any larger bound.
pub proof fn lemma_reaches_mono(a: Seq<EntryView>, i: int, j: int, k1: nat, k2: nat)
    requires
        reaches(a, i, j, k1),
        k1 <= k2,
    ensures
        reaches(a, i, j, k2),
    decreases k1,
{
    if !edge(a, i, j) {
        let m = choose|m: int| edge(a, i, m) && reaches(a, m, j, (k1 - 1) as nat);
        lemma_reaches_mono(a, m, j, (k1 - 1) as nat, (k2 - 1) as nat);
    }
}

/// One edge step extends reflexive reachability.
pub proof fn lemma_rreach_step(a: Seq<EntryView>, s: int, j: int, b: int)
    requires
        rreach(a, s, j),
        edge(a, j, b),
    ensures
        is_ancestor(a, s, b),
        rreach(a, s, b),
{
    assert(reaches(a, j, b, 1));
    if s == j {
    } else {
        let k = choose|k: nat| reaches(a, s, j, k);
        lemma_reaches_trans(a, s, j, b, k, 1);
    }
}

/// An edge followed by reflexive reachability gives strict ancestry.
pub proof fn lemma_edge_then_rreach(a: Seq<EntryView>, i: int, b: int, j: int)
    requires
        edge(a, i, b),
        rreach(a, b, j),
    ensures
        is_ancestor(a, i, j),
{
    if b == j {
        assert(reaches(a, i, j, 1));
    } else {
        let k = choose|k: nat| reaches(a, b, j, k);
        assert(reaches(a, i, b, 1));
        lemma_reaches_trans(a, i, b, j, 1, k);
    }
}

/// A node lies on a cycle exactly when one of its bases reflexively
/// reaches back to it.
pub proof fn lemma_cycle_char(a: Seq<EntryView>, j: int)
    ensures
        is_ancestor(a, j, j) <==> exists|b: int| edge(a, j, b) && rreach(a, b, j),
{
    if is_ancestor(a, j, j) {
        let k = choose|k: nat| reaches(a, j, j, k);
        if edge(a, j, j) {
            assert(edge(a, j, j) && rreach(a, j, j));
        } else {
            let m = choose|m: int| edge(a, j, m) && reaches(a, m, j, (k - 1) as nat);
            assert(edge(a, j, m) && rreach(a, m, j));
        }
    }
    if exists|b: int| edge(a, j, b) && rreach(a, b, j) {
        let b = choose|b: int| edge(a, j, b) && rreach(a, b, j);
        lemma_edge_then_rreach(a, j, b, j);
    }
}

/// Any set that contains `start` and is closed under edges contains
/// everything reachable from `start`.
pub proof fn lemma_closed_contains(
    a: Seq<EntryView>,
    s: Set<int>,
    start: int,
    j: int,
    k: nat,
)
    requires
        forall|x: int, y: int| s.contains(x) && edge(a, x, y) ==> s.contains(y),
        s.contains(start),
        reaches(a, start, j, k),
    ensures
        s.contains(j),
    decreases k,
{
    if edge(a, start, j) {
    } else {
        let m = choose|m: int| edge(a, start, m) && reaches(a, m, j, (k - 1) as nat);
        lemma_closed_contains(a, s, m, j, (k - 1) as nat);
    }
}

/// The reflexive closure of a valid index is finite and no larger than
/// the snapshot.
pub proof fn lemma_rclosure_finite(a: Seq<EntryView>, i: int)
    requires
        a.len() <= usize::MAX,
        0 <= i < a.len(),
    ensures
        rclosure(a, i).finite(),
        rclosure(a, i).len() <= a.len(),
{
    assert forall|j: int| rclosure(a, i).contains(j) implies set_int_range(
        0,
        a.len() as int,
    ).contains(j) by {
        if j != i {
            lemma_ancestor_live(a, i, j);
        }
    }
    lemma_int_range(0, a.len() as int);
    lemma_len_subset(rclosure(a, i), set_int_range(0, a.len() as int));
}

/// The first unresolved name really is the first: if everything before
/// position `k` resolves and `names[k]` does not, it is the reported one.
pub proof fn lemma_first_unresolved_at(a: Seq<EntryView>, names: Seq<Seq<char>>, k: int)
    requires
        0 <= k < names.len(),
        lookup_spec(a, names[k]) is None,
        forall|m: int| 0 <= m < k ==> lookup_spec(a, #[trigger] names[m]) is Some,
    ensures
        first_unresolved(a, names) == names[k],
    decreases k,
{
    if k == 0 {
    } else {
        lemma_first_unresolved_at(a, names.skip(1), k - 1);
    }
}

/// How many entries of a boolean sequence are set.
pub open spec fn count_true(s: Seq<bool>) -> nat
    decreases s.len(),
{
    if s.len() == 0 {
        0
    } else {
        count_true(s.drop_last()) + if s.last() {
            1nat
        } else {
            0nat
        }
    }
}

proof fn lemma_count_true_update(s: Seq<bool>, j: int)
    requires
        0 <= j < s.len(),
        !s[j],
    ensures
        count_true(s.update(j, true)) == count_true(s) + 1,
    decreases s.len(),
{
    let t = s.update(j, true);
    if j == s.len() - 1 {
        assert(t.drop_last() =~= s.drop_last());
    } else {
        assert(t.drop_last() =~= s.drop_last().update(j, true));
        lemma_count_true_update(s.drop_last(), j);
        assert(t.last() == s.last());
    }
}

proof fn lemma_count_true_le(s: Seq<bool>)
    ensures
        count_true(s) <= s.len(),
    decreases s.len(),
{
    if s.len() > 0 {
        lemma_count_true_le(s.drop_last());
    }
}

/// The members of `s` below `n`, listed in ascending order.
pub open spec fn asc_indices(n: nat, s: Set<int>) -> Seq<int>
    decreases n,
{
    if n == 0 {
        Seq::empty()
    } else if s.contains(n - 1) {
        asc_indices((n - 1) as nat, s).push(n - 1)
    } else {
        asc_indices((n - 1) as nat, s)
    }
}

/// What `asc_indices` lists: exactly the members below `n`, strictly
/// ascending.
pub proof fn lemma_asc_indices_props(n: nat, s: Set<int>)
    ensures
        forall|x: int| #[trigger] asc_indices(n, s).contains(x) <==> (s.contains(x) && 0 <= x < n),
        forall|p: int, q: int|
            0 <= p < q < asc_indices(n, s).len() ==> #[trigger] asc_indices(n, s)[p]
                < #[trigger] asc_indices(n, s)[q],
        asc_indices(n, s).len() <= n,
        forall|p: int|
            0 <= p < asc_indices(n, s).len() ==> 0 <= #[trigger] asc_indices(n, s)[p] < n,
    decreases n,
{
    if n > 0 {
        lemma_asc_indices_props((n - 1) as nat, s);
        let prev = asc_indices((n - 1) as nat, s);
        let cur = asc_indices(n, s);
        if s.contains(n - 1) {
            assert forall|x: int| #[trigger] cur.contains(x) implies (s.contains(x) && 0 <= x
                < n) by {
                let idx = choose|idx: int| 0 <= idx < cur.len() && cur[idx] == x;
                if idx < prev.len() {
                    assert(prev[idx] == x);
                    assert(prev.contains(x));
                }
            }
            assert forall|x: int| s.contains(x) && 0 <= x < n implies #[trigger] cur.contains(
                x,
            ) by {
                if x < n - 1 {
                    assert(prev.contains(x));
                    let idx = choose|idx: int| 0 <= idx < prev.len() && prev[idx] == x;
                    assert(cur[idx] == x);
                } else {
                    assert(cur[cur.len() - 1] == x);
                }
            }
        } else {
            assert(cur == prev);
        }
    }
}

/// The outcome of a C3-style merge: a linear order, or the heads that
/// blocked each other.
pub enum MergeOut {
    Done(Seq<int>),
    Stuck(Seq<int>),
}

/// The total number of elements across all candidate lists.
pub open spec fn sum_len(lists: Seq<Seq<int>>) -> nat
    decreases lists.len(),
{
    if lists.len() == 0 {
        0
    } else {
        lists[0].len() + sum_len(lists.skip(1))
    }
}

/// Whether every candidate list is exhausted.
pub open spec fn lists_all_empty(lists: Seq<Seq<int>>) -> bool {
    forall|l: int| 0 <= l < lists.len() ==> lists[l].len() == 0
}

/// The heads of the nonempty candidate lists, in list order.
pub open spec fn heads(lists: Seq<Seq<int>>) -> Seq<int>
    decreases lists.len(),
{
    if lists.len() == 0 {
        Seq::empty()
    } else if lists[0].len() > 0 {
        seq![lists[0][0]] + heads(lists.skip(1))
    } else {
        heads(lists.skip(1))
    }
}

/// Whether `c` appears in the tail of some candidate list, which blocks
/// it from being chosen next.
pub open spec fn in_some_tail(lists: Seq<Seq<int>>, c: int) -> bool {
    exists|l: int|
        0 <= l < lists.len() && lists[l].len() > 0 && lists[l].skip(1).contains(c)
}

/// The first unblocked head at or after list position `l`.
pub open spec fn pick_from(lists: Seq<Seq<int>>, l: int) -> Option<int>
    decreases lists.len() - l,
{
    if l < 0 || l >= lists.len() {
        None
    } else if lists[l].len() > 0 && !in_some_tail(lists, lists[l][0]) {
        Some(lists[l][0])
    } else {
        pick_from(lists, l + 1)
    }
}

/// Removes a chosen head from the front of every list that starts with
/// it.
pub open spec fn remove_head(lists: Seq<Seq<int>>, c: int) -> Seq<Seq<int>> {
    lists.map_values(
        |l: Seq<int>|
            if l.len() > 0 && l[0] == c {
                l.skip(1)
            } else {
                l
            },
    )
}

/// The C3-style merge, one chosen head per step, bounded by `fuel`.
pub open spec fn c3_merge(lists: Seq<Seq<int>>, fuel: nat) -> Option<MergeOut>
    decreases fuel,
{
    if lists_all_empty(lists) {
        Some(MergeOut::Done(Seq::empty()))
    } else if fuel == 0 {
        None
    } else {
        match pick_from(lists, 0) {
            None => Some(MergeOut::Stuck(heads(lists))),
            Some(c) => match c3_merge(remove_head(lists, c), (fuel - 1) as nat) {
                None => None,
                Some(MergeOut::Done(s)) => Some(MergeOut::Done(seq![c] + s)),
                Some(MergeOut::Stuck(h)) => Some(MergeOut::Stuck(h)),
            },
        }
    }
}

/// The merge with enough fuel to run to completion.
pub open spec fn c3_total(lists: Seq<Seq<int>>) -> Option<MergeOut> {
    c3_merge(lists, sum_len(lists) + 1)
}

proof fn lemma_sum_len_pointwise(l1: Seq<Seq<int>>, l2: Seq<Seq<int>>)
    requires
        l1.len() == l2.len(),
        forall|i: int| 0 <= i < l1.len() ==> (#[trigger] l1[i]).len() <= l2[i].len(),
    ensures
        sum_len(l1) <= sum_len(l2),
    decreases l1.len(),
{
    if l1.len() > 0 {
        lemma_sum_len_pointwise(l1.skip(1), l2.skip(1));
    }
}

proof fn lemma_sum_len_strict(l1: Seq<Seq<int>>, l2: Seq<Seq<int>>, w: int)
    requires
        l1.len() == l2.len(),
        forall|i: int| 0 <= i < l1.len() ==> (#[trigger] l1[i]).len() <= l2[i].len(),
        0 <= w < l1.len(),
        l1[w].len() < l2[w].len(),
    ensures
        sum_len(l1) < sum_len(l2),
    decreases l1.len(),
{
    if w == 0 {
        lemma_sum_len_pointwise(l1.skip(1), l2.skip(1));
    } else {
        lemma_sum_len_strict(l1.skip(1), l2.skip(1), w - 1);
    }
}

/// A successful pick names the head of some list at or after `l`.
proof fn lemma_pick_witness(lists: Seq<Seq<int>>, l: int)
    requires
        pick_from(lists, l) is Some,
    ensures
        exists|w: int|
            l <= w < lists.len() && (#[trigger] lists[w]).len() > 0 && lists[w][0] == pick_from(
                lists,
                l,
            )->Some_0,
    decreases lists.len() - l,
{
    if 0 <= l < lists.len() {
        if lists[l].len() > 0 && !in_some_tail(lists, lists[l][0]) {
        } else {
            lemma_pick_witness(lists, l + 1);
        }
    }
}

/// Removing a picked head strictly shrinks the total element count.
proof fn lemma_remove_head_shrinks(lists: Seq<Seq<int>>, c: int)
    requires
        pick_from(lists, 0) == Some(c),
    ensures
        sum_len(remove_head(lists, c)) < sum_len(lists),
{
    lemma_pick_witness(lists, 0);
    let w = choose|w: int|
        0 <= w < lists.len() && (#[trigger] lists[w]).len() > 0 && lists[w][0] == c;
    lemma_sum_len_strict(remove_head(lists, c), lists, w);
}

/// With fuel at least one more than the element count, the merge never
/// runs out, and the fuel does not matter.
proof fn lemma_c3_merge_fuel(lists: Seq<Seq<int>>, f1: nat, f2: nat)
    requires
        f1 >= sum_len(lists) + 1,
        f2 >= sum_len(lists) + 1,
    ensures
        c3_merge(lists, f1) is Some,
        c3_merge(lists, f1) == c3_merge(lists, f2),
    decreases f1,
{
    if !lists_all_empty(lists) {
        match pick_from(lists, 0) {
            None => {},
            Some(c) => {
                lemma_remove_head_shrinks(lists, c);
                lemma_c3_merge_fuel(remove_head(lists, c), (f1 - 1) as nat, (f2 - 1) as nat);
            },
        }
    }
}

/// The integer images of a sequence of identity lists.
pub open spec fn lists_of(v: Seq<Vec<Id>>) -> Seq<Seq<int>> {
    v.map_values(|x: Vec<Id>| ids_of(x@))
}

/// The candidate lists still to merge: each full list with its first
/// `pos` elements already consumed.
pub open spec fn cur_lists(v: Seq<Vec<Id>>, pos: Seq<usize>) -> Seq<Seq<int>> {
    Seq::new(v.len(), |l: int| ids_of(v[l]@).skip(pos[l] as int))
}

/// Prepends an already-chosen prefix to a merge outcome.
pub open spec fn with_prefix(p: Seq<int>, m: Option<MergeOut>) -> Option<MergeOut> {
    match m {
        Some(MergeOut::Done(s)) => Some(MergeOut::Done(p + s)),
        other => other,
    }
}

proof fn lemma_heads_push(s: Seq<Seq<int>>, x: Seq<int>)
    ensures
        heads(s.push(x)) == heads(s) + if x.len() > 0 {
            seq![x[0]]
        } else {
            Seq::<int>::empty()
        },
    decreases s.len(),
{
    let tailpart = if x.len() > 0 {
        seq![x[0]]
    } else {
        Seq::<int>::empty()
    };
    if s.len() == 0 {
        assert(s.push(x)[0] == x);
        assert(s.push(x).skip(1) =~= Seq::<Seq<int>>::empty());
        assert(heads(s.push(x).skip(1)) == heads(Seq::<Seq<int>>::empty()));
        if x.len() > 0 {
            assert(heads(s.push(x)) == seq![x[0]] + heads(s.push(x).skip(1)));
            assert(heads(s.push(x)) =~= heads(s) + tailpart);
        } else {
            assert(heads(s.push(x)) == heads(s.push(x).skip(1)));
            assert(heads(s.push(x)) =~= heads(s) + tailpart);
        }
    } else {
        assert(s.push(x).skip(1) =~= s.skip(1).push(x));
        lemma_heads_push(s.skip(1), x);
        assert(heads(s.push(x).skip(1)) == heads(s.skip(1)) + tailpart);
        assert(s.push(x)[0] == s[0]);
        if s[0].len() > 0 {
            assert(heads(s.push(x)) == seq![s[0][0]] + (heads(s.skip(1)) + tailpart));
            assert(seq![s[0][0]] + (heads(s.skip(1)) + tailpart) =~= (seq![s[0][0]] + heads(
                s.skip(1),
            )) + tailpart);
            assert(heads(s.push(x)) =~= heads(s) + tailpart);
        } else {
            assert(heads(s.push(x)) == heads(s.skip(1)) + tailpart);
            assert(heads(s.push(x)) =~= heads(s) + tailpart);
        }
    }
}

/// The outcome of the executable merge.
enum C3Outcome {
    Done(Vec<Id>),
    Stuck(Vec<Id>),
}

/// Whether every remaining candidate list is exhausted.
fn all_empty_exec(lists: &Vec<Vec<Id>>, pos: &Vec<usize>) -> (r: bool)
    requires
        pos@.len() == lists@.len(),
        forall|l: int| 0 <= l < pos@.len() ==> (#[trigger] pos@[l]) <= lists@[l]@.len(),
    ensures
        r == lists_all_empty(cur_lists(lists@, pos@)),
{
    let mut l: usize = 0;
    while l < lists.len()
        invariant
            pos@.len() == lists@.len(),
            forall|t: int| 0 <= t < pos@.len() ==> (#[trigger] pos@[t]) <= lists@[t]@.len(),
            l <= lists@.len(),
            forall|t: int| 0 <= t < l ==> (#[trigger] pos@[t]) == lists@[t]@.len(),
        decreases lists@.len() - l,
    {
        if pos[l] < lists[l].len() {
            proof {
                assert(cur_lists(lists@, pos@)[l as int].len() > 0);
            }
            return false;
        }
        l = l + 1;
    }
    proof {
        assert forall|t: int| 0 <= t < cur_lists(lists@, pos@).len() implies (
        #[trigger] cur_lists(lists@, pos@)[t]).len() == 0 by {
            assert(pos@[t] == lists@[t]@.len());
        }
    }
    true
}

/// Whether `c` appears in the tail of some remaining candidate list.
fn in_some_tail_exec(lists: &Vec<Vec<Id>>, pos: &Vec<usize>, c: Id) -> (r: bool)
    requires
        pos@.len() == lists@.len(),
        forall|l: int| 0 <= l < pos@.len() ==> (#[trigger] pos@[l]) <= lists@[l]@.len(),
    ensures
        r == in_some_tail(cur_lists(lists@, pos@), c.index as int),
{
    let ghost cur = cur_lists(lists@, pos@);
    let mut l: usize = 0;
    while l < lists.len()
        invariant
            pos@.len() == lists@.len(),
            forall|t: int| 0 <= t < pos@.len() ==> (#[trigger] pos@[t]) <= lists@[t]@.len(),
            cur == cur_lists(lists@, pos@),
            l <= lists@.len(),
            forall|t: int|
                0 <= t < l ==> !((#[trigger] cur[t]).len() > 0 && cur[t].skip(1).contains(
                    c.index as int,
                )),
        decreases lists@.len() - l,
    {
        let len_l = lists[l].len();
        if pos[l] < len_l {
            let mut t: usize = pos[l] + 1;
            while t < len_l
                invariant
                    pos@.len() == lists@.len(),
                    forall|m: int| 0 <= m < pos@.len() ==> (#[trigger] pos@[m]) <= lists@[m]@.len(),
                    cur == cur_lists(lists@, pos@),
                    l < lists@.len(),
                    len_l == lists@[l as int]@.len(),
                    pos@[l as int] < t <= len_l,
                    forall|m: int|
                        pos@[l as int] < m < t ==> (#[trigger] lists@[l as int]@[m]).index
                            != c.index,
                decreases len_l - t,
            {
                if lists[l][t].index == c.index {
                    proof {
                        let idx = t - pos@[l as int] - 1;
                        assert(cur[l as int].skip(1)[idx as int] == lists@[l as int]@[t as int].index
                            as int);
                        assert(cur[l as int].len() > 0);
                        assert(cur[l as int].skip(1).contains(c.index as int));
                    }
                    return true;
                }
                t = t + 1;
            }
            proof {
                assert forall|idx: int| 0 <= idx < cur[l as int].skip(1).len() implies cur[
                    l as int].skip(1)[idx] != c.index as int by {
                    assert(cur[l as int].skip(1)[idx] == ids_of(lists@[l as int]@)[pos@[l as int]
                        + 1 + idx]);
                    assert(lists@[l as int]@[pos@[l as int] + 1 + idx].index != c.index);
                }
                assert(!cur[l as int].skip(1).contains(c.index as int));
            }
        } else {
            proof {
                assert(cur[l as int].len() == 0);
            }
        }
        l = l + 1;
    }
    false
}

/// The first unblocked head among the remaining candidate lists.
fn pick_exec(lists: &Vec<Vec<Id>>, pos: &Vec<usize>) -> (r: Option<Id>)
    requires
        pos@.len() == lists@.len(),
        forall|l: int| 0 <= l < pos@.len() ==> (#[trigger] pos@[l]) <= lists@[l]@.len(),
    ensures
        match r {
            Some(c) => pick_from(cur_lists(lists@, pos@), 0) == Some(c.index as int),
            None => pick_from(cur_lists(lists@, pos@), 0) is None,
        },
{
    let ghost cur = cur_lists(lists@, pos@);
    let mut l: usize = 0;
    while l < lists.len()
        invariant
            pos@.len() == lists@.len(),
            forall|t: int| 0 <= t < pos@.len() ==> (#[trigger] pos@[t]) <= lists@[t]@.len(),
            cur == cur_lists(lists@, pos@),
            l <= lists@.len(),
            pick_from(cur, 0) == pick_from(cur, l as int),
        decreases lists@.len() - l,
    {
        if pos[l] < lists[l].len() {
            let c = lists[l][pos[l]];
            proof {
                assert(cur[l as int][0] == c.index as int);
            }
            if !in_some_tail_exec(lists, pos, c) {
                return Some(c);
            }
        }
        l = l + 1;
    }
    None
}

/// Advances past the chosen head in every list that starts with it.
fn advance_heads(lists: &Vec<Vec<Id>>, pos: &mut Vec<usize>, c: Id)
    requires
        old(pos)@.len() == lists@.len(),
        forall|l: int| 0 <= l < old(pos)@.len() ==> (#[trigger] old(pos)@[l]) <= lists@[l]@.len(),
    ensures
        final(pos)@.len() == lists@.len(),
        forall|l: int| 0 <= l < final(pos)@.len() ==> (#[trigger] final(pos)@[l]) <= lists@[l]@.len(),
        cur_lists(lists@, final(pos)@) == remove_head(cur_lists(lists@, old(pos)@), c.index as int),
{
    let ghost cur0 = cur_lists(lists@, old(pos)@);
    let mut l: usize = 0;
    while l < lists.len()
        invariant
            pos@.len() == lists@.len(),
            forall|t: int| 0 <= t < pos@.len() ==> (#[trigger] pos@[t]) <= lists@[t]@.len(),
            cur0 == cur_lists(lists@, old(pos)@),
            l <= lists@.len(),
            forall|t: int| l <= t < pos@.len() ==> (#[trigger] pos@[t]) == old(pos)@[t],
            forall|t: int|
                0 <= t < l ==> (#[trigger] cur_lists(lists@, pos@)[t]) == remove_head(
                    cur0,
                    c.index as int,
                )[t],
        decreases lists@.len() - l,
    {
        let ghost pos_pre = pos@;
        if pos[l] < lists[l].len() && lists[l][pos[l]].index == c.index {
            let p = pos[l];
            pos[l] = p + 1;
            proof {
                assert(cur0[l as int].len() > 0);
                assert(cur0[l as int][0] == c.index as int);
                assert(cur_lists(lists@, pos@)[l as int] =~= cur0[l as int].skip(1));
                assert(remove_head(cur0, c.index as int)[l as int] == cur0[l as int].skip(1));
            }
        } else {
            proof {
                if pos@[l as int] < lists@[l as int]@.len() {
                    assert(cur0[l as int].len() > 0);
                    assert(cur0[l as int][0] == lists@[l as int]@[pos@[l as int] as int].index
                        as int);
                } else {
                    assert(cur0[l as int].len() == 0);
                }
                assert(cur_lists(lists@, pos@)[l as int] =~= cur0[l as int]);
                assert(remove_head(cur0, c.index as int)[l as int] == cur0[l as int]);
            }
        }
        proof {
            assert forall|t: int| 0 <= t < l + 1 implies (#[trigger] cur_lists(lists@, pos@)[t])
                == remove_head(cur0, c.index as int)[t] by {
                if t < l {
                    assert(pos@[t] == pos_pre[t]);
                    assert(cur_lists(lists@, pos@)[t] == cur_lists(lists@, pos_pre)[t]);
                    assert(cur_lists(lists@, pos_pre)[t] == remove_head(cur0, c.index as int)[t]);
                }
            }
        }
        l = l + 1;
    }
    proof {
        assert(cur_lists(lists@, pos@) =~= remove_head(cur0, c.index as int));
    }
}

/// The heads of the remaining candidate lists, in list order.
fn heads_exec(lists: &Vec<Vec<Id>>, pos: &Vec<usize>) -> (r: Vec<Id>)
    requires
        pos@.len() == lists@.len(),
        forall|l: int| 0 <= l < pos@.len() ==> (#[trigger] pos@[l]) <= lists@[l]@.len(),
    ensures
        ids_of(r@) == heads(cur_lists(lists@, pos@)),
{
    let ghost cur = cur_lists(lists@, pos@);
    let mut out: Vec<Id> = Vec::new();
    let mut l: usize = 0;
    proof {
        assert(cur.take(0) =~= Seq::<Seq<int>>::empty());
        assert(ids_of(out@) =~= heads(cur.take(0)));
    }
    while l < lists.len()
        invariant
            pos@.len() == lists@.len(),
            forall|t: int| 0 <= t < pos@.len() ==> (#[trigger] pos@[t]) <= lists@[t]@.len(),
            cur == cur_lists(lists@, pos@),
            l <= lists@.len(),
            ids_of(out@) == heads(cur.take(l as int)),
        decreases lists@.len() - l,
    {
        let ghost before = out@;
        if pos[l] < lists[l].len() {
            let c = lists[l][pos[l]];
            proof {
                assert(cur[l as int][0] == c.index as int);
            }
            out.push(c);
            proof {
                lemma_heads_push(cur.take(l as int), cur[l as int]);
                assert(cur.take(l + 1) =~= cur.take(l as int).push(cur[l as int]));
                assert(ids_of(out@) =~= ids_of(before).push(c.index as int));
                assert(ids_of(out@) =~= heads(cur.take(l + 1)));
            }
        } else {
            proof {
                lemma_heads_push(cur.take(l as int), cur[l as int]);
                assert(cur.take(l + 1) =~= cur.take(l as int).push(cur[l as int]));
                assert(cur[l as int].len() == 0);
                assert(ids_of(out@) =~= heads(cur.take(l + 1)));
            }
        }
        l = l + 1;
    }
    proof {
        assert(cur.take(lists@.len() as int) =~= cur);
    }
    out
}

/// Runs the C3-style merge over the given candidate lists.
fn merge_exec(lists: Vec<Vec<Id>>) -> (r: C3Outcome)
    ensures
        match r {
            C3Outcome::Done(v) => c3_total(lists_of(lists@)) == Some(MergeOut::Done(ids_of(v@))),
            C3Outcome::Stuck(v) => c3_total(lists_of(lists@)) == Some(
                MergeOut::Stuck(ids_of(v@)),
            ),
        },
{
    let mut pos: Vec<usize> = Vec::new();
    while pos.len() < lists.len()
        invariant
            pos@.len() <= lists@.len(),
            forall|l: int| 0 <= l < pos@.len() ==> (#[trigger] pos@[l]) == 0,
        decreases lists@.len() - pos@.len(),
    {
        pos.push(0);
    }
    let ghost l0 = cur_lists(lists@, pos@);
    proof {
        assert(l0 =~~= lists_of(lists@));
    }
    let mut out: Vec<Id> = Vec::new();
    proof {
        assert(ids_of(out@) =~= Seq::<int>::empty());
    }
    loop
        invariant
            pos@.len() == lists@.len(),
            forall|l: int| 0 <= l < pos@.len() ==> (#[trigger] pos@[l]) <= lists@[l]@.len(),
            l0 == lists_of(lists@),
            with_prefix(ids_of(out@), c3_total(cur_lists(lists@, pos@))) == c3_total(l0),
        decreases sum_len(cur_lists(lists@, pos@)),
    {
        let ghost cur = cur_lists(lists@, pos@);
        if all_empty_exec(&lists, &pos) {
            proof {
                assert(c3_total(cur) == Some(MergeOut::Done(Seq::<int>::empty())));
                assert(ids_of(out@) + Seq::<int>::empty() =~= ids_of(out@));
            }
            return C3Outcome::Done(out);
        }
        match pick_exec(&lists, &pos) {
            None => {
                let h = heads_exec(&lists, &pos);
                proof {
                    assert(c3_total(cur) == Some(MergeOut::Stuck(heads(cur))));
                }
                return C3Outcome::Stuck(h);
            },
            Some(c) => {
                let ghost out_before = out@;
                advance_heads(&lists, &mut pos, c);
                out.push(c);
                proof {
                    let ci = c.index as int;
                    let nxt = cur_lists(lists@, pos@);
                    assert(nxt == remove_head(cur, ci));
                    lemma_remove_head_shrinks(cur, ci);
                    lemma_c3_merge_fuel(
                        nxt,
                        (sum_len(cur) + 1 - 1) as nat,
                        sum_len(nxt) + 1,
                    );
                    assert(c3_merge(cur, sum_len(cur) + 1) == match c3_total(nxt) {
                        None => None,
                        Some(MergeOut::Done(s)) => Some(MergeOut::Done(seq![ci] + s)),
                        Some(MergeOut::Stuck(h)) => Some(MergeOut::Stuck(h)),
                    });
                    assert(ids_of(out@) =~= ids_of(out_before).push(ci));
                    match c3_total(nxt) {
                        None => {},
                        Some(MergeOut::Done(s)) => {
                            assert(ids_of(out_before) + (seq![ci] + s) =~= ids_of(out@) + s);
                        },
                        Some(MergeOut::Stuck(_)) => {},
                    }
                }
            },
        }
    }
}

/// Keeps the first occurrence of each identity, in order.
pub open spec fn dedup_first(s: Seq<int>) -> Seq<int>
    decreases s.len(),
{
    if s.len() == 0 {
        Seq::empty()
    } else {
        let p = dedup_first(s.drop_last());
        if p.contains(s.last()) {
            p
        } else {
            p.push(s.last())
        }
    }
}

/// Deduplication keeps exactly the members.
pub proof fn lemma_dedup_first_members(s: Seq<int>)
    ensures
        forall|x: int| #[trigger] dedup_first(s).contains(x) <==> s.contains(x),
    decreases s.len(),
{
    if s.len() > 0 {
        lemma_dedup_first_members(s.drop_last());
        let p = dedup_first(s.drop_last());
        let d = dedup_first(s);
        assert forall|x: int| #[trigger] d.contains(x) implies s.contains(x) by {
            if p.contains(x) || x == s.last() {
                if x == s.last() {
                    assert(s[s.len() - 1] == x);
                } else {
                    assert(s.drop_last().contains(x));
                    let idx = choose|idx: int|
                        0 <= idx < s.drop_last().len() && s.drop_last()[idx] == x;
                    assert(s[idx] == x);
                }
            } else {
                let idx = choose|idx: int| 0 <= idx < d.len() && d[idx] == x;
                if idx < p.len() {
                    assert(p[idx] == x);
                }
            }
        }
        assert forall|x: int| s.contains(x) implies #[trigger] d.contains(x) by {
            let idx = choose|idx: int| 0 <= idx < s.len() && s[idx] == x;
            if idx < s.len() - 1 {
                assert(s.drop_last()[idx] == x);
                assert(s.drop_last().contains(x));
                assert(p.contains(x));
                let pi = choose|pi: int| 0 <= pi < p.len() && p[pi] == x;
                assert(d[pi] == x);
            } else {
                if p.contains(x) {
                    let pi = choose|pi: int| 0 <= pi < p.len() && p[pi] == x;
                    assert(d[pi] == x);
                } else {
                    assert(d[d.len() - 1] == x);
                }
            }
        }
    }
}

/// Keeps the first occurrence of each identity, in order.
fn dedup_exec(v: &Vec<Id>) -> (r: Vec<Id>)
    ensures
        ids_of(r@) == dedup_first(ids_of(v@)),
{
    let mut out: Vec<Id> = Vec::new();
    let mut k: usize = 0;
    proof {
        assert(ids_of(v@).take(0) =~= Seq::<int>::empty());
        assert(ids_of(out@) =~= dedup_first(ids_of(v@).take(0)));
    }
    while k < v.len()
        invariant
            k <= v@.len(),
            ids_of(out@) == dedup_first(ids_of(v@).take(k as int)),
        decreases v@.len() - k,
    {
        let ghost pre = ids_of(v@).take(k as int);
        proof {
            assert(ids_of(v@).take(k + 1).drop_last() =~= pre);
            assert(ids_of(v@).take(k + 1).last() == v@[k as int].index as int);
        }
        let ghost before = out@;
        if !contains_id(&out, v[k]) {
            out.push(v[k]);
            proof {
                assert(!ids_of(before).contains(v@[k as int].index as int)) by {
                    if ids_of(before).contains(v@[k as int].index as int) {
                        let t = choose|t: int|
                            0 <= t < ids_of(before).len() && ids_of(before)[t] == v@[
                                k as int].index as int;
                        assert(before[t].index == v@[k as int].index);
                        assert(ids_contain(before, v@[k as int].index as int));
                    }
                }
                assert(ids_of(out@) =~= ids_of(before).push(v@[k as int].index as int));
            }
        } else {
            proof {
                let t = choose|t: int|
                    0 <= t < before.len() && before[t].index == v@[k as int].index as int;
                assert(ids_of(before)[t] == v@[k as int].index as int);
                assert(ids_of(before).contains(v@[k as int].index as int));
            }
        }
        k = k + 1;
    }
    proof {
        assert(ids_of(v@).take(v@.len() as int) =~= ids_of(v@));
    }
    out
}

/// Whether every entry reflexively reachable from `i` has resolvable
/// base names.
pub open spec fn names_ok(a: Seq<EntryView>, i: int) -> bool {
    forall|j: int| #[trigger] rreach(a, i, j) ==> base_ids(a, j) is Some
}

/// Whether nothing reflexively reachable from `i` lies on a cycle.
pub open spec fn acyclic_at(a: Seq<EntryView>, i: int) -> bool {
    forall|j: int| #[trigger] rreach(a, i, j) ==> !is_ancestor(a, j, j)
}

/// The intermediate state of linearizing a node's bases.
pub enum LinLists {
    Lists(Seq<Seq<int>>),
    Stuck(Seq<int>),
}

/// The C3-style linearization of node `n`: the node itself, then the
/// merge of its bases' linearizations and the base list, bounded by
/// `fuel`.
pub open spec fn lin_spec(a: Seq<EntryView>, n: int, fuel: nat) -> Option<MergeOut>
    decreases fuel, 0nat,
{
    if fuel == 0 {
        None
    } else {
        match base_ids(a, n) {
            None => Some(MergeOut::Done(seq![n])),
            Some(raw) => {
                let bs = dedup_first(raw);
                match lin_bases(a, bs, (fuel - 1) as nat) {
                    None => None,
                    Some(LinLists::Stuck(h)) => Some(MergeOut::Stuck(h)),
                    Some(LinLists::Lists(ls)) => match c3_total(ls.push(bs)) {
                        None => None,
                        Some(MergeOut::Done(s)) => Some(MergeOut::Done(seq![n] + s)),
                        Some(MergeOut::Stuck(h)) => Some(MergeOut::Stuck(h)),
                    },
                }
            },
        }
    }
}

/// Linearizes each base in order; the first stuck base wins.
pub open spec fn lin_bases(a: Seq<EntryView>, bs: Seq<int>, fuel: nat) -> Option<LinLists>
    decreases fuel, bs.len() + 1,
{
    if bs.len() == 0 {
        Some(LinLists::Lists(Seq::empty()))
    } else {
        match lin_spec(a, bs[0], fuel) {
            None => None,
            Some(MergeOut::Stuck(h)) => Some(LinLists::Stuck(h)),
            Some(MergeOut::Done(l)) => match lin_bases(a, bs.skip(1), fuel) {
                None => None,
                Some(LinLists::Stuck(h)) => Some(LinLists::Stuck(h)),
                Some(LinLists::Lists(ls)) => Some(LinLists::Lists(seq![l] + ls)),
            },
        }
    }
}

/// Prepends already-collected lists to a base-linearization outcome.
pub open spec fn lin_append(pre: Seq<Seq<int>>, r: Option<LinLists>) -> Option<LinLists> {
    match r {
        None => None,
        Some(LinLists::Stuck(h)) => Some(LinLists::Stuck(h)),
        Some(LinLists::Lists(ls)) => Some(LinLists::Lists(pre + ls)),
    }
}

/// The gates survive one edge step: a base of a gated node is gated.
proof fn lemma_gates_step(a: Seq<EntryView>, n: int, b: int)
    requires
        edge(a, n, b),
        names_ok(a, n),
        acyclic_at(a, n),
    ensures
        names_ok(a, b),
        acyclic_at(a, b),
{
    assert forall|j: int| #[trigger] rreach(a, b, j) implies rreach(a, n, j) by {
        lemma_edge_then_rreach(a, n, b, j);
    }
}

/// Under the gates, a base's reflexive closure is strictly smaller
/// than its extender's.
proof fn lemma_base_closure_smaller(a: Seq<EntryView>, n: int, b: int)
    requires
        a.len() <= usize::MAX,
        0 <= n < a.len(),
        edge(a, n, b),
        !is_ancestor(a, n, n),
    ensures
        rclosure(a, b).len() < rclosure(a, n).len(),
{
    lemma_edge_live(a, n, b);
    assert forall|j: int| rclosure(a, b).contains(j) implies rclosure(a, n).remove(
        n,
    ).contains(j) by {
        lemma_edge_then_rreach(a, n, b, j);
        if j == n {
            lemma_cycle_char(a, n);
            assert(edge(a, n, b) && rreach(a, b, n));
            assert(is_ancestor(a, n, n));
        }
    }
    lemma_rclosure_finite(a, n);
    assert(rclosure(a, n).contains(n));
    lemma_len_subset(rclosure(a, b), rclosure(a, n).remove(n));
}

/// With fuel exceeding the size of the reflexive closure, the gated
/// linearization never runs out.
pub proof fn lemma_lin_defined(a: Seq<EntryView>, n: int, fuel: nat)
    requires
        a.len() <= usize::MAX,
        0 <= n < a.len(),
        names_ok(a, n),
        acyclic_at(a, n),
        fuel > rclosure(a, n).len(),
    ensures
        lin_spec(a, n, fuel) is Some,
    decreases fuel, 0nat,
{
    assert(rreach(a, n, n));
    match base_ids(a, n) {
        None => {},
        Some(raw) => {
            let bs = dedup_first(raw);
            lemma_dedup_first_members(raw);
            assert forall|t: int| 0 <= t < bs.len() implies edge(a, n, #[trigger] bs[t]) by {
                assert(bs.contains(bs[t]));
                assert(raw.contains(bs[t]));
            }
            lemma_lin_bases_defined(a, n, bs, (fuel - 1) as nat);
            match lin_bases(a, bs, (fuel - 1) as nat) {
                None => {},
                Some(LinLists::Stuck(_)) => {},
                Some(LinLists::Lists(ls)) => {
                    let all = ls.push(bs);
                    lemma_c3_merge_fuel(all, sum_len(all) + 1, sum_len(all) + 1);
                },
            }
        },
    }
}

proof fn lemma_lin_bases_defined(a: Seq<EntryView>, n: int, bs: Seq<int>, fuel: nat)
    requires
        a.len() <= usize::MAX,
        0 <= n < a.len(),
        names_ok(a, n),
        acyclic_at(a, n),
        forall|t: int| 0 <= t < bs.len() ==> edge(a, n, #[trigger] bs[t]),
        fuel >= rclosure(a, n).len(),
    ensures
        lin_bases(a, bs, fuel) is Some,
    decreases fuel, bs.len() + 1,
{
    if bs.len() > 0 {
        let b = bs[0];
        lemma_edge_live(a, n, b);
        lemma_gates_step(a, n, b);
        assert(rreach(a, n, n));
        lemma_base_closure_smaller(a, n, b);
        lemma_lin_defined(a, b, fuel);
        lemma_lin_bases_defined(a, n, bs.skip(1), fuel);
    }
}

/// The outcome of the executable linearization.
enum LinOutcome {
    Done(Vec<Id>),
    Stuck(Vec<Id>),
    NoFuel,
}

/// Computes the C3-style linearization of `n`, mirroring `lin_spec`.
fn lin_exec(arena: &Arena, n: Id, fuel: usize) -> (r: LinOutcome)
    requires
        n.index < arena@.len(),
        arena@[n.index as int].alive,
    ensures
        match r {
            LinOutcome::Done(v) => lin_spec(arena@, n.index as int, fuel as nat) == Some(
                MergeOut::Done(ids_of(v@)),
            ),
            LinOutcome::Stuck(v) => lin_spec(arena@, n.index as int, fuel as nat) == Some(
                MergeOut::Stuck(ids_of(v@)),
            ),
            LinOutcome::NoFuel => lin_spec(arena@, n.index as int, fuel as nat) is None,
        },
    decreases fuel,
{
    if fuel == 0 {
        return LinOutcome::NoFuel;
    }
    let total = arena.len();
    let ghost a = arena@;
    let ghost ni = n.index as int;
    let ghost f1 = (fuel - 1) as nat;
    proof {
        assert(a.len() == total as nat);
    }
    match resolve_base_ids(arena, n) {
        Err(_) => {
            let mut v: Vec<Id> = Vec::new();
            v.push(n);
            proof {
                assert(ids_of(v@) =~= seq![ni]);
            }
            LinOutcome::Done(v)
        },
        Ok(raw) => {
            let bs = dedup_exec(&raw);
            let ghost raw_spec = ids_of(raw@);
            let ghost bs_spec = dedup_first(raw_spec);
            proof {
                lemma_dedup_first_members(raw_spec);
                lemma_base_ids_live(a, ni);
                assert forall|t: int| 0 <= t < bs@.len() implies live(
                    a,
                    (#[trigger] bs@[t]).index as int,
                ) by {
                    assert(ids_of(bs@)[t] == bs@[t].index as int);
                    assert(bs_spec.contains(bs@[t].index as int));
                    assert(raw_spec.contains(bs@[t].index as int));
                    let w = choose|w: int|
                        0 <= w < raw_spec.len() && raw_spec[w] == bs@[t].index as int;
                    assert(live(a, base_ids(a, ni)->Some_0[w]));
                }
            }
            let mut lists: Vec<Vec<Id>> = Vec::new();
            let mut t: usize = 0;
            proof {
                assert(bs_spec.skip(0) =~= bs_spec);
                assert(lists_of(lists@) =~= Seq::<Seq<int>>::empty());
                match lin_bases(a, bs_spec, f1) {
                    Some(LinLists::Lists(ls)) => {
                        assert(Seq::<Seq<int>>::empty() + ls =~= ls);
                    },
                    _ => {},
                }
            }
            while t < bs.len()
                invariant
                    a == arena@,
                    a.len() <= usize::MAX,
                    fuel >= 1,
                    f1 == (fuel - 1) as nat,
                    ni == n.index as int,
                    base_ids(a, ni) == Some(raw_spec),
                    bs_spec == dedup_first(raw_spec),
                    bs_spec == ids_of(bs@),
                    t <= bs@.len(),
                    forall|m: int|
                        0 <= m < bs@.len() ==> live(a, (#[trigger] bs@[m]).index as int),
                    lin_bases(a, bs_spec, f1) == lin_append(
                        lists_of(lists@),
                        lin_bases(a, bs_spec.skip(t as int), f1),
                    ),
                decreases bs@.len() - t,
            {
                let ghost rest = bs_spec.skip(t as int);
                proof {
                    assert(rest.len() > 0);
                    assert(rest[0] == bs@[t as int].index as int);
                    assert(rest.skip(1) =~= bs_spec.skip(t + 1));
                }
                match lin_exec(arena, bs[t], fuel - 1) {
                    LinOutcome::NoFuel => {
                        proof {
                            assert(lin_bases(a, rest, f1) is None);
                            assert(lin_bases(a, bs_spec, f1) is None);
                        }
                        return LinOutcome::NoFuel;
                    },
                    LinOutcome::Stuck(h) => {
                        proof {
                            assert(lin_bases(a, rest, f1) == Some(
                                LinLists::Stuck(ids_of(h@)),
                            ));
                            assert(lin_bases(a, bs_spec, f1) == Some(
                                LinLists::Stuck(ids_of(h@)),
                            ));
                        }
                        return LinOutcome::Stuck(h);
                    },
                    LinOutcome::Done(l) => {
                        let ghost l_ids = ids_of(l@);
                        let ghost lists_before = lists_of(lists@);
                        lists.push(l);
                        proof {
                            assert(lists_of(lists@) =~= lists_before.push(l_ids));
                            match lin_bases(a, bs_spec.skip(t + 1), f1) {
                                None => {},
                                Some(LinLists::Stuck(_)) => {},
                                Some(LinLists::Lists(ls)) => {
                                    assert(lin_bases(a, rest, f1) == Some(
                                        LinLists::Lists(seq![l_ids] + ls),
                                    ));
                                    assert(lists_before + (seq![l_ids] + ls)
                                        =~= lists_before.push(l_ids) + ls);
                                },
                            }
                        }
                        t = t + 1;
                    },
                }
            }
            proof {
                assert(bs_spec.skip(bs_spec.len() as int) =~= Seq::<int>::empty());
                assert(lin_bases(a, bs_spec.skip(bs_spec.len() as int), f1) == Some(
                    LinLists::Lists(Seq::<Seq<int>>::empty()),
                ));
                assert(lists_of(lists@) + Seq::<Seq<int>>::empty() =~= lists_of(lists@));
                assert(lin_bases(a, bs_spec, f1) == Some(LinLists::Lists(lists_of(lists@))));
            }
            let ghost ls = lists_of(lists@);
            lists.push(bs);
            proof {
                assert(lists_of(lists@) =~= ls.push(bs_spec));
            }
            match merge_exec(lists) {
                C3Outcome::Done(m) => {
                    let mut out: Vec<Id> = Vec::new();
                    out.push(n);
                    let mut mm = m;
                    out.append(&mut mm);
                    proof {
                        assert(ids_of(out@) =~= seq![ni] + ids_of(m@));
                    }
                    LinOutcome::Done(out)
                },
                C3Outcome::Stuck(h) => LinOutcome::Stuck(h),
            }
        },
    }
}

/// Whether a sequence of identities lists `j`.
pub open spec fn ids_contain(v: Seq<Id>, j: int) -> bool {
    exists|t: int| 0 <= t < v.len() && v[t].index == j
}

/// Linear membership scan over a list of identities.
pub fn contains_id(v: &Vec<Id>, x: Id) -> (r: bool)
    ensures
        r == ids_contain(v@, x.index as int),
{
    let mut t: usize = 0;
    while t < v.len()
        invariant
            t <= v@.len(),
            forall|m: int| 0 <= m < t ==> v@[m].index != x.index,
        decreases v@.len() - t,
    {
        if v[t].index == x.index {
            return true;
        }
        t = t + 1;
    }
    false
}

/// Resolves the declared base names of live entry `i` to identities, in
/// declared order; reports the first name that does not resolve.
pub fn resolve_base_ids(arena: &Arena, i: Id) -> (r: Result<Vec<Id>, String>)
    requires
        i.index < arena@.len(),
        arena@[i.index as int].alive,
    ensures
        match r {
            Ok(v) => base_ids(arena@, i.index as int) == Some(ids_of(v@)),
            Err(name) => base_ids(arena@, i.index as int) is None && name@ == first_unresolved(
                arena@,
                arena@[i.index as int].decl.extends,
            ),
        },
{
    let ghost a = arena@;
    let ghost names = a[i.index as int].decl.extends;
    let decl = match arena.get(i) {
        Some(d) => d,
        None => {
            return Err(String::new());
        },
    };
    let mut out: Vec<Id> = Vec::new();
    let mut k: usize = 0;
    proof {
        assert(names == decl.extends.deep_view());
    }
    while k < decl.extends.len()
        invariant
            decl@ == a[i.index as int].decl,
            names == decl.extends.deep_view(),
            a == arena@,
            i.index < a.len(),
            a[i.index as int].alive,
            k <= names.len(),
            names.len() == decl.extends@.len(),
            out@.len() == k,
            forall|m: int| 0 <= m < k ==> lookup_spec(a, #[trigger] names[m]) is Some,
            forall|m: int|
                0 <= m < k ==> (#[trigger] out@[m]).index == lookup_spec(
                    a,
                    names[m],
                )->Some_0.index,
        decreases decl.extends@.len() - k,
    {
        proof {
            assert(names[k as int] == decl.extends@[k as int]@);
        }
        match arena.lookup(decl.extends[k].as_str()) {
            Some(id) => {
                out.push(id);
                k = k + 1;
            },
            None => {
                proof {
                    lemma_first_unresolved_at(a, names, k as int);
                }
                return Err(decl.extends[k].clone());
            },
        }
    }
    proof {
        assert(live(a, i.index as int));
        assert(all_names_resolve(a, names));
        assert(ids_of(out@) =~= resolved_ids(a, names));
    }
    Ok(out)
}

/// The reflexive ancestor closure of `start`, as an ascending list of
/// identities.
pub fn closure_from(arena: &Arena, start: Id) -> (r: Vec<Id>)
    requires
        start.index < arena@.len(),
        arena@[start.index as int].alive,
    ensures
        ids_of(r@) == asc_indices(arena@.len(), rclosure(arena@, start.index as int)),
{
    let ghost a = arena@;
    let ghost st = start.index as int;
    let n = arena.len();
    let mut marked: Vec<bool> = Vec::new();
    while marked.len() < n
        invariant
            marked@.len() <= n,
            forall|j: int| 0 <= j < marked@.len() ==> !marked@[j],
        decreases n - marked@.len(),
    {
        marked.push(false);
    }
    let mut stack: Vec<Id> = Vec::new();
    marked[start.index] = true;
    stack.push(start);
    proof {
        lemma_count_true_le(marked@);
        assert(stack@[0] == start);
        assert(ids_contain(stack@, st));
    }
    while stack.len() > 0
        invariant
            a == arena@,
            n == a.len(),
            marked@.len() == n,
            start.index < n,
            a[st].alive,
            st == start.index as int,
            marked@[st],
            count_true(marked@) <= n,
            forall|j: int| 0 <= j < n && #[trigger] marked@[j] ==> rreach(a, st, j),
            forall|t: int|
                0 <= t < stack@.len() ==> (#[trigger] stack@[t]).index < n
                    && marked@[stack@[t].index as int],
            forall|j: int, b: int|
                0 <= j < n && #[trigger] marked@[j] && !ids_contain(stack@, j) && #[trigger] edge(
                    a,
                    j,
                    b,
                ) ==> 0 <= b < n && marked@[b],
        decreases n - count_true(marked@), stack@.len(),
    {
        let ghost prev_stack = stack@;
        let j = match stack.pop() {
            Some(j) => j,
            None => unreached(),
        };
        let ghost ji = j.index as int;
        let ghost cbase = count_true(marked@);
        let ghost sbase = stack@.len();
        proof {
            if ji != st {
                lemma_ancestor_live(a, st, ji);
            }
            assert forall|j2: int|
                #[trigger] ids_contain(prev_stack, j2) && j2 != ji implies ids_contain(
                stack@,
                j2,
            ) by {
                let t = choose|t: int| 0 <= t < prev_stack.len() && prev_stack[t].index == j2;
                assert(t < prev_stack.len() - 1);
                assert(stack@[t] == prev_stack[t]);
            }
        }
        match resolve_base_ids(arena, j) {
            Ok(bs) => {
                let mut t: usize = 0;
                while t < bs.len()
                    invariant
                        a == arena@,
                        n == a.len(),
                        marked@.len() == n,
                        start.index < n,
                        a[st].alive,
                        st == start.index as int,
                        marked@[st],
                        base_ids(a, ji) == Some(ids_of(bs@)),
                        0 <= ji < n,
                        rreach(a, st, ji),
                        t <= bs@.len(),
                        cbase <= count_true(marked@) <= n,
                        count_true(marked@) - cbase == stack@.len() - sbase,
                        forall|m: int|
                            0 <= m < t ==> 0 <= (#[trigger] bs@[m]).index < n
                                && marked@[bs@[m].index as int],
                        forall|j2: int| 0 <= j2 < n && #[trigger] marked@[j2] ==> rreach(a, st, j2),
                        forall|t2: int|
                            0 <= t2 < stack@.len() ==> (#[trigger] stack@[t2]).index < n
                                && marked@[stack@[t2].index as int],
                        forall|j2: int, b: int|
                            0 <= j2 < n && #[trigger] marked@[j2] && j2 != ji && !ids_contain(
                                stack@,
                                j2,
                            ) && #[trigger] edge(a, j2, b) ==> 0 <= b < n && marked@[b],
                    decreases bs@.len() - t,
                {
                    let b = bs[t];
                    proof {
                        lemma_base_ids_live(a, ji);
                        assert(ids_of(bs@)[t as int] == b.index as int);
                        assert(live(a, base_ids(a, ji)->Some_0[t as int]));
                        assert(live(a, b.index as int));
                        assert(base_ids(a, ji)->Some_0.contains(b.index as int));
                        assert(edge(a, ji, b.index as int));
                        lemma_rreach_step(a, st, ji, b.index as int);
                    }
                    if !marked[b.index] {
                        let ghost grown_stack = stack@;
                        proof {
                            lemma_count_true_update(marked@, b.index as int);
                        }
                        marked[b.index] = true;
                        stack.push(b);
                        proof {
                            lemma_count_true_le(marked@);
                            assert forall|j2: int|
                                #[trigger] ids_contain(grown_stack, j2) implies ids_contain(
                                stack@,
                                j2,
                            ) by {
                                let t2 = choose|t2: int|
                                    0 <= t2 < grown_stack.len() && grown_stack[t2].index == j2;
                                assert(stack@[t2] == grown_stack[t2]);
                            }
                            assert(stack@[stack@.len() - 1] == b);
                            assert(ids_contain(stack@, b.index as int));
                        }
                    }
                    t = t + 1;
                }
                proof {
                    assert forall|b: int| #[trigger] edge(a, ji, b) implies 0 <= b < n
                        && marked@[b] by {
                        let m = choose|m: int|
                            0 <= m < ids_of(bs@).len() && ids_of(bs@)[m] == b;
                        assert(bs@[m].index as int == b);
                    }
                }
            },
            Err(_) => {
                proof {
                    assert(base_ids(a, ji) is None);
                    assert(forall|b: int| !edge(a, ji, b));
                }
            },
        }
    }
    // Everything reachable is marked: the marked set contains `start`
    // and is closed under edges.
    let ghost ms = Set::new(|j: int| 0 <= j < n && marked@[j]);
    proof {
        assert forall|j: int| rreach(a, st, j) implies ms.contains(j) by {
            if j == st {
            } else {
                let k = choose|k: nat| reaches(a, st, j, k);
                lemma_closed_contains(a, ms, st, j, k);
            }
        }
        assert(ms =~= rclosure(a, st));
    }
    // Collect the marked indices in ascending order.
    let mut out: Vec<Id> = Vec::new();
    let mut idx: usize = 0;
    while idx < n
        invariant
            a == arena@,
            n == a.len(),
            marked@.len() == n,
            ms == rclosure(a, st),
            forall|j: int| 0 <= j < n ==> (#[trigger] marked@[j] <==> ms.contains(j)),
            idx <= n,
            ids_of(out@) == asc_indices(idx as nat, ms),
        decreases n - idx,
    {
        if marked[idx] {
            let ghost before = out@;
            out.push(Id { index: idx });
            proof {
                assert(ids_of(out@) =~= ids_of(before).push(idx as int));
            }
        }
        idx = idx + 1;
    }
    out
}

/// The resolver's total order over identities: by declared name,
/// identity as the tiebreak.
pub open spec fn key_lt(a: Seq<EntryView>, x: int, y: int) -> bool {
    lex_lt(a[x].decl.ident, a[y].decl.ident) || (a[x].decl.ident == a[y].decl.ident && x < y)
}

/// Inserts `x` in front of the first listed identity it precedes.
pub open spec fn sorted_insert(a: Seq<EntryView>, s: Seq<int>, x: int) -> Seq<int>
    decreases s.len(),
{
    if s.len() == 0 {
        seq![x]
    } else if key_lt(a, x, s[0]) {
        seq![x] + s
    } else {
        seq![s[0]] + sorted_insert(a, s.skip(1), x)
    }
}

/// Reorders identities by declared name, identity as the tiebreak.
pub open spec fn by_name(a: Seq<EntryView>, s: Seq<int>) -> Seq<int>
    decreases s.len(),
{
    if s.len() == 0 {
        Seq::empty()
    } else {
        sorted_insert(a, by_name(a, s.drop_last()), s.last())
    }
}

proof fn lemma_sorted_insert_members(a: Seq<EntryView>, s: Seq<int>, x: int)
    ensures
        sorted_insert(a, s, x).len() == s.len() + 1,
        forall|y: int|
            #[trigger] sorted_insert(a, s, x).contains(y) <==> (s.contains(y) || y == x),
    decreases s.len(),
{
    let r = sorted_insert(a, s, x);
    if s.len() == 0 {
        assert forall|y: int| #[trigger] r.contains(y) implies (s.contains(y) || y == x) by {
            let idx = choose|idx: int| 0 <= idx < r.len() && r[idx] == y;
        }
        assert(r[0] == x);
        assert(r.contains(x));
    } else if key_lt(a, x, s[0]) {
        assert forall|y: int| #[trigger] r.contains(y) implies (s.contains(y) || y == x) by {
            let idx = choose|idx: int| 0 <= idx < r.len() && r[idx] == y;
            if idx > 0 {
                assert(s[idx - 1] == y);
            }
        }
        assert forall|y: int| (s.contains(y) || y == x) implies #[trigger] r.contains(y) by {
            if s.contains(y) {
                let idx = choose|idx: int| 0 <= idx < s.len() && s[idx] == y;
                assert(r[idx + 1] == y);
            } else {
                assert(r[0] == y);
            }
        }
    } else {
        lemma_sorted_insert_members(a, s.skip(1), x);
        let rest = sorted_insert(a, s.skip(1), x);
        assert forall|y: int| #[trigger] r.contains(y) implies (s.contains(y) || y == x) by {
            let idx = choose|idx: int| 0 <= idx < r.len() && r[idx] == y;
            if idx == 0 {
                assert(s[0] == y);
            } else {
                assert(rest[idx - 1] == y);
                assert(rest.contains(y));
                if s.skip(1).contains(y) {
                    let w = choose|w: int| 0 <= w < s.skip(1).len() && s.skip(1)[w] == y;
                    assert(s[w + 1] == y);
                }
            }
        }
        assert forall|y: int| (s.contains(y) || y == x) implies #[trigger] r.contains(y) by {
            if y == s[0] {
                assert(r[0] == y);
            } else {
                if s.contains(y) {
                    let idx = choose|idx: int| 0 <= idx < s.len() && s[idx] == y;
                    assert(s.skip(1)[idx - 1] == y);
                    assert(s.skip(1).contains(y));
                }
                assert(rest.contains(y));
                let w = choose|w: int| 0 <= w < rest.len() && rest[w] == y;
                assert(r[w + 1] == y);
            }
        }
    }
}

/// Reordering keeps the length and the members.
pub proof fn lemma_by_name_members(a: Seq<EntryView>, s: Seq<int>)
    ensures
        by_name(a, s).len() == s.len(),
        forall|y: int| #[trigger] by_name(a, s).contains(y) <==> s.contains(y),
    decreases s.len(),
{
    if s.len() > 0 {
        lemma_by_name_members(a, s.drop_last());
        lemma_sorted_insert_members(a, by_name(a, s.drop_last()), s.last());
        assert forall|y: int| #[trigger] by_name(a, s).contains(y) implies s.contains(y) by {
            if by_name(a, s.drop_last()).contains(y) {
                assert(s.drop_last().contains(y));
                let idx = choose|idx: int|
                    0 <= idx < s.drop_last().len() && s.drop_last()[idx] == y;
                assert(s[idx] == y);
            } else {
                assert(s[s.len() - 1] == y);
            }
        }
        assert forall|y: int| s.contains(y) implies #[trigger] by_name(a, s).contains(y) by {
            let idx = choose|idx: int| 0 <= idx < s.len() && s[idx] == y;
            if idx < s.len() - 1 {
                assert(s.drop_last()[idx] == y);
                assert(s.drop_last().contains(y));
            }
        }
    }
}

proof fn lemma_sorted_insert_split(a: Seq<EntryView>, s: Seq<int>, x: int, p: int)
    requires
        0 <= p <= s.len(),
        forall|m: int| 0 <= m < p ==> !key_lt(a, x, #[trigger] s[m]),
        p < s.len() ==> key_lt(a, x, s[p]),
    ensures
        sorted_insert(a, s, x) == s.insert(p, x),
    decreases p,
{
    if p == 0 {
        if s.len() == 0 {
            assert(sorted_insert(a, s, x) =~= s.insert(0, x));
        } else {
            assert(key_lt(a, x, s[0]));
            assert(seq![x] + s =~= s.insert(0, x));
        }
    } else {
        assert(!key_lt(a, x, s[0]));
        assert forall|m: int| 0 <= m < p - 1 implies !key_lt(a, x, #[trigger] s.skip(1)[m]) by {
            assert(s.skip(1)[m] == s[m + 1]);
        }
        if p - 1 < s.skip(1).len() {
            assert(s.skip(1)[p - 1] == s[p]);
        }
        lemma_sorted_insert_split(a, s.skip(1), x, p - 1);
        assert(seq![s[0]] + s.skip(1).insert(p - 1, x) =~= s.insert(p, x));
    }
}

/// Every member of a union of operand closures is live.
proof fn lemma_ops_union_live(a: Seq<EntryView>, ops: Seq<int>)
    requires
        a.len() <= usize::MAX,
        forall|t: int| 0 <= t < ops.len() ==> live(a, #[trigger] ops[t]),
    ensures
        forall|j: int| #[trigger] ops_union(a, ops).contains(j) ==> live(a, j),
    decreases ops.len(),
{
    if ops.len() > 0 {
        assert forall|t: int| 0 <= t < ops.drop_last().len() implies live(
            a,
            #[trigger] ops.drop_last()[t],
        ) by {
            assert(ops.drop_last()[t] == ops[t]);
        }
        lemma_ops_union_live(a, ops.drop_last());
        assert forall|j: int| #[trigger] ops_union(a, ops).contains(j) implies live(a, j) by {
            if !ops_union(a, ops.drop_last()).contains(j) {
                assert(rclosure(a, ops.last()).contains(j));
                if j != ops.last() {
                    lemma_ancestor_live(a, ops.last(), j);
                } else {
                    assert(live(a, ops[ops.len() - 1]));
                }
            }
        }
    }
}

/// Every member of an intersection of operand closures is live.
proof fn lemma_ops_inter_live(a: Seq<EntryView>, ops: Seq<int>)
    requires
        a.len() <= usize::MAX,
        forall|t: int| 0 <= t < ops.len() ==> live(a, #[trigger] ops[t]),
    ensures
        forall|j: int| #[trigger] ops_inter(a, ops).contains(j) ==> live(a, j),
    decreases ops.len(),
{
    if ops.len() == 1 {
        assert forall|j: int| #[trigger] ops_inter(a, ops).contains(j) implies live(a, j) by {
            assert(rclosure(a, ops[0]).contains(j));
            if j != ops[0] {
                lemma_ancestor_live(a, ops[0], j);
            }
        }
    } else if ops.len() > 1 {
        assert forall|t: int| 0 <= t < ops.drop_last().len() implies live(
            a,
            #[trigger] ops.drop_last()[t],
        ) by {
            assert(ops.drop_last()[t] == ops[t]);
        }
        lemma_ops_inter_live(a, ops.drop_last());
        assert forall|j: int| #[trigger] ops_inter(a, ops).contains(j) implies live(a, j) by {
            assert(ops_inter(a, ops.drop_last()).contains(j));
        }
    }
}

/// The resolver's total order, decided through the store.
fn key_lt_exec(arena: &Arena, x: Id, y: Id) -> (r: bool)
    requires
        x.index < arena@.len(),
        arena@[x.index as int].alive,
        y.index < arena@.len(),
        arena@[y.index as int].alive,
    ensures
        r == key_lt(arena@, x.index as int, y.index as int),
{
    let dx = match arena.get(x) {
        Some(d) => d,
        None => unreached(),
    };
    let dy = match arena.get(y) {
        Some(d) => d,
        None => unreached(),
    };
    if str_lt(dx.ident.as_str(), dy.ident.as_str()) {
        true
    } else if str_eq(dx.ident.as_str(), dy.ident.as_str()) {
        x.index < y.index
    } else {
        false
    }
}

/// Reorders live identities by declared name, identity as the
/// tiebreak, by insertion.
fn order_ids(arena: &Arena, v: Vec<Id>) -> (r: Vec<Id>)
    requires
        forall|t: int|
            0 <= t < v@.len() ==> (#[trigger] v@[t]).index < arena@.len() && arena@[v@[
                t].index as int].alive,
    ensures
        ids_of(r@) == by_name(arena@, ids_of(v@)),
{
    let ghost a = arena@;
    let mut out: Vec<Id> = Vec::new();
    let mut k: usize = 0;
    proof {
        assert(ids_of(v@).take(0) =~= Seq::<int>::empty());
        assert(ids_of(out@) =~= by_name(a, ids_of(v@).take(0)));
    }
    while k < v.len()
        invariant
            a == arena@,
            k <= v@.len(),
            forall|t: int|
                0 <= t < v@.len() ==> (#[trigger] v@[t]).index < a.len() && a[v@[
                    t].index as int].alive,
            forall|t: int|
                0 <= t < out@.len() ==> (#[trigger] out@[t]).index < a.len() && a[out@[
                    t].index as int].alive,
            ids_of(out@) == by_name(a, ids_of(v@).take(k as int)),
        decreases v@.len() - k,
    {
        let x = v[k];
        let ghost s_old = ids_of(out@);
        let mut p: usize = 0;
        while p < out.len() && !key_lt_exec(arena, x, out[p])
            invariant
                a == arena@,
                p <= out@.len(),
                x.index < a.len(),
                a[x.index as int].alive,
                forall|t: int|
                    0 <= t < out@.len() ==> (#[trigger] out@[t]).index < a.len() && a[out@[
                        t].index as int].alive,
                forall|m: int|
                    0 <= m < p ==> !key_lt(a, x.index as int, (#[trigger] out@[m]).index as int),
            decreases out@.len() - p,
        {
            p = p + 1;
        }
        proof {
            assert forall|m: int|
                0 <= m < p implies !key_lt(a, x.index as int, #[trigger] s_old[m]) by {
                assert(s_old[m] == out@[m].index as int);
            }
            if (p as int) < s_old.len() {
                assert(s_old[p as int] == out@[p as int].index as int);
            }
            lemma_sorted_insert_split(a, s_old, x.index as int, p as int);
        }
        out.insert(p, x);
        proof {
            assert(ids_of(out@) =~= s_old.insert(p as int, x.index as int));
            assert(ids_of(v@).take(k + 1).drop_last() =~= ids_of(v@).take(k as int));
            assert(ids_of(v@).take(k + 1).last() == v@[k as int].index as int);
            assert(ids_of(out@) == by_name(a, ids_of(v@).take(k + 1)));
        }
        k = k + 1;
    }
    proof {
        assert(ids_of(v@).take(v@.len() as int) =~= ids_of(v@));
    }
    out
}

/// The reachable entries whose base names do not all resolve.
pub open spec fn bad_name_set(a: Seq<EntryView>, i: int) -> Set<int> {
    Set::new(|j: int| rreach(a, i, j) && base_ids(a, j) is None)
}

/// The reported name for an unresolvable base: the first unresolved
/// name, in declared order, of the lowest-numbered reachable entry
/// whose bases do not resolve.
pub open spec fn unknown_name_of(a: Seq<EntryView>, i: int) -> Seq<char> {
    let bad = asc_indices(a.len(), bad_name_set(a, i));
    first_unresolved(a, a[bad[0]].decl.extends)
}

/// The reachable entries that lie on an inheritance cycle.
pub open spec fn cyclic_set(a: Seq<EntryView>, i: int) -> Set<int> {
    Set::new(|j: int| rreach(a, i, j) && is_ancestor(a, j, j))
}

/// The set of declared direct bases of entry `i`.
pub open spec fn direct_base_set(a: Seq<EntryView>, i: int) -> Set<int> {
    Set::new(|x: int| base_ids(a, i) is Some && base_ids(a, i)->Some_0.contains(x))
}

/// The union of the reflexive ancestor closures of the operands.
pub open spec fn ops_union(a: Seq<EntryView>, ops: Seq<int>) -> Set<int>
    decreases ops.len(),
{
    if ops.len() == 0 {
        Set::empty()
    } else {
        ops_union(a, ops.drop_last()).union(rclosure(a, ops.last()))
    }
}

/// The intersection of the reflexive ancestor closures of the
/// operands; empty when there are none.
pub open spec fn ops_inter(a: Seq<EntryView>, ops: Seq<int>) -> Set<int>
    decreases ops.len(),
{
    if ops.len() == 0 {
        Set::empty()
    } else if ops.len() == 1 {
        rclosure(a, ops[0])
    } else {
        ops_inter(a, ops.drop_last()).intersect(rclosure(a, ops.last()))
    }
}

/// A resolved node: the closure-complete picture of one declaration.
///
/// The identity lists are ordered sets, sorted by declared name with
/// the identity as tiebreak — except `linearization`, which is the
/// C3-style override order. The composite sets are plain set algebra
/// over the reflexive ancestor closures of the declared operands: each
/// operand contributes itself together with its ancestors, so
/// `union_of` is the union and `intersection_of` the intersection of
/// those closures.
#[derive(Debug, Clone, PartialEq, Eq)]
pub struct ResolvedNode {
    pub id: Id,
    pub direct_bases: Vec<Id>,
    pub ancestors: Vec<Id>,
    pub linearization: Vec<Id>,
    pub union_of: Vec<Id>,
    pub intersection_of: Vec<Id>,
}

/// The mathematical image of a resolved node.
pub struct ResolvedNodeV {
    pub id: int,
    pub direct_bases: Seq<int>,
    pub ancestors: Seq<int>,
    pub linearization: Seq<int>,
    pub union_of: Seq<int>,
    pub intersection_of: Seq<int>,
}

impl View for ResolvedNode {
    type V = ResolvedNodeV;

    open spec fn view(&self) -> ResolvedNodeV {
        ResolvedNodeV {
            id: self.id.index as int,
            direct_bases: ids_of(self.direct_bases@),
            ancestors: ids_of(self.ancestors@),
            linearization: ids_of(self.linearization@),
            union_of: ids_of(self.union_of@),
            intersection_of: ids_of(self.intersection_of@),
        }
    }
}

/// Why one node failed to resolve. Structural errors are per node; a
/// failed node never aborts the rest of the batch.
#[derive(Debug, Clone, PartialEq, Eq)]
pub enum ResolutionError {
    /// A declared base or operand name that never resolves.
    UnknownBaseReference { ident: String },
    /// The reachable entries that lie on an inheritance cycle.
    CycleError { members: Vec<Id> },
    /// The candidate heads that blocked each other when the merge got
    /// stuck: the identities that could each come next in the
    /// linearization but are vetoed by another candidate list. These
    /// are the conflicting members themselves, not the direct bases
    /// that contributed them.
    AmbiguousInheritanceError { conflicting_bases: Vec<Id> },
}

/// The mathematical image of a resolution error.
pub enum ResolutionErrorV {
    UnknownBaseReference { ident: Seq<char> },
    CycleError { members: Seq<int> },
    AmbiguousInheritanceError { conflicting_bases: Seq<int> },
}

impl View for ResolutionError {
    type V = ResolutionErrorV;

    open spec fn view(&self) -> ResolutionErrorV {
        match self {
            ResolutionError::UnknownBaseReference { ident } => {
                ResolutionErrorV::UnknownBaseReference { ident: ident@ }
            },
            ResolutionError::CycleError { members } => {
                ResolutionErrorV::CycleError { members: ids_of(members@) }
            },
            ResolutionError::AmbiguousInheritanceError { conflicting_bases } => {
                ResolutionErrorV::AmbiguousInheritanceError {
                    conflicting_bases: ids_of(conflicting_bases@),
                }
            },
        }
    }
}

/// What resolving live entry `i` yields: the first applicable
/// structural error, or the closure-complete node.
pub open spec fn resolve_node_spec(a: Seq<EntryView>, i: int) -> Result<
    ResolvedNodeV,
    ResolutionErrorV,
> {
    if !names_ok(a, i) {
        Err(ResolutionErrorV::UnknownBaseReference { ident: unknown_name_of(a, i) })
    } else if !all_names_resolve(a, a[i].decl.union_operands) {
        Err(
            ResolutionErrorV::UnknownBaseReference {
                ident: first_unresolved(a, a[i].decl.union_operands),
            },
        )
    } else if !all_names_resolve(a, a[i].decl.intersection_operands) {
        Err(
            ResolutionErrorV::UnknownBaseReference {
                ident: first_unresolved(a, a[i].decl.intersection_operands),
            },
        )
    } else if !acyclic_at(a, i) {
        Err(ResolutionErrorV::CycleError { members: asc_indices(a.len(), cyclic_set(a, i)) })
    } else {
        match lin_spec(a, i, a.len() + 1) {
            Some(MergeOut::Stuck(h)) => Err(
                ResolutionErrorV::AmbiguousInheritanceError { conflicting_bases: h },
            ),
            Some(MergeOut::Done(l)) => Ok(
                ResolvedNodeV {
                    id: i,
                    direct_bases: by_name(a, asc_indices(a.len(), direct_base_set(a, i))),
                    ancestors: by_name(a, asc_indices(a.len(), ancestors_set(a, i))),
                    linearization: l,
                    union_of: by_name(
                        a,
                        asc_indices(a.len(), ops_union(a, resolved_ids(a, a[i].decl.union_operands))),
                    ),
                    intersection_of: by_name(
                        a,
                        asc_indices(
                            a.len(),
                            ops_inter(a, resolved_ids(a, a[i].decl.intersection_operands)),
                        ),
                    ),
                },
            ),
            // unreachable once the gates above hold: the fuel exceeds
            // the reflexive closure of any entry
            None => Err(
                ResolutionErrorV::AmbiguousInheritanceError {
                    conflicting_bases: Seq::empty(),
                },
            ),
        }
    }
}

/// Resolves the given name list against the snapshot, in order,
/// reporting the first name that does not resolve.
fn resolve_names_exec(arena: &Arena, names: &Vec<String>) -> (r: Result<Vec<Id>, String>)
    ensures
        match r {
            Ok(v) => all_names_resolve(arena@, names.deep_view()) && ids_of(v@) == resolved_ids(
                arena@,
                names.deep_view(),
            ),
            Err(name) => !all_names_resolve(arena@, names.deep_view()) && name@
                == first_unresolved(arena@, names.deep_view()),
        },
{
    let ghost a = arena@;
    let ghost ns = names.deep_view();
    let mut out: Vec<Id> = Vec::new();
    let mut k: usize = 0;
    while k < names.len()
        invariant
            a == arena@,
            ns == names.deep_view(),
            k <= ns.len(),
            ns.len() == names@.len(),
            out@.len() == k,
            forall|m: int| 0 <= m < k ==> lookup_spec(a, #[trigger] ns[m]) is Some,
            forall|m: int|
                0 <= m < k ==> (#[trigger] out@[m]).index == lookup_spec(a, ns[m])->Some_0.index,
        decreases names@.len() - k,
    {
        proof {
            assert(ns[k as int] == names@[k as int]@);
        }
        match arena.lookup(names[k].as_str()) {
            Some(id) => {
                out.push(id);
                k = k + 1;
            },
            None => {
                proof {
                    lemma_first_unresolved_at(a, ns, k as int);
                }
                return Err(names[k].clone());
            },
        }
    }
    proof {
        assert(ids_of(out@) =~= resolved_ids(a, ns));
    }
    Ok(out)
}

/// Whether live entry `j` lies on an inheritance cycle.
fn on_cycle(arena: &Arena, j: Id) -> (r: bool)
    requires
        j.index < arena@.len(),
        arena@[j.index as int].alive,
    ensures
        r == is_ancestor(arena@, j.index as int, j.index as int),
{
    let ghost a = arena@;
    let ghost ji = j.index as int;
    let total = arena.len();
    proof {
        assert(a.len() == total as nat);
        lemma_cycle_char(a, ji);
    }
    match resolve_base_ids(arena, j) {
        Err(_) => {
            proof {
                assert(forall|b: int| !edge(a, ji, b));
            }
            false
        },
        Ok(bs) => {
            let mut t: usize = 0;
            while t < bs.len()
                invariant
                    a == arena@,
                    a.len() <= usize::MAX,
                    ji == j.index as int,
                    j.index < a.len(),
                    a[ji].alive,
                    base_ids(a, ji) == Some(ids_of(bs@)),
                    t <= bs@.len(),
                    forall|m: int|
                        0 <= m < t ==> !rreach(a, (#[trigger] bs@[m]).index as int, ji),
                decreases bs@.len() - t,
            {
                let b = bs[t];
                proof {
                    lemma_base_ids_live(a, ji);
                    assert(live(a, base_ids(a, ji)->Some_0[t as int]));
                    assert(ids_of(bs@)[t as int] == b.index as int);
                }
                let c = closure_from(arena, b);
                proof {
                    lemma_asc_indices_props(a.len(), rclosure(a, b.index as int));
                }
                if contains_id(&c, j) {
                    proof {
                        let w = choose|w: int| 0 <= w < c@.len() && c@[w].index == ji;
                        assert(ids_of(c@)[w] == ji);
                        assert(ids_of(c@).contains(ji));
                        assert(rclosure(a, b.index as int).contains(ji));
                        assert(edge(a, ji, b.index as int));
                        lemma_cycle_char(a, ji);
                    }
                    return true;
                }
                proof {
                    if rreach(a, b.index as int, ji) {
                        assert(rclosure(a, b.index as int).contains(ji));
                        assert(0 <= ji < a.len());
                        assert(ids_of(c@).contains(ji));
                        let w = choose|w: int|
                            0 <= w < ids_of(c@).len() && ids_of(c@)[w] == ji;
                        assert(ids_of(c@)[w] == c@[w].index as int);
                        assert(c@[w].index == ji);
                        assert(ids_contain(c@, ji));
                    }
                }
                t = t + 1;
            }
            proof {
                if is_ancestor(a, ji, ji) {
                    let b = choose|b: int| edge(a, ji, b) && rreach(a, b, ji);
                    let w = choose|w: int|
                        0 <= w < ids_of(bs@).len() && ids_of(bs@)[w] == b;
                    assert(bs@[w].index as int == b);
                    assert(!rreach(a, bs@[w].index as int, ji));
                }
            }
            false
        },
    }
}

/// Resolves one live entry: its direct bases, ancestor closure,
/// linearization and composite sets, or the structural error that
/// prevents them.
pub fn resolve_node(arena: &Arena, id: Id) -> (r: Result<ResolvedNode, ResolutionError>)
    requires
        id.index < arena@.len(),
        arena@[id.index as int].alive,
        arena@.len() < usize::MAX,
    ensures
        match r {
            Ok(node) => resolve_node_spec(arena@, id.index as int) == Ok::<
                ResolvedNodeV,
                ResolutionErrorV,
            >(node@),
            Err(e) => resolve_node_spec(arena@, id.index as int) == Err::<
                ResolvedNodeV,
                ResolutionErrorV,
            >(e@),
        },
{
    let ghost a = arena@;
    let ghost i = id.index as int;
    let n = arena.len();
    let closure = closure_from(arena, id);
    proof {
        lemma_asc_indices_props(a.len(), rclosure(a, i));
        lemma_asc_indices_props(a.len(), bad_name_set(a, i));
    }
    // Gate one: every reachable entry must have resolvable base names.
    let mut idx: usize = 0;
    while idx < n
        invariant
            a == arena@,
            i == id.index as int,
            id.index < a.len(),
            a[i].alive,
            n == a.len(),
            idx <= n,
            ids_of(closure@) == asc_indices(a.len(), rclosure(a, i)),
            forall|j: int| 0 <= j < idx ==> !bad_name_set(a, i).contains(j),
        decreases n - idx,
    {
        proof {
            lemma_asc_indices_props(a.len(), rclosure(a, i));
        }
        if contains_id(&closure, Id { index: idx }) {
            proof {
                let w = choose|w: int| 0 <= w < closure@.len() && closure@[w].index == idx;
                assert(ids_of(closure@)[w] == idx as int);
                assert(ids_of(closure@).contains(idx as int));
                assert(rclosure(a, i).contains(idx as int));
                if idx as int != i {
                    lemma_ancestor_live(a, i, idx as int);
                }
            }
            match resolve_base_ids(arena, Id { index: idx }) {
                Ok(_) => {
                    proof {
                        assert(!bad_name_set(a, i).contains(idx as int));
                    }
                },
                Err(name) => {
                    proof {
                        lemma_asc_indices_props(a.len(), bad_name_set(a, i));
                        let bad = asc_indices(a.len(), bad_name_set(a, i));
                        assert(bad_name_set(a, i).contains(idx as int));
                        assert(0 <= idx < a.len());
                        assert(bad.contains(idx as int));
                        let w = choose|w: int| 0 <= w < bad.len() && bad[w] == idx as int;
                        assert(bad[0] == bad[0] && 0 < bad.len());
                        assert(bad.contains(bad[0]));
                        assert(bad_name_set(a, i).contains(bad[0]));
                        if w > 0 {
                            assert(bad[0] < bad[w]);
                        }
                        assert(bad[0] <= idx as int);
                        if bad[0] < idx as int {
                            assert(!bad_name_set(a, i).contains(bad[0]));
                        }
                        assert(bad[0] == idx as int);
                        assert(rreach(a, i, idx as int) && base_ids(a, idx as int) is None);
                        assert(!names_ok(a, i));
                        assert(name@ == unknown_name_of(a, i));
                    }
                    return Err(ResolutionError::UnknownBaseReference { ident: name });
                },
            }
        } else {
            proof {
                if bad_name_set(a, i).contains(idx as int) {
                    assert(rclosure(a, i).contains(idx as int));
                    assert(ids_of(closure@).contains(idx as int));
                    let w = choose|w: int|
                        0 <= w < ids_of(closure@).len() && ids_of(closure@)[w] == idx as int;
                    assert(closure@[w].index == idx);
                    assert(ids_contain(closure@, idx as int));
                }
            }
        }
        idx = idx + 1;
    }
    proof {
        assert forall|j: int| #[trigger] rreach(a, i, j) implies base_ids(a, j) is Some by {
            if j == i {
            } else {
                lemma_ancestor_live(a, i, j);
            }
            assert(0 <= j < n);
            assert(!bad_name_set(a, i).contains(j));
        }
        assert(names_ok(a, i));
    }
    // Gate two: the composite operand names must resolve.
    let decl = match arena.get(id) {
        Some(d) => d,
        None => unreached(),
    };
    let union_ops = match resolve_names_exec(arena, &decl.union_operands) {
        Ok(v) => v,
        Err(name) => {
            return Err(ResolutionError::UnknownBaseReference { ident: name });
        },
    };
    let inter_ops = match resolve_names_exec(arena, &decl.intersection_operands) {
        Ok(v) => v,
        Err(name) => {
            return Err(ResolutionError::UnknownBaseReference { ident: name });
        },
    };
    proof {
        let unames = a[i].decl.union_operands;
        let xnames = a[i].decl.intersection_operands;
        assert(unames == decl.union_operands.deep_view());
        assert(xnames == decl.intersection_operands.deep_view());
        assert forall|t: int| 0 <= t < union_ops@.len() implies live(
            a,
            (#[trigger] union_ops@[t]).index as int,
        ) by {
            assert(ids_of(union_ops@)[t] == union_ops@[t].index as int);
            assert(resolved_ids(a, unames)[t] == lookup_spec(a, unames[t])->Some_0.index as int);
            lemma_lookup_live(a, unames[t]);
        }
        assert forall|t: int| 0 <= t < inter_ops@.len() implies live(
            a,
            (#[trigger] inter_ops@[t]).index as int,
        ) by {
            assert(ids_of(inter_ops@)[t] == inter_ops@[t].index as int);
            assert(resolved_ids(a, xnames)[t] == lookup_spec(a, xnames[t])->Some_0.index as int);
            lemma_lookup_live(a, xnames[t]);
        }
    }
    // Gate three: no reachable entry may lie on a cycle.
    let mut members: Vec<Id> = Vec::new();
    let mut idx: usize = 0;
    proof {
        assert(ids_of(members@) =~= asc_indices(0, cyclic_set(a, i)));
    }
    while idx < n
        invariant
            a == arena@,
            i == id.index as int,
            id.index < a.len(),
            a[i].alive,
            n == a.len(),
            idx <= n,
            ids_of(closure@) == asc_indices(a.len(), rclosure(a, i)),
            ids_of(members@) == asc_indices(idx as nat, cyclic_set(a, i)),
        decreases n - idx,
    {
        proof {
            lemma_asc_indices_props(a.len(), rclosure(a, i));
        }
        let ghost before = members@;
        if contains_id(&closure, Id { index: idx }) {
            proof {
                let w = choose|w: int| 0 <= w < closure@.len() && closure@[w].index == idx;
                assert(ids_of(closure@)[w] == idx as int);
                assert(ids_of(closure@).contains(idx as int));
                assert(rclosure(a, i).contains(idx as int));
                if idx as int != i {
                    lemma_ancestor_live(a, i, idx as int);
                }
            }
            if on_cycle(arena, Id { index: idx }) {
                members.push(Id { index: idx });
                proof {
                    assert(cyclic_set(a, i).contains(idx as int));
                    assert(ids_of(members@) =~= ids_of(before).push(idx as int));
                }
            } else {
                proof {
                    assert(!cyclic_set(a, i).contains(idx as int));
                }
            }
        } else {
            proof {
                if cyclic_set(a, i).contains(idx as int) {
                    assert(rclosure(a, i).contains(idx as int));
                    assert(ids_of(closure@).contains(idx as int));
                    let w = choose|w: int|
                        0 <= w < ids_of(closure@).len() && ids_of(closure@)[w] == idx as int;
                    assert(closure@[w].index == idx);
                    assert(ids_contain(closure@, idx as int));
                }
            }
        }
        idx = idx + 1;
    }
    if members.len() > 0 {
        proof {
            lemma_asc_indices_props(a.len(), cyclic_set(a, i));
            let j = ids_of(members@)[0];
            assert(asc_indices(a.len(), cyclic_set(a, i)).contains(j));
            assert(cyclic_set(a, i).contains(j));
            assert(rreach(a, i, j) && is_ancestor(a, j, j));
            assert(!acyclic_at(a, i));
        }
        return Err(ResolutionError::CycleError { members });
    }
    proof {
        assert forall|j: int| #[trigger] rreach(a, i, j) implies !is_ancestor(a, j, j) by {
            if j == i {
            } else {
                lemma_ancestor_live(a, i, j);
            }
            if is_ancestor(a, j, j) {
                assert(cyclic_set(a, i).contains(j));
                lemma_asc_indices_props(a.len(), cyclic_set(a, i));
                assert(asc_indices(a.len(), cyclic_set(a, i)).contains(j));
                assert(ids_of(members@).len() == 0);
            }
        }
        assert(acyclic_at(a, i));
    }
    // The gates hold: linearize with ample fuel.
    proof {
        lemma_rclosure_finite(a, i);
        lemma_lin_defined(a, i, (n + 1) as nat);
    }
    proof {
        assert(lin_spec(a, i, (n + 1) as nat) is Some);
    }
    match lin_exec(arena, id, n + 1) {
        LinOutcome::NoFuel => {
            proof {
                assert(lin_spec(a, i, (n + 1) as nat) is None);
                assert(false);
            }
            unreached()
        },
        LinOutcome::Stuck(h) => Err(
            ResolutionError::AmbiguousInheritanceError { conflicting_bases: h },
        ),
        LinOutcome::Done(l) => {
            // Direct bases as an ascending set.
            let raw = match resolve_base_ids(arena, id) {
                Ok(v) => v,
                Err(_) => {
                    proof {
                        assert(rreach(a, i, i));
                        assert(base_ids(a, i) is Some);
                        assert(false);
                    }
                    unreached()
                },
            };
            let mut direct: Vec<Id> = Vec::new();
            let mut idx: usize = 0;
            proof {
                assert(ids_of(direct@) =~= asc_indices(0, direct_base_set(a, i)));
            }
            while idx < n
                invariant
                    a == arena@,
                    i == id.index as int,
                    n == a.len(),
                    base_ids(a, i) == Some(ids_of(raw@)),
                    idx <= n,
                    ids_of(direct@) == asc_indices(idx as nat, direct_base_set(a, i)),
                decreases n - idx,
            {
                let ghost before = direct@;
                if contains_id(&raw, Id { index: idx }) {
                    direct.push(Id { index: idx });
                    proof {
                        let w = choose|w: int|
                            0 <= w < raw@.len() && raw@[w].index == idx;
                        assert(ids_of(raw@)[w] == idx as int);
                        assert(ids_of(raw@).contains(idx as int));
                        assert(direct_base_set(a, i).contains(idx as int));
                        assert(ids_of(direct@) =~= ids_of(before).push(idx as int));
                    }
                } else {
                    proof {
                        if direct_base_set(a, i).contains(idx as int) {
                            let w = choose|w: int|
                                0 <= w < ids_of(raw@).len() && ids_of(raw@)[w] == idx as int;
                            assert(raw@[w].index == idx);
                            assert(ids_contain(raw@, idx as int));
                        }
                    }
                }
                idx = idx + 1;
            }
            // Ancestors: the reflexive closure without the node itself.
            let mut anc: Vec<Id> = Vec::new();
            let mut idx: usize = 0;
            proof {
                assert(ids_of(anc@) =~= asc_indices(0, ancestors_set(a, i)));
            }
            while idx < n
                invariant
                    a == arena@,
                    i == id.index as int,
                    id.index < a.len(),
                    a[i].alive,
                    n == a.len(),
                    acyclic_at(a, i),
                    idx <= n,
                    ids_of(closure@) == asc_indices(a.len(), rclosure(a, i)),
                    ids_of(anc@) == asc_indices(idx as nat, ancestors_set(a, i)),
                decreases n - idx,
            {
                let ghost before = anc@;
                proof {
                    lemma_asc_indices_props(a.len(), rclosure(a, i));
                    assert(rreach(a, i, i));
                    assert(!is_ancestor(a, i, i));
                }
                if idx != id.index && contains_id(&closure, Id { index: idx }) {
                    anc.push(Id { index: idx });
                    proof {
                        let w = choose|w: int|
                            0 <= w < closure@.len() && closure@[w].index == idx;
                        assert(ids_of(closure@)[w] == idx as int);
                        assert(ids_of(closure@).contains(idx as int));
                        assert(rclosure(a, i).contains(idx as int));
                        assert(is_ancestor(a, i, idx as int));
                        assert(ancestors_set(a, i).contains(idx as int));
                        assert(ids_of(anc@) =~= ids_of(before).push(idx as int));
                    }
                } else {
                    proof {
                        if ancestors_set(a, i).contains(idx as int) {
                            assert(rclosure(a, i).contains(idx as int));
                            assert(ids_of(closure@).contains(idx as int));
                            let w = choose|w: int|
                                0 <= w < ids_of(closure@).len() && ids_of(closure@)[w]
                                    == idx as int;
                            assert(closure@[w].index == idx);
                            assert(ids_contain(closure@, idx as int));
                            assert(idx as int != i);
                        }
                    }
                }
                idx = idx + 1;
            }
            // Composite sets over the operand closures.
            let union_of = union_closures(arena, &union_ops);
            let intersection_of = inter_closures(arena, &inter_ops);
            // Order each set by declared name, identity as tiebreak.
            proof {
                lemma_asc_indices_props(a.len(), direct_base_set(a, i));
                lemma_base_ids_live(a, i);
                assert forall|t: int| 0 <= t < direct@.len() implies (#[trigger] direct@[t]).index < a.len() && a[direct@[t].index as int].alive by {
                    assert(ids_of(direct@)[t] == direct@[t].index as int);
                    assert(ids_of(direct@).contains(ids_of(direct@)[t]));
                    assert(direct_base_set(a, i).contains(direct@[t].index as int));
                    let w = choose|w: int|
                        0 <= w < base_ids(a, i)->Some_0.len() && base_ids(a, i)->Some_0[w]
                            == direct@[t].index as int;
                    assert(live(a, base_ids(a, i)->Some_0[w]));
                }
                lemma_asc_indices_props(a.len(), ancestors_set(a, i));
                assert forall|t: int| 0 <= t < anc@.len() implies (#[trigger] anc@[t]).index
                    < a.len() && a[anc@[t].index as int].alive by {
                    assert(ids_of(anc@)[t] == anc@[t].index as int);
                    assert(ids_of(anc@).contains(ids_of(anc@)[t]));
                    assert(ancestors_set(a, i).contains(anc@[t].index as int));
                    lemma_ancestor_live(a, i, anc@[t].index as int);
                }
                lemma_asc_indices_props(
                    a.len(),
                    ops_union(a, resolved_ids(a, a[i].decl.union_operands)),
                );
                lemma_ops_union_live(a, ids_of(union_ops@));
                assert forall|t: int| 0 <= t < union_of@.len() implies (#[trigger] union_of@[t]).index < a.len() && a[union_of@[t].index as int].alive by {
                    assert(ids_of(union_of@)[t] == union_of@[t].index as int);
                    assert(ids_of(union_of@).contains(ids_of(union_of@)[t]));
                    assert(ops_union(a, ids_of(union_ops@)).contains(union_of@[t].index as int));
                }
                lemma_asc_indices_props(
                    a.len(),
                    ops_inter(a, resolved_ids(a, a[i].decl.intersection_operands)),
                );
                lemma_ops_inter_live(a, ids_of(inter_ops@));
                assert forall|t: int| 0 <= t < intersection_of@.len() implies (
                #[trigger] intersection_of@[t]).index < a.len() && a[intersection_of@[t].index as int].alive by {
                    assert(ids_of(intersection_of@)[t] == intersection_of@[t].index as int);
                    assert(ids_of(intersection_of@).contains(ids_of(intersection_of@)[t]));
                    assert(ops_inter(a, ids_of(inter_ops@)).contains(intersection_of@[t].index as int));
                }
            }
            let direct = order_ids(arena, direct);
            let anc = order_ids(arena, anc);
            let union_of = order_ids(arena, union_of);
            let intersection_of = order_ids(arena, intersection_of);
            let node = ResolvedNode {
                id,
                direct_bases: direct,
                ancestors: anc,
                linearization: l,
                union_of,
                intersection_of,
            };
            proof {
                assert(a[i].decl.union_operands == decl.union_operands.deep_view());
                assert(a[i].decl.intersection_operands == decl.intersection_operands.deep_view());
                assert(ids_of(union_ops@) == resolved_ids(a, a[i].decl.union_operands));
                assert(ids_of(inter_ops@) == resolved_ids(a, a[i].decl.intersection_operands));
            }
            Ok(node)
        },
    }
}

/// The union of the operand closures, as an ascending identity list.
fn union_closures(arena: &Arena, ops: &Vec<Id>) -> (r: Vec<Id>)
    requires
        forall|t: int|
            0 <= t < ops@.len() ==> live(arena@, (#[trigger] ops@[t]).index as int),
    ensures
        ids_of(r@) == asc_indices(arena@.len(), ops_union(arena@, ids_of(ops@))),
{
    let ghost a = arena@;
    let n = arena.len();
    let mut marked: Vec<bool> = Vec::new();
    while marked.len() < n
        invariant
            marked@.len() <= n,
            forall|j: int| 0 <= j < marked@.len() ==> !marked@[j],
        decreases n - marked@.len(),
    {
        marked.push(false);
    }
    let mut k: usize = 0;
    proof {
        assert(ids_of(ops@).take(0) =~= Seq::<int>::empty());
    }
    while k < ops.len()
        invariant
            a == arena@,
            n == a.len(),
            marked@.len() == n,
            forall|t: int|
                0 <= t < ops@.len() ==> live(a, (#[trigger] ops@[t]).index as int),
            k <= ops@.len(),
            forall|j: int|
                0 <= j < n ==> ((#[trigger] marked@[j]) <==> ops_union(
                    a,
                    ids_of(ops@).take(k as int),
                ).contains(j)),
        decreases ops@.len() - k,
    {
        let ghost pre = ids_of(ops@).take(k as int);
        let op = ops[k];
        let c = closure_from(arena, op);
        proof {
            lemma_asc_indices_props(a.len(), rclosure(a, op.index as int));
            assert(ids_of(ops@).take(k + 1).drop_last() =~= pre);
            assert(ids_of(ops@).take(k + 1).last() == op.index as int);
        }
        proof {
            assert forall|w: int| 0 <= w < c@.len() implies 0 <= (#[trigger] c@[w]).index < n
                && rclosure(a, op.index as int).contains(c@[w].index as int) by {
                assert(ids_of(c@)[w] == c@[w].index as int);
                assert(ids_of(c@).contains(ids_of(c@)[w]));
            }
        }
        let mut t: usize = 0;
        while t < c.len()
            invariant
                a == arena@,
                n == a.len(),
                marked@.len() == n,
                ids_of(c@) == asc_indices(a.len(), rclosure(a, op.index as int)),
                forall|w: int|
                    0 <= w < c@.len() ==> 0 <= (#[trigger] c@[w]).index < n && rclosure(
                        a,
                        op.index as int,
                    ).contains(c@[w].index as int),
                t <= c@.len(),
                forall|j: int|
                    0 <= j < n ==> ((#[trigger] marked@[j]) <==> (ops_union(a, pre).contains(j)
                        || exists|m: int| 0 <= m < t && (#[trigger] c@[m]).index == j)),
            decreases c@.len() - t,
        {
            let b = c[t];
            if !marked[b.index] {
                marked[b.index] = true;
            }
            proof {
                assert(marked@[b.index as int]);
                assert(c@[t as int].index == b.index);
            }
            t = t + 1;
        }
        proof {
            lemma_asc_indices_props(a.len(), rclosure(a, op.index as int));
            assert forall|j: int| 0 <= j < n implies ((#[trigger] marked@[j]) <==> ops_union(
                a,
                ids_of(ops@).take(k + 1),
            ).contains(j)) by {
                let un = ops_union(a, ids_of(ops@).take(k + 1));
                assert(un =~= ops_union(a, pre).union(rclosure(a, op.index as int)));
                if marked@[j] {
                    if !ops_union(a, pre).contains(j) {
                        let m = choose|m: int| 0 <= m < c@.len() && (#[trigger] c@[m]).index == j;
                        assert(rclosure(a, op.index as int).contains(j));
                    }
                } else {
                    if rclosure(a, op.index as int).contains(j) {
                        assert(ids_of(c@).contains(j));
                        let m = choose|m: int|
                            0 <= m < ids_of(c@).len() && ids_of(c@)[m] == j;
                        assert(c@[m].index == j);
                    }
                }
            }
        }
        k = k + 1;
    }
    proof {
        assert(ids_of(ops@).take(ops@.len() as int) =~= ids_of(ops@));
    }
    let mut out: Vec<Id> = Vec::new();
    let mut idx: usize = 0;
    let ghost us = ops_union(a, ids_of(ops@));
    proof {
        assert(ids_of(out@) =~= asc_indices(0, us));
    }
    while idx < n
        invariant
            a == arena@,
            n == a.len(),
            marked@.len() == n,
            us == ops_union(a, ids_of(ops@)),
            forall|j: int| 0 <= j < n ==> ((#[trigger] marked@[j]) <==> us.contains(j)),
            idx <= n,
            ids_of(out@) == asc_indices(idx as nat, us),
        decreases n - idx,
    {
        let ghost before = out@;
        if marked[idx] {
            out.push(Id { index: idx });
            proof {
                assert(ids_of(out@) =~= ids_of(before).push(idx as int));
            }
        }
        idx = idx + 1;
    }
    out
}

/// The intersection of the operand closures, as an ascending identity
/// list; empty when there are no operands.
fn inter_closures(arena: &Arena, ops: &Vec<Id>) -> (r: Vec<Id>)
    requires
        forall|t: int|
            0 <= t < ops@.len() ==> live(arena@, (#[trigger] ops@[t]).index as int),
    ensures
        ids_of(r@) == asc_indices(arena@.len(), ops_inter(arena@, ids_of(ops@))),
{
    let ghost a = arena@;
    let n = arena.len();
    let mut acc: Vec<bool> = Vec::new();
    while acc.len() < n
        invariant
            acc@.len() <= n,
            forall|j: int| 0 <= j < acc@.len() ==> !acc@[j],
        decreases n - acc@.len(),
    {
        acc.push(false);
    }
    if ops.len() == 0 {
        proof {
            assert(ids_of(ops@).len() == 0);
            assert(ops_inter(a, ids_of(ops@)) =~= Set::<int>::empty());
            lemma_asc_indices_props(a.len(), ops_inter(a, ids_of(ops@)));
            assert(asc_indices(a.len(), ops_inter(a, ids_of(ops@))).len() == 0) by {
                if asc_indices(a.len(), ops_inter(a, ids_of(ops@))).len() > 0 {
                    let x = asc_indices(a.len(), ops_inter(a, ids_of(ops@)))[0];
                    assert(asc_indices(a.len(), ops_inter(a, ids_of(ops@))).contains(x));
                }
            }
            assert(ids_of(Seq::<Id>::empty()) =~= asc_indices(
                a.len(),
                ops_inter(a, ids_of(ops@)),
            ));
        }
        let out: Vec<Id> = Vec::new();
        proof {
            assert(out@ =~= Seq::<Id>::empty());
        }
        return out;
    }
    // Seed with the first operand's closure.
    let c0 = closure_from(arena, ops[0]);
    proof {
        lemma_asc_indices_props(a.len(), rclosure(a, ops@[0].index as int));
    }
    proof {
        assert forall|w: int| 0 <= w < c0@.len() implies 0 <= (#[trigger] c0@[w]).index < n
            && rclosure(a, ops@[0].index as int).contains(c0@[w].index as int) by {
            assert(ids_of(c0@)[w] == c0@[w].index as int);
            assert(ids_of(c0@).contains(ids_of(c0@)[w]));
        }
    }
    let mut t: usize = 0;
    while t < c0.len()
        invariant
            a == arena@,
            n == a.len(),
            acc@.len() == n,
            ops@.len() > 0,
            ids_of(c0@) == asc_indices(a.len(), rclosure(a, ops@[0].index as int)),
            forall|w: int|
                0 <= w < c0@.len() ==> 0 <= (#[trigger] c0@[w]).index < n && rclosure(
                    a,
                    ops@[0].index as int,
                ).contains(c0@[w].index as int),
            t <= c0@.len(),
            forall|j: int|
                0 <= j < n ==> ((#[trigger] acc@[j]) <==> exists|m: int|
                    0 <= m < t && (#[trigger] c0@[m]).index == j),
        decreases c0@.len() - t,
    {
        let b = c0[t];
        if !acc[b.index] {
            acc[b.index] = true;
        }
        proof {
            assert(acc@[b.index as int]);
            assert(c0@[t as int].index == b.index);
        }
        t = t + 1;
    }
    proof {
        lemma_asc_indices_props(a.len(), rclosure(a, ops@[0].index as int));
        assert(ids_of(ops@).take(1).len() == 1);
        assert(ids_of(ops@).take(1)[0] == ops@[0].index as int);
        assert forall|j: int| 0 <= j < n implies ((#[trigger] acc@[j]) <==> ops_inter(
            a,
            ids_of(ops@).take(1),
        ).contains(j)) by {
            assert(ops_inter(a, ids_of(ops@).take(1)) == rclosure(
                a,
                ids_of(ops@).take(1)[0],
            ));
            if acc@[j] {
                let m = choose|m: int| 0 <= m < c0@.len() && (#[trigger] c0@[m]).index == j;
                assert(rclosure(a, ops@[0].index as int).contains(j));
            } else {
                if rclosure(a, ops@[0].index as int).contains(j) {
                    assert(ids_of(c0@).contains(j));
                    let m = choose|m: int| 0 <= m < ids_of(c0@).len() && ids_of(c0@)[m] == j;
                    assert(c0@[m].index == j);
                }
            }
        }
    }
    // Intersect with each further operand's closure.
    let mut k: usize = 1;
    while k < ops.len()
        invariant
            a == arena@,
            n == a.len(),
            acc@.len() == n,
            forall|t2: int|
                0 <= t2 < ops@.len() ==> live(a, (#[trigger] ops@[t2]).index as int),
            1 <= k <= ops@.len(),
            forall|j: int|
                0 <= j < n ==> ((#[trigger] acc@[j]) <==> ops_inter(
                    a,
                    ids_of(ops@).take(k as int),
                ).contains(j)),
        decreases ops@.len() - k,
    {
        let ghost pre = ids_of(ops@).take(k as int);
        let op = ops[k];
        let c = closure_from(arena, op);
        proof {
            lemma_asc_indices_props(a.len(), rclosure(a, op.index as int));
            assert(ids_of(ops@).take(k + 1).drop_last() =~= pre);
            assert(ids_of(ops@).take(k + 1).last() == op.index as int);
        }
        let mut idx: usize = 0;
        while idx < n
            invariant
                a == arena@,
                n == a.len(),
                acc@.len() == n,
                ids_of(c@) == asc_indices(a.len(), rclosure(a, op.index as int)),
                idx <= n,
                forall|j: int|
                    idx <= j < n ==> ((#[trigger] acc@[j]) <==> ops_inter(a, pre).contains(j)),
                forall|j: int|
                    0 <= j < idx ==> ((#[trigger] acc@[j]) <==> (ops_inter(a, pre).contains(j)
                        && rclosure(a, op.index as int).contains(j))),
            decreases n - idx,
        {
            proof {
                lemma_asc_indices_props(a.len(), rclosure(a, op.index as int));
            }
            if acc[idx] {
                if !contains_id(&c, Id { index: idx }) {
                    acc[idx] = false;
                    proof {
                        if rclosure(a, op.index as int).contains(idx as int) {
                            assert(ids_of(c@).contains(idx as int));
                            let m = choose|m: int|
                                0 <= m < ids_of(c@).len() && ids_of(c@)[m] == idx as int;
                            assert(c@[m].index == idx);
                            assert(ids_contain(c@, idx as int));
                        }
                    }
                } else {
                    proof {
                        let w = choose|w: int|
                            0 <= w < c@.len() && c@[w].index == idx;
                        assert(ids_of(c@)[w] == idx as int);
                        assert(ids_of(c@).contains(idx as int));
                        assert(rclosure(a, op.index as int).contains(idx as int));
                    }
                }
            }
            idx = idx + 1;
        }
        proof {
            assert forall|j: int| 0 <= j < n implies ((#[trigger] acc@[j]) <==> ops_inter(
                a,
                ids_of(ops@).take(k + 1),
            ).contains(j)) by {
                assert(ops_inter(a, ids_of(ops@).take(k + 1)) =~= ops_inter(a, pre).intersect(
                    rclosure(a, op.index as int),
                ));
            }
        }
        k = k + 1;
    }
    proof {
        assert(ids_of(ops@).take(ops@.len() as int) =~= ids_of(ops@));
    }
    let ghost is = ops_inter(a, ids_of(ops@));
    let mut out: Vec<Id> = Vec::new();
    let mut idx: usize = 0;
    proof {
        assert(ids_of(out@) =~= asc_indices(0, is));
    }
    while idx < n
        invariant
            a == arena@,
            n == a.len(),
            acc@.len() == n,
            is == ops_inter(a, ids_of(ops@)),
            forall|j: int| 0 <= j < n ==> ((#[trigger] acc@[j]) <==> is.contains(j)),
            idx <= n,
            ids_of(out@) == asc_indices(idx as nat, is),
        decreases n - idx,
    {
        let ghost before = out@;
        if acc[idx] {
            out.push(Id { index: idx });
            proof {
                assert(ids_of(out@) =~= ids_of(before).push(idx as int));
            }
        }
        idx = idx + 1;
    }
    out
}

/// The batch outcome for the first `n` slots, live entries only, in
/// identity order.
pub open spec fn resolve_upto(a: Seq<EntryView>, n: nat) -> Seq<
    (Id, Result<ResolvedNodeV, ResolutionErrorV>),
>
    decreases n,
{
    if n == 0 {
        Seq::empty()
    } else {
        let p = resolve_upto(a, (n - 1) as nat);
        if a[n - 1].alive {
            p.push((Id { index: (n - 1) as usize }, resolve_node_spec(a, n - 1)))
        } else {
            p
        }
    }
}

/// The batch outcome: every live entry resolved against the snapshot.
pub open spec fn resolve_all_spec(a: Seq<EntryView>) -> Seq<
    (Id, Result<ResolvedNodeV, ResolutionErrorV>),
> {
    resolve_upto(a, a.len())
}

/// The mathematical image of a batch report.
pub open spec fn report_view(v: Seq<(Id, Result<ResolvedNode, ResolutionError>)>) -> Seq<
    (Id, Result<ResolvedNodeV, ResolutionErrorV>),
> {
    v.map_values(
        |p: (Id, Result<ResolvedNode, ResolutionError>)|
            (
                p.0,
                match p.1 {
                    Ok(nd) => Ok(nd@),
                    Err(e) => Err(e@),
                },
            ),
    )
}

/// Resolves every live entry of the store. A structural error in one
/// node is reported in its slot and aborts nothing else.
pub fn resolve_all(arena: &Arena) -> (r: Vec<(Id, Result<ResolvedNode, ResolutionError>)>)
    requires
        arena@.len() < usize::MAX,
    ensures
        report_view(r@) == resolve_all_spec(arena@),
{
    let ghost a = arena@;
    let n = arena.len();
    let mut out: Vec<(Id, Result<ResolvedNode, ResolutionError>)> = Vec::new();
    let mut idx: usize = 0;
    proof {
        assert(report_view(out@) =~= resolve_upto(a, 0));
    }
    while idx < n
        invariant
            a == arena@,
            a.len() < usize::MAX,
            n == a.len(),
            idx <= n,
            report_view(out@) == resolve_upto(a, idx as nat),
        decreases n - idx,
    {
        let ghost before = out@;
        let id = Id { index: idx };
        match arena.get(id) {
            Some(_) => {
                let res = resolve_node(arena, id);
                out.push((id, res));
                proof {
                    assert(report_view(out@) =~= resolve_upto(a, (idx + 1) as nat));
                }
            },
            None => {
                proof {
                    assert(!a[idx as int].alive);
                }
            },
        }
        idx = idx + 1;
    }
    out
}

/// Resolution is a function of the store snapshot alone: resolving the
/// same unchanged snapshot twice yields the same outcome for a node.
pub proof fn lemma_resolution_idempotent(
    a: Seq<EntryView>,
    i: int,
    r1: Result<ResolvedNodeV, ResolutionErrorV>,
    r2: Result<ResolvedNodeV, ResolutionErrorV>,
)
    requires
        r1 == resolve_node_spec(a, i),
        r2 == resolve_node_spec(a, i),
    ensures
        r1 == r2,
{
}

/// Resolving the same unchanged store twice yields identical batch
/// reports.
pub proof fn lemma_batch_idempotent(
    a: Seq<EntryView>,
    r1: Seq<(Id, Result<ResolvedNodeV, ResolutionErrorV>)>,
    r2: Seq<(Id, Result<ResolvedNodeV, ResolutionErrorV>)>,
)
    requires
        r1 == resolve_all_spec(a),
        r2 == resolve_all_spec(a),
    ensures
        r1 == r2,
{
}

/// The ancestor closure is the least fixed point of unioning direct
/// bases: it contains the direct bases, is closed under taking bases,
/// and is contained in every set with those two properties.
pub proof fn lemma_closure_fixed_point(a: Seq<EntryView>, i: int, s: Set<int>)
    requires
        forall|b: int| edge(a, i, b) ==> s.contains(b),
        forall|m: int, b: int| s.contains(m) && #[trigger] edge(a, m, b) ==> s.contains(b),
    ensures
        forall|b: int| edge(a, i, b) ==> ancestors_set(a, i).contains(b),
        forall|m: int, b: int|
            ancestors_set(a, i).contains(m) && #[trigger] edge(a, m, b) ==> ancestors_set(
                a,
                i,
            ).contains(b),
        ancestors_set(a, i).subset_of(s),
{
    assert forall|b: int| edge(a, i, b) implies ancestors_set(a, i).contains(b) by {
        assert(reaches(a, i, b, 1));
    }
    assert forall|m: int, b: int|
        ancestors_set(a, i).contains(m) && #[trigger] edge(a, m, b) implies ancestors_set(
        a,
        i,
    ).contains(b) by {
        let k = choose|k: nat| reaches(a, i, m, k);
        assert(reaches(a, m, b, 1));
        lemma_reaches_trans(a, i, m, b, k, 1);
    }
    assert forall|j: int| ancestors_set(a, i).contains(j) implies s.contains(j) by {
        let k = choose|k: nat| reaches(a, i, j, k);
        if edge(a, i, j) {
        } else {
            let m = choose|m: int| edge(a, i, m) && reaches(a, m, j, (k - 1) as nat);
            lemma_closed_contains(a, s, m, j, (k - 1) as nat);
        }
    }
}

/// A resolved node lists exactly its strict ancestors, in ascending
/// identity order.
pub proof fn lemma_ancestors_exact(a: Seq<EntryView>, i: int, node: ResolvedNodeV)
    requires
        a.len() <= usize::MAX,
        resolve_node_spec(a, i) == Ok::<ResolvedNodeV, ResolutionErrorV>(node),
    ensures
        forall|x: int| #[trigger] node.ancestors.contains(x) <==> is_ancestor(a, i, x),
    decreases 0nat,
{
    lemma_asc_indices_props(a.len(), ancestors_set(a, i));
    lemma_by_name_members(a, asc_indices(a.len(), ancestors_set(a, i)));
    assert forall|x: int| #[trigger] node.ancestors.contains(x) implies is_ancestor(a, i, x) by {
        assert(asc_indices(a.len(), ancestors_set(a, i)).contains(x));
        assert(ancestors_set(a, i).contains(x));
    }
    assert forall|x: int| is_ancestor(a, i, x) implies #[trigger] node.ancestors.contains(x) by {
        lemma_ancestor_live(a, i, x);
        assert(ancestors_set(a, i).contains(x));
        assert(asc_indices(a.len(), ancestors_set(a, i)).contains(x));
    }
}

/// No resolved node is its own ancestor.
pub proof fn lemma_no_self_ancestry(a: Seq<EntryView>, i: int, node: ResolvedNodeV)
    requires
        resolve_node_spec(a, i) == Ok::<ResolvedNodeV, ResolutionErrorV>(node),
    ensures
        !node.ancestors.contains(i),
        !ancestors_set(a, i).contains(i),
{
    assert(rreach(a, i, i));
    assert(!is_ancestor(a, i, i));
    lemma_asc_indices_props(a.len(), ancestors_set(a, i));
    lemma_by_name_members(a, asc_indices(a.len(), ancestors_set(a, i)));
    assert(!asc_indices(a.len(), ancestors_set(a, i)).contains(i));
}

/// A resolved node's direct bases all appear among its ancestors.
pub proof fn lemma_direct_bases_in_ancestors(a: Seq<EntryView>, i: int, node: ResolvedNodeV)
    requires
        resolve_node_spec(a, i) == Ok::<ResolvedNodeV, ResolutionErrorV>(node),
    ensures
        forall|x: int| #[trigger] node.direct_bases.contains(x) ==> node.ancestors.contains(x),
{
    lemma_asc_indices_props(a.len(), direct_base_set(a, i));
    lemma_asc_indices_props(a.len(), ancestors_set(a, i));
    lemma_by_name_members(a, asc_indices(a.len(), direct_base_set(a, i)));
    lemma_by_name_members(a, asc_indices(a.len(), ancestors_set(a, i)));
    assert forall|x: int| #[trigger] node.direct_bases.contains(x) implies node.ancestors.contains(
        x,
    ) by {
        assert(asc_indices(a.len(), direct_base_set(a, i)).contains(x));
        assert(direct_base_set(a, i).contains(x));
        assert(edge(a, i, x));
        assert(reaches(a, i, x, 1));
        assert(ancestors_set(a, i).contains(x));
        assert(asc_indices(a.len(), ancestors_set(a, i)).contains(x));
    }
}

/// A resolved node's linearization is nonempty and puts the node
/// itself first.
pub proof fn lemma_linearization_starts_at_node(a: Seq<EntryView>, i: int, node: ResolvedNodeV)
    requires
        resolve_node_spec(a, i) == Ok::<ResolvedNodeV, ResolutionErrorV>(node),
    ensures
        node.linearization.len() > 0,
        node.linearization[0] == i,
{
    let fuel = a.len() + 1;
    assert(lin_spec(a, i, fuel) == Some(MergeOut::Done(node.linearization)));
}

/// A merge that completes lists exactly the elements of its inputs.
proof fn lemma_c3_done_members(lists: Seq<Seq<int>>, fuel: nat, s: Seq<int>)
    requires
        c3_merge(lists, fuel) == Some(MergeOut::Done(s)),
    ensures
        forall|x: int|
            #[trigger] s.contains(x) <==> exists|l: int|
                0 <= l < lists.len() && (#[trigger] lists[l]).contains(x),
    decreases fuel,
{
    if lists_all_empty(lists) {
        assert(s =~= Seq::<int>::empty());
        assert forall|x: int| #[trigger] s.contains(x) implies exists|l: int|
            0 <= l < lists.len() && (#[trigger] lists[l]).contains(x) by {}
        assert forall|x: int|
            exists|l: int| 0 <= l < lists.len() && (#[trigger] lists[l]).contains(x) implies
            #[trigger] s.contains(x) by {
            let l = choose|l: int| 0 <= l < lists.len() && (#[trigger] lists[l]).contains(x);
            assert(lists[l].len() == 0);
        }
    } else {
        let c = pick_from(lists, 0)->Some_0;
        let rest = remove_head(lists, c);
        let s2 = choose|s2: Seq<int>|
            c3_merge(rest, (fuel - 1) as nat) == Some(MergeOut::Done(s2)) && s == seq![c] + s2;
        lemma_c3_done_members(rest, (fuel - 1) as nat, s2);
        lemma_pick_witness(lists, 0);
        assert forall|x: int| #[trigger] s.contains(x) implies exists|l: int|
            0 <= l < lists.len() && (#[trigger] lists[l]).contains(x) by {
            let idx = choose|idx: int| 0 <= idx < s.len() && s[idx] == x;
            if idx == 0 {
                let w = choose|w: int|
                    0 <= w < lists.len() && (#[trigger] lists[w]).len() > 0 && lists[w][0] == c;
                assert(lists[w].contains(c));
            } else {
                assert(s2[idx - 1] == x);
                assert(s2.contains(x));
                let l = choose|l: int| 0 <= l < rest.len() && (#[trigger] rest[l]).contains(x);
                let w = choose|w: int| 0 <= w < rest[l].len() && rest[l][w] == x;
                if lists[l].len() > 0 && lists[l][0] == c {
                    assert(rest[l] == lists[l].skip(1));
                    assert(lists[l][w + 1] == x);
                } else {
                    assert(rest[l] == lists[l]);
                }
                assert(lists[l].contains(x));
            }
        }
        assert forall|x: int|
            exists|l: int| 0 <= l < lists.len() && (#[trigger] lists[l]).contains(x) implies
            #[trigger] s.contains(x) by {
            if x == c {
                assert(s[0] == c);
            } else {
                let l = choose|l: int| 0 <= l < lists.len() && (#[trigger] lists[l]).contains(x);
                let w = choose|w: int| 0 <= w < lists[l].len() && lists[l][w] == x;
                if lists[l].len() > 0 && lists[l][0] == c {
                    assert(rest[l] == lists[l].skip(1));
                    assert(w > 0);
                    assert(rest[l][w - 1] == x);
                } else {
                    assert(rest[l] == lists[l]);
                }
                assert(rest[l].contains(x));
                assert(s2.contains(x));
                let idx = choose|idx: int| 0 <= idx < s2.len() && s2[idx] == x;
                assert(s[idx + 1] == x);
            }
        }
    }
}

/// Strict ancestry decomposes into a first base step followed by
/// reflexive reachability.
proof fn lemma_anc_first_step(a: Seq<EntryView>, i: int, j: int)
    requires
        is_ancestor(a, i, j),
    ensures
        exists|b: int| edge(a, i, b) && rreach(a, b, j),
{
    let k = choose|k: nat| reaches(a, i, j, k);
    if edge(a, i, j) {
        assert(edge(a, i, j) && rreach(a, j, j));
    } else {
        let m = choose|m: int| edge(a, i, m) && reaches(a, m, j, (k - 1) as nat);
        assert(edge(a, i, m) && rreach(a, m, j));
    }
}

/// A finished linearization lists exactly the reflexive ancestor
/// closure of its node.
proof fn lemma_lin_members(a: Seq<EntryView>, n: int, fuel: nat, l: Seq<int>)
    requires
        lin_spec(a, n, fuel) == Some(MergeOut::Done(l)),
    ensures
        forall|x: int| #[trigger] l.contains(x) <==> rreach(a, n, x),
    decreases fuel, 0nat,
{
    match base_ids(a, n) {
        None => {
            assert(l =~= seq![n]);
            assert forall|x: int| #[trigger] l.contains(x) implies rreach(a, n, x) by {
                let idx = choose|idx: int| 0 <= idx < l.len() && l[idx] == x;
            }
            assert forall|x: int| rreach(a, n, x) implies #[trigger] l.contains(x) by {
                if x != n {
                    lemma_anc_first_step(a, n, x);
                    let b = choose|b: int| edge(a, n, b) && rreach(a, b, x);
                    assert(base_ids(a, n) is Some);
                }
                assert(l[0] == n);
            }
        },
        Some(raw) => {
            let bs = dedup_first(raw);
            lemma_dedup_first_members(raw);
            match lin_bases(a, bs, (fuel - 1) as nat) {
                Some(LinLists::Lists(ls)) => {
                    let all = ls.push(bs);
                    let s = choose|s: Seq<int>|
                        c3_total(all) == Some(MergeOut::Done(s)) && l == seq![n] + s;
                    lemma_lin_bases_members(a, bs, (fuel - 1) as nat, ls);
                    lemma_c3_done_members(all, sum_len(all) + 1, s);
                    assert forall|x: int| #[trigger] l.contains(x) implies rreach(a, n, x) by {
                        let idx = choose|idx: int| 0 <= idx < l.len() && l[idx] == x;
                        if idx == 0 {
                        } else {
                            assert(s[idx - 1] == x);
                            assert(s.contains(x));
                            let w = choose|w: int|
                                0 <= w < all.len() && (#[trigger] all[w]).contains(x);
                            if w < ls.len() {
                                assert(all[w] == ls[w]);
                                assert(ls[w].contains(x));
                                assert(rreach(a, bs[w], x));
                                assert(bs.contains(bs[w]));
                                assert(raw.contains(bs[w]));
                                assert(edge(a, n, bs[w]));
                                lemma_edge_then_rreach(a, n, bs[w], x);
                            } else {
                                assert(all[w] == bs);
                                assert(bs.contains(x));
                                assert(raw.contains(x));
                                assert(edge(a, n, x));
                                assert(reaches(a, n, x, 1));
                            }
                        }
                    }
                    assert forall|x: int| rreach(a, n, x) implies #[trigger] l.contains(x) by {
                        if x == n {
                            assert(l[0] == n);
                        } else {
                            lemma_anc_first_step(a, n, x);
                            let b = choose|b: int| edge(a, n, b) && rreach(a, b, x);
                            assert(raw.contains(b));
                            assert(bs.contains(b));
                            let t = choose|t: int| 0 <= t < bs.len() && bs[t] == b;
                            assert(ls[t].contains(x));
                            assert(all[t] == ls[t]);
                            assert(s.contains(x));
                            let idx = choose|idx: int| 0 <= idx < s.len() && s[idx] == x;
                            assert(l[idx + 1] == x);
                        }
                    }
                },
                _ => {},
            }
        },
    }
}

/// Each finished base linearization lists exactly that base's
/// reflexive ancestor closure.
proof fn lemma_lin_bases_members(a: Seq<EntryView>, bs: Seq<int>, fuel: nat, ls: Seq<Seq<int>>)
    requires
        lin_bases(a, bs, fuel) == Some(LinLists::Lists(ls)),
    ensures
        ls.len() == bs.len(),
        forall|t: int, x: int|
            #![trigger ls[t].contains(x)]
            #![trigger rreach(a, bs[t], x)]
            0 <= t < bs.len() ==> (ls[t].contains(x) <==> rreach(a, bs[t], x)),
    decreases fuel, bs.len() + 1,
{
    if bs.len() == 0 {
        assert(ls =~= Seq::<Seq<int>>::empty());
    } else {
        match lin_spec(a, bs[0], fuel) {
            Some(MergeOut::Done(l0)) => {
                lemma_lin_members(a, bs[0], fuel, l0);
                match lin_bases(a, bs.skip(1), fuel) {
                    Some(LinLists::Lists(rest)) => {
                        lemma_lin_bases_members(a, bs.skip(1), fuel, rest);
                        assert(ls == seq![l0] + rest);
                        assert forall|t: int, x: int|
                            #![trigger ls[t].contains(x)]
                            #![trigger rreach(a, bs[t], x)]
                            0 <= t < bs.len() implies (ls[t].contains(x) <==> rreach(
                            a,
                            bs[t],
                            x,
                        )) by {
                            if t == 0 {
                                assert(ls[0] == l0);
                            } else {
                                assert(ls[t] == rest[t - 1]);
                                assert(bs[t] == bs.skip(1)[t - 1]);
                            }
                        }
                    },
                    _ => {},
                }
            },
            _ => {},
        }
    }
}

/// A resolved node's linearization lists the node itself and its
/// ancestors, and nothing else.
pub proof fn lemma_linearization_members(a: Seq<EntryView>, i: int, node: ResolvedNodeV)
    requires
        resolve_node_spec(a, i) == Ok::<ResolvedNodeV, ResolutionErrorV>(node),
    ensures
        forall|x: int|
            #[trigger] node.linearization.contains(x) <==> (x == i || is_ancestor(a, i, x)),
{
    lemma_lin_members(a, i, a.len() + 1, node.linearization);
}

/// A picked head is blocked by no tail.
proof fn lemma_pick_unblocked(lists: Seq<Seq<int>>, l: int)
    requires
        pick_from(lists, l) is Some,
    ensures
        !in_some_tail(lists, pick_from(lists, l)->Some_0),
    decreases lists.len() - l,
{
    if 0 <= l < lists.len() {
        if lists[l].len() > 0 && !in_some_tail(lists, lists[l][0]) {
        } else {
            lemma_pick_unblocked(lists, l + 1);
        }
    }
}

/// A merge that completes never lists an element twice.
proof fn lemma_c3_done_nodup(lists: Seq<Seq<int>>, fuel: nat, s: Seq<int>)
    requires
        c3_merge(lists, fuel) == Some(MergeOut::Done(s)),
    ensures
        forall|p: int, q: int|
            0 <= p < q < s.len() ==> #[trigger] s[p] != #[trigger] s[q],
    decreases fuel,
{
    if lists_all_empty(lists) {
        assert(s =~= Seq::<int>::empty());
    } else {
        let c = pick_from(lists, 0)->Some_0;
        let rest = remove_head(lists, c);
        let s2 = choose|s2: Seq<int>|
            c3_merge(rest, (fuel - 1) as nat) == Some(MergeOut::Done(s2)) && s == seq![c] + s2;
        lemma_c3_done_nodup(rest, (fuel - 1) as nat, s2);
        lemma_pick_unblocked(lists, 0);
        // After the removal, no list holds the chosen head any more.
        assert forall|l: int| 0 <= l < rest.len() implies !(#[trigger] rest[l]).contains(c) by {
            if rest[l].contains(c) {
                let w = choose|w: int| 0 <= w < rest[l].len() && rest[l][w] == c;
                if lists[l].len() > 0 && lists[l][0] == c {
                    assert(rest[l] == lists[l].skip(1));
                    assert(lists[l].skip(1).contains(c));
                    assert(in_some_tail(lists, c));
                } else {
                    assert(rest[l] == lists[l]);
                    if lists[l].len() > 0 {
                        assert(w > 0);
                        assert(lists[l].skip(1)[w - 1] == c);
                        assert(lists[l].skip(1).contains(c));
                        assert(in_some_tail(lists, c));
                    }
                }
            }
        }
        lemma_c3_done_members(rest, (fuel - 1) as nat, s2);
        assert(!s2.contains(c));
        assert forall|p: int, q: int|
            0 <= p < q < s.len() implies #[trigger] s[p] != #[trigger] s[q] by {
            if p == 0 {
                assert(s[q] == s2[q - 1]);
                if s[q] == c {
                    assert(s2.contains(c));
                }
            } else {
                assert(s[p] == s2[p - 1]);
                assert(s[q] == s2[q - 1]);
            }
        }
    }
}

/// A resolved node's linearization lists each member exactly once.
pub proof fn lemma_linearization_no_duplicates(a: Seq<EntryView>, i: int, node: ResolvedNodeV)
    requires
        resolve_node_spec(a, i) == Ok::<ResolvedNodeV, ResolutionErrorV>(node),
    ensures
        forall|p: int, q: int|
            0 <= p < q < node.linearization.len() ==> #[trigger] node.linearization[p]
                != #[trigger] node.linearization[q],
{
    let l = node.linearization;
    let fuel = a.len() + 1;
    assert(lin_spec(a, i, fuel) == Some(MergeOut::Done(l)));
    assert(rreach(a, i, i));
    assert(!is_ancestor(a, i, i));
    match base_ids(a, i) {
        None => {
            assert(l =~= seq![i]);
        },
        Some(raw) => {
            let bs = dedup_first(raw);
            lemma_dedup_first_members(raw);
            match lin_bases(a, bs, (fuel - 1) as nat) {
                Some(LinLists::Lists(ls)) => {
                    let all = ls.push(bs);
                    let s = choose|s: Seq<int>|
                        c3_total(all) == Some(MergeOut::Done(s)) && l == seq![i] + s;
                    lemma_c3_done_nodup(all, sum_len(all) + 1, s);
                    lemma_c3_done_members(all, sum_len(all) + 1, s);
                    lemma_lin_bases_members(a, bs, (fuel - 1) as nat, ls);
                    // The node itself appears in none of the inputs.
                    assert(!s.contains(i)) by {
                        if s.contains(i) {
                            let w = choose|w: int|
                                0 <= w < all.len() && (#[trigger] all[w]).contains(i);
                            if w < ls.len() {
                                assert(all[w] == ls[w]);
                                assert(rreach(a, bs[w], i));
                                assert(bs.contains(bs[w]));
                                assert(raw.contains(bs[w]));
                                assert(edge(a, i, bs[w]));
                                lemma_edge_then_rreach(a, i, bs[w], i);
                            } else {
                                assert(all[w] == bs);
                                assert(bs.contains(i));
                                assert(raw.contains(i));
                                assert(edge(a, i, i));
                                assert(reaches(a, i, i, 1));
                            }
                        }
                    }
                    assert forall|p: int, q: int| 0 <= p < q < l.len() implies #[trigger] l[p]
                        != #[trigger] l[q] by {
                        if p == 0 {
                            assert(l[q] == s[q - 1]);
                            if l[q] == i {
                                assert(s.contains(i));
                            }
                        } else {
                            assert(l[p] == s[p - 1]);
                            assert(l[q] == s[q - 1]);
                        }
                    }
                },
                _ => {},
            }
        },
    }
}

/// Acyclicity survives one edge step.
proof fn lemma_acyclic_step(a: Seq<EntryView>, n: int, b: int)
    requires
        acyclic_at(a, n),
        edge(a, n, b),
    ensures
        acyclic_at(a, b),
{
    assert forall|j: int| #[trigger] rreach(a, b, j) implies rreach(a, n, j) by {
        lemma_edge_then_rreach(a, n, b, j);
    }
}

/// Each list handed to the merge is the finished linearization of the
/// matching base.
proof fn lemma_lin_bases_pointwise(a: Seq<EntryView>, bs: Seq<int>, fuel: nat, ls: Seq<Seq<int>>)
    requires
        lin_bases(a, bs, fuel) == Some(LinLists::Lists(ls)),
    ensures
        ls.len() == bs.len(),
        forall|t: int|
            0 <= t < bs.len() ==> lin_spec(a, #[trigger] bs[t], fuel) == Some(
                MergeOut::Done(#[trigger] ls[t]),
            ),
    decreases fuel, bs.len() + 1,
{
    if bs.len() > 0 {
        match lin_spec(a, bs[0], fuel) {
            Some(MergeOut::Done(l0)) => {
                match lin_bases(a, bs.skip(1), fuel) {
                    Some(LinLists::Lists(rest)) => {
                        lemma_lin_bases_pointwise(a, bs.skip(1), fuel, rest);
                        assert(ls == seq![l0] + rest);
                        assert forall|t: int| 0 <= t < bs.len() implies lin_spec(
                            a,
                            #[trigger] bs[t],
                            fuel,
                        ) == Some(MergeOut::Done(#[trigger] ls[t])) by {
                            if t == 0 {
                                assert(ls[0] == l0);
                            } else {
                                assert(ls[t] == rest[t - 1]);
                                assert(bs[t] == bs.skip(1)[t - 1]);
                            }
                        }
                    },
                    _ => {},
                }
            },
            _ => {},
        }
    }
}

/// The merge keeps the relative order of any one candidate list: when
/// one list puts `u` strictly before `v`, the finished merge does too.
proof fn lemma_c3_done_order(
    lists: Seq<Seq<int>>,
    fuel: nat,
    s: Seq<int>,
    u: int,
    v: int,
    l: int,
    p: int,
    q: int,
)
    requires
        c3_merge(lists, fuel) == Some(MergeOut::Done(s)),
        0 <= l < lists.len(),
        0 <= p < q < lists[l].len(),
        lists[l][p] == u,
        lists[l][q] == v,
        u != v,
    ensures
        forall|pu: int, qv: int|
            0 <= pu < s.len() && 0 <= qv < s.len() && #[trigger] s[pu] == u && #[trigger] s[qv]
                == v ==> pu < qv,
    decreases fuel,
{
    assert(!lists_all_empty(lists));
    let c = pick_from(lists, 0)->Some_0;
    let rest = remove_head(lists, c);
    let s2 = choose|s2: Seq<int>|
        c3_merge(rest, (fuel - 1) as nat) == Some(MergeOut::Done(s2)) && s == seq![c] + s2;
    lemma_pick_unblocked(lists, 0);
    if c == v {
        assert(lists[l].skip(1)[q - 1] == v);
        assert(lists[l].skip(1).contains(v));
        assert(in_some_tail(lists, v));
        assert(false);
    } else if c == u {
        lemma_c3_done_nodup(lists, fuel, s);
        assert forall|pu: int, qv: int|
            0 <= pu < s.len() && 0 <= qv < s.len() && #[trigger] s[pu] == u && #[trigger] s[qv]
                == v implies pu < qv by {
            assert(s[0] == u);
            if pu != 0 {
                assert(s[0] != s[pu]);
            }
            assert(pu == 0);
            assert(s[qv] != u);
        }
    } else {
        let pp = if lists[l].len() > 0 && lists[l][0] == c {
            p - 1
        } else {
            p
        };
        let qq = if lists[l].len() > 0 && lists[l][0] == c {
            q - 1
        } else {
            q
        };
        if lists[l].len() > 0 && lists[l][0] == c {
            assert(p >= 1);
            assert(rest[l] == lists[l].skip(1));
            assert(rest[l][pp] == u);
            assert(rest[l][qq] == v);
        } else {
            assert(rest[l] == lists[l]);
        }
        lemma_c3_done_order(rest, (fuel - 1) as nat, s2, u, v, l, pp, qq);
        assert forall|pu: int, qv: int|
            0 <= pu < s.len() && 0 <= qv < s.len() && #[trigger] s[pu] == u && #[trigger] s[qv]
                == v implies pu < qv by {
            assert(pu >= 1 && qv >= 1);
            assert(s2[pu - 1] == u);
            assert(s2[qv - 1] == v);
        }
    }
}

/// A finished linearization is monotone: every listed identity comes
/// before each of its own ancestors.
proof fn lemma_lin_monotone(a: Seq<EntryView>, n: int, fuel: nat, l: Seq<int>)
    requires
        lin_spec(a, n, fuel) == Some(MergeOut::Done(l)),
        acyclic_at(a, n),
    ensures
        forall|px: int, qy: int|
            0 <= px < l.len() && 0 <= qy < l.len() && #[trigger] is_ancestor(a, l[px], l[qy])
                ==> px < qy,
    decreases fuel,
{
    assert(rreach(a, n, n));
    assert(!is_ancestor(a, n, n));
    lemma_lin_members(a, n, fuel, l);
    match base_ids(a, n) {
        None => {
            assert(l =~= seq![n]);
        },
        Some(raw) => {
            let bs = dedup_first(raw);
            lemma_dedup_first_members(raw);
            match lin_bases(a, bs, (fuel - 1) as nat) {
                Some(LinLists::Lists(ls)) => {
                    let all = ls.push(bs);
                    let s = choose|s: Seq<int>|
                        c3_total(all) == Some(MergeOut::Done(s)) && l == seq![n] + s;
                    lemma_lin_bases_members(a, bs, (fuel - 1) as nat, ls);
                    lemma_lin_bases_pointwise(a, bs, (fuel - 1) as nat, ls);
                    lemma_c3_done_members(all, sum_len(all) + 1, s);
                    assert forall|px: int, qy: int|
                        0 <= px < l.len() && 0 <= qy < l.len() && #[trigger] is_ancestor(
                            a,
                            l[px],
                            l[qy],
                        ) implies px < qy by {
                        let x = l[px];
                        let y = l[qy];
                        assert(l.contains(x));
                        assert(l.contains(y));
                        assert(rreach(a, n, x));
                        assert(rreach(a, n, y));
                        assert(x != y) by {
                            if x == y {
                                assert(is_ancestor(a, x, x));
                            }
                        }
                        if qy == 0 {
                            // nothing listed has the node as an ancestor
                            assert(y == n);
                            if x == n {
                                assert(is_ancestor(a, n, n));
                            } else {
                                let k1 = choose|k1: nat| reaches(a, n, x, k1);
                                let k2 = choose|k2: nat| reaches(a, x, n, k2);
                                lemma_reaches_trans(a, n, x, n, k1, k2);
                                assert(is_ancestor(a, n, n));
                            }
                            assert(false);
                        }
                        if px > 0 {
                            assert(s[px - 1] == x);
                            assert(s.contains(x));
                            // some merge input holds x, and with it y
                            let w = choose|w: int|
                                0 <= w < all.len() && (#[trigger] all[w]).contains(x);
                            let t: int = if w < ls.len() {
                                w
                            } else {
                                choose|t: int| 0 <= t < bs.len() && bs[t] == x
                            };
                            if w < ls.len() {
                                assert(all[w] == ls[w]);
                                assert(ls[t].contains(x));
                                assert(rreach(a, bs[t], x));
                            } else {
                                assert(all[w] == bs);
                                assert(bs.contains(x));
                                assert(rreach(a, bs[t], x));
                            }
                            assert(rreach(a, bs[t], y)) by {
                                if bs[t] == x {
                                } else {
                                    let k1 = choose|k1: nat| reaches(a, bs[t], x, k1);
                                    let k2 = choose|k2: nat| reaches(a, x, y, k2);
                                    lemma_reaches_trans(a, bs[t], x, y, k1, k2);
                                }
                            }
                            assert(ls[t].contains(x));
                            assert(ls[t].contains(y));
                            let ix = choose|ix: int| 0 <= ix < ls[t].len() && ls[t][ix] == x;
                            let iy = choose|iy: int| 0 <= iy < ls[t].len() && ls[t][iy] == y;
                            assert(bs.contains(bs[t]));
                            assert(raw.contains(bs[t]));
                            assert(edge(a, n, bs[t]));
                            lemma_acyclic_step(a, n, bs[t]);
                            lemma_lin_monotone(a, bs[t], (fuel - 1) as nat, ls[t]);
                            assert(ix < iy);
                            assert(all[t] == ls[t]);
                            lemma_c3_done_order(all, sum_len(all) + 1, s, x, y, t, ix, iy);
                            assert(s[qy - 1] == y);
                            assert(px - 1 < qy - 1);
                        }
                    }
                },
                _ => {},
            }
        },
    }
}

/// A resolved node's linearization puts every member before each of
/// that member's own ancestors.
pub proof fn lemma_linearization_monotone(a: Seq<EntryView>, i: int, node: ResolvedNodeV)
    requires
        resolve_node_spec(a, i) == Ok::<ResolvedNodeV, ResolutionErrorV>(node),
    ensures
        forall|px: int, qy: int|
            0 <= px < node.linearization.len() && 0 <= qy < node.linearization.len()
                && #[trigger] is_ancestor(a, node.linearization[px], node.linearization[qy])
                ==> px < qy,
{
    lemma_lin_monotone(a, i, a.len() + 1, node.linearization);
}

/// Whether `a2` is `a1` with the entries in `dead` marked dead:
/// every record kept, liveness cleared exactly on `dead`.
pub open spec fn killed(a1: Seq<EntryView>, a2: Seq<EntryView>, dead: Set<int>) -> bool {
    &&& a2.len() == a1.len()
    &&& forall|j: int| 0 <= j < a1.len() ==> (#[trigger] a2[j]).decl == a1[j].decl
    &&& forall|j: int|
        0 <= j < a1.len() ==> (#[trigger] a2[j]).alive == (a1[j].alive && !dead.contains(j))
}

/// Whether a name's lookup stays clear of the killed set.
pub open spec fn lookup_avoids(a1: Seq<EntryView>, nm: Seq<char>, dead: Set<int>) -> bool {
    match lookup_spec(a1, nm) {
        Some(id) => !dead.contains(id.index as int),
        None => true,
    }
}

/// Whether everything reachable from `root` stays clear of the killed
/// set: no reachable entry is killed, and no base name of a reachable
/// entry resolves into the killed set.
pub open spec fn region_avoids(a1: Seq<EntryView>, root: int, dead: Set<int>) -> bool {
    &&& forall|j: int| #[trigger] rreach(a1, root, j) ==> !dead.contains(j)
    &&& forall|j: int, k: int|
        #![trigger rreach(a1, root, j), a1[j].decl.extends[k]]
        rreach(a1, root, j) && 0 <= k < a1[j].decl.extends.len() ==> lookup_avoids(
            a1,
            a1[j].decl.extends[k],
            dead,
        )
}

/// Whether everything node `i`'s resolution consults stays clear of
/// the killed set: its own region, its operand lookups, and the
/// regions of its resolved operands.
pub open spec fn resolution_avoids(a1: Seq<EntryView>, i: int, dead: Set<int>) -> bool {
    &&& region_avoids(a1, i, dead)
    &&& forall|k: int|
        0 <= k < a1[i].decl.union_operands.len() ==> lookup_avoids(
            a1,
            #[trigger] a1[i].decl.union_operands[k],
            dead,
        )
    &&& forall|k: int|
        0 <= k < a1[i].decl.intersection_operands.len() ==> lookup_avoids(
            a1,
            #[trigger] a1[i].decl.intersection_operands[k],
            dead,
        )
    &&& forall|k: int|
        0 <= k < a1[i].decl.union_operands.len() && lookup_spec(
            a1,
            #[trigger] a1[i].decl.union_operands[k],
        ) is Some ==> region_avoids(
            a1,
            lookup_spec(a1, a1[i].decl.union_operands[k])->Some_0.index as int,
            dead,
        )
    &&& forall|k: int|
        0 <= k < a1[i].decl.intersection_operands.len() && lookup_spec(
            a1,
            #[trigger] a1[i].decl.intersection_operands[k],
        ) is Some ==> region_avoids(
            a1,
            lookup_spec(a1, a1[i].decl.intersection_operands[k])->Some_0.index as int,
            dead,
        )
}

/// Killing entries never disturbs a lookup that stayed clear of them:
/// newly dead slots only stop shadowing what they themselves were.
proof fn lemma_killed_lookup(a1: Seq<EntryView>, a2: Seq<EntryView>, dead: Set<int>, nm: Seq<char>)
    requires
        a1.len() <= usize::MAX,
        killed(a1, a2, dead),
        lookup_avoids(a1, nm, dead),
    ensures
        lookup_spec(a2, nm) == lookup_spec(a1, nm),
    decreases a1.len(),
{
    if a1.len() > 0 {
        let last = (a1.len() - 1) as int;
        assert(a2[last].decl == a1[last].decl);
        if a1.last().alive && a1.last().decl.ident == nm {
            assert(lookup_spec(a1, nm) == Some(Id { index: (a1.len() - 1) as usize }));
            assert(!dead.contains(last));
            assert(a2.last().alive && a2.last().decl.ident == nm);
        } else {
            assert(!(a2.last().alive && a2.last().decl.ident == nm));
            assert forall|j: int| 0 <= j < a1.drop_last().len() implies (#[trigger] a2.drop_last()[
                j]).decl == a1.drop_last()[j].decl && a2.drop_last()[j].alive == (
            a1.drop_last()[j].alive && !dead.contains(j)) by {
                assert(a1.drop_last()[j] == a1[j]);
                assert(a2.drop_last()[j] == a2[j]);
            }
            assert(killed(a1.drop_last(), a2.drop_last(), dead));
            lemma_killed_lookup(a1.drop_last(), a2.drop_last(), dead, nm);
        }
    }
}

/// Killing clear entries leaves the resolved bases of every entry in a
/// clear region untouched.
proof fn lemma_killed_base_ids(
    a1: Seq<EntryView>,
    a2: Seq<EntryView>,
    dead: Set<int>,
    root: int,
    j: int,
)
    requires
        a1.len() <= usize::MAX,
        killed(a1, a2, dead),
        region_avoids(a1, root, dead),
        rreach(a1, root, j),
    ensures
        base_ids(a2, j) == base_ids(a1, j),
{
    if live(a1, j) {
        assert(a2[j].decl == a1[j].decl);
        assert(!dead.contains(j));
        assert(live(a2, j));
        let names = a1[j].decl.extends;
        assert(a2[j].decl.extends == names);
        assert forall|k: int| 0 <= k < names.len() implies lookup_spec(a2, #[trigger] names[k])
            == lookup_spec(a1, names[k]) by {
            assert(lookup_avoids(a1, names[k], dead));
            lemma_killed_lookup(a1, a2, dead, names[k]);
        }
        if all_names_resolve(a1, names) {
            assert(all_names_resolve(a2, names));
            assert(resolved_ids(a2, names) =~= resolved_ids(a1, names));
        } else {
            let k = choose|k: int| 0 <= k < names.len() && lookup_spec(a1, names[k]) is None;
            assert(lookup_spec(a2, names[k]) is None);
            assert(!all_names_resolve(a2, names));
        }
    } else {
        if 0 <= j < a1.len() {
            assert(a2[j].alive ==> a1[j].alive);
        }
        assert(!live(a2, j));
    }
}

/// Killing clear entries leaves every reachability chain inside a
/// clear region untouched.
proof fn lemma_killed_reaches(
    a1: Seq<EntryView>,
    a2: Seq<EntryView>,
    dead: Set<int>,
    root: int,
    m: int,
    j: int,
    k: nat,
)
    requires
        a1.len() <= usize::MAX,
        killed(a1, a2, dead),
        region_avoids(a1, root, dead),
        rreach(a1, root, m),
    ensures
        reaches(a2, m, j, k) == reaches(a1, m, j, k),
    decreases k,
{
    if k > 0 {
        lemma_killed_base_ids(a1, a2, dead, root, m);
        if reaches(a1, m, j, k) {
            if edge(a1, m, j) {
                assert(edge(a2, m, j));
            } else {
                let x = choose|x: int| edge(a1, m, x) && reaches(a1, x, j, (k - 1) as nat);
                lemma_rreach_step(a1, root, m, x);
                lemma_killed_reaches(a1, a2, dead, root, x, j, (k - 1) as nat);
                assert(edge(a2, m, x) && reaches(a2, x, j, (k - 1) as nat));
            }
            assert(reaches(a2, m, j, k));
        }
        if reaches(a2, m, j, k) {
            if edge(a2, m, j) {
                assert(edge(a1, m, j));
            } else {
                let x = choose|x: int| edge(a2, m, x) && reaches(a2, x, j, (k - 1) as nat);
                assert(edge(a1, m, x));
                lemma_rreach_step(a1, root, m, x);
                lemma_killed_reaches(a1, a2, dead, root, x, j, (k - 1) as nat);
                assert(edge(a1, m, x) && reaches(a1, x, j, (k - 1) as nat));
            }
            assert(reaches(a1, m, j, k));
        }
    }
}

/// Killing clear entries leaves ancestry inside a clear region
/// untouched.
proof fn lemma_killed_ancestry(
    a1: Seq<EntryView>,
    a2: Seq<EntryView>,
    dead: Set<int>,
    root: int,
    m: int,
    j: int,
)
    requires
        a1.len() <= usize::MAX,
        killed(a1, a2, dead),
        region_avoids(a1, root, dead),
        rreach(a1, root, m),
    ensures
        is_ancestor(a2, m, j) == is_ancestor(a1, m, j),
        rreach(a2, m, j) == rreach(a1, m, j),
{
    if is_ancestor(a1, m, j) {
        let k = choose|k: nat| reaches(a1, m, j, k);
        lemma_killed_reaches(a1, a2, dead, root, m, j, k);
    }
    if is_ancestor(a2, m, j) {
        let k = choose|k: nat| reaches(a2, m, j, k);
        lemma_killed_reaches(a1, a2, dead, root, m, j, k);
    }
}

/// Killing clear entries leaves the linearization of every entry in a
/// clear region untouched.
proof fn lemma_killed_lin(
    a1: Seq<EntryView>,
    a2: Seq<EntryView>,
    dead: Set<int>,
    root: int,
    m: int,
    fuel: nat,
)
    requires
        a1.len() <= usize::MAX,
        killed(a1, a2, dead),
        region_avoids(a1, root, dead),
        rreach(a1, root, m),
    ensures
        lin_spec(a2, m, fuel) == lin_spec(a1, m, fuel),
    decreases fuel, 0nat,
{
    if fuel > 0 {
        lemma_killed_base_ids(a1, a2, dead, root, m);
        match base_ids(a1, m) {
            None => {},
            Some(raw) => {
                let bs = dedup_first(raw);
                lemma_dedup_first_members(raw);
                assert forall|t: int| 0 <= t < bs.len() implies rreach(
                    a1,
                    root,
                    #[trigger] bs[t],
                ) by {
                    assert(bs.contains(bs[t]));
                    assert(raw.contains(bs[t]));
                    assert(edge(a1, m, bs[t]));
                    lemma_rreach_step(a1, root, m, bs[t]);
                }
                lemma_killed_lin_bases(a1, a2, dead, root, bs, (fuel - 1) as nat);
            },
        }
    }
}

proof fn lemma_killed_lin_bases(
    a1: Seq<EntryView>,
    a2: Seq<EntryView>,
    dead: Set<int>,
    root: int,
    bs: Seq<int>,
    fuel: nat,
)
    requires
        a1.len() <= usize::MAX,
        killed(a1, a2, dead),
        region_avoids(a1, root, dead),
        forall|t: int| 0 <= t < bs.len() ==> rreach(a1, root, #[trigger] bs[t]),
    ensures
        lin_bases(a2, bs, fuel) == lin_bases(a1, bs, fuel),
    decreases fuel, bs.len() + 1,
{
    if bs.len() > 0 {
        lemma_killed_lin(a1, a2, dead, root, bs[0], fuel);
        assert forall|t: int| 0 <= t < bs.skip(1).len() implies rreach(
            a1,
            root,
            #[trigger] bs.skip(1)[t],
        ) by {
            assert(bs.skip(1)[t] == bs[t + 1]);
        }
        lemma_killed_lin_bases(a1, a2, dead, root, bs.skip(1), fuel);
    }
}

/// Killing entries never changes the name order of in-range
/// identities: the records all survive.
proof fn lemma_killed_sorted_insert(
    a1: Seq<EntryView>,
    a2: Seq<EntryView>,
    dead: Set<int>,
    s: Seq<int>,
    x: int,
)
    requires
        killed(a1, a2, dead),
        0 <= x < a1.len(),
        forall|m: int| 0 <= m < s.len() ==> 0 <= #[trigger] s[m] < a1.len(),
    ensures
        sorted_insert(a2, s, x) == sorted_insert(a1, s, x),
    decreases s.len(),
{
    if s.len() > 0 {
        assert(a2[x].decl == a1[x].decl);
        assert(a2[s[0]].decl == a1[s[0]].decl);
        assert(key_lt(a2, x, s[0]) == key_lt(a1, x, s[0]));
        if !key_lt(a1, x, s[0]) {
            assert forall|m: int| 0 <= m < s.skip(1).len() implies 0 <= #[trigger] s.skip(1)[m]
                < a1.len() by {
                assert(s.skip(1)[m] == s[m + 1]);
            }
            lemma_killed_sorted_insert(a1, a2, dead, s.skip(1), x);
        }
    }
}

proof fn lemma_killed_by_name(a1: Seq<EntryView>, a2: Seq<EntryView>, dead: Set<int>, s: Seq<int>)
    requires
        killed(a1, a2, dead),
        forall|m: int| 0 <= m < s.len() ==> 0 <= #[trigger] s[m] < a1.len(),
    ensures
        by_name(a2, s) == by_name(a1, s),
    decreases s.len(),
{
    if s.len() > 0 {
        assert forall|m: int| 0 <= m < s.drop_last().len() implies 0 <= #[trigger] s.drop_last()[
            m] < a1.len() by {
            assert(s.drop_last()[m] == s[m]);
        }
        lemma_killed_by_name(a1, a2, dead, s.drop_last());
        let p = by_name(a1, s.drop_last());
        lemma_by_name_members(a1, s.drop_last());
        assert forall|m: int| 0 <= m < p.len() implies 0 <= #[trigger] p[m] < a1.len() by {
            assert(p.contains(p[m]));
            assert(s.drop_last().contains(p[m]));
            let w = choose|w: int| 0 <= w < s.drop_last().len() && s.drop_last()[w] == p[m];
        }
        assert(0 <= s.last() < a1.len());
        lemma_killed_sorted_insert(a1, a2, dead, p, s.last());
    }
}

/// Killing entries that no listed name resolves to leaves name
/// resolution of the list untouched.
proof fn lemma_killed_resolve_names(
    a1: Seq<EntryView>,
    a2: Seq<EntryView>,
    dead: Set<int>,
    names: Seq<Seq<char>>,
)
    requires
        a1.len() <= usize::MAX,
        killed(a1, a2, dead),
        forall|k: int| 0 <= k < names.len() ==> lookup_avoids(a1, #[trigger] names[k], dead),
    ensures
        all_names_resolve(a2, names) == all_names_resolve(a1, names),
        resolved_ids(a2, names) == resolved_ids(a1, names),
        first_unresolved(a2, names) == first_unresolved(a1, names),
    decreases names.len(),
{
    assert forall|k: int| 0 <= k < names.len() implies lookup_spec(a2, #[trigger] names[k])
        == lookup_spec(a1, names[k]) by {
        lemma_killed_lookup(a1, a2, dead, names[k]);
    }
    if all_names_resolve(a1, names) {
        assert(all_names_resolve(a2, names));
    } else {
        let k = choose|k: int| 0 <= k < names.len() && lookup_spec(a1, names[k]) is None;
        assert(lookup_spec(a2, names[k]) is None);
        assert(!all_names_resolve(a2, names));
    }
    assert(resolved_ids(a2, names) =~= resolved_ids(a1, names));
    if names.len() > 0 {
        if lookup_spec(a1, names[0]) is Some {
            assert forall|k: int| 0 <= k < names.skip(1).len() implies lookup_avoids(
                a1,
                #[trigger] names.skip(1)[k],
                dead,
            ) by {
                assert(names.skip(1)[k] == names[k + 1]);
            }
            lemma_killed_resolve_names(a1, a2, dead, names.skip(1));
        }
    }
}

/// Killing entries clear of every operand region leaves the composite
/// union untouched.
proof fn lemma_killed_ops_union(
    a1: Seq<EntryView>,
    a2: Seq<EntryView>,
    dead: Set<int>,
    ops: Seq<int>,
)
    requires
        a1.len() <= usize::MAX,
        killed(a1, a2, dead),
        forall|t: int| 0 <= t < ops.len() ==> region_avoids(a1, #[trigger] ops[t], dead),
    ensures
        ops_union(a2, ops) == ops_union(a1, ops),
    decreases ops.len(),
{
    if ops.len() == 0 {
        assert(ops_union(a2, ops) =~= ops_union(a1, ops));
    } else {
        assert forall|t: int| 0 <= t < ops.drop_last().len() implies region_avoids(
            a1,
            #[trigger] ops.drop_last()[t],
            dead,
        ) by {
            assert(ops.drop_last()[t] == ops[t]);
        }
        lemma_killed_ops_union(a1, a2, dead, ops.drop_last());
        let o = ops.last();
        assert(region_avoids(a1, o, dead));
        assert forall|j: int| true implies #[trigger] rreach(a2, o, j) == rreach(a1, o, j) by {
            assert(rreach(a1, o, o));
            lemma_killed_ancestry(a1, a2, dead, o, o, j);
        }
        assert(rclosure(a2, o) =~= rclosure(a1, o));
        assert(ops_union(a2, ops) =~= ops_union(a1, ops));
    }
}

/// Killing entries clear of every operand region leaves the composite
/// intersection untouched.
proof fn lemma_killed_ops_inter(
    a1: Seq<EntryView>,
    a2: Seq<EntryView>,
    dead: Set<int>,
    ops: Seq<int>,
)
    requires
        a1.len() <= usize::MAX,
        killed(a1, a2, dead),
        forall|t: int| 0 <= t < ops.len() ==> region_avoids(a1, #[trigger] ops[t], dead),
    ensures
        ops_inter(a2, ops) == ops_inter(a1, ops),
    decreases ops.len(),
{
    if ops.len() == 0 {
        assert(ops_inter(a2, ops) =~= ops_inter(a1, ops));
    } else {
        let o = if ops.len() == 1 {
            ops[0]
        } else {
            ops.last()
        };
        assert(region_avoids(a1, o, dead));
        assert forall|j: int| true implies #[trigger] rreach(a2, o, j) == rreach(a1, o, j) by {
            assert(rreach(a1, o, o));
            lemma_killed_ancestry(a1, a2, dead, o, o, j);
        }
        assert(rclosure(a2, o) =~= rclosure(a1, o));
        if ops.len() == 1 {
        } else {
            assert forall|t: int| 0 <= t < ops.drop_last().len() implies region_avoids(
                a1,
                #[trigger] ops.drop_last()[t],
                dead,
            ) by {
                assert(ops.drop_last()[t] == ops[t]);
            }
            lemma_killed_ops_inter(a1, a2, dead, ops.drop_last());
            assert(ops_inter(a2, ops) =~= ops_inter(a1, ops));
        }
    }
}

/// Tombstoning cannot reach across the graph: marking entries dead
/// leaves every node whose resolution never consults them — in
/// particular every node outside a rejected inheritance cycle — with
/// an identical resolution.
pub proof fn lemma_resolution_unaffected(
    a1: Seq<EntryView>,
    a2: Seq<EntryView>,
    dead: Set<int>,
    i: int,
)
    requires
        a1.len() <= usize::MAX,
        killed(a1, a2, dead),
        live(a1, i),
        resolution_avoids(a1, i, dead),
    ensures
        resolve_node_spec(a2, i) == resolve_node_spec(a1, i),
{
    assert(rreach(a1, i, i));
    assert(!dead.contains(i));
    assert(a2[i].decl == a1[i].decl);
    assert(a2.len() == a1.len());
    assert forall|j: int| true implies #[trigger] rreach(a2, i, j) == rreach(a1, i, j) by {
        lemma_killed_ancestry(a1, a2, dead, i, i, j);
    }
    assert forall|j: int| #[trigger] rreach(a1, i, j) implies base_ids(a2, j) == base_ids(
        a1,
        j,
    ) by {
        lemma_killed_base_ids(a1, a2, dead, i, j);
    }
    let unames = a1[i].decl.union_operands;
    let xnames = a1[i].decl.intersection_operands;
    assert(a2[i].decl.union_operands == unames);
    assert(a2[i].decl.intersection_operands == xnames);
    lemma_killed_resolve_names(a1, a2, dead, unames);
    lemma_killed_resolve_names(a1, a2, dead, xnames);
    if !names_ok(a1, i) {
        assert(exists|j: int| #[trigger] rreach(a1, i, j) && base_ids(a1, j) is None);
        let j0 = choose|j: int| #[trigger] rreach(a1, i, j) && base_ids(a1, j) is None;
        assert(rreach(a2, i, j0) && base_ids(a2, j0) is None);
        assert(!names_ok(a2, i));
        assert(bad_name_set(a2, i) =~= bad_name_set(a1, i)) by {
            assert forall|j: int| #[trigger] bad_name_set(a1, i).contains(j) implies bad_name_set(
                a2,
                i,
            ).contains(j) by {
                assert(rreach(a1, i, j));
            }
            assert forall|j: int| #[trigger] bad_name_set(a2, i).contains(j) implies bad_name_set(
                a1,
                i,
            ).contains(j) by {
                assert(rreach(a1, i, j));
            }
        }
        let bad = asc_indices(a1.len(), bad_name_set(a1, i));
        assert(asc_indices(a2.len(), bad_name_set(a2, i)) == bad);
        lemma_asc_indices_props(a1.len(), bad_name_set(a1, i));
        if j0 != i {
            lemma_ancestor_live(a1, i, j0);
        }
        assert(bad_name_set(a1, i).contains(j0));
        assert(bad.contains(j0));
        assert(bad.len() > 0);
        let b0 = bad[0];
        assert(bad.contains(b0));
        assert(bad_name_set(a1, i).contains(b0));
        assert(rreach(a1, i, b0));
        if b0 != i {
            lemma_ancestor_live(a1, i, b0);
        }
        assert(a2[b0].decl == a1[b0].decl);
        assert forall|k: int| 0 <= k < a1[b0].decl.extends.len() implies lookup_avoids(
            a1,
            #[trigger] a1[b0].decl.extends[k],
            dead,
        ) by {
            assert(rreach(a1, i, b0));
        }
        lemma_killed_resolve_names(a1, a2, dead, a1[b0].decl.extends);
        assert(unknown_name_of(a2, i) == unknown_name_of(a1, i));
        assert(resolve_node_spec(a2, i) == resolve_node_spec(a1, i));
    } else {
        assert forall|j: int| #[trigger] rreach(a2, i, j) implies base_ids(a2, j) is Some by {
            assert(rreach(a1, i, j));
        }
        assert(names_ok(a2, i));
        if !all_names_resolve(a1, unames) {
            assert(resolve_node_spec(a2, i) == resolve_node_spec(a1, i));
        } else if !all_names_resolve(a1, xnames) {
            assert(resolve_node_spec(a2, i) == resolve_node_spec(a1, i));
        } else if !acyclic_at(a1, i) {
            assert(exists|j: int| #[trigger] rreach(a1, i, j) && is_ancestor(a1, j, j));
            let j0 = choose|j: int| #[trigger] rreach(a1, i, j) && is_ancestor(a1, j, j);
            assert(rreach(a2, i, j0));
            assert(is_ancestor(a2, j0, j0)) by {
                lemma_killed_ancestry(a1, a2, dead, i, j0, j0);
            }
            assert(!acyclic_at(a2, i));
            assert(cyclic_set(a2, i) =~= cyclic_set(a1, i)) by {
                assert forall|j: int| #[trigger] cyclic_set(a1, i).contains(j) implies cyclic_set(
                    a2,
                    i,
                ).contains(j) by {
                    assert(rreach(a1, i, j));
                    lemma_killed_ancestry(a1, a2, dead, i, j, j);
                }
                assert forall|j: int| #[trigger] cyclic_set(a2, i).contains(j) implies cyclic_set(
                    a1,
                    i,
                ).contains(j) by {
                    assert(rreach(a1, i, j));
                    lemma_killed_ancestry(a1, a2, dead, i, j, j);
                }
            }
            assert(asc_indices(a2.len(), cyclic_set(a2, i)) == asc_indices(
                a1.len(),
                cyclic_set(a1, i),
            ));
            assert(resolve_node_spec(a2, i) == resolve_node_spec(a1, i));
        } else {
            assert forall|j: int| #[trigger] rreach(a2, i, j) implies !is_ancestor(a2, j, j) by {
                assert(rreach(a1, i, j));
                lemma_killed_ancestry(a1, a2, dead, i, j, j);
            }
            assert(acyclic_at(a2, i));
            lemma_killed_lin(a1, a2, dead, i, i, (a1.len() + 1) as nat);
            match lin_spec(a1, i, a1.len() + 1) {
                Some(MergeOut::Stuck(_)) => {
                    assert(resolve_node_spec(a2, i) == resolve_node_spec(a1, i));
                },
                None => {
                    assert(resolve_node_spec(a2, i) == resolve_node_spec(a1, i));
                },
                Some(MergeOut::Done(_)) => {
                    assert(direct_base_set(a2, i) =~= direct_base_set(a1, i)) by {
                        assert(base_ids(a2, i) == base_ids(a1, i));
                    }
                    assert(ancestors_set(a2, i) =~= ancestors_set(a1, i)) by {
                        assert forall|j: int| true implies #[trigger] is_ancestor(a2, i, j)
                            == is_ancestor(a1, i, j) by {
                            lemma_killed_ancestry(a1, a2, dead, i, i, j);
                        }
                    }
                    lemma_asc_indices_props(a1.len(), direct_base_set(a1, i));
                    lemma_killed_by_name(
                        a1,
                        a2,
                        dead,
                        asc_indices(a1.len(), direct_base_set(a1, i)),
                    );
                    lemma_asc_indices_props(a1.len(), ancestors_set(a1, i));
                    lemma_killed_by_name(
                        a1,
                        a2,
                        dead,
                        asc_indices(a1.len(), ancestors_set(a1, i)),
                    );
                    let uops = resolved_ids(a1, unames);
                    let xops = resolved_ids(a1, xnames);
                    assert(resolved_ids(a2, unames) == uops);
                    assert(resolved_ids(a2, xnames) == xops);
                    assert forall|t: int| 0 <= t < uops.len() implies region_avoids(
                        a1,
                        #[trigger] uops[t],
                        dead,
                    ) by {
                        assert(lookup_spec(a1, unames[t]) is Some);
                        assert(uops[t] == lookup_spec(a1, unames[t])->Some_0.index as int);
                    }
                    assert forall|t: int| 0 <= t < xops.len() implies region_avoids(
                        a1,
                        #[trigger] xops[t],
                        dead,
                    ) by {
                        assert(lookup_spec(a1, xnames[t]) is Some);
                        assert(xops[t] == lookup_spec(a1, xnames[t])->Some_0.index as int);
                    }
                    lemma_killed_ops_union(a1, a2, dead, uops);
                    lemma_killed_ops_inter(a1, a2, dead, xops);
                    lemma_asc_indices_props(a1.len(), ops_union(a1, uops));
                    lemma_killed_by_name(a1, a2, dead, asc_indices(a1.len(), ops_union(a1, uops)));
                    lemma_asc_indices_props(a1.len(), ops_inter(a1, xops));
                    lemma_killed_by_name(a1, a2, dead, asc_indices(a1.len(), ops_inter(a1, xops)));
                    assert(resolve_node_spec(a2, i) == resolve_node_spec(a1, i));
                },
            }
        }
    }
}

} // verus!