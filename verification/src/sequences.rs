//! Facts about sequences and what they hold that several modules use.

use vstd::prelude::*;
use vstd::seq_lib::lemma_no_dup_in_concat;

verus! {

/// A concatenation holds what either part holds.
pub proof fn lemma_concat_contains<A>(a: Seq<A>, b: Seq<A>, x: A)
    ensures
        (a + b).contains(x) <==> a.contains(x) || b.contains(x),
{
    if a.contains(x) {
        let i = choose|i: int| 0 <= i < a.len() && a[i] == x;
        assert((a + b)[i] == x);
    }
    if b.contains(x) {
        let i = choose|i: int| 0 <= i < b.len() && b[i] == x;
        assert((a + b)[a.len() + i] == x);
    }
    if (a + b).contains(x) {
        let i = choose|i: int| 0 <= i < (a + b).len() && (a + b)[i] == x;
        if i < a.len() {
            assert(a[i] == x);
        } else {
            assert(b[i - a.len()] == x);
        }
    }
}

/// Two sequences without duplicates that share no element concatenate to
/// one without duplicates.
pub proof fn lemma_concat_distinct<A>(a: Seq<A>, b: Seq<A>)
    requires
        a.no_duplicates(),
        b.no_duplicates(),
        forall|x: A| a.contains(x) ==> !b.contains(x),
    ensures
        (a + b).no_duplicates(),
{
    assert forall|i: int, j: int| 0 <= i < a.len() && 0 <= j < b.len() implies a[i] != b[j] by {
        assert(a.contains(a[i]));
        assert(b.contains(b[j]));
    }
    lemma_no_dup_in_concat(a, b);
}

/// A new element at the end of a sequence without duplicates leaves it
/// without duplicates.
pub proof fn lemma_push_distinct<A>(a: Seq<A>, x: A)
    requires
        a.no_duplicates(),
        !a.contains(x),
    ensures
        a.push(x).no_duplicates(),
{
    assert forall|i: int, j: int|
        0 <= i < a.push(x).len() && 0 <= j < a.push(x).len() && i != j implies a.push(x)[i]
        != a.push(x)[j] by {
        if i < a.len() {
            assert(a.contains(a[i]));
        }
        if j < a.len() {
            assert(a.contains(a[j]));
        }
    }
}

/// Two sequences that hold the same elements as often still do after the
/// same function has been applied to every element.
pub proof fn lemma_map_keeps_multiset<A, B>(s: Seq<A>, t: Seq<A>, f: spec_fn(A) -> B)
    requires
        s.to_multiset() == t.to_multiset(),
    ensures
        s.map_values(f).to_multiset() == t.map_values(f).to_multiset(),
    decreases s.len(),
{
    broadcast use vstd::multiset::group_multiset_axioms;

    vstd::seq_lib::to_multiset_len(s);
    vstd::seq_lib::to_multiset_len(t);
    if s.len() == 0 {
        assert(s.map_values(f) =~= t.map_values(f));
    } else {
        let x = s.last();
        let shorter = s.drop_last();
        assert(s =~= shorter.push(x));
        vstd::seq_lib::to_multiset_build(shorter, x);
        vstd::seq_lib::to_multiset_contains(t, x);
        assert(s.to_multiset().count(x) > 0);
        let k = choose|k: int| 0 <= k < t.len() && t[k] == x;
        let rest = t.remove(k);
        vstd::seq_lib::to_multiset_remove(t, k);
        assert(shorter.to_multiset() =~= s.to_multiset().remove(x));
        lemma_map_keeps_multiset(shorter, rest, f);
        assert(s.map_values(f) =~= shorter.map_values(f).push(f(x)));
        assert(t.map_values(f) =~= rest.map_values(f).insert(k, f(x)));
        vstd::seq_lib::to_multiset_build(shorter.map_values(f), f(x));
        vstd::seq_lib::to_multiset_insert(rest.map_values(f), k, f(x));
    }
}

/// Where a function tells the elements of two sequences apart, the
/// sequences hold the same elements as often if their images do.
pub proof fn lemma_map_reflects_multiset<A, B>(s: Seq<A>, t: Seq<A>, f: spec_fn(A) -> B)
    requires
        s.map_values(f).to_multiset() == t.map_values(f).to_multiset(),
        forall|i: int, j: int|
            0 <= i < s.len() && 0 <= j < t.len() && f(s[i]) == f(t[j]) ==> s[i] == t[j],
    ensures
        s.to_multiset() == t.to_multiset(),
    decreases s.len(),
{
    broadcast use vstd::multiset::group_multiset_axioms;

    let fs = s.map_values(f);
    let ft = t.map_values(f);
    vstd::seq_lib::to_multiset_len(fs);
    vstd::seq_lib::to_multiset_len(ft);
    if s.len() == 0 {
        assert(s =~= t);
    } else {
        let x = s.last();
        let shorter = s.drop_last();
        assert(s =~= shorter.push(x));
        assert(fs =~= shorter.map_values(f).push(f(x)));
        vstd::seq_lib::to_multiset_build(shorter.map_values(f), f(x));
        vstd::seq_lib::to_multiset_contains(ft, f(x));
        assert(fs.to_multiset().count(f(x)) > 0);
        let k = choose|k: int| 0 <= k < ft.len() && ft[k] == f(x);
        assert(f(s[s.len() - 1]) == f(t[k]));
        assert(t[k] == x);
        let rest = t.remove(k);
        assert(rest.map_values(f) =~= ft.remove(k));
        vstd::seq_lib::to_multiset_remove(ft, k);
        vstd::seq_lib::to_multiset_remove(t, k);
        assert(shorter.map_values(f).to_multiset() =~= fs.to_multiset().remove(f(x)));
        assert forall|i: int, j: int|
            0 <= i < shorter.len() && 0 <= j < rest.len() && f(shorter[i]) == f(
                rest[j],
            ) implies shorter[i] == rest[j] by {
            assert(shorter[i] == s[i]);
            if j < k {
                assert(rest[j] == t[j]);
            } else {
                assert(rest[j] == t[j + 1]);
            }
        }
        lemma_map_reflects_multiset(shorter, rest, f);
        vstd::seq_lib::to_multiset_build(shorter, x);
        assert(t =~= rest.insert(k, x));
        vstd::seq_lib::to_multiset_insert(rest, k, x);
    }
}

/// Exchanging two elements of a sequence leaves what it holds.
pub proof fn lemma_swap_keeps_multiset<A>(s: Seq<A>, i: int, j: int)
    requires
        0 <= i < s.len(),
        0 <= j < s.len(),
    ensures
        s.update(i, s[j]).update(j, s[i]).to_multiset() == s.to_multiset(),
{
    broadcast use vstd::multiset::group_multiset_axioms;

    if i == j {
        assert(s.update(i, s[j]).update(j, s[i]) =~= s);
    } else {
        vstd::seq_lib::to_multiset_update(s, i, s[j]);
        vstd::seq_lib::to_multiset_update(s.update(i, s[j]), j, s[i]);
        vstd::seq_lib::to_multiset_contains(s, s[i]);
        vstd::seq_lib::to_multiset_contains(s, s[j]);
        assert(s.contains(s[i]) && s.contains(s[j]));
        assert(s.update(i, s[j]).update(j, s[i]).to_multiset() =~= s.to_multiset());
    }
}

} // verus!
