//! The pure merge engine.
//!
//! Given the current entry list of the shared record and one desired
//! mapping, compute the next entry list for an apply or a cleanup
//! pass.  No I/O happens here; the reconciler submits the result
//! under an optimistic compare-and-swap.

use vstd::prelude::*;

use crate::entry::MapRoleSpec;
use crate::entry::MapRoleView;
use crate::entry::entries_view;
use crate::entry::unique_keys;

verus! {

/// Index of the first entry carrying `key`, or the length of the list.
pub open spec fn key_index(es: Seq<MapRoleView>, key: Seq<u8>) -> int
    decreases es.len(),
{
    if es.len() == 0 {
        0
    } else if es[0].rolearn == key {
        0
    } else {
        1 + key_index(es.drop_first(), key)
    }
}

/// Whether some entry of the list carries `key`.
pub open spec fn has_key(es: Seq<MapRoleView>, key: Seq<u8>) -> bool {
    key_index(es, key) < es.len()
}

pub proof fn lemma_key_index_props(es: Seq<MapRoleView>, key: Seq<u8>)
    ensures
        0 <= key_index(es, key) <= es.len(),
        forall|j: int| 0 <= j < key_index(es, key) ==> (#[trigger] es[j]).rolearn != key,
        key_index(es, key) < es.len() ==> es[key_index(es, key)].rolearn == key,
    decreases es.len(),
{
    if es.len() == 0 {
    } else if es[0].rolearn == key {
    } else {
        lemma_key_index_props(es.drop_first(), key);
        assert forall|j: int| 0 <= j < key_index(es, key) implies (#[trigger] es[j]).rolearn
            != key by {
            if j > 0 {
                assert(es[j] == es.drop_first()[j - 1]);
            }
        }
    }
}

pub proof fn lemma_key_index_at(es: Seq<MapRoleView>, key: Seq<u8>, k: int)
    requires
        0 <= k <= es.len(),
        forall|j: int| 0 <= j < k ==> (#[trigger] es[j]).rolearn != key,
        k < es.len() ==> es[k].rolearn == key,
    ensures
        key_index(es, key) == k,
    decreases es.len(),
{
    if es.len() == 0 {
    } else if k == 0 {
    } else {
        assert(forall|j: int|
            0 <= j < es.drop_first().len() ==> es.drop_first()[j] == es[j + 1]);
        lemma_key_index_at(es.drop_first(), key, k - 1);
    }
}

/// Next entry list after an apply pass: append a missing mapping,
/// rewrite the first entry with the key where its fields differ,
/// leave the list alone where that entry already matches.
pub open spec fn apply_merge_spec(es: Seq<MapRoleView>, d: MapRoleView) -> Seq<MapRoleView> {
    let i = key_index(es, d.rolearn);
    if i >= es.len() {
        es.push(d)
    } else if es[i] == d {
        es
    } else {
        es.update(i, d)
    }
}

/// Whether an apply pass changes the list.
pub open spec fn apply_changes(es: Seq<MapRoleView>, d: MapRoleView) -> bool {
    let i = key_index(es, d.rolearn);
    i >= es.len() || es[i] != d
}

/// Next entry list after a cleanup pass: drop the first entry with
/// the key, where one exists.
pub open spec fn cleanup_merge_spec(es: Seq<MapRoleView>, key: Seq<u8>) -> Seq<MapRoleView> {
    let i = key_index(es, key);
    if i >= es.len() {
        es
    } else {
        es.remove(i)
    }
}

/// Index of the first entry whose key is that of `key`, or the length.
fn find_key(entries: &Vec<MapRoleSpec>, key: &Vec<u8>) -> (r: usize)
    ensures
        r as int == key_index(entries_view(entries@), key@),
        r <= entries.len(),
{
    let n: usize = entries.len();
    let mut i: usize = 0;
    while i < n
        invariant
            i <= n,
            n == entries.len(),
            forall|j: int| 0 <= j < i ==> (#[trigger] entries@[j])@.rolearn != key@,
        decreases n - i,
    {
        if crate::entry::bytes_eq(&entries[i].rolearn, key) {
            proof {
                lemma_key_index_at(entries_view(entries@), key@, i as int);
            }
            return i;
        }
        i = i + 1;
    }
    proof {
        lemma_key_index_at(entries_view(entries@), key@, n as int);
    }
    n
}

/// One apply pass of the merge engine.
///
/// Returns the next entry list and whether it differs from the given
/// one; an unchanged list means the shared record needs no patch.
pub fn apply_merge(entries: Vec<MapRoleSpec>, desired: &MapRoleSpec) -> (r: (
    Vec<MapRoleSpec>,
    bool,
))
    ensures
        entries_view(r.0@) == apply_merge_spec(entries_view(entries@), desired@),
        r.1 == apply_changes(entries_view(entries@), desired@),
{
    let ghost ev = entries_view(entries@);
    let mut es = entries;
    let i = find_key(&es, &desired.rolearn);
    if i == es.len() {
        es.push(desired.duplicate());
        proof {
            assert(entries_view(es@) =~= ev.push(desired@));
        }
        (es, true)
    } else if es[i].same_mapping(desired) {
        (es, false)
    } else {
        es.set(i, desired.duplicate());
        proof {
            assert(entries_view(es@) =~= ev.update(i as int, desired@));
        }
        (es, true)
    }
}

/// One cleanup pass of the merge engine.
///
/// Returns the next entry list and whether an entry was dropped; an
/// unchanged list means the mapping was already absent.
pub fn cleanup_merge(entries: Vec<MapRoleSpec>, desired: &MapRoleSpec) -> (r: (
    Vec<MapRoleSpec>,
    bool,
))
    ensures
        entries_view(r.0@) == cleanup_merge_spec(entries_view(entries@), desired@.rolearn),
        r.1 == has_key(entries_view(entries@), desired@.rolearn),
{
    let ghost ev = entries_view(entries@);
    let mut es = entries;
    let i = find_key(&es, &desired.rolearn);
    if i == es.len() {
        (es, false)
    } else {
        es.remove(i);
        proof {
            assert(entries_view(es@) =~= ev.remove(i as int));
        }
        (es, true)
    }
}

/// Applying the same desired mapping a second time yields the same
/// list again and reports no change.
pub proof fn lemma_apply_merge_idempotent(es: Seq<MapRoleView>, d: MapRoleView)
    ensures
        apply_merge_spec(apply_merge_spec(es, d), d) == apply_merge_spec(es, d),
        !apply_changes(apply_merge_spec(es, d), d),
{
    let key = d.rolearn;
    let i = key_index(es, key);
    lemma_key_index_props(es, key);
    let es1 = apply_merge_spec(es, d);
    if i >= es.len() {
        assert(es1 == es.push(d));
        assert(forall|j: int| 0 <= j < es.len() ==> (#[trigger] es1[j]) == es[j]);
        assert(es1[es.len() as int] == d);
        lemma_key_index_at(es1, key, es.len() as int);
    } else if es[i] == d {
        assert(es1 == es);
    } else {
        assert(es1 == es.update(i, d));
        assert(forall|j: int| 0 <= j < i ==> (#[trigger] es1[j]) == es[j]);
        assert(es1[i] == d);
        lemma_key_index_at(es1, key, i);
    }
}

/// An apply pass never introduces a duplicate key.
pub proof fn lemma_apply_merge_preserves_unique(es: Seq<MapRoleView>, d: MapRoleView)
    requires
        unique_keys(es),
    ensures
        unique_keys(apply_merge_spec(es, d)),
{
    let key = d.rolearn;
    let i = key_index(es, key);
    lemma_key_index_props(es, key);
    let es1 = apply_merge_spec(es, d);
    if i >= es.len() {
        assert forall|a: int, b: int| 0 <= a < b < es1.len() implies (#[trigger] es1[a]).rolearn
            != (#[trigger] es1[b]).rolearn by {
            if b < es.len() {
                assert(es1[a] == es[a] && es1[b] == es[b]);
            } else {
                assert(es1[a] == es[a] && es1[b] == d);
            }
        }
    } else if es[i] == d {
    } else {
        assert forall|a: int, b: int| 0 <= a < b < es1.len() implies (#[trigger] es1[a]).rolearn
            != (#[trigger] es1[b]).rolearn by {
            assert(es[i].rolearn == key);
            assert(es1[a] == if a == i { d } else { es[a] });
            assert(es1[b] == if b == i { d } else { es[b] });
        }
    }
}

/// A cleanup pass never introduces a duplicate key either.
pub proof fn lemma_cleanup_merge_preserves_unique(es: Seq<MapRoleView>, key: Seq<u8>)
    requires
        unique_keys(es),
    ensures
        unique_keys(cleanup_merge_spec(es, key)),
{
    let i = key_index(es, key);
    lemma_key_index_props(es, key);
    if i < es.len() {
        let es1 = es.remove(i);
        assert forall|a: int, b: int| 0 <= a < b < es1.len() implies (#[trigger] es1[a]).rolearn
            != (#[trigger] es1[b]).rolearn by {
            let a0 = if a < i { a } else { a + 1 };
            let b0 = if b < i { b } else { b + 1 };
            assert(es1[a] == es[a0] && es1[b] == es[b0]);
        }
    }
}

/// An apply pass touches no entry of another key: concurrent apply
/// passes for distinct keys cannot clobber each other's entries.
pub proof fn lemma_apply_merge_leaves_other_keys(es: Seq<MapRoleView>, d: MapRoleView)
    ensures
        forall|j: int|
            0 <= j < es.len() && (#[trigger] es[j]).rolearn != d.rolearn ==> apply_merge_spec(
                es,
                d,
            )[j] == es[j],
{
    let i = key_index(es, d.rolearn);
    lemma_key_index_props(es, d.rolearn);
}

/// A cleanup pass removes only entries of its own key: every entry of
/// another key is still in the list afterwards.
pub proof fn lemma_cleanup_merge_leaves_other_keys(es: Seq<MapRoleView>, key: Seq<u8>)
    ensures
        forall|j: int|
            0 <= j < es.len() && (#[trigger] es[j]).rolearn != key ==> cleanup_merge_spec(
                es,
                key,
            ).contains(es[j]),
{
    let i = key_index(es, key);
    lemma_key_index_props(es, key);
    assert forall|j: int|
        0 <= j < es.len() && (#[trigger] es[j]).rolearn != key implies cleanup_merge_spec(
        es,
        key,
    ).contains(es[j]) by {
        if i >= es.len() {
            assert(cleanup_merge_spec(es, key)[j] == es[j]);
        } else {
            assert(j != i);
            let es1 = es.remove(i);
            if j < i {
                assert(es1[j] == es[j]);
            } else {
                assert(es1[j - 1] == es[j]);
            }
        }
    }
}

/// Cleaning up a freshly applied mapping restores the original list,
/// where the mapping's key was absent from it.
pub proof fn lemma_cleanup_undoes_apply(es: Seq<MapRoleView>, d: MapRoleView)
    requires
        !has_key(es, d.rolearn),
    ensures
        cleanup_merge_spec(apply_merge_spec(es, d), d.rolearn) == es,
{
    let key = d.rolearn;
    lemma_key_index_props(es, key);
    let es1 = es.push(d);
    assert(apply_merge_spec(es, d) == es1);
    assert(forall|j: int| 0 <= j < es.len() ==> (#[trigger] es1[j]) == es[j]);
    assert(es1[es.len() as int] == d);
    lemma_key_index_at(es1, key, es.len() as int);
    assert(es1.remove(es.len() as int) =~= es);
}

} // verus!
