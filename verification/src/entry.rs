//! The mapping entry: one external role mapped to a principal and groups.

use vstd::prelude::*;

verus! {

/// Byte that separates the fields of one serialized entry.
pub const FIELD_SEP: u8 = 9;

/// Byte that ends one serialized entry.
pub const ENTRY_SEP: u8 = 10;

/// Byte that separates the group names of one entry.
pub const GROUP_SEP: u8 = 44;

/// Map a role of the external identity provider to groups in the cluster.
///
/// The same shape serves both as the desired state carried by one
/// declarative object and as one materialized entry of the shared
/// record.  Field values are UTF-8 text held as bytes.
#[derive(Debug)]
pub struct MapRoleSpec {
    /// Identifier of the external role; the natural key of an entry.
    pub rolearn: Vec<u8>,
    /// Name of the principal inside the cluster.
    pub username: Vec<u8>,
    /// Groups inside the cluster.
    pub groups: Vec<Vec<u8>>,
}

/// The mathematical value of a [`MapRoleSpec`].
pub struct MapRoleView {
    pub rolearn: Seq<u8>,
    pub username: Seq<u8>,
    pub groups: Seq<Seq<u8>>,
}

impl View for MapRoleSpec {
    type V = MapRoleView;

    open spec fn view(&self) -> MapRoleView {
        MapRoleView {
            rolearn: self.rolearn@,
            username: self.username@,
            groups: self.groups@.map_values(|g: Vec<u8>| g@),
        }
    }
}

/// The mathematical value of a list of entries.
pub open spec fn entries_view(es: Seq<MapRoleSpec>) -> Seq<MapRoleView> {
    es.map_values(|e: MapRoleSpec| e@)
}

/// A key or principal name may hold any byte except the two separators.
pub open spec fn field_ok(s: Seq<u8>) -> bool {
    forall|i: int| 0 <= i < s.len() ==> s[i] != FIELD_SEP && s[i] != ENTRY_SEP
}

/// A group name is non-empty and holds no separator byte.
pub open spec fn group_ok(g: Seq<u8>) -> bool {
    &&& g.len() > 0
    &&& forall|i: int|
        0 <= i < g.len() ==> g[i] != FIELD_SEP && g[i] != ENTRY_SEP && g[i] != GROUP_SEP
}

/// An entry whose fields the serialization can carry.
pub open spec fn entry_ok(e: MapRoleView) -> bool {
    &&& field_ok(e.rolearn)
    &&& field_ok(e.username)
    &&& forall|i: int| 0 <= i < e.groups.len() ==> group_ok(#[trigger] e.groups[i])
}

/// A list of entries the serialization can carry.
pub open spec fn entries_ok(es: Seq<MapRoleView>) -> bool {
    forall|i: int| 0 <= i < es.len() ==> entry_ok(#[trigger] es[i])
}

/// No two entries of the list share a key.
pub open spec fn unique_keys(es: Seq<MapRoleView>) -> bool {
    forall|i: int, j: int|
        0 <= i < j < es.len() ==> (#[trigger] es[i]).rolearn != (#[trigger] es[j]).rolearn
}

/// Whether two byte vectors hold the same bytes.
pub fn bytes_eq(a: &Vec<u8>, b: &Vec<u8>) -> (r: bool)
    ensures
        r == (a@ == b@),
{
    if a.len() != b.len() {
        return false;
    }
    let n: usize = a.len();
    let mut i: usize = 0;
    while i < n
        invariant
            i <= n,
            n == a.len() == b.len(),
            forall|j: int| 0 <= j < i ==> a@[j] == b@[j],
        decreases n - i,
    {
        if a[i] != b[i] {
            return false;
        }
        i = i + 1;
    }
    proof {
        assert(a@ =~= b@);
    }
    true
}

/// Whether two group lists hold the same names in the same order.
pub fn groups_eq(a: &Vec<Vec<u8>>, b: &Vec<Vec<u8>>) -> (r: bool)
    ensures
        r == (a@.map_values(|g: Vec<u8>| g@) == b@.map_values(|g: Vec<u8>| g@)),
{
    let ga = Ghost(a@.map_values(|g: Vec<u8>| g@));
    let gb = Ghost(b@.map_values(|g: Vec<u8>| g@));
    if a.len() != b.len() {
        proof {
            assert(ga@.len() != gb@.len());
        }
        return false;
    }
    let n: usize = a.len();
    let mut i: usize = 0;
    while i < n
        invariant
            i <= n,
            n == a.len() == b.len(),
            ga@ == a@.map_values(|g: Vec<u8>| g@),
            gb@ == b@.map_values(|g: Vec<u8>| g@),
            forall|j: int| 0 <= j < i ==> ga@[j] == gb@[j],
        decreases n - i,
    {
        if !bytes_eq(&a[i], &b[i]) {
            proof {
                assert(ga@[i as int] != gb@[i as int]);
            }
            return false;
        }
        i = i + 1;
    }
    proof {
        assert(ga@ =~= gb@);
    }
    true
}

/// Whether the bytes may stand as a key or principal name.
pub fn field_wf(v: &Vec<u8>) -> (b: bool)
    ensures
        b == field_ok(v@),
{
    let n: usize = v.len();
    let mut i: usize = 0;
    while i < n
        invariant
            i <= n,
            n == v.len(),
            forall|j: int| 0 <= j < i ==> v@[j] != FIELD_SEP && v@[j] != ENTRY_SEP,
        decreases n - i,
    {
        if v[i] == FIELD_SEP || v[i] == ENTRY_SEP {
            return false;
        }
        i = i + 1;
    }
    true
}

/// Whether the bytes may stand as one group name.
pub fn group_wf(v: &Vec<u8>) -> (b: bool)
    ensures
        b == group_ok(v@),
{
    if v.len() == 0 {
        return false;
    }
    let n: usize = v.len();
    let mut i: usize = 0;
    while i < n
        invariant
            i <= n,
            n == v.len(),
            forall|j: int|
                0 <= j < i ==> v@[j] != FIELD_SEP && v@[j] != ENTRY_SEP && v@[j] != GROUP_SEP,
        decreases n - i,
    {
        if v[i] == FIELD_SEP || v[i] == ENTRY_SEP || v[i] == GROUP_SEP {
            return false;
        }
        i = i + 1;
    }
    true
}

impl MapRoleSpec {
    /// Whether the serialization can carry this entry.
    pub fn well_formed(&self) -> (b: bool)
        ensures
            b == entry_ok(self@),
    {
        if !field_wf(&self.rolearn) || !field_wf(&self.username) {
            return false;
        }
        let n: usize = self.groups.len();
        let mut i: usize = 0;
        while i < n
            invariant
                i <= n,
                n == self.groups.len(),
                forall|j: int| 0 <= j < i ==> group_ok(#[trigger] self@.groups[j]),
            decreases n - i,
        {
            if !group_wf(&self.groups[i]) {
                proof {
                    assert(!group_ok(self@.groups[i as int]));
                }
                return false;
            }
            i = i + 1;
        }
        true
    }

    /// Whether the other entry carries the same mapping.
    pub fn same_mapping(&self, other: &MapRoleSpec) -> (r: bool)
        ensures
            r == (self@ == other@),
    {
        let r = bytes_eq(&self.rolearn, &other.rolearn) && bytes_eq(&self.username, &other.username)
            && groups_eq(&self.groups, &other.groups);
        proof {
            if self@.rolearn == other@.rolearn && self@.username == other@.username
                && self@.groups == other@.groups {
                assert(self@ =~= other@);
            }
        }
        r
    }

    /// A deep copy of the entry.
    pub fn duplicate(&self) -> (r: MapRoleSpec)
        ensures
            r@ == self@,
    {
        let mut groups: Vec<Vec<u8>> = Vec::new();
        let n: usize = self.groups.len();
        let mut i: usize = 0;
        while i < n
            invariant
                i <= n,
                n == self.groups.len(),
                groups@.len() == i,
                forall|j: int| 0 <= j < i ==> groups@[j]@ == self.groups@[j]@,
            decreases n - i,
        {
            groups.push(self.groups[i].clone());
            i = i + 1;
        }
        let r = MapRoleSpec {
            rolearn: self.rolearn.clone(),
            username: self.username.clone(),
            groups,
        };
        proof {
            assert(r@.groups =~= self@.groups);
            assert(r@ =~= self@);
        }
        r
    }
}

} // verus!
