//! Faces: what the broker knows of each participant.

use vstd::prelude::*;
use crate::types::{ResourceId, WhatAmI};

verus! {

/// An id of a resource on a face, the resource that it stands for, and who
/// gave the id: the broker (`local`) or the face.
#[derive(Clone, Copy, Debug, PartialEq, Eq)]
pub struct Mapping {
    pub rid: ResourceId,
    pub res: usize,
    pub local: bool,
}

/// A participant: its role, and the ids that stand for resources on it.
///
/// The ids that the face gave and those that the broker gave it are kept in
/// one list, and no id is in it twice. A key that the broker sends to the
/// face may hold an id of either kind, and the face must read it as one
/// resource: so on one face an id stands for one resource, whoever gave it.
/// A face that gives an id which the broker has given it already is treated
/// as one that gives an id twice: for the same name nothing happens, for
/// another name the id is refused.
pub struct Face {
    pub(crate) id: usize,
    pub(crate) whatami: WhatAmI,
    pub(crate) attached: bool,
    pub(crate) mappings: Vec<Mapping>,
    pub(crate) next_local_id: ResourceId,
}

/// The position of the id `rid` among `ms`, if it is there.
pub open spec fn mapping_pos(ms: Seq<Mapping>, rid: ResourceId) -> Option<int>
    decreases ms.len(),
{
    if ms.len() == 0 {
        None
    } else if ms.last().rid == rid {
        Some(ms.len() - 1)
    } else {
        mapping_pos(ms.drop_last(), rid)
    }
}

/// The resource that the id `rid` stands for among `ms`, if it stands for one.
pub open spec fn mapping_of(ms: Seq<Mapping>, rid: ResourceId) -> Option<usize> {
    match mapping_pos(ms, rid) {
        Some(i) => Some(ms[i].res),
        None => None,
    }
}

/// No id is there twice.
pub open spec fn distinct_rids(ms: Seq<Mapping>) -> bool {
    forall|i: int, j: int|
        0 <= i < ms.len() && 0 <= j < ms.len() && i != j ==> (#[trigger] ms[i]).rid != (
        #[trigger] ms[j]).rid
}

/// Where `mapping_pos` finds an id, it is there; where it finds none, the id is not there.
pub proof fn lemma_mapping_pos(ms: Seq<Mapping>, rid: ResourceId)
    ensures
        mapping_pos(ms, rid) matches Some(i) ==> 0 <= i < ms.len() && ms[i].rid == rid,
        mapping_pos(ms, rid) is None ==> forall|i: int|
            0 <= i < ms.len() ==> (#[trigger] ms[i]).rid != rid,
    decreases ms.len(),
{
    if ms.len() > 0 && ms.last().rid != rid {
        lemma_mapping_pos(ms.drop_last(), rid);
        assert forall|i: int| 0 <= i < ms.len() && mapping_pos(ms, rid) is None implies (
        #[trigger] ms[i]).rid != rid by {
            if i < ms.len() - 1 {
                assert(ms.drop_last()[i] == ms[i]);
            }
        }
    }
}

/// Among distinct ids, the id at a position is found at that position.
pub proof fn lemma_mapping_pos_at(ms: Seq<Mapping>, i: int)
    requires
        distinct_rids(ms),
        0 <= i < ms.len(),
    ensures
        mapping_pos(ms, ms[i].rid) == Some(i),
        mapping_of(ms, ms[i].rid) == Some(ms[i].res),
{
    lemma_mapping_pos(ms, ms[i].rid);
}

/// Adding an id that was not there changes what that id stands for and nothing else.
pub proof fn lemma_mapping_push(ms: Seq<Mapping>, m: Mapping)
    requires
        distinct_rids(ms),
        mapping_pos(ms, m.rid) is None,
    ensures
        distinct_rids(ms.push(m)),
        mapping_pos(ms.push(m), m.rid) == Some(ms.len() as int),
        forall|r: ResourceId| r != m.rid ==> mapping_pos(ms.push(m), r) == mapping_pos(ms, r),
{
    let u = ms.push(m);
    lemma_mapping_pos(ms, m.rid);
    assert forall|a: int, b: int| 0 <= a < u.len() && 0 <= b < u.len() && a != b implies (
    #[trigger] u[a]).rid != (#[trigger] u[b]).rid by {
        if a < ms.len() && b < ms.len() {
            assert(ms[a].rid != ms[b].rid);
        } else if a < ms.len() {
            assert(ms[a].rid != m.rid);
        } else {
            assert(ms[b].rid != m.rid);
        }
    }
    assert(u.drop_last() =~= ms);
}

/// Taking an id away leaves it standing for nothing, and the others where they were.
pub proof fn lemma_mapping_remove(ms: Seq<Mapping>, i: int)
    requires
        distinct_rids(ms),
        0 <= i < ms.len(),
    ensures
        distinct_rids(ms.remove(i)),
        mapping_pos(ms.remove(i), ms[i].rid) is None,
        forall|r: ResourceId|
            r != ms[i].rid ==> mapping_of(ms.remove(i), r) == mapping_of(ms, r) && (mapping_pos(
                ms.remove(i),
                r,
            ) matches Some(k) ==> mapping_pos(ms, r) is Some && ms[mapping_pos(ms, r)->0]
                == ms.remove(i)[k]),
        forall|k: int| 0 <= k < ms.remove(i).len() ==> ms.contains(#[trigger] ms.remove(i)[k]),
{
    let u = ms.remove(i);
    assert forall|k: int| 0 <= k < u.len() implies ms.contains(#[trigger] u[k]) by {
        let j = if k < i {
            k
        } else {
            k + 1
        };
        assert(u[k] == ms[j]);
    }
    assert forall|a: int, b: int| 0 <= a < u.len() && 0 <= b < u.len() && a != b implies (
    #[trigger] u[a]).rid != (#[trigger] u[b]).rid by {
        let x = if a < i {
            a
        } else {
            a + 1
        };
        let y = if b < i {
            b
        } else {
            b + 1
        };
        assert(u[a] == ms[x]);
        assert(u[b] == ms[y]);
        assert(ms[x].rid != ms[y].rid);
    }
    let rid = ms[i].rid;
    lemma_mapping_pos(u, rid);
    if let Some(k) = mapping_pos(u, rid) {
        let j = if k < i {
            k
        } else {
            k + 1
        };
        assert(u[k] == ms[j]);
        assert(ms[j].rid != ms[i].rid);
    }
    assert forall|r: ResourceId| r != rid implies mapping_of(u, r) == mapping_of(ms, r) && (
    mapping_pos(u, r) matches Some(k) ==> mapping_pos(ms, r) is Some && ms[mapping_pos(ms, r)->0]
        == u[k]) by {
        lemma_mapping_pos(ms, r);
        lemma_mapping_pos(u, r);
        match mapping_pos(ms, r) {
            Some(j) => {
                let k = if j < i {
                    j
                } else {
                    j - 1
                };
                assert(u[k] == ms[j]);
                lemma_mapping_pos_at(u, k);
            },
            None => {
                if let Some(k) = mapping_pos(u, r) {
                    let j = if k < i {
                        k
                    } else {
                        k + 1
                    };
                    assert(u[k] == ms[j]);
                }
            },
        }
    }
}

/// The id `r` stands for the node `n` among `ms`, and the broker gave it (`local`) or not.
pub open spec fn maps_to_seq(ms: Seq<Mapping>, r: ResourceId, n: int, local: bool) -> bool {
    &&& mapping_pos(ms, r) matches Some(i)
    &&& ms[i].res == n
    &&& ms[i].local == local
}

/// Among distinct ids, the id at a position stands for what the position says.
pub proof fn lemma_maps_to_at(ms: Seq<Mapping>, j: int)
    requires
        distinct_rids(ms),
        0 <= j < ms.len(),
    ensures
        maps_to_seq(ms, ms[j].rid, ms[j].res as int, ms[j].local),
{
    lemma_mapping_pos_at(ms, j);
}

/// An id stands for what it stood for, and the new id for what it was added for.
pub proof fn lemma_maps_to_push(ms: Seq<Mapping>, m: Mapping, r: ResourceId, n: int, local: bool)
    requires
        distinct_rids(ms),
        mapping_pos(ms, m.rid) is None,
    ensures
        maps_to_seq(ms, r, n, local) ==> maps_to_seq(ms.push(m), r, n, local),
        maps_to_seq(ms.push(m), m.rid, m.res as int, m.local),
{
    lemma_mapping_push(ms, m);
    lemma_mapping_pos(ms, r);
    lemma_maps_to_at(ms.push(m), ms.len() as int);
    if maps_to_seq(ms, r, n, local) {
        let i = mapping_pos(ms, r)->0;
        assert(ms.push(m)[i] == ms[i]);
        lemma_maps_to_at(ms.push(m), i);
    }
}

/// An id that was not taken away stands for what it stood for.
pub proof fn lemma_maps_to_remove(ms: Seq<Mapping>, i: int, r: ResourceId, n: int, local: bool)
    requires
        distinct_rids(ms),
        0 <= i < ms.len(),
        maps_to_seq(ms, r, n, local),
        r != ms[i].rid,
    ensures
        maps_to_seq(ms.remove(i), r, n, local),
{
    lemma_mapping_remove(ms, i);
    lemma_mapping_pos(ms, r);
    let j = mapping_pos(ms, r)->0;
    let k = if j < i {
        j
    } else {
        j - 1
    };
    assert(ms.remove(i)[k] == ms[j]);
    lemma_maps_to_at(ms.remove(i), k);
}

/// The position of `rid` among `ms`, if it is there.
pub fn find_mapping_pos(ms: &Vec<Mapping>, rid: ResourceId) -> (r: Option<usize>)
    ensures
        match r {
            Some(i) => mapping_pos(ms@, rid) == Some(i as int) && i < ms@.len() && ms@[i as int].rid
                == rid,
            None => mapping_pos(ms@, rid) is None,
        },
{
    let mut i: usize = ms.len();
    assert(ms@.take(i as int) =~= ms@);
    while i > 0
        invariant
            i <= ms.len(),
            mapping_pos(ms@, rid) == mapping_pos(ms@.take(i as int), rid),
        decreases i,
    {
        i = i - 1;
        proof {
            assert(ms@.take(i + 1).drop_last() =~= ms@.take(i as int));
            assert(ms@.take(i + 1).last() == ms@[i as int]);
        }
        if ms[i].rid == rid {
            return Some(i);
        }
    }
    assert(ms@.take(0).len() == 0);
    None
}

/// The resource that `rid` stands for among `ms`, if it stands for one.
pub fn find_mapping(ms: &Vec<Mapping>, rid: ResourceId) -> (r: Option<usize>)
    ensures
        r == mapping_of(ms@, rid),
{
    let mut i: usize = ms.len();
    assert(ms@.take(i as int) =~= ms@);
    while i > 0
        invariant
            i <= ms.len(),
            mapping_pos(ms@, rid) == mapping_pos(ms@.take(i as int), rid),
        decreases i,
    {
        i = i - 1;
        proof {
            assert(ms@.take(i + 1).drop_last() =~= ms@.take(i as int));
            assert(ms@.take(i + 1).last() == ms@[i as int]);
        }
        if ms[i].rid == rid {
            return Some(ms[i].res);
        }
    }
    assert(ms@.take(0).len() == 0);
    None
}

impl Face {
    /// A face that has just attached: nothing is mapped on it.
    pub(crate) fn new(id: usize, whatami: WhatAmI) -> (f: Face)
        ensures
            f.id == id,
            f.whatami == whatami,
            f.attached,
            f.mappings@.len() == 0,
            f.next_local_id == 1,
    {
        Face {
            id,
            whatami,
            attached: true,
            mappings: Vec::new(),
            next_local_id: 1,
        }
    }
}

} // verus!
