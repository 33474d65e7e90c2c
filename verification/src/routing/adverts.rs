//! What a face is told when another face declares something: the key that
//! is used for it, and the id that the broker gives the face for that key.
//!
//! The key is made on the part of the name that is free of wildcards. A face
//! that has an id for that part is told with that id. A face that has none
//! is given the first free id, told of it, and then told with it. Where the
//! name starts with a wildcard, or no id is free, the face is told by the
//! full name.

use vstd::prelude::*;
use crate::proto::primitives::CallView;
use crate::routing::face::{mapping_of, Face};
use crate::routing::names::spec_has_wild;
use crate::routing::outbound::Outbound;
use crate::routing::resource::{Context, Resource};
use crate::types::{ResKeyView, ResourceId, NO_RESOURCE_ID};

verus! {

/// The id that a face has for a resource, as its context there says: the
/// one that the broker gave it, else the one that it gave itself, unless
/// that is the id 0, which no key can use.
pub open spec fn known_rid(c: Context) -> Option<ResourceId> {
    if c.local_rid is Some {
        c.local_rid
    } else if c.remote_rid is Some && c.remote_rid != Some(NO_RESOURCE_ID) {
        c.remote_rid
    } else {
        None
    }
}

/// The part free of wildcards that is found from the node `x` upwards,
/// where `acc` follows the name of `x`: the node `x` itself if its name
/// holds no wildcard, with `acc`; else what is found from its parent, where
/// the chunk of `x` and `acc` follow. At the root there is no such part.
pub open(crate) spec fn free_part_from(rs: Seq<Resource>, x: int, acc: Seq<char>) -> (
    Option<usize>,
    Seq<char>,
)
    decreases x,
{
    if x <= 0 || x >= rs.len() {
        (None, acc)
    } else if !spec_has_wild(rs[x].name@) {
        (Some(x as usize), acc)
    } else {
        match rs[x].parent {
            Some(p) => if p < x {
                free_part_from(rs, p as int, rs[x].suffix@ + acc)
            } else {
                (None, acc)
            },
            None => (None, acc),
        }
    }
}

/// The part of the name of the node `n` that is free of wildcards: the
/// deepest resource at or above `n`, other than the root, whose name holds
/// no wildcard, and what follows its name in the name of `n`.
pub open(crate) spec fn free_part(rs: Seq<Resource>, n: int) -> (Option<usize>, Seq<char>) {
    free_part_from(rs, n, Seq::empty())
}

/// The part free of wildcards is the same in tables whose nodes have the
/// same names, parents and chunks.
pub(crate) proof fn lemma_free_part_frame(a: Seq<Resource>, b: Seq<Resource>, x: int, acc: Seq<char>)
    requires
        0 <= x < a.len() <= b.len(),
        forall|m: int|
            0 <= m < a.len() ==> (#[trigger] b[m]).name@ == a[m].name@ && b[m].parent == a[m].parent
                && b[m].suffix@ == a[m].suffix@,
    ensures
        free_part_from(b, x, acc) == free_part_from(a, x, acc),
    decreases x,
{
    if x > 0 && spec_has_wild(a[x].name@) {
        assert(b[x].name@ == a[x].name@);
        match a[x].parent {
            Some(p) => {
                if p < x {
                    lemma_free_part_frame(a, b, p as int, a[x].suffix@ + acc);
                }
            },
            None => {},
        }
    }
}

/// The part free of wildcards is a node at or above the node from which it
/// is found, and not the root.
pub(crate) proof fn lemma_free_part_in(rs: Seq<Resource>, x: int, acc: Seq<char>)
    requires
        x <= usize::MAX,
    ensures
        free_part_from(rs, x, acc).0 matches Some(q) ==> 0 < q <= x && q < rs.len(),
    decreases x,
{
    if 0 < x < rs.len() && spec_has_wild(rs[x].name@) {
        match rs[x].parent {
            Some(p) => {
                if p < x {
                    lemma_free_part_in(rs, p as int, rs[x].suffix@ + acc);
                }
            },
            None => {},
        }
    }
}

/// Where the broker starts to look for an id to give on the face: behind
/// the greatest id that it has given on that face, and never at the id 0.
pub open(crate) spec fn first_id(face: Face) -> ResourceId {
    if face.next_local_id == NO_RESOURCE_ID {
        1
    } else {
        face.next_local_id
    }
}

/// Where the broker starts to look after it has given the id `rid`: behind
/// that id, or at it where there is nothing behind it.
pub open spec fn after_id(rid: ResourceId) -> ResourceId {
    if rid < u64::MAX {
        (rid + 1) as ResourceId
    } else {
        rid
    }
}

/// The id `rid` is the first, from where the broker starts to look, that
/// is given to nothing on the face.
pub open(crate) spec fn is_fresh(face: Face, rid: ResourceId) -> bool {
    &&& first_id(face) <= rid
    &&& mapping_of(face.mappings@, rid) is None
    &&& forall|x: ResourceId|
        first_id(face) <= x < rid ==> (#[trigger] mapping_of(face.mappings@, x)) is Some
}

/// The id that the broker gives next on the face: the first free one from
/// where it starts to look; none where every id from there on is given.
pub open(crate) spec fn fresh_id(face: Face) -> Option<ResourceId> {
    if exists|rid: ResourceId| is_fresh(face, rid) {
        Some(choose|rid: ResourceId| is_fresh(face, rid))
    } else {
        None
    }
}

/// There is one first free id at most.
pub(crate) proof fn lemma_fresh(face: Face, rid: ResourceId)
    requires
        is_fresh(face, rid),
    ensures
        fresh_id(face) == Some(rid),
{
    let other = choose|x: ResourceId| is_fresh(face, x);
    if other < rid {
        assert(mapping_of(face.mappings@, other) is Some);
    }
    if rid < other {
        assert(mapping_of(face.mappings@, rid) is Some);
    }
}

/// The id that the broker gives the face when it tells it of something on
/// a resource whose part free of wildcards is `part`, where `c` is what the
/// face has declared on that part: the next id, if there is such a part and
/// the face has no id for it.
pub open(crate) spec fn new_id(face: Face, c: Context, part: (Option<usize>, Seq<char>)) -> Option<
    ResourceId,
> {
    if part.0 is Some && known_rid(c) is None {
        fresh_id(face)
    } else {
        None
    }
}

/// The key with which the face is told of something on the resource named
/// `name`, whose part free of wildcards is `part`: the id that the face has
/// for that part, or else the id that the broker gives it, with what
/// follows; the full name where there is no such part or no id to give.
pub open(crate) spec fn advert_key(
    face: Face,
    c: Context,
    part: (Option<usize>, Seq<char>),
    name: Seq<char>,
) -> ResKeyView {
    if part.0 is None {
        ResKeyView::RName(name)
    } else {
        match known_rid(c) {
            Some(r) => ResKeyView::from_parts(r, part.1),
            None => match fresh_id(face) {
                Some(r) => ResKeyView::from_parts(r, part.1),
                None => ResKeyView::RName(name),
            },
        }
    }
}

/// The calls that the face `g` gets, in their order.
pub open spec fn calls_to(out: Seq<Outbound>, g: usize) -> Seq<CallView>
    decreases out.len(),
{
    if out.len() == 0 {
        Seq::empty()
    } else if out.last().face == g {
        calls_to(out.drop_last(), g).push(out.last().call@)
    } else {
        calls_to(out.drop_last(), g)
    }
}

/// One more call is one more call for its face, and none for the others.
pub proof fn lemma_calls_to_push(out: Seq<Outbound>, o: Outbound, g: usize)
    ensures
        calls_to(out.push(o), g) == if o.face == g {
            calls_to(out, g).push(o.call@)
        } else {
            calls_to(out, g)
        },
{
    assert(out.push(o).drop_last() =~= out);
    assert(out.push(o).last() == o);
}

} // verus!
