//! The values that messages and routing tables are made of.

use vstd::prelude::*;

verus! {

/// An unsigned integer as the wire carries it.
pub type ZInt = u64;

/// The numeric id of a resource on a face.
pub type ResourceId = ZInt;

/// The id that stands for no resource: a key relative to it is a full name.
pub const NO_RESOURCE_ID: ResourceId = 0;

/// The role of a participant.
#[derive(Clone, Copy, Debug, PartialEq, Eq, Structural)]
pub enum WhatAmI {
    Client,
    Peer,
    Broker,
    Router,
}

/// The greatest length of the id of a peer, in bytes.
pub const PEER_ID_MAX_LEN: usize = 16;

/// The id of a peer: up to 16 bytes.
#[derive(Clone, Debug, PartialEq, Eq)]
pub struct PeerId {
    pub id: Vec<u8>,
}

impl View for PeerId {
    type V = Seq<u8>;

    open spec fn view(&self) -> Seq<u8> {
        self.id@
    }
}

impl DeepView for PeerId {
    type V = Seq<u8>;

    open spec fn deep_view(&self) -> Seq<u8> {
        self.id@
    }
}

impl PeerId {
    /// A copy of the id.
    pub fn duplicate(&self) -> (p: PeerId)
        ensures
            p@ == self@,
    {
        PeerId { id: vstd::slice::slice_to_vec(self.id.as_slice()) }
    }
}

/// A property of a message: a numeric key and its value.
#[derive(Clone, Debug, PartialEq, Eq)]
pub struct Property {
    pub key: ZInt,
    pub value: Vec<u8>,
}

/// What a [`Property`] holds.
pub struct PropertyView {
    pub key: ZInt,
    pub value: Seq<u8>,
}

impl View for Property {
    type V = PropertyView;

    open spec fn view(&self) -> PropertyView {
        PropertyView { key: self.key, value: self.value@ }
    }
}

impl DeepView for Property {
    type V = PropertyView;

    open spec fn deep_view(&self) -> PropertyView {
        self@
    }
}

/// A handle to a resource: its name, its id on a face, or an id and what
/// follows the name that the id stands for.
#[derive(Clone, Debug, PartialEq, Eq)]
pub enum ResKey {
    RName(String),
    RId(ResourceId),
    RIdWithSuffix(ResourceId, String),
}

/// What a [`ResKey`] holds.
pub enum ResKeyView {
    RName(Seq<char>),
    RId(ResourceId),
    RIdWithSuffix(ResourceId, Seq<char>),
}

impl View for ResKey {
    type V = ResKeyView;

    open spec fn view(&self) -> ResKeyView {
        match self {
            ResKey::RName(name) => ResKeyView::RName(name@),
            ResKey::RId(id) => ResKeyView::RId(*id),
            ResKey::RIdWithSuffix(id, suffix) => ResKeyView::RIdWithSuffix(*id, suffix@),
        }
    }
}

impl DeepView for ResKey {
    type V = ResKeyView;

    open spec fn deep_view(&self) -> ResKeyView {
        self@
    }
}

impl ResKeyView {
    /// The id that the key is relative to; none for a full name.
    pub open spec fn rid(self) -> ResourceId {
        match self {
            ResKeyView::RName(_) => NO_RESOURCE_ID,
            ResKeyView::RId(id) => id,
            ResKeyView::RIdWithSuffix(id, _) => id,
        }
    }

    /// What follows the name that the id stands for.
    pub open spec fn suffix(self) -> Seq<char> {
        match self {
            ResKeyView::RName(name) => name,
            ResKeyView::RId(_) => Seq::empty(),
            ResKeyView::RIdWithSuffix(_, suffix) => suffix,
        }
    }

    /// The key made of an id and a suffix: a name where there is no id, the
    /// id alone where there is no suffix.
    pub open spec fn from_parts(rid: ResourceId, suffix: Seq<char>) -> ResKeyView {
        if rid == NO_RESOURCE_ID {
            ResKeyView::RName(suffix)
        } else if suffix.len() == 0 {
            ResKeyView::RId(rid)
        } else {
            ResKeyView::RIdWithSuffix(rid, suffix)
        }
    }

    /// The wire can carry the key as it is: a key with a suffix has an id.
    pub open spec fn wf(self) -> bool {
        self matches ResKeyView::RIdWithSuffix(id, _) ==> id != NO_RESOURCE_ID
    }
}

impl ResKey {
    /// The id that the key is relative to; none for a full name.
    pub fn rid(&self) -> (r: ResourceId)
        ensures
            r == self@.rid(),
    {
        match self {
            ResKey::RName(_) => NO_RESOURCE_ID,
            ResKey::RId(id) => *id,
            ResKey::RIdWithSuffix(id, _) => *id,
        }
    }

    /// A copy of the key.
    pub fn duplicate(&self) -> (k: ResKey)
        ensures
            k@ == self@,
    {
        match self {
            ResKey::RName(name) => ResKey::RName(name.clone()),
            ResKey::RId(id) => ResKey::RId(*id),
            ResKey::RIdWithSuffix(id, suffix) => ResKey::RIdWithSuffix(*id, suffix.clone()),
        }
    }

    /// What follows the name that the id of the key stands for.
    pub fn suffix(&self) -> (r: &str)
        ensures
            r@ == self@.suffix(),
    {
        match self {
            ResKey::RName(name) => name.as_str(),
            ResKey::RId(_) => {
                proof {
                    reveal_strlit("");
                }
                let e = "";
                assert(e@ =~= Seq::<char>::empty());
                e
            },
            ResKey::RIdWithSuffix(_, suffix) => suffix.as_str(),
        }
    }

    /// Whether the key is an id alone.
    pub fn is_numeric(&self) -> (r: bool)
        ensures
            r == (self@ is RId),
    {
        match self {
            ResKey::RId(_) => true,
            _ => false,
        }
    }

    /// The key made of an id and a suffix: a name where there is no id, the
    /// id alone where there is no suffix.
    pub fn from_parts(rid: ResourceId, suffix: String) -> (k: ResKey)
        ensures
            k@ == ResKeyView::from_parts(rid, suffix@),
            k@.wf(),
    {
        if rid == NO_RESOURCE_ID {
            ResKey::RName(suffix)
        } else if suffix.as_str().is_empty() {
            ResKey::RId(rid)
        } else {
            ResKey::RIdWithSuffix(rid, suffix)
        }
    }
}

/// The bytes of a vector that is there or not.
pub open spec fn opt_bytes_view(o: Option<Vec<u8>>) -> Option<Seq<u8>> {
    match o {
        Some(v) => Some(v@),
        None => None,
    }
}

/// The universally unique identifiers of the `uuid` crate.
#[verifier::external_type_specification]
#[verifier::external_body]
pub struct ExUuid(uuid::Uuid);

/// The 16 bytes that a `uuid::Uuid` holds.
pub uninterp spec fn uuid_bytes(id: uuid::Uuid) -> Seq<u8>;

/// `uuid::Builder::from_bytes` and `build`: the identifier that holds the 16 bytes given.
#[verifier::external_body]
fn uuid_from_bytes(bytes: [u8; 16]) -> (id: uuid::Uuid)
    ensures
        uuid_bytes(id) == bytes@,
{
    uuid::Builder::from_bytes(bytes).build()
}

/// `uuid::Uuid::as_bytes`: the 16 bytes that the identifier holds.
#[verifier::external_body]
fn uuid_to_bytes(id: &uuid::Uuid) -> (bytes: [u8; 16])
    ensures
        bytes@ == uuid_bytes(*id),
{
    *id.as_bytes()
}

/// `Clone` of `uuid::Uuid`, which is `Copy`: the copy holds the same bytes.
pub assume_specification[ <uuid::Uuid as Clone>::clone ](id: &uuid::Uuid) -> (r: uuid::Uuid)
    ensures
        uuid_bytes(r) == uuid_bytes(*id),
;

/// A time, and the identifier of the clock that gave it.
#[derive(Clone, Debug, PartialEq, Eq)]
pub struct TimeStamp {
    pub time: ZInt,
    pub id: uuid::Uuid,
}

/// What a [`TimeStamp`] holds.
pub struct TimeStampView {
    pub time: ZInt,
    pub id: Seq<u8>,
}

impl View for TimeStamp {
    type V = TimeStampView;

    open spec fn view(&self) -> TimeStampView {
        TimeStampView { time: self.time, id: uuid_bytes(self.id) }
    }
}

impl DeepView for TimeStamp {
    type V = TimeStampView;

    open spec fn deep_view(&self) -> TimeStampView {
        self@
    }
}

impl TimeStamp {
    /// The time stamp with the time `time` and the identifier whose bytes are `id`.
    pub fn new(time: ZInt, id: [u8; 16]) -> (t: TimeStamp)
        ensures
            t@ == (TimeStampView { time, id: id@ }),
    {
        TimeStamp { time, id: uuid_from_bytes(id) }
    }

    /// The 16 bytes of the identifier.
    pub fn id_bytes(&self) -> (bytes: [u8; 16])
        ensures
            bytes@ == self@.id,
    {
        uuid_to_bytes(&self.id)
    }
}

} // verus!
