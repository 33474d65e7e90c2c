//! Declarations: what a participant announces and takes back.

use vstd::prelude::*;
use crate::types::{ResKey, ResKeyView, ResourceId, ZInt};

verus! {

/// The ids of the declarations.
pub const RESOURCE: u8 = 0x01;

pub const PUBLISHER: u8 = 0x02;

pub const SUBSCRIBER: u8 = 0x03;

pub const STORAGE: u8 = 0x04;

pub const EVAL: u8 = 0x05;

pub const FORGET_RESOURCE: u8 = 0x11;

pub const FORGET_PUBLISHER: u8 = 0x12;

pub const FORGET_SUBSCRIBER: u8 = 0x13;

pub const FORGET_STORAGE: u8 = 0x14;

pub const FORGET_EVAL: u8 = 0x15;

/// The numbers of the subscription modes.
pub const MODE_PUSH: ZInt = 0x00;

pub const MODE_PULL: ZInt = 0x01;

pub const MODE_PERIODIC_PUSH: ZInt = 0x02;

pub const MODE_PERIODIC_PULL: ZInt = 0x03;

/// How a subscriber gets its data.
#[derive(Clone, Copy, Debug, PartialEq, Eq, Structural)]
pub enum SubMode {
    Push,
    Pull,
    PeriodicPush { origin: ZInt, period: ZInt, duration: ZInt },
    PeriodicPull { origin: ZInt, period: ZInt, duration: ZInt },
}

impl View for SubMode {
    type V = SubMode;

    open spec fn view(&self) -> SubMode {
        *self
    }
}

impl DeepView for SubMode {
    type V = SubMode;

    open spec fn deep_view(&self) -> SubMode {
        *self
    }
}

/// Whether a subscriber wants every sample.
#[derive(Clone, Copy, Debug, PartialEq, Eq, Structural)]
pub enum Reliability {
    BestEffort,
    Reliable,
}

/// The times at which a periodic subscriber is served.
#[derive(Clone, Copy, Debug, PartialEq, Eq, Structural)]
pub struct Period {
    pub origin: ZInt,
    pub period: ZInt,
    pub duration: ZInt,
}

/// What a subscriber asks for.
#[derive(Clone, Copy, Debug, PartialEq, Eq)]
pub struct SubInfo {
    pub reliability: Reliability,
    pub mode: SubMode,
    pub period: Option<Period>,
}

impl SubInfo {
    /// A reliable subscription in the given mode, with no period of its own.
    pub fn with_mode(mode: SubMode) -> (info: SubInfo)
        ensures
            info == (SubInfo { reliability: Reliability::Reliable, mode, period: None }),
    {
        SubInfo { reliability: Reliability::Reliable, mode, period: None }
    }
}

/// One declaration of a DECLARE message.
#[derive(Clone, Debug, PartialEq, Eq)]
pub enum Declaration {
    Resource { rid: ResourceId, key: ResKey },
    ForgetResource { rid: ResourceId },
    Publisher { key: ResKey },
    ForgetPublisher { key: ResKey },
    Subscriber { key: ResKey, mode: SubMode },
    ForgetSubscriber { key: ResKey },
    Storage { key: ResKey },
    ForgetStorage { key: ResKey },
    Eval { key: ResKey },
    ForgetEval { key: ResKey },
}

/// What a [`Declaration`] holds.
pub enum DeclarationView {
    Resource { rid: ResourceId, key: ResKeyView },
    ForgetResource { rid: ResourceId },
    Publisher { key: ResKeyView },
    ForgetPublisher { key: ResKeyView },
    Subscriber { key: ResKeyView, mode: SubMode },
    ForgetSubscriber { key: ResKeyView },
    Storage { key: ResKeyView },
    ForgetStorage { key: ResKeyView },
    Eval { key: ResKeyView },
    ForgetEval { key: ResKeyView },
}

impl View for Declaration {
    type V = DeclarationView;

    open spec fn view(&self) -> DeclarationView {
        match self {
            Declaration::Resource { rid, key } => DeclarationView::Resource { rid: *rid, key: key@ },
            Declaration::ForgetResource { rid } => DeclarationView::ForgetResource { rid: *rid },
            Declaration::Publisher { key } => DeclarationView::Publisher { key: key@ },
            Declaration::ForgetPublisher { key } => DeclarationView::ForgetPublisher { key: key@ },
            Declaration::Subscriber { key, mode } => DeclarationView::Subscriber {
                key: key@,
                mode: *mode,
            },
            Declaration::ForgetSubscriber { key } => DeclarationView::ForgetSubscriber { key: key@ },
            Declaration::Storage { key } => DeclarationView::Storage { key: key@ },
            Declaration::ForgetStorage { key } => DeclarationView::ForgetStorage { key: key@ },
            Declaration::Eval { key } => DeclarationView::Eval { key: key@ },
            Declaration::ForgetEval { key } => DeclarationView::ForgetEval { key: key@ },
        }
    }
}

impl DeepView for Declaration {
    type V = DeclarationView;

    open spec fn deep_view(&self) -> DeclarationView {
        self@
    }
}

impl DeclarationView {
    /// The key of the declaration, if it has one.
    pub open spec fn key(self) -> Option<ResKeyView> {
        match self {
            DeclarationView::Resource { key, .. } => Some(key),
            DeclarationView::ForgetResource { .. } => None,
            DeclarationView::Publisher { key } => Some(key),
            DeclarationView::ForgetPublisher { key } => Some(key),
            DeclarationView::Subscriber { key, .. } => Some(key),
            DeclarationView::ForgetSubscriber { key } => Some(key),
            DeclarationView::Storage { key } => Some(key),
            DeclarationView::ForgetStorage { key } => Some(key),
            DeclarationView::Eval { key } => Some(key),
            DeclarationView::ForgetEval { key } => Some(key),
        }
    }
}

} // verus!
