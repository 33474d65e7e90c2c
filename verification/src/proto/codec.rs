//! The wire format of messages, as functions on sequences of bytes, and the
//! proof that decoding what was encoded gives it back.
//!
//! Encoders map what a value holds to bytes. Decoders read at a position and
//! give what they found and the position behind it. A message is its
//! decorators, each with a header of its own, and then its body.

use vstd::prelude::*;
use vstd::utf8::*;
use crate::io::wire::{
    dec_bytes, dec_string, dec_strings, dec_u8, dec_zint, enc_bytes, enc_string, enc_strings,
    enc_u8, enc_zint, has_at, lemma_bytes_roundtrip, lemma_has_at_bytes, lemma_has_at_split, lemma_string_roundtrip,
    lemma_strings_roundtrip, lemma_zint_roundtrip, strings_fit, DecodeError, Decoded,
};
use crate::proto::decl::{
    DeclarationView, SubMode, EVAL, FORGET_EVAL, FORGET_PUBLISHER, FORGET_RESOURCE,
    FORGET_STORAGE, FORGET_SUBSCRIBER, MODE_PERIODIC_PULL, MODE_PERIODIC_PUSH, MODE_PULL,
    MODE_PUSH, PUBLISHER, RESOURCE, STORAGE, SUBSCRIBER,
};
use crate::proto::flag::{lemma_header, spec_has_flag, spec_header, spec_low_flags, spec_mid};
use crate::io::wire::lemma_dec_zint_pos;
use crate::proto::msg::{
    BodyView, MessageKind, MessageView, QueryConsolidation, QueryTarget, ReplyContextView,
    ReplySource, Target, ACCEPT, ACK_NACK, CLOSE, CONDUIT, CONSOLIDATION_INCREMENTAL,
    CONSOLIDATION_LAST_BROKER, CONSOLIDATION_NONE, DATA, DECLARE, FRAGMENT, HELLO, KEEP_ALIVE,
    OPEN, PING_PONG, PROPERTIES, PULL, QUERY, REPLY, SCOUT, SYNC, TARGET_ALL,
    TARGET_BEST_MATCHING, TARGET_COMPLETE, TARGET_NONE,
};
use crate::types::{PropertyView, ResKeyView, TimeStampView, NO_RESOURCE_ID, PEER_ID_MAX_LEN};

verus! {

/// The bytes are few enough for their number to be a zint.
pub open spec fn bytes_fit(b: Seq<u8>) -> bool {
    b.len() <= u64::MAX
}

/// The string is short enough for the number of its bytes to be a zint.
pub open spec fn string_fit(c: Seq<char>) -> bool {
    encode_utf8(c).len() <= u64::MAX
}

// ----- values that may be absent

/// A zint that is there or not.
pub open spec fn enc_opt_zint(o: Option<u64>) -> Seq<u8> {
    match o {
        Some(v) => enc_zint(v as nat),
        None => Seq::empty(),
    }
}

/// The zint at `pos`, if one is `present`.
pub open spec fn dec_opt_zint(s: Seq<u8>, pos: int, present: bool) -> Decoded<Option<u64>> {
    if present {
        match dec_zint(s, pos) {
            Ok((v, p)) => Ok((Some(v), p)),
            Err(e) => Err(e),
        }
    } else {
        Ok((None, pos))
    }
}

/// Bytes that are there or not.
pub open spec fn enc_opt_bytes(o: Option<Seq<u8>>) -> Seq<u8> {
    match o {
        Some(v) => enc_bytes(v),
        None => Seq::empty(),
    }
}

/// The bytes at `pos`, if some are `present`.
pub open spec fn dec_opt_bytes(s: Seq<u8>, pos: int, present: bool) -> Decoded<Option<Seq<u8>>> {
    if present {
        match dec_bytes(s, pos) {
            Ok((v, p)) => Ok((Some(v), p)),
            Err(e) => Err(e),
        }
    } else {
        Ok((None, pos))
    }
}

/// The id of a peer is not longer than such an id may be.
pub open spec fn peerid_fit(b: Seq<u8>) -> bool {
    b.len() <= PEER_ID_MAX_LEN
}

/// The id of a peer at `pos`: bytes, and not more of them than the id of a
/// peer may have.
pub open spec fn dec_peerid(s: Seq<u8>, pos: int) -> Decoded<Seq<u8>> {
    match dec_bytes(s, pos) {
        Ok((b, p)) => if peerid_fit(b) {
            Ok((b, p))
        } else {
            Err(DecodeError::PeerIdTooLong)
        },
        Err(e) => Err(e),
    }
}

/// The id of a peer at `pos`, if one is `present`.
pub open spec fn dec_opt_peerid(s: Seq<u8>, pos: int, present: bool) -> Decoded<Option<Seq<u8>>> {
    if present {
        match dec_peerid(s, pos) {
            Ok((v, p)) => Ok((Some(v), p)),
            Err(e) => Err(e),
        }
    } else {
        Ok((None, pos))
    }
}

pub proof fn lemma_peerid_roundtrip(s: Seq<u8>, pos: int, b: Seq<u8>)
    requires
        has_at(s, pos, enc_bytes(b)),
        peerid_fit(b),
    ensures
        dec_peerid(s, pos) == Ok::<(Seq<u8>, int), DecodeError>((b, pos + enc_bytes(b).len())),
{
    lemma_bytes_roundtrip(s, pos, b);
}

pub proof fn lemma_opt_peerid_roundtrip(s: Seq<u8>, pos: int, o: Option<Seq<u8>>)
    requires
        has_at(s, pos, enc_opt_bytes(o)),
        o matches Some(b) ==> peerid_fit(b),
    ensures
        dec_opt_peerid(s, pos, o is Some) == Ok::<(Option<Seq<u8>>, int), DecodeError>(
            (o, pos + enc_opt_bytes(o).len()),
        ),
{
    if let Some(v) = o {
        lemma_peerid_roundtrip(s, pos, v);
    }
}

/// A list of strings that is there or not.
pub open spec fn enc_opt_strings(o: Option<Seq<Seq<char>>>) -> Seq<u8> {
    match o {
        Some(v) => enc_strings(v),
        None => Seq::empty(),
    }
}

/// The list of strings at `pos`, if one is `present`.
pub open spec fn dec_opt_strings(s: Seq<u8>, pos: int, present: bool) -> Decoded<
    Option<Seq<Seq<char>>>,
> {
    if present {
        match dec_strings(s, pos) {
            Ok((v, p)) => Ok((Some(v), p)),
            Err(e) => Err(e),
        }
    } else {
        Ok((None, pos))
    }
}

pub proof fn lemma_opt_zint_roundtrip(s: Seq<u8>, pos: int, o: Option<u64>)
    requires
        has_at(s, pos, enc_opt_zint(o)),
    ensures
        dec_opt_zint(s, pos, o is Some) == Ok::<(Option<u64>, int), DecodeError>(
            (o, pos + enc_opt_zint(o).len()),
        ),
{
    if let Some(v) = o {
        lemma_zint_roundtrip(s, pos, v);
    }
}

pub proof fn lemma_opt_bytes_roundtrip(s: Seq<u8>, pos: int, o: Option<Seq<u8>>)
    requires
        has_at(s, pos, enc_opt_bytes(o)),
        o matches Some(b) ==> bytes_fit(b),
    ensures
        dec_opt_bytes(s, pos, o is Some) == Ok::<(Option<Seq<u8>>, int), DecodeError>(
            (o, pos + enc_opt_bytes(o).len()),
        ),
{
    if let Some(v) = o {
        lemma_bytes_roundtrip(s, pos, v);
    }
}

pub proof fn lemma_opt_strings_roundtrip(s: Seq<u8>, pos: int, o: Option<Seq<Seq<char>>>)
    requires
        has_at(s, pos, enc_opt_strings(o)),
        o matches Some(l) ==> l.len() <= u64::MAX && strings_fit(l),
    ensures
        dec_opt_strings(s, pos, o is Some) == Ok::<(Option<Seq<Seq<char>>>, int), DecodeError>(
            (o, pos + enc_opt_strings(o).len()),
        ),
{
    if let Some(v) = o {
        lemma_strings_roundtrip(s, pos, v);
    }
}

// ----- properties

/// A property: its key as a zint, then its value as bytes.
pub open spec fn enc_property(p: PropertyView) -> Seq<u8> {
    enc_zint(p.key as nat) + enc_bytes(p.value)
}

/// The property at `pos`.
pub open spec fn dec_property(s: Seq<u8>, pos: int) -> Decoded<PropertyView> {
    match dec_zint(s, pos) {
        Ok((key, p)) => match dec_bytes(s, p) {
            Ok((value, q)) => Ok((PropertyView { key, value }, q)),
            Err(e) => Err(e),
        },
        Err(e) => Err(e),
    }
}

/// The properties of a list, one behind the other.
pub open spec fn enc_properties_items(l: Seq<PropertyView>) -> Seq<u8>
    decreases l.len(),
{
    if l.len() == 0 {
        Seq::empty()
    } else {
        enc_property(l[0]) + enc_properties_items(l.drop_first())
    }
}

/// `n` properties from `pos` on.
pub open spec fn dec_properties_items(s: Seq<u8>, pos: int, n: nat) -> Decoded<Seq<PropertyView>>
    decreases n,
{
    if n == 0 {
        Ok((Seq::empty(), pos))
    } else {
        match dec_property(s, pos) {
            Ok((x, p)) => match dec_properties_items(s, p, (n - 1) as nat) {
                Ok((rest, q)) => Ok((seq![x] + rest, q)),
                Err(e) => Err(e),
            },
            Err(e) => Err(e),
        }
    }
}

/// A list of properties: their number as a zint, then each property.
pub open spec fn enc_properties(l: Seq<PropertyView>) -> Seq<u8> {
    enc_zint(l.len()) + enc_properties_items(l)
}

/// The list of properties at `pos`.
pub open spec fn dec_properties(s: Seq<u8>, pos: int) -> Decoded<Seq<PropertyView>> {
    match dec_zint(s, pos) {
        Ok((n, p)) => dec_properties_items(s, p, n as nat),
        Err(e) => Err(e),
    }
}

/// The list is short enough for its length to be a zint, and so is every value in it.
pub open spec fn properties_fit(l: Seq<PropertyView>) -> bool {
    &&& l.len() <= u64::MAX
    &&& forall|i: int| 0 <= i < l.len() ==> bytes_fit((#[trigger] l[i]).value)
}

pub proof fn lemma_property_roundtrip(s: Seq<u8>, pos: int, p: PropertyView)
    requires
        has_at(s, pos, enc_property(p)),
        bytes_fit(p.value),
    ensures
        dec_property(s, pos) == Ok::<(PropertyView, int), DecodeError>(
            (p, pos + enc_property(p).len()),
        ),
{
    lemma_has_at_split(s, pos, enc_zint(p.key as nat), enc_bytes(p.value));
    lemma_zint_roundtrip(s, pos, p.key);
    lemma_bytes_roundtrip(s, pos + enc_zint(p.key as nat).len(), p.value);
}

pub proof fn lemma_properties_items_roundtrip(s: Seq<u8>, pos: int, l: Seq<PropertyView>)
    requires
        has_at(s, pos, enc_properties_items(l)),
        properties_fit(l),
    ensures
        dec_properties_items(s, pos, l.len()) == Ok::<(Seq<PropertyView>, int), DecodeError>(
            (l, pos + enc_properties_items(l).len()),
        ),
    decreases l.len(),
{
    if l.len() > 0 {
        let rest = l.drop_first();
        lemma_has_at_split(s, pos, enc_property(l[0]), enc_properties_items(rest));
        lemma_property_roundtrip(s, pos, l[0]);
        assert forall|i: int| 0 <= i < rest.len() implies bytes_fit((#[trigger] rest[i]).value) by {
            assert(rest[i] == l[i + 1]);
        }
        lemma_properties_items_roundtrip(s, pos + enc_property(l[0]).len(), rest);
        assert(seq![l[0]] + rest =~= l);
    } else {
        assert(l =~= Seq::empty());
    }
}

pub proof fn lemma_properties_roundtrip(s: Seq<u8>, pos: int, l: Seq<PropertyView>)
    requires
        has_at(s, pos, enc_properties(l)),
        properties_fit(l),
    ensures
        dec_properties(s, pos) == Ok::<(Seq<PropertyView>, int), DecodeError>(
            (l, pos + enc_properties(l).len()),
        ),
{
    lemma_has_at_split(s, pos, enc_zint(l.len()), enc_properties_items(l));
    lemma_zint_roundtrip(s, pos, l.len() as u64);
    lemma_properties_items_roundtrip(s, pos + enc_zint(l.len()).len(), l);
}

// ----- resource keys

/// A key: its id as a zint, and, unless it is an id alone, a string: the
/// name where the id is 0, else what follows the name of the id.
pub open spec fn enc_reskey(k: ResKeyView) -> Seq<u8> {
    match k {
        ResKeyView::RName(name) => enc_zint(NO_RESOURCE_ID as nat) + enc_string(name),
        ResKeyView::RId(id) => enc_zint(id as nat),
        ResKeyView::RIdWithSuffix(id, suffix) => enc_zint(id as nat) + enc_string(suffix),
    }
}

/// The key at `pos`; `is_numeric` says that it is an id alone.
pub open spec fn dec_reskey(s: Seq<u8>, pos: int, is_numeric: bool) -> Decoded<ResKeyView> {
    match dec_zint(s, pos) {
        Ok((id, p)) => if is_numeric {
            Ok((ResKeyView::RId(id), p))
        } else {
            match dec_string(s, p) {
                Ok((name, q)) => if id == NO_RESOURCE_ID {
                    Ok((ResKeyView::RName(name), q))
                } else {
                    Ok((ResKeyView::RIdWithSuffix(id, name), q))
                },
                Err(e) => Err(e),
            }
        },
        Err(e) => Err(e),
    }
}

/// The wire can carry the key and give it back.
pub open spec fn reskey_fit(k: ResKeyView) -> bool {
    &&& k.wf()
    &&& string_fit(k.suffix())
}

pub proof fn lemma_reskey_roundtrip(s: Seq<u8>, pos: int, k: ResKeyView)
    requires
        has_at(s, pos, enc_reskey(k)),
        reskey_fit(k),
    ensures
        dec_reskey(s, pos, k is RId) == Ok::<(ResKeyView, int), DecodeError>(
            (k, pos + enc_reskey(k).len()),
        ),
{
    match k {
        ResKeyView::RName(name) => {
            lemma_has_at_split(s, pos, enc_zint(NO_RESOURCE_ID as nat), enc_string(name));
            lemma_zint_roundtrip(s, pos, NO_RESOURCE_ID);
            lemma_string_roundtrip(s, pos + enc_zint(NO_RESOURCE_ID as nat).len(), name);
        },
        ResKeyView::RId(id) => {
            lemma_zint_roundtrip(s, pos, id);
        },
        ResKeyView::RIdWithSuffix(id, suffix) => {
            lemma_has_at_split(s, pos, enc_zint(id as nat), enc_string(suffix));
            lemma_zint_roundtrip(s, pos, id);
            lemma_string_roundtrip(s, pos + enc_zint(id as nat).len(), suffix);
        },
    }
}

// ----- subscription modes

/// Three zints.
pub open spec fn enc_zint3(a: u64, b: u64, c: u64) -> Seq<u8> {
    enc_zint(a as nat) + enc_zint(b as nat) + enc_zint(c as nat)
}

/// Three zints from `pos` on.
pub open spec fn dec_zint3(s: Seq<u8>, pos: int) -> Decoded<(u64, u64, u64)> {
    match dec_zint(s, pos) {
        Ok((a, p)) => match dec_zint(s, p) {
            Ok((b, q)) => match dec_zint(s, q) {
                Ok((c, r)) => Ok(((a, b, c), r)),
                Err(e) => Err(e),
            },
            Err(e) => Err(e),
        },
        Err(e) => Err(e),
    }
}

pub proof fn lemma_zint3_roundtrip(s: Seq<u8>, pos: int, a: u64, b: u64, c: u64)
    requires
        has_at(s, pos, enc_zint3(a, b, c)),
    ensures
        dec_zint3(s, pos) == Ok::<((u64, u64, u64), int), DecodeError>(
            ((a, b, c), pos + enc_zint3(a, b, c).len()),
        ),
{
    lemma_has_at_split(s, pos, enc_zint(a as nat) + enc_zint(b as nat), enc_zint(c as nat));
    lemma_has_at_split(s, pos, enc_zint(a as nat), enc_zint(b as nat));
    lemma_zint_roundtrip(s, pos, a);
    lemma_zint_roundtrip(s, pos + enc_zint(a as nat).len(), b);
    lemma_zint_roundtrip(s, pos + enc_zint(a as nat).len() + enc_zint(b as nat).len(), c);
}

/// A subscription mode: its number, and for a periodic mode its origin,
/// period and duration.
pub open spec fn enc_submode(m: SubMode) -> Seq<u8> {
    match m {
        SubMode::Push => enc_zint(MODE_PUSH as nat),
        SubMode::Pull => enc_zint(MODE_PULL as nat),
        SubMode::PeriodicPush { origin, period, duration } => enc_zint(MODE_PERIODIC_PUSH as nat)
            + enc_zint3(origin, period, duration),
        SubMode::PeriodicPull { origin, period, duration } => enc_zint(MODE_PERIODIC_PULL as nat)
            + enc_zint3(origin, period, duration),
    }
}

/// The subscription mode at `pos`.
pub open spec fn dec_submode(s: Seq<u8>, pos: int) -> Decoded<SubMode> {
    match dec_zint(s, pos) {
        Ok((id, p)) => if id == MODE_PUSH {
            Ok((SubMode::Push, p))
        } else if id == MODE_PULL {
            Ok((SubMode::Pull, p))
        } else if id == MODE_PERIODIC_PUSH {
            match dec_zint3(s, p) {
                Ok(((origin, period, duration), q)) => Ok(
                    (SubMode::PeriodicPush { origin, period, duration }, q),
                ),
                Err(e) => Err(e),
            }
        } else if id == MODE_PERIODIC_PULL {
            match dec_zint3(s, p) {
                Ok(((origin, period, duration), q)) => Ok(
                    (SubMode::PeriodicPull { origin, period, duration }, q),
                ),
                Err(e) => Err(e),
            }
        } else {
            Err(DecodeError::UnknownSubMode(id))
        },
        Err(e) => Err(e),
    }
}

pub proof fn lemma_submode_roundtrip(s: Seq<u8>, pos: int, m: SubMode)
    requires
        has_at(s, pos, enc_submode(m)),
    ensures
        dec_submode(s, pos) == Ok::<(SubMode, int), DecodeError>((m, pos + enc_submode(m).len())),
{
    match m {
        SubMode::Push => {
            lemma_zint_roundtrip(s, pos, MODE_PUSH);
        },
        SubMode::Pull => {
            lemma_zint_roundtrip(s, pos, MODE_PULL);
        },
        SubMode::PeriodicPush { origin, period, duration } => {
            let head = enc_zint(MODE_PERIODIC_PUSH as nat);
            lemma_has_at_split(s, pos, head, enc_zint3(origin, period, duration));
            lemma_zint_roundtrip(s, pos, MODE_PERIODIC_PUSH);
            lemma_zint3_roundtrip(s, pos + head.len(), origin, period, duration);
        },
        SubMode::PeriodicPull { origin, period, duration } => {
            let head = enc_zint(MODE_PERIODIC_PULL as nat);
            lemma_has_at_split(s, pos, head, enc_zint3(origin, period, duration));
            lemma_zint_roundtrip(s, pos, MODE_PERIODIC_PULL);
            lemma_zint3_roundtrip(s, pos + head.len(), origin, period, duration);
        },
    }
}

/// A subscription mode that is there or not; the mode that is not there is `Push`.
pub open spec fn enc_opt_submode(m: SubMode) -> Seq<u8> {
    if m == SubMode::Push {
        Seq::empty()
    } else {
        enc_submode(m)
    }
}

/// The subscription mode at `pos`, if one is `present`; `Push` if not.
pub open spec fn dec_opt_submode(s: Seq<u8>, pos: int, present: bool) -> Decoded<SubMode> {
    if present {
        dec_submode(s, pos)
    } else {
        Ok((SubMode::Push, pos))
    }
}

// ----- query targets and consolidation

/// A target: its number, and for `Complete` how many sources.
pub open spec fn enc_target(t: Target) -> Seq<u8> {
    match t {
        Target::BestMatching => enc_zint(TARGET_BEST_MATCHING as nat),
        Target::Complete { n } => enc_zint(TARGET_COMPLETE as nat) + enc_zint(n as nat),
        Target::All => enc_zint(TARGET_ALL as nat),
        Target::NoTarget => enc_zint(TARGET_NONE as nat),
    }
}

/// The target at `pos`.
pub open spec fn dec_target(s: Seq<u8>, pos: int) -> Decoded<Target> {
    match dec_zint(s, pos) {
        Ok((id, p)) => if id == TARGET_BEST_MATCHING {
            Ok((Target::BestMatching, p))
        } else if id == TARGET_COMPLETE {
            match dec_zint(s, p) {
                Ok((n, q)) => Ok((Target::Complete { n }, q)),
                Err(e) => Err(e),
            }
        } else if id == TARGET_ALL {
            Ok((Target::All, p))
        } else if id == TARGET_NONE {
            Ok((Target::NoTarget, p))
        } else {
            Err(DecodeError::UnknownTarget(id))
        },
        Err(e) => Err(e),
    }
}

pub proof fn lemma_target_roundtrip(s: Seq<u8>, pos: int, t: Target)
    requires
        has_at(s, pos, enc_target(t)),
    ensures
        dec_target(s, pos) == Ok::<(Target, int), DecodeError>((t, pos + enc_target(t).len())),
{
    match t {
        Target::BestMatching => {
            lemma_zint_roundtrip(s, pos, TARGET_BEST_MATCHING);
        },
        Target::Complete { n } => {
            let head = enc_zint(TARGET_COMPLETE as nat);
            lemma_has_at_split(s, pos, head, enc_zint(n as nat));
            lemma_zint_roundtrip(s, pos, TARGET_COMPLETE);
            lemma_zint_roundtrip(s, pos + head.len(), n);
        },
        Target::All => {
            lemma_zint_roundtrip(s, pos, TARGET_ALL);
        },
        Target::NoTarget => {
            lemma_zint_roundtrip(s, pos, TARGET_NONE);
        },
    }
}

/// A query target: the target among the storages, then the one among the evaluators.
pub open spec fn enc_query_target(t: QueryTarget) -> Seq<u8> {
    enc_target(t.storage) + enc_target(t.eval)
}

/// The query target at `pos`.
pub open spec fn dec_query_target(s: Seq<u8>, pos: int) -> Decoded<QueryTarget> {
    match dec_target(s, pos) {
        Ok((storage, p)) => match dec_target(s, p) {
            Ok((eval, q)) => Ok((QueryTarget { storage, eval }, q)),
            Err(e) => Err(e),
        },
        Err(e) => Err(e),
    }
}

pub proof fn lemma_query_target_roundtrip(s: Seq<u8>, pos: int, t: QueryTarget)
    requires
        has_at(s, pos, enc_query_target(t)),
    ensures
        dec_query_target(s, pos) == Ok::<(QueryTarget, int), DecodeError>(
            (t, pos + enc_query_target(t).len()),
        ),
{
    lemma_has_at_split(s, pos, enc_target(t.storage), enc_target(t.eval));
    lemma_target_roundtrip(s, pos, t.storage);
    lemma_target_roundtrip(s, pos + enc_target(t.storage).len(), t.eval);
}

/// A query target that is there or not.
pub open spec fn enc_opt_query_target(o: Option<QueryTarget>) -> Seq<u8> {
    match o {
        Some(t) => enc_query_target(t),
        None => Seq::empty(),
    }
}

/// The query target at `pos`, if one is `present`.
pub open spec fn dec_opt_query_target(s: Seq<u8>, pos: int, present: bool) -> Decoded<
    Option<QueryTarget>,
> {
    if present {
        match dec_query_target(s, pos) {
            Ok((v, p)) => Ok((Some(v), p)),
            Err(e) => Err(e),
        }
    } else {
        Ok((None, pos))
    }
}

/// A consolidation mode: its number.
pub open spec fn enc_consolidation(c: QueryConsolidation) -> Seq<u8> {
    match c {
        QueryConsolidation::NoConsolidation => enc_zint(CONSOLIDATION_NONE as nat),
        QueryConsolidation::LastBroker => enc_zint(CONSOLIDATION_LAST_BROKER as nat),
        QueryConsolidation::Incremental => enc_zint(CONSOLIDATION_INCREMENTAL as nat),
    }
}

/// The consolidation mode at `pos`.
pub open spec fn dec_consolidation(s: Seq<u8>, pos: int) -> Decoded<QueryConsolidation> {
    match dec_zint(s, pos) {
        Ok((id, p)) => if id == CONSOLIDATION_NONE {
            Ok((QueryConsolidation::NoConsolidation, p))
        } else if id == CONSOLIDATION_LAST_BROKER {
            Ok((QueryConsolidation::LastBroker, p))
        } else if id == CONSOLIDATION_INCREMENTAL {
            Ok((QueryConsolidation::Incremental, p))
        } else {
            Err(DecodeError::UnknownConsolidation(id))
        },
        Err(e) => Err(e),
    }
}

pub proof fn lemma_consolidation_roundtrip(s: Seq<u8>, pos: int, c: QueryConsolidation)
    requires
        has_at(s, pos, enc_consolidation(c)),
    ensures
        dec_consolidation(s, pos) == Ok::<(QueryConsolidation, int), DecodeError>(
            (c, pos + enc_consolidation(c).len()),
        ),
{
    match c {
        QueryConsolidation::NoConsolidation => {
            lemma_zint_roundtrip(s, pos, CONSOLIDATION_NONE);
        },
        QueryConsolidation::LastBroker => {
            lemma_zint_roundtrip(s, pos, CONSOLIDATION_LAST_BROKER);
        },
        QueryConsolidation::Incremental => {
            lemma_zint_roundtrip(s, pos, CONSOLIDATION_INCREMENTAL);
        },
    }
}

// ----- time stamps

/// A time stamp: its time as a zint, then the 16 bytes of its identifier.
pub open spec fn enc_timestamp(t: TimeStampView) -> Seq<u8> {
    enc_zint(t.time as nat) + t.id
}

/// The time stamp at `pos`.
pub open spec fn dec_timestamp(s: Seq<u8>, pos: int) -> Decoded<TimeStampView> {
    match dec_zint(s, pos) {
        Ok((time, p)) => if p + 16 <= s.len() {
            Ok((TimeStampView { time, id: s.subrange(p, p + 16) }, p + 16))
        } else {
            Err(DecodeError::OutOfBounds)
        },
        Err(e) => Err(e),
    }
}

pub proof fn lemma_timestamp_roundtrip(s: Seq<u8>, pos: int, t: TimeStampView)
    requires
        has_at(s, pos, enc_timestamp(t)),
        t.id.len() == 16,
    ensures
        dec_timestamp(s, pos) == Ok::<(TimeStampView, int), DecodeError>(
            (t, pos + enc_timestamp(t).len()),
        ),
{
    lemma_has_at_split(s, pos, enc_zint(t.time as nat), t.id);
    lemma_zint_roundtrip(s, pos, t.time);
    let p = pos + enc_zint(t.time as nat).len();
    lemma_has_at_bytes(s, p, t.id);
}

// ----- declarations

/// A header byte.
pub open spec fn enc_header(h: u8) -> Seq<u8> {
    seq![h]
}

/// A declaration that is a key and nothing else: the header, whose C flag
/// says that the key is an id alone, then the key.
pub open spec fn enc_key_decl(id: u8, key: ResKeyView) -> Seq<u8> {
    enc_header(spec_header(id, false, key is RId, false)) + enc_reskey(key)
}

/// A declaration: its header, then what it holds.
pub open spec fn enc_declaration(d: DeclarationView) -> Seq<u8> {
    match d {
        DeclarationView::Resource { rid, key } => enc_header(
            spec_header(RESOURCE, false, key is RId, false),
        ) + enc_zint(rid as nat) + enc_reskey(key),
        DeclarationView::ForgetResource { rid } => enc_header(
            spec_header(FORGET_RESOURCE, false, false, false),
        ) + enc_zint(rid as nat),
        DeclarationView::Subscriber { key, mode } => enc_header(
            spec_header(SUBSCRIBER, mode != SubMode::Push, key is RId, false),
        ) + enc_reskey(key) + enc_opt_submode(mode),
        DeclarationView::ForgetSubscriber { key } => enc_key_decl(FORGET_SUBSCRIBER, key),
        DeclarationView::Publisher { key } => enc_key_decl(PUBLISHER, key),
        DeclarationView::ForgetPublisher { key } => enc_key_decl(FORGET_PUBLISHER, key),
        DeclarationView::Storage { key } => enc_key_decl(STORAGE, key),
        DeclarationView::ForgetStorage { key } => enc_key_decl(FORGET_STORAGE, key),
        DeclarationView::Eval { key } => enc_key_decl(EVAL, key),
        DeclarationView::ForgetEval { key } => enc_key_decl(FORGET_EVAL, key),
    }
}

/// The declaration at `pos`.
pub open spec fn dec_declaration(s: Seq<u8>, pos: int) -> Decoded<DeclarationView> {
    match dec_u8(s, pos) {
        Ok((h, p)) => {
            let id = spec_mid(h);
            let numeric = spec_has_flag(h, crate::proto::flag::C);
            if id == RESOURCE {
                match dec_zint(s, p) {
                    Ok((rid, q)) => match dec_reskey(s, q, numeric) {
                        Ok((key, r)) => Ok((DeclarationView::Resource { rid, key }, r)),
                        Err(e) => Err(e),
                    },
                    Err(e) => Err(e),
                }
            } else if id == FORGET_RESOURCE {
                match dec_zint(s, p) {
                    Ok((rid, q)) => Ok((DeclarationView::ForgetResource { rid }, q)),
                    Err(e) => Err(e),
                }
            } else if id == SUBSCRIBER {
                match dec_reskey(s, p, numeric) {
                    Ok((key, q)) => match dec_opt_submode(
                        s,
                        q,
                        spec_has_flag(h, crate::proto::flag::S),
                    ) {
                        Ok((mode, r)) => Ok((DeclarationView::Subscriber { key, mode }, r)),
                        Err(e) => Err(e),
                    },
                    Err(e) => Err(e),
                }
            } else if id == FORGET_SUBSCRIBER || id == PUBLISHER || id == FORGET_PUBLISHER || id
                == STORAGE || id == FORGET_STORAGE || id == EVAL || id == FORGET_EVAL {
                match dec_reskey(s, p, numeric) {
                    Ok((key, q)) => Ok((key_decl(id, key), q)),
                    Err(e) => Err(e),
                }
            } else {
                Err(DecodeError::UnknownDeclarationId(id))
            }
        },
        Err(e) => Err(e),
    }
}

/// The declaration with id `id` that is a key and nothing else.
pub open spec fn key_decl(id: u8, key: ResKeyView) -> DeclarationView {
    if id == FORGET_SUBSCRIBER {
        DeclarationView::ForgetSubscriber { key }
    } else if id == PUBLISHER {
        DeclarationView::Publisher { key }
    } else if id == FORGET_PUBLISHER {
        DeclarationView::ForgetPublisher { key }
    } else if id == STORAGE {
        DeclarationView::Storage { key }
    } else if id == FORGET_STORAGE {
        DeclarationView::ForgetStorage { key }
    } else if id == EVAL {
        DeclarationView::Eval { key }
    } else {
        DeclarationView::ForgetEval { key }
    }
}

/// The wire can carry the declaration and give it back.
pub open spec fn declaration_fit(d: DeclarationView) -> bool {
    d.key() matches Some(key) ==> reskey_fit(key)
}

/// Where a header byte stands, it is read.
pub proof fn lemma_header_at(s: Seq<u8>, pos: int, h: u8)
    requires
        has_at(s, pos, enc_header(h)),
    ensures
        dec_u8(s, pos) == Ok::<(u8, int), DecodeError>((h, pos + 1)),
{
    lemma_has_at_bytes(s, pos, enc_header(h));
    assert(s[pos + 0] == enc_header(h)[0]);
}

proof fn lemma_key_decl_roundtrip(s: Seq<u8>, pos: int, id: u8, key: ResKeyView)
    requires
        has_at(s, pos, enc_key_decl(id, key)),
        reskey_fit(key),
        id == FORGET_SUBSCRIBER || id == PUBLISHER || id == FORGET_PUBLISHER || id == STORAGE
            || id == FORGET_STORAGE || id == EVAL || id == FORGET_EVAL,
    ensures
        dec_declaration(s, pos) == Ok::<(DeclarationView, int), DecodeError>(
            (key_decl(id, key), pos + enc_key_decl(id, key).len()),
        ),
{
    let h = spec_header(id, false, key is RId, false);
    lemma_header(id, false, key is RId, false);
    lemma_has_at_split(s, pos, enc_header(h), enc_reskey(key));
    lemma_header_at(s, pos, h);
    lemma_reskey_roundtrip(s, pos + 1, key);
}

pub proof fn lemma_declaration_roundtrip(s: Seq<u8>, pos: int, d: DeclarationView)
    requires
        has_at(s, pos, enc_declaration(d)),
        declaration_fit(d),
    ensures
        dec_declaration(s, pos) == Ok::<(DeclarationView, int), DecodeError>(
            (d, pos + enc_declaration(d).len()),
        ),
{
    match d {
        DeclarationView::Resource { rid, key } => {
            let h = spec_header(RESOURCE, false, key is RId, false);
            lemma_header(RESOURCE, false, key is RId, false);
            lemma_has_at_split(s, pos, enc_header(h) + enc_zint(rid as nat), enc_reskey(key));
            lemma_has_at_split(s, pos, enc_header(h), enc_zint(rid as nat));
            lemma_header_at(s, pos, h);
            lemma_zint_roundtrip(s, pos + 1, rid);
            lemma_reskey_roundtrip(s, pos + 1 + enc_zint(rid as nat).len(), key);
        },
        DeclarationView::ForgetResource { rid } => {
            let h = spec_header(FORGET_RESOURCE, false, false, false);
            lemma_header(FORGET_RESOURCE, false, false, false);
            lemma_has_at_split(s, pos, enc_header(h), enc_zint(rid as nat));
            lemma_header_at(s, pos, h);
            lemma_zint_roundtrip(s, pos + 1, rid);
        },
        DeclarationView::Subscriber { key, mode } => {
            let h = spec_header(SUBSCRIBER, mode != SubMode::Push, key is RId, false);
            lemma_header(SUBSCRIBER, mode != SubMode::Push, key is RId, false);
            lemma_has_at_split(s, pos, enc_header(h) + enc_reskey(key), enc_opt_submode(mode));
            lemma_has_at_split(s, pos, enc_header(h), enc_reskey(key));
            lemma_header_at(s, pos, h);
            lemma_reskey_roundtrip(s, pos + 1, key);
            if mode != SubMode::Push {
                lemma_submode_roundtrip(s, pos + 1 + enc_reskey(key).len(), mode);
            }
        },
        DeclarationView::ForgetSubscriber { key } => {
            lemma_key_decl_roundtrip(s, pos, FORGET_SUBSCRIBER, key);
        },
        DeclarationView::Publisher { key } => {
            lemma_key_decl_roundtrip(s, pos, PUBLISHER, key);
        },
        DeclarationView::ForgetPublisher { key } => {
            lemma_key_decl_roundtrip(s, pos, FORGET_PUBLISHER, key);
        },
        DeclarationView::Storage { key } => {
            lemma_key_decl_roundtrip(s, pos, STORAGE, key);
        },
        DeclarationView::ForgetStorage { key } => {
            lemma_key_decl_roundtrip(s, pos, FORGET_STORAGE, key);
        },
        DeclarationView::Eval { key } => {
            lemma_key_decl_roundtrip(s, pos, EVAL, key);
        },
        DeclarationView::ForgetEval { key } => {
            lemma_key_decl_roundtrip(s, pos, FORGET_EVAL, key);
        },
    }
}

/// The declarations of a list, one behind the other.
pub open spec fn enc_declarations_items(l: Seq<DeclarationView>) -> Seq<u8>
    decreases l.len(),
{
    if l.len() == 0 {
        Seq::empty()
    } else {
        enc_declaration(l[0]) + enc_declarations_items(l.drop_first())
    }
}

/// `n` declarations from `pos` on.
pub open spec fn dec_declarations_items(s: Seq<u8>, pos: int, n: nat) -> Decoded<
    Seq<DeclarationView>,
>
    decreases n,
{
    if n == 0 {
        Ok((Seq::empty(), pos))
    } else {
        match dec_declaration(s, pos) {
            Ok((x, p)) => match dec_declarations_items(s, p, (n - 1) as nat) {
                Ok((rest, q)) => Ok((seq![x] + rest, q)),
                Err(e) => Err(e),
            },
            Err(e) => Err(e),
        }
    }
}

/// A list of declarations: their number as a zint, then each declaration.
pub open spec fn enc_declarations(l: Seq<DeclarationView>) -> Seq<u8> {
    enc_zint(l.len()) + enc_declarations_items(l)
}

/// The list of declarations at `pos`.
pub open spec fn dec_declarations(s: Seq<u8>, pos: int) -> Decoded<Seq<DeclarationView>> {
    match dec_zint(s, pos) {
        Ok((n, p)) => dec_declarations_items(s, p, n as nat),
        Err(e) => Err(e),
    }
}

/// The list is short enough for its length to be a zint, and the wire can
/// carry every declaration in it.
pub open spec fn declarations_fit(l: Seq<DeclarationView>) -> bool {
    &&& l.len() <= u64::MAX
    &&& forall|i: int| 0 <= i < l.len() ==> declaration_fit(#[trigger] l[i])
}

pub proof fn lemma_declarations_items_roundtrip(s: Seq<u8>, pos: int, l: Seq<DeclarationView>)
    requires
        has_at(s, pos, enc_declarations_items(l)),
        declarations_fit(l),
    ensures
        dec_declarations_items(s, pos, l.len()) == Ok::<(Seq<DeclarationView>, int), DecodeError>(
            (l, pos + enc_declarations_items(l).len()),
        ),
    decreases l.len(),
{
    if l.len() > 0 {
        let rest = l.drop_first();
        lemma_has_at_split(s, pos, enc_declaration(l[0]), enc_declarations_items(rest));
        lemma_declaration_roundtrip(s, pos, l[0]);
        assert forall|i: int| 0 <= i < rest.len() implies declaration_fit(#[trigger] rest[i]) by {
            assert(rest[i] == l[i + 1]);
        }
        lemma_declarations_items_roundtrip(s, pos + enc_declaration(l[0]).len(), rest);
        assert(seq![l[0]] + rest =~= l);
    } else {
        assert(l =~= Seq::empty());
    }
}

pub proof fn lemma_declarations_roundtrip(s: Seq<u8>, pos: int, l: Seq<DeclarationView>)
    requires
        has_at(s, pos, enc_declarations(l)),
        declarations_fit(l),
    ensures
        dec_declarations(s, pos) == Ok::<(Seq<DeclarationView>, int), DecodeError>(
            (l, pos + enc_declarations(l).len()),
        ),
{
    lemma_has_at_split(s, pos, enc_zint(l.len()), enc_declarations_items(l));
    lemma_zint_roundtrip(s, pos, l.len() as u64);
    lemma_declarations_items_roundtrip(s, pos + enc_zint(l.len()).len(), l);
}

// ----- splitting what stands at a position into its parts

pub proof fn lemma_split3(s: Seq<u8>, pos: int, a: Seq<u8>, b: Seq<u8>, c: Seq<u8>)
    requires
        has_at(s, pos, a + b + c),
    ensures
        has_at(s, pos, a),
        has_at(s, pos + a.len(), b),
        has_at(s, pos + a.len() + b.len(), c),
{
    lemma_has_at_split(s, pos, a + b, c);
    lemma_has_at_split(s, pos, a, b);
}

pub proof fn lemma_split4(s: Seq<u8>, pos: int, a: Seq<u8>, b: Seq<u8>, c: Seq<u8>, d: Seq<u8>)
    requires
        has_at(s, pos, a + b + c + d),
    ensures
        has_at(s, pos, a),
        has_at(s, pos + a.len(), b),
        has_at(s, pos + a.len() + b.len(), c),
        has_at(s, pos + a.len() + b.len() + c.len(), d),
{
    lemma_has_at_split(s, pos, a + b + c, d);
    lemma_split3(s, pos, a, b, c);
}

pub proof fn lemma_split5(
    s: Seq<u8>,
    pos: int,
    a: Seq<u8>,
    b: Seq<u8>,
    c: Seq<u8>,
    d: Seq<u8>,
    e: Seq<u8>,
)
    requires
        has_at(s, pos, a + b + c + d + e),
    ensures
        has_at(s, pos, a),
        has_at(s, pos + a.len(), b),
        has_at(s, pos + a.len() + b.len(), c),
        has_at(s, pos + a.len() + b.len() + c.len(), d),
        has_at(s, pos + a.len() + b.len() + c.len() + d.len(), e),
{
    lemma_has_at_split(s, pos, a + b + c + d, e);
    lemma_split4(s, pos, a, b, c, d);
}

pub proof fn lemma_split6(
    s: Seq<u8>,
    pos: int,
    a: Seq<u8>,
    b: Seq<u8>,
    c: Seq<u8>,
    d: Seq<u8>,
    e: Seq<u8>,
    f: Seq<u8>,
)
    requires
        has_at(s, pos, a + b + c + d + e + f),
    ensures
        has_at(s, pos, a),
        has_at(s, pos + a.len(), b),
        has_at(s, pos + a.len() + b.len(), c),
        has_at(s, pos + a.len() + b.len() + c.len(), d),
        has_at(s, pos + a.len() + b.len() + c.len() + d.len(), e),
        has_at(s, pos + a.len() + b.len() + c.len() + d.len() + e.len(), f),
{
    lemma_has_at_split(s, pos, a + b + c + d + e, f);
    lemma_split5(s, pos, a, b, c, d, e);
}

pub proof fn lemma_split7(
    s: Seq<u8>,
    pos: int,
    a: Seq<u8>,
    b: Seq<u8>,
    c: Seq<u8>,
    d: Seq<u8>,
    e: Seq<u8>,
    f: Seq<u8>,
    g: Seq<u8>,
)
    requires
        has_at(s, pos, a + b + c + d + e + f + g),
    ensures
        has_at(s, pos, a),
        has_at(s, pos + a.len(), b),
        has_at(s, pos + a.len() + b.len(), c),
        has_at(s, pos + a.len() + b.len() + c.len(), d),
        has_at(s, pos + a.len() + b.len() + c.len() + d.len(), e),
        has_at(s, pos + a.len() + b.len() + c.len() + d.len() + e.len(), f),
        has_at(s, pos + a.len() + b.len() + c.len() + d.len() + e.len() + f.len(), g),
{
    lemma_has_at_split(s, pos, a + b + c + d + e + f, g);
    lemma_split6(s, pos, a, b, c, d, e, f);
}

// ----- decorators

/// The FRAGMENT decorator: absent for a whole message; else a header whose
/// F flag marks the first fragment and whose L flag the last, and, with the C
/// flag, the number of fragments.
pub open spec fn enc_frag(kind: MessageKind) -> Seq<u8> {
    match kind {
        MessageKind::FullMessage => Seq::empty(),
        MessageKind::FirstFragment { n } => enc_header(spec_header(FRAGMENT, true, n is Some, false))
            + enc_opt_zint(n),
        MessageKind::InbetweenFragment => enc_header(spec_header(FRAGMENT, false, false, false)),
        MessageKind::LastFragment => enc_header(spec_header(FRAGMENT, false, false, true)),
    }
}

/// What follows the header `h` of a FRAGMENT decorator.
pub open spec fn dec_frag(s: Seq<u8>, pos: int, h: u8) -> Decoded<MessageKind> {
    if spec_has_flag(h, crate::proto::flag::F) {
        match dec_opt_zint(s, pos, spec_has_flag(h, crate::proto::flag::C)) {
            Ok((n, p)) => Ok((MessageKind::FirstFragment { n }, p)),
            Err(e) => Err(e),
        }
    } else if spec_has_flag(h, crate::proto::flag::L) {
        Ok((MessageKind::LastFragment, pos))
    } else {
        Ok((MessageKind::InbetweenFragment, pos))
    }
}

/// The CONDUIT decorator: absent where there is no conduit id; an id up to 3
/// in the header itself, under the Z flag; a larger one as a zint behind it.
pub open spec fn enc_conduit(cid: Option<u64>) -> Seq<u8> {
    match cid {
        None => Seq::empty(),
        Some(id) => if id <= 3 {
            enc_header(spec_header(CONDUIT, id % 2 == 1, id / 2 == 1, true))
        } else {
            enc_header(spec_header(CONDUIT, false, false, false)) + enc_zint(id as nat)
        },
    }
}

/// What follows the header `h` of a CONDUIT decorator.
pub open spec fn dec_conduit(s: Seq<u8>, pos: int, h: u8) -> Decoded<u64> {
    if spec_has_flag(h, crate::proto::flag::Z) {
        Ok((spec_low_flags(h) as u64, pos))
    } else {
        dec_zint(s, pos)
    }
}

/// The REPLY decorator: absent where the message is no reply; else a header
/// whose F flag marks the last reply and whose E flag an evaluator, the id of
/// the query, and the id of the replier unless the reply is the last.
pub open spec fn enc_reply(r: Option<ReplyContextView>) -> Seq<u8> {
    match r {
        None => Seq::empty(),
        Some(c) => enc_header(spec_header(REPLY, c.is_final, c.source == ReplySource::Eval, false))
            + enc_zint(c.qid as nat) + enc_opt_bytes(c.replier_id),
    }
}

/// What follows the header `h` of a REPLY decorator.
pub open spec fn dec_reply(s: Seq<u8>, pos: int, h: u8) -> Decoded<ReplyContextView> {
    let is_final = spec_has_flag(h, crate::proto::flag::F);
    let source = if spec_has_flag(h, crate::proto::flag::E) {
        ReplySource::Eval
    } else {
        ReplySource::Storage
    };
    match dec_zint(s, pos) {
        Ok((qid, p)) => match dec_opt_peerid(s, p, !is_final) {
            Ok((replier_id, q)) => Ok((ReplyContextView { is_final, qid, source, replier_id }, q)),
            Err(e) => Err(e),
        },
        Err(e) => Err(e),
    }
}

/// The PROPERTIES decorator: absent where there are no properties; else a
/// header and the list of properties.
pub open spec fn enc_props(o: Option<Seq<PropertyView>>) -> Seq<u8> {
    match o {
        None => Seq::empty(),
        Some(l) => enc_header(spec_header(PROPERTIES, false, false, false)) + enc_properties(l),
    }
}

/// Whether a header id is that of a decorator.
pub open spec fn is_decorator(id: u8) -> bool {
    id == FRAGMENT || id == CONDUIT || id == REPLY || id == PROPERTIES
}

// ----- bodies

/// The body of a message: its header, whose flags say what is there, then
/// what the message holds.
pub open spec fn enc_body(b: BodyView) -> Seq<u8> {
    match b {
        BodyView::Scout { what } => enc_header(spec_header(SCOUT, what is Some, false, false))
            + enc_opt_zint(what),
        BodyView::Hello { whatami, locators } => enc_header(
            spec_header(HELLO, whatami is Some, false, locators is Some),
        ) + enc_opt_zint(whatami) + enc_opt_strings(locators),
        BodyView::Open { version, whatami, pid, lease, locators } => enc_header(
            spec_header(OPEN, whatami is Some, false, locators is Some),
        ) + enc_u8(version) + enc_opt_zint(whatami) + enc_bytes(pid) + enc_zint(lease as nat)
            + enc_opt_strings(locators),
        BodyView::Accept { opid, apid, lease } => enc_header(
            spec_header(ACCEPT, false, false, false),
        ) + enc_bytes(opid) + enc_bytes(apid) + enc_zint(lease as nat),
        BodyView::Close { pid, reason } => enc_header(spec_header(CLOSE, pid is Some, false, false))
            + enc_opt_bytes(pid) + enc_u8(reason),
        BodyView::KeepAlive { pid } => enc_header(
            spec_header(KEEP_ALIVE, pid is Some, false, false),
        ) + enc_opt_bytes(pid),
        BodyView::Declare { sn, declarations } => enc_header(
            spec_header(DECLARE, false, false, false),
        ) + enc_zint(sn as nat) + enc_declarations(declarations),
        BodyView::Data { reliable, sn, key, info, payload } => enc_header(
            spec_header(DATA, reliable, key is RId, info is Some),
        ) + enc_zint(sn as nat) + enc_reskey(key) + enc_opt_bytes(info) + enc_bytes(payload),
        BodyView::Pull { is_final, sn, key, pull_id, max_samples } => enc_header(
            spec_header(PULL, is_final, key is RId, max_samples is Some),
        ) + enc_zint(sn as nat) + enc_reskey(key) + enc_zint(pull_id as nat) + enc_opt_zint(
            max_samples,
        ),
        BodyView::Query { sn, key, predicate, qid, target, consolidation } => enc_header(
            spec_header(QUERY, target is Some, key is RId, false),
        ) + enc_zint(sn as nat) + enc_reskey(key) + enc_string(predicate) + enc_zint(qid as nat)
            + enc_opt_query_target(target) + enc_consolidation(consolidation),
        BodyView::Ping { hash } => enc_header(spec_header(PING_PONG, true, false, false))
            + enc_zint(hash as nat),
        BodyView::Pong { hash } => enc_header(spec_header(PING_PONG, false, false, false))
            + enc_zint(hash as nat),
        BodyView::Sync { reliable, sn, count } => enc_header(
            spec_header(SYNC, reliable, count is Some, false),
        ) + enc_zint(sn as nat) + enc_opt_zint(count),
        BodyView::AckNack { sn, mask } => enc_header(
            spec_header(ACK_NACK, mask is Some, false, false),
        ) + enc_zint(sn as nat) + enc_opt_zint(mask),
    }
}

pub open spec fn dec_scout(s: Seq<u8>, pos: int, h: u8) -> Decoded<BodyView> {
    match dec_opt_zint(s, pos, spec_has_flag(h, crate::proto::flag::W)) {
        Ok((what, p)) => Ok((BodyView::Scout { what }, p)),
        Err(e) => Err(e),
    }
}

pub open spec fn dec_hello(s: Seq<u8>, pos: int, h: u8) -> Decoded<BodyView> {
    match dec_opt_zint(s, pos, spec_has_flag(h, crate::proto::flag::W)) {
        Ok((whatami, p)) => match dec_opt_strings(s, p, spec_has_flag(h, crate::proto::flag::L)) {
            Ok((locators, q)) => Ok((BodyView::Hello { whatami, locators }, q)),
            Err(e) => Err(e),
        },
        Err(e) => Err(e),
    }
}

pub open spec fn dec_open(s: Seq<u8>, pos: int, h: u8) -> Decoded<BodyView> {
    match dec_u8(s, pos) {
        Ok((version, p1)) => match dec_opt_zint(s, p1, spec_has_flag(h, crate::proto::flag::W)) {
            Ok((whatami, p2)) => match dec_peerid(s, p2) {
                Ok((pid, p3)) => match dec_zint(s, p3) {
                    Ok((lease, p4)) => match dec_opt_strings(
                        s,
                        p4,
                        spec_has_flag(h, crate::proto::flag::L),
                    ) {
                        Ok((locators, p5)) => Ok(
                            (BodyView::Open { version, whatami, pid, lease, locators }, p5),
                        ),
                        Err(e) => Err(e),
                    },
                    Err(e) => Err(e),
                },
                Err(e) => Err(e),
            },
            Err(e) => Err(e),
        },
        Err(e) => Err(e),
    }
}

pub open spec fn dec_accept(s: Seq<u8>, pos: int) -> Decoded<BodyView> {
    match dec_peerid(s, pos) {
        Ok((opid, p1)) => match dec_peerid(s, p1) {
            Ok((apid, p2)) => match dec_zint(s, p2) {
                Ok((lease, p3)) => Ok((BodyView::Accept { opid, apid, lease }, p3)),
                Err(e) => Err(e),
            },
            Err(e) => Err(e),
        },
        Err(e) => Err(e),
    }
}

pub open spec fn dec_close(s: Seq<u8>, pos: int, h: u8) -> Decoded<BodyView> {
    match dec_opt_peerid(s, pos, spec_has_flag(h, crate::proto::flag::P)) {
        Ok((pid, p1)) => match dec_u8(s, p1) {
            Ok((reason, p2)) => Ok((BodyView::Close { pid, reason }, p2)),
            Err(e) => Err(e),
        },
        Err(e) => Err(e),
    }
}

pub open spec fn dec_keep_alive(s: Seq<u8>, pos: int, h: u8) -> Decoded<BodyView> {
    match dec_opt_peerid(s, pos, spec_has_flag(h, crate::proto::flag::P)) {
        Ok((pid, p1)) => Ok((BodyView::KeepAlive { pid }, p1)),
        Err(e) => Err(e),
    }
}

pub open spec fn dec_declare(s: Seq<u8>, pos: int) -> Decoded<BodyView> {
    match dec_zint(s, pos) {
        Ok((sn, p1)) => match dec_declarations(s, p1) {
            Ok((declarations, p2)) => Ok((BodyView::Declare { sn, declarations }, p2)),
            Err(e) => Err(e),
        },
        Err(e) => Err(e),
    }
}

pub open spec fn dec_data(s: Seq<u8>, pos: int, h: u8) -> Decoded<BodyView> {
    let reliable = spec_has_flag(h, crate::proto::flag::R);
    match dec_zint(s, pos) {
        Ok((sn, p1)) => match dec_reskey(s, p1, spec_has_flag(h, crate::proto::flag::C)) {
            Ok((key, p2)) => match dec_opt_bytes(s, p2, spec_has_flag(h, crate::proto::flag::I)) {
                Ok((info, p3)) => match dec_bytes(s, p3) {
                    Ok((payload, p4)) => Ok(
                        (BodyView::Data { reliable, sn, key, info, payload }, p4),
                    ),
                    Err(e) => Err(e),
                },
                Err(e) => Err(e),
            },
            Err(e) => Err(e),
        },
        Err(e) => Err(e),
    }
}

pub open spec fn dec_pull(s: Seq<u8>, pos: int, h: u8) -> Decoded<BodyView> {
    let is_final = spec_has_flag(h, crate::proto::flag::F);
    match dec_zint(s, pos) {
        Ok((sn, p1)) => match dec_reskey(s, p1, spec_has_flag(h, crate::proto::flag::C)) {
            Ok((key, p2)) => match dec_zint(s, p2) {
                Ok((pull_id, p3)) => match dec_opt_zint(
                    s,
                    p3,
                    spec_has_flag(h, crate::proto::flag::N),
                ) {
                    Ok((max_samples, p4)) => Ok(
                        (BodyView::Pull { is_final, sn, key, pull_id, max_samples }, p4),
                    ),
                    Err(e) => Err(e),
                },
                Err(e) => Err(e),
            },
            Err(e) => Err(e),
        },
        Err(e) => Err(e),
    }
}

pub open spec fn dec_query(s: Seq<u8>, pos: int, h: u8) -> Decoded<BodyView> {
    match dec_zint(s, pos) {
        Ok((sn, p1)) => match dec_reskey(s, p1, spec_has_flag(h, crate::proto::flag::C)) {
            Ok((key, p2)) => match dec_string(s, p2) {
                Ok((predicate, p3)) => match dec_zint(s, p3) {
                    Ok((qid, p4)) => match dec_opt_query_target(
                        s,
                        p4,
                        spec_has_flag(h, crate::proto::flag::T),
                    ) {
                        Ok((target, p5)) => match dec_consolidation(s, p5) {
                            Ok((consolidation, p6)) => Ok(
                                (
                                    BodyView::Query {
                                        sn,
                                        key,
                                        predicate,
                                        qid,
                                        target,
                                        consolidation,
                                    },
                                    p6,
                                ),
                            ),
                            Err(e) => Err(e),
                        },
                        Err(e) => Err(e),
                    },
                    Err(e) => Err(e),
                },
                Err(e) => Err(e),
            },
            Err(e) => Err(e),
        },
        Err(e) => Err(e),
    }
}

pub open spec fn dec_ping_pong(s: Seq<u8>, pos: int, h: u8) -> Decoded<BodyView> {
    match dec_zint(s, pos) {
        Ok((hash, p1)) => if spec_has_flag(h, crate::proto::flag::P) {
            Ok((BodyView::Ping { hash }, p1))
        } else {
            Ok((BodyView::Pong { hash }, p1))
        },
        Err(e) => Err(e),
    }
}

pub open spec fn dec_sync(s: Seq<u8>, pos: int, h: u8) -> Decoded<BodyView> {
    let reliable = spec_has_flag(h, crate::proto::flag::R);
    match dec_zint(s, pos) {
        Ok((sn, p1)) => match dec_opt_zint(s, p1, spec_has_flag(h, crate::proto::flag::C)) {
            Ok((count, p2)) => Ok((BodyView::Sync { reliable, sn, count }, p2)),
            Err(e) => Err(e),
        },
        Err(e) => Err(e),
    }
}

pub open spec fn dec_ack_nack(s: Seq<u8>, pos: int, h: u8) -> Decoded<BodyView> {
    match dec_zint(s, pos) {
        Ok((sn, p1)) => match dec_opt_zint(s, p1, spec_has_flag(h, crate::proto::flag::M)) {
            Ok((mask, p2)) => Ok((BodyView::AckNack { sn, mask }, p2)),
            Err(e) => Err(e),
        },
        Err(e) => Err(e),
    }
}

/// What follows the header `h` of a body.
pub open spec fn dec_body(s: Seq<u8>, pos: int, h: u8) -> Decoded<BodyView> {
    let id = spec_mid(h);
    if id == SCOUT {
        dec_scout(s, pos, h)
    } else if id == HELLO {
        dec_hello(s, pos, h)
    } else if id == OPEN {
        dec_open(s, pos, h)
    } else if id == ACCEPT {
        dec_accept(s, pos)
    } else if id == CLOSE {
        dec_close(s, pos, h)
    } else if id == KEEP_ALIVE {
        dec_keep_alive(s, pos, h)
    } else if id == DECLARE {
        dec_declare(s, pos)
    } else if id == DATA {
        dec_data(s, pos, h)
    } else if id == PULL {
        dec_pull(s, pos, h)
    } else if id == QUERY {
        dec_query(s, pos, h)
    } else if id == PING_PONG {
        dec_ping_pong(s, pos, h)
    } else if id == SYNC {
        dec_sync(s, pos, h)
    } else if id == ACK_NACK {
        dec_ack_nack(s, pos, h)
    } else {
        Err(DecodeError::UnknownMessageId(id))
    }
}

// ----- messages

/// The decorations read so far.
pub struct Decorations {
    pub kind: MessageKind,
    pub cid: Option<u64>,
    pub reply_context: Option<ReplyContextView>,
    pub properties: Option<Seq<PropertyView>>,
}

impl Decorations {
    /// No decoration: a whole message, on no conduit, no reply, without properties.
    pub open spec fn none() -> Decorations {
        Decorations {
            kind: MessageKind::FullMessage,
            cid: None,
            reply_context: None,
            properties: None,
        }
    }

    /// The message with these decorations and the body `body`.
    pub open spec fn with_body(self, body: BodyView) -> MessageView {
        MessageView {
            kind: self.kind,
            cid: self.cid,
            reply_context: self.reply_context,
            properties: self.properties,
            body,
        }
    }
}

/// A message: the decorators that it needs, then its body.
pub open spec fn enc_message(m: MessageView) -> Seq<u8> {
    enc_frag(m.kind) + enc_conduit(m.cid) + enc_reply(m.reply_context) + enc_props(m.properties)
        + enc_body(m.body)
}

/// The message at `pos`, where the decorations `d` were read before `pos`.
/// A decorator read twice counts as read the second time.
pub open spec fn dec_message_from(s: Seq<u8>, pos: int, d: Decorations) -> Decoded<MessageView>
    decreases s.len() - pos,
    via dec_message_from_decreases
{
    match dec_u8(s, pos) {
        Ok((h, p)) => {
            let id = spec_mid(h);
            if id == FRAGMENT {
                match dec_frag(s, p, h) {
                    Ok((kind, q)) => dec_message_from(s, q, Decorations { kind, ..d }),
                    Err(e) => Err(e),
                }
            } else if id == CONDUIT {
                match dec_conduit(s, p, h) {
                    Ok((cid, q)) => dec_message_from(s, q, Decorations { cid: Some(cid), ..d }),
                    Err(e) => Err(e),
                }
            } else if id == REPLY {
                match dec_reply(s, p, h) {
                    Ok((r, q)) => dec_message_from(
                        s,
                        q,
                        Decorations { reply_context: Some(r), ..d },
                    ),
                    Err(e) => Err(e),
                }
            } else if id == PROPERTIES {
                match dec_properties(s, p) {
                    Ok((l, q)) => dec_message_from(s, q, Decorations { properties: Some(l), ..d }),
                    Err(e) => Err(e),
                }
            } else {
                match dec_body(s, p, h) {
                    Ok((body, q)) => Ok((d.with_body(body), q)),
                    Err(e) => Err(e),
                }
            }
        },
        Err(e) => Err(e),
    }
}

#[via_fn]
proof fn dec_message_from_decreases(s: Seq<u8>, pos: int, d: Decorations) {
    if let Ok((h, p)) = dec_u8(s, pos) {
        lemma_dec_frag_pos(s, p, h);
        lemma_dec_conduit_pos(s, p, h);
        lemma_dec_reply_pos(s, p, h);
        lemma_dec_properties_pos(s, p);
    }
}

/// The message at `pos`.
pub open spec fn dec_message(s: Seq<u8>, pos: int) -> Decoded<MessageView> {
    dec_message_from(s, pos, Decorations::none())
}

// ----- decoders move forward

pub proof fn lemma_dec_bytes_pos(s: Seq<u8>, pos: int)
    ensures
        dec_bytes(s, pos) matches Ok((v, p)) ==> pos < p <= s.len(),
{
    lemma_dec_zint_pos(s, pos);
}

pub proof fn lemma_dec_frag_pos(s: Seq<u8>, pos: int, h: u8)
    ensures
        dec_frag(s, pos, h) matches Ok((v, p)) ==> pos <= p && (pos <= s.len() ==> p <= s.len()),
{
    lemma_dec_zint_pos(s, pos);
}

pub proof fn lemma_dec_conduit_pos(s: Seq<u8>, pos: int, h: u8)
    ensures
        dec_conduit(s, pos, h) matches Ok((v, p)) ==> pos <= p && (pos <= s.len() ==> p <= s.len()),
{
    lemma_dec_zint_pos(s, pos);
}

pub proof fn lemma_dec_reply_pos(s: Seq<u8>, pos: int, h: u8)
    ensures
        dec_reply(s, pos, h) matches Ok((v, p)) ==> pos <= p && (pos <= s.len() ==> p <= s.len()),
{
    lemma_dec_zint_pos(s, pos);
    if let Ok((qid, p)) = dec_zint(s, pos) {
        lemma_dec_bytes_pos(s, p);
    }
}

pub proof fn lemma_dec_properties_items_pos(s: Seq<u8>, pos: int, n: nat)
    ensures
        dec_properties_items(s, pos, n) matches Ok((v, p)) ==> pos <= p && (pos <= s.len() ==> p <= s.len()),
    decreases n,
{
    if n > 0 {
        lemma_dec_zint_pos(s, pos);
        if let Ok((key, p)) = dec_zint(s, pos) {
            lemma_dec_bytes_pos(s, p);
        }
        if let Ok((x, p)) = dec_property(s, pos) {
            lemma_dec_properties_items_pos(s, p, (n - 1) as nat);
        }
    }
}

pub proof fn lemma_dec_properties_pos(s: Seq<u8>, pos: int)
    ensures
        dec_properties(s, pos) matches Ok((v, p)) ==> pos <= p && (pos <= s.len() ==> p <= s.len()),
{
    lemma_dec_zint_pos(s, pos);
    if let Ok((n, p)) = dec_zint(s, pos) {
        lemma_dec_properties_items_pos(s, p, n as nat);
    }
}

} // verus!
