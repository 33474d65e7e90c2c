//! Decoding an encoded message gives the message back.

use vstd::prelude::*;
use crate::io::wire::{
    dec_u8, enc_bytes, enc_string, enc_u8, enc_zint, has_at, lemma_bytes_roundtrip, lemma_has_at_self,
    lemma_has_at_split, lemma_string_roundtrip, lemma_u8_roundtrip, lemma_zint_roundtrip,
    strings_fit, DecodeError,
};
use crate::proto::codec::{
    lemma_opt_peerid_roundtrip, lemma_peerid_roundtrip, peerid_fit, bytes_fit, dec_body, is_decorator, dec_message, dec_message_from, declarations_fit, enc_body, enc_conduit,
    enc_consolidation, enc_declarations, enc_frag, enc_header, enc_message, enc_opt_bytes,
    enc_opt_query_target, enc_opt_strings, enc_opt_zint, enc_properties, enc_props, enc_reply,
    enc_reskey, lemma_consolidation_roundtrip, lemma_declarations_roundtrip, lemma_header_at,
    lemma_opt_bytes_roundtrip, lemma_opt_strings_roundtrip, lemma_opt_zint_roundtrip,
    lemma_properties_roundtrip, lemma_query_target_roundtrip, lemma_reskey_roundtrip,
    lemma_split3, lemma_split4, lemma_split5, lemma_split6, lemma_split7, properties_fit,
    reskey_fit, string_fit, Decorations,
};
use crate::proto::flag::{lemma_header, spec_header, spec_mid};
use crate::proto::msg::{
    BodyView, MessageKind, MessageView, ReplyContextView, ReplySource, ACCEPT, ACK_NACK, CLOSE,
    CONDUIT, DATA, DECLARE, FRAGMENT, HELLO, KEEP_ALIVE, OPEN, PING_PONG, PROPERTIES, PULL,
    QUERY, REPLY, SCOUT, SYNC,
};
use crate::types::PropertyView;

verus! {

/// The wire can carry the body and give it back: every key with a suffix has
/// an id, no id of a peer is longer than it may be, and nothing is too long
/// for its length to be a zint.
pub open spec fn body_fit(b: BodyView) -> bool {
    match b {
        BodyView::Scout { .. } => true,
        BodyView::Hello { locators, .. } => locators matches Some(l) ==> l.len() <= u64::MAX
            && strings_fit(l),
        BodyView::Open { pid, locators, .. } => peerid_fit(pid) && (locators matches Some(l)
            ==> l.len() <= u64::MAX && strings_fit(l)),
        BodyView::Accept { opid, apid, .. } => peerid_fit(opid) && peerid_fit(apid),
        BodyView::Close { pid, .. } => pid matches Some(p) ==> peerid_fit(p),
        BodyView::KeepAlive { pid } => pid matches Some(p) ==> peerid_fit(p),
        BodyView::Declare { declarations, .. } => declarations_fit(declarations),
        BodyView::Data { key, info, payload, .. } => reskey_fit(key) && bytes_fit(payload) && (
        info matches Some(i) ==> bytes_fit(i)),
        BodyView::Pull { key, .. } => reskey_fit(key),
        BodyView::Query { key, predicate, .. } => reskey_fit(key) && string_fit(predicate),
        BodyView::Ping { .. } => true,
        BodyView::Pong { .. } => true,
        BodyView::Sync { .. } => true,
        BodyView::AckNack { .. } => true,
    }
}

/// The wire can carry the reply context and give it back.
pub open spec fn reply_fit(c: ReplyContextView) -> bool {
    &&& c.wf()
    &&& c.replier_id matches Some(p) ==> peerid_fit(p)
}

/// The wire can carry the message and give it back.
pub open spec fn message_fit(m: MessageView) -> bool {
    &&& m.reply_context matches Some(c) ==> reply_fit(c)
    &&& m.properties matches Some(l) ==> properties_fit(l)
    &&& body_fit(m.body)
}

/// The header of a body.
pub open spec fn body_header(b: BodyView) -> u8 {
    match b {
        BodyView::Scout { what } => spec_header(SCOUT, what is Some, false, false),
        BodyView::Hello { whatami, locators } => spec_header(
            HELLO,
            whatami is Some,
            false,
            locators is Some,
        ),
        BodyView::Open { whatami, locators, .. } => spec_header(
            OPEN,
            whatami is Some,
            false,
            locators is Some,
        ),
        BodyView::Accept { .. } => spec_header(ACCEPT, false, false, false),
        BodyView::Close { pid, .. } => spec_header(CLOSE, pid is Some, false, false),
        BodyView::KeepAlive { pid } => spec_header(KEEP_ALIVE, pid is Some, false, false),
        BodyView::Declare { .. } => spec_header(DECLARE, false, false, false),
        BodyView::Data { reliable, key, info, .. } => spec_header(
            DATA,
            reliable,
            key is RId,
            info is Some,
        ),
        BodyView::Pull { is_final, key, max_samples, .. } => spec_header(
            PULL,
            is_final,
            key is RId,
            max_samples is Some,
        ),
        BodyView::Query { key, target, .. } => spec_header(QUERY, target is Some, key is RId, false),
        BodyView::Ping { .. } => spec_header(PING_PONG, true, false, false),
        BodyView::Pong { .. } => spec_header(PING_PONG, false, false, false),
        BodyView::Sync { reliable, count, .. } => spec_header(SYNC, reliable, count is Some, false),
        BodyView::AckNack { mask, .. } => spec_header(ACK_NACK, mask is Some, false, false),
    }
}

/// The body `b` is read at `pos`: first its header, which is no decorator's, then the rest.
pub open spec fn body_decodes(s: Seq<u8>, pos: int, b: BodyView) -> bool {
    &&& dec_u8(s, pos) == Ok::<(u8, int), DecodeError>((body_header(b), pos + 1))
    &&& !is_decorator(spec_mid(body_header(b)))
    &&& dec_body(s, pos + 1, body_header(b)) == Ok::<(BodyView, int), DecodeError>(
        (b, pos + enc_body(b).len()),
    )
}

proof fn lemma_scout(s: Seq<u8>, pos: int, b: BodyView)
    requires
        b is Scout,
        has_at(s, pos, enc_body(b)),
    ensures
        body_decodes(s, pos, b),
{
    if let BodyView::Scout { what } = b {
        let h = spec_header(SCOUT, what is Some, false, false);
        lemma_header(SCOUT, what is Some, false, false);
        lemma_has_at_split(s, pos, enc_header(h), enc_opt_zint(what));
        lemma_header_at(s, pos, h);
        lemma_opt_zint_roundtrip(s, pos + 1, what);
    }
}

proof fn lemma_hello(s: Seq<u8>, pos: int, b: BodyView)
    requires
        b is Hello,
        body_fit(b),
        has_at(s, pos, enc_body(b)),
    ensures
        body_decodes(s, pos, b),
{
    if let BodyView::Hello { whatami, locators } = b {
        let h = spec_header(HELLO, whatami is Some, false, locators is Some);
        lemma_header(HELLO, whatami is Some, false, locators is Some);
        lemma_split3(s, pos, enc_header(h), enc_opt_zint(whatami), enc_opt_strings(locators));
        lemma_header_at(s, pos, h);
        lemma_opt_zint_roundtrip(s, pos + 1, whatami);
        lemma_opt_strings_roundtrip(s, pos + 1 + enc_opt_zint(whatami).len(), locators);
    }
}

proof fn lemma_open(s: Seq<u8>, pos: int, b: BodyView)
    requires
        b is Open,
        body_fit(b),
        has_at(s, pos, enc_body(b)),
    ensures
        body_decodes(s, pos, b),
{
    if let BodyView::Open { version, whatami, pid, lease, locators } = b {
        let h = spec_header(OPEN, whatami is Some, false, locators is Some);
        lemma_header(OPEN, whatami is Some, false, locators is Some);
        lemma_split6(
            s,
            pos,
            enc_header(h),
            enc_u8(version),
            enc_opt_zint(whatami),
            enc_bytes(pid),
            enc_zint(lease as nat),
            enc_opt_strings(locators),
        );
        lemma_header_at(s, pos, h);
        let p1 = pos + 1;
        lemma_u8_roundtrip(s, p1, version);
        let p2 = p1 + 1;
        lemma_opt_zint_roundtrip(s, p2, whatami);
        let p3 = p2 + enc_opt_zint(whatami).len();
        lemma_peerid_roundtrip(s, p3, pid);
        let p4 = p3 + enc_bytes(pid).len();
        lemma_zint_roundtrip(s, p4, lease);
        let p5 = p4 + enc_zint(lease as nat).len();
        lemma_opt_strings_roundtrip(s, p5, locators);
    }
}

proof fn lemma_accept(s: Seq<u8>, pos: int, b: BodyView)
    requires
        b is Accept,
        body_fit(b),
        has_at(s, pos, enc_body(b)),
    ensures
        body_decodes(s, pos, b),
{
    if let BodyView::Accept { opid, apid, lease } = b {
        let h = spec_header(ACCEPT, false, false, false);
        lemma_header(ACCEPT, false, false, false);
        lemma_split4(s, pos, enc_header(h), enc_bytes(opid), enc_bytes(apid), enc_zint(lease as nat));
        lemma_header_at(s, pos, h);
        let p1 = pos + 1;
        lemma_peerid_roundtrip(s, p1, opid);
        let p2 = p1 + enc_bytes(opid).len();
        lemma_peerid_roundtrip(s, p2, apid);
        let p3 = p2 + enc_bytes(apid).len();
        lemma_zint_roundtrip(s, p3, lease);
    }
}

proof fn lemma_close(s: Seq<u8>, pos: int, b: BodyView)
    requires
        b is Close,
        body_fit(b),
        has_at(s, pos, enc_body(b)),
    ensures
        body_decodes(s, pos, b),
{
    if let BodyView::Close { pid, reason } = b {
        let h = spec_header(CLOSE, pid is Some, false, false);
        lemma_header(CLOSE, pid is Some, false, false);
        lemma_split3(s, pos, enc_header(h), enc_opt_bytes(pid), enc_u8(reason));
        lemma_header_at(s, pos, h);
        let p1 = pos + 1;
        lemma_opt_peerid_roundtrip(s, p1, pid);
        let p2 = p1 + enc_opt_bytes(pid).len();
        lemma_u8_roundtrip(s, p2, reason);
    }
}

proof fn lemma_keep_alive(s: Seq<u8>, pos: int, b: BodyView)
    requires
        b is KeepAlive,
        body_fit(b),
        has_at(s, pos, enc_body(b)),
    ensures
        body_decodes(s, pos, b),
{
    if let BodyView::KeepAlive { pid } = b {
        let h = spec_header(KEEP_ALIVE, pid is Some, false, false);
        lemma_header(KEEP_ALIVE, pid is Some, false, false);
        lemma_has_at_split(s, pos, enc_header(h), enc_opt_bytes(pid));
        lemma_header_at(s, pos, h);
        lemma_opt_peerid_roundtrip(s, pos + 1, pid);
    }
}

proof fn lemma_declare(s: Seq<u8>, pos: int, b: BodyView)
    requires
        b is Declare,
        body_fit(b),
        has_at(s, pos, enc_body(b)),
    ensures
        body_decodes(s, pos, b),
{
    if let BodyView::Declare { sn, declarations } = b {
        let h = spec_header(DECLARE, false, false, false);
        lemma_header(DECLARE, false, false, false);
        lemma_split3(s, pos, enc_header(h), enc_zint(sn as nat), enc_declarations(declarations));
        lemma_header_at(s, pos, h);
        let p1 = pos + 1;
        lemma_zint_roundtrip(s, p1, sn);
        let p2 = p1 + enc_zint(sn as nat).len();
        lemma_declarations_roundtrip(s, p2, declarations);
    }
}

proof fn lemma_data(s: Seq<u8>, pos: int, b: BodyView)
    requires
        b is Data,
        body_fit(b),
        has_at(s, pos, enc_body(b)),
    ensures
        body_decodes(s, pos, b),
{
    if let BodyView::Data { reliable, sn, key, info, payload } = b {
        let h = spec_header(DATA, reliable, key is RId, info is Some);
        lemma_header(DATA, reliable, key is RId, info is Some);
        lemma_split5(
            s,
            pos,
            enc_header(h),
            enc_zint(sn as nat),
            enc_reskey(key),
            enc_opt_bytes(info),
            enc_bytes(payload),
        );
        lemma_header_at(s, pos, h);
        let p1 = pos + 1;
        lemma_zint_roundtrip(s, p1, sn);
        let p2 = p1 + enc_zint(sn as nat).len();
        lemma_reskey_roundtrip(s, p2, key);
        let p3 = p2 + enc_reskey(key).len();
        lemma_opt_bytes_roundtrip(s, p3, info);
        let p4 = p3 + enc_opt_bytes(info).len();
        lemma_bytes_roundtrip(s, p4, payload);
    }
}

proof fn lemma_pull(s: Seq<u8>, pos: int, b: BodyView)
    requires
        b is Pull,
        body_fit(b),
        has_at(s, pos, enc_body(b)),
    ensures
        body_decodes(s, pos, b),
{
    if let BodyView::Pull { is_final, sn, key, pull_id, max_samples } = b {
        let h = spec_header(PULL, is_final, key is RId, max_samples is Some);
        lemma_header(PULL, is_final, key is RId, max_samples is Some);
        lemma_split5(
            s,
            pos,
            enc_header(h),
            enc_zint(sn as nat),
            enc_reskey(key),
            enc_zint(pull_id as nat),
            enc_opt_zint(max_samples),
        );
        lemma_header_at(s, pos, h);
        let p1 = pos + 1;
        lemma_zint_roundtrip(s, p1, sn);
        let p2 = p1 + enc_zint(sn as nat).len();
        lemma_reskey_roundtrip(s, p2, key);
        let p3 = p2 + enc_reskey(key).len();
        lemma_zint_roundtrip(s, p3, pull_id);
        let p4 = p3 + enc_zint(pull_id as nat).len();
        lemma_opt_zint_roundtrip(s, p4, max_samples);
    }
}

proof fn lemma_query(s: Seq<u8>, pos: int, b: BodyView)
    requires
        b is Query,
        body_fit(b),
        has_at(s, pos, enc_body(b)),
    ensures
        body_decodes(s, pos, b),
{
    if let BodyView::Query { sn, key, predicate, qid, target, consolidation } = b {
        let h = spec_header(QUERY, target is Some, key is RId, false);
        lemma_header(QUERY, target is Some, key is RId, false);
        lemma_split7(
            s,
            pos,
            enc_header(h),
            enc_zint(sn as nat),
            enc_reskey(key),
            enc_string(predicate),
            enc_zint(qid as nat),
            enc_opt_query_target(target),
            enc_consolidation(consolidation),
        );
        lemma_header_at(s, pos, h);
        let p1 = pos + 1;
        lemma_zint_roundtrip(s, p1, sn);
        let p2 = p1 + enc_zint(sn as nat).len();
        lemma_reskey_roundtrip(s, p2, key);
        let p3 = p2 + enc_reskey(key).len();
        lemma_string_roundtrip(s, p3, predicate);
        let p4 = p3 + enc_string(predicate).len();
        lemma_zint_roundtrip(s, p4, qid);
        let p5 = p4 + enc_zint(qid as nat).len();
        if let Some(t) = target {
            lemma_query_target_roundtrip(s, p5, t);
        }
        let p6 = p5 + enc_opt_query_target(target).len();
        lemma_consolidation_roundtrip(s, p6, consolidation);
    }
}

proof fn lemma_ping_pong(s: Seq<u8>, pos: int, b: BodyView)
    requires
        b is Ping || b is Pong,
        has_at(s, pos, enc_body(b)),
    ensures
        body_decodes(s, pos, b),
{
    match b {
        BodyView::Ping { hash } => {
            let h = spec_header(PING_PONG, true, false, false);
            lemma_header(PING_PONG, true, false, false);
            lemma_has_at_split(s, pos, enc_header(h), enc_zint(hash as nat));
            lemma_header_at(s, pos, h);
            lemma_zint_roundtrip(s, pos + 1, hash);
        },
        BodyView::Pong { hash } => {
            let h = spec_header(PING_PONG, false, false, false);
            lemma_header(PING_PONG, false, false, false);
            lemma_has_at_split(s, pos, enc_header(h), enc_zint(hash as nat));
            lemma_header_at(s, pos, h);
            lemma_zint_roundtrip(s, pos + 1, hash);
        },
        _ => {},
    }
}

proof fn lemma_sync(s: Seq<u8>, pos: int, b: BodyView)
    requires
        b is Sync,
        has_at(s, pos, enc_body(b)),
    ensures
        body_decodes(s, pos, b),
{
    if let BodyView::Sync { reliable, sn, count } = b {
        let h = spec_header(SYNC, reliable, count is Some, false);
        lemma_header(SYNC, reliable, count is Some, false);
        lemma_split3(s, pos, enc_header(h), enc_zint(sn as nat), enc_opt_zint(count));
        lemma_header_at(s, pos, h);
        lemma_zint_roundtrip(s, pos + 1, sn);
        lemma_opt_zint_roundtrip(s, pos + 1 + enc_zint(sn as nat).len(), count);
    }
}

proof fn lemma_ack_nack(s: Seq<u8>, pos: int, b: BodyView)
    requires
        b is AckNack,
        has_at(s, pos, enc_body(b)),
    ensures
        body_decodes(s, pos, b),
{
    if let BodyView::AckNack { sn, mask } = b {
        let h = spec_header(ACK_NACK, mask is Some, false, false);
        lemma_header(ACK_NACK, mask is Some, false, false);
        lemma_split3(s, pos, enc_header(h), enc_zint(sn as nat), enc_opt_zint(mask));
        lemma_header_at(s, pos, h);
        lemma_zint_roundtrip(s, pos + 1, sn);
        lemma_opt_zint_roundtrip(s, pos + 1 + enc_zint(sn as nat).len(), mask);
    }
}

/// Where the body of a message stands, the message is read with the
/// decorations that were read before.
pub proof fn lemma_body_roundtrip(s: Seq<u8>, pos: int, b: BodyView, d: Decorations)
    requires
        body_fit(b),
        has_at(s, pos, enc_body(b)),
    ensures
        dec_message_from(s, pos, d) == Ok::<(MessageView, int), DecodeError>(
            (d.with_body(b), pos + enc_body(b).len()),
        ),
{
    match b {
        BodyView::Scout { .. } => lemma_scout(s, pos, b),
        BodyView::Hello { .. } => lemma_hello(s, pos, b),
        BodyView::Open { .. } => lemma_open(s, pos, b),
        BodyView::Accept { .. } => lemma_accept(s, pos, b),
        BodyView::Close { .. } => lemma_close(s, pos, b),
        BodyView::KeepAlive { .. } => lemma_keep_alive(s, pos, b),
        BodyView::Declare { .. } => lemma_declare(s, pos, b),
        BodyView::Data { .. } => lemma_data(s, pos, b),
        BodyView::Pull { .. } => lemma_pull(s, pos, b),
        BodyView::Query { .. } => lemma_query(s, pos, b),
        BodyView::Ping { .. } => lemma_ping_pong(s, pos, b),
        BodyView::Pong { .. } => lemma_ping_pong(s, pos, b),
        BodyView::Sync { .. } => lemma_sync(s, pos, b),
        BodyView::AckNack { .. } => lemma_ack_nack(s, pos, b),
    }
    assert(body_decodes(s, pos, b));
}

/// The decorations `d`, with the properties `o` in place of those of `d` where there are any.
pub open spec fn with_props(d: Decorations, o: Option<Seq<PropertyView>>) -> Decorations {
    if o is Some {
        Decorations { properties: o, ..d }
    } else {
        d
    }
}

/// The decorations `d`, with the reply context `r` in place of that of `d` where there is one.
pub open spec fn with_reply(d: Decorations, r: Option<ReplyContextView>) -> Decorations {
    if r is Some {
        Decorations { reply_context: r, ..d }
    } else {
        d
    }
}

/// The decorations `d`, with the conduit id `c` in place of that of `d` where there is one.
pub open spec fn with_conduit(d: Decorations, c: Option<u64>) -> Decorations {
    if c is Some {
        Decorations { cid: c, ..d }
    } else {
        d
    }
}

/// The decorations `d`, with the kind `k` in place of that of `d` unless `k` is a whole message.
pub open spec fn with_kind(d: Decorations, k: MessageKind) -> Decorations {
    if k != MessageKind::FullMessage {
        Decorations { kind: k, ..d }
    } else {
        d
    }
}

proof fn lemma_props_step(s: Seq<u8>, pos: int, l: Seq<PropertyView>, d: Decorations)
    requires
        has_at(s, pos, enc_props(Some(l))),
        properties_fit(l),
    ensures
        dec_message_from(s, pos, d) == dec_message_from(
            s,
            pos + enc_props(Some(l)).len(),
            Decorations { properties: Some(l), ..d },
        ),
{
    let h = spec_header(PROPERTIES, false, false, false);
    lemma_header(PROPERTIES, false, false, false);
    lemma_has_at_split(s, pos, enc_header(h), enc_properties(l));
    lemma_header_at(s, pos, h);
    lemma_properties_roundtrip(s, pos + 1, l);
}

proof fn lemma_props_stage(
    s: Seq<u8>,
    pos: int,
    o: Option<Seq<PropertyView>>,
    b: BodyView,
    d: Decorations,
)
    requires
        has_at(s, pos, enc_props(o)),
        has_at(s, pos + enc_props(o).len(), enc_body(b)),
        o matches Some(l) ==> properties_fit(l),
        body_fit(b),
    ensures
        dec_message_from(s, pos, d) == Ok::<(MessageView, int), DecodeError>(
            (with_props(d, o).with_body(b), pos + enc_props(o).len() + enc_body(b).len()),
        ),
{
    match o {
        None => {
            lemma_body_roundtrip(s, pos, b, d);
        },
        Some(l) => {
            lemma_props_step(s, pos, l, d);
            lemma_body_roundtrip(s, pos + enc_props(o).len(), b, with_props(d, o));
        },
    }
}

proof fn lemma_reply_step(s: Seq<u8>, pos: int, c: ReplyContextView, d: Decorations)
    requires
        has_at(s, pos, enc_reply(Some(c))),
        reply_fit(c),
    ensures
        dec_message_from(s, pos, d) == dec_message_from(
            s,
            pos + enc_reply(Some(c)).len(),
            Decorations { reply_context: Some(c), ..d },
        ),
{
    let h = spec_header(REPLY, c.is_final, c.source == ReplySource::Eval, false);
    lemma_header(REPLY, c.is_final, c.source == ReplySource::Eval, false);
    lemma_split3(s, pos, enc_header(h), enc_zint(c.qid as nat), enc_opt_bytes(c.replier_id));
    lemma_header_at(s, pos, h);
    lemma_zint_roundtrip(s, pos + 1, c.qid);
    lemma_opt_peerid_roundtrip(s, pos + 1 + enc_zint(c.qid as nat).len(), c.replier_id);
}

proof fn lemma_reply_stage(
    s: Seq<u8>,
    pos: int,
    r: Option<ReplyContextView>,
    o: Option<Seq<PropertyView>>,
    b: BodyView,
    d: Decorations,
)
    requires
        has_at(s, pos, enc_reply(r)),
        has_at(s, pos + enc_reply(r).len(), enc_props(o)),
        has_at(s, pos + enc_reply(r).len() + enc_props(o).len(), enc_body(b)),
        r matches Some(c) ==> reply_fit(c),
        o matches Some(l) ==> properties_fit(l),
        body_fit(b),
    ensures
        dec_message_from(s, pos, d) == Ok::<(MessageView, int), DecodeError>(
            (
                with_props(with_reply(d, r), o).with_body(b),
                pos + enc_reply(r).len() + enc_props(o).len() + enc_body(b).len(),
            ),
        ),
{
    match r {
        None => {
            lemma_props_stage(s, pos, o, b, d);
        },
        Some(c) => {
            lemma_reply_step(s, pos, c, d);
            lemma_props_stage(s, pos + enc_reply(r).len(), o, b, with_reply(d, r));
        },
    }
}

proof fn lemma_conduit_step(s: Seq<u8>, pos: int, id: u64, d: Decorations)
    requires
        has_at(s, pos, enc_conduit(Some(id))),
    ensures
        dec_message_from(s, pos, d) == dec_message_from(
            s,
            pos + enc_conduit(Some(id)).len(),
            Decorations { cid: Some(id), ..d },
        ),
{
    if id <= 3 {
        let h = spec_header(CONDUIT, id % 2 == 1, id / 2 == 1, true);
        lemma_header(CONDUIT, id % 2 == 1, id / 2 == 1, true);
        lemma_header_at(s, pos, h);
    } else {
        let h = spec_header(CONDUIT, false, false, false);
        lemma_header(CONDUIT, false, false, false);
        lemma_has_at_split(s, pos, enc_header(h), enc_zint(id as nat));
        lemma_header_at(s, pos, h);
        lemma_zint_roundtrip(s, pos + 1, id);
    }
}

proof fn lemma_conduit_stage(
    s: Seq<u8>,
    pos: int,
    cid: Option<u64>,
    r: Option<ReplyContextView>,
    o: Option<Seq<PropertyView>>,
    b: BodyView,
    d: Decorations,
)
    requires
        has_at(s, pos, enc_conduit(cid)),
        has_at(s, pos + enc_conduit(cid).len(), enc_reply(r)),
        has_at(s, pos + enc_conduit(cid).len() + enc_reply(r).len(), enc_props(o)),
        has_at(
            s,
            pos + enc_conduit(cid).len() + enc_reply(r).len() + enc_props(o).len(),
            enc_body(b),
        ),
        r matches Some(c) ==> reply_fit(c),
        o matches Some(l) ==> properties_fit(l),
        body_fit(b),
    ensures
        dec_message_from(s, pos, d) == Ok::<(MessageView, int), DecodeError>(
            (
                with_props(with_reply(with_conduit(d, cid), r), o).with_body(b),
                pos + enc_conduit(cid).len() + enc_reply(r).len() + enc_props(o).len() + enc_body(
                    b,
                ).len(),
            ),
        ),
{
    match cid {
        None => {
            lemma_reply_stage(s, pos, r, o, b, d);
        },
        Some(id) => {
            lemma_conduit_step(s, pos, id, d);
            lemma_reply_stage(s, pos + enc_conduit(cid).len(), r, o, b, with_conduit(d, cid));
        },
    }
}

proof fn lemma_frag_step(s: Seq<u8>, pos: int, kind: MessageKind, d: Decorations)
    requires
        has_at(s, pos, enc_frag(kind)),
    ensures
        dec_message_from(s, pos, d) == dec_message_from(
            s,
            pos + enc_frag(kind).len(),
            with_kind(d, kind),
        ),
{
    match kind {
        MessageKind::FullMessage => {},
        MessageKind::FirstFragment { n } => {
            let h = spec_header(FRAGMENT, true, n is Some, false);
            lemma_header(FRAGMENT, true, n is Some, false);
            lemma_has_at_split(s, pos, enc_header(h), enc_opt_zint(n));
            lemma_header_at(s, pos, h);
            lemma_opt_zint_roundtrip(s, pos + 1, n);
        },
        MessageKind::InbetweenFragment => {
            let h = spec_header(FRAGMENT, false, false, false);
            lemma_header(FRAGMENT, false, false, false);
            lemma_header_at(s, pos, h);
        },
        MessageKind::LastFragment => {
            let h = spec_header(FRAGMENT, false, false, true);
            lemma_header(FRAGMENT, false, false, true);
            lemma_header_at(s, pos, h);
        },
    }
}

proof fn lemma_frag_stage(s: Seq<u8>, pos: int, m: MessageView, d: Decorations)
    requires
        has_at(s, pos, enc_frag(m.kind)),
        has_at(s, pos + enc_frag(m.kind).len(), enc_conduit(m.cid)),
        has_at(s, pos + enc_frag(m.kind).len() + enc_conduit(m.cid).len(), enc_reply(m.reply_context)),
        has_at(
            s,
            pos + enc_frag(m.kind).len() + enc_conduit(m.cid).len() + enc_reply(
                m.reply_context,
            ).len(),
            enc_props(m.properties),
        ),
        has_at(
            s,
            pos + enc_frag(m.kind).len() + enc_conduit(m.cid).len() + enc_reply(
                m.reply_context,
            ).len() + enc_props(m.properties).len(),
            enc_body(m.body),
        ),
        message_fit(m),
    ensures
        dec_message_from(s, pos, d) == Ok::<(MessageView, int), DecodeError>(
            (
                with_props(
                    with_reply(with_conduit(with_kind(d, m.kind), m.cid), m.reply_context),
                    m.properties,
                ).with_body(m.body),
                pos + enc_message(m).len(),
            ),
        ),
{
    let next = pos + enc_frag(m.kind).len();
    lemma_frag_step(s, pos, m.kind, d);
    lemma_conduit_stage(
        s,
        next,
        m.cid,
        m.reply_context,
        m.properties,
        m.body,
        with_kind(d, m.kind),
    );
}

/// Where an encoded message stands, decoding gives the message back and
/// stops right behind it.
pub proof fn lemma_message_roundtrip_at(s: Seq<u8>, pos: int, m: MessageView)
    requires
        message_fit(m),
        has_at(s, pos, enc_message(m)),
    ensures
        dec_message(s, pos) == Ok::<(MessageView, int), DecodeError>(
            (m, pos + enc_message(m).len()),
        ),
{
    lemma_split5(
        s,
        pos,
        enc_frag(m.kind),
        enc_conduit(m.cid),
        enc_reply(m.reply_context),
        enc_props(m.properties),
        enc_body(m.body),
    );
    lemma_frag_stage(s, pos, m, Decorations::none());
}

/// Round trip: decoding the encoding of a message gives the message back,
/// for every message that the wire can carry.
pub proof fn lemma_message_roundtrip(m: MessageView)
    requires
        message_fit(m),
    ensures
        dec_message(enc_message(m), 0) == Ok::<(MessageView, int), DecodeError>(
            (m, enc_message(m).len() as int),
        ),
{
    lemma_has_at_self(enc_message(m));
    lemma_message_roundtrip_at(enc_message(m), 0, m);
}

} // verus!
