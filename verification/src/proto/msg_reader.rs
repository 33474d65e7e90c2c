//! Reading messages from a buffer.
//!
//! Every read gives what the decoder of the wire format finds at the read
//! position, and fails where that decoder fails, with the same error.

use vstd::prelude::*;
use crate::io::rwbuf::{reads, RWBuf};
use crate::io::wire::{
    dec_bytes, dec_string, dec_strings, dec_strings_items, dec_zint, lemma_dec_zint_pos,
    lemma_items_split, reads_items, DecodeError,
};
use crate::proto::codec::{
    dec_opt_peerid, dec_peerid, dec_accept, dec_ack_nack, dec_body, dec_close, dec_conduit, dec_consolidation, dec_data,
    dec_declaration, dec_declarations, dec_declarations_items, dec_declare, dec_frag, dec_hello,
    dec_keep_alive, dec_message, dec_message_from, dec_open, dec_opt_bytes, dec_opt_strings,
    dec_opt_zint, dec_ping_pong, dec_properties, dec_properties_items, dec_property, dec_pull,
    dec_query, dec_query_target, dec_reply, dec_reskey, dec_scout, dec_submode, dec_sync,
    dec_target, dec_timestamp, lemma_dec_conduit_pos, lemma_dec_frag_pos, lemma_dec_properties_pos,
    lemma_dec_reply_pos, Decorations,
};
use crate::proto::decl::{
    Declaration, DeclarationView, SubMode, EVAL, FORGET_EVAL, FORGET_PUBLISHER, FORGET_RESOURCE,
    FORGET_STORAGE, FORGET_SUBSCRIBER, MODE_PERIODIC_PULL, MODE_PERIODIC_PUSH, MODE_PULL,
    MODE_PUSH, PUBLISHER, RESOURCE, STORAGE, SUBSCRIBER,
};
use crate::proto::flag::{has_flag, low_flags, mid};
use crate::proto::msg::{
    Body, Message, MessageKind, QueryConsolidation, QueryTarget, ReplyContext, ReplySource,
    Target, ACCEPT, ACK_NACK, CLOSE, CONDUIT, CONSOLIDATION_INCREMENTAL,
    CONSOLIDATION_LAST_BROKER, CONSOLIDATION_NONE, DATA, DECLARE, FRAGMENT, HELLO, KEEP_ALIVE,
    OPEN, PING_PONG, PROPERTIES, PULL, QUERY, REPLY, SCOUT, SYNC, TARGET_ALL,
    TARGET_BEST_MATCHING, TARGET_COMPLETE, TARGET_NONE,
};
use crate::types::{
    opt_bytes_view, PeerId, Property, PropertyView, ResKey, TimeStamp, ZInt, PEER_ID_MAX_LEN,
};

verus! {

impl RWBuf {
    /// Reads a zint if one is `present`.
    pub fn read_opt_zint(&mut self, present: bool) -> (r: Result<Option<ZInt>, DecodeError>)
        ensures
            reads(
                *old(self),
                *final(self),
                r,
                dec_opt_zint(old(self).data(), old(self).read_pos(), present),
            ),
    {
        if present {
            let v = self.read_zint()?;
            Ok(Some(v))
        } else {
            Ok(None)
        }
    }

    /// Reads bytes if some are `present`.
    pub fn read_opt_bytes(&mut self, present: bool) -> (r: Result<Option<Vec<u8>>, DecodeError>)
        ensures
            final(self).data() == old(self).data(),
            match dec_opt_bytes(old(self).data(), old(self).read_pos(), present) {
                Ok((v, p)) => r is Ok && opt_bytes_view(r->Ok_0) == v && final(self).read_pos()
                    == p,
                Err(e) => r is Err && r->Err_0 == e,
            },
    {
        if present {
            let v = self.read_bytes_array()?;
            Ok(Some(v))
        } else {
            Ok(None)
        }
    }

    /// Reads the id of a peer: bytes, of which there may be 16 at most.
    pub fn read_peerid(&mut self) -> (r: Result<PeerId, DecodeError>)
        ensures
            reads(*old(self), *final(self), r, dec_peerid(old(self).data(), old(self).read_pos())),
    {
        let id = self.read_bytes_array()?;
        if id.len() > PEER_ID_MAX_LEN {
            return Err(DecodeError::PeerIdTooLong);
        }
        Ok(PeerId { id })
    }

    /// Reads the id of a peer if one is `present`.
    pub fn read_opt_peerid(&mut self, present: bool) -> (r: Result<Option<PeerId>, DecodeError>)
        ensures
            reads(
                *old(self),
                *final(self),
                r,
                dec_opt_peerid(old(self).data(), old(self).read_pos(), present),
            ),
    {
        if present {
            let v = self.read_peerid()?;
            Ok(Some(v))
        } else {
            Ok(None)
        }
    }

    /// Reads a time stamp: its time, then the 16 bytes of its identifier.
    pub fn read_timestamp(&mut self) -> (r: Result<TimeStamp, DecodeError>)
        ensures
            reads(
                *old(self),
                *final(self),
                r,
                dec_timestamp(old(self).data(), old(self).read_pos()),
            ),
    {
        proof {
            lemma_dec_zint_pos(self.data(), self.read_pos());
        }
        let time = self.read_zint()?;
        let bytes = self.read_slice(16)?;
        let mut id: [u8; 16] = [0;16];
        let mut i: usize = 0;
        while i < 16
            invariant
                i <= 16,
                bytes@.len() == 16,
                forall|k: int| 0 <= k < i ==> id@[k] == bytes@[k],
            decreases 16 - i,
        {
            id[i] = bytes[i];
            i = i + 1;
        }
        assert(id@ =~= bytes@);
        Ok(TimeStamp::new(time, id))
    }

    /// Reads one property: its key and its value.
    pub fn read_property(&mut self) -> (r: Result<Property, DecodeError>)
        ensures
            reads(
                *old(self),
                *final(self),
                r,
                dec_property(old(self).data(), old(self).read_pos()),
            ),
    {
        let key = self.read_zint()?;
        let value = self.read_bytes_array()?;
        Ok(Property { key, value })
    }

    /// Reads what follows the header of a PROPERTIES decorator: a list of properties.
    pub fn read_decl_properties(&mut self, _header: u8) -> (r: Result<Vec<Property>, DecodeError>)
        ensures
            reads(
                *old(self),
                *final(self),
                r,
                dec_properties(old(self).data(), old(self).read_pos()),
            ),
    {
        let ghost s = self.data();
        let n = self.read_zint()?;
        let ghost start = self.read_pos();
        let mut vec: Vec<Property> = Vec::new();
        let mut i: u64 = 0;
        assert(vec.deep_view() =~= Seq::empty());
        while i < n
            invariant
                i <= n,
                self.data() == s,
                s == old(self).data(),
                dec_zint(s, old(self).read_pos()) == Ok::<(u64, int), DecodeError>((n, start)),
                dec_properties_items(s, start, i as nat) == Ok::<
                    (Seq<PropertyView>, int),
                    DecodeError,
                >((vec.deep_view(), self.read_pos())),
            decreases n - i,
        {
            proof {
                reveal_with_fuel(dec_properties_items, 2);
                let items = |s: Seq<u8>, p: int, k: nat| dec_properties_items(s, p, k);
                let item = |s: Seq<u8>, p: int| dec_property(s, p);
                assert(reads_items(items, item, s));
                lemma_items_split(items, item, s, start, i as nat, n as nat);
                lemma_items_split(items, item, s, start, i as nat, (i + 1) as nat);
            }
            let ghost before = vec.deep_view();
            let x = self.read_property()?;
            vec.push(x);
            i = i + 1;
            assert(vec.deep_view() =~= before + (seq![x@] + Seq::empty()));
        }
        Ok(vec)
    }

    /// Reads a list of locators: strings.
    pub fn read_locators(&mut self) -> (r: Result<Vec<String>, DecodeError>)
        ensures
            reads(
                *old(self),
                *final(self),
                r,
                dec_strings(old(self).data(), old(self).read_pos()),
            ),
    {
        let ghost s = self.data();
        let n = self.read_zint()?;
        let ghost start = self.read_pos();
        let mut vec: Vec<String> = Vec::new();
        let mut i: u64 = 0;
        assert(vec.deep_view() =~= Seq::empty());
        while i < n
            invariant
                i <= n,
                self.data() == s,
                s == old(self).data(),
                dec_zint(s, old(self).read_pos()) == Ok::<(u64, int), DecodeError>((n, start)),
                dec_strings_items(s, start, i as nat) == Ok::<(Seq<Seq<char>>, int), DecodeError>(
                    (vec.deep_view(), self.read_pos()),
                ),
            decreases n - i,
        {
            proof {
                reveal_with_fuel(dec_strings_items, 2);
                let items = |s: Seq<u8>, p: int, k: nat| dec_strings_items(s, p, k);
                let item = |s: Seq<u8>, p: int| dec_string(s, p);
                assert(reads_items(items, item, s));
                lemma_items_split(items, item, s, start, i as nat, n as nat);
                lemma_items_split(items, item, s, start, i as nat, (i + 1) as nat);
            }
            let ghost before = vec.deep_view();
            let x = self.read_string()?;
            vec.push(x);
            i = i + 1;
            assert(vec.deep_view() =~= before + (seq![x@] + Seq::empty()));
        }
        Ok(vec)
    }

    /// Reads a list of locators if one is `present`.
    pub fn read_opt_locators(&mut self, present: bool) -> (r: Result<
        Option<Vec<String>>,
        DecodeError,
    >)
        ensures
            reads(
                *old(self),
                *final(self),
                r,
                dec_opt_strings(old(self).data(), old(self).read_pos(), present),
            ),
    {
        if present {
            let v = self.read_locators()?;
            Ok(Some(v))
        } else {
            Ok(None)
        }
    }

    /// Reads a key; `is_numeric` says that it is an id alone.
    pub fn read_reskey(&mut self, is_numeric: bool) -> (r: Result<ResKey, DecodeError>)
        ensures
            reads(
                *old(self),
                *final(self),
                r,
                dec_reskey(old(self).data(), old(self).read_pos(), is_numeric),
            ),
    {
        let id = self.read_zint()?;
        if is_numeric {
            Ok(ResKey::RId(id))
        } else {
            let s = self.read_string()?;
            if id == 0 {
                Ok(ResKey::RName(s))
            } else {
                Ok(ResKey::RIdWithSuffix(id, s))
            }
        }
    }

    /// Reads a subscription mode.
    pub fn read_submode(&mut self) -> (r: Result<SubMode, DecodeError>)
        ensures
            reads(
                *old(self),
                *final(self),
                r,
                dec_submode(old(self).data(), old(self).read_pos()),
            ),
    {
        let id = self.read_zint()?;
        if id == MODE_PUSH {
            Ok(SubMode::Push)
        } else if id == MODE_PULL {
            Ok(SubMode::Pull)
        } else if id == MODE_PERIODIC_PUSH {
            let origin = self.read_zint()?;
            let period = self.read_zint()?;
            let duration = self.read_zint()?;
            Ok(SubMode::PeriodicPush { origin, period, duration })
        } else if id == MODE_PERIODIC_PULL {
            let origin = self.read_zint()?;
            let period = self.read_zint()?;
            let duration = self.read_zint()?;
            Ok(SubMode::PeriodicPull { origin, period, duration })
        } else {
            Err(DecodeError::UnknownSubMode(id))
        }
    }

    /// Reads one target of a query.
    pub fn read_target(&mut self) -> (r: Result<Target, DecodeError>)
        ensures
            reads(*old(self), *final(self), r, dec_target(old(self).data(), old(self).read_pos())),
    {
        let t = self.read_zint()?;
        if t == TARGET_BEST_MATCHING {
            Ok(Target::BestMatching)
        } else if t == TARGET_COMPLETE {
            let n = self.read_zint()?;
            Ok(Target::Complete { n })
        } else if t == TARGET_ALL {
            Ok(Target::All)
        } else if t == TARGET_NONE {
            Ok(Target::NoTarget)
        } else {
            Err(DecodeError::UnknownTarget(t))
        }
    }

    /// Reads the target of a query: the one among the storages, then the one among the evaluators.
    pub fn read_query_target(&mut self) -> (r: Result<QueryTarget, DecodeError>)
        ensures
            reads(
                *old(self),
                *final(self),
                r,
                dec_query_target(old(self).data(), old(self).read_pos()),
            ),
    {
        let storage = self.read_target()?;
        let eval = self.read_target()?;
        Ok(QueryTarget { storage, eval })
    }

    /// Reads a consolidation mode.
    pub fn read_consolidation(&mut self) -> (r: Result<QueryConsolidation, DecodeError>)
        ensures
            reads(
                *old(self),
                *final(self),
                r,
                dec_consolidation(old(self).data(), old(self).read_pos()),
            ),
    {
        let c = self.read_zint()?;
        if c == CONSOLIDATION_NONE {
            Ok(QueryConsolidation::NoConsolidation)
        } else if c == CONSOLIDATION_LAST_BROKER {
            Ok(QueryConsolidation::LastBroker)
        } else if c == CONSOLIDATION_INCREMENTAL {
            Ok(QueryConsolidation::Incremental)
        } else {
            Err(DecodeError::UnknownConsolidation(c))
        }
    }

    /// Reads one declaration: its header, then what it holds.
    pub fn read_declaration(&mut self) -> (r: Result<Declaration, DecodeError>)
        ensures
            reads(
                *old(self),
                *final(self),
                r,
                dec_declaration(old(self).data(), old(self).read_pos()),
            ),
    {
        let header = self.read()?;
        let id = mid(header);
        let numeric = has_flag(header, crate::proto::flag::C);
        if id == RESOURCE {
            let rid = self.read_zint()?;
            let key = self.read_reskey(numeric)?;
            Ok(Declaration::Resource { rid, key })
        } else if id == FORGET_RESOURCE {
            let rid = self.read_zint()?;
            Ok(Declaration::ForgetResource { rid })
        } else if id == SUBSCRIBER {
            let key = self.read_reskey(numeric)?;
            let mode = if has_flag(header, crate::proto::flag::S) {
                self.read_submode()?
            } else {
                SubMode::Push
            };
            Ok(Declaration::Subscriber { key, mode })
        } else if id == FORGET_SUBSCRIBER {
            let key = self.read_reskey(numeric)?;
            Ok(Declaration::ForgetSubscriber { key })
        } else if id == PUBLISHER {
            let key = self.read_reskey(numeric)?;
            Ok(Declaration::Publisher { key })
        } else if id == FORGET_PUBLISHER {
            let key = self.read_reskey(numeric)?;
            Ok(Declaration::ForgetPublisher { key })
        } else if id == STORAGE {
            let key = self.read_reskey(numeric)?;
            Ok(Declaration::Storage { key })
        } else if id == FORGET_STORAGE {
            let key = self.read_reskey(numeric)?;
            Ok(Declaration::ForgetStorage { key })
        } else if id == EVAL {
            let key = self.read_reskey(numeric)?;
            Ok(Declaration::Eval { key })
        } else if id == FORGET_EVAL {
            let key = self.read_reskey(numeric)?;
            Ok(Declaration::ForgetEval { key })
        } else {
            Err(DecodeError::UnknownDeclarationId(id))
        }
    }

    /// Reads a list of declarations.
    pub fn read_declarations(&mut self) -> (r: Result<Vec<Declaration>, DecodeError>)
        ensures
            reads(
                *old(self),
                *final(self),
                r,
                dec_declarations(old(self).data(), old(self).read_pos()),
            ),
    {
        let ghost s = self.data();
        let n = self.read_zint()?;
        let ghost start = self.read_pos();
        let mut vec: Vec<Declaration> = Vec::new();
        let mut i: u64 = 0;
        assert(vec.deep_view() =~= Seq::empty());
        while i < n
            invariant
                i <= n,
                self.data() == s,
                s == old(self).data(),
                dec_zint(s, old(self).read_pos()) == Ok::<(u64, int), DecodeError>((n, start)),
                dec_declarations_items(s, start, i as nat) == Ok::<
                    (Seq<DeclarationView>, int),
                    DecodeError,
                >((vec.deep_view(), self.read_pos())),
            decreases n - i,
        {
            proof {
                reveal_with_fuel(dec_declarations_items, 2);
                let items = |s: Seq<u8>, p: int, k: nat| dec_declarations_items(s, p, k);
                let item = |s: Seq<u8>, p: int| dec_declaration(s, p);
                assert(reads_items(items, item, s));
                lemma_items_split(items, item, s, start, i as nat, n as nat);
                lemma_items_split(items, item, s, start, i as nat, (i + 1) as nat);
            }
            let ghost before = vec.deep_view();
            let x = self.read_declaration()?;
            vec.push(x);
            i = i + 1;
            assert(vec.deep_view() =~= before + (seq![x@] + Seq::empty()));
        }
        Ok(vec)
    }

    /// Reads what follows the header of a FRAGMENT decorator.
    pub fn read_decl_frag(&mut self, header: u8) -> (r: Result<MessageKind, DecodeError>)
        ensures
            reads(
                *old(self),
                *final(self),
                r,
                dec_frag(old(self).data(), old(self).read_pos(), header),
            ),
    {
        if has_flag(header, crate::proto::flag::F) {
            let n = self.read_opt_zint(has_flag(header, crate::proto::flag::C))?;
            Ok(MessageKind::FirstFragment { n })
        } else if has_flag(header, crate::proto::flag::L) {
            Ok(MessageKind::LastFragment)
        } else {
            Ok(MessageKind::InbetweenFragment)
        }
    }

    /// Reads what follows the header of a CONDUIT decorator: nothing where
    /// the header holds the conduit id, else the id.
    pub fn read_decl_conduit(&mut self, header: u8) -> (r: Result<ZInt, DecodeError>)
        ensures
            reads(
                *old(self),
                *final(self),
                r,
                dec_conduit(old(self).data(), old(self).read_pos(), header),
            ),
    {
        if has_flag(header, crate::proto::flag::Z) {
            Ok(low_flags(header) as ZInt)
        } else {
            self.read_zint()
        }
    }

    /// Reads what follows the header of a REPLY decorator.
    pub fn read_decl_reply(&mut self, header: u8) -> (r: Result<ReplyContext, DecodeError>)
        ensures
            reads(
                *old(self),
                *final(self),
                r,
                dec_reply(old(self).data(), old(self).read_pos(), header),
            ),
    {
        let is_final = has_flag(header, crate::proto::flag::F);
        let source = if has_flag(header, crate::proto::flag::E) {
            ReplySource::Eval
        } else {
            ReplySource::Storage
        };
        let qid = self.read_zint()?;
        let replier_id = self.read_opt_peerid(!is_final)?;
        Ok(ReplyContext { is_final, qid, source, replier_id })
    }

    fn read_scout(&mut self, header: u8) -> (r: Result<Body, DecodeError>)
        ensures
            reads(
                *old(self),
                *final(self),
                r,
                dec_scout(old(self).data(), old(self).read_pos(), header),
            ),
    {
        let what = self.read_opt_zint(has_flag(header, crate::proto::flag::W))?;
        Ok(Body::Scout { what })
    }

    fn read_hello(&mut self, header: u8) -> (r: Result<Body, DecodeError>)
        ensures
            reads(
                *old(self),
                *final(self),
                r,
                dec_hello(old(self).data(), old(self).read_pos(), header),
            ),
    {
        let whatami = self.read_opt_zint(has_flag(header, crate::proto::flag::W))?;
        let locators = self.read_opt_locators(has_flag(header, crate::proto::flag::L))?;
        Ok(Body::Hello { whatami, locators })
    }

    fn read_open(&mut self, header: u8) -> (r: Result<Body, DecodeError>)
        ensures
            reads(
                *old(self),
                *final(self),
                r,
                dec_open(old(self).data(), old(self).read_pos(), header),
            ),
    {
        let version = self.read()?;
        let whatami = self.read_opt_zint(has_flag(header, crate::proto::flag::W))?;
        let pid = self.read_peerid()?;
        let lease = self.read_zint()?;
        let locators = self.read_opt_locators(has_flag(header, crate::proto::flag::L))?;
        Ok(Body::Open { version, whatami, pid, lease, locators })
    }

    fn read_accept(&mut self) -> (r: Result<Body, DecodeError>)
        ensures
            reads(*old(self), *final(self), r, dec_accept(old(self).data(), old(self).read_pos())),
    {
        let opid = self.read_peerid()?;
        let apid = self.read_peerid()?;
        let lease = self.read_zint()?;
        Ok(Body::Accept { opid, apid, lease })
    }

    fn read_close(&mut self, header: u8) -> (r: Result<Body, DecodeError>)
        ensures
            reads(
                *old(self),
                *final(self),
                r,
                dec_close(old(self).data(), old(self).read_pos(), header),
            ),
    {
        let pid = self.read_opt_peerid(has_flag(header, crate::proto::flag::P))?;
        let reason = self.read()?;
        Ok(Body::Close { pid, reason })
    }

    fn read_keep_alive(&mut self, header: u8) -> (r: Result<Body, DecodeError>)
        ensures
            reads(
                *old(self),
                *final(self),
                r,
                dec_keep_alive(old(self).data(), old(self).read_pos(), header),
            ),
    {
        let pid = self.read_opt_peerid(has_flag(header, crate::proto::flag::P))?;
        Ok(Body::KeepAlive { pid })
    }

    fn read_declare(&mut self) -> (r: Result<Body, DecodeError>)
        ensures
            reads(
                *old(self),
                *final(self),
                r,
                dec_declare(old(self).data(), old(self).read_pos()),
            ),
    {
        let sn = self.read_zint()?;
        let declarations = self.read_declarations()?;
        Ok(Body::Declare { sn, declarations })
    }

    fn read_data(&mut self, header: u8) -> (r: Result<Body, DecodeError>)
        ensures
            reads(
                *old(self),
                *final(self),
                r,
                dec_data(old(self).data(), old(self).read_pos(), header),
            ),
    {
        let reliable = has_flag(header, crate::proto::flag::R);
        let sn = self.read_zint()?;
        let key = self.read_reskey(has_flag(header, crate::proto::flag::C))?;
        let info = self.read_opt_bytes(has_flag(header, crate::proto::flag::I))?;
        let payload = self.read_bytes_array()?;
        Ok(Body::Data { reliable, sn, key, info, payload })
    }

    fn read_pull(&mut self, header: u8) -> (r: Result<Body, DecodeError>)
        ensures
            reads(
                *old(self),
                *final(self),
                r,
                dec_pull(old(self).data(), old(self).read_pos(), header),
            ),
    {
        let is_final = has_flag(header, crate::proto::flag::F);
        let sn = self.read_zint()?;
        let key = self.read_reskey(has_flag(header, crate::proto::flag::C))?;
        let pull_id = self.read_zint()?;
        let max_samples = self.read_opt_zint(has_flag(header, crate::proto::flag::N))?;
        Ok(Body::Pull { is_final, sn, key, pull_id, max_samples })
    }

    fn read_query(&mut self, header: u8) -> (r: Result<Body, DecodeError>)
        ensures
            reads(
                *old(self),
                *final(self),
                r,
                dec_query(old(self).data(), old(self).read_pos(), header),
            ),
    {
        let sn = self.read_zint()?;
        let key = self.read_reskey(has_flag(header, crate::proto::flag::C))?;
        let predicate = self.read_string()?;
        let qid = self.read_zint()?;
        let target = if has_flag(header, crate::proto::flag::T) {
            Some(self.read_query_target()?)
        } else {
            None
        };
        let consolidation = self.read_consolidation()?;
        Ok(Body::Query { sn, key, predicate, qid, target, consolidation })
    }

    fn read_ping_pong(&mut self, header: u8) -> (r: Result<Body, DecodeError>)
        ensures
            reads(
                *old(self),
                *final(self),
                r,
                dec_ping_pong(old(self).data(), old(self).read_pos(), header),
            ),
    {
        let hash = self.read_zint()?;
        if has_flag(header, crate::proto::flag::P) {
            Ok(Body::Ping { hash })
        } else {
            Ok(Body::Pong { hash })
        }
    }

    fn read_sync(&mut self, header: u8) -> (r: Result<Body, DecodeError>)
        ensures
            reads(
                *old(self),
                *final(self),
                r,
                dec_sync(old(self).data(), old(self).read_pos(), header),
            ),
    {
        let reliable = has_flag(header, crate::proto::flag::R);
        let sn = self.read_zint()?;
        let count = self.read_opt_zint(has_flag(header, crate::proto::flag::C))?;
        Ok(Body::Sync { reliable, sn, count })
    }

    fn read_ack_nack(&mut self, header: u8) -> (r: Result<Body, DecodeError>)
        ensures
            reads(
                *old(self),
                *final(self),
                r,
                dec_ack_nack(old(self).data(), old(self).read_pos(), header),
            ),
    {
        let sn = self.read_zint()?;
        let mask = self.read_opt_zint(has_flag(header, crate::proto::flag::M))?;
        Ok(Body::AckNack { sn, mask })
    }

    /// Reads what follows the header of a message that is no decorator.
    pub fn read_body(&mut self, header: u8) -> (r: Result<Body, DecodeError>)
        ensures
            reads(
                *old(self),
                *final(self),
                r,
                dec_body(old(self).data(), old(self).read_pos(), header),
            ),
    {
        let id = mid(header);
        if id == SCOUT {
            self.read_scout(header)
        } else if id == HELLO {
            self.read_hello(header)
        } else if id == OPEN {
            self.read_open(header)
        } else if id == ACCEPT {
            self.read_accept()
        } else if id == CLOSE {
            self.read_close(header)
        } else if id == KEEP_ALIVE {
            self.read_keep_alive(header)
        } else if id == DECLARE {
            self.read_declare()
        } else if id == DATA {
            self.read_data(header)
        } else if id == PULL {
            self.read_pull(header)
        } else if id == QUERY {
            self.read_query(header)
        } else if id == PING_PONG {
            self.read_ping_pong(header)
        } else if id == SYNC {
            self.read_sync(header)
        } else if id == ACK_NACK {
            self.read_ack_nack(header)
        } else {
            Err(DecodeError::UnknownMessageId(id))
        }
    }

    /// Reads one message: the decorators that come first, each of which
    /// decorates the message, then the body.
    pub fn read_message(&mut self) -> (r: Result<Message, DecodeError>)
        ensures
            reads(
                *old(self),
                *final(self),
                r,
                dec_message(old(self).data(), old(self).read_pos()),
            ),
    {
        let ghost s = self.data();
        let ghost start = self.read_pos();
        let mut kind = MessageKind::FullMessage;
        let mut cid: Option<ZInt> = None;
        let mut reply_context: Option<ReplyContext> = None;
        let mut properties: Option<Vec<Property>> = None;
        loop
            invariant
                self.data() == s,
                s == old(self).data(),
                start == old(self).read_pos(),
                dec_message(s, start) == dec_message_from(
                    s,
                    self.read_pos(),
                    Decorations {
                        kind,
                        cid,
                        reply_context: reply_context.deep_view(),
                        properties: properties.deep_view(),
                    },
                ),
            decreases s.len() - self.read_pos(),
        {
            let ghost pos = self.read_pos();
            let header = self.read()?;
            proof {
                lemma_dec_frag_pos(s, pos + 1, header);
                lemma_dec_conduit_pos(s, pos + 1, header);
                lemma_dec_reply_pos(s, pos + 1, header);
                lemma_dec_properties_pos(s, pos + 1);
            }
            let id = mid(header);
            if id == FRAGMENT {
                kind = self.read_decl_frag(header)?;
            } else if id == CONDUIT {
                cid = Some(self.read_decl_conduit(header)?);
            } else if id == REPLY {
                reply_context = Some(self.read_decl_reply(header)?);
            } else if id == PROPERTIES {
                properties = Some(self.read_decl_properties(header)?);
            } else {
                let body = self.read_body(header)?;
                return Ok(Message { kind, cid, reply_context, properties, body });
            }
        }
    }
}

} // verus!
