//! Writing messages to a buffer.
//!
//! Every write appends the bytes that the encoder of the wire format gives
//! for the value, and leaves the read position where it is.

use vstd::prelude::*;
use crate::io::rwbuf::RWBuf;
use crate::io::wire::{enc_bytes, enc_string, enc_strings, enc_strings_items, enc_u8, enc_zint};
use crate::proto::codec::{
    enc_body, enc_conduit, enc_consolidation, enc_declaration, enc_declarations,
    enc_declarations_items, enc_frag, enc_header, enc_message, enc_opt_bytes, enc_opt_query_target,
    enc_opt_strings, enc_opt_submode, enc_opt_zint, enc_properties, enc_properties_items,
    enc_property, enc_props, enc_query_target, enc_reply, enc_reskey, enc_submode, enc_target,
    enc_timestamp,
};
use crate::proto::decl::{
    Declaration, DeclarationView, SubMode, EVAL, FORGET_EVAL, FORGET_PUBLISHER, FORGET_RESOURCE,
    FORGET_STORAGE, FORGET_SUBSCRIBER, MODE_PERIODIC_PULL, MODE_PERIODIC_PUSH, MODE_PULL,
    MODE_PUSH, PUBLISHER, RESOURCE, STORAGE, SUBSCRIBER,
};
use crate::proto::flag::{header, spec_header};
use crate::proto::msg::{
    Body, BodyView, Message, MessageKind, QueryConsolidation, QueryTarget, ReplyContext, ReplySource,
    Target, ACCEPT, ACK_NACK, CLOSE, CONDUIT, CONSOLIDATION_INCREMENTAL,
    CONSOLIDATION_LAST_BROKER, CONSOLIDATION_NONE, DATA, DECLARE, FRAGMENT, HELLO, KEEP_ALIVE,
    OPEN, PING_PONG, PROPERTIES, PULL, QUERY, REPLY, SCOUT, SYNC, TARGET_ALL,
    TARGET_BEST_MATCHING, TARGET_COMPLETE, TARGET_NONE,
};
use crate::types::{opt_bytes_view, PeerId, Property, PropertyView, ResKey, TimeStamp, ZInt};

verus! {

/// What a write does: it appends `bytes` and leaves the read position.
pub open spec fn writes(pre: RWBuf, post: RWBuf, bytes: Seq<u8>) -> bool {
    &&& post.data() == pre.data() + bytes
    &&& post.read_pos() == pre.read_pos()
}

/// Appending piece by piece is appending the pieces put together.
pub proof fn lemma_concat2(d: Seq<u8>, a: Seq<u8>, b: Seq<u8>)
    ensures
        d + a + b == d + (a + b),
{
    assert(d + a + b =~= d + (a + b));
}

pub proof fn lemma_concat3(d: Seq<u8>, a: Seq<u8>, b: Seq<u8>, c: Seq<u8>)
    ensures
        d + a + b + c == d + (a + b + c),
{
    assert(d + a + b + c =~= d + (a + b + c));
}

pub proof fn lemma_concat4(d: Seq<u8>, a: Seq<u8>, b: Seq<u8>, c: Seq<u8>, e: Seq<u8>)
    ensures
        d + a + b + c + e == d + (a + b + c + e),
{
    assert(d + a + b + c + e =~= d + (a + b + c + e));
}

pub proof fn lemma_concat5(
    d: Seq<u8>,
    a: Seq<u8>,
    b: Seq<u8>,
    c: Seq<u8>,
    e: Seq<u8>,
    f: Seq<u8>,
)
    ensures
        d + a + b + c + e + f == d + (a + b + c + e + f),
{
    assert(d + a + b + c + e + f =~= d + (a + b + c + e + f));
}

pub proof fn lemma_concat6(
    d: Seq<u8>,
    a: Seq<u8>,
    b: Seq<u8>,
    c: Seq<u8>,
    e: Seq<u8>,
    f: Seq<u8>,
    g: Seq<u8>,
)
    ensures
        d + a + b + c + e + f + g == d + (a + b + c + e + f + g),
{
    assert(d + a + b + c + e + f + g =~= d + (a + b + c + e + f + g));
}

pub proof fn lemma_concat7(
    d: Seq<u8>,
    a: Seq<u8>,
    b: Seq<u8>,
    c: Seq<u8>,
    e: Seq<u8>,
    f: Seq<u8>,
    g: Seq<u8>,
    h: Seq<u8>,
)
    ensures
        d + a + b + c + e + f + g + h == d + (a + b + c + e + f + g + h),
{
    assert(d + a + b + c + e + f + g + h =~= d + (a + b + c + e + f + g + h));
}

/// Appending nothing changes nothing.
pub proof fn lemma_concat0(d: Seq<u8>)
    ensures
        d + Seq::<u8>::empty() == d,
{
    assert(d + Seq::<u8>::empty() =~= d);
}

/// The strings of a list with one more at its end are those of the list, then that one.
proof fn lemma_strings_items_push(l: Seq<Seq<char>>, x: Seq<char>)
    ensures
        enc_strings_items(l.push(x)) == enc_strings_items(l) + enc_string(x),
    decreases l.len(),
{
    reveal_with_fuel(enc_strings_items, 2);
    if l.len() == 0 {
        assert(l.push(x).drop_first() =~= Seq::empty());
        assert(enc_strings_items(l.push(x)) =~= enc_strings_items(l) + enc_string(x));
    } else {
        lemma_strings_items_push(l.drop_first(), x);
        assert(l.push(x).drop_first() =~= l.drop_first().push(x));
        assert(enc_strings_items(l.push(x)) =~= enc_strings_items(l) + enc_string(x));
    }
}

/// The properties of a list with one more at its end are those of the list, then that one.
proof fn lemma_properties_items_push(l: Seq<PropertyView>, x: PropertyView)
    ensures
        enc_properties_items(l.push(x)) == enc_properties_items(l) + enc_property(x),
    decreases l.len(),
{
    reveal_with_fuel(enc_properties_items, 2);
    if l.len() == 0 {
        assert(l.push(x).drop_first() =~= Seq::empty());
        assert(enc_properties_items(l.push(x)) =~= enc_properties_items(l) + enc_property(x));
    } else {
        lemma_properties_items_push(l.drop_first(), x);
        assert(l.push(x).drop_first() =~= l.drop_first().push(x));
        assert(enc_properties_items(l.push(x)) =~= enc_properties_items(l) + enc_property(x));
    }
}

/// The declarations of a list with one more at its end are those of the list, then that one.
proof fn lemma_declarations_items_push(l: Seq<DeclarationView>, x: DeclarationView)
    ensures
        enc_declarations_items(l.push(x)) == enc_declarations_items(l) + enc_declaration(x),
    decreases l.len(),
{
    reveal_with_fuel(enc_declarations_items, 2);
    if l.len() == 0 {
        assert(l.push(x).drop_first() =~= Seq::empty());
        assert(enc_declarations_items(l.push(x)) =~= enc_declarations_items(l) + enc_declaration(
            x,
        ));
    } else {
        lemma_declarations_items_push(l.drop_first(), x);
        assert(l.push(x).drop_first() =~= l.drop_first().push(x));
        assert(enc_declarations_items(l.push(x)) =~= enc_declarations_items(l) + enc_declaration(
            x,
        ));
    }
}

impl RWBuf {
    /// Appends a zint if there is one.
    pub fn write_opt_zint(&mut self, o: Option<ZInt>)
        ensures
            writes(*old(self), *final(self), enc_opt_zint(o)),
    {
        match o {
            Some(v) => self.write_zint(v),
            None => {
                proof {
                    lemma_concat0(old(self).data());
                }
            },
        }
    }

    /// Appends the id of a peer.
    pub fn write_peerid(&mut self, pid: &PeerId)
        ensures
            writes(*old(self), *final(self), enc_bytes(pid@)),
    {
        self.write_bytes_array(pid.id.as_slice());
    }

    /// Appends the id of a peer if there is one.
    pub fn write_opt_peerid(&mut self, o: &Option<PeerId>)
        ensures
            writes(*old(self), *final(self), enc_opt_bytes(o.deep_view())),
    {
        match o {
            Some(p) => self.write_peerid(p),
            None => {
                proof {
                    lemma_concat0(old(self).data());
                }
            },
        }
    }

    /// Appends bytes if there are some.
    pub fn write_opt_bytes(&mut self, o: &Option<Vec<u8>>)
        ensures
            writes(*old(self), *final(self), enc_opt_bytes(opt_bytes_view(*o))),
    {
        match o {
            Some(b) => self.write_bytes_array(b.as_slice()),
            None => {
                proof {
                    lemma_concat0(old(self).data());
                }
            },
        }
    }

    /// Appends a time stamp: its time, then the 16 bytes of its identifier.
    pub fn write_timestamp(&mut self, t: &TimeStamp)
        ensures
            writes(*old(self), *final(self), enc_timestamp(t@)),
    {
        self.write_zint(t.time);
        let id = t.id_bytes();
        self.write_slice(id.as_slice());
        proof {
            lemma_concat2(old(self).data(), enc_zint(t.time as nat), id@);
        }
    }

    /// Appends one property: its key and its value.
    pub fn write_property(&mut self, p: &Property)
        ensures
            writes(*old(self), *final(self), enc_property(p@)),
    {
        self.write_zint(p.key);
        self.write_bytes_array(p.value.as_slice());
        proof {
            lemma_concat2(old(self).data(), enc_zint(p.key as nat), enc_bytes(p.value@));
        }
    }

    /// Appends a list of properties.
    pub fn write_properties(&mut self, l: &Vec<Property>)
        ensures
            writes(*old(self), *final(self), enc_properties(l.deep_view())),
    {
        let ghost d0 = self.data();
        let ghost all = l.deep_view();
        self.write_zint(l.len() as u64);
        let mut i: usize = 0;
        assert(all.take(0) =~= Seq::empty());
        proof {
            lemma_concat0(d0 + enc_zint(all.len()));
        }
        while i < l.len()
            invariant
                i <= l.len(),
                all == l.deep_view(),
                self.read_pos() == old(self).read_pos(),
                self.data() == d0 + enc_zint(all.len()) + enc_properties_items(all.take(i as int)),
            decreases l.len() - i,
        {
            let ghost before = self.data();
            self.write_property(&l[i]);
            proof {
                lemma_properties_items_push(all.take(i as int), all[i as int]);
                assert(all.take(i as int).push(all[i as int]) =~= all.take(i + 1));
                lemma_concat2(
                    d0 + enc_zint(all.len()),
                    enc_properties_items(all.take(i as int)),
                    enc_property(all[i as int]),
                );
            }
            i = i + 1;
        }
        assert(all.take(i as int) =~= all);
        proof {
            lemma_concat2(d0, enc_zint(all.len()), enc_properties_items(all));
        }
    }

    /// Appends a list of locators: strings.
    pub fn write_locators(&mut self, l: &Vec<String>)
        ensures
            writes(*old(self), *final(self), enc_strings(l.deep_view())),
    {
        let ghost d0 = self.data();
        let ghost all = l.deep_view();
        self.write_zint(l.len() as u64);
        let mut i: usize = 0;
        assert(all.take(0) =~= Seq::empty());
        proof {
            lemma_concat0(d0 + enc_zint(all.len()));
        }
        while i < l.len()
            invariant
                i <= l.len(),
                all == l.deep_view(),
                self.read_pos() == old(self).read_pos(),
                self.data() == d0 + enc_zint(all.len()) + enc_strings_items(all.take(i as int)),
            decreases l.len() - i,
        {
            let ghost before = self.data();
            self.write_string(l[i].as_str());
            proof {
                lemma_strings_items_push(all.take(i as int), all[i as int]);
                assert(all.take(i as int).push(all[i as int]) =~= all.take(i + 1));
                lemma_concat2(
                    d0 + enc_zint(all.len()),
                    enc_strings_items(all.take(i as int)),
                    enc_string(all[i as int]),
                );
            }
            i = i + 1;
        }
        assert(all.take(i as int) =~= all);
        proof {
            lemma_concat2(d0, enc_zint(all.len()), enc_strings_items(all));
        }
    }

    /// Appends a list of locators if there is one.
    pub fn write_opt_locators(&mut self, o: &Option<Vec<String>>)
        ensures
            writes(*old(self), *final(self), enc_opt_strings(o.deep_view())),
    {
        match o {
            Some(l) => self.write_locators(l),
            None => {
                proof {
                    lemma_concat0(old(self).data());
                }
            },
        }
    }

    /// Appends a key: its id, and its name or suffix unless it is an id alone.
    pub fn write_reskey(&mut self, key: &ResKey)
        ensures
            writes(*old(self), *final(self), enc_reskey(key@)),
    {
        match key {
            ResKey::RName(name) => {
                self.write_zint(0);
                self.write_string(name.as_str());
                proof {
                    lemma_concat2(old(self).data(), enc_zint(0), enc_string(name@));
                }
            },
            ResKey::RId(id) => {
                self.write_zint(*id);
            },
            ResKey::RIdWithSuffix(id, suffix) => {
                self.write_zint(*id);
                self.write_string(suffix.as_str());
                proof {
                    lemma_concat2(old(self).data(), enc_zint(*id as nat), enc_string(suffix@));
                }
            },
        }
    }

    /// Appends a subscription mode.
    pub fn write_submode(&mut self, mode: &SubMode)
        ensures
            writes(*old(self), *final(self), enc_submode(*mode)),
    {
        match mode {
            SubMode::Push => {
                self.write_zint(MODE_PUSH);
            },
            SubMode::Pull => {
                self.write_zint(MODE_PULL);
            },
            SubMode::PeriodicPush { origin, period, duration } => {
                self.write_zint(MODE_PERIODIC_PUSH);
                self.write_zint(*origin);
                self.write_zint(*period);
                self.write_zint(*duration);
                proof {
                    lemma_concat4(
                        old(self).data(),
                        enc_zint(MODE_PERIODIC_PUSH as nat),
                        enc_zint(*origin as nat),
                        enc_zint(*period as nat),
                        enc_zint(*duration as nat),
                    );
                    lemma_concat3(
                        enc_zint(MODE_PERIODIC_PUSH as nat),
                        enc_zint(*origin as nat),
                        enc_zint(*period as nat),
                        enc_zint(*duration as nat),
                    );
                }
            },
            SubMode::PeriodicPull { origin, period, duration } => {
                self.write_zint(MODE_PERIODIC_PULL);
                self.write_zint(*origin);
                self.write_zint(*period);
                self.write_zint(*duration);
                proof {
                    lemma_concat4(
                        old(self).data(),
                        enc_zint(MODE_PERIODIC_PULL as nat),
                        enc_zint(*origin as nat),
                        enc_zint(*period as nat),
                        enc_zint(*duration as nat),
                    );
                    lemma_concat3(
                        enc_zint(MODE_PERIODIC_PULL as nat),
                        enc_zint(*origin as nat),
                        enc_zint(*period as nat),
                        enc_zint(*duration as nat),
                    );
                }
            },
        }
    }

    /// Appends one target of a query.
    pub fn write_target(&mut self, t: &Target)
        ensures
            writes(*old(self), *final(self), enc_target(*t)),
    {
        match t {
            Target::BestMatching => {
                self.write_zint(TARGET_BEST_MATCHING);
            },
            Target::Complete { n } => {
                self.write_zint(TARGET_COMPLETE);
                self.write_zint(*n);
                proof {
                    lemma_concat2(
                        old(self).data(),
                        enc_zint(TARGET_COMPLETE as nat),
                        enc_zint(*n as nat),
                    );
                }
            },
            Target::All => {
                self.write_zint(TARGET_ALL);
            },
            Target::NoTarget => {
                self.write_zint(TARGET_NONE);
            },
        }
    }

    /// Appends the target of a query.
    pub fn write_query_target(&mut self, t: &QueryTarget)
        ensures
            writes(*old(self), *final(self), enc_query_target(*t)),
    {
        self.write_target(&t.storage);
        self.write_target(&t.eval);
        proof {
            lemma_concat2(old(self).data(), enc_target(t.storage), enc_target(t.eval));
        }
    }

    /// Appends a consolidation mode.
    pub fn write_consolidation(&mut self, c: &QueryConsolidation)
        ensures
            writes(*old(self), *final(self), enc_consolidation(*c)),
    {
        match c {
            QueryConsolidation::NoConsolidation => self.write_zint(CONSOLIDATION_NONE),
            QueryConsolidation::LastBroker => self.write_zint(CONSOLIDATION_LAST_BROKER),
            QueryConsolidation::Incremental => self.write_zint(CONSOLIDATION_INCREMENTAL),
        }
    }

    /// Appends a declaration that is a key and nothing else.
    fn write_key_decl(&mut self, id: u8, key: &ResKey)
        requires
            id < 32,
        ensures
            writes(*old(self), *final(self), crate::proto::codec::enc_key_decl(id, key@)),
    {
        self.write(header(id, false, key.is_numeric(), false));
        self.write_reskey(key);
        proof {
            lemma_concat2(
                old(self).data(),
                enc_header(spec_header(id, false, key@ is RId, false)),
                enc_reskey(key@),
            );
        }
    }

    /// Appends one declaration: its header, then what it holds.
    pub fn write_declaration(&mut self, d: &Declaration)
        ensures
            writes(*old(self), *final(self), enc_declaration(d@)),
    {
        match d {
            Declaration::Resource { rid, key } => {
                self.write(header(RESOURCE, false, key.is_numeric(), false));
                self.write_zint(*rid);
                self.write_reskey(key);
                proof {
                    lemma_concat3(
                        old(self).data(),
                        enc_header(spec_header(RESOURCE, false, key@ is RId, false)),
                        enc_zint(*rid as nat),
                        enc_reskey(key@),
                    );
                }
            },
            Declaration::ForgetResource { rid } => {
                self.write(header(FORGET_RESOURCE, false, false, false));
                self.write_zint(*rid);
                proof {
                    lemma_concat2(
                        old(self).data(),
                        enc_header(spec_header(FORGET_RESOURCE, false, false, false)),
                        enc_zint(*rid as nat),
                    );
                }
            },
            Declaration::Subscriber { key, mode } => {
                let with_mode = match mode {
                    SubMode::Push => false,
                    _ => true,
                };
                self.write(header(SUBSCRIBER, with_mode, key.is_numeric(), false));
                self.write_reskey(key);
                let ghost before = self.data();
                if with_mode {
                    self.write_submode(mode);
                } else {
                    proof {
                        lemma_concat0(before);
                    }
                }
                proof {
                    lemma_concat3(
                        old(self).data(),
                        enc_header(spec_header(SUBSCRIBER, *mode != SubMode::Push, key@ is RId, false)),
                        enc_reskey(key@),
                        enc_opt_submode(*mode),
                    );
                }
            },
            Declaration::ForgetSubscriber { key } => self.write_key_decl(FORGET_SUBSCRIBER, key),
            Declaration::Publisher { key } => self.write_key_decl(PUBLISHER, key),
            Declaration::ForgetPublisher { key } => self.write_key_decl(FORGET_PUBLISHER, key),
            Declaration::Storage { key } => self.write_key_decl(STORAGE, key),
            Declaration::ForgetStorage { key } => self.write_key_decl(FORGET_STORAGE, key),
            Declaration::Eval { key } => self.write_key_decl(EVAL, key),
            Declaration::ForgetEval { key } => self.write_key_decl(FORGET_EVAL, key),
        }
    }

    /// Appends a list of declarations.
    pub fn write_declarations(&mut self, l: &Vec<Declaration>)
        ensures
            writes(*old(self), *final(self), enc_declarations(l.deep_view())),
    {
        let ghost d0 = self.data();
        let ghost all = l.deep_view();
        self.write_zint(l.len() as u64);
        let mut i: usize = 0;
        assert(all.take(0) =~= Seq::empty());
        proof {
            lemma_concat0(d0 + enc_zint(all.len()));
        }
        while i < l.len()
            invariant
                i <= l.len(),
                all == l.deep_view(),
                self.read_pos() == old(self).read_pos(),
                self.data() == d0 + enc_zint(all.len()) + enc_declarations_items(
                    all.take(i as int),
                ),
            decreases l.len() - i,
        {
            let ghost before = self.data();
            self.write_declaration(&l[i]);
            proof {
                lemma_declarations_items_push(all.take(i as int), all[i as int]);
                assert(all.take(i as int).push(all[i as int]) =~= all.take(i + 1));
                lemma_concat2(
                    d0 + enc_zint(all.len()),
                    enc_declarations_items(all.take(i as int)),
                    enc_declaration(all[i as int]),
                );
            }
            i = i + 1;
        }
        assert(all.take(i as int) =~= all);
        proof {
            lemma_concat2(d0, enc_zint(all.len()), enc_declarations_items(all));
        }
    }

    /// Appends the FRAGMENT decorator, unless the message is whole.
    pub fn write_decl_frag(&mut self, kind: &MessageKind)
        ensures
            writes(*old(self), *final(self), enc_frag(*kind)),
    {
        match kind {
            MessageKind::FullMessage => {
                proof {
                    lemma_concat0(old(self).data());
                }
            },
            MessageKind::FirstFragment { n } => {
                self.write(header(FRAGMENT, true, n.is_some(), false));
                self.write_opt_zint(*n);
                proof {
                    lemma_concat2(
                        old(self).data(),
                        enc_header(spec_header(FRAGMENT, true, *n is Some, false)),
                        enc_opt_zint(*n),
                    );
                }
            },
            MessageKind::InbetweenFragment => {
                self.write(header(FRAGMENT, false, false, false));
            },
            MessageKind::LastFragment => {
                self.write(header(FRAGMENT, false, false, true));
            },
        }
    }

    /// Appends the CONDUIT decorator, if there is a conduit id.
    pub fn write_decl_conduit(&mut self, cid: Option<ZInt>)
        ensures
            writes(*old(self), *final(self), enc_conduit(cid)),
    {
        match cid {
            None => {
                proof {
                    lemma_concat0(old(self).data());
                }
            },
            Some(id) => {
                if id <= 3 {
                    self.write(header(CONDUIT, id % 2 == 1, id / 2 == 1, true));
                } else {
                    self.write(header(CONDUIT, false, false, false));
                    self.write_zint(id);
                    proof {
                        lemma_concat2(
                            old(self).data(),
                            enc_header(spec_header(CONDUIT, false, false, false)),
                            enc_zint(id as nat),
                        );
                    }
                }
            },
        }
    }

    /// Appends the REPLY decorator, if the message is a reply.
    pub fn write_decl_reply(&mut self, r: &Option<ReplyContext>)
        ensures
            writes(*old(self), *final(self), enc_reply(r.deep_view())),
    {
        match r {
            None => {
                proof {
                    lemma_concat0(old(self).data());
                }
            },
            Some(c) => {
                let is_eval = match c.source {
                    ReplySource::Eval => true,
                    ReplySource::Storage => false,
                };
                self.write(header(REPLY, c.is_final, is_eval, false));
                self.write_zint(c.qid);
                self.write_opt_peerid(&c.replier_id);
                proof {
                    lemma_concat3(
                        old(self).data(),
                        enc_header(
                            spec_header(REPLY, c.is_final, c.source == ReplySource::Eval, false),
                        ),
                        enc_zint(c.qid as nat),
                        enc_opt_bytes(c.replier_id.deep_view()),
                    );
                }
            },
        }
    }

    /// Appends the PROPERTIES decorator, if there are properties.
    pub fn write_decl_properties(&mut self, o: &Option<Vec<Property>>)
        ensures
            writes(*old(self), *final(self), enc_props(o.deep_view())),
    {
        match o {
            None => {
                proof {
                    lemma_concat0(old(self).data());
                }
            },
            Some(l) => {
                self.write(header(PROPERTIES, false, false, false));
                self.write_properties(l);
                proof {
                    lemma_concat2(
                        old(self).data(),
                        enc_header(spec_header(PROPERTIES, false, false, false)),
                        enc_properties(l.deep_view()),
                    );
                }
            },
        }
    }

    fn write_scout(&mut self, what: Option<ZInt>)
        ensures
            writes(*old(self), *final(self), enc_body(BodyView::Scout { what })),
    {
        self.write(header(SCOUT, what.is_some(), false, false));
        self.write_opt_zint(what);
        proof {
            lemma_concat2(
                old(self).data(),
                enc_header(spec_header(SCOUT, what is Some, false, false)),
                enc_opt_zint(what),
            );
        }
    }

    fn write_hello(&mut self, whatami: Option<ZInt>, locators: &Option<Vec<String>>)
        ensures
            writes(
                *old(self),
                *final(self),
                enc_body(BodyView::Hello { whatami, locators: locators.deep_view() }),
            ),
    {
        self.write(header(HELLO, whatami.is_some(), false, locators.is_some()));
        self.write_opt_zint(whatami);
        self.write_opt_locators(locators);
        proof {
            lemma_concat3(
                old(self).data(),
                enc_header(spec_header(HELLO, whatami is Some, false, locators is Some)),
                enc_opt_zint(whatami),
                enc_opt_strings(locators.deep_view()),
            );
        }
    }

    fn write_open(
        &mut self,
        version: u8,
        whatami: Option<ZInt>,
        pid: &PeerId,
        lease: ZInt,
        locators: &Option<Vec<String>>,
    )
        ensures
            writes(
                *old(self),
                *final(self),
                enc_body(
                    BodyView::Open {
                        version,
                        whatami,
                        pid: pid@,
                        lease,
                        locators: locators.deep_view(),
                    },
                ),
            ),
    {
        self.write(header(OPEN, whatami.is_some(), false, locators.is_some()));
        self.write(version);
        self.write_opt_zint(whatami);
        self.write_peerid(pid);
        self.write_zint(lease);
        self.write_opt_locators(locators);
        proof {
            lemma_concat6(
                old(self).data(),
                enc_header(spec_header(OPEN, whatami is Some, false, locators is Some)),
                enc_u8(version),
                enc_opt_zint(whatami),
                enc_bytes(pid@),
                enc_zint(lease as nat),
                enc_opt_strings(locators.deep_view()),
            );
        }
    }

    fn write_accept(&mut self, opid: &PeerId, apid: &PeerId, lease: ZInt)
        ensures
            writes(
                *old(self),
                *final(self),
                enc_body(BodyView::Accept { opid: opid@, apid: apid@, lease }),
            ),
    {
        self.write(header(ACCEPT, false, false, false));
        self.write_peerid(opid);
        self.write_peerid(apid);
        self.write_zint(lease);
        proof {
            lemma_concat4(
                old(self).data(),
                enc_header(spec_header(ACCEPT, false, false, false)),
                enc_bytes(opid@),
                enc_bytes(apid@),
                enc_zint(lease as nat),
            );
        }
    }

    fn write_close(&mut self, pid: &Option<PeerId>, reason: u8)
        ensures
            writes(
                *old(self),
                *final(self),
                enc_body(BodyView::Close { pid: pid.deep_view(), reason }),
            ),
    {
        self.write(header(CLOSE, pid.is_some(), false, false));
        self.write_opt_peerid(pid);
        self.write(reason);
        proof {
            lemma_concat3(
                old(self).data(),
                enc_header(spec_header(CLOSE, pid is Some, false, false)),
                enc_opt_bytes(pid.deep_view()),
                enc_u8(reason),
            );
        }
    }

    fn write_keep_alive(&mut self, pid: &Option<PeerId>)
        ensures
            writes(
                *old(self),
                *final(self),
                enc_body(BodyView::KeepAlive { pid: pid.deep_view() }),
            ),
    {
        self.write(header(KEEP_ALIVE, pid.is_some(), false, false));
        self.write_opt_peerid(pid);
        proof {
            lemma_concat2(
                old(self).data(),
                enc_header(spec_header(KEEP_ALIVE, pid is Some, false, false)),
                enc_opt_bytes(pid.deep_view()),
            );
        }
    }

    fn write_declare(&mut self, sn: ZInt, declarations: &Vec<Declaration>)
        ensures
            writes(
                *old(self),
                *final(self),
                enc_body(BodyView::Declare { sn, declarations: declarations.deep_view() }),
            ),
    {
        self.write(header(DECLARE, false, false, false));
        self.write_zint(sn);
        self.write_declarations(declarations);
        proof {
            lemma_concat3(
                old(self).data(),
                enc_header(spec_header(DECLARE, false, false, false)),
                enc_zint(sn as nat),
                enc_declarations(declarations.deep_view()),
            );
        }
    }

    fn write_data(
        &mut self,
        reliable: bool,
        sn: ZInt,
        key: &ResKey,
        info: &Option<Vec<u8>>,
        payload: &Vec<u8>,
    )
        ensures
            writes(
                *old(self),
                *final(self),
                enc_body(
                    BodyView::Data {
                        reliable,
                        sn,
                        key: key@,
                        info: opt_bytes_view(*info),
                        payload: payload@,
                    },
                ),
            ),
    {
        self.write(header(DATA, reliable, key.is_numeric(), info.is_some()));
        self.write_zint(sn);
        self.write_reskey(key);
        self.write_opt_bytes(info);
        self.write_bytes_array(payload.as_slice());
        proof {
            lemma_concat5(
                old(self).data(),
                enc_header(spec_header(DATA, reliable, key@ is RId, info is Some)),
                enc_zint(sn as nat),
                enc_reskey(key@),
                enc_opt_bytes(opt_bytes_view(*info)),
                enc_bytes(payload@),
            );
        }
    }

    fn write_pull(
        &mut self,
        is_final: bool,
        sn: ZInt,
        key: &ResKey,
        pull_id: ZInt,
        max_samples: Option<ZInt>,
    )
        ensures
            writes(
                *old(self),
                *final(self),
                enc_body(BodyView::Pull { is_final, sn, key: key@, pull_id, max_samples }),
            ),
    {
        self.write(header(PULL, is_final, key.is_numeric(), max_samples.is_some()));
        self.write_zint(sn);
        self.write_reskey(key);
        self.write_zint(pull_id);
        self.write_opt_zint(max_samples);
        proof {
            lemma_concat5(
                old(self).data(),
                enc_header(spec_header(PULL, is_final, key@ is RId, max_samples is Some)),
                enc_zint(sn as nat),
                enc_reskey(key@),
                enc_zint(pull_id as nat),
                enc_opt_zint(max_samples),
            );
        }
    }

    fn write_query(
        &mut self,
        sn: ZInt,
        key: &ResKey,
        predicate: &String,
        qid: ZInt,
        target: &Option<QueryTarget>,
        consolidation: &QueryConsolidation,
    )
        ensures
            writes(
                *old(self),
                *final(self),
                enc_body(
                    BodyView::Query {
                        sn,
                        key: key@,
                        predicate: predicate@,
                        qid,
                        target: *target,
                        consolidation: *consolidation,
                    },
                ),
            ),
    {
        self.write(header(QUERY, target.is_some(), key.is_numeric(), false));
        self.write_zint(sn);
        self.write_reskey(key);
        self.write_string(predicate.as_str());
        self.write_zint(qid);
        let ghost before = self.data();
        match target {
            Some(t) => self.write_query_target(t),
            None => {
                proof {
                    lemma_concat0(before);
                }
            },
        }
        self.write_consolidation(consolidation);
        proof {
            lemma_concat7(
                old(self).data(),
                enc_header(spec_header(QUERY, *target is Some, key@ is RId, false)),
                enc_zint(sn as nat),
                enc_reskey(key@),
                enc_string(predicate@),
                enc_zint(qid as nat),
                enc_opt_query_target(*target),
                enc_consolidation(*consolidation),
            );
        }
    }

    fn write_ping_pong(&mut self, ping: bool, hash: ZInt)
        ensures
            writes(
                *old(self),
                *final(self),
                enc_body(
                    if ping {
                        BodyView::Ping { hash }
                    } else {
                        BodyView::Pong { hash }
                    },
                ),
            ),
    {
        self.write(header(PING_PONG, ping, false, false));
        self.write_zint(hash);
        proof {
            lemma_concat2(
                old(self).data(),
                enc_header(spec_header(PING_PONG, ping, false, false)),
                enc_zint(hash as nat),
            );
        }
    }

    fn write_sync(&mut self, reliable: bool, sn: ZInt, count: Option<ZInt>)
        ensures
            writes(*old(self), *final(self), enc_body(BodyView::Sync { reliable, sn, count })),
    {
        self.write(header(SYNC, reliable, count.is_some(), false));
        self.write_zint(sn);
        self.write_opt_zint(count);
        proof {
            lemma_concat3(
                old(self).data(),
                enc_header(spec_header(SYNC, reliable, count is Some, false)),
                enc_zint(sn as nat),
                enc_opt_zint(count),
            );
        }
    }

    fn write_ack_nack(&mut self, sn: ZInt, mask: Option<ZInt>)
        ensures
            writes(*old(self), *final(self), enc_body(BodyView::AckNack { sn, mask })),
    {
        self.write(header(ACK_NACK, mask.is_some(), false, false));
        self.write_zint(sn);
        self.write_opt_zint(mask);
        proof {
            lemma_concat3(
                old(self).data(),
                enc_header(spec_header(ACK_NACK, mask is Some, false, false)),
                enc_zint(sn as nat),
                enc_opt_zint(mask),
            );
        }
    }

    /// Appends the body of a message: its header, then what it holds.
    pub fn write_body(&mut self, b: &Body)
        ensures
            writes(*old(self), *final(self), enc_body(b@)),
    {
        match b {
            Body::Scout { what } => self.write_scout(*what),
            Body::Hello { whatami, locators } => self.write_hello(*whatami, locators),
            Body::Open { version, whatami, pid, lease, locators } => self.write_open(
                *version,
                *whatami,
                pid,
                *lease,
                locators,
            ),
            Body::Accept { opid, apid, lease } => self.write_accept(opid, apid, *lease),
            Body::Close { pid, reason } => self.write_close(pid, *reason),
            Body::KeepAlive { pid } => self.write_keep_alive(pid),
            Body::Declare { sn, declarations } => self.write_declare(*sn, declarations),
            Body::Data { reliable, sn, key, info, payload } => self.write_data(
                *reliable,
                *sn,
                key,
                info,
                payload,
            ),
            Body::Pull { is_final, sn, key, pull_id, max_samples } => self.write_pull(
                *is_final,
                *sn,
                key,
                *pull_id,
                *max_samples,
            ),
            Body::Query { sn, key, predicate, qid, target, consolidation } => self.write_query(
                *sn,
                key,
                predicate,
                *qid,
                target,
                consolidation,
            ),
            Body::Ping { hash } => self.write_ping_pong(true, *hash),
            Body::Pong { hash } => self.write_ping_pong(false, *hash),
            Body::Sync { reliable, sn, count } => self.write_sync(*reliable, *sn, *count),
            Body::AckNack { sn, mask } => self.write_ack_nack(*sn, *mask),
        }
    }

    /// Appends one message: the decorators that it needs, then its body.
    pub fn write_message(&mut self, m: &Message)
        ensures
            writes(*old(self), *final(self), enc_message(m@)),
    {
        self.write_decl_frag(&m.kind);
        self.write_decl_conduit(m.cid);
        self.write_decl_reply(&m.reply_context);
        self.write_decl_properties(&m.properties);
        self.write_body(&m.body);
        proof {
            lemma_concat5(
                old(self).data(),
                enc_frag(m.kind),
                enc_conduit(m.cid),
                enc_reply(m.reply_context.deep_view()),
                enc_props(m.properties.deep_view()),
                enc_body(m.body@),
            );
        }
    }
}

} // verus!
