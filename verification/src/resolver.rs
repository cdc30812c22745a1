//! The resolution of one client request, as a state machine: it asks the
//! internal authoritative server, follows a referral once where trusted
//! glue names the delegated server, and when an A question finds no data it
//! follows a chain of CNAME records (at most `MAX_CNAME_DEPTH` links).
//! Whatever goes wrong on the way is answered with SERVFAIL.
//!
//! The driver sends each query the machine asks for, hands back the reply
//! (or reports that the server could not be reached), and stops when the
//! machine gives a response or abandons the request.
use vstd::prelude::*;

use crate::dns_packet::{
    a_record_of, asks_for_a, build_cname_chain_a_response, build_query_request,
    build_servfail_response, chain_response, cname_record_of, extract_a_answer,
    extract_cname_answer, extract_question_name_and_class, extract_trusted_glue_address,
    is_a_query, is_nodata_response, is_referral_response, nodata, query_for, question_of,
    referral, servfail_packet, trusted_glue_of, CnameAnswer, CnameRecord, lemma_query_roundtrip,
};
use crate::name::{labels_writable, split_dots, trim_end_dots};
use crate::text::read_back_text;
use vstd::utf8::encode_utf8;

verus! {

/// The longest CNAME chain that is followed.
pub const MAX_CNAME_DEPTH: usize = 5;

/// How many times an upstream exchange is tried before it counts as failed.
pub const MAX_RETRIES: usize = 3;

/// The number of the next attempt at an upstream exchange after attempt
/// `attempt` (counted from 1) went unanswered, or `None` once
/// `MAX_RETRIES` attempts have been made.
pub fn next_attempt(attempt: usize) -> (r: Option<usize>)
    ensures
        r == (if attempt < MAX_RETRIES {
            Some((attempt + 1) as usize)
        } else {
            None::<usize>
        }),
{
    if attempt < MAX_RETRIES {
        Some(attempt + 1)
    } else {
        None
    }
}

/// The record type CNAME.
pub const TYPE_CNAME: u16 = 5;

/// The record type A.
pub const TYPE_A: u16 = 1;

/// What the question being asked upstream is for.
pub enum Stage {
    /// The client's own question.
    Direct,
    /// The CNAME record of the name reached so far in the chain.
    Alias,
    /// The A record of the target of this CNAME record.
    Address(CnameAnswer),
    /// Nothing more is asked.
    Finished,
}

/// What the resolution asks its driver to do next.
pub enum ResolveAction {
    /// Send `query` to the server at `server` and report its reply.
    Send { server: String, query: Vec<u8> },
    /// Answer the client with `response`.
    Respond(Vec<u8>),
    /// Give up without answering: the client's question cannot be read, so
    /// not even SERVFAIL can be built.
    Abandon,
}

/// The stage of a resolution, as it is reasoned about.
pub enum StageView {
    Direct,
    Alias,
    Address(CnameRecord),
    Finished,
}

/// An action, as it is reasoned about.
pub enum ActionView {
    Send { server: Seq<char>, query: Seq<u8> },
    Respond(Seq<u8>),
    Abandon,
}

impl View for ResolveAction {
    type V = ActionView;

    open spec fn view(&self) -> ActionView {
        match self {
            ResolveAction::Send { server, query } => ActionView::Send {
                server: server@,
                query: query@,
            },
            ResolveAction::Respond(r) => ActionView::Respond(r@),
            ResolveAction::Abandon => ActionView::Abandon,
        }
    }
}

impl View for Stage {
    type V = StageView;

    open spec fn view(&self) -> StageView {
        match self {
            Stage::Direct => StageView::Direct,
            Stage::Alias => StageView::Alias,
            Stage::Address(c) => StageView::Address(c@),
            Stage::Finished => StageView::Finished,
        }
    }
}

/// A resolution in progress, as it is reasoned about.
pub struct ResolutionView {
    /// The internal authoritative server every question starts at.
    pub auth_addr: Seq<char>,
    /// The client's request.
    pub request: Seq<u8>,
    pub stage: StageView,
    /// The query of the exchange in progress.
    pub query: Seq<u8>,
    /// Whether the exchange in progress already went to a glue address.
    pub via_glue: bool,
    /// The reply to the client's own question.
    pub first_reply: Seq<u8>,
    /// The class of the client's question.
    pub qclass: u16,
    /// The CNAME records of the chain so far.
    pub answers: Seq<CnameRecord>,
    /// The CNAME links followed without finding an address.
    pub depth: nat,
}

/// The resolution of one client request.
pub struct Resolution {
    auth_addr: String,
    request: Vec<u8>,
    stage: Stage,
    query: Vec<u8>,
    via_glue: bool,
    first_reply: Vec<u8>,
    qclass: u16,
    answers: Vec<CnameAnswer>,
    depth: usize,
}

impl View for Resolution {
    type V = ResolutionView;

    closed spec fn view(&self) -> ResolutionView {
        ResolutionView {
            auth_addr: self.auth_addr@,
            request: self.request@,
            stage: self.stage@,
            query: self.query@,
            via_glue: self.via_glue,
            first_reply: self.first_reply@,
            qclass: self.qclass,
            answers: self.answers@.map_values(|c: CnameAnswer| c@),
            depth: self.depth as nat,
        }
    }
}

/// A resolution that is finished with `action`.
pub open spec fn finish(s: ResolutionView, action: ActionView) -> (ResolutionView, ActionView) {
    (
        ResolutionView {
            auth_addr: s.auth_addr,
            request: s.request,
            stage: StageView::Finished,
            query: s.query,
            via_glue: s.via_glue,
            first_reply: s.first_reply,
            qclass: s.qclass,
            answers: s.answers,
            depth: s.depth,
        },
        action,
    )
}

/// Giving up: SERVFAIL for the client's request, or abandoning it when not
/// even that can be built.
pub open spec fn give_up(s: ResolutionView) -> (ResolutionView, ActionView) {
    match servfail_packet(s.request) {
        Some(p) => finish(s, ActionView::Respond(p)),
        None => finish(s, ActionView::Abandon),
    }
}

/// Asking the internal authoritative server `query`, for `stage`.
pub open spec fn ask(s: ResolutionView, stage: StageView, query: Seq<u8>) -> (
    ResolutionView,
    ActionView,
) {
    (
        ResolutionView {
            auth_addr: s.auth_addr,
            request: s.request,
            stage,
            query,
            via_glue: false,
            first_reply: s.first_reply,
            qclass: s.qclass,
            answers: s.answers,
            depth: s.depth,
        },
        ActionView::Send { server: s.auth_addr, query },
    )
}

/// Where the final reply `r` of an exchange (after any referral was
/// followed) leads.
pub open spec fn exchange_done(s: ResolutionView, r: Seq<u8>) -> (ResolutionView, ActionView) {
    match s.stage {
        StageView::Direct => if !asks_for_a(s.request) || !nodata(r) {
            finish(s, ActionView::Respond(r))
        } else {
            match question_of(s.request) {
                Some((qname, qclass)) => {
                    let s1 = ResolutionView {
                        auth_addr: s.auth_addr,
                        request: s.request,
                        stage: s.stage,
                        query: s.query,
                        via_glue: s.via_glue,
                        first_reply: r,
                        qclass,
                        answers: Seq::empty(),
                        depth: 0,
                    };
                    match query_for(s.request, qname, TYPE_CNAME, qclass) {
                        Some(q) => ask(s1, StageView::Alias, q),
                        None => give_up(s1),
                    }
                },
                None => finish(s, ActionView::Respond(r)),
            }
        },
        StageView::Alias => match cname_record_of(r) {
            Some(c) => match query_for(s.request, c.target, TYPE_A, s.qclass) {
                Some(q) => ask(s, StageView::Address(c), q),
                None => give_up(s),
            },
            None => finish(s, ActionView::Respond(s.first_reply)),
        },
        StageView::Address(c) => {
            let s1 = ResolutionView {
                auth_addr: s.auth_addr,
                request: s.request,
                stage: s.stage,
                query: s.query,
                via_glue: s.via_glue,
                first_reply: s.first_reply,
                qclass: s.qclass,
                answers: s.answers.push(c),
                depth: match a_record_of(r) {
                    Some(_) => s.depth,
                    None => s.depth + 1,
                },
            };
            match a_record_of(r) {
                Some(a) => match chain_response(s.request, s.qclass, s1.answers, a) {
                    Some(p) => finish(s1, ActionView::Respond(p)),
                    None => give_up(s1),
                },
                None => if s1.depth >= MAX_CNAME_DEPTH {
                    give_up(s1)
                } else {
                    match query_for(s.request, c.target, TYPE_CNAME, s.qclass) {
                        Some(q) => ask(s1, StageView::Alias, q),
                        None => give_up(s1),
                    }
                },
            }
        },
        StageView::Finished => (s, ActionView::Abandon),
    }
}

/// Where the reply `r` to the exchange in progress leads: a referral whose
/// glue is trusted sends the same query to the glue address (once per
/// exchange); any other reply ends the exchange.
pub open spec fn reply_step(s: ResolutionView, r: Seq<u8>) -> (ResolutionView, ActionView) {
    if !s.via_glue && referral(r) && trusted_glue_of(r) is Some {
        (
            ResolutionView {
                auth_addr: s.auth_addr,
                request: s.request,
                stage: s.stage,
                query: s.query,
                via_glue: true,
                first_reply: s.first_reply,
                qclass: s.qclass,
                answers: s.answers,
                depth: s.depth,
            },
            ActionView::Send { server: trusted_glue_of(r).unwrap(), query: s.query },
        )
    } else {
        exchange_done(s, r)
    }
}

/// Where a failed exchange (the server could not be reached) leads.
pub open spec fn failure_step(s: ResolutionView) -> (ResolutionView, ActionView) {
    give_up(s)
}

/// Whether the resolution waits for the reply to a query it asked for.
pub open spec fn awaiting(s: ResolutionView) -> bool {
    !(s.stage is Finished)
}

/// The state a resolution keeps between steps: a chain in progress has
/// fewer than `MAX_CNAME_DEPTH` links without an address.
pub open spec fn well_formed(s: ResolutionView) -> bool {
    &&& (s.stage is Alias || s.stage is Address) ==> s.depth < MAX_CNAME_DEPTH
    &&& s.stage is Direct ==> s.depth == 0
}

/// The most queries a resolution may still send.
pub open spec fn send_budget(s: ResolutionView) -> nat {
    let hop: nat = if s.via_glue {
        0
    } else {
        1
    };
    match s.stage {
        StageView::Direct => hop + 4 * (MAX_CNAME_DEPTH as nat),
        StageView::Alias => hop + 2 + 4 * ((MAX_CNAME_DEPTH - s.depth - 1) as nat),
        StageView::Address(_) => hop + 4 * ((MAX_CNAME_DEPTH - s.depth - 1) as nat),
        StageView::Finished => 0,
    }
}

impl Resolution {
    /// Whether the resolution waits for the reply to a query.
    pub fn is_awaiting(&self) -> (r: bool)
        ensures
            r == awaiting(self@),
    {
        match self.stage {
            Stage::Finished => false,
            _ => true,
        }
    }

    /// Starts the resolution of `request`: the first step sends it to the
    /// internal authoritative server at `auth_addr`.
    pub fn start(auth_addr: String, request: Vec<u8>) -> (r: (Resolution, ResolveAction))
        ensures
            r.0@ == (ResolutionView {
                auth_addr: auth_addr@,
                request: request@,
                stage: StageView::Direct,
                query: request@,
                via_glue: false,
                first_reply: Seq::empty(),
                qclass: 0,
                answers: Seq::empty(),
                depth: 0,
            }),
            r.1@ == (ActionView::Send { server: auth_addr@, query: request@ }),
            well_formed(r.0@),
    {
        let server = auth_addr.clone();
        let query = request.clone();
        let sent = request.clone();
        let res = Resolution {
            auth_addr,
            request,
            stage: Stage::Direct,
            query,
            via_glue: false,
            first_reply: Vec::new(),
            qclass: 0,
            answers: Vec::new(),
            depth: 0,
        };
        assert(res@.answers =~= Seq::<CnameRecord>::empty());
        (res, ResolveAction::Send { server, query: sent })
    }

    /// Finishes with `action`.
    fn finish(self, action: ResolveAction) -> (r: (Resolution, ResolveAction))
        ensures
            r.0@ == finish(self@, action@).0,
            r.1@ == action@,
    {
        let mut s = self;
        s.stage = Stage::Finished;
        (s, action)
    }

    /// Gives up: SERVFAIL, or abandons the request.
    fn give_up(self) -> (r: (Resolution, ResolveAction))
        ensures
            r.0@ == give_up(self@).0,
            r.1@ == give_up(self@).1,
    {
        match build_servfail_response(self.request.as_slice()) {
            Ok(p) => self.finish(ResolveAction::Respond(p)),
            Err(_) => self.finish(ResolveAction::Abandon),
        }
    }

    /// Asks the internal authoritative server `query`, for `stage`.
    fn ask(self, stage: Stage, query: Vec<u8>) -> (r: (Resolution, ResolveAction))
        ensures
            r.0@ == ask(self@, stage@, query@).0,
            r.1@ == ask(self@, stage@, query@).1,
    {
        let mut s = self;
        let server = s.auth_addr.clone();
        let sent = query.clone();
        s.stage = stage;
        s.query = query;
        s.via_glue = false;
        (s, ResolveAction::Send { server, query: sent })
    }

    /// Ends the exchange in progress with its final reply `reply`.
    fn exchange_done(self, reply: Vec<u8>) -> (r: (Resolution, ResolveAction))
        requires
            awaiting(self@),
            well_formed(self@),
        ensures
            r.0@ == exchange_done(self@, reply@).0,
            r.1@ == exchange_done(self@, reply@).1,
    {
        let ghost old_view = self@;
        let Resolution {
            auth_addr,
            request,
            stage,
            query,
            via_glue,
            first_reply,
            qclass,
            answers,
            depth,
        } = self;
        match stage {
            Stage::Direct => {
                let s = Resolution {
                    auth_addr,
                    request,
                    stage: Stage::Direct,
                    query,
                    via_glue,
                    first_reply,
                    qclass,
                    answers,
                    depth,
                };
                assert(s@ == old_view);
                if !is_a_query(s.request.as_slice()) || !is_nodata_response(reply.as_slice()) {
                    return s.finish(ResolveAction::Respond(reply));
                }
                match extract_question_name_and_class(s.request.as_slice()) {
                    Some((qname, qc)) => {
                        let mut s1 = s;
                        s1.first_reply = reply;
                        s1.qclass = qc;
                        s1.answers = Vec::new();
                        s1.depth = 0;
                        assert(s1@.answers =~= Seq::<CnameRecord>::empty());
                        match build_query_request(s1.request.as_slice(), qname.as_str(), TYPE_CNAME, qc) {
                            Ok(q) => s1.ask(Stage::Alias, q),
                            Err(_) => s1.give_up(),
                        }
                    },
                    None => s.finish(ResolveAction::Respond(reply)),
                }
            },
            Stage::Alias => {
                let s = Resolution {
                    auth_addr,
                    request,
                    stage: Stage::Alias,
                    query,
                    via_glue,
                    first_reply,
                    qclass,
                    answers,
                    depth,
                };
                assert(s@ == old_view);
                match extract_cname_answer(reply.as_slice()) {
                    Some(c) => {
                        match build_query_request(
                            s.request.as_slice(),
                            c.target_name.as_str(),
                            TYPE_A,
                            s.qclass,
                        ) {
                            Ok(q) => s.ask(Stage::Address(c), q),
                            Err(_) => s.give_up(),
                        }
                    },
                    None => {
                        let first = s.first_reply.clone();
                        s.finish(ResolveAction::Respond(first))
                    },
                }
            },
            Stage::Address(c) => {
                let mut answers = answers;
                let ghost before = answers@;
                match extract_a_answer(reply.as_slice()) {
                    Some(a) => {
                        answers.push(c);
                        assert(answers@.map_values(|x: CnameAnswer| x@) =~= before.map_values(
                            |x: CnameAnswer| x@,
                        ).push(c@));
                        let s1 = Resolution {
                            auth_addr,
                            request,
                            stage: Stage::Finished,
                            query,
                            via_glue,
                            first_reply,
                            qclass,
                            answers,
                            depth,
                        };
                        match build_cname_chain_a_response(
                            s1.request.as_slice(),
                            s1.qclass,
                            s1.answers.as_slice(),
                            &a,
                        ) {
                            Ok(p) => s1.finish(ResolveAction::Respond(p)),
                            Err(_) => s1.give_up(),
                        }
                    },
                    None => {
                        let target = c.target_name.clone();
                        answers.push(c);
                        assert(answers@.map_values(|x: CnameAnswer| x@) =~= before.map_values(
                            |x: CnameAnswer| x@,
                        ).push(c@));
                        let s1 = Resolution {
                            auth_addr,
                            request,
                            stage: Stage::Finished,
                            query,
                            via_glue,
                            first_reply,
                            qclass,
                            answers,
                            depth: depth + 1,
                        };
                        if s1.depth >= MAX_CNAME_DEPTH {
                            return s1.give_up();
                        }
                        match build_query_request(
                            s1.request.as_slice(),
                            target.as_str(),
                            TYPE_CNAME,
                            s1.qclass,
                        ) {
                            Ok(q) => s1.ask(Stage::Alias, q),
                            Err(_) => s1.give_up(),
                        }
                    },
                }
            },
            Stage::Finished => {
                assert(false);
                let s = Resolution {
                    auth_addr,
                    request,
                    stage: Stage::Finished,
                    query,
                    via_glue,
                    first_reply,
                    qclass,
                    answers,
                    depth,
                };
                (s, ResolveAction::Abandon)
            },
        }
    }

    /// Takes the reply to the query last sent: a referral with trusted glue
    /// sends the same query on to the glue address (once per exchange); any
    /// other reply ends the exchange and leads to the next query or to the
    /// response.
    pub fn on_reply(self, reply: Vec<u8>) -> (r: (Resolution, ResolveAction))
        requires
            awaiting(self@),
            well_formed(self@),
        ensures
            r.0@ == reply_step(self@, reply@).0,
            r.1@ == reply_step(self@, reply@).1,
            well_formed(r.0@),
    {
        proof {
            lemma_reply_step_keeps_well_formed(self@, reply@);
        }
        if !self.via_glue && is_referral_response(reply.as_slice()) {
            if let Some(glue) = extract_trusted_glue_address(reply.as_slice()) {
                let mut s = self;
                s.via_glue = true;
                let q = s.query.clone();
                return (s, ResolveAction::Send { server: glue, query: q });
            }
        }
        self.exchange_done(reply)
    }

    /// Takes the news that the query last sent got no reply: the
    /// resolution gives up with SERVFAIL.
    pub fn on_failure(self) -> (r: (Resolution, ResolveAction))
        requires
            awaiting(self@),
            well_formed(self@),
        ensures
            r.0@ == failure_step(self@).0,
            r.1@ == failure_step(self@).1,
            well_formed(r.0@),
    {
        self.give_up()
    }
}

/// Every step keeps a resolution well formed.
pub proof fn lemma_reply_step_keeps_well_formed(s: ResolutionView, r: Seq<u8>)
    requires
        well_formed(s),
    ensures
        well_formed(reply_step(s, r).0),
        well_formed(failure_step(s).0),
{
}

/// Each query a resolution sends lowers the number it may still send, so a
/// resolution ends: it sends at most `MAX_CNAME_DEPTH * 4 + 2` queries in
/// all (the first, and then at most this budget, which starts at
/// `MAX_CNAME_DEPTH * 4 + 1`). A failed exchange never leads to a send.
pub proof fn lemma_sends_are_bounded(s: ResolutionView, r: Seq<u8>)
    requires
        well_formed(s),
        awaiting(s),
    ensures
        reply_step(s, r).1 is Send ==> send_budget(reply_step(s, r).0) < send_budget(s),
        !(failure_step(s).1 is Send),
        s.stage is Direct && !s.via_glue ==> send_budget(s) == 4 * MAX_CNAME_DEPTH + 1,
{
}

/// A resolution gives an answer or gives up exactly when it is finished;
/// and it gives up without any answer only when the client's question
/// cannot be read (so no SERVFAIL can repeat it).
pub proof fn lemma_outcomes(s: ResolutionView, r: Seq<u8>)
    requires
        well_formed(s),
        awaiting(s),
    ensures
        !(reply_step(s, r).1 is Send) <==> !awaiting(reply_step(s, r).0),
        reply_step(s, r).1 is Abandon ==> servfail_packet(s.request) is None,
        failure_step(s).1 is Abandon ==> servfail_packet(s.request) is None,
        servfail_packet(s.request) matches Some(p) ==> failure_step(s).1 == ActionView::Respond(p),
        reply_step(s, r).1 matches ActionView::Send { server, .. } ==> server == s.auth_addr || (
        !s.via_glue && referral(r) && trusted_glue_of(r) == Some(server)),
{
}

/// Whether the reply `r` is a referral that the exchange in progress
/// follows: the first referral of the exchange, with trusted glue.
pub open spec fn follows_referral(s: ResolutionView, r: Seq<u8>) -> bool {
    !s.via_glue && referral(r) && trusted_glue_of(r) is Some
}

/// Whatever query a step sends becomes the query of the exchange in
/// progress, the one whose reply the next step receives.
pub proof fn lemma_sent_query_is_in_progress(s: ResolutionView, r: Seq<u8>)
    ensures
        reply_step(s, r).1 matches ActionView::Send { query, .. } ==> reply_step(s, r).0.query
            == query,
        failure_step(s).1 matches ActionView::Send { query, .. } ==> failure_step(s).0.query
            == query,
{
}

/// A referral with trusted glue, met for the first time in an exchange, is
/// followed by sending the very query of that exchange (the one the
/// referral answered) to the glue address; the stage, the chain and the
/// rest of the resolution stay as they were, and a second referral in the
/// same exchange is not followed.
pub proof fn lemma_referral_resends_same_query(s: ResolutionView, r: Seq<u8>, glue: Seq<char>)
    requires
        !s.via_glue,
        referral(r),
        trusted_glue_of(r) == Some(glue),
    ensures
        reply_step(s, r).1 == (ActionView::Send { server: glue, query: s.query }),
        reply_step(s, r).0.query == s.query,
        reply_step(s, r).0.via_glue,
        reply_step(s, r).0.stage == s.stage,
        reply_step(s, r).0.request == s.request,
        reply_step(s, r).0.answers == s.answers,
        reply_step(s, r).0.depth == s.depth,
        reply_step(reply_step(s, r).0, r).1 == exchange_done(reply_step(s, r).0, r).1,
{
}

/// A client question that is not for an A record is answered with the
/// reply to it as it came (unless that reply is a referral being followed):
/// no CNAME record is looked for.
pub proof fn lemma_non_a_question_gets_reply(s: ResolutionView, r: Seq<u8>)
    requires
        s.stage is Direct,
        !asks_for_a(s.request),
        !follows_referral(s, r),
    ensures
        reply_step(s, r).1 == ActionView::Respond(r),
        !awaiting(reply_step(s, r).0),
{
}

/// A client question whose reply is not NODATA (and not a referral being
/// followed) is answered with that reply as it came.
pub proof fn lemma_answered_question_gets_reply(s: ResolutionView, r: Seq<u8>)
    requires
        s.stage is Direct,
        !nodata(r),
        !follows_referral(s, r),
    ensures
        reply_step(s, r).1 == ActionView::Respond(r),
        !awaiting(reply_step(s, r).0),
{
}

/// When the CNAME record `c` is found for the name reached so far, the next
/// query asks the internal server for the A record of its target, and the
/// link waits to be added to the chain.
pub proof fn lemma_alias_asks_address_of_target(s: ResolutionView, r: Seq<u8>, c: CnameRecord)
    requires
        s.stage is Alias,
        !follows_referral(s, r),
        cname_record_of(r) == Some(c),
    ensures
        match query_for(s.request, c.target, TYPE_A, s.qclass) {
            Some(q) => reply_step(s, r).1 == (ActionView::Send { server: s.auth_addr, query: q })
                && reply_step(s, r).0.stage == StageView::Address(c) && reply_step(s, r).0.answers
                == s.answers,
            None => !(reply_step(s, r).1 is Send),
        },
        s.request.len() >= 12 && labels_writable(split_dots(trim_end_dots(encode_utf8(c.target))))
            ==> (reply_step(s, r).1 matches ActionView::Send { query, .. } && question_of(query)
            == Some((read_back_text(c.target), s.qclass)) && asks_for_a(query)),
{
    if s.request.len() >= 12 && labels_writable(split_dots(trim_end_dots(encode_utf8(c.target)))) {
        lemma_query_roundtrip(s.request, c.target, TYPE_A, s.qclass);
    }
}

/// When the target of the CNAME link `c` has no A record, `c` joins the
/// chain and, while the chain may grow, the next query asks the internal
/// server for the CNAME record of that target, the name the chain has
/// reached.
pub proof fn lemma_unaddressed_link_follows_target(s: ResolutionView, r: Seq<u8>, c: CnameRecord)
    requires
        s.stage == StageView::Address(c),
        !follows_referral(s, r),
        a_record_of(r) is None,
        s.depth + 1 < MAX_CNAME_DEPTH,
    ensures
        reply_step(s, r).0.answers == s.answers.push(c),
        reply_step(s, r).0.depth == s.depth + 1,
        ({
            let target = c.target;
            match query_for(s.request, target, TYPE_CNAME, s.qclass) {
                Some(q) => reply_step(s, r).1 == (ActionView::Send { server: s.auth_addr, query: q })
                    && reply_step(s, r).0.stage is Alias,
                None => !(reply_step(s, r).1 is Send),
            }
        }),
        s.request.len() >= 12 && labels_writable(split_dots(trim_end_dots(encode_utf8(c.target))))
            ==> (reply_step(s, r).1 matches ActionView::Send { query, .. } && question_of(query)
            == Some((read_back_text(c.target), s.qclass)) && !asks_for_a(query)),
{
    if s.request.len() >= 12 && labels_writable(split_dots(trim_end_dots(encode_utf8(c.target)))) {
        lemma_query_roundtrip(s.request, c.target, TYPE_CNAME, s.qclass);
    }
}

/// When the target of the CNAME link `c` has an A record, the client is
/// answered with the whole chain (every link followed, in order, ending
/// with `c`) and that A record.
pub proof fn lemma_addressed_link_answers_chain(s: ResolutionView, r: Seq<u8>, c: CnameRecord)
    requires
        s.stage == StageView::Address(c),
        !follows_referral(s, r),
        a_record_of(r) is Some,
    ensures
        match chain_response(s.request, s.qclass, s.answers.push(c), a_record_of(r).unwrap()) {
            Some(p) => reply_step(s, r).1 == ActionView::Respond(p),
            None => !(reply_step(s, r).1 is Send),
        },
        !awaiting(reply_step(s, r).0),
{
}

} // verus!
