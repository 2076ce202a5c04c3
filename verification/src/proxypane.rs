//! The page of the intercepting proxy: history, interception, repetition and rules.

use crate::route::{accepted, law_accepted_places};
use crate::text;
use vstd::prelude::*;

verus! {

/// The parts of the page.
#[derive(Clone, Copy, PartialEq, Eq, Structural, Debug)]
pub enum ProxyView {
    History,
    Intercept,
    Repeater,
    Rules,
}

/// A request and its response, as they went through.
pub struct FlowRecord {
    pub id: u64,
    pub method: String,
    pub url: String,
    /// The response's status; 0 where there is none yet.
    pub status: u16,
    pub req_headers: String,
    pub req_body: String,
    pub resp_headers: String,
    pub resp_body: String,
    pub req_len: usize,
    pub resp_len: usize,
}

/// What is held back.
#[derive(Clone, Copy, PartialEq, Eq, Structural, Debug)]
pub enum InterceptKind {
    Request,
    Response,
}

/// A message that is held back until it is decided on.
pub struct Pending {
    pub id: u64,
    pub kind: InterceptKind,
    pub method: String,
    pub url: String,
    pub status: u16,
    pub headers: String,
    pub body: String,
}

/// What becomes of a message that is held back.
pub enum Decision {
    Forward { headers: String, body: String, intercept_response: bool },
    Drop,
}

/// What was clicked beside a message that is held back.
#[derive(Clone, Copy, PartialEq, Eq, Structural, Debug)]
pub enum InterceptClick {
    Forward,
    /// Forward, and hold the response back too.
    ForwardFollow,
    Drop,
    Nothing,
}

/// A request that is sent again, and its response.
pub struct Repeater {
    pub method: String,
    pub url: String,
    pub headers: String,
    pub body: String,
    pub busy: bool,
    pub status: u16,
    pub resp_headers: String,
    pub resp_body: String,
}

/// The response to a request that was sent again.
pub struct RepeaterResponse {
    pub status: u16,
    pub headers: String,
    pub body: String,
}

/// How a request that was sent again stands.
pub enum RepeaterPoll {
    Pending,
    Done(RepeaterResponse),
    Closed,
}

/// What replaces what in messages.
pub struct Rule<T> {
    pub enabled: bool,
    /// The part of a message that the rule is for.
    pub target: T,
    pub is_regex: bool,
    pub pattern: String,
    pub replacement: String,
}

/// What the page holds.
pub struct ProxyPane {
    pub port_text: String,
    pub running: bool,
    pub view: ProxyView,
    pub filter: String,
    pub selected: Option<u64>,
    /// The message that is being edited.
    pub icpt_id: Option<u64>,
    pub icpt_headers: String,
    pub icpt_body: String,
    pub icpt_follow: bool,
    pub repeater: Repeater,
}

/// The port that a text stands for.
pub open spec fn port_in(s: Seq<char>) -> Option<int> {
    text::integer(text::trimmed(s), 10, 0, 65535)
}

/// A status as it is shown.
pub open spec fn status_text(status: u16) -> Seq<char> {
    if status == 0 {
        "—"@
    } else {
        text::decimal(status as nat)
    }
}

/// A status as it is shown.
pub fn status_label(status: u16) -> (r: String)
    ensures
        r@ == status_text(status),
{
    if status == 0 {
        "—".to_owned()
    } else {
        text::decimal_string(status as u64)
    }
}

/// The places of the flows whose address passes a filter, the newest first.
pub open spec fn shown_flows(flows: Seq<FlowRecord>, filter: Seq<char>) -> Seq<usize> {
    accepted(
        |i: int| text::passes_filter(flows[i].url@, filter),
        flows.len() as int,
    ).reverse()
}

impl Repeater {
    /// What is held once it is known how the request stands.
    pub open spec fn polled(self, poll: RepeaterPoll) -> Repeater {
        match poll {
            RepeaterPoll::Pending => self,
            RepeaterPoll::Done(p) => Repeater {
                busy: false,
                status: p.status,
                resp_headers: p.headers,
                resp_body: p.body,
                ..self
            },
            RepeaterPoll::Closed => Repeater { busy: false, ..self },
        }
    }
}

impl ProxyPane {
    /// What the page holds with a message that is held back.
    pub open spec fn loaded(self, p: Pending) -> ProxyPane {
        if self.icpt_id == Some(p.id) {
            self
        } else {
            ProxyPane {
                icpt_id: Some(p.id),
                icpt_headers: p.headers,
                icpt_body: p.body,
                icpt_follow: false,
                ..self
            }
        }
    }

    /// What becomes of the message that is being edited.
    pub open spec fn decision(self, click: InterceptClick) -> Option<Decision> {
        match click {
            InterceptClick::Forward => Some(
                Decision::Forward {
                    headers: self.icpt_headers,
                    body: self.icpt_body,
                    intercept_response: self.icpt_follow,
                },
            ),
            InterceptClick::ForwardFollow => Some(
                Decision::Forward {
                    headers: self.icpt_headers,
                    body: self.icpt_body,
                    intercept_response: true,
                },
            ),
            InterceptClick::Drop => Some(Decision::Drop),
            InterceptClick::Nothing => None,
        }
    }

    /// What the page holds after a click.
    pub open spec fn decided(self, click: InterceptClick) -> ProxyPane {
        if click is Nothing {
            self
        } else {
            ProxyPane { icpt_id: None, ..self }
        }
    }

    /// A request can be sent again.
    pub open spec fn may_send(self) -> bool {
        self.running && !self.repeater.busy
    }

    /// The start.
    pub fn new() -> (r: ProxyPane)
        ensures
            r.port_text@ == "8080"@,
            !r.running,
            r.view == ProxyView::History,
            r.filter@ == Seq::<char>::empty(),
            r.selected is None,
            r.icpt_id is None,
            r.icpt_headers@ == Seq::<char>::empty(),
            r.icpt_body@ == Seq::<char>::empty(),
            !r.icpt_follow,
            r.repeater.method@ == "GET"@,
            r.repeater.url@ == Seq::<char>::empty(),
            r.repeater.headers@ == Seq::<char>::empty(),
            r.repeater.body@ == Seq::<char>::empty(),
            !r.repeater.busy,
            r.repeater.status == 0,
            r.repeater.resp_headers@ == Seq::<char>::empty(),
            r.repeater.resp_body@ == Seq::<char>::empty(),
    {
        ProxyPane {
            port_text: "8080".to_owned(),
            running: false,
            view: ProxyView::History,
            filter: String::new(),
            selected: None,
            icpt_id: None,
            icpt_headers: String::new(),
            icpt_body: String::new(),
            icpt_follow: false,
            repeater: Repeater {
                method: "GET".to_owned(),
                url: String::new(),
                headers: String::new(),
                body: String::new(),
                busy: false,
                status: 0,
                resp_headers: String::new(),
                resp_body: String::new(),
            },
        }
    }

    /// Starts the proxy on the port that was typed, or says that it is none. Gives the port, and
    /// what is said then.
    pub fn start(&mut self) -> (r: (Option<u16>, String))
        ensures
            match r.0 {
                Some(p) => {
                    &&& port_in(old(self).port_text@) == Some(p as int)
                    &&& r.1@ == "Proxy iniciado na porta "@ + text::decimal(p as nat) + "."@
                    &&& *final(self) == ProxyPane { running: true, ..*old(self) }
                },
                None => port_in(old(self).port_text@) is None && r.1@ == "Porta inválida."@
                    && *final(self) == *old(self),
            },
    {
        let t = text::trim(self.port_text.as_str());
        match text::parse_integer(t.as_slice(), 10, 0, 65535) {
            Some(v) => {
                self.running = true;
                let mut s = "Proxy iniciado na porta ".to_owned();
                text::push_decimal(&mut s, v as u64);
                s.append(".");
                (Some(v as u16), s)
            },
            None => (None, "Porta inválida.".to_owned()),
        }
    }

    /// Stops the proxy. Gives what is said then.
    pub fn stop(&mut self) -> (r: &'static str)
        ensures
            *final(self) == (ProxyPane { running: false, ..*old(self) }),
            r@ == "Proxy parado."@,
    {
        self.running = false;
        "Proxy parado."
    }

    /// Opens a flow, or none.
    pub fn select(&mut self, id: Option<u64>)
        ensures
            *final(self) == (ProxyPane { selected: id, ..*old(self) }),
    {
        self.selected = id;
    }

    /// The places of the flows that are shown, the newest first: those whose address passes the
    /// filter.
    pub fn visible_flows(&self, flows: &Vec<FlowRecord>) -> (r: Vec<usize>)
        ensures
            r@ == shown_flows(flows@, self.filter@),
    {
        let ghost test = |i: int| text::passes_filter(flows@[i].url@, self.filter@);
        let mut out: Vec<usize> = Vec::new();
        let mut i: usize = flows.len();
        while i > 0
            invariant
                i <= flows@.len(),
                test == (|i: int| text::passes_filter(flows@[i].url@, self.filter@)),
                out@ + accepted(test, i as int).reverse() == accepted(
                    test,
                    flows@.len() as int,
                ).reverse(),
            decreases i,
        {
            let ghost before = out@;
            let ghost rest = accepted(test, i - 1);
            i -= 1;
            if text::filter_accepts(flows[i].url.as_str(), self.filter.as_str()) {
                out.push(i);
                assert(rest.push(i).reverse() =~= seq![i] + rest.reverse());
                assert(before + (seq![i] + rest.reverse()) =~= out@ + rest.reverse());
            }
        }
        assert(accepted(test, 0).reverse() =~= Seq::<usize>::empty());
        assert(out@ + Seq::<usize>::empty() =~= out@);
        out
    }

    /// The place of the flow that is opened.
    pub open spec fn opened(flows: Seq<FlowRecord>, id: u64) -> Option<int>
        decreases flows.len(),
    {
        if flows.len() == 0 {
            None
        } else {
            match ProxyPane::opened(flows.drop_last(), id) {
                Some(i) => Some(i),
                None => if flows.last().id == id {
                    Some(flows.len() - 1)
                } else {
                    None
                },
            }
        }
    }

    /// The place of the flow that is opened.
    pub fn selected_flow(&self, flows: &Vec<FlowRecord>) -> (r: Option<usize>)
        ensures
            (match self.selected {
                Some(id) => ProxyPane::opened(flows@, id),
                None => None,
            }) == (match r {
                Some(i) => Some(i as int),
                None => None,
            }),
            r matches Some(i) ==> i < flows@.len(),
    {
        let id = match self.selected {
            Some(id) => id,
            None => {
                return None;
            },
        };
        let mut i: usize = 0;
        while i < flows.len()
            invariant
                i <= flows@.len(),
                self.selected == Some(id),
                forall|k: int| 0 <= k < i ==> (#[trigger] flows@[k]).id != id,
            decreases flows.len() - i,
        {
            if flows[i].id == id {
                proof {
                    lemma_opened(flows@, id, i as int);
                }
                return Some(i);
            }
            i += 1;
        }
        proof {
            lemma_opened(flows@, id, i as int);
        }
        None
    }

    /// Takes a flow over to be sent again.
    pub fn repeat_flow(&mut self, f: &FlowRecord)
        ensures
            *final(self) == (ProxyPane {
                repeater: final(self).repeater,
                view: ProxyView::Repeater,
                ..*old(self)
            }),
            final(self).repeater == (Repeater {
                method: f.method,
                url: f.url,
                headers: f.req_headers,
                body: f.req_body,
                ..old(self).repeater
            }),
    {
        self.repeater.method = f.method.clone();
        self.repeater.url = f.url.clone();
        self.repeater.headers = f.req_headers.clone();
        self.repeater.body = f.req_body.clone();
        self.view = ProxyView::Repeater;
    }

    /// Takes over a message that is held back, unless it is being edited already.
    pub fn load_pending(&mut self, p: &Pending)
        ensures
            *final(self) == old(self).loaded(*p),
    {
        let same = match self.icpt_id {
            Some(id) => id == p.id,
            None => false,
        };
        if !same {
            self.icpt_id = Some(p.id);
            self.icpt_headers = p.headers.clone();
            self.icpt_body = p.body.clone();
            self.icpt_follow = false;
        }
    }

    /// Decides on the message that is being edited: it goes on as it was edited, or not at all.
    pub fn decide(&mut self, click: InterceptClick) -> (r: Option<Decision>)
        ensures
            r == old(self).decision(click),
            *final(self) == old(self).decided(click),
    {
        match click {
            InterceptClick::Forward => {
                self.icpt_id = None;
                Some(
                    Decision::Forward {
                        headers: self.icpt_headers.clone(),
                        body: self.icpt_body.clone(),
                        intercept_response: self.icpt_follow,
                    },
                )
            },
            InterceptClick::ForwardFollow => {
                self.icpt_id = None;
                Some(
                    Decision::Forward {
                        headers: self.icpt_headers.clone(),
                        body: self.icpt_body.clone(),
                        intercept_response: true,
                    },
                )
            },
            InterceptClick::Drop => {
                self.icpt_id = None;
                Some(Decision::Drop)
            },
            InterceptClick::Nothing => None,
        }
    }

    /// Takes the message that is being edited over to be sent again.
    pub fn repeat_pending(&mut self, p: &Pending)
        ensures
            *final(self) == (ProxyPane {
                repeater: final(self).repeater,
                view: ProxyView::Repeater,
                ..*old(self)
            }),
            final(self).repeater == (Repeater {
                method: p.method,
                url: p.url,
                headers: old(self).icpt_headers,
                body: old(self).icpt_body,
                ..old(self).repeater
            }),
    {
        self.repeater.method = p.method.clone();
        self.repeater.url = p.url.clone();
        self.repeater.headers = self.icpt_headers.clone();
        self.repeater.body = self.icpt_body.clone();
        self.view = ProxyView::Repeater;
    }

    /// Tells whether a request can be sent, and notes that it is: with the proxy running, and none
    /// under way.
    pub fn send(&mut self) -> (r: bool)
        ensures
            r == old(self).may_send(),
            *final(self) == (ProxyPane { repeater: final(self).repeater, ..*old(self) }),
            final(self).repeater == (Repeater {
                busy: old(self).repeater.busy || r,
                ..old(self).repeater
            }),
    {
        if self.running && !self.repeater.busy {
            self.repeater.busy = true;
            true
        } else {
            false
        }
    }

    /// Takes the response to the request that was sent, or notes that there will be none.
    pub fn poll_repeater(&mut self, poll: RepeaterPoll)
        ensures
            *final(self) == (ProxyPane { repeater: final(self).repeater, ..*old(self) }),
            final(self).repeater == old(self).repeater.polled(poll),
    {
        match poll {
            RepeaterPoll::Pending => {},
            RepeaterPoll::Done(p) => {
                self.repeater.status = p.status;
                self.repeater.resp_headers = p.headers;
                self.repeater.resp_body = p.body;
                self.repeater.busy = false;
            },
            RepeaterPoll::Closed => {
                self.repeater.busy = false;
            },
        }
    }
}

proof fn lemma_opened(flows: Seq<FlowRecord>, id: u64, n: int)
    requires
        0 <= n <= flows.len(),
        forall|i: int| 0 <= i < n ==> (#[trigger] flows[i]).id != id,
        n < flows.len() ==> flows[n].id == id,
    ensures
        ProxyPane::opened(flows, id) == (if n < flows.len() {
            Some(n)
        } else {
            None
        }),
    decreases flows.len(),
{
    if flows.len() > 0 {
        if n < flows.len() - 1 {
            lemma_opened(flows.drop_last(), id, n);
        } else {
            lemma_opened(flows.drop_last(), id, flows.len() - 1);
        }
    }
}

/// What stands on the button of the messages that are held back.
pub fn intercept_label(pending: usize) -> (r: String)
    ensures
        r@ == (if pending > 0 {
            "Intercept ("@ + text::decimal(pending as nat) + ")"@
        } else {
            "Intercept"@
        }),
{
    if pending > 0 {
        let mut s = "Intercept (".to_owned();
        text::push_decimal(&mut s, pending as u64);
        s.append(")");
        s
    } else {
        "Intercept".to_owned()
    }
}

/// The heading of a flow.
pub fn flow_heading(f: &FlowRecord) -> (r: String)
    ensures
        r@ == f.method@ + " "@ + f.url@ + "  →  "@ + text::decimal(f.status as nat) + "  ("@
            + text::decimal(f.req_len as nat) + " B req / "@ + text::decimal(f.resp_len as nat)
            + " B resp)"@,
{
    let mut s = f.method.clone();
    s.append(" ");
    s.append(f.url.as_str());
    s.append("  →  ");
    text::push_decimal(&mut s, f.status as u64);
    s.append("  (");
    text::push_decimal(&mut s, f.req_len as u64);
    s.append(" B req / ");
    text::push_decimal(&mut s, f.resp_len as u64);
    s.append(" B resp)");
    s
}

/// The heading of a message that is held back.
pub fn pending_heading(p: &Pending) -> (r: String)
    ensures
        r@ == (match p.kind {
            InterceptKind::Request => "Requisição"@,
            InterceptKind::Response => "Resposta"@,
        }) + " — "@ + p.method@ + " "@ + p.url@,
{
    let mut s = (match p.kind {
        InterceptKind::Request => "Requisição",
        InterceptKind::Response => "Resposta",
    }).to_owned();
    s.append(" — ");
    s.append(p.method.as_str());
    s.append(" ");
    s.append(p.url.as_str());
    s
}

/// What is said while nothing is held back.
pub fn waiting_text(on: bool) -> (r: &'static str)
    ensures
        r@ == (if on {
            "Aguardando requisição…"@
        } else {
            "Intercept desligado."@
        }),
{
    if on {
        "Aguardando requisição…"
    } else {
        "Intercept desligado."
    }
}

/// A new rule: switched on, for a part of messages, replacing nothing yet.
pub fn new_rule<T>(target: T) -> (r: Rule<T>)
    ensures
        r.enabled,
        r.target == target,
        !r.is_regex,
        r.pattern@ == Seq::<char>::empty(),
        r.replacement@ == Seq::<char>::empty(),
{
    Rule {
        enabled: true,
        target,
        is_regex: false,
        pattern: String::new(),
        replacement: String::new(),
    }
}

/// The flow that is opened is the first with its number; without one there is none.
pub proof fn law_opened_flow_has_the_number(flows: Seq<FlowRecord>, id: u64, n: int)
    requires
        0 <= n <= flows.len(),
        forall|i: int| 0 <= i < n ==> (#[trigger] flows[i]).id != id,
        n < flows.len() ==> flows[n].id == id,
    ensures
        n < flows.len() ==> ProxyPane::opened(flows, id) == Some(n),
        n == flows.len() ==> ProxyPane::opened(flows, id) is None,
{
    lemma_opened(flows, id, n);
}

/// A port typed in decimal is the port, whatever white space is around it, up to 65535.
pub proof fn law_typed_port_is_read(n: nat, a: Seq<char>, b: Seq<char>)
    requires
        text::blank(a),
        text::blank(b),
    ensures
        port_in(a + text::decimal(n) + b) == (if n <= 65535 {
            Some(n as int)
        } else {
            None
        }),
{
    text::law_numeral_round_trip(n, 10, false);
    text::law_trimming_takes_white_space(a, text::decimal(n), b);
    text::law_integer_round_trip(n as int, 0, 65535);
}

/// A message that is held back goes on as it came, unless it is edited, and its response is held back
/// only where that is asked for; or it does not go on at all. What is being edited is not overwritten
/// by the same message, and once it is decided on, the next message is taken over as it came.
pub proof fn law_held_message_goes_on(pane: ProxyPane, p: Pending, q: Pending, click: InterceptClick)
    ensures
        ({
            let held = pane.loaded(p);
            &&& held.icpt_id == Some(p.id)
            &&& pane.icpt_id == Some(p.id) ==> held == pane
            &&& pane.icpt_id != Some(p.id) ==> {
                &&& held.decision(InterceptClick::Forward) == Some(
                    Decision::Forward {
                        headers: p.headers,
                        body: p.body,
                        intercept_response: false,
                    },
                )
                &&& held.decision(InterceptClick::ForwardFollow) == Some(
                    Decision::Forward { headers: p.headers, body: p.body, intercept_response: true },
                )
            }
            &&& held.decision(InterceptClick::Drop) == Some(Decision::Drop)
            &&& held.decision(InterceptClick::Nothing) is None
            &&& held.decided(InterceptClick::Nothing) == held
            &&& !(click is Nothing) ==> held.decided(click).icpt_id is None && {
                let next = held.decided(click).loaded(q);
                &&& next.icpt_id == Some(q.id)
                &&& next.icpt_headers == q.headers
                &&& next.icpt_body == q.body
                &&& !next.icpt_follow
            }
        }),
{
}

/// What was edited is what goes on, with the choice whether the response is held back.
pub proof fn law_edited_message_goes_on(pane: ProxyPane, headers: String, body: String, follow: bool)
    ensures
        ({
            let edited = ProxyPane {
                icpt_headers: headers,
                icpt_body: body,
                icpt_follow: follow,
                ..pane
            };
            &&& edited.decision(InterceptClick::Forward) == Some(
                Decision::Forward { headers, body, intercept_response: follow },
            )
            &&& edited.decision(InterceptClick::ForwardFollow) == Some(
                Decision::Forward { headers, body, intercept_response: true },
            )
        }),
{
}

/// Requests are sent again one at a time, through a running proxy. The response is held as it came,
/// and the request stays as it was.
pub proof fn law_one_repetition_at_a_time(pane: ProxyPane, r: Repeater, a: RepeaterResponse)
    ensures
        pane.may_send() ==> pane.running && !pane.repeater.busy,
        pane.running && !pane.repeater.busy ==> pane.may_send(),
        r.polled(RepeaterPoll::Pending) == r,
        r.polled(RepeaterPoll::Closed) == (Repeater { busy: false, ..r }),
        ({
            let done = r.polled(RepeaterPoll::Done(a));
            &&& !done.busy
            &&& done.status == a.status
            &&& done.resp_headers == a.headers
            &&& done.resp_body == a.body
            &&& done.method == r.method
            &&& done.url == r.url
            &&& done.headers == r.headers
            &&& done.body == r.body
        }),
{
}

/// The flows that are shown are exactly those whose address passes the filter, each once, and a newer
/// one stands before an older one.
pub proof fn law_newest_flow_first(flows: Seq<FlowRecord>, filter: Seq<char>)
    requires
        flows.len() <= usize::MAX,
    ensures
        forall|i: int, j: int|
            0 <= i < j < shown_flows(flows, filter).len() ==> (#[trigger] shown_flows(
                flows,
                filter,
            )[j]) < #[trigger] shown_flows(flows, filter)[i],
        forall|i: int|
            0 <= i < shown_flows(flows, filter).len() ==> (#[trigger] shown_flows(flows, filter)[i])
                < flows.len() && text::passes_filter(
                flows[shown_flows(flows, filter)[i] as int].url@,
                filter,
            ),
        forall|k: int|
            0 <= k < flows.len() && text::passes_filter((#[trigger] flows[k]).url@, filter)
                ==> shown_flows(flows, filter).contains(k as usize),
{
    let test = |i: int| text::passes_filter(flows[i].url@, filter);
    let all = accepted(test, flows.len() as int);
    let shown = shown_flows(flows, filter);
    law_accepted_places(test, flows.len() as int);
    assert(shown == all.reverse());
    assert forall|i: int| 0 <= i < shown.len() implies (#[trigger] shown[i]) < flows.len()
        && text::passes_filter(flows[shown[i] as int].url@, filter) by {
        assert(shown[i] == all[all.len() - 1 - i]);
        assert(test(shown[i] as int));
    }
    assert forall|k: int|
        0 <= k < flows.len() && text::passes_filter(
            (#[trigger] flows[k]).url@,
            filter,
        ) implies shown.contains(k as usize) by {
        assert(test(k));
        let i = choose|i: int| 0 <= i < all.len() && all[i] == k as usize;
        assert(shown[all.len() - 1 - i] == all[i]);
    }
}

/// A status is shown by its number, and the lack of one by a dash.
pub proof fn law_status_is_shown_by_number(status: u16)
    ensures
        status != 0 ==> status_text(status) == text::decimal(status as nat),
        status_text(0) == seq!['—'],
{
    reveal_strlit("—");
    assert("—"@ =~= seq!['—']);
}

} // verus!
