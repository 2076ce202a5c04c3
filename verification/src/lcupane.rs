//! The page that talks to a game client's local interface.

use crate::text;
use vstd::prelude::*;

verus! {

/// Where the client listens, and its process.
#[derive(Clone, Copy, PartialEq, Eq, Structural, Debug)]
pub struct LcuConn {
    pub pid: u32,
    pub port: u16,
}

/// A response of the client.
pub struct LcuResponse {
    pub status: u16,
    pub body: String,
}

/// How a request stands.
pub enum LcuPoll {
    Pending,
    Done(Result<LcuResponse, String>),
    Closed,
}

/// A request to the client.
pub struct LcuRequest {
    pub conn: LcuConn,
    pub method: String,
    pub path: String,
    pub body: String,
}

/// What the page holds.
pub struct LcuPane {
    pub conn: Option<LcuConn>,
    pub method: String,
    pub path: String,
    pub body: String,
    pub busy: bool,
    pub status: u16,
    pub resp: String,
}

/// The requests that are offered, each with its name.
pub open spec fn offered() -> Seq<(Seq<char>, Seq<char>)> {
    seq![
        ("Summoner atual"@, "/lol-summoner/v1/current-summoner"@),
        ("Fase do jogo"@, "/lol-gameflow/v1/gameflow-phase"@),
        ("Carteira (RP/BE)"@, "/lol-store/v1/wallet"@),
        ("Amigos"@, "/lol-chat/v1/friends"@),
        ("Sessão de seleção"@, "/lol-champ-select/v1/session"@),
    ]
}

/// The requests that are offered, each with its name.
pub fn shortcuts() -> (r: Vec<(&'static str, &'static str)>)
    ensures
        r@.len() == offered().len(),
        forall|i: int|
            0 <= i < r@.len() ==> ((#[trigger] r@[i]).0@, r@[i].1@) == offered()[i],
{
    vec![
        ("Summoner atual", "/lol-summoner/v1/current-summoner"),
        ("Fase do jogo", "/lol-gameflow/v1/gameflow-phase"),
        ("Carteira (RP/BE)", "/lol-store/v1/wallet"),
        ("Amigos", "/lol-chat/v1/friends"),
        ("Sessão de seleção", "/lol-champ-select/v1/session"),
    ]
}

/// What is said after a client was looked for: that it was found, with words before, or why not.
pub open spec fn found_text(found: Result<LcuConn, String>, words: Seq<char>) -> Seq<char> {
    match found {
        Ok(c) => words + " (pid "@ + text::decimal(c.pid as nat) + ", porta "@ + text::decimal(
            c.port as nat,
        ) + ")."@,
        Err(e) => "LCU: "@ + e@,
    }
}

/// Requests of a method have a body.
pub open spec fn carries_body(method: Seq<char>) -> bool {
    !(method == "GET"@ || method == "DELETE"@)
}

impl LcuPane {
    /// A request can be sent: there is a client, and none is under way.
    pub open spec fn may_send(self) -> bool {
        !self.busy && self.conn is Some
    }

    /// What the page holds once it is known how the request stands.
    pub open spec fn polled(self, p: LcuPoll) -> LcuPane {
        match p {
            LcuPoll::Pending => self,
            LcuPoll::Done(Ok(a)) => LcuPane { busy: false, status: a.status, resp: a.body, ..self },
            LcuPoll::Done(Err(e)) => LcuPane { busy: false, status: 0, resp: e, ..self },
            LcuPoll::Closed => LcuPane { busy: false, ..self },
        }
    }

    /// The status as it is shown, and whether it is a good one.
    pub open spec fn shown_status(self) -> Option<(bool, Seq<char>)> {
        if self.busy || self.status == 0 {
            None
        } else {
            Some((self.status < 400, "HTTP "@ + text::decimal(self.status as nat)))
        }
    }

    /// The start.
    pub fn new() -> (r: LcuPane)
        ensures
            r.conn is None,
            r.method@ == "GET"@,
            r.path@ == "/lol-summoner/v1/current-summoner"@,
            r.body@ == Seq::<char>::empty(),
            !r.busy,
            r.status == 0,
            r.resp@ == Seq::<char>::empty(),
    {
        LcuPane {
            conn: None,
            method: "GET".to_owned(),
            path: "/lol-summoner/v1/current-summoner".to_owned(),
            body: String::new(),
            busy: false,
            status: 0,
            resp: String::new(),
        }
    }

    /// Notes whether a client was found. Gives what is said then; `overview` is whether it was
    /// looked for from the overview.
    pub fn discovered(&mut self, found: Result<LcuConn, String>, overview: bool) -> (r: String)
        ensures
            *final(self) == (LcuPane {
                conn: match found {
                    Ok(c) => Some(c),
                    Err(_) => None,
                },
                ..*old(self)
            }),
            r@ == found_text(
                found,
                if overview {
                    "League Client detectado"@
                } else {
                    "LCU detectado"@
                },
            ),
    {
        match found {
            Ok(c) => {
                self.conn = Some(c);
                let mut s = (if overview {
                    "League Client detectado"
                } else {
                    "LCU detectado"
                }).to_owned();
                s.append(" (pid ");
                text::push_decimal(&mut s, c.pid as u64);
                s.append(", porta ");
                text::push_decimal(&mut s, c.port as u64);
                s.append(").");
                s
            },
            Err(e) => {
                self.conn = None;
                let mut s = "LCU: ".to_owned();
                s.append(e.as_str());
                s
            },
        }
    }

    /// Takes over a request that is offered.
    pub fn take_shortcut(&mut self, path: &str)
        ensures
            *final(self) == (LcuPane {
                method: final(self).method,
                path: final(self).path,
                body: final(self).body,
                ..*old(self)
            }),
            final(self).method@ == "GET"@,
            final(self).path@ == path@,
            final(self).body@ == Seq::<char>::empty(),
    {
        self.method = "GET".to_owned();
        self.path = path.to_owned();
        self.body = String::new();
    }

    /// Tells whether the request has a body.
    pub fn has_body(&self) -> (r: bool)
        ensures
            r == carries_body(self.method@),
    {
        let m = text::chars_of(self.method.as_str());
        !(text::same_chars(m.as_slice(), text::chars_of("GET").as_slice()) || text::same_chars(
            m.as_slice(),
            text::chars_of("DELETE").as_slice(),
        ))
    }

    /// Sends the request, where there is a client and no request is under way.
    pub fn send(&mut self) -> (r: Option<LcuRequest>)
        ensures
            match r {
                Some(q) => {
                    &&& old(self).may_send()
                    &&& old(self).conn == Some(q.conn)
                    &&& q.method == old(self).method
                    &&& q.path == old(self).path
                    &&& q.body == old(self).body
                    &&& *final(self) == LcuPane {
                        busy: true,
                        status: 0,
                        resp: final(self).resp,
                        ..*old(self)
                    }
                    &&& final(self).resp@ == Seq::<char>::empty()
                },
                None => !old(self).may_send() && *final(self) == *old(self),
            },
    {
        if self.busy {
            return None;
        }
        match self.conn {
            Some(conn) => {
                self.busy = true;
                self.status = 0;
                self.resp = String::new();
                Some(
                    LcuRequest {
                        conn,
                        method: self.method.clone(),
                        path: self.path.clone(),
                        body: self.body.clone(),
                    },
                )
            },
            None => None,
        }
    }

    /// Takes the response, or the error, or notes that there will be neither.
    pub fn poll(&mut self, p: LcuPoll)
        ensures
            *final(self) == old(self).polled(p),
    {
        match p {
            LcuPoll::Pending => {},
            LcuPoll::Done(d) => match d {
                Ok(a) => {
                    self.status = a.status;
                    self.resp = a.body;
                    self.busy = false;
                },
                Err(e) => {
                    self.status = 0;
                    self.resp = e;
                    self.busy = false;
                },
            },
            LcuPoll::Closed => {
                self.busy = false;
            },
        }
    }

    /// The status as it is shown, and whether it is a good one. Nothing while a request is under way
    /// or before the first.
    pub fn status_line(&self) -> (r: Option<(bool, String)>)
        ensures
            (match r {
                Some((good, s)) => Some((good, s@)),
                None => None,
            }) == self.shown_status(),
    {
        if self.busy || self.status == 0 {
            return None;
        }
        let mut s = "HTTP ".to_owned();
        text::push_decimal(&mut s, self.status as u64);
        Some((self.status < 400, s))
    }

    /// What is said of the client on its page, and on the overview.
    pub fn conn_line(&self, overview: bool) -> (r: String)
        ensures
            r@ == (match self.conn {
                Some(c) => if overview {
                    "client selecionado · pid "@ + text::decimal(c.pid as nat) + " · 127.0.0.1:"@
                        + text::decimal(c.port as nat)
                } else {
                    "conectado · 127.0.0.1:"@ + text::decimal(c.port as nat) + " (pid "@
                        + text::decimal(c.pid as nat) + ")"@
                },
                None => if overview {
                    "client não detectado"@
                } else {
                    "não detectado"@
                },
            }),
    {
        match self.conn {
            Some(c) => if overview {
                let mut s = "client selecionado · pid ".to_owned();
                text::push_decimal(&mut s, c.pid as u64);
                s.append(" · 127.0.0.1:");
                text::push_decimal(&mut s, c.port as u64);
                s
            } else {
                let mut s = "conectado · 127.0.0.1:".to_owned();
                text::push_decimal(&mut s, c.port as u64);
                s.append(" (pid ");
                text::push_decimal(&mut s, c.pid as u64);
                s.append(")");
                s
            },
            None => if overview {
                "client não detectado".to_owned()
            } else {
                "não detectado".to_owned()
            },
        }
    }
}

/// One request is under way at a time: while it is, no other can be sent and no status is shown. Its
/// end, whatever it is, lets the next be sent, and leaves the client and the request as they were.
pub proof fn law_one_request_at_a_time(pane: LcuPane, p: LcuPoll)
    ensures
        pane.busy || pane.conn is None ==> !pane.may_send(),
        pane.busy ==> pane.shown_status() is None,
        p is Pending ==> pane.polled(p) == pane,
        !(p is Pending) && pane.conn is Some ==> pane.polled(p).may_send(),
        pane.polled(p).conn == pane.conn,
        pane.polled(p).method == pane.method,
        pane.polled(p).path == pane.path,
        pane.polled(p).body == pane.body,
{
}

/// The answer is shown as it came, with its status, which is a good one below 400. Of an error its
/// words are shown, and no status. Where neither comes, what was shown stays.
pub proof fn law_answer_is_shown(pane: LcuPane, a: LcuResponse, e: String)
    ensures
        ({
            let good = pane.polled(LcuPoll::Done(Ok(a)));
            let bad = pane.polled(LcuPoll::Done(Err(e)));
            let none = pane.polled(LcuPoll::Closed);
            &&& good.resp == a.body
            &&& a.status == 0 ==> good.shown_status() is None
            &&& 0 < a.status < 400 ==> good.shown_status() == Some(
                (true, seq!['H', 'T', 'T', 'P', ' '] + text::decimal(a.status as nat)),
            )
            &&& a.status >= 400 ==> good.shown_status() == Some(
                (false, seq!['H', 'T', 'T', 'P', ' '] + text::decimal(a.status as nat)),
            )
            &&& bad.resp == e
            &&& bad.shown_status() is None
            &&& none.resp == pane.resp
            &&& none.status == pane.status
        }),
{
    reveal_strlit("HTTP ");
    assert("HTTP "@ =~= seq!['H', 'T', 'T', 'P', ' ']);
}

/// Requests have a body, except those that get something and those that delete something.
pub proof fn law_getting_and_deleting_need_no_body(method: Seq<char>)
    ensures
        carries_body(method) <==> method != seq!['G', 'E', 'T'] && method != seq![
            'D',
            'E',
            'L',
            'E',
            'T',
            'E',
        ],
{
    reveal_strlit("GET");
    reveal_strlit("DELETE");
    assert("GET"@ =~= seq!['G', 'E', 'T']);
    assert("DELETE"@ =~= seq!['D', 'E', 'L', 'E', 'T', 'E']);
}

} // verus!
