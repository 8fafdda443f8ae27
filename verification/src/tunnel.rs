//! The decisions of a service that lets peers reach local TCP services
//! through tunnels: which service a dial goes to, what each message does to
//! the table of open tunnels, and which error is returned. Connecting,
//! sending and the tunnels themselves are the caller's.

use vstd::prelude::*;
use vstd::utf8::encode_utf8;

verus! {

/// The name of a tunnel.
#[derive(Clone, Copy, Debug, PartialEq, Eq, Structural, Hash)]
pub struct TunnelId(pub u128);

/// Why a tunnel went down.
#[derive(Clone, Copy, Debug, PartialEq, Eq, Structural)]
pub enum Defeat {
    ConnectionTimeout,
    ConnectionRefused,
    ConnectionAborted,
    ConnectionReset,
    NotConnected,
    ConnectionClosed,
    Unknown,
}

/// A report to the peer could not be sent.
#[derive(Clone, Copy, Debug, PartialEq, Eq, Structural)]
pub struct SendFailure;

/// What a peer sends about a tunnel.
#[derive(Clone, Debug, PartialEq, Eq)]
pub enum TunnelMessage {
    /// Open tunnel `tid` to the service of this name.
    TcpDial { tid: TunnelId, service: String },
    /// Tunnel `tid` is down.
    TcpClose { tid: TunnelId, reason: Defeat },
    /// Bytes for tunnel `tid`.
    TcpPackage { tid: TunnelId, body: Vec<u8> },
}

/// What the service refuses with.
#[derive(Clone, Copy, Debug, PartialEq, Eq, Structural)]
pub enum TunnelError {
    /// The message could not be read.
    DecodeError,
    /// No service has the name that was dialled.
    InvalidService,
    /// No tunnel of that name is open.
    TunnelNotFound,
    /// The report of a failed dial could not be sent.
    SendMessage,
    /// The dial failed, and the peer was told.
    TunnelError(Defeat),
}

/// What is to be done for a message.
#[derive(Clone, Copy, Debug, PartialEq, Eq, Structural)]
pub enum TunnelStep {
    /// Connect to service number `service`, for tunnel `tid`.
    Connect { tid: TunnelId, service: usize },
    /// Take tunnel `tid` from the table, if it is there.
    Close { tid: TunnelId },
    /// Hand the body to tunnel `tid`.
    Forward { tid: TunnelId },
    /// Do nothing, and return this error.
    Refuse(TunnelError),
}

/// A byte with an ASCII capital turned into its small letter.
pub open spec fn folded(b: u8) -> u8 {
    if 65 <= b <= 90 {
        (b + 32) as u8
    } else {
        b
    }
}

/// Two runs of bytes are the same but for the case of ASCII letters.
pub open spec fn same_ignoring_case(a: Seq<u8>, b: Seq<u8>) -> bool {
    &&& a.len() == b.len()
    &&& forall|i: int| 0 <= i < a.len() ==> folded(#[trigger] a[i]) == folded(b[i])
}

/// The service called `name` answers to `wanted`.
pub open spec fn answers_to(name: Seq<char>, wanted: Seq<char>) -> bool {
    same_ignoring_case(encode_utf8(name), encode_utf8(wanted))
}

/// The first service that answers to `wanted`, if one does.
pub open spec fn is_first_match(names: Seq<String>, wanted: Seq<char>, r: Option<usize>) -> bool {
    match r {
        Some(i) => {
            &&& i < names.len()
            &&& answers_to(names[i as int]@, wanted)
            &&& forall|j: int| 0 <= j < i ==> !answers_to((#[trigger] names[j])@, wanted)
        },
        None => forall|j: int| 0 <= j < names.len() ==> !answers_to((#[trigger] names[j])@, wanted),
    }
}

/// What is to be done for `msg`, given the names of the services and the
/// tunnels that are open.
pub open spec fn stepped(
    names: Seq<String>,
    open: Seq<TunnelId>,
    msg: TunnelMessage,
    r: TunnelStep,
) -> bool {
    match msg {
        TunnelMessage::TcpDial { tid, service } => match r {
            TunnelStep::Connect { tid: t, service: i } => t == tid && is_first_match(
                names,
                service@,
                Some(i),
            ),
            TunnelStep::Refuse(e) => e == TunnelError::InvalidService && is_first_match(
                names,
                service@,
                None,
            ),
            _ => false,
        },
        TunnelMessage::TcpClose { tid, .. } => r == (TunnelStep::Close { tid }),
        TunnelMessage::TcpPackage { tid, .. } => if open.contains(tid) {
            r == (TunnelStep::Forward { tid })
        } else {
            r == TunnelStep::Refuse(TunnelError::TunnelNotFound)
        },
    }
}

fn fold(b: u8) -> (r: u8)
    ensures
        r == folded(b),
{
    if 65 <= b && b <= 90 {
        b + 32
    } else {
        b
    }
}

/// Whether two runs of bytes are the same but for the case of ASCII
/// letters.
pub fn eq_ignore_ascii_case(a: &[u8], b: &[u8]) -> (r: bool)
    ensures
        r == same_ignoring_case(a@, b@),
{
    if a.len() != b.len() {
        return false;
    }
    let mut i: usize = 0;
    while i < a.len()
        invariant
            0 <= i <= a.len(),
            a@.len() == b@.len(),
            forall|j: int| 0 <= j < i ==> folded(#[trigger] a@[j]) == folded(b@[j]),
        decreases a.len() - i,
    {
        if fold(a[i]) != fold(b[i]) {
            return false;
        }
        i += 1;
    }
    true
}

/// The first service whose name is `wanted`, the case of ASCII letters
/// set aside; none where no service has that name.
pub fn find_service(names: &Vec<String>, wanted: &str) -> (r: Option<usize>)
    ensures
        is_first_match(names@, wanted@, r),
{
    let wanted_bytes = wanted.as_bytes();
    let mut i: usize = 0;
    while i < names.len()
        invariant
            0 <= i <= names.len(),
            wanted_bytes@ == encode_utf8(wanted@),
            forall|j: int| 0 <= j < i ==> !answers_to((#[trigger] names@[j])@, wanted@),
        decreases names.len() - i,
    {
        let name = names[i].as_str();
        if eq_ignore_ascii_case(name.as_bytes(), wanted_bytes) {
            return Some(i);
        }
        i += 1;
    }
    None
}

/// Whether tunnel `tid` is among the open ones.
pub fn is_open(open: &Vec<TunnelId>, tid: TunnelId) -> (r: bool)
    ensures
        r == open@.contains(tid),
{
    let mut i: usize = 0;
    while i < open.len()
        invariant
            0 <= i <= open.len(),
            forall|j: int| 0 <= j < i ==> open@[j] != tid,
        decreases open.len() - i,
    {
        if open[i] == tid {
            return true;
        }
        i += 1;
    }
    false
}

/// What is to be done for `msg`: a dial goes to the first service of that
/// name, or is refused where there is none; a close takes the tunnel from
/// the table; a package goes to its tunnel, or is refused where that is not
/// open.
pub fn tunnel_step(names: &Vec<String>, open: &Vec<TunnelId>, msg: &TunnelMessage) -> (r:
    TunnelStep)
    ensures
        stepped(names@, open@, *msg, r),
{
    match msg {
        TunnelMessage::TcpDial { tid, service } => match find_service(names, service.as_str()) {
            Some(i) => TunnelStep::Connect { tid: *tid, service: i },
            None => TunnelStep::Refuse(TunnelError::InvalidService),
        },
        TunnelMessage::TcpClose { tid, .. } => TunnelStep::Close { tid: *tid },
        TunnelMessage::TcpPackage { tid, .. } => if is_open(open, *tid) {
            TunnelStep::Forward { tid: *tid }
        } else {
            TunnelStep::Refuse(TunnelError::TunnelNotFound)
        },
    }
}

/// How a dial ends. Where the connection stands, the tunnel is opened.
/// Where it failed, the peer is told: if that report could not be sent,
/// that is the error; else the error is the failure of the connection.
pub fn dial_outcome(
    connected: Result<(), Defeat>,
    reported: Option<Result<(), SendFailure>>,
) -> (r: Result<(), TunnelError>)
    ensures
        r == (match connected {
            Ok(()) => Ok::<(), TunnelError>(()),
            Err(e) => match reported {
                Some(Err(_)) => Err::<(), TunnelError>(TunnelError::SendMessage),
                _ => Err::<(), TunnelError>(TunnelError::TunnelError(e)),
            },
        }),
{
    match connected {
        Ok(()) => Ok(()),
        Err(e) => match reported {
            Some(Err(_)) => Err(TunnelError::SendMessage),
            _ => Err(TunnelError::TunnelError(e)),
        },
    }
}

/// The table of open tunnels after `step` was carried out, `dialled`
/// saying how a connection ended where one was made: a tunnel that was
/// opened stands in the table once, a tunnel that was closed is gone, and
/// nothing else changes.
pub open spec fn table_after(
    open: Seq<TunnelId>,
    step: TunnelStep,
    dialled: Result<(), TunnelError>,
) -> Seq<TunnelId> {
    match step {
        TunnelStep::Connect { tid, .. } => if dialled is Ok && !open.contains(tid) {
            open.push(tid)
        } else {
            open
        },
        TunnelStep::Close { tid } => if open.contains(tid) {
            open.remove(open.index_of(tid))
        } else {
            open
        },
        _ => open,
    }
}

/// The names of the tunnels that are open, each of them once.
pub struct TunnelTable {
    open: Vec<TunnelId>,
}

impl View for TunnelTable {
    type V = Seq<TunnelId>;

    closed spec fn view(&self) -> Seq<TunnelId> {
        self.open@
    }
}

impl TunnelTable {
    /// No tunnel stands in the table twice.
    pub open spec fn wf(&self) -> bool {
        self@.no_duplicates()
    }

    /// The table with no tunnel open.
    pub fn new() -> (r: TunnelTable)
        ensures
            r.wf(),
            r@ == Seq::<TunnelId>::empty(),
    {
        TunnelTable { open: Vec::new() }
    }

    /// The tunnels that are open.
    pub fn ids(&self) -> (r: &Vec<TunnelId>)
        ensures
            r@ == self@,
    {
        &self.open
    }

    /// Brings the table up to date after `step` was carried out.
    pub fn apply(&mut self, step: TunnelStep, dialled: Result<(), TunnelError>)
        requires
            old(self).wf(),
        ensures
            final(self).wf(),
            final(self)@ == table_after(old(self)@, step, dialled),
    {
        match step {
            TunnelStep::Connect { tid, .. } => {
                let opened = match dialled {
                    Ok(()) => true,
                    Err(_) => false,
                };
                if opened && !is_open(&self.open, tid) {
                    self.open.push(tid);
                    assert forall|i: int, j: int|
                        0 <= i < self@.len() && 0 <= j < self@.len() && i != j implies self@[i]
                        != self@[j] by {
                        if i < old(self)@.len() {
                            assert(old(self)@.contains(old(self)@[i]));
                        }
                        if j < old(self)@.len() {
                            assert(old(self)@.contains(old(self)@[j]));
                        }
                    }
                }
            },
            TunnelStep::Close { tid } => {
                let mut i: usize = 0;
                while i < self.open.len()
                    invariant
                        0 <= i <= self.open.len(),
                        self@ == old(self)@,
                        old(self)@.no_duplicates(),
                        step == (TunnelStep::Close { tid }),
                        forall|j: int| 0 <= j < i ==> self@[j] != tid,
                    decreases self.open.len() - i,
                {
                    if self.open[i] == tid {
                        proof {
                            assert(self@.contains(tid));
                            let k = self@.index_of(tid);
                            assert(k == i);
                        }
                        self.open.remove(i);
                        proof {
                            let s = old(self)@;
                            assert(s.contains(tid));
                            assert(s.index_of(tid) == i);
                            assert(self@ == s.remove(i as int));
                            assert forall|a: int, b: int|
                                0 <= a < self@.len() && 0 <= b < self@.len() && a != b implies self@[a]
                                != self@[b] by {
                                let a0 = if a < i { a } else { a + 1 };
                                let b0 = if b < i { b } else { b + 1 };
                                assert(self@[a] == s[a0] && self@[b] == s[b0]);
                            }
                        }
                        return ;
                    }
                    i += 1;
                }
            },
            _ => {},
        }
    }
}

} // verus!
