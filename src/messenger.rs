//! Messengers: addressing messages to a handler behind a port.
//!
//! A messenger stamps a message with its target token and with the address
//! that replies go to, and flattens it into the frame that the caller writes
//! to the destination port.
use vstd::prelude::*;
use vstd::utf8::encode_utf8;

use crate::errors::{ErrorKind, HaikuError};
use crate::flattenable::Flattenable;
use crate::kernel::{Port, Team};
use crate::message::{lookup, Message, MessageHeader};
use crate::roster::{AppInfo, B_ARGV_ONLY};
use crate::types::{
    B_INT32_TYPE, B_MESSAGE_TYPE, B_NULL_TOKEN, B_PREFERRED_TOKEN, MESSAGE_FLAG_REPLY_DONE,
    MESSAGE_FLAG_REPLY_REQUIRED, MESSAGE_FLAG_VALID, MESSAGE_FLAG_WAS_DELIVERED, QUIT,
};
use crate::wire::message_bytes;

verus! {

/// A frame to write: the destination port, the frame's type code, and its
/// bytes.
pub struct Delivery {
    pub port: i32,
    pub type_code: i32,
    pub data: Vec<u8>,
}

/// A pipe to one handler of one looper, in this or another team.
pub struct Messenger {
    pub port: Port,
    pub token: i32,
}

/// The header flags of a message sent through a messenger: delivered, not
/// yet replied to, and asking for a reply when `reply_required`.
pub open spec fn sent_flags(flags: u32, reply_required: bool) -> u32 {
    if reply_required {
        (flags | MESSAGE_FLAG_WAS_DELIVERED | MESSAGE_FLAG_REPLY_REQUIRED) & !MESSAGE_FLAG_REPLY_DONE
    } else {
        (flags | MESSAGE_FLAG_WAS_DELIVERED) & !MESSAGE_FLAG_REPLY_DONE
    }
}

/// `m` as a messenger sends it: addressed to `target`, with replies going
/// to `reply_target` behind `reply_port` of team `reply_team`, and with its
/// flags as `sent_flags` sets them. Everything else is kept.
pub open spec fn stamp(
    m: Message,
    target: i32,
    reply_port: i32,
    reply_target: i32,
    reply_team: i32,
    reply_required: bool,
) -> Message {
    Message {
        header: MessageHeader {
            target: target,
            reply_port: reply_port,
            reply_target: reply_target,
            reply_team: reply_team,
            flags: sent_flags(m.header.flags, reply_required),
            ..m.header
        },
        ..m
    }
}

/// The bytes of a `QUIT` message with no fields, sent from the handler
/// `token` behind `port` of team `team` to itself.
pub open spec fn quit_frame(token: i32, port: i32, team: i32, bytes: Seq<u8>) -> bool {
    exists|q: Message|
        #![trigger message_bytes(q)]
        {
            &&& q.fields@.len() == 0
            &&& q.data@.len() == 0
            &&& q.header.what == QUIT
            &&& q.header.target == token
            &&& q.header.reply_port == port
            &&& q.header.reply_target == token
            &&& q.header.reply_team == team
            &&& q.header.flags == sent_flags(MESSAGE_FLAG_VALID, false)
            &&& bytes == message_bytes(q)
        }
}

impl Messenger {
    /// A messenger to the preferred handler of the looper behind `port`.
    /// The port is not checked.
    pub fn from_port(port: &Port) -> (r: Option<Messenger>)
        ensures
            r matches Some(m) && m.port.port == port.port && !m.port.owned && m.token
                == B_PREFERRED_TOKEN,
    {
        Some(Messenger { port: port.borrow(), token: B_PREFERRED_TOKEN })
    }

    /// A messenger to the preferred handler behind the port with id `port`;
    /// `None` for a negative id. That the port exists is for the caller to
    /// check.
    pub fn from_port_id(port: i32) -> (r: Option<Messenger>)
        ensures
            port < 0 ==> r is None,
            port >= 0 ==> (r matches Some(m) && m.port.port == port && !m.port.owned && m.token
                == B_PREFERRED_TOKEN),
    {
        if port < 0 {
            None
        } else {
            Some(Messenger { port: Port::from_raw(port, false), token: B_PREFERRED_TOKEN })
        }
    }

    /// Address the handler with `token` instead.
    pub fn set_token(&mut self, token: i32)
        ensures
            final(self).token == token,
            final(self).port == old(self).port,
    {
        self.token = token;
    }

    /// Stamp `message` for its target and reply address, and flatten it.
    fn deliver(
        &self,
        mut message: Message,
        reply_port: i32,
        reply_target: i32,
        reply_team: i32,
        reply_required: bool,
    ) -> (r: Delivery)
        ensures
            r.port == self.port.port,
            r.type_code == B_MESSAGE_TYPE as i32,
            r.data@ == message_bytes(stamp(message, self.token, reply_port, reply_target, reply_team, reply_required)),
    {
        message.header.target = self.token;
        message.header.reply_port = reply_port;
        message.header.reply_target = reply_target;
        message.header.reply_team = reply_team;
        if reply_required {
            message.header.flags = (message.header.flags | MESSAGE_FLAG_WAS_DELIVERED
                | MESSAGE_FLAG_REPLY_REQUIRED) & !MESSAGE_FLAG_REPLY_DONE;
        } else {
            message.header.flags = (message.header.flags | MESSAGE_FLAG_WAS_DELIVERED)
                & !MESSAGE_FLAG_REPLY_DONE;
        }
        let data = message.flatten();
        Delivery { port: self.port.get_port_id(), type_code: B_MESSAGE_TYPE as i32, data }
    }

    /// The frame that sends `message` and asks for one reply on
    /// `reply_port`, a fresh port of team `reply_team` that the caller then
    /// reads.
    pub fn send_and_wait_for_reply(&self, message: Message, reply_port: i32, reply_team: i32) -> (r:
        Delivery)
        ensures
            r.port == self.port.port,
            r.type_code == B_MESSAGE_TYPE as i32,
            r.data@ == message_bytes(stamp(message, self.token, reply_port, B_NULL_TOKEN, reply_team, true)),
    {
        self.deliver(message, reply_port, B_NULL_TOKEN, reply_team, true)
    }

    /// The frame that sends `message` and asks for the reply to go to
    /// `reply_to`, whose port belongs to team `reply_team`.
    pub fn send_and_ask_reply(&self, message: Message, reply_to: &Messenger, reply_team: i32) -> (r:
        Delivery)
        ensures
            r.port == self.port.port,
            r.type_code == B_MESSAGE_TYPE as i32,
            r.data@ == message_bytes(stamp(message, self.token, reply_to.port.port, B_NULL_TOKEN, reply_team, true)),
    {
        self.deliver(message, reply_to.port.get_port_id(), B_NULL_TOKEN, reply_team, true)
    }

    /// The frame that sends `message` without asking for a reply, naming
    /// `sender`, whose port belongs to team `sender_team`, as its source.
    pub fn send(&self, message: Message, sender: &Messenger, sender_team: i32) -> (r: Delivery)
        ensures
            r.port == self.port.port,
            r.type_code == B_MESSAGE_TYPE as i32,
            r.data@ == message_bytes(stamp(message, self.token, sender.port.port, sender.token, sender_team, false)),
    {
        self.deliver(message, sender.port.get_port_id(), sender.token, sender_team, false)
    }
}

/// Interacts with the looper a handler runs in.
pub struct LooperDelegate {
    /// A messenger to that looper.
    pub messenger: Messenger,
}

impl LooperDelegate {
    /// The frame that asks the looper to end its loop: a `QUIT` message sent
    /// to it, from itself; `team` is the team of its port.
    pub fn quit(&self, team: i32) -> (r: Delivery)
        ensures
            r.port == self.messenger.port.port,
            r.type_code == B_MESSAGE_TYPE as i32,
            quit_frame(self.messenger.token, self.messenger.port.port, team, r.data@),
    {
        let m = Message::new(QUIT);
        let ghost g = m;
        let r = self.messenger.send(m, &self.messenger, team);
        proof {
            let q = stamp(g, self.messenger.token, self.messenger.port.port, self.messenger.token, team, false);
            assert(q.fields@.len() == 0 && q.data@.len() == 0 && q.header.what == QUIT);
            assert(r.data@ == message_bytes(q));
            assert(quit_frame(self.messenger.token, self.messenger.port.port, team, r.data@));
        }
        r
    }
}

/// Interacts with the application.
pub struct ApplicationDelegate {
    /// A messenger to the application's preferred handler.
    pub messenger: Messenger,
}

impl ApplicationDelegate {
    /// The frame that asks the application's loop to end: a `QUIT` message
    /// sent to it, from itself; `team` is the team of its port.
    pub fn quit(&self, team: i32) -> (r: Delivery)
        ensures
            r.port == self.messenger.port.port,
            r.type_code == B_MESSAGE_TYPE as i32,
            quit_frame(self.messenger.token, self.messenger.port.port, team, r.data@),
    {
        let m = Message::new(QUIT);
        let ghost g = m;
        let r = self.messenger.send(m, &self.messenger, team);
        proof {
            let q = stamp(g, self.messenger.token, self.messenger.port.port, self.messenger.token, team, false);
            assert(q.fields@.len() == 0 && q.data@.len() == 0 && q.header.what == QUIT);
            assert(r.data@ == message_bytes(q));
            assert(quit_frame(self.messenger.token, self.messenger.port.port, team, r.data@));
        }
        r
    }
}

/// What a handler is given with each message: messengers back to itself,
/// to its looper and to the application.
pub struct Context {
    /// A messenger to the handler itself, useful as a reply address.
    pub handler_messenger: Messenger,
    /// The looper the handler runs in.
    pub looper: LooperDelegate,
    /// The application.
    pub application: ApplicationDelegate,
}


/// What resolving an application signature needs to learn next.
#[derive(Debug, PartialEq, Eq, Structural)]
pub enum SignatureQuery {
    /// The registrar's information on the application running as this team.
    RunningApp(i32),
    /// The launch daemon's data on the signature.
    LaunchData,
    /// The registrar's information on the application with the signature.
    RegisteredApp,
}

/// A step of resolving an application signature to a messenger.
pub enum Resolution {
    /// Ask this, then continue with the answer.
    Ask(SignatureQuery),
    /// The outcome.
    Done(Result<Messenger, HaikuError>),
}

/// Whether two byte strings are equal.
fn same_bytes(a: &[u8], b: &[u8]) -> (r: bool)
    ensures
        r == (a@ == b@),
{
    if a.len() != b.len() {
        return false;
    }
    let mut i: usize = 0;
    while i < a.len()
        invariant
            a@.len() == b@.len(),
            i <= a@.len(),
            forall|j: int| 0 <= j < i ==> a@[j] == b@[j],
        decreases a@.len() - i,
    {
        if a[i] != b[i] {
            return false;
        }
        i = i + 1;
    }
    assert(a@ =~= b@);
    true
}

/// The port a launch daemon reply names: the first value of its "port"
/// field, when that field holds 32-bit integers.
pub open spec fn launch_port(m: Message) -> Option<i32> {
    match lookup(m@, port_name()) {
        Some(k) => if m@[k].type_code == B_INT32_TYPE && m@[k].values.len() > 0
            && m@[k].values[0].len() == 4 {
            Some(vstd::bytes::spec_u32_from_le_bytes(m@[k].values[0]) as i32)
        } else {
            None
        },
        None => None,
    }
}

/// The bytes of the field name "port".
pub open spec fn port_name() -> Seq<u8> {
    seq![0x70u8, 0x6fu8, 0x72u8, 0x74u8]
}

impl Messenger {
    /// Start resolving the application with `signature`, within `team` when
    /// given: first ask about that team's application, or else ask the
    /// launch daemon.
    pub fn from_signature(signature: &str, team: Option<&Team>) -> (r: Resolution)
        ensures
            team matches Some(t) ==> r matches Resolution::Ask(SignatureQuery::RunningApp(id)) && id == t.id,
            team is None ==> r matches Resolution::Ask(SignatureQuery::LaunchData),
    {
        match team {
            Some(t) => Resolution::Ask(SignatureQuery::RunningApp(t.get_team_id())),
            None => Resolution::Ask(SignatureQuery::LaunchData),
        }
    }

    /// Finish resolving `signature` within a team, from the registrar's
    /// information on that team's application.
    ///
    /// Fails with `NotFound` when there is none or it names no port, with
    /// `InvalidInput` when it runs another signature, and with `NotAllowed`
    /// when it takes command line arguments only.
    pub fn from_running_app(signature: &str, info: Option<&AppInfo>) -> (r: Result<Messenger, HaikuError>)
        ensures
            info is None ==> (r matches Err(e) && e.spec_kind() == ErrorKind::NotFound),
            info matches Some(i) ==> {
                if encode_utf8(i.signature@) != encode_utf8(signature@) {
                    r matches Err(e) && e.spec_kind() == ErrorKind::InvalidInput
                } else if i.flags & B_ARGV_ONLY != 0 {
                    r matches Err(e) && e.spec_kind() == ErrorKind::NotAllowed
                } else if i.port < 0 {
                    r matches Err(e) && e.spec_kind() == ErrorKind::NotFound
                } else {
                    r matches Ok(m) && m.port.port == i.port && m.token == B_PREFERRED_TOKEN
                }
            },
    {
        let info = match info {
            Some(i) => i,
            None => return Err(HaikuError::new(ErrorKind::NotFound, "cannot find application info for this team")),
        };
        if !same_bytes(info.signature.as_str().as_bytes(), signature.as_bytes()) {
            return Err(HaikuError::new(ErrorKind::InvalidInput, "signature did not match the signature of the team"));
        }
        Self::from_app_info(Some(info))
    }

    /// Continue resolving a signature from the launch daemon's reply: a
    /// successful reply that names a port gives a messenger to it; otherwise
    /// the registrar is asked.
    pub fn from_launch_data(reply: Option<&Message>) -> (r: Resolution)
        ensures
            reply is None || reply->0.header.what != 0 ==> r matches Resolution::Ask(
                SignatureQuery::RegisteredApp,
            ),
            r matches Resolution::Done(res) ==> (res matches Ok(m) && m.port.port >= 0 && m.token
                == B_PREFERRED_TOKEN && (reply->0.wf() ==> ({
                let k = lookup(reply->0@, port_name())->0;
                &&& lookup(reply->0@, port_name()) is Some
                &&& i32::decodes_to(reply->0@[k].values[0], m.port.port)
            }))),
            r matches Resolution::Ask(q) ==> q == SignatureQuery::RegisteredApp,
            reply is Some && reply->0.wf() && reply->0.header.what == 0 ==> (match launch_port(*reply->0) {
                Some(p) => if p >= 0 {
                    r matches Resolution::Done(Ok(msgr)) && msgr.port.port == p && msgr.token
                        == B_PREFERRED_TOKEN
                } else {
                    r matches Resolution::Ask(SignatureQuery::RegisteredApp)
                },
                None => r matches Resolution::Ask(SignatureQuery::RegisteredApp),
            }),
    {
        let reply = match reply {
            Some(m) => m,
            None => return Resolution::Ask(SignatureQuery::RegisteredApp),
        };
        if reply.what() != 0 {
            return Resolution::Ask(SignatureQuery::RegisteredApp);
        }
        let name = "port";
        proof {
            reveal_strlit("port");
            assert(encode_utf8(name@) == port_name()) by {
                assert(name@ == seq!['p', 'o', 'r', 't']);
                vstd::string::is_ascii_spec_bytes(name);
                assert(vstd::string::is_ascii(name));
                assert(encode_utf8(name@) =~= port_name());
            }
        }
        let found = reply.find_data::<i32>(name, 0);
        proof {
            vstd::bytes::lemma_auto_spec_u32_to_from_le_bytes();
            if reply.wf() && found is Ok {
                let v = found->Ok_0;
                crate::message::lemma_lookup_some(reply@, port_name());
                let k = lookup(reply@, port_name())->0;
                crate::message_edit::lemma_values_len(reply, k);
                let bytes = reply@[k].values[0];
                assert(vstd::bytes::spec_u32_to_le_bytes(v as u32).len() == 4);
                assert(vstd::bytes::spec_u32_from_le_bytes(bytes) == v as u32);
                assert(((v as u32) as i32) == v) by (bit_vector);
            }
        }
        match found {
            Ok(port) => {
                if port >= 0 {
                    Resolution::Done(Ok(Messenger { port: Port::from_raw(port, false), token: B_PREFERRED_TOKEN }))
                } else {
                    Resolution::Ask(SignatureQuery::RegisteredApp)
                }
            },
            Err(_) => Resolution::Ask(SignatureQuery::RegisteredApp),
        }
    }

    /// Finish resolving a signature from the registrar's information on the
    /// application.
    ///
    /// Fails with `NotFound` when there is none or it names no port, and
    /// with `NotAllowed` when it takes command line arguments only.
    pub fn from_app_info(info: Option<&AppInfo>) -> (r: Result<Messenger, HaikuError>)
        ensures
            info is None ==> (r matches Err(e) && e.spec_kind() == ErrorKind::NotFound),
            info matches Some(i) ==> {
                if i.flags & B_ARGV_ONLY != 0 {
                    r matches Err(e) && e.spec_kind() == ErrorKind::NotAllowed
                } else if i.port < 0 {
                    r matches Err(e) && e.spec_kind() == ErrorKind::NotFound
                } else {
                    r matches Ok(m) && m.port.port == i.port && m.token == B_PREFERRED_TOKEN
                }
            },
    {
        let info = match info {
            Some(i) => i,
            None => return Err(HaikuError::new(ErrorKind::NotFound, "cannot find a running app with this signature")),
        };
        if info.is_argv_only() {
            return Err(HaikuError::new(ErrorKind::NotAllowed, "this application only accepts command line arguments"));
        }
        if info.port < 0 {
            return Err(HaikuError::new(ErrorKind::NotFound, "the application has no port"));
        }
        Ok(Messenger { port: Port::from_raw(info.port, false), token: B_PREFERRED_TOKEN })
    }
}

} // verus!
