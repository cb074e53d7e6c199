//! The roster: what the registrar knows about running applications.
//!
//! The registrar is asked with messages; this module builds the requests and
//! reads the replies. Sending them is the caller's part.
use vstd::prelude::*;
use vstd::utf8::encode_utf8;

use crate::errors::{ErrorKind, HaikuError, B_ERROR};
use crate::flattenable::{text_from_utf8, Flattenable};
use crate::kernel::Team;
use crate::message::{lookup, read_le32, read_u32_at, Message};
use crate::messenger::Messenger;

verus! {

/// The code of a request for the list of running teams: "rgal".
pub const B_REG_GET_APP_LIST: u32 = 0x7267616c;

/// The code of a request for an application's information: "rgai".
pub const B_REG_GET_APP_INFO: u32 = 0x72676169;

/// The code of a request to unregister an application: "rgra".
pub const B_REG_REMOVE_APP: u32 = 0x72677261;

/// The code of a request for the launch daemon's data: "lnda".
pub const B_GET_LAUNCH_DATA: u32 = 0x6c6e6461;

/// The code of a successful reply of the registrar: "rgsu".
pub const B_REG_SUCCESS: u32 = 0x72677375;

pub const B_SINGLE_LAUNCH: u32 = 0x0;

pub const B_MULTIPLE_LAUNCH: u32 = 0x1;

pub const B_EXCLUSIVE_LAUNCH: u32 = 0x2;

pub const B_BACKGROUND_APP: u32 = 0x4;

pub const B_ARGV_ONLY: u32 = 0x8;

/// How an application may be launched.
#[derive(Clone, Copy, Debug, PartialEq, Eq, Structural)]
pub enum LaunchType {
    /// One instance at a time.
    SingleLaunch,
    /// Any number of instances.
    MultipleLaunch,
    /// One instance per executable file.
    ExclusiveLaunch,
}

/// What the registrar knows about a running application.
pub struct AppInfo {
    /// The main thread, or -1 when the application is not running.
    pub thread: i32,
    /// The team, or -1 when the application is not running.
    pub team: i32,
    /// The port of the application's main looper.
    pub port: i32,
    /// The application's flags; see `launch_type()`.
    pub flags: u32,
    /// The path of the executable.
    pub path: String,
    /// The MIME type that is the application's signature.
    pub signature: String,
}

impl AppInfo {
    /// How the application may be launched.
    pub fn launch_type(&self) -> (r: LaunchType)
        ensures
            self.flags & B_MULTIPLE_LAUNCH != 0 ==> r == LaunchType::MultipleLaunch,
            self.flags & B_MULTIPLE_LAUNCH == 0 && self.flags & B_EXCLUSIVE_LAUNCH != 0 ==> r
                == LaunchType::ExclusiveLaunch,
            self.flags & B_MULTIPLE_LAUNCH == 0 && self.flags & B_EXCLUSIVE_LAUNCH == 0 ==> r
                == LaunchType::SingleLaunch,
    {
        if self.flags & B_MULTIPLE_LAUNCH != 0 {
            LaunchType::MultipleLaunch
        } else if self.flags & B_EXCLUSIVE_LAUNCH != 0 {
            LaunchType::ExclusiveLaunch
        } else {
            LaunchType::SingleLaunch
        }
    }

    /// Whether the application runs in the background.
    pub fn is_background(&self) -> (r: bool)
        ensures
            r == (self.flags & B_BACKGROUND_APP != 0),
    {
        self.flags & B_BACKGROUND_APP != 0
    }

    /// Whether the application takes command line arguments only, and no
    /// messages.
    pub fn is_argv_only(&self) -> (r: bool)
        ensures
            r == (self.flags & B_ARGV_ONLY != 0),
    {
        self.flags & B_ARGV_ONLY != 0
    }
}

/// Access to the registrar through a messenger to it.
pub struct Roster {
    pub messenger: Messenger,
}

/// The bytes of the field name "teams".
pub open spec fn teams_name() -> Seq<u8> {
    seq![0x74u8, 0x65u8, 0x61u8, 0x6du8, 0x73u8]
}

impl Roster {
    /// A roster that asks the registrar behind `messenger`.
    pub fn new(messenger: Messenger) -> (r: Roster)
        ensures
            r.messenger == messenger,
    {
        Roster { messenger }
    }

    /// The request for the list of running teams.
    pub fn app_list_request() -> (r: Message)
        ensures
            r.wf(),
            r@.len() == 0,
            r.header.what == B_REG_GET_APP_LIST,
    {
        Message::new(B_REG_GET_APP_LIST)
    }

    /// The running teams, read from the registrar's reply to
    /// `app_list_request()`: `None` when the reply is not a success or does
    /// not list its teams as non-negative 32-bit integers.
    pub fn get_app_list(&self, reply: &Message) -> (r: Option<Vec<Team>>)
        ensures
            reply.header.what != B_REG_SUCCESS ==> r is None,
            reply.wf() && lookup(reply@, teams_name()) is None ==> r is None,
            reply.wf() ==> (r matches Some(ts) ==> {
                let k = lookup(reply@, teams_name())->0;
                &&& lookup(reply@, teams_name()) is Some
                &&& ts@.len() == reply@[k].values.len()
                &&& forall|i: int|
                    0 <= i < ts@.len() ==> #[trigger] i32::decodes_to(reply@[k].values[i], ts@[i].id)
            }),
    {
        if reply.what() != B_REG_SUCCESS {
            return None;
        }
        let name = "teams";
        proof {
            reveal_strlit("teams");
            assert(encode_utf8(name@) == teams_name()) by {
                assert(name@ == seq!['t', 'e', 'a', 'm', 's']);
                vstd::string::is_ascii_spec_bytes(name);
                assert(vstd::string::is_ascii(name));
                assert(encode_utf8(name@) =~= teams_name());
            }
        }
        let count = match reply.get_info(name) {
            Some(info) => info.1,
            None => return None,
        };
        proof {
            if reply.wf() {
                crate::message::lemma_lookup_some(reply@, teams_name());
                let k = lookup(reply@, teams_name())->0;
                crate::message_edit::lemma_values_len(reply, k);
                crate::message::lemma_wf_layout(reply);
            }
        }
        let mut result: Vec<Team> = Vec::new();
        let mut index: usize = 0;
        while index < count
            invariant
                index <= count,
                result@.len() == index,
                reply.wf() ==> ({
                    let k = lookup(reply@, teams_name())->0;
                    &&& lookup(reply@, teams_name()) is Some
                    &&& count == reply@[k].values.len()
                    &&& forall|i: int|
                        0 <= i < index ==> #[trigger] i32::decodes_to(reply@[k].values[i], result@[i].id)
                }),
                encode_utf8(name@) == teams_name(),
            decreases count - index,
        {
            let id: i32 = match reply.find_data::<i32>(name, index) {
                Ok(id) => id,
                Err(_) => return None,
            };
            let team = match Team::from(id) {
                Some(t) => t,
                None => return None,
            };
            let ghost before = result@;
            result.push(team);
            proof {
                if reply.wf() {
                    let k = lookup(reply@, teams_name())->0;
                    assert(i32::decodes_to(reply@[k].values[index as int], id));
                    assert(result@[index as int] == team);
                    assert(team.id == id);
                    assert forall|i: int| 0 <= i < index + 1 implies #[trigger] i32::decodes_to(
                        reply@[k].values[i],
                        result@[i].id,
                    ) by {
                        if i < index {
                            assert(i32::decodes_to(reply@[k].values[i], before[i].id));
                            assert(result@[i] == before[i]);
                        }
                    }
                }
            }
            index = index + 1;
        }
        proof {
            if reply.wf() {
                let k = lookup(reply@, teams_name())->0;
                assert(lookup(reply@, teams_name()) is Some);
                assert(result@.len() == reply@[k].values.len());
                assert forall|i: int| 0 <= i < result@.len() implies #[trigger] i32::decodes_to(
                    reply@[k].values[i],
                    result@[i].id,
                ) by {
                    assert(0 <= i < index);
                }
            }
        }
        let r = Some(result);
        assert(reply.wf() ==> (r matches Some(ts) ==> {
            let k = lookup(reply@, teams_name())->0;
            &&& lookup(reply@, teams_name()) is Some
            &&& ts@.len() == reply@[k].values.len()
        }));
        r
    }

    /// The request for the information of the application with `signature`.
    pub fn app_info_request(signature: &str) -> (r: Message)
        ensures
            r.header.what == B_REG_GET_APP_INFO,
    {
        let mut request = Message::new(B_REG_GET_APP_INFO);
        let _ = request.add_data("signature", &signature.to_owned());
        request
    }

    /// The request for the information of the application running as
    /// `team`.
    pub fn running_app_info_request(team: &Team) -> (r: Message)
        ensures
            r.header.what == B_REG_GET_APP_INFO,
    {
        let mut request = Message::new(B_REG_GET_APP_INFO);
        let _ = request.add_data("team", &team.get_team_id());
        request
    }

    /// The request to the launch daemon for its data on `signature`, for
    /// the user `uid`.
    pub fn launch_data_request(signature: &str, uid: i32) -> (r: Message)
        ensures
            r.header.what == B_GET_LAUNCH_DATA,
    {
        let mut request = Message::new(B_GET_LAUNCH_DATA);
        let _ = request.add_data("name", &signature.to_owned());
        let _ = request.add_data("user", &uid);
        request
    }

    /// The outcome of unregistering an application, read from the
    /// registrar's reply to `remove_application_request()`: success, or the
    /// status code the reply holds in its "error" field (`B_ERROR` when it
    /// holds none).
    pub fn remove_application(&self, reply: &Message) -> (r: Result<(), HaikuError>)
        ensures
            reply.header.what == B_REG_SUCCESS <==> r is Ok,
            r matches Err(e) ==> (e.repr matches crate::errors::Repr::Os(code) && (code == B_ERROR || (
            reply.wf() ==> ({
                let k = lookup(reply@, error_name())->0;
                &&& lookup(reply@, error_name()) is Some
                &&& i32::decodes_to(reply@[k].values[0], code)
            })))),
    {
        if reply.what() == B_REG_SUCCESS {
            return Ok(());
        }
        let name = "error";
        proof {
            reveal_strlit("error");
            assert(encode_utf8(name@) == error_name()) by {
                assert(name@ == seq!['e', 'r', 'r', 'o', 'r']);
                vstd::string::is_ascii_spec_bytes(name);
                assert(vstd::string::is_ascii(name));
                assert(encode_utf8(name@) =~= error_name());
            }
        }
        let code = match reply.find_data::<i32>(name, 0) {
            Ok(code) => code,
            Err(_) => B_ERROR,
        };
        Err(HaikuError::from_raw_os_error(code))
    }

    /// The request to unregister the application of `team`.
    pub fn remove_application_request(team: i32) -> (r: Message)
        ensures
            r.header.what == B_REG_REMOVE_APP,
    {
        let mut request = Message::new(B_REG_REMOVE_APP);
        let _ = request.add_data("team", &team);
        request
    }
}

/// The kind of a notification, which decides its look.
#[derive(Clone, Copy, Debug, PartialEq, Eq, Structural)]
pub enum NotificationType {
    /// Grey side bar.
    Information,
    /// Blue side bar.
    Important,
    /// Red side bar.
    Error,
    /// With a progress bar.
    Progress,
}

impl NotificationType {
    /// The number that stands for this kind in a notification message.
    pub fn code(&self) -> (r: i32)
        ensures
            r == (match self {
                NotificationType::Information => 0i32,
                NotificationType::Important => 1,
                NotificationType::Error => 2,
                NotificationType::Progress => 3,
            }),
    {
        match self {
            NotificationType::Information => 0,
            NotificationType::Important => 1,
            NotificationType::Error => 2,
            NotificationType::Progress => 3,
        }
    }
}


/// The size of the registrar's application record.
pub const FLAT_APP_INFO_SIZE: usize = 525;

/// The registrar's application record, as it travels in a message: the
/// thread, team, port and flags as 32-bit words, the entry of the
/// executable (device, directory, name), and the signature.
pub struct FlatAppInfo {
    bytes: Vec<u8>,
}

/// The 32-bit word at byte `pos` of `b`.
pub open spec fn word_of(b: Seq<u8>, pos: int) -> u32 {
    read_le32(b.subrange(pos, b.len() as int)) as u32
}

/// The bytes of a fixed-size text slot up to its first NUL.
pub open spec fn until_nul(b: Seq<u8>) -> Seq<u8> {
    if exists|i: int| 0 <= i < b.len() && b[i] == 0 {
        b.subrange(0, choose|i: int| 0 <= i < b.len() && b[i] == 0 && forall|j: int| 0 <= j < i ==> b[j] != 0)
    } else {
        b
    }
}

impl Flattenable<FlatAppInfo> for FlatAppInfo {
    open spec fn spec_type_code() -> u32 {
        B_REG_GET_APP_INFO
    }

    open spec fn spec_fixed_size() -> bool {
        true
    }

    open spec fn spec_item_size() -> nat {
        FLAT_APP_INFO_SIZE as nat
    }

    closed spec fn flat(&self) -> Seq<u8> {
        self.bytes@
    }

    open spec fn decodable(bytes: Seq<u8>) -> bool {
        bytes.len() == FLAT_APP_INFO_SIZE
    }

    closed spec fn decodes_to(bytes: Seq<u8>, v: FlatAppInfo) -> bool {
        v.bytes@ == bytes
    }

    fn type_code() -> (r: u32) {
        B_REG_GET_APP_INFO
    }

    fn is_fixed_size() -> (r: bool) {
        true
    }

    fn item_size() -> (r: usize) {
        FLAT_APP_INFO_SIZE
    }

    fn flattened_size(&self) -> (r: usize) {
        self.bytes.len()
    }

    fn flatten(&self) -> (r: Vec<u8>) {
        crate::message::copy_range(self.bytes.as_slice(), 0, self.bytes.len())
    }

    fn unflatten(buffer: &[u8]) -> (r: Result<FlatAppInfo, HaikuError>) {
        if buffer.len() != FLAT_APP_INFO_SIZE {
            return Err(HaikuError::new(ErrorKind::InvalidData, "an application record has 525 bytes"));
        }
        let bytes = crate::message::copy_range(buffer, 0, buffer.len());
        assert(bytes@ =~= buffer@);
        Ok(FlatAppInfo { bytes })
    }
}


/// The bytes of the field name "error".
pub open spec fn error_name() -> Seq<u8> {
    seq![0x65u8, 0x72u8, 0x72u8, 0x6fu8, 0x72u8]
}

/// The bytes of the field name "app_info".
pub open spec fn app_info_name() -> Seq<u8> {
    seq![0x61u8, 0x70u8, 0x70u8, 0x5fu8, 0x69u8, 0x6eu8, 0x66u8, 0x6fu8]
}

impl FlatAppInfo {
    /// The bytes of the record.
    pub closed spec fn spec_bytes(&self) -> Seq<u8> {
        self.bytes@
    }

    /// The record's fields, with the path of the executable left empty:
    /// finding it takes a call into the kernel with `entry()`. A signature
    /// that is not UTF-8 is read as empty.
    pub fn to_app_info(&self) -> (r: AppInfo)
        requires
            self.spec_bytes().len() == FLAT_APP_INFO_SIZE,
        ensures
            r.thread == word_of(self.spec_bytes(), 0) as i32,
            r.team == word_of(self.spec_bytes(), 4) as i32,
            r.port == word_of(self.spec_bytes(), 8) as i32,
            r.flags == word_of(self.spec_bytes(), 12),
            r.path@.len() == 0,
            encode_utf8(r.signature@) == until_nul(self.spec_bytes().subrange(28, 268)) || r.signature@.len()
                == 0,
    {
        let b = self.bytes.as_slice();
        let thread = read_u32_at(b, 0) as i32;
        let team = read_u32_at(b, 4) as i32;
        let port = read_u32_at(b, 8) as i32;
        let flags = read_u32_at(b, 12);
        let sig = text_until_nul(b, 28, 268);
        AppInfo { thread, team, port, flags, path: String::new(), signature: sig }
    }

    /// The entry of the executable: its device, its directory and its name.
    pub fn entry(&self) -> (r: (i32, i64, Vec<u8>))
        requires
            self.spec_bytes().len() == FLAT_APP_INFO_SIZE,
        ensures
            r.0 == word_of(self.spec_bytes(), 16) as i32,
            r.2@ == until_nul(self.spec_bytes().subrange(268int, FLAT_APP_INFO_SIZE as int)),
    {
        let b = self.bytes.as_slice();
        let device = read_u32_at(b, 16) as i32;
        let low = read_u32_at(b, 20) as u64;
        let high = read_u32_at(b, 24) as u64;
        let directory = (low | (high << 32u64)) as i64;
        let name = bytes_until_nul(b, 268, FLAT_APP_INFO_SIZE);
        (device, directory, name)
    }
}

/// The bytes from `start` up to the first NUL before `end`.
fn bytes_until_nul(b: &[u8], start: usize, end: usize) -> (r: Vec<u8>)
    requires
        start <= end <= b@.len(),
    ensures
        r@ == until_nul(b@.subrange(start as int, end as int)),
{
    let ghost slot = b@.subrange(start as int, end as int);
    let mut i = start;
    while i < end
        invariant
            start <= i <= end <= b@.len(),
            slot == b@.subrange(start as int, end as int),
            forall|j: int| 0 <= j < i - start ==> slot[j] != 0,
        decreases end - i,
    {
        if b[i] == 0 {
            proof {
                let c = choose|k: int| 0 <= k < slot.len() && slot[k] == 0 && forall|j: int| 0 <= j < k ==> slot[j] != 0;
                assert(slot[i - start] == 0);
                if c < i - start {
                } else if c > i - start {
                }
                assert(c == i - start);
            }
            return crate::message::copy_range(b, start, i);
        }
        i = i + 1;
    }
    crate::message::copy_range(b, start, end)
}

/// The text from `start` up to the first NUL before `end`; empty when it is
/// not UTF-8.
fn text_until_nul(b: &[u8], start: usize, end: usize) -> (r: String)
    requires
        start <= end <= b@.len(),
    ensures
        encode_utf8(r@) == until_nul(b@.subrange(start as int, end as int)) || r@.len() == 0,
{
    let bytes = bytes_until_nul(b, start, end);
    match text_from_utf8(bytes.as_slice()) {
        Some(s) => s,
        None => String::new(),
    }
}

impl Roster {
    /// The application's information, read from the registrar's reply to
    /// `app_info_request()`: `None` when the reply is not a success or holds
    /// no application record. The path is left empty; see
    /// `FlatAppInfo::entry`.
    pub fn get_app_info(&self, reply: &Message) -> (r: Option<AppInfo>)
        ensures
            reply.header.what != B_REG_SUCCESS ==> r is None,
            reply.wf() && lookup(reply@, app_info_name()) is None ==> r is None,
            reply.wf() ==> (r matches Some(info) ==> {
                let k = lookup(reply@, app_info_name())->0;
                let record = reply@[k].values[0];
                &&& lookup(reply@, app_info_name()) is Some
                &&& record.len() == FLAT_APP_INFO_SIZE
                &&& info.thread == word_of(record, 0) as i32
                &&& info.team == word_of(record, 4) as i32
                &&& info.port == word_of(record, 8) as i32
                &&& info.flags == word_of(record, 12)
                &&& (encode_utf8(info.signature@) == until_nul(record.subrange(28, 268))
                    || info.signature@.len() == 0)
            }),
    {
        match Self::app_record(reply) {
            Some(record) => Some(record.to_app_info()),
            None => None,
        }
    }

    /// The registrar's application record in a successful reply.
    pub fn app_record(reply: &Message) -> (r: Option<FlatAppInfo>)
        ensures
            reply.header.what != B_REG_SUCCESS ==> r is None,
            reply.wf() && lookup(reply@, app_info_name()) is None ==> r is None,
            r matches Some(f) ==> f.spec_bytes().len() == FLAT_APP_INFO_SIZE,
            reply.wf() ==> (r matches Some(f) ==> {
                let k = lookup(reply@, app_info_name())->0;
                &&& lookup(reply@, app_info_name()) is Some
                &&& f.spec_bytes() == reply@[k].values[0]
            }),
    {
        if reply.what() != B_REG_SUCCESS {
            return None;
        }
        let name = "app_info";
        proof {
            reveal_strlit("app_info");
            assert(encode_utf8(name@) == app_info_name()) by {
                assert(name@ == seq!['a', 'p', 'p', '_', 'i', 'n', 'f', 'o']);
                vstd::string::is_ascii_spec_bytes(name);
                assert(vstd::string::is_ascii(name));
                assert(encode_utf8(name@) =~= app_info_name());
            }
        }
        match reply.find_data::<FlatAppInfo>(name, 0) {
            Ok(record) => {
                if record.bytes.len() == FLAT_APP_INFO_SIZE {
                    Some(record)
                } else {
                    None
                }
            },
            Err(_) => None,
        }
    }
}

} // verus!
