//! Protocol values: addresses, timestamps, users, commands, responses and notifications.

use crate::table::TableKey;
use vstd::prelude::*;

verus! {

/// An IP address: IPv4 as its four octets read big-endian, IPv6 as its sixteen octets.
#[derive(Clone, Copy, Debug, PartialEq, Eq, Structural, Hash)]
pub enum IpAddress {
    V4(u32),
    V6(u128),
}

/// A datagram endpoint.
#[derive(Clone, Copy, Debug, PartialEq, Eq, Structural, Hash)]
pub struct PeerAddr {
    pub ip: IpAddress,
    pub port: u16,
}

impl View for PeerAddr {
    type V = PeerAddr;

    open spec fn view(&self) -> PeerAddr {
        *self
    }
}

impl TableKey for PeerAddr {
    fn same_key(&self, other: &Self) -> (r: bool) {
        *self == *other
    }
}

/// A date and time with its offset from UTC, as its calendar fields.
#[derive(Clone, Copy, Debug, PartialEq, Eq, Structural, Hash)]
pub struct Timestamp {
    pub year: i32,
    pub ordinal: u16,
    pub hour: u8,
    pub minute: u8,
    pub second: u8,
    pub nanosecond: u32,
    pub offset_hours: i8,
    pub offset_minutes: i8,
    pub offset_seconds: i8,
}

pub open spec fn is_leap_year(year: int) -> bool {
    year % 4 == 0 && (year % 100 != 0 || year % 400 == 0)
}

pub open spec fn days_in_year(year: int) -> int {
    if is_leap_year(year) {
        366
    } else {
        365
    }
}

/// The three offset components share one sign.
pub open spec fn offset_signs_agree(h: i8, m: i8, s: i8) -> bool {
    (h >= 0 && m >= 0 && s >= 0) || (h <= 0 && m <= 0 && s <= 0)
}

/// `a` is not later than `b`, comparing the calendar fields in order; for
/// timestamps with one offset, as the chatroom's UTC ones, that is their order in time.
pub open spec fn ts_le(a: Timestamp, b: Timestamp) -> bool {
    if a.year != b.year {
        a.year < b.year
    } else if a.ordinal != b.ordinal {
        a.ordinal < b.ordinal
    } else if a.hour != b.hour {
        a.hour < b.hour
    } else if a.minute != b.minute {
        a.minute < b.minute
    } else if a.second != b.second {
        a.second < b.second
    } else {
        a.nanosecond <= b.nanosecond
    }
}

impl Timestamp {
    pub fn not_after(&self, other: &Timestamp) -> (r: bool)
        ensures
            r == ts_le(*self, *other),
    {
        if self.year != other.year {
            self.year < other.year
        } else if self.ordinal != other.ordinal {
            self.ordinal < other.ordinal
        } else if self.hour != other.hour {
            self.hour < other.hour
        } else if self.minute != other.minute {
            self.minute < other.minute
        } else if self.second != other.second {
            self.second < other.second
        } else {
            self.nanosecond <= other.nanosecond
        }
    }

    /// A real instant: a day of a year in range, a time of day, an offset below a day.
    pub open spec fn wf(&self) -> bool {
        &&& -9999 <= self.year <= 9999
        &&& 1 <= self.ordinal <= days_in_year(self.year as int)
        &&& self.hour < 24
        &&& self.minute < 60
        &&& self.second < 60
        &&& self.nanosecond < 1_000_000_000
        &&& -25 <= self.offset_hours <= 25
        &&& -59 <= self.offset_minutes <= 59
        &&& -59 <= self.offset_seconds <= 59
        &&& offset_signs_agree(self.offset_hours, self.offset_minutes, self.offset_seconds)
    }

    pub fn is_valid(&self) -> (r: bool)
        ensures
            r == self.wf(),
    {
        let y = self.year;
        let leap = y % 4 == 0 && (y % 100 != 0 || y % 400 == 0);
        let days: u16 = if leap { 366 } else { 365 };
        let h = self.offset_hours;
        let m = self.offset_minutes;
        let s = self.offset_seconds;
        -9999 <= y && y <= 9999 && 1 <= self.ordinal && self.ordinal <= days && self.hour < 24
            && self.minute < 60 && self.second < 60 && self.nanosecond < 1_000_000_000 && -25 <= h
            && h <= 25 && -59 <= m && m <= 59 && -59 <= s && s <= 59 && ((h >= 0 && m >= 0 && s
            >= 0) || (h <= 0 && m <= 0 && s <= 0))
    }
}

/// Where a logged-in user can be reached, and the key its channel uses.
#[derive(Clone, Copy, Debug)]
pub struct UserOnlineInfo {
    pub ip_address: PeerAddr,
    pub pub_key: [u8; 32],
}

/// A user as the server stores it.
#[derive(Clone, Debug)]
pub struct User {
    pub name: String,
    pub password_hash: String,
    pub online_info: Option<UserOnlineInfo>,
}

/// What of a user is kept across server runs.
#[derive(Clone, Debug)]
pub struct UserEssential {
    pub password_hash: String,
}

/// A user as the chatroom status shows it.
#[derive(Clone, Debug)]
pub struct UserInfo {
    pub name: String,
    pub online_info: Option<UserOnlineInfo>,
}

impl User {
    /// A user that has just been restored: not online.
    pub fn from_essential(name: String, data: UserEssential) -> (r: User)
        ensures
            r.name == name,
            r.password_hash == data.password_hash,
            r.online_info is None,
    {
        User { name, password_hash: data.password_hash, online_info: None }
    }

    pub fn duplicate(&self) -> (r: User)
        ensures
            r == *self,
    {
        User {
            name: self.name.clone(),
            password_hash: self.password_hash.clone(),
            online_info: self.online_info,
        }
    }
}

impl UserEssential {
    pub fn of_user(user: &User) -> (r: UserEssential)
        ensures
            r.password_hash == user.password_hash,
    {
        UserEssential { password_hash: user.password_hash.clone() }
    }
}

impl UserInfo {
    pub fn new(user: &User) -> (r: UserInfo)
        ensures
            r.name == user.name,
            r.online_info == user.online_info,
    {
        UserInfo { name: user.name.clone(), online_info: user.online_info }
    }

    pub fn duplicate(&self) -> (r: UserInfo)
        ensures
            r == *self,
    {
        UserInfo { name: self.name.clone(), online_info: self.online_info }
    }
}

/// A request from a client to the server.
#[derive(Clone, Debug)]
pub enum Command {
    Register { username: String, password: [u8; 32] },
    Login { username: String, password: [u8; 32] },
    ChangePassword { old: [u8; 32], new: [u8; 32] },
    GetChatroomStatus,
    Heartbeat,
    Logout,
}

/// What a successful request gives back.
#[derive(Clone, Debug)]
pub enum ResponseData {
    Success,
    ChatroomStatus { users: Vec<UserInfo> },
}

/// Refusals that travel on the wire.
#[derive(Clone, Copy, Debug, PartialEq, Eq, Structural)]
pub enum ErrorCode {
    UserExisted,
    InvalidUserOrPass,
    LoginRequired,
    ConnectionNotSecure,
    Unsupported,
}

impl ErrorCode {
    pub fn describe(&self) -> (r: &'static str)
        ensures
            r@ == match self {
                ErrorCode::UserExisted => "user is already existed"@,
                ErrorCode::InvalidUserOrPass => "username or password are invalid"@,
                ErrorCode::LoginRequired => "login is required for the operation"@,
                ErrorCode::ConnectionNotSecure => "failed to establish a secure connection"@,
                ErrorCode::Unsupported => "operation is not supported"@,
            },
    {
        match self {
            ErrorCode::UserExisted => "user is already existed",
            ErrorCode::InvalidUserOrPass => "username or password are invalid",
            ErrorCode::LoginRequired => "login is required for the operation",
            ErrorCode::ConnectionNotSecure => "failed to establish a secure connection",
            ErrorCode::Unsupported => "operation is not supported",
        }
    }
}

pub type Response = Result<ResponseData, ErrorCode>;

/// A presence change that the server sends to the other logged-in users.
#[derive(Clone, Debug)]
pub enum Notification {
    Online { timestamp: Timestamp, name: String, info: UserOnlineInfo },
    Offline { timestamp: Timestamp, name: String },
}

/// A chat message sent from one peer to another.
#[derive(Clone, Debug)]
pub struct Message {
    pub to_all: bool,
    pub timestamp: Timestamp,
    pub msg: String,
}

/// The envelope of every datagram.
#[derive(Clone, Debug)]
pub enum SecureMsg {
    MyKey([u8; 32]),
    PeerKey([u8; 32]),
    Msg(Vec<u8>),
}

} // verus!
