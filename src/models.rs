//! Records shared by the subsystems: operations, devices, peers, users.
//!
//! Identifiers are 128-bit integers; times are microseconds since the Unix
//! epoch; operation payloads are JSON text.
use vstd::prelude::*;

verus! {

/// The kind of a state-changing mutation.
#[derive(Debug, Clone, Copy, PartialEq, Eq, Structural, Hash)]
pub enum OpType {
    Create,
    Update,
    Delete,
}

impl OpType {
    /// One-byte wire tag of the kind.
    pub open spec fn tag_spec(self) -> u8 {
        match self {
            OpType::Create => 1,
            OpType::Update => 2,
            OpType::Delete => 3,
        }
    }

    pub fn tag(&self) -> (r: u8)
        ensures
            r == self.tag_spec(),
    {
        match self {
            OpType::Create => 1,
            OpType::Update => 2,
            OpType::Delete => 3,
        }
    }

    pub fn from_tag(b: u8) -> (r: Option<OpType>)
        ensures
            r matches Some(t) ==> t.tag_spec() == b,
            r is None <==> !(1 <= b <= 3),
    {
        if b == 1 {
            Some(OpType::Create)
        } else if b == 2 {
            Some(OpType::Update)
        } else if b == 3 {
            Some(OpType::Delete)
        } else {
            None
        }
    }
}

/// What an operation is, as plain mathematical values.
pub struct OpView {
    pub id: u128,
    pub device_id: u128,
    pub timestamp: i64,
    pub table: Seq<char>,
    pub op_type: OpType,
    pub data: Seq<char>,
}

/// Operation log entry: one state-changing mutation on one row of one table.
#[derive(Debug, Clone)]
pub struct OplogEntry {
    /// Globally unique identifier of the operation.
    pub id: u128,
    /// The device that produced the operation.
    pub device_id: u128,
    /// Hybrid logical clock value, stored in its signed form.
    pub timestamp: i64,
    /// Name of the table whose resolver handles the operation.
    pub table: String,
    pub op_type: OpType,
    /// JSON text sufficient to reconstruct the row.
    pub data: String,
}

impl View for OplogEntry {
    type V = OpView;

    open spec fn view(&self) -> OpView {
        OpView {
            id: self.id,
            device_id: self.device_id,
            timestamp: self.timestamp,
            table: self.table@,
            op_type: self.op_type,
            data: self.data@,
        }
    }
}

impl OplogEntry {
    /// A field-by-field copy.
    pub fn duplicate(&self) -> (r: Self)
        ensures
            r@ == self@,
    {
        OplogEntry {
            id: self.id,
            device_id: self.device_id,
            timestamp: self.timestamp,
            table: self.table.clone(),
            op_type: self.op_type,
            data: self.data.clone(),
        }
    }
}

/// A device registered to a user.
#[derive(Debug, Clone)]
pub struct Device {
    pub device_id: u128,
    pub user_id: u128,
    pub device_type: String,
    pub push_token: Option<String>,
    /// Microseconds since the Unix epoch.
    pub last_seen: Option<i64>,
}

/// Another device of the same account seen on the network.
#[derive(Debug, Clone)]
pub struct Peer {
    pub peer_id: u128,
    pub user_id: u128,
    pub device_id: u128,
    pub last_known_ip: Option<String>,
    pub last_sync_time: Option<i64>,
}

/// A user account; the password hash is a PHC string.
#[derive(Debug, Clone)]
pub struct User {
    pub user_id: u128,
    pub user_name: String,
    pub user_password_hash: String,
    pub user_mail: String,
    /// Microseconds since the Unix epoch.
    pub created_at: i64,
}

} // verus!
