//! The result bus: three channels that carry results of background work —
//! a loaded aggregate, a freshly assigned remote record id, and
//! user-facing status messages — back into the synchronous update loop,
//! which polls them once per frame.

use vstd::prelude::*;
use std::sync::mpsc::{Sender, Receiver};
use crate::userdata::UserData;
use crate::storage::StorageMode;

verus! {

/// A user-facing status notification.
pub enum Message {
    Info(String),
    Warn(String),
    Error(String),
}

impl Message {
    pub fn info(msg: &str) -> (m: Message)
        ensures
            m matches Message::Info(t) && t@ == msg@,
    {
        Message::Info(crate::text::to_string_of(msg))
    }

    pub fn warn(msg: &str) -> (m: Message)
        ensures
            m matches Message::Warn(t) && t@ == msg@,
    {
        Message::Warn(crate::text::to_string_of(msg))
    }

    pub fn err(msg: &str) -> (m: Message)
        ensures
            m matches Message::Error(t) && t@ == msg@,
    {
        Message::Error(crate::text::to_string_of(msg))
    }
}

#[verifier::external_type_specification]
#[verifier::external_body]
#[verifier::reject_recursive_types(T)]
pub struct ExSender<T>(Sender<T>);

#[verifier::external_type_specification]
#[verifier::external_body]
#[verifier::reject_recursive_types(T)]
pub struct ExReceiver<T>(Receiver<T>);

/// Relies on std's `mpsc::channel`: an unbounded channel; what is sent on
/// the sender can later be received on the receiver. Nothing further is
/// promised, so every consumer must handle every possible value.
#[verifier::external_body]
fn channel_pair<T>() -> (Sender<T>, Receiver<T>) {
    std::sync::mpsc::channel()
}

/// Relies on std's `Sender::send`: hands the value to the channel; fails
/// only when the receiver is gone.
#[verifier::external_body]
pub fn channel_send<T>(s: &Sender<T>, v: T) -> bool {
    s.send(v).is_ok()
}

/// Relies on std's `Receiver::try_recv`: a pending value, if one is
/// there, without blocking. Which value arrives is up to the producers,
/// so nothing is promised of it.
#[verifier::external_body]
pub fn channel_try_recv<T>(r: &Receiver<T>) -> Option<T> {
    r.try_recv().ok()
}

/// Relies on std's `Sender::clone`: another handle to the same channel.
#[verifier::external_body]
pub fn channel_sender_clone<T>(s: &Sender<T>) -> Sender<T> {
    s.clone()
}

/// The three channels that background work reports through.
pub struct Channels {
    pub userdata_channel: (Sender<UserData>, Receiver<UserData>),
    pub id_channel: (Sender<String>, Receiver<String>),
    pub msg_channel: (Sender<Message>, Receiver<Message>),
}

impl Channels {
    pub fn new() -> Channels {
        Channels {
            userdata_channel: channel_pair(),
            id_channel: channel_pair(),
            msg_channel: channel_pair(),
        }
    }
}

impl Default for Channels {
    fn default() -> Channels {
        Channels::new()
    }
}

/// Applies a freshly assigned remote record id: the username slot of the
/// credentials takes the id, and a remote mode becomes published under
/// it; a local mode only records the username.
pub fn apply_bin_id(mode: &mut StorageMode, credentials: &mut (String, String), id: String)
    ensures
        final(credentials).0 == id,
        final(credentials).1 == old(credentials).1,
        match *old(mode) {
            StorageMode::Local { path } => (*final(mode)) matches StorageMode::Local { path: p }
                && p == path,
            StorageMode::JsonBin { masterkey, bin_id } => (*final(mode)) matches
                StorageMode::JsonBin { masterkey: mk, bin_id: b } && mk == masterkey && (
            b matches Some(x) && x@ == id@),
        },
{
    let id2 = crate::text::to_string_of(id.as_str());
    credentials.0 = id;
    match mode {
        StorageMode::Local { .. } => {},
        StorageMode::JsonBin { bin_id, .. } => {
            *bin_id = Some(id2);
        },
    }
}

/// One frame's poll of the bus: a pending id is applied to the storage
/// mode and credentials, a pending aggregate replaces the in-memory one,
/// and a pending message is handed back for display. Whatever arrives, a
/// remote mode stays remote with its master key, a local mode stays
/// local, and the passphrase is untouched.
pub fn poll_channels(
    channels: &Channels,
    userdata: &mut UserData,
    mode: &mut StorageMode,
    credentials: &mut (String, String),
) -> (note_msg: Option<Message>)
    ensures
        final(credentials).1 == old(credentials).1,
        match *old(mode) {
            StorageMode::Local { path } => (*final(mode)) matches StorageMode::Local { path: p }
                && p == path,
            StorageMode::JsonBin { masterkey, bin_id } => (*final(mode)) matches
                StorageMode::JsonBin { masterkey: mk, bin_id: b } && mk == masterkey,
        },
{
    match channel_try_recv(&channels.id_channel.1) {
        Some(id) => {
            apply_bin_id(mode, credentials, id);
        },
        None => {},
    }
    match channel_try_recv(&channels.userdata_channel.1) {
        Some(u) => {
            *userdata = u;
        },
        None => {},
    }
    channel_try_recv(&channels.msg_channel.1)
}

} // verus!
