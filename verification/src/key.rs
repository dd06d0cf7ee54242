//! The key under which one live connection is known.

use vstd::prelude::*;

verus! {

/// The mathematical value of a connection key: channel name and identity.
pub type KeyModel = (Seq<char>, usize);

/// Identifies one live connection: the channel it joined and an identity that
/// its transport handed out, unique among the connections alive at one time.
#[derive(Debug, PartialEq, Eq)]
pub struct ConnectionKey {
    channel: String,
    id: usize,
}

impl View for ConnectionKey {
    type V = KeyModel;

    closed spec fn view(&self) -> KeyModel {
        (self.channel@, self.id)
    }
}

impl Clone for ConnectionKey {
    fn clone(&self) -> (copy: Self)
        ensures
            copy@ == self@,
    {
        ConnectionKey { channel: self.channel.clone(), id: self.id }
    }
}

impl ConnectionKey {
    /// Makes the key of the connection `id` on `channel`.
    pub fn new(channel: String, id: usize) -> (key: Self)
        ensures
            key@ == (channel@, id),
    {
        ConnectionKey { channel, id }
    }

    /// The channel name.
    pub fn channel(&self) -> (name: &str)
        ensures
            name@ == self@.0,
    {
        self.channel.as_str()
    }

    /// The connection identity.
    pub fn id(&self) -> (id: usize)
        ensures
            id == self@.1,
    {
        self.id
    }

    /// Whether both keys name the same channel.
    pub fn same_channel(&self, other: &ConnectionKey) -> (same: bool)
        ensures
            same == (self@.0 == other@.0),
    {
        self.channel == other.channel
    }

    /// Whether both keys name the same connection.
    pub fn matches(&self, other: &ConnectionKey) -> (same: bool)
        ensures
            same == (self@ == other@),
    {
        self.id == other.id && self.channel == other.channel
    }
}

} // verus!
