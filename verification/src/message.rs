//! The message-type tag of a frame and what it says about the frame's size.

use crate::domain::PAGE_SIZE;
use crate::mac::HMAC_TAG_SIZE;
use vstd::prelude::*;
use vstd::std_specs::convert::FromSpecImpl;

verus! {

/// The type that the last byte of a frame's type header announces.
/// `Error` stands for every byte that is no tag.
#[derive(Debug, Clone, Copy, Eq, PartialEq, Structural)]
pub enum MessageType {
    Error,
    Read,
    Write,
    ReadProc,
    Value,
    WriteProc,
    Ack,
    ReadResponse,
    WriteResponse,
    ReadProcResponse,
    ValueResponse,
    WriteProcResponse,
    AckResponse,
}

impl MessageType {
    /// The tag byte of the type; 0 for `Error`.
    pub open spec fn spec_tag(self) -> u8 {
        match self {
            MessageType::Error => 0x00,
            MessageType::Read => 0x01,
            MessageType::Write => 0x02,
            MessageType::ReadProc => 0x03,
            MessageType::Value => 0x04,
            MessageType::WriteProc => 0x05,
            MessageType::Ack => 0x06,
            MessageType::ReadResponse => 0x41,
            MessageType::WriteResponse => 0x42,
            MessageType::ReadProcResponse => 0x43,
            MessageType::ValueResponse => 0x44,
            MessageType::WriteProcResponse => 0x45,
            MessageType::AckResponse => 0x46,
        }
    }

    /// The type that a tag byte announces.
    pub open spec fn of_tag(val: u8) -> MessageType {
        if val == 0x01 {
            MessageType::Read
        } else if val == 0x02 {
            MessageType::Write
        } else if val == 0x03 {
            MessageType::ReadProc
        } else if val == 0x04 {
            MessageType::Value
        } else if val == 0x05 {
            MessageType::WriteProc
        } else if val == 0x06 {
            MessageType::Ack
        } else if val == 0x41 {
            MessageType::ReadResponse
        } else if val == 0x42 {
            MessageType::WriteResponse
        } else if val == 0x43 {
            MessageType::ReadProcResponse
        } else if val == 0x44 {
            MessageType::ValueResponse
        } else if val == 0x45 {
            MessageType::WriteProcResponse
        } else if val == 0x46 {
            MessageType::AckResponse
        } else {
            MessageType::Error
        }
    }

    /// A command travels under this type: one of the six that a process
    /// accepts.
    pub open spec fn is_command(self) -> bool {
        self == MessageType::Read || self == MessageType::Write || self == MessageType::ReadProc
            || self == MessageType::Value || self == MessageType::WriteProc || self
            == MessageType::Ack
    }

    /// A process sends this type to a process; a client does not.
    pub open spec fn is_system(self) -> bool {
        self == MessageType::ReadProc || self == MessageType::Value || self
            == MessageType::WriteProc || self == MessageType::Ack
    }

    /// Number of bytes that follow the type header in a frame of a command:
    /// payload and tag. 0 for every other type.
    pub open spec fn spec_content_size(self) -> usize {
        match self {
            MessageType::Read => 48,
            MessageType::Write => 4144,
            MessageType::ReadProc => 64,
            MessageType::Value => 4176,
            MessageType::WriteProc => 4176,
            MessageType::Ack => 64,
            _ => 0,
        }
    }

    /// The tag byte of the type; 0 for `Error`.
    pub fn tag(self) -> (r: u8)
        ensures
            r == self.spec_tag(),
    {
        match self {
            MessageType::Error => 0x00,
            MessageType::Read => 0x01,
            MessageType::Write => 0x02,
            MessageType::ReadProc => 0x03,
            MessageType::Value => 0x04,
            MessageType::WriteProc => 0x05,
            MessageType::Ack => 0x06,
            MessageType::ReadResponse => 0x41,
            MessageType::WriteResponse => 0x42,
            MessageType::ReadProcResponse => 0x43,
            MessageType::ValueResponse => 0x44,
            MessageType::WriteProcResponse => 0x45,
            MessageType::AckResponse => 0x46,
        }
    }

    /// Number of bytes that follow the type header in a frame of a command:
    /// payload and tag. 0 for every other type.
    pub fn content_size(&mut self) -> (r: usize)
        ensures
            r == old(self).spec_content_size(),
            *final(self) == *old(self),
    {
        match self {
            MessageType::Error => 0,
            MessageType::Read => 16 + HMAC_TAG_SIZE,
            MessageType::Write => 16 + PAGE_SIZE + HMAC_TAG_SIZE,
            MessageType::ReadProc => 32 + HMAC_TAG_SIZE,
            MessageType::Value => 48 + PAGE_SIZE + HMAC_TAG_SIZE,
            MessageType::WriteProc => 48 + PAGE_SIZE + HMAC_TAG_SIZE,
            MessageType::Ack => 32 + HMAC_TAG_SIZE,
            _ => 0,
        }
    }
}

impl From<u8> for MessageType {
    fn from(val: u8) -> (r: MessageType) {
        if val == 0x01 {
            MessageType::Read
        } else if val == 0x02 {
            MessageType::Write
        } else if val == 0x03 {
            MessageType::ReadProc
        } else if val == 0x04 {
            MessageType::Value
        } else if val == 0x05 {
            MessageType::WriteProc
        } else if val == 0x06 {
            MessageType::Ack
        } else if val == 0x41 {
            MessageType::ReadResponse
        } else if val == 0x42 {
            MessageType::WriteResponse
        } else if val == 0x43 {
            MessageType::ReadProcResponse
        } else if val == 0x44 {
            MessageType::ValueResponse
        } else if val == 0x45 {
            MessageType::WriteProcResponse
        } else if val == 0x46 {
            MessageType::AckResponse
        } else {
            MessageType::Error
        }
    }
}

impl FromSpecImpl<u8> for MessageType {
    open spec fn obeys_from_spec() -> bool {
        true
    }

    open spec fn from_spec(val: u8) -> MessageType {
        MessageType::of_tag(val)
    }
}

/// A type is found again from its tag, and `Error` from every byte that is
/// no tag.
pub proof fn lemma_tag_round_trip(t: MessageType, val: u8)
    ensures
        t != MessageType::Error ==> MessageType::of_tag(t.spec_tag()) == t,
        MessageType::of_tag(val) != MessageType::Error ==> MessageType::of_tag(val).spec_tag()
            == val,
{
}

} // verus!
