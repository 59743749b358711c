//! The records of the log: the two commands that change the store.

use crate::error::{CodecError, KvsError};
use crate::tagged::{
    encodable, encode, encodes, value_at, Payload, PayloadView, Tagged, TaggedView,
};
use vstd::prelude::*;

verus! {

/// One record of the log. On disk `Put` is written as `{"Set":["key","value"]}`
/// and `Remove` as `{"Rm":"key"}`.
#[derive(Clone, Debug, PartialEq, Eq)]
pub enum Command {
    Put(String, String),
    Remove(String),
}

/// A command, its texts as sequences of characters.
pub enum CommandView {
    Put(Seq<char>, Seq<char>),
    Remove(Seq<char>),
}

impl View for Command {
    type V = CommandView;

    open spec fn view(&self) -> CommandView {
        match self {
            Command::Put(k, v) => CommandView::Put(k@, v@),
            Command::Remove(k) => CommandView::Remove(k@),
        }
    }
}

impl CommandView {
    /// The key that the command is about.
    pub open spec fn key(self) -> Seq<char> {
        match self {
            CommandView::Put(k, _) => k,
            CommandView::Remove(k) => k,
        }
    }
}

/// The command that a tagged value stands for, if it stands for one.
pub open spec fn command_of(v: TaggedView) -> Option<CommandView> {
    match v.payload {
        PayloadView::Pair(k, value) => if v.tag == "Set"@ {
            Some(CommandView::Put(k, value))
        } else {
            None
        },
        PayloadView::Text(k) => if v.tag == "Rm"@ {
            Some(CommandView::Remove(k))
        } else {
            None
        },
        _ => None,
    }
}

/// The tagged value that stands for a command.
pub open spec fn tagged_of(c: CommandView) -> TaggedView {
    match c {
        CommandView::Put(k, v) => TaggedView { tag: "Set"@, payload: PayloadView::Pair(k, v) },
        CommandView::Remove(k) => TaggedView { tag: "Rm"@, payload: PayloadView::Text(k) },
    }
}

/// After white space, a record: the command and the position behind it.
pub open spec fn record_at(s: Seq<u8>, i: int) -> Option<(CommandView, int)> {
    match value_at(s, i) {
        Some((v, e)) => match command_of(v) {
            Some(c) => Some((c, e)),
            None => None,
        },
        None => None,
    }
}

/// The bytes that are written for a command are read as that command, and all
/// of them are taken.
pub proof fn record_round_trip(c: CommandView, bytes: Seq<u8>)
    requires
        encodes(tagged_of(c), bytes),
    ensures
        record_at(bytes, 0) == Some((c, bytes.len() as int)),
{
}

impl Command {
    /// The key that the command is about.
    pub fn key(&self) -> (k: &String)
        ensures
            k@ == self@.key(),
    {
        match self {
            Command::Put(k, _) => k,
            Command::Remove(k) => k,
        }
    }

    /// The key that the command is about, taken out of it.
    pub fn into_key(self) -> (k: String)
        ensures
            k@ == self@.key(),
    {
        match self {
            Command::Put(k, _) => k,
            Command::Remove(k) => k,
        }
    }

    /// The tagged value that stands for the command.
    pub fn to_tagged(&self) -> (t: Tagged)
        ensures
            t@ == tagged_of(self@),
    {
        match self {
            Command::Put(k, v) => Tagged {
                tag: "Set".to_owned(),
                payload: Payload::Pair(k.clone(), v.clone()),
            },
            Command::Remove(k) => Tagged { tag: "Rm".to_owned(), payload: Payload::Text(k.clone()) },
        }
    }

    /// The command that a tagged value stands for.
    pub fn from_tagged(t: Tagged) -> (r: Option<Command>)
        ensures
            match r {
                Some(c) => command_of(t@) == Some(c@),
                None => command_of(t@).is_none(),
            },
    {
        let Tagged { tag, payload } = t;
        match payload {
            Payload::Pair(k, v) => {
                if tag == "Set".to_owned() {
                    Some(Command::Put(k, v))
                } else {
                    None
                }
            },
            Payload::Text(k) => {
                if tag == "Rm".to_owned() {
                    Some(Command::Remove(k))
                } else {
                    None
                }
            },
            _ => None,
        }
    }

    /// The bytes of the record for the command. They are handed out only where
    /// they read back as the command.
    pub fn encode(&self) -> (r: core::result::Result<Vec<u8>, KvsError>)
        ensures
            match r {
                Ok(bytes) => encodes(tagged_of(self@), bytes@) && record_at(bytes@, 0) == Some(
                    (self@, bytes@.len() as int),
                ),
                Err(e) => !encodable(tagged_of(self@)) && e == KvsError::Codec(
                    CodecError::Unwritable,
                ),
            },
    {
        let t = self.to_tagged();
        match encode(&t) {
            Some(bytes) => {
                proof {
                    record_round_trip(self@, bytes@);
                }
                Ok(bytes)
            },
            None => Err(KvsError::Codec(CodecError::Unwritable)),
        }
    }
}

} // verus!
