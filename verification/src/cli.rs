//! The client's command line. Keys and values are text here and bytes in the
//! store.

use vstd::prelude::*;
use vstd::string::*;
use vstd::utf8::{decode_utf8, encode_utf8, valid_utf8};

use crate::codec::bytes_of;
use crate::command::{Change, Mutation};
use crate::config::{peer_complaint, peer_flag, split_peer};
use crate::driver::ClientOp;
use crate::types::NodeId;

verus! {

/// What the client is asked to do.
#[derive(Debug)]
pub enum CliCommand {
    Get { key: String },
    Put { key: String, value: String },
    Delete { key: String },
    /// With no expected value, the key must not exist: another condition than
    /// holding an empty value.
    Cas { key: String, new_value: String, expected: Option<String> },
}

/// A client's command line.
#[derive(Debug)]
pub struct Args {
    /// Where each node is reached.
    pub peers: Vec<(NodeId, String)>,
    pub command: CliCommand,
}

/// What the client says at the end, and whether that is a failure: then it goes
/// to the error stream, and the process ends with status 1.
#[derive(Debug, PartialEq, Eq)]
pub struct Output {
    pub text: String,
    pub failed: bool,
}

/// Reads a node, as `id=endpoint`.
pub fn parse_peer(s: &str) -> (r: Result<(NodeId, String), String>)
    ensures
        match r {
            Ok((id, address)) => peer_flag(s@) == Some((id, address@)),
            Err(text) => peer_flag(s@) is None && text@ == peer_complaint(s@, "bad node id "@),
        },
{
    split_peer(s, "bad node id ")
}

/// The change that a command asks for, if it is a write.
pub open spec fn change_of(command: CliCommand) -> Option<Change> {
    match command {
        CliCommand::Get { .. } => None,
        CliCommand::Put { key, value } => Some(
            Change::Put(encode_utf8(key@), encode_utf8(value@)),
        ),
        CliCommand::Delete { key } => Some(Change::Delete(encode_utf8(key@))),
        CliCommand::Cas { key, new_value, expected } => Some(
            Change::Cas(
                encode_utf8(key@),
                match expected {
                    Some(text) => Some(encode_utf8(text@)),
                    None => None,
                },
                encode_utf8(new_value@),
            ),
        ),
    }
}

impl CliCommand {
    /// The request that carries the command out. The client gives it its
    /// context.
    pub fn request(&self) -> (op: ClientOp)
        ensures
            match op {
                ClientOp::Get { key } => *self matches CliCommand::Get { key: text } && key@
                    == encode_utf8(text@),
                ClientOp::Mutate { ctx, op } => ctx is None && change_of(*self) == Some(op@),
            },
    {
        match self {
            CliCommand::Get { key } => ClientOp::Get { key: bytes_of(key) },
            CliCommand::Put { key, value } => ClientOp::Mutate {
                ctx: None,
                op: Mutation::Put { key: bytes_of(key), value: bytes_of(value) },
            },
            CliCommand::Delete { key } => ClientOp::Mutate {
                ctx: None,
                op: Mutation::Delete { key: bytes_of(key) },
            },
            CliCommand::Cas { key, new_value, expected } => {
                let expected: Option<Vec<u8>> = match expected {
                    Some(text) => Some(bytes_of(text)),
                    None => None,
                };
                ClientOp::Mutate {
                    ctx: None,
                    op: Mutation::Cas {
                        key: bytes_of(key),
                        expected,
                        new_value: bytes_of(new_value),
                    },
                }
            },
        }
    }
}

/// Some bytes as text, with what is no text replaced.
pub uninterp spec fn lossy(bytes: Seq<u8>) -> Seq<char>;

/// `String::from_utf8_lossy`: a function of the bytes alone, and for valid UTF-8
/// the text that they encode.
#[verifier::external_body]
fn lossy_text(bytes: &Vec<u8>) -> (text: String)
    ensures
        text@ == lossy(bytes@),
        valid_utf8(bytes@) ==> text@ == decode_utf8(bytes@),
{
    String::from_utf8_lossy(bytes).into_owned()
}

impl Output {
    /// A read is over.
    pub fn got(value: Option<Vec<u8>>) -> (out: Output)
        ensures
            match value {
                Some(bytes) => {
                    &&& !out.failed
                    &&& out.text@ == lossy(bytes@)
                    &&& valid_utf8(bytes@) ==> out.text@ == decode_utf8(bytes@)
                },
                None => out.failed && out.text@ == "(nil)"@,
            },
    {
        match value {
            Some(bytes) => Output::read(Some(lossy_text(&bytes))),
            None => Output::read(None),
        }
    }

    /// A read is over, with its value as it is shown.
    pub fn read(shown: Option<String>) -> (out: Output)
        ensures
            match shown {
                Some(text) => !out.failed && out.text == text,
                None => out.failed && out.text@ == "(nil)"@,
            },
    {
        match shown {
            Some(text) => Output { text, failed: false },
            None => Output { text: "(nil)".to_owned(), failed: true },
        }
    }

    /// A write is over; `swapped` is what a compare-and-swap said, and `true`
    /// for another write.
    pub fn wrote(swapped: bool) -> (out: Output)
        ensures
            out.failed == !swapped,
            out.text@ == if swapped {
                "OK"@
            } else {
                "(not swapped)"@
            },
    {
        if swapped {
            Output { text: "OK".to_owned(), failed: false }
        } else {
            Output { text: "(not swapped)".to_owned(), failed: true }
        }
    }
}

/// A command line asks for what it says: its text, byte for byte, as the key, the
/// value and the expectation of the write it names, and a missing expectation as
/// none at all.
pub proof fn law_a_command_asks_for_what_it_says(
    key: String,
    value: String,
    expected: Option<String>,
)
    ensures
        change_of(CliCommand::Get { key }) is None,
        change_of(CliCommand::Put { key, value }) == Some(
            Change::Put(encode_utf8(key@), encode_utf8(value@)),
        ),
        change_of(CliCommand::Delete { key }) == Some(Change::Delete(encode_utf8(key@))),
        expected is None ==> change_of(CliCommand::Cas { key, new_value: value, expected }) == Some(
            Change::Cas(encode_utf8(key@), None, encode_utf8(value@)),
        ),
        expected matches Some(text) ==> change_of(
            CliCommand::Cas { key, new_value: value, expected },
        ) == Some(
            Change::Cas(encode_utf8(key@), Some(encode_utf8(text@)), encode_utf8(value@)),
        ),
{
}

/// A command asks the store for what it says: a get for its key, and any other
/// for its change, without a context.
pub proof fn law_a_command_is_what_it_asks_for(command: &CliCommand, op: ClientOp)
    requires
        call_ensures(CliCommand::request, (command,), op),
    ensures
        match *command {
            CliCommand::Get { key } => op matches ClientOp::Get { key: k } && k@ == encode_utf8(
                key@,
            ),
            CliCommand::Put { key, value } => op matches ClientOp::Mutate { ctx, op: m }
                && ctx is None && m@ == Change::Put(encode_utf8(key@), encode_utf8(value@)),
            CliCommand::Delete { key } => op matches ClientOp::Mutate { ctx, op: m } && ctx is None
                && m@ == Change::Delete(encode_utf8(key@)),
            CliCommand::Cas { key, new_value, expected } => op matches ClientOp::Mutate {
                ctx,
                op: m,
            } && ctx is None && (match expected {
                Some(text) => m@ == Change::Cas(
                    encode_utf8(key@),
                    Some(encode_utf8(text@)),
                    encode_utf8(new_value@),
                ),
                None => m@ == Change::Cas(encode_utf8(key@), None, encode_utf8(new_value@)),
            }),
        },
{
}

/// What is printed: the value that was read, as text; that there is none, which
/// is a failure; and whether a write took effect.
pub proof fn law_what_is_printed(
    value: Option<Vec<u8>>,
    got: Output,
    swapped: bool,
    wrote: Output,
)
    requires
        call_ensures(Output::got, (value,), got),
        call_ensures(Output::wrote, (swapped,), wrote),
    ensures
        got.failed <==> value is None,
        value matches Some(bytes) ==> (valid_utf8(bytes@) ==> got.text@ == decode_utf8(bytes@)),
        value is None ==> got.text@ == "(nil)"@,
        wrote.failed <==> !swapped,
        swapped ==> wrote.text@ == "OK"@,
        !swapped ==> wrote.text@ == "(not swapped)"@,
{
}

} // verus!
