//! Typed commands decoded from frames: the operations the server
//! understands, and how a frame maps onto them.
//!
//! A command frame is an array whose first element names the command
//! (letter case is ignored) and whose remaining elements are its
//! arguments; names and arguments are the payloads of simple or bulk
//! elements.

use vstd::prelude::*;
use crate::frame::{model_list, Frame, FrameModel};

verus! {

/// A typed operation decoded from one frame.
#[derive(Debug, Clone, PartialEq, Eq)]
pub enum Command {
    /// Look up the value stored under the key.
    Get(Vec<u8>),
    /// Store the value under the key, overwriting any previous value.
    Put(Vec<u8>, Vec<u8>),
    /// A well-formed command array whose name is neither GET nor SET;
    /// fatal to the connection handler in this core.
    Unknown(Vec<u8>),
}

/// The mathematical value of a command.
pub enum CommandModel {
    Get(Seq<u8>),
    Put(Seq<u8>, Seq<u8>),
    Unknown(Seq<u8>),
}

/// How turning a frame into a command fails.
#[derive(Clone, Copy, Debug, PartialEq, Eq, Structural)]
pub enum CommandError {
    /// The frame is not an array of simple or bulk elements with a name.
    BadShape,
    /// The named command takes a different count of arguments.
    WrongArity,
    /// The command name is recognized by nobody; the handler gives up.
    Unrecognized,
}

impl Command {
    /// The mathematical value of this command.
    pub open spec fn model(self) -> CommandModel {
        match self {
            Command::Get(k) => CommandModel::Get(k@),
            Command::Put(k, v) => CommandModel::Put(k@, v@),
            Command::Unknown(n) => CommandModel::Unknown(n@),
        }
    }
}

/// A byte with its ASCII lowercase letters raised to uppercase.
pub open spec fn ascii_upper(b: u8) -> u8 {
    if 97 <= b && b <= 122 {
        (b - 32) as u8
    } else {
        b
    }
}

/// The payload of a frame usable as command text: a simple or bulk payload.
pub open spec fn text_of(f: FrameModel) -> Option<Seq<u8>> {
    match f {
        FrameModel::Simple(p) => Some(p),
        FrameModel::Bulk(p) => Some(p),
        _ => None,
    }
}

/// Whether a name denotes GET, ignoring letter case.
pub open spec fn is_get_name(name: Seq<u8>) -> bool {
    name.len() == 3 && ascii_upper(name[0]) == 71 && ascii_upper(name[1]) == 69 && ascii_upper(
        name[2],
    ) == 84
}

/// Whether a name denotes SET, ignoring letter case.
pub open spec fn is_set_name(name: Seq<u8>) -> bool {
    name.len() == 3 && ascii_upper(name[0]) == 83 && ascii_upper(name[1]) == 69 && ascii_upper(
        name[2],
    ) == 84
}

/// The command a frame denotes, or how it fails to denote one.
pub open spec fn command_of(f: FrameModel) -> Result<CommandModel, CommandError> {
    match f {
        FrameModel::Array(fs) => {
            if fs.len() == 0 {
                Err(CommandError::BadShape)
            } else {
                match text_of(fs[0]) {
                    None => Err(CommandError::BadShape),
                    Some(name) => {
                        if is_get_name(name) {
                            if fs.len() == 2 {
                                match text_of(fs[1]) {
                                    Some(k) => Ok(CommandModel::Get(k)),
                                    None => Err(CommandError::BadShape),
                                }
                            } else {
                                Err(CommandError::WrongArity)
                            }
                        } else if is_set_name(name) {
                            if fs.len() == 3 {
                                match (text_of(fs[1]), text_of(fs[2])) {
                                    (Some(k), Some(v)) => Ok(CommandModel::Put(k, v)),
                                    _ => Err(CommandError::BadShape),
                                }
                            } else {
                                Err(CommandError::WrongArity)
                            }
                        } else {
                            Ok(CommandModel::Unknown(name))
                        }
                    }
                }
            }
        }
        _ => Err(CommandError::BadShape),
    }
}

/// A byte with its ASCII lowercase letters raised to uppercase.
fn ascii_upper_byte(b: u8) -> (r: u8)
    ensures
        r == ascii_upper(b),
{
    if b >= 97 && b <= 122 {
        b - 32
    } else {
        b
    }
}

/// Whether the three-letter name matches the given uppercase letters,
/// ignoring letter case.
fn name_matches(name: &Vec<u8>, a: u8, b: u8, c: u8) -> (r: bool)
    ensures
        r == (name@.len() == 3 && ascii_upper(name@[0]) == a && ascii_upper(name@[1]) == b
            && ascii_upper(name@[2]) == c),
{
    name.len() == 3 && ascii_upper_byte(name[0]) == a && ascii_upper_byte(name[1]) == b
        && ascii_upper_byte(name[2]) == c
}

/// The owned payload of a simple or bulk frame, or the frame back.
fn take_text(f: Frame) -> (r: Result<Vec<u8>, Frame>)
    ensures
        match r {
            Ok(p) => text_of(f.model()) == Some(p@),
            Err(g) => text_of(f.model()) == None::<Seq<u8>> && g == f,
        },
{
    match f {
        Frame::Simple(p) => Ok(p),
        Frame::Bulk(p) => Ok(p),
        other => Err(other),
    }
}

impl Command {
    /// Decode a frame as a command: exactly the command the frame
    /// denotes, or exactly the way it fails to denote one.
    pub fn from_frame(f: Frame) -> (r: Result<Command, CommandError>)
        ensures
            match r {
                Ok(c) => command_of(f.model()) == Ok::<CommandModel, CommandError>(c.model()),
                Err(e) => e != CommandError::Unrecognized && command_of(f.model())
                    == Err::<CommandModel, CommandError>(e),
            },
    {
        let ghost fm = f.model();
        let mut items: Vec<Frame> = match f {
            Frame::Array(v) => v,
            _ => {
                return Err(CommandError::BadShape);
            }
        };
        let ghost gitems = items@;
        proof {
            assert(fm == FrameModel::Array(model_list(gitems)));
            assert forall|i: int| 0 <= i < gitems.len() implies #[trigger] model_list(
                gitems,
            )[i] == gitems[i].model() by {
                crate::frame::lemma_model_list_index(gitems, i);
            }
            crate::frame::lemma_model_list_len(gitems);
        }
        let n: usize = items.len();
        if n == 0 {
            return Err(CommandError::BadShape);
        }
        let last = match items.pop() {
            Some(x) => x,
            None => {
                proof {
                    assert(false);
                }
                return Err(CommandError::BadShape);
            }
        };
        if n == 1 {
            // the single element is the name
            let name = match take_text(last) {
                Ok(p) => p,
                Err(_) => {
                    return Err(CommandError::BadShape);
                }
            };
            if name_matches(&name, 71, 69, 84) || name_matches(&name, 83, 69, 84) {
                return Err(CommandError::WrongArity);
            }
            return Ok(Command::Unknown(name));
        }
        let second_last = match items.pop() {
            Some(x) => x,
            None => {
                proof {
                    assert(false);
                }
                return Err(CommandError::BadShape);
            }
        };
        if n == 2 {
            // name, then one argument
            let name = match take_text(second_last) {
                Ok(p) => p,
                Err(_) => {
                    return Err(CommandError::BadShape);
                }
            };
            if name_matches(&name, 71, 69, 84) {
                match take_text(last) {
                    Ok(k) => {
                        return Ok(Command::Get(k));
                    }
                    Err(_) => {
                        return Err(CommandError::BadShape);
                    }
                }
            }
            if name_matches(&name, 83, 69, 84) {
                return Err(CommandError::WrongArity);
            }
            return Ok(Command::Unknown(name));
        }
        let third_last = match items.pop() {
            Some(x) => x,
            None => {
                proof {
                    assert(false);
                }
                return Err(CommandError::BadShape);
            }
        };
        if n == 3 {
            // name, then two arguments
            let name = match take_text(third_last) {
                Ok(p) => p,
                Err(_) => {
                    return Err(CommandError::BadShape);
                }
            };
            if name_matches(&name, 83, 69, 84) {
                match take_text(second_last) {
                    Ok(k) => {
                        match take_text(last) {
                            Ok(v) => {
                                return Ok(Command::Put(k, v));
                            }
                            Err(_) => {
                                return Err(CommandError::BadShape);
                            }
                        }
                    }
                    Err(_) => {
                        return Err(CommandError::BadShape);
                    }
                }
            }
            if name_matches(&name, 71, 69, 84) {
                return Err(CommandError::WrongArity);
            }
            return Ok(Command::Unknown(name));
        }
        // four or more elements: the name decides between arity error
        // and an unrecognized command
        let mut rest = items;
        while rest.len() > 1
            invariant
                rest@.len() >= 1,
                rest@[0] == gitems[0],
            decreases rest@.len(),
        {
            match rest.pop() {
                Some(_) => {}
                None => {
                    proof {
                        assert(false);
                    }
                    return Err(CommandError::BadShape);
                }
            }
        }
        let first = match rest.pop() {
            Some(x) => x,
            None => {
                proof {
                    assert(false);
                }
                return Err(CommandError::BadShape);
            }
        };
        let name = match take_text(first) {
            Ok(p) => p,
            Err(_) => {
                return Err(CommandError::BadShape);
            }
        };
        if name_matches(&name, 71, 69, 84) || name_matches(&name, 83, 69, 84) {
            return Err(CommandError::WrongArity);
        }
        Ok(Command::Unknown(name))
    }
}

} // verus!
