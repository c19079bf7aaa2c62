//! Operation status: a code and a message, with their encoded bytes.
use vstd::prelude::*;
use vstd::string::*;
use vstd::utf8::*;
use crate::coding::{le32, EncodeFixed32};

verus! {

/// The kind of outcome an operation reports.
#[derive(Clone, Copy, Debug, PartialEq, Eq, Structural)]
pub enum Code {
    kOk,
    kNotFound,
    kCorruption,
    kNotSupported,
    kInvalidArgument,
    kIOError,
}

/// The byte that stands for a code in an encoded status.
pub open spec fn code_byte(c: Code) -> u8 {
    match c {
        Code::kOk => 0,
        Code::kNotFound => 1,
        Code::kCorruption => 2,
        Code::kNotSupported => 3,
        Code::kInvalidArgument => 4,
        Code::kIOError => 5,
    }
}

/// The byte that stands for `c`.
pub fn code_to_byte(c: Code) -> (r: u8)
    ensures
        r == code_byte(c),
{
    match c {
        Code::kOk => 0,
        Code::kNotFound => 1,
        Code::kCorruption => 2,
        Code::kNotSupported => 3,
        Code::kInvalidArgument => 4,
        Code::kIOError => 5,
    }
}

/// The message of a status made from `msg1` and `msg2`: `"<msg1>: <msg2>"`.
pub open spec fn joined_message(msg1: Seq<char>, msg2: Seq<char>) -> Seq<char> {
    msg1 + seq![':', ' '] + msg2
}

/// The encoded form of a status: a four-byte little-endian size field, the
/// code byte, then the UTF-8 bytes of the message.
pub open spec fn status_bytes(size_field: u32, c: Code, msg: Seq<char>) -> Seq<u8> {
    le32(size_field) + seq![code_byte(c)] + encode_utf8(msg)
}

/// The status of an operation.
#[derive(Debug)]
pub struct state {
    state_: Vec<u8>,
    msg: String,
}

impl state {
    #[verifier::type_invariant]
    spec fn wf(self) -> bool {
        &&& self.state_@.len() >= 5
        &&& self.state_@.subrange(5, self.state_@.len() as int) == encode_utf8(self.msg@)
    }

    /// The encoded bytes of this status.
    pub closed spec fn bytes(&self) -> Seq<u8> {
        self.state_@
    }

    /// The message of this status.
    pub closed spec fn message(&self) -> Seq<char> {
        self.msg@
    }

    /// The code byte of this status.
    pub open spec fn code(&self) -> u8 {
        self.bytes()[4]
    }

    /// Makes a status with code `code` and message `"<msg1>: <msg2>"`. The
    /// size field holds the in-memory size of a `String`.
    pub fn new(code: Code, msg1: String, msg2: String) -> (r: state)
        ensures
            r.message() == joined_message(msg1@, msg2@),
            r.bytes() == status_bytes(
                vstd::layout::size_of::<String>() as usize as u32,
                code,
                joined_message(msg1@, msg2@),
            ),
            r.code() == code_byte(code),
    {
        let mut msg = msg1;
        msg.append(": ");
        msg.append(msg2.as_str());
        proof {
            reveal_strlit(": ");
        }
        assert(msg@ =~= joined_message(msg1@, msg2@));
        let size: usize = core::mem::size_of::<String>();
        let header = EncodeFixed32(size as u32);
        let mut bytes: Vec<u8> = Vec::new();
        bytes.push(header[0]);
        bytes.push(header[1]);
        bytes.push(header[2]);
        bytes.push(header[3]);
        bytes.push(code_to_byte(code));
        let text = msg.as_str().as_bytes();
        let mut i: usize = 0;
        while i < text.len()
            invariant
                0 <= i <= text@.len(),
                bytes@.len() == 5 + i,
                bytes@.subrange(0, 4) == header@,
                bytes@[4] == code_byte(code),
                bytes@.subrange(5, 5 + i as int) == text@.subrange(0, i as int),
            decreases text@.len() - i,
        {
            bytes.push(text[i]);
            i = i + 1;
            assert(bytes@.subrange(5, 5 + i as int) =~= text@.subrange(0, i as int));
            assert(bytes@.subrange(0, 4) =~= header@);
        }
        assert(text@ =~= text@.subrange(0, text@.len() as int));
        assert(bytes@ =~= le32(size as u32) + seq![code_byte(code)] + encode_utf8(msg@));
        state { state_: bytes, msg }
    }

    /// The status that reports success, with message `": "`.
    pub fn ok() -> (r: state)
        ensures
            r.code() == code_byte(Code::kOk),
            r.message() == joined_message(Seq::empty(), Seq::empty()),
    {
        state::new(Code::kOk, String::new(), String::new())
    }

    /// The status that reports an unsupported operation, with message `": "`.
    pub fn not_supported() -> (r: state)
        ensures
            r.code() == code_byte(Code::kNotSupported),
            r.message() == joined_message(Seq::empty(), Seq::empty()),
    {
        state::new(Code::kNotSupported, String::new(), String::new())
    }

    /// Whether this status reports success.
    pub fn isOk(&self) -> (r: bool)
        ensures
            r == (self.code() == code_byte(Code::kOk)),
    {
        proof {
            use_type_invariant(self);
        }
        self.state_[4] == 0
    }

    /// The message of `s`: the bytes of its encoding after the code byte.
    pub fn to_string<'a>(s: &'a state) -> (r: &'a str)
        ensures
            r@ == s.message(),
            r.spec_bytes() == s.bytes().subrange(5, s.bytes().len() as int),
    {
        proof {
            use_type_invariant(s);
        }
        s.msg.as_str()
    }
}

impl Clone for state {
    /// A status with the same bytes and message.
    fn clone(&self) -> (r: state)
        ensures
            r.bytes() == self.bytes(),
            r.message() == self.message(),
    {
        proof {
            use_type_invariant(self);
        }
        state { state_: self.state_.clone(), msg: self.msg.clone() }
    }
}

} // verus!
