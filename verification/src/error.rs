//! Error type for compression and decompression.

use crate::text;
use vstd::prelude::*;
use vstd::string::*;

verus! {

/// Errors produced by the codec.
#[derive(Debug)]
pub enum RcnError {
    /// The container magic or structure was not valid.
    InvalidContainer(String),
    /// A block payload was truncated or the entropy stream was corrupt.
    CorruptBlock(String),
    /// A decompressed block failed its CRC32 check: block, computed and
    /// expected value.
    CrcMismatch(usize, u32, u32),
    /// The decoder ran out of entropy bytes mid-block.
    TruncatedStream(usize),
    /// An entropy-coding primitive failed.
    Entropy(String),
    /// JSON stream splitting/merging failed (corrupt sub-stream).
    JsonSplitError(String),
    /// CSV stream splitting/merging failed (corrupt sub-stream).
    CsvSplitError(String),
    /// XML stream splitting/merging failed (corrupt sub-stream).
    XmlSplitError(String),
}

/// An error as contracts speak of it: what it says, as mathematical values.
pub enum Fault {
    InvalidContainer(Seq<char>),
    CorruptBlock(Seq<char>),
    CrcMismatch(int, int, int),
    TruncatedStream(int),
    Entropy(Seq<char>),
    JsonSplitError(Seq<char>),
    CsvSplitError(Seq<char>),
    XmlSplitError(Seq<char>),
}

impl View for RcnError {
    type V = Fault;

    open spec fn view(&self) -> Fault {
        match *self {
            RcnError::InvalidContainer(m) => Fault::InvalidContainer(m@),
            RcnError::CorruptBlock(m) => Fault::CorruptBlock(m@),
            RcnError::CrcMismatch(block, got, expected) => Fault::CrcMismatch(
                block as int,
                got as int,
                expected as int,
            ),
            RcnError::TruncatedStream(block) => Fault::TruncatedStream(block as int),
            RcnError::Entropy(m) => Fault::Entropy(m@),
            RcnError::JsonSplitError(m) => Fault::JsonSplitError(m@),
            RcnError::CsvSplitError(m) => Fault::CsvSplitError(m@),
            RcnError::XmlSplitError(m) => Fault::XmlSplitError(m@),
        }
    }
}

/// What a decoder returned, as mathematical values.
pub open spec fn outcome(r: std::result::Result<Vec<u8>, RcnError>) -> std::result::Result<
    Seq<u8>,
    Fault,
> {
    match r {
        Ok(v) => Ok(v@),
        Err(e) => Err(e@),
    }
}

impl RcnError {
    /// An invalid-container error with the given message.
    pub fn invalid_container(msg: String) -> (e: Self)
        ensures
            e == RcnError::InvalidContainer(msg),
    {
        Self::InvalidContainer(msg)
    }

    /// A corrupt-block error with the given message.
    pub fn corrupt_block(msg: String) -> (e: Self)
        ensures
            e == RcnError::CorruptBlock(msg),
    {
        Self::CorruptBlock(msg)
    }

    /// The text of an error.
    pub open spec fn text(self) -> Seq<char> {
        match self {
            RcnError::InvalidContainer(m) => "invalid rcn container: "@ + m@,
            RcnError::CorruptBlock(m) => "corrupt block stream: "@ + m@,
            RcnError::CrcMismatch(block, got, expected) => "block "@ + text::decimal(block as int)
                + " failed CRC32 check (got 0x"@ + text::hex_digits(got as int, 8)
                + ", expected 0x"@ + text::hex_digits(expected as int, 8) + ")"@,
            RcnError::TruncatedStream(block) => "unexpected end of entropy stream in block "@
                + text::decimal(block as int),
            RcnError::Entropy(m) => "entropy coder error: "@ + m@,
            RcnError::JsonSplitError(m) => "json split error: "@ + m@,
            RcnError::CsvSplitError(m) => "csv split error: "@ + m@,
            RcnError::XmlSplitError(m) => "xml split error: "@ + m@,
        }
    }

    /// Renders the error for the user.
    pub fn message(&self) -> (s: String)
        ensures
            s@ == self.text(),
    {
        match self {
            RcnError::InvalidContainer(m) => labelled("invalid rcn container: ", m),
            RcnError::CorruptBlock(m) => labelled("corrupt block stream: ", m),
            RcnError::CrcMismatch(block, got, expected) => {
                let mut s = String::from_str("block ");
                text::push_decimal(&mut s, *block as u64);
                s.append(" failed CRC32 check (got 0x");
                text::push_hex(&mut s, *got, 8);
                s.append(", expected 0x");
                text::push_hex(&mut s, *expected, 8);
                s.append(")");
                s
            },
            RcnError::TruncatedStream(block) => {
                let mut s = String::from_str("unexpected end of entropy stream in block ");
                text::push_decimal(&mut s, *block as u64);
                s
            },
            RcnError::Entropy(m) => labelled("entropy coder error: ", m),
            RcnError::JsonSplitError(m) => labelled("json split error: ", m),
            RcnError::CsvSplitError(m) => labelled("csv split error: ", m),
            RcnError::XmlSplitError(m) => labelled("xml split error: ", m),
        }
    }
}

/// A corrupt-block error with a fixed message.
pub fn corrupt(msg: &str) -> (e: RcnError)
    ensures
        e@ == Fault::CorruptBlock(msg@),
{
    RcnError::CorruptBlock(String::from_str(msg))
}

fn labelled(label: &str, m: &String) -> (s: String)
    ensures
        s@ == label@ + m@,
{
    let mut s = String::from_str(label);
    s.append(m.as_str());
    s
}

/// Convenience alias for codec results.
pub type Result<T> = std::result::Result<T, RcnError>;

} // verus!
