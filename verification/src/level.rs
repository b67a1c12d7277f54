//! User-facing compression levels and the peers each one is scored against.

use crate::codec::method::CodecMode;
use vstd::prelude::*;

verus! {

/// Named compression level; `Archive` is the default.
#[derive(Debug, Clone, Copy, PartialEq, Eq, Structural)]
pub enum Level {
    /// Hash-chain LZ with optional order-0 rANS.
    Wire,
    /// Byte-level context mixing without transform trials.
    General,
    /// Byte-level text, bit-level binary.
    Archive,
    /// Bit-level context mixing on every block.
    Max,
}

/// The level with a number; the sign does not matter.
pub open spec fn level_of(n: int) -> Option<Level> {
    if n == 1 || n == -1 {
        Some(Level::Wire)
    } else if n == 3 || n == -3 {
        Some(Level::General)
    } else if n == 9 || n == -9 {
        Some(Level::Archive)
    } else if n == 19 || n == -19 {
        Some(Level::Max)
    } else {
        None
    }
}

/// The number of a level.
pub open spec fn number_of(l: Level) -> int {
    match l {
        Level::Wire => 1,
        Level::General => 3,
        Level::Archive => 9,
        Level::Max => 19,
    }
}

/// Parsing the number of a level, with either sign, gives the level.
pub proof fn law_level_round_trip(l: Level)
    ensures
        level_of(number_of(l)) == Some(l),
        level_of(-number_of(l)) == Some(l),
{
}

/// The engine of a level.
pub open spec fn mode_of(l: Level) -> CodecMode {
    match l {
        Level::Wire => CodecMode::Wire,
        Level::General => CodecMode::General,
        Level::Archive => CodecMode::Hybrid,
        Level::Max => CodecMode::Slow,
    }
}

/// The levels are 1 for the hash-chain engine, 3 byte by byte without trials, 9 for
/// bytes of text and bits of the rest, and 19 bit by bit; no other number is one.
pub proof fn law_levels(n: int)
    ensures
        (level_of(n) matches Some(l) && mode_of(l) == CodecMode::Wire) <==> n == 1 || n == -1,
        (level_of(n) matches Some(l) && mode_of(l) == CodecMode::General) <==> n == 3 || n == -3,
        (level_of(n) matches Some(l) && mode_of(l) == CodecMode::Hybrid) <==> n == 9 || n == -9,
        (level_of(n) matches Some(l) && mode_of(l) == CodecMode::Slow) <==> n == 19 || n == -19,
        !(level_of(n) matches Some(l) && mode_of(l) == CodecMode::Fast),
{
}

/// The peers of a level.
pub open spec fn peers_of(l: Level) -> Seq<char> {
    match l {
        Level::Wire => "lz4 -9, zstd -1"@,
        Level::General => "gzip -9"@,
        Level::Archive => "zstd -19 (stretch: xz -9, brotli -11)"@,
        Level::Max => "xz -9, brotli -11 (ratio stretch)"@,
    }
}

impl Level {
    /// Parses 1, 3, 9, 19 or the same numbers with a minus.
    pub fn from_i32(n: i32) -> (r: Option<Self>)
        ensures
            r == level_of(n as int),
    {
        if n == 1 || n == -1 {
            Some(Level::Wire)
        } else if n == 3 || n == -3 {
            Some(Level::General)
        } else if n == 9 || n == -9 {
            Some(Level::Archive)
        } else if n == 19 || n == -19 {
            Some(Level::Max)
        } else {
            None
        }
    }

    /// The positive number of the level.
    pub fn number(self) -> (n: i32)
        ensures
            n == number_of(self),
    {
        match self {
            Level::Wire => 1,
            Level::General => 3,
            Level::Archive => 9,
            Level::Max => 19,
        }
    }

    /// The engine that implements the level.
    pub fn mode(self) -> (m: CodecMode)
        ensures
            m == mode_of(self),
    {
        match self {
            Level::Wire => CodecMode::Wire,
            Level::General => CodecMode::General,
            Level::Archive => CodecMode::Hybrid,
            Level::Max => CodecMode::Slow,
        }
    }

    /// The peers that the level must beat on ratio and speed.
    pub fn target_peers(self) -> (s: &'static str)
        ensures
            s@ == peers_of(self),
    {
        match self {
            Level::Wire => "lz4 -9, zstd -1",
            Level::General => "gzip -9",
            Level::Archive => "zstd -19 (stretch: xz -9, brotli -11)",
            Level::Max => "xz -9, brotli -11 (ratio stretch)",
        }
    }
}

impl Default for Level {
    fn default() -> (l: Self)
        ensures
            l == Level::Archive,
    {
        Level::Archive
    }
}

/// The engine for a level and an engine that were asked for, where they agree; the
/// default is the engine of the default level.
pub open spec fn engine_of(level: Option<Level>, mode: Option<CodecMode>) -> Option<CodecMode> {
    match (level, mode) {
        (Some(l), Some(m)) => if mode_of(l) == m {
            Some(m)
        } else {
            None
        },
        (Some(l), None) => Some(mode_of(l)),
        (None, Some(m)) => Some(m),
        (None, None) => Some(CodecMode::Hybrid),
    }
}

/// The engine for a level and an engine that were asked for. It is an error, with
/// the engine of the level, if both were and they differ.
pub fn resolve_engine(level: Option<Level>, mode: Option<CodecMode>) -> (r: Result<
    CodecMode,
    CodecMode,
>)
    ensures
        r matches Ok(m) ==> engine_of(level, mode) == Some(m),
        r is Err <==> engine_of(level, mode) is None,
        r matches Err(m) ==> m == mode_of(level.unwrap()),
{
    match (level, mode) {
        (Some(l), Some(m)) => if l.mode() == m {
            Ok(m)
        } else {
            Err(l.mode())
        },
        (Some(l), None) => Ok(l.mode()),
        (None, Some(m)) => Ok(m),
        (None, None) => Ok(CodecMode::Hybrid),
    }
}

/// An engine that was asked for is the one, a level that was asked for gives its own,
/// and both together agree or give none.
pub proof fn law_engine(l: Level, m: CodecMode)
    ensures
        engine_of(None, Some(m)) == Some(m),
        engine_of(Some(l), None) == Some(mode_of(l)),
        engine_of(Some(l), Some(mode_of(l))) == Some(mode_of(l)),
        m != mode_of(l) ==> engine_of(Some(l), Some(m)) is None,
{
}

/// Asking for nothing gives the engine of the default level.
pub proof fn law_default_engine()
    ensures
        engine_of(None, None) == Some(mode_of(Level::Archive)),
{
}

/// Whether a switch is on, as a number.
pub open spec fn on(b: bool) -> int {
    if b {
        1
    } else {
        0
    }
}

/// The engine that switches ask for, if any. It is an error if more than one is
/// on.
pub fn engine_of_switches(fast: bool, hybrid: bool, wire: bool, general: bool, slow: bool) -> (r:
    Result<Option<CodecMode>, ()>)
    ensures
        r is Err <==> on(fast) + on(hybrid) + on(wire) + on(general) + on(slow) > 1,
        r matches Ok(m) ==> match m {
            None => !fast && !hybrid && !wire && !general && !slow,
            Some(CodecMode::Fast) => fast,
            Some(CodecMode::Hybrid) => hybrid,
            Some(CodecMode::Wire) => wire,
            Some(CodecMode::General) => general,
            Some(CodecMode::Slow) => slow,
        },
{
    let count: u8 = fast as u8 + hybrid as u8 + wire as u8 + general as u8 + slow as u8;
    if count > 1 {
        return Err(());
    }
    Ok(
        if fast {
            Some(CodecMode::Fast)
        } else if hybrid {
            Some(CodecMode::Hybrid)
        } else if wire {
            Some(CodecMode::Wire)
        } else if general {
            Some(CodecMode::General)
        } else if slow {
            Some(CodecMode::Slow)
        } else {
            None
        },
    )
}

} // verus!
