//! Per-block data-type classifier.
//!
//! A block is classified by how random its bytes are, by how many of them are
//! printable, and by a few byte patterns of machine code.

use vstd::prelude::*;

verus! {

/// The kind of data a block looks like.
#[derive(Debug, Clone, Copy, PartialEq, Eq, Structural)]
pub enum BlockKind {
    /// High entropy, incompressible: stored as it is.
    Random,
    /// Predominantly printable text.
    Text,
    /// Mixed binary with some structure.
    Binary,
    /// Looks like machine code.
    Exec,
}

impl BlockKind {
    /// Whether a block of this kind is entropy-coded.
    pub fn is_compressible(self) -> (r: bool)
        ensures
            r == (self != BlockKind::Random),
    {
        !matches!(self, BlockKind::Random)
    }
}

/// What the bytes of a block measure.
#[derive(Debug, Clone, Copy, PartialEq, Eq, Structural)]
pub struct Measures {
    /// More than 7.9 bits of Shannon entropy in a byte.
    pub random: bool,
    /// More than 7.2 bits of Shannon entropy in a byte.
    pub near_random: bool,
    /// More than 85 of 100 bytes are printable ASCII.
    pub printable: bool,
}

/// Whether the bytes of `w` stand at `i`.
pub open spec fn stands_at(d: Seq<u8>, w: Seq<u8>, i: int) -> bool {
    0 <= i && i + w.len() <= d.len() && d.subrange(i, i + w.len()) == w
}

/// Whether a function prologue stands at `i`.
pub open spec fn prologue_at(d: Seq<u8>, i: int) -> bool {
    stands_at(d, seq![0x55u8, 0x89, 0xE5], i) || stands_at(d, seq![0x48u8, 0x89, 0xE5], i)
}

/// Whether the magic of an ELF, Mach-O or PE file stands at `i`.
pub open spec fn magic_at(d: Seq<u8>, i: int) -> bool {
    stands_at(d, seq![0x7Fu8, 0x45, 0x4C, 0x46], i) || stands_at(
        d,
        seq![0xCFu8, 0xFA, 0xED, 0xFE],
        i,
    ) || stands_at(d, seq![0x4Du8, 0x5A, 0x90, 0x00], i)
}

/// Whether a block looks like machine code: two prologues or a magic.
pub open spec fn code_like(d: Seq<u8>) -> bool {
    (exists|i: int, j: int| i < j && #[trigger] prologue_at(d, i) && #[trigger] prologue_at(d, j))
        || (exists|i: int| #[trigger] magic_at(d, i))
}

/// The kind of a block with given measures. Blocks of fewer than 32 bytes are
/// stored as they are.
pub open spec fn kind_of(d: Seq<u8>, m: Measures) -> BlockKind {
    if d.len() < 32 || m.random {
        BlockKind::Random
    } else if m.printable {
        BlockKind::Text
    } else if code_like(d) {
        BlockKind::Exec
    } else {
        BlockKind::Binary
    }
}

fn triple_at(b: &[u8], i: usize, x: u8, y: u8, z: u8) -> (r: bool)
    requires
        i + 3 <= b@.len(),
    ensures
        r == stands_at(b@, seq![x, y, z], i as int),
{
    let ghost s = b@.subrange(i as int, i + 3);
    assert(s[0] == b@[i as int] && s[1] == b@[i + 1] && s[2] == b@[i + 2]);
    let r: bool = b[i] == x && b[i + 1] == y && b[i + 2] == z;
    if r {
        assert(s =~= seq![x, y, z]);
    }
    r
}

fn quad_at(b: &[u8], i: usize, w: u8, x: u8, y: u8, z: u8) -> (r: bool)
    requires
        i + 4 <= b@.len(),
    ensures
        r == stands_at(b@, seq![w, x, y, z], i as int),
{
    let ghost s = b@.subrange(i as int, i + 4);
    assert(s[0] == b@[i as int] && s[1] == b@[i + 1] && s[2] == b@[i + 2] && s[3] == b@[i + 3]);
    let r: bool = b[i] == w && b[i + 1] == x && b[i + 2] == y && b[i + 3] == z;
    if r {
        assert(s =~= seq![w, x, y, z]);
    }
    r
}

/// Whether a block looks like machine code.
pub fn has_exec_markers(b: &[u8]) -> (r: bool)
    ensures
        r == code_like(b@),
{
    let n: usize = b.len();
    let mut seen: bool = false;
    let ghost mut first: int = 0;
    let mut i: usize = 0;
    while n >= 3 && i <= n - 3
        invariant
            n == b@.len(),
            i <= n,
            seen ==> 0 <= first < i && prologue_at(b@, first),
            forall|k: int| 0 <= k < i && prologue_at(b@, k) ==> seen && k == first,
        decreases n - i,
    {
        if triple_at(b, i, 0x55, 0x89, 0xE5) || triple_at(b, i, 0x48, 0x89, 0xE5) {
            assert(prologue_at(b@, i as int));
            if seen {
                assert(prologue_at(b@, first));
                return true;
            }
            seen = true;
            proof {
                first = i as int;
            }
        }
        i = i + 1;
    }
    assert forall|k: int| prologue_at(b@, k) implies k == first by {
        assert(k + 3 <= n);
    }
    let mut j: usize = 0;
    while n >= 4 && j <= n - 4
        invariant
            n == b@.len(),
            j <= n,
            forall|k: int| prologue_at(b@, k) ==> k == first,
            forall|k: int| 0 <= k < j ==> !magic_at(b@, k),
        decreases n - j,
    {
        if quad_at(b, j, 0x7F, 0x45, 0x4C, 0x46) || quad_at(b, j, 0xCF, 0xFA, 0xED, 0xFE)
            || quad_at(b, j, 0x4D, 0x5A, 0x90, 0x00) {
            assert(magic_at(b@, j as int));
            return true;
        }
        j = j + 1;
    }
    assert forall|k: int| !magic_at(b@, k) by {
        if magic_at(b@, k) {
            assert(k + 4 <= n);
        }
    }
    false
}

/// Classifies a block with given measures. An empty block is `Random`, so it is
/// stored and never modelled.
pub fn classify(buf: &[u8], measures: Measures) -> (kind: BlockKind)
    ensures
        kind == kind_of(buf@, measures),
{
    if buf.len() < 32 || measures.random {
        BlockKind::Random
    } else if measures.printable {
        BlockKind::Text
    } else if has_exec_markers(buf) {
        BlockKind::Exec
    } else {
        BlockKind::Binary
    }
}

} // verus!
