//! Match search with optimal parsing, and match history.

use crate::classify::BlockKind;
use crate::model::lzp;
use crate::model::lzp::{Links, Lzp};
use vstd::prelude::*;

verus! {

/// How far back a match may reach: 4 MiB.
pub const MATCH_WINDOW: usize = 4194304;

/// How much history is kept for matches across blocks: 4 MiB.
pub const MATCH_HIST_CAP: usize = 4194304;

/// The longest match that is taken.
pub const MAX_MATCH: usize = 255;

/// The cost of a match record in bits: one of flag, eight of length, 24 of
/// distance.
pub const MATCH_OVERHEAD_BITS: u64 = 33;

/// The shortest match that is taken in a block of a kind.
pub open spec fn min_len_of(kind: BlockKind) -> int {
    if kind == BlockKind::Text {
        12
    } else {
        16
    }
}

/// The shortest match that is taken in a block of a kind.
pub fn match_min_len(kind: BlockKind) -> (n: usize)
    ensures
        n == min_len_of(kind),
{
    if kind == BlockKind::Text {
        12
    } else {
        16
    }
}

/// What coding a byte is taken to cost, in bits.
pub open spec fn literal_bits(kind: BlockKind) -> int {
    if kind == BlockKind::Binary || kind == BlockKind::Exec {
        5
    } else {
        4
    }
}

/// A match: `len` bytes from place `pos` of a block on repeat those `dist` bytes
/// before.
#[derive(Debug, Clone, Copy, PartialEq, Eq, Structural)]
pub struct MatchRun {
    pub pos: usize,
    pub len: usize,
    pub dist: usize,
}

/// A match as contracts speak of it.
#[verifier::ext_equal]
pub struct Run {
    pub pos: int,
    pub len: int,
    pub dist: int,
}

impl View for MatchRun {
    type V = Run;

    open spec fn view(&self) -> Run {
        Run { pos: self.pos as int, len: self.len as int, dist: self.dist as int }
    }
}

/// Matches as contracts speak of them.
pub open spec fn run_views(v: Seq<MatchRun>) -> Seq<Run> {
    Seq::new(v.len(), |i: int| v[i]@)
}

/// The match finder's tables once the places before `k` are entered.
pub open spec fn trained(d: Seq<u8>, k: int) -> Links
    decreases k,
{
    if k <= 0 {
        lzp::no_links()
    } else {
        lzp::linked(trained(d, k - 1), d, k - 1)
    }
}

/// The smaller of two numbers.
pub open spec fn least(a: int, b: int) -> int {
    if a < b {
        a
    } else {
        b
    }
}

/// The match that may start at place `i` of a block that follows `hist`: its
/// length, cut to the block, and its distance.
pub open spec fn usable_match(hist: Seq<u8>, block: Seq<u8>, min: int, i: int) -> Option<
    (int, int),
> {
    let d = hist + block;
    let at = hist.len() + i;
    if i + 1 < min || i + min > block.len() {
        None
    } else {
        match lzp::match_of(trained(d, at + 1), lzp::DEFAULT_WINDOW as int, d, at) {
            None => None,
            Some((full, dist)) => {
                let len = least(least(full, MAX_MATCH as int), block.len() - i);
                if len >= min && dist > 0 && dist <= MATCH_WINDOW {
                    Some((len, dist))
                } else {
                    None
                }
            },
        }
    }
}

/// The least cost of coding a block from place `i` on, given the match that may
/// start at each place.
pub open spec fn least_cost(found: Seq<Option<(int, int)>>, bits: int, i: int) -> int
    decreases
        if i < found.len() {
            found.len() - i
        } else {
            0
        },
{
    if i < 0 || i >= found.len() {
        0
    } else {
        let literal = bits + least_cost(found, bits, i + 1);
        match found[i] {
            Some((len, _)) => if len > 0 {
                least(literal, MATCH_OVERHEAD_BITS + least_cost(found, bits, i + len))
            } else {
                literal
            },
            None => literal,
        }
    }
}

/// Whether the match at place `i` is taken: it must cost less than a literal.
pub open spec fn is_taken(found: Seq<Option<(int, int)>>, bits: int, i: int) -> bool {
    found[i] matches Some(m) && m.0 > 0 && MATCH_OVERHEAD_BITS + least_cost(found, bits, i + m.0)
        < bits + least_cost(found, bits, i + 1)
}

/// The matches that are taken from place `i` on.
pub open spec fn parsed(found: Seq<Option<(int, int)>>, bits: int, i: int) -> Seq<Run>
    decreases
        if i < found.len() {
            found.len() - i
        } else {
            0
        },
{
    if i < 0 || i >= found.len() {
        Seq::empty()
    } else if is_taken(found, bits, i) {
        let (len, dist) = found[i].unwrap();
        seq![Run { pos: i, len, dist }] + parsed(found, bits, i + len)
    } else {
        parsed(found, bits, i + 1)
    }
}

/// The match that may start at each place of a block.
pub open spec fn usable_matches(hist: Seq<u8>, block: Seq<u8>, min: int) -> Seq<
    Option<(int, int)>,
> {
    Seq::new(block.len(), |i: int| usable_match(hist, block, min, i))
}

/// The matches of a block that follows `hist`.
pub open spec fn scanned(hist: Seq<u8>, block: Seq<u8>, kind: BlockKind) -> Seq<Run> {
    parsed(usable_matches(hist, block, min_len_of(kind)), literal_bits(kind), 0)
}

/// Whether matches are in order from place `from` on, do not overlap, lie within
/// the block and repeat what stands before them, in the block or in `hist`.
pub open spec fn runs_fit(hist: Seq<u8>, block: Seq<u8>, runs: Seq<Run>, from: int) -> bool
    decreases runs.len(),
{
    if runs.len() == 0 {
        from <= block.len()
    } else {
        let r = runs[0];
        &&& from <= r.pos
        &&& 0 < r.len <= MAX_MATCH
        &&& r.pos + r.len <= block.len()
        &&& 0 < r.dist <= MATCH_WINDOW
        &&& lzp::repeats(hist + block, hist.len() + r.pos, r.len, r.dist)
        &&& runs_fit(hist, block, runs.drop_first(), r.pos + r.len)
    }
}

/// Whether a found match may be taken.
spec fn found_ok(hist: Seq<u8>, block: Seq<u8>, m: Option<(int, int)>, i: int) -> bool {
    m matches Some((len, dist)) ==> {
        &&& 0 < len <= MAX_MATCH
        &&& i + len <= block.len()
        &&& 0 < dist <= MATCH_WINDOW
        &&& lzp::repeats(hist + block, hist.len() + i, len, dist)
    }
}

proof fn lemma_usable(hist: Seq<u8>, block: Seq<u8>, min: int, i: int)
    requires
        0 <= i < block.len(),
        min >= 1,
    ensures
        found_ok(hist, block, usable_match(hist, block, min, i), i),
{
    let d = hist + block;
    let at = hist.len() + i;
    lzp::law_match_repeats(trained(d, at + 1), lzp::DEFAULT_WINDOW as int, d, at);
    if let Some((len, dist)) = usable_match(hist, block, min, i) {
        let (full, dist2) = lzp::match_of(
            trained(d, at + 1),
            lzp::DEFAULT_WINDOW as int,
            d,
            at,
        ).unwrap();
        assert(dist == dist2 && len <= full);
        assert(lzp::repeats(d, at, full, dist));
        assert forall|k: int| 0 <= k < len implies #[trigger] d[at + k] == d[at + k - dist] by {}
        assert(lzp::repeats(d, at, len, dist));
    }
}

proof fn lemma_parsed(
    hist: Seq<u8>,
    block: Seq<u8>,
    found: Seq<Option<(int, int)>>,
    bits: int,
    from: int,
    i: int,
)
    requires
        found.len() == block.len(),
        forall|k: int| 0 <= k < found.len() ==> found_ok(hist, block, #[trigger] found[k], k),
        0 <= from <= i <= block.len(),
    ensures
        runs_fit(hist, block, parsed(found, bits, i), from),
    decreases found.len() - i,
{
    if i < found.len() {
        assert(found_ok(hist, block, found[i], i));
        if is_taken(found, bits, i) {
            let (len, dist) = found[i].unwrap();
            let rest = parsed(found, bits, i + len);
            lemma_parsed(hist, block, found, bits, i + len, i + len);
            assert((seq![Run { pos: i, len, dist }] + rest).drop_first() =~= rest);
        } else {
            lemma_parsed(hist, block, found, bits, from, i + 1);
        }
    }
}

/// The matches of a block are in order, do not overlap and repeat what stands
/// before them.
pub proof fn law_scanned_fit(hist: Seq<u8>, block: Seq<u8>, kind: BlockKind)
    ensures
        runs_fit(hist, block, scanned(hist, block, kind), 0),
{
    let min = min_len_of(kind);
    let found = usable_matches(hist, block, min);
    assert forall|k: int| 0 <= k < found.len() implies found_ok(
        hist,
        block,
        #[trigger] found[k],
        k,
    ) by {
        lemma_usable(hist, block, min, k);
    }
    lemma_parsed(hist, block, found, literal_bits(kind), 0, 0);
}

/// The latest place of a context is at the head of its chain.
proof fn lemma_head(d: Seq<u8>, k: int, p: int)
    requires
        4 <= p < k <= d.len() + 1,
        d.len() <= u32::MAX,
        p < d.len(),
        forall|q: int|
            p < q < k ==> #[trigger] lzp::context_at(d, q) != lzp::context_at(d, p),
    ensures
        trained(d, k).heads.len() == lzp::TABLE_SIZE,
        trained(d, k).next.len() == lzp::NEXT_SIZE,
        trained(d, k).heads[lzp::context_at(d, p)] == p,
    decreases k,
{
    lemma_trained_len(d, k);
    lemma_trained_len(d, k - 1);
    if k - 1 > p {
        lemma_head(d, k - 1, p);
        assert(lzp::context_at(d, k - 1) != lzp::context_at(d, p));
    }
}

proof fn lemma_trained_len(d: Seq<u8>, k: int)
    ensures
        trained(d, k).heads.len() == lzp::TABLE_SIZE,
        trained(d, k).next.len() == lzp::NEXT_SIZE,
    decreases k,
{
    if k > 0 {
        lemma_trained_len(d, k - 1);
    }
}

/// A repeat that lies up to 4 MiB back is offered to the parse: where `len` bytes,
/// at least the shortest match and at most 255, stand at place `i` of the block as at
/// place `p` of history and block together, behind the same four bytes, and no later
/// place is on that chain, a match of at least that length is found at `i`.
pub proof fn law_repeat_is_offered(
    hist: Seq<u8>,
    block: Seq<u8>,
    kind: BlockKind,
    i: int,
    p: int,
    len: int,
)
    requires
        hist.len() + block.len() <= u32::MAX,
        (if kind == BlockKind::Text {
            12
        } else {
            16int
        }) <= len <= 255,
        kind == BlockKind::Text && i >= 11 || i >= 15,
        i + len <= block.len(),
        4 <= p < hist.len() + i,
        hist.len() + i - p <= 0x40_0000,
        (hist + block).subrange(p - 4, p + len) == (hist + block).subrange(
            hist.len() + i - 4,
            hist.len() + i + len,
        ),
        forall|q: int|
            p < q < hist.len() + i ==> !#[trigger] lzp::same_chain(
                hist + block,
                q,
                hist.len() + i,
            ),
    ensures
        usable_match(hist, block, min_len_of(kind), i) matches Some(m) && len <= m.0 <= 255 && 0
            < m.1 <= 0x40_0000,
{
    let d = hist + block;
    let at = hist.len() + i;
    let a = d.subrange(p - 4, p + len);
    let b = d.subrange(at - 4, at + len);
    assert forall|j: int| at <= j < at + len implies #[trigger] d[j] == d[j - at + p] by {
        assert(a[4 + j - at] == b[4 + j - at]);
    }
    assert(a[0] == b[0] && a[1] == b[1] && a[2] == b[2]);
    assert(lzp::same_chain(d, p, at));
    lzp::law_same_chain(d, p, at);
    assert forall|q: int| p < q < at implies #[trigger] lzp::context_at(d, q) != lzp::context_at(
        d,
        p,
    ) by {
        assert(!lzp::same_chain(d, q, at));
        lzp::law_same_chain(d, q, at);
    }
    lemma_head(d, at as int, p);
    lemma_trained_len(d, at as int);
    let t = trained(d, at + 1);
    assert(t == lzp::linked(trained(d, at as int), d, at as int));
    lzp::law_next_on_chain_is_tried(t, lzp::DEFAULT_WINDOW as int, d, at as int, p, len);
}

/// How many bytes matches cover.
pub open spec fn covered(runs: Seq<Run>) -> int
    decreases runs.len(),
{
    if runs.len() == 0 {
        0
    } else {
        runs[0].len + covered(runs.drop_first())
    }
}

proof fn lemma_parsed_cost(found: Seq<Option<(int, int)>>, bits: int, i: int)
    requires
        0 <= i <= found.len(),
        forall|k: int|
            0 <= k < found.len() ==> (#[trigger] found[k] matches Some(m) ==> 0 < m.0 && k + m.0
                <= found.len()),
    ensures
        least_cost(found, bits, i) == 33 * parsed(found, bits, i).len() + bits * (found.len() - i
            - covered(parsed(found, bits, i))),
    decreases found.len() - i,
{
    if i < found.len() {
        let n = found.len() as int;
        if is_taken(found, bits, i) {
            let (len, dist) = found[i].unwrap();
            let rest = parsed(found, bits, i + len);
            lemma_parsed_cost(found, bits, i + len);
            let all = seq![Run { pos: i, len, dist }] + rest;
            assert(all.drop_first() =~= rest);
            assert(n - i - covered(all) == n - (i + len) - covered(rest));
        } else {
            let rest = parsed(found, bits, i + 1);
            lemma_parsed_cost(found, bits, i + 1);
            let c = n - (i + 1) - covered(rest);
            assert(bits * (c + 1) == bits * c + bits) by (nonlinear_arith);
        }
    } else {
        assert(bits * 0 == 0) by (nonlinear_arith);
    }
}

proof fn lemma_one_match(found: Seq<Option<(int, int)>>, bits: int, i: int, j: int)
    requires
        0 <= i <= j <= found.len(),
        forall|k: int|
            0 <= k < found.len() ==> (#[trigger] found[k] matches Some(m) ==> 0 < m.0 && k + m.0
                <= found.len()),
    ensures
        least_cost(found, bits, i) <= bits * (j - i) + least_cost(found, bits, j),
    decreases j - i,
{
    if i < j {
        lemma_one_match(found, bits, i + 1, j);
        assert(bits * (j - i) == bits * (j - (i + 1)) + bits) by (nonlinear_arith);
    } else {
        assert(bits * 0 == 0) by (nonlinear_arith);
    }
}

/// The cost of coding a block with its matches, at 33 bits for a match and 5 bits
/// for a byte of binary data or code, 4 for another one, is at most that of coding
/// it with any one of the matches that are offered, and that of coding it without.
/// So where a match is offered, one is taken.
pub proof fn law_offer_is_used(hist: Seq<u8>, block: Seq<u8>, kind: BlockKind, i: int)
    requires
        0 <= i < block.len(),
        usable_match(hist, block, min_len_of(kind), i) is Some,
    ensures
        ({
            let runs = scanned(hist, block, kind);
            let bits: int = if kind == BlockKind::Binary || kind == BlockKind::Exec {
                5
            } else {
                4
            };
            let len = usable_match(hist, block, min_len_of(kind), i).unwrap().0;
            let cost = 33 * runs.len() + bits * (block.len() - covered(runs));
            &&& cost <= bits * (block.len() - len) + 33
            &&& cost < bits * block.len()
            &&& runs.len() > 0
        }),
{
    let min = min_len_of(kind);
    let bits = literal_bits(kind);
    let found = usable_matches(hist, block, min);
    let n = found.len() as int;
    assert forall|k: int| 0 <= k < found.len() implies (#[trigger] found[k] matches Some(m) ==> 0
        < m.0 && k + m.0 <= found.len()) by {
        lemma_usable(hist, block, min, k);
    }
    lemma_usable(hist, block, min, i);
    let len = found[i].unwrap().0;
    let runs = scanned(hist, block, kind);
    lemma_parsed_cost(found, bits, 0);
    lemma_one_match(found, bits, 0, i);
    law_parse_optimal(found, bits, i);
    lemma_one_match(found, bits, i + len, n);
    assert(least_cost(found, bits, n) == 0);
    assert(len >= min);
    if runs.len() == 0 {
        assert(covered(runs) == 0);
    }
}

/// A repeat is taken: a block with a repeat as above is coded, with its matches, at
/// most as dearly as with that repeat alone.
pub proof fn law_repeat_is_used(
    hist: Seq<u8>,
    block: Seq<u8>,
    kind: BlockKind,
    i: int,
    p: int,
    len: int,
)
    requires
        hist.len() + block.len() <= u32::MAX,
        (if kind == BlockKind::Text {
            12
        } else {
            16int
        }) <= len <= 255,
        kind == BlockKind::Text && i >= 11 || i >= 15,
        i + len <= block.len(),
        4 <= p < hist.len() + i,
        hist.len() + i - p <= 0x40_0000,
        (hist + block).subrange(p - 4, p + len) == (hist + block).subrange(
            hist.len() + i - 4,
            hist.len() + i + len,
        ),
        forall|q: int|
            p < q < hist.len() + i ==> !#[trigger] lzp::same_chain(
                hist + block,
                q,
                hist.len() + i,
            ),
    ensures
        ({
            let runs = scanned(hist, block, kind);
            let bits: int = if kind == BlockKind::Binary || kind == BlockKind::Exec {
                5
            } else {
                4
            };
            &&& runs.len() > 0
            &&& 33 * runs.len() + bits * (block.len() - covered(runs)) <= bits * (block.len()
                - len) + 33
        }),
{
    law_repeat_is_offered(hist, block, kind, i, p, len);
    law_offer_is_used(hist, block, kind, i);
}

/// The least cost from a place on is at most that of a literal there, and at most
/// that of the match there, and it is that of the one that is taken.
pub proof fn law_parse_optimal(found: Seq<Option<(int, int)>>, bits: int, i: int)
    requires
        0 <= i < found.len(),
    ensures
        least_cost(found, bits, i) <= bits + least_cost(found, bits, i + 1),
        found[i] matches Some(m) ==> m.0 > 0 ==> least_cost(found, bits, i) <= MATCH_OVERHEAD_BITS
            + least_cost(found, bits, i + m.0),
        least_cost(found, bits, i) == if is_taken(found, bits, i) {
            MATCH_OVERHEAD_BITS + least_cost(found, bits, i + found[i].unwrap().0)
        } else {
            bits + least_cost(found, bits, i + 1)
        },
{
}

/// The cost of coding from place `i` on, where the matches to take are given by
/// the places where they start.
pub open spec fn cost_of(
    found: Seq<Option<(int, int)>>,
    bits: int,
    take: spec_fn(int) -> bool,
    i: int,
) -> int
    decreases
        if i < found.len() {
            found.len() - i
        } else {
            0
        },
{
    if i < 0 || i >= found.len() {
        0
    } else {
        match found[i] {
            Some((len, _)) => if len > 0 && take(i) {
                MATCH_OVERHEAD_BITS + cost_of(found, bits, take, i + len)
            } else {
                bits + cost_of(found, bits, take, i + 1)
            },
            None => bits + cost_of(found, bits, take, i + 1),
        }
    }
}

/// Whatever matches are taken, coding never costs less than the least cost, which
/// is that of the matches that the search takes.
pub proof fn law_no_cheaper_choice(
    found: Seq<Option<(int, int)>>,
    bits: int,
    take: spec_fn(int) -> bool,
    i: int,
)
    ensures
        least_cost(found, bits, i) <= cost_of(found, bits, take, i),
        least_cost(found, bits, i) == cost_of(
            found,
            bits,
            |k: int| is_taken(found, bits, k),
            i,
        ),
    decreases
        if i < found.len() {
            found.len() - i
        } else {
            0
        },
{
    if 0 <= i < found.len() {
        law_no_cheaper_choice(found, bits, take, i + 1);
        match found[i] {
            Some((len, _)) => {
                if len > 0 {
                    law_no_cheaper_choice(found, bits, take, i + len);
                }
            },
            None => {},
        }
    }
}

/// Whether found lengths and distances are the given matches.
spec fn found_is(v: Seq<Option<(usize, usize)>>, s: Seq<Option<(int, int)>>) -> bool {
    &&& v.len() == s.len()
    &&& forall|i: int|
        0 <= i < v.len() ==> match #[trigger] v[i] {
            Some((len, dist)) => s[i] == Some((len as int, dist as int)),
            None => s[i] is None,
        }
}

fn find_all(hist: &[u8], block: &[u8], min: usize) -> (found: Vec<Option<(usize, usize)>>)
    requires
        hist@.len() + block@.len() <= u32::MAX,
        1 <= min <= 16,
    ensures
        found_is(found@, usable_matches(hist@, block@, min as int)),
{
    let base: usize = hist.len();
    let n: usize = block.len();
    let mut combined: Vec<u8> = vstd::slice::slice_to_vec(hist);
    crate::bytes::push_slice(&mut combined, block);
    let ghost d = hist@ + block@;
    let total: usize = combined.len();
    let mut finder = Lzp::new();
    let mut found: Vec<Option<(usize, usize)>> = Vec::new();
    let ghost goal = usable_matches(hist@, block@, min as int);
    let mut i: usize = 0;
    while i < total
        invariant
            i <= total,
            total == base + n == d.len(),
            total <= u32::MAX,
            base == hist@.len(),
            n == block@.len(),
            d == hist@ + block@,
            combined@ == d,
            1 <= min <= 16,
            goal == usable_matches(hist@, block@, min as int),
            finder.tables_wf(),
            finder.reach() == lzp::DEFAULT_WINDOW,
            finder.links() == trained(d, i as int),
            found@.len() == if i < base {
                0
            } else {
                i - base
            },
            forall|k: int|
                0 <= k < found@.len() ==> match #[trigger] found@[k] {
                    Some((len, dist)) => goal[k] == Some((len as int, dist as int)),
                    None => goal[k] is None,
                },
        decreases total - i,
    {
        finder.train_at(combined.as_slice(), i);
        if i >= base {
            let b: usize = i - base;
            let mut here: Option<(usize, usize)> = None;
            if b + 1 >= min && min <= n - b {
                match finder.best_match(combined.as_slice(), i) {
                    Some((full, dist)) => {
                        let mut len: usize = full;
                        if len > MAX_MATCH {
                            len = MAX_MATCH;
                        }
                        if len > n - b {
                            len = n - b;
                        }
                        if len >= min && dist > 0 && dist <= MATCH_WINDOW {
                            here = Some((len, dist));
                        }
                    },
                    None => {},
                }
            }
            found.push(here);
        }
        i = i + 1;
    }
    found
}

/// The least costs from each place on.
fn find_costs(found: &Vec<Option<(usize, usize)>>, bits: u64, Ghost(s): Ghost<
    Seq<Option<(int, int)>>,
>) -> (cost: Vec<u64>)
    requires
        found_is(found@, s),
        forall|i: int|
            0 <= i < s.len() ==> (#[trigger] s[i] matches Some(m) ==> 0 < m.0 && i + m.0
                <= s.len()),
        s.len() <= u32::MAX,
        bits <= 5,
    ensures
        cost@.len() == s.len() + 1,
        forall|i: int| 0 <= i <= s.len() ==> #[trigger] cost@[i] == least_cost(s, bits as int, i),
        forall|i: int| 0 <= i <= s.len() ==> #[trigger] cost@[i] <= bits * (s.len() - i),
{
    let n: usize = found.len();
    let mut cost: Vec<u64> = Vec::new();
    let mut k: usize = 0;
    while k < n
        invariant
            k <= n,
            cost@.len() == k,
            forall|j: int| 0 <= j < k ==> #[trigger] cost@[j] == 0,
        decreases n - k,
    {
        cost.push(0);
        k = k + 1;
    }
    cost.push(0);
    let mut i: usize = n;
    while i > 0
        invariant
            i <= n,
            n == s.len() == found@.len(),
            n <= u32::MAX,
            bits <= 5,
            found_is(found@, s),
            forall|j: int|
                0 <= j < s.len() ==> (#[trigger] s[j] matches Some(m) ==> 0 < m.0 && j + m.0
                    <= s.len()),
            cost@.len() == n + 1,
            forall|j: int| i <= j <= n ==> #[trigger] cost@[j] == least_cost(s, bits as int, j),
            forall|j: int| i <= j <= n ==> #[trigger] cost@[j] <= bits * (n - j),
        decreases i,
    {
        i = i - 1;
        assert(cost@[i + 1] == least_cost(s, bits as int, i + 1));
        assert(bits * (n - (i + 1)) + bits == bits * (n - i)) by (nonlinear_arith);
        assert(bits * (n - i) <= 5 * 4294967295) by (nonlinear_arith)
            requires
                bits <= 5,
                0 <= n - i <= 4294967295,
        ;
        let mut best: u64 = bits + cost[i + 1];
        match found[i] {
            Some((len, _)) => {
                assert(s[i as int] matches Some(m) && m.0 == len);
                assert(cost@[i + len] == least_cost(s, bits as int, i + len));
                assert(cost@[i + len] <= bits * (n - (i + len)));
                assert(bits * (n - (i + len)) <= 5 * 4294967295) by (nonlinear_arith)
                    requires
                        bits <= 5,
                        0 <= n - (i + len) <= 4294967295,
                ;
                let taken: u64 = MATCH_OVERHEAD_BITS + cost[i + len];
                if taken < best {
                    best = taken;
                }
            },
            None => {
                assert(s[i as int] is None);
            },
        }
        cost.set(i, best);
    }
    cost
}

/// Finds the matches of a block that follows `hist`: the best match at each
/// place, then the parse of least cost.
pub fn scan_matches(block: &[u8], kind: BlockKind, hist: &[u8]) -> (runs: Vec<MatchRun>)
    requires
        hist@.len() + block@.len() <= u32::MAX,
    ensures
        run_views(runs@) == scanned(hist@, block@, kind),
{
    let min: usize = match_min_len(kind);
    let bits: u64 = if kind == BlockKind::Binary || kind == BlockKind::Exec {
        5
    } else {
        4
    };
    let ghost s = usable_matches(hist@, block@, min as int);
    let found = find_all(hist, block, min);
    assert forall|i: int| 0 <= i < s.len() implies (#[trigger] s[i] matches Some(m) ==> 0 < m.0 && i
        + m.0 <= s.len()) by {
        lemma_usable(hist@, block@, min as int, i);
    }
    let cost = find_costs(&found, bits, Ghost(s));
    let ghost goal = parsed(s, bits as int, 0);
    let n: usize = block.len();
    let mut runs: Vec<MatchRun> = Vec::new();
    let mut i: usize = 0;
    assert(run_views(runs@) + parsed(s, bits as int, 0) =~= goal);
    while i < n
        invariant
            i <= n,
            n == s.len() == found@.len(),
            n <= u32::MAX,
            bits <= 5,
            found_is(found@, s),
            forall|j: int|
                0 <= j < s.len() ==> (#[trigger] s[j] matches Some(m) ==> 0 < m.0 && j + m.0
                    <= s.len()),
            cost@.len() == n + 1,
            forall|j: int| 0 <= j <= n ==> #[trigger] cost@[j] == least_cost(s, bits as int, j),
            forall|j: int| 0 <= j <= n ==> #[trigger] cost@[j] <= bits * (n - j),
            run_views(runs@) + parsed(s, bits as int, i as int) == goal,
        decreases n - i,
    {
        let mut step: usize = 1;
        let ghost before = run_views(runs@);
        assert(cost@[i + 1] == least_cost(s, bits as int, i + 1));
        assert(bits * (n - (i + 1)) <= 5 * 4294967295) by (nonlinear_arith)
            requires
                bits <= 5,
                0 <= n - (i + 1) <= 4294967295,
        ;
        match found[i] {
            Some((len, dist)) => {
                assert(s[i as int] == Some((len as int, dist as int)));
                assert(cost@[i + len] == least_cost(s, bits as int, i + len));
                assert(bits * (n - (i + len)) <= 5 * 4294967295) by (nonlinear_arith)
                    requires
                        bits <= 5,
                        0 <= n - (i + len) <= 4294967295,
                ;
                assert(cost@[i + len] <= bits * (n - (i + len)));
                if MATCH_OVERHEAD_BITS + cost[i + len] < bits + cost[i + 1] {
                    assert(is_taken(s, bits as int, i as int));
                    runs.push(MatchRun { pos: i, len, dist });
                    step = len;
                    let ghost r = Run { pos: i as int, len: len as int, dist: dist as int };
                    assert(run_views(runs@) =~= before.push(r));
                    assert(run_views(runs@) + parsed(s, bits as int, i + len) =~= before + (seq![r]
                        + parsed(s, bits as int, i + len)));
                } else {
                    assert(!is_taken(s, bits as int, i as int));
                }
            },
            None => {
                assert(s[i as int] is None);
            },
        }
        i = i + step;
    }
    assert(run_views(runs@) =~= goal);
    runs
}

/// Where the `len` bytes in front of `pos` are found again, going back from
/// there within the window: the distance from `pos`, or 0. The bytes are found
/// where they stand, if the window reaches that far.
pub open spec fn match_distance(pos: int, len: int) -> int {
    if pos < len || len == 0 || len > MATCH_WINDOW {
        0
    } else {
        len
    }
}

fn same_bytes(data: &[u8], a: usize, b: usize, len: usize) -> (r: bool)
    requires
        a + len <= data@.len(),
        b + len <= data@.len(),
    ensures
        r == (data@.subrange(a as int, a + len) == data@.subrange(b as int, b + len)),
{
    let ghost x = data@.subrange(a as int, a + len);
    let ghost y = data@.subrange(b as int, b + len);
    let n: usize = data.len();
    let mut k: usize = 0;
    while k < len
        invariant
            k <= len,
            n == data@.len(),
            a + len <= n,
            b + len <= n,
            x == data@.subrange(a as int, a + len),
            y == data@.subrange(b as int, b + len),
            forall|j: int| 0 <= j < k ==> x[j] == y[j],
        decreases len - k,
    {
        assert(x[k as int] == data@[a + k] && y[k as int] == data@[b + k]);
        if data[a + k] != data[b + k] {
            assert(x != y);
            return false;
        }
        k = k + 1;
    }
    assert(x =~= y);
    true
}

/// The distance at which the `len` bytes in front of `pos` are found, going
/// back, or 0.
pub fn find_match_distance(data: &[u8], pos: usize, len: usize) -> (d: usize)
    requires
        pos <= data@.len(),
    ensures
        d == match_distance(pos as int, len as int),
{
    if pos < len || len == 0 {
        return 0;
    }
    let start: usize = if pos > MATCH_WINDOW {
        pos - MATCH_WINDOW
    } else {
        0
    };
    let needle: usize = pos - len;
    let mut back: usize = needle + 1;
    while back > start
        invariant
            needle == pos - len,
            0 < len <= pos <= data@.len(),
            back <= needle + 1,
            start == if pos > MATCH_WINDOW {
                pos - MATCH_WINDOW
            } else {
                0
            },
            back == needle + 1,
        decreases back,
    {
        back = back - 1;
        if same_bytes(data, back, needle, len) {
            return pos - back;
        }
    }
    0
}

/// History with more bytes behind it, cut at the front to its cap.
pub open spec fn extended(hist: Seq<u8>, d: Seq<u8>) -> Seq<u8> {
    crate::model::assembler::last_of(hist + d, MATCH_HIST_CAP as int)
}

/// Appends bytes to the history.
pub fn append_match_hist(hist: &mut Vec<u8>, data: &[u8])
    ensures
        final(hist)@ == extended(old(hist)@, data@),
{
    let ghost all = hist@ + data@;
    crate::bytes::push_slice(hist, data);
    if hist.len() > MATCH_HIST_CAP {
        let drop: usize = hist.len() - MATCH_HIST_CAP;
        let kept = vstd::slice::slice_to_vec(
            vstd::slice::slice_subrange(hist.as_slice(), drop, hist.len()),
        );
        *hist = kept;
        assert(hist@ =~= all.skip(drop as int));
    }
}

/// The byte `dist` places before the end of what is decoded, in `out` or in the
/// history in front of it; 0 where there is none.
pub open spec fn byte_before(hist: Seq<u8>, out: Seq<u8>, dist: int) -> u8 {
    if dist == 0 {
        0
    } else if dist <= out.len() {
        out[out.len() - dist]
    } else if dist - out.len() <= hist.len() {
        hist[hist.len() - (dist - out.len())]
    } else {
        0
    }
}

/// The byte `dist` places before the end of what is decoded.
pub fn match_byte_from_hist(hist: &[u8], out: &[u8], dist: u64) -> (b: u8)
    ensures
        b == byte_before(hist@, out@, dist as int),
{
    if dist == 0 {
        return 0;
    }
    let n: usize = out.len();
    let h: usize = hist.len();
    if dist <= n as u64 {
        out[n - dist as usize]
    } else {
        let into: u64 = dist - n as u64;
        if into <= h as u64 {
            hist[h - into as usize]
        } else {
            0
        }
    }
}

} // verus!
