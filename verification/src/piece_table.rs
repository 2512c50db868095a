//! Piece table text buffer.
//!
//! Two source buffers (`original` read-only, `add` append-only) and a sequence
//! of pieces that together describe the current content. Insert splits a
//! piece; delete removes or trims pieces. Both operations are O(piece count).
//!
//! A sorted `newline_offsets` vector tracks the positions of `'\n'` for line
//! queries by binary search.
//!
//! The content is modelled as its UTF-8 bytes (`Seq<u8>`); it is always valid
//! UTF-8, and every offset that an edit or a read names must fall on a char
//! boundary of it.
use std::borrow::Cow;
use std::ops::Range;
use vstd::prelude::*;
use vstd::slice::slice_subrange;
use vstd::string::StringSliceAdditionalSpecFns;
use vstd::utf8::*;

use crate::conversions::str_from_utf8;
use crate::text::{
    lemma_split_valid,
    lemma_newline_positions_delete, lemma_newline_positions_insert, shift,
    lemma_as_ints_push, as_ints,
    lemma_line_bounds, lemma_newline_positions, lemma_newline_positions_split,
    lemma_newline_positions_take, lemma_range_valid, line_bytes,
    line_count_of, line_start, newline_positions, same_positions,
};

verus! {



#[derive(Clone, Copy, Debug, PartialEq, Eq, Structural)]
enum Source {
    Original,
    Add,
}

#[derive(Clone, Copy, Debug)]
struct Piece {
    source: Source,
    /// Byte offset into the source buffer.
    offset: usize,
    /// Byte length of this piece.
    length: usize,
}

/// A piece table text buffer supporting efficient insert and delete.
///
/// # Line model
///
/// Every `\n` starts a new line. An empty buffer has 0 lines; a non-empty
/// buffer always has at least 1 line regardless of whether it ends with `\n`.
/// A trailing `\n` creates an empty final line (`line_count` = `\n` count + 1).
pub struct PieceTable {
    original: Vec<u8>,
    add: Vec<u8>,
    pieces: Vec<Piece>,
    /// Total byte length of the logical content.
    total_bytes: usize,
    /// Sorted byte positions of every `\n` in the logical content.
    newline_offsets: Vec<usize>,
}

spec fn src_of(orig: Seq<u8>, add: Seq<u8>, s: Source) -> Seq<u8> {
    match s {
        Source::Original => orig,
        Source::Add => add,
    }
}

spec fn piece_bytes(orig: Seq<u8>, add: Seq<u8>, p: Piece) -> Seq<u8> {
    src_of(orig, add, p.source).subrange(p.offset as int, p.offset + p.length)
}

spec fn piece_ok(orig: Seq<u8>, add: Seq<u8>, p: Piece) -> bool {
    0 < p.length && p.offset + p.length <= src_of(orig, add, p.source).len()
}

spec fn pieces_ok(orig: Seq<u8>, add: Seq<u8>, ps: Seq<Piece>) -> bool {
    forall|i: int| 0 <= i < ps.len() ==> piece_ok(orig, add, #[trigger] ps[i])
}

spec fn concat_pieces(orig: Seq<u8>, add: Seq<u8>, ps: Seq<Piece>) -> Seq<u8>
    decreases ps.len(),
{
    if ps.len() == 0 {
        Seq::empty()
    } else {
        concat_pieces(orig, add, ps.drop_last()) + piece_bytes(orig, add, ps.last())
    }
}

proof fn lemma_concat_append(orig: Seq<u8>, add: Seq<u8>, a: Seq<Piece>, b: Seq<Piece>)
    ensures
        concat_pieces(orig, add, a + b) =~= concat_pieces(orig, add, a) + concat_pieces(
            orig,
            add,
            b,
        ),
    decreases b.len(),
{
    if b.len() == 0 {
        assert(a + b =~= a);
    } else {
        lemma_concat_append(orig, add, a, b.drop_last());
        assert((a + b).drop_last() =~= a + b.drop_last());
    }
}

proof fn lemma_concat_single(orig: Seq<u8>, add: Seq<u8>, p: Piece)
    ensures
        concat_pieces(orig, add, seq![p]) =~= piece_bytes(orig, add, p),
{
    let ps = seq![p];
    assert(ps.drop_last() =~= Seq::<Piece>::empty());
    assert(ps.last() == p);
    assert(concat_pieces(orig, add, ps.drop_last()) =~= Seq::<u8>::empty());
}

/// Where piece `i` sits in the content.
proof fn lemma_piece_at(orig: Seq<u8>, add: Seq<u8>, ps: Seq<Piece>, i: int)
    requires
        0 <= i < ps.len(),
        pieces_ok(orig, add, ps),
    ensures
        ({
            let c = concat_pieces(orig, add, ps);
            let pre = concat_pieces(orig, add, ps.take(i));
            &&& concat_pieces(orig, add, ps.take(i + 1)) =~= pre + piece_bytes(orig, add, ps[i])
            &&& pre.len() + ps[i].length <= c.len()
            &&& c.subrange(0, pre.len() as int) =~= pre
            &&& c.subrange(pre.len() as int, pre.len() + ps[i].length) =~= piece_bytes(
                orig,
                add,
                ps[i],
            )
            &&& piece_bytes(orig, add, ps[i]).len() == ps[i].length
        }),
{
    assert(ps.take(i + 1).drop_last() =~= ps.take(i));
    assert(ps =~= ps.take(i + 1) + ps.skip(i + 1));
    lemma_concat_append(orig, add, ps.take(i + 1), ps.skip(i + 1));
    assert(piece_ok(orig, add, ps[i]));
}

/// The content length is the length of a full prefix.
proof fn lemma_take_all(orig: Seq<u8>, add: Seq<u8>, ps: Seq<Piece>)
    ensures
        concat_pieces(orig, add, ps.take(ps.len() as int)) == concat_pieces(orig, add, ps),
{
    assert(ps.take(ps.len() as int) =~= ps);
}

/// Where piece `i` starts in the content.
spec fn piece_start(orig: Seq<u8>, add: Seq<u8>, ps: Seq<Piece>, i: int) -> int {
    concat_pieces(orig, add, ps.take(i)).len() as int
}

/// Later pieces start no earlier.
proof fn lemma_piece_start_mono(orig: Seq<u8>, add: Seq<u8>, ps: Seq<Piece>, a: int, b: int)
    requires
        0 <= a <= b <= ps.len(),
        pieces_ok(orig, add, ps),
    ensures
        piece_start(orig, add, ps, a) <= piece_start(orig, add, ps, b),
    decreases b - a,
{
    if a < b {
        lemma_piece_at(orig, add, ps, b - 1);
        lemma_piece_start_mono(orig, add, ps, a, b - 1);
    }
}

/// Appending bytes to `add` does not change any piece that lies within it.
proof fn lemma_concat_add_grows(orig: Seq<u8>, add: Seq<u8>, add2: Seq<u8>, ps: Seq<Piece>)
    requires
        pieces_ok(orig, add, ps),
        add.len() <= add2.len(),
        add2.subrange(0, add.len() as int) == add,
    ensures
        pieces_ok(orig, add2, ps),
        concat_pieces(orig, add2, ps) == concat_pieces(orig, add, ps),
    decreases ps.len(),
{
    if ps.len() > 0 {
        assert(pieces_ok(orig, add, ps.drop_last()));
        lemma_concat_add_grows(orig, add, add2, ps.drop_last());
        let p = ps.last();
        assert(piece_ok(orig, add, ps[ps.len() - 1]));
        assert(piece_bytes(orig, add2, p) =~= piece_bytes(orig, add, p));
    }
}

/// Where a piece starts does not change when bytes are appended to the add
/// buffer.
proof fn lemma_piece_start_add_grows(
    orig: Seq<u8>,
    add: Seq<u8>,
    add2: Seq<u8>,
    ps: Seq<Piece>,
    k: int,
)
    requires
        pieces_ok(orig, add, ps),
        0 <= k <= ps.len(),
        add.len() <= add2.len(),
        add2.subrange(0, add.len() as int) == add,
    ensures
        piece_start(orig, add2, ps, k) == piece_start(orig, add, ps, k),
{
    lemma_pieces_ok_parts(orig, add, ps, k);
    lemma_concat_add_grows(orig, add, add2, ps.take(k));
}

/// An offset strictly inside piece `idx` is where no piece starts.
proof fn lemma_inside_piece(orig: Seq<u8>, add: Seq<u8>, ps: Seq<Piece>, idx: int, at: int)
    requires
        pieces_ok(orig, add, ps),
        0 <= idx < ps.len(),
        piece_start(orig, add, ps, idx) < at < piece_start(orig, add, ps, idx) + ps[idx].length,
    ensures
        forall|k: int| 0 <= k <= ps.len() ==> #[trigger] piece_start(orig, add, ps, k) != at,
{
    lemma_piece_at(orig, add, ps, idx);
    assert(piece_start(orig, add, ps, idx + 1) == piece_start(orig, add, ps, idx)
        + ps[idx].length);
    assert forall|k: int| 0 <= k <= ps.len() implies #[trigger] piece_start(orig, add, ps, k)
        != at by {
        if k <= idx {
            lemma_piece_start_mono(orig, add, ps, k, idx);
        } else {
            lemma_piece_start_mono(orig, add, ps, idx + 1, k);
        }
    }
}

/// Binary search: the first index whose element is at least `x`.
fn first_at_least(v: &Vec<usize>, x: usize) -> (r: usize)
    requires
        forall|i: int, j: int| 0 <= i < j < v@.len() ==> v@[i] < v@[j],
    ensures
        r <= v@.len(),
        forall|i: int| 0 <= i < r ==> v@[i] < x,
        forall|i: int| r <= i < v@.len() ==> v@[i] >= x,
{
    let mut lo: usize = 0;
    let mut hi: usize = v.len();
    while lo < hi
        invariant
            lo <= hi <= v@.len(),
            forall|i: int, j: int| 0 <= i < j < v@.len() ==> v@[i] < v@[j],
            forall|i: int| 0 <= i < lo ==> v@[i] < x,
            forall|i: int| hi <= i < v@.len() ==> v@[i] >= x,
        decreases hi - lo,
    {
        let mid = lo + (hi - lo) / 2;
        if v[mid] < x {
            lo = mid + 1;
        } else {
            hi = mid;
        }
    }
    lo
}

/// Appends the bytes of `b` to `v`.
fn push_bytes(v: &mut Vec<u8>, b: &[u8])
    ensures
        final(v)@ == old(v)@ + b@,
{
    let mut i: usize = 0;
    while i < b.len()
        invariant
            i <= b@.len(),
            v@ =~= old(v)@ + b@.subrange(0, i as int),
        decreases b@.len() - i,
    {
        v.push(b[i]);
        i = i + 1;
    }
    proof {
        assert(b@.subrange(0, b@.len() as int) =~= b@);
    }
}

/// The part of `c[start..end]` that lies before `pos`.
spec fn clip(c: Seq<u8>, start: int, end: int, pos: int) -> Seq<u8> {
    c.subrange(
        if start < pos {
            start
        } else {
            pos
        },
        if end < pos {
            end
        } else {
            pos
        },
    )
}

spec fn collected(only: Option<&[u8]>, owned: Seq<u8>) -> Seq<u8> {
    match only {
        Some(ch) => ch@,
        None => owned,
    }
}

proof fn lemma_clip_step(c: Seq<u8>, start: int, end: int, pos: int, pe: int, pb: Seq<u8>)
    requires
        0 <= start < end <= c.len(),
        0 <= pos < end,
        pos < pe <= c.len(),
        pe > start,
        c.subrange(pos, pe) == pb,
    ensures
        ({
            let lo = if start > pos {
                start - pos
            } else {
                0
            };
            let hi = if pe - pos < end - pos {
                pe - pos
            } else {
                end - pos
            };
            &&& 0 <= lo < hi <= pe - pos
            &&& clip(c, start, end, pos) + pb.subrange(lo, hi) =~= clip(c, start, end, pe)
        }),
{
}

/// A newline index is strictly increasing and lies within the text.
proof fn lemma_index_sorted(v: Seq<usize>, c: Seq<u8>)
    requires
        same_positions(v, newline_positions(c)),
    ensures
        forall|i: int, j: int| 0 <= i < j < v.len() ==> v[i] < v[j],
        v.len() <= c.len(),
        forall|i: int| 0 <= i < v.len() ==> v[i] < c.len(),
{
    lemma_newline_positions(c);
    let p = newline_positions(c);
    assert(as_ints(v).len() == v.len());
    assert forall|i: int, j: int| 0 <= i < j < v.len() implies v[i] < v[j] by {
        assert(as_ints(v)[i] == v[i] as int);
        assert(as_ints(v)[j] == v[j] as int);
    }
    assert forall|i: int| 0 <= i < v.len() implies v[i] < c.len() by {
        assert(as_ints(v)[i] == v[i] as int);
    }
}

proof fn lemma_concat_push(orig: Seq<u8>, add: Seq<u8>, ps: Seq<Piece>, p: Piece)
    ensures
        concat_pieces(orig, add, ps.push(p)) =~= concat_pieces(orig, add, ps) + piece_bytes(
            orig,
            add,
            p,
        ),
{
    assert(ps.push(p).drop_last() =~= ps);
}

proof fn lemma_pieces_ok_parts(orig: Seq<u8>, add: Seq<u8>, ps: Seq<Piece>, i: int)
    requires
        pieces_ok(orig, add, ps),
        0 <= i <= ps.len(),
    ensures
        pieces_ok(orig, add, ps.take(i)),
        pieces_ok(orig, add, ps.skip(i)),
{
    assert forall|k: int| 0 <= k < ps.take(i).len() implies piece_ok(
        orig,
        add,
        #[trigger] ps.take(i)[k],
    ) by {
        assert(ps.take(i)[k] == ps[k]);
    }
    assert forall|k: int| 0 <= k < ps.skip(i).len() implies piece_ok(
        orig,
        add,
        #[trigger] ps.skip(i)[k],
    ) by {
        assert(ps.skip(i)[k] == ps[k + i]);
    }
}

proof fn lemma_pieces_ok_concat(orig: Seq<u8>, add: Seq<u8>, a: Seq<Piece>, b: Seq<Piece>)
    requires
        pieces_ok(orig, add, a),
        pieces_ok(orig, add, b),
    ensures
        pieces_ok(orig, add, a + b),
{
    assert forall|k: int| 0 <= k < (a + b).len() implies piece_ok(
        orig,
        add,
        #[trigger] (a + b)[k],
    ) by {
        if k < a.len() {
            assert((a + b)[k] == a[k]);
        } else {
            assert((a + b)[k] == b[k - a.len()]);
        }
    }
}

/// Appending a new piece at the end of the sequence.
proof fn lemma_insert_at_end(orig: Seq<u8>, add: Seq<u8>, ps: Seq<Piece>, np: Piece, at: int)
    requires
        pieces_ok(orig, add, ps),
        piece_ok(orig, add, np),
        ps.len() == 0 || at == concat_pieces(orig, add, ps).len(),
        0 <= at <= concat_pieces(orig, add, ps).len(),
    ensures
        ({
            let c = concat_pieces(orig, add, ps);
            &&& pieces_ok(orig, add, ps.push(np))
            &&& concat_pieces(orig, add, ps.push(np)) =~= c.subrange(0, at) + piece_bytes(
                orig,
                add,
                np,
            ) + c.subrange(at, c.len() as int)
        }),
{
    lemma_concat_push(orig, add, ps, np);
    assert(pieces_ok(orig, add, seq![np]));
    lemma_pieces_ok_concat(orig, add, ps, seq![np]);
    assert(ps + seq![np] =~= ps.push(np));
    if ps.len() == 0 {
        assert(concat_pieces(orig, add, ps) =~= Seq::<u8>::empty());
    }
}

/// Inserting a new piece in front of piece `idx`, which starts at `at`.
proof fn lemma_insert_before(
    orig: Seq<u8>,
    add: Seq<u8>,
    ps: Seq<Piece>,
    np: Piece,
    idx: int,
    at: int,
)
    requires
        pieces_ok(orig, add, ps),
        piece_ok(orig, add, np),
        0 <= idx < ps.len(),
        concat_pieces(orig, add, ps.take(idx)).len() == at,
    ensures
        ({
            let c = concat_pieces(orig, add, ps);
            &&& pieces_ok(orig, add, ps.insert(idx, np))
            &&& concat_pieces(orig, add, ps.insert(idx, np)) =~= c.subrange(0, at) + piece_bytes(
                orig,
                add,
                np,
            ) + c.subrange(at, c.len() as int)
        }),
{
    let c = concat_pieces(orig, add, ps);
    let pre = ps.take(idx);
    let post = ps.skip(idx);
    assert(ps =~= pre + post);
    lemma_concat_append(orig, add, pre, post);
    lemma_pieces_ok_parts(orig, add, ps, idx);
    assert(ps.insert(idx, np) =~= pre + seq![np] + post);
    lemma_concat_append(orig, add, pre + seq![np], post);
    lemma_concat_append(orig, add, pre, seq![np]);
    lemma_concat_single(orig, add, np);
    assert(pieces_ok(orig, add, seq![np]));
    lemma_pieces_ok_concat(orig, add, pre, seq![np]);
    lemma_pieces_ok_concat(orig, add, pre + seq![np], post);
    assert(concat_pieces(orig, add, pre) =~= c.subrange(0, at));
    assert(concat_pieces(orig, add, post) =~= c.subrange(at, c.len() as int));
}

/// The two halves of a piece split at `off`.
proof fn lemma_split_piece(orig: Seq<u8>, add: Seq<u8>, p: Piece, off: int)
    requires
        piece_ok(orig, add, p),
        0 < off < p.length,
        orig.len() <= usize::MAX,
        add.len() <= usize::MAX,
    ensures
        ({
            let left = Piece { source: p.source, offset: p.offset, length: off as usize };
            let right = Piece {
                source: p.source,
                offset: (p.offset + off) as usize,
                length: (p.length - off) as usize,
            };
            &&& piece_ok(orig, add, left)
            &&& piece_ok(orig, add, right)
            &&& piece_bytes(orig, add, left) =~= piece_bytes(orig, add, p).subrange(0, off)
            &&& piece_bytes(orig, add, right) =~= piece_bytes(orig, add, p).subrange(
                off,
                p.length as int,
            )
        }),
{
}

/// The content of three pieces in a row.
proof fn lemma_concat_three(orig: Seq<u8>, add: Seq<u8>, a: Piece, b: Piece, c: Piece)
    ensures
        concat_pieces(orig, add, seq![a, b, c]) =~= piece_bytes(orig, add, a) + piece_bytes(
            orig,
            add,
            b,
        ) + piece_bytes(orig, add, c),
{
    assert(seq![a, b, c] =~= seq![a].push(b).push(c));
    lemma_concat_push(orig, add, seq![a].push(b), c);
    lemma_concat_push(orig, add, seq![a], b);
    lemma_concat_single(orig, add, a);
}

/// Replacing piece `idx` of `ps` by the pieces `mid`.
proof fn lemma_replace_piece(
    orig: Seq<u8>,
    add: Seq<u8>,
    ps: Seq<Piece>,
    idx: int,
    mid: Seq<Piece>,
)
    requires
        pieces_ok(orig, add, ps),
        pieces_ok(orig, add, mid),
        0 <= idx < ps.len(),
    ensures
        ({
            let c = concat_pieces(orig, add, ps);
            let n = ps.take(idx) + mid + ps.skip(idx + 1);
            let pre = concat_pieces(orig, add, ps.take(idx));
            &&& pieces_ok(orig, add, n)
            &&& concat_pieces(orig, add, n) =~= pre + concat_pieces(orig, add, mid)
                + c.subrange(pre.len() + ps[idx].length, c.len() as int)
            &&& c.subrange(0, pre.len() as int) =~= pre
        }),
{
    let c = concat_pieces(orig, add, ps);
    let pre = ps.take(idx);
    let post = ps.skip(idx + 1);
    lemma_piece_at(orig, add, ps, idx);
    lemma_pieces_ok_parts(orig, add, ps, idx);
    lemma_pieces_ok_parts(orig, add, ps, idx + 1);
    assert(ps =~= ps.take(idx + 1) + post);
    lemma_concat_append(orig, add, ps.take(idx + 1), post);
    lemma_concat_append(orig, add, pre + mid, post);
    lemma_concat_append(orig, add, pre, mid);
    lemma_pieces_ok_concat(orig, add, pre, mid);
    lemma_pieces_ok_concat(orig, add, pre + mid, post);
}

/// Splitting piece `idx` at `off` and putting a new piece in between.
#[verifier::spinoff_prover]
#[verifier::rlimit(40)]
proof fn lemma_insert_split(
    orig: Seq<u8>,
    add: Seq<u8>,
    ps: Seq<Piece>,
    np: Piece,
    idx: int,
    off: int,
    at: int,
)
    requires
        pieces_ok(orig, add, ps),
        piece_ok(orig, add, np),
        0 <= idx < ps.len(),
        0 < off < ps[idx].length,
        concat_pieces(orig, add, ps.take(idx)).len() + off == at,
        orig.len() <= usize::MAX,
        add.len() <= usize::MAX,
    ensures
        ({
            let c = concat_pieces(orig, add, ps);
            let p = ps[idx];
            let left = Piece { source: p.source, offset: p.offset, length: off as usize };
            let right = Piece {
                source: p.source,
                offset: (p.offset + off) as usize,
                length: (p.length - off) as usize,
            };
            let n = ps.update(idx, right).insert(idx, np).insert(idx, left);
            &&& pieces_ok(orig, add, n)
            &&& concat_pieces(orig, add, n) =~= c.subrange(0, at) + piece_bytes(orig, add, np)
                + c.subrange(at, c.len() as int)
        }),
{
    let c = concat_pieces(orig, add, ps);
    let p = ps[idx];
    let left = Piece { source: p.source, offset: p.offset, length: off as usize };
    let right = Piece {
        source: p.source,
        offset: (p.offset + off) as usize,
        length: (p.length - off) as usize,
    };
    let mid = seq![left, np, right];
    let pb = piece_bytes(orig, add, p);
    assert(piece_ok(orig, add, ps[idx]));
    lemma_split_piece(orig, add, p, off);
    lemma_concat_three(orig, add, left, np, right);
    assert(pieces_ok(orig, add, mid));
    lemma_replace_piece(orig, add, ps, idx, mid);
    lemma_piece_at(orig, add, ps, idx);
    let pre = concat_pieces(orig, add, ps.take(idx));
    assert(c.subrange(0, at) =~= pre + pb.subrange(0, off));
    assert(c.subrange(at, c.len() as int) =~= pb.subrange(off, p.length as int) + c.subrange(
        pre.len() + p.length,
        c.len() as int,
    ));
    lemma_splice_three(ps, idx, left, np, right);
}

proof fn lemma_splice_three(ps: Seq<Piece>, idx: int, a: Piece, b: Piece, c: Piece)
    requires
        0 <= idx < ps.len(),
    ensures
        ps.update(idx, c).insert(idx, b).insert(idx, a) =~= ps.take(idx) + seq![a, b, c] + ps.skip(
            idx + 1,
        ),
{
}

/// What remains of `c` outside `s..e` once the first `pos` bytes are seen.
spec fn kept(c: Seq<u8>, s: int, e: int, pos: int) -> Seq<u8> {
    c.subrange(
        0,
        if pos < s {
            pos
        } else {
            s
        },
    ) + c.subrange(
        e,
        if pos < e {
            e
        } else {
            pos
        },
    )
}

proof fn lemma_kept_step(c: Seq<u8>, s: int, e: int, pos: int, pe: int, pb: Seq<u8>)
    requires
        0 <= s < e <= c.len(),
        0 <= pos < pe <= c.len(),
        c.subrange(pos, pe) == pb,
    ensures
        (pe <= s || pos >= e) ==> kept(c, s, e, pos) + pb =~= kept(c, s, e, pe),
        (pos >= s && pe <= e) ==> kept(c, s, e, pos) =~= kept(c, s, e, pe),
        !(pe <= s || pos >= e) && !(pos >= s && pe <= e) ==> kept(c, s, e, pos) + (if pos < s {
            pb.subrange(0, s - pos)
        } else {
            Seq::empty()
        }) + (if pe > e {
            pb.subrange(e - pos, pe - pos)
        } else {
            Seq::empty()
        }) =~= kept(c, s, e, pe),
{
}

impl View for PieceTable {
    type V = Seq<u8>;

    /// The logical content, as UTF-8 bytes.
    closed spec fn view(&self) -> Seq<u8> {
        concat_pieces(self.original@, self.add@, self.pieces@)
    }
}

impl PieceTable {
    /// The buffer's internal invariant: pieces lie within their sources, the
    /// byte count and the newline index agree with the content, and the
    /// content is valid UTF-8.
    pub closed spec fn wf(&self) -> bool {
        &&& pieces_ok(self.original@, self.add@, self.pieces@)
        &&& self.total_bytes == self@.len()
        &&& self@.len() < usize::MAX
        &&& same_positions(self.newline_offsets@, newline_positions(self@))
        &&& valid_utf8(self@)
    }

    proof fn lemma_wf_facts(&self)
        requires
            self.wf(),
        ensures
            forall|i: int, j: int|
                0 <= i < j < self.newline_offsets@.len() ==> self.newline_offsets@[i]
                    < self.newline_offsets@[j],
            self.newline_offsets@.len() <= self@.len(),
            forall|i: int|
                0 <= i < self.newline_offsets@.len() ==> self.newline_offsets@[i] < self@.len(),
    {
        lemma_index_sorted(self.newline_offsets@, self@);
    }

    /// A well-formed buffer holds valid UTF-8 of fewer than `usize::MAX` bytes.
    pub proof fn lemma_wf_content(&self)
        requires
            self.wf(),
        ensures
            valid_utf8(self@),
            self@.len() < usize::MAX,
    {
    }

    /// Create an empty `PieceTable`.
    pub fn new() -> (t: Self)
        ensures
            t.wf(),
            t@ == Seq::<u8>::empty(),
            t.spec_piece_count() == 0,
    {
        let t = PieceTable {
            original: Vec::new(),
            add: Vec::new(),
            pieces: Vec::new(),
            total_bytes: 0,
            newline_offsets: Vec::new(),
        };
        proof {
            assert(t@ =~= Seq::<u8>::empty());
            lemma_as_ints_push(t.newline_offsets@, 0);
        }
        t
    }

    /// Create a `PieceTable` pre-loaded with the content of `s`.
    pub fn load(s: &str) -> (t: Self)
        requires
            s.spec_bytes().len() < usize::MAX,
        ensures
            t.wf(),
            t@ == s.spec_bytes(),
            t.spec_piece_count() == if s.spec_bytes().len() == 0 {
                0nat
            } else {
                1
            },
            forall|a: int, b: int|
                0 <= a < b <= s.spec_bytes().len() ==> #[trigger] t.within_one_piece(a, b),
            forall|b: int| #[trigger] t.is_piece_boundary(b) <==> (b == 0 || b == s.spec_bytes().len()),
    {
        let mut t = Self::new();
        if !s.is_empty() {
            let bytes = s.as_bytes();
            let ghost b = bytes@;
            let mut original: Vec<u8> = Vec::new();
            let mut nls: Vec<usize> = Vec::new();
            let mut i: usize = 0;
            proof {
                lemma_as_ints_push(nls@, 0);
                assert(b.subrange(0, 0) =~= Seq::<u8>::empty());
            }
            while i < bytes.len()
                invariant
                    i <= b.len(),
                    bytes@ == b,
                    original@ =~= b.subrange(0, i as int),
                    same_positions(nls@, newline_positions(b.subrange(0, i as int))),
                decreases b.len() - i,
            {
                proof {
                    lemma_newline_positions_take(b, i as int);
                }
                let byte = bytes[i];
                original.push(byte);
                if byte == 10u8 {
                    proof {
                        lemma_as_ints_push(nls@, i);
                    }
                    nls.push(i);
                }
                i = i + 1;
            }
            proof {
                assert(b.subrange(0, b.len() as int) =~= b);
            }
            let n = original.len();
            t.original = original;
            t.pieces.push(Piece { source: Source::Original, offset: 0, length: n });
            t.total_bytes = n;
            t.newline_offsets = nls;
            proof {
                let p = Piece { source: Source::Original, offset: 0, length: n };
                assert(t.pieces@ =~= seq![p]);
                assert(t.pieces@.take(0) =~= Seq::<Piece>::empty());
                assert(piece_start(t.original@, t.add@, t.pieces@, 0) == 0);
                lemma_concat_single(t.original@, t.add@, p);
                assert(piece_bytes(t.original@, t.add@, p) =~= b);
                encode_utf8_valid_utf8(s@);
                assert(t.pieces@.take(1) =~= t.pieces@);
                assert(piece_start(t.original@, t.add@, t.pieces@, 1) == n);
                assert forall|x: int| #[trigger] t.is_piece_boundary(x) <==> (x == 0 || x == n) by {
                    if x == n {
                        assert(piece_start(t.original@, t.add@, t.pieces@, 1) == x);
                    }
                    if x == 0 {
                        assert(piece_start(t.original@, t.add@, t.pieces@, 0) == x);
                    }
                }
            }
        } else {
            proof {
                assert(s.spec_bytes() =~= Seq::<u8>::empty());
                assert(t.pieces@.take(0) =~= Seq::<Piece>::empty());
                assert forall|x: int| #[trigger] t.is_piece_boundary(x) <==> x == 0 by {
                    assert(piece_start(t.original@, t.add@, t.pieces@, 0) == 0);
                }
            }
        }
        t
    }

    /// Total byte length of the content.
    pub fn len(&self) -> (r: usize)
        requires
            self.wf(),
        ensures
            r == self@.len(),
    {
        self.total_bytes
    }

    /// Returns `true` if the buffer contains no bytes.
    pub fn is_empty(&self) -> (r: bool)
        requires
            self.wf(),
        ensures
            r == (self@.len() == 0),
    {
        self.total_bytes == 0
    }

    /// Number of lines in the buffer.
    ///
    /// An empty buffer has 0 lines. Otherwise the count equals
    /// `(number of '\n' chars) + 1`.
    pub fn line_count(&self) -> (r: usize)
        requires
            self.wf(),
        ensures
            r == line_count_of(self@),
    {
        proof {
            self.lemma_wf_facts();
        }
        if self.total_bytes == 0 {
            0
        } else {
            self.newline_offsets.len() + 1
        }
    }

    /// Convert a flat byte offset to `(line, col)` using the newline index.
    ///
    /// Clamps `offset` to `[0, self.len()]`. The returned `col` is a byte
    /// column within the line: `line` is the number of `'\n'` before the
    /// clamped offset, and `col` its distance from the start of that line.
    pub fn offset_to_line_col(&self, offset: usize) -> (r: (usize, usize))
        requires
            self.wf(),
        ensures
            ({
                let o = if offset <= self@.len() {
                    offset as int
                } else {
                    self@.len() as int
                };
                &&& r.0 == newline_positions(self@.subrange(0, o)).len()
                &&& r.1 == o - line_start(self@, r.0 as int)
            }),
    {
        proof {
            self.lemma_wf_facts();
        }
        let offset = if offset <= self.total_bytes {
            offset
        } else {
            self.total_bytes
        };
        let line = first_at_least(&self.newline_offsets, offset);
        proof {
            lemma_newline_positions_split(self@, offset as int);
            let p = newline_positions(self@);
            let a = newline_positions(self@.subrange(0, offset as int));
            if line < a.len() {
                assert(self.newline_offsets@[line as int] as int == p[line as int]);
            }
            if line > a.len() {
                assert(self.newline_offsets@[a.len() as int] as int == p[a.len() as int]);
            }
            if line > 0 {
                assert(self.newline_offsets@[line - 1] as int == p[line - 1]);
            }
        }
        let line_start = if line == 0 {
            0
        } else {
            self.newline_offsets[line - 1] + 1
        };
        (line, offset - line_start)
    }
    /// Content of line `line` (0-indexed), without the trailing `\n`.
    ///
    /// Returns `None` if `line >= self.line_count()`.
    pub fn line_at(&self, line: usize) -> (r: Option<Cow<'_, str>>)
        requires
            self.wf(),
        ensures
            r is Some <==> line < line_count_of(self@),
            r matches Some(text) ==> text@ == decode_utf8(line_bytes(self@, line as int)),
    {
        proof {
            self.lemma_wf_facts();
        }
        if self.total_bytes == 0 {
            return None;
        }
        let count = self.newline_offsets.len() + 1;
        if line >= count {
            return None;
        }
        let ghost p = newline_positions(self@);
        let start = if line == 0 {
            0
        } else {
            self.newline_offsets[line - 1] + 1
        };
        let end = if line < self.newline_offsets.len() {
            self.newline_offsets[line]
        } else {
            self.total_bytes
        };
        proof {
            if line > 0 {
                assert(self.newline_offsets@[line - 1] as int == p[line - 1]);
            }
            if line < self.newline_offsets.len() {
                assert(self.newline_offsets@[line as int] as int == p[line as int]);
            }
            lemma_line_bounds(self@, line as int);
            reveal_strlit("");
        }
        Some(self.slice(start..end))
    }

    /// Bytes `range` of the logical content as a string slice.
    ///
    /// Returns `Cow::Borrowed` when the range falls within a single piece,
    /// `Cow::Owned` otherwise. A range whose start lies after its end reads
    /// as the empty string.
    pub fn slice(&self, range: Range<usize>) -> (r: Cow<'_, str>)
        requires
            self.wf(),
            range.end <= self@.len(),
            range.start < range.end ==> is_char_boundary(self@, range.start as int)
                && is_char_boundary(self@, range.end as int),
        ensures
            range.start < range.end ==> r@ == decode_utf8(
                self@.subrange(range.start as int, range.end as int),
            ),
            range.start >= range.end ==> r@ == Seq::<char>::empty(),
            range.start == range.end ==> r matches Cow::Borrowed(_),
            range.start < range.end ==> (r matches Cow::Borrowed(_) <==> self.within_one_piece(
                range.start as int,
                range.end as int,
            )),
    {
        let start = range.start;
        let end = range.end;
        if start == end {
            proof {
                reveal_strlit("");
            }
            return Cow::Borrowed("");
        }
        if start > end {
            return Cow::Owned(String::new());
        }
        let ghost c = self@;
        let ghost orig = self.original@;
        let ghost add = self.add@;
        let ghost ps = self.pieces@;
        let mut pos: usize = 0;
        let mut only_chunk: Option<&[u8]> = None;
        let mut owned: Vec<u8> = Vec::new();
        let mut i: usize = 0;
        let ghost one = self.within_one_piece(start as int, end as int);
        let ghost k: int = if one {
            choose|k: int|
                0 <= k < ps.len() && #[trigger] piece_start(orig, add, ps, k) <= start && end
                    <= piece_start(orig, add, ps, k) + ps[k].length
        } else {
            0
        };
        proof {
            assert(ps.take(0) =~= Seq::<Piece>::empty());
        }
        while i < self.pieces.len() && pos < end
            invariant
                one ==> 0 <= k < ps.len() && piece_start(orig, add, ps, k) <= start && end
                    <= piece_start(orig, add, ps, k) + ps[k].length,
                one && i <= k ==> only_chunk is None && owned@.len() == 0,
                one && i > k ==> only_chunk is Some && pos >= end,
                pieces_ok(orig, add, ps),
                c.len() < usize::MAX,
                c == self@,
                orig == self.original@,
                add == self.add@,
                ps == self.pieces@,
                c == concat_pieces(orig, add, ps),
                start < end <= c.len(),
                i <= ps.len(),
                pos == concat_pieces(orig, add, ps.take(i as int)).len(),
                pos <= c.len(),
                only_chunk is Some ==> owned@.len() == 0,
                only_chunk is Some ==> 1 <= i && pos > start && piece_start(orig, add, ps, i - 1)
                    <= start,
                collected(only_chunk, owned@) == clip(c, start as int, end as int, pos as int),
            decreases ps.len() - i,
        {
            let piece = self.pieces[i];
            proof {
                lemma_piece_at(orig, add, ps, i as int);
                if one && i < k {
                    lemma_piece_start_mono(orig, add, ps, i + 1, k);
                }
                if one && i == k {
                    assert(pos == piece_start(orig, add, ps, k));
                }
            }
            let piece_end = pos + piece.length;
            if piece_end > start {
                let src = self.src(piece.source);
                let lo = if start > pos {
                    start - pos
                } else {
                    0
                };
                let hi = if piece.length < end - pos {
                    piece.length
                } else {
                    end - pos
                };
                proof {
                    assert(self.original@.len() == self.original.len());
                    assert(self.add@.len() == self.add.len());
                }
                let chunk = slice_subrange(src, piece.offset + lo, piece.offset + hi);
                proof {
                    let pb = piece_bytes(orig, add, piece);
                    assert(chunk@ =~= pb.subrange(lo as int, hi as int));
                    lemma_clip_step(c, start as int, end as int, pos as int, piece_end as int, pb);
                }
                match only_chunk {
                    None => {
                        if owned.len() == 0 {
                            only_chunk = Some(chunk);
                        } else {
                            push_bytes(&mut owned, chunk);
                        }
                    },
                    Some(first) => {
                        push_bytes(&mut owned, first);
                        push_bytes(&mut owned, chunk);
                        only_chunk = None;
                    },
                }
            } else {
                proof {
                    assert(clip(c, start as int, end as int, pos as int) =~= clip(c, start as int, end as int, piece_end as int));
                }
            }
            pos = piece_end;
            i = i + 1;
        }
        proof {
            if i == ps.len() {
                lemma_take_all(orig, add, ps);
            }
            if one && i <= k {
                lemma_piece_start_mono(orig, add, ps, i as int, k);
            }
            lemma_range_valid(c, start as int, end as int);
            assert(clip(c, start as int, end as int, pos as int) == c.subrange(start as int, end as int));
            if only_chunk is Some {
                lemma_piece_at(orig, add, ps, i - 1);
                assert(ps.take(i - 1 + 1) == ps.take(i as int));
                assert(piece_start(orig, add, ps, i - 1) + ps[i - 1].length == pos);
                assert(self.within_one_piece(start as int, end as int));
            }
        }
        match only_chunk {
            Some(chunk) => match str_from_utf8(chunk) {
                Ok(text) => {
                    proof {
                        encode_utf8_decode_utf8(text@);
                    }
                    Cow::Borrowed(text)
                },
                Err(_) => Cow::Owned(String::new()),
            },
            None => match str_from_utf8(owned.as_slice()) {
                Ok(text) => {
                    proof {
                        encode_utf8_decode_utf8(text@);
                    }
                    Cow::Owned(text.to_owned())
                },
                Err(_) => Cow::Owned(String::new()),
            },
        }
    }

    /// Insert `text` at byte offset `at`.
    ///
    /// `at` must lie within the content and on a char boundary of it.
    pub fn insert(&mut self, at: usize, text: &str)
        requires
            old(self).wf(),
            at <= old(self)@.len(),
            text.spec_bytes().len() > 0 ==> is_char_boundary(old(self)@, at as int),
            old(self)@.len() + text.spec_bytes().len() < usize::MAX,
        ensures
            final(self).wf(),
            final(self)@ == old(self)@.subrange(0, at as int) + text.spec_bytes() + old(
                self,
            )@.subrange(at as int, old(self)@.len() as int),
            final(self).spec_piece_count() == old(self).spec_piece_count() + if text.spec_bytes().len()
                == 0 {
                0int
            } else if old(self).is_piece_boundary(at as int) {
                1
            } else {
                2
            },
    {
        if text.is_empty() {
            proof {
                assert(text.spec_bytes() =~= Seq::<u8>::empty());
                assert(old(self)@ =~= old(self)@.subrange(0, at as int) + text.spec_bytes() + old(
                    self,
                )@.subrange(at as int, old(self)@.len() as int));
            }
            return;
        }
        let bytes = text.as_bytes();
        let ghost c = self@;
        let ghost orig = self.original@;
        let ghost add0 = self.add@;
        let ghost ps0 = self.pieces@;
        let ghost t = bytes@;
        let ghost target = c.subrange(0, at as int) + t + c.subrange(at as int, c.len() as int);
        self.nl_insert(at, bytes);
        let add_off = self.add.len();
        push_bytes(&mut self.add, bytes);
        let np = Piece { source: Source::Add, offset: add_off, length: bytes.len() };
        proof {
            assert(self.add@.subrange(0, add0.len() as int) =~= add0);
            lemma_concat_add_grows(orig, add0, self.add@, ps0);
            assert(piece_bytes(orig, self.add@, np) =~= t);
            assert(text@.len() > 0);
            assert(t.len() > 0);
            assert(piece_ok(orig, self.add@, np));
            lemma_split_valid(c, at as int);
            encode_utf8_valid_utf8(text@);
            valid_utf8_concat(c.subrange(0, at as int), t);
            valid_utf8_concat(c.subrange(0, at as int) + t, c.subrange(at as int, c.len() as int));
        }
        let ghost add = self.add@;
        proof {
            assert(add.subrange(0, add0.len() as int) =~= add0);
            assert forall|k: int| 0 <= k <= ps0.len() implies #[trigger] piece_start(
                orig,
                add0,
                ps0,
                k,
            ) == piece_start(orig, add, ps0, k) by {
                lemma_piece_start_add_grows(orig, add0, add, ps0, k);
            }
        }
        if self.pieces.len() == 0 || at == self.total_bytes {
            proof {
                lemma_insert_at_end(orig, add, ps0, np, at as int);
                lemma_take_all(orig, add, ps0);
                assert(piece_start(orig, add0, ps0, ps0.len() as int) == at);
            }
            self.pieces.push(np);
        } else {
            let (idx, off) = self.find_piece(at);
            let p = self.pieces[idx];
            if off == 0 {
                proof {
                    lemma_insert_before(orig, add, ps0, np, idx as int, at as int);
                    assert(piece_start(orig, add0, ps0, idx as int) == at);
                }
                self.pieces.insert(idx, np);
            } else {
                proof {
                    assert(orig.len() == self.original.len());
                    assert(add.len() == self.add.len());
                    assert(piece_ok(orig, add, ps0[idx as int]));
                    lemma_inside_piece(orig, add, ps0, idx as int, at as int);
                    assert(!old(self).is_piece_boundary(at as int));
                }
                let left = Piece { source: p.source, offset: p.offset, length: off };
                let right = Piece {
                    source: p.source,
                    offset: p.offset + off,
                    length: p.length - off,
                };
                proof {
                    assert(orig.len() == self.original.len());
                    assert(add.len() == self.add.len());
                    lemma_insert_split(orig, add, ps0, np, idx as int, off as int, at as int);
                }
                self.pieces.set(idx, right);
                self.pieces.insert(idx, np);
                self.pieces.insert(idx, left);
            }
        }
        self.total_bytes = self.total_bytes + bytes.len();
    }

    /// Delete the bytes in `range`.
    ///
    /// A non-empty range must lie within the content with both ends on char
    /// boundaries of it.
    pub fn delete(&mut self, range: Range<usize>)
        requires
            old(self).wf(),
            range.start <= range.end <= old(self)@.len(),
            range.start < range.end ==> is_char_boundary(old(self)@, range.start as int)
                && is_char_boundary(old(self)@, range.end as int),
        ensures
            final(self).wf(),
            final(self)@ == old(self)@.subrange(0, range.start as int) + old(self)@.subrange(
                range.end as int,
                old(self)@.len() as int,
            ),
            final(self).spec_piece_count() <= old(self).spec_piece_count() + 1,
    {
        let start = range.start;
        let end = range.end;
        if start == end {
            proof {
                assert(old(self)@ =~= old(self)@.subrange(0, start as int) + old(self)@.subrange(
                    end as int,
                    old(self)@.len() as int,
                ));
            }
            return;
        }
        let ghost c = self@;
        let ghost orig = self.original@;
        let ghost add = self.add@;
        let ghost ps = self.pieces@;
        self.nl_delete(start, end);
        let mut new_pieces: Vec<Piece> = Vec::new();
        let mut pos: usize = 0;
        let mut i: usize = 0;
        proof {
            assert(ps.take(0) =~= Seq::<Piece>::empty());
            assert(kept(c, start as int, end as int, 0) =~= Seq::<u8>::empty());
        }
        while i < self.pieces.len()
            invariant
                orig == self.original@,
                add == self.add@,
                ps == self.pieces@,
                c == concat_pieces(orig, add, ps),
                c.len() < usize::MAX,
                pieces_ok(orig, add, ps),
                pieces_ok(orig, add, new_pieces@),
                start < end <= c.len(),
                i <= ps.len(),
                pos == concat_pieces(orig, add, ps.take(i as int)).len(),
                pos <= c.len(),
                concat_pieces(orig, add, new_pieces@) == kept(c, start as int, end as int, pos as int),
                new_pieces@.len() <= i + (if pos > end {
                    1int
                } else {
                    0
                }),
            decreases ps.len() - i,
        {
            let piece = self.pieces[i];
            proof {
                lemma_piece_at(orig, add, ps, i as int);
                lemma_kept_step(c, start as int, end as int, pos as int, (pos + piece.length) as int, piece_bytes(orig, add, piece));
                assert(piece_ok(orig, add, ps[i as int]));
            }
            let pe = pos + piece.length;
            if pe <= start || pos >= end {
                proof {
                    lemma_concat_push(orig, add, new_pieces@, piece);
                    lemma_pieces_ok_concat(orig, add, new_pieces@, seq![piece]);
                    assert(new_pieces@ + seq![piece] =~= new_pieces@.push(piece));
                }
                new_pieces.push(piece);
            } else if pos >= start && pe <= end {
                // fully inside deleted range — drop
            } else {
                let ghost pb = piece_bytes(orig, add, piece);
                let ghost before = new_pieces@;
                if pos < start {
                    let left = Piece { source: piece.source, offset: piece.offset, length: start - pos };
                    proof {
                        lemma_concat_push(orig, add, new_pieces@, left);
                        assert(piece_bytes(orig, add, left) =~= pb.subrange(0, start - pos));
                        assert(pieces_ok(orig, add, seq![left]));
                        lemma_pieces_ok_concat(orig, add, new_pieces@, seq![left]);
                        assert(new_pieces@ + seq![left] =~= new_pieces@.push(left));
                    }
                    new_pieces.push(left);
                }
                let ghost mid = new_pieces@;
                proof {
                    assert(concat_pieces(orig, add, mid) =~= kept(c, start as int, end as int, pos as int) + (if pos < start {
                        pb.subrange(0, start - pos)
                    } else {
                        Seq::empty()
                    }));
                }
                if pe > end {
                    let skip = end - pos;
                    proof {
                        assert(self.original@.len() == self.original.len());
                        assert(self.add@.len() == self.add.len());
                    }
                    let right = Piece {
                        source: piece.source,
                        offset: piece.offset + skip,
                        length: pe - end,
                    };
                    proof {
                        lemma_concat_push(orig, add, new_pieces@, right);
                        assert(piece_bytes(orig, add, right) =~= pb.subrange(end - pos, pe - pos));
                        assert(pieces_ok(orig, add, seq![right]));
                        lemma_pieces_ok_concat(orig, add, new_pieces@, seq![right]);
                        assert(new_pieces@ + seq![right] =~= new_pieces@.push(right));
                    }
                    new_pieces.push(right);
                }
            }
            pos = pe;
            i = i + 1;
        }
        proof {
            lemma_take_all(orig, add, ps);
            assert(kept(c, start as int, end as int, pos as int) =~= c.subrange(0, start as int) + c.subrange(end as int, c.len() as int));
            lemma_split_valid(c, start as int);
            lemma_split_valid(c, end as int);
            valid_utf8_concat(c.subrange(0, start as int), c.subrange(end as int, c.len() as int));
        }
        self.pieces = new_pieces;
        self.total_bytes = self.total_bytes - (end - start);
    }

    /// The whole content as a `String`.
    pub fn to_string(&self) -> (r: String)
        requires
            self.wf(),
        ensures
            r@ == decode_utf8(self@),
    {
        proof {
            is_char_boundary_start_end_of_seq(self@);
            assert(self@.subrange(0, self@.len() as int) =~= self@);
            if self@.len() == 0 {
                assert(decode_utf8(self@) =~= Seq::<char>::empty());
            }
        }
        match self.slice(0..self.total_bytes) {
            Cow::Borrowed(text) => text.to_owned(),
            Cow::Owned(text) => text,
        }
    }

    /// Offset `at` is where one of the pieces starts, or the end of the
    /// content.
    pub closed spec fn is_piece_boundary(&self, at: int) -> bool {
        exists|k: int|
            0 <= k <= self.pieces@.len() && #[trigger] piece_start(
                self.original@,
                self.add@,
                self.pieces@,
                k,
            ) == at
    }

    /// Bytes `[start, end)` of the content lie within a single piece.
    pub closed spec fn within_one_piece(&self, start: int, end: int) -> bool {
        exists|k: int|
            0 <= k < self.pieces@.len() && #[trigger] piece_start(
                self.original@,
                self.add@,
                self.pieces@,
                k,
            ) <= start && end <= piece_start(self.original@, self.add@, self.pieces@, k)
                + self.pieces@[k].length
    }

    /// Number of pieces the content is currently split into.
    pub closed spec fn spec_piece_count(&self) -> nat {
        self.pieces@.len()
    }

    /// Number of pieces the content is currently split into.
    pub fn piece_count(&self) -> (r: usize)
        ensures
            r == self.spec_piece_count(),
    {
        self.pieces.len()
    }

    /// The byte at offset `i` of the content.
    pub(crate) fn byte_at(&self, i: usize) -> (r: u8)
        requires
            self.wf(),
            i < self@.len(),
        ensures
            r == self@[i as int],
    {
        let (idx, off) = self.find_piece(i);
        let p = self.pieces[idx];
        let ghost orig = self.original@;
        let ghost add = self.add@;
        let ghost ps = self.pieces@;
        proof {
            lemma_piece_at(orig, add, ps, idx as int);
            assert(piece_ok(orig, add, ps[idx as int]));
        }
        let src = self.src(p.source);
        let n = src.len();
        proof {
            assert(p == ps[idx as int]);
            assert(src@.len() == src_of(orig, add, p.source).len());
            assert(src@.len() <= usize::MAX);
            let pre = concat_pieces(orig, add, ps.take(idx as int));
            assert(self@[i as int] == self@.subrange(pre.len() as int, pre.len() + p.length)[off as int]);
        }
        src[p.offset + off]
    }

    // ── private helpers ──────────────────────────────────────────────────────

    fn src(&self, s: Source) -> (r: &[u8])
        ensures
            r@ == src_of(self.original@, self.add@, s),
    {
        match s {
            Source::Original => self.original.as_slice(),
            Source::Add => self.add.as_slice(),
        }
    }

    /// Returns `(piece_index, offset_within_piece)` for byte offset `at`.
    /// Only called when `at < total_bytes` and pieces is non-empty.
    fn find_piece(&self, at: usize) -> (r: (usize, usize))
        requires
            pieces_ok(self.original@, self.add@, self.pieces@),
            at < self@.len(),
            self@.len() < usize::MAX,
        ensures
            r.0 < self.pieces@.len(),
            r.1 < self.pieces@[r.0 as int].length,
            concat_pieces(self.original@, self.add@, self.pieces@.take(r.0 as int)).len() + r.1
                == at,
    {
        let ghost orig = self.original@;
        let ghost add = self.add@;
        let ghost ps = self.pieces@;
        let mut pos: usize = 0;
        let mut i: usize = 0;
        proof {
            assert(ps.take(0) =~= Seq::<Piece>::empty());
        }
        while i < self.pieces.len()
            invariant
                pieces_ok(self.original@, self.add@, self.pieces@),
                orig == self.original@,
                add == self.add@,
                ps == self.pieces@,
                i <= ps.len(),
                pos == concat_pieces(orig, add, ps.take(i as int)).len(),
                pos <= at,
                at < concat_pieces(orig, add, ps).len(),
                concat_pieces(orig, add, ps).len() < usize::MAX,
            decreases ps.len() - i,
        {
            let piece = self.pieces[i];
            proof {
                lemma_piece_at(orig, add, ps, i as int);
            }
            if at < pos + piece.length {
                return (i, at - pos);
            }
            if at == pos + piece.length {
                proof {
                    if i + 1 == ps.len() {
                        lemma_take_all(orig, add, ps);
                    } else {
                        lemma_piece_at(orig, add, ps, i + 1);
                    }
                }
                return (i + 1, 0);
            }
            pos = pos + piece.length;
            i = i + 1;
        }
        proof {
            lemma_take_all(orig, add, ps);
        }
        (self.pieces.len(), 0)
    }
    /// Shift the newline index for `text` inserted at `at`.
    fn nl_insert(&mut self, at: usize, text: &[u8])
        requires
            same_positions(old(self).newline_offsets@, newline_positions(old(self)@)),
            at <= old(self)@.len(),
            old(self)@.len() + text@.len() < usize::MAX,
        ensures
            same_positions(
                final(self).newline_offsets@,
                newline_positions(
                    old(self)@.subrange(0, at as int) + text@ + old(self)@.subrange(
                        at as int,
                        old(self)@.len() as int,
                    ),
                ),
            ),
            final(self).original == old(self).original,
            final(self).add == old(self).add,
            final(self).pieces == old(self).pieces,
            final(self).total_bytes == old(self).total_bytes,
    {
        let ghost c = self@;
        let ghost old_nl = self.newline_offsets@;
        let ghost a = newline_positions(c.subrange(0, at as int));
        let ghost b = newline_positions(c.subrange(at as int, c.len() as int));
        let ghost t = text@;
        proof {
            lemma_newline_positions_split(c, at as int);
            lemma_newline_positions(c);
            lemma_newline_positions_insert(c, at as int, t);
            lemma_index_sorted(old_nl, c);
        }
        let k = first_at_least(&self.newline_offsets, at);
        proof {
            if k < a.len() {
                assert(as_ints(old_nl)[k as int] == old_nl[k as int] as int);
            }
            if k > a.len() {
                assert(as_ints(old_nl)[a.len() as int] == old_nl[a.len() as int] as int);
            }
            assert(k == a.len());
        }
        let mut v: Vec<usize> = Vec::new();
        let mut i: usize = 0;
        proof {
            lemma_as_ints_push(v@, 0);
        }
        while i < k
            invariant
                i <= k,
                k == a.len(),
                k <= old_nl.len(),
                old_nl == self.newline_offsets@,
                as_ints(old_nl) == a + shift(b, at as int),
                as_ints(v@) =~= a.take(i as int),
            decreases k - i,
        {
            proof {
                lemma_as_ints_push(v@, self.newline_offsets@[i as int]);
                assert(as_ints(old_nl)[i as int] == old_nl[i as int] as int);
            }
            v.push(self.newline_offsets[i]);
            i = i + 1;
        }
        let mut j: usize = 0;
        proof {
            assert(t.subrange(0, 0) =~= Seq::<u8>::empty());
            assert(a.take(k as int) =~= a);
        }
        while j < text.len()
            invariant
                j <= t.len(),
                t == text@,
                at + t.len() < usize::MAX,
                as_ints(v@) =~= a + shift(newline_positions(t.subrange(0, j as int)), at as int),
            decreases t.len() - j,
        {
            proof {
                lemma_newline_positions_take(t, j as int);
            }
            if text[j] == 10u8 {
                proof {
                    lemma_as_ints_push(v@, (at + j) as usize);
                }
                v.push(at + j);
            }
            j = j + 1;
        }
        proof {
            assert(t.subrange(0, t.len() as int) =~= t);
            assert(b.take(0) =~= Seq::<int>::empty());
            lemma_newline_positions(c.subrange(at as int, c.len() as int));
        }
        let n = self.newline_offsets.len();
        let mut i: usize = k;
        while i < n
            invariant
                k <= i <= n,
                n == old_nl.len(),
                k == a.len(),
                old_nl == self.newline_offsets@,
                as_ints(old_nl) == a + shift(b, at as int),
                c.len() + t.len() < usize::MAX,
                t == text@,
                at <= c.len(),
                forall|q: int| 0 <= q < b.len() ==> 0 <= #[trigger] b[q] < c.len() - at,
                as_ints(v@) =~= a + shift(newline_positions(t), at as int) + shift(
                    b.take(i - k),
                    at + t.len(),
                ),
            decreases n - i,
        {
            proof {
                assert(as_ints(old_nl).len() == old_nl.len());
                assert(as_ints(old_nl)[i as int] == old_nl[i as int] as int);
                assert((a + shift(b, at as int))[i as int] == shift(b, at as int)[i - k]);
                assert(shift(b, at as int)[i - k] == b[i - k] + at);
                assert(old_nl[i as int] as int == b[i - k] + at);
                lemma_as_ints_push(v@, (old_nl[i as int] + t.len()) as usize);
                assert(b.take(i - k + 1) =~= b.take(i - k).push(b[i - k]));
            }
            v.push(self.newline_offsets[i] + text.len());
            i = i + 1;
        }
        proof {
            assert(b.take(n - k) =~= b);
        }
        self.newline_offsets = v;
    }

    /// Drop the newline index entries in `start..end` and shift the later ones.
    fn nl_delete(&mut self, start: usize, end: usize)
        requires
            same_positions(old(self).newline_offsets@, newline_positions(old(self)@)),
            start <= end <= old(self)@.len(),
        ensures
            same_positions(
                final(self).newline_offsets@,
                newline_positions(
                    old(self)@.subrange(0, start as int) + old(self)@.subrange(
                        end as int,
                        old(self)@.len() as int,
                    ),
                ),
            ),
            final(self).original == old(self).original,
            final(self).add == old(self).add,
            final(self).pieces == old(self).pieces,
            final(self).total_bytes == old(self).total_bytes,
    {
        let ghost c = self@;
        let ghost old_nl = self.newline_offsets@;
        let ghost a = newline_positions(c.subrange(0, start as int));
        let ghost m = newline_positions(c.subrange(start as int, end as int));
        let ghost b = newline_positions(c.subrange(end as int, c.len() as int));
        proof {
            lemma_newline_positions(c);
            lemma_newline_positions_delete(c, start as int, end as int);
            lemma_index_sorted(old_nl, c);
        }
        let k1 = first_at_least(&self.newline_offsets, start);
        let k2 = first_at_least(&self.newline_offsets, end);
        proof {
            let all = a + shift(m, start as int) + shift(b, end as int);
            assert(as_ints(old_nl) == all);
            if k1 < a.len() {
                assert(as_ints(old_nl)[k1 as int] == old_nl[k1 as int] as int);
            }
            if k1 > a.len() {
                assert(as_ints(old_nl)[a.len() as int] == old_nl[a.len() as int] as int);
            }
            assert(k1 == a.len());
            let am = (a.len() + m.len()) as int;
            if k2 < am {
                assert(as_ints(old_nl)[k2 as int] == old_nl[k2 as int] as int);
            }
            if k2 > am {
                assert(as_ints(old_nl)[am] == old_nl[am] as int);
            }
            assert(k2 == am);
        }
        let mut v: Vec<usize> = Vec::new();
        let mut i: usize = 0;
        proof {
            lemma_as_ints_push(v@, 0);
        }
        while i < k1
            invariant
                i <= k1,
                k1 == a.len(),
                k1 <= old_nl.len(),
                old_nl == self.newline_offsets@,
                as_ints(old_nl) == a + shift(m, start as int) + shift(b, end as int),
                as_ints(v@) =~= a.take(i as int),
            decreases k1 - i,
        {
            proof {
                lemma_as_ints_push(v@, self.newline_offsets@[i as int]);
                assert(as_ints(old_nl)[i as int] == old_nl[i as int] as int);
            }
            v.push(self.newline_offsets[i]);
            i = i + 1;
        }
        proof {
            assert(a.take(k1 as int) =~= a);
            assert(b.take(0) =~= Seq::<int>::empty());
        }
        let n = self.newline_offsets.len();
        let mut i: usize = k2;
        while i < n
            invariant
                k2 <= i <= n,
                n == old_nl.len(),
                k2 == a.len() + m.len(),
                start <= end,
                old_nl == self.newline_offsets@,
                as_ints(old_nl) == a + shift(m, start as int) + shift(b, end as int),
                forall|q: int| 0 <= q < b.len() ==> 0 <= #[trigger] b[q],
                as_ints(v@) =~= a + shift(b.take(i - k2), start as int),
            decreases n - i,
        {
            proof {
                let all = a + shift(m, start as int) + shift(b, end as int);
                assert(as_ints(old_nl).len() == old_nl.len());
                assert(as_ints(old_nl)[i as int] == old_nl[i as int] as int);
                assert(all[i as int] == shift(b, end as int)[i - k2]);
                assert(shift(b, end as int)[i - k2] == b[i - k2] + end);
                assert(old_nl[i as int] as int == b[i - k2] + end);
                lemma_as_ints_push(v@, (old_nl[i as int] - (end - start)) as usize);
                assert(b.take(i - k2 + 1) =~= b.take(i - k2).push(b[i - k2]));
            }
            v.push(self.newline_offsets[i] - (end - start));
            i = i + 1;
        }
        proof {
            assert(b.take(n - k2) =~= b);
        }
        self.newline_offsets = v;
    }
}

impl Default for PieceTable {
    fn default() -> (t: Self)
        ensures
            t.wf(),
            t@ == Seq::<u8>::empty(),
    {
        Self::new()
    }
}

/// Deleting the bytes just inserted gives back the content, and with it
/// the length, the line count and every line.
pub proof fn law_delete_undoes_insert(c: Seq<u8>, at: int, t: Seq<u8>)
    requires
        0 <= at <= c.len(),
    ensures
        ({
            let c2 = c.subrange(0, at) + t + c.subrange(at, c.len() as int);
            let c3 = c2.subrange(0, at) + c2.subrange(at + t.len(), c2.len() as int);
            &&& c3 == c
            &&& c3.len() == c.len()
            &&& line_count_of(c3) == line_count_of(c)
            &&& forall|i: int| #[trigger] line_bytes(c3, i) == line_bytes(c, i)
        }),
{
    let c2 = c.subrange(0, at) + t + c.subrange(at, c.len() as int);
    assert(c2.subrange(0, at) + c2.subrange(at + t.len(), c2.len() as int) =~= c);
}

} // verus!
