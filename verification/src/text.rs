//! Byte-level model of UTF-8 text: newline positions, line spans and the
//! char-boundary facts that the buffer and the document rely on.
use vstd::prelude::*;
use vstd::utf8::*;

verus! {

broadcast use vstd::seq_lib::group_seq_properties;

/// The byte value of `'\n'`.
pub open spec fn nl() -> u8 {
    10u8
}

/// Byte positions of every `'\n'` in `s`, in increasing order.
pub open spec fn newline_positions(s: Seq<u8>) -> Seq<int>
    decreases s.len(),
{
    if s.len() == 0 {
        Seq::empty()
    } else {
        let p = newline_positions(s.drop_last());
        if s.last() == nl() {
            p.push(s.len() - 1)
        } else {
            p
        }
    }
}

/// Number of lines of `s`: 0 for empty text, otherwise one more than the
/// number of `'\n'` bytes.
pub open spec fn line_count_of(s: Seq<u8>) -> nat {
    if s.len() == 0 {
        0
    } else {
        newline_positions(s).len() + 1
    }
}

/// Byte offset at which line `i` starts.
pub open spec fn line_start(s: Seq<u8>, i: int) -> int {
    if i <= 0 {
        0
    } else {
        newline_positions(s)[i - 1] + 1
    }
}

/// Byte offset at which line `i` ends (the position of its `'\n'`, or the end
/// of the text for the last line).
pub open spec fn line_end(s: Seq<u8>, i: int) -> int {
    if i < newline_positions(s).len() {
        newline_positions(s)[i]
    } else {
        s.len() as int
    }
}

/// The bytes of line `i`, without its trailing `'\n'`.
pub open spec fn line_bytes(s: Seq<u8>, i: int) -> Seq<u8> {
    s.subrange(line_start(s, i), line_end(s, i))
}

/// `v` holds exactly the integers of `p`, in the same order.
pub open spec fn same_positions(v: Seq<usize>, p: Seq<int>) -> bool {
    as_ints(v) == p
}

/// The elements of `v`, as integers.
pub open spec fn as_ints(v: Seq<usize>) -> Seq<int> {
    v.map_values(|x: usize| x as int)
}

/// Pushing onto `v` pushes onto its integers.
pub proof fn lemma_as_ints_push(v: Seq<usize>, x: usize)
    ensures
        as_ints(v.push(x)) =~= as_ints(v).push(x as int),
        as_ints(Seq::<usize>::empty()) =~= Seq::<int>::empty(),
{
}

/// `p` with `d` added to every element.
pub open spec fn shift(p: Seq<int>, d: int) -> Seq<int> {
    p.map_values(|x: int| x + d)
}

/// Each element of `newline_positions(s)` is the position of a `'\n'` of `s`,
/// the elements increase strictly, and every `'\n'` of `s` is listed.
pub proof fn lemma_newline_positions(s: Seq<u8>)
    ensures
        forall|i: int|
            0 <= i < newline_positions(s).len() ==> 0 <= #[trigger] newline_positions(s)[i]
                < s.len() && s[newline_positions(s)[i]] == nl(),
        forall|i: int, j: int|
            0 <= i < j < newline_positions(s).len() ==> #[trigger] newline_positions(s)[i]
                < #[trigger] newline_positions(s)[j],
        forall|k: int|
            0 <= k < s.len() && s[k] == nl() ==> exists|i: int|
                0 <= i < newline_positions(s).len() && #[trigger] newline_positions(s)[i] == k,
        newline_positions(s).len() <= s.len(),
    decreases s.len(),
{
    if s.len() > 0 {
        let t = s.drop_last();
        lemma_newline_positions(t);
        assert forall|k: int| 0 <= k < s.len() && s[k] == nl() implies exists|i: int|
            0 <= i < newline_positions(s).len() && #[trigger] newline_positions(s)[i] == k by {
            if k < s.len() - 1 {
                assert(t[k] == nl());
                let i = choose|i: int|
                    0 <= i < newline_positions(t).len() && #[trigger] newline_positions(t)[i] == k;
                assert(newline_positions(s)[i] == k);
            } else {
                let i = newline_positions(t).len() as int;
                assert(newline_positions(s)[i] == k);
            }
        }
    }
}

/// Newline positions of a concatenation.
pub proof fn lemma_newline_positions_concat(a: Seq<u8>, b: Seq<u8>)
    ensures
        newline_positions(a + b) =~= newline_positions(a) + shift(
            newline_positions(b),
            a.len() as int,
        ),
    decreases b.len(),
{
    if b.len() == 0 {
        assert(a + b =~= a);
    } else {
        lemma_newline_positions_concat(a, b.drop_last());
        assert((a + b).drop_last() =~= a + b.drop_last());
    }
}

/// Newline positions of a prefix grow by one byte at a time.
pub proof fn lemma_newline_positions_take(s: Seq<u8>, j: int)
    requires
        0 <= j < s.len(),
    ensures
        newline_positions(s.subrange(0, j + 1)) == (if s[j] == nl() {
            newline_positions(s.subrange(0, j)).push(j)
        } else {
            newline_positions(s.subrange(0, j))
        }),
{
    assert(s.subrange(0, j + 1).drop_last() =~= s.subrange(0, j));
}

/// Splitting the text at `k`: the positions before `k` come first.
pub proof fn lemma_newline_positions_split(s: Seq<u8>, k: int)
    requires
        0 <= k <= s.len(),
    ensures
        newline_positions(s) =~= newline_positions(s.subrange(0, k)) + shift(
            newline_positions(s.subrange(k, s.len() as int)),
            k,
        ),
        forall|i: int|
            0 <= i < newline_positions(s.subrange(0, k)).len() ==> #[trigger] newline_positions(
                s,
            )[i] < k,
        forall|i: int|
            newline_positions(s.subrange(0, k)).len() <= i < newline_positions(s).len()
                ==> #[trigger] newline_positions(s)[i] >= k,
{
    assert(s =~= s.subrange(0, k) + s.subrange(k, s.len() as int));
    lemma_newline_positions_concat(s.subrange(0, k), s.subrange(k, s.len() as int));
    lemma_newline_positions(s.subrange(0, k));
    lemma_newline_positions(s.subrange(k, s.len() as int));
}

/// Shifting twice is shifting by the sum.
pub proof fn lemma_shift_shift(p: Seq<int>, d1: int, d2: int)
    ensures
        shift(shift(p, d1), d2) =~= shift(p, d1 + d2),
{
}

/// Newline positions after inserting `t` at `at`.
pub proof fn lemma_newline_positions_insert(c: Seq<u8>, at: int, t: Seq<u8>)
    requires
        0 <= at <= c.len(),
    ensures
        newline_positions(c.subrange(0, at) + t + c.subrange(at, c.len() as int))
            =~= newline_positions(c.subrange(0, at)) + shift(newline_positions(t), at) + shift(
            newline_positions(c.subrange(at, c.len() as int)),
            at + t.len(),
        ),
{
    let x = c.subrange(0, at);
    let y = c.subrange(at, c.len() as int);
    lemma_newline_positions_concat(x + t, y);
    lemma_newline_positions_concat(x, t);
}

/// Newline positions around a deleted range `s..e`.
pub proof fn lemma_newline_positions_delete(c: Seq<u8>, s: int, e: int)
    requires
        0 <= s <= e <= c.len(),
    ensures
        ({
            let a = newline_positions(c.subrange(0, s));
            let m = newline_positions(c.subrange(s, e));
            let b = newline_positions(c.subrange(e, c.len() as int));
            &&& newline_positions(c) =~= a + shift(m, s) + shift(b, e)
            &&& newline_positions(c.subrange(0, s) + c.subrange(e, c.len() as int)) =~= a + shift(
                b,
                s,
            )
            &&& forall|i: int| 0 <= i < a.len() ==> #[trigger] a[i] < s
            &&& forall|i: int| 0 <= i < m.len() ==> 0 <= #[trigger] m[i] < e - s
            &&& forall|i: int| 0 <= i < b.len() ==> 0 <= #[trigger] b[i]
        }),
{
    let x = c.subrange(0, s);
    let y = c.subrange(s, e);
    let z = c.subrange(e, c.len() as int);
    assert(c =~= x + y + z);
    lemma_newline_positions_concat(x + y, z);
    lemma_newline_positions_concat(x, y);
    lemma_newline_positions_concat(x, z);
    lemma_shift_shift(newline_positions(z), 0, 0);
    lemma_newline_positions(x);
    lemma_newline_positions(y);
    lemma_newline_positions(z);
}

/* Line endings */

/// `s` with every `"\r\n"` replaced by `"\n"`.
pub open spec fn crlf_to_lf(s: Seq<u8>) -> Seq<u8>
    decreases s.len(),
{
    if s.len() == 0 {
        Seq::empty()
    } else if s.len() >= 2 && s[s.len() - 2] == 13u8 && s.last() == 10u8 {
        crlf_to_lf(s.subrange(0, s.len() - 2)).push(10u8)
    } else {
        crlf_to_lf(s.drop_last()).push(s.last())
    }
}

/// `s` with every `"\n"` replaced by `"\r\n"`.
pub open spec fn lf_to_crlf(s: Seq<u8>) -> Seq<u8>
    decreases s.len(),
{
    if s.len() == 0 {
        Seq::empty()
    } else if s.last() == 10u8 {
        lf_to_crlf(s.drop_last()) + seq![13u8, 10u8]
    } else {
        lf_to_crlf(s.drop_last()).push(s.last())
    }
}

/// Normalising line endings never makes text longer.
pub proof fn lemma_crlf_len(s: Seq<u8>)
    ensures
        crlf_to_lf(s).len() <= s.len(),
    decreases s.len(),
{
    if s.len() > 0 {
        if s.len() >= 2 && s[s.len() - 2] == 13u8 && s.last() == 10u8 {
            lemma_crlf_len(s.subrange(0, s.len() - 2));
        } else {
            lemma_crlf_len(s.drop_last());
        }
    }
}

/// Every `'\n'` of `s` follows a `'\r'`.
pub open spec fn every_lf_after_cr(s: Seq<u8>) -> bool {
    forall|i: int| 0 <= i < s.len() && #[trigger] s[i] == 10u8 ==> i > 0 && s[i - 1] == 13u8
}

/// Putting back a `'\r'` before every `'\n'` undoes the normalisation of a
/// text whose line endings are all `"\r\n"`.
pub proof fn lemma_crlf_round_trip(s: Seq<u8>)
    requires
        every_lf_after_cr(s),
    ensures
        lf_to_crlf(crlf_to_lf(s)) == s,
    decreases s.len(),
{
    let n = s.len() as int;
    if n > 0 {
        if n >= 2 && s[n - 2] == 13u8 && s[n - 1] == 10u8 {
            let t = s.subrange(0, n - 2);
            assert forall|i: int| 0 <= i < t.len() && #[trigger] t[i] == 10u8 implies i > 0 && t[i
                - 1] == 13u8 by {
                assert(s[i] == 10u8);
            }
            lemma_crlf_round_trip(t);
            assert(crlf_to_lf(t).push(10u8).drop_last() =~= crlf_to_lf(t));
            assert(s =~= t + seq![13u8, 10u8]);
        } else {
            let t = s.drop_last();
            assert(s[n - 1] != 10u8);
            assert forall|i: int| 0 <= i < t.len() && #[trigger] t[i] == 10u8 implies i > 0 && t[i
                - 1] == 13u8 by {
                assert(s[i] == 10u8);
            }
            lemma_crlf_round_trip(t);
            assert(crlf_to_lf(t).push(s.last()).drop_last() =~= crlf_to_lf(t));
            assert(s =~= t.push(s.last()));
        }
    }
}

/// Dropping a `'\r'` that comes before a `'\n'` keeps text valid UTF-8.
pub proof fn lemma_drop_cr_valid(x: Seq<u8>, y: Seq<u8>)
    requires
        valid_utf8(x + seq![13u8] + y),
        y.len() > 0,
        y[0] == 10u8,
    ensures
        valid_utf8(x + y),
{
    let w = x + seq![13u8] + y;
    let k = x.len() as int;
    assert(w[k] == 13u8);
    lemma_ascii_boundaries(w, k);
    lemma_split_valid(w, k);
    lemma_split_valid(w, k + 1);
    assert(w.subrange(0, k) =~= x);
    assert(w.subrange(k + 1, w.len() as int) =~= y);
    valid_utf8_concat(x, y);
}

/* UTF-8 boundaries */

/// In valid UTF-8, an index is a char boundary exactly when it is the end of
/// the text or the byte there is not a continuation byte.
pub proof fn lemma_boundary_at(s: Seq<u8>, i: int)
    requires
        valid_utf8(s),
        0 <= i <= s.len(),
    ensures
        is_char_boundary(s, i) <==> (i == s.len() || !is_continuation_byte(s[i])),
{
    is_char_boundary_start_end_of_seq(s);
    if i < s.len() {
        is_char_boundary_iff_not_is_continuation_byte(s, i);
    }
}

/// The first byte of non-empty valid UTF-8 is not a continuation byte.
pub proof fn lemma_first_not_continuation(s: Seq<u8>)
    requires
        valid_utf8(s),
        s.len() > 0,
    ensures
        !is_continuation_byte(s[0]),
{
    lemma_boundary_at(s, 0);
    is_char_boundary_start_end_of_seq(s);
}

/// Both sides of a split at a char boundary are valid UTF-8.
pub proof fn lemma_split_valid(s: Seq<u8>, i: int)
    requires
        valid_utf8(s),
        0 <= i <= s.len(),
        is_char_boundary(s, i),
    ensures
        valid_utf8(s.subrange(0, i)),
        valid_utf8(s.subrange(i, s.len() as int)),
{
    valid_utf8_split(s, i);
}

/// A range between two char boundaries is valid UTF-8.
pub proof fn lemma_range_valid(s: Seq<u8>, i: int, j: int)
    requires
        valid_utf8(s),
        0 <= i <= j <= s.len(),
        is_char_boundary(s, i),
        is_char_boundary(s, j),
    ensures
        valid_utf8(s.subrange(i, j)),
{
    lemma_split_valid(s, j);
    let p = s.subrange(0, j);
    lemma_boundary_at(s, i);
    lemma_boundary_at(p, i);
    if i < j {
        assert(p[i] == s[i]);
    }
    lemma_split_valid(p, i);
    assert(p.subrange(i, p.len() as int) =~= s.subrange(i, j));
}

/// Char boundaries of a concatenation of valid UTF-8 texts.
pub proof fn lemma_concat_boundary(a: Seq<u8>, b: Seq<u8>, i: int)
    requires
        valid_utf8(a),
        valid_utf8(b),
        0 <= i <= a.len() + b.len(),
    ensures
        valid_utf8(a + b),
        i <= a.len() ==> (is_char_boundary(a + b, i) <==> is_char_boundary(a, i)),
        i >= a.len() ==> (is_char_boundary(a + b, i) <==> is_char_boundary(b, i - a.len())),
{
    valid_utf8_concat(a, b);
    lemma_boundary_at(a + b, i);
    if i <= a.len() {
        lemma_boundary_at(a, i);
        if i == a.len() && b.len() > 0 {
            lemma_first_not_continuation(b);
        }
    }
    if i >= a.len() {
        lemma_boundary_at(b, i - a.len());
    }
}

/// The position of an ASCII byte and the position just after it are char
/// boundaries.
pub proof fn lemma_ascii_boundaries(s: Seq<u8>, i: int)
    requires
        valid_utf8(s),
        0 <= i < s.len(),
        s[i] < 0x80,
    ensures
        is_char_boundary(s, i),
        is_char_boundary(s, i + 1),
{
    lemma_boundary_at(s, i);
    lemma_split_valid(s, i);
    let t = s.subrange(i, s.len() as int);
    assert(t[0] == s[i]);
    assert(pop_first_scalar(t) =~= s.subrange(i + 1, s.len() as int));
    lemma_boundary_at(s, i + 1);
    if i + 1 < s.len() {
        let u = s.subrange(i + 1, s.len() as int);
        assert(valid_utf8(u));
        lemma_first_not_continuation(u);
        assert(u[0] == s[i + 1]);
    }
}

/// Line boundaries are char boundaries.
pub proof fn lemma_line_bounds(s: Seq<u8>, i: int)
    requires
        valid_utf8(s),
        0 <= i < line_count_of(s),
    ensures
        0 <= line_start(s, i) <= line_end(s, i) <= s.len(),
        is_char_boundary(s, line_start(s, i)),
        is_char_boundary(s, line_end(s, i)),
        valid_utf8(line_bytes(s, i)),
{
    lemma_newline_positions(s);
    let p = newline_positions(s);
    is_char_boundary_start_end_of_seq(s);
    if i > 0 {
        lemma_ascii_boundaries(s, p[i - 1]);
    }
    if i < p.len() {
        lemma_ascii_boundaries(s, p[i]);
        if i > 0 {
            assert(p[i - 1] < p[i]);
        }
    }
    lemma_range_valid(s, line_start(s, i), line_end(s, i));
}

/// Encoding a concatenation encodes each part.
pub proof fn lemma_encode_concat(a: Seq<char>, b: Seq<char>)
    ensures
        encode_utf8(a + b) =~= encode_utf8(a) + encode_utf8(b),
    decreases a.len(),
{
    if a.len() > 0 {
        lemma_encode_concat(a.drop_first(), b);
        assert((a + b).drop_first() =~= a.drop_first() + b);
        assert((a + b)[0] == a[0]);
    } else {
        assert(a + b =~= b);
    }
}

/// The last scalar of non-empty valid UTF-8 starts at a byte that is not a
/// continuation byte, within the text.
pub proof fn lemma_last_scalar(s: Seq<u8>)
    requires
        valid_utf8(s),
        s.len() > 0,
    ensures
        1 <= length_of_last_scalar(s) <= 4,
        length_of_last_scalar(s) <= s.len(),
        !is_continuation_byte(s[s.len() - length_of_last_scalar(s)]),
    decreases s.len(),
{
    let f = length_of_first_scalar(s);
    let rest = pop_first_scalar(s);
    let n = s.len() as int;
    assert(valid_first_scalar(s));
    if rest.len() == 0 {
        assert(n == f);
    } else {
        lemma_last_scalar(rest);
        let m = rest.len() as int;
        assert forall|j: int| 1 <= j <= m implies #[trigger] s[n - j] == rest[m - j] by {
        }
        assert(length_of_last_scalar(s) == length_of_last_scalar(rest));
    }
}

/// The first scalar of the text after a char boundary: its width, read off
/// its leading byte, ends at another char boundary.
pub proof fn lemma_first_scalar_at(c: Seq<u8>, off: int)
    requires
        valid_utf8(c),
        0 <= off < c.len(),
        is_char_boundary(c, off),
    ensures
        ({
            let t = c.subrange(off, c.len() as int);
            &&& valid_first_scalar(t)
            &&& 1 <= length_of_first_scalar(t) <= 4
            &&& off + length_of_first_scalar(t) <= c.len()
            &&& is_char_boundary(c, off + length_of_first_scalar(t))
            &&& t[0] == c[off]
        }),
{
    lemma_split_valid(c, off);
    let t = c.subrange(off, c.len() as int);
    assert(valid_first_scalar(t));
    let k = length_of_first_scalar(t);
    let rest = pop_first_scalar(t);
    assert(valid_utf8(rest));
    lemma_boundary_at(c, off + k);
    if off + k < c.len() {
        lemma_first_not_continuation(rest);
        assert(rest[0] == c[off + k]);
    }
}

/// Each char takes one to four bytes in UTF-8.
pub proof fn lemma_encode_len(t: Seq<char>)
    ensures
        t.len() <= encode_utf8(t).len() <= 4 * t.len(),
    decreases t.len(),
{
    if t.len() > 0 {
        lemma_encode_len(t.drop_first());
    }
}

/// Non-empty text splits into its lines at its `'\n'` bytes: the first line
/// starts the text and the last one ends it, each line is followed by a
/// `'\n'` and the next line starts right after it, and no line holds a
/// `'\n'`.
pub proof fn law_lines_split_at_newlines(s: Seq<u8>)
    requires
        s.len() > 0,
    ensures
        line_count_of(s) >= 1,
        line_start(s, 0) == 0,
        line_end(s, line_count_of(s) - 1) == s.len(),
        forall|i: int|
            0 <= i < line_count_of(s) - 1 ==> s[#[trigger] line_end(s, i)] == nl() && line_start(
                s,
                i + 1,
            ) == line_end(s, i) + 1,
        forall|i: int|
            0 <= i < line_count_of(s) ==> 0 <= #[trigger] line_start(s, i) <= line_end(s, i)
                <= s.len(),
        forall|i: int|
            0 <= i < line_count_of(s) ==> !(#[trigger] line_bytes(s, i)).contains(nl()),
{
    lemma_newline_positions(s);
    let p = newline_positions(s);
    let lc = line_count_of(s) as int;
    assert forall|i: int| 0 <= i < lc implies 0 <= #[trigger] line_start(s, i) <= line_end(s, i)
        <= s.len() by {
        if i > 0 && i < p.len() {
            assert(p[i - 1] < p[i]);
        }
    }
    assert forall|i: int| 0 <= i < lc implies !(#[trigger] line_bytes(s, i)).contains(nl()) by {
        let b = line_bytes(s, i);
        if b.contains(nl()) {
            let q = choose|q: int| 0 <= q < b.len() && b[q] == nl();
            let k = line_start(s, i) + q;
            assert(s[k] == nl());
            let j = choose|j: int| 0 <= j < p.len() && #[trigger] p[j] == k;
            if j < i {
                if j < i - 1 {
                    assert(p[j] < p[i - 1]);
                }
            } else {
                if j > i {
                    assert(p[i] < p[j]);
                }
            }
        }
    }
}

} // verus!
