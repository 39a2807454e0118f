//! How a text is laid out: the bytes its characters take in UTF-8, and where
//! its lines begin.
use vstd::prelude::*;
use vstd::utf8::*;

verus! {

broadcast use {vstd::utf8::encode_utf8_valid_utf8, vstd::utf8::encode_utf8_decode_utf8};

/// How many bytes UTF-8 takes for `c`.
pub open spec fn spec_utf8_length(c: char) -> nat {
    let n = c as u32;
    if n < 0x80 {
        1
    } else if n < 0x800 {
        2
    } else if n < 0x10000 {
        3
    } else {
        4
    }
}

/// How many bytes UTF-8 takes for all of `s`.
pub open spec fn spec_utf8_bytes(s: Seq<char>) -> nat
    decreases s.len(),
{
    if s.len() == 0 {
        0
    } else {
        spec_utf8_bytes(s.drop_last()) + spec_utf8_length(s.last())
    }
}

/// The byte at which character `i` of `s` begins (or the end, for `i == s.len()`).
pub open spec fn spec_byte_offset(s: Seq<char>, i: int) -> nat {
    spec_utf8_bytes(s.take(i))
}

/// Whether `index` is a byte at which a character of `s` begins, or its end.
pub open spec fn spec_is_boundary(s: Seq<char>, index: int) -> bool {
    exists|k: int| 0 <= k <= s.len() && #[trigger] spec_byte_offset(s, k) == index
}

/// The bytes that UTF-8 takes for `c`.
pub fn utf8_length(c: char) -> (result: usize)
    ensures
        result == spec_utf8_length(c),
{
    let n = c as u32;
    if n < 0x80 {
        1
    } else if n < 0x800 {
        2
    } else if n < 0x10000 {
        3
    } else {
        4
    }
}

/// The encoding of two texts one after the other is the two encodings one
/// after the other.
pub proof fn lemma_encode_concat(a: Seq<char>, b: Seq<char>)
    ensures
        encode_utf8(a + b) == encode_utf8(a) + encode_utf8(b),
    decreases a.len(),
{
    if a.len() == 0 {
        assert(a + b =~= b);
        assert(encode_utf8(a) + encode_utf8(b) =~= encode_utf8(b));
    } else {
        assert((a + b).drop_first() =~= a.drop_first() + b);
        assert((a + b)[0] == a[0]);
        lemma_encode_concat(a.drop_first(), b);
        assert(encode_utf8(a + b) =~= encode_utf8(a) + encode_utf8(b));
    }
}

/// A character's encoding is as long as `spec_utf8_length` says.
pub proof fn lemma_scalar_length(c: char)
    ensures
        encode_scalar(c as u32).len() == spec_utf8_length(c),
{
    char_is_scalar(c);
}

/// The encoding of a text is `spec_utf8_bytes` long.
pub proof fn lemma_encode_length(s: Seq<char>)
    ensures
        encode_utf8(s).len() == spec_utf8_bytes(s),
    decreases s.len(),
{
    if s.len() > 0 {
        let c = s.last();
        assert(s =~= s.drop_last() + seq![c]);
        lemma_encode_concat(s.drop_last(), seq![c]);
        assert(seq![c].drop_first() =~= Seq::<char>::empty());
        assert(seq![c][0] == c);
        assert(encode_utf8(Seq::<char>::empty()).len() == 0);
        assert(encode_utf8(seq![c]).len() == encode_scalar(c as u32).len());
        lemma_scalar_length(c);
        lemma_encode_length(s.drop_last());
    }
}

/// The byte counts of two texts add up.
pub proof fn lemma_bytes_concat(a: Seq<char>, b: Seq<char>)
    ensures
        spec_utf8_bytes(a + b) == spec_utf8_bytes(a) + spec_utf8_bytes(b),
{
    lemma_encode_concat(a, b);
    lemma_encode_length(a);
    lemma_encode_length(b);
    lemma_encode_length(a + b);
}

/// Where one text ends in the encoding of it and another, a character begins.
pub proof fn lemma_concat_boundary(a: Seq<char>, b: Seq<char>)
    ensures
        is_char_boundary(encode_utf8(a + b), encode_utf8(a).len() as int),
    decreases a.len(),
{
    let bytes = encode_utf8(a + b);
    if a.len() > 0 {
        lemma_encode_concat(a, b);
        encode_utf8_first_scalar(a + b);
        assert((a + b)[0] == a[0]);
        assert((a + b).drop_first() =~= a.drop_first() + b);
        let first = encode_scalar(a[0] as u32);
        assert(encode_utf8(a) == first + encode_utf8(a.drop_first()));
        lemma_encode_concat(a.drop_first(), b);
        assert(pop_first_scalar(bytes) =~= encode_utf8(a.drop_first() + b));
        lemma_concat_boundary(a.drop_first(), b);
    }
}

/// Every character's first byte is a boundary of the encoding.
pub proof fn lemma_offset_is_boundary(s: Seq<char>, k: int)
    requires
        0 <= k <= s.len(),
    ensures
        is_char_boundary(encode_utf8(s), spec_byte_offset(s, k) as int),
        spec_byte_offset(s, k) <= spec_utf8_bytes(s),
{
    assert(s =~= s.take(k) + s.skip(k));
    lemma_concat_boundary(s.take(k), s.skip(k));
    lemma_encode_length(s.take(k));
    lemma_bytes_concat(s.take(k), s.skip(k));
}

/// The part of the encoding between two characters' first bytes encodes
/// the characters between them.
pub proof fn lemma_encode_subrange(s: Seq<char>, i: int, j: int)
    requires
        0 <= i <= j <= s.len(),
    ensures
        encode_utf8(s).subrange(spec_byte_offset(s, i) as int, spec_byte_offset(s, j) as int)
            == encode_utf8(s.subrange(i, j)),
{
    let a = s.take(i);
    let m = s.subrange(i, j);
    let c = s.skip(j);
    assert(s =~= a + m + c);
    assert(s.take(j) =~= a + m);
    lemma_encode_concat(a + m, c);
    lemma_encode_concat(a, m);
    lemma_encode_length(a);
    lemma_encode_length(a + m);
    assert(encode_utf8(s).subrange(spec_byte_offset(s, i) as int, spec_byte_offset(s, j) as int)
        =~= encode_utf8(m));
}

/// Offsets grow with the character index: each character takes at least a byte.
pub proof fn lemma_offset_monotone(s: Seq<char>, i: int, j: int)
    requires
        0 <= i <= j <= s.len(),
    ensures
        spec_byte_offset(s, i) + (j - i) <= spec_byte_offset(s, j),
    decreases j - i,
{
    if i < j {
        lemma_offset_monotone(s, i, j - 1);
        assert(s.take(j).drop_last() =~= s.take(j - 1));
    }
}

/// The offset of the character after `k` is that of `k` plus its length.
pub proof fn lemma_offset_next(s: Seq<char>, k: int)
    requires
        0 <= k < s.len(),
    ensures
        spec_byte_offset(s, k + 1) == spec_byte_offset(s, k) + spec_utf8_length(s[k]),
{
    assert(s.take(k + 1).drop_last() =~= s.take(k));
}

/// Distinct character indices have distinct offsets.
pub proof fn lemma_offset_injective(s: Seq<char>, i: int, j: int)
    requires
        0 <= i <= s.len(),
        0 <= j <= s.len(),
        spec_byte_offset(s, i) == spec_byte_offset(s, j),
    ensures
        i == j,
{
    if i < j {
        lemma_offset_monotone(s, i, j);
    } else if j < i {
        lemma_offset_monotone(s, j, i);
    }
}

/// A string slice between two characters' first bytes.
pub fn substring<'a>(text: &'a str, start: usize, end: usize, Ghost(i): Ghost<int>, Ghost(j): Ghost<int>) -> (result: &'a str)
    requires
        0 <= i <= j <= text@.len(),
        start == spec_byte_offset(text@, i),
        end == spec_byte_offset(text@, j),
    ensures
        result@ == text@.subrange(i, j),
{
    let ghost s = text@;
    proof {
        lemma_offset_is_boundary(s, i);
        lemma_offset_monotone(s, i, j);
        lemma_encode_length(s);
    }
    let (_, rest) = text.split_at(start);
    proof {
        lemma_encode_subrange(s, i, s.len() as int);
        assert(s.take(s.len() as int) =~= s);
        assert(encode_utf8(rest@) == encode_utf8(s.subrange(i, s.len() as int)));
        assert(decode_utf8(encode_utf8(rest@)) == rest@);
        assert(decode_utf8(encode_utf8(s.subrange(i, s.len() as int))) == s.subrange(i, s.len() as int));
        assert(rest@ == s.subrange(i, s.len() as int));
        let r = rest@;
        assert(r.take(j - i) =~= s.subrange(i, j));
        assert(s.take(j) =~= s.take(i) + r.take(j - i));
        lemma_bytes_concat(s.take(i), r.take(j - i));
        lemma_offset_is_boundary(r, j - i);
    }
    let (middle, _) = rest.split_at(end - start);
    proof {
        let r = rest@;
        lemma_encode_subrange(r, 0, j - i);
        assert(r.take(0) =~= Seq::<char>::empty());
        assert(encode_utf8(middle@) == encode_utf8(r.subrange(0, j - i)));
        assert(decode_utf8(encode_utf8(middle@)) == middle@);
        assert(decode_utf8(encode_utf8(r.subrange(0, j - i))) == r.subrange(0, j - i));
        assert(r.subrange(0, j - i) =~= s.subrange(i, j));
    }
    middle
}

/// The character indices at which the lines of `s` begin: its start, and the
/// character after each newline.
pub open spec fn spec_line_starts(s: Seq<char>) -> Seq<int>
    decreases s.len(),
{
    if s.len() == 0 {
        seq![0]
    } else {
        let before = spec_line_starts(s.drop_last());
        if s.last() == '\n' {
            before.push(s.len() as int)
        } else {
            before
        }
    }
}

/// Where line `j` of `s` ends: at its newline, or at the end of the text.
pub open spec fn spec_line_end(s: Seq<char>, j: int) -> int {
    let starts = spec_line_starts(s);
    if j + 1 < starts.len() {
        starts[j + 1] - 1
    } else {
        s.len() as int
    }
}

/// The characters of line `j` of `s`, without its newline.
pub open spec fn spec_line(s: Seq<char>, j: int) -> Seq<char> {
    s.subrange(spec_line_starts(s)[j], spec_line_end(s, j))
}

/// What the line starts of a text are: the first is the text's start, they
/// grow, each but the first follows a newline, and no line holds a newline.
pub open spec fn spec_starts_laid_out(s: Seq<char>, starts: Seq<int>) -> bool {
    &&& starts.len() >= 1
    &&& starts[0] == 0
    &&& forall|j: int| 0 <= j < starts.len() ==> 0 <= #[trigger] starts[j] <= s.len()
    &&& forall|i: int, j: int| 0 <= i < j < starts.len() ==> #[trigger] starts[i] < #[trigger] starts[j]
    &&& forall|j: int| 1 <= j < starts.len() ==> s[#[trigger] starts[j] - 1] == '\n'
    &&& forall|j: int, p: int|
        #![trigger starts[j], s[p]]
        0 <= j < starts.len() && starts[j] <= p < (if j + 1 < starts.len() { starts[j + 1] - 1 } else { s.len() as int })
            ==> s[p] != '\n'
}

/// The line starts are laid out as `spec_starts_laid_out` says.
pub proof fn lemma_line_starts(s: Seq<char>)
    ensures
        spec_starts_laid_out(s, spec_line_starts(s)),
    decreases s.len(),
{
    if s.len() > 0 {
        let t = s.drop_last();
        lemma_line_starts(t);
        let before = spec_line_starts(t);
        let starts = spec_line_starts(s);
        assert forall|j: int| 1 <= j < starts.len() implies s[#[trigger] starts[j] - 1] == '\n' by {
            if j < before.len() {
                assert(s[before[j] - 1] == t[before[j] - 1]);
            }
        }
        assert forall|j: int, p: int|
            #![trigger starts[j], s[p]]
            0 <= j < starts.len() && starts[j] <= p < (if j + 1 < starts.len() { starts[j + 1] - 1 } else { s.len() as int })
                implies s[p] != '\n' by {
            if p < t.len() {
                assert(s[p] == t[p]);
                if j + 1 < before.len() {
                    assert(starts[j + 1] == before[j + 1]);
                }
            }
        }
    }
}

/// Lines of the text up to a character are the lines of the whole text that
/// begin no later.
pub proof fn lemma_line_starts_extend(s: Seq<char>, i: int)
    requires
        0 <= i < s.len(),
    ensures
        spec_line_starts(s.take(i + 1)) == if s[i] == '\n' {
            spec_line_starts(s.take(i)).push(i + 1)
        } else {
            spec_line_starts(s.take(i))
        },
{
    assert(s.take(i + 1).drop_last() =~= s.take(i));
}

/// The offset of a character within a part of a text, added to the part's
/// own offset, is its offset in the text.
pub proof fn lemma_offset_split(s: Seq<char>, i: int, k: int)
    requires
        0 <= i <= k <= s.len(),
    ensures
        spec_byte_offset(s, k) == spec_byte_offset(s, i) + spec_utf8_bytes(s.subrange(i, k)),
{
    assert(s.take(k) =~= s.take(i) + s.subrange(i, k));
    lemma_bytes_concat(s.take(i), s.subrange(i, k));
}

/// The line starts from the one at `from` on, each moved on by `by`.
pub open spec fn spec_moved_starts(starts: Seq<int>, from: int, by: int) -> Seq<int> {
    Seq::new((starts.len() - from) as nat, |i: int| starts[from + i] + by)
}

/// The line starts of a text that follows `by` characters of another: all
/// but its first, moved on by `by`.
pub open spec fn spec_shifted_starts(starts: Seq<int>, by: int) -> Seq<int> {
    spec_moved_starts(starts, 1, by)
}

/// The line starts of two texts one after the other: those of the first, then
/// those of the second after its start, moved on by the first's length.
pub proof fn lemma_line_starts_concat(a: Seq<char>, b: Seq<char>)
    ensures
        spec_line_starts(a + b) == spec_line_starts(a) + spec_shifted_starts(spec_line_starts(b), a.len() as int),
    decreases b.len(),
{
    if b.len() == 0 {
        assert(a + b =~= a);
        assert(spec_shifted_starts(spec_line_starts(b), a.len() as int) =~= Seq::<int>::empty());
        assert(spec_line_starts(a) + Seq::<int>::empty() =~= spec_line_starts(a));
    } else {
        let rest = b.drop_last();
        assert((a + b).drop_last() =~= a + rest);
        assert((a + b).last() == b.last());
        lemma_line_starts_concat(a, rest);
        lemma_line_starts(rest);
        let before = spec_line_starts(rest);
        if b.last() == '\n' {
            assert(spec_shifted_starts(spec_line_starts(b), a.len() as int) =~= spec_shifted_starts(
                before,
                a.len() as int,
            ).push((b.len() + a.len()) as int));
            assert(spec_line_starts(a) + spec_shifted_starts(before, a.len() as int).push((b.len() + a.len()) as int)
                =~= (spec_line_starts(a) + spec_shifted_starts(before, a.len() as int)).push((b.len() + a.len()) as int));
        } else {
            assert(spec_shifted_starts(spec_line_starts(b), a.len() as int) =~= spec_shifted_starts(
                before,
                a.len() as int,
            ));
        }
    }
}

/// Split a text within line `l`: the line starts of the part before are the
/// first `l + 1`, and those of the part after, moved on, are the rest.
pub proof fn lemma_line_starts_split(s: Seq<char>, n: int, l: int)
    requires
        0 <= l < spec_line_starts(s).len(),
        spec_line_starts(s)[l] <= n <= spec_line_end(s, l),
    ensures
        spec_line_starts(s.take(n)) == spec_line_starts(s).take(l + 1),
        spec_shifted_starts(spec_line_starts(s.skip(n)), n) == spec_line_starts(s).skip(l + 1),
{
    let starts = spec_line_starts(s);
    lemma_line_starts(s);
    assert(s =~= s.take(n) + s.skip(n));
    lemma_line_starts_concat(s.take(n), s.skip(n));
    let head = spec_line_starts(s.take(n));
    let tail = spec_shifted_starts(spec_line_starts(s.skip(n)), n);
    lemma_line_starts(s.take(n));
    lemma_line_starts(s.skip(n));
    assert(starts == head + tail);
    assert forall|i: int| 0 <= i < tail.len() implies tail[i] > n by {
        assert(spec_line_starts(s.skip(n))[0] < spec_line_starts(s.skip(n))[i + 1]);
    }
    if head.len() > l + 1 {
        assert(starts[l + 1] == head[l + 1]);
        assert(head[l + 1] <= n);
    }
    if head.len() < l + 1 {
        assert(starts[l] == tail[l - head.len()]);
    }
    assert(starts.take(l + 1) =~= head);
    assert(starts.skip(l + 1) =~= tail);
}

/// `s` with its characters `i..j` replaced by `x`.
pub open spec fn spec_spliced(s: Seq<char>, i: int, j: int, x: Seq<char>) -> Seq<char> {
    s.take(i) + x + s.skip(j)
}

/// Where the characters of `s` are after replacing `i..j` by `x`: those before
/// keep their offsets, those after move by what was inserted less what was
/// removed.
pub proof fn lemma_offsets_after_splice(s: Seq<char>, i: int, j: int, x: Seq<char>, k: int)
    requires
        0 <= i <= j <= s.len(),
        0 <= k <= s.len(),
    ensures
        ({
            let n = spec_spliced(s, i, j, x);
            &&& n.len() == s.len() - (j - i) + x.len()
            &&& k <= i ==> spec_byte_offset(n, k) == spec_byte_offset(s, k)
            &&& j <= k ==> spec_byte_offset(n, k - j + i + x.len()) == spec_byte_offset(s, k) - spec_byte_offset(s, j)
                + spec_byte_offset(s, i) + spec_utf8_bytes(x)
            &&& j <= k ==> spec_byte_offset(s, j) <= spec_byte_offset(s, k)
        }),
{
    let n = spec_spliced(s, i, j, x);
    if k <= i {
        assert(n.take(k) =~= s.take(k));
    }
    if j <= k {
        let m = k - j + i + x.len();
        assert(n.take(m) =~= s.take(i) + x + s.subrange(j, k));
        lemma_bytes_concat(s.take(i) + x, s.subrange(j, k));
        lemma_bytes_concat(s.take(i), x);
        lemma_offset_split(s, j, k);
    }
}

/// The offsets within the inserted text, after replacing `i..j` of `s` by `x`.
pub proof fn lemma_offsets_in_insertion(s: Seq<char>, i: int, j: int, x: Seq<char>, m: int)
    requires
        0 <= i <= j <= s.len(),
        0 <= m <= x.len(),
    ensures
        spec_byte_offset(spec_spliced(s, i, j, x), i + m) == spec_byte_offset(s, i) + spec_utf8_bytes(x.take(m)),
{
    let n = spec_spliced(s, i, j, x);
    assert(n.take(i + m) =~= s.take(i) + x.take(m));
    lemma_bytes_concat(s.take(i), x.take(m));
}

/// The line starts after replacing `i..j` of `s` by `x`, where `i` is on line
/// `first` and `j` on line `last`: those up to `first`, those of `x` after
/// `i`, and those after `last`, moved by the change in length.
pub proof fn lemma_line_starts_after_splice(s: Seq<char>, i: int, j: int, x: Seq<char>, first: int, last: int)
    requires
        0 <= first <= last < spec_line_starts(s).len(),
        spec_line_starts(s)[first] <= i <= spec_line_end(s, first),
        spec_line_starts(s)[last] <= j <= spec_line_end(s, last),
        i <= j,
    ensures
        spec_line_starts(spec_spliced(s, i, j, x)) == spec_line_starts(s).take(first + 1)
            + spec_shifted_starts(spec_line_starts(x), i)
            + spec_moved_starts(spec_line_starts(s), last + 1, i + x.len() - j),
{
    let starts = spec_line_starts(s);
    lemma_line_starts(s);
    lemma_line_starts_split(s, i, first);
    lemma_line_starts_split(s, j, last);
    lemma_line_starts_concat(s.take(i) + x, s.skip(j));
    lemma_line_starts_concat(s.take(i), x);
    let tail = spec_shifted_starts(spec_line_starts(s.skip(j)), j);
    let moved = spec_shifted_starts(spec_line_starts(s.skip(j)), i + x.len());
    let wanted = spec_moved_starts(starts, last + 1, i + x.len() - j);
    assert(tail == starts.skip(last + 1));
    assert forall|m: int| 0 <= m < moved.len() implies #[trigger] moved[m] == wanted[m] by {
        assert(tail[m] == starts.skip(last + 1)[m]);
    }
    assert(moved =~= wanted);
    assert((s.take(i) + x).len() == i + x.len());
    assert(s.take(i).len() == i);
    assert(spec_line_starts(spec_spliced(s, i, j, x)) == spec_line_starts(s.take(i) + x) + moved);
    assert(spec_line_starts(s.take(i) + x) == starts.take(first + 1) + spec_shifted_starts(spec_line_starts(x), i));
}

/// Texts with the same encoding are the same.
pub proof fn lemma_encode_injective(a: Seq<char>, b: Seq<char>)
    requires
        encode_utf8(a) == encode_utf8(b),
    ensures
        a == b,
{
    assert(decode_utf8(encode_utf8(a)) == a);
    assert(decode_utf8(encode_utf8(b)) == b);
}

/// A text has at most one line more than it has characters.
pub proof fn lemma_line_count(s: Seq<char>)
    ensures
        spec_line_starts(s).len() <= s.len() + 1,
    decreases s.len(),
{
    if s.len() > 0 {
        lemma_line_count(s.drop_last());
    }
}

/// The hypotheses of a replacement of `i..j` of `s`, where `i` is on line
/// `first` and `j` on line `last`.
pub open spec fn spec_splice_on_lines(s: Seq<char>, i: int, j: int, first: int, last: int) -> bool {
    &&& 0 <= first <= last < spec_line_starts(s).len()
    &&& spec_line_starts(s)[first] <= i <= spec_line_end(s, first)
    &&& spec_line_starts(s)[last] <= j <= spec_line_end(s, last)
    &&& i <= j
}

/// After replacing `i..j` of `s` by `x`, a line before `first` is where it was,
/// with the same characters.
pub proof fn lemma_line_before_splice(s: Seq<char>, i: int, j: int, x: Seq<char>, first: int, last: int, l: int)
    requires
        spec_splice_on_lines(s, i, j, first, last),
        0 <= l < first,
    ensures
        spec_line_starts(spec_spliced(s, i, j, x))[l] == spec_line_starts(s)[l],
        spec_line(spec_spliced(s, i, j, x), l) == spec_line(s, l),
{
    let n = spec_spliced(s, i, j, x);
    let starts = spec_line_starts(s);
    lemma_line_starts(s);
    lemma_line_starts_after_splice(s, i, j, x, first, last);
    let ns = spec_line_starts(n);
    assert(ns[l] == starts[l]);
    assert(ns[l + 1] == starts[l + 1]);
    assert(starts[l + 1] <= starts[first]);
    assert(spec_line(n, l) =~= spec_line(s, l));
}

/// After replacing `i..j` of `s` by `x`, line `first` begins where it did, and
/// holds what it held before `i`.
pub proof fn lemma_first_line_after_splice(s: Seq<char>, i: int, j: int, x: Seq<char>, first: int, last: int)
    requires
        spec_splice_on_lines(s, i, j, first, last),
    ensures
        spec_line_starts(spec_spliced(s, i, j, x))[first] == spec_line_starts(s)[first],
        i <= spec_line_end(spec_spliced(s, i, j, x), first),
        spec_spliced(s, i, j, x).subrange(spec_line_starts(s)[first], i) == s.subrange(spec_line_starts(s)[first], i),
        spec_line_starts(spec_spliced(s, i, j, x)).len() == spec_line_starts(s).len() + spec_line_starts(x).len() - 1 - (last - first),
{
    let n = spec_spliced(s, i, j, x);
    let starts = spec_line_starts(s);
    let xs = spec_line_starts(x);
    lemma_line_starts(s);
    lemma_line_starts(x);
    lemma_line_starts_after_splice(s, i, j, x, first, last);
    let ns = spec_line_starts(n);
    assert(ns[first] == starts[first]);
    assert(n.subrange(starts[first], i) =~= s.subrange(starts[first], i));
    if first + 1 < ns.len() {
        if xs.len() > 1 {
            assert(ns[first + 1] == xs[1] + i);
            assert(xs[0] < xs[1]);
        } else {
            assert(ns[first + 1] == starts[last + 1] + i + x.len() - j);
        }
    }
}

/// After replacing `i..j` of `s` by `x`, the line `q` places after line `last`
/// has moved along with the text, keeping its characters.
pub proof fn lemma_line_after_splice(s: Seq<char>, i: int, j: int, x: Seq<char>, first: int, last: int, q: int)
    requires
        spec_splice_on_lines(s, i, j, first, last),
        0 <= q < spec_line_starts(s).len() - last - 1,
    ensures
        ({
            let l = first + spec_line_starts(x).len() + q;
            &&& spec_line_starts(spec_spliced(s, i, j, x))[l] == spec_line_starts(s)[last + 1 + q] + i + x.len() - j
            &&& spec_line(spec_spliced(s, i, j, x), l) == spec_line(s, last + 1 + q)
        }),
{
    let n = spec_spliced(s, i, j, x);
    let starts = spec_line_starts(s);
    let delta = i + x.len() - j;
    let l = first + spec_line_starts(x).len() + q;
    lemma_line_starts(s);
    lemma_line_starts(x);
    lemma_line_starts_after_splice(s, i, j, x, first, last);
    let ns = spec_line_starts(n);
    let moved = spec_moved_starts(starts, last + 1, delta);
    let head = starts.take(first + 1) + spec_shifted_starts(spec_line_starts(x), i);
    assert(head.len() == first + spec_line_starts(x).len());
    assert(ns == head + moved);
    assert(ns[l] == moved[q]);
    assert(ns[l] == starts[last + 1 + q] + delta);
    if l + 1 < ns.len() {
        assert(ns[l + 1] == moved[q + 1]);
        assert(ns[l + 1] == starts[last + 2 + q] + delta);
    }
    assert(starts[last + 1] <= starts[last + 1 + q]);
    assert(spec_line(n, l) =~= spec_line(s, last + 1 + q));
}

/// Line `j` lies within the text, before the next line, and is as long as
/// the characters between its start and end.
pub proof fn lemma_line_bounds(s: Seq<char>, j: int)
    requires
        0 <= j < spec_line_starts(s).len(),
    ensures
        0 <= spec_line_starts(s)[j] <= spec_line_end(s, j) <= s.len(),
        spec_line(s, j).len() == spec_line_end(s, j) - spec_line_starts(s)[j],
        j + 1 < spec_line_starts(s).len() ==> spec_line_end(s, j) + 1 == spec_line_starts(s)[j + 1],
        j == 0 ==> spec_line_starts(s)[j] == 0,
{
    lemma_line_starts(s);
    if j + 1 < spec_line_starts(s).len() {
        assert(spec_line_starts(s)[j] < spec_line_starts(s)[j + 1]);
    }
}

} // verus!
