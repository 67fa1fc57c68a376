use vstd::prelude::*;
use crate::text::{chars_of, string_from_chars};

verus! {

/// The windows of `s` from `start` on: each holds `size` elements (the last may hold
/// fewer), and each next one begins `size - overlap` elements after the previous one.
pub open spec fn chunks_from<T>(s: Seq<T>, start: int, size: int, overlap: int) -> Seq<Seq<T>>
    decreases s.len() - start,
    when 0 <= overlap < size && 0 <= start <= s.len()
{
    if start + size >= s.len() {
        seq![s.subrange(start, s.len() as int)]
    } else {
        seq![s.subrange(start, start + size)] + chunks_from(s, start + size - overlap, size, overlap)
    }
}

/// The overlapping windows of the whole of `s`.
pub open spec fn chunks<T>(s: Seq<T>, size: int, overlap: int) -> Seq<Seq<T>> {
    chunks_from(s, 0, size, overlap)
}

/// The contents of a vector of vectors, as a sequence of sequences.
pub open spec fn nested_view<T>(v: Seq<Vec<T>>) -> Seq<Seq<T>> {
    v.map_values(|w: Vec<T>| w@)
}

/// Whether position `p` of the input lies in window `k`.
pub open spec fn in_window<T>(s: Seq<T>, size: int, overlap: int, k: int, p: int) -> bool {
    k * (size - overlap) <= p < k * (size - overlap) + chunks(s, size, overlap)[k].len()
}

/// Whether position `p` of the input lies in some window.
pub open spec fn covered<T>(s: Seq<T>, size: int, overlap: int, p: int) -> bool {
    exists|k: int| 0 <= k < chunks(s, size, overlap).len() && #[trigger] in_window(s, size, overlap, k, p)
}

/// Where window `k` of the windows from `start` on begins and ends, and whether a
/// window follows it.
pub open spec fn window_at<T>(s: Seq<T>, start: int, size: int, overlap: int, k: int) -> bool {
    let b = start + k * (size - overlap);
    let w = chunks_from(s, start, size, overlap);
    &&& (b < s.len() || (k == 0 && b == s.len()))
    &&& w[k] == s.subrange(b, if b + size <= s.len() { b + size } else { s.len() as int })
    &&& (k + 1 < w.len() <==> b + size < s.len())
}

pub proof fn lemma_chunks_from_shape<T>(s: Seq<T>, start: int, size: int, overlap: int)
    requires
        0 <= overlap < size,
        0 <= start <= s.len(),
    ensures
        chunks_from(s, start, size, overlap).len() >= 1,
        forall|k: int|
            0 <= k < chunks_from(s, start, size, overlap).len() ==> #[trigger] window_at(
                s,
                start,
                size,
                overlap,
                k,
            ),
        start < s.len() ==> start + (chunks_from(s, start, size, overlap).len() - 1) * (size
            - overlap) + size >= s.len(),
    decreases s.len() - start,
{
    let w = chunks_from(s, start, size, overlap);
    if start + size >= s.len() {
        assert(w.len() == 1);
        assert forall|k: int| 0 <= k < w.len() implies #[trigger] window_at(s, start, size, overlap, k) by {
            assert(k == 0);
            assert(k * (size - overlap) == 0);
        }
        assert(0 * (size - overlap) == 0);
    } else {
        let next = start + (size - overlap);
        lemma_chunks_from_shape(s, next, size, overlap);
        let rest = chunks_from(s, next, size, overlap);
        assert(w =~= seq![s.subrange(start, start + size)] + rest);
        assert forall|k: int| 0 <= k < w.len() implies #[trigger] window_at(s, start, size, overlap, k) by {
            if k == 0 {
                assert(k * (size - overlap) == 0);
            } else {
                assert(window_at(s, next, size, overlap, k - 1));
                assert(w[k] == rest[k - 1]);
                assert(start + k * (size - overlap) == next + (k - 1) * (size - overlap)) by (nonlinear_arith)
                    requires
                        next == start + (size - overlap),
                ;
            }
        }
        assert(start + (w.len() - 1) * (size - overlap) == next + (rest.len() - 1) * (size - overlap)) by (nonlinear_arith)
            requires
                w.len() == rest.len() + 1,
                next == start + (size - overlap),
        ;
    }
}

/// Every position of the input lies in some window; two neighbouring windows share
/// exactly `overlap` elements (the last `overlap` of the first are the first `overlap`
/// of the second, and every window but the last is full); and a position that lies
/// within one window but in neither of that window's overlaps with its neighbours
/// lies in that window alone.
pub proof fn lemma_chunks_cover<T>(s: Seq<T>, size: int, overlap: int)
    requires
        0 <= overlap < size,
    ensures
        forall|p: int| 0 <= p < s.len() ==> #[trigger] covered(s, size, overlap, p),
        forall|k: int|
            0 <= k && k + 1 < chunks(s, size, overlap).len() ==> {
                &&& (#[trigger] chunks(s, size, overlap)[k]).len() == size
                &&& chunks(s, size, overlap)[k + 1].len() > overlap
                &&& chunks(s, size, overlap)[k].subrange(size - overlap, size) == chunks(
                    s,
                    size,
                    overlap,
                )[k + 1].subrange(0, overlap)
            },
        forall|k: int, p: int|
            0 <= k < chunks(s, size, overlap).len() && p < s.len() && k * (size - overlap) + overlap
                <= p < k * (size - overlap) + size - overlap ==> #[trigger] in_window(
                s,
                size,
                overlap,
                k,
                p,
            ) && forall|j: int|
                0 <= j < chunks(s, size, overlap).len() && j != k ==> !#[trigger] in_window(
                    s,
                    size,
                    overlap,
                    j,
                    p,
                ),
{
    lemma_chunks_from_shape(s, 0, size, overlap);
    let w = chunks(s, size, overlap);
    assert forall|p: int| 0 <= p < s.len() implies #[trigger] covered(s, size, overlap, p) by {
        // the last window whose start is at most p
        let n = w.len();
        let k = p / (size - overlap);
        let k2 = if k < n - 1 { k } else { n - 1 };
        assert(0 <= k) by (nonlinear_arith)
            requires
                p >= 0,
                (size - overlap) > 0,
                k == p / (size - overlap),
        ;
        assert(k * (size - overlap) <= p < k * (size - overlap) + (size - overlap)) by (nonlinear_arith)
            requires
                p >= 0,
                (size - overlap) > 0,
                k == p / (size - overlap),
        ;
        assert(window_at(s, 0, size, overlap, k2));
        if k < n - 1 {
            assert(in_window(s, size, overlap, k2, p));
        } else {
            assert(k2 * (size - overlap) <= k * (size - overlap)) by (nonlinear_arith)
                requires
                    k2 <= k,
                    (size - overlap) > 0,
            ;
            assert(0 * (size - overlap) + (n - 1) * (size - overlap) + size >= s.len());
            assert(in_window(s, size, overlap, k2, p));
        }
    }
    assert forall|k: int| 0 <= k && k + 1 < w.len() implies {
        &&& (#[trigger] w[k]).len() == size
        &&& w[k + 1].len() > overlap
        &&& w[k].subrange(size - overlap, size) == w[k + 1].subrange(0, overlap)
    } by {
        let b = k * (size - overlap);
        assert((k + 1) * (size - overlap) == b + (size - overlap)) by (nonlinear_arith)
            requires
                b == k * (size - overlap),
        ;
        assert(window_at(s, 0, size, overlap, k));
        assert(window_at(s, 0, size, overlap, k + 1));
        let b1 = (k + 1) * (size - overlap);
        let e1 = if b1 + size <= s.len() { b1 + size } else { s.len() as int };
        assert(0 + (k + 1) * (size - overlap) == b1);
        assert(w[k].subrange(size - overlap, size) =~= w[k + 1].subrange(0, overlap));
    }
    assert forall|k: int, p: int|
        0 <= k < w.len() && p < s.len() && k * (size - overlap) + overlap <= p < k * (size - overlap)
            + size - overlap implies #[trigger] in_window(s, size, overlap, k, p) && forall|j: int|
        0 <= j < w.len() && j != k ==> !#[trigger] in_window(s, size, overlap, j, p) by {
        let bk = k * (size - overlap);
        let ek = if bk + size <= s.len() { bk + size } else { s.len() as int };
        assert(window_at(s, 0, size, overlap, k));
        assert(window_at(s, 0, size, overlap, k));
        assert forall|j: int| 0 <= j < w.len() && j != k implies !#[trigger] in_window(s, size, overlap, j, p) by {
        assert(window_at(s, 0, size, overlap, j));
        if j < k {
            assert(j * (size - overlap) + size <= k * (size - overlap) + overlap) by (nonlinear_arith)
                requires
                    j < k,
                    (size - overlap) == size - overlap,
                    (size - overlap) > 0,
            ;
        } else {
            assert(j * (size - overlap) >= k * (size - overlap) + (size - overlap)) by (nonlinear_arith)
                requires
                    j > k,
                    (size - overlap) > 0,
            ;
        }
        }
    }
}

/// The windows put back together: the first whole, then each later one without the
/// elements it shares with the one before.
pub open spec fn rebuild<T>(ws: Seq<Seq<T>>, overlap: int) -> Seq<T> {
    if ws.len() == 0 {
        seq![]
    } else {
        ws[0] + tails(ws.skip(1), overlap)
    }
}

/// The windows without their first `overlap` elements, one after the other.
pub open spec fn tails<T>(ws: Seq<Seq<T>>, overlap: int) -> Seq<T>
    decreases ws.len(),
{
    if ws.len() == 0 {
        seq![]
    } else {
        ws[0].skip(overlap) + tails(ws.skip(1), overlap)
    }
}

proof fn lemma_rebuild_from<T>(s: Seq<T>, start: int, size: int, overlap: int)
    requires
        0 <= overlap < size,
        0 <= start <= s.len(),
    ensures
        rebuild(chunks_from(s, start, size, overlap), overlap) == s.subrange(start, s.len() as int),
    decreases s.len() - start,
{
    let w = chunks_from(s, start, size, overlap);
    if start + size >= s.len() {
        assert(w.skip(1) =~= Seq::<Seq<T>>::empty());
        assert(rebuild(w, overlap) =~= s.subrange(start, s.len() as int));
    } else {
        let next = start + size - overlap;
        lemma_rebuild_from(s, next, size, overlap);
        let rest = chunks_from(s, next, size, overlap);
        assert(w.skip(1) =~= rest);
        let e = if next + size <= s.len() { next + size } else { s.len() as int };
        assert(rest[0] == s.subrange(next, e)) by {
            if next + size >= s.len() {
            } else {
            }
        }
        assert(rest.skip(1) =~= rest.skip(1));
        assert(tails(rest, overlap) == rest[0].skip(overlap) + tails(rest.skip(1), overlap));
        assert(rest[0].skip(overlap) =~= s.subrange(start + size, e));
        assert(s.subrange(next, s.len() as int) =~= rest[0] + tails(rest.skip(1), overlap));
        assert(s.subrange(e, s.len() as int) =~= tails(rest.skip(1), overlap)) by {
            assert(s.subrange(next, s.len() as int).skip(e - next) =~= s.subrange(e, s.len() as int));
            assert((rest[0] + tails(rest.skip(1), overlap)).skip(e - next) =~= tails(rest.skip(1), overlap));
        }
        assert(rebuild(w, overlap) =~= s.subrange(start, s.len() as int));
    }
}

/// Putting the windows back together, each later one without the `overlap` elements it
/// shares with the one before, gives the input again: every element is covered, and
/// outside the shared parts exactly once, in order.
pub proof fn lemma_chunks_rebuild<T>(s: Seq<T>, size: int, overlap: int)
    requires
        0 <= overlap < size,
    ensures
        rebuild(chunks(s, size, overlap), overlap) == s,
{
    lemma_rebuild_from(s, 0, size, overlap);
    assert(s.subrange(0, s.len() as int) =~= s);
}

/// Splits `input` into windows of `chunk_size` elements, each next window beginning
/// `chunk_size - overlap_size` elements after the previous one, so that neighbours
/// share `overlap_size` elements; the last window may be shorter. An empty input
/// gives one empty window.
pub fn overlaping_chunks<T: Copy>(input: &Vec<T>, chunk_size: usize, overlap_size: usize) -> (r: Vec<Vec<T>>)
    requires
        overlap_size < chunk_size,
    ensures
        nested_view(r@) == chunks(input@, chunk_size as int, overlap_size as int),
{
    let ghost s = input@;
    let ghost size = chunk_size as int;
    let ghost ov = overlap_size as int;
    let mut r: Vec<Vec<T>> = Vec::new();
    let mut start: usize = 0;
    loop
        invariant
            0 <= start <= input.len(),
            start == 0 || start < input.len(),
            overlap_size < chunk_size,
            s == input@,
            size == chunk_size as int,
            ov == overlap_size as int,
            nested_view(r@) + chunks_from(s, start as int, size, ov) == chunks(s, size, ov),
        decreases input.len() - start,
    {
        let end: usize = if chunk_size <= input.len() - start {
            start + chunk_size
        } else {
            input.len()
        };
        let mut w: Vec<T> = Vec::new();
        let mut i: usize = start;
        while i < end
            invariant
                start <= i <= end <= input.len(),
                w@ == s.subrange(start as int, i as int),
                s == input@,
            decreases end - i,
        {
            w.push(input[i]);
            i = i + 1;
        }
        let ghost before = nested_view(r@);
        r.push(w);
        assert(nested_view(r@) =~= before.push(s.subrange(start as int, end as int)));
        if end >= input.len() {
            assert(chunks_from(s, start as int, size, ov) == seq![s.subrange(start as int, s.len() as int)]);
            assert(nested_view(r@) =~= before + chunks_from(s, start as int, size, ov));
            return r;
        }
        let ghost rest = chunks_from(s, start + size - ov, size, ov);
        assert(chunks_from(s, start as int, size, ov) == seq![s.subrange(start as int, start + size)] + rest);
        assert(nested_view(r@) + rest =~= before + chunks_from(s, start as int, size, ov));
        start = start + (chunk_size - overlap_size);
    }
}

pub open spec fn is_digit(c: char) -> bool {
    '0' <= c <= '9'
}

/// The decimal digits of a text, in order, everything else dropped.
pub open spec fn digits_of(s: Seq<char>) -> Seq<char>
    decreases s.len(),
{
    if s.len() == 0 {
        seq![]
    } else if is_digit(s.last()) {
        digits_of(s.drop_last()).push(s.last())
    } else {
        digits_of(s.drop_last())
    }
}

/// The number that a string of decimal digits denotes.
pub open spec fn digits_value(d: Seq<char>) -> nat
    decreases d.len(),
{
    if d.len() == 0 {
        0
    } else {
        digits_value(d.drop_last()) * 10 + (d.last() as nat - '0' as nat) as nat
    }
}

/// The number that the digits of a text denote, when it has digits and the number
/// fits in 64 bits.
pub open spec fn number_in(s: Seq<char>) -> Option<u64> {
    let d = digits_of(s);
    if d.len() == 0 || digits_value(d) > u64::MAX {
        None
    } else {
        Some(digits_value(d) as u64)
    }
}

/// The number that the digits of `cs[a..b]` denote.
pub fn parse_digits(cs: &Vec<char>, a: usize, b: usize) -> (r: Option<u64>)
    requires
        a <= b <= cs.len(),
    ensures
        r == number_in(cs@.subrange(a as int, b as int)),
{
    let ghost s = cs@.subrange(a as int, b as int);
    let mut i: usize = a;
    let mut value: u64 = 0;
    let mut any: bool = false;
    let mut over: bool = false;
    while i < b
        invariant
            a <= i <= b <= cs.len(),
            s == cs@.subrange(a as int, b as int),
            any == (digits_of(cs@.subrange(a as int, i as int)).len() > 0),
            over == (digits_value(digits_of(cs@.subrange(a as int, i as int))) > u64::MAX),
            !over ==> value == digits_value(digits_of(cs@.subrange(a as int, i as int))),
        decreases b - i,
    {
        let ghost prev = cs@.subrange(a as int, i as int);
        let ghost next = cs@.subrange(a as int, i + 1);
        assert(next.drop_last() =~= prev);
        let c = cs[i];
        assert(next.last() == c);
        if '0' <= c && c <= '9' {
            let d: u64 = (c as u32 - '0' as u32) as u64;
            let ghost pv = digits_value(digits_of(prev));
            assert(next.last() == c);
            assert(digits_of(next) == digits_of(prev).push(c));
            assert(digits_of(prev).push(c).drop_last() =~= digits_of(prev));
            assert(digits_value(digits_of(next)) == pv * 10 + d);
            if !over {
                if value > (u64::MAX - d) / 10 {
                    over = true;
                    assert(pv * 10 + d > u64::MAX) by (nonlinear_arith)
                        requires
                            pv == value,
                            value > (u64::MAX - d) / 10,
                            d <= 9,
                    ;
                } else {
                    assert(pv * 10 + d <= u64::MAX) by (nonlinear_arith)
                        requires
                            pv == value,
                            value <= (u64::MAX - d) / 10,
                            d <= 9,
                    ;
                    value = value * 10 + d;
                }
            } else {
                assert(pv * 10 + d > u64::MAX) by (nonlinear_arith)
                    requires
                        pv > u64::MAX,
                ;
            }
            any = true;
        }
        i = i + 1;
    }
    if !any || over {
        None
    } else {
        Some(value)
    }
}

/// The number that the digits of a text denote: "789waka123" gives 789123.
pub fn atoi(input: &str) -> (r: Option<u64>)
    ensures
        r == number_in(input@),
{
    let cs = chars_of(input);
    assert(cs@.subrange(0, cs.len() as int) =~= cs@);
    parse_digits(&cs, 0, cs.len())
}

/// The characters of `text` at positions `[start, end)`.
pub fn substring(text: &Vec<char>, start: usize, end: usize) -> (r: String)
    requires
        start <= end <= text.len(),
    ensures
        r@ == text@.subrange(start as int, end as int),
{
    string_from_chars(&text.as_slice()[start..end])
}

} // verus!
