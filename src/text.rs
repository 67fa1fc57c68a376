use vstd::prelude::*;

verus! {

/// Reads the characters of a string slice into a vector, in order.
pub fn chars_of(s: &str) -> (r: Vec<char>)
    ensures
        r@ == s@,
{
    let mut r: Vec<char> = Vec::new();
    for c in it: s.chars()
        invariant
            r@ == it.seq().take(it.index() as int),
            it.seq() == s@,
    {
        r.push(c);
    }
    r
}

/// Relies on `FromIterator<char> for String`: the string holds the characters in order.
#[verifier::external_body]
pub(crate) fn string_from_chars(cs: &[char]) -> (r: String)
    ensures
        r@ == cs@,
{
    cs.iter().collect()
}

/// What `str::to_lowercase` makes of a text.
pub uninterp spec fn lower_of(s: Seq<char>) -> Seq<char>;

/// Relies on `str::to_lowercase`: the result depends on the characters alone, and
/// an empty text stays empty.
#[verifier::external_body]
pub(crate) fn lowercase(s: &str) -> (r: String)
    ensures
        r@ == lower_of(s@),
        s@.len() == 0 ==> r@.len() == 0,
{
    s.to_lowercase()
}

/// Unicode's White_Space property, the one `char::is_whitespace` tests.
pub open spec fn is_white(c: char) -> bool {
    let u = c as u32;
    (0x9 <= u <= 0xd) || u == 0x20 || u == 0x85 || u == 0xa0 || u == 0x1680 || (0x2000 <= u
        <= 0x200a) || u == 0x2028 || u == 0x2029 || u == 0x202f || u == 0x205f || u == 0x3000
}

pub fn is_whitespace(c: char) -> (r: bool)
    ensures
        r == is_white(c),
{
    let u = c as u32;
    (0x9 <= u && u <= 0xd) || u == 0x20 || u == 0x85 || u == 0xa0 || u == 0x1680 || (0x2000 <= u
        && u <= 0x200a) || u == 0x2028 || u == 0x2029 || u == 0x202f || u == 0x205f || u == 0x3000
}

/// The words of a text, as the positions `[start, end)` of its maximal runs of
/// characters that are not whitespace, in order.
pub open spec fn word_spans(s: Seq<char>) -> Seq<(int, int)>
    decreases s.len(),
{
    if s.len() == 0 {
        seq![]
    } else {
        let t = s.drop_last();
        let prev = word_spans(t);
        if is_white(s.last()) {
            prev
        } else if t.len() > 0 && !is_white(t.last()) {
            prev.update(prev.len() - 1, (prev.last().0, s.len() as int))
        } else {
            prev.push((t.len() as int, s.len() as int))
        }
    }
}

/// The number of whitespace-separated words of a text.
pub open spec fn word_count(s: Seq<char>) -> nat {
    word_spans(s).len()
}

/// The texts at the given positions.
pub open spec fn span_texts(s: Seq<char>, spans: Seq<(int, int)>) -> Seq<Seq<char>> {
    spans.map_values(|p: (int, int)| s.subrange(p.0, p.1))
}

/// The words of a text.
pub open spec fn words(s: Seq<char>) -> Seq<Seq<char>> {
    span_texts(s, word_spans(s))
}

pub open spec fn spans_of(v: Seq<(usize, usize)>) -> Seq<(int, int)> {
    v.map_values(|p: (usize, usize)| (p.0 as int, p.1 as int))
}

pub proof fn lemma_word_spans_shape(s: Seq<char>)
    ensures
        forall|k: int|
            0 <= k < word_spans(s).len() ==> 0 <= (#[trigger] word_spans(s)[k]).0 < word_spans(
                s,
            )[k].1 <= s.len(),
        (s.len() > 0 && !is_white(s.last())) ==> word_spans(s).len() > 0 && word_spans(
            s,
        ).last().1 == s.len(),
    decreases s.len(),
{
    if s.len() > 0 {
        let t = s.drop_last();
        lemma_word_spans_shape(t);
        let prev = word_spans(t);
        let cur = word_spans(s);
        if !is_white(s.last()) && t.len() > 0 && !is_white(t.last()) {
            assert forall|k: int| 0 <= k < cur.len() implies 0 <= (#[trigger] cur[k]).0 < cur[k].1
                <= s.len() by {
                assert(prev[k].0 < prev[k].1 <= t.len());
            }
        } else if !is_white(s.last()) {
            assert forall|k: int| 0 <= k < cur.len() implies 0 <= (#[trigger] cur[k]).0 < cur[k].1
                <= s.len() by {
                if k < prev.len() {
                    assert(prev[k].0 < prev[k].1 <= t.len());
                }
            }
        } else {
            assert forall|k: int| 0 <= k < cur.len() implies 0 <= (#[trigger] cur[k]).0 < cur[k].1
                <= s.len() by {
                assert(prev[k].0 < prev[k].1 <= t.len());
            }
        }
    }
}

/// Finds the words of `cs`.
pub fn word_spans_of(cs: &Vec<char>) -> (r: Vec<(usize, usize)>)
    ensures
        spans_of(r@) == word_spans(cs@),
{
    let mut r: Vec<(usize, usize)> = Vec::new();
    let mut i: usize = 0;
    while i < cs.len()
        invariant
            i <= cs.len(),
            spans_of(r@) == word_spans(cs@.take(i as int)),
        decreases cs.len() - i,
    {
        let ghost t = cs@.take(i as int);
        let ghost s = cs@.take(i + 1);
        assert(s.drop_last() =~= t);
        proof {
            lemma_word_spans_shape(t);
            lemma_word_spans_shape(s);
        }
        let c = cs[i];
        if !is_whitespace(c) {
            if i > 0 && !is_whitespace(cs[i - 1]) {
                assert(t.last() == cs@[i - 1]);
                let last = r.len() - 1;
                let a = r[last].0;
                r.set(last, (a, i + 1));
                assert(spans_of(r@) =~= word_spans(s));
            } else {
                r.push((i, i + 1));
                assert(spans_of(r@) =~= word_spans(s));
            }
        }
        i = i + 1;
    }
    assert(cs@.take(cs.len() as int) =~= cs@);
    r
}

/// Words joined with one space between neighbours.
pub open spec fn join_spaced(ws: Seq<Seq<char>>) -> Seq<char>
    decreases ws.len(),
{
    if ws.len() == 0 {
        seq![]
    } else if ws.len() == 1 {
        ws[0]
    } else {
        join_spaced(ws.drop_last()) + seq![' '] + ws.last()
    }
}

/// Joins the texts at the given positions of `cs` with one space between neighbours.
pub fn join_spans(cs: &Vec<char>, spans: &Vec<(usize, usize)>) -> (r: Vec<char>)
    requires
        forall|k: int| 0 <= k < spans.len() ==> (#[trigger] spans[k]).0 <= spans[k].1 <= cs.len(),
    ensures
        r@ == join_spaced(span_texts(cs@, spans_of(spans@))),
{
    let mut r: Vec<char> = Vec::new();
    let mut k: usize = 0;
    while k < spans.len()
        invariant
            k <= spans.len(),
            forall|q: int| 0 <= q < spans.len() ==> (#[trigger] spans[q]).0 <= spans[q].1 <= cs.len(),
            r@ == join_spaced(span_texts(cs@, spans_of(spans@.take(k as int)))),
        decreases spans.len() - k,
    {
        let ghost prev = span_texts(cs@, spans_of(spans@.take(k as int)));
        let ghost next = span_texts(cs@, spans_of(spans@.take(k + 1)));
        assert(next.drop_last() =~= prev);
        if k > 0 {
            r.push(' ');
        }
        let (a, b) = spans[k];
        let mut i: usize = a;
        let ghost base = r@;
        while i < b
            invariant
                a <= i <= b <= cs.len(),
                r@ == base + cs@.subrange(a as int, i as int),
            decreases b - i,
        {
            r.push(cs[i]);
            i = i + 1;
            assert(r@ =~= base + cs@.subrange(a as int, i as int));
        }
        assert(next.last() == cs@.subrange(a as int, b as int));
        if k == 0 {
            assert(r@ =~= join_spaced(next));
        } else {
            assert(r@ =~= join_spaced(next));
        }
        k = k + 1;
    }
    assert(spans@.take(spans.len() as int) =~= spans@);
    r
}

/// Line breaks become spaces.
pub open spec fn newline_to_space(s: Seq<char>) -> Seq<char> {
    s.map_values(|c: char| if c == '\n' { ' ' } else { c })
}

/// Each run of spaces becomes one space.
pub open spec fn collapse_spaces(s: Seq<char>) -> Seq<char>
    decreases s.len(),
{
    if s.len() == 0 {
        seq![]
    } else if s.len() >= 2 && s[0] == ' ' && s[1] == ' ' {
        collapse_spaces(s.skip(1))
    } else {
        seq![s[0]] + collapse_spaces(s.skip(1))
    }
}

/// The first position at or after `i` that does not hold whitespace, or the length.
pub open spec fn lead_from(s: Seq<char>, i: int) -> int
    decreases s.len() - i,
{
    if i >= s.len() {
        s.len() as int
    } else if is_white(s[i]) {
        lead_from(s, i + 1)
    } else {
        i
    }
}

/// One past the last position before `j` that does not hold whitespace, or zero.
pub open spec fn end_from(s: Seq<char>, j: int) -> int
    decreases j,
{
    if j <= 0 {
        0
    } else if is_white(s[j - 1]) {
        end_from(s, j - 1)
    } else {
        j
    }
}

/// The text without leading and trailing whitespace.
pub open spec fn trim(s: Seq<char>) -> Seq<char> {
    let a = lead_from(s, 0);
    let b = end_from(s, s.len() as int);
    if a < b {
        s.subrange(a, b)
    } else {
        seq![]
    }
}

/// A raw phrase made clean: line breaks become spaces, runs of spaces become one
/// space, and the ends are trimmed.
pub open spec fn clean(s: Seq<char>) -> Seq<char> {
    trim(collapse_spaces(newline_to_space(s)))
}

proof fn lemma_lead_end_bounds(s: Seq<char>, i: int, j: int)
    requires
        0 <= i <= s.len(),
        0 <= j <= s.len(),
    ensures
        i <= lead_from(s, i) <= s.len(),
        0 <= end_from(s, j) <= j,
        lead_from(s, i) < s.len() ==> !is_white(s[lead_from(s, i)]),
    decreases s.len() - i + j,
{
    if i < s.len() {
        lemma_lead_end_bounds(s, i + 1, j);
    }
    if j > 0 {
        lemma_lead_end_bounds(s, i, j - 1);
    }
}

pub fn clean_chars(cs: &Vec<char>) -> (r: Vec<char>)
    ensures
        r@ == clean(cs@),
{
    let ghost s0 = newline_to_space(cs@);
    let mut u: Vec<char> = Vec::new();
    let mut i: usize = 0;
    while i < cs.len()
        invariant
            i <= cs.len(),
            s0 == newline_to_space(cs@),
            u@ == s0.take(i as int),
        decreases cs.len() - i,
    {
        let c = cs[i];
        if c == '\n' {
            u.push(' ');
        } else {
            u.push(c);
        }
        i = i + 1;
        assert(u@ =~= s0.take(i as int));
    }
    assert(u@ =~= s0);
    let ghost s1 = collapse_spaces(s0);
    let mut v: Vec<char> = Vec::new();
    let mut i: usize = 0;
    while i < u.len()
        invariant
            i <= u.len(),
            u@ == s0,
            s1 == collapse_spaces(s0),
            v@ + collapse_spaces(s0.skip(i as int)) == s1,
        decreases u.len() - i,
    {
        let ghost rest = s0.skip(i as int);
        if i + 1 < u.len() && u[i] == ' ' && u[i + 1] == ' ' {
            assert(rest.skip(1) =~= s0.skip(i + 1));
            i = i + 1;
        } else {
            assert(rest.skip(1) =~= s0.skip(i + 1));
            v.push(u[i]);
            assert(v@ + collapse_spaces(s0.skip(i + 1)) =~= s1);
            i = i + 1;
        }
    }
    assert(s0.skip(u.len() as int) =~= seq![]);
    assert(v@ =~= s1);
    let mut a: usize = 0;
    while a < v.len() && is_whitespace(v[a])
        invariant
            a <= v.len(),
            lead_from(v@, a as int) == lead_from(v@, 0),
        decreases v.len() - a,
    {
        a = a + 1;
    }
    let mut b: usize = v.len();
    while b > 0 && is_whitespace(v[b - 1])
        invariant
            b <= v.len(),
            end_from(v@, b as int) == end_from(v@, v.len() as int),
        decreases b,
    {
        b = b - 1;
    }
    let mut r: Vec<char> = Vec::new();
    if a < b {
        let mut k: usize = a;
        while k < b
            invariant
                a <= k <= b <= v.len(),
                r@ == v@.subrange(a as int, k as int),
            decreases b - k,
        {
            r.push(v[k]);
            k = k + 1;
            assert(r@ =~= v@.subrange(a as int, k as int));
        }
    }
    r
}

/// The decimal digit for `d`, below ten.
pub open spec fn digit_char(d: nat) -> char {
    ((d + 48) as u8) as char
}

/// The decimal numeral of `n`, without leading zeros.
pub open spec fn decimal(n: nat) -> Seq<char>
    decreases n,
{
    if n < 10 {
        seq![digit_char(n)]
    } else {
        decimal(n / 10).push(digit_char(n % 10))
    }
}

/// Appends the decimal numeral of `n` to `out`.
pub fn push_decimal(n: u64, out: &mut Vec<char>)
    ensures
        final(out)@ == old(out)@ + decimal(n as nat),
    decreases n,
{
    if n >= 10 {
        push_decimal(n / 10, out);
    }
    let d: u8 = (n % 10) as u8;
    out.push((d + 48) as char);
    assert(final(out)@ =~= old(out)@ + decimal(n as nat));
}

/// Appends the characters of `s` to `out`.
pub fn push_str(s: &str, out: &mut Vec<char>)
    ensures
        final(out)@ == old(out)@ + s@,
{
    let cs = chars_of(s);
    let mut i: usize = 0;
    let ghost base = out@;
    while i < cs.len()
        invariant
            i <= cs.len(),
            cs@ == s@,
            out@ == base + cs@.take(i as int),
        decreases cs.len() - i,
    {
        out.push(cs[i]);
        i = i + 1;
        assert(out@ =~= base + cs@.take(i as int));
    }
    assert(cs@.take(cs.len() as int) =~= cs@);
}

pub fn same_chars(a: &Vec<char>, b: &Vec<char>) -> (r: bool)
    ensures
        r == (a@ == b@),
{
    if a.len() != b.len() {
        return false;
    }
    let mut i: usize = 0;
    while i < a.len()
        invariant
            i <= a.len() == b.len(),
            forall|q: int| 0 <= q < i ==> a@[q] == b@[q],
        decreases a.len() - i,
    {
        if a[i] != b[i] {
            return false;
        }
        i = i + 1;
    }
    assert(a@ =~= b@);
    true
}

/// Whether two texts hold the same characters.
pub fn same_text(a: &str, b: &str) -> (r: bool)
    ensures
        r == (a@ == b@),
{
    same_chars(&chars_of(a), &chars_of(b))
}

} // verus!
