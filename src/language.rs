use vstd::prelude::*;
use crate::errors::LawError;
use crate::laws::{IndexView, LawIndex};
use crate::text::{
    chars_of, clean, clean_chars, word_spans, join_spaced, join_spans, lemma_word_spans_shape, span_texts,
    spans_of, string_from_chars, word_count, word_spans_of, words,
};
use crate::utils::{chunks, chunks_from, lemma_chunks_from_shape, nested_view, overlaping_chunks, window_at};

verus! {

/// A unit of legal text.
#[derive(Debug, Clone)]
pub struct Phrase {
    pub text: String,
}

/// How a phrase stands to the window sizes: too short to catalogue, fit for one
/// window, or in need of several.
#[derive(Debug, Clone, Copy, PartialEq, Eq, Structural)]
pub enum TextOfLawValidation {
    Short,
    Long,
    Proper,
}

/// A vocabulary: the file it was read from and its words, one per line.
#[derive(Debug, Clone)]
pub struct Vocab {
    pub file: String,
    pub words: Vec<String>,
}

/// The window sizes, in words: phrases under the minimum are dropped, phrases over
/// the maximum are split into windows of the maximum that overlap by `window_retrocede`.
#[derive(Debug, Clone, Copy, PartialEq, Eq, Structural)]
pub struct WindowConfig {
    pub minimum_window_size: usize,
    pub maximum_window_size: usize,
    pub window_retrocede: usize,
}

impl WindowConfig {
    pub open spec fn wf(&self) -> bool {
        self.window_retrocede < self.maximum_window_size
    }
}

/// The class of a phrase of `n` words.
pub open spec fn classify(n: nat, minimum: nat, maximum: nat) -> TextOfLawValidation {
    if n == 0 || n < minimum {
        TextOfLawValidation::Short
    } else if n > maximum {
        TextOfLawValidation::Long
    } else {
        TextOfLawValidation::Proper
    }
}

pub open spec fn is_short(n: nat, minimum: nat) -> bool {
    n == 0 || n < minimum
}

pub open spec fn is_proper(n: nat, minimum: nat, maximum: nat) -> bool {
    n >= 1 && minimum <= n <= maximum
}

pub open spec fn is_long(n: nat, minimum: nat, maximum: nat) -> bool {
    n >= 1 && n >= minimum && n > maximum
}

/// Every phrase falls in exactly one class: short when it has no word or fewer than
/// the minimum, long when it has more than the maximum and is not short, proper
/// otherwise; and the class that validation gives is that one.
pub proof fn lemma_validation_partitions(s: Seq<char>, minimum: nat, maximum: nat)
    ensures
        ({
            let n = word_count(s);
            &&& is_short(n, minimum) || is_proper(n, minimum, maximum) || is_long(n, minimum, maximum)
            &&& !(is_short(n, minimum) && is_proper(n, minimum, maximum))
            &&& !(is_short(n, minimum) && is_long(n, minimum, maximum))
            &&& !(is_proper(n, minimum, maximum) && is_long(n, minimum, maximum))
            &&& (classify(n, minimum, maximum) == TextOfLawValidation::Short <==> is_short(n, minimum))
            &&& (classify(n, minimum, maximum) == TextOfLawValidation::Proper <==> is_proper(
                n,
                minimum,
                maximum,
            ))
            &&& (classify(n, minimum, maximum) == TextOfLawValidation::Long <==> is_long(
                n,
                minimum,
                maximum,
            ))
        }),
{
}

/// The texts that a phrase is catalogued as: none when short, itself when proper,
/// and its overlapping word windows, each joined with single spaces, when long.
pub open spec fn segments(s: Seq<char>, cfg: WindowConfig) -> Seq<Seq<char>> {
    match classify(word_count(s), cfg.minimum_window_size as nat, cfg.maximum_window_size as nat) {
        TextOfLawValidation::Short => seq![],
        TextOfLawValidation::Proper => seq![s],
        TextOfLawValidation::Long => chunks(
            words(s),
            cfg.maximum_window_size as int,
            cfg.window_retrocede as int,
        ).map_values(|w: Seq<Seq<char>>| join_spaced(w)),
    }
}

pub open spec fn phrase_texts(v: Seq<Phrase>) -> Seq<Seq<char>> {
    v.map_values(|p: Phrase| p.text@)
}

pub fn phrase_fabric(text: String) -> (r: Phrase)
    ensures
        r.text@ == text@,
{
    Phrase { text }
}

/// Classifies a phrase by its number of whitespace-separated words.
pub fn validate_phrase(phrase_of_law: &Phrase, cfg: &WindowConfig) -> (r: TextOfLawValidation)
    ensures
        r == classify(
            word_count(phrase_of_law.text@),
            cfg.minimum_window_size as nat,
            cfg.maximum_window_size as nat,
        ),
{
    let cs = chars_of(phrase_of_law.text.as_str());
    let spans = word_spans_of(&cs);
    let n = spans.len();
    if n == 0 || n < cfg.minimum_window_size {
        TextOfLawValidation::Short
    } else if n > cfg.maximum_window_size {
        TextOfLawValidation::Long
    } else {
        TextOfLawValidation::Proper
    }
}

/// Line breaks become spaces, runs of spaces become one space, and the ends are trimmed.
pub fn clean_phrase_of_law(phrase_of_law: &Phrase) -> (r: Phrase)
    ensures
        r.text@ == clean(phrase_of_law.text@),
{
    let cs = chars_of(phrase_of_law.text.as_str());
    let cleaned = clean_chars(&cs);
    Phrase { text: string_from_chars(cleaned.as_slice()) }
}

proof fn lemma_chunks_from_map<A, B>(s: Seq<A>, f: spec_fn(A) -> B, start: int, size: int, overlap: int)
    requires
        0 <= overlap < size,
        0 <= start <= s.len(),
    ensures
        chunks_from(s.map_values(f), start, size, overlap) == chunks_from(s, start, size, overlap).map_values(
            |w: Seq<A>| w.map_values(f),
        ),
    decreases s.len() - start,
{
    let m = s.map_values(f);
    if start + size >= s.len() {
        assert(m.subrange(start, m.len() as int) =~= s.subrange(start, s.len() as int).map_values(f));
        assert(chunks_from(m, start, size, overlap) =~= chunks_from(s, start, size, overlap).map_values(
            |w: Seq<A>| w.map_values(f),
        ));
    } else {
        lemma_chunks_from_map(s, f, start + size - overlap, size, overlap);
        assert(m.subrange(start, start + size) =~= s.subrange(start, start + size).map_values(f));
        assert(chunks_from(m, start, size, overlap) =~= chunks_from(s, start, size, overlap).map_values(
            |w: Seq<A>| w.map_values(f),
        ));
    }
}

/// The windows of a long phrase, in order.
fn window_texts(cs: &Vec<char>, cfg: &WindowConfig) -> (r: Vec<Vec<char>>)
    requires
        cfg.wf(),
    ensures
        nested_view(r@) == chunks(
            words(cs@),
            cfg.maximum_window_size as int,
            cfg.window_retrocede as int,
        ).map_values(|w: Seq<Seq<char>>| join_spaced(w)),
{
    let spans = word_spans_of(cs);
    let windows = overlaping_chunks(&spans, cfg.maximum_window_size, cfg.window_retrocede);
    let ghost size = cfg.maximum_window_size as int;
    let ghost ov = cfg.window_retrocede as int;
    let ghost f = |p: (usize, usize)| cs@.subrange(p.0 as int, p.1 as int);
    proof {
        lemma_word_spans_shape(cs@);
        assert forall|q: int| 0 <= q < spans.len() implies (#[trigger] spans[q]).0 <= spans[q].1 <= cs.len() by {
            assert(spans_of(spans@)[q] == word_spans(cs@)[q]);
        }
        lemma_chunks_from_map(spans@, f, 0, size, ov);
        assert(words(cs@) =~= spans@.map_values(f));
        lemma_chunks_from_shape(spans@, 0, size, ov);
    }
    let ghost target = chunks(words(cs@), size, ov).map_values(|w: Seq<Seq<char>>| join_spaced(w));
    let mut r: Vec<Vec<char>> = Vec::new();
    let mut k: usize = 0;
    while k < windows.len()
        invariant
            k <= windows.len(),
            0 <= ov < size,
            nested_view(windows@) == chunks(spans@, size, ov),
            chunks(words(cs@), size, ov) == chunks(spans@, size, ov).map_values(
                |w: Seq<(usize, usize)>| w.map_values(f),
            ),
            forall|q: int| 0 <= q < spans.len() ==> (#[trigger] spans[q]).0 <= spans[q].1 <= cs.len(),
            forall|q: int| 0 <= q < chunks(spans@, size, ov).len() ==> #[trigger] window_at(spans@, 0, size, ov, q),
            nested_view(r@) == target.take(k as int),
            target == chunks(words(cs@), size, ov).map_values(|w: Seq<Seq<char>>| join_spaced(w)),
            f == (|p: (usize, usize)| cs@.subrange(p.0 as int, p.1 as int)),
        decreases windows.len() - k,
    {
        let w = &windows[k];
        assert(w@ == chunks(spans@, size, ov)[k as int]);
        assert(window_at(spans@, 0, size, ov, k as int));
        let ghost b = 0 + k * (size - ov);
        assert(b >= 0) by (nonlinear_arith)
            requires
                b == 0 + k * (size - ov),
                k >= 0,
                size > ov,
        ;
        let ghost e = if b + size <= spans@.len() { b + size } else { spans@.len() as int };
        assert(w@ == spans@.subrange(b, e));
        assert forall|q: int| 0 <= q < w.len() implies (#[trigger] w[q]).0 <= w[q].1 <= cs.len() by {
            assert(w@[q] == spans@[b + q]);
        }
        let joined = join_spans(cs, w);
        assert(span_texts(cs@, spans_of(w@)) =~= w@.map_values(f));
        let ghost before = nested_view(r@);
        r.push(joined);
        assert(nested_view(r@) =~= before.push(joined@));
        assert(nested_view(r@) =~= target.take(k + 1));
        k = k + 1;
    }
    assert(target.take(windows.len() as int) =~= target);
    r
}

/// The texts that a phrase is catalogued as.
pub fn segment_phrase(phrase_of_law: &Phrase, cfg: &WindowConfig) -> (r: Vec<Phrase>)
    requires
        cfg.wf(),
    ensures
        phrase_texts(r@) == segments(phrase_of_law.text@, *cfg),
{
    let mut ret: Vec<Phrase> = Vec::new();
    match validate_phrase(phrase_of_law, cfg) {
        TextOfLawValidation::Short => {},
        TextOfLawValidation::Proper => {
            ret.push(Phrase { text: phrase_of_law.text.clone() });
            assert(phrase_texts(ret@) =~= segments(phrase_of_law.text@, *cfg));
        },
        TextOfLawValidation::Long => {
            let cs = chars_of(phrase_of_law.text.as_str());
            let windows = window_texts(&cs, cfg);
            let mut k: usize = 0;
            while k < windows.len()
                invariant
                    k <= windows.len(),
                    cs@ == phrase_of_law.text@,
                    phrase_texts(ret@) == nested_view(windows@).take(k as int),
                decreases windows.len() - k,
            {
                let ghost before = phrase_texts(ret@);
                ret.push(Phrase { text: string_from_chars(windows[k].as_slice()) });
                assert(phrase_texts(ret@) =~= before.push(windows@[k as int]@));
                assert(phrase_texts(ret@) =~= nested_view(windows@).take(k + 1));
                k = k + 1;
            }
            assert(nested_view(windows@).take(windows.len() as int) =~= nested_view(windows@));
        },
    }
    assert(phrase_texts(ret@) =~= segments(phrase_of_law.text@, *cfg));
    ret
}

pub open spec fn units_view(v: Seq<(LawIndex, Phrase)>) -> Seq<(IndexView, Seq<char>)> {
    v.map_values(|u: (LawIndex, Phrase)| (u.0@, u.1.text@))
}

/// The units that a phrase at `index` is catalogued as: none when short; the phrase
/// under `index` without a part number when proper; each window under part numbers
/// 0, 1, 2, ... when long.
pub open spec fn indexed_segments(s: Seq<char>, index: IndexView, cfg: WindowConfig) -> Seq<(IndexView, Seq<char>)> {
    let segs = segments(s, cfg);
    if classify(word_count(s), cfg.minimum_window_size as nat, cfg.maximum_window_size as nat)
        == TextOfLawValidation::Long {
        segs.map(|k: int, t: Seq<char>| (IndexView { parte: Some(k as u16), ..index }, t))
    } else {
        segs.map_values(|t: Seq<char>| (IndexView { parte: None, ..index }, t))
    }
}

/// The most windows a phrase may need: part numbers are 16-bit.
pub const MAX_PARTS: usize = 65536;

/// Segments a phrase and gives each piece its address; fails when a long phrase needs
/// more windows than part numbers can count.
pub fn segment_phrase_with_index(phrase_of_law: &Phrase, index: &LawIndex, cfg: &WindowConfig) -> (r: Result<Vec<(LawIndex, Phrase)>, LawError>)
    requires
        cfg.wf(),
    ensures
        segments(phrase_of_law.text@, *cfg).len() <= MAX_PARTS ==> r is Ok && units_view(r->Ok_0@)
            == indexed_segments(phrase_of_law.text@, index@, *cfg),
        segments(phrase_of_law.text@, *cfg).len() > MAX_PARTS ==> r == Err::<Vec<(LawIndex, Phrase)>, LawError>(LawError::TooManyParts),
{
    let class = validate_phrase(phrase_of_law, cfg);
    let segs = segment_phrase(phrase_of_law, cfg);
    if segs.len() > MAX_PARTS {
        return Err(LawError::TooManyParts);
    }
    let ghost target = indexed_segments(phrase_of_law.text@, index@, *cfg);
    let mut ret: Vec<(LawIndex, Phrase)> = Vec::new();
    let mut k: usize = 0;
    while k < segs.len()
        invariant
            k <= segs.len() <= MAX_PARTS,
            phrase_texts(segs@) == segments(phrase_of_law.text@, *cfg),
            class == classify(word_count(phrase_of_law.text@), cfg.minimum_window_size as nat, cfg.maximum_window_size as nat),
            target == indexed_segments(phrase_of_law.text@, index@, *cfg),
            units_view(ret@) == target.take(k as int),
        decreases segs.len() - k,
    {
        let parte: Option<u16> = if class == TextOfLawValidation::Long {
            Some(k as u16)
        } else {
            None
        };
        let ghost before = units_view(ret@);
        let unit = (index.with_parte(parte), Phrase { text: segs[k].text.clone() });
        ret.push(unit);
        assert(units_view(ret@) =~= before.push((unit.0@, unit.1.text@)));
        assert(units_view(ret@) =~= target.take(k + 1));
        k = k + 1;
    }
    assert(target.take(segs.len() as int) =~= target);
    Ok(ret)
}

} // verus!
