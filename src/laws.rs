use vstd::prelude::*;
use crate::errors::LawError;
use crate::language::{
    clean_phrase_of_law, indexed_segments, segment_phrase_with_index, segments, units_view, Phrase,
    WindowConfig, MAX_PARTS,
};
use crate::text::{chars_of, clean, lower_of, lowercase};
use crate::utils::{digits_of, digits_value, parse_digits, substring};
use vstd::seq_lib::to_multiset_insert;

verus! {

/// One legal text, such as a country's constitution.
#[derive(Debug, Clone, Hash)]
pub struct LawBook {
    pub pais: String,
    pub instrumento: String,
}

/// A book as the contracts see it.
pub struct BookView {
    pub pais: Seq<char>,
    pub instrumento: Seq<char>,
}

impl View for LawBook {
    type V = BookView;

    open spec fn view(&self) -> BookView {
        BookView { pais: self.pais@, instrumento: self.instrumento@ }
    }
}

impl PartialEq for LawBook {
    fn eq(&self, o: &LawBook) -> (r: bool) {
        self.pais == o.pais && self.instrumento == o.instrumento
    }
}

impl vstd::std_specs::cmp::PartialEqSpecImpl for LawBook {
    open spec fn obeys_eq_spec() -> bool {
        true
    }

    open spec fn eq_spec(&self, o: &LawBook) -> bool {
        self@ == o@
    }
}

impl Eq for LawBook {}

impl LawBook {
    /// A book whose country and instrument are lower-cased, as every book is.
    pub fn new(pais: &str, instrumento: &str) -> (r: LawBook)
        ensures
            r@.pais == lower_of(pais@),
            r@.instrumento == lower_of(instrumento@),
    {
        LawBook { pais: lowercase(pais), instrumento: lowercase(instrumento) }
    }

    pub fn copied(&self) -> (r: LawBook)
        ensures
            r@ == self@,
    {
        LawBook { pais: self.pais.clone(), instrumento: self.instrumento.clone() }
    }
}

/// A hierarchical address in a book: título, capítulo, artículo and, for a window of
/// a long phrase, its part number.
#[derive(Debug, Clone, Hash)]
pub struct LawIndex {
    pub book: LawBook,
    pub titulo: Option<u16>,
    pub capitulo: Option<u16>,
    pub articulo: Option<u16>,
    pub parte: Option<u16>,
}

/// An address as the contracts see it.
pub struct IndexView {
    pub book: BookView,
    pub titulo: Option<u16>,
    pub capitulo: Option<u16>,
    pub articulo: Option<u16>,
    pub parte: Option<u16>,
}

impl View for LawIndex {
    type V = IndexView;

    open spec fn view(&self) -> IndexView {
        IndexView {
            book: self.book@,
            titulo: self.titulo,
            capitulo: self.capitulo,
            articulo: self.articulo,
            parte: self.parte,
        }
    }
}

impl PartialEq for LawIndex {
    fn eq(&self, o: &LawIndex) -> (r: bool) {
        self.book == o.book && self.titulo == o.titulo && self.capitulo == o.capitulo
            && self.articulo == o.articulo && self.parte == o.parte
    }
}

impl vstd::std_specs::cmp::PartialEqSpecImpl for LawIndex {
    open spec fn obeys_eq_spec() -> bool {
        true
    }

    open spec fn eq_spec(&self, o: &LawIndex) -> bool {
        self@ == o@
    }
}

impl Eq for LawIndex {}

impl LawIndex {
    /// The address of a whole book, with no hierarchy field set.
    pub fn of_book(book: &LawBook) -> (r: LawIndex)
        ensures
            r@ == (IndexView {
                book: book@,
                titulo: None,
                capitulo: None,
                articulo: None,
                parte: None,
            }),
    {
        LawIndex { book: book.copied(), titulo: None, capitulo: None, articulo: None, parte: None }
    }

    pub fn copied(&self) -> (r: LawIndex)
        ensures
            r@ == self@,
    {
        LawIndex {
            book: self.book.copied(),
            titulo: self.titulo,
            capitulo: self.capitulo,
            articulo: self.articulo,
            parte: self.parte,
        }
    }

    /// The same address with another part number.
    pub fn with_parte(&self, parte: Option<u16>) -> (r: LawIndex)
        ensures
            r@ == (IndexView { parte, ..self@ }),
    {
        LawIndex { parte, ..self.copied() }
    }
}

/// The kinds of structural mark.
#[derive(Debug, Clone, Copy, PartialEq, Eq, Structural)]
pub enum LawMark {
    Capitulo,
    Titulo,
    Articulo,
}

/// A structural mark found in a book's text: its kind, its number, and the character
/// positions `[start, end)` of the text that announced it.
#[derive(Debug, Clone, Copy, PartialEq, Eq, Structural)]
pub struct LawMarking {
    pub kind: LawMark,
    pub id: u16,
    pub start: usize,
    pub end: usize,
}

/// The update that crossing a mark makes to the running address: the field of the
/// mark's kind takes the mark's number, the others stay.
pub open spec fn advanced(index: IndexView, mark: LawMarking) -> IndexView {
    match mark.kind {
        LawMark::Titulo => IndexView { titulo: Some(mark.id), ..index },
        LawMark::Capitulo => IndexView { capitulo: Some(mark.id), ..index },
        LawMark::Articulo => IndexView { articulo: Some(mark.id), ..index },
    }
}

/// Crosses a mark: sets the field of its kind to its number.
pub fn advance_mark(law_index: &mut LawIndex, mark: &LawMarking)
    ensures
        final(law_index)@ == advanced(old(law_index)@, *mark),
{
    match mark.kind {
        LawMark::Titulo => {
            law_index.titulo = Some(mark.id);
        },
        LawMark::Capitulo => {
            law_index.capitulo = Some(mark.id);
        },
        LawMark::Articulo => {
            law_index.articulo = Some(mark.id);
        },
    }
}

/// Among marks that end at the same position, a título comes first, then a capítulo,
/// then an artículo.
pub open spec fn kind_rank(k: LawMark) -> int {
    match k {
        LawMark::Titulo => 0,
        LawMark::Capitulo => 1,
        LawMark::Articulo => 2,
    }
}

/// The order of marks: by end position, then kind, then start, then number.
pub open spec fn mark_le(a: LawMarking, b: LawMarking) -> bool {
    a.end < b.end || (a.end == b.end && (kind_rank(a.kind) < kind_rank(b.kind) || (kind_rank(
        a.kind,
    ) == kind_rank(b.kind) && (a.start < b.start || (a.start == b.start && a.id <= b.id)))))
}

pub open spec fn marks_sorted(s: Seq<LawMarking>) -> bool {
    forall|i: int, j: int| 0 <= i < j < s.len() ==> mark_le(#[trigger] s[i], #[trigger] s[j])
}

/// Every mark lies within a text of `len` characters.
pub open spec fn marks_fit(s: Seq<LawMarking>, len: int) -> bool {
    forall|i: int| 0 <= i < s.len() ==> (#[trigger] s[i]).start <= s[i].end <= len
}

fn rank(k: LawMark) -> (r: u8)
    ensures
        r as int == kind_rank(k),
{
    match k {
        LawMark::Titulo => 0,
        LawMark::Capitulo => 1,
        LawMark::Articulo => 2,
    }
}

fn mark_le_exec(a: &LawMarking, b: &LawMarking) -> (r: bool)
    ensures
        r == mark_le(*a, *b),
{
    let ra = rank(a.kind);
    let rb = rank(b.kind);
    a.end < b.end || (a.end == b.end && (ra < rb || (ra == rb && (a.start < b.start || (a.start
        == b.start && a.id <= b.id)))))
}

/// Puts `m` into sorted `marks` at its place.
fn insert_mark(marks: &mut Vec<LawMarking>, m: LawMarking, len: Ghost<int>)
    requires
        marks_sorted(old(marks)@),
        marks_fit(old(marks)@, len@),
        m.start <= m.end <= len@,
    ensures
        marks_sorted(final(marks)@),
        marks_fit(final(marks)@, len@),
        final(marks)@.to_multiset() == old(marks)@.to_multiset().insert(m),
{
    let mut p: usize = 0;
    while p < marks.len() && mark_le_exec(&marks[p], &m)
        invariant
            p <= marks.len(),
            forall|q: int| 0 <= q < p ==> mark_le(#[trigger] marks@[q], m),
        decreases marks.len() - p,
    {
        p = p + 1;
    }
    proof {
        to_multiset_insert(marks@, p as int, m);
    }
    let ghost before = marks@;
    marks.insert(p, m);
    assert forall|i: int| 0 <= i < marks@.len() implies (#[trigger] marks@[i]).start <= marks@[i].end <= len@ by {
        if i < p {
            assert(marks@[i] == before[i]);
        } else if i > p {
            assert(marks@[i] == before[i - 1]);
        }
    }
    assert forall|i: int, j: int| 0 <= i < j < marks@.len() implies mark_le(
        #[trigger] marks@[i],
        #[trigger] marks@[j],
    ) by {
        if j < p {
            assert(mark_le(before[i], before[j]));
        } else if j == p {
            assert(mark_le(before[i], m));
        } else if i < p {
            assert(mark_le(before[i], m));
            assert(!mark_le(before[p as int], m));
            assert(mark_le(before[p as int], before[j - 1]) || p as int == j - 1);
        } else if i == p {
            assert(!mark_le(before[p as int], m));
            assert(mark_le(before[p as int], before[j - 1]) || p as int == j - 1);
        } else {
            assert(mark_le(before[i - 1], before[j - 1]));
        }
    }
}

/// The UTF-8 width of a character, as `char::len_utf8` gives it.
pub open spec fn utf8_width(c: char) -> nat {
    let u = c as u32;
    if u < 0x80 {
        1
    } else if u < 0x800 {
        2
    } else if u < 0x10000 {
        3
    } else {
        4
    }
}

/// The length in bytes of a text's UTF-8 encoding.
pub open spec fn utf8_len(s: Seq<char>) -> nat
    decreases s.len(),
{
    if s.len() == 0 {
        0
    } else {
        utf8_len(s.drop_last()) + utf8_width(s.last())
    }
}

proof fn lemma_utf8_len_grows(s: Seq<char>, i: int, j: int)
    requires
        0 <= i <= j <= s.len(),
    ensures
        utf8_len(s.take(i)) + (j - i) <= utf8_len(s.take(j)),
    decreases j - i,
{
    if i < j {
        lemma_utf8_len_grows(s, i, j - 1);
        assert(s.take(j).drop_last() =~= s.take(j - 1));
    }
}

/// The character position at which byte offset `byte` of the text's UTF-8 encoding
/// falls, when it falls between two characters.
pub open spec fn char_pos(cs: Seq<char>, byte: int) -> Option<int> {
    if exists|i: int| 0 <= i <= cs.len() && #[trigger] utf8_len(cs.take(i)) == byte {
        Some(choose|i: int| 0 <= i <= cs.len() && #[trigger] utf8_len(cs.take(i)) == byte)
    } else {
        None
    }
}

fn char_width(c: char) -> (r: usize)
    ensures
        r == utf8_width(c),
{
    let u = c as u32;
    if u < 0x80 {
        1
    } else if u < 0x800 {
        2
    } else if u < 0x10000 {
        3
    } else {
        4
    }
}

/// The character position of a byte offset, as `char_pos` gives it.
fn char_index_of_byte(cs: &Vec<char>, byte: usize) -> (r: Option<usize>)
    ensures
        r matches Some(i) ==> char_pos(cs@, byte as int) == Some(i as int),
        r is None ==> char_pos(cs@, byte as int) is None,
{
    let mut i: usize = 0;
    let mut acc: usize = 0;
    loop
        invariant
            i <= cs.len(),
            acc == utf8_len(cs@.take(i as int)),
            acc <= byte,
            forall|q: int| 0 <= q < i ==> utf8_len(#[trigger] cs@.take(q)) < acc,
        decreases cs.len() - i,
    {
        if acc == byte {
            proof {
                assert forall|q: int| 0 <= q <= cs.len() && #[trigger] utf8_len(cs@.take(q)) == byte implies q == i by {
                    if q > i {
                        lemma_utf8_len_grows(cs@, i + 1, q);
                        assert(cs@.take(i + 1).drop_last() =~= cs@.take(i as int));
                    }
                }
            }
            return Some(i);
        }
        if i == cs.len() {
            proof {
                assert forall|q: int| 0 <= q <= cs.len() implies #[trigger] utf8_len(cs@.take(q)) != byte by {
                    if q == i {
                    } else {
                    }
                }
            }
            return None;
        }
        let w = char_width(cs[i]);
        proof {
            assert(cs@.take(i + 1).drop_last() =~= cs@.take(i as int));
        }
        if w > byte - acc {
            proof {
                assert forall|q: int| 0 <= q <= cs.len() implies #[trigger] utf8_len(cs@.take(q)) != byte by {
                    if q > i {
                        lemma_utf8_len_grows(cs@, i + 1, q);
                    }
                }
            }
            return None;
        }
        acc = acc + w;
        i = i + 1;
    }
}

/// The mark announced by the text at byte range `range` of a book, when the range
/// falls between characters and its text holds a number that fits in 16 bits.
pub open spec fn range_mark(cs: Seq<char>, kind: LawMark, range: (usize, usize)) -> Result<LawMarking, LawError> {
    match (char_pos(cs, range.0 as int), char_pos(cs, range.1 as int)) {
        (Some(a), Some(b)) => {
            let d = digits_of(cs.subrange(a, b));
            if a > b || d.len() == 0 || digits_value(d) > 0xffff {
                Err(LawError::ParseError)
            } else {
                Ok(LawMarking { kind, id: digits_value(d) as u16, start: a as usize, end: b as usize })
            }
        },
        _ => Err(LawError::ParseError),
    }
}

/// The marks announced at the given byte ranges, in order, or the first failure.
pub open spec fn ranges_marks(cs: Seq<char>, kind: LawMark, ranges: Seq<(usize, usize)>) -> Result<Seq<LawMarking>, LawError>
    decreases ranges.len(),
{
    if ranges.len() == 0 {
        Ok(seq![])
    } else {
        match ranges_marks(cs, kind, ranges.drop_last()) {
            Err(e) => Err(e),
            Ok(s) => match range_mark(cs, kind, ranges.last()) {
                Err(e) => Err(e),
                Ok(m) => Ok(s.push(m)),
            },
        }
    }
}

/// All marks of the three kinds, artículos, then títulos, then capítulos, or the
/// first failure.
pub open spec fn all_marks(
    cs: Seq<char>,
    articulos: Seq<(usize, usize)>,
    titulos: Seq<(usize, usize)>,
    capitulos: Seq<(usize, usize)>,
) -> Result<Seq<LawMarking>, LawError> {
    match ranges_marks(cs, LawMark::Articulo, articulos) {
        Err(e) => Err(e),
        Ok(a) => match ranges_marks(cs, LawMark::Titulo, titulos) {
            Err(e) => Err(e),
            Ok(t) => match ranges_marks(cs, LawMark::Capitulo, capitulos) {
                Err(e) => Err(e),
                Ok(c) => Ok(a + t + c),
            },
        },
    }
}

proof fn lemma_err_persists(cs: Seq<char>, kind: LawMark, ranges: Seq<(usize, usize)>, k: int)
    requires
        0 < k <= ranges.len(),
        ranges_marks(cs, kind, ranges.take(k - 1)) is Ok,
        range_mark(cs, kind, ranges[k - 1]) is Err,
    ensures
        ranges_marks(cs, kind, ranges) == Err::<Seq<LawMarking>, LawError>(range_mark(cs, kind, ranges[k - 1])->Err_0),
    decreases ranges.len() - k,
{
    assert(ranges.take(k).drop_last() =~= ranges.take(k - 1));
    if k < ranges.len() {
        lemma_err_persists_from(cs, kind, ranges, k);
    } else {
        assert(ranges.take(k) =~= ranges);
    }
}

proof fn lemma_err_persists_from(cs: Seq<char>, kind: LawMark, ranges: Seq<(usize, usize)>, k: int)
    requires
        0 < k <= ranges.len(),
        ranges_marks(cs, kind, ranges.take(k)) is Err,
    ensures
        ranges_marks(cs, kind, ranges) == ranges_marks(cs, kind, ranges.take(k)),
    decreases ranges.len() - k,
{
    if k < ranges.len() {
        assert(ranges.take(k + 1).drop_last() =~= ranges.take(k));
        lemma_err_persists_from(cs, kind, ranges, k + 1);
    } else {
        assert(ranges.take(k) =~= ranges);
    }
}

/// The byte ranges of the successive non-overlapping matches of `pattern` in `text`,
/// or nothing when the pattern does not compile.
pub uninterp spec fn regex_ranges(pattern: Seq<char>, text: Seq<char>) -> Option<Seq<(usize, usize)>>;

/// Relies on `regex::Regex::new` and `regex::Regex::find_iter`: whether the pattern
/// compiles, and the start and end of each match, depend on the pattern and the text alone.
#[verifier::external_body]
fn find_ranges(pattern: &str, text: &str) -> (r: Option<Vec<(usize, usize)>>)
    ensures
        match regex_ranges(pattern@, text@) {
            None => r is None,
            Some(s) => r matches Some(v) && v@ == s,
        },
{
    regex::Regex::new(pattern).ok().map(|re| re.find_iter(text).map(|m| (m.start(), m.end())).collect())
}

/// The three regular expressions of a book's configuration.
#[derive(Debug, Clone)]
pub struct LawPatterns {
    pub regex_titulo: String,
    pub regex_capitulo: String,
    pub regex_articulo: String,
}

/// The marks of one kind that the matches of `pattern` in `text` announce, in order;
/// `InvalidPattern` when the pattern does not compile.
pub open spec fn pattern_marks(pattern: Seq<char>, kind: LawMark, text: Seq<char>) -> Result<Seq<LawMarking>, LawError> {
    match regex_ranges(pattern, text) {
        None => Err(LawError::InvalidPattern),
        Some(s) => ranges_marks(text, kind, s),
    }
}

/// `r` holds the marks that `expected` holds, or the same error.
pub open spec fn same_marks(r: Result<Vec<LawMarking>, LawError>, expected: Result<Seq<LawMarking>, LawError>) -> bool {
    match expected {
        Err(e) => r == Err::<Vec<LawMarking>, LawError>(e),
        Ok(m) => r matches Ok(v) && v@ == m,
    }
}

/// The marks of one kind announced by the matches of `pattern` in `text`, in order.
pub fn regex_interpret_law(pattern: &str, kind: LawMark, text: &str) -> (r: Result<Vec<LawMarking>, LawError>)
    ensures
        same_marks(r, pattern_marks(pattern@, kind, text@)),
        r matches Ok(v) ==> marks_fit(v@, text@.len() as int),
{
    let ranges = match find_ranges(pattern, text) {
        Some(v) => v,
        None => {
            return Err(LawError::InvalidPattern);
        },
    };
    let cs = chars_of(text);
    collect_marks(&cs, kind, &ranges)
}

/// The marks announced at the given byte ranges, in order.
pub fn collect_marks(cs: &Vec<char>, kind: LawMark, ranges: &Vec<(usize, usize)>) -> (r: Result<Vec<LawMarking>, LawError>)
    ensures
        match ranges_marks(cs@, kind, ranges@) {
            Err(e) => r == Err::<Vec<LawMarking>, LawError>(e),
            Ok(s) => r matches Ok(v) && v@ == s,
        },
        r matches Ok(v) ==> marks_fit(v@, cs.len() as int),
{
    let mut out: Vec<LawMarking> = Vec::new();
    let mut k: usize = 0;
    assert(ranges@.take(0) =~= Seq::<(usize, usize)>::empty());
    while k < ranges.len()
        invariant
            k <= ranges.len(),
            marks_fit(out@, cs.len() as int),
            ranges_marks(cs@, kind, ranges@.take(k as int)) == Ok::<Seq<LawMarking>, LawError>(out@),
        decreases ranges.len() - k,
    {
        assert(ranges@.take(k + 1).drop_last() =~= ranges@.take(k as int));
        assert(ranges@.take(k + 1).last() == ranges@[k as int]);
        let (bs, be) = ranges[k];
        let a = char_index_of_byte(cs, bs);
        let b = char_index_of_byte(cs, be);
        let mut ok = false;
        if let (Some(a), Some(b)) = (a, b) {
            if a <= b {
                if let Some(v) = parse_digits(cs, a, b) {
                    if v <= 0xffff {
                        out.push(LawMarking { kind, id: v as u16, start: a, end: b });
                        ok = true;
                    }
                }
            }
        }
        if !ok {
            proof { lemma_err_persists(cs@, kind, ranges@, k as int + 1); }
            return Err(LawError::ParseError);
        }
        k = k + 1;
    }
    assert(ranges@.take(ranges.len() as int) =~= ranges@);
    Ok(out)
}

/// Merges marks into one sequence sorted by `mark_le`.
fn sort_marks(marks: Vec<LawMarking>, len: Ghost<int>) -> (r: Vec<LawMarking>)
    requires
        marks_fit(marks@, len@),
    ensures
        marks_sorted(r@),
        marks_fit(r@, len@),
        r@.to_multiset() == marks@.to_multiset(),
{
    let mut r: Vec<LawMarking> = Vec::new();
    let mut k: usize = 0;
    assert(marks@.take(0) =~= Seq::<LawMarking>::empty());
    while k < marks.len()
        invariant
            k <= marks.len(),
            marks_fit(marks@, len@),
            marks_sorted(r@),
            marks_fit(r@, len@),
            r@.to_multiset() == marks@.take(k as int).to_multiset(),
        decreases marks.len() - k,
    {
        assert(marks@.take(k + 1) =~= marks@.take(k as int).push(marks@[k as int]));
        proof {
            vstd::seq_lib::to_multiset_build(marks@.take(k as int), marks@[k as int]);
        }
        insert_mark(&mut r, marks[k], len);
        k = k + 1;
    }
    assert(marks@.take(marks.len() as int) =~= marks@);
    r
}

/// The marks announced by the three kinds of match, sorted by `mark_le`: ordered by
/// where they end, and a título before a capítulo before an artículo that ends at
/// the same place.
pub fn marks_from_ranges(
    cs: &Vec<char>,
    articulos: &Vec<(usize, usize)>,
    titulos: &Vec<(usize, usize)>,
    capitulos: &Vec<(usize, usize)>,
) -> (r: Result<Vec<LawMarking>, LawError>)
    ensures
        match all_marks(cs@, articulos@, titulos@, capitulos@) {
            Err(e) => r == Err::<Vec<LawMarking>, LawError>(e),
            Ok(s) => r matches Ok(v) && marks_sorted(v@) && v@.to_multiset() == s.to_multiset(),
        },
        r matches Ok(v) ==> marks_fit(v@, cs.len() as int),
{
    let a = match collect_marks(cs, LawMark::Articulo, articulos) {
        Ok(v) => v,
        Err(e) => return Err(e),
    };
    let t = match collect_marks(cs, LawMark::Titulo, titulos) {
        Ok(v) => v,
        Err(e) => return Err(e),
    };
    let c = match collect_marks(cs, LawMark::Capitulo, capitulos) {
        Ok(v) => v,
        Err(e) => return Err(e),
    };
    let mut all = a;
    let mut t = t;
    let mut c = c;
    let ghost (sa, st, sc) = (all@, t@, c@);
    all.append(&mut t);
    all.append(&mut c);
    assert(all@ =~= sa + st + sc);
    assert forall|i: int| 0 <= i < all@.len() implies (#[trigger] all@[i]).start <= all@[i].end <= cs.len() by {
        if i < sa.len() {
            assert(all@[i] == sa[i]);
        } else if i < sa.len() + st.len() {
            assert(all@[i] == st[i - sa.len()]);
        } else {
            assert(all@[i] == sc[i - sa.len() - st.len()]);
        }
    }
    Ok(sort_marks(all, Ghost(cs.len() as int)))
}

/// The artículo marks of a text.
pub fn mark_interrupt_articulo(patterns: &LawPatterns, text: &str) -> (r: Result<Vec<LawMarking>, LawError>)
    ensures
        same_marks(r, pattern_marks(patterns.regex_articulo@, LawMark::Articulo, text@)),
{
    regex_interpret_law(patterns.regex_articulo.as_str(), LawMark::Articulo, text)
}

/// The título marks of a text.
pub fn mark_interrupt_titulo(patterns: &LawPatterns, text: &str) -> (r: Result<Vec<LawMarking>, LawError>)
    ensures
        same_marks(r, pattern_marks(patterns.regex_titulo@, LawMark::Titulo, text@)),
{
    regex_interpret_law(patterns.regex_titulo.as_str(), LawMark::Titulo, text)
}

/// The capítulo marks of a text.
pub fn mark_interrupt_capitulo(patterns: &LawPatterns, text: &str) -> (r: Result<Vec<LawMarking>, LawError>)
    ensures
        same_marks(r, pattern_marks(patterns.regex_capitulo@, LawMark::Capitulo, text@)),
{
    regex_interpret_law(patterns.regex_capitulo.as_str(), LawMark::Capitulo, text)
}

/// All marks that a book's patterns announce in its text, artículos, then títulos,
/// then capítulos; `InvalidPattern` for the first pattern (in that order) that does
/// not compile, else the first failure to read a mark.
pub open spec fn text_marks(text: Seq<char>, patterns: LawPatterns) -> Result<Seq<LawMarking>, LawError> {
    match (
        regex_ranges(patterns.regex_articulo@, text),
        regex_ranges(patterns.regex_titulo@, text),
        regex_ranges(patterns.regex_capitulo@, text),
    ) {
        (Some(a), Some(t), Some(c)) => all_marks(text, a, t, c),
        _ => Err(LawError::InvalidPattern),
    }
}

/// All structural marks of a book's text, sorted by `mark_le`.
pub fn mark_text_of_law(text_of_law: &Phrase, patterns: &LawPatterns) -> (r: Result<Vec<LawMarking>, LawError>)
    ensures
        match text_marks(text_of_law.text@, *patterns) {
            Err(e) => r == Err::<Vec<LawMarking>, LawError>(e),
            Ok(s) => r matches Ok(v) && marks_sorted(v@) && v@.to_multiset() == s.to_multiset(),
        },
        r matches Ok(v) ==> marks_fit(v@, text_of_law.text@.len() as int),
{
    let text = text_of_law.text.as_str();
    let a = find_ranges(patterns.regex_articulo.as_str(), text);
    let t = find_ranges(patterns.regex_titulo.as_str(), text);
    let c = find_ranges(patterns.regex_capitulo.as_str(), text);
    match (a, t, c) {
        (Some(a), Some(t), Some(c)) => {
            let cs = chars_of(text);
            marks_from_ranges(&cs, &a, &t, &c)
        },
        _ => Err(LawError::InvalidPattern),
    }
}

/// The address reached after crossing the first `i` marks of a book.
pub open spec fn index_after(book: BookView, marks: Seq<LawMarking>, i: int) -> IndexView
    decreases i,
{
    if i <= 0 {
        IndexView { book, titulo: None, capitulo: None, articulo: None, parte: None }
    } else {
        advanced(index_after(book, marks, i - 1), marks[i - 1])
    }
}

/// The raw text that follows mark `i`: up to the start of the next mark, or to the end
/// of the text after the last mark; empty where the next mark starts before mark `i` ends.
pub open spec fn raw_phrase(cs: Seq<char>, marks: Seq<LawMarking>, i: int) -> Seq<char> {
    let a = marks[i].end as int;
    let b = if i + 1 < marks.len() { marks[i + 1].start as int } else { cs.len() as int };
    if a < b {
        cs.subrange(a, b)
    } else {
        seq![]
    }
}

/// The units catalogued from the text after mark `i`: its clean text, segmented under
/// the address reached after crossing mark `i`; none when it needs too many windows.
pub open spec fn phrase_units(cs: Seq<char>, marks: Seq<LawMarking>, book: BookView, cfg: WindowConfig, i: int) -> Seq<(IndexView, Seq<char>)> {
    let p = clean(raw_phrase(cs, marks, i));
    if segments(p, cfg).len() > MAX_PARTS {
        seq![]
    } else {
        indexed_segments(p, index_after(book, marks, i + 1), cfg)
    }
}

/// The units catalogued from the texts after the first `n` marks, in order.
pub open spec fn law_units(cs: Seq<char>, marks: Seq<LawMarking>, book: BookView, cfg: WindowConfig, n: int) -> Seq<(IndexView, Seq<char>)>
    decreases n,
{
    if n <= 0 {
        seq![]
    } else {
        law_units(cs, marks, book, cfg, n - 1) + phrase_units(cs, marks, book, cfg, n - 1)
    }
}

/// Splits a book's text at its marks into addressed, clean, segmented units. Fails
/// when there is no mark.
pub fn interpret_law(text_of_law: &Phrase, marks: &Vec<LawMarking>, book: &LawBook, cfg: &WindowConfig) -> (r: Result<Vec<(LawIndex, Phrase)>, LawError>)
    requires
        cfg.wf(),
        marks_fit(marks@, text_of_law.text@.len() as int),
    ensures
        marks.len() == 0 ==> r == Err::<Vec<(LawIndex, Phrase)>, LawError>(LawError::NoMarks),
        marks.len() > 0 ==> (r matches Ok(v) && units_view(v@) == law_units(
            text_of_law.text@,
            marks@,
            book@,
            *cfg,
            marks.len() as int,
        )),
{
    if marks.len() == 0 {
        return Err(LawError::NoMarks);
    }
    let cs = chars_of(text_of_law.text.as_str());
    let ghost s = text_of_law.text@;
    let mut current = LawIndex::of_book(book);
    let mut out: Vec<(LawIndex, Phrase)> = Vec::new();
    let mut i: usize = 0;
    while i < marks.len()
        invariant
            i <= marks.len(),
            cfg.wf(),
            cs@ == s,
            s == text_of_law.text@,
            marks_fit(marks@, s.len() as int),
            current@ == index_after(book@, marks@, i as int),
            units_view(out@) == law_units(s, marks@, book@, *cfg, i as int),
        decreases marks.len() - i,
    {
        advance_mark(&mut current, &marks[i]);
        let a = marks[i].end;
        let b = if i + 1 < marks.len() { marks[i + 1].start } else { cs.len() };
        let raw = if a < b { substring(&cs, a, b) } else { String::new() };
        assert(raw@ == raw_phrase(s, marks@, i as int));
        let phrase = clean_phrase_of_law(&Phrase { text: raw });
        let ghost before = units_view(out@);
        match segment_phrase_with_index(&phrase, &current, cfg) {
            Ok(units) => {
                let mut k: usize = 0;
                while k < units.len()
                    invariant
                        k <= units.len(),
                        units_view(out@) == before + units_view(units@).take(k as int),
                    decreases units.len() - k,
                {
                    let u = (units[k].0.copied(), Phrase { text: units[k].1.text.clone() });
                    let ghost prev = out@;
                    out.push(u);
                    assert(units_view(out@) =~= units_view(prev).push((u.0@, u.1.text@)));
                    assert(units_view(out@) =~= before + units_view(units@).take(k + 1));
                    k = k + 1;
                }
                assert(units_view(units@).take(units.len() as int) =~= units_view(units@));
            },
            Err(_) => {
                assert(phrase_units(s, marks@, book@, *cfg, i as int) =~= seq![]);
                assert(units_view(out@) =~= before + seq![]);
            },
        }
        i = i + 1;
    }
    Ok(out)
}

/// Marks a book's text and splits it into addressed units, as `mark_text_of_law`
/// and `interpret_law` do one after the other: the failure to mark, `NoMarks` when
/// there is no mark, else the units of the marks in `mark_le` order.
pub fn index_law_text(text_of_law: &Phrase, patterns: &LawPatterns, book: &LawBook, cfg: &WindowConfig) -> (r: Result<Vec<(LawIndex, Phrase)>, LawError>)
    requires
        cfg.wf(),
    ensures
        match text_marks(text_of_law.text@, *patterns) {
            Err(e) => r == Err::<Vec<(LawIndex, Phrase)>, LawError>(e),
            Ok(s) => if s.len() == 0 {
                r == Err::<Vec<(LawIndex, Phrase)>, LawError>(LawError::NoMarks)
            } else {
                r matches Ok(v) && exists|m: Seq<LawMarking>|
                    marks_sorted(m) && m.to_multiset() == s.to_multiset() && marks_fit(
                        m,
                        text_of_law.text@.len() as int,
                    ) && units_view(v@) == #[trigger] law_units(
                        text_of_law.text@,
                        m,
                        book@,
                        *cfg,
                        m.len() as int,
                    )
            },
        },
{
    let marks = mark_text_of_law(text_of_law, patterns)?;
    proof {
        if let Ok(s) = text_marks(text_of_law.text@, *patterns) {
            vstd::seq_lib::to_multiset_len(s);
            vstd::seq_lib::to_multiset_len(marks@);
        }
    }
    let r = interpret_law(text_of_law, &marks, book, cfg);
    if let Ok(v) = &r {
        assert(units_view(v@) == law_units(text_of_law.text@, marks@, book@, *cfg, marks@.len() as int));
    }
    r
}

} // verus!
