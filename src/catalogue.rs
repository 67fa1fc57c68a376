use vstd::prelude::*;
use crate::errors::LawError;
use crate::language::Phrase;
use crate::laws::{BookView, IndexView, LawBook, LawIndex};
use crate::text::{lower_of, lowercase};

verus! {

/// Whether a vector came from one encoding of a text, or is the mean of several.
#[derive(Debug, Clone, Copy, PartialEq, Eq, Structural)]
pub enum EmbeddingType {
    Total,
    Average,
}

/// A semantic vector and how it was made. Each component is held as the bit
/// pattern of an `f32` (`f32::to_bits`), so that the vector is carried exactly.
#[derive(Debug, Clone)]
pub struct Embedding {
    pub etype: EmbeddingType,
    pub vector: Option<Vec<u32>>,
}

/// A phrase and its embedding.
#[derive(Debug, Clone)]
pub struct Meaning {
    pub phrase: Phrase,
    pub embedding: Embedding,
}

/// The unit that is stored and cached: an address, its phrase and its embedding.
#[derive(Debug, Clone)]
pub struct Catalogue {
    pub dindex: LawIndex,
    pub dmeaning: Meaning,
}

/// A catalogue as the contracts see it.
pub struct CatalogueView {
    pub index: IndexView,
    pub phrase: Seq<char>,
    pub etype: EmbeddingType,
    pub vector: Option<Seq<u32>>,
}

impl View for Catalogue {
    type V = CatalogueView;

    open spec fn view(&self) -> CatalogueView {
        CatalogueView {
            index: self.dindex@,
            phrase: self.dmeaning.phrase.text@,
            etype: self.dmeaning.embedding.etype,
            vector: match self.dmeaning.embedding.vector {
                Some(v) => Some(v@),
                None => None,
            },
        }
    }
}

fn copy_vector(v: &Vec<u32>) -> (r: Vec<u32>)
    ensures
        r@ == v@,
{
    let mut r: Vec<u32> = Vec::new();
    let mut i: usize = 0;
    while i < v.len()
        invariant
            i <= v.len(),
            r@ == v@.take(i as int),
        decreases v.len() - i,
    {
        r.push(v[i]);
        i = i + 1;
        assert(r@ =~= v@.take(i as int));
    }
    assert(v@.take(v.len() as int) =~= v@);
    r
}

impl Catalogue {
    pub fn copied(&self) -> (r: Catalogue)
        ensures
            r@ == self@,
    {
        let vector = match &self.dmeaning.embedding.vector {
            Some(v) => Some(copy_vector(v)),
            None => None,
        };
        Catalogue {
            dindex: self.dindex.copied(),
            dmeaning: Meaning {
                phrase: Phrase { text: self.dmeaning.phrase.text.clone() },
                embedding: Embedding { etype: self.dmeaning.embedding.etype, vector },
            },
        }
    }
}

/// Builds a catalogue; the book's country and instrument are lower-cased.
pub fn catalogue_fabric(
    pais: String,
    instrumento: String,
    titulo: Option<u16>,
    capitulo: Option<u16>,
    articulo: Option<u16>,
    parte: Option<u16>,
    phrase_of_law: &Phrase,
    etype: EmbeddingType,
    embedding: &Option<Vec<u32>>,
) -> (r: Catalogue)
    ensures
        r@ == (CatalogueView {
            index: IndexView {
                book: BookView { pais: lower_of(pais@), instrumento: lower_of(instrumento@) },
                titulo,
                capitulo,
                articulo,
                parte,
            },
            phrase: phrase_of_law.text@,
            etype,
            vector: match embedding {
                Some(v) => Some(v@),
                None => None,
            },
        }),
{
    let vector = match embedding {
        Some(v) => Some(copy_vector(v)),
        None => None,
    };
    Catalogue {
        dindex: LawIndex {
            book: LawBook { pais: lowercase(pais.as_str()), instrumento: lowercase(instrumento.as_str()) },
            titulo,
            capitulo,
            articulo,
            parte,
        },
        dmeaning: Meaning {
            phrase: Phrase { text: phrase_of_law.text.clone() },
            embedding: Embedding { etype, vector },
        },
    }
}

pub open spec fn entries_view(s: Seq<Catalogue>) -> Seq<CatalogueView> {
    s.map_values(|c: Catalogue| c@)
}

/// No two entries share an address.
pub open spec fn keys_unique(s: Seq<CatalogueView>) -> bool {
    forall|i: int, j: int| 0 <= i < j < s.len() ==> (#[trigger] s[i]).index != (#[trigger] s[j]).index
}

/// Whether an entry has the address `k`.
pub open spec fn holds_key(s: Seq<CatalogueView>, k: IndexView) -> bool {
    exists|i: int| 0 <= i < s.len() && (#[trigger] s[i]).index == k
}

/// The entries after storing `c`: it replaces the entry with its address, or comes last.
pub open spec fn stored(s: Seq<CatalogueView>, c: CatalogueView) -> Seq<CatalogueView> {
    if holds_key(s, c.index) {
        let i = choose|i: int| 0 <= i < s.len() && (#[trigger] s[i]).index == c.index;
        s.update(i, c)
    } else {
        s.push(c)
    }
}

/// The in-memory catalogue: the catalogued units, one per address, in the order
/// they were first stored. It never drops an entry on its own.
pub struct CatalogueMemory {
    pub entries: Vec<Catalogue>,
}

impl View for CatalogueMemory {
    type V = Seq<CatalogueView>;

    open spec fn view(&self) -> Seq<CatalogueView> {
        entries_view(self.entries@)
    }
}

impl CatalogueMemory {
    pub open spec fn wf(&self) -> bool {
        keys_unique(self@)
    }

    pub fn new() -> (r: CatalogueMemory)
        ensures
            r.wf(),
            r@ == Seq::<CatalogueView>::empty(),
    {
        let r = CatalogueMemory { entries: Vec::new() };
        assert(r@ =~= Seq::<CatalogueView>::empty());
        r
    }

    pub fn len(&self) -> (r: usize)
        ensures
            r == self@.len(),
    {
        self.entries.len()
    }

    /// The position of the entry with address `k`.
    pub fn position(&self, k: &LawIndex) -> (r: Option<usize>)
        requires
            self.wf(),
        ensures
            r matches Some(i) ==> i < self@.len() && self@[i as int].index == k@,
            r is None <==> !holds_key(self@, k@),
    {
        let mut i: usize = 0;
        while i < self.entries.len()
            invariant
                i <= self.entries.len(),
                forall|q: int| 0 <= q < i ==> (#[trigger] self@[q]).index != k@,
            decreases self.entries.len() - i,
        {
            if self.entries[i].dindex == *k {
                return Some(i);
            }
            i = i + 1;
        }
        None
    }

    pub fn contains(&self, k: &LawIndex) -> (r: bool)
        requires
            self.wf(),
        ensures
            r == holds_key(self@, k@),
    {
        self.position(k).is_some()
    }

    /// A copy of the entry with address `k`.
    pub fn get(&self, k: &LawIndex) -> (r: Option<Catalogue>)
        requires
            self.wf(),
        ensures
            r is None <==> !holds_key(self@, k@),
            r matches Some(c) ==> exists|i: int| 0 <= i < self@.len() && self@[i] == c@ && c@.index == k@,
    {
        match self.position(k) {
            Some(i) => Some(self.entries[i].copied()),
            None => None,
        }
    }

    /// Stores `c` under its address, replacing the entry that had it.
    pub fn insert(&mut self, c: Catalogue)
        requires
            old(self).wf(),
        ensures
            final(self).wf(),
            final(self)@ == stored(old(self)@, c@),
    {
        let ghost s = self@;
        match self.position(&c.dindex) {
            Some(i) => {
                proof {
                    let j = choose|j: int| 0 <= j < s.len() && (#[trigger] s[j]).index == c@.index;
                    assert(j == i as int);
                }
                self.entries.set(i, c);
                assert(self@ =~= stored(s, c@));
            },
            None => {
                self.entries.push(c);
                assert(self@ =~= stored(s, c@));
            },
        }
    }
}

/// What a consultation found: the catalogue, or the need to reload the store first.
#[derive(Debug, Clone)]
pub enum ConsultStep {
    Found(Catalogue),
    Reload,
}

/// Looks an address up. On a miss before any reload it asks for one; on a miss after a
/// reload the address is not found.
pub fn consult_catalogues_memory(memory: &CatalogueMemory, dindex: &LawIndex, reloaded: bool) -> (r: Result<ConsultStep, LawError>)
    requires
        memory.wf(),
    ensures
        holds_key(memory@, dindex@) ==> (r matches Ok(ConsultStep::Found(c)) && exists|i: int|
            0 <= i < memory@.len() && memory@[i] == c@ && c@.index == dindex@),
        !holds_key(memory@, dindex@) && !reloaded ==> r matches Ok(ConsultStep::Reload),
        !holds_key(memory@, dindex@) && reloaded ==> r == Err::<ConsultStep, LawError>(LawError::NotFound),
{
    match memory.get(dindex) {
        Some(c) => Ok(ConsultStep::Found(c)),
        None => if reloaded {
            Err(LawError::NotFound)
        } else {
            Ok(ConsultStep::Reload)
        },
    }
}

/// Whether a load must read the unit at `law_index`: when forced, or when it is not cached.
pub fn needs_loading(memory: &CatalogueMemory, law_index: &LawIndex, force_load: bool) -> (r: bool)
    requires
        memory.wf(),
    ensures
        r == (force_load || !holds_key(memory@, law_index@)),
{
    force_load || !memory.contains(law_index)
}

/// Caches the unit read from the store at `law_index`: its phrase and its vector.
pub fn load_catalogues_memory_item(
    memory: &mut CatalogueMemory,
    law_index: &LawIndex,
    etype: EmbeddingType,
    phrase_of_law: String,
    vector: Vec<u32>,
)
    requires
        old(memory).wf(),
    ensures
        final(memory).wf(),
        final(memory)@ == stored(
            old(memory)@,
            CatalogueView {
                index: IndexView {
                    book: BookView {
                        pais: lower_of(law_index.book.pais@),
                        instrumento: lower_of(law_index.book.instrumento@),
                    },
                    ..law_index@
                },
                phrase: phrase_of_law@,
                etype,
                vector: Some(vector@),
            },
        ),
{
    let c = catalogue_fabric(
        law_index.book.pais.clone(),
        law_index.book.instrumento.clone(),
        law_index.titulo,
        law_index.capitulo,
        law_index.articulo,
        law_index.parte,
        &Phrase { text: phrase_of_law },
        etype,
        &Some(vector),
    );
    memory.insert(c);
}

/// `None` comes before every number, and numbers go by size.
pub open spec fn opt_lt(a: Option<u16>, b: Option<u16>) -> bool {
    match (a, b) {
        (None, Some(_)) => true,
        (Some(x), Some(y)) => x < y,
        _ => false,
    }
}

/// The order of ranked results: by distance, then by título, capítulo, artículo and part.
pub open spec fn rank_lt(a: (IndexView, u32), b: (IndexView, u32)) -> bool {
    a.1 < b.1 || (a.1 == b.1 && (opt_lt(a.0.titulo, b.0.titulo) || (a.0.titulo == b.0.titulo && (
    opt_lt(a.0.capitulo, b.0.capitulo) || (a.0.capitulo == b.0.capitulo && (opt_lt(
        a.0.articulo,
        b.0.articulo,
    ) || (a.0.articulo == b.0.articulo && opt_lt(a.0.parte, b.0.parte))))))))
}

/// The addresses of `book` among the first `n` entries, each with its distance
/// (`dists[i]` is the distance of entry `i`).
pub open spec fn candidates_upto(s: Seq<CatalogueView>, dists: Seq<u32>, book: BookView, n: int) -> Set<(IndexView, u32)> {
    Set::new(
        |c: (IndexView, u32)|
            exists|j: int| 0 <= j < n && (#[trigger] s[j]).index == c.0 && c.0.book == book && dists[j] == c.1,
    )
}

/// The addresses of `book` in the catalogue, each with its distance.
pub open spec fn candidates(s: Seq<CatalogueView>, dists: Seq<u32>, book: BookView) -> Set<(IndexView, u32)> {
    candidates_upto(s, dists, book, s.len() as int)
}

pub open spec fn ranked_sorted(r: Seq<(IndexView, u32)>) -> bool {
    forall|i: int, j: int| 0 <= i < j < r.len() ==> rank_lt(#[trigger] r[i], #[trigger] r[j])
}

/// `r` holds the `top_k` closest candidates (all of them when there are fewer), in
/// increasing order of distance: each is a candidate, and every candidate left out
/// comes after all of them.
pub open spec fn is_ranking(r: Seq<(IndexView, u32)>, cands: Set<(IndexView, u32)>, top_k: nat) -> bool {
    &&& ranked_sorted(r)
    &&& forall|i: int| 0 <= i < r.len() ==> cands.contains(#[trigger] r[i])
    &&& r.len() == if top_k < cands.len() { top_k } else { cands.len() }
    &&& forall|c: (IndexView, u32), i: int|
        cands.contains(c) && !r.contains(c) && 0 <= i < r.len() ==> #[trigger] rank_lt(r[i], c)
}

pub open spec fn ranked_view(v: Seq<(LawIndex, u32)>) -> Seq<(IndexView, u32)> {
    v.map_values(|p: (LawIndex, u32)| (p.0@, p.1))
}

fn opt_lt_exec(a: Option<u16>, b: Option<u16>) -> (r: bool)
    ensures
        r == opt_lt(a, b),
{
    match (a, b) {
        (None, Some(_)) => true,
        (Some(x), Some(y)) => x < y,
        _ => false,
    }
}

fn rank_lt_exec(a: &(LawIndex, u32), b: &(LawIndex, u32)) -> (r: bool)
    ensures
        r == rank_lt((a.0@, a.1), (b.0@, b.1)),
{
    let (x, y) = (&a.0, &b.0);
    a.1 < b.1 || (a.1 == b.1 && (opt_lt_exec(x.titulo, y.titulo) || (x.titulo == y.titulo && (
    opt_lt_exec(x.capitulo, y.capitulo) || (x.capitulo == y.capitulo && (opt_lt_exec(
        x.articulo,
        y.articulo,
    ) || (x.articulo == y.articulo && opt_lt_exec(x.parte, y.parte))))))))
}

pub open spec fn all_of_book(r: Seq<(IndexView, u32)>, book: BookView) -> bool {
    forall|i: int| 0 <= i < r.len() ==> (#[trigger] r[i]).0.book == book
}

proof fn lemma_rank_total(a: (IndexView, u32), b: (IndexView, u32))
    requires
        a.0.book == b.0.book,
        a != b,
    ensures
        rank_lt(a, b) || rank_lt(b, a),
        !rank_lt(a, a),
{
    if !rank_lt(a, b) && !rank_lt(b, a) {
        assert(a.1 == b.1);
        assert(a.0.titulo == b.0.titulo);
        assert(a.0.capitulo == b.0.capitulo);
        assert(a.0.articulo == b.0.articulo);
        assert(a.0.parte == b.0.parte);
        assert(a.0 == b.0);
    }
}

/// Puts `x` into the ranked `v` at its place.
fn insert_ranked(v: &mut Vec<(LawIndex, u32)>, x: (LawIndex, u32), book: Ghost<BookView>)
    requires
        ranked_sorted(ranked_view(old(v)@)),
        all_of_book(ranked_view(old(v)@), book@),
        x.0@.book == book@,
        !ranked_view(old(v)@).contains((x.0@, x.1)),
    ensures
        ranked_sorted(ranked_view(final(v)@)),
        all_of_book(ranked_view(final(v)@), book@),
        ranked_view(final(v)@).to_set() == ranked_view(old(v)@).to_set().insert((x.0@, x.1)),
        ranked_view(final(v)@).len() == old(v)@.len() + 1,
{
    let ghost xv = (x.0@, x.1);
    let ghost before = ranked_view(v@);
    let mut p: usize = 0;
    while p < v.len() && !rank_lt_exec(&x, &v[p])
        invariant
            p <= v.len(),
            before == ranked_view(v@),
            ranked_sorted(before),
            all_of_book(before, book@),
            xv.0.book == book@,
            xv == (x.0@, x.1),
            !before.contains(xv),
            forall|q: int| 0 <= q < p ==> rank_lt(#[trigger] before[q], xv),
        decreases v.len() - p,
    {
        assert(before[p as int] != xv);
        assert(!rank_lt(xv, before[p as int]));
        proof {
            lemma_rank_total(before[p as int], xv);
        }
        assert(rank_lt(before[p as int], xv));
        p = p + 1;
    }
    v.insert(p, x);
    let ghost after = ranked_view(v@);
    assert(after =~= before.insert(p as int, xv));
    assert forall|i: int, j: int| 0 <= i < j < after.len() implies rank_lt(
        #[trigger] after[i],
        #[trigger] after[j],
    ) by {
        if j < p {
        } else if j == p {
        } else if i < p {
            assert(rank_lt(before[i], xv));
            assert(rank_lt(xv, before[p as int]));
            assert(p as int == j - 1 || rank_lt(before[p as int], before[j - 1]));
        } else if i == p {
            assert(rank_lt(xv, before[p as int]));
            assert(p as int == j - 1 || rank_lt(before[p as int], before[j - 1]));
        } else {
            assert(rank_lt(before[i - 1], before[j - 1]));
        }
    }
    assert(after.to_set() =~= before.to_set().insert(xv)) by {
        assert forall|c: (IndexView, u32)| after.to_set().contains(c) implies before.to_set().insert(xv).contains(c) by {
            let k = choose|k: int| 0 <= k < after.len() && after[k] == c;
            if k < p {
                assert(before[k] == c);
            } else if k > p {
                assert(before[k - 1] == c);
            }
        }
        assert forall|c: (IndexView, u32)| before.to_set().insert(xv).contains(c) implies after.to_set().contains(c) by {
            if c == xv {
                assert(after[p as int] == c);
            } else {
                let k = choose|k: int| 0 <= k < before.len() && before[k] == c;
                if k < p {
                    assert(after[k] == c);
                } else {
                    assert(after[k + 1] == c);
                }
            }
        }
    }
}

/// Ranks the catalogued addresses of `book` by distance: the `top_k` closest, closest
/// first, ties broken by address. `distances[i]` is the distance of entry `i` to the
/// query, as an order-preserving key (for a non-negative `f32`, its bit pattern).
pub fn rank_catalogues(memory: &CatalogueMemory, distances: &Vec<u32>, book: &LawBook, top_k: usize) -> (r: Vec<(LawIndex, u32)>)
    requires
        memory.wf(),
        distances.len() == memory@.len(),
    ensures
        is_ranking(ranked_view(r@), candidates(memory@, distances@, book@), top_k as nat),
{
    let ghost s = memory@;
    let ghost d = distances@;
    let mut f: Vec<(LawIndex, u32)> = Vec::new();
    let mut i: usize = 0;
    assert(ranked_view(f@).to_set() =~= candidates_upto(s, d, book@, 0));
    while i < memory.entries.len()
        invariant
            i <= memory.entries.len(),
            s == memory@,
            d == distances@,
            distances.len() == s.len(),
            keys_unique(s),
            ranked_sorted(ranked_view(f@)),
            all_of_book(ranked_view(f@), book@),
            ranked_view(f@).to_set() == candidates_upto(s, d, book@, i as int),
            forall|q: int| 0 <= q < f.len() ==> exists|j: int| 0 <= j < i && (#[trigger] ranked_view(f@)[q]).0 == s[j].index,
        decreases memory.entries.len() - i,
    {
        let e = &memory.entries[i];
        assert(s[i as int] == e@);
        if e.dindex.book == *book {
            let x = (e.dindex.copied(), distances[i]);
            let ghost xv = (x.0@, x.1);
            assert(!ranked_view(f@).contains(xv)) by {
                if ranked_view(f@).contains(xv) {
                    let q = choose|q: int| 0 <= q < f.len() && ranked_view(f@)[q] == xv;
                    let j = choose|j: int| 0 <= j < i && (#[trigger] ranked_view(f@)[q]).0 == s[j].index;
                    assert(s[j].index == s[i as int].index);
                }
            }
            let ghost prevf = ranked_view(f@);
            insert_ranked(&mut f, x, Ghost(book@));
            assert(candidates_upto(s, d, book@, i + 1) =~= candidates_upto(s, d, book@, i as int).insert(xv)) by {
                assert(candidates_upto(s, d, book@, i + 1).contains(xv)) by {
                    assert(s[i as int].index == xv.0);
                }
            }
            assert forall|q: int| 0 <= q < f.len() implies exists|j: int| 0 <= j < i + 1 && (#[trigger] ranked_view(f@)[q]).0 == s[j].index by {
                let c = ranked_view(f@)[q];
                assert(ranked_view(f@).to_set().contains(c));
                if c != xv {
                    assert(prevf.to_set().contains(c));
                    let q2 = choose|q2: int| 0 <= q2 < prevf.len() && prevf[q2] == c;
                    let j = choose|j: int| 0 <= j < i && (#[trigger] prevf[q2]).0 == s[j].index;
                    assert(0 <= j < i + 1 && c.0 == s[j].index);
                } else {
                    assert(c.0 == s[i as int].index);
                }
            }
        } else {
            assert(candidates_upto(s, d, book@, i + 1) =~= candidates_upto(s, d, book@, i as int));
        }
        i = i + 1;
    }
    let ghost full = ranked_view(f@);
    assert(candidates(s, d, book@) == full.to_set());
    proof {
        assert forall|a: int, b: int| 0 <= a < full.len() && 0 <= b < full.len() && a != b implies full[a] != full[b] by {
            if a < b {
                assert(rank_lt(full[a], full[b]));
            } else {
                assert(rank_lt(full[b], full[a]));
            }
        }
        assert(full.no_duplicates());
        full.unique_seq_to_set();
    }
    let n: usize = if top_k < f.len() { top_k } else { f.len() };
    f.truncate(n);
    let ghost rv = ranked_view(f@);
    assert(rv =~= full.take(n as int));
    assert forall|c: (IndexView, u32), q: int|
        full.to_set().contains(c) && !rv.contains(c) && 0 <= q < rv.len() implies #[trigger] rank_lt(rv[q], c) by {
        let k = choose|k: int| 0 <= k < full.len() && full[k] == c;
        if k < n {
            assert(rv[k] == c);
        }
    }
    assert forall|q: int| 0 <= q < rv.len() implies full.to_set().contains(#[trigger] rv[q]) by {
        assert(full[q] == rv[q]);
    }
    f
}

/// Two rankings of the same candidates for the same `top_k` are the same sequence.
pub proof fn lemma_ranking_unique(r1: Seq<(IndexView, u32)>, r2: Seq<(IndexView, u32)>, cands: Set<(IndexView, u32)>, top_k: nat, book: BookView)
    requires
        is_ranking(r1, cands, top_k),
        is_ranking(r2, cands, top_k),
        forall|c: (IndexView, u32)| #[trigger] cands.contains(c) ==> c.0.book == book,
    ensures
        r1 == r2,
{
    assert forall|i: int| 0 <= i < r1.len() implies r1[i] == r2[i] by {
        lemma_ranking_prefix(r1, r2, cands, top_k, book, i);
    }
    assert(r1 =~= r2);
}

proof fn lemma_ranking_prefix(r1: Seq<(IndexView, u32)>, r2: Seq<(IndexView, u32)>, cands: Set<(IndexView, u32)>, top_k: nat, book: BookView, i: int)
    requires
        is_ranking(r1, cands, top_k),
        is_ranking(r2, cands, top_k),
        forall|c: (IndexView, u32)| #[trigger] cands.contains(c) ==> c.0.book == book,
        0 <= i < r1.len(),
    ensures
        r1[i] == r2[i],
    decreases i,
{
    if i > 0 {
        lemma_ranking_prefix(r1, r2, cands, top_k, book, i - 1);
    }
    assert forall|j: int| 0 <= j < i implies r1[j] == r2[j] by {
        lemma_ranking_prefix(r1, r2, cands, top_k, book, j);
    }
    let a = r1[i];
    let b = r2[i];
    if a != b {
        assert(cands.contains(a) && cands.contains(b));
        if rank_lt(a, b) {
            // a is a candidate that r2 leaves out at or after i
            if r2.contains(a) {
                let k = choose|k: int| 0 <= k < r2.len() && r2[k] == a;
                if k < i {
                    assert(r1[k] == a);
                    assert(rank_lt(r1[k], r1[i]));
                } else if k > i {
                    assert(rank_lt(r2[i], r2[k]));
                }
            } else {
                assert(rank_lt(r2[i], a));
            }
        } else {
            assert(rank_lt(b, a));
            if r1.contains(b) {
                let k = choose|k: int| 0 <= k < r1.len() && r1[k] == b;
                if k < i {
                    assert(r2[k] == b);
                    assert(rank_lt(r2[k], r2[i]));
                } else if k > i {
                    assert(rank_lt(r1[i], r1[k]));
                }
            } else {
                assert(rank_lt(r1[i], b));
            }
        }
    }
}

/// Entry `c` with distance `x` is among the entries `s` with distances `d`.
pub open spec fn holds_entry(s: Seq<CatalogueView>, d: Seq<u32>, c: CatalogueView, x: u32) -> bool {
    exists|k: int| 0 <= k < s.len() && s[k] == c && d[k] == x
}

/// Two catalogues hold the same entries with the same distances, in any order.
pub open spec fn same_entries(s1: Seq<CatalogueView>, d1: Seq<u32>, s2: Seq<CatalogueView>, d2: Seq<u32>) -> bool {
    &&& forall|i: int| 0 <= i < s1.len() ==> #[trigger] holds_entry(s2, d2, s1[i], d1[i])
    &&& forall|j: int| 0 <= j < s2.len() ==> #[trigger] holds_entry(s1, d1, s2[j], d2[j])
}

/// The ranking does not depend on the order in which the catalogue was filled: two
/// catalogues that hold the same entries with the same distances, in any order, rank
/// the same addresses in the same order, and the ranking holds `top_k` of them or all.
pub proof fn lemma_rank_ignores_order(
    s1: Seq<CatalogueView>,
    d1: Seq<u32>,
    s2: Seq<CatalogueView>,
    d2: Seq<u32>,
    book: BookView,
    top_k: nat,
    r1: Seq<(IndexView, u32)>,
    r2: Seq<(IndexView, u32)>,
)
    requires
        d1.len() == s1.len(),
        d2.len() == s2.len(),
        same_entries(s1, d1, s2, d2),
        is_ranking(r1, candidates(s1, d1, book), top_k),
        is_ranking(r2, candidates(s2, d2, book), top_k),
    ensures
        r1 == r2,
        forall|i: int, j: int| 0 <= i < j < r1.len() ==> (#[trigger] r1[i]).1 <= (#[trigger] r1[j]).1,
{
    assert(candidates(s1, d1, book) =~= candidates(s2, d2, book)) by {
        assert forall|c: (IndexView, u32)| candidates(s1, d1, book).contains(c) implies candidates(s2, d2, book).contains(c) by {
            let i = choose|i: int| 0 <= i < s1.len() && (#[trigger] s1[i]).index == c.0 && c.0.book == book && d1[i] == c.1;
            assert(holds_entry(s2, d2, s1[i], d1[i]));
            let j = choose|j: int| 0 <= j < s2.len() && s2[j] == s1[i] && d2[j] == d1[i];
            assert(s2[j].index == c.0);
        }
        assert forall|c: (IndexView, u32)| candidates(s2, d2, book).contains(c) implies candidates(s1, d1, book).contains(c) by {
            let j = choose|j: int| 0 <= j < s2.len() && (#[trigger] s2[j]).index == c.0 && c.0.book == book && d2[j] == c.1;
            assert(holds_entry(s1, d1, s2[j], d2[j]));
            let i = choose|i: int| 0 <= i < s1.len() && s1[i] == s2[j] && d1[i] == d2[j];
            assert(s1[i].index == c.0);
        }
    }
    lemma_ranking_unique(r1, r2, candidates(s1, d1, book), top_k, book);
    assert forall|i: int, j: int| 0 <= i < j < r1.len() implies (#[trigger] r1[i]).1 <= (#[trigger] r1[j]).1 by {
        assert(rank_lt(r1[i], r1[j]));
    }
}

/// Whether an entry is a leaf: an aggregate (a título or capítulo rollup) leaves
/// its artículo unset.
pub open spec fn is_leaf(c: CatalogueView) -> bool {
    c.index.articulo is Some
}

/// Whether an entry belongs to the rollup of título `titulo` of `book`, and, when
/// `capitulo` is given, of that capítulo: a leaf under it.
pub open spec fn in_rollup(c: CatalogueView, book: BookView, titulo: u16, capitulo: Option<u16>) -> bool {
    &&& is_leaf(c)
    &&& c.index.book == book
    &&& c.index.titulo == Some(titulo)
    &&& (capitulo matches Some(k) ==> c.index.capitulo == Some(k))
}

/// The vectors of the entries in a rollup, in catalogue order.
pub open spec fn rollup_of(s: Seq<CatalogueView>, book: BookView, titulo: u16, capitulo: Option<u16>) -> Seq<Seq<u32>>
    decreases s.len(),
{
    if s.len() == 0 {
        seq![]
    } else {
        let prev = rollup_of(s.drop_last(), book, titulo, capitulo);
        if in_rollup(s.last(), book, titulo, capitulo) && s.last().vector is Some {
            prev.push(s.last().vector->Some_0)
        } else {
            prev
        }
    }
}

/// The vectors whose mean is the embedding of a título (`capitulo` absent) or of a
/// capítulo of a book: those of every cached leaf under it.
pub fn rollup_vectors(memory: &CatalogueMemory, book: &LawBook, titulo: u16, capitulo: Option<u16>) -> (r: Vec<Vec<u32>>)
    ensures
        r@.map_values(|v: Vec<u32>| v@) == rollup_of(memory@, book@, titulo, capitulo),
{
    let mut r: Vec<Vec<u32>> = Vec::new();
    let mut i: usize = 0;
    while i < memory.entries.len()
        invariant
            i <= memory.entries.len(),
            r@.map_values(|v: Vec<u32>| v@) == rollup_of(memory@.take(i as int), book@, titulo, capitulo),
        decreases memory.entries.len() - i,
    {
        let e = &memory.entries[i];
        assert(memory@.take(i + 1).drop_last() =~= memory@.take(i as int));
        assert(memory@.take(i + 1).last() == e@);
        let inside = e.dindex.articulo.is_some() && e.dindex.book == *book && e.dindex.titulo == Some(titulo) && match capitulo {
            Some(k) => e.dindex.capitulo == Some(k),
            None => true,
        };
        if inside {
            if let Some(v) = &e.dmeaning.embedding.vector {
                let ghost before = r@.map_values(|v: Vec<u32>| v@);
                r.push(copy_vector(v));
                assert(r@.map_values(|v: Vec<u32>| v@) =~= before.push(v@));
            }
        }
        i = i + 1;
    }
    assert(memory@.take(memory.entries.len() as int) =~= memory@);
    r
}

/// The vectors under título `titulo` of `book`.
pub fn title_vectors(memory: &CatalogueMemory, book: &LawBook, titulo: u16) -> (r: Vec<Vec<u32>>)
    ensures
        r@.map_values(|v: Vec<u32>| v@) == rollup_of(memory@, book@, titulo, None),
{
    rollup_vectors(memory, book, titulo, None)
}

/// The vectors under capítulo `capitulo` of título `titulo` of `book`.
pub fn chapter_vectors(memory: &CatalogueMemory, book: &LawBook, titulo: u16, capitulo: u16) -> (r: Vec<Vec<u32>>)
    ensures
        r@.map_values(|v: Vec<u32>| v@) == rollup_of(memory@, book@, titulo, Some(capitulo)),
{
    rollup_vectors(memory, book, titulo, Some(capitulo))
}

proof fn lemma_rollup_update(s: Seq<CatalogueView>, i: int, c: CatalogueView, book: BookView, titulo: u16, capitulo: Option<u16>)
    requires
        0 <= i < s.len(),
        !in_rollup(s[i], book, titulo, capitulo),
        !in_rollup(c, book, titulo, capitulo),
    ensures
        rollup_of(s.update(i, c), book, titulo, capitulo) == rollup_of(s, book, titulo, capitulo),
    decreases s.len(),
{
    let u = s.update(i, c);
    if i == s.len() - 1 {
        assert(u.drop_last() =~= s.drop_last());
    } else {
        assert(u.drop_last() =~= s.drop_last().update(i, c));
        lemma_rollup_update(s.drop_last(), i, c, book, titulo, capitulo);
    }
}

/// Storing an entry outside a rollup (an aggregate, or a leaf of another book, título
/// or capítulo) leaves the rollup's vectors, and so their mean, as they were.
pub proof fn lemma_rollup_ignores_unrelated(s: Seq<CatalogueView>, c: CatalogueView, book: BookView, titulo: u16, capitulo: Option<u16>)
    requires
        !in_rollup(c, book, titulo, capitulo),
    ensures
        rollup_of(stored(s, c), book, titulo, capitulo) == rollup_of(s, book, titulo, capitulo),
{
    if holds_key(s, c.index) {
        let i = choose|i: int| 0 <= i < s.len() && (#[trigger] s[i]).index == c.index;
        lemma_rollup_update(s, i, c, book, titulo, capitulo);
    } else {
        assert(s.push(c).drop_last() =~= s);
    }
}

/// Membership in a rollup, as a predicate.
pub open spec fn rollup_member(book: BookView, titulo: u16, capitulo: Option<u16>) -> spec_fn(CatalogueView) -> bool {
    |c: CatalogueView| in_rollup(c, book, titulo, capitulo)
}

proof fn lemma_rollup_of_members(s: Seq<CatalogueView>, book: BookView, titulo: u16, capitulo: Option<u16>)
    ensures
        rollup_of(s, book, titulo, capitulo) == rollup_of(
            s.filter(rollup_member(book, titulo, capitulo)),
            book,
            titulo,
            capitulo,
        ),
    decreases s.len(),
{
    let f = rollup_member(book, titulo, capitulo);
    reveal(Seq::filter);
    if s.len() > 0 {
        lemma_rollup_of_members(s.drop_last(), book, titulo, capitulo);
        let sub = s.drop_last().filter(f);
        let fs = s.filter(f);
        assert(f(s.last()) == in_rollup(s.last(), book, titulo, capitulo));
        assert(fs == if f(s.last()) { sub.push(s.last()) } else { sub });
        if f(s.last()) {
            assert(fs.drop_last() =~= sub);
            assert(fs.last() == s.last());
            assert(rollup_of(sub, book, titulo, capitulo) == rollup_of(s.drop_last(), book, titulo, capitulo));
        }
    }
}

/// A rollup's vectors depend on the members of the rollup alone: two catalogues whose
/// leaves under that título (and capítulo) are the same, in the same order, give the
/// same vectors, whatever else they hold.
pub proof fn lemma_rollup_depends_on_members(
    s1: Seq<CatalogueView>,
    s2: Seq<CatalogueView>,
    book: BookView,
    titulo: u16,
    capitulo: Option<u16>,
)
    requires
        s1.filter(rollup_member(book, titulo, capitulo)) == s2.filter(rollup_member(book, titulo, capitulo)),
    ensures
        rollup_of(s1, book, titulo, capitulo) == rollup_of(s2, book, titulo, capitulo),
{
    lemma_rollup_of_members(s1, book, titulo, capitulo);
    lemma_rollup_of_members(s2, book, titulo, capitulo);
}

/// The títulos present in a book's entries.
pub open spec fn titles_of(s: Seq<CatalogueView>, book: BookView) -> Set<u16> {
    Set::new(|t: u16| exists|i: int| 0 <= i < s.len() && (#[trigger] s[i]).index.book == book && s[i].index.titulo == Some(t))
}

/// The capítulos present under título `title` of a book's entries.
pub open spec fn chapters_of(s: Seq<CatalogueView>, book: BookView, title: u16) -> Set<u16> {
    Set::new(
        |k: u16|
            exists|i: int|
                0 <= i < s.len() && (#[trigger] s[i]).index.book == book && s[i].index.titulo == Some(title)
                    && s[i].index.capitulo == Some(k),
    )
}

fn push_new(v: &mut Vec<u16>, x: u16)
    requires
        old(v)@.no_duplicates(),
    ensures
        final(v)@.no_duplicates(),
        final(v)@.to_set() == old(v)@.to_set().insert(x),
{
    let mut i: usize = 0;
    while i < v.len()
        invariant
            i <= v.len(),
            v@.no_duplicates(),
            forall|q: int| 0 <= q < i ==> v@[q] != x,
        decreases v.len() - i,
    {
        if v[i] == x {
            assert(v@.to_set() =~= v@.to_set().insert(x));
            return;
        }
        i = i + 1;
    }
    let ghost before = v@;
    v.push(x);
    assert(v@.to_set() =~= before.to_set().insert(x)) by {
        assert forall|y: u16| v@.to_set().contains(y) implies before.to_set().insert(x).contains(y) by {
            let k = choose|k: int| 0 <= k < v@.len() && v@[k] == y;
            if k < before.len() {
                assert(before[k] == y);
            }
        }
        assert forall|y: u16| before.to_set().insert(x).contains(y) implies v@.to_set().contains(y) by {
            if y == x {
                assert(v@[before.len() as int] == y);
            } else {
                let k = choose|k: int| 0 <= k < before.len() && before[k] == y;
                assert(v@[k] == y);
            }
        }
    }
}

/// Every título of a book's entries, once each.
pub fn all_titles(memory: &CatalogueMemory, book: &LawBook) -> (r: Vec<u16>)
    ensures
        r@.no_duplicates(),
        r@.to_set() == titles_of(memory@, book@),
{
    let mut r: Vec<u16> = Vec::new();
    let mut i: usize = 0;
    assert(r@.to_set() =~= titles_of(memory@.take(0), book@));
    while i < memory.entries.len()
        invariant
            i <= memory.entries.len(),
            r@.no_duplicates(),
            r@.to_set() == titles_of(memory@.take(i as int), book@),
        decreases memory.entries.len() - i,
    {
        let e = &memory.entries[i];
        let ghost s = memory@.take(i + 1);
        assert(s[i as int] == e@);
        assert forall|q: int| 0 <= q < i implies s[q] == memory@.take(i as int)[q] by {}
        if e.dindex.book == *book {
            if let Some(t) = e.dindex.titulo {
                push_new(&mut r, t);
                assert(titles_of(s, book@) =~= titles_of(memory@.take(i as int), book@).insert(t));
            } else {
                assert(titles_of(s, book@) =~= titles_of(memory@.take(i as int), book@));
            }
        } else {
            assert(titles_of(s, book@) =~= titles_of(memory@.take(i as int), book@));
        }
        i = i + 1;
    }
    assert(memory@.take(memory.entries.len() as int) =~= memory@);
    r
}

/// Every capítulo under título `title` of a book's entries, once each.
pub fn all_chapters_in_title(memory: &CatalogueMemory, book: &LawBook, title: u16) -> (r: Vec<u16>)
    ensures
        r@.no_duplicates(),
        r@.to_set() == chapters_of(memory@, book@, title),
{
    let mut r: Vec<u16> = Vec::new();
    let mut i: usize = 0;
    assert(r@.to_set() =~= chapters_of(memory@.take(0), book@, title));
    while i < memory.entries.len()
        invariant
            i <= memory.entries.len(),
            r@.no_duplicates(),
            r@.to_set() == chapters_of(memory@.take(i as int), book@, title),
        decreases memory.entries.len() - i,
    {
        let e = &memory.entries[i];
        let ghost s = memory@.take(i + 1);
        assert(s[i as int] == e@);
        assert forall|q: int| 0 <= q < i implies s[q] == memory@.take(i as int)[q] by {}
        if e.dindex.book == *book && e.dindex.titulo == Some(title) {
            if let Some(k) = e.dindex.capitulo {
                push_new(&mut r, k);
                assert(chapters_of(s, book@, title) =~= chapters_of(memory@.take(i as int), book@, title).insert(k));
            } else {
                assert(chapters_of(s, book@, title) =~= chapters_of(memory@.take(i as int), book@, title));
            }
        } else {
            assert(chapters_of(s, book@, title) =~= chapters_of(memory@.take(i as int), book@, title));
        }
        i = i + 1;
    }
    assert(memory@.take(memory.entries.len() as int) =~= memory@);
    r
}

/// The kind of a phrase's embedding from how many windows it was encoded in: none
/// gives nothing to catalogue, one gives the encoding itself, more give their mean.
pub fn embedding_type_for(segment_count: usize) -> (r: Option<EmbeddingType>)
    ensures
        segment_count == 0 ==> r is None,
        segment_count == 1 ==> r == Some(EmbeddingType::Total),
        segment_count > 1 ==> r == Some(EmbeddingType::Average),
{
    if segment_count == 0 {
        None
    } else if segment_count == 1 {
        Some(EmbeddingType::Total)
    } else {
        Some(EmbeddingType::Average)
    }
}

/// The catalogue of a unit at `law_index` whose embedding came back as `embedding`:
/// stored in memory and returned, so that it can be written to the store; nothing
/// when there is no vector.
pub fn catalogue_mech(
    memory: &mut CatalogueMemory,
    phrase_of_law: &Phrase,
    law_index: &LawIndex,
    embedding: Option<Vec<u32>>,
    etype: EmbeddingType,
) -> (r: Option<Catalogue>)
    requires
        old(memory).wf(),
    ensures
        final(memory).wf(),
        embedding is None ==> r is None && final(memory)@ == old(memory)@,
        embedding matches Some(v) ==> (r matches Some(c) && c@ == (CatalogueView {
            index: IndexView {
                book: BookView {
                    pais: lower_of(law_index.book.pais@),
                    instrumento: lower_of(law_index.book.instrumento@),
                },
                ..law_index@
            },
            phrase: phrase_of_law.text@,
            etype,
            vector: Some(v@),
        }) && final(memory)@ == stored(old(memory)@, c@)),
{
    match embedding {
        None => None,
        Some(v) => {
            let c = catalogue_fabric(
                law_index.book.pais.clone(),
                law_index.book.instrumento.clone(),
                law_index.titulo,
                law_index.capitulo,
                law_index.articulo,
                law_index.parte,
                phrase_of_law,
                etype,
                &Some(v),
            );
            let kept = c.copied();
            memory.insert(c);
            Some(kept)
        },
    }
}

} // verus!
