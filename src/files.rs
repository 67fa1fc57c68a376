use vstd::prelude::*;
use crate::catalogue::{Catalogue, EmbeddingType};
use crate::errors::LawError;
use crate::laws::{BookView, IndexView, LawBook, LawIndex};
use crate::text::{same_chars, chars_of, decimal, digit_char, push_decimal, push_str, string_from_chars};
use crate::utils::{digits_of, digits_value, is_digit, nested_view, parse_digits};

verus! {

/// Where the store keeps its files, and the extension of each kind of file.
#[derive(Debug, Clone)]
pub struct StoreConfig {
    pub reference_folder: String,
    pub laws_folder: String,
    pub reference_extension: String,
    pub embeddings_extension: String,
    pub law_extension: String,
    pub law_config_extension: String,
}

/// `"{pais}.{instrumento}"`.
pub open spec fn book_stem(b: BookView) -> Seq<char> {
    b.pais + seq!['.'] + b.instrumento
}

/// `"." + label + "-" + n` when the field is set, nothing otherwise.
pub open spec fn field_suffix(label: Seq<char>, f: Option<u16>) -> Seq<char> {
    match f {
        Some(n) => seq!['.'] + label + seq!['-'] + decimal(n as nat),
        None => seq![],
    }
}

/// The file stem of an address: the book, then each hierarchy field that is set.
pub open spec fn index_stem(i: IndexView) -> Seq<char> {
    book_stem(i.book) + field_suffix("titulo"@, i.titulo) + field_suffix("capitulo"@, i.capitulo)
        + field_suffix("articulo"@, i.articulo) + field_suffix("parte"@, i.parte)
}

/// The folder of a book's files: `"{reference_folder}{pais}.{instrumento}/"`.
pub open spec fn book_folder(cfg: &StoreConfig, b: BookView) -> Seq<char> {
    cfg.reference_folder@ + book_stem(b) + seq!['/']
}

fn push_field(label: &str, f: Option<u16>, out: &mut Vec<char>)
    ensures
        final(out)@ == old(out)@ + field_suffix(label@, f),
{
    if let Some(n) = f {
        out.push('.');
        push_str(label, out);
        out.push('-');
        push_decimal(n as u64, out);
        assert(final(out)@ =~= old(out)@ + field_suffix(label@, f));
    } else {
        assert(final(out)@ =~= old(out)@ + field_suffix(label@, f));
    }
}

fn push_book(b: &LawBook, out: &mut Vec<char>)
    ensures
        final(out)@ == old(out)@ + book_stem(b@),
{
    push_str(b.pais.as_str(), out);
    out.push('.');
    push_str(b.instrumento.as_str(), out);
    assert(final(out)@ =~= old(out)@ + book_stem(b@));
}

/// The file stem of an address, such as `colombia.constitucion.titulo-1.articulo-5`.
pub fn law_index_to_filename(dindex: &LawIndex) -> (r: String)
    ensures
        r@ == index_stem(dindex@),
{
    let mut out: Vec<char> = Vec::new();
    push_book(&dindex.book, &mut out);
    push_field("titulo", dindex.titulo, &mut out);
    push_field("capitulo", dindex.capitulo, &mut out);
    push_field("articulo", dindex.articulo, &mut out);
    push_field("parte", dindex.parte, &mut out);
    assert(out@ =~= index_stem(dindex@));
    string_from_chars(out.as_slice())
}

fn book_folder_chars(cfg: &StoreConfig, b: &LawBook) -> (r: Vec<char>)
    ensures
        r@ == book_folder(cfg, b@),
{
    let mut out: Vec<char> = Vec::new();
    push_str(cfg.reference_folder.as_str(), &mut out);
    push_book(b, &mut out);
    out.push('/');
    assert(out@ =~= book_folder(cfg, b@));
    out
}

/// The folder of the reference records of an address's book.
pub fn reference_foldername(cfg: &StoreConfig, dindex: &LawIndex) -> (r: String)
    ensures
        r@ == book_folder(cfg, dindex@.book),
{
    string_from_chars(book_folder_chars(cfg, &dindex.book).as_slice())
}

/// The folder of the embedding files of an address's book.
pub fn embeddings_foldername(cfg: &StoreConfig, dindex: &LawIndex) -> (r: String)
    ensures
        r@ == book_folder(cfg, dindex@.book),
{
    string_from_chars(book_folder_chars(cfg, &dindex.book).as_slice())
}

/// The folder of the phrase files of an address's book.
pub fn file_of_law_foldername(cfg: &StoreConfig, dindex: &LawIndex) -> (r: String)
    ensures
        r@ == book_folder(cfg, dindex@.book),
{
    string_from_chars(book_folder_chars(cfg, &dindex.book).as_slice())
}

/// The folder of the books' raw texts.
pub fn book_of_law_foldername(cfg: &StoreConfig) -> (r: String)
    ensures
        r@ == cfg.laws_folder@,
{
    cfg.laws_folder.clone()
}

fn unit_filename(cfg: &StoreConfig, dindex: &LawIndex, extension: &str) -> (r: String)
    ensures
        r@ == book_folder(cfg, dindex@.book) + index_stem(dindex@) + extension@,
{
    let mut out = book_folder_chars(cfg, &dindex.book);
    let stem = law_index_to_filename(dindex);
    push_str(stem.as_str(), &mut out);
    push_str(extension, &mut out);
    string_from_chars(out.as_slice())
}

/// The path of an address's reference record.
pub fn reference_filename(cfg: &StoreConfig, dindex: &LawIndex) -> (r: String)
    ensures
        r@ == book_folder(cfg, dindex@.book) + index_stem(dindex@) + cfg.reference_extension@,
{
    unit_filename(cfg, dindex, cfg.reference_extension.as_str())
}

/// The path of an address's embedding file.
pub fn embeddings_filename(cfg: &StoreConfig, dindex: &LawIndex) -> (r: String)
    ensures
        r@ == book_folder(cfg, dindex@.book) + index_stem(dindex@) + cfg.embeddings_extension@,
{
    unit_filename(cfg, dindex, cfg.embeddings_extension.as_str())
}

/// The path of an address's phrase file.
pub fn file_of_law_filename(cfg: &StoreConfig, dindex: &LawIndex) -> (r: String)
    ensures
        r@ == book_folder(cfg, dindex@.book) + index_stem(dindex@) + cfg.law_extension@,
{
    unit_filename(cfg, dindex, cfg.law_extension.as_str())
}

/// The path of a book's raw text: `"{laws_folder}{pais}.{instrumento}{law_extension}"`.
pub fn book_of_law_filename(cfg: &StoreConfig, book: &LawBook) -> (r: String)
    ensures
        r@ == cfg.laws_folder@ + book_stem(book@) + cfg.law_extension@,
{
    let mut out: Vec<char> = Vec::new();
    push_str(cfg.laws_folder.as_str(), &mut out);
    push_book(book, &mut out);
    push_str(cfg.law_extension.as_str(), &mut out);
    assert(out@ =~= cfg.laws_folder@ + book_stem(book@) + cfg.law_extension@);
    string_from_chars(out.as_slice())
}

/// The path of a book's configuration: `"{laws_folder}{pais}.{instrumento}{law_config_extension}"`.
pub fn law_config_filename(cfg: &StoreConfig, book: &LawBook) -> (r: String)
    ensures
        r@ == cfg.laws_folder@ + book_stem(book@) + cfg.law_config_extension@,
{
    let mut out: Vec<char> = Vec::new();
    push_str(cfg.laws_folder.as_str(), &mut out);
    push_book(book, &mut out);
    push_str(cfg.law_config_extension.as_str(), &mut out);
    assert(out@ =~= cfg.laws_folder@ + book_stem(book@) + cfg.law_config_extension@);
    string_from_chars(out.as_slice())
}

/// How an optional hierarchy field is written: its number, or `-1` when absent.
pub open spec fn opt_text(f: Option<u16>) -> Seq<char> {
    match f {
        Some(n) => decimal(n as nat),
        None => seq!['-', '1'],
    }
}

pub open spec fn etype_text(e: EmbeddingType) -> Seq<char> {
    match e {
        EmbeddingType::Total => "Total"@,
        EmbeddingType::Average => "Average"@,
    }
}

/// One line of a reference record: `key = "value"`.
pub open spec fn field_line(key: Seq<char>, value: Seq<char>) -> Seq<char> {
    key + " = \""@ + value + seq!['"']
}

pub open spec fn record_keys() -> Seq<Seq<char>> {
    seq!["pais"@, "instrumento"@, "titulo"@, "capitulo"@, "articulo"@, "parte"@, "etype"@]
}

pub open spec fn record_values(i: IndexView, e: EmbeddingType) -> Seq<Seq<char>> {
    seq![
        i.book.pais,
        i.book.instrumento,
        opt_text(i.titulo),
        opt_text(i.capitulo),
        opt_text(i.articulo),
        opt_text(i.parte),
        etype_text(e),
    ]
}

/// Lines joined with a line break between neighbours.
pub open spec fn join_lines(ls: Seq<Seq<char>>) -> Seq<char>
    decreases ls.len(),
{
    if ls.len() == 0 {
        seq![]
    } else if ls.len() == 1 {
        ls[0]
    } else {
        join_lines(ls.drop_last()) + seq!['\n'] + ls.last()
    }
}

/// The reference record of an address and its embedding kind: seven `key = "value"`
/// lines, absent fields written as `-1`.
pub open spec fn reference_text(i: IndexView, e: EmbeddingType) -> Seq<char> {
    join_lines(Seq::new(7, |k: int| field_line(record_keys()[k], record_values(i, e)[k])))
}

/// A text cut at its line breaks; a text without one is one line.
pub open spec fn split_lines(s: Seq<char>) -> Seq<Seq<char>>
    decreases s.len(),
{
    if s.len() == 0 {
        seq![seq![]]
    } else {
        let p = split_lines(s.drop_last());
        if s.last() == '\n' {
            p.push(seq![])
        } else {
            p.update(p.len() - 1, p.last().push(s.last()))
        }
    }
}

/// The value of a `key = "value"` line, when the line has that key.
pub open spec fn line_value(line: Seq<char>, key: Seq<char>) -> Option<Seq<char>> {
    let pre = key + " = \""@;
    if line.len() >= pre.len() + 1 && line.take(pre.len() as int) == pre && line.last() == '"' {
        Some(line.subrange(pre.len() as int, line.len() - 1))
    } else {
        None
    }
}

pub open spec fn all_digits(v: Seq<char>) -> bool {
    forall|k: int| 0 <= k < v.len() ==> is_digit(#[trigger] v[k])
}

/// An optional hierarchy field read back: `-1` is absent, a numeral up to 65535 is that number.
pub open spec fn opt_field(v: Seq<char>) -> Result<Option<u16>, LawError> {
    if v == seq!['-', '1'] {
        Ok(None)
    } else if v.len() > 0 && all_digits(v) && digits_value(v) <= 0xffff {
        Ok(Some(digits_value(v) as u16))
    } else {
        Err(LawError::ParseError)
    }
}

pub open spec fn etype_field(v: Seq<char>) -> Result<EmbeddingType, LawError> {
    if v == "Total"@ {
        Ok(EmbeddingType::Total)
    } else if v == "Average"@ {
        Ok(EmbeddingType::Average)
    } else {
        Err(LawError::ParseError)
    }
}

/// A reference record read back: exactly the seven lines, keys in order.
pub open spec fn reference_of(s: Seq<char>) -> Result<(IndexView, EmbeddingType), LawError> {
    let ls = split_lines(s);
    if ls.len() != 7 || exists|k: int| 0 <= k < 7 && #[trigger] line_value(ls[k], record_keys()[k]) is None {
        Err(LawError::ParseError)
    } else {
        let v = Seq::new(7, |k: int| line_value(ls[k], record_keys()[k])->Some_0);
        match (opt_field(v[2]), opt_field(v[3]), opt_field(v[4]), opt_field(v[5]), etype_field(v[6])) {
            (Ok(t), Ok(c), Ok(a), Ok(p), Ok(e)) => Ok(
                (
                    IndexView {
                        book: BookView { pais: v[0], instrumento: v[1] },
                        titulo: t,
                        capitulo: c,
                        articulo: a,
                        parte: p,
                    },
                    e,
                ),
            ),
            _ => Err(LawError::ParseError),
        }
    }
}

pub open spec fn no_newline(s: Seq<char>) -> bool {
    forall|k: int| 0 <= k < s.len() ==> s[k] != '\n'
}

proof fn lemma_split_lines_nonempty(s: Seq<char>)
    ensures
        split_lines(s).len() >= 1,
    decreases s.len(),
{
    if s.len() > 0 {
        lemma_split_lines_nonempty(s.drop_last());
    }
}

proof fn lemma_split_plain(x: Seq<char>, y: Seq<char>)
    requires
        no_newline(y),
    ensures
        split_lines(x + y) == split_lines(x).update(
            split_lines(x).len() - 1,
            split_lines(x).last() + y,
        ),
    decreases y.len(),
{
    lemma_split_lines_nonempty(x);
    if y.len() == 0 {
        assert(x + y =~= x);
        assert(split_lines(x).last() + y =~= split_lines(x).last());
        assert(split_lines(x).update(split_lines(x).len() - 1, split_lines(x).last()) =~= split_lines(x));
    } else {
        let y0 = y.drop_last();
        lemma_split_plain(x, y0);
        assert((x + y).drop_last() =~= x + y0);
        assert((x + y).last() == y.last());
        assert(y.last() != '\n');
        lemma_split_lines_nonempty(x + y0);
        assert((split_lines(x).last() + y0).push(y.last()) =~= split_lines(x).last() + y);
        assert(split_lines(x + y) =~= split_lines(x).update(
            split_lines(x).len() - 1,
            split_lines(x).last() + y,
        ));
    }
}

proof fn lemma_split_join(ls: Seq<Seq<char>>)
    requires
        ls.len() >= 1,
        forall|k: int| 0 <= k < ls.len() ==> no_newline(#[trigger] ls[k]),
    ensures
        split_lines(join_lines(ls)) == ls,
    decreases ls.len(),
{
    if ls.len() == 1 {
        lemma_split_plain(seq![], ls[0]);
        assert(Seq::<char>::empty() + ls[0] =~= ls[0]);
        assert(split_lines(seq![]) =~= seq![seq![]]);
        assert(ls =~= seq![Seq::<char>::empty() + ls[0]]);
    } else {
        let init = ls.drop_last();
        lemma_split_join(init);
        let a = join_lines(init);
        let an = a + seq!['\n'];
        assert(an.drop_last() =~= a);
        assert(split_lines(an) == split_lines(a).push(seq![]));
        lemma_split_plain(an, ls.last());
        assert(join_lines(ls) =~= an + ls.last());
        assert(Seq::<char>::empty() + ls.last() =~= ls.last());
        assert(split_lines(join_lines(ls)) =~= ls);
    }
}

proof fn lemma_decimal_digits(n: nat)
    ensures
        decimal(n).len() > 0,
        all_digits(decimal(n)),
        digits_value(decimal(n)) == n,
        no_newline(decimal(n)),
    decreases n,
{
    if n >= 10 {
        lemma_decimal_digits(n / 10);
        let d = decimal(n);
        assert(d.drop_last() =~= decimal(n / 10));
        assert(d.last() == digit_char(n % 10));
        assert(digit_char(n % 10) as nat == n % 10 + 48);
        assert((n / 10) * 10 + n % 10 == n) by (nonlinear_arith);
        assert(digits_value(d) == digits_value(d.drop_last()) * 10 + (d.last() as nat - '0' as nat) as nat);
        assert(digits_value(d.drop_last()) == n / 10);
        assert((d.last() as nat - '0' as nat) as nat == n % 10);
    } else {
        let d = decimal(n);
        assert(d.drop_last() =~= Seq::<char>::empty());
        assert(d.last() == digit_char(n));
        assert(digit_char(n) as nat == n + 48);
        assert(digits_value(d) == digits_value(d.drop_last()) * 10 + (d.last() as nat - '0' as nat) as nat);
    }
}

proof fn lemma_line_value(key: Seq<char>, value: Seq<char>)
    ensures
        line_value(field_line(key, value), key) == Some(value),
{
    let pre = key + " = \""@;
    let line = field_line(key, value);
    assert(line =~= pre + value + seq!['"']);
    assert(line.take(pre.len() as int) =~= pre);
    assert(line.subrange(pre.len() as int, line.len() - 1) =~= value);
}

/// Writing a reference record and reading it back gives the same address and
/// embedding kind, absent fields included, for every address whose country and
/// instrument hold no line break.
pub proof fn lemma_reference_round_trip(i: IndexView, e: EmbeddingType)
    requires
        no_newline(i.book.pais),
        no_newline(i.book.instrumento),
    ensures
        reference_of(reference_text(i, e)) == Ok::<(IndexView, EmbeddingType), LawError>((i, e)),
{
    reveal_strlit("pais");
    reveal_strlit("instrumento");
    reveal_strlit("titulo");
    reveal_strlit("capitulo");
    reveal_strlit("articulo");
    reveal_strlit("parte");
    reveal_strlit("etype");
    reveal_strlit(" = \"");
    reveal_strlit("Total");
    reveal_strlit("Average");
    let vals = record_values(i, e);
    let ls = Seq::new(7, |k: int| field_line(record_keys()[k], vals[k]));
    assert forall|f: Option<u16>| no_newline(#[trigger] opt_text(f)) && opt_field(opt_text(f)) == Ok::<Option<u16>, LawError>(f) by {
        if let Some(n) = f {
            lemma_decimal_digits(n as nat);
            assert(is_digit(decimal(n as nat)[0]));
            assert(decimal(n as nat) != seq!['-', '1']);
        }
    }
    assert(no_newline(etype_text(e)));
    assert(etype_field(etype_text(e)) == Ok::<EmbeddingType, LawError>(e)) by {
        assert("Average"@.len() != "Total"@.len());
    }
    assert forall|k: int| 0 <= k < ls.len() implies no_newline(#[trigger] ls[k]) by {
        assert(no_newline(vals[k]));
        assert(no_newline(record_keys()[k]));
        let l = ls[k];
        assert(l =~= record_keys()[k] + " = \""@ + vals[k] + seq!['"']);
        assert forall|q: int| 0 <= q < l.len() implies l[q] != '\n' by {
            let kl = record_keys()[k].len() as int;
            if q < kl {
                assert(l[q] == record_keys()[k][q]);
            } else if q < kl + 4 {
                assert(l[q] == " = \""@[q - kl]);
            } else if q < kl + 4 + vals[k].len() {
                assert(l[q] == vals[k][q - kl - 4]);
            }
        }
    }
    lemma_split_join(ls);
    assert(reference_text(i, e) == join_lines(ls)) by {
        assert(Seq::new(7, |k: int| field_line(record_keys()[k], record_values(i, e)[k])) =~= ls);
    }
    assert forall|k: int| 0 <= k < 7 implies #[trigger] line_value(ls[k], record_keys()[k]) == Some(vals[k]) by {
        lemma_line_value(record_keys()[k], vals[k]);
    }
    let v = Seq::new(7, |k: int| line_value(ls[k], record_keys()[k])->Some_0);
    assert(v =~= vals);
}

pub proof fn lemma_join_step(ls: Seq<Seq<char>>, k: int)
    requires
        1 <= k < ls.len(),
    ensures
        join_lines(ls.take(k + 1)) == join_lines(ls.take(k)) + seq!['\n'] + ls[k],
        join_lines(ls.take(1)) == ls[0],
{
    assert(ls.take(k + 1).drop_last() =~= ls.take(k));
}

fn opt_chars(f: Option<u16>) -> (r: Vec<char>)
    ensures
        r@ == opt_text(f),
{
    let mut out: Vec<char> = Vec::new();
    match f {
        Some(n) => {
            push_decimal(n as u64, &mut out);
            assert(out@ =~= opt_text(f));
        },
        None => {
            out.push('-');
            out.push('1');
            assert(out@ =~= opt_text(f));
        },
    }
    out
}

fn etype_chars(e: EmbeddingType) -> (r: Vec<char>)
    ensures
        r@ == etype_text(e),
{
    match e {
        EmbeddingType::Total => chars_of("Total"),
        EmbeddingType::Average => chars_of("Average"),
    }
}

fn push_field_line(key: &str, value: &Vec<char>, out: &mut Vec<char>)
    ensures
        final(out)@ == old(out)@ + field_line(key@, value@),
{
    push_str(key, out);
    push_str(" = \"", out);
    let mut i: usize = 0;
    let ghost base = out@;
    while i < value.len()
        invariant
            i <= value.len(),
            out@ == base + value@.take(i as int),
        decreases value.len() - i,
    {
        out.push(value[i]);
        i = i + 1;
        assert(out@ =~= base + value@.take(i as int));
    }
    out.push('"');
    assert(value@.take(value.len() as int) =~= value@);
    assert(final(out)@ =~= old(out)@ + field_line(key@, value@));
}

/// The reference record of a catalogue's address and embedding kind.
pub fn write_reference_file(doc: &Catalogue) -> (r: String)
    ensures
        r@ == reference_text(doc.dindex@, doc.dmeaning.embedding.etype),
{
    let i = &doc.dindex;
    let e = doc.dmeaning.embedding.etype;
    let ghost vals = record_values(i@, e);
    let ghost ls = Seq::new(7, |k: int| field_line(record_keys()[k], vals[k]));
    let mut out: Vec<char> = Vec::new();
    push_field_line("pais", &chars_of(i.book.pais.as_str()), &mut out);
    proof { lemma_join_step(ls, 1); }
    assert(out@ =~= join_lines(ls.take(1)));
    out.push('\n');
    push_field_line("instrumento", &chars_of(i.book.instrumento.as_str()), &mut out);
    assert(out@ =~= join_lines(ls.take(2)));
    out.push('\n');
    push_field_line("titulo", &opt_chars(i.titulo), &mut out);
    proof { lemma_join_step(ls, 2); }
    assert(out@ =~= join_lines(ls.take(3)));
    out.push('\n');
    push_field_line("capitulo", &opt_chars(i.capitulo), &mut out);
    proof { lemma_join_step(ls, 3); }
    assert(out@ =~= join_lines(ls.take(4)));
    out.push('\n');
    push_field_line("articulo", &opt_chars(i.articulo), &mut out);
    proof { lemma_join_step(ls, 4); }
    assert(out@ =~= join_lines(ls.take(5)));
    out.push('\n');
    push_field_line("parte", &opt_chars(i.parte), &mut out);
    proof { lemma_join_step(ls, 5); }
    assert(out@ =~= join_lines(ls.take(6)));
    out.push('\n');
    push_field_line("etype", &etype_chars(e), &mut out);
    proof { lemma_join_step(ls, 6); }
    assert(out@ =~= join_lines(ls.take(7)));
    assert(ls.take(7) =~= ls);
    string_from_chars(out.as_slice())
}

fn split_lines_of(cs: &Vec<char>) -> (r: Vec<Vec<char>>)
    ensures
        nested_view(r@) == split_lines(cs@),
{
    let mut done: Vec<Vec<char>> = Vec::new();
    let mut cur: Vec<char> = Vec::new();
    let mut i: usize = 0;
    assert(nested_view(done@).push(cur@) =~= split_lines(cs@.take(0)));
    while i < cs.len()
        invariant
            i <= cs.len(),
            nested_view(done@).push(cur@) == split_lines(cs@.take(i as int)),
        decreases cs.len() - i,
    {
        assert(cs@.take(i + 1).drop_last() =~= cs@.take(i as int));
        let ghost before = nested_view(done@);
        if cs[i] == '\n' {
            let full = cur;
            done.push(full);
            cur = Vec::new();
            assert(nested_view(done@) =~= before.push(full@));
            assert(nested_view(done@).push(cur@) =~= split_lines(cs@.take(i + 1)));
        } else {
            cur.push(cs[i]);
            assert(nested_view(done@).push(cur@) =~= split_lines(cs@.take(i + 1)));
        }
        i = i + 1;
    }
    let ghost before = nested_view(done@);
    let last = cur;
    done.push(last);
    assert(nested_view(done@) =~= before.push(last@));
    assert(cs@.take(cs.len() as int) =~= cs@);
    done
}

fn line_value_of(line: &Vec<char>, key: &str) -> (r: Option<Vec<char>>)
    ensures
        r is None <==> line_value(line@, key@) is None,
        r matches Some(v) ==> line_value(line@, key@) == Some(v@),
{
    let mut pre = chars_of(key);
    push_str(" = \"", &mut pre);
    let ghost p = key@ + " = \""@;
    assert(pre@ =~= p);
    if line.len() <= pre.len() || line[line.len() - 1] != '"' {
        return None;
    }
    let mut i: usize = 0;
    while i < pre.len()
        invariant
            i <= pre.len() < line.len(),
            pre@ == key@ + " = \""@,
            forall|q: int| 0 <= q < i ==> line@[q] == pre@[q],
        decreases pre.len() - i,
    {
        if line[i] != pre[i] {
            assert(line@.take(pre.len() as int)[i as int] != pre@[i as int]);
            return None;
        }
        i = i + 1;
    }
    assert(line@.take(pre.len() as int) =~= pre@);
    let mut v: Vec<char> = Vec::new();
    let mut k: usize = pre.len();
    while k < line.len() - 1
        invariant
            pre.len() <= k <= line.len() - 1,
            v@ == line@.subrange(pre.len() as int, k as int),
        decreases line.len() - 1 - k,
    {
        v.push(line[k]);
        k = k + 1;
        assert(v@ =~= line@.subrange(pre.len() as int, k as int));
    }
    Some(v)
}

proof fn lemma_all_digits_of(v: Seq<char>)
    requires
        all_digits(v),
    ensures
        digits_of(v) == v,
    decreases v.len(),
{
    if v.len() > 0 {
        lemma_all_digits_of(v.drop_last());
        assert(v.drop_last().push(v.last()) =~= v);
    }
}

fn opt_field_of(v: &Vec<char>) -> (r: Result<Option<u16>, LawError>)
    ensures
        r == opt_field(v@),
{
    if v.len() == 2 && v[0] == '-' && v[1] == '1' {
        assert(v@ =~= seq!['-', '1']);
        return Ok(None);
    }
    assert(v@ != seq!['-', '1']);
    if v.len() == 0 {
        return Err(LawError::ParseError);
    }
    let mut i: usize = 0;
    while i < v.len()
        invariant
            i <= v.len(),
            v.len() > 0,
            v@ != seq!['-', '1'],
            forall|q: int| 0 <= q < i ==> is_digit(#[trigger] v@[q]),
        decreases v.len() - i,
    {
        if !('0' <= v[i] && v[i] <= '9') {
            assert(!is_digit(v@[i as int]));
            assert(!all_digits(v@));
            return Err(LawError::ParseError);
        }
        i = i + 1;
    }
    proof {
        lemma_all_digits_of(v@);
        assert(v@.subrange(0, v.len() as int) =~= v@);
    }
    match parse_digits(v, 0, v.len()) {
        Some(n) => if n <= 0xffff {
            Ok(Some(n as u16))
        } else {
            Err(LawError::ParseError)
        },
        None => Err(LawError::ParseError),
    }
}

fn etype_field_of(v: &Vec<char>) -> (r: Result<EmbeddingType, LawError>)
    ensures
        r == etype_field(v@),
{
    if same_chars(v, &chars_of("Total")) {
        Ok(EmbeddingType::Total)
    } else if same_chars(v, &chars_of("Average")) {
        Ok(EmbeddingType::Average)
    } else {
        Err(LawError::ParseError)
    }
}

/// Reads a reference record back into its address and embedding kind.
pub fn read_reference_file(content: &str) -> (r: Result<(LawIndex, EmbeddingType), LawError>)
    ensures
        match reference_of(content@) {
            Ok((i, e)) => r matches Ok((x, y)) && x@ == i && y == e,
            Err(err) => r == Err::<(LawIndex, EmbeddingType), LawError>(err),
        },
{
    let cs = chars_of(content);
    let ls = split_lines_of(&cs);
    let ghost lsv = nested_view(ls@);
    if ls.len() != 7 {
        return Err(LawError::ParseError);
    }
    assert(forall|k: int| 0 <= k < 7 ==> #[trigger] lsv[k] == ls@[k]@);
    let pais = line_value_of(&ls[0], "pais");
    let instrumento = line_value_of(&ls[1], "instrumento");
    let titulo = line_value_of(&ls[2], "titulo");
    let capitulo = line_value_of(&ls[3], "capitulo");
    let articulo = line_value_of(&ls[4], "articulo");
    let parte = line_value_of(&ls[5], "parte");
    let etype = line_value_of(&ls[6], "etype");
    match (pais, instrumento, titulo, capitulo, articulo, parte, etype) {
        (Some(v0), Some(v1), Some(v2), Some(v3), Some(v4), Some(v5), Some(v6)) => {
            assert(forall|k: int| 0 <= k < 7 ==> #[trigger] line_value(lsv[k], record_keys()[k]) is Some);
            let ghost v = Seq::new(7, |k: int| line_value(lsv[k], record_keys()[k])->Some_0);
            assert(v[0] == v0@ && v[1] == v1@ && v[2] == v2@ && v[3] == v3@ && v[4] == v4@ && v[5] == v5@ && v[6] == v6@);
            let t = opt_field_of(&v2)?;
            let c = opt_field_of(&v3)?;
            let a = opt_field_of(&v4)?;
            let p = opt_field_of(&v5)?;
            let e = etype_field_of(&v6)?;
            let index = LawIndex {
                book: LawBook {
                    pais: string_from_chars(v0.as_slice()),
                    instrumento: string_from_chars(v1.as_slice()),
                },
                titulo: t,
                capitulo: c,
                articulo: a,
                parte: p,
            };
            Ok((index, e))
        },
        _ => {
            assert(exists|k: int| 0 <= k < 7 && #[trigger] line_value(lsv[k], record_keys()[k]) is None);
            Err(LawError::ParseError)
        },
    }
}

} // verus!
