use vstd::prelude::*;
use crate::cryptography::{hex_lower, sha256_digest, sha256_of};
use crate::files::{field_line, join_lines, lemma_join_step};
use crate::text::{decimal, lower_of, lowercase, push_decimal, push_str, string_from_chars};

verus! {

/// An address in the content-addressed store: every hierarchy field is present.
#[derive(Debug, Clone)]
pub struct LawIndex {
    pub pais: String,
    pub instrumento: String,
    pub titulo: u16,
    pub capitulo: u16,
    pub articulo: u16,
    pub paragrafo: u16,
}

/// An address and the digest that names its document.
#[derive(Debug, Clone)]
pub struct DictumDocumentReference {
    pub dindex: LawIndex,
    pub dref: String,
}

/// The text that a document's digest is taken over:
/// `"{pais}.{instrumento}.{titulo}.{capitulo}.{articulo}.{paragrafo}={text}"`, with
/// country and instrument lower-cased.
pub open spec fn canonical_text(
    pais: Seq<char>,
    instrumento: Seq<char>,
    titulo: u16,
    capitulo: u16,
    articulo: u16,
    paragrafo: u16,
    text: Seq<char>,
) -> Seq<char> {
    lower_of(pais) + seq!['.'] + lower_of(instrumento) + seq!['.'] + decimal(titulo as nat) + seq!['.']
        + decimal(capitulo as nat) + seq!['.'] + decimal(articulo as nat) + seq!['.'] + decimal(
        paragrafo as nat,
    ) + seq!['='] + text
}

/// Builds the reference of a document: its lower-cased address and the SHA-256
/// digest, in hexadecimal, of its canonical text.
pub fn reference_fabric(
    pais: String,
    instrumento: String,
    titulo: u16,
    capitulo: u16,
    articulo: u16,
    paragrafo: u16,
    text: String,
) -> (r: DictumDocumentReference)
    ensures
        r.dindex.pais@ == lower_of(pais@),
        r.dindex.instrumento@ == lower_of(instrumento@),
        r.dindex.titulo == titulo,
        r.dindex.capitulo == capitulo,
        r.dindex.articulo == articulo,
        r.dindex.paragrafo == paragrafo,
        r.dref@ == hex_lower(
            sha256_of(
                vstd::utf8::encode_utf8(
                    canonical_text(pais@, instrumento@, titulo, capitulo, articulo, paragrafo, text@),
                ),
            ),
        ),
{
    let p = lowercase(pais.as_str());
    let i = lowercase(instrumento.as_str());
    let mut out: Vec<char> = Vec::new();
    push_str(p.as_str(), &mut out);
    out.push('.');
    push_str(i.as_str(), &mut out);
    out.push('.');
    push_decimal(titulo as u64, &mut out);
    out.push('.');
    push_decimal(capitulo as u64, &mut out);
    out.push('.');
    push_decimal(articulo as u64, &mut out);
    out.push('.');
    push_decimal(paragrafo as u64, &mut out);
    out.push('=');
    push_str(text.as_str(), &mut out);
    assert(out@ =~= canonical_text(pais@, instrumento@, titulo, capitulo, articulo, paragrafo, text@));
    let canonical = string_from_chars(out.as_slice());
    let dref = sha256_digest(canonical.as_str());
    DictumDocumentReference {
        dindex: LawIndex { pais: p, instrumento: i, titulo, capitulo, articulo, paragrafo },
        dref,
    }
}

/// The file stem of a document's reference record.
pub open spec fn reference_stem(i: LawIndex) -> Seq<char> {
    i.pais@ + seq!['.'] + i.instrumento@ + ".titulo-"@ + decimal(i.titulo as nat) + ".capitulo-"@
        + decimal(i.capitulo as nat) + ".articulo-"@ + decimal(i.articulo as nat) + ".paragrafo-"@
        + decimal(i.paragrafo as nat)
}

/// `"{pais}.{instrumento}.titulo-{t}.capitulo-{c}.articulo-{a}.paragrafo-{p}"`.
pub fn document_reference_filename(reference: &DictumDocumentReference) -> (r: String)
    ensures
        r@ == reference_stem(reference.dindex),
{
    let i = &reference.dindex;
    let mut out: Vec<char> = Vec::new();
    push_str(i.pais.as_str(), &mut out);
    out.push('.');
    push_str(i.instrumento.as_str(), &mut out);
    push_str(".titulo-", &mut out);
    push_decimal(i.titulo as u64, &mut out);
    push_str(".capitulo-", &mut out);
    push_decimal(i.capitulo as u64, &mut out);
    push_str(".articulo-", &mut out);
    push_decimal(i.articulo as u64, &mut out);
    push_str(".paragrafo-", &mut out);
    push_decimal(i.paragrafo as u64, &mut out);
    assert(out@ =~= reference_stem(*i));
    string_from_chars(out.as_slice())
}

/// The reference record of a document: `key = "value"` lines for the digest and
/// each field of the address.
pub open spec fn document_record(r: DictumDocumentReference) -> Seq<char> {
    join_lines(
        seq![
            field_line("dref"@, r.dref@),
            field_line("pais"@, r.dindex.pais@),
            field_line("instrumento"@, r.dindex.instrumento@),
            field_line("titulo"@, decimal(r.dindex.titulo as nat)),
            field_line("capitulo"@, decimal(r.dindex.capitulo as nat)),
            field_line("articulo"@, decimal(r.dindex.articulo as nat)),
            field_line("paragrafo"@, decimal(r.dindex.paragrafo as nat)),
        ],
    )
}

fn push_line(key: &str, value: &Vec<char>, out: &mut Vec<char>)
    ensures
        final(out)@ == old(out)@ + field_line(key@, value@),
{
    push_str(key, out);
    push_str(" = \"", out);
    let mut i: usize = 0;
    let ghost base = out@;
    while i < value.len()
        invariant
            i <= value.len(),
            out@ == base + value@.take(i as int),
        decreases value.len() - i,
    {
        out.push(value[i]);
        i = i + 1;
        assert(out@ =~= base + value@.take(i as int));
    }
    out.push('"');
    assert(value@.take(value.len() as int) =~= value@);
    assert(final(out)@ =~= old(out)@ + field_line(key@, value@));
}

fn decimal_chars(n: u16) -> (r: Vec<char>)
    ensures
        r@ == decimal(n as nat),
{
    let mut out: Vec<char> = Vec::new();
    push_decimal(n as u64, &mut out);
    assert(out@ =~= decimal(n as nat));
    out
}

fn text_chars(s: &str) -> (r: Vec<char>)
    ensures
        r@ == s@,
{
    let mut out: Vec<char> = Vec::new();
    push_str(s, &mut out);
    assert(out@ =~= s@);
    out
}

/// The reference record of a document.
pub fn document_reference_to_string(reference: &DictumDocumentReference) -> (r: String)
    ensures
        r@ == document_record(*reference),
{
    let i = &reference.dindex;
    let ghost ls = seq![
        field_line("dref"@, reference.dref@),
        field_line("pais"@, i.pais@),
        field_line("instrumento"@, i.instrumento@),
        field_line("titulo"@, decimal(i.titulo as nat)),
        field_line("capitulo"@, decimal(i.capitulo as nat)),
        field_line("articulo"@, decimal(i.articulo as nat)),
        field_line("paragrafo"@, decimal(i.paragrafo as nat)),
    ];
    let mut out: Vec<char> = Vec::new();
    push_line("dref", &text_chars(reference.dref.as_str()), &mut out);
    proof { lemma_join_step(ls, 1); }
    assert(out@ =~= join_lines(ls.take(1)));
    out.push('\n');
    push_line("pais", &text_chars(i.pais.as_str()), &mut out);
    assert(out@ =~= join_lines(ls.take(2)));
    out.push('\n');
    push_line("instrumento", &text_chars(i.instrumento.as_str()), &mut out);
    proof { lemma_join_step(ls, 2); }
    assert(out@ =~= join_lines(ls.take(3)));
    out.push('\n');
    push_line("titulo", &decimal_chars(i.titulo), &mut out);
    proof { lemma_join_step(ls, 3); }
    assert(out@ =~= join_lines(ls.take(4)));
    out.push('\n');
    push_line("capitulo", &decimal_chars(i.capitulo), &mut out);
    proof { lemma_join_step(ls, 4); }
    assert(out@ =~= join_lines(ls.take(5)));
    out.push('\n');
    push_line("articulo", &decimal_chars(i.articulo), &mut out);
    proof { lemma_join_step(ls, 5); }
    assert(out@ =~= join_lines(ls.take(6)));
    out.push('\n');
    push_line("paragrafo", &decimal_chars(i.paragrafo), &mut out);
    proof { lemma_join_step(ls, 6); }
    assert(out@ =~= join_lines(ls.take(7)));
    assert(ls.take(7) =~= ls);
    string_from_chars(out.as_slice())
}

} // verus!
