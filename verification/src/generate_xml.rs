use vstd::prelude::*;
use vstd::string::*;

use crate::error::Error;
use crate::escape_str::{escape_char_data, escape_seq};
use crate::read_csv::{
    extension_indices_of, field_pairs, kept_fields, row_matches, some_row_matches,
    standard_indices_of, CsvSource, Field, Record,
};
use crate::record_type::{record_type_name, RecordType};

verus! {

// ---------------------------------------------------------------------------
// Model: the document, element by element.
// ---------------------------------------------------------------------------

/// The start tag of an element.
pub open spec fn open_tag_seq(name: Seq<char>) -> Seq<char> {
    seq!['<'] + name + seq!['>']
}

/// The end tag of an element.
pub open spec fn close_tag_seq(name: Seq<char>) -> Seq<char> {
    seq!['<', '/'] + name + seq!['>']
}

/// One element: start tag, body, end tag.
pub open spec fn element_seq(name: Seq<char>, body: Seq<char>) -> Seq<char> {
    open_tag_seq(name) + body + close_tag_seq(name)
}

/// The elements of a field group, in order: one element per kept field, its
/// body the escaped value.
pub open spec fn fields_xml_seq(fs: Seq<(Seq<char>, Seq<char>)>) -> Seq<char>
    decreases fs.len(),
{
    if fs.len() == 0 {
        Seq::empty()
    } else {
        fields_xml_seq(fs.drop_last()) + element_seq(fs.last().0, escape_seq(fs.last().1))
    }
}

/// The extension wrapper: absent when no extension field was kept, otherwise
/// one `CustomerExtensions` element holding the kept extension fields.
pub open spec fn extensions_xml_seq(ext: Seq<(Seq<char>, Seq<char>)>) -> Seq<char> {
    if ext.len() == 0 {
        Seq::empty()
    } else {
        element_seq("CustomerExtensions"@, fields_xml_seq(ext))
    }
}

/// The body of a record element: the standard fields, then the extension
/// wrapper if any extension field was kept. Independent of the record kind.
pub open spec fn record_body_seq(
    std: Seq<(Seq<char>, Seq<char>)>,
    ext: Seq<(Seq<char>, Seq<char>)>,
) -> Seq<char> {
    fields_xml_seq(std) + extensions_xml_seq(ext)
}

/// One record element: the record kind names the element, the body holds the
/// kept fields.
pub open spec fn record_xml_seq(
    kind: Seq<char>,
    std: Seq<(Seq<char>, Seq<char>)>,
    ext: Seq<(Seq<char>, Seq<char>)>,
) -> Seq<char> {
    element_seq(kind, record_body_seq(std, ext))
}

/// The XML declaration that precedes every document.
pub open spec fn xml_decl_seq() -> Seq<char> {
    "<?xml version=\"1.0\" encoding=\"UTF-8\"?>"@
}

/// The record elements of all rows, in input order, each classified under
/// the header.
pub open spec fn records_xml_seq(
    kind: Seq<char>,
    hdr: Seq<Seq<char>>,
    rows: Seq<Seq<Seq<char>>>,
) -> Seq<char>
    decreases rows.len(),
{
    if rows.len() == 0 {
        Seq::empty()
    } else {
        records_xml_seq(kind, hdr, rows.drop_last()) + record_xml_seq(
            kind,
            kept_fields(hdr, rows.last(), standard_indices_of(hdr), 0),
            kept_fields(hdr, rows.last(), extension_indices_of(hdr), 5),
        )
    }
}

/// A whole document: declaration, root element named by the category, one
/// record element per row in input order.
pub open spec fn document_seq(
    category: Seq<char>,
    kind: Seq<char>,
    hdr: Seq<Seq<char>>,
    rows: Seq<Seq<Seq<char>>>,
) -> Seq<char> {
    xml_decl_seq() + open_tag_seq(category) + records_xml_seq(kind, hdr, rows) + close_tag_seq(
        category,
    )
}

/// A document cut short before the root element was closed: what remains in
/// the output when a run aborts after some whole number of records.
pub open spec fn truncated_document_seq(
    category: Seq<char>,
    kind: Seq<char>,
    hdr: Seq<Seq<char>>,
    rows: Seq<Seq<Seq<char>>>,
) -> Seq<char> {
    xml_decl_seq() + open_tag_seq(category) + records_xml_seq(kind, hdr, rows)
}

/// Every row has exactly as many fields as the header has columns.
pub open spec fn valid_rows(hdr: Seq<Seq<char>>, rows: Seq<Seq<Seq<char>>>) -> bool {
    forall|k: int| 0 <= k < rows.len() ==> (#[trigger] rows[k]).len() == hdr.len()
}

/// The output grew by exactly the document of some `n` valid rows.
pub open spec fn emitted_document(
    category: Seq<char>,
    kind: Seq<char>,
    hdr: Seq<Seq<char>>,
    prefix: Seq<char>,
    text: Seq<char>,
    n: int,
) -> bool {
    exists|rows: Seq<Seq<Seq<char>>>|
        {
            &&& #[trigger] valid_rows(hdr, rows)
            &&& n == rows.len()
            &&& text == prefix + document_seq(category, kind, hdr, rows)
        }
}

/// The output grew by the truncated document of some valid rows: the run
/// aborted and the root element was never closed.
pub open spec fn emitted_truncated(
    category: Seq<char>,
    kind: Seq<char>,
    hdr: Seq<Seq<char>>,
    prefix: Seq<char>,
    text: Seq<char>,
) -> bool {
    exists|rows: Seq<Seq<Seq<char>>>|
        {
            &&& #[trigger] valid_rows(hdr, rows)
            &&& text == prefix + truncated_document_seq(category, kind, hdr, rows)
        }
}

// ---------------------------------------------------------------------------
// Laws of the emitter.
// ---------------------------------------------------------------------------

/// A record with no kept extension field has no `CustomerExtensions` element:
/// its record element holds exactly the standard field elements.
pub proof fn lemma_no_extensions_no_wrapper(
    kind: Seq<char>,
    std: Seq<(Seq<char>, Seq<char>)>,
    ext: Seq<(Seq<char>, Seq<char>)>,
)
    requires
        ext.len() == 0,
    ensures
        record_xml_seq(kind, std, ext) == open_tag_seq(kind) + fields_xml_seq(std)
            + close_tag_seq(kind),
{
    assert(record_xml_seq(kind, std, ext) =~= open_tag_seq(kind) + fields_xml_seq(std)
        + close_tag_seq(kind));
}

/// The record kind changes only the name of the per-record element: for the
/// same kept fields, two kinds yield the same body between their tags.
pub proof fn lemma_record_kind_changes_only_name(
    kind_a: Seq<char>,
    kind_b: Seq<char>,
    std: Seq<(Seq<char>, Seq<char>)>,
    ext: Seq<(Seq<char>, Seq<char>)>,
)
    ensures
        record_xml_seq(kind_a, std, ext) == open_tag_seq(kind_a) + record_body_seq(std, ext)
            + close_tag_seq(kind_a),
        record_xml_seq(kind_b, std, ext) == open_tag_seq(kind_b) + record_body_seq(std, ext)
            + close_tag_seq(kind_b),
{
}

/// A zero-row input still yields a well-formed document: the declaration
/// followed by an empty root element, and nothing else.
pub proof fn lemma_empty_document(category: Seq<char>, kind: Seq<char>, hdr: Seq<Seq<char>>)
    ensures
        document_seq(category, kind, hdr, Seq::empty()) == xml_decl_seq() + open_tag_seq(category)
            + close_tag_seq(category),
{
    assert(records_xml_seq(kind, hdr, Seq::empty()) == Seq::<char>::empty());
    assert(document_seq(category, kind, hdr, Seq::empty()) =~= xml_decl_seq() + open_tag_seq(
        category,
    ) + close_tag_seq(category));
}

// ---------------------------------------------------------------------------
// Executable emitter.
// ---------------------------------------------------------------------------

/// Appends the XML declaration.
fn write_declaration(out: &mut String)
    ensures
        final(out)@ == old(out)@ + xml_decl_seq(),
{
    out.append("<?xml version=\"1.0\" encoding=\"UTF-8\"?>");
}

/// Appends the start tag of an element.
fn open_markup(out: &mut String, name: &str)
    ensures
        final(out)@ == old(out)@ + open_tag_seq(name@),
{
    out.append("<");
    out.append(name);
    out.append(">");
    proof {
        reveal_strlit("<");
        reveal_strlit(">");
        assert(final(out)@ =~= old(out)@ + open_tag_seq(name@));
    }
}

/// Appends the end tag of an element.
fn close_markup(out: &mut String, name: &str)
    ensures
        final(out)@ == old(out)@ + close_tag_seq(name@),
{
    out.append("</");
    out.append(name);
    out.append(">");
    proof {
        reveal_strlit("</");
        reveal_strlit(">");
        assert(final(out)@ =~= old(out)@ + close_tag_seq(name@));
    }
}

/// Appends a value as escaped character data.
fn write_text(out: &mut String, text: &str)
    ensures
        final(out)@ == old(out)@ + escape_seq(text@),
{
    let escaped = escape_char_data(text);
    out.append(escaped.as_str());
}

/// Appends one field as a complete element.
fn write_field(out: &mut String, field: &Field)
    ensures
        final(out)@ == old(out)@ + element_seq(field.tag@, escape_seq(field.value@)),
{
    open_markup(out, field.tag.as_str());
    write_text(out, field.value.as_str());
    close_markup(out, field.tag.as_str());
    proof {
        assert(final(out)@ =~= old(out)@ + element_seq(field.tag@, escape_seq(field.value@)));
    }
}

/// Appends the elements of one field group, in order.
fn write_fields(out: &mut String, fields: &Vec<Field>)
    ensures
        final(out)@ == old(out)@ + fields_xml_seq(field_pairs(fields@)),
{
    let ghost pairs = field_pairs(fields@);
    let m = fields.len();
    let mut k: usize = 0;
    while k < m
        invariant
            k <= m,
            m == fields@.len(),
            pairs == field_pairs(fields@),
            out@ == old(out)@ + fields_xml_seq(pairs.take(k as int)),
        decreases m - k,
    {
        write_field(out, &fields[k]);
        proof {
            assert(pairs.take(k + 1).drop_last() =~= pairs.take(k as int));
            assert(pairs.take(k + 1).last() == (fields@[k as int].tag@, fields@[k as int].value@));
            assert(out@ =~= old(out)@ + fields_xml_seq(pairs.take(k + 1)));
        }
        k = k + 1;
    }
    proof {
        assert(pairs.take(m as int) =~= pairs);
    }
}

/// Appends one record element: the kind names the element; the body holds
/// the kept standard fields and, only if at least one extension field was
/// kept, a single `CustomerExtensions` wrapper around the extension fields.
fn write_record(out: &mut String, record: &Record, record_type: &str)
    ensures
        final(out)@ == old(out)@ + record_xml_seq(
            record_type@,
            field_pairs(record.standard@),
            field_pairs(record.extensions@),
        ),
{
    let ghost std = field_pairs(record.standard@);
    let ghost ext = field_pairs(record.extensions@);
    open_markup(out, record_type);
    write_fields(out, &record.standard);
    if record.extensions.len() > 0 {
        open_markup(out, "CustomerExtensions");
        write_fields(out, &record.extensions);
        close_markup(out, "CustomerExtensions");
        proof {
            assert(ext.len() > 0);
            assert(extensions_xml_seq(ext) == element_seq("CustomerExtensions"@, fields_xml_seq(
                ext,
            )));
        }
    } else {
        proof {
            assert(ext.len() == 0);
        }
    }
    close_markup(out, record_type);
    proof {
        assert(final(out)@ =~= old(out)@ + record_xml_seq(record_type@, std, ext));
    }
}

/// Emits XML to `out`: one record element for each row that `reader` yields,
/// inside a single root element named by `category`. Returns the number of
/// records written. `category` is taken to be a valid XML name already; this
/// is the caller's responsibility and is not validated here. On an error the
/// run aborts and whatever was already emitted remains in `out`: the
/// document is truncated after a whole number of records, with the root
/// element never closed.
#[verifier::loop_isolation(false)]
pub fn generate_xml<R: std::io::Read>(
    out: &mut String,
    reader: CsvSource<R>,
    category: &str,
    record_type: RecordType,
) -> (res: Result<u64, Error>)
    requires
        reader.wf(),
    ensures
        res matches Ok(n) ==> emitted_document(
            category@,
            record_type_name(record_type),
            reader.header.deep_view(),
            old(out)@,
            final(out)@,
            n as int,
        ),
        res matches Err(e) ==> (e is Io || e is MalformedInput) && emitted_truncated(
            category@,
            record_type_name(record_type),
            reader.header.deep_view(),
            old(out)@,
            final(out)@,
        ),
{
    let ghost hv = reader.header.deep_view();
    let ghost kname = record_type_name(record_type);
    let mut src = reader;
    let kind = record_type.as_str();
    write_declaration(out);
    open_markup(out, category);
    let ghost mut rows: Seq<Seq<Seq<char>>> = Seq::empty();
    let mut count: u64 = 0;
    proof {
        assert(records_xml_seq(kname, hv, rows) == Seq::<char>::empty());
        assert(out@ =~= old(out)@ + truncated_document_seq(category@, kname, hv, rows));
    }
    loop
        invariant
            src.wf(),
            src.header.deep_view() == hv,
            kind@ == kname,
            kname == record_type_name(record_type),
            count as int == rows.len(),
            valid_rows(hv, rows),
            out@ == old(out)@ + truncated_document_seq(category@, kname, hv, rows),
        decreases u64::MAX - count,
    {
        match src.read_record() {
            Err(e) => {
                proof {
                    assert(emitted_truncated(category@, kname, hv, old(out)@, out@));
                }
                return Err(e);
            },
            Ok(None) => {
                close_markup(out, category);
                proof {
                    assert(out@ =~= old(out)@ + document_seq(category@, kname, hv, rows));
                    assert(emitted_document(category@, kname, hv, old(out)@, out@, count as int));
                }
                return Ok(count);
            },
            Ok(Some(rec)) => {
                if count == u64::MAX {
                    // The count cannot grow past its type; input with more
                    // rows than that is refused rather than miscounted.
                    proof {
                        assert(emitted_truncated(category@, kname, hv, old(out)@, out@));
                    }
                    return Err(Error::MalformedInput(String::from_str(
                        "more records than the record count can hold",
                    )));
                }
                proof {
                    assert(some_row_matches(hv, rec));
                }
                let ghost row = choose|row: Seq<Seq<char>>| #[trigger] row_matches(hv, row, rec);
                write_record(out, &rec, kind);
                proof {
                    assert(row_matches(hv, row, rec));
                    assert(rows.push(row).drop_last() =~= rows);
                    assert(rows.push(row).last() == row);
                    assert(records_xml_seq(kname, hv, rows.push(row)) == records_xml_seq(
                        kname,
                        hv,
                        rows,
                    ) + record_xml_seq(
                        kname,
                        kept_fields(hv, row, standard_indices_of(hv), 0),
                        kept_fields(hv, row, extension_indices_of(hv), 5),
                    ));
                    assert(out@ =~= old(out)@ + truncated_document_seq(
                        category@,
                        kname,
                        hv,
                        rows.push(row),
                    ));
                    rows = rows.push(row);
                }
                count = count + 1;
            },
        }
    }
}

} // verus!
