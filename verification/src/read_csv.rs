use vstd::prelude::*;
use vstd::string::*;

use crate::error::Error;

verus! {

/// Column names that begin with this prefix are customer extensions: they are
/// emitted under the `CustomerExtensions` wrapper with the prefix stripped.
pub const CUSTOMER_EXTENSION_PREFIX: &'static str = "CUEX_";

// ---------------------------------------------------------------------------
// Model: header-driven column classification.
// ---------------------------------------------------------------------------

/// A column name carries the reserved extension prefix `CUEX_`.
pub open spec fn is_extension_name(name: Seq<char>) -> bool {
    &&& name.len() >= 5
    &&& name[0] == 'C'
    &&& name[1] == 'U'
    &&& name[2] == 'E'
    &&& name[3] == 'X'
    &&& name[4] == '_'
}

/// The reserved prefix spelled out: a name is an extension name exactly when
/// its first five characters are `CUSTOMER_EXTENSION_PREFIX`.
pub proof fn lemma_extension_prefix(name: Seq<char>)
    ensures
        is_extension_name(name) <==> (name.len() >= 5 && name.take(5)
            == CUSTOMER_EXTENSION_PREFIX@),
{
    reveal_strlit("CUEX_");
    if name.len() >= 5 {
        if is_extension_name(name) {
            assert(name.take(5) =~= CUSTOMER_EXTENSION_PREFIX@);
        } else if name.take(5) == CUSTOMER_EXTENSION_PREFIX@ {
            assert(name[0] == name.take(5)[0]);
            assert(name[1] == name.take(5)[1]);
            assert(name[2] == name.take(5)[2]);
            assert(name[3] == name.take(5)[3]);
            assert(name[4] == name.take(5)[4]);
            assert(false);
        }
    }
}

/// The column indices of a header whose names carry the extension prefix, in
/// column order.
pub open spec fn extension_indices_of(h: Seq<Seq<char>>) -> Seq<int>
    decreases h.len(),
{
    if h.len() == 0 {
        Seq::empty()
    } else {
        extension_indices_of(h.drop_last()) + (if is_extension_name(h.last()) {
            seq![h.len() as int - 1]
        } else {
            Seq::empty()
        })
    }
}

/// The column indices of a header whose names do not carry the extension
/// prefix, in column order.
pub open spec fn standard_indices_of(h: Seq<Seq<char>>) -> Seq<int>
    decreases h.len(),
{
    if h.len() == 0 {
        Seq::empty()
    } else {
        standard_indices_of(h.drop_last()) + (if is_extension_name(h.last()) {
            Seq::empty()
        } else {
            seq![h.len() as int - 1]
        })
    }
}

/// The two groups partition the header's indices: an index is in the
/// extension group iff its name carries the prefix, in the standard group iff
/// it does not, and each group lists its indices in strictly increasing
/// column order.
pub proof fn lemma_classify_partition(h: Seq<Seq<char>>)
    ensures
        forall|x: int| #[trigger]
            standard_indices_of(h).contains(x) <==> (0 <= x < h.len() && !is_extension_name(h[x])),
        forall|x: int| #[trigger]
            extension_indices_of(h).contains(x) <==> (0 <= x < h.len() && is_extension_name(h[x])),
        forall|j: int, k: int|
            0 <= j < k < standard_indices_of(h).len() ==> #[trigger] standard_indices_of(h)[j]
                < #[trigger] standard_indices_of(h)[k],
        forall|j: int, k: int|
            0 <= j < k < extension_indices_of(h).len() ==> #[trigger] extension_indices_of(h)[j]
                < #[trigger] extension_indices_of(h)[k],
    decreases h.len(),
{
    if h.len() == 0 {
        assert(standard_indices_of(h).len() == 0);
        assert(extension_indices_of(h).len() == 0);
    } else {
        let h0 = h.drop_last();
        lemma_classify_partition(h0);
        lemma_group_step(h, standard_indices_of(h0), standard_indices_of(h), false);
        lemma_group_step(h, extension_indices_of(h0), extension_indices_of(h), true);
    }
}

/// One induction step shared by both groups: extending the header by its last
/// column appends that column's index to the matching group and leaves the
/// other unchanged.
proof fn lemma_group_step(h: Seq<Seq<char>>, prev: Seq<int>, cur: Seq<int>, ext: bool)
    requires
        h.len() > 0,
        prev == if ext {
            extension_indices_of(h.drop_last())
        } else {
            standard_indices_of(h.drop_last())
        },
        cur == if ext {
            extension_indices_of(h)
        } else {
            standard_indices_of(h)
        },
        forall|x: int| #[trigger]
            prev.contains(x) <==> (0 <= x < h.len() - 1 && (if ext {
                is_extension_name(h.drop_last()[x])
            } else {
                !is_extension_name(h.drop_last()[x])
            })),
        forall|j: int, k: int| 0 <= j < k < prev.len() ==> #[trigger] prev[j] < #[trigger] prev[k],
    ensures
        forall|x: int| #[trigger]
            cur.contains(x) <==> (0 <= x < h.len() && (if ext {
                is_extension_name(h[x])
            } else {
                !is_extension_name(h[x])
            })),
        forall|j: int, k: int| 0 <= j < k < cur.len() ==> #[trigger] cur[j] < #[trigger] cur[k],
{
    let last = h.len() as int - 1;
    let keeps = if ext {
        is_extension_name(h.last())
    } else {
        !is_extension_name(h.last())
    };
    assert(forall|x: int| 0 <= x < h.len() - 1 ==> h.drop_last()[x] == h[x]);
    if keeps {
        assert(cur =~= prev.push(last));
    } else {
        assert(cur =~= prev);
    }
    assert forall|x: int| #[trigger]
        cur.contains(x) <==> (0 <= x < h.len() && (if ext {
            is_extension_name(h[x])
        } else {
            !is_extension_name(h[x])
        })) by {
        if cur.contains(x) {
            let w = choose|w: int| 0 <= w < cur.len() && cur[w] == x;
            if keeps && w == cur.len() - 1 {
                assert(x == last);
            } else {
                assert(prev[w] == x);
                assert(prev.contains(x));
            }
        }
        if 0 <= x < h.len() && (if ext {
            is_extension_name(h[x])
        } else {
            !is_extension_name(h[x])
        }) {
            if x == last {
                assert(keeps);
                assert(cur[cur.len() - 1] == x);
            } else {
                assert(prev.contains(x));
                let w = choose|w: int| 0 <= w < prev.len() && prev[w] == x;
                assert(cur[w] == x);
            }
        }
    }
    assert forall|j: int, k: int| 0 <= j < k < cur.len() implies #[trigger] cur[j]
        < #[trigger] cur[k] by {
        if keeps && k == cur.len() - 1 {
            assert(prev[j] == cur[j]);
            assert(prev.contains(prev[j]));
            assert(cur[k] == last);
        } else {
            assert(prev[j] == cur[j] && prev[k] == cur[k]);
        }
    }
}

// ---------------------------------------------------------------------------
// Executable classifier.
// ---------------------------------------------------------------------------

/// The name starts with the reserved extension prefix.
fn starts_with_extension_prefix(name: &str) -> (r: bool)
    ensures
        r == is_extension_name(name@),
{
    let n = name.unicode_len();
    if n < 5 {
        return false;
    }
    name.get_char(0) == 'C' && name.get_char(1) == 'U' && name.get_char(2) == 'E'
        && name.get_char(3) == 'X' && name.get_char(4) == '_'
}

/// Partitions the header's column indices into the standard group and the
/// extension group, each in column order. An empty header yields two empty
/// groups; there is no error condition.
pub fn classify(header: &Vec<String>) -> (r: (Vec<usize>, Vec<usize>))
    ensures
        r.0@.map_values(|u: usize| u as int) == standard_indices_of(header.deep_view()),
        r.1@.map_values(|u: usize| u as int) == extension_indices_of(header.deep_view()),
{
    let ghost hv = header.deep_view();
    let mut standard: Vec<usize> = Vec::new();
    let mut extensions: Vec<usize> = Vec::new();
    let n = header.len();
    let mut i: usize = 0;
    while i < n
        invariant
            i <= n,
            n == header@.len(),
            hv == header.deep_view(),
            standard@.map_values(|u: usize| u as int) == standard_indices_of(hv.take(i as int)),
            extensions@.map_values(|u: usize| u as int) == extension_indices_of(hv.take(i as int)),
        decreases n - i,
    {
        proof {
            assert(hv.take(i + 1).drop_last() =~= hv.take(i as int));
            assert(hv.take(i + 1).last() == header@[i as int]@);
        }
        if starts_with_extension_prefix(header[i].as_str()) {
            let ghost old_ext = extensions@;
            extensions.push(i);
            proof {
                assert(extensions@.map_values(|u: usize| u as int) =~= old_ext.map_values(
                    |u: usize| u as int,
                ).push(i as int));
                assert(extension_indices_of(hv.take(i + 1)) =~= extension_indices_of(
                    hv.take(i as int),
                ).push(i as int));
                assert(standard_indices_of(hv.take(i + 1)) =~= standard_indices_of(
                    hv.take(i as int),
                ));
            }
        } else {
            let ghost old_std = standard@;
            standard.push(i);
            proof {
                assert(standard@.map_values(|u: usize| u as int) =~= old_std.map_values(
                    |u: usize| u as int,
                ).push(i as int));
                assert(standard_indices_of(hv.take(i + 1)) =~= standard_indices_of(
                    hv.take(i as int),
                ).push(i as int));
                assert(extension_indices_of(hv.take(i + 1)) =~= extension_indices_of(
                    hv.take(i as int),
                ));
            }
        }
        i = i + 1;
    }
    proof {
        assert(hv.take(n as int) =~= hv);
    }
    (standard, extensions)
}

// ---------------------------------------------------------------------------
// Fields and records.
// ---------------------------------------------------------------------------

/// One (tag name, value) pair derived from a row column and its
/// classification.
pub struct Field {
    /// The element name the value is emitted under.
    pub tag: String,
    /// The character data of the element.
    pub value: String,
}

/// The model of a field list: the (tag, value) pairs as character sequences.
pub open spec fn field_pairs(fs: Seq<Field>) -> Seq<(Seq<char>, Seq<char>)> {
    fs.map_values(|f: Field| (f.tag@, f.value@))
}

/// The fields kept from one row for one index group: for each index in
/// order, the pair of the column name with `strip` leading characters
/// removed and the row's value there — except that columns whose value is
/// the empty string are treated as null and kept out.
pub open spec fn kept_fields(
    names: Seq<Seq<char>>,
    values: Seq<Seq<char>>,
    idxs: Seq<int>,
    strip: int,
) -> Seq<(Seq<char>, Seq<char>)>
    decreases idxs.len(),
{
    if idxs.len() == 0 {
        Seq::empty()
    } else {
        kept_fields(names, values, idxs.drop_last(), strip) + ({
            let i = idxs.last();
            if values[i].len() == 0 {
                Seq::empty()
            } else {
                seq![(names[i].skip(strip), values[i])]
            }
        })
    }
}

/// Every kept field has a non-empty value: a column set to the empty string
/// contributes nothing, whichever group it is in.
pub proof fn lemma_kept_fields_nonempty(
    names: Seq<Seq<char>>,
    values: Seq<Seq<char>>,
    idxs: Seq<int>,
    strip: int,
)
    ensures
        forall|k: int|
            0 <= k < kept_fields(names, values, idxs, strip).len() ==> (#[trigger] kept_fields(
                names,
                values,
                idxs,
                strip,
            )[k]).1.len() != 0,
    decreases idxs.len(),
{
    if idxs.len() > 0 {
        lemma_kept_fields_nonempty(names, values, idxs.drop_last(), strip);
        let prefix = kept_fields(names, values, idxs.drop_last(), strip);
        let whole = kept_fields(names, values, idxs, strip);
        let i = idxs.last();
        assert forall|k: int| 0 <= k < whole.len() implies (#[trigger] whole[k]).1.len() != 0 by {
            if values[i].len() == 0 {
                assert(whole =~= prefix);
                assert(whole[k] == prefix[k]);
            } else if k < prefix.len() {
                assert(whole[k] == prefix[k]);
            } else {
                assert(whole[k] == (names[i].skip(strip), values[i]));
            }
        }
    }
}

/// Collects the kept fields of one index group from a row.
fn collect_fields(header: &Vec<String>, row: &Vec<String>, idxs: &Vec<usize>, strip: usize) -> (r:
    Vec<Field>)
    requires
        forall|j: int| 0 <= j < idxs@.len() ==> (#[trigger] idxs@[j]) < header@.len(),
        forall|j: int| 0 <= j < idxs@.len() ==> (#[trigger] idxs@[j]) < row@.len(),
        forall|j: int| 0 <= j < idxs@.len() ==> strip <= header@[#[trigger] idxs@[j] as int]@.len(),
    ensures
        field_pairs(r@) == kept_fields(
            header.deep_view(),
            row.deep_view(),
            idxs@.map_values(|u: usize| u as int),
            strip as int,
        ),
{
    let ghost hv = header.deep_view();
    let ghost rv = row.deep_view();
    let ghost iv = idxs@.map_values(|u: usize| u as int);
    let mut fields: Vec<Field> = Vec::new();
    let m = idxs.len();
    let mut k: usize = 0;
    while k < m
        invariant
            k <= m,
            m == idxs@.len(),
            hv == header.deep_view(),
            rv == row.deep_view(),
            iv == idxs@.map_values(|u: usize| u as int),
            forall|j: int| 0 <= j < idxs@.len() ==> (#[trigger] idxs@[j]) < header@.len(),
            forall|j: int| 0 <= j < idxs@.len() ==> (#[trigger] idxs@[j]) < row@.len(),
            forall|j: int|
                0 <= j < idxs@.len() ==> strip <= header@[#[trigger] idxs@[j] as int]@.len(),
            field_pairs(fields@) == kept_fields(hv, rv, iv.take(k as int), strip as int),
        decreases m - k,
    {
        let idx = idxs[k];
        proof {
            assert(iv.take(k + 1).drop_last() =~= iv.take(k as int));
            assert(iv.take(k + 1).last() == idx as int);
            assert(rv[idx as int] == row@[idx as int]@);
            assert(hv[idx as int] == header@[idx as int]@);
        }
        if !row[idx].as_str().is_empty() {
            let tag = if strip == 0 {
                let t = header[idx].clone();
                proof {
                    assert(t@ =~= hv[idx as int].skip(strip as int));
                }
                t
            } else {
                let name = header[idx].as_str();
                let n = name.unicode_len();
                let t = name.substring_char(strip, n).to_owned();
                proof {
                    assert(t@ =~= hv[idx as int].skip(strip as int));
                }
                t
            };
            let value = row[idx].clone();
            let ghost old_fields = fields@;
            fields.push(Field { tag, value });
            proof {
                assert(field_pairs(fields@) =~= field_pairs(old_fields).push(
                    (hv[idx as int].skip(strip as int), rv[idx as int]),
                ));
                assert(kept_fields(hv, rv, iv.take(k + 1), strip as int) =~= kept_fields(
                    hv,
                    rv,
                    iv.take(k as int),
                    strip as int,
                ).push((hv[idx as int].skip(strip as int), rv[idx as int])));
            }
        } else {
            proof {
                assert(kept_fields(hv, rv, iv.take(k + 1), strip as int) =~= kept_fields(
                    hv,
                    rv,
                    iv.take(k as int),
                    strip as int,
                ));
            }
        }
        k = k + 1;
    }
    proof {
        assert(iv.take(m as int) =~= iv);
    }
    fields
}

/// One data record: a single row paired with the header's classification,
/// ready to be emitted as one XML element.
pub struct Record {
    /// The kept standard fields, in column order.
    pub standard: Vec<Field>,
    /// The kept extension fields, prefix stripped, in column order.
    pub extensions: Vec<Field>,
}

impl Record {
    /// The kept standard fields, in column order.
    pub fn standard(&self) -> (r: &Vec<Field>)
        ensures
            r == &self.standard,
    {
        &self.standard
    }

    /// The kept extension fields, prefix stripped, in column order.
    pub fn extensions(&self) -> (r: &Vec<Field>)
        ensures
            r == &self.extensions,
    {
        &self.extensions
    }
}

/// `rec` is the classified form of the row `row` under the header `hdr`: the
/// row is as wide as the header, and each group holds exactly the kept
/// fields of its index group (the extension group with the five prefix
/// characters stripped from the tag names).
pub open spec fn row_matches(hdr: Seq<Seq<char>>, row: Seq<Seq<char>>, rec: Record) -> bool {
    &&& row.len() == hdr.len()
    &&& field_pairs(rec.standard@) == kept_fields(hdr, row, standard_indices_of(hdr), 0)
    &&& field_pairs(rec.extensions@) == kept_fields(hdr, row, extension_indices_of(hdr), 5)
}

/// `rec` is the classified form of some row of the header's width.
pub open spec fn some_row_matches(hdr: Seq<Seq<char>>, rec: Record) -> bool {
    exists|row: Seq<Seq<char>>| #[trigger] row_matches(hdr, row, rec)
}

// ---------------------------------------------------------------------------
// The row source over the csv crate.
// ---------------------------------------------------------------------------

#[verifier::external_type_specification]
#[verifier::external_body]
#[verifier::reject_recursive_types(R)]
pub struct ExCsvReader<R>(csv::Reader<R>);

/// Relies on csv::ReaderBuilder::{new, delimiter, from_reader}: builds a
/// reader over the input stream that splits fields on `delimiter`, with
/// ragged-row protection on; the header row is consumed by the first read.
#[verifier::external_body]
fn csv_reader_from<R: std::io::Read>(input: R, delimiter: u8) -> csv::Reader<R> {
    csv::ReaderBuilder::new().delimiter(delimiter).from_reader(input)
}

/// Relies on csv::Reader::headers: yields the first row of the stream (an
/// empty record when the stream holds no data), or a csv::Error that either
/// wraps an I/O failure (`is_io_error`) or describes unparsable input.
#[verifier::external_body]
fn csv_headers<R: std::io::Read>(reader: &mut csv::Reader<R>) -> (res: Result<Vec<String>, Error>)
    ensures
        res matches Err(e) ==> e is Io || e is MalformedInput,
{
    match reader.headers() {
        Ok(rec) => Ok(rec.iter().map(|f| f.to_string()).collect::<Vec<String>>()),
        Err(e) => Err(
            if e.is_io_error() {
                Error::Io(e.to_string())
            } else {
                Error::MalformedInput(e.to_string())
            },
        ),
    }
}

/// Relies on csv::Reader::read_record: reads the next row, returning false
/// at end of input; width and quoting faults come back as csv::Error values,
/// I/O failures as their Io kind (`is_io_error`).
#[verifier::external_body]
fn csv_next_row<R: std::io::Read>(reader: &mut csv::Reader<R>) -> (res: Result<
    Option<Vec<String>>,
    Error,
>)
    ensures
        res matches Err(e) ==> e is Io || e is MalformedInput,
{
    let mut record = csv::StringRecord::new();
    match reader.read_record(&mut record) {
        Ok(true) => Ok(Some(record.iter().map(|f| f.to_string()).collect::<Vec<String>>())),
        Ok(false) => Ok(None),
        Err(e) => Err(
            if e.is_io_error() {
                Error::Io(e.to_string())
            } else {
                Error::MalformedInput(e.to_string())
            },
        ),
    }
}

/// Holds the state needed to parse the input row by row: the underlying
/// reader, the header, and the classification computed once from it.
#[verifier::reject_recursive_types(R)]
pub struct CsvSource<R> {
    /// The underlying delimited-text reader; opaque to the contracts.
    pub reader: csv::Reader<R>,
    /// Names of the columns, from the first input row.
    pub header: Vec<String>,
    /// Indices of standard columns, in column order.
    pub standard: Vec<usize>,
    /// Indices of extension columns, in column order.
    pub extensions: Vec<usize>,
}

impl<R> CsvSource<R> {
    /// The source is well-formed: the header is non-empty and the two index
    /// groups are exactly its classification.
    pub open spec fn wf(&self) -> bool {
        &&& self.header@.len() > 0
        &&& self.standard@.map_values(|u: usize| u as int) == standard_indices_of(
            self.header.deep_view(),
        )
        &&& self.extensions@.map_values(|u: usize| u as int) == extension_indices_of(
            self.header.deep_view(),
        )
    }
}

impl<R: std::io::Read> CsvSource<R> {
    /// Creates a source from a byte-readable stream and a single-byte field
    /// delimiter, reading and classifying the header row. Only ASCII
    /// delimiters are supported; a stream exhausted before a header row is
    /// malformed input.
    pub fn new(input: R, delimiter: u8) -> (res: Result<CsvSource<R>, Error>)
        ensures
            match res {
                Ok(s) => s.wf() && delimiter < 128,
                Err(e) => (e is ConfigurationError <==> delimiter >= 128),
            },
    {
        if delimiter >= 128 {
            return Err(Error::ConfigurationError(String::from_str(
                "only ASCII delimiters are supported",
            )));
        }
        let mut reader = csv_reader_from(input, delimiter);
        let header = match csv_headers(&mut reader) {
            Ok(h) => h,
            Err(e) => {
                return Err(e);
            },
        };
        if header.len() == 0 {
            return Err(Error::MalformedInput(String::from_str(
                "input ended before a header row was produced",
            )));
        }
        let (standard, extensions) = classify(&header);
        Ok(CsvSource { reader, header, standard, extensions })
    }

    /// Returns the next row as a classified record, or `None` at end of
    /// input. A row whose width differs from the header's is malformed
    /// input. The header and its classification are not touched.
    pub fn read_record(&mut self) -> (res: Result<Option<Record>, Error>)
        requires
            old(self).wf(),
        ensures
            final(self).wf(),
            final(self).header == old(self).header,
            final(self).standard == old(self).standard,
            final(self).extensions == old(self).extensions,
            res matches Ok(Some(rec)) ==> some_row_matches(old(self).header.deep_view(), rec),
            res matches Err(e) ==> e is Io || e is MalformedInput,
    {
        let ghost hv = self.header.deep_view();
        match csv_next_row(&mut self.reader) {
            Err(e) => Err(e),
            Ok(None) => Ok(None),
            Ok(Some(row)) => {
                if row.len() != self.header.len() {
                    return Err(Error::MalformedInput(String::from_str(
                        "row width differs from header width",
                    )));
                }
                proof {
                    lemma_classify_partition(hv);
                    let sm = self.standard@.map_values(|u: usize| u as int);
                    let em = self.extensions@.map_values(|u: usize| u as int);
                    assert(hv.len() == self.header@.len());
                    assert forall|j: int|
                        0 <= j < self.standard@.len() implies (#[trigger] self.standard@[j])
                        < self.header@.len() by {
                        assert(sm[j] == self.standard@[j] as int);
                        assert(sm.contains(sm[j]));
                    }
                    assert forall|j: int|
                        0 <= j < self.extensions@.len() implies (#[trigger] self.extensions@[j])
                        < self.header@.len() && is_extension_name(
                        hv[self.extensions@[j] as int],
                    ) by {
                        assert(em[j] == self.extensions@[j] as int);
                        assert(em.contains(em[j]));
                        assert(hv[self.extensions@[j] as int] == self.header@[self.extensions@[j] as int]@);
                    }
                    assert forall|j: int|
                        0 <= j < self.extensions@.len() implies 5 <= self.header@[#[trigger] self.extensions@[j] as int]@.len() by {
                        assert(is_extension_name(hv[self.extensions@[j] as int]));
                        assert(hv[self.extensions@[j] as int] == self.header@[self.extensions@[j] as int]@);
                    }
                }
                let standard_fields = collect_fields(&self.header, &row, &self.standard, 0);
                let extension_fields = collect_fields(&self.header, &row, &self.extensions, 5);
                let rec = Record { standard: standard_fields, extensions: extension_fields };
                proof {
                    assert(row_matches(old(self).header.deep_view(), row.deep_view(), rec));
                    assert(some_row_matches(old(self).header.deep_view(), rec));
                }
                Ok(Some(rec))
            },
        }
    }
}

} // verus!
