use di_csv2xml::error::Error;
use di_csv2xml::escape_str::{escape_char_data, mask};
use di_csv2xml::generate_xml::generate_xml;
use di_csv2xml::io_arg::{delimiter_byte, has_gz_extension, IoArg};
use di_csv2xml::read_csv::{classify, CsvSource, CUSTOMER_EXTENSION_PREFIX};
use di_csv2xml::record_type::RecordType;

const XML_DECL: &str = "<?xml version=\"1.0\" encoding=\"UTF-8\"?>";

fn convert(
    csv: &str,
    category: &str,
    record_type: RecordType,
    delimiter: u8,
) -> Result<(String, u64), Error> {
    let source = CsvSource::new(csv.as_bytes(), delimiter)?;
    let mut out = String::new();
    let count = generate_xml(&mut out, source, category, record_type)?;
    Ok((out, count))
}

#[test]
fn simple() {
    let input = "header1,header2,header3\n\
                 1,2,3\n\
                 4,5,6\n";
    let (out, count) = convert(input, "Category", RecordType::Record, b',').unwrap();
    let expected = format!(
        "{}<Category>\
         <Record><header1>1</header1><header2>2</header2><header3>3</header3></Record>\
         <Record><header1>4</header1><header2>5</header2><header3>6</header3></Record>\
         </Category>",
        XML_DECL
    );
    assert_eq!(out, expected);
    assert_eq!(count, 2);
}

#[test]
fn mask_text() {
    let input = "Note\n\"5 < 10 & \"\"ok\"\"\"\n";
    let (out, count) = convert(input, "Text", RecordType::Record, b',').unwrap();
    let expected = format!(
        "{}<Text><Record><Note>5 &lt; 10 &amp; &quot;ok&quot;</Note></Record></Text>",
        XML_DECL
    );
    assert_eq!(out, expected);
    assert_eq!(count, 1);
}

#[test]
fn semicolon_delimiter() {
    let input = "header1;header2\nfirst;second\n";
    let (out, _) = convert(input, "Category", RecordType::Record, b';').unwrap();
    let expected = format!(
        "{}<Category><Record><header1>first</header1><header2>second</header2></Record></Category>",
        XML_DECL
    );
    assert_eq!(out, expected);
}

#[test]
fn delete_record() {
    let input = "A,CUEX_B\nx,y\n";
    let (out, _) = convert(input, "Root", RecordType::DeleteRecord, b',').unwrap();
    let expected = format!(
        "{}<Root><DeleteRecord><A>x</A>\
         <CustomerExtensions><B>y</B></CustomerExtensions>\
         </DeleteRecord></Root>",
        XML_DECL
    );
    assert_eq!(out, expected);
}

#[test]
fn delete_all() {
    let input = "A,CUEX_B\nx,y\n";
    let (out, _) = convert(input, "Root", RecordType::DeleteAllRecords, b',').unwrap();
    let expected = format!(
        "{}<Root><DeleteAllRecords><A>x</A>\
         <CustomerExtensions><B>y</B></CustomerExtensions>\
         </DeleteAllRecords></Root>",
        XML_DECL
    );
    assert_eq!(out, expected);
}

#[test]
fn customer_extensions() {
    // Two extension columns, one of them empty in the second row: the wrapper
    // holds only non-empty extension fields and vanishes when none is left.
    let input = "Name,CUEX_Color,CUEX_Size\nball,red,large\ncube,,\n";
    let (out, count) = convert(input, "Root", RecordType::Record, b',').unwrap();
    let expected = format!(
        "{}<Root>\
         <Record><Name>ball</Name>\
         <CustomerExtensions><Color>red</Color><Size>large</Size></CustomerExtensions>\
         </Record>\
         <Record><Name>cube</Name></Record>\
         </Root>",
        XML_DECL
    );
    assert_eq!(out, expected);
    assert_eq!(count, 2);
}

#[test]
fn empty_extension_field_suppressed() {
    // Header `Category,CUEX_Foo`, one row `Bar,`: the empty extension field
    // is absent and so is the whole CustomerExtensions wrapper.
    let input = "Category,CUEX_Foo\nBar,\n";
    let (out, count) = convert(input, "Root", RecordType::Record, b',').unwrap();
    let expected = format!(
        "{}<Root><Record><Category>Bar</Category></Record></Root>",
        XML_DECL
    );
    assert_eq!(out, expected);
    assert_eq!(count, 1);
}

#[test]
fn empty_standard_field_suppressed() {
    let input = "A,B,C\n,middle,\n";
    let (out, _) = convert(input, "Root", RecordType::Record, b',').unwrap();
    let expected = format!("{}<Root><Record><B>middle</B></Record></Root>", XML_DECL);
    assert_eq!(out, expected);
}

#[test]
fn extension_field_wrapped() {
    // Header `A,CUEX_B`, row `x,y`: the extension field is wrapped, prefix
    // stripped from its tag name.
    let input = "A,CUEX_B\nx,y\n";
    let (out, count) = convert(input, "Root", RecordType::Record, b',').unwrap();
    let expected = format!(
        "{}<Root><Record><A>x</A><CustomerExtensions><B>y</B></CustomerExtensions></Record></Root>",
        XML_DECL
    );
    assert_eq!(out, expected);
    assert_eq!(count, 1);
}

#[test]
fn record_kind_changes_only_element_name() {
    let input = "A,CUEX_B\nx,y\nq,\n";
    let (with_record, n1) = convert(input, "Root", RecordType::Record, b',').unwrap();
    let (with_delete_all, n2) = convert(input, "Root", RecordType::DeleteAllRecords, b',').unwrap();
    assert_eq!(n1, n2);
    let renamed = with_record
        .replace("<Record>", "<DeleteAllRecords>")
        .replace("</Record>", "</DeleteAllRecords>");
    assert_eq!(with_delete_all, renamed);
}

#[test]
fn zero_rows_valid_document() {
    let input = "A,B\n";
    let (out, count) = convert(input, "Root", RecordType::Record, b',').unwrap();
    let expected = format!("{}<Root></Root>", XML_DECL);
    assert_eq!(out, expected);
    assert_eq!(count, 0);
}

#[test]
fn escape_value_example() {
    assert_eq!(
        escape_char_data("5 < 10 & \"ok\""),
        "5 &lt; 10 &amp; &quot;ok&quot;"
    );
}

#[test]
fn escape_all_five() {
    assert_eq!(escape_char_data("<>\"'&"), "&lt;&gt;&quot;&apos;&amp;");
}

#[test]
fn escape_identity_on_plain_text() {
    let plain = "nothing to escape here, not even in unicode: åß∂𝄞";
    assert_eq!(escape_char_data(plain), plain);
}

#[test]
fn escape_is_not_idempotent() {
    // By design: escaping an already-escaped form double-escapes the `&`.
    let once = escape_char_data("&");
    assert_eq!(once, "&amp;");
    assert_eq!(escape_char_data(once.as_str()), "&amp;amp;");
}

#[test]
fn escape_round_trips_through_xml_reader() {
    let raw = "a < b & c > d, 'quoted' \"twice\", funky: \u{1F600} & <tags/>";
    let escaped = escape_char_data(raw);
    let decoded = quick_xml::escape::unescape(escaped.as_str()).unwrap();
    assert_eq!(decoded.as_ref(), raw);
}

#[test]
fn mask_matches_entities() {
    assert_eq!(mask('<'), Some("&lt;"));
    assert_eq!(mask('>'), Some("&gt;"));
    assert_eq!(mask('"'), Some("&quot;"));
    assert_eq!(mask('\''), Some("&apos;"));
    assert_eq!(mask('&'), Some("&amp;"));
    assert_eq!(mask('a'), None);
}

#[test]
fn classify_partitions_header() {
    let header = vec![
        String::from("A"),
        String::from("CUEX_B"),
        String::from("C"),
        String::from("CUEX_"),
        String::from("cuex_not"),
    ];
    let (standard, extensions) = classify(&header);
    assert_eq!(standard, vec![0usize, 2, 4]);
    assert_eq!(extensions, vec![1usize, 3]);
    assert_eq!(CUSTOMER_EXTENSION_PREFIX, "CUEX_");
}

#[test]
fn classify_empty_header() {
    let header: Vec<String> = Vec::new();
    let (standard, extensions) = classify(&header);
    assert!(standard.is_empty());
    assert!(extensions.is_empty());
}

#[test]
fn record_type_literals() {
    assert_eq!(RecordType::as_str(&RecordType::Record), "Record");
    assert_eq!(RecordType::as_str(&RecordType::DeleteRecord), "DeleteRecord");
    assert_eq!(
        RecordType::as_str(&RecordType::DeleteAllRecords),
        "DeleteAllRecords"
    );
    assert!(matches!(
        RecordType::from_str("Record"),
        Ok(RecordType::Record)
    ));
    assert!(matches!(
        RecordType::from_str("DeleteRecord"),
        Ok(RecordType::DeleteRecord)
    ));
    assert!(matches!(
        RecordType::from_str("DeleteAllRecords"),
        Ok(RecordType::DeleteAllRecords)
    ));
    assert!(matches!(
        RecordType::from_str("record"),
        Err(Error::ConfigurationError(_))
    ));
}

#[test]
fn ragged_row_is_malformed_input() {
    let input = "A,B\nonly-one\n";
    let err = convert(input, "Root", RecordType::Record, b',').unwrap_err();
    assert!(matches!(err, Error::MalformedInput(_)));
}

#[test]
fn empty_input_rejected() {
    let err = match CsvSource::new("".as_bytes(), b',') {
        Ok(_) => panic!("empty input must be rejected"),
        Err(e) => e,
    };
    assert!(matches!(err, Error::MalformedInput(_)));
}

#[test]
fn non_ascii_delimiter_rejected() {
    let err = match CsvSource::new("A,B\n".as_bytes(), 0xE9) {
        Ok(_) => panic!("non-ASCII delimiter must be rejected"),
        Err(e) => e,
    };
    assert!(matches!(err, Error::ConfigurationError(_)));
    let err = delimiter_byte('\u{0100}').unwrap_err();
    assert!(matches!(err, Error::ConfigurationError(_)));
    assert_eq!(delimiter_byte(';').unwrap(), b';');
    assert_eq!(delimiter_byte(',').unwrap(), b',');
}

#[test]
fn quoted_field_with_delimiter() {
    let input = "A,B\n\"x,y\",z\n";
    let (out, _) = convert(input, "Root", RecordType::Record, b',').unwrap();
    let expected = format!("{}<Root><Record><A>x,y</A><B>z</B></Record></Root>", XML_DECL);
    assert_eq!(out, expected);
}

#[test]
fn crlf_rows_accepted() {
    let input = "A,B\r\n1,2\r\n";
    let (out, _) = convert(input, "Root", RecordType::Record, b',').unwrap();
    let expected = format!("{}<Root><Record><A>1</A><B>2</B></Record></Root>", XML_DECL);
    assert_eq!(out, expected);
}

/// A reader that hands out its data and then fails, to exercise the Io
/// error path.
struct ReadThenFail {
    data: &'static [u8],
    pos: usize,
}

impl std::io::Read for ReadThenFail {
    fn read(&mut self, buf: &mut [u8]) -> std::io::Result<usize> {
        if self.pos < self.data.len() {
            let n = buf.len().min(self.data.len() - self.pos);
            buf[..n].copy_from_slice(&self.data[self.pos..self.pos + n]);
            self.pos += n;
            Ok(n)
        } else {
            Err(std::io::Error::new(std::io::ErrorKind::Other, "stream broke"))
        }
    }
}

#[test]
fn io_failure_before_header_is_io_error() {
    let broken = ReadThenFail { data: b"", pos: 0 };
    let err = match CsvSource::new(broken, b',') {
        Ok(_) => panic!("a failing stream must be reported"),
        Err(e) => e,
    };
    assert!(matches!(err, Error::Io(_)));
}

#[test]
fn io_failure_mid_stream_is_io_error() {
    let broken = ReadThenFail { data: b"A,B\n1,2\n", pos: 0 };
    let source = CsvSource::new(broken, b',').unwrap();
    let mut out = String::new();
    let err = match generate_xml(&mut out, source, "Root", RecordType::Record) {
        Ok(_) => panic!("the broken stream must surface an error"),
        Err(e) => e,
    };
    assert!(matches!(err, Error::Io(_)));
    // The record that was read before the failure remains in the truncated
    // output; the root element is never closed.
    let expected = format!(
        "{}<Root><Record><A>1</A><B>2</B></Record>",
        XML_DECL
    );
    assert_eq!(out, expected);
}

#[test]
fn read_record_classifies_rows() {
    let mut src = CsvSource::new("A,CUEX_B\nx,y\n".as_bytes(), b',').unwrap();
    let rec = src.read_record().unwrap().unwrap();
    let standard = rec.standard();
    assert_eq!(standard.len(), 1);
    assert_eq!(standard[0].tag, "A");
    assert_eq!(standard[0].value, "x");
    let extensions = rec.extensions();
    assert_eq!(extensions.len(), 1);
    assert_eq!(extensions[0].tag, "B");
    assert_eq!(extensions[0].value, "y");
    assert!(src.read_record().unwrap().is_none());
}

#[test]
fn io_arg_parsing() {
    assert!(!IoArg::from_str("-").is_file());
    assert!(IoArg::from_str("some/file.csv").is_file());
    assert!(has_gz_extension("input.csv.gz"));
    assert!(has_gz_extension("dir/archive.gz"));
    assert!(!has_gz_extension("input.csv"));
    assert!(!has_gz_extension(".gz"));
    assert!(!has_gz_extension("dir/.gz"));
    assert!(!has_gz_extension("gz"));
}
