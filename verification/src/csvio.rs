//! CSV records written and read with the `csv` crate (default settings).

use vstd::prelude::*;
use crate::text::views;
use vstd::utf8::{decode_utf8, valid_utf8};
use csv::Error as CsvError;

verus! {

#[verifier::external_type_specification]
#[verifier::external_body]
pub struct ExCsvError(CsvError);

/// A `csv::Writer` over a byte vector. Verus cannot declare `csv::Writer`
/// itself (its parameter is bounded by `std::io::Write`, which Verus does not
/// know), so the writer is held here, out of Verus's sight.
#[verifier::external_body]
pub struct CsvSink {
    w: csv::Writer<Vec<u8>>,
}

#[verifier::external_type_specification]
#[verifier::external_body]
#[verifier::reject_recursive_types(R)]
pub struct ExCsvReader<R>(csv::Reader<R>);

#[verifier::external_type_specification]
#[verifier::external_body]
pub struct ExCsvRecord(csv::StringRecord);

/// Names the bytes that the `csv` crate's `Writer` (default settings) writes for
/// these records, in order.
pub uninterp spec fn csv_written(rows: Seq<Seq<Seq<char>>>) -> Seq<u8>;

/// Names the records of `text` as the `csv` crate's `Reader` (default
/// settings) parses them, in order: the header record first (an empty record
/// when the text holds none), then every other record, whatever its number of
/// fields.
pub uninterp spec fn csv_read(text: Seq<char>) -> Seq<Seq<Seq<char>>>;

/// The text that well-formed UTF-8 bytes encode; `None` for bytes that are not
/// well-formed UTF-8 (what `String::from_utf8` accepts and decodes).
pub open spec fn utf8_text(b: Seq<u8>) -> Option<Seq<char>> {
    if valid_utf8(b) {
        Some(decode_utf8(b))
    } else {
        None
    }
}

/// Names the records a writer has been given, in order, while every write
/// succeeded (`None` once one failed).
pub uninterp spec fn csv_given(w: CsvSink) -> Option<Seq<Seq<Seq<char>>>>;

/// Names the text a reader was made over.
pub uninterp spec fn csv_source(r: csv::Reader<&[u8]>) -> Seq<char>;

/// Names how many records a reader has read, while every read succeeded
/// (`None` once one failed).
pub uninterp spec fn csv_taken(r: csv::Reader<&[u8]>) -> Option<nat>;

/// Names the fields of a record.
pub uninterp spec fn csv_fields(rec: csv::StringRecord) -> Seq<Seq<char>>;

/// Every record has as many fields as the first one.
pub open spec fn uniform(rs: Seq<Seq<Seq<char>>>) -> bool {
    forall|i: int| 0 <= i < rs.len() ==> #[trigger] rs[i].len() == rs[0].len()
}

pub open spec fn table_view(t: Seq<Vec<String>>) -> Seq<Seq<Seq<char>>> {
    t.map_values(|r: Vec<String>| views(r@))
}

/// Calls `csv::Writer::from_writer` on an empty byte vector; nothing has been
/// given to the new writer.
#[verifier::external_body]
fn csv_writer() -> (w: CsvSink)
    ensures
        csv_given(w) == Some(Seq::<Seq<Seq<char>>>::empty()),
{
    CsvSink { w: csv::Writer::from_writer(Vec::new()) }
}

/// Calls `csv::Writer::write_record` with the fields of one record. The
/// writer (default settings, so not flexible) refuses a record whose number of
/// fields differs from the first record's, and writing into a byte vector
/// does not fail otherwise. Claims, after writes that all succeeded: the
/// record is written, after those given before, exactly when it has as many
/// fields as the first record (or is the first). After a failure nothing is
/// claimed of the writer.
#[verifier::external_body]
fn csv_write_record(w: &mut CsvSink, rec: &Vec<String>) -> (r: Result<(), CsvError>)
    ensures
        match csv_given(*old(w)) {
            Some(rs) => if rs.len() == 0 || rs[0].len() == rec@.len() {
                r is Ok && csv_given(*final(w)) == Some(rs.push(views(rec@)))
            } else {
                r is Err
            },
            None => r is Ok ==> csv_given(*final(w)) is None,
        },
{
    w.w.write_record(rec)
}

/// Calls `csv::Writer::into_inner`, which flushes the writer into its byte
/// vector (which cannot fail) and hands the bytes back. Claims: it succeeds;
/// the bytes are well-formed UTF-8 (the fields given were strings, and the
/// writer adds only ASCII quotes, commas and line ends between them); after
/// writes that all succeeded they are the ones named `csv_written` for the
/// records given. Its error type is turned into the crate's `csv::Error`
/// (through `IntoInnerError::into_error`).
#[verifier::external_body]
fn csv_into_bytes(w: CsvSink) -> (r: Result<Vec<u8>, CsvError>)
    ensures
        r is Ok,
        r matches Ok(b) ==> utf8_text(b@) is Some,
        r matches Ok(b) ==> (csv_given(w) matches Some(rs) ==> b@ == csv_written(rs)),
{
    match w.w.into_inner() {
        Ok(b) => Ok(b),
        Err(e) => Err(CsvError::from(e.into_error())),
    }
}

/// Calls `csv::Reader::from_reader` on the bytes of `text`; the new reader has
/// read nothing.
#[verifier::external_body]
fn csv_reader(text: &str) -> (r: csv::Reader<&[u8]>)
    ensures
        csv_source(r) == text@,
        csv_taken(r) == Some(0nat),
{
    csv::Reader::from_reader(text.as_bytes())
}

/// Calls `csv::Reader::headers` on a reader that has read nothing, which reads
/// the first record, and clones it. The first record sets the number of fields
/// the others must have, so it is never refused; reading from the bytes of a
/// string neither fails nor yields invalid UTF-8. Claims: it succeeds, with the
/// first record named `csv_read` for the reader's text.
#[verifier::external_body]
fn csv_headers(r: &mut csv::Reader<&[u8]>) -> (h: Result<csv::StringRecord, CsvError>)
    requires
        csv_taken(*old(r)) == Some(0nat),
    ensures
        csv_source(*final(r)) == csv_source(*old(r)),
        h is Ok,
        h matches Ok(rec) ==> csv_read(csv_source(*old(r))).len() > 0 && csv_fields(rec) == csv_read(
            csv_source(*old(r)),
        )[0] && csv_taken(*final(r)) == Some(1nat),
{
    match r.headers() {
        Ok(rec) => Ok(rec.clone()),
        Err(e) => Err(e),
    }
}

/// Calls `csv::StringRecord::new`: a record without fields.
#[verifier::external_body]
fn csv_record() -> (rec: csv::StringRecord)
    ensures
        csv_fields(rec) == Seq::<Seq<char>>::empty(),
{
    csv::StringRecord::new()
}

/// Calls `csv::Reader::read_record`, which reads the next record into `rec`
/// (after the header record, which `headers` read) and answers whether there
/// was one. The reader (default settings, so not flexible) refuses a record
/// whose number of fields differs from the header's; reading from the bytes of
/// a string fails in no other way. Claims, after the header and reads that all
/// succeeded: `false` when every record has been read; otherwise `true` with
/// the next record named `csv_read` in `rec` when it has the header's number
/// of fields, and a failure when it has not. After a failure nothing is
/// claimed of the reader.
#[verifier::external_body]
fn csv_read_record(r: &mut csv::Reader<&[u8]>, rec: &mut csv::StringRecord) -> (more: Result<bool, CsvError>)
    ensures
        csv_source(*final(r)) == csv_source(*old(r)),
        match csv_taken(*old(r)) {
            Some(k) => k >= 1 && k <= csv_read(csv_source(*old(r))).len() ==> if k == csv_read(csv_source(*old(r))).len() {
                more == Ok::<bool, CsvError>(false)
            } else if csv_read(csv_source(*old(r)))[k as int].len() == csv_read(csv_source(*old(r)))[0].len() {
                more == Ok::<bool, CsvError>(true) && csv_fields(*final(rec)) == csv_read(csv_source(*old(r)))[k as int]
                    && csv_taken(*final(r)) == Some((k + 1) as nat)
            } else {
                more is Err
            },
            None => more is Ok ==> csv_taken(*final(r)) is None,
        },
{
    r.read_record(rec)
}

/// The fields of a record, as strings (`StringRecord::iter`, each field owned).
#[verifier::external_body]
fn csv_record_fields(rec: &csv::StringRecord) -> (r: Vec<String>)
    ensures
        views(r@) == csv_fields(*rec),
{
    rec.iter().map(|f| f.to_string()).collect()
}

/// Writes the records with one writer, in order, and hands back its bytes:
/// well-formed UTF-8, the ones named `csv_written` for the records. It fails
/// exactly when some record has another number of fields than the first.
pub(crate) fn write_csv(rows: &Vec<Vec<String>>) -> (r: Result<Vec<u8>, CsvError>)
    ensures
        r is Ok <==> uniform(table_view(rows@)),
        r matches Ok(b) ==> b@ == csv_written(table_view(rows@)) && utf8_text(b@) is Some,
{
    let mut w = csv_writer();
    let mut i: usize = 0;
    proof {
        assert(table_view(rows@.take(0)) =~= Seq::<Seq<Seq<char>>>::empty());
    }
    while i < rows.len()
        invariant
            i <= rows@.len(),
            csv_given(w) == Some(table_view(rows@.take(i as int))),
            forall|j: int| 0 <= j < i ==> #[trigger] rows@[j]@.len() == rows@[0]@.len(),
        decreases rows@.len() - i,
    {
        proof {
            assert(table_view(rows@.take(i as int)).len() == i);
            if i > 0 {
                assert(table_view(rows@.take(i as int))[0] == views(rows@[0]@));
            }
        }
        match csv_write_record(&mut w, &rows[i]) {
            Ok(()) => {},
            Err(e) => {
                proof {
                    assert(table_view(rows@)[i as int] == views(rows@[i as int]@));
                    assert(table_view(rows@)[0] == views(rows@[0]@));
                    assert(!uniform(table_view(rows@)));
                }
                return Err(e);
            },
        }
        proof {
            assert(table_view(rows@.take(i + 1)) =~= table_view(rows@.take(i as int)).push(views(rows@[i as int]@)));
        }
        i = i + 1;
    }
    proof {
        assert(rows@.take(rows@.len() as int) =~= rows@);
        assert forall|j: int| 0 <= j < table_view(rows@).len() implies #[trigger] table_view(rows@)[j].len()
            == table_view(rows@)[0].len() by {
            assert(table_view(rows@)[j] == views(rows@[j]@));
            assert(table_view(rows@)[0] == views(rows@[0]@));
        }
    }
    csv_into_bytes(w)
}

/// Reads every record of `text`, the header record first: the records named
/// `csv_read`. It fails exactly when some record has another number of fields
/// than the header.
pub(crate) fn read_csv(text: &str) -> (r: Result<Vec<Vec<String>>, CsvError>)
    ensures
        r is Ok <==> uniform(csv_read(text@)),
        r matches Ok(t) ==> table_view(t@) == csv_read(text@),
{
    let mut rdr = csv_reader(text);
    let head = match csv_headers(&mut rdr) {
        Ok(h) => h,
        Err(e) => return Err(e),
    };
    let mut table: Vec<Vec<String>> = Vec::new();
    table.push(csv_record_fields(&head));
    let ghost all = csv_read(text@);
    proof {
        assert(table_view(table@) =~= all.take(1));
    }
    let mut rec = csv_record();
    loop
        invariant
            csv_source(rdr) == text@,
            all == csv_read(text@),
            csv_taken(rdr) matches Some(k) && k >= 1 && k <= all.len() && table_view(table@) == all.take(k as int)
                && forall|j: int| 0 <= j < k ==> #[trigger] all[j].len() == all[0].len(),
        decreases all.len() - table@.len(),
    {
        let ghost k = csv_taken(rdr)->Some_0;
        match csv_read_record(&mut rdr, &mut rec) {
            Ok(true) => {
                let ghost before = table@;
                table.push(csv_record_fields(&rec));
                proof {
                    assert(table_view(table@) =~= table_view(before).push(all[k as int]));
                    assert(all.take(k as int + 1) =~= all.take(k as int).push(all[k as int]));
                }
            },
            Ok(false) => {
                proof {
                    assert(all.take(k as int) =~= all);
                }
                return Ok(table);
            },
            Err(e) => {
                proof {
                    assert(all[k as int].len() != all[0].len());
                }
                return Err(e);
            },
        }
    }
}

/// Calls `Display::to_string` on a `csv::Error` (its message).
#[verifier::external_body]
pub(crate) fn csv_error_detail(e: &CsvError) -> (r: String) {
    e.to_string()
}

} // verus!
