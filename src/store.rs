//! The store file: a header row `Start, End, Objective` and one record per
//! session, its stamps written as `YYYY-MM-DD HH:MM:SS +HHMM` and an open
//! session's end left empty.
//!
//! Records whose start does not read as a stamp, and records that the csv
//! reader reports as malformed, are skipped on load: such a row is dropped,
//! not reported. An end that does not read as a stamp leaves the session open.

use crate::session::{sessions_view, Session, SessionView};
use crate::stamp::{parse_stamp, parse_stamp_text, stamp_text, stamp_to_text, lemma_stamp_text_parses};
use vstd::prelude::*;

verus! {

/// The records that the csv reader finds in a text after its header row,
/// each `None` where it reports an error.
pub uninterp spec fn csv_records_of(text: Seq<char>) -> Seq<Option<Seq<Seq<char>>>>;

/// The text that the csv writer gives for one record, its line end included.
pub uninterp spec fn csv_line_of(fields: Seq<Seq<char>>) -> Seq<char>;

/// Relies on csv's `ReaderBuilder` (header row on) and `Reader::records`:
/// the records of a text, read from its bytes, in order.
#[verifier::external_body]
fn csv_records(text: &str) -> (r: Vec<Option<Vec<String>>>)
    ensures
        r.deep_view() == csv_records_of(text@),
{
    let mut reader = csv::ReaderBuilder::new().has_headers(true).from_reader(text.as_bytes());
    reader.records().map(|rec| rec.ok().map(|f| f.iter().map(String::from).collect())).collect()
}

/// Relies on csv's `Writer::write_record` and `Writer::into_inner`: the text
/// of one record. A fresh writer over a `Vec<u8>` checks the field count
/// only against an earlier record, meets no I/O error, and keeps UTF-8
/// input UTF-8, so none of the three steps fails.
#[verifier::external_body]
fn csv_line(fields: &Vec<String>) -> (r: String)
    ensures
        r@ == csv_line_of(fields.deep_view()),
{
    let mut writer = csv::Writer::from_writer(Vec::new());
    writer.write_record(fields).unwrap();
    String::from_utf8(writer.into_inner().unwrap()).unwrap()
}

/// The records of a store file's text, after its header row, each `None`
/// where the csv reader reports an error.
pub fn records(text: &str) -> (r: Vec<Option<Vec<String>>>)
    ensures
        r.deep_view() == csv_records_of(text@),
{
    csv_records(text)
}

/// Every stamp of the sessions is valid.
pub open spec fn stamps_wf(v: Seq<SessionView>) -> bool {
    forall|i: int|
        0 <= i < v.len() ==> (#[trigger] v[i]).start.wf() && (v[i].end matches Some(e) ==> e.wf())
}

/// The session that a record holds: its first field must read as a stamp; a
/// second field that does not read as one leaves the session open; a missing
/// objective is empty.
pub open spec fn decode_record(f: Seq<Seq<char>>) -> Option<SessionView> {
    if f.len() >= 1 && parse_stamp(f[0]) is Some {
        Some(
            SessionView {
                start: parse_stamp(f[0])->0,
                end: if f.len() >= 2 {
                    parse_stamp(f[1])
                } else {
                    None
                },
                objective: if f.len() >= 3 {
                    f[2]
                } else {
                    seq![]
                },
            },
        )
    } else {
        None
    }
}

/// The sessions that a run of records holds, in order; records in error and
/// records that hold no session are skipped.
pub open spec fn decode_records(rows: Seq<Option<Seq<Seq<char>>>>) -> Seq<SessionView>
    decreases rows.len(),
{
    if rows.len() == 0 {
        seq![]
    } else {
        let rest = decode_records(rows.drop_last());
        match rows.last() {
            Some(f) => match decode_record(f) {
                Some(s) => rest.push(s),
                None => rest,
            },
            None => rest,
        }
    }
}

/// The record of one session.
pub open spec fn encode_record(s: SessionView) -> Seq<Seq<char>> {
    seq![
        stamp_text(s.start),
        match s.end {
            Some(e) => stamp_text(e),
            None => seq![],
        },
        s.objective,
    ]
}

pub open spec fn header() -> Seq<Seq<char>> {
    seq!["Start"@, "End"@, "Objective"@]
}

/// The header row followed by one record per session.
pub open spec fn encode_records(v: Seq<SessionView>) -> Seq<Seq<Seq<char>>> {
    seq![header()] + v.map_values(|s: SessionView| encode_record(s))
}

/// The lines of the records, one after the other.
pub open spec fn joined_lines(rows: Seq<Seq<Seq<char>>>) -> Seq<char>
    decreases rows.len(),
{
    if rows.len() == 0 {
        seq![]
    } else {
        joined_lines(rows.drop_last()) + csv_line_of(rows.last())
    }
}

fn decode_one(f: &Vec<String>) -> (r: Option<Session>)
    ensures
        r matches Some(s) ==> decode_record(f.deep_view()) == Some(s@),
        r is None ==> decode_record(f.deep_view()) is None,
{
    let ghost fv = f.deep_view();
    if f.len() == 0 {
        return None;
    }
    assert(fv[0] == f@[0]@);
    let start = match parse_stamp_text(f[0].as_str()) {
        Some(s) => s,
        None => return None,
    };
    let end = if f.len() >= 2 {
        assert(fv[1] == f@[1]@);
        parse_stamp_text(f[1].as_str())
    } else {
        None
    };
    let objective = if f.len() >= 3 {
        assert(fv[2] == f@[2]@);
        f[2].clone()
    } else {
        proof {
            reveal_strlit("");
        }
        String::from_str("")
    };
    let s = Session { start, end, objective };
    assert(s@.objective =~= decode_record(fv)->0.objective);
    Some(s)
}

/// The sessions of a run of records; see `decode_records`.
pub fn decode_rows(rows: &Vec<Option<Vec<String>>>) -> (r: Vec<Session>)
    ensures
        sessions_view(r@) == decode_records(rows.deep_view()),
{
    let mut out: Vec<Session> = Vec::new();
    let mut i: usize = 0;
    while i < rows.len()
        invariant
            i <= rows@.len(),
            sessions_view(out@) == decode_records(rows.deep_view().subrange(0, i as int)),
        decreases rows@.len() - i,
    {
        let ghost next = rows.deep_view().subrange(0, i + 1);
        assert(next.drop_last() =~= rows.deep_view().subrange(0, i as int));
        assert(next.last() == rows@[i as int].deep_view());
        match &rows[i] {
            Some(f) => {
                match decode_one(f) {
                    Some(s) => {
                        out.push(s);
                        assert(sessions_view(out@) =~= decode_records(next));
                    },
                    None => {},
                }
            },
            None => {},
        }
        i = i + 1;
    }
    assert(rows.deep_view().subrange(0, rows@.len() as int) =~= rows.deep_view());
    out
}

/// The sessions that a store file's text holds.
pub fn decode_store(text: &str) -> (r: Vec<Session>)
    ensures
        sessions_view(r@) == decode_records(csv_records_of(text@)),
{
    let rows = records(text);
    decode_rows(&rows)
}

fn encode_one(s: &Session) -> (r: Vec<String>)
    requires
        s.start.wf(),
        s.end matches Some(e) ==> e.wf(),
    ensures
        r.deep_view() == encode_record(s@),
{
    let mut f: Vec<String> = Vec::new();
    f.push(stamp_to_text(&s.start));
    match s.end {
        Some(e) => f.push(stamp_to_text(&e)),
        None => {
            proof {
                reveal_strlit("");
            }
            f.push(String::from_str(""));
        },
    }
    f.push(s.objective.clone());
    assert(f.deep_view()[0] == f@[0]@ && f.deep_view()[1] == f@[1]@ && f.deep_view()[2]
        == f@[2]@);
    assert(f@[0]@ == stamp_text(s.start));
    assert(f@[2]@ == s.objective@);
    assert(f@[1]@ == encode_record(s@)[1]);
    assert(f.deep_view() =~= encode_record(s@));
    f
}

/// The header row and one record per session.
pub fn encode_rows(data: &Vec<Session>) -> (r: Vec<Vec<String>>)
    requires
        stamps_wf(sessions_view(data@)),
    ensures
        r.deep_view() == encode_records(sessions_view(data@)),
{
    let mut rows: Vec<Vec<String>> = Vec::new();
    let mut h: Vec<String> = Vec::new();
    h.push(String::from_str("Start"));
    h.push(String::from_str("End"));
    h.push(String::from_str("Objective"));
    assert(h.deep_view() =~= header());
    rows.push(h);
    let ghost v = sessions_view(data@);
    let mut i: usize = 0;
    while i < data.len()
        invariant
            i <= data@.len(),
            v == sessions_view(data@),
            stamps_wf(v),
            rows.deep_view() == encode_records(v.subrange(0, i as int)),
        decreases data@.len() - i,
    {
        assert(v[i as int] == data@[i as int]@);
        let f = encode_one(&data[i]);
        let ghost before = rows.deep_view();
        rows.push(f);
        assert(rows.deep_view() =~= before.push(f.deep_view())) by {
            assert forall|k: int| 0 <= k < before.len() implies rows.deep_view()[k] == before[k] by {
                    }
        }
        i = i + 1;
        assert(encode_records(v.subrange(0, i as int)) =~= encode_records(
            v.subrange(0, i - 1),
        ).push(encode_record(v[i - 1])));
        assert(rows.deep_view() =~= encode_records(v.subrange(0, i as int)));
    }
    assert(v.subrange(0, data@.len() as int) =~= v);
    rows
}

/// The text of a store file that holds the sessions: the header line and
/// one line per session.
pub fn encode_store(data: &Vec<Session>) -> (r: String)
    requires
        stamps_wf(sessions_view(data@)),
    ensures
        r@ == joined_lines(encode_records(sessions_view(data@))),
{
    let rows = encode_rows(data);
    proof {
        reveal_strlit("");
    }
    let mut out = String::from_str("");
    let mut i: usize = 0;
    while i < rows.len()
        invariant
            i <= rows@.len(),
            out@ == joined_lines(rows.deep_view().subrange(0, i as int)),
        decreases rows@.len() - i,
    {
        let ghost next = rows.deep_view().subrange(0, i + 1);
        assert(next.drop_last() =~= rows.deep_view().subrange(0, i as int));
        assert(next.last() == rows@[i as int].deep_view());
        let line = csv_line(&rows[i]);
        out.append(line.as_str());
        i = i + 1;
    }
    assert(rows.deep_view().subrange(0, rows@.len() as int) =~= rows.deep_view());
    out
}

proof fn lemma_record_round_trip(s: SessionView)
    requires
        s.start.wf(),
        s.end matches Some(e) ==> e.wf(),
    ensures
        decode_record(encode_record(s)) == Some(s),
{
    lemma_stamp_text_parses(s.start);
    match s.end {
        Some(e) => lemma_stamp_text_parses(e),
        None => {},
    }
    let f = encode_record(s);
    assert(parse_stamp(seq![]) is None) by {
        reveal(parse_stamp);
    }
    assert(parse_stamp(f[0]) == Some(s.start));
    assert(decode_record(f) == Some(s));
}

/// Records written for valid sessions read back as those sessions: reading
/// the records that follow the header of `encode_records(v)` gives `v`.
pub proof fn lemma_records_round_trip(v: Seq<SessionView>)
    requires
        stamps_wf(v),
    ensures
        decode_records(encode_records(v).drop_first().map_values(
            |f: Seq<Seq<char>>| Some(f),
        )) == v,
    decreases v.len(),
{
    let rows = encode_records(v).drop_first().map_values(|f: Seq<Seq<char>>| Some(f));
    if v.len() == 0 {
        assert(rows =~= seq![]);
    } else {
        let p = v.drop_last();
        assert forall|i: int| 0 <= i < p.len() implies (#[trigger] p[i]).start.wf() && (
        p[i].end matches Some(e) ==> e.wf()) by {
            assert(p[i] == v[i]);
        }
        lemma_records_round_trip(p);
        let prow = encode_records(p).drop_first().map_values(|f: Seq<Seq<char>>| Some(f));
        assert(rows.drop_last() =~= prow);
        let s = v.last();
        assert(s == v[v.len() - 1]);
        assert(rows.last() == Some(encode_record(s)));
        lemma_record_round_trip(s);
        assert(decode_records(rows) =~= v);
    }
}

} // verus!
