use track_work::live::{live_entry, live_step, LiveAction, LiveEvent, LiveState};
use track_work::report::{
    compress, get_month_data, info, months_back, session_seconds, total_seconds, Day, Info,
};
use track_work::session::{begin, debug, end_current, start, stop, Config, Session, TrackError};
use track_work::stamp::{now_local, parse_stamp_text, stamp_to_text, unix_seconds, Stamp};
use track_work::store::{decode_rows, decode_store, encode_rows, encode_store, records};

fn at(year: i32, month: u8, day: u8, hour: u8, minute: u8, second: u8) -> Stamp {
    Stamp { year, month, day, hour, minute, second, offset: 0 }
}

fn closed(start: Stamp, end: Stamp, objective: &str) -> Session {
    Session { start, end: Some(end), objective: objective.to_string() }
}

fn open(start: Stamp) -> Session {
    Session { start, end: None, objective: String::new() }
}

#[test]
fn stamp_text_form() {
    let s = Stamp { year: 2021, month: 3, day: 7, hour: 9, minute: 5, second: 2, offset: 60 };
    assert_eq!(stamp_to_text(&s), "2021-03-07 09:05:02 +0100");
    let w = Stamp { year: 999, month: 12, day: 31, hour: 23, minute: 59, second: 59, offset: -330 };
    assert_eq!(stamp_to_text(&w), "0999-12-31 23:59:59 -0530");
}

#[test]
fn stamp_text_reads_back() {
    let s = Stamp { year: 2024, month: 2, day: 29, hour: 18, minute: 30, second: 45, offset: -420 };
    assert_eq!(parse_stamp_text(&stamp_to_text(&s)), Some(s));
    assert_eq!(
        parse_stamp_text("2020-05-01 08:00:00 +0200"),
        Some(Stamp { year: 2020, month: 5, day: 1, hour: 8, minute: 0, second: 0, offset: 120 })
    );
}

#[test]
fn stamp_text_rejects_malformed() {
    assert_eq!(parse_stamp_text(""), None);
    assert_eq!(parse_stamp_text("2023-02-29 10:00:00 +0000"), None);
    assert_eq!(parse_stamp_text("2023-13-01 10:00:00 +0000"), None);
    assert_eq!(parse_stamp_text("2023-01-01 24:00:00 +0000"), None);
    assert_eq!(parse_stamp_text("2023-01-01 10:00:00 0000"), None);
    assert_eq!(parse_stamp_text("2023-01-01T10:00:00 +0000"), None);
    assert_eq!(parse_stamp_text("2023-01-01 10:00:00 +2400"), None);
    assert_eq!(parse_stamp_text("2023-0a-01 10:00:00 +0000"), None);
}

#[test]
fn unix_seconds_of_stamps() {
    assert_eq!(unix_seconds(&at(1970, 1, 1, 0, 0, 0)), 0);
    assert_eq!(unix_seconds(&at(2000, 1, 1, 0, 0, 0)), 946_684_800);
    let east = Stamp { year: 1970, month: 1, day: 1, hour: 1, minute: 0, second: 0, offset: 60 };
    assert_eq!(unix_seconds(&east), 0);
}

#[test]
fn session_duration_closed_and_open() {
    let s = closed(at(2024, 1, 5, 9, 0, 0), at(2024, 1, 5, 10, 30, 0), "x");
    assert_eq!(session_seconds(&s, &at(2024, 1, 6, 0, 0, 0)), 5400);
    let o = open(at(2024, 1, 5, 9, 0, 0));
    assert_eq!(session_seconds(&o, &at(2024, 1, 5, 9, 0, 42)), 42);
}

#[test]
fn begin_on_empty_store() {
    let mut data: Vec<Session> = Vec::new();
    let now = at(2024, 1, 5, 9, 0, 0);
    assert_eq!(begin(&mut data, "plan".to_string(), now), Ok(()));
    assert_eq!(data.len(), 1);
    assert_eq!(data[0].start, now);
    assert_eq!(data[0].end, None);
    assert_eq!(data[0].objective, "plan");
}

#[test]
fn begin_while_open_fails_unchanged() {
    let mut data = vec![open(at(2024, 1, 5, 9, 0, 0))];
    let before = data.clone();
    assert_eq!(
        begin(&mut data, "again".to_string(), at(2024, 1, 5, 10, 0, 0)),
        Err(TrackError::InvalidTransition)
    );
    assert_eq!(data, before);
    assert_eq!(start(&mut data, "again".to_string()), Err(TrackError::InvalidTransition));
    assert_eq!(data, before);
}

#[test]
fn end_current_on_empty_or_closed_fails_unchanged() {
    let mut empty: Vec<Session> = Vec::new();
    assert_eq!(
        end_current(&mut empty, "x".to_string(), at(2024, 1, 5, 9, 0, 0)),
        Err(TrackError::InvalidTransition)
    );
    assert!(empty.is_empty());
    assert_eq!(stop(&mut empty, "x".to_string()), Err(TrackError::InvalidTransition));
    let mut data = vec![closed(at(2024, 1, 5, 9, 0, 0), at(2024, 1, 5, 10, 0, 0), "a")];
    let before = data.clone();
    assert_eq!(
        end_current(&mut data, "b".to_string(), at(2024, 1, 5, 11, 0, 0)),
        Err(TrackError::InvalidTransition)
    );
    assert_eq!(data, before);
    assert_eq!(stop(&mut data, "b".to_string()), Err(TrackError::InvalidTransition));
    assert_eq!(data, before);
}

#[test]
fn end_current_closes_last() {
    let first = closed(at(2024, 1, 4, 9, 0, 0), at(2024, 1, 4, 10, 0, 0), "a");
    let mut data = vec![first.clone(), open(at(2024, 1, 5, 9, 0, 0))];
    let now = at(2024, 1, 5, 11, 0, 0);
    assert_eq!(end_current(&mut data, "done".to_string(), now), Ok(()));
    assert_eq!(data[0], first);
    assert_eq!(data[1], closed(at(2024, 1, 5, 9, 0, 0), now, "done"));
}

#[test]
fn now_then_stop_then_report() {
    let mut data: Vec<Session> = Vec::new();
    assert_eq!(start(&mut data, String::new()), Ok(()));
    assert_eq!(data.len(), 1);
    assert_eq!(data[0].end, None);
    assert_eq!(stop(&mut data, "write tests".to_string()), Ok(()));
    assert_eq!(data.len(), 1);
    assert!(data[0].end.is_some());
    assert_eq!(data[0].objective, "write tests");
    let now = now_local().unwrap();
    let lines = info(&data, &None, false, &now);
    assert_eq!(lines.len(), 3);
    assert_eq!(lines[0], "Date, Duration");
    let s = data[0].start;
    let today = format!("{:04}-{:02}-{:02}", s.year, s.month, s.day);
    let d = session_seconds(&data[0], &now);
    let hm = format!("{:02}:{:02}", d / 3600, (d / 60) % 60);
    assert_eq!(lines[1], format!("{}: {}", today, hm));
    assert_eq!(lines[2], format!("Total: {}", hm));
}

#[test]
fn begin_stop_report_fixed_times() {
    let mut data: Vec<Session> = Vec::new();
    assert_eq!(begin(&mut data, String::new(), at(2024, 3, 5, 9, 0, 0)), Ok(()));
    assert_eq!(end_current(&mut data, "review".to_string(), at(2024, 3, 5, 10, 45, 0)), Ok(()));
    assert_eq!(begin(&mut data, String::new(), at(2024, 3, 5, 13, 0, 0)), Ok(()));
    assert_eq!(end_current(&mut data, "code".to_string(), at(2024, 3, 5, 14, 0, 30)), Ok(()));
    let now = at(2024, 3, 20, 12, 0, 0);
    let lines = info(&data, &None, false, &now);
    assert_eq!(lines, vec!["Date, Duration", "2024-03-05: 02:45", "Total: 02:45"]);
}

#[test]
fn uncompressed_report_lines() {
    let data = vec![
        closed(at(2024, 3, 5, 9, 0, 0), at(2024, 3, 5, 10, 30, 0), "review"),
        open(at(2024, 3, 6, 8, 0, 0)),
    ];
    let now = at(2024, 3, 6, 8, 20, 0);
    let lines = info(&data, &Some(Info::All), true, &now);
    assert_eq!(
        lines,
        vec![
            "Date, Start, End, Duration, Objective",
            "2024-03-05, 09:00, 10:30, 01:30, review",
            "2024-03-06, 08:00, , 00:20, ",
            "Total: 01:50",
        ]
    );
}

#[test]
fn report_long_and_negative_durations() {
    let data = vec![
        closed(at(2024, 3, 1, 0, 0, 0), at(2024, 3, 6, 4, 5, 0), "long"),
        closed(at(2024, 3, 7, 10, 0, 0), at(2024, 3, 7, 9, 30, 0), "back"),
    ];
    let now = at(2024, 3, 8, 0, 0, 0);
    let lines = info(&data, &Some(Info::Month { delta: 0 }), false, &now);
    assert_eq!(
        lines,
        vec!["Date, Duration", "2024-03-01: 124:05", "2024-03-07: 00:-30", "Total: 123:35"]
    );
}

#[test]
fn report_of_empty_store() {
    let data: Vec<Session> = Vec::new();
    let now = at(2024, 3, 8, 0, 0, 0);
    assert_eq!(info(&data, &None, false, &now), vec!["Date, Duration", "Total: 00:00"]);
    assert_eq!(
        info(&data, &None, true, &now),
        vec!["Date, Start, End, Duration, Objective", "Total: 00:00"]
    );
    assert_eq!(total_seconds(&data, &now), 0);
}

#[test]
fn aggregate_one_day() {
    let data = vec![
        closed(at(2024, 3, 5, 9, 0, 0), at(2024, 3, 5, 10, 0, 0), "a"),
        closed(at(2024, 3, 5, 11, 0, 0), at(2024, 3, 5, 11, 30, 0), "b"),
        open(at(2024, 3, 5, 23, 0, 0)),
    ];
    let now = at(2024, 3, 6, 0, 15, 0);
    let days = compress(&data, &now);
    assert_eq!(days, vec![(Day { year: 2024, month: 3, day: 5 }, 3600 + 1800 + 4500)]);
    assert_eq!(total_seconds(&data, &now), 9900);
}

#[test]
fn aggregate_several_days_in_first_order() {
    let data = vec![
        closed(at(2024, 3, 6, 9, 0, 0), at(2024, 3, 6, 10, 0, 0), "a"),
        closed(at(2024, 3, 5, 9, 0, 0), at(2024, 3, 5, 9, 10, 0), "b"),
        closed(at(2024, 3, 6, 12, 0, 0), at(2024, 3, 6, 12, 1, 0), "c"),
    ];
    let now = at(2024, 3, 7, 0, 0, 0);
    let days = compress(&data, &now);
    assert_eq!(
        days,
        vec![
            (Day { year: 2024, month: 3, day: 6 }, 3660),
            (Day { year: 2024, month: 3, day: 5 }, 600),
        ]
    );
}

#[test]
fn month_arithmetic() {
    assert_eq!(months_back(2024, 1, 13), (2022, 12));
    assert_eq!(months_back(2024, 5, 0), (2024, 5));
    assert_eq!(months_back(2024, 5, 4), (2024, 1));
    assert_eq!(months_back(2024, 5, 5), (2023, 12));
    assert_eq!(months_back(2024, 3, 24), (2022, 3));
    assert_eq!(months_back(2024, 1, 255), (2002, 10));
}

#[test]
fn month_filter_thirteen_back() {
    let data = vec![
        closed(at(2022, 12, 3, 9, 0, 0), at(2022, 12, 3, 10, 0, 0), "old"),
        closed(at(2023, 12, 3, 9, 0, 0), at(2023, 12, 3, 10, 0, 0), "last year"),
        closed(at(2024, 1, 3, 9, 0, 0), at(2024, 1, 3, 10, 0, 0), "now"),
        closed(at(2022, 12, 30, 9, 0, 0), at(2022, 12, 30, 10, 0, 0), "old too"),
    ];
    let now = at(2024, 1, 15, 12, 0, 0);
    let got = get_month_data(&data, 13, &now);
    assert_eq!(got, vec![data[0].clone(), data[3].clone()]);
    let current = get_month_data(&data, 0, &now);
    assert_eq!(current, vec![data[2].clone()]);
}

#[test]
fn store_text_round_trip() {
    let data = vec![
        closed(at(2024, 3, 5, 9, 0, 0), at(2024, 3, 5, 10, 30, 0), "review, \"quoted\""),
        Session {
            start: Stamp { year: 2024, month: 3, day: 6, hour: 8, minute: 0, second: 1, offset: 90 },
            end: None,
            objective: String::new(),
        },
    ];
    let text = encode_store(&data);
    assert!(text.starts_with("Start,End,Objective\n"));
    assert!(text.contains("2024-03-05 09:00:00 +0000,2024-03-05 10:30:00 +0000,"));
    assert_eq!(decode_store(&text), data);
}

#[test]
fn store_rows_shape() {
    let data = vec![open(at(2024, 3, 6, 8, 0, 0))];
    let rows = encode_rows(&data);
    assert_eq!(rows.len(), 2);
    assert_eq!(rows[0], vec!["Start", "End", "Objective"]);
    assert_eq!(rows[1], vec!["2024-03-06 08:00:00 +0000", "", ""]);
}

#[test]
fn load_skips_malformed_rows() {
    let text = "Start,End,Objective\n\
                2024-03-05 09:00:00 +0000,2024-03-05 10:00:00 +0000,a\n\
                garbage,2024-03-05 10:00:00 +0000,b\n\
                2024-03-06 09:00:00 +0000,not a time,c\n\
                2024-03-07 09:00:00 +0000\n";
    let got = decode_store(text);
    assert_eq!(got.len(), 2);
    assert_eq!(got[0], closed(at(2024, 3, 5, 9, 0, 0), at(2024, 3, 5, 10, 0, 0), "a"));
    assert_eq!(got[1], Session { start: at(2024, 3, 6, 9, 0, 0), end: None, objective: "c".to_string() });
    assert!(decode_store("").is_empty());
}

#[test]
fn decode_rows_skips_errors() {
    let rows = vec![
        None,
        Some(vec!["2024-03-07 09:00:00 +0000".to_string()]),
        Some(vec![]),
    ];
    let got = decode_rows(&rows);
    assert_eq!(got, vec![Session { start: at(2024, 3, 7, 9, 0, 0), end: None, objective: String::new() }]);
}

#[test]
fn live_adopts_open_session() {
    let started = at(2024, 3, 5, 9, 0, 0);
    let mut data = vec![open(started)];
    let now = at(2024, 3, 5, 9, 5, 0);
    assert_eq!(live_entry(&mut data, now), (started, true));
    assert_eq!(data.len(), 1);
    let state = LiveState::Running { start: started };
    let (state, action) = live_step(state, LiveEvent::Tick { now });
    assert_eq!(action, LiveAction::Show { line: "Duration: 00:05:00".to_string() });
    let (state, action) = live_step(state, LiveEvent::Tick { now: at(2024, 3, 5, 9, 5, 1) });
    assert_eq!(action, LiveAction::Show { line: "Duration: 00:05:01".to_string() });
    let (state, action) = live_step(state, LiveEvent::Interrupt);
    assert_eq!(state, LiveState::Stopped);
    assert_eq!(action, LiveAction::Stop);
    let end = at(2024, 3, 5, 9, 5, 2);
    assert_eq!(end_current(&mut data, "focus".to_string(), end), Ok(()));
    assert_eq!(data, vec![closed(started, end, "focus")]);
    let (state, action) = live_step(state, LiveEvent::Tick { now: end });
    assert_eq!(state, LiveState::Stopped);
    assert_eq!(action, LiveAction::Idle);
}

#[test]
fn live_starts_new_session() {
    let mut data = vec![closed(at(2024, 3, 5, 8, 0, 0), at(2024, 3, 5, 8, 30, 0), "a")];
    let now = at(2024, 3, 5, 9, 0, 0);
    assert_eq!(live_entry(&mut data, now), (now, false));
    assert_eq!(data.len(), 2);
    assert_eq!(data[1], open(now));
}

#[test]
fn live_tick_hours() {
    let state = LiveState::Running { start: at(2024, 3, 5, 9, 0, 0) };
    let (_, action) = live_step(state, LiveEvent::Tick { now: at(2024, 3, 5, 20, 1, 9) });
    assert_eq!(action, LiveAction::Show { line: "Duration: 11:01:09".to_string() });
}

#[test]
fn config_debug_flag() {
    assert!(debug(&Config { debug: true }));
    assert!(!debug(&Config { debug: false }));
}

#[test]
fn error_messages_differ() {
    assert_ne!(TrackError::FileIO.message(), TrackError::InvalidTransition.message());
    assert_ne!(TrackError::Clock.message(), TrackError::InvalidTransition.message());
}

#[test]
fn clock_gives_valid_stamp() {
    let now = now_local().unwrap();
    assert!(now.is_valid());
}

#[test]
fn save_after_load_gives_same_text() {
    let data = vec![
        closed(at(2024, 3, 5, 9, 0, 0), at(2024, 3, 5, 10, 30, 0), "multi\nline, \"q\""),
        open(at(2024, 3, 6, 8, 0, 0)),
    ];
    let text = encode_store(&data);
    assert_eq!(
        text,
        "Start,End,Objective\n\
         2024-03-05 09:00:00 +0000,2024-03-05 10:30:00 +0000,\"multi\nline, \"\"q\"\"\"\n\
         2024-03-06 08:00:00 +0000,,\n"
    );
    assert_eq!(encode_store(&decode_store(&text)), text);
    assert_eq!(encode_store(&Vec::new()), "Start,End,Objective\n");
}

#[test]
fn raw_records_after_header() {
    let got = records("Start,End,Objective\na,b,c\nx\n");
    assert_eq!(got, vec![Some(vec!["a".to_string(), "b".to_string(), "c".to_string()]), None]);
}

#[test]
fn error_message_texts() {
    assert_eq!(TrackError::FileIO.message(), "Could not read or write the storage file");
    assert_eq!(TrackError::Clock.message(), "The system clock gave an unsupported time");
}
