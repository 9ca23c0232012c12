use swarm_fitness::parse::{
    get_metics_normalization, get_real_bot_data, parse_fixed, parse_frame, parse_trajectory,
    render_i64, render_u64, save_row, trim_to_len, ParseError,
};
use swarm_fitness::{AgentPos, COORD_LIMIT};

fn pos(x: i64, y: i64) -> AgentPos {
    AgentPos { x, y }
}

#[test]
fn parse_fixed_reads_decimals_in_thousandths() {
    let v = b"12.345".to_vec();
    assert_eq!(parse_fixed(&v, 0, v.len(), COORD_LIMIT).unwrap(), 12_345);
    let v = b"-0.5".to_vec();
    assert_eq!(parse_fixed(&v, 0, v.len(), COORD_LIMIT).unwrap(), -500);
    let v = b"7".to_vec();
    assert_eq!(parse_fixed(&v, 0, v.len(), COORD_LIMIT).unwrap(), 7_000);
    let v = b"0.1239".to_vec();
    // digits beyond the third fraction place are dropped
    assert_eq!(parse_fixed(&v, 0, v.len(), COORD_LIMIT).unwrap(), 123);
    let v = b"3.04".to_vec();
    assert_eq!(parse_fixed(&v, 0, v.len(), COORD_LIMIT).unwrap(), 3_040);
}

#[test]
fn parse_fixed_rejects_malformed_or_large() {
    for bad in ["", "-", ".", "1.", ".5", "1.2.3", "abc", "1e5", "12a", "--1"] {
        let v = bad.as_bytes().to_vec();
        assert_eq!(
            parse_fixed(&v, 0, v.len(), COORD_LIMIT),
            Err(ParseError::BadNumber),
            "accepted {:?}",
            bad
        );
    }
    // beyond the coordinate limit (1000.0 whole units)
    let v = b"1000.001".to_vec();
    assert_eq!(parse_fixed(&v, 0, v.len(), COORD_LIMIT), Err(ParseError::BadNumber));
    let v = b"1000.000".to_vec();
    assert_eq!(parse_fixed(&v, 0, v.len(), COORD_LIMIT).unwrap(), 1_000_000);
}

#[test]
fn parse_frame_reads_one_position_line() {
    let v = b"%! i:7 x:1.5 y:-2.25".to_vec();
    assert_eq!(parse_frame(&v, 0, v.len()).unwrap(), (7, 1_500, -2_250));
    // content after the y field is ignored
    let v = b"%! i:14 x:0 y:0 trailing words".to_vec();
    assert_eq!(parse_frame(&v, 0, v.len()).unwrap(), (14, 0, 0));
}

#[test]
fn parse_frame_rejects_bad_lines() {
    for bad in [
        "%! i:15 x:0 y:0",   // agent index out of range
        "%! i: x:0 y:0",     // missing index digits
        "%! i:3 x:0",        // missing y field
        "%! j:3 x:0 y:0",    // wrong field tag
        "%!",                // nothing after the marker
    ] {
        let v = bad.as_bytes().to_vec();
        assert!(parse_frame(&v, 0, v.len()).is_err(), "accepted {:?}", bad);
    }
}

#[test]
fn parse_trajectory_assembles_snapshots_on_agent_14() {
    let mut text = String::new();
    text.push_str("starting up\n");
    for snap in 0..2 {
        for i in 0..15 {
            text.push_str(&format!("%! i:{} x:{}.5 y:{}\n", i, i, snap));
        }
        text.push_str("some log line\n");
    }
    // a partial third snapshot: agent 14 never reported, so it is dropped
    text.push_str("%! i:0 x:9 y:9\n");
    let v = text.as_bytes().to_vec();
    let t = parse_trajectory(&v).unwrap();
    assert_eq!(t.len(), 2);
    for snap in 0..2 {
        for i in 0..15 {
            assert_eq!(t[snap][i], pos(i as i64 * 1000 + 500, snap as i64 * 1000));
        }
    }
}

#[test]
fn parse_trajectory_fails_on_malformed_frame() {
    let v = b"%! i:3 x:oops y:0\n".to_vec();
    assert!(parse_trajectory(&v).is_err());
}

#[test]
fn trimming_splits_the_surplus_front_heavy() {
    // 1205 rows, target 1200: delta 5, front-trim 3, back-trim 2
    let rows: Vec<Vec<AgentPos>> = (0..1205)
        .map(|i: i64| {
            let mut s = vec![pos(0, 0); 15];
            s[0] = pos(i, 0);
            s
        })
        .collect();
    let t = trim_to_len(rows, 1200).unwrap();
    assert_eq!(t.len(), 1200);
    // the first retained row is original row index 3
    assert_eq!(t[0][0], pos(3, 0));
    // the last retained row is original row 1202 (rows 1203, 1204 dropped)
    assert_eq!(t[1199][0], pos(1202, 0));
}

#[test]
fn trimming_fails_on_short_data() {
    let rows: Vec<Vec<AgentPos>> = (0..5).map(|_| vec![pos(0, 0); 15]).collect();
    assert_eq!(trim_to_len(rows, 6), Err(ParseError::TooFewRows));
}

#[test]
fn real_bot_data_parses_and_trims() {
    let mut text = String::new();
    // header: 30 column names
    let head: Vec<String> = (0..30).map(|c| format!("c{}", c)).collect();
    text.push_str(&head.join(","));
    text.push('\n');
    for row in 0..4 {
        let vals: Vec<String> = (0..30).map(|c| format!("{}.{}", row, c % 10)).collect();
        text.push_str(&vals.join(", "));
        text.push('\n');
    }
    text.push('\n'); // trailing blank line is skipped
    let v = text.as_bytes().to_vec();
    let t = get_real_bot_data(&v, 3).unwrap();
    assert_eq!(t.len(), 3);
    // delta 1: one row trimmed from the front; first retained is row 1
    assert_eq!(t[0][0], pos(1000 + 0, 1000 + 100));
    assert_eq!(t[0][1], pos(1000 + 200, 1000 + 300));
}

#[test]
fn real_bot_data_rejects_short_dataset() {
    let mut text = String::new();
    let head: Vec<String> = (0..30).map(|c| format!("c{}", c)).collect();
    text.push_str(&head.join(","));
    text.push('\n');
    text.push_str(&vec!["1.0"; 30].join(","));
    text.push('\n');
    let v = text.as_bytes().to_vec();
    assert_eq!(get_real_bot_data(&v, 2), Err(ParseError::TooFewRows));
}

#[test]
fn normalization_bounds_rows_are_max_then_min() {
    let text = "9,8,7,6,5,4,3,2,1\n0.1, 0.2, 0.3, 0.4, 0.5, 0.6, 0.7, 0.8, 0.9\n";
    let v = text.as_bytes().to_vec();
    let (min, max) = get_metics_normalization(&v).unwrap();
    assert_eq!(max, vec![9000, 8000, 7000, 6000, 5000, 4000, 3000, 2000, 1000]);
    assert_eq!(min, vec![100, 200, 300, 400, 500, 600, 700, 800, 900]);
}

#[test]
fn normalization_bounds_reject_wrong_arity() {
    let text = "1,2,3\n4,5,6\n";
    let v = text.as_bytes().to_vec();
    assert_eq!(get_metics_normalization(&v), Err(ParseError::BadRow));
}

#[test]
fn rendering_produces_plain_decimals() {
    assert_eq!(render_u64(0), b"0".to_vec());
    assert_eq!(render_u64(120406), b"120406".to_vec());
    assert_eq!(render_i64(-35), b"-35".to_vec());
    assert_eq!(render_i64(7), b"7".to_vec());
}

#[test]
fn save_row_joins_the_three_columns() {
    let cmd = vec![b"--nstates".to_vec(), b"1".to_vec(), b"--s0".to_vec()];
    let seeds = vec![12i64, 7, 4051];
    let norm = vec![500_000i128, -3, 0];
    let (c, s, n) = save_row(&cmd, &seeds, &norm);
    assert_eq!(c, b"--nstates 1 --s0".to_vec());
    assert_eq!(s, b"12, 7, 4051".to_vec());
    assert_eq!(n, b"500000, -3, 0".to_vec());
}

#[test]
fn real_bot_data_rejects_wrong_header_arity() {
    // a header of 29 columns instead of 30
    let mut text = String::new();
    let head: Vec<String> = (0..29).map(|c| format!("c{}", c)).collect();
    text.push_str(&head.join(","));
    text.push('\n');
    let vals: Vec<String> = (0..30).map(|c| format!("1.{}", c % 10)).collect();
    text.push_str(&vals.join(","));
    text.push('\n');
    let v = text.as_bytes().to_vec();
    assert_eq!(get_real_bot_data(&v, 1), Err(ParseError::BadRow));
}
