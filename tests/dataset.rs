use track_csv::{parse_csv, RecordError, RowError};

const HEADER: &str = "track_id,track_name,track_number,track_popularity,explicit,artist_name,artist_popularity,artist_followers,artist_genres,album_id,album_name,album_release_date,album_total_tracks,album_type,track_duration_min";

fn row(id: &str, name: &str, explicit: &str, artist: &str, followers: u32, duration: &str) -> String {
    format!("{id},\"{name}\",1,50,{explicit},{artist},60,{followers},\"pop, rock\",alb,\"An album\",2024-01-01,10,album,{duration}")
}

fn listing() -> String {
    [
        HEADER.to_string(),
        row("t1", "One", "TRUE", "Alpha", 100, "3.1"),
        row("t2", "Two", "FALSE", "Beta", 500, "2.0"),
        row("t3", "Three", "TRUE", "Alpha", 300, "4.5"),
        row("t4", "Four", "TRUE", "Gamma", 500, "2.7"),
        row("t5", "Five", "TRUE", "Delta", 50, "5.0"),
    ]
    .join("\n")
}

#[test]
fn parse_csv_skips_the_header() {
    let csv = parse_csv(&listing()).unwrap();
    assert_eq!(csv.rows.len(), 5);
    assert_eq!(csv.rows[0].track_id, "t1");
    assert_eq!(csv.rows[0].artist_genres, "pop, rock");
    assert_eq!(csv.rows[4].track_duration_min, "5.0");
}

#[test]
fn parse_csv_takes_crlf_and_a_final_newline() {
    let text = format!("{}\r\n{}\r\n", HEADER, row("t1", "One", "TRUE", "Alpha", 100, "3.1"));
    let csv = parse_csv(&text).unwrap();
    assert_eq!(csv.rows.len(), 1);
    assert_eq!(csv.rows[0].track_duration_min, "3.1");
}

#[test]
fn parse_csv_of_header_or_nothing_has_no_rows() {
    assert_eq!(parse_csv("").unwrap().rows.len(), 0);
    assert_eq!(parse_csv(HEADER).unwrap().rows.len(), 0);
}

#[test]
fn parse_csv_reports_the_first_bad_line() {
    let text = format!("{}\n{}\nshort,line\n\"open", HEADER, row("t1", "One", "TRUE", "Alpha", 1, "3.1"));
    assert_eq!(
        parse_csv(&text).err(),
        Some(RowError { line: 3, error: RecordError::ArityMismatch { found: 2 } })
    );
    let text = format!("{}\n\"open", HEADER);
    assert_eq!(
        parse_csv(&text).err(),
        Some(RowError { line: 2, error: RecordError::UnterminatedQuote })
    );
}

#[test]
fn tracks_by_artist_in_listing_order() {
    let csv = parse_csv(&listing()).unwrap();
    assert_eq!(csv.track_names_by_artist(&"Alpha".to_string()), vec!["One", "Three"]);
    assert_eq!(csv.track_names_by_artist(&"Nobody".to_string()), Vec::<String>::new());
}

#[test]
fn top_artists_each_once_most_followers_first() {
    let csv = parse_csv(&listing()).unwrap();
    let top = csv.top_artists_by_followers(3);
    let expected: Vec<(String, u32)> = vec![
        ("Beta".to_string(), 500),
        ("Gamma".to_string(), 500),
        ("Alpha".to_string(), 300),
    ];
    assert_eq!(top, expected);
    assert_eq!(csv.top_artists_by_followers(10).len(), 4);
    assert!(csv.top_artists_by_followers(0).is_empty());
}

#[test]
fn first_matching_tracks_are_truncated() {
    let csv = parse_csv(&listing()).unwrap();
    let long_enough = vec![true, false, true, true, true];
    let found = csv.first_tracks_matching(&long_enough, true, 2);
    let expected: Vec<(String, String)> = vec![
        ("One".to_string(), "Alpha".to_string()),
        ("Three".to_string(), "Alpha".to_string()),
    ];
    assert_eq!(found, expected);
    assert_eq!(csv.first_tracks_matching(&long_enough, true, 10).len(), 4);
    assert!(csv.first_tracks_matching(&long_enough, false, 10).is_empty());
    assert!(csv.first_tracks_matching(&long_enough, true, 0).is_empty());
}
