use track_csv::{build_track, parse_line, parse_u32, RecordError, TRACK_FIELDS};

fn fields(line: &str) -> Vec<String> {
    line.split(',').map(|f| f.to_string()).collect()
}

const TRIPPY: &str = r#"3EJS5LyekDim1Tf5rBFmZl,"Trippy Mane (ft. Project Pat)",4,0,TRUE,Diplo,77,2812821,moombahton,5QRFnGnBeMGePBKF2xTz5z,"d00mscrvll, Vol. 1",2025-10-31,9,album,1.55"#;

#[test]
fn parse_u32_reads_decimal_digits() {
    assert_eq!(parse_u32(&"0".to_string()), Some(0));
    assert_eq!(parse_u32(&"2812821".to_string()), Some(2812821));
    assert_eq!(parse_u32(&"+17".to_string()), Some(17));
    assert_eq!(parse_u32(&"007".to_string()), Some(7));
    assert_eq!(parse_u32(&"4294967295".to_string()), Some(u32::MAX));
}

#[test]
fn parse_u32_rejects_what_is_no_whole_number() {
    assert_eq!(parse_u32(&"".to_string()), None);
    assert_eq!(parse_u32(&"+".to_string()), None);
    assert_eq!(parse_u32(&"-1".to_string()), None);
    assert_eq!(parse_u32(&"1.5".to_string()), None);
    assert_eq!(parse_u32(&" 1".to_string()), None);
    assert_eq!(parse_u32(&"4294967296".to_string()), None);
    assert_eq!(parse_u32(&"99999999999".to_string()), None);
}

#[test]
fn parse_line_builds_a_track() {
    let t = parse_line(TRIPPY).unwrap();
    assert_eq!(t.track_id, "3EJS5LyekDim1Tf5rBFmZl");
    assert_eq!(t.track_name, "Trippy Mane (ft. Project Pat)");
    assert_eq!(t.track_number, 4);
    assert_eq!(t.track_popularity, 0);
    assert!(t.explicit);
    assert_eq!(t.artist_name, "Diplo");
    assert_eq!(t.artist_popularity, 77);
    assert_eq!(t.artist_followers, 2812821);
    assert_eq!(t.artist_genres, "moombahton");
    assert_eq!(t.album_id, "5QRFnGnBeMGePBKF2xTz5z");
    assert_eq!(t.album_name, "d00mscrvll, Vol. 1");
    assert_eq!(t.album_release_date, "2025-10-31");
    assert_eq!(t.album_total_tracks, 9);
    assert_eq!(t.album_type, "album");
    assert_eq!(t.track_duration_min, "1.55");
}

#[test]
fn only_the_exact_marker_is_explicit() {
    let base = "id,name,1,2,{},artist,3,4,genre,album,an album,2020-01-01,5,single,3.2";
    for (marker, expected) in [("TRUE", true), ("true", false), ("FALSE", false), ("", false), ("TRUE ", false)] {
        let t = build_track(&fields(&base.replace("{}", marker))).unwrap();
        assert_eq!(t.explicit, expected, "marker {:?}", marker);
    }
}

#[test]
fn wrong_field_count_is_an_arity_mismatch() {
    assert_eq!(TRACK_FIELDS, 15);
    assert_eq!(
        build_track(&fields("a,b,c")).err(),
        Some(RecordError::ArityMismatch { found: 3 })
    );
    assert_eq!(
        parse_line("").err(),
        Some(RecordError::ArityMismatch { found: 0 })
    );
}

#[test]
fn bad_number_names_its_field() {
    let line = "id,name,x,2,TRUE,artist,3,4,genre,album,an album,2020-01-01,5,single,3.2";
    assert_eq!(build_track(&fields(line)).err(), Some(RecordError::InvalidNumber { field: 2 }));
    let line = "id,name,1,2,TRUE,artist,3,-4,genre,album,an album,2020-01-01,y,single,3.2";
    assert_eq!(build_track(&fields(line)).err(), Some(RecordError::InvalidNumber { field: 7 }));
    let line = "id,name,1,2,TRUE,artist,3,4,genre,album,an album,2020-01-01,,single,3.2";
    assert_eq!(build_track(&fields(line)).err(), Some(RecordError::InvalidNumber { field: 12 }));
}

#[test]
fn open_quote_in_a_line_is_reported() {
    assert_eq!(parse_line("id,\"name").err(), Some(RecordError::UnterminatedQuote));
}
