use track_csv::{split_row, SplitError};

#[test]
fn test_split_row() {
    let input = "1,2,name,age,my"; // Simple case with only commas
    let expected = vec!["1", "2", "name", "age", "my"];
    assert_eq!(split_row(input).unwrap(), expected);

    let input = "1,2,name,age,\"my, name\""; // Column with string in quotes
    let expected = vec!["1", "2", "name", "age", "my, name"];
    assert_eq!(split_row(input).unwrap(), expected);

    let input = r#"3EJS5LyekDim1Tf5rBFmZl,"Trippy Mane (ft. Project Pat)",4,0,TRUE,Diplo,77,2812821,moombahton,5QRFnGnBeMGePBKF2xTz5z,"d00mscrvll, Vol. 1",2025-10-31,9,album,1.55"#;
    let expected = vec![
        "3EJS5LyekDim1Tf5rBFmZl",
        "Trippy Mane (ft. Project Pat)",
        "4",
        "0",
        "TRUE",
        "Diplo",
        "77",
        "2812821",
        "moombahton",
        "5QRFnGnBeMGePBKF2xTz5z",
        "d00mscrvll, Vol. 1",
        "2025-10-31",
        "9",
        "album",
        "1.55",
    ];
    assert_eq!(split_row(input).unwrap(), expected);

    let input = r#""nigerian drill, alté, afro adura, afrobeats, afrobeat, afroswing",3ARxksm8CspGeAaZZB1v2w,"LET'S GO!",2025-10-28,1,single,2.4"#;
    let expected = vec![
        "nigerian drill, alté, afro adura, afrobeats, afrobeat, afroswing",
        "3ARxksm8CspGeAaZZB1v2w",
        "LET'S GO!",
        "2025-10-28",
        "1",
        "single",
        "2.4",
    ];
    assert_eq!(split_row(input).unwrap(), expected);
}

#[test]
fn unterminated_quote_is_an_error() {
    assert_eq!(split_row("a,\"never closed"), Err(SplitError::UnterminatedQuote));
    assert_eq!(split_row("\""), Err(SplitError::UnterminatedQuote));
}

#[test]
fn empty_line_has_no_fields() {
    assert_eq!(split_row("").unwrap(), Vec::<String>::new());
}

#[test]
fn consecutive_commas_give_empty_fields() {
    assert_eq!(split_row("a,,b").unwrap(), vec!["a", "", "b"]);
    assert_eq!(split_row(",a").unwrap(), vec!["", "a"]);
}

#[test]
fn final_comma_adds_no_field() {
    assert_eq!(split_row("a,b,").unwrap(), vec!["a", "b"]);
    assert_eq!(split_row("a,,").unwrap(), vec!["a", ""]);
}

#[test]
fn line_without_quotes_is_cut_at_every_comma() {
    let line = "x,y z,,w";
    let fields = split_row(line).unwrap();
    assert_eq!(fields, vec!["x", "y z", "", "w"]);
    assert_eq!(fields.len(), line.matches(',').count() + 1);
    assert_eq!(fields.join(","), line);
}

#[test]
fn quote_inside_a_field_is_plain_text() {
    assert_eq!(split_row("ab\"c,d").unwrap(), vec!["ab\"c", "d"]);
}

#[test]
fn quoted_field_keeps_its_commas() {
    assert_eq!(split_row("\"\",x").unwrap(), vec!["", "x"]);
    assert_eq!(split_row("\"a,b,c\"").unwrap(), vec!["a,b,c"]);
    assert_eq!(split_row("\",,\",z").unwrap(), vec![",,", "z"]);
}

#[test]
fn closing_quote_comma_is_preferred_over_bare_quote() {
    assert_eq!(split_row("\"a\"b\",c").unwrap(), vec!["a\"b", "c"]);
    assert_eq!(split_row("\"a\"b").unwrap(), vec!["a", "b"]);
}

#[test]
fn genre_list_then_plain_fields() {
    let line = "\"pop, rock, indie\",id7,42";
    assert_eq!(split_row(line).unwrap(), vec!["pop, rock, indie", "id7", "42"]);
}

#[test]
fn rejoined_fields_split_the_same() {
    let line = "a,\"b, c\",d";
    let fields = split_row(line).unwrap();
    let rejoined: Vec<String> = fields
        .iter()
        .map(|f| if f.contains(',') { format!("\"{}\"", f) } else { f.clone() })
        .collect();
    assert_eq!(split_row(&rejoined.join(",")).unwrap(), fields);
}
