use vstd::prelude::*;
use crate::split::{chars_of, fields_view, split_fields, split_row, SplitError};

verus! {

/// The number of fields of a track record.
pub const TRACK_FIELDS: usize = 15;

/// Why a line does not give a track record.
#[derive(Debug, Clone, Copy, PartialEq, Eq, Structural)]
pub enum RecordError {
    /// A field opens with `"` and is never closed.
    UnterminatedQuote,
    /// The line has `found` fields, not `TRACK_FIELDS`.
    ArityMismatch { found: usize },
    /// The field at index `field` should hold a whole number and does not.
    InvalidNumber { field: usize },
}

/// One track, with its album and its main artist.
pub struct Track {
    pub track_id: String,
    pub track_name: String,
    pub track_number: u32,
    pub track_popularity: u32,
    pub explicit: bool,
    pub artist_name: String,
    pub artist_popularity: u32,
    pub artist_followers: u32,
    pub artist_genres: String,
    pub album_id: String,
    pub album_name: String,
    pub album_release_date: String,
    pub album_total_tracks: u32,
    pub album_type: String,
    /// The length in minutes, a decimal fraction, as the data writes it.
    pub track_duration_min: String,
}

pub open spec fn is_digit(c: char) -> bool {
    '0' <= c && c <= '9'
}

/// The number that the decimal digits `d` write.
pub open spec fn decimal_value(d: Seq<char>) -> nat
    decreases d.len(),
{
    if d.len() == 0 {
        0
    } else {
        decimal_value(d.drop_last()) * 10 + (d.last() as nat - '0' as nat) as nat
    }
}

/// `s` without the one `+` that may lead it.
pub open spec fn unsigned_digits(s: Seq<char>) -> Seq<char> {
    if s.len() > 0 && s[0] == '+' {
        s.drop_first()
    } else {
        s
    }
}

pub open spec fn all_digits(d: Seq<char>) -> bool {
    forall|i: int| 0 <= i < d.len() ==> is_digit(#[trigger] d[i])
}

/// The whole number that a field writes: an optional `+`, then one or more
/// decimal digits, of a value that fits in a `u32`.
pub open spec fn u32_field(s: Seq<char>) -> Option<u32> {
    let d = unsigned_digits(s);
    if d.len() > 0 && all_digits(d) && decimal_value(d) <= u32::MAX {
        Some(decimal_value(d) as u32)
    } else {
        None
    }
}

/// The one text that marks a track as explicit.
pub open spec fn explicit_marker() -> Seq<char> {
    seq!['T', 'R', 'U', 'E']
}

/// What is wrong with the fields `fs` as a track record, if anything.
pub open spec fn record_error(fs: Seq<Seq<char>>) -> Option<RecordError> {
    if fs.len() != TRACK_FIELDS {
        Some(RecordError::ArityMismatch { found: fs.len() as usize })
    } else if u32_field(fs[2]) is None {
        Some(RecordError::InvalidNumber { field: 2 })
    } else if u32_field(fs[3]) is None {
        Some(RecordError::InvalidNumber { field: 3 })
    } else if u32_field(fs[6]) is None {
        Some(RecordError::InvalidNumber { field: 6 })
    } else if u32_field(fs[7]) is None {
        Some(RecordError::InvalidNumber { field: 7 })
    } else if u32_field(fs[12]) is None {
        Some(RecordError::InvalidNumber { field: 12 })
    } else {
        None
    }
}

/// `t` is the track that the fields `fs` describe, in the order of the record.
pub open spec fn track_of(t: Track, fs: Seq<Seq<char>>) -> bool {
    &&& fs.len() == TRACK_FIELDS
    &&& t.track_id@ == fs[0]
    &&& t.track_name@ == fs[1]
    &&& u32_field(fs[2]) == Some(t.track_number)
    &&& u32_field(fs[3]) == Some(t.track_popularity)
    &&& t.explicit == (fs[4] == explicit_marker())
    &&& t.artist_name@ == fs[5]
    &&& u32_field(fs[6]) == Some(t.artist_popularity)
    &&& u32_field(fs[7]) == Some(t.artist_followers)
    &&& t.artist_genres@ == fs[8]
    &&& t.album_id@ == fs[9]
    &&& t.album_name@ == fs[10]
    &&& t.album_release_date@ == fs[11]
    &&& u32_field(fs[12]) == Some(t.album_total_tracks)
    &&& t.album_type@ == fs[13]
    &&& t.track_duration_min@ == fs[14]
}

proof fn lemma_decimal_prefix_le(d: Seq<char>, i: int)
    requires
        0 <= i <= d.len(),
    ensures
        decimal_value(d.subrange(0, i)) <= decimal_value(d),
    decreases d.len(),
{
    if i < d.len() {
        lemma_decimal_prefix_le(d.drop_last(), i);
        assert(d.drop_last().subrange(0, i) == d.subrange(0, i));
    } else {
        assert(d.subrange(0, i) == d);
    }
}

/// Reads the whole number that `s` writes (see `u32_field`).
pub fn parse_u32(s: &String) -> (r: Option<u32>)
    ensures
        r == u32_field(s@),
{
    let cs = chars_of(s.as_str());
    let n = cs.len();
    let start: usize = if n > 0 && cs[0] == '+' {
        1
    } else {
        0
    };
    let ghost d = unsigned_digits(s@);
    assert(d == cs@.subrange(start as int, n as int));
    if start == n {
        return None;
    }
    let mut v: u32 = 0;
    let mut i: usize = start;
    while i < n
        invariant
            start <= i <= n == cs.len(),
            d == cs@.subrange(start as int, n as int),
            d == unsigned_digits(s@),
            forall|j: int| start <= j < i ==> is_digit(#[trigger] cs@[j]),
            v as nat == decimal_value(d.subrange(0, i - start)),
        decreases n - i,
    {
        let c = cs[i];
        if !('0' <= c && c <= '9') {
            proof {
                assert(d[i - start] == cs@[i as int]);
                assert(!is_digit(d[i - start]));
            }
            return None;
        }
        let digit: u32 = (c as u32) - ('0' as u32);
        let ghost prefix = d.subrange(0, i - start + 1);
        proof {
            assert(prefix.drop_last() == d.subrange(0, i - start));
            assert(prefix.last() == c);
        }
        if v > (u32::MAX - digit) / 10 {
            proof {
                assert(d[i - start] == cs@[i as int]);
                assert(prefix.last() as nat - '0' as nat == digit as nat);
                assert(v as nat * 10 + digit as nat > u32::MAX) by (nonlinear_arith)
                    requires
                        v > (u32::MAX - digit) / 10,
                        digit <= 9,
                ;
                assert(decimal_value(prefix) > u32::MAX);
                lemma_decimal_prefix_le(d, i - start + 1);
            }
            return None;
        }
        v = v * 10 + digit;
        i = i + 1;
    }
    assert(d.subrange(0, n - start) == d);
    Some(v)
}

/// Whether `s` is the text that marks a track as explicit.
fn is_explicit_marker(s: &String) -> (r: bool)
    ensures
        r == (s@ == explicit_marker()),
{
    let cs = chars_of(s.as_str());
    let r = cs.len() == 4 && cs[0] == 'T' && cs[1] == 'R' && cs[2] == 'U' && cs[3] == 'E';
    proof {
        if cs.len() == 4 {
            assert(r ==> s@ == explicit_marker());
        }
    }
    r
}

/// Builds the track that the fields describe, in the order of the record;
/// fails where there are not `TRACK_FIELDS` of them, or with the index of the
/// first numeric field that holds no whole number.
pub fn build_track(fields: &Vec<String>) -> (r: Result<Track, RecordError>)
    ensures
        match record_error(fields_view(fields@)) {
            Some(e) => r == Err::<Track, RecordError>(e),
            None => r matches Ok(t) && track_of(t, fields_view(fields@)),
        },
{
    let ghost fs = fields_view(fields@);
    if fields.len() != TRACK_FIELDS {
        return Err(RecordError::ArityMismatch { found: fields.len() });
    }
    assert(forall|i: int| 0 <= i < fields.len() ==> fs[i] == (#[trigger] fields@[i])@);
    let track_number = match parse_u32(&fields[2]) {
        Some(v) => v,
        None => return Err(RecordError::InvalidNumber { field: 2 }),
    };
    let track_popularity = match parse_u32(&fields[3]) {
        Some(v) => v,
        None => return Err(RecordError::InvalidNumber { field: 3 }),
    };
    let artist_popularity = match parse_u32(&fields[6]) {
        Some(v) => v,
        None => return Err(RecordError::InvalidNumber { field: 6 }),
    };
    let artist_followers = match parse_u32(&fields[7]) {
        Some(v) => v,
        None => return Err(RecordError::InvalidNumber { field: 7 }),
    };
    let album_total_tracks = match parse_u32(&fields[12]) {
        Some(v) => v,
        None => return Err(RecordError::InvalidNumber { field: 12 }),
    };
    let t = Track {
        track_id: fields[0].clone(),
        track_name: fields[1].clone(),
        track_number,
        track_popularity,
        explicit: is_explicit_marker(&fields[4]),
        artist_name: fields[5].clone(),
        artist_popularity,
        artist_followers,
        artist_genres: fields[8].clone(),
        album_id: fields[9].clone(),
        album_name: fields[10].clone(),
        album_release_date: fields[11].clone(),
        album_total_tracks,
        album_type: fields[13].clone(),
        track_duration_min: fields[14].clone(),
    };
    Ok(t)
}

/// What is wrong with the line `l` as a track record, if anything.
pub open spec fn line_error(l: Seq<char>) -> Option<RecordError> {
    match split_fields(l) {
        Some(fs) => record_error(fs),
        None => Some(RecordError::UnterminatedQuote),
    }
}

/// Splits one line into fields and builds the track that they describe.
pub fn parse_line(line: &str) -> (r: Result<Track, RecordError>)
    ensures
        match line_error(line@) {
            Some(e) => r == Err::<Track, RecordError>(e),
            None => r matches Ok(t) && track_of(t, split_fields(line@)->Some_0),
        },
{
    match split_row(line) {
        Ok(fields) => build_track(&fields),
        Err(SplitError::UnterminatedQuote) => Err(RecordError::UnterminatedQuote),
    }
}

} // verus!
