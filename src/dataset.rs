use vstd::prelude::*;
use crate::record::{line_error, parse_line, track_of, RecordError, Track};
use crate::split::{
    chars_of, fields_view, find_char, index_of, lemma_find_char_bounds, lemma_find_char_first, split_fields,
    text_of,
};

verus! {

/// A line of the text that could not be read as a track.
#[derive(Debug, Clone, Copy, PartialEq, Eq, Structural)]
pub struct RowError {
    /// The number of the line in the text, counting from one.
    pub line: usize,
    pub error: RecordError,
}

/// The tracks of a listing, in the order of its lines.
pub struct CSV {
    pub rows: Vec<Track>,
}

/// The lines of `s`: each ends at a `\n`, which is not part of it, nor is a
/// `\r` right before that `\n`. Nothing follows a final `\n`.
pub open spec fn lines_of(s: Seq<char>) -> Seq<Seq<char>>
    decreases s.len(),
    via lines_of_decreases
{
    if s.len() == 0 {
        seq![]
    } else {
        match find_char(s, '\n') {
            Some(k) => {
                let l = s.subrange(0, k);
                let l = if l.len() > 0 && l.last() == '\r' {
                    l.drop_last()
                } else {
                    l
                };
                seq![l] + lines_of(s.subrange(k + 1, s.len() as int))
            },
            None => seq![s],
        }
    }
}

#[via_fn]
proof fn lines_of_decreases(s: Seq<char>) {
    lemma_find_char_bounds(s, '\n');
}

/// The lines of `s` after the first, which names the columns.
pub open spec fn data_lines(s: Seq<char>) -> Seq<Seq<char>> {
    let ls = lines_of(s);
    if ls.len() == 0 {
        ls
    } else {
        ls.drop_first()
    }
}

/// `rows` are the tracks that the lines `ls` describe, one for each line.
pub open spec fn rows_of(rows: Seq<Track>, ls: Seq<Seq<char>>) -> bool {
    &&& rows.len() == ls.len()
    &&& forall|j: int|
        0 <= j < ls.len() ==> line_error(#[trigger] ls[j]) is None && track_of(
            rows[j],
            split_fields(ls[j])->Some_0,
        )
}

proof fn lemma_lines_step(s: Seq<char>, i: int, k: int, e: int)
    requires
        0 <= i <= k <= s.len(),
        i < s.len(),
        forall|j: int| i <= j < k ==> s[j] != '\n',
        k < s.len() ==> s[k] == '\n',
        e == if k < s.len() && k > i && s[k - 1] == '\r' {
            k - 1
        } else {
            k
        },
    ensures
        lines_of(s.subrange(i, s.len() as int)) == seq![s.subrange(i, e)] + lines_of(
            s.subrange(if k < s.len() { k + 1 } else { k }, s.len() as int),
        ),
{
    let n = s.len() as int;
    let t = s.subrange(i, n);
    assert forall|j: int| 0 <= j < k - i implies #[trigger] t[j] != '\n' by {
        assert(t[j] == s[i + j]);
    }
    lemma_find_char_first(t, '\n', k - i);
    if k < n {
        let l = t.subrange(0, k - i);
        assert(l == s.subrange(i, k));
        if l.len() > 0 && l.last() == '\r' {
            assert(l.drop_last() == s.subrange(i, e));
        }
        assert(t.subrange(k - i + 1, t.len() as int) == s.subrange(k + 1, n));
    } else {
        assert(t == s.subrange(i, e));
        assert(s.subrange(k, n).len() == 0);
        assert(lines_of(s.subrange(k, n)) == Seq::<Seq<char>>::empty());
        assert(seq![t] + Seq::<Seq<char>>::empty() == seq![t]);
    }
}

/// Reads a listing: the first line names the columns, and each later line
/// describes one track. Fails at the first line that describes none, with
/// its number.
pub fn parse_csv(csv: &str) -> (r: Result<CSV, RowError>)
    ensures
        (r is Ok) == (forall|j: int|
            0 <= j < data_lines(csv@).len() ==> line_error(#[trigger] data_lines(csv@)[j]) is None),
        r matches Ok(c) ==> rows_of(c.rows@, data_lines(csv@)),
        r matches Err(e) ==> {
            let j = e.line - 2;
            &&& 0 <= j < data_lines(csv@).len()
            &&& line_error(data_lines(csv@)[j]) == Some(e.error)
            &&& forall|m: int| 0 <= m < j ==> line_error(#[trigger] data_lines(csv@)[m]) is None
        },
{
    let cs = chars_of(csv);
    let n = cs.len();
    let mut rows: Vec<Track> = Vec::new();
    let mut i: usize = 0;
    let mut line_no: usize = 0;
    let ghost mut done: Seq<Seq<char>> = seq![];
    proof {
        assert(cs@.subrange(0, n as int) == cs@);
        assert(done + lines_of(cs@) == lines_of(cs@));
    }
    while i < n
        invariant
            i <= n == cs.len(),
            cs@ == csv@,
            lines_of(csv@) == done + lines_of(cs@.subrange(i as int, n as int)),
            line_no == done.len(),
            line_no <= i,
            rows.len() == if line_no == 0 {
                0
            } else {
                line_no - 1
            },
            forall|j: int|
                1 <= j < done.len() ==> line_error(#[trigger] done[j]) is None && track_of(
                    rows@[j - 1],
                    split_fields(done[j])->Some_0,
                ),
        decreases n - i,
    {
        let k = index_of(&cs, '\n', i);
        let e = if k < n && k > i && cs[k - 1] == '\r' {
            k - 1
        } else {
            k
        };
        proof {
            lemma_lines_step(cs@, i as int, k as int, e as int);
        }
        let line = text_of(&cs, i, e);
        let ghost rest = cs@.subrange(if k < n { k + 1 } else { k as int }, n as int);
        proof {
            assert(done + (seq![line@] + lines_of(rest)) == done.push(line@) + lines_of(rest));
        }
        if line_no > 0 {
            match parse_line(line.as_str()) {
                Ok(t) => rows.push(t),
                Err(error) => {
                    proof {
                        let ls = lines_of(csv@);
                        assert(ls[line_no as int] == line@);
                        assert(data_lines(csv@)[line_no - 1] == line@);
                        assert forall|m: int| 0 <= m < line_no - 1 implies line_error(
                            #[trigger] data_lines(csv@)[m],
                        ) is None by {
                            assert(data_lines(csv@)[m] == done[m + 1]);
                        }
                    }
                    return Err(RowError { line: line_no + 1, error });
                },
            }
        }
        proof {
            done = done.push(line@);
        }
        line_no = line_no + 1;
        i = if k < n {
            k + 1
        } else {
            n
        };
    }
    proof {
        assert(cs@.subrange(n as int, n as int).len() == 0);
        assert(done + Seq::<Seq<char>>::empty() == done);
        assert(lines_of(csv@) == done);
        assert forall|j: int| 0 <= j < data_lines(csv@).len() implies line_error(
            #[trigger] data_lines(csv@)[j],
        ) is None && track_of(rows@[j], split_fields(data_lines(csv@)[j])->Some_0) by {
            assert(data_lines(csv@)[j] == done[j + 1]);
        }
    }
    Ok(CSV { rows })
}

/// The names of the tracks by the artist `name`, in the order of `rows`.
pub open spec fn names_by_artist(rows: Seq<Track>, name: Seq<char>) -> Seq<Seq<char>>
    decreases rows.len(),
{
    if rows.len() == 0 {
        seq![]
    } else {
        let before = names_by_artist(rows.drop_last(), name);
        if rows.last().artist_name@ == name {
            before.push(rows.last().track_name@)
        } else {
            before
        }
    }
}

impl CSV {
    /// The names of the tracks by the artist `name`, in the order of the
    /// listing; empty where the artist has none.
    pub fn track_names_by_artist(&self, name: &String) -> (r: Vec<String>)
        ensures
            fields_view(r@) == names_by_artist(self.rows@, name@),
    {
        let mut r: Vec<String> = Vec::new();
        let mut i: usize = 0;
        while i < self.rows.len()
            invariant
                i <= self.rows.len(),
                fields_view(r@) == names_by_artist(self.rows@.subrange(0, i as int), name@),
            decreases self.rows.len() - i,
        {
            let ghost before = r@;
            let ghost upto = self.rows@.subrange(0, i + 1);
            assert(upto.drop_last() == self.rows@.subrange(0, i as int));
            if self.rows[i].artist_name == *name {
                r.push(self.rows[i].track_name.clone());
                assert(fields_view(r@) == fields_view(before).push(self.rows@[i as int].track_name@));
            }
            i = i + 1;
        }
        assert(self.rows@.subrange(0, i as int) == self.rows@);
        r
    }
}

/// The artist names of `picks`.
pub open spec fn picked_names(picks: Seq<(Seq<char>, u32)>) -> Seq<Seq<char>> {
    picks.map_values(|p: (Seq<char>, u32)| p.0)
}

/// The pairs `r` with their names as sequences of characters.
pub open spec fn pairs_view(r: Seq<(String, u32)>) -> Seq<(Seq<char>, u32)> {
    r.map_values(|p: (String, u32)| (p.0@, p.1))
}

/// Among the first `upto` rows whose artist is not in `taken`, the one whose
/// artist has the most followers; of several such, the first.
pub open spec fn best_row(rows: Seq<Track>, taken: Seq<Seq<char>>, upto: nat) -> Option<int>
    decreases upto,
{
    if upto == 0 {
        None
    } else {
        let i = upto - 1;
        let b = best_row(rows, taken, (upto - 1) as nat);
        if taken.contains(rows[i].artist_name@) {
            b
        } else {
            match b {
                Some(j) => if rows[j].artist_followers >= rows[i].artist_followers {
                    b
                } else {
                    Some(i)
                },
                None => Some(i),
            }
        }
    }
}

/// `picks`, followed by up to `n` more artists of `rows`, each with its
/// follower count: at each step the artist of the best row (see `best_row`)
/// of those not picked yet. This orders the artists by follower count, most
/// first, and those with equal counts as the rows do.
pub open spec fn top_artists(rows: Seq<Track>, n: nat, picks: Seq<(Seq<char>, u32)>) -> Seq<
    (Seq<char>, u32),
>
    decreases n,
{
    if n == 0 {
        picks
    } else {
        match best_row(rows, picked_names(picks), rows.len()) {
            Some(b) => top_artists(
                rows,
                (n - 1) as nat,
                picks.push((rows[b].artist_name@, rows[b].artist_followers)),
            ),
            None => picks,
        }
    }
}

/// Whether the artist `a` is among `picks`.
fn is_picked(picks: &Vec<(String, u32)>, a: &String) -> (r: bool)
    ensures
        r == picked_names(pairs_view(picks@)).contains(a@),
{
    let ghost names = picked_names(pairs_view(picks@));
    let mut i: usize = 0;
    while i < picks.len()
        invariant
            i <= picks.len(),
            names == picked_names(pairs_view(picks@)),
            names.len() == picks.len(),
            forall|j: int| 0 <= j < i ==> #[trigger] names[j] != a@,
        decreases picks.len() - i,
    {
        assert(names[i as int] == picks@[i as int].0@);
        if picks[i].0 == *a {
            return true;
        }
        i = i + 1;
    }
    assert(!names.contains(a@));
    false
}

/// The row of `rows` given by `best_row` over all of them.
fn find_best_row(rows: &Vec<Track>, picks: &Vec<(String, u32)>) -> (r: Option<usize>)
    ensures
        match r {
            Some(b) => best_row(rows@, picked_names(pairs_view(picks@)), rows@.len()) == Some(b as int) && b < rows.len(),
            None => best_row(rows@, picked_names(pairs_view(picks@)), rows@.len()) is None,
        },
{
    let ghost taken = picked_names(pairs_view(picks@));
    let mut best: Option<usize> = None;
    let mut i: usize = 0;
    while i < rows.len()
        invariant
            i <= rows.len(),
            taken == picked_names(pairs_view(picks@)),
            match best {
                Some(b) => best_row(rows@, taken, i as nat) == Some(b as int) && b < i,
                None => best_row(rows@, taken, i as nat) is None,
            },
        decreases rows.len() - i,
    {
        if !is_picked(picks, &rows[i].artist_name) {
            best = match best {
                Some(b) => if rows[b].artist_followers >= rows[i].artist_followers {
                    Some(b)
                } else {
                    Some(i)
                },
                None => Some(i),
            };
        }
        i = i + 1;
    }
    best
}

impl CSV {
    /// Up to `n` artists with the most followers, each once, with the follower
    /// count of its best row, most followers first; artists with equal counts
    /// in the order of the listing.
    pub fn top_artists_by_followers(&self, n: usize) -> (r: Vec<(String, u32)>)
        ensures
            pairs_view(r@) == top_artists(self.rows@, n as nat, seq![]),
    {
        let mut r: Vec<(String, u32)> = Vec::new();
        let mut c: usize = 0;
        let mut finished = false;
        proof {
            assert(pairs_view(r@) == Seq::<(Seq<char>, u32)>::empty());
        }
        while c < n && !finished
            invariant
                c <= n,
                finished ==> top_artists(self.rows@, n as nat, seq![]) == pairs_view(r@),
                !finished ==> top_artists(self.rows@, n as nat, seq![]) == top_artists(
                    self.rows@,
                    (n - c) as nat,
                    pairs_view(r@),
                ),
            decreases n - c + if finished {
                0int
            } else {
                1int
            },
        {
            match find_best_row(&self.rows, &r) {
                Some(b) => {
                    let ghost before = r@;
                    let name = self.rows[b].artist_name.clone();
                    r.push((name, self.rows[b].artist_followers));
                    assert(pairs_view(r@) == pairs_view(before).push(
                        (self.rows@[b as int].artist_name@, self.rows@[b as int].artist_followers),
                    ));
                    c = c + 1;
                },
                None => {
                    finished = true;
                },
            }
        }
        r
    }
}

/// The (track name, artist name) pairs of the rows `i` with `long_enough[i]`
/// whose explicit mark is `explicit`, in the order of `rows`.
pub open spec fn matching_tracks(rows: Seq<Track>, long_enough: Seq<bool>, explicit: bool) -> Seq<
    (Seq<char>, Seq<char>),
>
    decreases rows.len(),
{
    if rows.len() == 0 {
        seq![]
    } else {
        let i = rows.len() - 1;
        let before = matching_tracks(rows.drop_last(), long_enough, explicit);
        if long_enough[i] && rows[i].explicit == explicit {
            before.push((rows[i].track_name@, rows[i].artist_name@))
        } else {
            before
        }
    }
}

/// The pairs `r` with their names as sequences of characters.
pub open spec fn name_pairs_view(r: Seq<(String, String)>) -> Seq<(Seq<char>, Seq<char>)> {
    r.map_values(|p: (String, String)| (p.0@, p.1@))
}

impl CSV {
    /// The first `n` tracks, as (track name, artist name), that are long
    /// enough and whose explicit mark is `explicit`, in the order of the
    /// listing. `long_enough[i]` says whether row `i` lasts long enough.
    pub fn first_tracks_matching(&self, long_enough: &Vec<bool>, explicit: bool, n: usize) -> (r:
        Vec<(String, String)>)
        requires
            long_enough.len() == self.rows.len(),
        ensures
            ({
                let all = matching_tracks(self.rows@, long_enough@, explicit);
                name_pairs_view(r@) == all.take(if n < all.len() { n as int } else { all.len() as int })
            }),
    {
        let ghost all = matching_tracks(self.rows@, long_enough@, explicit);
        let mut r: Vec<(String, String)> = Vec::new();
        let mut i: usize = 0;
        while i < self.rows.len() && r.len() < n
            invariant
                i <= self.rows.len() == long_enough.len(),
                r.len() <= n,
                all == matching_tracks(self.rows@, long_enough@, explicit),
                name_pairs_view(r@) == matching_tracks(self.rows@.subrange(0, i as int), long_enough@, explicit),
            decreases self.rows.len() - i,
        {
            let ghost before = r@;
            let ghost upto = self.rows@.subrange(0, i + 1);
            assert(upto.drop_last() == self.rows@.subrange(0, i as int));
            if long_enough[i] && self.rows[i].explicit == explicit {
                let t = &self.rows[i];
                r.push((t.track_name.clone(), t.artist_name.clone()));
                assert(name_pairs_view(r@) == name_pairs_view(before).push(
                    (t.track_name@, t.artist_name@),
                ));
            }
            i = i + 1;
        }
        proof {
            lemma_matching_prefix(self.rows@, long_enough@, explicit, i as int);
            if r.len() < n {
                assert(self.rows@.subrange(0, i as int) == self.rows@);
            }
        }
        r
    }
}

/// The matches among the first `i` rows start the matches among all of them.
proof fn lemma_matching_prefix(rows: Seq<Track>, long_enough: Seq<bool>, explicit: bool, i: int)
    requires
        0 <= i <= rows.len(),
    ensures
        ({
            let p = matching_tracks(rows.subrange(0, i), long_enough, explicit);
            let all = matching_tracks(rows, long_enough, explicit);
            p.len() <= all.len() && all.take(p.len() as int) == p
        }),
    decreases rows.len(),
{
    if i < rows.len() {
        lemma_matching_prefix(rows.drop_last(), long_enough, explicit, i);
        assert(rows.drop_last().subrange(0, i) == rows.subrange(0, i));
        let p = matching_tracks(rows.subrange(0, i), long_enough, explicit);
        let mid = matching_tracks(rows.drop_last(), long_enough, explicit);
        let all = matching_tracks(rows, long_enough, explicit);
        assert(all.take(p.len() as int) == mid.take(p.len() as int));
    } else {
        assert(rows.subrange(0, i) == rows);
        let all = matching_tracks(rows, long_enough, explicit);
        assert(all.take(all.len() as int) == all);
    }
}

} // verus!
