use vstd::prelude::*;

verus! {

/// The error of the row splitter.
#[derive(Debug, Clone, Copy, PartialEq, Eq, Structural)]
pub enum SplitError {
    /// A field opens with `"` and neither `",` nor a later `"` closes it.
    UnterminatedQuote,
}

/// Index of the first `c` in `t`.
pub open spec fn find_char(t: Seq<char>, c: char) -> Option<int>
    decreases t.len(),
{
    if t.len() == 0 {
        None
    } else if t[0] == c {
        Some(0)
    } else {
        match find_char(t.drop_first(), c) {
            Some(k) => Some(k + 1),
            None => None,
        }
    }
}

/// Index of the first quote that a comma follows directly in `t`.
pub open spec fn find_quote_comma(t: Seq<char>) -> Option<int>
    decreases t.len(),
{
    if t.len() < 2 {
        None
    } else if t[0] == '"' && t[1] == ',' {
        Some(0)
    } else {
        match find_quote_comma(t.drop_first()) {
            Some(k) => Some(k + 1),
            None => None,
        }
    }
}

/// Where the quoted field whose text starts `t` ends: at the first `",`,
/// else at the first `"`.
pub open spec fn closing_quote(t: Seq<char>) -> Option<int> {
    match find_quote_comma(t) {
        Some(k) => Some(k),
        None => find_char(t, '"'),
    }
}

/// `Some(prefix + fs)` where `o` is `Some(fs)`.
pub open spec fn prepend(
    prefix: Seq<Seq<char>>,
    o: Option<Seq<Seq<char>>>,
) -> Option<Seq<Seq<char>>> {
    match o {
        Some(fs) => Some(prefix + fs),
        None => None,
    }
}

/// The fields of the line `s`, or `None` where a quoted field is left open.
///
/// A field is quoted when its first character is `"`; it then runs to the
/// first `",` of the rest of the line, or failing that to its first `"`, and
/// the quotes are not part of its value. Any other field runs to the next
/// comma or to the end of the line. Nothing is left once the line is used
/// up, so an empty line has no fields and a final comma adds none.
pub open spec fn split_fields(s: Seq<char>) -> Option<Seq<Seq<char>>>
    decreases s.len(),
    via split_fields_decreases
{
    if s.len() == 0 {
        Some(seq![])
    } else if s[0] == '"' {
        let t = s.drop_first();
        match closing_quote(t) {
            Some(k) => {
                let after = t.subrange(k + 1, t.len() as int);
                let rest = if after.len() > 0 && after[0] == ',' {
                    after.drop_first()
                } else {
                    after
                };
                prepend(seq![t.subrange(0, k)], split_fields(rest))
            },
            None => None,
        }
    } else {
        match find_char(s, ',') {
            Some(k) => prepend(seq![s.subrange(0, k)], split_fields(s.subrange(k + 1, s.len() as int))),
            None => Some(seq![s]),
        }
    }
}

pub(crate) proof fn lemma_find_char_bounds(t: Seq<char>, c: char)
    ensures
        match find_char(t, c) {
            Some(k) => 0 <= k < t.len() && t[k] == c && forall|j: int| 0 <= j < k ==> #[trigger] t[j] != c,
            None => forall|j: int| 0 <= j < t.len() ==> #[trigger] t[j] != c,
        },
    decreases t.len(),
{
    if t.len() > 0 && t[0] != c {
        lemma_find_char_bounds(t.drop_first(), c);
        assert forall|j: int| 1 <= j < t.len() implies t[j] == t.drop_first()[j - 1] by {}
    }
}

proof fn lemma_find_quote_comma_bounds(t: Seq<char>)
    ensures
        find_quote_comma(t) matches Some(k) ==> 0 <= k && k + 1 < t.len() && t[k] == '"' && t[k
            + 1] == ',',
    decreases t.len(),
{
    if t.len() >= 2 && !(t[0] == '"' && t[1] == ',') {
        lemma_find_quote_comma_bounds(t.drop_first());
    }
}

#[via_fn]
proof fn split_fields_decreases(s: Seq<char>) {
    if s.len() > 0 {
        if s[0] == '"' {
            lemma_find_quote_comma_bounds(s.drop_first());
            lemma_find_char_bounds(s.drop_first(), '"');
        } else {
            lemma_find_char_bounds(s, ',');
        }
    }
}

pub(crate) proof fn lemma_find_char_first(t: Seq<char>, c: char, k: int)
    requires
        0 <= k <= t.len(),
        forall|j: int| 0 <= j < k ==> t[j] != c,
        k < t.len() ==> t[k] == c,
    ensures
        find_char(t, c) == if k < t.len() {
            Some(k)
        } else {
            None
        },
    decreases t.len(),
{
    if t.len() > 0 && k > 0 {
        assert(t[0] != c);
        lemma_find_char_first(t.drop_first(), c, k - 1);
    }
}

proof fn lemma_find_quote_comma_first(t: Seq<char>, k: int)
    requires
        0 <= k <= t.len(),
        forall|j: int| 0 <= j < k && j + 1 < t.len() ==> !(#[trigger] t[j] == '"' && t[j + 1] == ','),
        k < t.len() ==> k + 1 < t.len() && t[k] == '"' && t[k + 1] == ',',
    ensures
        find_quote_comma(t) == if k < t.len() {
            Some(k)
        } else {
            None
        },
    decreases t.len(),
{
    if t.len() >= 2 && k > 0 {
        assert(!(t[0] == '"' && t[1] == ','));
        lemma_find_quote_comma_first(t.drop_first(), k - 1);
    }
}

/// Relies on `String::push`: the character is appended to the text.
pub assume_specification[ String::push ](s: &mut String, ch: char)
    ensures
        final(s)@ == old(s)@.push(ch),
;

/// The characters of `line`, in order.
pub(crate) fn chars_of(line: &str) -> (r: Vec<char>)
    ensures
        r@ == line@,
{
    let mut r: Vec<char> = Vec::new();
    for c in it: line.chars()
        invariant
            r@ == it.seq().take(it.index() as int),
    {
        r.push(c);
    }
    r
}

/// The text of `cs` from `from` up to `to`.
pub(crate) fn text_of(cs: &Vec<char>, from: usize, to: usize) -> (r: String)
    requires
        from <= to <= cs.len(),
    ensures
        r@ == cs@.subrange(from as int, to as int),
{
    let mut r = String::new();
    let mut i: usize = from;
    while i < to
        invariant
            from <= i <= to <= cs.len(),
            r@ == cs@.subrange(from as int, i as int),
        decreases to - i,
    {
        r.push(cs[i]);
        assert(cs@.subrange(from as int, i + 1) == cs@.subrange(from as int, i as int).push(cs@[i as int]));
        i = i + 1;
    }
    r
}

/// Index of the first `c` in `cs` at or after `from`; the length of `cs`
/// where there is none.
pub(crate) fn index_of(cs: &Vec<char>, c: char, from: usize) -> (k: usize)
    requires
        from <= cs.len(),
    ensures
        from <= k <= cs.len(),
        forall|j: int| from <= j < k ==> cs@[j] != c,
        k < cs.len() ==> cs@[k as int] == c,
{
    let mut k: usize = from;
    while k < cs.len() && cs[k] != c
        invariant
            from <= k <= cs.len(),
            forall|j: int| from <= j < k ==> cs@[j] != c,
        decreases cs.len() - k,
    {
        k = k + 1;
    }
    k
}

/// Index of the first `"` that a comma follows directly in `cs`, at or after
/// `from`; the length of `cs` where there is none.
fn index_of_quote_comma(cs: &Vec<char>, from: usize) -> (k: usize)
    requires
        from <= cs.len(),
    ensures
        from <= k <= cs.len(),
        forall|j: int| from <= j < k && j + 1 < cs.len() ==> !(#[trigger] cs@[j] == '"' && cs@[j + 1] == ','),
        k < cs.len() ==> k + 1 < cs.len() && cs@[k as int] == '"' && cs@[k + 1] == ',',
{
    let mut k: usize = from;
    while cs.len() - k >= 2 && !(cs[k] == '"' && cs[k + 1] == ',')
        invariant
            from <= k <= cs.len(),
            forall|j: int| from <= j < k && j + 1 < cs.len() ==> !(#[trigger] cs@[j] == '"' && cs@[j + 1] == ','),
        decreases cs.len() - k,
    {
        k = k + 1;
    }
    if cs.len() - k >= 2 {
        k
    } else {
        cs.len()
    }
}

/// The values of the fields `r`, as sequences of characters.
pub open spec fn fields_view(r: Seq<String>) -> Seq<Seq<char>> {
    r.map_values(|f: String| f@)
}

proof fn lemma_prepend_push(a: Seq<Seq<char>>, f: Seq<char>, o: Option<Seq<Seq<char>>>)
    ensures
        prepend(a, prepend(seq![f], o)) == prepend(a.push(f), o),
{
    if let Some(fs) = o {
        assert(a + (seq![f] + fs) == a.push(f) + fs);
    }
}

proof fn lemma_unquoted_step(l: Seq<char>, i: int, k: int)
    requires
        0 <= i <= k <= l.len(),
        i < l.len(),
        l[i] != '"',
        forall|j: int| i <= j < k ==> l[j] != ',',
        k < l.len() ==> l[k] == ',',
    ensures
        split_fields(l.subrange(i, l.len() as int)) == if k < l.len() {
            prepend(seq![l.subrange(i, k)], split_fields(l.subrange(k + 1, l.len() as int)))
        } else {
            Some(seq![l.subrange(i, k)])
        },
{
    let s = l.subrange(i, l.len() as int);
    assert forall|j: int| 0 <= j < k - i implies #[trigger] s[j] != ',' by {
        assert(s[j] == l[i + j]);
    }
    lemma_find_char_first(s, ',', k - i);
    assert(s.subrange(0, k - i) == l.subrange(i, k));
    if k < l.len() {
        assert(s.subrange(k - i + 1, s.len() as int) == l.subrange(k + 1, l.len() as int));
    }
}

/// Where the field is left open (`k` is the length of `l`) there are no
/// fields; else the field ends at `k` and the rest of the line starts at `next`.
proof fn lemma_quoted_step(l: Seq<char>, i: int, q: int, k: int, next: int)
    requires
        0 <= i < l.len(),
        l[i] == '"',
        i + 1 <= q <= l.len(),
        forall|j: int| i + 1 <= j < q && j + 1 < l.len() ==> !(#[trigger] l[j] == '"' && l[j + 1] == ','),
        q < l.len() ==> q + 1 < l.len() && l[q] == '"' && l[q + 1] == ',',
        q < l.len() ==> k == q,
        q == l.len() ==> {
            &&& i + 1 <= k <= l.len()
            &&& forall|j: int| i + 1 <= j < k ==> l[j] != '"'
            &&& k < l.len() ==> l[k] == '"'
        },
        next == if k + 1 < l.len() && l[k + 1] == ',' {
            k + 2
        } else {
            k + 1
        },
    ensures
        split_fields(l.subrange(i, l.len() as int)) == if k == l.len() {
            None
        } else {
            prepend(seq![l.subrange(i + 1, k)], split_fields(l.subrange(next, l.len() as int)))
        },
{
    let n = l.len() as int;
    let s = l.subrange(i, n);
    let t = s.drop_first();
    assert(t == l.subrange(i + 1, n));
    assert forall|j: int| 0 <= j < q - (i + 1) && j + 1 < t.len() implies !(#[trigger] t[j] == '"'
        && t[j + 1] == ',') by {
        assert(t[j] == l[i + 1 + j]);
        assert(t[j + 1] == l[i + 1 + j + 1]);
    }
    lemma_find_quote_comma_first(t, q - (i + 1));
    if q == n {
        assert forall|j: int| 0 <= j < k - (i + 1) implies #[trigger] t[j] != '"' by {
            assert(t[j] == l[i + 1 + j]);
        }
        lemma_find_char_first(t, '"', k - (i + 1));
    }
    if k < n {
        let kk = k - (i + 1);
        assert(t.subrange(0, kk) == l.subrange(i + 1, k));
        let after = t.subrange(kk + 1, t.len() as int);
        assert(after == l.subrange(k + 1, n));
        if after.len() > 0 && after[0] == ',' {
            assert(after.drop_first() == l.subrange(next, n));
        } else {
            assert(after == l.subrange(next, n));
        }
    }
}

/// Splits one line of text into its fields (see `split_fields`), or fails
/// with `UnterminatedQuote` where a quoted field is never closed.
pub fn split_row(line: &str) -> (r: Result<Vec<String>, SplitError>)
    ensures
        match split_fields(line@) {
            Some(fs) => r matches Ok(v) && fields_view(v@) == fs,
            None => r == Err::<Vec<String>, SplitError>(SplitError::UnterminatedQuote),
        },
{
    let cs = chars_of(line);
    let n = cs.len();
    let mut out: Vec<String> = Vec::new();
    let mut i: usize = 0;
    proof {
        assert(line@.subrange(0, n as int) == line@);
        assert(fields_view(out@) == Seq::<Seq<char>>::empty());
        if let Some(fs) = split_fields(line@) {
            assert(Seq::<Seq<char>>::empty() + fs == fs);
        }
    }
    while i < n
        invariant
            i <= n == cs.len(),
            cs@ == line@,
            split_fields(line@) == prepend(
                fields_view(out@),
                split_fields(line@.subrange(i as int, n as int)),
            ),
        decreases n - i,
    {
        let ghost before = out@;
        let ghost at = i as int;
        let start: usize;
        let end: usize;
        if cs[i] == '"' {
            start = i + 1;
            let q = index_of_quote_comma(&cs, start);
            end = if q < n {
                q
            } else {
                index_of(&cs, '"', start)
            };
            if end == n {
                proof {
                    lemma_quoted_step(line@, at, q as int, end as int, end + 1);
                }
                return Err(SplitError::UnterminatedQuote);
            }
            i = end + 1;
            if i < n && cs[i] == ',' {
                i = i + 1;
            }
            proof {
                lemma_quoted_step(line@, at, q as int, end as int, i as int);
            }
        } else {
            start = i;
            end = index_of(&cs, ',', i);
            i = if end < n {
                end + 1
            } else {
                n
            };
            proof {
                lemma_unquoted_step(line@, at, end as int);
            }
        }
        let field = text_of(&cs, start, end);
        out.push(field);
        proof {
            assert(fields_view(out@) == fields_view(before).push(field@));
            if end == n {
                assert(line@.subrange(n as int, n as int) == Seq::<char>::empty());
            }
            lemma_prepend_push(fields_view(before), field@, split_fields(line@.subrange(i as int, n as int)));
        }
    }
    proof {
        assert(line@.subrange(n as int, n as int) == Seq::<char>::empty());
        assert(fields_view(out@) + Seq::<Seq<char>>::empty() == fields_view(out@));
    }
    Ok(out)
}

/// The fields `fs` written one after another, with a comma between each two.
pub open spec fn join_commas(fs: Seq<Seq<char>>) -> Seq<char>
    decreases fs.len(),
{
    if fs.len() == 0 {
        seq![]
    } else if fs.len() == 1 {
        fs[0]
    } else {
        fs[0] + seq![','] + join_commas(fs.drop_first())
    }
}

/// The number of commas in `s`.
pub open spec fn count_commas(s: Seq<char>) -> nat
    decreases s.len(),
{
    if s.len() == 0 {
        0
    } else {
        (if s[0] == ',' {
            1nat
        } else {
            0nat
        }) + count_commas(s.drop_first())
    }
}

/// `s` holds no character `c`.
pub open spec fn free_of(s: Seq<char>, c: char) -> bool {
    forall|j: int| 0 <= j < s.len() ==> #[trigger] s[j] != c
}

proof fn lemma_count_commas_add(a: Seq<char>, b: Seq<char>)
    ensures
        count_commas(a + b) == count_commas(a) + count_commas(b),
    decreases a.len(),
{
    if a.len() > 0 {
        assert((a + b).drop_first() == a.drop_first() + b);
        lemma_count_commas_add(a.drop_first(), b);
    } else {
        assert(a + b == b);
    }
}

proof fn lemma_count_commas_free(a: Seq<char>)
    requires
        free_of(a, ','),
    ensures
        count_commas(a) == 0,
    decreases a.len(),
{
    if a.len() > 0 {
        lemma_count_commas_free(a.drop_first());
    }
}

/// A line without quotes is cut at every comma: its fields hold no comma,
/// written with commas between them they give the line back, and there is
/// one field more than there are commas. Left out are the empty line and a
/// line that ends with a comma, as nothing follows their last comma and so
/// no field stands there.
pub proof fn lemma_split_without_quotes(s: Seq<char>)
    requires
        free_of(s, '"'),
        s.len() > 0,
        s.last() != ',',
    ensures
        split_fields(s) matches Some(fs) && join_commas(fs) == s && fs.len() == count_commas(s) + 1
            && forall|i: int| 0 <= i < fs.len() ==> free_of(#[trigger] fs[i], ','),
    decreases s.len(),
{
    assert(s[0] != '"');
    lemma_find_char_bounds(s, ',');
    match find_char(s, ',') {
        Some(k) => {
            let head = s.subrange(0, k);
            let rest = s.subrange(k + 1, s.len() as int);
            assert(k + 1 < s.len());
            assert(rest.last() == s.last());
            assert(free_of(rest, '"')) by {
                assert forall|j: int| 0 <= j < rest.len() implies #[trigger] rest[j] != '"' by {
                    assert(rest[j] == s[k + 1 + j]);
                }
            }
            lemma_split_without_quotes(rest);
            let gs = split_fields(rest)->Some_0;
            let fs = seq![head] + gs;
            assert(split_fields(s) == Some(fs));
            assert(fs.drop_first() == gs);
            assert(s == head + seq![','] + rest);
            lemma_count_commas_free(head);
            lemma_count_commas_add(head + seq![','], rest);
            lemma_count_commas_add(head, seq![',']);
            assert(count_commas(seq![',']) == 1) by {
                let one = seq![','];
                assert(one.drop_first() == Seq::<char>::empty());
                assert(count_commas(one.drop_first()) == 0);
            }
            assert forall|i: int| 0 <= i < fs.len() implies free_of(#[trigger] fs[i], ',') by {
                if i > 0 {
                    assert(fs[i] == gs[i - 1]);
                }
            }
        },
        None => {
            lemma_count_commas_free(s);
        },
    }
}

/// A quoted field whose text holds no `",` and that a comma follows is one
/// field whose value is its text, commas and all, and the fields of the rest
/// of the line follow it.
pub proof fn lemma_quoted_field_then_comma(f: Seq<char>, rest: Seq<char>)
    requires
        free_of_quote_comma(f),
    ensures
        split_fields(seq!['"'] + f + seq!['"', ','] + rest) == prepend(seq![f], split_fields(rest)),
{
    let s = seq!['"'] + f + seq!['"', ','] + rest;
    let t = s.drop_first();
    let m = f.len() as int;
    assert(t == f + seq!['"', ','] + rest);
    assert forall|j: int| 0 <= j < m && j + 1 < t.len() implies !(#[trigger] t[j] == '"' && t[j + 1]
        == ',') by {
        assert(t[j] == f[j]);
        if j + 1 < m {
            assert(t[j + 1] == f[j + 1]);
        } else {
            assert(t[j + 1] == '"');
        }
    }
    lemma_find_quote_comma_first(t, m);
    assert(t.subrange(0, m) == f);
    let after = t.subrange(m + 1, t.len() as int);
    assert(after[0] == ',');
    assert(after.drop_first() == rest);
}

/// A quoted field that ends the line and holds no quote is one field whose
/// value is its text, commas and all.
pub proof fn lemma_quoted_field_at_end(f: Seq<char>)
    requires
        free_of(f, '"'),
    ensures
        split_fields(seq!['"'] + f + seq!['"']) == Some(seq![f]),
{
    let s = seq!['"'] + f + seq!['"'];
    let t = s.drop_first();
    let m = f.len() as int;
    assert(t == f + seq!['"']);
    assert forall|j: int| 0 <= j < t.len() && j + 1 < t.len() implies !(#[trigger] t[j] == '"'
        && t[j + 1] == ',') by {
        assert(t[j] == f[j]);
    }
    lemma_find_quote_comma_first(t, t.len() as int);
    assert forall|j: int| 0 <= j < m implies #[trigger] t[j] != '"' by {
        assert(t[j] == f[j]);
    }
    lemma_find_char_first(t, '"', m);
    assert(t.subrange(0, m) == f);
    assert(t.subrange(m + 1, t.len() as int).len() == 0);
    assert(split_fields(t.subrange(m + 1, t.len() as int)) == Some(Seq::<Seq<char>>::empty()));
    assert(seq![f] + Seq::<Seq<char>>::empty() == seq![f]);
}

/// The field `f` as it is written in a line: in quotes where it holds a comma.
pub open spec fn quote_if_comma(f: Seq<char>) -> Seq<char> {
    if free_of(f, ',') {
        f
    } else {
        seq!['"'] + f + seq!['"']
    }
}

/// The line that writes the fields `fs`, quoting those that hold a comma.
pub open spec fn join_quoted(fs: Seq<Seq<char>>) -> Seq<char> {
    join_commas(fs.map_values(|f: Seq<char>| quote_if_comma(f)))
}

/// `f` holds no quote that a comma follows directly.
pub open spec fn free_of_quote_comma(f: Seq<char>) -> bool {
    forall|j: int| 0 <= j && j + 1 < f.len() ==> !(#[trigger] f[j] == '"' && f[j + 1] == ',')
}

/// A field that reads back unchanged after `quote_if_comma`, where another
/// field follows it: with a comma, it holds no `",`; without one, it does not
/// start with a quote.
pub open spec fn writable_field(f: Seq<char>) -> bool {
    if free_of(f, ',') {
        f.len() > 0 ==> f[0] != '"'
    } else {
        free_of_quote_comma(f)
    }
}

/// Fields that a line can carry and give back unchanged: each is writable,
/// and the last is not empty (nothing stands after a final comma) and, where
/// it holds a comma, holds no quote (its closing quote would be taken for the
/// first one).
pub open spec fn writable_fields(fs: Seq<Seq<char>>) -> bool {
    &&& forall|i: int| 0 <= i < fs.len() ==> writable_field(#[trigger] fs[i])
    &&& fs.len() > 0 ==> fs.last().len() > 0 && (!free_of(fs.last(), ',') ==> free_of(
        fs.last(),
        '"',
    ))
}

proof fn lemma_join_quoted_fields(fs: Seq<Seq<char>>)
    requires
        writable_fields(fs),
    ensures
        split_fields(join_quoted(fs)) == Some(fs),
    decreases fs.len(),
{
    let qs = fs.map_values(|f: Seq<char>| quote_if_comma(f));
    if fs.len() == 0 {
        assert(join_quoted(fs) == Seq::<char>::empty());
        assert(fs == Seq::<Seq<char>>::empty());
    } else {
        let f = fs[0];
        let gs = fs.drop_first();
        assert(writable_field(f));
        assert(fs == seq![f] + gs);
        if fs.len() == 1 {
            assert(join_quoted(fs) == quote_if_comma(f));
            if free_of(f, ',') {
                assert(f.len() > 0);
                assert(f[0] != '"');
                lemma_find_char_first(f, ',', f.len() as int);
            } else {
                lemma_quoted_field_at_end(f);
            }
        } else {
            assert(writable_fields(gs)) by {
                assert forall|i: int| 0 <= i < gs.len() implies writable_field(#[trigger] gs[i]) by {
                    assert(gs[i] == fs[i + 1]);
                }
                assert(gs.last() == fs.last());
            }
            lemma_join_quoted_fields(gs);
            let rest = join_quoted(gs);
            assert(qs.drop_first() == gs.map_values(|f: Seq<char>| quote_if_comma(f)));
            assert(join_quoted(fs) == quote_if_comma(f) + seq![','] + rest);
            if free_of(f, ',') {
                let line = f + seq![','] + rest;
                assert(line[0] != '"') by {
                    if f.len() > 0 {
                        assert(line[0] == f[0]);
                    }
                }
                assert forall|j: int| 0 <= j < f.len() implies #[trigger] line[j] != ',' by {
                    assert(line[j] == f[j]);
                }
                lemma_find_char_first(line, ',', f.len() as int);
                assert(line.subrange(0, f.len() as int) == f);
                assert(line.subrange(f.len() as int + 1, line.len() as int) == rest);
            } else {
                assert(seq!['"'] + f + seq!['"'] + seq![','] + rest == seq!['"'] + f + seq!['"', ',']
                    + rest);
                lemma_quoted_field_then_comma(f, rest);
            }
        }
    }
}

/// Writing the fields of a line back with commas between them, and quotes
/// round those that hold a comma, gives a line with the same fields. Left out
/// are the lines whose fields are not `writable_fields`: those with a quote
/// where it would be read as the start or the end of a quoted field, and
/// those whose last field is empty.
pub proof fn lemma_round_trip(s: Seq<char>)
    requires
        split_fields(s) matches Some(fs) && writable_fields(fs),
    ensures
        split_fields(join_quoted(split_fields(s)->Some_0)) == split_fields(s),
{
    lemma_join_quoted_fields(split_fields(s)->Some_0);
}

} // verus!
