//! Text primitives on sequences of characters, each with a specification:
//! the searching, replacing, trimming and splitting that the manual readers
//! apply to each line.

use vstd::prelude::*;

verus! {

// ---------------------------------------------------------------------------
// Specifications
// ---------------------------------------------------------------------------

/// `pat` stands in `s` from index `i` on.
pub open spec fn occurs_at(s: Seq<char>, pat: Seq<char>, i: int) -> bool {
    0 <= i && i + pat.len() <= s.len() && s.subrange(i, i + pat.len()) == pat
}

/// `pat` occurs somewhere in `s` (what `str::find(pat).is_some()` answers).
pub open spec fn has_substring(s: Seq<char>, pat: Seq<char>) -> bool {
    exists|i: int| #[trigger] occurs_at(s, pat, i)
}

/// `s` with every occurrence of `pat` replaced by `to`, occurrences taken from
/// the left and not overlapping (what `str::replace` returns for a non-empty
/// pattern).
pub open spec fn replaced(s: Seq<char>, pat: Seq<char>, to: Seq<char>) -> Seq<char>
    decreases s.len(),
{
    if pat.len() == 0 || s.len() == 0 {
        s
    } else if s.len() >= pat.len() && s.take(pat.len() as int) == pat {
        to + replaced(s.skip(pat.len() as int), pat, to)
    } else {
        seq![s[0]] + replaced(s.drop_first(), pat, to)
    }
}

/// The characters with the Unicode `White_Space` property
/// (what `char::is_whitespace` answers).
pub open spec fn is_space(c: char) -> bool {
    let u = c as u32;
    ||| u == 0x20
    ||| 0x09 <= u <= 0x0d
    ||| u == 0x85
    ||| u == 0xa0
    ||| u == 0x1680
    ||| 0x2000 <= u <= 0x200a
    ||| u == 0x2028
    ||| u == 0x2029
    ||| u == 0x202f
    ||| u == 0x205f
    ||| u == 0x3000
}

/// `s` without its leading white space.
pub open spec fn trimmed_start(s: Seq<char>) -> Seq<char>
    decreases s.len(),
{
    if s.len() > 0 && is_space(s[0]) {
        trimmed_start(s.drop_first())
    } else {
        s
    }
}

/// `s` without its trailing white space.
pub open spec fn trimmed_end(s: Seq<char>) -> Seq<char>
    decreases s.len(),
{
    if s.len() > 0 && is_space(s.last()) {
        trimmed_end(s.drop_last())
    } else {
        s
    }
}

/// `s` without its leading and trailing white space (what `str::trim` returns).
pub open spec fn trimmed(s: Seq<char>) -> Seq<char> {
    trimmed_end(trimmed_start(s))
}

/// `s` without its first `n` characters (what `chars().skip(n)` yields).
pub open spec fn skipped(s: Seq<char>, n: nat) -> Seq<char> {
    if n >= s.len() {
        seq![]
    } else {
        s.skip(n as int)
    }
}

/// The longest prefix of `s` that holds none of `stops`
/// (what `chars().take_while(|x| x is not in stops)` yields).
pub open spec fn prefix_before(s: Seq<char>, stops: Seq<char>) -> Seq<char>
    decreases s.len(),
{
    if s.len() == 0 || stops.contains(s[0]) {
        seq![]
    } else {
        seq![s[0]] + prefix_before(s.drop_first(), stops)
    }
}

/// `s` from its first character that is one of `stops` on, empty if there is
/// none (what `chars().skip_while(|x| x is not in stops)` yields).
pub open spec fn suffix_from(s: Seq<char>, stops: Seq<char>) -> Seq<char>
    decreases s.len(),
{
    if s.len() == 0 || stops.contains(s[0]) {
        s
    } else {
        suffix_from(s.drop_first(), stops)
    }
}

/// The pieces of `s` between the occurrences of `pat`, taken from the left
/// and not overlapping; there is always at least one piece
/// (what `str::split(pat)` yields for a non-empty pattern).
pub open spec fn split_on(s: Seq<char>, pat: Seq<char>) -> Seq<Seq<char>>
    decreases s.len(),
{
    if pat.len() == 0 || s.len() == 0 {
        seq![s]
    } else if s.len() >= pat.len() && s.take(pat.len() as int) == pat {
        seq![seq![]] + split_on(s.skip(pat.len() as int), pat)
    } else {
        let rest = split_on(s.drop_first(), pat);
        rest.update(0, seq![s[0]] + rest[0])
    }
}

/// The non-empty pieces of a sequence of pieces.
pub open spec fn non_empty(pieces: Seq<Seq<char>>) -> Seq<Seq<char>> {
    pieces.filter(|w: Seq<char>| w.len() > 0)
}

/// The words of `s`: its non-empty pieces between spaces.
pub open spec fn words_of(s: Seq<char>) -> Seq<Seq<char>> {
    non_empty(split_on(s, seq![' ']))
}

/// The views of a sequence of character vectors.
pub open spec fn texts(v: Seq<Vec<char>>) -> Seq<Seq<char>> {
    v.map_values(|t: Vec<char>| t@)
}

/// The views of a sequence of strings.
pub open spec fn strings(v: Seq<String>) -> Seq<Seq<char>> {
    v.map_values(|t: String| t@)
}

// ---------------------------------------------------------------------------
// Lemmas
// ---------------------------------------------------------------------------

/// A split always has a first piece.
pub proof fn lemma_split_on_len(s: Seq<char>, pat: Seq<char>)
    ensures
        split_on(s, pat).len() >= 1,
    decreases s.len(),
{
    if pat.len() == 0 || s.len() == 0 {
    } else if s.len() >= pat.len() && s.take(pat.len() as int) == pat {
        lemma_split_on_len(s.skip(pat.len() as int), pat);
    } else {
        lemma_split_on_len(s.drop_first(), pat);
    }
}

/// The pieces of a split put back together with the pattern between them.
pub open spec fn joined(pieces: Seq<Seq<char>>, sep: Seq<char>) -> Seq<char>
    decreases pieces.len(),
{
    if pieces.len() == 0 {
        seq![]
    } else if pieces.len() == 1 {
        pieces[0]
    } else {
        pieces[0] + sep + joined(pieces.drop_first(), sep)
    }
}

/// Joining pieces whose first one is longer by a prefix gives a text longer
/// by that prefix.
proof fn lemma_joined_first(pieces: Seq<Seq<char>>, sep: Seq<char>, p: Seq<char>)
    requires
        pieces.len() >= 1,
    ensures
        joined(pieces.update(0, p + pieces[0]), sep) == p + joined(pieces, sep),
{
    let q = pieces.update(0, p + pieces[0]);
    if pieces.len() == 1 {
    } else {
        assert(q.drop_first() =~= pieces.drop_first());
        assert(p + pieces[0] + sep + joined(pieces.drop_first(), sep) =~= p + (pieces[0] + sep
            + joined(pieces.drop_first(), sep)));
    }
}

/// Splitting a text at a pattern and joining the pieces with that pattern
/// gives the text back.
pub proof fn lemma_split_join(s: Seq<char>, pat: Seq<char>)
    requires
        pat.len() > 0,
    ensures
        joined(split_on(s, pat), pat) == s,
    decreases s.len(),
{
    if s.len() == 0 {
    } else if s.len() >= pat.len() && s.take(pat.len() as int) == pat {
        let rest = s.skip(pat.len() as int);
        lemma_split_join(rest, pat);
        lemma_split_on_len(rest, pat);
        let pieces = seq![seq![]] + split_on(rest, pat);
        assert(pieces.drop_first() =~= split_on(rest, pat));
        assert(Seq::<char>::empty() + pat + rest =~= s);
    } else {
        let rest = split_on(s.drop_first(), pat);
        lemma_split_join(s.drop_first(), pat);
        lemma_split_on_len(s.drop_first(), pat);
        lemma_joined_first(rest, pat, seq![s[0]]);
        assert(seq![s[0]] + s.drop_first() =~= s);
    }
}

/// No piece of a split at a single character holds that character, and every
/// character of a piece is one of the text.
pub proof fn lemma_split_pieces(s: Seq<char>, c: char)
    ensures
        forall|i: int|
            0 <= i < split_on(s, seq![c]).len() ==> !(#[trigger] split_on(s, seq![c])[i]).contains(c),
        forall|i: int, y: char|
            0 <= i < split_on(s, seq![c]).len() && #[trigger] split_on(s, seq![c])[i].contains(y)
                ==> s.contains(y),
    decreases s.len(),
{
    let pat = seq![c];
    if s.len() == 0 {
    } else if s.len() >= pat.len() && s.take(pat.len() as int) == pat {
        let rest = s.skip(1);
        lemma_split_pieces(rest, c);
        let pieces = split_on(s, pat);
        assert(pieces == seq![seq![]] + split_on(rest, pat));
        assert forall|i: int, y: char|
            0 <= i < pieces.len() && #[trigger] pieces[i].contains(y) implies s.contains(y) by {
            if i > 0 {
                assert(pieces[i] == split_on(rest, pat)[i - 1]);
                let k = choose|k: int| 0 <= k < rest.len() && rest[k] == y;
                assert(s[k + 1] == y);
            }
        }
        assert forall|i: int| 0 <= i < pieces.len() implies !(#[trigger] pieces[i]).contains(c) by {
            if i > 0 {
                assert(pieces[i] == split_on(rest, pat)[i - 1]);
            }
        }
    } else {
        let t = s.drop_first();
        lemma_split_pieces(t, c);
        lemma_split_on_len(t, pat);
        let rest = split_on(t, pat);
        let pieces = split_on(s, pat);
        assert(s[0] != c) by {
            if s[0] == c {
                assert(s.take(1) =~= pat);
            }
        }
        assert forall|i: int, y: char|
            0 <= i < pieces.len() && #[trigger] pieces[i].contains(y) implies s.contains(y) by {
            let k = choose|k: int| 0 <= k < pieces[i].len() && pieces[i][k] == y;
            if i == 0 && k == 0 {
                assert(s[0] == y);
            } else if i == 0 {
                assert(rest[0][k - 1] == y);
                assert(rest[0].contains(y));
                let j = choose|j: int| 0 <= j < t.len() && t[j] == y;
                assert(s[j + 1] == y);
            } else {
                assert(rest[i].contains(y));
                let j = choose|j: int| 0 <= j < t.len() && t[j] == y;
                assert(s[j + 1] == y);
            }
        }
        assert forall|i: int| 0 <= i < pieces.len() implies !(#[trigger] pieces[i]).contains(c) by {
            if i == 0 {
                if pieces[0].contains(c) {
                    let k = choose|k: int| 0 <= k < pieces[0].len() && pieces[0][k] == c;
                    if k > 0 {
                        assert(rest[0][k - 1] == c);
                    }
                }
            }
        }
    }
}

/// Every word is a non-empty text without spaces whose characters are all
/// characters of the text it comes from.
pub proof fn lemma_words(s: Seq<char>)
    ensures
        forall|i: int| 0 <= i < words_of(s).len() ==> (#[trigger] words_of(s)[i]).len() > 0,
        forall|i: int| 0 <= i < words_of(s).len() ==> !(#[trigger] words_of(s)[i]).contains(' '),
        forall|i: int, y: char|
            0 <= i < words_of(s).len() && #[trigger] words_of(s)[i].contains(y) ==> s.contains(y),
{
    let pieces = split_on(s, seq![' ']);
    let pred = |w: Seq<char>| w.len() > 0;
    lemma_split_pieces(s, ' ');
    let ws = words_of(s);
    assert forall|i: int| 0 <= i < ws.len() implies {
        &&& (#[trigger] ws[i]).len() > 0
        &&& !ws[i].contains(' ')
        &&& forall|y: char| ws[i].contains(y) ==> s.contains(y)
    } by {
        assert(ws.contains(ws[i]));
        pieces.lemma_filter_contains_rev(pred, ws[i]);
        let j = choose|j: int| 0 <= j < pieces.len() && pieces[j] == ws[i];
        assert(pieces[j] == ws[i]);
    }
}

/// A character that neither the text nor the replacement holds, or that is
/// the whole pattern and not in the replacement, is not in the replaced text;
/// every other character of the replaced text is one of the text or of the
/// replacement.
pub proof fn lemma_replaced_chars(s: Seq<char>, pat: Seq<char>, to: Seq<char>, y: char)
    requires
        pat.len() > 0,
    ensures
        replaced(s, pat, to).contains(y) ==> s.contains(y) || to.contains(y),
        !to.contains(y) && (pat == seq![y] || !s.contains(y)) ==> !replaced(s, pat, to).contains(y),
    decreases s.len(),
{
    let r = replaced(s, pat, to);
    if s.len() == 0 {
    } else if s.len() >= pat.len() && s.take(pat.len() as int) == pat {
        let rest = s.skip(pat.len() as int);
        lemma_replaced_chars(rest, pat, to, y);
        let rr = replaced(rest, pat, to);
        assert(r == to + rr);
        if r.contains(y) && !to.contains(y) {
            let k = choose|k: int| 0 <= k < r.len() && r[k] == y;
            assert(rr[k - to.len()] == y);
            assert(rr.contains(y));
            if rest.contains(y) {
                let j = choose|j: int| 0 <= j < rest.len() && rest[j] == y;
                assert(s[j + pat.len()] == y);
            }
        }
        if !s.contains(y) {
            assert forall|j: int| 0 <= j < rest.len() implies rest[j] != y by {
                assert(rest[j] == s[j + pat.len()]);
            }
        }
        if !to.contains(y) && (pat == seq![y] || !s.contains(y)) && r.contains(y) {
            let k = choose|k: int| 0 <= k < r.len() && r[k] == y;
            assert(rr[k - to.len()] == y);
            assert(rr.contains(y));
        }
    } else {
        let t = s.drop_first();
        lemma_replaced_chars(t, pat, to, y);
        let rr = replaced(t, pat, to);
        assert(r == seq![s[0]] + rr);
        if r.contains(y) {
            let k = choose|k: int| 0 <= k < r.len() && r[k] == y;
            if k == 0 {
                assert(s[0] == y);
            } else {
                assert(rr[k - 1] == y);
                assert(rr.contains(y));
                if t.contains(y) {
                    let j = choose|j: int| 0 <= j < t.len() && t[j] == y;
                    assert(s[j + 1] == y);
                }
            }
        }
        if !s.contains(y) {
            assert forall|j: int| 0 <= j < t.len() implies t[j] != y by {
                assert(t[j] == s[j + 1]);
            }
        }
        if pat == seq![y] {
            assert(s[0] != y) by {
                if s[0] == y {
                    assert(s.take(1) =~= pat);
                }
            }
        }
        if !to.contains(y) && (pat == seq![y] || !s.contains(y)) && r.contains(y) {
            let k = choose|k: int| 0 <= k < r.len() && r[k] == y;
            if k == 0 {
                assert(s[0] == y);
            } else {
                assert(rr[k - 1] == y);
                assert(rr.contains(y));
            }
        }
    }
}

/// Every character of a trimmed text is one of the text.
pub proof fn lemma_trimmed_chars(s: Seq<char>, y: char)
    ensures
        trimmed(s).contains(y) ==> s.contains(y),
{
    lemma_trimmed_start_chars(s, y);
    lemma_trimmed_end_chars(trimmed_start(s), y);
}

proof fn lemma_trimmed_start_chars(s: Seq<char>, y: char)
    ensures
        trimmed_start(s).contains(y) ==> s.contains(y),
    decreases s.len(),
{
    if s.len() > 0 && is_space(s[0]) {
        let t = s.drop_first();
        lemma_trimmed_start_chars(t, y);
        if t.contains(y) {
            let j = choose|j: int| 0 <= j < t.len() && t[j] == y;
            assert(s[j + 1] == y);
        }
    }
}

/// Every character of a text trimmed at its end is one of the text.
pub proof fn lemma_trimmed_end_chars(s: Seq<char>, y: char)
    ensures
        trimmed_end(s).contains(y) ==> s.contains(y),
    decreases s.len(),
{
    if s.len() > 0 && is_space(s.last()) {
        let t = s.drop_last();
        lemma_trimmed_end_chars(t, y);
        if t.contains(y) {
            let j = choose|j: int| 0 <= j < t.len() && t[j] == y;
            assert(s[j] == y);
        }
    }
}

/// Removing a character that a text does not hold changes nothing.
pub proof fn lemma_replaced_absent(s: Seq<char>, c: char)
    requires
        !s.contains(c),
    ensures
        replaced(s, seq![c], seq![]) == s,
    decreases s.len(),
{
    if s.len() > 0 {
        let t = s.drop_first();
        assert(s[0] != c);
        assert(s.take(1) != seq![c]) by {
            if s.take(1) == seq![c] {
                assert(s.take(1)[0] == s[0]);
            }
        }
        assert forall|j: int| 0 <= j < t.len() implies t[j] != c by {
            assert(t[j] == s[j + 1]);
        }
        lemma_replaced_absent(t, c);
        assert(seq![s[0]] + t =~= s);
    }
}

/// A text without leading white space is its own `trimmed_start`.
proof fn lemma_trimmed_start_first(s: Seq<char>)
    ensures
        trimmed_start(s).len() == 0 || !is_space(trimmed_start(s)[0]),
    decreases s.len(),
{
    if s.len() > 0 && is_space(s[0]) {
        lemma_trimmed_start_first(s.drop_first());
    }
}

/// `trimmed_end` of a text is a prefix of it that is empty or ends with a
/// character that is not white space.
pub proof fn lemma_trimmed_end_prefix(s: Seq<char>)
    ensures
        trimmed_end(s).len() <= s.len(),
        trimmed_end(s) == s.take(trimmed_end(s).len() as int),
        trimmed_end(s).len() == 0 || !is_space(trimmed_end(s).last()),
    decreases s.len(),
{
    if s.len() > 0 && is_space(s.last()) {
        lemma_trimmed_end_prefix(s.drop_last());
        assert(s.drop_last().take(trimmed_end(s).len() as int) =~= s.take(
            trimmed_end(s).len() as int,
        ));
    } else {
        assert(s.take(s.len() as int) =~= s);
    }
}

/// Trimming a trimmed text changes nothing.
pub proof fn lemma_trimmed_twice(s: Seq<char>)
    ensures
        trimmed(trimmed(s)) == trimmed(s),
{
    let u = trimmed_start(s);
    let t = trimmed_end(u);
    lemma_trimmed_start_first(s);
    lemma_trimmed_end_prefix(u);
    if t.len() > 0 {
        assert(t[0] == u[0]);
    }
    assert(trimmed_start(t) == t);
}

/// Every character of a text without its first characters is one of the
/// text.
pub proof fn lemma_skipped_chars(s: Seq<char>, n: nat, y: char)
    ensures
        skipped(s, n).contains(y) ==> s.contains(y),
{
    if skipped(s, n).contains(y) {
        let j = choose|j: int| 0 <= j < skipped(s, n).len() && skipped(s, n)[j] == y;
        assert(s[j + n] == y);
    }
}

/// Every character of `prefix_before(s, stops)` is one of `s` and none of
/// `stops`.
pub proof fn lemma_prefix_before_chars(s: Seq<char>, stops: Seq<char>, y: char)
    ensures
        prefix_before(s, stops).contains(y) ==> s.contains(y) && !stops.contains(y),
    decreases s.len(),
{
    if s.len() == 0 || stops.contains(s[0]) {
    } else {
        let t = s.drop_first();
        lemma_prefix_before_chars(t, stops, y);
        let r = prefix_before(s, stops);
        if r.contains(y) {
            let k = choose|k: int| 0 <= k < r.len() && r[k] == y;
            if k > 0 {
                assert(prefix_before(t, stops)[k - 1] == y);
                assert(prefix_before(t, stops).contains(y));
                let j = choose|j: int| 0 <= j < t.len() && t[j] == y;
                assert(s[j + 1] == y);
            }
        }
    }
}

/// Where `pat` occurs at `i`, the characters of `s` from `i` on are those of
/// `pat`.
pub proof fn lemma_occurs_chars(s: Seq<char>, pat: Seq<char>, i: int)
    requires
        occurs_at(s, pat, i),
    ensures
        forall|j: int| 0 <= j < pat.len() ==> s[i + j] == pat[j],
{
    assert forall|j: int| 0 <= j < pat.len() implies s[i + j] == pat[j] by {
        assert(s.subrange(i, i + pat.len())[j] == s[i + j]);
    }
}

/// A text that does not hold the first character of a pattern does not hold
/// the pattern.
pub proof fn lemma_no_first_char(s: Seq<char>, pat: Seq<char>)
    requires
        pat.len() > 0,
        !s.contains(pat[0]),
    ensures
        !has_substring(s, pat),
{
    if has_substring(s, pat) {
        let i = choose|i: int| occurs_at(s, pat, i);
        lemma_occurs_chars(s, pat, i);
        assert(s[i + 0] == pat[0]);
    }
}

/// Replacing in `x + z`, where no occurrence of the pattern starts inside
/// `x`, keeps `x` and replaces in `z`.
pub proof fn lemma_replaced_keeps(x: Seq<char>, z: Seq<char>, pat: Seq<char>, to: Seq<char>)
    requires
        pat.len() > 0,
        forall|i: int| 0 <= i < x.len() ==> !occurs_at(x + z, pat, i),
    ensures
        replaced(x + z, pat, to) == x + replaced(z, pat, to),
    decreases x.len(),
{
    let s = x + z;
    if x.len() == 0 {
        assert(s =~= z);
        assert(x + replaced(z, pat, to) =~= replaced(z, pat, to));
    } else {
        assert(!(s.len() >= pat.len() && s.take(pat.len() as int) == pat)) by {
            if s.len() >= pat.len() && s.take(pat.len() as int) == pat {
                assert(s.subrange(0, pat.len() as int) =~= s.take(pat.len() as int));
                assert(occurs_at(s, pat, 0));
            }
        }
        let t = x.drop_first();
        assert(s.drop_first() =~= t + z);
        assert forall|i: int| 0 <= i < t.len() implies !occurs_at(t + z, pat, i) by {
            if occurs_at(t + z, pat, i) {
                assert((t + z).subrange(i, i + pat.len()) =~= s.subrange(i + 1, i + 1 + pat.len()));
                assert(occurs_at(s, pat, i + 1));
            }
        }
        lemma_replaced_keeps(t, z, pat, to);
        assert(seq![s[0]] + (t + replaced(z, pat, to)) =~= x + replaced(z, pat, to));
    }
}

/// Replacing in a text that starts with the pattern gives the replacement,
/// then what replacing gives in the rest.
pub proof fn lemma_replaced_match(y: Seq<char>, pat: Seq<char>, to: Seq<char>)
    requires
        pat.len() > 0,
    ensures
        replaced(pat + y, pat, to) == to + replaced(y, pat, to),
{
    let s = pat + y;
    assert(s.take(pat.len() as int) =~= pat);
    assert(s.skip(pat.len() as int) =~= y);
}

/// Replacing a pattern that a text does not hold changes nothing.
pub proof fn lemma_replaced_none(s: Seq<char>, pat: Seq<char>, to: Seq<char>)
    requires
        pat.len() > 0,
        !has_substring(s, pat),
    ensures
        replaced(s, pat, to) == s,
{
    let e = Seq::<char>::empty();
    assert(s + e =~= s);
    lemma_replaced_keeps(s, e, pat, to);
}

/// Splitting `x + z`, where no occurrence of the pattern starts inside `x`,
/// gives the pieces of `z` with `x` put before the first one.
pub proof fn lemma_split_keeps(x: Seq<char>, z: Seq<char>, pat: Seq<char>)
    requires
        pat.len() > 0,
        forall|i: int| 0 <= i < x.len() ==> !occurs_at(x + z, pat, i),
    ensures
        split_on(x + z, pat) == split_on(z, pat).update(0, x + split_on(z, pat)[0]),
    decreases x.len(),
{
    let s = x + z;
    lemma_split_on_len(z, pat);
    if x.len() == 0 {
        assert(s =~= z);
        assert(x + split_on(z, pat)[0] =~= split_on(z, pat)[0]);
        assert(split_on(z, pat).update(0, split_on(z, pat)[0]) =~= split_on(z, pat));
    } else {
        assert(!(s.len() >= pat.len() && s.take(pat.len() as int) == pat)) by {
            if s.len() >= pat.len() && s.take(pat.len() as int) == pat {
                assert(s.subrange(0, pat.len() as int) =~= s.take(pat.len() as int));
                assert(occurs_at(s, pat, 0));
            }
        }
        let t = x.drop_first();
        assert(s.drop_first() =~= t + z);
        assert forall|i: int| 0 <= i < t.len() implies !occurs_at(t + z, pat, i) by {
            if occurs_at(t + z, pat, i) {
                assert((t + z).subrange(i, i + pat.len()) =~= s.subrange(i + 1, i + 1 + pat.len()));
                assert(occurs_at(s, pat, i + 1));
            }
        }
        lemma_split_keeps(t, z, pat);
        let sz = split_on(z, pat);
        assert(seq![s[0]] + (t + sz[0]) =~= x + sz[0]);
        assert(sz.update(0, t + sz[0]).update(0, x + sz[0]) =~= sz.update(0, x + sz[0]));
    }
}

/// Splitting a text that starts with the pattern gives an empty first piece,
/// then the pieces of the rest.
pub proof fn lemma_split_match(y: Seq<char>, pat: Seq<char>)
    requires
        pat.len() > 0,
    ensures
        split_on(pat + y, pat) == seq![Seq::<char>::empty()] + split_on(y, pat),
{
    let s = pat + y;
    assert(s.take(pat.len() as int) =~= pat);
    assert(s.skip(pat.len() as int) =~= y);
}

/// A text that does not hold the pattern is its own single piece.
pub proof fn lemma_split_none(s: Seq<char>, pat: Seq<char>)
    requires
        pat.len() > 0,
        !has_substring(s, pat),
    ensures
        split_on(s, pat) == seq![s],
{
    let e = Seq::<char>::empty();
    assert(s + e =~= s);
    lemma_split_keeps(s, e, pat);
    assert(split_on(e, pat) == seq![e]);
    assert(seq![e].update(0, s + e) =~= seq![s]);
}

/// The prefix before `stops` of `a + b`, where `a` holds none of `stops`,
/// is `a` and the prefix before `stops` of `b`.
pub proof fn lemma_prefix_before_keeps(a: Seq<char>, b: Seq<char>, stops: Seq<char>)
    requires
        forall|i: int| 0 <= i < a.len() ==> !stops.contains(a[i]),
    ensures
        prefix_before(a + b, stops) == a + prefix_before(b, stops),
    decreases a.len(),
{
    if a.len() == 0 {
        assert(a + b =~= b);
        assert(a + prefix_before(b, stops) =~= prefix_before(b, stops));
    } else {
        let s = a + b;
        let t = a.drop_first();
        assert(s[0] == a[0]);
        assert(s.drop_first() =~= t + b);
        assert forall|i: int| 0 <= i < t.len() implies !stops.contains(t[i]) by {
            assert(t[i] == a[i + 1]);
        }
        lemma_prefix_before_keeps(t, b, stops);
        assert(seq![s[0]] + (t + prefix_before(b, stops)) =~= a + prefix_before(b, stops));
    }
}

/// Trimming the end of `p + r`, where `p` ends with a character that is not
/// white space, keeps `p` and trims the end of `r`.
pub proof fn lemma_trimmed_end_keeps(p: Seq<char>, r: Seq<char>)
    requires
        p.len() > 0,
        !is_space(p.last()),
    ensures
        trimmed_end(p + r) == p + trimmed_end(r),
    decreases r.len(),
{
    let s = p + r;
    if r.len() == 0 {
        assert(s =~= p);
        assert(p + r =~= p);
    } else {
        assert(s.last() == r.last());
        if is_space(r.last()) {
            assert(s.drop_last() =~= p + r.drop_last());
            lemma_trimmed_end_keeps(p, r.drop_last());
        }
    }
}

/// A text that starts with a character that is not white space is its own
/// `trimmed_start`.
pub proof fn lemma_trimmed_start_keeps(s: Seq<char>)
    requires
        s.len() > 0,
        !is_space(s[0]),
    ensures
        trimmed_start(s) == s,
{
}

/// A character of `x + y` is one of `x` or one of `y`.
pub proof fn lemma_concat_contains(x: Seq<char>, y: Seq<char>, c: char)
    ensures
        (x + y).contains(c) == (x.contains(c) || y.contains(c)),
{
    let s = x + y;
    if s.contains(c) {
        let k = choose|k: int| 0 <= k < s.len() && s[k] == c;
        if k < x.len() {
            assert(x[k] == c);
        } else {
            assert(y[k - x.len()] == c);
        }
    }
    if x.contains(c) {
        let k = choose|k: int| 0 <= k < x.len() && x[k] == c;
        assert(s[k] == c);
    }
    if y.contains(c) {
        let k = choose|k: int| 0 <= k < y.len() && y[k] == c;
        assert(s[k + x.len()] == c);
    }
}

/// No occurrence of a pattern starts inside a text `x` that does not hold
/// the pattern's first character, whatever follows `x`.
pub proof fn lemma_no_occurrence_in(x: Seq<char>, z: Seq<char>, pat: Seq<char>)
    requires
        pat.len() > 0,
        !x.contains(pat[0]),
    ensures
        forall|i: int| 0 <= i < x.len() ==> !occurs_at(x + z, pat, i),
{
    assert forall|i: int| 0 <= i < x.len() implies !occurs_at(x + z, pat, i) by {
        if occurs_at(x + z, pat, i) {
            lemma_occurs_chars(x + z, pat, i);
            assert((x + z)[i + 0] == pat[0]);
            assert((x + z)[i] == x[i]);
        }
    }
}

/// Replacing a pattern by itself changes nothing.
pub proof fn lemma_replaced_same(s: Seq<char>, pat: Seq<char>)
    ensures
        replaced(s, pat, pat) == s,
    decreases s.len(),
{
    if pat.len() == 0 || s.len() == 0 {
    } else if s.len() >= pat.len() && s.take(pat.len() as int) == pat {
        lemma_replaced_same(s.skip(pat.len() as int), pat);
        assert(pat + s.skip(pat.len() as int) =~= s);
    } else {
        lemma_replaced_same(s.drop_first(), pat);
        assert(seq![s[0]] + s.drop_first() =~= s);
    }
}

/// Replacing in a text whose first character does not start the pattern
/// keeps that character first.
pub proof fn lemma_replaced_first(s: Seq<char>, pat: Seq<char>, to: Seq<char>)
    requires
        pat.len() > 0,
        s.len() > 0,
        s[0] != pat[0],
    ensures
        replaced(s, pat, to) == seq![s[0]] + replaced(s.drop_first(), pat, to),
{
    if s.len() >= pat.len() && s.take(pat.len() as int) == pat {
        assert(s.take(pat.len() as int)[0] == s[0]);
    }
}

/// A text of white space only is empty once its end is trimmed.
pub proof fn lemma_trimmed_end_all_space(r: Seq<char>)
    requires
        forall|i: int| 0 <= i < r.len() ==> is_space(#[trigger] r[i]),
    ensures
        trimmed_end(r) == Seq::<char>::empty(),
    decreases r.len(),
{
    if r.len() > 0 {
        assert(is_space(r[r.len() - 1]));
        let t = r.drop_last();
        assert forall|i: int| 0 <= i < t.len() implies is_space(#[trigger] t[i]) by {
            assert(t[i] == r[i]);
        }
        lemma_trimmed_end_all_space(t);
    }
}

/// The suffix from `stops` of `x + y`, where `x` holds none of `stops`, is
/// that of `y`.
pub proof fn lemma_suffix_from_skips(x: Seq<char>, y: Seq<char>, stops: Seq<char>)
    requires
        forall|i: int| 0 <= i < x.len() ==> !stops.contains(#[trigger] x[i]),
    ensures
        suffix_from(x + y, stops) == suffix_from(y, stops),
    decreases x.len(),
{
    if x.len() == 0 {
        assert(x + y =~= y);
    } else {
        let t = x.drop_first();
        assert((x + y)[0] == x[0]);
        assert((x + y).drop_first() =~= t + y);
        assert forall|i: int| 0 <= i < t.len() implies !stops.contains(#[trigger] t[i]) by {
            assert(t[i] == x[i + 1]);
        }
        lemma_suffix_from_skips(t, y, stops);
    }
}

// ---------------------------------------------------------------------------
// Executable functions
// ---------------------------------------------------------------------------

/// Appends one character to a `String` (`String::push`).
#[verifier::external_body]
pub(crate) fn push_char(s: &mut String, c: char)
    ensures
        final(s)@ == old(s)@.push(c),
{
    s.push(c);
}

/// The characters of `s`, in order.
pub fn chars_of(s: &str) -> (res: Vec<char>)
    ensures
        res@ == s@,
{
    let n = s.unicode_len();
    let mut res: Vec<char> = Vec::new();
    let mut i: usize = 0;
    while i < n
        invariant
            n == s@.len(),
            i <= n,
            res@ == s@.subrange(0, i as int),
        decreases n - i,
    {
        res.push(s.get_char(i));
        i = i + 1;
    }
    res
}

/// The `String` made of the characters of `t`.
pub fn to_string(t: &[char]) -> (res: String)
    ensures
        res@ == t@,
{
    let mut res = String::new();
    let mut i: usize = 0;
    while i < t.len()
        invariant
            i <= t@.len(),
            res@ == t@.subrange(0, i as int),
        decreases t@.len() - i,
    {
        push_char(&mut res, t[i]);
        i = i + 1;
    }
    res
}

/// The text of no character.
pub fn none() -> (res: Vec<char>)
    ensures
        res@ == Seq::<char>::empty(),
{
    Vec::new()
}

/// The text of one character.
pub fn one(a: char) -> (res: Vec<char>)
    ensures
        res@ == seq![a],
{
    let mut v = Vec::new();
    v.push(a);
    assert(v@ =~= seq![a]);
    v
}

/// The text of two characters.
pub fn two(a: char, b: char) -> (res: Vec<char>)
    ensures
        res@ == seq![a, b],
{
    let mut v = one(a);
    v.push(b);
    assert(v@ =~= seq![a, b]);
    v
}

/// The text of three characters.
pub fn three(a: char, b: char, c: char) -> (res: Vec<char>)
    ensures
        res@ == seq![a, b, c],
{
    let mut v = two(a, b);
    v.push(c);
    assert(v@ =~= seq![a, b, c]);
    v
}

/// The text of four characters.
pub fn four(a: char, b: char, c: char, d: char) -> (res: Vec<char>)
    ensures
        res@ == seq![a, b, c, d],
{
    let mut v = three(a, b, c);
    v.push(d);
    assert(v@ =~= seq![a, b, c, d]);
    v
}

/// Whether `pat` stands in `s` from index `i` on.
pub fn matches_at(s: &[char], pat: &[char], i: usize) -> (res: bool)
    ensures
        res == occurs_at(s@, pat@, i as int),
{
    if i > s.len() || pat.len() > s.len() - i {
        return false;
    }
    let mut k: usize = 0;
    while k < pat.len()
        invariant
            i + pat@.len() <= s@.len(),
            s@.len() == s.len(),
            k <= pat@.len(),
            forall|j: int| 0 <= j < k ==> s@[i + j] == pat@[j],
        decreases pat@.len() - k,
    {
        if s[i + k] != pat[k] {
            assert(s@.subrange(i as int, i + pat@.len())[k as int] != pat@[k as int]);
            return false;
        }
        k = k + 1;
    }
    assert(s@.subrange(i as int, i + pat@.len()) =~= pat@);
    true
}

/// Whether `pat` occurs in `s`.
pub fn find(s: &[char], pat: &[char]) -> (res: bool)
    ensures
        res == has_substring(s@, pat@),
{
    let mut i: usize = 0;
    while i < s.len()
        invariant
            i <= s@.len(),
            forall|j: int| 0 <= j < i ==> !occurs_at(s@, pat@, j),
        decreases s@.len() - i,
    {
        if matches_at(s, pat, i) {
            return true;
        }
        i = i + 1;
    }
    if matches_at(s, pat, i) {
        return true;
    }
    assert forall|j: int| !occurs_at(s@, pat@, j) by {
        if 0 <= j <= i {
        }
    }
    false
}

/// `s` with every occurrence of `pat` replaced by `to`.
pub fn replace(s: &[char], pat: &[char], to: &[char]) -> (res: Vec<char>)
    requires
        pat@.len() > 0,
    ensures
        res@ == replaced(s@, pat@, to@),
{
    let mut out: Vec<char> = Vec::new();
    let mut i: usize = 0;
    assert(s@.skip(0) =~= s@);
    assert(out@ + replaced(s@, pat@, to@) =~= replaced(s@, pat@, to@));
    while i < s.len()
        invariant
            pat@.len() > 0,
            i <= s@.len(),
            out@ + replaced(s@.skip(i as int), pat@, to@) == replaced(s@, pat@, to@),
        decreases s@.len() - i,
    {
        let ghost rest = s@.skip(i as int);
        if matches_at(s, pat, i) {
            assert(rest.take(pat@.len() as int) =~= pat@);
            assert(rest.skip(pat@.len() as int) =~= s@.skip(i + pat@.len()));
            let mut k: usize = 0;
            let ghost before = out@;
            while k < to.len()
                invariant
                    k <= to@.len(),
                    out@ == before + to@.subrange(0, k as int),
                decreases to@.len() - k,
            {
                out.push(to[k]);
                k = k + 1;
            }
            assert(to@.subrange(0, to@.len() as int) =~= to@);
            assert(out@ + replaced(s@.skip(i + pat@.len()), pat@, to@)
                =~= before + replaced(rest, pat@, to@));
            i = i + pat.len();
        } else {
            assert(!(rest.len() >= pat@.len() && rest.take(pat@.len() as int) == pat@)) by {
                if rest.len() >= pat@.len() && rest.take(pat@.len() as int) == pat@ {
                    assert(s@.subrange(i as int, i + pat@.len()) =~= rest.take(pat@.len() as int));
                }
            }
            assert(rest.drop_first() =~= s@.skip(i + 1));
            let ghost before = out@;
            out.push(s[i]);
            assert(out@ + replaced(s@.skip(i + 1), pat@, to@)
                =~= before + replaced(rest, pat@, to@));
            i = i + 1;
        }
    }
    assert(s@.skip(i as int) =~= Seq::<char>::empty());
    assert(out@ + Seq::<char>::empty() =~= out@);
    out
}

/// Whether `c` is white space.
pub fn is_whitespace(c: char) -> (res: bool)
    ensures
        res == is_space(c),
{
    let u = c as u32;
    u == 0x20 || (0x09 <= u && u <= 0x0d) || u == 0x85 || u == 0xa0 || u == 0x1680
        || (0x2000 <= u && u <= 0x200a) || u == 0x2028 || u == 0x2029 || u == 0x202f
        || u == 0x205f || u == 0x3000
}

/// `s` without its leading and trailing white space.
pub fn trim(s: &[char]) -> (res: Vec<char>)
    ensures
        res@ == trimmed(s@),
{
    let mut i: usize = 0;
    assert(s@.skip(0) =~= s@);
    while i < s.len() && is_whitespace(s[i])
        invariant
            i <= s@.len(),
            trimmed_start(s@.skip(i as int)) == trimmed_start(s@),
        decreases s@.len() - i,
    {
        assert(s@.skip(i as int).drop_first() =~= s@.skip(i + 1));
        i = i + 1;
    }
    let ghost start = s@.skip(i as int);
    assert(trimmed_start(start) == start);
    let mut j: usize = s.len();
    while j > i && is_whitespace(s[j - 1])
        invariant
            i <= j <= s@.len(),
            start == s@.skip(i as int),
            trimmed_end(s@.subrange(i as int, j as int)) == trimmed_end(start),
        decreases j,
    {
        assert(s@.subrange(i as int, j as int).drop_last() =~= s@.subrange(i as int, j - 1));
        j = j - 1;
    }
    assert(start =~= s@.subrange(i as int, s@.len() as int));
    let ghost mid = s@.subrange(i as int, j as int);
    assert(trimmed_end(mid) == mid);
    let mut out: Vec<char> = Vec::new();
    let mut k: usize = i;
    while k < j
        invariant
            i <= k <= j <= s@.len(),
            out@ == s@.subrange(i as int, k as int),
        decreases j - k,
    {
        out.push(s[k]);
        k = k + 1;
    }
    out
}

/// `s` from index `start` on (empty when `start` is past the end).
pub fn skip(s: &[char], start: usize) -> (res: Vec<char>)
    ensures
        res@ == skipped(s@, start as nat),
{
    let mut out: Vec<char> = Vec::new();
    let mut k: usize = start;
    while k < s.len()
        invariant
            start <= k,
            k < s@.len() ==> out@ == s@.subrange(start as int, k as int),
            k >= s@.len() ==> out@ == skipped(s@, start as nat),
        decreases s@.len() - k,
    {
        out.push(s[k]);
        k = k + 1;
        assert(k >= s@.len() ==> s@.subrange(start as int, k as int) =~= s@.skip(start as int));
    }
    if start >= s.len() {
        assert(out@ =~= skipped(s@, start as nat));
    }
    out
}

/// Index of the first character of `s` that is one of `stops`, or the length
/// of `s` when there is none.
pub fn first_of(s: &[char], stops: &[char]) -> (res: usize)
    ensures
        res <= s@.len(),
        forall|j: int| 0 <= j < res ==> !stops@.contains(#[trigger] s@[j]),
        res < s@.len() ==> stops@.contains(s@[res as int]),
{
    let mut i: usize = 0;
    while i < s.len()
        invariant
            i <= s@.len(),
            forall|j: int| 0 <= j < i ==> !stops@.contains(#[trigger] s@[j]),
        decreases s@.len() - i,
    {
        let c = s[i];
        let mut k: usize = 0;
        while k < stops.len()
            invariant
                i < s@.len(),
                c == s@[i as int],
                forall|j: int| 0 <= j < i ==> !stops@.contains(#[trigger] s@[j]),
                k <= stops@.len(),
                forall|j: int| 0 <= j < k ==> stops@[j] != c,
            decreases stops@.len() - k,
        {
            if stops[k] == c {
                assert(stops@[k as int] == s@[i as int]);
                return i;
            }
            k = k + 1;
        }
        assert(!stops@.contains(c));
        i = i + 1;
    }
    i
}

/// `prefix_before` of `s` is its first `k` characters, `suffix_from` the rest,
/// where `k` is the index of its first character that is one of `stops`.
pub proof fn lemma_stop_index(s: Seq<char>, stops: Seq<char>, k: int)
    requires
        0 <= k <= s.len(),
        forall|j: int| 0 <= j < k ==> !stops.contains(#[trigger] s[j]),
        k < s.len() ==> stops.contains(s[k]),
    ensures
        prefix_before(s, stops) == s.take(k),
        suffix_from(s, stops) == s.skip(k),
    decreases k,
{
    if k == 0 {
        assert(s.take(0) =~= Seq::<char>::empty());
        assert(s.skip(0) =~= s);
    } else {
        assert(!stops.contains(s[0]));
        let t = s.drop_first();
        assert forall|j: int| 0 <= j < k - 1 implies !stops.contains(#[trigger] t[j]) by {
            assert(t[j] == s[j + 1]);
        }
        lemma_stop_index(t, stops, k - 1);
        assert(seq![s[0]] + t.take(k - 1) =~= s.take(k));
        assert(t.skip(k - 1) =~= s.skip(k));
    }
}

/// The longest prefix of `s` that holds none of `stops`.
pub fn take_until(s: &[char], stops: &[char]) -> (res: Vec<char>)
    ensures
        res@ == prefix_before(s@, stops@),
{
    let k = first_of(s, stops);
    proof {
        lemma_stop_index(s@, stops@, k as int);
    }
    let mut out: Vec<char> = Vec::new();
    let mut i: usize = 0;
    while i < k
        invariant
            k <= s@.len(),
            i <= k,
            out@ == s@.subrange(0, i as int),
        decreases k - i,
    {
        out.push(s[i]);
        i = i + 1;
    }
    out
}

/// `s` from its first character that is one of `stops` on.
pub fn skip_until(s: &[char], stops: &[char]) -> (res: Vec<char>)
    ensures
        res@ == suffix_from(s@, stops@),
{
    let k = first_of(s, stops);
    proof {
        lemma_stop_index(s@, stops@, k as int);
    }
    let res = skip(s, k);
    assert(k == s@.len() ==> s@.skip(k as int) =~= Seq::<char>::empty());
    res
}

/// The pieces of `s` between the occurrences of `pat`.
pub fn split(s: &[char], pat: &[char]) -> (res: Vec<Vec<char>>)
    requires
        pat@.len() > 0,
    ensures
        texts(res@) == split_on(s@, pat@),
{
    let mut done: Vec<Vec<char>> = Vec::new();
    let mut cur: Vec<char> = Vec::new();
    let mut i: usize = 0;
    proof {
        lemma_split_on_len(s@, pat@);
        let first = split_on(s@, pat@);
        assert(s@.skip(0) =~= s@);
        assert(first.update(0, cur@ + first[0]) =~= first);
        assert(texts(done@) + first =~= first);
    }
    while i < s.len()
        invariant
            pat@.len() > 0,
            i <= s@.len(),
            split_on(s@.skip(i as int), pat@).len() >= 1,
            texts(done@) + split_on(s@.skip(i as int), pat@).update(
                0,
                cur@ + split_on(s@.skip(i as int), pat@)[0],
            ) == split_on(s@, pat@),
        decreases s@.len() - i,
    {
        let ghost rest = s@.skip(i as int);
        let ghost before_done = texts(done@);
        let ghost before_cur = cur@;
        if matches_at(s, pat, i) {
            let ghost next = s@.skip(i + pat@.len());
            assert(rest.take(pat@.len() as int) =~= pat@);
            assert(rest.skip(pat@.len() as int) =~= next);
            proof {
                lemma_split_on_len(next, pat@);
            }
            done.push(cur);
            cur = Vec::new();
            i = i + pat.len();
            assert(texts(done@) =~= before_done.push(before_cur));
            assert(texts(done@) + split_on(next, pat@).update(0, cur@ + split_on(next, pat@)[0])
                =~= before_done + split_on(rest, pat@).update(
                0,
                before_cur + split_on(rest, pat@)[0],
            ));
        } else {
            let ghost next = s@.skip(i + 1);
            assert(!(rest.len() >= pat@.len() && rest.take(pat@.len() as int) == pat@)) by {
                if rest.len() >= pat@.len() && rest.take(pat@.len() as int) == pat@ {
                    assert(s@.subrange(i as int, i + pat@.len()) =~= rest.take(pat@.len() as int));
                }
            }
            assert(rest.drop_first() =~= next);
            proof {
                lemma_split_on_len(next, pat@);
            }
            let ghost r = split_on(next, pat@);
            assert(split_on(rest, pat@) == r.update(0, seq![rest[0]] + r[0]));
            cur.push(s[i]);
            i = i + 1;
            assert(cur@ + r[0] =~= before_cur + (seq![rest[0]] + r[0]));
            assert(texts(done@) =~= before_done);
            assert(split_on(next, pat@).update(0, cur@ + split_on(next, pat@)[0])
                =~= split_on(rest, pat@).update(0, before_cur + split_on(rest, pat@)[0]));
        }
    }
    let ghost before_done = texts(done@);
    let ghost before_cur = cur@;
    assert(s@.skip(i as int) =~= Seq::<char>::empty());
    done.push(cur);
    assert(texts(done@) =~= before_done.push(before_cur));
    assert(texts(done@) =~= split_on(s@, pat@));
    done
}

/// The non-empty pieces of `pieces`, in order.
pub fn keep_non_empty(pieces: Vec<Vec<char>>) -> (res: Vec<Vec<char>>)
    ensures
        texts(res@) == non_empty(texts(pieces@)),
{
    let mut out: Vec<Vec<char>> = Vec::new();
    let mut i: usize = 0;
    let ghost all = texts(pieces@);
    proof {
        reveal_with_fuel(Seq::filter, 1);
        assert(all.take(0) =~= Seq::<Seq<char>>::empty());
    }
    while i < pieces.len()
        invariant
            i <= pieces@.len(),
            all == texts(pieces@),
            texts(out@) == non_empty(all.take(i as int)),
        decreases pieces@.len() - i,
    {
        proof {
            reveal_with_fuel(Seq::filter, 1);
            assert(all.take(i + 1).drop_last() =~= all.take(i as int));
        }
        let piece = &pieces[i];
        if piece.len() > 0 {
            let ghost before = texts(out@);
            out.push(piece.clone());
            assert(texts(out@) =~= before.push(piece@));
        }
        i = i + 1;
    }
    assert(all.take(i as int) =~= all);
    out
}

/// The words of `s`.
pub fn words(s: &[char]) -> (res: Vec<Vec<char>>)
    ensures
        texts(res@) == words_of(s@),
{
    let space = [' '];
    assert(space@ =~= seq![' ']);
    keep_non_empty(split(s, &space))
}

} // verus!
