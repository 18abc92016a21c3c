//! What the readers give on the lines of a manual: the names and
//! descriptions of NAME lines, the options of option lines, the escapes of
//! comment lines, and which items of an options section are kept.

use vstd::prelude::*;
use vstd::utf8::*;

use crate::laws::is_name;
use crate::mans::{
    ends_gnu_comments, ends_unix_comments, gnu_args_loop, gnu_command_read, gnu_comment_loop,
    gnu_comment_of, gnu_comments_from, gnu_description_of, gnu_names_of, gnu_option_of,
    gnu_option_read, unix_args_loop, unix_comment_loop, unix_comment_of, unix_description_of,
    unix_item, unix_names_of, unix_option_of, ArgumentView, CommandView,
};
use crate::reader::{holds_one_of, lemma_first_byte, read_step, to_multy};
use crate::text::{
    has_substring, is_space, lemma_concat_contains, lemma_no_first_char, lemma_no_occurrence_in,
    lemma_occurs_chars, lemma_prefix_before_chars, lemma_prefix_before_keeps,
    lemma_replaced_absent, lemma_replaced_first, lemma_replaced_keeps, lemma_replaced_match,
    lemma_replaced_none, lemma_replaced_same, lemma_split_keeps, lemma_split_match,
    lemma_split_none, lemma_suffix_from_skips, lemma_trimmed_end_all_space,
    lemma_trimmed_end_chars, lemma_trimmed_end_keeps, lemma_trimmed_end_prefix,
    lemma_trimmed_start_keeps, occurs_at, prefix_before, replaced, skipped, split_on, trimmed,
    trimmed_end, words_of,
};

verus! {

/// The text `p + rest`, where `rest` is white space only and `p` starts and
/// ends with characters that are not, trimmed is `p`.
proof fn lemma_trimmed_line(p: Seq<char>, rest: Seq<char>)
    requires
        p.len() > 0,
        !is_space(p[0]),
        !is_space(p.last()),
        forall|i: int| 0 <= i < rest.len() ==> is_space(#[trigger] rest[i]),
    ensures
        trimmed(p + rest) == p,
{
    assert((p + rest)[0] == p[0]);
    lemma_trimmed_start_keeps(p + rest);
    lemma_trimmed_end_keeps(p, rest);
    lemma_trimmed_end_all_space(rest);
    assert(p + Seq::<char>::empty() =~= p);
}

/// A text `a + esc + b` whose one backslash is the first character of the
/// escape `esc`.
spec fn one_escape(a: Seq<char>, esc: Seq<char>, b: Seq<char>) -> bool {
    &&& !a.contains('\\')
    &&& !b.contains('\\')
    &&& esc.len() >= 2
    &&& esc[0] == '\\'
    &&& forall|i: int| 1 <= i < esc.len() ==> esc[i] != '\\'
}

/// In a text with one escape, a pattern that starts with a backslash and
/// differs from the escape at some index has no occurrence, and replacing it
/// changes nothing.
proof fn lemma_escape_other(
    a: Seq<char>,
    esc: Seq<char>,
    b: Seq<char>,
    pat: Seq<char>,
    to: Seq<char>,
    j: int,
)
    requires
        one_escape(a, esc, b),
        pat.len() > 0,
        pat[0] == '\\',
        0 < j < pat.len(),
        j < esc.len(),
        esc[j] != pat[j],
    ensures
        replaced(a + esc + b, pat, to) == a + esc + b,
{
    let s = a + esc + b;
    let n = a.len() as int;
    assert(!has_substring(s, pat)) by {
        if has_substring(s, pat) {
            let i = choose|i: int| occurs_at(s, pat, i);
            lemma_occurs_chars(s, pat, i);
            assert(s[i + 0] == '\\');
            if i < n {
                assert(s[i] == a[i]);
            } else if i < n + esc.len() {
                assert(s[i] == esc[i - n]);
                if i == n {
                    assert(s[i + j] == esc[j]);
                }
            } else {
                assert(s[i] == b[i - n - esc.len()]);
            }
        }
    }
    lemma_replaced_none(s, pat, to);
}

/// In a text with one escape, replacing the escape puts the replacement in
/// its place.
proof fn lemma_escape_same(a: Seq<char>, esc: Seq<char>, b: Seq<char>, to: Seq<char>)
    requires
        one_escape(a, esc, b),
    ensures
        replaced(a + esc + b, esc, to) == a + to + b,
{
    assert(a + esc + b =~= a + (esc + b));
    lemma_no_occurrence_in(a, esc + b, esc);
    lemma_replaced_keeps(a, esc + b, esc, to);
    lemma_replaced_match(b, esc, to);
    lemma_no_first_char(b, esc);
    lemma_replaced_none(b, esc, to);
    assert(a + (to + b) =~= a + to + b);
}

/// Replacing a pattern that starts with a backslash in a text without one
/// changes nothing.
proof fn lemma_no_escape(s: Seq<char>, pat: Seq<char>, to: Seq<char>)
    requires
        !s.contains('\\'),
        pat.len() > 0,
        pat[0] == '\\',
    ensures
        replaced(s, pat, to) == s,
{
    lemma_no_first_char(s, pat);
    lemma_replaced_none(s, pat, to);
}

/// A GNU comment line with one escape, which starts with neither a dot nor
/// white space, and whose escape ends with a character that is not white
/// space or is followed by one, is not trimmed before its end and is not read
/// as a macro line.
proof fn lemma_gnu_comment_start(a: Seq<char>, esc: Seq<char>, b: Seq<char>)
    requires
        one_escape(a, esc, b),
        a.len() == 0 || (a[0] != '.' && !is_space(a[0])),
        !is_space(esc.last()) || (b.len() > 0 && !is_space(b[0])),
    ensures
        trimmed(a + esc + b) == a + esc + trimmed_end(b),
        one_escape(a, esc, trimmed_end(b)),
        encode_utf8(a + esc + trimmed_end(b))[0] != 46,
{
    let line = a + esc + b;
    let t = trimmed_end(b);
    let n = a.len();
    assert(line[0] != '.' && !is_space(line[0])) by {
        if n == 0 {
            assert(line[0] == esc[0]);
        } else {
            assert(line[0] == a[0]);
        }
    }
    lemma_trimmed_start_keeps(line);
    if !is_space(esc.last()) {
        assert((a + esc).last() == esc.last());
        lemma_trimmed_end_keeps(a + esc, b);
    } else {
        let b1 = seq![b[0]];
        let rest = b.drop_first();
        assert(b =~= b1 + rest);
        assert(line =~= (a + esc + b1) + rest);
        lemma_trimmed_end_keeps(a + esc + b1, rest);
        lemma_trimmed_end_keeps(b1, rest);
        assert((a + esc + b1) + trimmed_end(rest) =~= a + esc + (b1 + trimmed_end(rest)));
    }
    lemma_trimmed_end_chars(b, '\\');
    let d0 = a + esc + t;
    assert(d0[0] == line[0]);
    lemma_first_byte(d0);
    if encode_utf8(d0)[0] == 46 {
        char_u32_cast(d0[0], 46);
        char_u32_cast('.', 46);
    }
}

/// A GNU NAME line `n \- d` reads as the one name `n` and the description
/// `d` trimmed, where `n` is a name that holds no backslash and does not end
/// with a dash (it may hold dashes), and `d` holds no comma, no backslash and
/// no `- `, and is not only white space: the line is cut at its `\- `, not at
/// the dashes of the name.
pub proof fn law_gnu_name_line(recs: Seq<Option<Seq<char>>>, pos: int, n: Seq<char>, d: Seq<char>)
    requires
        0 <= pos < recs.len(),
        recs[pos] == Some(n + seq![' ', '\\', '-', ' '] + d),
        is_name(n),
        !n.contains('\\'),
        n.last() != '-',
        !d.contains(','),
        !d.contains('\\'),
        !has_substring(d, seq!['-', ' ']),
        trimmed(d).len() > 0,
    ensures
        gnu_command_read(recs, pos, seq![]).0 == Some(
            Ok::<CommandView, Seq<char>>(CommandView { names: seq![n], description: trimmed(d) }),
        ),
{
    let e = Seq::<char>::empty();
    let sp = seq![' '];
    let bs = seq!['\\', '-', ' '];
    let ds = seq!['-', ' '];
    let l = n + seq![' ', '\\', '-', ' '] + d;
    let k: int = n.len() as int;
    assert(e + l =~= l);
    assert(read_step(recs, pos, e) == (true, pos + 1, l));
    assert(l.subrange(k + 2, k + 4) =~= ds);
    assert(occurs_at(l, ds, k + 2));
    // The names part, with its space.
    let x = n + sp;
    assert(!x.contains('\\')) by {
        lemma_concat_contains(n, sp, '\\');
    }
    assert(l =~= x + (bs + d));
    lemma_no_occurrence_in(x, bs + d, bs);
    lemma_replaced_keeps(x, bs + d, bs, ds);
    lemma_replaced_match(d, bs, ds);
    lemma_no_first_char(d, bs);
    lemma_replaced_none(d, bs, ds);
    let m = x + (ds + d);
    assert(replaced(l, bs, ds) == m);
    assert forall|i: int| 0 <= i < x.len() implies !occurs_at(x + (ds + d), ds, i) by {
        if occurs_at(x + (ds + d), ds, i) {
            lemma_occurs_chars(m, ds, i);
            assert(m[i + 0] == '-');
            assert(m[i + 1] == ' ');
            if i + 1 < k {
                assert(m[i + 1] == n[i + 1]);
            } else if i + 1 == k {
                assert(m[i] == n.last());
            } else {
                assert(m[i] == ' ');
            }
        }
    }
    lemma_split_keeps(x, ds + d, ds);
    lemma_split_match(d, ds);
    lemma_split_none(d, ds);
    let pieces = split_on(m, ds);
    assert(pieces =~= seq![x, d]);
    // No comma in the names part.
    assert(!x.contains(',')) by {
        lemma_concat_contains(n, sp, ',');
    }
    lemma_replaced_absent(x, ',');
    // The names.
    assert(x[0] == n[0]);
    lemma_first_byte(x);
    if encode_utf8(x)[0] == 92 {
        char_u32_cast(x[0], 92);
        char_u32_cast('\\', 92);
    }
    assert forall|i: int| 0 <= i < x.len() implies !seq!['\\'].contains(#[trigger] x[i]) by {
        assert(x[i] != '\\');
    }
    lemma_prefix_before_keeps(x, e, seq!['\\']);
    assert(x + e =~= x);
    assert(x + prefix_before(e, seq!['\\']) =~= x);
    lemma_no_occurrence_in(n, sp, sp);
    lemma_split_keeps(n, sp, sp);
    assert(sp + e =~= sp);
    lemma_split_match(e, sp);
    let words = split_on(x, sp);
    assert(words =~= seq![n, e]);
    let pred = |w: Seq<char>| w.len() > 0;
    assert(seq![n, e] =~= seq![n].push(e));
    seq![n].lemma_filter_push(e, pred);
    assert(seq![n] =~= Seq::<Seq<char>>::empty().push(n));
    Seq::<Seq<char>>::empty().lemma_filter_push(n, pred);
    Seq::<Seq<char>>::empty().lemma_filter_len(pred);
    assert(words_of(x) =~= seq![n]);
    assert(gnu_names_of(x) == Ok::<Seq<Seq<char>>, Seq<char>>(seq![n]));
    // The description.
    lemma_replaced_absent(d, ',');
    lemma_replaced_absent(d, '\\');
    assert(gnu_description_of(d) == Ok::<Seq<char>, Seq<char>>(trimmed(d)));
}

/// A GNU NAME line whose name is set in bold, `\fBn\fR \- d`, reads as the
/// one name `n` and the description `d` trimmed, where `n` is a name that
/// holds no backslash (it may hold and end with dashes), and `d` holds no
/// comma, no backslash and no `- `, and is not only white space.
pub proof fn law_gnu_bold_name_line(
    recs: Seq<Option<Seq<char>>>,
    pos: int,
    n: Seq<char>,
    d: Seq<char>,
)
    requires
        0 <= pos < recs.len(),
        recs[pos] == Some(
            seq!['\\', 'f', 'B'] + n + seq!['\\', 'f', 'R'] + seq![' ', '\\', '-', ' '] + d,
        ),
        is_name(n),
        !n.contains('\\'),
        !d.contains(','),
        !d.contains('\\'),
        !has_substring(d, seq!['-', ' ']),
        trimmed(d).len() > 0,
    ensures
        gnu_command_read(recs, pos, seq![]).0 == Some(
            Ok::<CommandView, Seq<char>>(CommandView { names: seq![n], description: trimmed(d) }),
        ),
{
    let e = Seq::<char>::empty();
    let fb = seq!['\\', 'f', 'B'];
    let fr = seq!['\\', 'f', 'R'];
    let sp = seq![' '];
    let bs = seq!['\\', '-', ' '];
    let ds = seq!['-', ' '];
    let k: int = n.len() as int;
    let x = fb + n + fr + sp;
    let l = fb + n + fr + seq![' ', '\\', '-', ' '] + d;
    assert(l =~= x + (bs + d));
    assert(e + l =~= l);
    assert(read_step(recs, pos, e) == (true, pos + 1, l));
    assert(l.subrange(k + 8, k + 10) =~= ds);
    assert(occurs_at(l, ds, k + 8));
    // What stands where in the names part.
    assert forall|i: int| 0 <= i < x.len() implies {
        &&& (#[trigger] x[i] == '\\' ==> (i == 0 || i == k + 3) && x[i + 1] == 'f')
        &&& (x[i] == '-' ==> 3 <= i < k + 3 && x[i + 1] != ' ')
        &&& x[i] != ','
    } by {
        if i < 3 {
            assert(x[i] == fb[i]);
        } else if i < k + 3 {
            assert(x[i] == n[i - 3]);
            if i + 1 < k + 3 {
                assert(x[i + 1] == n[i - 2]);
            } else {
                assert(x[i + 1] == fr[0]);
            }
        } else if i < k + 6 {
            assert(x[i] == fr[i - k - 3]);
            if i == k + 3 {
                assert(x[i + 1] == fr[1]);
            }
        } else {
            assert(x[i] == ' ');
        }
    }
    // `\- ` read as `- `.
    assert forall|i: int| 0 <= i < x.len() implies !occurs_at(x + (bs + d), bs, i) by {
        if occurs_at(x + (bs + d), bs, i) {
            lemma_occurs_chars(l, bs, i);
            assert(l[i + 0] == '\\');
            assert(l[i + 1] == '-');
            assert(l[i] == x[i]);
            assert(l[i + 1] == x[i + 1]);
        }
    }
    lemma_replaced_keeps(x, bs + d, bs, ds);
    lemma_replaced_match(d, bs, ds);
    lemma_no_first_char(d, bs);
    lemma_replaced_none(d, bs, ds);
    let m = x + (ds + d);
    assert(replaced(l, bs, ds) == m);
    // Cut at the `- `.
    assert forall|i: int| 0 <= i < x.len() implies !occurs_at(x + (ds + d), ds, i) by {
        if occurs_at(x + (ds + d), ds, i) {
            lemma_occurs_chars(m, ds, i);
            assert(m[i + 0] == '-');
            assert(m[i + 1] == ' ');
            assert(m[i] == x[i]);
            if i + 1 < x.len() {
                assert(m[i + 1] == x[i + 1]);
            }
        }
    }
    lemma_split_keeps(x, ds + d, ds);
    lemma_split_match(d, ds);
    lemma_split_none(d, ds);
    assert(split_on(m, ds) =~= seq![x, d]);
    lemma_replaced_absent(x, ',');
    // The names: the leading escape skipped, cut at the next backslash.
    assert(x[0] == '\\');
    lemma_first_byte(x);
    assert(skipped(x, 3) =~= n + (fr + sp));
    assert forall|i: int| 0 <= i < n.len() implies !seq!['\\'].contains(#[trigger] n[i]) by {
        assert(n[i] != '\\');
    }
    lemma_prefix_before_keeps(n, fr + sp, seq!['\\']);
    assert((fr + sp)[0] == '\\');
    assert(seq!['\\'][0] == '\\');
    assert(prefix_before(fr + sp, seq!['\\']) == e);
    assert(n + e =~= n);
    lemma_no_first_char(n, sp);
    lemma_split_none(n, sp);
    let pred = |w: Seq<char>| w.len() > 0;
    assert(seq![n] =~= Seq::<Seq<char>>::empty().push(n));
    Seq::<Seq<char>>::empty().lemma_filter_push(n, pred);
    Seq::<Seq<char>>::empty().lemma_filter_len(pred);
    assert(words_of(n) =~= seq![n]);
    assert(gnu_names_of(x) == Ok::<Seq<Seq<char>>, Seq<char>>(seq![n]));
    // The description.
    lemma_replaced_absent(d, ',');
    lemma_replaced_absent(d, '\\');
    assert(gnu_description_of(d) == Ok::<Seq<char>, Seq<char>>(trimmed(d)));
}

/// An `mdoc` `.Nm n` line, followed by white space only, reads as the one
/// name `n`, where `n` is a name that does not end with white space.
pub proof fn law_unix_name_line(n: Seq<char>, rest: Seq<char>)
    requires
        is_name(n),
        !is_space(n.last()),
        forall|i: int| 0 <= i < rest.len() ==> is_space(#[trigger] rest[i]),
    ensures
        unix_names_of(seq!['.', 'N', 'm', ' '] + n + rest) == Ok::<Seq<Seq<char>>, Seq<char>>(
            seq![n],
        ),
{
    let nm = seq!['.', 'N', 'm', ' '];
    let p = nm + n;
    let line = p + rest;
    assert(!line.contains(',')) by {
        if line.contains(',') {
            let i = choose|i: int| 0 <= i < line.len() && line[i] == ',';
            if i < 4 {
                assert(line[i] == nm[i]);
            } else if i < p.len() {
                assert(line[i] == n[i - 4]);
            } else {
                assert(line[i] == rest[i - p.len()]);
            }
        }
    }
    lemma_replaced_absent(line, ',');
    assert(p.last() == n.last());
    lemma_trimmed_line(p, rest);
    assert(skipped(p, 4) =~= n);
    let sp = seq![' '];
    lemma_no_first_char(n, sp);
    lemma_split_none(n, sp);
    let pred = |w: Seq<char>| w.len() > 0;
    assert(seq![n] =~= Seq::<Seq<char>>::empty().push(n));
    Seq::<Seq<char>>::empty().lemma_filter_push(n, pred);
    Seq::<Seq<char>>::empty().lemma_filter_len(pred);
    assert(words_of(n) =~= seq![n]);
}

/// An `mdoc` `.Nd d` line, followed by white space only, reads as the
/// description `d`, where `d` is not empty, holds no comma and no backslash,
/// and does not end with white space.
pub proof fn law_unix_description_line(d: Seq<char>, rest: Seq<char>)
    requires
        d.len() > 0,
        !d.contains(','),
        !d.contains('\\'),
        !is_space(d.last()),
        forall|i: int| 0 <= i < rest.len() ==> is_space(#[trigger] rest[i]),
    ensures
        unix_description_of(seq!['.', 'N', 'd', ' '] + d + rest) == Ok::<Seq<char>, Seq<char>>(d),
{
    let nd = seq!['.', 'N', 'd', ' '];
    let e = Seq::<char>::empty();
    let p = nd + d;
    let line = p + rest;
    assert(!line.contains(',')) by {
        if line.contains(',') {
            let i = choose|i: int| 0 <= i < line.len() && line[i] == ',';
            if i < 4 {
                assert(line[i] == nd[i]);
            } else if i < p.len() {
                assert(line[i] == d[i - 4]);
            } else {
                assert(line[i] == rest[i - p.len()]);
            }
        }
    }
    lemma_replaced_absent(line, ',');
    assert(p.last() == d.last());
    lemma_trimmed_line(p, rest);
    assert(skipped(p, 4) =~= d);
    assert forall|i: int| 0 <= i < d.len() implies !seq!['\\'].contains(#[trigger] d[i]) by {
        assert(d[i] != '\\');
    }
    lemma_prefix_before_keeps(d, e, seq!['\\']);
    assert(d + e =~= d);
}

/// A GNU option line `\fB\-w\fR` followed by anything without a caret reads
/// as the option `-w`, where `w` is a non-empty word without backslash,
/// double quote, caret, space or star: the option ends at the backslash of
/// the roman font escape.
pub proof fn law_gnu_bold_option(w: Seq<char>, rest: Seq<char>)
    requires
        w.len() > 0,
        !w.contains('\\'),
        !w.contains('"'),
        !w.contains('^'),
        !w.contains(' '),
        !w.contains('*'),
        !rest.contains('^'),
    ensures
        gnu_option_of(
            trimmed(seq!['\\', 'f', 'B', '\\', '-'] + w + seq!['\\', 'f', 'R'] + rest),
        ) == Ok::<Seq<char>, Seq<char>>(seq!['-'] + w),
{
    let e = Seq::<char>::empty();
    let head = seq!['\\', 'f', 'B', '\\', '-'];
    let fr = seq!['\\', 'f', 'R'];
    let bsd = seq!['\\', '-'];
    let dash = seq!['-'];
    let q = seq!['"'];
    let caret = seq!['^'];
    let k: int = w.len() as int;
    let p = head + w + fr;
    let line = p + rest;
    // Trimming keeps the escapes around the word.
    assert(line[0] == '\\');
    lemma_trimmed_start_keeps(line);
    assert(p.last() == 'R');
    lemma_trimmed_end_keeps(p, rest);
    let rt = trimmed_end(rest);
    lemma_trimmed_end_chars(rest, '^');
    assert(trimmed(line) == p + rt);
    // Cut at the first double quote, which does not stand before `rt`.
    assert forall|i: int| 0 <= i < p.len() implies !q.contains(#[trigger] p[i]) by {
        if i < 5 {
            assert(p[i] == head[i]);
        } else if i < 5 + k {
            assert(p[i] == w[i - 5]);
        } else {
            assert(p[i] == fr[i - 5 - k]);
        }
    }
    lemma_prefix_before_keeps(p, rt, q);
    let r2 = prefix_before(rt, q);
    lemma_prefix_before_chars(rt, q, '^');
    let y = w + fr + r2;
    let o1 = bsd + y;
    assert(skipped(p + r2, 3) =~= o1);
    // No caret, but a dash.
    lemma_concat_contains(w, fr, '^');
    lemma_concat_contains(w + fr, r2, '^');
    lemma_concat_contains(bsd, y, '^');
    lemma_no_first_char(o1, caret);
    assert(o1.subrange(1, 2) =~= dash);
    assert(occurs_at(o1, dash, 1));
    // `\-` read as `-`.
    lemma_replaced_match(y, bsd, dash);
    assert forall|i: int| 0 <= i < (w + fr).len() implies !occurs_at((w + fr) + r2, bsd, i) by {
        if occurs_at((w + fr) + r2, bsd, i) {
            lemma_occurs_chars(y, bsd, i);
            assert(y[i + 0] == '\\');
            assert(y[i + 1] == '-');
            if i < k {
                assert(y[i] == w[i]);
            } else {
                assert(y[i] == fr[i - k]);
            }
        }
    }
    lemma_replaced_keeps(w + fr, r2, bsd, dash);
    let x = dash + w + fr;
    let ra = replaced(r2, bsd, dash);
    let oa = x + ra;
    assert(dash + ((w + fr) + ra) =~= oa);
    // `\\fR` read as a newline: no such escape starts before `ra`.
    let ffr = seq!['\\', '\\', 'f', 'R'];
    let nl = seq!['\n'];
    assert forall|i: int| 0 <= i < x.len() implies !occurs_at(x + ra, ffr, i) by {
        if occurs_at(x + ra, ffr, i) {
            lemma_occurs_chars(oa, ffr, i);
            assert(oa[i + 0] == '\\');
            assert(oa[i + 1] == '\\');
            if i == 0 {
                assert(oa[i] == '-');
            } else if i < 1 + k {
                assert(oa[i] == w[i - 1]);
            } else {
                assert(oa[i] == fr[i - 1 - k]);
                assert(oa[i + 1] == fr[i - k]);
            }
        }
    }
    lemma_replaced_keeps(x, ra, ffr, nl);
    let rb = replaced(ra, ffr, nl);
    // `*=` read as `--`: no star before `rb`.
    let st = seq!['*', '='];
    let dd = seq!['-', '-'];
    lemma_concat_contains(dash, w, '*');
    lemma_concat_contains(dash + w, fr, '*');
    lemma_no_occurrence_in(x, rb, st);
    lemma_replaced_keeps(x, rb, st, dd);
    let rc = replaced(rb, st, dd);
    let o2 = x + rc;
    // Cut at the first backslash: that of `\fR`.
    let bs = seq!['\\'];
    assert(o2 =~= (dash + w) + (fr + rc));
    assert forall|i: int| 0 <= i < (dash + w).len() implies !bs.contains(#[trigger] (dash + w)[i]) by {
        if i > 0 {
            assert((dash + w)[i] == w[i - 1]);
        }
    }
    lemma_prefix_before_keeps(dash + w, fr + rc, bs);
    assert((fr + rc)[0] == '\\');
    assert(bs[0] == '\\');
    assert(prefix_before(fr + rc, bs) == e);
    assert((dash + w) + e =~= dash + w);
    // No space to drop.
    lemma_concat_contains(dash, w, ' ');
    lemma_replaced_absent(dash + w, ' ');
    // It starts with a dash.
    let o3 = dash + w;
    assert(o3[0] == '-');
    lemma_first_byte(o3);
}

/// A GNU option line that writes its option with a caret, a three-character
/// macro then `^w` and nothing or a space, reads as the option `-w`, where `w`
/// is a non-empty word without caret, space, double quote or backslash that
/// does not end with white space: the caret reads as a dash and the option
/// ends at the space.
pub proof fn law_gnu_caret_option(m: Seq<char>, w: Seq<char>, rest: Seq<char>)
    requires
        m.len() == 3,
        !is_space(m[0]),
        !m.contains('"'),
        w.len() > 0,
        !w.contains('^'),
        !w.contains(' '),
        !w.contains('"'),
        !w.contains('\\'),
        !is_space(w.last()),
        rest.len() == 0 || rest[0] == ' ',
    ensures
        gnu_option_of(trimmed(m + seq!['^'] + w + rest)) == Ok::<Seq<char>, Seq<char>>(
            seq!['-'] + w,
        ),
{
    let e = Seq::<char>::empty();
    let caret = seq!['^'];
    let dash = seq!['-'];
    let q = seq!['"'];
    let sp = seq![' '];
    let k: int = w.len() as int;
    let p = m + caret + w;
    let line = p + rest;
    // Trimming keeps all but the trailing white space of `rest`.
    assert(line[0] == m[0]);
    lemma_trimmed_start_keeps(line);
    assert(p.last() == w.last());
    lemma_trimmed_end_keeps(p, rest);
    let rt = trimmed_end(rest);
    lemma_trimmed_end_prefix(rest);
    if rt.len() > 0 {
        assert(rt[0] == rest.take(rt.len() as int)[0]);
    }
    // Cut at the first double quote, which does not stand before `rt`.
    assert forall|i: int| 0 <= i < p.len() implies !q.contains(#[trigger] p[i]) by {
        if i < 3 {
            assert(p[i] == m[i]);
        } else if i == 3 {
            assert(p[i] == '^');
        } else {
            assert(p[i] == w[i - 4]);
        }
    }
    lemma_prefix_before_keeps(p, rt, q);
    let r2 = prefix_before(rt, q);
    assert(r2.len() == 0 || r2[0] == ' ');
    let o1 = caret + w + r2;
    assert(skipped(p + r2, 3) =~= o1);
    // From the caret to the first space.
    assert(o1.subrange(0, 1) =~= caret);
    assert(occurs_at(o1, caret, 0));
    assert(caret[0] == '^');
    assert(crate::text::suffix_from(o1, caret) == o1);
    assert forall|i: int| 0 <= i < (caret + w).len() implies !sp.contains(#[trigger] (caret + w)[i]) by {
        if i > 0 {
            assert((caret + w)[i] == w[i - 1]);
        }
    }
    assert(o1 =~= (caret + w) + r2);
    lemma_prefix_before_keeps(caret + w, r2, sp);
    assert(sp[0] == ' ');
    assert(prefix_before(r2, sp) == e);
    assert((caret + w) + e =~= caret + w);
    // The caret read as a dash.
    lemma_replaced_match(w, caret, dash);
    lemma_no_first_char(w, caret);
    lemma_replaced_none(w, caret, dash);
    let o2 = dash + w;
    // No backslash to cut at, no space to drop.
    assert forall|i: int| 0 <= i < o2.len() implies !seq!['\\'].contains(#[trigger] o2[i]) by {
        if i > 0 {
            assert(o2[i] == w[i - 1]);
        }
    }
    lemma_prefix_before_keeps(o2, e, seq!['\\']);
    assert(o2 + e =~= o2);
    assert(o2 + prefix_before(e, seq!['\\']) =~= o2);
    lemma_concat_contains(dash, w, ' ');
    lemma_replaced_absent(o2, ' ');
    assert(o2[0] == '-');
    lemma_first_byte(o2);
}

/// An `mdoc` option line `.It Fl w`, followed by nothing or by a space, a
/// double quote or a comma, reads as the option `-w`, where `w` is a
/// non-empty word without white space, backslash, double quote or comma.
pub proof fn law_unix_flag_option(w: Seq<char>, rest: Seq<char>)
    requires
        w.len() > 0,
        forall|i: int|
            0 <= i < w.len() ==> !is_space(#[trigger] w[i]) && w[i] != '\\' && w[i] != '"' && w[i]
                != ',',
        rest.len() == 0 || rest[0] == ' ' || rest[0] == '"' || rest[0] == ',',
    ensures
        unix_option_of(unix_item() + w + rest) == Ok::<Seq<char>, Seq<char>>(seq!['-'] + w),
{
    let e = Seq::<char>::empty();
    let it = unix_item();
    let stops = seq![' ', '\\', '"', ','];
    let bsd = seq!['\\', '-'];
    let amp = seq!['\\', '&'];
    let p = it + w;
    let line = p + rest;
    // Trimming keeps all but the trailing white space of `rest`.
    assert(line[0] == '.');
    lemma_trimmed_start_keeps(line);
    assert(p.last() == w[w.len() - 1]);
    lemma_trimmed_end_keeps(p, rest);
    let rt = trimmed_end(rest);
    lemma_trimmed_end_prefix(rest);
    if rt.len() > 0 {
        assert(rt[0] == rest.take(rt.len() as int)[0]);
    }
    assert(!p.contains('\\')) by {
        if p.contains('\\') {
            let i = choose|i: int| 0 <= i < p.len() && p[i] == '\\';
            if i < 7 {
                assert(p[i] == it[i]);
            } else {
                assert(p[i] == w[i - 7]);
            }
        }
    }
    // `\-` and `\&` are not in `p`, and do not start `rt`.
    lemma_no_occurrence_in(p, rt, bsd);
    lemma_replaced_keeps(p, rt, bsd, seq!['-']);
    let r1 = replaced(rt, bsd, seq!['-']);
    if rt.len() > 0 {
        lemma_replaced_first(rt, bsd, seq!['-']);
    }
    assert(r1.len() == 0 || r1[0] == rt[0]);
    lemma_no_occurrence_in(p, r1, amp);
    lemma_replaced_keeps(p, r1, amp, e);
    let r2 = replaced(r1, amp, e);
    if r1.len() > 0 {
        lemma_replaced_first(r1, amp, e);
    }
    assert(r2.len() == 0 || r2[0] == rt[0]);
    // Without the macro, cut at the first stop.
    assert(skipped(p + r2, 7) =~= w + r2);
    assert forall|i: int| 0 <= i < w.len() implies !stops.contains(#[trigger] w[i]) by {
        if stops.contains(w[i]) {
            let j = choose|j: int| 0 <= j < stops.len() && stops[j] == w[i];
        }
    }
    lemma_prefix_before_keeps(w, r2, stops);
    if r2.len() > 0 {
        assert(stops.contains(r2[0])) by {
            if r2[0] == ' ' {
                assert(stops[0] == ' ');
            } else if r2[0] == '"' {
                assert(stops[2] == '"');
            } else {
                assert(stops[3] == ',');
            }
        }
    }
    assert(prefix_before(r2, stops) == e);
    assert(w + e =~= w);
}

/// A GNU comment line reads each of its escapes: `\&` and the font escape
/// `\f` are dropped, and `\"`, `\'` and, before a character that is not
/// white space, `\ ` read as the character they escape; where the text
/// around the escape holds no other backslash and starts with neither a dot
/// nor white space, the rest is kept, without the line's trailing white
/// space.
pub proof fn law_gnu_comment_escapes(a: Seq<char>, b: Seq<char>)
    requires
        !a.contains('\\'),
        !b.contains('\\'),
        a.len() == 0 || (a[0] != '.' && !is_space(a[0])),
    ensures
        gnu_comment_of(a + seq!['\\', '&'] + b) == a + trimmed_end(b),
        gnu_comment_of(a + seq!['\\', 'f'] + b) == a + trimmed_end(b),
        gnu_comment_of(a + seq!['\\', '"'] + b) == a + seq!['"'] + trimmed_end(b),
        gnu_comment_of(a + seq!['\\', '\''] + b) == a + seq!['\''] + trimmed_end(b),
        b.len() > 0 && !is_space(b[0]) ==> gnu_comment_of(a + seq!['\\', ' '] + b) == a + seq![' ']
            + trimmed_end(b),
{
    let e = Seq::<char>::empty();
    let t = trimmed_end(b);
    let fp = seq!['\\', '\\', 'f', 'P'];
    let fi = seq!['\\', '\\', 'f', 'I'];
    let f = seq!['\\', 'f'];
    let amp = seq!['\\', '&'];
    let sp = seq!['\\', ' '];
    let bs = seq!['\\'];
    let q = seq!['\\', '"'];
    let ap = seq!['\\', '\''];
    lemma_trimmed_end_chars(b, '\\');
    let at = a + t;
    assert(a + e + t =~= at);
    lemma_concat_contains(a, t, '\\');
    // `\&`
    lemma_gnu_comment_start(a, amp, b);
    lemma_escape_other(a, amp, t, fp, e, 1);
    lemma_escape_other(a, amp, t, fi, e, 1);
    lemma_escape_other(a, amp, t, f, e, 1);
    lemma_escape_same(a, amp, t, e);
    lemma_no_escape(at, sp, seq![' ']);
    lemma_no_escape(at, bs, bs);
    lemma_no_escape(at, q, seq!['"']);
    lemma_no_escape(at, ap, seq!['\'']);
    // `\f`
    lemma_gnu_comment_start(a, f, b);
    lemma_escape_other(a, f, t, fp, e, 1);
    lemma_escape_other(a, f, t, fi, e, 1);
    lemma_escape_same(a, f, t, e);
    lemma_no_escape(at, amp, e);
    // `\"`
    lemma_gnu_comment_start(a, q, b);
    lemma_escape_other(a, q, t, fp, e, 1);
    lemma_escape_other(a, q, t, fi, e, 1);
    lemma_escape_other(a, q, t, f, e, 1);
    lemma_escape_other(a, q, t, amp, e, 1);
    lemma_escape_other(a, q, t, sp, seq![' '], 1);
    lemma_replaced_same(a + q + t, bs);
    lemma_escape_same(a, q, t, seq!['"']);
    let aq = a + seq!['"'] + t;
    lemma_concat_contains(a, seq!['"'], '\\');
    lemma_concat_contains(a + seq!['"'], t, '\\');
    lemma_no_escape(aq, ap, seq!['\'']);
    // `\'`
    lemma_gnu_comment_start(a, ap, b);
    lemma_escape_other(a, ap, t, fp, e, 1);
    lemma_escape_other(a, ap, t, fi, e, 1);
    lemma_escape_other(a, ap, t, f, e, 1);
    lemma_escape_other(a, ap, t, amp, e, 1);
    lemma_escape_other(a, ap, t, sp, seq![' '], 1);
    lemma_replaced_same(a + ap + t, bs);
    lemma_escape_other(a, ap, t, q, seq!['"'], 1);
    lemma_escape_same(a, ap, t, seq!['\'']);
    // `\ `
    if b.len() > 0 && !is_space(b[0]) {
        lemma_gnu_comment_start(a, sp, b);
        lemma_escape_other(a, sp, t, fp, e, 1);
        lemma_escape_other(a, sp, t, fi, e, 1);
        lemma_escape_other(a, sp, t, f, e, 1);
        lemma_escape_other(a, sp, t, amp, e, 1);
        lemma_escape_same(a, sp, t, seq![' ']);
        let asp = a + seq![' '] + t;
        lemma_concat_contains(a, seq![' '], '\\');
        lemma_concat_contains(a + seq![' '], t, '\\');
        lemma_no_escape(asp, bs, bs);
        lemma_no_escape(asp, q, seq!['"']);
        lemma_no_escape(asp, ap, seq!['\'']);
    }
}

/// A GNU comment line that is a macro line, `.m a` with a macro `m` without
/// spaces, reads as its text from the space after the macro on: a space and
/// `a`, where `a` holds no backslash and does not end with white space.
pub proof fn law_gnu_comment_macro(m: Seq<char>, a: Seq<char>)
    requires
        !m.contains(' '),
        a.len() > 0,
        !a.contains('\\'),
        !is_space(a.last()),
    ensures
        gnu_comment_of(seq!['.'] + m + seq![' '] + a) == seq![' '] + a,
{
    let e = Seq::<char>::empty();
    let sp = seq![' '];
    let x = seq!['.'] + m;
    let d1 = sp + a;
    let line = x + d1;
    assert(seq!['.'] + m + sp + a =~= line);
    assert(line[0] == '.');
    assert(line.last() == a.last());
    lemma_trimmed_line(line, e);
    assert(line + e =~= line);
    lemma_first_byte(line);
    assert forall|i: int| 0 <= i < x.len() implies !sp.contains(#[trigger] x[i]) by {
        if i > 0 {
            assert(x[i] == m[i - 1]);
        }
    }
    lemma_suffix_from_skips(x, d1, sp);
    assert(sp[0] == ' ');
    assert(crate::text::suffix_from(d1, sp) == d1);
    lemma_concat_contains(sp, a, '\\');
    lemma_no_escape(d1, seq!['\\', '\\', 'f', 'P'], e);
    lemma_no_escape(d1, seq!['\\', '\\', 'f', 'I'], e);
    lemma_no_escape(d1, seq!['\\', 'f'], e);
    lemma_no_escape(d1, seq!['\\', '&'], e);
    lemma_no_escape(d1, seq!['\\', ' '], sp);
    lemma_no_escape(d1, seq!['\\'], seq!['\\']);
    lemma_no_escape(d1, seq!['\\', '"'], seq!['"']);
    lemma_no_escape(d1, seq!['\\', '\''], seq!['\'']);
}

/// An `mdoc` comment line reads each of its escapes: the font escapes `\fI`,
/// `\fR` and `\fB` and the accent `\(aa` are dropped, and `\-` reads as a
/// dash, where the text around the escape holds no other backslash.
pub proof fn law_unix_comment_escapes(a: Seq<char>, b: Seq<char>)
    requires
        !a.contains('\\'),
        !b.contains('\\'),
    ensures
        unix_comment_of(a + seq!['\\', 'f', 'I'] + b) == a + b,
        unix_comment_of(a + seq!['\\', 'f', 'R'] + b) == a + b,
        unix_comment_of(a + seq!['\\', 'f', 'B'] + b) == a + b,
        unix_comment_of(a + seq!['\\', '-'] + b) == a + seq!['-'] + b,
        unix_comment_of(a + seq!['\\', '(', 'a', 'a'] + b) == a + b,
{
    let e = Seq::<char>::empty();
    let fi = seq!['\\', 'f', 'I'];
    let fr = seq!['\\', 'f', 'R'];
    let fb = seq!['\\', 'f', 'B'];
    let dash = seq!['\\', '-'];
    let aa = seq!['\\', '(', 'a', 'a'];
    let ab = a + b;
    assert(a + e + b =~= ab);
    lemma_concat_contains(a, b, '\\');
    let ad = a + seq!['-'] + b;
    lemma_concat_contains(a, seq!['-'], '\\');
    lemma_concat_contains(a + seq!['-'], b, '\\');
    // `\fI`
    lemma_escape_same(a, fi, b, e);
    lemma_no_escape(ab, fr, e);
    lemma_no_escape(ab, fb, e);
    lemma_no_escape(ab, dash, seq!['-']);
    lemma_no_escape(ab, aa, e);
    // `\fR`
    lemma_escape_other(a, fr, b, fi, e, 2);
    lemma_escape_same(a, fr, b, e);
    // `\fB`
    lemma_escape_other(a, fb, b, fi, e, 2);
    lemma_escape_other(a, fb, b, fr, e, 2);
    lemma_escape_same(a, fb, b, e);
    // `\-`
    lemma_escape_other(a, dash, b, fi, e, 1);
    lemma_escape_other(a, dash, b, fr, e, 1);
    lemma_escape_other(a, dash, b, fb, e, 1);
    lemma_escape_same(a, dash, b, seq!['-']);
    lemma_no_escape(ad, aa, e);
    // `\(aa`
    lemma_escape_other(a, aa, b, fi, e, 1);
    lemma_escape_other(a, aa, b, fr, e, 1);
    lemma_escape_other(a, aa, b, fb, e, 1);
    lemma_escape_other(a, aa, b, dash, seq!['-'], 1);
    lemma_escape_same(a, aa, b, e);
}

/// An `mdoc` comment line keeps no bold and no roman font escape: a line
/// `a\fBb\fRc`, where `a`, `b` and `c` hold no backslash, reads as `abc`.
pub proof fn law_unix_comment_drops_font_escapes(a: Seq<char>, b: Seq<char>, c: Seq<char>)
    requires
        !a.contains('\\'),
        !b.contains('\\'),
        !c.contains('\\'),
    ensures
        unix_comment_of(a + seq!['\\', 'f', 'B'] + b + seq!['\\', 'f', 'R'] + c) == a + b + c,
{
    let fb = seq!['\\', 'f', 'B'];
    let fr = seq!['\\', 'f', 'R'];
    let fi = seq!['\\', 'f', 'I'];
    let line = a + fb + b + fr + c;
    let e = Seq::<char>::empty();
    let n = a.len();
    let m = b.len();
    // Where a backslash stands in the line, and what follows it.
    assert forall|i: int| 0 <= i < line.len() && #[trigger] line[i] == '\\' implies (i == n && line[i + 2]
        == 'B') || (i == n + 3 + m && line[i + 2] == 'R') by {
        if i < n {
            assert(line[i] == a[i]);
        } else if i < n + 3 {
            assert(line[i] == fb[i - n]);
        } else if i < n + 3 + m {
            assert(line[i] == b[i - n - 3]);
        } else if i < n + 6 + m {
            assert(line[i] == fr[i - n - 3 - m]);
        } else {
            assert(line[i] == c[i - n - 6 - m]);
        }
    }
    assert(!has_substring(line, fi)) by {
        if has_substring(line, fi) {
            let i = choose|i: int| occurs_at(line, fi, i);
            lemma_occurs_chars(line, fi, i);
            assert(line[i + 0] == '\\');
            assert(line[i + 2] == 'I');
        }
    }
    lemma_replaced_none(line, fi, e);
    let x = a + fb + b;
    assert(line =~= x + (fr + c));
    assert forall|i: int| 0 <= i < x.len() implies !occurs_at(x + (fr + c), fr, i) by {
        if occurs_at(x + (fr + c), fr, i) {
            lemma_occurs_chars(line, fr, i);
            assert(line[i + 0] == '\\');
            assert(line[i + 2] == 'R');
        }
    }
    lemma_replaced_keeps(x, fr + c, fr, e);
    lemma_replaced_match(c, fr, e);
    lemma_no_first_char(c, fr);
    lemma_replaced_none(c, fr, e);
    let d2 = a + (fb + (b + c));
    assert(x + (e + c) =~= d2);
    lemma_no_occurrence_in(a, fb + (b + c), fb);
    lemma_replaced_keeps(a, fb + (b + c), fb, e);
    lemma_replaced_match(b + c, fb, e);
    lemma_concat_contains(b, c, '\\');
    lemma_no_first_char(b + c, fb);
    lemma_replaced_none(b + c, fb, e);
    let d3 = a + b + c;
    assert(a + (e + (b + c)) =~= d3);
    lemma_concat_contains(a, b, '\\');
    lemma_concat_contains(a + b, c, '\\');
    lemma_no_first_char(d3, seq!['\\', '-']);
    lemma_replaced_none(d3, seq!['\\', '-'], seq!['-']);
    lemma_no_first_char(d3, seq!['\\', '(', 'a', 'a']);
    lemma_replaced_none(d3, seq!['\\', '(', 'a', 'a'], e);
}

/// Reading the GNU options from an empty buffer before a `.TP` item line is
/// reading them with that line in the buffer: the item is found there.
pub proof fn law_gnu_item_line_is_found(
    recs: Seq<Option<Seq<char>>>,
    pos: int,
    t: Seq<char>,
    acc: Seq<ArgumentView>,
)
    requires
        0 <= pos < recs.len(),
        recs[pos] == Some(t),
        t.len() >= 3,
        t.take(3) == seq!['.', 'T', 'P'],
    ensures
        gnu_args_loop(recs, pos, seq![], acc) == gnu_args_loop(recs, pos + 1, t, acc),
{
    let e = Seq::<char>::empty();
    let tp = seq!['.', 'T', 'P'];
    let item = seq![tp];
    assert(e + t =~= t);
    assert(t.subrange(0, 3) =~= tp);
    assert(occurs_at(t, tp, 0));
    assert(has_substring(t, item[0]));
    assert(holds_one_of(t, item));
    assert(!has_substring(e, tp)) by {
        if has_substring(e, tp) {
            let i = choose|i: int| occurs_at(e, tp, i);
        }
    }
    // The third byte of the item line is that of `P`.
    let t1 = t.drop_first();
    let t2 = t1.drop_first();
    assert(t[0] == '.' && t1[0] == 'T' && t2[0] == 'P') by {
        assert(t.take(3)[0] == t[0]);
        assert(t.take(3)[1] == t[1]);
        assert(t.take(3)[2] == t[2]);
    }
    assert(encode_utf8(t) == encode_scalar(t[0] as u32) + encode_utf8(t1));
    assert(encode_utf8(t1) == encode_scalar(t1[0] as u32) + encode_utf8(t2));
    lemma_first_byte(t2);
    assert(encode_utf8(t)[2] == encode_utf8(t2)[0]);
    assert(to_multy(recs, pos, e, item) == (encode_utf8(t)[2], pos + 1, t));
}

/// A GNU `.TP` item whose tag line does not read as an option is skipped:
/// the options read are those read from the line after the tag line on, as
/// if the item were not there.
pub proof fn law_gnu_failed_item_is_skipped(
    recs: Seq<Option<Seq<char>>>,
    pos: int,
    line: Seq<char>,
    acc: Seq<ArgumentView>,
)
    requires
        0 <= pos < recs.len(),
        has_substring(line, seq!['.', 'T', 'P']),
        recs[pos] matches Some(o) && gnu_option_of(trimmed(o)) matches Err(_),
    ensures
        ({
            let (ok, p, l) = read_step(recs, pos + 1, seq![]);
            gnu_args_loop(recs, pos, line, acc) == gnu_args_loop(recs, p, l, acc)
        }),
{
    let e = Seq::<char>::empty();
    let o = recs[pos]->Some_0;
    assert(e + o =~= o);
    assert(read_step(recs, pos, e) == (true, pos + 1, o));
}

/// A GNU `.TP` item whose option reads but whose comments are ended at once,
/// by the line after the tag line, is skipped: the options read are those
/// read from that line on.
pub proof fn law_gnu_item_without_comments_is_skipped(
    recs: Seq<Option<Seq<char>>>,
    pos: int,
    line: Seq<char>,
    acc: Seq<ArgumentView>,
)
    requires
        0 <= pos,
        pos + 1 < recs.len(),
        has_substring(line, seq!['.', 'T', 'P']),
        recs[pos] matches Some(o) && gnu_option_of(trimmed(o)) is Ok,
        recs[pos + 1] matches Some(c) && ends_gnu_comments(c),
    ensures
        gnu_args_loop(recs, pos, line, acc) == gnu_args_loop(recs, pos + 2, recs[pos + 1]->Some_0, acc),
{
    let e = Seq::<char>::empty();
    let o = recs[pos]->Some_0;
    let c = recs[pos + 1]->Some_0;
    assert(e + o =~= o);
    assert(e + c =~= c);
    assert(read_step(recs, pos, e) == (true, pos + 1, o));
    assert(read_step(recs, pos + 1, e) == (true, pos + 2, c));
    let none = Seq::<Seq<char>>::empty();
    assert(gnu_comment_loop(recs, pos + 2, c, none) == (none, pos + 2, c));
}

/// A GNU `.TP` item whose tag line reads as an option and whose one comment
/// line reads as a comment is kept, with that option and that comment, after
/// the options read before it; reading goes on from the line that ends its
/// comments.
pub proof fn law_gnu_item_is_kept(
    recs: Seq<Option<Seq<char>>>,
    pos: int,
    line: Seq<char>,
    acc: Seq<ArgumentView>,
    option: Seq<char>,
)
    requires
        0 <= pos,
        pos + 2 < recs.len(),
        has_substring(line, seq!['.', 'T', 'P']),
        recs[pos] matches Some(o) && gnu_option_of(trimmed(o)) == Ok::<Seq<char>, Seq<char>>(option),
        recs[pos + 1] matches Some(c) && !ends_gnu_comments(c) && gnu_comment_of(c).len() > 0,
        recs[pos + 2] matches Some(t) && ends_gnu_comments(t),
    ensures
        gnu_args_loop(recs, pos, line, acc) == gnu_args_loop(
            recs,
            pos + 3,
            recs[pos + 2]->Some_0,
            acc.push(
                ArgumentView { option, comments: seq![gnu_comment_of(recs[pos + 1]->Some_0)] },
            ),
        ),
{
    let e = Seq::<char>::empty();
    let o = recs[pos]->Some_0;
    let c = recs[pos + 1]->Some_0;
    let t = recs[pos + 2]->Some_0;
    assert(e + o =~= o);
    assert(e + c =~= c);
    assert(e + t =~= t);
    assert(read_step(recs, pos, e) == (true, pos + 1, o));
    assert(gnu_option_read(recs, pos + 1, o) == (
        Ok::<Seq<char>, Seq<char>>(option),
        pos + 2,
        c,
    ));
    let d = seq![gnu_comment_of(c)];
    let none = Seq::<Seq<char>>::empty();
    assert(none.push(gnu_comment_of(c)) =~= d);
    assert(gnu_comment_loop(recs, pos + 3, t, d) == (d, pos + 3, t));
    assert(gnu_comment_loop(recs, pos + 2, c, none) == (d, pos + 3, t));
    assert(gnu_comments_from(recs, pos + 2, c) == (
        Ok::<Seq<Seq<char>>, Seq<char>>(d),
        pos + 3,
        t,
    ));
}

/// An `mdoc` option line, held in the buffer after the comments before it,
/// whose option reads and whose one comment line reads as a comment is kept,
/// with that option and that comment, after the options read before it;
/// reading goes on from the line that ends its comments.
pub proof fn law_unix_item_is_kept(
    recs: Seq<Option<Seq<char>>>,
    pos: int,
    line: Seq<char>,
    acc: Seq<ArgumentView>,
    option: Seq<char>,
)
    requires
        0 <= pos,
        pos + 1 < recs.len(),
        has_substring(line, unix_item()),
        unix_option_of(line) == Ok::<Seq<char>, Seq<char>>(option),
        recs[pos] matches Some(c) && !ends_unix_comments(c) && unix_comment_of(c).len() > 0,
        recs[pos + 1] matches Some(t) && ends_unix_comments(t),
    ensures
        unix_args_loop(recs, pos, line, true, acc) == unix_args_loop(
            recs,
            pos + 2,
            recs[pos + 1]->Some_0,
            true,
            acc.push(ArgumentView { option, comments: seq![unix_comment_of(recs[pos]->Some_0)] }),
        ),
{
    let e = Seq::<char>::empty();
    let c = recs[pos]->Some_0;
    let t = recs[pos + 1]->Some_0;
    assert(e + c =~= c);
    assert(e + t =~= t);
    let none = Seq::<Seq<char>>::empty();
    let d = seq![unix_comment_of(c)];
    assert(none.push(unix_comment_of(c)) =~= d);
    assert(unix_comment_loop(recs, pos + 1, d) == (d, pos + 2, t));
    assert(unix_comment_loop(recs, pos, none) == (d, pos + 2, t));
}

} // verus!
