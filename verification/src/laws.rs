//! What holds of every manual that the readers return, and of the roots of a
//! MANPATH.

use vstd::prelude::*;
use vstd::utf8::*;

use crate::mans::{
    gnu_args_loop, gnu_comment_loop, gnu_comment_of, gnu_comments_from, gnu_command_read,
    gnu_description_of, gnu_names_of, gnu_option_of, gnu_option_read, holds_next_item,
    lemma_gnu_comment_loop, lemma_unix_comment_loop, unix_item, man_of, unix_args_loop,
    unix_args_read, unix_command_read, unix_comment_loop, unix_comment_of, unix_comment_read,
    unix_description_of, unix_man_read, unix_names_of, unix_option_of, ends_gnu_comments,
    ends_unix_comments, ArgumentView, CommandView, ManView,
};
use crate::reader::{clear_to, lemma_clear_to, lemma_to_multy, read_step, to_multy};
use crate::text::{
    has_substring, joined, lemma_prefix_before_chars, lemma_replaced_absent,
    lemma_replaced_chars, lemma_skipped_chars, lemma_split_join, lemma_split_pieces,
    lemma_trimmed_chars, lemma_trimmed_twice, lemma_words, prefix_before, replaced, skipped,
    split_on, trimmed,
};

verus! {

/// A command name: not empty, without spaces and without commas.
pub open spec fn is_name(w: Seq<char>) -> bool {
    w.len() > 0 && !w.contains(' ') && !w.contains(',')
}

/// A command read from a manual: at least one name, each a name, and a
/// description that is not empty and holds no comma.
pub open spec fn command_well_formed(c: CommandView) -> bool {
    &&& c.names.len() > 0
    &&& forall|i: int| 0 <= i < c.names.len() ==> is_name(#[trigger] c.names[i])
    &&& c.description.len() > 0
    &&& !c.description.contains(',')
}

/// An option: not empty, starting with a dash, without spaces.
pub open spec fn is_option(o: Seq<char>) -> bool {
    o.len() > 0 && o[0] == '-' && !o.contains(' ')
}

/// Comments: at least one, none of them empty.
pub open spec fn comments_well_formed(c: Seq<Seq<char>>) -> bool {
    c.len() > 0 && forall|i: int| 0 <= i < c.len() ==> (#[trigger] c[i]).len() > 0
}

/// An argument read from a manual: an option and its comments.
pub open spec fn argument_well_formed(a: ArgumentView) -> bool {
    is_option(a.option) && comments_well_formed(a.comments)
}

/// All arguments of a list are well formed.
pub open spec fn arguments_well_formed(args: Seq<ArgumentView>) -> bool {
    forall|i: int| 0 <= i < args.len() ==> argument_well_formed(#[trigger] args[i])
}

/// A manual read from a file: a well-formed command and at least one
/// argument, each well formed.
pub open spec fn man_well_formed(m: ManView) -> bool {
    command_well_formed(m.command) && m.arguments.len() > 0 && arguments_well_formed(m.arguments)
}

/// A text whose UTF-8 encoding starts with the byte of a dash starts with a
/// dash.
proof fn lemma_first_byte_dash(s: Seq<char>)
    requires
        s.len() > 0,
        encode_utf8(s)[0] == 45,
    ensures
        s[0] == '-',
{
    crate::reader::lemma_first_byte(s);
    char_u32_cast(s[0], 45);
    char_u32_cast('-', 45);
}

/// The names of a GNU NAME line are names.
proof fn lemma_gnu_names(line: Seq<char>)
    ensures
        gnu_names_of(line) matches Ok(names) ==> names.len() > 0 && forall|i: int|
            0 <= i < names.len() ==> is_name(#[trigger] names[i]),
{
    let lines0 = replaced(line, seq![','], seq![]);
    let lines1 = if encode_utf8(lines0)[0] == 92 {
        skipped(lines0, 3)
    } else {
        lines0
    };
    let lines2 = prefix_before(lines1, seq!['\\']);
    lemma_replaced_chars(line, seq![','], seq![], ',');
    lemma_skipped_chars(lines0, 3, ',');
    lemma_prefix_before_chars(lines1, seq!['\\'], ',');
    lemma_words(lines2);
}

/// The names of an `mdoc` `.Nm` line are names.
proof fn lemma_unix_names(line: Seq<char>)
    ensures
        unix_names_of(line) matches Ok(names) ==> names.len() > 0 && forall|i: int|
            0 <= i < names.len() ==> is_name(#[trigger] names[i]),
{
    let l0 = replaced(line, seq![','], seq![]);
    let l1 = trimmed(l0);
    let lines = skipped(l1, 4);
    lemma_replaced_chars(line, seq![','], seq![], ',');
    lemma_trimmed_chars(l0, ',');
    lemma_skipped_chars(l1, 4, ',');
    lemma_words(lines);
}

/// A GNU description is not empty and holds no comma.
proof fn lemma_gnu_description(line: Seq<char>)
    ensures
        gnu_description_of(line) matches Ok(d) ==> d.len() > 0 && !d.contains(','),
{
    let r1 = replaced(line, seq![','], seq![]);
    let r2 = replaced(r1, seq!['\\'], seq![]);
    lemma_replaced_chars(line, seq![','], seq![], ',');
    lemma_replaced_chars(r1, seq!['\\'], seq![], ',');
    lemma_trimmed_chars(r2, ',');
}

/// An `mdoc` description is not empty and holds no comma.
proof fn lemma_unix_description(line: Seq<char>)
    ensures
        unix_description_of(line) matches Ok(d) ==> d.len() > 0 && !d.contains(','),
{
    let r0 = replaced(line, seq![','], seq![]);
    let r1 = trimmed(r0);
    let d0 = skipped(r1, 4);
    let d1 = prefix_before(d0, seq!['\\']);
    lemma_replaced_chars(line, seq![','], seq![], ',');
    lemma_trimmed_chars(r0, ',');
    lemma_skipped_chars(r1, 4, ',');
    lemma_prefix_before_chars(d0, seq!['\\'], ',');
}

/// An `mdoc` option is an option.
proof fn lemma_unix_option(line: Seq<char>)
    ensures
        unix_option_of(line) matches Ok(o) ==> is_option(o),
{
    let o0 = trimmed(line);
    let o1 = replaced(o0, seq!['\\', '-'], seq!['-']);
    let o2 = replaced(o1, seq!['\\', '&'], seq![]);
    let o3 = skipped(o2, 7);
    let o4 = prefix_before(o3, seq![' ', '\\', '"', ',']);
    lemma_prefix_before_chars(o3, seq![' ', '\\', '"', ','], ' ');
    assert(seq![' ', '\\', '"', ','][0] == ' ');
    let o = seq!['-'] + o4;
    if o.contains(' ') {
        let k = choose|k: int| 0 <= k < o.len() && o[k] == ' ';
        assert(o4[k - 1] == ' ');
    }
}

/// A GNU option is an option.
proof fn lemma_gnu_option(option: Seq<char>)
    ensures
        gnu_option_of(option) matches Ok(o) ==> is_option(o),
{
    if let Ok(o) = gnu_option_of(option) {
        let o1 = skipped(prefix_before(option, seq!['"']), 3);
        let o2 = if crate::text::has_substring(o1, seq!['^']) {
            replaced(
                prefix_before(crate::text::suffix_from(o1, seq!['^']), seq![' ']),
                seq!['^'],
                seq!['-'],
            )
        } else if crate::text::has_substring(o1, seq!['-']) || crate::text::has_substring(
            o1,
            seq!['\\'],
        ) {
            replaced(
                replaced(
                    replaced(o1, seq!['\\', '-'], seq!['-']),
                    seq!['\\', '\\', 'f', 'R'],
                    seq!['\n'],
                ),
                seq!['*', '='],
                seq!['-', '-'],
            )
        } else {
            o1
        };
        lemma_replaced_chars(prefix_before(o2, seq!['\\']), seq![' '], seq![], ' ');
        lemma_first_byte_dash(o);
    }
}

/// The comments read after those of `acc` are not empty when those of `acc`
/// are not.
proof fn lemma_gnu_comments_not_empty(
    recs: Seq<Option<Seq<char>>>,
    pos: int,
    line: Seq<char>,
    acc: Seq<Seq<char>>,
)
    requires
        forall|i: int| 0 <= i < acc.len() ==> (#[trigger] acc[i]).len() > 0,
    ensures
        ({
            let d = gnu_comment_loop(recs, pos, line, acc).0;
            forall|i: int| 0 <= i < d.len() ==> (#[trigger] d[i]).len() > 0
        }),
    decreases recs.len() - pos, line.len(),
{
    if ends_gnu_comments(line) {
        assert(gnu_comment_loop(recs, pos, line, acc).0 == acc);
    } else {
        let d = gnu_comment_of(line);
        let next = if d.len() > 0 {
            acc.push(d)
        } else {
            acc
        };
        assert forall|i: int| 0 <= i < next.len() implies (#[trigger] next[i]).len() > 0 by {
            if i < acc.len() {
                assert(next[i] == acc[i]);
            }
        }
        let (ok, p, l) = read_step(recs, pos, seq![]);
        if ok {
            assert(gnu_comment_loop(recs, pos, line, acc) == gnu_comment_loop(recs, p, l, next));
            lemma_gnu_comments_not_empty(recs, p, l, next);
        } else {
            assert(gnu_comment_loop(recs, pos, line, acc).0 == next);
        }
    }
}

/// The `mdoc` comments read after those of `acc` are not empty when those of
/// `acc` are not.
proof fn lemma_unix_comments_not_empty(recs: Seq<Option<Seq<char>>>, pos: int, acc: Seq<Seq<char>>)
    requires
        forall|i: int| 0 <= i < acc.len() ==> (#[trigger] acc[i]).len() > 0,
    ensures
        ({
            let d = unix_comment_loop(recs, pos, acc).0;
            forall|i: int| 0 <= i < d.len() ==> (#[trigger] d[i]).len() > 0
        }),
    decreases recs.len() - pos,
{
    let (ok, p, l) = read_step(recs, pos, seq![]);
    if !ok || ends_unix_comments(l) {
        assert(unix_comment_loop(recs, pos, acc).0 == acc);
    } else {
        let d = unix_comment_of(l);
        let next = if d.len() > 0 {
            acc.push(d)
        } else {
            acc
        };
        assert forall|i: int| 0 <= i < next.len() implies (#[trigger] next[i]).len() > 0 by {
            if i < acc.len() {
                assert(next[i] == acc[i]);
            }
        }
        assert(unix_comment_loop(recs, pos, acc) == unix_comment_loop(recs, p, next));
        lemma_unix_comments_not_empty(recs, p, next);
    }
}

/// Appending a well-formed argument keeps a list well formed.
proof fn lemma_push_argument(acc: Seq<ArgumentView>, a: ArgumentView)
    requires
        arguments_well_formed(acc),
        argument_well_formed(a),
    ensures
        arguments_well_formed(acc.push(a)),
{
    assert forall|i: int| 0 <= i < acc.push(a).len() implies argument_well_formed(
        #[trigger] acc.push(a)[i],
    ) by {
        if i < acc.len() {
            assert(acc.push(a)[i] == acc[i]);
        }
    }
}

/// The GNU arguments read after those of `acc` are well formed when those of
/// `acc` are.
proof fn lemma_gnu_args_loop(
    recs: Seq<Option<Seq<char>>>,
    pos: int,
    line: Seq<char>,
    acc: Seq<ArgumentView>,
)
    requires
        arguments_well_formed(acc),
    ensures
        arguments_well_formed(gnu_args_loop(recs, pos, line, acc).0),
    decreases recs.len() - pos, line.len(),
{
    let item = seq![seq!['.', 'T', 'P']];
    let (m, p1, l1) = if has_substring(line, item[0]) {
        (1u8, pos, line)
    } else {
        to_multy(recs, pos, line, item)
    };
    if m != 0 {
        lemma_to_multy(recs, pos, line, item);
        let (ok, p2, l2) = read_step(recs, p1, seq![]);
        let (o, p3, l3) = gnu_option_read(recs, p2, l2);
        lemma_gnu_option(trimmed(l2));
        match o {
            Err(_) => {
                lemma_gnu_args_loop(recs, p3, l3, acc);
            },
            Ok(option) => {
                lemma_gnu_comment_loop(recs, p3, l3, seq![]);
                let (c, p4, l4) = gnu_comments_from(recs, p3, l3);
                lemma_gnu_comments_not_empty(recs, p3, l3, seq![]);
                match c {
                    Ok(comments) => {
                        let a = ArgumentView { option, comments };
                        lemma_push_argument(acc, a);
                        lemma_gnu_args_loop(recs, p4, l4, acc.push(a));
                    },
                    Err(_) => {
                        lemma_gnu_args_loop(recs, p4, l4, acc);
                    },
                }
            },
        }
    }
}

/// The `mdoc` arguments read after those of `acc` are well formed when those
/// of `acc` are.
proof fn lemma_unix_args_loop(
    recs: Seq<Option<Seq<char>>>,
    pos: int,
    line: Seq<char>,
    carried: bool,
    acc: Seq<ArgumentView>,
)
    requires
        arguments_well_formed(acc),
    ensures
        arguments_well_formed(unix_args_loop(recs, pos, line, carried, acc).0),
    decreases recs.len() - pos, if holds_next_item(line, carried) {
        1int
    } else {
        0int
    },
{
    let (found, p1, l1) = if holds_next_item(line, carried) {
        (true, pos, line)
    } else {
        clear_to(recs, pos, unix_item())
    };
    if found {
        lemma_clear_to(recs, pos, unix_item());
        lemma_unix_option(l1);
        match unix_option_of(l1) {
            Err(_) => {
                lemma_unix_args_loop(recs, p1, l1, false, acc);
            },
            Ok(option) => {
                lemma_unix_comment_loop(recs, p1, seq![]);
                lemma_unix_comments_not_empty(recs, p1, seq![]);
                let (c, p2, l2) = unix_comment_read(recs, p1);
                match c {
                    Ok(comments) => {
                        let a = ArgumentView { option, comments };
                        lemma_push_argument(acc, a);
                        lemma_unix_args_loop(recs, p2, l2, true, acc.push(a));
                    },
                    Err(_) => {
                        lemma_unix_args_loop(recs, p2, l2, true, acc);
                    },
                }
            },
        }
    }
}

/// Every manual that the readers return is well formed: its command has at
/// least one name, each name is non-empty and holds no space and no comma,
/// its description is non-empty and holds no comma; it has at least one
/// argument, and each argument has an option that starts with a dash and
/// holds no space, and at least one comment, none of them empty.
pub proof fn law_read_manuals_are_well_formed(content: Seq<u8>)
    ensures
        match man_of(content) {
            Some(Ok(m)) => man_well_formed(m),
            _ => true,
        },
{
    let recs = crate::reader::line_records(content);
    let (m, p, l) = to_multy(recs, 0, seq![], crate::mans::section_headers());
    if m == 104 {
        let (c, p1, l1) = unix_command_read(recs, p);
        let (f1, q1, k1) = clear_to(recs, p, seq!['.', 'N', 'm']);
        lemma_unix_names(k1);
        if f1 {
            let (f2, q2, k2) = clear_to(recs, q1, seq!['.', 'N', 'd']);
            lemma_unix_description(k2);
        }
        lemma_unix_args_loop(recs, p1, seq![], false, seq![]);
    } else if m == 72 {
        let (c, p1, l1) = gnu_command_read(recs, p, seq![]);
        let (ok, q, k) = read_step(recs, p, seq![]);
        let pieces = split_on(
            replaced(k, seq!['\\', '-', ' '], seq!['-', ' ']),
            seq!['-', ' '],
        );
        lemma_gnu_names(pieces[0]);
        if pieces.len() > 1 {
            lemma_gnu_description(pieces[1]);
        }
        let (mm, pp, ll) = to_multy(recs, p1, l1, seq![seq!['O', 'P', 'T', 'I', 'O', 'N', 'S']]);
        lemma_gnu_args_loop(recs, pp, seq![], seq![]);
    }
}

/// Splitting a MANPATH into its roots (as `new` does) loses nothing: the
/// roots joined with colons give the MANPATH back, and no root holds a colon.
pub proof fn law_manpath_roots(manpath: Seq<char>)
    ensures
        joined(split_on(manpath, seq![':']), seq![':']) == manpath,
        forall|i: int|
            0 <= i < split_on(manpath, seq![':']).len() ==> !(#[trigger] split_on(
                manpath,
                seq![':'],
            )[i]).contains(':'),
{
    lemma_split_join(manpath, seq![':']);
    lemma_split_pieces(manpath, ':');
}

/// Reading a GNU description again gives it back: a description holds no
/// comma and no backslash and is already trimmed.
pub proof fn law_gnu_description_again(line: Seq<char>)
    ensures
        gnu_description_of(line) matches Ok(d) ==> gnu_description_of(d) == Ok::<
            Seq<char>,
            Seq<char>,
        >(d),
{
    let r1 = replaced(line, seq![','], seq![]);
    let r2 = replaced(r1, seq!['\\'], seq![]);
    let d = trimmed(r2);
    lemma_replaced_chars(line, seq![','], seq![], ',');
    lemma_replaced_chars(r1, seq!['\\'], seq![], ',');
    lemma_replaced_chars(r1, seq!['\\'], seq![], '\\');
    lemma_trimmed_chars(r2, ',');
    lemma_trimmed_chars(r2, '\\');
    lemma_replaced_absent(d, ',');
    lemma_replaced_absent(d, '\\');
    lemma_trimmed_twice(r2);
}

/// The `mdoc` command reader (`Command::from_unix`) reads the names of the
/// first line that holds `.Nm` and the description of the first line after
/// it that holds `.Nd`; when either line is missing or either reading fails,
/// the command is invalid.
pub proof fn law_unix_command_reads_name_then_description(recs: Seq<Option<Seq<char>>>, pos: int)
    ensures
        ({
            let (f1, p1, l1) = clear_to(recs, pos, seq!['.', 'N', 'm']);
            let (f2, p2, l2) = clear_to(recs, p1, seq!['.', 'N', 'd']);
            unix_command_read(recs, pos).0 == match (
                f1,
                unix_names_of(l1),
                f2,
                unix_description_of(l2),
            ) {
                (true, Ok(names), true, Ok(description)) => Ok(CommandView { names, description }),
                _ => Err("invalid unix's command"@),
            }
        }),
{
}

/// The `mdoc` manual reader (`Man::read_unix`) is the command reader followed
/// by the options reader; when either fails, the manual is invalid.
pub proof fn law_unix_man_reads_command_then_options(recs: Seq<Option<Seq<char>>>, pos: int)
    ensures
        ({
            let (c, p, l) = unix_command_read(recs, pos);
            unix_man_read(recs, pos) == match (c, unix_args_read(recs, p).0) {
                (Ok(command), Ok(arguments)) => Ok(ManView { command, arguments }),
                _ => Err("invalid unix's man"@),
            }
        }),
{
}

} // verus!
