//! The manual readers: the name, the description and the options of a
//! command, read from its manual in the BSD `mdoc` dialect (sections
//! opened by `.Sh`) or in the GNU `man` dialect (sections opened by `.SH`).

use vstd::prelude::*;
use vstd::utf8::encode_utf8;

use crate::reader::{
    clear_to, line_clear_to, line_records, line_to_multy, read_step, to_multy, LineReader,
};
use crate::text::{
    chars_of, four, has_substring, none, one, prefix_before, replace, replaced, skip, skip_until,
    skipped, split, split_on, strings, suffix_from, take_until, texts, three, to_string, trim,
    trimmed, two, words, words_of,
};

verus! {

// ---------------------------------------------------------------------------
// The data read from a manual
// ---------------------------------------------------------------------------

/// The `command` structure is a name ("bc") and
/// a description ("An arbitrary precision...").
pub struct Command {
    pub names: Vec<String>,
    pub description: String,
}

/// What a `Command` holds.
pub struct CommandView {
    pub names: Seq<Seq<char>>,
    pub description: Seq<char>,
}

impl View for Command {
    type V = CommandView;

    open spec fn view(&self) -> CommandView {
        CommandView { names: strings(self.names@), description: self.description@ }
    }
}

/// The `argument` structure is the first option ("-h") and
/// all comments ("Print the usage and exit.", ...).
pub struct Argument {
    pub option: String,
    pub comments: Vec<String>,
}

/// What an `Argument` holds.
pub struct ArgumentView {
    pub option: Seq<char>,
    pub comments: Seq<Seq<char>>,
}

impl View for Argument {
    type V = ArgumentView;

    open spec fn view(&self) -> ArgumentView {
        ArgumentView { option: self.option@, comments: strings(self.comments@) }
    }
}

/// The `mans` structure is a defined by the two
/// structures command and Argument
pub struct Man {
    pub command: Command,
    pub arguments: Vec<Argument>,
}

/// What a `Man` holds.
pub struct ManView {
    pub command: CommandView,
    pub arguments: Seq<ArgumentView>,
}

/// The views of a list of arguments.
pub open spec fn argument_views(v: Seq<Argument>) -> Seq<ArgumentView> {
    v.map_values(|a: Argument| a@)
}

impl View for Man {
    type V = ManView;

    open spec fn view(&self) -> ManView {
        ManView { command: self.command@, arguments: argument_views(self.arguments@) }
    }
}

// ---------------------------------------------------------------------------
// Text of one line
// ---------------------------------------------------------------------------

/// The names of a GNU command line ("bc, dc" in "bc, dc \- calculators"):
/// without commas, without a leading three-character escape when the line
/// starts with a backslash, cut at the first backslash, split at spaces.
/// When no name is left, the text that was split.
pub open spec fn gnu_names_of(line: Seq<char>) -> Result<Seq<Seq<char>>, Seq<char>> {
    let lines0 = replaced(line, seq![','], seq![]);
    let lines1 = if encode_utf8(lines0)[0] == 92 {
        skipped(lines0, 3)
    } else {
        lines0
    };
    let lines2 = prefix_before(lines1, seq!['\\']);
    let names = words_of(lines2);
    if names.len() > 0 {
        Ok(names)
    } else {
        Err(lines2)
    }
}

/// The description of a GNU command line: without commas and backslashes,
/// trimmed; an error when nothing is left.
pub open spec fn gnu_description_of(line: Seq<char>) -> Result<Seq<char>, Seq<char>> {
    let d = trimmed(replaced(replaced(line, seq![','], seq![]), seq!['\\'], seq![]));
    if d.len() > 0 {
        Ok(d)
    } else {
        Err(d)
    }
}

/// The names of an `mdoc` `.Nm` line: without commas, trimmed, without the
/// four characters of the macro, split at spaces. When no name is left, the
/// text that was split.
pub open spec fn unix_names_of(line: Seq<char>) -> Result<Seq<Seq<char>>, Seq<char>> {
    let lines = skipped(trimmed(replaced(line, seq![','], seq![])), 4);
    let names = words_of(lines);
    if names.len() > 0 {
        Ok(names)
    } else {
        Err(lines)
    }
}

/// The description of an `mdoc` `.Nd` line: without commas, trimmed,
/// without the four characters of the macro, cut at the first backslash
/// (double quotes are kept); an error when nothing is left.
pub open spec fn unix_description_of(line: Seq<char>) -> Result<Seq<char>, Seq<char>> {
    let d0 = skipped(trimmed(replaced(line, seq![','], seq![])), 4);
    let d1 = prefix_before(d0, seq!['\\']);
    if d1.len() > 0 {
        Ok(d1)
    } else {
        Err(d1)
    }
}

/// The option of an `mdoc` `.It Fl` line: trimmed, `\-` read as `-`, `\&`
/// dropped, without the seven characters of the macro, cut at the first
/// space, backslash, double quote or comma, and given a leading dash; the
/// line itself when nothing is left.
pub open spec fn unix_option_of(line: Seq<char>) -> Result<Seq<char>, Seq<char>> {
    let o0 = trimmed(line);
    let o1 = replaced(o0, seq!['\\', '-'], seq!['-']);
    let o2 = replaced(o1, seq!['\\', '&'], seq![]);
    let o3 = skipped(o2, 7);
    let o4 = prefix_before(o3, seq![' ', '\\', '"', ',']);
    if o4.len() > 0 {
        Ok(seq!['-'] + o4)
    } else {
        Err(line)
    }
}

/// The option of a trimmed GNU option line (the line after a `.TP` item
/// line): cut at the first double
/// quote, without the three characters of the macro; then, when it holds a
/// caret, from the caret to the next space with carets read as dashes, or
/// else, when it holds a dash or a backslash, with `\-` read as `-`,
/// `\\fR` read as a newline and `*=` read as `--`; then cut at the first
/// backslash and without spaces. It must start with a dash.
pub open spec fn gnu_option_of(option: Seq<char>) -> Result<Seq<char>, Seq<char>> {
    let o1 = skipped(prefix_before(option, seq!['"']), 3);
    let o2 = if has_substring(o1, seq!['^']) {
        replaced(prefix_before(suffix_from(o1, seq!['^']), seq![' ']), seq!['^'], seq!['-'])
    } else if has_substring(o1, seq!['-']) || has_substring(o1, seq!['\\']) {
        replaced(
            replaced(replaced(o1, seq!['\\', '-'], seq!['-']), seq!['\\', '\\', 'f', 'R'], seq!['\n']),
            seq!['*', '='],
            seq!['-', '-'],
        )
    } else {
        o1
    };
    let o3 = replaced(prefix_before(o2, seq!['\\']), seq![' '], seq![]);
    if o3.len() > 0 && encode_utf8(o3)[0] == 45 {
        Ok(o3)
    } else {
        Err(o3)
    }
}

/// A GNU comment line: trimmed; from its first space on when it starts with
/// a dot (a macro); without the font escapes `\\fP`, `\\fI` and `\f`, without
/// `\&`, with `\ `, `\"` and `\'` read as the character they escape.
pub open spec fn gnu_comment_of(line: Seq<char>) -> Seq<char> {
    let d0 = trimmed(line);
    let d1 = if d0.len() > 0 && encode_utf8(d0)[0] == 46 {
        suffix_from(d0, seq![' '])
    } else {
        d0
    };
    let d2 = replaced(d1, seq!['\\', '\\', 'f', 'P'], seq![]);
    let d3 = replaced(d2, seq!['\\', '\\', 'f', 'I'], seq![]);
    let d4 = replaced(d3, seq!['\\', 'f'], seq![]);
    let d5 = replaced(d4, seq!['\\', '&'], seq![]);
    let d6 = replaced(d5, seq!['\\', ' '], seq![' ']);
    let d7 = replaced(d6, seq!['\\'], seq!['\\']);
    let d8 = replaced(d7, seq!['\\', '"'], seq!['"']);
    replaced(d8, seq!['\\', '\''], seq!['\''])
}

/// An `mdoc` comment line: without the font escapes `\fI`, `\fR` and `\fB`,
/// with `\-` read as `-`, without `\(aa`.
pub open spec fn unix_comment_of(line: Seq<char>) -> Seq<char> {
    let d1 = replaced(line, seq!['\\', 'f', 'I'], seq![]);
    let d2 = replaced(d1, seq!['\\', 'f', 'R'], seq![]);
    let d3 = replaced(d2, seq!['\\', 'f', 'B'], seq![]);
    let d4 = replaced(d3, seq!['\\', '-'], seq!['-']);
    replaced(d4, seq!['\\', '(', 'a', 'a'], seq![])
}

/// The view of a result that holds text.
pub open spec fn text_result(r: Result<String, String>) -> Result<Seq<char>, Seq<char>> {
    match r {
        Ok(v) => Ok(v@),
        Err(e) => Err(e@),
    }
}

/// The view of a result that holds a list of texts.
pub open spec fn texts_result(r: Result<Vec<String>, String>) -> Result<Seq<Seq<char>>, Seq<char>> {
    match r {
        Ok(v) => Ok(strings(v@)),
        Err(e) => Err(e@),
    }
}

/// The `String`s of a list of character vectors.
fn to_strings(v: &Vec<Vec<char>>) -> (res: Vec<String>)
    ensures
        strings(res@) == texts(v@),
{
    let mut res: Vec<String> = Vec::new();
    let mut i: usize = 0;
    while i < v.len()
        invariant
            i <= v@.len(),
            strings(res@) == texts(v@).take(i as int),
        decreases v@.len() - i,
    {
        let ghost before = strings(res@);
        res.push(to_string(&v[i]));
        assert(strings(res@) =~= before.push(v@[i as int]@));
        assert(texts(v@).take(i + 1) =~= texts(v@).take(i as int).push(v@[i as int]@));
        i = i + 1;
    }
    assert(texts(v@).take(i as int) =~= texts(v@));
    res
}

/// `gnu_option_of`, computed on an option line that is already trimmed.
fn gnu_option_text(option: &[char]) -> (res: Result<String, String>)
    ensures
        text_result(res) == gnu_option_of(option@),
{
    let o0 = take_until(option, &one('"'));
    let o1 = skip(&o0, 3);
    let o2 = if crate::text::find(&o1, &one('^')) {
        let a = skip_until(&o1, &one('^'));
        let b = take_until(&a, &one(' '));
        replace(&b, &one('^'), &one('-'))
    } else if crate::text::find(&o1, &one('-')) || crate::text::find(&o1, &one('\\')) {
        let a = replace(&o1, &two('\\', '-'), &one('-'));
        let b = replace(&a, &four('\\', '\\', 'f', 'R'), &one('\n'));
        replace(&b, &two('*', '='), &two('-', '-'))
    } else {
        o1
    };
    let o3 = take_until(&o2, &one('\\'));
    let o4 = replace(&o3, &one(' '), &none());
    let text = to_string(&o4);
    if o4.len() > 0 {
        let bytes = text.as_str().as_bytes();
        proof {
            crate::reader::lemma_encode_len(o4@);
        }
        if bytes[0] == 45 {
            return Ok(text);
        }
    }
    Err(text)
}

/// `gnu_comment_of`, computed.
fn gnu_comment_text(line: &[char]) -> (res: Vec<char>)
    ensures
        res@ == gnu_comment_of(line@),
{
    let mut d = trim(line);
    if d.len() > 0 {
        let text = to_string(&d);
        let bytes = text.as_str().as_bytes();
        proof {
            crate::reader::lemma_encode_len(d@);
        }
        if bytes[0] == 46 {
            d = skip_until(&d, &one(' '));
        }
    }
    d = replace(&d, &four('\\', '\\', 'f', 'P'), &none());
    d = replace(&d, &four('\\', '\\', 'f', 'I'), &none());
    d = replace(&d, &two('\\', 'f'), &none());
    d = replace(&d, &two('\\', '&'), &none());
    d = replace(&d, &two('\\', ' '), &one(' '));
    d = replace(&d, &one('\\'), &one('\\'));
    d = replace(&d, &two('\\', '"'), &one('"'));
    replace(&d, &two('\\', '\''), &one('\''))
}

/// `unix_comment_of`, computed.
fn unix_comment_text(line: &[char]) -> (res: Vec<char>)
    ensures
        res@ == unix_comment_of(line@),
{
    let d1 = replace(line, &three('\\', 'f', 'I'), &none());
    let d2 = replace(&d1, &three('\\', 'f', 'R'), &none());
    let d3 = replace(&d2, &three('\\', 'f', 'B'), &none());
    let d4 = replace(&d3, &two('\\', '-'), &one('-'));
    replace(&d4, &four('\\', '(', 'a', 'a'), &none())
}

impl Command {
    /// The `gnu_names` function returns the command
    /// names from the man's gnu ("bc", "echo", [...]); the line without
    /// commas must not be empty.
    pub fn gnu_names(line: &[char]) -> (res: Result<Vec<String>, String>)
        requires
            replaced(line@, seq![','], seq![]).len() > 0,
        ensures
            texts_result(res) == gnu_names_of(line@),
    {
        let mut lines = replace(line, &one(','), &none());
        let text = to_string(&lines);
        let bytes = text.as_str().as_bytes();
        proof {
            crate::reader::lemma_encode_len(lines@);
        }
        if 92 == bytes[0] {
            lines = skip(&lines, 3);
        }
        lines = take_until(&lines, &one('\\'));
        let names = words(&lines);
        if names.len() > 0 {
            return Ok(to_strings(&names));
        }
        Err(to_string(&lines))
    }

    /// The `gnu_description` function returns the description
    /// from the man's gnu ("An arbitrary...", [...]).
    pub fn gnu_description(line: &[char]) -> (res: Result<String, String>)
        ensures
            text_result(res) == gnu_description_of(line@),
    {
        let d0 = replace(line, &one(','), &none());
        let d1 = replace(&d0, &one('\\'), &none());
        let description = trim(&d1);
        if description.len() > 0 {
            return Ok(to_string(&description));
        }
        Err(to_string(&description))
    }

    /// The `unix_names` function returns the command
    /// names from the man's unix ("bc", "echo", [...]).
    pub fn unix_names(line: &[char]) -> (res: Result<Vec<String>, String>)
        ensures
            texts_result(res) == unix_names_of(line@),
    {
        let l0 = replace(line, &one(','), &none());
        let l1 = trim(&l0);
        let lines = skip(&l1, 4);
        let names = words(&lines);
        if names.len() > 0 {
            return Ok(to_strings(&names));
        }
        Err(to_string(&lines))
    }

    /// The `unix_description` function returns the description
    /// from the man's unix ("An arbitrary...", [...]).
    pub fn unix_description(line: &[char]) -> (res: Result<String, String>)
        ensures
            text_result(res) == unix_description_of(line@),
    {
        let d0 = replace(line, &one(','), &none());
        let d1 = trim(&d0);
        let d2 = skip(&d1, 4);
        let description = take_until(&d2, &one('\\'));
        if description.len() > 0 {
            return Ok(to_string(&description));
        }
        Err(to_string(&description))
    }
}

// ---------------------------------------------------------------------------
// Reading a manual
// ---------------------------------------------------------------------------

/// Reads the option of the buffer (`Argument::gnu_option`): the buffer, which
/// holds the option line of a `.TP` item, is trimmed; then it is cleared and
/// the next line (the first comment line) is read into it. The option is that
/// of the trimmed option line when the read succeeds; otherwise the trimmed
/// option line is the error.
pub open spec fn gnu_option_read(recs: Seq<Option<Seq<char>>>, pos: int, line: Seq<char>) -> (
    Result<Seq<char>, Seq<char>>,
    int,
    Seq<char>,
) {
    let option = trimmed(line);
    let (ok, p, l) = read_step(recs, pos, seq![]);
    (
        if ok {
            gnu_option_of(option)
        } else {
            Err(option)
        },
        p,
        l,
    )
}

/// A GNU line that ends the comments of an option: an empty one, or one that
/// holds `.SH`, `\-` or `.TP`.
pub open spec fn ends_gnu_comments(l: Seq<char>) -> bool {
    ||| l.len() == 0
    ||| has_substring(l, seq!['.', 'S', 'H'])
    ||| has_substring(l, seq!['\\', '-'])
    ||| has_substring(l, seq!['.', 'T', 'P'])
}

/// Reads the comment lines of a GNU option, the first one being the line
/// that the buffer holds: each line that does not end the comments is
/// cleaned by `gnu_comment_of` and kept when not empty, after those of `acc`,
/// and the next line is read into the cleared buffer; a failed read ends them.
pub open spec fn gnu_comment_loop(
    recs: Seq<Option<Seq<char>>>,
    pos: int,
    line: Seq<char>,
    acc: Seq<Seq<char>>,
) -> (Seq<Seq<char>>, int, Seq<char>)
    decreases recs.len() - pos, line.len(),
{
    if ends_gnu_comments(line) {
        (acc, pos, line)
    } else {
        let d = gnu_comment_of(line);
        let next = if d.len() > 0 {
            acc.push(d)
        } else {
            acc
        };
        let (ok, p, l) = read_step(recs, pos, seq![]);
        if !ok {
            (next, p, l)
        } else {
            gnu_comment_loop(recs, p, l, next)
        }
    }
}

/// The comments of a GNU option from the line that the buffer holds on (the
/// comments of an item in `Argument::from_gnu`, whose first line the option
/// reader has read); the line that ended them is the error when there are
/// none.
pub open spec fn gnu_comments_from(recs: Seq<Option<Seq<char>>>, pos: int, line: Seq<char>) -> (
    Result<Seq<Seq<char>>, Seq<char>>,
    int,
    Seq<char>,
) {
    let (d, p, l) = gnu_comment_loop(recs, pos, line, seq![]);
    (
        if d.len() > 0 {
            Ok(d)
        } else {
            Err(l)
        },
        p,
        l,
    )
}

/// The comments of a GNU option (`Argument::gnu_comment`): the buffer is
/// cleared and the next line read into it; when that read fails there are no
/// comments, else they are those from that line on (`gnu_comments_from`).
pub open spec fn gnu_comment_read(recs: Seq<Option<Seq<char>>>, pos: int) -> (
    Result<Seq<Seq<char>>, Seq<char>>,
    int,
    Seq<char>,
) {
    let (ok, p, l) = read_step(recs, pos, seq![]);
    if !ok {
        (Err(l), p, l)
    } else {
        gnu_comments_from(recs, p, l)
    }
}

/// An `mdoc` line that ends the comments of an option: an empty one, or one
/// whose first byte is a dot (a macro).
pub open spec fn ends_unix_comments(l: Seq<char>) -> bool {
    l.len() == 0 || encode_utf8(l)[0] == 46
}

/// Reads the comment lines of an `mdoc` option, each cleaned by
/// `unix_comment_of` and kept when not empty, after those of `acc`.
pub open spec fn unix_comment_loop(
    recs: Seq<Option<Seq<char>>>,
    pos: int,
    acc: Seq<Seq<char>>,
) -> (Seq<Seq<char>>, int, Seq<char>)
    decreases recs.len() - pos,
{
    let (ok, p, l) = read_step(recs, pos, seq![]);
    if !ok || ends_unix_comments(l) {
        (acc, p, l)
    } else {
        let d = unix_comment_of(l);
        unix_comment_loop(
            recs,
            p,
            if d.len() > 0 {
                acc.push(d)
            } else {
                acc
            },
        )
    }
}

/// The comments of an `mdoc` option (`Argument::unix_comment`); the line that
/// ended them is the error when there are none.
pub open spec fn unix_comment_read(recs: Seq<Option<Seq<char>>>, pos: int) -> (
    Result<Seq<Seq<char>>, Seq<char>>,
    int,
    Seq<char>,
) {
    let (d, p, l) = unix_comment_loop(recs, pos, seq![]);
    (
        if d.len() > 0 {
            Ok(d)
        } else {
            Err(l)
        },
        p,
        l,
    )
}

/// Reading GNU comments never moves back, nor past the end; at the end of the
/// reads it does not move and leaves a buffer that is no longer than the one
/// it started from.
pub proof fn lemma_gnu_comment_loop(
    recs: Seq<Option<Seq<char>>>,
    pos: int,
    line: Seq<char>,
    acc: Seq<Seq<char>>,
)
    ensures
        ({
            let (d, p, l) = gnu_comment_loop(recs, pos, line, acc);
            &&& pos <= p
            &&& 0 <= pos <= recs.len() ==> p <= recs.len()
            &&& !(0 <= pos < recs.len()) ==> p == pos && l.len() <= line.len()
        }),
    decreases recs.len() - pos, line.len(),
{
    if !ends_gnu_comments(line) {
        let d = gnu_comment_of(line);
        let next = if d.len() > 0 {
            acc.push(d)
        } else {
            acc
        };
        let (ok, p, l) = read_step(recs, pos, seq![]);
        if ok {
            lemma_gnu_comment_loop(recs, p, l, next);
        }
    }
}

/// Reading `mdoc` comments never moves back, nor past the end; at the end of
/// the reads it does not move and leaves the buffer empty.
pub proof fn lemma_unix_comment_loop(recs: Seq<Option<Seq<char>>>, pos: int, acc: Seq<Seq<char>>)
    ensures
        ({
            let (d, p, l) = unix_comment_loop(recs, pos, acc);
            &&& pos <= p
            &&& 0 <= pos < recs.len() ==> pos < p
            &&& 0 <= pos <= recs.len() ==> p <= recs.len()
            &&& !(0 <= pos < recs.len()) ==> p == pos && l.len() == 0
        }),
    decreases recs.len() - pos,
{
    let (ok, p, l) = read_step(recs, pos, seq![]);
    if !ok || ends_unix_comments(l) {
    } else {
        let d = unix_comment_of(l);
        lemma_unix_comment_loop(
            recs,
            p,
            if d.len() > 0 {
                acc.push(d)
            } else {
                acc
            },
        );
    }
}

/// The GNU options after an `OPTIONS` line (the loop of `Argument::from_gnu`),
/// after those of `acc`. A `.TP` item line is the buffer when it holds `.TP`,
/// else the one that `to_multy` finds; the item's option line is then read
/// into the cleared buffer, its option read (`gnu_option_read`), and, when the
/// option reads well, its comments (`gnu_comments_from`); an item whose option
/// and comments both read well is kept. The line that ends an item is the
/// buffer for the next one.
pub open spec fn gnu_args_loop(
    recs: Seq<Option<Seq<char>>>,
    pos: int,
    line: Seq<char>,
    acc: Seq<ArgumentView>,
) -> (Seq<ArgumentView>, int, Seq<char>)
    decreases recs.len() - pos, line.len(),
{
    let item = seq![seq!['.', 'T', 'P']];
    let (m, p1, l1) = if has_substring(line, item[0]) {
        (1u8, pos, line)
    } else {
        to_multy(recs, pos, line, item)
    };
    if m == 0 {
        (acc, p1, l1)
    } else {
        proof {
            crate::reader::lemma_to_multy(recs, pos, line, item);
        }
        let (ok, p2, l2) = read_step(recs, p1, seq![]);
        let (o, p3, l3) = gnu_option_read(recs, p2, l2);
        match o {
            Err(_) => gnu_args_loop(recs, p3, l3, acc),
            Ok(option) => {
                proof {
                    lemma_gnu_comment_loop(recs, p3, l3, seq![]);
                }
                let (c, p4, l4) = gnu_comments_from(recs, p3, l3);
                gnu_args_loop(
                    recs,
                    p4,
                    l4,
                    match c {
                        Ok(comments) => acc.push(ArgumentView { option, comments }),
                        Err(_) => acc,
                    },
                )
            },
        }
    }
}

/// The options of a GNU manual (`Argument::from_gnu`): those after the first
/// line that holds `OPTIONS`; an error when there are none.
pub open spec fn gnu_args_read(recs: Seq<Option<Seq<char>>>, pos: int, line: Seq<char>) -> (
    Result<Seq<ArgumentView>, Seq<char>>,
    int,
    Seq<char>,
) {
    let (m, p, l) = to_multy(recs, pos, line, seq![seq!['O', 'P', 'T', 'I', 'O', 'N', 'S']]);
    let (args, p2, l2) = if m > 0 {
        gnu_args_loop(recs, p, seq![], seq![])
    } else {
        (seq![], p, l)
    };
    (
        if args.len() > 0 {
            Ok(args)
        } else {
            Err("invalid gnu's argument"@)
        },
        p2,
        l2,
    )
}

/// The `.It Fl ` pattern of an `mdoc` option line.
pub open spec fn unix_item() -> Seq<char> {
    seq!['.', 'I', 't', ' ', 'F', 'l', ' ']
}

/// Whether the buffer holds the next `mdoc` option line: it ended the
/// comments of the option before (`carried`) and holds `.It Fl `.
pub open spec fn holds_next_item(line: Seq<char>, carried: bool) -> bool {
    carried && has_substring(line, unix_item())
}

/// The `mdoc` options (the loop of `Argument::from_unix`), after those of
/// `acc`: the option line is the buffer when it ended the comments of the
/// option before (`carried`) and holds `.It Fl `, else the next line that
/// holds it (`clear_to`); each option line whose option and comments both
/// read well is kept.
pub open spec fn unix_args_loop(
    recs: Seq<Option<Seq<char>>>,
    pos: int,
    line: Seq<char>,
    carried: bool,
    acc: Seq<ArgumentView>,
) -> (Seq<ArgumentView>, int, Seq<char>)
    decreases recs.len() - pos, if holds_next_item(line, carried) {
        1int
    } else {
        0int
    },
{
    let (found, p1, l1) = if holds_next_item(line, carried) {
        (true, pos, line)
    } else {
        clear_to(recs, pos, unix_item())
    };
    if !found {
        (acc, p1, l1)
    } else {
        proof {
            crate::reader::lemma_clear_to(recs, pos, unix_item());
        }
        match unix_option_of(l1) {
            Err(_) => unix_args_loop(recs, p1, l1, false, acc),
            Ok(option) => {
                proof {
                    lemma_unix_comment_loop(recs, p1, seq![]);
                }
                let (c, p2, l2) = unix_comment_read(recs, p1);
                unix_args_loop(
                    recs,
                    p2,
                    l2,
                    true,
                    match c {
                        Ok(comments) => acc.push(ArgumentView { option, comments }),
                        Err(_) => acc,
                    },
                )
            },
        }
    }
}

/// The options of an `mdoc` manual (`Argument::from_unix`); an error when
/// there are none.
pub open spec fn unix_args_read(recs: Seq<Option<Seq<char>>>, pos: int) -> (
    Result<Seq<ArgumentView>, Seq<char>>,
    int,
    Seq<char>,
) {
    let (args, p, l) = unix_args_loop(recs, pos, seq![], false, seq![]);
    (
        if args.len() > 0 {
            Ok(args)
        } else {
            Err("invalid unix's argument"@)
        },
        p,
        l,
    )
}

/// Reads the NAME line of a GNU manual (`Command::from_gnu`): the names
/// before its first `- ` (a `\- ` read as `- `) and the description after it.
/// `None` stands for a line whose names part, without commas, is empty: there
/// the names reader indexes the first byte of an empty text.
pub open spec fn gnu_command_read(recs: Seq<Option<Seq<char>>>, pos: int, line: Seq<char>) -> (
    Option<Result<CommandView, Seq<char>>>,
    int,
    Seq<char>,
) {
    let (ok, p, l) = read_step(recs, pos, line);
    let invalid = Some(Err("invalid gnu's command"@));
    if ok && has_substring(l, seq!['-', ' ']) {
        let pieces = split_on(replaced(l, seq!['\\', '-', ' '], seq!['-', ' ']), seq!['-', ' ']);
        if replaced(pieces[0], seq![','], seq![]).len() == 0 {
            (None, p, l)
        } else {
            match gnu_names_of(pieces[0]) {
                Ok(names) => if pieces.len() > 1 {
                    match gnu_description_of(pieces[1]) {
                        Ok(description) => (Some(Ok(CommandView { names, description })), p, l),
                        Err(_) => (invalid, p, l),
                    }
                } else {
                    (invalid, p, l)
                },
                Err(_) => (invalid, p, l),
            }
        }
    } else {
        (invalid, p, l)
    }
}

/// Reads the name and description of an `mdoc` manual (`Command::from_unix`):
/// the names of the first `.Nm` line, then the description of the next `.Nd`
/// line.
pub open spec fn unix_command_read(recs: Seq<Option<Seq<char>>>, pos: int) -> (
    Result<CommandView, Seq<char>>,
    int,
    Seq<char>,
) {
    let invalid = Err("invalid unix's command"@);
    let (found, p1, l1) = clear_to(recs, pos, seq!['.', 'N', 'm']);
    if !found {
        (invalid, p1, l1)
    } else {
        match unix_names_of(l1) {
            Err(_) => (invalid, p1, l1),
            Ok(names) => {
                let (found2, p2, l2) = clear_to(recs, p1, seq!['.', 'N', 'd']);
                if !found2 {
                    (invalid, p2, l2)
                } else {
                    match unix_description_of(l2) {
                        Ok(description) => (Ok(CommandView { names, description }), p2, l2),
                        Err(_) => (invalid, p2, l2),
                    }
                }
            },
        }
    }
}

/// A GNU manual from the line after its first section header
/// (`Man::read_gnu`); `None` where the names reader would index an empty text.
pub open spec fn gnu_man_read(recs: Seq<Option<Seq<char>>>, pos: int) -> Option<
    Result<ManView, Seq<char>>,
> {
    let invalid = Some(Err("invalid gnu's man"@));
    let (c, p, l) = gnu_command_read(recs, pos, seq![]);
    match c {
        None => None,
        Some(Ok(command)) => match gnu_args_read(recs, p, l).0 {
            Ok(arguments) => Some(Ok(ManView { command, arguments })),
            Err(_) => invalid,
        },
        Some(Err(_)) => invalid,
    }
}

/// An `mdoc` manual from the line after its first section header
/// (`Man::read_unix`).
pub open spec fn unix_man_read(recs: Seq<Option<Seq<char>>>, pos: int) -> Result<ManView, Seq<char>> {
    let (c, p, l) = unix_command_read(recs, pos);
    match c {
        Ok(command) => match unix_args_read(recs, p).0 {
            Ok(arguments) => Ok(ManView { command, arguments }),
            Err(_) => Err("invalid unix's man"@),
        },
        Err(_) => Err("invalid unix's man"@),
    }
}

/// The section headers that tell the dialects apart.
pub open spec fn section_headers() -> Seq<Seq<char>> {
    seq![seq!['.', 'S', 'h'], seq!['.', 'S', 'H']]
}

/// The manual held by the bytes `content` of a manual file
/// (`Man::from_buff`): the first line that holds `.Sh` or `.SH` decides the
/// dialect by its third byte, `h` for `mdoc` and `H` for GNU; any other
/// third byte, or no such line, is an unknown manual. `None` where the
/// GNU names reader would index an empty text.
pub open spec fn man_of(content: Seq<u8>) -> Option<Result<ManView, Seq<char>>> {
    let recs = line_records(content);
    let (m, p, l) = to_multy(recs, 0, seq![], section_headers());
    if m == 104 {
        Some(unix_man_read(recs, p))
    } else if m == 72 {
        gnu_man_read(recs, p)
    } else {
        Some(Err("unknown man"@))
    }
}

/// The view of a result that holds arguments.
pub open spec fn arguments_result(r: Result<Vec<Argument>, String>) -> Result<
    Seq<ArgumentView>,
    Seq<char>,
> {
    match r {
        Ok(v) => Ok(argument_views(v@)),
        Err(e) => Err(e@),
    }
}

/// The view of a result that holds a command.
pub open spec fn command_result(r: Result<Command, String>) -> Result<CommandView, Seq<char>> {
    match r {
        Ok(v) => Ok(v@),
        Err(e) => Err(e@),
    }
}

/// The view of a result that holds a manual.
pub open spec fn man_result(r: Result<Man, String>) -> Result<ManView, Seq<char>> {
    match r {
        Ok(v) => Ok(v@),
        Err(e) => Err(e@),
    }
}

impl Command {
    /// The `new` constructor function returns a new Command.
    pub fn new(names: Vec<String>, description: String) -> (res: Self)
        ensures
            res.names == names,
            res.description == description,
    {
        Command { names: names, description: description }
    }

    /// The `from_gnu` constructor function returns the name and the
    /// description from the man's gnu command ("bc", "An arbitrary...").
    /// `None` where the names part of the line is empty once its commas are
    /// gone.
    pub fn from_gnu(reader: &mut LineReader, line: &mut Vec<char>) -> (res: Option<Result<Self, String>>)
        requires
            old(reader).wf(),
        ensures
            final(reader).wf(),
            final(reader).recs() == old(reader).recs(),
            ({
                let (c, p, l) = gnu_command_read(old(reader).recs(), old(reader).at(), old(line)@);
                &&& final(reader).at() == p
                &&& final(line)@ == l
                &&& c == match res {
                    None => None,
                    Some(r) => Some(command_result(r)),
                }
            }),
    {
        if reader.read_line(line) {
            let command = replace(line, &three('\\', '-', ' '), &two('-', ' '));
            if crate::text::find(line, &two('-', ' ')) {
                let pieces = split(&command, &two('-', ' '));
                proof {
                    crate::text::lemma_split_on_len(command@, seq!['-', ' ']);
                }
                let without = replace(&pieces[0], &one(','), &none());
                if without.len() == 0 {
                    return None;
                }
                match Command::gnu_names(&pieces[0]) {
                    Ok(names) => {
                        if pieces.len() > 1 {
                            match Command::gnu_description(&pieces[1]) {
                                Ok(description) => {
                                    return Some(Ok(Command::new(names, description)));
                                },
                                Err(_) => {},
                            }
                        }
                    },
                    Err(_) => {},
                }
            }
        }
        Some(Err(String::from_str("invalid gnu's command")))
    }

    /// The `from_unix` constructor function returns the name and the
    /// description from the man's unix command ("bc", "An arbitrary...").
    pub fn from_unix(reader: &mut LineReader, line: &mut Vec<char>) -> (res: Result<Self, String>)
        requires
            old(reader).wf(),
        ensures
            final(reader).wf(),
            final(reader).recs() == old(reader).recs(),
            (command_result(res), final(reader).at(), final(line)@) == unix_command_read(
                old(reader).recs(),
                old(reader).at(),
            ),
    {
        if line_clear_to(reader, line, &three('.', 'N', 'm')) {
            match Command::unix_names(line) {
                Ok(names) => {
                    if line_clear_to(reader, line, &three('.', 'N', 'd')) {
                        match Command::unix_description(line) {
                            Ok(description) => {
                                return Ok(Command::new(names, description));
                            },
                            Err(_) => {},
                        }
                    }
                },
                Err(_) => {},
            }
        }
        Err(String::from_str("invalid unix's command"))
    }
}

/// The `String`s of a list of texts, as a result.
fn texts_ok(v: &Vec<Vec<char>>) -> (res: Result<Vec<String>, String>)
    ensures
        texts_result(res) == Ok::<Seq<Seq<char>>, Seq<char>>(texts(v@)),
{
    Ok(to_strings(v))
}

impl Argument {
    /// The `Argument::new` Constructor function returns a new Argument.
    pub fn new(option: String, comments: Vec<String>) -> (res: Self)
        ensures
            res.option == option,
            res.comments == comments,
    {
        Argument { option: option, comments: comments }
    }

    /// The `gnu_option` function returns a list of
    /// option's arguments from the man's gnu ([-h, --help], [[...], ...]):
    /// the option of the line that the buffer holds; the next line is read
    /// into the cleared buffer.
    pub fn gnu_option(reader: &mut LineReader, line: &mut Vec<char>) -> (res: Result<String, String>)
        requires
            old(reader).wf(),
        ensures
            final(reader).wf(),
            final(reader).recs() == old(reader).recs(),
            (text_result(res), final(reader).at(), final(line)@) == gnu_option_read(
                old(reader).recs(),
                old(reader).at(),
                old(line)@,
            ),
    {
        let option = trim(line);
        line.clear();
        if reader.read_line(line) {
            return gnu_option_text(&option);
        }
        Err(to_string(&option))
    }

    /// The `gnu_comment` function returns a list of
    /// comment's arguments from the man's gnu ("Print the...", [...]):
    /// the buffer is cleared and the comment lines are read from the next line
    /// on.
    pub fn gnu_comment(reader: &mut LineReader, line: &mut Vec<char>) -> (res: Result<
        Vec<String>,
        String,
    >)
        requires
            old(reader).wf(),
        ensures
            final(reader).wf(),
            final(reader).recs() == old(reader).recs(),
            (texts_result(res), final(reader).at(), final(line)@) == gnu_comment_read(
                old(reader).recs(),
                old(reader).at(),
            ),
    {
        line.clear();
        if !reader.read_line(line) {
            return Err(to_string(line));
        }
        Argument::gnu_comments_from_buffer(reader, line)
    }

    /// The comments of a GNU option from the line that the buffer holds on.
    fn gnu_comments_from_buffer(reader: &mut LineReader, line: &mut Vec<char>) -> (res: Result<
        Vec<String>,
        String,
    >)
        requires
            old(reader).wf(),
        ensures
            final(reader).wf(),
            final(reader).recs() == old(reader).recs(),
            (texts_result(res), final(reader).at(), final(line)@) == gnu_comments_from(
                old(reader).recs(),
                old(reader).at(),
                old(line)@,
            ),
    {
        let ghost recs = reader.recs();
        let ghost target = gnu_comment_loop(recs, reader.at(), line@, seq![]);
        let mut descriptions: Vec<Vec<char>> = Vec::new();
        assert(texts(descriptions@) =~= Seq::<Seq<char>>::empty());
        loop
            invariant
                reader.wf(),
                reader.recs() == recs,
                recs == old(reader).recs(),
                target == gnu_comment_loop(old(reader).recs(), old(reader).at(), old(line)@, seq![]),
                gnu_comment_loop(recs, reader.at(), line@, texts(descriptions@)) == target,
            decreases recs.len() - reader.at(), line@.len(),
        {
            if line.len() == 0 || crate::text::find(line, &three('.', 'S', 'H'))
                || crate::text::find(line, &two('\\', '-')) || crate::text::find(
                line,
                &three('.', 'T', 'P'),
            ) {
                if descriptions.len() > 0 {
                    return texts_ok(&descriptions);
                }
                return Err(to_string(line));
            }
            let description = gnu_comment_text(line);
            if description.len() > 0 {
                let ghost before = texts(descriptions@);
                descriptions.push(description);
                assert(texts(descriptions@) =~= before.push(gnu_comment_of(line@)));
            }
            line.clear();
            if !reader.read_line(line) {
                if descriptions.len() > 0 {
                    return texts_ok(&descriptions);
                }
                return Err(to_string(line));
            }
        }
    }

    /// The `unix_option` function returns a list of
    /// option's arguments from the man's unix ([-h, --help], [[...], ...]).
    pub fn unix_option(line: &[char]) -> (res: Result<String, String>)
        ensures
            text_result(res) == unix_option_of(line@),
    {
        let o0 = trim(line);
        let o1 = replace(&o0, &two('\\', '-'), &one('-'));
        let o2 = replace(&o1, &two('\\', '&'), &none());
        let o3 = skip(&o2, 7);
        let opt = take_until(&o3, &four(' ', '\\', '"', ','));
        if opt.len() > 0 {
            let mut option = one('-');
            let mut k: usize = 0;
            while k < opt.len()
                invariant
                    k <= opt@.len(),
                    option@ == seq!['-'] + opt@.subrange(0, k as int),
                decreases opt@.len() - k,
            {
                option.push(opt[k]);
                k = k + 1;
            }
            assert(opt@.subrange(0, opt@.len() as int) =~= opt@);
            return Ok(to_string(&option));
        }
        Err(to_string(line))
    }

    /// The `unix_comment` function returns a list of
    /// comment's arguments from the man's unix ("Print the...", [...]).
    pub fn unix_comment(reader: &mut LineReader, line: &mut Vec<char>) -> (res: Result<Vec<String>, String>)
        requires
            old(reader).wf(),
        ensures
            final(reader).wf(),
            final(reader).recs() == old(reader).recs(),
            (texts_result(res), final(reader).at(), final(line)@) == unix_comment_read(
                old(reader).recs(),
                old(reader).at(),
            ),
    {
        let ghost recs = reader.recs();
        let ghost target = unix_comment_loop(recs, reader.at(), seq![]);
        line.clear();
        let mut descriptions: Vec<Vec<char>> = Vec::new();
        assert(texts(descriptions@) =~= Seq::<Seq<char>>::empty());
        loop
            invariant
                reader.wf(),
                reader.recs() == recs,
                recs == old(reader).recs(),
                target == unix_comment_loop(old(reader).recs(), old(reader).at(), seq![]),
                line@ == Seq::<char>::empty(),
                unix_comment_loop(recs, reader.at(), texts(descriptions@)) == target,
            decreases recs.len() - reader.at(),
        {
            let ok = reader.read_line(line);
            let mut ends = !ok || line.len() == 0;
            if !ends {
                let text = to_string(line);
                let bytes = text.as_str().as_bytes();
                proof {
                    crate::reader::lemma_encode_len(line@);
                }
                ends = bytes[0] == 46;
            }
            if ends {
                if descriptions.len() > 0 {
                    return texts_ok(&descriptions);
                }
                return Err(to_string(line));
            }
            let description = unix_comment_text(line);
            if description.len() > 0 {
                let ghost before = texts(descriptions@);
                descriptions.push(description);
                assert(texts(descriptions@) =~= before.push(unix_comment_of(line@)));
            }
            line.clear();
        }
    }

    /// The `from_gnu` Constructor function returns all options and comments
    /// from the man's gnu command  (["-h", "Print..."], ["-i", "Force..."]).
    pub fn from_gnu(reader: &mut LineReader, line: &mut Vec<char>) -> (res: Result<Vec<Self>, String>)
        requires
            old(reader).wf(),
        ensures
            final(reader).wf(),
            final(reader).recs() == old(reader).recs(),
            (arguments_result(res), final(reader).at(), final(line)@) == gnu_args_read(
                old(reader).recs(),
                old(reader).at(),
                old(line)@,
            ),
    {
        let ghost recs = reader.recs();
        let mut arguments: Vec<Argument> = Vec::new();
        let options_header = vec![vec!['O', 'P', 'T', 'I', 'O', 'N', 'S']];
        let item_header = vec![three('.', 'T', 'P')];
        proof {
            assert(options_header@[0]@ =~= seq!['O', 'P', 'T', 'I', 'O', 'N', 'S']);
            assert(texts(options_header@) =~= seq![seq!['O', 'P', 'T', 'I', 'O', 'N', 'S']]);
            assert(texts(item_header@) =~= seq![seq!['.', 'T', 'P']]);
        }
        let ghost first = to_multy(recs, reader.at(), line@, texts(options_header@));
        if line_to_multy(reader, line, &options_header) > 0 {
            line.clear();
            let ghost target = gnu_args_loop(recs, reader.at(), seq![], seq![]);
            assert(argument_views(arguments@) =~= Seq::<ArgumentView>::empty());
            loop
                invariant_except_break
                    gnu_args_loop(recs, reader.at(), line@, argument_views(arguments@)) == target,
                invariant
                    reader.wf(),
                    reader.recs() == recs,
                    recs == old(reader).recs(),
                    texts(item_header@) == seq![seq!['.', 'T', 'P']],
                    item_header@.len() == 1,
                    item_header@[0]@ == seq!['.', 'T', 'P'],
                    target == gnu_args_loop(recs, first.1, seq![], seq![]),
                    first == to_multy(
                        old(reader).recs(),
                        old(reader).at(),
                        old(line)@,
                        seq![seq!['O', 'P', 'T', 'I', 'O', 'N', 'S']],
                    ),
                    first.0 > 0,
                ensures
                    (argument_views(arguments@), reader.at(), line@) == target,
                decreases recs.len() - reader.at(), line@.len(),
            {
                let ghost pos = reader.at();
                let ghost buffer = line@;
                let ghost acc = argument_views(arguments@);
                proof {
                    crate::reader::lemma_to_multy(recs, pos, buffer, seq![seq!['.', 'T', 'P']]);
                }
                if !crate::text::find(line, &item_header[0]) {
                    if line_to_multy(reader, line, &item_header) == 0 {
                        break;
                    }
                }
                line.clear();
                reader.read_line(line);
                let ghost p2 = reader.at();
                match Argument::gnu_option(reader, line) {
                    Ok(option) => {
                        let ghost p3 = reader.at();
                        let ghost l3 = line@;
                        proof {
                            lemma_gnu_comment_loop(recs, p3, l3, seq![]);
                        }
                        match Argument::gnu_comments_from_buffer(reader, line) {
                            Ok(description) => {
                                let ghost a = ArgumentView {
                                    option: option@,
                                    comments: strings(description@),
                                };
                                arguments.push(Argument::new(option, description));
                                assert(argument_views(arguments@) =~= acc.push(a));
                            },
                            Err(_) => {},
                        }
                    },
                    Err(_) => {},
                }
            }
        }
        if arguments.len() > 0 {
            return Ok(arguments);
        }
        Err(String::from_str("invalid gnu's argument"))
    }

    /// The `from_unix` Constructor function returns all options and comments
    /// from the man's unix command  (["-h", "Print..."], ["-i", "Force..."]).
    /// An option line that ends the comments of the option before it is read
    /// as the next option.
    pub fn from_unix(reader: &mut LineReader, line: &mut Vec<char>) -> (res: Result<Vec<Self>, String>)
        requires
            old(reader).wf(),
        ensures
            final(reader).wf(),
            final(reader).recs() == old(reader).recs(),
            (arguments_result(res), final(reader).at(), final(line)@) == unix_args_read(
                old(reader).recs(),
                old(reader).at(),
            ),
    {
        let ghost recs = reader.recs();
        let ghost target = unix_args_loop(recs, reader.at(), seq![], false, seq![]);
        let mut arguments: Vec<Argument> = Vec::new();
        let item = vec!['.', 'I', 't', ' ', 'F', 'l', ' '];
        let mut carried = false;
        assert(item@ =~= unix_item());
        assert(argument_views(arguments@) =~= Seq::<ArgumentView>::empty());
        assert(unix_args_loop(recs, reader.at(), line@, false, seq![]) == target);
        loop
            invariant_except_break
                unix_args_loop(recs, reader.at(), line@, carried, argument_views(arguments@))
                    == target,
            invariant
                reader.wf(),
                reader.recs() == recs,
                recs == old(reader).recs(),
                item@ == unix_item(),
                target == unix_args_loop(old(reader).recs(), old(reader).at(), seq![], false, seq![]),
            ensures
                (argument_views(arguments@), reader.at(), line@) == target,
            decreases recs.len() - reader.at(), if holds_next_item(line@, carried) {
                1int
            } else {
                0int
            },
        {
            let ghost pos = reader.at();
            let ghost acc = argument_views(arguments@);
            proof {
                crate::reader::lemma_clear_to(recs, pos, item@);
            }
            let next = carried && crate::text::find(line, &item);
            if !next {
                if !line_clear_to(reader, line, &item) {
                    break;
                }
            }
            let ghost p1 = reader.at();
            carried = false;
            match Argument::unix_option(line) {
                Ok(option) => {
                    proof {
                        lemma_unix_comment_loop(recs, p1, seq![]);
                    }
                    let comments = Argument::unix_comment(reader, line);
                    carried = true;
                    match comments {
                        Ok(description) => {
                            let ghost a = ArgumentView {
                                option: option@,
                                comments: strings(description@),
                            };
                            arguments.push(Argument::new(option, description));
                            assert(argument_views(arguments@) =~= acc.push(a));
                        },
                        Err(_) => {},
                    }
                },
                Err(_) => {},
            }
        }
        if arguments.len() <= 0 {
            return Err(String::from_str("invalid unix's argument"));
        }
        Ok(arguments)
    }
}

/// The view of what `Man::from_buff_checked` returns.
pub open spec fn checked_result(r: Option<Result<Man, String>>) -> Option<Result<ManView, Seq<char>>> {
    match r {
        Some(m) => Some(man_result(m)),
        None => None,
    }
}

impl Man {
    /// The `new` constructor function returns a new Man.
    pub fn new(command: Command, arguments: Vec<Argument>) -> (res: Self)
        ensures
            res.command == command,
            res.arguments == arguments,
    {
        Man { command: command, arguments: arguments }
    }

    /// The `read_gnu` function checks and parses the: name,
    /// description, options and commants from a man's gnu.
    pub fn read_gnu(reader: &mut LineReader, line: &mut Vec<char>) -> (res: Option<Result<Self, String>>)
        requires
            old(reader).wf(),
        ensures
            checked_result(res) == gnu_man_read(old(reader).recs(), old(reader).at()),
    {
        line.clear();
        match Command::from_gnu(reader, line) {
            None => {
                return None;
            },
            Some(Ok(command)) => {
                match Argument::from_gnu(reader, line) {
                    Ok(argument) => return Some(Ok(Man::new(command, argument))),
                    Err(_) => {},
                }
            },
            Some(Err(_)) => {},
        }
        Some(Err(String::from_str("invalid gnu's man")))
    }

    /// The `read_unix` function checks and parses the: name,
    /// description, options and commants from a man's unix.
    pub fn read_unix(reader: &mut LineReader, line: &mut Vec<char>) -> (res: Result<Self, String>)
        requires
            old(reader).wf(),
        ensures
            man_result(res) == unix_man_read(old(reader).recs(), old(reader).at()),
    {
        line.clear();
        match Command::from_unix(reader, line) {
            Ok(command) => {
                match Argument::from_unix(reader, line) {
                    Ok(argument) => return Ok(Man::new(command, argument)),
                    Err(_) => {},
                }
            },
            Err(_) => {},
        }
        Err(String::from_str("invalid unix's man"))
    }

    /// Reads the manual held by the bytes `content` of a manual file, as
    /// `from_buff` does; `None` for the contents on which `from_buff` has no
    /// result (a GNU NAME line whose names part is empty once its commas are
    /// gone).
    pub fn from_buff_checked(content: &[u8]) -> (res: Option<Result<Self, String>>)
        ensures
            checked_result(res) == man_of(content@),
    {
        let mut reader = LineReader::new(content);
        let mut line: Vec<char> = Vec::new();
        let headers = vec![three('.', 'S', 'h'), three('.', 'S', 'H')];
        assert(texts(headers@) =~= section_headers());
        match line_to_multy(&mut reader, &mut line, &headers) {
            104 => Some(Man::read_unix(&mut reader, &mut line)),
            72 => Man::read_gnu(&mut reader, &mut line),
            _ => Some(Err(String::from_str("unknown man"))),
        }
    }

    /// The `from_buff` constructor function returns a new Man
    /// according to the bytes of a manual file.
    pub fn from_buff(content: &[u8]) -> (res: Result<Self, String>)
        requires
            man_of(content@) is Some,
        ensures
            man_of(content@) == Some(man_result(res)),
    {
        match Man::from_buff_checked(content) {
            Some(res) => res,
            None => {
                proof {
                    assert(false);
                }
                Err(String::new())
            },
        }
    }
}

/// A file name of section one of the manuals: one whose extension (as
/// `Path::extension` reads it) is `1`, that is one that ends with `.1` and
/// has something before that dot.
pub open spec fn is_manual_name(name: Seq<char>) -> bool {
    name.len() >= 3 && name[name.len() - 2] == '.' && name[name.len() - 1] == '1'
}

/// Whether `file_name` names a manual of section one.
pub fn has_manual_extension(file_name: &str) -> (res: bool)
    ensures
        res == is_manual_name(file_name@),
{
    let name = chars_of(file_name);
    let n = name.len();
    n >= 3 && name[n - 2] == '.' && name[n - 1] == '1'
}

/// The `new` function splits a MANPATH value at its colons into the roots
/// where the manuals are looked for.
pub fn new(manpath: String) -> (res: Vec<String>)
    ensures
        strings(res@) == split_on(manpath@, seq![':']),
{
    let path = chars_of(manpath.as_str());
    to_strings(&split(&path, &one(':')))
}

} // verus!
