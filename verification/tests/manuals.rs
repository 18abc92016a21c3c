use manslib::mans::{has_manual_extension, new, Argument, Command, Man};
use manslib::reader::LineReader;

const MKDEP: &str = ".Dd June 6, 1993
.Dt MKDEP 1
.Os
.Sh NAME
.Nm mkdep
.Nd construct Makefile dependency list
.Sh SYNOPSIS
.Nm mkdep
.Op Fl ap
.Sh DESCRIPTION
.Bl -tag -width Ds
.It Fl a
Append to the output file,
so that multiple
.Nm Ns 's
may be run from a single Makefile.
.It Fl f
Write the include file dependencies to
.Ar file ,
instead of the default ``.depend''.
.It Fl p
Cause
.Nm
to produce dependencies of the form:
.El
";

const REBASE: &str = ".TH REBASE 1 \"March 28, 2006\" \"Apple Inc.\"
.SH NAME
rebase \\- Changes base address of dylibs and bundles
.SH SYNOPSIS
.B rebase
.SH DESCRIPTION
.I Rebase
changes the base address.
.SH OPTIONS
.TP
.BI \\-low_address \" address\"
Force the base address for the first image to be
.IR address .
.TP
.BI \\-arch \" arch_type\"
Only rebase the specified architecture.
.SH SEE ALSO
";

fn strings(v: &[&str]) -> Vec<String> {
    v.iter().map(|s| s.to_string()).collect()
}

#[test]
fn reads_an_mdoc_manual() {
    let man = Man::from_buff(MKDEP.as_bytes()).unwrap();
    assert_eq!(man.command.names, strings(&["mkdep"]));
    assert_eq!(man.command.description, "construct Makefile dependency list");
    assert_eq!(man.arguments.len(), 3);
    assert_eq!(man.arguments[0].option, "-a");
    assert_eq!(
        man.arguments[0].comments,
        strings(&["Append to the output file,\n", "so that multiple\n"])
    );
    assert_eq!(man.arguments[1].option, "-f");
    assert_eq!(man.arguments[1].comments, strings(&["Write the include file dependencies to\n"]));
    assert_eq!(man.arguments[2].option, "-p");
    assert_eq!(man.arguments[2].comments, strings(&["Cause\n"]));
}

#[test]
fn reads_a_gnu_manual() {
    let man = Man::from_buff(REBASE.as_bytes()).unwrap();
    assert_eq!(man.command.names, strings(&["rebase"]));
    assert_eq!(man.command.description, "Changes base address of dylibs and bundles");
    assert_eq!(man.arguments.len(), 2);
    assert_eq!(man.arguments[0].option, "-low_address");
    assert_eq!(
        man.arguments[0].comments,
        strings(&["Force the base address for the first image to be", " address ."])
    );
    assert_eq!(man.arguments[1].option, "-arch");
    assert_eq!(man.arguments[1].comments, strings(&["Only rebase the specified architecture."]));
}

#[test]
fn a_file_without_section_header_is_unknown() {
    let res = Man::from_buff(b"hello\nworld\n");
    assert_eq!(res.err().unwrap(), "unknown man");
}

#[test]
fn an_empty_file_is_unknown() {
    assert_eq!(Man::from_buff(b"").err().unwrap(), "unknown man");
}

#[test]
fn a_third_byte_other_than_h_is_unknown() {
    // The header is found, but the third byte of its line is a space.
    assert_eq!(Man::from_buff(b"x .SH NAME\n").err().unwrap(), "unknown man");
}

#[test]
fn a_gnu_manual_without_options_is_invalid() {
    let text = ".SH NAME\nbc \\- calculator\n.SH DESCRIPTION\nnothing\n";
    assert_eq!(Man::from_buff(text.as_bytes()).err().unwrap(), "invalid gnu's man");
}

#[test]
fn a_gnu_manual_without_dash_is_invalid() {
    let text = ".SH NAME\nbc calculator\n.SH OPTIONS\n.TP\n.B \\-h\nhelp\n";
    assert_eq!(Man::from_buff(text.as_bytes()).err().unwrap(), "invalid gnu's man");
}

#[test]
fn an_mdoc_manual_without_options_is_invalid() {
    let text = ".Sh NAME\n.Nm bc\n.Nd calculator\n.Sh DESCRIPTION\nnothing\n";
    assert_eq!(Man::from_buff(text.as_bytes()).err().unwrap(), "invalid unix's man");
}

#[test]
fn an_mdoc_manual_without_description_is_invalid() {
    let text = ".Sh NAME\n.Nm bc\n.It Fl h\nhelp\n";
    assert_eq!(Man::from_buff(text.as_bytes()).err().unwrap(), "invalid unix's man");
}

#[test]
fn an_empty_gnu_names_part_has_no_result() {
    let text = ".SH NAME\n\\- calculator\n";
    assert!(Man::from_buff_checked(text.as_bytes()).is_none());
    let text = ".SH NAME\n,,- calculator\n";
    assert!(Man::from_buff_checked(text.as_bytes()).is_none());
    // A space is left once the commas are gone: there is a result.
    let text = ".SH NAME\n, \\- calculator\n";
    assert_eq!(Man::from_buff_checked(text.as_bytes()).unwrap().err().unwrap(), "invalid gnu's man");
}

#[test]
fn checked_reading_agrees_with_reading() {
    let checked = Man::from_buff_checked(MKDEP.as_bytes()).unwrap().unwrap();
    assert_eq!(checked.command.names, strings(&["mkdep"]));
    assert_eq!(checked.arguments.len(), 3);
}

#[test]
fn an_invalid_utf8_line_ends_a_search() {
    // The first search stops at the line that is not UTF-8.
    let mut bytes = b"abc\n".to_vec();
    bytes.extend_from_slice(&[0xff, 0xfe, b'\n']);
    bytes.extend_from_slice(b".SH NAME\n");
    assert_eq!(Man::from_buff(&bytes).err().unwrap(), "unknown man");
}

#[test]
fn gnu_names_and_description_are_cleaned() {
    let text = ".SH NAME\nbc, dc \\- An arbitrary, precision calculator\n.SH OPTIONS\n.TP\n.B \\-h\nPrint the usage.\n";
    let man = Man::from_buff(text.as_bytes()).unwrap();
    assert_eq!(man.command.names, strings(&["bc", "dc"]));
    assert_eq!(man.command.description, "An arbitrary precision calculator");
    assert_eq!(man.arguments[0].option, "-h");
    assert_eq!(man.arguments[0].comments, strings(&["Print the usage."]));
}

#[test]
fn a_caret_option_reads_as_dash() {
    let text = ".SH NAME\nx \\- y\n.SH OPTIONS\n.TP\n.B ^help more\nShow help.\n";
    let man = Man::from_buff(text.as_bytes()).unwrap();
    assert_eq!(man.arguments[0].option, "-help");
}

#[test]
fn mdoc_option_stops_at_space() {
    let text = ".Sh NAME\n.Nm cat, tac\n.Nd \"concatenate\" files\n.It Fl n Ar number\nNumber \\fIthe\\fR lines\n";
    let man = Man::from_buff(text.as_bytes()).unwrap();
    assert_eq!(man.command.names, strings(&["cat", "tac"]));
    assert_eq!(man.command.description, "\"concatenate\" files");
    assert_eq!(man.arguments[0].option, "-n");
    assert_eq!(man.arguments[0].comments, strings(&["Number the lines\n"]));
}

#[test]
fn manpath_is_split_at_colons() {
    assert_eq!(new("/usr/share/man:/usr/local/man".to_string()), strings(&["/usr/share/man", "/usr/local/man"]));
    assert_eq!(new("a::b:".to_string()), strings(&["a", "", "b", ""]));
    assert_eq!(new(String::new()), strings(&[""]));
}

#[test]
fn manpath_roots_join_back() {
    let manpath = "/a:/b::/c";
    assert_eq!(new(manpath.to_string()).join(":"), manpath);
}

#[test]
fn section_one_file_names() {
    assert!(has_manual_extension("ls.1"));
    assert!(has_manual_extension("a.b.1"));
    assert!(!has_manual_extension(".1"));
    assert!(!has_manual_extension("ls.1.gz"));
    assert!(!has_manual_extension("ls.2"));
    assert!(!has_manual_extension("ls1"));
}

#[test]
fn every_read_manual_is_well_formed() {
    for text in [MKDEP, REBASE] {
        let man = Man::from_buff(text.as_bytes()).unwrap();
        assert!(!man.command.names.is_empty());
        for name in &man.command.names {
            assert!(!name.is_empty() && !name.contains(' ') && !name.contains(','));
        }
        assert!(!man.command.description.is_empty() && !man.command.description.contains(','));
        assert!(!man.arguments.is_empty());
        for argument in &man.arguments {
            assert!(argument.option.starts_with('-') && !argument.option.contains(' '));
            assert!(!argument.comments.is_empty());
            assert!(argument.comments.iter().all(|c| !c.is_empty()));
        }
    }
}

fn c(s: &str) -> Vec<char> {
    s.chars().collect()
}

#[test]
fn an_mdoc_option_that_ends_a_comment_is_read() {
    let mut reader = LineReader::new(b".It Fl a\nAll.\n.It Fl b\nBrief.\n");
    let mut line: Vec<char> = Vec::new();
    let arguments = Argument::from_unix(&mut reader, &mut line).unwrap();
    assert_eq!(arguments.len(), 2);
    assert_eq!(arguments[0].option, "-a");
    assert_eq!(arguments[0].comments, strings(&["All.\n"]));
    assert_eq!(arguments[1].option, "-b");
    assert_eq!(arguments[1].comments, strings(&["Brief.\n"]));
}

#[test]
fn an_mdoc_option_without_comment_lets_the_next_one_be_read() {
    let mut reader = LineReader::new(b".It Fl a\n.It Fl b\nBrief.\n");
    let mut line: Vec<char> = Vec::new();
    let arguments = Argument::from_unix(&mut reader, &mut line).unwrap();
    assert_eq!(arguments.len(), 1);
    assert_eq!(arguments[0].option, "-b");
}

#[test]
fn the_gnu_option_is_read_from_the_buffer() {
    let mut reader = LineReader::new(b"Print the usage and exit.\n");
    let mut line = c(".B \\-h\n");
    assert_eq!(Argument::gnu_option(&mut reader, &mut line).unwrap(), "-h");
    assert_eq!(line, c("Print the usage and exit.\n"));
}

#[test]
fn gnu_comments_are_read_after_clearing_the_buffer() {
    let mut reader = LineReader::new(b"Print the usage and exit.\n.TP\n");
    let mut line: Vec<char> = Vec::new();
    let comments = Argument::gnu_comment(&mut reader, &mut line).unwrap();
    assert_eq!(comments, strings(&["Print the usage and exit."]));
    assert_eq!(line, c(".TP\n"));
    // What the buffer held is discarded, even a line that would end the comments.
    let mut reader = LineReader::new(b"first\nsecond\n.SH SEE ALSO\nafter\n");
    let mut line = c(".SH OPTIONS\n");
    let comments = Argument::gnu_comment(&mut reader, &mut line).unwrap();
    assert_eq!(comments, strings(&["first", "second"]));
    assert_eq!(line, c(".SH SEE ALSO\n"));
}

#[test]
fn gnu_comments_without_lines_are_an_error() {
    let mut reader = LineReader::new(b".TP\n");
    let mut line = c("kept?");
    assert_eq!(Argument::gnu_comment(&mut reader, &mut line).err().unwrap(), ".TP\n");
    let mut reader = LineReader::new(b"");
    let mut line = c("kept?");
    assert_eq!(Argument::gnu_comment(&mut reader, &mut line).err().unwrap(), "");
    assert!(line.is_empty());
}

#[test]
fn every_gnu_item_is_read_with_its_comments() {
    let text = ".SH OPTIONS\n.TP\n.B \\-h, \\-\\-help\nPrint the usage and exit.\n.TP\n.B \\-i\nForce interactive mode.\nEven with a file.\n.TP\n.B \\-q\nQuiet.\n.SH SEE ALSO\n";
    let mut reader = LineReader::new(text.as_bytes());
    let mut line: Vec<char> = Vec::new();
    let arguments = Argument::from_gnu(&mut reader, &mut line).unwrap();
    assert_eq!(arguments.len(), 3);
    assert_eq!(arguments[0].option, "-h,--help");
    assert_eq!(arguments[0].comments, strings(&["Print the usage and exit."]));
    assert_eq!(arguments[1].option, "-i");
    assert_eq!(arguments[1].comments, strings(&["Force interactive mode.", "Even with a file."]));
    assert_eq!(arguments[2].option, "-q");
    assert_eq!(arguments[2].comments, strings(&["Quiet."]));
}

#[test]
fn the_mdoc_description_keeps_its_quotes() {
    let line = c(".Nd \"Changes base address of dylibs and bundles\"\n");
    assert_eq!(
        Command::unix_description(&line).unwrap(),
        "\"Changes base address of dylibs and bundles\""
    );
}

#[test]
fn a_gnu_description_read_again_is_the_same() {
    let d = Command::gnu_description(&c("  An arbitrary, precision \\ calculator \n")).unwrap();
    assert_eq!(d, "An arbitrary precision  calculator");
    assert_eq!(Command::gnu_description(&c(&d)).unwrap(), d);
}

#[test]
fn the_mdoc_command_is_its_name_then_its_description() {
    let mut reader = LineReader::new(b"x\n.Nm ls\ny\n.Nd list files\n");
    let mut line: Vec<char> = Vec::new();
    let command = Command::from_unix(&mut reader, &mut line).unwrap();
    assert_eq!(command.names, strings(&["ls"]));
    assert_eq!(command.description, "list files");
    let mut reader = LineReader::new(b".Nd list files\n.Nm ls\n");
    let mut line: Vec<char> = Vec::new();
    assert_eq!(Command::from_unix(&mut reader, &mut line).err().unwrap(), "invalid unix's command");
}

#[test]
fn an_mdoc_manual_is_its_command_then_its_options() {
    let mut reader = LineReader::new(b".Nm ls\n.Nd list\n.It Fl l\nLong.\n");
    let mut line = c("anything");
    let man = Man::read_unix(&mut reader, &mut line).unwrap();
    assert_eq!(man.command.names, strings(&["ls"]));
    assert_eq!(man.arguments[0].option, "-l");
    let mut reader = LineReader::new(b".Nm ls\n.Nd list\n");
    let mut line: Vec<char> = Vec::new();
    assert_eq!(Man::read_unix(&mut reader, &mut line).err().unwrap(), "invalid unix's man");
}
