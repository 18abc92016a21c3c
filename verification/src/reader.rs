//! A line reader over the bytes of a manual file, with the two searches that
//! the manual readers make on it.
//!
//! Reading a line follows `BufRead::read_line` on a buffered file: the bytes up
//! to and including the next newline (or up to the end) are consumed; when they
//! are valid UTF-8 their characters are appended to the line buffer and the read
//! succeeds, otherwise the read fails and the buffer is left as it was. At the
//! end of the bytes a read succeeds and appends nothing.

use vstd::prelude::*;
use vstd::utf8::*;

use crate::text::{chars_of, find, has_substring, occurs_at, texts, to_string};

verus! {

/// The lines of `b`: each run of bytes up to and including a newline, and the
/// bytes after the last newline when there are any.
pub open spec fn byte_lines(b: Seq<u8>) -> Seq<Seq<u8>>
    decreases b.len(),
{
    if b.len() == 0 {
        seq![]
    } else if b[0] == 10 {
        seq![seq![10u8]] + byte_lines(b.drop_first())
    } else {
        let rest = byte_lines(b.drop_first());
        if rest.len() == 0 {
            seq![seq![b[0]]]
        } else {
            rest.update(0, seq![b[0]] + rest[0])
        }
    }
}

/// What reading one line of bytes gives: its characters when it is valid
/// UTF-8, nothing otherwise.
pub open spec fn decoded(line: Seq<u8>) -> Option<Seq<char>> {
    if valid_utf8(line) {
        Some(decode_utf8(line))
    } else {
        None
    }
}

/// The successive reads that the bytes `b` of a file give.
pub open spec fn line_records(b: Seq<u8>) -> Seq<Option<Seq<char>>> {
    byte_lines(b).map_values(|l: Seq<u8>| decoded(l))
}

/// One read of a line at record `pos`, appended to the buffer `line`: whether
/// the read succeeded, the next record, and the buffer after the read.
pub open spec fn read_step(recs: Seq<Option<Seq<char>>>, pos: int, line: Seq<char>) -> (
    bool,
    int,
    Seq<char>,
) {
    if pos < 0 || pos >= recs.len() {
        (true, pos, line)
    } else {
        match recs[pos] {
            None => (false, pos + 1, line),
            Some(t) => (true, pos + 1, line + t),
        }
    }
}

/// Clears the buffer, then reads lines until one holds `find`: whether one
/// did, the next record, and the buffer (the line that holds `find`, or the
/// last one read).
pub open spec fn clear_to(recs: Seq<Option<Seq<char>>>, pos: int, find: Seq<char>) -> (
    bool,
    int,
    Seq<char>,
)
    decreases recs.len() - pos,
{
    let (ok, p, l) = read_step(recs, pos, seq![]);
    if !ok || l.len() == 0 {
        (false, p, l)
    } else if has_substring(l, find) {
        (true, p, l)
    } else {
        clear_to(recs, p, find)
    }
}

/// Some pattern of `finds` occurs in `l`.
pub open spec fn holds_one_of(l: Seq<char>, finds: Seq<Seq<char>>) -> bool {
    exists|k: int| 0 <= k < finds.len() && #[trigger] has_substring(l, finds[k])
}

/// Reads lines (the first appended to what the buffer holds, the others
/// after clearing it) until the buffer holds one of `finds`: the third byte
/// of the UTF-8 encoding of that line, or zero when none is found; then the
/// next record and the buffer.
pub open spec fn to_multy(
    recs: Seq<Option<Seq<char>>>,
    pos: int,
    line: Seq<char>,
    finds: Seq<Seq<char>>,
) -> (u8, int, Seq<char>)
    decreases recs.len() - pos, line.len(),
{
    let (ok, p, l) = read_step(recs, pos, line);
    if !ok || l.len() == 0 {
        (0, p, l)
    } else if holds_one_of(l, finds) {
        (encode_utf8(l)[2], p, l)
    } else {
        to_multy(recs, p, seq![], finds)
    }
}

/// The characters of a read record.
pub open spec fn record_view(r: Option<Vec<char>>) -> Option<Seq<char>> {
    match r {
        Some(v) => Some(v@),
        None => None,
    }
}

/// A file's bytes cut into line reads, and the index of the next read.
pub struct LineReader {
    records: Vec<Option<Vec<char>>>,
    pos: usize,
}

impl LineReader {
    /// The reads of the file.
    pub closed spec fn recs(&self) -> Seq<Option<Seq<char>>> {
        self.records@.map_values(|r: Option<Vec<char>>| record_view(r))
    }

    /// The index of the next read.
    pub closed spec fn at(&self) -> int {
        self.pos as int
    }

    /// The reader is never past the end of its reads.
    pub closed spec fn wf(&self) -> bool {
        self.pos <= self.records@.len()
    }

    /// A reader at the first line of the bytes `content`.
    pub fn new(content: &[u8]) -> (res: LineReader)
        ensures
            res.wf(),
            res.recs() == line_records(content@),
            res.at() == 0,
    {
        let mut records: Vec<Option<Vec<char>>> = Vec::new();
        let mut i: usize = 0;
        assert(content@.skip(0) =~= content@);
        while i < content.len()
            invariant
                i <= content@.len(),
                records@.map_values(|r: Option<Vec<char>>| record_view(r)) + line_records(
                    content@.skip(i as int),
                ) == line_records(content@),
            decreases content@.len() - i,
        {
            let mut j: usize = i;
            while j < content.len() && content[j] != 10
                invariant
                    i <= j <= content@.len(),
                    forall|k: int| i <= k < j ==> content@[k] != 10,
                decreases content@.len() - j,
            {
                j = j + 1;
            }
            let end = if j < content.len() {
                j + 1
            } else {
                j
            };
            let ghost rest = content@.skip(i as int);
            proof {
                lemma_first_byte_line(rest, j - i);
                assert(rest.take(end - i) =~= content@.subrange(i as int, end as int));
                assert(rest.skip(end - i) =~= content@.skip(end as int));
            }
            let piece = &content[i..end];
            let rec = match decode_line(piece) {
                Some(s) => Some(chars_of(s)),
                None => None,
            };
            let ghost before = records@.map_values(|r: Option<Vec<char>>| record_view(r));
            records.push(rec);
            proof {
                let lr = line_records(content@.skip(end as int));
                assert(records@.map_values(|r: Option<Vec<char>>| record_view(r)) =~= before.push(
                    decoded(piece@),
                ));
                assert(line_records(rest) =~= seq![decoded(piece@)] + lr);
                assert(before + line_records(rest) =~= before.push(decoded(piece@)) + lr);
            }
            i = end;
        }
        proof {
            assert(content@.skip(i as int) =~= Seq::<u8>::empty());
            let v = records@.map_values(|r: Option<Vec<char>>| record_view(r));
            assert(v + line_records(Seq::<u8>::empty()) =~= v);
        }
        LineReader { records, pos: 0 }
    }

    /// Reads one line into `line` (`BufRead::read_line`): whether the read
    /// succeeded.
    pub fn read_line(&mut self, line: &mut Vec<char>) -> (ok: bool)
        requires
            old(self).wf(),
        ensures
            final(self).wf(),
            final(self).recs() == old(self).recs(),
            (ok, final(self).at(), final(line)@) == read_step(
                old(self).recs(),
                old(self).at(),
                old(line)@,
            ),
    {
        if self.pos >= self.records.len() {
            return true;
        }
        let ghost r = self.recs();
        assert(r[self.pos as int] == record_view(self.records@[self.pos as int]));
        match &self.records[self.pos] {
            None => {
                self.pos = self.pos + 1;
                false
            },
            Some(t) => {
                let mut k: usize = 0;
                let ghost before = line@;
                while k < t.len()
                    invariant
                        k <= t@.len(),
                        line@ == before + t@.subrange(0, k as int),
                    decreases t@.len() - k,
                {
                    line.push(t[k]);
                    k = k + 1;
                }
                assert(t@.subrange(0, t@.len() as int) =~= t@);
                self.pos = self.pos + 1;
                true
            },
        }
    }
}

/// The lines of bytes that start with a line of `k` non-newline bytes.
pub proof fn lemma_first_byte_line(s: Seq<u8>, k: int)
    requires
        0 <= k <= s.len(),
        s.len() > 0,
        forall|j: int| 0 <= j < k ==> s[j] != 10,
        k < s.len() ==> s[k] == 10,
    ensures
        k < s.len() ==> byte_lines(s) == seq![s.take(k + 1)] + byte_lines(s.skip(k + 1)),
        k == s.len() ==> byte_lines(s) == seq![s],
    decreases k,
{
    if k == 0 {
        if k < s.len() {
            assert(s.take(1) =~= seq![10u8]);
            assert(s.skip(1) =~= s.drop_first());
        }
    } else {
        let t = s.drop_first();
        if t.len() == 0 {
            assert(byte_lines(t) =~= Seq::<Seq<u8>>::empty());
            assert(seq![s[0]] =~= s);
        } else {
            assert forall|j: int| 0 <= j < k - 1 implies t[j] != 10 by {
                assert(t[j] == s[j + 1]);
            }
            lemma_first_byte_line(t, k - 1);
            if k < s.len() {
                assert(seq![s[0]] + t.take(k) =~= s.take(k + 1));
                assert(t.skip(k) =~= s.skip(k + 1));
            } else {
                assert(seq![s[0]] + t =~= s);
            }
        }
    }
}

/// `clear_to` never moves back, nor past the end; it does not move at the end
/// of the reads, and it moves forward when it finds.
pub proof fn lemma_clear_to(recs: Seq<Option<Seq<char>>>, pos: int, find: Seq<char>)
    ensures
        ({
            let (found, p, l) = clear_to(recs, pos, find);
            &&& pos <= p
            &&& 0 <= pos <= recs.len() ==> p <= recs.len()
            &&& !(0 <= pos < recs.len()) ==> p == pos && l.len() == 0
            &&& found ==> 0 <= pos < p
        }),
    decreases recs.len() - pos,
{
    let (ok, p, l) = read_step(recs, pos, seq![]);
    if !ok || l.len() == 0 {
    } else if has_substring(l, find) {
    } else {
        lemma_clear_to(recs, p, find);
    }
}

/// `to_multy` never moves back, nor past the end; it moves forward from a
/// record; at the end of the reads it does not move, and finds only in a
/// buffer that was not empty.
pub proof fn lemma_to_multy(
    recs: Seq<Option<Seq<char>>>,
    pos: int,
    line: Seq<char>,
    finds: Seq<Seq<char>>,
)
    ensures
        ({
            let (m, p, l) = to_multy(recs, pos, line, finds);
            &&& pos <= p
            &&& 0 <= pos <= recs.len() ==> p <= recs.len()
            &&& 0 <= pos < recs.len() ==> pos < p
            &&& !(0 <= pos < recs.len()) ==> p == pos
            &&& m != 0 && p == pos ==> line.len() > 0
        }),
    decreases recs.len() - pos, line.len(),
{
    let (ok, p, l) = read_step(recs, pos, line);
    if !ok || l.len() == 0 {
    } else if holds_one_of(l, finds) {
    } else {
        lemma_to_multy(recs, p, seq![], finds);
    }
}

/// The UTF-8 encoding of characters is at least as long as they are.
pub proof fn lemma_encode_len(s: Seq<char>)
    ensures
        encode_utf8(s).len() >= s.len(),
    decreases s.len(),
{
    if s.len() > 0 {
        lemma_encode_len(s.drop_first());
    }
}

/// The first byte of the UTF-8 encoding of a text is below 128 exactly when
/// its first character is, and is then that character's number.
pub proof fn lemma_first_byte(s: Seq<char>)
    requires
        s.len() > 0,
    ensures
        (encode_utf8(s)[0] < 128) == ((s[0] as u32) < 128),
        (s[0] as u32) < 128 ==> encode_utf8(s)[0] as u32 == s[0] as u32,
{
    let v = s[0] as u32;
    assert(encode_utf8(s) == encode_scalar(v) + encode_utf8(s.drop_first()));
    char_is_scalar(s[0]);
    if has_width_1_encoding(v) {
        assert(v <= 0x7f ==> (v & 0x7f) as u8 as u32 == v) by (bit_vector);
    } else if has_width_2_encoding(v) {
        let x = ((v >> 6) & 0x1F) as u8;
        assert((0xC0u8 | x) >= 128u8) by (bit_vector);
    } else if has_width_3_encoding(v) {
        let x = ((v >> 12) & 0x0F) as u8;
        assert((0xE0u8 | x) >= 128u8) by (bit_vector);
    } else {
        let x = ((v >> 18) & 0x7) as u8;
        assert((0xF0u8 | x) >= 128u8) by (bit_vector);
    }
}

/// Clears `line`, then reads lines into it until one holds `find`
/// (`line_clear_to`): whether one did.
pub fn line_clear_to(reader: &mut LineReader, line: &mut Vec<char>, find_text: &[char]) -> (found: bool)
    requires
        old(reader).wf(),
    ensures
        final(reader).wf(),
        final(reader).recs() == old(reader).recs(),
        (found, final(reader).at(), final(line)@) == clear_to(
            old(reader).recs(),
            old(reader).at(),
            find_text@,
        ),
{
    let ghost recs = reader.recs();
    let ghost target = clear_to(recs, reader.at(), find_text@);
    line.clear();
    loop
        invariant
            reader.wf(),
            reader.recs() == recs,
            line@ == Seq::<char>::empty(),
            recs == old(reader).recs(),
            target == clear_to(old(reader).recs(), old(reader).at(), find_text@),
            clear_to(recs, reader.at(), find_text@) == target,
        decreases recs.len() - reader.at(),
    {
        let ghost at = reader.at();
        let ok = reader.read_line(line);
        if !ok || line.len() == 0 {
            return false;
        }
        if find(line, find_text) {
            return true;
        }
        line.clear();
    }
}

/// Reads lines into `line`, the first appended to what it holds, until it
/// holds one of `finds` (`line_to_multy`): the third byte of that line, or
/// zero.
#[verifier::loop_isolation(false)]
pub fn line_to_multy(reader: &mut LineReader, line: &mut Vec<char>, finds: &Vec<Vec<char>>) -> (res: u8)
    requires
        old(reader).wf(),
        forall|k: int| 0 <= k < finds@.len() ==> #[trigger] finds@[k]@.len() >= 3,
    ensures
        final(reader).wf(),
        final(reader).recs() == old(reader).recs(),
        (res, final(reader).at(), final(line)@) == to_multy(
            old(reader).recs(),
            old(reader).at(),
            old(line)@,
            texts(finds@),
        ),
{
    let ghost recs = reader.recs();
    let ghost fs = texts(finds@);
    let ghost target = to_multy(recs, reader.at(), line@, fs);
    loop
        invariant
            reader.wf(),
            reader.recs() == recs,
            fs == texts(finds@),
            forall|k: int| 0 <= k < finds@.len() ==> #[trigger] finds@[k]@.len() >= 3,
            recs == old(reader).recs(),
            target == to_multy(old(reader).recs(), old(reader).at(), old(line)@, fs),
            to_multy(recs, reader.at(), line@, fs) == target,
        decreases recs.len() - reader.at(), line@.len(),
    {
        let ok = reader.read_line(line);
        if !ok || line.len() == 0 {
            return 0;
        }
        let mut k: usize = 0;
        while k < finds.len()
            invariant
                k <= finds@.len(),
                fs == texts(finds@),
                forall|j: int| 0 <= j < finds@.len() ==> #[trigger] finds@[j]@.len() >= 3,
                forall|j: int| 0 <= j < k ==> !has_substring(line@, #[trigger] fs[j]),
            decreases finds@.len() - k,
        {
            if find(line, &finds[k]) {
                assert(fs[k as int] == finds@[k as int]@);
                proof {
                    let i = choose|i: int| occurs_at(line@, fs[k as int], i);
                    assert(occurs_at(line@, fs[k as int], i));
                }
                let text = to_string(line);
                let bytes = text.as_str().as_bytes();
                proof {
                    lemma_encode_len(line@);
                    assert(holds_one_of(line@, fs));
                }
                return bytes[2];
            }
            k = k + 1;
        }
        assert(!holds_one_of(line@, fs));
        line.clear();
    }
}

/// Decodes one line of bytes (`std::str::from_utf8`): its characters when it
/// is valid UTF-8, nothing otherwise.
#[verifier::external_body]
fn decode_line(bytes: &[u8]) -> (res: Option<&str>)
    ensures
        match res {
            Some(s) => valid_utf8(bytes@) && s@ == decode_utf8(bytes@),
            None => !valid_utf8(bytes@),
        },
{
    std::str::from_utf8(bytes).ok()
}

} // verus!
