//! Panako dump resources and the `.tdb` / `_meta_data.txt` grammar.
use vstd::prelude::*;
use vstd::slice::slice_subrange;
use vstd::utf8::*;

use crate::config::{MAX_FREQUENCY_BIN, MAX_HASH};
use crate::error::Error;
use crate::fingerprint::Fingerprint;
use crate::sorting::{sort_texts, text_le};
use crate::text::{debug_quoted, decimal, decimal_chars, join, literal, quoted, utf8_string};

verus! {

/// The four metadata lines of a dumped resource. `duration_bits` holds the IEEE-754 bit
/// pattern of the declared duration in seconds; the library never interprets it.
#[derive(Debug)]
pub struct ResourceMeta {
    pub source_id: String,
    pub key: String,
    pub duration_bits: u64,
    pub declared_prints: u64,
}

/// A dumped resource: its metadata, its prints and where the prints came from.
#[derive(Debug)]
pub struct DumpResource {
    pub meta: ResourceMeta,
    pub prints: Vec<Fingerprint>,
    pub prints_path: String,
}

// ---------------------------------------------------------------------------------------
// Lexical layer: lines, whitespace, unsigned decimals
// ---------------------------------------------------------------------------------------

/// Unicode `White_Space`, the property `char::is_whitespace` tests.
pub open spec fn is_white(c: char) -> bool {
    let u = c as u32;
    ||| 9 <= u <= 13
    ||| u == 32
    ||| u == 0x85
    ||| u == 0xa0
    ||| u == 0x1680
    ||| 0x2000 <= u <= 0x200a
    ||| u == 0x2028
    ||| u == 0x2029
    ||| u == 0x202f
    ||| u == 0x205f
    ||| u == 0x3000
}

pub fn white(c: char) -> (r: bool)
    ensures
        r == is_white(c),
{
    let u = c as u32;
    (9 <= u && u <= 13) || u == 32 || u == 0x85 || u == 0xa0 || u == 0x1680 || (0x2000 <= u && u <= 0x200a)
        || u == 0x2028 || u == 0x2029 || u == 0x202f || u == 0x205f || u == 0x3000
}

/// The whitespace-separated fields of `s[i..]` (`str::split_whitespace`), when a field
/// began at `open` and is still running, or none is.
pub open spec fn fields_from(s: Seq<char>, i: int, open: Option<int>) -> Seq<Seq<char>>
    decreases s.len() - i,
{
    if i >= s.len() {
        match open {
            Some(a) => seq![s.subrange(a, s.len() as int)],
            None => Seq::empty(),
        }
    } else if is_white(s[i]) {
        (match open {
            Some(a) => seq![s.subrange(a, i)],
            None => Seq::empty(),
        }) + fields_from(s, i + 1, None)
    } else {
        fields_from(s, i + 1, if open is Some { open } else { Some(i) })
    }
}

/// The whitespace-separated fields of `s`.
pub open spec fn fields(s: Seq<char>) -> Seq<Seq<char>> {
    fields_from(s, 0, None)
}

pub open spec fn views(v: Seq<Vec<char>>) -> Seq<Seq<char>> {
    v.map_values(|f: Vec<char>| f@)
}

/// Splits `s` at Unicode whitespace into its non-empty fields.
pub fn split_fields(s: &Vec<char>) -> (r: Vec<Vec<char>>)
    ensures
        views(r@) == fields(s@),
{
    let mut done: Vec<Vec<char>> = Vec::new();
    let mut cur: Vec<char> = Vec::new();
    let mut open = false;
    let ghost mut start: int = 0;
    let mut i: usize = 0;
    while i < s.len()
        invariant
            i <= s@.len(),
            open ==> 0 <= start <= i && cur@ == s@.subrange(start, i as int),
            views(done@) + fields_from(s@, i as int, if open { Some(start) } else { None }) == fields(s@),
        decreases s@.len() - i,
    {
        let c = s[i];
        if white(c) {
            if open {
                let ghost before = done@;
                done.push(cur);
                cur = Vec::new();
                open = false;
                assert(views(done@) =~= views(before) + seq![s@.subrange(start, i as int)]);
            }
        } else {
            if !open {
                open = true;
                proof {
                    start = i as int;
                }
                cur = Vec::new();
            }
            cur.push(c);
            assert(cur@ =~= s@.subrange(start, i + 1));
        }
        i = i + 1;
    }
    if open {
        let ghost before = done@;
        done.push(cur);
        assert(views(done@) =~= views(before) + seq![s@.subrange(start, s@.len() as int)]);
    }
    done
}

pub open spec fn is_digit(c: char) -> bool {
    48 <= c as u32 <= 57
}

/// The value of a run of decimal digits.
pub open spec fn digits_value(d: Seq<char>) -> nat
    decreases d.len(),
{
    if d.len() == 0 {
        0
    } else {
        digits_value(d.drop_last()) * 10 + (d.last() as u32 - 48) as nat
    }
}

/// The digits of an unsigned decimal: the text after an optional leading `+`.
pub open spec fn unsigned_digits(s: Seq<char>) -> Seq<char> {
    if s.len() > 0 && s[0] == '+' {
        s.drop_first()
    } else {
        s
    }
}

/// `s` is an unsigned decimal no greater than `max`: an optional `+` then at least one
/// ASCII digit and nothing else, which is what `FromStr` accepts for unsigned integers.
pub open spec fn parses_unsigned(s: Seq<char>, max: nat) -> bool {
    let d = unsigned_digits(s);
    &&& d.len() > 0
    &&& forall|i: int| 0 <= i < d.len() ==> is_digit(#[trigger] d[i])
    &&& digits_value(d) <= max
}

pub open spec fn unsigned_value(s: Seq<char>) -> nat {
    digits_value(unsigned_digits(s))
}

/// Parses an unsigned decimal no greater than `max`.
pub fn parse_unsigned(s: &Vec<char>, max: u64) -> (r: Option<u64>)
    ensures
        r is Some <==> parses_unsigned(s@, max as nat),
        r matches Some(v) ==> v == unsigned_value(s@),
{
    let ghost d = unsigned_digits(s@);
    let mut i: usize = 0;
    if s.len() > 0 && s[0] == '+' {
        i = 1;
    }
    let first = i;
    assert(d =~= s@.subrange(first as int, s@.len() as int));
    if i >= s.len() {
        return None;
    }
    let mut value: u64 = 0;
    let mut overflow = false;
    while i < s.len()
        invariant
            first <= i <= s@.len(),
            d == unsigned_digits(s@),
            d == s@.subrange(first as int, s@.len() as int),
            forall|j: int| 0 <= j < i - first ==> is_digit(#[trigger] d[j]),
            !overflow ==> value == digits_value(d.subrange(0, i - first)),
            overflow ==> digits_value(d.subrange(0, i - first)) > u64::MAX,
        decreases s@.len() - i,
    {
        let c = s[i];
        let u = c as u32;
        if u < 48 || u > 57 {
            assert(!is_digit(d[i - first]));
            return None;
        }
        proof {
            let pre = d.subrange(0, i - first + 1);
            assert(pre.drop_last() =~= d.subrange(0, i - first));
            assert(pre.last() == c);
        }
        if !overflow {
            let digit = (u - 48) as u64;
            match value.checked_mul(10) {
                Some(t) => match t.checked_add(digit) {
                    Some(v) => {
                        value = v;
                    },
                    None => {
                        overflow = true;
                    },
                },
                None => {
                    overflow = true;
                },
            }
        } else {
            proof {
                let pre = d.subrange(0, i - first + 1);
                assert(digits_value(pre) >= digits_value(d.subrange(0, i - first)));
            }
        }
        i = i + 1;
    }
    assert(d.subrange(0, d.len() as int) =~= d);
    if overflow || value > max {
        return None;
    }
    Some(value)
}

/// The characters of `v` as a `String`, through `FromIterator<char>`, which appends them
/// in order.
#[verifier::external_body]
fn text_of(v: &Vec<char>) -> (s: String)
    ensures
        s@ == v@,
{
    v.iter().collect()
}

/// The characters of a string, in order.
pub fn chars_of(s: &str) -> (v: Vec<char>)
    ensures
        v@ == s@,
{
    let mut v: Vec<char> = Vec::new();
    for c in it: s.chars()
        invariant
            v@ == it.seq().subrange(0, it.index() as int),
            it.seq() == s@,
    {
        v.push(c);
        assert(v@ =~= it.seq().subrange(0, it.index() + 1));
    }
    v
}

/// The dump error for `path` at 1-based `line` (line 0: the whole file).
pub fn invalid(path: &str, line: usize, message: String) -> (e: Error)
    ensures
        e matches Error::InvalidDump { path: p, line: l, message: m } && p@ == path@ && l == line && m@ == message@,
{
    Error::InvalidDump { path: literal(path), line, message }
}

/// The message for a value that is not a valid `description`.
pub open spec fn invalid_value_message(description: Seq<char>, value: Seq<char>) -> Seq<char> {
    "invalid "@ + description + ": "@ + debug_quoted(value)
}

/// Parses field `value` of line `line` as an unsigned decimal no greater than `max`.
pub fn parse_value(path: &str, line: usize, value: &Vec<char>, description: &str, max: u64) -> (r: Result<u64, Error>)
    ensures
        r is Ok <==> parses_unsigned(value@, max as nat),
        r matches Ok(v) ==> v == unsigned_value(value@),
        r matches Err(e) ==> e matches Error::InvalidDump { path: p, line: l, message: m } && p@ == path@ && l == line
            && m@ == invalid_value_message(description@, value@),
{
    match parse_unsigned(value, max) {
        Some(v) => Ok(v),
        None => {
            let s = join(literal("invalid "), description);
            let s = join(s, ": ");
            let q = quoted(text_of(value).as_str());
            Err(invalid(path, line, join(s, q.as_str())))
        },
    }
}

/// What one print line holds: a print, or the message of its first fault. The second field
/// is not interpreted.
pub open spec fn print_line(line: Seq<char>) -> Result<Fingerprint, Seq<char>> {
    let f = fields(line);
    if f.len() != 4 {
        Err("expected four fields, got "@ + decimal_chars(f.len()))
    } else if !parses_unsigned(f[0], u64::MAX as nat) {
        Err(invalid_value_message("hash"@, f[0]))
    } else if unsigned_value(f[0]) > MAX_HASH {
        Err("hash "@ + decimal_chars(unsigned_value(f[0])) + " exceeds 34 bits"@)
    } else if !parses_unsigned(f[2], u32::MAX as nat) {
        Err(invalid_value_message("time bin"@, f[2]))
    } else if !parses_unsigned(f[3], u16::MAX as nat) {
        Err(invalid_value_message("frequency bin"@, f[3]))
    } else if unsigned_value(f[3]) > MAX_FREQUENCY_BIN {
        Err("frequency bin "@ + decimal_chars(unsigned_value(f[3])) + " exceeds 512"@)
    } else {
        Ok(Fingerprint { hash: unsigned_value(f[0]) as u64, t: unsigned_value(f[2]) as u32, f: unsigned_value(f[3]) as u16 })
    }
}

/// Parses one `.tdb` line: `hash`, an uninterpreted field, `t` and `f`.
pub fn parse_print_line(path: &str, number: usize, line: &Vec<char>) -> (r: Result<Fingerprint, Error>)
    ensures
        match print_line(line@) {
            Ok(p) => r == Ok::<Fingerprint, Error>(p),
            Err(m) => r matches Err(Error::InvalidDump { path: p, line: l, message }) && p@ == path@ && l == number
                && message@ == m,
        },
{
    let parts = split_fields(line);
    let ghost f = fields(line@);
    assert(views(parts@) == f);
    if parts.len() != 4 {
        let msg = join(literal("expected four fields, got "), decimal(parts.len() as u64).as_str());
        return Err(invalid(path, number, msg));
    }
    assert(parts@[0]@ == f[0] && parts@[2]@ == f[2] && parts@[3]@ == f[3]);
    let hash = match parse_value(path, number, &parts[0], "hash", u64::MAX) {
        Ok(v) => v,
        Err(e) => return Err(e),
    };
    if hash > MAX_HASH {
        let msg = join(join(literal("hash "), decimal(hash).as_str()), " exceeds 34 bits");
        return Err(invalid(path, number, msg));
    }
    let t = match parse_value(path, number, &parts[2], "time bin", 0xffff_ffff) {
        Ok(v) => v,
        Err(e) => return Err(e),
    };
    let f = match parse_value(path, number, &parts[3], "frequency bin", 0xffff) {
        Ok(v) => v,
        Err(e) => return Err(e),
    };
    if f > 512 {
        let msg = join(join(literal("frequency bin "), decimal(f).as_str()), " exceeds 512");
        return Err(invalid(path, number, msg));
    }
    Ok(Fingerprint::new(hash, t as u32, f as u16))
}

/// The lines of `b[i..]` (`BufRead::lines`), the current one having begun at `start`: split
/// at `\n`, a final line only when it is not empty. A `\r` before the `\n` stays in the
/// line; the grammar treats it as whitespace.
pub open spec fn lines_from(b: Seq<u8>, i: int, start: int) -> Seq<Seq<u8>>
    decreases b.len() - i,
{
    if i >= b.len() {
        if start < b.len() {
            seq![b.subrange(start, b.len() as int)]
        } else {
            Seq::empty()
        }
    } else if b[i] == 10 {
        seq![b.subrange(start, i)] + lines_from(b, i + 1, i + 1)
    } else {
        lines_from(b, i + 1, start)
    }
}

pub open spec fn byte_lines(b: Seq<u8>) -> Seq<Seq<u8>> {
    lines_from(b, 0, 0)
}

/// The prints of lines `ls`, or the 1-based number of the first faulty line with its
/// message (`None`: the line is not UTF-8).
pub open spec fn prints_outcome(ls: Seq<Seq<u8>>) -> Result<Seq<Fingerprint>, (nat, Option<Seq<char>>)>
    decreases ls.len(),
{
    if ls.len() == 0 {
        Ok(Seq::empty())
    } else {
        match prints_outcome(ls.drop_last()) {
            Err(e) => Err(e),
            Ok(ps) => if !valid_utf8(ls.last()) {
                Err((ls.len(), None))
            } else {
                match print_line(decode_utf8(ls.last())) {
                    Ok(p) => Ok(ps.push(p)),
                    Err(m) => Err((ls.len(), Some(m))),
                }
            },
        }
    }
}

proof fn lemma_outcome_keeps_fault(a: Seq<Seq<u8>>, c: Seq<Seq<u8>>)
    requires
        prints_outcome(a) is Err,
    ensures
        prints_outcome(a + c) == prints_outcome(a),
    decreases c.len(),
{
    if c.len() > 0 {
        lemma_outcome_keeps_fault(a, c.drop_last());
        assert((a + c).drop_last() =~= a + c.drop_last());
    } else {
        assert(a + c =~= a);
    }
}

/// The I/O error `BufRead::lines` reports for a line that is not UTF-8, built with
/// `std::io::Error::new` and `ErrorKind::InvalidData`.
#[verifier::external_body]
fn not_utf8_error() -> std::io::Error {
    std::io::Error::new(std::io::ErrorKind::InvalidData, "stream did not contain valid UTF-8")
}

fn copy_range(b: &[u8], start: usize, end: usize) -> (v: Vec<u8>)
    requires
        start <= end <= b@.len(),
    ensures
        v@ == b@.subrange(start as int, end as int),
{
    let mut v: Vec<u8> = Vec::new();
    let mut i = start;
    while i < end
        invariant
            start <= i <= end <= b@.len(),
            v@ == b@.subrange(start as int, i as int),
        decreases end - i,
    {
        v.push(b[i]);
        i = i + 1;
        assert(v@ =~= b@.subrange(start as int, i as int));
    }
    v
}

fn parse_line_bytes(path: &str, number: usize, line: Vec<u8>) -> (r: Result<Fingerprint, Error>)
    ensures
        !valid_utf8(line@) ==> (r matches Err(Error::Io { path: p, .. }) && p@ == path@),
        valid_utf8(line@) ==> match print_line(decode_utf8(line@)) {
            Ok(p) => r == Ok::<Fingerprint, Error>(p),
            Err(m) => r matches Err(Error::InvalidDump { path: p, line: l, message }) && p@ == path@ && l == number
                && message@ == m,
        },
{
    match utf8_string(line) {
        None => Err(Error::io(path, not_utf8_error())),
        Some(text) => {
            let chars = chars_of(text.as_str());
            parse_print_line(path, number, &chars)
        },
    }
}

/// `r` is what parsing `content` as a `.tdb` dump at `path` gives: its prints, or the error of
/// its first faulty line.
pub open spec fn parsed_as(path: Seq<char>, content: Seq<u8>, r: Result<Vec<Fingerprint>, Error>) -> bool {
    match prints_outcome(byte_lines(content)) {
        Ok(ps) => r matches Ok(v) && v@ == ps,
        Err((_, None)) => r matches Err(Error::Io { path: p, .. }) && p@ == path,
        Err((n, Some(m))) => r matches Err(Error::InvalidDump { path: p, line: l, message }) && p@ == path && l == n
            && message@ == m,
    }
}

/// Parses the bytes of a `.tdb` dump, line by line: every line must hold a print, and the
/// first line that does not decides the error.
pub fn parse_prints(path: &str, bytes: &[u8]) -> (r: Result<Vec<Fingerprint>, Error>)
    ensures
        parsed_as(path@, bytes@, r),
{
    let ghost b = bytes@;
    let ghost mut done: Seq<Seq<u8>> = Seq::empty();
    let mut prints: Vec<Fingerprint> = Vec::new();
    let mut start: usize = 0;
    let mut number: usize = 0;
    let mut i: usize = 0;
    while i < bytes.len()
        invariant
            b == bytes@,
            start <= i <= b.len(),
            number == done.len(),
            number <= start,
            byte_lines(b) == done + lines_from(b, i as int, start as int),
            prints_outcome(done) == Ok::<Seq<Fingerprint>, (nat, Option<Seq<char>>)>(prints@),
        decreases b.len() - i,
    {
        if bytes[i] == 10 {
            let line = copy_range(bytes, start, i);
            let ghost next = done.push(line@);
            proof {
                assert(lines_from(b, i as int, start as int) == seq![line@] + lines_from(b, i + 1, i + 1));
                assert(done + lines_from(b, i as int, start as int) =~= next + lines_from(b, i + 1, i + 1));
                assert(next.drop_last() =~= done);
            }
            number = number + 1;
            match parse_line_bytes(path, number, line) {
                Ok(p) => {
                    prints.push(p);
                },
                Err(e) => {
                    proof {
                        lemma_outcome_keeps_fault(next, lines_from(b, i + 1, i + 1));
                    }
                    return Err(e);
                },
            }
            proof {
                done = next;
            }
            start = i + 1;
        }
        i = i + 1;
    }
    if start < bytes.len() {
        let line = copy_range(bytes, start, bytes.len());
        let ghost next = done.push(line@);
        proof {
            assert(done + lines_from(b, i as int, start as int) =~= next);
            assert(next.drop_last() =~= done);
        }
        number = number + 1;
        match parse_line_bytes(path, number, line) {
            Ok(p) => {
                prints.push(p);
            },
            Err(e) => return Err(e),
        }
    } else {
        assert(done + lines_from(b, i as int, start as int) =~= done);
    }
    Ok(prints)
}

/// What decompressing zstd data yields: the bytes decoded before the stream ended or broke,
/// and whether the whole stream decoded.
pub uninterp spec fn zstd_content(data: Seq<u8>) -> (Seq<u8>, bool);

/// Decompresses `data` through a `zstd::stream::read::Decoder` behind a default
/// `std::io::BufReader`, copied out with `std::io::copy`: the decoder is read in the
/// buffer's 8 KiB chunks, as a line reader over the same `BufReader` reads it, and on a read
/// error the bytes already decoded stay written. What is decoded and whether the stream was
/// whole depend on the input bytes alone; both are named by `zstd_content`, and the failure
/// is handed back.
#[verifier::external_body]
fn zstd_decode(data: &[u8]) -> (r: (Vec<u8>, Result<(), std::io::Error>))
    ensures
        r.0@ == zstd_content(data@).0,
        r.1 is Ok <==> zstd_content(data@).1,
{
    let mut content = Vec::new();
    let status = match zstd::stream::read::Decoder::new(data) {
        Ok(decoder) => std::io::copy(&mut std::io::BufReader::new(decoder), &mut content).map(|_| ()),
        Err(error) => Err(error),
    };
    (content, status)
}

/// Where the last complete line of `s` ends: just after its last `\n`, 0 when it has none.
pub open spec fn complete_lines_end(s: Seq<u8>) -> int
    decreases s.len(),
{
    if s.len() == 0 {
        0
    } else if s.last() == 10u8 {
        s.len() as int
    } else {
        complete_lines_end(s.drop_last())
    }
}

proof fn lemma_complete_lines_end(s: Seq<u8>)
    ensures
        0 <= complete_lines_end(s) <= s.len(),
    decreases s.len(),
{
    if s.len() > 0 {
        lemma_complete_lines_end(s.drop_last());
    }
}

/// What loading a dump whose bytes are `content` gives when reading them broke off after
/// `content`: the error of the first faulty complete line, else an I/O error at `path`.
pub open spec fn broken_as(path: Seq<char>, content: Seq<u8>, r: Result<Vec<Fingerprint>, Error>) -> bool {
    let complete = content.subrange(0, complete_lines_end(content));
    if prints_outcome(byte_lines(complete)) is Ok {
        r matches Err(Error::Io { path: p, .. }) && p@ == path
    } else {
        parsed_as(path, complete, r)
    }
}

fn complete_lines_len(content: &[u8]) -> (n: usize)
    ensures
        n == complete_lines_end(content@),
{
    let mut n: usize = 0;
    let mut i: usize = 0;
    while i < content.len()
        invariant
            i <= content@.len(),
            n == complete_lines_end(content@.subrange(0, i as int)),
        decreases content@.len() - i,
    {
        proof {
            assert(content@.subrange(0, i as int + 1).drop_last() =~= content@.subrange(0, i as int));
        }
        if content[i] == 10 {
            n = i + 1;
        }
        i = i + 1;
    }
    assert(content@.subrange(0, content@.len() as int) =~= content@);
    n
}

/// The prints of a dump file's bytes as read from disk. A zstd-compressed file is decoded as
/// it is read: when the stream breaks off, the complete lines decoded before the break are
/// parsed first, and only if they are all prints is the break reported, as an I/O error at
/// `path`.
pub fn load_prints(path: &str, bytes: &[u8], compressed: bool) -> (r: Result<Vec<Fingerprint>, Error>)
    ensures
        !compressed ==> parsed_as(path@, bytes@, r),
        compressed ==> ({
            let (content, whole) = zstd_content(bytes@);
            if whole {
                parsed_as(path@, content, r)
            } else {
                broken_as(path@, content, r)
            }
        }),
{
    if compressed {
        let (content, status) = zstd_decode(bytes);
        match status {
            Ok(()) => parse_prints(path, content.as_slice()),
            Err(e) => {
                let n = complete_lines_len(content.as_slice());
                proof {
                    lemma_complete_lines_end(content@);
                }
                let complete = slice_subrange(content.as_slice(), 0, n);
                match parse_prints(path, complete) {
                    Ok(_) => Err(Error::io(path, e)),
                    Err(fault) => Err(fault),
                }
            },
        }
    } else {
        parse_prints(path, bytes)
    }
}

// ---------------------------------------------------------------------------------------
// Metadata files
// ---------------------------------------------------------------------------------------

/// A line without the `\r` of a `\r\n` terminator.
pub open spec fn strip_cr(l: Seq<char>) -> Seq<char> {
    if l.len() > 0 && l.last() == '\r' {
        l.drop_last()
    } else {
        l
    }
}

/// The lines of `s[i..]` (`str::lines`), the current one having begun at `start`: split at
/// `\n`, a `\r` before it dropped, a final line only when it is not empty.
pub open spec fn text_lines_from(s: Seq<char>, i: int, start: int) -> Seq<Seq<char>>
    decreases s.len() - i,
{
    if i >= s.len() {
        if start < s.len() {
            seq![s.subrange(start, s.len() as int)]
        } else {
            Seq::empty()
        }
    } else if s[i] == '\n' {
        seq![strip_cr(s.subrange(start, i))] + text_lines_from(s, i + 1, i + 1)
    } else {
        text_lines_from(s, i + 1, start)
    }
}

pub open spec fn text_lines(s: Seq<char>) -> Seq<Seq<char>> {
    text_lines_from(s, 0, 0)
}

pub open spec fn string_views(v: Seq<String>) -> Seq<Seq<char>> {
    v.map_values(|l: String| l@)
}

fn chars_range(s: &Vec<char>, start: usize, end: usize) -> (v: Vec<char>)
    requires
        start <= end <= s@.len(),
    ensures
        v@ == s@.subrange(start as int, end as int),
{
    let mut v: Vec<char> = Vec::new();
    let mut i = start;
    while i < end
        invariant
            start <= i <= end <= s@.len(),
            v@ == s@.subrange(start as int, i as int),
        decreases end - i,
    {
        v.push(s[i]);
        i = i + 1;
        assert(v@ =~= s@.subrange(start as int, i as int));
    }
    v
}

/// The four lines of a metadata file's bytes: the
/// file must be UTF-8 and hold exactly four lines.
pub fn metadata_lines(path: &str, bytes: Vec<u8>) -> (r: Result<Vec<String>, Error>)
    ensures
        !valid_utf8(bytes@) ==> (r matches Err(Error::Io { path: p, .. }) && p@ == path@),
        valid_utf8(bytes@) ==> {
            let ls = text_lines(decode_utf8(bytes@));
            if ls.len() == 4 {
                r matches Ok(v) && string_views(v@) == ls
            } else {
                r matches Err(Error::InvalidDump { path: p, line: l, message: m }) && p@ == path@ && l == 0
                    && m@ == "metadata must contain exactly four lines, got "@ + decimal_chars(ls.len())
            }
        },
{
    let ghost bv = bytes@;
    let text = match utf8_string(bytes) {
        Some(t) => t,
        None => return Err(Error::io(path, not_utf8_error())),
    };
    let chars = chars_of(text.as_str());
    let ghost c = chars@;
    let mut lines: Vec<String> = Vec::new();
    let mut start: usize = 0;
    let mut i: usize = 0;
    while i < chars.len()
        invariant
            c == chars@,
            start <= i <= c.len(),
            string_views(lines@) + text_lines_from(c, i as int, start as int) == text_lines(c),
            lines@.len() <= start,
        decreases c.len() - i,
    {
        if chars[i] == '\n' {
            let mut end = i;
            if end > start && chars[end - 1] == '\r' {
                end = end - 1;
            }
            let piece = chars_range(&chars, start, end);
            assert(piece@ == strip_cr(c.subrange(start as int, i as int)));
            let ghost before = lines@;
            lines.push(text_of(&piece));
            assert(string_views(lines@) =~= string_views(before).push(piece@));
            assert(string_views(lines@) + text_lines_from(c, i + 1, i + 1) =~= string_views(before) + text_lines_from(c, i as int, start as int));
            start = i + 1;
        }
        i = i + 1;
    }
    if start < chars.len() {
        let piece = chars_range(&chars, start, chars.len());
        let ghost before = lines@;
        lines.push(text_of(&piece));
        assert(string_views(lines@) =~= string_views(before) + text_lines_from(c, i as int, start as int));
    } else {
        assert(string_views(lines@) =~= string_views(lines@) + text_lines_from(c, i as int, start as int));
    }
    if lines.len() != 4 {
        let msg = join(literal("metadata must contain exactly four lines, got "), decimal(lines.len() as u64).as_str());
        return Err(invalid(path, 0, msg));
    }
    Ok(lines)
}

/// The duration line of a metadata file as the caller read it: not a number, a number
/// that is negative or not finite, or the bit pattern of a valid duration in seconds.
pub enum DurationField {
    Unparsable,
    OutOfRange,
    Seconds(u64),
}

/// What a metadata file's four lines hold: the resource's metadata, or the line and
/// message of the first fault.
pub open spec fn metadata_outcome(ls: Seq<Seq<char>>, duration: DurationField) -> Result<(nat, u64, nat, Seq<char>), (nat, Seq<char>)> {
    if !parses_unsigned(ls[0], u32::MAX as nat) {
        Err((1, invalid_value_message("resource id"@, ls[0])))
    } else if duration is Unparsable {
        Err((2, invalid_value_message("duration"@, ls[1])))
    } else if duration is OutOfRange {
        Err((2, "duration must be finite and non-negative"@))
    } else if !parses_unsigned(ls[2], u64::MAX as nat) {
        Err((3, invalid_value_message("print count"@, ls[2])))
    } else if ls[3].len() == 0 {
        Err((4, "resource key must not be empty"@))
    } else {
        Ok((unsigned_value(ls[0]), duration->Seconds_0, unsigned_value(ls[2]), ls[3]))
    }
}

/// The metadata of a resource from its four lines; the
/// duration line is read by the caller.
pub fn load_metadata(path: &str, lines: &Vec<String>, duration: DurationField) -> (r: Result<ResourceMeta, Error>)
    requires
        lines@.len() == 4,
    ensures
        match metadata_outcome(string_views(lines@), duration) {
            Ok((id, bits, declared, key)) => r matches Ok(m) && m.source_id@ == decimal_chars(id) && m.duration_bits == bits
                && m.declared_prints == declared && m.key@ == key,
            Err((n, msg)) => r matches Err(Error::InvalidDump { path: p, line: l, message }) && p@ == path@ && l == n
                && message@ == msg,
        },
{
    let ghost ls = string_views(lines@);
    assert(ls[0] == lines@[0]@ && ls[1] == lines@[1]@ && ls[2] == lines@[2]@ && ls[3] == lines@[3]@);
    let id = match parse_value(path, 1, &chars_of(lines[0].as_str()), "resource id", 0xffff_ffff) {
        Ok(v) => v,
        Err(e) => return Err(e),
    };
    let bits = match duration {
        DurationField::Unparsable => {
            let s = join(literal("invalid "), "duration");
            let s = join(s, ": ");
            let q = quoted(lines[1].as_str());
            return Err(invalid(path, 2, join(s, q.as_str())));
        },
        DurationField::OutOfRange => {
            return Err(invalid(path, 2, literal("duration must be finite and non-negative")));
        },
        DurationField::Seconds(b) => b,
    };
    let declared = match parse_value(path, 3, &chars_of(lines[2].as_str()), "print count", u64::MAX) {
        Ok(v) => v,
        Err(e) => return Err(e),
    };
    if lines[3].as_str().is_empty() {
        return Err(invalid(path, 4, literal("resource key must not be empty")));
    }
    Ok(ResourceMeta { source_id: decimal(id), key: lines[3].clone(), duration_bits: bits, declared_prints: declared })
}

/// A dumped resource from its metadata and prints (one per metadata file of a dump directory): the prints
/// must number what the metadata declares.
pub fn check_declared(meta: ResourceMeta, prints: Vec<Fingerprint>, prints_path: String) -> (r: Result<DumpResource, Error>)
    ensures
        prints@.len() == meta.declared_prints ==> (r matches Ok(d) && d.meta == meta && d.prints@ == prints@
            && d.prints_path == prints_path),
        prints@.len() != meta.declared_prints ==> (r matches Err(Error::InvalidDump { path: p, line: l, message: m })
            && p@ == prints_path@ && l == 0 && m@ == "metadata declares "@ + decimal_chars(meta.declared_prints as nat)
            + ", file contains "@ + decimal_chars(prints@.len())),
{
    let count = prints.len() as u64;
    if count != meta.declared_prints {
        let s = join(literal("metadata declares "), decimal(meta.declared_prints).as_str());
        let s = join(s, ", file contains ");
        let msg = join(s, decimal(count).as_str());
        return Err(invalid(prints_path.as_str(), 0, msg));
    }
    Ok(DumpResource { meta, prints, prints_path })
}

// ---------------------------------------------------------------------------------------
// Dump directories
// ---------------------------------------------------------------------------------------

/// The suffix of a metadata file name.
pub open spec fn metadata_suffix() -> Seq<char> {
    "_meta_data.txt"@
}

pub open spec fn is_metadata_name(name: Seq<char>) -> bool {
    name.len() >= metadata_suffix().len() && name.subrange(name.len() - metadata_suffix().len(), name.len() as int)
        == metadata_suffix()
}

fn ends_with_chars(name: &Vec<char>, suffix: &Vec<char>) -> (r: bool)
    ensures
        r == (name@.len() >= suffix@.len() && name@.subrange(name@.len() - suffix@.len(), name@.len() as int) == suffix@),
{
    if name.len() < suffix.len() {
        return false;
    }
    let n = name.len();
    let offset = n - suffix.len();
    let mut i: usize = 0;
    while i < suffix.len()
        invariant
            n == name@.len(),
            offset == name@.len() - suffix@.len(),
            offset + suffix@.len() == name@.len(),
            i <= suffix@.len(),
            forall|j: int| 0 <= j < i ==> name@[offset + j] == suffix@[j],
        decreases suffix@.len() - i,
    {
        if name[offset + i] != suffix[i] {
            assert(name@.subrange(offset as int, name@.len() as int)[i as int] != suffix@[i as int]);
            return false;
        }
        i = i + 1;
    }
    assert(name@.subrange(offset as int, name@.len() as int) =~= suffix@);
    true
}

/// The metadata files among a dump directory's entry names, in byte order; the directory
/// must hold at least one.
pub fn metadata_files(dir: &str, names: Vec<String>) -> (r: Result<Vec<String>, Error>)
    ensures
        match r {
            Ok(files) => files@.len() > 0 && files@.to_multiset() == names@.filter(|n: String| is_metadata_name(n@)).to_multiset()
                && forall|i: int, j: int| 0 <= i < j < files@.len() ==> text_le(#[trigger] files@[i]@, #[trigger] files@[j]@),
            Err(e) => names@.filter(|n: String| is_metadata_name(n@)).len() == 0 && (e matches Error::BadRequest(m)
                && m@ == "dump directory "@ + dir@ + " contains no metadata files"@),
        },
{
    let suffix = chars_of("_meta_data.txt");
    let ghost all = names@;
    let total = names.len();
    let mut files: Vec<String> = Vec::new();
    let mut i: usize = 0;
    for name in it: names.into_iter()
        invariant
            i == it.index(),
            it.seq() == all,
            all == names@,
            all.len() == total,
            suffix@ == metadata_suffix(),
            files@ == all.subrange(0, i as int).filter(|n: String| is_metadata_name(n@)),
    {
        proof {
            reveal(Seq::filter);
            assert(all.subrange(0, i as int + 1).drop_last() =~= all.subrange(0, i as int));
        }
        if ends_with_chars(&chars_of(name.as_str()), &suffix) {
            files.push(name);
        }
        i = i + 1;
    }
    assert(all.subrange(0, all.len() as int) =~= all);
    if files.len() == 0 {
        let s = join(literal("dump directory "), dir);
        return Err(Error::BadRequest(join(s, " contains no metadata files")));
    }
    let ghost unsorted = files@;
    sort_texts(&mut files);
    proof {
        vstd::seq_lib::to_multiset_len(files@);
        vstd::seq_lib::to_multiset_len(unsorted);
    }
    Ok(files)
}

} // verus!
