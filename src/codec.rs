//! The wire format: its bytes as spec functions, the encoder and the
//! cursor-based decoder.
use crate::le::{
    le_u16_bytes, le_u16_value, le_u64_bytes, le_u64_value, read_u16_le, read_u64_le, u16_to_le,
    u64_to_le,
};
use crate::model::{
    derived_fields, files_view, Container, ContainerView, File, MAX_X, Y_DIFFERENCE, Z_DIFFERENCE,
};
use vstd::prelude::*;
use vstd::slice::slice_to_vec;
use vstd::utf8::{decode_utf8, encode_utf8, valid_utf8};

verus! {

/// The first byte of every encoding.
pub const MAGIC_NUMBER: u8 = 0x46;

/// Why a byte sequence could not be decoded.
#[derive(Clone, Copy, Debug, PartialEq, Eq)]
pub enum FormatError {
    /// The first byte is not [`MAGIC_NUMBER`].
    BadMagic,
    /// The bytes end before a terminator, an integer or a file's content.
    Truncated,
    /// The timestamp is so large that its derived fields would not fit in a
    /// `u64`.
    TimestampOverflow,
}

/// What `String::from_utf8_lossy` makes of `b`.
pub uninterp spec fn lossy_text(b: Seq<u8>) -> Seq<char>;

/// The text of a field: the characters that `b` encodes, where `b` is
/// valid UTF-8; else what the lossy conversion makes of it.
pub open spec fn text_of(b: Seq<u8>) -> Seq<char> {
    if valid_utf8(b) {
        decode_utf8(b)
    } else {
        lossy_text(b)
    }
}

/// Relies on std's `String::from_utf8_lossy`: the text of `b`, with each
/// invalid sequence replaced; valid UTF-8 is decoded as it is.
#[verifier::external_body]
fn text_from_bytes(b: &[u8]) -> (r: String)
    ensures
        r@ == lossy_text(b@),
        valid_utf8(b@) ==> r@ == decode_utf8(b@),
{
    String::from_utf8_lossy(b).into_owned()
}

// ---------------------------------------------------------------------------
// Encoding

/// A text field on the wire: its UTF-8 bytes and a zero terminator.
pub open spec fn terminated(s: Seq<char>) -> Seq<u8> {
    encode_utf8(s).push(0u8)
}

/// One file on the wire: name, content length, content.
pub open spec fn file_bytes(f: (Seq<char>, Seq<u8>)) -> Seq<u8> {
    terminated(f.0) + le_u64_bytes(f.1.len() as u64) + f.1
}

/// The files on the wire, in order.
pub open spec fn files_bytes(fs: Seq<(Seq<char>, Seq<u8>)>) -> Seq<u8>
    decreases fs.len(),
{
    if fs.len() == 0 {
        Seq::empty()
    } else {
        files_bytes(fs.drop_last()) + file_bytes(fs.last())
    }
}

/// Magic number, comment, timestamp and file count; the count keeps the
/// low sixteen bits of the number of files.
pub open spec fn header_bytes(c: ContainerView) -> Seq<u8> {
    seq![MAGIC_NUMBER] + terminated(c.comment) + le_u64_bytes(c.x) + le_u16_bytes(
        c.files.len() as u16,
    )
}

/// The encoding of a container.
pub open spec fn encoding(c: ContainerView) -> Seq<u8> {
    header_bytes(c) + files_bytes(c.files)
}

// ---------------------------------------------------------------------------
// Decoding

/// The index of the first zero byte of `b` at or after `start`.
pub open spec fn first_zero_from(b: Seq<u8>, start: int) -> Option<int>
    decreases b.len() - start,
{
    if start < 0 || start >= b.len() {
        None
    } else if b[start] == 0 {
        Some(start)
    } else {
        first_zero_from(b, start + 1)
    }
}

/// The text field at `pos` and the position after its terminator.
pub open spec fn parse_text(b: Seq<u8>, pos: int) -> Option<(Seq<char>, int)> {
    match first_zero_from(b, pos) {
        Some(i) => Some((text_of(b.subrange(pos, i)), i + 1)),
        None => None,
    }
}

/// The file at `pos` and the position after its content.
pub open spec fn parse_file(b: Seq<u8>, pos: int) -> Option<((Seq<char>, Seq<u8>), int)> {
    match parse_text(b, pos) {
        None => None,
        Some((name, p)) => if p + 8 > b.len() {
            None
        } else {
            let n = le_u64_value(b.subrange(p, p + 8));
            if p + 8 + n > b.len() {
                None
            } else {
                Some(((name, b.subrange(p + 8, p + 8 + n)), p + 8 + n))
            }
        },
    }
}

/// `n` files one after another from `pos`, and the position after the last.
pub open spec fn parse_files(b: Seq<u8>, pos: int, n: nat) -> Option<
    (Seq<(Seq<char>, Seq<u8>)>, int),
>
    decreases n,
{
    if n == 0 {
        Some((Seq::empty(), pos))
    } else {
        match parse_files(b, pos, (n - 1) as nat) {
            None => None,
            Some((fs, p)) => match parse_file(b, p) {
                None => None,
                Some((f, q)) => Some((fs.push(f), q)),
            },
        }
    }
}

/// What decoding `b` gives; bytes after the last file are ignored.
pub open spec fn decoded(b: Seq<u8>) -> Result<ContainerView, FormatError> {
    if b.len() == 0 {
        Err(FormatError::Truncated)
    } else if b[0] != MAGIC_NUMBER {
        Err(FormatError::BadMagic)
    } else {
        match parse_text(b, 1) {
            None => Err(FormatError::Truncated),
            Some((comment, p)) => if p + 8 > b.len() {
                Err(FormatError::Truncated)
            } else {
                let x = le_u64_value(b.subrange(p, p + 8));
                if x > MAX_X {
                    Err(FormatError::TimestampOverflow)
                } else if p + 10 > b.len() {
                    Err(FormatError::Truncated)
                } else {
                    let n = le_u16_value(b.subrange(p + 8, p + 10));
                    match parse_files(b, p + 10, n as nat) {
                        None => Err(FormatError::Truncated),
                        Some((files, _)) => Ok(
                            ContainerView {
                                comment,
                                x,
                                y: (x + Y_DIFFERENCE) as u64,
                                z: (x + Z_DIFFERENCE) as u64,
                                files,
                            },
                        ),
                    }
                }
            },
        }
    }
}

/// Once one file fails to parse, every longer run of files fails too.
proof fn lemma_parse_files_fails_after(b: Seq<u8>, pos: int, k: nat, m: nat)
    requires
        k < m,
        parse_files(b, pos, k) matches Some((_, p)) && parse_file(b, p) is None,
    ensures
        parse_files(b, pos, m) is None,
    decreases m,
{
    if m > k + 1 {
        lemma_parse_files_fails_after(b, pos, k, (m - 1) as nat);
    }
}

// ---------------------------------------------------------------------------
// Executable codec

/// Appends the bytes of `b` to `out`.
fn append_bytes(out: &mut Vec<u8>, b: &[u8])
    ensures
        final(out)@ == old(out)@ + b@,
{
    let mut tail = slice_to_vec(b);
    out.append(&mut tail);
}

/// Appends a text field and its terminator to `out`.
fn append_text(out: &mut Vec<u8>, s: &String)
    ensures
        final(out)@ == old(out)@ + terminated(s@),
{
    append_bytes(out, s.as_str().as_bytes());
    out.push(0u8);
    assert(final(out)@ =~= old(out)@ + terminated(s@));
}

impl Container {
    /// The encoding of this container. The file count keeps only the low
    /// sixteen bits of the number of files, and text is written as it is:
    /// a zero byte inside the comment or a name is not escaped.
    pub fn to_bytes(&self) -> (r: Vec<u8>)
        ensures
            r@ == encoding(self@),
    {
        let mut out: Vec<u8> = Vec::new();
        out.push(MAGIC_NUMBER);
        append_text(&mut out, &self.comment);
        append_bytes(&mut out, u64_to_le(self.x).as_slice());
        append_bytes(&mut out, u16_to_le(self.files.len() as u16).as_slice());
        assert(out@ =~= header_bytes(self@));
        let mut i: usize = 0;
        while i < self.files.len()
            invariant
                i <= self.files@.len(),
                out@ == header_bytes(self@) + files_bytes(files_view(self.files@.subrange(0, i as int))),
            decreases self.files@.len() - i,
        {
            let f = &self.files[i];
            let ghost before = out@;
            append_text(&mut out, &f.name);
            append_bytes(&mut out, u64_to_le(f.content.len() as u64).as_slice());
            append_bytes(&mut out, f.content.as_slice());
            proof {
                let fs = files_view(self.files@.subrange(0, i + 1));
                assert(fs.drop_last() =~= files_view(self.files@.subrange(0, i as int)));
                assert(fs.last() == f@);
                assert(out@ =~= before + file_bytes(f@));
            }
            i = i + 1;
        }
        assert(self.files@.subrange(0, i as int) =~= self.files@);
        out
    }
}

/// The index of the first zero byte of `b` at or after `start`.
fn find_zero(b: &[u8], start: usize) -> (r: Option<usize>)
    requires
        start <= b@.len(),
    ensures
        match r {
            Some(i) => start <= i < b.len() && first_zero_from(b@, start as int) == Some(i as int),
            None => first_zero_from(b@, start as int) is None,
        },
{
    let mut i: usize = start;
    while i < b.len()
        invariant
            start <= i <= b@.len(),
            first_zero_from(b@, start as int) == first_zero_from(b@, i as int),
        decreases b@.len() - i,
    {
        if b[i] == 0 {
            return Some(i);
        }
        i = i + 1;
    }
    None
}

/// Reads the zero-terminated text field at `pos`; returns its text and the
/// position after the terminator, or `None` when no zero byte follows.
pub fn read_string_until_0x00(b: &[u8], pos: usize) -> (r: Option<(String, usize)>)
    requires
        pos <= b@.len(),
    ensures
        match r {
            Some((s, p)) => pos < p <= b@.len() && parse_text(b@, pos as int) == Some((s@, p as int)),
            None => parse_text(b@, pos as int) is None,
        },
{
    match find_zero(b, pos) {
        None => None,
        Some(i) => {
            let s = text_from_bytes(&b[pos..i]);
            Some((s, i + 1))
        },
    }
}

/// Reads the file at `pos`; returns it and the position after its content.
fn read_file(b: &[u8], pos: usize) -> (r: Option<(File, usize)>)
    requires
        pos <= b@.len(),
    ensures
        match r {
            Some((f, p)) => pos < p <= b@.len() && parse_file(b@, pos as int) == Some((f@, p as int)),
            None => parse_file(b@, pos as int) is None,
        },
{
    let (name, p) = match read_string_until_0x00(b, pos) {
        None => return None,
        Some(t) => t,
    };
    if b.len() - p < 8 {
        return None;
    }
    let n = read_u64_le(b, p);
    if n > (b.len() - p - 8) as u64 {
        return None;
    }
    let end = p + 8 + n as usize;
    let content = slice_to_vec(&b[p + 8..end]);
    Some((File { name, content }, end))
}

impl Container {
    /// Decodes a container from `bytes`; bytes after the last file are
    /// ignored. Comment and file names are decoded leniently: a byte
    /// sequence that is not UTF-8 is replaced, never refused. A timestamp
    /// whose derived fields would not fit in a `u64` is refused rather than
    /// wrapped, so that `y` and `z` are always exactly derived from `x`.
    pub fn from_bytes(bytes: &[u8]) -> (r: Result<Container, FormatError>)
        ensures
            match r {
                Ok(c) => c@.wf() && decoded(bytes@) == Ok::<ContainerView, FormatError>(c@),
                Err(e) => decoded(bytes@) == Err::<ContainerView, FormatError>(e),
            },
    {
        if bytes.len() == 0 {
            return Err(FormatError::Truncated);
        }
        if bytes[0] != MAGIC_NUMBER {
            return Err(FormatError::BadMagic);
        }
        let (comment, p) = match read_string_until_0x00(bytes, 1) {
            None => return Err(FormatError::Truncated),
            Some(t) => t,
        };
        if bytes.len() - p < 8 {
            return Err(FormatError::Truncated);
        }
        let x = read_u64_le(bytes, p);
        if x > MAX_X {
            return Err(FormatError::TimestampOverflow);
        }
        let (y, z) = derived_fields(x);
        if bytes.len() - p < 10 {
            return Err(FormatError::Truncated);
        }
        let count = read_u16_le(bytes, p + 8);
        let ghost start = p + 10;
        let mut pos: usize = p + 10;
        let mut files: Vec<File> = Vec::new();
        let mut k: u16 = 0;
        while k < count
            invariant
                bytes@.len() > 0 && bytes@[0] == MAGIC_NUMBER,
                parse_text(bytes@, 1) == Some((comment@, p as int)),
                p + 10 <= bytes@.len(),
                start == p + 10,
                x == le_u64_value(bytes@.subrange(p as int, p + 8)),
                x <= MAX_X,
                y == x + Y_DIFFERENCE,
                z == x + Z_DIFFERENCE,
                count == le_u16_value(bytes@.subrange(p + 8, p + 10)),
                k <= count,
                pos <= bytes@.len(),
                parse_files(bytes@, start, k as nat) == Some((files_view(files@), pos as int)),
            decreases count - k,
        {
            match read_file(bytes, pos) {
                None => {
                    proof {
                        lemma_parse_files_fails_after(bytes@, start, k as nat, count as nat);
                    }
                    return Err(FormatError::Truncated);
                },
                Some((f, q)) => {
                    let ghost old_files = files@;
                    files.push(f);
                    pos = q;
                    assert(files_view(files@) =~= files_view(old_files).push(f@));
                },
            }
            k = k + 1;
        }
        Ok(Container { comment, x, y, z, files })
    }
}

} // verus!
