//! Properties of the format that relate encoding, decoding and the file
//! list operations.
use crate::codec::{
    decoded, encoding, file_bytes, files_bytes, first_zero_from, header_bytes, parse_file,
    parse_files, parse_text, terminated, FormatError, MAGIC_NUMBER,
};
use crate::le::{
    le_u16_bytes, le_u16_value, le_u64_bytes, le_u64_value, lemma_le_u16_round_trip,
    lemma_le_u64_round_trip,
};
use crate::model::{name_differs, without_name, ContainerView, File, MAX_X};
use vstd::prelude::*;
use vstd::utf8::{encode_utf8, group_utf8_lib};

verus! {

broadcast use group_utf8_lib;

/// Holds of a container that survives the round trip: its comment and file
/// names encode without a zero byte, it has at most 65535 files, each
/// content length fits in a `u64`, and `y` and `z` are derived from `x`.
pub open spec fn encodable(c: ContainerView) -> bool {
    &&& c.wf()
    &&& !encode_utf8(c.comment).contains(0u8)
    &&& c.files.len() <= 0xffff
    &&& forall|i: int|
        0 <= i < c.files.len() ==> {
            &&& !(#[trigger] encode_utf8(c.files[i].0)).contains(0u8)
            &&& c.files[i].1.len() <= u64::MAX
        }
}

/// The first zero byte at or after `s` is at `e` when `e` holds a zero and
/// no byte in between does.
proof fn lemma_first_zero_at(b: Seq<u8>, s: int, e: int)
    requires
        0 <= s <= e < b.len(),
        b[e] == 0,
        forall|j: int| s <= j < e ==> b[j] != 0,
    ensures
        first_zero_from(b, s) == Some(e),
    decreases e - s,
{
    if s < e {
        lemma_first_zero_at(b, s + 1, e);
    }
}

/// A piece of a written run of bytes is the same piece of what was written.
proof fn lemma_piece(b: Seq<u8>, pos: int, whole: Seq<u8>, lo: int, hi: int)
    requires
        0 <= pos,
        pos + whole.len() <= b.len(),
        b.subrange(pos, pos + whole.len()) == whole,
        0 <= lo <= hi <= whole.len(),
    ensures
        b.subrange(pos + lo, pos + hi) == whole.subrange(lo, hi),
{
    assert forall|j: int| 0 <= j < hi - lo implies b.subrange(pos + lo, pos + hi)[j]
        == whole.subrange(lo, hi)[j] by {
        assert(b.subrange(pos, pos + whole.len())[lo + j] == b[pos + lo + j]);
    }
    assert(b.subrange(pos + lo, pos + hi) =~= whole.subrange(lo, hi));
}

/// A text field written at `pos` reads back as the same text.
proof fn lemma_parse_text_written(b: Seq<u8>, pos: int, s: Seq<char>)
    requires
        0 <= pos,
        pos + terminated(s).len() <= b.len(),
        b.subrange(pos, pos + terminated(s).len()) == terminated(s),
        !encode_utf8(s).contains(0u8),
    ensures
        parse_text(b, pos) == Some((s, pos + terminated(s).len())),
{
    let t = terminated(s);
    let enc = encode_utf8(s);
    let e = pos + enc.len();
    assert(b[e] == t[enc.len() as int]);
    assert forall|j: int| pos <= j < e implies b[j] != 0 by {
        assert(b[j] == t[j - pos]);
        assert(t[j - pos] == enc[j - pos]);
    }
    lemma_first_zero_at(b, pos, e);
    assert(b.subrange(pos, e) =~= enc);
}

/// A file written at `pos` reads back as the same file.
proof fn lemma_parse_file_written(b: Seq<u8>, pos: int, f: (Seq<char>, Seq<u8>))
    requires
        0 <= pos,
        pos + file_bytes(f).len() <= b.len(),
        b.subrange(pos, pos + file_bytes(f).len()) == file_bytes(f),
        !encode_utf8(f.0).contains(0u8),
        f.1.len() <= u64::MAX,
    ensures
        parse_file(b, pos) == Some((f, pos + file_bytes(f).len())),
{
    let fb = file_bytes(f);
    let t = terminated(f.0);
    let p = pos + t.len() as int;
    let tl = t.len() as int;
    lemma_piece(b, pos, fb, 0, tl);
    assert(fb.subrange(0, tl) =~= t);
    lemma_parse_text_written(b, pos, f.0);
    lemma_piece(b, pos, fb, tl, tl + 8);
    assert(fb.subrange(tl, tl + 8) =~= le_u64_bytes(f.1.len() as u64));
    lemma_le_u64_round_trip(f.1.len() as u64);
    lemma_piece(b, pos, fb, tl + 8, fb.len() as int);
    assert(fb.subrange(tl + 8, fb.len() as int) =~= f.1);
}

/// Files written one after another from `pos` read back as the same files,
/// ending where the last one ends.
proof fn lemma_parse_files_written(b: Seq<u8>, pos: int, fs: Seq<(Seq<char>, Seq<u8>)>)
    requires
        0 <= pos,
        pos + files_bytes(fs).len() <= b.len(),
        b.subrange(pos, pos + files_bytes(fs).len()) == files_bytes(fs),
        forall|i: int|
            0 <= i < fs.len() ==> {
                &&& !(#[trigger] encode_utf8(fs[i].0)).contains(0u8)
                &&& fs[i].1.len() <= u64::MAX
            },
    ensures
        parse_files(b, pos, fs.len()) == Some((fs, pos + files_bytes(fs).len())),
    decreases fs.len(),
{
    if fs.len() > 0 {
        let init = fs.drop_last();
        let last = fs.last();
        let whole = files_bytes(fs);
        let mid = pos + files_bytes(init).len();
        assert(whole == files_bytes(init) + file_bytes(last));
        let il = files_bytes(init).len() as int;
        lemma_piece(b, pos, whole, 0, il);
        assert(whole.subrange(0, il) =~= files_bytes(init));
        assert forall|i: int| 0 <= i < init.len() implies {
            &&& !(#[trigger] encode_utf8(init[i].0)).contains(0u8)
            &&& init[i].1.len() <= u64::MAX
        } by {
            assert(init[i] == fs[i]);
        }
        lemma_parse_files_written(b, pos, init);
        lemma_piece(b, pos, whole, il, whole.len() as int);
        assert(whole.subrange(il, whole.len() as int) =~= file_bytes(last));
        lemma_parse_file_written(b, mid, last);
        assert(init.push(last) =~= fs);
    }
}

/// How the encoding of an encodable container parses, step by step.
proof fn lemma_encoding_parts(c: ContainerView)
    requires
        encodable(c),
    ensures
        ({
            let b = encoding(c);
            let p = 1 + terminated(c.comment).len() as int;
            &&& b.len() > 0 && b[0] == MAGIC_NUMBER
            &&& parse_text(b, 1) == Some((c.comment, p))
            &&& p + 10 <= b.len()
            &&& le_u64_value(b.subrange(p, p + 8)) == c.x
            &&& le_u16_value(b.subrange(p + 8, p + 10)) == c.files.len()
            &&& parse_files(b, p + 10, c.files.len()) == Some((c.files, b.len() as int))
        }),
{
    let b = encoding(c);
    let h = header_bytes(c);
    let t = terminated(c.comment);
    let p = 1 + t.len() as int;
    assert(h.len() == p + 10);
    assert(b.subrange(1, p) =~= t);
    lemma_parse_text_written(b, 1, c.comment);
    assert(b.subrange(p, p + 8) =~= le_u64_bytes(c.x));
    lemma_le_u64_round_trip(c.x);
    assert(b.subrange(p + 8, p + 10) =~= le_u16_bytes(c.files.len() as u16));
    lemma_le_u16_round_trip(c.files.len() as u16);
    assert(b.subrange(p + 10, b.len() as int) =~= files_bytes(c.files));
    lemma_parse_files_written(b, p + 10, c.files);
}

/// Decoding the encoding of an encodable container gives back its comment,
/// its timestamp with both derived fields, and its files in order.
pub proof fn lemma_round_trip(c: ContainerView)
    requires
        encodable(c),
    ensures
        decoded(encoding(c)) == Ok::<ContainerView, FormatError>(c),
{
    lemma_encoding_parts(c);
}

/// Where the first zero byte lies relative to a prefix of `b`.
proof fn lemma_first_zero_prefix(b: Seq<u8>, len: int, s: int)
    requires
        0 <= len <= b.len(),
    ensures
        first_zero_from(b, s) matches Some(i) ==> s <= i < b.len(),
        first_zero_from(b.subrange(0, len), s) == match first_zero_from(b, s) {
            Some(i) => if i < len {
                Some(i)
            } else {
                None
            },
            None => None,
        },
    decreases b.len() - s,
{
    if 0 <= s < b.len() && b[s] != 0 {
        lemma_first_zero_prefix(b, len, s + 1);
    }
}

/// A text field parses in a prefix of `b` as in `b`, or not at all when
/// the prefix ends before its terminator.
proof fn lemma_parse_text_prefix(b: Seq<u8>, len: int, pos: int)
    requires
        0 <= len <= b.len(),
        0 <= pos,
    ensures
        parse_text(b, pos) matches Some((_, q)) ==> pos < q,
        parse_text(b.subrange(0, len), pos) == match parse_text(b, pos) {
            Some((t, q)) => if q <= len {
                Some((t, q))
            } else {
                None
            },
            None => None,
        },
{
    lemma_first_zero_prefix(b, len, pos);
    if let Some(i) = first_zero_from(b, pos) {
        if i < len {
            assert(b.subrange(0, len).subrange(pos, i) =~= b.subrange(pos, i));
        }
    }
}

/// A file parses in a prefix of `b` as in `b`, or not at all when the
/// prefix ends before its content does.
proof fn lemma_parse_file_prefix(b: Seq<u8>, len: int, pos: int)
    requires
        0 <= len <= b.len(),
        0 <= pos,
    ensures
        parse_file(b, pos) matches Some((_, q)) ==> pos < q,
        parse_file(b.subrange(0, len), pos) == match parse_file(b, pos) {
            Some((f, q)) => if q <= len {
                Some((f, q))
            } else {
                None
            },
            None => None,
        },
{
    let c = b.subrange(0, len);
    lemma_parse_text_prefix(b, len, pos);
    if let Some((name, p)) = parse_text(b, pos) {
        if p + 8 <= len {
            assert(c.subrange(p, p + 8) =~= b.subrange(p, p + 8));
            let n = le_u64_value(b.subrange(p, p + 8));
            if p + 8 + n <= len {
                assert(c.subrange(p + 8, p + 8 + n) =~= b.subrange(p + 8, p + 8 + n));
            }
        }
    }
}

/// A run of files parses in a prefix of `b` as in `b`, or not at all when
/// the prefix ends before the last of them does.
proof fn lemma_parse_files_prefix(b: Seq<u8>, len: int, pos: int, n: nat)
    requires
        0 <= len <= b.len(),
        0 <= pos <= len,
    ensures
        parse_files(b, pos, n) matches Some((_, q)) ==> pos <= q,
        parse_files(b.subrange(0, len), pos, n) == match parse_files(b, pos, n) {
            Some((fs, q)) => if q <= len {
                Some((fs, q))
            } else {
                None
            },
            None => None,
        },
    decreases n,
{
    if n > 0 {
        lemma_parse_files_prefix(b, len, pos, (n - 1) as nat);
        if let Some((fs, p)) = parse_files(b, pos, (n - 1) as nat) {
            lemma_parse_file_prefix(b, len, p);
        }
    }
}

/// Cutting one or more bytes off the end of the encoding of an encodable
/// container, short of all of them, makes decoding fail as truncated.
pub proof fn lemma_truncated(c: ContainerView, cut: int)
    requires
        encodable(c),
        1 <= cut < encoding(c).len(),
    ensures
        decoded(encoding(c).subrange(0, encoding(c).len() - cut)) == Err::<
            ContainerView,
            FormatError,
        >(FormatError::Truncated),
{
    let b = encoding(c);
    let len = b.len() - cut;
    let short = b.subrange(0, len);
    let p = 1 + terminated(c.comment).len() as int;
    lemma_encoding_parts(c);
    lemma_parse_text_prefix(b, len, 1);
    if p + 8 <= len {
        assert(short.subrange(p, p + 8) =~= b.subrange(p, p + 8));
        if p + 10 <= len {
            assert(short.subrange(p + 8, p + 10) =~= b.subrange(p + 8, p + 10));
            lemma_parse_files_prefix(b, len, p + 10, c.files.len());
        }
    }
}

/// A buffer whose first byte is not the magic number is refused as such,
/// whatever follows it.
pub proof fn lemma_bad_magic(b: Seq<u8>)
    requires
        b.len() > 0,
        b[0] != MAGIC_NUMBER,
    ensures
        decoded(b) == Err::<ContainerView, FormatError>(FormatError::BadMagic),
{
}

/// Every container that decoding produces has `y` and `z` derived from `x`.
pub proof fn lemma_decoded_wf(b: Seq<u8>)
    ensures
        decoded(b) matches Ok(c) ==> c.wf(),
{
}

/// Adding a file to an empty list and then removing its name leaves the
/// list empty.
pub proof fn lemma_add_then_remove(f: File)
    ensures
        without_name(Seq::<File>::empty().push(f), f.name@) == Seq::<File>::empty(),
{
    Seq::<File>::empty().lemma_filter_push(f, name_differs(f.name@));
    reveal(Seq::filter);
}

/// Removing a name leaves no file of that name, however many there were,
/// and keeps every file of another name.
pub proof fn lemma_remove_all_named(files: Seq<File>, name: Seq<char>)
    ensures
        forall|i: int|
            0 <= i < without_name(files, name).len() ==> (#[trigger] without_name(
                files,
                name,
            )[i]).name@ != name,
        forall|i: int|
            0 <= i < files.len() && files[i].name@ != name ==> without_name(files, name).contains(
                #[trigger] files[i],
            ),
{
    assert forall|i: int| 0 <= i < without_name(files, name).len() implies (#[trigger] without_name(
        files,
        name,
    )[i]).name@ != name by {
        files.lemma_filter_pred(name_differs(name), i);
    }
    assert forall|i: int| 0 <= i < files.len() && files[i].name@ != name implies without_name(
        files,
        name,
    ).contains(#[trigger] files[i]) by {
        files.lemma_filter_contains(name_differs(name), i);
    }
}

} // verus!
