//! What a download's sidecar file holds, and what may be done with the download's bytes.
//!
//! `NNN.part` holds the bytes of a download, `NNN.part.met` its hash, gap list and
//! corrupted-part list. Bytes go to disk before their gap closes, so the gap list never
//! claims more than the disk holds.
use vstd::prelude::*;
use vstd::utf8::*;
use crate::part_file;
use crate::part_file::{part_size, Gap, PartFile};
use crate::proto::PARTSIZE;
use crate::tags;
use crate::tags::{read_tags, write_tags, NameView, Tag, TagName, TagValue, TagView, ValueView};
use crate::text;
use crate::text::{
    chars_of, from_utf8_lossy, parse_number, push_decimal, push_text, string_of, trim,
};
use crate::wire;
use crate::wire::{write_bytes, write_u16, write_u32, IoError, Reader};

verus! {

pub const FT_FILENAME: u8 = 0x01;

pub const FT_FILESIZE: u8 = 0x02;

/// Comma-separated decimal part numbers that failed verification.
pub const FT_CORRUPTEDPARTS: u8 = 0x24;

/// Download priority. Written twice, under the modern and the legacy name.
pub const FT_DLPRIORITY: u8 = 0x18;

pub const FT_OLDDLPRIORITY: u8 = 0x13;

/// Paused flag: written only while paused; any nonzero number means paused.
pub const FT_STATUS: u8 = 0x14;

pub const PR_LOW: u8 = 0;

pub const PR_NORMAL: u8 = 1;

pub const PR_HIGH: u8 = 2;

/// Read as high: there is no automatic tuning.
pub const PR_AUTO: u8 = 5;

/// Free space that is never consumed.
pub const MIN_FREE_MARGIN: u64 = 268_435_456;

/// Would preallocating `size` bytes leave less than [`MIN_FREE_MARGIN`] free?
///
/// Unknown availability never refuses; a size that overflows with the margin always does.
pub fn would_exhaust_space(size: u64, available: Option<u64>) -> (b: bool)
    ensures
        b == (match available {
            Some(free) => size + MIN_FREE_MARGIN > free,
            None => false,
        }),
{
    match available {
        Some(free) => match size.checked_add(MIN_FREE_MARGIN) {
            Some(needed) => needed > free,
            None => true,
        },
        None => false,
    }
}

/// The numbers in decimal digits, with commas between them.
pub open spec fn joined(parts: Seq<u64>) -> Seq<char>
    decreases parts.len(),
{
    if parts.len() == 0 {
        Seq::empty()
    } else {
        text::decimal(parts[0] as nat) + followed(parts.skip(1))
    }
}

/// The same, each behind a comma.
pub open spec fn followed(parts: Seq<u64>) -> Seq<char>
    decreases parts.len(),
{
    if parts.len() == 0 {
        Seq::empty()
    } else {
        seq![','] + (text::decimal(parts[0] as nat) + followed(parts.skip(1)))
    }
}

/// The number of a piece of the list, where it spells one.
pub open spec fn piece_number(piece: Seq<char>) -> Seq<u64> {
    match text::number(text::trimmed(piece)) {
        Some(n) => seq![n],
        None => Seq::empty(),
    }
}

/// The numbers of a list behind `piece`, the piece that has begun. Pieces that spell no
/// number are skipped.
pub open spec fn numbers_after(piece: Seq<char>, s: Seq<char>) -> Seq<u64>
    decreases s.len(),
{
    if s.len() == 0 {
        piece_number(piece)
    } else if s[0] == ',' {
        piece_number(piece) + numbers_after(Seq::empty(), s.skip(1))
    } else {
        numbers_after(piece.push(s[0]), s.skip(1))
    }
}

/// The numbers of a comma-separated list.
pub open spec fn list_numbers(s: Seq<char>) -> Seq<u64> {
    numbers_after(Seq::empty(), s)
}

/// The corrupted-part list as text.
pub fn format_corrupted(parts: &[u64]) -> (out: Vec<u8>)
    ensures
        out@ == encode_utf8(joined(parts@)),
{
    let mut chars: Vec<char> = Vec::new();
    let mut i: usize = 0;
    assert(parts@.skip(0) =~= parts@);
    while i < parts.len()
        invariant
            i <= parts@.len(),
            i == 0 ==> chars@ == Seq::<char>::empty() && parts@.skip(0) == parts@,
            i > 0 ==> chars@ + followed(parts@.skip(i as int)) == joined(parts@),
        decreases parts@.len() - i,
    {
        let ghost was = chars@;
        let ghost rest = parts@.skip(i as int);
        assert(rest.skip(1) =~= parts@.skip(i + 1));
        if i > 0 {
            chars.push(',');
        }
        push_decimal(&mut chars, parts[i]);
        proof {
            if i > 0 {
                assert(chars@ + followed(parts@.skip(i + 1)) =~= was + followed(rest));
            } else {
                assert(chars@ + followed(parts@.skip(i + 1)) =~= joined(parts@));
            }
        }
        i = i + 1;
    }
    proof {
        if i > 0 {
            assert(parts@.skip(i as int) =~= Seq::empty());
            assert(chars@ + followed(parts@.skip(i as int)) =~= chars@);
        } else {
            assert(chars@ =~= joined(parts@));
        }
    }
    vstd::slice::slice_to_vec(string_of(&chars).as_str().as_bytes())
}

/// The numbers of a comma-separated list, pieces that spell none skipped.
pub fn parse_list(chars: &Vec<char>) -> (out: Vec<u64>)
    ensures
        out@ == list_numbers(chars@),
{
    let mut out: Vec<u64> = Vec::new();
    let mut piece: Vec<char> = Vec::new();
    let mut i: usize = 0;
    assert(chars@.skip(0) =~= chars@);
    assert(out@ + numbers_after(piece@, chars@.skip(0)) =~= list_numbers(chars@));
    while i < chars.len()
        invariant
            i <= chars@.len(),
            out@ + numbers_after(piece@, chars@.skip(i as int)) == list_numbers(chars@),
        decreases chars@.len() - i,
    {
        let c: char = chars[i];
        let ghost rest = chars@.skip(i as int);
        assert(rest.skip(1) =~= chars@.skip(i + 1));
        if c == ',' {
            let ghost was = out@;
            let ghost begun = piece@;
            if let Some(n) = parse_number(&trim(&piece)) {
                out.push(n);
            }
            piece = Vec::new();
            assert(out@ =~= was + piece_number(begun));
            assert(out@ + numbers_after(piece@, chars@.skip(i + 1)) =~= was + numbers_after(
                begun,
                rest,
            ));
        } else {
            piece.push(c);
        }
        i = i + 1;
    }
    assert(chars@.skip(i as int) =~= Seq::empty());
    let ghost was = out@;
    if let Some(n) = parse_number(&trim(&piece)) {
        out.push(n);
    }
    assert(out@ =~= was + piece_number(piece@));
    out
}

/// The corrupted-part list from its text.
pub fn parse_corrupted(s: &[u8]) -> (out: Vec<u64>)
    ensures
        out@ == list_numbers(text::spelled(s@)),
{
    parse_list(&chars_of(from_utf8_lossy(s).as_str()))
}

proof fn lemma_digit_run(begun: Seq<char>, d: Seq<char>, rest: Seq<char>)
    requires
        forall|i: int| 0 <= i < d.len() ==> #[trigger] d[i] != ',',
    ensures
        numbers_after(begun, d + rest) == numbers_after(begun + d, rest),
    decreases d.len(),
{
    if d.len() == 0 {
        assert(d + rest =~= rest);
        assert(begun + d =~= begun);
    } else {
        let s = d + rest;
        assert(s[0] == d[0]);
        assert(s.skip(1) =~= d.skip(1) + rest);
        assert(begun.push(d[0]) + d.skip(1) =~= begun + d);
        assert forall|i: int| 0 <= i < d.skip(1).len() implies #[trigger] d.skip(1)[i] != ',' by {
            assert(d.skip(1)[i] == d[i + 1]);
        }
        lemma_digit_run(begun.push(d[0]), d.skip(1), rest);
    }
}

/// A number in decimal digits is a piece that spells it.
proof fn lemma_decimal_piece(n: u64)
    ensures
        piece_number(text::decimal(n as nat)) == seq![n],
        forall|i: int|
            0 <= i < text::decimal(n as nat).len() ==> #[trigger] text::decimal(n as nat)[i] != ',',
{
    let d = text::decimal(n as nat);
    text::lemma_decimal_value(n as nat);
    text::lemma_decimal_number(n);
    assert('0' <= d[0] <= '9');
    assert('0' <= d[d.len() - 1] <= '9');
    assert(text::trimmed(d) == d);
}

proof fn lemma_followed(begun: u64, parts: Seq<u64>)
    ensures
        numbers_after(text::decimal(begun as nat), followed(parts)) == seq![begun] + parts,
    decreases parts.len(),
{
    lemma_decimal_piece(begun);
    if parts.len() == 0 {
        assert(seq![begun] + parts =~= seq![begun]);
    } else {
        let d = text::decimal(parts[0] as nat);
        let s = followed(parts);
        assert(s.skip(1) =~= d + followed(parts.skip(1)));
        lemma_decimal_piece(parts[0]);
        lemma_digit_run(Seq::empty(), d, followed(parts.skip(1)));
        assert(Seq::<char>::empty() + d =~= d);
        lemma_followed(parts[0], parts.skip(1));
        assert(seq![begun] + (seq![parts[0]] + parts.skip(1)) =~= seq![begun] + parts);
    }
}

/// A list of parts that is written is read back.
pub proof fn law_corrupted_round_trip(parts: Seq<u64>)
    ensures
        list_numbers(text::spelled(encode_utf8(joined(parts)))) == parts,
{
    encode_utf8_valid_utf8(joined(parts));
    encode_utf8_decode_utf8(joined(parts));
    if parts.len() == 0 {
        assert(list_numbers(joined(parts)) =~= parts);
    } else {
        let d = text::decimal(parts[0] as nat);
        lemma_decimal_piece(parts[0]);
        lemma_digit_run(Seq::empty(), d, followed(parts.skip(1)));
        assert(Seq::<char>::empty() + d =~= d);
        lemma_followed(parts[0], parts.skip(1));
        assert(seq![parts[0]] + parts.skip(1) =~= parts);
    }
}

/// Version byte of a sidecar whose file fits the old size limit.
pub const PARTFILE_VERSION: u8 = 0xE0;

/// Version byte of a sidecar of a larger file, whose sizes take 64 bits.
pub const PARTFILE_VERSION_LARGEFILE: u8 = 0xE2;

/// The largest file of the old format.
pub const OLD_MAX_FILE_SIZE: u64 = 4_290_048_000;

/// First byte of the name of a tag that holds the start of a gap; the gap's number follows.
pub const FT_GAPSTART: u8 = 0x09;

/// First byte of the name of a tag that holds the end of a gap; the gap's number follows.
pub const FT_GAPEND: u8 = 0x0A;

/// What a sidecar file holds.
#[derive(Debug, Clone)]
pub struct PartMet {
    pub version: u8,
    pub date: u32,
    pub file_hash: [u8; 16],
    pub part_hashes: Vec<[u8; 16]>,
    pub tags: Vec<Tag>,
}

/// What a sidecar file holds, as a value.
pub struct MetView {
    pub version: u8,
    pub date: u32,
    pub file_hash: Seq<u8>,
    pub part_hashes: Seq<Seq<u8>>,
    pub tags: Seq<TagView>,
}

/// What a list of hashes holds.
pub open spec fn hash_views(hashes: Seq<[u8; 16]>) -> Seq<Seq<u8>> {
    hashes.map_values(|h: [u8; 16]| h@)
}

impl View for PartMet {
    type V = MetView;

    open spec fn view(&self) -> MetView {
        MetView {
            version: self.version,
            date: self.date,
            file_hash: self.file_hash@,
            part_hashes: hash_views(self.part_hashes@),
            tags: tags::tag_views(self.tags@),
        }
    }
}

/// Hashes one behind the other.
pub open spec fn hashes_bytes(hashes: Seq<Seq<u8>>) -> Seq<u8>
    decreases hashes.len(),
{
    if hashes.len() == 0 {
        Seq::empty()
    } else {
        hashes_bytes(hashes.drop_last()) + hashes.last()
    }
}

/// The bytes of a sidecar file.
pub open spec fn met_bytes(m: MetView) -> Seq<u8> {
    seq![m.version] + wire::le32(m.date) + m.file_hash + wire::le16(m.part_hashes.len() as u16)
        + hashes_bytes(m.part_hashes) + wire::le32(m.tags.len() as u32) + tags::tags_bytes(m.tags)
}

/// Numbers and lengths fit their fields.
pub open spec fn met_ok(m: MetView) -> bool {
    &&& m.version == PARTFILE_VERSION || m.version == PARTFILE_VERSION_LARGEFILE
    &&& m.file_hash.len() == 16
    &&& m.part_hashes.len() <= 0xFFFF
    &&& forall|i: int| 0 <= i < m.part_hashes.len() ==> (#[trigger] m.part_hashes[i]).len() == 16
    &&& m.tags.len() <= 0xFFFF_FFFF
    &&& forall|i: int| 0 <= i < m.tags.len() ==> tags::tag_ok(#[trigger] m.tags[i])
}

/// A sidecar file as bytes.
pub fn write_part_met(m: &PartMet) -> (out: Vec<u8>)
    requires
        met_ok(m@),
    ensures
        out@ == met_bytes(m@),
{
    let mut out: Vec<u8> = Vec::new();
    out.push(m.version);
    write_u32(&mut out, m.date);
    write_bytes(&mut out, m.file_hash.as_slice());
    write_u16(&mut out, m.part_hashes.len() as u16);
    let ghost head = out@;
    let ghost hashes = m@.part_hashes;
    let mut i: usize = 0;
    assert(hashes.take(0) =~= Seq::empty());
    assert(out@ =~= head + hashes_bytes(hashes.take(0)));
    while i < m.part_hashes.len()
        invariant
            i <= m.part_hashes@.len(),
            hashes == hash_views(m.part_hashes@),
            out@ == head + hashes_bytes(hashes.take(i as int)),
        decreases m.part_hashes@.len() - i,
    {
        write_bytes(&mut out, m.part_hashes[i].as_slice());
        proof {
            assert(hashes.take(i + 1).drop_last() =~= hashes.take(i as int));
            assert(hashes.take(i + 1).last() == m.part_hashes@[i as int]@);
            assert(out@ =~= head + hashes_bytes(hashes.take(i + 1)));
        }
        i = i + 1;
    }
    assert(hashes.take(i as int) =~= hashes);
    write_u32(&mut out, m.tags.len() as u32);
    proof {
        assert forall|i: int| 0 <= i < m.tags@.len() implies tags::tag_ok(
            (#[trigger] m.tags@[i])@,
        ) by {
            assert(m@.tags[i] == m.tags@[i]@);
        }
    }
    write_tags(&mut out, &m.tags);
    assert(out@ =~= met_bytes(m@));
    out
}

/// The `n` hashes that `s` begins with.
pub open spec fn parse_hashes(s: Seq<u8>, n: nat) -> Result<(Seq<Seq<u8>>, Seq<u8>), IoError>
    decreases n,
{
    if n == 0 {
        Ok((Seq::empty(), s))
    } else {
        match wire::parse_bytes(s, 16) {
            Err(e) => Err(e),
            Ok((h, s1)) => match parse_hashes(s1, (n - 1) as nat) {
                Err(e) => Err(e),
                Ok((hs, s2)) => Ok((seq![h] + hs, s2)),
            },
        }
    }
}

/// The sidecar file that `s` begins with.
pub open spec fn parse_met(s: Seq<u8>) -> Result<MetView, IoError> {
    match wire::parse_u8(s) {
        Err(e) => Err(e),
        Ok((version, s1)) => if version != PARTFILE_VERSION && version
            != PARTFILE_VERSION_LARGEFILE {
            Err(IoError::BadHeader(version))
        } else {
            match wire::parse_u32(s1) {
                Err(e) => Err(e),
                Ok((date, s2)) => match wire::parse_bytes(s2, 16) {
                    Err(e) => Err(e),
                    Ok((file_hash, s3)) => match wire::parse_u16(s3) {
                        Err(e) => Err(e),
                        Ok((n, s4)) => match parse_hashes(s4, n as nat) {
                            Err(e) => Err(e),
                            Ok((part_hashes, s5)) => match wire::parse_u32(s5) {
                                Err(e) => Err(e),
                                Ok((k, s6)) => match tags::parse_tags(s6, k as nat) {
                                    Err(e) => Err(e),
                                    Ok((tags, _)) => Ok(
                                        MetView { version, date, file_hash, part_hashes, tags },
                                    ),
                                },
                            },
                        },
                    },
                },
            }
        },
    }
}

fn read_hashes(r: &mut Reader, n: u16) -> (hashes: Result<Vec<[u8; 16]>, IoError>)
    requires
        old(r).wf(),
    ensures
        final(r).wf(),
        match parse_hashes(old(r).rest(), n as nat) {
            Ok((x, rest)) => hashes is Ok && hash_views(hashes->Ok_0@) == x && final(r).rest()
                == rest,
            Err(e) => hashes is Err && hashes->Err_0 == e,
        },
{
    let ghost start = r.rest();
    let mut hashes: Vec<[u8; 16]> = Vec::new();
    let mut i: u16 = 0;
    assert(hash_views(hashes@) =~= Seq::empty());
    assert(forall|x: Seq<Seq<u8>>| #[trigger] (hash_views(hashes@) + x) =~= x);
    while i < n
        invariant
            i <= n,
            r.wf(),
            start == old(r).rest(),
            match parse_hashes(r.rest(), (n - i) as nat) {
                Ok((x, rest)) => parse_hashes(start, n as nat) == Ok::<
                    (Seq<Seq<u8>>, Seq<u8>),
                    IoError,
                >((hash_views(hashes@) + x, rest)),
                Err(e) => parse_hashes(start, n as nat) == Err::<(Seq<Seq<u8>>, Seq<u8>), IoError>(
                    e,
                ),
            },
        decreases n - i,
    {
        let ghost before = hash_views(hashes@);
        let h = r.read_hash16()?;
        hashes.push(h);
        proof {
            assert(hash_views(hashes@) =~= before.push(h@));
            assert forall|x: Seq<Seq<u8>>| #[trigger]
                (hash_views(hashes@) + x) =~= before + (seq![h@] + x) by {}
        }
        i = i + 1;
    }
    assert(hash_views(hashes@) + Seq::<Seq<u8>>::empty() =~= hash_views(hashes@));
    Ok(hashes)
}

/// Read a sidecar file.
pub fn read_part_met(data: &[u8]) -> (m: Result<PartMet, IoError>)
    ensures
        match parse_met(data@) {
            Ok(x) => m is Ok && m->Ok_0@ == x,
            Err(e) => m is Err && m->Err_0 == e,
        },
{
    let mut r = Reader::new(data);
    let version: u8 = r.read_u8()?;
    if version != PARTFILE_VERSION && version != PARTFILE_VERSION_LARGEFILE {
        return Err(IoError::BadHeader(version));
    }
    let date: u32 = r.read_u32()?;
    let file_hash = r.read_hash16()?;
    let n: u16 = r.read_u16()?;
    let part_hashes = read_hashes(&mut r, n)?;
    let k: u32 = r.read_u32()?;
    let tags = read_tags(&mut r, k)?;
    Ok(PartMet { version, date, file_hash, part_hashes, tags })
}

proof fn lemma_hashes_first(hashes: Seq<Seq<u8>>)
    requires
        hashes.len() > 0,
    ensures
        hashes_bytes(hashes) == hashes[0] + hashes_bytes(hashes.skip(1)),
    decreases hashes.len(),
{
    let others = hashes.skip(1);
    if hashes.len() == 1 {
        assert(hashes.drop_last() =~= Seq::empty());
        assert(others =~= Seq::empty());
        assert(hashes_bytes(hashes) =~= hashes[0] + hashes_bytes(others));
    } else {
        lemma_hashes_first(hashes.drop_last());
        assert(hashes.drop_last().skip(1) =~= others.drop_last());
        assert(hashes_bytes(hashes) =~= hashes[0] + hashes_bytes(others));
    }
}

proof fn lemma_hashes_round_trip(hashes: Seq<Seq<u8>>, rest: Seq<u8>)
    requires
        forall|i: int| 0 <= i < hashes.len() ==> (#[trigger] hashes[i]).len() == 16,
    ensures
        parse_hashes(hashes_bytes(hashes) + rest, hashes.len()) == Ok::<
            (Seq<Seq<u8>>, Seq<u8>),
            IoError,
        >((hashes, rest)),
    decreases hashes.len(),
{
    if hashes.len() == 0 {
        assert(hashes_bytes(hashes) + rest =~= rest);
        assert(hashes =~= Seq::empty());
    } else {
        let others = hashes.skip(1);
        lemma_hashes_first(hashes);
        assert(hashes_bytes(hashes) + rest =~= hashes[0] + (hashes_bytes(others) + rest));
        wire::lemma_bytes_round_trip(hashes[0], hashes_bytes(others) + rest, 16);
        lemma_hashes_round_trip(others, rest);
        assert(seq![hashes[0]] + others =~= hashes);
    }
}

/// A sidecar file that is written is read back.
pub proof fn law_met_round_trip(m: MetView)
    requires
        met_ok(m),
    ensures
        parse_met(met_bytes(m)) == Ok::<MetView, IoError>(m),
{
    let none = Seq::<u8>::empty();
    let s6 = tags::tags_bytes(m.tags) + none;
    let s5 = wire::le32(m.tags.len() as u32) + s6;
    let s4 = hashes_bytes(m.part_hashes) + s5;
    let s3 = wire::le16(m.part_hashes.len() as u16) + s4;
    let s2 = m.file_hash + s3;
    let s1 = wire::le32(m.date) + s2;
    let s = met_bytes(m);
    assert(s.skip(1) =~= s1);
    assert(s[0] == m.version);
    wire::lemma_u32_round_trip(m.date, s2);
    wire::lemma_bytes_round_trip(m.file_hash, s3, 16);
    wire::lemma_u16_round_trip(m.part_hashes.len() as u16, s4);
    lemma_hashes_round_trip(m.part_hashes, s5);
    wire::lemma_u32_round_trip(m.tags.len() as u32, s6);
    tags::law_tags_round_trip(m.tags, none);
}

/// The name of the tag that holds the start or the end of gap `i`.
pub open spec fn gap_name(kind: u8, i: nat) -> Seq<u8> {
    seq![kind] + encode_utf8(text::decimal(i))
}

/// An offset as a tag's value: in 64 bits where the file is large or the offset needs them.
pub open spec fn offset_value(v: u64, large: bool) -> ValueView {
    if large || v > 0xFFFF_FFFF {
        ValueView::U64(v)
    } else {
        ValueView::U32(v as u32)
    }
}

/// The tags of a gap list: for each gap its start, then its end.
pub open spec fn gap_tags(gaps: Seq<Gap>, large: bool) -> Seq<TagView>
    decreases gaps.len(),
{
    if gaps.len() == 0 {
        Seq::empty()
    } else {
        let i = (gaps.len() - 1) as nat;
        gap_tags(gaps.drop_last(), large) + seq![
            TagView {
                name: NameView::Str(gap_name(FT_GAPSTART, i)),
                value: offset_value(gaps.last().start, large),
            },
            TagView {
                name: NameView::Str(gap_name(FT_GAPEND, i)),
                value: offset_value(gaps.last().end, large),
            },
        ]
    }
}

/// The number of a value of 32 or 64 bits.
pub open spec fn offset_in(v: ValueView) -> Option<u64> {
    match v {
        ValueView::U32(v) => Some(v as u64),
        ValueView::U64(v) => Some(v),
        _ => None,
    }
}

/// The end of the gap that goes by `key`: the first tag of that name that holds a number.
pub open spec fn gap_end(tags: Seq<TagView>, key: Seq<u8>) -> Option<u64>
    decreases tags.len(),
{
    if tags.len() == 0 {
        None
    } else if tags[0].name == NameView::Str(seq![FT_GAPEND] + key) && offset_in(tags[0].value)
        is Some {
        offset_in(tags[0].value)
    } else {
        gap_end(tags.skip(1), key)
    }
}

/// The gap that a tag begins, where it begins one and some tag ends it.
pub open spec fn gap_begun(all: Seq<TagView>, t: TagView) -> Seq<Gap> {
    match t.name {
        NameView::Str(n) => if n.len() > 0 && n[0] == FT_GAPSTART {
            match (offset_in(t.value), gap_end(all, n.skip(1))) {
                (Some(start), Some(end)) => seq![Gap { start, end }],
                _ => Seq::empty(),
            }
        } else {
            Seq::empty()
        },
        _ => Seq::empty(),
    }
}

/// The gaps that the first `k` tags begin.
pub open spec fn gaps_begun(all: Seq<TagView>, k: nat) -> Seq<Gap>
    decreases k,
{
    if k == 0 {
        Seq::empty()
    } else {
        gaps_begun(all, (k - 1) as nat) + gap_begun(all, all[k - 1])
    }
}

/// The gap list of a sidecar's tags.
pub open spec fn met_gaps(tags: Seq<TagView>) -> Seq<Gap> {
    gaps_begun(tags, tags.len())
}

/// The value of the first tag named by the number `id`.
pub open spec fn value_of(tags: Seq<TagView>, id: u8) -> Option<ValueView>
    decreases tags.len(),
{
    if tags.len() == 0 {
        None
    } else if tags[0].name == NameView::Id(id) {
        Some(tags[0].value)
    } else {
        value_of(tags.skip(1), id)
    }
}

/// The number that a value is, of any width.
pub open spec fn number_in(v: ValueView) -> Option<u64> {
    match v {
        ValueView::U8(v) => Some(v as u64),
        ValueView::U16(v) => Some(v as u64),
        ValueView::U32(v) => Some(v as u64),
        ValueView::U64(v) => Some(v),
        _ => None,
    }
}

/// The file's size, where the tags give one.
pub open spec fn met_size(tags: Seq<TagView>) -> Option<u64> {
    match value_of(tags, FT_FILESIZE) {
        Some(v) => offset_in(v),
        None => None,
    }
}

/// The file's name; empty where the tags give none.
pub open spec fn met_name(tags: Seq<TagView>) -> Seq<u8> {
    match value_of(tags, FT_FILENAME) {
        Some(ValueView::Str(s)) => s,
        _ => Seq::empty(),
    }
}

/// The parts that failed verification.
pub open spec fn met_corrupted(tags: Seq<TagView>) -> Seq<u64> {
    match value_of(tags, FT_CORRUPTEDPARTS) {
        Some(ValueView::Str(s)) => list_numbers(text::spelled(s)),
        _ => Seq::empty(),
    }
}

/// The priority that a number stands for: automatic is high, and what is not known is normal.
pub open spec fn priority_of(v: u64) -> u8 {
    if v == PR_LOW {
        PR_LOW
    } else if v == PR_HIGH || v == PR_AUTO {
        PR_HIGH
    } else {
        PR_NORMAL
    }
}

/// The value of the priority's tag: of the legacy one only where there is no modern one.
pub open spec fn priority_value(tags: Seq<TagView>) -> Option<ValueView> {
    match value_of(tags, FT_DLPRIORITY) {
        Some(v) => Some(v),
        None => value_of(tags, FT_OLDDLPRIORITY),
    }
}

/// The priority; normal where the tags give none.
pub open spec fn met_priority(tags: Seq<TagView>) -> u8 {
    match priority_value(tags) {
        Some(v) => match number_in(v) {
            Some(n) => priority_of(n),
            None => PR_NORMAL,
        },
        None => PR_NORMAL,
    }
}

/// Whether the download is paused.
pub open spec fn met_paused(tags: Seq<TagView>) -> bool {
    match value_of(tags, FT_STATUS) {
        Some(v) => number_in(v) matches Some(n) && n != 0,
        None => false,
    }
}

/// The name of a gap's tag.
fn write_gap_name(kind: u8, i: usize) -> (name: Vec<u8>)
    ensures
        name@ == gap_name(kind, i as nat),
        name@.len() == 1 + text::decimal(i as nat).len(),
{
    let mut digits: Vec<char> = Vec::new();
    push_decimal(&mut digits, i as u64);
    assert(digits@ =~= text::decimal(i as nat));
    let text = string_of(&digits);
    let mut name: Vec<u8> = Vec::new();
    name.push(kind);
    write_bytes(&mut name, text.as_str().as_bytes());
    proof {
        text::lemma_decimal_value(i as nat);
        assert(is_ascii_chars(digits@)) by {
            assert forall|k: int| 0 <= k < digits@.len() implies 0 <= #[trigger] digits@[k] < 128 by {
                assert('0' <= text::decimal(i as nat)[k] <= '9');
            }
        }
        is_ascii_chars_encode_utf8(digits@);
        assert(name@ =~= gap_name(kind, i as nat));
    }
    name
}

fn write_offset(v: u64, large: bool) -> (value: TagValue)
    ensures
        value@ == offset_value(v, large),
{
    if large || v > 0xFFFF_FFFF {
        TagValue::U64(v)
    } else {
        TagValue::U32(v as u32)
    }
}

proof fn lemma_decimal_short(n: nat)
    ensures
        n < 0x1_0000_0000_0000_0000 ==> text::decimal(n).len() <= 20,
        text::decimal(n).len() >= 1,
{
    lemma_decimal_len(n, 20);
}

proof fn lemma_decimal_len(n: nat, k: nat)
    ensures
        text::decimal(n).len() >= 1,
        k >= 1 && n < ten_to(k) ==> text::decimal(n).len() <= k,
        ten_to(20) == 100_000_000_000_000_000_000,
    decreases k,
{
    reveal_with_fuel(ten_to, 21);
    if k > 1 {
        lemma_decimal_len(n / 10, (k - 1) as nat);
    }
}

spec fn ten_to(k: nat) -> nat
    decreases k,
{
    if k == 0 {
        1
    } else {
        10 * ten_to((k - 1) as nat)
    }
}

/// Append the tags of a gap list.
fn push_gap_tags(tags: &mut Vec<Tag>, gaps: &Vec<Gap>, large: bool)
    ensures
        tags::tag_views(final(tags)@) == tags::tag_views(old(tags)@) + gap_tags(gaps@, large),
        forall|i: int|
            0 <= i < gap_tags(gaps@, large).len() ==> tags::tag_ok(
                #[trigger] gap_tags(gaps@, large)[i],
            ),
{
    let ghost before = tags::tag_views(tags@);
    let mut i: usize = 0;
    assert(gaps@.take(0) =~= Seq::empty());
    assert(tags::tag_views(tags@) =~= before + gap_tags(gaps@.take(0), large));
    while i < gaps.len()
        invariant
            i <= gaps@.len(),
            tags::tag_views(tags@) == before + gap_tags(gaps@.take(i as int), large),
            forall|k: int|
                0 <= k < gap_tags(gaps@.take(i as int), large).len() ==> tags::tag_ok(
                    #[trigger] gap_tags(gaps@.take(i as int), large)[k],
                ),
        decreases gaps@.len() - i,
    {
        let g = gaps[i];
        let ghost was = tags::tag_views(tags@);
        let start = Tag {
            name: TagName::Str(write_gap_name(FT_GAPSTART, i)),
            value: write_offset(g.start, large),
        };
        let end = Tag {
            name: TagName::Str(write_gap_name(FT_GAPEND, i)),
            value: write_offset(g.end, large),
        };
        tags.push(start);
        tags.push(end);
        proof {
            let more = gaps@.take(i + 1);
            assert(more.drop_last() =~= gaps@.take(i as int));
            assert(more.last() == g);
            assert(tags::tag_views(tags@) =~= was + seq![start@, end@]);
            assert(tags::tag_views(tags@) =~= before + gap_tags(more, large));
            lemma_decimal_short(i as nat);
            assert(tags::tag_ok(start@));
            assert(tags::tag_ok(end@));
            let less = gap_tags(gaps@.take(i as int), large);
            assert forall|k: int| 0 <= k < gap_tags(more, large).len() implies tags::tag_ok(
                #[trigger] gap_tags(more, large)[k],
            ) by {
                if k < less.len() {
                    assert(gap_tags(more, large)[k] == less[k]);
                } else if k == less.len() {
                    assert(gap_tags(more, large)[k] == start@);
                } else {
                    assert(gap_tags(more, large)[k] == end@);
                }
            }
        }
        i = i + 1;
    }
    assert(gaps@.take(i as int) =~= gaps@);
}

fn read_offset(v: &TagValue) -> (n: Option<u64>)
    ensures
        n == offset_in(v@),
{
    match v {
        TagValue::U32(v) => Some(*v as u64),
        TagValue::U64(v) => Some(*v),
        _ => None,
    }
}

/// Whether `name` is `kind` and then `key` from its second byte on.
fn names_end(name: &Vec<u8>, key: &Vec<u8>) -> (b: bool)
    requires
        key@.len() > 0,
    ensures
        b == (name@ == seq![FT_GAPEND] + key@.skip(1)),
{
    if name.len() != key.len() || name[0] != FT_GAPEND {
        return false;
    }
    let mut i: usize = 1;
    while i < name.len()
        invariant
            1 <= i <= name@.len() == key@.len(),
            name@[0] == FT_GAPEND,
            forall|j: int| 1 <= j < i ==> name@[j] == key@[j],
        decreases name@.len() - i,
    {
        if name[i] != key[i] {
            assert((seq![FT_GAPEND] + key@.skip(1))[i as int] == key@[i as int]);
            return false;
        }
        i = i + 1;
    }
    assert(name@ =~= seq![FT_GAPEND] + key@.skip(1));
    true
}

/// The end of the gap whose start is named `key`.
fn find_gap_end(tags: &Vec<Tag>, key: &Vec<u8>) -> (end: Option<u64>)
    requires
        key@.len() > 0,
    ensures
        end == gap_end(tags::tag_views(tags@), key@.skip(1)),
{
    let ghost all = tags::tag_views(tags@);
    let mut i: usize = 0;
    assert(all.skip(0) =~= all);
    while i < tags.len()
        invariant
            i <= tags@.len(),
            key@.len() > 0,
            all == tags::tag_views(tags@),
            gap_end(all.skip(i as int), key@.skip(1)) == gap_end(all, key@.skip(1)),
        decreases tags@.len() - i,
    {
        assert(all.skip(i as int)[0] == tags@[i as int]@);
        assert(all.skip(i as int).skip(1) =~= all.skip(i + 1));
        if let TagName::Str(n) = &tags[i].name {
            if names_end(n, key) {
                if let Some(v) = read_offset(&tags[i].value) {
                    return Some(v);
                }
            }
        }
        i = i + 1;
    }
    None
}

/// The gap list of a sidecar's tags.
pub fn read_gaps(tags: &Vec<Tag>) -> (gaps: Vec<Gap>)
    ensures
        gaps@ == met_gaps(tags::tag_views(tags@)),
{
    let ghost all = tags::tag_views(tags@);
    let mut gaps: Vec<Gap> = Vec::new();
    let mut i: usize = 0;
    while i < tags.len()
        invariant
            i <= tags@.len(),
            all == tags::tag_views(tags@),
            gaps@ == gaps_begun(all, i as nat),
        decreases tags@.len() - i,
    {
        let ghost was = gaps@;
        assert(all[i as int] == tags@[i as int]@);
        if let TagName::Str(n) = &tags[i].name {
            if n.len() > 0 && n[0] == FT_GAPSTART {
                if let Some(start) = read_offset(&tags[i].value) {
                    if let Some(end) = find_gap_end(tags, n) {
                        gaps.push(Gap { start, end });
                    }
                }
            }
        }
        assert(gaps@ =~= was + gap_begun(all, all[i as int]));
        i = i + 1;
    }
    gaps
}

/// The place of the first tag named by the number `id`.
fn find_tag(tags: &Vec<Tag>, id: u8) -> (at: Option<usize>)
    ensures
        match at {
            Some(i) => i < tags@.len() && value_of(tags::tag_views(tags@), id) == Some(
                tags@[i as int].value@,
            ),
            None => value_of(tags::tag_views(tags@), id) is None,
        },
{
    let ghost all = tags::tag_views(tags@);
    let mut i: usize = 0;
    assert(all.skip(0) =~= all);
    while i < tags.len()
        invariant
            i <= tags@.len(),
            all == tags::tag_views(tags@),
            value_of(all.skip(i as int), id) == value_of(all, id),
        decreases tags@.len() - i,
    {
        assert(all.skip(i as int)[0] == tags@[i as int]@);
        assert(all.skip(i as int).skip(1) =~= all.skip(i + 1));
        if tags[i].is_id(id) {
            return Some(i);
        }
        i = i + 1;
    }
    None
}

fn read_number(v: &TagValue) -> (n: Option<u64>)
    ensures
        n == number_in(v@),
{
    match v {
        TagValue::U8(v) => Some(*v as u64),
        TagValue::U16(v) => Some(*v as u64),
        TagValue::U32(v) => Some(*v as u64),
        TagValue::U64(v) => Some(*v),
        _ => None,
    }
}

/// The priority that the tags give.
fn read_priority(tags: &Vec<Tag>) -> (priority: u8)
    ensures
        priority == met_priority(tags::tag_views(tags@)),
{
    let at: Option<usize> = match find_tag(tags, FT_DLPRIORITY) {
        Some(i) => Some(i),
        None => find_tag(tags, FT_OLDDLPRIORITY),
    };
    match at {
        Some(i) => match read_number(&tags[i].value) {
            Some(n) => if n == PR_LOW as u64 {
                PR_LOW
            } else if n == PR_HIGH as u64 || n == PR_AUTO as u64 {
                PR_HIGH
            } else {
                PR_NORMAL
            },
            None => PR_NORMAL,
        },
        None => PR_NORMAL,
    }
}

/// Why a download could not be started, resumed or written to.
#[derive(Debug, Clone, Copy, PartialEq, Eq, Structural)]
pub enum StoreError {
    /// Not enough free space for a file of this size.
    NoSpace { size: u64 },
    /// No sidecar could be read.
    Missing,
    /// The sidecar that there is, is malformed.
    BadMet(IoError),
    /// The sidecar gives no file size.
    NoFileSize,
    /// A block runs past the end of the file.
    PastEnd,
}

impl StoreError {
    /// What the error says.
    pub open spec fn said(&self) -> Seq<char> {
        match self {
            StoreError::NoSpace { size } => "not enough free space for "@ + text::decimal(
                *size as nat,
            ) + " bytes (keeping "@ + text::decimal(MIN_FREE_MARGIN as nat) + " bytes free)"@,
            StoreError::Missing => "no part.met can be read"@,
            StoreError::BadMet(e) => "part.met: "@ + e.said(),
            StoreError::NoFileSize => "part.met has no filesize"@,
            StoreError::PastEnd => "block runs past the end of the file"@,
        }
    }

    /// The error in words.
    pub fn message(&self) -> (s: String)
        ensures
            s@ == self.said(),
    {
        let mut out: Vec<char> = Vec::new();
        match self {
            StoreError::NoSpace { size } => {
                push_text(&mut out, "not enough free space for ");
                push_decimal(&mut out, *size);
                push_text(&mut out, " bytes (keeping ");
                push_decimal(&mut out, MIN_FREE_MARGIN);
                push_text(&mut out, " bytes free)");
            },
            StoreError::Missing => {
                push_text(&mut out, "no part.met can be read");
            },
            StoreError::BadMet(e) => {
                push_text(&mut out, "part.met: ");
                push_text(&mut out, e.message().as_str());
            },
            StoreError::NoFileSize => {
                push_text(&mut out, "part.met has no filesize");
            },
            StoreError::PastEnd => {
                push_text(&mut out, "block runs past the end of the file");
            },
        }
        assert(out@ =~= self.said());
        string_of(&out)
    }
}

/// A download with its name, priority and pause state.
#[derive(Debug, Clone)]
pub struct PartStore {
    pub pf: PartFile,
    pub name: Vec<u8>,
    /// The user's download priority.
    pub priority: u8,
    /// Paused by the user: skipped by every fetch path until resumed.
    pub paused: bool,
}

/// The tags of a download's sidecar.
pub open spec fn store_tags(s: &PartStore) -> Seq<TagView> {
    let large = s.pf.size > OLD_MAX_FILE_SIZE;
    let none = Seq::<TagView>::empty();
    seq![
        TagView { name: NameView::Id(FT_FILENAME), value: ValueView::Str(s.name@) },
        TagView {
            name: NameView::Id(FT_FILESIZE),
            value: if large {
                ValueView::U64(s.pf.size)
            } else {
                ValueView::U32(s.pf.size as u32)
            },
        },
    ] + (if s.pf.bad_parts().len() > 0 {
        seq![
            TagView {
                name: NameView::Id(FT_CORRUPTEDPARTS),
                value: ValueView::Str(encode_utf8(joined(s.pf.bad_parts()))),
            },
        ]
    } else {
        none
    }) + seq![
        TagView { name: NameView::Id(FT_DLPRIORITY), value: ValueView::U32(s.priority as u32) },
        TagView { name: NameView::Id(FT_OLDDLPRIORITY), value: ValueView::U32(s.priority as u32) },
    ] + (if s.paused {
        seq![TagView { name: NameView::Id(FT_STATUS), value: ValueView::U32(1) }]
    } else {
        none
    }) + gap_tags(s.pf.gap_list(), large)
}

/// A download's sidecar.
pub open spec fn store_met(s: &PartStore) -> MetView {
    MetView {
        version: if s.pf.size > OLD_MAX_FILE_SIZE {
            PARTFILE_VERSION_LARGEFILE
        } else {
            PARTFILE_VERSION
        },
        date: 0,
        file_hash: s.pf.hash@,
        part_hashes: hash_views(s.pf.part_hashes@),
        tags: store_tags(s),
    }
}

/// The store that a sidecar describes.
pub open spec fn describes(m: MetView, s: &PartStore) -> bool {
    &&& s.pf.wf()
    &&& s.pf.hash@ == m.file_hash
    &&& met_size(m.tags) == Some(s.pf.size)
    &&& hash_views(s.pf.part_hashes@) == m.part_hashes
    &&& s.pf.bad_parts() == met_corrupted(m.tags)
    &&& s.name@ == met_name(m.tags)
    &&& s.priority == met_priority(m.tags)
    &&& s.paused == met_paused(m.tags)
    &&& forall|b: int| #[trigger] s.pf.needs(b) <==> part_file::covers(met_gaps(m.tags), b)
}

impl PartStore {
    /// The lengths of what goes into the sidecar fit their fields.
    pub open spec fn fits(&self) -> bool {
        &&& self.name@.len() <= 0xFFFF
        &&& self.pf.part_hashes@.len() <= 0xFFFF
        &&& encode_utf8(joined(self.pf.bad_parts())).len() <= 0xFFFF
        &&& self.pf.gap_list().len() <= 0x7FFF_FF00
    }

    /// Start a new download, unless it would exhaust the volume.
    pub fn create(hash: [u8; 16], size: u64, name: &[u8], available: Option<u64>) -> (r: Result<
        PartStore,
        StoreError,
    >)
        ensures
            match r {
                Ok(s) => {
                    &&& !(available matches Some(free) && size + MIN_FREE_MARGIN > free)
                    &&& s.pf.wf()
                    &&& s.pf.hash == hash
                    &&& s.pf.size == size
                    &&& s.pf.part_hashes@.len() == 0
                    &&& s.pf.bad_parts().len() == 0
                    &&& forall|b: int| #[trigger] s.pf.needs(b) <==> 0 <= b < size
                    &&& s.name@ == name@
                    &&& s.priority == PR_NORMAL
                    &&& !s.paused
                },
                Err(e) => e == (StoreError::NoSpace { size }) && (available matches Some(free) && size
                    + MIN_FREE_MARGIN > free),
            },
    {
        if would_exhaust_space(size, available) {
            return Err(StoreError::NoSpace { size });
        }
        Ok(
            PartStore {
                pf: PartFile::new(hash, size),
                name: vstd::slice::slice_to_vec(name),
                priority: PR_NORMAL,
                paused: false,
            },
        )
    }

    /// The download that a sidecar describes.
    pub fn from_met(m: PartMet) -> (r: Result<PartStore, StoreError>)
        ensures
            match r {
                Ok(s) => describes(m@, &s),
                Err(e) => e == StoreError::NoFileSize && met_size(m@.tags) is None,
            },
    {
        let size: u64 = match find_tag(&m.tags, FT_FILESIZE) {
            Some(i) => match read_offset(&m.tags[i].value) {
                Some(v) => v,
                None => {
                    return Err(StoreError::NoFileSize);
                },
            },
            None => {
                return Err(StoreError::NoFileSize);
            },
        };
        let mut name: Vec<u8> = Vec::new();
        if let Some(i) = find_tag(&m.tags, FT_FILENAME) {
            if let TagValue::Str(s) = &m.tags[i].value {
                name = vstd::slice::slice_to_vec(s.as_slice());
            }
        }
        let mut corrupted: Vec<u64> = Vec::new();
        if let Some(i) = find_tag(&m.tags, FT_CORRUPTEDPARTS) {
            if let TagValue::Str(s) = &m.tags[i].value {
                corrupted = parse_corrupted(s.as_slice());
            }
        }
        let priority: u8 = read_priority(&m.tags);
        let paused: bool = match find_tag(&m.tags, FT_STATUS) {
            Some(i) => match read_number(&m.tags[i].value) {
                Some(n) => n != 0,
                None => false,
            },
            None => false,
        };
        let gaps = read_gaps(&m.tags);
        let mut pf = PartFile::resume(m.file_hash, size, gaps, corrupted);
        pf.part_hashes = m.part_hashes;
        Ok(PartStore { pf, name, priority, paused })
    }

    /// Resume a download from its sidecar, or from the sidecar's previous generation where
    /// the live one is missing or malformed. Each is its content, or `None` where it cannot
    /// be read.
    pub fn open(live: Option<&[u8]>, bak: Option<&[u8]>) -> (r: Result<PartStore, StoreError>)
        ensures
            ({
                let usable = live matches Some(b) && parse_met(b@) is Ok;
                let met = if usable {
                    parse_met(live->0@)
                } else {
                    parse_met(bak->0@)
                };
                if !usable && bak is None {
                    r == Err::<PartStore, StoreError>(StoreError::Missing)
                } else {
                    match met {
                        Err(e) => r == Err::<PartStore, StoreError>(StoreError::BadMet(e)),
                        Ok(m) => match r {
                            Ok(s) => describes(m, &s),
                            Err(e) => e == StoreError::NoFileSize && met_size(m.tags) is None,
                        },
                    }
                }
            }),
    {
        if let Some(b) = live {
            if let Ok(m) = read_part_met(b) {
                return PartStore::from_met(m);
            }
        }
        match bak {
            None => Err(StoreError::Missing),
            Some(b) => match read_part_met(b) {
                Ok(m) => PartStore::from_met(m),
                Err(e) => Err(StoreError::BadMet(e)),
            },
        }
    }

    /// The sidecar of the download.
    pub fn met(&self) -> (m: PartMet)
        requires
            self.fits(),
        ensures
            m@ == store_met(self),
            met_ok(m@),
    {
        let large: bool = self.pf.size > OLD_MAX_FILE_SIZE;
        let mut tags: Vec<Tag> = Vec::new();
        tags.push(
            Tag::id(
                FT_FILENAME,
                TagValue::Str(vstd::slice::slice_to_vec(self.name.as_slice())),
            ),
        );
        tags.push(
            Tag::id(
                FT_FILESIZE,
                if large {
                    TagValue::U64(self.pf.size)
                } else {
                    TagValue::U32(self.pf.size as u32)
                },
            ),
        );
        if self.pf.corrupted.len() > 0 {
            tags.push(
                Tag::id(
                    FT_CORRUPTEDPARTS,
                    TagValue::Str(format_corrupted(self.pf.corrupted.as_slice())),
                ),
            );
        }
        tags.push(Tag::id(FT_DLPRIORITY, TagValue::U32(self.priority as u32)));
        tags.push(Tag::id(FT_OLDDLPRIORITY, TagValue::U32(self.priority as u32)));
        if self.paused {
            tags.push(Tag::id(FT_STATUS, TagValue::U32(1)));
        }
        let ghost head = tags::tag_views(tags@);
        push_gap_tags(&mut tags, &self.pf.gaps, large);
        let part_hashes = vstd::slice::slice_to_vec(self.pf.part_hashes.as_slice());
        let m = PartMet {
            version: if large {
                PARTFILE_VERSION_LARGEFILE
            } else {
                PARTFILE_VERSION
            },
            date: 0,
            file_hash: self.pf.hash,
            part_hashes,
            tags,
        };
        proof {
            let gt = gap_tags(self.pf.gap_list(), large);
            assert(tags::tag_views(tags@) =~= store_tags(self));
            assert(part_hashes@ =~= self.pf.part_hashes@);
            lemma_gap_tags_len(self.pf.gap_list(), large);
            assert forall|i: int| 0 <= i < m@.tags.len() implies tags::tag_ok(
                #[trigger] m@.tags[i],
            ) by {
                if i >= head.len() {
                    assert(m@.tags[i] == gt[i - head.len()]);
                } else {
                    assert(m@.tags[i] == head[i]);
                }
            }
        }
        m
    }

    /// The sidecar of the download, as bytes.
    pub fn save_met(&self) -> (out: Vec<u8>)
        requires
            self.fits(),
        ensures
            out@ == met_bytes(store_met(self)),
    {
        write_part_met(&self.met())
    }

    /// Where a block of `len` bytes at `start` ends, if it may be written: `None` for no
    /// bytes at all.
    pub fn plan_write(&self, start: u64, len: usize) -> (r: Result<Option<u64>, StoreError>)
        ensures
            r == (if len == 0 {
                Ok(None)
            } else if start + len > self.pf.size {
                Err(StoreError::PastEnd)
            } else {
                Ok(Some((start + len) as u64))
            }),
    {
        if len == 0 {
            return Ok(None);
        }
        match start.checked_add(len as u64) {
            Some(end) => if end > self.pf.size {
                Err(StoreError::PastEnd)
            } else {
                Ok(Some(end))
            },
            None => Err(StoreError::PastEnd),
        }
    }

    /// The bytes of `[start, end)` are on disk: close their gap.
    pub fn block_written(&mut self, start: u64, end: u64)
        requires
            old(self).pf.wf(),
        ensures
            final(self).pf.received(&old(self).pf, start as int, end as int),
            final(self).name == old(self).name,
            final(self).priority == old(self).priority,
            final(self).paused == old(self).paused,
    {
        self.pf.fill_gap(start, end);
    }

    /// Where part `part` lies in the file: its offset and its length.
    pub fn part_range(&self, part: u64) -> (r: (u64, u64))
        requires
            part_file::part_start(part as int) <= self.pf.size,
        ensures
            r.0 == part_file::part_start(part as int),
            r.0 + r.1 == part_file::part_end(part as int, self.pf.size as int),
    {
        (part * PARTSIZE, part_size(part, self.pf.size))
    }

    /// Verify a completed part, whose bytes are `data`, against the hashset. A part that is
    /// good is no longer corrupted; one that is bad is missing again; `None` where there is
    /// no hash to check against yet.
    pub fn verify_part(&mut self, part: u64, data: &[u8]) -> (ok: Option<bool>)
        requires
            old(self).pf.wf(),
            part_file::part_start(part as int) <= old(self).pf.size,
        ensures
            ok == (match old(self).pf.expected_hash(part) {
                Some(h) => Some(crate::hash::md4_digest(data@) == h),
                None => None,
            }),
            final(self).settled(old(self), part, ok),
    {
        let ok = self.pf.verify_part(part, data);
        self.settle_part(part, ok);
        ok
    }

    /// This is `before` after the verdict `ok` on part `part`.
    pub open spec fn settled(&self, before: &PartStore, part: u64, ok: Option<bool>) -> bool {
        &&& self.pf.wf()
        &&& self.pf.same_file(&before.pf)
        &&& self.name == before.name
        &&& self.priority == before.priority
        &&& self.paused == before.paused
        &&& match ok {
            Some(true) => {
                &&& self.pf.gap_list() == before.pf.gap_list()
                &&& self.pf.bad_parts() == part_file::without_part(
                    before.pf.bad_parts(),
                    part,
                )
            },
            Some(false) => {
                &&& self.pf.reopened(
                    &before.pf,
                    part_file::part_start(part as int),
                    part_file::part_end(part as int, before.pf.size as int),
                )
                &&& self.pf.bad_parts() == (if before.pf.bad_parts().contains(part) {
                    before.pf.bad_parts()
                } else {
                    before.pf.bad_parts().push(part)
                })
            },
            None => {
                &&& self.pf.gap_list() == before.pf.gap_list()
                &&& self.pf.bad_parts() == before.pf.bad_parts()
            },
        }
    }

    /// Act on the verdict on part `part`. See [`PartStore::verify_part`].
    pub fn settle_part(&mut self, part: u64, ok: Option<bool>)
        requires
            old(self).pf.wf(),
            part_file::part_start(part as int) <= old(self).pf.size,
        ensures
            final(self).settled(old(self), part, ok),
    {
        match ok {
            Some(true) => self.pf.clear_corrupt(part),
            Some(false) => self.pf.mark_corrupt(part),
            None => {},
        }
    }

    /// Every byte has arrived.
    pub fn is_complete(&self) -> (done: bool)
        requires
            self.pf.wf(),
        ensures
            done == (forall|b: int| !self.pf.needs(b)),
    {
        self.pf.is_complete()
    }
}

proof fn lemma_gap_tags_len(gaps: Seq<Gap>, large: bool)
    ensures
        gap_tags(gaps, large).len() == 2 * gaps.len(),
    decreases gaps.len(),
{
    if gaps.len() > 0 {
        lemma_gap_tags_len(gaps.drop_last(), large);
    }
}

/// Two numbers in decimal digits differ where the numbers do.
proof fn lemma_gap_name_injective(kind: u8, i: nat, j: nat)
    requires
        gap_name(kind, i) == gap_name(kind, j),
    ensures
        i == j,
{
    let (a, b) = (text::decimal(i), text::decimal(j));
    assert(gap_name(kind, i).skip(1) =~= encode_utf8(a));
    assert(gap_name(kind, j).skip(1) =~= encode_utf8(b));
    encode_utf8_decode_utf8(a);
    encode_utf8_decode_utf8(b);
    text::lemma_decimal_value(i);
    text::lemma_decimal_value(j);
}

/// The tags at `2 * i` and `2 * i + 1` are those of gap `i`.
proof fn lemma_gap_tags_at(gaps: Seq<Gap>, large: bool, i: int)
    requires
        0 <= i < gaps.len(),
    ensures
        gap_tags(gaps, large).len() == 2 * gaps.len(),
        gap_tags(gaps, large)[2 * i] == (TagView {
            name: NameView::Str(gap_name(FT_GAPSTART, i as nat)),
            value: offset_value(gaps[i].start, large),
        }),
        gap_tags(gaps, large)[2 * i + 1] == (TagView {
            name: NameView::Str(gap_name(FT_GAPEND, i as nat)),
            value: offset_value(gaps[i].end, large),
        }),
    decreases gaps.len(),
{
    lemma_gap_tags_len(gaps, large);
    lemma_gap_tags_len(gaps.drop_last(), large);
    if i < gaps.len() - 1 {
        lemma_gap_tags_at(gaps.drop_last(), large, i);
    }
}

/// Tags that end no gap by that key are passed over.
proof fn lemma_gap_end_at(tags: Seq<TagView>, key: Seq<u8>, k: int)
    requires
        0 <= k < tags.len(),
        forall|j: int|
            0 <= j < k ==> (#[trigger] tags[j]).name != NameView::Str(seq![FT_GAPEND] + key),
        tags[k].name == NameView::Str(seq![FT_GAPEND] + key),
        offset_in(tags[k].value) is Some,
    ensures
        gap_end(tags, key) == offset_in(tags[k].value),
    decreases k,
{
    if k > 0 {
        assert(tags[0].name != NameView::Str(seq![FT_GAPEND] + key));
        assert forall|j: int| 0 <= j < k - 1 implies (#[trigger] tags.skip(1)[j]).name
            != NameView::Str(seq![FT_GAPEND] + key) by {
            assert(tags.skip(1)[j] == tags[j + 1]);
        }
        lemma_gap_end_at(tags.skip(1), key, k - 1);
    }
}

/// The gaps that a download's tags begin are its gaps, behind tags named by numbers.
proof fn lemma_gaps_read_back(head: Seq<TagView>, gaps: Seq<Gap>, large: bool)
    requires
        forall|i: int| 0 <= i < head.len() ==> (#[trigger] head[i]).name is Id,
    ensures
        met_gaps(head + gap_tags(gaps, large)) == gaps,
{
    let gt = gap_tags(gaps, large);
    let all = head + gt;
    lemma_gap_tags_len(gaps, large);
    lemma_head_begins_none(all, head, head.len());
    assert(gaps.take(0) =~= Seq::<Gap>::empty());
    lemma_gaps_begun(head, gaps, large, gaps.len());
    assert(gaps.take(gaps.len() as int) =~= gaps);
}

proof fn lemma_head_begins_none(all: Seq<TagView>, head: Seq<TagView>, k: nat)
    requires
        k <= head.len() <= all.len(),
        forall|i: int| 0 <= i < head.len() ==> (#[trigger] head[i]).name is Id && all[i] == head[i],
    ensures
        gaps_begun(all, k) == Seq::<Gap>::empty(),
    decreases k,
{
    if k > 0 {
        lemma_head_begins_none(all, head, (k - 1) as nat);
        assert(all[k - 1] == head[k - 1]);
        assert(head[k - 1].name is Id);
        assert(gaps_begun(all, k) =~= Seq::<Gap>::empty());
    }
}

proof fn lemma_gaps_begun(head: Seq<TagView>, gaps: Seq<Gap>, large: bool, n: nat)
    requires
        n <= gaps.len(),
        forall|i: int| 0 <= i < head.len() ==> (#[trigger] head[i]).name is Id,
    ensures
        gaps_begun(head + gap_tags(gaps, large), head.len() + 2 * n) == gaps.take(n as int),
    decreases n,
{
    let gt = gap_tags(gaps, large);
    let all = head + gt;
    lemma_gap_tags_len(gaps, large);
    if n == 0 {
        assert forall|i: int| 0 <= i < head.len() implies (#[trigger] head[i]).name is Id && all[i]
            == head[i] by {}
        lemma_head_begins_none(all, head, head.len());
        assert(gaps.take(0) =~= Seq::<Gap>::empty());
    } else {
        let i = (n - 1) as int;
        let at = head.len() + 2 * i;
        lemma_gaps_begun(head, gaps, large, (n - 1) as nat);
        lemma_gap_tags_at(gaps, large, i);
        assert(all[at] == gt[2 * i]);
        assert(all[at + 1] == gt[2 * i + 1]);
        let key = encode_utf8(text::decimal(i as nat));
        assert(gap_name(FT_GAPSTART, i as nat).skip(1) =~= key);
        assert(gap_name(FT_GAPEND, i as nat) =~= seq![FT_GAPEND] + key);
        assert forall|j: int| 0 <= j < at + 1 implies (#[trigger] all[j]).name != NameView::Str(
            seq![FT_GAPEND] + key,
        ) by {
            if j < head.len() {
                assert(all[j] == head[j]);
            } else {
                let q = (j - head.len()) / 2;
                lemma_gap_tags_at(gaps, large, q);
                assert(all[j] == gt[j - head.len()]);
                if (j - head.len()) % 2 == 0 {
                    assert(gap_name(FT_GAPSTART, q as nat)[0] == FT_GAPSTART);
                    assert((seq![FT_GAPEND] + key)[0] == FT_GAPEND);
                } else if gap_name(FT_GAPEND, q as nat) == gap_name(FT_GAPEND, i as nat) {
                    lemma_gap_name_injective(FT_GAPEND, q as nat, i as nat);
                }
            }
        }
        lemma_gap_end_at(all, key, at + 1);
        assert(gap_begun(all, all[at]) == seq![gaps[i]]);
        assert(gap_name(FT_GAPEND, i as nat)[0] == FT_GAPEND);
        assert(gap_begun(all, all[at + 1]) == Seq::<Gap>::empty());
        let before = gaps_begun(all, (head.len() + 2 * i) as nat);
        assert(gaps_begun(all, (at + 1) as nat) == before + gap_begun(all, all[at]));
        assert(gaps_begun(all, (at + 2) as nat) == gaps_begun(all, (at + 1) as nat) + gap_begun(
            all,
            all[at + 1],
        ));
        assert(gaps.take(n as int) =~= gaps.take(i) + seq![gaps[i]] + Seq::<Gap>::empty());
    }
}

/// The tags of a sidecar before those of the gaps.
spec fn head_tags(s: &PartStore) -> Seq<TagView> {
    store_tags(s).take(
        store_tags(s).len() - gap_tags(
            s.pf.gap_list(),
            s.pf.size > OLD_MAX_FILE_SIZE,
        ).len(),
    )
}

/// A download that is saved and resumed is the same download: the same bytes are missing,
/// the same parts are corrupted, and its name, hashes, priority and pause state are kept. A
/// priority that is none of the three levels is not kept: see [`priority_of`].
pub proof fn law_save_then_open(s: &PartStore, t: &PartStore)
    requires
        s.pf.wf(),
        s.priority == PR_LOW || s.priority == PR_NORMAL || s.priority == PR_HIGH,
        describes(store_met(s), t),
    ensures
        t.pf.hash == s.pf.hash,
        t.pf.size == s.pf.size,
        t.pf.part_hashes@ == s.pf.part_hashes@,
        t.pf.gap_list() == s.pf.gap_list(),
        t.pf.bad_parts() == s.pf.bad_parts(),
        t.name@ == s.name@,
        t.priority == s.priority,
        t.paused == s.paused,
{
    let large = s.pf.size > OLD_MAX_FILE_SIZE;
    let tags = store_tags(s);
    let gaps = s.pf.gap_list();
    let head = head_tags(s);
    assert(tags =~= head + gap_tags(gaps, large));
    assert forall|i: int| 0 <= i < head.len() implies (#[trigger] head[i]).name is Id by {
        assert(head[i] == tags[i]);
    }
    lemma_gaps_read_back(head, gaps, large);
    part_file::lemma_tidy_is_canonical(t.pf.gap_list(), gaps);
    law_corrupted_round_trip(s.pf.bad_parts());
    lemma_store_values(s);
    assert(hash_views(t.pf.part_hashes@) == hash_views(s.pf.part_hashes@));
    assert(t.pf.part_hashes@.len() == hash_views(t.pf.part_hashes@).len());
    assert forall|i: int| 0 <= i < s.pf.part_hashes@.len() implies t.pf.part_hashes@[i]
        == s.pf.part_hashes@[i] by {
        assert(hash_views(t.pf.part_hashes@)[i] == hash_views(s.pf.part_hashes@)[i]);
        assert(t.pf.part_hashes@[i] =~= s.pf.part_hashes@[i]);
    }
    assert(t.pf.part_hashes@ =~= s.pf.part_hashes@);
    assert(t.pf.hash =~= s.pf.hash);
}

/// The first tag of a name is the one that counts.
proof fn lemma_value_at(tags: Seq<TagView>, id: u8, k: int)
    requires
        0 <= k < tags.len(),
        forall|j: int| 0 <= j < k ==> (#[trigger] tags[j]).name != NameView::Id(id),
        tags[k].name == NameView::Id(id),
    ensures
        value_of(tags, id) == Some(tags[k].value),
    decreases k,
{
    if k > 0 {
        assert(tags[0].name != NameView::Id(id));
        assert forall|j: int| 0 <= j < k - 1 implies (#[trigger] tags.skip(1)[j]).name
            != NameView::Id(id) by {
            assert(tags.skip(1)[j] == tags[j + 1]);
        }
        lemma_value_at(tags.skip(1), id, k - 1);
    }
}

/// A name that no tag has gives no value.
proof fn lemma_no_value(tags: Seq<TagView>, id: u8)
    requires
        forall|i: int| 0 <= i < tags.len() ==> (#[trigger] tags[i]).name != NameView::Id(id),
    ensures
        value_of(tags, id) is None,
    decreases tags.len(),
{
    if tags.len() > 0 {
        assert(tags[0].name != NameView::Id(id));
        assert forall|i: int| 0 <= i < tags.skip(1).len() implies (#[trigger] tags.skip(1)[i]).name
            != NameView::Id(id) by {
            assert(tags.skip(1)[i] == tags[i + 1]);
        }
        lemma_no_value(tags.skip(1), id);
    }
}

/// What the tags of a download's sidecar say of it.
proof fn lemma_store_values(s: &PartStore)
    ensures
        met_size(store_tags(s)) == Some(s.pf.size),
        met_name(store_tags(s)) == s.name@,
        value_of(store_tags(s), FT_CORRUPTEDPARTS) == (if s.pf.bad_parts().len() > 0 {
            Some(ValueView::Str(encode_utf8(joined(s.pf.bad_parts()))))
        } else {
            None
        }),
        met_priority(store_tags(s)) == priority_of(s.priority as u64),
        met_paused(store_tags(s)) == s.paused,
{
    let large = s.pf.size > OLD_MAX_FILE_SIZE;
    let tags = store_tags(s);
    let gt = gap_tags(s.pf.gap_list(), large);
    let bad: int = if s.pf.bad_parts().len() > 0 {
        1
    } else {
        0
    };
    let paused: int = if s.paused {
        1
    } else {
        0
    };
    lemma_gap_tags_named(s.pf.gap_list(), large);
    assert(tags.len() == 4 + bad + paused + gt.len());
    assert(tags[0].name == NameView::Id(FT_FILENAME));
    assert(tags[1].name == NameView::Id(FT_FILESIZE));
    assert(tags[2 + bad].name == NameView::Id(FT_DLPRIORITY));
    assert(tags[3 + bad].name == NameView::Id(FT_OLDDLPRIORITY));
    assert forall|i: int| 4 + bad + paused <= i < tags.len() implies (#[trigger] tags[i]).name
        is Str by {
        assert(tags[i] == gt[i - (4 + bad + paused)]);
    }
    lemma_value_at(tags, FT_FILENAME, 0);
    lemma_value_at(tags, FT_FILESIZE, 1);
    if bad == 1 {
        assert(tags[2].name == NameView::Id(FT_CORRUPTEDPARTS));
        lemma_value_at(tags, FT_CORRUPTEDPARTS, 2);
    }
    if paused == 1 {
        assert(tags[4 + bad].name == NameView::Id(FT_STATUS));
        lemma_value_at(tags, FT_STATUS, 4 + bad);
    }
    if bad == 0 {
        lemma_no_value(tags, FT_CORRUPTEDPARTS);
    }
    if paused == 0 {
        lemma_no_value(tags, FT_STATUS);
    }
    lemma_value_at(tags, FT_DLPRIORITY, 2 + bad);
}

proof fn lemma_gap_tags_named(gaps: Seq<Gap>, large: bool)
    ensures
        forall|i: int|
            0 <= i < gap_tags(gaps, large).len() ==> (#[trigger] gap_tags(gaps, large)[i]).name
                is Str,
    decreases gaps.len(),
{
    if gaps.len() > 0 {
        lemma_gap_tags_named(gaps.drop_last(), large);
        let less = gap_tags(gaps.drop_last(), large);
        assert forall|i: int| 0 <= i < gap_tags(gaps, large).len() implies (#[trigger] gap_tags(
            gaps,
            large,
        )[i]).name is Str by {
            if i < less.len() {
                assert(gap_tags(gaps, large)[i] == less[i]);
            }
        }
    }
}

/// The ending of a sidecar's file name.
pub open spec fn met_suffix() -> Seq<char> {
    seq!['.', 'p', 'a', 'r', 't', '.', 'm', 'e', 't']
}

/// A download's number in at least three digits.
pub open spec fn padded(index: u32) -> Seq<char> {
    (if index < 10 {
        seq!['0', '0']
    } else if index < 100 {
        seq!['0']
    } else {
        Seq::empty()
    }) + text::decimal(index as nat)
}

fn push_padded(out: &mut Vec<char>, index: u32)
    ensures
        final(out)@ == old(out)@ + padded(index),
{
    if index < 100 {
        out.push('0');
    }
    if index < 10 {
        out.push('0');
    }
    push_decimal(out, index as u64);
    assert(out@ =~= old(out)@ + padded(index));
}

/// The file names of download `index`: its bytes, its sidecar, and the sidecar's previous
/// generation.
pub fn part_names(index: u32) -> (names: (String, String, String))
    ensures
        names.0@ == padded(index) + seq!['.', 'p', 'a', 'r', 't'],
        names.1@ == padded(index) + met_suffix(),
        names.2@ == padded(index) + met_suffix() + seq!['.', 'b', 'a', 'k'],
{
    let mut name: Vec<char> = Vec::new();
    push_padded(&mut name, index);
    name.push('.');
    name.push('p');
    name.push('a');
    name.push('r');
    name.push('t');
    assert(name@ =~= padded(index) + seq!['.', 'p', 'a', 'r', 't']);
    let part = string_of(&name);
    name.push('.');
    name.push('m');
    name.push('e');
    name.push('t');
    assert(name@ =~= padded(index) + met_suffix());
    let met = string_of(&name);
    name.push('.');
    name.push('b');
    name.push('a');
    name.push('k');
    assert(name@ =~= padded(index) + met_suffix() + seq!['.', 'b', 'a', 'k']);
    let bak = string_of(&name);
    (part, met, bak)
}

/// The number of the download whose sidecar has this file name.
pub open spec fn index_of_name(name: Seq<char>) -> Option<u32> {
    let n = name.len() - 9;
    if n < 0 || name.skip(n) != met_suffix() {
        None
    } else {
        match text::number(name.take(n)) {
            Some(v) if v <= 0xFFFF_FFFF => Some(v as u32),
            _ => None,
        }
    }
}

/// See [`index_of_name`].
pub fn part_index(name: &str) -> (index: Option<u32>)
    ensures
        index == index_of_name(name@),
{
    let chars = chars_of(name);
    if chars.len() < 9 {
        return None;
    }
    let n: usize = chars.len() - 9;
    let is_met: bool = chars[n] == '.' && chars[n + 1] == 'p' && chars[n + 2] == 'a' && chars[n + 3]
        == 'r' && chars[n + 4] == 't' && chars[n + 5] == '.' && chars[n + 6] == 'm' && chars[n + 7]
        == 'e' && chars[n + 8] == 't';
    proof {
        let tail = chars@.skip(n as int);
        assert(forall|k: int| 0 <= k < 9 ==> #[trigger] tail[k] == chars@[n + k]);
        if is_met {
            assert(tail =~= met_suffix());
        } else {
            assert(tail[0] == chars@[n as int] && tail[1] == chars@[n + 1] && tail[2] == chars@[n
                + 2] && tail[3] == chars@[n + 3] && tail[4] == chars@[n + 4] && tail[5] == chars@[n
                + 5] && tail[6] == chars@[n + 6] && tail[7] == chars@[n + 7] && tail[8] == chars@[n
                + 8]);
            assert(tail != met_suffix());
        }
    }
    if !is_met {
        return None;
    }
    let mut stem: Vec<char> = Vec::new();
    let mut i: usize = 0;
    while i < n
        invariant
            i <= n <= chars@.len(),
            stem@ == chars@.take(i as int),
        decreases n - i,
    {
        stem.push(chars[i]);
        assert(chars@.take(i + 1) =~= chars@.take(i as int).push(chars@[i as int]));
        i = i + 1;
    }
    match parse_number(&stem) {
        Some(v) => if v <= 0xFFFF_FFFF {
            Some(v as u32)
        } else {
            None
        },
        None => None,
    }
}

/// The numbers of the downloads whose sidecars are among `names`.
pub open spec fn indices_of(names: Seq<String>) -> Seq<u32>
    decreases names.len(),
{
    if names.len() == 0 {
        Seq::empty()
    } else {
        let less = indices_of(names.drop_last());
        match index_of_name(names.last()@) {
            Some(i) => less.push(i),
            None => less,
        }
    }
}

/// The numbers of the downloads to resume, from the file names of a directory: those of its
/// sidecars, in ascending order.
pub fn resume_order(names: &Vec<String>) -> (out: Vec<u32>)
    ensures
        forall|i: int, j: int| 0 <= i < j < out@.len() ==> out@[i] <= out@[j],
        out@.to_multiset() == indices_of(names@).to_multiset(),
{
    let mut out: Vec<u32> = Vec::new();
    let mut k: usize = 0;
    assert(names@.take(0) =~= Seq::empty());
    while k < names.len()
        invariant
            k <= names@.len(),
            forall|i: int, j: int| 0 <= i < j < out@.len() ==> out@[i] <= out@[j],
            out@.to_multiset() == indices_of(names@.take(k as int)).to_multiset(),
        decreases names@.len() - k,
    {
        proof {
            assert(names@.take(k + 1).drop_last() =~= names@.take(k as int));
            assert(names@.take(k + 1).last() == names@[k as int]);
        }
        if let Some(n) = part_index(names[k].as_str()) {
            let mut at: usize = 0;
            while at < out.len() && out[at] <= n
                invariant
                    at <= out@.len(),
                    forall|j: int| 0 <= j < at ==> out@[j] <= n,
                decreases out@.len() - at,
            {
                at = at + 1;
            }
            let ghost was = out@;
            out.insert(at, n);
            proof {
                broadcast use vstd::seq_lib::group_to_multiset_ensures;

                assert(out@ == was.insert(at as int, n));
                lemma_insert_multiset(was, at as int, n);
                let less = indices_of(names@.take(k as int));
                assert(indices_of(names@.take(k + 1)) == less.push(n));
                assert(less.push(n).to_multiset() =~= less.to_multiset().insert(n));
            }
        }
        k = k + 1;
    }
    assert(names@.take(k as int) =~= names@);
    out
}

proof fn lemma_insert_multiset(s: Seq<u32>, at: int, n: u32)
    requires
        0 <= at <= s.len(),
    ensures
        s.insert(at, n).to_multiset() == s.to_multiset().insert(n),
{
    broadcast use vstd::seq_lib::group_to_multiset_ensures;

    let (a, b) = (s.take(at), s.skip(at));
    assert(s =~= a + b);
    assert(s.insert(at, n) =~= a.push(n) + b);
    vstd::seq_lib::lemma_multiset_commutative(a, b);
    vstd::seq_lib::lemma_multiset_commutative(a.push(n), b);
    assert(s.insert(at, n).to_multiset() =~= s.to_multiset().insert(n));
}

/// Which priority a sidecar gives. The modern tag counts wherever it stands, the first of several;
/// the legacy one counts only where there is no modern one. Low is 0, high is 2 or automatic, and
/// all else is normal.
pub proof fn law_the_modern_priority_counts(tags: Seq<TagView>, k: int, n: u64)
    requires
        0 <= k < tags.len(),
        tags[k].value == ValueView::U32(n as u32) && n <= 0xFFFF_FFFF || tags[k].value
            == ValueView::U64(n) || tags[k].value == ValueView::U8(n as u8) && n < 256
            || tags[k].value == ValueView::U16(n as u16) && n < 65_536,
        ({
            ||| tags[k].name == NameView::Id(0x18) && forall|j: int|
                0 <= j < k ==> (#[trigger] tags[j]).name != NameView::Id(0x18)
            ||| tags[k].name == NameView::Id(0x13) && (forall|j: int|
                0 <= j < k ==> (#[trigger] tags[j]).name != NameView::Id(0x13)) && (forall|j: int|
                0 <= j < tags.len() ==> (#[trigger] tags[j]).name != NameView::Id(0x18))
        }),
    ensures
        met_priority(tags) == (if n == 0 {
            0u8
        } else if n == 2 || n == 5 {
            2u8
        } else {
            1u8
        }),
{
    if tags[k].name == NameView::Id(0x18) {
        lemma_value_at(tags, FT_DLPRIORITY, k);
    } else {
        lemma_no_value(tags, FT_DLPRIORITY);
        lemma_value_at(tags, FT_OLDDLPRIORITY, k);
    }
}

/// A download is found again by the name of its sidecar, and by no other name than a number in
/// front of the ending.
pub proof fn law_a_download_is_found_by_its_name(index: u32)
    ensures
        index_of_name(
            padded(index) + seq!['.', 'p', 'a', 'r', 't', '.', 'm', 'e', 't'],
        ) == Some(index),
        index_of_name(padded(index) + seq!['.', 'p', 'a', 'r', 't']) is None,
        padded(index).len() >= 3,
        index > 99 ==> padded(index) == text::decimal(index as nat),
{
    let suffix = seq!['.', 'p', 'a', 'r', 't', '.', 'm', 'e', 't'];
    let stem = padded(index);
    let name = stem + suffix;
    assert(name.take(name.len() - 9) =~= stem);
    assert(name.skip(name.len() - 9) =~= met_suffix());
    lemma_padded(index);
    let part = stem + seq!['.', 'p', 'a', 'r', 't'];
    if part.len() >= 9 {
        let tail = part.skip(part.len() - 9);
        assert(tail[8] == 't' && tail[7] == 'r');
        assert(met_suffix()[7] == 'e');
    }
}

proof fn lemma_padded(index: u32)
    ensures
        text::number(padded(index)) == Some(index as u64),
        padded(index).len() >= 3,
{
    let d = text::decimal(index as nat);
    text::lemma_decimal_value(index as nat);
    let p = padded(index);
    assert(text::is_digits(p)) by {
        assert forall|i: int| 0 <= i < p.len() implies '0' <= #[trigger] p[i] <= '9' by {
            if i >= p.len() - d.len() {
                assert(p[i] == d[i - (p.len() - d.len())]);
            }
        }
    }
    if index < 10 {
        assert(p =~= seq!['0', '0'] + d);
        lemma_leading_zero(seq!['0'] + d);
        lemma_leading_zero(d);
        assert(p =~= seq!['0'] + (seq!['0'] + d));
        assert(d.len() == 1);
    } else if index < 100 {
        lemma_leading_zero(d);
        assert(text::decimal(index as nat / 10).len() == 1);
        assert(d.len() == 2);
    } else {
        assert(p =~= d);
        lemma_three_digits(index as nat);
    }
    assert(p[0] != '+');
}

proof fn lemma_three_digits(n: nat)
    requires
        n >= 100,
    ensures
        text::decimal(n).len() >= 3,
{
    reveal_with_fuel(text::decimal, 3);
}

proof fn lemma_leading_zero(s: Seq<char>)
    ensures
        text::digits_value(seq!['0'] + s) == text::digits_value(s),
    decreases s.len(),
{
    let all = seq!['0'] + s;
    if s.len() == 0 {
        assert(all.drop_last() =~= Seq::empty());
        assert(all.last() == '0');
        assert(s =~= Seq::empty());
        assert(text::digits_value(Seq::empty()) == 0);
        assert(text::digits_value(all) == 0);
    } else {
        lemma_leading_zero(s.drop_last());
        assert(all.drop_last() =~= seq!['0'] + s.drop_last());
        assert(all.last() == s.last());
    }
}

/// Every sidecar is resumed and nothing else is: a number is among those to resume if and only if
/// some name is that of its sidecar.
pub proof fn law_every_sidecar_is_resumed(names: Seq<String>, index: u32)
    ensures
        indices_of(names).contains(index) <==> exists|i: int|
            0 <= i < names.len() && index_of_name((#[trigger] names[i])@) == Some(index),
        indices_of(names).len() <= names.len(),
    decreases names.len(),
{
    if names.len() > 0 {
        let less = names.drop_last();
        law_every_sidecar_is_resumed(less, index);
        let before = indices_of(less);
        let last = names[names.len() - 1];
        if let Some(n) = index_of_name(last@) {
            let all = before.push(n);
            assert(all.contains(index) <==> before.contains(index) || n == index) by {
                if before.contains(index) {
                    assert(all[before.index_of(index)] == index);
                }
                assert(all[before.len() as int] == n);
            }
        }
        if exists|i: int|
            0 <= i < less.len() && index_of_name((#[trigger] less[i])@) == Some(index) {
            let i = choose|i: int|
                0 <= i < less.len() && index_of_name((#[trigger] less[i])@) == Some(index);
            assert(index_of_name(names[i]@) == Some(index));
        }
        if exists|i: int|
            0 <= i < names.len() && index_of_name((#[trigger] names[i])@) == Some(index) {
            let i = choose|i: int|
                0 <= i < names.len() && index_of_name((#[trigger] names[i])@) == Some(index);
            if i < less.len() {
                assert(index_of_name(less[i]@) == Some(index));
            }
        }
    }
}

/// Where a gap stands in a sidecar: gap `i` is two tags, its start under the name of a tab and `i`
/// in decimal digits, its end under that of a line feed and `i`.
pub proof fn law_each_gap_is_two_tags(gaps: Seq<Gap>, large: bool, i: int)
    requires
        0 <= i < gaps.len(),
    ensures
        gap_tags(gaps, large).len() == 2 * gaps.len(),
        gap_tags(gaps, large)[2 * i].name == NameView::Str(
            seq![9u8] + encode_utf8(text::decimal(i as nat)),
        ),
        gap_tags(gaps, large)[2 * i + 1].name == NameView::Str(
            seq![10u8] + encode_utf8(text::decimal(i as nat)),
        ),
        offset_in(gap_tags(gaps, large)[2 * i].value) == Some(gaps[i].start),
        offset_in(gap_tags(gaps, large)[2 * i + 1].value) == Some(gaps[i].end),
    decreases gaps.len(),
{
    let less = gaps.drop_last();
    lemma_gap_tags_len(less, large);
    if i < less.len() {
        law_each_gap_is_two_tags(less, large, i);
        assert(less[i] == gaps[i]);
    }
}

/// Any number but zero under the status tag means paused; without the tag, or with a zero, the
/// download is not.
pub proof fn law_any_nonzero_status_pauses(tags: Seq<TagView>, k: int, n: u64)
    requires
        0 <= k < tags.len(),
        tags[k].name == NameView::Id(0x14),
        forall|j: int| 0 <= j < k ==> (#[trigger] tags[j]).name != NameView::Id(0x14),
        tags[k].value == ValueView::U32(n as u32) && n <= 0xFFFF_FFFF || tags[k].value
            == ValueView::U64(n) || tags[k].value == ValueView::U8(n as u8) && n < 256
            || tags[k].value == ValueView::U16(n as u16) && n < 65_536,
    ensures
        met_paused(tags) <==> n != 0,
        !met_paused(tags.take(k)),
{
    lemma_value_at(tags, FT_STATUS, k);
    let less = tags.take(k);
    assert forall|j: int| 0 <= j < less.len() implies (#[trigger] less[j]).name != NameView::Id(
        FT_STATUS,
    ) by {
        assert(less[j] == tags[j]);
    }
    lemma_no_value(less, FT_STATUS);
}

/// A list of numbers is read piece by piece: what stands before a comma and what stands behind it
/// are read apart, and a piece that is no number costs only itself.
pub proof fn law_a_list_is_read_piece_by_piece(a: Seq<char>, b: Seq<char>)
    ensures
        list_numbers(a + seq![','] + b) == list_numbers(a) + list_numbers(b),
{
    lemma_pieces(Seq::empty(), a, b);
}

proof fn lemma_pieces(piece: Seq<char>, a: Seq<char>, b: Seq<char>)
    ensures
        numbers_after(piece, a + seq![','] + b) == numbers_after(piece, a) + numbers_after(
            Seq::empty(),
            b,
        ),
    decreases a.len(),
{
    let all = a + seq![','] + b;
    if a.len() == 0 {
        assert(all[0] == ',');
        assert(all.skip(1) =~= b);
    } else {
        assert(all[0] == a[0]);
        assert(all.skip(1) =~= a.skip(1) + seq![','] + b);
        if a[0] == ',' {
            lemma_pieces(Seq::empty(), a.skip(1), b);
            assert(numbers_after(piece, all) =~= numbers_after(piece, a) + numbers_after(
                Seq::empty(),
                b,
            ));
        } else {
            lemma_pieces(piece.push(a[0]), a.skip(1), b);
        }
    }
}

/// What a verdict on a part does: one that fails is missing again, all of it and nothing else, and
/// is on the list of corrupted ones; one that passes is off that list and keeps its bytes; without
/// a verdict nothing changes. The lists of the other parts stay.
pub proof fn law_a_part_that_fails_is_fetched_again(
    before: &PartStore,
    after: &PartStore,
    part: u64,
    ok: Option<bool>,
    b: int,
    other: u64,
)
    requires
        after.settled(before, part, ok),
        0 <= b < before.pf.size,
        other != part,
    ensures
        after.pf.needs(b) <==> before.pf.needs(b) || ok == Some(false) && b / 9_728_000 == part,
        ok == Some(false) ==> after.pf.bad_parts().contains(part),
        ok == Some(true) ==> !after.pf.bad_parts().contains(part),
        ok is None ==> after.pf.bad_parts() == before.pf.bad_parts(),
        after.pf.bad_parts().contains(other) <==> before.pf.bad_parts().contains(other),
{
    part_file::law_each_byte_lies_in_one_part(before.pf.size, b, part as int);
    let list = before.pf.bad_parts();
    let more = list.push(part);
    assert(more[list.len() as int] == part);
    assert(more.contains(other) <==> list.contains(other)) by {
        if list.contains(other) {
            assert(more[list.index_of(other)] == other);
        }
        if more.contains(other) {
            assert(list[more.index_of(other)] == other);
        }
    }
    lemma_without_part(list, part, other);
}

proof fn lemma_without_part(list: Seq<u64>, part: u64, other: u64)
    requires
        other != part,
    ensures
        !part_file::without_part(list, part).contains(part),
        part_file::without_part(list, part).contains(other) <==> list.contains(other),
    decreases list.len(),
{
    reveal(Seq::filter);
    if list.len() > 0 {
        let less = list.drop_last();
        lemma_without_part(less, part, other);
        let kept = part_file::without_part(less, part);
        let last = list.last();
        let all = kept.push(last);
        assert(all[kept.len() as int] == last);
        assert(list[list.len() - 1] == last);
        if all.contains(part) {
            let i = all.index_of(part);
            if i < kept.len() {
                assert(kept[i] == part);
            }
        }
        if kept.contains(other) {
            assert(all[kept.index_of(other)] == other);
        }
        if all.contains(other) {
            let i = all.index_of(other);
            if i < kept.len() {
                assert(kept[i] == other);
            }
        }
        if less.contains(other) {
            assert(list[less.index_of(other)] == other);
        }
        if list.contains(other) {
            let i = list.index_of(other);
            if i < less.len() {
                assert(less[i] == other);
            }
        }
    }
}

} // verus!
