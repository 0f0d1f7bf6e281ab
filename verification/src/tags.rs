//! eD2k tags: a typed value behind a name, which is a number or a string.
//!
//! A tag is `<type><name length, 16 bits><name><value>`; a type with the high bit set is
//! followed by a one-byte name instead. A name of one byte is a number.
use vstd::prelude::*;
use crate::wire;
use crate::wire::{write_bytes, write_string_u16, write_u16, write_u32, write_u64, IoError, Reader};

verus! {

/// The name of a tag.
#[derive(Debug, Clone, PartialEq, Eq)]
pub enum TagName {
    Id(u8),
    Str(Vec<u8>),
}

/// The value of a tag.
#[derive(Debug, Clone, PartialEq, Eq)]
pub enum TagValue {
    Hash([u8; 16]),
    Str(Vec<u8>),
    U8(u8),
    U16(u16),
    U32(u32),
    U64(u64),
    /// The bits of a 32-bit floating-point number.
    F32(u32),
    Bool(u8),
    Blob(Vec<u8>),
    Bsob(Vec<u8>),
}

/// A tag.
#[derive(Debug, Clone, PartialEq, Eq)]
pub struct Tag {
    pub name: TagName,
    pub value: TagValue,
}

/// What a tag's name holds.
pub enum NameView {
    Id(u8),
    Str(Seq<u8>),
}

/// What a tag's value holds.
pub enum ValueView {
    Hash(Seq<u8>),
    Str(Seq<u8>),
    U8(u8),
    U16(u16),
    U32(u32),
    U64(u64),
    F32(u32),
    Bool(u8),
    Blob(Seq<u8>),
    Bsob(Seq<u8>),
}

/// What a tag holds.
pub struct TagView {
    pub name: NameView,
    pub value: ValueView,
}

impl View for TagName {
    type V = NameView;

    open spec fn view(&self) -> NameView {
        match self {
            TagName::Id(id) => NameView::Id(*id),
            TagName::Str(s) => NameView::Str(s@),
        }
    }
}

impl View for TagValue {
    type V = ValueView;

    open spec fn view(&self) -> ValueView {
        match self {
            TagValue::Hash(h) => ValueView::Hash(h@),
            TagValue::Str(s) => ValueView::Str(s@),
            TagValue::U8(v) => ValueView::U8(*v),
            TagValue::U16(v) => ValueView::U16(*v),
            TagValue::U32(v) => ValueView::U32(*v),
            TagValue::U64(v) => ValueView::U64(*v),
            TagValue::F32(v) => ValueView::F32(*v),
            TagValue::Bool(v) => ValueView::Bool(*v),
            TagValue::Blob(s) => ValueView::Blob(s@),
            TagValue::Bsob(s) => ValueView::Bsob(s@),
        }
    }
}

impl View for Tag {
    type V = TagView;

    open spec fn view(&self) -> TagView {
        TagView { name: self.name@, value: self.value@ }
    }
}

/// What a list of tags holds.
pub open spec fn tag_views(tags: Seq<Tag>) -> Seq<TagView> {
    tags.map_values(|t: Tag| t@)
}

impl Tag {
    /// A tag whose name is a number.
    pub fn id(id: u8, value: TagValue) -> (t: Tag)
        ensures
            t@ == (TagView { name: NameView::Id(id), value: value@ }),
    {
        Tag { name: TagName::Id(id), value }
    }

    /// Whether the tag's name is the number `id`.
    pub fn is_id(&self, id: u8) -> (is: bool)
        ensures
            is == (self@.name == NameView::Id(id)),
    {
        match &self.name {
            TagName::Id(i) => *i == id,
            TagName::Str(_) => false,
        }
    }
}

/// The type byte of a value.
pub open spec fn type_byte(v: ValueView) -> u8 {
    match v {
        ValueView::Hash(_) => 0x01,
        ValueView::Str(_) => 0x02,
        ValueView::U32(_) => 0x03,
        ValueView::F32(_) => 0x04,
        ValueView::Bool(_) => 0x05,
        ValueView::Blob(_) => 0x07,
        ValueView::U16(_) => 0x08,
        ValueView::U8(_) => 0x09,
        ValueView::Bsob(_) => 0x0A,
        ValueView::U64(_) => 0x0B,
    }
}

/// The bytes of a value.
pub open spec fn value_bytes(v: ValueView) -> Seq<u8> {
    match v {
        ValueView::Hash(h) => h,
        ValueView::Str(s) => wire::string_u16(s),
        ValueView::U32(v) => wire::le32(v),
        ValueView::F32(v) => wire::le32(v),
        ValueView::Bool(v) => seq![v],
        ValueView::Blob(s) => wire::le32(s.len() as u32) + s,
        ValueView::U16(v) => wire::le16(v),
        ValueView::U8(v) => seq![v],
        ValueView::Bsob(s) => seq![s.len() as u8] + s,
        ValueView::U64(v) => wire::le64(v),
    }
}

/// The bytes of a name, as a string.
pub open spec fn name_bytes(n: NameView) -> Seq<u8> {
    match n {
        NameView::Id(id) => seq![id],
        NameView::Str(s) => s,
    }
}

/// The bytes of a tag.
#[verifier::opaque]
pub open spec fn tag_bytes(t: TagView) -> Seq<u8> {
    seq![type_byte(t.value)] + wire::string_u16(name_bytes(t.name)) + value_bytes(t.value)
}

/// The bytes of a list of tags, one behind the other.
pub open spec fn tags_bytes(tags: Seq<TagView>) -> Seq<u8>
    decreases tags.len(),
{
    if tags.len() == 0 {
        Seq::empty()
    } else {
        tags_bytes(tags.drop_last()) + tag_bytes(tags.last())
    }
}

/// Lengths fit their fields, and a string name is not one that reads back as a number.
pub open spec fn tag_ok(t: TagView) -> bool {
    &&& match t.name {
        NameView::Id(_) => true,
        NameView::Str(s) => s.len() <= 0xFFFF && s.len() != 1,
    }
    &&& value_ok(t.value)
}

/// Lengths fit their fields.
pub open spec fn value_ok(v: ValueView) -> bool {
    match v {
        ValueView::Hash(h) => h.len() == 16,
        ValueView::Str(s) => s.len() <= 0xFFFF,
        ValueView::Blob(s) => s.len() <= 0xFFFF_FFFF,
        ValueView::Bsob(s) => s.len() <= 0xFF,
        _ => true,
    }
}

/// Append a tag.
pub fn write_tag(out: &mut Vec<u8>, t: &Tag)
    requires
        tag_ok(t@),
    ensures
        final(out)@ == old(out)@ + tag_bytes(t@),
{
    reveal(tag_bytes);
    let ghost was = out@;
    let ty: u8 = match &t.value {
        TagValue::Hash(_) => 0x01,
        TagValue::Str(_) => 0x02,
        TagValue::U32(_) => 0x03,
        TagValue::F32(_) => 0x04,
        TagValue::Bool(_) => 0x05,
        TagValue::Blob(_) => 0x07,
        TagValue::U16(_) => 0x08,
        TagValue::U8(_) => 0x09,
        TagValue::Bsob(_) => 0x0A,
        TagValue::U64(_) => 0x0B,
    };
    out.push(ty);
    match &t.name {
        TagName::Id(id) => {
            write_u16(out, 1);
            out.push(*id);
        },
        TagName::Str(s) => {
            write_string_u16(out, s.as_slice());
        },
    }
    assert(out@ =~= was + (seq![type_byte(t.value@)] + wire::string_u16(name_bytes(t.name@))));
    let ghost mid = out@;
    match &t.value {
        TagValue::Hash(h) => write_bytes(out, h.as_slice()),
        TagValue::Str(s) => write_string_u16(out, s.as_slice()),
        TagValue::U32(v) => write_u32(out, *v),
        TagValue::F32(v) => write_u32(out, *v),
        TagValue::Bool(v) => out.push(*v),
        TagValue::Blob(s) => {
            write_u32(out, s.len() as u32);
            write_bytes(out, s.as_slice());
        },
        TagValue::U16(v) => write_u16(out, *v),
        TagValue::U8(v) => out.push(*v),
        TagValue::Bsob(s) => {
            out.push(s.len() as u8);
            write_bytes(out, s.as_slice());
        },
        TagValue::U64(v) => write_u64(out, *v),
    }
    assert(out@ =~= mid + value_bytes(t.value@));
    assert(out@ =~= was + tag_bytes(t@));
}

/// Append a list of tags.
pub fn write_tags(out: &mut Vec<u8>, tags: &Vec<Tag>)
    requires
        forall|i: int| 0 <= i < tags@.len() ==> tag_ok((#[trigger] tags@[i])@),
    ensures
        final(out)@ == old(out)@ + tags_bytes(tag_views(tags@)),
{
    let mut i: usize = 0;
    assert(out@ =~= old(out)@ + tags_bytes(tag_views(tags@.take(0))));
    while i < tags.len()
        invariant
            i <= tags@.len(),
            forall|i: int| 0 <= i < tags@.len() ==> tag_ok((#[trigger] tags@[i])@),
            out@ == old(out)@ + tags_bytes(tag_views(tags@.take(i as int))),
        decreases tags@.len() - i,
    {
        write_tag(out, &tags[i]);
        proof {
            let more = tag_views(tags@.take(i + 1));
            assert(more.drop_last() =~= tag_views(tags@.take(i as int)));
            assert(more.last() == tags@[i as int]@);
            assert(out@ =~= old(out)@ + tags_bytes(more));
        }
        i = i + 1;
    }
    assert(tags@.take(i as int) =~= tags@);
}

/// The name that a string spells: of one byte it is a number.
pub open spec fn name_of(s: Seq<u8>) -> NameView {
    if s.len() == 1 {
        NameView::Id(s[0])
    } else {
        NameView::Str(s)
    }
}

/// The type byte and the name that `s` begins with.
pub open spec fn parse_tag_head(s: Seq<u8>) -> Result<((u8, NameView), Seq<u8>), IoError> {
    match wire::parse_u8(s) {
        Err(e) => Err(e),
        Ok((ty, s1)) => if ty >= 0x80 {
            match wire::parse_u8(s1) {
                Err(e) => Err(e),
                Ok((id, s2)) => Ok((((ty - 0x80) as u8, NameView::Id(id)), s2)),
            }
        } else {
            match wire::parse_string_u16(s1) {
                Err(e) => Err(e),
                Ok((n, s2)) => Ok(((ty, name_of(n)), s2)),
            }
        },
    }
}

/// The value of type `ty` that `s` begins with. The types `0x11` to `0x26` are strings of 1
/// to 22 bytes.
pub open spec fn parse_value(ty: u8, s: Seq<u8>) -> Result<(ValueView, Seq<u8>), IoError> {
    if ty == 0x01 {
        match wire::parse_bytes(s, 16) {
            Ok((h, r)) => Ok((ValueView::Hash(h), r)),
            Err(e) => Err(e),
        }
    } else if ty == 0x02 {
        match wire::parse_string_u16(s) {
            Ok((h, r)) => Ok((ValueView::Str(h), r)),
            Err(e) => Err(e),
        }
    } else if ty == 0x03 {
        match wire::parse_u32(s) {
            Ok((v, r)) => Ok((ValueView::U32(v), r)),
            Err(e) => Err(e),
        }
    } else if ty == 0x04 {
        match wire::parse_u32(s) {
            Ok((v, r)) => Ok((ValueView::F32(v), r)),
            Err(e) => Err(e),
        }
    } else if ty == 0x05 {
        match wire::parse_u8(s) {
            Ok((v, r)) => Ok((ValueView::Bool(v), r)),
            Err(e) => Err(e),
        }
    } else if ty == 0x07 {
        match wire::parse_u32(s) {
            Ok((n, r)) => match wire::parse_bytes(r, n as nat) {
                Ok((b, r2)) => Ok((ValueView::Blob(b), r2)),
                Err(e) => Err(e),
            },
            Err(e) => Err(e),
        }
    } else if ty == 0x08 {
        match wire::parse_u16(s) {
            Ok((v, r)) => Ok((ValueView::U16(v), r)),
            Err(e) => Err(e),
        }
    } else if ty == 0x09 {
        match wire::parse_u8(s) {
            Ok((v, r)) => Ok((ValueView::U8(v), r)),
            Err(e) => Err(e),
        }
    } else if ty == 0x0A {
        match wire::parse_u8(s) {
            Ok((n, r)) => match wire::parse_bytes(r, n as nat) {
                Ok((b, r2)) => Ok((ValueView::Bsob(b), r2)),
                Err(e) => Err(e),
            },
            Err(e) => Err(e),
        }
    } else if ty == 0x0B {
        match wire::parse_u64(s) {
            Ok((v, r)) => Ok((ValueView::U64(v), r)),
            Err(e) => Err(e),
        }
    } else if 0x11 <= ty <= 0x26 {
        match wire::parse_bytes(s, (ty - 0x10) as nat) {
            Ok((h, r)) => Ok((ValueView::Str(h), r)),
            Err(e) => Err(e),
        }
    } else {
        Err(IoError::BadTag(ty))
    }
}

/// The tag that `s` begins with.
#[verifier::opaque]
pub open spec fn parse_tag(s: Seq<u8>) -> Result<(TagView, Seq<u8>), IoError> {
    match parse_tag_head(s) {
        Err(e) => Err(e),
        Ok(((ty, name), s1)) => match parse_value(ty, s1) {
            Err(e) => Err(e),
            Ok((value, s2)) => Ok((TagView { name, value }, s2)),
        },
    }
}

/// The `n` tags that `s` begins with.
pub open spec fn parse_tags(s: Seq<u8>, n: nat) -> Result<(Seq<TagView>, Seq<u8>), IoError>
    decreases n,
{
    if n == 0 {
        Ok((Seq::empty(), s))
    } else {
        match parse_tag(s) {
            Err(e) => Err(e),
            Ok((t, s1)) => match parse_tags(s1, (n - 1) as nat) {
                Err(e) => Err(e),
                Ok((ts, s2)) => Ok((seq![t] + ts, s2)),
            },
        }
    }
}

fn read_value(r: &mut Reader, ty: u8) -> (v: Result<TagValue, IoError>)
    requires
        old(r).wf(),
    ensures
        final(r).wf(),
        match parse_value(ty, old(r).rest()) {
            Ok((x, rest)) => v is Ok && v->Ok_0@ == x && final(r).rest() == rest,
            Err(e) => v is Err && v->Err_0 == e,
        },
{
    if ty == 0x01 {
        Ok(TagValue::Hash(r.read_hash16()?))
    } else if ty == 0x02 {
        Ok(TagValue::Str(r.read_string_u16()?))
    } else if ty == 0x03 {
        Ok(TagValue::U32(r.read_u32()?))
    } else if ty == 0x04 {
        Ok(TagValue::F32(r.read_u32()?))
    } else if ty == 0x05 {
        Ok(TagValue::Bool(r.read_u8()?))
    } else if ty == 0x07 {
        let n: u32 = r.read_u32()?;
        Ok(TagValue::Blob(r.read_bytes(n as usize)?))
    } else if ty == 0x08 {
        Ok(TagValue::U16(r.read_u16()?))
    } else if ty == 0x09 {
        Ok(TagValue::U8(r.read_u8()?))
    } else if ty == 0x0A {
        let n: u8 = r.read_u8()?;
        Ok(TagValue::Bsob(r.read_bytes(n as usize)?))
    } else if ty == 0x0B {
        Ok(TagValue::U64(r.read_u64()?))
    } else if 0x11 <= ty && ty <= 0x26 {
        Ok(TagValue::Str(r.read_bytes((ty - 0x10) as usize)?))
    } else {
        Err(IoError::BadTag(ty))
    }
}

/// Read the tag at the cursor.
pub fn read_tag(r: &mut Reader) -> (t: Result<Tag, IoError>)
    requires
        old(r).wf(),
    ensures
        final(r).wf(),
        match parse_tag(old(r).rest()) {
            Ok((x, rest)) => t is Ok && t->Ok_0@ == x && final(r).rest() == rest,
            Err(e) => t is Err && t->Err_0 == e,
        },
{
    reveal(parse_tag);
    let mut ty: u8 = r.read_u8()?;
    let name: TagName;
    if ty >= 0x80 {
        ty = ty - 0x80;
        name = TagName::Id(r.read_u8()?);
    } else {
        let s = r.read_string_u16()?;
        if s.len() == 1 {
            name = TagName::Id(s[0]);
        } else {
            name = TagName::Str(s);
        }
    }
    let value = read_value(r, ty)?;
    Ok(Tag { name, value })
}

/// Read `n` tags.
pub fn read_tags(r: &mut Reader, n: u32) -> (tags: Result<Vec<Tag>, IoError>)
    requires
        old(r).wf(),
    ensures
        final(r).wf(),
        match parse_tags(old(r).rest(), n as nat) {
            Ok((x, rest)) => tags is Ok && tag_views(tags->Ok_0@) == x && final(r).rest() == rest,
            Err(e) => tags is Err && tags->Err_0 == e,
        },
{
    let ghost start = r.rest();
    let mut tags: Vec<Tag> = Vec::new();  // the count is not trusted: grow as read
    let mut i: u32 = 0;
    assert(tag_views(tags@) =~= Seq::empty());
    assert(forall|x: Seq<TagView>| #[trigger] (tag_views(tags@) + x) =~= x);
    while i < n
        invariant
            i <= n,
            r.wf(),
            start == old(r).rest(),
            match parse_tags(r.rest(), (n - i) as nat) {
                Ok((x, rest)) => parse_tags(start, n as nat) == Ok::<
                    (Seq<TagView>, Seq<u8>),
                    IoError,
                >((tag_views(tags@) + x, rest)),
                Err(e) => parse_tags(start, n as nat) == Err::<(Seq<TagView>, Seq<u8>), IoError>(e),
            },
        decreases n - i,
    {
        let ghost before = tag_views(tags@);
        let t = read_tag(r)?;
        tags.push(t);
        proof {
            assert(tag_views(tags@) =~= before.push(t@));
            assert forall|x: Seq<TagView>| #[trigger]
                (tag_views(tags@) + x) =~= before + (seq![t@] + x) by {}
        }
        i = i + 1;
    }
    assert(tag_views(tags@) + Seq::<TagView>::empty() =~= tag_views(tags@));
    Ok(tags)
}

/// A tag that is written is read back, and the bytes behind it are left.
pub proof fn law_tag_round_trip(t: TagView, rest: Seq<u8>)
    requires
        tag_ok(t),
    ensures
        parse_tag(tag_bytes(t) + rest) == Ok::<(TagView, Seq<u8>), IoError>((t, rest)),
{
    reveal(parse_tag);
    reveal(tag_bytes);
    let name = name_bytes(t.name);
    let s = tag_bytes(t) + rest;
    let behind = value_bytes(t.value) + rest;
    let s1 = wire::string_u16(name) + behind;
    assert(s[0] == type_byte(t.value));
    assert(s.skip(1) =~= s1);
    wire::lemma_string_round_trip(name, behind);
    match t.value {
        ValueView::Hash(h) => {
            wire::lemma_bytes_round_trip(h, rest, 16);
        },
        ValueView::Str(v) => {
            wire::lemma_string_round_trip(v, rest);
        },
        ValueView::U32(v) => {
            wire::lemma_u32_round_trip(v, rest);
        },
        ValueView::F32(v) => {
            wire::lemma_u32_round_trip(v, rest);
        },
        ValueView::Bool(v) => {
            assert(behind.skip(1) =~= rest);
        },
        ValueView::Blob(v) => {
            assert(behind =~= wire::le32(v.len() as u32) + (v + rest));
            wire::lemma_u32_round_trip(v.len() as u32, v + rest);
            wire::lemma_bytes_round_trip(v, rest, v.len());
        },
        ValueView::U16(v) => {
            wire::lemma_u16_round_trip(v, rest);
        },
        ValueView::U8(v) => {
            assert(behind.skip(1) =~= rest);
        },
        ValueView::Bsob(v) => {
            assert(behind.skip(1) =~= v + rest);
            wire::lemma_bytes_round_trip(v, rest, v.len());
        },
        ValueView::U64(v) => {
            wire::lemma_u64_round_trip(v, rest);
        },
    }
}

/// Tags that are written are read back, and the bytes behind them are left.
pub proof fn law_tags_round_trip(tags: Seq<TagView>, rest: Seq<u8>)
    requires
        forall|i: int| 0 <= i < tags.len() ==> tag_ok(#[trigger] tags[i]),
    ensures
        parse_tags(tags_bytes(tags) + rest, tags.len()) == Ok::<(Seq<TagView>, Seq<u8>), IoError>(
            (tags, rest),
        ),
    decreases tags.len(),
{
    if tags.len() == 0 {
        assert(tags_bytes(tags) + rest =~= rest);
        assert(tags =~= Seq::empty());
    } else {
        let first = tags[0];
        let others = tags.skip(1);
        lemma_tags_bytes_first(tags);
        assert(tags_bytes(tags) + rest =~= tag_bytes(first) + (tags_bytes(others) + rest));
        law_tag_round_trip(first, tags_bytes(others) + rest);
        law_tags_round_trip(others, rest);
        assert(seq![first] + others =~= tags);
    }
}

proof fn lemma_tags_bytes_first(tags: Seq<TagView>)
    requires
        tags.len() > 0,
    ensures
        tags_bytes(tags) == tag_bytes(tags[0]) + tags_bytes(tags.skip(1)),
    decreases tags.len(),
{
    let others = tags.skip(1);
    if tags.len() == 1 {
        assert(tags.drop_last() =~= Seq::empty());
        assert(others =~= Seq::empty());
        assert(tags_bytes(tags) =~= tag_bytes(tags[0]) + tags_bytes(others));
    } else {
        lemma_tags_bytes_first(tags.drop_last());
        assert(tags.drop_last().skip(1) =~= others.drop_last());
        assert(tags_bytes(tags) =~= tag_bytes(tags[0]) + tags_bytes(others));
    }
}

/// Reading tags leaves no more bytes than there were.
pub proof fn lemma_parse_tags_shrinks(s: Seq<u8>, n: nat)
    ensures
        parse_tags(s, n) matches Ok((_, rest)) ==> rest.len() <= s.len(),
    decreases n,
{
    if n > 0 {
        assert(parse_tag(s) matches Ok((_, rest)) ==> rest.len() <= s.len()) by {
            reveal(parse_tag);
        }
        if let Ok((_, s1)) = parse_tag(s) {
            lemma_parse_tags_shrinks(s1, (n - 1) as nat);
        }
    }
}

} // verus!
