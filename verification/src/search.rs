//! Server search: the search request, its answer, and the same over UDP to many servers.
//!
//! A request is a tree in prefix form: the keyword's boolean expression, joined by AND with
//! the size, type, availability and extension filters. The UDP form has the same tree.
use vstd::prelude::*;
use vstd::string::*;
use vstd::utf8::*;
use crate::proto::{Packet, PROT_EDONKEY};
use crate::query;
use crate::query::{parse_query, ExprView, QueryExpr};
use crate::tags;
use crate::tags::{read_tags, Tag, TagView};
use crate::text::{push_char, string_of};
use crate::wire;
use crate::wire::{write_string_u16, write_u16, write_u32, IoError, Reader};

verus! {

/// Server search request opcode.
pub const OP_SEARCHREQUEST: u8 = 0x16;

/// Opcode of the request for the next page of results.
pub const OP_QUERY_MORE_RESULT: u8 = 0x21;

/// Server search result opcode.
pub const OP_SEARCHRESULT: u8 = 0x33;

/// Global-search request opcode, over UDP.
pub const OP_GLOBSEARCHREQ: u8 = 0x98;

/// Global-search response opcode, over UDP.
pub const OP_GLOBSEARCHRES: u8 = 0x99;

pub const ED2K_SEARCH_OP_EQUAL: u8 = 0;

pub const ED2K_SEARCH_OP_GREATER: u8 = 1;

pub const ED2K_SEARCH_OP_LESS: u8 = 2;

pub const FT_FILESIZE: u8 = 0x02;

pub const FT_FILETYPE: u8 = 0x03;

pub const FT_FILEFORMAT: u8 = 0x04;

pub const FT_SOURCES: u8 = 0x15;

/// A server search query. Only `keyword` is required; the rest are filters.
#[derive(Debug, Clone, PartialEq, Eq)]
pub struct SearchParams {
    pub keyword: String,
    /// e.g. "Video", "Audio".
    pub file_type: Option<String>,
    pub min_size: Option<u32>,
    pub max_size: Option<u32>,
    /// Minimum availability.
    pub min_sources: Option<u32>,
    /// e.g. "avi".
    pub extension: Option<String>,
}

impl Default for SearchParams {
    fn default() -> (p: SearchParams)
        ensures
            p.keyword@ == Seq::<char>::empty(),
            p.file_type is None,
            p.min_size is None,
            p.max_size is None,
            p.min_sources is None,
            p.extension is None,
    {
        SearchParams {
            keyword: String::new(),
            file_type: None,
            min_size: None,
            max_size: None,
            min_sources: None,
            extension: None,
        }
    }
}

/// The two bytes of an operator.
pub open spec fn operator(op: u8) -> Seq<u8> {
    seq![0x00, op]
}

/// A word of the keyword.
pub open spec fn keyword_bytes(w: Seq<char>) -> Seq<u8> {
    seq![0x01u8] + wire::string_u16(encode_utf8(w))
}

/// A filter on a string tag.
pub open spec fn string_meta(id: u8, s: Seq<char>) -> Seq<u8> {
    seq![0x02u8] + wire::string_u16(encode_utf8(s)) + wire::le16(1) + seq![id]
}

/// A filter on a numeric tag.
pub open spec fn numeric_meta(id: u8, op: u8, value: u32) -> Seq<u8> {
    seq![0x03u8] + wire::le32(value) + seq![op] + wire::le16(1) + seq![id]
}

/// A query tree in prefix form.
pub open spec fn expr_bytes(e: ExprView) -> Seq<u8>
    decreases e,
{
    match e {
        ExprView::Word(w) => keyword_bytes(w),
        ExprView::And(l, r) => operator(0x00) + expr_bytes(*l) + expr_bytes(*r),
        ExprView::Or(l, r) => operator(0x01) + expr_bytes(*l) + expr_bytes(*r),
        ExprView::Not(l, r) => operator(0x02) + expr_bytes(*l) + expr_bytes(*r),
    }
}

/// The filters, each in its bytes, in the order in which they are sent. A minimum of 0
/// sources is no filter; one of `n` is "more than `n - 1`", which every server understands.
pub open spec fn filter_list(p: &SearchParams) -> Seq<Seq<u8>> {
    let none = Seq::<Seq<u8>>::empty();
    (match p.file_type {
        Some(ft) => seq![string_meta(FT_FILETYPE, ft@)],
        None => none,
    }) + (match p.min_size {
        Some(sz) => seq![numeric_meta(FT_FILESIZE, ED2K_SEARCH_OP_GREATER, sz)],
        None => none,
    }) + (match p.max_size {
        Some(sz) => seq![numeric_meta(FT_FILESIZE, ED2K_SEARCH_OP_LESS, sz)],
        None => none,
    }) + (match p.min_sources {
        Some(min) => if min > 0 {
            seq![numeric_meta(FT_SOURCES, ED2K_SEARCH_OP_GREATER, (min - 1) as u32)]
        } else {
            none
        },
        None => none,
    }) + (match p.extension {
        Some(ext) => seq![string_meta(FT_FILEFORMAT, ext@)],
        None => none,
    })
}

/// Operands joined by AND, to the right: an AND before every operand but the last.
pub open spec fn and_chain(operands: Seq<Seq<u8>>) -> Seq<u8>
    decreases operands.len(),
{
    if operands.len() == 0 {
        Seq::empty()
    } else if operands.len() == 1 {
        operands[0]
    } else {
        operator(0x00) + operands[0] + and_chain(operands.skip(1))
    }
}

/// The tree of a search request.
pub open spec fn search_tree(p: &SearchParams) -> Seq<u8> {
    and_chain(seq![expr_bytes(query::query_tree(p.keyword@))] + filter_list(p))
}

/// The texts of a search are short enough for their 16-bit lengths: each word of the keyword,
/// the file type and the extension.
pub open spec fn search_fits(p: &SearchParams) -> bool {
    &&& query::words_within(query::query_tree(p.keyword@), 0xFFFF)
    &&& p.file_type matches Some(s) ==> encode_utf8(s@).len() <= 0xFFFF
    &&& p.extension matches Some(s) ==> encode_utf8(s@).len() <= 0xFFFF
}

fn write_operator(out: &mut Vec<u8>, op: u8)
    ensures
        final(out)@ == old(out)@ + operator(op),
{
    out.push(0x00);
    out.push(op);
    assert(out@ =~= old(out)@ + operator(op));
}

/// Append a query tree in prefix form.
fn write_query_expr(out: &mut Vec<u8>, e: &QueryExpr)
    requires
        query::words_within(e@, 0xFFFF),
    ensures
        final(out)@ == old(out)@ + expr_bytes(e@),
    decreases e,
{
    match e {
        QueryExpr::Word(w) => {
            let s = string_of(w);
            out.push(0x01);
            write_string_u16(out, s.as_str().as_bytes());
            assert(out@ =~= old(out)@ + expr_bytes(e@));
        },
        QueryExpr::And(l, r) => {
            write_operator(out, 0x00);
            write_query_expr(out, l);
            write_query_expr(out, r);
            assert(out@ =~= old(out)@ + expr_bytes(e@));
        },
        QueryExpr::Or(l, r) => {
            write_operator(out, 0x01);
            write_query_expr(out, l);
            write_query_expr(out, r);
            assert(out@ =~= old(out)@ + expr_bytes(e@));
        },
        QueryExpr::Not(l, r) => {
            write_operator(out, 0x02);
            write_query_expr(out, l);
            write_query_expr(out, r);
            assert(out@ =~= old(out)@ + expr_bytes(e@));
        },
    }
}

fn string_filter(id: u8, s: &String) -> (f: Vec<u8>)
    requires
        encode_utf8(s@).len() <= 0xFFFF,
    ensures
        f@ == string_meta(id, s@),
{
    let mut f: Vec<u8> = Vec::new();
    f.push(0x02);
    write_string_u16(&mut f, s.as_str().as_bytes());
    write_u16(&mut f, 1);
    f.push(id);
    assert(f@ =~= string_meta(id, s@));
    f
}

fn numeric_filter(id: u8, op: u8, value: u32) -> (f: Vec<u8>)
    ensures
        f@ == numeric_meta(id, op, value),
{
    let mut f: Vec<u8> = Vec::new();
    f.push(0x03);
    write_u32(&mut f, value);
    f.push(op);
    write_u16(&mut f, 1);
    f.push(id);
    assert(f@ =~= numeric_meta(id, op, value));
    f
}

/// What a list of byte strings holds.
spec fn byte_views(v: Seq<Vec<u8>>) -> Seq<Seq<u8>> {
    v.map_values(|b: Vec<u8>| b@)
}

fn search_filters(p: &SearchParams) -> (fs: Vec<Vec<u8>>)
    requires
        search_fits(p),
    ensures
        byte_views(fs@) == filter_list(p),
{
    let mut fs: Vec<Vec<u8>> = Vec::new();
    if let Some(ft) = &p.file_type {
        fs.push(string_filter(FT_FILETYPE, ft));
    }
    if let Some(sz) = p.min_size {
        fs.push(numeric_filter(FT_FILESIZE, ED2K_SEARCH_OP_GREATER, sz));
    }
    if let Some(sz) = p.max_size {
        fs.push(numeric_filter(FT_FILESIZE, ED2K_SEARCH_OP_LESS, sz));
    }
    if let Some(min) = p.min_sources {
        if min > 0 {
            fs.push(numeric_filter(FT_SOURCES, ED2K_SEARCH_OP_GREATER, min - 1));
        }
    }
    if let Some(ext) = &p.extension {
        fs.push(string_filter(FT_FILEFORMAT, ext));
    }
    assert(byte_views(fs@) =~= filter_list(p));
    fs
}

/// The tree of a search request: the body of both the TCP and the UDP form.
pub fn write_search_tree(p: &SearchParams) -> (out: Vec<u8>)
    requires
        search_fits(p),
    ensures
        out@ == search_tree(p),
{
    let keyword = parse_query(p.keyword.as_str());
    let filters = search_filters(p);
    let ghost first = expr_bytes(keyword@);
    let ghost all = seq![first] + filter_list(p);
    let ghost fl = filter_list(p);
    let mut out: Vec<u8> = Vec::new();
    if filters.len() > 0 {
        write_operator(&mut out, 0x00);
    }
    write_query_expr(&mut out, &keyword);
    proof {
        assert(all.skip(1) =~= fl.skip(0));
        if fl.len() == 0 {
            assert(out@ =~= first);
        } else {
            assert(out@ + and_chain(fl.skip(0)) =~= and_chain(all));
        }
    }
    let mut i: usize = 0;
    while i < filters.len()
        invariant
            i <= filters@.len(),
            fl == byte_views(filters@),
            fl.len() == 0 ==> out@ == first,
            fl.len() > 0 ==> out@ + and_chain(fl.skip(i as int)) == and_chain(all),
        decreases filters@.len() - i,
    {
        let ghost was = out@;
        if i + 1 < filters.len() {
            write_operator(&mut out, 0x00);
        }
        crate::wire::write_bytes(&mut out, filters[i].as_slice());
        proof {
            assert(fl.skip(i as int).skip(1) =~= fl.skip(i + 1));
            assert(fl.skip(i as int)[0] == filters@[i as int]@);
            assert(out@ + and_chain(fl.skip(i + 1)) =~= was + and_chain(fl.skip(i as int)));
        }
        i = i + 1;
    }
    proof {
        if fl.len() > 0 {
            assert(fl.skip(i as int) =~= Seq::empty());
            assert(out@ + and_chain(fl.skip(i as int)) =~= out@);
        } else {
            assert(all =~= seq![first]);
        }
    }
    out
}

proof fn lemma_words_within_more(e: ExprView, a: nat, b: nat)
    requires
        query::words_within(e, a),
        a <= b,
    ensures
        query::words_within(e, b),
    decreases e,
{
    match e {
        ExprView::Word(_) => {},
        ExprView::And(l, r) => {
            lemma_words_within_more(*l, a, b);
            lemma_words_within_more(*r, a, b);
        },
        ExprView::Or(l, r) => {
            lemma_words_within_more(*l, a, b);
            lemma_words_within_more(*r, a, b);
        },
        ExprView::Not(l, r) => {
            lemma_words_within_more(*l, a, b);
            lemma_words_within_more(*r, a, b);
        },
    }
}

/// A keyword that is short as a whole has only short words.
pub proof fn law_a_short_keyword_fits(p: &SearchParams)
    requires
        encode_utf8(p.keyword@).len() <= 0xFFFF,
        p.file_type matches Some(s) ==> encode_utf8(s@).len() <= 0xFFFF,
        p.extension matches Some(s) ==> encode_utf8(s@).len() <= 0xFFFF,
    ensures
        search_fits(p),
{
    query::lemma_query_words_within(p.keyword@);
    lemma_words_within_more(
        query::query_tree(p.keyword@),
        encode_utf8(p.keyword@).len(),
        0xFFFF,
    );
}

fn short_words(e: &QueryExpr) -> (b: bool)
    ensures
        b == query::words_within(e@, 0xFFFF),
    decreases e,
{
    match e {
        QueryExpr::Word(w) => short_text(&string_of(w)),
        QueryExpr::And(l, r) => short_words(l) && short_words(r),
        QueryExpr::Or(l, r) => short_words(l) && short_words(r),
        QueryExpr::Not(l, r) => short_words(l) && short_words(r),
    }
}

fn short_text(s: &String) -> (b: bool)
    ensures
        b == (encode_utf8(s@).len() <= 0xFFFF),
{
    s.as_str().as_bytes().len() <= 0xFFFF
}

/// Whether a request can be built for the search: see [`search_fits`].
pub fn is_sendable(p: &SearchParams) -> (b: bool)
    ensures
        b == search_fits(p),
{
    if !short_words(&parse_query(p.keyword.as_str())) {
        return false;
    }
    if let Some(s) = &p.file_type {
        if !short_text(s) {
            return false;
        }
    }
    match &p.extension {
        Some(s) => short_text(s),
        None => true,
    }
}

/// Build a search request.
pub fn build_search_request(p: &SearchParams) -> (pkt: Packet)
    requires
        search_fits(p),
    ensures
        pkt.protocol == PROT_EDONKEY,
        pkt.opcode == OP_SEARCHREQUEST,
        pkt.payload@ == search_tree(p),
{
    Packet::new(PROT_EDONKEY, OP_SEARCHREQUEST, write_search_tree(p))
}

/// Build a global-search datagram: the same tree as the TCP request.
pub fn build_global_search_udp(p: &SearchParams) -> (pkt: Packet)
    requires
        search_fits(p),
    ensures
        pkt.protocol == PROT_EDONKEY,
        pkt.opcode == OP_GLOBSEARCHREQ,
        pkt.payload@ == search_tree(p),
{
    Packet::new(PROT_EDONKEY, OP_GLOBSEARCHREQ, write_search_tree(p))
}

/// The character of a hexadecimal digit, in capitals.
pub open spec fn hex_digit(n: u8) -> char {
    if n < 10 {
        (n + 48) as char
    } else {
        (n + 55) as char
    }
}

/// Bytes as hexadecimal digits, in capitals.
pub open spec fn hex(s: Seq<u8>) -> Seq<char>
    decreases s.len(),
{
    if s.len() == 0 {
        Seq::empty()
    } else {
        hex(s.drop_last()) + seq![hex_digit(s.last() / 16), hex_digit(s.last() % 16)]
    }
}

fn digit(n: u8) -> (c: char)
    requires
        n < 16,
    ensures
        c == hex_digit(n),
{
    if n < 10 {
        (n + 48) as char
    } else {
        (n + 55) as char
    }
}

/// The keyword that asks a server for the files that clients who share the file with this
/// hash also share: an ordinary keyword, `related::` and the hash in hexadecimal capitals.
pub fn related_keyword(hash: &[u8; 16]) -> (s: String)
    ensures
        s@ == seq!['r', 'e', 'l', 'a', 't', 'e', 'd', ':', ':'] + hex(hash@),
{
    let mut s: String = String::from_str("related::");
    let ghost prefix = seq!['r', 'e', 'l', 'a', 't', 'e', 'd', ':', ':'];
    proof {
        reveal_strlit("related::");
        assert(s@ =~= prefix);
        assert(s@ =~= prefix + hex(hash@.take(0)));
    }
    let mut i: usize = 0;
    while i < 16
        invariant
            i <= 16,
            s@ == prefix + hex(hash@.take(i as int)),
        decreases 16 - i,
    {
        let b: u8 = hash[i];
        push_char(&mut s, digit(b / 16));
        push_char(&mut s, digit(b % 16));
        proof {
            let more = hash@.take(i + 1);
            assert(more.drop_last() =~= hash@.take(i as int));
            assert(s@ =~= prefix + hex(more));
        }
        i = i + 1;
    }
    assert(hash@.take(16) =~= hash@);
    s
}

/// The keyword for related files is searched for as one word, colons and all.
pub proof fn law_related_keyword_is_one_leaf(hash: Seq<u8>)
    ensures
        ({
            let k = seq!['r', 'e', 'l', 'a', 't', 'e', 'd', ':', ':'] + hex(hash);
            query::query_tree(k) == ExprView::Word(k)
        }),
{
    let prefix = seq!['r', 'e', 'l', 'a', 't', 'e', 'd', ':', ':'];
    let k = prefix + hex(hash);
    lemma_hex_plain(hash);
    assert forall|i: int| 0 <= i < k.len() implies query::is_plain(#[trigger] k[i]) by {
        if i < 9 {
            assert(k[i] == prefix[i]);
        } else {
            assert(k[i] == hex(hash)[i - 9]);
        }
    }
    assert(k[0] == 'r');
    query::law_plain_word_is_a_leaf(k);
}

proof fn lemma_hex_plain(s: Seq<u8>)
    ensures
        forall|i: int| 0 <= i < hex(s).len() ==> query::is_plain(#[trigger] hex(s)[i]),
    decreases s.len(),
{
    if s.len() > 0 {
        lemma_hex_plain(s.drop_last());
        let less = hex(s.drop_last());
        assert forall|i: int| 0 <= i < hex(s).len() implies query::is_plain(#[trigger] hex(s)[i]) by {
            if i < less.len() {
                assert(hex(s)[i] == less[i]);
            } else if i == less.len() {
                assert(hex(s)[i] == hex_digit(s.last() / 16));
            } else {
                assert(hex(s)[i] == hex_digit(s.last() % 16));
            }
        }
    }
}

/// One file in a search result.
#[derive(Debug, Clone, PartialEq, Eq)]
pub struct SearchResultFile {
    pub hash: [u8; 16],
    pub id: u32,
    pub port: u16,
    pub tags: Vec<Tag>,
}

/// What a file in a search result holds.
pub struct ResultView {
    pub hash: Seq<u8>,
    pub id: u32,
    pub port: u16,
    pub tags: Seq<TagView>,
}

impl View for SearchResultFile {
    type V = ResultView;

    open spec fn view(&self) -> ResultView {
        ResultView {
            hash: self.hash@,
            id: self.id,
            port: self.port,
            tags: tags::tag_views(self.tags@),
        }
    }
}

/// What a list of files holds.
pub open spec fn result_views(files: Seq<SearchResultFile>) -> Seq<ResultView> {
    files.map_values(|f: SearchResultFile| f@)
}

/// The bytes of a result record: hash, address, port, number of tags, tags.
pub open spec fn result_bytes(f: ResultView) -> Seq<u8> {
    f.hash + wire::le32(f.id) + wire::le16(f.port) + wire::le32(f.tags.len() as u32)
        + tags::tags_bytes(f.tags)
}

/// The result record that `s` begins with.
#[verifier::opaque]
pub open spec fn parse_result(s: Seq<u8>) -> Result<(ResultView, Seq<u8>), IoError> {
    match wire::parse_bytes(s, 16) {
        Err(e) => Err(e),
        Ok((hash, s1)) => match wire::parse_u32(s1) {
            Err(e) => Err(e),
            Ok((id, s2)) => match wire::parse_u16(s2) {
                Err(e) => Err(e),
                Ok((port, s3)) => match wire::parse_u32(s3) {
                    Err(e) => Err(e),
                    Ok((n, s4)) => match tags::parse_tags(s4, n as nat) {
                        Err(e) => Err(e),
                        Ok((tags, s5)) => Ok((ResultView { hash, id, port, tags }, s5)),
                    },
                },
            },
        },
    }
}

/// The `n` result records that `s` begins with, and what stands behind them.
pub open spec fn parse_result_list(s: Seq<u8>, n: nat) -> Result<
    (Seq<ResultView>, Seq<u8>),
    IoError,
>
    decreases n,
{
    if n == 0 {
        Ok((Seq::empty(), s))
    } else {
        match parse_result(s) {
            Err(e) => Err(e),
            Ok((f, s1)) => match parse_result_list(s1, (n - 1) as nat) {
                Err(e) => Err(e),
                Ok((fs, s2)) => Ok((seq![f] + fs, s2)),
            },
        }
    }
}

/// A search result: the number of records, then the records, then what stands behind them.
pub open spec fn parse_results(s: Seq<u8>) -> Result<(Seq<ResultView>, Seq<u8>), IoError> {
    match wire::parse_u32(s) {
        Err(e) => Err(e),
        Ok((n, s1)) => parse_result_list(s1, n as nat),
    }
}

/// Read one result record. Shared by the counted and the chained form.
fn read_one_result_file(r: &mut Reader) -> (f: Result<SearchResultFile, IoError>)
    requires
        old(r).wf(),
    ensures
        final(r).wf(),
        match parse_result(old(r).rest()) {
            Ok((x, rest)) => f is Ok && f->Ok_0@ == x && final(r).rest() == rest && rest.len()
                < old(r).rest().len(),
            Err(e) => f is Err && f->Err_0 == e,
        },
{
    reveal(parse_result);
    let hash = r.read_hash16()?;
    let id: u32 = r.read_u32()?;
    let port: u16 = r.read_u16()?;
    let tagcount: u32 = r.read_u32()?;
    proof {
        tags::lemma_parse_tags_shrinks(r.rest(), tagcount as nat);
    }
    let tags = read_tags(r, tagcount)?;
    Ok(SearchResultFile { hash, id, port, tags })
}

/// Read a counted list of result records.
fn read_results(r: &mut Reader) -> (files: Result<Vec<SearchResultFile>, IoError>)
    requires
        old(r).wf(),
    ensures
        final(r).wf(),
        match parse_results(old(r).rest()) {
            Ok((x, rest)) => files is Ok && result_views(files->Ok_0@) == x && final(r).rest()
                == rest,
            Err(e) => files is Err && files->Err_0 == e,
        },
{
    let ghost whole = r.rest();
    let count: u32 = r.read_u32()?;
    let ghost start = r.rest();
    let mut out: Vec<SearchResultFile> = Vec::new();  // the count is not trusted: grow as read
    let mut i: u32 = 0;
    assert(result_views(out@) =~= Seq::empty());
    assert(forall|x: Seq<ResultView>| #[trigger] (result_views(out@) + x) =~= x);
    while i < count
        invariant
            i <= count,
            r.wf(),
            whole == old(r).rest(),
            parse_results(whole) == parse_result_list(start, count as nat),
            match parse_result_list(r.rest(), (count - i) as nat) {
                Ok((x, rest)) => parse_result_list(start, count as nat) == Ok::<
                    (Seq<ResultView>, Seq<u8>),
                    IoError,
                >((result_views(out@) + x, rest)),
                Err(e) => parse_result_list(start, count as nat) == Err::<
                    (Seq<ResultView>, Seq<u8>),
                    IoError,
                >(e),
            },
        decreases count - i,
    {
        let ghost before = result_views(out@);
        let f = read_one_result_file(r)?;
        out.push(f);
        proof {
            assert(result_views(out@) =~= before.push(f@));
            assert forall|x: Seq<ResultView>| #[trigger]
                (result_views(out@) + x) =~= before + (seq![f@] + x) by {}
        }
        i = i + 1;
    }
    assert(result_views(out@) + Seq::<ResultView>::empty() =~= result_views(out@));
    Ok(out)
}

/// Parse a search result into its files.
pub fn parse_search_result(payload: &[u8]) -> (files: Result<Vec<SearchResultFile>, IoError>)
    ensures
        match parse_results(payload@) {
            Ok((x, _)) => files is Ok && result_views(files->Ok_0@) == x,
            Err(e) => files is Err && files->Err_0 == e,
        },
{
    let mut r = Reader::new(payload);
    read_results(&mut r)
}

/// Ask a server for the next page of the last search.
pub fn build_search_more_request() -> (pkt: Packet)
    ensures
        pkt.protocol == PROT_EDONKEY,
        pkt.opcode == OP_QUERY_MORE_RESULT,
        pkt.payload@.len() == 0,
{
    Packet::new(PROT_EDONKEY, OP_QUERY_MORE_RESULT, Vec::new())
}

/// One page of a server's results.
#[derive(Debug, Clone, PartialEq, Eq)]
pub struct SearchResultPage {
    pub files: Vec<SearchResultFile>,
    /// The server holds more, and can be asked for them.
    pub more: bool,
}

/// Parse a search result with the flag that may stand behind its files.
pub fn parse_search_result_page(payload: &[u8]) -> (page: Result<SearchResultPage, IoError>)
    ensures
        match parse_results(payload@) {
            Ok((x, rest)) => {
                &&& page is Ok
                &&& result_views(page->Ok_0.files@) == x
                &&& page->Ok_0.more == (rest.len() > 0 && rest[0] != 0)
            },
            Err(e) => page is Err && page->Err_0 == e,
        },
{
    let mut r = Reader::new(payload);
    let files = read_results(&mut r)?;
    let more = match r.read_u8() {
        Ok(flag) => flag != 0,
        Err(_) => false,
    };
    Ok(SearchResultPage { files, more })
}

/// The records that follow a record in a datagram: each behind a fresh protocol byte and
/// opcode. Anything else, or a record that is cut short, ends the chain.
pub open spec fn parse_chain(s: Seq<u8>) -> Seq<ResultView>
    decreases s.len(),
{
    if s.len() >= 2 && s[0] == PROT_EDONKEY && s[1] == OP_GLOBSEARCHRES {
        match parse_result(s.skip(2)) {
            Err(_) => Seq::empty(),
            Ok((f, rest)) => if rest.len() < s.len() {
                seq![f] + parse_chain(rest)
            } else {
                seq![f]
            },
        }
    } else {
        Seq::empty()
    }
}

/// Parse a global-search datagram, behind its own protocol byte and opcode: one record,
/// then chained ones. Only a malformed first record is an error.
pub fn parse_global_search_res(payload: &[u8]) -> (files: Result<Vec<SearchResultFile>, IoError>)
    ensures
        match parse_result(payload@) {
            Ok((f, rest)) => files is Ok && result_views(files->Ok_0@) == seq![f] + parse_chain(
                rest,
            ),
            Err(e) => files is Err && files->Err_0 == e,
        },
{
    let mut r = Reader::new(payload);
    let mut out: Vec<SearchResultFile> = Vec::new();
    let first = read_one_result_file(&mut r)?;
    out.push(first);
    let ghost all = seq![first@] + parse_chain(r.rest());
    assert(result_views(out@) =~= seq![first@]);
    loop
        invariant_except_break
            result_views(out@) + parse_chain(r.rest()) == all,
        invariant
            r.wf(),
            match parse_result(payload@) {
                Ok((f, rest)) => all == seq![f] + parse_chain(rest),
                Err(e) => false,
            },
        ensures
            result_views(out@) == all,
        decreases r.rest().len(),
    {
        let ghost s = r.rest();
        if r.remaining() < 2 {
            assert(parse_chain(s) =~= Seq::empty());
            assert(result_views(out@) + parse_chain(s) =~= result_views(out@));
            break ;
        }
        let prot: u8 = r.read_u8()?;
        let op: u8 = r.read_u8()?;
        assert(r.rest() =~= s.skip(2));
        if prot != PROT_EDONKEY || op != OP_GLOBSEARCHRES {
            assert(result_views(out@) + parse_chain(s) =~= result_views(out@));
            break ;
        }
        let next = read_one_result_file(&mut r);
        match next {
            Ok(f) => {
                let ghost before = result_views(out@);
                out.push(f);
                assert(result_views(out@) =~= before.push(f@));
                assert(result_views(out@) + parse_chain(r.rest()) =~= before + parse_chain(s));
            },
            Err(_) => {
                assert(result_views(out@) + parse_chain(s) =~= result_views(out@));
                break ;
            },
        }
    }
    Ok(out)
}

/// A record that is written is read back, and the bytes behind it are left.
pub proof fn law_result_round_trip(f: ResultView, rest: Seq<u8>)
    requires
        f.hash.len() == 16,
        f.tags.len() <= 0xFFFF_FFFF,
        forall|i: int| 0 <= i < f.tags.len() ==> tags::tag_ok(#[trigger] f.tags[i]),
    ensures
        parse_result(result_bytes(f) + rest) == Ok::<(ResultView, Seq<u8>), IoError>((f, rest)),
{
    reveal(parse_result);
    let s4 = tags::tags_bytes(f.tags) + rest;
    let s3 = wire::le32(f.tags.len() as u32) + s4;
    let s2 = wire::le16(f.port) + s3;
    let s1 = wire::le32(f.id) + s2;
    assert(result_bytes(f) + rest =~= f.hash + s1);
    wire::lemma_bytes_round_trip(f.hash, s1, 16);
    wire::lemma_u32_round_trip(f.id, s2);
    wire::lemma_u16_round_trip(f.port, s3);
    wire::lemma_u32_round_trip(f.tags.len() as u32, s4);
    tags::law_tags_round_trip(f.tags, rest);
}

/// Which network a search should run on.
#[derive(Debug, Clone, Copy, PartialEq, Eq, Structural)]
pub enum SearchMethod {
    /// Server search: fast, and typically more results for a popular file.
    Server,
    /// Kad search: broader reach, no server needed.
    Kad,
}

/// Pick the network by connectivity: the server where connected, else Kad, else none.
pub fn choose_search_method(server_connected: bool, kad_ready: bool) -> (m: Option<SearchMethod>)
    ensures
        m == (if server_connected {
            Some(SearchMethod::Server)
        } else if kad_ready {
            Some(SearchMethod::Kad)
        } else {
            None
        }),
{
    if server_connected {
        Some(SearchMethod::Server)
    } else if kad_ready {
        Some(SearchMethod::Kad)
    } else {
        None
    }
}

/// A search as a server understands it.
pub enum Node {
    And(Box<Node>, Box<Node>),
    Or(Box<Node>, Box<Node>),
    /// What the left side finds and the right side does not.
    Not(Box<Node>, Box<Node>),
    Word(Seq<u8>),
    /// The text tag `id` is `value`.
    Text { id: int, value: Seq<u8> },
    /// The numeric tag `id` compares to `value` as `op` says.
    Number { id: int, op: int, value: int },
}

/// How a server reads a request: a byte that tells what follows; an operator is followed by its
/// left side and then its right side, a text by a 16-bit length, and a tag's filter by the
/// tag's name.
pub open spec fn read_node(s: Seq<u8>) -> Option<(Node, Seq<u8>)>
    decreases s.len(),
{
    if s.len() < 3 {
        None
    } else if s[0] == 0 {
        match read_node(s.skip(2)) {
            None => None,
            Some((l, more)) => if more.len() >= s.len() {
                None
            } else {
                match read_node(more) {
                    None => None,
                    Some((r, rest)) => if s[1] == 0 {
                        Some((Node::And(Box::new(l), Box::new(r)), rest))
                    } else if s[1] == 1 {
                        Some((Node::Or(Box::new(l), Box::new(r)), rest))
                    } else {
                        Some((Node::Not(Box::new(l), Box::new(r)), rest))
                    },
                }
            },
        }
    } else if s[0] == 3 {
        if s.len() < 9 {
            None
        } else {
            Some(
                (
                    Node::Number {
                        id: s[8] as int,
                        op: s[5] as int,
                        value: s[1] + 256 * s[2] + 65_536 * s[3] + 16_777_216 * s[4],
                    },
                    s.skip(9),
                ),
            )
        }
    } else {
        let n = s[1] + 256 * s[2];
        if s[0] == 1 {
            if s.len() < 3 + n {
                None
            } else {
                Some((Node::Word(s.subrange(3, 3 + n)), s.skip(3 + n)))
            }
        } else if s.len() < 6 + n {
            None
        } else {
            Some(
                (Node::Text { id: s[5 + n] as int, value: s.subrange(3, 3 + n) }, s.skip(6 + n)),
            )
        }
    }
}

/// A query as a server should understand it.
pub open spec fn meant(e: ExprView) -> Node
    decreases e,
{
    match e {
        ExprView::Word(w) => Node::Word(encode_utf8(w)),
        ExprView::And(l, r) => Node::And(Box::new(meant(*l)), Box::new(meant(*r))),
        ExprView::Or(l, r) => Node::Or(Box::new(meant(*l)), Box::new(meant(*r))),
        ExprView::Not(l, r) => Node::Not(Box::new(meant(*l)), Box::new(meant(*r))),
    }
}

proof fn lemma_read_text(kind: u8, t: Seq<u8>, behind: Seq<u8>)
    requires
        t.len() <= 0xFFFF,
    ensures
        ({
            let s = seq![kind] + wire::string_u16(t) + behind;
            &&& s.len() == 3 + t.len() + behind.len()
            &&& s[0] == kind
            &&& s[1] + 256 * s[2] == t.len()
            &&& s.subrange(3, 3 + t.len() as int) == t
            &&& s.skip(3 + t.len() as int) == behind
        }),
{
    let s = seq![kind] + wire::string_u16(t) + behind;
    assert(s.subrange(3, 3 + t.len() as int) =~= t);
    assert(s.skip(3 + t.len() as int) =~= behind);
}

proof fn lemma_read_expr(e: ExprView, rest: Seq<u8>)
    requires
        query::words_within(e, 0xFFFF),
    ensures
        read_node(expr_bytes(e) + rest) == Some((meant(e), rest)),
        expr_bytes(e).len() >= 3,
    decreases e,
{
    let s = expr_bytes(e) + rest;
    match e {
        ExprView::Word(w) => {
            lemma_read_text(0x01, encode_utf8(w), rest);
        },
        ExprView::And(l, r) => {
            lemma_read_expr(*l, expr_bytes(*r) + rest);
            lemma_read_expr(*r, rest);
            assert(s.skip(2) =~= expr_bytes(*l) + (expr_bytes(*r) + rest));
        },
        ExprView::Or(l, r) => {
            lemma_read_expr(*l, expr_bytes(*r) + rest);
            lemma_read_expr(*r, rest);
            assert(s.skip(2) =~= expr_bytes(*l) + (expr_bytes(*r) + rest));
        },
        ExprView::Not(l, r) => {
            lemma_read_expr(*l, expr_bytes(*r) + rest);
            lemma_read_expr(*r, rest);
            assert(s.skip(2) =~= expr_bytes(*l) + (expr_bytes(*r) + rest));
        },
    }
}

/// The bytes stand for the node, whatever follows them.
spec fn stands_for(bytes: Seq<u8>, node: Node) -> bool {
    &&& bytes.len() >= 3
    &&& forall|rest: Seq<u8>| #[trigger] read_node(bytes + rest) == Some((node, rest))
}

proof fn lemma_string_meta(id: u8, t: Seq<char>)
    requires
        encode_utf8(t).len() <= 0xFFFF,
    ensures
        stands_for(
            string_meta(id, t),
            Node::Text { id: id as int, value: encode_utf8(t) },
        ),
{
    let bytes = string_meta(id, t);
    assert forall|rest: Seq<u8>| #[trigger] read_node(bytes + rest) == Some(
        (Node::Text { id: id as int, value: encode_utf8(t) }, rest),
    ) by {
        let behind = wire::le16(1) + seq![id] + rest;
        lemma_read_text(0x02, encode_utf8(t), behind);
        let s = seq![0x02u8] + wire::string_u16(encode_utf8(t)) + behind;
        assert(bytes + rest =~= s);
        let n = encode_utf8(t).len() as int;
        assert(s[5 + n] == s.skip(3 + n)[2]);
        assert(s.skip(6 + n) =~= rest);
    }
}

proof fn lemma_numeric_meta(id: u8, op: u8, value: u32)
    ensures
        stands_for(
            numeric_meta(id, op, value),
            Node::Number { id: id as int, op: op as int, value: value as int },
        ),
{
    let bytes = numeric_meta(id, op, value);
    assert forall|rest: Seq<u8>| #[trigger] read_node(bytes + rest) == Some(
        (Node::Number { id: id as int, op: op as int, value: value as int }, rest),
    ) by {
        let s = bytes + rest;
        assert(s.len() == 9 + rest.len());
        assert(s[0] == 3 && s[1] == wire::le32(value)[0] && s[2] == wire::le32(value)[1] && s[3]
            == wire::le32(value)[2] && s[4] == wire::le32(value)[3] && s[5] == op && s[8] == id);
        assert(s.skip(9) =~= rest);
    }
}

/// Nodes joined by AND, to the right.
pub open spec fn all_of(nodes: Seq<Node>) -> Node
    decreases nodes.len(),
{
    if nodes.len() <= 1 {
        nodes[0]
    } else {
        Node::And(Box::new(nodes[0]), Box::new(all_of(nodes.skip(1))))
    }
}

proof fn lemma_and_chain(bytes: Seq<Seq<u8>>, nodes: Seq<Node>)
    requires
        bytes.len() == nodes.len(),
        bytes.len() > 0,
        forall|i: int| 0 <= i < bytes.len() ==> stands_for(#[trigger] bytes[i], nodes[i]),
    ensures
        stands_for(and_chain(bytes), all_of(nodes)),
    decreases bytes.len(),
{
    let all = and_chain(bytes);
    assert(stands_for(bytes[0], nodes[0]));
    if bytes.len() == 1 {
    } else {
        let (b, n) = (bytes.skip(1), nodes.skip(1));
        assert forall|i: int| 0 <= i < b.len() implies stands_for(#[trigger] b[i], n[i]) by {
            assert(stands_for(bytes[i + 1], nodes[i + 1]));
        }
        lemma_and_chain(b, n);
        assert forall|rest: Seq<u8>| #[trigger] read_node(all + rest) == Some(
            (all_of(nodes), rest),
        ) by {
            let s = all + rest;
            let more = and_chain(b) + rest;
            assert(s.skip(2) =~= bytes[0] + more);
            assert(read_node(bytes[0] + more) == Some((nodes[0], more)));
            assert(read_node(more) == Some((all_of(n), rest)));
        }
    }
}

/// The filters as a server should understand them: the type of file, a size above the one and
/// below the other, a number of sources above one less than the least wanted, and the extension.
pub open spec fn wanted_filters(p: &SearchParams) -> Seq<Node> {
    let none = Seq::<Node>::empty();
    (match p.file_type {
        Some(t) => seq![Node::Text { id: 3, value: encode_utf8(t@) }],
        None => none,
    }) + (match p.min_size {
        Some(n) => seq![Node::Number { id: 2, op: 1, value: n as int }],
        None => none,
    }) + (match p.max_size {
        Some(n) => seq![Node::Number { id: 2, op: 2, value: n as int }],
        None => none,
    }) + (match p.min_sources {
        Some(n) => if n > 0 {
            seq![Node::Number { id: 0x15, op: 1, value: n - 1 }]
        } else {
            none
        },
        None => none,
    }) + (match p.extension {
        Some(t) => seq![Node::Text { id: 4, value: encode_utf8(t@) }],
        None => none,
    })
}

/// A server that reads the request understands what was searched for: the query, with its operators
/// and their sides as they were meant, and all of the filters.
pub proof fn law_a_server_understands_the_search(p: &SearchParams)
    requires
        search_fits(p),
    ensures
        read_node(search_tree(p)) == Some(
            (
                all_of(seq![meant(query::query_tree(p.keyword@))] + wanted_filters(p)),
                Seq::<u8>::empty(),
            ),
        ),
{
    let e = query::query_tree(p.keyword@);
    let first = expr_bytes(e);
    let none = Seq::<u8>::empty();
    assert forall|rest: Seq<u8>| #[trigger] read_node(first + rest) == Some((meant(e), rest)) by {
        lemma_read_expr(e, rest);
    }
    lemma_read_expr(e, none);
    if let Some(t) = p.file_type {
        lemma_string_meta(FT_FILETYPE, t@);
    }
    if let Some(n) = p.min_size {
        lemma_numeric_meta(FT_FILESIZE, ED2K_SEARCH_OP_GREATER, n);
    }
    if let Some(n) = p.max_size {
        lemma_numeric_meta(FT_FILESIZE, ED2K_SEARCH_OP_LESS, n);
    }
    if let Some(n) = p.min_sources {
        if n > 0 {
            lemma_numeric_meta(FT_SOURCES, ED2K_SEARCH_OP_GREATER, (n - 1) as u32);
        }
    }
    if let Some(t) = p.extension {
        lemma_string_meta(FT_FILEFORMAT, t@);
    }
    let bytes = seq![first] + filter_list(p);
    let nodes = seq![meant(e)] + wanted_filters(p);
    assert(bytes.len() == nodes.len());
    assert forall|i: int| 0 <= i < bytes.len() implies stands_for(#[trigger] bytes[i], nodes[i]) by {
    }
    lemma_and_chain(bytes, nodes);
    assert(search_tree(p) + none =~= search_tree(p));
}

/// Records one behind the other.
pub open spec fn results_bytes(fs: Seq<ResultView>) -> Seq<u8>
    decreases fs.len(),
{
    if fs.len() == 0 {
        Seq::empty()
    } else {
        result_bytes(fs[0]) + results_bytes(fs.skip(1))
    }
}

/// A record that can be written.
pub open spec fn result_ok(f: ResultView) -> bool {
    &&& f.hash.len() == 16
    &&& f.tags.len() <= 0xFFFF_FFFF
    &&& forall|i: int| 0 <= i < f.tags.len() ==> tags::tag_ok(#[trigger] f.tags[i])
}

/// A page of results is read back whole: every file, in its order, and what stands behind them is
/// left for the flag.
pub proof fn law_a_page_is_read_whole(fs: Seq<ResultView>, rest: Seq<u8>)
    requires
        fs.len() <= 0xFFFF_FFFF,
        forall|i: int| 0 <= i < fs.len() ==> result_ok(#[trigger] fs[i]),
    ensures
        parse_results(wire::le32(fs.len() as u32) + results_bytes(fs) + rest) == Ok::<
            (Seq<ResultView>, Seq<u8>),
            IoError,
        >((fs, rest)),
{
    let body = results_bytes(fs) + rest;
    assert(wire::le32(fs.len() as u32) + results_bytes(fs) + rest =~= wire::le32(fs.len() as u32)
        + body);
    wire::lemma_u32_round_trip(fs.len() as u32, body);
    lemma_result_list(fs, rest);
}

proof fn lemma_result_list(fs: Seq<ResultView>, rest: Seq<u8>)
    requires
        forall|i: int| 0 <= i < fs.len() ==> result_ok(#[trigger] fs[i]),
    ensures
        parse_result_list(results_bytes(fs) + rest, fs.len()) == Ok::<
            (Seq<ResultView>, Seq<u8>),
            IoError,
        >((fs, rest)),
    decreases fs.len(),
{
    if fs.len() == 0 {
        assert(results_bytes(fs) + rest =~= rest);
        assert(fs =~= Seq::empty());
    } else {
        let more = fs.skip(1);
        assert(result_ok(fs[0]));
        assert forall|i: int| 0 <= i < more.len() implies result_ok(#[trigger] more[i]) by {
            assert(more[i] == fs[i + 1]);
        }
        lemma_result_list(more, rest);
        law_result_round_trip(fs[0], results_bytes(more) + rest);
        assert(results_bytes(fs) + rest =~= result_bytes(fs[0]) + (results_bytes(more) + rest));
        assert(seq![fs[0]] + more =~= fs);
    }
}

/// Records each behind a fresh protocol byte and opcode.
pub open spec fn chain_bytes(fs: Seq<ResultView>) -> Seq<u8>
    decreases fs.len(),
{
    if fs.len() == 0 {
        Seq::empty()
    } else {
        seq![0xE3u8, 0x99] + result_bytes(fs[0]) + chain_bytes(fs.skip(1))
    }
}

/// A chain of records in a datagram is read up to its end: every record, and nothing of what
/// follows, where that does not begin as a record of the chain does.
pub proof fn law_a_chain_is_read_to_its_end(fs: Seq<ResultView>, rest: Seq<u8>)
    requires
        forall|i: int| 0 <= i < fs.len() ==> result_ok(#[trigger] fs[i]),
        rest.len() < 2 || rest[0] != 0xE3 || rest[1] != 0x99,
    ensures
        parse_chain(chain_bytes(fs) + rest) == fs,
    decreases fs.len(),
{
    if fs.len() == 0 {
        assert(chain_bytes(fs) + rest =~= rest);
        assert(parse_chain(rest) =~= fs);
    } else {
        let more = fs.skip(1);
        assert(result_ok(fs[0]));
        assert forall|i: int| 0 <= i < more.len() implies result_ok(#[trigger] more[i]) by {
            assert(more[i] == fs[i + 1]);
        }
        law_a_chain_is_read_to_its_end(more, rest);
        let s = chain_bytes(fs) + rest;
        let behind = chain_bytes(more) + rest;
        assert(s.skip(2) =~= result_bytes(fs[0]) + behind);
        law_result_round_trip(fs[0], behind);
        assert(s[0] == 0xE3 && s[1] == 0x99);
        assert(seq![fs[0]] + more =~= fs);
    }
}

} // verus!
