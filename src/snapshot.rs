use vstd::prelude::*;
use vstd::utf8::{
    decode_utf8, decode_utf8_encode_utf8, encode_utf8, encode_utf8_decode_utf8, encode_utf8_valid_utf8,
    valid_utf8,
};
use byteorder::ByteOrder;
use crate::cluster::{tokens_view, LogCluster, Template};
use crate::parser::{DrainParser, LengthGroup, SignatureCluster};

verus! {

pub const DRAIN_MAGIC: u32 = 0x94067823;
pub const CURR_DRAIN_MODEL_VERSION: u32 = 1;
pub const BEGIN_CLUSTER_GROUP: u16 = 0x01;
pub const END_CLUSTER_GROUP: u16 = 0x02;
pub const BEGIN_EVENT_GROUP: u16 = 0x03;
pub const END_EVENT_GROUP: u16 = 0x04;
pub const BEGIN_TEMPLATE: u16 = 0x05;
pub const END_TEMPLATE: u16 = 0x06;

/// The four little-endian bytes of `x`.
pub open spec fn le32(x: u32) -> Seq<u8> {
    seq![(x & 0xff) as u8, ((x >> 8u32) & 0xff) as u8, ((x >> 16u32) & 0xff) as u8, ((x >> 24u32) & 0xff) as u8]
}

/// The two little-endian bytes of `x`.
pub open spec fn le16(x: u16) -> Seq<u8> {
    seq![(x & 0xff) as u8, ((x >> 8u16) & 0xff) as u8]
}

/// The integer whose little-endian bytes start `b`.
pub open spec fn u32_of(b: Seq<u8>) -> u32 {
    (b[0] as u32) | ((b[1] as u32) << 8u32) | ((b[2] as u32) << 16u32) | ((b[3] as u32) << 24u32)
}

/// The integer whose little-endian bytes start `b`.
pub open spec fn u16_of(b: Seq<u8>) -> u16 {
    (b[0] as u16) | ((b[1] as u16) << 8u16)
}

/// A string as its byte length and its UTF-8 bytes.
pub open spec fn enc_str(s: Seq<char>) -> Seq<u8> {
    le32(encode_utf8(s).len() as u32) + encode_utf8(s)
}

/// The first `k` tokens, one after the other.
pub open spec fn enc_tokens(ts: Seq<String>, k: int) -> Seq<u8>
    decreases k,
{
    if k <= 0 {
        Seq::empty()
    } else {
        enc_tokens(ts, k - 1) + enc_str(ts[k - 1]@)
    }
}

pub open spec fn template_body(t: Template) -> Seq<u8> {
    le32(t.id as u32) + le32(t.count as u32) + le32(t.tokens.len() as u32) + enc_tokens(
        t.tokens@,
        t.tokens.len() as int,
    )
}

pub open spec fn enc_template(t: Template) -> Seq<u8> {
    le16(BEGIN_TEMPLATE) + template_body(t)
}

pub open spec fn enc_templates(ts: Seq<Template>, k: int) -> Seq<u8>
    decreases k,
{
    if k <= 0 {
        Seq::empty()
    } else {
        enc_templates(ts, k - 1) + enc_template(ts[k - 1])
    }
}

pub open spec fn cluster_body(sc: SignatureCluster) -> Seq<u8> {
    enc_str(sc.signature@) + enc_templates(sc.cluster.templates@, sc.cluster.templates.len() as int)
        + le16(END_TEMPLATE)
}

pub open spec fn enc_cluster(sc: SignatureCluster) -> Seq<u8> {
    le16(BEGIN_EVENT_GROUP) + cluster_body(sc)
}

pub open spec fn enc_clusters(cs: Seq<SignatureCluster>, k: int) -> Seq<u8>
    decreases k,
{
    if k <= 0 {
        Seq::empty()
    } else {
        enc_clusters(cs, k - 1) + enc_cluster(cs[k - 1])
    }
}

pub open spec fn group_body(g: LengthGroup) -> Seq<u8> {
    le32(g.len as u32) + enc_clusters(g.clusters@, g.clusters.len() as int) + le16(END_EVENT_GROUP)
}

pub open spec fn enc_group(g: LengthGroup) -> Seq<u8> {
    le16(BEGIN_CLUSTER_GROUP) + group_body(g)
}

pub open spec fn enc_groups(gs: Seq<LengthGroup>, k: int) -> Seq<u8>
    decreases k,
{
    if k <= 0 {
        Seq::empty()
    } else {
        enc_groups(gs, k - 1) + enc_group(gs[k - 1])
    }
}

/// The snapshot of an engine: magic, version and counter, then each length
/// group with its clusters and their templates, each level closed by its tag.
pub open spec fn encode(p: DrainParser) -> Seq<u8> {
    le32(DRAIN_MAGIC) + le32(CURR_DRAIN_MODEL_VERSION) + le32(p.new_id as u32) + enc_groups(
        p.parsers@,
        p.parsers.len() as int,
    ) + le16(END_CLUSTER_GROUP)
}

fn push_u32(out: &mut Vec<u8>, x: u32)
    ensures
        final(out)@ == old(out)@ + le32(x),
{
    out.push((x & 0xff) as u8);
    out.push(((x >> 8u32) & 0xff) as u8);
    out.push(((x >> 16u32) & 0xff) as u8);
    out.push(((x >> 24u32) & 0xff) as u8);
    assert(out@ =~= old(out)@ + le32(x));
}

fn push_u16(out: &mut Vec<u8>, x: u16)
    ensures
        final(out)@ == old(out)@ + le16(x),
{
    out.push((x & 0xff) as u8);
    out.push(((x >> 8u16) & 0xff) as u8);
    assert(out@ =~= old(out)@ + le16(x));
}

fn push_str(out: &mut Vec<u8>, s: &String)
    ensures
        final(out)@ == old(out)@ + enc_str(s@),
{
    let b = s.as_str().as_bytes();
    push_u32(out, b.len() as u32);
    let ghost mid = out@;
    let mut i: usize = 0;
    while i < b.len()
        invariant
            i <= b@.len(),
            b@ == encode_utf8(s@),
            out@ == mid + b@.subrange(0, i as int),
        decreases b.len() - i,
    {
        out.push(b[i]);
        i = i + 1;
        assert(out@ =~= mid + b@.subrange(0, i as int));
    }
    assert(b@.subrange(0, i as int) =~= b@);
    assert(out@ =~= old(out)@ + enc_str(s@));
}

fn push_template(out: &mut Vec<u8>, t: &Template)
    ensures
        final(out)@ == old(out)@ + enc_template(*t),
{
    push_u16(out, BEGIN_TEMPLATE);
    push_u32(out, t.id as u32);
    push_u32(out, t.count as u32);
    push_u32(out, t.tokens.len() as u32);
    let ghost mid = out@;
    let mut i: usize = 0;
    while i < t.tokens.len()
        invariant
            i <= t.tokens@.len(),
            out@ == mid + enc_tokens(t.tokens@, i as int),
        decreases t.tokens.len() - i,
    {
        push_str(out, &t.tokens[i]);
        i = i + 1;
        assert(out@ =~= mid + enc_tokens(t.tokens@, i as int));
    }
    assert(out@ =~= old(out)@ + enc_template(*t));
}

fn push_cluster(out: &mut Vec<u8>, sc: &SignatureCluster)
    ensures
        final(out)@ == old(out)@ + enc_cluster(*sc),
{
    push_u16(out, BEGIN_EVENT_GROUP);
    push_str(out, &sc.signature);
    let ghost mid = out@;
    let ts = &sc.cluster.templates;
    let mut i: usize = 0;
    while i < ts.len()
        invariant
            i <= ts@.len(),
            out@ == mid + enc_templates(ts@, i as int),
        decreases ts.len() - i,
    {
        push_template(out, &ts[i]);
        i = i + 1;
        assert(out@ =~= mid + enc_templates(ts@, i as int));
    }
    push_u16(out, END_TEMPLATE);
    assert(out@ =~= old(out)@ + enc_cluster(*sc));
}

fn push_group(out: &mut Vec<u8>, g: &LengthGroup)
    ensures
        final(out)@ == old(out)@ + enc_group(*g),
{
    push_u16(out, BEGIN_CLUSTER_GROUP);
    push_u32(out, g.len as u32);
    let ghost mid = out@;
    let mut i: usize = 0;
    while i < g.clusters.len()
        invariant
            i <= g.clusters@.len(),
            out@ == mid + enc_clusters(g.clusters@, i as int),
        decreases g.clusters.len() - i,
    {
        push_cluster(out, &g.clusters[i]);
        i = i + 1;
        assert(out@ =~= mid + enc_clusters(g.clusters@, i as int));
    }
    push_u16(out, END_EVENT_GROUP);
    assert(out@ =~= old(out)@ + enc_group(*g));
}

/// Why a snapshot could not be loaded.
#[derive(Debug, PartialEq, Eq)]
pub enum LoadError {
    /// The stream does not start with the snapshot magic number.
    InvalidMagic,
    /// The snapshot was written by a format version this library does not read.
    UnknownVersion,
    /// The stream ends inside the snapshot.
    Truncated,
    /// A tag other than the ones the format allows at that place.
    UnexpectedTag,
    /// A string whose bytes are not UTF-8.
    InvalidUtf8,
}

impl LoadError {
    /// A message that names what failed.
    pub fn message(&self) -> (r: &'static str) {
        match self {
            LoadError::InvalidMagic => "invalid magic",
            LoadError::UnknownVersion => "unknown version",
            LoadError::Truncated => "truncated snapshot",
            LoadError::UnexpectedTag => "unexpected tag",
            LoadError::InvalidUtf8 => "string is not UTF-8",
        }
    }
}

/// Relies on byteorder's `LittleEndian::read_u32`: the first four bytes of
/// its argument, little-endian.
#[verifier::external_body]
fn read_u32_at(buf: &[u8], pos: usize) -> (r: u32)
    requires
        pos + 4 <= buf@.len(),
    ensures
        r == u32_of(buf@.skip(pos as int)),
{
    byteorder::LittleEndian::read_u32(&buf[pos..])
}

/// Relies on byteorder's `LittleEndian::read_u16`: the first two bytes of
/// its argument, little-endian.
#[verifier::external_body]
fn read_u16_at(buf: &[u8], pos: usize) -> (r: u16)
    requires
        pos + 2 <= buf@.len(),
    ensures
        r == u16_of(buf@.skip(pos as int)),
{
    byteorder::LittleEndian::read_u16(&buf[pos..])
}

/// Relies on `String::from_utf8`: the text of the bytes, or an error where
/// they are not UTF-8.
#[verifier::external_body]
fn string_from_utf8(b: Vec<u8>) -> (r: Option<String>)
    ensures
        r is Some <==> valid_utf8(b@),
        r is Some ==> r->0@ == decode_utf8(b@),
{
    String::from_utf8(b).ok()
}

/// Four bytes are the little-endian form of the integer they spell.
pub proof fn lemma_le32_of_u32(b: Seq<u8>)
    requires
        b.len() >= 4,
    ensures
        le32(u32_of(b)) == b.subrange(0, 4),
{
    let (b0, b1, b2, b3) = (b[0], b[1], b[2], b[3]);
    let x = u32_of(b);
    assert((x & 0xff) as u8 == b0 && ((x >> 8u32) & 0xff) as u8 == b1
        && ((x >> 16u32) & 0xff) as u8 == b2 && ((x >> 24u32) & 0xff) as u8 == b3) by (bit_vector)
        requires
            x == (b0 as u32) | ((b1 as u32) << 8u32) | ((b2 as u32) << 16u32) | ((b3 as u32) << 24u32),
    ;
    assert(le32(x) =~= b.subrange(0, 4));
}

/// Two bytes are the little-endian form of the integer they spell.
pub proof fn lemma_le16_of_u16(b: Seq<u8>)
    requires
        b.len() >= 2,
    ensures
        le16(u16_of(b)) == b.subrange(0, 2),
{
    let (b0, b1) = (b[0], b[1]);
    let x = u16_of(b);
    assert((x & 0xff) as u8 == b0 && ((x >> 8u16) & 0xff) as u8 == b1) by (bit_vector)
        requires
            x == (b0 as u16) | ((b1 as u16) << 8u16),
    ;
    assert(le16(x) =~= b.subrange(0, 2));
}

/// Whether `s` stands in `b` from `pos` on.
pub open spec fn stands_at(b: Seq<u8>, pos: int, s: Seq<u8>) -> bool {
    0 <= pos && pos + s.len() <= b.len() && b.subrange(pos, pos + s.len()) == s
}

proof fn lemma_stands_split(b: Seq<u8>, pos: int, s1: Seq<u8>, s2: Seq<u8>)
    requires
        stands_at(b, pos, s1 + s2),
    ensures
        stands_at(b, pos, s1),
        stands_at(b, pos + s1.len(), s2),
{
    let big = b.subrange(pos, pos + s1.len() + s2.len());
    assert(big == s1 + s2);
    assert(b.subrange(pos, pos + s1.len()) =~= big.subrange(0, s1.len() as int));
    assert(big.subrange(0, s1.len() as int) =~= s1);
    assert(b.subrange(pos + s1.len(), pos + s1.len() + s2.len()) =~= big.subrange(
        s1.len() as int,
        big.len() as int,
    ));
    assert(big.subrange(s1.len() as int, big.len() as int) =~= s2);
}

/// An integer is read back from its little-endian bytes.
pub proof fn lemma_u32_of_le32(v: u32)
    ensures
        u32_of(le32(v)) == v,
{
    let b = le32(v);
    let (b0, b1, b2, b3) = (b[0], b[1], b[2], b[3]);
    assert((b0 as u32) | ((b1 as u32) << 8u32) | ((b2 as u32) << 16u32) | ((b3 as u32) << 24u32) == v)
        by (bit_vector)
        requires
            b0 == (v & 0xff) as u8,
            b1 == ((v >> 8u32) & 0xff) as u8,
            b2 == ((v >> 16u32) & 0xff) as u8,
            b3 == ((v >> 24u32) & 0xff) as u8,
    ;
}

/// A tag is read back from its little-endian bytes.
pub proof fn lemma_u16_of_le16(v: u16)
    ensures
        u16_of(le16(v)) == v,
{
    let b = le16(v);
    let (b0, b1) = (b[0], b[1]);
    assert((b0 as u16) | ((b1 as u16) << 8u16) == v) by (bit_vector)
        requires
            b0 == (v & 0xff) as u8,
            b1 == ((v >> 8u16) & 0xff) as u8,
    ;
}

/// The integer at `pos`, and where it ends.
fn take_u32(b: &[u8], pos: usize) -> (r: Result<(u32, usize), LoadError>)
    requires
        pos <= b@.len(),
    ensures
        r is Ok <==> pos + 4 <= b@.len(),
        r matches Ok((x, p)) ==> p == pos + 4 && b@.subrange(pos as int, p as int) == le32(x) && x == u32_of(
            b@.skip(pos as int),
        ),
        r matches Err(e) ==> e == LoadError::Truncated,
        forall|v: u32| #[trigger] stands_at(b@, pos as int, le32(v)) ==> r == Ok::<(u32, usize), LoadError>((v, (pos + 4) as usize)),
{
    proof {
        assert forall|v: u32| #[trigger] stands_at(b@, pos as int, le32(v)) implies u32_of(b@.skip(pos as int)) == v by {
            lemma_u32_of_le32(v);
            assert(b@.skip(pos as int).subrange(0, 4) =~= le32(v));
        }
    }
    if b.len() - pos < 4 {
        return Err(LoadError::Truncated);
    }
    let x = read_u32_at(b, pos);
    proof {
        lemma_le32_of_u32(b@.skip(pos as int));
        assert(b@.skip(pos as int).subrange(0, 4) =~= b@.subrange(pos as int, pos + 4));
    }
    Ok((x, pos + 4))
}

/// The tag at `pos`, and where it ends.
fn take_u16(b: &[u8], pos: usize) -> (r: Result<(u16, usize), LoadError>)
    requires
        pos <= b@.len(),
    ensures
        r is Ok <==> pos + 2 <= b@.len(),
        r matches Ok((x, p)) ==> p == pos + 2 && b@.subrange(pos as int, p as int) == le16(x) && x == u16_of(
            b@.skip(pos as int),
        ),
        r matches Err(e) ==> e == LoadError::Truncated,
        forall|v: u16| #[trigger] stands_at(b@, pos as int, le16(v)) ==> r == Ok::<(u16, usize), LoadError>((v, (pos + 2) as usize)),
{
    proof {
        assert forall|v: u16| #[trigger] stands_at(b@, pos as int, le16(v)) implies u16_of(b@.skip(pos as int)) == v by {
            lemma_u16_of_le16(v);
            assert(b@.skip(pos as int).subrange(0, 2) =~= le16(v));
        }
    }
    if b.len() - pos < 2 {
        return Err(LoadError::Truncated);
    }
    let x = read_u16_at(b, pos);
    proof {
        lemma_le16_of_u16(b@.skip(pos as int));
        assert(b@.skip(pos as int).subrange(0, 2) =~= b@.subrange(pos as int, pos + 2));
    }
    Ok((x, pos + 2))
}

/// The string's bytes fit the 32-bit length prefix.
pub open spec fn str_fits(s: Seq<char>) -> bool {
    encode_utf8(s).len() <= u32::MAX
}

/// The length-prefixed string at `pos`, and where it ends; where the
/// encoding of `want` stands there, that string.
fn take_str(b: &[u8], pos: usize, Ghost(want): Ghost<Seq<char>>) -> (r: Result<(String, usize), LoadError>)
    requires
        pos <= b@.len(),
    ensures
        r matches Ok((s, p)) ==> pos <= p <= b@.len() && b@.subrange(pos as int, p as int) == enc_str(s@),
        str_fits(want) && stands_at(b@, pos as int, enc_str(want)) ==> (r matches Ok((s, p)) && s@ == want
            && p == pos + enc_str(want).len()),
{
    let ghost good = str_fits(want) && stands_at(b@, pos as int, enc_str(want));
    let ghost wb = encode_utf8(want);
    assert(good ==> stands_at(b@, pos as int, le32(wb.len() as u32)) && stands_at(b@, pos + 4, wb)) by {
        if good {
            lemma_stands_split(b@, pos as int, le32(wb.len() as u32), wb);
        }
    }
    let (n, p) = take_u32(b, pos)?;
    let n = n as usize;
    if b.len() - p < n {
        return Err(LoadError::Truncated);
    }
    let mut v: Vec<u8> = Vec::new();
    let mut i: usize = 0;
    while i < n
        invariant
            p + n <= b.len(),
            i <= n,
            v@ == b@.subrange(p as int, p + i),
        decreases n - i,
    {
        v.push(b[p + i]);
        i = i + 1;
        assert(v@ =~= b@.subrange(p as int, p + i));
    }
    let ghost bytes = v@;
    proof {
        if good {
            assert(bytes == wb);
            encode_utf8_valid_utf8(want);
            encode_utf8_decode_utf8(want);
        }
    }
    match string_from_utf8(v) {
        Some(s) => {
            proof {
                decode_utf8_encode_utf8(bytes);
                assert(b@.subrange(pos as int, (p + n) as int) =~= b@.subrange(pos as int, p as int) + bytes);
            }
            Ok((s, p + n))
        },
        None => Err(LoadError::InvalidUtf8),
    }
}

/// The numbers of a template fit their 32-bit fields.
pub open spec fn template_fits(t: Template) -> bool {
    &&& t.id <= u32::MAX
    &&& t.count <= u32::MAX
    &&& t.tokens.len() <= u32::MAX
    &&& forall|i: int| 0 <= i < t.tokens.len() ==> str_fits(#[trigger] t.tokens[i]@)
}

/// What a template holds: its id, its tokens and its count.
pub open spec fn template_view(t: Template) -> (usize, Seq<Seq<char>>, usize) {
    (t.id, tokens_view(t.tokens@), t.count)
}

proof fn lemma_tokens_stand(b: Seq<u8>, q: int, ts: Seq<String>, k: int, n: int)
    requires
        0 <= k <= n <= ts.len(),
        stands_at(b, q, enc_tokens(ts, n)),
    ensures
        stands_at(b, q, enc_tokens(ts, k)),
    decreases n - k,
{
    if k < n {
        lemma_stands_split(b, q, enc_tokens(ts, n - 1), enc_str(ts[n - 1]@));
        lemma_tokens_stand(b, q, ts, k, n - 1);
    }
}

/// The template after its opening tag at `pos`, and where it ends; where
/// the encoding of `want` stands there, a template that holds the same.
fn take_template(b: &[u8], pos: usize, Ghost(want): Ghost<Template>) -> (r: Result<(Template, usize), LoadError>)
    requires
        pos <= b@.len(),
    ensures
        r matches Ok((t, p)) ==> pos <= p <= b@.len() && b@.subrange(pos as int, p as int) == template_body(t),
        template_fits(want) && stands_at(b@, pos as int, template_body(want)) ==> (r matches Ok((t, p))
            && template_view(t) == template_view(want) && p == pos + template_body(want).len()),
{
    let ghost good = template_fits(want) && stands_at(b@, pos as int, template_body(want));
    let ghost wn = want.tokens.len();
    let ghost wts = want.tokens@;
    let ghost h1 = le32(want.id as u32);
    let ghost h2 = le32(want.count as u32);
    let ghost h3 = le32(wn as u32);
    assert(good ==> stands_at(b@, pos as int, h1) && stands_at(b@, pos + 4, h2) && stands_at(b@, pos + 8, h3)
        && stands_at(b@, pos + 12, enc_tokens(wts, wn as int))) by {
        if good {
            lemma_stands_split(b@, pos as int, h1 + h2 + h3, enc_tokens(wts, wn as int));
            lemma_stands_split(b@, pos as int, h1 + h2, h3);
            lemma_stands_split(b@, pos as int, h1, h2);
        }
    }
    let (id, at1) = take_u32(b, pos)?;
    let (count, at2) = take_u32(b, at1)?;
    let (n, at3) = take_u32(b, at2)?;
    let ghost head = le32(id) + le32(count) + le32(n);
    assert(b@.subrange(pos as int, at3 as int) =~= head);
    let mut tokens: Vec<String> = Vec::new();
    let mut cur = at3;
    let mut i: u32 = 0;
    while i < n
        invariant
            pos <= cur <= b@.len(),
            i <= n,
            tokens@.len() == i,
            b@.subrange(pos as int, cur as int) == head + enc_tokens(tokens@, i as int),
            at3 == pos + 12,
            wts == want.tokens@,
            wn == wts.len(),
            good == (template_fits(want) && stands_at(b@, pos as int, template_body(want))),
            good ==> {
                &&& n == wn
                &&& template_fits(want)
                &&& stands_at(b@, pos + 12, enc_tokens(wts, wn as int))
                &&& cur == pos + 12 + enc_tokens(wts, i as int).len()
                &&& forall|k: int| 0 <= k < i ==> tokens@[k]@ == #[trigger] wts[k]@
            },
        decreases n - i,
    {
        let ghost wi = if good { wts[i as int]@ } else { Seq::<char>::empty() };
        assert(good ==> str_fits(wi) && stands_at(b@, cur as int, enc_str(wi))) by {
            if good {
                lemma_tokens_stand(b@, pos + 12, wts, i + 1, wn as int);
                lemma_stands_split(b@, pos + 12, enc_tokens(wts, i as int), enc_str(wts[i as int]@));
            }
        }
        let (s, next) = take_str(b, cur, Ghost(wi))?;
        let ghost before = tokens@;
        tokens.push(s);
        proof {
            assert(enc_tokens(before, i as int) =~= enc_tokens(tokens@, i as int)) by {
                lemma_enc_tokens_prefix(before, tokens@, i as int);
            }
            assert(b@.subrange(pos as int, next as int) =~= b@.subrange(pos as int, cur as int) + b@.subrange(cur as int, next as int));
        }
        cur = next;
        i = i + 1;
    }
    let t = Template { id: id as usize, tokens, count: count as usize };
    proof {
        assert(t.tokens.len() as u32 == n);
        if good {
            assert(tokens_view(t.tokens@) =~= tokens_view(wts));
        }
    }
    Ok((t, cur))
}

proof fn lemma_enc_tokens_prefix(a: Seq<String>, b: Seq<String>, k: int)
    requires
        0 <= k <= a.len(),
        k <= b.len(),
        forall|i: int| 0 <= i < k ==> a[i] == b[i],
    ensures
        enc_tokens(a, k) == enc_tokens(b, k),
    decreases k,
{
    if k > 0 {
        lemma_enc_tokens_prefix(a, b, k - 1);
    }
}

proof fn lemma_enc_templates_prefix(a: Seq<Template>, b: Seq<Template>, k: int)
    requires
        0 <= k <= a.len(),
        k <= b.len(),
        forall|i: int| 0 <= i < k ==> a[i] == b[i],
    ensures
        enc_templates(a, k) == enc_templates(b, k),
    decreases k,
{
    if k > 0 {
        lemma_enc_templates_prefix(a, b, k - 1);
    }
}

proof fn lemma_enc_clusters_prefix(a: Seq<SignatureCluster>, b: Seq<SignatureCluster>, k: int)
    requires
        0 <= k <= a.len(),
        k <= b.len(),
        forall|i: int| 0 <= i < k ==> a[i] == b[i],
    ensures
        enc_clusters(a, k) == enc_clusters(b, k),
    decreases k,
{
    if k > 0 {
        lemma_enc_clusters_prefix(a, b, k - 1);
    }
}

proof fn lemma_enc_groups_prefix(a: Seq<LengthGroup>, b: Seq<LengthGroup>, k: int)
    requires
        0 <= k <= a.len(),
        k <= b.len(),
        forall|i: int| 0 <= i < k ==> a[i] == b[i],
    ensures
        enc_groups(a, k) == enc_groups(b, k),
    decreases k,
{
    if k > 0 {
        lemma_enc_groups_prefix(a, b, k - 1);
    }
}

/// The cluster's signature and templates fit their 32-bit fields, and its
/// length is `len`.
pub open spec fn cluster_fits(c: SignatureCluster, len: usize) -> bool {
    &&& str_fits(c.signature@)
    &&& c.cluster.len == len
    &&& forall|t: int| 0 <= t < c.cluster.templates.len() ==> template_fits(#[trigger] c.cluster.templates[t])
}

/// What a cluster holds: its signature, its length and its templates.
pub open spec fn cluster_view(c: SignatureCluster) -> (Seq<char>, usize, Seq<(usize, Seq<Seq<char>>, usize)>) {
    (c.signature@, c.cluster.len, c.cluster.templates@.map_values(|t: Template| template_view(t)))
}

proof fn lemma_templates_stand(b: Seq<u8>, q: int, ts: Seq<Template>, k: int, n: int)
    requires
        0 <= k <= n <= ts.len(),
        stands_at(b, q, enc_templates(ts, n)),
    ensures
        stands_at(b, q, enc_templates(ts, k)),
    decreases n - k,
{
    if k < n {
        lemma_stands_split(b, q, enc_templates(ts, n - 1), enc_template(ts[n - 1]));
        lemma_templates_stand(b, q, ts, k, n - 1);
    }
}

/// The cluster after its opening tag at `pos`, in a group of lines of
/// length `len`, and where it ends; where the encoding of `want` stands
/// there, a cluster that holds the same.
fn take_cluster(b: &[u8], pos: usize, len: usize, Ghost(want): Ghost<SignatureCluster>) -> (r: Result<(SignatureCluster, usize), LoadError>)
    requires
        pos <= b@.len(),
    ensures
        r matches Ok((c, p)) ==> {
            &&& pos <= p <= b@.len()
            &&& b@.subrange(pos as int, p as int) == cluster_body(c)
            &&& c.cluster.len == len
        },
        cluster_fits(want, len) && stands_at(b@, pos as int, cluster_body(want)) ==> (r matches Ok((c, p))
            && cluster_view(c) == cluster_view(want) && p == pos + cluster_body(want).len()),
{
    let ghost good = cluster_fits(want, len) && stands_at(b@, pos as int, cluster_body(want));
    let ghost wts = want.cluster.templates@;
    let ghost m = wts.len() as int;
    let ghost es = enc_str(want.signature@);
    assert(good ==> stands_at(b@, pos as int, es) && stands_at(b@, pos + es.len(), enc_templates(wts, m) + le16(END_TEMPLATE))) by {
        if good {
            assert(cluster_body(want) =~= es + (enc_templates(wts, m) + le16(END_TEMPLATE)));
            lemma_stands_split(b@, pos as int, es, enc_templates(wts, m) + le16(END_TEMPLATE));
        }
    }
    let (signature, at1) = take_str(b, pos, Ghost(want.signature@))?;
    let mut templates: Vec<Template> = Vec::new();
    let mut cur = at1;
    loop
        invariant
            pos <= at1 <= cur <= b@.len(),
            b@.subrange(pos as int, at1 as int) == enc_str(signature@),
            b@.subrange(at1 as int, cur as int) == enc_templates(templates@, templates@.len() as int),
            wts == want.cluster.templates@,
            m == wts.len(),
            es == enc_str(want.signature@),
            good == (cluster_fits(want, len) && stands_at(b@, pos as int, cluster_body(want))),
            good ==> {
                &&& signature@ == want.signature@
                &&& at1 == pos + es.len()
                &&& stands_at(b@, at1 as int, enc_templates(wts, m) + le16(END_TEMPLATE))
                &&& templates@.len() <= m
                &&& cur == at1 + enc_templates(wts, templates@.len() as int).len()
                &&& forall|k: int| 0 <= k < templates@.len() ==> template_view(templates@[k]) == #[trigger] template_view(wts[k])
            },
        decreases b@.len() - cur,
    {
        let ghost k = templates@.len() as int;
        let ghost wk = if good && k < m { wts[k] } else { arbitrary() };
        assert(good ==> stands_at(b@, at1 as int, enc_templates(wts, m)) && stands_at(b@, at1 + enc_templates(wts, m).len(), le16(END_TEMPLATE))) by {
            if good {
                lemma_stands_split(b@, at1 as int, enc_templates(wts, m), le16(END_TEMPLATE));
            }
        }
        assert(good && k < m ==> template_fits(wk) && stands_at(b@, cur as int, le16(BEGIN_TEMPLATE))
            && stands_at(b@, cur + 2, template_body(wk))) by {
            if good && k < m {
                lemma_templates_stand(b@, at1 as int, wts, k + 1, m);
                lemma_stands_split(b@, at1 as int, enc_templates(wts, k), enc_template(wk));
                lemma_stands_split(b@, cur as int, le16(BEGIN_TEMPLATE), template_body(wk));
            }
        }
        let (tag, at2) = take_u16(b, cur)?;
        if tag == END_TEMPLATE {
            let c = SignatureCluster { signature, cluster: LogCluster { len, templates } };
            proof {
                assert(b@.subrange(pos as int, at2 as int) =~= b@.subrange(pos as int, at1 as int)
                    + b@.subrange(at1 as int, cur as int) + b@.subrange(cur as int, at2 as int));
                if good {
                    assert(k == m);
                    assert(c.cluster.templates@.map_values(|t: Template| template_view(t))
                        =~= wts.map_values(|t: Template| template_view(t)));
                }
            }
            return Ok((c, at2));
        }
        if tag != BEGIN_TEMPLATE {
            return Err(LoadError::UnexpectedTag);
        }
        proof {
            if good && k >= m {
                assert(k == m);
            }
        }
        let (t, at3) = take_template(b, at2, Ghost(wk))?;
        let ghost before = templates@;
        templates.push(t);
        proof {
            lemma_enc_templates_prefix(before, templates@, before.len() as int);
            assert(b@.subrange(at1 as int, at3 as int) =~= b@.subrange(at1 as int, cur as int)
                + b@.subrange(cur as int, at2 as int) + b@.subrange(at2 as int, at3 as int));
        }
        cur = at3;
    }
}

/// The group's numbers fit their 32-bit fields, and each cluster has the
/// group's length.
pub open spec fn group_fits(g: LengthGroup) -> bool {
    &&& g.len <= u32::MAX
    &&& forall|e: int| 0 <= e < g.clusters.len() ==> cluster_fits(#[trigger] g.clusters[e], g.len)
}

/// What a length group holds: its length and its clusters.
pub open spec fn group_view(g: LengthGroup) -> (usize, Seq<(Seq<char>, usize, Seq<(usize, Seq<Seq<char>>, usize)>)>) {
    (g.len, g.clusters@.map_values(|c: SignatureCluster| cluster_view(c)))
}

proof fn lemma_clusters_stand(b: Seq<u8>, q: int, cs: Seq<SignatureCluster>, k: int, n: int)
    requires
        0 <= k <= n <= cs.len(),
        stands_at(b, q, enc_clusters(cs, n)),
    ensures
        stands_at(b, q, enc_clusters(cs, k)),
    decreases n - k,
{
    if k < n {
        lemma_stands_split(b, q, enc_clusters(cs, n - 1), enc_cluster(cs[n - 1]));
        lemma_clusters_stand(b, q, cs, k, n - 1);
    }
}

/// The length group after its opening tag at `pos`, and where it ends;
/// where the encoding of `want` stands there, a group that holds the same.
fn take_group(b: &[u8], pos: usize, Ghost(want): Ghost<LengthGroup>) -> (r: Result<(LengthGroup, usize), LoadError>)
    requires
        pos <= b@.len(),
    ensures
        r matches Ok((g, p)) ==> {
            &&& pos <= p <= b@.len()
            &&& b@.subrange(pos as int, p as int) == group_body(g)
            &&& forall|e: int| 0 <= e < g.clusters.len() ==> #[trigger] g.clusters[e].cluster.len == g.len
        },
        group_fits(want) && stands_at(b@, pos as int, group_body(want)) ==> (r matches Ok((g, p))
            && group_view(g) == group_view(want) && p == pos + group_body(want).len()),
{
    let ghost good = group_fits(want) && stands_at(b@, pos as int, group_body(want));
    let ghost wcs = want.clusters@;
    let ghost m = wcs.len() as int;
    let ghost hl = le32(want.len as u32);
    assert(good ==> stands_at(b@, pos as int, hl) && stands_at(b@, pos + 4, enc_clusters(wcs, m) + le16(END_EVENT_GROUP))) by {
        if good {
            assert(group_body(want) =~= hl + (enc_clusters(wcs, m) + le16(END_EVENT_GROUP)));
            lemma_stands_split(b@, pos as int, hl, enc_clusters(wcs, m) + le16(END_EVENT_GROUP));
        }
    }
    let (len, at1) = take_u32(b, pos)?;
    let ghost len32 = len;
    let len = len as usize;
    let mut clusters: Vec<SignatureCluster> = Vec::new();
    let mut cur = at1;
    loop
        invariant
            pos <= at1 <= cur <= b@.len(),
            len == len32 as usize,
            b@.subrange(pos as int, at1 as int) == le32(len as u32),
            b@.subrange(at1 as int, cur as int) == enc_clusters(clusters@, clusters@.len() as int),
            forall|e: int| 0 <= e < clusters.len() ==> #[trigger] clusters[e].cluster.len == len,
            wcs == want.clusters@,
            m == wcs.len(),
            good == (group_fits(want) && stands_at(b@, pos as int, group_body(want))),
            good ==> {
                &&& len == want.len
                &&& at1 == pos + 4
                &&& stands_at(b@, at1 as int, enc_clusters(wcs, m) + le16(END_EVENT_GROUP))
                &&& clusters@.len() <= m
                &&& cur == at1 + enc_clusters(wcs, clusters@.len() as int).len()
                &&& forall|k: int| 0 <= k < clusters@.len() ==> cluster_view(clusters@[k]) == #[trigger] cluster_view(wcs[k])
            },
        decreases b@.len() - cur,
    {
        let ghost k = clusters@.len() as int;
        let ghost wk = if good && k < m { wcs[k] } else { arbitrary() };
        assert(good ==> stands_at(b@, at1 as int, enc_clusters(wcs, m)) && stands_at(b@, at1 + enc_clusters(wcs, m).len(), le16(END_EVENT_GROUP))) by {
            if good {
                lemma_stands_split(b@, at1 as int, enc_clusters(wcs, m), le16(END_EVENT_GROUP));
            }
        }
        assert(good && k < m ==> cluster_fits(wk, len) && stands_at(b@, cur as int, le16(BEGIN_EVENT_GROUP))
            && stands_at(b@, cur + 2, cluster_body(wk))) by {
            if good && k < m {
                lemma_clusters_stand(b@, at1 as int, wcs, k + 1, m);
                lemma_stands_split(b@, at1 as int, enc_clusters(wcs, k), enc_cluster(wk));
                lemma_stands_split(b@, cur as int, le16(BEGIN_EVENT_GROUP), cluster_body(wk));
            }
        }
        let (tag, at2) = take_u16(b, cur)?;
        if tag == END_EVENT_GROUP {
            let g = LengthGroup { len, clusters };
            proof {
                assert(b@.subrange(pos as int, at2 as int) =~= b@.subrange(pos as int, at1 as int)
                    + b@.subrange(at1 as int, cur as int) + b@.subrange(cur as int, at2 as int));
                if good {
                    assert(k == m);
                    assert(g.clusters@.map_values(|c: SignatureCluster| cluster_view(c))
                        =~= wcs.map_values(|c: SignatureCluster| cluster_view(c)));
                }
            }
            return Ok((g, at2));
        }
        if tag != BEGIN_EVENT_GROUP {
            return Err(LoadError::UnexpectedTag);
        }
        proof {
            if good && k >= m {
                assert(k == m);
            }
        }
        let (c, at3) = take_cluster(b, at2, len, Ghost(wk))?;
        let ghost before = clusters@;
        clusters.push(c);
        proof {
            lemma_enc_clusters_prefix(before, clusters@, before.len() as int);
            assert(b@.subrange(at1 as int, at3 as int) =~= b@.subrange(at1 as int, cur as int)
                + b@.subrange(cur as int, at2 as int) + b@.subrange(at2 as int, at3 as int));
        }
        cur = at3;
    }
}

proof fn lemma_tag_unique(b: Seq<u8>, pos: int, x: u16, y: u16)
    requires
        stands_at(b, pos, le16(x)),
        stands_at(b, pos, le16(y)),
    ensures
        x == y,
{
    lemma_u16_of_le16(x);
    lemma_u16_of_le16(y);
}

proof fn lemma_u32_unique(b: Seq<u8>, pos: int, x: u32, y: u32)
    requires
        stands_at(b, pos, le32(x)),
        stands_at(b, pos, le32(y)),
    ensures
        x == y,
{
    lemma_u32_of_le32(x);
    lemma_u32_of_le32(y);
}

proof fn lemma_str_unique(b: Seq<u8>, pos: int, s1: Seq<char>, s2: Seq<char>)
    requires
        str_fits(s1),
        str_fits(s2),
        stands_at(b, pos, enc_str(s1)),
        stands_at(b, pos, enc_str(s2)),
    ensures
        s1 == s2,
{
    let (e1, e2) = (encode_utf8(s1), encode_utf8(s2));
    lemma_stands_split(b, pos, le32(e1.len() as u32), e1);
    lemma_stands_split(b, pos, le32(e2.len() as u32), e2);
    lemma_u32_unique(b, pos, e1.len() as u32, e2.len() as u32);
    assert(e1 == e2);
    encode_utf8_decode_utf8(s1);
    encode_utf8_decode_utf8(s2);
}

proof fn lemma_tokens_unique(b: Seq<u8>, q: int, t1: Seq<String>, t2: Seq<String>, n: int)
    requires
        0 <= n <= t1.len(),
        n <= t2.len(),
        forall|i: int| 0 <= i < n ==> str_fits(#[trigger] t1[i]@) && str_fits(t2[i]@),
        stands_at(b, q, enc_tokens(t1, n)),
        stands_at(b, q, enc_tokens(t2, n)),
    ensures
        enc_tokens(t1, n) == enc_tokens(t2, n),
        forall|i: int| 0 <= i < n ==> #[trigger] t1[i]@ == t2[i]@,
    decreases n,
{
    if n > 0 {
        lemma_stands_split(b, q, enc_tokens(t1, n - 1), enc_str(t1[n - 1]@));
        lemma_stands_split(b, q, enc_tokens(t2, n - 1), enc_str(t2[n - 1]@));
        lemma_tokens_unique(b, q, t1, t2, n - 1);
        lemma_str_unique(b, q + enc_tokens(t1, n - 1).len(), t1[n - 1]@, t2[n - 1]@);
    }
}

proof fn lemma_template_unique(b: Seq<u8>, pos: int, x: Template, y: Template)
    requires
        template_fits(x),
        template_fits(y),
        stands_at(b, pos, template_body(x)),
        stands_at(b, pos, template_body(y)),
    ensures
        template_view(x) == template_view(y),
        template_body(x) == template_body(y),
{
    let (xa, xb, xc) = (le32(x.id as u32), le32(x.count as u32), le32(x.tokens.len() as u32));
    let (ya, yb, yc) = (le32(y.id as u32), le32(y.count as u32), le32(y.tokens.len() as u32));
    lemma_stands_split(b, pos, xa + xb + xc, enc_tokens(x.tokens@, x.tokens.len() as int));
    lemma_stands_split(b, pos, xa + xb, xc);
    lemma_stands_split(b, pos, xa, xb);
    lemma_stands_split(b, pos, ya + yb + yc, enc_tokens(y.tokens@, y.tokens.len() as int));
    lemma_stands_split(b, pos, ya + yb, yc);
    lemma_stands_split(b, pos, ya, yb);
    lemma_u32_unique(b, pos, x.id as u32, y.id as u32);
    lemma_u32_unique(b, pos + 4, x.count as u32, y.count as u32);
    lemma_u32_unique(b, pos + 8, x.tokens.len() as u32, y.tokens.len() as u32);
    lemma_tokens_unique(b, pos + 12, x.tokens@, y.tokens@, x.tokens.len() as int);
    assert(tokens_view(x.tokens@) =~= tokens_view(y.tokens@));
}

proof fn lemma_templates_unique(b: Seq<u8>, q: int, t1: Seq<Template>, t2: Seq<Template>, n: int)
    requires
        0 <= n <= t1.len(),
        n <= t2.len(),
        forall|i: int| 0 <= i < n ==> template_fits(#[trigger] t1[i]) && template_fits(t2[i]),
        stands_at(b, q, enc_templates(t1, n)),
        stands_at(b, q, enc_templates(t2, n)),
    ensures
        enc_templates(t1, n) == enc_templates(t2, n),
        forall|i: int| 0 <= i < n ==> #[trigger] template_view(t1[i]) == template_view(t2[i]),
    decreases n,
{
    if n > 0 {
        lemma_stands_split(b, q, enc_templates(t1, n - 1), enc_template(t1[n - 1]));
        lemma_stands_split(b, q, enc_templates(t2, n - 1), enc_template(t2[n - 1]));
        lemma_templates_unique(b, q, t1, t2, n - 1);
        let p = q + enc_templates(t1, n - 1).len();
        lemma_stands_split(b, p, le16(BEGIN_TEMPLATE), template_body(t1[n - 1]));
        lemma_stands_split(b, p, le16(BEGIN_TEMPLATE), template_body(t2[n - 1]));
        lemma_template_unique(b, p + 2, t1[n - 1], t2[n - 1]);
    }
}

proof fn lemma_cluster_unique(b: Seq<u8>, pos: int, x: SignatureCluster, y: SignatureCluster, len: usize)
    requires
        cluster_fits(x, len),
        cluster_fits(y, len),
        stands_at(b, pos, cluster_body(x)),
        stands_at(b, pos, cluster_body(y)),
    ensures
        cluster_view(x) == cluster_view(y),
        cluster_body(x) == cluster_body(y),
{
    let (tx, ty) = (x.cluster.templates@, y.cluster.templates@);
    let (mx, my) = (tx.len() as int, ty.len() as int);
    let (sx, sy) = (enc_str(x.signature@), enc_str(y.signature@));
    assert(cluster_body(x) =~= sx + (enc_templates(tx, mx) + le16(END_TEMPLATE)));
    assert(cluster_body(y) =~= sy + (enc_templates(ty, my) + le16(END_TEMPLATE)));
    lemma_stands_split(b, pos, sx, enc_templates(tx, mx) + le16(END_TEMPLATE));
    lemma_stands_split(b, pos, sy, enc_templates(ty, my) + le16(END_TEMPLATE));
    lemma_str_unique(b, pos, x.signature@, y.signature@);
    let q = pos + sx.len();
    lemma_stands_split(b, q, enc_templates(tx, mx), le16(END_TEMPLATE));
    lemma_stands_split(b, q, enc_templates(ty, my), le16(END_TEMPLATE));
    let m = if mx < my { mx } else { my };
    lemma_templates_stand(b, q, tx, m, mx);
    lemma_templates_stand(b, q, ty, m, my);
    lemma_templates_unique(b, q, tx, ty, m);
    let p = q + enc_templates(tx, m).len();
    if mx < my {
        lemma_templates_stand(b, q, ty, m + 1, my);
        lemma_stands_split(b, q, enc_templates(ty, m), enc_template(ty[m]));
        lemma_stands_split(b, p, le16(BEGIN_TEMPLATE), template_body(ty[m]));
        lemma_tag_unique(b, p, END_TEMPLATE, BEGIN_TEMPLATE);
    }
    if my < mx {
        lemma_templates_stand(b, q, tx, m + 1, mx);
        lemma_stands_split(b, q, enc_templates(tx, m), enc_template(tx[m]));
        lemma_stands_split(b, p, le16(BEGIN_TEMPLATE), template_body(tx[m]));
        lemma_tag_unique(b, p, END_TEMPLATE, BEGIN_TEMPLATE);
    }
    assert(tx.map_values(|t: Template| template_view(t)) =~= ty.map_values(|t: Template| template_view(t)));
}

proof fn lemma_clusters_unique(b: Seq<u8>, q: int, c1: Seq<SignatureCluster>, c2: Seq<SignatureCluster>, n: int, len: usize)
    requires
        0 <= n <= c1.len(),
        n <= c2.len(),
        forall|i: int| 0 <= i < n ==> cluster_fits(#[trigger] c1[i], len) && cluster_fits(c2[i], len),
        stands_at(b, q, enc_clusters(c1, n)),
        stands_at(b, q, enc_clusters(c2, n)),
    ensures
        enc_clusters(c1, n) == enc_clusters(c2, n),
        forall|i: int| 0 <= i < n ==> #[trigger] cluster_view(c1[i]) == cluster_view(c2[i]),
    decreases n,
{
    if n > 0 {
        lemma_stands_split(b, q, enc_clusters(c1, n - 1), enc_cluster(c1[n - 1]));
        lemma_stands_split(b, q, enc_clusters(c2, n - 1), enc_cluster(c2[n - 1]));
        lemma_clusters_unique(b, q, c1, c2, n - 1, len);
        let p = q + enc_clusters(c1, n - 1).len();
        lemma_stands_split(b, p, le16(BEGIN_EVENT_GROUP), cluster_body(c1[n - 1]));
        lemma_stands_split(b, p, le16(BEGIN_EVENT_GROUP), cluster_body(c2[n - 1]));
        lemma_cluster_unique(b, p + 2, c1[n - 1], c2[n - 1], len);
    }
}

proof fn lemma_group_unique(b: Seq<u8>, pos: int, x: LengthGroup, y: LengthGroup)
    requires
        group_fits(x),
        group_fits(y),
        stands_at(b, pos, group_body(x)),
        stands_at(b, pos, group_body(y)),
    ensures
        group_view(x) == group_view(y),
        group_body(x) == group_body(y),
{
    let (cx, cy) = (x.clusters@, y.clusters@);
    let (mx, my) = (cx.len() as int, cy.len() as int);
    let (hx, hy) = (le32(x.len as u32), le32(y.len as u32));
    assert(group_body(x) =~= hx + (enc_clusters(cx, mx) + le16(END_EVENT_GROUP)));
    assert(group_body(y) =~= hy + (enc_clusters(cy, my) + le16(END_EVENT_GROUP)));
    lemma_stands_split(b, pos, hx, enc_clusters(cx, mx) + le16(END_EVENT_GROUP));
    lemma_stands_split(b, pos, hy, enc_clusters(cy, my) + le16(END_EVENT_GROUP));
    lemma_u32_unique(b, pos, x.len as u32, y.len as u32);
    let q = pos + 4;
    lemma_stands_split(b, q, enc_clusters(cx, mx), le16(END_EVENT_GROUP));
    lemma_stands_split(b, q, enc_clusters(cy, my), le16(END_EVENT_GROUP));
    let m = if mx < my { mx } else { my };
    lemma_clusters_stand(b, q, cx, m, mx);
    lemma_clusters_stand(b, q, cy, m, my);
    lemma_clusters_unique(b, q, cx, cy, m, x.len);
    let p = q + enc_clusters(cx, m).len();
    if mx < my {
        lemma_clusters_stand(b, q, cy, m + 1, my);
        lemma_stands_split(b, q, enc_clusters(cy, m), enc_cluster(cy[m]));
        lemma_stands_split(b, p, le16(BEGIN_EVENT_GROUP), cluster_body(cy[m]));
        lemma_tag_unique(b, p, END_EVENT_GROUP, BEGIN_EVENT_GROUP);
    }
    if my < mx {
        lemma_clusters_stand(b, q, cx, m + 1, mx);
        lemma_stands_split(b, q, enc_clusters(cx, m), enc_cluster(cx[m]));
        lemma_stands_split(b, p, le16(BEGIN_EVENT_GROUP), cluster_body(cx[m]));
        lemma_tag_unique(b, p, END_EVENT_GROUP, BEGIN_EVENT_GROUP);
    }
    assert(cx.map_values(|c: SignatureCluster| cluster_view(c)) =~= cy.map_values(|c: SignatureCluster| cluster_view(c)));
}

/// The engine's numbers fit their 32-bit fields, and each cluster has its
/// group's length.
pub open spec fn snapshot_fits(p: DrainParser) -> bool {
    &&& p.new_id <= u32::MAX
    &&& forall|g: int| 0 <= g < p.parsers.len() ==> group_fits(#[trigger] p.parsers[g])
}

/// What an engine holds: its counter and, group by group and cluster by
/// cluster, its templates.
pub open spec fn engine_view(p: DrainParser) -> (
    usize,
    Seq<(usize, Seq<(Seq<char>, usize, Seq<(usize, Seq<Seq<char>>, usize)>)>)>,
) {
    (p.new_id, p.parsers@.map_values(|g: LengthGroup| group_view(g)))
}

proof fn lemma_groups_stand(b: Seq<u8>, q: int, gs: Seq<LengthGroup>, k: int, n: int)
    requires
        0 <= k <= n <= gs.len(),
        stands_at(b, q, enc_groups(gs, n)),
    ensures
        stands_at(b, q, enc_groups(gs, k)),
    decreases n - k,
{
    if k < n {
        lemma_stands_split(b, q, enc_groups(gs, n - 1), enc_group(gs[n - 1]));
        lemma_groups_stand(b, q, gs, k, n - 1);
    }
}

proof fn lemma_groups_unique(b: Seq<u8>, q: int, g1: Seq<LengthGroup>, g2: Seq<LengthGroup>, n: int)
    requires
        0 <= n <= g1.len(),
        n <= g2.len(),
        forall|i: int| 0 <= i < n ==> group_fits(#[trigger] g1[i]) && group_fits(g2[i]),
        stands_at(b, q, enc_groups(g1, n)),
        stands_at(b, q, enc_groups(g2, n)),
    ensures
        enc_groups(g1, n) == enc_groups(g2, n),
        forall|i: int| 0 <= i < n ==> #[trigger] group_view(g1[i]) == group_view(g2[i]),
    decreases n,
{
    if n > 0 {
        lemma_stands_split(b, q, enc_groups(g1, n - 1), enc_group(g1[n - 1]));
        lemma_stands_split(b, q, enc_groups(g2, n - 1), enc_group(g2[n - 1]));
        lemma_groups_unique(b, q, g1, g2, n - 1);
        let p = q + enc_groups(g1, n - 1).len();
        lemma_stands_split(b, p, le16(BEGIN_CLUSTER_GROUP), group_body(g1[n - 1]));
        lemma_stands_split(b, p, le16(BEGIN_CLUSTER_GROUP), group_body(g2[n - 1]));
        lemma_group_unique(b, p + 2, g1[n - 1], g2[n - 1]);
    }
}

/// The header of a snapshot and its groups, with the closing tag.
proof fn lemma_encode_parts(b: Seq<u8>, x: DrainParser)
    requires
        stands_at(b, 0, encode(x)),
    ensures
        stands_at(b, 0, le32(DRAIN_MAGIC)),
        stands_at(b, 4, le32(CURR_DRAIN_MODEL_VERSION)),
        stands_at(b, 8, le32(x.new_id as u32)),
        stands_at(b, 12, enc_groups(x.parsers@, x.parsers.len() as int) + le16(END_CLUSTER_GROUP)),
{
    let (h1, h2, h3) = (le32(DRAIN_MAGIC), le32(CURR_DRAIN_MODEL_VERSION), le32(x.new_id as u32));
    let rest = enc_groups(x.parsers@, x.parsers.len() as int) + le16(END_CLUSTER_GROUP);
    assert(encode(x) =~= (h1 + h2 + h3) + rest);
    lemma_stands_split(b, 0, h1 + h2 + h3, rest);
    lemma_stands_split(b, 0, h1 + h2, h3);
    lemma_stands_split(b, 0, h1, h2);
}

/// Two engines whose snapshots both start `b` hold the same.
proof fn lemma_engine_unique(b: Seq<u8>, x: DrainParser, y: DrainParser)
    requires
        snapshot_fits(x),
        snapshot_fits(y),
        stands_at(b, 0, encode(x)),
        stands_at(b, 0, encode(y)),
    ensures
        engine_view(x) == engine_view(y),
{
    lemma_encode_parts(b, x);
    lemma_encode_parts(b, y);
    lemma_u32_unique(b, 8, x.new_id as u32, y.new_id as u32);
    let (gx, gy) = (x.parsers@, y.parsers@);
    let (mx, my) = (gx.len() as int, gy.len() as int);
    let q = 12;
    lemma_stands_split(b, q, enc_groups(gx, mx), le16(END_CLUSTER_GROUP));
    lemma_stands_split(b, q, enc_groups(gy, my), le16(END_CLUSTER_GROUP));
    let m = if mx < my { mx } else { my };
    lemma_groups_stand(b, q, gx, m, mx);
    lemma_groups_stand(b, q, gy, m, my);
    lemma_groups_unique(b, q, gx, gy, m);
    let p = q + enc_groups(gx, m).len();
    if mx < my {
        lemma_groups_stand(b, q, gy, m + 1, my);
        lemma_stands_split(b, q, enc_groups(gy, m), enc_group(gy[m]));
        lemma_stands_split(b, p, le16(BEGIN_CLUSTER_GROUP), group_body(gy[m]));
        lemma_tag_unique(b, p, END_CLUSTER_GROUP, BEGIN_CLUSTER_GROUP);
    }
    if my < mx {
        lemma_groups_stand(b, q, gx, m + 1, mx);
        lemma_stands_split(b, q, enc_groups(gx, m), enc_group(gx[m]));
        lemma_stands_split(b, p, le16(BEGIN_CLUSTER_GROUP), group_body(gx[m]));
        lemma_tag_unique(b, p, END_CLUSTER_GROUP, BEGIN_CLUSTER_GROUP);
    }
    assert(gx.map_values(|g: LengthGroup| group_view(g)) =~= gy.map_values(|g: LengthGroup| group_view(g)));
}

/// Engines that hold the same are alike in their routing index and ids, so
/// one is well formed where the other is.
pub proof fn lemma_same_view_wf(x: DrainParser, y: DrainParser)
    requires
        engine_view(x) == engine_view(y),
        x.wf(),
    ensures
        y.wf(),
{
    let (vx, vy) = (engine_view(x), engine_view(y));
    assert(x.new_id == y.new_id);
    assert(x.parsers.len() == vx.1.len() && y.parsers.len() == vy.1.len());
    assert forall|g: int| 0 <= g < y.parsers.len() implies #[trigger] y.parsers[g].len == x.parsers[g].len
        && y.parsers[g].clusters.len() == x.parsers[g].clusters.len() by {
        assert(vx.1[g] == vy.1[g]);
        assert(group_view(x.parsers[g]).1.len() == x.parsers[g].clusters.len());
    }
    assert forall|g: int, e: int| 0 <= g < y.parsers.len() && 0 <= e < y.parsers[g].clusters.len() implies {
        &&& #[trigger] y.parsers[g].clusters[e].signature@ == x.parsers[g].clusters[e].signature@
        &&& y.parsers[g].clusters[e].cluster.len == x.parsers[g].clusters[e].cluster.len
        &&& y.parsers[g].clusters[e].cluster.templates.len() == x.parsers[g].clusters[e].cluster.templates.len()
    } by {
        assert(y.parsers[g].len == x.parsers[g].len);
        assert(vx.1[g] == group_view(x.parsers[g]) && vy.1[g] == group_view(y.parsers[g]));
        assert(vx.1[g].1[e] == cluster_view(x.parsers[g].clusters[e]));
        assert(vy.1[g].1[e] == cluster_view(y.parsers[g].clusters[e]));
        assert(cluster_view(x.parsers[g].clusters[e]).2.len() == x.parsers[g].clusters[e].cluster.templates.len());
    }
    assert forall|g: int, e: int, t: int| #[trigger] y.valid_pos(g, e, t) implies x.valid_pos(g, e, t)
        && y.tmpl(g, e, t).id == x.tmpl(g, e, t).id && y.tmpl(g, e, t).tokens.len() == x.tmpl(g, e, t).tokens.len() by {
        assert(y.parsers[g].clusters[e].signature@ == x.parsers[g].clusters[e].signature@);
        assert(vx.1[g] == vy.1[g]);
        assert(vx.1[g].1[e] == vy.1[g].1[e]);
        assert(vx.1[g].1[e].2[t] == vy.1[g].1[e].2[t]);
        assert(tokens_view(y.tmpl(g, e, t).tokens@).len() == y.tmpl(g, e, t).tokens.len());
    }
    assert forall|g: int, e: int| 0 <= g < y.parsers.len() && 0 <= e < y.parsers[g].clusters.len()
        implies #[trigger] y.parsers[g].clusters[e].cluster.wf() by {
        assert(y.parsers[g].clusters[e].signature@ == x.parsers[g].clusters[e].signature@);
        assert forall|t: int| 0 <= t < y.parsers[g].clusters[e].cluster.templates.len()
            implies #[trigger] y.parsers[g].clusters[e].cluster.templates[t].tokens.len() == y.parsers[g].clusters[e].cluster.len by {
            assert(y.valid_pos(g, e, t));
            assert(x.valid_pos(g, e, t));
        }
    }
    assert forall|g: int, e: int| 0 <= g < y.parsers.len() && 0 <= e < y.parsers[g].clusters.len()
        implies #[trigger] y.parsers[g].clusters[e].cluster.len == y.parsers[g].len by {
        assert(y.parsers[g].clusters[e].signature@ == x.parsers[g].clusters[e].signature@);
        assert(y.parsers[g].len == x.parsers[g].len);
    }
    assert forall|g: int, e: int, t: int| #[trigger] y.valid_pos(g, e, t) implies 1 <= y.tmpl(g, e, t).id < y.next_id_view() by {
        assert(x.valid_pos(g, e, t));
    }
    assert forall|g1: int, g2: int|
        0 <= g1 < y.parsers.len() && 0 <= g2 < y.parsers.len() && g1 != g2
            implies #[trigger] y.parsers[g1].len != #[trigger] y.parsers[g2].len by {
        assert(y.parsers[g1].len == x.parsers[g1].len);
        assert(y.parsers[g2].len == x.parsers[g2].len);
    }
    assert forall|g: int, e1: int, e2: int|
        0 <= g < y.parsers.len() && 0 <= e1 < y.parsers[g].clusters.len()
            && 0 <= e2 < y.parsers[g].clusters.len() && e1 != e2
            implies #[trigger] y.parsers[g].clusters[e1].signature@ != #[trigger] y.parsers[g].clusters[e2].signature@ by {
        assert(y.parsers[g].len == x.parsers[g].len);
        assert(y.parsers[g].clusters[e1].signature@ == x.parsers[g].clusters[e1].signature@);
        assert(y.parsers[g].clusters[e2].signature@ == x.parsers[g].clusters[e2].signature@);
    }
    assert forall|g1: int, e1: int, t1: int, g2: int, e2: int, t2: int|
        y.valid_pos(g1, e1, t1) && y.valid_pos(g2, e2, t2)
            && #[trigger] y.tmpl(g1, e1, t1).id == #[trigger] y.tmpl(g2, e2, t2).id
            implies g1 == g2 && e1 == e2 && t1 == t2 by {
        assert(x.valid_pos(g1, e1, t1));
        assert(x.valid_pos(g2, e2, t2));
    }
}

/// An engine that holds what one snapshot standing in `b` holds, holds what
/// every such snapshot holds.
proof fn lemma_loaded_matches(b: Seq<u8>, want: DrainParser, loaded: DrainParser)
    requires
        snapshot_fits(want),
        stands_at(b, 0, encode(want)),
        engine_view(loaded) == engine_view(want),
    ensures
        forall|q: DrainParser|
            snapshot_fits(q) && #[trigger] stands_at(b, 0, encode(q)) ==> engine_view(loaded) == engine_view(q)
                && (q.wf() ==> loaded.wf()),
{
    assert forall|q: DrainParser| snapshot_fits(q) && #[trigger] stands_at(b, 0, encode(q))
        implies engine_view(loaded) == engine_view(q) && (q.wf() ==> loaded.wf()) by {
        lemma_engine_unique(b, want, q);
        if q.wf() {
            lemma_same_view_wf(q, loaded);
        }
    }
}

/// Round trip: the snapshot that `save_writer` writes of an engine whose
/// numbers fit the 32-bit fields is one on which `load_reader` succeeds, and
/// every engine whose snapshot stands there holds what the saved engine
/// held: the same counter and, group by group and cluster by cluster, the
/// same lengths, signatures, ids, tokens and counts.
pub proof fn lemma_round_trip(e: DrainParser, bytes: Seq<u8>)
    requires
        snapshot_fits(e),
        bytes == encode(e),
    ensures
        stands_at(bytes, 0, encode(e)),
        forall|q: DrainParser|
            snapshot_fits(q) && #[trigger] stands_at(bytes, 0, encode(q)) ==> engine_view(q) == engine_view(e),
{
    assert(bytes.subrange(0, bytes.len() as int) =~= bytes);
    assert forall|q: DrainParser| snapshot_fits(q) && #[trigger] stands_at(bytes, 0, encode(q)) implies engine_view(q)
        == engine_view(e) by {
        lemma_engine_unique(bytes, q, e);
    }
}

impl DrainParser {
    /// Replaces this engine by the one whose snapshot starts `reader`. On
    /// any failure the engine is left as it was, and the error says what
    /// failed; on success the engine's snapshot is exactly the bytes read.
    #[verifier::rlimit(60)]
    pub fn load_reader(&mut self, reader: &[u8]) -> (r: Result<(), LoadError>)
        ensures
            r is Err ==> *final(self) == *old(self),
            r is Ok ==> {
                let e = encode(*final(self));
                &&& e.len() <= reader@.len()
                &&& reader@.subrange(0, e.len() as int) == e
            },
            reader@.len() < 4 ==> r == Err::<(), LoadError>(LoadError::Truncated),
            reader@.len() >= 4 && u32_of(reader@) != DRAIN_MAGIC ==> r == Err::<(), LoadError>(
                LoadError::InvalidMagic,
            ),
            reader@.len() >= 4 && u32_of(reader@) == DRAIN_MAGIC && reader@.len() < 8 ==> r == Err::<
                (),
                LoadError,
            >(LoadError::Truncated),
            reader@.len() >= 8 && u32_of(reader@) == DRAIN_MAGIC && u32_of(reader@.skip(4))
                != CURR_DRAIN_MODEL_VERSION ==> r == Err::<(), LoadError>(LoadError::UnknownVersion),
            forall|q: DrainParser|
                snapshot_fits(q) && #[trigger] stands_at(reader@, 0, encode(q)) ==> r is Ok && engine_view(
                    *final(self),
                ) == engine_view(q) && (q.wf() ==> final(self).wf()),
    {
        let b = reader;
        let ghost want = choose|q: DrainParser| snapshot_fits(q) && stands_at(b@, 0, encode(q));
        let ghost good = snapshot_fits(want) && stands_at(b@, 0, encode(want));
        let ghost wgs = want.parsers@;
        let ghost m = wgs.len() as int;
        proof {
            if good {
                lemma_encode_parts(b@, want);
            }
        }
        let (magic, at1) = take_u32(b, 0)?;
        proof {
            assert(b@.skip(0) =~= b@);
        }
        if magic != DRAIN_MAGIC {
            return Err(LoadError::InvalidMagic);
        }
        let (version, at2) = take_u32(b, at1)?;
        if version != CURR_DRAIN_MODEL_VERSION {
            return Err(LoadError::UnknownVersion);
        }
        let (next, at3) = take_u32(b, at2)?;
        let ghost head = le32(DRAIN_MAGIC) + le32(CURR_DRAIN_MODEL_VERSION) + le32(next);
        assert(b@.subrange(0, at3 as int) =~= head);
        assert(u32_of(b@) == DRAIN_MAGIC);
        assert(u32_of(b@.skip(4)) == CURR_DRAIN_MODEL_VERSION);
        let mut groups: Vec<LengthGroup> = Vec::new();
        let mut cur = at3;
        loop
            invariant
                at3 <= cur <= b@.len(),
                b@.subrange(0, at3 as int) == head,
                head == le32(DRAIN_MAGIC) + le32(CURR_DRAIN_MODEL_VERSION) + le32(next),
                b@.subrange(at3 as int, cur as int) == enc_groups(groups@, groups@.len() as int),
                *self == *old(self),
                b@ == reader@,
                b@.len() >= 8,
                u32_of(b@) == DRAIN_MAGIC,
                u32_of(b@.skip(4)) == CURR_DRAIN_MODEL_VERSION,
                wgs == want.parsers@,
                m == wgs.len(),
                good == (snapshot_fits(want) && stands_at(b@, 0, encode(want))),
                good <==> exists|q: DrainParser| snapshot_fits(q) && stands_at(reader@, 0, encode(q)),
                good ==> {
                    &&& next as usize == want.new_id
                    &&& at3 == 12
                    &&& stands_at(b@, 12, enc_groups(wgs, m) + le16(END_CLUSTER_GROUP))
                    &&& groups@.len() <= m
                    &&& cur == 12 + enc_groups(wgs, groups@.len() as int).len()
                    &&& forall|k: int| 0 <= k < groups@.len() ==> group_view(groups@[k]) == #[trigger] group_view(wgs[k])
                },
            decreases b@.len() - cur,
        {
            let ghost k = groups@.len() as int;
            let ghost wk = if good && k < m { wgs[k] } else { arbitrary() };
            assert(good ==> stands_at(b@, 12, enc_groups(wgs, m)) && stands_at(b@, 12int + enc_groups(wgs, m).len(), le16(END_CLUSTER_GROUP))) by {
                if good {
                    lemma_stands_split(b@, 12int, enc_groups(wgs, m), le16(END_CLUSTER_GROUP));
                }
            }
            assert(good && k < m ==> group_fits(wk) && stands_at(b@, cur as int, le16(BEGIN_CLUSTER_GROUP))
                && stands_at(b@, cur + 2, group_body(wk))) by {
                if good && k < m {
                    lemma_groups_stand(b@, 12int, wgs, k + 1, m);
                    lemma_stands_split(b@, 12int, enc_groups(wgs, k), enc_group(wk));
                    lemma_stands_split(b@, cur as int, le16(BEGIN_CLUSTER_GROUP), group_body(wk));
                }
            }
            let (tag, at4) = take_u16(b, cur)?;
            if tag == END_CLUSTER_GROUP {
                let loaded = DrainParser { new_id: next as usize, parsers: groups };
                proof {
                    assert(b@.subrange(0, at4 as int) =~= b@.subrange(0, at3 as int)
                        + b@.subrange(at3 as int, cur as int) + b@.subrange(cur as int, at4 as int));
                    assert(encode(loaded) =~= b@.subrange(0, at4 as int));
                    if good {
                        assert(k == m);
                        assert(engine_view(loaded) =~= engine_view(want)) by {
                            assert(loaded.parsers@.map_values(|g: LengthGroup| group_view(g))
                                =~= wgs.map_values(|g: LengthGroup| group_view(g)));
                        }
                        lemma_loaded_matches(b@, want, loaded);
                    }
                }
                *self = loaded;
                return Ok(());
            }
            if tag != BEGIN_CLUSTER_GROUP {
                return Err(LoadError::UnexpectedTag);
            }
            proof {
                if good && k >= m {
                    assert(k == m);
                }
            }
            let (g, at5) = take_group(b, at4, Ghost(wk))?;
            let ghost before = groups@;
            groups.push(g);
            proof {
                lemma_enc_groups_prefix(before, groups@, before.len() as int);
                assert(b@.subrange(at3 as int, at5 as int) =~= b@.subrange(at3 as int, cur as int)
                    + b@.subrange(cur as int, at4 as int) + b@.subrange(at4 as int, at5 as int));
            }
            cur = at5;
        }
    }

    /// Appends the snapshot of this engine to `writer`.
    pub fn save_writer(&self, writer: &mut Vec<u8>)
        ensures
            final(writer)@ == old(writer)@ + encode(*self),
    {
        push_u32(writer, DRAIN_MAGIC);
        push_u32(writer, CURR_DRAIN_MODEL_VERSION);
        push_u32(writer, self.new_id as u32);
        let ghost mid = writer@;
        let mut i: usize = 0;
        while i < self.parsers.len()
            invariant
                i <= self.parsers@.len(),
                writer@ == mid + enc_groups(self.parsers@, i as int),
            decreases self.parsers.len() - i,
        {
            push_group(writer, &self.parsers[i]);
            i = i + 1;
            assert(writer@ =~= mid + enc_groups(self.parsers@, i as int));
        }
        push_u16(writer, END_CLUSTER_GROUP);
        assert(writer@ =~= old(writer)@ + encode(*self));
    }
}

} // verus!
