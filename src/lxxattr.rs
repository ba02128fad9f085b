//! The compact scheme's extended-attribute list, stored as the value of the
//! `LXXATTR` entry: a 4-byte header (flags 0, version 1) and then records of
//! `next: u32, value_len: u16, name_len: u8, name, value`, unpadded and
//! linked by relative offsets, the last with offset 0.
use vstd::prelude::*;

use crate::bytes::{
    copy_range, get_le16, get_le32, holds_at, le16, le32, lemma_le16, lemma_le32, push_all,
    push_u16_le, push_u32_le, read_u16_le, read_u32_le,
};
use crate::ea_parse::prepend;
use crate::error::AttrError;

verus! {

/// Bytes of a record before its name.
pub const LXXATTR_RECORD_HEADER: usize = 7;

/// One extended attribute of the list.
pub struct XattrRecord {
    pub name: Seq<u8>,
    pub value: Seq<u8>,
}

impl XattrRecord {
    pub open spec fn fits(self) -> bool {
        self.name.len() <= 255 && self.value.len() <= 65535
    }

    /// Record size: no alignment and no padding.
    pub open spec fn size(self) -> int {
        7 + self.name.len() + self.value.len() as int
    }

    pub open spec fn bytes(self, next: u32) -> Seq<u8> {
        le32(next) + le16(self.value.len() as u16) + seq![self.name.len() as u8] + self.name
            + self.value
    }
}

pub open spec fn xattrs_fit(s: Seq<XattrRecord>) -> bool {
    forall|i: int| 0 <= i < s.len() ==> #[trigger] s[i].fits()
}

/// `00 00 01 00`: flags 0 and version 1, little-endian.
pub open spec fn lxxattr_header() -> Seq<u8> {
    seq![0u8, 0u8, 1u8, 0u8]
}

/// Records back to back, each linked to the one after it.
pub open spec fn xattr_linked(s: Seq<XattrRecord>) -> Seq<u8>
    decreases s.len(),
{
    if s.len() == 0 {
        seq![]
    } else {
        xattr_linked(s.drop_last()) + s.last().bytes(s.last().size() as u32)
    }
}

/// The records of `s`, the last one with next offset 0.
pub open spec fn xattr_records(s: Seq<XattrRecord>) -> Seq<u8> {
    if s.len() == 0 {
        seq![]
    } else {
        xattr_linked(s.drop_last()) + s.last().bytes(0)
    }
}

/// The `LXXATTR` value holding `s`; an empty list is an empty value.
pub open spec fn encode_lxxattr(s: Seq<XattrRecord>) -> Seq<u8> {
    if s.len() == 0 {
        seq![]
    } else {
        lxxattr_header() + xattr_records(s)
    }
}

pub open spec fn xattr_in_bounds(b: Seq<u8>, pos: int) -> bool {
    &&& pos + 7 <= b.len()
    &&& pos + 7 + b[pos + 6] as int + get_le16(b, pos + 4) as int <= b.len()
}

pub open spec fn xattr_at(b: Seq<u8>, pos: int) -> XattrRecord {
    let n = b[pos + 6] as int;
    let v = get_le16(b, pos + 4) as int;
    XattrRecord { name: b.subrange(pos + 7, pos + 7 + n), value: b.subrange(pos + 7 + n, pos + 7 + n + v) }
}

pub open spec fn xattr_decode_from(b: Seq<u8>, pos: nat) -> Option<Seq<XattrRecord>>
    decreases b.len() - pos,
{
    if !xattr_in_bounds(b, pos as int) {
        None
    } else {
        let next = get_le32(b, pos as int);
        let e = xattr_at(b, pos as int);
        if next == 0 {
            Some(seq![e])
        } else if pos + next >= b.len() {
            None
        } else {
            match xattr_decode_from(b, (pos + next) as nat) {
                Some(rest) => Some(seq![e] + rest),
                None => None,
            }
        }
    }
}

/// The list an `LXXATTR` value holds, or `None` where it is malformed.
pub open spec fn decode_lxxattr(b: Seq<u8>) -> Option<Seq<XattrRecord>> {
    if b.len() == 0 {
        Some(seq![])
    } else if b.len() < 4 || b.subrange(0, 4) != lxxattr_header() {
        None
    } else {
        xattr_decode_from(b, 4)
    }
}

proof fn lemma_xattr_len(e: XattrRecord, next: u32)
    requires
        e.fits(),
    ensures
        e.bytes(next).len() == e.size(),
        7 <= e.size() <= 7 + 255 + 65535,
{
}

proof fn lemma_xattr_read(b: Seq<u8>, pos: int, e: XattrRecord, next: u32)
    requires
        e.fits(),
        holds_at(b, pos, e.bytes(next)),
    ensures
        xattr_in_bounds(b, pos),
        get_le32(b, pos) == next,
        xattr_at(b, pos) == e,
{
    let r = e.bytes(next);
    assert(holds_at(b, pos, le32(next))) by {
        assert forall|k: int| 0 <= k < 4 implies #[trigger] b[pos + k] == le32(next)[k] by {
            assert(b[pos + k] == r[k]);
        }
    }
    lemma_le32(b, pos, next);
    let vl = e.value.len() as u16;
    assert(holds_at(b, pos + 4, le16(vl))) by {
        assert forall|k: int| 0 <= k < 2 implies #[trigger] b[pos + 4 + k] == le16(vl)[k] by {
            assert(b[pos + (4 + k)] == r[4 + k]);
        }
    }
    lemma_le16(b, pos + 4, vl);
    assert(b[pos + 6] == r[6]);
    let n = e.name.len() as int;
    let got = xattr_at(b, pos);
    assert forall|k: int| 0 <= k < n implies #[trigger] got.name[k] == e.name[k] by {
        assert(b[pos + (7 + k)] == r[7 + k]);
    }
    assert forall|k: int| 0 <= k < e.value.len() implies #[trigger] got.value[k] == e.value[k] by {
        assert(b[pos + (7 + n + k)] == r[7 + n + k]);
    }
    assert(got.name =~= e.name);
    assert(got.value =~= e.value);
}

proof fn lemma_xattr_linked_front(s: Seq<XattrRecord>)
    requires
        s.len() >= 1,
    ensures
        xattr_linked(s) == s[0].bytes(s[0].size() as u32) + xattr_linked(s.drop_first()),
    decreases s.len(),
{
    if s.len() == 1 {
        assert(s.drop_last() =~= seq![]);
        assert(s.drop_first() =~= seq![]);
        assert(xattr_linked(s) =~= s[0].bytes(s[0].size() as u32) + xattr_linked(s.drop_first()));
    } else {
        let dl = s.drop_last();
        lemma_xattr_linked_front(dl);
        assert(dl.drop_first() =~= s.drop_first().drop_last());
        assert(s.drop_first().last() == s.last());
        assert(xattr_linked(s) =~= s[0].bytes(s[0].size() as u32) + xattr_linked(s.drop_first()));
    }
}

proof fn lemma_xattr_records_front(s: Seq<XattrRecord>)
    requires
        s.len() >= 2,
    ensures
        xattr_records(s) == s[0].bytes(s[0].size() as u32) + xattr_records(s.drop_first()),
{
    let dl = s.drop_last();
    lemma_xattr_linked_front(dl);
    assert(dl.drop_first() =~= s.drop_first().drop_last());
    assert(s.drop_first().last() == s.last());
    assert(xattr_records(s) =~= s[0].bytes(s[0].size() as u32) + xattr_records(s.drop_first()));
}

/// `r` placed after `p` is found at `p.len()`, whatever follows it.
proof fn lemma_split_concat(p: Seq<u8>, r: Seq<u8>, rest: Seq<u8>)
    ensures
        holds_at(p + (r + rest), p.len() as int, r),
        p + (r + rest) == (p + r) + rest,
{
    assert(p + (r + rest) =~= (p + r) + rest);
    assert forall|k: int| 0 <= k < r.len() implies #[trigger] (p + (r + rest))[p.len() + k]
        == r[k] by {
        assert((r + rest)[k] == r[k]);
    }
}

/// One step of decoding: the record at `pos` followed by what its link
/// leads to.
proof fn lemma_xattr_decode_step(b: Seq<u8>, pos: nat, e: XattrRecord, next: u32, t: Seq<XattrRecord>)
    requires
        e.fits(),
        holds_at(b, pos as int, e.bytes(next)),
        next == 0 ==> t == Seq::<XattrRecord>::empty(),
        next != 0 ==> pos + next < b.len() && xattr_decode_from(b, (pos + next) as nat) == Some(t),
    ensures
        xattr_decode_from(b, pos) == Some(seq![e] + t),
{
    lemma_xattr_read(b, pos as int, e, next);
    if next == 0 {
        assert(seq![e] + t =~= seq![e]);
    }
}

proof fn lemma_xattr_decode_encoded(p: Seq<u8>, s: Seq<XattrRecord>)
    requires
        s.len() >= 1,
        xattrs_fit(s),
    ensures
        xattr_decode_from(p + xattr_records(s), p.len()) == Some(s),
    decreases s.len(),
{
    let e = s[0];
    assert(e.fits());
    if s.len() == 1 {
        assert(s.drop_last() =~= seq![]);
        assert(xattr_records(s) =~= e.bytes(0) + seq![]);
        lemma_split_concat(p, e.bytes(0), seq![]);
        lemma_xattr_decode_step(p + xattr_records(s), p.len(), e, 0, seq![]);
        assert(seq![e] + seq![] =~= s);
    } else {
        let next = e.size() as u32;
        let t = s.drop_first();
        lemma_xattr_records_front(s);
        let rest = xattr_records(t);
        lemma_split_concat(p, e.bytes(next), rest);
        assert(xattrs_fit(t));
        assert(t.last().fits());
        lemma_xattr_len(t.last(), 0);
        lemma_xattr_len(e, next);
        lemma_xattr_decode_encoded(p + e.bytes(next), t);
        lemma_xattr_decode_step(p + xattr_records(s), p.len(), e, next, t);
        assert(seq![e] + t =~= s);
    }
}

/// An encoded list decodes to the attributes it was built from.
pub proof fn lemma_lxxattr_round_trip(s: Seq<XattrRecord>)
    requires
        xattrs_fit(s),
    ensures
        decode_lxxattr(encode_lxxattr(s)) == Some(s),
{
    if s.len() > 0 {
        let b = encode_lxxattr(s);
        assert(s.last().fits());
        lemma_xattr_len(s.last(), 0);
        assert(b.subrange(0, 4) =~= lxxattr_header());
        lemma_xattr_decode_encoded(lxxattr_header(), s);
    }
}

/// Sum of the record sizes: what the list occupies after its header.
pub open spec fn xattrs_size(s: Seq<XattrRecord>) -> int
    decreases s.len(),
{
    if s.len() == 0 {
        0
    } else {
        xattrs_size(s.drop_last()) + s.last().size()
    }
}

proof fn lemma_xattr_linked_size(s: Seq<XattrRecord>)
    requires
        xattrs_fit(s),
    ensures
        xattr_linked(s).len() == xattrs_size(s),
    decreases s.len(),
{
    if s.len() > 0 {
        assert(s.last().fits());
        assert(xattrs_fit(s.drop_last()));
        lemma_xattr_linked_size(s.drop_last());
    }
}

/// The list carries no padding: each record takes exactly its header, name
/// and value.
pub proof fn lemma_lxxattr_unpadded(s: Seq<XattrRecord>)
    requires
        xattrs_fit(s),
        s.len() > 0,
    ensures
        encode_lxxattr(s).len() == 4 + xattrs_size(s),
{
    assert(s.last().fits());
    assert(xattrs_fit(s.drop_last()));
    lemma_xattr_linked_size(s.drop_last());
}

/// The list begins with its header and the linked records before position
/// `i`.
proof fn lemma_xattr_prefix(s: Seq<XattrRecord>, i: int)
    requires
        xattrs_fit(s),
        0 <= i < s.len(),
    ensures
        4 + xattr_linked(s.take(i)).len() <= encode_lxxattr(s).len(),
        forall|k: int|
            0 <= k < xattr_linked(s.take(i)).len() ==> #[trigger] encode_lxxattr(s)[4 + k]
                == xattr_linked(s.take(i))[k],
    decreases s.len() - i,
{
    if i + 1 == s.len() {
        assert(s.take(i) =~= s.drop_last());
    } else {
        lemma_xattr_prefix(s, i + 1);
        assert(s.take(i + 1).drop_last() =~= s.take(i));
        assert(s.take(i + 1).last() == s[i]);
    }
}

/// In an encoded list, record `i` starts right after the header and the
/// records before it, with no padding between them, and links to the next
/// record by its own size (the last by 0).
pub proof fn lemma_lxxattr_records_placed(s: Seq<XattrRecord>, i: int)
    requires
        xattrs_fit(s),
        0 <= i < s.len(),
    ensures
        encode_lxxattr(s).subrange(0, 4) == lxxattr_header(),
        xattr_linked(s.take(i)).len() == xattrs_size(s.take(i)),
        holds_at(
            encode_lxxattr(s),
            4 + xattrs_size(s.take(i)),
            s[i].bytes(
                if i + 1 == s.len() {
                    0
                } else {
                    s[i].size() as u32
                },
            ),
        ),
    decreases s.len() - i,
{
    assert(xattrs_fit(s.take(i)));
    lemma_xattr_linked_size(s.take(i));
    let pre = xattr_linked(s.take(i));
    let big = encode_lxxattr(s);
    assert(big.subrange(0, 4) =~= lxxattr_header());
    assert(s[i].fits());
    if i + 1 == s.len() {
        assert(s.take(i) =~= s.drop_last());
        assert(holds_at(big, 4 + pre.len() as int, s[i].bytes(0)));
    } else {
        lemma_xattr_prefix(s, i + 1);
        assert(s.take(i + 1).drop_last() =~= s.take(i));
        assert(s.take(i + 1).last() == s[i]);
        let pre2 = xattr_linked(s.take(i + 1));
        let r = s[i].bytes(s[i].size() as u32);
        assert(pre2 =~= pre + r);
        assert forall|k: int| 0 <= k < r.len() implies #[trigger] big[4 + pre.len() + k] == r[k] by {
            assert(big[4 + (pre.len() + k)] == pre2[pre.len() + k]);
        }
    }
}

/// An attribute of the list as held in memory.
pub struct LxxattrEntry {
    pub name: Vec<u8>,
    /// `None` marks an attribute to be dropped when the list is saved.
    pub value: Option<Vec<u8>>,
}

/// The content of a list entry.
pub struct XattrSlot {
    pub name: Seq<u8>,
    pub value: Option<Seq<u8>>,
}

impl View for LxxattrEntry {
    type V = XattrSlot;

    open spec fn view(&self) -> XattrSlot {
        XattrSlot {
            name: self.name@,
            value: match self.value {
                Some(v) => Some(v@),
                None => None,
            },
        }
    }
}

pub open spec fn slots_of(v: Seq<LxxattrEntry>) -> Seq<XattrSlot> {
    v.map_values(|e: LxxattrEntry| e@)
}

/// The slot of a stored attribute.
pub open spec fn slot_of(r: XattrRecord) -> XattrSlot {
    XattrSlot { name: r.name, value: Some(r.value) }
}

/// Decodes an `LXXATTR` value.
pub fn parse_lxxattr(buffer: &[u8]) -> (r: Result<Vec<LxxattrEntry>, AttrError>)
    ensures
        r is Ok <==> decode_lxxattr(buffer@) is Some,
        r is Ok ==> slots_of(r->Ok_0@) == decode_lxxattr(buffer@)->Some_0.map_values(
            |x: XattrRecord| slot_of(x),
        ),
        r is Err ==> r->Err_0 == AttrError::MalformedChain,
{
    let mut entries: Vec<LxxattrEntry> = Vec::new();
    if buffer.len() == 0 {
        assert(slots_of(entries@) =~= seq![]);
        assert(decode_lxxattr(buffer@)->Some_0 =~= seq![]);
        return Ok(entries);
    }
    if buffer.len() < 4 || buffer[0] != 0 || buffer[1] != 0 || buffer[2] != 1 || buffer[3] != 0 {
        proof {
            if buffer@.len() >= 4 {
                if buffer@.subrange(0, 4) == lxxattr_header() {
                    assert(buffer@[0] == buffer@.subrange(0, 4)[0]);
                    assert(buffer@[1] == buffer@.subrange(0, 4)[1]);
                    assert(buffer@[2] == buffer@.subrange(0, 4)[2]);
                    assert(buffer@[3] == buffer@.subrange(0, 4)[3]);
                }
            }
        }
        return Err(AttrError::MalformedChain);
    }
    assert(buffer@.subrange(0, 4) =~= lxxattr_header());
    let ghost b = buffer@;
    let ghost mut recs: Seq<XattrRecord> = seq![];
    let mut pos: usize = 4;
    assert(slots_of(entries@) =~= recs.map_values(|x: XattrRecord| slot_of(x)));
    assert(seq![] + xattr_decode_from(b, 4).unwrap_or(seq![]) =~= xattr_decode_from(b, 4).unwrap_or(seq![]));
    loop
        invariant
            4 <= pos <= b.len(),
            b == buffer@,
            slots_of(entries@) == recs.map_values(|x: XattrRecord| slot_of(x)),
            decode_lxxattr(b) == prepend(recs, xattr_decode_from(b, pos as nat)),
        decreases b.len() - pos,
    {
        if buffer.len() - pos < LXXATTR_RECORD_HEADER {
            return Err(AttrError::MalformedChain);
        }
        let next = read_u32_le(buffer, pos);
        let value_len = read_u16_le(buffer, pos + 4);
        let name_len = buffer[pos + 6];
        if (name_len as usize) + (value_len as usize) > buffer.len() - pos - LXXATTR_RECORD_HEADER {
            return Err(AttrError::MalformedChain);
        }
        let name_start = pos + LXXATTR_RECORD_HEADER;
        let name_end = name_start + name_len as usize;
        let name = copy_range(buffer, name_start, name_end);
        let value = copy_range(buffer, name_end, name_end + value_len as usize);
        let ghost e = xattr_at(b, pos as int);
        let entry = LxxattrEntry { name, value: Some(value) };
        assert(entry@ == slot_of(e));
        let ghost old_entries = entries@;
        entries.push(entry);
        proof {
            assert(slots_of(entries@) =~= slots_of(old_entries).push(slot_of(e)));
            assert(recs.push(e).map_values(|x: XattrRecord| slot_of(x)) =~= recs.map_values(
                |x: XattrRecord| slot_of(x),
            ).push(slot_of(e)));
        }
        if next == 0 {
            assert(recs + seq![e] =~= recs.push(e));
            proof {
                recs = recs.push(e);
            }
            return Ok(entries);
        }
        if next as usize >= buffer.len() - pos {
            return Err(AttrError::MalformedChain);
        }
        let ghost tail = xattr_decode_from(b, (pos + next) as nat);
        proof {
            if tail is Some {
                assert(recs + (seq![e] + tail->Some_0) =~= recs.push(e) + tail->Some_0);
            }
            recs = recs.push(e);
        }
        pos = pos + next as usize;
    }
}

proof fn lemma_xattr_linked_len(s: Seq<XattrRecord>)
    requires
        xattrs_fit(s),
    ensures
        xattr_linked(s).len() >= 7 * s.len(),
        s.len() > 0 ==> xattr_records(s).len() == xattr_linked(s).len(),
    decreases s.len(),
{
    if s.len() > 0 {
        assert(s.last().fits());
        assert(xattrs_fit(s.drop_last()));
        lemma_xattr_linked_len(s.drop_last());
    }
}

/// Overwrites `v[i..i + 4]` with the little-endian bytes of `x`.
fn set_u32_at(v: &mut Vec<u8>, i: usize, x: u32)
    requires
        i + 4 <= old(v)@.len(),
    ensures
        final(v)@ == old(v)@.subrange(0, i as int) + le32(x) + old(v)@.subrange(
            i + 4,
            old(v)@.len() as int,
        ),
{
    let _len = v.len();
    v[i] = (x % 256) as u8;
    v[i + 1] = ((x / 256) % 256) as u8;
    v[i + 2] = ((x / 65536) % 256) as u8;
    v[i + 3] = (x / 16777216) as u8;
    assert(v@ =~= old(v)@.subrange(0, i as int) + le32(x) + old(v)@.subrange(
        i + 4,
        old(v)@.len() as int,
    ));
}

/// Appends the record for `name` and `value` with next offset 0.
fn push_xattr(buf: &mut Vec<u8>, name: &[u8], value: &[u8])
    requires
        name@.len() <= 255,
        value@.len() <= 65535,
    ensures
        final(buf)@ == old(buf)@ + (XattrRecord { name: name@, value: value@ }).bytes(0),
{
    push_u32_le(buf, 0);
    push_u16_le(buf, value.len() as u16);
    buf.push(name.len() as u8);
    push_all(buf, name);
    push_all(buf, value);
    assert(buf@ =~= old(buf)@ + (XattrRecord { name: name@, value: value@ }).bytes(0));
}

/// Builds an `LXXATTR` value one attribute at a time.
pub struct LxxattrOut {
    buffer: Vec<u8>,
    /// Position and size of the last record written.
    last_attr_info: Option<(usize, usize)>,
    count: usize,
    records: Ghost<Seq<XattrRecord>>,
}

impl View for LxxattrOut {
    type V = Seq<XattrRecord>;

    /// The attributes added so far, in order.
    closed spec fn view(&self) -> Seq<XattrRecord> {
        self.records@
    }
}

impl LxxattrOut {
    /// The buffer holds exactly the list of the attributes added so far.
    pub closed spec fn wf(&self) -> bool {
        &&& xattrs_fit(self.records@)
        &&& self.buffer@ == encode_lxxattr(self.records@)
        &&& self.count == self.records@.len()
        &&& match self.last_attr_info {
            None => self.records@.len() == 0,
            Some((i, n)) => {
                &&& self.records@.len() > 0
                &&& i == 4 + xattr_linked(self.records@.drop_last()).len()
                &&& n == self.records@.last().size()
            },
        }
    }

    pub fn new() -> (r: Self)
        ensures
            r.wf(),
            r@ == Seq::<XattrRecord>::empty(),
    {
        LxxattrOut { buffer: Vec::new(), last_attr_info: None, count: 0, records: Ghost(Seq::empty()) }
    }

    /// The list built so far.
    pub fn buffer(&self) -> (r: &Vec<u8>)
        requires
            self.wf(),
        ensures
            r@ == encode_lxxattr(self@),
        xattrs_fit(self@),
    {
        &self.buffer
    }

    /// The list built so far, taken out of the builder.
    pub fn into_buffer(self) -> (r: Vec<u8>)
        requires
            self.wf(),
        ensures
            r@ == encode_lxxattr(self@),
        xattrs_fit(self@),
    {
        self.buffer
    }

    /// Number of attributes added.
    pub fn count(&self) -> (r: usize)
        requires
            self.wf(),
        ensures
            r == self@.len(),
    {
        self.count
    }

    /// Appends an attribute.
    pub fn add(&mut self, name: &[u8], value: &[u8])
        requires
            old(self).wf(),
            name@.len() <= 255,
            value@.len() <= 65535,
            encode_lxxattr(old(self)@).len() + 4 + 7 + name@.len() + value@.len() <= usize::MAX,
        ensures
            final(self).wf(),
            final(self)@ == old(self)@.push(XattrRecord { name: name@, value: value@ }),
    {
        let ghost recs = self.records@;
        let ghost e = XattrRecord { name: name@, value: value@ };
        proof {
            lemma_xattr_linked_len(recs);
        }
        if self.buffer.len() == 0 {
            assert(recs.len() == 0) by {
                if recs.len() > 0 {
                    assert(encode_lxxattr(recs).len() >= 4);
                }
            }
            self.buffer.push(0u8);
            self.buffer.push(0u8);
            self.buffer.push(1u8);
            self.buffer.push(0u8);
            assert(self.buffer@ =~= lxxattr_header());
        } else {
            assert(recs.len() > 0);
        }
        let this_pos = self.link_last();
        let size = LXXATTR_RECORD_HEADER + name.len() + value.len();
        push_xattr(&mut self.buffer, name, value);
        self.last_attr_info = Some((this_pos, size));
        self.count = self.count + 1;
        self.records = Ghost(recs.push(e));
        proof {
            assert(recs.push(e).drop_last() =~= recs);
            assert(xattrs_fit(recs.push(e)));
            assert(self.buffer@ =~= encode_lxxattr(recs.push(e)));
        }
    }

    /// Points the last record at the end of the buffer; returns that
    /// position. The buffer already holds the header.
    fn link_last(&mut self) -> (r: usize)
        requires
            old(self).buffer@.len() >= 4,
            xattrs_fit(old(self).records@),
            old(self).records@.len() == 0 ==> old(self).buffer@ == lxxattr_header(),
            old(self).records@.len() > 0 ==> old(self).buffer@ == encode_lxxattr(old(self).records@),
            match old(self).last_attr_info {
                None => old(self).records@.len() == 0,
                Some((i, n)) => {
                    &&& old(self).records@.len() > 0
                    &&& i == 4 + xattr_linked(old(self).records@.drop_last()).len()
                    &&& n == old(self).records@.last().size()
                },
            },
        ensures
            r == final(self).buffer@.len(),
            final(self).buffer@ == lxxattr_header() + xattr_linked(old(self).records@),
            final(self).records == old(self).records,
            final(self).count == old(self).count,
    {
        let ghost recs = self.records@;
        match self.last_attr_info {
            Some((last_pos, last_size)) => {
                proof {
                    let last = recs.last();
                    assert(last.fits());
                    assert(xattrs_fit(recs.drop_last()));
                    lemma_xattr_linked_len(recs.drop_last());
                }
                set_u32_at(&mut self.buffer, last_pos, last_size as u32);
                proof {
                    let last = recs.last();
                    let pre = lxxattr_header() + xattr_linked(recs.drop_last());
                    let tail = le16(last.value.len() as u16) + seq![last.name.len() as u8]
                        + last.name + last.value;
                    assert(old(self).buffer@ =~= pre + le32(0) + tail);
                    assert(old(self).buffer@.subrange(0, last_pos as int) =~= pre);
                    assert(old(self).buffer@.subrange(
                        last_pos + 4,
                        old(self).buffer@.len() as int,
                    ) =~= tail);
                    assert(self.buffer@ =~= lxxattr_header() + xattr_linked(recs));
                }
                let _len = self.buffer.len();
                last_pos + last_size
            },
            None => {
                assert(recs =~= seq![]);
                assert(self.buffer@ =~= lxxattr_header() + xattr_linked(recs));
                self.buffer.len()
            },
        }
    }
}

impl Default for LxxattrOut {
    fn default() -> (r: Self)
        ensures
            r.wf(),
            r@ == Seq::<XattrRecord>::empty(),
    {
        LxxattrOut::new()
    }
}

} // verus!
