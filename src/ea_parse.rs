//! The NTFS extended-attribute chain: a singly linked list of named byte
//! strings, each record 4-byte aligned and linked by a relative offset.
//!
//! Record layout (all integers little-endian):
//! `next: u32, flags: u8, name_len: u8, value_len: u16, name, 0, value, padding`.
use vstd::prelude::*;

use crate::bytes::{
    copy_range, get_le16, get_le32, holds_at, le16, le32, lemma_le16, lemma_le32, push_all,
    push_u16_le, push_u32_le, push_zeros, read_u16_le, read_u32_le,
};
use crate::error::AttrError;

verus! {

/// Bytes of a record's fixed fields plus the byte that ends the name.
pub const EA_BASE_SIZE_RAW: usize = 9;

/// Records start and end on multiples of this.
pub const EA_ALIGN: usize = 4;

/// The fewest bytes that a record occupies.
pub const EA_MIN_RECORD: usize = 12;

/// One named attribute, as held in memory.
pub struct EaEntry {
    pub flags: u8,
    /// ASCII, no terminator.
    pub name: Vec<u8>,
    pub value: Vec<u8>,
}

/// The content of an [`EaEntry`].
pub struct EaRecord {
    pub flags: u8,
    pub name: Seq<u8>,
    pub value: Seq<u8>,
}

impl View for EaEntry {
    type V = EaRecord;

    open spec fn view(&self) -> EaRecord {
        EaRecord { flags: self.flags, name: self.name@, value: self.value@ }
    }
}

/// The contents of a list of entries.
pub open spec fn records_of(v: Seq<EaEntry>) -> Seq<EaRecord> {
    v.map_values(|e: EaEntry| e@)
}

/// `n` rounded up to a multiple of 4.
pub open spec fn align4(n: int) -> int {
    (n + 3) / 4 * 4
}

/// Size of the record holding a name of `name_len` and a value of `value_len` bytes.
pub open spec fn ea_size(name_len: int, value_len: int) -> int {
    align4(9 + name_len + value_len)
}

impl EaRecord {
    /// The name and value lengths fit their length fields.
    pub open spec fn fits(self) -> bool {
        self.name.len() <= 255 && self.value.len() <= 65535
    }

    pub open spec fn size(self) -> int {
        ea_size(self.name.len() as int, self.value.len() as int)
    }

    /// The record's bytes after its next-entry offset.
    pub open spec fn body(self) -> Seq<u8> {
        seq![self.flags, self.name.len() as u8] + le16(self.value.len() as u16) + self.name + seq![
            0u8,
        ] + self.value + Seq::new(
            (self.size() - 9 - self.name.len() - self.value.len()) as nat,
            |k: int| 0u8,
        )
    }

    /// The record's bytes when it links to the record `next` bytes further on.
    pub open spec fn bytes(self, next: u32) -> Seq<u8> {
        le32(next) + self.body()
    }
}

pub open spec fn all_fit(s: Seq<EaRecord>) -> bool {
    forall|i: int| 0 <= i < s.len() ==> #[trigger] s[i].fits()
}

/// Records back to back, each linked to the one after it.
pub open spec fn linked(s: Seq<EaRecord>) -> Seq<u8>
    decreases s.len(),
{
    if s.len() == 0 {
        seq![]
    } else {
        linked(s.drop_last()) + s.last().bytes(s.last().size() as u32)
    }
}

/// The chain holding `s`: records back to back, the last one with next offset 0.
pub open spec fn encode_chain(s: Seq<EaRecord>) -> Seq<u8> {
    if s.len() == 0 {
        seq![]
    } else {
        linked(s.drop_last()) + s.last().bytes(0)
    }
}

/// The record whose header starts at `b[pos]`.
pub open spec fn record_at(b: Seq<u8>, pos: int) -> EaRecord {
    let n = b[pos + 5] as int;
    let v = get_le16(b, pos + 6) as int;
    EaRecord {
        flags: b[pos + 4],
        name: b.subrange(pos + 8, pos + 8 + n),
        value: b.subrange(pos + 9 + n, pos + 9 + n + v),
    }
}

/// The header at `b[pos]` is readable and its record lies inside `b`.
pub open spec fn record_in_bounds(b: Seq<u8>, pos: int) -> bool {
    &&& pos + 12 <= b.len()
    &&& pos + ea_size(b[pos + 5] as int, get_le16(b, pos + 6) as int) <= b.len()
}

/// The chain that starts at `b[pos]`, or `None` where it is truncated or
/// inconsistent.
pub open spec fn decode_from(b: Seq<u8>, pos: nat) -> Option<Seq<EaRecord>>
    decreases b.len() - pos,
{
    if !record_in_bounds(b, pos as int) {
        None
    } else {
        let next = get_le32(b, pos as int);
        let e = record_at(b, pos as int);
        if next == 0 {
            Some(seq![e])
        } else if next % 4 != 0 || pos + next >= b.len() {
            None
        } else {
            match decode_from(b, (pos + next) as nat) {
                Some(rest) => Some(seq![e] + rest),
                None => None,
            }
        }
    }
}

/// The entries of an EA buffer; an empty buffer holds none.
pub open spec fn decode_chain(b: Seq<u8>) -> Option<Seq<EaRecord>> {
    if b.len() == 0 {
        Some(seq![])
    } else {
        decode_from(b, 0)
    }
}

/// `acc` followed by what `rest` holds.
pub open spec fn prepend<T>(acc: Seq<T>, rest: Option<Seq<T>>) -> Option<Seq<T>> {
    match rest {
        Some(r) => Some(acc + r),
        None => None,
    }
}

/// `q` is the start of a record that decoding from `pos` visits.
pub open spec fn visits(b: Seq<u8>, pos: nat, q: int) -> bool
    decreases b.len() - pos,
{
    q == pos || (record_in_bounds(b, pos as int) && get_le32(b, pos as int) != 0 && get_le32(
        b,
        pos as int,
    ) % 4 == 0 && pos + get_le32(b, pos as int) < b.len() && visits(
        b,
        (pos + get_le32(b, pos as int)) as nat,
        q,
    ))
}

proof fn lemma_align4(n: int)
    requires
        n >= 0,
    ensures
        n <= align4(n) < n + 4,
        align4(n) % 4 == 0,
{
}

proof fn lemma_record_len(e: EaRecord, next: u32)
    requires
        e.fits(),
    ensures
        e.bytes(next).len() == e.size(),
        e.body().len() == e.size() - 4,
        12 <= e.size() <= 65535 + 255 + 12,
        e.size() % 4 == 0,
{
    lemma_align4(9 + e.name.len() + e.value.len() as int);
}

/// The header fields of a record placed at `b[pos]`.
proof fn lemma_record_header(b: Seq<u8>, pos: int, e: EaRecord, next: u32)
    requires
        e.fits(),
        0 <= pos,
        pos + 12 <= b.len(),
        forall|k: int| 0 <= k < 12 ==> #[trigger] b[pos + k] == e.bytes(next)[k],
    ensures
        get_le32(b, pos) == next,
        b[pos + 4] == e.flags,
        b[pos + 5] == e.name.len(),
        get_le16(b, pos + 6) == e.value.len(),
{
    lemma_record_len(e, next);
    let r = e.bytes(next);
    assert(holds_at(b, pos, le32(next))) by {
        assert forall|k: int| 0 <= k < 4 implies #[trigger] b[pos + k] == le32(next)[k] by {
            assert(b[pos + k] == r[k]);
        }
    }
    lemma_le32(b, pos, next);
    assert(b[pos + 4] == r[4]);
    assert(b[pos + 5] == r[5]);
    let vl = e.value.len() as u16;
    assert(holds_at(b, pos + 6, le16(vl))) by {
        assert forall|k: int| 0 <= k < 2 implies #[trigger] b[pos + 6 + k] == le16(vl)[k] by {
            assert(b[pos + (6 + k)] == r[6 + k]);
        }
    }
    lemma_le16(b, pos + 6, vl);
}

/// A whole record placed at `b[pos]` reads back as itself.
proof fn lemma_record_read(b: Seq<u8>, pos: int, e: EaRecord, next: u32)
    requires
        e.fits(),
        holds_at(b, pos, e.bytes(next)),
    ensures
        record_in_bounds(b, pos),
        get_le32(b, pos) == next,
        record_at(b, pos) == e,
{
    lemma_record_len(e, next);
    let r = e.bytes(next);
    assert forall|k: int| 0 <= k < 12 implies #[trigger] b[pos + k] == r[k] by {}
    lemma_record_header(b, pos, e, next);
    let n = e.name.len() as int;
    let v = e.value.len() as int;
    let got = record_at(b, pos);
    assert forall|k: int| 0 <= k < n implies #[trigger] got.name[k] == e.name[k] by {
        assert(b[pos + (8 + k)] == r[8 + k]);
    }
    assert forall|k: int| 0 <= k < v implies #[trigger] got.value[k] == e.value[k] by {
        assert(b[pos + (9 + n + k)] == r[9 + n + k]);
    }
    assert(got.name =~= e.name);
    assert(got.value =~= e.value);
}

proof fn lemma_linked_front(s: Seq<EaRecord>)
    requires
        s.len() >= 1,
    ensures
        linked(s) == s[0].bytes(s[0].size() as u32) + linked(s.drop_first()),
    decreases s.len(),
{
    if s.len() == 1 {
        assert(s.drop_last() =~= seq![]);
        assert(s.drop_first() =~= seq![]);
        assert(linked(s) =~= s[0].bytes(s[0].size() as u32) + linked(s.drop_first()));
    } else {
        let dl = s.drop_last();
        lemma_linked_front(dl);
        assert(dl.drop_first() =~= s.drop_first().drop_last());
        assert(s.drop_first().last() == s.last());
        assert(linked(s) =~= s[0].bytes(s[0].size() as u32) + linked(s.drop_first()));
    }
}

proof fn lemma_encode_front(s: Seq<EaRecord>)
    requires
        s.len() >= 2,
    ensures
        encode_chain(s) == s[0].bytes(s[0].size() as u32) + encode_chain(s.drop_first()),
{
    let dl = s.drop_last();
    lemma_linked_front(dl);
    assert(dl.drop_first() =~= s.drop_first().drop_last());
    assert(s.drop_first().last() == s.last());
    assert(encode_chain(s) =~= s[0].bytes(s[0].size() as u32) + encode_chain(s.drop_first()));
}

proof fn lemma_linked_len(s: Seq<EaRecord>)
    requires
        all_fit(s),
    ensures
        linked(s).len() >= 12 * s.len(),
        linked(s).len() % 4 == 0,
        s.len() > 0 ==> encode_chain(s).len() == linked(s).len(),
    decreases s.len(),
{
    if s.len() > 0 {
        assert(s.last().fits());
        lemma_record_len(s.last(), 0);
        lemma_record_len(s.last(), s.last().size() as u32);
        assert(all_fit(s.drop_last()));
        lemma_linked_len(s.drop_last());
    }
}

/// `r` placed after `p` is found at `p.len()`, whatever follows it.
proof fn lemma_split_concat(p: Seq<u8>, r: Seq<u8>, rest: Seq<u8>)
    ensures
        holds_at(p + (r + rest), p.len() as int, r),
        p + (r + rest) == (p + r) + rest,
{
    assert(p + (r + rest) =~= (p + r) + rest);
    assert forall|k: int| 0 <= k < r.len() implies #[trigger] (p + (r + rest))[p.len() + k]
        == r[k] by {
        assert((r + rest)[k] == r[k]);
    }
}

/// One step of decoding: the record at `pos` followed by what its link
/// leads to.
proof fn lemma_decode_step(b: Seq<u8>, pos: nat, e: EaRecord, next: u32, t: Seq<EaRecord>)
    requires
        e.fits(),
        holds_at(b, pos as int, e.bytes(next)),
        next == 0 ==> t == Seq::<EaRecord>::empty(),
        next != 0 ==> next % 4 == 0 && pos + next < b.len() && decode_from(b, (pos + next) as nat)
            == Some(t),
    ensures
        decode_from(b, pos) == Some(seq![e] + t),
{
    lemma_record_read(b, pos as int, e, next);
    if next == 0 {
        assert(seq![e] + t =~= seq![e]);
    }
}

proof fn lemma_decode_encoded(p: Seq<u8>, s: Seq<EaRecord>)
    requires
        s.len() >= 1,
        all_fit(s),
    ensures
        decode_from(p + encode_chain(s), p.len()) == Some(s),
    decreases s.len(),
{
    let e = s[0];
    assert(e.fits());
    lemma_record_len(e, 0);
    if s.len() == 1 {
        assert(s.drop_last() =~= seq![]);
        assert(encode_chain(s) =~= e.bytes(0) + seq![]);
        lemma_split_concat(p, e.bytes(0), seq![]);
        lemma_decode_step(p + encode_chain(s), p.len(), e, 0, seq![]);
        assert(seq![e] + seq![] =~= s);
    } else {
        let next = e.size() as u32;
        let t = s.drop_first();
        lemma_record_len(e, next);
        lemma_encode_front(s);
        let rest = encode_chain(t);
        lemma_split_concat(p, e.bytes(next), rest);
        assert(all_fit(t));
        lemma_linked_len(t);
        lemma_linked_len(t.drop_last());
        lemma_decode_encoded(p + e.bytes(next), t);
        lemma_decode_step(p + encode_chain(s), p.len(), e, next, t);
        assert(seq![e] + t =~= s);
    }
}

proof fn lemma_decode_truncated(p: Seq<u8>, s: Seq<EaRecord>, k: int)
    requires
        s.len() >= 1,
        all_fit(s),
        0 <= k < encode_chain(s).len(),
    ensures
        decode_from((p + encode_chain(s)).subrange(0, p.len() + k), p.len()) is None,
    decreases s.len(),
{
    let full = p + encode_chain(s);
    let b = full.subrange(0, p.len() + k);
    let pos = p.len() as int;
    let e = s[0];
    assert(e.fits());
    lemma_record_len(e, 0);
    lemma_record_len(e, e.size() as u32);
    let next: u32 = if s.len() == 1 {
        0
    } else {
        e.size() as u32
    };
    if s.len() == 1 {
        assert(s.drop_last() =~= seq![]);
        assert(encode_chain(s) =~= e.bytes(0));
    } else {
        lemma_encode_front(s);
    }
    assert(encode_chain(s).subrange(0, e.size()) =~= e.bytes(next));
    if k >= 12 {
        assert forall|j: int| 0 <= j < 12 implies #[trigger] b[pos + j] == e.bytes(next)[j] by {
            assert(b[pos + j] == encode_chain(s)[j]);
            assert(encode_chain(s).subrange(0, e.size())[j] == encode_chain(s)[j]);
        }
        lemma_record_header(b, pos, e, next);
        if k >= e.size() {
            assert(s.len() >= 2);
            if k > e.size() {
                let p2 = p + e.bytes(next);
                let rest = encode_chain(s.drop_first());
                assert(full =~= p2 + rest);
                assert(all_fit(s.drop_first()));
                lemma_decode_truncated(p2, s.drop_first(), k - e.size());
                assert(b =~= (p2 + rest).subrange(0, p2.len() + (k - e.size())));
            }
        }
    }
}

/// An encoded chain decodes to the entries it was built from.
pub proof fn lemma_chain_round_trip(s: Seq<EaRecord>)
    requires
        all_fit(s),
    ensures
        decode_chain(encode_chain(s)) == Some(s),
{
    if s.len() > 0 {
        lemma_linked_len(s);
        lemma_record_len(s.last(), 0);
        assert(all_fit(s.drop_last()));
        lemma_linked_len(s.drop_last());
        lemma_decode_encoded(seq![], s);
        assert(seq![] + encode_chain(s) =~= encode_chain(s));
    }
}

/// Every proper, non-empty prefix of an encoded chain is rejected: a record
/// that would reach past the end of the buffer is never read.
pub proof fn lemma_truncated_chain_rejected(s: Seq<EaRecord>, k: int)
    requires
        all_fit(s),
        0 < k < encode_chain(s).len(),
    ensures
        decode_chain(encode_chain(s).subrange(0, k)) is None,
{
    lemma_decode_truncated(seq![], s, k);
    assert((seq![] + encode_chain(s)).subrange(0, k) =~= encode_chain(s).subrange(0, k));
}

/// In an encoded chain, record `i` starts at a multiple of 4, and the chain
/// ends at one.
pub proof fn lemma_encoded_records_aligned(s: Seq<EaRecord>, i: int)
    requires
        all_fit(s),
        0 <= i < s.len(),
    ensures
        linked(s.take(i)).len() % 4 == 0,
        holds_at(
            encode_chain(s),
            linked(s.take(i)).len() as int,
            s[i].bytes(
                if i + 1 == s.len() {
                    0
                } else {
                    s[i].size() as u32
                },
            ),
        ),
        encode_chain(s).len() % 4 == 0,
    decreases s.len() - i,
{
    assert(all_fit(s.take(i)));
    lemma_linked_len(s.take(i));
    lemma_linked_len(s);
    let pre = linked(s.take(i));
    assert(s[i].fits());
    if i + 1 == s.len() {
        assert(s.take(i) =~= s.drop_last());
        assert(holds_at(encode_chain(s), pre.len() as int, s[i].bytes(0)));
    } else {
        lemma_encoded_records_aligned(s, i + 1);
        assert(s.take(i + 1).drop_last() =~= s.take(i));
        let pre2 = linked(s.take(i + 1));
        let r = s[i].bytes(s[i].size() as u32);
        assert(pre2 =~= pre + r);
        let big = encode_chain(s);
        let next_rec = s[i + 1].bytes(
            if i + 2 == s.len() {
                0
            } else {
                s[i + 1].size() as u32
            },
        );
        // the prefix of the chain up to record i+1 is `pre2`
        lemma_chain_prefix(s, i + 1);
        assert forall|k: int| 0 <= k < r.len() implies #[trigger] big[pre.len() + k] == r[k] by {
            assert(big[pre.len() + k] == pre2[pre.len() + k]);
        }
    }
}

/// The chain begins with the linked records before position `i`.
proof fn lemma_chain_prefix(s: Seq<EaRecord>, i: int)
    requires
        all_fit(s),
        0 <= i < s.len(),
    ensures
        linked(s.take(i)).len() <= encode_chain(s).len(),
        forall|k: int|
            0 <= k < linked(s.take(i)).len() ==> #[trigger] encode_chain(s)[k] == linked(
                s.take(i),
            )[k],
    decreases s.len() - i,
{
    if i + 1 == s.len() {
        assert(s.take(i) =~= s.drop_last());
    } else {
        lemma_chain_prefix(s, i + 1);
        assert(s.take(i + 1).drop_last() =~= s.take(i));
        assert(s.take(i + 1).last() == s[i]);
    }
}

/// Every record that decoding from an aligned position visits starts and ends
/// at a multiple of 4.
pub proof fn lemma_decoded_records_aligned(b: Seq<u8>, pos: nat, q: int)
    requires
        pos % 4 == 0,
        visits(b, pos, q),
        record_in_bounds(b, q),
    ensures
        q % 4 == 0,
        (q + ea_size(b[q + 5] as int, get_le16(b, q + 6) as int)) % 4 == 0,
    decreases b.len() - pos,
{
    lemma_align4(9 + b[q + 5] as int + get_le16(b, q + 6) as int);
    if q != pos {
        let next = get_le32(b, pos as int);
        lemma_decoded_records_aligned(b, (pos + next) as nat, q);
    }
}

/// Size of the record that holds a name of `name_len` and a value of
/// `value_len` bytes.
pub fn ea_entry_size_inner(name_len: u8, value_len: u16) -> (r: usize)
    ensures
        r == ea_size(name_len as int, value_len as int),
{
    let data_len = EA_BASE_SIZE_RAW + name_len as usize + value_len as usize;
    (data_len + EA_ALIGN - 1) / EA_ALIGN * EA_ALIGN
}

/// Decodes an EA buffer into its entries, in on-disk order.
pub fn parse_ea(buf: &[u8]) -> (r: Result<Vec<EaEntry>, AttrError>)
    ensures
        r is Ok <==> decode_chain(buf@) is Some,
        r is Ok ==> decode_chain(buf@) == Some(records_of(r->Ok_0@)),
        r is Err ==> r->Err_0 == AttrError::MalformedChain,
{
    let mut entries: Vec<EaEntry> = Vec::new();
    if buf.len() == 0 {
        assert(records_of(entries@) =~= seq![]);
        return Ok(entries);
    }
    let mut pos: usize = 0;
    assert(records_of(entries@) =~= seq![]);
    assert(seq![] + decode_from(buf@, 0).unwrap_or(seq![]) =~= decode_from(buf@, 0).unwrap_or(seq![]));
    loop
        invariant
            pos <= buf@.len(),
            buf@.len() > 0,
            decode_chain(buf@) == prepend(records_of(entries@), decode_from(buf@, pos as nat)),
        decreases buf@.len() - pos,
    {
        if buf.len() - pos < EA_MIN_RECORD {
            return Err(AttrError::MalformedChain);
        }
        let next = read_u32_le(buf, pos);
        let flags = buf[pos + 4];
        let name_len = buf[pos + 5];
        let value_len = read_u16_le(buf, pos + 6);
        let size = ea_entry_size_inner(name_len, value_len);
        if size > buf.len() - pos {
            return Err(AttrError::MalformedChain);
        }
        proof {
            lemma_align4(9 + name_len as int + value_len as int);
        }
        let name_start = pos + 8;
        let name_end = name_start + name_len as usize;
        let name = copy_range(buf, name_start, name_end);
        let value_start = name_end + 1;
        let value = copy_range(buf, value_start, value_start + value_len as usize);
        let ghost acc = records_of(entries@);
        let entry = EaEntry { flags, name, value };
        assert(entry@ == record_at(buf@, pos as int));
        entries.push(entry);
        assert(records_of(entries@) =~= acc.push(entry@));
        if next == 0 {
            assert(acc + seq![entry@] =~= acc.push(entry@));
            return Ok(entries);
        }
        if next % 4 != 0 || next as usize >= buf.len() - pos {
            return Err(AttrError::MalformedChain);
        }
        let ghost tail = decode_from(buf@, (pos + next) as nat);
        assert(prepend(acc, prepend(seq![entry@], tail)) == prepend(acc.push(entry@), tail)) by {
            if tail is Some {
                assert(acc + (seq![entry@] + tail->Some_0) =~= acc.push(entry@) + tail->Some_0);
            }
        }
        pos = pos + next as usize;
    }
}

/// Overwrites `v[i..i + 4]` with the little-endian bytes of `x`.
fn set_u32_le(v: &mut Vec<u8>, i: usize, x: u32)
    requires
        i + 4 <= old(v)@.len(),
    ensures
        final(v)@ == old(v)@.subrange(0, i as int) + le32(x) + old(v)@.subrange(
            i + 4,
            old(v)@.len() as int,
        ),
{
    let _len = v.len();
    v[i] = (x % 256) as u8;
    v[i + 1] = ((x / 256) % 256) as u8;
    v[i + 2] = ((x / 65536) % 256) as u8;
    v[i + 3] = (x / 16777216) as u8;
    assert(v@ =~= old(v)@.subrange(0, i as int) + le32(x) + old(v)@.subrange(
        i + 4,
        old(v)@.len() as int,
    ));
}

/// Builds an EA buffer one entry at a time, linking each new record to the
/// one before it.
pub struct EaOut {
    buffer: Vec<u8>,
    /// Start and size of the last record written.
    last_ea_info: Option<(usize, usize)>,
    count: usize,
    records: Ghost<Seq<EaRecord>>,
}

impl View for EaOut {
    type V = Seq<EaRecord>;

    /// The entries added so far, in order.
    closed spec fn view(&self) -> Seq<EaRecord> {
        self.records@
    }
}

impl EaOut {
    /// The buffer holds exactly the chain of the entries added so far.
    pub closed spec fn wf(&self) -> bool {
        &&& all_fit(self.records@)
        &&& self.buffer@ == encode_chain(self.records@)
        &&& self.count == self.records@.len()
        &&& match self.last_ea_info {
            None => self.records@.len() == 0,
            Some((i, n)) => {
                &&& self.records@.len() > 0
                &&& i == linked(self.records@.drop_last()).len()
                &&& n == self.records@.last().size()
            },
        }
    }

    pub fn new() -> (r: Self)
        ensures
            r.wf(),
            r@ == Seq::<EaRecord>::empty(),
    {
        EaOut { buffer: Vec::new(), last_ea_info: None, count: 0, records: Ghost(Seq::empty()) }
    }

    /// The chain built so far.
    pub fn buffer(&self) -> (r: &Vec<u8>)
        requires
            self.wf(),
        ensures
            r@ == encode_chain(self@),
        all_fit(self@),
    {
        &self.buffer
    }

    /// The chain built so far, taken out of the builder.
    pub fn into_buffer(self) -> (r: Vec<u8>)
        requires
            self.wf(),
        ensures
            r@ == encode_chain(self@),
        all_fit(self@),
    {
        self.buffer
    }

    /// Number of entries added.
    pub fn count(&self) -> (r: usize)
        requires
            self.wf(),
        ensures
            r == self@.len(),
    {
        self.count
    }

    /// Appends an entry with flags 0.
    pub fn add(&mut self, name: &[u8], value: &[u8])
        requires
            old(self).wf(),
            name@.len() <= 255,
            value@.len() <= 65535,
            encode_chain(old(self)@).len() + ea_size(name@.len() as int, value@.len() as int)
                <= usize::MAX,
        ensures
            final(self).wf(),
            final(self)@ == old(self)@.push(EaRecord { flags: 0, name: name@, value: value@ }),
    {
        self.add_record(0, name, value);
    }

    /// Appends `entry`, flags included.
    pub fn add_entry(&mut self, entry: &EaEntry)
        requires
            old(self).wf(),
            entry@.fits(),
            encode_chain(old(self)@).len() + entry@.size() <= usize::MAX,
        ensures
            final(self).wf(),
            final(self)@ == old(self)@.push(entry@),
    {
        self.add_record(entry.flags, entry.name.as_slice(), entry.value.as_slice());
    }

    fn add_record(&mut self, flags: u8, name: &[u8], value: &[u8])
        requires
            old(self).wf(),
            name@.len() <= 255,
            value@.len() <= 65535,
            encode_chain(old(self)@).len() + ea_size(name@.len() as int, value@.len() as int)
                <= usize::MAX,
        ensures
            final(self).wf(),
            final(self)@ == old(self)@.push(EaRecord { flags, name: name@, value: value@ }),
    {
        let ghost recs = self.records@;
        let ghost e = EaRecord { flags, name: name@, value: value@ };
        proof {
            lemma_record_len(e, 0);
            lemma_linked_len(recs);
        }
        let this_index = self.link_last();
        let size = push_record(&mut self.buffer, flags, name, value);
        self.last_ea_info = Some((this_index, size));
        self.count = self.count + 1;
        self.records = Ghost(recs.push(e));
        proof {
            assert(recs.push(e).drop_last() =~= recs);
            assert(all_fit(recs.push(e)));
        }
    }

    /// Points the last record at the end of the buffer, where the next record
    /// will go; returns that position.
    fn link_last(&mut self) -> (r: usize)
        requires
            old(self).wf(),
        ensures
            r == final(self).buffer@.len(),
            final(self).buffer@ == linked(old(self).records@),
            final(self).records == old(self).records,
            final(self).count == old(self).count,
            final(self).last_ea_info == old(self).last_ea_info,
    {
        let ghost recs = self.records@;
        match self.last_ea_info {
            Some((last_index, last_size)) => {
                proof {
                    let last = recs.last();
                    assert(last.fits());
                    lemma_record_len(last, 0);
                    assert(all_fit(recs.drop_last()));
                    lemma_linked_len(recs.drop_last());
                }
                set_u32_le(&mut self.buffer, last_index, last_size as u32);
                proof {
                    let last = recs.last();
                    let pre = linked(recs.drop_last());
                    assert(old(self).buffer@ =~= pre + le32(0) + last.body());
                    assert(old(self).buffer@.subrange(0, last_index as int) =~= pre);
                    assert(old(self).buffer@.subrange(
                        last_index + 4,
                        old(self).buffer@.len() as int,
                    ) =~= last.body());
                    assert(self.buffer@ =~= linked(recs));
                    lemma_record_len(last, last_size as u32);
                }
                let _len = self.buffer.len();
                last_index + last_size
            },
            None => {
                assert(recs =~= seq![]);
                0
            },
        }
    }
}

/// Appends the record for `flags`, `name` and `value` with next offset 0;
/// returns its size.
fn push_record(buf: &mut Vec<u8>, flags: u8, name: &[u8], value: &[u8]) -> (r: usize)
    requires
        name@.len() <= 255,
        value@.len() <= 65535,
    ensures
        final(buf)@ == old(buf)@ + (EaRecord { flags, name: name@, value: value@ }).bytes(0),
        r == (EaRecord { flags, name: name@, value: value@ }).size(),
{
    let ghost e = EaRecord { flags, name: name@, value: value@ };
    proof {
        lemma_record_len(e, 0);
    }
    let size = ea_entry_size_inner(name.len() as u8, value.len() as u16);
    push_u32_le(buf, 0);
    buf.push(flags);
    buf.push(name.len() as u8);
    push_u16_le(buf, value.len() as u16);
    push_all(buf, name);
    buf.push(0u8);
    push_all(buf, value);
    push_zeros(buf, size - EA_BASE_SIZE_RAW - name.len() - value.len());
    assert(buf@ =~= old(buf)@ + e.bytes(0));
    size
}

impl Default for EaOut {
    fn default() -> (r: Self)
        ensures
            r.wf(),
            r@ == Seq::<EaRecord>::empty(),
    {
        EaOut::new()
    }
}

/// Total size of the records of `s`.
pub open spec fn chain_size(s: Seq<EaRecord>) -> int
    decreases s.len(),
{
    if s.len() == 0 {
        0
    } else {
        chain_size(s.drop_last()) + s.last().size()
    }
}

proof fn lemma_chain_size(s: Seq<EaRecord>)
    requires
        all_fit(s),
    ensures
        encode_chain(s).len() == chain_size(s),
        linked(s).len() == chain_size(s),
    decreases s.len(),
{
    if s.len() > 0 {
        assert(s.last().fits());
        lemma_record_len(s.last(), 0);
        lemma_record_len(s.last(), s.last().size() as u32);
        assert(all_fit(s.drop_last()));
        lemma_chain_size(s.drop_last());
    }
}

proof fn lemma_chain_size_prefix(s: Seq<EaRecord>, i: int)
    requires
        0 <= i <= s.len(),
        all_fit(s),
    ensures
        chain_size(s.take(i)) <= chain_size(s),
    decreases s.len() - i,
{
    if i < s.len() {
        assert(s[i].fits());
        lemma_record_len(s[i], 0);
        lemma_chain_size_prefix(s, i + 1);
        assert(s.take(i + 1).drop_last() =~= s.take(i));
    } else {
        assert(s.take(i) =~= s);
    }
}

/// The EA buffer holding `entries`, or `None` where a name or value is too
/// long for its length field or the buffer would not fit in memory.
pub fn encode_entries(entries: &Vec<EaEntry>) -> (r: Option<Vec<u8>>)
    ensures
        r is Some <==> (all_fit(records_of(entries@)) && encode_chain(records_of(entries@)).len()
            <= usize::MAX),
        r matches Some(b) ==> b@ == encode_chain(records_of(entries@)),
{
    let ghost s = records_of(entries@);
    let mut out = EaOut::new();
    let mut i: usize = 0;
    assert(s.take(0) =~= seq![]);
    while i < entries.len()
        invariant
            i <= entries@.len(),
            s == records_of(entries@),
            out.wf(),
            out@ == s.take(i as int),
            all_fit(s.take(i as int)),
        decreases entries@.len() - i,
    {
        let e = &entries[i];
        assert(s[i as int] == e@);
        if e.name.len() > 255 || e.value.len() > 65535 {
            assert(!s[i as int].fits());
            return None;
        }
        let size = ea_entry_size_inner(e.name.len() as u8, e.value.len() as u16);
        let cur = out.buffer().len();
        proof {
            lemma_chain_size(s.take(i as int));
        }
        if size > usize::MAX - cur {
            proof {
                let t = s.take(i + 1);
                assert(t.drop_last() =~= s.take(i as int));
                if all_fit(s) {
                    lemma_chain_size_prefix(s, i + 1);
                    lemma_chain_size(s);
                }
            }
            return None;
        }
        out.add_entry(e);
        proof {
            assert(s.take(i + 1) =~= s.take(i as int).push(e@));
        }
        i = i + 1;
    }
    assert(s.take(i as int) =~= s);
    let b = out.into_buffer();
    let _len = b.len();
    Some(b)
}

impl EaEntry {
    /// A copy of the entry.
    pub fn copy(&self) -> (r: EaEntry)
        ensures
            r@ == self@,
    {
        let r = EaEntry {
            flags: self.flags,
            name: copy_range(self.name.as_slice(), 0, self.name.len()),
            value: copy_range(self.value.as_slice(), 0, self.value.len()),
        };
        assert(r.name@ =~= self.name@);
        assert(r.value@ =~= self.value@);
        r
    }
}

} // verus!
