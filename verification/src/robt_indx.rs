//! Blocks of the bottoms-up B-tree: fixed-size leaf (`z`) and
//! intermediate (`m`) blocks, big-endian throughout.
//!
//! Block layout: a `u32` entry count, `n` `u32` offsets (relative to
//! the block start), the serialized entries, zero-padding up to the
//! configured block size.
//!
//! An m-entry carries a child's first key, its file position and
//! whether the child is a leaf. A z-entry carries one index entry:
//! key, current value (inline or a value-log reference) and the
//! value-log references of its deltas.

use vstd::prelude::*;

use crate::base::{Diff, OrdKey, Serialize};
use crate::entry::{value_seqno, DeltaView, Entry, ValueView};
use crate::error::Error;
use crate::util::{
    append_u32, append_u64, copy_range, read_u32, read_u64, u32_bytes, u32_of_bytes, u64_bytes,
    u64_of_bytes, lemma_u32_bytes_id, lemma_u64_bytes_id,
};
use crate::vlog::PayloadView;
use crate::Result;

verus! {

// ----------------------------------------------------------- m entries

/// Bytes of an m-entry: a header word carrying the leaf flag (bit
/// 63) and the key length, the child position, then the key bytes.
pub open spec fn m_entry_bytes(kb: Seq<u8>, fpos: u64, is_z: bool) -> Seq<u8> {
    u64_bytes(
        ((if is_z {
            0x8000000000000000u64
        } else {
            0u64
        }) | (kb.len() as u64)) as u64,
    ) + u64_bytes(fpos) + kb
}

/// What a buffer prefix parses to as an m-entry: key bytes, child
/// position, leaf flag, bytes consumed.
pub open spec fn parse_m_entry(b: Seq<u8>) -> Option<(Seq<u8>, u64, bool, int)> {
    if b.len() < 16 {
        None
    } else {
        let hdr = u64_of_bytes(b.subrange(0, 8));
        let klen = (hdr & 0x7FFFFFFFFFFFFFFF) as int;
        let is_z = (hdr >> 63) == 1;
        let fpos = u64_of_bytes(b.subrange(8, 16));
        if 16 + klen > b.len() {
            None
        } else {
            Some((b.subrange(16, 16 + klen), fpos, is_z, 16 + klen))
        }
    }
}

/// Encoding then parsing an m-entry gives it back.
pub proof fn lemma_m_entry_roundtrip(kb: Seq<u8>, fpos: u64, is_z: bool)
    requires
        kb.len() <= 0x7FFFFFFFFFFFFFFF,
    ensures
        parse_m_entry(m_entry_bytes(kb, fpos, is_z)) == Some(
            (kb, fpos, is_z, m_entry_bytes(kb, fpos, is_z).len() as int),
        ),
{
    let b = m_entry_bytes(kb, fpos, is_z);
    let flag = if is_z {
        0x8000000000000000u64
    } else {
        0u64
    };
    let kl = kb.len() as u64;
    let hdr = (flag | kl) as u64;
    assert(b.subrange(0, 8) =~= u64_bytes(hdr));
    lemma_u64_bytes_id(hdr);
    assert((hdr & 0x7FFFFFFFFFFFFFFF) == kl && ((hdr >> 63) == 1 <==> flag
        == 0x8000000000000000u64)) by (bit_vector)
        requires
            hdr == (flag | kl) && kl <= 0x7FFFFFFFFFFFFFFFu64 && (flag == 0
                || flag == 0x8000000000000000u64),
    ;
    assert(b.subrange(8, 16) =~= u64_bytes(fpos));
    lemma_u64_bytes_id(fpos);
    assert(b.subrange(16, 16 + kb.len() as int) =~= kb);
}

/// Append an m-entry.
pub fn append_m_entry(buf: &mut Vec<u8>, kb: &Vec<u8>, fpos: u64, is_z: bool) -> (r: Result<
    usize,
>)
    ensures
        r matches Ok(n) ==> kb@.len() <= 0x7FFFFFFFFFFFFFFF && final(buf)@ == old(buf)@
            + m_entry_bytes(kb@, fpos, is_z) && n == m_entry_bytes(kb@, fpos, is_z).len(),
        r is Err ==> final(buf)@ == old(buf)@,
        r is Ok <==> kb@.len() <= 0x7FFFFFFFFFFFFFFF && kb@.len() + 16 <= usize::MAX,
        r matches Err(e) ==> e matches Error::MBlockOverflow(_),
{
    if (kb.len() as u64) > 0x7FFFFFFFFFFFFFFFu64 || kb.len() > usize::MAX - 16 {
        return Err(Error::MBlockOverflow(kb.len()));
    }
    let flag: u64 = if is_z {
        0x8000000000000000
    } else {
        0
    };
    append_u64(buf, flag | (kb.len() as u64));
    append_u64(buf, fpos);
    crate::dlog_entry::append_bytes(buf, kb);
    proof {
        assert(final(buf)@ =~= old(buf)@ + m_entry_bytes(kb@, fpos, is_z));
    }
    Ok(16 + kb.len())
}

// ----------------------------------------------------------- z entries

/// Bytes of a z-entry. Header bits: 63 marks a tombstone, 62 marks a
/// value stored in the value-log; the low bits carry the key length.
/// The seqno follows, then the value (inline with a `u64` length, or
/// a `{fpos, length}` pair), then a `u64` delta count and one
/// `{delete-flag|seqno, fpos, length}` triple per delta reference.
pub open spec fn z_entry_bytes<K: OrdKey + Serialize, V: Diff>(
    kb: Seq<u8>,
    value: ValueView<<V as View>::V>,
    vb: Option<Seq<u8>>,
    deltas: Seq<DeltaView<<V::D as View>::V>>,
) -> Seq<u8> {
    let deleted = value is D;
    let invlog = match value {
        ValueView::U { value: PayloadView::Reference { .. }, .. } => true,
        _ => false,
    };
    let hdr = ((if deleted {
        0x8000000000000000u64
    } else {
        0u64
    }) | (if invlog {
        0x4000000000000000u64
    } else {
        0u64
    }) | (kb.len() as u64)) as u64;
    let value_part = match value {
        ValueView::D { .. } => Seq::<u8>::empty(),
        ValueView::U { value: pv, .. } => match pv {
            PayloadView::Reference { fpos, length } => u64_bytes(fpos) + u64_bytes(length),
            _ => u64_bytes(vb.unwrap().len() as u64) + vb.unwrap(),
        },
    };
    u64_bytes(hdr) + u64_bytes(value_seqno(value)) + value_part + kb + u64_bytes(
        deltas.len() as u64,
    ) + z_deltas_bytes::<V>(deltas)
}

/// Bytes of the delta reference list of a z-entry.
pub open spec fn z_deltas_bytes<V: Diff>(deltas: Seq<DeltaView<<V::D as View>::V>>) -> Seq<u8>
    decreases deltas.len(),
{
    if deltas.len() == 0 {
        Seq::empty()
    } else {
        z_deltas_bytes::<V>(deltas.drop_last()) + z_delta_bytes::<V>(deltas.last())
    }
}

/// Bytes of one delta reference: a delete flag with the seqno, then
/// the value-log position and length (zero for delete deltas).
pub open spec fn z_delta_bytes<V: Diff>(d: DeltaView<<V::D as View>::V>) -> Seq<u8> {
    match d {
        DeltaView::D { seqno } => u64_bytes(1) + u64_bytes(seqno) + u64_bytes(0) + u64_bytes(0),
        DeltaView::U { delta, seqno } => match delta {
            PayloadView::Reference { fpos, length } => u64_bytes(0) + u64_bytes(seqno)
                + u64_bytes(fpos) + u64_bytes(length),
            _ => u64_bytes(0) + u64_bytes(seqno) + u64_bytes(0) + u64_bytes(0),
        },
    }
}

// ----------------------------------------------------------- m blocks

/// One entry of an intermediate block.
pub struct MItem {
    /// First key of the child block.
    pub key: Vec<u8>,
    /// File position of the child block.
    pub fpos: u64,
    /// Whether the child is a leaf block.
    pub is_z: bool,
}

impl View for MItem {
    type V = (Seq<u8>, u64, bool);

    open spec fn view(&self) -> (Seq<u8>, u64, bool) {
        (self.key@, self.fpos, self.is_z)
    }
}

impl DeepView for MItem {
    type V = (Seq<u8>, u64, bool);

    open spec fn deep_view(&self) -> (Seq<u8>, u64, bool) {
        self@
    }
}

/// The concatenated records of an intermediate block.
pub open spec fn m_items_bytes(items: Seq<(Seq<u8>, u64, bool)>) -> Seq<u8>
    decreases items.len(),
{
    if items.len() == 0 {
        Seq::empty()
    } else {
        m_items_bytes(items.drop_last()) + m_entry_bytes(
            items.last().0,
            items.last().1,
            items.last().2,
        )
    }
}

/// The offset table of an intermediate block: each record's start,
/// counted from the block head of size `head`.
pub open spec fn m_offsets_bytes(items: Seq<(Seq<u8>, u64, bool)>, head: int) -> Seq<u8>
    decreases items.len(),
{
    if items.len() == 0 {
        Seq::empty()
    } else {
        m_offsets_bytes(items.drop_last(), head) + u32_bytes(
            (head + m_items_bytes(items.drop_last()).len()) as u32,
        )
    }
}

/// The full bytes of a finished intermediate block.
pub open spec fn m_block_bytes(items: Seq<(Seq<u8>, u64, bool)>, blocksize: int) -> Seq<u8> {
    let head = 4 + 4 * items.len();
    u32_bytes(items.len() as u32) + m_offsets_bytes(items, head as int) + m_items_bytes(items)
        + crate::bubt_config::zeros(blocksize - head - m_items_bytes(items).len())
}

/// Whether the records fit a finished block of the given size.
pub open spec fn m_block_fits(items: Seq<(Seq<u8>, u64, bool)>, blocksize: int) -> bool {
    &&& items.len() <= 0x0FFFFFFF
    &&& 4 + 4 * items.len() + m_items_bytes(items).len() <= blocksize
    &&& 4 + 4 * items.len() + m_items_bytes(items).len() <= 0xFFFFFFFF
}

/// The offset table holds four bytes per record.
pub proof fn lemma_m_offsets_bytes_len(items: Seq<(Seq<u8>, u64, bool)>, head: int)
    ensures
        m_offsets_bytes(items, head).len() == 4 * items.len(),
    decreases items.len(),
{
    if items.len() > 0 {
        lemma_m_offsets_bytes_len(items.drop_last(), head);
    }
}

/// A prefix of the records takes no more bytes than all of them.
pub proof fn lemma_m_items_bytes_prefix(items: Seq<(Seq<u8>, u64, bool)>, i: int)
    requires
        0 <= i <= items.len(),
    ensures
        m_items_bytes(items.take(i)).len() <= m_items_bytes(items).len(),
    decreases items.len() - i,
{
    if i < items.len() {
        lemma_m_items_bytes_prefix(items, i + 1);
        assert(items.take(i + 1).drop_last() =~= items.take(i));
    } else {
        assert(items.take(i) =~= items);
    }
}

/// The concatenated entry chunks of a leaf block.
pub open spec fn z_chunks_bytes(chunks: Seq<Seq<u8>>) -> Seq<u8>
    decreases chunks.len(),
{
    if chunks.len() == 0 {
        Seq::empty()
    } else {
        z_chunks_bytes(chunks.drop_last()) + chunks.last()
    }
}

/// The offset table of a leaf block: each chunk's start, counted
/// from the block head of size `head`.
pub open spec fn z_offsets_bytes(chunks: Seq<Seq<u8>>, head: int) -> Seq<u8>
    decreases chunks.len(),
{
    if chunks.len() == 0 {
        Seq::empty()
    } else {
        z_offsets_bytes(chunks.drop_last(), head) + u32_bytes(
            (head + z_chunks_bytes(chunks.drop_last()).len()) as u32,
        )
    }
}

/// The full bytes of a finished leaf block.
pub open spec fn z_block_bytes(chunks: Seq<Seq<u8>>, blocksize: int) -> Seq<u8> {
    let head = 4 + 4 * chunks.len();
    u32_bytes(chunks.len() as u32) + z_offsets_bytes(chunks, head as int) + z_chunks_bytes(chunks)
        + crate::bubt_config::zeros(blocksize - head - z_chunks_bytes(chunks).len())
}

/// Whether the chunks fit a finished leaf block of the given size.
pub open spec fn z_block_fits(chunks: Seq<Seq<u8>>, blocksize: int) -> bool {
    &&& chunks.len() <= 0x0FFFFFFF
    &&& 4 + 4 * chunks.len() + z_chunks_bytes(chunks).len() <= blocksize
    &&& 4 + 4 * chunks.len() + z_chunks_bytes(chunks).len() <= 0xFFFFFFFF
}

/// The leaf offset table holds four bytes per chunk.
pub proof fn lemma_z_offsets_bytes_len(chunks: Seq<Seq<u8>>, head: int)
    ensures
        z_offsets_bytes(chunks, head).len() == 4 * chunks.len(),
    decreases chunks.len(),
{
    if chunks.len() > 0 {
        lemma_z_offsets_bytes_len(chunks.drop_last(), head);
    }
}

/// A prefix of the chunks takes no more bytes than all of them.
pub proof fn lemma_z_chunks_bytes_prefix(chunks: Seq<Seq<u8>>, i: int)
    requires
        0 <= i <= chunks.len(),
    ensures
        z_chunks_bytes(chunks.take(i)).len() <= z_chunks_bytes(chunks).len(),
    decreases chunks.len() - i,
{
    if i < chunks.len() {
        lemma_z_chunks_bytes_prefix(chunks, i + 1);
        assert(chunks.take(i + 1).drop_last() =~= chunks.take(i));
    } else {
        assert(chunks.take(i) =~= chunks);
    }
}

/// Word `i` of the leaf offset table encodes where chunk `i` starts.
pub proof fn lemma_z_offsets_slot(chunks: Seq<Seq<u8>>, head: int, i: int)
    requires
        0 <= i < chunks.len(),
    ensures
        z_offsets_bytes(chunks, head).subrange(4 * i, 4 * i + 4) == u32_bytes(
            (head + z_chunks_bytes(chunks.take(i)).len()) as u32,
        ),
    decreases chunks.len(),
{
    lemma_z_offsets_bytes_len(chunks, head);
    lemma_z_offsets_bytes_len(chunks.drop_last(), head);
    if i == chunks.len() - 1 {
        assert(chunks.take(i) =~= chunks.drop_last());
        assert(z_offsets_bytes(chunks, head).subrange(4 * i, 4 * i + 4) =~= u32_bytes(
            (head + z_chunks_bytes(chunks.take(i)).len()) as u32,
        ));
    } else {
        lemma_z_offsets_slot(chunks.drop_last(), head, i);
        assert(chunks.drop_last().take(i) =~= chunks.take(i));
        assert(z_offsets_bytes(chunks, head).subrange(4 * i, 4 * i + 4) =~= z_offsets_bytes(
            chunks.drop_last(),
            head,
        ).subrange(4 * i, 4 * i + 4));
    }
}

/// Chunk `i` sits in the concatenated chunk bytes right after the
/// earlier chunks.
pub proof fn lemma_z_chunks_slot(chunks: Seq<Seq<u8>>, i: int)
    requires
        0 <= i < chunks.len(),
    ensures
        z_chunks_bytes(chunks).subrange(
            z_chunks_bytes(chunks.take(i)).len() as int,
            z_chunks_bytes(chunks.take(i)).len() as int + chunks[i].len(),
        ) == chunks[i],
    decreases chunks.len(),
{
    if i == chunks.len() - 1 {
        assert(chunks.take(i) =~= chunks.drop_last());
        assert(z_chunks_bytes(chunks).subrange(
            z_chunks_bytes(chunks.take(i)).len() as int,
            z_chunks_bytes(chunks.take(i)).len() as int + chunks[i].len(),
        ) =~= chunks[i]);
    } else {
        lemma_z_chunks_slot(chunks.drop_last(), i);
        assert(chunks.drop_last().take(i) =~= chunks.take(i));
        lemma_z_chunks_bytes_prefix(chunks.drop_last(), i + 1);
        assert(chunks.drop_last().take(i + 1).drop_last() =~= chunks.take(i));
        assert(chunks.drop_last().take(i + 1).last() == chunks[i]);
        assert(z_chunks_bytes(chunks).subrange(
            z_chunks_bytes(chunks.take(i)).len() as int,
            z_chunks_bytes(chunks.take(i)).len() as int + chunks[i].len(),
        ) =~= z_chunks_bytes(chunks.drop_last()).subrange(
            z_chunks_bytes(chunks.take(i)).len() as int,
            z_chunks_bytes(chunks.take(i)).len() as int + chunks[i].len(),
        ));
    }
}

/// Inside a finished leaf block, offset-table word `i` points at
/// chunk `i`, and the bytes there are exactly chunk `i`: reading a
/// finished block back recovers every chunk that was inserted.
pub proof fn lemma_z_block_slots(chunks: Seq<Seq<u8>>, blocksize: int, i: int)
    requires
        z_block_fits(chunks, blocksize),
        0 <= i < chunks.len(),
    ensures
        ({
            let b = z_block_bytes(chunks, blocksize);
            let off = 4 + 4 * chunks.len() as int + z_chunks_bytes(chunks.take(i)).len() as int;
            &&& u32_of_bytes(b.subrange(4 + 4 * i, 8 + 4 * i)) == off
            &&& b.subrange(off, off + chunks[i].len() as int) == chunks[i]
        }),
{
    let head = 4 + 4 * chunks.len();
    let b = z_block_bytes(chunks, blocksize);
    let off = head + z_chunks_bytes(chunks.take(i)).len() as int;
    lemma_z_offsets_bytes_len(chunks, head as int);
    lemma_z_offsets_slot(chunks, head as int, i);
    lemma_z_chunks_bytes_prefix(chunks, i);
    assert(b.subrange(4 + 4 * i, 8 + 4 * i) =~= z_offsets_bytes(chunks, head as int).subrange(
        4 * i,
        4 * i + 4,
    ));
    lemma_u32_bytes_id((head + z_chunks_bytes(chunks.take(i)).len()) as u32);
    lemma_z_chunks_slot(chunks, i);
    lemma_z_chunks_bytes_prefix(chunks, i + 1);
    assert(chunks.take(i + 1).drop_last() =~= chunks.take(i));
    assert(chunks.take(i + 1).last() == chunks[i]);
    assert(b.subrange(off, off + chunks[i].len() as int) =~= z_chunks_bytes(chunks).subrange(
        z_chunks_bytes(chunks.take(i)).len() as int,
        z_chunks_bytes(chunks.take(i)).len() as int + chunks[i].len() as int,
    ));
}

/// An intermediate block being built or read.
pub enum MBlock {
    Encode { items: Vec<MItem>, used: usize, m_blocksize: usize },
    Decode { block: Vec<u8>, count: usize },
}

impl MBlock {
    /// A fresh encoder for blocks of `m_blocksize` bytes.
    pub fn new_encode(m_blocksize: usize) -> (r: MBlock)
        ensures
            r matches MBlock::Encode { items, used, m_blocksize: mb } && items@.len() == 0 && used
                == 8 && mb == m_blocksize,
    {
        MBlock::Encode { items: Vec::new(), used: 8, m_blocksize }
    }

    /// Start a fresh block, keeping the configuration.
    pub fn reset(&mut self)
        requires
            (*old(self)) is Encode,
        ensures
            (*final(self)) matches MBlock::Encode { items, used, m_blocksize } && items@.len() == 0
                && used == 8 && ((*old(self)) matches MBlock::Encode { m_blocksize: omb, .. }
                && m_blocksize == omb),
    {
        match self {
            MBlock::Encode { items, used, .. } => {
                *items = Vec::new();
                *used = 8;
            },
            MBlock::Decode { .. } => {},
        }
    }

    /// Whether the block holds a first key yet.
    pub fn has_first_key(&self) -> (r: bool)
        ensures
            (*self) matches MBlock::Encode { items, .. } ==> r == (items@.len() > 0),
    {
        match self {
            MBlock::Encode { items, .. } => items.len() > 0,
            MBlock::Decode { .. } => false,
        }
    }

    /// The first key of the block.
    pub fn as_first_key(&self) -> (r: Result<&Vec<u8>>)
        ensures
            ((*self) matches MBlock::Encode { items, .. } && items@.len() > 0) ==> ((*self) matches
            MBlock::Encode { items, .. } && (r matches Ok(k) && k == items@[0].key)),
    {
        match self {
            MBlock::Encode { items, .. } => {
                if items.len() > 0 {
                    Ok(&items[0].key)
                } else {
                    Err(Error::UnReachable)
                }
            },
            MBlock::Decode { .. } => Err(Error::UnReachable),
        }
    }

    /// Insert a pointer to a child m-block: succeeds exactly when the
    /// block stays within its configured size, recording the entry;
    /// otherwise `MBlockOverflow` and the block is unchanged.
    pub fn insertm(&mut self, key: &Vec<u8>, fpos: u64) -> (r: Result<usize>)
        requires
            (*old(self)) is Encode,
        ensures
            (*final(self)) is Encode,
            r is Ok <==> old(self)->Encode_used + 20 + key@.len() <= old(self)->Encode_m_blocksize && old(self)->Encode_items@.len() < 0x7FFFFFFF,
            r matches Ok(n) ==> final(self)->Encode_items.deep_view() == old(self)->Encode_items.deep_view().push((key@, fpos, false)) && n == final(self)->Encode_items@.len() && final(self)->Encode_m_blocksize == old(self)->Encode_m_blocksize,
            r is Err ==> *final(self) == *old(self),
            r matches Err(e) ==> e matches Error::MBlockOverflow(_),
    {
        self.insert_item(key, fpos, false)
    }

    /// Insert a pointer to a child z-block, as [`MBlock::insertm`].
    pub fn insertz(&mut self, key: &Vec<u8>, fpos: u64) -> (r: Result<usize>)
        requires
            (*old(self)) is Encode,
        ensures
            (*final(self)) is Encode,
            r is Ok <==> old(self)->Encode_used + 20 + key@.len() <= old(self)->Encode_m_blocksize && old(self)->Encode_items@.len() < 0x7FFFFFFF,
            r matches Ok(n) ==> final(self)->Encode_items.deep_view() == old(self)->Encode_items.deep_view().push((key@, fpos, true)) && n == final(self)->Encode_items@.len() && final(self)->Encode_m_blocksize == old(self)->Encode_m_blocksize,
            r is Err ==> *final(self) == *old(self),
            r matches Err(e) ==> e matches Error::MBlockOverflow(_),
    {
        self.insert_item(key, fpos, true)
    }

    /// Insert one child pointer, tracking the block bytes it will
    /// take: the entry itself plus its offset-table slot.
    fn insert_item(&mut self, key: &Vec<u8>, fpos: u64, is_z: bool) -> (r: Result<usize>)
        requires
            (*old(self)) is Encode,
        ensures
            (*final(self)) is Encode,
            r is Ok <==> old(self)->Encode_used + 20 + key@.len() <= old(self)->Encode_m_blocksize && old(self)->Encode_items@.len() < 0x7FFFFFFF,
            r matches Ok(n) ==> final(self)->Encode_items.deep_view() == old(self)->Encode_items.deep_view().push((key@, fpos, is_z)) && n == final(self)->Encode_items@.len() && final(self)->Encode_used == old(self)->Encode_used + 20
                + key@.len() && final(self)->Encode_m_blocksize == old(self)->Encode_m_blocksize,
            r is Err ==> *final(self) == *old(self),
            r matches Err(e) ==> e matches Error::MBlockOverflow(_),
    {
        match self {
            MBlock::Encode { items, used, m_blocksize } => {
                if key.len() > usize::MAX - 20 {
                    return Err(Error::MBlockOverflow(key.len()));
                }
                let need = 16 + key.len() + 4;
                if *used > usize::MAX - need || *used + need > *m_blocksize {
                    return Err(Error::MBlockOverflow(*used + 0));
                }
                if items.len() >= 0x7FFFFFFF {
                    return Err(Error::MBlockOverflow(*used));
                }
                let ghost predv = items.deep_view();
                let ghost prevv = items@;
                let item = MItem { key: copy_vec(key), fpos, is_z };
                items.push(item);
                proof {
                    assert forall|t: int|
                        0 <= t < items@.len() implies #[trigger] items.deep_view()[t]
                        == predv.push((key@, fpos, is_z))[t] by {
                        assert(items.deep_view()[t] == items@[t].deep_view());
                        if t < prevv.len() {
                            assert(items@[t] == prevv[t]);
                            assert(prevv[t].deep_view() == predv[t]);
                        }
                    }
                    assert(items.deep_view() =~= predv.push((key@, fpos, is_z)));
                }
                *used = *used + need;
                Ok(items.len())
            },
            MBlock::Decode { .. } => {
                proof {
                    assert(false);
                }
                Err(Error::UnReachable)
            },
        }
    }

    /// Produce the finished block: count, offset table, entries,
    /// zero-padding to the block size. Succeeds whenever the recorded
    /// entries fit the block.
    #[verifier::rlimit(100)]
    #[verifier::spinoff_prover]
    pub fn finalize(&self) -> (r: Result<Vec<u8>>)
        requires
            (*self) is Encode,
        ensures
            r matches Ok(b) ==> b@ == m_block_bytes(
                self->Encode_items.deep_view(),
                self->Encode_m_blocksize as int,
            ) && b@.len() == self->Encode_m_blocksize,
            m_block_fits(self->Encode_items.deep_view(), self->Encode_m_blocksize as int)
                ==> r is Ok,
            r matches Err(e) ==> e matches Error::MBlockOverflow(_),
    {
        match self {
            MBlock::Encode { items, used, m_blocksize } => {
                let ghost iv = items.deep_view();
                let ghost bsz = *m_blocksize as int;
                let mut entries: Vec<u8> = Vec::new();
                let mut offb: Vec<u8> = Vec::new();
                if items.len() > 0x0FFFFFFF {
                    return Err(Error::MBlockOverflow(items.len()));
                }
                let head: usize = 4 + 4 * items.len();
                if head > *m_blocksize {
                    return Err(Error::MBlockOverflow(head));
                }
                let mut i: usize = 0;
                while i < items.len()
                    invariant
                        i <= items@.len(),
                        iv == items.deep_view(),
                        iv == self->Encode_items.deep_view(),
                        bsz == self->Encode_m_blocksize as int,
                        iv.len() == items@.len(),
                        head == 4 + 4 * iv.len(),
                        head <= bsz,
                        iv.len() <= 0x0FFFFFFF,
                        entries@ == m_items_bytes(iv.take(i as int)),
                        offb@ == m_offsets_bytes(iv.take(i as int), head as int),
                    decreases items@.len() - i,
                {
                    if entries.len() > usize::MAX - head || entries.len() + head
                        > 0xFFFFFFFFusize {
                        proof {
                            if m_block_fits(iv, bsz) {
                                lemma_m_items_bytes_prefix(iv, i as int);
                                assert(false);
                            }
                        }
                        return Err(Error::MBlockOverflow(entries.len()));
                    }
                    append_u32(&mut offb, (head + entries.len()) as u32);
                    let ghost pre = entries@;
                    match append_m_entry(&mut entries, &items[i].key, items[i].fpos, items[i].is_z)
                    {
                        Ok(_) => (),
                        Err(e) => {
                            proof {
                                if m_block_fits(iv, bsz) {
                                    lemma_m_items_bytes_prefix(iv, i as int + 1);
                                    assert(iv.take(i as int + 1).drop_last() =~= iv.take(i as int));
                                    assert(iv.take(i as int + 1).last() == iv[i as int]);
                                    assert(iv[i as int] == items@[i as int].deep_view());
                                    assert(iv[i as int].0 == items@[i as int].key@);
                                    assert(m_items_bytes(iv.take(i as int + 1)).len() == entries@.len()
                                        + 16 + items@[i as int].key@.len());
                                    assert(false);
                                }
                            }
                            return Err(e);
                        },
                    }
                    proof {
                        assert(iv.take(i as int + 1).drop_last() =~= iv.take(i as int));
                        assert(iv.take(i as int + 1).last() == iv[i as int]);
                        assert(iv[i as int] == items@[i as int].deep_view());
                        assert(iv[i as int] == (items@[i as int].key@, items@[i as int].fpos,
                            items@[i as int].is_z));
                        assert(entries@ =~= m_items_bytes(iv.take(i as int + 1)));
                        assert(offb@ =~= m_offsets_bytes(iv.take(i as int + 1), head as int));
                    }
                    i = i + 1;
                }
                proof {
                    assert(iv.take(i as int) =~= iv);
                }
                if entries.len() > usize::MAX - head || head + entries.len() > *m_blocksize {
                    proof {
                        if m_block_fits(iv, bsz) {
                            assert(false);
                        }
                    }
                    return Err(Error::MBlockOverflow(head + 0));
                }
                proof {
                    lemma_m_offsets_bytes_len(iv, head as int);
                }
                let mut block: Vec<u8> = Vec::new();
                append_u32(&mut block, items.len() as u32);
                crate::dlog_entry::append_bytes(&mut block, &offb);
                crate::dlog_entry::append_bytes(&mut block, &entries);
                let pad = *m_blocksize - head - entries.len();
                let mut p: usize = 0;
                while p < pad
                    invariant
                        p <= pad,
                        block@ =~= u32_bytes(iv.len() as u32) + offb@ + entries@
                            + crate::bubt_config::zeros(p as int),
                        offb@.len() == 4 * iv.len(),
                    decreases pad - p,
                {
                    block.push(0);
                    proof {
                        assert(block@ =~= u32_bytes(iv.len() as u32) + offb@ + entries@
                            + crate::bubt_config::zeros(p as int + 1));
                    }
                    p = p + 1;
                }
                proof {
                    assert(block@ =~= m_block_bytes(iv, bsz));
                }
                Ok(block)
            },
            MBlock::Decode { .. } => {
                proof {
                    assert(false);
                }
                Err(Error::UnReachable)
            },
        }
    }

    /// Wrap the bytes of an on-disk m-block for reading.
    pub fn new_decode(block: Vec<u8>) -> (r: Result<MBlock>)
        ensures
            r matches Ok(m) ==> m is Decode,
    {
        if block.len() < 4 {
            return Err(Error::DecodeFail(4));
        }
        let count_u = read_u32(block.as_slice(), 0);
        if count_u > 0x7FFFFFFF {
            return Err(Error::DecodeFail(4));
        }
        let count = count_u as usize;
        if count > (block.len() - 4) / 4 {
            return Err(Error::DecodeFail(count));
        }
        Ok(MBlock::Decode { block, count })
    }

    /// Number of entries in a decoded block.
    pub fn len(&self) -> (r: usize)
        ensures
            (*self) matches MBlock::Decode { count, .. } ==> r == count,
    {
        match self {
            MBlock::Decode { count, .. } => *count,
            MBlock::Encode { items, .. } => items.len(),
        }
    }

    /// The entry at `index` of a decoded block: the child record the
    /// offset table points at, parsed per [`parse_m_entry`]. Past the
    /// last entry the block is exhausted.
    pub fn to_entry(&self, index: usize) -> (r: Result<(Vec<u8>, u64, bool)>)
        ensures
            r matches Ok(p) ==> ((*self) matches MBlock::Decode { block, count } && index < count
                && ({
                let off = u32_of_bytes(block@.subrange(4 + 4 * index, 8 + 4 * index)) as int;
                &&& (parse_m_entry(block@.skip(off)) matches Some(q) && q.0 == p.0@ && q.1 == p.1
                    && q.2 == p.2)
            })),
            ((*self) is Decode && index >= self->Decode_count) ==> (r matches Err(e) && e
                == Error::MBlockExhausted),
    {
        match self {
            MBlock::Decode { block, count } => {
                if index >= *count {
                    return Err(Error::MBlockExhausted);
                }
                if block.len() < 8 || index > (block.len() - 8) / 4 {
                    return Err(Error::DecodeFail(8));
                }
                let off_u = read_u32(block.as_slice(), 4 + 4 * index);
                if off_u > 0x7FFFFFFF {
                    return Err(Error::DecodeFail(4));
                }
                let off = off_u as usize;
                if off > block.len() || block.len() - off < 16 {
                    return Err(Error::DecodeFail(16));
                }
                let hdr = read_u64(block.as_slice(), off);
                let klen_u = hdr & 0x7FFFFFFFFFFFFFFF;
                let is_z = (hdr >> 63) == 1;
                let fpos = read_u64(block.as_slice(), off + 8);
                if klen_u > ((block.len() - off - 16) as u64) {
                    return Err(Error::DecodeFail(16));
                }
                let klen = klen_u as usize;
                let key = copy_range(block.as_slice(), off + 16, off + 16 + klen);
                proof {
                    let tail = block@.skip(off as int);
                    assert(tail.subrange(0, 8) =~= block@.subrange(off as int, off + 8));
                    assert(tail.subrange(8, 16) =~= block@.subrange(off + 8, off + 16));
                    assert(tail.subrange(16, 16 + klen as int) =~= block@.subrange(
                        off + 16,
                        off + 16 + klen as int,
                    ));
                    assert(parse_m_entry(block@.skip(off as int)) matches Some(q) && q.0 == key@
                        && q.1 == fpos && q.2 == is_z);
                }
                Ok((key, fpos, is_z))
            },
            MBlock::Encode { .. } => Err(Error::UnReachable),
        }
    }

    /// Walk a decoded block for the rightmost entry whose first key
    /// is at most `key`, falling back to the first entry when every
    /// key is above it; the descent step of a point lookup.
    pub fn find(&self, key: &Vec<u8>) -> (r: Result<(Vec<u8>, u64, bool)>)
        ensures
            r matches Ok(p) ==> ((*self) matches MBlock::Decode { block, count } && count > 0 && (
            exists|j: int|
                {
                    &&& 0 <= j < count
                    &&& #[trigger] m_slot(block@, j) == Some((p.0@, p.1, p.2))
                    &&& (j == 0 || bytes_le_spec(p.0@, key@))
                    &&& forall|t: int|
                        j < t < count ==> ((#[trigger] m_slot(block@, t)) matches Some(s)
                            && !bytes_le_spec(s.0, key@))
                })),
            ((*self) matches MBlock::Decode { count, .. } && count == 0) ==> (r matches Err(e)
                && e == Error::KeyNotFound),
    {
        match self {
            MBlock::Decode { block, count } => {
                let n = *count;
                if n == 0 {
                    return Err(Error::KeyNotFound);
                }
                let mut best: usize = 0;
                let mut i: usize = 1;
                while i < n
                    invariant
                        1 <= i <= n,
                        best < i,
                        (*self) is Decode,
                        n == self->Decode_count,
                        best > 0 ==> (m_slot(self->Decode_block@, best as int) matches Some(s)
                            && bytes_le_spec(s.0, key@)),
                        forall|t: int|
                            best < t < i ==> ((#[trigger] m_slot(self->Decode_block@, t)) matches
                            Some(s) && !bytes_le_spec(s.0, key@)),
                    decreases n - i,
                {
                    let (k, _, _) = match self.to_entry(i) {
                        Ok(p) => p,
                        Err(e) => {
                            return Err(e);
                        },
                    };
                    proof {
                        assert(m_slot(self->Decode_block@, i as int) is Some);
                    }
                    if bytes_le(&k, key) {
                        best = i;
                    }
                    i = i + 1;
                }
                let r = self.to_entry(best);
                proof {
                    match &r {
                        Ok(p) => {
                            assert(m_slot(self->Decode_block@, best as int) == Some(
                                (p.0@, p.1, p.2),
                            ));
                        },
                        Err(_) => {},
                    }
                }
                r
            },
            MBlock::Encode { .. } => Err(Error::UnReachable),
        }
    }
}

/// The child record the offset table of an intermediate block points
/// at for position `j`, when it parses.
pub open spec fn m_slot(block: Seq<u8>, j: int) -> Option<(Seq<u8>, u64, bool)> {
    let off = u32_of_bytes(block.subrange(4 + 4 * j, 8 + 4 * j)) as int;
    match parse_m_entry(block.skip(off)) {
        Some(q) => Some((q.0, q.1, q.2)),
        None => None,
    }
}

/// Whether `a` is byte-lexicographically at most `b`.
pub open spec fn bytes_le_spec(a: Seq<u8>, b: Seq<u8>) -> bool
    decreases a.len(),
{
    if a.len() == 0 {
        true
    } else if b.len() == 0 {
        false
    } else if a[0] < b[0] {
        true
    } else if a[0] == b[0] {
        bytes_le_spec(a.drop_first(), b.drop_first())
    } else {
        false
    }
}

/// Executable byte-lexicographic comparison.
pub fn bytes_le(a: &Vec<u8>, b: &Vec<u8>) -> (r: bool)
    ensures
        r == bytes_le_spec(a@, b@),
{
    let mut i: usize = 0;
    proof {
        assert(a@.skip(0) =~= a@);
        assert(b@.skip(0) =~= b@);
    }
    while i < a.len() && i < b.len()
        invariant
            i <= a@.len(),
            i <= b@.len(),
            forall|j: int| 0 <= j < i ==> a@[j] == b@[j],
            bytes_le_spec(a@, b@) == bytes_le_spec(a@.skip(i as int), b@.skip(i as int)),
        decreases a@.len() - i,
    {
        let ghost ai = a@.skip(i as int);
        let ghost bi = b@.skip(i as int);
        if a[i] < b[i] {
            proof {
                assert(ai[0] == a@[i as int] && bi[0] == b@[i as int]);
            }
            return true;
        }
        if a[i] > b[i] {
            proof {
                assert(ai[0] == a@[i as int] && bi[0] == b@[i as int]);
            }
            return false;
        }
        proof {
            assert(ai[0] == bi[0]);
            assert(ai.drop_first() =~= a@.skip(i + 1));
            assert(bi.drop_first() =~= b@.skip(i + 1));
        }
        i = i + 1;
    }
    let r = a.len() <= b.len();
    proof {
        let ai = a@.skip(i as int);
        let bi = b@.skip(i as int);
        if a@.len() <= b@.len() {
            assert(ai.len() == 0 || bi.len() > 0);
            if ai.len() > 0 {
                assert(false);
            }
        } else {
            assert(ai.len() > 0 && bi.len() == 0);
        }
    }
    r
}

/// Copy a byte vector.
fn copy_vec(v: &Vec<u8>) -> (r: Vec<u8>)
    ensures
        r@ == v@,
{
    let mut r: Vec<u8> = Vec::new();
    let mut i: usize = 0;
    while i < v.len()
        invariant
            i <= v@.len(),
            r@ == v@.subrange(0, i as int),
        decreases v@.len() - i,
    {
        r.push(v[i]);
        proof {
            assert(r@ =~= v@.subrange(0, i + 1));
        }
        i = i + 1;
    }
    proof {
        assert(v@.subrange(0, v@.len() as int) =~= v@);
    }
    r
}

// ----------------------------------------------------- z entry codec

/// What a buffer prefix parses to as a z-entry: the key bytes, the
/// reconstructed value view, the delta views and the bytes consumed.
pub open spec fn parse_z_entry<K: OrdKey + Serialize, V: Diff + Serialize>(b: Seq<u8>) -> Option<
    (Seq<u8>, ValueView<<V as View>::V>, Seq<DeltaView<<V::D as View>::V>>, int),
> {
    if b.len() < 16 {
        None
    } else {
        let hdr = u64_of_bytes(b.subrange(0, 8));
        let deleted = (hdr >> 63) == 1;
        let invlog = ((hdr >> 62) & 1) == 1;
        let klen = (hdr & 0x3FFFFFFFFFFFFFFF) as int;
        let seqno = u64_of_bytes(b.subrange(8, 16));
        if deleted {
            parse_z_tail::<K, V>(b, 16, klen, ValueView::D { seqno })
        } else if invlog {
            if b.len() < 32 {
                None
            } else {
                let fpos = u64_of_bytes(b.subrange(16, 24));
                let length = u64_of_bytes(b.subrange(24, 32));
                parse_z_tail::<K, V>(
                    b,
                    32,
                    klen,
                    ValueView::U { value: PayloadView::Reference { fpos, length }, seqno },
                )
            }
        } else {
            if b.len() < 24 {
                None
            } else {
                let vlen = u64_of_bytes(b.subrange(16, 24)) as int;
                if 24 + vlen > b.len() {
                    None
                } else {
                    match V::deser_spec(b.subrange(24, 24 + vlen)) {
                        Some(v) => parse_z_tail::<K, V>(
                            b,
                            24 + vlen,
                            klen,
                            ValueView::U { value: PayloadView::Native(v), seqno },
                        ),
                        None => None,
                    }
                }
            }
        }
    }
}

/// Parse the key and delta list that close a z-entry.
pub open spec fn parse_z_tail<K: OrdKey + Serialize, V: Diff + Serialize>(
    b: Seq<u8>,
    at: int,
    klen: int,
    value: ValueView<<V as View>::V>,
) -> Option<(Seq<u8>, ValueView<<V as View>::V>, Seq<DeltaView<<V::D as View>::V>>, int)> {
    if at + klen + 8 > b.len() {
        None
    } else {
        let kb = b.subrange(at, at + klen);
        let nd = u64_of_bytes(b.subrange(at + klen, at + klen + 8)) as int;
        if at + klen + 8 + nd * 32 > b.len() {
            None
        } else {
            Some((kb, value, parse_z_deltas::<V>(b, at + klen + 8, nd), at + klen + 8 + nd * 32))
        }
    }
}

/// Parse `nd` delta references, 32 bytes each.
pub open spec fn parse_z_deltas<V: Diff>(b: Seq<u8>, at: int, nd: int) -> Seq<
    DeltaView<<V::D as View>::V>,
>
    decreases nd,
{
    if nd <= 0 {
        Seq::empty()
    } else {
        let flags = u64_of_bytes(b.subrange(at, at + 8));
        let seqno = u64_of_bytes(b.subrange(at + 8, at + 16));
        let fpos = u64_of_bytes(b.subrange(at + 16, at + 24));
        let length = u64_of_bytes(b.subrange(at + 24, at + 32));
        let d: DeltaView<<V::D as View>::V> = if flags & 1 == 1 {
            DeltaView::D { seqno }
        } else {
            DeltaView::U { delta: PayloadView::Reference { fpos, length }, seqno }
        };
        seq![d] + parse_z_deltas::<V>(b, at + 32, nd - 1)
    }
}

/// One-record round trip of the leaf-entry format: a single-version
/// entry (no deltas) with an inline value, or a tombstone, parses
/// back from its own bytes.
#[verifier::rlimit(100)]
#[verifier::spinoff_prover]
pub proof fn lemma_z_entry_roundtrip<K: OrdKey + Serialize, V: Diff + Serialize>(
    kb: Seq<u8>,
    value: ValueView<<V as View>::V>,
    vb: Seq<u8>,
)
    requires
        kb.len() <= 0x3FFFFFFFFFFFFFFF,
        vb.len() <= 0xFFFFFFFF,
        match value {
            ValueView::D { .. } => true,
            ValueView::U { value: pv, seqno } => pv matches PayloadView::Native(v) && V::ser_spec(
                v,
            ) == vb && V::deser_spec(vb) == Some(v),
        },
    ensures
        parse_z_entry::<K, V>(z_entry_bytes::<K, V>(kb, value, Some(vb), Seq::empty())) matches Some(
            q,
        ) && q.0 == kb && q.1 == value && q.2 == Seq::<DeltaView<<V::D as View>::V>>::empty(),
{
    let b = z_entry_bytes::<K, V>(kb, value, Some(vb), Seq::empty());
    let kl = kb.len() as u64;
    match value {
        ValueView::D { seqno } => {
            let hdr = ((0x8000000000000000u64 | 0u64) | kl) as u64;
            assert(b.subrange(0, 8) =~= u64_bytes(hdr));
            lemma_u64_bytes_id(hdr);
            assert(((hdr >> 63) == 1) && (hdr & 0x3FFFFFFFFFFFFFFF) == kl) by (bit_vector)
                requires
                    hdr == ((0x8000000000000000u64 | 0u64) | kl) && kl
                        <= 0x3FFFFFFFFFFFFFFFu64,
            ;
            assert(b.subrange(8, 16) =~= u64_bytes(seqno));
            lemma_u64_bytes_id(seqno);
            assert(b.subrange(16, 16 + kb.len() as int) =~= kb);
            assert(b.subrange(16 + kb.len() as int, 16 + kb.len() as int + 8) =~= u64_bytes(0));
            lemma_u64_bytes_id(0);
            assert(parse_z_deltas::<V>(b, 16 + kb.len() as int + 8, 0) =~= Seq::<
                DeltaView<<V::D as View>::V>,
            >::empty());
        },
        ValueView::U { value: pv, seqno } => {
            let hdr = ((0u64 | 0u64) | kl) as u64;
            assert(b.subrange(0, 8) =~= u64_bytes(hdr));
            lemma_u64_bytes_id(hdr);
            assert(((hdr >> 63) == 0) && (((hdr >> 62) & 1) == 0) && (hdr
                & 0x3FFFFFFFFFFFFFFF) == kl) by (bit_vector)
                requires
                    hdr == ((0u64 | 0u64) | kl) && kl <= 0x3FFFFFFFFFFFFFFFu64,
            ;
            assert(b.subrange(8, 16) =~= u64_bytes(seqno));
            lemma_u64_bytes_id(seqno);
            assert(b.subrange(16, 24) =~= u64_bytes(vb.len() as u64));
            lemma_u64_bytes_id(vb.len() as u64);
            assert(b.subrange(24, 24 + vb.len() as int) =~= vb);
            let at = 24 + vb.len() as int;
            assert(b.subrange(at, at + kb.len() as int) =~= kb);
            assert(b.subrange(at + kb.len() as int, at + kb.len() as int + 8) =~= u64_bytes(0));
            lemma_u64_bytes_id(0);
            assert(parse_z_deltas::<V>(b, at + kb.len() as int + 8, 0) =~= Seq::<
                DeltaView<<V::D as View>::V>,
            >::empty());
        },
    }
}

// ------------------------------------------------------------ z blocks

/// A leaf block being built or read.
pub enum ZBlock {
    Encode { chunks: Vec<Vec<u8>>, first_key: Option<Vec<u8>>, used: usize, z_blocksize: usize },
    Decode { block: Vec<u8>, count: usize },
}

impl ZBlock {
    /// A fresh encoder for leaf blocks of `z_blocksize` bytes.
    pub fn new_encode(z_blocksize: usize) -> (r: ZBlock)
        ensures
            r matches ZBlock::Encode { chunks, used, z_blocksize: zb, .. } && chunks@.len() == 0
                && used == 8 && zb == z_blocksize,
    {
        ZBlock::Encode { chunks: Vec::new(), first_key: None, used: 8, z_blocksize }
    }

    /// Start a fresh block, keeping the configuration.
    pub fn reset(&mut self)
        requires
            (*old(self)) is Encode,
        ensures
            (*final(self)) is Encode,
            final(self)->Encode_chunks@.len() == 0,
            final(self)->Encode_z_blocksize == old(self)->Encode_z_blocksize,
    {
        match self {
            ZBlock::Encode { chunks, first_key, used, .. } => {
                *chunks = Vec::new();
                *first_key = None;
                *used = 8;
            },
            ZBlock::Decode { .. } => {},
        }
    }

    /// Whether the block holds a first key yet.
    pub fn has_first_key(&self) -> (r: bool)
        ensures
            (*self) matches ZBlock::Encode { first_key, .. } ==> r == (first_key is Some),
    {
        match self {
            ZBlock::Encode { first_key, .. } => first_key.is_some(),
            ZBlock::Decode { .. } => false,
        }
    }

    /// The first key of the block.
    pub fn as_first_key(&self) -> (r: Result<&Vec<u8>>)
        ensures
            ((*self) matches ZBlock::Encode { first_key: Some(k), .. }) ==> ((*self) matches
            ZBlock::Encode { first_key: Some(k), .. } && (r matches Ok(kk) && kk@ == k@)),
    {
        match self {
            ZBlock::Encode { first_key, .. } => match first_key {
                Some(k) => Ok(k),
                None => Err(Error::UnReachable),
            },
            ZBlock::Decode { .. } => Err(Error::UnReachable),
        }
    }

    /// Number of entries.
    pub fn len(&self) -> (r: usize)
        ensures
            (*self) matches ZBlock::Decode { count, .. } ==> r == count,
            (*self) matches ZBlock::Encode { chunks, .. } ==> r == chunks@.len(),
    {
        match self {
            ZBlock::Decode { count, .. } => *count,
            ZBlock::Encode { chunks, .. } => chunks.len(),
        }
    }

    /// Insert one encoded z-entry chunk; fails with `ZBlockOverflow`
    /// when the block would overflow its configured size.
    pub fn insert_chunk(&mut self, key_bytes: &Vec<u8>, chunk: Vec<u8>) -> (r: Result<usize>)
        requires
            (*old(self)) is Encode,
        ensures
            (*final(self)) is Encode,
            r is Ok <==> old(self)->Encode_used + chunk@.len() + 4 <= old(
                self)->Encode_z_blocksize && old(self)->Encode_chunks@.len() < 0x0FFFFFFF,
            r matches Ok(n) ==> final(self)->Encode_chunks.deep_view() == old(
                self)->Encode_chunks.deep_view().push(chunk@) && n == final(
                self)->Encode_chunks@.len() && final(self)->Encode_used == old(self)->Encode_used
                + chunk@.len() + 4 && final(self)->Encode_z_blocksize == old(
                self)->Encode_z_blocksize,
            r is Ok ==> (if old(self)->Encode_chunks@.len() == 0 {
                final(self)->Encode_first_key matches Some(k) && k@ == key_bytes@
            } else {
                final(self)->Encode_first_key == old(self)->Encode_first_key
            }),
            r is Err ==> *final(self) == *old(self),
            r matches Err(e) ==> e matches Error::ZBlockOverflow(_),
    {
        match self {
            ZBlock::Encode { chunks, first_key, used, z_blocksize } => {
                if chunk.len() > usize::MAX - 4 || *used > usize::MAX - chunk.len() - 4 {
                    return Err(Error::ZBlockOverflow(*used));
                }
                let need = chunk.len() + 4;
                if *used + need > *z_blocksize {
                    return Err(Error::ZBlockOverflow(*used + need));
                }
                if chunks.len() >= 0x0FFFFFFF {
                    return Err(Error::ZBlockOverflow(*used));
                }
                if chunks.len() == 0 {
                    *first_key = Some(copy_vec(key_bytes));
                }
                let ghost predv = chunks.deep_view();
                let ghost prevv = chunks@;
                let ghost cval = chunk@;
                chunks.push(chunk);
                proof {
                    assert forall|t: int|
                        0 <= t < chunks@.len() implies #[trigger] chunks.deep_view()[t]
                        == predv.push(cval)[t] by {
                        assert(chunks.deep_view()[t] == chunks@[t].deep_view());
                        if t < prevv.len() {
                            assert(chunks@[t] == prevv[t]);
                            assert(prevv[t].deep_view() == predv[t]);
                        }
                    }
                    assert(chunks.deep_view() =~= predv.push(cval));
                }
                *used = *used + need;
                Ok(chunks.len())
            },
            ZBlock::Decode { .. } => {
                proof {
                    assert(false);
                }
                Err(Error::UnReachable)
            },
        }
    }

    /// Produce the finished block: count, offset table, entries,
    /// zero-padding to the block size. Succeeds whenever the recorded
    /// chunks fit the block.
    #[verifier::rlimit(100)]
    #[verifier::spinoff_prover]
    pub fn finalize(&self) -> (r: Result<Vec<u8>>)
        requires
            (*self) is Encode,
        ensures
            r matches Ok(b) ==> b@ == z_block_bytes(
                self->Encode_chunks.deep_view(),
                self->Encode_z_blocksize as int,
            ) && b@.len() == self->Encode_z_blocksize,
            z_block_fits(self->Encode_chunks.deep_view(), self->Encode_z_blocksize as int)
                ==> r is Ok,
            r matches Err(e) ==> e matches Error::ZBlockOverflow(_),
    {
        match self {
            ZBlock::Encode { chunks, used, z_blocksize, .. } => {
                let ghost cv = chunks.deep_view();
                let ghost bsz = *z_blocksize as int;
                if chunks.len() > 0x0FFFFFFF {
                    return Err(Error::ZBlockOverflow(chunks.len()));
                }
                let head: usize = 4 + 4 * chunks.len();
                if head > *z_blocksize {
                    return Err(Error::ZBlockOverflow(head));
                }
                let mut entries: Vec<u8> = Vec::new();
                let mut offb: Vec<u8> = Vec::new();
                let mut i: usize = 0;
                while i < chunks.len()
                    invariant
                        i <= chunks@.len(),
                        cv == chunks.deep_view(),
                        cv == self->Encode_chunks.deep_view(),
                        bsz == self->Encode_z_blocksize as int,
                        cv.len() == chunks@.len(),
                        head == 4 + 4 * cv.len(),
                        head <= bsz,
                        cv.len() <= 0x0FFFFFFF,
                        entries@ == z_chunks_bytes(cv.take(i as int)),
                        offb@ == z_offsets_bytes(cv.take(i as int), head as int),
                    decreases chunks@.len() - i,
                {
                    if chunks[i].len() > usize::MAX - head || entries.len() > usize::MAX - head
                        - chunks[i].len() || entries.len() + head > 0xFFFFFFFFusize {
                        proof {
                            if z_block_fits(cv, bsz) {
                                lemma_z_chunks_bytes_prefix(cv, i as int + 1);
                                assert(cv.take(i as int + 1).drop_last() =~= cv.take(i as int));
                                assert(cv.take(i as int + 1).last() == cv[i as int]);
                                assert(cv[i as int] == chunks@[i as int].deep_view());
                                assert(z_chunks_bytes(cv.take(i as int + 1)).len()
                                    == entries@.len() + chunks@[i as int]@.len());
                                assert(false);
                            }
                        }
                        return Err(Error::ZBlockOverflow(entries.len()));
                    }
                    append_u32(&mut offb, (head + entries.len()) as u32);
                    crate::dlog_entry::append_bytes(&mut entries, &chunks[i]);
                    proof {
                        assert(cv.take(i as int + 1).drop_last() =~= cv.take(i as int));
                        assert(cv.take(i as int + 1).last() == cv[i as int]);
                        assert(cv[i as int] == chunks@[i as int].deep_view());
                        assert(entries@ =~= z_chunks_bytes(cv.take(i as int + 1)));
                        assert(offb@ =~= z_offsets_bytes(cv.take(i as int + 1), head as int));
                    }
                    i = i + 1;
                }
                proof {
                    assert(cv.take(i as int) =~= cv);
                }
                if entries.len() > usize::MAX - head || head + entries.len() > *z_blocksize {
                    proof {
                        if z_block_fits(cv, bsz) {
                            assert(false);
                        }
                    }
                    return Err(Error::ZBlockOverflow(head));
                }
                proof {
                    lemma_z_offsets_bytes_len(cv, head as int);
                }
                let mut block: Vec<u8> = Vec::new();
                append_u32(&mut block, chunks.len() as u32);
                crate::dlog_entry::append_bytes(&mut block, &offb);
                crate::dlog_entry::append_bytes(&mut block, &entries);
                let pad = *z_blocksize - head - entries.len();
                let mut p: usize = 0;
                while p < pad
                    invariant
                        p <= pad,
                        block@ =~= u32_bytes(cv.len() as u32) + offb@ + entries@
                            + crate::bubt_config::zeros(p as int),
                        offb@.len() == 4 * cv.len(),
                    decreases pad - p,
                {
                    block.push(0);
                    proof {
                        assert(block@ =~= u32_bytes(cv.len() as u32) + offb@ + entries@
                            + crate::bubt_config::zeros(p as int + 1));
                    }
                    p = p + 1;
                }
                proof {
                    assert(block@ =~= z_block_bytes(cv, bsz));
                }
                Ok(block)
            },
            ZBlock::Decode { .. } => {
                proof {
                    assert(false);
                }
                Err(Error::ZBlockOverflow(0))
            },
        }
    }

    /// Wrap the bytes of an on-disk z-block for reading.
    pub fn new_decode(block: Vec<u8>) -> (r: Result<ZBlock>)
        ensures
            r matches Ok(z) ==> z is Decode,
    {
        if block.len() < 4 {
            return Err(Error::DecodeFail(4));
        }
        let count_u = read_u32(block.as_slice(), 0);
        if count_u > 0x7FFFFFFF {
            return Err(Error::DecodeFail(4));
        }
        let count = count_u as usize;
        if count > (block.len() - 4) / 4 {
            return Err(Error::DecodeFail(count));
        }
        Ok(ZBlock::Decode { block, count })
    }

    /// The raw bytes of a decoded block.
    pub fn block_bytes(&self) -> (r: Option<&Vec<u8>>)
        ensures
            (*self) is Decode <==> r is Some,
            (*self) is Decode ==> (r matches Some(b) && b@ == self->Decode_block@),
    {
        match self {
            ZBlock::Decode { block, .. } => Some(block),
            ZBlock::Encode { .. } => None,
        }
    }

    /// The offset of entry `index`, read from the offset table of a
    /// decoded block.
    pub fn entry_offset_pub(&self, index: usize) -> (r: Result<usize>)
        ensures
            r matches Ok(off) ==> (*self) is Decode && off < self->Decode_block@.len() && index
                < self->Decode_count && off as int == u32_of_bytes(
                self->Decode_block@.subrange(4 + 4 * index, 8 + 4 * index),
            ) as int,
            ((*self) is Decode && index >= self->Decode_count) ==> (r matches Err(e) && e
                == Error::ZBlockExhausted),
    {
        match self {
            ZBlock::Decode { .. } => self.entry_offset(index),
            ZBlock::Encode { .. } => Err(Error::UnReachable),
        }
    }

    /// Decode the entry at `index` of a decoded leaf block: the entry
    /// the offset table points at, parsed per [`parse_z_entry`]. Past
    /// the last entry the block is exhausted.
    pub fn to_entry<K: OrdKey + Serialize, V: Diff + Serialize>(&self, index: usize) -> (r: Result<
        (usize, Entry<K, V>),
    >)
        ensures
            r matches Ok(p) ==> ((*self) matches ZBlock::Decode { block, count } && p.0 == index
                && index < count && ({
                let off = u32_of_bytes(block@.subrange(4 + 4 * index, 8 + 4 * index)) as int;
                &&& (parse_z_entry::<K, V>(block@.skip(off)) matches Some(q) && K::deser_spec(
                    q.0,
                ) == Some(p.1@.key) && q.1 == p.1@.value && q.2 == p.1@.deltas)
            })),
            ((*self) is Decode && index >= self->Decode_count) ==> (r matches Err(e) && e
                == Error::ZBlockExhausted),
    {
        let off = match self.entry_offset_pub(index) {
            Ok(o) => o,
            Err(e) => {
                return Err(e);
            },
        };
        match self.block_bytes() {
            Some(block) => {
                let tail = vstd::slice::slice_subrange(block.as_slice(), off, block.len());
                proof {
                    assert(tail@ =~= self->Decode_block@.skip(off as int));
                }
                match crate::robt_build::decode_z_entry::<K, V>(tail) {
                    Ok((e, _)) => Ok((index, e)),
                    Err(e) => Err(e),
                }
            },
            None => Err(Error::UnReachable),
        }
    }

    /// The offset of entry `index` in a decoded block.
    fn entry_offset(&self, index: usize) -> (r: Result<usize>)
        requires
            (*self) is Decode,
        ensures
            r matches Ok(off) ==> ((*self) matches ZBlock::Decode { block, count } && index
                < count && off < block@.len() && off as int == u32_of_bytes(
                block@.subrange(4 + 4 * index, 8 + 4 * index),
            ) as int),
            index >= self->Decode_count ==> (r matches Err(e) && e == Error::ZBlockExhausted),
    {
        match self {
            ZBlock::Decode { block, count } => {
                if index >= *count {
                    return Err(Error::ZBlockExhausted);
                }
                if block.len() < 8 || index > (block.len() - 8) / 4 {
                    return Err(Error::DecodeFail(8));
                }
                let off_u = read_u32(block.as_slice(), 4 + 4 * index);
                if (off_u as usize) >= block.len() {
                    return Err(Error::DecodeFail(4));
                }
                Ok(off_u as usize)
            },
            ZBlock::Encode { .. } => Err(Error::UnReachable),
        }
    }
}

} // verus!

