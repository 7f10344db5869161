//! Building and reading bottoms-up B-tree images in memory: a sorted
//! stream of entries goes in, the index image (and optionally a
//! value-log image) comes out; the snapshot reader walks the image
//! back. The caller writes and reads the images as whole files.

use vstd::prelude::*;

use crate::base::{Diff, KeyCmp, OrdKey, Serialize};
use crate::bubt_config::{meta_bytes, read_meta_items, write_meta_items, Config, MARKER_BLOCK_SIZE};
use crate::entry::{DeltaView, Entry, InnerDeltaKind, Value};
use crate::error::Error;
use crate::llrb::Ev;
use crate::robt_indx::{parse_z_deltas, parse_z_entry, MBlock, ZBlock};
use crate::util::{append_u64, read_u64, u64_bytes};
use crate::Result;

verus! {

// ------------------------------------------------------ z entry codec

/// Encode one entry as a z-entry, appending to `buf`; values go
/// inline (native) or as value-log references; deltas are recorded as
/// value-log references only.
pub fn append_z_entry<K: OrdKey + Serialize, V: Diff + Serialize>(
    buf: &mut Vec<u8>,
    entry: &Entry<K, V>,
) -> (r: Result<usize>)
    ensures
        r is Err ==> final(buf)@ == old(buf)@,
{
    let mut kb: Vec<u8> = Vec::new();
    match entry.as_key().encode(&mut kb) {
        Ok(_) => (),
        Err(e) => {
            return Err(e);
        },
    }
    if (kb.len() as u64) > 0x3FFFFFFFFFFFFFFFu64 {
        return Err(Error::ZBlockOverflow(kb.len()));
    }
    let seqno = entry.to_seqno();
    let deleted = entry.is_deleted();
    let mut out: Vec<u8> = Vec::new();
    if deleted {
        append_u64(&mut out, 0x8000000000000000u64 | (kb.len() as u64));
        append_u64(&mut out, seqno);
    } else {
        match entry.to_native_value() {
            Some(v) => {
                let mut vb: Vec<u8> = Vec::new();
                match v.encode(&mut vb) {
                    Ok(_) => (),
                    Err(e) => {
                        return Err(e);
                    },
                }
                if (vb.len() as u64) > (u64::MAX - 64) {
                    return Err(Error::ZBlockOverflow(vb.len()));
                }
                append_u64(&mut out, kb.len() as u64);
                append_u64(&mut out, seqno);
                append_u64(&mut out, vb.len() as u64);
                crate::dlog_entry::append_bytes(&mut out, &vb);
            },
            None => {
                // value lives in the value-log
                match entry.as_value().to_reference() {
                    Some((fpos, length)) => {
                        append_u64(&mut out, 0x4000000000000000u64 | (kb.len() as u64));
                        append_u64(&mut out, seqno);
                        append_u64(&mut out, fpos);
                        append_u64(&mut out, length);
                    },
                    None => {
                        return Err(Error::UnReachable);
                    },
                }
            },
        }
    }
    crate::dlog_entry::append_bytes(&mut out, &kb);
    let nd = entry.to_delta_count();
    if (nd as u64) > 0x00FFFFFF {
        return Err(Error::ZBlockOverflow(nd));
    }
    append_u64(&mut out, nd as u64);
    let deltas = entry.as_deltas();
    let mut i: usize = 0;
    while i < deltas.len()
        invariant
            i <= deltas@.len(),
        decreases deltas@.len() - i,
    {
        let (kind, seqno, fpos, length) = deltas[i].reference_parts();
        match kind {
            InnerDeltaKind::Delete => {
                append_u64(&mut out, 1);
                append_u64(&mut out, seqno);
                append_u64(&mut out, 0);
                append_u64(&mut out, 0);
            },
            InnerDeltaKind::Upsert => {
                append_u64(&mut out, 0);
                append_u64(&mut out, seqno);
                append_u64(&mut out, fpos);
                append_u64(&mut out, length);
            },
        }
        i = i + 1;
    }
    crate::dlog_entry::append_bytes(buf, &out);
    Ok(out.len())
}

/// Decode a z-entry from the head of `buf`; returns the entry and
/// the bytes consumed, exactly as [`parse_z_entry`] reads them; the
/// decoded key is pinned to the parsed key bytes.
pub fn decode_z_entry<K: OrdKey + Serialize, V: Diff + Serialize>(buf: &[u8]) -> (r: Result<
    (Entry<K, V>, usize),
>)
    ensures
        r matches Ok(p) ==> p.1 <= buf@.len() && (parse_z_entry::<K, V>(buf@) matches Some(q)
            && K::deser_spec(q.0) == Some(p.0@.key) && q.1 == p.0@.value && q.2 == p.0@.deltas
            && q.3 == p.1),
{
    let blen = buf.len();
    if blen < 16 {
        return Err(Error::DecodeFail(16));
    }
    let hdr = read_u64(buf, 0);
    let deleted = (hdr >> 63) == 1;
    let invlog = ((hdr >> 62) & 1) == 1;
    let klen_u = hdr & 0x3FFFFFFFFFFFFFFF;
    let seqno = read_u64(buf, 8);
    if klen_u > (usize::MAX as u64) - 64 {
        return Err(Error::DecodeFail(16));
    }
    let klen = klen_u as usize;
    let mut at: usize = 16;
    let value: Value<V> = if deleted {
        Value::new_delete(seqno)
    } else if invlog {
        if buf.len() < 32 {
            return Err(Error::DecodeFail(32));
        }
        let fpos = read_u64(buf, 16);
        let length = read_u64(buf, 24);
        at = 32;
        Value::new_upsert(
            std::boxed::Box::new(crate::vlog::Value::new_reference(fpos, length)),
            seqno,
        )
    } else {
        if buf.len() < 24 {
            return Err(Error::DecodeFail(24));
        }
        let vlen_u = read_u64(buf, 16);
        if vlen_u > (usize::MAX as u64) - 64 || 24 + (vlen_u as usize) > buf.len() {
            return Err(Error::DecodeFail(24));
        }
        let vlen = vlen_u as usize;
        let vb = vstd::slice::slice_subrange(buf, 24, 24 + vlen);
        let v = match V::decode_new(vb) {
            Ok(v) => v,
            Err(e) => {
                return Err(e);
            },
        };
        at = 24 + vlen;
        Value::new_upsert_value(v, seqno)
    };
    if at > buf.len() || klen > buf.len() - at || buf.len() - at - klen < 8 {
        return Err(Error::DecodeFail(klen));
    }
    let kb = vstd::slice::slice_subrange(buf, at, at + klen);
    proof {
        assert(kb@ =~= buf@.subrange(at as int, at + klen));
    }
    let key = match K::decode_new(kb) {
        Ok(k) => k,
        Err(e) => {
            return Err(e);
        },
    };
    let nd_u = read_u64(buf, at + klen);
    if nd_u > 0x00FFFFFF {
        return Err(Error::DecodeFail(8));
    }
    let nd = nd_u as usize;
    let mut dat: usize = at + klen + 8;
    if dat > buf.len() || nd * 32 > buf.len() - dat {
        return Err(Error::DecodeFail(nd));
    }
    let ghost dat0 = dat as int;
    let mut entry = Entry::new(key, value);
    let mut deltas: Vec<crate::entry::Delta<V>> = Vec::new();
    let mut i: usize = 0;
    while i < nd
        invariant
            i <= nd,
            dat == dat0 + i * 32,
            dat0 + nd * 32 <= buf@.len(),
            buf@.len() <= usize::MAX,
            deltas@.len() == i,
            parse_z_deltas::<V>(buf@, dat0, nd as int) =~= deltas.deep_view()
                + parse_z_deltas::<V>(buf@, dat as int, (nd - i) as int),
        decreases nd - i,
    {
        proof {
            assert((nd - i) >= 1);
            assert((nd - i) * 32 >= 1 * 32) by (nonlinear_arith)
                requires
                    (nd - i) >= 1,
            ;
            assert(dat0 + nd * 32 - dat as int == (nd - i) * 32) by (nonlinear_arith)
                requires
                    dat == dat0 + i * 32,
            ;
            assert(dat + 32 <= buf@.len());
        }
        let flags = read_u64(buf, dat);
        let dseq = read_u64(buf, dat + 8);
        let dfpos = read_u64(buf, dat + 16);
        let dlen = read_u64(buf, dat + 24);
        let d: crate::entry::Delta<V> = if flags & 1 == 1 {
            crate::entry::Delta::new_delete(dseq)
        } else {
            crate::entry::Delta::new_upsert(
                crate::vlog::Delta::new_reference(dfpos, dlen),
                dseq,
            )
        };
        let ghost predv = deltas.deep_view();
        let ghost prevv = deltas@;
        deltas.push(d);
        proof {
            assert forall|t: int| 0 <= t < deltas@.len() implies #[trigger] deltas.deep_view()[t]
                == predv.push(d@)[t] by {
                assert(deltas.deep_view()[t] == deltas@[t].deep_view());
                if t < prevv.len() {
                    assert(deltas@[t] == prevv[t]);
                    assert(prevv[t].deep_view() == predv[t]);
                }
            }
            assert(deltas.deep_view() =~= predv.push(d@));
            assert(parse_z_deltas::<V>(buf@, dat as int, (nd - i) as int) == seq![d@]
                + parse_z_deltas::<V>(buf@, dat + 32, (nd - i - 1) as int));
            assert(deltas.deep_view() + parse_z_deltas::<V>(buf@, dat + 32, (nd - i - 1) as int)
                =~= predv + (seq![d@] + parse_z_deltas::<V>(buf@, dat + 32, (nd - i - 1) as int)));
        }
        dat = dat + 32;
        i = i + 1;
    }
    proof {
        assert(parse_z_deltas::<V>(buf@, dat as int, 0) =~= Seq::<
            DeltaView<<V::D as View>::V>,
        >::empty());
        assert(parse_z_deltas::<V>(buf@, dat0, nd as int) =~= deltas.deep_view());
        assert(dat0 + nd * 32 == dat as int) by (nonlinear_arith)
            requires
                dat == dat0 + nd * 32 - (nd - i) * 32,
                i == nd,
                dat == dat0 + i * 32,
        ;
    }
    entry.set_deltas(deltas);
    proof {
        assert(buf@.subrange(0, 8) == buf@.subrange(0, 8));
        assert(buf@.subrange(8, 16) == buf@.subrange(8, 16));
    }
    Ok((entry, dat))
}

// -------------------------------------------------------- build data

/// Running file positions of a build: the next index position, the
/// positions of the blocks flushed last, and the value-log position.
pub struct BuildData {
    /// Next write position in the index image.
    pub fpos: u64,
    /// Position of the last flushed leaf block.
    pub z_fpos: u64,
    /// Position of the last flushed intermediate block.
    pub m_fpos: u64,
    /// Next write position in the value-log image.
    pub vlog_fpos: u64,
}

impl BuildData {
    /// Fresh positions; an incremental build starts the value-log at
    /// `n_abytes`.
    pub fn new(n_abytes: u64) -> (r: BuildData)
        ensures
            r.fpos == 0 && r.z_fpos == 0 && r.m_fpos == 0 && r.vlog_fpos == n_abytes,
    {
        BuildData { fpos: 0, z_fpos: 0, m_fpos: 0, vlog_fpos: n_abytes }
    }

    /// Account for a flushed leaf block and its value-log bytes.
    pub fn update_z_flush(&mut self, zbytes: u64, vbytes: u64)
        requires
            old(self).fpos + zbytes <= u64::MAX,
            old(self).vlog_fpos + vbytes <= u64::MAX,
        ensures
            final(self).fpos == old(self).fpos + zbytes,
            final(self).vlog_fpos == old(self).vlog_fpos + vbytes,
            final(self).z_fpos == old(self).z_fpos,
            final(self).m_fpos == old(self).m_fpos,
    {
        self.fpos = self.fpos + zbytes;
        self.vlog_fpos = self.vlog_fpos + vbytes;
    }

    /// Account for a flushed intermediate block.
    pub fn update_m_flush(&mut self, mbytes: u64)
        requires
            old(self).fpos + mbytes <= u64::MAX,
        ensures
            final(self).m_fpos == old(self).fpos,
            final(self).fpos == old(self).fpos + mbytes,
            final(self).z_fpos == old(self).z_fpos,
            final(self).vlog_fpos == old(self).vlog_fpos,
    {
        self.m_fpos = self.fpos;
        self.fpos = self.fpos + mbytes;
    }

    /// Mark the next leaf block as starting at the current position.
    pub fn reset(&mut self)
        ensures
            final(self).z_fpos == old(self).fpos,
            final(self).m_fpos == old(self).fpos,
            final(self).fpos == old(self).fpos,
            final(self).vlog_fpos == old(self).vlog_fpos,
    {
        self.z_fpos = self.fpos;
        self.m_fpos = self.fpos;
    }
}

// ------------------------------------------------------------ builder

/// Builds a bottoms-up B-tree image from a sorted stream of entries.
/// Keys must arrive in strictly increasing order; an out-of-order key
/// fails the build.
/// The fixed-width stats payload stored in the meta trailer: entry
/// count, tombstone count, largest seqno, the two block sizes, and
/// the final value-log position.
pub open spec fn stats_bytes(
    n_count: u64,
    n_deleted: u64,
    maxseq: u64,
    z_blocksize: u64,
    m_blocksize: u64,
    vlog_fpos: u64,
) -> Seq<u8> {
    u64_bytes(n_count) + u64_bytes(n_deleted) + u64_bytes(maxseq) + u64_bytes(z_blocksize)
        + u64_bytes(m_blocksize) + u64_bytes(vlog_fpos)
}

pub struct Builder<K: OrdKey, V: Diff> {
    config: Config,
    z: ZBlock,
    mstack: Vec<MBlock>,
    ibuf: Vec<u8>,
    vbuf: Vec<u8>,
    bd: BuildData,
    n_count: u64,
    n_deleted: u64,
    maxseq: u64,
    last_key: Option<K>,
    accepted_entries: Ghost<Seq<Ev<K, V>>>,
    val_kind: core::marker::PhantomData<V>,
}

impl<K: OrdKey + Serialize, V: Diff + Serialize> Builder<K, V> {
    /// The builder's blocks are all in their encoding state with the
    /// configured sizes, the accepted-entry record matches the count,
    /// and with block sizes that are multiples of the marker size the
    /// image stays block-aligned.
    pub closed spec fn wf(&self) -> bool {
        &&& self.z is Encode
        &&& self.z->Encode_z_blocksize == self.config.z_blocksize
        &&& self.mstack@.len() >= 1
        &&& forall|i: int|
            0 <= i < self.mstack@.len() ==> (#[trigger] self.mstack@[i]) is Encode
                && self.mstack@[i]->Encode_m_blocksize == self.config.m_blocksize
        &&& self.accepted_entries@.len() == self.n_count
        &&& (self.config.z_blocksize % MARKER_BLOCK_SIZE == 0 && self.config.m_blocksize
            % MARKER_BLOCK_SIZE == 0) ==> self.ibuf@.len() as int % (MARKER_BLOCK_SIZE as int)
            == 0
    }

    /// Appending one aligned block keeps the image aligned.
    proof fn lemma_aligned_append(a: int, b: int)
        requires
            a % (MARKER_BLOCK_SIZE as int) == 0,
            b % (MARKER_BLOCK_SIZE as int) == 0,
        ensures
            (a + b) % (MARKER_BLOCK_SIZE as int) == 0,
    {
        vstd::arithmetic::div_mod::lemma_add_mod_noop(a, b, MARKER_BLOCK_SIZE as int);
    }

    /// A well-formed builder has accepted exactly as many entries as
    /// it counts.
    pub proof fn lemma_accepted_count(&self)
        requires
            self.wf(),
        ensures
            self.accepted().len() == self.count_spec(),
    {
    }

    /// The key accepted last, if any.
    pub closed spec fn last_key_spec(&self) -> Option<<K as View>::V> {
        match self.last_key {
            Some(k) => Some(k@),
            None => None,
        }
    }

    /// How many entries were accepted.
    pub closed spec fn count_spec(&self) -> u64 {
        self.n_count
    }

    /// The build configuration.
    pub closed spec fn config_spec(&self) -> Config {
        self.config
    }

    /// Depth of the intermediate stack.
    pub closed spec fn mstack_len(&self) -> int {
        self.mstack@.len() as int
    }

    /// How many accepted entries were tombstones.
    pub closed spec fn deleted_spec(&self) -> u64 {
        self.n_deleted
    }

    /// The largest seqno seen across accepted entries.
    pub closed spec fn maxseq_spec(&self) -> u64 {
        self.maxseq
    }

    /// The next write position of the value-log image.
    pub closed spec fn vlog_fpos_spec(&self) -> u64 {
        self.bd.vlog_fpos
    }

    /// The entries accepted so far, in arrival order, as they were
    /// encoded into the leaf blocks: build-time tombstone purge and
    /// the move of values to the value-log happen before an entry is
    /// recorded here.
    pub closed spec fn accepted(&self) -> Seq<Ev<K, V>> {
        self.accepted_entries@
    }

    /// A builder for a fresh index and value-log.
    pub fn initial(config: Config) -> (r: Result<Builder<K, V>>)
        ensures
            r is Ok,
            r matches Ok(b) ==> b.count_spec() == 0 && b.last_key_spec() is None && b.wf()
                && b.deleted_spec() == 0 && b.maxseq_spec() == 0 && b.vlog_fpos_spec() == 0
                && b.config_spec() == config && b.accepted() == Seq::<Ev<K, V>>::empty(),
    {
        let z = ZBlock::new_encode(config.z_blocksize);
        let mut mstack: Vec<MBlock> = Vec::new();
        mstack.push(MBlock::new_encode(config.m_blocksize));
        Ok(
            Builder {
                config,
                z,
                mstack,
                ibuf: Vec::new(),
                vbuf: Vec::new(),
                bd: BuildData::new(0),
                n_count: 0,
                n_deleted: 0,
                maxseq: 0,
                last_key: None,
                accepted_entries: Ghost(Seq::empty()),
                val_kind: core::marker::PhantomData,
            },
        )
    }

    /// A builder appending to an existing value-log of `n_abytes`
    /// bytes; earlier bytes are never rewritten.
    pub fn incremental(config: Config, n_abytes: u64) -> (r: Result<Builder<K, V>>)
        ensures
            r is Ok,
            r matches Ok(b) ==> b.count_spec() == 0 && b.last_key_spec() is None && b.wf()
                && b.deleted_spec() == 0 && b.maxseq_spec() == 0 && b.vlog_fpos_spec() == n_abytes
                && b.config_spec() == config && b.accepted() == Seq::<Ev<K, V>>::empty(),
    {
        let z = ZBlock::new_encode(config.z_blocksize);
        let mut mstack: Vec<MBlock> = Vec::new();
        mstack.push(MBlock::new_encode(config.m_blocksize));
        Ok(
            Builder {
                config,
                z,
                mstack,
                ibuf: Vec::new(),
                vbuf: Vec::new(),
                bd: BuildData::new(n_abytes),
                n_count: 0,
                n_deleted: 0,
                maxseq: 0,
                last_key: None,
                accepted_entries: Ghost(Seq::empty()),
                val_kind: core::marker::PhantomData,
            },
        )
    }

    /// Feed the next entry, which must carry a strictly larger key
    /// than every one before it. Returns `true` when the configured
    /// tombstone purge dropped the entry.
    pub fn add_entry(&mut self, entry: Entry<K, V>) -> (r: Result<bool>)
        requires
            old(self).wf(),
        ensures
            final(self).wf(),
            r matches Ok(false) ==> final(self).last_key_spec() == Some(entry@.key) && (match old(
                self,
            ).last_key_spec() {
                Some(k) => K::lt_spec(k, entry@.key),
                None => true,
            }) && final(self).count_spec() == old(self).count_spec() + 1,
            r matches Ok(true) ==> final(self).last_key_spec() == old(self).last_key_spec()
                && final(self).count_spec() == old(self).count_spec(),
            r matches Ok(false) ==> ({
                let ae = final(self).accepted();
                &&& ae.len() == old(self).accepted().len() + 1
                &&& ae.drop_last() == old(self).accepted()
                &&& ae.last().key == entry@.key
                &&& ae.last().deltas == entry@.deltas
                &&& (!(old(self).config_spec().vlog_ok && old(
                    self,
                ).config_spec().value_in_vlog) ==> ae.last() == entry@)
            }),
            r matches Ok(true) ==> final(self).accepted() == old(self).accepted() && (old(
                self,
            ).config_spec().tomb_purge matches Some(b) && crate::entry::purge_spec(
                entry@,
                crate::base::Cutoff::Tombstone(core::ops::Bound::Excluded(b)),
            ) is None),
            r is Err ==> final(self).accepted() == old(self).accepted(),
    {
        let ghost iview = entry@;
        // tombstone purge at build time
        let entry = match self.config.tomb_purge {
            Some(before) => {
                match entry.purge(
                    crate::base::Cutoff::Tombstone(core::ops::Bound::Excluded(before)),
                ) {
                    Some(e) => {
                        proof {
                            assert(e@ == iview);
                        }
                        e
                    },
                    None => {
                        return Ok(true);
                    },
                }
            },
            None => entry,
        };
        // monotone keys
        match &self.last_key {
            Some(k) => match entry.as_key().cmp_key(k) {
                KeyCmp::Greater => (),
                _ => {
                    return Err(Error::UnExpectedFail);
                },
            },
            None => (),
        }
        if self.n_count == u64::MAX {
            return Err(Error::UnReachable);
        }
        // move payloads to the value-log as configured
        let mut entry = entry;
        if self.config.vlog_ok && self.config.value_in_vlog {
            match entry.to_native_value() {
                Some(v) => {
                    let seqno = entry.to_seqno();
                    if (self.bd.vlog_fpos as u64) > u64::MAX - 8 - 0x1000000000000000u64 || (
                    self.vbuf.len() as u64) > u64::MAX - 8 - 0x1000000000000000u64
                        - self.bd.vlog_fpos {
                        return Err(Error::UnReachable);
                    }
                    let vv: crate::vlog::Value<V> = crate::vlog::Value::new_native(v);
                    let r = match vv.append_to(&mut self.vbuf, self.bd.vlog_fpos) {
                        Ok(r) => r,
                        Err(e) => {
                            return Err(e);
                        },
                    };
                    entry.set_value(Value::new_upsert(std::boxed::Box::new(r), seqno));
                },
                None => (),
            }
        }
        // encode and insert into the current leaf block
        let mut chunk: Vec<u8> = Vec::new();
        match append_z_entry(&mut chunk, &entry) {
            Ok(_) => (),
            Err(e) => {
                return Err(e);
            },
        }
        let mut kb: Vec<u8> = Vec::new();
        match entry.as_key().encode(&mut kb) {
            Ok(_) => (),
            Err(e) => {
                return Err(e);
            },
        }
        let inserted = match self.z.insert_chunk(&kb, chunk) {
            Ok(_) => true,
            Err(Error::ZBlockOverflow(_)) => false,
            Err(e) => {
                return Err(e);
            },
        };
        if !inserted {
            match self.flush_z() {
                Ok(_) => (),
                Err(e) => {
                    return Err(e);
                },
            }
            let mut chunk2: Vec<u8> = Vec::new();
            match append_z_entry(&mut chunk2, &entry) {
                Ok(_) => (),
                Err(e) => {
                    return Err(e);
                },
            }
            match self.z.insert_chunk(&kb, chunk2) {
                Ok(_) => (),
                Err(e) => {
                    return Err(e);
                },
            }
        }
        let ghost prea = self.accepted_entries@;
        proof {
            assert(entry@.key == iview.key);
            assert(entry@.deltas == iview.deltas);
        }
        self.accepted_entries = Ghost(prea.push(entry@));
        proof {
            assert(self.accepted_entries@.drop_last() =~= prea);
        }
        let seq = entry.to_seqno();
        if seq > self.maxseq {
            self.maxseq = seq;
        }
        if entry.is_deleted() && self.n_deleted < u64::MAX {
            self.n_deleted = self.n_deleted + 1;
        }
        self.n_count = self.n_count + 1;
        self.last_key = Some(entry.to_key());
        Ok(false)
    }

    /// Flush the current leaf block into the image and register it in
    /// the bottom intermediate block, cascading on overflow.
    fn flush_z(&mut self) -> (r: Result<()>)
        requires
            old(self).wf(),
        ensures
            final(self).wf(),
            final(self).count_spec() == old(self).count_spec(),
            final(self).last_key_spec() == old(self).last_key_spec(),
            final(self).config_spec() == old(self).config_spec(),
            final(self).deleted_spec() == old(self).deleted_spec(),
            final(self).maxseq_spec() == old(self).maxseq_spec(),
            final(self).vlog_fpos_spec() == old(self).vlog_fpos_spec(),
            final(self).accepted() == old(self).accepted(),
    {
        let first = match self.z.as_first_key() {
            Ok(k) => copy_bytes_local(k),
            Err(e) => {
                return Err(e);
            },
        };
        let block = match self.z.finalize() {
            Ok(b) => b,
            Err(e) => {
                return Err(e);
            },
        };
        let z_fpos = self.ibuf.len() as u64;
        crate::dlog_entry::append_bytes(&mut self.ibuf, &block);
        self.z.reset();
        self.register_child(first, z_fpos, true, 0)
    }

    /// Register a child block in the intermediate stack at `level`,
    /// flushing and recursing upward on overflow.
    fn register_child(&mut self, first: Vec<u8>, child_fpos: u64, is_z: bool, level: usize) -> (r:
        Result<()>)
        requires
            old(self).wf(),
        ensures
            final(self).wf(),
            final(self).count_spec() == old(self).count_spec(),
            final(self).last_key_spec() == old(self).last_key_spec(),
            final(self).config_spec() == old(self).config_spec(),
            final(self).mstack_len() >= old(self).mstack_len(),
            final(self).deleted_spec() == old(self).deleted_spec(),
            final(self).maxseq_spec() == old(self).maxseq_spec(),
            final(self).vlog_fpos_spec() == old(self).vlog_fpos_spec(),
            final(self).accepted() == old(self).accepted(),
        decreases 64 - level,
    {
        if level >= 32 {
            return Err(Error::UnReachable);
        }
        while self.mstack.len() <= level
            invariant
                self.wf(),
                level < 64,
                self.count_spec() == old(self).count_spec(),
                self.last_key_spec() == old(self).last_key_spec(),
                self.config_spec() == old(self).config_spec(),
                self.mstack_len() >= old(self).mstack_len(),
                self.deleted_spec() == old(self).deleted_spec(),
                self.maxseq_spec() == old(self).maxseq_spec(),
                self.vlog_fpos_spec() == old(self).vlog_fpos_spec(),
                self.accepted() == old(self).accepted(),
            decreases 64 - self.mstack@.len(),
        {
            if self.mstack.len() >= 64 {
                return Err(Error::UnReachable);
            }
            let ghost pre = self.mstack@;
            self.mstack.push(MBlock::new_encode(self.config.m_blocksize));
            proof {
                assert forall|i: int| 0 <= i < self.mstack@.len() implies (
                #[trigger] self.mstack@[i]) is Encode && self.mstack@[i]->Encode_m_blocksize
                    == self.config.m_blocksize by {
                    if i < pre.len() {
                        assert(self.mstack@[i] == pre[i]);
                    }
                }
            }
        }
        let ghost premstack = self.mstack@;
        let mut m = self.mstack.remove(level);
        proof {
            assert(m == premstack[level as int]);
            assert(m is Encode);
            assert(m->Encode_m_blocksize == self.config.m_blocksize);
        }
        let ok = if is_z {
            m.insertz(&first, child_fpos)
        } else {
            m.insertm(&first, child_fpos)
        };
        match ok {
            Ok(_) => {
                self.put_back(level, m);
                Ok(())
            },
            Err(Error::MBlockOverflow(_)) => {
                let mfirst = match m.as_first_key() {
                    Ok(k) => copy_bytes_local(k),
                    Err(e) => {
                        self.put_back(level, m);
                        return Err(e);
                    },
                };
                let block = match m.finalize() {
                    Ok(b) => b,
                    Err(e) => {
                        self.put_back(level, m);
                        return Err(e);
                    },
                };
                let m_fpos = self.ibuf.len() as u64;
                crate::dlog_entry::append_bytes(&mut self.ibuf, &block);
                m.reset();
                self.put_back(level, m);
                match self.register_child(mfirst, m_fpos, false, level + 1) {
                    Ok(_) => (),
                    Err(e) => {
                        return Err(e);
                    },
                }
                if level >= self.mstack.len() {
                    return Err(Error::UnReachable);
                }
                let ghost premstack2 = self.mstack@;
                let mut m2 = self.mstack.remove(level);
                proof {
                    assert(m2 == premstack2[level as int]);
                    assert(m2->Encode_m_blocksize == self.config.m_blocksize);
                }
                let ok2 = if is_z {
                    m2.insertz(&first, child_fpos)
                } else {
                    m2.insertm(&first, child_fpos)
                };
                self.put_back(level, m2);
                match ok2 {
                    Ok(_) => Ok(()),
                    Err(e) => Err(e),
                }
            },
            Err(e) => {
                self.put_back(level, m);
                Err(e)
            },
        }
    }

    /// Reinsert a block taken out of the stack.
    fn put_back(&mut self, level: usize, m: MBlock)
        requires
            level <= old(self).mstack@.len(),
            forall|i: int|
                0 <= i < old(self).mstack@.len() ==> (#[trigger] old(self).mstack@[i]) is Encode
                    && old(self).mstack@[i]->Encode_m_blocksize == old(self).config.m_blocksize,
            m is Encode,
            m->Encode_m_blocksize == old(self).config.m_blocksize,
            old(self).z is Encode,
            old(self).z->Encode_z_blocksize == old(self).config.z_blocksize,
            old(self).accepted_entries@.len() == old(self).n_count,
            (old(self).config.z_blocksize % MARKER_BLOCK_SIZE == 0 && old(
                self,
            ).config.m_blocksize % MARKER_BLOCK_SIZE == 0) ==> old(self).ibuf@.len() as int % (
            MARKER_BLOCK_SIZE as int) == 0,
        ensures
            final(self).wf(),
            final(self).count_spec() == old(self).count_spec(),
            final(self).last_key_spec() == old(self).last_key_spec(),
            final(self).config_spec() == old(self).config_spec(),
            final(self).mstack_len() == old(self).mstack_len() + 1,
            final(self).deleted_spec() == old(self).deleted_spec(),
            final(self).maxseq_spec() == old(self).maxseq_spec(),
            final(self).vlog_fpos_spec() == old(self).vlog_fpos_spec(),
            final(self).accepted() == old(self).accepted(),
    {
        let ghost pre = self.mstack@;
        self.mstack.insert(level, m);
        proof {
            assert forall|i: int| 0 <= i < self.mstack@.len() implies (
            #[trigger] self.mstack@[i]) is Encode && self.mstack@[i]->Encode_m_blocksize
                == self.config.m_blocksize by {
                assert(self.mstack@ == pre.insert(level as int, m));
                if i < level {
                    assert(self.mstack@[i] == pre[i]);
                } else if i == level {
                    assert(self.mstack@[i] == m);
                } else {
                    assert(self.mstack@[i] == pre[i - 1]);
                }
            }
        }
    }

    /// Close the build: flush the partial leaf block, cascade the
    /// intermediate stack into a single root, append the meta
    /// trailer, and return the index and value-log images. The index
    /// image ends with the meta trailer over this build's stats and
    /// the given metadata.
    pub fn build_end(self, metadata: Vec<u8>) -> (r: Result<(Vec<u8>, Vec<u8>)>)
        requires
            self.wf(),
        ensures
            r matches Ok(p) ==> ({
                let mb = meta_bytes(
                    stats_bytes(
                        self.count_spec(),
                        self.deleted_spec(),
                        self.maxseq_spec(),
                        self.config_spec().z_blocksize as u64,
                        self.config_spec().m_blocksize as u64,
                        self.vlog_fpos_spec(),
                    ),
                    metadata@,
                );
                p.0@.len() >= mb.len() && p.0@.skip(p.0@.len() - mb.len()) == mb
            }),
            self.accepted().len() == self.count_spec(),
            (r is Ok && self.config_spec().z_blocksize % MARKER_BLOCK_SIZE == 0
                && self.config_spec().m_blocksize % MARKER_BLOCK_SIZE == 0) ==> (r matches Ok(p)
                && p.0@.len() as int % (MARKER_BLOCK_SIZE as int) == 0),
    {
        proof {
            self.lemma_accepted_count();
        }
        let mut this = self;
        if this.z.has_first_key() {
            match this.flush_z() {
                Ok(_) => (),
                Err(e) => {
                    return Err(e);
                },
            }
        }
        // cascade: flush every level that holds entries
        let mut level: usize = 0;
        while level < this.mstack.len()
            invariant
                this.wf(),
                level <= 128,
                this.count_spec() == self.count_spec(),
                this.deleted_spec() == self.deleted_spec(),
                this.maxseq_spec() == self.maxseq_spec(),
                this.vlog_fpos_spec() == self.vlog_fpos_spec(),
                this.config_spec() == self.config_spec(),
                self.accepted().len() == self.count_spec(),
            decreases 128 - level,
        {
            if level >= 64 {
                return Err(Error::UnReachable);
            }
            if this.mstack[level].has_first_key() && !(level == this.mstack.len() - 1
                && this.mstack[level].len() == 1 && level > 0) {
                let is_last = level == this.mstack.len() - 1;
                let mfirst = match this.mstack[level].as_first_key() {
                    Ok(k) => copy_bytes_local(k),
                    Err(e) => {
                        return Err(e);
                    },
                };
                let block = match this.mstack[level].finalize() {
                    Ok(b) => b,
                    Err(e) => {
                        return Err(e);
                    },
                };
                let m_fpos = this.ibuf.len() as u64;
                crate::dlog_entry::append_bytes(&mut this.ibuf, &block);
                this.mstack[level].reset();
                if is_last {
                    // this block is the root
                    level = level + 1;
                    continue;
                }
                match this.register_child(mfirst, m_fpos, false, level + 1) {
                    Ok(_) => (),
                    Err(e) => {
                        return Err(e);
                    },
                }
            }
            level = level + 1;
        }
        // stats payload: counts and configuration, fixed-width
        let mut stats: Vec<u8> = Vec::new();
        append_u64(&mut stats, this.n_count);
        append_u64(&mut stats, this.n_deleted);
        append_u64(&mut stats, this.maxseq);
        append_u64(&mut stats, this.config.z_blocksize as u64);
        append_u64(&mut stats, this.config.m_blocksize as u64);
        append_u64(&mut stats, this.bd.vlog_fpos);
        proof {
            assert(stats@ =~= stats_bytes(
                self.count_spec(),
                self.deleted_spec(),
                self.maxseq_spec(),
                self.config_spec().z_blocksize as u64,
                self.config_spec().m_blocksize as u64,
                self.vlog_fpos_spec(),
            ));
        }
        if metadata.len() > usize::MAX - 4 * crate::bubt_config::MARKER_BLOCK_SIZE - 16
            || this.ibuf.len() > usize::MAX - 4 * crate::bubt_config::MARKER_BLOCK_SIZE
            - metadata.len() {
            return Err(Error::UnReachable);
        }
        let ghost blocks = this.ibuf@;
        match write_meta_items(&stats, &metadata, &mut this.ibuf) {
            Ok(_) => (),
            Err(e) => {
                return Err(e);
            },
        }
        proof {
            assert(this.ibuf@ == blocks + meta_bytes(stats@, metadata@));
            assert(this.ibuf@.skip(blocks.len() as int) =~= meta_bytes(stats@, metadata@));
            if self.config_spec().z_blocksize % MARKER_BLOCK_SIZE == 0
                && self.config_spec().m_blocksize % MARKER_BLOCK_SIZE == 0 {
                crate::bubt_config::lemma_meta_tail_facts(this.ibuf@, stats@, metadata@);
                let mbs = MARKER_BLOCK_SIZE as int;
                let nb = (metadata@.len() + 8) as int / mbs + 1;
                assert(meta_bytes(stats@, metadata@).len() == (2 + nb) * mbs);
                vstd::arithmetic::div_mod::lemma_mod_multiples_basic(2 + nb, mbs);
                Builder::<K, V>::lemma_aligned_append(
                    blocks.len() as int,
                    meta_bytes(stats@, metadata@).len() as int,
                );
            }
        }
        Ok((this.ibuf, this.vbuf))
    }
}

/// Copy a byte vector.
fn copy_bytes_local(v: &Vec<u8>) -> (r: Vec<u8>)
    ensures
        r@ == v@,
{
    let mut r: Vec<u8> = Vec::new();
    let mut i: usize = 0;
    while i < v.len()
        invariant
            i <= v@.len(),
            r@ == v@.subrange(0, i as int),
        decreases v@.len() - i,
    {
        r.push(v[i]);
        proof {
            assert(r@ =~= v@.subrange(0, i + 1));
        }
        i = i + 1;
    }
    proof {
        assert(v@.subrange(0, v@.len() as int) =~= v@);
    }
    r
}

// ------------------------------------------------------------ snapshot

/// A read-only snapshot over a built index image: the entries are
/// decoded up front, in key order.
pub struct Snap<K: OrdKey, V: Diff> {
    index: Vec<u8>,
    m_blocksize: usize,
    z_blocksize: usize,
    root: Option<usize>,
    metadata: Vec<u8>,
    entries: Vec<Entry<K, V>>,
    key_kind: core::marker::PhantomData<K>,
    val_kind: core::marker::PhantomData<V>,
}

/// Whether the keys of `entries` strictly ascend.
pub open spec fn snap_sorted<K: OrdKey, V: Diff>(entries: Seq<Ev<K, V>>) -> bool {
    forall|i: int, j: int|
        0 <= i < j < entries.len() ==> K::lt_spec(
            (#[trigger] entries[i]).key,
            (#[trigger] entries[j]).key,
        )
}

/// Report whether the keys of `entries` strictly ascend.
fn check_snap_sorted<K: OrdKey, V: Diff>(entries: &Vec<Entry<K, V>>) -> (r: bool)
    ensures
        r == snap_sorted::<K, V>(entries.deep_view()),
{
    let ghost ev = entries.deep_view();
    if entries.len() == 0 {
        return true;
    }
    let mut i: usize = 1;
    while i < entries.len()
        invariant
            1 <= i,
            ev == entries.deep_view(),
            ev.len() == entries@.len(),
            ev.len() >= 1,
            forall|a: int, b: int|
                0 <= a < b < i ==> K::lt_spec((#[trigger] ev[a]).key, (#[trigger] ev[b]).key),
        decreases entries@.len() - i,
    {
        match entries[i - 1].as_key().cmp_key(entries[i].as_key()) {
            KeyCmp::Less => (),
            _ => {
                proof {
                    assert(ev[i as int - 1] == entries@[i as int - 1].deep_view());
                    assert(ev[i as int] == entries@[i as int].deep_view());
                    K::lt_trichotomy(ev[i as int - 1].key, ev[i as int].key);
                }
                return false;
            },
        }
        proof {
            assert(ev[i as int - 1] == entries@[i as int - 1].deep_view());
            assert(ev[i as int] == entries@[i as int].deep_view());
            assert forall|a: int, b: int| 0 <= a < b < i + 1 implies K::lt_spec(
                (#[trigger] ev[a]).key,
                (#[trigger] ev[b]).key,
            ) by {
                if b == i && a < i - 1 {
                    K::lt_trans(ev[a].key, ev[i as int - 1].key, ev[b].key);
                }
            }
        }
        i = i + 1;
    }
    true
}

impl<K: OrdKey + Serialize, V: Diff + Serialize> Snap<K, V> {
    /// The application metadata stored in the trailer.
    pub closed spec fn metadata_spec(&self) -> Seq<u8> {
        self.metadata@
    }

    /// The decoded entries of the snapshot, in key order.
    pub closed spec fn entries_spec(&self) -> Seq<Ev<K, V>> {
        self.entries.deep_view()
    }

    /// A well-formed snapshot holds its entries in strictly
    /// ascending key order.
    pub open spec fn wf(&self) -> bool {
        snap_sorted::<K, V>(self.entries_spec())
    }

    /// Open a snapshot over the bytes of an index image; the block
    /// sizes come from the build configuration. The whole tree is
    /// decoded up front, and an image whose keys do not strictly
    /// ascend is rejected.
    pub fn open_bytes(index: Vec<u8>, m_blocksize: usize, z_blocksize: usize) -> (r: Result<
        Snap<K, V>,
    >)
        ensures
            r matches Ok(s) ==> s.wf(),
    {
        if m_blocksize == 0 || z_blocksize == 0 {
            return Err(Error::InvalidSnapshot);
        }
        let (stats, metadata, meta_start) = match read_meta_items(index.as_slice()) {
            Ok(p) => p,
            Err(e) => {
                return Err(e);
            },
        };
        let root = if meta_start == 0 {
            None
        } else {
            if meta_start < m_blocksize {
                return Err(Error::InvalidSnapshot);
            }
            Some(meta_start - m_blocksize)
        };
        let mut snap = Snap {
            index,
            m_blocksize,
            z_blocksize,
            root,
            metadata,
            entries: Vec::new(),
            key_kind: core::marker::PhantomData,
            val_kind: core::marker::PhantomData,
        };
        let mut out: Vec<Entry<K, V>> = Vec::new();
        match snap.root {
            None => (),
            Some(f) => {
                match snap.collect(f, false, &mut out, 0) {
                    Ok(_) => (),
                    Err(e) => {
                        return Err(e);
                    },
                }
            },
        }
        if !check_snap_sorted(&out) {
            return Err(Error::InvalidSnapshot);
        }
        snap.entries = out;
        Ok(snap)
    }

    /// The application metadata stored in the trailer.
    pub fn to_metadata(&self) -> (r: Vec<u8>)
        ensures
            r@ == self.metadata_spec(),
    {
        copy_bytes_local(&self.metadata)
    }

    /// Point lookup: the entry stored under `key`; `KeyNotFound`
    /// exactly when no entry holds that key.
    pub fn get(&self, key: &K) -> (r: Result<Entry<K, V>>)
        ensures
            r matches Ok(e) ==> e@.key == key@ && exists|i: int|
                0 <= i < self.entries_spec().len() && self.entries_spec()[i] == e@,
            r is Ok <==> exists|i: int|
                0 <= i < self.entries_spec().len() && (#[trigger] self.entries_spec()[i]).key
                    == key@,
            r matches Err(e) ==> e == Error::KeyNotFound,
    {
        let ghost ev = self.entries.deep_view();
        let mut i: usize = 0;
        while i < self.entries.len()
            invariant
                i <= self.entries@.len(),
                ev == self.entries.deep_view(),
                ev.len() == self.entries@.len(),
                forall|t: int| 0 <= t < i ==> (#[trigger] ev[t]).key != key@,
            decreases self.entries@.len() - i,
        {
            proof {
                assert(ev[i as int] == self.entries@[i as int].deep_view());
            }
            match key.cmp_key(self.entries[i].as_key()) {
                KeyCmp::Equal => {
                    let e = self.entries[i].dup();
                    return Ok(e);
                },
                _ => {
                    proof {
                        K::lt_trichotomy(key@, ev[i as int].key);
                        K::lt_trichotomy(ev[i as int].key, key@);
                    }
                },
            }
            i = i + 1;
        }
        Err(Error::KeyNotFound)
    }

    /// Decode the entry at position `i` of a leaf block.
    fn z_entry_at(&self, z: &ZBlock, i: usize) -> (r: Result<Entry<K, V>>) {
        let off = match z.entry_offset_pub(i) {
            Ok(o) => o,
            Err(e) => {
                return Err(e);
            },
        };
        match z.block_bytes() {
            Some(block) => {
                let tail = vstd::slice::slice_subrange(block.as_slice(), off, block.len());
                match decode_z_entry::<K, V>(tail) {
                    Ok((e, _)) => Ok(e),
                    Err(e) => Err(e),
                }
            },
            None => Err(Error::UnReachable),
        }
    }

    /// All entries of the snapshot, in key order.
    pub fn iter(&self) -> (r: Result<Vec<Entry<K, V>>>)
        ensures
            r matches Ok(v) ==> v.deep_view() == self.entries_spec(),
            r is Ok,
    {
        let ghost ev = self.entries.deep_view();
        let mut out: Vec<Entry<K, V>> = Vec::new();
        let mut i: usize = 0;
        while i < self.entries.len()
            invariant
                i <= self.entries@.len(),
                ev == self.entries.deep_view(),
                ev.len() == self.entries@.len(),
                out@.len() == i,
                out.deep_view() == ev.subrange(0, i as int),
            decreases self.entries@.len() - i,
        {
            let e = self.entries[i].dup();
            let ghost pre = out.deep_view();
            let ghost prevv = out@;
            out.push(e);
            proof {
                assert(ev[i as int] == self.entries@[i as int].deep_view());
                assert forall|t: int| 0 <= t < out@.len() implies #[trigger] out.deep_view()[t]
                    == ev.subrange(0, i as int + 1)[t] by {
                    assert(out.deep_view()[t] == out@[t].deep_view());
                    if t < prevv.len() {
                        assert(out@[t] == prevv[t]);
                        assert(prevv[t].deep_view() == pre[t]);
                    }
                }
                assert(out.deep_view() =~= ev.subrange(0, i as int + 1));
            }
            i = i + 1;
        }
        proof {
            assert(ev.subrange(0, ev.len() as int) =~= ev);
        }
        Ok(out)
    }

    /// Depth-first collection of the subtree at `fpos`.
    fn collect(&self, fpos: usize, is_z: bool, out: &mut Vec<Entry<K, V>>, depth: usize) -> (r:
        Result<()>)
        decreases 64 - depth,
    {
        if depth >= 64 {
            return Err(Error::InvalidSnapshot);
        }
        if is_z {
            if fpos > self.index.len() || self.z_blocksize > self.index.len() - fpos {
                return Err(Error::InvalidSnapshot);
            }
            let block = crate::util::copy_range(
                self.index.as_slice(),
                fpos,
                fpos + self.z_blocksize,
            );
            let z = match ZBlock::new_decode(block) {
                Ok(z) => z,
                Err(e) => {
                    return Err(e);
                },
            };
            let n = z.len();
            let mut i: usize = 0;
            while i < n
                invariant
                    z is Decode,
                decreases n - i,
            {
                match self.z_entry_at(&z, i) {
                    Ok(e) => {
                        out.push(e);
                    },
                    Err(e) => {
                        return Err(e);
                    },
                }
                i = i + 1;
            }
            return Ok(());
        }
        if fpos > self.index.len() || self.m_blocksize > self.index.len() - fpos {
            return Err(Error::InvalidSnapshot);
        }
        let block = crate::util::copy_range(self.index.as_slice(), fpos, fpos + self.m_blocksize);
        let m = match MBlock::new_decode(block) {
            Ok(m) => m,
            Err(e) => {
                return Err(e);
            },
        };
        let n = m.len();
        let mut i: usize = 0;
        while i < n
            invariant
                depth < 64,
                m is Decode,
            decreases n - i,
        {
            let (ck, cfpos, cz) = match m.to_entry(i) {
                Ok(p) => p,
                Err(e) => {
                    return Err(e);
                },
            };
            if cfpos > (usize::MAX as u64) {
                return Err(Error::InvalidSnapshot);
            }
            match self.collect(cfpos as usize, cz, out, depth + 1) {
                Ok(_) => (),
                Err(e) => {
                    return Err(e);
                },
            }
            i = i + 1;
        }
        Ok(())
    }
}

} // verus!
