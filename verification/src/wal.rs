//! Write-ahead-log core: the batch format, journal file naming, the
//! hash-sharded writer, and the purge/replay decisions.
//!
//! Batch layout (big-endian):
//! a `u64` length of the rest of the batch, then term, committed
//! index, persisted index, a `u64` config count with `u16`-length
//! prefixed config items, a `u16`-length prefixed votedfor, a `u64`
//! entry count with the encoded entries, and finally a `u64` xxhash
//! checksum of everything between the length field and the checksum.
//!
//! The decoder accepts exactly the encoder's canonical bytes: after
//! parsing it re-encodes the batch and compares, so a successful
//! decode pins the input bytes completely.

use vstd::prelude::*;

use crate::base::Serialize;
use crate::base::{Diff, OrdKey};
use crate::dlog_entry::{append_bytes, entry_bytes, Entry, LogEntryView, Op, OpView};
use crate::scans::Replay;
use crate::error::Error;
use crate::util::{append_u16, append_u64, read_u16, read_u64, u16_bytes, u64_bytes};
use crate::Result;

verus! {

/// Term used when the log runs outside any consensus round.
pub const NIL_TERM: u64 = 0;

/// Default node name for config and votedfor fields.
pub const DEFAULT_NODE: &'static str = "default-node";

/// Relies on `twox_hash::XxHash64::oneshot`: the digest is a function
/// of the seed and the bytes alone.
pub uninterp spec fn xxhash64_of(seed: u64, data: Seq<u8>) -> u64;

/// Relies on `twox_hash::XxHash64::oneshot` for the batch checksum.
#[verifier::external_body]
fn xxhash64(seed: u64, data: &[u8]) -> (r: u64)
    ensures
        r == xxhash64_of(seed, data@),
{
    twox_hash::XxHash64::oneshot(seed, data)
}

// ------------------------------------------------------------ the batch

/// The view of a batch.
pub struct BatchView<KT, VT> {
    pub term: u64,
    pub committed: u64,
    pub persisted: u64,
    pub config: Seq<Seq<u8>>,
    pub votedfor: Seq<u8>,
    pub entries: Seq<LogEntryView<KT, VT>>,
}

/// Bytes of the config items, each with a `u16` length prefix; the
/// `u64` count precedes them in the batch.
pub open spec fn config_items_bytes(cfg: Seq<Seq<u8>>) -> Seq<u8>
    decreases cfg.len(),
{
    if cfg.len() == 0 {
        Seq::empty()
    } else {
        config_items_bytes(cfg.drop_last()) + u16_bytes(cfg.last().len() as u16) + cfg.last()
    }
}

/// Bytes of the encoded entry list.
pub open spec fn entries_bytes<K: Serialize, V: Serialize>(
    es: Seq<LogEntryView<<K as View>::V, <V as View>::V>>,
) -> Seq<u8>
    decreases es.len(),
{
    if es.len() == 0 {
        Seq::empty()
    } else {
        entries_bytes::<K, V>(es.drop_last()) + entry_bytes::<K, V>(es.last())
    }
}

/// The checksummed content of a batch: everything between the length
/// field and the checksum.
pub open spec fn batch_content_bytes<K: Serialize, V: Serialize>(
    b: BatchView<<K as View>::V, <V as View>::V>,
) -> Seq<u8> {
    u64_bytes(b.term) + u64_bytes(b.committed) + u64_bytes(b.persisted) + u64_bytes(
        b.config.len() as u64,
    ) + config_items_bytes(b.config) + u16_bytes(b.votedfor.len() as u16) + b.votedfor
        + u64_bytes(b.entries.len() as u64) + entries_bytes::<K, V>(b.entries)
}

/// The full bytes of a batch.
pub open spec fn batch_bytes<K: Serialize, V: Serialize>(
    b: BatchView<<K as View>::V, <V as View>::V>,
) -> Seq<u8> {
    let content = batch_content_bytes::<K, V>(b);
    u64_bytes((content.len() + 8) as u64) + content + u64_bytes(xxhash64_of(0, content))
}

/// When encoding a batch is owed to succeed: every config item and
/// the votedfor name fit their length prefixes, every entry encodes,
/// and the whole batch fits the machine word.
pub open spec fn batch_encodable<K: Serialize, V: Serialize>(
    b: BatchView<<K as View>::V, <V as View>::V>,
) -> bool {
    &&& forall|i: int| 0 <= i < b.config.len() ==> (#[trigger] b.config[i]).len() <= 0xFFFF
    &&& b.votedfor.len() <= 0xFFFF
    &&& forall|i: int|
        0 <= i < b.entries.len() ==> crate::dlog_entry::entry_fits::<K, V>(
            #[trigger] b.entries[i],
        )
    &&& 8 + config_items_bytes(b.config).len() <= usize::MAX
    &&& batch_content_bytes::<K, V>(b).len() + 16 <= usize::MAX
}

/// A batch of log entries, in memory (`Active`) or referred to by
/// its position in a journal file (`Refer`).
pub enum Batch<K, V> {
    Active {
        term: u64,
        committed: u64,
        persisted: u64,
        config: Vec<Vec<u8>>,
        votedfor: Vec<u8>,
        entries: Vec<Entry<K, V>>,
    },
    Refer { fpos: u64, length: usize, start_index: u64, last_index: u64 },
}

impl<K: Serialize, V: Serialize> DeepView for Batch<K, V> {
    type V = Option<BatchView<<K as View>::V, <V as View>::V>>;

    open spec fn deep_view(&self) -> Option<BatchView<<K as View>::V, <V as View>::V>> {
        self@
    }
}

impl<K: Serialize, V: Serialize> View for Batch<K, V> {
    type V = Option<BatchView<<K as View>::V, <V as View>::V>>;

    open spec fn view(&self) -> Option<BatchView<<K as View>::V, <V as View>::V>> {
        match self {
            Batch::Active { term, committed, persisted, config, votedfor, entries } => Some(
                BatchView {
                    term: *term,
                    committed: *committed,
                    persisted: *persisted,
                    config: config.deep_view(),
                    votedfor: votedfor@,
                    entries: entries.deep_view(),
                },
            ),
            Batch::Refer { .. } => None,
        }
    }
}

impl<K: Serialize, V: Serialize> Batch<K, V> {
    /// A fresh, empty active batch.
    pub fn new() -> (r: Batch<K, V>)
        ensures
            r@ matches Some(b) && b.term == NIL_TERM && b.committed == 0 && b.persisted == 0
                && b.config.len() == 0 && b.votedfor.len() == 0 && b.entries.len() == 0,
    {
        let r = Batch::Active {
            term: NIL_TERM,
            committed: 0,
            persisted: 0,
            config: Vec::new(),
            votedfor: Vec::new(),
            entries: Vec::new(),
        };
        proof {
            match r@ {
                Some(b) => {
                    assert(b.config =~= Seq::<Seq<u8>>::empty());
                    assert(b.entries =~= Seq::<
                        LogEntryView<<K as View>::V, <V as View>::V>,
                    >::empty());
                },
                None => {},
            }
        }
        r
    }

    /// Replace the config item list.
    pub fn set_config(&mut self, config: Vec<Vec<u8>>)
        requires
            old(self)@ is Some,
        ensures
            final(self)@ matches Some(b) && old(self)@ matches Some(ob) && b
                == (BatchView { config: config.deep_view(), ..ob }),
    {
        match self {
            Batch::Active { config: c, .. } => {
                *c = config;
            },
            Batch::Refer { .. } => {},
        }
    }

    /// Set the term and the node voted for.
    pub fn set_term(&mut self, term: u64, votedfor: Vec<u8>)
        requires
            old(self)@ is Some,
        ensures
            final(self)@ matches Some(b) && old(self)@ matches Some(ob) && b
                == (BatchView { term, votedfor: votedfor@, ..ob }),
    {
        match self {
            Batch::Active { term: t, votedfor: v, .. } => {
                *t = term;
                *v = votedfor;
            },
            Batch::Refer { .. } => {},
        }
    }

    /// Set the committed index.
    pub fn set_committed(&mut self, committed: u64)
        requires
            old(self)@ is Some,
        ensures
            final(self)@ matches Some(b) && old(self)@ matches Some(ob) && b
                == (BatchView { committed, ..ob }),
    {
        match self {
            Batch::Active { committed: c, .. } => {
                *c = committed;
            },
            Batch::Refer { .. } => {},
        }
    }

    /// Set the persisted index.
    pub fn set_persisted(&mut self, persisted: u64)
        requires
            old(self)@ is Some,
        ensures
            final(self)@ matches Some(b) && old(self)@ matches Some(ob) && b
                == (BatchView { persisted, ..ob }),
    {
        match self {
            Batch::Active { persisted: p, .. } => {
                *p = persisted;
            },
            Batch::Refer { .. } => {},
        }
    }

    /// Append one entry to the batch.
    pub fn add_entry(&mut self, entry: Entry<K, V>)
        requires
            old(self)@ is Some,
        ensures
            final(self)@ matches Some(b) && old(self)@ matches Some(ob) && b.entries
                == ob.entries.push(entry@) && b.term == ob.term && b.committed == ob.committed
                && b.persisted == ob.persisted && b.config == ob.config && b.votedfor
                == ob.votedfor,
    {
        match self {
            Batch::Active { entries, .. } => {
                let ghost predv = entries.deep_view();
                let ghost prevv = entries@;
                entries.push(entry);
                proof {
                    assert forall|j: int|
                        0 <= j < entries@.len() implies #[trigger] entries.deep_view()[j] == (predv
                        + seq![entry@])[j] by {
                        assert(entries.deep_view()[j] == entries@[j].deep_view());
                        if j < prevv.len() {
                            assert(entries@[j] == prevv[j]);
                            assert(prevv[j].deep_view() == predv[j]);
                        }
                    }
                    assert(entries.deep_view() =~= predv.push(entry@));
                }
            },
            Batch::Refer { .. } => {},
        }
    }

    /// Number of entries the batch holds; zero for a reference.
    pub fn len(&self) -> (r: usize)
        ensures
            self@ matches Some(b) ==> r == b.entries.len(),
    {
        match self {
            Batch::Active { entries, .. } => entries.len(),
            Batch::Refer { .. } => 0,
        }
    }

    /// The index of the batch's first entry.
    pub fn to_start_index(&self) -> (r: Option<u64>)
        ensures
            self@ matches Some(b) ==> r == (if b.entries.len() == 0 {
                Option::<u64>::None
            } else {
                Some(log_entry_index(b.entries[0]))
            }),
    {
        match self {
            Batch::Active { entries, .. } => {
                if entries.len() == 0 {
                    None
                } else {
                    proof {
                        assert(entries.deep_view()[0] == entries@[0].deep_view());
                    }
                    Some(entries[0].to_index())
                }
            },
            Batch::Refer { start_index, .. } => Some(*start_index),
        }
    }

    /// The index of the batch's last entry.
    pub fn to_last_index(&self) -> (r: Option<u64>)
        ensures
            self@ matches Some(b) ==> r == (if b.entries.len() == 0 {
                Option::<u64>::None
            } else {
                Some(log_entry_index(b.entries.last()))
            }),
    {
        match self {
            Batch::Active { entries, .. } => {
                if entries.len() == 0 {
                    None
                } else {
                    proof {
                        assert(entries.deep_view()[entries@.len() - 1] == entries@[entries@.len()
                            - 1].deep_view());
                    }
                    Some(entries[entries.len() - 1].to_index())
                }
            },
            Batch::Refer { last_index, .. } => Some(*last_index),
        }
    }

    /// Unwrap the entries of an active batch.
    pub fn into_entries(self) -> (r: Vec<Entry<K, V>>)
        ensures
            self@ matches Some(b) ==> r.deep_view() == b.entries,
            self@ is None ==> r.deep_view() == Seq::<
                LogEntryView<<K as View>::V, <V as View>::V>,
            >::empty(),
    {
        match self {
            Batch::Active { entries, .. } => entries,
            Batch::Refer { .. } => {
                let r: Vec<Entry<K, V>> = Vec::new();
                proof {
                    assert(r.deep_view() =~= Seq::<
                        LogEntryView<<K as View>::V, <V as View>::V>,
                    >::empty());
                }
                r
            },
        }
    }

    /// Encode the config section; a `u64` count then `u16`-length
    /// prefixed items.
    pub fn encode_config(config: &Vec<Vec<u8>>, buf: &mut Vec<u8>) -> (r: Result<usize>)
        ensures
            r matches Ok(n) ==> final(buf)@ == old(buf)@ + u64_bytes(config.deep_view().len() as u64)
                + config_items_bytes(config.deep_view()) && n == 8 + config_items_bytes(
                config.deep_view(),
            ).len(),
            r is Err ==> final(buf)@ == old(buf)@,
            r is Ok <==> (forall|i: int|
                0 <= i < config.deep_view().len() ==> (#[trigger] config.deep_view()[i]).len()
                    <= 0xFFFF) && 8 + config_items_bytes(config.deep_view()).len() <= usize::MAX,
    {
        let mut out: Vec<u8> = Vec::new();
        let mut i: usize = 0;
        proof {
            assert(config.deep_view().take(0) =~= Seq::<Seq<u8>>::empty());
        }
        while i < config.len()
            invariant
                i <= config@.len(),
                out@ == config_items_bytes(config.deep_view().take(i as int)),
                forall|j: int|
                    0 <= j < i ==> (#[trigger] config.deep_view()[j]).len() <= 0xFFFF,
            decreases config@.len() - i,
        {
            if config[i].len() > 0xFFFF {
                proof {
                    assert(config.deep_view()[i as int] == config@[i as int].deep_view());
                }
                return Err(Error::DecodeFail(0));
            }
            let ghost pre = config.deep_view().take(i as int);
            append_u16(&mut out, config[i].len() as u16);
            append_bytes(&mut out, &config[i]);
            proof {
                assert(config.deep_view()[i as int] == config@[i as int].deep_view());
                assert(config.deep_view().take(i + 1).drop_last() =~= pre);
                assert(config.deep_view().take(i + 1).last() == config.deep_view()[i as int]);
            }
            i = i + 1;
        }
        proof {
            assert(config.deep_view().take(config@.len() as int) =~= config.deep_view());
        }
        if out.len() > usize::MAX - 8 {
            return Err(Error::DecodeFail(0));
        }
        append_u64(buf, config.len() as u64);
        append_bytes(buf, &out);
        proof {
            assert(final(buf)@ =~= old(buf)@ + u64_bytes(config.deep_view().len() as u64)
                + config_items_bytes(config.deep_view()));
        }
        Ok(8 + out.len())
    }

    /// Decode the config section; returns the items and the bytes
    /// consumed.
    pub fn decode_config(buf: &[u8]) -> (r: Result<(Vec<Vec<u8>>, usize)>)
        ensures
            r matches Ok(p) ==> p.1 <= buf@.len() && buf@.subrange(0, p.1 as int) == u64_bytes(
                p.0.deep_view().len() as u64,
            ) + config_items_bytes(p.0.deep_view()),
    {
        if buf.len() < 8 {
            return Err(Error::DecodeFail(8));
        }
        let count = read_u64(buf, 0);
        if count > 0xFFFF {
            return Err(Error::DecodeFail(8));
        }
        let mut items: Vec<Vec<u8>> = Vec::new();
        let mut off: usize = 8;
        let mut c: u64 = 0;
        while c < count
            invariant
                c <= count,
                count <= 0xFFFF,
                8 <= off <= buf@.len(),
                items@.len() == c,
                buf@.subrange(8, off as int) =~= config_items_bytes(items.deep_view()),
            decreases count - c,
        {
            if off > buf.len() - 2 || buf.len() < 2 {
                return Err(Error::DecodeFail(2));
            }
            let ilen = read_u16(buf, off) as usize;
            if ilen > buf.len() - off - 2 {
                return Err(Error::DecodeFail(ilen));
            }
            let item_slice = vstd::slice::slice_subrange(buf, off + 2, off + 2 + ilen);
            let item = slice_to_vec_bytes(item_slice);
            let ghost predv = items.deep_view();
            let ghost prevv = items@;
            items.push(item);
            proof {
                assert forall|j: int|
                    0 <= j < items@.len() implies #[trigger] items.deep_view()[j] == predv.push(
                    item_slice@,
                )[j] by {
                    assert(items.deep_view()[j] == items@[j].deep_view());
                    if j < prevv.len() {
                        assert(items@[j] == prevv[j]);
                        assert(prevv[j].deep_view() == predv[j]);
                    }
                }
                assert(items.deep_view() =~= predv.push(item_slice@));
                assert(items.deep_view().drop_last() =~= predv);
                assert(u16_bytes((item_slice@.len() as u16)) =~= buf@.subrange(
                    off as int,
                    off + 2,
                )) by {
                    crate::util::lemma_u16_bytes_inv(buf@.subrange(off as int, off + 2));
                }
                assert(buf@.subrange(8, off + 2 + item_slice@.len() as int) =~= buf@.subrange(
                    8,
                    off as int,
                ) + buf@.subrange(off as int, off + 2) + item_slice@);
            }
            off = off + 2 + ilen;
            c = c + 1;
        }
        proof {
            assert(buf@.subrange(0, off as int) =~= buf@.subrange(0, 8) + buf@.subrange(
                8,
                off as int,
            ));
            assert(buf@.subrange(0, 8) =~= u64_bytes(count)) by {
                crate::util::lemma_u64_bytes_inv(buf@.subrange(0, 8));
            }
        }
        Ok((items, off))
    }

    /// Encode the votedfor name with a `u16` length prefix.
    pub fn encode_votedfor(votedfor: &Vec<u8>, buf: &mut Vec<u8>) -> (r: Result<usize>)
        ensures
            r matches Ok(n) ==> final(buf)@ == old(buf)@ + u16_bytes(votedfor@.len() as u16)
                + votedfor@ && n == 2 + votedfor@.len(),
            r is Err ==> final(buf)@ == old(buf)@,
            r is Ok <==> votedfor@.len() <= 0xFFFF,
    {
        if votedfor.len() > 0xFFFF {
            return Err(Error::DecodeFail(0));
        }
        append_u16(buf, votedfor.len() as u16);
        append_bytes(buf, &votedfor);
        Ok(2 + votedfor.len())
    }

    /// Decode a votedfor name; returns the bytes and the length
    /// consumed.
    pub fn decode_votedfor(buf: &[u8]) -> (r: Result<(Vec<u8>, usize)>)
        ensures
            r matches Ok(p) ==> p.1 <= buf@.len() && buf@.subrange(0, p.1 as int) == u16_bytes(
                p.0@.len() as u16,
            ) + p.0@,
    {
        if buf.len() < 2 {
            return Err(Error::DecodeFail(2));
        }
        let len = read_u16(buf, 0) as usize;
        if len > buf.len() - 2 {
            return Err(Error::DecodeFail(len));
        }
        let item_slice = vstd::slice::slice_subrange(buf, 2, 2 + len);
        let item = slice_to_vec_bytes(item_slice);
        proof {
            assert(u16_bytes((item_slice@.len() as u16)) =~= buf@.subrange(0, 2)) by {
                crate::util::lemma_u16_bytes_inv(buf@.subrange(0, 2));
            }
            assert(buf@.subrange(0, 2 + len as int) =~= buf@.subrange(0, 2) + item_slice@);
        }
        Ok((item, 2 + len))
    }

    /// Encode an active batch; returns the bytes appended.
    #[verifier::rlimit(100)]
    #[verifier::spinoff_prover]
    pub fn encode_active(&self, buf: &mut Vec<u8>) -> (r: Result<usize>)
        ensures
            r matches Ok(n) ==> (self@ matches Some(b) && final(buf)@ == old(buf)@ + batch_bytes::<
                K,
                V,
            >(b) && n == batch_bytes::<K, V>(b).len()),
            r is Err ==> final(buf)@ == old(buf)@,
            r is Ok <==> (self@ matches Some(b) && batch_encodable::<K, V>(b)),
    {
        let (term, committed, persisted, config, votedfor, entries) = match self {
            Batch::Active { term, committed, persisted, config, votedfor, entries } => (
                *term,
                *committed,
                *persisted,
                config,
                votedfor,
                entries,
            ),
            Batch::Refer { .. } => {
                return Err(Error::UnReachable);
            },
        };
        let mut content: Vec<u8> = Vec::new();
        append_u64(&mut content, term);
        append_u64(&mut content, committed);
        append_u64(&mut content, persisted);
        match Self::encode_config(config, &mut content) {
            Ok(_) => (),
            Err(e) => {
                proof {
                    match self@ {
                        Some(b) => {
                            assert(b.config == config.deep_view());
                            assert(!batch_encodable::<K, V>(b));
                        },
                        None => {},
                    }
                }
                return Err(e);
            },
        }
        match Self::encode_votedfor(votedfor, &mut content) {
            Ok(_) => (),
            Err(e) => {
                proof {
                    match self@ {
                        Some(b) => {
                            assert(!batch_encodable::<K, V>(b));
                        },
                        None => {},
                    }
                }
                return Err(e);
            },
        }
        append_u64(&mut content, entries.len() as u64);
        let ghost enthead = content@;
        let mut i: usize = 0;
        proof {
            assert(entries.deep_view().take(0) =~= Seq::<
                LogEntryView<<K as View>::V, <V as View>::V>,
            >::empty());
        }
        while i < entries.len()
            invariant
                i <= entries@.len(),
                content@ == enthead + entries_bytes::<K, V>(entries.deep_view().take(i as int)),
                (self@ matches Some(bb) && bb.entries == entries.deep_view()),
                forall|j: int|
                    0 <= j < i ==> crate::dlog_entry::entry_fits::<K, V>(
                        #[trigger] entries.deep_view()[j],
                    ),
            decreases entries@.len() - i,
        {
            let ghost pre = entries.deep_view().take(i as int);
            match entries[i].encode(&mut content) {
                Ok(_) => (),
                Err(e) => {
                    proof {
                        assert(entries.deep_view()[i as int] == entries@[i as int].deep_view());
                    }
                    return Err(e);
                },
            }
            proof {
                assert(entries.deep_view()[i as int] == entries@[i as int].deep_view());
                assert(entries.deep_view().take(i + 1).drop_last() =~= pre);
                assert(entries.deep_view().take(i + 1).last() == entries.deep_view()[i as int]);
            }
            i = i + 1;
        }
        proof {
            assert(entries.deep_view().take(entries@.len() as int) =~= entries.deep_view());
        }
        if content.len() > usize::MAX - 16 {
            proof {
                match self@ {
                    Some(b) => {
                        assert(content@ =~= batch_content_bytes::<K, V>(b));
                        assert(!batch_encodable::<K, V>(b));
                    },
                    None => {},
                }
            }
            return Err(Error::UnReachable);
        }
        let checksum = xxhash64(0, content.as_slice());
        append_u64(buf, (content.len() as u64) + 8);
        append_bytes(buf, &content);
        append_u64(buf, checksum);
        proof {
            match self@ {
                Some(b) => {
                    assert(content@ =~= batch_content_bytes::<K, V>(b));
                    assert(final(buf)@ =~= old(buf)@ + batch_bytes::<K, V>(b));
                },
                None => {},
            }
        }
        Ok(16 + content.len())
    }

    /// Decode an active batch from the head of `buf`. The decoder
    /// accepts only the canonical encoding: a successful decode
    /// re-encodes to exactly the consumed prefix, checksum included.
    pub fn decode_active(buf: &[u8]) -> (r: Result<(Batch<K, V>, usize)>)
        ensures
            r matches Ok(p) ==> p.1 <= buf@.len() && (p.0@ matches Some(b) && batch_bytes::<K, V>(
                b,
            ) == buf@.subrange(0, p.1 as int)),
    {
        if buf.len() < 40 {
            return Err(Error::DecodeFail(40));
        }
        let length = read_u64(buf, 0);
        if length < 8 + 32 - 32 {
            return Err(Error::DecodeFail(8));
        }
        let term = read_u64(buf, 8);
        let committed = read_u64(buf, 16);
        let persisted = read_u64(buf, 24);
        let crest = vstd::slice::slice_subrange(buf, 32, buf.len());
        let (config, cn) = match Self::decode_config(crest) {
            Ok(p) => p,
            Err(e) => {
                return Err(e);
            },
        };
        if cn > buf.len() - 32 {
            return Err(Error::DecodeFail(cn));
        }
        let vrest = vstd::slice::slice_subrange(buf, 32 + cn, buf.len());
        let (votedfor, vn) = match Self::decode_votedfor(vrest) {
            Ok(p) => p,
            Err(e) => {
                return Err(e);
            },
        };
        let mut off: usize = 32 + cn;
        if vn > buf.len() - off {
            return Err(Error::DecodeFail(vn));
        }
        off = off + vn;
        if off > buf.len() - 8 {
            return Err(Error::DecodeFail(8));
        }
        let n_entries = read_u64(buf, off);
        off = off + 8;
        if n_entries > 0x7FFFFFFF {
            return Err(Error::DecodeFail(8));
        }
        let mut entries: Vec<Entry<K, V>> = Vec::new();
        let mut c: u64 = 0;
        while c < n_entries
            invariant
                c <= n_entries,
                off <= buf@.len(),
            decreases n_entries - c,
        {
            let erest = vstd::slice::slice_subrange(buf, off, buf.len());
            let (e, en) = match Entry::<K, V>::decode(erest) {
                Ok(p) => p,
                Err(e) => {
                    return Err(e);
                },
            };
            entries.push(e);
            if en > buf.len() - off {
                return Err(Error::DecodeFail(en));
            }
            off = off + en;
            c = c + 1;
        }
        if off > buf.len() - 8 {
            return Err(Error::DecodeFail(8));
        }
        let checksum = read_u64(buf, off);
        off = off + 8;
        // canonical check: the parsed batch must re-encode to the
        // exact prefix just consumed
        let batch = Batch::Active { term, committed, persisted, config, votedfor, entries };
        let mut rebuilt: Vec<u8> = Vec::new();
        match batch.encode_active(&mut rebuilt) {
            Ok(_) => (),
            Err(e) => {
                return Err(e);
            },
        }
        if rebuilt.len() != off {
            return Err(Error::DecodeFail(off));
        }
        let prefix = vstd::slice::slice_subrange(buf, 0, off);
        if !bytes_eq(&rebuilt, prefix) {
            return Err(Error::DecodeFail(off));
        }
        proof {
            assert(rebuilt@ =~= buf@.subrange(0, off as int));
        }
        Ok((batch, off))
    }

    /// Decode only the frame of a batch at `fpos`, keeping a
    /// reference with its index range instead of the entries.
    pub fn decode_refer(buf: &[u8], fpos: u64) -> (r: Result<(Batch<K, V>, usize)>)
        ensures
            r matches Ok(p) ==> p.1 <= buf@.len() && (exists|b: BatchView<
                <K as View>::V,
                <V as View>::V,
            >|
                {
                    &&& #[trigger] batch_bytes::<K, V>(b) == buf@.subrange(0, p.1 as int)
                    &&& p.0 == (Batch::<K, V>::Refer {
                        fpos,
                        length: p.1,
                        start_index: if b.entries.len() == 0 {
                            0u64
                        } else {
                            log_entry_index(b.entries[0])
                        },
                        last_index: if b.entries.len() == 0 {
                            0u64
                        } else {
                            log_entry_index(b.entries.last())
                        },
                    })
                }),
    {
        let (b, n) = match Self::decode_active(buf) {
            Ok(p) => p,
            Err(e) => {
                return Err(e);
            },
        };
        let start_index = match b.to_start_index() {
            Some(s) => s,
            None => 0,
        };
        let last_index = match b.to_last_index() {
            Some(s) => s,
            None => 0,
        };
        Ok((Batch::Refer { fpos, length: n, start_index, last_index }, n))
    }
}

/// The index a log entry carries.
pub open spec fn log_entry_index<KT, VT>(e: LogEntryView<KT, VT>) -> u64 {
    match e {
        LogEntryView::Term { index, .. } => index,
        LogEntryView::Client { index, .. } => index,
    }
}

/// Copy a byte slice into a vector.
fn slice_to_vec_bytes(s: &[u8]) -> (r: Vec<u8>)
    ensures
        r@ == s@,
{
    let mut r: Vec<u8> = Vec::new();
    let mut i: usize = 0;
    while i < s.len()
        invariant
            i <= s@.len(),
            r@ == s@.subrange(0, i as int),
        decreases s@.len() - i,
    {
        r.push(s[i]);
        proof {
            assert(r@ =~= s@.subrange(0, i + 1));
        }
        i = i + 1;
    }
    proof {
        assert(s@.subrange(0, s@.len() as int) =~= s@);
    }
    r
}

/// Compare two byte strings.
fn bytes_eq(a: &Vec<u8>, b: &[u8]) -> (r: bool)
    ensures
        r == (a@ == b@),
{
    if a.len() != b.len() {
        proof {
            assert(a@.len() != b@.len());
        }
        return false;
    }
    let mut i: usize = 0;
    while i < a.len()
        invariant
            i <= a@.len(),
            a@.len() == b@.len(),
            forall|j: int| 0 <= j < i ==> a@[j] == b@[j],
        decreases a@.len() - i,
    {
        if a[i] != b[i] {
            return false;
        }
        i = i + 1;
    }
    proof {
        assert(a@ =~= b@);
    }
    true
}

// --------------------------------------------------- purge and replay

/// Which journals `purge_till(before)` deletes: exactly those whose
/// last index exists and is below `before`. The current journal has
/// no bearing here; rotation is the caller's business.
pub fn journals_to_purge(last_indexes: &Vec<Option<u64>>, before: u64) -> (r: Vec<bool>)
    ensures
        r@.len() == last_indexes@.len(),
        forall|i: int|
            0 <= i < r@.len() ==> r@[i] == (match last_indexes@[i] {
                Some(x) => x < before,
                None => false,
            }),
{
    let mut r: Vec<bool> = Vec::new();
    let mut i: usize = 0;
    while i < last_indexes.len()
        invariant
            i <= last_indexes@.len(),
            r@.len() == i,
            forall|j: int|
                0 <= j < i ==> r@[j] == (match last_indexes@[j] {
                    Some(x) => x < before,
                    None => false,
                }),
        decreases last_indexes@.len() - i,
    {
        let p = match last_indexes[i] {
            Some(x) => x < before,
            None => false,
        };
        r.push(p);
        i = i + 1;
    }
    r
}

/// Whether a batch with the given last index must be replayed when
/// replaying from `replay_from`: batches wholly before it are
/// skipped.
pub fn batch_replay_needed(last_index: Option<u64>, replay_from: u64) -> (r: bool)
    ensures
        r == (match last_index {
            Some(x) => x >= replay_from,
            None => true,
        }),
{
    match last_index {
        Some(x) => x >= replay_from,
        None => true,
    }
}

/// The journal-rotation decision: a shard closes its current file
/// and opens the next-numbered one when the current size would
/// exceed the configured limit after the next flush.
pub fn should_rotate_journal(current_size: usize, flush_size: usize, journal_limit: usize) -> (r:
    bool)
    ensures
        r == (current_size + flush_size > journal_limit),
{
    current_size > journal_limit || flush_size > journal_limit - current_size
}

// ------------------------------------------------------ journal naming

/// Decimal digits of `n`, most significant first.
pub open spec fn dec_digits(n: nat) -> Seq<char>
    decreases n,
{
    if n < 10 {
        seq![digit_char(n)]
    } else {
        dec_digits(n / 10) + seq![digit_char(n % 10)]
    }
}

/// The character of one decimal digit.
pub open spec fn digit_char(d: nat) -> char {
    if d == 0 {
        '0'
    } else if d == 1 {
        '1'
    } else if d == 2 {
        '2'
    } else if d == 3 {
        '3'
    } else if d == 4 {
        '4'
    } else if d == 5 {
        '5'
    } else if d == 6 {
        '6'
    } else if d == 7 {
        '7'
    } else if d == 8 {
        '8'
    } else {
        '9'
    }
}

/// Append the decimal digits of `n`.
fn push_dec(n: u64, out: &mut String)
    ensures
        final(out)@ == old(out)@ + dec_digits(n as nat),
    decreases n,
{
    if n >= 10 {
        push_dec(n / 10, out);
    }
    let d = n % 10;
    if d == 0 {
        out.append("0");
        proof {
            reveal_strlit("0");
        }
    } else if d == 1 {
        out.append("1");
        proof {
            reveal_strlit("1");
        }
    } else if d == 2 {
        out.append("2");
        proof {
            reveal_strlit("2");
        }
    } else if d == 3 {
        out.append("3");
        proof {
            reveal_strlit("3");
        }
    } else if d == 4 {
        out.append("4");
        proof {
            reveal_strlit("4");
        }
    } else if d == 5 {
        out.append("5");
        proof {
            reveal_strlit("5");
        }
    } else if d == 6 {
        out.append("6");
        proof {
            reveal_strlit("6");
        }
    } else if d == 7 {
        out.append("7");
        proof {
            reveal_strlit("7");
        }
    } else if d == 8 {
        out.append("8");
        proof {
            reveal_strlit("8");
        }
    } else {
        out.append("9");
        proof {
            reveal_strlit("9");
        }
    }
    proof {
        if n < 10 {
            assert(final(out)@ =~= old(out)@ + dec_digits(n as nat));
        } else {
            assert(final(out)@ =~= old(out)@ + dec_digits(n as nat));
        }
    }
}

/// The grammar of journal file names:
/// `<name>-wal-shard-<shard>-journal-<num>.wal`.
pub open spec fn journal_file_name(name: Seq<char>, shard: nat, num: nat) -> Seq<char> {
    name + "-wal-shard-"@ + dec_digits(shard) + "-journal-"@ + dec_digits(num) + ".wal"@
}

/// Build the journal file name for a shard and rotation number.
pub fn parts_to_file_name(name: &str, shard_id: usize, num: usize) -> (r: String)
    ensures
        r@ == journal_file_name(name@, shard_id as nat, num as nat),
{
    let mut out = String::new();
    out.append(name);
    out.append("-wal-shard-");
    push_dec(shard_id as u64, &mut out);
    out.append("-journal-");
    push_dec(num as u64, &mut out);
    out.append(".wal");
    proof {
        reveal_strlit("-wal-shard-");
        reveal_strlit("-journal-");
        reveal_strlit(".wal");
        assert(out@ =~= journal_file_name(name@, shard_id as nat, num as nat));
    }
    out
}

/// Recover the name, shard and rotation number from a journal file
/// name. A `Some` answer is sound: rebuilding the file name from the
/// parts gives back exactly the input.
pub fn file_name_to_parts(file: &str) -> (r: Option<(String, usize, usize)>)
    ensures
        r matches Some(p) ==> file@ == journal_file_name(p.0@, p.1 as nat, p.2 as nat),
{
    let n = file.unicode_len();
    if n < 26 {
        return None;
    }
    // scan digits backwards from just before ".wal"
    let mut i: usize = n - 4;
    let mut numlen: usize = 0;
    while i > 0 && numlen < 18 && is_digit(file.get_char(i - 1))
        invariant
            i <= n - 4,
            n == file@.len(),
            n >= 26,
            numlen == (n - 4) - i,
        decreases i,
    {
        i = i - 1;
        numlen = numlen + 1;
    }
    if numlen == 0 || i < 9 {
        return None;
    }
    let num = match parse_digits(file, i, n - 4) {
        Some(v) => v,
        None => {
            return None;
        },
    };
    let jstart = i - 9;
    let mut j: usize = jstart;
    let mut shardlen: usize = 0;
    while j > 0 && shardlen < 18 && is_digit(file.get_char(j - 1))
        invariant
            j <= jstart,
            jstart < n,
            n == file@.len(),
            shardlen == jstart - j,
        decreases j,
    {
        j = j - 1;
        shardlen = shardlen + 1;
    }
    if shardlen == 0 || j < 11 {
        return None;
    }
    let shard = match parse_digits(file, j, jstart) {
        Some(v) => v,
        None => {
            return None;
        },
    };
    let name = file.substring_char(0, j - 11).to_owned();
    if shard > (usize::MAX as u64) || num > (usize::MAX as u64) {
        return None;
    }
    let rebuilt = parts_to_file_name(name.as_str(), shard as usize, num as usize);
    if rebuilt.as_str().unicode_len() != n {
        return None;
    }
    let mut k: usize = 0;
    while k < n
        invariant
            k <= n,
            n == file@.len(),
            rebuilt@.len() == n,
            forall|t: int| 0 <= t < k ==> file@[t] == rebuilt@[t],
        decreases n - k,
    {
        let a = file.get_char(k);
        let b = rebuilt.as_str().get_char(k);
        if (a as u32) != (b as u32) {
            return None;
        }
        proof {
            crate::types::lemma_char_eq(a, b);
        }
        k = k + 1;
    }
    proof {
        assert(file@ =~= rebuilt@);
    }
    Some((name, shard as usize, num as usize))
}

/// Whether a character is a decimal digit.
fn is_digit(c: char) -> (r: bool) {
    let u = c as u32;
    u >= 48 && u <= 57
}

/// Parse the decimal digits of `s` between `from` and `to`.
fn parse_digits(s: &str, from: usize, to: usize) -> (r: Option<u64>)
    requires
        from <= to,
        to <= s@.len(),
{
    let mut v: u64 = 0;
    let mut i: usize = from;
    while i < to
        invariant
            from <= i <= to,
            to <= s@.len(),
        decreases to - i,
    {
        let c = s.get_char(i);
        let u = c as u32;
        if u < 48 || u > 57 {
            return None;
        }
        let d = (u - 48) as u64;
        if v > (u64::MAX - d) / 10 {
            return None;
        }
        v = v * 10 + d;
        i = i + 1;
    }
    Some(v)
}

// ------------------------------------------------------ sharded writer

/// A writer that routes each mutation to a shard by key hash,
/// assigning monotonically increasing indexes. Each shard accumulates
/// an active batch; flushing and file handling sit with the caller.
pub struct Writer<K, V> {
    index: u64,
    shards: Vec<Batch<K, V>>,
}

/// The 64-bit FNV-1a hash of a byte string; the router's hash, a
/// pure function so a key always lands in the same shard.
pub open spec fn fnv1a64(data: Seq<u8>) -> u64
    decreases data.len(),
{
    if data.len() == 0 {
        0xcbf29ce484222325u64
    } else {
        (((fnv1a64(data.drop_last()) ^ (data.last() as u64)) as u128 * 0x100000001b3u128)
            as u64)
    }
}

/// Compute the FNV-1a hash of a byte string.
fn fnv1a64_exec(data: &Vec<u8>) -> (r: u64)
    ensures
        r == fnv1a64(data@),
{
    let mut h: u64 = 0xcbf29ce484222325;
    let mut i: usize = 0;
    proof {
        assert(data@.take(0) =~= Seq::<u8>::empty());
    }
    while i < data.len()
        invariant
            i <= data@.len(),
            h == fnv1a64(data@.take(i as int)),
        decreases data@.len() - i,
    {
        let ghost pre = data@.take(i as int);
        h = (((h ^ (data[i] as u64)) as u128 * 0x100000001b3u128) as u64);
        proof {
            assert(data@.take(i + 1).drop_last() =~= pre);
            assert(data@.take(i + 1).last() == data@[i as int]);
        }
        i = i + 1;
    }
    proof {
        assert(data@.take(data@.len() as int) =~= data@);
    }
    h
}

/// The views of a sequence of batches.
pub open spec fn batches_view<K: Serialize, V: Serialize>(bs: Seq<Batch<K, V>>) -> Seq<
    Option<BatchView<<K as View>::V, <V as View>::V>>,
> {
    Seq::new(bs.len(), |i: int| bs[i]@)
}

impl<K: Serialize, V: Serialize> Writer<K, V> {
    /// The per-shard batches.
    pub closed spec fn shards_spec(&self) -> Seq<Option<BatchView<<K as View>::V, <V as View>::V>>> {
        batches_view(self.shards@)
    }

    /// Every shard holds an active batch.
    pub closed spec fn wf(&self) -> bool {
        forall|i: int| 0 <= i < self.shards@.len() ==> (#[trigger] self.shards@[i]@) is Some
    }

    /// The last index assigned.
    pub closed spec fn index_spec(&self) -> u64 {
        self.index
    }

    /// The number of shards.
    pub closed spec fn nshards_spec(&self) -> int {
        self.shards@.len() as int
    }

    /// A writer with `nshards` empty shard batches.
    pub fn new(nshards: usize) -> (r: Writer<K, V>)
        requires
            nshards > 0,
        ensures
            r.index_spec() == 0,
            r.nshards_spec() == nshards,
            r.wf(),
            forall|i: int|
                0 <= i < r.nshards_spec() ==> ((#[trigger] r.shards_spec()[i]) matches Some(b)
                    && b.entries.len() == 0),
    {
        let mut shards: Vec<Batch<K, V>> = Vec::new();
        let mut i: usize = 0;
        while i < nshards
            invariant
                i <= nshards,
                shards@.len() == i,
                forall|j: int|
                    0 <= j < i ==> ((#[trigger] shards@[j]@) matches Some(b) && b.entries.len()
                        == 0),
            decreases nshards - i,
        {
            let ghost pre = shards@;
            shards.push(Batch::new());
            proof {
                assert forall|j: int|
                    0 <= j < shards@.len() implies (#[trigger] shards@[j]@) matches Some(b)
                    && b.entries.len() == 0 by {
                    if j < pre.len() {
                        assert(shards@[j] == pre[j]);
                    }
                }
            }
            i = i + 1;
        }
        let r = Writer { index: 0, shards };
        r
    }

    /// Append one entry to the batch of shard `s`, leaving every
    /// other shard untouched.
    fn push_to_shard(&mut self, s: usize, e: Entry<K, V>) -> (r: Result<()>)
        requires
            s < old(self).shards@.len(),
            old(self).wf(),
        ensures
            r is Ok,
            final(self).wf(),
            final(self).index_spec() == old(self).index_spec(),
            final(self).nshards_spec() == old(self).nshards_spec(),
            final(self).shards_spec() == old(self).shards_spec().update(
                s as int,
                Some(
                    BatchView {
                        entries: old(self).shards_spec()[s as int].unwrap().entries.push(e@),
                        ..old(self).shards_spec()[s as int].unwrap()
                    },
                ),
            ),
    {
        let ghost pre = self.shards@;
        let mut batch = self.shards.remove(s);
        proof {
            assert(batch == pre[s as int]);
        }
        batch.add_entry(e);
        let ghost pushed = batch;
        self.shards.insert(s, batch);
        proof {
            assert(self.shards@ =~= pre.update(s as int, pushed));
            assert forall|i: int|
                0 <= i < self.shards@.len() implies #[trigger] self.shards_spec()[i]
                == old(self).shards_spec().update(
                s as int,
                Some(
                    BatchView {
                        entries: old(self).shards_spec()[s as int].unwrap().entries.push(e@),
                        ..old(self).shards_spec()[s as int].unwrap()
                    },
                ),
            )[i] by {
                if i != s {
                    assert(self.shards@[i] == pre[i]);
                }
            }
            assert(self.shards_spec() =~= old(self).shards_spec().update(
                s as int,
                Some(
                    BatchView {
                        entries: old(self).shards_spec()[s as int].unwrap().entries.push(e@),
                        ..old(self).shards_spec()[s as int].unwrap()
                    },
                ),
            ));
            assert forall|i: int|
                0 <= i < self.shards@.len() implies (#[trigger] self.shards@[i]@) is Some by {
                if i != s {
                    assert(self.shards@[i] == pre[i]);
                }
            }
        }
        Ok(())
    }

    /// The shard `key` routes to: its FNV-1a hash modulo the shard
    /// count.
    pub fn as_shard(&self, key: &K) -> (r: Result<usize>)
        requires
            self.nshards_spec() > 0,
        ensures
            r is Ok <==> K::ser_ok(key@),
            r matches Ok(s) ==> s < self.nshards_spec() && s as u64 == fnv1a64(K::ser_spec(key@))
                % (self.nshards_spec() as u64),
    {
        let mut kb: Vec<u8> = Vec::new();
        match key.encode(&mut kb) {
            Ok(_) => (),
            Err(_) => {
                return Err(Error::UnReachable);
            },
        }
        let h = fnv1a64_exec(&kb);
        let n = self.shards.len() as u64;
        Ok((h % n) as usize)
    }

    /// Append a `set` to the routed shard; returns the index it was
    /// assigned.
    pub fn set(&mut self, key: K, value: V) -> (r: Result<u64>)
        requires
            old(self).nshards_spec() > 0,
            old(self).index_spec() < u64::MAX,
            old(self).wf(),
        ensures
            final(self).wf(),
            final(self).nshards_spec() == old(self).nshards_spec(),
            r is Ok <==> K::ser_ok(key@),
            r matches Ok(ix) ==> ix == old(self).index_spec() + 1 && final(self).index_spec() == ix
                && ({
                let s = (fnv1a64(K::ser_spec(key@)) % (old(self).nshards_spec() as u64)) as int;
                let ob = old(self).shards_spec()[s].unwrap();
                final(self).shards_spec() == old(self).shards_spec().update(
                    s,
                    Some(
                        BatchView {
                            entries: ob.entries.push(
                                LogEntryView::Term {
                                    term: NIL_TERM,
                                    index: ix,
                                    op: OpView::SetKV { key: key@, value: value@ },
                                },
                            ),
                            ..ob
                        },
                    ),
                )
            }),
            r is Err ==> final(self).index_spec() == old(self).index_spec() && final(self).shards_spec() == old(self).shards_spec(),
    {
        let s = match self.as_shard(&key) {
            Ok(s) => s,
            Err(e) => {
                return Err(e);
            },
        };
        let ix = self.index + 1;
        let op = Op::new_set(key, value);
        let e = Entry::new_term(op, NIL_TERM, ix);
        match self.push_to_shard(s, e) {
            Ok(_) => (),
            Err(e) => {
                return Err(e);
            },
        }
        self.index = ix;
        Ok(ix)
    }

    /// Append a `set-cas` to the routed shard; returns the index it
    /// was assigned.
    pub fn set_cas(&mut self, key: K, value: V, cas: u64) -> (r: Result<u64>)
        requires
            old(self).nshards_spec() > 0,
            old(self).index_spec() < u64::MAX,
            old(self).wf(),
        ensures
            final(self).wf(),
            final(self).nshards_spec() == old(self).nshards_spec(),
            r is Ok <==> K::ser_ok(key@),
            r matches Ok(ix) ==> ix == old(self).index_spec() + 1 && final(self).index_spec() == ix
                && ({
                let s = (fnv1a64(K::ser_spec(key@)) % (old(self).nshards_spec() as u64)) as int;
                let ob = old(self).shards_spec()[s].unwrap();
                final(self).shards_spec() == old(self).shards_spec().update(
                    s,
                    Some(
                        BatchView {
                            entries: ob.entries.push(
                                LogEntryView::Term {
                                    term: NIL_TERM,
                                    index: ix,
                                    op: OpView::SetCAS { key: key@, value: value@, cas },
                                },
                            ),
                            ..ob
                        },
                    ),
                )
            }),
            r is Err ==> final(self).index_spec() == old(self).index_spec() && final(self).shards_spec() == old(self).shards_spec(),
    {
        let s = match self.as_shard(&key) {
            Ok(s) => s,
            Err(e) => {
                return Err(e);
            },
        };
        let ix = self.index + 1;
        let op = Op::new_set_cas(key, value, cas);
        let e = Entry::new_term(op, NIL_TERM, ix);
        match self.push_to_shard(s, e) {
            Ok(_) => (),
            Err(e) => {
                return Err(e);
            },
        }
        self.index = ix;
        Ok(ix)
    }

    /// Append a `delete` to the routed shard; returns the index it
    /// was assigned.
    pub fn delete(&mut self, key: K) -> (r: Result<u64>)
        requires
            old(self).nshards_spec() > 0,
            old(self).index_spec() < u64::MAX,
            old(self).wf(),
        ensures
            final(self).wf(),
            final(self).nshards_spec() == old(self).nshards_spec(),
            r is Ok <==> K::ser_ok(key@),
            r matches Ok(ix) ==> ix == old(self).index_spec() + 1 && final(self).index_spec() == ix
                && ({
                let s = (fnv1a64(K::ser_spec(key@)) % (old(self).nshards_spec() as u64)) as int;
                let ob = old(self).shards_spec()[s].unwrap();
                final(self).shards_spec() == old(self).shards_spec().update(
                    s,
                    Some(
                        BatchView {
                            entries: ob.entries.push(
                                LogEntryView::Term {
                                    term: NIL_TERM,
                                    index: ix,
                                    op: OpView::<<K as View>::V, <V as View>::V>::Delete { key: key@ },
                                },
                            ),
                            ..ob
                        },
                    ),
                )
            }),
            r is Err ==> final(self).index_spec() == old(self).index_spec() && final(self).shards_spec() == old(self).shards_spec(),
    {
        let s = match self.as_shard(&key) {
            Ok(s) => s,
            Err(e) => {
                return Err(e);
            },
        };
        let ix = self.index + 1;
        let op = Op::new_delete(key);
        let e = Entry::new_term(op, NIL_TERM, ix);
        match self.push_to_shard(s, e) {
            Ok(_) => (),
            Err(e) => {
                return Err(e);
            },
        }
        self.index = ix;
        Ok(ix)
    }

    /// Drain the shard batches for flushing: the result holds each
    /// shard's batch in shard order, and every shard is left with a
    /// fresh empty one.
    pub fn take_batches(&mut self) -> (r: Vec<Batch<K, V>>)
        ensures
            final(self).index_spec() == old(self).index_spec(),
            final(self).nshards_spec() == old(self).nshards_spec(),
            final(self).wf(),
            batches_view(r@) == old(self).shards_spec(),
            forall|i: int|
                0 <= i < final(self).nshards_spec() ==> ((#[trigger] final(self).shards_spec()[i])
                    matches Some(b) && b.entries.len() == 0),
    {
        let n = self.shards.len();
        let mut fresh: Vec<Batch<K, V>> = Vec::new();
        let mut i: usize = 0;
        while i < n
            invariant
                i <= n,
                fresh@.len() == i,
                forall|j: int|
                    0 <= j < i ==> ((#[trigger] fresh@[j]@) matches Some(b) && b.entries.len()
                        == 0),
                self.shards@ == old(self).shards@,
                self.index == old(self).index,
            decreases n - i,
        {
            let ghost pre = fresh@;
            fresh.push(Batch::new());
            proof {
                assert forall|j: int|
                    0 <= j < fresh@.len() implies ((#[trigger] fresh@[j]@) matches Some(b)
                    && b.entries.len() == 0) by {
                    if j < pre.len() {
                        assert(fresh@[j] == pre[j]);
                    }
                }
            }
            i = i + 1;
        }
        let mut fresh = fresh;
        core::mem::swap(&mut self.shards, &mut fresh);
        proof {
            assert(batches_view(fresh@) =~= old(self).shards_spec());
        }
        fresh
    }
}

// --------------------------------------------------------------- replay

/// How many entries of a batch's list replay from `from` onward.
pub open spec fn entries_replay_count<KT, VT>(es: Seq<LogEntryView<KT, VT>>, from: u64) -> int
    decreases es.len(),
{
    if es.len() == 0 {
        0
    } else {
        entries_replay_count(es.drop_last(), from) + if log_entry_index(es.last()) >= from {
            1int
        } else {
            0int
        }
    }
}

/// How many entries replay from `from` onward across a batch list;
/// a `Refer` batch holds no decoded entries and contributes none.
pub open spec fn batches_replay_count<KT, VT>(
    bs: Seq<Option<BatchView<KT, VT>>>,
    from: u64,
) -> int
    decreases bs.len(),
{
    if bs.len() == 0 {
        0
    } else {
        batches_replay_count(bs.drop_last(), from) + (match bs.last() {
            Some(b) => entries_replay_count(b.entries, from),
            None => 0int,
        })
    }
}

/// A replay count never exceeds the number of entries.
pub proof fn lemma_entries_replay_count_bound<KT, VT>(es: Seq<LogEntryView<KT, VT>>, from: u64)
    ensures
        0 <= entries_replay_count(es, from) <= es.len(),
    decreases es.len(),
{
    if es.len() > 0 {
        lemma_entries_replay_count_bound(es.drop_last(), from);
    }
}

/// The operation a log entry carries.
pub open spec fn log_entry_op<KT, VT>(e: LogEntryView<KT, VT>) -> OpView<KT, VT> {
    match e {
        LogEntryView::Term { op, .. } => op,
        LogEntryView::Client { op, .. } => op,
    }
}

/// The callbacks a batch's entries dispatch from `from` onward, in
/// log order: each qualifying entry contributes its index and
/// operation.
pub open spec fn entries_replay_ops<KT, VT>(es: Seq<LogEntryView<KT, VT>>, from: u64) -> Seq<
    (u64, OpView<KT, VT>),
>
    decreases es.len(),
{
    if es.len() == 0 {
        Seq::empty()
    } else {
        entries_replay_ops(es.drop_last(), from) + (if log_entry_index(es.last()) >= from {
            seq![(log_entry_index(es.last()), log_entry_op(es.last()))]
        } else {
            Seq::empty()
        })
    }
}

/// The callbacks a batch list dispatches from `from` onward, batch
/// by batch; a `Refer` batch holds no decoded entries and
/// contributes none.
pub open spec fn batches_replay_ops<KT, VT>(
    bs: Seq<Option<BatchView<KT, VT>>>,
    from: u64,
) -> Seq<(u64, OpView<KT, VT>)>
    decreases bs.len(),
{
    if bs.len() == 0 {
        Seq::empty()
    } else {
        batches_replay_ops(bs.drop_last(), from) + (match bs.last() {
            Some(b) => entries_replay_ops(b.entries, from),
            None => Seq::empty(),
        })
    }
}

/// The dispatch list is as long as the replay count.
pub proof fn lemma_entries_replay_ops_count<KT, VT>(es: Seq<LogEntryView<KT, VT>>, from: u64)
    ensures
        entries_replay_ops(es, from).len() == entries_replay_count(es, from),
    decreases es.len(),
{
    if es.len() > 0 {
        lemma_entries_replay_ops_count(es.drop_last(), from);
    }
}

/// The whole dispatch list is as long as the whole replay count.
pub proof fn lemma_batches_replay_ops_count<KT, VT>(
    bs: Seq<Option<BatchView<KT, VT>>>,
    from: u64,
)
    ensures
        batches_replay_ops(bs, from).len() == batches_replay_count(bs, from),
    decreases bs.len(),
{
    if bs.len() > 0 {
        lemma_batches_replay_ops_count(bs.drop_last(), from);
        match bs.last() {
            Some(b) => {
                lemma_entries_replay_ops_count(b.entries, from);
            },
            None => {},
        }
    }
}

/// A prefix of the entries dispatches no more than all of them.
pub proof fn lemma_entries_replay_count_prefix<KT, VT>(
    es: Seq<LogEntryView<KT, VT>>,
    i: int,
    from: u64,
)
    requires
        0 <= i <= es.len(),
    ensures
        entries_replay_count(es.take(i), from) <= entries_replay_count(es, from),
    decreases es.len() - i,
{
    if i < es.len() {
        lemma_entries_replay_count_prefix(es, i + 1, from);
        assert(es.take(i + 1).drop_last() =~= es.take(i));
    } else {
        assert(es.take(i) =~= es);
    }
}

/// A prefix of the batches dispatches no more than all of them.
pub proof fn lemma_batches_replay_count_prefix<KT, VT>(
    bs: Seq<Option<BatchView<KT, VT>>>,
    i: int,
    from: u64,
)
    requires
        0 <= i <= bs.len(),
    ensures
        batches_replay_count(bs.take(i), from) <= batches_replay_count(bs, from),
    decreases bs.len() - i,
{
    if i < bs.len() {
        lemma_batches_replay_count_prefix(bs, i + 1, from);
        assert(bs.take(i + 1).drop_last() =~= bs.take(i));
        match bs.take(i + 1).last() {
            Some(b) => {
                lemma_entries_replay_count_bound(b.entries, from);
            },
            None => {},
        }
    } else {
        assert(bs.take(i) =~= bs);
    }
}

/// Dispatch decoded batches onto `db` in order, skipping entries
/// whose index is below `from`; stops at the first callback error.
/// On success the count is exactly the entries at or above `from`,
/// and the callbacks that fired are exactly the qualifying entries'
/// operations, in log order, as `db`'s own record shows. When
/// nothing qualifies, replay cannot fail.
#[verifier::rlimit(100)]
#[verifier::spinoff_prover]
pub fn replay_batches<K: OrdKey + Serialize, V: Diff + Serialize, P: Replay<K, V>>(
    batches: Vec<Batch<K, V>>,
    db: &mut P,
    from: u64,
) -> (r: Result<usize>)
    ensures
        r matches Ok(n) ==> n as int == batches_replay_count(batches.deep_view(), from)
            && n as int == batches_replay_ops(batches.deep_view(), from).len() && final(db).replayed() == old(db).replayed() + batches_replay_ops(batches.deep_view(), from),
        batches_replay_count(batches.deep_view(), from) == 0 ==> r is Ok,
{
    let ghost bviews = batches.deep_view();
    let ghost total = bviews.len();
    let mut work = batches;
    let mut n: usize = 0;
    proof {
        assert(bviews.take(0) =~= Seq::<
            Option<BatchView<<K as View>::V, <V as View>::V>>,
        >::empty());
        assert(batches_replay_ops(bviews.take(0), from) =~= Seq::<
            (u64, OpView<<K as View>::V, <V as View>::V>),
        >::empty());
        assert(db.replayed() =~= old(db).replayed() + batches_replay_ops(
            bviews.take(0),
            from,
        ));
    }
    while work.len() > 0
        invariant
            bviews == batches.deep_view(),
            work.deep_view() == bviews.skip(total - work@.len()),
            work@.len() <= total,
            total == bviews.len(),
            n as int == batches_replay_count(bviews.take(total - work@.len()), from),
            db.replayed() == old(db).replayed() + batches_replay_ops(
                bviews.take(total - work@.len()),
                from,
            ),
        decreases work@.len(),
    {
        let ghost done = total - work@.len();
        let ghost prework = work.deep_view();
        let batch = work.remove(0);
        proof {
            assert(batch@ == prework[0]);
            assert(prework[0] == bviews[done]);
            assert(work.deep_view() =~= prework.drop_first());
            assert(prework.drop_first() =~= bviews.skip(done + 1));
        }
        let ghost ecount = match batch@ {
            Some(b) => entries_replay_count(b.entries, from),
            None => 0int,
        };
        let entries = batch.into_entries();
        let ghost eviews = entries.deep_view();
        let ghost etotal = eviews.len();
        let mut ework = entries;
        let elen = ework.len();
        let mut m: usize = 0;
        proof {
            assert(etotal == elen);
            assert(eviews.take(0) =~= Seq::<
                LogEntryView<<K as View>::V, <V as View>::V>,
            >::empty());
            assert(entries_replay_ops(eviews.take(0), from) =~= Seq::<
                (u64, OpView<<K as View>::V, <V as View>::V>),
            >::empty());
            match batch@ {
                Some(b) => {
                    assert(eviews == b.entries);
                },
                None => {
                    assert(eviews =~= Seq::<
                        LogEntryView<<K as View>::V, <V as View>::V>,
                    >::empty());
                },
            }
        }
        while ework.len() > 0
            invariant
                bviews == batches.deep_view(),
                ework.deep_view() == eviews.skip(etotal - ework@.len()),
                ework@.len() <= etotal,
                etotal == eviews.len(),
                m as int == entries_replay_count(eviews.take(etotal - ework@.len()), from),
                m as int <= etotal - ework@.len(),
                etotal <= usize::MAX,
                total == bviews.len(),
                0 <= done < total,
                ecount == entries_replay_count(eviews, from),
                (match bviews[done] {
                    Some(b) => b.entries == eviews,
                    None => eviews.len() == 0,
                }),
                db.replayed() == old(db).replayed() + batches_replay_ops(
                    bviews.take(done),
                    from,
                ) + entries_replay_ops(eviews.take(etotal - ework@.len()), from),
            decreases ework@.len(),
        {
            let ghost edone = etotal - ework@.len();
            let ghost preework = ework.deep_view();
            let e = ework.remove(0);
            proof {
                assert(e@ == preework[0]);
                assert(preework[0] == eviews[edone]);
                assert(ework.deep_view() =~= preework.drop_first());
                assert(preework.drop_first() =~= eviews.skip(edone + 1));
                assert(eviews.take(edone + 1).drop_last() =~= eviews.take(edone));
                assert(eviews.take(edone + 1).last() == eviews[edone]);
            }
            let ix = e.to_index();
            if ix >= from {
                let ghost prerec = db.replayed();
                let dispatched = match e.into_op() {
                    Op::SetKV { key, value } => db.set_index(key, value, ix),
                    Op::SetCAS { key, value, cas } => db.set_cas_index(key, value, cas, ix),
                    Op::Delete { key } => db.delete_index(key, ix),
                };
                match dispatched {
                    Ok(_) => {
                        proof {
                            assert(db.replayed() == prerec.push(
                                (ix, log_entry_op(eviews[edone])),
                            ));
                            assert(entries_replay_ops(eviews.take(edone + 1), from)
                                =~= entries_replay_ops(eviews.take(edone), from) + seq![
                                (ix, log_entry_op(eviews[edone])),
                            ]);
                            assert(db.replayed() =~= old(db).replayed() + batches_replay_ops(
                                bviews.take(done),
                                from,
                            ) + entries_replay_ops(eviews.take(edone + 1), from));
                        }
                    },
                    Err(er) => {
                        proof {
                            lemma_entries_replay_count_bound::<
                                <K as View>::V,
                                <V as View>::V,
                            >(eviews.take(edone), from);
                            lemma_entries_replay_count_prefix::<
                                <K as View>::V,
                                <V as View>::V,
                            >(eviews, edone + 1, from);
                            assert(entries_replay_count(eviews, from) >= 1);
                            assert(bviews.take(done + 1).drop_last() =~= bviews.take(done));
                            assert(bviews.take(done + 1).last() == bviews[done]);
                            lemma_batches_replay_count_prefix::<
                                <K as View>::V,
                                <V as View>::V,
                            >(bviews.take(done), 0, from);
                            assert(bviews.take(done).take(0) =~= Seq::<
                                Option<BatchView<<K as View>::V, <V as View>::V>>,
                            >::empty());
                            lemma_batches_replay_count_prefix::<
                                <K as View>::V,
                                <V as View>::V,
                            >(bviews, done + 1, from);
                            assert(batches_replay_count(bviews, from) >= 1);
                        }
                        return Err(er);
                    },
                }
                m = m + 1;
            }
            proof {
                lemma_entries_replay_count_bound::<<K as View>::V, <V as View>::V>(
                    eviews.take(etotal - ework@.len()),
                    from,
                );
            }
        }
        proof {
            assert(eviews.take(etotal as int) =~= eviews);
            assert(m as int == ecount);
            assert(bviews.take(done + 1).drop_last() =~= bviews.take(done));
            assert(bviews.take(done + 1).last() == bviews[done]);
            assert(batches_replay_ops(bviews.take(done + 1), from) =~= batches_replay_ops(
                bviews.take(done),
                from,
            ) + entries_replay_ops(eviews, from));
            assert(db.replayed() =~= old(db).replayed() + batches_replay_ops(
                bviews.take(done + 1),
                from,
            ));
        }
        if m > usize::MAX - n {
            proof {
                lemma_batches_replay_count_prefix::<<K as View>::V, <V as View>::V>(
                    bviews,
                    done + 1,
                    from,
                );
                lemma_batches_replay_count_prefix::<<K as View>::V, <V as View>::V>(
                    bviews.take(done),
                    0,
                    from,
                );
                assert(bviews.take(done).take(0) =~= Seq::<
                    Option<BatchView<<K as View>::V, <V as View>::V>>,
                >::empty());
                lemma_entries_replay_count_bound::<<K as View>::V, <V as View>::V>(
                    eviews,
                    from,
                );
                assert(batches_replay_count(bviews, from) != 0);
            }
            return Err(Error::UnReachable);
        }
        n = n + m;
    }
    proof {
        assert(bviews.take(total as int) =~= bviews);
        lemma_batches_replay_ops_count(bviews, from);
    }
    Ok(n)
}

} // verus!
