//! Configuration for the bottoms-up B-tree, its file naming, and the
//! meta trailer appended after the last index block.
//!
//! The trailer, read back-to-front from the end of the index:
//! a stats block (`u64` length, payload, zero-pad to the marker block
//! size), the metadata blocks (payload, zero-pad, with the last eight
//! bytes holding the payload length), and a marker block filled with
//! `0xAB`. The root block of the tree sits immediately before the
//! trailer.

use vstd::prelude::*;

use crate::error::Error;
use crate::util::{append_u64, read_u64, u64_bytes, u64_of_bytes};
use crate::Result;

verus! {

/// Size of the marker, stats and metadata blocks.
pub const MARKER_BLOCK_SIZE: usize = 4096;

/// The byte the marker block is filled with.
pub const MARKER_BYTE: u8 = 0xAB;

/// Configuration to build a bottoms-up B-tree.
pub struct Config {
    /// Directory where the index files live.
    pub dir: String,
    /// Name of the index under `dir`.
    pub name: String,
    /// Leaf block size.
    pub z_blocksize: usize,
    /// Intermediate block size.
    pub m_blocksize: usize,
    /// Value-log flush block size.
    pub v_blocksize: usize,
    /// Drop tombstones whose seqno is below this bound while
    /// building.
    pub tomb_purge: Option<u64>,
    /// Whether deltas (and optionally values) go to a value-log.
    pub vlog_ok: bool,
    /// Explicit value-log file name, when not derived from `name`.
    pub vlog_file: Option<String>,
    /// Whether values are stored in the value-log instead of inline.
    pub value_in_vlog: bool,
}

impl Config {
    /// The default configuration: 4 KiB blocks, no value-log, no
    /// tombstone purge.
    pub fn new(dir: &str, name: &str) -> (c: Config)
        ensures
            c.dir@ == dir@,
            c.name@ == name@,
            c.z_blocksize == MARKER_BLOCK_SIZE,
            c.m_blocksize == MARKER_BLOCK_SIZE,
            c.v_blocksize == MARKER_BLOCK_SIZE,
            c.tomb_purge is None,
            !c.vlog_ok,
            c.vlog_file is None,
            !c.value_in_vlog,
    {
        Config {
            dir: dir.to_owned(),
            name: name.to_owned(),
            z_blocksize: MARKER_BLOCK_SIZE,
            m_blocksize: MARKER_BLOCK_SIZE,
            v_blocksize: MARKER_BLOCK_SIZE,
            tomb_purge: None,
            vlog_ok: false,
            vlog_file: None,
            value_in_vlog: false,
        }
    }

    /// Set the three block sizes.
    pub fn set_blocksize(self, m: usize, z: usize, v: usize) -> (c: Config)
        ensures
            c.m_blocksize == m,
            c.z_blocksize == z,
            c.v_blocksize == v,
            c.name@ == self.name@,
            c.dir@ == self.dir@,
            c.tomb_purge == self.tomb_purge,
            c.vlog_ok == self.vlog_ok,
            c.vlog_file == self.vlog_file,
            c.value_in_vlog == self.value_in_vlog,
    {
        Config { m_blocksize: m, z_blocksize: z, v_blocksize: v, ..self }
    }

    /// Purge tombstones older than `before` while building.
    pub fn set_tombstone_purge(self, before: u64) -> (c: Config)
        ensures
            c.tomb_purge == Some(before),
            c.name@ == self.name@,
            c.dir@ == self.dir@,
            c.z_blocksize == self.z_blocksize,
            c.m_blocksize == self.m_blocksize,
            c.v_blocksize == self.v_blocksize,
            c.vlog_ok == self.vlog_ok,
            c.vlog_file == self.vlog_file,
            c.value_in_vlog == self.value_in_vlog,
    {
        Config { tomb_purge: Some(before), ..self }
    }

    /// Store deltas (and optionally values) in a value-log.
    pub fn set_vlog(self, vlog_file: Option<String>, value_in_vlog: bool) -> (c: Config)
        ensures
            c.vlog_ok,
            c.vlog_file == vlog_file,
            c.value_in_vlog == value_in_vlog,
            c.name@ == self.name@,
            c.dir@ == self.dir@,
            c.z_blocksize == self.z_blocksize,
            c.m_blocksize == self.m_blocksize,
            c.v_blocksize == self.v_blocksize,
            c.tomb_purge == self.tomb_purge,
    {
        Config { vlog_ok: true, vlog_file, value_in_vlog, ..self }
    }

    /// The index file path: `<dir>/bubt-<name>.indx`.
    pub fn index_file(dir: &str, name: &str) -> (r: String)
        ensures
            r@ == dir@ + "/bubt-"@ + name@ + ".indx"@,
    {
        let mut out = String::new();
        out.append(dir);
        out.append("/bubt-");
        out.append(name);
        out.append(".indx");
        proof {
            reveal_strlit("/bubt-");
            reveal_strlit(".indx");
            assert(out@ =~= dir@ + "/bubt-"@ + name@ + ".indx"@);
        }
        out
    }

    /// The value-log file path: `<dir>/bubt-<name>.vlog`.
    pub fn vlog_file(dir: &str, name: &str) -> (r: String)
        ensures
            r@ == dir@ + "/bubt-"@ + name@ + ".vlog"@,
    {
        let mut out = String::new();
        out.append(dir);
        out.append("/bubt-");
        out.append(name);
        out.append(".vlog");
        proof {
            reveal_strlit("/bubt-");
            reveal_strlit(".vlog");
            assert(out@ =~= dir@ + "/bubt-"@ + name@ + ".vlog"@);
        }
        out
    }

    /// The value-log path to write: the explicit name if one was
    /// configured, else the derived one.
    pub fn vlog_file_w(&self, dir: &str, name: &str) -> (r: String)
        ensures
            match self.vlog_file {
                Some(f) => r@ == f@,
                None => r@ == dir@ + "/bubt-"@ + name@ + ".vlog"@,
            },
    {
        match &self.vlog_file {
            Some(f) => f.clone(),
            None => Config::vlog_file(dir, name),
        }
    }
}

/// A block of `len` zero bytes.
pub open spec fn zeros(len: int) -> Seq<u8> {
    Seq::new(len as nat, |i: int| 0u8)
}

/// The marker block: `MARKER_BLOCK_SIZE` bytes of `MARKER_BYTE`.
pub open spec fn marker_block_bytes() -> Seq<u8> {
    Seq::new(MARKER_BLOCK_SIZE as nat, |i: int| MARKER_BYTE)
}

/// The marker block, materialized.
pub fn marker_block() -> (r: Vec<u8>)
    ensures
        r@ == marker_block_bytes(),
{
    let mut r: Vec<u8> = Vec::new();
    let mut i: usize = 0;
    while i < MARKER_BLOCK_SIZE
        invariant
            i <= MARKER_BLOCK_SIZE,
            r@.len() == i,
            forall|j: int| 0 <= j < i ==> r@[j] == MARKER_BYTE,
        decreases MARKER_BLOCK_SIZE - i,
    {
        r.push(MARKER_BYTE);
        i = i + 1;
    }
    proof {
        assert(r@ =~= marker_block_bytes());
    }
    r
}

/// The bytes of the meta trailer for the given stats and metadata
/// payloads.
pub open spec fn meta_bytes(stats: Seq<u8>, metadata: Seq<u8>) -> Seq<u8> {
    let stats_block = u64_bytes(stats.len() as u64) + stats + zeros(
        MARKER_BLOCK_SIZE - 8 - stats.len(),
    );
    let n_blocks = (metadata.len() + 8) as int / (MARKER_BLOCK_SIZE as int) + 1;
    let md_block = metadata + zeros(
        n_blocks * (MARKER_BLOCK_SIZE as int) - metadata.len() - 8,
    ) + u64_bytes(metadata.len() as u64);
    stats_block + md_block + marker_block_bytes()
}

/// Append `n` zero bytes.
fn append_zeros(buf: &mut Vec<u8>, n: usize)
    ensures
        final(buf)@ == old(buf)@ + zeros(n as int),
{
    let mut i: usize = 0;
    while i < n
        invariant
            i <= n,
            buf@.len() == old(buf)@.len() + i,
            buf@ == old(buf)@ + zeros(i as int),
        decreases n - i,
    {
        buf.push(0);
        proof {
            assert(buf@ =~= old(buf)@ + zeros(i + 1));
        }
        i = i + 1;
    }
}


/// Whether `buf` ends with a meta trailer whose payloads respect the
/// size bounds that `write_meta_items` asks for.
pub open spec fn has_meta_tail(buf: Seq<u8>) -> bool {
    exists|stats: Seq<u8>, md: Seq<u8>|
        {
            &&& stats.len() <= MARKER_BLOCK_SIZE - 8
            &&& md.len() <= usize::MAX - 4 * MARKER_BLOCK_SIZE - 16
            &&& buf.len() >= (#[trigger] meta_bytes(stats, md)).len()
            &&& buf.skip(buf.len() - meta_bytes(stats, md).len()) == meta_bytes(stats, md)
        }
}

/// Where each payload of a meta trailer sits inside a buffer that
/// ends with one.
pub proof fn lemma_meta_tail_facts(buf: Seq<u8>, stats: Seq<u8>, md: Seq<u8>)
    requires
        stats.len() <= MARKER_BLOCK_SIZE - 8,
        md.len() <= usize::MAX - 4 * MARKER_BLOCK_SIZE - 16,
        buf.len() >= meta_bytes(stats, md).len(),
        buf.skip(buf.len() - meta_bytes(stats, md).len()) == meta_bytes(stats, md),
        buf.len() <= usize::MAX,
    ensures
        ({
            let n = buf.len() as int;
            let mbs = MARKER_BLOCK_SIZE as int;
            let nb = (md.len() + 8) as int / mbs + 1;
            let start = n - (2 + nb) * mbs;
            &&& nb >= 1
            &&& md.len() + 8 <= nb * mbs
            &&& meta_bytes(stats, md).len() == (2 + nb) * mbs
            &&& start >= 0
            &&& n >= 3 * mbs
            &&& (forall|i: int| n - mbs <= i < n ==> #[trigger] buf[i] == MARKER_BYTE)
            &&& buf.subrange(n - mbs - 8, n - mbs) == u64_bytes(md.len() as u64)
            &&& buf.subrange(start + mbs, start + mbs + md.len()) == md
            &&& buf.subrange(start, start + 8) == u64_bytes(stats.len() as u64)
            &&& buf.subrange(start + 8, start + 8 + stats.len()) == stats
            &&& buf.subrange(start, n) == meta_bytes(stats, md)
        }),
{
    let n = buf.len() as int;
    let mbs = MARKER_BLOCK_SIZE as int;
    let d = md.len() as int + 8;
    let nb = d / mbs + 1;
    vstd::arithmetic::div_mod::lemma_fundamental_div_mod(d, mbs);
    vstd::arithmetic::div_mod::lemma_mod_division_less_than_divisor(d, mbs);
    let sb = u64_bytes(stats.len() as u64) + stats + zeros(mbs - 8 - stats.len());
    let mdb = md + zeros(nb * mbs - md.len() - 8) + u64_bytes(md.len() as u64);
    let mk = marker_block_bytes();
    let mb = meta_bytes(stats, md);
    assert(mb == sb + mdb + mk);
    assert(sb.len() == mbs);
    assert(mdb.len() == nb * mbs);
    assert(mk.len() == mbs);
    assert(mb.len() == (2 + nb) * mbs);
    let start = n - (2 + nb) * mbs;
    assert forall|j: int| 0 <= j < mb.len() implies buf[start + j] == mb[j] by {
        assert(buf.skip(start)[j] == mb[j]);
        assert(buf.skip(start)[j] == buf[j + start]);
    }
    assert forall|i: int| n - mbs <= i < n implies #[trigger] buf[i] == MARKER_BYTE by {
        assert(buf[start + (i - start)] == mb[i - start]);
        assert(mb[i - start] == mk[i - start - mbs - nb * mbs]);
    }
    assert forall|k: int| 0 <= k < 8 implies #[trigger] buf.subrange(n - mbs - 8, n - mbs)[k]
        == u64_bytes(md.len() as u64)[k] by {
        let j = n - mbs - 8 + k - start;
        assert(buf[start + j] == mb[j]);
        assert(mb[j] == mdb[j - mbs]);
        assert(mdb[j - mbs] == u64_bytes(md.len() as u64)[k]);
    }
    assert(buf.subrange(n - mbs - 8, n - mbs) =~= u64_bytes(md.len() as u64));
    assert forall|k: int| 0 <= k < md.len() implies #[trigger] buf.subrange(
        start + mbs,
        start + mbs + md.len(),
    )[k] == md[k] by {
        let j = mbs + k;
        assert(buf[start + j] == mb[j]);
        assert(mb[j] == mdb[j - mbs]);
        assert(mdb[k] == md[k]);
    }
    assert(buf.subrange(start + mbs, start + mbs + md.len()) =~= md);
    assert forall|k: int| 0 <= k < 8 implies #[trigger] buf.subrange(start, start + 8)[k]
        == u64_bytes(stats.len() as u64)[k] by {
        assert(buf[start + k] == mb[k]);
        assert(mb[k] == sb[k]);
        assert(sb[k] == u64_bytes(stats.len() as u64)[k]);
    }
    assert(buf.subrange(start, start + 8) =~= u64_bytes(stats.len() as u64));
    assert forall|k: int| 0 <= k < stats.len() implies #[trigger] buf.subrange(
        start + 8,
        start + 8 + stats.len(),
    )[k] == stats[k] by {
        let j = 8 + k;
        assert(buf[start + j] == mb[j]);
        assert(mb[j] == sb[j]);
        assert(sb[j] == stats[k]);
    }
    assert(buf.subrange(start + 8, start + 8 + stats.len()) =~= stats);
    assert(buf.subrange(start, n) =~= mb);
}

/// Append the meta trailer: the stats block, the metadata blocks and
/// the marker block.
pub fn write_meta_items(stats: &Vec<u8>, metadata: &Vec<u8>, buf: &mut Vec<u8>) -> (r: Result<
    usize,
>)
    requires
        stats@.len() <= MARKER_BLOCK_SIZE - 8,
        metadata@.len() <= usize::MAX - 2 * MARKER_BLOCK_SIZE - 16,
        old(buf)@.len() <= usize::MAX - 4 * MARKER_BLOCK_SIZE - metadata@.len(),
    ensures
        r is Ok,
        r matches Ok(n) ==> final(buf)@ == old(buf)@ + meta_bytes(stats@, metadata@) && n
            == meta_bytes(stats@, metadata@).len(),
{
    append_u64(buf, stats.len() as u64);
    crate::dlog_entry::append_bytes(buf, stats);
    append_zeros(buf, MARKER_BLOCK_SIZE - 8 - stats.len());
    let n_blocks = (metadata.len() + 8) / MARKER_BLOCK_SIZE + 1;
    crate::dlog_entry::append_bytes(buf, metadata);
    append_zeros(buf, n_blocks * MARKER_BLOCK_SIZE - metadata.len() - 8);
    append_u64(buf, metadata.len() as u64);
    let marker = marker_block();
    crate::dlog_entry::append_bytes(buf, &marker);
    proof {
        assert(final(buf)@ =~= old(buf)@ + meta_bytes(stats@, metadata@));
    }
    Ok(MARKER_BLOCK_SIZE + n_blocks * MARKER_BLOCK_SIZE + MARKER_BLOCK_SIZE)
}

/// Read the meta trailer from the end of an index image. Returns the
/// stats payload, the metadata payload, and the file position where
/// the trailer begins (the end of the tree blocks). A `Some` answer
/// is canonical: rebuilding the trailer gives exactly the input tail.
pub fn read_meta_items(buf: &[u8]) -> (r: Result<(Vec<u8>, Vec<u8>, usize)>)
    ensures
        r matches Ok(p) ==> p.2 <= buf@.len() && buf@.skip(p.2 as int) == meta_bytes(p.0@, p.1@),
        has_meta_tail(buf@) ==> r is Ok,
{
    let n = buf.len();
    if n < 3 * MARKER_BLOCK_SIZE {
        proof {
            if has_meta_tail(buf@) {
                let (st, m) = choose|st: Seq<u8>, m: Seq<u8>|
                    {
                        &&& st.len() <= MARKER_BLOCK_SIZE - 8
                        &&& m.len() <= usize::MAX - 4 * MARKER_BLOCK_SIZE - 16
                        &&& buf@.len() >= (#[trigger] meta_bytes(st, m)).len()
                        &&& buf@.skip(buf@.len() - meta_bytes(st, m).len()) == meta_bytes(st, m)
                    };
                lemma_meta_tail_facts(buf@, st, m);
                assert(false);
            }
        }
        return Err(Error::InvalidSnapshot);
    }
    // marker block
    let mut i: usize = n - MARKER_BLOCK_SIZE;
    while i < n
        invariant
            n == buf@.len(),
            n - MARKER_BLOCK_SIZE <= i <= n,
        decreases n - i,
    {
        if buf[i] != MARKER_BYTE {
            proof {
                if has_meta_tail(buf@) {
                    let (st, m) = choose|st: Seq<u8>, m: Seq<u8>|
                        {
                            &&& st.len() <= MARKER_BLOCK_SIZE - 8
                            &&& m.len() <= usize::MAX - 4 * MARKER_BLOCK_SIZE - 16
                            &&& buf@.len() >= (#[trigger] meta_bytes(st, m)).len()
                            &&& buf@.skip(buf@.len() - meta_bytes(st, m).len()) == meta_bytes(
                                st,
                                m,
                            )
                        };
                    lemma_meta_tail_facts(buf@, st, m);
                    assert(buf@[i as int] == MARKER_BYTE);
                    assert(false);
                }
            }
            return Err(Error::InvalidSnapshot);
        }
        i = i + 1;
    }
    // metadata length
    let mdlen_pos = n - MARKER_BLOCK_SIZE - 8;
    let mdlen_u = read_u64(buf, mdlen_pos);
    if mdlen_u > ((n - 2 * MARKER_BLOCK_SIZE) as u64) || mdlen_u > ((usize::MAX - 4
        * MARKER_BLOCK_SIZE - 16) as u64) {
        proof {
            if has_meta_tail(buf@) {
                let (st, m) = choose|st: Seq<u8>, m: Seq<u8>|
                    {
                        &&& st.len() <= MARKER_BLOCK_SIZE - 8
                        &&& m.len() <= usize::MAX - 4 * MARKER_BLOCK_SIZE - 16
                        &&& buf@.len() >= (#[trigger] meta_bytes(st, m)).len()
                        &&& buf@.skip(buf@.len() - meta_bytes(st, m).len()) == meta_bytes(st, m)
                    };
                lemma_meta_tail_facts(buf@, st, m);
                crate::util::lemma_u64_bytes_id(m.len() as u64);
                assert(mdlen_u == m.len() as u64);
                assert(false);
            }
        }
        return Err(Error::InvalidSnapshot);
    }
    let mdlen = mdlen_u as usize;
    let n_blocks = (mdlen + 8) / MARKER_BLOCK_SIZE + 1;
    if n_blocks > (n - 2 * MARKER_BLOCK_SIZE) / MARKER_BLOCK_SIZE {
        proof {
            if has_meta_tail(buf@) {
                let (st, m) = choose|st: Seq<u8>, m: Seq<u8>|
                    {
                        &&& st.len() <= MARKER_BLOCK_SIZE - 8
                        &&& m.len() <= usize::MAX - 4 * MARKER_BLOCK_SIZE - 16
                        &&& buf@.len() >= (#[trigger] meta_bytes(st, m)).len()
                        &&& buf@.skip(buf@.len() - meta_bytes(st, m).len()) == meta_bytes(st, m)
                    };
                lemma_meta_tail_facts(buf@, st, m);
                crate::util::lemma_u64_bytes_id(m.len() as u64);
                assert(mdlen == m.len());
                let mbs = MARKER_BLOCK_SIZE as int;
                let nb = (m.len() + 8) as int / mbs + 1;
                assert(n_blocks as int == nb);
                assert(nb * mbs <= n - 2 * mbs);
                vstd::arithmetic::div_mod::lemma_div_is_ordered(
                    nb * mbs,
                    n as int - 2 * mbs,
                    mbs,
                );
                vstd::arithmetic::div_mod::lemma_div_by_multiple(nb, mbs);
                assert(nb <= (n as int - 2 * mbs) / mbs);
                assert(false);
            }
        }
        return Err(Error::InvalidSnapshot);
    }
    let md_start = n - MARKER_BLOCK_SIZE - n_blocks * MARKER_BLOCK_SIZE;
    let metadata = crate::util::copy_range(buf, md_start, md_start + mdlen);
    // stats block
    if md_start < MARKER_BLOCK_SIZE {
        proof {
            if has_meta_tail(buf@) {
                let (st, m) = choose|st: Seq<u8>, m: Seq<u8>|
                    {
                        &&& st.len() <= MARKER_BLOCK_SIZE - 8
                        &&& m.len() <= usize::MAX - 4 * MARKER_BLOCK_SIZE - 16
                        &&& buf@.len() >= (#[trigger] meta_bytes(st, m)).len()
                        &&& buf@.skip(buf@.len() - meta_bytes(st, m).len()) == meta_bytes(st, m)
                    };
                lemma_meta_tail_facts(buf@, st, m);
                crate::util::lemma_u64_bytes_id(m.len() as u64);
                assert(mdlen == m.len());
                assert(false);
            }
        }
        return Err(Error::InvalidSnapshot);
    }
    let stats_start = md_start - MARKER_BLOCK_SIZE;
    let slen_u = read_u64(buf, stats_start);
    if slen_u > ((MARKER_BLOCK_SIZE - 8) as u64) {
        proof {
            if has_meta_tail(buf@) {
                let (st, m) = choose|st: Seq<u8>, m: Seq<u8>|
                    {
                        &&& st.len() <= MARKER_BLOCK_SIZE - 8
                        &&& m.len() <= usize::MAX - 4 * MARKER_BLOCK_SIZE - 16
                        &&& buf@.len() >= (#[trigger] meta_bytes(st, m)).len()
                        &&& buf@.skip(buf@.len() - meta_bytes(st, m).len()) == meta_bytes(st, m)
                    };
                lemma_meta_tail_facts(buf@, st, m);
                crate::util::lemma_u64_bytes_id(m.len() as u64);
                assert(mdlen == m.len());
                assert(stats_start as int == n as int - (2 + ((m.len() + 8) as int / (
                MARKER_BLOCK_SIZE as int) + 1)) * (MARKER_BLOCK_SIZE as int));
                crate::util::lemma_u64_bytes_id(st.len() as u64);
                assert(slen_u == st.len() as u64);
                assert(false);
            }
        }
        return Err(Error::InvalidSnapshot);
    }
    let slen = slen_u as usize;
    let stats = crate::util::copy_range(buf, stats_start + 8, stats_start + 8 + slen);
    // canonical check: rebuild the trailer and compare
    let mut rebuilt: Vec<u8> = Vec::new();
    match write_meta_items(&stats, &metadata, &mut rebuilt) {
        Ok(_) => (),
        Err(e) => {
            return Err(e);
        },
    }
    proof {
        if has_meta_tail(buf@) {
            let (st, m) = choose|st: Seq<u8>, m: Seq<u8>|
                {
                    &&& st.len() <= MARKER_BLOCK_SIZE - 8
                    &&& m.len() <= usize::MAX - 4 * MARKER_BLOCK_SIZE - 16
                    &&& buf@.len() >= (#[trigger] meta_bytes(st, m)).len()
                    &&& buf@.skip(buf@.len() - meta_bytes(st, m).len()) == meta_bytes(st, m)
                };
            lemma_meta_tail_facts(buf@, st, m);
            crate::util::lemma_u64_bytes_id(m.len() as u64);
            crate::util::lemma_u64_bytes_id(st.len() as u64);
            assert(mdlen == m.len());
            assert(slen == st.len());
            let mbs = MARKER_BLOCK_SIZE as int;
            let nb = (m.len() + 8) as int / mbs + 1;
            let start = n as int - (2 + nb) * mbs;
            assert(stats_start as int == start);
            assert(metadata@ == m);
            assert(stats@ == st);
            assert(rebuilt@ =~= meta_bytes(st, m));
            assert(rebuilt@.len() == (2 + nb) * mbs);
            assert(buf@.subrange(start, n as int) == meta_bytes(st, m));
        }
    }
    if rebuilt.len() > n || stats_start != n - rebuilt.len() {
        proof {
            assert(!has_meta_tail(buf@));
        }
        return Err(Error::InvalidSnapshot);
    }
    let tail = vstd::slice::slice_subrange(buf, stats_start, n);
    if !crate::util::bytes_eq(&rebuilt, tail) {
        proof {
            if has_meta_tail(buf@) {
                assert(tail@ == buf@.subrange(stats_start as int, n as int));
                assert(false);
            }
        }
        return Err(Error::InvalidSnapshot);
    }
    proof {
        assert(rebuilt@ =~= buf@.skip(stats_start as int));
    }
    Ok((stats, metadata, stats_start))
}

} // verus!
