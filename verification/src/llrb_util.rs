//! Statistics reported by the in-memory index.

use vstd::prelude::*;

verus! {

/// Depth distribution of the tree's leaves.
#[derive(Clone, Copy)]
pub struct Depth {
    samples: usize,
    min: usize,
    max: usize,
    total: usize,
}

impl Depth {
    /// An empty distribution.
    pub fn new() -> (d: Depth)
        ensures
            d.samples_spec() == 0,
    {
        Depth { samples: 0, min: 0, max: 0, total: 0 }
    }

    /// How many leaves were sampled.
    pub closed spec fn samples_spec(&self) -> usize {
        self.samples
    }

    /// How many leaves were sampled.
    pub fn samples(&self) -> (r: usize)
        ensures
            r == self.samples_spec(),
    {
        self.samples
    }

    /// The shallowest leaf depth seen.
    pub fn min_depth(&self) -> usize {
        self.min
    }

    /// The deepest leaf depth seen.
    pub fn max_depth(&self) -> usize {
        self.max
    }

    /// Record one leaf at `depth`.
    pub fn sample(&mut self, depth: usize)
        ensures
            final(self).samples_spec() == if old(self).samples_spec() == usize::MAX {
                old(self).samples_spec()
            } else {
                (old(self).samples_spec() + 1) as usize
            },
    {
        if self.samples == usize::MAX {
            return ;
        }
        self.samples = self.samples + 1;
        if self.samples == 1 || depth < self.min {
            self.min = depth;
        }
        if depth > self.max {
            self.max = depth;
        }
        if depth <= usize::MAX - self.total {
            self.total = self.total + depth;
        }
    }
}

/// Structural statistics of an index validation walk.
pub struct Stats {
    entries: usize,
    node_size: usize,
    blacks: Option<usize>,
    depths: Option<Depth>,
}

impl Stats {
    /// Fresh statistics for an index with `entries` entries whose
    /// nodes take `node_size` bytes.
    pub fn new(entries: usize, node_size: usize) -> (s: Stats)
        ensures
            s.entries_spec() == entries,
            s.node_size_spec() == node_size,
            s.blacks_spec() is None,
            s.depths_spec() is None,
    {
        Stats { entries, node_size, blacks: None, depths: None }
    }

    pub closed spec fn entries_spec(&self) -> usize {
        self.entries
    }

    pub closed spec fn node_size_spec(&self) -> usize {
        self.node_size
    }

    pub closed spec fn blacks_spec(&self) -> Option<usize> {
        self.blacks
    }

    pub closed spec fn depths_spec(&self) -> Option<Depth> {
        self.depths
    }

    /// Record the black-height of the validated tree.
    pub fn set_blacks(&mut self, blacks: usize)
        ensures
            final(self).blacks_spec() == Some(blacks),
            final(self).entries_spec() == old(self).entries_spec(),
            final(self).node_size_spec() == old(self).node_size_spec(),
            final(self).depths_spec() == old(self).depths_spec(),
    {
        self.blacks = Some(blacks);
    }

    /// Record the leaf-depth distribution of the validated tree.
    pub fn set_depths(&mut self, depths: Depth)
        ensures
            final(self).depths_spec() == Some(depths),
            final(self).entries_spec() == old(self).entries_spec(),
            final(self).node_size_spec() == old(self).node_size_spec(),
            final(self).blacks_spec() == old(self).blacks_spec(),
    {
        self.depths = Some(depths);
    }

    /// Number of entries in the index.
    pub fn entries(&self) -> (r: usize)
        ensures
            r == self.entries_spec(),
    {
        self.entries
    }

    /// In-memory size of one tree node.
    pub fn node_size(&self) -> (r: usize)
        ensures
            r == self.node_size_spec(),
    {
        self.node_size
    }

    /// Black-height of the tree, when validation computed it.
    pub fn blacks(&self) -> (r: Option<usize>)
        ensures
            r == self.blacks_spec(),
    {
        self.blacks
    }

    /// Leaf-depth distribution, when validation collected one.
    pub fn depths(&self) -> (r: Option<Depth>)
        ensures
            match r {
                Some(d) => self.depths_spec() matches Some(dd) && dd.samples_spec() > 0 && d
                    == dd,
                None => self.depths_spec() is None || self.depths_spec().unwrap().samples_spec()
                    == 0,
            },
    {
        match &self.depths {
            None => None,
            Some(d) => {
                if d.samples() == 0 {
                    None
                } else {
                    Some(*d)
                }
            },
        }
    }
}

} // verus!
