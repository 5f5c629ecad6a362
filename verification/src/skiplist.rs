//! The skip structure: one data layer of payload entries and a stack of skip
//! layers above it, each skip layer holding byte offsets into the layer
//! directly below, all parsed from a single byte buffer.
//!
//! A seek descends the stack from the coarsest skip layer to the data layer.
//! Each level runs a predecessor search for the query key over its remaining
//! entries; the offset stored next to the matched key tells the level below
//! where its own scan may resume, so no level rescans entries that a coarser
//! level has already ruled out.

use vstd::prelude::*;

use crate::codec::{read_u64_at, read_vint, u64_le_at, vint_len_from, vint_val_from, Decodable};
use crate::layer::{
    entries_at, lemma_seek_cut_bounds, lemma_seek_cut_split, seek_cut, Layer,
};
use vstd::slice::slice_subrange;

verus! {

/// Keys strictly increase along the entry sequence.
pub open spec fn sorted<U>(e: Seq<(u64, U)>) -> bool {
    forall|i: int, j: int| 0 <= i < j < e.len() ==> e[i].0 < e[j].0
}

/// A skip-layer entry `(key, off)` points into the region `below`: `off` is a
/// valid byte offset there, and resuming a scan at `off` lands exactly on the
/// entry of `below` that carries `key`, with only earlier entries skipped.
pub open spec fn offset_covers<U: Decodable>(entry: (u64, u64), below: Seq<u8>) -> bool {
    &&& entry.1 <= below.len()
    &&& exists|m: int|
        0 <= m < entries_at::<U>(below, 0).len() && entries_at::<U>(below, 0)[m].0 == entry.0
            && entries_at::<U>(below, entry.1 as int) == entries_at::<U>(below, 0).skip(m)
}

/// Every entry of the skip layer `top` points correctly into `below`.
pub open spec fn layer_covers<U: Decodable>(top: Seq<(u64, u64)>, below: Seq<u8>) -> bool {
    forall|j: int| 0 <= j < top.len() ==> #[trigger] offset_covers::<U>(top[j], below)
}

/// In a strictly sorted entry list, jumping over the `m` entries before the
/// one carrying `kappa` (itself strictly below `key`) loses nothing of a
/// predecessor search for `key`: the cut past the jump reaches the same
/// final entry and leaves the same suffix.
proof fn lemma_jump_seek<U>(f: Seq<(u64, U)>, key: u64, m: int, kappa: u64)
    requires
        sorted(f),
        0 <= m < f.len(),
        f[m].0 == kappa,
        kappa < key,
    ensures
        m + 1 <= seek_cut(f, key) <= f.len(),
        seek_cut(f.skip(m), key) == seek_cut(f, key) - m,
        f.skip(m)[seek_cut(f, key) - m - 1] == f[seek_cut(f, key) - 1],
        f[seek_cut(f, key) - 1].0 < key,
        f.skip(m).skip(seek_cut(f, key) - m) == f.skip(seek_cut(f, key)),
{
    assert forall|j: int| 0 <= j < m implies f[j].0 < key by {
        assert(f[j].0 < f[m].0);
    }
    lemma_seek_cut_split(f, key, m);
    lemma_seek_cut_bounds(f.skip(m), key);
    lemma_seek_cut_bounds(f, key);
    assert(f.skip(m)[0] == f[m]);
    if seek_cut(f.skip(m), key) == 0 {
        assert(f.skip(m)[0].0 >= key);
        assert(false);
    }
    let c = seek_cut(f, key);
    assert(f.skip(m)[c - m - 1] == f[c - 1]);
    assert(f.skip(m).skip(c - m) =~= f.skip(c));
}

/// Predecessor law: in a strictly key-sorted entry sequence, the cut made by
/// a seek for `key` singles out exactly the entries whose keys lie strictly
/// below `key`, and the entry just before the cut, when there is one, is the
/// entry with the greatest key strictly below `key`.
pub proof fn lemma_cut_is_predecessor<U>(e: Seq<(u64, U)>, key: u64)
    requires
        sorted(e),
    ensures
        forall|j: int| 0 <= j < e.len() ==> (e[j].0 < key <==> j < seek_cut(e, key)),
        seek_cut(e, key) > 0 ==> forall|j: int|
            0 <= j < e.len() && (#[trigger] e[j]).0 < key ==> e[j].0 <= e[seek_cut(e, key) - 1].0,
{
    lemma_seek_cut_bounds(e, key);
    let c = seek_cut(e, key);
    assert forall|j: int| 0 <= j < e.len() implies (e[j].0 < key <==> j < c) by {
        if j >= c && c < e.len() && j > c {
            assert(e[c].0 < e[j].0);
        }
    }
    if c > 0 {
        assert forall|j: int|
            0 <= j < e.len() && (#[trigger] e[j]).0 < key implies e[j].0 <= e[c - 1].0 by {
            if j < c - 1 {
                assert(e[j].0 < e[c - 1].0);
            }
        }
    }
}

/// Composability law: a seek never passes entries that a later iteration
/// should still produce. Every entry left after the cut carries a key at
/// least `key`, and hence strictly above the key of the entry the seek
/// returned.
pub proof fn lemma_seek_skips_only_smaller<U>(e: Seq<(u64, U)>, key: u64)
    requires
        sorted(e),
    ensures
        forall|j: int| seek_cut(e, key) <= j < e.len() ==> (#[trigger] e[j]).0 >= key,
        seek_cut(e, key) > 0 ==> forall|j: int|
            seek_cut(e, key) <= j < e.len() ==> (#[trigger] e[j]).0 > e[seek_cut(e, key) - 1].0,
{
    lemma_seek_cut_bounds(e, key);
    let c = seek_cut(e, key);
    assert forall|j: int| c <= j < e.len() implies e[j].0 >= key by {
        if j > c {
            assert(e[c].0 < e[j].0);
        }
    }
    if c > 0 {
        assert forall|j: int| c <= j < e.len() implies (#[trigger] e[j]).0 > e[c - 1].0 by {
            assert(e[c - 1].0 < e[j].0);
        }
    }
}

/// Where region `i` of the layered body starts: at the end offset of the
/// region before it, or at zero for the first region.
pub open spec fn region_start(offs: Seq<u64>, i: int) -> int {
    if i <= 0 {
        0
    } else {
        offs[i - 1] as int
    }
}

/// The offset header at the start of `buffer`: a variable-length layer count
/// followed by one little-endian `u64` end offset per layer. `None` when the
/// count is malformed or announces more offsets than the buffer holds; the
/// position right after the last offset comes back beside the offsets.
pub open spec fn parsed_header(data: Seq<u8>) -> Option<(Seq<u64>, int)> {
    match vint_len_from(data, 0) {
        None => None,
        Some(l) => {
            let cnt = vint_val_from(data, 0, l) as int;
            if l + 8 * cnt <= data.len() {
                Some((Seq::new(cnt as nat, |j: int| u64_le_at(data, l + 8 * j)), l + 8 * cnt))
            } else {
                None
            }
        },
    }
}

/// The end offsets cut the layered body into well-nested regions: each lies
/// within the body and no region ends before it starts.
pub open spec fn offsets_ok(offs: Seq<u64>, avail: int) -> bool {
    forall|i: int|
        0 <= i < offs.len() ==> ((#[trigger] offs[i]) as int <= avail && region_start(offs, i)
            <= offs[i] as int)
}

/// A read-only, layered skip-list index over one byte buffer: a data layer
/// of `(key, payload)` entries under zero or more skip layers of
/// `(key, offset)` entries, ordered coarsest first.
pub struct SkipList<'a, T> {
    /// The bottom layer, holding the payload entries.
    pub data_layer: Layer<'a, T>,
    /// The skip layers, coarsest resolution first; each holds byte offsets
    /// into the layer directly below it.
    pub skip_layers: Vec<Layer<'a, u64>>,
}

impl<'a, T: Decodable> View for SkipList<'a, T> {
    type V = Seq<(u64, T)>;

    /// The data-layer entries still ahead of the cursor.
    open spec fn view(&self) -> Seq<(u64, T)> {
        self.data_layer@
    }
}

impl<'a, T: Decodable> SkipList<'a, T> {
    /// The full entry list of the data layer's region.
    pub open spec fn data_full(&self) -> Seq<(u64, T)> {
        entries_at::<T>(self.data_layer.data@, 0)
    }

    /// The full entry list of skip layer `i`'s region.
    pub open spec fn skip_full(&self, i: int) -> Seq<(u64, u64)> {
        entries_at::<u64>(self.skip_layers@[i].data@, 0)
    }

    /// Every layer's cursor sits within its region.
    pub open spec fn wf(&self) -> bool {
        &&& self.data_layer.wf()
        &&& forall|i: int| 0 <= i < self.skip_layers@.len() ==> (#[trigger] self.skip_layers@[i]).wf()
    }

    /// Every cursor still stands at the start of its layer.
    pub open spec fn at_start(&self) -> bool {
        &&& self.data_layer@ == self.data_full()
        &&& forall|i: int|
            0 <= i < self.skip_layers@.len() ==> (#[trigger] self.skip_layers@[i])@
                == self.skip_full(i)
    }

    /// Key monotonicity: within every layer, successive keys strictly
    /// increase.
    pub open spec fn keys_sorted(&self) -> bool {
        &&& sorted(self.data_full())
        &&& forall|i: int| 0 <= i < self.skip_layers@.len() ==> sorted(#[trigger] self.skip_full(i))
    }

    /// Coverage: every offset a skip layer stores points at the entry of the
    /// layer below that carries the same key, so a jump never skips past an
    /// entry a seek may still need.
    pub open spec fn linked(&self) -> bool {
        let n = self.skip_layers@.len() as int;
        &&& forall|i: int|
            0 <= i < n - 1 ==> layer_covers::<u64>(
                #[trigger] self.skip_full(i),
                self.skip_layers@[i + 1].data@,
            )
        &&& n > 0 ==> layer_covers::<T>(self.skip_full(n - 1), self.data_layer.data@)
    }

    /// A freshly built, well-formed structure: cursors at the start, keys
    /// strictly increasing in every layer, and all stored offsets pointing
    /// where they should.
    pub open spec fn fresh_wf(&self) -> bool {
        &&& self.wf()
        &&& self.at_start()
        &&& self.keys_sorted()
        &&& self.linked()
    }

    /// Produce the next data-layer entry, or `None` once the data layer is
    /// exhausted; exhaustion is idempotent. Plain forward iteration,
    /// independent of any seeking.
    pub fn produce_next(&mut self) -> (r: Option<(u64, T)>)
        requires
            old(self).wf(),
        ensures
            final(self).wf(),
            final(self).data_layer.data@ == old(self).data_layer.data@,
            final(self).skip_layers == old(self).skip_layers,
            old(self)@.len() == 0 ==> r is None && final(self)@ == Seq::<(u64, T)>::empty(),
            old(self)@.len() > 0 ==> r == Some(old(self)@[0]) && final(self)@ == old(self)@.skip(1),
    {
        self.data_layer.produce_next()
    }

    /// Find the entry with the greatest key strictly below `key`.
    ///
    /// The contract is strictly "less than", not "less than or equal": a
    /// query equal to a stored key returns the entry before it, a
    /// predecessor search rather than a membership test.
    ///
    /// The search descends the layer stack once, each level resuming where
    /// the level above pointed it. On a freshly built, well-formed structure
    /// (`fresh_wf`) the result is exactly the data layer's predecessor entry
    /// for `key`, and the data cursor is left right behind it, ready to
    /// produce the following entries. The search only ever moves cursors
    /// forward, so later seeks must use keys in non-decreasing order; a seek
    /// for a key at or below one already passed finds `None`.
    ///
    /// A stored jump offset that lies beyond its layer's region (possible
    /// only in a corrupt structure) is ignored rather than followed, so the
    /// search never fails; what it returns then is as unspecified as the
    /// corrupt bytes themselves.
    #[verifier::rlimit(80)]
    pub fn seek(&mut self, key: u64) -> (r: Option<(u64, T)>)
        requires
            old(self).wf(),
        ensures
            final(self).wf(),
            final(self).data_layer.data@ == old(self).data_layer.data@,
            final(self).skip_layers@.len() == old(self).skip_layers@.len(),
            forall|i: int|
                0 <= i < old(self).skip_layers@.len()
                    ==> (#[trigger] final(self).skip_layers@[i]).data@
                    == old(self).skip_layers@[i].data@,
            old(self).fresh_wf() ==> ({
                let full = old(self).data_full();
                let c = seek_cut(full, key);
                &&& r == (if c == 0 {
                    None::<(u64, T)>
                } else {
                    Some(full[c - 1])
                })
                &&& final(self)@ == full.skip(c)
            }),
    {
        let ghost o = *old(self);
        let ghost g = o.fresh_wf();
        let n = self.skip_layers.len();
        let mut next_skip: Option<(u64, u64)> = None;
        let mut i: usize = 0;
        while i < n
            invariant
                n == self.skip_layers@.len(),
                n == o.skip_layers@.len(),
                0 <= i <= n,
                g == o.fresh_wf(),
                self.data_layer == o.data_layer,
                forall|j: int|
                    0 <= j < n ==> (#[trigger] self.skip_layers@[j]).data@
                        == o.skip_layers@[j].data@ && self.skip_layers@[j].wf(),
                forall|j: int| i <= j < n ==> self.skip_layers@[j] == o.skip_layers@[j],
                g ==> (next_skip matches Some(ko) ==> i > 0 && seek_cut(o.skip_full(i - 1), key)
                    > 0 && ko == o.skip_full(i - 1)[seek_cut(o.skip_full(i - 1), key) - 1] && ko.0
                    < key),
            decreases n - i,
        {
            let ghost pre_layers = self.skip_layers@;
            let mut layer = self.skip_layers.remove(i);
            proof {
                assert(layer == o.skip_layers@[i as int]);
            }
            let ghost f = o.skip_full(i as int);
            if let Some((_, off)) = next_skip {
                proof {
                    if g {
                        let top = o.skip_full(i as int - 1);
                        lemma_seek_cut_bounds(top, key);
                        assert(layer_covers::<u64>(
                            o.skip_full(i as int - 1),
                            o.skip_layers@[i as int].data@,
                        ));
                        assert(offset_covers::<u64>(top[seek_cut(top, key) - 1], layer.data@));
                    }
                }
                if off <= layer.data.len() as u64 {
                    layer.seek_offset(off as usize);
                }
            }
            let res = layer.seek(key);
            proof {
                if g {
                    if next_skip is None {
                        // untouched layer: a plain predecessor search over its full list
                        lemma_seek_cut_bounds(f, key);
                    } else {
                        let ko = next_skip->Some_0;
                        let m = choose|m: int|
                            0 <= m < entries_at::<u64>(layer.data@, 0).len() && entries_at::<u64>(
                                layer.data@,
                                0,
                            )[m].0 == ko.0 && entries_at::<u64>(layer.data@, ko.1 as int)
                                == entries_at::<u64>(layer.data@, 0).skip(m);
                        lemma_jump_seek(f, key, m, ko.0);
                    }
                }
            }
            next_skip = res;
            self.skip_layers.insert(i, layer);
            proof {
                assert(self.skip_layers@ =~= pre_layers.update(i as int, layer));
            }
            i = i + 1;
        }
        if let Some((_, off)) = next_skip {
            proof {
                if g {
                    let top = o.skip_full(n as int - 1);
                    lemma_seek_cut_bounds(top, key);
                    assert(layer_covers::<T>(o.skip_full(n as int - 1), o.data_layer.data@));
                    assert(offset_covers::<T>(top[seek_cut(top, key) - 1], self.data_layer.data@));
                }
            }
            if off <= self.data_layer.data.len() as u64 {
                self.data_layer.seek_offset(off as usize);
            }
        }
        let ghost full = o.data_full();
        proof {
            if g {
                if next_skip is None {
                    lemma_seek_cut_bounds(full, key);
                } else {
                    let ko = next_skip->Some_0;
                    let m = choose|m: int|
                        0 <= m < entries_at::<T>(self.data_layer.data@, 0).len() && entries_at::<
                            T,
                        >(self.data_layer.data@, 0)[m].0 == ko.0 && entries_at::<T>(
                            self.data_layer.data@,
                            ko.1 as int,
                        ) == entries_at::<T>(self.data_layer.data@, 0).skip(m);
                    lemma_jump_seek(full, key, m, ko.0);
                }
            }
        }
        self.data_layer.seek(key)
    }

    /// Parse a whole skip structure from `buffer`.
    ///
    /// The header is read first: a variable-length count, then that many
    /// little-endian `u64` end offsets. The rest of the buffer is cut into
    /// `[previous offset, offset)` regions; the last region is the data
    /// layer and the ones before it are skip layers, coarsest first. A
    /// buffer announcing zero layers yields an empty data layer and no skip
    /// layers. `None` comes back exactly when the header is malformed: no
    /// readable count, fewer offset bytes than announced, offsets that
    /// shrink, or offsets past the end of the buffer.
    #[verifier::rlimit(60)]
    pub fn from_bytes(buffer: &'a [u8]) -> (r: Option<SkipList<'a, T>>)
        ensures
            r is Some <==> (parsed_header(buffer@) matches Some(h) && offsets_ok(
                h.0,
                buffer@.len() - h.1,
            )),
            r matches Some(sl) ==> (parsed_header(buffer@) matches Some(h) && {
                let tail = buffer@.subrange(h.1, buffer@.len() as int);
                let n = h.0.len() as int;
                &&& sl.wf()
                &&& sl.at_start()
                &&& sl.skip_layers@.len() == (if n == 0 {
                    0int
                } else {
                    n - 1
                })
                &&& (forall|i: int|
                    0 <= i < n - 1 ==> (#[trigger] sl.skip_layers@[i]).data@ == tail.subrange(
                        region_start(h.0, i),
                        h.0[i] as int,
                    ))
                &&& (n == 0 ==> sl.data_layer.data@ == Seq::<u8>::empty())
                &&& (n > 0 ==> sl.data_layer.data@ == tail.subrange(
                    region_start(h.0, n - 1),
                    h.0[n - 1] as int,
                ))
            }),
    {
        let blen = buffer.len();
        let (count, hlen) = match read_vint(buffer) {
            None => {
                return None;
            },
            Some(vl) => vl,
        };
        if count > ((blen - hlen) / 8) as u64 {
            proof {
                assert(8 * (count as int) > blen - hlen);
            }
            return None;
        }
        proof {
            assert(8 * (count as int) <= 8 * (((blen - hlen) / 8) as int) <= blen - hlen);
        }
        let n = count as usize;
        let ghost offs = parsed_header(buffer@)->Some_0.0;
        let mut offsets: Vec<u64> = Vec::new();
        let mut j: usize = 0;
        while j < n
            invariant
                n == count as int,
                j <= n,
                blen == buffer@.len(),
                hlen + 8 * n <= blen,
                offsets@.len() == j as int,
                forall|k: int| 0 <= k < j ==> offsets@[k] == u64_le_at(buffer@, hlen + 8 * k),
            decreases n - j,
        {
            let off = read_u64_at(buffer, hlen + 8 * j).unwrap();
            offsets.push(off);
            j += 1;
        }
        proof {
            assert(offsets@ =~= offs);
        }
        let body = hlen + 8 * n;
        let avail = blen - body;
        let mut k: usize = 0;
        let mut prev: u64 = 0;
        while k < n
            invariant
                k <= n,
                n == offsets@.len(),
                offsets@ == offs,
                blen == buffer@.len(),
                body == hlen + 8 * n <= blen,
                avail == blen - body,
                parsed_header(buffer@) == Some((offs, body as int)),
                forall|t: int|
                    0 <= t < k ==> ((#[trigger] offsets@[t]) as int <= avail && region_start(
                        offsets@,
                        t,
                    ) <= offsets@[t] as int),
                prev == (if k == 0 {
                    0u64
                } else {
                    offsets@[k - 1]
                }),
            decreases n - k,
        {
            let o = offsets[k];
            if o < prev || o > avail as u64 {
                proof {
                    assert(!(offs[k as int] as int <= avail && region_start(offs, k as int)
                        <= offs[k as int] as int));
                }
                return None;
            }
            prev = o;
            k += 1;
        }
        proof {
            assert(offsets_ok(offs, avail as int));
        }
        let layers_data = slice_subrange(buffer, body, blen);
        if n == 0 {
            let sl = SkipList { data_layer: Layer::empty(), skip_layers: Vec::new() };
            Some(sl)
        } else {
            let mut skips: Vec<Layer<'a, u64>> = Vec::new();
            let mut t: usize = 0;
            while t + 1 < n
                invariant
                    1 <= n == offsets@.len(),
                    t <= n - 1,
                    offsets@ == offs,
                    avail == layers_data@.len(),
                    offsets_ok(offs, avail as int),
                    skips@.len() == t as int,
                    forall|q: int|
                        0 <= q < t ==> ((#[trigger] skips@[q]).wf() && skips@[q].data@
                            == layers_data@.subrange(region_start(offs, q), offs[q] as int)
                            && skips@[q]@ == entries_at::<u64>(skips@[q].data@, 0)),
                decreases n - t,
            {
                let s = if t == 0 {
                    0u64
                } else {
                    offsets[t - 1]
                };
                let region = slice_subrange(layers_data, s as usize, offsets[t] as usize);
                skips.push(Layer::from_bytes(region));
                t += 1;
            }
            let ds = if n == 1 {
                0u64
            } else {
                offsets[n - 2]
            };
            let dregion = slice_subrange(layers_data, ds as usize, offsets[n - 1] as usize);
            let dl = Layer::from_bytes(dregion);
            Some(SkipList { data_layer: dl, skip_layers: skips })
        }
    }
}

} // verus!
