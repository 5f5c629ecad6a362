//! One tier of the index: a lazy, forward-only cursor over a contiguous byte
//! region holding `(key, value)` entries in stream order.
//!
//! The region is a flat concatenation: the first eight bytes hold the key of
//! entry 0; each entry then stores its value followed by the key of the next
//! entry; the final entry omits the trailing key, so running out of bytes
//! means exhaustion. A truncated or undecodable value is absorbed into the
//! exhaustion signal rather than reported.

use vstd::prelude::*;

use crate::codec::{read_u64_at, u64_le_at, Decodable};

verus! {

/// The entries still ahead of a cursor that sits at byte position `pos` of
/// `data` with lookahead key `next` (`u64::MAX` meaning exhausted).
pub open spec fn entries_from<T: Decodable>(data: Seq<u8>, pos: int, next: u64) -> Seq<(u64, T)>
    recommends
        0 <= pos <= data.len(),
    decreases data.len() - pos,
{
    if next == u64::MAX || pos < 0 || pos > data.len() {
        Seq::empty()
    } else {
        match T::spec_decode(data, pos) {
            None => Seq::empty(),
            Some(vc) => {
                let c = if 0 <= vc.1 <= data.len() - pos {
                    vc.1
                } else {
                    data.len() - pos
                };
                if pos + c + 8 <= data.len() {
                    seq![(next, vc.0)] + entries_from::<T>(
                        data,
                        pos + c + 8,
                        u64_le_at(data, pos + c),
                    )
                } else {
                    seq![(next, vc.0)]
                }
            },
        }
    }
}

/// The entries of the region `data` read from byte position `pos` on: the
/// eight bytes at `pos` prime the lookahead key, and too short a remainder
/// means no entries at all.
pub open spec fn entries_at<T: Decodable>(data: Seq<u8>, pos: int) -> Seq<(u64, T)> {
    if 0 <= pos && pos + 8 <= data.len() {
        entries_from::<T>(data, pos + 8, u64_le_at(data, pos))
    } else {
        Seq::empty()
    }
}

/// A non-empty entry sequence starts with the lookahead key, and an
/// exhausted lookahead means no entries remain.
pub proof fn lemma_entries_first_key<T: Decodable>(data: Seq<u8>, pos: int, next: u64)
    ensures
        entries_from::<T>(data, pos, next).len() > 0 ==> entries_from::<T>(data, pos, next)[0].0
            == next,
        next == u64::MAX ==> entries_from::<T>(data, pos, next).len() == 0,
{
}

/// How many leading entries of `e` a predecessor search for `key` consumes:
/// the length of the longest prefix whose keys are all strictly below `key`,
/// stopping at the first entry whose key reaches `key`.
pub open spec fn seek_cut<T>(e: Seq<(u64, T)>, key: u64) -> int
    decreases e.len(),
{
    if e.len() == 0 {
        0
    } else if e[0].0 >= key {
        0
    } else {
        1 + seek_cut(e.skip(1), key)
    }
}

/// The cut is a well-formed prefix length: every entry before it has a key
/// strictly below `key`, and the entry at it (if any) does not.
pub proof fn lemma_seek_cut_bounds<T>(e: Seq<(u64, T)>, key: u64)
    ensures
        0 <= seek_cut(e, key) <= e.len(),
        forall|j: int| 0 <= j < seek_cut(e, key) ==> e[j].0 < key,
        seek_cut(e, key) < e.len() ==> e[seek_cut(e, key)].0 >= key,
    decreases e.len(),
{
    if e.len() == 0 {
    } else if e[0].0 >= key {
    } else {
        lemma_seek_cut_bounds(e.skip(1), key);
        assert forall|j: int| 0 <= j < seek_cut(e, key) implies e[j].0 < key by {
            if j > 0 {
                assert(e.skip(1)[j - 1] == e[j]);
            }
        }
    }
}

/// Any prefix length with the cut's two properties is the cut.
pub proof fn lemma_seek_cut_char<T>(e: Seq<(u64, T)>, key: u64, c: int)
    requires
        0 <= c <= e.len(),
        forall|j: int| 0 <= j < c ==> e[j].0 < key,
        c < e.len() ==> e[c].0 >= key,
    ensures
        seek_cut(e, key) == c,
    decreases e.len(),
{
    if c == 0 {
    } else {
        assert(e[0].0 < key);
        assert forall|j: int| 0 <= j < c - 1 implies e.skip(1)[j].0 < key by {
            assert(e.skip(1)[j] == e[j + 1]);
        }
        if c - 1 < e.skip(1).len() {
            assert(e.skip(1)[c - 1] == e[c]);
        }
        lemma_seek_cut_char(e.skip(1), key, c - 1);
    }
}

/// Dropping a prefix of entries whose keys all lie below `key` shortens the
/// cut by exactly that prefix's length.
pub proof fn lemma_seek_cut_split<T>(e: Seq<(u64, T)>, key: u64, m: int)
    requires
        0 <= m <= e.len(),
        forall|j: int| 0 <= j < m ==> e[j].0 < key,
    ensures
        seek_cut(e, key) == m + seek_cut(e.skip(m), key),
    decreases m,
{
    if m == 0 {
        assert(e.skip(0) =~= e);
    } else {
        assert(e[0].0 < key);
        assert forall|j: int| 0 <= j < m - 1 implies e.skip(1)[j].0 < key by {
            assert(e.skip(1)[j] == e[j + 1]);
        }
        lemma_seek_cut_split(e.skip(1), key, m - 1);
        assert(e.skip(1).skip(m - 1) =~= e.skip(m));
    }
}

/// A forward-only cursor over one contiguous byte region holding encoded
/// `(key, value)` entries.
pub struct Layer<'a, T> {
    /// The byte region this layer reads from.
    pub data: &'a [u8],
    /// Byte position of the next value to decode.
    pub pos: usize,
    /// Lookahead: the key of the next entry, or `u64::MAX` once exhausted.
    pub next_key: u64,
    /// The payload type decoded from the region.
    pub _marker: core::marker::PhantomData<T>,
}

impl<'a, T: Decodable> View for Layer<'a, T> {
    type V = Seq<(u64, T)>;

    /// The entries this cursor has yet to produce.
    open spec fn view(&self) -> Seq<(u64, T)> {
        entries_from::<T>(self.data@, self.pos as int, self.next_key)
    }
}

impl<'a, T: Decodable> Layer<'a, T> {
    /// The cursor never points past the end of its region.
    pub open spec fn wf(&self) -> bool {
        self.pos <= self.data@.len()
    }

    /// A layer with no entries at all.
    pub fn empty() -> (r: Layer<'a, T>)
        ensures
            r.wf(),
            r.data@ == Seq::<u8>::empty(),
            r@ == Seq::<(u64, T)>::empty(),
    {
        Layer { data: &[], pos: 0, next_key: u64::MAX, _marker: core::marker::PhantomData }
    }

    /// Open a cursor at the start of `region`: the leading eight bytes prime
    /// the lookahead key; too short a region starts out exhausted.
    pub fn from_bytes(region: &'a [u8]) -> (r: Layer<'a, T>)
        ensures
            r.wf(),
            r.data@ == region@,
            r@ == entries_at::<T>(region@, 0),
    {
        match read_u64_at(region, 0) {
            Some(k) => Layer {
                data: region,
                pos: 8,
                next_key: k,
                _marker: core::marker::PhantomData,
            },
            None => Layer {
                data: region,
                pos: 0,
                next_key: u64::MAX,
                _marker: core::marker::PhantomData,
            },
        }
    }

    /// Consume and return the entry under the cursor, or `None` once the
    /// region is exhausted; exhaustion is idempotent, and a value that fails
    /// to decode counts as exhaustion.
    pub fn produce_next(&mut self) -> (r: Option<(u64, T)>)
        requires
            old(self).wf(),
        ensures
            final(self).wf(),
            final(self).data@ == old(self).data@,
            old(self)@.len() == 0 ==> r is None && final(self)@ == Seq::<(u64, T)>::empty(),
            old(self)@.len() > 0 ==> r == Some(old(self)@[0]) && final(self)@ == old(self)@.skip(1),
    {
        if self.next_key == u64::MAX {
            None
        } else {
            let ghost e = self@;
            match T::decode(self.data, self.pos) {
                None => {
                    self.next_key = u64::MAX;
                    None
                },
                Some((v, c)) => {
                    let n = self.data.len();
                    proof {
                        T::lemma_decode_len(self.data@, self.pos as int);
                        assert(T::spec_decode(self.data@, self.pos as int) == Some(
                            (v, c as int),
                        ));
                        assert(c <= n - self.pos);
                    }
                    let key = self.next_key;
                    let vpos = self.pos + c;
                    match read_u64_at(self.data, vpos) {
                        Some(k2) => {
                            self.pos = vpos + 8;
                            self.next_key = k2;
                            proof {
                                assert(e == seq![(key, v)] + self@);
                                assert(e.skip(1) =~= self@);
                            }
                        },
                        None => {
                            self.pos = vpos;
                            self.next_key = u64::MAX;
                            proof {
                                assert(e =~= seq![(key, v)]);
                                assert(e.skip(1) =~= self@);
                            }
                        },
                    }
                    Some((key, v))
                },
            }
        }
    }

    /// Reposition the cursor to byte offset `offset` of the region and
    /// re-read the lookahead key there. The caller is responsible for the
    /// offset landing on an entry boundary; the format cannot detect a
    /// misaligned jump, and the entries read after one are unspecified.
    pub fn seek_offset(&mut self, offset: usize)
        requires
            old(self).wf(),
            offset <= old(self).data@.len(),
        ensures
            final(self).wf(),
            final(self).data@ == old(self).data@,
            final(self)@ == entries_at::<T>(old(self).data@, offset as int),
    {
        let n = self.data.len();
        match read_u64_at(self.data, offset) {
            Some(k) => {
                proof {
                    assert(offset + 8 <= n);
                }
                self.pos = offset + 8;
                self.next_key = k;
            },
            None => {
                self.pos = offset;
                self.next_key = u64::MAX;
            },
        }
    }

    /// Advance while the lookahead key is strictly below `key` and return the
    /// last entry consumed: the greatest remaining entry with key strictly
    /// below `key`, or `None` when no remaining entry qualifies. Forward-only:
    /// entries once passed are never revisited, so a caller must seek in
    /// non-decreasing key order to get meaningful answers.
    pub fn seek(&mut self, key: u64) -> (r: Option<(u64, T)>)
        requires
            old(self).wf(),
        ensures
            final(self).wf(),
            final(self).data@ == old(self).data@,
            final(self)@ == old(self)@.skip(seek_cut(old(self)@, key)),
            r == (if seek_cut(old(self)@, key) == 0 {
                None::<(u64, T)>
            } else {
                Some(old(self)@[seek_cut(old(self)@, key) - 1])
            }),
    {
        let ghost e = self@;
        let ghost d0 = self.data@;
        let ghost mut c: int = 0;
        let mut val: Option<(u64, T)> = None;
        proof {
            lemma_seek_cut_bounds(e, key);
            assert(e.skip(0) =~= e);
        }
        loop
            invariant
                self.wf(),
                self.data@ == d0,
                0 <= c <= e.len(),
                self@ == e.skip(c),
                forall|j: int| 0 <= j < c ==> e[j].0 < key,
                val == (if c == 0 {
                    None::<(u64, T)>
                } else {
                    Some(e[c - 1])
                }),
            ensures
                self.wf(),
                self.data@ == d0,
                c == seek_cut(e, key),
                self@ == e.skip(c),
                val == (if c == 0 {
                    None::<(u64, T)>
                } else {
                    Some(e[c - 1])
                }),
            decreases e.len() - c,
        {
            if !(self.next_key < key) {
                proof {
                    if c < e.len() {
                        lemma_entries_first_key::<T>(self.data@, self.pos as int, self.next_key);
                        assert(e.skip(c)[0] == e[c]);
                    }
                    lemma_seek_cut_char(e, key, c);
                }
                break ;
            }
            let ghost pre = self@;
            let ghost p0 = self.pos as int;
            let ghost nk0 = self.next_key;
            match self.produce_next() {
                None => {
                    proof {
                        assert(e.skip(c).len() == 0);
                        assert(self@ =~= e.skip(c));
                        lemma_seek_cut_char(e, key, c);
                    }
                    break ;
                },
                v => {
                    val = v;
                    proof {
                        lemma_entries_first_key::<T>(d0, p0, nk0);
                        assert(pre[0] == e[c]);
                        assert(pre[0].0 == nk0);
                        assert(pre.skip(1) =~= e.skip(c + 1));
                        c = c + 1;
                    }
                },
            }
        }
        val
    }
}

} // verus!
