//! Per-notifier longest-prefix-match table over IPv4: insertion with
//! last-writer-wins overwrite of an existing prefix, and most-specific
//! covering lookup.

use vstd::prelude::*;
use vstd::pervasive::VecAdditionalExecFns;

verus! {

/// One table entry as a mathematical value: masked network address, mask
/// length, and the AS path observed for that prefix.
pub type RouteView = (u32, u32, Seq<u64>);

/// The network address with the host bits below the mask cleared.
pub open spec fn spec_mask(addr: u32, len: u32) -> u32
    recommends
        len <= 32,
{
    ((((addr as u64) >> ((32 - len) as u64)) << ((32 - len) as u64)) as u32)
}

/// Whether the prefix (`prefix`, `len`) covers the address `x`: the first
/// `len` bits agree.
pub open spec fn covers(x: u32, prefix: u32, len: u32) -> bool
    recommends
        len <= 32,
{
    (x as u64) >> ((32 - len) as u64) == (prefix as u64) >> ((32 - len) as u64)
}

/// The first index holding an entry for exactly the prefix `key`, if any.
pub open spec fn index_of_key(s: Seq<RouteView>, key: (u32, u32)) -> Option<int>
    decreases s.len(),
{
    if s.len() == 0 {
        None
    } else if (s[0].0, s[0].1) == key {
        Some(0)
    } else {
        match index_of_key(s.drop_first(), key) {
            None => None,
            Some(i) => Some(i + 1),
        }
    }
}

pub proof fn lemma_index_of_key_char(s: Seq<RouteView>, key: (u32, u32))
    ensures
        match index_of_key(s, key) {
            None => forall|i: int| 0 <= i < s.len() ==> ((#[trigger] s[i]).0, s[i].1) != key,
            Some(i) => 0 <= i < s.len() && (s[i].0, s[i].1) == key && (forall|k: int|
                0 <= k < i ==> ((#[trigger] s[k]).0, s[k].1) != key),
        },
    decreases s.len(),
{
    if s.len() > 0 && (s[0].0, s[0].1) != key {
        lemma_index_of_key_char(s.drop_first(), key);
        match index_of_key(s, key) {
            None => {
                assert forall|i: int| 0 <= i < s.len() implies ((#[trigger] s[i]).0, s[i].1)
                    != key by {
                    if i > 0 {
                        assert(s.drop_first()[i - 1] == s[i]);
                        assert((s.drop_first()[i - 1].0, s.drop_first()[i - 1].1) != key);
                    }
                }
            },
            Some(f) => {
                assert(s.drop_first()[f - 1] == s[f]);
                assert forall|k: int| 0 <= k < f implies ((#[trigger] s[k]).0, s[k].1)
                    != key by {
                    if k > 0 {
                        assert(s.drop_first()[k - 1] == s[k]);
                        assert((s.drop_first()[k - 1].0, s.drop_first()[k - 1].1) != key);
                    }
                }
            },
        }
    }
}

/// The most-specific entry covering `x` among the entries scanned in
/// order: a later entry replaces the retained one only when its mask is
/// strictly longer.
pub open spec fn lookup_seq(s: Seq<RouteView>, x: u32) -> Option<RouteView>
    decreases s.len(),
{
    if s.len() == 0 {
        None
    } else {
        let prev = lookup_seq(s.drop_last(), x);
        let e = s.last();
        if covers(x, e.0, e.1) && (match prev {
            None => true,
            Some(p) => e.1 > p.1,
        }) {
            Some(e)
        } else {
            prev
        }
    }
}

/// Law: longest-match correctness. The retained entry is an entry of the
/// table that covers `x`, and no entry covering `x` has a longer mask;
/// when no entry covers `x`, nothing is returned.
pub proof fn lemma_lookup_seq_char(s: Seq<RouteView>, x: u32)
    ensures
        match lookup_seq(s, x) {
            None => forall|i: int|
                0 <= i < s.len() ==> !covers(x, (#[trigger] s[i]).0, s[i].1),
            Some(e) => s.contains(e) && covers(x, e.0, e.1) && (forall|i: int|
                0 <= i < s.len() && covers(x, (#[trigger] s[i]).0, s[i].1) ==> s[i].1 <= e.1),
        },
    decreases s.len(),
{
    if s.len() > 0 {
        lemma_lookup_seq_char(s.drop_last(), x);
        assert(forall|i: int| 0 <= i < s.len() - 1 ==> s.drop_last()[i] == s[i]);
        match lookup_seq(s.drop_last(), x) {
            None => {},
            Some(p) => {
                assert(s.drop_last().contains(p));
                let w = choose|w: int|
                    0 <= w < s.drop_last().len() && s.drop_last()[w] == p;
                assert(s[w] == p);
                assert(s.contains(p));
            },
        }
        match lookup_seq(s, x) {
            None => {},
            Some(e) => {
                if e == s.last() {
                    assert(s[s.len() - 1] == e);
                    assert(s.contains(e));
                }
            },
        }
    }
}

/// A longest-prefix-match table for one notifier. Entries hold masked
/// addresses, mask lengths of at most 32 bits, and pairwise distinct
/// prefixes; a repeated insert of the same prefix overwrites.
pub struct PrefixIndex {
    entries: Vec<(u32, u32, Vec<u64>)>,
}

impl View for PrefixIndex {
    type V = Seq<RouteView>;

    closed spec fn view(&self) -> Seq<RouteView> {
        self.entries@.map_values(|e: (u32, u32, Vec<u64>)| (e.0, e.1, e.2@))
    }
}

/// Clears the host bits of `addr` below a mask of `len` bits.
pub fn mask_addr(addr: u32, len: u32) -> (r: u32)
    requires
        len <= 32,
    ensures
        r == spec_mask(addr, len),
{
    let sh: u32 = 32 - len;
    let m: u64 = ((addr as u64) >> (sh as u64)) << (sh as u64);
    #[verifier::truncate] (m as u32)
}

/// Whether the prefix (`prefix`, `len`) covers the address `x`.
pub fn addr_covers(x: u32, prefix: u32, len: u32) -> (r: bool)
    requires
        len <= 32,
    ensures
        r == covers(x, prefix, len),
{
    let sh: u32 = 32 - len;
    ((x as u64) >> (sh as u64)) == ((prefix as u64) >> (sh as u64))
}

impl PrefixIndex {
    /// All mask lengths fit IPv4 and entries hold pairwise distinct
    /// prefixes.
    pub open spec fn wf(&self) -> bool {
        (forall|i: int| 0 <= i < self@.len() ==> (#[trigger] self@[i]).1 <= 32) && (forall|
            i: int,
            j: int,
        |
            0 <= i < j < self@.len() ==> ((#[trigger] self@[i]).0, self@[i].1) != ((
            #[trigger] self@[j]).0, self@[j].1))
    }

    /// An empty table.
    pub fn new() -> (r: PrefixIndex)
        ensures
            r.wf(),
            r@ == Seq::<RouteView>::empty(),
    {
        let r = PrefixIndex { entries: Vec::new() };
        proof {
            assert(r@ =~= Seq::<RouteView>::empty());
        }
        r
    }

    /// Stores the path for the prefix (`addr`, `masklen`), replacing the
    /// entry of that prefix if one exists and appending otherwise. Host
    /// bits of `addr` below the mask are ignored.
    pub fn insert(&mut self, addr: u32, masklen: u32, path: Vec<u64>)
        requires
            old(self).wf(),
            masklen <= 32,
        ensures
            final(self).wf(),
            ({
                let e = (spec_mask(addr, masklen), masklen, path@);
                match index_of_key(old(self)@, (spec_mask(addr, masklen), masklen)) {
                    None => final(self)@ == old(self)@.push(e),
                    Some(i) => final(self)@ == old(self)@.update(i, e),
                }
            }),
    {
        let key_addr = mask_addr(addr, masklen);
        proof {
            lemma_index_of_key_char(self@, (key_addr, masklen));
        }
        let n = self.entries.len();
        let mut i: usize = 0;
        while i < n
            invariant
                n == self@.len(),
                i <= n,
                self == old(self),
                old(self).wf(),
                masklen <= 32,
                key_addr == spec_mask(addr, masklen),
                forall|k: int| 0 <= k < i ==> ((#[trigger] self@[k]).0, self@[k].1) != (
                key_addr, masklen),
            decreases n - i,
        {
            let ei_addr = self.entries[i].0;
            let ei_len = self.entries[i].1;
            assert(self@[i as int].0 == ei_addr && self@[i as int].1 == ei_len);
            if ei_addr == key_addr && ei_len == masklen {
                proof {
                    lemma_index_of_key_char(self@, (key_addr, masklen));
                    match index_of_key(self@, (key_addr, masklen)) {
                        None => {
                            assert((self@[i as int].0, self@[i as int].1) == (key_addr, masklen));
                            assert(false);
                        },
                        Some(f) => {
                            if f < i as int {
                                assert((self@[f].0, self@[f].1) != (key_addr, masklen));
                                assert(false);
                            } else if f > i as int {
                                assert((self@[i as int].0, self@[i as int].1) != (key_addr, masklen));
                                assert(false);
                            }
                        },
                    }
                    assert(index_of_key(self@, (key_addr, masklen)) == Some(i as int));
                }
                self.entries.set(i, (key_addr, masklen, path));
                proof {
                    assert(self@ =~= old(self)@.update(
                        i as int,
                        (key_addr, masklen, path@),
                    ));
                    assert forall|a: int| 0 <= a < self@.len() implies (#[trigger] self@[a]).1
                        <= 32 by {
                        if a != i as int {
                            assert(self@[a] == old(self)@[a]);
                        }
                    }
                    assert forall|a: int, b: int|
                        0 <= a < b < self@.len() implies ((#[trigger] self@[a]).0, self@[a].1)
                        != ((#[trigger] self@[b]).0, self@[b].1) by {
                        assert(old(self)@[a].1 <= 32);
                        assert((self@[a].0, self@[a].1) == (old(self)@[a].0, old(self)@[a].1));
                        assert((self@[b].0, self@[b].1) == (old(self)@[b].0, old(self)@[b].1));
                    }
                }
                return ;
            }
            i += 1;
        }
        proof {
            lemma_index_of_key_char(self@, (key_addr, masklen));
            assert(index_of_key(self@, (key_addr, masklen)) is None);
        }
        self.entries.push((key_addr, masklen, path));
        proof {
            assert(self@ =~= old(self)@.push((key_addr, masklen, path@)));
            let m = self@.len() - 1;
            assert forall|a: int| 0 <= a < self@.len() implies (#[trigger] self@[a]).1
                <= 32 by {
                if a < m {
                    assert(self@[a] == old(self)@[a]);
                }
            }
            assert forall|a: int, b: int|
                0 <= a < b < self@.len() implies ((#[trigger] self@[a]).0, self@[a].1) != ((
            #[trigger] self@[b]).0, self@[b].1) by {
                assert(self@[a] == old(self)@[a]);
                if b < m {
                    assert(self@[b] == old(self)@[b]);
                } else {
                    assert((old(self)@[a].0, old(self)@[a].1) != (key_addr, masklen));
                }
            }
        }
    }

    /// Longest-prefix-match lookup: returns the masked prefix, its mask
    /// length and the stored path of the most-specific entry covering
    /// `addr`, or nothing when no entry covers it.
    pub fn lookup(&self, addr: u32) -> (r: Option<(u32, u32, &Vec<u64>)>)
        requires
            self.wf(),
        ensures
            match r {
                None => lookup_seq(self@, addr) is None,
                Some(t) => lookup_seq(self@, addr) == Some((t.0, t.1, t.2@)),
            },
    {
        let n = self.entries.len();
        let mut best: Option<usize> = None;
        let mut i: usize = 0;
        while i < n
            invariant
                n == self@.len(),
                i <= n,
                self.wf(),
                match best {
                    None => lookup_seq(self@.take(i as int), addr) is None,
                    Some(b) => b < i && lookup_seq(self@.take(i as int), addr) == Some(
                        self@[b as int],
                    ),
                },
            decreases n - i,
        {
            proof {
                assert(self@.take(i + 1).drop_last() =~= self@.take(i as int));
                assert(self@.take(i + 1).last() == self@[i as int]);
            }
            let e_addr = self.entries[i].0;
            let e_len = self.entries[i].1;
            if addr_covers(addr, e_addr, e_len) {
                best = match best {
                    None => Some(i),
                    Some(b) => {
                        if self.entries[b].1 < e_len {
                            Some(i)
                        } else {
                            Some(b)
                        }
                    },
                };
            }
            i += 1;
        }
        proof {
            assert(self@.take(n as int) =~= self@);
        }
        match best {
            None => None,
            Some(b) => {
                let e = &self.entries[b];
                Some((e.0, e.1, &e.2))
            },
        }
    }
}

} // verus!
