use vstd::prelude::*;

verus! {

/// Element type of a matrix: boolean entries are stored as the value 1.
#[derive(Clone, Copy, Debug, PartialEq, Eq, Structural)]
pub enum ElementType {
    Bool,
    U64,
}

/// Semiring of a matrix product or sum: `AnyPair` gives 1 wherever a pair of
/// entries meets.
#[derive(Clone, Copy, Debug, PartialEq, Eq, Structural)]
pub enum Semiring {
    AnyPair,
}

/// One stored entry of a sparse matrix.
#[derive(Clone, Copy, Debug, PartialEq, Eq, Structural)]
pub struct Entry {
    pub row: u64,
    pub col: u64,
    pub val: u64,
}

/// Coordinates of an entry.
pub open spec fn ekey(e: Entry) -> (u64, u64) {
    (e.row, e.col)
}

/// Row-major order on coordinates.
pub open spec fn key_lt(a: (u64, u64), b: (u64, u64)) -> bool {
    a.0 < b.0 || (a.0 == b.0 && a.1 < b.1)
}

/// Entries strictly increasing in row-major order (so no coordinate repeats).
pub open spec fn sorted(s: Seq<Entry>) -> bool {
    forall|a: int, b: int| 0 <= a < b < s.len() ==> key_lt(ekey(#[trigger] s[a]), ekey(#[trigger] s[b]))
}

pub open spec fn seq_has(s: Seq<Entry>, key: (u64, u64)) -> bool {
    exists|k: int| 0 <= k < s.len() && ekey(#[trigger] s[k]) == key
}

/// The map from coordinates to values that a sequence of entries stands for.
pub open spec fn seq_map(s: Seq<Entry>) -> Map<(u64, u64), u64> {
    Map::new(
        |key: (u64, u64)| seq_has(s, key),
        |key: (u64, u64)| s[choose|k: int| 0 <= k < s.len() && ekey(#[trigger] s[k]) == key].val,
    )
}

/// Keys of a sequence of entries, in order.
pub open spec fn seq_keys(s: Seq<Entry>) -> Seq<(u64, u64)> {
    s.map_values(|e: Entry| ekey(e))
}

pub proof fn lemma_map_at(s: Seq<Entry>, k: int)
    requires
        sorted(s),
        0 <= k < s.len(),
    ensures
        seq_map(s).contains_key(ekey(s[k])),
        seq_map(s)[ekey(s[k])] == s[k].val,
{
    assert(seq_has(s, ekey(s[k])));
    let c = choose|c: int| 0 <= c < s.len() && ekey(#[trigger] s[c]) == ekey(s[k]);
    if c < k {
        assert(key_lt(ekey(s[c]), ekey(s[k])));
    } else if c > k {
        assert(key_lt(ekey(s[k]), ekey(s[c])));
    }
}

/// The keys of a sorted sequence are as many as its entries.
pub proof fn lemma_map_len(s: Seq<Entry>)
    requires
        sorted(s),
    ensures
        seq_map(s).dom().finite(),
        seq_map(s).dom().len() == s.len(),
{
    let ks = seq_keys(s);
    assert forall|a: int, b: int| 0 <= a < ks.len() && 0 <= b < ks.len() && a != b implies ks[a]
        != ks[b] by {
        if a < b {
            assert(key_lt(ekey(s[a]), ekey(s[b])));
        } else {
            assert(key_lt(ekey(s[b]), ekey(s[a])));
        }
    }
    assert(ks.no_duplicates());
    ks.unique_seq_to_set();
    assert forall|key: (u64, u64)| seq_map(s).dom().contains(key) <==> ks.to_set().contains(key) by {
        if seq_has(s, key) {
            let k = choose|k: int| 0 <= k < s.len() && ekey(#[trigger] s[k]) == key;
            assert(ks[k] == key);
        }
        if ks.to_set().contains(key) {
            let k = choose|k: int| 0 <= k < ks.len() && ks[k] == key;
            assert(ekey(s[k]) == key);
        }
    }
    assert(seq_map(s).dom() =~= ks.to_set());
}

/// Appending an entry beyond the last key keeps the sequence sorted and adds one key.
pub proof fn lemma_push(s: Seq<Entry>, e: Entry)
    requires
        sorted(s),
        s.len() == 0 || key_lt(ekey(s.last()), ekey(e)),
    ensures
        sorted(s.push(e)),
        seq_map(s.push(e)) == seq_map(s).insert(ekey(e), e.val),
{
    let n = s.push(e);
    assert forall|a: int, b: int| 0 <= a < b < n.len() implies key_lt(
        ekey(#[trigger] n[a]),
        ekey(#[trigger] n[b]),
    ) by {
        if b < s.len() {
            assert(key_lt(ekey(s[a]), ekey(s[b])));
        } else if a < s.len() - 1 {
            assert(key_lt(ekey(s[a]), ekey(s[s.len() - 1])));
        }
    }
    lemma_map_at(n, s.len() as int);
    assert forall|key: (u64, u64)| #[trigger]
        seq_map(n).contains_key(key) == seq_map(s).insert(ekey(e), e.val).contains_key(key) && (
        seq_map(n).contains_key(key) ==> seq_map(n)[key] == seq_map(s).insert(ekey(e), e.val)[key]) by {
        if key != ekey(e) {
            if seq_has(s, key) {
                let k = choose|k: int| 0 <= k < s.len() && ekey(#[trigger] s[k]) == key;
                lemma_map_at(s, k);
                assert(n[k] == s[k]);
                lemma_map_at(n, k);
            }
            if seq_has(n, key) {
                let k = choose|k: int| 0 <= k < n.len() && ekey(#[trigger] n[k]) == key;
                assert(s[k] == n[k]);
            }
        }
    }
    assert(seq_map(n) =~= seq_map(s).insert(ekey(e), e.val));
}

/// Taking one more entry of a sorted sequence adds its key.
pub proof fn lemma_take_step(s: Seq<Entry>, k: int)
    requires
        sorted(s),
        0 <= k < s.len(),
    ensures
        sorted(s.take(k)),
        seq_map(s.take(k + 1)) == seq_map(s.take(k)).insert(ekey(s[k]), s[k].val),
{
    assert(s.take(k + 1) == s.take(k).push(s[k]));
    if k > 0 {
        assert(key_lt(ekey(s[k - 1]), ekey(s[k])));
    }
    lemma_push(s.take(k), s[k]);
}

/// Boolean product of two coordinate sets: `(i, j)` is set when some `k`
/// has `(i, k)` in `a` and `(k, j)` in `b`.
pub open spec fn product(a: Map<(u64, u64), u64>, b: Map<(u64, u64), u64>) -> Map<(u64, u64), u64> {
    Map::new(
        |key: (u64, u64)| exists|k: u64| #[trigger] a.contains_key((key.0, k)) && b.contains_key((k, key.1)),
        |key: (u64, u64)| 1u64,
    )
}

/// Products of the entry pairs taken so far by the nested loop of `mxm`.
spec fn pairs_upto(sa: Seq<Entry>, sb: Seq<Entry>, ia: int, ib: int) -> Map<(u64, u64), u64> {
    Map::new(
        |key: (u64, u64)|
            exists|pa: int, pb: int|
                0 <= pa < sa.len() && 0 <= pb < sb.len() && (pa < ia || (pa == ia && pb < ib))
                    && (#[trigger] sa[pa]).col == (#[trigger] sb[pb]).row && key == (sa[pa].row, sb[pb].col),
        |key: (u64, u64)| 1u64,
    )
}

/// A typed sparse matrix: a set of coordinates, each with a value.
pub struct SparseMatrix {
    ty: ElementType,
    nrows: u64,
    ncols: u64,
    entries: Vec<Entry>,
}

impl View for SparseMatrix {
    type V = Map<(u64, u64), u64>;

    closed spec fn view(&self) -> Map<(u64, u64), u64> {
        seq_map(self.entries@)
    }
}

impl SparseMatrix {
    /// Structural well-formedness: entries sorted and inside the dimensions.
    pub closed spec fn wf(&self) -> bool {
        &&& sorted(self.entries@)
        &&& forall|k: int|
            0 <= k < self.entries@.len() ==> (#[trigger] self.entries@[k]).row < self.nrows
                && self.entries@[k].col < self.ncols
    }

    pub closed spec fn rows(&self) -> u64 {
        self.nrows
    }

    pub closed spec fn cols(&self) -> u64 {
        self.ncols
    }

    pub closed spec fn elem_type(&self) -> ElementType {
        self.ty
    }

    /// The stored entries, in row-major order.
    pub closed spec fn entry_seq(&self) -> Seq<Entry> {
        self.entries@
    }

    pub proof fn lemma_wf(&self)
        requires
            self.wf(),
        ensures
            self@ == seq_map(self.entry_seq()),
            sorted(self.entry_seq()),
            self@.dom().finite(),
            self@.dom().len() == self.entry_seq().len(),
            forall|key: (u64, u64)| #[trigger]
                self@.contains_key(key) ==> key.0 < self.rows() && key.1 < self.cols(),
    {
        lemma_map_len(self.entries@);
        assert forall|key: (u64, u64)| #[trigger]
            self@.contains_key(key) implies key.0 < self.rows() && key.1 < self.cols() by {
            let k = choose|k: int| 0 <= k < self.entries@.len() && ekey(#[trigger] self.entries@[k]) == key;
        }
    }

    pub fn new(ty: ElementType, nrows: u64, ncols: u64) -> (r: Self)
        ensures
            r.wf(),
            r@ == Map::<(u64, u64), u64>::empty(),
            r.rows() == nrows,
            r.cols() == ncols,
            r.elem_type() == ty,
    {
        let r = SparseMatrix { ty, nrows, ncols, entries: Vec::new() };
        assert(r@ =~= Map::<(u64, u64), u64>::empty());
        r
    }

    pub fn elem_ty(&self) -> (r: ElementType)
        ensures
            r == self.elem_type(),
    {
        self.ty
    }

    pub fn nrows(&self) -> (r: u64)
        ensures
            r == self.rows(),
    {
        self.nrows
    }

    pub fn ncols(&self) -> (r: u64)
        ensures
            r == self.cols(),
    {
        self.ncols
    }

    /// Number of stored entries.
    pub fn nvals(&self) -> (r: u64)
        requires
            self.wf(),
        ensures
            r == self@.dom().len(),
    {
        proof {
            lemma_map_len(self.entries@);
        }
        self.entries.len() as u64
    }

    /// First position whose key is not below `(i, j)`, and whether it holds `(i, j)`.
    fn find(&self, i: u64, j: u64) -> (r: (bool, usize))
        requires
            self.wf(),
        ensures
            r.1 <= self.entries@.len(),
            forall|t: int| 0 <= t < r.1 ==> key_lt(ekey(#[trigger] self.entries@[t]), (i, j)),
            r.1 < self.entries@.len() ==> !key_lt(ekey(self.entries@[r.1 as int]), (i, j)),
            r.0 <==> (r.1 < self.entries@.len() && ekey(self.entries@[r.1 as int]) == (i, j)),
            r.0 <==> self@.contains_key((i, j)),
            r.0 ==> self@[(i, j)] == self.entries@[r.1 as int].val,
    {
        let mut p: usize = 0;
        while p < self.entries.len()
            invariant
                p <= self.entries@.len(),
                forall|t: int| 0 <= t < p ==> key_lt(ekey(#[trigger] self.entries@[t]), (i, j)),
            ensures
                p <= self.entries@.len(),
                forall|t: int| 0 <= t < p ==> key_lt(ekey(#[trigger] self.entries@[t]), (i, j)),
                p < self.entries@.len() ==> !key_lt(ekey(self.entries@[p as int]), (i, j)),
            decreases self.entries@.len() - p,
        {
            let e = self.entries[p];
            if !(e.row < i || (e.row == i && e.col < j)) {
                break;
            }
            p = p + 1;
        }
        let found = p < self.entries.len() && self.entries[p].row == i && self.entries[p].col == j;
        proof {
            let s = self.entries@;
            if found {
                lemma_map_at(s, p as int);
            } else {
                assert forall|k: int| 0 <= k < s.len() implies ekey(#[trigger] s[k]) != (i, j) by {
                    if k > p {
                        assert(key_lt(ekey(s[p as int]), ekey(s[k])));
                    }
                }
            }
        }
        (found, p)
    }

    /// The value at `(i, j)`, read as a boolean (any stored value is true).
    pub fn extract_element_bool(&self, i: u64, j: u64) -> (r: Option<bool>)
        requires
            self.wf(),
        ensures
            r == (if self@.contains_key((i, j)) {
                Some(self@[(i, j)] != 0)
            } else {
                None::<bool>
            }),
    {
        let (found, p) = self.find(i, j);
        if found {
            Some(self.entries[p].val != 0)
        } else {
            None
        }
    }

    pub fn extract_element_u64(&self, i: u64, j: u64) -> (r: Option<u64>)
        requires
            self.wf(),
        ensures
            r == (if self@.contains_key((i, j)) {
                Some(self@[(i, j)])
            } else {
                None::<u64>
            }),
    {
        let (found, p) = self.find(i, j);
        if found {
            Some(self.entries[p].val)
        } else {
            None
        }
    }

    /// Stores `x` at `(i, j)`, replacing what was there.
    pub fn set_element_u64(&mut self, x: u64, i: u64, j: u64)
        requires
            old(self).wf(),
            i < old(self).rows(),
            j < old(self).cols(),
        ensures
            final(self).wf(),
            final(self)@ == old(self)@.insert((i, j), x),
            final(self).rows() == old(self).rows(),
            final(self).cols() == old(self).cols(),
            final(self).elem_type() == old(self).elem_type(),
    {
        let (found, p) = self.find(i, j);
        let e = Entry { row: i, col: j, val: x };
        let ghost s = self.entries@;
        if found {
            self.entries.set(p, e);
        } else {
            self.entries.insert(p, e);
        }
        proof {
            let n = self.entries@;
            if found {
                assert(n == s.update(p as int, e));
            } else {
                assert(n == s.insert(p as int, e));
            }
            assert(sorted(n)) by {
                assert forall|a: int, b: int| 0 <= a < b < n.len() implies key_lt(
                    ekey(#[trigger] n[a]),
                    ekey(#[trigger] n[b]),
                ) by {
                    if found {
                        if a != p && b != p {
                            assert(key_lt(ekey(s[a]), ekey(s[b])));
                        } else if a == p {
                            assert(key_lt(ekey(s[a]), ekey(s[b])));
                        } else {
                            assert(key_lt(ekey(s[a]), ekey(s[b])));
                        }
                    } else {
                        if b < p {
                            assert(key_lt(ekey(s[a]), ekey(s[b])));
                        } else if a > p {
                            assert(key_lt(ekey(s[a - 1]), ekey(s[b - 1])));
                        } else if a == p {
                            assert(n[b] == s[b - 1]);
                        } else if b == p {
                            assert(n[a] == s[a]);
                        } else {
                            assert(key_lt(ekey(s[a]), ekey(s[b - 1])));
                        }
                    }
                }
            }
            assert forall|key: (u64, u64)| #[trigger]
                self@.contains_key(key) == old(self)@.insert((i, j), x).contains_key(key) && (
                self@.contains_key(key) ==> self@[key] == old(self)@.insert((i, j), x)[key]) by {
                if key == (i, j) {
                    lemma_map_at(n, p as int);
                } else {
                    if seq_has(s, key) {
                        let k = choose|k: int| 0 <= k < s.len() && ekey(#[trigger] s[k]) == key;
                        lemma_map_at(s, k);
                        let k2 = if found || k < p {
                            k
                        } else {
                            k + 1
                        };
                        assert(n[k2] == s[k]);
                        lemma_map_at(n, k2);
                    }
                    if seq_has(n, key) {
                        let k = choose|k: int| 0 <= k < n.len() && ekey(#[trigger] n[k]) == key;
                        let k2 = if found || k < p {
                            k
                        } else {
                            k - 1
                        };
                        assert(s[k2] == n[k]);
                        assert(seq_has(s, key));
                    }
                }
            }
            assert(self@ =~= old(self)@.insert((i, j), x));
        }
    }

    /// Stores the boolean `x` at `(i, j)` (as 1 or 0).
    pub fn set_element_bool(&mut self, x: bool, i: u64, j: u64)
        requires
            old(self).wf(),
            i < old(self).rows(),
            j < old(self).cols(),
        ensures
            final(self).wf(),
            final(self)@ == old(self)@.insert((i, j), if x { 1u64 } else { 0u64 }),
            final(self).rows() == old(self).rows(),
            final(self).cols() == old(self).cols(),
            final(self).elem_type() == old(self).elem_type(),
    {
        self.set_element_u64(if x { 1 } else { 0 }, i, j);
    }

    /// Removes the entry at `(i, j)`, if any.
    pub fn remove_element(&mut self, i: u64, j: u64)
        requires
            old(self).wf(),
        ensures
            final(self).wf(),
            final(self)@ == old(self)@.remove((i, j)),
            final(self).rows() == old(self).rows(),
            final(self).cols() == old(self).cols(),
            final(self).elem_type() == old(self).elem_type(),
    {
        let (found, p) = self.find(i, j);
        if !found {
            assert(self@ =~= old(self)@.remove((i, j)));
            return ;
        }
        let ghost s = self.entries@;
        self.entries.remove(p);
        proof {
            let n = self.entries@;
            assert(n == s.remove(p as int));
            assert(sorted(n)) by {
                assert forall|a: int, b: int| 0 <= a < b < n.len() implies key_lt(
                    ekey(#[trigger] n[a]),
                    ekey(#[trigger] n[b]),
                ) by {
                    let a2 = if a < p { a } else { a + 1 };
                    let b2 = if b < p { b } else { b + 1 };
                    assert(n[a] == s[a2] && n[b] == s[b2]);
                    assert(key_lt(ekey(s[a2]), ekey(s[b2])));
                }
            }
            assert forall|key: (u64, u64)| #[trigger]
                self@.contains_key(key) == old(self)@.remove((i, j)).contains_key(key) && (
                self@.contains_key(key) ==> self@[key] == old(self)@.remove((i, j))[key]) by {
                if seq_has(n, key) {
                    let k = choose|k: int| 0 <= k < n.len() && ekey(#[trigger] n[k]) == key;
                    let k2 = if k < p { k } else { k + 1 };
                    assert(s[k2] == n[k]);
                    lemma_map_at(s, k2);
                    lemma_map_at(n, k);
                    if k2 < p {
                        assert(key_lt(ekey(s[k2]), ekey(s[p as int])));
                    } else {
                        assert(key_lt(ekey(s[p as int]), ekey(s[k2])));
                    }
                }
                if key != (i, j) && seq_has(s, key) {
                    let k = choose|k: int| 0 <= k < s.len() && ekey(#[trigger] s[k]) == key;
                    assert(k != p);
                    let k2 = if k < p { k } else { k - 1 };
                    assert(n[k2] == s[k]);
                    assert(seq_has(n, key));
                }
            }
            assert(self@ =~= old(self)@.remove((i, j)));
        }
    }
    /// Removes every entry.
    pub fn clear(&mut self)
        ensures
            final(self).wf(),
            final(self)@ == Map::<(u64, u64), u64>::empty(),
            final(self).rows() == old(self).rows(),
            final(self).cols() == old(self).cols(),
            final(self).elem_type() == old(self).elem_type(),
    {
        self.entries.clear();
        assert(self@ =~= Map::<(u64, u64), u64>::empty());
    }

    /// Keeps the entries inside `nr` x `nc` that `mask` does not hold.
    fn retain(&mut self, mask: Option<&SparseMatrix>, nr: u64, nc: u64)
        requires
            old(self).wf(),
            mask.is_some() ==> mask.unwrap().wf(),
            nr <= old(self).rows(),
            nc <= old(self).cols(),
        ensures
            final(self).wf(),
            final(self)@ == old(self)@.restrict(
                Set::new(
                    |key: (u64, u64)|
                        key.0 < nr && key.1 < nc && !(mask.is_some() && mask.unwrap()@.contains_key(
                            key,
                        )),
                ),
            ),
            final(self).rows() == old(self).rows(),
            final(self).cols() == old(self).cols(),
            final(self).elem_type() == old(self).elem_type(),
            forall|t: int|
                0 <= t < final(self).entries@.len() ==> #[trigger] final(self).entries@[t].row < nr
                    && final(self).entries@[t].col < nc,
    {
        let ghost keep = Set::new(
            |key: (u64, u64)|
                key.0 < nr && key.1 < nc && !(mask.is_some() && mask.unwrap()@.contains_key(key)),
        );
        let ghost s = self.entries@;
        let mut kept: Vec<Entry> = Vec::new();
        let mut k: usize = 0;
        proof {
            assert(seq_map(s.take(0)) =~= Map::<(u64, u64), u64>::empty());
            assert(seq_map(kept@) =~= seq_map(s.take(0)).restrict(keep));
        }
        while k < self.entries.len()
            invariant
                self.entries@ == s,
                old(self).wf(),
                self == old(self),
                forall|key: (u64, u64)| #[trigger] keep.contains(key) == (key.0 < nr && key.1 < nc
                    && !(mask.is_some() && mask.unwrap()@.contains_key(key))),
                mask.is_some() ==> mask.unwrap().wf(),
                k <= s.len(),
                sorted(kept@),
                seq_map(kept@) == seq_map(s.take(k as int)).restrict(keep),
                forall|t: int| 0 <= t < kept@.len() ==> #[trigger] kept@[t].row < nr && kept@[t].col < nc,
            decreases s.len() - k,
        {
            let e = self.entries[k];
            let mut masked = false;
            if let Some(m) = mask {
                let x = m.extract_element_u64(e.row, e.col);
                masked = x.is_some();
                assert(masked == mask.unwrap()@.contains_key((e.row, e.col)));
            }
            proof {
                lemma_take_step(s, k as int);
                assert(e == s[k as int]);
                if mask.is_some() {
                    assert(masked == mask.unwrap()@.contains_key(ekey(e)));
                } else {
                    assert(!masked);
                }
                assert(keep.contains(ekey(e)) == (e.row < nr && e.col < nc && !masked));
            }
            if e.row < nr && e.col < nc && !masked {
                proof {
                    if kept@.len() > 0 {
                        let last = (kept@.len() - 1) as int;
                        lemma_map_at(kept@, last);
                        let tk = s.take(k as int);
                        assert(seq_has(tk, ekey(kept@[last])));
                        let t = choose|t: int| 0 <= t < tk.len() && ekey(#[trigger] tk[t]) == ekey(kept@[last]);
                        assert(tk[t] == s[t]);
                        assert(key_lt(ekey(s[t]), ekey(s[k as int])));
                    }
                    lemma_push(kept@, e);
                }
                kept.push(e);
                proof {
                    assert(seq_map(kept@) =~= seq_map(s.take(k + 1)).restrict(keep));
                }
            } else {
                proof {
                    assert(seq_map(kept@) =~= seq_map(s.take(k + 1)).restrict(keep));
                }
            }
            k = k + 1;
        }
        proof {
            assert(s.take(s.len() as int) == s);
        }
        self.entries = kept;
    }

    /// Changes the dimensions; entries outside the new bounds are dropped.
    pub fn resize(&mut self, nrows_new: u64, ncols_new: u64)
        requires
            old(self).wf(),
        ensures
            final(self).wf(),
            final(self)@ == old(self)@.restrict(
                Set::new(|key: (u64, u64)| key.0 < nrows_new && key.1 < ncols_new),
            ),
            final(self).rows() == nrows_new,
            final(self).cols() == ncols_new,
            final(self).elem_type() == old(self).elem_type(),
    {
        let nr = if nrows_new < self.nrows { nrows_new } else { self.nrows };
        let nc = if ncols_new < self.ncols { ncols_new } else { self.ncols };
        self.retain(None, nr, nc);
        self.nrows = nrows_new;
        self.ncols = ncols_new;
        proof {
            assert forall|t: int| 0 <= t < self.entries@.len() implies (#[trigger] self.entries@[t]).row
                < self.nrows && self.entries@[t].col < self.ncols by {
                assert(self.entries@[t].row < nr);
            }
            let a = old(self)@.restrict(
                Set::new(|key: (u64, u64)| key.0 < nr && key.1 < nc && !(false)),
            );
            let b = old(self)@.restrict(
                Set::new(|key: (u64, u64)| key.0 < nrows_new && key.1 < ncols_new),
            );
            old(self).lemma_wf();
            assert(a =~= b);
        }
    }

    /// Removes every entry whose coordinates `mask` holds.
    pub fn remove_masked(&mut self, mask: &SparseMatrix)
        requires
            old(self).wf(),
            mask.wf(),
        ensures
            final(self).wf(),
            final(self)@ == old(self)@.remove_keys(mask@.dom()),
            final(self).rows() == old(self).rows(),
            final(self).cols() == old(self).cols(),
            final(self).elem_type() == old(self).elem_type(),
    {
        let nr = self.nrows;
        let nc = self.ncols;
        self.retain(Some(mask), nr, nc);
        proof {
            old(self).lemma_wf();
            assert(self@ =~= old(self)@.remove_keys(mask@.dom()));
        }
    }
    /// Number of stored entries, as a position bound for `entry_at`.
    pub fn nentries(&self) -> (r: usize)
        ensures
            r == self.entry_seq().len(),
    {
        self.entries.len()
    }

    /// The entry at position `k` in row-major order.
    pub fn entry_at(&self, k: usize) -> (r: Entry)
        requires
            k < self.entry_seq().len(),
        ensures
            r == self.entry_seq()[k as int],
    {
        self.entries[k]
    }

    /// Makes this matrix a copy of `from`, dimensions included.
    pub fn copy(&mut self, from: &SparseMatrix)
        requires
            from.wf(),
        ensures
            final(self).wf(),
            final(self)@ == from@,
            final(self).rows() == from.rows(),
            final(self).cols() == from.cols(),
            final(self).elem_type() == old(self).elem_type(),
    {
        let mut v: Vec<Entry> = Vec::new();
        let mut k: usize = 0;
        while k < from.entries.len()
            invariant
                k <= from.entries@.len(),
                v@ == from.entries@.take(k as int),
            decreases from.entries@.len() - k,
        {
            v.push(from.entries[k]);
            k = k + 1;
            assert(v@ =~= from.entries@.take(k as int));
        }
        assert(v@ =~= from.entries@);
        self.entries = v;
        self.nrows = from.nrows;
        self.ncols = from.ncols;
    }

    /// Union of `a` and `b` in a fresh matrix; where both hold a key, `a`'s value is kept.
    fn union_of(a: &SparseMatrix, b: &SparseMatrix, ty: ElementType, nr: u64, nc: u64) -> (r: SparseMatrix)
        requires
            a.wf(),
            b.wf(),
            a.rows() <= nr,
            a.cols() <= nc,
            b.rows() <= nr,
            b.cols() <= nc,
        ensures
            r.wf(),
            r@ == b@.union_prefer_right(a@),
            r.rows() == nr,
            r.cols() == nc,
            r.elem_type() == ty,
    {
        let mut out = SparseMatrix::new(ty, nr, nc);
        let mut k: usize = 0;
        proof {
            assert(seq_map(a.entries@.take(0)) =~= Map::<(u64, u64), u64>::empty());
        }
        while k < a.entries.len()
            invariant
                a.wf(),
                out.wf(),
                a.rows() <= nr,
                a.cols() <= nc,
                out.rows() == nr,
                out.cols() == nc,
                out.elem_type() == ty,
                k <= a.entries@.len(),
                out@ == seq_map(a.entries@.take(k as int)),
            decreases a.entries@.len() - k,
        {
            let e = a.entries[k];
            proof {
                lemma_take_step(a.entries@, k as int);
            }
            out.set_element_u64(e.val, e.row, e.col);
            k = k + 1;
        }
        proof {
            assert(a.entries@.take(a.entries@.len() as int) == a.entries@);
            assert(seq_map(b.entries@.take(0)) =~= Map::<(u64, u64), u64>::empty());
            assert(out@ =~= seq_map(b.entries@.take(0)).union_prefer_right(a@));
        }
        k = 0;
        while k < b.entries.len()
            invariant
                b.wf(),
                out.wf(),
                b.rows() <= nr,
                b.cols() <= nc,
                out.rows() == nr,
                out.cols() == nc,
                out.elem_type() == ty,
                k <= b.entries@.len(),
                out@ == seq_map(b.entries@.take(k as int)).union_prefer_right(a@),
            decreases b.entries@.len() - k,
        {
            let e = b.entries[k];
            proof {
                lemma_take_step(b.entries@, k as int);
            }
            if out.extract_element_u64(e.row, e.col).is_none() {
                out.set_element_u64(e.val, e.row, e.col);
            }
            k = k + 1;
            assert(out@ =~= seq_map(b.entries@.take(k as int)).union_prefer_right(a@));
        }
        proof {
            assert(b.entries@.take(b.entries@.len() as int) == b.entries@);
        }
        out
    }

    /// Element-wise union of `m` and `n` (each standing for this matrix when absent);
    /// where both hold a key, the value of `m` is kept.
    pub fn element_wise_add(&mut self, m: Option<&SparseMatrix>, n: Option<&SparseMatrix>)
        requires
            old(self).wf(),
            m.is_some() ==> m.unwrap().wf() && m.unwrap().rows() <= old(self).rows()
                && m.unwrap().cols() <= old(self).cols(),
            n.is_some() ==> n.unwrap().wf() && n.unwrap().rows() <= old(self).rows()
                && n.unwrap().cols() <= old(self).cols(),
        ensures
            final(self).wf(),
            final(self)@ == (if n.is_some() { n.unwrap()@ } else { old(self)@ }).union_prefer_right(
                if m.is_some() { m.unwrap()@ } else { old(self)@ },
            ),
            final(self).rows() == old(self).rows(),
            final(self).cols() == old(self).cols(),
            final(self).elem_type() == old(self).elem_type(),
    {
        let ty = self.ty;
        let nr = self.nrows;
        let nc = self.ncols;
        let out = match m {
            Some(a) => match n {
                Some(b) => SparseMatrix::union_of(a, b, ty, nr, nc),
                None => SparseMatrix::union_of(a, self, ty, nr, nc),
            },
            None => match n {
                Some(b) => SparseMatrix::union_of(self, b, ty, nr, nc),
                None => SparseMatrix::union_of(self, self, ty, nr, nc),
            },
        };
        *self = out;
    }

    /// Boolean matrix product: this matrix becomes `product(m, n)`, every value 1.
    pub fn mxm(&mut self, m: &SparseMatrix, n: &SparseMatrix)
        requires
            old(self).wf(),
            m.wf(),
            n.wf(),
            m.rows() == old(self).rows(),
            n.cols() == old(self).cols(),
        ensures
            final(self).wf(),
            final(self)@ == product(m@, n@),
            final(self).rows() == old(self).rows(),
            final(self).cols() == old(self).cols(),
            final(self).elem_type() == old(self).elem_type(),
    {
        let mut out = SparseMatrix::new(self.ty, self.nrows, self.ncols);
        let ghost sa = m.entries@;
        let ghost sb = n.entries@;
        let mut ia: usize = 0;
        proof {
            assert(out@ =~= pairs_upto(sa, sb, 0, 0));
        }
        while ia < m.entries.len()
            invariant
                m.wf(),
                n.wf(),
                sa == m.entries@,
                sb == n.entries@,
                out.wf(),
                m.rows() == out.rows(),
                n.cols() == out.cols(),
                out.rows() == old(self).rows(),
                out.cols() == old(self).cols(),
                out.elem_type() == old(self).elem_type(),
                ia <= sa.len(),
                out@ == pairs_upto(sa, sb, ia as int, 0),
            decreases sa.len() - ia,
        {
            let ea = m.entries[ia];
            let mut ib: usize = 0;
            while ib < n.entries.len()
                invariant
                    m.wf(),
                    n.wf(),
                    sa == m.entries@,
                    sb == n.entries@,
                    out.wf(),
                    m.rows() == out.rows(),
                    n.cols() == out.cols(),
                    out.rows() == old(self).rows(),
                    out.cols() == old(self).cols(),
                    out.elem_type() == old(self).elem_type(),
                    ia < sa.len(),
                    ea == sa[ia as int],
                    ib <= sb.len(),
                    out@ == pairs_upto(sa, sb, ia as int, ib as int),
                decreases sb.len() - ib,
            {
                let eb = n.entries[ib];
                let ghost before = out@;
                if ea.col == eb.row {
                    out.set_element_u64(1, ea.row, eb.col);
                }
                proof {
                    let nxt = pairs_upto(sa, sb, ia as int, ib + 1);
                    assert forall|key: (u64, u64)| #[trigger] out@.contains_key(key) == nxt.contains_key(key)
                        by {
                        if nxt.contains_key(key) {
                            let (pa, pb) = choose|pa: int, pb: int|
                                0 <= pa < sa.len() && 0 <= pb < sb.len() && (pa < ia || (pa == ia && pb
                                    < ib + 1)) && (#[trigger] sa[pa]).col == (#[trigger] sb[pb]).row
                                    && key == (sa[pa].row, sb[pb].col);
                            if !(pa == ia && pb == ib) {
                                assert(before.contains_key(key));
                            }
                        }
                        if before.contains_key(key) {
                            let (pa, pb) = choose|pa: int, pb: int|
                                0 <= pa < sa.len() && 0 <= pb < sb.len() && (pa < ia || (pa == ia && pb
                                    < ib)) && (#[trigger] sa[pa]).col == (#[trigger] sb[pb]).row
                                    && key == (sa[pa].row, sb[pb].col);
                            assert(nxt.contains_key(key));
                        }
                        if ea.col == eb.row && key == (ea.row, eb.col) {
                            assert(sa[ia as int].col == sb[ib as int].row);
                            assert(nxt.contains_key(key));
                        }
                    }
                    assert(out@ =~= nxt);
                }
                ib = ib + 1;
            }
            proof {
                assert(pairs_upto(sa, sb, ia as int, sb.len() as int) =~= pairs_upto(sa, sb, ia + 1, 0));
            }
            ia = ia + 1;
        }
        proof {
            let p = product(m@, n@);
            let q = pairs_upto(sa, sb, sa.len() as int, 0);
            assert forall|key: (u64, u64)| #[trigger] q.contains_key(key) == p.contains_key(key) by {
                if q.contains_key(key) {
                    let (pa, pb) = choose|pa: int, pb: int|
                        0 <= pa < sa.len() && 0 <= pb < sb.len() && (pa < sa.len() || (pa == sa.len()
                            && pb < 0)) && (#[trigger] sa[pa]).col == (#[trigger] sb[pb]).row && key == (
                        sa[pa].row, sb[pb].col);
                    lemma_map_at(sa, pa);
                    lemma_map_at(sb, pb);
                    assert(m@.contains_key((key.0, sa[pa].col)));
                }
                if p.contains_key(key) {
                    let k = choose|k: u64| #[trigger] m@.contains_key((key.0, k)) && n@.contains_key((k, key.1));
                    let pa = choose|pa: int| 0 <= pa < sa.len() && ekey(#[trigger] sa[pa]) == (key.0, k);
                    let pb = choose|pb: int| 0 <= pb < sb.len() && ekey(#[trigger] sb[pb]) == (k, key.1);
                    assert(sa[pa].col == sb[pb].row);
                    assert(q.contains_key(key));
                }
            }
            assert(q =~= p);
        }

        self.entries = out.entries;
    }

    /// Whether deferred internal work is outstanding; entries are always materialized here.
    pub fn pending(&self) -> (r: bool)
        ensures
            !r,
    {
        false
    }

    /// Completes deferred internal work; nothing is ever deferred here.
    pub fn wait(&mut self)
        ensures
            *final(self) == *old(self),
    {
    }
    /// The entries whose row lies in `min_row..=max_row`, in row-major order.
    pub fn row_range(&self, min_row: u64, max_row: u64) -> (r: Vec<Entry>)
        requires
            self.wf(),
        ensures
            sorted(r@),
            seq_map(r@) == self@.restrict(Set::new(|key: (u64, u64)| min_row <= key.0 <= max_row)),
            forall|t: int| 0 <= t < r@.len() ==> min_row <= (#[trigger] r@[t]).row <= max_row,
    {
        let ghost keep = Set::new(|key: (u64, u64)| min_row <= key.0 <= max_row);
        let ghost s = self.entries@;
        let mut kept: Vec<Entry> = Vec::new();
        let mut k: usize = 0;
        proof {
            assert(seq_map(s.take(0)) =~= Map::<(u64, u64), u64>::empty());
            assert(seq_map(kept@) =~= seq_map(s.take(0)).restrict(keep));
        }
        while k < self.entries.len()
            invariant
                self.entries@ == s,
                self.wf(),
                forall|key: (u64, u64)| #[trigger] keep.contains(key) == (min_row <= key.0 <= max_row),
                k <= s.len(),
                sorted(kept@),
                seq_map(kept@) == seq_map(s.take(k as int)).restrict(keep),
                forall|t: int| 0 <= t < kept@.len() ==> min_row <= (#[trigger] kept@[t]).row <= max_row,
            decreases s.len() - k,
        {
            let e = self.entries[k];
            proof {
                lemma_take_step(s, k as int);
                assert(e == s[k as int]);
            }
            if min_row <= e.row && e.row <= max_row {
                proof {
                    if kept@.len() > 0 {
                        let last = (kept@.len() - 1) as int;
                        lemma_map_at(kept@, last);
                        let tk = s.take(k as int);
                        assert(seq_has(tk, ekey(kept@[last])));
                        let t = choose|t: int| 0 <= t < tk.len() && ekey(#[trigger] tk[t]) == ekey(kept@[last]);
                        assert(tk[t] == s[t]);
                        assert(key_lt(ekey(s[t]), ekey(s[k as int])));
                    }
                    lemma_push(kept@, e);
                }
                kept.push(e);
                proof {
                    assert(seq_map(kept@) =~= seq_map(s.take(k + 1)).restrict(keep));
                }
            } else {
                proof {
                    assert(seq_map(kept@) =~= seq_map(s.take(k + 1)).restrict(keep));
                }
            }
            k = k + 1;
        }
        proof {
            assert(s.take(s.len() as int) == s);
        }
        kept
    }
}

} // verus!
