//! Address-keyed association tables and wallet-list helpers, with exact
//! sequence-level models: lookups, in-place updates, balance sums, and the
//! byte-lexicographic ordering the state root relies on.

use vstd::prelude::*;
use crate::text::{valid_addr, char_bytes};
use crate::model::{Wallet, WalletV};

verus! {

// ---------------------------------------------------------------------------
// Association pairs: (address, value) with first-occurrence semantics.
// ---------------------------------------------------------------------------

/// The value bound to `k`, reading the first occurrence.
pub open spec fn tget(ps: Seq<(Seq<char>, u64)>, k: Seq<char>) -> Option<u64>
    decreases ps.len(),
{
    if ps.len() == 0 {
        None
    } else if ps[0].0 == k {
        Some(ps[0].1)
    } else {
        tget(ps.drop_first(), k)
    }
}

/// Binds `k` to `v`: replaces the first occurrence in place, or appends.
pub open spec fn tset(ps: Seq<(Seq<char>, u64)>, k: Seq<char>, v: u64) -> Seq<(Seq<char>, u64)>
    decreases ps.len(),
{
    if ps.len() == 0 {
        seq![(k, v)]
    } else if ps[0].0 == k {
        seq![(k, v)] + ps.drop_first()
    } else {
        seq![ps[0]] + tset(ps.drop_first(), k, v)
    }
}

/// The sum of all bound values.
pub open spec fn tsum(ps: Seq<(Seq<char>, u64)>) -> int
    decreases ps.len(),
{
    if ps.len() == 0 {
        0
    } else {
        ps[0].1 + tsum(ps.drop_first())
    }
}

/// No address occurs twice.
pub open spec fn tdistinct(ps: Seq<(Seq<char>, u64)>) -> bool {
    forall|i: int, j: int| 0 <= i < j < ps.len() ==> (#[trigger] ps[i]).0 != (#[trigger] ps[j]).0
}

/// Every key is a lawful address.
pub open spec fn tvalid(ps: Seq<(Seq<char>, u64)>) -> bool {
    forall|i: int| 0 <= i < ps.len() ==> valid_addr((#[trigger] ps[i]).0)
}

/// What a value of `tget(ps, k)` contributes to a sum: the bound value, or
/// zero when the key is absent.
pub open spec fn tget_or_zero(ps: Seq<(Seq<char>, u64)>, k: Seq<char>) -> int {
    match tget(ps, k) {
        Some(v) => v as int,
        None => 0,
    }
}

/// Reading back a fresh binding yields the bound value.
pub proof fn lemma_tget_tset_same(ps: Seq<(Seq<char>, u64)>, k: Seq<char>, v: u64)
    ensures
        tget(tset(ps, k, v), k) == Some(v),
    decreases ps.len(),
{
    if ps.len() == 0 {
    } else if ps[0].0 == k {
        assert(tset(ps, k, v)[0] == (k, v));
    } else {
        lemma_tget_tset_same(ps.drop_first(), k, v);
        assert(tset(ps, k, v).drop_first() =~= tset(ps.drop_first(), k, v));
    }
}

/// A binding leaves every other key unchanged.
pub proof fn lemma_tget_tset_other(
    ps: Seq<(Seq<char>, u64)>,
    k: Seq<char>,
    v: u64,
    k2: Seq<char>,
)
    requires
        k2 != k,
    ensures
        tget(tset(ps, k, v), k2) == tget(ps, k2),
    decreases ps.len(),
{
    let s = tset(ps, k, v);
    if ps.len() == 0 {
        assert(s[0] == (k, v));
        assert(tget(s, k2) == tget(s.drop_first(), k2));
        assert(s.drop_first() =~= Seq::<(Seq<char>, u64)>::empty());
        assert(tget(s.drop_first(), k2) is None);
    } else if ps[0].0 == k {
        assert(s[0] == (k, v));
        assert(s.drop_first() =~= ps.drop_first());
    } else {
        lemma_tget_tset_other(ps.drop_first(), k, v, k2);
        assert(s[0] == ps[0]);
        assert(s.drop_first() =~= tset(ps.drop_first(), k, v));
    }
}

/// A binding changes the sum by the difference between the new value and
/// what the key was bound to.
pub proof fn lemma_tsum_tset(ps: Seq<(Seq<char>, u64)>, k: Seq<char>, v: u64)
    ensures
        tsum(tset(ps, k, v)) == tsum(ps) + v - tget_or_zero(ps, k),
    decreases ps.len(),
{
    let s = tset(ps, k, v);
    if ps.len() == 0 {
        assert(s[0] == (k, v));
        assert(s.drop_first() =~= Seq::<(Seq<char>, u64)>::empty());
        assert(tsum(s) == v + tsum(s.drop_first()));
        assert(tsum(s.drop_first()) == 0);
    } else if ps[0].0 == k {
        assert(s[0] == (k, v));
        assert(s.drop_first() =~= ps.drop_first());
    } else {
        lemma_tsum_tset(ps.drop_first(), k, v);
        assert(s[0] == ps[0]);
        assert(s.drop_first() =~= tset(ps.drop_first(), k, v));
    }
}

/// A binding keeps keys distinct.
pub proof fn lemma_tset_distinct(ps: Seq<(Seq<char>, u64)>, k: Seq<char>, v: u64)
    requires
        tdistinct(ps),
    ensures
        tdistinct(tset(ps, k, v)),
        tvalid(ps) && valid_addr(k) ==> tvalid(tset(ps, k, v)),
    decreases ps.len(),
{
    if ps.len() == 0 {
    } else if ps[0].0 == k {
        assert(tset(ps, k, v)[0] == (k, v));
        assert(tset(ps, k, v).drop_first() =~= ps.drop_first());
    } else {
        assert(tdistinct(ps.drop_first())) by {
            assert(forall|i: int, j: int|
                0 <= i < j < ps.drop_first().len() ==> ps.drop_first()[i] == ps[i + 1]
                    && ps.drop_first()[j] == ps[j + 1]);
        }
        lemma_tset_distinct(ps.drop_first(), k, v);
        let r = tset(ps, k, v);
        assert(r[0] == ps[0]);
        assert(r.drop_first() =~= tset(ps.drop_first(), k, v));
        assert forall|i: int, j: int| 0 <= i < j < r.len() implies (#[trigger] r[i]).0 != (
        #[trigger] r[j]).0 by {
            if i == 0 {
                lemma_tset_keys(ps.drop_first(), k, v, j - 1);
            } else {
                assert(r[i] == r.drop_first()[i - 1]);
                assert(r[j] == r.drop_first()[j - 1]);
            }
        }
    }
}

/// Every key of `tset(ps, k, v)` is `k` or a key of `ps`.
pub proof fn lemma_tset_keys(ps: Seq<(Seq<char>, u64)>, k: Seq<char>, v: u64, i: int)
    requires
        0 <= i < tset(ps, k, v).len(),
    ensures
        tset(ps, k, v)[i].0 == k || exists|j: int|
            0 <= j < ps.len() && (#[trigger] ps[j]).0 == tset(ps, k, v)[i].0,
    decreases ps.len(),
{
    if ps.len() == 0 {
    } else if ps[0].0 == k {
        if i > 0 {
            assert(tset(ps, k, v)[i] == ps.drop_first()[i - 1]);
            assert(ps.drop_first()[i - 1] == ps[i]);
        }
    } else {
        if i > 0 {
            assert(tset(ps, k, v)[i] == tset(ps.drop_first(), k, v)[i - 1]);
            lemma_tset_keys(ps.drop_first(), k, v, i - 1);
            if tset(ps.drop_first(), k, v)[i - 1].0 != k {
                let j = choose|j: int|
                    0 <= j < ps.drop_first().len() && (#[trigger] ps.drop_first()[j]).0 == tset(
                        ps.drop_first(),
                        k,
                        v,
                    )[i - 1].0;
                assert(ps[j + 1].0 == tset(ps, k, v)[i].0);
            }
        }
    }
}

/// If no key in the first `i` entries is `k`, the lookup continues in the
/// remainder.
pub proof fn lemma_tget_skip(ps: Seq<(Seq<char>, u64)>, k: Seq<char>, i: int)
    requires
        0 <= i <= ps.len(),
        forall|j: int| 0 <= j < i ==> (#[trigger] ps[j]).0 != k,
    ensures
        tget(ps, k) == tget(ps.skip(i), k),
    decreases i,
{
    if i == 0 {
        assert(ps.skip(0) =~= ps);
    } else {
        lemma_tget_skip(ps, k, i - 1);
        assert(ps.skip(i - 1)[0] == ps[i - 1]);
        assert(ps.skip(i - 1).drop_first() =~= ps.skip(i));
    }
}

/// If the first match of `k` stands at `idx`, `tset` is an update in place.
pub proof fn lemma_tset_is_update(ps: Seq<(Seq<char>, u64)>, k: Seq<char>, v: u64, idx: int)
    requires
        0 <= idx < ps.len(),
        ps[idx].0 == k,
        forall|j: int| 0 <= j < idx ==> (#[trigger] ps[j]).0 != k,
    ensures
        tset(ps, k, v) =~= ps.update(idx, (k, v)),
    decreases idx,
{
    if idx == 0 {
        assert(tset(ps, k, v) =~= seq![(k, v)] + ps.drop_first());
    } else {
        assert(ps.drop_first()[idx - 1] == ps[idx]);
        assert(forall|j: int| 0 <= j < idx - 1 ==> ps.drop_first()[j] == ps[j + 1]);
        lemma_tset_is_update(ps.drop_first(), k, v, idx - 1);
        assert(tset(ps, k, v) =~= seq![ps[0]] + tset(ps.drop_first(), k, v));
        assert(seq![ps[0]] + ps.drop_first().update(idx - 1, (k, v)) =~= ps.update(idx, (k, v)));
    }
}

/// If `k` does not occur, `tset` appends.
pub proof fn lemma_tset_is_append(ps: Seq<(Seq<char>, u64)>, k: Seq<char>, v: u64)
    requires
        tget(ps, k) is None,
    ensures
        tset(ps, k, v) =~= ps + seq![(k, v)],
    decreases ps.len(),
{
    if ps.len() == 0 {
    } else {
        assert(ps[0].0 != k);
        lemma_tset_is_append(ps.drop_first(), k, v);
        assert(tset(ps, k, v) =~= seq![ps[0]] + (ps.drop_first() + seq![(k, v)]));
    }
}

/// If `k` occurs at `idx` and nowhere earlier, the lookup reads it.
pub proof fn lemma_tget_at(ps: Seq<(Seq<char>, u64)>, k: Seq<char>, idx: int)
    requires
        0 <= idx < ps.len(),
        ps[idx].0 == k,
        forall|j: int| 0 <= j < idx ==> (#[trigger] ps[j]).0 != k,
    ensures
        tget(ps, k) == Some(ps[idx].1),
{
    lemma_tget_skip(ps, k, idx);
    assert(ps.skip(idx)[0] == ps[idx]);
}

/// If no key matches `k`, the lookup fails.
pub proof fn lemma_tget_none(ps: Seq<(Seq<char>, u64)>, k: Seq<char>)
    requires
        forall|j: int| 0 <= j < ps.len() ==> (#[trigger] ps[j]).0 != k,
    ensures
        tget(ps, k) is None,
{
    lemma_tget_skip(ps, k, ps.len() as int);
    assert(ps.skip(ps.len() as int) =~= Seq::<(Seq<char>, u64)>::empty());
}

// ---------------------------------------------------------------------------
// The executable table.
// ---------------------------------------------------------------------------

/// One table binding.
pub struct TableEntry {
    pub addr: String,
    pub val: u64,
}

/// An address-keyed table of 64-bit values, modelled by its sequence of
/// bindings.
pub struct Table {
    entries: Vec<TableEntry>,
}

impl Table {
    /// The sequence of bindings, in storage order.
    pub closed spec fn pairs(self) -> Seq<(Seq<char>, u64)> {
        Seq::new(self.entries@.len(), |i: int| (self.entries@[i].addr@, self.entries@[i].val))
    }

    /// An empty table.
    pub fn new() -> (r: Table)
        ensures
            r.pairs() =~= Seq::<(Seq<char>, u64)>::empty(),
    {
        Table { entries: Vec::new() }
    }

    /// The number of bindings.
    pub fn len(&self) -> (r: usize)
        ensures
            r == self.pairs().len(),
    {
        self.entries.len()
    }

    /// Looks `k` up.
    pub fn get(&self, k: &String) -> (r: Option<u64>)
        ensures
            r == tget(self.pairs(), k@),
    {
        let ghost ps = self.pairs();
        let mut i: usize = 0;
        while i < self.entries.len()
            invariant
                0 <= i <= ps.len(),
                ps == self.pairs(),
                ps.len() == self.entries@.len(),
                forall|j: int| 0 <= j < i ==> (#[trigger] ps[j]).0 != k@,
            decreases ps.len() - i,
        {
            if self.entries[i].addr == *k {
                proof {
                    lemma_tget_at(ps, k@, i as int);
                }
                return Some(self.entries[i].val);
            }
            i = i + 1;
        }
        proof {
            lemma_tget_none(ps, k@);
        }
        None
    }

    /// Binds `k` to `v`.
    pub fn set(&mut self, k: &String, v: u64)
        ensures
            final(self).pairs() =~= tset(old(self).pairs(), k@, v),
    {
        let ghost ps = self.pairs();
        let mut i: usize = 0;
        while i < self.entries.len()
            invariant
                0 <= i <= ps.len(),
                ps == old(self).pairs(),
                ps == self.pairs(),
                ps.len() == self.entries@.len(),
                forall|j: int| 0 <= j < i ==> (#[trigger] ps[j]).0 != k@,
            decreases ps.len() - i,
        {
            if self.entries[i].addr == *k {
                let e = TableEntry { addr: k.clone(), val: v };
                self.entries.remove(i);
                self.entries.insert(i, e);
                proof {
                    lemma_tset_is_update(ps, k@, v, i as int);
                    assert(self.pairs() =~= ps.update(i as int, (k@, v)));
                    assert(self.pairs() =~= tset(ps, k@, v));
                }
                return ;
            }
            i = i + 1;
        }
        let e = TableEntry { addr: k.clone(), val: v };
        self.entries.push(e);
        proof {
            lemma_tget_none(ps, k@);
            lemma_tset_is_append(ps, k@, v);
            assert(self.pairs() =~= ps + seq![(k@, v)]);
            assert(self.pairs() =~= tset(ps, k@, v));
        }
    }


    /// Clones the table; the copy has the same bindings.
    pub fn duplicate(&self) -> (r: Table)
        ensures
            r.pairs() =~= self.pairs(),
    {
        Table { entries: self.to_entries() }
    }

    /// Hands the bindings out, in storage order.
    pub fn to_entries(&self) -> (r: Vec<TableEntry>)
        ensures
            Seq::new(r@.len(), |i: int| (r@[i].addr@, r@[i].val)) =~= self.pairs(),
    {
        let mut out: Vec<TableEntry> = Vec::new();
        let mut i: usize = 0;
        while i < self.entries.len()
            invariant
                0 <= i <= self.entries@.len(),
                out@.len() == i,
                forall|j: int| 0 <= j < i ==> (#[trigger] out@[j]).addr@ == self.entries@[j].addr@
                    && out@[j].val == self.entries@[j].val,
            decreases self.entries@.len() - i,
        {
            out.push(TableEntry { addr: self.entries[i].addr.clone(), val: self.entries[i].val });
            i = i + 1;
        }
        out
    }
}

// ---------------------------------------------------------------------------
// Byte-lexicographic order on addresses, and sorting of balance pairs.
// ---------------------------------------------------------------------------

/// Byte-lexicographic "less or equal" on byte strings.
pub open spec fn lex_le_bytes(a: Seq<u8>, b: Seq<u8>) -> bool
    decreases a.len(),
{
    if a.len() == 0 {
        true
    } else if b.len() == 0 {
        false
    } else if a[0] < b[0] {
        true
    } else if a[0] > b[0] {
        false
    } else {
        lex_le_bytes(a.drop_first(), b.drop_first())
    }
}

/// Order on balance pairs: by the address bytes.
pub open spec fn pair_le(p: (Seq<char>, u64), q: (Seq<char>, u64)) -> bool {
    lex_le_bytes(char_bytes(p.0), char_bytes(q.0))
}

/// Inserts a pair in front of the first pair it precedes or equals.
pub open spec fn insert_pair(p: (Seq<char>, u64), ps: Seq<(Seq<char>, u64)>) -> Seq<
    (Seq<char>, u64),
>
    decreases ps.len(),
{
    if ps.len() == 0 {
        seq![p]
    } else if pair_le(p, ps[0]) {
        seq![p] + ps
    } else {
        seq![ps[0]] + insert_pair(p, ps.drop_first())
    }
}

/// Sorts balance pairs by address, by repeated insertion.
pub open spec fn sort_pairs(ps: Seq<(Seq<char>, u64)>) -> Seq<(Seq<char>, u64)>
    decreases ps.len(),
{
    if ps.len() == 0 {
        Seq::<(Seq<char>, u64)>::empty()
    } else {
        insert_pair(ps.last(), sort_pairs(ps.drop_last()))
    }
}

/// Stepping over one equal byte keeps the lexicographic comparison.
proof fn lemma_lex_step(a: Seq<u8>, b: Seq<u8>, i: int)
    requires
        0 <= i < a.len(),
        i < b.len(),
        a[i] == b[i],
    ensures
        lex_le_bytes(a.skip(i), b.skip(i)) == lex_le_bytes(a.skip(i + 1), b.skip(i + 1)),
{
    assert(a.skip(i)[0] == a[i]);
    assert(b.skip(i)[0] == b[i]);
    assert(a.skip(i).drop_first() =~= a.skip(i + 1));
    assert(b.skip(i).drop_first() =~= b.skip(i + 1));
}

/// Compares two ASCII strings in byte-lexicographic order.
pub fn str_lex_le(a: &str, b: &str) -> (r: bool)
    requires
        a.is_ascii(),
        b.is_ascii(),
    ensures
        r == lex_le_bytes(char_bytes(a@), char_bytes(b@)),
{
    let ghost av = char_bytes(a@);
    let ghost bv = char_bytes(b@);
    let na = a.unicode_len();
    let nb = b.unicode_len();
    let min: usize = if na < nb {
        na
    } else {
        nb
    };
    let mut i: usize = 0;
    proof {
        assert(av.skip(0) =~= av);
        assert(bv.skip(0) =~= bv);
    }
    while i < min
        invariant
            a.is_ascii(),
            b.is_ascii(),
            av == char_bytes(a@),
            bv == char_bytes(b@),
            na == a@.len(),
            nb == b@.len(),
            min == if na < nb { na } else { nb },
            0 <= i <= min,
            lex_le_bytes(av, bv) == lex_le_bytes(av.skip(i as int), bv.skip(i as int)),
        decreases min - i,
    {
        let ca = a.get_ascii(i);
        let cb = b.get_ascii(i);
        proof {
            assert(av[i as int] == a@[i as int] as u8);
            assert(bv[i as int] == b@[i as int] as u8);
            assert(av.skip(i as int)[0] == av[i as int]);
            assert(bv.skip(i as int)[0] == bv[i as int]);
        }
        if ca < cb {
            return true;
        }
        if ca > cb {
            return false;
        }
        proof {
            lemma_lex_step(av, bv, i as int);
        }
        i = i + 1;
    }
    if na <= nb {
        proof {
            assert(av.skip(min as int) =~= Seq::<u8>::empty());
        }
        true
    } else {
        proof {
            assert(bv.skip(min as int) =~= Seq::<u8>::empty());
            assert(av.skip(min as int).len() > 0);
        }
        false
    }
}

/// The pairs of a vector of table entries, in storage order.
pub open spec fn epairs(es: Seq<TableEntry>) -> Seq<(Seq<char>, u64)> {
    Seq::new(es.len(), |i: int| (es[i].addr@, es[i].val))
}

/// If the scan stopped at `idx`, the spec insertion lands there too.
proof fn lemma_insert_pair_at(p: (Seq<char>, u64), ps: Seq<(Seq<char>, u64)>, idx: int)
    requires
        0 <= idx <= ps.len(),
        forall|j: int| 0 <= j < idx ==> !pair_le(p, #[trigger] ps[j]),
        idx < ps.len() ==> pair_le(p, ps[idx]),
    ensures
        insert_pair(p, ps) =~= ps.subrange(0, idx) + seq![p] + ps.skip(idx),
    decreases idx,
{
    if idx == 0 {
        if ps.len() == 0 {
            assert(insert_pair(p, ps) =~= seq![p]);
        } else {
            assert(insert_pair(p, ps) =~= seq![p] + ps);
        }
        assert(ps.subrange(0, 0) =~= Seq::<(Seq<char>, u64)>::empty());
        assert(ps.skip(0) =~= ps);
    } else {
        assert(!pair_le(p, ps[0]));
        assert(forall|j: int| 0 <= j < idx - 1 ==> ps.drop_first()[j] == ps[j + 1]);
        if idx - 1 < ps.drop_first().len() {
            assert(ps.drop_first()[idx - 1] == ps[idx]);
        }
        lemma_insert_pair_at(p, ps.drop_first(), idx - 1);
        assert(insert_pair(p, ps) =~= seq![ps[0]] + insert_pair(p, ps.drop_first()));
        assert(seq![ps[0]] + (ps.drop_first().subrange(0, idx - 1) + seq![p] + ps.drop_first().skip(
            idx - 1,
        )) =~= ps.subrange(0, idx) + seq![p] + ps.skip(idx));
    }
}

/// Finds where an entry belongs in a vector kept sorted by address bytes.
fn find_insert_pos(v: &Vec<TableEntry>, e: &TableEntry) -> (idx: usize)
    requires
        tvalid(epairs(v@)),
        valid_addr(e.addr@),
    ensures
        0 <= idx <= v@.len(),
        forall|j: int| 0 <= j < idx ==> !pair_le((e.addr@, e.val), #[trigger] epairs(v@)[j]),
        idx < v@.len() ==> pair_le((e.addr@, e.val), epairs(v@)[idx as int]),
{
    let ghost ps = epairs(v@);
    let ghost pe = (e.addr@, e.val);
    proof {
        crate::text::lemma_addr_chars_ascii(e.addr@);
    }
    let mut idx: usize = 0;
    while idx < v.len()
        invariant
            tvalid(ps),
            valid_addr(e.addr@),
            e.addr.is_ascii(),
            ps == epairs(v@),
            ps.len() == v@.len(),
            0 <= idx <= ps.len(),
            pe == (e.addr@, e.val),
            forall|j: int| 0 <= j < idx ==> !pair_le(pe, #[trigger] ps[j]),
        decreases ps.len() - idx,
    {
        proof {
            assert(valid_addr(ps[idx as int].0));
            crate::text::lemma_addr_chars_ascii(v@[idx as int].addr@);
        }
        if str_lex_le(e.addr.as_str(), v[idx].addr.as_str()) {
            return idx;
        }
        idx = idx + 1;
    }
    idx
}

/// Inserts an entry into a vector kept sorted by address bytes.
fn insert_entry_sorted(v: &mut Vec<TableEntry>, e: TableEntry)
    requires
        tvalid(epairs(old(v)@)),
        valid_addr(e.addr@),
    ensures
        epairs(final(v)@) =~= insert_pair((e.addr@, e.val), epairs(old(v)@)),
        tvalid(epairs(final(v)@)),
{
    let ghost ps = epairs(v@);
    let ghost pe = (e.addr@, e.val);
    let idx = find_insert_pos(v, &e);
    proof {
        lemma_insert_pair_at(pe, ps, idx as int);
    }
    v.insert(idx, e);
    proof {
        assert(epairs(v@) =~= ps.subrange(0, idx as int) + seq![pe] + ps.skip(idx as int));
        assert forall|i: int| 0 <= i < epairs(v@).len() implies valid_addr(
            (#[trigger] epairs(v@)[i]).0,
        ) by {
            let q = ps.subrange(0, idx as int) + seq![pe] + ps.skip(idx as int);
            if i < idx {
                assert(q[i] == ps[i]);
            } else if i == idx {
                assert(q[i] == pe);
            } else {
                assert(q[i] == ps[i - 1]);
            }
        }
    }
}

/// Sorts the entries of a table by address bytes; the result realises
/// `sort_pairs` of the table's pairs.
pub fn sorted_entries(src: &Vec<TableEntry>) -> (r: Vec<TableEntry>)
    requires
        tvalid(epairs(src@)),
    ensures
        epairs(r@) =~= sort_pairs(epairs(src@)),
{
    let ghost ps = epairs(src@);
    let mut out: Vec<TableEntry> = Vec::new();
    proof {
        assert(epairs(out@) =~= Seq::<(Seq<char>, u64)>::empty());
        assert(ps.subrange(0, 0) =~= Seq::<(Seq<char>, u64)>::empty());
        assert(sort_pairs(ps.subrange(0, 0)) =~= Seq::<(Seq<char>, u64)>::empty());
    }
    let mut i: usize = 0;
    while i < src.len()
        invariant
            tvalid(ps),
            ps == epairs(src@),
            0 <= i <= ps.len(),
            ps.len() == src@.len(),
            epairs(out@) =~= sort_pairs(ps.subrange(0, i as int)),
            tvalid(epairs(out@)),
        decreases ps.len() - i,
    {
        let e = TableEntry { addr: src[i].addr.clone(), val: src[i].val };
        proof {
            assert(valid_addr(ps[i as int].0));
            assert(e.addr@ == ps[i as int].0);
        }
        insert_entry_sorted(&mut out, e);
        proof {
            let pre = ps.subrange(0, i as int);
            let cur = ps.subrange(0, i + 1);
            assert(cur.drop_last() =~= pre);
            assert(cur.last() == ps[i as int]);
            assert(epairs(out@) =~= insert_pair(ps[i as int], sort_pairs(pre)));
            assert(epairs(out@) =~= sort_pairs(cur));
        }
        i = i + 1;
    }
    proof {
        assert(ps.subrange(0, ps.len() as int) =~= ps);
    }
    out
}

/// Sorted insertion keeps every key lawful.
pub proof fn lemma_insert_pair_tvalid(p: (Seq<char>, u64), ps: Seq<(Seq<char>, u64)>)
    requires
        tvalid(ps),
        valid_addr(p.0),
    ensures
        tvalid(insert_pair(p, ps)),
    decreases ps.len(),
{
    if ps.len() == 0 {
        assert(insert_pair(p, ps)[0] == p);
    } else if pair_le(p, ps[0]) {
        assert forall|i: int| 0 <= i < insert_pair(p, ps).len() implies valid_addr(
            (#[trigger] insert_pair(p, ps)[i]).0,
        ) by {
            if i > 0 {
                assert(insert_pair(p, ps)[i] == ps[i - 1]);
            }
        }
    } else {
        assert(tvalid(ps.drop_first())) by {
            assert(forall|i: int|
                0 <= i < ps.drop_first().len() ==> ps.drop_first()[i] == ps[i + 1]);
        }
        lemma_insert_pair_tvalid(p, ps.drop_first());
        assert forall|i: int| 0 <= i < insert_pair(p, ps).len() implies valid_addr(
            (#[trigger] insert_pair(p, ps)[i]).0,
        ) by {
            if i > 0 {
                assert(insert_pair(p, ps)[i] == insert_pair(p, ps.drop_first())[i - 1]);
            }
        }
    }
}

/// Sorting keeps every key lawful.
pub proof fn lemma_sort_tvalid(ps: Seq<(Seq<char>, u64)>)
    requires
        tvalid(ps),
    ensures
        tvalid(sort_pairs(ps)),
    decreases ps.len(),
{
    if ps.len() > 0 {
        assert(tvalid(ps.drop_last())) by {
            assert(forall|i: int|
                0 <= i < ps.drop_last().len() ==> ps.drop_last()[i] == ps[i]);
        }
        lemma_sort_tvalid(ps.drop_last());
        lemma_insert_pair_tvalid(ps.last(), sort_pairs(ps.drop_last()));
    }
}

// ---------------------------------------------------------------------------
// Wallet-list helpers: lookup by address, update, balance sums, ranking.
// ---------------------------------------------------------------------------

/// The views of a sequence of wallets, in storage order.
pub open spec fn wv(ws: Seq<Wallet>) -> Seq<WalletV> {
    Seq::new(ws.len(), |i: int| ws[i]@)
}

/// The wallet bound to an address, reading the first occurrence.
pub open spec fn wfind(ws: Seq<WalletV>, a: Seq<char>) -> Option<WalletV>
    decreases ws.len(),
{
    if ws.len() == 0 {
        None
    } else if ws[0].address == a {
        Some(ws[0])
    } else {
        wfind(ws.drop_first(), a)
    }
}

/// No address owns two wallets.
pub open spec fn wdistinct(ws: Seq<WalletV>) -> bool {
    forall|i: int, j: int|
        0 <= i < j < ws.len() ==> (#[trigger] ws[i]).address != (#[trigger] ws[j]).address
}

/// The sum of all balances.
pub open spec fn wsum(ws: Seq<WalletV>) -> int
    decreases ws.len(),
{
    if ws.len() == 0 {
        0
    } else {
        ws[0].balance + wsum(ws.drop_first())
    }
}

/// If no address in the first `i` wallets is `a`, the lookup continues in
/// the remainder.
pub proof fn lemma_wfind_skip(ws: Seq<WalletV>, a: Seq<char>, i: int)
    requires
        0 <= i <= ws.len(),
        forall|j: int| 0 <= j < i ==> (#[trigger] ws[j]).address != a,
    ensures
        wfind(ws, a) == wfind(ws.skip(i), a),
    decreases i,
{
    if i == 0 {
        assert(ws.skip(0) =~= ws);
    } else {
        lemma_wfind_skip(ws, a, i - 1);
        assert(ws.skip(i - 1)[0] == ws[i - 1]);
        assert(ws.skip(i - 1).drop_first() =~= ws.skip(i));
    }
}

/// If `a` owns the wallet at `idx` and none earlier, the lookup reads it.
pub proof fn lemma_wfind_at(ws: Seq<WalletV>, a: Seq<char>, idx: int)
    requires
        0 <= idx < ws.len(),
        ws[idx].address == a,
        forall|j: int| 0 <= j < idx ==> (#[trigger] ws[j]).address != a,
    ensures
        wfind(ws, a) == Some(ws[idx]),
{
    lemma_wfind_skip(ws, a, idx);
    assert(ws.skip(idx)[0] == ws[idx]);
}

/// If no wallet owns `a`, the lookup fails.
pub proof fn lemma_wfind_none(ws: Seq<WalletV>, a: Seq<char>)
    requires
        forall|j: int| 0 <= j < ws.len() ==> (#[trigger] ws[j]).address != a,
    ensures
        wfind(ws, a) is None,
{
    lemma_wfind_skip(ws, a, ws.len() as int);
    assert(ws.skip(ws.len() as int) =~= Seq::<WalletV>::empty());
}

/// A found wallet stands in the sequence.
pub proof fn lemma_wfind_mem(ws: Seq<WalletV>, a: Seq<char>)
    requires
        wfind(ws, a) is Some,
    ensures
        exists|i: int|
            0 <= i < ws.len() && #[trigger] ws[i] == wfind(ws, a).unwrap() && ws[i].address == a,
    decreases ws.len(),
{
    if ws.len() == 0 {
    } else if ws[0].address == a {
        assert(ws[0] == wfind(ws, a).unwrap());
    } else {
        lemma_wfind_mem(ws.drop_first(), a);
        let i = choose|i: int|
            0 <= i < ws.drop_first().len() && #[trigger] ws.drop_first()[i] == wfind(
                ws.drop_first(),
                a,
            ).unwrap() && ws.drop_first()[i].address == a;
        assert(ws[i + 1] == ws.drop_first()[i]);
    }
}

/// Replacing the wallet at `i` adjusts the balance sum by the difference.
pub proof fn lemma_wsum_update(ws: Seq<WalletV>, i: int, w: WalletV)
    requires
        0 <= i < ws.len(),
    ensures
        wsum(ws.update(i, w)) == wsum(ws) - ws[i].balance + w.balance,
    decreases i,
{
    if i == 0 {
        assert(ws.update(0, w)[0] == w);
        assert(ws.update(0, w).drop_first() =~= ws.drop_first());
    } else {
        assert(ws.update(i, w)[0] == ws[0]);
        assert(ws.update(i, w).drop_first() =~= ws.drop_first().update(i - 1, w));
        assert(ws.drop_first()[i - 1] == ws[i]);
        lemma_wsum_update(ws.drop_first(), i - 1, w);
    }
}

/// Appending a wallet adds its balance to the sum.
pub proof fn lemma_wsum_push(ws: Seq<WalletV>, w: WalletV)
    ensures
        wsum(ws.push(w)) == wsum(ws) + w.balance,
    decreases ws.len(),
{
    if ws.len() == 0 {
        assert(ws.push(w)[0] == w);
        assert(ws.push(w).drop_first() =~= Seq::<WalletV>::empty());
        assert(wsum(Seq::<WalletV>::empty()) == 0);
    } else {
        assert(ws.push(w)[0] == ws[0]);
        assert(ws.push(w).drop_first() =~= ws.drop_first().push(w));
        lemma_wsum_push(ws.drop_first(), w);
    }
}

/// After an in-place replacement that keeps the address, lookups read the
/// new wallet at its address and are unchanged elsewhere.
pub proof fn lemma_wfind_update(ws: Seq<WalletV>, i: int, w: WalletV, a: Seq<char>)
    requires
        0 <= i < ws.len(),
        wdistinct(ws),
        ws[i].address == w.address,
    ensures
        wfind(ws.update(i, w), a) == if a == w.address {
            Some(w)
        } else {
            wfind(ws, a)
        },
    decreases i,
{
    let u = ws.update(i, w);
    if i == 0 {
        assert(u[0] == w);
        assert(u.drop_first() =~= ws.drop_first());
        if a == w.address {
        } else {
        }
    } else {
        assert(u[0] == ws[0]);
        assert(u.drop_first() =~= ws.drop_first().update(i - 1, w));
        assert(ws.drop_first()[i - 1] == ws[i]);
        assert(wdistinct(ws.drop_first())) by {
            assert(forall|x: int, y: int|
                0 <= x < y < ws.drop_first().len() ==> ws.drop_first()[x] == ws[x + 1]
                    && ws.drop_first()[y] == ws[y + 1]);
        }
        lemma_wfind_update(ws.drop_first(), i - 1, w, a);
        if ws[0].address == a {
            assert(a != w.address);
        }
    }
}

/// Appending a wallet with a fresh address leaves other lookups unchanged
/// and binds its own.
pub proof fn lemma_wfind_push(ws: Seq<WalletV>, w: WalletV, a: Seq<char>)
    requires
        wfind(ws, w.address) is None,
    ensures
        wfind(ws.push(w), a) == if a == w.address {
            Some(w)
        } else {
            wfind(ws, a)
        },
    decreases ws.len(),
{
    if ws.len() == 0 {
        assert(ws.push(w)[0] == w);
        assert(ws.push(w).drop_first() =~= Seq::<WalletV>::empty());
    } else {
        assert(ws.push(w)[0] == ws[0]);
        assert(ws.push(w).drop_first() =~= ws.drop_first().push(w));
        lemma_wfind_push(ws.drop_first(), w, a);
    }
}

/// Appending a wallet with a fresh address keeps addresses distinct.
pub proof fn lemma_wdistinct_push(ws: Seq<WalletV>, w: WalletV)
    requires
        wdistinct(ws),
        wfind(ws, w.address) is None,
    ensures
        wdistinct(ws.push(w)),
{
    assert forall|i: int, j: int|
        0 <= i < j < ws.push(w).len() implies (#[trigger] ws.push(w)[i]).address != (
    #[trigger] ws.push(w)[j]).address by {
        if j == ws.len() {
            if ws[i].address == w.address {
                lemma_wfind_at(ws, w.address, first_match(ws, w.address, i));
            }
        }
    }
}

/// The first index whose wallet owns `a`, below a known match `i`.
spec fn first_match(ws: Seq<WalletV>, a: Seq<char>, i: int) -> int
    decreases i,
{
    if exists|j: int| 0 <= j < i && (#[trigger] ws[j]).address == a {
        first_match(ws, a, choose|j: int| 0 <= j < i && (#[trigger] ws[j]).address == a)
    } else {
        i
    }
}

/// `first_match` finds a match with none earlier.
proof fn lemma_first_match(ws: Seq<WalletV>, a: Seq<char>, i: int)
    requires
        0 <= i < ws.len(),
        ws[i].address == a,
    ensures
        0 <= first_match(ws, a, i) < ws.len(),
        ws[first_match(ws, a, i)].address == a,
        forall|j: int| 0 <= j < first_match(ws, a, i) ==> (#[trigger] ws[j]).address != a,
    decreases i,
{
    if exists|j: int| 0 <= j < i && (#[trigger] ws[j]).address == a {
        let j = choose|j: int| 0 <= j < i && (#[trigger] ws[j]).address == a;
        lemma_first_match(ws, a, j);
    }
}

/// Looks up the index of the wallet owning `a`.
pub fn wallet_idx(ws: &Vec<Wallet>, a: &String) -> (r: Option<usize>)
    ensures
        match r {
            Some(i) => i < ws@.len() && wv(ws@)[i as int].address == a@ && wfind(wv(ws@), a@)
                == Some(wv(ws@)[i as int]) && forall|j: int|
                0 <= j < i ==> (#[trigger] wv(ws@)[j]).address != a@,
            None => wfind(wv(ws@), a@) is None,
        },
{
    let ghost wsv = wv(ws@);
    let mut i: usize = 0;
    while i < ws.len()
        invariant
            wsv == wv(ws@),
            wsv.len() == ws@.len(),
            0 <= i <= wsv.len(),
            forall|j: int| 0 <= j < i ==> (#[trigger] wsv[j]).address != a@,
        decreases wsv.len() - i,
    {
        if ws[i].address == *a {
            proof {
                lemma_wfind_at(wsv, a@, i as int);
            }
            return Some(i);
        }
        i = i + 1;
    }
    proof {
        lemma_wfind_none(wsv, a@);
    }
    None
}

/// Replaces the wallet at `i`.
pub fn wallet_replace(ws: &mut Vec<Wallet>, i: usize, w: Wallet)
    requires
        i < old(ws)@.len(),
    ensures
        wv(final(ws)@) =~= wv(old(ws)@).update(i as int, w@),
{
    ws.remove(i);
    ws.insert(i, w);
}

/// Replaces the first wallet owning `a`, or appends.
pub open spec fn wset(ws: Seq<WalletV>, a: Seq<char>, w: WalletV) -> Seq<WalletV>
    decreases ws.len(),
{
    if ws.len() == 0 {
        seq![w]
    } else if ws[0].address == a {
        seq![w] + ws.drop_first()
    } else {
        seq![ws[0]] + wset(ws.drop_first(), a, w)
    }
}

/// If the first wallet of `a` stands at `idx`, `wset` is an update in
/// place.
pub proof fn lemma_wset_is_update(ws: Seq<WalletV>, a: Seq<char>, w: WalletV, idx: int)
    requires
        0 <= idx < ws.len(),
        ws[idx].address == a,
        forall|j: int| 0 <= j < idx ==> (#[trigger] ws[j]).address != a,
    ensures
        wset(ws, a, w) =~= ws.update(idx, w),
    decreases idx,
{
    if idx == 0 {
        assert(wset(ws, a, w) =~= seq![w] + ws.drop_first());
    } else {
        assert(ws.drop_first()[idx - 1] == ws[idx]);
        assert(forall|j: int| 0 <= j < idx - 1 ==> ws.drop_first()[j] == ws[j + 1]);
        lemma_wset_is_update(ws.drop_first(), a, w, idx - 1);
        assert(wset(ws, a, w) =~= seq![ws[0]] + wset(ws.drop_first(), a, w));
        assert(seq![ws[0]] + ws.drop_first().update(idx - 1, w) =~= ws.update(idx, w));
    }
}

/// If no wallet owns `a`, `wset` appends.
pub proof fn lemma_wset_is_append(ws: Seq<WalletV>, a: Seq<char>, w: WalletV)
    requires
        wfind(ws, a) is None,
    ensures
        wset(ws, a, w) =~= ws.push(w),
    decreases ws.len(),
{
    if ws.len() == 0 {
    } else {
        assert(ws[0].address != a);
        lemma_wset_is_append(ws.drop_first(), a, w);
        assert(wset(ws, a, w) =~= seq![ws[0]] + ws.drop_first().push(w));
    }
}

// ---------------------------------------------------------------------------
// Leaderboard order: wallets ranked by balance, highest first.
// ---------------------------------------------------------------------------

/// Inserts a wallet in front of the first strictly poorer wallet; among
/// equals, earlier wallets keep their place.
pub open spec fn ldb_insert(w: WalletV, ws: Seq<WalletV>) -> Seq<WalletV>
    decreases ws.len(),
{
    if ws.len() == 0 {
        seq![w]
    } else if w.balance > ws[0].balance {
        seq![w] + ws
    } else {
        seq![ws[0]] + ldb_insert(w, ws.drop_first())
    }
}

/// Ranks wallets by balance, highest first, by repeated insertion.
pub open spec fn ldb_sort(ws: Seq<WalletV>) -> Seq<WalletV>
    decreases ws.len(),
{
    if ws.len() == 0 {
        Seq::<WalletV>::empty()
    } else {
        ldb_insert(ws.last(), ldb_sort(ws.drop_last()))
    }
}

/// If the scan stopped at `idx`, the spec insertion lands there too.
proof fn lemma_ldb_insert_at(w: WalletV, ws: Seq<WalletV>, idx: int)
    requires
        0 <= idx <= ws.len(),
        forall|j: int| 0 <= j < idx ==> !(w.balance > (#[trigger] ws[j]).balance),
        idx < ws.len() ==> w.balance > ws[idx].balance,
    ensures
        ldb_insert(w, ws) =~= ws.subrange(0, idx) + seq![w] + ws.skip(idx),
    decreases idx,
{
    if idx == 0 {
        if ws.len() == 0 {
            assert(ldb_insert(w, ws) =~= seq![w]);
        } else {
            assert(ldb_insert(w, ws) =~= seq![w] + ws);
        }
        assert(ws.subrange(0, 0) =~= Seq::<WalletV>::empty());
        assert(ws.skip(0) =~= ws);
    } else {
        assert(!(w.balance > ws[0].balance));
        assert(forall|j: int| 0 <= j < idx - 1 ==> ws.drop_first()[j] == ws[j + 1]);
        if idx - 1 < ws.drop_first().len() {
            assert(ws.drop_first()[idx - 1] == ws[idx]);
        }
        lemma_ldb_insert_at(w, ws.drop_first(), idx - 1);
        assert(ldb_insert(w, ws) =~= seq![ws[0]] + ldb_insert(w, ws.drop_first()));
        assert(seq![ws[0]] + (ws.drop_first().subrange(0, idx - 1) + seq![w]
            + ws.drop_first().skip(idx - 1)) =~= ws.subrange(0, idx) + seq![w] + ws.skip(idx));
    }
}

/// Finds where a wallet ranks in a vector ordered by balance, highest
/// first.
fn find_rank_pos(v: &Vec<Wallet>, w: &Wallet) -> (idx: usize)
    ensures
        0 <= idx <= v@.len(),
        forall|j: int| 0 <= j < idx ==> !(w@.balance > (#[trigger] wv(v@)[j]).balance),
        idx < v@.len() ==> w@.balance > wv(v@)[idx as int].balance,
{
    let mut idx: usize = 0;
    while idx < v.len()
        invariant
            0 <= idx <= v@.len(),
            forall|j: int| 0 <= j < idx ==> !(w@.balance > (#[trigger] wv(v@)[j]).balance),
        decreases v@.len() - idx,
    {
        if w.balance > v[idx].balance {
            return idx;
        }
        idx = idx + 1;
    }
    idx
}

/// Inserts a wallet into a vector ordered by balance, highest first.
pub fn insert_ranked(v: &mut Vec<Wallet>, w: Wallet)
    ensures
        wv(final(v)@) =~= ldb_insert(w@, wv(old(v)@)),
{
    let ghost wsv = wv(v@);
    let idx = find_rank_pos(v, &w);
    proof {
        lemma_ldb_insert_at(w@, wsv, idx as int);
    }
    v.insert(idx, w);
    proof {
        assert(wv(v@) =~= wsv.subrange(0, idx as int) + seq![w@] + wsv.skip(idx as int));
    }
}

} // verus!
