use vstd::prelude::*;
use crate::address::{Address, AddressView};
use crate::peer::PeerAddr;

verus! {

/// One association: the tunnel-side destination and the client it came from.
pub type EntryView = (AddressView, PeerAddr);

/// The entries of `s` whose destination is not `k`, in their order.
pub open spec fn without_key(s: Seq<EntryView>, k: AddressView) -> Seq<EntryView> {
    s.filter(|e: EntryView| e.0 != k)
}

/// The client that the most recent entry for `k` in `s` maps to.
pub open spec fn lookup(s: Seq<EntryView>, k: AddressView) -> Option<PeerAddr>
    decreases s.len(),
{
    if s.len() == 0 {
        None
    } else if s.last().0 == k {
        Some(s.last().1)
    } else {
        lookup(s.drop_last(), k)
    }
}

/// The entries after `put(k, v)` on a table of capacity `cap` holding `s`,
/// least recently used first: `k` moves to the end with its new client, and
/// the first entry leaves when the table would exceed its capacity.
pub open spec fn put_entries(s: Seq<EntryView>, cap: nat, k: AddressView, v: PeerAddr) -> Seq<EntryView> {
    let t = without_key(s, k).push((k, v));
    if t.len() > cap {
        t.drop_first()
    } else {
        t
    }
}

/// The entries after a successful `get(k)`: `k` becomes the most recently
/// used entry.
pub open spec fn touch_entries(s: Seq<EntryView>, k: AddressView, v: PeerAddr) -> Seq<EntryView> {
    without_key(s, k).push((k, v))
}

/// The entries after each association of `puts`, in order, is put into a
/// table of capacity `cap` that held `s`.
pub open spec fn put_all(s: Seq<EntryView>, cap: nat, puts: Seq<EntryView>) -> Seq<EntryView>
    decreases puts.len(),
{
    if puts.len() == 0 {
        s
    } else {
        let e = puts.last();
        put_entries(put_all(s, cap, puts.drop_last()), cap, e.0, e.1)
    }
}

/// No entry of `s` has the destination `k`.
pub open spec fn key_absent(s: Seq<EntryView>, k: AddressView) -> bool {
    forall|i: int| 0 <= i < s.len() ==> #[trigger] s[i].0 != k
}

/// No two entries of `s` have the same destination.
pub open spec fn keys_distinct(s: Seq<EntryView>) -> bool {
    forall|i: int, j: int| 0 <= i < j < s.len() ==> #[trigger] s[i].0 != #[trigger] s[j].0
}

/// A bounded session table that evicts the least recently used entry.
pub struct SessionTable {
    entries: Vec<(Address, PeerAddr)>,
    capacity: usize,
}

impl View for SessionTable {
    type V = Seq<EntryView>;

    closed spec fn view(&self) -> Seq<EntryView> {
        self.entries@.map_values(|e: (Address, PeerAddr)| (e.0@, e.1))
    }
}

proof fn lemma_without_key_push(s: Seq<EntryView>, e: EntryView, k: AddressView)
    ensures
        without_key(s.push(e), k) == if e.0 != k {
            without_key(s, k).push(e)
        } else {
            without_key(s, k)
        },
{
    reveal(Seq::filter);
    assert(s.push(e).drop_last() =~= s);
}

/// Dropping the entries of `k` changes no other lookup.
pub proof fn lemma_lookup_without_key(s: Seq<EntryView>, k: AddressView, q: AddressView)
    ensures
        lookup(without_key(s, k), q) == if q == k { None } else { lookup(s, q) },
    decreases s.len(),
{
    if s.len() > 0 {
        let d = s.drop_last();
        assert(s =~= d.push(s.last()));
        lemma_without_key_push(d, s.last(), k);
        lemma_lookup_without_key(d, k, q);
        if s.last().0 != k {
            assert(without_key(s, k).drop_last() =~= without_key(d, k));
        }
    } else {
        reveal(Seq::filter);
    }
}

proof fn lemma_without_key_len(s: Seq<EntryView>, k: AddressView)
    ensures
        without_key(s, k).len() <= s.len(),
        lookup(s, k) is Some ==> without_key(s, k).len() < s.len(),
    decreases s.len(),
{
    if s.len() > 0 {
        let d = s.drop_last();
        assert(s =~= d.push(s.last()));
        lemma_without_key_push(d, s.last(), k);
        lemma_without_key_len(d, k);
    } else {
        reveal(Seq::filter);
    }
}

proof fn lemma_without_key_absent(s: Seq<EntryView>, k: AddressView)
    requires
        key_absent(s, k),
    ensures
        without_key(s, k) == s,
    decreases s.len(),
{
    if s.len() > 0 {
        let d = s.drop_last();
        assert(s =~= d.push(s.last()));
        lemma_without_key_push(d, s.last(), k);
        lemma_without_key_absent(d, k);
    } else {
        reveal(Seq::filter);
    }
}

proof fn lemma_without_key_keeps_absent(s: Seq<EntryView>, k: AddressView, q: AddressView)
    requires
        key_absent(s, q),
    ensures
        key_absent(without_key(s, k), q),
    decreases s.len(),
{
    if s.len() > 0 {
        let d = s.drop_last();
        assert(s =~= d.push(s.last()));
        lemma_without_key_push(d, s.last(), k);
        lemma_without_key_keeps_absent(d, k, q);
        let w = without_key(d, k);
        assert forall|i: int| 0 <= i < w.push(s.last()).len() implies #[trigger] w.push(s.last())[i].0 != q by {
            if i < w.len() {
                assert(w.push(s.last())[i] == w[i]);
            }
        }
    } else {
        reveal(Seq::filter);
    }
}

proof fn lemma_lookup_absent(s: Seq<EntryView>, k: AddressView)
    requires
        key_absent(s, k),
    ensures
        lookup(s, k) is None,
    decreases s.len(),
{
    if s.len() > 0 {
        lemma_lookup_absent(s.drop_last(), k);
    }
}

proof fn lemma_lookup_distinct(s: Seq<EntryView>, i: int)
    requires
        keys_distinct(s),
        0 <= i < s.len(),
    ensures
        lookup(s, s[i].0) == Some(s[i].1),
    decreases s.len(),
{
    if i < s.len() - 1 {
        assert(s[i].0 != s[s.len() - 1].0);
        let d = s.drop_last();
        assert(d[i] == s[i]);
        lemma_lookup_distinct(d, i);
    }
}

proof fn lemma_put_all_fills(cap: nat, puts: Seq<EntryView>, j: nat)
    requires
        j <= cap,
        j <= puts.len(),
        keys_distinct(puts),
    ensures
        put_all(Seq::empty(), cap, puts.take(j as int)) == puts.take(j as int),
    decreases j,
{
    if j > 0 {
        let t = puts.take(j as int);
        let p = puts.take(j - 1);
        assert(t.drop_last() =~= p);
        lemma_put_all_fills(cap, puts, (j - 1) as nat);
        assert(key_absent(p, puts[j - 1].0));
        lemma_without_key_absent(p, puts[j - 1].0);
        assert(p.push(puts[j - 1]) =~= t);
    }
}

/// Putting `cap + 1` associations with distinct destinations into an empty
/// table of capacity `cap` evicts exactly the first of them, the least
/// recently used: its destination no longer resolves, and every other one
/// resolves to its client.
pub proof fn lemma_lru_eviction(cap: nat, puts: Seq<EntryView>)
    requires
        cap > 0,
        puts.len() == cap + 1,
        keys_distinct(puts),
    ensures
        lookup(put_all(Seq::empty(), cap, puts), puts[0].0) is None,
        forall|i: int| 1 <= i <= cap ==> lookup(put_all(Seq::empty(), cap, puts), #[trigger] puts[i].0) == Some(puts[i].1),
{
    let p = puts.take(cap as int);
    lemma_put_all_fills(cap, puts, cap);
    assert(puts.drop_last() =~= p);
    assert(key_absent(p, puts[cap as int].0));
    lemma_without_key_absent(p, puts[cap as int].0);
    let r = put_all(Seq::empty(), cap, puts);
    assert(r =~= puts.drop_first());
    assert(key_absent(r, puts[0].0));
    lemma_lookup_absent(r, puts[0].0);
    assert(keys_distinct(r));
    assert forall|i: int| 1 <= i <= cap implies lookup(r, #[trigger] puts[i].0) == Some(puts[i].1) by {
        assert(r[i - 1] == puts[i]);
        lemma_lookup_distinct(r, i - 1);
    }
}

/// A destination that no put has named never resolves, whatever was put
/// before into an empty table.
pub proof fn lemma_unknown_key(cap: nat, puts: Seq<EntryView>, k: AddressView)
    requires
        key_absent(puts, k),
    ensures
        lookup(put_all(Seq::empty(), cap, puts), k) is None,
{
    lemma_put_all_avoids(cap, puts, k);
    lemma_lookup_absent(put_all(Seq::empty(), cap, puts), k);
}

proof fn lemma_put_all_avoids(cap: nat, puts: Seq<EntryView>, k: AddressView)
    requires
        key_absent(puts, k),
    ensures
        key_absent(put_all(Seq::empty(), cap, puts), k),
    decreases puts.len(),
{
    if puts.len() > 0 {
        let d = puts.drop_last();
        assert(key_absent(d, k));
        lemma_put_all_avoids(cap, d, k);
        let s = put_all(Seq::empty(), cap, d);
        let e = puts.last();
        lemma_without_key_keeps_absent(s, e.0, k);
        let t = without_key(s, e.0).push(e);
        assert(key_absent(t, k));
        if t.len() > cap {
            assert forall|i: int| 0 <= i < t.drop_first().len() implies #[trigger] t.drop_first()[i].0 != k by {
                assert(t.drop_first()[i] == t[i + 1]);
            }
        }
    }
}

proof fn lemma_lookup_drop_first(t: Seq<EntryView>, q: AddressView)
    requires
        t.len() > 0,
    ensures
        lookup(t.drop_first(), q) is None || lookup(t.drop_first(), q) == lookup(t, q),
    decreases t.len(),
{
    if t.len() > 1 {
        assert(t.drop_first().last() == t.last());
        assert(t.drop_first().drop_last() =~= t.drop_last().drop_first());
        lemma_lookup_drop_first(t.drop_last(), q);
    }
}

/// A put for another destination never makes `q` resolve to a client it
/// did not resolve to before: it either keeps the mapping of `q` or evicts it.
pub proof fn lemma_put_other_key(s: Seq<EntryView>, cap: nat, k: AddressView, v: PeerAddr, q: AddressView)
    requires
        k != q,
    ensures
        lookup(put_entries(s, cap, k, v), q) is None || lookup(put_entries(s, cap, k, v), q) == lookup(s, q),
{
    let t = without_key(s, k).push((k, v));
    assert(t.drop_last() =~= without_key(s, k));
    lemma_lookup_without_key(s, k, q);
    if t.len() > cap {
        lemma_lookup_drop_first(t, q);
    }
}

impl SessionTable {
    /// The most entries the table holds.
    pub closed spec fn cap(&self) -> nat {
        self.capacity as nat
    }

    pub closed spec fn wf(&self) -> bool {
        &&& self.capacity > 0
        &&& self.entries.len() <= self.capacity
    }

    /// An empty table that holds at most `capacity` entries.
    pub fn new(capacity: usize) -> (r: SessionTable)
        requires
            capacity > 0,
        ensures
            r.wf(),
            r@ == Seq::<EntryView>::empty(),
            r.cap() == capacity,
    {
        let r = SessionTable { entries: Vec::new(), capacity };
        assert(r@ =~= Seq::<EntryView>::empty());
        r
    }

    pub fn capacity(&self) -> (r: usize)
        ensures
            r == self.cap(),
    {
        self.capacity
    }

    pub fn len(&self) -> (r: usize)
        ensures
            r == self@.len(),
    {
        self.entries.len()
    }

    /// Removes the entries of `k`, keeping the others in order.
    fn remove_key(&mut self, k: &Address)
        requires
            old(self).wf(),
        ensures
            final(self).capacity == old(self).capacity,
            final(self)@ == without_key(old(self)@, k@),
            final(self).entries.len() <= old(self).entries.len(),
    {
        let ghost s = self@;
        let mut kept: Vec<(Address, PeerAddr)> = Vec::new();
        let mut i: usize = 0;
        while i < self.entries.len()
            invariant
                i <= self.entries.len(),
                s == self@,
                kept@.map_values(|e: (Address, PeerAddr)| (e.0@, e.1)) =~= without_key(s.subrange(0, i as int), k@),
            decreases self.entries.len() - i,
        {
            proof {
                assert(s.subrange(0, i + 1) =~= s.subrange(0, i as int).push(s[i as int]));
                lemma_without_key_push(s.subrange(0, i as int), s[i as int], k@);
            }
            if !self.entries[i].0.same_as(k) {
                let a = self.entries[i].0.duplicate();
                let c = self.entries[i].1;
                kept.push((a, c));
                assert(kept@.map_values(|e: (Address, PeerAddr)| (e.0@, e.1)) =~= without_key(s.subrange(0, i + 1), k@));
            }
            i = i + 1;
        }
        proof {
            assert(s.subrange(0, i as int) =~= s);
            lemma_without_key_len(s, k@);
        }
        self.entries = kept;
    }

    /// Maps `k` to `v`, as the most recently used entry, evicting the least
    /// recently used entry when the table would exceed its capacity.
    pub fn put(&mut self, k: Address, v: PeerAddr)
        requires
            old(self).wf(),
        ensures
            final(self).wf(),
            final(self).cap() == old(self).cap(),
            final(self)@ == put_entries(old(self)@, old(self).cap(), k@, v),
    {
        let ghost s = self@;
        let ghost kv = k@;
        self.remove_key(&k);
        self.entries.push((k, v));
        assert(self@ =~= without_key(s, kv).push((kv, v)));
        if self.entries.len() > self.capacity {
            self.entries.remove(0);
            assert(self@ =~= without_key(s, kv).push((kv, v)).drop_first());
        }
    }

    /// The client that `k` maps to; a found entry becomes the most recently
    /// used one, and a miss leaves the table as it was.
    pub fn get(&mut self, k: &Address) -> (r: Option<PeerAddr>)
        requires
            old(self).wf(),
        ensures
            final(self).wf(),
            final(self).cap() == old(self).cap(),
            r == lookup(old(self)@, k@),
            match r {
                Some(v) => final(self)@ == touch_entries(old(self)@, k@, v),
                None => final(self)@ == old(self)@,
            },
    {
        let ghost s = self@;
        let mut i: usize = self.entries.len();
        assert(s.subrange(0, i as int) =~= s);
        while i > 0
            invariant
                i <= self.entries.len(),
                s == self@,
                s == old(self)@,
                self.wf(),
                self.capacity == old(self).capacity,
                lookup(s, k@) == lookup(s.subrange(0, i as int), k@),
            decreases i,
        {
            let ghost pre = s.subrange(0, i as int);
            assert(pre.drop_last() =~= s.subrange(0, i - 1));
            if self.entries[i - 1].0.same_as(k) {
                let v = self.entries[i - 1].1;
                assert(pre.last() == s[i - 1]);
                assert(lookup(pre, k@) == Some(v));
                self.remove_key(k);
                let a = k.duplicate();
                self.entries.push((a, v));
                proof {
                    assert(self@ =~= without_key(s, k@).push((k@, v)));
                    lemma_without_key_len(s, k@);
                }
                return Some(v);
            }
            i = i - 1;
        }
        assert(s.subrange(0, 0) =~= Seq::<EntryView>::empty());
        None
    }
}

} // verus!
