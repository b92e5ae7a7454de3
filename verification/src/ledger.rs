//! Per-archive ledger: qualifying-game counts per player name.
//!
//! Built fresh for each archive during the counting pass; an association
//! list with unique keys, viewed as a map from name to count.

use vstd::prelude::*;

verus! {

/// The map an association list denotes; later rows would win, and the
/// ledger keeps its keys unique.
pub open spec fn assoc_map(s: Seq<(Seq<u8>, u32)>) -> Map<Seq<u8>, int>
    decreases s.len(),
{
    if s.len() == 0 {
        Map::empty()
    } else {
        assoc_map(s.drop_last()).insert(s.last().0, s.last().1 as int)
    }
}

pub open spec fn unique_keys(s: Seq<(Seq<u8>, u32)>) -> bool {
    forall|i: int, j: int| 0 <= i < j < s.len() ==> s[i].0 != s[j].0
}

/// One more game credited to `k`.
pub open spec fn bump_spec(m: Map<Seq<u8>, int>, k: Seq<u8>) -> Map<Seq<u8>, int> {
    m.insert(
        k,
        (if m.contains_key(k) {
            m[k]
        } else {
            0
        }) + 1,
    )
}

/// One more game credited to `k`, the count saturating at `u32::MAX`:
/// the streaming counterpart of `bump_spec`, total on any ledger.
pub open spec fn bump_capped_spec(m: Map<Seq<u8>, int>, k: Seq<u8>) -> Map<Seq<u8>, int> {
    let c = if m.contains_key(k) {
        m[k]
    } else {
        0
    };
    m.insert(
        k,
        if c < 0xFFFF_FFFFint {
            c + 1
        } else {
            c
        },
    )
}

/// Where no count has reached the cap, the capped credit is the exact
/// one.
pub proof fn lemma_bump_capped_is_bump(m: Map<Seq<u8>, int>, k: Seq<u8>)
    requires
        m.contains_key(k) ==> m[k] < 0xFFFF_FFFFint,
    ensures
        bump_capped_spec(m, k) == bump_spec(m, k),
{
}

/// The sub-map of players whose count reaches `min`.
pub open spec fn filter_min(m: Map<Seq<u8>, int>, min: int) -> Map<Seq<u8>, int> {
    Map::new(|k: Seq<u8>| m.contains_key(k) && m[k] >= min, |k: Seq<u8>| m[k])
}

/// A key is in the map exactly when some row holds it.
pub proof fn lemma_assoc_contains(s: Seq<(Seq<u8>, u32)>, k: Seq<u8>)
    ensures
        assoc_map(s).contains_key(k) <==> exists|i: int| 0 <= i < s.len() && s[i].0 == k,
    decreases s.len(),
{
    if s.len() > 0 {
        lemma_assoc_contains(s.drop_last(), k);
        if s.last().0 == k {
            assert(s[s.len() - 1].0 == k);
        } else if assoc_map(s).contains_key(k) {
            let i = choose|i: int| 0 <= i < s.drop_last().len() && s.drop_last()[i].0 == k;
            assert(s[i].0 == k);
        } else {
            assert forall|i: int| 0 <= i < s.len() implies s[i].0 != k by {
                if i < s.len() - 1 {
                    assert(s.drop_last()[i].0 == s[i].0);
                }
            }
        }
    }
}

/// With unique keys, each row's value is the map's value at its key.
pub proof fn lemma_assoc_value(s: Seq<(Seq<u8>, u32)>, i: int)
    requires
        unique_keys(s),
        0 <= i < s.len(),
    ensures
        assoc_map(s).contains_key(s[i].0),
        assoc_map(s)[s[i].0] == s[i].1 as int,
    decreases s.len(),
{
    lemma_assoc_contains(s, s[i].0);
    if i < s.len() - 1 {
        assert(forall|a: int, b: int|
            0 <= a < b < s.drop_last().len() ==> s.drop_last()[a].0 != s.drop_last()[b].0);
        lemma_assoc_value(s.drop_last(), i);
        assert(s.last().0 != s[i].0);
    }
}

/// Updating the value of row `i` updates the map at that key alone.
proof fn lemma_assoc_update(s: Seq<(Seq<u8>, u32)>, i: int, c: u32)
    requires
        unique_keys(s),
        0 <= i < s.len(),
    ensures
        assoc_map(s.update(i, (s[i].0, c))) =~= assoc_map(s).insert(s[i].0, c as int),
    decreases s.len(),
{
    let s2 = s.update(i, (s[i].0, c));
    if i == s.len() - 1 {
        assert(s2.drop_last() =~= s.drop_last());
        assert(s2.last() == (s[i].0, c));
    } else {
        assert(forall|a: int, b: int|
            0 <= a < b < s.drop_last().len() ==> s.drop_last()[a].0 != s.drop_last()[b].0);
        assert(s.drop_last().update(i, (s[i].0, c)) =~= s2.drop_last());
        lemma_assoc_update(s.drop_last(), i, c);
        assert(s2.last() == s.last());
        assert(s.last().0 != s[i].0);
        assert(assoc_map(s2) =~= assoc_map(s2.drop_last()).insert(s.last().0, s.last().1 as int));
    }
}

/// Per-player game counts for one archive.
pub struct Ledger {
    entries: Vec<(Vec<u8>, u32)>,
}

impl Ledger {
    /// The rows, names as byte sequences, in insertion order.
    pub closed spec fn rows(&self) -> Seq<(Seq<u8>, u32)> {
        Seq::new(self.entries@.len(), |i: int| (self.entries@[i].0@, self.entries@[i].1))
    }

    /// The map this ledger denotes.
    pub open spec fn counts(&self) -> Map<Seq<u8>, int> {
        assoc_map(self.rows())
    }

    pub open spec fn wf(&self) -> bool {
        unique_keys(self.rows())
    }

    pub fn new() -> (r: Self)
        ensures
            r.wf(),
            r.rows() == Seq::<(Seq<u8>, u32)>::empty(),
            r.counts() == Map::<Seq<u8>, int>::empty(),
    {
        let r = Ledger { entries: Vec::new() };
        proof {
            assert(r.rows() =~= Seq::<(Seq<u8>, u32)>::empty());
        }
        r
    }

    pub fn len(&self) -> (n: usize)
        ensures
            n == self.rows().len(),
    {
        self.entries.len()
    }

    /// The name in row `i`.
    pub fn name_at(&self, i: usize) -> (r: &Vec<u8>)
        requires
            i < self.rows().len(),
        ensures
            r@ == self.rows()[i as int].0,
    {
        &self.entries[i].0
    }

    /// The count in row `i`.
    pub fn count_at(&self, i: usize) -> (r: u32)
        requires
            i < self.rows().len(),
        ensures
            r == self.rows()[i as int].1,
    {
        self.entries[i].1
    }

    /// Whether `name` has a row.
    pub fn contains(&self, name: &Vec<u8>) -> (r: bool)
        ensures
            r == self.counts().contains_key(name@),
    {
        let n = self.entries.len();
        let mut i: usize = 0;
        proof {
            lemma_assoc_contains(self.rows(), name@);
        }
        while i < n
            invariant
                0 <= i <= n == self.rows().len(),
                forall|k: int| 0 <= k < i ==> self.rows()[k].0 != name@,
                self.counts().contains_key(name@) <==> exists|k: int|
                    0 <= k < n && self.rows()[k].0 == name@,
            decreases n - i,
        {
            if bytes_eq(&self.entries[i].0, name) {
                assert(self.rows()[i as int].0 == name@);
                return true;
            }
            i += 1;
        }
        false
    }

    /// Credit one game to `name`: a fresh row with count 1, or an existing
    /// row's count raised by one.
    pub fn bump(&mut self, name: &Vec<u8>)
        requires
            old(self).wf(),
            old(self).counts().contains_key(name@) ==> old(self).counts()[name@] < 0xFFFF_FFFFint,
        ensures
            final(self).wf(),
            final(self).counts() == bump_spec(old(self).counts(), name@),
            final(self).rows().len() <= old(self).rows().len() + 1,
            (forall|k: Seq<u8>|
                final(self).counts().contains_key(k) ==> old(self).counts().contains_key(k) || k
                    == name@),
    {
        let ghost rows0 = self.rows();
        let n = self.entries.len();
        let mut i: usize = 0;
        proof {
            lemma_assoc_contains(rows0, name@);
        }
        while i < n
            invariant
                0 <= i <= n == self.rows().len(),
                self.wf(),
                self.rows() == rows0,
                rows0 == old(self).rows(),
                old(self).counts().contains_key(name@) ==> old(self).counts()[name@]
                    < 0xFFFF_FFFFint,
                self.counts() == old(self).counts(),
                (self.counts().contains_key(name@) <==> exists|k: int|
                    0 <= k < n && rows0[k].0 == name@),
                forall|k: int| 0 <= k < i ==> rows0[k].0 != name@,
            decreases n - i,
        {
            if bytes_eq(&self.entries[i].0, name) {
                proof {
                    assert(rows0[i as int].0 == name@);
                    lemma_assoc_value(rows0, i as int);
                }
                let c = self.entries[i].1;
                self.entries[i].1 = c + 1;
                proof {
                    assert(self.rows() =~= rows0.update(i as int, (name@, (c + 1) as u32)));
                    lemma_assoc_update(rows0, i as int, (c + 1) as u32);
                    assert forall|a: int, b: int|
                        0 <= a < b < self.rows().len() implies self.rows()[a].0
                        != self.rows()[b].0 by {
                        assert(self.rows()[a].0 == rows0[a].0);
                        assert(self.rows()[b].0 == rows0[b].0);
                    }
                    assert(final(self).counts() =~= bump_spec(old(self).counts(), name@));
                }
                return ;
            }
            i += 1;
        }
        // name has no row yet
        let mut key: Vec<u8> = Vec::new();
        append_bytes(&mut key, name);
        self.entries.push((key, 1));
        proof {
            assert(self.rows() =~= rows0.push((name@, 1u32)));
            assert(self.rows().drop_last() =~= rows0);
            assert(!old(self).counts().contains_key(name@));
            assert(final(self).counts() =~= bump_spec(old(self).counts(), name@));
            assert forall|a: int, b: int|
                0 <= a < b < self.rows().len() implies self.rows()[a].0 != self.rows()[b].0 by {
                if b < self.rows().len() - 1 {
                    assert(self.rows()[a].0 == rows0[a].0);
                    assert(self.rows()[b].0 == rows0[b].0);
                } else {
                    assert(self.rows()[a].0 == rows0[a].0);
                    assert(rows0[a].0 != name@);
                }
            }
        }
    }

    /// Credit one game to `name`, saturating at `u32::MAX`: usable on
    /// any ledger, however many records a stream has already fed it.
    pub fn bump_capped(&mut self, name: &Vec<u8>)
        requires
            old(self).wf(),
        ensures
            final(self).wf(),
            final(self).counts() == bump_capped_spec(old(self).counts(), name@),
    {
        let ghost rows0 = self.rows();
        let n = self.entries.len();
        let mut i: usize = 0;
        proof {
            lemma_assoc_contains(rows0, name@);
        }
        while i < n
            invariant
                0 <= i <= n == self.rows().len(),
                self.wf(),
                self.rows() == rows0,
                rows0 == old(self).rows(),
                self.counts() == old(self).counts(),
                (self.counts().contains_key(name@) <==> exists|k: int|
                    0 <= k < n && rows0[k].0 == name@),
                forall|k: int| 0 <= k < i ==> rows0[k].0 != name@,
            decreases n - i,
        {
            if bytes_eq(&self.entries[i].0, name) {
                proof {
                    assert(rows0[i as int].0 == name@);
                    lemma_assoc_value(rows0, i as int);
                }
                let c = self.entries[i].1;
                if c < 0xFFFF_FFFFu32 {
                    self.entries[i].1 = c + 1;
                    proof {
                        assert(self.rows() =~= rows0.update(i as int, (name@, (c + 1) as u32)));
                        lemma_assoc_update(rows0, i as int, (c + 1) as u32);
                        assert forall|a: int, b: int|
                            0 <= a < b < self.rows().len() implies self.rows()[a].0
                            != self.rows()[b].0 by {
                            assert(self.rows()[a].0 == rows0[a].0);
                            assert(self.rows()[b].0 == rows0[b].0);
                        }
                        assert(final(self).counts() =~= bump_capped_spec(
                            old(self).counts(),
                            name@,
                        ));
                    }
                } else {
                    proof {
                        assert(old(self).counts().insert(name@, c as int) =~= old(self).counts());
                        assert(final(self).counts() =~= bump_capped_spec(
                            old(self).counts(),
                            name@,
                        ));
                    }
                }
                return ;
            }
            i += 1;
        }
        // name has no row yet
        let mut key: Vec<u8> = Vec::new();
        append_bytes(&mut key, name);
        self.entries.push((key, 1));
        proof {
            assert(self.rows() =~= rows0.push((name@, 1u32)));
            assert(self.rows().drop_last() =~= rows0);
            assert(!old(self).counts().contains_key(name@));
            assert(final(self).counts() =~= bump_capped_spec(old(self).counts(), name@));
            assert forall|a: int, b: int|
                0 <= a < b < self.rows().len() implies self.rows()[a].0 != self.rows()[b].0 by {
                if b < self.rows().len() - 1 {
                    assert(self.rows()[a].0 == rows0[a].0);
                    assert(self.rows()[b].0 == rows0[b].0);
                } else {
                    assert(self.rows()[a].0 == rows0[a].0);
                    assert(rows0[a].0 != name@);
                }
            }
        }
    }

    /// The rows whose count reaches `min`, in order: the qualifying set
    /// with its counts.
    pub fn filter_at_least(&self, min: u32) -> (r: Ledger)
        requires
            self.wf(),
        ensures
            r.wf(),
            r.counts() == filter_min(self.counts(), min as int),
            r.rows().len() <= self.rows().len(),
            r.rows() == self.rows().filter(|p: (Seq<u8>, u32)| p.1 >= min),
    {
        let n = self.entries.len();
        let mut out = Ledger::new();
        let ghost rows = self.rows();
        let mut i: usize = 0;
        while i < n
            invariant
                0 <= i <= n == rows.len(),
                rows == self.rows(),
                self.wf(),
                out.wf(),
                out.rows().len() <= i,
                out.rows() =~= rows.take(i as int).filter(|p: (Seq<u8>, u32)| p.1 >= min),
                out.counts() =~= filter_min(assoc_map(rows.take(i as int)), min as int),
                forall|a: int|
                    0 <= a < out.rows().len() ==> exists|s: int|
                        0 <= s < i && (#[trigger] out.rows()[a]).0 == rows[s].0,
            decreases n - i,
        {
            proof {
                lemma_assoc_value(rows, i as int);
                assert(rows.take(i + 1).drop_last() =~= rows.take(i as int));
                reveal(Seq::filter);
            }
            let ghost out0 = out.rows();
            let c = self.entries[i].1;
            if c >= min {
                let mut key: Vec<u8> = Vec::new();
                append_bytes(&mut key, &self.entries[i].0);
                out.entries.push((key, c));
                proof {
                    assert(out.rows() =~= out0.push((rows[i as int].0, rows[i as int].1)));
                }
            }
            proof {
                let m0 = assoc_map(rows.take(i as int));
                let m1 = assoc_map(rows.take(i + 1));
                assert(m1 == m0.insert(rows[i as int].0, rows[i as int].1 as int));
                lemma_assoc_contains(rows.take(i as int), rows[i as int].0);
                assert(forall|k: int|
                    0 <= k < i ==> rows.take(i as int)[k] == rows[k] && rows[k].0 != rows[
                        i as int
                    ].0);
                assert(!m0.contains_key(rows[i as int].0));
                if c >= min {
                    assert(out.rows() =~= rows.take(i + 1).filter(|p: (Seq<u8>, u32)| p.1 >= min));
                    assert(out.rows().drop_last() =~= out0);
                    assert(out.counts() =~= filter_min(m1, min as int));
                    assert forall|a: int|
                        0 <= a < out.rows().len() implies exists|s: int|
                            0 <= s < i + 1 && (#[trigger] out.rows()[a]).0 == rows[s].0 by {
                        if a < out0.len() {
                            assert(out.rows()[a] == out0[a]);
                            let s = choose|s: int| 0 <= s < i && out0[a].0 == rows[s].0;
                            assert(out.rows()[a].0 == rows[s].0);
                        } else {
                            assert(out.rows()[a].0 == rows[i as int].0);
                        }
                    }
                    assert forall|a: int, b: int|
                        0 <= a < b < out.rows().len() implies out.rows()[a].0
                        != out.rows()[b].0 by {
                        if b < out0.len() {
                            assert(out.rows()[a] == out0[a] && out.rows()[b] == out0[b]);
                        } else {
                            assert(out.rows()[b].0 == rows[i as int].0);
                            assert(out.rows()[a] == out0[a]);
                            let s = choose|s: int| 0 <= s < i && out0[a].0 == rows[s].0;
                            assert(rows[s].0 != rows[i as int].0);
                        }
                    }
                } else {
                    assert(out.rows() =~= rows.take(i + 1).filter(|p: (Seq<u8>, u32)| p.1 >= min));
                    assert(out.counts() =~= filter_min(m1, min as int));
                }
            }
            i += 1;
        }
        proof {
            assert(rows.take(n as int) =~= rows);
        }
        out
    }
}

/// Append the bytes of `src` to `dst`.
pub(crate) fn append_bytes(dst: &mut Vec<u8>, src: &Vec<u8>) -> (r: ())
    ensures
        final(dst)@ == old(dst)@ + src@,
{
    let mut i: usize = 0;
    while i < src.len()
        invariant
            0 <= i <= src@.len(),
            dst@ == old(dst)@ + src@.subrange(0, i as int),
        decreases src@.len() - i,
    {
        dst.push(src[i]);
        assert(old(dst)@ + src@.subrange(0, i + 1) =~= (old(dst)@ + src@.subrange(
            0,
            i as int,
        )).push(src@[i as int]));
        i += 1;
    }
    assert(src@.subrange(0, src@.len() as int) =~= src@);
}

/// Byte-for-byte equality of two vectors.
pub fn bytes_eq(a: &Vec<u8>, b: &Vec<u8>) -> (r: bool)
    ensures
        r == (a@ == b@),
{
    if a.len() != b.len() {
        assert(a@ != b@) by {
            assert(a@.len() != b@.len());
        }
        return false;
    }
    let mut i: usize = 0;
    while i < a.len()
        invariant
            0 <= i <= a@.len(),
            a@.len() == b@.len(),
            forall|k: int| 0 <= k < i ==> a@[k] == b@[k],
        decreases a@.len() - i,
    {
        if a[i] != b[i] {
            return false;
        }
        i += 1;
    }
    assert(a@ =~= b@);
    true
}

} // verus!
