//! The per-station statistics of a whole input, kept in byte-wise key order.
use vstd::prelude::*;
use crate::keys::{compare_keys, key_lt, lemma_key_lt_irreflexive, lemma_key_lt_transitive};
use crate::format::ReportEntry;
use crate::record::{combine, rounded_mean, single, StationRecord, Tally, MAX_TENTHS};

verus! {

/// Statistics by station key.
pub type Tallies = Map<Seq<u8>, Tally>;

/// The statistics after taking in the statistics `t` of more readings for `k`.
pub open spec fn add_tally(m: Tallies, k: Seq<u8>, t: Tally) -> Tallies {
    if m.contains_key(k) {
        m.insert(k, combine(m[k], t))
    } else {
        m.insert(k, t)
    }
}

/// The statistics after one more reading for `k`.
pub open spec fn add_reading(m: Tallies, k: Seq<u8>, v: int) -> Tallies {
    add_tally(m, k, single(v))
}

/// The statistics of two partial inputs taken together: per key, the partial statistics
/// combined.
pub open spec fn merge_tallies(a: Tallies, b: Tallies) -> Tallies {
    Map::new(
        |k: Seq<u8>| a.contains_key(k) || b.contains_key(k),
        |k: Seq<u8>|
            if a.contains_key(k) && b.contains_key(k) {
                combine(a[k], b[k])
            } else if a.contains_key(k) {
                a[k]
            } else {
                b[k]
            },
    )
}

/// The map that a list of entries with distinct keys stands for.
pub open spec fn entries_map(e: Seq<(Seq<u8>, Tally)>) -> Tallies
    decreases e.len(),
{
    if e.len() == 0 {
        Map::empty()
    } else {
        entries_map(e.drop_last()).insert(e.last().0, e.last().1)
    }
}

/// A list of entries in strictly ascending key order has each of its entries in its map, and
/// nothing else.
proof fn lemma_entries_map(e: Seq<(Seq<u8>, Tally)>)
    requires
        strictly_ascending(e.map_values(|x: (Seq<u8>, Tally)| x.0)),
    ensures
        forall|j: int|
            0 <= j < e.len() ==> entries_map(e).contains_key(#[trigger] e[j].0) && entries_map(e)[e[j].0]
                == e[j].1,
        forall|k: Seq<u8>| #[trigger]
            entries_map(e).contains_key(k) ==> exists|j: int| 0 <= j < e.len() && e[j].0 == k,
    decreases e.len(),
{
    if e.len() > 0 {
        let d = e.drop_last();
        let ks = e.map_values(|x: (Seq<u8>, Tally)| x.0);
        assert(d.map_values(|x: (Seq<u8>, Tally)| x.0) =~= ks.drop_last());
        lemma_entries_map(d);
        assert(entries_map(e) == entries_map(d).insert(e.last().0, e.last().1));
        assert forall|j: int| 0 <= j < e.len() - 1 implies e[j].0 != e.last().0 by {
            assert(key_lt(ks[j], ks[e.len() - 1]));
            lemma_key_lt_irreflexive(e.last().0);
        }
        assert forall|j: int| 0 <= j < e.len() implies entries_map(e).contains_key(#[trigger] e[j].0)
            && entries_map(e)[e[j].0] == e[j].1 by {
            if j < e.len() - 1 {
                assert(d[j] == e[j]);
            }
        }
        assert forall|k: Seq<u8>| #[trigger] entries_map(e).contains_key(k) implies exists|j: int|
            0 <= j < e.len() && e[j].0 == k by {
            if k != e.last().0 {
                assert(entries_map(d).contains_key(k));
                let j = choose|j: int| 0 <= j < d.len() && d[j].0 == k;
                assert(e[j].0 == k);
            } else {
                assert(e[e.len() - 1].0 == k);
            }
        }
    }
}

/// Keys are strictly ascending, hence distinct.
pub open spec fn strictly_ascending(keys: Seq<Seq<u8>>) -> bool {
    forall|i: int, j: int| 0 <= i < j < keys.len() ==> key_lt(#[trigger] keys[i], #[trigger] keys[j])
}

/// `entries` lists exactly the stations of `m`, each with its statistics, in strictly
/// ascending key order.
pub open spec fn represents(entries: Seq<(Seq<u8>, Tally)>, m: Tallies) -> bool {
    &&& strictly_ascending(entries.map_values(|e: (Seq<u8>, Tally)| e.0))
    &&& forall|i: int|
        0 <= i < entries.len() ==> m.contains_key(#[trigger] entries[i].0) && m[entries[i].0]
            == entries[i].1
    &&& forall|k: Seq<u8>| #[trigger]
        m.contains_key(k) ==> exists|i: int| 0 <= i < entries.len() && entries[i].0 == k
}

/// The stations of `m` with their statistics, in ascending key order.
pub open spec fn sorted_entries(m: Tallies) -> Seq<(Seq<u8>, Tally)> {
    choose|e: Seq<(Seq<u8>, Tally)>| represents(e, m)
}

/// A report row: key, minimum, rounded mean and maximum.
pub open spec fn row_of(e: (Seq<u8>, Tally)) -> (Seq<u8>, int, int, int) {
    (e.0, e.1.min, rounded_mean(e.1.sum, e.1.count), e.1.max)
}

pub open spec fn row_view(e: ReportEntry) -> (Seq<u8>, int, int, int) {
    (e.key@, e.min as int, e.mean as int, e.max as int)
}

/// The report rows of `m`, in ascending key order.
pub open spec fn report_rows(m: Tallies) -> Seq<(Seq<u8>, int, int, int)> {
    sorted_entries(m).map_values(|e: (Seq<u8>, Tally)| row_of(e))
}

/// At most one entry sequence represents a map.
pub proof fn lemma_represents_unique(e1: Seq<(Seq<u8>, Tally)>, e2: Seq<(Seq<u8>, Tally)>, m: Tallies)
    requires
        represents(e1, m),
        represents(e2, m),
    ensures
        e1 == e2,
    decreases e1.len(),
{
    let k1 = e1.map_values(|e: (Seq<u8>, Tally)| e.0);
    let k2 = e2.map_values(|e: (Seq<u8>, Tally)| e.0);
    if e1.len() == 0 {
        if e2.len() > 0 {
            assert(m.contains_key(e2[0].0));
        }
        assert(e1 =~= e2);
    } else {
        assert(m.contains_key(e1[0].0));
        assert(e2.len() > 0);
        assert(m.contains_key(e2[0].0));
        let a = e1[0].0;
        let b = e2[0].0;
        let j = choose|j: int| 0 <= j < e2.len() && e2[j].0 == a;
        let i = choose|i: int| 0 <= i < e1.len() && e1[i].0 == b;
        if i > 0 && j > 0 {
            assert(key_lt(k1[0], k1[i]));
            assert(key_lt(k2[0], k2[j]));
            lemma_key_lt_transitive(a, b, a);
            lemma_key_lt_irreflexive(a);
        }
        let m2 = m.remove(a);
        let t1 = e1.drop_first();
        let t2 = e2.drop_first();
        assert(t1.map_values(|e: (Seq<u8>, Tally)| e.0) =~= k1.drop_first());
        assert(t2.map_values(|e: (Seq<u8>, Tally)| e.0) =~= k2.drop_first());
        assert forall|x: int| 0 <= x < t1.len() implies m2.contains_key(#[trigger] t1[x].0) && m2[t1[x].0]
            == t1[x].1 by {
            assert(key_lt(k1[0], k1[x + 1]));
            lemma_key_lt_irreflexive(a);
        }
        assert forall|x: int| 0 <= x < t2.len() implies m2.contains_key(#[trigger] t2[x].0) && m2[t2[x].0]
            == t2[x].1 by {
            assert(key_lt(k2[0], k2[x + 1]));
            lemma_key_lt_irreflexive(a);
        }
        assert forall|k: Seq<u8>| #[trigger] m2.contains_key(k) implies exists|x: int|
            0 <= x < t1.len() && t1[x].0 == k by {
            assert(m.contains_key(k));
            let x = choose|x: int| 0 <= x < e1.len() && e1[x].0 == k;
            assert(t1[x - 1].0 == k);
        }
        assert forall|k: Seq<u8>| #[trigger] m2.contains_key(k) implies exists|x: int|
            0 <= x < t2.len() && t2[x].0 == k by {
            assert(m.contains_key(k));
            let x = choose|x: int| 0 <= x < e2.len() && e2[x].0 == k;
            assert(t2[x - 1].0 == k);
        }
        lemma_represents_unique(t1, t2, m2);
        assert(e1 =~= e2) by {
            assert(e1 =~= seq![e1[0]] + t1);
            assert(e2 =~= seq![e2[0]] + t2);
        }
    }
}

/// Sorted statistics of several stations.
pub struct Aggregator {
    keys: Vec<Vec<u8>>,
    records: Vec<StationRecord>,
    total: u64,
}

impl Aggregator {
    pub closed spec fn key_seq(&self) -> Seq<Seq<u8>> {
        self.keys@.map_values(|k: Vec<u8>| k@)
    }

    /// The number of readings taken in so far.
    pub closed spec fn total(&self) -> int {
        self.total as int
    }

    pub closed spec fn wf(&self) -> bool {
        &&& self.keys@.len() == self.records@.len()
        &&& strictly_ascending(self.key_seq())
        &&& forall|i: int|
            0 <= i < self.records@.len() ==> (#[trigger] self.records@[i]).wf()
                && self.records@[i].count <= self.total
    }

    spec fn holds_key(&self, k: Seq<u8>) -> bool {
        exists|i: int| 0 <= i < self.keys@.len() && self.keys@[i]@ == k
    }

    spec fn index_of(&self, k: Seq<u8>) -> int {
        choose|i: int| 0 <= i < self.keys@.len() && self.keys@[i]@ == k
    }
}

impl View for Aggregator {
    type V = Tallies;

    closed spec fn view(&self) -> Tallies {
        Map::new(|k: Seq<u8>| self.holds_key(k), |k: Seq<u8>| self.records@[self.index_of(k)]@)
    }
}

/// In a strictly ascending sequence a key stands at one place only.
proof fn lemma_unique_position(keys: Seq<Seq<u8>>, i: int, j: int)
    requires
        strictly_ascending(keys),
        0 <= i < keys.len(),
        0 <= j < keys.len(),
        keys[i] == keys[j],
    ensures
        i == j,
{
    lemma_key_lt_irreflexive(keys[i]);
    if i < j {
        assert(key_lt(keys[i], keys[j]));
    } else if j < i {
        assert(key_lt(keys[j], keys[i]));
    }
}

impl Aggregator {
    /// The statistics kept for the station at position `i`.
    proof fn lemma_view_at(&self, i: int)
        requires
            self.wf(),
            0 <= i < self.keys@.len(),
        ensures
            self@.contains_key(self.keys@[i]@),
            self@[self.keys@[i]@] == self.records@[i]@,
            self.key_seq()[i] == self.keys@[i]@,
    {
        let k = self.keys@[i]@;
        assert(self.holds_key(k));
        let j = self.index_of(k);
        assert(self.key_seq()[i] == k && self.key_seq()[j] == k);
        lemma_unique_position(self.key_seq(), i, j);
    }

    /// The stations held, with their statistics, in key order.
    pub closed spec fn entries(&self) -> Seq<(Seq<u8>, Tally)> {
        Seq::new(self.keys@.len() as nat, |i: int| (self.keys@[i]@, self.records@[i]@))
    }

    /// The held entries are the sorted entries of the view.
    proof fn lemma_entries(&self)
        requires
            self.wf(),
        ensures
            represents(self.entries(), self@),
            sorted_entries(self@) == self.entries(),
    {
        let e = self.entries();
        assert(e.map_values(|e: (Seq<u8>, Tally)| e.0) =~= self.key_seq());
        assert forall|i: int| 0 <= i < e.len() implies self@.contains_key(#[trigger] e[i].0)
            && self@[e[i].0] == e[i].1 by {
            self.lemma_view_at(i);
        }
        assert forall|k: Seq<u8>| #[trigger] self@.contains_key(k) implies exists|i: int|
            0 <= i < e.len() && e[i].0 == k by {
            let i = choose|i: int| 0 <= i < self.keys@.len() && self.keys@[i]@ == k;
            assert(e[i].0 == k);
        }
        assert(represents(e, self@));
        lemma_represents_unique(sorted_entries(self@), e, self@);
    }

    /// The report rows of all stations, in strictly ascending key order.
    pub fn drain(&self) -> (r: Vec<ReportEntry>)
        requires
            self.wf(),
        ensures
            r@.map_values(|e: ReportEntry| row_view(e)) == report_rows(self@),
            strictly_ascending(r@.map_values(|e: ReportEntry| e.key@)),
    {
        proof {
            self.lemma_entries();
        }
        let mut out: Vec<ReportEntry> = Vec::new();
        let mut i: usize = 0;
        while i < self.keys.len()
            invariant
                self.wf(),
                i <= self.keys@.len(),
                out@.len() == i,
                forall|j: int| 0 <= j < i ==> row_view(#[trigger] out@[j]) == row_of(self.entries()[j]),
            decreases self.keys@.len() - i,
        {
            let r = self.records[i];
            let mean = r.mean();
            out.push(ReportEntry { key: self.keys[i].clone(), min: r.min, mean, max: r.max });
            i = i + 1;
        }
        assert(out@.map_values(|e: ReportEntry| row_view(e)) =~= report_rows(self@));
        assert(out@.map_values(|e: ReportEntry| e.key@) =~= self.key_seq());
        out
    }

    /// An aggregator holding no station.
    pub fn new() -> (r: Aggregator)
        ensures
            r.wf(),
            r@ == Map::<Seq<u8>, Tally>::empty(),
            r.total() == 0,
    {
        let r = Aggregator { keys: Vec::new(), records: Vec::new(), total: 0 };
        assert(r@ =~= Map::<Seq<u8>, Tally>::empty());
        r
    }

    /// The number of stations held.
    pub fn len(&self) -> (r: usize)
        requires
            self.wf(),
        ensures
            r == self@.dom().len(),
    {
        proof {
            self.lemma_dom_len();
        }
        self.keys.len()
    }

    proof fn lemma_dom_len(&self)
        requires
            self.wf(),
        ensures
            self@.dom().len() == self.keys@.len(),
            self@.dom() == self.key_seq().to_set(),
    {
        assert forall|k: Seq<u8>| self@.dom().contains(k) <==> self.key_seq().to_set().contains(k) by {
            if self.holds_key(k) {
                let i = choose|i: int| 0 <= i < self.keys@.len() && self.keys@[i]@ == k;
                assert(self.key_seq()[i] == k);
            }
            if self.key_seq().to_set().contains(k) {
                let i = choose|i: int| 0 <= i < self.key_seq().len() && self.key_seq()[i] == k;
                assert(self.keys@[i]@ == k);
            }
        }
        assert(self@.dom() =~= self.key_seq().to_set());
        assert(self.key_seq().no_duplicates()) by {
            assert forall|i: int, j: int|
                0 <= i < self.key_seq().len() && 0 <= j < self.key_seq().len() && i != j implies
                self.key_seq()[i] != self.key_seq()[j] by {
                if self.key_seq()[i] == self.key_seq()[j] {
                    lemma_unique_position(self.key_seq(), i, j);
                }
            }
        }
        self.key_seq().unique_seq_to_set();
    }

    /// Where `key` stands, or would be inserted, in the key order.
    fn find(&self, key: &[u8]) -> (r: (bool, usize))
        requires
            self.wf(),
        ensures
            r.1 <= self.keys@.len(),
            forall|i: int| 0 <= i < r.1 ==> key_lt(#[trigger] self.key_seq()[i], key@),
            r.0 ==> r.1 < self.keys@.len() && self.key_seq()[r.1 as int] == key@,
            !r.0 ==> forall|i: int|
                r.1 <= i < self.keys@.len() ==> key_lt(key@, #[trigger] self.key_seq()[i]),
    {
        let mut lo: usize = 0;
        let mut hi: usize = self.keys.len();
        while lo < hi
            invariant
                self.wf(),
                lo <= hi <= self.keys@.len(),
                forall|i: int| 0 <= i < lo ==> key_lt(#[trigger] self.key_seq()[i], key@),
                forall|i: int|
                    hi <= i < self.keys@.len() ==> key_lt(key@, #[trigger] self.key_seq()[i]),
            decreases hi - lo,
        {
            let mid = lo + (hi - lo) / 2;
            let ghost km = self.key_seq()[mid as int];
            assert(km == self.keys@[mid as int]@);
            match compare_keys(self.keys[mid].as_slice(), key) {
                core::cmp::Ordering::Less => {
                    assert forall|i: int| 0 <= i < mid + 1 implies key_lt(
                        #[trigger] self.key_seq()[i],
                        key@,
                    ) by {
                        if i < mid {
                            lemma_key_lt_transitive(self.key_seq()[i], km, key@);
                        }
                    }
                    lo = mid + 1;
                },
                core::cmp::Ordering::Greater => {
                    assert forall|i: int| mid <= i < self.keys@.len() implies key_lt(
                        key@,
                        #[trigger] self.key_seq()[i],
                    ) by {
                        if i > mid {
                            lemma_key_lt_transitive(key@, km, self.key_seq()[i]);
                        }
                    }
                    hi = mid;
                },
                core::cmp::Ordering::Equal => {
                    return (true, mid);
                },
            }
        }
        (false, lo)
    }

    /// Takes in the statistics of more readings for station `key`.
    fn absorb(&mut self, key: Vec<u8>, rec: StationRecord)
        requires
            old(self).wf(),
            rec.wf(),
            rec.count <= old(self).total,
            old(self)@.contains_key(key@) ==> old(self)@[key@].count + rec.count <= old(self).total,
        ensures
            final(self).wf(),
            final(self)@ == add_tally(old(self)@, key@, rec@),
            final(self).total == old(self).total,
    {
        let ghost pre = *self;
        let (found, p) = self.find(key.as_slice());
        if found {
            proof {
                pre.lemma_view_at(p as int);
            }
            let mut r = self.records[p];
            r.merge(&rec);
            self.records.set(p, r);
            proof {
                assert(self.key_seq() =~= pre.key_seq());
                assert forall|k: Seq<u8>| self.holds_key(k) == pre.holds_key(k) by {
                    if self.holds_key(k) {
                        let i = choose|i: int| 0 <= i < self.keys@.len() && self.keys@[i]@ == k;
                        assert(pre.keys@[i]@ == k);
                    }
                }
                assert forall|k: Seq<u8>| #[trigger] self.holds_key(k) implies self.records@[self.index_of(k)]@
                    == add_tally(pre@, key@, rec@)[k] by {
                    let i = self.index_of(k);
                    let j = pre.index_of(k);
                    assert(self.key_seq()[i] == k && pre.key_seq()[j] == k);
                    lemma_unique_position(pre.key_seq(), i, j);
                    if k == key@ {
                        lemma_unique_position(pre.key_seq(), i, p as int);
                    } else {
                        assert(i != p);
                        pre.lemma_view_at(i);
                    }
                }
                assert(self@ =~= add_tally(pre@, key@, rec@));
            }
        } else {
            let r = rec;
            self.keys.insert(p, key);
            self.records.insert(p, r);
            proof {
                let nk = key@;
                assert(self.key_seq() =~= pre.key_seq().insert(p as int, nk));
                assert(!pre.holds_key(nk)) by {
                    if pre.holds_key(nk) {
                        let i = choose|i: int| 0 <= i < pre.keys@.len() && pre.keys@[i]@ == nk;
                        assert(pre.key_seq()[i] == nk);
                        lemma_key_lt_irreflexive(nk);
                    }
                }
                assert forall|k: Seq<u8>| self.holds_key(k) == (pre.holds_key(k) || k == nk) by {
                    if self.holds_key(k) {
                        let i = choose|i: int| 0 <= i < self.keys@.len() && self.keys@[i]@ == k;
                        if i < p {
                            assert(pre.keys@[i]@ == k);
                        } else if i > p {
                            assert(pre.keys@[i - 1]@ == k);
                        }
                    }
                    if pre.holds_key(k) {
                        let i = choose|i: int| 0 <= i < pre.keys@.len() && pre.keys@[i]@ == k;
                        if i < p {
                            assert(self.keys@[i]@ == k);
                        } else {
                            assert(self.keys@[i + 1]@ == k);
                        }
                    }
                    if k == nk {
                        assert(self.keys@[p as int]@ == k);
                    }
                }
                assert forall|k: Seq<u8>| #[trigger] self.holds_key(k) implies self.records@[self.index_of(k)]@
                    == add_tally(pre@, nk, rec@)[k] by {
                    let i = self.index_of(k);
                    assert(self.key_seq()[i] == k);
                    if i < p {
                        pre.lemma_view_at(i);
                    } else if i > p {
                        pre.lemma_view_at(i - 1);
                    }
                }
                assert(self@ =~= add_tally(pre@, nk, rec@));
            }
        }
    }

    /// Takes in one reading for station `key`.
    pub fn observe(&mut self, key: Vec<u8>, tenths: i64)
        requires
            old(self).wf(),
            -MAX_TENTHS <= tenths <= MAX_TENTHS,
            old(self).total() < u64::MAX,
        ensures
            final(self).wf(),
            final(self)@ == add_reading(old(self)@, key@, tenths as int),
            final(self).total() == old(self).total() + 1,
    {
        proof {
            self.lemma_counts_bounded();
        }
        self.total = self.total + 1;
        let rec = StationRecord::new(tenths);
        proof {
            assert(self@ =~= old(self)@);
        }
        self.absorb(key, rec);
    }

    /// Every station's count is at most the number of readings taken in.
    proof fn lemma_counts_bounded(&self)
        requires
            self.wf(),
        ensures
            forall|k: Seq<u8>| #[trigger] self@.contains_key(k) ==> self@[k].count <= self.total,
    {
        assert forall|k: Seq<u8>| #[trigger] self@.contains_key(k) implies self@[k].count <= self.total by {
            let i = self.index_of(k);
            assert(self.records@[i].count <= self.total);
        }
    }

    /// The statistics held for `key`, if any.
    pub fn get(&self, key: &[u8]) -> (r: Option<StationRecord>)
        requires
            self.wf(),
        ensures
            r is Some == self@.contains_key(key@),
            r is Some ==> r.unwrap()@ == self@[key@] && r.unwrap().wf(),
    {
        let (found, p) = self.find(key);
        if found {
            proof {
                self.lemma_view_at(p as int);
            }
            Some(self.records[p])
        } else {
            proof {
                if self@.contains_key(key@) {
                    let i = self.index_of(key@);
                    assert(self.key_seq()[i] == key@);
                    if i < p {
                        assert(key_lt(self.key_seq()[i], key@));
                    } else {
                        assert(key_lt(key@, self.key_seq()[i]));
                    }
                    lemma_key_lt_irreflexive(key@);
                }
            }
            None
        }
    }

    /// Takes in the statistics of another aggregator: afterwards each key holds the combined
    /// statistics of both.
    pub fn merge(&mut self, other: &Aggregator)
        requires
            old(self).wf(),
            other.wf(),
            old(self).total() + other.total() <= u64::MAX,
        ensures
            final(self).wf(),
            final(self)@ == merge_tallies(old(self)@, other@),
            final(self).total() == old(self).total() + other.total(),
    {
        let ghost start = *self;
        let ghost es = other.entries();
        proof {
            self.lemma_counts_bounded();
            other.lemma_entries();
            assert(merge_tallies(start@, entries_map(es.take(0))) =~= start@);
        }
        self.total = self.total + other.total;
        proof {
            assert(self@ =~= start@);
        }
        let mut i: usize = 0;
        while i < other.keys.len()
            invariant
                self.wf(),
                other.wf(),
                es == other.entries(),
                represents(es, other@),
                i <= es.len(),
                self.total == start.total + other.total,
                forall|k: Seq<u8>| #[trigger] start@.contains_key(k) ==> start@[k].count <= start.total,
                self@ == merge_tallies(start@, entries_map(es.take(i as int))),
            decreases es.len() - i,
        {
            let key = other.keys[i].clone();
            let rec = other.records[i];
            proof {
                let p = es.take(i as int);
                let ks = es.map_values(|x: (Seq<u8>, Tally)| x.0);
                assert(p.map_values(|x: (Seq<u8>, Tally)| x.0) =~= ks.take(i as int));
                lemma_entries_map(p);
                assert(es[i as int].0 == key@);
                if entries_map(p).contains_key(key@) {
                    let j = choose|j: int| 0 <= j < p.len() && p[j].0 == key@;
                    assert(key_lt(ks[j], ks[i as int]));
                    lemma_key_lt_irreflexive(key@);
                }
                assert(es.take(i as int + 1).drop_last() =~= p);
            }
            self.absorb(key, rec);
            proof {
                assert(self@ =~= merge_tallies(start@, entries_map(es.take(i as int + 1))));
            }
            i = i + 1;
        }
        proof {
            assert(es.take(i as int) =~= es);
            lemma_entries_map(es);
            assert forall|k: Seq<u8>| entries_map(es).contains_key(k) == other@.contains_key(k) by {
                if other@.contains_key(k) {
                    let j = choose|j: int| 0 <= j < es.len() && es[j].0 == k;
                }
            }
            assert(entries_map(es) =~= other@);
        }
    }
}

} // verus!
