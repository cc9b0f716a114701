//! The fingerprint store: a log of (fingerprint, reference) records, read as a
//! map in which a later record for a fingerprint wins over an earlier one.
use vstd::prelude::*;

verus! {

/// Number of bytes of a content fingerprint.
pub const FINGERPRINT_LEN: usize = 64;

/// One persisted mapping from a content fingerprint to an uploaded reference.
#[derive(Clone, Debug)]
pub struct StoreRecord {
    pub hash: Vec<u8>,
    pub url: String,
}

impl StoreRecord {
    pub open spec fn view(&self) -> (Seq<u8>, Seq<char>) {
        (self.hash@, self.url@)
    }

    /// A record whose fingerprint has the fixed width.
    pub open spec fn is_valid(&self) -> bool {
        self.hash@.len() == FINGERPRINT_LEN
    }
}

/// The map that a log of (key, value) pairs describes; later pairs win.
pub open spec fn map_of(log: Seq<(Seq<u8>, Seq<char>)>) -> Map<Seq<u8>, Seq<char>>
    decreases log.len(),
{
    if log.len() == 0 {
        Map::empty()
    } else {
        map_of(log.drop_last()).insert(log.last().0, log.last().1)
    }
}

/// The records of the decodable, valid lines of a store file, in file order.
pub open spec fn valid_entries(lines: Seq<Option<StoreRecord>>) -> Seq<(Seq<u8>, Seq<char>)>
    decreases lines.len(),
{
    if lines.len() == 0 {
        Seq::empty()
    } else {
        let rest = valid_entries(lines.drop_last());
        match lines.last() {
            Some(rec) => if rec.is_valid() {
                rest.push(rec@)
            } else {
                rest
            },
            None => rest,
        }
    }
}

/// The 1-based numbers of the lines of a store file that are skipped.
pub open spec fn skipped_lines(lines: Seq<Option<StoreRecord>>) -> Seq<usize>
    decreases lines.len(),
{
    if lines.len() == 0 {
        Seq::empty()
    } else {
        let rest = skipped_lines(lines.drop_last());
        let ok = match lines.last() {
            Some(rec) => rec.is_valid(),
            None => false,
        };
        if ok {
            rest
        } else {
            rest.push(lines.len() as usize)
        }
    }
}

/// Map of a log in which the key `k` does not occur after position `m`.
pub proof fn lemma_map_of_prefix(log: Seq<(Seq<u8>, Seq<char>)>, m: int, k: Seq<u8>)
    requires
        0 <= m <= log.len(),
        forall|j: int| m <= j < log.len() ==> log[j].0 != k,
    ensures
        map_of(log).contains_key(k) == map_of(log.take(m)).contains_key(k),
        map_of(log).contains_key(k) ==> map_of(log)[k] == map_of(log.take(m))[k],
    decreases log.len(),
{
    if log.len() == m {
        assert(log.take(m) =~= log);
    } else {
        lemma_map_of_prefix(log.drop_last(), m, k);
        assert(log.drop_last().take(m) =~= log.take(m));
    }
}

/// The log of a sequence of valid records.
pub open spec fn records_log(recs: Seq<StoreRecord>) -> Seq<(Seq<u8>, Seq<char>)> {
    recs.map_values(|r: StoreRecord| r@)
}

/// A file made of valid records decodes to the log of those records.
pub proof fn lemma_valid_lines(recs: Seq<StoreRecord>)
    requires
        forall|i: int| 0 <= i < recs.len() ==> #[trigger] recs[i].is_valid(),
    ensures
        valid_entries(recs.map_values(|r: StoreRecord| Some(r))) == records_log(recs),
    decreases recs.len(),
{
    let lines = recs.map_values(|r: StoreRecord| Some(r));
    if recs.len() > 0 {
        let d = recs.drop_last();
        assert forall|i: int| 0 <= i < d.len() implies #[trigger] d[i].is_valid() by {
            assert(d[i] == recs[i]);
        }
        lemma_valid_lines(d);
        assert(lines.drop_last() =~= d.map_values(|r: StoreRecord| Some(r)));
        assert(records_log(recs) =~= records_log(d).push(recs.last()@));
    } else {
        assert(lines =~= Seq::<Option<StoreRecord>>::empty());
        assert(records_log(recs) =~= Seq::empty());
    }
}

/// What a file loads into is what its first part loads into followed by what
/// the rest loads into.
pub proof fn lemma_valid_entries_concat(a: Seq<Option<StoreRecord>>, b: Seq<Option<StoreRecord>>)
    ensures
        valid_entries(a + b) == valid_entries(a) + valid_entries(b),
    decreases b.len(),
{
    if b.len() == 0 {
        assert(a + b =~= a);
        assert(valid_entries(a) + valid_entries(b) =~= valid_entries(a));
    } else {
        lemma_valid_entries_concat(a, b.drop_last());
        assert((a + b).drop_last() =~= a + b.drop_last());
        assert((a + b).last() == b.last());
        let va = valid_entries(a);
        let vb = valid_entries(b.drop_last());
        match b.last() {
            Some(rec) => if rec.is_valid() {
                assert(va + vb.push(rec@) =~= (va + vb).push(rec@));
            },
            None => {},
        }
    }
}

/// Store round trip: valid records with distinct fingerprints, appended to a
/// store file, load into a store that maps each of their fingerprints to its
/// reference, whatever the file held before.
pub proof fn lemma_store_round_trip(before: Seq<Option<StoreRecord>>, recs: Seq<StoreRecord>)
    requires
        forall|i: int| 0 <= i < recs.len() ==> #[trigger] recs[i].is_valid(),
        forall|i: int, j: int| 0 <= i < j < recs.len() ==> #[trigger] recs[i].hash@ != #[trigger] recs[j].hash@,
    ensures
        forall|i: int|
            0 <= i < recs.len() ==> map_of(valid_entries(before + recs.map_values(|r: StoreRecord| Some(r))))
                .contains_key(#[trigger] recs[i].hash@) && map_of(
                valid_entries(before + recs.map_values(|r: StoreRecord| Some(r))),
            )[recs[i].hash@] == recs[i].url@,
{
    let lines = recs.map_values(|r: StoreRecord| Some(r));
    lemma_valid_lines(recs);
    lemma_valid_entries_concat(before, lines);
    let head = valid_entries(before);
    let log = valid_entries(before + lines);
    assert(log == head + records_log(recs));
    assert forall|i: int| 0 <= i < recs.len() implies map_of(log).contains_key(
        #[trigger] recs[i].hash@,
    ) && map_of(log)[recs[i].hash@] == recs[i].url@ by {
        let k = recs[i].hash@;
        let m = head.len() + i + 1;
        assert forall|j: int| m <= j < log.len() implies log[j].0 != k by {
            assert(log[j] == recs[j - head.len()]@);
        }
        lemma_map_of_prefix(log, m, k);
        assert(log.take(m).drop_last() =~= log.take(m - 1));
        assert(log.take(m).last() == recs[i]@);
    }
}

/// A line that cannot be decoded, or whose fingerprint has the wrong width,
/// changes nothing in what the other lines load into.
pub proof fn lemma_malformed_line_skipped(
    lines: Seq<Option<StoreRecord>>,
    k: int,
    bad: Option<StoreRecord>,
)
    requires
        0 <= k <= lines.len(),
        bad matches Some(r) ==> !r.is_valid(),
    ensures
        valid_entries(lines.insert(k, bad)) == valid_entries(lines),
    decreases lines.len(),
{
    let with = lines.insert(k, bad);
    if k == lines.len() {
        assert(with.drop_last() =~= lines);
    } else {
        lemma_malformed_line_skipped(lines.drop_last(), k, bad);
        assert(with.drop_last() =~= lines.drop_last().insert(k, bad));
        assert(with.last() == lines.last());
    }
}

/// In-memory fingerprint store.
pub struct FingerprintStore {
    log: Vec<StoreRecord>,
}

impl FingerprintStore {
    pub closed spec fn log_view(&self) -> Seq<(Seq<u8>, Seq<char>)> {
        self.log@.map_values(|r: StoreRecord| r@)
    }

    /// The store as a map from fingerprint to reference.
    pub closed spec fn view(&self) -> Map<Seq<u8>, Seq<char>> {
        map_of(self.log_view())
    }

    /// An empty store (no store file yet).
    pub fn new() -> (r: FingerprintStore)
        ensures
            r@ == Map::<Seq<u8>, Seq<char>>::empty(),
    {
        let r = FingerprintStore { log: Vec::new() };
        assert(r.log_view() =~= Seq::empty());
        r
    }

    /// The reference recorded for `hash`, if any.
    pub fn lookup(&self, hash: &Vec<u8>) -> (r: Option<String>)
        ensures
            r is Some <==> self@.contains_key(hash@),
            r matches Some(u) ==> u@ == self@[hash@],
    {
        let ghost log = self.log_view();
        let mut i: usize = self.log.len();
        while i > 0
            invariant
                i <= self.log@.len(),
                log == self.log_view(),
                log.len() == self.log@.len(),
                forall|j: int| i <= j < log.len() ==> log[j].0 != hash@,
            decreases i,
        {
            let e = &self.log[i - 1];
            if bytes_eq(&e.hash, hash) {
                proof {
                    lemma_map_of_prefix(log, i as int, hash@);
                    assert(log.take(i as int).drop_last() =~= log.take(i - 1));
                    assert(log.take(i as int).last() == log[i - 1]);
                }
                return Some(e.url.clone());
            }
            i = i - 1;
        }
        proof {
            lemma_map_of_prefix(log, 0, hash@);
        }
        None
    }

    /// Record a new mapping; it replaces any earlier one for the same hash.
    pub fn insert(&mut self, rec: StoreRecord)
        ensures
            final(self)@ == old(self)@.insert(rec.hash@, rec.url@),
    {
        let ghost old_log = self.log_view();
        self.log.push(rec);
        proof {
            assert(self.log_view().drop_last() =~= old_log);
        }
    }

    /// Build the store from the lines of a store file, each already decoded
    /// (`None` for a line that could not be decoded). Lines that cannot be
    /// decoded or whose fingerprint has the wrong width are skipped; their
    /// 1-based line numbers are returned for warnings.
    pub fn load(lines: Vec<Option<StoreRecord>>) -> (r: (FingerprintStore, Vec<usize>))
        requires
            lines@.len() < usize::MAX,
        ensures
            r.0@ == map_of(valid_entries(lines@)),
            r.1@ == skipped_lines(lines@),
    {
        let mut store = FingerprintStore { log: Vec::new() };
        let mut skipped: Vec<usize> = Vec::new();
        let ghost all = lines@;
        let mut lines = lines;
        let n = lines.len();
        let mut i: usize = 0;
        proof {
            assert(all.take(0) =~= Seq::<Option<StoreRecord>>::empty());
            assert(lines@ =~= all.subrange(0, n as int));
            assert(store.log@ =~= Seq::<StoreRecord>::empty());
            assert(store.log_view() =~= Seq::empty());
        }
        while i < n
            invariant
                n == all.len(),
                n < usize::MAX,
                i <= n,
                lines@ == all.subrange(i as int, n as int),
                store.log_view() == valid_entries(all.take(i as int)),
                skipped@ == skipped_lines(all.take(i as int)),
            decreases n - i,
        {
            let line = lines.remove(0);
            proof {
                assert(line == all[i as int]);
                assert(lines@ =~= all.subrange(i + 1, n as int));
                assert(all.take(i + 1).drop_last() =~= all.take(i as int));
                assert(all.take(i + 1).last() == all[i as int]);
            }
            let ghost old_log = store.log_view();
            match line {
                Some(rec) => {
                    if rec.hash.len() == FINGERPRINT_LEN {
                        store.log.push(rec);
                        proof {
                            assert(store.log_view() =~= old_log.push(rec@));
                        }
                    } else {
                        skipped.push(i + 1);
                    }
                },
                None => {
                    skipped.push(i + 1);
                },
            }
            i = i + 1;
        }
        proof {
            assert(all.take(n as int) =~= all);
        }
        (store, skipped)
    }
}

/// Byte-wise equality of two buffers.
pub fn bytes_eq(a: &Vec<u8>, b: &Vec<u8>) -> (r: bool)
    ensures
        r == (a@ == b@),
{
    if a.len() != b.len() {
        return false;
    }
    let mut i: usize = 0;
    while i < a.len()
        invariant
            a@.len() == b@.len(),
            i <= a@.len(),
            forall|j: int| 0 <= j < i ==> a@[j] == b@[j],
        decreases a@.len() - i,
    {
        if a[i] != b[i] {
            return false;
        }
        i = i + 1;
    }
    assert(a@ =~= b@);
    true
}

} // verus!
