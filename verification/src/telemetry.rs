use vstd::prelude::*;
use vstd::slice::slice_to_vec;
use vstd::string::StringSliceAdditionalSpecFns;

verus! {

/// Lexicographic order on byte strings, the order in which protocol names are kept.
pub open spec fn bytes_less(a: Seq<u8>, b: Seq<u8>) -> bool
    decreases a.len(),
{
    if a.len() == 0 {
        b.len() > 0
    } else if b.len() == 0 {
        false
    } else if a[0] < b[0] {
        true
    } else if a[0] > b[0] {
        false
    } else {
        bytes_less(a.drop_first(), b.drop_first())
    }
}

/// `bytes_less` is irreflexive.
pub proof fn lemma_bytes_less_irreflexive(a: Seq<u8>)
    ensures
        !bytes_less(a, a),
    decreases a.len(),
{
    if a.len() > 0 {
        lemma_bytes_less_irreflexive(a.drop_first());
    }
}

/// Any two different byte strings are ordered one way or the other, and not both.
pub proof fn lemma_bytes_less_total(a: Seq<u8>, b: Seq<u8>)
    ensures
        a == b || bytes_less(a, b) || bytes_less(b, a),
        !(bytes_less(a, b) && bytes_less(b, a)),
    decreases a.len(),
{
    if a.len() > 0 && b.len() > 0 {
        lemma_bytes_less_total(a.drop_first(), b.drop_first());
        if a[0] == b[0] && a.drop_first() == b.drop_first() {
            assert(a =~= seq![a[0]] + a.drop_first());
            assert(b =~= seq![b[0]] + b.drop_first());
        }
    } else if a.len() == 0 && b.len() == 0 {
        assert(a =~= b);
    }
}

/// `bytes_less` is transitive.
pub proof fn lemma_bytes_less_transitive(a: Seq<u8>, b: Seq<u8>, c: Seq<u8>)
    requires
        bytes_less(a, b),
        bytes_less(b, c),
    ensures
        bytes_less(a, c),
    decreases a.len(),
{
    if a.len() > 0 && b.len() > 0 && c.len() > 0 {
        if a[0] == b[0] && b[0] == c[0] {
            lemma_bytes_less_transitive(a.drop_first(), b.drop_first(), c.drop_first());
        }
    }
}

/// Whether `a` comes before `b` in lexicographic byte order.
pub fn bytes_lt(a: &[u8], b: &[u8]) -> (r: bool)
    ensures
        r == bytes_less(a@, b@),
{
    let mut i: usize = 0;
    let n = a.len();
    let m = b.len();
    assert(a@.skip(0) =~= a@);
    assert(b@.skip(0) =~= b@);
    while i < n && i < m
        invariant
            i <= n,
            i <= m,
            n == a@.len(),
            m == b@.len(),
            bytes_less(a@, b@) == bytes_less(a@.skip(i as int), b@.skip(i as int)),
        decreases n - i,
    {
        assert(a@.skip(i as int)[0] == a@[i as int]);
        assert(b@.skip(i as int)[0] == b@[i as int]);
        if a[i] < b[i] {
            return true;
        }
        if a[i] > b[i] {
            return false;
        }
        assert(a@.skip(i as int).drop_first() =~= a@.skip(i + 1));
        assert(b@.skip(i as int).drop_first() =~= b@.skip(i + 1));
        i = i + 1;
    }
    i == n && i < m
}

/// The counters kept for one protocol.
#[derive(Clone, Copy)]
pub struct ProtocolTelemetry {
    pub requests: u64,
    pub failures: u64,
    pub total_duration_ns: u64,
    pub request_bytes: u64,
    pub response_bytes: u64,
}

/// All counters at zero.
pub open spec fn zero_counts() -> ProtocolTelemetry {
    ProtocolTelemetry {
        requests: 0,
        failures: 0,
        total_duration_ns: 0,
        request_bytes: 0,
        response_bytes: 0,
    }
}

impl ProtocolTelemetry {
    /// All counters at zero.
    pub fn zero() -> (r: ProtocolTelemetry)
        ensures
            r == zero_counts(),
    {
        ProtocolTelemetry {
            requests: 0,
            failures: 0,
            total_duration_ns: 0,
            request_bytes: 0,
            response_bytes: 0,
        }
    }
}

/// A protocol's name and its counters.
pub struct ProtocolEntry {
    pub name: Vec<u8>,
    pub counts: ProtocolTelemetry,
}

/// The counters of each protocol named in `entries`.
pub open spec fn entries_map(entries: Seq<ProtocolEntry>) -> Map<Seq<u8>, ProtocolTelemetry> {
    Map::new(
        |k: Seq<u8>| exists|i: int| 0 <= i < entries.len() && #[trigger] entries[i].name@ == k,
        |k: Seq<u8>| entries[entry_index(entries, k)].counts,
    )
}

/// The index of an entry named `k`.
pub open spec fn entry_index(entries: Seq<ProtocolEntry>, k: Seq<u8>) -> int {
    choose|i: int| 0 <= i < entries.len() && #[trigger] entries[i].name@ == k
}

/// Whether the names in `entries` are in strictly increasing order.
pub open spec fn sorted_by_name(entries: Seq<ProtocolEntry>) -> bool {
    forall|i: int, j: int|
        0 <= i < j < entries.len() ==> bytes_less(
            #[trigger] entries[i].name@,
            #[trigger] entries[j].name@,
        )
}

/// In a list sorted by name, the entry named `k` is the one at its index.
pub proof fn lemma_entries_map_at(entries: Seq<ProtocolEntry>, i: int)
    requires
        sorted_by_name(entries),
        0 <= i < entries.len(),
    ensures
        entries_map(entries).contains_key(entries[i].name@),
        entries_map(entries)[entries[i].name@] == entries[i].counts,
{
    let k = entries[i].name@;
    assert(entries_map(entries).contains_key(k));
    let j = entry_index(entries, k);
    assert(0 <= j < entries.len() && entries[j].name@ == k);
    if j != i {
        if i < j {
            assert(bytes_less(entries[i].name@, entries[j].name@));
        } else {
            assert(bytes_less(entries[j].name@, entries[i].name@));
        }
        lemma_bytes_less_irreflexive(k);
    }
    assert(entries_map(entries)[k] == entries[j].counts);
}


/// Where `name` belongs in a list sorted by name: every entry before `p` is smaller;
/// `found` says whether the entry at `p` has that name, and otherwise the entry at `p`
/// (if any) is larger.
pub open spec fn is_slot(entries: Seq<ProtocolEntry>, name: Seq<u8>, p: int, found: bool) -> bool {
    &&& 0 <= p <= entries.len()
    &&& forall|i: int| 0 <= i < p ==> bytes_less(#[trigger] entries[i].name@, name)
    &&& found ==> p < entries.len() && entries[p].name@ == name
    &&& !found ==> (p == entries.len() || bytes_less(name, entries[p].name@))
}

/// Finds where `name` belongs in a list sorted by name.
fn find_slot(entries: &Vec<ProtocolEntry>, name: &[u8]) -> (r: (usize, bool))
    requires
        sorted_by_name(entries@),
    ensures
        is_slot(entries@, name@, r.0 as int, r.1),
{
    let n = entries.len();
    let mut i: usize = 0;
    while i < n && bytes_lt(entries[i].name.as_slice(), name)
        invariant
            i <= n,
            n == entries@.len(),
            forall|k: int| 0 <= k < i ==> bytes_less(#[trigger] entries@[k].name@, name@),
        decreases n - i,
    {
        i = i + 1;
    }
    if i < n {
        let same = crate::text::bytes_equal(entries[i].name.as_slice(), name);
        proof {
            lemma_bytes_less_total(entries@[i as int].name@, name@);
        }
        (i, same)
    } else {
        (i, false)
    }
}

/// Inserting a new name at its slot keeps the list sorted and adds the name to the map.
pub proof fn lemma_insert_at_slot(entries: Seq<ProtocolEntry>, p: int, e: ProtocolEntry)
    requires
        sorted_by_name(entries),
        is_slot(entries, e.name@, p, false),
    ensures
        sorted_by_name(entries.insert(p, e)),
        entries_map(entries.insert(p, e)) == entries_map(entries).insert(e.name@, e.counts),
{
    let s2 = entries.insert(p, e);
    assert forall|i: int, j: int| 0 <= i < j < s2.len() implies bytes_less(
        #[trigger] s2[i].name@,
        #[trigger] s2[j].name@,
    ) by {
        if j < p {
        } else if j == p {
            assert(s2[i] == entries[i]);
        } else if i == p {
            assert(s2[j] == entries[j - 1]);
            if j - 1 > p {
                lemma_bytes_less_transitive(e.name@, entries[p].name@, entries[j - 1].name@);
            }
        } else if i < p {
            assert(s2[i] == entries[i]);
            assert(s2[j] == entries[j - 1]);
        } else {
            assert(s2[i] == entries[i - 1]);
            assert(s2[j] == entries[j - 1]);
        }
    }
    let m1 = entries_map(s2);
    let m2 = entries_map(entries).insert(e.name@, e.counts);
    assert forall|k: Seq<u8>| #[trigger] m1.contains_key(k) <==> m2.contains_key(k) by {
        if m1.contains_key(k) {
            let i = choose|i: int| 0 <= i < s2.len() && #[trigger] s2[i].name@ == k;
            if i < p {
                assert(entries[i].name@ == k);
            } else if i > p {
                assert(entries[i - 1].name@ == k);
            }
        }
        if entries_map(entries).contains_key(k) {
            let i = choose|i: int| 0 <= i < entries.len() && #[trigger] entries[i].name@ == k;
            if i < p {
                assert(s2[i].name@ == k);
            } else {
                assert(s2[i + 1].name@ == k);
            }
        }
        if k == e.name@ {
            assert(s2[p].name@ == k);
        }
    }
    assert forall|k: Seq<u8>| #[trigger] m1.contains_key(k) implies m1[k] == m2[k] by {
        let i = choose|i: int| 0 <= i < s2.len() && #[trigger] s2[i].name@ == k;
        lemma_entries_map_at(s2, i);
        if i < p {
            lemma_entries_map_at(entries, i);
            lemma_bytes_less_irreflexive(k);
        } else if i > p {
            lemma_entries_map_at(entries, i - 1);
            lemma_bytes_less_irreflexive(k);
            if i - 1 > p {
                lemma_bytes_less_transitive(e.name@, entries[p].name@, k);
            }
        }
    }
    assert(m1 =~= m2);
}

/// Replacing the entry at the slot of an existing name keeps the list sorted and
/// updates that name in the map.
pub proof fn lemma_update_at_slot(entries: Seq<ProtocolEntry>, p: int, e: ProtocolEntry)
    requires
        sorted_by_name(entries),
        is_slot(entries, e.name@, p, true),
    ensures
        sorted_by_name(entries.update(p, e)),
        entries_map(entries.update(p, e)) == entries_map(entries).insert(e.name@, e.counts),
{
    let s2 = entries.update(p, e);
    assert forall|i: int, j: int| 0 <= i < j < s2.len() implies bytes_less(
        #[trigger] s2[i].name@,
        #[trigger] s2[j].name@,
    ) by {
        assert(s2[i].name@ == entries[i].name@);
        assert(s2[j].name@ == entries[j].name@);
    }
    let m1 = entries_map(s2);
    let m2 = entries_map(entries).insert(e.name@, e.counts);
    assert forall|k: Seq<u8>| #[trigger] m1.contains_key(k) <==> m2.contains_key(k) by {
        if m1.contains_key(k) {
            let i = choose|i: int| 0 <= i < s2.len() && #[trigger] s2[i].name@ == k;
            assert(entries[i].name@ == k);
        }
        if entries_map(entries).contains_key(k) {
            let i = choose|i: int| 0 <= i < entries.len() && #[trigger] entries[i].name@ == k;
            assert(s2[i].name@ == k);
        }
        if k == e.name@ {
            assert(s2[p].name@ == k);
        }
    }
    assert forall|k: Seq<u8>| #[trigger] m1.contains_key(k) implies m1[k] == m2[k] by {
        let i = choose|i: int| 0 <= i < s2.len() && #[trigger] s2[i].name@ == k;
        lemma_entries_map_at(s2, i);
        if i != p {
            lemma_entries_map_at(entries, i);
            if i < p {
                assert(bytes_less(entries[i].name@, entries[p].name@));
            } else {
                assert(bytes_less(entries[p].name@, entries[i].name@));
            }
            lemma_bytes_less_irreflexive(k);
        }
    }
    assert(m1 =~= m2);
}


/// The counters of a protocol, zero when it has none yet.
pub open spec fn counts_or_zero(m: Map<Seq<u8>, ProtocolTelemetry>, name: Seq<u8>) -> ProtocolTelemetry {
    if m.contains_key(name) {
        m[name]
    } else {
        zero_counts()
    }
}

/// Whether one more request fits in the counters `c` without overflow.
pub open spec fn record_fits(
    c: ProtocolTelemetry,
    success: bool,
    duration_ns: u64,
    request_bytes: u64,
    response_bytes: u64,
) -> bool {
    &&& c.requests + 1 <= u64::MAX
    &&& (!success ==> c.failures + 1 <= u64::MAX)
    &&& c.total_duration_ns + duration_ns <= u64::MAX
    &&& c.request_bytes + request_bytes <= u64::MAX
    &&& c.response_bytes + response_bytes <= u64::MAX
}

/// The counters `c` after one more request: one more request, one more failure when it
/// failed, and its duration and byte counts added.
pub open spec fn recorded(
    c: ProtocolTelemetry,
    success: bool,
    duration_ns: u64,
    request_bytes: u64,
    response_bytes: u64,
) -> ProtocolTelemetry {
    ProtocolTelemetry {
        requests: (c.requests + 1) as u64,
        failures: if success {
            c.failures
        } else {
            (c.failures + 1) as u64
        },
        total_duration_ns: (c.total_duration_ns + duration_ns) as u64,
        request_bytes: (c.request_bytes + request_bytes) as u64,
        response_bytes: (c.response_bytes + response_bytes) as u64,
    }
}

/// Adds one request to the counters `c`.
fn add_request(
    c: ProtocolTelemetry,
    success: bool,
    duration_ns: u64,
    request_bytes: u64,
    response_bytes: u64,
) -> (r: ProtocolTelemetry)
    requires
        record_fits(c, success, duration_ns, request_bytes, response_bytes),
    ensures
        r == recorded(c, success, duration_ns, request_bytes, response_bytes),
{
    ProtocolTelemetry {
        requests: c.requests + 1,
        failures: if success {
            c.failures
        } else {
            c.failures + 1
        },
        total_duration_ns: c.total_duration_ns + duration_ns,
        request_bytes: c.request_bytes + request_bytes,
        response_bytes: c.response_bytes + response_bytes,
    }
}

/// The protocols that every snapshot reports, recorded or not.
pub open spec fn default_protocols() -> Seq<Seq<u8>> {
    seq![
        seq![102u8, 105u8, 120u8],
        seq![103u8, 114u8, 112u8, 99u8],
        seq![103u8, 114u8, 97u8, 112u8, 104u8, 113u8, 108u8],
        seq![114u8, 101u8, 115u8, 116u8],
        seq![115u8, 111u8, 97u8, 112u8],
        seq![119u8, 101u8, 98u8, 115u8, 111u8, 99u8, 107u8, 101u8, 116u8],
    ]
}

/// What a snapshot reports: every recorded protocol with its counters, and every
/// default protocol that was not recorded with zero counters.
pub open spec fn snapshot_map(m: Map<Seq<u8>, ProtocolTelemetry>) -> Map<Seq<u8>, ProtocolTelemetry> {
    Map::new(
        |k: Seq<u8>| m.contains_key(k) || default_protocols().contains(k),
        |k: Seq<u8>| counts_or_zero(m, k),
    )
}

/// Per-protocol request counters, kept in a vector sorted by the bytes of the protocol
/// name: the order in which a map keyed by `String` lists its keys. Lookups and
/// insertions compare names byte by byte, so each step has an exact contract over the
/// store's view, which `String` keys in a map would not give.
pub struct TelemetryStore {
    entries: Vec<ProtocolEntry>,
}

impl View for TelemetryStore {
    type V = Map<Seq<u8>, ProtocolTelemetry>;

    closed spec fn view(&self) -> Map<Seq<u8>, ProtocolTelemetry> {
        entries_map(self.entries@)
    }
}

/// A copy of the entry `e`.
fn copy_entry(e: &ProtocolEntry) -> (r: ProtocolEntry)
    ensures
        r.name@ == e.name@,
        r.counts == e.counts,
{
    ProtocolEntry { name: slice_to_vec(e.name.as_slice()), counts: e.counts }
}

/// Whether no entry reports more failures than requests.
pub open spec fn counts_consistent(entries: Seq<ProtocolEntry>) -> bool {
    forall|i: int|
        0 <= i < entries.len() ==> (#[trigger] entries[i]).counts.failures
            <= entries[i].counts.requests
}

/// Whether no protocol in `m` reports more failures than requests.
pub open spec fn map_consistent(m: Map<Seq<u8>, ProtocolTelemetry>) -> bool {
    forall|k: Seq<u8>| #[trigger] m.contains_key(k) ==> m[k].failures <= m[k].requests
}

/// The map of a sorted, consistent list is consistent.
pub proof fn lemma_map_consistent(entries: Seq<ProtocolEntry>)
    requires
        sorted_by_name(entries),
        counts_consistent(entries),
    ensures
        map_consistent(entries_map(entries)),
{
    assert forall|k: Seq<u8>| #[trigger] entries_map(entries).contains_key(k) implies entries_map(
        entries,
    )[k].failures <= entries_map(entries)[k].requests by {
        let i = choose|i: int| 0 <= i < entries.len() && #[trigger] entries[i].name@ == k;
        lemma_entries_map_at(entries, i);
    }
}

/// Adds `name` with zero counters to a sorted list unless it is there already.
fn ensure_present(entries: &mut Vec<ProtocolEntry>, name: Vec<u8>)
    requires
        sorted_by_name(old(entries)@),
        counts_consistent(old(entries)@),
    ensures
        sorted_by_name(final(entries)@),
        counts_consistent(final(entries)@),
        entries_map(final(entries)@) == (if entries_map(old(entries)@).contains_key(name@) {
            entries_map(old(entries)@)
        } else {
            entries_map(old(entries)@).insert(name@, zero_counts())
        }),
{
    let (p, found) = find_slot(entries, name.as_slice());
    if found {
        proof {
            lemma_entries_map_at(entries@, p as int);
        }
    } else {
        proof {
            if entries_map(entries@).contains_key(name@) {
                let i = choose|i: int| 0 <= i < entries@.len() && #[trigger] entries@[i].name@ == name@;
                if i < p {
                    lemma_bytes_less_irreflexive(name@);
                } else if i > p {
                    lemma_bytes_less_transitive(name@, entries@[p as int].name@, name@);
                    lemma_bytes_less_irreflexive(name@);
                } else {
                    lemma_bytes_less_irreflexive(name@);
                }
            }
        }
        let e = ProtocolEntry { name, counts: ProtocolTelemetry::zero() };
        proof {
            lemma_insert_at_slot(entries@, p as int, e);
        }
        let ghost before = entries@;
        entries.insert(p, e);
        assert forall|i: int| 0 <= i < entries@.len() implies (#[trigger] entries@[i]).counts.failures
            <= entries@[i].counts.requests by {
            if i < p {
                assert(entries@[i] == before[i]);
            } else if i > p {
                assert(entries@[i] == before[i - 1]);
            }
        }
    }
}

impl TelemetryStore {
    /// The store's entries are sorted by name, so each name occurs once, and none
    /// reports more failures than requests.
    #[verifier::type_invariant]
    closed spec fn wf(&self) -> bool {
        sorted_by_name(self.entries@) && counts_consistent(self.entries@)
    }

    /// A store with no protocol recorded.
    pub fn new() -> (r: TelemetryStore)
        ensures
            r@ == Map::<Seq<u8>, ProtocolTelemetry>::empty(),
            map_consistent(r@),
    {
        let r = TelemetryStore { entries: Vec::new() };
        assert(r@ =~= Map::<Seq<u8>, ProtocolTelemetry>::empty());
        r
    }

    /// The counters recorded for `protocol`, if any.
    pub fn counts(&self, protocol: &str) -> (r: Option<ProtocolTelemetry>)
        ensures
            r == (if self@.contains_key(protocol.spec_bytes()) {
                Some(self@[protocol.spec_bytes()])
            } else {
                None
            }),
    {
        proof {
            use_type_invariant(self);
        }
        let name = protocol.as_bytes();
        let (p, found) = find_slot(&self.entries, name);
        if found {
            proof {
                lemma_entries_map_at(self.entries@, p as int);
            }
            Some(self.entries[p].counts)
        } else {
            proof {
                if self@.contains_key(name@) {
                    let e = self.entries@;
                    let i = choose|i: int| 0 <= i < e.len() && #[trigger] e[i].name@ == name@;
                    if i > p {
                        lemma_bytes_less_transitive(name@, e[p as int].name@, name@);
                    }
                    lemma_bytes_less_irreflexive(name@);
                }
            }
            None
        }
    }

    /// Whether one more request for `protocol` fits in its counters without overflow.
    pub fn can_record(
        &self,
        protocol: &str,
        success: bool,
        duration_ns: u64,
        request_bytes: u64,
        response_bytes: u64,
    ) -> (r: bool)
        ensures
            r == record_fits(
                counts_or_zero(self@, protocol.spec_bytes()),
                success,
                duration_ns,
                request_bytes,
                response_bytes,
            ),
    {
        let c = match self.counts(protocol) {
            Some(c) => c,
            None => ProtocolTelemetry::zero(),
        };
        c.requests < u64::MAX && (success || c.failures < u64::MAX) && duration_ns <= u64::MAX
            - c.total_duration_ns && request_bytes <= u64::MAX - c.request_bytes && response_bytes
            <= u64::MAX - c.response_bytes
    }

    /// Counts one request for `protocol`: its outcome, duration and sizes.
    pub fn record(
        &mut self,
        protocol: &str,
        success: bool,
        duration_ns: u64,
        request_bytes: u64,
        response_bytes: u64,
    )
        requires
            record_fits(
                counts_or_zero(old(self)@, protocol.spec_bytes()),
                success,
                duration_ns,
                request_bytes,
                response_bytes,
            ),
        ensures
            map_consistent(final(self)@),
            final(self)@ == old(self)@.insert(
                protocol.spec_bytes(),
                recorded(
                    counts_or_zero(old(self)@, protocol.spec_bytes()),
                    success,
                    duration_ns,
                    request_bytes,
                    response_bytes,
                ),
            ),
    {
        proof {
            use_type_invariant(&*self);
        }
        let name = protocol.as_bytes();
        let mut entries: Vec<ProtocolEntry> = Vec::new();
        std::mem::swap(&mut entries, &mut self.entries);
        let (p, found) = find_slot(&entries, name);
        if found {
            proof {
                lemma_entries_map_at(entries@, p as int);
            }
            let c = entries[p].counts;
            let e = ProtocolEntry {
                name: slice_to_vec(name),
                counts: add_request(c, success, duration_ns, request_bytes, response_bytes),
            };
            proof {
                lemma_update_at_slot(entries@, p as int, e);
            }
            entries.set(p, e);
        } else {
            proof {
                if entries_map(entries@).contains_key(name@) {
                    let s = entries@;
                    let i = choose|i: int| 0 <= i < s.len() && #[trigger] s[i].name@ == name@;
                    if i > p {
                        lemma_bytes_less_transitive(name@, s[p as int].name@, name@);
                    }
                    lemma_bytes_less_irreflexive(name@);
                }
            }
            let e = ProtocolEntry {
                name: slice_to_vec(name),
                counts: add_request(
                    ProtocolTelemetry::zero(),
                    success,
                    duration_ns,
                    request_bytes,
                    response_bytes,
                ),
            };
            proof {
                lemma_insert_at_slot(entries@, p as int, e);
            }
            entries.insert(p, e);
        }
        self.entries = entries;
        proof {
            use_type_invariant(&*self);
            lemma_map_consistent(self.entries@);
        }
    }

    /// Every recorded protocol, and every default protocol not yet recorded (with zero
    /// counters), in increasing order of name.
    pub fn snapshot(&self) -> (r: Vec<ProtocolEntry>)
        ensures
            sorted_by_name(r@),
            counts_consistent(r@),
            entries_map(r@) == snapshot_map(self@),
    {
        proof {
            use_type_invariant(self);
        }
        let mut out: Vec<ProtocolEntry> = Vec::new();
        let n = self.entries.len();
        let mut i: usize = 0;
        while i < n
            invariant
                i <= n,
                n == self.entries@.len(),
                sorted_by_name(self.entries@),
                out@.len() == i,
                forall|k: int|
                    0 <= k < i ==> (#[trigger] out@[k]).name@ == self.entries@[k].name@
                        && out@[k].counts == self.entries@[k].counts,
            decreases n - i,
        {
            out.push(copy_entry(&self.entries[i]));
            i = i + 1;
        }
        proof {
            assert forall|a: int, b: int| 0 <= a < b < out@.len() implies bytes_less(
                #[trigger] out@[a].name@,
                #[trigger] out@[b].name@,
            ) by {
                assert(bytes_less(self.entries@[a].name@, self.entries@[b].name@));
            }
            let m1 = entries_map(out@);
            let m2 = entries_map(self.entries@);
            assert forall|k: Seq<u8>| #[trigger] m1.contains_key(k) <==> m2.contains_key(k) by {
                if m1.contains_key(k) {
                    let j = choose|j: int| 0 <= j < out@.len() && #[trigger] out@[j].name@ == k;
                    assert(self.entries@[j].name@ == k);
                }
                if m2.contains_key(k) {
                    let j = choose|j: int| 0 <= j < n && #[trigger] self.entries@[j].name@ == k;
                    assert(out@[j].name@ == k);
                }
            }
            assert forall|k: Seq<u8>| #[trigger] m1.contains_key(k) implies m1[k] == m2[k] by {
                let j = choose|j: int| 0 <= j < out@.len() && #[trigger] out@[j].name@ == k;
                lemma_entries_map_at(out@, j);
                lemma_entries_map_at(self.entries@, j);
            }
            assert(m1 =~= m2);
        }
        ensure_present(&mut out, vec![102u8, 105u8, 120u8]);
        ensure_present(&mut out, vec![103u8, 114u8, 112u8, 99u8]);
        ensure_present(&mut out, vec![103u8, 114u8, 97u8, 112u8, 104u8, 113u8, 108u8]);
        ensure_present(&mut out, vec![114u8, 101u8, 115u8, 116u8]);
        ensure_present(&mut out, vec![115u8, 111u8, 97u8, 112u8]);
        ensure_present(
            &mut out,
            vec![119u8, 101u8, 98u8, 115u8, 111u8, 99u8, 107u8, 101u8, 116u8],
        );
        proof {
            let m = self@;
            let s = snapshot_map(m);
            let r = entries_map(out@);
            let d = default_protocols();
            assert forall|k: Seq<u8>| #[trigger] r.contains_key(k) <==> s.contains_key(k) by {
                if d.contains(k) {
                    let j = choose|j: int| 0 <= j < d.len() && d[j] == k;
                    assert(j == 0 || j == 1 || j == 2 || j == 3 || j == 4 || j == 5);
                }
                if k == d[0] || k == d[1] || k == d[2] || k == d[3] || k == d[4] || k == d[5] {
                    if k == d[0] { assert(d[0] == k); }
                    assert(d.contains(k));
                }
            }
            assert forall|k: Seq<u8>| #[trigger] r.contains_key(k) implies r[k] == s[k] by {
            }
            assert(r =~= s);
        }
        out
    }
}


/// Every snapshot reports each of the six protocols, whether or not anything was
/// recorded for it; one never recorded reports zero counters.
pub proof fn snapshot_reports_every_protocol(m: Map<Seq<u8>, ProtocolTelemetry>, k: int)
    requires
        0 <= k < 6,
    ensures
        snapshot_map(m).contains_key(default_protocols()[k]),
        !m.contains_key(default_protocols()[k]) ==> snapshot_map(m)[default_protocols()[k]]
            == zero_counts(),
{
    assert(default_protocols().contains(default_protocols()[k]));
}

/// Recording a request for a protocol shows in the next snapshot as exactly one more
/// request for that protocol (and one more failure when it failed), with its duration
/// and sizes added, while every other protocol reports what it did before.
pub proof fn record_shows_in_snapshot(
    m: Map<Seq<u8>, ProtocolTelemetry>,
    name: Seq<u8>,
    success: bool,
    duration_ns: u64,
    request_bytes: u64,
    response_bytes: u64,
)
    requires
        record_fits(counts_or_zero(m, name), success, duration_ns, request_bytes, response_bytes),
    ensures
        ({
            let before = counts_or_zero(m, name);
            let after = snapshot_map(
                m.insert(name, recorded(before, success, duration_ns, request_bytes, response_bytes)),
            );
            &&& after.contains_key(name)
            &&& after[name].requests == before.requests + 1
            &&& after[name].failures == before.failures + (if success {
                0int
            } else {
                1int
            })
            &&& after[name].total_duration_ns == before.total_duration_ns + duration_ns
            &&& after[name].request_bytes == before.request_bytes + request_bytes
            &&& after[name].response_bytes == before.response_bytes + response_bytes
            &&& forall|k: Seq<u8>|
                k != name ==> (#[trigger] after.contains_key(k) == snapshot_map(m).contains_key(k)
                    && (after.contains_key(k) ==> after[k] == snapshot_map(m)[k]))
        }),
{
}

/// No protocol ever reports more failures than requests: recording keeps it so.
pub proof fn record_keeps_failures_within_requests(
    m: Map<Seq<u8>, ProtocolTelemetry>,
    name: Seq<u8>,
    success: bool,
    duration_ns: u64,
    request_bytes: u64,
    response_bytes: u64,
)
    requires
        forall|k: Seq<u8>| #[trigger] m.contains_key(k) ==> m[k].failures <= m[k].requests,
        record_fits(counts_or_zero(m, name), success, duration_ns, request_bytes, response_bytes),
    ensures
        ({
            let m2 = m.insert(
                name,
                recorded(counts_or_zero(m, name), success, duration_ns, request_bytes, response_bytes),
            );
            forall|k: Seq<u8>| #[trigger] m2.contains_key(k) ==> m2[k].failures <= m2[k].requests
        }),
{
}


/// One request as it is recorded: its outcome, duration and sizes.
pub struct RequestRecord {
    pub success: bool,
    pub duration_ns: u64,
    pub request_bytes: u64,
    pub response_bytes: u64,
}

/// What `record` makes of the counters in `m` for one request to `name`.
pub open spec fn record_map(
    m: Map<Seq<u8>, ProtocolTelemetry>,
    name: Seq<u8>,
    r: RequestRecord,
) -> Map<Seq<u8>, ProtocolTelemetry> {
    m.insert(
        name,
        recorded(counts_or_zero(m, name), r.success, r.duration_ns, r.request_bytes, r.response_bytes),
    )
}

/// The counters after recording `records`, in order, for `name`.
pub open spec fn replay_map(
    m: Map<Seq<u8>, ProtocolTelemetry>,
    name: Seq<u8>,
    records: Seq<RequestRecord>,
) -> Map<Seq<u8>, ProtocolTelemetry>
    decreases records.len(),
{
    if records.len() == 0 {
        m
    } else {
        record_map(replay_map(m, name, records.drop_last()), name, records.last())
    }
}

/// Whether every record of `records`, in order, fits in the counters of `name`.
pub open spec fn replay_fits(
    m: Map<Seq<u8>, ProtocolTelemetry>,
    name: Seq<u8>,
    records: Seq<RequestRecord>,
) -> bool
    decreases records.len(),
{
    records.len() == 0 || (replay_fits(m, name, records.drop_last()) && {
        let r = records.last();
        record_fits(
            counts_or_zero(replay_map(m, name, records.drop_last()), name),
            r.success,
            r.duration_ns,
            r.request_bytes,
            r.response_bytes,
        )
    })
}

/// How many of `records` failed.
pub open spec fn failed_count(records: Seq<RequestRecord>) -> nat
    decreases records.len(),
{
    if records.len() == 0 {
        0
    } else {
        failed_count(records.drop_last()) + if records.last().success {
            0nat
        } else {
            1nat
        }
    }
}

/// The total duration of `records`.
pub open spec fn duration_sum(records: Seq<RequestRecord>) -> nat
    decreases records.len(),
{
    if records.len() == 0 {
        0
    } else {
        duration_sum(records.drop_last()) + records.last().duration_ns as nat
    }
}

/// The total request size of `records`.
pub open spec fn request_bytes_sum(records: Seq<RequestRecord>) -> nat
    decreases records.len(),
{
    if records.len() == 0 {
        0
    } else {
        request_bytes_sum(records.drop_last()) + records.last().request_bytes as nat
    }
}

/// The total response size of `records`.
pub open spec fn response_bytes_sum(records: Seq<RequestRecord>) -> nat
    decreases records.len(),
{
    if records.len() == 0 {
        0
    } else {
        response_bytes_sum(records.drop_last()) + records.last().response_bytes as nat
    }
}

/// Recording `n` requests for a protocol, when none of the totals overflows, adds `n`
/// to its requests, the number that failed to its failures, and the sums of their
/// durations and sizes to its totals; every other protocol is left as it was.
pub proof fn recording_adds_up(
    m: Map<Seq<u8>, ProtocolTelemetry>,
    name: Seq<u8>,
    records: Seq<RequestRecord>,
)
    requires
        counts_or_zero(m, name).requests + records.len() <= u64::MAX,
        counts_or_zero(m, name).failures + failed_count(records) <= u64::MAX,
        counts_or_zero(m, name).total_duration_ns + duration_sum(records) <= u64::MAX,
        counts_or_zero(m, name).request_bytes + request_bytes_sum(records) <= u64::MAX,
        counts_or_zero(m, name).response_bytes + response_bytes_sum(records) <= u64::MAX,
    ensures
        replay_fits(m, name, records),
        ({
            let c = counts_or_zero(m, name);
            let after = counts_or_zero(replay_map(m, name, records), name);
            &&& after.requests == c.requests + records.len()
            &&& after.failures == c.failures + failed_count(records)
            &&& after.total_duration_ns == c.total_duration_ns + duration_sum(records)
            &&& after.request_bytes == c.request_bytes + request_bytes_sum(records)
            &&& after.response_bytes == c.response_bytes + response_bytes_sum(records)
        }),
        records.len() > 0 ==> replay_map(m, name, records).contains_key(name),
        forall|k: Seq<u8>|
            k != name ==> (#[trigger] replay_map(m, name, records).contains_key(k)
                == m.contains_key(k) && (m.contains_key(k) ==> replay_map(m, name, records)[k]
                == m[k])),
    decreases records.len(),
{
    if records.len() > 0 {
        let init = records.drop_last();
        assert(failed_count(init) <= failed_count(records));
        assert(duration_sum(init) <= duration_sum(records));
        assert(request_bytes_sum(init) <= request_bytes_sum(records));
        assert(response_bytes_sum(init) <= response_bytes_sum(records));
        recording_adds_up(m, name, init);
    }
}


/// The counters after a history of records, each for the protocol it names, applied
/// in order to an empty store.
pub open spec fn history_map(history: Seq<(Seq<u8>, RequestRecord)>) -> Map<Seq<u8>, ProtocolTelemetry>
    decreases history.len(),
{
    if history.len() == 0 {
        Map::empty()
    } else {
        record_map(history_map(history.drop_last()), history.last().0, history.last().1)
    }
}

/// After any history of records, the protocols that have counters are exactly the
/// names recorded.
pub proof fn history_names(history: Seq<(Seq<u8>, RequestRecord)>)
    ensures
        forall|k: Seq<u8>|
            #[trigger] history_map(history).contains_key(k) <==> exists|i: int|
                0 <= i < history.len() && history[i].0 == k,
    decreases history.len(),
{
    if history.len() > 0 {
        let init = history.drop_last();
        history_names(init);
        assert forall|k: Seq<u8>| #[trigger] history_map(history).contains_key(k) <==> exists|i: int|
            0 <= i < history.len() && history[i].0 == k by {
            if history_map(init).contains_key(k) {
                let i = choose|i: int| 0 <= i < init.len() && init[i].0 == k;
                assert(history[i] == init[i]);
            }
            if k == history.last().0 {
                assert(history[history.len() - 1].0 == k);
            }
            if exists|i: int| 0 <= i < history.len() && history[i].0 == k {
                let i = choose|i: int| 0 <= i < history.len() && history[i].0 == k;
                if i < history.len() - 1 {
                    assert(init[i] == history[i]);
                }
            }
        }
    }
}

/// After any history of records, a snapshot lists exactly the six protocols and the
/// names recorded, each once and in increasing byte order (`snapshot` returns a list
/// sorted by name whose map is `snapshot_map`).
pub proof fn snapshot_names_after_history(history: Seq<(Seq<u8>, RequestRecord)>)
    ensures
        forall|k: Seq<u8>|
            #[trigger] snapshot_map(history_map(history)).contains_key(k) <==> (
            default_protocols().contains(k) || exists|i: int|
                0 <= i < history.len() && history[i].0 == k),
{
    history_names(history);
}

} // verus!
