use crate::measurement::{FieldValue, Measurement};
use ckb_types::prelude::{IntoTransactionView, Unpack};
use vstd::prelude::*;

verus! {

/// A pending transaction is reported as awaiting once it has waited longer
/// than this many milliseconds.
pub const AWAIT_THRESHOLD_MS: u64 = 300_000;

/// How often, in milliseconds, the tracked transactions are swept.
pub const SWEEP_INTERVAL_MS: u64 = 60_000;

/// Whether a sweep is due at `now_ms` when the last one ran at
/// `last_sweep_ms`: a full interval has passed since.
pub fn sweep_due(last_sweep_ms: u64, now_ms: u64) -> (r: bool)
    ensures
        r == (elapsed(now_ms, last_sweep_ms) >= SWEEP_INTERVAL_MS),
{
    now_ms.saturating_sub(last_sweep_ms) >= SWEEP_INTERVAL_MS
}

/// Where the node's RPC and subscription endpoints are.
pub struct PoolTransactionConfig {
    pub ckb_rpc_url: String,
    pub ckb_subscribe_url: String,
}

/// A new-transaction notification that does not decode.
#[derive(Debug)]
pub struct PayloadError;

/// The 32-byte hash that identifies a transaction.
#[derive(Clone, Copy, Debug)]
pub struct EntityId {
    pub bytes: [u8; 32],
}

impl View for EntityId {
    type V = Seq<u8>;

    open spec fn view(&self) -> Seq<u8> {
        self.bytes@
    }
}

/// Whether two identifiers hold the same bytes.
pub fn same_id(a: &EntityId, b: &EntityId) -> (r: bool)
    ensures
        r == (a@ == b@),
{
    let mut i: usize = 0;
    while i < 32
        invariant
            i <= 32,
            a@.len() == 32,
            b@.len() == 32,
            forall|j: int| 0 <= j < i ==> a@[j] == b@[j],
        decreases 32 - i,
    {
        if a.bytes[i] != b.bytes[i] {
            return false;
        }
        i = i + 1;
    }
    proof {
        assert(a@ =~= b@);
    }
    true
}

/// One tracked transaction and the instant, in milliseconds since the Unix
/// epoch, at which it was first observed.
#[derive(Clone, Copy)]
pub struct WaitingEntry {
    pub id: EntityId,
    pub observed_at_ms: u64,
}

/// What the node reports of a tracked transaction.
#[derive(Clone, Copy)]
pub enum EntityStatus {
    /// The node does not know the transaction.
    Unknown,
    Pending,
    Proposed,
    /// Committed in a block; the block's timestamp in milliseconds, or `None`
    /// where the block header could not be had.
    Committed(Option<u64>),
}

/// The status of one transaction, as looked up for a sweep.
#[derive(Clone, Copy)]
pub struct StatusReport {
    pub id: EntityId,
    pub status: EntityStatus,
}

/// The terminal events of a tracked transaction.
#[derive(Clone, Copy, Debug, PartialEq, Eq, Structural)]
pub enum PoolEvent {
    Commit,
    Await,
    Disappear,
}

/// A terminal outcome found by a sweep.
#[derive(Clone, Copy, Debug)]
pub struct Settlement {
    pub id: EntityId,
    pub event: PoolEvent,
    /// When the event happened, in milliseconds since the Unix epoch.
    pub time_ms: u64,
    /// How long the transaction was tracked for, in milliseconds.
    pub waiting_ms: u64,
}

/// `a - b`, or zero where `b` is later than `a`.
pub open spec fn elapsed(a: u64, b: u64) -> u64 {
    if a >= b {
        (a - b) as u64
    } else {
        0
    }
}

/// The status that the first report for `id` gives, if any.
pub open spec fn status_for(reports: Seq<StatusReport>, id: Seq<u8>) -> Option<EntityStatus>
    decreases reports.len(),
{
    if reports.len() == 0 {
        None
    } else if reports[0].id@ == id {
        Some(reports[0].status)
    } else {
        status_for(reports.drop_first(), id)
    }
}

/// What a sweep does with a transaction observed at `observed_at`, given its
/// status and the current instant: `None` keeps it tracked, `Some((event,
/// time, waiting))` settles it with that event.
pub open spec fn outcome(observed_at: u64, status: Option<EntityStatus>, now: u64) -> Option<
    (PoolEvent, u64, u64),
> {
    match status {
        None => None,
        Some(EntityStatus::Unknown) => Some(
            (PoolEvent::Disappear, observed_at, elapsed(now, observed_at)),
        ),
        Some(EntityStatus::Pending) | Some(EntityStatus::Proposed) => {
            if elapsed(now, observed_at) > AWAIT_THRESHOLD_MS {
                Some((PoolEvent::Await, observed_at, elapsed(now, observed_at)))
            } else {
                None
            }
        },
        Some(EntityStatus::Committed(None)) => None,
        Some(EntityStatus::Committed(Some(t))) => Some(
            (PoolEvent::Commit, t, elapsed(t, observed_at)),
        ),
    }
}

/// The hash of the transaction that a new-transaction notification carries,
/// or `None` where the notification does not decode.
pub uninterp spec fn pool_entry_hash(payload: Seq<char>) -> Option<Seq<u8>>;

/// Relies on serde_json::from_str to decode ckb_jsonrpc_types::PoolTransactionEntry,
/// and on ckb_types' TransactionView::hash for the transaction's hash.
#[verifier::external_body]
fn decode_pool_entry(payload: &str) -> (r: Option<EntityId>)
    ensures
        r is None <==> pool_entry_hash(payload@) is None,
        r matches Some(id) ==> pool_entry_hash(payload@) == Some(id@),
{
    let entry: ckb_jsonrpc_types::PoolTransactionEntry = serde_json::from_str(payload).ok()?;
    let tx: ckb_types::packed::Transaction = entry.transaction.inner.into();
    let bytes: [u8; 32] = tx.into_view().hash().unpack();
    Some(EntityId { bytes })
}

/// The name of an event as it is tagged.
pub open spec fn event_name(e: PoolEvent) -> Seq<char> {
    match e {
        PoolEvent::Commit => "commit"@,
        PoolEvent::Await => "await"@,
        PoolEvent::Disappear => "disappear"@,
    }
}

/// What a sweep does with one tracked transaction, given the reports.
pub open spec fn entry_outcome(e: WaitingEntry, reports: Seq<StatusReport>, now: u64) -> Option<
    (PoolEvent, u64, u64),
> {
    outcome(e.observed_at_ms, status_for(reports, e.id@), now)
}

/// The waiting table after observing `id` at `now`: a transaction already
/// tracked keeps its first observation.
pub open spec fn observed(waiting: Map<Seq<u8>, u64>, id: Seq<u8>, now: u64) -> Map<Seq<u8>, u64> {
    if waiting.contains_key(id) {
        waiting
    } else {
        waiting.insert(id, now)
    }
}

/// The identifiers of a sequence of tracked transactions, in order.
pub open spec fn id_seq(s: Seq<WaitingEntry>) -> Seq<Seq<u8>> {
    s.map_values(|e: WaitingEntry| e.id@)
}

/// The position of `id` in `s`.
pub open spec fn index_of_id(s: Seq<WaitingEntry>, id: Seq<u8>) -> int {
    choose|j: int| 0 <= j < s.len() && s[j].id@ == id
}

/// The table from identifier to first observation that `s` denotes.
pub open spec fn waiting_of(s: Seq<WaitingEntry>) -> Map<Seq<u8>, u64> {
    Map::new(
        |id: Seq<u8>| exists|j: int| 0 <= j < s.len() && s[j].id@ == id,
        |id: Seq<u8>| s[index_of_id(s, id)].observed_at_ms,
    )
}

proof fn lemma_waiting_at(s: Seq<WaitingEntry>, j: int)
    requires
        id_seq(s).no_duplicates(),
        0 <= j < s.len(),
    ensures
        waiting_of(s).contains_key(s[j].id@),
        waiting_of(s)[s[j].id@] == s[j].observed_at_ms,
{
    let k = s[j].id@;
    assert(exists|x: int| 0 <= x < s.len() && s[x].id@ == k);
    let x = index_of_id(s, k);
    assert(id_seq(s)[x] == s[x].id@);
    assert(id_seq(s)[j] == s[j].id@);
}

proof fn lemma_waiting_domain(s: Seq<WaitingEntry>)
    ensures
        waiting_of(s).dom() == id_seq(s).to_set(),
{
    assert forall|k: Seq<u8>| waiting_of(s).dom().contains(k) implies id_seq(s).to_set().contains(
        k,
    ) by {
        let j = choose|j: int| 0 <= j < s.len() && s[j].id@ == k;
        assert(id_seq(s)[j] == k);
    }
    assert forall|k: Seq<u8>| id_seq(s).to_set().contains(k) implies waiting_of(s).dom().contains(
        k,
    ) by {
        let j = choose|j: int| 0 <= j < id_seq(s).len() && id_seq(s)[j] == k;
        assert(s[j].id@ == k);
    }
    assert(waiting_of(s).dom() =~= id_seq(s).to_set());
}

/// The status that the first report for `id` gives, if any.
pub fn find_status(reports: &Vec<StatusReport>, id: &EntityId) -> (r: Option<EntityStatus>)
    ensures
        r == status_for(reports@, id@),
{
    let n: usize = reports.len();
    let mut i: usize = 0;
    proof {
        assert(reports@.subrange(0, n as int) =~= reports@);
    }
    while i < n
        invariant
            n == reports@.len(),
            i <= n,
            status_for(reports@, id@) == status_for(reports@.subrange(i as int, n as int), id@),
        decreases n - i,
    {
        let ghost rest = reports@.subrange(i as int, n as int);
        proof {
            assert(rest.drop_first() =~= reports@.subrange(i + 1, n as int));
        }
        if same_id(&reports[i].id, id) {
            return Some(reports[i].status);
        }
        i = i + 1;
    }
    None
}

/// What a sweep does with a transaction observed at `observed_at_ms`.
pub fn decide(observed_at_ms: u64, status: Option<EntityStatus>, now_ms: u64) -> (r: Option<
    (PoolEvent, u64, u64),
>)
    ensures
        r == outcome(observed_at_ms, status, now_ms),
{
    let waited = now_ms.saturating_sub(observed_at_ms);
    match status {
        None => None,
        Some(EntityStatus::Unknown) => Some((PoolEvent::Disappear, observed_at_ms, waited)),
        Some(EntityStatus::Pending) | Some(EntityStatus::Proposed) => {
            if waited > AWAIT_THRESHOLD_MS {
                Some((PoolEvent::Await, observed_at_ms, waited))
            } else {
                None
            }
        },
        Some(EntityStatus::Committed(None)) => None,
        Some(EntityStatus::Committed(Some(t))) => Some(
            (PoolEvent::Commit, t, t.saturating_sub(observed_at_ms)),
        ),
    }
}

/// Tracks transactions from their first observation in the pool to a
/// terminal outcome.
pub struct PoolTransaction {
    waiting: Vec<WaitingEntry>,
}

impl PoolTransaction {
    pub closed spec fn entries(&self) -> Seq<WaitingEntry> {
        self.waiting@
    }

    /// Each transaction is tracked at most once.
    #[verifier::type_invariant]
    spec fn tracked_once(&self) -> bool {
        id_seq(self.waiting@).no_duplicates()
    }

    /// The tracked transactions: identifier to first observation.
    pub open spec fn waiting(&self) -> Map<Seq<u8>, u64> {
        waiting_of(self.entries())
    }

    /// A tracker with nothing tracked.
    pub fn new() -> (r: PoolTransaction)
        ensures
            r.waiting() == Map::<Seq<u8>, u64>::empty(),
    {
        let r = PoolTransaction { waiting: Vec::new() };
        proof {
            assert(id_seq(r.waiting@) =~= Seq::<Seq<u8>>::empty());
            assert(r.waiting() =~= Map::<Seq<u8>, u64>::empty());
        }
        r
    }

    /// The number of tracked transactions.
    pub fn len(&self) -> (r: usize)
        ensures
            r == self.waiting().len(),
    {
        proof {
            use_type_invariant(&*self);
        }
        proof {
            lemma_waiting_domain(self.entries());
            id_seq(self.entries()).unique_seq_to_set();
        }
        self.waiting.len()
    }

    /// Starts tracking `id` as observed at `now_ms`, unless it is tracked
    /// already; returns whether it was added.
    pub fn observe(&mut self, id: EntityId, now_ms: u64) -> (added: bool)
        ensures
            final(self).waiting() == observed(old(self).waiting(), id@, now_ms),
            added == !old(self).waiting().contains_key(id@),
    {
        proof {
            use_type_invariant(&*self);
        }
        let n: usize = self.waiting.len();
        let mut i: usize = 0;
        while i < n
            invariant
                n == self.waiting@.len(),
                i <= n,
                id_seq(self.waiting@).no_duplicates(),
                self.entries() == old(self).entries(),
                forall|j: int| 0 <= j < i ==> self.waiting@[j].id@ != id@,
            decreases n - i,
        {
            if same_id(&self.waiting[i].id, &id) {
                proof {
                    lemma_waiting_at(self.entries(), i as int);
                }
                return false;
            }
            i = i + 1;
        }
        let ghost before = self.waiting@;
        proof {
            assert(!waiting_of(before).contains_key(id@));
        }
        let mut waiting: Vec<WaitingEntry> = Vec::new();
        std::mem::swap(&mut waiting, &mut self.waiting);
        waiting.push(WaitingEntry { id, observed_at_ms: now_ms });
        proof {
            let after = waiting@;
            assert(id_seq(after) =~= id_seq(before).push(id@));
            assert forall|a: int, b: int|
                0 <= a < b < id_seq(after).len() implies id_seq(after)[a] != id_seq(after)[b] by {
                if b == n {
                    assert(id_seq(after)[a] == before[a].id@);
                } else {
                    assert(id_seq(before)[a] == id_seq(after)[a]);
                    assert(id_seq(before)[b] == id_seq(after)[b]);
                }
            }
        }
        self.waiting = waiting;
        proof {
            let after = self.waiting@;
            let expect = waiting_of(before).insert(id@, now_ms);
            assert forall|k: Seq<u8>| #[trigger]
                waiting_of(after).contains_key(k) == expect.contains_key(k) by {
                if waiting_of(after).contains_key(k) {
                    let j = choose|j: int| 0 <= j < after.len() && after[j].id@ == k;
                    if j < n {
                        assert(before[j].id@ == k);
                    }
                }
                if waiting_of(before).contains_key(k) {
                    let j = choose|j: int| 0 <= j < before.len() && before[j].id@ == k;
                    assert(after[j].id@ == k);
                }
                if k == id@ {
                    assert(after[n as int].id@ == k);
                }
            }
            assert forall|k: Seq<u8>| #[trigger]
                waiting_of(after).contains_key(k) implies waiting_of(after)[k] == expect[k] by {
                let j = choose|j: int| 0 <= j < after.len() && after[j].id@ == k;
                lemma_waiting_at(after, j);
                if j < n {
                    assert(before[j] == after[j]);
                    assert(id_seq(before)[j] == before[j].id@);
                    lemma_waiting_at(before, j);
                }
            }
            assert(waiting_of(after) =~= expect);
        }
        true
    }

    /// The identifiers of the tracked transactions, each once.
    pub fn ids(&self) -> (r: Vec<EntityId>)
        ensures
            r@.len() == self.waiting().len(),
            forall|i: int| 0 <= i < r@.len() ==> self.waiting().contains_key(#[trigger] r@[i]@),
            forall|k: Seq<u8>| #[trigger]
                self.waiting().contains_key(k) ==> exists|i: int| 0 <= i < r@.len() && r@[i]@ == k,
            forall|a: int, b: int| 0 <= a < b < r@.len() ==> r@[a]@ != r@[b]@,
    {
        proof {
            use_type_invariant(&*self);
        }
        let n: usize = self.waiting.len();
        let mut r: Vec<EntityId> = Vec::new();
        let mut i: usize = 0;
        while i < n
            invariant
                n == self.waiting@.len(),
                i <= n,
                r@.len() == i,
                forall|j: int| 0 <= j < i ==> r@[j] == self.waiting@[j].id,
            decreases n - i,
        {
            r.push(self.waiting[i].id);
            i = i + 1;
        }
        proof {
            let s = self.entries();
            lemma_waiting_domain(s);
            id_seq(s).unique_seq_to_set();
            assert forall|j: int| 0 <= j < r@.len() implies self.waiting().contains_key(
                #[trigger] r@[j]@,
            ) by {
                lemma_waiting_at(s, j);
            }
            assert forall|k: Seq<u8>| #[trigger]
                self.waiting().contains_key(k) implies exists|j: int|
                0 <= j < r@.len() && r@[j]@ == k by {
                let j = choose|j: int| 0 <= j < s.len() && s[j].id@ == k;
                assert(r@[j]@ == k);
            }
            assert forall|a: int, b: int| 0 <= a < b < r@.len() implies r@[a]@ != r@[b]@ by {
                assert(id_seq(s)[a] == s[a].id@);
                assert(id_seq(s)[b] == s[b].id@);
            }
        }
        r
    }

    /// Decodes a new-transaction notification and starts tracking its
    /// transaction as observed at `now_ms`, unless it is tracked already;
    /// returns whether it was added. A notification that does not decode
    /// leaves the table as it was.
    pub fn ingest(&mut self, payload: &str, now_ms: u64) -> (r: Result<bool, PayloadError>)
        ensures
            r is Err <==> pool_entry_hash(payload@) is None,
            r is Err ==> final(self).waiting() == old(self).waiting(),
            r matches Ok(added) ==> ({
                let id = pool_entry_hash(payload@)->Some_0;
                &&& final(self).waiting() == observed(old(self).waiting(), id, now_ms)
                &&& added == !old(self).waiting().contains_key(id)
            }),
    {
        match decode_pool_entry(payload) {
            None => Err(PayloadError),
            Some(id) => Ok(self.observe(id, now_ms)),
        }
    }

    /// The gauge of how many transactions are tracked, at `now_ms`.
    pub fn waiting_total(&self, now_ms: u64) -> (r: Measurement)
        ensures
            r.spec_name() == "pool_waiting_transactions_total"@,
            r.spec_time_ms() == now_ms,
            r.tag_map() == Map::<Seq<char>, String>::empty(),
            r.field_map() == Map::<Seq<char>, FieldValue>::empty().insert(
                "transactions_total"@,
                FieldValue::UInt(self.waiting().len() as u64),
            ),
    {
        let total = self.len() as u64;
        let m = Measurement::new(String::from_str("pool_waiting_transactions_total"), now_ms);
        m.with_field(String::from_str("transactions_total"), FieldValue::UInt(total))
    }

    /// Settles every tracked transaction whose report gives a terminal
    /// outcome at `now_ms`: each such transaction leaves the table and comes
    /// out exactly once, with its event; the others stay as they were.
    pub fn sweep(&mut self, reports: &Vec<StatusReport>, now_ms: u64) -> (r: Vec<Settlement>)
        ensures
            forall|k: Seq<u8>| #[trigger]
                final(self).waiting().contains_key(k) <==> old(self).waiting().contains_key(k)
                    && outcome(old(self).waiting()[k], status_for(reports@, k), now_ms) is None,
            forall|k: Seq<u8>| #[trigger]
                final(self).waiting().contains_key(k) ==> final(self).waiting()[k] == old(
                    self,
                ).waiting()[k],
            forall|i: int|
                0 <= i < r@.len() ==> old(self).waiting().contains_key(#[trigger] r@[i].id@)
                    && outcome(old(self).waiting()[r@[i].id@], status_for(reports@, r@[i].id@), now_ms)
                    == Some((r@[i].event, r@[i].time_ms, r@[i].waiting_ms)),
            forall|k: Seq<u8>| #[trigger]
                old(self).waiting().contains_key(k) && outcome(
                    old(self).waiting()[k],
                    status_for(reports@, k),
                    now_ms,
                ) is Some ==> exists|i: int| 0 <= i < r@.len() && r@[i].id@ == k,
            forall|a: int, b: int| 0 <= a < b < r@.len() ==> r@[a].id@ != r@[b].id@,
    {
        proof {
            use_type_invariant(&*self);
        }
        let ghost orig = self.waiting@;
        let ghost rs = reports@;
        let n: usize = self.waiting.len();
        let mut kept: Vec<WaitingEntry> = Vec::new();
        let mut out: Vec<Settlement> = Vec::new();
        let ghost mut kidx: Seq<int> = Seq::empty();
        let ghost mut oidx: Seq<int> = Seq::empty();
        let mut i: usize = 0;
        while i < n
            invariant
                n == orig.len(),
                i <= n,
                self.waiting@ == orig,
                rs == reports@,
                id_seq(orig).no_duplicates(),
                kidx.len() == kept@.len(),
                forall|a: int|
                    0 <= a < kidx.len() ==> 0 <= #[trigger] kidx[a] < i && kept@[a] == orig[kidx[a]]
                        && entry_outcome(orig[kidx[a]], rs, now_ms) is None,
                forall|a: int, b: int| 0 <= a < b < kidx.len() ==> kidx[a] < kidx[b],
                forall|j: int|
                    0 <= j < i && (#[trigger] entry_outcome(orig[j], rs, now_ms)) is None ==> exists|
                        a: int,
                    | 0 <= a < kidx.len() && kidx[a] == j,
                oidx.len() == out@.len(),
                forall|a: int|
                    0 <= a < oidx.len() ==> 0 <= #[trigger] oidx[a] < i && out@[a].id
                        == orig[oidx[a]].id && entry_outcome(orig[oidx[a]], rs, now_ms) == Some(
                        (out@[a].event, out@[a].time_ms, out@[a].waiting_ms),
                    ),
                forall|a: int, b: int| 0 <= a < b < oidx.len() ==> oidx[a] < oidx[b],
                forall|j: int|
                    0 <= j < i && (#[trigger] entry_outcome(orig[j], rs, now_ms)) is Some ==> exists|
                        a: int,
                    | 0 <= a < oidx.len() && oidx[a] == j,
            decreases n - i,
        {
            let e = self.waiting[i];
            let status = find_status(reports, &e.id);
            let decision = decide(e.observed_at_ms, status, now_ms);
            assert(decision == entry_outcome(orig[i as int], rs, now_ms));
            match decision {
                None => {
                    kept.push(e);
                    proof {
                        let old_k = kidx;
                        kidx = kidx.push(i as int);
                        assert forall|j: int|
                            0 <= j < i + 1 && (#[trigger] entry_outcome(orig[j], rs, now_ms)) is None
                            implies exists|a: int| 0 <= a < kidx.len() && kidx[a] == j by {
                            if j < i {
                                let a = choose|a: int| 0 <= a < old_k.len() && old_k[a] == j;
                                assert(kidx[a] == j);
                            } else {
                                assert(kidx[old_k.len() as int] == j);
                            }
                        }
                    }
                },
                Some((event, time_ms, waiting_ms)) => {
                    out.push(Settlement { id: e.id, event, time_ms, waiting_ms });
                    proof {
                        let old_o = oidx;
                        oidx = oidx.push(i as int);
                        assert forall|j: int|
                            0 <= j < i + 1 && (#[trigger] entry_outcome(orig[j], rs, now_ms)) is Some
                            implies exists|a: int| 0 <= a < oidx.len() && oidx[a] == j by {
                            if j < i {
                                let a = choose|a: int| 0 <= a < old_o.len() && old_o[a] == j;
                                assert(oidx[a] == j);
                            } else {
                                assert(oidx[old_o.len() as int] == j);
                            }
                        }
                    }
                },
            }
            i = i + 1;
        }
        proof {
            let fin = kept@;
            assert forall|a: int, b: int|
                0 <= a < b < id_seq(fin).len() implies id_seq(fin)[a] != id_seq(fin)[b] by {
                assert(id_seq(orig)[kidx[a]] == orig[kidx[a]].id@);
                assert(id_seq(orig)[kidx[b]] == orig[kidx[b]].id@);
            }
        }
        self.waiting = kept;
        proof {
            let fin = self.waiting@;
            assert forall|k: Seq<u8>| #[trigger]
                waiting_of(fin).contains_key(k) == (waiting_of(orig).contains_key(k) && outcome(
                    waiting_of(orig)[k],
                    status_for(rs, k),
                    now_ms,
                ) is None) by {
                if waiting_of(fin).contains_key(k) {
                    let a = choose|a: int| 0 <= a < fin.len() && fin[a].id@ == k;
                    lemma_waiting_at(orig, kidx[a]);
                }
                if waiting_of(orig).contains_key(k) {
                    let j = choose|j: int| 0 <= j < orig.len() && orig[j].id@ == k;
                    lemma_waiting_at(orig, j);
                    if entry_outcome(orig[j], rs, now_ms) is None {
                        let a = choose|a: int| 0 <= a < kidx.len() && kidx[a] == j;
                        assert(fin[a].id@ == k);
                    }
                }
            }
            assert forall|k: Seq<u8>| #[trigger]
                waiting_of(fin).contains_key(k) implies waiting_of(fin)[k] == waiting_of(orig)[k] by {
                let a = choose|a: int| 0 <= a < fin.len() && fin[a].id@ == k;
                lemma_waiting_at(fin, a);
                lemma_waiting_at(orig, kidx[a]);
            }
            assert forall|x: int|
                0 <= x < out@.len() implies waiting_of(orig).contains_key(#[trigger] out@[x].id@)
                    && outcome(waiting_of(orig)[out@[x].id@], status_for(rs, out@[x].id@), now_ms)
                    == Some((out@[x].event, out@[x].time_ms, out@[x].waiting_ms)) by {
                lemma_waiting_at(orig, oidx[x]);
            }
            assert forall|k: Seq<u8>| #[trigger]
                waiting_of(orig).contains_key(k) && outcome(
                    waiting_of(orig)[k],
                    status_for(rs, k),
                    now_ms,
                ) is Some implies exists|x: int| 0 <= x < out@.len() && out@[x].id@ == k by {
                let j = choose|j: int| 0 <= j < orig.len() && orig[j].id@ == k;
                lemma_waiting_at(orig, j);
                assert(entry_outcome(orig[j], rs, now_ms) is Some);
                let a = choose|a: int| 0 <= a < oidx.len() && oidx[a] == j;
                assert(out@[a].id@ == k);
            }
            assert forall|a: int, b: int| 0 <= a < b < out@.len() implies out@[a].id@ != out@[b].id@ by {
                assert(id_seq(orig)[oidx[a]] == orig[oidx[a]].id@);
                assert(id_seq(orig)[oidx[b]] == orig[oidx[b]].id@);
            }
        }
        out
    }
}

/// The measurement of one settlement: the event as tag `event`, how long
/// the transaction waited as field `waiting_duration`, at the event's time.
pub fn settlement_measurement(s: &Settlement) -> (r: Measurement)
    ensures
        r.spec_name() == "pool_transaction"@,
        r.spec_time_ms() == s.time_ms,
        r.tag_map().dom() == Set::<Seq<char>>::empty().insert("event"@),
        r.tag_map()["event"@]@ == event_name(s.event),
        r.field_map() == Map::<Seq<char>, FieldValue>::empty().insert(
            "waiting_duration"@,
            FieldValue::UInt(s.waiting_ms),
        ),
{
    let event = match s.event {
        PoolEvent::Commit => String::from_str("commit"),
        PoolEvent::Await => String::from_str("await"),
        PoolEvent::Disappear => String::from_str("disappear"),
    };
    let m = Measurement::new(String::from_str("pool_transaction"), s.time_ms);
    let m = m.with_tag(String::from_str("event"), event);
    let r = m.with_field(String::from_str("waiting_duration"), FieldValue::UInt(s.waiting_ms));
    proof {
        assert(r.tag_map().dom() =~= Set::<Seq<char>>::empty().insert("event"@));
    }
    r
}

/// Observing a transaction a second time, before a sweep settles it, leaves
/// one entry for it with the first observation.
pub proof fn lemma_observe_idempotent(waiting: Map<Seq<u8>, u64>, id: Seq<u8>, t1: u64, t2: u64)
    ensures
        observed(observed(waiting, id, t1), id, t2) == observed(waiting, id, t1),
        observed(observed(waiting, id, t1), id, t2).contains_key(id),
        observed(observed(waiting, id, t1), id, t2)[id] == if waiting.contains_key(id) {
            waiting[id]
        } else {
            t1
        },
        observed(observed(waiting, id, t1), id, t2).dom() == waiting.dom().insert(id),
{
    assert(observed(waiting, id, t1).dom() =~= waiting.dom().insert(id));
}

/// A pending or proposed transaction observed at `t0` is settled as awaiting
/// at any instant more than the threshold after `t0`, and is kept at any
/// instant up to the threshold after `t0`.
pub proof fn lemma_await_threshold(t0: u64, now: u64, proposed: bool)
    ensures
        ({
            let status = if proposed {
                EntityStatus::Proposed
            } else {
                EntityStatus::Pending
            };
            &&& now > t0 + AWAIT_THRESHOLD_MS ==> outcome(t0, Some(status), now) == Some(
                (PoolEvent::Await, t0, (now - t0) as u64),
            )
            &&& now <= t0 + AWAIT_THRESHOLD_MS ==> outcome(t0, Some(status), now) is None
        }),
{
}

/// A transaction settled in a block is reported at the block's time, with
/// the time from its observation to the block's time as its wait.
pub proof fn lemma_commit_timing(t0: u64, block_time: u64, now: u64)
    ensures
        outcome(t0, Some(EntityStatus::Committed(Some(block_time))), now) == Some(
            (PoolEvent::Commit, block_time, elapsed(block_time, t0)),
        ),
        block_time >= t0 ==> elapsed(block_time, t0) == block_time - t0,
{
}

} // verus!
