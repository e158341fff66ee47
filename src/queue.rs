//! The queue of addresses awaiting an outside lookup: at most one row per address.
use vstd::prelude::*;
use crate::normalize::views;

verus! {

/// One row of the queue.
pub struct PendingRow {
    pub id: i64,
    pub address: String,
    pub status: i16,
}

/// A row of the queue as a mathematical value.
pub struct PendingEntry {
    pub id: int,
    pub address: Seq<char>,
    pub status: int,
}

/// The queue as a mathematical value: its rows in order of insertion, and the last id handed out.
pub struct QueueModel {
    pub entries: Seq<PendingEntry>,
    pub last_id: int,
}

/// The status of an ordinary row.
pub const STATUS_AWAITING: i16 = 0;

/// The status that, on the sentinel address, tells that the outside provider refuses requests.
pub const STATUS_OVER_QUERY_LIMIT: i16 = -1;

/// The address of the row that signals backpressure.
pub open spec fn sentinel_address() -> Seq<char> {
    seq!['O', 'V', 'E', 'R', '_', 'Q', 'U', 'E', 'R', 'Y', '_', 'L', 'I', 'M', 'I', 'T']
}

pub open spec fn entry_of(r: PendingRow) -> PendingEntry {
    PendingEntry { id: r.id as int, address: r.address@, status: r.status as int }
}

pub open spec fn entries_of(rows: Seq<PendingRow>) -> Seq<PendingEntry> {
    rows.map_values(|r: PendingRow| entry_of(r))
}

impl QueueModel {
    /// Ids are positive, increase along the rows and never pass the last id handed out; no two
    /// rows share an address.
    pub open spec fn wf(self) -> bool {
        &&& 0 <= self.last_id <= i64::MAX
        &&& forall|i: int| 0 <= i < self.entries.len() ==> 1 <= #[trigger] self.entries[i].id <= self.last_id
        &&& forall|i: int, j: int| 0 <= i < j < self.entries.len() ==> self.entries[i].id < self.entries[j].id
        &&& forall|i: int, j: int|
            0 <= i < self.entries.len() && 0 <= j < self.entries.len() && i != j
                ==> self.entries[i].address != self.entries[j].address
    }

    pub open spec fn has_address(self, a: Seq<char>) -> bool {
        exists|i: int| 0 <= i < self.entries.len() && #[trigger] self.entries[i].address == a
    }

    /// Insert-if-absent: a new row with the next id, or nothing where the address is queued.
    pub open spec fn insert(self, a: Seq<char>, status: int) -> QueueModel {
        if self.has_address(a) {
            self
        } else {
            QueueModel {
                entries: self.entries.push(PendingEntry { id: self.last_id + 1, address: a, status }),
                last_id: self.last_id + 1,
            }
        }
    }

    /// Insert-if-absent of each address in turn, with the ordinary status.
    pub open spec fn enqueue_all(self, addrs: Seq<Seq<char>>) -> QueueModel
        decreases addrs.len(),
    {
        if addrs.len() == 0 {
            self
        } else {
            self.enqueue_all(addrs.drop_last()).insert(addrs.last(), STATUS_AWAITING as int)
        }
    }

    /// The queue without the row of address `a`, if it has one.
    pub open spec fn remove(self, a: Seq<char>) -> QueueModel {
        if self.has_address(a) {
            let i = choose|i: int| 0 <= i < self.entries.len() && self.entries[i].address == a;
            QueueModel { entries: self.entries.remove(i), last_id: self.last_id }
        } else {
            self
        }
    }

    /// The oldest id still queued, or `-1` where the queue is empty.
    pub open spec fn queue_current(self) -> int {
        if self.entries.len() == 0 {
            -1
        } else {
            self.entries[0].id
        }
    }

    /// The newest id still queued, or `0` where the queue is empty.
    pub open spec fn queue_target(self) -> int {
        if self.entries.len() == 0 {
            0
        } else {
            self.entries.last().id
        }
    }

    /// Whether the sentinel row is present.
    pub open spec fn over_query_limit(self) -> bool {
        exists|i: int|
            0 <= i < self.entries.len() && #[trigger] self.entries[i].address == sentinel_address()
                && self.entries[i].status == STATUS_OVER_QUERY_LIMIT as int
    }
}

/// `n` submissions of the same batch, one after the other.
pub open spec fn enqueue_repeat(q: QueueModel, addrs: Seq<Seq<char>>, n: nat) -> QueueModel
    decreases n,
{
    if n == 0 {
        q
    } else {
        enqueue_repeat(q, addrs, (n - 1) as nat).enqueue_all(addrs)
    }
}

proof fn lemma_insert_keeps(q: QueueModel, a: Seq<char>, status: int, x: Seq<char>)
    ensures
        q.has_address(x) ==> q.insert(a, status).has_address(x),
        q.insert(a, status).has_address(a),
{
    let q2 = q.insert(a, status);
    if !q.has_address(a) {
        assert(q2.entries[q.entries.len() as int].address == a);
        if q.has_address(x) {
            let i = choose|i: int| 0 <= i < q.entries.len() && q.entries[i].address == x;
            assert(q2.entries[i].address == x);
        }
    }
}

pub proof fn lemma_enqueue_all_holds(q: QueueModel, addrs: Seq<Seq<char>>, x: Seq<char>)
    ensures
        addrs.contains(x) ==> q.enqueue_all(addrs).has_address(x),
        q.has_address(x) ==> q.enqueue_all(addrs).has_address(x),
    decreases addrs.len(),
{
    if addrs.len() > 0 {
        let q1 = q.enqueue_all(addrs.drop_last());
        lemma_enqueue_all_holds(q, addrs.drop_last(), x);
        lemma_insert_keeps(q1, addrs.last(), STATUS_AWAITING as int, x);
        if addrs.contains(x) && x != addrs.last() {
            let i = choose|i: int| 0 <= i < addrs.len() && addrs[i] == x;
            assert(addrs.drop_last()[i] == x);
        }
    }
}

/// After a batch, an address is queued only where it was queued before or is in the batch.
pub proof fn lemma_enqueue_all_only(q: QueueModel, addrs: Seq<Seq<char>>, x: Seq<char>)
    ensures
        q.enqueue_all(addrs).has_address(x) ==> q.has_address(x) || addrs.contains(x),
    decreases addrs.len(),
{
    if addrs.len() > 0 {
        let q1 = q.enqueue_all(addrs.drop_last());
        lemma_enqueue_all_only(q, addrs.drop_last(), x);
        let q2 = q1.insert(addrs.last(), STATUS_AWAITING as int);
        if q2.has_address(x) {
            let i = choose|i: int| 0 <= i < q2.entries.len() && q2.entries[i].address == x;
            if !q1.has_address(addrs.last()) && i == q1.entries.len() {
                assert(addrs[addrs.len() - 1] == x);
            } else {
                assert(q1.entries[i].address == x);
            }
            if addrs.drop_last().contains(x) {
                let j = choose|j: int| 0 <= j < addrs.drop_last().len() && addrs.drop_last()[j] == x;
                assert(addrs[j] == x);
            }
        }
    }
}

/// A batch whose addresses are all queued already changes nothing.
pub proof fn lemma_enqueue_all_present(q: QueueModel, addrs: Seq<Seq<char>>)
    requires
        forall|x: Seq<char>| addrs.contains(x) ==> q.has_address(x),
    ensures
        q.enqueue_all(addrs) == q,
    decreases addrs.len(),
{
    if addrs.len() > 0 {
        assert forall|x: Seq<char>| addrs.drop_last().contains(x) implies q.has_address(x) by {
            let i = choose|i: int| 0 <= i < addrs.drop_last().len() && addrs.drop_last()[i] == x;
            assert(addrs[i] == x);
        }
        lemma_enqueue_all_present(q, addrs.drop_last());
        assert(addrs[addrs.len() - 1] == addrs.last());
    }
}

/// Submitting the same batch of addresses `n >= 1` times leaves the queue as one submission
/// does: no address is queued twice.
pub proof fn lemma_enqueue_idempotent(q: QueueModel, addrs: Seq<Seq<char>>, n: nat)
    requires
        n >= 1,
    ensures
        enqueue_repeat(q, addrs, n) == q.enqueue_all(addrs),
    decreases n,
{
    if n > 1 {
        lemma_enqueue_idempotent(q, addrs, (n - 1) as nat);
        let once = q.enqueue_all(addrs);
        assert forall|x: Seq<char>| addrs.contains(x) implies once.has_address(x) by {
            lemma_enqueue_all_holds(q, addrs, x);
        }
        lemma_enqueue_all_present(once, addrs);
    } else {
        assert(enqueue_repeat(q, addrs, 0) == q);
    }
}

/// Insert-if-absent of a new address keeps the queue well formed, while ids remain.
pub proof fn lemma_insert_wf(q: QueueModel, a: Seq<char>, status: int)
    requires
        q.wf(),
        q.last_id < i64::MAX,
    ensures
        q.insert(a, status).wf(),
{
    let q2 = q.insert(a, status);
    if !q.has_address(a) {
        assert forall|i: int, j: int|
            0 <= i < q2.entries.len() && 0 <= j < q2.entries.len() && i != j
            implies q2.entries[i].address != q2.entries[j].address by {
            if i == q.entries.len() {
                assert(q.entries[j].address == q2.entries[j].address);
            } else if j == q.entries.len() {
                assert(q.entries[i].address == q2.entries[i].address);
            }
        }
        assert forall|i: int| 0 <= i < q2.entries.len() implies 1 <= #[trigger] q2.entries[i].id <= q2.last_id by {
            if i < q.entries.len() {
                assert(q2.entries[i] == q.entries[i]);
            }
        }
    }
}

/// In a well-formed queue `queue_current` is the smallest id queued and `queue_target` the
/// largest; on an empty queue they are `-1` and `0`.
pub proof fn lemma_queue_bounds(q: QueueModel)
    requires
        q.wf(),
    ensures
        q.entries.len() == 0 ==> q.queue_current() == -1 && q.queue_target() == 0,
        q.entries.len() > 0 ==> exists|i: int| 0 <= i < q.entries.len() && q.entries[i].id == q.queue_current(),
        q.entries.len() > 0 ==> exists|i: int| 0 <= i < q.entries.len() && q.entries[i].id == q.queue_target(),
        forall|i: int| 0 <= i < q.entries.len() ==> q.queue_current() <= #[trigger] q.entries[i].id <= q.queue_target(),
{
    if q.entries.len() > 0 {
        assert(q.entries[0].id == q.queue_current());
        assert(q.entries[q.entries.len() - 1].id == q.queue_target());
        assert forall|i: int| 0 <= i < q.entries.len() implies q.queue_current() <= #[trigger] q.entries[i].id
            <= q.queue_target() by {
            if i > 0 {
                assert(q.entries[0].id < q.entries[i].id);
            }
            if i < q.entries.len() - 1 {
                assert(q.entries[i].id < q.entries[q.entries.len() - 1].id);
            }
        }
    }
}

/// Queuing an address that is not queued yet gives it a row whose id becomes `queue_target`,
/// which does not go down; `queue_current` is then the smallest id queued.
pub proof fn lemma_queue_depth_after_enqueue(q: QueueModel, a: Seq<char>)
    requires
        q.wf(),
        !q.has_address(a),
        q.last_id < i64::MAX,
    ensures
        ({
            let q2 = q.insert(a, STATUS_AWAITING as int);
            &&& q2.wf()
            &&& q2.entries.len() == q.entries.len() + 1
            &&& q2.entries.last().address == a
            &&& q2.queue_target() == q2.entries.last().id
            &&& q2.queue_target() >= q.queue_target()
            &&& exists|i: int| 0 <= i < q2.entries.len() && q2.entries[i].id == q2.queue_current()
            &&& forall|i: int| 0 <= i < q2.entries.len() ==> q2.queue_current() <= #[trigger] q2.entries[i].id
        }),
{
    let q2 = q.insert(a, STATUS_AWAITING as int);
    lemma_insert_wf(q, a, STATUS_AWAITING as int);
    lemma_queue_bounds(q2);
    if q.entries.len() > 0 {
        assert(q.entries[q.entries.len() - 1].id <= q.last_id);
    }
}

/// Whether a queue holds the sentinel address with another status.
pub open spec fn sentinel_blocked(q: QueueModel) -> bool {
    q.has_address(sentinel_address()) && !q.over_query_limit()
}

/// Inserting the sentinel row makes the queue report backpressure, and removing it again
/// clears the report. (Where the sentinel address is already queued with another status, the
/// insert is a no-op and no backpressure is reported.)
pub proof fn lemma_backpressure_round_trip(q: QueueModel)
    requires
        q.wf(),
        !sentinel_blocked(q),
    ensures
        q.insert(sentinel_address(), STATUS_OVER_QUERY_LIMIT as int).over_query_limit(),
        !q.insert(sentinel_address(), STATUS_OVER_QUERY_LIMIT as int).remove(sentinel_address()).over_query_limit(),
{
    let s = sentinel_address();
    let q2 = q.insert(s, STATUS_OVER_QUERY_LIMIT as int);
    let n = q2.entries.len();
    // the sentinel address stands in exactly one row of q2
    let k: int = if q.has_address(s) {
        choose|i: int| 0 <= i < q.entries.len() && q.entries[i].address == s
    } else {
        q.entries.len() as int
    };
    if !q.has_address(s) {
        assert(q2.entries[k].address == s);
        assert forall|i: int| 0 <= i < n && i != k implies q2.entries[i].address != s by {
            assert(q2.entries[i] == q.entries[i]);
        }
    }
    assert(0 <= k < n && q2.entries[k].address == s);
    assert(forall|i: int| 0 <= i < n && i != k ==> q2.entries[i].address != s);
    assert(q2.entries[k].status == STATUS_OVER_QUERY_LIMIT as int) by {
        if q.has_address(s) {
            let j = choose|j: int| 0 <= j < q.entries.len() && #[trigger] q.entries[j].address == s
                && q.entries[j].status == STATUS_OVER_QUERY_LIMIT as int;
        }
    }
    assert(q2.over_query_limit());
    let c = choose|i: int| 0 <= i < n && q2.entries[i].address == s;
    assert(c == k);
    let q3 = q2.remove(s);
    assert(q3.entries == q2.entries.remove(k));
    assert forall|i: int| 0 <= i < q3.entries.len() implies #[trigger] q3.entries[i].address != s by {
        assert(q3.entries[i] == q2.entries[if i < k { i } else { i + 1 }]);
    }
}

/// Why a write to the queue was refused.
#[derive(PartialEq, Eq, Structural, Clone, Copy, Debug)]
pub enum QueueError {
    /// The ids that the write would hand out do not fit in an `i64`.
    IdsExhausted,
}

/// The queue of pending lookups, kept in memory.
pub struct PendingQueue {
    rows: Vec<PendingRow>,
    last_id: i64,
}

impl View for PendingQueue {
    type V = QueueModel;

    closed spec fn view(&self) -> QueueModel {
        QueueModel { entries: entries_of(self.rows@), last_id: self.last_id as int }
    }
}

impl PendingQueue {
    pub open spec fn wf(&self) -> bool {
        self@.wf()
    }

    /// An empty queue.
    pub fn new() -> (r: PendingQueue)
        ensures
            r.wf(),
            r@.entries.len() == 0,
            r@.last_id == 0,
    {
        let r = PendingQueue { rows: Vec::new(), last_id: 0 };
        assert(r@.entries =~= Seq::<PendingEntry>::empty());
        r
    }

    /// An empty queue whose id sequence has already handed out `last_id`, as a store that was
    /// emptied keeps its sequence.
    pub fn starting_after(last_id: i64) -> (r: PendingQueue)
        requires
            last_id >= 0,
        ensures
            r.wf(),
            r@.entries.len() == 0,
            r@.last_id == last_id,
    {
        let r = PendingQueue { rows: Vec::new(), last_id };
        assert(r@.entries =~= Seq::<PendingEntry>::empty());
        r
    }

    /// The rows, oldest first.
    pub fn rows(&self) -> (r: &Vec<PendingRow>)
        ensures
            entries_of(r@) == self@.entries,
    {
        &self.rows
    }

    /// The index of the row of `a`, if any.
    fn find(&self, a: &String) -> (r: Option<usize>)
        ensures
            match r {
                Some(i) => i < self@.entries.len() && self@.entries[i as int].address == a@,
                None => !self@.has_address(a@),
            },
    {
        let mut i: usize = 0;
        while i < self.rows.len()
            invariant
                0 <= i <= self.rows.len(),
                forall|j: int| 0 <= j < i ==> self.rows@[j].address@ != a@,
            decreases self.rows.len() - i,
        {
            if self.rows[i].address == *a {
                assert(self@.entries[i as int] == entry_of(self.rows@[i as int]));
                return Some(i);
            }
            i = i + 1;
        }
        proof {
            if self@.has_address(a@) {
                let j = choose|j: int| 0 <= j < self@.entries.len() && self@.entries[j].address == a@;
                assert(self@.entries[j] == entry_of(self.rows@[j]));
            }
        }
        None
    }

    /// Queues `address` with `status` unless a row of that address is already queued, which is no
    /// error: `Ok(true)` where a row was added, `Ok(false)` where it was already there.
    pub fn insert_if_absent(&mut self, address: String, status: i16) -> (r: Result<bool, QueueError>)
        requires
            old(self).wf(),
        ensures
            final(self).wf(),
            old(self)@.has_address(address@) ==> r == Ok::<bool, QueueError>(false) && final(self)@ == old(self)@,
            !old(self)@.has_address(address@) && old(self)@.last_id == i64::MAX ==> r == Err::<bool, QueueError>(
                QueueError::IdsExhausted,
            ) && final(self)@ == old(self)@,
            !old(self)@.has_address(address@) && old(self)@.last_id < i64::MAX ==> r == Ok::<bool, QueueError>(true)
                && final(self)@ == old(self)@.insert(address@, status as int),
    {
        match self.find(&address) {
            Some(_) => Ok(false),
            None => {
                if self.last_id == i64::MAX {
                    Err(QueueError::IdsExhausted)
                } else {
                    let ghost before = self@;
                    let id = self.last_id + 1;
                    let ghost a = address@;
                    self.rows.push(PendingRow { id, address, status });
                    self.last_id = id;
                    assert(self@.entries =~= before.entries.push(PendingEntry { id: id as int, address: a, status: status as int }));
                    proof {
                        lemma_insert_wf(before, a, status as int);
                    }
                    Ok(true)
                }
            },
        }
    }

    /// Queues each address of the batch that is not queued yet, as one write: where the ids that
    /// the batch could need do not fit, nothing is written.
    pub fn enqueue_batch(&mut self, addresses: &Vec<String>) -> (r: Result<(), QueueError>)
        requires
            old(self).wf(),
        ensures
            final(self).wf(),
            old(self)@.last_id > i64::MAX - addresses.len() ==> r == Err::<(), QueueError>(QueueError::IdsExhausted)
                && final(self)@ == old(self)@,
            old(self)@.last_id <= i64::MAX - addresses.len() ==> r == Ok::<(), QueueError>(())
                && final(self)@ == old(self)@.enqueue_all(views(addresses@)),
    {
        let room = (i64::MAX - self.last_id) as u64;
        if addresses.len() as u64 > room {
            return Err(QueueError::IdsExhausted);
        }
        let ghost start = self@;
        let ghost addrs = views(addresses@);
        let mut i: usize = 0;
        while i < addresses.len()
            invariant
                0 <= i <= addresses.len(),
                self.wf(),
                start.last_id <= i64::MAX - addresses.len(),
                addrs == views(addresses@),
                self@ == start.enqueue_all(addrs.subrange(0, i as int)),
                self@.last_id <= start.last_id + i,
            decreases addresses.len() - i,
        {
            let ghost prefix = addrs.subrange(0, i as int + 1);
            assert(prefix.drop_last() == addrs.subrange(0, i as int));
            assert(prefix.last() == addresses@[i as int]@);
            let inserted = self.insert_if_absent(addresses[i].clone(), STATUS_AWAITING);
            i = i + 1;
        }
        assert(addrs.subrange(0, addresses.len() as int) == addrs);
        Ok(())
    }

    /// Removes the row of `address`, if there is one; says whether there was.
    pub fn remove(&mut self, address: &String) -> (r: bool)
        requires
            old(self).wf(),
        ensures
            final(self).wf(),
            r == old(self)@.has_address(address@),
            final(self)@ == old(self)@.remove(address@),
    {
        match self.find(address) {
            None => false,
            Some(k) => {
                let ghost before = self@;
                proof {
                    let c = choose|i: int| 0 <= i < before.entries.len() && before.entries[i].address == address@;
                    assert(c == k as int);
                }
                self.rows.remove(k);
                assert(self@.entries =~= before.entries.remove(k as int));
                proof {
                    let n = before.entries;
                    let m = self@.entries;
                    assert forall|i: int| 0 <= i < m.len() implies m[i] == n[if i < k { i } else { i + 1 }] by {}
                    assert forall|i: int, j: int| 0 <= i < j < m.len() implies m[i].id < m[j].id by {
                        assert(m[i] == n[if i < k { i } else { i + 1 }]);
                        assert(m[j] == n[if j < k { j } else { j + 1 }]);
                    }
                    assert forall|i: int, j: int| 0 <= i < m.len() && 0 <= j < m.len() && i != j
                        implies m[i].address != m[j].address by {
                        assert(m[i] == n[if i < k { i } else { i + 1 }]);
                        assert(m[j] == n[if j < k { j } else { j + 1 }]);
                    }
                    assert forall|i: int| 0 <= i < m.len() implies 1 <= #[trigger] m[i].id <= self@.last_id by {
                        assert(m[i] == n[if i < k { i } else { i + 1 }]);
                    }
                }
                true
            },
        }
    }

    /// The oldest id still queued, or `-1` where the queue is empty.
    pub fn queue_current(&self) -> (r: i64)
        ensures
            r == self@.queue_current(),
    {
        if self.rows.len() == 0 {
            -1
        } else {
            assert(self@.entries[0] == entry_of(self.rows@[0]));
            self.rows[0].id
        }
    }

    /// The newest id still queued, or `0` where the queue is empty.
    pub fn queue_target(&self) -> (r: i64)
        ensures
            r == self@.queue_target(),
    {
        if self.rows.len() == 0 {
            0
        } else {
            let n = self.rows.len() - 1;
            assert(self@.entries[n as int] == entry_of(self.rows@[n as int]));
            self.rows[n].id
        }
    }

    /// Whether the sentinel row, which signals that the outside provider refuses requests, is
    /// queued.
    pub fn over_query_limit(&self) -> (r: bool)
        ensures
            r == self@.over_query_limit(),
    {
        let sentinel = "OVER_QUERY_LIMIT".to_owned();
        proof {
            reveal_strlit("OVER_QUERY_LIMIT");
            assert(sentinel@ =~= sentinel_address());
        }
        let mut i: usize = 0;
        while i < self.rows.len()
            invariant
                0 <= i <= self.rows.len(),
                sentinel@ == sentinel_address(),
                forall|j: int| 0 <= j < i ==> !(self.rows@[j].address@ == sentinel_address()
                    && self.rows@[j].status == STATUS_OVER_QUERY_LIMIT),
            decreases self.rows.len() - i,
        {
            if self.rows[i].address == sentinel && self.rows[i].status == STATUS_OVER_QUERY_LIMIT {
                assert(self@.entries[i as int] == entry_of(self.rows@[i as int]));
                assert(self@.entries[i as int].address == sentinel_address());
                return true;
            }
            i = i + 1;
        }
        proof {
            if self@.over_query_limit() {
                let j = choose|j: int| 0 <= j < self@.entries.len() && self@.entries[j].address == sentinel_address()
                    && self@.entries[j].status == STATUS_OVER_QUERY_LIMIT as int;
                assert(self@.entries[j] == entry_of(self.rows@[j]));
            }
        }
        false
    }
}

} // verus!
