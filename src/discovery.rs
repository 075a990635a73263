//! The discovery service: a lease-based registry of chatroom instances and
//! a directory that binds each term to an instance, stickily while the
//! binding stays valid.
use vstd::prelude::*;
use crate::address::Address;
use crate::random::{random_i32, random_index};
use crate::text::{chars_of, same_chars};

verus! {

/// How long an instance stays active after its last successful `ping` or
/// its registration, in milliseconds: it is active while less than this has
/// passed.
pub const LEASE_TTL_MS: i64 = 10_000;

/// A registered chatroom instance.
#[derive(Clone, Copy, Debug, PartialEq, Eq, Structural)]
pub struct Instance {
    pub instance_id: i32,
    pub address: Address,
}

/// Body of `POST /register`.
#[derive(Clone, Copy, Debug, PartialEq, Eq, Structural)]
pub struct RegisterRequest {
    pub listen_address: Address,
}

/// Answer to `POST /register`.
#[derive(Clone, Copy, Debug, PartialEq, Eq, Structural)]
pub struct RegisterResponse {
    pub instance_id: i32,
}

/// Whether a `ping` kept the instance's lease.
#[derive(Clone, Copy, Debug, PartialEq, Eq, Structural)]
pub enum PingResult {
    /// The lease was live and is renewed (`"Ok"` on the wire).
    Active,
    NoLongerActive,
}

/// Body of `POST /ping`.
#[derive(Clone, Copy, Debug, PartialEq, Eq, Structural)]
pub struct PingRequest {
    pub listen_address: Address,
    pub instance_id: i32,
}

/// Answer to `POST /ping`.
#[derive(Clone, Copy, Debug, PartialEq, Eq, Structural)]
pub struct PingResponse {
    pub ping_result: PingResult,
}

/// Body of `POST /chatroom`.
#[derive(Clone, Debug, PartialEq)]
pub struct ChatroomRequest {
    pub term: String,
}

/// Answer to `POST /chatroom`.
#[derive(Clone, Copy, Debug, PartialEq, Eq, Structural)]
pub struct ChatroomResponse {
    pub instance: Option<Instance>,
}

/// Whether an instance told `result` by its `ping` must exit, to be replaced
/// by a fresh registration.
pub fn lease_lost(result: PingResult) -> (r: bool)
    ensures
        r == (result == PingResult::NoLongerActive),
{
    match result {
        PingResult::Active => false,
        PingResult::NoLongerActive => true,
    }
}

/// The instance row kept for an address.
#[derive(Clone, Copy, Debug, PartialEq, Eq, Structural)]
pub struct InstanceRow {
    pub instance_id: i32,
    /// Milliseconds since the epoch.
    pub last_accessed: i64,
}

/// Whether a row's lease is live at `now`.
pub open spec fn is_active(row: InstanceRow, now: int) -> bool {
    now - row.last_accessed < LEASE_TTL_MS
}

/// Whether a binding is valid at `now`: the instance registered at its
/// address still has its id and an active lease.
pub open spec fn is_valid(rows: Map<Address, InstanceRow>, b: Instance, now: int) -> bool {
    &&& rows.contains_key(b.address)
    &&& rows[b.address].instance_id == b.instance_id
    &&& is_active(rows[b.address], now)
}

/// The active instances among the rows, in row order.
pub open spec fn active_rows(rows: Seq<(Address, InstanceRow)>, now: int) -> Seq<Instance>
    decreases rows.len(),
{
    if rows.len() == 0 {
        Seq::empty()
    } else {
        let rest = active_rows(rows.drop_last(), now);
        let (a, row) = rows.last();
        if is_active(row, now) {
            rest.push(Instance { instance_id: row.instance_id, address: a })
        } else {
            rest
        }
    }
}

struct BindingRow {
    term: Vec<char>,
    instance: Instance,
}

spec fn rows_wf(rows: Seq<(Address, InstanceRow)>, table: Map<Address, InstanceRow>) -> bool {
    &&& forall|i: int| 0 <= i < rows.len() ==> table.contains_key(#[trigger] rows[i].0)
        && table[rows[i].0] == rows[i].1
    &&& forall|a: Address| #[trigger]
        table.contains_key(a) ==> exists|i: int| 0 <= i < rows.len() && #[trigger] rows[i].0 == a
    &&& forall|i: int, j: int| 0 <= i < j < rows.len() ==> rows[i].0 != rows[j].0
}

spec fn bindings_wf(bindings: Seq<BindingRow>, directory: Map<Seq<char>, Instance>) -> bool {
    &&& forall|i: int| 0 <= i < bindings.len() ==> directory.contains_key(
        #[trigger] bindings[i].term@,
    ) && directory[bindings[i].term@] == bindings[i].instance
    &&& forall|t: Seq<char>| #[trigger]
        directory.contains_key(t) ==> exists|i: int|
            0 <= i < bindings.len() && #[trigger] bindings[i].term@ == t
    &&& forall|i: int, j: int|
        0 <= i < j < bindings.len() ==> bindings[i].term@ != bindings[j].term@
}

/// The discovery service's state: the instance registry, one row per address
/// (a single region), and the directory that binds each term to an
/// instance.
pub struct Model {
    rows: Vec<(Address, InstanceRow)>,
    table: Ghost<Map<Address, InstanceRow>>,
    bindings: Vec<BindingRow>,
    directory: Ghost<Map<Seq<char>, Instance>>,
}

impl Model {
    /// The instance row of each registered address.
    pub closed spec fn instances(&self) -> Map<Address, InstanceRow> {
        self.table@
    }

    /// The instance each term is bound to.
    pub closed spec fn bindings(&self) -> Map<Seq<char>, Instance> {
        self.directory@
    }

    /// The instances active at `now`, in registration order.
    pub closed spec fn active_instances(&self, now: int) -> Seq<Instance> {
        active_rows(self.rows@, now)
    }

    pub closed spec fn wf(&self) -> bool {
        rows_wf(self.rows@, self.table@) && bindings_wf(self.bindings@, self.directory@)
    }

    /// What `ping` answers.
    pub open spec fn ping_outcome(&self, address: Address, instance_id: i32, now: int) -> PingResult {
        if is_valid(self.instances(), Instance { instance_id, address }, now) {
            PingResult::Active
        } else {
            PingResult::NoLongerActive
        }
    }

    /// What a lookup of `term` answers at `now`, with `pick` drawn at random:
    /// the bound instance while the binding is valid; otherwise an active
    /// instance chosen by `pick`, or none when no instance is active.
    pub open spec fn answer(&self, term: Seq<char>, now: int, pick: int) -> Option<Instance> {
        if self.bindings().contains_key(term) && is_valid(
            self.instances(),
            self.bindings()[term],
            now,
        ) {
            Some(self.bindings()[term])
        } else if self.active_instances(now).len() == 0 {
            None
        } else {
            Some(self.active_instances(now)[pick % (self.active_instances(now).len() as int)])
        }
    }

    /// The directory after a lookup of `term`: a new binding is written when
    /// the lookup chose an instance.
    pub open spec fn bindings_after(&self, term: Seq<char>, now: int, pick: int) -> Map<
        Seq<char>,
        Instance,
    > {
        if self.bindings().contains_key(term) && is_valid(
            self.instances(),
            self.bindings()[term],
            now,
        ) {
            self.bindings()
        } else {
            match self.answer(term, now, pick) {
                Some(i) => self.bindings().insert(term, i),
                None => self.bindings(),
            }
        }
    }

    /// An empty registry and directory.
    pub fn new() -> (r: Model)
        ensures
            r.wf(),
            r.instances() == Map::<Address, InstanceRow>::empty(),
            r.bindings() == Map::<Seq<char>, Instance>::empty(),
    {
        Model {
            rows: Vec::new(),
            table: Ghost(Map::empty()),
            bindings: Vec::new(),
            directory: Ghost(Map::empty()),
        }
    }

    /// Records that `address` registered with `instance_id` at `now`; a row
    /// for that address is replaced.
    pub fn register_instance_with_id(&mut self, address: Address, instance_id: i32, now: i64)
        requires
            old(self).wf(),
        ensures
            final(self).wf(),
            final(self).instances() == old(self).instances().insert(
                address,
                InstanceRow { instance_id, last_accessed: now },
            ),
            final(self).bindings() == old(self).bindings(),
    {
        self.put_row(address, InstanceRow { instance_id, last_accessed: now });
    }

    /// Registers `address` at `now` under a fresh random id, which it returns.
    pub fn register_instance(&mut self, address: Address, now: i64) -> (r: i32)
        requires
            old(self).wf(),
        ensures
            final(self).wf(),
            final(self).instances() == old(self).instances().insert(
                address,
                InstanceRow { instance_id: r, last_accessed: now },
            ),
            final(self).bindings() == old(self).bindings(),
    {
        let instance_id = random_i32();
        self.register_instance_with_id(address, instance_id, now);
        instance_id
    }

    fn row_is_valid(&self, b: &Instance, now: i64) -> (r: bool)
        requires
            self.wf(),
        ensures
            r == is_valid(self.instances(), *b, now as int),
    {
        match self.find_row(&b.address) {
            Some(i) => {
                let row = self.rows[i].1;
                row.instance_id == b.instance_id && (now as i128) - (row.last_accessed as i128)
                    < LEASE_TTL_MS as i128
            },
            None => false,
        }
    }

    /// Renews the lease of `address` at `now` if it is held by `instance_id`
    /// and still live; an instance told `NoLongerActive` must exit.
    pub fn ping_instance(&mut self, address: Address, instance_id: i32, now: i64) -> (r: PingResult)
        requires
            old(self).wf(),
        ensures
            final(self).wf(),
            r == old(self).ping_outcome(address, instance_id, now as int),
            final(self).instances() == if r == PingResult::Active {
                old(self).instances().insert(address, InstanceRow { instance_id, last_accessed: now })
            } else {
                old(self).instances()
            },
            final(self).bindings() == old(self).bindings(),
    {
        if self.row_is_valid(&Instance { instance_id, address }, now) {
            self.put_row(address, InstanceRow { instance_id, last_accessed: now });
            PingResult::Active
        } else {
            PingResult::NoLongerActive
        }
    }

    /// The instances active at `now`, in registration order, each once.
    pub fn get_instances(&self, now: i64) -> (r: Vec<Instance>)
        requires
            self.wf(),
        ensures
            r@ == self.active_instances(now as int),
            forall|x: Instance| #[trigger] r@.contains(x) <==> is_valid(self.instances(), x, now as int),
            forall|a: int, b: int| 0 <= a < b < r@.len() ==> r@[a].address != r@[b].address,
    {
        proof {
            lemma_active_instances(*self, now as int);
            lemma_active_rows_distinct(self.rows@, now as int);
        }
        let mut out: Vec<Instance> = Vec::new();
        let mut i: usize = 0;
        while i < self.rows.len()
            invariant
                i <= self.rows@.len(),
                out@ == active_rows(self.rows@.subrange(0, i as int), now as int),
            decreases self.rows@.len() - i,
        {
            assert(self.rows@.subrange(0, i + 1).drop_last() =~= self.rows@.subrange(0, i as int));
            let (a, row) = self.rows[i];
            if (now as i128) - (row.last_accessed as i128) < LEASE_TTL_MS as i128 {
                out.push(Instance { instance_id: row.instance_id, address: a });
            }
            i = i + 1;
        }
        assert(self.rows@.subrange(0, i as int) =~= self.rows@);
        out
    }

    fn find_binding(&self, term: &Vec<char>) -> (r: Option<usize>)
        requires
            self.wf(),
        ensures
            match r {
                Some(i) => i < self.bindings@.len() && self.bindings@[i as int].term@ == term@
                    && self.bindings().contains_key(term@) && self.bindings()[term@]
                    == self.bindings@[i as int].instance,
                None => !self.bindings().contains_key(term@),
            },
    {
        let mut i: usize = 0;
        while i < self.bindings.len()
            invariant
                self.wf(),
                i <= self.bindings@.len(),
                forall|k: int| 0 <= k < i ==> self.bindings@[k].term@ != term@,
            decreases self.bindings@.len() - i,
        {
            if same_chars(&self.bindings[i].term, term) {
                return Some(i);
            }
            i = i + 1;
        }
        None
    }

    fn put_binding(&mut self, term: Vec<char>, instance: Instance)
        requires
            old(self).wf(),
        ensures
            final(self).wf(),
            final(self).bindings() == old(self).bindings().insert(term@, instance),
            final(self).instances() == old(self).instances(),
            forall|now: int| #[trigger] final(self).active_instances(now) == old(self).active_instances(now),
    {
        let ghost t = term@;
        let ghost at: int;
        match self.find_binding(&term) {
            Some(i) => {
                self.bindings.set(i, BindingRow { term, instance });
                proof { at = i as int; }
            },
            None => {
                self.bindings.push(BindingRow { term, instance });
                proof { at = self.bindings@.len() - 1; }
            },
        }
        self.directory = Ghost(self.directory@.insert(t, instance));
        let ghost old_b = old(self).bindings@;
        let ghost b = self.bindings@;
        assert(b[at].term@ == t);
        assert forall|k: int| 0 <= k < b.len() && k != at implies #[trigger] b[k] == old_b[k]
            && b[k].term@ != t by {
            if old_b[k].term@ == t {
                assert(old(self).directory@.contains_key(old_b[k].term@));
            }
        }
        assert forall|i: int| 0 <= i < b.len() implies self.directory@.contains_key(
            #[trigger] b[i].term@,
        ) && self.directory@[b[i].term@] == b[i].instance by {
            if i != at {
                assert(b[i] == old_b[i]);
            }
        }
        assert forall|i: int, j: int| 0 <= i < j < b.len() implies b[i].term@ != b[j].term@ by {
            if i != at && j != at {
                assert(b[i] == old_b[i]);
                assert(b[j] == old_b[j]);
            } else if i == at {
                assert(b[j].term@ != t);
            } else {
                assert(b[i].term@ != t);
            }
        }
        assert forall|x: Seq<char>| #[trigger] self.directory@.contains_key(x) implies exists|i: int|
            0 <= i < b.len() && #[trigger] b[i].term@ == x by {
            if x != t {
                assert(old(self).directory@.contains_key(x));
                let k = choose|k: int| 0 <= k < old_b.len() && old_b[k].term@ == x;
                assert(b[k].term@ == x);
            }
        }
    }

    /// Looks up the instance for `term` at `now`, with `pick` standing for a
    /// uniformly random draw: a valid binding is kept and answered; otherwise
    /// the term is bound to the active instance `pick` selects, or the answer
    /// is none when no instance is active.
    pub fn choose_chatroom(&mut self, term: &str, now: i64, pick: usize) -> (r: Option<Instance>)
        requires
            old(self).wf(),
        ensures
            final(self).wf(),
            r == old(self).answer(term@, now as int, pick as int),
            final(self).bindings() == old(self).bindings_after(term@, now as int, pick as int),
            final(self).instances() == old(self).instances(),
    {
        let t = chars_of(term);
        match self.find_binding(&t) {
            Some(i) => {
                let b = self.bindings[i].instance;
                if self.row_is_valid(&b, now) {
                    return Some(b);
                }
            },
            None => {},
        }
        let active = self.get_instances(now);
        if active.len() == 0 {
            return None;
        }
        let chosen = active[pick % active.len()];
        self.put_binding(t, chosen);
        Some(chosen)
    }

    /// Looks up the instance for `term` at `now`, drawing the instance at
    /// random where a new binding is needed.
    pub fn get_chatroom(&mut self, term: &str, now: i64) -> (r: Option<Instance>)
        requires
            old(self).wf(),
        ensures
            final(self).wf(),
            exists|pick: int|
                0 <= pick && r == old(self).answer(term@, now as int, pick)
                    && final(self).bindings() == old(self).bindings_after(term@, now as int, pick),
            final(self).instances() == old(self).instances(),
    {
        let n = self.get_instances(now).len();
        let pick = match random_index(n) {
            Some(i) => i,
            None => 0,
        };
        let r = self.choose_chatroom(term, now, pick);
        assert(0 <= pick as int && r == old(self).answer(term@, now as int, pick as int));
        r
    }

    fn find_row(&self, address: &Address) -> (r: Option<usize>)
        requires
            self.wf(),
        ensures
            match r {
                Some(i) => i < self.rows@.len() && self.rows@[i as int].0 == *address,
                None => !self.instances().contains_key(*address),
            },
    {
        let mut i: usize = 0;
        while i < self.rows.len()
            invariant
                self.wf(),
                i <= self.rows@.len(),
                forall|k: int| 0 <= k < i ==> self.rows@[k].0 != *address,
            decreases self.rows@.len() - i,
        {
            if self.rows[i].0 == *address {
                return Some(i);
            }
            i = i + 1;
        }
        None
    }

    fn put_row(&mut self, address: Address, row: InstanceRow)
        requires
            old(self).wf(),
        ensures
            final(self).wf(),
            final(self).instances() == old(self).instances().insert(address, row),
            final(self).bindings() == old(self).bindings(),
    {
        let ghost at: int;
        match self.find_row(&address) {
            Some(i) => {
                self.rows.set(i, (address, row));
                proof { at = i as int; }
            },
            None => {
                self.rows.push((address, row));
                proof { at = self.rows@.len() - 1; }
            },
        }
        self.table = Ghost(self.table@.insert(address, row));
        assert(self.rows@[at].0 == address);
        assert forall|k: int| 0 <= k < self.rows@.len() && k != at implies #[trigger] self.rows@[k]
            == old(self).rows@[k] && self.rows@[k].0 != address by {
            if old(self).rows@[k].0 == address {
                assert(old(self).table@.contains_key(old(self).rows@[k].0));
            }
        }
        assert forall|i: int| 0 <= i < self.rows@.len() implies self.table@.contains_key(
            #[trigger] self.rows@[i].0,
        ) && self.table@[self.rows@[i].0] == self.rows@[i].1 by {
            if i != at {
                assert(self.rows@[i] == old(self).rows@[i]);
            }
        }
        assert forall|i: int, j: int| 0 <= i < j < self.rows@.len() implies self.rows@[i].0
            != self.rows@[j].0 by {
            if i != at && j != at {
                assert(self.rows@[i] == old(self).rows@[i]);
                assert(self.rows@[j] == old(self).rows@[j]);
            } else if i == at {
                assert(self.rows@[j].0 != address);
            } else {
                assert(self.rows@[i].0 != address);
            }
        }
        assert forall|a: Address| #[trigger] self.table@.contains_key(a) implies exists|i: int|
            0 <= i < self.rows@.len() && #[trigger] self.rows@[i].0 == a by {
            if a != address {
                assert(old(self).table@.contains_key(a));
                let k = choose|k: int| 0 <= k < old(self).rows@.len() && old(self).rows@[k].0 == a;
                assert(self.rows@[k].0 == a);
            }
        }
    }
}

proof fn lemma_active_rows(rows: Seq<(Address, InstanceRow)>, now: int, k: int)
    requires
        0 <= k < active_rows(rows, now).len(),
    ensures
        exists|i: int|
            0 <= i < rows.len() && #[trigger] rows[i].0 == active_rows(rows, now)[k].address
                && rows[i].1.instance_id == active_rows(rows, now)[k].instance_id && is_active(
                rows[i].1,
                now,
            ),
    decreases rows.len(),
{
    let init = rows.drop_last();
    if k < active_rows(init, now).len() {
        lemma_active_rows(init, now, k);
        let i = choose|i: int|
            0 <= i < init.len() && #[trigger] init[i].0 == active_rows(init, now)[k].address
                && init[i].1.instance_id == active_rows(init, now)[k].instance_id && is_active(
                init[i].1,
                now,
            );
        assert(rows[i] == init[i]);
    } else {
        assert(rows[rows.len() - 1] == rows.last());
    }
}

proof fn lemma_active_rows_complete(rows: Seq<(Address, InstanceRow)>, now: int, i: int)
    requires
        0 <= i < rows.len(),
        is_active(rows[i].1, now),
    ensures
        active_rows(rows, now).contains(Instance { instance_id: rows[i].1.instance_id, address: rows[i].0 }),
    decreases rows.len(),
{
    let x = Instance { instance_id: rows[i].1.instance_id, address: rows[i].0 };
    let init = rows.drop_last();
    if i < rows.len() - 1 {
        assert(init[i] == rows[i]);
        lemma_active_rows_complete(init, now, i);
        let k = choose|k: int| 0 <= k < active_rows(init, now).len() && active_rows(init, now)[k] == x;
        let (a, row) = rows.last();
        if is_active(row, now) {
            assert(active_rows(rows, now)[k] == x);
        } else {
            assert(active_rows(rows, now)[k] == x);
        }
    } else {
        let r = active_rows(rows, now);
        assert(r[r.len() - 1] == x);
    }
}

proof fn lemma_active_rows_distinct(rows: Seq<(Address, InstanceRow)>, now: int)
    requires
        forall|i: int, j: int| 0 <= i < j < rows.len() ==> rows[i].0 != rows[j].0,
    ensures
        forall|a: int, b: int|
            0 <= a < b < active_rows(rows, now).len() ==> active_rows(rows, now)[a].address
                != active_rows(rows, now)[b].address,
    decreases rows.len(),
{
    if rows.len() > 0 {
        let init = rows.drop_last();
        lemma_active_rows_distinct(init, now);
        let rest = active_rows(init, now);
        let r = active_rows(rows, now);
        assert forall|a: int, b: int| 0 <= a < b < r.len() implies r[a].address != r[b].address by {
            if b == rest.len() {
                lemma_active_rows(init, now, a);
                let i = choose|i: int|
                    0 <= i < init.len() && #[trigger] init[i].0 == rest[a].address
                        && init[i].1.instance_id == rest[a].instance_id && is_active(init[i].1, now);
                assert(rows[i] == init[i]);
                assert(r[a] == rest[a]);
            } else {
                assert(r[a] == rest[a] && r[b] == rest[b]);
            }
        }
    }
}

/// The instances active at a time are exactly those whose binding would be
/// valid then: the registered ones whose lease is live.
pub proof fn lemma_active_instances(m: Model, now: int)
    requires
        m.wf(),
    ensures
        forall|x: Instance| #[trigger]
            m.active_instances(now).contains(x) <==> is_valid(m.instances(), x, now),
{
    assert forall|x: Instance| #[trigger]
        m.active_instances(now).contains(x) <==> is_valid(m.instances(), x, now) by {
        if m.active_instances(now).contains(x) {
            let k = choose|k: int| 0 <= k < m.active_instances(now).len() && m.active_instances(now)[k] == x;
            lemma_active_rows(m.rows@, now, k);
            let i = choose|i: int|
                0 <= i < m.rows@.len() && #[trigger] m.rows@[i].0 == active_rows(m.rows@, now)[k].address
                    && m.rows@[i].1.instance_id == active_rows(m.rows@, now)[k].instance_id && is_active(
                    m.rows@[i].1,
                    now,
                );
            assert(m.instances().contains_key(m.rows@[i].0));
        }
        if is_valid(m.instances(), x, now) {
            let i = choose|i: int| 0 <= i < m.rows@.len() && #[trigger] m.rows@[i].0 == x.address;
            assert(m.table@.contains_key(m.rows@[i].0));
            lemma_active_rows_complete(m.rows@, now, i);
        }
    }
}

/// A binding that is valid is answered as it stands, whatever is drawn,
/// and the directory keeps it: every searcher of the term meets the same
/// instance while the binding stays valid.
pub proof fn lemma_sticky_binding(m: Model, term: Seq<char>, now: int, pick: int)
    requires
        m.wf(),
        m.bindings().contains_key(term),
        is_valid(m.instances(), m.bindings()[term], now),
    ensures
        m.answer(term, now, pick) == Some(m.bindings()[term]),
        m.bindings_after(term, now, pick) == m.bindings(),
{
}

/// Once a lookup of a term has answered `x`, every later lookup of it answers
/// `x` and rebinds nothing, for as long as `x` stays valid: searchers of the
/// term keep meeting the same instance, call after call.
pub proof fn lemma_lookup_repeats(
    m: Model,
    term: Seq<char>,
    now: int,
    pick: int,
    x: Instance,
    next: Model,
    later: int,
    pick2: int,
)
    requires
        m.wf(),
        next.wf(),
        m.answer(term, now, pick) == Some(x),
        next.bindings() == m.bindings_after(term, now, pick),
        is_valid(next.instances(), x, later),
    ensures
        next.answer(term, later, pick2) == Some(x),
        next.bindings_after(term, later, pick2) == next.bindings(),
{
    assert(next.bindings().contains_key(term));
    assert(next.bindings()[term] == x);
    lemma_sticky_binding(next, term, later, pick2);
}

/// An instance that has had no successful `ping` (nor registration) for a
/// lease's length is told `NoLongerActive`.
pub proof fn lemma_lease_expires(m: Model, address: Address, instance_id: i32, now: int)
    requires
        m.instances().contains_key(address) ==> now - m.instances()[address].last_accessed
            >= LEASE_TTL_MS,
    ensures
        m.ping_outcome(address, instance_id, now) == PingResult::NoLongerActive,
{
}

/// When no instance is active, a lookup answers none and binds nothing.
pub proof fn lemma_no_active_instance(m: Model, term: Seq<char>, now: int, pick: int)
    requires
        m.wf(),
        forall|a: Address| #[trigger] m.instances().contains_key(a) ==> !is_active(m.instances()[a], now),
    ensures
        m.answer(term, now, pick) is None,
        m.bindings_after(term, now, pick) == m.bindings(),
{
    if m.active_instances(now).len() > 0 {
        lemma_active_rows(m.rows@, now, 0);
        let i = choose|i: int|
            0 <= i < m.rows@.len() && #[trigger] m.rows@[i].0 == m.active_instances(now)[0].address
                && m.rows@[i].1.instance_id == m.active_instances(now)[0].instance_id && is_active(
                m.rows@[i].1,
                now,
            );
        assert(m.instances().contains_key(m.rows@[i].0));
    }
}

} // verus!
