use vstd::prelude::*;

verus! {

/// Seconds before its expiry at which a reservation is no longer handed out.
pub const EXPIRY_GRACE_SECS: i64 = 45;

/// Most codes kept in the history of recently consumed codes.
pub const HISTORY_LEN: usize = 5;

/// A batch of codes reserved from the server for one raid.
/// Codes are handed out from the tail of `codes`.
#[derive(Debug, Clone, PartialEq, Eq)]
pub struct CodeReservation {
    pub codes: Vec<String>,
    /// Expiry as a unix timestamp, in seconds.
    pub expires_at: i64,
}

/// A reservation may still be handed out at time `now`: it holds a code and
/// lies outside the grace window before its expiry.
pub open spec fn is_live(r: CodeReservation, now: int) -> bool {
    r.codes@.len() > 0 && r.expires_at >= now + EXPIRY_GRACE_SECS
}

/// The reservations of `q` that are live at `now`, in their order.
pub open spec fn live_only(q: Seq<CodeReservation>, now: int) -> Seq<CodeReservation>
    decreases q.len(),
{
    if q.len() == 0 {
        q
    } else {
        let rest = live_only(q.drop_last(), now);
        if is_live(q.last(), now) {
            rest.push(q.last())
        } else {
            rest
        }
    }
}

/// Number of codes held by all reservations of `q`.
pub open spec fn total_codes(q: Seq<CodeReservation>) -> int
    decreases q.len(),
{
    if q.len() == 0 {
        0
    } else {
        total_codes(q.drop_last()) + q.last().codes@.len()
    }
}

/// Every reservation of `live_only(q, now)` is live.
pub proof fn lemma_live_only_all_live(q: Seq<CodeReservation>, now: int)
    ensures
        forall|k: int| 0 <= k < live_only(q, now).len() ==> is_live(#[trigger] live_only(q, now)[k], now),
    decreases q.len(),
{
    if q.len() > 0 {
        lemma_live_only_all_live(q.drop_last(), now);
        let rest = live_only(q.drop_last(), now);
        if is_live(q.last(), now) {
            assert forall|k: int| 0 <= k < rest.push(q.last()).len() implies is_live(
                #[trigger] rest.push(q.last())[k],
                now,
            ) by {
                if k < rest.len() {
                    assert(rest.push(q.last())[k] == rest[k]);
                }
            }
        }
    }
}

/// A queue whose reservations are all live is left as it is.
pub proof fn lemma_live_only_of_live(q: Seq<CodeReservation>, now: int)
    requires
        forall|k: int| 0 <= k < q.len() ==> is_live(#[trigger] q[k], now),
    ensures
        live_only(q, now) == q,
    decreases q.len(),
{
    if q.len() > 0 {
        lemma_live_only_of_live(q.drop_last(), now);
        assert(q.drop_last().push(q.last()) =~= q);
    }
}

/// Removing the reservations of `q` that are not live at `now`.
pub fn drop_stale(q: Vec<CodeReservation>, now: i64) -> (r: Vec<CodeReservation>)
    ensures
        r@ == live_only(q@, now as int),
{
    let mut out: Vec<CodeReservation> = Vec::new();
    let mut rest = q;
    let ghost q0 = rest@;
    let n: usize = rest.len();
    let mut i: usize = 0;
    // Walk the queue from its head, keeping live reservations in order.
    while i < n
        invariant
            n == q0.len(),
            i <= n,
            rest@ == q0.subrange(i as int, n as int),
            out@ == live_only(q0.take(i as int), now as int),
        decreases n - i,
    {
        let r = rest.remove(0);
        assert(q0.take(i as int + 1).drop_last() =~= q0.take(i as int));
        assert(rest@ =~= q0.subrange(i as int + 1, n as int));
        if r.codes.len() > 0 && (r.expires_at as i128) >= (now as i128) + (EXPIRY_GRACE_SECS as i128) {
            out.push(r);
        }
        i = i + 1;
    }
    assert(q0.take(n as int) =~= q0);
    out
}

/// Replacing entry `k` of `q` changes the number of codes by the difference
/// in that entry's codes.
pub proof fn lemma_total_codes_update(q: Seq<CodeReservation>, k: int, r: CodeReservation)
    requires
        0 <= k < q.len(),
    ensures
        total_codes(q.update(k, r)) == total_codes(q) - q[k].codes@.len() + r.codes@.len(),
    decreases q.len(),
{
    if k == q.len() - 1 {
        assert(q.update(k, r).drop_last() =~= q.drop_last());
    } else {
        assert(q.update(k, r).drop_last() =~= q.drop_last().update(k, r));
        lemma_total_codes_update(q.drop_last(), k, r);
    }
}

/// The reservations reserved for one raid, oldest first.
pub struct RaidQueue {
    pub raid: String,
    pub reservations: Vec<CodeReservation>,
}

/// `i` is the first position of `qs` that belongs to raid `name`.
pub open spec fn first_index(qs: Seq<RaidQueue>, name: Seq<char>, i: int) -> bool {
    &&& 0 <= i < qs.len()
    &&& qs[i].raid@ == name
    &&& forall|j: int| 0 <= j < i ==> qs[j].raid@ != name
}

/// The queue of raid `name` in `qs`; empty where the raid has none.
pub open spec fn queue_in(qs: Seq<RaidQueue>, name: Seq<char>) -> Seq<CodeReservation> {
    if exists|i: int| first_index(qs, name, i) {
        qs[choose|i: int| first_index(qs, name, i)].reservations@
    } else {
        Seq::empty()
    }
}

/// The queue of a raid is the one at its first position.
pub proof fn lemma_queue_at(qs: Seq<RaidQueue>, name: Seq<char>, i: int)
    requires
        first_index(qs, name, i),
    ensures
        queue_in(qs, name) == qs[i].reservations@,
{
    let c = choose|k: int| first_index(qs, name, k);
    assert(first_index(qs, name, c));
    if c < i {
        assert(qs[c].raid@ != name);
    } else if c > i {
        assert(qs[i].raid@ != name);
    }
}

/// A raid that does not occur has an empty queue.
pub proof fn lemma_queue_absent(qs: Seq<RaidQueue>, name: Seq<char>)
    requires
        forall|j: int| 0 <= j < qs.len() ==> qs[j].raid@ != name,
    ensures
        queue_in(qs, name) == Seq::<CodeReservation>::empty(),
{
    if exists|i: int| first_index(qs, name, i) {
        let c = choose|i: int| first_index(qs, name, i);
        assert(qs[c].raid@ != name);
    }
}

/// Two lists of queues with the same raids at the same positions find a raid
/// at the same position.
pub proof fn lemma_same_raids(qs: Seq<RaidQueue>, qs2: Seq<RaidQueue>, name: Seq<char>)
    requires
        qs.len() == qs2.len(),
        forall|j: int| 0 <= j < qs.len() ==> qs[j].raid@ == #[trigger] qs2[j].raid@,
    ensures
        forall|i: int| first_index(qs, name, i) <==> #[trigger] first_index(qs2, name, i),
        (forall|j: int| 0 <= j < qs.len() ==> qs[j].raid@ != name) ==> queue_in(qs, name)
            == Seq::<CodeReservation>::empty() && queue_in(qs2, name)
            == Seq::<CodeReservation>::empty(),
{
    assert forall|i: int| first_index(qs, name, i) <==> #[trigger] first_index(qs2, name, i) by {
        if 0 <= i < qs.len() {
            assert(qs[i].raid@ == qs2[i].raid@);
            assert forall|j: int| 0 <= j < i implies (qs[j].raid@ != name <==> qs2[j].raid@ != name) by {
                assert(qs[j].raid@ == qs2[j].raid@);
            }
        }
    }
    if forall|j: int| 0 <= j < qs.len() ==> qs[j].raid@ != name {
        lemma_queue_absent(qs, name);
        assert forall|j: int| 0 <= j < qs2.len() implies qs2[j].raid@ != name by {
            assert(qs[j].raid@ == qs2[j].raid@);
        }
        lemma_queue_absent(qs2, name);
    }
}

/// The history of consumed codes after `code` was consumed: most recent first,
/// at most `HISTORY_LEN` long.
pub open spec fn history_after(h: Seq<String>, code: String) -> Seq<String> {
    let s = seq![code] + h;
    if s.len() > HISTORY_LEN {
        s.take(HISTORY_LEN as int)
    } else {
        s
    }
}

/// Per raid, the reservations reserved from the server and not yet used up,
/// together with the history of the codes handed out most recently.
pub struct ReservationStore {
    queues: Vec<RaidQueue>,
    last_codes: Vec<String>,
}

impl ReservationStore {
    /// The reservations of raid `name`, oldest first.
    pub closed spec fn queue(&self, name: Seq<char>) -> Seq<CodeReservation> {
        queue_in(self.queues@, name)
    }

    /// Codes handed out most recently, most recent first.
    pub closed spec fn history(&self) -> Seq<String> {
        self.last_codes@
    }

    /// The history holds at most `HISTORY_LEN` codes, and no two queues
    /// belong to the same raid.
    pub closed spec fn wf(&self) -> bool {
        &&& self.last_codes@.len() <= HISTORY_LEN
        &&& forall|i: int, j: int|
            0 <= i < j < self.queues@.len() ==> (#[trigger] self.queues@[i]).raid@ != (#[trigger] self.queues@[j]).raid@
    }

    /// Every reservation of every raid is live at `now`.
    pub open spec fn is_clean(&self, now: int) -> bool {
        forall|name: Seq<char>, k: int|
            0 <= k < self.queue(name).len() ==> is_live(#[trigger] self.queue(name)[k], now)
    }

    pub fn new() -> (r: ReservationStore)
        ensures
            r.wf(),
            forall|name: Seq<char>| #[trigger] r.queue(name) == Seq::<CodeReservation>::empty(),
            r.history() == Seq::<String>::empty(),
    {
        let r = ReservationStore { queues: Vec::new(), last_codes: Vec::new() };
        assert forall|name: Seq<char>| #[trigger] r.queue(name) == Seq::<CodeReservation>::empty() by {
            lemma_queue_absent(r.queues@, name);
        }
        r
    }

    fn find(&self, raid: &String) -> (r: Option<usize>)
        ensures
            match r {
                Some(i) => first_index(self.queues@, raid@, i as int),
                None => forall|j: int| 0 <= j < self.queues@.len() ==> self.queues@[j].raid@ != raid@,
            },
    {
        let mut i: usize = 0;
        while i < self.queues.len()
            invariant
                i <= self.queues@.len(),
                forall|j: int| 0 <= j < i ==> self.queues@[j].raid@ != raid@,
            decreases self.queues@.len() - i,
        {
            if self.queues[i].raid == *raid {
                return Some(i);
            }
            i = i + 1;
        }
        None
    }

    /// Codes handed out most recently, most recent first.
    pub fn history_codes(&self) -> (r: &Vec<String>)
        ensures
            r@ == self.history(),
    {
        &self.last_codes
    }

    /// The reservations of `raid`, oldest first.
    pub fn reservations(&self, raid: &String) -> (r: Vec<&CodeReservation>)
        ensures
            r@.len() == self.queue(raid@).len(),
            forall|k: int| 0 <= k < r@.len() ==> *r@[k] == #[trigger] self.queue(raid@)[k],
    {
        let mut out: Vec<&CodeReservation> = Vec::new();
        match self.find(raid) {
            None => {
                proof { lemma_queue_absent(self.queues@, raid@); }
            },
            Some(i) => {
                proof { lemma_queue_at(self.queues@, raid@, i as int); }
                let q = &self.queues[i].reservations;
                let mut k: usize = 0;
                while k < q.len()
                    invariant
                        k <= q@.len(),
                        q@ == self.queue(raid@),
                        out@.len() == k,
                        forall|m: int| 0 <= m < k ==> *out@[m] == #[trigger] q@[m],
                    decreases q@.len() - k,
                {
                    out.push(&q[k]);
                    k = k + 1;
                }
            },
        }
        out
    }

    /// Appends `reservation` to the tail of the queue of `raid`.
    pub fn apply_new_reservation(&mut self, raid: String, reservation: CodeReservation)
        requires
            old(self).wf(),
        ensures
            final(self).wf(),
            final(self).queue(raid@) == old(self).queue(raid@).push(reservation),
            forall|name: Seq<char>|
                name != raid@ ==> #[trigger] final(self).queue(name) == old(self).queue(name),
            final(self).history() == old(self).history(),
    {
        let ghost qs = self.queues@;
        match self.find(&raid) {
            Some(i) => {
                proof { lemma_queue_at(qs, raid@, i as int); }
                let mut q = self.queues.remove(i);
                q.reservations.push(reservation);
                self.queues.insert(i, q);
                assert(self.queues@ =~= qs.update(i as int, q));
                proof {
                    lemma_update_same_raid(qs, i as int, q, raid@);
                    assert forall|name: Seq<char>| name != raid@ implies #[trigger] queue_in(
                        self.queues@,
                        name,
                    ) == queue_in(qs, name) by {
                        lemma_update_same_raid(qs, i as int, q, name);
                    }
                }
            },
            None => {
                proof { lemma_queue_absent(qs, raid@); }
                let mut v: Vec<CodeReservation> = Vec::new();
                v.push(reservation);
                let q = RaidQueue { raid, reservations: v };
                self.queues.push(q);
                proof {
                    lemma_queue_at(self.queues@, raid@, qs.len() as int);
                    assert(v@ =~= Seq::<CodeReservation>::empty().push(reservation));
                    assert forall|name: Seq<char>| name != raid@ implies #[trigger] queue_in(
                        self.queues@,
                        name,
                    ) == queue_in(qs, name) by {
                        lemma_push_other(qs, q, name);
                    }
                }
            },
        }
    }

    /// Number of codes reserved for `raid`, over all its reservations
    /// (saturating at `usize::MAX`).
    pub fn reserved_count(&self, raid: &String) -> (r: usize)
        ensures
            r as int == if total_codes(self.queue(raid@)) <= usize::MAX {
                total_codes(self.queue(raid@))
            } else {
                usize::MAX as int
            },
    {
        match self.find(raid) {
            None => {
                proof { lemma_queue_absent(self.queues@, raid@); }
                0
            },
            Some(i) => {
                proof { lemma_queue_at(self.queues@, raid@, i as int); }
                let q = &self.queues[i].reservations;
                let mut acc: usize = 0;
                let mut k: usize = 0;
                while k < q.len()
                    invariant
                        k <= q@.len(),
                        acc as int == if total_codes(q@.take(k as int)) <= usize::MAX {
                            total_codes(q@.take(k as int))
                        } else {
                            usize::MAX as int
                        },
                    decreases q@.len() - k,
                {
                    assert(q@.take(k as int + 1).drop_last() =~= q@.take(k as int));
                    let n = q[k].codes.len();
                    if acc > usize::MAX - n {
                        acc = usize::MAX;
                    } else {
                        acc = acc + n;
                    }
                    k = k + 1;
                }
                assert(q@.take(q@.len() as int) =~= q@);
                acc
            },
        }
    }

    /// Hands out one code of `raid`: the last code of its oldest reservation,
    /// which is recorded at the front of the history. Nothing is handed out
    /// where that reservation is missing or holds no code; a reservation left
    /// empty stays until the next cleanup.
    pub fn consume_one(&mut self, raid: &String) -> (r: Option<String>)
        requires
            old(self).wf(),
        ensures
            final(self).wf(),
            final(self).history().len() <= HISTORY_LEN,
            ({
                let q = old(self).queue(raid@);
                let q2 = final(self).queue(raid@);
                if q.len() > 0 && q[0].codes@.len() > 0 {
                    &&& r == Some(q[0].codes@.last())
                    &&& q2.len() == q.len()
                    &&& q2[0].codes@ == q[0].codes@.drop_last()
                    &&& q2[0].expires_at == q[0].expires_at
                    &&& forall|k: int| 1 <= k < q.len() ==> q2[k] == #[trigger] q[k]
                    &&& total_codes(q2) == total_codes(q) - 1
                    &&& final(self).history() == history_after(old(self).history(), q[0].codes@.last())
                } else {
                    &&& r is None
                    &&& q2 == q
                    &&& final(self).history() == old(self).history()
                }
            }),
            forall|name: Seq<char>|
                name != raid@ ==> #[trigger] final(self).queue(name) == old(self).queue(name),
    {
        let ghost qs = self.queues@;
        match self.find(raid) {
            None => {
                proof { lemma_queue_absent(qs, raid@); }
                None
            },
            Some(i) => {
                proof { lemma_queue_at(qs, raid@, i as int); }
                if self.queues[i].reservations.len() == 0 {
                    return None;
                }
                if self.queues[i].reservations[0].codes.len() == 0 {
                    return None;
                }
                let mut q = self.queues.remove(i);
                let ghost q_old = q.reservations@;
                let mut head = q.reservations.remove(0);
                let ghost head_old = head;
                let code = head.codes.pop().unwrap();
                q.reservations.insert(0, head);
                assert(q.reservations@ =~= q_old.update(0, head));
                self.queues.insert(i, q);
                assert(self.queues@ =~= qs.update(i as int, q));
                self.last_codes.insert(0, code.clone());
                self.last_codes.truncate(HISTORY_LEN);
                proof {
                    lemma_update_same_raid(qs, i as int, q, raid@);
                    lemma_total_codes_update(q_old, 0, head);
                    assert forall|name: Seq<char>| name != raid@ implies #[trigger] queue_in(
                        self.queues@,
                        name,
                    ) == queue_in(qs, name) by {
                        lemma_update_same_raid(qs, i as int, q, name);
                    }
                }
                Some(code)
            },
        }
    }

    /// Removes from every queue the reservations that are not live at `now`.
    pub fn cleanup(&mut self, now: i64)
        requires
            old(self).wf(),
        ensures
            final(self).wf(),
            final(self).history().len() <= HISTORY_LEN,
            forall|name: Seq<char>|
                #[trigger] final(self).queue(name) == live_only(old(self).queue(name), now as int),
            final(self).history() == old(self).history(),
            final(self).is_clean(now as int),
    {
        let ghost qs = self.queues@;
        let n: usize = self.queues.len();
        let mut i: usize = 0;
        while i < n
            invariant
                n == qs.len(),
                i <= n,
                self.wf(),
                self.last_codes@ == old(self).last_codes@,
                self.queues@.len() == n,
                forall|j: int| 0 <= j < n ==> (#[trigger] self.queues@[j]).raid@ == qs[j].raid@,
                forall|j: int| 0 <= j < i ==> (#[trigger] self.queues@[j]).reservations@
                    == live_only(qs[j].reservations@, now as int),
                forall|j: int| i <= j < n ==> #[trigger] self.queues@[j] == qs[j],
            decreases n - i,
        {
            let q = self.queues.remove(i);
            let RaidQueue { raid, reservations } = q;
            let kept = drop_stale(reservations, now);
            self.queues.insert(i, RaidQueue { raid, reservations: kept });
            i = i + 1;
        }
        proof {
            assert forall|name: Seq<char>| #[trigger] queue_in(self.queues@, name) == live_only(
                queue_in(qs, name),
                now as int,
            ) by {
                lemma_same_raids(qs, self.queues@, name);
                if exists|k: int| first_index(qs, name, k) {
                    let k = choose|k: int| first_index(qs, name, k);
                    lemma_queue_at(qs, name, k);
                    lemma_queue_at(self.queues@, name, k);
                } else {
                    assert forall|j: int| 0 <= j < qs.len() implies qs[j].raid@ != name by {
                        if qs[j].raid@ == name {
                            lemma_first_exists(qs, name, j);
                        }
                    }
                }
            }
            assert forall|name: Seq<char>, k: int|
                0 <= k < self.queue(name).len() implies is_live(#[trigger] self.queue(name)[k], now as int) by {
                lemma_live_only_all_live(queue_in(qs, name), now as int);
            }
        }
    }
}

/// A raid that occurs in `qs` has a first position there.
pub proof fn lemma_first_exists(qs: Seq<RaidQueue>, name: Seq<char>, j: int)
    requires
        0 <= j < qs.len(),
        qs[j].raid@ == name,
    ensures
        exists|i: int| first_index(qs, name, i),
    decreases j,
{
    if forall|m: int| 0 <= m < j ==> qs[m].raid@ != name {
        assert(first_index(qs, name, j));
    } else {
        let m = choose|m: int| 0 <= m < j && qs[m].raid@ != name == false;
        lemma_first_exists(qs, name, m);
    }
}

/// Appending the queue of another raid leaves the queue of `name` as it was.
pub proof fn lemma_push_other(qs: Seq<RaidQueue>, q: RaidQueue, name: Seq<char>)
    requires
        q.raid@ != name,
    ensures
        queue_in(qs.push(q), name) == queue_in(qs, name),
{
    let qs2 = qs.push(q);
    if exists|k: int| first_index(qs, name, k) {
        let k = choose|k: int| first_index(qs, name, k);
        lemma_queue_at(qs, name, k);
        assert(first_index(qs2, name, k));
        lemma_queue_at(qs2, name, k);
    } else {
        assert forall|j: int| 0 <= j < qs.len() implies qs[j].raid@ != name by {
            if qs[j].raid@ == name {
                lemma_first_exists(qs, name, j);
            }
        }
        assert forall|j: int| 0 <= j < qs2.len() implies qs2[j].raid@ != name by {
            if j < qs.len() {
                assert(qs2[j] == qs[j]);
            }
        }
        lemma_queue_absent(qs, name);
        lemma_queue_absent(qs2, name);
    }
}

/// Replacing the queue at position `i` by one of the same raid changes the
/// queue of `name` only where `i` is its first position.
pub proof fn lemma_update_same_raid(qs: Seq<RaidQueue>, i: int, q: RaidQueue, name: Seq<char>)
    requires
        0 <= i < qs.len(),
        q.raid@ == qs[i].raid@,
    ensures
        queue_in(qs.update(i, q), name) == if first_index(qs, name, i) {
            q.reservations@
        } else {
            queue_in(qs, name)
        },
{
    let qs2 = qs.update(i, q);
    lemma_same_raids(qs, qs2, name);
    if exists|k: int| first_index(qs, name, k) {
        let k = choose|k: int| first_index(qs, name, k);
        lemma_queue_at(qs, name, k);
        lemma_queue_at(qs2, name, k);
    } else {
        assert forall|j: int| 0 <= j < qs.len() implies qs[j].raid@ != name by {
            if qs[j].raid@ == name {
                lemma_first_exists(qs, name, j);
            }
        }
    }
}

/// Cleaning a queue twice at the same time is cleaning it once.
pub proof fn lemma_live_only_idempotent(q: Seq<CodeReservation>, now: int)
    ensures
        live_only(live_only(q, now), now) == live_only(q, now),
{
    lemma_live_only_all_live(q, now);
    lemma_live_only_of_live(live_only(q, now), now);
}

/// Dropping reservations without codes keeps the number of codes.
pub proof fn lemma_total_codes_of_live(q: Seq<CodeReservation>, now: int)
    requires
        forall|k: int| 0 <= k < q.len() && (#[trigger] q[k]).codes@.len() > 0 ==> q[k].expires_at >= now + EXPIRY_GRACE_SECS,
    ensures
        total_codes(live_only(q, now)) == total_codes(q),
    decreases q.len(),
{
    if q.len() > 0 {
        assert forall|k: int| 0 <= k < q.drop_last().len() && (#[trigger] q.drop_last()[k]).codes@.len() > 0 implies q.drop_last()[k].expires_at >= now + EXPIRY_GRACE_SECS by {
            assert(q.drop_last()[k] == q[k]);
        }
        lemma_total_codes_of_live(q.drop_last(), now);
        let l = q[q.len() - 1];
        assert(q.last() == l);
        let rest = live_only(q.drop_last(), now);
        if !is_live(l, now) {
            assert(l.codes@.len() == 0);
        } else {
            assert(rest.push(l).drop_last() =~= rest);
        }
    }
}

/// A refill never lowers the count: a batch appended to a queue and cleaned
/// at the same time leaves at least as many codes as the queue had after its
/// own cleanup.
pub proof fn refill_never_lowers_count(q: Seq<CodeReservation>, batch: CodeReservation, now: int)
    ensures
        total_codes(live_only(live_only(q, now).push(batch), now)) >= total_codes(live_only(q, now)),
{
    let c = live_only(q, now);
    lemma_live_only_idempotent(q, now);
    assert(c.push(batch).drop_last() =~= c);
}

/// The history after a code was consumed starts with that code, follows with
/// the earlier history, and stays within `HISTORY_LEN` codes.
pub proof fn history_stays_bounded_and_recent_first(h: Seq<String>, code: String)
    requires
        h.len() <= HISTORY_LEN,
    ensures
        history_after(h, code).len() <= HISTORY_LEN,
        history_after(h, code)[0] == code,
        forall|k: int| 1 <= k < history_after(h, code).len() ==> #[trigger] history_after(h, code)[k] == h[k - 1],
{
}

/// A queue whose head is not live and whose other reservations are live loses
/// exactly its head to cleanup.
pub proof fn lemma_live_only_dead_head(q: Seq<CodeReservation>, now: int)
    requires
        q.len() > 0,
        !is_live(q[0], now),
        forall|k: int| 1 <= k < q.len() ==> is_live(#[trigger] q[k], now),
    ensures
        live_only(q, now) == q.drop_first(),
    decreases q.len(),
{
    if q.len() == 1 {
        assert(q.drop_last() =~= Seq::<CodeReservation>::empty());
        assert(q.last() == q[0]);
        assert(live_only(q.drop_last(), now) =~= Seq::<CodeReservation>::empty());
        assert(q.drop_first() =~= Seq::<CodeReservation>::empty());
    } else {
        let p = q.drop_last();
        assert forall|k: int| 1 <= k < p.len() implies is_live(#[trigger] p[k], now) by {
            assert(p[k] == q[k]);
        }
        assert(p[0] == q[0]);
        lemma_live_only_dead_head(p, now);
        assert(q.last() == q[q.len() - 1]);
        assert(is_live(q[q.len() - 1], now));
        assert(live_only(q, now) == live_only(p, now).push(q.last()));
        assert(p.drop_first().push(q.last()) =~= q.drop_first());
    }
}

} // verus!
