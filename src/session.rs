use vstd::prelude::*;
use crate::naming::{normalize_raid_name, normalized};
use crate::reservation::{
    history_after, is_live, lemma_live_only_dead_head, lemma_live_only_idempotent,
    lemma_live_only_of_live, lemma_total_codes_of_live, live_only, total_codes, CodeReservation,
    ReservationStore, HISTORY_LEN,
};
use crate::text::lower_of;

verus! {

/// A selected raid is topped up while it holds fewer reserved codes than this.
pub const REFILL_FLOOR: usize = 5;

/// Counts of one raid as the server reports them.
#[derive(Debug, Clone, Copy, PartialEq, Eq)]
pub struct PartialRaid {
    pub remaining_code_count: u32,
    pub tried_code_count: u32,
}

/// Everything the server holds of one raid.
#[derive(Debug, Clone)]
pub struct FullRaid {
    pub remaining_codes: Vec<String>,
    pub tried_codes: Vec<String>,
    pub code_reservations: Vec<CodeReservation>,
}

/// The events that the session reacts to, one at a time.
#[derive(Debug, Clone)]
pub enum Message {
    /// The outcome of fetching the raid list: `None` where the fetch failed.
    RaidsUpdated(Option<Vec<(String, PartialRaid)>>),
    /// The outcome of reserving codes for a raid: `None` where it failed.
    CodesReserved(Option<(String, CodeReservation)>),
    SelectRaid(Option<String>),
    /// The raid name being typed, as the user typed it.
    CreateRaidInputChanged(String),
    CreateRaid,
    DeleteRaid,
    /// A poll tick.
    Refresh,
    /// The hotkey was pressed; `true` where no injection was running, so that
    /// the injection lock could be taken.
    HotkeyPressed(bool),
    Dummy,
}

/// What the session asks its surroundings to do after a message.
#[derive(Debug, Clone, PartialEq, Eq)]
pub enum Action {
    Nothing,
    /// Fetch the raid list.
    FetchRaids,
    /// Fetch the raid list, and reserve more codes for this raid.
    FetchRaidsAndReserve(String),
    /// Type this code into the game, and report to the server that it was
    /// tried for this raid; the report's outcome is not awaited.
    InjectAndReport { raid: String, code: String },
    /// Ask the server to create this raid; the outcome is not awaited.
    CreateRaid(String),
    /// Ask the server to delete this raid; the outcome is not awaited.
    DeleteRaid(String),
}

/// `name` is a raid of the list.
pub open spec fn listed(raids: Seq<(String, PartialRaid)>, name: Seq<char>) -> bool {
    exists|i: int| 0 <= i < raids.len() && raids[i].0@ == name
}

/// A selection kept only where it names a raid of the list.
pub open spec fn reconciled(sel: Option<String>, raids: Seq<(String, PartialRaid)>) -> Option<String> {
    match sel {
        Some(n) => if listed(raids, n@) {
            Some(n)
        } else {
            None
        },
        None => None,
    }
}

/// The count after one more tried code, saturating.
pub open spec fn tried_after(n: u64) -> u64 {
    if n < u64::MAX {
        (n + 1) as u64
    } else {
        n
    }
}

fn has_raid(raids: &Vec<(String, PartialRaid)>, name: &String) -> (r: bool)
    ensures
        r == listed(raids@, name@),
{
    let mut i: usize = 0;
    while i < raids.len()
        invariant
            i <= raids@.len(),
            forall|j: int| 0 <= j < i ==> raids@[j].0@ != name@,
        decreases raids@.len() - i,
    {
        if raids[i].0 == *name {
            return true;
        }
        i = i + 1;
    }
    false
}

/// The session: known raids, the selected raid, reserved codes, and the
/// counters shown to the user.
pub struct CodeRaid {
    connected: bool,
    current_raid: Option<String>,
    raids: Vec<(String, PartialRaid)>,
    store: ReservationStore,
    create_raid_name: String,
    codes_tried: u64,
}

/// What handling `message` at time `now` does: `old` is the session before,
/// `new` the session after, and `action` what is asked of the surroundings.
pub open spec fn update_post(old: CodeRaid, message: Message, now: int, new: CodeRaid, action: Action) -> bool {
    &&& new.wf()
    &&& new.spec_history().len() <= HISTORY_LEN
    &&& new.selection_valid()
    &&& new.is_clean(now)
    &&& {
                let sel = reconciled(old.spec_selected(), old.spec_raids());
                let s = new;
                &&& !(message is RaidsUpdated) ==> s.spec_raids() == old.spec_raids()
                    && s.spec_connected() == old.spec_connected()
                &&& !(message is RaidsUpdated) && !(message is SelectRaid) ==> s.spec_selected() == sel
                &&& !(message is CreateRaidInputChanged) && !(message is CreateRaid)
                    ==> s.spec_pending_name() == old.spec_pending_name()
                &&& !(message is HotkeyPressed) ==> s.spec_history() == old.spec_history()
                    && s.spec_tried() == old.spec_tried()
                &&& !(message is HotkeyPressed) && !(message is CodesReserved) ==> forall|name: Seq<char>|
                    #[trigger] s.queue(name) == live_only(old.queue(name), now)
                &&& match message {
                    Message::RaidsUpdated(res) => {
                        &&& s.spec_connected() == res is Some
                        &&& s.spec_raids() == match res {
                            Some(r) => r@,
                            None => old.spec_raids(),
                        }
                        &&& s.spec_selected() == reconciled(sel, s.spec_raids())
                        &&& action is Nothing
                    },
                    Message::SelectRaid(raid) => {
                        &&& s.spec_selected() == reconciled(raid, old.spec_raids())
                        &&& action is Nothing
                    },
                    Message::CodesReserved(res) => {
                        &&& action is Nothing
                        &&& match res {
                            Some((raid, batch)) => {
                                &&& s.queue(raid@) == live_only(
                                    live_only(old.queue(raid@), now).push(batch),
                                    now,
                                )
                                &&& forall|name: Seq<char>| name != raid@ ==> #[trigger] s.queue(name)
                                    == live_only(old.queue(name), now)
                            },
                            None => forall|name: Seq<char>|
                                #[trigger] s.queue(name) == live_only(old.queue(name), now),
                        }
                    },
                    Message::Refresh => match sel {
                        Some(raid) => if total_codes(live_only(old.queue(raid@), now))
                            < REFILL_FLOOR {
                            action == Action::FetchRaidsAndReserve(raid)
                        } else {
                            action is FetchRaids
                        },
                        None => action is FetchRaids,
                    },
                    Message::HotkeyPressed(idle) => {
                        let q = match sel {
                            Some(raid) => live_only(old.queue(raid@), now),
                            None => Seq::empty(),
                        };
                        if idle && sel is Some && q.len() > 0 {
                            let raid = sel->0;
                            let code = q[0].codes@.last();
                            &&& action == (Action::InjectAndReport { raid, code })
                            &&& s.spec_history() == history_after(old.spec_history(), code)
                            &&& s.spec_tried() == tried_after(old.spec_tried())
                            &&& total_codes(s.queue(raid@)) == total_codes(q) - 1
                            &&& if q[0].codes@.len() > 1 {
                                let q2 = s.queue(raid@);
                                &&& q2.len() == q.len()
                                &&& q2[0].codes@ == q[0].codes@.drop_last()
                                &&& q2[0].expires_at == q[0].expires_at
                                &&& forall|k: int| 1 <= k < q.len() ==> #[trigger] q2[k] == q[k]
                            } else {
                                s.queue(raid@) == q.drop_first()
                            }
                            &&& forall|name: Seq<char>| name != raid@ ==> #[trigger] s.queue(name)
                                == live_only(old.queue(name), now)
                        } else {
                            &&& action is Nothing
                            &&& s.spec_history() == old.spec_history()
                            &&& s.spec_tried() == old.spec_tried()
                            &&& forall|name: Seq<char>|
                                #[trigger] s.queue(name) == live_only(old.queue(name), now)
                        }
                    },
                    Message::CreateRaidInputChanged(raw) => {
                        &&& s.spec_pending_name() == normalized(lower_of(raw@))
                        &&& action is Nothing
                    },
                    Message::CreateRaid => if old.spec_pending_name().len() > 0 {
                        &&& action is CreateRaid
                        &&& action->CreateRaid_0@ == old.spec_pending_name()
                        &&& s.spec_pending_name().len() == 0
                    } else {
                        &&& action is Nothing
                        &&& s.spec_pending_name() == old.spec_pending_name()
                    },
                    Message::DeleteRaid => match sel {
                        Some(raid) => action == Action::DeleteRaid(raid),
                        None => action is Nothing,
                    },
                    Message::Dummy => action is Nothing,
                }
            }
}

impl CodeRaid {
    /// The last fetch of the raid list succeeded.
    pub closed spec fn spec_connected(&self) -> bool {
        self.connected
    }

    pub closed spec fn spec_selected(&self) -> Option<String> {
        self.current_raid
    }

    /// The raid list of the last successful fetch.
    pub closed spec fn spec_raids(&self) -> Seq<(String, PartialRaid)> {
        self.raids@
    }

    /// The reservations of raid `name`, oldest first.
    pub closed spec fn queue(&self, name: Seq<char>) -> Seq<CodeReservation> {
        self.store.queue(name)
    }

    /// Codes handed out most recently, most recent first.
    pub closed spec fn spec_history(&self) -> Seq<String> {
        self.store.history()
    }

    /// The normalized name of the raid to create.
    pub closed spec fn spec_pending_name(&self) -> Seq<char> {
        self.create_raid_name@
    }

    /// Codes handed out in this session.
    pub closed spec fn spec_tried(&self) -> u64 {
        self.codes_tried
    }

    pub closed spec fn wf(&self) -> bool {
        self.store.wf()
    }

    /// The selection, if any, names a raid of the list.
    pub open spec fn selection_valid(&self) -> bool {
        match self.spec_selected() {
            Some(n) => listed(self.spec_raids(), n@),
            None => true,
        }
    }

    /// No reservation that is not live at `now` is left.
    pub open spec fn is_clean(&self, now: int) -> bool {
        forall|name: Seq<char>, k: int|
            0 <= k < self.queue(name).len() ==> is_live(#[trigger] self.queue(name)[k], now)
    }

    /// A session with nothing known yet, and the first thing to do.
    pub fn new() -> (r: (CodeRaid, Action))
        ensures
            r.0.wf(),
            r.0.spec_history().len() <= HISTORY_LEN,
            r.0.selection_valid(),
            !r.0.spec_connected(),
            r.0.spec_selected() is None,
            r.0.spec_raids() == Seq::<(String, PartialRaid)>::empty(),
            forall|name: Seq<char>| #[trigger] r.0.queue(name) == Seq::<CodeReservation>::empty(),
            r.0.spec_history() == Seq::<String>::empty(),
            r.0.spec_pending_name() == Seq::<char>::empty(),
            r.0.spec_tried() == 0,
            r.1 is FetchRaids,
    {
        let s = CodeRaid {
            connected: false,
            current_raid: None,
            raids: Vec::new(),
            store: ReservationStore::new(),
            create_raid_name: String::new(),
            codes_tried: 0,
        };
        (s, Action::FetchRaids)
    }

    /// Clears a selection that the raid list no longer holds, and removes the
    /// reservations that are not live at `now`.
    pub fn cleanup_state(&mut self, now: i64)
        requires
            old(self).wf(),
        ensures
            final(self).wf(),
            final(self).spec_history().len() <= HISTORY_LEN,
            final(self).selection_valid(),
            final(self).is_clean(now as int),
            final(self).spec_selected() == reconciled(old(self).spec_selected(), old(self).spec_raids()),
            forall|name: Seq<char>|
                #[trigger] final(self).queue(name) == live_only(old(self).queue(name), now as int),
            final(self).spec_connected() == old(self).spec_connected(),
            final(self).spec_raids() == old(self).spec_raids(),
            final(self).spec_history() == old(self).spec_history(),
            final(self).spec_pending_name() == old(self).spec_pending_name(),
            final(self).spec_tried() == old(self).spec_tried(),
    {
        let keep = match &self.current_raid {
            Some(raid) => has_raid(&self.raids, raid),
            None => true,
        };
        if !keep {
            self.current_raid = None;
        }
        self.store.cleanup(now);
    }

    /// Handles one message at time `now`: cleans up, reacts to the message,
    /// and cleans up again, so that no stale reservation and no selection of
    /// a vanished raid is ever left.
    #[verifier::rlimit(50)]
    pub fn update(&mut self, message: Message, now: i64) -> (action: Action)
        requires
            old(self).wf(),
        ensures
            update_post(*old(self), message, now as int, *final(self), action),
    {
        let ghost pre = *self;
        self.cleanup_state(now);
        let ghost mid = *self;
        let ghost msg = message;
        let ghost sel_mid = reconciled(pre.spec_selected(), pre.spec_raids());
        let action = match message {
            Message::RaidsUpdated(res) => {
                self.connected = res.is_some();
                match res {
                    Some(raids) => {
                        self.raids = raids;
                    },
                    None => {},
                }
                Action::Nothing
            },
            Message::SelectRaid(raid) => {
                self.current_raid = raid;
                Action::Nothing
            },
            Message::CodesReserved(res) => {
                match res {
                    Some((raid, batch)) => {
                        self.store.apply_new_reservation(raid, batch);
                    },
                    None => {},
                }
                Action::Nothing
            },
            Message::Refresh => {
                match &self.current_raid {
                    Some(raid) => {
                        assert(self.store.queue(raid@) == self.queue(raid@));
                        assert(self.queue(raid@) == live_only(pre.queue(raid@), now as int));
                        if self.store.reserved_count(raid) < REFILL_FLOOR {
                            Action::FetchRaidsAndReserve(raid.clone())
                        } else {
                            Action::FetchRaids
                        }
                    },
                    None => Action::FetchRaids,
                }
            },
            Message::HotkeyPressed(idle) => {
                if idle {
                    self.handle_hotkey()
                } else {
                    Action::Nothing
                }
            },
            Message::CreateRaidInputChanged(raw) => {
                self.create_raid_name = normalize_raid_name(raw.as_str());
                Action::Nothing
            },
            Message::CreateRaid => {
                if !self.create_raid_name.as_str().is_empty() {
                    let mut name = String::new();
                    std::mem::swap(&mut name, &mut self.create_raid_name);
                    Action::CreateRaid(name)
                } else {
                    Action::Nothing
                }
            },
            Message::DeleteRaid => {
                match &self.current_raid {
                    Some(raid) => Action::DeleteRaid(raid.clone()),
                    None => Action::Nothing,
                }
            },
            Message::Dummy => Action::Nothing,
        };
        let ghost post = *self;
        self.cleanup_state(now);
        proof {
            assert forall|name: Seq<char>|
                live_only(#[trigger] mid.queue(name), now as int) == mid.queue(name)
                && mid.queue(name) == live_only(pre.queue(name), now as int) by {
                lemma_live_only_idempotent(pre.queue(name), now as int);
            }
            match msg {
                Message::CodesReserved(Some((r, b))) => {
                    assert(live_only(mid.queue(r@).push(b), now as int) == live_only(
                        live_only(pre.queue(r@), now as int).push(b),
                        now as int,
                    ));
                    assert forall|name: Seq<char>| name != r@ implies #[trigger] self.queue(name)
                        == live_only(pre.queue(name), now as int) by {
                        assert(self.queue(name) == live_only(post.queue(name), now as int));
                        assert(post.queue(name) == mid.queue(name));
                    }
                },
                Message::HotkeyPressed(true) => {
                    if sel_mid is Some {
                        let raid = sel_mid->0;
                        let q = mid.queue(raid@);
                        let q2 = post.queue(raid@);
                        if q.len() > 0 {
                            assert(is_live(q[0], now as int));
                            assert forall|k: int|
                                0 <= k < q2.len() && (#[trigger] q2[k]).codes@.len() > 0 implies q2[k].expires_at
                                >= now + crate::reservation::EXPIRY_GRACE_SECS by {
                                assert(q2.len() == q.len());
                                assert(is_live(q[k], now as int));
                                if k == 0 {
                                    assert(q2[0].expires_at == q[0].expires_at);
                                } else {
                                    assert(q2[k] == q[k]);
                                }
                            }
                            lemma_total_codes_of_live(q2, now as int);
                            assert(self.queue(raid@) == live_only(q2, now as int));
                            if q[0].codes@.len() > 1 {
                                assert forall|k: int| 0 <= k < q2.len() implies is_live(#[trigger] q2[k], now as int) by {
                                    assert(is_live(q[k], now as int));
                                    if k > 0 {
                                        assert(q2[k] == q[k]);
                                    }
                                }
                                lemma_live_only_of_live(q2, now as int);
                            } else {
                                assert forall|k: int| 1 <= k < q2.len() implies is_live(#[trigger] q2[k], now as int) by {
                                    assert(is_live(q[k], now as int));
                                    assert(q2[k] == q[k]);
                                }
                                lemma_live_only_dead_head(q2, now as int);
                                assert(q2.drop_first() =~= q.drop_first());
                            }
                        }
                    }
                },
                _ => {},
            }
            if !(message is HotkeyPressed) && !(message is CodesReserved) {
                assert(post.store == mid.store);
                assert forall|name: Seq<char>|
                    #[trigger] self.queue(name) == live_only(pre.queue(name), now as int) by {
                    assert(self.queue(name) == live_only(post.queue(name), now as int));
                    assert(post.queue(name) == mid.queue(name));
                }
            }
        }
        action
    }

    /// Hands out the next code of the selected raid, if it has one.
    fn handle_hotkey(&mut self) -> (action: Action)
        requires
            old(self).wf(),
        ensures
            final(self).wf(),
            final(self).spec_connected() == old(self).spec_connected(),
            final(self).spec_raids() == old(self).spec_raids(),
            final(self).spec_selected() == old(self).spec_selected(),
            final(self).spec_pending_name() == old(self).spec_pending_name(),
            ({
                let sel = old(self).spec_selected();
                let q = match sel {
                    Some(raid) => old(self).queue(raid@),
                    None => Seq::empty(),
                };
                if sel is Some && q.len() > 0 && q[0].codes@.len() > 0 {
                    let raid = sel->0;
                    let q2 = final(self).queue(raid@);
                    let code = q[0].codes@.last();
                    &&& action == (Action::InjectAndReport { raid, code })
                    &&& final(self).spec_history() == history_after(old(self).spec_history(), code)
                    &&& final(self).spec_tried() == tried_after(old(self).spec_tried())
                    &&& q2.len() == q.len()
                    &&& q2[0].codes@ == q[0].codes@.drop_last()
                    &&& q2[0].expires_at == q[0].expires_at
                    &&& forall|k: int| 1 <= k < q.len() ==> #[trigger] q2[k] == q[k]
                    &&& total_codes(q2) == total_codes(q) - 1
                    &&& forall|name: Seq<char>| name != raid@ ==> #[trigger] final(self).queue(name)
                        == old(self).queue(name)
                } else {
                    &&& action is Nothing
                    &&& final(self).spec_history() == old(self).spec_history()
                    &&& final(self).spec_tried() == old(self).spec_tried()
                    &&& forall|name: Seq<char>| #[trigger] final(self).queue(name) == old(self).queue(name)
                }
            }),
    {
        match &self.current_raid {
            None => Action::Nothing,
            Some(raid) => {
                let raid = raid.clone();
                match self.store.consume_one(&raid) {
                    Some(code) => {
                        if self.codes_tried < u64::MAX {
                            self.codes_tried = self.codes_tried + 1;
                        }
                        Action::InjectAndReport { raid, code }
                    },
                    None => Action::Nothing,
                }
            },
        }
    }

    /// Handles one message at the current time.
    pub fn update_now(&mut self, message: Message) -> (action: Action)
        requires
            old(self).wf(),
        ensures
            exists|now: i64| update_post(*old(self), message, now as int, *final(self), action),
    {
        let now = now_unix();
        self.update(message, now)
    }

    pub fn connected(&self) -> (r: bool)
        ensures
            r == self.spec_connected(),
    {
        self.connected
    }

    pub fn current_raid(&self) -> (r: &Option<String>)
        ensures
            *r == self.spec_selected(),
    {
        &self.current_raid
    }

    /// The raid list of the last successful fetch.
    pub fn raids(&self) -> (r: &Vec<(String, PartialRaid)>)
        ensures
            r@ == self.spec_raids(),
    {
        &self.raids
    }

    /// Codes handed out most recently, most recent first.
    pub fn last_codes(&self) -> (r: &Vec<String>)
        ensures
            r@ == self.spec_history(),
    {
        self.store.history_codes()
    }

    /// The normalized name of the raid to create.
    pub fn create_raid_name(&self) -> (r: &String)
        ensures
            r@ == self.spec_pending_name(),
    {
        &self.create_raid_name
    }

    /// Codes handed out in this session.
    pub fn codes_tried(&self) -> (r: u64)
        ensures
            r == self.spec_tried(),
    {
        self.codes_tried
    }

    /// Number of codes reserved for `raid` (saturating at `usize::MAX`).
    pub fn reserved_count(&self, raid: &String) -> (r: usize)
        ensures
            r as int == if total_codes(self.queue(raid@)) <= usize::MAX {
                total_codes(self.queue(raid@))
            } else {
                usize::MAX as int
            },
    {
        self.store.reserved_count(raid)
    }

    /// The reservations of `raid`, oldest first.
    pub fn reservations(&self, raid: &String) -> (r: Vec<&CodeReservation>)
        ensures
            r@.len() == self.queue(raid@).len(),
            forall|k: int| 0 <= k < r@.len() ==> *r@[k] == #[trigger] self.queue(raid@)[k],
    {
        self.store.reservations(raid)
    }
}

/// Relies on chrono's `From<SystemTime> for DateTime<Utc>` and
/// `DateTime::timestamp`: the current time in unix seconds, also for a clock
/// set before 1970 (that conversion fails only for a clock outside chrono's
/// range of about 262,000 years around 1970). Nothing is known of its value.
#[verifier::external_body]
fn now_unix() -> (r: i64) {
    chrono::DateTime::<chrono::Utc>::from(std::time::SystemTime::now()).timestamp()
}

} // verus!
