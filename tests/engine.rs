use codera1d::keybind::key_sequence;
use codera1d::naming::{normalize_lowered, normalize_raid_name};
use codera1d::reservation::{CodeReservation, ReservationStore};
use codera1d::session::{Action, CodeRaid, Message, PartialRaid};

const NOW: i64 = 1_700_000_000;

fn s(x: &str) -> String {
    x.to_string()
}

fn res(codes: &[&str], expires_at: i64) -> CodeReservation {
    CodeReservation { codes: codes.iter().map(|c| c.to_string()).collect(), expires_at }
}

fn counts() -> PartialRaid {
    PartialRaid { remaining_code_count: 10, tried_code_count: 2 }
}

fn session_with(names: &[&str]) -> CodeRaid {
    let (mut app, first) = CodeRaid::new();
    assert_eq!(first, Action::FetchRaids);
    let list = names.iter().map(|n| (n.to_string(), counts())).collect();
    assert_eq!(app.update(Message::RaidsUpdated(Some(list)), NOW), Action::Nothing);
    app
}

#[test]
fn hotkey_consumes_last_code_of_oldest_reservation() {
    let mut app = session_with(&["alpha"]);
    app.update(Message::CodesReserved(Some((s("alpha"), res(&["111", "222"], NOW + 3600)))), NOW);
    app.update(Message::SelectRaid(Some(s("alpha"))), NOW);
    let action = app.update(Message::HotkeyPressed(true), NOW);
    assert_eq!(action, Action::InjectAndReport { raid: s("alpha"), code: s("222") });
    let left = app.reservations(&s("alpha"));
    assert_eq!(left.len(), 1);
    assert_eq!(left[0].codes, vec![s("111")]);
    assert_eq!(app.last_codes(), &vec![s("222")]);
    assert_eq!(app.codes_tried(), 1);
    assert_eq!(app.reserved_count(&s("alpha")), 1);
}

#[test]
fn reservation_inside_grace_window_is_removed() {
    let mut app = session_with(&["alpha"]);
    app.update(Message::CodesReserved(Some((s("alpha"), res(&["1", "2", "3"], NOW + 30)))), NOW);
    assert_eq!(app.reservations(&s("alpha")).len(), 0);
    assert_eq!(app.reserved_count(&s("alpha")), 0);
}

#[test]
fn grace_window_boundary() {
    let mut store = ReservationStore::new();
    store.apply_new_reservation(s("a"), res(&["1"], NOW + 44));
    store.apply_new_reservation(s("a"), res(&["2"], NOW + 45));
    store.apply_new_reservation(s("a"), res(&[], NOW + 3600));
    assert_eq!(store.reserved_count(&s("a")), 2);
    store.cleanup(NOW);
    let left = store.reservations(&s("a"));
    assert_eq!(left.len(), 1);
    assert_eq!(left[0].codes, vec![s("2")]);
    assert_eq!(left[0].expires_at, NOW + 45);
}

#[test]
fn reservation_expires_as_time_passes() {
    let mut app = session_with(&["alpha"]);
    app.update(Message::CodesReserved(Some((s("alpha"), res(&["1"], NOW + 100)))), NOW);
    assert_eq!(app.reserved_count(&s("alpha")), 1);
    app.update(Message::Dummy, NOW + 56);
    assert_eq!(app.reserved_count(&s("alpha")), 0);
}

#[test]
fn connectivity_follows_last_fetch() {
    let mut app = session_with(&["alpha", "beta"]);
    assert!(app.connected());
    app.update(Message::RaidsUpdated(None), NOW);
    assert!(!app.connected());
    assert_eq!(app.raids().len(), 2);
    assert_eq!(app.raids()[0].0, s("alpha"));
    assert_eq!(app.raids()[1].0, s("beta"));
    app.update(Message::RaidsUpdated(Some(vec![(s("alpha"), counts()), (s("beta"), counts())])), NOW + 1);
    assert!(app.connected());
    assert_eq!(app.raids().len(), 2);
}

#[test]
fn vanished_raid_clears_selection_and_stops_refill() {
    let mut app = session_with(&["alpha", "beta"]);
    app.update(Message::SelectRaid(Some(s("beta"))), NOW);
    assert_eq!(app.current_raid(), &Some(s("beta")));
    assert_eq!(app.update(Message::Refresh, NOW), Action::FetchRaidsAndReserve(s("beta")));
    app.update(Message::RaidsUpdated(Some(vec![(s("alpha"), counts())])), NOW + 1);
    assert_eq!(app.current_raid(), &None);
    assert_eq!(app.update(Message::Refresh, NOW + 1), Action::FetchRaids);
    assert_eq!(app.update(Message::Refresh, NOW + 2), Action::FetchRaids);
    app.update(Message::SelectRaid(Some(s("alpha"))), NOW + 3);
    assert_eq!(app.update(Message::Refresh, NOW + 3), Action::FetchRaidsAndReserve(s("alpha")));
}

#[test]
fn selecting_unknown_raid_is_cleared() {
    let mut app = session_with(&["alpha"]);
    app.update(Message::SelectRaid(Some(s("gamma"))), NOW);
    assert_eq!(app.current_raid(), &None);
}

#[test]
fn raw_name_is_normalized() {
    assert_eq!(normalize_raid_name("My Raid #1!"), s("my_raid_1"));
    let mut app = session_with(&[]);
    app.update(Message::CreateRaidInputChanged(s("My Raid #1!")), NOW);
    assert_eq!(app.create_raid_name(), &s("my_raid_1"));
}

#[test]
fn name_is_cut_to_twenty_characters() {
    assert_eq!(normalize_raid_name("ABCDEFGHIJ KLMNOPQRSTUVWXYZ"), s("abcdefghij_klmnopqrs"));
    assert_eq!(normalize_raid_name(""), s(""));
    let lowered: Vec<char> = "a b-c".chars().collect();
    assert_eq!(normalize_lowered(&lowered), vec!['a', '_', 'b', 'c']);
}

#[test]
fn refill_requested_below_floor_only() {
    let mut app = session_with(&["alpha"]);
    app.update(Message::SelectRaid(Some(s("alpha"))), NOW);
    app.update(Message::CodesReserved(Some((s("alpha"), res(&["1", "2", "3", "4"], NOW + 600)))), NOW);
    assert_eq!(app.update(Message::Refresh, NOW), Action::FetchRaidsAndReserve(s("alpha")));
    app.update(Message::CodesReserved(Some((s("alpha"), res(&["5"], NOW + 600)))), NOW);
    assert_eq!(app.reserved_count(&s("alpha")), 5);
    assert_eq!(app.update(Message::Refresh, NOW), Action::FetchRaids);
}

#[test]
fn failed_reservation_changes_nothing() {
    let mut app = session_with(&["alpha"]);
    app.update(Message::CodesReserved(Some((s("alpha"), res(&["1"], NOW + 600)))), NOW);
    app.update(Message::CodesReserved(None), NOW);
    assert_eq!(app.reserved_count(&s("alpha")), 1);
}

#[test]
fn busy_injection_drops_hotkey() {
    let mut app = session_with(&["alpha"]);
    app.update(Message::SelectRaid(Some(s("alpha"))), NOW);
    app.update(Message::CodesReserved(Some((s("alpha"), res(&["111"], NOW + 600)))), NOW);
    assert_eq!(app.update(Message::HotkeyPressed(false), NOW), Action::Nothing);
    assert_eq!(app.reserved_count(&s("alpha")), 1);
    assert_eq!(app.codes_tried(), 0);
    assert!(app.last_codes().is_empty());
}

#[test]
fn hotkey_without_selection_or_codes_does_nothing() {
    let mut app = session_with(&["alpha"]);
    assert_eq!(app.update(Message::HotkeyPressed(true), NOW), Action::Nothing);
    app.update(Message::SelectRaid(Some(s("alpha"))), NOW);
    assert_eq!(app.update(Message::HotkeyPressed(true), NOW), Action::Nothing);
    assert_eq!(app.codes_tried(), 0);
}

#[test]
fn oldest_reservation_is_used_first_and_empties_are_dropped() {
    let mut app = session_with(&["alpha"]);
    app.update(Message::SelectRaid(Some(s("alpha"))), NOW);
    app.update(Message::CodesReserved(Some((s("alpha"), res(&["1"], NOW + 600)))), NOW);
    app.update(Message::CodesReserved(Some((s("alpha"), res(&["2", "3"], NOW + 600)))), NOW);
    let first = app.update(Message::HotkeyPressed(true), NOW);
    assert_eq!(first, Action::InjectAndReport { raid: s("alpha"), code: s("1") });
    assert_eq!(app.reservations(&s("alpha")).len(), 1);
    let second = app.update(Message::HotkeyPressed(true), NOW);
    assert_eq!(second, Action::InjectAndReport { raid: s("alpha"), code: s("3") });
    assert_eq!(app.last_codes(), &vec![s("3"), s("1")]);
}

#[test]
fn history_keeps_five_most_recent() {
    let mut app = session_with(&["alpha"]);
    app.update(Message::SelectRaid(Some(s("alpha"))), NOW);
    app.update(
        Message::CodesReserved(Some((s("alpha"), res(&["7", "6", "5", "4", "3", "2", "1"], NOW + 600)))),
        NOW,
    );
    for _ in 0..6 {
        app.update(Message::HotkeyPressed(true), NOW);
    }
    assert_eq!(app.last_codes(), &vec![s("6"), s("5"), s("4"), s("3"), s("2")]);
    assert_eq!(app.codes_tried(), 6);
    assert_eq!(app.reserved_count(&s("alpha")), 1);
}

#[test]
fn store_consume_one_direct() {
    let mut store = ReservationStore::new();
    assert_eq!(store.consume_one(&s("x")), None);
    store.apply_new_reservation(s("x"), res(&[], NOW + 600));
    store.apply_new_reservation(s("x"), res(&["9"], NOW + 600));
    assert_eq!(store.consume_one(&s("x")), None);
    store.apply_new_reservation(s("y"), res(&["a", "b"], NOW + 600));
    assert_eq!(store.consume_one(&s("y")), Some(s("b")));
    assert_eq!(store.reserved_count(&s("y")), 1);
    assert_eq!(store.reserved_count(&s("x")), 1);
    assert_eq!(store.history_codes(), &vec![s("b")]);
}

#[test]
fn create_and_delete_requests() {
    let mut app = session_with(&["alpha"]);
    assert_eq!(app.update(Message::CreateRaid, NOW), Action::Nothing);
    app.update(Message::CreateRaidInputChanged(s("New Raid")), NOW);
    assert_eq!(app.update(Message::CreateRaid, NOW), Action::CreateRaid(s("new_raid")));
    assert_eq!(app.create_raid_name(), &s(""));
    assert_eq!(app.update(Message::DeleteRaid, NOW), Action::Nothing);
    app.update(Message::SelectRaid(Some(s("alpha"))), NOW);
    assert_eq!(app.update(Message::DeleteRaid, NOW), Action::DeleteRaid(s("alpha")));
}

#[test]
fn digits_become_keys() {
    assert_eq!(key_sequence("1029"), vec![1, 0, 2, 9]);
    assert_eq!(key_sequence("4a-7"), vec![4, 7]);
    assert_eq!(key_sequence(""), Vec::<u8>::new());
}

#[test]
fn refill_never_lowers_count_on_success() {
    let mut app = session_with(&["alpha"]);
    app.update(Message::SelectRaid(Some(s("alpha"))), NOW);
    app.update(Message::CodesReserved(Some((s("alpha"), res(&["1", "2"], NOW + 600)))), NOW);
    assert_eq!(app.update(Message::Refresh, NOW), Action::FetchRaidsAndReserve(s("alpha")));
    let before = app.reserved_count(&s("alpha"));
    app.update(Message::CodesReserved(Some((s("alpha"), res(&["3"], NOW + 10)))), NOW);
    assert_eq!(app.reserved_count(&s("alpha")), before);
    app.update(Message::CodesReserved(Some((s("alpha"), res(&["4", "5"], NOW + 600)))), NOW);
    assert_eq!(app.reserved_count(&s("alpha")), before + 2);
}

#[test]
fn update_at_current_time_applies_raid_list() {
    let (mut app, _) = CodeRaid::new();
    assert!(!app.connected());
    let action = app.update_now(Message::RaidsUpdated(Some(vec![(s("alpha"), counts())])));
    assert_eq!(action, Action::Nothing);
    assert!(app.connected());
    assert_eq!(app.raids().len(), 1);
    app.update_now(Message::SelectRaid(Some(s("alpha"))));
    assert_eq!(app.update_now(Message::Refresh), Action::FetchRaidsAndReserve(s("alpha")));
}
