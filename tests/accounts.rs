use ds_registry::accounts::{AccountRegistry, Role, REGISTRAR_ROLE};
use ds_registry::error::Error;
use ds_registry::events::{Event, EventLog};

fn genesis() -> (AccountRegistry, EventLog) {
    (AccountRegistry::new(1, 0), EventLog::new())
}

#[test]
fn it_create_new_account() {
    let (mut reg, mut log) = genesis();
    assert!(!reg.is_enable(2));
    assert!(reg.account_registry(2).is_none());

    let now = 5000;
    assert_eq!(reg.account_add(1, 2, REGISTRAR_ROLE, now, &mut log), Ok(()));

    let account = reg.account_registry(2).unwrap();
    assert!(account.is_enable());

    let age = account.age(20000);
    assert_eq!(age, Some(15000));
    assert_eq!(reg.age(2, 20000), Ok(15000));
}

#[test]
fn it_disable_account() {
    let (mut reg, mut log) = genesis();
    assert_eq!(reg.account_add(1, 2, REGISTRAR_ROLE, 0, &mut log), Ok(()));
    assert_eq!(reg.account_disable(1, 2, &mut log), Ok(()));
    assert!(!reg.account_registry(2).unwrap().is_enable());
}

#[test]
fn it_try_disable_themself() {
    let (mut reg, mut log) = genesis();
    assert_eq!(reg.account_disable(1, 1, &mut log), Err(Error::InvalidAction));
    assert!(reg.account_registry(1).unwrap().is_enable());
    assert!(log.last_event().is_none());
}

#[test]
fn it_try_create_by_registrar() {
    let (mut reg, mut log) = genesis();
    assert_eq!(reg.account_add(1, 2, REGISTRAR_ROLE, 0, &mut log), Ok(()));
    assert_eq!(reg.account_add(1, 4, Role::Standard, 0, &mut log), Ok(()));
    assert_eq!(
        reg.account_add(4, 3, REGISTRAR_ROLE, 0, &mut log),
        Err(Error::NotAuthorized)
    );
    assert!(reg.account_registry(3).is_none());
}

#[test]
fn it_account_reaped() {
    let (mut reg, mut log) = genesis();
    assert_eq!(reg.account_add(1, 2, REGISTRAR_ROLE, 0, &mut log), Ok(()));
    assert!(reg.account_registry(2).unwrap().is_enable());
    // the ledger reports that account 2 fell to the dust threshold
    reg.on_killed_account(2, &mut log);
    assert!(!reg.account_registry(2).unwrap().is_enable());
    assert_eq!(log.last_event(), Some(Event::AccountDisabled(2)));
}

#[test]
fn reaping_an_unknown_account_changes_nothing() {
    let (mut reg, mut log) = genesis();
    reg.on_killed_account(9, &mut log);
    assert!(reg.account_registry(9).is_none());
    assert!(log.last_event().is_none());
    assert!(reg.is_enable(1));
}

#[test]
fn registrar_scenario() {
    let (mut reg, mut log) = genesis();
    assert_eq!(reg.account_add(1, 10, Role::Standard, 7, &mut log), Ok(()));
    assert!(reg.account_is(10, Role::Standard));
    assert!(!reg.account_is(10, Role::Registrar));
    assert_eq!(
        reg.account_add(10, 11, Role::Registrar, 8, &mut log),
        Err(Error::NotAuthorized)
    );
    assert_eq!(reg.account_disable(1, 10, &mut log), Ok(()));
    assert!(!reg.is_enable(10));
    assert_eq!(reg.account_disable(1, 1, &mut log), Err(Error::InvalidAction));
    assert_eq!(
        log.events(),
        vec![
            Event::AccountCreated(10, Role::Standard),
            Event::AccountDisabled(10)
        ]
    );
    assert!(log.events().is_empty());
}

#[test]
fn self_disable_fails_for_everyone() {
    let (mut reg, mut log) = genesis();
    assert_eq!(reg.account_add(1, 2, Role::Standard, 0, &mut log), Ok(()));
    assert_eq!(reg.account_disable(2, 2, &mut log), Err(Error::InvalidAction));
    assert_eq!(reg.account_disable(7, 7, &mut log), Err(Error::InvalidAction));
    assert!(reg.is_enable(2));
}

#[test]
fn disable_needs_registrar_and_existing_target() {
    let (mut reg, mut log) = genesis();
    assert_eq!(reg.account_add(1, 2, Role::Standard, 0, &mut log), Ok(()));
    assert_eq!(reg.account_disable(2, 1, &mut log), Err(Error::NotAuthorized));
    assert_eq!(reg.account_disable(1, 3, &mut log), Err(Error::NotExists));
    assert_eq!(reg.account_disable(1, 2, &mut log), Ok(()));
    // disabling again succeeds and leaves it disabled
    assert_eq!(reg.account_disable(1, 2, &mut log), Ok(()));
    assert!(!reg.is_enable(2));
}

#[test]
fn disabled_registrar_keeps_its_role() {
    let (mut reg, mut log) = genesis();
    assert_eq!(reg.account_add(1, 2, Role::Registrar, 0, &mut log), Ok(()));
    assert_eq!(reg.account_disable(1, 2, &mut log), Ok(()));
    assert!(reg.account_is(2, Role::Registrar));
    assert_eq!(reg.account_add(2, 3, Role::Standard, 0, &mut log), Ok(()));
}

#[test]
fn re_adding_overwrites_the_record() {
    let (mut reg, mut log) = genesis();
    assert_eq!(reg.account_add(1, 2, Role::Registrar, 100, &mut log), Ok(()));
    reg.on_killed_account(2, &mut log);
    assert_eq!(reg.account_add(1, 2, Role::Standard, 300, &mut log), Ok(()));
    let a = reg.account_registry(2).unwrap();
    assert!(a.enabled);
    assert_eq!(a.role, Role::Standard);
    assert_eq!(a.created_at, 300);
    assert_eq!(reg.age(2, 450), Ok(150));
}

#[test]
fn age_errors() {
    let (mut reg, mut log) = genesis();
    assert_eq!(reg.age(5, 10), Err(Error::NotExists));
    assert_eq!(reg.account_add(1, 2, Role::Standard, 1000, &mut log), Ok(()));
    assert_eq!(reg.age(2, 999), Err(Error::InvalidData));
    assert_eq!(reg.age(2, 1000), Ok(0));
    assert_eq!(reg.account_registry(2).unwrap().age(999), None);
}

#[test]
fn age_after_add_is_elapsed_time() {
    let (mut reg, mut log) = genesis();
    let t0 = 12_345;
    assert_eq!(reg.account_add(1, 8, Role::Registrar, t0, &mut log), Ok(()));
    for t1 in [t0, t0 + 1, t0 + 1_000_000, u64::MAX] {
        assert_eq!(reg.age(8, t1), Ok(t1 - t0));
    }
}

#[test]
fn account_encoding_bytes() {
    let reg = AccountRegistry::new(1, 0x0102);
    assert_eq!(
        reg.encode(),
        vec![1, 0, 0, 0, 0, 0, 0, 0, 0, 1, 2, 1, 0, 0, 0, 0, 0, 0]
    );
}

#[test]
fn account_round_trip() {
    let (mut reg, mut log) = genesis();
    assert_eq!(reg.account_add(1, 300, Role::Standard, 77, &mut log), Ok(()));
    assert_eq!(reg.account_add(1, u64::MAX, Role::Registrar, 88, &mut log), Ok(()));
    assert_eq!(reg.account_disable(1, 300, &mut log), Ok(()));
    let bytes = reg.encode();
    assert_eq!(bytes.len(), 3 * 18);
    let back = AccountRegistry::decode(&bytes).unwrap();
    assert_eq!(back.encode(), bytes);
    assert_eq!(back.as_records(), reg.as_records());
    assert!(!back.is_enable(300));
    assert_eq!(back.age(u64::MAX, 100), Ok(12));
}

#[test]
fn account_decode_rejects_bad_input() {
    let reg = AccountRegistry::new(1, 5);
    let bytes = reg.encode();
    assert!(AccountRegistry::decode(&[]).unwrap().as_records().is_empty());
    assert_eq!(AccountRegistry::decode(&bytes[..17]).err(), Some(Error::InvalidData));
    let mut bad_role = bytes.clone();
    bad_role[8] = 2;
    assert_eq!(AccountRegistry::decode(&bad_role).err(), Some(Error::InvalidData));
    let mut bad_flag = bytes.clone();
    bad_flag[9] = 7;
    assert_eq!(AccountRegistry::decode(&bad_flag).err(), Some(Error::InvalidData));
    let mut twice = bytes.clone();
    twice.extend_from_slice(&bytes);
    assert_eq!(AccountRegistry::decode(&twice).err(), Some(Error::InvalidData));
}
