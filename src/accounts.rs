use vstd::prelude::*;

use crate::error::Error;
use crate::events::{Event, EventLog};

verus! {

/// The role an account holds. Only a Registrar may create accounts, disable
/// them or catalogue zones.
#[derive(Clone, Copy, Debug, PartialEq, Eq, Structural)]
pub enum Role {
    Registrar,
    Standard,
}

/// The privileged role.
pub const REGISTRAR_ROLE: Role = Role::Registrar;

/// One account record.
#[derive(Clone, Copy, Debug, PartialEq, Eq, Structural)]
pub struct Account {
    pub identity: u64,
    pub role: Role,
    pub enabled: bool,
    /// Clock value at creation.
    pub created_at: u64,
}

impl Account {
    pub fn is_enable(&self) -> (r: bool)
        ensures
            r == self.enabled,
    {
        self.enabled
    }

    /// Time elapsed since creation, or `None` when `now` precedes it.
    pub fn age(&self, now: u64) -> (r: Option<u64>)
        ensures
            now >= self.created_at ==> r == Some((now - self.created_at) as u64),
            now < self.created_at ==> r is None,
    {
        if now >= self.created_at {
            Some(now - self.created_at)
        } else {
            None
        }
    }
}

/// Answers whether an identity holds a role. Registries that gate their
/// mutations depend on this capability rather than on account storage.
pub trait AuthorizationGuard {
    /// The guard's own well-formedness.
    spec fn inv(&self) -> bool;

    /// Whether `identity` holds `role`.
    spec fn has_role_spec(&self, identity: u64, role: Role) -> bool;

    fn has_role(&self, identity: u64, role: Role) -> (r: bool)
        requires
            self.inv(),
        ensures
            r == self.has_role_spec(identity, role),
    ;
}

/// Whether the `i`-th record of `s` belongs to `identity`.
pub open spec fn slot(s: Seq<Account>, identity: u64, i: int) -> bool {
    0 <= i < s.len() && s[i].identity == identity
}

/// No two records share an identity.
pub open spec fn unique(s: Seq<Account>) -> bool {
    forall|i: int, j: int|
        0 <= i < s.len() && 0 <= j < s.len() && i != j ==> #[trigger] s[i].identity
            != #[trigger] s[j].identity
}

/// The records as a map from identity to record.
pub open spec fn records_map(s: Seq<Account>) -> Map<u64, Account> {
    Map::new(|k: u64| exists|i: int| slot(s, k, i), |k: u64| s[choose|i: int| slot(s, k, i)])
}

/// `identity` has a record whose role is `role`, enabled or not.
pub open spec fn account_is_spec(m: Map<u64, Account>, identity: u64, role: Role) -> bool {
    m.contains_key(identity) && m[identity].role == role
}

/// `identity` has a record and it is enabled.
pub open spec fn is_enable_spec(m: Map<u64, Account>, identity: u64) -> bool {
    m.contains_key(identity) && m[identity].enabled
}

/// The record that `account_add` writes.
pub open spec fn fresh_account(identity: u64, role: Role, now: u64) -> Account {
    Account { identity, role, enabled: true, created_at: now }
}

/// `m` with the record of `identity`, if any, switched off.
pub open spec fn disabled(m: Map<u64, Account>, identity: u64) -> Map<u64, Account> {
    if m.contains_key(identity) {
        m.insert(identity, Account { enabled: false, ..m[identity] })
    } else {
        m
    }
}

/// Age of the account of `identity` at `now`: `NotExists` without a record,
/// `InvalidData` when `now` precedes its creation.
pub open spec fn age_spec(m: Map<u64, Account>, identity: u64, now: u64) -> Result<u64, Error> {
    if !m.contains_key(identity) {
        Err(Error::NotExists)
    } else if now < m[identity].created_at {
        Err(Error::InvalidData)
    } else {
        Ok((now - m[identity].created_at) as u64)
    }
}

/// An account added at `t0` is, at any `t1 >= t0`, exactly `t1 - t0` old.
pub proof fn lemma_age_after_add(
    before: Map<u64, Account>,
    identity: u64,
    role: Role,
    t0: u64,
    t1: u64,
)
    requires
        t1 >= t0,
    ensures
        age_spec(before.insert(identity, fresh_account(identity, role, t0)), identity, t1) == Ok::<
            u64,
            Error,
        >((t1 - t0) as u64),
{
}

proof fn lemma_view_at(s: Seq<Account>, i: int)
    requires
        unique(s),
        0 <= i < s.len(),
    ensures
        records_map(s).contains_key(s[i].identity),
        records_map(s)[s[i].identity] == s[i],
{
    let k = s[i].identity;
    assert(slot(s, k, i));
    let j = choose|j: int| slot(s, k, j);
    assert(j == i);
}

proof fn lemma_view_absent(s: Seq<Account>, identity: u64)
    requires
        forall|i: int| 0 <= i < s.len() ==> s[i].identity != identity,
    ensures
        !records_map(s).contains_key(identity),
{
}

proof fn lemma_push(s: Seq<Account>, a: Account)
    requires
        unique(s),
        !records_map(s).contains_key(a.identity),
    ensures
        unique(s.push(a)),
        records_map(s.push(a)) == records_map(s).insert(a.identity, a),
{
    let t = s.push(a);
    assert forall|i: int| 0 <= i < s.len() implies s[i].identity != a.identity by {
        assert(slot(s, s[i].identity, i));
    }
    assert(unique(t)) by {
        assert forall|i: int, j: int|
            0 <= i < t.len() && 0 <= j < t.len() && i != j implies #[trigger] t[i].identity
            != #[trigger] t[j].identity by {
            if i < s.len() && j < s.len() {
                assert(s[i].identity != s[j].identity);
            }
        }
    }
    let m = records_map(s).insert(a.identity, a);
    assert forall|k: u64| #[trigger] records_map(t).contains_key(k) <==> m.contains_key(k) by {
        if k == a.identity {
            assert(slot(t, k, s.len() as int));
        } else if records_map(s).contains_key(k) {
            let j = choose|j: int| slot(s, k, j);
            assert(slot(t, k, j));
        } else if records_map(t).contains_key(k) {
            let j = choose|j: int| slot(t, k, j);
            assert(slot(s, k, j));
        }
    }
    assert forall|k: u64| #[trigger] records_map(t).contains_key(k) implies records_map(t)[k]
        == m[k] by {
        let j = choose|j: int| slot(t, k, j);
        lemma_view_at(t, j);
        if j < s.len() {
            assert(t[j] == s[j]);
            lemma_view_at(s, j);
        }
    }
    assert(records_map(t) =~= m);
}

proof fn lemma_update(s: Seq<Account>, i: int, a: Account)
    requires
        unique(s),
        0 <= i < s.len(),
        s[i].identity == a.identity,
    ensures
        unique(s.update(i, a)),
        records_map(s.update(i, a)) == records_map(s).insert(a.identity, a),
{
    let t = s.update(i, a);
    assert(unique(t)) by {
        assert forall|p: int, q: int|
            0 <= p < t.len() && 0 <= q < t.len() && p != q implies #[trigger] t[p].identity
            != #[trigger] t[q].identity by {
            assert(s[p].identity != s[q].identity);
        }
    }
    lemma_view_at(s, i);
    let m = records_map(s).insert(a.identity, a);
    assert forall|k: u64| #[trigger] records_map(t).contains_key(k) <==> m.contains_key(k) by {
        if records_map(s).contains_key(k) {
            let j = choose|j: int| slot(s, k, j);
            assert(slot(t, k, j));
        }
        if records_map(t).contains_key(k) {
            let j = choose|j: int| slot(t, k, j);
            if j != i {
                assert(slot(s, k, j));
            }
        }
    }
    assert forall|k: u64| #[trigger] records_map(t).contains_key(k) implies records_map(t)[k]
        == m[k] by {
        let j = choose|j: int| slot(t, k, j);
        lemma_view_at(t, j);
        if j != i {
            lemma_view_at(s, j);
        }
    }
    assert(records_map(t) =~= m);
}

/// Mapping from identity to account record, with a Registrar seeded at creation.
pub struct AccountRegistry {
    accounts: Vec<Account>,
}

impl View for AccountRegistry {
    type V = Map<u64, Account>;

    closed spec fn view(&self) -> Map<u64, Account> {
        records_map(self.accounts@)
    }
}

impl AccountRegistry {
    /// No two records share an identity.
    pub closed spec fn wf(&self) -> bool {
        unique(self.accounts@)
    }

    /// The records in storage order.
    pub closed spec fn records(&self) -> Seq<Account> {
        self.accounts@
    }

    /// The map view is built from the stored records, and well-formedness is
    /// their uniqueness.
    pub proof fn lemma_records(&self)
        ensures
            self@ == records_map(self.records()),
            self.wf() == unique(self.records()),
    {
    }

    /// A registry holding exactly `accounts`, in that order.
    pub fn from_records(accounts: Vec<Account>) -> (r: Self)
        requires
            unique(accounts@),
        ensures
            r.wf(),
            r.records() == accounts@,
    {
        AccountRegistry { accounts }
    }

    /// The records in storage order.
    pub fn as_records(&self) -> (r: &[Account])
        ensures
            r@ == self.records(),
    {
        self.accounts.as_slice()
    }

    /// A registry whose only account is `genesis`, an enabled Registrar created at `now`.
    pub fn new(genesis: u64, now: u64) -> (r: Self)
        ensures
            r.wf(),
            r@ == map![genesis => fresh_account(genesis, Role::Registrar, now)],
    {
        let mut accounts: Vec<Account> = Vec::new();
        let a = Account { identity: genesis, role: Role::Registrar, enabled: true, created_at: now };
        proof {
            lemma_push(accounts@, a);
            assert(records_map(accounts@) =~= Map::<u64, Account>::empty());
            assert(map![genesis => a] =~= Map::<u64, Account>::empty().insert(genesis, a));
        }
        accounts.push(a);
        AccountRegistry { accounts }
    }

    /// Position of the record of `identity`, if any.
    fn find(&self, identity: u64) -> (r: Option<usize>)
        requires
            self.wf(),
        ensures
            match r {
                Some(i) => i < self.accounts@.len() && self.accounts@[i as int].identity == identity,
                None => !self@.contains_key(identity),
            },
    {
        let n = self.accounts.len();
        let mut i: usize = 0;
        while i < n
            invariant
                n == self.accounts@.len(),
                i <= n,
                forall|j: int| 0 <= j < i ==> self.accounts@[j].identity != identity,
            decreases n - i,
        {
            if self.accounts[i].identity == identity {
                return Some(i);
            }
            i = i + 1;
        }
        proof {
            lemma_view_absent(self.accounts@, identity);
        }
        None
    }

    /// The record of `identity`, if any.
    pub fn account_registry(&self, identity: u64) -> (r: Option<Account>)
        requires
            self.wf(),
        ensures
            self@.contains_key(identity) ==> r == Some(self@[identity]),
            !self@.contains_key(identity) ==> r is None,
    {
        match self.find(identity) {
            Some(i) => {
                proof {
                    lemma_view_at(self.accounts@, i as int);
                }
                Some(self.accounts[i])
            },
            None => None,
        }
    }

    /// Whether `identity` holds `role`, whether or not the account is enabled.
    pub fn account_is(&self, identity: u64, role: Role) -> (r: bool)
        requires
            self.wf(),
        ensures
            r == account_is_spec(self@, identity, role),
    {
        match self.account_registry(identity) {
            Some(a) => a.role == role,
            None => false,
        }
    }

    /// Whether `identity` has an enabled account; `false` when it has none.
    pub fn is_enable(&self, identity: u64) -> (r: bool)
        requires
            self.wf(),
        ensures
            r == is_enable_spec(self@, identity),
    {
        match self.account_registry(identity) {
            Some(a) => a.is_enable(),
            None => false,
        }
    }

    /// Age of the account of `identity` at time `now`.
    pub fn age(&self, identity: u64, now: u64) -> (r: Result<u64, Error>)
        requires
            self.wf(),
        ensures
            r == age_spec(self@, identity, now),
    {
        match self.account_registry(identity) {
            Some(a) => match a.age(now) {
                Some(d) => Ok(d),
                None => Err(Error::InvalidData),
            },
            None => Err(Error::NotExists),
        }
    }

    /// Writes `a` over the record of its identity, or adds it.
    fn put(&mut self, a: Account)
        requires
            old(self).wf(),
        ensures
            final(self).wf(),
            final(self)@ == old(self)@.insert(a.identity, a),
    {
        match self.find(a.identity) {
            Some(i) => {
                proof {
                    lemma_update(self.accounts@, i as int, a);
                }
                self.accounts.set(i, a);
            },
            None => {
                proof {
                    lemma_push(self.accounts@, a);
                }
                self.accounts.push(a);
            },
        }
    }

    /// Appends `a` unless its identity already has a record; `true` when it
    /// was appended.
    pub(crate) fn insert_new(&mut self, a: Account) -> (r: bool)
        requires
            old(self).wf(),
        ensures
            final(self).wf(),
            r == !old(self)@.contains_key(a.identity),
            r ==> final(self).records() == old(self).records().push(a),
            !r ==> final(self).records() == old(self).records(),
    {
        match self.find(a.identity) {
            Some(i) => {
                proof {
                    lemma_view_at(self.accounts@, i as int);
                }
                false
            },
            None => {
                proof {
                    lemma_push(self.accounts@, a);
                }
                self.accounts.push(a);
                true
            },
        }
    }

    /// Creates or overwrites the account of `target` with `role`, enabled and
    /// created at `now`; only a Registrar may do so.
    pub fn account_add(
        &mut self,
        caller: u64,
        target: u64,
        role: Role,
        now: u64,
        log: &mut EventLog,
    ) -> (r: Result<(), Error>)
        requires
            old(self).wf(),
        ensures
            final(self).wf(),
            r is Ok <==> old(self).has_role_spec(caller, Role::Registrar),
            r is Ok ==> final(self)@ == old(self)@.insert(target, fresh_account(target, role, now))
                && final(log)@ == old(log)@.push(Event::AccountCreated(target, role)),
            r is Err ==> r == Err::<(), Error>(Error::NotAuthorized) && final(self)@ == old(self)@
                && final(log)@ == old(log)@,
    {
        if !self.account_is(caller, Role::Registrar) {
            return Err(Error::NotAuthorized);
        }
        self.put(Account { identity: target, role, enabled: true, created_at: now });
        log.deposit(Event::AccountCreated(target, role));
        Ok(())
    }

    /// Disables the account of `target`; only a Registrar may do so, and never
    /// on its own account. Disabling a disabled account succeeds again.
    pub fn account_disable(&mut self, caller: u64, target: u64, log: &mut EventLog) -> (r: Result<
        (),
        Error,
    >)
        requires
            old(self).wf(),
        ensures
            final(self).wf(),
            caller == target ==> r == Err::<(), Error>(Error::InvalidAction),
            caller != target && !account_is_spec(old(self)@, caller, Role::Registrar) ==> r == Err::<
                (),
                Error,
            >(Error::NotAuthorized),
            caller != target && account_is_spec(old(self)@, caller, Role::Registrar)
                && !old(self)@.contains_key(target) ==> r == Err::<(), Error>(Error::NotExists),
            caller != target && account_is_spec(old(self)@, caller, Role::Registrar)
                && old(self)@.contains_key(target) ==> r is Ok,
            r is Ok ==> final(self)@ == disabled(old(self)@, target) && final(log)@ == old(log)@.push(
                Event::AccountDisabled(target),
            ),
            r is Err ==> final(self)@ == old(self)@ && final(log)@ == old(log)@,
    {
        if caller == target {
            return Err(Error::InvalidAction);
        }
        if !self.account_is(caller, Role::Registrar) {
            return Err(Error::NotAuthorized);
        }
        match self.account_registry(target) {
            Some(a) => {
                self.put(Account { enabled: false, ..a });
                log.deposit(Event::AccountDisabled(target));
                Ok(())
            },
            None => Err(Error::NotExists),
        }
    }

    /// Reaction to the ledger reaping `who` (its balance fell to the dust
    /// threshold): the account, if any, is disabled with no authorization asked.
    pub fn on_killed_account(&mut self, who: u64, log: &mut EventLog)
        requires
            old(self).wf(),
        ensures
            final(self).wf(),
            final(self)@ == disabled(old(self)@, who),
            !is_enable_spec(final(self)@, who),
            old(self)@.contains_key(who) ==> final(log)@ == old(log)@.push(
                Event::AccountDisabled(who),
            ),
            !old(self)@.contains_key(who) ==> final(log)@ == old(log)@,
    {
        match self.account_registry(who) {
            Some(a) => {
                self.put(Account { enabled: false, ..a });
                log.deposit(Event::AccountDisabled(who));
            },
            None => {},
        }
    }
}

impl AuthorizationGuard for AccountRegistry {
    open spec fn inv(&self) -> bool {
        self.wf()
    }

    open spec fn has_role_spec(&self, identity: u64, role: Role) -> bool {
        account_is_spec(self@, identity, role)
    }

    fn has_role(&self, identity: u64, role: Role) -> (r: bool) {
        self.account_is(identity, role)
    }
}

} // verus!
