use vstd::prelude::*;
use vstd::bytes::*;
use vstd::slice::slice_subrange;

use crate::accounts::{unique, Account, AccountRegistry, Role};
use crate::error::Error;
use crate::maps::{dense, Box3D, Point3D, Zone, ZoneRegistry, ZoneType, MAX_ZONES};

verus! {

/// Records laid end to end, each encoded by `enc`.
pub open spec fn concat_records<T>(s: Seq<T>, enc: spec_fn(T) -> Seq<u8>) -> Seq<u8>
    decreases s.len(),
{
    if s.len() == 0 {
        Seq::empty()
    } else {
        concat_records(s.drop_last(), enc) + enc(s.last())
    }
}

proof fn lemma_concat_push<T>(s: Seq<T>, x: T, enc: spec_fn(T) -> Seq<u8>)
    ensures
        concat_records(s.push(x), enc) == concat_records(s, enc) + enc(x),
{
    assert(s.push(x).drop_last() =~= s);
}

proof fn lemma_concat_len<T>(s: Seq<T>, enc: spec_fn(T) -> Seq<u8>, w: nat)
    requires
        forall|x: T| #[trigger] enc(x).len() == w,
    ensures
        concat_records(s, enc).len() == w * s.len(),
    decreases s.len(),
{
    if s.len() > 0 {
        lemma_concat_len(s.drop_last(), enc, w);
        let n = s.len() as int;
        assert(w * (n - 1) + w == w * n) by (nonlinear_arith);
    }
}

proof fn lemma_concat_chunk<T>(s: Seq<T>, enc: spec_fn(T) -> Seq<u8>, w: nat, i: int)
    requires
        forall|x: T| #[trigger] enc(x).len() == w,
        0 <= i < s.len(),
    ensures
        w * i + w <= concat_records(s, enc).len(),
        concat_records(s, enc).subrange(w * i, w * i + w) == enc(s[i]),
        concat_records(s, enc).subrange(0, w * i) == concat_records(s.take(i), enc),
    decreases s.len(),
{
    let p = s.drop_last();
    let n = s.len() as int;
    lemma_concat_len(p, enc, w);
    lemma_concat_len(s, enc, w);
    assert(w * (n - 1) + w == w * n) by (nonlinear_arith);
    if i == n - 1 {
        assert(concat_records(s, enc).subrange(w * i, w * i + w) =~= enc(s[i]));
        assert(concat_records(s, enc).subrange(0, w * i) =~= concat_records(p, enc));
        assert(s.take(i) =~= p);
    } else {
        lemma_concat_chunk(p, enc, w, i);
        assert(w * i + w <= w * (n - 1)) by (nonlinear_arith)
            requires
                i + 1 <= n - 1,
        ;
        assert(concat_records(s, enc).subrange(w * i, w * i + w) =~= concat_records(
            p,
            enc,
        ).subrange(w * i, w * i + w));
        assert(concat_records(s, enc).subrange(0, w * i) =~= concat_records(p, enc).subrange(
            0,
            w * i,
        ));
        assert(s.take(i) =~= p.take(i));
        assert(s[i] == p[i]);
    }
}

proof fn lemma_concat_injective<T>(s: Seq<T>, t: Seq<T>, enc: spec_fn(T) -> Seq<u8>, w: nat)
    requires
        forall|x: T| #[trigger] enc(x).len() == w,
        forall|x: T, y: T| #[trigger] enc(x) == #[trigger] enc(y) ==> x == y,
        w > 0,
        concat_records(s, enc) == concat_records(t, enc),
    ensures
        s == t,
{
    lemma_concat_len(s, enc, w);
    lemma_concat_len(t, enc, w);
    let a = s.len() as int;
    let b = t.len() as int;
    assert(a == b) by (nonlinear_arith)
        requires
            w * a == w * b,
            w > 0,
    ;
    assert forall|i: int| 0 <= i < s.len() implies s[i] == t[i] by {
        lemma_concat_chunk(s, enc, w, i);
        lemma_concat_chunk(t, enc, w, i);
    }
    assert(s =~= t);
}

/// Size of one encoded account record.
pub const ACCOUNT_BYTES: usize = 18;

pub open spec fn role_tag(role: Role) -> u8 {
    match role {
        Role::Registrar => 0,
        Role::Standard => 1,
    }
}

pub open spec fn bool_tag(b: bool) -> u8 {
    if b {
        1
    } else {
        0
    }
}

/// One account: identity (8 bytes, little-endian), role tag, enabled flag,
/// creation time (8 bytes, little-endian).
pub open spec fn account_bytes(a: Account) -> Seq<u8> {
    spec_u64_to_le_bytes(a.identity) + seq![role_tag(a.role), bool_tag(a.enabled)]
        + spec_u64_to_le_bytes(a.created_at)
}

/// `account_bytes` as a function value.
pub open spec fn account_enc() -> spec_fn(Account) -> Seq<u8> {
    |a: Account| account_bytes(a)
}

/// The encoding of a sequence of account records.
pub open spec fn accounts_bytes(s: Seq<Account>) -> Seq<u8> {
    concat_records(s, account_enc())
}

/// The account that an 18-byte chunk encodes, if its tags are valid.
pub open spec fn account_of_bytes(c: Seq<u8>) -> Option<Account> {
    if c[8] <= 1 && c[9] <= 1 {
        Some(
            Account {
                identity: spec_u64_from_le_bytes(c.subrange(0, 8)),
                role: if c[8] == 0 {
                    Role::Registrar
                } else {
                    Role::Standard
                },
                enabled: c[9] == 1,
                created_at: spec_u64_from_le_bytes(c.subrange(10, 18)),
            },
        )
    } else {
        None
    }
}

proof fn lemma_account_bytes(a: Account)
    ensures
        account_bytes(a).len() == 18,
        account_bytes(a).subrange(0, 8) == spec_u64_to_le_bytes(a.identity),
        account_bytes(a).subrange(10, 18) == spec_u64_to_le_bytes(a.created_at),
        account_of_bytes(account_bytes(a)) == Some(a),
{
    lemma_auto_spec_u64_to_from_le_bytes();
    let c = account_bytes(a);
    assert(c.subrange(0, 8) =~= spec_u64_to_le_bytes(a.identity));
    assert(c.subrange(10, 18) =~= spec_u64_to_le_bytes(a.created_at));
}

proof fn lemma_account_of_bytes(c: Seq<u8>, a: Account)
    requires
        c.len() == 18,
        account_of_bytes(c) == Some(a),
    ensures
        account_bytes(a) == c,
{
    lemma_auto_spec_u64_to_from_le_bytes();
    assert(spec_u64_to_le_bytes(spec_u64_from_le_bytes(c.subrange(0, 8))) == c.subrange(0, 8));
    assert(spec_u64_to_le_bytes(spec_u64_from_le_bytes(c.subrange(10, 18))) == c.subrange(10, 18));
    assert(account_bytes(a) =~= c);
}

proof fn lemma_account_codec(enc: spec_fn(Account) -> Seq<u8>)
    requires
        enc == account_enc(),
    ensures
        forall|a: Account| #[trigger] enc(a).len() == 18,
        forall|a: Account, b: Account| #[trigger] enc(a) == #[trigger] enc(b) ==> a == b,
{
    assert forall|a: Account| #[trigger] enc(a).len() == 18 by {
        lemma_account_bytes(a);
    }
    assert forall|a: Account, b: Account| #[trigger] enc(a) == #[trigger] enc(b) implies a == b by {
        lemma_account_bytes(a);
        lemma_account_bytes(b);
    }
}

/// Distinct record sequences never share an encoding.
pub proof fn lemma_accounts_bytes_injective(s: Seq<Account>, t: Seq<Account>)
    requires
        accounts_bytes(s) == accounts_bytes(t),
    ensures
        s == t,
{
    lemma_account_codec(account_enc());
    lemma_concat_injective(s, t, account_enc(), 18);
}

/// `b` is the encoding of some well-formed account registry.
pub open spec fn valid_accounts_bytes(b: Seq<u8>) -> bool {
    exists|s: Seq<Account>| unique(s) && accounts_bytes(s) == b
}

fn decode_account(b: &[u8], off: usize) -> (r: Option<Account>)
    requires
        off + 18 <= b@.len(),
    ensures
        r == account_of_bytes(b@.subrange(off as int, off + 18)),
{
    let role_byte = b[off + 8];
    let enabled_byte = b[off + 9];
    if role_byte > 1 || enabled_byte > 1 {
        return None;
    }
    let identity = u64_from_le_bytes(slice_subrange(b, off, off + 8));
    let created_at = u64_from_le_bytes(slice_subrange(b, off + 10, off + 18));
    let role = if role_byte == 0 {
        Role::Registrar
    } else {
        Role::Standard
    };
    let c = Ghost(b@.subrange(off as int, off + 18));
    assert(c@.subrange(0, 8) =~= b@.subrange(off as int, off + 8));
    assert(c@.subrange(10, 18) =~= b@.subrange(off + 10, off + 18));
    Some(Account { identity, role, enabled: enabled_byte == 1, created_at })
}

fn encode_account(a: &Account, out: &mut Vec<u8>)
    ensures
        final(out)@ == old(out)@ + account_bytes(*a),
{
    let id = u64_to_le_bytes(a.identity);
    let at = u64_to_le_bytes(a.created_at);
    let mut k: usize = 0;
    while k < 8
        invariant
            id@.len() == 8,
            k <= 8,
            out@ == old(out)@ + id@.take(k as int),
        decreases 8 - k,
    {
        out.push(id[k]);
        k = k + 1;
        assert(id@.take(k as int) =~= id@.take(k - 1).push(id@[k - 1]));
    }
    assert(id@.take(8) =~= id@);
    out.push(match a.role {
        Role::Registrar => 0u8,
        Role::Standard => 1u8,
    });
    out.push(if a.enabled {
        1u8
    } else {
        0u8
    });
    let mid = Ghost(out@);
    k = 0;
    while k < 8
        invariant
            at@.len() == 8,
            k <= 8,
            out@ == mid@ + at@.take(k as int),
        decreases 8 - k,
    {
        out.push(at[k]);
        k = k + 1;
        assert(at@.take(k as int) =~= at@.take(k - 1).push(at@[k - 1]));
    }
    assert(at@.take(8) =~= at@);
    assert(out@ =~= old(out)@ + account_bytes(*a));
}

impl AccountRegistry {
    /// The registry's records, in storage order, as bytes.
    pub fn encode(&self) -> (r: Vec<u8>)
        ensures
            r@ == accounts_bytes(self.records()),
    {
        let records = self.as_records();
        let mut out: Vec<u8> = Vec::new();
        let mut i: usize = 0;
        while i < records.len()
            invariant
                records@ == self.records(),
                i <= records@.len(),
                out@ == accounts_bytes(records@.take(i as int)),
            decreases records@.len() - i,
        {
            proof {
                lemma_concat_push(records@.take(i as int), records@[i as int], account_enc());
                assert(records@.take(i as int).push(records@[i as int]) =~= records@.take(i + 1));
            }
            encode_account(&records[i], &mut out);
            i = i + 1;
        }
        assert(records@.take(records@.len() as int) =~= records@);
        out
    }

    /// Rebuilds a registry from bytes; `InvalidData` unless they are the
    /// encoding of a registry with distinct identities.
    pub fn decode(b: &[u8]) -> (r: Result<AccountRegistry, Error>)
        ensures
            r is Ok <==> valid_accounts_bytes(b@),
            r is Ok ==> r->Ok_0.wf() && accounts_bytes(r->Ok_0.records()) == b@,
            r is Err ==> r == Err::<AccountRegistry, Error>(Error::InvalidData),
    {
        let enc = Ghost(account_enc());
        proof {
            lemma_account_codec(enc@);
        }
        if b.len() % ACCOUNT_BYTES != 0 {
            proof {
                if valid_accounts_bytes(b@) {
                    let t = choose|t: Seq<Account>| unique(t) && accounts_bytes(t) == b@;
                    lemma_concat_len(t, enc@, 18);
                    let n = t.len() as int;
                    assert((18 * n) % 18 == 0) by (nonlinear_arith);
                }
            }
            return Err(Error::InvalidData);
        }
        let len = b.len();
        let n = len / ACCOUNT_BYTES;
        let mut reg = AccountRegistry::from_records(Vec::new());
        proof {
            assert(reg.records() =~= Seq::<Account>::empty());
            assert(b@.subrange(0, 0) =~= Seq::<u8>::empty());
        }
        let mut i: usize = 0;
        while i < n
            invariant
                enc@ == account_enc(),
                forall|a: Account| #[trigger] enc@(a).len() == 18,
                forall|a: Account, c: Account| #[trigger] enc@(a) == #[trigger] enc@(c) ==> a == c,
                n * 18 == b@.len(),
                len == b@.len(),
                i <= n,
                reg.wf(),
                reg.records().len() == i,
                accounts_bytes(reg.records()) == b@.subrange(0, 18 * i),
            decreases n - i,
        {
            assert(i * 18 + 18 <= len) by (nonlinear_arith)
                requires
                    i < n,
                    n * 18 == len,
            ;
            let off = i * ACCOUNT_BYTES;
            let ghost chunk = b@.subrange(off as int, off + 18);
            proof {
                if valid_accounts_bytes(b@) {
                    let t = choose|t: Seq<Account>| unique(t) && accounts_bytes(t) == b@;
                    lemma_concat_len(t, enc@, 18);
                    assert(t.len() == n) by (nonlinear_arith)
                        requires
                            18 * t.len() == n * 18,
                    ;
                    lemma_concat_chunk(t, enc@, 18, i as int);
                    lemma_account_bytes(t[i as int]);
                    lemma_concat_injective(t.take(i as int), reg.records(), enc@, 18);
                }
            }
            match decode_account(b, off) {
                None => {
                    return Err(Error::InvalidData);
                },
                Some(a) => {
                    proof {
                        lemma_account_of_bytes(chunk, a);
                        reg.lemma_records();
                    }
                    let ghost before = reg.records();
                    proof {
                        lemma_concat_push(before, a, enc@);
                        assert(b@.subrange(0, 18 * i) + chunk =~= b@.subrange(0, 18 * (i + 1)));
                        if valid_accounts_bytes(b@) && reg@.contains_key(a.identity) {
                            let t = choose|t: Seq<Account>| unique(t) && accounts_bytes(t) == b@;
                            let j = choose|j: int| crate::accounts::slot(before, a.identity, j);
                            assert(t.take(i as int)[j] == t[j]);
                            assert(t[i as int] == a);
                            assert(t[j].identity == t[i as int].identity);
                        }
                    }
                    if !reg.insert_new(a) {
                        return Err(Error::InvalidData);
                    }
                },
            }
            i = i + 1;
        }
        assert(b@.subrange(0, 18 * n) =~= b@);
        proof {
            reg.lemma_records();
        }
        Ok(reg)
    }
}

/// Reloading the encoding of a well-formed registry succeeds, and whatever
/// registry comes back holds the same records in the same order: the same
/// map and, once encoded again, the same bytes.
pub proof fn lemma_accounts_round_trip(reg: AccountRegistry, reloaded: AccountRegistry)
    requires
        reg.wf(),
    ensures
        valid_accounts_bytes(accounts_bytes(reg.records())),
        accounts_bytes(reloaded.records()) == accounts_bytes(reg.records()) ==> reloaded.records()
            == reg.records() && reloaded@ == reg@,
{
    reg.lemma_records();
    reloaded.lemma_records();
    if accounts_bytes(reloaded.records()) == accounts_bytes(reg.records()) {
        lemma_accounts_bytes_injective(reloaded.records(), reg.records());
    }
}

/// Size of one encoded zone record.
pub const ZONE_BYTES: usize = 29;

pub open spec fn zone_tag(t: ZoneType) -> u8 {
    match t {
        ZoneType::Red => 0,
        ZoneType::Green => 1,
        ZoneType::Parent => 2,
    }
}

pub open spec fn zone_type_of_tag(b: u8) -> ZoneType {
    if b == 0 {
        ZoneType::Red
    } else if b == 1 {
        ZoneType::Green
    } else {
        ZoneType::Parent
    }
}

pub open spec fn point_bytes(p: Point3D<u32>) -> Seq<u8> {
    spec_u32_to_le_bytes(p.x) + spec_u32_to_le_bytes(p.y) + spec_u32_to_le_bytes(p.z)
}

/// One zone: id (4 bytes, little-endian), type tag, then the six coordinates
/// of the two corners (4 bytes each, little-endian).
pub open spec fn zone_bytes(z: Zone<Point3D<u32>>) -> Seq<u8> {
    spec_u32_to_le_bytes(z.zone_id) + seq![zone_tag(z.zone_type)] + point_bytes(
        z.bounding_box.point_1,
    ) + point_bytes(z.bounding_box.point_2)
}

/// `zone_bytes` as a function value.
pub open spec fn zone_enc() -> spec_fn(Zone<Point3D<u32>>) -> Seq<u8> {
    |z: Zone<Point3D<u32>>| zone_bytes(z)
}

/// The encoding of a sequence of zones.
pub open spec fn zones_bytes(s: Seq<Zone<Point3D<u32>>>) -> Seq<u8> {
    concat_records(s, zone_enc())
}

pub open spec fn u32_at(c: Seq<u8>, off: int) -> u32 {
    spec_u32_from_le_bytes(c.subrange(off, off + 4))
}

/// The zone that a 29-byte chunk encodes, if its tag is valid.
pub open spec fn zone_of_bytes(c: Seq<u8>) -> Option<Zone<Point3D<u32>>> {
    if c[4] <= 2 {
        Some(
            Zone {
                zone_id: u32_at(c, 0),
                zone_type: zone_type_of_tag(c[4]),
                bounding_box: Box3D {
                    point_1: Point3D { x: u32_at(c, 5), y: u32_at(c, 9), z: u32_at(c, 13) },
                    point_2: Point3D { x: u32_at(c, 17), y: u32_at(c, 21), z: u32_at(c, 25) },
                },
            },
        )
    } else {
        None
    }
}

proof fn lemma_zone_bytes(z: Zone<Point3D<u32>>)
    ensures
        zone_bytes(z).len() == 29,
        zone_of_bytes(zone_bytes(z)) == Some(z),
{
    lemma_auto_spec_u32_to_from_le_bytes();
    let c = zone_bytes(z);
    let b = z.bounding_box;
    assert(c.subrange(0, 4) =~= spec_u32_to_le_bytes(z.zone_id));
    assert(c.subrange(5, 9) =~= spec_u32_to_le_bytes(b.point_1.x));
    assert(c.subrange(9, 13) =~= spec_u32_to_le_bytes(b.point_1.y));
    assert(c.subrange(13, 17) =~= spec_u32_to_le_bytes(b.point_1.z));
    assert(c.subrange(17, 21) =~= spec_u32_to_le_bytes(b.point_2.x));
    assert(c.subrange(21, 25) =~= spec_u32_to_le_bytes(b.point_2.y));
    assert(c.subrange(25, 29) =~= spec_u32_to_le_bytes(b.point_2.z));
}

proof fn lemma_zone_of_bytes(c: Seq<u8>, z: Zone<Point3D<u32>>)
    requires
        c.len() == 29,
        zone_of_bytes(c) == Some(z),
    ensures
        zone_bytes(z) == c,
{
    lemma_auto_spec_u32_to_from_le_bytes();
    assert(spec_u32_to_le_bytes(u32_at(c, 0)) == c.subrange(0, 4));
    assert(spec_u32_to_le_bytes(u32_at(c, 5)) == c.subrange(5, 9));
    assert(spec_u32_to_le_bytes(u32_at(c, 9)) == c.subrange(9, 13));
    assert(spec_u32_to_le_bytes(u32_at(c, 13)) == c.subrange(13, 17));
    assert(spec_u32_to_le_bytes(u32_at(c, 17)) == c.subrange(17, 21));
    assert(spec_u32_to_le_bytes(u32_at(c, 21)) == c.subrange(21, 25));
    assert(spec_u32_to_le_bytes(u32_at(c, 25)) == c.subrange(25, 29));
    assert(zone_bytes(z) =~= c);
}

proof fn lemma_zone_codec(enc: spec_fn(Zone<Point3D<u32>>) -> Seq<u8>)
    requires
        enc == zone_enc(),
    ensures
        forall|z: Zone<Point3D<u32>>| #[trigger] enc(z).len() == 29,
        forall|a: Zone<Point3D<u32>>, b: Zone<Point3D<u32>>|
            #[trigger] enc(a) == #[trigger] enc(b) ==> a == b,
{
    assert forall|z: Zone<Point3D<u32>>| #[trigger] enc(z).len() == 29 by {
        lemma_zone_bytes(z);
    }
    assert forall|a: Zone<Point3D<u32>>, b: Zone<Point3D<u32>>|
        #[trigger] enc(a) == #[trigger] enc(b) implies a == b by {
        lemma_zone_bytes(a);
        lemma_zone_bytes(b);
    }
}

/// Distinct zone sequences never share an encoding.
pub proof fn lemma_zones_bytes_injective(s: Seq<Zone<Point3D<u32>>>, t: Seq<Zone<Point3D<u32>>>)
    requires
        zones_bytes(s) == zones_bytes(t),
    ensures
        s == t,
{
    lemma_zone_codec(zone_enc());
    lemma_concat_injective(s, t, zone_enc(), 29);
}

/// `b` is the encoding of some well-formed zone catalogue.
pub open spec fn valid_zones_bytes(b: Seq<u8>) -> bool {
    exists|s: Seq<Zone<Point3D<u32>>>| dense(s) && zones_bytes(s) == b
}

/// Reloading the encoding of a well-formed catalogue succeeds, and whatever
/// catalogue comes back holds the same zones: the same bytes once encoded again.
pub proof fn lemma_zones_round_trip(reg: ZoneRegistry<Point3D<u32>>, reloaded: ZoneRegistry<
    Point3D<u32>,
>)
    requires
        reg.wf(),
    ensures
        valid_zones_bytes(zones_bytes(reg@)),
        zones_bytes(reloaded@) == zones_bytes(reg@) ==> reloaded@ == reg@,
{
    reg.lemma_wf();
    if zones_bytes(reloaded@) == zones_bytes(reg@) {
        lemma_zones_bytes_injective(reloaded@, reg@);
    }
}

fn read_u32(b: &[u8], off: usize) -> (r: u32)
    requires
        off + 4 <= b@.len(),
    ensures
        r == spec_u32_from_le_bytes(b@.subrange(off as int, off + 4)),
{
    let len = b.len();
    assert(off + 4 <= len);
    u32_from_le_bytes(slice_subrange(b, off, off + 4))
}

fn decode_zone(b: &[u8], off: usize) -> (r: Option<Zone<Point3D<u32>>>)
    requires
        off + 29 <= b@.len(),
    ensures
        r == zone_of_bytes(b@.subrange(off as int, off + 29)),
{
    let len = b.len();
    assert(off + 29 <= len);
    let tag = b[off + 4];
    if tag > 2 {
        return None;
    }
    let ghost c = b@.subrange(off as int, off + 29);
    assert forall|k: int| 0 <= k <= 25 implies #[trigger] c.subrange(k, k + 4) == b@.subrange(
        off + k,
        off + k + 4,
    ) by {
        assert(c.subrange(k, k + 4) =~= b@.subrange(off + k, off + k + 4));
    }
    let zone_id = read_u32(b, off);
    let zone_type = if tag == 0 {
        ZoneType::Red
    } else if tag == 1 {
        ZoneType::Green
    } else {
        ZoneType::Parent
    };
    let point_1 = Point3D::new(read_u32(b, off + 5), read_u32(b, off + 9), read_u32(b, off + 13));
    let point_2 = Point3D::new(read_u32(b, off + 17), read_u32(b, off + 21), read_u32(b, off + 25));
    proof {
        assert(c.subrange(0, 4) == b@.subrange(off as int, off + 4));
        assert(c.subrange(5, 9) == b@.subrange(off + 5, off + 9));
        assert(c.subrange(9, 13) == b@.subrange(off + 9, off + 13));
        assert(c.subrange(13, 17) == b@.subrange(off + 13, off + 17));
        assert(c.subrange(17, 21) == b@.subrange(off + 17, off + 21));
        assert(c.subrange(21, 25) == b@.subrange(off + 21, off + 25));
        assert(c.subrange(25, 29) == b@.subrange(off + 25, off + 29));
    }
    Some(Zone::new(zone_id, zone_type, Box3D::new(point_1, point_2)))
}

fn push_all(out: &mut Vec<u8>, bytes: &Vec<u8>)
    ensures
        final(out)@ == old(out)@ + bytes@,
{
    let mut k: usize = 0;
    while k < bytes.len()
        invariant
            k <= bytes@.len(),
            out@ == old(out)@ + bytes@.take(k as int),
        decreases bytes@.len() - k,
    {
        out.push(bytes[k]);
        k = k + 1;
        assert(bytes@.take(k as int) =~= bytes@.take(k - 1).push(bytes@[k - 1]));
    }
    assert(bytes@.take(bytes@.len() as int) =~= bytes@);
}

fn encode_zone(z: &Zone<Point3D<u32>>, out: &mut Vec<u8>)
    ensures
        final(out)@ == old(out)@ + zone_bytes(*z),
{
    let p = &z.bounding_box.point_1;
    let q = &z.bounding_box.point_2;
    push_all(out, &u32_to_le_bytes(z.zone_id));
    out.push(match z.zone_type {
        ZoneType::Red => 0u8,
        ZoneType::Green => 1u8,
        ZoneType::Parent => 2u8,
    });
    push_all(out, &u32_to_le_bytes(p.x));
    push_all(out, &u32_to_le_bytes(p.y));
    push_all(out, &u32_to_le_bytes(p.z));
    push_all(out, &u32_to_le_bytes(q.x));
    push_all(out, &u32_to_le_bytes(q.y));
    push_all(out, &u32_to_le_bytes(q.z));
    assert(final(out)@ =~= old(out)@ + zone_bytes(*z));
}

impl ZoneRegistry<Point3D<u32>> {
    /// The catalogue's zones, in id order, as bytes.
    pub fn encode(&self) -> (r: Vec<u8>)
        ensures
            r@ == zones_bytes(self@),
    {
        let zones = self.as_zones();
        let mut out: Vec<u8> = Vec::new();
        let mut i: usize = 0;
        while i < zones.len()
            invariant
                zones@ == self@,
                i <= zones@.len(),
                out@ == zones_bytes(zones@.take(i as int)),
            decreases zones@.len() - i,
        {
            proof {
                lemma_concat_push(zones@.take(i as int), zones@[i as int], zone_enc());
                assert(zones@.take(i as int).push(zones@[i as int]) =~= zones@.take(i + 1));
            }
            encode_zone(&zones[i], &mut out);
            i = i + 1;
        }
        assert(zones@.take(zones@.len() as int) =~= zones@);
        out
    }

    /// Rebuilds a catalogue from bytes; `InvalidData` unless they are the
    /// encoding of a catalogue whose ids are its positions.
    pub fn decode(b: &[u8]) -> (r: Result<ZoneRegistry<Point3D<u32>>, Error>)
        ensures
            r is Ok <==> valid_zones_bytes(b@),
            r is Ok ==> r->Ok_0.wf() && zones_bytes(r->Ok_0@) == b@,
            r is Err ==> r == Err::<ZoneRegistry<Point3D<u32>>, Error>(Error::InvalidData),
    {
        let enc = Ghost(zone_enc());
        proof {
            lemma_zone_codec(enc@);
        }
        let len = b.len();
        if len % ZONE_BYTES != 0 || len / ZONE_BYTES > MAX_ZONES as usize {
            proof {
                if valid_zones_bytes(b@) {
                    let t = choose|t: Seq<Zone<Point3D<u32>>>| dense(t) && zones_bytes(t) == b@;
                    lemma_concat_len(t, enc@, 29);
                    let n = t.len() as int;
                    assert((29 * n) % 29 == 0 && (29 * n) / 29 == n) by (nonlinear_arith);
                }
            }
            return Err(Error::InvalidData);
        }
        let n = len / ZONE_BYTES;
        let mut zones: Vec<Zone<Point3D<u32>>> = Vec::new();
        proof {
            assert(b@.subrange(0, 0) =~= Seq::<u8>::empty());
        }
        let mut i: usize = 0;
        while i < n
            invariant
                enc@ == zone_enc(),
                forall|z: Zone<Point3D<u32>>| #[trigger] enc@(z).len() == 29,
                forall|a: Zone<Point3D<u32>>, c: Zone<Point3D<u32>>|
                    #[trigger] enc@(a) == #[trigger] enc@(c) ==> a == c,
                n * 29 == b@.len(),
                len == b@.len(),
                n <= MAX_ZONES,
                i <= n,
                dense(zones@),
                zones@.len() == i,
                zones_bytes(zones@) == b@.subrange(0, 29 * i),
            decreases n - i,
        {
            assert(i * 29 + 29 <= len) by (nonlinear_arith)
                requires
                    i < n,
                    n * 29 == len,
            ;
            let off = i * ZONE_BYTES;
            let ghost chunk = b@.subrange(off as int, off + 29);
            proof {
                if valid_zones_bytes(b@) {
                    let t = choose|t: Seq<Zone<Point3D<u32>>>| dense(t) && zones_bytes(t) == b@;
                    lemma_concat_len(t, enc@, 29);
                    assert(t.len() == n) by (nonlinear_arith)
                        requires
                            29 * t.len() == n * 29,
                    ;
                    lemma_concat_chunk(t, enc@, 29, i as int);
                    lemma_zone_bytes(t[i as int]);
                    assert(t[i as int].zone_id == i);
                }
            }
            match decode_zone(b, off) {
                None => {
                    return Err(Error::InvalidData);
                },
                Some(z) => {
                    proof {
                        lemma_zone_of_bytes(chunk, z);
                        lemma_concat_push(zones@, z, enc@);
                        assert(b@.subrange(0, 29 * i) + chunk =~= b@.subrange(0, 29 * (i + 1)));
                    }
                    if z.zone_id as usize != i {
                        return Err(Error::InvalidData);
                    }
                    zones.push(z);
                },
            }
            i = i + 1;
        }
        assert(b@.subrange(0, 29 * n) =~= b@);
        Ok(ZoneRegistry::from_zones(zones))
    }
}

} // verus!
