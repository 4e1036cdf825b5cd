use vstd::prelude::*;

use crate::error::DirectError;
use crate::identity::{decoded_pubkey, Endpoint, ValidatorIdentity};

verus! {

/// One currently-voting validator and the stake activated for it.
#[derive(Clone, Copy, Debug)]
pub struct StakeRecord {
    pub identity: ValidatorIdentity,
    pub activated_stake: u64,
}

/// The contact info a node advertises; the endpoint is absent when the node
/// does not expose the required transport.
#[derive(Clone, Copy, Debug)]
pub struct ContactRecord {
    pub identity: ValidatorIdentity,
    pub transport_endpoint: Option<Endpoint>,
}

/// A validator that is both staked and reachable over the transport.
#[derive(Clone, Copy, Debug)]
pub struct DirectoryEntry {
    pub identity: ValidatorIdentity,
    pub stake: u64,
    pub endpoint: Endpoint,
}

/// The stake of the last record for `k`, if any (later records win).
pub open spec fn last_stake(s: Seq<StakeRecord>, k: Seq<u8>) -> Option<u64>
    decreases s.len(),
{
    if s.len() == 0 {
        None
    } else if s.last().identity@ == k {
        Some(s.last().activated_stake)
    } else {
        last_stake(s.drop_last(), k)
    }
}

/// The endpoint of the last record for `k` that carries one, if any.
pub open spec fn last_endpoint(c: Seq<ContactRecord>, k: Seq<u8>) -> Option<Endpoint>
    decreases c.len(),
{
    if c.len() == 0 {
        None
    } else if c.last().identity@ == k && c.last().transport_endpoint is Some {
        c.last().transport_endpoint
    } else {
        last_endpoint(c.drop_last(), k)
    }
}

/// The directory that a pair of record sets determines: an identity maps to
/// its stake and endpoint exactly when it has both.
pub open spec fn directory_of(s: Seq<StakeRecord>, c: Seq<ContactRecord>) -> Map<
    Seq<u8>,
    (u64, Endpoint),
> {
    Map::new(
        |k: Seq<u8>| last_stake(s, k) is Some && last_endpoint(c, k) is Some,
        |k: Seq<u8>| (last_stake(s, k)->0, last_endpoint(c, k)->0),
    )
}

/// Records that share an identity also share their stake.
pub open spec fn stakes_agree(s: Seq<StakeRecord>) -> bool {
    forall|i: int, j: int|
        0 <= i < s.len() && 0 <= j < s.len() && #[trigger] s[i].identity@ == #[trigger] s[j].identity@
            ==> s[i].activated_stake == s[j].activated_stake
}

/// Records that share an identity also share their endpoint.
pub open spec fn contacts_agree(c: Seq<ContactRecord>) -> bool {
    forall|i: int, j: int|
        0 <= i < c.len() && 0 <= j < c.len() && #[trigger] c[i].identity@ == #[trigger] c[j].identity@
            ==> c[i].transport_endpoint == c[j].transport_endpoint
}

proof fn lemma_last_stake(s: Seq<StakeRecord>, k: Seq<u8>)
    ensures
        last_stake(s, k) is Some <==> exists|i: int| 0 <= i < s.len() && #[trigger] s[i].identity@ == k,
        last_stake(s, k) matches Some(v) ==> exists|i: int|
            0 <= i < s.len() && #[trigger] s[i].identity@ == k && s[i].activated_stake == v,
    decreases s.len(),
{
    if s.len() > 0 {
        let t = s.drop_last();
        lemma_last_stake(t, k);
        if s.last().identity@ == k {
            assert(s[s.len() - 1].identity@ == k);
        } else {
            assert forall|i: int| 0 <= i < s.len() && #[trigger] s[i].identity@ == k implies 0 <= i
                < t.len() && t[i].identity@ == k by {}
            if last_stake(t, k) is Some {
                let i = choose|i: int| 0 <= i < t.len() && #[trigger] t[i].identity@ == k
                    && t[i].activated_stake == last_stake(t, k)->0;
                assert(s[i] == t[i]);
            }
        }
    }
}

proof fn lemma_last_endpoint(c: Seq<ContactRecord>, k: Seq<u8>)
    ensures
        last_endpoint(c, k) is Some <==> exists|j: int|
            0 <= j < c.len() && #[trigger] c[j].identity@ == k && c[j].transport_endpoint is Some,
        last_endpoint(c, k) is Some ==> exists|j: int|
            0 <= j < c.len() && #[trigger] c[j].identity@ == k && c[j].transport_endpoint
                == last_endpoint(c, k),
    decreases c.len(),
{
    if c.len() > 0 {
        let t = c.drop_last();
        lemma_last_endpoint(t, k);
        if c.last().identity@ == k && c.last().transport_endpoint is Some {
            assert(c[c.len() - 1].identity@ == k);
        } else {
            assert forall|j: int|
                0 <= j < c.len() && #[trigger] c[j].identity@ == k
                    && c[j].transport_endpoint is Some implies 0 <= j < t.len() && t[j].identity@ == k
                && t[j].transport_endpoint is Some by {}
            if last_endpoint(t, k) is Some {
                let j = choose|j: int| 0 <= j < t.len() && #[trigger] t[j].identity@ == k
                    && t[j].transport_endpoint == last_endpoint(t, k);
                assert(c[j] == t[j]);
            }
        }
    }
}

/// An identity is in the directory exactly when some stake record and some
/// contact record with an endpoint carry it; its stake and endpoint then come
/// from such records.
pub proof fn lemma_directory_membership(s: Seq<StakeRecord>, c: Seq<ContactRecord>, k: Seq<u8>)
    ensures
        directory_of(s, c).contains_key(k) <==> (exists|i: int|
            0 <= i < s.len() && #[trigger] s[i].identity@ == k) && (exists|j: int|
            0 <= j < c.len() && #[trigger] c[j].identity@ == k && c[j].transport_endpoint is Some),
        directory_of(s, c).contains_key(k) ==> (exists|i: int|
            0 <= i < s.len() && #[trigger] s[i].identity@ == k && s[i].activated_stake == directory_of(
                s,
                c,
            )[k].0) && (exists|j: int|
            0 <= j < c.len() && #[trigger] c[j].identity@ == k && c[j].transport_endpoint == Some(
                directory_of(s, c)[k].1,
            )),
{
    lemma_last_stake(s, k);
    lemma_last_endpoint(c, k);
}

proof fn lemma_same_stake(s1: Seq<StakeRecord>, s2: Seq<StakeRecord>, k: Seq<u8>)
    requires
        forall|x: StakeRecord| s1.contains(x) <==> s2.contains(x),
        stakes_agree(s1),
    ensures
        last_stake(s1, k) == last_stake(s2, k),
{
    lemma_last_stake(s1, k);
    lemma_last_stake(s2, k);
    if last_stake(s2, k) is Some {
        let i2 = choose|i: int| 0 <= i < s2.len() && #[trigger] s2[i].identity@ == k
            && s2[i].activated_stake == last_stake(s2, k)->0;
        assert(s2.contains(s2[i2]));
        let i3 = choose|i: int| 0 <= i < s1.len() && s1[i] == s2[i2];
        assert(s1[i3].identity@ == k);
        let i1 = choose|i: int| 0 <= i < s1.len() && #[trigger] s1[i].identity@ == k
            && s1[i].activated_stake == last_stake(s1, k)->0;
    }
    if last_stake(s1, k) is Some {
        let i1 = choose|i: int| 0 <= i < s1.len() && #[trigger] s1[i].identity@ == k
            && s1[i].activated_stake == last_stake(s1, k)->0;
        assert(s1.contains(s1[i1]));
        let i2 = choose|i: int| 0 <= i < s2.len() && s2[i] == s1[i1];
        assert(s2[i2].identity@ == k);
    }
}

proof fn lemma_same_endpoint(c1: Seq<ContactRecord>, c2: Seq<ContactRecord>, k: Seq<u8>)
    requires
        forall|x: ContactRecord| c1.contains(x) <==> c2.contains(x),
        contacts_agree(c1),
    ensures
        last_endpoint(c1, k) == last_endpoint(c2, k),
{
    lemma_last_endpoint(c1, k);
    lemma_last_endpoint(c2, k);
    if last_endpoint(c2, k) is Some {
        let j2 = choose|j: int| 0 <= j < c2.len() && #[trigger] c2[j].identity@ == k
            && c2[j].transport_endpoint == last_endpoint(c2, k);
        assert(c2.contains(c2[j2]));
        let j3 = choose|j: int| 0 <= j < c1.len() && c1[j] == c2[j2];
        assert(c1[j3].identity@ == k);
        let j1 = choose|j: int| 0 <= j < c1.len() && #[trigger] c1[j].identity@ == k
            && c1[j].transport_endpoint == last_endpoint(c1, k);
    }
    if last_endpoint(c1, k) is Some {
        let j1 = choose|j: int| 0 <= j < c1.len() && #[trigger] c1[j].identity@ == k
            && c1[j].transport_endpoint == last_endpoint(c1, k);
        assert(c1.contains(c1[j1]));
        let j2 = choose|j: int| 0 <= j < c2.len() && c2[j] == c1[j1];
        assert(c2[j2].identity@ == k);
    }
}

/// Reordering either record set leaves the directory unchanged, provided
/// records that share an identity agree with each other.
pub proof fn lemma_directory_order_independent(
    s1: Seq<StakeRecord>,
    s2: Seq<StakeRecord>,
    c1: Seq<ContactRecord>,
    c2: Seq<ContactRecord>,
)
    requires
        s1.to_multiset() == s2.to_multiset(),
        c1.to_multiset() == c2.to_multiset(),
        stakes_agree(s1),
        contacts_agree(c1),
    ensures
        directory_of(s1, c1) == directory_of(s2, c2),
{
    assert forall|x: StakeRecord| s1.contains(x) <==> s2.contains(x) by {
        vstd::seq_lib::to_multiset_contains(s1, x);
        vstd::seq_lib::to_multiset_contains(s2, x);
    }
    assert forall|x: ContactRecord| c1.contains(x) <==> c2.contains(x) by {
        vstd::seq_lib::to_multiset_contains(c1, x);
        vstd::seq_lib::to_multiset_contains(c2, x);
    }
    assert forall|k: Seq<u8>|
        last_stake(s1, k) == last_stake(s2, k) && last_endpoint(c1, k) == last_endpoint(c2, k) by {
        lemma_same_stake(s1, s2, k);
        lemma_same_endpoint(c1, c2, k);
    }
    assert(directory_of(s1, c1) =~= directory_of(s2, c2));
}

/// No two entries share an identity.
pub open spec fn unique_identities(e: Seq<DirectoryEntry>) -> bool {
    forall|i: int, j: int|
        0 <= i < e.len() && 0 <= j < e.len() && i != j ==> #[trigger] e[i].identity@
            != #[trigger] e[j].identity@
}

/// The mapping that a list of entries with unique identities stands for.
pub open spec fn entries_map(e: Seq<DirectoryEntry>) -> Map<Seq<u8>, (u64, Endpoint)> {
    Map::new(
        |k: Seq<u8>| exists|i: int| 0 <= i < e.len() && #[trigger] e[i].identity@ == k,
        |k: Seq<u8>|
            {
                let i = choose|i: int| 0 <= i < e.len() && #[trigger] e[i].identity@ == k;
                (e[i].stake, e[i].endpoint)
            },
    )
}

/// The merged mapping from validator identity to stake and transport endpoint.
pub struct Directory {
    entries: Vec<DirectoryEntry>,
}

impl View for Directory {
    type V = Map<Seq<u8>, (u64, Endpoint)>;

    closed spec fn view(&self) -> Map<Seq<u8>, (u64, Endpoint)> {
        entries_map(self.entries@)
    }
}

/// Stake of the last record in `stakes` for `id`.
fn find_stake(stakes: &Vec<StakeRecord>, id: &ValidatorIdentity) -> (r: Option<u64>)
    ensures
        r == last_stake(stakes@, id@),
{
    let mut found: Option<u64> = None;
    let mut i: usize = 0;
    while i < stakes.len()
        invariant
            i <= stakes.len(),
            found == last_stake(stakes@.take(i as int), id@),
        decreases stakes.len() - i,
    {
        assert(stakes@.take(i + 1).drop_last() =~= stakes@.take(i as int));
        if stakes[i].identity.same_as(id) {
            found = Some(stakes[i].activated_stake);
        }
        i = i + 1;
    }
    assert(stakes@.take(i as int) =~= stakes@);
    found
}

proof fn lemma_entries_map_at(e: Seq<DirectoryEntry>, i: int)
    requires
        unique_identities(e),
        0 <= i < e.len(),
    ensures
        entries_map(e).contains_key(e[i].identity@),
        entries_map(e)[e[i].identity@] == (e[i].stake, e[i].endpoint),
{
    let k = e[i].identity@;
    assert(e[i].identity@ == k);
    let a = choose|a: int| 0 <= a < e.len() && #[trigger] e[a].identity@ == k;
    assert(a == i);
}

proof fn lemma_entries_map_len(e: Seq<DirectoryEntry>)
    requires
        unique_identities(e),
    ensures
        entries_map(e).len() == e.len(),
{
    let ids = e.map_values(|x: DirectoryEntry| x.identity@);
    assert(ids.no_duplicates()) by {
        assert forall|i: int, j: int| 0 <= i < ids.len() && 0 <= j < ids.len() && i != j implies ids[i]
            != ids[j] by {
            assert(ids[i] == e[i].identity@);
            assert(ids[j] == e[j].identity@);
        }
    }
    ids.unique_seq_to_set();
    assert(entries_map(e).dom() =~= ids.to_set()) by {
        assert forall|k: Seq<u8>| #[trigger] entries_map(e).contains_key(k) implies ids.contains(k) by {
            let a = choose|a: int| 0 <= a < e.len() && #[trigger] e[a].identity@ == k;
            assert(ids[a] == k);
        }
        assert forall|k: Seq<u8>| ids.contains(k) implies #[trigger] entries_map(e).contains_key(k) by {
            let a = choose|a: int| 0 <= a < ids.len() && ids[a] == k;
            assert(e[a].identity@ == k);
        }
    }
}

/// Replaces the entry with the same identity as `e`, or appends `e`.
fn upsert(entries: &mut Vec<DirectoryEntry>, e: DirectoryEntry)
    requires
        unique_identities(old(entries)@),
    ensures
        unique_identities(final(entries)@),
        entries_map(final(entries)@) == entries_map(old(entries)@).insert(
            e.identity@,
            (e.stake, e.endpoint),
        ),
{
    let ghost before = entries@;
    let ghost target = entries_map(before).insert(e.identity@, (e.stake, e.endpoint));
    let n = entries.len();
    let mut i: usize = 0;
    let mut pos: usize = n;
    while i < n
        invariant
            entries@ == before,
            n == entries.len(),
            i <= n,
            pos == n || (pos < n && before[pos as int].identity@ == e.identity@),
            pos == n ==> forall|j: int| 0 <= j < i ==> #[trigger] before[j].identity@ != e.identity@,
        decreases n - i,
    {
        if pos == n && entries[i].identity.same_as(&e.identity) {
            pos = i;
        }
        i = i + 1;
    }
    if pos < entries.len() {
        entries.set(pos, e);
    } else {
        entries.push(e);
    }
    let ghost after = entries@;
    assert(unique_identities(after)) by {
        assert forall|a: int, b: int|
            0 <= a < after.len() && 0 <= b < after.len() && a != b implies #[trigger] after[a].identity@
            != #[trigger] after[b].identity@ by {
            if pos < before.len() {
                assert(after[pos as int].identity@ == before[pos as int].identity@);
                assert(after[a].identity@ == before[a].identity@);
                assert(after[b].identity@ == before[b].identity@);
            } else {
                if a < before.len() {
                    assert(after[a] == before[a]);
                }
                if b < before.len() {
                    assert(after[b] == before[b]);
                }
            }
        }
    }
    proof {
        lemma_entries_map_at(after, pos as int);
    }
    assert forall|k: Seq<u8>| #[trigger] entries_map(before).contains_key(k) && k != e.identity@
        implies entries_map(after).contains_key(k) && entries_map(after)[k] == entries_map(before)[k] by {
        let b = choose|b: int| 0 <= b < before.len() && #[trigger] before[b].identity@ == k;
        assert(b != pos);
        assert(after[b] == before[b]);
        lemma_entries_map_at(before, b);
        lemma_entries_map_at(after, b);
    }
    assert forall|k: Seq<u8>| #[trigger] entries_map(after).contains_key(k) && k != e.identity@
        implies entries_map(before).contains_key(k) by {
        let a = choose|a: int| 0 <= a < after.len() && #[trigger] after[a].identity@ == k;
        assert(a != pos);
        assert(before[a].identity@ == k);
    }
    assert(entries_map(after) =~= target);
}

impl StakeRecord {
    /// A stake record from a vote account as the cluster reports it.
    pub fn from_query(node_pubkey: &str, activated_stake: u64) -> (r: Result<StakeRecord, DirectError>)
        ensures
            match decoded_pubkey(node_pubkey@) {
                Some(b) => r matches Ok(s) && s.identity@ == b && s.activated_stake == activated_stake,
                None => r == Err::<StakeRecord, DirectError>(DirectError::QueryError),
            },
    {
        let identity = ValidatorIdentity::parse(node_pubkey)?;
        Ok(StakeRecord { identity, activated_stake })
    }
}

impl ContactRecord {
    /// A contact record from a node's contact info as the cluster reports it.
    pub fn from_query(pubkey: &str, transport_endpoint: Option<Endpoint>) -> (r: Result<
        ContactRecord,
        DirectError,
    >)
        ensures
            match decoded_pubkey(pubkey@) {
                Some(b) => r matches Ok(c) && c.identity@ == b && c.transport_endpoint
                    == transport_endpoint,
                None => r == Err::<ContactRecord, DirectError>(DirectError::QueryError),
            },
    {
        let identity = ValidatorIdentity::parse(pubkey)?;
        Ok(ContactRecord { identity, transport_endpoint })
    }
}

impl Directory {
    pub closed spec fn wf(&self) -> bool {
        unique_identities(self.entries@)
    }

    /// Joins the stake records with the contact records: a validator is kept
    /// when it has a stake record and a contact record with an endpoint.
    /// Later records win over earlier ones for the same identity.
    pub fn build(stakes: &Vec<StakeRecord>, contacts: &Vec<ContactRecord>) -> (d: Directory)
        ensures
            d.wf(),
            d@ == directory_of(stakes@, contacts@),
    {
        let mut entries: Vec<DirectoryEntry> = Vec::new();
        let mut j: usize = 0;
        while j < contacts.len()
            invariant
                j <= contacts.len(),
                unique_identities(entries@),
                entries_map(entries@) == directory_of(stakes@, contacts@.take(j as int)),
            decreases contacts.len() - j,
        {
            let c = contacts[j];
            let ghost prev = contacts@.take(j as int);
            let ghost next = contacts@.take(j + 1);
            assert(next.drop_last() =~= prev);
            assert(next.last() == c);
            if let Some(endpoint) = c.transport_endpoint {
                if let Some(stake) = find_stake(stakes, &c.identity) {
                    upsert(&mut entries, DirectoryEntry { identity: c.identity, stake, endpoint });
                    assert(directory_of(stakes@, next) =~= directory_of(stakes@, prev).insert(
                        c.identity@,
                        (stake, endpoint),
                    ));
                } else {
                    assert(directory_of(stakes@, next) =~= directory_of(stakes@, prev));
                }
            } else {
                assert(directory_of(stakes@, next) =~= directory_of(stakes@, prev));
            }
            j = j + 1;
        }
        assert(contacts@.take(j as int) =~= contacts@);
        Directory { entries }
    }

    /// The entry for `id`, or `NotFoundError` when the directory has none.
    pub fn lookup(&self, id: &ValidatorIdentity) -> (r: Result<DirectoryEntry, DirectError>)
        requires
            self.wf(),
        ensures
            r is Ok <==> self@.contains_key(id@),
            r matches Ok(e) ==> e.identity@ == id@ && self@[id@] == (e.stake, e.endpoint),
            r matches Err(err) ==> err == DirectError::NotFoundError,
    {
        let mut i: usize = 0;
        while i < self.entries.len()
            invariant
                i <= self.entries.len(),
                unique_identities(self.entries@),
                forall|j: int| 0 <= j < i ==> #[trigger] self.entries@[j].identity@ != id@,
            decreases self.entries.len() - i,
        {
            if self.entries[i].identity.same_as(id) {
                let e = self.entries[i];
                proof {
                    lemma_entries_map_at(self.entries@, i as int);
                }
                return Ok(e);
            }
            i = i + 1;
        }
        Err(DirectError::NotFoundError)
    }

    /// Number of validators in the directory.
    pub fn len(&self) -> (r: usize)
        requires
            self.wf(),
        ensures
            r == self@.len(),
    {
        proof {
            lemma_entries_map_len(self.entries@);
        }
        self.entries.len()
    }

    /// The entries, in no particular order.
    pub fn entries(&self) -> (r: &Vec<DirectoryEntry>)
        ensures
            entries_map(r@) == self@,
            unique_identities(r@) == self.wf(),
    {
        &self.entries
    }
}

} // verus!
