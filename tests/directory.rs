use tpu_direct::{
    ContactRecord, DirectError, Directory, Endpoint, IpAddress, StakeRecord, ValidatorIdentity,
};

fn id(n: u8) -> ValidatorIdentity {
    let mut bytes = [0u8; 32];
    bytes[0] = n;
    bytes[31] = n.wrapping_mul(7);
    ValidatorIdentity::new(bytes)
}

fn ep(last: u8, port: u16) -> Endpoint {
    Endpoint { ip: IpAddress::V4(u32::from_be_bytes([10, 0, 0, last])), port }
}

fn stake(n: u8, amount: u64) -> StakeRecord {
    StakeRecord { identity: id(n), activated_stake: amount }
}

fn contact(n: u8, endpoint: Option<Endpoint>) -> ContactRecord {
    ContactRecord { identity: id(n), transport_endpoint: endpoint }
}

fn pairs(d: &Directory) -> Vec<([u8; 32], u64, Endpoint)> {
    let mut v: Vec<([u8; 32], u64, Endpoint)> =
        d.entries().iter().map(|e| (e.identity.bytes, e.stake, e.endpoint)).collect();
    v.sort_by(|a, b| a.0.cmp(&b.0));
    v
}

#[test]
fn scenario_only_staked_and_reachable_validators_remain() {
    let a = ep(1, 8009);
    let b = ep(2, 8009);
    let stakes = vec![stake(1, 100), stake(2, 50)];
    let contacts = vec![contact(1, Some(a)), contact(2, None), contact(3, Some(b))];
    let d = Directory::build(&stakes, &contacts);
    assert_eq!(d.len(), 1);
    let e = d.lookup(&id(1)).unwrap();
    assert_eq!(e.stake, 100);
    assert_eq!(e.endpoint, a);
    assert_eq!(d.lookup(&id(2)).unwrap_err(), DirectError::NotFoundError);
    assert_eq!(d.lookup(&id(3)).unwrap_err(), DirectError::NotFoundError);
}

#[test]
fn every_entry_has_stake_and_endpoint() {
    let stakes = vec![stake(1, 10), stake(2, 20), stake(4, 40), stake(6, 60)];
    let contacts = vec![
        contact(1, Some(ep(1, 1))),
        contact(2, None),
        contact(3, Some(ep(3, 3))),
        contact(4, Some(ep(4, 4))),
        contact(5, None),
    ];
    let d = Directory::build(&stakes, &contacts);
    let got = pairs(&d);
    assert_eq!(got, vec![(id(1).bytes, 10, ep(1, 1)), (id(4).bytes, 40, ep(4, 4))]);
    for e in d.entries() {
        assert!(stakes.iter().any(|s| s.identity == e.identity));
        assert!(contacts
            .iter()
            .any(|c| c.identity == e.identity && c.transport_endpoint.is_some()));
    }
}

#[test]
fn reordering_inputs_keeps_the_directory() {
    let stakes = vec![stake(1, 10), stake(2, 20), stake(3, 30)];
    let contacts = vec![contact(3, Some(ep(3, 3))), contact(1, Some(ep(1, 1))), contact(2, None)];
    let d1 = Directory::build(&stakes, &contacts);
    let mut s2 = stakes.clone();
    s2.reverse();
    let c2 = vec![contact(2, None), contact(1, Some(ep(1, 1))), contact(3, Some(ep(3, 3)))];
    let d2 = Directory::build(&s2, &c2);
    assert_eq!(pairs(&d1), pairs(&d2));
    assert_eq!(pairs(&d1).len(), 2);
}

#[test]
fn empty_inputs_give_empty_directory() {
    let d = Directory::build(&Vec::new(), &Vec::new());
    assert_eq!(d.len(), 0);
    let d = Directory::build(&vec![stake(1, 5)], &Vec::new());
    assert_eq!(d.len(), 0);
    let d = Directory::build(&Vec::new(), &vec![contact(1, Some(ep(1, 1)))]);
    assert_eq!(d.len(), 0);
    assert_eq!(d.lookup(&id(1)).unwrap_err(), DirectError::NotFoundError);
}

#[test]
fn later_records_win_for_the_same_identity() {
    let stakes = vec![stake(1, 10), stake(1, 11)];
    let contacts = vec![contact(1, Some(ep(1, 1))), contact(1, Some(ep(9, 9))), contact(1, None)];
    let d = Directory::build(&stakes, &contacts);
    assert_eq!(d.len(), 1);
    let e = d.lookup(&id(1)).unwrap();
    assert_eq!(e.stake, 11);
    assert_eq!(e.endpoint, ep(9, 9));
}

#[test]
fn ipv6_endpoints_are_kept() {
    let v6 = Endpoint { ip: IpAddress::V6(0x2001_0db8_0000_0000_0000_0000_0000_0001), port: 8009 };
    let d = Directory::build(&vec![stake(7, u64::MAX)], &vec![contact(7, Some(v6))]);
    let e = d.lookup(&id(7)).unwrap();
    assert_eq!(e.stake, u64::MAX);
    assert_eq!(e.endpoint, v6);
}

#[test]
fn records_from_query_text() {
    let s = StakeRecord::from_query("11111111111111111111111111111111", 42).unwrap();
    assert_eq!(s.identity.bytes, [0u8; 32]);
    assert_eq!(s.activated_stake, 42);
    let c = ContactRecord::from_query("11111111111111111111111111111111", Some(ep(1, 2))).unwrap();
    assert_eq!(c.identity, s.identity);
    assert_eq!(c.transport_endpoint, Some(ep(1, 2)));
    assert_eq!(StakeRecord::from_query("not-a-key", 1).unwrap_err(), DirectError::QueryError);
    assert_eq!(ContactRecord::from_query("", None).unwrap_err(), DirectError::QueryError);
}
