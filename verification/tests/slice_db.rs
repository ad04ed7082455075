use vincenzo::disk::slice::{ReadSliceReq, SliceDb, SliceDbError};
use vincenzo::tcp_wire::BlockInfo;

fn req(recipient: u64) -> ReadSliceReq {
    ReadSliceReq { block_info: BlockInfo { index: 1, begin: 2, len: 3 }, recipient }
}

#[test]
fn insert_get_remove() {
    let mut db = SliceDb::default();
    let a = db.insert([1; 20], 10..20).unwrap();
    let b = db.insert([2; 20], 30..40).unwrap();
    assert_ne!(a, b);
    assert_eq!(db.get(a).unwrap().get_info_hash(), &[1; 20]);
    assert_eq!(db.get(a).unwrap().get_payload(), &(10..20));
    *db.get_mut(b).unwrap().get_payload_mut() = 35..40;
    assert_eq!(db.get(b).unwrap().get_payload(), &(35..40));
    assert_eq!(db.remove(a), Ok(()));
    assert!(db.get(a).is_none());
    assert!(db.get_mut(a).is_none());
    assert_eq!(db.remove(a), Err(SliceDbError::NoSlice));
    // An ID is not used again.
    let c = db.insert([1; 20], 10..20).unwrap();
    assert_ne!(a, c);
}

#[test]
fn payloads_of_a_torrent() {
    let mut db = SliceDb::default();
    db.insert([1; 20], 10..20).unwrap();
    let b = db.insert([1; 20], 30..40).unwrap();
    db.insert([2; 20], 50..60).unwrap();
    let mut payloads = db.payloads(&[1; 20]);
    payloads.sort_by_key(|r| r.start);
    assert_eq!(payloads, vec![10..20, 30..40]);
    db.remove(b).unwrap();
    assert_eq!(db.payloads(&[1; 20]), vec![10..20]);
    assert_eq!(db.payloads(&[3; 20]), vec![]);
}

#[test]
fn one_read_request_per_slice() {
    let mut db = SliceDb::default();
    let a = db.insert([1; 20], 10..20).unwrap();
    assert_eq!(db.insert_read_req(7, 1, req(5)), Err((req(5), SliceDbError::NoSlice)));
    assert_eq!(db.insert_read_req(a, 1, req(5)), Ok(()));
    assert_eq!(db.insert_read_req(a, 1, req(6)), Err((req(6), SliceDbError::MultipleRead)));
    assert_eq!(db.get(a).unwrap().read_req, Some((1, req(5))));
}

#[test]
fn read_requests_of_a_piece() {
    let mut db = SliceDb::default();
    let a = db.insert([1; 20], 10..20).unwrap();
    let b = db.insert([1; 20], 10..20).unwrap();
    let c = db.insert([1; 20], 30..40).unwrap();
    let d = db.insert([2; 20], 10..20).unwrap();
    db.insert_read_req(a, 1, req(5)).unwrap();
    db.insert_read_req(b, 1, req(6)).unwrap();
    db.insert_read_req(c, 3, req(7)).unwrap();
    db.insert_read_req(d, 1, req(8)).unwrap();
    db.remove(b).unwrap();
    assert_eq!(db.remove_read_reqs(&([1; 20], 1)), Ok(vec![(a, 1, req(5))]));
    assert_eq!(db.remove_read_reqs(&([1; 20], 1)), Ok(vec![]));
    assert_eq!(db.get(a).unwrap().read_req, None);
    assert_eq!(db.get(c).unwrap().read_req, Some((3, req(7))));
    assert_eq!(db.get(d).unwrap().read_req, Some((1, req(8))));
    // The slice can be read again.
    assert_eq!(db.insert_read_req(a, 2, req(9)), Ok(()));
    assert_eq!(db.remove_read_reqs(&([1; 20], 2)), Ok(vec![(a, 2, req(9))]));
}
