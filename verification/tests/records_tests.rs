use veilid_core::key::DHTKey;
use veilid_core::receipt_manager::{ReceiptCallbackKind, ReceiptEvent, ReceiptManager, ReceiptRecord};
use veilid_core::subkeys::ValueSubkeyRangeSet;
use veilid_core::types::{KeyPair, PublicKey, RPCError, SecretKey, Signature, TypedKey};
use veilid_core::value_data::ValueData;
use veilid_core::watch_value::{
    decode_subkey_ranges, make_signature_data, RPCOperationWatchValueA, RPCOperationWatchValueQ,
};

fn nonce(b: u8) -> [u8; 24] {
    [b; 24]
}

fn typed_key(b: u8) -> TypedKey {
    TypedKey { kind: *b"VLD0", value: DHTKey::new([b; 32]) }
}

fn protocol_message(e: &RPCError) -> String {
    match e {
        RPCError::Protocol(m) => m.clone(),
        _ => panic!("not a protocol error"),
    }
}

#[test]
fn receipt_records_start_with_no_returns() {
    let r = ReceiptRecord::from_receipt(nonce(1), 500, 3);
    assert_eq!(r.expected_returns, 3);
    assert_eq!(r.returns_so_far, 0);
    assert_eq!(r.receipt_callback, ReceiptCallbackKind::Normal);
    let s = ReceiptRecord::from_single_shot_receipt(nonce(2), 600);
    assert_eq!(s.expected_returns, 1);
    assert_eq!(s.receipt_callback, ReceiptCallbackKind::SingleShot { pending: true });
}

#[test]
fn receipt_returns_until_expected_count() {
    let mut rm = ReceiptManager::new();
    rm.record_receipt(nonce(1), 1000, 2);
    let a = rm.handle_receipt(7u32, &nonce(1)).unwrap().unwrap();
    assert_eq!(a.event, ReceiptEvent::Returned(7u32));
    assert_eq!(a.returns_so_far, 1);
    assert!(!a.single_shot);
    let b = rm.handle_receipt(8u32, &nonce(1)).unwrap().unwrap();
    assert_eq!(b.returns_so_far, 2);
    assert_eq!(rm.handle_receipt(9u32, &nonce(1)).unwrap_err(), "receipt not recorded");
}

#[test]
fn single_shot_receipt_resolves_once() {
    let mut rm = ReceiptManager::new();
    rm.record_single_shot_receipt(nonce(3), 1000);
    let a = rm.handle_receipt(5u32, &nonce(3)).unwrap().unwrap();
    assert!(a.single_shot);
    assert_eq!(a.event, ReceiptEvent::Returned(5u32));
    assert!(rm.cancel_receipt::<u32>(&nonce(3)).is_err());
}

#[test]
fn cancel_tells_the_callback() {
    let mut rm = ReceiptManager::new();
    rm.record_receipt(nonce(4), 1000, 1);
    let a = rm.cancel_receipt::<u32>(&nonce(4)).unwrap().unwrap();
    assert_eq!(a.event, ReceiptEvent::Cancelled);
    assert_eq!(rm.cancel_receipt::<u32>(&nonce(4)).unwrap_err(), "receipt not recorded");
}

#[test]
fn timeout_expires_only_past_receipts() {
    let mut rm = ReceiptManager::new();
    rm.record_receipt(nonce(1), 100, 1);
    rm.record_receipt(nonce(2), 300, 1);
    rm.record_single_shot_receipt(nonce(3), 200);
    assert!(rm.timeout_task_routine::<u32>(50).is_empty());
    let acts = rm.timeout_task_routine::<u32>(200);
    assert_eq!(acts.len(), 2);
    assert_eq!(acts[0].nonce, nonce(1));
    assert_eq!(acts[0].event, ReceiptEvent::Expired);
    assert_eq!(acts[1].nonce, nonce(3));
    assert!(acts[1].single_shot);
    assert_eq!(rm.next_oldest_ts(), Some(300));
    let later = rm.tick::<u32>(299);
    assert!(later.is_empty());
    let last = rm.tick::<u32>(300);
    assert_eq!(last.len(), 1);
    assert_eq!(last[0].nonce, nonce(2));
    assert_eq!(rm.next_oldest_ts(), None);
}

#[test]
fn tick_waits_for_a_known_expiration() {
    let mut rm = ReceiptManager::new();
    rm.record_receipt(nonce(1), 100, 1);
    assert_eq!(rm.next_oldest_ts(), None);
    assert!(rm.tick::<u32>(1000).is_empty());
    rm.shutdown();
    assert!(rm.timeout_task_routine::<u32>(1000).is_empty());
}

#[test]
fn value_data_keeps_its_fields() {
    let w = DHTKey::new([3u8; 32]);
    let v = ValueData::new(vec![1, 2, 3], w);
    assert_eq!(v.seq(), 0);
    assert_eq!(v.data(), &[1, 2, 3]);
    assert!(*v.writer() == w);
    let v2 = ValueData::new_with_seq(9, vec![4], w);
    assert_eq!(v2.seq(), 9);
    assert_eq!(v2.total_size(), std::mem::size_of::<ValueData>() + 1);
    assert_eq!(ValueData::MAX_LEN, 32768);
}

#[test]
fn subkey_sets_hold_ranges() {
    let mut s = ValueSubkeyRangeSet::new();
    assert!(s.is_empty());
    assert!(s.insert(5));
    assert!(!s.insert(5));
    assert!(s.ranges_insert(7, 9));
    assert_eq!(s.ranges(), vec![(5, 5), (7, 9)]);
    assert!(s.insert(6));
    assert_eq!(s.ranges(), vec![(5, 9)]);
    assert_eq!(s.len(), 5);
    assert_eq!(s.last(), Some(9));
    assert!(s.contains(7));
    assert!(!s.contains(10));
    let one = ValueSubkeyRangeSet::single(6);
    assert!(one.is_subset(&s));
    assert_eq!(s.difference(&one).ranges(), vec![(5, 5), (7, 9)]);
    assert_eq!(s.intersect(&one).ranges(), vec![(6, 6)]);
    assert_eq!(ValueSubkeyRangeSet::full().ranges(), vec![(0, u32::MAX)]);
    assert_eq!(ValueSubkeyRangeSet::full().len(), 1u64 << 32);
    let mut top = ValueSubkeyRangeSet::single(u32::MAX);
    assert!(top.contains(u32::MAX));
    assert!(!top.insert(u32::MAX));
    assert_eq!(top.last(), Some(u32::MAX));
    assert_eq!(s.duplicate().ranges(), s.ranges());
}

fn no_signer(_: &PublicKey, _: &SecretKey, _: &Vec<u8>) -> Result<Signature, String> {
    panic!("the signer must not be called")
}

#[test]
fn watch_question_refuses_too_many_subkeys() {
    let mut big = ValueSubkeyRangeSet::new();
    big.ranges_insert(0, 512);
    let w = KeyPair { key: DHTKey::new([2u8; 32]), secret: DHTKey::new([3u8; 32]) };
    // The count is checked before anything is signed.
    let e = RPCOperationWatchValueQ::new(typed_key(1), big, 0, 1, Some(w), no_signer).unwrap_err();
    assert_eq!(protocol_message(&e), "WatchValueQ subkeys length too long");
    let mut ok = ValueSubkeyRangeSet::new();
    ok.ranges_insert(0, 511);
    let q = RPCOperationWatchValueQ::new(typed_key(1), ok, 77, 2, None, no_signer).unwrap();
    assert_eq!(q.expiration(), 77);
    assert_eq!(q.count(), 2);
    assert!(q.opt_watch_signature().is_none());
}

#[test]
fn watch_question_signing_failure_is_protocol_error() {
    let w = KeyPair { key: DHTKey::new([2u8; 32]), secret: DHTKey::new([3u8; 32]) };
    let e = RPCOperationWatchValueQ::new(typed_key(1), ValueSubkeyRangeSet::single(3), 0, 1, Some(w), |_, _, _| {
        Err("bad secret".to_string())
    })
    .unwrap_err();
    assert_eq!(protocol_message(&e), "bad secret");
}

#[test]
fn watch_question_validation() {
    let w = KeyPair { key: DHTKey::new([2u8; 32]), secret: DHTKey::new([3u8; 32]) };
    let expected_data = make_signature_data(&typed_key(1), &ValueSubkeyRangeSet::single(3), 0, 1);
    let signed = std::cell::RefCell::new(Vec::new());
    let q = RPCOperationWatchValueQ::new(typed_key(1), ValueSubkeyRangeSet::single(3), 0, 1, Some(w), |pk, sk, d| {
        assert!(*pk == w.key && *sk == w.secret);
        signed.borrow_mut().push(d.clone());
        Ok(Signature::new([4u8; 64]))
    })
    .unwrap();
    assert_eq!(*signed.borrow(), vec![expected_data.clone()]);
    assert_eq!(q.signature_data(), expected_data);
    assert_eq!(protocol_message(&q.validate(false, |_, _, _| Ok(())).unwrap_err()), "unsupported cryptosystem");
    assert!(q
        .validate(true, |pk, d, sig| {
            assert!(*pk == w.key && *d == expected_data && *sig == Signature::new([4u8; 64]));
            Ok(())
        })
        .is_ok());
    assert_eq!(
        protocol_message(&q.validate(true, |_, _, _| Err("failed to validate".to_string())).unwrap_err()),
        "failed to validate"
    );
    let unsigned = RPCOperationWatchValueQ::new(typed_key(1), ValueSubkeyRangeSet::single(3), 0, 1, None, no_signer).unwrap();
    assert!(unsigned.validate(true, |_, _, _| -> Result<(), String> { panic!("nothing to verify") }).is_ok());
    let copy = q.clone();
    assert_eq!(copy.signature_data(), q.signature_data());
    let (ck, cs, cexp, ccount, cws) = copy.destructure();
    assert!(ck.value == typed_key(1).value);
    assert_eq!(cs.ranges(), vec![(3, 3)]);
    assert_eq!((cexp, ccount), (0, 1));
    assert!(cws.unwrap() == (w.key, Signature::new([4u8; 64])));
    let (k, s, exp, count, ws) = q.destructure();
    assert!(k.value == typed_key(1).value);
    assert_eq!(s.ranges(), vec![(3, 3)]);
    assert_eq!((exp, count), (0, 1));
    assert!(ws.unwrap().0 == w.key);
}

#[test]
fn watch_signature_data_layout() {
    let mut sk = ValueSubkeyRangeSet::new();
    sk.ranges_insert(1, 2);
    let key = typed_key(9);
    let data = make_signature_data(&key, &sk, 0x0000_0002_0000_0001, 5);
    let mut expected = Vec::new();
    expected.extend_from_slice(b"VLD0");
    expected.extend_from_slice(&[9u8; 32]);
    expected.extend_from_slice(&1u32.to_le_bytes());
    expected.extend_from_slice(&2u32.to_le_bytes());
    expected.extend_from_slice(&1u32.to_le_bytes());
    expected.extend_from_slice(&2u32.to_le_bytes());
    expected.extend_from_slice(&5u32.to_le_bytes());
    assert_eq!(data, expected);
}

#[test]
fn subkey_ranges_must_be_ordered_and_merged() {
    let ok = decode_subkey_ranges(&vec![(1, 3), (5, 6)]).unwrap();
    assert_eq!(ok.ranges(), vec![(1, 3), (5, 6)]);
    let e = decode_subkey_ranges(&vec![(3, 1)]).unwrap_err();
    assert_eq!(protocol_message(&e), "invalid subkey range");
    let adjacent = decode_subkey_ranges(&vec![(1, 3), (4, 6)]).unwrap();
    assert_eq!(adjacent.ranges(), vec![(1, 6)]);
    let e = decode_subkey_ranges(&vec![(1, 3), (3, 6)]).unwrap_err();
    assert_eq!(protocol_message(&e), "subkey range out of order or not merged");
    assert!(decode_subkey_ranges(&vec![(5, 6), (1, 2)]).is_err());
    let to_end = decode_subkey_ranges(&vec![(1, 3), (10, u32::MAX)]).unwrap();
    assert_eq!(to_end.ranges(), vec![(1, 3), (10, u32::MAX)]);
}

#[test]
fn watch_question_decode_and_encode() {
    let q = RPCOperationWatchValueQ::decode(Ok(typed_key(4)), &vec![(2, 4)], 99, 3, Ok(None)).unwrap();
    let (k, ranges, exp, count, sig) = q.encode();
    assert!(k.value == typed_key(4).value);
    assert_eq!(ranges, vec![(2, 4)]);
    assert_eq!((exp, count), (99, 3));
    assert!(sig.is_none());
    let e = RPCOperationWatchValueQ::decode(Err(RPCError::Protocol("bad key".to_string())), &vec![], 0, 0, Ok(None)).unwrap_err();
    assert_eq!(protocol_message(&e), "bad key");
}

#[test]
fn watch_answer_peers() {
    let a = RPCOperationWatchValueA::new(10, vec![1u8, 2, 3]).unwrap();
    assert_eq!(a.expiration(), 10);
    assert_eq!(a.peers(), &[1, 2, 3]);
    let mut b = RPCOperationWatchValueA::new(11, vec![1u8, 2, 3]).unwrap();
    b.validate(&vec![true, false, true]).unwrap();
    assert_eq!(b.peers(), &[1, 3]);
    let too_many = vec![0u8; 21];
    let e = RPCOperationWatchValueA::new(1, too_many).unwrap_err();
    assert_eq!(protocol_message(&e), "WatchValueA peers length too long");
    let decode_peer = |x: &u8| -> Result<u8, RPCError> {
        if *x == 0 {
            Err(RPCError::Protocol("bad peer".to_string()))
        } else {
            Ok(*x * 2)
        }
    };
    let d = RPCOperationWatchValueA::decode(5, &vec![1u8, 0, 3], decode_peer);
    assert_eq!(protocol_message(&d.unwrap_err()), "bad peer");
    let e = RPCOperationWatchValueA::decode(5, &vec![1u8; 21], |_: &u8| -> Result<u8, RPCError> {
        panic!("no peer is decoded past the limit")
    });
    assert_eq!(protocol_message(&e.unwrap_err()), "WatchValueA peers length too long");
    let d2 = RPCOperationWatchValueA::decode(5, &vec![1u8, 3], |x: &u8| -> Result<u8, RPCError> { Ok(*x) }).unwrap();
    assert_eq!(RPCOperationWatchValueA::decode(5, &vec![1u8, 3], decode_peer).unwrap().peers(), &[2, 6]);
    assert_eq!(d2.encode(), (5, &[1u8, 3][..]));
    assert_eq!(d2.destructure(), (5, vec![1u8, 3]));
}
