use sailfish::keys::{order_of, position_of, same_key, sorted_authorities, KeyMap, KeyOrder, PublicKey};

fn ending(last: u8) -> [u8; 32] {
    let mut key = [0; 32];
    key[31] = last;
    key
}

#[test]
fn keys_are_ordered_as_their_bytes() {
    let mut high = [0; 32];
    high[0] = 1;
    assert_eq!(order_of(&ending(200), &high), KeyOrder::Below);
    assert_eq!(order_of(&high, &ending(200)), KeyOrder::Above);
    assert_eq!(order_of(&high, &high), KeyOrder::Same);
    assert!(same_key(&ending(3), &ending(3)));
    assert!(!same_key(&ending(3), &ending(4)));
    assert!(PublicKey(ending(200)) < PublicKey(high));
}

#[test]
fn maps_keep_their_keys_in_order() {
    let mut map = KeyMap::new();
    for last in [5, 1, 9, 5, 3] {
        map.insert(ending(last), last as u32 + map.len() as u32);
    }
    assert_eq!(map.len(), 4);
    assert_eq!(map.keys(), vec![ending(1), ending(3), ending(5), ending(9)]);
    assert_eq!(map.get(&ending(5)), Some(&8));
    assert_eq!(map.remove(&ending(3)), Some(6));
    assert_eq!(map.remove(&ending(3)), None);
    assert!(!map.contains_key(&ending(3)));
    assert!(map.contains_key(&ending(9)));
}

#[test]
fn authorities_are_sorted_and_found() {
    let authorities: Vec<PublicKey> = [7, 2, 4].iter().map(|b| PublicKey([*b; 32])).collect();
    let keys = sorted_authorities(&authorities);
    assert_eq!(keys, vec![[2; 32], [4; 32], [7; 32]]);
    assert_eq!(position_of(&keys, &[4; 32]), Some(1));
    assert_eq!(position_of(&keys, &[5; 32]), None);
    assert_eq!(position_of(&vec![], &[5; 32]), None);
}
