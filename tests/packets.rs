use paymon_tips::client::{send_transaction, AppId};
use paymon_tips::rpc::{write_bytes, write_i32, GetInfo, KeepAlive};

#[test]
fn keep_alive_bytes() {
    let mut s = Vec::new();
    KeepAlive {}.serialize_to_stream(&mut s);
    assert_eq!(s, vec![2, 0, 0, 0]);
    assert_eq!(KeepAlive::SVUID, 2);
}

#[test]
fn get_info_bytes() {
    let mut s = vec![9u8];
    GetInfo { name: "ab".to_string() }.serialize_to_stream(&mut s);
    assert_eq!(s, vec![9, 135, 62, 111, 20, 2, 0, 0, 0, b'a', b'b']);
}

#[test]
fn negative_word_bytes() {
    let mut s = Vec::new();
    write_i32(&mut s, -2);
    assert_eq!(s, vec![0xfe, 0xff, 0xff, 0xff]);
    let mut s = Vec::new();
    write_bytes(&mut s, &[]);
    assert_eq!(s, vec![0, 0, 0, 0]);
}

#[test]
fn app_ids_and_send() {
    let id = AppId::Label(3);
    assert!(matches!(id.clone(), AppId::Label(3)));
    send_transaction();
}
