use tuic::address::Address;
use tuic::config::{socks5_authentication, Socks5AuthenticationConfig};
use tuic::connect::Connect;
use tuic::header::Header;
use tuic::stream::SendStreamState;
use tuic::task::TaskRegister;

#[test]
fn connect_carries_its_header() {
    let addr = Address::DomainAddress {
        name: b"target.example".to_vec(),
        port: 22,
    };
    let reg = TaskRegister::new();
    let connect = Connect::new(reg, addr.clone());
    match connect.header() {
        Header::Connect(h) => assert_eq!(h.addr, addr),
        Header::Packet(_) => panic!("connect object carries a packet header"),
    }
}

#[test]
fn task_register_clones_share_liveness() {
    let reg = TaskRegister::new();
    let other = reg.clone();
    drop(reg);
    drop(other);
}

#[test]
fn write_after_finish_is_refused() {
    let mut state = SendStreamState::new();
    assert!(state.may_write());
    state.finish();
    assert!(!state.may_write());
    // finishing is final: asking again never re-opens the half
    state.finish();
    assert!(!state.may_write());
}

#[test]
fn socks5_authentication_pairs_username_and_password() {
    assert_eq!(
        socks5_authentication(None, None),
        Some(Socks5AuthenticationConfig::NoAuthentication)
    );
    assert_eq!(
        socks5_authentication(Some(b"user".to_vec()), Some(b"pass".to_vec())),
        Some(Socks5AuthenticationConfig::Password {
            username: b"user".to_vec(),
            password: b"pass".to_vec(),
        })
    );
    assert_eq!(socks5_authentication(Some(b"user".to_vec()), None), None);
    assert_eq!(socks5_authentication(None, Some(b"pass".to_vec())), None);
}
