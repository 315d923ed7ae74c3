use fab::error::FabError;
use fab::listeners::ListenerTable;

#[test]
fn listen_close_cycle() {
    let mut t: ListenerTable<&'static str> = ListenerTable::new();
    assert!(matches!(t.ensure_listening(), Err(FabError::NotListeningError)));
    assert!(t.ensure_vacant(8080).is_ok());
    t.insert(8080, "a");
    assert!(matches!(t.ensure_vacant(8080), Err(FabError::AlreadyListeningError)));
    assert!(t.ensure_vacant(8081).is_ok());
    assert!(t.ensure_listening().is_ok());
    assert_eq!(t.get(8080), Some(&"a"));
    assert_eq!(t.get(8081), None);
    assert!(t.close(8080).is_ok());
    assert!(matches!(t.close(8080), Err(FabError::NotListeningError)));
    assert!(matches!(t.ensure_listening(), Err(FabError::NotListeningError)));
}

#[test]
fn ports_lists_each_open_port() {
    let mut t: ListenerTable<u8> = ListenerTable::new();
    assert!(t.ports().is_empty());
    t.insert(3, 0);
    t.insert(1, 0);
    t.insert(2, 0);
    t.insert(1, 5);
    let mut p = t.ports();
    p.sort();
    assert_eq!(p, vec![1, 2, 3]);
    assert_eq!(t.get(1), Some(&5));
}
