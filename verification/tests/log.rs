use raop_send::log::{enabled, level, Verbosity};

#[test]
fn status_lines_by_default() {
    let v = Verbosity::new();
    assert_eq!(level(&v), 1);
    assert!(enabled(&v, 1));
    assert!(!enabled(&v, 2));
}

#[test]
fn quiet_and_verbose() {
    let mut v = Verbosity::new();
    raop_send::log::set(&mut v, 0);
    assert_eq!(level(&v), 0);
    assert!(!enabled(&v, 1));
    raop_send::log::set(&mut v, 2);
    assert!(enabled(&v, 2));
}
