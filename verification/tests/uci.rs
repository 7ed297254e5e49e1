use spsa_tui::uci::{read_uci_line, UciLine};

#[test]
fn uci_lines() {
    assert!(matches!(read_uci_line("  uciok \n"), UciLine::Done));
    assert!(matches!(read_uci_line("id name ferris"), UciLine::Other));
    assert!(matches!(
        read_uci_line("option name Hash type spin default 16 min 1 max 1024"),
        UciLine::Other
    ));
    match read_uci_line("option name rfp margin type spin default 75 min 20 max 200\n") {
        UciLine::Tunable(o) => {
            assert_eq!(o.name, "rfp margin");
            assert_eq!(o.default.as_deref(), Some("75"));
            assert_eq!((o.min, o.max), (Some(20), Some(200)));
            assert_eq!(o.spin_values(), Some((75, 20, 200)));
        }
        other => panic!("unexpected {:?}", other),
    }
}
