use vyges_em_ir::cli::{parse_cli, Action};
use vyges_em_ir::emir::{network, EmIrError, End};
use vyges_em_ir::emsignoff::CurrentMap;
use vyges_em_ir::num::{is_number, parse_i64};
use vyges_em_ir::pdn::PdnSpec;
use vyges_em_ir::text::{chars_of, strip_comment, words_of};

fn s(v: &[&str]) -> Vec<String> {
    v.iter().map(|x| x.to_string()).collect()
}

#[test]
fn cli_flags_and_positionals() {
    let c = parse_cli(&s(&["run", "job.emir", "-o", "out.rpt", "--json", "--fail-on-violation", "-q"]));
    assert_eq!(c.positionals, s(&["run", "job.emir"]));
    assert_eq!(c.out.as_deref(), Some("out.rpt"));
    assert!(c.json && c.fail_on_violation && c.quiet && !c.verbose && !c.help);
    let c = parse_cli(&s(&["demo", "-o"]));
    assert_eq!(c.out, None);
    let c = parse_cli(&s(&["-V", "--help", "--star", "--sponsor", "--bug-report", "--feature-request", "-v"]));
    assert!(c.version && c.help && c.star && c.sponsor && c.bug_report && c.feature_request && c.verbose);
    assert!(c.positionals.is_empty());
}

#[test]
fn free_nodes_in_first_mention_order_pads_excluded() {
    let p = PdnSpec::parse("vdd 1.8\npad p\nres p n1 0.1\nres n1 n2 0.2\nload n2 1\nload p 1\ncap n3 1\n");
    let net = network(&p.spec);
    assert_eq!(net.free, s(&["n1", "n2", "n3"]));
    assert!(matches!(net.ends[0], (End::Pad(0), End::Free(0))));
    assert!(matches!(net.ends[1], (End::Free(0), End::Free(1))));
    assert_eq!(net.load_at, vec![Some(1), None]);
    assert_eq!(net.cap_at, vec![Some(2)]);
}

#[test]
fn emir_error_text() {
    assert_eq!(EmIrError::Solver("x".to_string()).message(), "solver error: x");
    assert_eq!(EmIrError::Parse("bad".to_string()).message(), "parse error: bad");
    assert_eq!(EmIrError::Io("gone".to_string()).message(), "io error: gone");
    assert_eq!(EmIrError::ElectrothermalNotModeled.message(), "electrothermal not modeled in v0");
}

#[test]
fn current_map_is_forgiving() {
    let m = CurrentMap::parse("clk 0.3 0.5 0.9\nrst x 1\nbus 0.2 y 0.4\n# only\nlone\n");
    assert_eq!(m.avg, vec![("clk".to_string(), "0.3".to_string()), ("bus".to_string(), "0.2".to_string())]);
    assert_eq!(m.rms, vec![("clk".to_string(), "0.5".to_string())]);
    assert_eq!(m.peak.len(), 2);
    assert_eq!(m.default_avg_ma, "0.0");
}

#[test]
fn number_and_integer_tokens() {
    for ok in ["1", "1.", ".5", "-2.5e-3", "+1E5", "inf", "-Infinity", "NaN", "0.0"] {
        assert!(is_number(&chars_of(ok)), "{ok}");
        assert!(ok.parse::<f64>().is_ok());
    }
    for bad in ["", ".", "e5", "1e", "1.2.3", "--1", "0x10", "1 ", "infx"] {
        assert!(!is_number(&chars_of(bad)), "{bad}");
        assert!(bad.parse::<f64>().is_err());
    }
    assert_eq!(parse_i64(&chars_of("-9223372036854775808")), Some(i64::MIN));
    assert_eq!(parse_i64(&chars_of("9223372036854775808")), None);
    assert_eq!(parse_i64(&chars_of("+42")), Some(42));
    assert_eq!(parse_i64(&chars_of("-")), None);
}

#[test]
fn comments_and_words() {
    assert_eq!(strip_comment("res a b # c # d"), "res a b ");
    assert_eq!(strip_comment("no comment"), "no comment");
    let w = words_of(&chars_of("  a\tbb \u{a0}c\n"));
    let w: Vec<String> = w.iter().map(|x| x.iter().collect()).collect();
    assert_eq!(w, s(&["a", "bb", "c"]));
}

#[test]
fn cli_action_follows_flag_precedence() {
    assert!(matches!(parse_cli(&s(&["run", "j", "--star", "--sponsor"])).action(), Action::Sponsor));
    assert!(matches!(parse_cli(&s(&["-V", "demo"])).action(), Action::Version));
    assert!(matches!(parse_cli(&s(&[])).action(), Action::Usage(2)));
    assert!(matches!(parse_cli(&s(&["run", "-h"])).action(), Action::Usage(0)));
    assert!(matches!(parse_cli(&s(&["-h"])).action(), Action::Usage(0)));
    assert!(matches!(parse_cli(&s(&["demo", "--json"])).action(), Action::Demo));
    match parse_cli(&s(&["run", "block.emir", "-o", "x"])).action() {
        Action::Run(p) => assert_eq!(p.as_deref(), Some("block.emir")),
        other => panic!("{other:?}"),
    }
    assert!(matches!(parse_cli(&s(&["check"])).action(), Action::Check(None)));
    match parse_cli(&s(&["frob"])).action() {
        Action::Unknown(w) => assert_eq!(w, "frob"),
        other => panic!("{other:?}"),
    }
}
