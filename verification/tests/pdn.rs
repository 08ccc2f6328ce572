use vyges_em_ir::pdn::{PdnParse, PdnSpec};

fn value(tok: &str) -> f64 {
    tok.parse::<f64>().unwrap()
}

/// The reading's outcome, deciding each positivity check on the token's value.
fn outcome(p: &PdnParse) -> Result<(), String> {
    let positive: Vec<bool> = p.checks.iter().map(|c| !(value(&c.token) <= 0.0)).collect();
    p.verdict(&positive).map_err(|e| e.0)
}

fn parse_ok(text: &str) -> PdnSpec {
    let p = PdnSpec::parse(text);
    assert!(outcome(&p).is_ok(), "{:?}", outcome(&p));
    p.spec
}

#[test]
fn parses_network() {
    let s = parse_ok("vdd 1.8\npad p\nres p n1 0.1 met5\nvia n1 m1 2.0\nload n1 0.5\nemlimit met5 0.8\n");
    assert_eq!(value(s.vdd.as_ref().unwrap()), 1.8);
    // pad voltage defaults to vdd
    assert_eq!(s.pads.len(), 1);
    assert_eq!(s.pads[0].0, "p");
    assert_eq!(value(&s.pads[0].1), 1.8);
    assert_eq!(s.resistors.len(), 2);
    assert_eq!(s.resistors[1].layer.as_deref(), Some("via"));
    assert_eq!(s.loads.len(), 1);
    assert_eq!(s.loads[0].0, "n1");
    assert_eq!(value(&s.loads[0].1), 0.5);
    let lim: Vec<_> = s.em_limits.iter().filter(|(l, _)| l == "met5").collect();
    assert_eq!(value(&lim.last().unwrap().1), 0.8);
}

#[test]
fn rejects_missing_essentials() {
    assert!(outcome(&PdnSpec::parse("pad p\nres p n1 0.1\n")).is_err()); // no vdd
    assert!(outcome(&PdnSpec::parse("vdd 1.8\nres p n1 0.1\n")).is_err()); // no pad
    assert!(outcome(&PdnSpec::parse("vdd 1.8\npad p\n")).is_err()); // no resistor
    assert!(outcome(&PdnSpec::parse("vdd 1.8\npad p\nres p n1 0 met5\n")).is_err()); // r <= 0
}

#[test]
fn parses_cap_and_switch() {
    let s = parse_ok("vdd 1.8\npad p\nres p n1 0.5 met1\ncap n1 0.5\nswitch n1 1.8 1.0 0.1\n");
    assert!(s.is_dynamic());
    assert_eq!(s.caps.len(), 1);
    assert_eq!(s.caps[0].0, "n1");
    assert_eq!(value(&s.caps[0].1), 0.5);
    assert_eq!(s.switches.len(), 1);
    let sw = &s.switches[0];
    assert_eq!(sw.node, "n1");
    assert!((value(&sw.energy_pj) - 1.8).abs() < 1e-12 && (value(&sw.t50_ns) - 1.0).abs() < 1e-12);
    assert!((value(&sw.dur_ns) - 0.1).abs() < 1e-12);
}

#[test]
fn pdn_error_messages_name_the_problem() {
    let e = |t: &str| outcome(&PdnSpec::parse(t)).unwrap_err();
    assert_eq!(e("vdd x\n"), "vdd: expected a number");
    assert_eq!(e("vdd 1.8\npad\n"), "pad needs a node");
    assert_eq!(e("vdd 1.8\npad p q\n"), "pad voltage: expected a number");
    assert_eq!(e("vdd 1.8\nres\n"), "res needs node a");
    assert_eq!(e("vdd 1.8\nres a\n"), "res needs node b");
    assert_eq!(e("vdd 1.8\nres a b\n"), "res ohms: expected a number");
    assert_eq!(e("vdd 1.8\npad p\nres a b -1\n"), "res a-b: resistance must be > 0");
    assert_eq!(e("vdd 1.8\nload\n"), "load needs a node");
    assert_eq!(e("vdd 1.8\nload n\n"), "load amps: expected a number");
    assert_eq!(e("vdd 1.8\nemlimit\n"), "emlimit needs a layer");
    assert_eq!(e("vdd 1.8\nemlimit m x\n"), "emlimit amps: expected a number");
    assert_eq!(e("vdd 1.8\ncap\n"), "cap needs a node");
    assert_eq!(e("vdd 1.8\ncap n\n"), "cap pF: expected a number");
    assert_eq!(e("vdd 1.8\nswitch\n"), "switch needs a node");
    assert_eq!(e("vdd 1.8\nswitch n\n"), "switch energy(pJ): expected a number");
    assert_eq!(e("vdd 1.8\nswitch n 1\n"), "switch t50(ns): expected a number");
    assert_eq!(e("vdd 1.8\nswitch n 1 1 z\n"), "switch dur(ns): expected a number");
    assert_eq!(e("vdd 1.8\npad p\nres p a 1\nswitch n 1 1 0\n"), "switch n: dur must be > 0");
    assert_eq!(e("vdd 1.8\nbogus x\n"), "unknown keyword: \"bogus\"");
    assert_eq!(e("pad p\nres p a 1\n"), "vdd must be set and > 0");
    assert_eq!(e("vdd 0\npad p\nres p a 1\n"), "vdd must be set and > 0");
    assert_eq!(e("vdd 1.8\nres p a 1\n"), "at least one pad is required");
    assert_eq!(e("vdd 1.8\npad p\n"), "at least one resistor is required");
}

#[test]
fn the_first_error_in_file_order_is_reported() {
    // a non-positive resistance on line 3 comes before the unknown keyword on line 4
    let p = PdnSpec::parse("vdd 1.8\npad p\nres p a 0\nfoo\n");
    assert_eq!(outcome(&p).unwrap_err(), "res p-a: resistance must be > 0");
    // and a bad supply is reported before a missing pad
    let p = PdnSpec::parse("vdd -1\nres p a 1\n");
    assert_eq!(outcome(&p).unwrap_err(), "vdd must be set and > 0");
}

#[test]
fn comments_blank_lines_and_defaults() {
    let s = parse_ok("# header\n\nvdd 1.2   # core\npad p 1.1\npad q\nres p a 2 met1 # strap\nres q a 3\nswitch a 1 2\n");
    assert_eq!(s.pads[0].1, "1.1");
    assert_eq!(s.pads[1].1, "1.2");
    assert_eq!(s.resistors[0].layer.as_deref(), Some("met1"));
    assert_eq!(s.resistors[1].layer, None);
    assert_eq!(s.switches[0].dur_ns, "0.1");
}

#[test]
fn error_message_text_has_its_prefix() {
    let p = PdnSpec::parse("vdd 1.8\n");
    let e = p.verdict(&vec![true; p.checks.len()]).unwrap_err();
    assert_eq!(e.message(), "pdn error: at least one pad is required");
}

#[test]
fn an_accepted_network_has_every_resistance_checked_positive() {
    let p = PdnSpec::parse("vdd 1.2\npad p\nres p a 0.5\nvia a b 3e-1\nres b c 7\n");
    assert!(outcome(&p).is_ok());
    for r in &p.spec.resistors {
        assert!(p.checks.iter().any(|c| c.token == r.r && value(&c.token) > 0.0), "{}", r.r);
    }
    assert!(p.checks.iter().any(|c| c.token == "1.2"));
    // one non-positive resistance refuses the whole file
    let q = PdnSpec::parse("vdd 1.2\npad p\nres p a 0.5\nres a b -0.0\n");
    assert_eq!(outcome(&q), Err("res a-b: resistance must be > 0".to_string()));
}
