use vyges_em_ir::job::EmIrJob;

fn value(tok: &str) -> f64 {
    tok.parse::<f64>().unwrap()
}

#[test]
fn reads_keys_and_defaults() {
    let j = EmIrJob::parse("design: top\npdn: top.pdn   # network\nir_limit_pct: 2.5\n", "/jobs").unwrap();
    assert_eq!(j.design, "top");
    assert_eq!(j.pdn, "top.pdn");
    assert_eq!(value(&j.ir_limit_pct), 2.5);
    assert_eq!(value(&j.vdd), 1.8);
    assert_eq!(value(&j.via_res), 5.0);
    assert_eq!(value(&j.activity), 0.2);
    assert_eq!(value(&j.switch_dur_ns), 0.1);
    assert_eq!(j.base_dir, "/jobs");
    assert!(j.def.is_empty());
}

#[test]
fn keys_are_case_insensitive_later_lines_win_and_bad_numbers_default() {
    let j = EmIrJob::parse("DESIGN: a\nDesign: b\npdn: x.pdn\nvdd: high\n", "").unwrap();
    assert_eq!(j.design, "b");
    assert_eq!(j.vdd, "1.8");
}

#[test]
fn job_errors() {
    assert_eq!(EmIrJob::parse("design top\n", "").unwrap_err().0, "expected 'key: value', got \"design top\"");
    assert_eq!(EmIrJob::parse("pdn: a.pdn\n", "").unwrap_err().0, "missing key: design");
    assert_eq!(EmIrJob::parse("design: d\n", "").unwrap_err().0, "either `pdn` or `def` (+`lef`) is required");
    assert_eq!(
        EmIrJob::parse("design: d\ndef: a.def\n", "").unwrap_err().0,
        "`def` extraction also needs `lef` (layer resistances)"
    );
    assert_eq!(
        EmIrJob::parse("design: d\ndef: a.def\nlef: t.lef\n", "").unwrap_err().0,
        "`def` extraction needs `pad_layer` (the supply/top layer)"
    );
    let e = EmIrJob::parse("design d\n", "").unwrap_err();
    assert_eq!(e.message(), "job error: expected 'key: value', got \"design d\"");
}

#[test]
fn resolve_joins_relative_paths_onto_the_job_directory() {
    let j = EmIrJob::parse("design: a\npdn: x.pdn\n", "").unwrap();
    assert_eq!(j.resolve("x.pdn"), "x.pdn");
    let j = EmIrJob::parse("design: a\npdn: x.pdn\n", "/w/jobs").unwrap();
    assert_eq!(j.resolve("x.pdn"), "/w/jobs/x.pdn");
    assert_eq!(j.resolve("/abs/x.pdn"), "/abs/x.pdn");
}

#[test]
fn every_numeric_setting_of_an_accepted_job_reads_as_a_number() {
    let j = EmIrJob::parse(
        "design: d\ndef: a.def\nlef: t.lef\npad_layer: met5\nvia_res: 2e0\nclock_ghz: fast\nactivity: .5\nnode_cap_pf: -\n",
        "",
    )
    .unwrap();
    for tok in [
        &j.ir_limit_pct,
        &j.vdd,
        &j.via_res,
        &j.total_current,
        &j.clock_ghz,
        &j.activity,
        &j.switch_t_ns,
        &j.switch_dur_ns,
        &j.node_cap_pf,
    ] {
        assert!(tok.parse::<f64>().is_ok(), "{tok}");
    }
    assert_eq!(value(&j.via_res), 2.0);
    assert_eq!(value(&j.clock_ghz), 1.0);
    assert_eq!(value(&j.activity), 0.5);
    assert_eq!(value(&j.node_cap_pf), 0.0);
}

#[test]
fn a_plain_relative_path_is_joined_after_the_job_directory() {
    let j = EmIrJob::parse("design: d\npdn: net.pdn\n", "jobs/block").unwrap();
    let r = j.resolve("net.pdn");
    assert!(r.starts_with("jobs/block") && r.ends_with("net.pdn") && r.len() == "jobs/block/net.pdn".len());
    let j = EmIrJob::parse("design: d\npdn: net.pdn\n", "jobs/").unwrap();
    assert_eq!(j.resolve("a/b.pdn"), "jobs/a/b.pdn");
}
