use vyges_em_ir::def::{is_qualifier, Def};
use vyges_em_ir::lef::TechLef;

const LEF: &str = "\
LAYER met5
  TYPE ROUTING ;
  RESISTANCE RPERSQ 0.1 ;
  WIDTH 1.0 ;
END met5
LAYER met4
  TYPE ROUTING ;
  RESISTANCE RPERSQ 0.1 ;
  WIDTH 1.0 ;
END met4
";

const DEF: &str = "\
UNITS DISTANCE MICRONS 1000 ;
SPECIALNETS 1 ;
- VPWR
  + USE POWER
  + ROUTED met5 1000 ( 0 0 ) M54 ( 0 10000 ) M54
    NEW met5 1000 ( 10000 0 ) M54 ( 10000 10000 ) M54
    NEW met4 1000 ( 0 0 ) ( 10000 0 )
    NEW met4 1000 ( 0 10000 ) ( 10000 10000 )
 ;
END SPECIALNETS
";

const EM_LEF: &str = "\
LAYER met5
  RESISTANCE RPERSQ 0.1 ;
  WIDTH 1.0 ;
  DCCURRENTDENSITY AVERAGE 2.0 ;
END met5
LAYER met4
  RESISTANCE RPERSQ 0.1 ;
  WIDTH 1.0 ;
  DCCURRENTDENSITY AVERAGE 1.0 ;
END met4
";

fn value(tok: &str) -> f64 {
    tok.parse::<f64>().unwrap()
}

#[test]
fn parses_def_units_and_power_net() {
    let def = Def::parse(DEF).unwrap();
    assert_eq!(value(&def.dbu), 1000.0);
    let net = def.power_net().unwrap();
    assert_eq!(net.name, "VPWR");
    assert!(net.use_power);
    assert_eq!(net.segs.len(), 4, "two met5 + two met4 stripes");
    assert_eq!(net.vias.len(), 4, "a via at each corner");
}

#[test]
fn lef_layer_resistance() {
    let lef = TechLef::parse(LEF).unwrap();
    assert!((value(&lef.layer("met5").unwrap().rpersq) - 0.1).abs() < 1e-12);
    assert!((value(&lef.layer("met4").unwrap().width_um) - 1.0).abs() < 1e-12);
}

#[test]
fn lef_dc_current_density_parsed() {
    let lef = TechLef::parse(EM_LEF).unwrap();
    assert!((value(&lef.layer("met4").unwrap().dc_jmax) - 1.0).abs() < 1e-12);
    assert!((value(&lef.layer("met5").unwrap().dc_jmax) - 2.0).abs() < 1e-12);
}

#[test]
fn lef_without_layers_is_refused_and_bad_values_keep_the_default() {
    assert_eq!(TechLef::parse("VERSION 5.8 ;\n").unwrap_err().0, "no LAYER blocks found");
    let lef = TechLef::parse("LAYER m1\n RESISTANCE RPERSQ table ;\n WIDTH 0.2 ;\nEND m1\n").unwrap();
    let l = lef.layer("m1").unwrap();
    assert_eq!(l.rpersq, "0.0");
    assert_eq!(l.width_um, "0.2");
    assert!(lef.layer("m2").is_none());
    // a block that never closes is not a layer
    assert!(TechLef::parse("LAYER m1\n WIDTH 1 ;\n").is_err());
}

#[test]
fn def_errors_and_defaults() {
    assert_eq!(Def::parse("UNITS DISTANCE MICRONS 2000 ;\n").unwrap_err().0, "no SPECIALNETS section");
    assert_eq!(Def::parse("SPECIALNETS 0 ;\nEND SPECIALNETS\n").unwrap_err().0, "no special nets parsed");
    let d = Def::parse("SPECIALNETS 1 ;\n- VDD ( 0 0 ) ;\nEND SPECIALNETS\n").unwrap();
    assert_eq!(d.dbu, "1000.0");
    assert_eq!(d.power_net().unwrap().name, "VDD");
}

#[test]
fn power_net_prefers_use_power_then_a_supply_name_then_the_first() {
    let text = "SPECIALNETS 3 ;\n- A ;\n- VDD ;\n- B + USE POWER ;\nEND SPECIALNETS\n";
    assert_eq!(Def::parse(text).unwrap().power_net().unwrap().name, "B");
    let text = "SPECIALNETS 2 ;\n- A ;\n- VCC ;\nEND SPECIALNETS\n";
    assert_eq!(Def::parse(text).unwrap().power_net().unwrap().name, "VCC");
    let text = "SPECIALNETS 2 ;\n- A ;\n- B ;\nEND SPECIALNETS\n";
    assert_eq!(Def::parse(text).unwrap().power_net().unwrap().name, "A");
}

#[test]
fn star_coordinates_reuse_the_previous_point_and_pin_groups_are_skipped() {
    let text = "SPECIALNETS 1 ;\n- VPWR ( PIN VGND ) + ROUTED met1 480 ( 100 200 ) ( * 900 ) ( 700 * ) via1 ;\nEND SPECIALNETS\n";
    let d = Def::parse(text).unwrap();
    let n = d.power_net().unwrap();
    assert_eq!(n.segs.len(), 2);
    assert_eq!((n.segs[0].x1, n.segs[0].y1, n.segs[0].x2, n.segs[0].y2), (100, 200, 100, 900));
    assert_eq!((n.segs[1].x1, n.segs[1].y1, n.segs[1].x2, n.segs[1].y2), (100, 900, 700, 900));
    assert_eq!(n.segs[0].width_dbu, "480");
    assert_eq!(n.vias, vec![(700, 900)]);
    assert_eq!(n.points.len(), 3);
}

#[test]
fn qualifier_words_are_not_vias() {
    assert!(is_qualifier("SHAPE"));
    assert!(is_qualifier("FOLLOWPIN"));
    assert!(!is_qualifier("M54"));
    let text = "SPECIALNETS 1 ;\n- VPWR + ROUTED met1 480 ( 0 0 ) ( 10 0 ) SHAPE STRIPE ;\nEND SPECIALNETS\n";
    assert!(Def::parse(text).unwrap().power_net().unwrap().vias.is_empty());
}
