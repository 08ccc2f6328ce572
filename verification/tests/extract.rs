use vyges_em_ir::def::Def;
use vyges_em_ir::extract::{
    extract_fits, extract_topology, metal_index, node, on_segment, parse_power_map, via_definitions,
};
use vyges_em_ir::lef::{cell_sizes, TechLef};

// Grid (10 um square): two vertical met5 stripes, two horizontal met4 stripes, vias at
// the four corners. met5 is the supply layer.
const DEF: &str = "\
UNITS DISTANCE MICRONS 1000 ;
SPECIALNETS 1 ;
- VPWR
  + USE POWER
  + ROUTED met5 1000 ( 0 0 ) M54 ( 0 10000 ) M54
    NEW met5 1000 ( 10000 0 ) M54 ( 10000 10000 ) M54
    NEW met4 1000 ( 0 0 ) ( 10000 0 )
    NEW met4 1000 ( 0 10000 ) ( 10000 10000 )
 ;
END SPECIALNETS
";

// A via landing in the middle of a stripe, with a single-point landing on met4.
const STACK_DEF: &str = "\
UNITS DISTANCE MICRONS 1000 ;
SPECIALNETS 1 ;
- VPWR
  + USE POWER
  + ROUTED met5 1000 ( 0 0 ) ( 0 20000 )
    NEW met4 0 ( 0 10000 ) M45
 ;
END SPECIALNETS
";

#[test]
fn grid_topology_has_four_wires_four_vias_four_pads() {
    let def = Def::parse(DEF).unwrap();
    assert!(extract_fits(&def, "met5", &[]));
    let t = extract_topology(&def, "met5", &[]).unwrap();
    assert_eq!(t.net_name, "VPWR");
    assert_eq!(t.wires.len(), 4);
    assert_eq!(t.vias.len(), 4, "one met4-met5 bridge per corner");
    assert!(t.vias.iter().all(|v| v.lower == "met4" && v.upper == "met5"));
    assert_eq!(t.pads.len(), 4, "4 met5 corner nodes are pads");
    assert!(t.pads.iter().all(|p| p.layer == "met5" && p.name.starts_with("met5_")));
    assert_eq!(t.load_nodes.len(), 4, "the 4 met4 nodes carry the load");
    assert!(t.load_nodes.iter().all(|n| n.layer == "met4"));
    // pads in increasing (x, y) order
    let pts: Vec<(i64, i64)> = t.pads.iter().map(|p| (p.x, p.y)).collect();
    assert_eq!(pts, vec![(0, 0), (0, 10000), (10000, 0), (10000, 10000)]);
}

#[test]
fn stripe_is_split_at_a_mid_segment_via_which_bridges_the_layers() {
    let def = Def::parse(STACK_DEF).unwrap();
    let t = extract_topology(&def, "met5", &[]).unwrap();
    let met5: Vec<_> = t.wires.iter().filter(|w| w.layer == "met5").collect();
    assert_eq!(met5.len(), 2, "stripe split at the mid-segment via");
    assert_eq!((met5[0].ax, met5[0].ay, met5[0].bx, met5[0].by), (0, 0, 0, 10000));
    assert_eq!((met5[1].ax, met5[1].ay, met5[1].bx, met5[1].by), (0, 10000, 0, 20000));
    assert_eq!(t.vias.len(), 1);
    assert_eq!(t.vias[0].a, "met4_0_10000");
    assert_eq!(t.vias[0].b, "met5_0_10000");
}

#[test]
fn a_stripe_drawn_backwards_is_cut_in_walking_order() {
    let text = "SPECIALNETS 1 ;\n- VPWR + USE POWER + ROUTED met5 1000 ( 0 30 ) ( 0 0 )\n NEW met4 0 ( 0 10 ) V NEW met4 0 ( 0 20 ) V ;\nEND SPECIALNETS\n";
    let t = extract_topology(&Def::parse(text).unwrap(), "met5", &[]).unwrap();
    let ys: Vec<(i64, i64)> = t.wires.iter().filter(|w| w.layer == "met5").map(|w| (w.ay, w.by)).collect();
    assert_eq!(ys, vec![(30, 20), (20, 10), (10, 0)]);
}

#[test]
fn extraction_errors() {
    let no_segs = Def::parse("SPECIALNETS 1 ;\n- VPWR ;\nEND SPECIALNETS\n").unwrap();
    assert_eq!(extract_topology(&no_segs, "met5", &[]).err().unwrap(), "power net \"VPWR\" has no routed segments");
    // no node on the pad layer: no supply
    let t = extract_topology(&Def::parse(DEF).unwrap(), "met9", &[]).unwrap();
    assert!(t.pads.is_empty());
}

#[test]
fn via_stack_bridges_adjacent_layers_in_metal_order() {
    let text = "SPECIALNETS 1 ;\n- VPWR + ROUTED met5 1000 ( 0 0 ) ( 0 100 )\n NEW met1 0 ( 0 50 ) V\n NEW met3 0 ( 0 50 ) V\n NEW li1 0 ( 0 50 ) V ;\nEND SPECIALNETS\n";
    let t = extract_topology(&Def::parse(text).unwrap(), "met5", &[]).unwrap();
    let pairs: Vec<(String, String)> = t.vias.iter().map(|v| (v.lower.clone(), v.upper.clone())).collect();
    assert_eq!(
        pairs,
        vec![
            ("li1".to_string(), "met1".to_string()),
            ("met1".to_string(), "met3".to_string()),
            ("met3".to_string(), "met5".to_string())
        ]
    );
    // the load layer is the lowest non-pad metal
    assert!(t.load_nodes.iter().all(|n| n.layer == "li1"));
}

#[test]
fn metal_index_node_names_and_on_segment() {
    assert_eq!(metal_index("li1"), 0);
    assert_eq!(metal_index("LI"), 0);
    assert_eq!(metal_index("met4"), 4);
    assert_eq!(metal_index("via"), 9999);
    assert_eq!(metal_index("m99999999999"), 9999);
    assert_eq!(node("met4", 0, -10000), "met4_0_-10000");
    // names identify (layer, x, y): look-alike splits stay distinct
    assert_ne!(node("m_1", 2, 3), node("m", 1, 23));
    assert_ne!(node("m", 12, 3), node("m", 1, 23));
    assert_ne!(node("m", -1, 2), node("m-", 1, 2));
    assert!(on_segment(0, 0, 0, 10, 0, 5));
    assert!(!on_segment(0, 0, 0, 10, 0, 10), "an end point is not strictly inside");
    assert!(!on_segment(0, 0, 10, 10, 5, 6), "not collinear");
    assert!(on_segment(10, 10, 0, 0, 3, 3));
}

#[test]
fn huge_coordinates_are_reported_as_not_fitting() {
    let text = "SPECIALNETS 1 ;\n- VPWR + ROUTED met5 1 ( -9000000000000000000 0 ) ( 9000000000000000000 0 ) V ;\nEND SPECIALNETS\n";
    assert!(!extract_fits(&Def::parse(text).unwrap(), "met5", &[]));
}

#[test]
fn power_map_keeps_numeric_lines() {
    let m = parse_power_map("INVX 0.02 5.0\n# c\nBAD x\nDECAP 0.5\nlonely\n");
    assert_eq!(m, vec![("INVX".to_string(), "0.02".to_string()), ("DECAP".to_string(), "0.5".to_string())]);
}

#[test]
fn parses_components_placements() {
    let def_with_comps = format!(
        "COMPONENTS 2 ;\n\
         - g1 sky130_fd_sc_hd__inv_2 + PLACED ( 5000 6000 ) N ;\n\
         - FILLER_0 sky130_fd_sc_hd__fill_1 + SOURCE DIST + PLACED ( 100 200 ) FS ;\n\
         END COMPONENTS\n{DEF}"
    );
    let def = Def::parse(&def_with_comps).unwrap();
    assert_eq!(def.comps.len(), 2);
    assert_eq!(def.comps[0].name, "g1");
    assert_eq!(def.comps[0].cell, "sky130_fd_sc_hd__inv_2");
    assert_eq!((def.comps[0].x, def.comps[0].y), (5000, 6000));
    assert_eq!(def.comps[1].cell, "sky130_fd_sc_hd__fill_1");
}

const PIN_DEF: &str = "\
UNITS DISTANCE MICRONS 1000 ;
PINS 1 ;
    - VPWR + NET VPWR + SPECIAL + DIRECTION INOUT + USE POWER
      + PORT
        + LAYER met5 ( -100 -100 ) ( 100 10100 )
      + FIXED ( 0 0 ) N ;
END PINS
SPECIALNETS 1 ;
- VPWR
  + USE POWER
  + ROUTED met5 1000 ( 0 0 ) M54 ( 0 10000 ) M54
    NEW met5 1000 ( 10000 0 ) M54 ( 10000 10000 ) M54
    NEW met4 1000 ( 0 0 ) ( 10000 0 )
    NEW met4 1000 ( 0 10000 ) ( 10000 10000 )
 ;
END SPECIALNETS
";

#[test]
fn sources_are_the_power_pin_shapes_when_the_design_declares_them() {
    let def = Def::parse(PIN_DEF).unwrap();
    assert_eq!(def.pins.len(), 1);
    let p = &def.pins[0];
    assert_eq!((p.name.as_str(), p.net.as_str(), p.use_power, p.use_ground), ("VPWR", "VPWR", true, false));
    assert_eq!(p.shapes.len(), 1);
    assert_eq!((p.shapes[0].x1, p.shapes[0].y1, p.shapes[0].x2, p.shapes[0].y2), (-100, -100, 100, 10100));
    let t = extract_topology(&def, "met5", &[]).unwrap();
    assert_eq!(t.pads.len(), 2, "only the met5 nodes inside the port rectangle");
    assert!(t.pads.iter().all(|n| n.name.starts_with("met5_0_")));
}

#[test]
fn sources_fall_back_to_the_pad_layer_when_no_power_pin_is_declared() {
    let t = extract_topology(&Def::parse(DEF).unwrap(), "met5", &[]).unwrap();
    assert_eq!(t.pads.len(), 4);
}

#[test]
fn pin_shapes_follow_the_placement_orientation() {
    let text = "PINS 1 ;\n- P + NET VPWR + USE GROUND + PORT + LAYER met4 ( 0 0 ) ( 10 20 ) + PLACED ( 100 100 ) S ;\nEND PINS\nSPECIALNETS 1 ;\n- VPWR ( 0 0 ) ;\nEND SPECIALNETS\n";
    let def = Def::parse(text).unwrap();
    let s = &def.pins[0].shapes[0];
    assert!(def.pins[0].use_ground && !def.pins[0].use_power);
    assert_eq!((s.x1, s.y1, s.x2, s.y2), (90, 80, 100, 100));
}

const VIA_DEF: &str = "\
UNITS DISTANCE MICRONS 1000 ;
VIAS 1 ;
    - via5_6_named_to_mislead + VIARULE M4M5_PR + LAYERS met4 via4 met5  + ROWCOL 1 4  ;
END VIAS
SPECIALNETS 1 ;
- VPWR
  + USE POWER
  + ROUTED met5 1000 ( 0 0 ) ( 0 10000 )
    NEW met4 1000 ( 0 0 ) ( 10000 0 )
    NEW met4 1000 ( 0 0 ) 0 via5_6_named_to_mislead
 ;
END SPECIALNETS
";

#[test]
fn via_definition_names_its_cut_layer_and_cut_count() {
    let def = Def::parse(VIA_DEF).unwrap();
    assert_eq!(def.via_defs.len(), 1);
    let (n, d) = &def.via_defs[0];
    assert_eq!(n, "via5_6_named_to_mislead");
    assert_eq!((d.below.as_str(), d.cut_layer.as_str(), d.above.as_str(), d.cuts), ("met4", "via4", "met5", 4));
    let net = def.power_net().unwrap();
    assert_eq!(net.via_names, vec![("via5_6_named_to_mislead".to_string(), 0, 0)]);
    let t = extract_topology(&def, "met5", &[]).unwrap();
    assert_eq!(t.vias.len(), 1);
    let v = &t.vias[0];
    let ds = via_definitions(&def, v.x, v.y, &v.lower, &v.upper);
    assert_eq!(ds.len(), 1);
    assert_eq!(ds[0].cut_layer, "via4");
    assert!(via_definitions(&def, v.x, v.y, "met5", "met4").is_empty(), "stack order matters");
    let lef = TechLef::parse("LAYER via4\n  TYPE CUT ;\n  RESISTANCE 0.38 ;\nEND via4\n").unwrap();
    assert_eq!(lef.layer("via4").unwrap().cut_res, "0.38");
}

#[test]
fn a_via_with_no_definition_has_no_candidates() {
    let no_defs = VIA_DEF.replace(
        "VIAS 1 ;\n    - via5_6_named_to_mislead + VIARULE M4M5_PR + LAYERS met4 via4 met5  + ROWCOL 1 4  ;\nEND VIAS\n",
        "",
    );
    let def = Def::parse(&no_defs).unwrap();
    let t = extract_topology(&def, "met5", &[]).unwrap();
    assert_eq!(t.vias.len(), 1, "the via is still built");
    assert!(via_definitions(&def, 0, 0, "met4", "met5").is_empty());
}

const WIDE_DEF: &str = "\
UNITS DISTANCE MICRONS 1000 ;
COMPONENTS 1 ;
- g1 wide_cell + PLACED ( 20000 100 ) N ;
END COMPONENTS
SPECIALNETS 1 ;
- VPWR
  + USE POWER
  + ROUTED met5 1000 ( 0 0 ) M54 ( 0 10000 ) M54
    NEW met4 1000 ( 0 0 ) ( 60000 0 )
 ;
END SPECIALNETS
";

#[test]
fn a_cell_taps_its_rail_where_it_draws_current() {
    let def = Def::parse(WIDE_DEF).unwrap();
    let sizes = cell_sizes("MACRO wide_cell\n  CLASS CORE ;\n  SIZE 10.000000 BY 2.720000 ;\n  PIN VPWR\n    DIRECTION INOUT ;\n  END VPWR\nEND wide_cell\n");
    assert_eq!(sizes, vec![("wide_cell".to_string(), ("10.000000".to_string(), "2.720000".to_string()))]);
    // drawn from the cell's centre (origin 20000 + 10 um / 2)
    let loaded = vec![("g1".to_string(), 25000i64, 100i64)];
    assert!(extract_fits(&def, "met5", &loaded));
    let t = extract_topology(&def, "met5", &loaded).unwrap();
    assert_eq!(t.taps.len(), 1);
    assert_eq!(t.taps[0].as_ref().unwrap().name, "met4_25000_0");
    // the rail is split at the tap
    let rail: Vec<(i64, i64)> = t.wires.iter().filter(|w| w.layer == "met4").map(|w| (w.ax, w.bx)).collect();
    assert_eq!(rail, vec![(0, 25000), (25000, 60000)]);
    // from the origin instead
    let t = extract_topology(&def, "met5", &[("g1".to_string(), 20000, 100)]).unwrap();
    assert_eq!(t.taps[0].as_ref().unwrap().name, "met4_20000_0");
}

#[test]
fn with_no_rail_to_project_onto_the_nearest_load_node_is_used() {
    // a slanted met4 wire: no axis-aligned projection exists
    let text = "SPECIALNETS 1 ;\n- VPWR + ROUTED met5 1000 ( 0 0 ) ( 0 100 )\n NEW met4 10 ( 0 0 ) ( 100 100 ) ;\nEND SPECIALNETS\n";
    let def = Def::parse(text).unwrap();
    let t = extract_topology(&def, "met5", &[("g".to_string(), 90, 95)]).unwrap();
    assert_eq!(t.taps[0].as_ref().unwrap().name, "met4_100_100");
}
