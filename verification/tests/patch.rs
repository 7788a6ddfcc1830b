use metaritual::ir::{compile_edges, compile_node_frames, IrNodeShape};
use metaritual::patch::{feedback, parallel, series, Edge, Node, Patch, PatchError, PortType};

#[test]
fn empty_patch() {
    let p = Patch::new("test");
    assert_eq!(p.node_count(), 0);
    assert_eq!(p.edge_count(), 0);
    assert!(p.is_valid());
}

#[test]
fn add_source_node() {
    let mut p = Patch::new("test");
    let id = p.add_source("kick.wav");
    assert_eq!(p.node_count(), 1);
    assert_eq!(p.get_node(id).unwrap().label(), "kick.wav");
}

#[test]
fn add_pattern_node() {
    let mut p = Patch::new("test");
    let id = p.add_pattern("rhythm");
    assert_eq!(p.get_node(id).unwrap().label(), "rhythm");
}

#[test]
fn add_effect_node() {
    let mut p = Patch::new("test");
    let id = p.add_effect("Reverb");
    assert_eq!(p.get_node(id).unwrap().label(), "Reverb");
}

#[test]
fn connect_source_to_effect() {
    let mut p = Patch::new("test");
    let src = p.add_source("pad.wav");
    let fx = p.add_effect("Reverb");
    p.connect(src, 0, fx, 0);
    assert_eq!(p.edge_count(), 1);
    assert!(p.is_valid());
}

#[test]
fn source_effect_chain() {
    let mut p = Patch::new("test");
    let src = p.add_source("Analog");
    let filt = p.add_effect("Auto Filter");
    let rev = p.add_effect("Reverb");
    p.connect(src, 0, filt, 0);
    p.connect(filt, 0, rev, 0);
    assert_eq!(p.edge_count(), 2);
    assert!(p.is_valid());
}

#[test]
fn mixer_node() {
    let mut p = Patch::new("test");
    let s1 = p.add_source("a.wav");
    let s2 = p.add_source("b.wav");
    let mix = p.add_mixer(2, "main mix");
    p.connect(s1, 0, mix, 0);
    p.connect(s2, 0, mix, 1);
    assert!(p.is_valid());
}

#[test]
fn split_node() {
    let mut p = Patch::new("test");
    let src = p.add_source("vocal.wav");
    let split = p.add_split(2);
    let fx1 = p.add_effect("Reverb");
    let fx2 = p.add_effect("Delay");
    p.connect(src, 0, split, 0);
    p.connect(split, 0, fx1, 0);
    p.connect(split, 1, fx2, 0);
    assert!(p.is_valid());
}

#[test]
fn validate_dangling_node() {
    let mut p = Patch::new("test");
    p.add_source("x.wav");
    p.connect(0, 0, 99, 0);
    let errors = p.validate();
    assert_eq!(errors.len(), 1);
    assert!(matches!(errors[0], PatchError::DanglingNode { node_id: 99, .. }));
}

#[test]
fn validate_dangling_port() {
    let mut p = Patch::new("test");
    let src = p.add_source("x.wav");
    let fx = p.add_effect("Reverb");
    p.connect(src, 5, fx, 0);
    let errors = p.validate();
    assert_eq!(errors.len(), 1);
    assert!(matches!(errors[0], PatchError::DanglingPort { port_id: 5, .. }));
}

#[test]
fn validate_port_type_mismatch() {
    let mut p = Patch::new("test");
    let pat = p.add_pattern("rhythm");
    let fx = p.add_effect("Reverb");
    p.connect(pat, 0, fx, 0);
    let errors = p.validate();
    assert_eq!(errors.len(), 1);
    assert!(matches!(
        errors[0],
        PatchError::PortTypeMismatch { from_type: PortType::Pattern, to_type: PortType::Audio, .. }
    ));
}

#[test]
fn validate_self_loop() {
    let mut p = Patch::new("test");
    let fx = p.add_effect("Reverb");
    p.connect(fx, 0, fx, 0);
    let errors = p.validate();
    assert_eq!(errors.len(), 1);
    assert!(matches!(errors[0], PatchError::SelfLoop { .. }));
}

#[test]
fn series_composition() {
    let mut a = Patch::new("source");
    a.add_source("pad.wav");
    let mut b = Patch::new("effects");
    b.add_effect("Reverb");
    let composed = series(&a, &b, "combined");
    assert_eq!(composed.node_count(), 2);
    assert_eq!(composed.edge_count(), 1);
    assert!(composed.is_valid());
}

#[test]
fn series_chain() {
    let mut a = Patch::new("source");
    a.add_source("Wavetable");
    let mut b = Patch::new("filter");
    b.add_effect("Auto Filter");
    let mut c = Patch::new("reverb");
    c.add_effect("Reverb");
    let ab = series(&a, &b, "filtered");
    let abc = series(&ab, &c, "full chain");
    assert_eq!(abc.node_count(), 3);
    assert_eq!(abc.edge_count(), 2);
    assert!(abc.is_valid());
}

#[test]
fn parallel_composition() {
    let mut a = Patch::new("kick");
    a.add_source("kick.wav");
    let mut b = Patch::new("snare");
    b.add_source("snare.wav");
    let composed = parallel(&a, &b, "drums");
    assert_eq!(composed.node_count(), 3);
    assert_eq!(composed.edge_count(), 2);
    assert!(composed.is_valid());
}

#[test]
fn parallel_then_series() {
    let mut kick = Patch::new("kick");
    kick.add_source("kick.wav");
    let mut snare = Patch::new("snare");
    snare.add_source("snare.wav");
    let drums = parallel(&kick, &snare, "drums");
    let mut bus_fx = Patch::new("bus");
    bus_fx.add_effect("Compressor");
    let composed = series(&drums, &bus_fx, "drum bus");
    assert_eq!(composed.node_count(), 4);
    assert!(composed.is_valid());
}

#[test]
fn feedback_adds_edge() {
    let mut p = Patch::new("test");
    let src = p.add_source("Operator");
    let dly = p.add_effect("Delay");
    p.connect(src, 0, dly, 0);
    feedback(&mut p, dly, src);
    assert_eq!(p.edge_count(), 2);
}

#[test]
fn design_doc_style_patch() {
    let mut p = Patch::new("water_braid");
    let water = p.add_source("water grains");
    let glass = p.add_source("glass grains");
    let _rhythm = p.add_pattern("main rhythm");
    let rev = p.add_effect("Reverb");
    let dly = p.add_effect("Delay");
    let mix = p.add_mixer(2, "submix");
    p.connect(water, 0, mix, 0);
    p.connect(glass, 0, mix, 1);
    p.connect(mix, 0, rev, 0);
    p.connect(rev, 0, dly, 0);
    assert_eq!(p.node_count(), 6);
    assert_eq!(p.edge_count(), 4);
    assert!(p.is_valid());
}

// ─── Further cases ──────────────────────────────────────────────────────────

#[test]
fn port_counts_types_and_labels() {
    let mixer = Node::MixerNode { channels: 12, label: "mix".to_string() };
    let ins = mixer.input_ports();
    assert_eq!(ins.len(), 12);
    assert_eq!(ins[0].label, "in_0");
    assert_eq!(ins[11].label, "in_11");
    assert_eq!(ins[11].id, 11);
    assert!(ins.iter().all(|p| p.port_type == PortType::Audio));
    assert_eq!(mixer.output_ports().len(), 1);
    assert_eq!(mixer.output_ports()[0].label, "out");

    let split = Node::SplitNode { outputs: 3, label: "split".to_string() };
    let outs = split.output_ports();
    assert_eq!(outs.len(), 3);
    assert_eq!(outs[2].label, "out_2");
    assert_eq!(split.input_ports()[0].label, "in");

    let pattern = Node::PatternNode { label: "beat".to_string() };
    assert!(pattern.input_ports().is_empty());
    let po = pattern.output_ports();
    assert_eq!(po.len(), 1);
    assert_eq!(po[0].port_type, PortType::Pattern);
    assert_eq!(po[0].label, "events");

    let source = Node::SourceNode { label: "s".to_string() };
    assert!(source.input_ports().is_empty());
    assert_eq!(source.output_ports()[0].label, "out");

    let merge = Node::MergeNode { inputs: 0, label: "m".to_string() };
    assert!(merge.input_ports().is_empty());
    assert_eq!(Node::MergeNode { inputs: 105, label: "m".to_string() }.input_ports()[104].label, "in_104");
}

#[test]
fn validate_reports_each_edge_in_order() {
    let mut p = Patch::new("errors");
    let src = p.add_source("x.wav");
    let fx = p.add_effect("Reverb");
    p.connect(src, 0, fx, 0); // fine
    p.connect(fx, 0, fx, 0); // self loop
    p.connect(7, 0, fx, 0); // missing source node
    p.connect(fx, 0, src, 0); // source has no input port
    p.connect(src, 0, fx, 3); // missing input port
    let errors = p.validate();
    assert_eq!(
        errors,
        vec![
            PatchError::SelfLoop { edge_index: 1, node_id: fx },
            PatchError::DanglingNode { edge_index: 2, node_id: 7 },
            PatchError::DanglingPort { edge_index: 3, node_id: src, port_id: 0 },
            PatchError::DanglingPort { edge_index: 4, node_id: fx, port_id: 3 },
        ]
    );
    assert!(!p.is_valid());
}

#[test]
fn series_joins_terminal_outputs_to_initial_inputs() {
    let mut a = Patch::new("a");
    let s1 = a.add_source("one");
    let s2 = a.add_source("two");
    let f = a.add_effect("Filter");
    a.connect(s1, 0, f, 0);
    let _ = s2;
    let mut b = Patch::new("b");
    let r = b.add_effect("Reverb");
    let d = b.add_effect("Delay");
    b.connect(r, 0, d, 0);
    let c = series(&a, &b, "ab");
    assert_eq!(c.label(), "ab");
    // a's terminal audio outputs are `two` and `Filter`; b's initial inputs
    // are only `Reverb` (index 3), so one joining edge from `two`.
    assert_eq!(c.edge_count(), 3);
    assert_eq!(c.edges()[0], Edge { from_node: 0, from_port: 0, to_node: 2, to_port: 0 });
    assert_eq!(c.edges()[1], Edge { from_node: 3, from_port: 0, to_node: 4, to_port: 0 });
    assert_eq!(c.edges()[2], Edge { from_node: 1, from_port: 0, to_node: 3, to_port: 0 });
    assert!(c.is_valid());
}

#[test]
fn parallel_without_audio_outputs_adds_no_merge() {
    let mut a = Patch::new("a");
    a.add_pattern("beat");
    let b = Patch::new("b");
    let c = parallel(&a, &b, "ab");
    assert_eq!(c.node_count(), 1);
    assert_eq!(c.edge_count(), 0);
}

#[test]
fn parallel_merge_node_collects_outputs_in_order() {
    let mut a = Patch::new("a");
    a.add_source("a1");
    a.add_source("a2");
    let mut b = Patch::new("b");
    b.add_source("b1");
    let c = parallel(&a, &b, "abc");
    assert_eq!(c.node_count(), 4);
    match c.get_node(3).unwrap() {
        Node::MergeNode { inputs, label } => {
            assert_eq!(*inputs, 3);
            assert_eq!(label, "merge");
        }
        _ => panic!("expected a merge node"),
    }
    assert_eq!(c.edges()[2], Edge { from_node: 2, from_port: 0, to_node: 3, to_port: 2 });
    assert!(c.is_valid());
}

#[test]
fn get_node_out_of_range() {
    let mut p = Patch::new("p");
    p.add_split(2);
    assert!(p.get_node(1).is_none());
    assert_eq!(p.get_node(0).unwrap().label(), "split");
    assert_eq!(p.nodes().len(), 1);
    assert_eq!(p.label(), "p");
}

#[test]
fn compile_edges_copies_routing() {
    let mut p = Patch::new("p");
    let s = p.add_source("s");
    let m = p.add_merge(2);
    p.connect(s, 0, m, 1);
    feedback(&mut p, m, s);
    let ir = compile_edges(&p);
    assert_eq!(ir.len(), 2);
    assert_eq!((ir[0].from_node, ir[0].from_port, ir[0].to_node, ir[0].to_port), (0, 0, 1, 1));
    assert_eq!((ir[1].from_node, ir[1].from_port, ir[1].to_node, ir[1].to_port), (1, 0, 0, 0));
}

#[test]
fn compile_node_frames_keeps_ids_shapes_and_labels() {
    let mut p = Patch::new("p");
    p.add_source("kick.wav");
    p.add_pattern("beat");
    p.add_effect("reverb");
    p.add_chain("bus");
    p.add_mixer(3, "desk");
    p.add_split(2);
    p.add_merge(4);
    let frames = compile_node_frames(&p);
    assert_eq!(frames.len(), 7);
    let shapes: Vec<IrNodeShape> = frames.iter().map(|f| f.shape).collect();
    assert_eq!(
        shapes,
        vec![
            IrNodeShape::Source,
            IrNodeShape::Pattern,
            IrNodeShape::Effect,
            IrNodeShape::Chain,
            IrNodeShape::Mixer { channels: 3 },
            IrNodeShape::Split { outputs: 2 },
            IrNodeShape::Merge { inputs: 4 },
        ]
    );
    for (i, f) in frames.iter().enumerate() {
        assert_eq!(f.id, i);
        assert_eq!(f.label, p.get_node(i).unwrap().label());
    }
    assert_eq!(frames[0].label, "kick.wav");
    assert_eq!(frames[4].label, "desk");
    assert!(compile_node_frames(&Patch::new("empty")).is_empty());
}
