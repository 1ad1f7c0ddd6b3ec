use ot_turbolaser::config::number::Real;
use ot_turbolaser::config::tree::{deep_merge, LeafKind, Tree};
use ot_turbolaser::config::yaml::{overlay_texts, parse_yaml, value_tree};
use ot_turbolaser::config::{
    is_scenario_name, ActorsCfg, Campaign, Config, DnsCfg, GapCfg, GapDist, GlobWeight, IocFidelity,
    L3Cfg, MirrorMode, Mode, NetCfg, NorthSouthCfg, OuiDbCfg, OversizePolicy, Paths, RateCfg,
    RateModel, SessionCfg, SynthesisCfg, TargetCfg, ThreatsCfg, Watchdog, Weights, ZoneAffinity,
    ZonesCfg,
};

fn num(x: f64) -> Real {
    Real { bits: x.to_bits() }
}

fn rate(model: RateModel, mult: Option<f64>, pps: Option<f64>, mbps: Option<f64>) -> RateCfg {
    RateCfg {
        model,
        multiplier: mult.map(num),
        pps: pps.map(num),
        pps_multi: None,
        mbps: mbps.map(num),
        mbps_min: None,
        mbps_max: None,
    }
}

#[test]
fn rate_args_per_model() {
    assert_eq!(
        rate(RateModel::Original, None, None, None).to_args(""),
        Vec::<String>::new()
    );
    assert_eq!(
        rate(RateModel::Topspeed, None, None, None).to_args(""),
        vec!["--topspeed"]
    );
    assert_eq!(
        rate(RateModel::Multiplier, Some(2.5), None, None).to_args(&format!("{}", 2.5)),
        vec!["--multiplier=2.5"]
    );
    assert_eq!(
        rate(RateModel::Pps, None, Some(200.0), None).to_args(&format!("{}", 200.0)),
        vec!["--pps=200"]
    );
    assert_eq!(
        rate(RateModel::Mbps, None, None, Some(10.0)).to_args(&format!("{}", 10.0)),
        vec!["--mbps=10"]
    );
}

#[test]
fn pps_multi_has_a_flag_of_its_own() {
    let mut r = rate(RateModel::Pps, None, Some(200.0), None);
    r.pps_multi = Some(4);
    assert_eq!(r.to_args("200"), vec!["--pps=200", "--pps-multi=4"]);
}

#[test]
fn rate_validate_requires_param() {
    assert!(rate(RateModel::Multiplier, None, None, None)
        .validate()
        .is_err());
    assert!(rate(RateModel::Multiplier, Some(1.0), None, None)
        .validate()
        .is_ok());
    assert!(rate(RateModel::Pps, None, None, None).validate().is_err());
    assert!(rate(RateModel::Original, None, None, None)
        .validate()
        .is_ok());
}

#[test]
fn pps_multi_zero_is_rejected() {
    let mut r = rate(RateModel::Pps, None, Some(100.0), None);
    assert!(r.validate().is_ok(), "no pps_multi is fine");
    r.pps_multi = Some(0);
    assert!(
        r.validate().unwrap_err().contains("pps_multi"),
        "an explicit pps_multi of 0 is rejected"
    );
    r.pps_multi = Some(2);
    assert!(r.validate().is_ok(), "a positive pps_multi validates");
}

#[test]
fn mbps_band_is_checked() {
    let mut banded = rate(RateModel::Mbps, None, None, None);
    banded.mbps_min = Some(num(9.0));
    banded.mbps_max = Some(num(11.0));
    assert!(banded.validate().is_ok(), "a full band validates");
    banded.mbps_max = Some(num(8.0));
    assert_eq!(
        banded.validate().unwrap_err(),
        "rate.mbps_max must be >= rate.mbps_min"
    );
    banded.mbps_max = Some(num(0.0));
    assert_eq!(banded.validate().unwrap_err(), "rate.mbps_max must be > 0");
    let mut half = rate(RateModel::Mbps, None, None, None);
    half.mbps_min = Some(num(9.0));
    assert!(half.validate().is_err(), "half a band is rejected");
    assert_eq!(
        rate(RateModel::Mbps, None, None, None).validate().unwrap_err(),
        "rate.mbps is required"
    );
}

fn gap(dist: GapDist) -> GapCfg {
    GapCfg {
        dist,
        mean_secs: Some(num(5.0)),
        min_secs: Some(num(0.5)),
        max_secs: Some(num(60.0)),
        stddev_secs: Some(num(3.0)),
        lower_secs: Some(num(1.0)),
        upper_secs: Some(num(30.0)),
    }
}

#[test]
fn gap_validate_bounds() {
    assert!(gap(GapDist::ExpPoisson).validate().is_ok());
    assert!(gap(GapDist::TruncNormal).validate().is_ok());

    let mut bad = gap(GapDist::TruncNormal);
    bad.stddev_secs = Some(num(0.0));
    assert!(bad.validate().is_err());

    let mut inverted = gap(GapDist::TruncNormal);
    inverted.lower_secs = Some(num(30.0));
    inverted.upper_secs = Some(num(1.0));
    assert!(inverted.validate().is_err());

    let mut no_mean = gap(GapDist::ExpPoisson);
    no_mean.mean_secs = None;
    assert!(no_mean.validate().is_err());
}

#[test]
fn gap_errors_name_the_field() {
    let mut g = gap(GapDist::ExpPoisson);
    g.min_secs = Some(num(-1.0));
    assert_eq!(g.validate().unwrap_err(), "gap.min_secs must be >= 0");
    g.min_secs = Some(num(60.0));
    assert_eq!(g.validate().unwrap_err(), "gap.min_secs must be < gap.max_secs");
    let mut g = gap(GapDist::TruncNormal);
    g.lower_secs = None;
    assert_eq!(g.validate().unwrap_err(), "gap.lower_secs required for trunc_normal");
    let mut g = gap(GapDist::TruncNormal);
    g.upper_secs = None;
    assert_eq!(g.validate().unwrap_err(), "gap.upper_secs required for trunc_normal");
    let mut g = gap(GapDist::TruncNormal);
    g.lower_secs = Some(num(-0.5));
    assert_eq!(g.validate().unwrap_err(), "gap.lower_secs must be >= 0");
}

#[test]
fn doubles_order_by_their_bits() {
    let xs = [
        f64::NEG_INFINITY,
        -2.5,
        -1.0e-300,
        -0.0,
        0.0,
        5.0e-324,
        1.0,
        1.5,
        f64::MAX,
        f64::INFINITY,
        f64::NAN,
    ];
    for a in xs {
        assert_eq!(num(a).positive(), a > 0.0, "{a} > 0");
        assert_eq!(num(a).negative(), a < 0.0, "{a} < 0");
        assert_eq!(num(a).finite(), a.is_finite(), "{a} is finite");
        for b in xs {
            assert_eq!(num(a).less(num(b)), a < b, "{a} < {b}");
            assert_eq!(num(a).at_least(num(b)), a >= b, "{a} >= {b}");
        }
    }
}

fn config(mode: Mode) -> Config {
    Config {
        iface: "tl0".into(),
        mode,
        seed: None,
        paths: Paths {
            pool: "/opt/pool".into(),
            variants: "/opt/variants".into(),
            shm_dir: "/dev/shm/x".into(),
            status_file: "/run/x.json".into(),
        },
        l3: L3Cfg::default(),
        rate: rate(RateModel::Original, None, None, None),
        gap: GapCfg {
            dist: GapDist::ExpPoisson,
            mean_secs: Some(num(5.0)),
            min_secs: None,
            max_secs: None,
            stddev_secs: None,
            lower_secs: None,
            upper_secs: None,
        },
        weights: Weights::default(),
        watchdog: Watchdog::default(),
        net: NetCfg::default(),
        no_pcaps_retry_secs: 30,
        zones: ZonesCfg::default(),
        synthesis: SynthesisCfg::default(),
        dns: DnsCfg::default(),
        north_south: NorthSouthCfg::default(),
        threats: ThreatsCfg::default(),
        session: SessionCfg::default(),
        oui_db: OuiDbCfg::default(),
        target: None,
    }
}

#[test]
fn red_laser_requires_remap_green_does_not() {
    let mut cfg = config(Mode::RedLaser);
    cfg.l3.remap = false;
    let err = cfg.validate().unwrap_err();
    assert!(
        err.contains("red_laser requires l3.remap"),
        "red laser with remap off is refused: {err}"
    );
    // Green laser legitimately replays raw, guarded by the public backstop.
    let mut green = config(Mode::GreenLaser);
    green.l3.remap = false;
    assert!(green.validate().is_ok(), "green laser may replay raw");
}

#[test]
fn zero_timing_fields_are_rejected() {
    let validate_with = |mutate: fn(&mut Config)| {
        let mut c = config(Mode::RedLaser);
        mutate(&mut c);
        c.validate()
    };
    assert!(validate_with(|c| c.watchdog.poll_secs = 0)
        .unwrap_err()
        .contains("watchdog.poll_secs"));
    assert!(validate_with(|c| c.watchdog.flatline_secs = 0)
        .unwrap_err()
        .contains("watchdog.flatline_secs"));
    assert!(validate_with(|c| c.no_pcaps_retry_secs = 0)
        .unwrap_err()
        .contains("no_pcaps_retry_secs"));
    assert!(validate_with(|c| c.synthesis.announce_interval_secs = 0)
        .unwrap_err()
        .contains("announce_interval_secs"));
    // A disabled synthesis block does not require a positive announce interval.
    assert!(
        validate_with(|c| {
            c.synthesis.enabled = false;
            c.synthesis.announce_interval_secs = 0;
        })
        .is_ok(),
        "announce interval is irrelevant when synthesis is disabled"
    );
}

#[test]
fn each_fault_has_its_message() {
    let fault = |mutate: fn(&mut Config)| {
        let mut c = config(Mode::RedLaser);
        mutate(&mut c);
        c.validate().unwrap_err()
    };
    assert_eq!(fault(|c| c.iface = " \t".into()), "iface must not be empty");
    assert_eq!(
        fault(|c| c.paths.shm_dir = "dev/shm".into()),
        "paths.shm_dir must be absolute: dev/shm"
    );
    assert_eq!(
        fault(|c| c.weights.default = num(f64::NAN)),
        "weights.default must be a finite value >= 0"
    );
    assert_eq!(
        fault(|c| c.weights.globs.push(GlobWeight { pattern: "*x*".into(), weight: num(-1.0) })),
        "weight for glob *x* must be a finite value >= 0"
    );
    assert_eq!(
        fault(|c| c.weights.files.push(("a.pcap".into(), num(f64::INFINITY)))),
        "weight for file a.pcap must be a finite value >= 0"
    );
    assert_eq!(fault(|c| c.zones.max_subnets = Some(0)), "zones.max_subnets must be > 0");
    assert_eq!(
        fault(|c| c.zones.default_prefix = 31),
        "zones.default_prefix must be between 8 and 30"
    );
    assert_eq!(
        fault(|c| c.synthesis.max_devices = Some(0)),
        "synthesis.max_devices must be > 0"
    );
    assert_eq!(
        fault(|c| c.synthesis.identity_every_n_runs = 0),
        "synthesis.identity_every_n_runs must be > 0"
    );
    assert_eq!(
        fault(|c| c.synthesis.target_devices = 0),
        "synthesis.target_devices must be > 0"
    );
    assert_eq!(
        fault(|c| c.synthesis.max_assets = Some(0)),
        "synthesis.max_assets must be > 0"
    );
    assert_eq!(
        fault(|c| c.dns.domains.push("a b".into())),
        "dns.domains entry \"a b\" is not a valid domain"
    );
    assert_eq!(
        fault(|c| {
            c.north_south.enabled = true;
            c.north_south.cadence_runs = 0;
        }),
        "north_south.cadence_runs must be > 0"
    );
    assert_eq!(
        fault(|c| {
            c.north_south.enabled = true;
            c.north_south.max_flows_per_pair = 0;
        }),
        "north_south.max_flows_per_pair must be > 0"
    );
    assert_eq!(
        fault(|c| c.threats.min_interval_secs = c.threats.max_interval_secs + 1),
        "threats.min_interval_secs must be <= threats.max_interval_secs"
    );
    assert_eq!(
        fault(|c| c.threats.external_cidrs.push("198.51.100.0/33".into())),
        "threats.external_cidrs entry 198.51.100.0/33 is not a valid CIDR"
    );
    assert_eq!(
        fault(|c| c.threats.external_cidrs.push("192.168.0.0/16".into())),
        "threats.external_cidrs entry 192.168.0.0/16 must be a public unicast range (not RFC1918, loopback, link-local, or multicast)"
    );
    assert_eq!(
        fault(|c| c.oui_db.vuln_path = "x".into()),
        "oui_db.vuln_path must be absolute: x"
    );
}

fn target(name: &str) -> TargetCfg {
    TargetCfg {
        name: name.into(),
        description: None,
        profiles: "profiles.toml".into(),
        playbook: "playbook.yaml".into(),
        plant: "plant.yaml".into(),
        campaign: Campaign::default(),
        max_frames_per_burst: 64,
        ioc_fidelity: IocFidelity::default(),
        actors: ActorsCfg::default(),
        pack_dir: "/packs".into(),
    }
}

#[test]
fn a_scenario_overlays_red_laser_only() {
    let mut c = config(Mode::RedLaser);
    c.target = Some(target("stuxnet"));
    assert!(c.validate().is_ok());
    c.mode = Mode::GreenLaser;
    assert_eq!(
        c.validate().unwrap_err(),
        "target scenario \"stuxnet\" requires mode red_laser (it overlays red laser)"
    );
    let mut c = config(Mode::RedLaser);
    c.target = Some(target(" "));
    assert_eq!(c.validate().unwrap_err(), "target.name must not be empty");
    let mut t = target("x");
    t.max_frames_per_burst = 0;
    c.target = Some(t);
    assert_eq!(
        c.validate().unwrap_err(),
        "target.max_frames_per_burst must be > 0"
    );
}

#[test]
fn defaults_are_the_documented_ones() {
    let c = config(Mode::default());
    assert_eq!(c.mode, Mode::RedLaser);
    assert_eq!(c.mode.as_str(), "red_laser");
    assert_eq!(Mode::GreenLaser.as_str(), "green_laser");
    assert_eq!(c.l3.zone_affinity, ZoneAffinity::Both);
    assert_eq!(c.l3.on_oversize, OversizePolicy::RemapToDisk);
    assert_eq!(c.l3.max_frame_bytes, 1514);
    assert_eq!(c.net.mirror, MirrorMode::Tc);
    assert_eq!(c.net.mirror.as_str(), "tc");
    assert_eq!(MirrorMode::Ovs.as_str(), "ovs");
    assert_eq!(c.net.bridge, "tlbr0");
    assert_eq!(c.synthesis.target_devices, 64);
    assert_eq!(c.weights.default, num(1.0));
    assert_eq!(RateModel::default(), RateModel::Original);
    assert_eq!(GapDist::default(), GapDist::ExpPoisson);
    assert!(c.validate().is_ok(), "the defaults are coherent");
}

#[test]
fn invalid_scenario_names_are_rejected() {
    for bad in ["../escape", "a/b", "with.dot", ""] {
        assert!(!is_scenario_name(bad), "name {bad:?} must be rejected");
    }
    assert!(!is_scenario_name("a\\b"));
    assert!(!is_scenario_name("  "));
    assert!(is_scenario_name("stuxnet"));
}

fn document(yaml: &str) -> Tree {
    parse_yaml(yaml).unwrap()
}

fn number(t: &Tree, key: &str) -> Option<u64> {
    match t.get(key) {
        Some(Tree::Leaf(LeafKind::Number, s)) => s.parse().ok(),
        _ => None,
    }
}

#[test]
fn deep_merge_overrides_scalars_and_replaces_sequences() {
    let base = document("a: 1\nb:\n  c: 2\n  d: 3\nlist: [1, 2, 3]\n");
    let over = document("a: 9\nb:\n  c: 20\nlist: [7]\ne: 5\n");
    let m = deep_merge(base, over);
    assert_eq!(number(&m, "a"), Some(9), "scalar overridden");
    let b = m.get("b").unwrap();
    assert_eq!(number(b, "c"), Some(20), "nested overridden");
    assert_eq!(number(b, "d"), Some(3), "untouched key kept");
    match m.get("list").unwrap() {
        Tree::List(list) => assert_eq!(list.len(), 1, "sequence replaced, not concatenated"),
        other => panic!("{other:?}"),
    }
    assert_eq!(number(&m, "e"), Some(5), "new key added");
}

#[test]
fn an_overlay_of_another_shape_stands_alone() {
    let m = deep_merge(document("a: 1\n"), document("[1, 2]"));
    assert!(matches!(m, Tree::List(_)));
    let m = deep_merge(document("[1, 2]"), document("a: 1\n"));
    assert_eq!(number(&m, "a"), Some(1));
}

#[test]
fn texts_are_overlaid_and_refused_under_their_names() {
    let m = overlay_texts("b.yaml", "a: 1\nb: {c: 2}\n", "o.yaml", "b: {d: x}\n").unwrap();
    assert_eq!(number(&m, "a"), Some(1));
    let b = m.get("b").unwrap();
    assert_eq!(number(b, "c"), Some(2));
    assert_eq!(b.get("d").and_then(|t| t.text()), Some("x"));
    let e = overlay_texts("b.yaml", "a: [", "o.yaml", "b: [").unwrap_err();
    assert!(e.starts_with("parsing b.yaml: "), "{e}");
    let e = overlay_texts("b.yaml", "a: 1", "o.yaml", "b: [").unwrap_err();
    assert!(e.starts_with("parsing o.yaml: "), "{e}");
    let e = overlay_texts("b.yaml", "1: 2", "o.yaml", "b: 3").unwrap_err();
    assert_eq!(e, "parsing b.yaml: a key is not a string");
}

#[test]
fn a_text_is_read_as_what_it_says() {
    let t = document("n: ~\nt: true\nk: 3\ns: '3'\nl: [1, a]\nx: !tag {y: z}\n");
    assert!(matches!(t.get("n"), Some(Tree::Leaf(LeafKind::Null, _))));
    assert!(matches!(t.get("t"), Some(Tree::Leaf(LeafKind::Bool, s)) if s == "true"));
    assert_eq!(number(&t, "k"), Some(3));
    assert_eq!(number(&t, "s"), None);
    assert_eq!(t.get("s").and_then(|v| v.text()), Some("3"));
    assert!(matches!(t.get("l"), Some(Tree::List(l)) if l.len() == 2));
    assert_eq!(t.get("x").and_then(|v| v.get("y")).and_then(|v| v.text()), Some("z"));
    assert!(parse_yaml("a: 1\na: 2\n").is_err(), "a name stands once");
    assert!(value_tree(Ok(serde_norway::Value::Bool(false))).is_ok());
    assert_eq!(value_tree(Err("why".to_string())).unwrap_err(), "why");
}
