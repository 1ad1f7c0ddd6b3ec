use ot_turbolaser::config::number::Real;
use ot_turbolaser::config::{GlobWeight, Mode, Weights};
use ot_turbolaser::pcapio::{self, append_bounded, read_outcome, Capture, OwnedPacket};
use ot_turbolaser::proto::testutil::build_tcp;
use ot_turbolaser::run::cycle::{Act, Event, LoopCfg, LoopState, Stage};
use ot_turbolaser::run::replay::{parse_packets, parse_rate, run_detail, summarize};
use ot_turbolaser::run::scan::{has_public_source, is_capture_extension};
use ot_turbolaser::run::seed::{master_seed, session_seed, DEFAULT_GREEN_SEED};
use ot_turbolaser::run::selection::{pick_weight, weight_for};
use ot_turbolaser::run::status::PpsState;
use ot_turbolaser::run::watchdog::{poll, step, Flatline};
use pcap_file::pcap::PcapHeader;
use std::time::Duration;

fn num(x: f64) -> Real {
    Real { bits: x.to_bits() }
}

fn stall_after(readings: &[Option<u64>], poll_secs: u64) -> u64 {
    let mut last = None;
    let mut stall = 0;
    for &tx in readings {
        step(&mut last, &mut stall, tx, poll_secs);
    }
    stall
}

#[test]
fn flat_counter_accumulates_stall() {
    // Same value four polls in a row: three increments after the first.
    let stall = stall_after(&[Some(100), Some(100), Some(100), Some(100)], 2);
    assert_eq!(stall, 6);
}

#[test]
fn progress_resets_stall() {
    let stall = stall_after(&[Some(100), Some(100), Some(150), Some(150)], 2);
    assert_eq!(stall, 2, "stall resets when the counter advances");
}

#[test]
fn unreadable_counter_does_not_accumulate() {
    let stall = stall_after(&[Some(100), None, None, Some(100)], 2);
    assert_eq!(stall, 2);
}

#[test]
fn the_watchdog_trips_only_while_sending() {
    let mut f = Flatline { last: None, stall: 0 };
    assert!(!poll(&mut f, true, Some(7), 2, 4));
    assert!(!poll(&mut f, true, Some(7), 2, 4));
    assert!(poll(&mut f, true, Some(7), 2, 4), "flat for the whole window");
    assert!(!poll(&mut f, false, Some(7), 2, 4), "a gap is expected to be flat");
    assert_eq!(f, Flatline { last: None, stall: 0 });
}

#[test]
fn parses_actual_packet_count() {
    let text = "some preamble\nActual: 1234 packets (98765 bytes) sent in 1.00 seconds\n";
    assert_eq!(parse_packets(text), Some(1234));
}

#[test]
fn no_count_when_absent() {
    assert_eq!(parse_packets("nothing here"), None);
}

// The achieved rate, from the parts of the final line.
fn rates(text: &str) -> (Option<f64>, Option<f64>) {
    match parse_rate(text) {
        Some(p) => match p.secs.parse::<f64>() {
            Ok(s) if s > 0.0 => (
                Some(p.packets as f64 / s),
                Some(p.bytes as f64 * 8.0 / s / 1_000_000.0),
            ),
            _ => (None, None),
        },
        None => (None, None),
    }
}

#[test]
fn parses_rate_from_actual_line() {
    // 1250000 bytes in 1.0s = 10.0 Mbps; 2500 packets in 1.0s = 2500 pps.
    let text = "File Cache is enabled\nActual: 2500 packets (1250000 bytes) sent in 1.00 seconds\nRated: ...\n";
    let (pps, mbps) = rates(text);
    assert_eq!(pps, Some(2500.0));
    assert_eq!(mbps, Some(10.0));
}

#[test]
fn no_rate_when_line_absent_or_zero_duration() {
    assert_eq!(rates("nothing here"), (None, None));
    // A zero duration cannot yield a rate.
    let z = "Actual: 5 packets (300 bytes) sent in 0.00 seconds\n";
    assert_eq!(rates(z), (None, None));
}

#[test]
fn runs_are_summed_up_in_a_line() {
    assert_eq!(summarize("one\n  two  \n\n", Some(0)), "exit=0 two");
    assert_eq!(summarize("", Some(-9)), "exit=-9 ");
    assert_eq!(summarize("x", None), "signal-terminated x");
    assert_eq!(run_detail("exit=0 x", false), "exit=0 x");
    assert_eq!(
        run_detail("exit=0 x", true),
        "watchdog killed stalled replay; exit=0 x"
    );
}

#[test]
fn green_master_is_stable() {
    assert_eq!(master_seed(Mode::GreenLaser, Some(42)), 42);
    assert_eq!(master_seed(Mode::GreenLaser, None), DEFAULT_GREEN_SEED);
}

#[test]
fn red_seeds_come_from_entropy() {
    let seeds: Vec<u64> = (0..8).map(|_| master_seed(Mode::RedLaser, Some(42))).collect();
    assert!(seeds.iter().any(|s| *s != seeds[0]), "not a constant");
    assert_eq!(session_seed(Some(1337)), 1337);
    assert_ne!(session_seed(None), session_seed(None));
}

fn weights() -> Weights {
    Weights {
        default: num(1.0),
        globs: vec![GlobWeight {
            pattern: "*modbus*".to_string(),
            weight: num(3.0),
        }],
        files: vec![
            ("noisy.pcap".to_string(), num(0.0)),
            ("vip.pcap".to_string(), num(5.0)),
        ],
    }
}

#[test]
fn precedence_exact_then_glob_then_default() {
    let w = weights();
    assert_eq!(weight_for("vip.pcap", "/p/vip.pcap", &w), num(5.0));
    assert_eq!(weight_for("noisy.pcap", "/p/noisy.pcap", &w), num(0.0));
    assert_eq!(
        weight_for("site_modbus_1.pcap", "/p/site_modbus_1.pcap", &w),
        num(3.0)
    );
    assert_eq!(weight_for("other.pcap", "/p/other.pcap", &w), num(1.0));
}

#[test]
fn a_broken_glob_matches_nothing() {
    let mut w = weights();
    w.globs[0].pattern = "[".to_string();
    assert_eq!(weight_for("site_modbus_1.pcap", "/p/site_modbus_1.pcap", &w), num(1.0));
    assert_eq!(pick_weight(&w, "a", "/p/a", &vec![true]), num(3.0));
    assert_eq!(pick_weight(&w, "a", "/p/a", &vec![false]), num(1.0));
    w.files.push(("/p/a".to_string(), num(7.0)));
    assert_eq!(pick_weight(&w, "a", "/p/a", &vec![true]), num(7.0));
}

#[test]
fn pps_state_holds_last_positive_rate_across_runs() {
    let mut st = PpsState::new();
    assert_eq!(st.pps, None, "no rate before any run");
    st.record(Some(num(2500.0)), Some(num(10.0)));
    assert_eq!(st.pps, Some(num(2500.0)));
    assert_eq!(st.mbps, Some(num(10.0)));
    // A run that reported no rate (parse miss, zero-packet) keeps the last.
    st.record(None, None);
    assert_eq!(st.pps, Some(num(2500.0)), "missing rate holds the last reading");
    assert_eq!(st.mbps, Some(num(10.0)));
    // A zero reading is ignored; a fresh positive run updates the display.
    st.record(Some(num(0.0)), Some(num(0.0)));
    assert_eq!(
        st.pps,
        Some(num(2500.0)),
        "a zero rate does not blank the display"
    );
    st.record(Some(num(3000.0)), Some(num(11.0)));
    assert_eq!(st.pps, Some(num(3000.0)));
    assert_eq!(st.mbps, Some(num(11.0)));
}

#[test]
fn capture_extensions_are_case_insensitive() {
    for e in ["pcap", "PCAP", "pcapng", "PcapNg"] {
        assert!(is_capture_extension(e), "{e}");
    }
    for e in ["txt", "pcapn", "", "pcap1", "pcapngx"] {
        assert!(!is_capture_extension(e), "{e}");
    }
}

fn capture(frames: Vec<Vec<u8>>) -> Capture {
    Capture {
        header: PcapHeader::default(),
        packets: frames
            .into_iter()
            .map(|data| OwnedPacket { ts: Duration::new(1, 0), orig_len: 0, data })
            .collect(),
    }
}

#[test]
fn has_public_source_fails_closed_on_unreadable_and_oversize() {
    let private = build_tcp([10, 0, 0, 1], [10, 0, 0, 2], 1, 2, b"x");
    let public = build_tcp([10, 0, 0, 1], [8, 8, 8, 8], 1, 2, b"x");
    let clean = capture(vec![private.clone()]);
    assert!(has_public_source(Some(10), u64::MAX, None), "unreadable capture fails closed");
    assert!(has_public_source(Some(1024), 16, Some(&clean)), "oversize capture fails closed");
    assert!(has_public_source(None, u64::MAX, Some(&clean)), "a missing file fails closed too");
    assert!(!has_public_source(Some(10), 16, Some(&clean)));
    assert!(has_public_source(Some(10), 16, Some(&capture(vec![private, public]))));
}

#[test]
fn captures_are_merged_up_to_a_bound() {
    let mut m = capture(vec![vec![1], vec![2]]);
    append_bounded(&mut m, capture(vec![vec![3], vec![4]]), 3);
    let data: Vec<u8> = m.packets.iter().map(|p| p.data[0]).collect();
    assert_eq!(data, vec![1, 2, 3]);
    append_bounded(&mut m, capture(vec![vec![5]]), 3);
    assert_eq!(m.packets.len(), 3);
}

fn drive(cfg: &LoopCfg, s: LoopState, events: &[Event]) -> (LoopState, Vec<Act>) {
    let mut s = s;
    let mut acts = Vec::new();
    for e in events {
        let (n, a) = s.decide(cfg, *e);
        s = n;
        acts.push(a);
    }
    (s, acts)
}

#[test]
fn a_red_run_remaps_before_it_sends() {
    let cfg = LoopCfg { red: true, remap: true, guard: true, once: false };
    let (s, acts) = drive(
        &cfg,
        LoopState::start(),
        &[
            Event::Shutdown(false),
            Event::Picked(true),
            Event::Remapped(true),
            Event::Promoted(false),
            Event::Sent { ok: true, packets: Some(42) },
            Event::Announced,
        ],
    );
    assert_eq!(
        acts,
        vec![Act::Pick, Act::Remap, Act::Promote, Act::Send, Act::Announce, Act::Rest]
    );
    assert_eq!(s.stage, Stage::Top);
    assert_eq!(s.run, 1);
    assert_eq!(s.last_packets, Some(42));
}

#[test]
fn a_failed_remap_skips_the_capture() {
    let cfg = LoopCfg { red: true, remap: true, guard: true, once: false };
    let (s, acts) = drive(
        &cfg,
        LoopState::start(),
        &[Event::Shutdown(false), Event::Picked(true), Event::Remapped(false)],
    );
    assert_eq!(acts[2], Act::SkipRemap);
    assert_eq!(acts[2].state(), Some("skipped_remap_failed"));
    assert_eq!(s.run, 1);
    assert!(!acts.contains(&Act::Send));
}

#[test]
fn a_public_source_is_skipped_when_the_remap_is_off() {
    let cfg = LoopCfg { red: true, remap: false, guard: true, once: false };
    let (_, acts) = drive(
        &cfg,
        LoopState::start(),
        &[
            Event::Shutdown(false),
            Event::Picked(true),
            Event::Promoted(false),
            Event::PublicSource(true),
        ],
    );
    assert_eq!(acts, vec![Act::Pick, Act::Promote, Act::Inspect, Act::SkipPublic]);
    let (_, acts) = drive(
        &cfg,
        LoopState::start(),
        &[Event::Shutdown(false), Event::Picked(true), Event::Promoted(true)],
    );
    assert_eq!(acts[2], Act::Send, "the promoted capture is exempt");
}

#[test]
fn green_sends_as_is_and_once_stops() {
    let cfg = LoopCfg { red: false, remap: true, guard: true, once: true };
    let (s, acts) = drive(
        &cfg,
        LoopState::start(),
        &[
            Event::Shutdown(false),
            Event::Picked(true),
            Event::Sent { ok: false, packets: None },
        ],
    );
    assert_eq!(acts, vec![Act::Pick, Act::Send, Act::Stop]);
    assert_eq!(s.stage, Stage::Stopped);
    assert_eq!(acts[2].state(), Some("stopping"));
}

#[test]
fn no_captures_idles_and_shutdown_stops() {
    let cfg = LoopCfg { red: true, remap: true, guard: true, once: false };
    let (s, acts) = drive(
        &cfg,
        LoopState::start(),
        &[Event::Shutdown(false), Event::Picked(false), Event::Shutdown(true)],
    );
    assert_eq!(acts, vec![Act::Pick, Act::Idle, Act::Stop]);
    assert_eq!(s.run, 0, "an idle look is not a run");
}

#[test]
fn a_written_capture_reads_back() {
    let mut cap = capture(vec![vec![1, 2, 3], vec![], vec![9; 1500]]);
    for p in &mut cap.packets {
        p.orig_len = p.data.len() as u32;
    }
    cap.packets[2].ts = Duration::new(7, 1_234_567);
    let bytes = pcapio::write("x.pcap", &cap).unwrap();
    assert_eq!(bytes.len(), 24 + 3 * 16 + 1503);
    assert_eq!(&bytes[..4], &[0xa1, 0xb2, 0xc3, 0xd4]);
    let back = pcapio::read("x.pcap", &bytes).unwrap();
    assert_eq!(back.packets.len(), 3);
    for (a, b) in back.packets.iter().zip(&cap.packets) {
        assert_eq!(a.data, b.data);
        assert_eq!(a.orig_len, b.orig_len);
    }
    assert_eq!(back.packets[2].ts, Duration::new(7, 1_234_000), "to the microsecond");
    let e = pcapio::read("g.pcap", b"not a pcap at all, but long").err().unwrap();
    assert!(e.starts_with("pcap header g.pcap: "), "{e}");
    let e = pcapio::read("g.pcap", &bytes[..bytes.len() - 1]).err().unwrap();
    assert!(e.starts_with("pcap packet in g.pcap: "), "{e}");
    cap.packets[0].orig_len = 2;
    let e = pcapio::write("w.pcap", &cap).unwrap_err();
    assert!(e.starts_with("pcap write w.pcap: "), "{e}");
    let e = read_outcome("n", Err((true, "why".to_string()))).err().unwrap();
    assert_eq!(e, "pcap header n: why");
}
