//! Listing zones and devices, line by line.

use vstd::prelude::*;
use crate::ledger::{devices_in, listed, DeviceRecord, Session, SubnetRecord};
use crate::net::net_text;
use crate::readout::{pad_left, pad_right, push_padded_left, push_padded_right};
use crate::scenario::engine::or;
use crate::simulate::cache::{hex_fixed, push_hex_fixed};
use crate::simulate::zones::Zone;
use crate::text::{dec, dec_string, join, joined, opt_text, push_dec, str_eq, texts};

verus! {

/// The line of a zone derived from captures.
pub open spec fn green_line() -> spec_fn(Zone) -> Seq<char> {
    |z: Zone|
        "  "@ + pad_right(net_text(z.cidr), 18) + " L"@ + dec(z.purdue_level as nat) + " "@
            + pad_right(z.name@, 32) + " "@ + pad_left(dec(z.device_ips@.len()), 4)
            + " devices  "@ + or(opt_text(z.vendor), "-"@)
}

/// The zones derived from captures.
pub open spec fn green_of(zones: Seq<Zone>) -> Seq<Seq<char>> {
    if zones.len() == 0 {
        seq!["no zones derived from the captures"@]
    } else {
        seq![
            "green laser: "@ + dec(zones.len()) + " zone(s) derived from actual captures"@,
        ] + zones.map_values(green_line())
    }
}

fn push_text_or(s: &mut String, o: &Option<String>, d: &str)
    ensures
        final(s)@ == old(s)@ + or(opt_text(*o), d@),
{
    match o {
        Some(t) => s.append(t.as_str()),
        None => s.append(d),
    }
}

/// List the zones derived from captures.
pub fn render_green(zones: &Vec<Zone>) -> (r: Vec<String>)
    ensures
        texts(r@) == green_of(zones@),
{
    let mut out: Vec<String> = Vec::new();
    if zones.len() == 0 {
        out.push("no zones derived from the captures".to_owned());
        proof {
            assert(texts(out@) =~= green_of(zones@));
        }
        return out;
    }
    let mut h = "green laser: ".to_owned();
    push_dec(&mut h, zones.len() as u64);
    h.append(" zone(s) derived from actual captures");
    let ghost head = h@;
    out.push(h);
    let ghost all = zones@.map_values(green_line());
    let mut i: usize = 0;
    proof {
        assert(texts(out@) =~= seq![head] + all.take(0));
    }
    while i < zones.len()
        invariant
            i <= zones@.len(),
            all == zones@.map_values(green_line()),
            texts(out@) == seq![head] + all.take(i as int),
        decreases zones@.len() - i,
    {
        let ghost before = texts(out@);
        let z: &Zone = &zones[i];
        let mut s = "  ".to_owned();
        push_padded_right(&mut s, z.cidr.to_text().as_str(), 18);
        s.append(" L");
        push_dec(&mut s, z.purdue_level as u64);
        s.append(" ");
        push_padded_right(&mut s, z.name.as_str(), 32);
        s.append(" ");
        push_padded_left(&mut s, dec_string(z.device_ips.len() as u64).as_str(), 4);
        s.append(" devices  ");
        push_text_or(&mut s, &z.vendor, "-");
        let ghost line = s@;
        out.push(s);
        proof {
            assert(line == all[i as int]);
            assert(texts(out@) =~= before.push(line));
            assert(before.push(line) =~= seq![head] + all.take(i as int + 1));
        }
        i += 1;
    }
    proof {
        assert(all.take(i as int) =~= all);
    }
    out
}

/// The line of a ledger's zone.
pub open spec fn session_line(ds: Seq<DeviceRecord>) -> spec_fn(SubnetRecord) -> Seq<char> {
    |z: SubnetRecord|
        "  "@ + pad_right(z.cidr@, 18) + " L"@ + dec(z.purdue_level as nat) + " "@ + pad_right(
            z.zone_name@,
            34,
        ) + " "@ + pad_left(dec(devices_in(ds, z.cidr@)), 4) + " devices  "@ + pad_right(
            or(opt_text(z.vendor), "-"@),
            20,
        ) + " "@ + or(opt_text(z.domain), "-"@)
}

/// A ledger's zones.
pub open spec fn session_of(s: Session) -> Seq<Seq<char>> {
    seq![
        "red-laser session: "@ + dec(s.subnets@.len()) + " zone(s), "@ + dec(s.devices@.len())
            + " device(s), cycle "@ + dec(s.cycle as nat),
    ] + s.subnets@.map_values(session_line(s.devices@))
}

/// The count of a zone in a list of counts.
pub(crate) fn count_in(counts: &Vec<(String, usize)>, cidr: &str, Ghost(ds): Ghost<Seq<DeviceRecord>>) -> (r:
    usize)
    requires
        forall|k: int|
            0 <= k < counts@.len() ==> (#[trigger] counts@[k]).1 == devices_in(
                ds,
                counts@[k].0@,
            ),
        forall|d: int|
            0 <= d < ds.len() ==> listed(counts@, (#[trigger] ds[d]).subnet_cidr@),
    ensures
        r == devices_in(ds, cidr@),
{
    let mut i: usize = 0;
    while i < counts.len()
        invariant
            i <= counts@.len(),
            forall|k: int|
                0 <= k < counts@.len() ==> (#[trigger] counts@[k]).1 == devices_in(
                    ds,
                    counts@[k].0@,
                ),
            forall|k: int| 0 <= k < i ==> (#[trigger] counts@[k]).0@ != cidr@,
        decreases counts@.len() - i,
    {
        if str_eq(counts[i].0.as_str(), cidr) {
            return counts[i].1;
        }
        i += 1;
    }
    proof {
        assert forall|d: int| 0 <= d < ds.len() implies (#[trigger] ds[d]).subnet_cidr@
            != cidr@ by {
            assert(listed(counts@, ds[d].subnet_cidr@));
        }
        lemma_none_in(ds, cidr@);
    }
    0
}

proof fn lemma_none_in(ds: Seq<DeviceRecord>, cidr: Seq<char>)
    requires
        forall|d: int| 0 <= d < ds.len() ==> (#[trigger] ds[d]).subnet_cidr@ != cidr,
    ensures
        devices_in(ds, cidr) == 0,
    decreases ds.len(),
{
    if ds.len() > 0 {
        assert forall|d: int| 0 <= d < ds.drop_last().len() implies (
        #[trigger] ds.drop_last()[d]).subnet_cidr@ != cidr by {
            assert(ds[d].subnet_cidr@ != cidr);
        }
        lemma_none_in(ds.drop_last(), cidr);
    }
}

/// List a ledger's zones, each with its device count.
pub fn render_session(s: &Session) -> (r: Vec<String>)
    ensures
        texts(r@) == session_of(*s),
{
    let counts = s.device_counts_by_subnet();
    let ghost ds = s.devices@;
    let mut out: Vec<String> = Vec::new();
    let mut h = "red-laser session: ".to_owned();
    push_dec(&mut h, s.subnet_count() as u64);
    h.append(" zone(s), ");
    push_dec(&mut h, s.device_count() as u64);
    h.append(" device(s), cycle ");
    push_dec(&mut h, s.cycle);
    let ghost head = h@;
    out.push(h);
    let ghost all = s.subnets@.map_values(session_line(ds));
    let mut i: usize = 0;
    proof {
        assert(texts(out@) =~= seq![head] + all.take(0));
    }
    while i < s.subnets.len()
        invariant
            i <= s.subnets@.len(),
            ds == s.devices@,
            all == s.subnets@.map_values(session_line(ds)),
            texts(out@) == seq![head] + all.take(i as int),
            forall|k: int|
                0 <= k < counts@.len() ==> (#[trigger] counts@[k]).1 == devices_in(
                    ds,
                    counts@[k].0@,
                ),
            forall|d: int|
                0 <= d < ds.len() ==> listed(counts@, (#[trigger] ds[d]).subnet_cidr@),
        decreases s.subnets@.len() - i,
    {
        let ghost before = texts(out@);
        let z: &SubnetRecord = &s.subnets[i];
        let n: usize = count_in(&counts, z.cidr.as_str(), Ghost(ds));
        let mut t = "  ".to_owned();
        push_padded_right(&mut t, z.cidr.as_str(), 18);
        t.append(" L");
        push_dec(&mut t, z.purdue_level as u64);
        t.append(" ");
        push_padded_right(&mut t, z.zone_name.as_str(), 34);
        t.append(" ");
        push_padded_left(&mut t, dec_string(n as u64).as_str(), 4);
        t.append(" devices  ");
        let vendor: &str = match &z.vendor {
            Some(v) => v.as_str(),
            None => "-",
        };
        push_padded_right(&mut t, vendor, 20);
        t.append(" ");
        push_text_or(&mut t, &z.domain, "-");
        let ghost line = t@;
        out.push(t);
        proof {
            assert(line == all[i as int]);
            assert(texts(out@) =~= before.push(line));
            assert(before.push(line) =~= seq![head] + all.take(i as int + 1));
        }
        i += 1;
    }
    proof {
        assert(all.take(i as int) =~= all);
    }
    out
}

/// A device's line in a preview.
pub open spec fn sample_line() -> spec_fn(DeviceRecord) -> Seq<char> {
    |d: DeviceRecord|
        "  "@ + pad_right(d.ip@, 15) + " "@ + pad_right(d.vendor@, 22) + " "@ + pad_right(
            d.model@,
            30,
        ) + " "@ + pad_right(d.firmware@, 10) + " ["@ + joined(texts(d.cves@), ","@) + "]"@
}

/// The first dozen devices of a plan, and how many more there are.
pub open spec fn sample_of(ds: Seq<DeviceRecord>) -> Seq<Seq<char>> {
    let head = seq!["sample devices:"@];
    if ds.len() > 12 {
        head + ds.take(12).map_values(sample_line()) + seq![
            "  ... and "@ + dec((ds.len() - 12) as nat) + " more"@,
        ]
    } else {
        head + ds.map_values(sample_line())
    }
}

/// List the first devices of a plan.
pub fn render_sample(ds: &Vec<DeviceRecord>) -> (r: Vec<String>)
    ensures
        texts(r@) == sample_of(ds@),
{
    let mut out: Vec<String> = Vec::new();
    out.push("sample devices:".to_owned());
    let n: usize = if ds.len() > 12 {
        12
    } else {
        ds.len()
    };
    let ghost all = ds@.map_values(sample_line());
    let mut i: usize = 0;
    proof {
        assert(texts(out@) =~= seq!["sample devices:"@] + all.take(0));
    }
    while i < n
        invariant
            i <= n <= ds@.len(),
            all == ds@.map_values(sample_line()),
            texts(out@) == seq!["sample devices:"@] + all.take(i as int),
        decreases n - i,
    {
        let ghost before = texts(out@);
        let d: &DeviceRecord = &ds[i];
        let mut s = "  ".to_owned();
        push_padded_right(&mut s, d.ip.as_str(), 15);
        s.append(" ");
        push_padded_right(&mut s, d.vendor.as_str(), 22);
        s.append(" ");
        push_padded_right(&mut s, d.model.as_str(), 30);
        s.append(" ");
        push_padded_right(&mut s, d.firmware.as_str(), 10);
        s.append(" [");
        s.append(join(&d.cves, ",").as_str());
        s.append("]");
        let ghost line = s@;
        out.push(s);
        proof {
            assert(line == all[i as int]);
            assert(texts(out@) =~= before.push(line));
            assert(before.push(line) =~= seq!["sample devices:"@] + all.take(i as int + 1));
        }
        i += 1;
    }
    if ds.len() > 12 {
        let ghost before = texts(out@);
        let mut s = "  ... and ".to_owned();
        push_dec(&mut s, (ds.len() - 12) as u64);
        s.append(" more");
        let ghost line = s@;
        out.push(s);
        proof {
            assert(all.take(12) =~= ds@.take(12).map_values(sample_line()));
            assert(texts(out@) =~= before.push(line));
            assert(before.push(line) =~= sample_of(ds@));
        }
    } else {
        proof {
            assert(all.take(n as int) =~= all);
        }
    }
    out
}

/// A seed in print, as sixteen hexadecimal digits.
pub open spec fn seed_text(seed: u64) -> Seq<char> {
    "0x"@ + hex_fixed(seed as nat, 16)
}

/// The head of a plan: a committed one tells where it was written, any other that
/// it is a preview.
pub fn plan_head(seed: u64, added: usize, zones: usize, committed: Option<&str>) -> (r: String)
    ensures
        r@ == match committed {
            Some(path) => "committed plan: seed="@ + seed_text(seed) + ", "@ + dec(added as nat)
                + " device(s) across "@ + dec(zones as nat) + " zone(s) -> "@ + path@,
            None => "plan (preview, no traffic): seed="@ + seed_text(seed) + ", fabricated "@ + dec(
                added as nat,
            ) + " device(s) across "@ + dec(zones as nat) + " zone(s)"@,
        },
{
    let mut t = "0x".to_owned();
    push_hex_fixed(&mut t, seed, 16);
    match committed {
        Some(path) => {
            let mut s = "committed plan: seed=".to_owned();
            s.append(t.as_str());
            s.append(", ");
            push_dec(&mut s, added as u64);
            s.append(" device(s) across ");
            push_dec(&mut s, zones as u64);
            s.append(" zone(s) -> ");
            s.append(path);
            s
        },
        None => {
            let mut s = "plan (preview, no traffic): seed=".to_owned();
            s.append(t.as_str());
            s.append(", fabricated ");
            push_dec(&mut s, added as u64);
            s.append(" device(s) across ");
            push_dec(&mut s, zones as u64);
            s.append(" zone(s)");
            s
        },
    }
}

} // verus!
