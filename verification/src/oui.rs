//! Vendor identification from a MAC OUI.
//!
//! Maps the 24-bit OUI (the first three MAC octets) to a vendor name. A curated
//! ICS-vendor subset is built in so the appliance stays self-contained; a CSV
//! text replaces it. Used by green laser to name zones from real captures and by
//! red laser to label fabricated devices.

use std::collections::HashMap;
use vstd::prelude::*;
use crate::order::increasing;
use crate::text::{
    chars_of, hex_digit_of, hex_value, runs, split, split_on, str_eq, string_of, trim, trimmed,
};

verus! {

/// The built-in table, by prefix.
pub open spec fn built_in() -> Seq<(u32, Seq<char>)> {
    seq![
        (0x00000Cu32, "Cisco Systems"@),
        (0x000023u32, "ABB"@),
        (0x000054u32, "Schneider Electric"@),
        (0x0000BCu32, "Rockwell Automation"@),
        (0x000105u32, "Beckhoff Automation"@),
        (0x00077Cu32, "Westermo"@),
        (0x00090Fu32, "Fortinet"@),
        (0x000991u32, "GE Fanuc Automation"@),
        (0x000E8Cu32, "Siemens AG"@),
        (0x001422u32, "Dell"@),
        (0x001AA1u32, "Cisco Systems"@),
        (0x001B1Bu32, "Siemens AG"@),
        (0x001B21u32, "Intel"@),
        (0x001C06u32, "Siemens AG"@),
        (0x001D9Cu32, "Rockwell Automation"@),
        (0x001F29u32, "Hewlett Packard"@),
        (0x0021CCu32, "Lenovo"@),
        (0x002459u32, "ABB"@),
        (0x002590u32, "Super Micro"@),
        (0x0030DEu32, "WAGO"@),
        (0x005056u32, "VMware"@),
        (0x008063u32, "Hirschmann"@),
        (0x0080F4u32, "Schneider Electric"@),
        (0x0090E8u32, "Moxa"@),
        (0x00A045u32, "Phoenix Contact"@),
        (0x00D0C9u32, "Advantech"@),
        (0x080006u32, "Siemens AG"@),
        (0xE49069u32, "Rockwell Automation"@),
    ]
}

/// Common IT/PC/server vendor OUIs for the generic hosts and workstations that
/// surround the control devices in an OT network. Real, globally-administered
/// prefixes; also in the built-in table so they resolve back to a vendor name.
pub open spec fn it_pool() -> Seq<Seq<u8>> {
    seq![
        seq![0x00u8, 0x14, 0x22],
        seq![0x00u8, 0x1F, 0x29],
        seq![0x00u8, 0x1B, 0x21],
        seq![0x00u8, 0x50, 0x56],
        seq![0x00u8, 0xD0, 0xC9],
        seq![0x00u8, 0x25, 0x90],
        seq![0x00u8, 0x21, 0xCC],
    ]
}

/// A deterministic IT-vendor OUI for a generic host, keyed by `salt` (its IP),
/// so background hosts read as believable PCs/servers rather than unknown OUIs.
pub fn it_pool_oui(salt: u64) -> (r: [u8; 3])
    ensures
        r@ == it_pool()[(salt as usize) as int % 7],
        r[0] & 0x03 == 0,
{
    let i: usize = (salt as usize) % 7;
    let r: [u8; 3] = match i {
        0 => [0x00, 0x14, 0x22],
        1 => [0x00, 0x1F, 0x29],
        2 => [0x00, 0x1B, 0x21],
        3 => [0x00, 0x50, 0x56],
        4 => [0x00, 0xD0, 0xC9],
        5 => [0x00, 0x25, 0x90],
        _ => [0x00, 0x21, 0xCC],
    };
    proof {
        assert(r@ =~= it_pool()[i as int]);
        assert(0u8 & 0x03 == 0) by (bit_vector);
    }
    r
}

/// The hexadecimal digits of a text, in order, as values.
pub open spec fn hex_digits(s: Seq<char>) -> Seq<int>
    decreases s.len(),
{
    if s.len() == 0 {
        Seq::empty()
    } else {
        let d = hex_digits(s.drop_last());
        match hex_value(s.last()) {
            Some(v) => d.push(v),
            None => d,
        }
    }
}

/// The prefix that a text stands for, as a number: it holds six hexadecimal
/// digits, whatever stands between them.
pub open spec fn prefix_of(s: Seq<char>) -> Option<u32> {
    let d = hex_digits(s);
    if d.len() != 6 {
        None
    } else {
        Some(
            (d[0] * 0x10_0000 + d[1] * 0x1_0000 + d[2] * 0x1000 + d[3] * 0x100 + d[4] * 0x10
                + d[5]) as u32,
        )
    }
}

/// The three bytes of a prefix.
pub open spec fn prefix_bytes(p: u32) -> Seq<u8> {
    seq![(p / 0x1_0000) as u8, (p / 0x100 % 0x100) as u8, (p % 0x100) as u8]
}

fn prefix_array(p: u32) -> (r: [u8; 3])
    ensures
        r@ == prefix_bytes(p),
{
    let r: [u8; 3] = [(p / 0x1_0000) as u8, (p / 0x100 % 0x100) as u8, (p % 0x100) as u8];
    proof {
        assert(r@ =~= prefix_bytes(p));
    }
    r
}

/// A prefix as a number.
pub open spec fn prefix_number(b: Seq<u8>) -> u32 {
    (b[0] * 0x1_0000 + b[1] * 0x100 + b[2]) as u32
}

fn prefix_value(s: &[char]) -> (r: Option<u32>)
    ensures
        r == prefix_of(s@),
        r is Some ==> r->0 < 0x100_0000,
{
    let mut n: usize = 0;
    let mut v: u32 = 0;
    let mut i: usize = 0;
    let ghost mut d: Seq<int> = Seq::empty();
    proof {
        assert(s@.take(0) =~= Seq::empty());
    }
    while i < s.len()
        invariant
            i <= s@.len(),
            d == hex_digits(s@.take(i as int)),
            d.len() <= i,
            forall|k: int| 0 <= k < d.len() ==> 0 <= #[trigger] d[k] < 16,
            n == (if d.len() <= 7 {
                d.len() as int
            } else {
                7
            }),
            d.len() == 0 ==> v == 0,
            d.len() == 1 ==> v == d[0],
            d.len() == 2 ==> v == d[0] * 16 + d[1],
            d.len() == 3 ==> v == d[0] * 0x100 + d[1] * 16 + d[2],
            d.len() == 4 ==> v == d[0] * 0x1000 + d[1] * 0x100 + d[2] * 16 + d[3],
            d.len() == 5 ==> v == d[0] * 0x1_0000 + d[1] * 0x1000 + d[2] * 0x100 + d[3] * 16 + d[4],
            d.len() == 6 ==> v == d[0] * 0x10_0000 + d[1] * 0x1_0000 + d[2] * 0x1000 + d[3] * 0x100
                + d[4] * 16 + d[5],
            v < 0x100_0000,
        decreases s@.len() - i,
    {
        proof {
            assert(s@.take(i as int + 1).drop_last() =~= s@.take(i as int));
        }
        if let Some(x) = hex_digit_of(s[i]) {
            if n < 6 {
                proof {
                    assert(d.len() <= 5);
                }
                v = v * 16 + x as u32;
                n += 1;
            } else {
                n = 7;
            }
            proof {
                d = d.push(x as int);
            }
        }
        i += 1;
    }
    proof {
        assert(s@.take(i as int) =~= s@);
    }
    if n != 6 {
        None
    } else {
        Some(v)
    }
}

/// Parse "0000BC", "00:00:BC", or "00-00-BC" into three bytes.
pub fn parse_prefix(s: &str) -> (r: Option<[u8; 3]>)
    ensures
        r is Some <==> prefix_of(s@) is Some,
        r matches Some(b) ==> b@ == prefix_bytes(prefix_of(s@)->0),
{
    let cs = chars_of(s);
    match prefix_value(cs.as_slice()) {
        Some(p) => Some(prefix_array(p)),
        None => None,
    }
}

/// The first comma of a text, or its length.
pub open spec fn comma(s: Seq<char>) -> int
    decreases s.len(),
{
    if s.len() == 0 || s[0] == ',' {
        0
    } else {
        1 + comma(s.drop_first())
    }
}

/// What a line of a table says: a prefix, a comma and a vendor name. Empty lines,
/// comments and anything else say nothing.
pub open spec fn row_of(line: Seq<char>) -> Option<(u32, Seq<char>)> {
    let t = trimmed(line);
    let c = comma(t);
    if t.len() == 0 || t[0] == '#' || c >= t.len() {
        None
    } else {
        let vendor = trimmed(t.skip(c + 1));
        match prefix_of(trimmed(t.take(c))) {
            Some(p) => if vendor.len() == 0 {
                None
            } else {
                Some((p, vendor))
            },
            None => None,
        }
    }
}

/// The rows of a table, in order.
pub open spec fn rows_of(lines: Seq<Seq<char>>) -> Seq<(u32, Seq<char>)>
    decreases lines.len(),
{
    if lines.len() == 0 {
        Seq::empty()
    } else {
        let r = rows_of(lines.drop_last());
        match row_of(lines.last()) {
            Some(row) => r.push(row),
            None => r,
        }
    }
}

/// The rows of a CSV text.
pub open spec fn table(text: Seq<char>) -> Seq<(u32, Seq<char>)> {
    rows_of(split(text, '\n'))
}

/// The vendor of a prefix: the last row with the prefix decides.
pub open spec fn vendor_in(rows: Seq<(u32, Seq<char>)>, p: u32) -> Option<Seq<char>>
    decreases rows.len(),
{
    if rows.len() == 0 {
        None
    } else if rows.last().0 == p {
        Some(rows.last().1)
    } else {
        vendor_in(rows.drop_last(), p)
    }
}

/// A number put in its place in an ascending list, unless it is there.
pub open spec fn insert_sorted(s: Seq<u32>, x: u32) -> Seq<u32>
    decreases s.len(),
{
    if s.len() == 0 || s.last() < x {
        s.push(x)
    } else if s.last() == x {
        s
    } else {
        insert_sorted(s.drop_last(), x).push(s.last())
    }
}

/// The prefixes of a vendor, ascending, each once.
pub open spec fn prefixes_for(rows: Seq<(u32, Seq<char>)>, vendor: Seq<char>) -> Seq<u32>
    decreases rows.len(),
{
    if rows.len() == 0 {
        Seq::empty()
    } else {
        let r = prefixes_for(rows.drop_last(), vendor);
        if rows.last().1 == vendor {
            insert_sorted(r, rows.last().0)
        } else {
            r
        }
    }
}

proof fn lemma_insert_sorted(s: Seq<u32>, x: u32, at: int)
    requires
        increasing(s),
        0 <= at <= s.len(),
        forall|i: int| 0 <= i < at ==> #[trigger] s[i] < x,
        at < s.len() ==> s[at] >= x,
    ensures
        insert_sorted(s, x) == (if at < s.len() && s[at] == x {
            s
        } else {
            s.insert(at, x)
        }),
        increasing(insert_sorted(s, x)),
        forall|y: u32| #[trigger] insert_sorted(s, x).contains(y) <==> y == x || s.contains(y),
    decreases s.len(),
{
    if s.len() == 0 || s.last() < x {
        assert(at == s.len());
        assert(s.insert(at, x) =~= s.push(x));
        let n = s.push(x);
        assert forall|y: u32| n.contains(y) <==> y == x || s.contains(y) by {
            if s.contains(y) {
                let k = choose|k: int| 0 <= k < s.len() && s[k] == y;
                assert(n[k] == y);
            }
            assert(n[s.len() as int] == x);
            if n.contains(y) {
                let k = choose|k: int| 0 <= k < n.len() && n[k] == y;
                if k < s.len() {
                    assert(s[k] == y);
                }
            }
        }
    } else if s.last() == x {
        if at < s.len() - 1 {
            assert(s[at] < s[s.len() - 1]);
        }
        assert(s.contains(x));
    } else {
        let head = s.drop_last();
        let last = s.last();
        assert forall|i: int, j: int| 0 <= i < j < head.len() implies #[trigger] head[i]
            < #[trigger] head[j] by {
            assert(s[i] < s[j]);
        }
        assert forall|i: int| 0 <= i < at implies #[trigger] head[i] < x by {
            assert(s[i] < x);
        }
        assert(at <= head.len());
        lemma_insert_sorted(head, x, at);
        let q = insert_sorted(head, x);
        let n = q.push(last);
        assert(insert_sorted(head, x).contains(x));
        if at < s.len() && s[at] == x {
            assert(n =~= s);
        } else {
            assert(n =~= s.insert(at, x));
        }
        assert forall|y: u32| n.contains(y) <==> y == x || s.contains(y) by {
            if s.contains(y) {
                let k = choose|k: int| 0 <= k < s.len() && s[k] == y;
                if k < head.len() {
                    assert(head[k] == y);
                    assert(head.contains(y));
                    assert(insert_sorted(head, x).contains(y));
                    let m = choose|m: int| 0 <= m < q.len() && q[m] == y;
                    assert(n[m] == y);
                } else {
                    assert(n[q.len() as int] == y);
                }
            }
            if y == x {
                let m = choose|m: int| 0 <= m < q.len() && q[m] == y;
                assert(n[m] == y);
            }
            if n.contains(y) {
                let k = choose|k: int| 0 <= k < n.len() && n[k] == y;
                if k < q.len() {
                    assert(q[k] == y);
                    assert(insert_sorted(head, x).contains(y));
                    if y != x {
                        assert(head.contains(y));
                        let m = choose|m: int| 0 <= m < head.len() && head[m] == y;
                        assert(s[m] == y);
                    }
                } else {
                    assert(s[s.len() - 1] == y);
                }
            }
        }
        assert forall|i: int, j: int| 0 <= i < j < n.len() implies #[trigger] n[i]
            < #[trigger] n[j] by {
            if j < q.len() {
                assert(q[i] < q[j]);
            } else {
                assert(insert_sorted(head, x).contains(q[i]));
                if q[i] != x {
                    let m = choose|m: int| 0 <= m < head.len() && head[m] == q[i];
                    assert(s[m] < s[s.len() - 1]);
                }
            }
        }
    }
}

/// A prefix belongs to a vendor by some row.
pub open spec fn has_row(rows: Seq<(u32, Seq<char>)>, p: u32, vendor: Seq<char>) -> bool {
    rows.contains((p, vendor))
}

/// The place where a number goes into an ascending list.
proof fn lemma_place(s: Seq<u32>, x: u32) -> (at: int)
    requires
        increasing(s),
    ensures
        0 <= at <= s.len(),
        forall|i: int| 0 <= i < at ==> #[trigger] s[i] < x,
        at < s.len() ==> s[at] >= x,
    decreases s.len(),
{
    if s.len() == 0 {
        0
    } else if s.last() < x {
        assert forall|i: int| 0 <= i < s.len() implies #[trigger] s[i] < x by {
            if i < s.len() - 1 {
                assert(s[i] < s[s.len() - 1]);
            }
        }
        s.len() as int
    } else {
        let head = s.drop_last();
        assert forall|i: int, j: int| 0 <= i < j < head.len() implies #[trigger] head[i]
            < #[trigger] head[j] by {
            assert(s[i] < s[j]);
        }
        let at = lemma_place(head, x);
        assert forall|i: int| 0 <= i < at implies #[trigger] s[i] < x by {
            assert(head[i] < x);
        }
        if at < head.len() {
            assert(head[at] == s[at]);
        }
        at
    }
}

/// A vendor's prefixes are ascending, distinct, and exactly those of its rows.
pub proof fn law_prefixes_for(rows: Seq<(u32, Seq<char>)>, vendor: Seq<char>)
    ensures
        increasing(prefixes_for(rows, vendor)),
        forall|p: u32| prefixes_for(rows, vendor).contains(p) <==> has_row(rows, p, vendor),
    decreases rows.len(),
{
    if rows.len() > 0 {
        let head = rows.drop_last();
        law_prefixes_for(head, vendor);
        let r = prefixes_for(head, vendor);
        if rows.last().1 == vendor {
            let at = lemma_place(r, rows.last().0);
            lemma_insert_sorted(r, rows.last().0, at);
        }
        assert forall|p: u32| prefixes_for(rows, vendor).contains(p) <==> has_row(
            rows,
            p,
            vendor,
        ) by {
            if has_row(head, p, vendor) {
                let k = choose|k: int| 0 <= k < head.len() && head[k] == (p, vendor);
                assert(rows[k] == (p, vendor));
            }
            if has_row(rows, p, vendor) {
                let k = choose|k: int| 0 <= k < rows.len() && rows[k] == (p, vendor);
                if k < head.len() {
                    assert(head[k] == (p, vendor));
                }
            }
            if rows.last() == (p, vendor) {
                assert(rows[rows.len() - 1] == (p, vendor));
            }
        }
    }
}

/// A vendor table.
#[derive(Debug)]
pub struct OuiDb {
    rows: Vec<(u32, String)>,
    last: HashMap<u32, usize>,
}

/// The contents of a list of rows.
pub open spec fn row_models(v: Seq<(u32, String)>) -> Seq<(u32, Seq<char>)> {
    v.map_values(|r: (u32, String)| (r.0, r.1@))
}

impl View for OuiDb {
    type V = Seq<(u32, Seq<char>)>;

    closed spec fn view(&self) -> Seq<(u32, Seq<char>)> {
        row_models(self.rows@)
    }
}

/// The distinct prefixes of a table.
pub open spec fn prefix_set(rows: Seq<(u32, Seq<char>)>) -> Set<u32> {
    Set::new(|p: u32| vendor_in(rows, p) is Some)
}

impl OuiDb {
    /// The index leads from each prefix to its last row.
    pub closed spec fn wf(&self) -> bool {
        &&& self.last@.dom() == prefix_set(self@)
        &&& forall|p: u32| #[trigger]
            self.last@.contains_key(p) ==> self.last@[p] < self.rows@.len() && self@[self.last@[p] as int].0
                == p && vendor_in(self@, p) == Some(self@[self.last@[p] as int].1)
    }

    /// The built-in curated subset.
    pub fn embedded() -> (r: Self)
        ensures
            r.wf(),
            r@ == built_in(),
    {
        let mut db = OuiDb { rows: Vec::new(), last: HashMap::new() };
        proof {
            assert(db@ =~= Seq::empty());
            assert(db.last@.dom() =~= prefix_set(db@));
        }
        db.add(0x00000C, "Cisco Systems".to_owned());
        db.add(0x000023, "ABB".to_owned());
        db.add(0x000054, "Schneider Electric".to_owned());
        db.add(0x0000BC, "Rockwell Automation".to_owned());
        db.add(0x000105, "Beckhoff Automation".to_owned());
        db.add(0x00077C, "Westermo".to_owned());
        db.add(0x00090F, "Fortinet".to_owned());
        db.add(0x000991, "GE Fanuc Automation".to_owned());
        db.add(0x000E8C, "Siemens AG".to_owned());
        db.add(0x001422, "Dell".to_owned());
        db.add(0x001AA1, "Cisco Systems".to_owned());
        db.add(0x001B1B, "Siemens AG".to_owned());
        db.add(0x001B21, "Intel".to_owned());
        db.add(0x001C06, "Siemens AG".to_owned());
        db.add(0x001D9C, "Rockwell Automation".to_owned());
        db.add(0x001F29, "Hewlett Packard".to_owned());
        db.add(0x0021CC, "Lenovo".to_owned());
        db.add(0x002459, "ABB".to_owned());
        db.add(0x002590, "Super Micro".to_owned());
        db.add(0x0030DE, "WAGO".to_owned());
        db.add(0x005056, "VMware".to_owned());
        db.add(0x008063, "Hirschmann".to_owned());
        db.add(0x0080F4, "Schneider Electric".to_owned());
        db.add(0x0090E8, "Moxa".to_owned());
        db.add(0x00A045, "Phoenix Contact".to_owned());
        db.add(0x00D0C9, "Advantech".to_owned());
        db.add(0x080006, "Siemens AG".to_owned());
        db.add(0xE49069, "Rockwell Automation".to_owned());
        db
    }

    /// The table in a CSV text, the built-in one where there is no text.
    pub fn load(text: Option<&str>) -> (r: Self)
        ensures
            r.wf(),
            r@ == (match text {
                Some(t) => table(t@),
                None => built_in(),
            }),
    {
        match text {
            Some(t) => Self::parse(t),
            None => Self::embedded(),
        }
    }

    /// Vendor for a MAC, looked up by its OUI prefix.
    pub fn vendor(&self, mac: [u8; 6]) -> (r: Option<&str>)
        requires
            self.wf(),
        ensures
            crate::text::opt_str(r) == vendor_in(self@, prefix_number(mac@)),
    {
        self.vendor_of_prefix([mac[0], mac[1], mac[2]])
    }

    /// Vendor for a bare OUI prefix.
    pub fn vendor_of_prefix(&self, prefix: [u8; 3]) -> (r: Option<&str>)
        requires
            self.wf(),
        ensures
            crate::text::opt_str(r) == vendor_in(self@, prefix_number(prefix@)),
    {
        let p: u32 = prefix[0] as u32 * 0x1_0000 + prefix[1] as u32 * 0x100 + prefix[2] as u32;
        proof {
            assert(p == prefix_number(prefix@));
        }
        match self.last.get(&p) {
            Some(i) => Some(self.rows[*i].1.as_str()),
            None => {
                proof {
                    assert(!prefix_set(self@).contains(p));
                }
                None
            },
        }
    }

    /// A representative OUI for a vendor name (exact match), used to stamp a real
    /// vendor prefix on a fabricated asset's MAC. When a vendor has several
    /// registered OUIs, `salt` (e.g. the asset's IP) picks one deterministically,
    /// so a vendor's assets spread across its real prefixes yet each is stable.
    pub fn oui_for_vendor(&self, vendor: &str, salt: u64) -> (r: Option<[u8; 3]>)
        ensures
            ({
                let ps = prefixes_for(self@, vendor@);
                &&& r is Some <==> ps.len() > 0
                &&& r matches Some(b) ==> b@ == prefix_bytes(
                    ps[(salt as usize) as int % ps.len() as int],
                )
            }),
    {
        let mut ps: Vec<u32> = Vec::new();
        let mut i: usize = 0;
        proof {
            assert(self@.take(0) =~= Seq::empty());
        }
        while i < self.rows.len()
            invariant
                i <= self.rows@.len(),
                ps@ == prefixes_for(self@.take(i as int), vendor@),
            decreases self.rows@.len() - i,
        {
            proof {
                assert(self@.take(i as int + 1).drop_last() =~= self@.take(i as int));
                law_prefixes_for(self@.take(i as int), vendor@);
            }
            if str_eq(self.rows[i].1.as_str(), vendor) {
                let x: u32 = self.rows[i].0;
                let mut at: usize = 0;
                while at < ps.len() && ps[at] < x
                    invariant
                        at <= ps@.len(),
                        forall|k: int| 0 <= k < at ==> #[trigger] ps@[k] < x,
                    decreases ps@.len() - at,
                {
                    at += 1;
                }
                proof {
                    lemma_insert_sorted(ps@, x, at as int);
                }
                if at >= ps.len() || ps[at] != x {
                    ps.insert(at, x);
                }
            }
            i += 1;
        }
        proof {
            assert(self@.take(i as int) =~= self@);
        }
        if ps.len() == 0 {
            None
        } else {
            Some(prefix_array(ps[(salt as usize) % ps.len()]))
        }
    }

    /// How many prefixes the table knows.
    pub fn len(&self) -> (r: usize)
        requires
            self.wf(),
        ensures
            r == prefix_set(self@).len(),
            prefix_set(self@).finite(),
    {
        self.last.len()
    }

    pub fn is_empty(&self) -> (r: bool)
        requires
            self.wf(),
        ensures
            r == (prefix_set(self@).len() == 0),
    {
        self.last.len() == 0
    }

    fn add(&mut self, prefix: u32, vendor: String)
        requires
            old(self).wf(),
        ensures
            final(self).wf(),
            final(self)@ == old(self)@.push((prefix, vendor@)),
    {
        let ghost o = self@;
        let n: usize = self.rows.len();
        self.rows.push((prefix, vendor));
        self.last.insert(prefix, n);
        proof {
            let s = self@;
            assert(s =~= o.push((prefix, vendor@)));
            assert(s.drop_last() =~= o);
            assert forall|p: u32| vendor_in(s, p) == (if p == prefix {
                Some(vendor@)
            } else {
                vendor_in(o, p)
            }) by {}
            assert(self.last@.dom() =~= prefix_set(s));
            assert forall|p: u32| #[trigger] self.last@.contains_key(p) implies self.last@[p]
                < self.rows@.len() && s[self.last@[p] as int].0 == p && vendor_in(s, p) == Some(
                s[self.last@[p] as int].1,
            ) by {
                if p != prefix {
                    assert(old(self).last@.contains_key(p));
                    assert(s[old(self).last@[p] as int] == o[old(self).last@[p] as int]);
                }
            }
        }
    }

    /// The table in a CSV text. Lines that are no row are passed over.
    pub fn parse(text: &str) -> (r: Self)
        ensures
            r.wf(),
            r@ == table(text@),
    {
        let mut db = OuiDb { rows: Vec::new(), last: HashMap::new() };
        let cs = chars_of(text);
        let lines = split_on(cs.as_slice(), '\n');
        let ghost parts = runs(lines@);
        proof {
            assert(db@ =~= Seq::empty());
            assert(db.last@.dom() =~= prefix_set(db@));
            assert(parts.take(0) =~= Seq::empty());
        }
        let mut i: usize = 0;
        while i < lines.len()
            invariant
                i <= lines@.len(),
                parts == runs(lines@),
                db.wf(),
                db@ == rows_of(parts.take(i as int)),
            decreases lines@.len() - i,
        {
            proof {
                assert(parts.take(i as int + 1).drop_last() =~= parts.take(i as int));
            }
            if let Some((p, v)) = parse_row(lines[i].as_slice()) {
                db.add(p, v);
            }
            i += 1;
        }
        proof {
            assert(parts.take(i as int) =~= parts);
        }
        db
    }
}

fn find_comma(s: &[char]) -> (r: usize)
    ensures
        r == comma(s@),
        r <= s@.len(),
{
    let mut i: usize = 0;
    proof {
        assert(s@.skip(0) =~= s@);
    }
    while i < s.len() && s[i] != ','
        invariant
            i <= s@.len(),
            comma(s@) == i + comma(s@.skip(i as int)),
        decreases s@.len() - i,
    {
        proof {
            assert(s@.skip(i as int).drop_first() =~= s@.skip(i as int + 1));
        }
        i += 1;
    }
    i
}

fn parse_row(line: &[char]) -> (r: Option<(u32, String)>)
    ensures
        r is Some <==> row_of(line@) is Some,
        r matches Some(x) ==> row_of(line@) == Some((x.0, x.1@)),
{
    let t = trim(line);
    if t.len() == 0 || t[0] == '#' {
        return None;
    }
    let c: usize = find_comma(t);
    if c >= t.len() {
        return None;
    }
    let head = vstd::slice::slice_subrange(t, 0, c);
    let tail = vstd::slice::slice_subrange(t, c + 1, t.len());
    proof {
        assert(head@ =~= t@.take(c as int));
        assert(tail@ =~= t@.skip(c as int + 1));
    }
    let vendor = trim(tail);
    if vendor.len() == 0 {
        return None;
    }
    match prefix_value(trim(head)) {
        Some(p) => Some((p, string_of(vendor))),
        None => None,
    }
}

/// A prefix handed out for a vendor is one of the vendor's rows, whatever the
/// salt.
pub proof fn law_picked_prefix_is_the_vendors(
    rows: Seq<(u32, Seq<char>)>,
    vendor: Seq<char>,
    salt: u64,
)
    requires
        prefixes_for(rows, vendor).len() > 0,
    ensures
        ({
            let ps = prefixes_for(rows, vendor);
            has_row(rows, ps[(salt as usize) as int % ps.len() as int], vendor)
        }),
{
    let ps = prefixes_for(rows, vendor);
    law_prefixes_for(rows, vendor);
    let i = (salt as usize) as int % ps.len() as int;
    assert(ps.contains(ps[i]));
}

/// The prefixes of a table ascend: no two rows share one.
pub open spec fn ascends(rows: Seq<(u32, Seq<char>)>) -> bool {
    forall|i: int, j: int| 0 <= i < j < rows.len() ==> (#[trigger] rows[i]).0 < (#[trigger] rows[j]).0
}

/// Every prefix of a table is one of three bytes.
pub open spec fn three_bytes(rows: Seq<(u32, Seq<char>)>) -> bool {
    forall|i: int| 0 <= i < rows.len() ==> (#[trigger] rows[i]).0 < 0x100_0000
}

/// A row with a higher prefix keeps a table ascending.
proof fn lemma_next_row(rows: Seq<(u32, Seq<char>)>, p: u32, vendor: Seq<char>) -> (r: Seq<
    (u32, Seq<char>),
>)
    requires
        ascends(rows),
        three_bytes(rows),
        rows.len() > 0 ==> rows.last().0 < p,
        p < 0x100_0000,
    ensures
        r == rows.push((p, vendor)),
        r.last() == (p, vendor),
        ascends(r),
        three_bytes(r),
{
    rows.push((p, vendor))
}

/// The built-in table's prefixes ascend, so that each is one vendor's.
pub proof fn law_built_in_ascends()
    ensures
        ascends(built_in()),
        three_bytes(built_in()),
{
    let s = Seq::empty();
    let s = lemma_next_row(s, 0x00000C, "Cisco Systems"@);
    let s = lemma_next_row(s, 0x000023, "ABB"@);
    let s = lemma_next_row(s, 0x000054, "Schneider Electric"@);
    let s = lemma_next_row(s, 0x0000BC, "Rockwell Automation"@);
    let s = lemma_next_row(s, 0x000105, "Beckhoff Automation"@);
    let s = lemma_next_row(s, 0x00077C, "Westermo"@);
    let s = lemma_next_row(s, 0x00090F, "Fortinet"@);
    let s = lemma_next_row(s, 0x000991, "GE Fanuc Automation"@);
    let s = lemma_next_row(s, 0x000E8C, "Siemens AG"@);
    let s = lemma_next_row(s, 0x001422, "Dell"@);
    let s = lemma_next_row(s, 0x001AA1, "Cisco Systems"@);
    let s = lemma_next_row(s, 0x001B1B, "Siemens AG"@);
    let s = lemma_next_row(s, 0x001B21, "Intel"@);
    let s = lemma_next_row(s, 0x001C06, "Siemens AG"@);
    let s = lemma_next_row(s, 0x001D9C, "Rockwell Automation"@);
    let s = lemma_next_row(s, 0x001F29, "Hewlett Packard"@);
    let s = lemma_next_row(s, 0x0021CC, "Lenovo"@);
    let s = lemma_next_row(s, 0x002459, "ABB"@);
    let s = lemma_next_row(s, 0x002590, "Super Micro"@);
    let s = lemma_next_row(s, 0x0030DE, "WAGO"@);
    let s = lemma_next_row(s, 0x005056, "VMware"@);
    let s = lemma_next_row(s, 0x008063, "Hirschmann"@);
    let s = lemma_next_row(s, 0x0080F4, "Schneider Electric"@);
    let s = lemma_next_row(s, 0x0090E8, "Moxa"@);
    let s = lemma_next_row(s, 0x00A045, "Phoenix Contact"@);
    let s = lemma_next_row(s, 0x00D0C9, "Advantech"@);
    let s = lemma_next_row(s, 0x080006, "Siemens AG"@);
    let s = lemma_next_row(s, 0xE49069, "Rockwell Automation"@);
    assert(s == built_in());
}

/// Where each prefix is one vendor's, a row decides its prefix.
proof fn lemma_row_decides(rows: Seq<(u32, Seq<char>)>, k: int)
    requires
        ascends(rows),
        0 <= k < rows.len(),
    ensures
        vendor_in(rows, rows[k].0) == Some(rows[k].1),
    decreases rows.len(),
{
    if k < rows.len() - 1 {
        assert(rows[k].0 < rows[rows.len() - 1].0);
        let head = rows.drop_last();
        assert forall|i: int, j: int| 0 <= i < j < head.len() implies (#[trigger] head[i]).0 < (
        #[trigger] head[j]).0 by {
            assert(rows[i].0 < rows[j].0);
        }
        lemma_row_decides(head, k);
    }
}

/// A vendor and its prefixes are inverse to each other in the built-in table: a
/// vendor with a row has a prefix, whatever the salt, and each that is handed out is
/// the vendor's own.
pub proof fn law_built_in_round_trips(vendor: Seq<char>, salt: u64)
    ensures
        ({
            let ps = prefixes_for(built_in(), vendor);
            &&& ps.len() > 0 <==> exists|p: u32| has_row(built_in(), p, vendor)
            &&& ps.len() > 0 ==> {
                let p = ps[(salt as usize) as int % ps.len() as int];
                vendor_in(built_in(), prefix_number(prefix_bytes(p))) == Some(vendor)
            }
        }),
{
    let rows = built_in();
    let ps = prefixes_for(rows, vendor);
    law_built_in_ascends();
    law_prefixes_for(rows, vendor);
    if exists|p: u32| has_row(rows, p, vendor) {
        let p = choose|p: u32| has_row(rows, p, vendor);
        assert(ps.contains(p));
    }
    if ps.len() > 0 {
        assert(ps.contains(ps[0]));
        law_picked_prefix_is_the_vendors(rows, vendor, salt);
        let p = ps[(salt as usize) as int % ps.len() as int];
        let k = choose|k: int| 0 <= k < rows.len() && rows[k] == (p, vendor);
        lemma_row_decides(rows, k);
        lemma_prefix_reads_back(p);
    }
}

/// A prefix reads back from its bytes.
proof fn lemma_prefix_reads_back(p: u32)
    requires
        p < 0x100_0000,
    ensures
        prefix_number(prefix_bytes(p)) == p,
{
}

/// The place of a prefix in the pool.
spec fn pool_place(b: Seq<u8>) -> int {
    if b[1] == 0x14 {
        0
    } else if b[1] == 0x1F {
        1
    } else if b[1] == 0x1B {
        2
    } else if b[1] == 0x50 {
        3
    } else if b[1] == 0xD0 {
        4
    } else if b[1] == 0x25 {
        5
    } else {
        6
    }
}

/// The pool's prefixes are globally administered and unicast, distinct, and known
/// to the built-in table.
pub proof fn law_pool_is_global_and_known(i: int)
    requires
        0 <= i < 7,
    ensures
        it_pool().len() == 7,
        it_pool()[i].len() == 3,
        it_pool()[i][0] & 0x03 == 0,
        forall|j: int| 0 <= j < 7 && #[trigger] it_pool()[j] == it_pool()[i] ==> j == i,
        vendor_in(built_in(), prefix_number(it_pool()[i])) is Some,
{
    assert(0u8 & 0x03 == 0) by (bit_vector);
    assert forall|j: int| 0 <= j < 7 implies pool_place(#[trigger] it_pool()[j]) == j by {
        lemma_pool_place(j);
    }
    law_built_in_ascends();
    if i == 0 {
        assert(built_in()[9] == (0x001422u32, "Dell"@));
    } else if i == 1 {
        assert(built_in()[15] == (0x001F29u32, "Hewlett Packard"@));
    } else if i == 2 {
        assert(built_in()[12] == (0x001B21u32, "Intel"@));
    } else if i == 3 {
        assert(built_in()[20] == (0x005056u32, "VMware"@));
    } else if i == 4 {
        assert(built_in()[25] == (0x00D0C9u32, "Advantech"@));
    } else if i == 5 {
        assert(built_in()[18] == (0x002590u32, "Super Micro"@));
    } else {
        assert(built_in()[16] == (0x0021CCu32, "Lenovo"@));
    }
    let k = choose|k: int|
        0 <= k < built_in().len() && (#[trigger] built_in()[k]).0 == prefix_number(it_pool()[i]);
    lemma_row_decides(built_in(), k);
}

proof fn lemma_pool_place(j: int)
    requires
        0 <= j < 7,
    ensures
        pool_place(it_pool()[j]) == j,
{
}

/// The pool's prefix for a salt is that of the salt's remainder by seven.
pub proof fn law_pool_goes_by_sevens(salt: u64)
    requires
        salt <= u32::MAX,
    ensures
        it_pool()[(salt as usize) as int % 7] == it_pool()[((salt % 7) as usize) as int % 7],
{
}

/// A prefix names the vendor of its last row; without a row it names none.
pub proof fn law_last_row_names_the_vendor(rows: Seq<(u32, Seq<char>)>, p: u32)
    ensures
        forall|k: int|
            0 <= k < rows.len() && (#[trigger] rows[k]).0 == p && (forall|j: int|
                k < j < rows.len() ==> (#[trigger] rows[j]).0 != p) ==> vendor_in(rows, p) == Some(
                rows[k].1,
            ),
        (forall|j: int| 0 <= j < rows.len() ==> (#[trigger] rows[j]).0 != p) ==> vendor_in(
            rows,
            p,
        ) is None,
    decreases rows.len(),
{
    if rows.len() > 0 {
        let head = rows.drop_last();
        let n = rows.len() - 1;
        law_last_row_names_the_vendor(head, p);
        assert forall|k: int|
            0 <= k < rows.len() && (#[trigger] rows[k]).0 == p && (forall|j: int|
                k < j < rows.len() ==> (#[trigger] rows[j]).0 != p) implies vendor_in(rows, p)
            == Some(rows[k].1) by {
            if k < n {
                assert(rows[n].0 != p);
                assert(head[k] == rows[k]);
                assert forall|j: int| k < j < head.len() implies (#[trigger] head[j]).0 != p by {
                    assert(head[j] == rows[j]);
                }
            }
        }
        if forall|j: int| 0 <= j < rows.len() ==> (#[trigger] rows[j]).0 != p {
            assert(rows[n].0 != p);
            assert forall|j: int| 0 <= j < head.len() implies (#[trigger] head[j]).0 != p by {
                assert(head[j] == rows[j]);
            }
        }
    }
}

} // verus!
