//! The human-readable diagnostic report: adapters, association, the radio
//! environment, findings and the strongest networks, as Markdown.

use vstd::prelude::*;

use crate::report::{iso8601_of, now_iso8601};
use crate::text::{decimal, push_decimal};

verus! {

/// The current association of an adapter.
pub struct AssociationRow {
    pub ssid: Option<String>,
    pub bssid: Option<String>,
    pub phy_type: String,
    pub signal_quality: u32,
    pub rssi_dbm_estimate: i32,
    pub rx_rate_kbps: u32,
    pub tx_rate_kbps: u32,
}

/// One wireless adapter: its description, its state, and its association.
pub struct AdapterRow {
    pub description: String,
    pub state: String,
    pub connection: Option<AssociationRow>,
}

/// What is seen on one band.
pub struct BandRow {
    pub band: String,
    pub bss_count: usize,
    pub distinct_ssids: usize,
    pub distinct_channels: usize,
    pub strongest_dbm: Option<i32>,
}

/// One finding of the environment analysis.
pub struct FindingRow {
    pub severity: String,
    pub title: String,
    pub caveat: String,
}

/// The environment analysis: per-band figures and findings.
pub struct AnalysisRows {
    pub bands: Vec<BandRow>,
    pub findings: Vec<FindingRow>,
}

/// One visible BSS from the cached scan.
pub struct BssRow {
    pub ssid: Option<String>,
    pub bssid: String,
    pub band: String,
    pub channel: Option<u32>,
    pub rssi_dbm: i32,
    pub has_rsn: bool,
}

/// The decimal form of an integer, with a minus sign when negative.
pub open spec fn signed_decimal(n: int) -> Seq<char> {
    if n < 0 {
        "-"@ + decimal((-n) as nat)
    } else {
        decimal(n as nat)
    }
}

/// The text of an optional string, or a fallback.
pub open spec fn or_text(o: Option<String>, fallback: Seq<char>) -> Seq<char> {
    match o {
        Some(s) => s@,
        None => fallback,
    }
}

/// One line per adapter: its description in bold, then its state.
pub open spec fn adapter_lines(a: Seq<AdapterRow>) -> Seq<char>
    decreases a.len(),
{
    if a.len() == 0 {
        seq![]
    } else {
        adapter_lines(a.drop_last()) + "- **"@ + a.last().description@ + "** — "@ + a.last().state@ + "\n"@
    }
}

/// The association of the first adapter that has one.
pub open spec fn first_association(a: Seq<AdapterRow>) -> Option<AssociationRow>
    decreases a.len(),
{
    if a.len() == 0 {
        None
    } else {
        match a[0].connection {
            Some(c) => Some(c),
            None => first_association(a.drop_first()),
        }
    }
}

/// The association section: a one-row table, or "Not associated."
pub open spec fn association_text(c: Option<AssociationRow>) -> Seq<char> {
    match c {
        None => "\n## Association\n\nNot associated.\n"@,
        Some(c) => "\n## Association\n\n| SSID | BSSID | PHY | Quality | RSSI | Rx | Tx |\n|---|---|---|---|---|---|---|\n| "@ + or_text(c.ssid, "—"@) + " | "@ + or_text(c.bssid, "—"@) + " | "@
            + c.phy_type@ + " | "@ + decimal(c.signal_quality as nat) + "/100 | "@
            + signed_decimal(c.rssi_dbm_estimate as int) + " dBm | "@ + decimal(c.rx_rate_kbps as nat)
            + " kbps | "@ + decimal(c.tx_rate_kbps as nat) + " kbps |\n"@,
    }
}

/// One table row per band; a band without a strongest signal shows 0 dBm.
pub open spec fn band_lines(b: Seq<BandRow>) -> Seq<char>
    decreases b.len(),
{
    if b.len() == 0 {
        seq![]
    } else {
        let r = b.last();
        band_lines(b.drop_last()) + "| "@ + r.band@ + " | "@ + decimal(r.bss_count as nat) + " | "@
            + decimal(r.distinct_ssids as nat) + " | "@ + decimal(r.distinct_channels as nat) + " | "@
            + signed_decimal(match r.strongest_dbm { Some(v) => v as int, None => 0 }) + " dBm |\n"@
    }
}

/// The environment section: the number of visible BSS, then the band table
/// when there are bands.
pub open spec fn environment_text(count: nat, bands: Seq<BandRow>) -> Seq<char> {
    "\n## Environment\n\n"@ + decimal(count) + " BSS visible.\n\n"@ + (if bands.len() > 0 { "| Band | BSS | SSIDs | Channels | Strongest |\n|---|---|---|---|---|\n"@ + band_lines(bands) } else { seq![] })
}

/// One heading with the severity and title per finding, then its caveat.
pub open spec fn finding_lines(f: Seq<FindingRow>) -> Seq<char>
    decreases f.len(),
{
    if f.len() == 0 {
        seq![]
    } else {
        finding_lines(f.drop_last()) + "### ["@ + f.last().severity@ + "] "@ + f.last().title@ + "\n\n"@
            + f.last().caveat@ + "\n\n"@
    }
}

/// The findings section, or a line saying that nothing looks wrong.
pub open spec fn findings_text(f: Seq<FindingRow>) -> Seq<char> {
    "\n## Findings\n\n"@ + (if f.len() == 0 { "None. Nothing in the environment looks wrong.\n"@ } else { finding_lines(f) })
}

/// `e` placed into a list ordered by decreasing signal, after every entry at
/// least as strong, so that entries of equal signal keep their order.
pub open spec fn insert_by_rssi(sorted: Seq<BssRow>, e: BssRow) -> Seq<BssRow>
    decreases sorted.len(),
{
    if sorted.len() == 0 {
        seq![e]
    } else if sorted.last().rssi_dbm >= e.rssi_dbm {
        sorted.push(e)
    } else {
        insert_by_rssi(sorted.drop_last(), e).push(sorted.last())
    }
}

/// The entries ordered by decreasing signal; entries of equal signal keep
/// their order (a stable sort).
pub open spec fn by_rssi(s: Seq<BssRow>) -> Seq<BssRow>
    decreases s.len(),
{
    if s.len() == 0 {
        seq![]
    } else {
        insert_by_rssi(by_rssi(s.drop_last()), s.last())
    }
}

/// The fifteen strongest entries, strongest first.
pub open spec fn strongest(s: Seq<BssRow>) -> Seq<BssRow> {
    let sorted = by_rssi(s);
    sorted.take(if sorted.len() < 15 { sorted.len() as int } else { 15 })
}

/// One table row per BSS; a hidden network shows `*hidden*`, an unknown
/// channel a dash.
pub open spec fn bss_lines(s: Seq<BssRow>) -> Seq<char>
    decreases s.len(),
{
    if s.len() == 0 {
        seq![]
    } else {
        let e = s.last();
        bss_lines(s.drop_last()) + "| "@ + or_text(e.ssid, "*hidden*"@) + " | "@ + e.bssid@ + " | "@ + e.band@
            + " | "@ + (match e.channel { Some(c) => decimal(c as nat), None => "—"@ }) + " | "@
            + signed_decimal(e.rssi_dbm as int) + " | "@ + (if e.has_rsn { "yes"@ } else { "no"@ }) + " |\n"@
    }
}

/// The whole report, generated at the time `generated`.
pub open spec fn markdown_text(
    adapters: Seq<AdapterRow>,
    entries: Seq<BssRow>,
    bands: Seq<BandRow>,
    findings: Seq<FindingRow>,
    generated: Seq<char>,
) -> Seq<char> {
    "# Wi-Fi Diagnostic Report\n\nGenerated: "@ + generated + "\nSource: cached scan results — call the wifi_scan tool to force a refresh.\n\n## Adapters\n\n"@ + adapter_lines(adapters) + association_text(first_association(adapters))
        + environment_text(entries.len(), bands) + findings_text(findings) + "\n## Strongest BSS\n\n| SSID | BSSID | Band | Ch | RSSI | RSN |\n|---|---|---|---|---|---|\n"@ + bss_lines(strongest(entries))
        + "\n---\n\nThis report lists SSIDs and BSSIDs of nearby networks, including neighbours'. A BSSID can be resolved to a street address through public geolocation databases — treat it as location-identifying before sharing.\n"@
}

/// Appends the decimal form of an integer.
fn push_signed(out: &mut String, n: i32)
    ensures
        final(out)@ == old(out)@ + signed_decimal(n as int),
{
    if n < 0 {
        out.append("-");
        let magnitude = (-(n as i64)) as u64;
        push_decimal(out, magnitude);
    } else {
        push_decimal(out, n as u64);
    }
}

/// Appends an optional string, or a fallback.
fn push_or(out: &mut String, o: &Option<String>, fallback: &str)
    ensures
        final(out)@ == old(out)@ + or_text(*o, fallback@),
{
    match o {
        Some(s) => out.append(s.as_str()),
        None => out.append(fallback),
    }
}

proof fn lemma_insert_at(sorted: Seq<BssRow>, e: BssRow, p: int)
    requires
        0 <= p <= sorted.len(),
        forall|q: int| p <= q < sorted.len() ==> (#[trigger] sorted[q]).rssi_dbm < e.rssi_dbm,
        p > 0 ==> sorted[p - 1].rssi_dbm >= e.rssi_dbm,
    ensures
        insert_by_rssi(sorted, e) == sorted.insert(p, e),
    decreases sorted.len(),
{
    if sorted.len() == 0 {
        assert(sorted.insert(p, e) =~= seq![e]);
    } else if p == sorted.len() {
        assert(sorted.insert(p, e) =~= sorted.push(e));
    } else {
        let d = sorted.drop_last();
        lemma_insert_at(d, e, p);
        assert(sorted.insert(p, e) =~= d.insert(p, e).push(sorted.last()));
    }
}

/// The rows at a list of positions.
pub open spec fn rows_at(entries: Seq<BssRow>, idx: Seq<usize>) -> Seq<BssRow> {
    idx.map_values(|j: usize| entries[j as int])
}

/// The positions of the entries in decreasing order of signal, stable.
fn sorted_positions(entries: &Vec<BssRow>) -> (idx: Vec<usize>)
    ensures
        rows_at(entries@, idx@) == by_rssi(entries@),
        forall|k: int| 0 <= k < idx@.len() ==> (#[trigger] idx@[k]) < entries@.len(),
{
    let mut idx: Vec<usize> = Vec::new();
    let mut i: usize = 0;
    assert(entries@.take(0) =~= Seq::<BssRow>::empty());
    assert(rows_at(entries@, idx@) =~= Seq::<BssRow>::empty());
    while i < entries.len()
        invariant
            i <= entries@.len(),
            rows_at(entries@, idx@) == by_rssi(entries@.take(i as int)),
            forall|k: int| 0 <= k < idx@.len() ==> (#[trigger] idx@[k]) < entries@.len(),
        decreases entries.len() - i,
    {
        let ghost sorted = rows_at(entries@, idx@);
        let rssi = entries[i].rssi_dbm;
        let mut p = idx.len();
        while p > 0 && entries[idx[p - 1]].rssi_dbm < rssi
            invariant
                p <= idx@.len(),
                sorted == rows_at(entries@, idx@),
                forall|k: int| 0 <= k < idx@.len() ==> (#[trigger] idx@[k]) < entries@.len(),
                forall|q: int| p <= q < sorted.len() ==> (#[trigger] sorted[q]).rssi_dbm < rssi,
            decreases p,
        {
            p = p - 1;
        }
        proof {
            lemma_insert_at(sorted, entries@[i as int], p as int);
            assert(entries@.take(i + 1).drop_last() =~= entries@.take(i as int));
            assert(entries@.take(i + 1).last() == entries@[i as int]);
        }
        idx.insert(p, i);
        proof {
            assert(rows_at(entries@, idx@) =~= sorted.insert(p as int, entries@[i as int]));
        }
        i = i + 1;
    }
    assert(entries@.take(entries@.len() as int) =~= entries@);
    idx
}

fn push_adapters(out: &mut String, adapters: &Vec<AdapterRow>)
    ensures
        final(out)@ == old(out)@ + adapter_lines(adapters@),
{
    let ghost head = out@;
    let mut i: usize = 0;
    assert(adapters@.take(0) =~= Seq::<AdapterRow>::empty());
    assert(out@ =~= head + adapter_lines(adapters@.take(0)));
    while i < adapters.len()
        invariant
            i <= adapters@.len(),
            out@ == head + adapter_lines(adapters@.take(i as int)),
        decreases adapters.len() - i,
    {
        let ghost before = out@;
        let a = &adapters[i];
        out.append("- **");
        out.append(a.description.as_str());
        out.append("** — ");
        out.append(a.state.as_str());
        out.append("\n");
        proof {
            let t = adapters@.take(i + 1);
            assert(t.drop_last() =~= adapters@.take(i as int));
            assert(t.last() == adapters@[i as int]);
            assert(out@ =~= before + "- **"@ + a.description@ + "** — "@ + a.state@ + "\n"@);
            assert(out@ =~= head + adapter_lines(t));
        }
        i = i + 1;
    }
    assert(adapters@.take(adapters@.len() as int) =~= adapters@);
}

fn find_association(adapters: &Vec<AdapterRow>) -> (r: Option<&AssociationRow>)
    ensures
        match r {
            Some(c) => first_association(adapters@) == Some(*c),
            None => first_association(adapters@) is None,
        },
{
    let mut j: usize = 0;
    assert(adapters@.skip(0) =~= adapters@);
    while j < adapters.len()
        invariant
            j <= adapters@.len(),
            first_association(adapters@) == first_association(adapters@.skip(j as int)),
        decreases adapters.len() - j,
    {
        assert(adapters@.skip(j as int)[0] == adapters@[j as int]);
        if let Some(c) = &adapters[j].connection {
            return Some(c);
        }
        assert(adapters@.skip(j as int).drop_first() =~= adapters@.skip(j + 1));
        j = j + 1;
    }
    None
}

fn push_association(out: &mut String, found: Option<&AssociationRow>)
    ensures
        final(out)@ == old(out)@ + association_text(match found { Some(c) => Some(*c), None => None }),
{
    let ghost head = out@;
    match found {
        None => {
            out.append("\n## Association\n\nNot associated.\n");
        },
        Some(c) => {
            out.append("\n## Association\n\n| SSID | BSSID | PHY | Quality | RSSI | Rx | Tx |\n|---|---|---|---|---|---|---|\n| ");
            push_or(out, &c.ssid, "—");
            out.append(" | ");
            push_or(out, &c.bssid, "—");
            out.append(" | ");
            out.append(c.phy_type.as_str());
            out.append(" | ");
            push_decimal(out, c.signal_quality as u64);
            out.append("/100 | ");
            push_signed(out, c.rssi_dbm_estimate);
            out.append(" dBm | ");
            push_decimal(out, c.rx_rate_kbps as u64);
            out.append(" kbps | ");
            push_decimal(out, c.tx_rate_kbps as u64);
            out.append(" kbps |\n");
            assert(out@ =~= head + association_text(Some(*c)));
        },
    }
}

fn push_bands(out: &mut String, bands: &Vec<BandRow>)
    ensures
        final(out)@ == old(out)@ + band_lines(bands@),
{
    let ghost head = out@;
    let mut b: usize = 0;
    assert(bands@.take(0) =~= Seq::<BandRow>::empty());
    assert(out@ =~= head + band_lines(bands@.take(0)));
    while b < bands.len()
        invariant
            b <= bands@.len(),
            out@ == head + band_lines(bands@.take(b as int)),
        decreases bands.len() - b,
    {
        let ghost before = out@;
        let r = &bands[b];
        out.append("| ");
        out.append(r.band.as_str());
        out.append(" | ");
        push_decimal(out, r.bss_count as u64);
        out.append(" | ");
        push_decimal(out, r.distinct_ssids as u64);
        out.append(" | ");
        push_decimal(out, r.distinct_channels as u64);
        out.append(" | ");
        let strongest_dbm: i32 = match r.strongest_dbm {
            Some(v) => v,
            None => 0,
        };
        push_signed(out, strongest_dbm);
        out.append(" dBm |\n");
        proof {
            let t = bands@.take(b + 1);
            assert(t.drop_last() =~= bands@.take(b as int));
            assert(t.last() == bands@[b as int]);
            assert(out@ =~= before + "| "@ + r.band@ + " | "@ + decimal(r.bss_count as nat) + " | "@
                + decimal(r.distinct_ssids as nat) + " | "@ + decimal(r.distinct_channels as nat) + " | "@
                + signed_decimal(match r.strongest_dbm { Some(v) => v as int, None => 0 }) + " dBm |\n"@);
            assert(out@ =~= head + band_lines(t));
        }
        b = b + 1;
    }
    assert(bands@.take(bands@.len() as int) =~= bands@);
}

fn push_findings(out: &mut String, findings: &Vec<FindingRow>)
    ensures
        final(out)@ == old(out)@ + finding_lines(findings@),
{
    let ghost head = out@;
    let mut f: usize = 0;
    assert(findings@.take(0) =~= Seq::<FindingRow>::empty());
    assert(out@ =~= head + finding_lines(findings@.take(0)));
    while f < findings.len()
        invariant
            f <= findings@.len(),
            out@ == head + finding_lines(findings@.take(f as int)),
        decreases findings.len() - f,
    {
        let ghost before = out@;
        let x = &findings[f];
        out.append("### [");
        out.append(x.severity.as_str());
        out.append("] ");
        out.append(x.title.as_str());
        out.append("\n\n");
        out.append(x.caveat.as_str());
        out.append("\n\n");
        proof {
            let t = findings@.take(f + 1);
            assert(t.drop_last() =~= findings@.take(f as int));
            assert(t.last() == findings@[f as int]);
            assert(out@ =~= before + "### ["@ + x.severity@ + "] "@ + x.title@ + "\n\n"@ + x.caveat@ + "\n\n"@);
            assert(out@ =~= head + finding_lines(t));
        }
        f = f + 1;
    }
    assert(findings@.take(findings@.len() as int) =~= findings@);
}

fn push_bss(out: &mut String, e: &BssRow)
    ensures
        final(out)@ == old(out)@ + bss_lines(seq![*e]),
{
    let ghost head = out@;
    out.append("| ");
    push_or(out, &e.ssid, "*hidden*");
    out.append(" | ");
    out.append(e.bssid.as_str());
    out.append(" | ");
    out.append(e.band.as_str());
    out.append(" | ");
    match e.channel {
        Some(c) => push_decimal(out, c as u64),
        None => out.append("—"),
    }
    out.append(" | ");
    push_signed(out, e.rssi_dbm);
    out.append(" | ");
    if e.has_rsn {
        out.append("yes");
    } else {
        out.append("no");
    }
    out.append(" |\n");
    proof {
        let s = seq![*e];
        let line = "| "@ + or_text(e.ssid, "*hidden*"@) + " | "@ + e.bssid@ + " | "@ + e.band@
            + " | "@ + (match e.channel { Some(c) => decimal(c as nat), None => "—"@ }) + " | "@
            + signed_decimal(e.rssi_dbm as int) + " | "@ + (if e.has_rsn { "yes"@ } else { "no"@ }) + " |\n"@;
        assert(out@ =~= head + line);
        assert(s.drop_last() =~= Seq::<BssRow>::empty());
        assert(s.last() == *e);
        assert(bss_lines(s.drop_last()) =~= Seq::<char>::empty());
        assert(bss_lines(s) =~= line);
    }
}

proof fn lemma_bss_lines_push(s: Seq<BssRow>, e: BssRow)
    ensures
        bss_lines(s.push(e)) == bss_lines(s) + bss_lines(seq![e]),
{
    assert(s.push(e).drop_last() =~= s);
    assert(seq![e].drop_last() =~= Seq::<BssRow>::empty());
    assert(bss_lines(Seq::<BssRow>::empty()) =~= Seq::<char>::empty());
}

fn push_strongest(out: &mut String, entries: &Vec<BssRow>)
    ensures
        final(out)@ == old(out)@ + bss_lines(strongest(entries@)),
{
    let ghost head = out@;
    let idx = sorted_positions(entries);
    let shown: usize = if idx.len() < 15 { idx.len() } else { 15 };
    let ghost top = strongest(entries@);
    assert(rows_at(entries@, idx@).len() == idx@.len());
    let mut k: usize = 0;
    assert(top.take(0) =~= Seq::<BssRow>::empty());
    assert(out@ =~= head + bss_lines(top.take(0)));
    while k < shown
        invariant
            k <= shown,
            shown <= idx@.len(),
            top == strongest(entries@),
            top.len() == shown,
            top == rows_at(entries@, idx@).take(shown as int),
            forall|q: int| 0 <= q < idx@.len() ==> (#[trigger] idx@[q]) < entries@.len(),
            out@ == head + bss_lines(top.take(k as int)),
        decreases shown - k,
    {
        let e = &entries[idx[k]];
        assert(*e == top[k as int]);
        push_bss(out, e);
        proof {
            assert(top.take(k + 1) =~= top.take(k as int).push(top[k as int]));
            lemma_bss_lines_push(top.take(k as int), top[k as int]);
            assert(out@ =~= head + bss_lines(top.take(k + 1)));
        }
        k = k + 1;
    }
    assert(top.take(shown as int) =~= top);
}

/// The report, generated at the time `generated`.
pub fn markdown_at(adapters: &Vec<AdapterRow>, entries: &Vec<BssRow>, analysis: &AnalysisRows, generated: &str) -> (r: String)
    ensures
        r@ == markdown_text(adapters@, entries@, analysis.bands@, analysis.findings@, generated@),
{
    let mut out = String::new();
    out.append("# Wi-Fi Diagnostic Report\n\nGenerated: ");
    out.append(generated);
    out.append("\nSource: cached scan results — call the wifi_scan tool to force a refresh.\n\n## Adapters\n\n");
    push_adapters(&mut out, adapters);
    let found = find_association(adapters);
    push_association(&mut out, found);
    let ghost after_association = out@;
    out.append("\n## Environment\n\n");
    push_decimal(&mut out, entries.len() as u64);
    out.append(" BSS visible.\n\n");
    if analysis.bands.len() > 0 {
        out.append("| Band | BSS | SSIDs | Channels | Strongest |\n|---|---|---|---|---|\n");
        push_bands(&mut out, &analysis.bands);
    }
    assert(out@ =~= after_association + environment_text(entries@.len(), analysis.bands@));
    let ghost after_environment = out@;
    out.append("\n## Findings\n\n");
    if analysis.findings.len() == 0 {
        out.append("None. Nothing in the environment looks wrong.\n");
    } else {
        push_findings(&mut out, &analysis.findings);
    }
    assert(out@ =~= after_environment + findings_text(analysis.findings@));
    out.append("\n## Strongest BSS\n\n| SSID | BSSID | Band | Ch | RSSI | RSN |\n|---|---|---|---|---|---|\n");
    push_strongest(&mut out, entries);
    out.append("\n---\n\nThis report lists SSIDs and BSSIDs of nearby networks, including neighbours'. A BSSID can be resolved to a street address through public geolocation databases — treat it as location-identifying before sharing.\n");
    assert(out@ =~= markdown_text(adapters@, entries@, analysis.bands@, analysis.findings@, generated@));
    out
}

/// The report, generated now.
pub fn markdown(adapters: &Vec<AdapterRow>, entries: &Vec<BssRow>, analysis: &AnalysisRows) -> (r: String)
    ensures
        exists|secs: u64| r@ == markdown_text(adapters@, entries@, analysis.bands@, analysis.findings@, iso8601_of(secs as nat)),
{
    let generated = now_iso8601();
    markdown_at(adapters, entries, analysis, generated.as_str())
}

/// The Environment section counts every BSS of the scan, however many of
/// them the strongest-BSS table shows.
pub proof fn lemma_report_counts_every_bss(
    adapters: Seq<AdapterRow>,
    entries: Seq<BssRow>,
    bands: Seq<BandRow>,
    findings: Seq<FindingRow>,
    generated: Seq<char>,
)
    ensures
        ({
            let text = markdown_text(adapters, entries, bands, findings, generated);
            let line = "\n## Environment\n\n"@ + decimal(entries.len()) + " BSS visible.\n\n"@;
            exists|i: int| 0 <= i && i + line.len() <= text.len() && #[trigger] text.subrange(i, i + line.len()) == line
        }),
{
    let text = markdown_text(adapters, entries, bands, findings, generated);
    let line = "\n## Environment\n\n"@ + decimal(entries.len()) + " BSS visible.\n\n"@;
    let head = "# Wi-Fi Diagnostic Report\n\nGenerated: "@ + generated
        + "\nSource: cached scan results — call the wifi_scan tool to force a refresh.\n\n## Adapters\n\n"@
        + adapter_lines(adapters) + association_text(first_association(adapters));
    let i = head.len() as int;
    assert(text.subrange(i, i + line.len()) =~= line);
}

/// Placing an entry into a list ordered by falling signal keeps it ordered
/// and adds exactly that entry.
proof fn lemma_insert_by_rssi(sorted: Seq<BssRow>, e: BssRow)
    requires
        forall|i: int, j: int| 0 <= i < j < sorted.len() ==> sorted[i].rssi_dbm >= sorted[j].rssi_dbm,
    ensures
        insert_by_rssi(sorted, e).len() == sorted.len() + 1,
        insert_by_rssi(sorted, e).to_multiset() == sorted.to_multiset().insert(e),
        forall|i: int|
            0 <= i < insert_by_rssi(sorted, e).len() ==> #[trigger] insert_by_rssi(sorted, e)[i] == e || exists|j: int|
                0 <= j < sorted.len() && insert_by_rssi(sorted, e)[i] == sorted[j],
        forall|i: int, j: int|
            0 <= i < j < insert_by_rssi(sorted, e).len() ==> insert_by_rssi(sorted, e)[i].rssi_dbm
                >= insert_by_rssi(sorted, e)[j].rssi_dbm,
    decreases sorted.len(),
{
    broadcast use vstd::seq_lib::group_to_multiset_ensures;

    let r = insert_by_rssi(sorted, e);
    if sorted.len() == 0 {
        assert(r =~= seq![e]);
        assert(sorted.push(e) =~= seq![e]);
    } else if sorted.last().rssi_dbm >= e.rssi_dbm {
        assert forall|i: int| 0 <= i < r.len() implies #[trigger] r[i] == e || exists|j: int|
            0 <= j < sorted.len() && r[i] == sorted[j] by {
            if i < sorted.len() {
                assert(r[i] == sorted[i]);
            }
        }
    } else {
        let d = sorted.drop_last();
        let last = sorted.last();
        lemma_insert_by_rssi(d, e);
        let q = insert_by_rssi(d, e);
        assert(r == q.push(last));
        assert(sorted == d.push(last));
        assert forall|i: int| 0 <= i < r.len() implies #[trigger] r[i] == e || exists|j: int|
            0 <= j < sorted.len() && r[i] == sorted[j] by {
            if i < q.len() {
                assert(r[i] == q[i]);
                if q[i] != e {
                    let j = choose|j: int| 0 <= j < d.len() && q[i] == d[j];
                    assert(sorted[j] == d[j]);
                }
            } else {
                assert(r[i] == sorted[sorted.len() - 1]);
            }
        }
        assert forall|i: int, j: int| 0 <= i < j < r.len() implies r[i].rssi_dbm >= r[j].rssi_dbm by {
            if j < q.len() {
                assert(r[i] == q[i] && r[j] == q[j]);
            } else {
                assert(r[i] == q[i]);
                assert(r[j] == last);
                if q[i] != e {
                    let k = choose|k: int| 0 <= k < d.len() && q[i] == d[k];
                    assert(sorted[k] == d[k]);
                }
            }
        }
    }
}

/// The strongest-BSS table: every entry of the scan, once, in falling order
/// of signal, cut to the first fifteen (all of them when there are fewer).
pub proof fn lemma_strongest_table(s: Seq<BssRow>)
    ensures
        by_rssi(s).len() == s.len(),
        by_rssi(s).to_multiset() == s.to_multiset(),
        forall|i: int, j: int| 0 <= i < j < by_rssi(s).len() ==> by_rssi(s)[i].rssi_dbm >= by_rssi(s)[j].rssi_dbm,
        strongest(s).len() == if s.len() < 15 { s.len() } else { 15 },
        strongest(s) == by_rssi(s).take(strongest(s).len() as int),
    decreases s.len(),
{
    broadcast use vstd::seq_lib::group_to_multiset_ensures;

    if s.len() > 0 {
        lemma_strongest_table(s.drop_last());
        lemma_insert_by_rssi(by_rssi(s.drop_last()), s.last());
        assert(s == s.drop_last().push(s.last()));
    }
}

} // verus!
