use radiochron::diagnostic::{
    markdown, markdown_at, AdapterRow, AnalysisRows, AssociationRow, BandRow, BssRow, FindingRow,
};

fn bss(ssid: Option<&str>, bssid: &str, rssi: i32) -> BssRow {
    BssRow {
        ssid: ssid.map(ToString::to_string),
        bssid: bssid.to_string(),
        band: "5 GHz".to_string(),
        channel: Some(36),
        rssi_dbm: rssi,
        has_rsn: true,
    }
}

#[test]
fn report_lists_every_section() {
    let adapters = vec![
        AdapterRow { description: "Wi-Fi 1".to_string(), state: "disconnected".to_string(), connection: None },
        AdapterRow {
            description: "Wi-Fi 2".to_string(),
            state: "connected".to_string(),
            connection: Some(AssociationRow {
                ssid: Some("home".to_string()),
                bssid: None,
                phy_type: "802.11ax".to_string(),
                signal_quality: 80,
                rssi_dbm_estimate: -60,
                rx_rate_kbps: 600000,
                tx_rate_kbps: 300000,
            }),
        },
    ];
    let mut hidden = bss(None, "cc", -70);
    hidden.channel = None;
    hidden.has_rsn = false;
    let entries = vec![bss(Some("home"), "aa", -60), hidden];
    let analysis = AnalysisRows {
        bands: vec![BandRow {
            band: "5 GHz".to_string(),
            bss_count: 2,
            distinct_ssids: 1,
            distinct_channels: 1,
            strongest_dbm: None,
        }],
        findings: vec![FindingRow {
            severity: "warning".to_string(),
            title: "Open network".to_string(),
            caveat: "Check it.".to_string(),
        }],
    };
    let text = markdown_at(&adapters, &entries, &analysis, "2024-01-01T00:00:00Z");
    let expected = "# Wi-Fi Diagnostic Report\n\nGenerated: 2024-01-01T00:00:00Z\n\
Source: cached scan results \u{2014} call the wifi_scan tool to force a refresh.\n\n\
## Adapters\n\n\
- **Wi-Fi 1** \u{2014} disconnected\n\
- **Wi-Fi 2** \u{2014} connected\n\
\n## Association\n\n\
| SSID | BSSID | PHY | Quality | RSSI | Rx | Tx |\n|---|---|---|---|---|---|---|\n\
| home | \u{2014} | 802.11ax | 80/100 | -60 dBm | 600000 kbps | 300000 kbps |\n\
\n## Environment\n\n2 BSS visible.\n\n\
| Band | BSS | SSIDs | Channels | Strongest |\n|---|---|---|---|---|\n\
| 5 GHz | 2 | 1 | 1 | 0 dBm |\n\
\n## Findings\n\n### [warning] Open network\n\nCheck it.\n\n\
\n## Strongest BSS\n\n| SSID | BSSID | Band | Ch | RSSI | RSN |\n|---|---|---|---|---|---|\n\
| home | aa | 5 GHz | 36 | -60 | yes |\n\
| *hidden* | cc | 5 GHz | \u{2014} | -70 | no |\n\
\n---\n\nThis report lists SSIDs and BSSIDs of nearby networks, including neighbours'. \
A BSSID can be resolved to a street address through public geolocation databases \u{2014} \
treat it as location-identifying before sharing.\n";
    assert_eq!(text, expected);
}

#[test]
fn report_without_association_or_findings() {
    let adapters = vec![AdapterRow { description: "w".to_string(), state: "off".to_string(), connection: None }];
    let analysis = AnalysisRows { bands: Vec::new(), findings: Vec::new() };
    let text = markdown_at(&adapters, &Vec::new(), &analysis, "t");
    assert!(text.contains("\n## Association\n\nNot associated.\n"));
    assert!(text.contains("\n## Environment\n\n0 BSS visible.\n\n\n## Findings\n\nNone. Nothing in the environment looks wrong.\n"));
    let now = markdown(&adapters, &Vec::new(), &analysis);
    assert!(now.starts_with("# Wi-Fi Diagnostic Report\n\nGenerated: "));
}

#[test]
fn strongest_fifteen_in_stable_descending_order() {
    let mut entries = Vec::new();
    for i in 0..20 {
        entries.push(bss(Some(&format!("n{i}")), &format!("b{i}"), -90 + (i % 5) as i32));
    }
    let analysis = AnalysisRows { bands: Vec::new(), findings: Vec::new() };
    let text = markdown_at(&Vec::new(), &entries, &analysis, "t");
    let table: Vec<&str> = text
        .split("|---|---|---|---|---|---|\n")
        .nth(1)
        .unwrap()
        .lines()
        .take_while(|l| l.starts_with("| "))
        .collect();
    assert_eq!(table.len(), 15);
    let names: Vec<&str> = table.iter().map(|l| l.split(" | ").next().unwrap().trim_start_matches("| ")).collect();
    assert_eq!(
        names,
        vec!["n4", "n9", "n14", "n19", "n3", "n8", "n13", "n18", "n2", "n7", "n12", "n17", "n1", "n6", "n11"]
    );
}
