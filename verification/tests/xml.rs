use radiochron::events::xml::{attribute, element_text, epoch_from_iso8601, event_data, unescape};

const SAMPLE: &str = r#"<Event xmlns='http://schemas.microsoft.com/win/2004/08/events/event'>
<System><Provider Name='Microsoft-Windows-WLAN-AutoConfig'/><EventID>8002</EventID>
<TimeCreated SystemTime='2026-07-20T08:50:30.1234567Z'/></System>
<EventData><Data Name='InterfaceGuid'>{4b763cb5}</Data><Data Name='SSID'>MIXER &amp; Co</Data>
<Data Name='ReasonCode'>229396</Data><Data Name='Empty'/></EventData></Event>"#;

#[test]
fn extracts_id_time_and_named_data() {
    assert_eq!(element_text(SAMPLE, "EventID").as_deref(), Some("8002"));
    assert_eq!(
        attribute(SAMPLE, "TimeCreated", "SystemTime").as_deref(),
        Some("2026-07-20T08:50:30.1234567Z")
    );

    let (data, named) = event_data(SAMPLE);
    assert!(named);
    assert_eq!(data.get("SSID").unwrap(), "MIXER & Co");
    assert_eq!(data.get("ReasonCode").unwrap(), "229396");
    assert_eq!(data.get("Empty").unwrap(), "");
}

#[test]
fn positional_data_is_flagged_rather_than_silently_empty() {
    let doc = "<Event><EventData><Data>alpha</Data><Data>beta</Data></EventData></Event>";
    let (data, named) = event_data(doc);

    assert!(
        !named,
        "unnamed data must be reported, not treated as named"
    );
    assert_eq!(data.get("0").unwrap(), "alpha");
    assert_eq!(data.get("1").unwrap(), "beta");
}

#[test]
fn an_event_without_event_data_is_not_an_error() {
    let (data, named) = event_data("<Event><System><EventID>8011</EventID></System></Event>");
    assert!(data.is_empty());
    assert!(named);
}

#[test]
fn entities_decode_without_double_decoding() {
    assert_eq!(unescape("a &amp;lt; b"), "a &lt; b");
    assert_eq!(unescape("x &lt; y &amp; z"), "x < y & z");
}

#[test]
fn iso8601_round_trips_against_the_formatter() {
    assert_eq!(epoch_from_iso8601("1970-01-01T00:00:00Z"), Some(0));
    assert_eq!(
        epoch_from_iso8601("2024-01-01T00:00:00.000Z"),
        Some(1_704_067_200)
    );
    assert_eq!(
        epoch_from_iso8601("2000-02-29T12:00:00Z"),
        Some(951_825_600)
    );
    assert_eq!(epoch_from_iso8601("not a timestamp"), None);
}

#[test]
fn attribute_accepts_either_quote_style() {
    assert_eq!(attribute("<T A=\"v\"/>", "T", "A").as_deref(), Some("v"));
    assert_eq!(attribute("<T A='v'/>", "T", "A").as_deref(), Some("v"));
}

#[test]
fn missing_pieces_are_none() {
    assert_eq!(element_text("<A>x", "A"), None);
    assert_eq!(element_text("<B>x</B>", "A"), None);
    assert_eq!(element_text("<A", "A"), None);
    assert_eq!(attribute("<T B='v'/>", "T", "A"), None);
    assert_eq!(attribute("<T A='v/>", "T", "A"), None);
    assert_eq!(attribute("<T A='v'", "T", "A"), None);
}

#[test]
fn element_text_and_attribute_decode_entities() {
    assert_eq!(element_text("<A k='1'>&quot;q&apos;</A>", "A").as_deref(), Some("\"q'"));
    assert_eq!(attribute("<T A='&gt;'/>", "T", "A").as_deref(), Some(">"));
}

#[test]
fn later_data_with_the_same_name_wins_and_unterminated_data_ends_the_scan() {
    let doc = "<EventData><Data Name='x'>1</Data><Data Name=\"x\">2</Data><Data Name='y'>3";
    let (data, named) = event_data(doc);
    assert!(named);
    assert_eq!(data.get("x").unwrap(), "2");
    assert!(data.get("y").is_none());
    assert_eq!(data.len(), 1);
}

#[test]
fn iso8601_rejects_malformed_fields() {
    assert_eq!(epoch_from_iso8601("2024-01-01 00:00:00Z"), None);
    assert_eq!(epoch_from_iso8601("2024/01-01T00:00:00Z"), None);
    assert_eq!(epoch_from_iso8601("2024-0a-01T00:00:00Z"), None);
    assert_eq!(epoch_from_iso8601("2024--1-01T00:00:00Z"), None);
    assert_eq!(epoch_from_iso8601("2024-01-01T00:00:0"), None);
    assert_eq!(epoch_from_iso8601("2024-+1-01T00:00:00Z"), None);
    assert_eq!(epoch_from_iso8601("1970-01-01T-1:00:00Z"), None);
    assert_eq!(epoch_from_iso8601("+024-01-01T00:00:00Z"), None);
    assert_eq!(epoch_from_iso8601("2024-01-01T00x00x00Z"), None);
    assert_eq!(epoch_from_iso8601("2024-01-01T00:00x00Z"), None);
    assert_eq!(epoch_from_iso8601("2024x01-01T00:00:00Z"), None);
}

#[test]
fn iso8601_rejects_dates_and_times_off_the_calendar() {
    assert_eq!(epoch_from_iso8601("2024-13-01T00:00:00Z"), None);
    assert_eq!(epoch_from_iso8601("2024-00-01T00:00:00Z"), None);
    assert_eq!(epoch_from_iso8601("2024-04-31T00:00:00Z"), None);
    assert_eq!(epoch_from_iso8601("2023-02-29T00:00:00Z"), None);
    assert_eq!(epoch_from_iso8601("1900-02-29T00:00:00Z"), None);
    assert_eq!(epoch_from_iso8601("2024-01-00T00:00:00Z"), None);
    assert_eq!(epoch_from_iso8601("2024-01-01T24:00:00Z"), None);
    assert_eq!(epoch_from_iso8601("2024-01-01T00:60:00Z"), None);
    assert_eq!(epoch_from_iso8601("2024-01-01T00:00:60Z"), None);
    assert_eq!(epoch_from_iso8601("2024-02-29T00:00:00Z"), Some(1_709_164_800));
    assert_eq!(epoch_from_iso8601("2000-02-29T23:59:59Z"), Some(951_868_799));
}

#[test]
fn names_must_end_where_the_tag_name_ends() {
    let doc = "<Keywords><Keyword>Audit</Keyword></Keywords>";
    assert_eq!(element_text(doc, "Keyword").as_deref(), Some("Audit"));
    assert_eq!(element_text("<TimeCreated/><T>x</T>", "T").as_deref(), Some("x"));
    assert_eq!(attribute("<TimeCreated SystemTime='a'/><T SystemTime='b'/>", "T", "SystemTime").as_deref(), Some("b"));
    assert_eq!(element_text("<Keywords>x</Keywords>", "Keyword"), None);
    let (fields, named) = event_data("<EventData><DataX Name='a'>1</DataX><Data Name='b'>2</Data></EventData>");
    assert!(named);
    assert_eq!(fields.len(), 1);
    assert_eq!(fields.get("b").map(String::as_str), Some("2"));
}

#[test]
fn attribute_keys_must_start_after_whitespace() {
    assert_eq!(attribute("<T XA='1' A='2'/>", "T", "A").as_deref(), Some("2"));
    assert_eq!(attribute("<T XA='1'/>", "T", "A"), None);
    assert_eq!(attribute("<T\tA=\"3\"/>", "T", "A").as_deref(), Some("3"));
    let (fields, _) = event_data("<EventData><Data XName='x' Name='y'>v</Data></EventData>");
    assert_eq!(fields.get("y").map(String::as_str), Some("v"));
}
