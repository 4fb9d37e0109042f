use quick_xml_to_json::xml_to_json_from_slice;
use std::time::Instant;

fn generate_xml(n: usize) -> String {
    let mut xml = String::from("<root>\n");
    for i in 1..=n {
        xml.push_str(&format!(
            "    <item id=\"{i}\" category=\"test\">Item number {i}</item>\n"
        ));
    }
    xml.push_str("</root>");
    xml
}

/// Catch catastrophic performance regressions (algorithmic changes, lost optimizations).
///
/// These thresholds are intentionally generous so they remain stable across
/// environments and slow machines. They are NOT meant to detect small
/// constant-factor regressions.
#[test]
fn throughput_does_not_regress_catastrophically() {
    let xml = generate_xml(10_000);
    let input = xml.as_bytes();

    // Warm up the allocator
    let _ = xml_to_json_from_slice(input);

    // Timed run
    let start = Instant::now();
    let out = xml_to_json_from_slice(input);
    let elapsed = start.elapsed();
    assert!(out.is_ok());

    assert!(
        elapsed.as_millis() < 500,
        "10k element conversion took {elapsed:?}, expected < 500ms — possible performance regression"
    );
}

#[test]
fn deeply_nested_xml_does_not_regress() {
    // Build deeply nested XML to stress the stack path
    let depth = 200;
    let mut xml = String::new();
    for i in 0..depth {
        xml.push_str(&format!("<level{i}>"));
    }
    xml.push_str("leaf");
    for i in (0..depth).rev() {
        xml.push_str(&format!("</level{i}>"));
    }

    let input = xml.as_bytes();

    let start = Instant::now();
    let out = xml_to_json_from_slice(input);
    let elapsed = start.elapsed();
    assert!(out.is_ok());

    assert!(
        elapsed.as_millis() < 100,
        "deeply nested conversion took {elapsed:?}, expected < 100ms — possible performance regression"
    );
}
