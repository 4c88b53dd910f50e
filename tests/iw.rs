use ap_scanner::iw::{parse_record, RecordError, Scanner};
use ap_scanner::wifi::{Frequency, Width};

fn record(mac: &str, freq: u16, signal: &str, ssid: &str, channel: u8, width: &str) -> String {
    format!(
        "{}(on wlp3s0)\n\tTSF: 123 usec (0d, 00:00:00)\n\tfreq: {}\n\tbeacon interval: 100 TUs\n\
         \tcapability: ESS Privacy (0x0411)\n\tsignal: {} dBm\n\tlast seen: 10 ms ago\n\
         \tInformation elements from Probe Response frame:\n\tSSID: {}\n\tSupported rates: 1.0* 2.0*\n\
         \tBSS Load:\n\t\t * station count: 3\n\tHT operation:\n\t\t * primary channel: {}\n\
         \t\t * secondary channel offset: no secondary\n\t\t * STA channel width: {}\n",
        mac, freq, signal, ssid, channel, width
    )
}

#[test]
fn reads_a_record() {
    let w = parse_record(&record("00:11:22:33:44:55", 2437, "-45.00", "HomeNet", 6, "20 MHz")).unwrap();
    assert_eq!(w.mac, "00:11:22:33:44:55");
    assert_eq!(w.ssid, "HomeNet");
    assert_eq!(w.channel, 6);
    assert_eq!(w.signal_mdbm, -45000);
    assert_eq!(w.frequency, Frequency::Freq2400MHz(2437));
    assert_eq!(w.width, Width::MHz20);
}

#[test]
fn reads_a_5ghz_record() {
    let w = parse_record(&record("aa:bb:cc:dd:ee:ff", 5180, "-67.125", "Office", 36, "80 MHz")).unwrap();
    assert_eq!(w.frequency, Frequency::Freq5000MHz(5180));
    assert_eq!(w.signal_mdbm, -67125);
    assert_eq!(w.channel, 36);
    assert_eq!(w.width, Width::MHz80);
}

#[test]
fn signal_keeps_three_decimals() {
    let w = parse_record(&record("m", 2412, "-50.5678", "x", 1, "20 MHz")).unwrap();
    assert_eq!(w.signal_mdbm, -50567);
    let w = parse_record(&record("m", 2412, "3", "x", 1, "20 MHz")).unwrap();
    assert_eq!(w.signal_mdbm, 3000);
}

#[test]
fn rejects_malformed_records() {
    assert_eq!(parse_record("").err(), Some(RecordError::Malformed));
    let bad_freq = record("m", 2412, "-45.00", "x", 1, "20 MHz").replace("freq: 2412", "freq: fast");
    assert_eq!(parse_record(&bad_freq).err(), Some(RecordError::Malformed));
    let bad_signal = record("m", 2412, "-4x.00", "x", 1, "20 MHz");
    assert_eq!(parse_record(&bad_signal).err(), Some(RecordError::Malformed));
    let bad_width = record("m", 2412, "-45.00", "x", 1, "30 MHz");
    assert_eq!(parse_record(&bad_width).err(), Some(RecordError::Malformed));
    let no_ht = record("m", 2412, "-45.00", "x", 1, "20 MHz").replace("HT operation", "VHT operation");
    assert_eq!(parse_record(&no_ht).err(), Some(RecordError::Malformed));
}

#[test]
fn splits_scan_output_into_records() {
    let text = format!(
        "BSS {}BSS {}BSS broken(on wlp3s0)\n",
        record("00:00:00:00:00:01", 2412, "-40.00", "One", 1, "20 MHz"),
        record("00:00:00:00:00:02", 5745, "-70.00", "Two", 149, "40 MHz"),
    );
    let found = Scanner::parse_output(&text);
    assert_eq!(found.len(), 2);
    assert_eq!(found[0].ssid, "One");
    assert_eq!(found[1].ssid, "Two");
    assert_eq!(found[1].width, Width::MHz40);
    assert_eq!(Scanner::parse_output("").len(), 0);
}

#[test]
fn records_need_a_leading_bss() {
    // Text as it is once the inner `BSS` words are lowered.
    let one = record("00:00:00:00:00:01", 2412, "-40.00", "One", 1, "20 MHz").replace("\tBSS", "\tbss");
    assert_eq!(Scanner::records(&one).len(), 0);
    assert_eq!(Scanner::records(&format!("header\nBSS {}", one)).len(), 1);
    // Left as they are, the inner words cut the record short.
    let raw = record("00:00:00:00:00:01", 2412, "-40.00", "One", 1, "20 MHz");
    assert_eq!(Scanner::records(&format!("BSS {}", raw)).len(), 0);
}

#[test]
fn reads_crlf_lines() {
    let text = record("00:11:22:33:44:55", 2462, "-52.00", "Lab", 11, "40 MHz").replace('\n', "\r\n");
    let w = parse_record(&text).unwrap();
    assert_eq!(w.ssid, "Lab");
    assert_eq!(w.width, Width::MHz40);
    assert_eq!(w.channel, 11);
    let found = Scanner::parse_output(&format!("BSS {}", text));
    assert_eq!(found.len(), 1);
    assert_eq!(found[0].mac, "00:11:22:33:44:55");
}
