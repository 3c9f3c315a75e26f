use zeronix::stdio::{prefix, serial_bytes, should_print, transmit_ready, LogLevel};

#[test]
fn levels_at_or_above_the_current_print() {
    assert!(should_print(LogLevel::Error, LogLevel::Info));
    assert!(should_print(LogLevel::Info, LogLevel::Info));
    assert!(!should_print(LogLevel::Debug, LogLevel::Info));
    assert!(!should_print(LogLevel::Warning, LogLevel::Error));
    assert_eq!(LogLevel::Warning.rank(), 2);
}

#[test]
fn prefixes() {
    assert_eq!(prefix(LogLevel::Error), "[ERROR] ");
    assert_eq!(prefix(LogLevel::Warning), "[WARN]  ");
    assert_eq!(prefix(LogLevel::Info), "[INFO]  ");
    assert_eq!(prefix(LogLevel::Debug), "[DEBUG] ");
}

#[test]
fn serial_output_stops_at_nul() {
    assert_eq!(serial_bytes(b"abc\0def"), b"abc");
    assert_eq!(serial_bytes(b"abc"), b"abc");
    assert_eq!(serial_bytes(b"\0"), b"");
    assert!(transmit_ready(0x60));
    assert!(!transmit_ready(0x01));
}
