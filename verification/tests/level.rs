//! Tests of the compression levels.

use rcn::codec::CodecMode;
use rcn::level::Level;

#[test]
fn aliases_map() {
    assert_eq!(Level::from_i32(1), Some(Level::Wire));
    assert_eq!(Level::from_i32(-1), Some(Level::Wire));
    assert_eq!(Level::from_i32(3), Some(Level::General));
    assert_eq!(Level::from_i32(-9), Some(Level::Archive));
    assert_eq!(Level::from_i32(19), Some(Level::Max));
    assert_eq!(Level::from_i32(2), None);
}

#[test]
fn default_is_archive() {
    assert_eq!(Level::default().mode(), CodecMode::Hybrid);
    assert_eq!(Level::default().number(), 9);
}
