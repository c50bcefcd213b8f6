use kaleidoscope_focus::{ConnectionOptions, FocusBuilder};

#[test]
fn builder_defaults() {
    let b = FocusBuilder::create("/dev/ttyACM0");
    assert_eq!(b.device, "/dev/ttyACM0");
    assert_eq!(b.chunk_size, 32);
    assert_eq!(b.interval, 50);
}

#[test]
fn builder_overrides() {
    let b = FocusBuilder::create("/dev/x").chunk_size(0).interval(100);
    assert_eq!(b.device, "/dev/x");
    assert_eq!(b.chunk_size, 0);
    assert_eq!(b.interval, 100);
}

#[test]
fn connection_options_defaults() {
    let opts = ConnectionOptions::default();
    assert!(opts.device.is_none());
    assert_eq!(opts.chunk_size, 32);
    assert!(!opts.quiet);
}
