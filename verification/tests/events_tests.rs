use tztui::events::{poll_timeout, producer_pass, Event, Key};

#[test]
fn the_poll_timeout_is_clamped_to_the_time_left() {
    assert_eq!(poll_timeout(100, 0), 100);
    assert_eq!(poll_timeout(100, 30), 70);
    assert_eq!(poll_timeout(100, 99), 1);
    assert_eq!(poll_timeout(100, 100), 0);
    assert_eq!(poll_timeout(100, 250), 0);
}

#[test]
fn a_pass_forwards_the_key_and_tracks_the_tick() {
    let (event, tick, elapsed) = producer_pass(100, 40, Some((10, Key::Char('x'))));
    assert!(matches!(event, Some(Event::Input(Key::Char('x')))));
    assert!(!tick);
    assert_eq!(elapsed, 50);

    let (event, tick, elapsed) = producer_pass(100, 40, None);
    assert!(event.is_none());
    assert!(tick);
    assert_eq!(elapsed, 0);
}

#[test]
fn a_tick_still_comes_under_an_input_stream_that_never_pauses() {
    let tick_rate: u64 = 100;
    let mut elapsed: u64 = 0;
    let mut waited: u64 = 0;
    let mut ticks: u32 = 0;
    // A key arrives every 7 ms, always before the poll times out.
    for _ in 0..1000 {
        let timeout = poll_timeout(tick_rate, elapsed);
        let delay = if 7 <= timeout { 7 } else { timeout };
        let (event, tick, next_elapsed) = producer_pass(tick_rate, elapsed, Some((delay, Key::Null)));
        assert!(event.is_some());
        waited += delay;
        if tick {
            // Never later than one interval of waited time.
            assert!(waited <= tick_rate);
            waited = 0;
            ticks += 1;
        }
        elapsed = next_elapsed;
        assert!(elapsed < tick_rate);
    }
    assert!(ticks >= 50);
}
