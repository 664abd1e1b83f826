use http_handler::transducers::{capture, send, CapturingReceiver, Receiver, State};

#[test]
fn can_map() {
    let items = vec![1, 2];
    let mut receiver: CapturingReceiver<i32, ()> = CapturingReceiver::new();
    send(&items, &mut receiver);
    assert_eq!(receiver.items.into_iter().filter_map(|result| result.ok()).collect::<Vec<_>>(), items);
}

struct StopAfterOne {
    seen: usize,
}

impl Receiver<i32, ()> for StopAfterOne {
    fn start(&mut self) -> State {
        State::Continue
    }

    fn next(&mut self, _item: Result<i32, ()>) -> State {
        self.seen += 1;
        State::Stop
    }

    fn finish(&mut self) {}
}

#[test]
fn send_stops_when_asked() {
    let mut r = StopAfterOne { seen: 0 };
    assert_eq!(send(&vec![1, 2, 3], &mut r), 1);
    assert_eq!(r.seen, 1);
    let mut c: CapturingReceiver<i32, ()> = CapturingReceiver::new();
    capture(&vec![4, 5], &mut c);
    assert_eq!(c.items, vec![Ok(4), Ok(5)]);
}
