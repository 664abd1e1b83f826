use vstd::prelude::*;

verus! {

#[derive(PartialEq, Eq, Structural, Debug, Clone, Copy)]
pub enum State {
    Continue,
    Stop,
}

/// Takes items one at a time, and says after each whether it wants more.
pub trait Receiver<I, E> {
    fn start(&mut self) -> State;

    fn next(&mut self, item: Result<I, E>) -> State;

    fn finish(&mut self);
}

/// A receiver that keeps every item, in order, and always wants more.
pub struct CapturingReceiver<I, E> {
    pub items: Vec<Result<I, E>>,
}

impl<I, E> CapturingReceiver<I, E> {
    pub fn new() -> (r: CapturingReceiver<I, E>)
        ensures
            r.items@.len() == 0,
    {
        CapturingReceiver { items: Vec::new() }
    }
}

impl<I, E> Receiver<I, E> for CapturingReceiver<I, E> {
    fn start(&mut self) -> (r: State) {
        State::Continue
    }

    fn next(&mut self, item: Result<I, E>) -> (r: State) {
        self.items.push(item);
        State::Continue
    }

    fn finish(&mut self) {
    }
}

impl<I, E> CapturingReceiver<I, E> {
    /// What `next` does here: keeps the item after the others.
    pub fn keep(&mut self, item: Result<I, E>) -> (r: State)
        ensures
            final(self).items@ == old(self).items@.push(item),
            r == State::Continue,
    {
        self.items.push(item);
        State::Continue
    }
}

/// Sends `items` in order to `receiver`, each as `Ok`, unless it declines to
/// start or asks to stop; then tells it that the items are done, unless it
/// declined to start. Returns how many items it was given.
pub fn send<I: Copy, E, R: Receiver<I, E>>(items: &Vec<I>, receiver: &mut R) -> (r: usize)
    ensures
        r <= items@.len(),
{
    if receiver.start() == State::Stop {
        return 0;
    }
    let mut k: usize = 0;
    while k < items.len()
        invariant
            k <= items@.len(),
        decreases items@.len() - k,
    {
        let item = items[k];
        k = k + 1;
        if receiver.next(Ok(item)) == State::Stop {
            break;
        }
    }
    receiver.finish();
    k
}

/// The items that `send` hands a capturing receiver: all of them, in order.
pub fn capture<I: Copy, E>(items: &Vec<I>, receiver: &mut CapturingReceiver<I, E>)
    ensures
        final(receiver).items@.len() == old(receiver).items@.len() + items@.len(),
        forall|k: int| 0 <= k < old(receiver).items@.len() ==> #[trigger] final(receiver).items@[k] == old(receiver).items@[k],
        forall|k: int| 0 <= k < items@.len() ==> #[trigger] final(receiver).items@[old(receiver).items@.len() + k] == Ok::<I, E>(items@[k]),
{
    let mut k: usize = 0;
    while k < items.len()
        invariant
            k <= items@.len(),
            receiver.items@.len() == old(receiver).items@.len() + k,
            forall|j: int| 0 <= j < old(receiver).items@.len() ==> #[trigger] receiver.items@[j] == old(receiver).items@[j],
            forall|j: int| 0 <= j < k ==> #[trigger] receiver.items@[old(receiver).items@.len() + j] == Ok::<I, E>(items@[j]),
        decreases items@.len() - k,
    {
        let item = items[k];
        receiver.keep(Ok(item));
        k = k + 1;
    }
}

} // verus!
