use vstd::prelude::*;

verus! {

/// Number of message slots in the ring buffer's backing array; one slot
/// always stays empty, so the queue holds one item less than this.
pub const QUEUE_SLOTS: usize = 17;

/// Number of messages the queue can hold at once.
pub const QUEUE_CAPACITY: usize = 16;

/// A command that the consumer acts on.
#[derive(Clone, Copy, Debug, PartialEq, Eq, Structural)]
pub enum CommandType {
    Start,
    Stop,
    Reset,
}

/// A tagged message handed from producer to consumer by value.
#[derive(Clone, Copy, Debug, PartialEq, Eq, Structural)]
pub enum Message {
    SensorData(u16),
    Command(CommandType),
}

/// Error returned by a queue that is already full: the message comes back.
#[derive(Clone, Copy, Debug, PartialEq, Eq, Structural)]
pub struct QueueFull(pub Message);

#[verifier::external_type_specification]
#[verifier::external_body]
#[verifier::reject_recursive_types(T)]
pub struct ExSpscQueue<T, const N: usize>(heapless::spsc::Queue<T, N>);

/// The messages held by a `heapless` queue, front first.
pub uninterp spec fn spsc_contents(q: heapless::spsc::Queue<Message, 17>) -> Seq<Message>;

/// Relies on heapless::spsc::Queue::new: a new queue is empty.
#[verifier::external_body]
fn spsc_new() -> (r: heapless::spsc::Queue<Message, 17>)
    ensures
        spsc_contents(r) == Seq::<Message>::empty(),
{
    heapless::spsc::Queue::new()
}

/// Relies on heapless::spsc::Queue::enqueue: the item goes to the back
/// unless `N - 1` items are already held, in which case it is handed back
/// (here as `Some`) and the queue is left as it was.
#[verifier::external_body]
fn spsc_enqueue(q: &mut heapless::spsc::Queue<Message, 17>, m: Message) -> (rejected: Option<Message>)
    ensures
        rejected is None <==> spsc_contents(*old(q)).len() < QUEUE_CAPACITY,
        rejected is None ==> spsc_contents(*final(q)) == spsc_contents(*old(q)).push(m),
        rejected is Some ==> rejected == Some(m),
        rejected is Some ==> spsc_contents(*final(q)) == spsc_contents(*old(q)),
{
    q.enqueue(m).err()
}

/// Relies on heapless::spsc::Queue::dequeue: the front item is removed and
/// returned, or `None` comes back from an empty queue, which stays empty.
#[verifier::external_body]
fn spsc_dequeue(q: &mut heapless::spsc::Queue<Message, 17>) -> (r: Option<Message>)
    ensures
        r is None <==> spsc_contents(*old(q)).len() == 0,
        r is None ==> spsc_contents(*final(q)) == spsc_contents(*old(q)),
        r is Some ==> r == Some(spsc_contents(*old(q))[0]),
        r is Some ==> spsc_contents(*final(q)) == spsc_contents(*old(q)).drop_first(),
{
    q.dequeue()
}

/// Bounded single-producer/single-consumer FIFO of messages.
pub struct MessageQueue {
    inner: heapless::spsc::Queue<Message, 17>,
}

impl MessageQueue {
    /// The messages held, front first.
    pub closed spec fn view(&self) -> Seq<Message> {
        spsc_contents(self.inner)
    }

    /// Never more than the capacity is held.
    pub closed spec fn wf(&self) -> bool {
        self@.len() <= QUEUE_CAPACITY
    }

    pub fn new() -> (r: MessageQueue)
        ensures
            r.wf(),
            r@ == Seq::<Message>::empty(),
    {
        MessageQueue { inner: spsc_new() }
    }

    pub fn capacity(&self) -> (r: usize)
        ensures
            r == QUEUE_CAPACITY,
    {
        QUEUE_CAPACITY
    }

    /// Appends `msg` at the back; a full queue hands it back in `QueueFull`.
    pub fn enqueue(&mut self, msg: Message) -> (r: Result<(), QueueFull>)
        requires
            old(self).wf(),
        ensures
            final(self).wf(),
            old(self)@.len() < QUEUE_CAPACITY <==> r is Ok,
            r is Ok ==> final(self)@ == old(self)@.push(msg),
            r is Err ==> r == Err::<(), QueueFull>(QueueFull(msg)) && final(self)@ == old(self)@,
    {
        match spsc_enqueue(&mut self.inner, msg) {
            None => Ok(()),
            Some(m) => Err(QueueFull(m)),
        }
    }

    /// Removes the front message; `None` when the queue is empty.
    pub fn dequeue(&mut self) -> (r: Option<Message>)
        requires
            old(self).wf(),
        ensures
            final(self).wf(),
            old(self)@.len() == 0 ==> r is None && final(self)@ == old(self)@,
            old(self)@.len() > 0 ==> r == Some(old(self)@[0]) && final(self)@
                == old(self)@.drop_first(),
    {
        spsc_dequeue(&mut self.inner)
    }
}

impl MessageQueue {
    /// Removes every message, front first: the result is the queue's whole
    /// content in insertion order, and the queue is then empty.
    pub fn drain(&mut self) -> (out: Vec<Message>)
        requires
            old(self).wf(),
        ensures
            final(self).wf(),
            out@ == old(self)@,
            final(self)@.len() == 0,
    {
        let mut out: Vec<Message> = Vec::new();
        let mut done = false;
        while !done
            invariant
                self.wf(),
                out@ + self@ == old(self)@,
                done ==> self@.len() == 0,
            decreases self@.len() + if done { 0int } else { 1int },
        {
            let ghost before = self@;
            match self.dequeue() {
                None => {
                    done = true;
                },
                Some(m) => {
                    out.push(m);
                    assert(out@ + self@ =~= old(self)@) by {
                        assert(before =~= seq![m] + before.drop_first());
                    }
                },
            }
        }
        out
    }
}

/// Decides what the consumer does with a sensor sample: every sample starts
/// the operation.
pub fn process_sensor_data(value: u16) -> (r: CommandType)
    ensures
        r == CommandType::Start,
{
    CommandType::Start
}

} // verus!
