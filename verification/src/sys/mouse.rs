//! Mouse packets: decoding the three bytes of a PS/2 mouse packet into a
//! movement and button state, and the queue that carries the events from
//! the interrupt handler to the program.
use vstd::prelude::*;
use nolock::queues::mpmc::bounded::scq::{Receiver, Sender};
use nolock::queues::{DequeueError, EnqueueError};

verus! {

/// One mouse report: the movement since the last report and the pressed
/// buttons (bit 0 left, bit 1 right, bit 2 middle).
#[derive(Clone, Copy, PartialEq, Eq, Structural, Debug)]
pub struct MouseEvent {
    pub x_movement: i8,
    pub y_movement: i8,
    pub buttons: u8,
}

impl MouseEvent {
    /// The left button is pressed.
    pub open spec fn left_pressed(self) -> bool {
        self.buttons & 0x01u8 != 0
    }

    /// Whether the left button is pressed.
    pub fn is_left_click(&self) -> (r: bool)
        ensures
            r == self.left_pressed(),
    {
        self.buttons & 0x01 != 0
    }

    /// Whether the right button is pressed.
    pub fn is_right_click(&self) -> (r: bool)
        ensures
            r == (self.buttons & 0x02u8 != 0),
    {
        self.buttons & 0x02 != 0
    }

    /// Whether the middle button is pressed.
    pub fn is_middle_click(&self) -> (r: bool)
        ensures
            r == (self.buttons & 0x04u8 != 0),
    {
        self.buttons & 0x04 != 0
    }
}

/// The mouse device; it turns the packets read from the controller into
/// events.
pub struct Mouse {}

impl Mouse {
    /// Creates the mouse device.
    pub fn new() -> Mouse {
        Mouse {}
    }

    /// The event of a complete packet `[status, dx, dy]`: the horizontal
    /// movement is `dx`, the vertical movement `-dy` (the device counts
    /// upwards, the screen downwards), and the buttons are the low three
    /// bits of the status byte. No packet gives no event.
    pub fn internal_irq_handler(&self, mouse_data: Option<[u8; 3]>) -> (event: Option<MouseEvent>)
        requires
            mouse_data matches Some(d) ==> d@[2] != 0x80u8,
        ensures
            mouse_data is None ==> event is None,
            mouse_data matches Some(d) ==> event == Some(
                MouseEvent {
                    x_movement: d@[1] as i8,
                    y_movement: (-(d@[2] as i8)) as i8,
                    buttons: d@[0] & 0x07u8,
                },
            ),
    {
        if let Some(mouse_data) = mouse_data {
            let b = mouse_data[2];
            assert((b as i8) != i8::MIN) by (bit_vector)
                requires
                    b != 0x80u8,
            ;
            let dy = b as i8;
            Some(
                MouseEvent {
                    x_movement: mouse_data[1] as i8,
                    y_movement: -dy,
                    buttons: mouse_data[0] & 0x07,
                },
            )
        } else {
            None
        }
    }
}

#[verifier::external_type_specification]
#[verifier::external_body]
#[verifier::reject_recursive_types(T)]
pub struct ExScqReceiver<T>(Receiver<T>);

#[verifier::external_type_specification]
#[verifier::external_body]
#[verifier::reject_recursive_types(T)]
pub struct ExScqSender<T>(Sender<T>);

#[verifier::external_type_specification]
#[verifier::external_body]
pub struct ExEnqueueError(EnqueueError);

#[verifier::external_type_specification]
#[verifier::external_body]
pub struct ExDequeueError(DequeueError);

/// The number of events a lock-free queue can hold, fixed when the queue
/// is made (see `scq_queue`).
pub uninterp spec fn scq_capacity(receiver: Receiver<MouseEvent>) -> nat;

/// Calls `nolock::queues::mpmc::bounded::scq::queue`, which makes a
/// lock-free queue for up to `capacity` events and returns its receiving
/// and sending half; the receiving half's capacity is `capacity` (the
/// queue keeps it as its size and sizes its buffer by it). Nothing else is
/// claimed of the halves. The capacity is at least 1 (the queue computes
/// `2 * capacity - 1`) and small enough that its buffer of `2 * capacity`
/// eight-byte entries can be sized.
#[verifier::external_body]
fn scq_queue(capacity: usize) -> (halves: (Receiver<MouseEvent>, Sender<MouseEvent>))
    requires
        0 < capacity <= isize::MAX / 16,
    ensures
        scq_capacity(halves.0) == capacity,
{
    nolock::queues::mpmc::bounded::scq::queue(capacity)
}

/// Calls `Sender::try_enqueue`, which adds the event to the queue or hands
/// the same event back with the reason (full, or closed by the receiving
/// side). Which of these happens depends on the other users of the queue,
/// so only that an event handed back is the one given is claimed.
#[verifier::external_body]
fn scq_try_enqueue(sender: &Sender<MouseEvent>, event: MouseEvent) -> (r: Result<(), (EnqueueError, MouseEvent)>)
    ensures
        r matches Err((_, e)) ==> e == event,
{
    sender.try_enqueue(event)
}

/// Calls `Receiver::try_dequeue`, which takes the oldest event from the
/// queue, or reports that it is empty or closed. What comes back depends
/// on the other users of the queue, so nothing is claimed of the result.
#[verifier::external_body]
fn scq_try_dequeue(receiver: &Receiver<MouseEvent>) -> Result<MouseEvent, DequeueError> {
    receiver.try_dequeue()
}

/// The queue of mouse events between the interrupt handler, which pushes,
/// and the program, which takes them. It holds both halves of a lock-free
/// queue, so neither side is ever closed while it exists.
pub struct MouseQueue {
    receiver: Receiver<MouseEvent>,
    sender: Sender<MouseEvent>,
}

/// The event that a take from the queue gives: the dequeued event, or
/// `None` when the queue reported it empty or closed.
pub fn event_from_dequeue(taken: Result<MouseEvent, DequeueError>) -> (event: Option<MouseEvent>)
    ensures
        event == (match taken {
            Ok(key) => Some(key),
            Err(_) => None,
        }),
{
    match taken {
        Ok(key) => Some(key),
        Err(_) => None,
    }
}

impl MouseQueue {
    /// The number of events the queue can hold.
    pub closed spec fn capacity(&self) -> nat {
        scq_capacity(self.receiver)
    }

    /// An empty queue with room for 128 events.
    pub fn new() -> (q: MouseQueue)
        ensures
            q.capacity() == 128,
    {
        let (receiver, sender) = scq_queue(128);
        MouseQueue { receiver, sender }
    }

    /// Queues an event; it is dropped when the queue is full.
    pub fn push_event(&self, key: MouseEvent) {
        let _ = scq_try_enqueue(&self.sender, key);
    }

    /// Takes the oldest queued event, or `None` when there is none (see
    /// `event_from_dequeue`).
    pub fn get_last_event(&self) -> Option<MouseEvent> {
        event_from_dequeue(scq_try_dequeue(&self.receiver))
    }
}

} // verus!
