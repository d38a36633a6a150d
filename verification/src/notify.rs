//! The notification channel between the supervised backend and the UI,
//! modelled as an explicit queue: senders append, the poller takes from
//! the front, and nothing is ever lost or reordered.

use vstd::prelude::*;

verus! {

/// A message for the UI.
#[derive(Debug, Clone, Copy, PartialEq, Eq, Structural)]
pub enum Notification {
    /// The supervised backend process exited on its own with this code.
    ServerExit { code: i32 },
}

/// The pending notifications, oldest first.
#[derive(Debug)]
pub struct NotificationChannel {
    queue: Vec<Notification>,
}

impl View for NotificationChannel {
    type V = Seq<Notification>;

    closed spec fn view(&self) -> Seq<Notification> {
        self.queue@
    }
}

impl NotificationChannel {
    /// An empty channel.
    pub fn new() -> (r: NotificationChannel)
        ensures
            r@ == Seq::<Notification>::empty(),
    {
        NotificationChannel { queue: Vec::new() }
    }

    /// How many notifications are pending.
    pub fn len(&self) -> (r: usize)
        ensures
            r == self@.len(),
    {
        self.queue.len()
    }
}

/// Queues a notification for the UI, after every already-pending one.
pub fn send_notification(channel: &mut NotificationChannel, message: Notification)
    ensures
        final(channel)@ == old(channel)@.push(message),
{
    channel.queue.push(message);
}

/// Takes the oldest pending notification, or nothing when none is
/// pending; the rest stay in order.
pub fn poll_notification(channel: &mut NotificationChannel) -> (r: Option<Notification>)
    ensures
        old(channel)@.len() == 0 ==> r is None && final(channel)@ == old(channel)@,
        old(channel)@.len() > 0 ==> r == Some(old(channel)@.first()) && final(channel)@ == old(
            channel,
        )@.drop_first(),
{
    if channel.queue.len() == 0 {
        None
    } else {
        let n = channel.queue.remove(0);
        proof {
            assert(channel@ =~= old(channel)@.drop_first());
        }
        Some(n)
    }
}

} // verus!
