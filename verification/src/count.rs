use std::sync::mpsc::Sender;
use vstd::prelude::*;

use crate::error::Error;
use crate::message::Message;
use crate::text::{is_last_index, lemma_split_at_last, lemma_trim_unpadded, after_last, chars_of, decimal, push_decimal, range_equals, split_last, trim, trim_range};

verus! {

/// `std::sync::mpsc::Sender`, declared so that a connection can hold one;
/// Verus sees nothing inside it.
#[verifier::external_type_specification]
#[verifier::external_body]
#[verifier::reject_recursive_types(T)]
pub struct ExSender<T>(Sender<T>);

/// The pairs that have been queued on the channel through the sender `sx`,
/// oldest first: what its receiving end gets, in that order.
pub uninterp spec fn queued_through(sx: Sender<(Message, u32)>) -> Seq<(Message, u32)>;

/// Calls `std::sync::mpsc::Sender::send` with the pair `(m, c)`, and gives
/// `Err(())` where it fails. As `send`'s documentation says, a successful
/// send queues the value after every earlier one, and a send fails, queuing
/// nothing, when the receiving end is gone. When that is depends on the rest
/// of the program: which outcome comes is not claimed.
#[verifier::external_body]
fn channel_send(sx: &mut Sender<(Message, u32)>, m: Message, c: u32) -> (r: Result<(), ()>)
    ensures
        r is Ok ==> queued_through(*final(sx)) == queued_through(*old(sx)).push((m, c)),
        r is Err ==> queued_through(*final(sx)) == queued_through(*old(sx)),
{
    sx.send((m, c)).map_err(|_| ())
}

/// The word that asks for counting on vsync.
pub open spec fn vsync_word() -> Seq<char> {
    seq!['v', 's', 'y', 'n', 'c']
}

/// The word that asks for counting on composition.
pub open spec fn soft_word() -> Seq<char> {
    seq!['s', 'o', 'f', 't']
}

/// The event to count on that the pipe's text `s` asks for: its last
/// `#`-separated piece, trimmed, is `vsync` or `soft`; anything else asks
/// for nothing.
pub open spec fn count_on_spec(s: Seq<char>) -> Option<Message> {
    let word = trim(split_last(s, '#'));
    if word == vsync_word() {
        Some(Message::Vsync)
    } else if word == soft_word() {
        Some(Message::Soft)
    } else {
        None
    }
}

/// Only the word after the last `#` decides: whatever comes before it,
/// and however many requests have piled up, the last one counts.
pub proof fn law_last_word_decides(p: Seq<char>, w: Seq<char>)
    requires
        forall|i: int| 0 <= i < w.len() ==> w[i] != '#',
    ensures
        count_on_spec(p + seq!['#'] + w) == count_on_spec(w),
        count_on_spec(p + seq!['#'] + soft_word()) == Some(Message::Soft),
        count_on_spec(p + seq!['#'] + vsync_word()) == Some(Message::Vsync),
{
    lemma_split_at_last(p, '#', w);
    lemma_split_at_last(p, '#', soft_word());
    lemma_split_at_last(p, '#', vsync_word());
    assert forall|i: int| 0 <= i < w.len() implies !is_last_index(w, '#', i) by {}
    assert(split_last(w, '#') == w);
    lemma_trim_unpadded(soft_word());
    lemma_trim_unpadded(vsync_word());
}

/// The bytes that report `c` events of kind `m`: `vsync:{c}#` or
/// `soft:{c}#`.
pub open spec fn count_message_spec(m: Message, c: nat) -> Seq<u8> {
    let prefix: Seq<u8> = match m {
        Message::Vsync => seq![118u8, 115u8, 121u8, 110u8, 99u8],
        Message::Soft => seq![115u8, 111u8, 102u8, 116u8],
    };
    prefix.push(58u8) + decimal(c).push(35u8)
}

/// The connection that reports event counts to the root daemon: the
/// channel to the thread that writes the count pipe, the event counted on,
/// and the path of the pipe through which the daemon changes it.
pub struct Connection {
    sx: Sender<(Message, u32)>,
    count_on: Message,
    count_on_path: String,
}

impl Connection {
    /// The event counted on.
    pub closed spec fn count_on_spec(&self) -> Message {
        self.count_on
    }

    /// The pairs handed to the count pipe's writer so far, oldest first.
    pub closed spec fn queued_spec(&self) -> Seq<(Message, u32)> {
        queued_through(self.sx)
    }

    /// The path of the pipe that sets the event counted on.
    pub closed spec fn count_on_path_spec(&self) -> Seq<char> {
        self.count_on_path@
    }

    /// The event to count on that the text `s` asks for, if any.
    pub fn parse_count_on(s: &str) -> (r: Option<Message>)
        ensures
            r == count_on_spec(s@),
    {
        let v = chars_of(s);
        let k = after_last(&v, 0, v.len(), '#');
        assert(v@.subrange(0, v.len() as int) =~= s@);
        let (lo, hi) = trim_range(&v, k, v.len());
        let vsync: Vec<char> = vec!['v', 's', 'y', 'n', 'c'];
        let soft: Vec<char> = vec!['s', 'o', 'f', 't'];
        assert(vsync@ =~= vsync_word());
        assert(soft@ =~= soft_word());
        if range_equals(&v, lo, hi, &vsync) {
            Some(Message::Vsync)
        } else if range_equals(&v, lo, hi, &soft) {
            Some(Message::Soft)
        } else {
            None
        }
    }

    /// The connection once the daemon's first message `first` has been
    /// read from the pipe at `count_on_path`: it counts on what that
    /// message asks for, or on vsync where it asks for nothing.
    pub fn new(sx: Sender<(Message, u32)>, first: &str, count_on_path: String) -> (r: Connection)
        ensures
            r.count_on_spec() == (match count_on_spec(first@) {
                Some(m) => m,
                None => Message::Vsync,
            }),
            r.count_on_path_spec() == count_on_path@,
            r.queued_spec() == queued_through(sx),
    {
        let count_on = match Self::parse_count_on(first) {
            Some(m) => m,
            None => Message::Vsync,
        };
        Connection { sx, count_on, count_on_path }
    }

    /// The path of the pipe that sets the event counted on.
    pub fn count_on_path(&self) -> (r: &String)
        ensures
            r@ == self.count_on_path_spec(),
    {
        &self.count_on_path
    }

    /// Hands `c` events of kind `m` to the thread that writes the count
    /// pipe: on success the pair is queued after every earlier one; where
    /// that thread is gone it fails and queues nothing.
    pub fn send_count(&mut self, m: Message, c: u32) -> (r: Result<(), Error>)
        ensures
            r is Ok ==> final(self).queued_spec() == old(self).queued_spec().push((m, c)),
            r is Err ==> r == Err::<(), Error>(Error::Other("Failed to send count"))
                && final(self).queued_spec() == old(self).queued_spec(),
            final(self).count_on_spec() == old(self).count_on_spec(),
            final(self).count_on_path_spec() == old(self).count_on_path_spec(),
    {
        match channel_send(&mut self.sx, m, c) {
            Ok(()) => Ok(()),
            Err(()) => Err(Error::Other("Failed to send count")),
        }
    }

    /// The event to count on now, given what was read from the pipe:
    /// what the text asks for, or the event counted on so far where
    /// nothing could be read or the text asks for nothing.
    pub fn required_count_on(&self, read: Option<&str>) -> (r: Message)
        ensures
            r == (match read {
                Some(s) => match count_on_spec(s@) {
                    Some(m) => m,
                    None => self.count_on_spec(),
                },
                None => self.count_on_spec(),
            }),
    {
        match read {
            Some(s) => match Self::parse_count_on(s) {
                Some(m) => m,
                None => self.count_on,
            },
            None => self.count_on,
        }
    }

    /// The bytes written to the count pipe for `c` events of kind `m`.
    pub fn count_message(m: Message, c: u32) -> (r: Vec<u8>)
        ensures
            r@ == count_message_spec(m, c as nat),
    {
        let mut out: Vec<u8> = match m {
            Message::Vsync => vec![118u8, 115u8, 121u8, 110u8, 99u8],
            Message::Soft => vec![115u8, 111u8, 102u8, 116u8],
        };
        let ghost prefix = out@;
        out.push(58u8);
        let ghost with_colon = out@;
        push_decimal(&mut out, c as u64);
        out.push(35u8);
        assert(out@ =~= with_colon + decimal(c as nat).push(35u8));
        out
    }
}

} // verus!
