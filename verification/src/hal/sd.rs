//! SD card over SPI: the command frames and the decisions of the driver;
//! the byte transfers themselves are board I/O.
use vstd::prelude::*;

verus! {

/// State of the card slot.
#[derive(Clone, Copy, Debug, PartialEq, Eq, Structural)]
pub enum SdStatus {
    /// No card, or its start-up failed.
    Absent,
    /// Card ready to read its first sector.
    Ready,
}

/// Reply of a card that entered the idle state (R1 with only `idle` set).
pub const R1_IDLE: u8 = 0x01;
/// Reply that ends a wait: the card is ready (R1 clear) or a data block
/// follows.
pub const READY: u8 = 0x00;
/// Replies polled for the end of start-up before giving up.
pub const INIT_POLLS: usize = 1000;
/// Replies polled for a data block before giving up.
pub const READ_POLLS: usize = 10000;
/// Bytes of a sector.
pub const SECTOR: usize = 512;

/// Frame of the single-block read command (CMD17) for block `lba`.
pub open spec fn read_frame(lba: u32) -> Seq<u8> {
    seq![0x51u8, (lba >> 24u32) as u8, (lba >> 16u32) as u8, (lba >> 8u32) as u8, lba as u8, 0xFFu8]
}

/// The bytes to send to read block `lba`.
pub fn read_command(lba: u32) -> (r: [u8; 6])
    ensures
        r@ == read_frame(lba),
{
    let r = [0x51u8, (lba >> 24u32) as u8, (lba >> 16u32) as u8, (lba >> 8u32) as u8, lba as u8, 0xFFu8];
    assert(r@ =~= read_frame(lba));
    r
}

/// Some of the first `limit` replies is [`READY`].
pub open spec fn ready_within(replies: Seq<u8>, limit: int) -> bool {
    exists|i: int| 0 <= i < replies.len() && i < limit && #[trigger] replies[i] == READY
}

/// Whether a wait succeeds: some of the first `limit` replies polled is
/// [`READY`] (the driver stops polling at that reply).
pub fn ready_seen(replies: &[u8], limit: usize) -> (r: bool)
    ensures
        r == ready_within(replies@, limit as int),
{
    let mut i: usize = 0;
    while i < replies.len() && i < limit
        invariant
            i <= replies@.len(),
            forall|j: int| 0 <= j < i ==> #[trigger] replies@[j] != READY,
        decreases replies@.len() - i,
    {
        if replies[i] == READY {
            return true;
        }
        i = i + 1;
    }
    false
}

/// State of the slot after start-up: the card answered the reset with
/// [`R1_IDLE`] and then, within [`INIT_POLLS`] replies, became ready.
pub fn init_status(reset_reply: u8, replies: &[u8]) -> (r: SdStatus)
    ensures
        r == (if reset_reply == R1_IDLE && ready_within(replies@, INIT_POLLS as int) { SdStatus::Ready } else { SdStatus::Absent }),
{
    if reset_reply != R1_IDLE {
        return SdStatus::Absent;
    }
    if ready_seen(replies, INIT_POLLS) { SdStatus::Ready } else { SdStatus::Absent }
}

/// Bytes of the first sector to read into a buffer of `buf_len` bytes:
/// none unless the card is ready, and at most a sector.
pub fn boot_read_len(status: SdStatus, buf_len: usize) -> (r: usize)
    ensures
        r == (if status == SdStatus::Ready { if buf_len < SECTOR { buf_len } else { SECTOR } } else { 0 }),
{
    match status {
        SdStatus::Ready => if buf_len < SECTOR { buf_len } else { SECTOR },
        SdStatus::Absent => 0,
    }
}

} // verus!
