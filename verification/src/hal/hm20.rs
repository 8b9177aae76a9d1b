//! HM-20 BLE module: the AT command lines sent to it and the reading of
//! its answers. The serial exchange itself is done by the driver.
use vstd::prelude::*;
use vstd::string::StringSliceAdditionalSpecFns;
use crate::bytes::{contains_bytes, find_bytes};

verus! {

/// Name advertised by default.
pub const DEFAULT_NAME: &'static str = "RUGUS";
/// Baud rate of the module after a factory reset.
pub const DEFAULT_BAUD: u32 = 9600;
/// Longest advertised name the module accepts.
pub const MAX_NAME: usize = 18;
/// Capacity of the command buffer.
pub const CMD_CAP: usize = 32;

/// Configuration pushed to the module.
#[derive(Clone, Copy, Debug)]
pub struct Hm20Config {
    /// Advertised name.
    pub name: &'static str,
    /// Baud rate.
    pub baud: u32,
}

impl Default for Hm20Config {
    fn default() -> (r: Self)
        ensures
            r.baud == DEFAULT_BAUD,
            r.name@ == DEFAULT_NAME@,
    {
        Hm20Config { name: DEFAULT_NAME, baud: DEFAULT_BAUD }
    }
}

/// Outcome of bringing the module up.
#[derive(Clone, Copy, Debug, PartialEq, Eq, Structural)]
pub enum InitResult {
    /// The module answered and was configured.
    Ready,
    /// No answer at any baud rate tried.
    NoResponse,
    /// The module answered an AT command with an error.
    AtError,
}

/// `OK` in ASCII.
pub open spec fn ok_word() -> Seq<u8> {
    seq![79u8, 75u8]
}

/// `ERROR` in ASCII.
pub open spec fn error_word() -> Seq<u8> {
    seq![69u8, 82u8, 82u8, 79u8, 82u8]
}

/// `true` when the answer received so far holds `OK`.
pub fn window_has_ok(buf: &[u8]) -> (r: bool)
    ensures
        r == contains_bytes(buf@, ok_word()),
{
    let w: Vec<u8> = vec![79u8, 75u8];
    assert(w@ =~= ok_word());
    find_bytes(buf, w.as_slice()).is_some()
}

/// `true` when the answer received so far holds `ERROR`.
pub fn window_has_error(buf: &[u8]) -> (r: bool)
    ensures
        r == contains_bytes(buf@, error_word()),
{
    let w: Vec<u8> = vec![69u8, 82u8, 82u8, 79u8, 82u8];
    assert(w@ =~= error_word());
    find_bytes(buf, w.as_slice()).is_some()
}

/// `true` when `needle` is nonempty and occurs in `hay`.
pub fn contains(hay: &[u8], needle: &[u8]) -> (r: bool)
    ensures
        r == (needle@.len() > 0 && contains_bytes(hay@, needle@)),
{
    if needle.len() == 0 || needle.len() > hay.len() {
        proof {
            if needle@.len() > hay@.len() {
                assert forall|i: int| !crate::bytes::occurs_at(hay@, needle@, i) by {}
            }
        }
        return false;
    }
    find_bytes(hay, needle).is_some()
}

/// `prefix` followed by `name`, cut to `cap` bytes.
pub open spec fn name_cmd(prefix: Seq<u8>, name: Seq<u8>, cap: int) -> Seq<u8> {
    let all = prefix + name;
    if all.len() <= cap { all } else { all.subrange(0, cap) }
}

/// Writes `prefix` then `name` into `buf` (cut to its length); returns the
/// length written.
pub fn build_name_cmd(buf: &mut [u8], prefix: &[u8], name: &[u8]) -> (n: usize)
    ensures
        final(buf)@.len() == old(buf)@.len(),
        n == name_cmd(prefix@, name@, old(buf)@.len() as int).len(),
        final(buf)@.subrange(0, n as int) == name_cmd(prefix@, name@, old(buf)@.len() as int),
        final(buf)@.subrange(n as int, final(buf)@.len() as int) == old(buf)@.subrange(n as int, old(buf)@.len() as int),
{
    let cap = buf.len();
    let total: usize = if prefix.len() > cap || name.len() > cap - prefix.len() { cap } else { prefix.len() + name.len() };
    let ghost all = prefix@ + name@;
    let mut i: usize = 0;
    while i < total
        invariant
            i <= total,
            total <= cap,
            cap == buf@.len(),
            buf@.len() == old(buf)@.len(),
            total as int == (if all.len() <= cap { all.len() as int } else { cap as int }),
            all == prefix@ + name@,
            forall|j: int| 0 <= j < i ==> buf@[j] == all[j],
            forall|j: int| total <= j < cap ==> buf@[j] == old(buf)@[j],
        decreases total - i,
    {
        if i < prefix.len() {
            buf[i] = prefix[i];
        } else {
            buf[i] = name[i - prefix.len()];
        }
        i = i + 1;
    }
    assert(buf@.subrange(0, total as int) =~= name_cmd(prefix@, name@, cap as int));
    assert(buf@.subrange(total as int, buf@.len() as int) =~= old(buf)@.subrange(total as int, old(buf)@.len() as int));
    total
}

/// `AT+NAME` in ASCII.
pub open spec fn at_name() -> Seq<u8> {
    seq![65u8, 84u8, 43u8, 78u8, 65u8, 77u8, 69u8]
}

/// The `AT+NAME<name>` command, or `None` when it does not fit the
/// command buffer.
pub fn set_name_cmd(name: &str) -> (r: Option<Vec<u8>>)
    ensures
        r matches Some(v) ==> v@ == at_name() + name.spec_bytes() && v@.len() <= CMD_CAP,
        r is None <==> at_name().len() + name.spec_bytes().len() > CMD_CAP,
{
    let prefix: Vec<u8> = vec![65u8, 84u8, 43u8, 78u8, 65u8, 77u8, 69u8];
    assert(prefix@ =~= at_name());
    let nb = name.as_bytes();
    if nb.len() > CMD_CAP - prefix.len() {
        return None;
    }
    let mut cmd: Vec<u8> = Vec::new();
    let mut i: usize = 0;
    while i < prefix.len()
        invariant
            i <= prefix@.len(),
            cmd@ == prefix@.subrange(0, i as int),
        decreases prefix@.len() - i,
    {
        cmd.push(prefix[i]);
        i = i + 1;
        assert(cmd@ =~= prefix@.subrange(0, i as int));
    }
    let mut j: usize = 0;
    while j < nb.len()
        invariant
            j <= nb@.len(),
            cmd@ == prefix@ + nb@.subrange(0, j as int),
        decreases nb@.len() - j,
    {
        cmd.push(nb[j]);
        j = j + 1;
        assert(cmd@ =~= prefix@ + nb@.subrange(0, j as int));
    }
    assert(nb@.subrange(0, nb@.len() as int) =~= nb@);
    Some(cmd)
}

/// A name the module can advertise: 1 to [`MAX_NAME`] bytes.
pub fn name_fits(name: &str) -> (r: bool)
    ensures
        r == (name.spec_bytes().len() > 0 && name.spec_bytes().len() <= MAX_NAME),
{
    let nb = name.as_bytes();
    nb.len() > 0 && nb.len() <= MAX_NAME
}

/// Bytes of an AT answer kept to judge it.
pub const REPLY_CAP: usize = 32;

/// Read of an AT answer so far.
#[derive(Clone, Copy, Debug, PartialEq, Eq, Structural)]
pub enum AtVerdict {
    /// The answer holds `OK`.
    Accepted,
    /// The answer holds `ERROR` (and no `OK`).
    Refused,
    /// Neither yet: keep reading.
    Pending,
}

/// The verdict on the answer `w` received so far.
pub open spec fn verdict_of(w: Seq<u8>) -> AtVerdict {
    if contains_bytes(w, ok_word()) {
        AtVerdict::Accepted
    } else if contains_bytes(w, error_word()) {
        AtVerdict::Refused
    } else {
        AtVerdict::Pending
    }
}

/// The answer to one AT command, as it arrives byte by byte: the first
/// [`REPLY_CAP`] bytes are kept and judged after each byte.
pub struct AtReply {
    buf: Vec<u8>,
}

impl View for AtReply {
    type V = Seq<u8>;

    /// The bytes kept so far.
    closed spec fn view(&self) -> Seq<u8> {
        self.buf@
    }
}

impl AtReply {
    /// Nothing received yet.
    pub fn new() -> (r: Self)
        ensures
            r@ == Seq::<u8>::empty(),
    {
        AtReply { buf: Vec::new() }
    }

    /// Takes byte `b` (dropped once [`REPLY_CAP`] bytes are kept) and judges
    /// the answer.
    pub fn push(&mut self, b: u8) -> (r: AtVerdict)
        ensures
            final(self)@ == (if old(self)@.len() < REPLY_CAP { old(self)@.push(b) } else { old(self)@ }),
            r == verdict_of(final(self)@),
    {
        if self.buf.len() < REPLY_CAP {
            self.buf.push(b);
        }
        if window_has_ok(self.buf.as_slice()) {
            AtVerdict::Accepted
        } else if window_has_error(self.buf.as_slice()) {
            AtVerdict::Refused
        } else {
            AtVerdict::Pending
        }
    }

    /// The outcome when the time to answer is over: accepted only if the
    /// answer holds `OK`.
    pub fn accepted_at_timeout(&self) -> (r: bool)
        ensures
            r == contains_bytes(self@, ok_word()),
    {
        window_has_ok(self.buf.as_slice())
    }
}

} // verus!
