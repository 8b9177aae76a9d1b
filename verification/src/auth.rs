//! Client side of the channel authentication handshake.
//!
//! With a pre-shared key the client sends `knock`, waits for
//! `challenge <nonce>`, answers `prove <proof>` with the proof of the key
//! over the nonce, and follows the device's verdict. The proof itself is
//! computed by the caller (see [`AutoAuth::on_proof`]).
use vstd::prelude::*;
use vstd::string::StringExecFns;
use vstd::string::StringSliceAdditionalSpecFns;
use crate::bytes::{contains_bytes, find_bytes, occurs_at};

verus! {

/// State of the handshake.
#[derive(Clone, Copy, Debug, PartialEq, Eq, Structural)]
pub enum AuthState {
    /// No key: the client does not authenticate.
    Disabled,
    /// Key present, `knock` not sent yet.
    Idle,
    /// `knock` sent, waiting for the challenge.
    Knocked,
    /// `prove` sent, waiting for the verdict.
    Proving,
    /// Session authenticated.
    Authenticated,
    /// Authentication failed (bad proof or no key on the device).
    Failed,
}

/// What the handshake asks of the transport.
#[derive(Clone, Debug, PartialEq, Eq)]
pub enum AuthAction {
    /// Nothing to send.
    NoOp,
    /// Send this command line (without terminator).
    Send(String),
    /// A message for the operator's scrollback.
    Note(String),
}

/// Outcome of one received line.
#[derive(Clone, Debug, PartialEq, Eq)]
pub enum LineStep {
    /// Act on this.
    Act(AuthAction),
    /// The device challenged with this nonce (hex digits): compute the
    /// proof and hand it to [`AutoAuth::on_proof`].
    Challenge(Vec<u8>),
}

/// `b` is an ASCII hexadecimal digit.
pub open spec fn is_hex(b: u8) -> bool {
    (48 <= b <= 57) || (65 <= b <= 70) || (97 <= b <= 102)
}

/// The run of hex digits at the start of `s`.
pub open spec fn hex_prefix_len(s: Seq<u8>) -> nat
    decreases s.len(),
{
    if s.len() == 0 || !is_hex(s[0]) { 0 } else { 1 + hex_prefix_len(s.drop_first()) }
}

proof fn lemma_hex_prefix(s: Seq<u8>, k: int)
    requires
        0 <= k <= s.len(),
        forall|j: int| 0 <= j < k ==> is_hex(s[j]),
        k == s.len() || !is_hex(s[k]),
    ensures
        hex_prefix_len(s) == k,
    decreases k,
{
    if k > 0 {
        lemma_hex_prefix(s.drop_first(), k - 1);
    }
}

/// `challenge ` in ASCII.
pub open spec fn challenge_tag() -> Seq<u8> {
    seq![99u8, 104, 97, 108, 108, 101, 110, 103, 101, 32]
}

/// `sin PSK` in ASCII (the device's answer when it holds no key).
pub open spec fn no_key_tag() -> Seq<u8> {
    seq![115u8, 105, 110, 32, 80, 83, 75]
}

/// `auth: ok` in ASCII.
pub open spec fn ok_tag() -> Seq<u8> {
    seq![97u8, 117, 116, 104, 58, 32, 111, 107]
}

/// `auth: fail` in ASCII.
pub open spec fn fail_tag() -> Seq<u8> {
    seq![97u8, 117, 116, 104, 58, 32, 102, 97, 105, 108]
}

fn tag_challenge() -> (r: Vec<u8>)
    ensures
        r@ == challenge_tag(),
{
    let r = vec![99u8, 104, 97, 108, 108, 101, 110, 103, 101, 32];
    assert(r@ =~= challenge_tag());
    r
}

fn tag_no_key() -> (r: Vec<u8>)
    ensures
        r@ == no_key_tag(),
{
    let r = vec![115u8, 105, 110, 32, 80, 83, 75];
    assert(r@ =~= no_key_tag());
    r
}

fn tag_ok() -> (r: Vec<u8>)
    ensures
        r@ == ok_tag(),
{
    let r = vec![97u8, 117, 116, 104, 58, 32, 111, 107];
    assert(r@ =~= ok_tag());
    r
}

fn tag_fail() -> (r: Vec<u8>)
    ensures
        r@ == fail_tag(),
{
    let r = vec![97u8, 117, 116, 104, 58, 32, 102, 97, 105, 108];
    assert(r@ =~= fail_tag());
    r
}

/// Handshake automaton, independent of the transport.
pub struct AutoAuth {
    psk: Option<Vec<u8>>,
    state: AuthState,
}

impl View for AutoAuth {
    type V = (bool, AuthState);

    /// Whether a key is held, and the state.
    closed spec fn view(&self) -> (bool, AuthState) {
        (self.psk is Some, self.state)
    }
}

/// The nonce of a challenge found at `i` in `line`: the hex digits after
/// the tag.
pub open spec fn nonce_at(line: Seq<u8>, i: int) -> Seq<u8> {
    let rest = line.subrange(i + challenge_tag().len(), line.len() as int);
    rest.subrange(0, hex_prefix_len(rest) as int)
}

impl AutoAuth {
    /// The automaton for key `psk` (`None` = passive).
    pub fn new(psk: Option<Vec<u8>>) -> (r: Self)
        ensures
            r@ == (psk is Some, if psk is Some { AuthState::Idle } else { AuthState::Disabled }),
            r.key() == psk,
    {
        let state = if psk.is_some() { AuthState::Idle } else { AuthState::Disabled };
        AutoAuth { psk, state }
    }

    /// The key held.
    pub closed spec fn key(&self) -> Option<Vec<u8>> {
        self.psk
    }

    /// The bytes of the key held, from which the proof for a challenge is
    /// computed (`None` = passive).
    pub fn psk(&self) -> (r: Option<&[u8]>)
        ensures
            r is Some <==> self.key() is Some,
            r matches Some(k) ==> k@ == self.key()->Some_0@,
    {
        match &self.psk {
            Some(v) => Some(v.as_slice()),
            None => None,
        }
    }

    /// Current state.
    pub fn state(&self) -> (r: AuthState)
        ensures
            r == self@.1,
    {
        self.state
    }

    /// `true` when a key is held, so the handshake is attempted.
    pub fn is_active(&self) -> (r: bool)
        ensures
            r == self@.0,
    {
        self.psk.is_some()
    }

    /// Starts the handshake on connection: asks to send `knock` once.
    pub fn start(&mut self) -> (r: AuthAction)
        ensures
            old(self)@.1 == AuthState::Idle ==> final(self)@ == (old(self)@.0, AuthState::Knocked)
                && (r matches AuthAction::Send(s) && s@ == "knock"@),
            old(self)@.1 != AuthState::Idle ==> final(self)@ == old(self)@ && r == AuthAction::NoOp,
            final(self).key() == old(self).key(),
    {
        if self.state == AuthState::Idle {
            self.state = AuthState::Knocked;
            AuthAction::Send(String::from_str("knock"))
        } else {
            AuthAction::NoOp
        }
    }

    /// Handles a line from the device. The tags are searched anywhere in the
    /// line (the echo of the command may precede them).
    pub fn on_line(&mut self, line: &str) -> (r: LineStep)
        ensures
            final(self).key() == old(self).key(),
            ({
                let l = line.spec_bytes();
                let st = old(self)@.1;
                if !old(self)@.0 {
                    r == LineStep::Act(AuthAction::NoOp) && final(self)@ == old(self)@
                } else if st == AuthState::Knocked && contains_bytes(l, challenge_tag()) {
                    final(self)@ == old(self)@ && exists|i: int| #[trigger] occurs_at(l, challenge_tag(), i)
                        && (forall|j: int| 0 <= j < i ==> !occurs_at(l, challenge_tag(), j))
                        && (r matches LineStep::Challenge(n) && n@ == nonce_at(l, i))
                } else if st == AuthState::Knocked && contains_bytes(l, no_key_tag()) {
                    final(self)@ == (true, AuthState::Failed) && r matches LineStep::Act(AuthAction::Note(_))
                } else if st == AuthState::Proving && contains_bytes(l, ok_tag()) {
                    final(self)@ == (true, AuthState::Authenticated) && r matches LineStep::Act(AuthAction::Note(_))
                } else if st == AuthState::Proving && contains_bytes(l, fail_tag()) {
                    final(self)@ == (true, AuthState::Failed) && r matches LineStep::Act(AuthAction::Note(_))
                } else {
                    r == LineStep::Act(AuthAction::NoOp) && final(self)@ == old(self)@
                }
            }),
    {
        if self.psk.is_none() {
            return LineStep::Act(AuthAction::NoOp);
        }
        let bytes = line.as_bytes();
        if self.state == AuthState::Knocked {
            let tag = tag_challenge();
            if let Some(i) = find_bytes(bytes, tag.as_slice()) {
                let bl = bytes.len();
                assert(i + tag@.len() <= bl);
                let start = i + tag.len();
                let mut nonce: Vec<u8> = Vec::new();
                let mut k = start;
                while k < bytes.len() && is_hex_digit(bytes[k])
                    invariant
                        start <= k <= bytes@.len(),
                        start == i + challenge_tag().len(),
                        nonce@ == bytes@.subrange(start as int, k as int),
                        forall|j: int| start <= j < k ==> is_hex(#[trigger] bytes@[j]),
                    decreases bytes@.len() - k,
                {
                    nonce.push(bytes[k]);
                    k = k + 1;
                }
                proof {
                    let rest = bytes@.subrange(start as int, bytes@.len() as int);
                    lemma_hex_prefix(rest, (k - start) as int);
                    assert(nonce@ =~= nonce_at(bytes@, i as int));
                }
                return LineStep::Challenge(nonce);
            }
            let tag = tag_no_key();
            if find_bytes(bytes, tag.as_slice()).is_some() {
                self.state = AuthState::Failed;
                return LineStep::Act(AuthAction::Note(String::from_str("auth: el dispositivo no tiene PSK (usa `enroll`)")));
            }
        }
        if self.state == AuthState::Proving {
            let tag = tag_ok();
            if find_bytes(bytes, tag.as_slice()).is_some() {
                self.state = AuthState::Authenticated;
                return LineStep::Act(AuthAction::Note(String::from_str("auth: sesión autenticada")));
            }
            let tag = tag_fail();
            if find_bytes(bytes, tag.as_slice()).is_some() {
                self.state = AuthState::Failed;
                return LineStep::Act(AuthAction::Note(String::from_str("auth: prueba rechazada (PSK incorrecta)")));
            }
        }
        LineStep::Act(AuthAction::NoOp)
    }

    /// Takes the proof computed for the last challenge (`None` when the
    /// nonce was not valid hex): asks to send `prove <proof>`, or fails.
    pub fn on_proof(&mut self, answer: Option<String>) -> (r: AuthAction)
        requires
            old(self)@ == (true, AuthState::Knocked),
        ensures
            final(self).key() == old(self).key(),
            answer matches Some(p) ==> final(self)@ == (true, AuthState::Proving) && (r matches AuthAction::Send(s) && s@ == "prove "@ + p@),
            answer is None ==> final(self)@ == (true, AuthState::Failed) && r matches AuthAction::Note(_),
    {
        match answer {
            Some(p) => {
                self.state = AuthState::Proving;
                AuthAction::Send(String::from_str("prove ").concat(p.as_str()))
            },
            None => {
                self.state = AuthState::Failed;
                AuthAction::Note(String::from_str("auth: nonce inválido en el reto"))
            },
        }
    }

    /// Short label of the state for the header.
    pub fn label(&self) -> (r: &'static str)
        ensures
            r@ == auth_label(self@.1)@,
    {
        match self.state {
            AuthState::Disabled => "auth: off",
            AuthState::Idle => "auth: …",
            AuthState::Knocked => "auth: knock",
            AuthState::Proving => "auth: prove",
            AuthState::Authenticated => "auth: ✓",
            AuthState::Failed => "auth: ✗",
        }
    }
}

/// The label of each state.
pub open spec fn auth_label(s: AuthState) -> &'static str {
    match s {
        AuthState::Disabled => "auth: off",
        AuthState::Idle => "auth: …",
        AuthState::Knocked => "auth: knock",
        AuthState::Proving => "auth: prove",
        AuthState::Authenticated => "auth: ✓",
        AuthState::Failed => "auth: ✗",
    }
}

/// Law (hex digits): the hexadecimal digits are exactly the 22 ASCII
/// characters `0123456789abcdefABCDEF`.
pub proof fn lemma_hex_digits(b: u8)
    ensures
        is_hex(b) <==> seq![48u8, 49u8, 50u8, 51u8, 52u8, 53u8, 54u8, 55u8, 56u8, 57u8, 97u8, 98u8, 99u8, 100u8, 101u8, 102u8, 65u8, 66u8, 67u8, 68u8, 69u8, 70u8].contains(b),
{
    let s = seq![48u8, 49u8, 50u8, 51u8, 52u8, 53u8, 54u8, 55u8, 56u8, 57u8, 97u8, 98u8, 99u8, 100u8, 101u8, 102u8, 65u8, 66u8, 67u8, 68u8, 69u8, 70u8];
    if is_hex(b) {
        let k: int = if b <= 57 { b - 48 } else if b >= 97 { b - 97 + 10 } else { b - 65 + 16 };
        assert(s[k] == b);
    }
    if s.contains(b) {
        let k = choose|k: int| 0 <= k < s.len() && s[k] == b;
        assert(0 <= k < 22);
    }
}

/// Law (the nonce is the whole run of hex digits): in a line holding the
/// challenge tag at `i`, then a run `h` of characters of
/// `0123456789abcdefABCDEF`, then the end of the line or another
/// character, the nonce is `h`.
pub proof fn lemma_nonce_is_hex_run(pre: Seq<u8>, h: Seq<u8>, rest: Seq<u8>)
    requires
        forall|j: int| 0 <= j < h.len() ==> seq![48u8, 49u8, 50u8, 51u8, 52u8, 53u8, 54u8, 55u8, 56u8, 57u8, 97u8, 98u8, 99u8, 100u8, 101u8, 102u8, 65u8, 66u8, 67u8, 68u8, 69u8, 70u8].contains(#[trigger] h[j]),
        rest.len() == 0 || !seq![48u8, 49u8, 50u8, 51u8, 52u8, 53u8, 54u8, 55u8, 56u8, 57u8, 97u8, 98u8, 99u8, 100u8, 101u8, 102u8, 65u8, 66u8, 67u8, 68u8, 69u8, 70u8].contains(rest[0]),
    ensures
        nonce_at(pre + challenge_tag() + h + rest, pre.len() as int) == h,
{
    let line = pre + challenge_tag() + h + rest;
    let i = pre.len() as int;
    let tail = line.subrange(i + challenge_tag().len(), line.len() as int);
    assert(tail =~= h + rest);
    assert forall|j: int| 0 <= j < h.len() implies is_hex(tail[j]) by {
        lemma_hex_digits(h[j]);
        assert(tail[j] == h[j]);
    }
    if rest.len() > 0 {
        lemma_hex_digits(rest[0]);
        assert(tail[h.len() as int] == rest[0]);
    }
    lemma_hex_prefix(tail, h.len() as int);
    assert(tail.subrange(0, h.len() as int) =~= h);
}

/// `true` when `b` is an ASCII hexadecimal digit.
fn is_hex_digit(b: u8) -> (r: bool)
    ensures
        r == is_hex(b),
{
    (48 <= b && b <= 57) || (65 <= b && b <= 70) || (97 <= b && b <= 102)
}

} // verus!
