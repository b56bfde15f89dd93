//! How a session opens: version, security and initialisation.

use vstd::arithmetic::power2::pow2;
use vstd::prelude::*;
use vstd::utf8::encode_utf8;

use crate::args::option_view;
use crate::bytes::{be16, be32, low16, low32, low_word, push_all, push_be16, push_be32};
use crate::pixel::{
    lemma_own_format_is_bgrx, lemma_write_parse_round_trip, number_of, PixelFormat,
};
use crate::rfb::auth::{constant_time_eq, encrypt_challenge, response_to};
use crate::rfb::client::{lemma_big_be16, lemma_big_be32};
use crate::text::{number_in, parse_number};

verus! {

pub const SEC_NONE: u8 = 1;

pub const SEC_VNC_AUTH: u8 = 2;

/// Why a client is turned away.
#[derive(Clone, Copy, Debug, PartialEq, Eq, Structural)]
pub enum Refusal {
    /// The client did not say it speaks RFB.
    NotRfb,
    /// The client picked a security type we did not offer.
    WrongSecurityType,
    AuthenticationFailed,
}

/// How far a session has got.
pub enum Stage {
    /// The client's version is awaited: 12 bytes.
    Version,
    /// The client's choice of a security type is awaited: 1 byte.
    Choice { minor: u8 },
    /// A challenge of 16 random bytes is to be sent.
    Challenge { minor: u8 },
    /// The client's response is awaited: 16 bytes.
    Response { minor: u8, challenge: [u8; 16] },
    /// ClientInit is awaited: 1 byte, the shared-desktop flag, which we always
    /// honour.
    Init,
    /// The session is open.
    Ready,
    Refused(Refusal),
}

/// How far a session has got, the challenge as a sequence.
pub enum StageView {
    Version,
    Choice { minor: u8 },
    Challenge { minor: u8 },
    Response { minor: u8, challenge: Seq<u8> },
    Init,
    Ready,
    Refused(Refusal),
}

impl View for Stage {
    type V = StageView;

    open spec fn view(&self) -> StageView {
        match *self {
            Stage::Version => StageView::Version,
            Stage::Choice { minor } => StageView::Choice { minor },
            Stage::Challenge { minor } => StageView::Challenge { minor },
            Stage::Response { minor, challenge } => StageView::Response {
                minor,
                challenge: challenge@,
            },
            Stage::Init => StageView::Init,
            Stage::Ready => StageView::Ready,
            Stage::Refused(r) => StageView::Refused(r),
        }
    }
}

/// The version that the server announces, "RFB 003.008" and a line feed.
pub open spec fn version_bytes() -> Seq<u8> {
    seq![82u8, 70, 66, 32, 48, 48, 51, 46, 48, 48, 56, 10]
}

/// The minor version a client announced: 8 where it cannot be read.
pub open spec fn minor_of(b: Seq<u8>) -> u8 {
    match number_in(b.subrange(8, 11).map_values(|x: u8| x as char), 255) {
        Some(n) => n as u8,
        None => 8,
    }
}

/// Whether the client said that it speaks RFB.
pub open spec fn says_rfb(b: Seq<u8>) -> bool {
    b[0] == 82 && b[1] == 70 && b[2] == 66 && b[3] == 32
}

/// The one security type that is offered.
pub open spec fn security_type(want_auth: bool) -> u8 {
    if want_auth {
        SEC_VNC_AUTH
    } else {
        SEC_NONE
    }
}

/// From 3.7 on a list of one security type; before, the server dictates it.
pub open spec fn offer_bytes(minor: u8, want_auth: bool) -> Seq<u8> {
    if minor >= 7 {
        seq![1u8, security_type(want_auth)]
    } else {
        be32(security_type(want_auth) as u32)
    }
}

/// SecurityResult for success: always sent from 3.8 on, before that only after
/// authentication.
pub open spec fn success_bytes(minor: u8, want_auth: bool) -> Seq<u8> {
    if minor >= 8 || want_auth {
        be32(0)
    } else {
        seq![]
    }
}

/// SecurityResult for failure, with the reason from 3.8 on.
pub open spec fn failure_bytes(minor: u8, reason: Seq<char>) -> Seq<u8> {
    be32(1) + if minor >= 8 {
        be32(low32(encode_utf8(reason).len() as int)) + encode_utf8(reason)
    } else {
        seq![]
    }
}

/// Once a security type is agreed on: a challenge, or on to ClientInit.
pub open spec fn agreed(minor: u8, want_auth: bool) -> (StageView, Seq<u8>) {
    if want_auth {
        (StageView::Challenge { minor }, seq![])
    } else {
        (StageView::Init, success_bytes(minor, want_auth))
    }
}

/// A client's version, and what is sent to it.
pub open spec fn after_version(b: Seq<u8>, want_auth: bool) -> (StageView, Seq<u8>) {
    let minor = minor_of(b);
    if !says_rfb(b) {
        (StageView::Refused(Refusal::NotRfb), seq![])
    } else if minor >= 7 {
        (StageView::Choice { minor }, offer_bytes(minor, want_auth))
    } else {
        let (stage, reply) = agreed(minor, want_auth);
        (stage, offer_bytes(minor, want_auth) + reply)
    }
}

/// A client's choice of a security type, and what is sent to it.
pub open spec fn after_choice(minor: u8, chosen: u8, want_auth: bool) -> (StageView, Seq<u8>) {
    if chosen != security_type(want_auth) {
        (
            StageView::Refused(Refusal::WrongSecurityType),
            failure_bytes(minor, "unsupported security type"@),
        )
    } else {
        agreed(minor, want_auth)
    }
}

/// A client's response to a challenge, and what is sent to it.
pub open spec fn after_response(
    minor: u8,
    challenge: Seq<u8>,
    response: Seq<u8>,
    password: Seq<char>,
) -> (StageView, Seq<u8>) {
    verdict(minor, response, response_to(password, challenge))
}

/// A client's response where another is the right one, and what is sent to it.
pub open spec fn verdict(minor: u8, response: Seq<u8>, expected: Seq<u8>) -> (
    StageView,
    Seq<u8>,
) {
    if response == expected {
        (StageView::Init, success_bytes(minor, true))
    } else {
        (
            StageView::Refused(Refusal::AuthenticationFailed),
            failure_bytes(minor, "authentication failed"@),
        )
    }
}

/// ServerInit: the size of the screen, our pixel format and the desktop's
/// name.
pub open spec fn init_bytes(width: u32, height: u32, name: Seq<char>) -> Seq<u8> {
    be16(low16(width as int)) + be16(low16(height as int)) + PixelFormat::rgb().wire_form() + be32(
        low32(encode_utf8(name).len() as int),
    ) + encode_utf8(name)
}

/// The first message of a session.
pub fn greet() -> (r: (Stage, Vec<u8>))
    ensures
        r.0@ is Version,
        r.1@ == version_bytes(),
{
    let v: Vec<u8> = vec![82, 70, 66, 32, 48, 48, 51, 46, 48, 48, 56, 10];
    assert(v@ =~= version_bytes());
    (Stage::Version, v)
}

fn offer(minor: u8, want_auth: bool) -> (v: Vec<u8>)
    ensures
        v@ == offer_bytes(minor, want_auth),
{
    let sec: u8 = if want_auth {
        SEC_VNC_AUTH
    } else {
        SEC_NONE
    };
    let mut v: Vec<u8> = Vec::new();
    if minor >= 7 {
        v.push(1);
        v.push(sec);
    } else {
        push_be32(&mut v, sec as u32);
    }
    assert(v@ =~= offer_bytes(minor, want_auth));
    v
}

fn push_success(minor: u8, want_auth: bool, out: &mut Vec<u8>)
    ensures
        final(out)@ == old(out)@ + success_bytes(minor, want_auth),
{
    if minor >= 8 || want_auth {
        push_be32(out, 0);
    }
    assert(out@ =~= old(out)@ + success_bytes(minor, want_auth));
}

fn fail_security(minor: u8, reason: &str) -> (v: Vec<u8>)
    ensures
        v@ == failure_bytes(minor, reason@),
{
    let mut v: Vec<u8> = Vec::new();
    push_be32(&mut v, 1);
    if minor >= 8 {
        let bytes: &[u8] = reason.as_bytes();
        push_be32(&mut v, low_word(bytes.len()));
        push_all(&mut v, bytes);
    }
    assert(v@ =~= failure_bytes(minor, reason@));
    v
}

fn agree(minor: u8, want_auth: bool, out: &mut Vec<u8>) -> (stage: Stage)
    ensures
        stage@ == agreed(minor, want_auth).0,
        final(out)@ == old(out)@ + agreed(minor, want_auth).1,
{
    if want_auth {
        assert(out@ =~= old(out)@ + agreed(minor, want_auth).1);
        Stage::Challenge { minor }
    } else {
        push_success(minor, want_auth, out);
        Stage::Init
    }
}

/// Read the version a client announced, and make our offer.
pub fn handshake_version(b: &[u8; 12], want_auth: bool) -> (r: (Stage, Vec<u8>))
    ensures
        r.0@ == after_version(b@, want_auth).0,
        r.1@ == after_version(b@, want_auth).1,
{
    if b[0] != 82 || b[1] != 70 || b[2] != 66 || b[3] != 32 {
        let none: Vec<u8> = Vec::new();
        assert(none@ =~= Seq::<u8>::empty());
        return (Stage::Refused(Refusal::NotRfb), none);
    }
    let digits: Vec<char> = vec![b[8] as char, b[9] as char, b[10] as char];
    assert(digits@ =~= b@.subrange(8, 11).map_values(|x: u8| x as char));
    let minor: u8 = match parse_number(digits.as_slice(), 255) {
        Some(n) => n as u8,
        None => 8,
    };
    let mut out: Vec<u8> = offer(minor, want_auth);
    if minor >= 7 {
        (Stage::Choice { minor }, out)
    } else {
        let stage = agree(minor, want_auth, &mut out);
        (stage, out)
    }
}

/// Check the security type that a client picked.
pub fn choose_security(minor: u8, chosen: u8, want_auth: bool) -> (r: (Stage, Vec<u8>))
    ensures
        r.0@ == after_choice(minor, chosen, want_auth).0,
        r.1@ == after_choice(minor, chosen, want_auth).1,
{
    let sec: u8 = if want_auth {
        SEC_VNC_AUTH
    } else {
        SEC_NONE
    };
    if chosen != sec {
        return (
            Stage::Refused(Refusal::WrongSecurityType),
            fail_security(minor, "unsupported security type"),
        );
    }
    let mut out: Vec<u8> = Vec::new();
    let stage = agree(minor, want_auth, &mut out);
    assert(out@ =~= agreed(minor, want_auth).1);
    (stage, out)
}

/// Send a challenge.
pub fn challenge_client(minor: u8, challenge: [u8; 16]) -> (r: (Stage, Vec<u8>))
    ensures
        r.0@ == (StageView::Response { minor, challenge: challenge@ }),
        r.1@ == challenge@,
{
    let mut out: Vec<u8> = Vec::new();
    push_all(&mut out, challenge.as_slice());
    assert(out@ =~= challenge@);
    (Stage::Response { minor, challenge }, out)
}

/// Check a client's response to a challenge.
pub fn authenticate(minor: u8, challenge: &[u8; 16], response: &[u8; 16], password: &str) -> (r: (
    Stage,
    Vec<u8>,
))
    ensures
        r.0@ == after_response(minor, challenge@, response@, password@).0,
        r.1@ == after_response(minor, challenge@, response@, password@).1,
{
    let expected: [u8; 16] = encrypt_challenge(password, challenge);
    judge_response(minor, response, &expected)
}

/// Check a client's response against the right one.
pub fn judge_response(minor: u8, response: &[u8; 16], expected: &[u8; 16]) -> (r: (Stage, Vec<u8>))
    ensures
        r.0@ == verdict(minor, response@, expected@).0,
        r.1@ == verdict(minor, response@, expected@).1,
{
    if !constant_time_eq(response.as_slice(), expected.as_slice()) {
        return (
            Stage::Refused(Refusal::AuthenticationFailed),
            fail_security(minor, "authentication failed"),
        );
    }
    let mut out: Vec<u8> = Vec::new();
    push_success(minor, true, &mut out);
    assert(out@ =~= success_bytes(minor, true));
    (Stage::Init, out)
}

/// Answer ClientInit.
pub fn server_init(width: u32, height: u32, name: &str) -> (r: (Stage, Vec<u8>))
    ensures
        r.0@ is Ready,
        r.1@ == init_bytes(width, height, name@),
{
    let mut out: Vec<u8> = Vec::new();
    push_be16(&mut out, (width % 0x1_0000) as u16);
    push_be16(&mut out, (height % 0x1_0000) as u16);
    PixelFormat::default_rgb().write(&mut out);
    let bytes: &[u8] = name.as_bytes();
    push_be32(&mut out, low_word(bytes.len()));
    push_all(&mut out, bytes);
    assert(out@ =~= init_bytes(width, height, name@));
    (Stage::Ready, out)
}

/// How many bytes take a session further: from the client, or for a challenge
/// from a source of randomness.
pub open spec fn bytes_needed(stage: StageView) -> int {
    match stage {
        StageView::Version => 12,
        StageView::Choice { minor } => 1,
        StageView::Challenge { minor } => 16,
        StageView::Response { minor, challenge } => 16,
        StageView::Init => 1,
        StageView::Ready => 0,
        StageView::Refused(r) => 0,
    }
}

pub fn needed(stage: &Stage) -> (n: usize)
    ensures
        n == bytes_needed(stage@),
{
    match stage {
        Stage::Version => 12,
        Stage::Choice { .. } => 1,
        Stage::Challenge { .. } => 16,
        Stage::Response { .. } => 16,
        Stage::Init => 1,
        Stage::Ready => 0,
        Stage::Refused(_) => 0,
    }
}

/// Where the next bytes take a session, and what is sent to the client.
pub open spec fn next_stage(
    stage: StageView,
    input: Seq<u8>,
    password: Option<Seq<char>>,
    width: u32,
    height: u32,
    name: Seq<char>,
) -> (StageView, Seq<u8>) {
    let want_auth = password is Some;
    match stage {
        StageView::Version => after_version(input, want_auth),
        StageView::Choice { minor } => after_choice(minor, input[0], want_auth),
        StageView::Challenge { minor } => (
            StageView::Response { minor, challenge: input },
            input,
        ),
        StageView::Response { minor, challenge } => after_response(
            minor,
            challenge,
            input,
            password->0,
        ),
        StageView::Init => (StageView::Ready, init_bytes(width, height, name)),
        StageView::Ready => (stage, seq![]),
        StageView::Refused(r) => (stage, seq![]),
    }
}

/// A challenge is only for sessions with a password.
pub open spec fn fits_password(stage: StageView, password: Option<Seq<char>>) -> bool {
    stage is Challenge || stage is Response ==> password is Some
}

fn sixteen(b: &[u8]) -> (a: [u8; 16])
    requires
        b@.len() == 16,
    ensures
        a@ == b@,
{
    let mut a: [u8; 16] = [0; 16];
    for i in 0..16usize
        invariant
            b@.len() == 16,
            forall|j: int| 0 <= j < i ==> #[trigger] a@[j] == b@[j],
    {
        a[i] = b[i];
    }
    assert(a@ =~= b@);
    a
}

fn twelve(b: &[u8]) -> (a: [u8; 12])
    requires
        b@.len() == 12,
    ensures
        a@ == b@,
{
    let mut a: [u8; 12] = [0; 12];
    for i in 0..12usize
        invariant
            b@.len() == 12,
            forall|j: int| 0 <= j < i ==> #[trigger] a@[j] == b@[j],
    {
        a[i] = b[i];
    }
    assert(a@ =~= b@);
    a
}

/// Take a session further.
pub fn advance(
    stage: &Stage,
    input: &[u8],
    password: &Option<String>,
    width: u32,
    height: u32,
    name: &str,
) -> (r: (Stage, Vec<u8>))
    requires
        input@.len() == bytes_needed(stage@),
        fits_password(stage@, option_view(*password)),
    ensures
        r.0@ == next_stage(stage@, input@, option_view(*password), width, height, name@).0,
        r.1@ == next_stage(stage@, input@, option_view(*password), width, height, name@).1,
        fits_password(r.0@, option_view(*password)),
{
    let want_auth: bool = password.is_some();
    match stage {
        Stage::Version => handshake_version(&twelve(input), want_auth),
        Stage::Choice { minor } => choose_security(*minor, input[0], want_auth),
        Stage::Challenge { minor } => challenge_client(*minor, sixteen(input)),
        Stage::Response { minor, challenge } => {
            let p: &str = match password {
                Some(p) => p.as_str(),
                None => "",
            };
            authenticate(*minor, challenge, &sixteen(input), p)
        },
        Stage::Init => server_init(width, height, name),
        Stage::Ready => {
            let none: Vec<u8> = Vec::new();
            assert(none@ =~= Seq::<u8>::empty());
            (Stage::Ready, none)
        },
        Stage::Refused(why) => {
            let none: Vec<u8> = Vec::new();
            assert(none@ =~= Seq::<u8>::empty());
            (Stage::Refused(*why), none)
        },
    }
}

/// With a password set, a session opens only for a client that answers the
/// challenge it was sent as the password says: no version and no choice of a
/// security type leads past it.
pub proof fn lemma_password_is_asked_for(
    stage: StageView,
    input: Seq<u8>,
    password: Seq<char>,
    width: u32,
    height: u32,
    name: Seq<char>,
)
    ensures
        ({
            let next = next_stage(stage, input, Some(password), width, height, name).0;
            &&& next is Ready ==> stage is Init || stage is Ready
            &&& next is Init <==> (match stage {
                StageView::Response { minor, challenge } => input == response_to(
                    password,
                    challenge,
                ),
                _ => false,
            })
        }),
{
}

/// A client that picks what it is offered, and answers the challenge as the
/// password says where there is one, gets its session, whichever version it
/// speaks.
pub proof fn lemma_password_lets_in(
    version: Seq<u8>,
    challenge: Seq<u8>,
    shared: u8,
    password: Option<Seq<char>>,
    width: u32,
    height: u32,
    name: Seq<char>,
)
    requires
        says_rfb(version),
    ensures
        ({
            let next = |stage: StageView, input: Seq<u8>|
                next_stage(stage, input, password, width, height, name).0;
            let first = next(StageView::Version, version);
            let agreed = if first is Choice {
                next(first, seq![security_type(password is Some)])
            } else {
                first
            };
            let open = match password {
                Some(p) => next(next(agreed, challenge), response_to(p, challenge)),
                None => agreed,
            };
            open is Init && next(open, seq![shared]) is Ready
        }),
{
}

/// A client that is turned away stays turned away.
pub proof fn lemma_refused_stays_refused(
    why: Refusal,
    input: Seq<u8>,
    password: Option<Seq<char>>,
    width: u32,
    height: u32,
    name: Seq<char>,
)
    ensures
        next_stage(StageView::Refused(why), input, password, width, height, name).0
            == StageView::Refused(why),
{
}

/// A client that is turned away is told so, in the way that its version of the
/// protocol has for it.
pub proof fn lemma_refused_clients_are_told(
    minor: u8,
    chosen: u8,
    want_auth: bool,
    challenge: Seq<u8>,
    response: Seq<u8>,
    password: Seq<char>,
)
    ensures
        after_choice(minor, chosen, want_auth).0 is Refused ==> be32(1).is_prefix_of(
            after_choice(minor, chosen, want_auth).1,
        ),
        after_response(minor, challenge, response, password).0 is Refused ==> be32(1).is_prefix_of(
            after_response(minor, challenge, response, password).1,
        ),
{
    assert(be32(1) =~= failure_bytes(minor, "unsupported security type"@).take(4));
    assert(be32(1) =~= failure_bytes(minor, "authentication failed"@).take(4));
}

/// How long the answer to a wrong password is held back, so that passwords
/// cannot be tried out at speed.
pub struct Backoff {
    /// Wrong answers since the last right one.
    pub failures: u32,
}

/// First delay, in milliseconds.
pub const BACKOFF_FIRST: u64 = 250;

/// Longest delay, in milliseconds.
pub const BACKOFF_MOST: u64 = 8000;

/// Delay after so many wrong answers in a row: it doubles with each, up to a
/// limit.
pub open spec fn delay_after(failures: nat) -> nat
    decreases failures,
{
    if failures == 0 {
        0
    } else if failures == 1 {
        BACKOFF_FIRST as nat
    } else {
        let d = 2 * delay_after((failures - 1) as nat);
        if d < BACKOFF_MOST {
            d
        } else {
            BACKOFF_MOST as nat
        }
    }
}

impl Backoff {
    pub fn new() -> (b: Self)
        ensures
            b.failures == 0,
    {
        Backoff { failures: 0 }
    }

    /// The password was right.
    pub fn succeeded(&mut self)
        ensures
            final(self).failures == 0,
    {
        self.failures = 0;
    }

    /// The password was wrong: for how many milliseconds to hold the answer
    /// back.
    pub fn failed(&mut self) -> (ms: u64)
        ensures
            final(self).failures == (if old(self).failures < u32::MAX {
                (old(self).failures + 1) as u32
            } else {
                u32::MAX
            }),
            ms == delay_after(final(self).failures as nat),
    {
        if self.failures < u32::MAX {
            self.failures = self.failures + 1;
        }
        let mut ms: u64 = BACKOFF_FIRST;
        let mut n: u32 = 1;
        while n < self.failures && ms < BACKOFF_MOST
            invariant
                1 <= n <= self.failures,
                0 < ms <= BACKOFF_MOST,
                ms == delay_after(n as nat),
            decreases self.failures - n,
        {
            n = n + 1;
            ms = if 2 * ms < BACKOFF_MOST {
                2 * ms
            } else {
                BACKOFF_MOST
            };
        }
        proof {
            lemma_delay_stays_at_most(n as nat, self.failures as nat);
        }
        ms
    }
}

proof fn lemma_delay_stays_at_most(n: nat, m: nat)
    requires
        1 <= n <= m,
    ensures
        delay_after(n) == BACKOFF_MOST ==> delay_after(m) == BACKOFF_MOST,
    decreases m,
{
    if n < m {
        lemma_delay_stays_at_most(n, (m - 1) as nat);
    }
}

/// Every further wrong answer is held back at least as long as the one before,
/// and each for some time.
pub proof fn lemma_delays_grow(n: nat)
    ensures
        delay_after(n) <= delay_after(n + 1),
        n > 0 ==> 0 < delay_after(n) <= BACKOFF_MOST,
    decreases n,
{
    if n > 1 {
        lemma_delays_grow((n - 1) as nat);
    }
}

/// The server announces version 3.8.
pub proof fn lemma_version_is_announced()
    ensures
        version_bytes().map_values(|b: u8| b as char) == "RFB 003.008\n"@,
{
    reveal_strlit("RFB 003.008\n");
    assert(version_bytes().map_values(|b: u8| b as char) =~= "RFB 003.008\n"@);
}

/// A client's minor version is the number in the three digits behind the dot, if a
/// byte can hold it.
pub proof fn lemma_minor_is_read(b: Seq<u8>)
    requires
        b.len() == 12,
        48 <= b[8] <= 57 && 48 <= b[9] <= 57 && 48 <= b[10] <= 57,
    ensures
        ({
            let n = (b[8] - 48) * 100 + (b[9] - 48) * 10 + (b[10] - 48);
            minor_of(b) == if n <= 255 {
                n
            } else {
                8
            }
        }),
{
    let s = b.subrange(8, 11).map_values(|x: u8| x as char);
    assert(s.len() == 3);
    assert(s[0] as u32 == b[8] && s[1] as u32 == b[9] && s[2] as u32 == b[10]);
    reveal_with_fuel(crate::text::digits_value, 4);
    assert(s.drop_last().len() == 2 && s.drop_last().drop_last().len() == 1);
    assert(crate::text::unsigned_part(s) == s);
    assert(crate::text::all_digits(s));
}

/// A client that speaks RFB is offered VNC authentication where there is a password
/// and nothing else, no security where there is none: from 3.7 on as a list of one
/// to pick from, before that as a number that settles it. Any other client is turned
/// away.
pub proof fn lemma_offer_follows_the_version(b: Seq<u8>, want_auth: bool)
    requires
        b.len() == 12,
    ensures
        ({
            let (stage, reply) = after_version(b, want_auth);
            let minor = minor_of(b);
            let kind: u8 = if want_auth {
                2
            } else {
                1
            };
            if b.take(4).map_values(|x: u8| x as char) != "RFB "@ {
                stage == StageView::Refused(Refusal::NotRfb) && reply.len() == 0
            } else if minor >= 7 {
                stage == (StageView::Choice { minor }) && reply == seq![1u8, kind]
            } else {
                &&& stage == (if want_auth {
                    StageView::Challenge { minor }
                } else {
                    StageView::Init
                })
                &&& reply == seq![0u8, 0, 0, kind]
            }
        }),
{
    reveal_strlit("RFB ");
    let head = b.take(4).map_values(|x: u8| x as char);
    assert(head.len() == 4);
    assert(head[0] as u32 == b[0] && head[1] as u32 == b[1] && head[2] as u32 == b[2] && head[3]
        as u32 == b[3]);
    if says_rfb(b) {
        assert(head =~= "RFB "@);
    } else if head == "RFB "@ {
        assert(head[0] == 'R' && head[1] == 'F' && head[2] == 'B' && head[3] == ' ');
    }
    let (stage, reply) = after_version(b, want_auth);
    let kind: u8 = if want_auth {
        2
    } else {
        1
    };
    if says_rfb(b) && minor_of(b) < 7 {
        assert(reply =~= seq![0u8, 0, 0, kind]);
    } else if says_rfb(b) {
        assert(reply =~= seq![1u8, kind]);
    }
}

/// Whether bytes report a failure: the number one, and to clients of 3.8 on the
/// reason behind its length.
pub open spec fn reports_failure(b: Seq<u8>, minor: u8, reason: Seq<char>) -> bool {
    let text = encode_utf8(reason);
    &&& b.take(4) == seq![0u8, 0, 0, 1]
    &&& if minor >= 8 {
        number_of(b.subrange(4, 8), true) == text.len() as int % 0x1_0000_0000 && b.skip(8) == text
    } else {
        b.len() == 4
    }
}

proof fn lemma_failure_is_reported(minor: u8, reason: Seq<char>)
    ensures
        reports_failure(failure_bytes(minor, reason), minor, reason),
{
    let b = failure_bytes(minor, reason);
    let text = encode_utf8(reason);
    assert(b.take(4) =~= seq![0u8, 0, 0, 1]);
    if minor >= 8 {
        lemma_big_be32(low32(text.len() as int));
        assert(b.subrange(4, 8) =~= be32(low32(text.len() as int)));
        assert(b.skip(8) =~= text);
    }
}

/// A client that picks what it was offered goes on: to a challenge where there is a
/// password, else to the end, with a success that clients of 3.8 on are told. One
/// that picks anything else is turned away and told so.
pub proof fn lemma_choice_is_checked(minor: u8, chosen: u8, want_auth: bool)
    ensures
        ({
            let (stage, reply) = after_choice(minor, chosen, want_auth);
            if chosen != (if want_auth {
                2u8
            } else {
                1u8
            }) {
                stage == StageView::Refused(Refusal::WrongSecurityType) && reports_failure(
                    reply,
                    minor,
                    "unsupported security type"@,
                )
            } else if want_auth {
                stage == (StageView::Challenge { minor }) && reply.len() == 0
            } else {
                stage is Init && reply == (if minor >= 8 {
                    seq![0u8, 0, 0, 0]
                } else {
                    seq![]
                })
            }
        }),
{
    lemma_failure_is_reported(minor, "unsupported security type"@);
    assert(be32(0) =~= seq![0u8, 0, 0, 0]);
}

/// A right answer to the challenge is a success, which every client is told, and any
/// other is a failure, which every client is told too.
pub proof fn lemma_answer_is_checked(minor: u8, response: Seq<u8>, expected: Seq<u8>)
    ensures
        ({
            let (stage, reply) = verdict(minor, response, expected);
            if response == expected {
                stage is Init && reply == seq![0u8, 0, 0, 0]
            } else {
                stage == StageView::Refused(Refusal::AuthenticationFailed) && reports_failure(
                    reply,
                    minor,
                    "authentication failed"@,
                )
            }
        }),
{
    lemma_failure_is_reported(minor, "authentication failed"@);
    assert(be32(0) =~= seq![0u8, 0, 0, 0]);
}

/// A session opens with the size of the screen, a pixel format that reads as ours and
/// the name of the desktop behind its length.
pub proof fn lemma_client_reads_the_init(width: u32, height: u32, name: Seq<char>)
    ensures
        ({
            let b = init_bytes(width, height, name);
            let text = encode_utf8(name);
            &&& number_of(b.subrange(0, 2), true) == width as int % 0x1_0000
            &&& number_of(b.subrange(2, 4), true) == height as int % 0x1_0000
            &&& PixelFormat::parsed(b.subrange(4, 20)) == Some(PixelFormat::rgb())
            &&& number_of(b.subrange(20, 24), true) == text.len() as int % 0x1_0000_0000
            &&& b.skip(24) == text
        }),
{
    let b = init_bytes(width, height, name);
    let text = encode_utf8(name);
    let (w, h, n) = (low16(width as int), low16(height as int), low32(text.len() as int));
    lemma_big_be16(w);
    lemma_big_be16(h);
    lemma_big_be32(n);
    assert(PixelFormat::rgb().wire_form().len() == 16);
    assert(b.subrange(0, 2) =~= be16(w));
    assert(b.subrange(2, 4) =~= be16(h));
    assert(b.subrange(4, 20) =~= PixelFormat::rgb().wire_form());
    assert(b.subrange(20, 24) =~= be32(n));
    assert(b.skip(24) =~= text);
    lemma_own_format_is_bgrx(0);
    lemma_write_parse_round_trip(PixelFormat::rgb());
}

/// A quarter of a second, doubled with every further wrong answer, and never over
/// eight seconds.
pub proof fn lemma_delays_double(n: nat)
    requires
        n > 0,
    ensures
        ({
            let d = 250 * pow2((n - 1) as nat);
            delay_after(n) == (if d < 8000 {
                d
            } else {
                8000
            })
        }),
    decreases n,
{
    vstd::arithmetic::power2::lemma2_to64();
    if n > 1 {
        lemma_delays_double((n - 1) as nat);
        vstd::arithmetic::power2::lemma_pow2_unfold((n - 1) as nat);
    }
}

/// The challenge that a client is sent is the one its answer is checked against, as it
/// came from the source of randomness; the end of the handshake is ServerInit, and after
/// it, or after a refusal, nothing more is said.
pub proof fn lemma_challenge_is_sent_as_it_is(
    minor: u8,
    input: Seq<u8>,
    response: Seq<u8>,
    why: Refusal,
    password: Option<Seq<char>>,
    width: u32,
    height: u32,
    name: Seq<char>,
)
    ensures
        ({
            let (stage, sent) = next_stage(
                StageView::Challenge { minor },
                input,
                password,
                width,
                height,
                name,
            );
            &&& sent == input
            &&& password matches Some(p) ==> next_stage(
                stage,
                response,
                password,
                width,
                height,
                name,
            ) == verdict(minor, response, response_to(p, sent))
        }),
        next_stage(StageView::Init, input, password, width, height, name) == (
            StageView::Ready,
            init_bytes(width, height, name),
        ),
        next_stage(StageView::Ready, input, password, width, height, name).1.len() == 0,
        next_stage(StageView::Refused(why), input, password, width, height, name).1.len() == 0,
        bytes_needed(StageView::Version) == version_bytes().len(),
        bytes_needed(StageView::Choice { minor }) == 1 && bytes_needed(StageView::Init) == 1,
        bytes_needed(StageView::Challenge { minor }) == 16,
        bytes_needed(StageView::Response { minor, challenge: input }) == 16,
{
}

/// A version that is no number counts as ours.
pub proof fn lemma_unreadable_minor_is_ours(b: Seq<u8>)
    requires
        b.len() == 12,
        !(48 <= b[8] <= 57 || b[8] == 43) || !(48 <= b[9] <= 57) || !(48 <= b[10] <= 57),
    ensures
        minor_of(b) == 8,
{
    let s = b.subrange(8, 11).map_values(|x: u8| x as char);
    assert(s[0] as u32 == b[8] && s[1] as u32 == b[9] && s[2] as u32 == b[10]);
    let d = crate::text::unsigned_part(s);
    let k: int = if s[0] == '+' {
        1
    } else {
        0
    };
    assert(d =~= s.skip(k));
    if !(48 <= b[8] <= 57 || b[8] == 43) {
        assert(!('0' <= d[0] && d[0] <= '9'));
    } else if !(48 <= b[9] <= 57) {
        assert(d[1 - k] == s[1]);
        assert(!('0' <= d[1 - k] && d[1 - k] <= '9'));
    } else {
        assert(d[2 - k] == s[2]);
        assert(!('0' <= d[2 - k] && d[2 - k] <= '9'));
    }
}

} // verus!
