//! Optional process supervision: an X server and the desktop session on it.

use vstd::prelude::*;

use crate::text::{decimal, push_decimal, push_text};

verus! {

/// Where the X server of a display listens.
pub open spec fn socket_path(number: u32) -> Seq<char> {
    "/tmp/.X11-unix/X"@ + decimal(number as nat)
}

pub fn display_socket(number: u32) -> (s: String)
    ensures
        s@ == socket_path(number),
{
    let mut s: String = "/tmp/.X11-unix/X".to_owned();
    push_decimal(&mut s, number as u64);
    s
}

/// The file by which an X server claims a display.
pub fn display_lock(number: u32) -> (s: String)
    ensures
        s@ == "/tmp/.X"@ + decimal(number as nat) + "-lock"@,
{
    let mut s: String = "/tmp/.X".to_owned();
    push_decimal(&mut s, number as u64);
    push_text(&mut s, "-lock");
    s
}

/// The name of a display.
pub fn display_name(number: u32) -> (s: String)
    ensures
        s@ == ":"@ + decimal(number as nat),
{
    let mut s: String = ":".to_owned();
    push_decimal(&mut s, number as u64);
    s
}

fn is_taken(taken: &[u32], n: u32) -> (b: bool)
    ensures
        b == taken@.contains(n),
{
    for i in 0..taken.len()
        invariant
            forall|j: int| 0 <= j < i ==> taken@[j] != n,
    {
        if taken[i] == n {
            return true;
        }
    }
    false
}

/// The first display number from 1 to 99 that is not taken: those are taken of
/// which there is a socket or a lock.
pub fn free_display_number(taken: &[u32]) -> (r: Option<u32>)
    ensures
        match r {
            Some(n) => 1 <= n < 100 && !taken@.contains(n) && forall|k: u32|
                1 <= k < n ==> taken@.contains(k),
            None => forall|k: u32| 1 <= k < 100 ==> taken@.contains(k),
        },
{
    for n in 1..100u32
        invariant
            forall|k: u32| 1 <= k < n ==> taken@.contains(k),
    {
        if !is_taken(taken, n) {
            return Some(n);
        }
    }
    None
}

/// The words that follow the name of an X server with Xvfb's syntax.
pub open spec fn server_words(number: u32, width: u32, height: u32, depth: u32) -> Seq<Seq<char>> {
    seq![
        ":"@ + decimal(number as nat),
        "-screen"@,
        "0"@,
        decimal(width as nat) + "x"@ + decimal(height as nat) + "x"@ + decimal(depth as nat),
        "-nolisten"@,
        "tcp"@,
        "-noreset"@,
    ]
}

pub fn server_args(number: u32, width: u32, height: u32, depth: u32) -> (v: Vec<String>)
    ensures
        v@.map_values(|s: String| s@) == server_words(number, width, height, depth),
{
    let mut screen: String = String::new();
    push_decimal(&mut screen, width as u64);
    push_text(&mut screen, "x");
    push_decimal(&mut screen, height as u64);
    push_text(&mut screen, "x");
    push_decimal(&mut screen, depth as u64);
    assert(screen@ =~= decimal(width as nat) + "x"@ + decimal(height as nat) + "x"@ + decimal(
        depth as nat,
    ));
    let v: Vec<String> = vec![
        display_name(number),
        "-screen".to_owned(),
        "0".to_owned(),
        screen,
        "-nolisten".to_owned(),
        "tcp".to_owned(),
        "-noreset".to_owned(),
    ];
    assert(v@.map_values(|s: String| s@) =~= server_words(number, width, height, depth));
    v
}

/// Children we must take down before exiting, by number.
pub struct Supervisor {
    pub children: Vec<u64>,
    pub stopping: bool,
}

/// Whom to kill and whom to wait for, each in order.
pub struct Takedown {
    pub kill: Vec<u64>,
    pub wait: Vec<u64>,
}

impl Supervisor {
    pub fn new() -> (s: Self)
        ensures
            s.children@ == Seq::<u64>::empty(),
            !s.stopping,
    {
        let s = Supervisor { children: Vec::new(), stopping: false };
        assert(s.children@ =~= Seq::<u64>::empty());
        s
    }

    pub fn adopt(&mut self, child: u64)
        ensures
            final(self).children@ == old(self).children@.push(child),
            final(self).stopping == old(self).stopping,
    {
        self.children.push(child);
    }

    /// The session: whoever was started last.
    pub fn session(&self) -> (c: Option<u64>)
        ensures
            c == (if self.children@.len() == 0 {
                None
            } else {
                Some(self.children@.last())
            }),
    {
        let n: usize = self.children.len();
        if n == 0 {
            None
        } else {
            Some(self.children[n - 1])
        }
    }

    /// Take down everything we started. Safe to call more than once.
    ///
    /// Killing goes in reverse order: the session first, then the X server
    /// under it.
    pub fn stop(&mut self) -> (t: Takedown)
        ensures
            final(self).stopping,
            old(self).stopping ==> {
                &&& t.kill@ == Seq::<u64>::empty()
                &&& t.wait@ == Seq::<u64>::empty()
                &&& final(self).children@ == old(self).children@
            },
            !old(self).stopping ==> {
                &&& t.kill@ == old(self).children@.reverse()
                &&& t.wait@ == old(self).children@
                &&& final(self).children@ == Seq::<u64>::empty()
            },
    {
        let mut kill: Vec<u64> = Vec::new();
        let mut wait: Vec<u64> = Vec::new();
        if self.stopping {
            assert(kill@ =~= Seq::<u64>::empty());
            assert(wait@ =~= Seq::<u64>::empty());
            return Takedown { kill, wait };
        }
        self.stopping = true;
        let n: usize = self.children.len();
        let mut i: usize = n;
        while i > 0
            invariant
                n == self.children@.len(),
                self.children@ == old(self).children@,
                self.stopping,
                i <= n,
                kill@.len() == n - i,
                forall|j: int| 0 <= j < n - i ==> #[trigger] kill@[j] == self.children@[n - 1 - j],
            decreases i,
        {
            i = i - 1;
            kill.push(self.children[i]);
        }
        assert(kill@ =~= self.children@.reverse());
        std::mem::swap(&mut self.children, &mut wait);
        assert(self.children@ =~= Seq::<u64>::empty());
        Takedown { kill, wait }
    }
}

/// An X server is started for a display of its number, with one screen of a size and a
/// depth, that listens on no network and keeps going when its last client leaves.
pub proof fn lemma_server_is_told_its_screen(number: u32, width: u32, height: u32, depth: u32)
    ensures
        ({
            let w = server_words(number, width, height, depth);
            &&& w.len() == 7
            &&& w[0] == seq![':'] + decimal(number as nat)
            &&& w[1] == "-screen"@ && w[2] == seq!['0']
            &&& w[3] == decimal(width as nat) + seq!['x'] + decimal(height as nat) + seq!['x']
                + decimal(depth as nat)
            &&& w[4] == "-nolisten"@ && w[5] == "tcp"@ && w[6] == "-noreset"@
        }),
{
    reveal_strlit(":");
    reveal_strlit("0");
    reveal_strlit("x");
    assert(":"@ =~= seq![':']);
    assert("0"@ =~= seq!['0']);
    assert("x"@ =~= seq!['x']);
}

/// The socket of a display is named after its number.
pub proof fn lemma_socket_has_the_number(number: u32)
    ensures
        socket_path(number) == "/tmp/.X11-unix/"@ + seq!['X'] + decimal(number as nat),
{
    reveal_strlit("/tmp/.X11-unix/X");
    reveal_strlit("/tmp/.X11-unix/");
    assert("/tmp/.X11-unix/X"@ =~= "/tmp/.X11-unix/"@ + seq!['X']);
}

} // verus!
