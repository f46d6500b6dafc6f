//! The monitor stream model: a client that puts dedicated connections into
//! the server's continuous-feed mode and republishes decoded feed lines as
//! structured events. The state machine and the feed-line parsing live
//! here; opening connections, awaiting bytes and delivering events is the
//! surrounding driver's work.

use vstd::prelude::*;

verus! {

/// A command event observed on the continuous feed: the optional key it
/// touches, its argument values in order, the receipt instant (milliseconds
/// of the driver's clock) and the originating server.
pub struct MonitorFrame {
    pub key: Option<Vec<u8>>,
    pub args: Vec<Vec<u8>>,
    pub received: u64,
    pub server: String,
}

/// Lifecycle of a monitor client. A stopped monitor is not restartable: a
/// new session takes a new client.
#[derive(Clone, Copy, PartialEq, Eq, Structural, Debug)]
pub enum MonitorState {
    Idle,
    Running,
    Stopped,
}

/// A client for the server's continuous-feed mode, one connection per
/// target server.
pub struct Monitor {
    pub state: MonitorState,
    pub servers: Vec<String>,
}

impl Monitor {
    /// A fresh monitor client for the given servers, not yet running.
    pub fn new(servers: Vec<String>) -> (r: Monitor)
        ensures
            r.state == MonitorState::Idle,
            r.servers@ == servers@,
    {
        Monitor { state: MonitorState::Idle, servers }
    }

    /// Whether the feed is live.
    pub fn is_running(&self) -> (r: bool)
        ensures
            r == (self.state == MonitorState::Running),
    {
        match self.state {
            MonitorState::Running => true,
            _ => false,
        }
    }

    /// Begin the feed: from idle, the monitor starts running and hands the
    /// driver the servers to connect to and put into feed mode. From any
    /// other state nothing changes and nothing is handed out — a stopped
    /// monitor is not restartable.
    pub fn monitor(&mut self) -> (r: Option<Vec<String>>)
        ensures
            old(self).state == MonitorState::Idle ==> final(self).state == MonitorState::Running
                && (r matches Some(s) && s@.len() == old(self).servers@.len() && forall|k: int|
                0 <= k < s@.len() ==> (#[trigger] s@[k])@ == old(self).servers@[k]@),
            old(self).state != MonitorState::Idle ==> *final(self) == *old(self) && r is None,
            final(self).servers@ == old(self).servers@,
    {
        match self.state {
            MonitorState::Idle => {
                self.state = MonitorState::Running;
                let mut out: Vec<String> = Vec::new();
                let n: usize = self.servers.len();
                let mut j: usize = 0;
                while j < n
                    invariant
                        j <= n,
                        n == self.servers@.len(),
                        out@.len() == j as int,
                        forall|k: int| 0 <= k < j ==> out@[k]@ == #[trigger] self.servers@[k]@,
                    decreases n - j,
                {
                    let s = clone_server_name(&self.servers[j]);
                    out.push(s);
                    j = j + 1;
                }
                Some(out)
            },
            _ => None,
        }
    }

    /// End the feed and release the connections: from running, the monitor
    /// stops and the caller closes the connections and signals the end of
    /// the event sequence. Calling it before the feed ever started is a
    /// no-op, and calling it again after it stopped changes nothing.
    pub fn stop(&mut self) -> (r: bool)
        ensures
            old(self).state == MonitorState::Running ==> final(self).state == MonitorState::Stopped
                && r == true,
            old(self).state != MonitorState::Running ==> *final(self) == *old(self) && r == false,
            final(self).state != MonitorState::Running,
    {
        match self.state {
            MonitorState::Running => {
                self.state = MonitorState::Stopped;
                true
            },
            _ => false,
        }
    }

    /// The teardown path taken when the consumer drops the event sequence
    /// without stopping explicitly: the very transition `stop` makes, so
    /// the running flag is clear afterwards either way.
    pub fn on_consumer_dropped(&mut self) -> (r: bool)
        ensures
            old(self).state == MonitorState::Running ==> final(self).state == MonitorState::Stopped
                && r == true,
            old(self).state != MonitorState::Running ==> *final(self) == *old(self) && r == false,
            final(self).state != MonitorState::Running,
    {
        self.stop()
    }
}

/// A copy of a server name handed out to the driver.
///
/// Relies on String::clone: the copy holds the same characters.
#[verifier::external_body]
fn clone_server_name(s: &String) -> (r: String)
    ensures
        r@ == s@,
{
    s.clone()
}

/// The double-quoted pieces of a feed line, in order: a feed line writes
/// the command name and each argument wrapped in double quotes.
pub open spec fn quoted_tokens(s: Seq<u8>) -> Seq<Seq<u8>>
    decreases s.len(),
{
    if s.len() == 0 {
        Seq::empty()
    } else if s[0] == 34 {
        let close = first_quote(s.drop_first());
        if close < 0 || close + 2 > s.len() {
            Seq::empty()
        } else {
            seq![s.subrange(1, 1 + close)] + quoted_tokens(s.skip(close + 2))
        }
    } else {
        quoted_tokens(s.drop_first())
    }
}

/// Index of the first double quote, or a negative answer if none stands in
/// the text.
pub open spec fn first_quote(s: Seq<u8>) -> int
    decreases s.len(),
{
    if s.len() == 0 {
        -1
    } else if s[0] == 34 {
        0
    } else {
        let r = first_quote(s.drop_first());
        if r < 0 {
            -1
        } else {
            r + 1
        }
    }
}

pub proof fn lemma_first_quote(s: Seq<u8>)
    ensures
        first_quote(s) >= 0 ==> 0 <= first_quote(s) < s.len() && s[first_quote(s)] == 34
            && forall|k: int| 0 <= k < first_quote(s) ==> s[k] != 34,
        first_quote(s) < 0 ==> forall|k: int| 0 <= k < s.len() ==> s[k] != 34,
    decreases s.len(),
{
    if s.len() > 0 && s[0] != 34 {
        lemma_first_quote(s.drop_first());
        let q = first_quote(s);
        if q >= 0 {
            assert(first_quote(s.drop_first()) == q - 1);
            assert(s[q] == s.drop_first()[q - 1]);
            assert forall|k: int| 0 <= k < q implies s[k] != 34 by {
                if k > 0 {
                    assert(s.drop_first()[k - 1] == s[k]);
                }
            }
        } else {
            assert forall|k: int| 0 <= k < s.len() implies s[k] != 34 by {
                if k > 0 {
                    assert(s.drop_first()[k - 1] == s[k]);
                }
            }
        }
    }
}

/// Find the next double quote in `buf` at or after `from`, as an absolute
/// index.
fn find_quote(buf: &Vec<u8>, from: usize) -> (r: Option<usize>)
    requires
        from <= buf@.len(),
    ensures
        ({
            let q = first_quote(buf@.skip(from as int));
            match r {
                Some(j) => from <= j < buf@.len() && q == j - from,
                None => q < 0,
            }
        }),
{
    let ghost s = buf@.skip(from as int);
    let n: usize = buf.len();
    let mut j: usize = from;
    while j < n
        invariant
            from <= j <= n,
            n == buf@.len(),
            s == buf@.skip(from as int),
            forall|k: int| 0 <= k < j - from ==> s[k] != 34,
        decreases n - j,
    {
        proof {
            assert(s[j - from] == buf@[j as int]);
        }
        if buf[j] == 34 {
            proof {
                lemma_first_quote_found(s, j - from);
            }
            return Some(j);
        }
        j = j + 1;
    }
    proof {
        lemma_first_quote_none(s);
    }
    None
}

proof fn lemma_first_quote_found(s: Seq<u8>, i: int)
    requires
        0 <= i < s.len(),
        s[i] == 34,
        forall|k: int| 0 <= k < i ==> s[k] != 34,
    ensures
        first_quote(s) == i,
    decreases i,
{
    if i > 0 {
        assert(forall|k: int| 0 <= k < i - 1 ==> s.drop_first()[k] == #[trigger] s[k + 1]);
        assert(s.drop_first()[i - 1] == s[i]);
        lemma_first_quote_found(s.drop_first(), i - 1);
    }
}

proof fn lemma_first_quote_none(s: Seq<u8>)
    requires
        forall|k: int| 0 <= k < s.len() ==> s[k] != 34,
    ensures
        first_quote(s) < 0,
    decreases s.len(),
{
    if s.len() > 0 {
        assert(forall|k: int| 0 <= k < s.drop_first().len() ==> s.drop_first()[k] == #[trigger] s[
            k + 1]);
        lemma_first_quote_none(s.drop_first());
    }
}

/// Parse one decoded feed line into a monitor event: the quoted pieces are
/// the command name and its arguments in order, and the piece after the
/// command, if any, is the key the command touches. The receipt instant and
/// the server identifier are the caller's.
pub fn parse_monitor_line(line: &Vec<u8>, received: u64, server: String) -> (r: MonitorFrame)
    ensures
        r.args@.len() == quoted_tokens(line@).len(),
        forall|k: int|
            0 <= k < r.args@.len() ==> #[trigger] r.args@[k]@ == quoted_tokens(line@)[k],
        quoted_tokens(line@).len() >= 2 ==> (r.key matches Some(s) && s@ == quoted_tokens(
            line@,
        )[1]),
        quoted_tokens(line@).len() < 2 ==> r.key is None,
        r.received == received,
        r.server@ == server@,
{
    let ghost gl = line@;
    let mut args: Vec<Vec<u8>> = Vec::new();
    let n: usize = line.len();
    let mut pos: usize = 0;
    proof {
        assert(crate::frame::seq_of_views(args@) =~= Seq::<Seq<u8>>::empty());
        assert(gl.skip(0) =~= gl);
    }
    while pos < n
        invariant
            pos <= n,
            n == line@.len(),
            gl == line@,
            quoted_tokens(gl) == crate::frame::seq_of_views(args@) + quoted_tokens(
                gl.skip(pos as int),
            ),
        decreases n - pos,
    {
        let ghost rem = gl.skip(pos as int);
        match find_quote(line, pos) {
            None => {
                proof {
                    lemma_tokens_no_quote(rem);
                }
                pos = n;
            },
            Some(open) => {
                proof {
                    lemma_first_quote(rem);
                    lemma_tokens_skip_to_quote(rem, open - pos);
                    assert(gl.skip(open as int) =~= rem.skip(open - pos));
                }
                match find_quote(line, open + 1) {
                    None => {
                        proof {
                            lemma_first_quote(gl.skip(open + 1 as int));
                            assert(gl.skip(open as int).drop_first() =~= gl.skip(open + 1 as int));
                        }
                        pos = n;
                        proof {
                            assert(quoted_tokens(gl.skip(open as int)) =~= Seq::<Seq<u8>>::empty());
                            assert(quoted_tokens(gl.skip(pos as int)) =~= Seq::<Seq<u8>>::empty());
                        }
                    },
                    Some(close) => {
                        proof {
                            lemma_first_quote(gl.skip(open + 1 as int));
                            assert(gl.skip(open as int).drop_first() =~= gl.skip(open + 1 as int));
                            assert(gl.skip(open as int).subrange(1, 1 + (close - open - 1))
                                =~= gl.subrange(open + 1, close as int));
                            assert(gl.skip(open as int).skip((close - open - 1) + 2) =~= gl.skip(
                                close + 1 as int,
                            ));
                        }
                        let tok = crate::decode::copy_range(line, open + 1, close);
                        let ghost args0 = args@;
                        let ghost tokv = tok@;
                        args.push(tok);
                        proof {
                            crate::frame::lemma_seq_of_views_push(args0, args@[args@.len() - 1]);
                            assert(args@ =~= args0.push(args@[args@.len() - 1]));
                            assert(crate::frame::seq_of_views(args@) == crate::frame::seq_of_views(
                                args0,
                            ).push(tokv));
                        }
                        pos = close + 1;
                    },
                }
            },
        }
    }
    proof {
        assert(gl.skip(n as int) =~= Seq::<u8>::empty());
        assert(quoted_tokens(gl.skip(n as int)) =~= Seq::<Seq<u8>>::empty());
        assert(quoted_tokens(gl) =~= crate::frame::seq_of_views(args@));
    }
    proof {
        crate::frame::lemma_seq_of_views(args@);
    }
    let key: Option<Vec<u8>> = if args.len() >= 2 {
        let second_len: usize = args[1].len();
        let copied = crate::decode::copy_range(&args[1], 0, second_len);
        proof {
            assert(args@[1]@.subrange(0, args@[1]@.len() as int) =~= args@[1]@);
        }
        Some(copied)
    } else {
        None
    };
    MonitorFrame { key, args, received, server }
}

proof fn lemma_tokens_no_quote(s: Seq<u8>)
    requires
        first_quote(s) < 0,
    ensures
        quoted_tokens(s) == Seq::<Seq<u8>>::empty(),
    decreases s.len(),
{
    lemma_first_quote(s);
    if s.len() > 0 {
        assert(forall|k: int| 0 <= k < s.drop_first().len() ==> s.drop_first()[k] == #[trigger] s[
            k + 1]);
        lemma_first_quote_none(s.drop_first());
        lemma_tokens_no_quote(s.drop_first());
    }
}

/// Tokens are unchanged by skipping the quote-free prefix.
proof fn lemma_tokens_skip_to_quote(s: Seq<u8>, i: int)
    requires
        0 <= i < s.len(),
        s[i] == 34,
        forall|k: int| 0 <= k < i ==> s[k] != 34,
    ensures
        quoted_tokens(s) == quoted_tokens(s.skip(i)),
    decreases i,
{
    if i > 0 {
        assert(forall|k: int| 0 <= k < i - 1 ==> s.drop_first()[k] == #[trigger] s[k + 1]);
        assert(s.drop_first()[i - 1] == s[i]);
        lemma_tokens_skip_to_quote(s.drop_first(), i - 1);
        assert(s.drop_first().skip(i - 1) =~= s.skip(i));
    } else {
        assert(s.skip(0) =~= s);
    }
}

} // verus!
