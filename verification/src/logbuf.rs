//! The in-memory log behind the status heartbeat: timestamped entries, the
//! most recent `CAPACITY` of them kept, the newest `TAIL` shown.

use std::collections::VecDeque;
use vstd::prelude::*;

verus! {

/// How many entries the buffer keeps.
pub const CAPACITY: usize = 200;

/// How many entries each status report carries.
pub const TAIL: usize = 60;

/// One log line: the wall-clock time it was written (`HH:MM:SS`), its level
/// and its message.
#[derive(Debug, Clone)]
pub struct LogEntry {
    pub t: String,
    pub level: String,
    pub msg: String,
}

impl View for LogEntry {
    type V = (Seq<char>, Seq<char>, Seq<char>);

    open spec fn view(&self) -> (Seq<char>, Seq<char>, Seq<char>) {
        (self.t@, self.level@, self.msg@)
    }
}

impl LogEntry {
    /// A copy of the entry.
    pub fn copy(&self) -> (e: LogEntry)
        ensures
            e@ == self@,
    {
        LogEntry { t: self.t.clone(), level: self.level.clone(), msg: self.msg.clone() }
    }
}

/// The last `n` items of `s` (all of them when there are fewer).
pub open spec fn last_n<A>(s: Seq<A>, n: int) -> Seq<A> {
    if s.len() <= n {
        s
    } else {
        s.skip(s.len() - n)
    }
}

/// `s` is the local time of day as `HH:MM:SS`, each field two ASCII digits.
pub open spec fn clock_shaped(s: Seq<char>) -> bool {
    &&& s.len() == 8
    &&& s[2] == ':'
    &&& s[5] == ':'
    &&& forall|i: int| 0 <= i < 8 && i != 2 && i != 5 ==> '0' <= #[trigger] s[i] <= '9'
}

/// `chrono::Local::now().format("%H:%M:%S").to_string()`: the local time of
/// day. Which time it is depends on the clock and is not stated; chrono's
/// documentation gives its shape: hour, minute and second, each zero-padded
/// to two digits, joined by colons.
#[verifier::external_body]
fn local_clock_hms() -> (t: String)
    ensures
        clock_shaped(t@),
{
    chrono::Local::now().format("%H:%M:%S").to_string()
}

/// The log: entries oldest first, never more than `CAPACITY`.
#[derive(Debug)]
pub struct LogBuffer {
    entries: VecDeque<LogEntry>,
}

impl View for LogBuffer {
    type V = Seq<(Seq<char>, Seq<char>, Seq<char>)>;

    closed spec fn view(&self) -> Seq<(Seq<char>, Seq<char>, Seq<char>)> {
        self.entries@.map_values(|e: LogEntry| e@)
    }
}

impl LogBuffer {
    /// The buffer keeps at most `CAPACITY` entries.
    pub closed spec fn wf(&self) -> bool {
        self.entries@.len() <= CAPACITY
    }

    /// An empty log.
    pub fn new() -> (b: LogBuffer)
        ensures
            b.wf(),
            b@ == Seq::<(Seq<char>, Seq<char>, Seq<char>)>::empty(),
    {
        let b = LogBuffer { entries: VecDeque::new() };
        proof {
            assert(b@ =~= Seq::<(Seq<char>, Seq<char>, Seq<char>)>::empty());
        }
        b
    }

    /// How many entries are kept.
    pub fn len(&self) -> (n: usize)
        ensures
            n == self@.len(),
    {
        self.entries.len()
    }

    /// Appends an entry stamped `t`, dropping the oldest entries beyond
    /// `CAPACITY`.
    pub fn push_at(&mut self, t: String, level: &str, msg: String)
        requires
            old(self).wf(),
        ensures
            final(self).wf(),
            final(self)@ == last_n(old(self)@.push((t@, level@, msg@)), CAPACITY as int),
    {
        let ghost before = self.entries@;
        let entry = LogEntry { t, level: level.to_owned(), msg };
        self.entries.push_back(entry);
        let ghost all = before.push(entry);
        proof {
            assert(all.skip(0) =~= all);
        }
        while self.entries.len() > CAPACITY
            invariant
                all.len() <= CAPACITY + 1,
                all.len() >= self.entries@.len(),
                self.entries@.len() == all.len() || self.entries@.len() == CAPACITY,
                self.entries@ == all.skip(all.len() - self.entries@.len()),
            decreases self.entries@.len(),
        {
            self.entries.pop_front();
            proof {
                assert(self.entries@ =~= all.skip(all.len() - self.entries@.len()));
            }
        }
        proof {
            let k = all.len() - self.entries@.len();
            assert(self@ =~= all.map_values(|e: LogEntry| e@).skip(k));
            assert(all.map_values(|e: LogEntry| e@) =~= old(self)@.push((t@, level@, msg@)));
            if all.len() <= CAPACITY {
                assert(all.map_values(|e: LogEntry| e@).skip(0) =~= all.map_values(
                    |e: LogEntry| e@,
                ));
            }
        }
    }

    /// Appends an entry stamped with the local time of day, dropping the
    /// oldest entries beyond `CAPACITY`.
    pub fn push(&mut self, level: &str, msg: String)
        requires
            old(self).wf(),
        ensures
            final(self).wf(),
            exists|t: Seq<char>|
                clock_shaped(t) && final(self)@ == last_n(
                    #[trigger] old(self)@.push((t, level@, msg@)),
                    CAPACITY as int,
                ),
    {
        let t = local_clock_hms();
        let ghost tv = t@;
        self.push_at(t, level, msg);
        proof {
            assert(clock_shaped(tv));
        }
    }

    /// The newest `n` entries (all of them when there are fewer), oldest
    /// first.
    pub fn tail(&self, n: usize) -> (v: Vec<LogEntry>)
        ensures
            v@.map_values(|e: LogEntry| e@) == last_n(self@, n as int),
    {
        let len = self.entries.len();
        let start = if len > n {
            len - n
        } else {
            0
        };
        let mut v: Vec<LogEntry> = Vec::new();
        let mut i = start;
        while i < len
            invariant
                start <= i <= len == self.entries@.len(),
                len > n ==> start == len - n,
                len <= n ==> start == 0,
                v@.map_values(|e: LogEntry| e@) == self@.subrange(start as int, i as int),
            decreases len - i,
        {
            let e = self.entries[i].copy();
            let ghost before = v@;
            v.push(e);
            proof {
                assert(v@ == before.push(e));
                assert(e@ == self@[i as int]);
                assert(v@.map_values(|e: LogEntry| e@) =~= before.map_values(|e: LogEntry| e@).push(
                    e@,
                ));
                assert(v@.map_values(|e: LogEntry| e@) =~= self@.subrange(start as int, i as int + 1));
            }
            i = i + 1;
        }
        proof {
            assert(self@.subrange(start as int, len as int) =~= last_n(self@, n as int));
        }
        v
    }
}

impl Default for LogBuffer {
    fn default() -> (b: LogBuffer)
        ensures
            b.wf(),
            b@ == Seq::<(Seq<char>, Seq<char>, Seq<char>)>::empty(),
    {
        LogBuffer::new()
    }
}

} // verus!
