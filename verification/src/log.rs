//! In-memory log buffers, capped at a number of lines, one per named logger.
use std::collections::VecDeque;
use vstd::prelude::*;
use vstd::string::StringExecFns;

verus! {

broadcast use vstd::std_specs::vecdeque::group_vec_dequeue_axioms;

/// The default number of lines that each log buffer keeps.
pub const DEFAULT_LOG_MAX_LINES: usize = 20000;

/// Identifies which subsystem produced a log stream.
#[derive(Debug, Clone, Copy, PartialEq, Eq, Structural, Hash)]
pub enum LogKind {
    Helix,
    Lsp,
    Dap,
}

/// The label of each kind of log stream.
pub open spec fn log_kind_label(kind: LogKind) -> Seq<char> {
    match kind {
        LogKind::Helix => "helix"@,
        LogKind::Lsp => "lsp"@,
        LogKind::Dap => "dap"@,
    }
}

impl LogKind {
    /// The label of this kind of log stream.
    pub fn label(&self) -> (r: &'static str)
        ensures
            r@ == log_kind_label(*self),
    {
        match self {
            LogKind::Helix => "helix",
            LogKind::Lsp => "lsp",
            LogKind::Dap => "dap",
        }
    }
}

/// Metadata describing a log buffer that can be opened by the UI.
#[derive(Debug, Clone)]
pub struct LogBufferItem {
    pub kind: LogKind,
    pub name: String,
}

/// A single log line emitted by a named logger.
#[derive(Debug, Clone)]
pub struct LogEvent {
    pub kind: LogKind,
    pub name: String,
    pub line: String,
}

/// The key of a log buffer: its kind and its logger's name.
pub type LogKey = (LogKind, Seq<char>);

/// One log buffer.
struct LogBuffer {
    kind: LogKind,
    name: String,
    lines: VecDeque<String>,
}

/// The key of a buffer.
spec fn key_of(b: LogBuffer) -> LogKey {
    (b.kind, b.name@)
}

/// The lines of a buffer.
spec fn lines_of(b: LogBuffer) -> Seq<Seq<char>> {
    b.lines@.map_values(|l: String| l@)
}

/// The lines of each buffer of a sequence of buffers, by key.
spec fn buffers_map(s: Seq<LogBuffer>) -> Map<LogKey, Seq<Seq<char>>>
    decreases s.len(),
{
    if s.len() == 0 {
        Map::empty()
    } else {
        buffers_map(s.drop_last()).insert(key_of(s.last()), lines_of(s.last()))
    }
}

/// No two buffers share a key.
spec fn keys_unique(s: Seq<LogBuffer>) -> bool {
    forall|i: int, j: int| 0 <= i < j < s.len() ==> key_of(s[i]) != key_of(s[j])
}

/// The last `max` lines of `lines`.
pub open spec fn capped(lines: Seq<Seq<char>>, max: nat) -> Seq<Seq<char>> {
    if lines.len() > max {
        lines.subrange(lines.len() - max, lines.len() as int)
    } else {
        lines
    }
}

/// Concatenation of lines.
pub open spec fn joined(lines: Seq<Seq<char>>) -> Seq<char>
    decreases lines.len(),
{
    if lines.len() == 0 {
        Seq::empty()
    } else {
        joined(lines.drop_last()) + lines.last()
    }
}

proof fn lemma_buffers_map_finds(s: Seq<LogBuffer>, i: int)
    requires
        keys_unique(s),
        0 <= i < s.len(),
    ensures
        buffers_map(s).contains_key(key_of(s[i])),
        buffers_map(s)[key_of(s[i])] == lines_of(s[i]),
    decreases s.len(),
{
    if i < s.len() - 1 {
        lemma_buffers_map_finds(s.drop_last(), i);
    }
}

proof fn lemma_buffers_map_misses(s: Seq<LogBuffer>, k: LogKey)
    requires
        forall|i: int| 0 <= i < s.len() ==> key_of(s[i]) != k,
    ensures
        !buffers_map(s).contains_key(k),
    decreases s.len(),
{
    if s.len() > 0 {
        lemma_buffers_map_misses(s.drop_last(), k);
    }
}

proof fn lemma_buffers_map_update(s: Seq<LogBuffer>, i: int, b: LogBuffer)
    requires
        keys_unique(s),
        0 <= i < s.len(),
        key_of(b) == key_of(s[i]),
    ensures
        buffers_map(s.update(i, b)) == buffers_map(s).insert(key_of(b), lines_of(b)),
    decreases s.len(),
{
    let t = s.update(i, b);
    if i == s.len() - 1 {
        assert(t.drop_last() =~= s.drop_last());
        assert(buffers_map(t) =~= buffers_map(s).insert(key_of(b), lines_of(b)));
    } else {
        assert(t.drop_last() =~= s.drop_last().update(i, b));
        lemma_buffers_map_update(s.drop_last(), i, b);
        assert(key_of(s.last()) != key_of(b));
        assert(buffers_map(t) =~= buffers_map(s).insert(key_of(b), lines_of(b)));
    }
}

/// The central in-memory log store: line-capped buffers, one per logger.
pub struct LogStore {
    buffers: Vec<LogBuffer>,
    max_lines: usize,
}

impl View for LogStore {
    type V = Map<LogKey, Seq<Seq<char>>>;

    closed spec fn view(&self) -> Self::V {
        buffers_map(self.buffers@)
    }
}

impl LogStore {
    /// The store is well formed: no two buffers share a key, and no buffer holds more
    /// than the maximum number of lines.
    pub closed spec fn wf(&self) -> bool {
        &&& keys_unique(self.buffers@)
        &&& forall|i: int|
            0 <= i < self.buffers@.len() ==> #[trigger] self.buffers@[i].lines@.len()
                <= self.max_lines
    }

    /// The maximum number of lines per buffer.
    pub closed spec fn max_lines_view(&self) -> nat {
        self.max_lines as nat
    }

    /// No buffer of a well-formed store holds more than the maximum number of lines.
    pub proof fn lemma_buffers_capped(&self)
        requires
            self.wf(),
        ensures
            forall|k: LogKey| #[trigger] self@.contains_key(k) ==> self@[k].len() <= self.max_lines_view(),
    {
        assert forall|k: LogKey| #[trigger] self@.contains_key(k) implies self@[k].len()
            <= self.max_lines_view() by {
            if forall|i: int| 0 <= i < self.buffers@.len() ==> key_of(self.buffers@[i]) != k {
                lemma_buffers_map_misses(self.buffers@, k);
            } else {
                let i = choose|i: int| 0 <= i < self.buffers@.len() && key_of(self.buffers@[i]) == k;
                lemma_buffers_map_finds(self.buffers@, i);
                assert(self.buffers@[i].lines@.len() <= self.max_lines);
            }
        }
    }

    /// An empty store that keeps at most `max_lines` lines per buffer.
    pub fn new(max_lines: usize) -> (r: LogStore)
        ensures
            r.wf(),
            r@ == Map::<LogKey, Seq<Seq<char>>>::empty(),
            r.max_lines_view() == max_lines,
    {
        LogStore { buffers: Vec::new(), max_lines }
    }

    /// The configured maximum line count per buffer.
    pub fn max_lines(&self) -> (r: usize)
        ensures
            r == self.max_lines_view(),
    {
        self.max_lines
    }

    fn find(&self, kind: LogKind, name: &str) -> (r: Option<usize>)
        requires
            self.wf(),
        ensures
            match r {
                Some(i) => i < self.buffers@.len() && key_of(self.buffers@[i as int]) == (
                kind,
                name@,
            ),
                None => forall|i: int|
                    0 <= i < self.buffers@.len() ==> key_of(self.buffers@[i]) != (kind, name@),
            },
    {
        let mut i: usize = 0;
        while i < self.buffers.len()
            invariant
                i <= self.buffers@.len(),
                forall|j: int| 0 <= j < i ==> key_of(self.buffers@[j]) != (kind, name@),
            decreases self.buffers@.len() - i,
        {
            if self.buffers[i].kind == kind && crate::text::str_eq(
                self.buffers[i].name.as_str(),
                name,
            ) {
                return Some(i);
            }
            i = i + 1;
        }
        None
    }

    /// Lists the known log buffers, one item per buffer.
    pub fn buffers(&self) -> (r: Vec<LogBufferItem>)
        requires
            self.wf(),
        ensures
            forall|k: LogKey|
                self@.contains_key(k) <==> exists|i: int|
                    0 <= i < r@.len() && (#[trigger] r@[i].kind, r@[i].name@) == k,
            forall|i: int, j: int|
                0 <= i < j < r@.len() ==> (r@[i].kind, r@[i].name@) != (r@[j].kind, r@[j].name@),
    {
        let mut out: Vec<LogBufferItem> = Vec::new();
        let mut i: usize = 0;
        while i < self.buffers.len()
            invariant
                i <= self.buffers@.len(),
                out@.len() == i,
                forall|j: int|
                    0 <= j < i ==> (#[trigger] out@[j].kind, out@[j].name@) == key_of(
                        self.buffers@[j],
                    ),
            decreases self.buffers@.len() - i,
        {
            out.push(
                LogBufferItem { kind: self.buffers[i].kind, name: self.buffers[i].name.clone() },
            );
            i = i + 1;
        }
        proof {
            assert forall|k: LogKey|
                self@.contains_key(k) implies exists|i: int|
                    0 <= i < out@.len() && (#[trigger] out@[i].kind, out@[i].name@) == k by {
                if forall|i: int| 0 <= i < self.buffers@.len() ==> key_of(self.buffers@[i]) != k {
                    lemma_buffers_map_misses(self.buffers@, k);
                } else {
                    let i = choose|i: int|
                        0 <= i < self.buffers@.len() && key_of(self.buffers@[i]) == k;
                    assert((out@[i].kind, out@[i].name@) == k);
                }
            }
            assert forall|k: LogKey|
                (exists|i: int|
                    0 <= i < out@.len() && (#[trigger] out@[i].kind, out@[i].name@) == k)
                    implies self@.contains_key(k) by {
                let i = choose|i: int|
                    0 <= i < out@.len() && (#[trigger] out@[i].kind, out@[i].name@) == k;
                lemma_buffers_map_finds(self.buffers@, i);
            }
        }
        out
    }

    /// Makes sure that a buffer exists for a named logger; an existing one is kept as it is.
    pub fn ensure_buffer(&mut self, kind: LogKind, name: &str)
        requires
            old(self).wf(),
        ensures
            final(self).wf(),
            final(self).max_lines_view() == old(self).max_lines_view(),
            final(self)@ == (if old(self)@.contains_key((kind, name@)) {
                old(self)@
            } else {
                old(self)@.insert((kind, name@), Seq::<Seq<char>>::empty())
            }),
    {
        match self.find(kind, name) {
            Some(i) => {
                proof {
                    lemma_buffers_map_finds(self.buffers@, i as int);
                }
            },
            None => {
                proof {
                    lemma_buffers_map_misses(self.buffers@, (kind, name@));
                }
                let b = LogBuffer { kind, name: name.to_owned(), lines: VecDeque::new() };
                self.buffers.push(b);
                proof {
                    assert(self.buffers@.drop_last() =~= old(self).buffers@);
                    assert(lines_of(b) =~= Seq::<Seq<char>>::empty());
                }
            },
        }
    }

    /// The whole content of a buffer: its lines, one after the other.
    pub fn buffer_content(&self, kind: LogKind, name: &str) -> (r: Option<String>)
        requires
            self.wf(),
        ensures
            r is Some <==> self@.contains_key((kind, name@)),
            r matches Some(s) ==> s@ == joined(self@[(kind, name@)]),
    {
        match self.find(kind, name) {
            None => {
                proof {
                    lemma_buffers_map_misses(self.buffers@, (kind, name@));
                }
                None
            },
            Some(i) => {
                proof {
                    lemma_buffers_map_finds(self.buffers@, i as int);
                }
                let lines = &self.buffers[i].lines;
                let ghost ls = lines_of(self.buffers@[i as int]);
                let mut out = String::new();
                let mut j: usize = 0;
                while j < lines.len()
                    invariant
                        ls == lines@.map_values(|l: String| l@),
                        j <= lines@.len(),
                        out@ == joined(ls.subrange(0, j as int)),
                    decreases lines@.len() - j,
                {
                    out.append(lines[j].as_str());
                    proof {
                        assert(ls.subrange(0, j + 1).drop_last() =~= ls.subrange(0, j as int));
                    }
                    j = j + 1;
                }
                proof {
                    assert(ls.subrange(0, lines@.len() as int) =~= ls);
                }
                Some(out)
            },
        }
    }

    /// Appends a line to a logger's buffer, creating the buffer when needed and dropping
    /// the oldest lines beyond the maximum; hands back the event to announce.
    pub fn append_line(&mut self, kind: LogKind, name: &str, line: String) -> (r: LogEvent)
        requires
            old(self).wf(),
        ensures
            final(self).wf(),
            final(self).max_lines_view() == old(self).max_lines_view(),
            final(self)@ == old(self)@.insert(
                (kind, name@),
                capped(
                    (if old(self)@.contains_key((kind, name@)) {
                        old(self)@[(kind, name@)]
                    } else {
                        Seq::empty()
                    }).push(line@),
                    old(self).max_lines_view(),
                ),
            ),
            r.kind == kind,
            r.name@ == name@,
            r.line@ == line@,
    {
        let ghost prior = if old(self)@.contains_key((kind, name@)) {
            old(self)@[(kind, name@)]
        } else {
            Seq::<Seq<char>>::empty()
        };
        let max_lines = self.max_lines;
        let found = self.find(kind, name);
        let mut buffer = match found {
            Some(i) => {
                proof {
                    lemma_buffers_map_finds(self.buffers@, i as int);
                }
                self.buffers.remove(i)
            },
            None => {
                proof {
                    lemma_buffers_map_misses(self.buffers@, (kind, name@));
                }
                LogBuffer { kind, name: name.to_owned(), lines: VecDeque::new() }
            },
        };
        assert(lines_of(buffer) =~= prior);
        let event = LogEvent { kind, name: name.to_owned(), line: line.clone() };
        buffer.lines.push_back(line);
        let ghost full = prior.push(line@);
        let ghost mut dropped: int = 0;
        assert(lines_of(buffer) =~= full);
        while buffer.lines.len() > max_lines
            invariant
                0 <= dropped <= full.len(),
                lines_of(buffer) =~= full.subrange(dropped, full.len() as int),
                buffer.lines@.len() == full.len() - dropped,
                dropped == 0 || buffer.lines@.len() >= max_lines,
                buffer.kind == kind,
                buffer.name@ == name@,
            decreases buffer.lines@.len(),
        {
            let ghost before = lines_of(buffer);
            buffer.lines.pop_front();
            proof {
                assert(lines_of(buffer) =~= before.subrange(1, before.len() as int));
                assert(lines_of(buffer) =~= full.subrange(dropped + 1, full.len() as int));
                dropped = dropped + 1;
            }
        }
        assert(lines_of(buffer) =~= capped(full, max_lines as nat));
        match found {
            Some(i) => {
                self.buffers.insert(i, buffer);
                proof {
                    assert(self.buffers@ =~= old(self).buffers@.update(i as int, buffer));
                    lemma_buffers_map_update(old(self).buffers@, i as int, buffer);
                }
            },
            None => {
                self.buffers.push(buffer);
                proof {
                    assert(self.buffers@.drop_last() =~= old(self).buffers@);
                }
            },
        }
        event
    }
}

/// After a line is appended to a buffer that keeps at least one line, the buffer ends with
/// that line and holds at most the maximum number of lines.
pub proof fn lemma_append_then_read(prior: Seq<Seq<char>>, line: Seq<char>, max: nat)
    requires
        max > 0,
    ensures
        capped(prior.push(line), max).len() > 0,
        capped(prior.push(line), max).last() == line,
        capped(prior.push(line), max).len() <= max,
{
}

/// The line that a logger writes: the time, the logger's name, the level in brackets and
/// the message, separated by spaces and ended by a newline.
pub fn format_log_line(timestamp: &str, name: &str, level: &str, message: &str) -> (r: String)
    ensures
        r@ == timestamp@ + " "@ + name@ + " ["@ + level@ + "] "@ + message@ + "\n"@,
{
    let mut line = timestamp.to_owned();
    line.append(" ");
    line.append(name);
    line.append(" [");
    line.append(level);
    line.append("] ");
    line.append(message);
    line.append("\n");
    line
}

/// The newline byte.
pub const NEWLINE: u8 = 10;

/// Splits bytes into complete lines, each ending with a newline, and the bytes after the
/// last newline.
pub open spec fn split_lines(b: Seq<u8>) -> (Seq<Seq<u8>>, Seq<u8>)
    decreases b.len(),
{
    if b.len() == 0 {
        (Seq::empty(), Seq::empty())
    } else {
        let (lines, rest) = split_lines(b.drop_last());
        if b.last() == NEWLINE {
            (lines.push(rest.push(NEWLINE)), Seq::empty())
        } else {
            (lines, rest.push(b.last()))
        }
    }
}

/// The text that bytes decode to, with each invalid sequence replaced by U+FFFD.
pub uninterp spec fn lossy_utf8(bytes: Seq<u8>) -> Seq<char>;

/// Decodes bytes as UTF-8 through `String::from_utf8_lossy`, which replaces each invalid
/// sequence with U+FFFD and decodes valid UTF-8 exactly.
#[verifier::external_body]
fn utf8_lossy(bytes: &[u8]) -> (r: String)
    ensures
        r@ == lossy_utf8(bytes@),
        vstd::utf8::valid_utf8(bytes@) ==> r@ == vstd::utf8::decode_utf8(bytes@),
{
    String::from_utf8_lossy(bytes).into_owned()
}

/// Collects the bytes written to a log sink and cuts them into lines.
pub struct LogLineBuffer {
    buffer: Vec<u8>,
}

impl View for LogLineBuffer {
    type V = Seq<u8>;

    closed spec fn view(&self) -> Seq<u8> {
        self.buffer@
    }
}

impl LogLineBuffer {
    /// A buffer without pending bytes.
    pub fn new() -> (r: LogLineBuffer)
        ensures
            r@ == Seq::<u8>::empty(),
    {
        LogLineBuffer { buffer: Vec::new() }
    }

    /// Adds written bytes and hands back every line that they complete, decoded; the bytes
    /// after the last newline stay pending.
    pub fn write(&mut self, buf: &[u8]) -> (r: Vec<String>)
        ensures
            r@.len() == split_lines(old(self)@ + buf@).0.len(),
            forall|i: int|
                0 <= i < r@.len() ==> #[trigger] r@[i]@ == lossy_utf8(
                    split_lines(old(self)@ + buf@).0[i],
                ),
            final(self)@ == split_lines(old(self)@ + buf@).1,
    {
        let ghost all = self.buffer@ + buf@;
        let mut cur: Vec<u8> = Vec::new();
        let mut out: Vec<String> = Vec::new();
        let mut i: usize = 0;
        let n = self.buffer.len();
        assert(all.subrange(0, 0) =~= Seq::<u8>::empty());
        while i < n
            invariant
                n == self.buffer@.len(),
                all == self.buffer@ + buf@,
                i <= n,
                out@.len() == split_lines(all.subrange(0, i as int)).0.len(),
                forall|j: int|
                    0 <= j < out@.len() ==> #[trigger] out@[j]@ == lossy_utf8(
                        split_lines(all.subrange(0, i as int)).0[j],
                    ),
                cur@ == split_lines(all.subrange(0, i as int)).1,
            decreases n - i,
        {
            let c = self.buffer[i];
            take_byte(c, &mut cur, &mut out, Ghost(all.subrange(0, i as int)));
            proof {
                assert(all.subrange(0, i as int).push(c) =~= all.subrange(0, i + 1));
            }
            i = i + 1;
        }
        let mut k: usize = 0;
        while k < buf.len()
            invariant
                n == self.buffer@.len(),
                all == self.buffer@ + buf@,
                k <= buf@.len(),
                out@.len() == split_lines(all.subrange(0, n + k)).0.len(),
                forall|j: int|
                    0 <= j < out@.len() ==> #[trigger] out@[j]@ == lossy_utf8(
                        split_lines(all.subrange(0, n + k)).0[j],
                    ),
                cur@ == split_lines(all.subrange(0, n + k)).1,
            decreases buf@.len() - k,
        {
            let c = buf[k];
            take_byte(c, &mut cur, &mut out, Ghost(all.subrange(0, n + k)));
            proof {
                assert(all.subrange(0, n + k).push(c) =~= all.subrange(0, n + k + 1));
            }
            k = k + 1;
        }
        proof {
            assert(all.subrange(0, n + buf@.len()) =~= all);
        }
        self.buffer = cur;
        out
    }

    /// Hands back the pending bytes as a final line, if there are any, and clears them.
    pub fn flush(&mut self) -> (r: Option<String>)
        ensures
            r is Some <==> old(self)@.len() > 0,
            r matches Some(s) ==> s@ == lossy_utf8(old(self)@),
            final(self)@ == Seq::<u8>::empty(),
    {
        if self.buffer.len() > 0 {
            let line = utf8_lossy(self.buffer.as_slice());
            self.buffer = Vec::new();
            Some(line)
        } else {
            None
        }
    }
}

/// Feeds one byte: a newline completes the pending line, another byte extends it.
fn take_byte(c: u8, cur: &mut Vec<u8>, out: &mut Vec<String>, Ghost(seen): Ghost<Seq<u8>>)
    requires
        old(out)@.len() == split_lines(seen).0.len(),
        forall|j: int|
            0 <= j < old(out)@.len() ==> #[trigger] old(out)@[j]@ == lossy_utf8(
                split_lines(seen).0[j],
            ),
        old(cur)@ == split_lines(seen).1,
    ensures
        final(out)@.len() == split_lines(seen.push(c)).0.len(),
        forall|j: int|
            0 <= j < final(out)@.len() ==> #[trigger] final(out)@[j]@ == lossy_utf8(
                split_lines(seen.push(c)).0[j],
            ),
        final(cur)@ == split_lines(seen.push(c)).1,
{
    assert(seen.push(c).drop_last() =~= seen);
    cur.push(c);
    if c == NEWLINE {
        let line = utf8_lossy(cur.as_slice());
        out.push(line);
        *cur = Vec::new();
    }
}

proof fn lemma_split_rest_has_no_newline(b: Seq<u8>)
    ensures
        forall|i: int|
            0 <= i < split_lines(b).1.len() ==> #[trigger] split_lines(b).1[i] != NEWLINE,
    decreases b.len(),
{
    if b.len() > 0 {
        lemma_split_rest_has_no_newline(b.drop_last());
        let r = split_lines(b.drop_last()).1;
        if b.last() != NEWLINE {
            assert forall|i: int|
                0 <= i < split_lines(b).1.len() implies #[trigger] split_lines(b).1[i]
                != NEWLINE by {
                if i < r.len() {
                    assert(split_lines(b).1[i] == r[i]);
                }
            }
        }
    }
}

proof fn lemma_split_without_newline(r: Seq<u8>)
    requires
        forall|i: int| 0 <= i < r.len() ==> #[trigger] r[i] != NEWLINE,
    ensures
        split_lines(r) == (Seq::<Seq<u8>>::empty(), r),
    decreases r.len(),
{
    if r.len() > 0 {
        lemma_split_without_newline(r.drop_last());
        assert(r.drop_last().push(r.last()) =~= r);
    }
}

/// Writing bytes in two pieces yields the same lines, and leaves the same pending bytes,
/// as writing them at once.
pub proof fn lemma_split_lines_concat(x: Seq<u8>, y: Seq<u8>)
    ensures
        split_lines(x + y) == (
            split_lines(x).0 + split_lines(split_lines(x).1 + y).0,
            split_lines(split_lines(x).1 + y).1,
        ),
    decreases y.len(),
{
    let rest = split_lines(x).1;
    if y.len() == 0 {
        assert(x + y =~= x);
        assert(rest + y =~= rest);
        lemma_split_rest_has_no_newline(x);
        lemma_split_without_newline(rest);
        assert(split_lines(x).0 + Seq::<Seq<u8>>::empty() =~= split_lines(x).0);
    } else {
        lemma_split_lines_concat(x, y.drop_last());
        assert((x + y).drop_last() =~= x + y.drop_last());
        assert((rest + y).drop_last() =~= rest + y.drop_last());
        let (l1, r1) = split_lines(rest + y.drop_last());
        if y.last() == NEWLINE {
            assert(split_lines(x).0 + l1.push(r1.push(NEWLINE)) =~= (split_lines(x).0 + l1).push(
                r1.push(NEWLINE),
            ));
        }
    }
}

} // verus!
