//! Output sinks: standard output, redirection to files, and capture.
//!
//! The sinks form a stack; text goes to the top one. This module keeps the
//! stack, the captured text and the column of each sink; which file a sink
//! writes to is a handle that the caller keeps, and the caller performs the
//! writes that `write` asks for.

use vstd::prelude::*;
use vstd::string::*;

verus! {

pub enum SinkKind {
    Stdout,
    /// A file, by the handle the caller keeps for it.
    File(u32),
    /// Text collected in memory.
    Capture(String),
}

pub struct Sink {
    pub kind: SinkKind,
    /// Column of the next character on the current line.
    pub col: usize,
}

/// Where written text has to go.
#[derive(Clone, Copy, Debug, PartialEq, Eq, Structural)]
pub enum Target {
    Stdout,
    File(u32),
    /// Into the top capture (already done).
    Capture,
}

/// What the caller has to do with text that was written.
#[derive(Clone, Copy, Debug, PartialEq, Eq, Structural)]
pub struct Written {
    pub target: Target,
    /// The text goes to the log file as well.
    pub to_log: bool,
}

pub struct Output {
    /// The sinks, the last the top.
    pub stack: Vec<Sink>,
    pub columns: usize,
    pub auto_columns: bool,
    /// Whether a log file is open (the caller keeps it).
    pub log: bool,
}

/// The column after writing `s` from column `col`: 0 after a newline, one
/// more after any other character.
pub open spec fn col_after(col: int, s: Seq<char>) -> int
    decreases s.len(),
{
    if s.len() == 0 {
        col
    } else if s.last() == '\n' {
        0
    } else {
        col_after(col, s.drop_last()) + 1
    }
}

proof fn lemma_col_after_bound(col: int, s: Seq<char>)
    requires
        0 <= col,
    ensures
        0 <= col_after(col, s) <= col + s.len(),
    decreases s.len(),
{
    if s.len() > 0 {
        lemma_col_after_bound(col, s.drop_last());
    }
}

/// Whether the sink is a file.
pub open spec fn is_file(s: Sink) -> bool {
    s.kind is File
}

/// Whether the sink writes to a file.
fn sink_is_file(s: &Sink) -> (b: bool)
    ensures
        b == is_file(*s),
{
    match s.kind {
        SinkKind::File(_) => true,
        _ => false,
    }
}

impl Output {
    /// The sinks, the last the top.
    pub open spec fn sinks(&self) -> Seq<Sink> {
        self.stack@
    }

    /// Output to standard output, 80 columns wide.
    pub fn stdout() -> (o: Output)
        ensures
            o.sinks().len() == 1,
            o.sinks()[0].kind is Stdout,
            o.sinks()[0].col == 0,
            o.columns == 80,
            !o.auto_columns,
            !o.log,
    {
        Output { stack: vec![Sink { kind: SinkKind::Stdout, col: 0 }], columns: 80, auto_columns: false, log: false }
    }

    /// Discard all output into a capture (useful for tests of side effects).
    pub fn capture_all() -> (o: Output)
        ensures
            o.sinks().len() == 1,
            (o.sinks()[0].kind matches SinkKind::Capture(s) && s@.len() == 0),
            o.sinks()[0].col == 0,
            o.columns == 80,
            !o.auto_columns,
            !o.log,
    {
        Output {
            stack: vec![Sink { kind: SinkKind::Capture(String::new()), col: 0 }],
            columns: 80,
            auto_columns: false,
            log: false,
        }
    }

    /// The column of the top sink (0 without one).
    pub fn col(&self) -> (c: usize)
        ensures
            c == if self.sinks().len() > 0 {
                self.sinks().last().col as int
            } else {
                0
            },
    {
        if self.stack.len() > 0 {
            self.stack[self.stack.len() - 1].col
        } else {
            0
        }
    }

    /// Whether lines have no width limit (`SetColumns(0)`).
    pub fn unlimited(&self) -> (b: bool)
        ensures
            b == (self.columns > 1_000_000),
    {
        self.columns > 1_000_000
    }

    /// Write `s` to the top sink: a capture collects it; for the others the
    /// caller is told where it goes. The column follows the text, and text
    /// written to the bottom sink goes to the log too.
    pub fn write(&mut self, s: &str) -> (w: Option<Written>)
        requires
            old(self).sinks().len() > 0,
            old(self).sinks().last().col + s@.len() <= usize::MAX,
        ensures
            s@.len() == 0 ==> w is None && *final(self) == *old(self),
            s@.len() > 0 ==> {
                let (o, f) = (old(self).sinks(), final(self).sinks());
                &&& w matches Some(w)
                &&& w.to_log == (o.len() == 1 && old(self).log)
                &&& f.len() == o.len()
                &&& forall|i: int| 0 <= i < o.len() - 1 ==> #[trigger] f[i] == o[i]
                &&& f.last().col == col_after(o.last().col as int, s@)
                &&& match o.last().kind {
                    SinkKind::Stdout => w.target == Target::Stdout && f.last().kind is Stdout,
                    SinkKind::File(h) => w.target == Target::File(h) && f.last().kind == SinkKind::File(h),
                    SinkKind::Capture(c) => w.target == Target::Capture && (f.last().kind matches SinkKind::Capture(d)
                        && d@ == c@ + s@),
                }
            },
            final(self).columns == old(self).columns,
            final(self).auto_columns == old(self).auto_columns,
            final(self).log == old(self).log,
    {
        if s.is_empty() {
            return None;
        }
        let n = self.stack.len();
        let to_log = n == 1 && self.log;
        let mut top = self.stack.pop().unwrap();
        let mut col = top.col;
        let ghost col0 = top.col as int;
        proof {
            lemma_col_after_bound(col0, s@);
        }
        for c in it: s.chars()
            invariant
                0 <= col0,
                col0 + s@.len() <= usize::MAX,
                it.seq() == s@,
                col == col_after(col0, s@.take(it.index() as int)),
        {
            proof {
                lemma_col_after_bound(col0, s@.take(it.index() as int));
                assert(s@.take(it.index() + 1).drop_last() =~= s@.take(it.index() as int));
            }
            if c == '\n' {
                col = 0;
            } else {
                col = col + 1;
            }
        }
        assert(s@.take(s@.len() as int) =~= s@);
        let target = match &mut top.kind {
            SinkKind::Stdout => Target::Stdout,
            SinkKind::File(h) => Target::File(*h),
            SinkKind::Capture(buf) => {
                buf.append(s);
                Target::Capture
            },
        };
        top.col = col;
        self.stack.push(top);
        Some(Written { target, to_log })
    }

    /// Start a new line if the current one is not empty.
    pub fn ensure_newline(&mut self) -> (w: Option<Written>)
        requires
            old(self).sinks().len() > 0 ==> old(self).sinks().last().col < usize::MAX,
        ensures
            old(self).sinks().len() == 0 || old(self).sinks().last().col == 0 ==> w is None && *final(self)
                == *old(self),
            old(self).sinks().len() > 0 && old(self).sinks().last().col != 0 ==> {
                let (o, f) = (old(self).sinks(), final(self).sinks());
                &&& w matches Some(w)
                &&& w.to_log == (o.len() == 1 && old(self).log)
                &&& f.len() == o.len()
                &&& forall|i: int| 0 <= i < o.len() - 1 ==> #[trigger] f[i] == o[i]
                &&& f.last().col == 0
            },
    {
        if self.col() != 0 {
            let nl = "\n";
            proof {
                reveal_strlit("\n");
            }
            let w = self.write(nl);
            proof {
                assert(nl@ == seq!['\n']);
                assert(nl@.drop_last() =~= Seq::<char>::empty());
            }
            w
        } else {
            None
        }
    }

    /// Collect what is written from now on, until `end_capture`.
    pub fn begin_capture(&mut self)
        ensures
            final(self).sinks().len() == old(self).sinks().len() + 1,
            forall|i: int| 0 <= i < old(self).sinks().len() ==> #[trigger] final(self).sinks()[i] == old(self).sinks()[i],
            (final(self).sinks().last().kind matches SinkKind::Capture(c) && c@.len() == 0),
            final(self).sinks().last().col == 0,
            final(self).columns == old(self).columns,
            final(self).log == old(self).log,
    {
        self.stack.push(Sink { kind: SinkKind::Capture(String::new()), col: 0 });
    }

    /// The text captured since the matching `begin_capture`, which ends;
    /// nothing if the top sink is not a capture (which then stays).
    pub fn end_capture(&mut self) -> (s: String)
        ensures
            old(self).sinks().len() > 0 ==> (old(self).sinks().last().kind matches SinkKind::Capture(c) ==> s@ == c@
                && final(self).sinks() == old(self).sinks().drop_last()),
            !(old(self).sinks().len() > 0 && old(self).sinks().last().kind is Capture) ==> s@.len() == 0
                && final(self).sinks() == old(self).sinks(),
            final(self).columns == old(self).columns,
            final(self).log == old(self).log,
    {
        match self.stack.pop() {
            Some(Sink { kind: SinkKind::Capture(s), .. }) => s,
            Some(other) => {
                self.stack.push(other);
                proof {
                    assert(self.stack@ =~= old(self).stack@);
                }
                String::new()
            },
            None => String::new(),
        }
    }

    /// Take everything captured by the base sink (for `capture_all`).
    pub fn take_captured(&mut self) -> (s: String)
        requires
            old(self).sinks().len() > 0,
        ensures
            final(self).sinks().len() == old(self).sinks().len(),
            forall|i: int| 0 < i < old(self).sinks().len() ==> #[trigger] final(self).sinks()[i] == old(self).sinks()[i],
            final(self).sinks()[0].col == old(self).sinks()[0].col,
            old(self).sinks()[0].kind matches SinkKind::Capture(c) ==> s@ == c@ && (final(self).sinks()[0].kind matches SinkKind::Capture(d) && d@.len() == 0),
            !(old(self).sinks()[0].kind is Capture) ==> s@.len() == 0 && final(self).sinks() == old(self).sinks(),
            final(self).columns == old(self).columns,
            final(self).log == old(self).log,
    {
        let mut base = Sink { kind: SinkKind::Stdout, col: 0 };
        self.stack.set_and_swap(0, &mut base);
        let (out, kind) = match base.kind {
            SinkKind::Capture(s) => (s, SinkKind::Capture(String::new())),
            other => (String::new(), other),
        };
        let mut back = Sink { kind, col: base.col };
        self.stack.set_and_swap(0, &mut back);
        proof {
            if !(old(self).sinks()[0].kind is Capture) {
                assert(self.stack@ =~= old(self).stack@);
            }
        }
        out
    }

    /// Whether a sink writes to a file.
    pub fn has_redirect(&self) -> (b: bool)
        ensures
            b == exists|i: int| 0 <= i < self.sinks().len() && is_file(#[trigger] self.sinks()[i]),
    {
        let mut i: usize = 0;
        while i < self.stack.len()
            invariant
                i <= self.stack.len(),
                forall|j: int| 0 <= j < i ==> !is_file(#[trigger] self.stack@[j]),
            decreases self.stack.len() - i,
        {
            if sink_is_file(&self.stack[i]) {
                assert(is_file(self.sinks()[i as int]));
                return true;
            }
            i += 1;
        }
        false
    }

    /// Remove the latest redirection to a file, unless it is the base
    /// sink. Whether one was removed.
    pub fn unredirect(&mut self) -> (b: bool)
        ensures
            b == exists|i: int| 0 < i < old(self).sinks().len() && is_file(#[trigger] old(self).sinks()[i]) && forall|j: int|
                i < j < old(self).sinks().len() ==> !is_file(#[trigger] old(self).sinks()[j]),
            b ==> exists|i: int| 0 < i < old(self).sinks().len() && is_file(#[trigger] old(self).sinks()[i])
                && final(self).sinks() == old(self).sinks().remove(i) && forall|j: int|
                i < j < old(self).sinks().len() ==> !is_file(#[trigger] old(self).sinks()[j]),
            !b ==> final(self).sinks() == old(self).sinks(),
            final(self).columns == old(self).columns,
            final(self).log == old(self).log,
    {
        // The last file sink.
        let mut k = self.stack.len();
        while k > 0 && !sink_is_file(&self.stack[k - 1])
            invariant
                k <= self.stack.len(),
                forall|j: int| k <= j < self.stack.len() ==> !is_file(#[trigger] self.stack@[j]),
            decreases k,
        {
            k -= 1;
        }
        if k > 1 {
            let pos = k - 1;
            let ghost o = self.sinks();
            assert(is_file(o[pos as int]));
            assert(forall|j: int| pos < j < o.len() ==> !is_file(#[trigger] o[j]));
            self.stack.remove(pos);
            assert(self.sinks() == o.remove(pos as int));
            return true;
        }
        proof {
            if k == 1 {
                assert(is_file(self.stack@[0]));
            }
        }
        false
    }

    /// Send the output to a file (by its handle) in place of an existing
    /// redirection.
    pub fn redirect_to_file(&mut self, f: u32)
        ensures
            final(self).sinks().len() >= 1,
            final(self).sinks().last().kind == SinkKind::File(f),
            final(self).sinks().last().col == 0,
            (exists|i: int| 0 < i < old(self).sinks().len() && is_file(#[trigger] old(self).sinks()[i]) && forall|j: int|
                i < j < old(self).sinks().len() ==> !is_file(#[trigger] old(self).sinks()[j])) ==> exists|i: int|
                0 < i < old(self).sinks().len() && is_file(#[trigger] old(self).sinks()[i]) && final(self).sinks() == old(
                self,
            ).sinks().remove(i).push(Sink { kind: SinkKind::File(f), col: 0 }),
            !(exists|i: int| 0 < i < old(self).sinks().len() && is_file(#[trigger] old(self).sinks()[i]) && forall|j: int|
                i < j < old(self).sinks().len() ==> !is_file(#[trigger] old(self).sinks()[j])) ==> final(self).sinks()
                == old(self).sinks().push(Sink { kind: SinkKind::File(f), col: 0 }),
            final(self).columns == old(self).columns,
            final(self).log == old(self).log,
    {
        // Replace an existing redirection rather than nesting.
        self.unredirect();
        self.stack.push(Sink { kind: SinkKind::File(f), col: 0 });
    }
}

/// What is written while capturing is what ending the capture gives back,
/// and the sinks are then as they were before it began.
pub proof fn lemma_capture_returns_writes(o0: Output, o1: Output, o2: Output, o3: Output, s: Seq<char>, r: Seq<char>)
    requires
        o1.sinks().len() == o0.sinks().len() + 1,
        forall|i: int| 0 <= i < o0.sinks().len() ==> #[trigger] o1.sinks()[i] == o0.sinks()[i],
        o1.sinks().last().kind is Capture,
        o1.sinks().last().kind->Capture_0@.len() == 0,
        o2.sinks().len() == o1.sinks().len(),
        forall|i: int| 0 <= i < o1.sinks().len() - 1 ==> #[trigger] o2.sinks()[i] == o1.sinks()[i],
        o2.sinks().last().kind is Capture,
        o2.sinks().last().kind->Capture_0@ == o1.sinks().last().kind->Capture_0@ + s,
        r == o2.sinks().last().kind->Capture_0@,
        o3.sinks() == o2.sinks().drop_last(),
    ensures
        r == s,
        o3.sinks() == o0.sinks(),
{
    assert(o1.sinks().last().kind->Capture_0@ + s =~= s);
    assert(o3.sinks() =~= o0.sinks());
}

} // verus!
