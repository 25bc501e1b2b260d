//! Splits a byte stream into Markdown blocks at paragraph boundaries.
//!
//! The splitter is deliberately shallow: carriage returns are dropped, every
//! other byte is buffered, and the buffer is handed out as one block as soon
//! as the stream has shown two newlines in a row.

use vstd::prelude::*;

verus! {

/// A unit of work for the renderer.
#[derive(Debug, Clone)]
pub enum RenderCmd {
    MarkdownBlock(Vec<u8>),
}

impl RenderCmd {
    /// The bytes carried by the command.
    pub open spec fn bytes(self) -> Seq<u8> {
        match self {
            RenderCmd::MarkdownBlock(b) => b@,
        }
    }
}

/// The bytes of an optional command.
pub open spec fn block_of(cmd: Option<RenderCmd>) -> Option<Seq<u8>> {
    match cmd {
        Some(c) => Some(c.bytes()),
        None => None,
    }
}

/// The bytes of a list of commands.
pub open spec fn blocks_of(cmds: Seq<RenderCmd>) -> Seq<Seq<u8>> {
    Seq::new(cmds.len(), |i: int| cmds[i].bytes())
}

/// The stream splitter.
pub struct Parser {
    buf: Vec<u8>,
    newline_run: usize,
}

/// Abstract state of a splitter: the pending bytes and the number of
/// newlines seen in a row at the end of the stream so far.
pub struct ParserModel {
    pub pending: Seq<u8>,
    pub newline_run: nat,
}

/// Number of newline bytes at the end of `s`.
pub open spec fn trailing_newlines(s: Seq<u8>) -> nat
    decreases s.len(),
{
    if s.len() > 0 && s.last() == 10u8 {
        1 + trailing_newlines(s.drop_last())
    } else {
        0
    }
}

/// `s` holds no two newlines in a row.
pub open spec fn no_blank_line(s: Seq<u8>) -> bool {
    forall|i: int| 0 <= i < s.len() - 1 ==> !(#[trigger] s[i] == 10u8 && s[i + 1] == 10u8)
}

/// What one byte does to the splitter: the next state and the block it
/// hands out, if any.
pub open spec fn feed_step(m: ParserModel, b: u8) -> (ParserModel, Option<Seq<u8>>) {
    if b == 13u8 {
        (m, None)
    } else {
        let run: nat = if b == 10u8 { m.newline_run + 1 } else { 0 };
        let pending = m.pending.push(b);
        if run >= 2 {
            (ParserModel { pending: Seq::empty(), newline_run: run }, Some(pending))
        } else {
            (ParserModel { pending, newline_run: run }, None)
        }
    }
}

/// Feeding a whole byte sequence: the final state and the blocks handed
/// out, in order.
pub open spec fn feed_all(m: ParserModel, input: Seq<u8>) -> (ParserModel, Seq<Seq<u8>>)
    decreases input.len(),
{
    if input.len() == 0 {
        (m, Seq::empty())
    } else {
        let prev = feed_all(m, input.drop_last());
        let step = feed_step(prev.0, input.last());
        match step.1 {
            Some(block) => (step.0, prev.1.push(block)),
            None => (step.0, prev.1),
        }
    }
}

/// The input with every carriage return removed.
pub open spec fn without_cr(input: Seq<u8>) -> Seq<u8>
    decreases input.len(),
{
    if input.len() == 0 {
        Seq::empty()
    } else if input.last() == 13u8 {
        without_cr(input.drop_last())
    } else {
        without_cr(input.drop_last()).push(input.last())
    }
}

/// All blocks joined end to end.
pub open spec fn concat(blocks: Seq<Seq<u8>>) -> Seq<u8>
    decreases blocks.len(),
{
    if blocks.len() == 0 {
        Seq::empty()
    } else {
        concat(blocks.drop_last()) + blocks.last()
    }
}

impl ParserModel {
    /// The state a fresh splitter is in.
    pub open spec fn initial() -> ParserModel {
        ParserModel { pending: Seq::empty(), newline_run: 0 }
    }

    /// States that a splitter can reach from the initial one.
    pub open spec fn wf(self) -> bool {
        &&& self.pending.len() > 0 ==> self.newline_run < 2
        &&& self.pending.len() > 0 ==> self.newline_run == trailing_newlines(self.pending)
        &&& no_blank_line(self.pending)
    }
}

impl Parser {
    pub closed spec fn model(&self) -> ParserModel {
        ParserModel { pending: self.buf@, newline_run: self.newline_run as nat }
    }

    pub fn new() -> (p: Self)
        ensures
            p.model() == ParserModel::initial(),
    {
        Self { buf: Vec::new(), newline_run: 0 }
    }

    /// Feeds one byte; returns the finished block when the byte completes
    /// a blank line.
    pub fn feed(&mut self, b: u8) -> (cmd: Option<RenderCmd>)
        requires
            old(self).model().newline_run < usize::MAX,
        ensures
            final(self).model() == feed_step(old(self).model(), b).0,
            block_of(cmd) == feed_step(old(self).model(), b).1,
    {
        if b == 13u8 {
            return None;
        }
        if b == 10u8 {
            self.newline_run = self.newline_run + 1;
        } else {
            self.newline_run = 0;
        }
        self.buf.push(b);
        if self.newline_run >= 2 {
            let mut out: Vec<u8> = Vec::new();
            std::mem::swap(&mut out, &mut self.buf);
            Some(RenderCmd::MarkdownBlock(out))
        } else {
            None
        }
    }

    /// Feeds a chunk of the stream; returns the blocks it completes, in
    /// order.
    pub fn feed_bytes(&mut self, data: &[u8]) -> (blocks: Vec<RenderCmd>)
        requires
            old(self).model().newline_run + data@.len() < usize::MAX,
        ensures
            final(self).model() == feed_all(old(self).model(), data@).0,
            blocks_of(blocks@) == feed_all(old(self).model(), data@).1,
    {
        let mut blocks: Vec<RenderCmd> = Vec::new();
        let mut i: usize = 0;
        let ghost start = self.model();
        while i < data.len()
            invariant
                i <= data@.len(),
                start.newline_run + data@.len() < usize::MAX,
                self.model().newline_run <= start.newline_run + i,
                (self.model(), blocks_of(blocks@)) == feed_all(start, data@.take(i as int)),
            decreases data@.len() - i,
        {
            proof {
                assert(data@.take(i + 1).drop_last() =~= data@.take(i as int));
                assert(data@.take(i + 1).last() == data@[i as int]);
            }
            let ghost before = blocks@;
            match self.feed(data[i]) {
                Some(cmd) => {
                    blocks.push(cmd);
                    assert(blocks_of(blocks@) =~= blocks_of(before).push(cmd.bytes()));
                },
                None => {},
            }
            i = i + 1;
        }
        assert(data@.take(data@.len() as int) =~= data@);
        blocks
    }

    /// Hands out whatever is buffered, if anything.
    pub fn drain_pending(&mut self) -> (cmd: Option<RenderCmd>)
        ensures
            final(self).model().newline_run == old(self).model().newline_run,
            final(self).model().pending == Seq::<u8>::empty(),
            block_of(cmd) == (if old(self).model().pending.len() == 0 {
                None
            } else {
                Some(old(self).model().pending)
            }),
    {
        if self.buf.len() == 0 {
            None
        } else {
            let mut out: Vec<u8> = Vec::new();
            std::mem::swap(&mut out, &mut self.buf);
            Some(RenderCmd::MarkdownBlock(out))
        }
    }

    /// Hands out whatever is buffered at the end of the stream.
    pub fn flush(&mut self) -> (cmd: Option<RenderCmd>)
        ensures
            final(self).model().newline_run == old(self).model().newline_run,
            final(self).model().pending == Seq::<u8>::empty(),
            block_of(cmd) == (if old(self).model().pending.len() == 0 {
                None
            } else {
                Some(old(self).model().pending)
            }),
    {
        self.drain_pending()
    }
}

/// One byte keeps a reachable splitter state reachable.
pub proof fn lemma_feed_step_wf(m: ParserModel, b: u8)
    requires
        m.wf(),
    ensures
        feed_step(m, b).0.wf(),
{
    let run: nat = if b == 10u8 { m.newline_run + 1 } else { 0 };
    let p = m.pending.push(b);
    if b != 13u8 && run < 2 {
        assert(p.drop_last() =~= m.pending);
        assert forall|i: int| 0 <= i < p.len() - 1 implies !(#[trigger] p[i] == 10u8 && p[i + 1]
            == 10u8) by {
            if i == p.len() - 2 {
                if b == 10u8 {
                    assert(m.newline_run == 0);
                    if m.pending.len() > 0 {
                        assert(m.pending.last() != 10u8);
                    }
                }
            }
        }
        assert(p.last() == b);
        if b == 10u8 {
            assert(trailing_newlines(p) == 1 + trailing_newlines(m.pending));
            if m.pending.len() == 0 {
                assert(trailing_newlines(m.pending) == 0);
            }
        }
        assert(trailing_newlines(p) == run);
        assert(no_blank_line(p));
    } else if b != 13u8 {
        assert(no_blank_line(Seq::<u8>::empty()));
    }
}

/// Nothing is lost and nothing is reordered: feeding a stream into a
/// splitter hands out blocks that, joined and followed by what is still
/// pending, are exactly what was pending before followed by the stream
/// without its carriage returns.
pub proof fn lemma_feed_all_conserves(m: ParserModel, input: Seq<u8>)
    ensures
        concat(feed_all(m, input).1) + feed_all(m, input).0.pending == m.pending + without_cr(
            input,
        ),
    decreases input.len(),
{
    if input.len() == 0 {
        assert(m.pending + Seq::<u8>::empty() =~= m.pending);
    } else {
        let prev = feed_all(m, input.drop_last());
        lemma_feed_all_conserves(m, input.drop_last());
        let b = input.last();
        let step = feed_step(prev.0, b);
        if b == 13u8 {
        } else {
            let w = without_cr(input.drop_last());
            assert(m.pending + w.push(b) =~= (m.pending + w).push(b));
            match step.1 {
                Some(block) => {
                    assert(prev.1.push(block).drop_last() =~= prev.1);
                    assert(concat(prev.1.push(block)) + Seq::<u8>::empty() =~= concat(prev.1)
                        + prev.0.pending.push(b));
                },
                None => {
                    assert(concat(prev.1) + prev.0.pending.push(b) =~= (concat(prev.1)
                        + prev.0.pending).push(b));
                },
            }
        }
    }
}

/// Every state reached from a reachable state is reachable.
pub proof fn lemma_feed_all_wf(m: ParserModel, input: Seq<u8>)
    requires
        m.wf(),
    ensures
        feed_all(m, input).0.wf(),
    decreases input.len(),
{
    if input.len() > 0 {
        lemma_feed_all_wf(m, input.drop_last());
        lemma_feed_step_wf(feed_all(m, input.drop_last()).0, input.last());
    }
}

/// A block is handed out exactly when a newline completes a blank line; the
/// block ends with that newline, holds no blank line before it, and the
/// splitter then has nothing pending.
pub proof fn lemma_block_boundary(m: ParserModel, b: u8)
    requires
        m.wf(),
    ensures
        (feed_step(m, b).1 is Some) <==> (b == 10u8 && m.newline_run >= 1),
        feed_step(m, b).1 matches Some(block) ==> {
            &&& block.len() > 0
            &&& block.last() == 10u8
            &&& no_blank_line(block.drop_last())
            &&& feed_step(m, b).0.pending.len() == 0
        },
{
    if b == 10u8 && m.newline_run >= 1 {
        let block = m.pending.push(b);
        assert(block.drop_last() =~= m.pending);
    }
}

/// The splitter's newline count is the number of newlines at the end of
/// everything fed so far (carriage returns left out; draining and
/// flushing keep the count).  So a byte hands out a block exactly when it
/// is a newline and the last byte fed before it, carriage returns aside,
/// was a newline too; the block is what was pending plus that newline.
pub proof fn lemma_history_run(m: ParserModel, history: Seq<u8>, b: u8)
    requires
        m.newline_run == trailing_newlines(history),
    ensures
        feed_step(m, b).0.newline_run == trailing_newlines(
            if b == 13u8 {
                history
            } else {
                history.push(b)
            },
        ),
        (feed_step(m, b).1 is Some) <==> (b == 10u8 && history.len() > 0 && history.last()
            == 10u8),
        feed_step(m, b).1 matches Some(block) ==> block == m.pending.push(b),
{
    if b != 13u8 {
        assert(history.push(b).drop_last() =~= history);
    }
}

/// Fed from a fresh splitter, the newline count is that of the whole
/// stream without its carriage returns.
pub proof fn lemma_feed_all_run(input: Seq<u8>)
    ensures
        feed_all(ParserModel::initial(), input).0.newline_run == trailing_newlines(without_cr(input)),
    decreases input.len(),
{
    if input.len() > 0 {
        lemma_feed_all_run(input.drop_last());
        lemma_history_run(
            feed_all(ParserModel::initial(), input.drop_last()).0,
            without_cr(input.drop_last()),
            input.last(),
        );
    }
}

} // verus!
