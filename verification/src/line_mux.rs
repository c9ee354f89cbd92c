use vstd::prelude::*;

verus! {

use crate::procfile_parser::NL;

/// Position of the first `\n` in `s`, or `s.len()` when there is none.
pub open spec fn first_nl(s: Seq<u8>) -> int
    decreases s.len(),
{
    if s.len() == 0 {
        0
    } else if s[0] == NL {
        0
    } else {
        1 + first_nl(s.drop_first())
    }
}

/// `first_nl` points at the first `\n`, or at the end when there is none.
pub proof fn lemma_first_nl(s: Seq<u8>)
    ensures
        0 <= first_nl(s) <= s.len(),
        first_nl(s) < s.len() ==> s[first_nl(s)] == NL,
        forall|j: int| 0 <= j < first_nl(s) ==> s[j] != NL,
    decreases s.len(),
{
    if s.len() > 0 && s[0] != NL {
        lemma_first_nl(s.drop_first());
        assert forall|j: int| 0 <= j < first_nl(s) implies s[j] != NL by {
            if j >= 1 {
                assert(s.drop_first()[j - 1] == s[j]);
            }
        }
    }
}

/// The complete lines in `s`: each segment up to and including a `\n`, in
/// order.
pub open spec fn complete_lines(s: Seq<u8>) -> Seq<Seq<u8>>
    decreases s.len(),
{
    let p = first_nl(s);
    if !(0 <= p && p < s.len()) {
        Seq::empty()
    } else {
        seq![s.subrange(0, p + 1)] + complete_lines(s.subrange(p + 1, s.len() as int))
    }
}

/// The bytes after the last `\n` in `s`: the unfinished line.
pub open spec fn line_rest(s: Seq<u8>) -> Seq<u8>
    decreases s.len(),
{
    let p = first_nl(s);
    if !(0 <= p && p < s.len()) {
        s
    } else {
        line_rest(s.subrange(p + 1, s.len() as int))
    }
}

/// The unfinished line never holds a `\n`.
pub proof fn lemma_line_rest_no_nl(s: Seq<u8>)
    ensures
        forall|j: int| 0 <= j < line_rest(s).len() ==> line_rest(s)[j] != NL,
    decreases s.len(),
{
    lemma_first_nl(s);
    let p = first_nl(s);
    if 0 <= p && p < s.len() {
        lemma_line_rest_no_nl(s.subrange(p + 1, s.len() as int));
        assert(line_rest(s) == line_rest(s.subrange(p + 1, s.len() as int)));
    } else {
        assert(line_rest(s) == s);
    }
}

/// Extending a stream by one byte extends its unfinished line, and completes
/// it exactly when that byte is a `\n`.
pub proof fn lemma_lines_snoc(s: Seq<u8>, b: u8)
    ensures
        b != NL ==> complete_lines(s.push(b)) == complete_lines(s),
        b != NL ==> line_rest(s.push(b)) == line_rest(s).push(b),
        b == NL ==> complete_lines(s.push(b)) == complete_lines(s).push(line_rest(s).push(b)),
        b == NL ==> line_rest(s.push(b)) == Seq::<u8>::empty(),
    decreases s.len(),
{
    lemma_first_nl(s);
    lemma_first_nl(s.push(b));
    let p = first_nl(s);
    let t = s.push(b);
    if p < s.len() {
        // the first line is unchanged; recurse past it
        assert(first_nl(t) == p) by {
            if first_nl(t) < p {
                assert(t[first_nl(t)] == NL);
                assert(s[first_nl(t)] != NL);
            }
            if first_nl(t) > p {
                assert(t[p] != NL);
            }
        }
        assert(t.subrange(p + 1, t.len() as int) =~= s.subrange(p + 1, s.len() as int).push(b));
        lemma_lines_snoc(s.subrange(p + 1, s.len() as int), b);
        assert(t.subrange(0, p + 1) =~= s.subrange(0, p + 1));
        if b != NL {
            assert(complete_lines(t) == complete_lines(s));
            assert(line_rest(t) == line_rest(s).push(b));
        } else {
            assert(complete_lines(t) =~= complete_lines(s).push(line_rest(s).push(b)));
        }
    } else {
        // s has no newline at all
        assert(line_rest(s) == s);
        assert(complete_lines(s) == Seq::<Seq<u8>>::empty());
        if b != NL {
            assert(first_nl(t) == t.len()) by {
                if first_nl(t) < t.len() {
                    assert(t[first_nl(t)] == NL);
                    if first_nl(t) < s.len() {
                        assert(s[first_nl(t)] != NL);
                    }
                }
            }
            assert(line_rest(t) == t);
            assert(t =~= line_rest(s).push(b));
        } else {
            assert(first_nl(t) == s.len()) by {
                if first_nl(t) < s.len() {
                    assert(s[first_nl(t)] != NL);
                }
                assert(t[s.len() as int] == NL);
            }
            assert(t.subrange(s.len() as int + 1, t.len() as int) =~= Seq::<u8>::empty());
            assert(complete_lines(t) == seq![t.subrange(0, s.len() as int + 1)] + complete_lines(
                t.subrange(s.len() as int + 1, t.len() as int),
            ));
            assert(first_nl(Seq::<u8>::empty()) == 0);
            assert(complete_lines(Seq::<u8>::empty()) == Seq::<Seq<u8>>::empty());
            assert(complete_lines(t) =~= seq![t.subrange(0, s.len() as int + 1)]);
            assert(t.subrange(0, s.len() as int + 1) =~= line_rest(s).push(b));
            assert(complete_lines(t) =~= complete_lines(s).push(line_rest(s).push(b)));
            assert(line_rest(t) == line_rest(Seq::<u8>::empty()));
        }
    }
}

/// Every complete line is terminated by its final `\n` and holds no other.
pub proof fn lemma_line_shape(s: Seq<u8>, k: int)
    requires
        0 <= k < complete_lines(s).len(),
    ensures
        complete_lines(s)[k].len() > 0,
        complete_lines(s)[k].last() == NL,
        forall|j: int| 0 <= j < complete_lines(s)[k].len() - 1 ==> complete_lines(s)[k][j] != NL,
    decreases s.len(),
{
    lemma_first_nl(s);
    let p = first_nl(s);
    if 0 <= p && p < s.len() {
        let rest = s.subrange(p + 1, s.len() as int);
        if k == 0 {
            let line = s.subrange(0, p + 1);
            assert(line.last() == s[p]);
            assert(forall|j: int| 0 <= j < line.len() - 1 ==> line[j] == s[j] && s[j] != NL);
        } else {
            lemma_line_shape(rest, k - 1);
            assert(complete_lines(s)[k] == complete_lines(rest)[k - 1]);
        }
    }
}

/// The complete lines followed by the unfinished line recompose the stream:
/// splitting loses and invents nothing.
pub proof fn lemma_stream_recomposition(s: Seq<u8>)
    ensures
        complete_lines(s).flatten() + line_rest(s) =~= s,
    decreases s.len(),
{
    lemma_first_nl(s);
    let p = first_nl(s);
    if 0 <= p && p < s.len() {
        let rest = s.subrange(p + 1, s.len() as int);
        lemma_stream_recomposition(rest);
        assert(complete_lines(s) == seq![s.subrange(0, p + 1)] + complete_lines(rest));
        assert(complete_lines(s).len() > 0);
        assert(complete_lines(s).first() == s.subrange(0, p + 1));
        assert(complete_lines(s).drop_first() =~= complete_lines(rest));
        assert(complete_lines(s).flatten() == complete_lines(s).first() + complete_lines(
            s,
        ).drop_first().flatten());
        assert(line_rest(s) == line_rest(rest));
        assert(s.subrange(0, p + 1) + rest =~= s);
        assert(complete_lines(s).flatten() + line_rest(s) =~= s.subrange(0, p + 1)
            + (complete_lines(rest).flatten() + line_rest(rest)));
    } else {
        assert(complete_lines(s) == Seq::<Seq<u8>>::empty());
        assert(complete_lines(s).flatten() == Seq::<u8>::empty());
        assert(line_rest(s) == s);
    }
}

/// Splitting one chunk at a time equals splitting the concatenated stream:
/// the lines a stream yields do not depend on how it was cut into reads.
pub proof fn lemma_split_composes(a: Seq<u8>, b: Seq<u8>)
    ensures
        complete_lines(a + b) == complete_lines(a) + complete_lines(line_rest(a) + b),
        line_rest(a + b) == line_rest(line_rest(a) + b),
    decreases b.len(),
{
    if b.len() == 0 {
        assert(a + b =~= a);
        assert(line_rest(a) + b =~= line_rest(a));
        lemma_line_rest_no_nl(a);
        let r = line_rest(a);
        lemma_first_nl(r);
        assert(first_nl(r) == r.len()) by {
            if first_nl(r) < r.len() {
                assert(r[first_nl(r)] == NL);
            }
        }
        assert(complete_lines(r) == Seq::<Seq<u8>>::empty());
        assert(line_rest(r) == r);
        assert(complete_lines(a) + complete_lines(r) =~= complete_lines(a));
    } else {
        let b0 = b.drop_last();
        let x = b.last();
        lemma_split_composes(a, b0);
        lemma_lines_snoc(a + b0, x);
        lemma_lines_snoc(line_rest(a) + b0, x);
        assert(a + b =~= (a + b0).push(x));
        assert(line_rest(a) + b =~= (line_rest(a) + b0).push(x));
        if x != NL {
            assert(line_rest((a + b0).push(x)) == line_rest(a + b0).push(x));
            assert(complete_lines(a) + complete_lines((line_rest(a) + b0).push(x))
                =~= complete_lines((a + b0).push(x)));
        } else {
            assert(line_rest(a + b0) == line_rest(line_rest(a) + b0));
            assert(complete_lines(a) + complete_lines((line_rest(a) + b0).push(x))
                =~= complete_lines((a + b0).push(x)));
        }
    }
}

/// The values of a sequence of byte vectors.
pub open spec fn lines_view(s: Seq<Vec<u8>>) -> Seq<Seq<u8>> {
    s.map_values(|v: Vec<u8>| v@)
}

/// Splits a child's output stream into discrete lines.  Chunks of bytes are
/// fed in as they are read; each completed line is handed out exactly once,
/// and the bytes of an unfinished line are held for the next read.
pub struct LineMux {
    buffer: Vec<u8>,
}

impl LineMux {
    /// The held bytes never contain a `\n`.
    pub closed spec fn wf(&self) -> bool {
        forall|k: int| 0 <= k < self.buffer@.len() ==> self.buffer@[k] != NL
    }

    /// The bytes of the unfinished line held so far.
    pub closed spec fn rest(&self) -> Seq<u8> {
        self.buffer@
    }

    pub fn new() -> (r: LineMux)
        ensures
            r.wf(),
            r.rest() == Seq::<u8>::empty(),
    {
        LineMux { buffer: Vec::new() }
    }

    /// Feed one chunk read from the stream.  Returns exactly the lines that
    /// the stream read so far completes beyond those already handed out, each
    /// with its terminator; the unfinished tail stays behind.
    pub fn feed(&mut self, chunk: &[u8]) -> (out: Vec<Vec<u8>>)
        requires
            old(self).wf(),
        ensures
            final(self).wf(),
            lines_view(out@) == complete_lines(old(self).rest() + chunk@),
            final(self).rest() == line_rest(old(self).rest() + chunk@),
    {
        let ghost base = self.buffer@;
        let mut out: Vec<Vec<u8>> = Vec::new();
        let mut i: usize = 0;
        proof {
            assert(base + chunk@.subrange(0, 0) =~= base);
            assert(first_nl(base) == base.len()) by {
                lemma_first_nl(base);
                if first_nl(base) < base.len() {
                    assert(base[first_nl(base)] == NL);
                }
            }
            assert(complete_lines(base) == Seq::<Seq<u8>>::empty());
            assert(line_rest(base) == base);
            assert(lines_view(out@) =~= complete_lines(base));
        }
        while i < chunk.len()
            invariant
                old(self).wf(),
                base == old(self).rest(),
                i <= chunk.len(),
                self.wf(),
                lines_view(out@) == complete_lines(base + chunk@.subrange(0, i as int)),
                self.rest() == line_rest(base + chunk@.subrange(0, i as int)),
            decreases chunk.len() - i,
        {
            let b = chunk[i];
            let ghost seen = base + chunk@.subrange(0, i as int);
            proof {
                lemma_lines_snoc(seen, b);
                assert(base + chunk@.subrange(0, i as int + 1) =~= seen.push(b));
            }
            self.buffer.push(b);
            if b == NL {
                let mut line: Vec<u8> = Vec::new();
                std::mem::swap(&mut line, &mut self.buffer);
                out.push(line);
                proof {
                    assert(lines_view(out@) =~= complete_lines(seen).push(line_rest(seen).push(
                        NL,
                    )));
                }
            } else {
                proof {
                    assert(lines_view(out@) =~= complete_lines(seen));
                }
            }
            i = i + 1;
        }
        proof {
            assert(chunk@.subrange(0, chunk@.len() as int) =~= chunk@);
        }
        out
    }

    /// Close the stream: a final unfinished line is delivered exactly once,
    /// without a terminator; an empty buffer yields nothing.
    pub fn finish(&mut self) -> (out: Option<Vec<u8>>)
        requires
            old(self).wf(),
        ensures
            final(self).wf(),
            final(self).rest() == Seq::<u8>::empty(),
            old(self).rest().len() == 0 ==> out is None,
            old(self).rest().len() > 0 ==> (out matches Some(l) && l@ == old(self).rest()),
    {
        if self.buffer.len() == 0 {
            None
        } else {
            let mut line: Vec<u8> = Vec::new();
            std::mem::swap(&mut line, &mut self.buffer);
            Some(line)
        }
    }
}

} // verus!
