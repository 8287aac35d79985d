use vstd::prelude::*;

verus! {

/// The line delimiter, ASCII line feed.
pub const NEWLINE: u8 = 10;

/// What one call of the framer yields.
#[derive(Debug)]
pub enum FrameResult {
    /// One line, with its delimiter when the source supplied one.
    Frame(Vec<u8>),
    /// The source closed and nothing is left over.
    EndOfStream,
    /// Reading the source failed; anything buffered was dropped.
    ReadFailure,
}

/// A non-empty run of bytes with no delimiter before its last byte.
pub open spec fn is_line(f: Seq<u8>) -> bool {
    &&& f.len() > 0
    &&& forall|i: int| 0 <= i < f.len() - 1 ==> #[trigger] f[i] != NEWLINE
}

/// The frames laid end to end.
pub open spec fn flatten(fs: Seq<Seq<u8>>) -> Seq<u8>
    decreases fs.len(),
{
    if fs.len() == 0 {
        Seq::empty()
    } else {
        flatten(fs.drop_last()) + fs.last()
    }
}

/// Whether `p` holds a delimiter.
pub open spec fn has_newline(p: Seq<u8>) -> bool {
    exists|i: int| 0 <= i < p.len() && p[i] == NEWLINE
}

/// Cuts one child stream into delimited frames.
pub struct LineFramer {
    pending: Vec<u8>,
    closed: bool,
    failed: bool,
    fed: Ghost<Seq<u8>>,
    frames: Ghost<Seq<Seq<u8>>>,
}

impl LineFramer {
    /// Bytes handed in that no frame has taken yet.
    pub closed spec fn pending_spec(&self) -> Seq<u8> {
        self.pending@
    }

    /// Every byte handed in so far.
    pub closed spec fn fed_spec(&self) -> Seq<u8> {
        self.fed@
    }

    /// Every frame handed out so far.
    pub closed spec fn frames_spec(&self) -> Seq<Seq<u8>> {
        self.frames@
    }

    /// `self` and `o` agree in everything a caller can see.
    pub open spec fn same_view(&self, o: &LineFramer) -> bool {
        &&& self.fed_spec() == o.fed_spec()
        &&& self.frames_spec() == o.frames_spec()
        &&& self.pending_spec() == o.pending_spec()
        &&& self.closed_spec() == o.closed_spec()
        &&& self.failed_spec() == o.failed_spec()
    }

    /// Whether the source has closed, cleanly or by a read failure.
    pub closed spec fn closed_spec(&self) -> bool {
        self.closed
    }

    /// Whether reading the source failed.
    pub closed spec fn failed_spec(&self) -> bool {
        self.failed
    }

    /// Bytes handed in are the frames handed out followed by what is buffered;
    /// every frame is a line and ends in the delimiter, but for a final
    /// partial line taken after a clean close.
    pub closed spec fn wf(&self) -> bool {
        &&& (self.failed ==> self.closed && self.pending@.len() == 0)
        &&& (!self.failed ==> self.fed@ == flatten(self.frames@) + self.pending@)
        &&& forall|j: int|
            0 <= j < self.frames@.len() ==> {
                &&& is_line(#[trigger] self.frames@[j])
                &&& (self.frames@[j].last() == NEWLINE || (j == self.frames@.len() - 1
                    && self.closed && !self.failed && self.pending@.len() == 0))
            }
    }

    /// A framer of a source that has sent nothing yet.
    pub fn new() -> (r: LineFramer)
        ensures
            r.wf(),
            r.fed_spec() == Seq::<u8>::empty(),
            r.frames_spec() == Seq::<Seq<u8>>::empty(),
            r.pending_spec() == Seq::<u8>::empty(),
            !r.closed_spec(),
            !r.failed_spec(),
    {
        LineFramer {
            pending: Vec::new(),
            closed: false,
            failed: false,
            fed: Ghost(Seq::empty()),
            frames: Ghost(Seq::empty()),
        }
    }

    /// Whether the source has closed or failed.
    pub fn is_closed(&self) -> (r: bool)
        ensures
            r == self.closed_spec(),
    {
        self.closed
    }

    /// Hands in bytes read from the source.
    pub fn feed(&mut self, chunk: &[u8])
        requires
            old(self).wf(),
            !old(self).closed_spec(),
        ensures
            final(self).wf(),
            final(self).fed_spec() == old(self).fed_spec() + chunk@,
            final(self).frames_spec() == old(self).frames_spec(),
            final(self).pending_spec() == old(self).pending_spec() + chunk@,
            !final(self).closed_spec(),
            !final(self).failed_spec(),
    {
        let mut i: usize = 0;
        let ghost p0 = self.pending@;
        while i < chunk.len()
            invariant
                0 <= i <= chunk@.len(),
                self.pending@ == p0 + chunk@.subrange(0, i as int),
                self.closed == old(self).closed,
                self.failed == old(self).failed,
                self.fed == old(self).fed,
                self.frames == old(self).frames,
            decreases chunk@.len() - i,
        {
            self.pending.push(chunk[i]);
            i = i + 1;
            assert(self.pending@ =~= p0 + chunk@.subrange(0, i as int));
        }
        assert(chunk@.subrange(0, chunk@.len() as int) =~= chunk@);
        self.fed = Ghost(self.fed@ + chunk@);
        assert(self.fed@ =~= flatten(self.frames@) + self.pending@);
    }

    /// Records that the source closed cleanly.
    pub fn finish(&mut self)
        requires
            old(self).wf(),
        ensures
            final(self).wf(),
            final(self).fed_spec() == old(self).fed_spec(),
            final(self).frames_spec() == old(self).frames_spec(),
            final(self).pending_spec() == old(self).pending_spec(),
            final(self).closed_spec(),
            final(self).failed_spec() == old(self).failed_spec(),
    {
        self.closed = true;
    }

    /// Records that reading the source failed: what is buffered is dropped.
    pub fn fail(&mut self)
        requires
            old(self).wf(),
            !old(self).closed_spec(),
        ensures
            final(self).wf(),
            final(self).fed_spec() == old(self).fed_spec(),
            final(self).frames_spec() == old(self).frames_spec(),
            final(self).pending_spec() == Seq::<u8>::empty(),
            final(self).closed_spec(),
            final(self).failed_spec(),
    {
        self.closed = true;
        self.failed = true;
        self.pending = Vec::new();
    }

    /// Yields the next frame when it can be had without more input: the
    /// bytes up to and including the first delimiter; after a clean close
    /// the undelimited rest, then `EndOfStream`; after a failure
    /// `ReadFailure`. `None` when the buffer holds no delimiter and the
    /// source is still open.
    pub fn take_frame(&mut self) -> (r: Option<FrameResult>)
        requires
            old(self).wf(),
        ensures
            final(self).wf(),
            final(self).fed_spec() == old(self).fed_spec(),
            final(self).closed_spec() == old(self).closed_spec(),
            final(self).failed_spec() == old(self).failed_spec(),
            r matches Some(FrameResult::Frame(v)) ==> {
                &&& old(self).pending_spec() == v@ + final(self).pending_spec()
                &&& is_line(v@)
                &&& final(self).frames_spec() == old(self).frames_spec().push(v@)
                &&& (v@.last() == NEWLINE || (!has_newline(old(self).pending_spec())
                    && final(self).pending_spec().len() == 0))
            },
            has_newline(old(self).pending_spec()) ==> exists|k: int|
                0 < k <= old(self).pending_spec().len() && {
                    let f = #[trigger] old(self).pending_spec().subrange(0, k);
                    &&& f.last() == NEWLINE
                    &&& is_line(f)
                    &&& r matches Some(FrameResult::Frame(v)) && v@ == f
                    &&& final(self).pending_spec() == old(self).pending_spec().subrange(
                        k,
                        old(self).pending_spec().len() as int,
                    )
                    &&& final(self).frames_spec() == old(self).frames_spec().push(f)
                },
            !has_newline(old(self).pending_spec()) && !old(self).closed_spec() ==> {
                &&& r is None
                &&& final(self).pending_spec() == old(self).pending_spec()
                &&& final(self).frames_spec() == old(self).frames_spec()
            },
            !has_newline(old(self).pending_spec()) && old(self).closed_spec()
                && old(self).pending_spec().len() > 0 ==> {
                &&& r matches Some(FrameResult::Frame(v)) && v@ == old(self).pending_spec()
                &&& final(self).pending_spec() == Seq::<u8>::empty()
                &&& final(self).frames_spec() == old(self).frames_spec().push(
                    old(self).pending_spec(),
                )
            },
            old(self).closed_spec() && old(self).pending_spec().len() == 0 ==> {
                &&& final(self).pending_spec() == old(self).pending_spec()
                &&& final(self).frames_spec() == old(self).frames_spec()
                &&& r matches Some(res) && (if old(self).failed_spec() {
                    res is ReadFailure
                } else {
                    res is EndOfStream
                })
            },
    {
        let n = self.pending.len();
        let mut i: usize = 0;
        while i < n
            invariant
                0 <= i <= n,
                n == self.pending@.len(),
                forall|j: int| 0 <= j < i ==> self.pending@[j] != NEWLINE,
            ensures
                0 <= i <= n,
                forall|j: int| 0 <= j < i ==> self.pending@[j] != NEWLINE,
                i < n ==> self.pending@[i as int] == NEWLINE,
            decreases n - i,
        {
            if self.pending[i] == NEWLINE {
                break;
            }
            i = i + 1;
        }
        let ghost p = self.pending@;
        if i < n {
            let mut frame: Vec<u8> = Vec::new();
            let mut rest: Vec<u8> = Vec::new();
            let mut j: usize = 0;
            while j < n
                invariant
                    i < n,
                    n == p.len(),
                    self.pending@ == p,
                    0 <= j <= n,
                    j <= i + 1 ==> frame@ == p.subrange(0, j as int) && rest@.len() == 0,
                    j > i + 1 ==> frame@ == p.subrange(0, i + 1) && rest@ == p.subrange(
                        i + 1,
                        j as int,
                    ),
                decreases n - j,
            {
                if j <= i {
                    frame.push(self.pending[j]);
                } else {
                    rest.push(self.pending[j]);
                }
                j = j + 1;
                assert(frame@ =~= p.subrange(0, if j <= i + 1 { j as int } else { i + 1 }));
                assert(j > i + 1 ==> rest@ =~= p.subrange(i + 1, j as int));
            }
            assert(rest@ =~= p.subrange(i + 1, n as int));
            let ghost f = frame@;
            assert(f =~= p.subrange(0, i + 1));
            proof {
                assert(p =~= f + rest@);
                assert(flatten(self.frames@.push(f)).len() >= 0);
                assert(self.frames@.push(f).drop_last() =~= self.frames@);
            }
            self.pending = rest;
            self.frames = Ghost(self.frames@.push(f));
            assert(f.last() == NEWLINE);
            assert(is_line(f));
            assert(!self.failed ==> self.fed@ =~= flatten(self.frames@) + self.pending@);
            assert(p =~= frame@ + self.pending@);
            Some(FrameResult::Frame(frame))
        } else if !self.closed {
            None
        } else if n > 0 {
            let frame = self.pending.clone();
            self.pending = Vec::new();
            proof {
                assert(self.frames@.push(p).drop_last() =~= self.frames@);
                assert(p.last() != NEWLINE);
            }
            self.frames = Ghost(self.frames@.push(p));
            assert(self.fed@ =~= flatten(self.frames@) + self.pending@);
            assert(p =~= frame@ + self.pending@);
            Some(FrameResult::Frame(frame))
        } else if self.failed {
            Some(FrameResult::ReadFailure)
        } else {
            Some(FrameResult::EndOfStream)
        }
    }
}

/// No byte is lost or changed by framing: what was handed in is the frames
/// handed out, laid end to end, followed by what is still buffered (unless a
/// read failure dropped it). Every frame is a non-empty line, and every frame
/// but the last ends in the delimiter. Once the source has closed cleanly and
/// the rest is taken, the frames are exactly the bytes handed in.
pub proof fn lemma_framing_keeps_bytes(f: &LineFramer)
    requires
        f.wf(),
    ensures
        !f.failed_spec() ==> f.fed_spec() == flatten(f.frames_spec()) + f.pending_spec(),
        f.failed_spec() ==> f.pending_spec().len() == 0,
        f.closed_spec() && !f.failed_spec() && f.pending_spec().len() == 0 ==> f.fed_spec()
            == flatten(f.frames_spec()),
        forall|j: int| 0 <= j < f.frames_spec().len() ==> is_line(#[trigger] f.frames_spec()[j]),
        forall|j: int|
            0 <= j < f.frames_spec().len() - 1 ==> (#[trigger] f.frames_spec()[j]).last() == NEWLINE,
{
    assert(f.pending_spec().len() == 0 ==> f.pending_spec() =~= Seq::<u8>::empty());
    assert(flatten(f.frames_spec()) + Seq::<u8>::empty() =~= flatten(f.frames_spec()));
}


/// Frames cut at the delimiter: each is a non-empty line, and each but the
/// last ends in the delimiter.
pub open spec fn well_cut(fs: Seq<Seq<u8>>) -> bool {
    &&& forall|j: int| 0 <= j < fs.len() ==> is_line(#[trigger] fs[j])
    &&& forall|j: int| 0 <= j < fs.len() - 1 ==> (#[trigger] fs[j]).last() == NEWLINE
}

proof fn lemma_flatten_shape(fs: Seq<Seq<u8>>)
    requires
        well_cut(fs),
        fs.len() > 0,
    ensures
        flatten(fs) == flatten(fs.drop_last()) + fs.last(),
        flatten(fs).len() > flatten(fs.drop_last()).len(),
        fs.len() > 1 ==> flatten(fs.drop_last()).len() > 0 && flatten(fs.drop_last()).last()
            == NEWLINE,
        well_cut(fs.drop_last()),
{
    let d = fs.drop_last();
    assert(is_line(fs[fs.len() - 1]));
    if fs.len() > 1 {
        assert(d.last() == fs[fs.len() - 2]);
        assert(is_line(fs[fs.len() - 2]));
        assert(fs[fs.len() - 2].last() == NEWLINE);
        assert(flatten(d) == flatten(d.drop_last()) + d.last());
    }
    assert forall|j: int| 0 <= j < d.len() implies is_line(#[trigger] d[j]) by {
        assert(d[j] == fs[j]);
    }
    assert forall|j: int| 0 <= j < d.len() - 1 implies (#[trigger] d[j]).last() == NEWLINE by {
        assert(d[j] == fs[j]);
    }
}

/// Cutting at the delimiter is unique: two ways of cutting the same bytes
/// into delimited lines are the same.
pub proof fn lemma_cut_unique(fa: Seq<Seq<u8>>, fb: Seq<Seq<u8>>)
    requires
        well_cut(fa),
        well_cut(fb),
        flatten(fa) == flatten(fb),
    ensures
        fa == fb,
    decreases fa.len(),
{
    if fa.len() == 0 {
        if fb.len() > 0 {
            lemma_flatten_shape(fb);
        }
        assert(fb =~= fa);
    } else if fb.len() == 0 {
        lemma_flatten_shape(fa);
    } else {
        lemma_flatten_shape(fa);
        lemma_flatten_shape(fb);
        let x = flatten(fa);
        let pa = flatten(fa.drop_last()).len() as int;
        let pb = flatten(fb.drop_last()).len() as int;
        let la = fa.last();
        let lb = fb.last();
        if pa < pb {
            assert(fb.len() > 1);
            assert(x[pb - 1] == flatten(fb.drop_last())[pb - 1]);
            assert(x[pb - 1] == la[pb - 1 - pa]);
            assert(is_line(fa[fa.len() - 1]));
        } else if pb < pa {
            assert(fa.len() > 1);
            assert(x[pa - 1] == flatten(fa.drop_last())[pa - 1]);
            assert(x[pa - 1] == lb[pa - 1 - pb]);
            assert(is_line(fb[fb.len() - 1]));
        }
        assert(flatten(fa.drop_last()) =~= x.subrange(0, pa));
        assert(flatten(fb.drop_last()) =~= x.subrange(0, pb));
        assert(la =~= x.subrange(pa, x.len() as int));
        assert(lb =~= x.subrange(pb, x.len() as int));
        lemma_cut_unique(fa.drop_last(), fb.drop_last());
        assert(fa =~= fa.drop_last().push(la));
        assert(fb =~= fb.drop_last().push(lb));
    }
}

} // verus!
