use vstd::prelude::*;
use crate::framer::{
    FrameResult, LineFramer, NEWLINE, flatten, has_newline, is_line, lemma_cut_unique,
    lemma_framing_keeps_bytes, well_cut,
};
use crate::key::{encode_key, key_of, lemma_key_injective};
use crate::store::{generate_id, id_counter, insert, ledger_contents};
use crate::stream::Stream;

verus! {

/// A line as the ledger holds it.
pub struct LineRecord {
    /// The channel the line came from.
    pub stream: Stream,
    /// Its sequence id.
    pub id: u64,
    /// Its bytes, delimiter included when the source sent one.
    pub payload: Seq<u8>,
}

/// The ledger after the lines of `log` were put, in order, into `start`.
pub open spec fn ledger_after(start: Map<Seq<u8>, Seq<u8>>, log: Seq<LineRecord>) -> Map<Seq<u8>, Seq<u8>>
    decreases log.len(),
{
    if log.len() == 0 {
        start
    } else {
        ledger_after(start, log.drop_last()).insert(
            key_of(log.last().stream, log.last().id),
            log.last().payload,
        )
    }
}

/// The payloads of the lines of `log` that came from `s`, in order.
pub open spec fn lines_of(log: Seq<LineRecord>, s: Stream) -> Seq<Seq<u8>>
    decreases log.len(),
{
    if log.len() == 0 {
        Seq::empty()
    } else if log.last().stream == s {
        lines_of(log.drop_last(), s).push(log.last().payload)
    } else {
        lines_of(log.drop_last(), s)
    }
}

/// What the caller is to do after one step of the capture loop.
#[derive(Debug)]
pub enum Step {
    /// Read from this stream of the child and hand the bytes in (or report
    /// its close or a read failure).
    NeedInput(Stream),
    /// A line of this stream was stored; write it to the same stream of
    /// this process.
    Tee(Stream, Vec<u8>),
    /// This stream ended cleanly.
    Closed(Stream),
    /// Reading this stream failed; it counts as ended.
    ReadFailed(Stream),
    /// Both streams have ended.
    Done,
}

/// Why the capture loop stopped: the store can no longer be trusted.
#[derive(Debug, Clone, Copy, PartialEq, Eq, Structural)]
pub enum CaptureError {
    /// The store's id generator failed.
    IdDraw,
    /// The store failed to keep a line.
    Store,
    /// The store's id generator ran out of values.
    IdsExhausted,
}

/// Judges the id generator's answer: a failed draw is an error, and
/// the generator's last value is refused, since the next draw would wrap.
pub fn check_drawn(drawn: Result<u64, sled::Error>) -> (r: Result<u64, CaptureError>)
    ensures
        drawn is Err ==> r == Err::<u64, CaptureError>(CaptureError::IdDraw),
        drawn == Ok::<u64, sled::Error>(u64::MAX) ==> r == Err::<u64, CaptureError>(
            CaptureError::IdsExhausted,
        ),
        drawn matches Ok(id) ==> (id < u64::MAX ==> r == Ok::<u64, CaptureError>(id)),
{
    match drawn {
        Ok(id) => if id == u64::MAX {
            Err(CaptureError::IdsExhausted)
        } else {
            Ok(id)
        },
        Err(_) => Err(CaptureError::IdDraw),
    }
}

/// Judges the store's answer to putting `frame` of stream `s`: a failed
/// put is a store error; a kept line is handed back to be teed.
pub fn check_stored(s: Stream, frame: Vec<u8>, put: Result<(), sled::Error>) -> (r: Result<Step, CaptureError>)
    ensures
        put is Err ==> r matches Err(CaptureError::Store),
        put is Ok ==> (r matches Ok(Step::Tee(t, v)) && t == s && v@ == frame@),
{
    match put {
        Ok(()) => Ok(Step::Tee(s, frame)),
        Err(_) => Err(CaptureError::Store),
    }
}

/// The dual-stream capture loop: two framers, the polling order, and the
/// ledger that every line goes to.
pub struct Capture {
    db: sled::Db,
    out: LineFramer,
    err: LineFramer,
    out_reading: bool,
    err_reading: bool,
    turn: Stream,
    start: Ghost<Map<Seq<u8>, Seq<u8>>>,
    first_id: Ghost<u64>,
    log: Ghost<Seq<LineRecord>>,
    out_stop: Ghost<nat>,
    err_stop: Ghost<nat>,
}

impl Capture {
    /// The store as it is now.
    pub closed spec fn db_spec(&self) -> sled::Db {
        self.db
    }

    /// The framer of stream `s`.
    pub closed spec fn framer(&self, s: Stream) -> LineFramer {
        match s {
            Stream::Stdout => self.out,
            Stream::Stderr => self.err,
        }
    }

    /// Whether the loop still reads stream `s`.
    pub closed spec fn reading(&self, s: Stream) -> bool {
        match s {
            Stream::Stdout => self.out_reading,
            Stream::Stderr => self.err_reading,
        }
    }

    /// The stream polled first in the next step.
    pub closed spec fn turn_spec(&self) -> Stream {
        self.turn
    }

    /// The ledger when the capture began.
    pub closed spec fn start_spec(&self) -> Map<Seq<u8>, Seq<u8>> {
        self.start@
    }

    /// The id generator's value when the capture began.
    pub closed spec fn first_id_spec(&self) -> u64 {
        self.first_id@
    }

    /// Every line stored by this capture, in the order it was read.
    pub closed spec fn log_spec(&self) -> Seq<LineRecord> {
        self.log@
    }

    /// How many lines were stored when stream `s` stopped being read
    /// (meaningful once it has stopped).
    pub closed spec fn stopped_at(&self, s: Stream) -> nat {
        match s {
            Stream::Stdout => self.out_stop@,
            Stream::Stderr => self.err_stop@,
        }
    }

    /// The polling order as the log shows it: two lines of one stream in a
    /// row only after the other stream stopped being read, and a first line
    /// from stderr only after stdout stopped with nothing stored; the turn
    /// passes to the other stream after each line.
    pub closed spec fn alternates(&self) -> bool {
        let log = self.log@;
        &&& forall|u: Stream| !#[trigger] self.reading(u) ==> self.stopped_at(u) <= log.len()
        &&& forall|i: int, j: int|
            0 <= i && j == i + 1 && j < log.len() && (#[trigger] log[i]).stream == (
            #[trigger] log[j]).stream ==> !self.reading(log[i].stream.other_spec())
                && self.stopped_at(log[i].stream.other_spec()) <= j
        &&& log.len() > 0 && log[0].stream == Stream::Stderr ==> !self.reading(Stream::Stdout)
            && self.stopped_at(Stream::Stdout) == 0
        &&& log.len() > 0 ==> (self.turn == log.last().stream.other_spec() || (!self.reading(
            log.last().stream.other_spec(),
        ) && self.stopped_at(log.last().stream.other_spec()) <= log.len()))
        &&& log.len() == 0 ==> (self.turn == Stream::Stdout || (!self.reading(Stream::Stdout)
            && self.stopped_at(Stream::Stdout) == 0))
    }

    /// The ledger as it is now.
    pub open spec fn ledger(&self) -> Map<Seq<u8>, Seq<u8>> {
        ledger_contents(self.db_spec())
    }

    /// The stream that the next step polls, if any is still read.
    pub open spec fn polled(&self) -> Option<Stream> {
        if self.reading(self.turn_spec()) {
            Some(self.turn_spec())
        } else if self.reading(self.turn_spec().other_spec()) {
            Some(self.turn_spec().other_spec())
        } else {
            None
        }
    }

    /// Ids grow strictly along the log and lie between the generator's
    /// value at the start and its value now; the ledger is the starting one
    /// with the log's lines put into it; each framer handed out exactly
    /// the log's lines of its stream; a stream no longer read has closed
    /// with nothing buffered.
    pub closed spec fn wf(&self) -> bool {
        &&& self.out.wf()
        &&& self.err.wf()
        &&& forall|i: int, j: int|
            0 <= i < j < self.log@.len() ==> (#[trigger] self.log@[i]).id < (#[trigger] self.log@[j]).id
        &&& forall|i: int|
            0 <= i < self.log@.len() ==> self.first_id@ <= (#[trigger] self.log@[i]).id
                < id_counter(self.db)
        &&& self.first_id@ <= id_counter(self.db)
        &&& ledger_contents(self.db) == ledger_after(self.start@, self.log@)
        &&& self.out.frames_spec() == lines_of(self.log@, Stream::Stdout)
        &&& self.err.frames_spec() == lines_of(self.log@, Stream::Stderr)
        &&& (!self.out_reading ==> self.out.closed_spec() && self.out.pending_spec().len() == 0)
        &&& (!self.err_reading ==> self.err.closed_spec() && self.err.pending_spec().len() == 0)
        &&& self.alternates()
    }

    /// Starts capturing into `db`: both streams are read, stdout first, and
    /// nothing has been stored yet.
    pub fn new(db: sled::Db) -> (r: Capture)
        ensures
            r.wf(),
            r.db_spec() == db,
            r.start_spec() == ledger_contents(db),
            r.first_id_spec() == id_counter(db),
            r.log_spec() == Seq::<LineRecord>::empty(),
            r.turn_spec() == Stream::Stdout,
            r.reading(Stream::Stdout),
            r.reading(Stream::Stderr),
            r.framer(Stream::Stdout).fed_spec() == Seq::<u8>::empty(),
            r.framer(Stream::Stderr).fed_spec() == Seq::<u8>::empty(),
            r.framer(Stream::Stdout).pending_spec() == Seq::<u8>::empty(),
            r.framer(Stream::Stderr).pending_spec() == Seq::<u8>::empty(),
            r.framer(Stream::Stdout).frames_spec() == Seq::<Seq<u8>>::empty(),
            r.framer(Stream::Stderr).frames_spec() == Seq::<Seq<u8>>::empty(),
            !r.framer(Stream::Stdout).failed_spec(),
            !r.framer(Stream::Stderr).failed_spec(),
            !r.framer(Stream::Stdout).closed_spec(),
            !r.framer(Stream::Stderr).closed_spec(),
    {
        let out = LineFramer::new();
        let err = LineFramer::new();
        Capture {
            db,
            out,
            err,
            out_reading: true,
            err_reading: true,
            turn: Stream::Stdout,
            start: Ghost(ledger_contents(db)),
            first_id: Ghost(id_counter(db)),
            log: Ghost(Seq::empty()),
            out_stop: Ghost(0),
            err_stop: Ghost(0),
        }
    }

    /// `self` and `o` agree in everything a caller can see.
    pub open spec fn same_view(&self, o: &Capture) -> bool {
        &&& self.db_spec() == o.db_spec()
        &&& self.framer(Stream::Stdout).same_view(&o.framer(Stream::Stdout))
        &&& self.framer(Stream::Stderr).same_view(&o.framer(Stream::Stderr))
        &&& self.reading(Stream::Stdout) == o.reading(Stream::Stdout)
        &&& self.reading(Stream::Stderr) == o.reading(Stream::Stderr)
        &&& self.turn_spec() == o.turn_spec()
        &&& self.start_spec() == o.start_spec()
        &&& self.first_id_spec() == o.first_id_spec()
        &&& self.log_spec() == o.log_spec()
        &&& self.stopped_at(Stream::Stdout) == o.stopped_at(Stream::Stdout)
        &&& self.stopped_at(Stream::Stderr) == o.stopped_at(Stream::Stderr)
    }

    /// `self` and `o` differ at most in the framer of `s`.
    pub open spec fn same_but_framer(&self, o: &Capture, s: Stream) -> bool {
        &&& self.db_spec() == o.db_spec()
        &&& self.framer(s.other_spec()) == o.framer(s.other_spec())
        &&& self.reading(Stream::Stdout) == o.reading(Stream::Stdout)
        &&& self.reading(Stream::Stderr) == o.reading(Stream::Stderr)
        &&& self.turn_spec() == o.turn_spec()
        &&& self.start_spec() == o.start_spec()
        &&& self.first_id_spec() == o.first_id_spec()
        &&& self.log_spec() == o.log_spec()
        &&& self.stopped_at(Stream::Stdout) == o.stopped_at(Stream::Stdout)
        &&& self.stopped_at(Stream::Stderr) == o.stopped_at(Stream::Stderr)
    }

    /// Whether the source of stream `s` has closed or failed.
    pub fn source_closed(&self, s: Stream) -> (r: bool)
        ensures
            r == self.framer(s).closed_spec(),
    {
        match s {
            Stream::Stdout => self.out.is_closed(),
            Stream::Stderr => self.err.is_closed(),
        }
    }

    /// Hands in bytes read from stream `s` of the child.
    pub fn feed(&mut self, s: Stream, bytes: &[u8])
        requires
            old(self).wf(),
            !old(self).framer(s).closed_spec(),
        ensures
            final(self).wf(),
            final(self).same_but_framer(old(self), s),
            final(self).framer(s).fed_spec() == old(self).framer(s).fed_spec() + bytes@,
            final(self).framer(s).frames_spec() == old(self).framer(s).frames_spec(),
            final(self).framer(s).pending_spec() == old(self).framer(s).pending_spec() + bytes@,
            !final(self).framer(s).closed_spec(),
            !final(self).framer(s).failed_spec(),
    {
        let ghost before = *self;
        match s {
            Stream::Stdout => self.out.feed(bytes),
            Stream::Stderr => self.err.feed(bytes),
        }
        proof {
            lemma_alternates_kept(&before, self);
        }
    }

    /// Records that stream `s` of the child closed cleanly.
    pub fn finish(&mut self, s: Stream)
        requires
            old(self).wf(),
        ensures
            final(self).wf(),
            final(self).same_but_framer(old(self), s),
            final(self).framer(s).fed_spec() == old(self).framer(s).fed_spec(),
            final(self).framer(s).frames_spec() == old(self).framer(s).frames_spec(),
            final(self).framer(s).pending_spec() == old(self).framer(s).pending_spec(),
            final(self).framer(s).closed_spec(),
            final(self).framer(s).failed_spec() == old(self).framer(s).failed_spec(),
    {
        let ghost before = *self;
        match s {
            Stream::Stdout => self.out.finish(),
            Stream::Stderr => self.err.finish(),
        }
        proof {
            lemma_alternates_kept(&before, self);
        }
    }

    /// Records that reading stream `s` of the child failed; what it had
    /// buffered is dropped.
    pub fn fail(&mut self, s: Stream)
        requires
            old(self).wf(),
            !old(self).framer(s).closed_spec(),
        ensures
            final(self).wf(),
            final(self).same_but_framer(old(self), s),
            final(self).framer(s).fed_spec() == old(self).framer(s).fed_spec(),
            final(self).framer(s).frames_spec() == old(self).framer(s).frames_spec(),
            final(self).framer(s).pending_spec() == Seq::<u8>::empty(),
            final(self).framer(s).closed_spec(),
            final(self).framer(s).failed_spec(),
    {
        let ghost before = *self;
        match s {
            Stream::Stdout => self.out.fail(),
            Stream::Stderr => self.err.fail(),
        }
        proof {
            lemma_alternates_kept(&before, self);
        }
    }

    /// Whether the loop still reads stream `s`.
    pub fn is_reading(&self, s: Stream) -> (r: bool)
        ensures
            r == self.reading(s),
    {
        match s {
            Stream::Stdout => self.out_reading,
            Stream::Stderr => self.err_reading,
        }
    }

    /// Ends the capture and hands back the store that the lines went to.
    pub fn into_store(self) -> (r: sled::Db)
        ensures
            r == self.db_spec(),
    {
        self.db
    }

    /// One turn of the loop on the polled stream `s`, which `old` holds
    /// no complete frame of yet and whose source is still open: nothing
    /// changes and input is asked for.
    pub open spec fn needs_input(old: &Capture, new: &Capture, s: Stream, r: Result<Step, CaptureError>) -> bool {
        &&& r matches Ok(Step::NeedInput(t)) && t == s
        &&& new.same_view(old)
    }

    /// One turn of the loop that stores a frame of `s` and hands it back to
    /// be teed: the frame is the first line buffered (or, after a clean
    /// close, the whole rest), it gets the generator's next id, the ledger
    /// maps its key to it, and the other stream is polled first next.
    pub open spec fn stores_frame(old: &Capture, new: &Capture, s: Stream, r: Result<Step, CaptureError>) -> bool {
        let id = id_counter(old.db_spec());
        let p = old.framer(s).pending_spec();
        &&& r matches Ok(Step::Tee(t, v)) && t == s && {
            &&& id < u64::MAX
            &&& is_line(v@)
            &&& p == v@ + new.framer(s).pending_spec()
            &&& (v@.last() == NEWLINE || (!has_newline(p) && new.framer(s).pending_spec().len() == 0))
            &&& new.framer(s).frames_spec() == old.framer(s).frames_spec().push(v@)
            &&& new.log_spec() == old.log_spec().push(LineRecord { stream: s, id, payload: v@ })
            &&& new.ledger() == old.ledger().insert(key_of(s, id), v@)
            &&& id_counter(new.db_spec()) == id + 1
        }
        &&& new.framer(s).fed_spec() == old.framer(s).fed_spec()
        &&& new.framer(s).closed_spec() == old.framer(s).closed_spec()
        &&& new.framer(s).failed_spec() == old.framer(s).failed_spec()
        &&& new.framer(s.other_spec()) == old.framer(s.other_spec())
        &&& new.reading(Stream::Stdout) == old.reading(Stream::Stdout)
        &&& new.reading(Stream::Stderr) == old.reading(Stream::Stderr)
        &&& new.turn_spec() == s.other_spec()
        &&& new.start_spec() == old.start_spec()
        &&& new.first_id_spec() == old.first_id_spec()
        &&& new.stopped_at(Stream::Stdout) == old.stopped_at(Stream::Stdout)
        &&& new.stopped_at(Stream::Stderr) == old.stopped_at(Stream::Stderr)
    }

    /// One turn of the loop on a stream whose source has closed or failed
    /// with nothing buffered: the stream is no longer read.
    pub open spec fn closes(old: &Capture, new: &Capture, s: Stream, r: Result<Step, CaptureError>) -> bool {
        &&& (if old.framer(s).failed_spec() {
            r matches Ok(Step::ReadFailed(t)) && t == s
        } else {
            r matches Ok(Step::Closed(t)) && t == s
        })
        &&& new.db_spec() == old.db_spec()
        &&& new.framer(Stream::Stdout).same_view(&old.framer(Stream::Stdout))
        &&& new.framer(Stream::Stderr).same_view(&old.framer(Stream::Stderr))
        &&& !new.reading(s)
        &&& new.reading(s.other_spec()) == old.reading(s.other_spec())
        &&& new.turn_spec() == s.other_spec()
        &&& new.start_spec() == old.start_spec()
        &&& new.first_id_spec() == old.first_id_spec()
        &&& new.log_spec() == old.log_spec()
        &&& new.stopped_at(s) == old.log_spec().len()
        &&& new.stopped_at(s.other_spec()) == old.stopped_at(s.other_spec())
    }

    /// A failed step keeps the log, the turn, what was read of the other
    /// stream and everything known of the start; the polled stream's frame
    /// is gone from its buffer and not in the log.
    pub open spec fn fails_keeping(old: &Capture, new: &Capture) -> bool {
        &&& new.log_spec() == old.log_spec()
        &&& new.turn_spec() == old.turn_spec()
        &&& new.reading(Stream::Stdout) == old.reading(Stream::Stdout)
        &&& new.reading(Stream::Stderr) == old.reading(Stream::Stderr)
        &&& new.start_spec() == old.start_spec()
        &&& new.first_id_spec() == old.first_id_spec()
        &&& (old.polled() matches Some(s) ==> new.framer(s.other_spec()) == old.framer(
            s.other_spec(),
        ))
    }

    /// What a step does, by the polled stream and its framer's state.
    pub open spec fn step_spec(old: &Capture, new: &Capture, r: Result<Step, CaptureError>) -> bool {
        match old.polled() {
            None => {
                &&& r matches Ok(Step::Done)
                &&& new.same_view(old)
            },
            Some(s) => {
                let p = old.framer(s).pending_spec();
                if !has_newline(p) && !old.framer(s).closed_spec() {
                    Self::needs_input(old, new, s, r)
                } else if p.len() > 0 {
                    &&& (r is Ok ==> Self::stores_frame(old, new, s, r))
                    &&& (id_counter(old.db_spec()) == u64::MAX ==> r is Err)
                } else {
                    Self::closes(old, new, s, r)
                }
            },
        }
    }

    /// One step of the capture loop. The polled stream is the one whose
    /// turn it is, or the other when that one is no longer read; with both
    /// ended the loop is done. The polled stream's framer is asked for a
    /// frame: without one, input is asked for; a frame is given an id,
    /// stored and handed back to be teed; the end of the stream, clean or
    /// by a read failure, stops its reading. Only the store can fail a step.
    pub fn step(&mut self) -> (r: Result<Step, CaptureError>)
        requires
            old(self).wf(),
        ensures
            r is Ok ==> final(self).wf(),
            Self::step_spec(old(self), final(self), r),
            r == Err::<Step, CaptureError>(CaptureError::IdsExhausted) ==> id_counter(
                old(self).db_spec(),
            ) == u64::MAX,
            r == Err::<Step, CaptureError>(CaptureError::IdsExhausted) ==> final(self).ledger()
                == old(self).ledger(),
            r == Err::<Step, CaptureError>(CaptureError::IdDraw) ==> final(self).ledger()
                == old(self).ledger(),
            r is Err ==> Self::fails_keeping(old(self), final(self)),
    {
        let s = if self.is_reading(self.turn) {
            self.turn
        } else if self.is_reading(self.turn.other()) {
            self.turn.other()
        } else {
            return Ok(Step::Done);
        };
        let ghost before = *self;
        let taken = match s {
            Stream::Stdout => self.out.take_frame(),
            Stream::Stderr => self.err.take_frame(),
        };
        match taken {
            None => {
                proof {
                    lemma_alternates_kept(&before, self);
                }
                Ok(Step::NeedInput(s))
            },
            Some(FrameResult::Frame(bytes)) => {
                let id = match check_drawn(generate_id(&mut self.db)) {
                    Ok(id) => id,
                    Err(e) => {
                        return Err(e);
                    },
                };
                let key = encode_key(s, id);
                let stored = bytes.clone();
                let r = check_stored(s, bytes, insert(&mut self.db, key, stored));
                if r.is_ok() {
                    let ghost rec = LineRecord { stream: s, id, payload: stored@ };
                    let ghost log0 = self.log@;
                    proof {
                        assert(log0.push(rec).drop_last() =~= log0);
                    }
                    self.log = Ghost(log0.push(rec));
                    self.turn = s.other();
                    proof {
                        lemma_alternates_record(&before, self, s, rec);
                    }
                }
                r
            },
            Some(FrameResult::EndOfStream) | Some(FrameResult::ReadFailure) => {
                match s {
                    Stream::Stdout => {
                        self.out_reading = false;
                        self.out_stop = Ghost(self.log@.len());
                    },
                    Stream::Stderr => {
                        self.err_reading = false;
                        self.err_stop = Ghost(self.log@.len());
                    },
                }
                self.turn = s.other();
                proof {
                    lemma_alternates_close(&before, self, s);
                }
                match taken {
                    Some(FrameResult::ReadFailure) => Ok(Step::ReadFailed(s)),
                    _ => Ok(Step::Closed(s)),
                }
            },
        }
    }
}

/// Whether `k` is the key of some line with an id of at least `first`.
pub open spec fn is_key_from(k: Seq<u8>, first: u64) -> bool {
    exists|s: Stream, id: u64| first <= id && key_of(s, id) == k
}

proof fn lemma_ledger_after(start: Map<Seq<u8>, Seq<u8>>, log: Seq<LineRecord>)
    requires
        forall|i: int, j: int| 0 <= i < j < log.len() ==> (#[trigger] log[i]).id < (#[trigger] log[j]).id,
    ensures
        forall|i: int|
            0 <= i < log.len() ==> ledger_after(start, log).contains_key(
                key_of((#[trigger] log[i]).stream, log[i].id),
            ) && ledger_after(start, log)[key_of(log[i].stream, log[i].id)] == log[i].payload,
        forall|k: Seq<u8>| #[trigger]
            start.contains_key(k) ==> ledger_after(start, log).contains_key(k),
        forall|k: Seq<u8>|
            start.contains_key(k) && (forall|i: int|
                0 <= i < log.len() ==> key_of((#[trigger] log[i]).stream, log[i].id) != k)
                ==> #[trigger] ledger_after(start, log)[k] == start[k],
    decreases log.len(),
{
    if log.len() > 0 {
        let init = log.drop_last();
        lemma_ledger_after(start, init);
        let last = log.last();
        assert forall|i: int| 0 <= i < log.len() implies ledger_after(start, log).contains_key(
            key_of((#[trigger] log[i]).stream, log[i].id),
        ) && ledger_after(start, log)[key_of(log[i].stream, log[i].id)] == log[i].payload by {
            if i < log.len() - 1 {
                assert(init[i] == log[i]);
                lemma_key_injective(log[i].stream, log[i].id, last.stream, last.id);
            }
        }
        assert forall|k: Seq<u8>|
            start.contains_key(k) && (forall|i: int|
                0 <= i < log.len() ==> key_of((#[trigger] log[i]).stream, log[i].id) != k)
                implies #[trigger] ledger_after(start, log)[k] == start[k] by {
            assert forall|i: int| 0 <= i < init.len() implies key_of(
                (#[trigger] init[i]).stream,
                init[i].id,
            ) != k by {
                assert(init[i] == log[i]);
            }
            assert(key_of(log[log.len() - 1].stream, log[log.len() - 1].id) != k);
        }
    }
}

/// Every line stored by the capture is in the ledger exactly as it was
/// read, under a key of its own; each stream's framer handed out exactly
/// that stream's stored lines, each a non-empty line, all but the last
/// ending in the delimiter; and once a stream's source has closed cleanly
/// and its rest is taken, its stored lines laid end to end are every byte
/// that the source sent, which holds of both streams once the loop is done
/// (but for one whose read failed).
pub proof fn lemma_every_line_stored(c: &Capture)
    requires
        c.wf(),
    ensures
        forall|i: int, j: int|
            0 <= i < c.log_spec().len() && 0 <= j < c.log_spec().len() && i != j ==> key_of(
                (#[trigger] c.log_spec()[i]).stream,
                c.log_spec()[i].id,
            ) != key_of((#[trigger] c.log_spec()[j]).stream, c.log_spec()[j].id),
        forall|i: int|
            0 <= i < c.log_spec().len() ==> c.ledger().contains_key(
                key_of((#[trigger] c.log_spec()[i]).stream, c.log_spec()[i].id),
            ) && c.ledger()[key_of(c.log_spec()[i].stream, c.log_spec()[i].id)]
                == c.log_spec()[i].payload,
        forall|s: Stream| #[trigger]
            c.framer(s).frames_spec() == lines_of(c.log_spec(), s),
        forall|s: Stream, j: int|
            0 <= j < lines_of(c.log_spec(), s).len() ==> is_line(
                #[trigger] lines_of(c.log_spec(), s)[j],
            ),
        forall|s: Stream, j: int|
            0 <= j < lines_of(c.log_spec(), s).len() - 1 ==> (#[trigger] lines_of(
                c.log_spec(),
                s,
            )[j]).last() == NEWLINE,
        forall|s: Stream|
            #![trigger c.framer(s)]
            c.framer(s).closed_spec() && !c.framer(s).failed_spec()
                && c.framer(s).pending_spec().len() == 0 ==> flatten(lines_of(c.log_spec(), s))
                == c.framer(s).fed_spec(),
        forall|s: Stream|
            #![trigger c.framer(s)]
            c.polled() is None && !c.framer(s).failed_spec() ==> flatten(lines_of(c.log_spec(), s))
                == c.framer(s).fed_spec(),
{
    let log = c.log_spec();
    lemma_ledger_after(c.start_spec(), log);
    lemma_framing_keeps_bytes(&c.framer(Stream::Stdout));
    lemma_framing_keeps_bytes(&c.framer(Stream::Stderr));
    assert forall|i: int, j: int|
        0 <= i < log.len() && 0 <= j < log.len() && i != j implies key_of(
        (#[trigger] log[i]).stream,
        log[i].id,
    ) != key_of((#[trigger] log[j]).stream, log[j].id) by {
        lemma_key_injective(log[i].stream, log[i].id, log[j].stream, log[j].id);
    }
    assert forall|s: Stream| #[trigger] c.framer(s).frames_spec() == lines_of(log, s) by {
        match s {
            Stream::Stdout => {},
            Stream::Stderr => {},
        }
    }
}

/// Ids follow the order in which lines were read: they are pairwise
/// distinct and grow strictly, so sorting the stored lines by id gives back
/// the read order.
pub proof fn lemma_ids_follow_read_order(c: &Capture)
    requires
        c.wf(),
    ensures
        forall|i: int, j: int|
            0 <= i < c.log_spec().len() && 0 <= j < c.log_spec().len() ==> (i < j <==> (
            #[trigger] c.log_spec()[i]).id < (#[trigger] c.log_spec()[j]).id),
{
}

/// A capture into a store that already holds lines only adds: every key
/// present at the start stays, every new line has an id no lower than the
/// generator's value at the start, and every entry whose key is not the key
/// of such a line keeps its value.
pub proof fn lemma_earlier_entries_kept(c: &Capture)
    requires
        c.wf(),
    ensures
        forall|k: Seq<u8>| #[trigger]
            c.start_spec().contains_key(k) ==> c.ledger().contains_key(k),
        forall|k: Seq<u8>|
            c.start_spec().contains_key(k) && !is_key_from(k, c.first_id_spec())
                ==> #[trigger] c.ledger()[k] == c.start_spec()[k],
        forall|i: int|
            0 <= i < c.log_spec().len() ==> c.first_id_spec() <= (#[trigger] c.log_spec()[i]).id,
{
    let log = c.log_spec();
    lemma_ledger_after(c.start_spec(), log);
    assert forall|k: Seq<u8>|
        c.start_spec().contains_key(k) && !is_key_from(k, c.first_id_spec())
            implies #[trigger] c.ledger()[k] == c.start_spec()[k] by {
        assert forall|i: int| 0 <= i < log.len() implies key_of(
            (#[trigger] log[i]).stream,
            log[i].id,
        ) != k by {
            if key_of(log[i].stream, log[i].id) == k {
                assert(is_key_from(k, c.first_id_spec()));
            }
        }
    }
}


proof fn lemma_alternates_kept(a: &Capture, b: &Capture)
    requires
        a.alternates(),
        a.log@ == b.log@,
        a.turn == b.turn,
        a.out_reading == b.out_reading,
        a.err_reading == b.err_reading,
        a.out_stop@ == b.out_stop@,
        a.err_stop@ == b.err_stop@,
    ensures
        b.alternates(),
{
    assert forall|u: Stream| b.reading(u) == a.reading(u) && b.stopped_at(u) == a.stopped_at(u) by {
        match u {
            Stream::Stdout => {},
            Stream::Stderr => {},
        }
    }
}

proof fn lemma_alternates_close(a: &Capture, b: &Capture, s: Stream)
    requires
        a.alternates(),
        a.reading(s),
        b.log@ == a.log@,
        b.turn == s.other_spec(),
        !b.reading(s),
        b.reading(s.other_spec()) == a.reading(s.other_spec()),
        b.stopped_at(s) == a.log@.len(),
        b.stopped_at(s.other_spec()) == a.stopped_at(s.other_spec()),
    ensures
        b.alternates(),
{
    assert forall|u: Stream| b.reading(u) ==> a.reading(u) by {
        if u != s {
            assert(u == s.other_spec());
        }
    }
    assert forall|u: Stream| !#[trigger] b.reading(u) ==> b.stopped_at(u) <= b.log@.len() by {
        if u != s {
            assert(u == s.other_spec());
        }
    }
    let log = b.log@;
    assert forall|i: int, j: int|
        0 <= i && j == i + 1 && j < log.len() && (#[trigger] log[i]).stream == (
        #[trigger] log[j]).stream implies !b.reading(log[i].stream.other_spec())
            && b.stopped_at(log[i].stream.other_spec()) <= j by {
        assert(!a.reading(log[i].stream.other_spec()));
        assert(log[i].stream.other_spec() != s);
        assert(log[i].stream.other_spec() == s.other_spec());
    }
    if log.len() > 0 {
        let t = log.last().stream;
        if t == s {
            assert(b.turn == t.other_spec());
        } else {
            assert(t.other_spec() == s);
        }
    } else {
        if s == Stream::Stderr {
            assert(b.turn == Stream::Stdout);
        }
    }
}

proof fn lemma_alternates_record(a: &Capture, b: &Capture, s: Stream, rec: LineRecord)
    requires
        a.alternates(),
        a.polled() == Some(s),
        rec.stream == s,
        b.log@ == a.log@.push(rec),
        b.turn == s.other_spec(),
        b.out_reading == a.out_reading,
        b.err_reading == a.err_reading,
        b.out_stop@ == a.out_stop@,
        b.err_stop@ == a.err_stop@,
    ensures
        b.alternates(),
{
    let n = a.log@.len();
    let log = b.log@;
    assert forall|u: Stream| b.reading(u) == a.reading(u) && b.stopped_at(u) == a.stopped_at(u) by {
        match u {
            Stream::Stdout => {},
            Stream::Stderr => {},
        }
    }
    assert forall|i: int, j: int|
        0 <= i && j == i + 1 && j < log.len() && (#[trigger] log[i]).stream == (
        #[trigger] log[j]).stream implies !b.reading(log[i].stream.other_spec())
            && b.stopped_at(log[i].stream.other_spec()) <= j by {
        if j < n {
            assert(log[i] == a.log@[i]);
            assert(log[j] == a.log@[j]);
        } else {
            assert(log[i] == a.log@.last());
            assert(log[j] == rec);
            if a.reading(s.other_spec()) {
                assert(a.turn != s.other_spec());
            }
        }
    }
    if n == 0 && s == Stream::Stderr {
        assert(log[0] == rec);
        if a.reading(Stream::Stdout) {
            assert(a.turn != Stream::Stdout);
        }
    }
    if n > 0 {
        assert(log[0] == a.log@[0]);
    }
}

/// Lines are stored in the polling order, stdout first and then by turns:
/// the first line comes from stdout unless stdout ended before any line was
/// stored, and two lines of one stream follow each other only once the
/// other stream has stopped being read, no later than the second of them.
pub proof fn lemma_polling_alternates(c: &Capture)
    requires
        c.wf(),
    ensures
        c.log_spec().len() > 0 && c.log_spec()[0].stream == Stream::Stderr ==> !c.reading(
            Stream::Stdout,
        ) && c.stopped_at(Stream::Stdout) == 0,
        forall|i: int, j: int|
            0 <= i && j == i + 1 && j < c.log_spec().len() && (#[trigger] c.log_spec()[i]).stream
                == (#[trigger] c.log_spec()[j]).stream ==> !c.reading(
                c.log_spec()[i].stream.other_spec(),
            ) && c.stopped_at(c.log_spec()[i].stream.other_spec()) <= j,
        forall|u: Stream| !#[trigger] c.reading(u) ==> c.stopped_at(u) <= c.log_spec().len(),
{
}


/// Once the loop is done, the lines stored from a stream whose reads did not
/// fail are exactly the delimited lines that the child sent on it, in order:
/// `sent` is any cutting of the bytes it sent into lines, and there is only
/// one. A stream that sent nothing has no stored line.
pub proof fn lemma_stored_lines_are_sent_lines(c: &Capture, s: Stream, sent: Seq<Seq<u8>>)
    requires
        c.wf(),
        c.polled() is None,
        !c.framer(s).failed_spec(),
        well_cut(sent),
        flatten(sent) == c.framer(s).fed_spec(),
    ensures
        lines_of(c.log_spec(), s) == sent,
{
    lemma_every_line_stored(c);
    let stored = lines_of(c.log_spec(), s);
    assert(c.framer(s).frames_spec() == stored);
    assert(well_cut(stored));
    lemma_cut_unique(stored, sent);
}

} // verus!
