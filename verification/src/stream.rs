//! Incremental parser for a server-sent-event stream of chat-completion
//! chunks.
//!
//! The transport hands in raw body fragments as they arrive; the parser
//! buffers them, cuts the buffer at newlines, and turns each complete
//! `data: {...}` line into a text delta, the `data: [DONE]` sentinel into
//! stream completion, and anything else — including malformed JSON — into
//! nothing at all.  A trailing line not yet terminated by a newline is kept
//! across fragments, so a delta split at a read boundary is never lost.

use vstd::prelude::*;

verus! {

/// One event of the parsed stream.
#[derive(Debug, Clone)]
pub enum StreamEvent {
    /// One incremental text fragment.
    Delta(String),
    /// The stream completed.
    Done,
}

/// The mathematical shape of one stream event.
pub enum EventModel {
    /// One incremental text fragment.
    Delta(Seq<char>),
    /// The stream completed.
    Done,
}

impl View for StreamEvent {
    type V = EventModel;

    open spec fn view(&self) -> EventModel {
        match self {
            StreamEvent::Delta(s) => EventModel::Delta(s@),
            StreamEvent::Done => EventModel::Done,
        }
    }
}

/// The models of a sequence of events.
pub open spec fn events_view(v: Seq<StreamEvent>) -> Seq<EventModel> {
    v.map(|i: int, e: StreamEvent| e@)
}

/// The text fragment carried by a stream chunk's first choice, when the
/// payload is valid JSON whose first choice's delta has string content.  A
/// function of the payload bytes alone; named here and fixed by the one
/// parsing routine that computes it.
pub uninterp spec fn json_delta_content(payload: Seq<u8>) -> Option<Seq<char>>;

/// Relies on `serde_json::from_slice`, `serde_json::Value::pointer` and
/// `serde_json::Value::as_str`: extracts the string content of a chunk's
/// first choice's delta, a function of the payload bytes alone.  A payload
/// that is not JSON, has no first choice, or whose delta carries no string
/// content gives `None`.
#[verifier::external_body]
fn parse_delta_content(payload: &Vec<u8>) -> (r: Option<String>)
    ensures
        match r {
            Some(s) => json_delta_content(payload@) == Some(s@),
            None => json_delta_content(payload@) is None,
        },
{
    match serde_json::from_slice::<serde_json::Value>(payload.as_slice()) {
        Ok(v) => match v.pointer("/choices/0/delta/content") {
            Some(c) => c.as_str().map(|s| s.to_string()),
            None => None,
        },
        Err(_) => None,
    }
}

/// The byte sequence of the `data: ` frame prefix.
pub open spec fn data_prefix() -> Seq<u8> {
    seq![100u8, 97u8, 116u8, 97u8, 58u8, 32u8]
}

/// The byte sequence of the `[DONE]` sentinel.
pub open spec fn done_marker() -> Seq<u8> {
    seq![91u8, 68u8, 79u8, 78u8, 69u8, 93u8]
}

/// A line with one trailing carriage return removed.
pub open spec fn strip_cr(l: Seq<u8>) -> Seq<u8> {
    if l.len() > 0 && l.last() == 13 {
        l.drop_last()
    } else {
        l
    }
}

/// ASCII whitespace, as trimmed around the `[DONE]` sentinel.
pub open spec fn is_ws_byte(b: u8) -> bool {
    b == 32 || b == 9 || b == 13 || b == 10
}

/// `s` without leading ASCII whitespace.
pub open spec fn trim_front(s: Seq<u8>) -> Seq<u8>
    decreases s.len(),
{
    if s.len() > 0 && is_ws_byte(s[0]) {
        trim_front(s.skip(1))
    } else {
        s
    }
}

/// `s` without trailing ASCII whitespace.
pub open spec fn trim_back(s: Seq<u8>) -> Seq<u8>
    decreases s.len(),
{
    if s.len() > 0 && is_ws_byte(s.last()) {
        trim_back(s.drop_last())
    } else {
        s
    }
}

/// `s` without leading and trailing ASCII whitespace.
pub open spec fn trim_bytes(s: Seq<u8>) -> Seq<u8> {
    trim_back(trim_front(s))
}

/// Whether the line starts with the `data: ` prefix.
pub open spec fn is_data_line(l: Seq<u8>) -> bool {
    l.len() >= 6 && l.subrange(0, 6) == data_prefix()
}

/// The payload after the `data: ` prefix.
pub open spec fn payload_of(l: Seq<u8>) -> Seq<u8> {
    l.skip(6)
}

/// What one line contributes to the stream: nothing for a line without the
/// frame prefix or with an unusable payload, completion for the sentinel,
/// and a delta for a chunk carrying content.
pub open spec fn line_event(l: Seq<u8>) -> Option<EventModel> {
    let l2 = strip_cr(l);
    if !is_data_line(l2) {
        None
    } else if trim_bytes(payload_of(l2)) == done_marker() {
        Some(EventModel::Done)
    } else {
        match json_delta_content(payload_of(l2)) {
            Some(s) => Some(EventModel::Delta(s)),
            None => None,
        }
    }
}

/// Index of the first newline byte, or a negative value if there is none.
pub open spec fn first_nl_idx(b: Seq<u8>) -> int
    decreases b.len(),
{
    if b.len() == 0 {
        -1
    } else if b[0] == 10 {
        0
    } else {
        let r = first_nl_idx(b.skip(1));
        if r < 0 {
            -1
        } else {
            r + 1
        }
    }
}

/// The newline-terminated lines of the buffer, without their terminators.
pub open spec fn complete_lines(b: Seq<u8>) -> Seq<Seq<u8>>
    decreases b.len(),
{
    let i = first_nl_idx(b);
    if 0 <= i < b.len() {
        seq![b.take(i)] + complete_lines(b.skip(i + 1))
    } else {
        seq![]
    }
}

/// What remains of the buffer after its newline-terminated lines: the
/// trailing fragment not yet terminated.
pub open spec fn tail_rest(b: Seq<u8>) -> Seq<u8>
    decreases b.len(),
{
    let i = first_nl_idx(b);
    if 0 <= i < b.len() {
        tail_rest(b.skip(i + 1))
    } else {
        b
    }
}

/// The events of a sequence of lines, in order, stopping at the first
/// completion event.
pub open spec fn events_of(lines: Seq<Seq<u8>>) -> Seq<EventModel>
    decreases lines.len(),
{
    if lines.len() == 0 {
        seq![]
    } else {
        match line_event(lines[0]) {
            None => events_of(lines.skip(1)),
            Some(EventModel::Done) => seq![EventModel::Done],
            Some(EventModel::Delta(s)) => seq![EventModel::Delta(s)] + events_of(lines.skip(1)),
        }
    }
}

/// A scan that found the first newline at `p` agrees with the spec index.
proof fn lemma_first_nl_at(b: Seq<u8>, p: int)
    requires
        0 <= p < b.len(),
        b[p] == 10,
        forall|j: int| 0 <= j < p ==> b[j] != 10,
    ensures
        first_nl_idx(b) == p,
    decreases p,
{
    if p > 0 {
        assert forall|j: int| 0 <= j < p - 1 implies b.skip(1)[j] != 10 by {
            assert(b.skip(1)[j] == b[j + 1]);
        }
        assert(b.skip(1)[p - 1] == b[p]);
        lemma_first_nl_at(b.skip(1), p - 1);
    }
}

/// A scan that found no newline agrees with the spec index.
proof fn lemma_first_nl_none(b: Seq<u8>)
    requires
        forall|j: int| 0 <= j < b.len() ==> b[j] != 10,
    ensures
        first_nl_idx(b) < 0,
    decreases b.len(),
{
    if b.len() > 0 {
        assert forall|j: int| 0 <= j < b.skip(1).len() implies b.skip(1)[j] != 10 by {
            assert(b.skip(1)[j] == b[j + 1]);
        }
        lemma_first_nl_none(b.skip(1));
    }
}

/// Whether a sequence of events ends in completion.
pub open spec fn ends_done(evs: Seq<EventModel>) -> bool {
    evs.len() > 0 && evs.last() is Done
}

/// The events the end of the stream contributes: whatever the retained
/// trailing fragment yields as one last line, followed by completion unless
/// that line was itself the sentinel.
pub open spec fn final_events(b: Seq<u8>) -> Seq<EventModel> {
    match line_event(b) {
        Some(EventModel::Done) => seq![EventModel::Done],
        Some(EventModel::Delta(s)) => seq![EventModel::Delta(s), EventModel::Done],
        None => seq![EventModel::Done],
    }
}

/// Trimming the front is the same as skipping the leading whitespace.
proof fn lemma_trim_front_skip(s: Seq<u8>, lo: int)
    requires
        0 <= lo <= s.len(),
        forall|j: int| 0 <= j < lo ==> is_ws_byte(s[j]),
        lo < s.len() ==> !is_ws_byte(s[lo]),
    ensures
        trim_front(s) == s.skip(lo),
    decreases lo,
{
    if lo == 0 {
        assert(s.skip(0) =~= s);
    } else {
        assert(is_ws_byte(s[0]));
        assert forall|j: int| 0 <= j < lo - 1 implies is_ws_byte(s.skip(1)[j]) by {
            assert(s.skip(1)[j] == s[j + 1]);
        }
        if lo - 1 < s.skip(1).len() {
            assert(s.skip(1)[lo - 1] == s[lo]);
        }
        lemma_trim_front_skip(s.skip(1), lo - 1);
        assert(s.skip(1).skip(lo - 1) =~= s.skip(lo));
    }
}

/// Trimming the back is the same as taking up to the trailing whitespace.
proof fn lemma_trim_back_take(s: Seq<u8>, hi: int)
    requires
        0 <= hi <= s.len(),
        forall|j: int| hi <= j < s.len() ==> is_ws_byte(s[j]),
        hi > 0 ==> !is_ws_byte(s[hi - 1]),
    ensures
        trim_back(s) == s.take(hi),
    decreases s.len() - hi,
{
    if hi == s.len() {
        if s.len() > 0 && is_ws_byte(s.last()) {
            assert(false);
        }
        assert(s.take(hi) =~= s);
    } else {
        assert(is_ws_byte(s.last()));
        assert(s.drop_last() =~= s.take(s.len() - 1));
        assert forall|j: int| hi <= j < s.drop_last().len() implies is_ws_byte(
            s.drop_last()[j],
        ) by {
            assert(s.drop_last()[j] == s[j]);
        }
        lemma_trim_back_take(s.drop_last(), hi);
        assert(s.drop_last().take(hi) =~= s.take(hi));
    }
}

/// Index of the first newline byte in the buffer, if any.
fn find_nl(buf: &Vec<u8>) -> (r: Option<usize>)
    ensures
        match r {
            Some(p) => first_nl_idx(buf@) == p && p < buf@.len(),
            None => first_nl_idx(buf@) < 0,
        },
{
    let n = buf.len();
    let mut i: usize = 0;
    while i < n
        invariant
            i <= n,
            n == buf@.len(),
            forall|j: int| 0 <= j < i ==> buf@[j] != 10,
        decreases n - i,
    {
        if buf[i] == 10 {
            proof {
                lemma_first_nl_at(buf@, i as int);
            }
            return Some(i);
        }
        i = i + 1;
    }
    proof {
        lemma_first_nl_none(buf@);
    }
    None
}

/// Whether a byte is ASCII whitespace.
fn is_ws(b: u8) -> (r: bool)
    ensures
        r == is_ws_byte(b),
{
    b == 32 || b == 9 || b == 13 || b == 10
}

/// Turns one complete line into its stream event, if it has one.
fn process_line(line: Vec<u8>) -> (r: Option<StreamEvent>)
    ensures
        match r {
            Some(e) => line_event(line@) == Some(e@),
            None => line_event(line@) is None,
        },
{
    let ghost orig = line@;
    let mut line = line;
    if line.len() > 0 && line[line.len() - 1] == 13 {
        line.pop();
    }
    proof {
        assert(line@ =~= strip_cr(orig));
    }
    if line.len() < 6 {
        return None;
    }
    if !(line[0] == 100 && line[1] == 97 && line[2] == 116 && line[3] == 97 && line[4] == 58
        && line[5] == 32) {
        proof {
            if is_data_line(line@) {
                assert(line@.subrange(0, 6)[0] == line@[0]);
                assert(line@.subrange(0, 6)[1] == line@[1]);
                assert(line@.subrange(0, 6)[2] == line@[2]);
                assert(line@.subrange(0, 6)[3] == line@[3]);
                assert(line@.subrange(0, 6)[4] == line@[4]);
                assert(line@.subrange(0, 6)[5] == line@[5]);
                assert(false);
            }
        }
        return None;
    }
    proof {
        assert(line@.subrange(0, 6) =~= data_prefix());
    }
    let mut payload: Vec<u8> = Vec::new();
    let nl = line.len();
    let mut i: usize = 6;
    while i < nl
        invariant
            6 <= i <= nl,
            nl == line@.len(),
            payload@ =~= line@.subrange(6, i as int),
        decreases nl - i,
    {
        payload.push(line[i]);
        i = i + 1;
    }
    proof {
        assert(payload@ =~= payload_of(line@));
    }
    let n = payload.len();
    let mut lo: usize = 0;
    while lo < n && is_ws(payload[lo])
        invariant
            lo <= n,
            n == payload@.len(),
            forall|j: int| 0 <= j < lo ==> is_ws_byte(payload@[j]),
        decreases n - lo,
    {
        lo = lo + 1;
    }
    let mut hi: usize = n;
    while hi > lo && is_ws(payload[hi - 1])
        invariant
            lo <= hi <= n,
            n == payload@.len(),
            forall|j: int| hi <= j < n ==> is_ws_byte(payload@[j]),
        decreases hi,
    {
        hi = hi - 1;
    }
    proof {
        lemma_trim_front_skip(payload@, lo as int);
        let sk = payload@.skip(lo as int);
        assert forall|j: int| hi - lo <= j < sk.len() implies is_ws_byte(sk[j]) by {
            assert(sk[j] == payload@[lo + j]);
        }
        if hi > lo {
            assert(sk[hi - lo - 1] == payload@[hi - 1]);
        }
        lemma_trim_back_take(sk, hi - lo);
        assert(trim_bytes(payload@) == sk.take(hi - lo));
    }
    if hi - lo == 6 && payload[lo] == 91 && payload[lo + 1] == 68 && payload[lo + 2] == 79
        && payload[lo + 3] == 78 && payload[lo + 4] == 69 && payload[lo + 5] == 93 {
        proof {
            assert(trim_bytes(payload@) =~= done_marker());
        }
        return Some(StreamEvent::Done);
    }
    proof {
        if trim_bytes(payload@) == done_marker() {
            let tr = payload@.skip(lo as int).take(hi - lo);
            assert(tr.len() == 6);
            assert(tr[0] == payload@[lo as int]);
            assert(tr[1] == payload@[lo + 1]);
            assert(tr[2] == payload@[lo + 2]);
            assert(tr[3] == payload@[lo + 3]);
            assert(tr[4] == payload@[lo + 4]);
            assert(tr[5] == payload@[lo + 5]);
            assert(false);
        }
    }
    match parse_delta_content(&payload) {
        Some(s) => Some(StreamEvent::Delta(s)),
        None => None,
    }
}

/// Incremental parser for the event stream: feed it body fragments as they
/// arrive, collect the events each fragment completes.
pub struct SseParser {
    buf: Vec<u8>,
    done: bool,
}

impl SseParser {
    /// The retained bytes: a trailing line not yet terminated by a newline.
    pub closed spec fn spec_buf(self) -> Seq<u8> {
        self.buf@
    }

    /// Whether the stream has completed.
    pub closed spec fn spec_done(self) -> bool {
        self.done
    }

    /// The retained fragment never holds a full line.
    pub open spec fn wf(self) -> bool {
        first_nl_idx(self.spec_buf()) < 0
    }

    /// A fresh parser with an empty buffer.
    pub fn new() -> (r: SseParser)
        ensures
            r.wf(),
            !r.spec_done(),
            r.spec_buf() == Seq::<u8>::empty(),
    {
        let r = SseParser { buf: Vec::new(), done: false };
        proof {
            assert(r.spec_buf() =~= Seq::<u8>::empty());
        }
        r
    }

    /// Whether the stream has completed.
    pub fn is_done(&self) -> (r: bool)
        ensures
            r == self.spec_done(),
    {
        self.done
    }

    /// Feeds one body fragment and returns the events its bytes complete, in
    /// order.  Frames without usable content — lines without the `data: `
    /// prefix, malformed JSON, chunks without string content — contribute
    /// nothing and do not disturb the stream.  Events stop at the first
    /// completion; a trailing unterminated line is retained for the next
    /// fragment.
    pub fn feed(&mut self, fragment: &[u8]) -> (events: Vec<StreamEvent>)
        requires
            old(self).wf(),
        ensures
            final(self).wf(),
            old(self).spec_done() ==> events@.len() == 0 && final(self).spec_done(),
            old(self).spec_done() ==> final(self).spec_buf() == old(self).spec_buf(),
            !old(self).spec_done() ==> events_view(events@) == events_of(
                complete_lines(old(self).spec_buf() + fragment@),
            ),
            !old(self).spec_done() ==> (final(self).spec_done() == ends_done(
                events_of(complete_lines(old(self).spec_buf() + fragment@)),
            )),
            !old(self).spec_done() && !final(self).spec_done() ==> final(self).spec_buf()
                == tail_rest(old(self).spec_buf() + fragment@),
    {
        let mut events: Vec<StreamEvent> = Vec::new();
        if self.done {
            return events;
        }
        let ghost combined = self.buf@ + fragment@;
        let m = fragment.len();
        let mut fi: usize = 0;
        let ghost buf0 = self.buf@;
        while fi < m
            invariant
                fi <= m,
                m == fragment@.len(),
                self.buf@ == buf0 + fragment@.subrange(0, fi as int),
                self.done == false,
            decreases m - fi,
        {
            self.buf.push(fragment[fi]);
            proof {
                assert(self.buf@ =~= buf0 + fragment@.subrange(0, fi + 1));
            }
            fi = fi + 1;
        }
        proof {
            assert(self.buf@ =~= combined);
        }
        loop
            invariant_except_break
                !self.done,
                events_of(complete_lines(combined)) == events_view(events@) + events_of(
                    complete_lines(self.buf@),
                ),
                tail_rest(combined) == tail_rest(self.buf@),
                forall|i: int| 0 <= i < events@.len() ==> !((#[trigger] events@[i])@ is Done),
            ensures
                events_view(events@) == events_of(complete_lines(combined)),
                self.done == ends_done(events_of(complete_lines(combined))),
                !self.done ==> self.buf@ == tail_rest(combined) && first_nl_idx(self.buf@) < 0,
                self.done ==> self.buf@.len() == 0,
            decreases self.buf@.len(),
        {
            let ghost cur = self.buf@;
            let p = match find_nl(&self.buf) {
                Some(p) => p,
                None => {
                    proof {
                        assert(complete_lines(cur) =~= Seq::<Seq<u8>>::empty());
                        assert(events_of(complete_lines(cur)) =~= Seq::<EventModel>::empty());
                        assert(events_view(events@) =~= events_view(events@) + events_of(
                            complete_lines(cur),
                        ));
                        assert(tail_rest(cur) == cur);
                        if ends_done(events_of(complete_lines(combined))) {
                            let last = events_of(complete_lines(combined)).len() - 1;
                            assert(events_view(events@)[last] == events@[last]@);
                            assert(false);
                        }
                    }
                    break ;
                },
            };
            let n = self.buf.len();
            let mut line: Vec<u8> = Vec::new();
            let mut j: usize = 0;
            while j < p
                invariant
                    j <= p,
                    p < n,
                    n == self.buf@.len(),
                    self.buf@ == cur,
                    line@ =~= cur.subrange(0, j as int),
                decreases p - j,
            {
                line.push(self.buf[j]);
                j = j + 1;
            }
            let mut rest: Vec<u8> = Vec::new();
            let mut t: usize = p + 1;
            while t < n
                invariant
                    p + 1 <= t <= n,
                    p < n,
                    n == self.buf@.len(),
                    self.buf@ == cur,
                    rest@ =~= cur.subrange(p + 1, t as int),
                decreases n - t,
            {
                rest.push(self.buf[t]);
                t = t + 1;
            }
            self.buf = rest;
            proof {
                assert(line@ =~= cur.take(p as int));
                assert(self.buf@ =~= cur.skip(p + 1));
                assert(complete_lines(cur) == seq![cur.take(p as int)] + complete_lines(
                    cur.skip(p + 1),
                ));
                assert((seq![cur.take(p as int)] + complete_lines(cur.skip(p + 1)))[0] == cur.take(
                    p as int,
                ));
                assert((seq![cur.take(p as int)] + complete_lines(cur.skip(p + 1))).skip(1)
                    =~= complete_lines(cur.skip(p + 1)));
                assert(tail_rest(cur) == tail_rest(cur.skip(p + 1)));
            }
            let ghost prev_events = events@;
            match process_line(line) {
                Some(ev) => {
                    let is_done_ev = match &ev {
                        StreamEvent::Done => true,
                        StreamEvent::Delta(_) => false,
                    };
                    events.push(ev);
                    proof {
                        assert(events_view(events@) =~= events_view(prev_events).push(
                            events@.last()@,
                        ));
                    }
                    if is_done_ev {
                        self.done = true;
                        self.buf = Vec::new();
                        proof {
                            assert(events_of(complete_lines(cur)) =~= seq![EventModel::Done]);
                            assert(events_view(events@) =~= events_view(prev_events) + seq![
                                EventModel::Done,
                            ]);
                            assert(events_view(events@) =~= events_of(complete_lines(combined)));
                            assert(ends_done(events_of(complete_lines(combined))));
                            assert(self.buf@.len() == 0);
                        }
                        break ;
                    } else {
                        proof {
                            let s = choose|s: Seq<char>| ev@ == EventModel::Delta(s);
                            assert(events_of(complete_lines(cur)) == seq![ev@] + events_of(
                                complete_lines(cur.skip(p + 1)),
                            ));
                            assert(events_view(events@) =~= events_view(prev_events) + seq![ev@]);
                            assert((events_view(prev_events) + seq![ev@]) + events_of(
                                complete_lines(self.buf@),
                            ) =~= events_view(prev_events) + (seq![ev@] + events_of(
                                complete_lines(self.buf@),
                            )));
                        }
                    }
                },
                None => {
                    proof {
                        assert(events_of(complete_lines(cur)) == events_of(
                            complete_lines(cur.skip(p + 1)),
                        ));
                    }
                },
            }
        }
        events
    }

    /// Ends the stream: the retained trailing fragment is processed as one
    /// last line, and completion is delivered unless that line was the
    /// sentinel itself.  A stream that ends without an explicit sentinel thus
    /// still completes.
    pub fn finish(&mut self) -> (events: Vec<StreamEvent>)
        requires
            old(self).wf(),
        ensures
            final(self).spec_done(),
            final(self).wf(),
            old(self).spec_done() ==> events@.len() == 0,
            !old(self).spec_done() ==> events_view(events@) == final_events(old(self).spec_buf()),
    {
        let mut events: Vec<StreamEvent> = Vec::new();
        if self.done {
            return events;
        }
        let ghost orig = self.buf@;
        let n = self.buf.len();
        let mut line: Vec<u8> = Vec::new();
        let mut j: usize = 0;
        while j < n
            invariant
                j <= n,
                n == self.buf@.len(),
                self.buf@ == orig,
                line@ =~= orig.subrange(0, j as int),
            decreases n - j,
        {
            line.push(self.buf[j]);
            j = j + 1;
        }
        proof {
            assert(line@ =~= orig);
        }
        self.buf = Vec::new();
        self.done = true;
        match process_line(line) {
            Some(ev) => {
                let is_done_ev = match &ev {
                    StreamEvent::Done => true,
                    StreamEvent::Delta(_) => false,
                };
                events.push(ev);
                if !is_done_ev {
                    events.push(StreamEvent::Done);
                }
            },
            None => {
                events.push(StreamEvent::Done);
            },
        }
        proof {
            assert(events_view(events@) =~= final_events(orig));
        }
        events
    }
}

} // verus!
