//! Finding tool calls in streamed model output.

use crate::scan;
use crate::text;
use crate::tokenizer::Tokenizer;
use crate::tool_calls;
use std::sync::Arc;
use vstd::prelude::*;
use vstd::string::*;
use vstd::utf8::*;

verus! {

/// The tag that opens a group of tool calls.
pub const CALLS_START: &'static str = "<function_calls>";

/// The tag that closes a group of tool calls.
pub const CALLS_END: &'static str = "</function_calls>";

/// Text outside a group may grow to this many bytes before it is cut back.
pub const PENDING_LIMIT: usize = 200;

/// The number of bytes that text outside a group is cut back to.
pub const PENDING_KEPT: usize = 50;

/// Whether a decoder is inside a group of tool calls.
#[derive(Clone, Copy, PartialEq, Eq, Structural, Debug)]
pub enum ToolState {
    /// Looking for the tag that opens a group.
    Outside,
    /// Looking for the tag that closes the group.
    Inside,
}

/// What a decoder reports.
#[derive(Debug)]
pub enum ToolEvent {
    /// No call yet.
    Start,
    /// A call: its name, and its arguments as a JSON object.
    Call(String, String),
}

impl View for ToolEvent {
    type V = Option<(Seq<char>, Seq<char>)>;

    open spec fn view(&self) -> Option<(Seq<char>, Seq<char>)> {
        match *self {
            ToolEvent::Start => None,
            ToolEvent::Call(name, arguments) => Some((name@, arguments@)),
        }
    }
}

/// What a decoder remembers: whether it is inside a group, and the text it has not used up.
#[verifier::ext_equal]
pub struct Progress {
    pub state: ToolState,
    pub pending: Seq<char>,
}

/// A decoder that has read nothing.
pub open spec fn fresh() -> Progress {
    Progress { state: ToolState::Outside, pending: Seq::empty() }
}

/// Whether text outside a group is long enough to be cut back.
pub open spec fn overlong(pending: Seq<char>) -> bool {
    encode_utf8(pending).len() > PENDING_LIMIT
}

/// Text outside a group, cut back to its last bytes once it is overlong.
pub open spec fn cut_back(pending: Seq<char>) -> Seq<char> {
    if overlong(pending) {
        let bytes = encode_utf8(pending);
        decode_utf8(bytes.skip(bytes.len() - PENDING_KEPT))
    } else {
        pending
    }
}

/// Whether `body`, read inside a group, closes it: what the decoder remembers then, and the
/// trimmed content of the group if it was closed.
pub open spec fn close_group(body: Seq<char>) -> (Progress, Option<Seq<char>>) {
    match text::find_text(body, CALLS_END@) {
        Some(pos) => (
            Progress { state: ToolState::Outside, pending: body.skip(pos + CALLS_END@.len()) },
            Some(text::trimmed(body.take(pos))),
        ),
        None => (Progress { state: ToolState::Inside, pending: body }, None),
    }
}

/// What a decoder remembers after reading `more`, and the content of the group that was closed,
/// if one was.
pub open spec fn advanced(p: Progress, more: Seq<char>) -> (Progress, Option<Seq<char>>) {
    let pending = p.pending + more;
    match p.state {
        ToolState::Outside => match text::find_text(pending, CALLS_START@) {
            Some(pos) => close_group(pending.skip(pos + CALLS_START@.len())),
            None => (Progress { state: ToolState::Outside, pending: cut_back(pending) }, None),
        },
        ToolState::Inside => close_group(pending),
    }
}

/// Whether a decoder can read `more`: if the text outside a group has to be cut back, no
/// character is cut in two.
pub open spec fn can_advance(p: Progress, more: Seq<char>) -> bool {
    let pending = p.pending + more;
    let bytes = encode_utf8(pending);
    p.state is Outside && text::find_text(pending, CALLS_START@) is None && overlong(pending)
        ==> is_char_boundary(bytes, bytes.len() - PENDING_KEPT)
}

/// The first call of a group, if it can be read.
pub open spec fn first_call(content: Seq<char>) -> Option<(Seq<char>, Seq<char>)> {
    let lines = scan::call_lines(content);
    if lines.len() > 0 {
        tool_calls::parsed_call(lines[0])
    } else {
        None
    }
}

/// What a decoder remembers after reading `more`, and the call that it reports, if any.
pub open spec fn fed(p: Progress, more: Seq<char>) -> (Progress, Option<(Seq<char>, Seq<char>)>) {
    match advanced(p, more) {
        (next, Some(content)) => (next, first_call(content)),
        (next, None) => (next, None),
    }
}

/// The tags are ASCII text on one line, and a tag cannot begin inside itself.
proof fn lemma_tags()
    ensures
        CALLS_START@.len() == 16,
        CALLS_END@.len() == 17,
        is_ascii_chars(CALLS_START@),
        forall|i: int| 0 < i < CALLS_START@.len() ==> #[trigger] CALLS_START@[i] != CALLS_START@[0],
        forall|i: int|
            0 < i < CALLS_END@.len() ==> #[trigger] CALLS_END@[i] != CALLS_END@[0] && CALLS_END@[i]
                != '\n',
{
    reveal_strlit("<function_calls>");
    reveal_strlit("</function_calls>");
}

/// Cutting back drops the beginning of the text, and keeps the bytes it says.
proof fn lemma_cut_back(pending: Seq<char>) -> (dropped: Seq<char>)
    requires
        overlong(pending),
        is_char_boundary(encode_utf8(pending), encode_utf8(pending).len() - PENDING_KEPT),
    ensures
        pending == dropped + cut_back(pending),
        encode_utf8(cut_back(pending)).len() == PENDING_KEPT,
{
    let bytes = encode_utf8(pending);
    let at = bytes.len() - PENDING_KEPT;
    encode_utf8_valid_utf8(pending);
    encode_utf8_decode_utf8(pending);
    valid_utf8_split(bytes, at);
    decode_utf8_split(bytes, at);
    let tail = bytes.subrange(at, bytes.len() as int);
    assert(bytes.skip(at) == tail);
    decode_utf8_encode_utf8(tail);
    decode_utf8(bytes.subrange(0, at))
}

/// A tag that begins in text without one and ends beyond it begins in what is kept of the text.
proof fn lemma_cut_back_keeps_tag(pending: Seq<char>, dropped: Seq<char>, more: Seq<char>)
    requires
        pending == dropped + cut_back(pending),
        encode_utf8(cut_back(pending)).len() == PENDING_KEPT,
        text::find_text(pending, CALLS_START@) is None,
    ensures
        text::find_text(pending + more, CALLS_START@) matches Some(k) ==> dropped.len() <= k,
{
    let all = pending + more;
    let tag = CALLS_START@;
    let kept = cut_back(pending);
    lemma_tags();
    text::lemma_find_from(all, tag, 0);
    text::lemma_find_from(pending, tag, 0);
    if let Some(k) = text::find_text(all, tag) {
        if k < dropped.len() {
            if k + tag.len() <= pending.len() {
                assert(all.subrange(k, k + tag.len()) == pending.subrange(k, k + tag.len()));
                assert(text::occurs_at(pending, tag, k));
            }
            let d = dropped.len() as int;
            assert forall|i: int| 0 <= i < kept.len() implies '\0' <= #[trigger] kept[i] <= '\u{7f}' by {
                assert(kept[i] == pending[d + i]);
                assert(kept[i] == all.subrange(k, k + tag.len())[d + i - k]);
                assert(kept[i] == tag[d + i - k]);
            }
            is_ascii_chars_encode_utf8(kept);
        }
    }
}

/// The calls that are found do not depend on where the text is cut into chunks: if `a` closes
/// no group, then reading `a` and then `b` finds what reading both at once finds, and leaves the
/// decoder in the same state. Only the text kept outside groups may differ.
pub proof fn law_chunking(p: Progress, a: Seq<char>, b: Seq<char>)
    requires
        can_advance(p, a),
        advanced(p, a).1 is None,
    ensures
        ({
            let (next, group) = advanced(advanced(p, a).0, b);
            let (whole, whole_group) = advanced(p, a + b);
            &&& group == whole_group
            &&& next.state == whole.state
            &&& group is Some || next.state is Inside ==> next == whole
            &&& fed(fed(p, a).0, b).1 == fed(p, a + b).1
        }),
{
    let pending = p.pending + a;
    assert(p.pending + (a + b) == pending + b);
    if p.state is Outside {
        match text::find_text(pending, CALLS_START@) {
            Some(pos) => {
                text::lemma_find_from(pending, CALLS_START@, 0);
                text::lemma_find_text_grows(pending, b, CALLS_START@);
                let from = pos + CALLS_START@.len();
                assert((pending + b).skip(from) == pending.skip(from) + b);
            },
            None => {
                let kept = cut_back(pending);
                let dropped = if overlong(pending) {
                    lemma_cut_back(pending)
                } else {
                    Seq::empty()
                };
                assert(pending == dropped + kept);
                assert(pending + b == dropped + (kept + b));
                text::lemma_find_from(pending + b, CALLS_START@, 0);
                if overlong(pending) {
                    lemma_cut_back_keeps_tag(pending, dropped, b);
                }
                text::lemma_find_text_drops(dropped, kept + b, CALLS_START@);
                if let Some(pos) = text::find_text(pending + b, CALLS_START@) {
                    let from = pos + CALLS_START@.len();
                    assert((pending + b).skip(from) == (kept + b).skip(from - dropped.len()));
                }
            },
        }
    }
}

/// A call is reported only when a group is closed: the text read so far then holds the closing
/// tag, and the decoder is outside groups again.
pub proof fn law_call_needs_group(p: Progress, more: Seq<char>)
    requires
        fed(p, more).1 is Some,
    ensures
        text::find_text(p.pending + more, CALLS_END@) is Some,
        fed(p, more).0.state is Outside,
{
    let pending = p.pending + more;
    let from = if p.state is Outside {
        text::lemma_find_from(pending, CALLS_START@, 0);
        text::find_text(pending, CALLS_START@).unwrap() + CALLS_START@.len()
    } else {
        0
    };
    let body = pending.skip(from);
    assert(p.state is Inside ==> body == pending);
    text::lemma_find_from(body, CALLS_END@, 0);
    let pos = text::find_text(body, CALLS_END@).unwrap();
    let at = from + pos;
    assert(pending.subrange(at, at + CALLS_END@.len()) == body.subrange(
        pos,
        pos + CALLS_END@.len(),
    ));
    assert(text::occurs_at(pending, CALLS_END@, at));
    text::lemma_find_from(pending, CALLS_END@, 0);
}

/// The text that is kept while no group is open stays bounded.
pub proof fn law_pending_bounded(p: Progress, more: Seq<char>)
    requires
        can_advance(p, more),
        advanced(p, more).0.state is Outside,
        advanced(p, more).1 is None,
    ensures
        encode_utf8(advanced(p, more).0.pending).len() <= PENDING_LIMIT,
{
    if overlong(p.pending + more) {
        let _dropped = lemma_cut_back(p.pending + more);
    }
}

/// The text of a group of calls.
pub open spec fn group_text(calls: Seq<Seq<char>>) -> Seq<char> {
    CALLS_START@ + text::join(calls, seq!['\n']) + CALLS_END@
}

/// A group of calls in model output is found, whatever stands before and after it, unless a
/// call holds the closing tag.
pub proof fn law_group_found(
    p: Progress,
    before: Seq<char>,
    calls: Seq<Seq<char>>,
    after: Seq<char>,
)
    requires
        p.state is Outside,
        text::find_text(p.pending + before, CALLS_START@) is None,
        text::find_text(text::join(calls, seq!['\n']), CALLS_END@) is None,
    ensures
        advanced(p, before + group_text(calls) + after) == (
            Progress { state: ToolState::Outside, pending: after },
            Some(text::trimmed(text::join(calls, seq!['\n']))),
        ),
{
    let body = text::join(calls, seq!['\n']);
    let rest = body + CALLS_END@ + after;
    lemma_tags();
    lemma_group_opened(p, before, calls, after);
    text::lemma_find_tag(body, CALLS_END@, after);
    assert(rest.take(body.len() as int) == body);
    assert(rest.skip(body.len() as int + CALLS_END@.len()) == after);
}

/// A decoder that reads a group goes on inside it.
proof fn lemma_group_opened(
    p: Progress,
    before: Seq<char>,
    calls: Seq<Seq<char>>,
    after: Seq<char>,
)
    requires
        p.state is Outside,
        text::find_text(p.pending + before, CALLS_START@) is None,
    ensures
        advanced(p, before + group_text(calls) + after) == close_group(
            text::join(calls, seq!['\n']) + CALLS_END@ + after,
        ),
{
    let lead = p.pending + before;
    let rest = text::join(calls, seq!['\n']) + CALLS_END@ + after;
    let all = p.pending + (before + group_text(calls) + after);
    lemma_tags();
    assert(all == lead + CALLS_START@ + rest);
    text::lemma_find_tag(lead, CALLS_START@, rest);
    assert(all.skip(lead.len() as int + CALLS_START@.len()) == rest);
}

/// The first call of a group in model output is what the decoder reads, if it is on one line,
/// without white space at its ends, and without the closing tag.
pub proof fn law_first_call_found(
    p: Progress,
    before: Seq<char>,
    calls: Seq<Seq<char>>,
    after: Seq<char>,
)
    requires
        p.state is Outside,
        text::find_text(p.pending + before, CALLS_START@) is None,
        calls.len() > 0,
        calls[0].len() > 0,
        text::is_trimmed(calls[0]),
        scan::one_line(calls[0]),
        text::find_text(calls[0], CALLS_END@) is None,
    ensures
        fed(p, before + group_text(calls) + after).1 == tool_calls::parsed_call(calls[0]),
{
    let line = calls[0];
    let body = text::join(calls, seq!['\n']);
    let rest = body + CALLS_END@ + after;
    let n = line.len() as int;
    lemma_tags();
    lemma_group_opened(p, before, calls, after);
    lemma_join_first(calls);
    text::lemma_find_from(line, CALLS_END@, 0);
    text::lemma_find_from(rest, CALLS_END@, 0);
    assert(text::occurs_at(rest, CALLS_END@, body.len() as int)) by {
        assert(rest.subrange(body.len() as int, body.len() as int + CALLS_END@.len()) == CALLS_END@);
    }
    let pos = text::find_text(rest, CALLS_END@).unwrap();
    if pos < n {
        let found = rest.subrange(pos, pos + CALLS_END@.len());
        if pos + CALLS_END@.len() <= n {
            assert(found == line.subrange(pos, pos + CALLS_END@.len()));
            assert(text::occurs_at(line, CALLS_END@, pos));
        } else {
            assert(found[n - pos] == rest[n]);
            assert(rest[n] == if calls.len() > 1 {
                '\n'
            } else {
                CALLS_END@[0]
            });
            assert(CALLS_END@[n - pos] != '\n');
        }
    }
    let content = rest.take(pos);
    let tail = content.skip(n);
    assert(content == line + tail);
    assert(tail.len() > 0 ==> tail[0] == rest[n]);
    let kept = text::lemma_trimmed_keeps(line, tail);
    scan::law_first_line(line, tail.take(kept));
}

/// If the closing tag does not occur in the calls of a group, it does not occur in the first.
pub proof fn law_first_call_untagged(calls: Seq<Seq<char>>)
    requires
        calls.len() > 0,
        text::find_text(text::join(calls, seq!['\n']), CALLS_END@) is None,
    ensures
        text::find_text(calls[0], CALLS_END@) is None,
{
    let body = text::join(calls, seq!['\n']);
    let n = calls[0].len() as int;
    lemma_join_first(calls);
    if text::find_text(calls[0], CALLS_END@) is Some {
        text::lemma_find_text_grows(calls[0], body.skip(n), CALLS_END@);
        assert(calls[0] + body.skip(n) == body);
    }
}

/// Joined calls begin with the first, which is followed by a line feed if it is not the last.
proof fn lemma_join_first(calls: Seq<Seq<char>>)
    requires
        calls.len() > 0,
    ensures
        ({
            let body = text::join(calls, seq!['\n']);
            let n = calls[0].len() as int;
            &&& n <= body.len()
            &&& body.take(n) == calls[0]
            &&& calls.len() == 1 ==> body.len() == n
            &&& calls.len() > 1 ==> body.len() > n && body[n] == '\n'
        }),
    decreases calls.len(),
{
    let body = text::join(calls, seq!['\n']);
    let n = calls[0].len() as int;
    if calls.len() > 1 {
        let before = calls.drop_last();
        lemma_join_first(before);
        assert(body.take(n) == text::join(before, seq!['\n']).take(n));
    } else {
        assert(body.take(n) == calls[0]);
    }
}

/// Reads the first call of a group.
fn read_first_call(content: &str) -> (r: ToolEvent)
    ensures
        r@ == first_call(content@),
{
    let lines = scan::split_calls(content);
    if lines.len() == 0 {
        return ToolEvent::Start;
    }
    assert(text::slices(lines@)[0] == lines@[0]@);
    match tool_calls::parse_call_syntax(lines[0]) {
        Some((name, arguments)) => ToolEvent::Call(name, arguments),
        None => ToolEvent::Start,
    }
}

/// A streaming decoder of tool calls. Of a group with several calls it reports the first.
pub struct OlmoToolDecoder<T: Tokenizer> {
    tokenizer: Arc<T>,
    accumulated: String,
    state: ToolState,
}

impl<T: Tokenizer> View for OlmoToolDecoder<T> {
    type V = Progress;

    closed spec fn view(&self) -> Progress {
        Progress { state: self.state, pending: self.accumulated@ }
    }
}

impl<T: Tokenizer> OlmoToolDecoder<T> {
    /// The tokenizer that turns tokens into text.
    pub closed spec fn tokenizer(&self) -> T {
        *self.tokenizer
    }

    /// A decoder that has read nothing.
    pub fn new(tokenizer: Arc<T>) -> (r: Self)
        ensures
            r@ == fresh(),
            r.tokenizer() == *tokenizer,
    {
        OlmoToolDecoder { tokenizer, accumulated: String::new(), state: ToolState::Outside }
    }

    /// Tests whether [`advance`](Self::advance) can be called with `more`.
    pub fn can_advance(&self, more: &str) -> (b: bool)
        ensures
            b == can_advance(self@, more@),
    {
        if let ToolState::Inside = self.state {
            return true;
        }
        let mut pending = self.accumulated.clone();
        pending.append(more);
        let chars = text::chars_of(pending.as_str());
        let tag = text::chars_of(CALLS_START);
        proof {
            reveal_strlit("<function_calls>");
        }
        if text::position_of(&chars, &tag).is_some() {
            return true;
        }
        let s = pending.as_str();
        let len: usize = s.as_bytes().len();
        if len <= PENDING_LIMIT {
            return true;
        }
        s.is_char_boundary(len - PENDING_KEPT)
    }

    /// Reads more text. Returns the trimmed content of the group of calls that it closed, if it
    /// closed one.
    pub fn advance(&mut self, more: &str) -> (r: Option<String>)
        requires
            can_advance(old(self)@, more@),
        ensures
            final(self).tokenizer() == old(self).tokenizer(),
            final(self)@ == advanced(old(self)@, more@).0,
            match r {
                Some(content) => advanced(old(self)@, more@).1 == Some(content@),
                None => advanced(old(self)@, more@).1 is None,
            },
    {
        self.accumulated.append(more);
        let ghost pending = self.accumulated@;
        proof {
            reveal_strlit("<function_calls>");
            reveal_strlit("</function_calls>");
        }
        if let ToolState::Outside = self.state {
            let chars = text::chars_of(self.accumulated.as_str());
            let n: usize = chars.len();
            let tag = text::chars_of(CALLS_START);
            match text::position_of(&chars, &tag) {
                Some(pos) => {
                    proof {
                        text::lemma_find_from(pending, CALLS_START@, 0);
                    }
                    let from: usize = pos + tag.len();
                    let rest = self.accumulated.as_str().substring_char(from, n);
                    assert(rest@ == pending.skip(pos + CALLS_START@.len()));
                    self.accumulated = rest.to_owned();
                    self.state = ToolState::Inside;
                },
                None => {
                    let s = self.accumulated.as_str();
                    let len: usize = s.as_bytes().len();
                    if len > PENDING_LIMIT {
                        let kept = s.split_at(len - PENDING_KEPT).1;
                        proof {
                            encode_utf8_decode_utf8(kept@);
                            let bytes = encode_utf8(pending);
                            assert(bytes.skip(bytes.len() - PENDING_KEPT) == bytes.subrange(
                                bytes.len() - PENDING_KEPT,
                                bytes.len() as int,
                            ));
                        }
                        self.accumulated = kept.to_owned();
                    }
                    return None;
                },
            }
        }
        let ghost body = self.accumulated@;
        let chars = text::chars_of(self.accumulated.as_str());
        let n: usize = chars.len();
        let tag = text::chars_of(CALLS_END);
        match text::position_of(&chars, &tag) {
            Some(pos) => {
                proof {
                    text::lemma_find_from(body, CALLS_END@, 0);
                }
                let content = text::trim(self.accumulated.as_str().substring_char(0, pos)).to_owned();
                let from: usize = pos + tag.len();
                let rest = self.accumulated.as_str().substring_char(from, n);
                assert(rest@ == body.skip(pos + CALLS_END@.len()));
                self.accumulated = rest.to_owned();
                self.state = ToolState::Outside;
                Some(content)
            },
            None => None,
        }
    }

    /// Tests whether [`feed`](Self::feed) can be called with `tokens`.
    pub fn can_feed(&self, tokens: &[u32]) -> (b: bool)
        ensures
            b == can_advance(self@, self.tokenizer().text_of(tokens@, false)),
    {
        let more = self.tokenizer.decode(tokens, false);
        self.can_advance(more.as_str())
    }

    /// Reads more tokens. Reports the first call of the group that they closed, if they closed
    /// one and its first call can be read.
    pub fn feed(&mut self, tokens: &[u32]) -> (r: ToolEvent)
        requires
            can_advance(old(self)@, old(self).tokenizer().text_of(tokens@, false)),
        ensures
            final(self).tokenizer() == old(self).tokenizer(),
            (final(self)@, r@) == fed(old(self)@, old(self).tokenizer().text_of(tokens@, false)),
            match r {
                ToolEvent::Start => fed(
                    old(self)@,
                    old(self).tokenizer().text_of(tokens@, false),
                ).1 is None,
                ToolEvent::Call(name, arguments) => fed(
                    old(self)@,
                    old(self).tokenizer().text_of(tokens@, false),
                ).1 == Some((name@, arguments@)),
            },
    {
        let more = self.tokenizer.decode(tokens, false);
        match self.advance(more.as_str()) {
            Some(content) => read_first_call(content.as_str()),
            None => ToolEvent::Start,
        }
    }

    /// Forgets all text that was read.
    pub fn reset(&mut self)
        ensures
            final(self)@ == fresh(),
            final(self).tokenizer() == old(self).tokenizer(),
    {
        self.accumulated = String::new();
        self.state = ToolState::Outside;
    }
}

/// What a decoder reports is the name and the arguments of a call, or that there is none.
pub proof fn law_event(event: ToolEvent)
    ensures
        match event {
            ToolEvent::Start => event@ is None,
            ToolEvent::Call(name, arguments) => event@ == Some((name@, arguments@)),
        },
{
}

/// A decoder that has read nothing is outside groups and keeps no text.
pub proof fn law_fresh()
    ensures
        fresh().state is Outside,
        fresh().pending.len() == 0,
{
}

/// A decoder can read any text, unless it has to keep the last 50 of more than 200 bytes without
/// an opening tag, and a character is cut in two there.
pub proof fn law_can_advance(p: Progress, more: Seq<char>)
    ensures
        ({
            let bytes = encode_utf8(p.pending + more);
            can_advance(p, more) <==> {
                ||| p.state is Inside
                ||| text::find_text(p.pending + more, "<function_calls>"@) is Some
                ||| bytes.len() <= 200
                ||| !is_continuation_byte(bytes[bytes.len() - 50])
            }
        }),
{
    let bytes = encode_utf8(p.pending + more);
    encode_utf8_valid_utf8(p.pending + more);
    if bytes.len() > 200 {
        is_char_boundary_iff_not_is_continuation_byte(bytes, bytes.len() - 50);
    }
}

/// Without an opening tag a decoder stays outside groups and reports nothing. It keeps the text
/// if that has at most 200 bytes, and its last 50 bytes if it has more.
pub proof fn law_no_group(p: Progress, more: Seq<char>)
    requires
        p.state is Outside,
        text::find_text(p.pending + more, "<function_calls>"@) is None,
        can_advance(p, more),
    ensures
        ({
            let bytes = encode_utf8(p.pending + more);
            let (next, group) = advanced(p, more);
            &&& group is None
            &&& fed(p, more) == (next, None::<(Seq<char>, Seq<char>)>)
            &&& next.state is Outside
            &&& bytes.len() <= 200 ==> next.pending == p.pending + more
            &&& bytes.len() > 200 ==> encode_utf8(next.pending) == bytes.skip(bytes.len() - 50)
        }),
{
    let s = p.pending + more;
    let bytes = encode_utf8(s);
    if bytes.len() > 200 {
        let at = bytes.len() - 50;
        encode_utf8_valid_utf8(s);
        valid_utf8_split(bytes, at);
        assert(bytes.skip(at) == bytes.subrange(at, bytes.len() as int));
        decode_utf8_encode_utf8(bytes.skip(at));
    }
}

/// Behind the first opening tag a decoder is inside a group, and what follows the tag is read as
/// the text of that group.
pub proof fn law_group_opens(p: Progress, more: Seq<char>, lead: Seq<char>, body: Seq<char>)
    requires
        p.state is Outside,
        p.pending + more == lead + "<function_calls>"@ + body,
        text::find_text(lead, "<function_calls>"@) is None,
    ensures
        advanced(p, more) == advanced(
            Progress { state: ToolState::Inside, pending: Seq::empty() },
            body,
        ),
        fed(p, more) == fed(Progress { state: ToolState::Inside, pending: Seq::empty() }, body),
{
    lemma_tags();
    text::lemma_find_tag(lead, CALLS_START@, body);
    assert((p.pending + more).skip(lead.len() as int + CALLS_START@.len()) == body);
    assert(Seq::<char>::empty() + body == body);
}

/// The first closing tag ends a group. The content of the group is what stands before it,
/// without the white space around that, and its first call is reported; the text behind the tag
/// is kept as it is, and the decoder is outside groups again.
pub proof fn law_group_closes(p: Progress, more: Seq<char>, body: Seq<char>, after: Seq<char>)
    requires
        p.state is Inside,
        p.pending + more == body + "</function_calls>"@ + after,
        text::find_text(body, "</function_calls>"@) is None,
    ensures
        advanced(p, more) == (
            Progress { state: ToolState::Outside, pending: after },
            Some(text::trimmed(body)),
        ),
        fed(p, more) == (
            Progress { state: ToolState::Outside, pending: after },
            first_call(text::trimmed(body)),
        ),
{
    lemma_tags();
    text::lemma_find_tag(body, CALLS_END@, after);
    assert((p.pending + more).take(body.len() as int) == body);
    assert((p.pending + more).skip(body.len() as int + CALLS_END@.len()) == after);
}

/// Without a closing tag a decoder stays inside the group, keeps all of its text, and reports
/// nothing.
pub proof fn law_group_stays(p: Progress, more: Seq<char>)
    requires
        p.state is Inside,
        text::find_text(p.pending + more, "</function_calls>"@) is None,
    ensures
        advanced(p, more) == (
            Progress { state: ToolState::Inside, pending: p.pending + more },
            None::<Seq<char>>,
        ),
        fed(p, more) == (
            Progress { state: ToolState::Inside, pending: p.pending + more },
            None::<(Seq<char>, Seq<char>)>,
        ),
{
}

/// Of a group, the first line that is not blank is read, as the call that it is without the
/// white space around it. Blank lines before it, and all that follows its line feed, do not
/// matter. A blank group has no call.
pub proof fn law_first_call_read(
    blank: Seq<char>,
    a: Seq<char>,
    call: Seq<char>,
    b: Seq<char>,
    rest: Seq<char>,
)
    requires
        forall|i: int| 0 <= i < blank.len() ==> text::is_space(#[trigger] blank[i]),
        forall|i: int| 0 <= i < a.len() ==> text::is_space(#[trigger] a[i]) && a[i] != '\n',
        forall|i: int| 0 <= i < b.len() ==> text::is_space(#[trigger] b[i]) && b[i] != '\n',
        call.len() > 0,
        !text::is_space(call[0]),
        !text::is_space(call[call.len() - 1]),
        forall|i: int| 0 <= i < call.len() ==> call[i] != '\n',
    ensures
        first_call(blank) is None,
        first_call(a + call + b) == tool_calls::parsed_call(call),
        first_call((a + call + b).push('\n') + rest) == tool_calls::parsed_call(call),
        first_call(blank.push('\n') + (a + call + b)) == tool_calls::parsed_call(call),
        first_call(blank.push('\n') + ((a + call + b).push('\n') + rest)) == tool_calls::parsed_call(
            call,
        ),
{
    lemma_blank_lines(blank);
    scan::law_call_line(a, call, b);
    scan::law_call_lines_concat(a + call + b, rest);
    scan::law_call_lines_concat(blank, a + call + b);
    scan::law_call_lines_concat(blank, (a + call + b).push('\n') + rest);
}

/// Blank text holds no calls.
proof fn lemma_blank_lines(blank: Seq<char>)
    requires
        forall|i: int| 0 <= i < blank.len() ==> text::is_space(#[trigger] blank[i]),
    ensures
        scan::call_lines(blank) == Seq::<Seq<char>>::empty(),
    decreases blank.len(),
{
    let none = Seq::<char>::empty();
    if exists|i: int| 0 <= i < blank.len() && #[trigger] blank[i] == '\n' {
        let i = choose|i: int| 0 <= i < blank.len() && #[trigger] blank[i] == '\n';
        let a = blank.take(i);
        let b = blank.skip(i + 1);
        assert(blank == a.push('\n') + b);
        scan::law_call_lines_concat(a, b);
        lemma_blank_lines(a);
        lemma_blank_lines(b);
    } else {
        assert(blank + none + none == blank);
        scan::law_call_line(blank, none, none);
    }
}

} // verus!
