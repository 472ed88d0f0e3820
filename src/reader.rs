//! Non-blocking reader that waits for strings, regexes, byte counts or the
//! end of the stream to show up in the text received so far.

use crate::error::Error;
use crate::text::{char_index, char_index_spec, decimal, decimal_spec, escape_controls, escaped_spec, push_char};
use regex::Error as RegexError;
use regex::Regex as CompiledRegex;
use vstd::prelude::*;

verus! {

/// regex::Regex, carried opaquely inside `Regex`.
#[verifier::external_type_specification]
#[verifier::external_body]
pub struct ExCompiledRegex(CompiledRegex);

/// regex::Error, handed back unchanged when a pattern does not compile.
#[verifier::external_type_specification]
#[verifier::external_body]
pub struct ExRegexError(RegexError);

/// The leftmost-first match that `regex::Regex::find` reports for the
/// expression compiled from `pattern` by `regex::Regex::new`, as UTF-8 byte
/// offsets into the encoding of `haystack`.
pub uninterp spec fn regex_leftmost(pattern: Seq<char>, haystack: Seq<char>) -> Option<(int, int)>;

/// Relies on regex::Regex::new: compiles `re` with the default settings, or
/// reports why it cannot.
#[verifier::external_body]
fn compile(re: &str) -> (r: Result<CompiledRegex, RegexError>) {
    CompiledRegex::new(re)
}

/// A regular expression compiled by `regex::Regex::new`, kept together with
/// the text it was compiled from.
pub struct Regex {
    source: String,
    compiled: CompiledRegex,
}

impl Regex {
    /// The text the expression was compiled from.
    pub closed spec fn pattern(&self) -> Seq<char> {
        self.source@
    }

    /// Compiles `re`; the error is the one `regex::Regex::new` gives.
    pub fn new(re: &str) -> (r: Result<Regex, RegexError>)
        ensures
            r matches Ok(x) ==> x.pattern() == re@,
    {
        match compile(re) {
            Ok(compiled) => Ok(Regex { source: String::from_str(re), compiled }),
            Err(e) => Err(e),
        }
    }

    /// The text the expression was compiled from.
    pub fn as_str(&self) -> (r: &str)
        ensures
            r@ == self.pattern(),
    {
        self.source.as_str()
    }
}

/// Relies on regex::Regex::find with regex::Match::start and
/// regex::Match::end: the byte span of the leftmost-first match, if any.
/// The compiled field of a `Regex` is only ever made from its source text.
#[verifier::external_body]
fn regex_find(re: &Regex, haystack: &str) -> (r: Option<(usize, usize)>)
    ensures
        match r {
            Some((s, e)) => regex_leftmost(re.pattern(), haystack@) == Some((s as int, e as int)),
            None => regex_leftmost(re.pattern(), haystack@) is None,
        },
{
    re.compiled.find(haystack).map(|m| (m.start(), m.end()))
}

/// What to wait for in the received text.
pub enum ReadUntil {
    /// The first occurrence of this text.
    String(String),
    /// The leftmost match of this expression.
    Regex(Regex),
    /// The end of the stream: matches everything left once it is reached.
    EOF,
    /// This many characters, or what is left once the stream has ended.
    NBytes(usize),
    /// Whichever alternative matches first; at equal starts, the shortest.
    Any(Vec<ReadUntil>),
}

/// `needle` occurs in `hay` starting at position `p`.
pub open spec fn occurs_at(needle: Seq<char>, hay: Seq<char>, p: int) -> bool {
    0 <= p && p + needle.len() <= hay.len() && hay.subrange(p, p + needle.len()) == needle
}

/// `p` is the first position at which `needle` occurs in `hay`.
pub open spec fn is_first_occurrence(needle: Seq<char>, hay: Seq<char>, p: int) -> bool {
    occurs_at(needle, hay, p) && forall|q: int| 0 <= q < p ==> !occurs_at(needle, hay, q)
}

pub open spec fn first_occurrence(needle: Seq<char>, hay: Seq<char>) -> Option<int> {
    if exists|p: int| is_first_occurrence(needle, hay, p) {
        Some(choose|p: int| is_first_occurrence(needle, hay, p))
    } else {
        None
    }
}

/// Of two candidate spans, the one that starts first, and at equal starts
/// the one that ends first; `a` when they are equal.
pub open spec fn earlier(a: Option<(int, int)>, b: Option<(int, int)>) -> Option<(int, int)> {
    match a {
        None => b,
        Some((s1, e1)) => match b {
            None => a,
            Some((s2, e2)) => if s2 < s1 || (s2 == s1 && e2 < e1) { b } else { a },
        },
    }
}

/// A byte span of the encoding of `buf` as a span of characters; none where
/// its ends are not character boundaries in order.
pub open spec fn char_span(buf: Seq<char>, span: Option<(int, int)>) -> Option<(int, int)> {
    match span {
        Some((s, e)) => match char_index_spec(buf, s) {
            Some(i) => match char_index_spec(buf, e) {
                Some(j) => if i <= j { Some((i, j)) } else { None },
                None => None,
            },
            None => None,
        },
        None => None,
    }
}

/// Where `needle` matches in `buf`, as a half-open span of character
/// positions, given whether the stream has ended.
pub open spec fn find_spec(needle: ReadUntil, buf: Seq<char>, eof: bool) -> Option<(int, int)>
    decreases needle,
{
    match needle {
        ReadUntil::String(s) => match first_occurrence(s@, buf) {
            Some(p) => Some((p, p + s@.len())),
            None => None,
        },
        ReadUntil::Regex(re) => char_span(buf, regex_leftmost(re.pattern(), buf)),
        ReadUntil::EOF => if eof { Some((0, buf.len() as int)) } else { None },
        ReadUntil::NBytes(n) => if n <= buf.len() {
            Some((0, n as int))
        } else if eof && buf.len() > 0 {
            Some((0, buf.len() as int))
        } else {
            None
        },
        ReadUntil::Any(v) => any_spec(v@, buf, eof),
    }
}

/// The winning span among the alternatives `alts`.
pub open spec fn any_spec(alts: Seq<ReadUntil>, buf: Seq<char>, eof: bool) -> Option<(int, int)>
    decreases alts,
{
    if alts.len() == 0 {
        None
    } else {
        earlier(any_spec(alts.drop_last(), buf, eof), find_spec(alts.last(), buf, eof))
    }
}

pub open spec fn as_span(r: Option<(usize, usize)>) -> Option<(int, int)> {
    match r {
        Some((s, e)) => Some((s as int, e as int)),
        None => None,
    }
}


/// The characters of `s`, one by one.
fn chars_of(s: &str) -> (r: Vec<char>)
    ensures
        r@ == s@,
{
    let n = s.unicode_len();
    let mut r: Vec<char> = Vec::new();
    let mut i: usize = 0;
    while i < n
        invariant
            n == s@.len(),
            i <= n,
            r@ == s@.take(i as int),
        decreases n - i,
    {
        r.push(s.get_char(i));
        assert(r@ =~= s@.take(i + 1));
        i = i + 1;
    }
    assert(r@ =~= s@);
    r
}

/// The first position at which `needle` occurs in `hay`.
fn first_occurrence_in(needle: &Vec<char>, hay: &Vec<char>) -> (r: Option<usize>)
    ensures
        match r {
            Some(p) => first_occurrence(needle@, hay@) == Some(p as int),
            None => first_occurrence(needle@, hay@) is None,
        },
{
    let m = needle.len();
    if m == 0 {
        assert(hay@.subrange(0, 0) =~= needle@);
        assert(is_first_occurrence(needle@, hay@, 0));
        return Some(0);
    }
    if m > hay.len() {
        assert forall|p: int| !is_first_occurrence(needle@, hay@, p) by {}
        return None;
    }
    let hl = hay.len();
    let last = hl - m;
    let mut p: usize = 0;
    while p < last + 1
        invariant
            hl == hay@.len(),
            0 < m == needle@.len(),
            p <= last + 1,
            last + m == hay@.len(),
            forall|q: int| 0 <= q < p ==> !occurs_at(needle@, hay@, q),
        decreases last + 1 - p,
    {
        let mut j: usize = 0;
        let mut same = true;
        while j < m && same
            invariant
                m == needle@.len(),
                hl == hay@.len(),
                p <= last,
                last + m == hay@.len(),
                j <= m,
                same ==> forall|k: int| 0 <= k < j ==> hay@[p + k] == needle@[k],
                !same ==> !occurs_at(needle@, hay@, p as int),
            decreases m - j + (if same { 1int } else { 0int }),
        {
            if hay[p + j] != needle[j] {
                same = false;
                assert(hay@.subrange(p as int, p + m)[j as int] != needle@[j as int]);
            } else {
                j = j + 1;
            }
        }
        if same {
            assert(hay@.subrange(p as int, p + m) =~= needle@);
            assert(is_first_occurrence(needle@, hay@, p as int));
            assert forall|q: int| is_first_occurrence(needle@, hay@, q) implies q == p by {
                if q < p {
                } else if q > p {
                    assert(occurs_at(needle@, hay@, p as int));
                }
            }
            return Some(p);
        }
        p = p + 1;
    }
    assert forall|p: int| !is_first_occurrence(needle@, hay@, p) by {}
    None
}

/// The earlier of two candidate spans, as `earlier` orders them.
fn pick(a: Option<(usize, usize)>, b: Option<(usize, usize)>) -> (r: Option<(usize, usize)>)
    ensures
        as_span(r) == earlier(as_span(a), as_span(b)),
{
    match a {
        None => b,
        Some((s1, e1)) => match b {
            None => a,
            Some((s2, e2)) => if s2 < s1 || (s2 == s1 && e2 < e1) { b } else { a },
        },
    }
}

/// The leftmost match of `re` in `buf`, as a span of characters.
fn regex_span(re: &Regex, buf: &Vec<char>, text: &str) -> (r: Option<(usize, usize)>)
    requires
        text@ == buf@,
    ensures
        as_span(r) == char_span(buf@, regex_leftmost(re.pattern(), buf@)),
{
    match regex_find(re, text) {
        Some((s, e)) => match char_index(buf, s) {
            Some(i) => match char_index(buf, e) {
                Some(j) => if i <= j { Some((i, j)) } else { None },
                None => None,
            },
            None => None,
        },
        None => None,
    }
}

/// Where `needle` matches in the characters `buf`, whose text is `text`.
pub(crate) fn find_in(needle: &ReadUntil, buf: &Vec<char>, text: &str, eof: bool) -> (r: Option<(usize, usize)>)
    requires
        text@ == buf@,
    ensures
        as_span(r) == find_spec(*needle, buf@, eof),
    decreases needle,
{
    match needle {
        ReadUntil::String(s) => {
            let chars = chars_of(s.as_str());
            match first_occurrence_in(&chars, buf) {
                Some(p) => {
                    assert(is_first_occurrence(chars@, buf@, p as int));
                    assert(buf@.len() == buf.len());
                    Some((p, p + chars.len()))
                },
                None => None,
            }
        },
        ReadUntil::Regex(re) => regex_span(re, buf, text),
        ReadUntil::EOF => if eof { Some((0, buf.len())) } else { None },
        ReadUntil::NBytes(n) => {
            if *n <= buf.len() {
                Some((0, *n))
            } else if eof && buf.len() > 0 {
                Some((0, buf.len()))
            } else {
                None
            }
        },
        ReadUntil::Any(alts) => {
            let mut best: Option<(usize, usize)> = None;
            let mut i: usize = 0;
            assert(alts@.take(0) =~= Seq::<ReadUntil>::empty());
            while i < alts.len()
                invariant
                    text@ == buf@,
                    i <= alts@.len(),
                    *needle == ReadUntil::Any(*alts),
                    as_span(best) == any_spec(alts@.take(i as int), buf@, eof),
                decreases alts@.len() - i,
            {
                proof {
                    vstd::std_specs::vec::axiom_vec_index_decreases(*alts, i as int);
                    assert(decreases_to!(*needle => (*needle)->Any_0));
                    assert(decreases_to!(*alts => alts[i as int]));
                    assert(decreases_to!(*needle => alts[i as int]));
                }
                let found = find_in(&alts[i], buf, text, eof);
                best = pick(best, found);
                assert(alts@.take(i + 1).drop_last() =~= alts@.take(i as int));
                i = i + 1;
            }
            assert(alts@.take(i as int) =~= alts@);
            best
        },
    }
}

/// Finds the first place where `needle` matches in `buffer`, given whether
/// the stream has ended. The span counts characters, start inclusive and
/// end exclusive.
pub fn find(needle: &ReadUntil, buffer: &str, eof: bool) -> (r: Option<(usize, usize)>)
    ensures
        as_span(r) == find_spec(*needle, buffer@, eof),
{
    let chars = chars_of(buffer);
    find_in(needle, &chars, buffer, eof)
}


/// Every span that `find_spec` gives lies within the buffer, in order.
pub proof fn lemma_find_in_bounds(needle: ReadUntil, buf: Seq<char>, eof: bool)
    ensures
        find_spec(needle, buf, eof) matches Some((s, e)) ==> 0 <= s <= e <= buf.len(),
    decreases needle,
{
    match needle {
        ReadUntil::String(s) => {
            if first_occurrence(s@, buf) is Some {
                let p = choose|p: int| is_first_occurrence(s@, buf, p);
                assert(is_first_occurrence(s@, buf, p));
            }
        },
        ReadUntil::Regex(re) => {
            if let Some((a, b)) = regex_leftmost(re.pattern(), buf) {
                crate::text::lemma_char_index_bounds(buf, a);
                crate::text::lemma_char_index_bounds(buf, b);
            }
        },
        ReadUntil::Any(v) => lemma_any_in_bounds(v@, buf, eof),
        _ => {},
    }
}

pub proof fn lemma_any_in_bounds(alts: Seq<ReadUntil>, buf: Seq<char>, eof: bool)
    ensures
        any_spec(alts, buf, eof) matches Some((s, e)) ==> 0 <= s <= e <= buf.len(),
    decreases alts,
{
    if alts.len() > 0 {
        lemma_any_in_bounds(alts.drop_last(), buf, eof);
        lemma_find_in_bounds(alts.last(), buf, eof);
    }
}

/// How a pattern is named in error messages.
pub open spec fn describe_spec(needle: ReadUntil) -> Seq<char>
    decreases needle,
{
    match needle {
        ReadUntil::String(s) => if s@ == seq!['\n'] {
            "\\n (newline)"@
        } else if s@ == seq!['\r'] {
            "\\r (carriage return)"@
        } else {
            seq!['"'] + s@ + seq!['"']
        },
        ReadUntil::Regex(re) => "Regex: \""@ + re.pattern() + seq!['"'],
        ReadUntil::EOF => "EOF (End of File)"@,
        ReadUntil::NBytes(n) => "reading "@ + decimal_spec(n as nat) + " bytes"@,
        ReadUntil::Any(v) => join_spec(v@),
    }
}

/// The names of the alternatives, separated by ", ".
pub open spec fn join_spec(alts: Seq<ReadUntil>) -> Seq<char>
    decreases alts,
{
    if alts.len() == 0 {
        Seq::empty()
    } else if alts.len() == 1 {
        describe_spec(alts.last())
    } else {
        join_spec(alts.drop_last()) + ", "@ + describe_spec(alts.last())
    }
}

impl ReadUntil {
    /// The name of the pattern, as error messages show it.
    pub fn describe(&self) -> (r: String)
        ensures
            r@ == describe_spec(*self),
        decreases self,
    {
        let mut r = String::new();
        match self {
            ReadUntil::String(s) => {
                let t = s.as_str();
                let n = t.unicode_len();
                if n == 1 && t.get_char(0) == '\n' {
                    r.append("\\n (newline)");
                    assert(s@ =~= seq!['\n']);
                } else if n == 1 && t.get_char(0) == '\r' {
                    r.append("\\r (carriage return)");
                    assert(s@ =~= seq!['\r']);
                } else {
                    push_char(&mut r, '"');
                    r.append(t);
                    push_char(&mut r, '"');
                    assert(s@ != seq!['\n'] && s@ != seq!['\r']);
                    assert(r@ =~= seq!['"'] + s@ + seq!['"']);
                }
            },
            ReadUntil::Regex(re) => {
                r.append("Regex: \"");
                r.append(re.as_str());
                push_char(&mut r, '"');
            },
            ReadUntil::EOF => {
                r.append("EOF (End of File)");
            },
            ReadUntil::NBytes(n) => {
                r.append("reading ");
                let d = decimal(*n);
                r.append(d.as_str());
                r.append(" bytes");
            },
            ReadUntil::Any(alts) => {
                let mut i: usize = 0;
                assert(alts@.take(0) =~= Seq::<ReadUntil>::empty());
                while i < alts.len()
                    invariant
                        i <= alts@.len(),
                        *self == ReadUntil::Any(*alts),
                        r@ == join_spec(alts@.take(i as int)),
                    decreases alts@.len() - i,
                {
                    proof {
                        vstd::std_specs::vec::axiom_vec_index_decreases(*alts, i as int);
                        assert(decreases_to!(*self => (*self)->Any_0));
                        assert(decreases_to!(*self => alts[i as int]));
                    }
                    let part = alts[i].describe();
                    if i > 0 {
                        r.append(", ");
                    }
                    r.append(part.as_str());
                    assert(alts@.take(i + 1).drop_last() =~= alts@.take(i as int));
                    assert(alts@.take(i + 1).last() == alts@[i as int]);
                    i = i + 1;
                }
                assert(alts@.take(i as int) =~= alts@);
            },
        }
        r
    }
}


/// The raw OS error code that a closed pseudo-terminal reports on read
/// (EIO); the reader takes it as the end of the stream.
pub const HANGUP_OS_ERROR: i32 = 5;

/// One unit of input, in the order the source produced it.
pub enum StreamEvent {
    /// A byte read from the source.
    Byte(u8),
    /// The source reported the end of the stream.
    EOF,
    /// A read failed; the raw OS error code, where there is one.
    IOError(Option<i32>),
}

/// The received text and whether the stream has ended, after one event
/// taken within a drain: a byte is appended, the end of the stream or the
/// hang-up error sets the end flag, and the flag never goes back.
pub open spec fn apply_event(state: (Seq<char>, bool), ev: StreamEvent) -> (Seq<char>, bool) {
    match ev {
        StreamEvent::Byte(b) => (state.0.push(b as char), state.1),
        StreamEvent::EOF => (state.0, true),
        StreamEvent::IOError(code) => (state.0, state.1 || code == Some(HANGUP_OS_ERROR)),
    }
}

/// The state after taking all the events, in order.
pub open spec fn apply_events(state: (Seq<char>, bool), events: Seq<StreamEvent>) -> (Seq<char>, bool)
    decreases events.len(),
{
    if events.len() == 0 {
        state
    } else {
        apply_event(apply_events(state, events.drop_last()), events.last())
    }
}

/// The state after a drain: nothing changes once the stream has ended;
/// otherwise every event that has arrived is taken, in order.
pub open spec fn drain_spec(state: (Seq<char>, bool), events: Seq<StreamEvent>) -> (Seq<char>, bool) {
    if state.1 {
        state
    } else {
        apply_events(state, events)
    }
}

/// What a non-blocking read of one character gives on the pending text
/// `pending`, and what stays pending after it.
pub open spec fn read_one(pending: Seq<char>) -> (Option<char>, Seq<char>) {
    if pending.len() > 0 {
        (Some(pending[0]), pending.drop_first())
    } else {
        (None, pending)
    }
}

/// Text that the reader has received and not yet handed out, with the
/// state of the stream it comes from.
pub struct NBReader {
    buffer: Vec<char>,
    eof: bool,
    timeout: Option<u64>,
    received: Ghost<Seq<char>>,
    handed_out: Ghost<Seq<char>>,
}

/// The characters of `v` from `from` up to `to`, as a string.
fn string_of(v: &Vec<char>, from: usize, to: usize) -> (r: String)
    requires
        from <= to <= v@.len(),
    ensures
        r@ == v@.subrange(from as int, to as int),
{
    let mut r = String::new();
    let mut i: usize = from;
    while i < to
        invariant
            from <= i <= to <= v@.len(),
            r@ == v@.subrange(from as int, i as int),
        decreases to - i,
    {
        push_char(&mut r, v[i]);
        assert(r@ =~= v@.subrange(from as int, i + 1));
        i = i + 1;
    }
    r
}

impl NBReader {
    /// Received text not yet handed out, oldest first.
    pub closed spec fn pending(&self) -> Seq<char> {
        self.buffer@
    }

    /// Whether the end of the stream has been seen.
    pub closed spec fn at_end(&self) -> bool {
        self.eof
    }

    /// How long `read_until` may wait, in milliseconds; none: forever.
    pub closed spec fn timeout_ms(&self) -> Option<u64> {
        self.timeout
    }

    /// All text received so far.
    pub closed spec fn received(&self) -> Seq<char> {
        self.received@
    }

    /// All text handed out so far, in order.
    pub closed spec fn handed_out(&self) -> Seq<char> {
        self.handed_out@
    }

    /// The pending text and the end flag, as events change them.
    pub open spec fn state(&self) -> (Seq<char>, bool) {
        (self.pending(), self.at_end())
    }

    /// What was handed out, followed by what is pending, is exactly what
    /// was received.
    pub closed spec fn wf(&self) -> bool {
        self.received@ == self.handed_out@ + self.buffer@
    }

    /// A reader that has received nothing yet; `timeout` in milliseconds,
    /// none to wait forever.
    pub fn new(timeout: Option<u64>) -> (r: NBReader)
        ensures
            r.wf(),
            r.pending() == Seq::<char>::empty(),
            !r.at_end(),
            r.timeout_ms() == timeout,
            r.received() == Seq::<char>::empty(),
            r.handed_out() == Seq::<char>::empty(),
    {
        NBReader {
            buffer: Vec::new(),
            eof: false,
            timeout,
            received: Ghost(Seq::empty()),
            handed_out: Ghost(Seq::empty()),
        }
    }

    /// Takes in the events that have arrived, unless the stream has already
    /// ended: each byte is appended as one character, and the end of the
    /// stream or the hang-up error sets the end flag.
    pub fn read_into_buffer(&mut self, events: &Vec<StreamEvent>)
        requires
            old(self).wf(),
        ensures
            final(self).wf(),
            final(self).state() == drain_spec(old(self).state(), events@),
            final(self).timeout_ms() == old(self).timeout_ms(),
            final(self).handed_out() == old(self).handed_out(),
    {
        if self.eof {
            return;
        }
        let mut i: usize = 0;
        assert(events@.take(0) =~= Seq::<StreamEvent>::empty());
        while i < events.len()
            invariant
                i <= events@.len(),
                !old(self).at_end(),
                self.wf(),
                self.state() == apply_events(old(self).state(), events@.take(i as int)),
                self.timeout_ms() == old(self).timeout_ms(),
                self.handed_out() == old(self).handed_out(),
            decreases events@.len() - i,
        {
            match &events[i] {
                StreamEvent::Byte(b) => {
                    let c = *b as char;
                    self.buffer.push(c);
                    proof {
                        self.received@ = self.received@.push(c);
                        assert(self.received@ =~= self.handed_out@ + self.buffer@);
                    }
                },
                StreamEvent::EOF => {
                    self.eof = true;
                },
                StreamEvent::IOError(code) => {
                    let hangup = match code {
                        Some(c) => *c == HANGUP_OS_ERROR,
                        None => false,
                    };
                    self.eof = self.eof || hangup;
                },
            }
            assert(events@.take(i + 1).drop_last() =~= events@.take(i as int));
            i = i + 1;
        }
        assert(events@.take(i as int) =~= events@);
    }

    /// Takes in the events that have arrived, then hands out the oldest
    /// pending character, if there is one. Never waits.
    pub fn try_read(&mut self, events: &Vec<StreamEvent>) -> (r: Option<char>)
        requires
            old(self).wf(),
        ensures
            final(self).wf(),
            final(self).timeout_ms() == old(self).timeout_ms(),
            ({
                let st = drain_spec(old(self).state(), events@);
                &&& final(self).at_end() == st.1
                &&& (r, final(self).pending()) == read_one(st.0)
                &&& if st.0.len() > 0 {
                    &&& r == Some(st.0[0])
                    &&& final(self).pending() == st.0.drop_first()
                    &&& final(self).handed_out() == old(self).handed_out().push(st.0[0])
                } else {
                    &&& r is None
                    &&& final(self).pending() == st.0
                    &&& final(self).handed_out() == old(self).handed_out()
                }
            }),
    {
        self.read_into_buffer(events);
        if self.buffer.len() > 0 {
            let c = self.buffer.remove(0);
            proof {
                self.handed_out@ = self.handed_out@.push(c);
                assert(self.received@ =~= self.handed_out@ + self.buffer@);
            }
            Some(c)
        } else {
            None
        }
    }

    /// One round of waiting for `needle`: takes in the events that have
    /// arrived and searches the pending text. On a match, hands out the text
    /// before it and the match itself. Otherwise fails once the stream has
    /// ended, or once more than the timeout has elapsed; else answers
    /// `Ok(None)`, and the caller waits and asks again.
    pub fn read_until(&mut self, needle: &ReadUntil, events: &Vec<StreamEvent>, elapsed_ms: u64)
        -> (r: Result<Option<(String, String)>, Error>)
        requires
            old(self).wf(),
        ensures
            final(self).wf(),
            final(self).timeout_ms() == old(self).timeout_ms(),
            ({
                let st = drain_spec(old(self).state(), events@);
                &&& final(self).at_end() == st.1
                &&& match find_spec(*needle, st.0, st.1) {
                    Some((s, e)) => {
                        &&& r matches Ok(Some((p, m))) && p@ == st.0.subrange(0, s) && m@ == st.0.subrange(s, e)
                        &&& final(self).pending() == st.0.skip(e)
                        &&& final(self).handed_out() == old(self).handed_out() + st.0.take(e)
                    },
                    None => {
                        &&& final(self).pending() == st.0
                        &&& final(self).handed_out() == old(self).handed_out()
                        &&& if st.1 {
                            r matches Err(Error::EOF { expected, got, exit_code })
                                && expected@ == describe_spec(*needle) && got@ == st.0 && exit_code is None
                        } else if old(self).timeout_ms() is Some && elapsed_ms > old(self).timeout_ms()->0 {
                            r matches Err(Error::Timeout { expected, got, timeout })
                                && expected@ == describe_spec(*needle) && got@ == escaped_spec(st.0)
                                && timeout == old(self).timeout_ms()->0
                        } else {
                            r matches Ok(None)
                        }
                    },
                }
            }),
    {
        self.read_into_buffer(events);
        let text = string_of(&self.buffer, 0, self.buffer.len());
        assert(self.buffer@.subrange(0, self.buffer@.len() as int) =~= self.buffer@);
        match find_in(needle, &self.buffer, text.as_str(), self.eof) {
            Some((s, e)) => {
                proof {
                    lemma_find_in_bounds(*needle, self.buffer@, self.eof);
                }
                let before = string_of(&self.buffer, 0, s);
                let found = string_of(&self.buffer, s, e);
                let ghost all = self.buffer@;
                let rest = self.buffer.split_off(e);
                self.buffer = rest;
                proof {
                    assert(self.buffer@ =~= all.skip(e as int));
                    self.handed_out@ = self.handed_out@ + all.take(e as int);
                    assert(self.received@ =~= self.handed_out@ + self.buffer@);
                }
                Ok(Some((before, found)))
            },
            None => {
                if self.eof {
                    Err(Error::EOF { expected: needle.describe(), got: text, exit_code: None })
                } else {
                    match self.timeout {
                        Some(t) => {
                            if elapsed_ms > t {
                                Err(
                                    Error::Timeout {
                                        expected: needle.describe(),
                                        got: escape_controls(&self.buffer),
                                        timeout: t,
                                    },
                                )
                            } else {
                                Ok(None)
                            }
                        },
                        None => Ok(None),
                    }
                }
            },
        }
    }
}

} // verus!
