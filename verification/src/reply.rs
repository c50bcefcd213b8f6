//! Reply accumulation and normalization.
//!
//! A reply arrives as raw bytes over many bounded reads; the session keeps
//! appending them until the device goes silent (a read timeout) or closes
//! the stream. The accumulated bytes are then decoded as text and
//! normalized: the text is split into lines, lines that are empty or equal
//! to the legacy `"."` end-of-reply sentinel are dropped, and the rest are
//! rejoined with single newlines.

use vstd::prelude::*;
use vstd::seq_lib::group_seq_lib_default;
use vstd::string::*;

verus! {

broadcast use group_seq_lib_default;

/// A line with its terminator removed also loses one trailing carriage
/// return, the way lines of `"\r\n"`-terminated text are read.
pub open spec fn strip_cr(line: Seq<char>) -> Seq<char> {
    if line.len() > 0 && line.last() == '\r' {
        line.drop_last()
    } else {
        line
    }
}

/// Index of the first line feed in `text`, or `text.len()` if there is none.
pub open spec fn first_line_feed(text: Seq<char>) -> int
    decreases text.len(),
{
    if text.len() == 0 {
        0
    } else if text[0] == '\n' {
        0
    } else {
        1 + first_line_feed(text.drop_first())
    }
}

/// The lines of `text`: pieces separated by `'\n'`, each stripped of one
/// carriage return before the separator; a final piece without a
/// terminator is kept as it stands, and a trailing terminator adds no
/// empty final line.
pub open spec fn spec_lines(text: Seq<char>) -> Seq<Seq<char>>
    decreases text.len(),
{
    if text.len() == 0 {
        seq![]
    } else {
        let i = first_line_feed(text);
        if 0 <= i < text.len() {
            seq![strip_cr(text.take(i))] + spec_lines(text.skip(i + 1))
        } else {
            seq![text]
        }
    }
}

/// Normalization keeps a line iff it is nonempty and is not the `"."`
/// sentinel.
pub open spec fn is_kept_line(line: Seq<char>) -> bool {
    line.len() > 0 && line != seq!['.']
}

/// The lines of a reply that normalization keeps, in order.
pub open spec fn kept_lines(ls: Seq<Seq<char>>) -> Seq<Seq<char>> {
    ls.filter(|l: Seq<char>| is_kept_line(l))
}

/// Lines rejoined with a single `'\n'` between them and no terminator.
pub open spec fn join_lines(ls: Seq<Seq<char>>) -> Seq<char>
    decreases ls.len(),
{
    if ls.len() == 0 {
        seq![]
    } else if ls.len() == 1 {
        ls[0]
    } else {
        ls[0] + seq!['\n'] + join_lines(ls.drop_first())
    }
}

/// What reply normalization produces: the kept lines, rejoined.
pub open spec fn spec_cleanup(text: Seq<char>) -> Seq<char> {
    join_lines(kept_lines(spec_lines(text)))
}

proof fn lemma_first_line_feed(text: Seq<char>)
    ensures
        0 <= first_line_feed(text) <= text.len(),
        first_line_feed(text) < text.len() ==> text[first_line_feed(text)] == '\n',
        forall|j: int| 0 <= j < first_line_feed(text) ==> text[j] != '\n',
    decreases text.len(),
{
    if text.len() == 0 {
    } else if text[0] == '\n' {
    } else {
        lemma_first_line_feed(text.drop_first());
        let f = first_line_feed(text);
        assert forall|j: int| 0 <= j < f implies text[j] != '\n' by {
            if j > 0 {
                assert(text.drop_first()[j - 1] != '\n');
            }
        }
    }
}

proof fn lemma_first_line_feed_at(text: Seq<char>, k: int)
    requires
        0 <= k < text.len(),
        text[k] == '\n',
        forall|j: int| 0 <= j < k ==> text[j] != '\n',
    ensures
        first_line_feed(text) == k,
    decreases k,
{
    if k > 0 {
        assert forall|j: int| 0 <= j < k - 1 implies text.drop_first()[j] != '\n' by {
            assert(text[j + 1] != '\n');
        }
        lemma_first_line_feed_at(text.drop_first(), k - 1);
    }
}

/// Text without a line feed is a single line (or none, when empty).
proof fn lemma_lines_no_feed(text: Seq<char>)
    requires
        forall|j: int| 0 <= j < text.len() ==> text[j] != '\n',
    ensures
        spec_lines(text) == if text.len() == 0 {
            Seq::<Seq<char>>::empty()
        } else {
            seq![text]
        },
{
    if text.len() > 0 {
        lemma_first_line_feed(text);
        assert(first_line_feed(text) == text.len());
    }
}

/// Splitting off the first line at a line feed preceded by no other feed.
proof fn lemma_lines_split_at_feed(text: Seq<char>, start: int, i: int)
    requires
        0 <= start <= i < text.len(),
        forall|j: int| start <= j < i ==> text[j] != '\n',
        text[i] == '\n',
    ensures
        spec_lines(text.skip(start)) == seq![strip_cr(text.subrange(start, i))] + spec_lines(
            text.skip(i + 1),
        ),
{
    let t = text.skip(start);
    let k = i - start;
    assert forall|j: int| 0 <= j < k implies t[j] != '\n' by {
        assert(text[start + j] != '\n');
    }
    assert(t[k] == '\n');
    lemma_first_line_feed_at(t, k);
    assert(t.take(k) =~= text.subrange(start, i));
    assert(t.skip(k + 1) =~= text.skip(i + 1));
}

/// The lines of `text`, as owned strings in order.
pub fn split_lines(text: &str) -> (ls: Vec<String>)
    ensures
        ls.deep_view() == spec_lines(text@),
{
    let n = text.unicode_len();
    let mut ls: Vec<String> = Vec::new();
    let mut start: usize = 0;
    let mut i: usize = 0;
    proof {
        assert(text@.skip(0) =~= text@);
    }
    while i < n
        invariant
            n == text@.len(),
            start <= i <= n,
            forall|j: int| start <= j < i ==> text@[j] != '\n',
            spec_lines(text@) == ls.deep_view() + spec_lines(text@.skip(start as int)),
        decreases n - i,
    {
        let c = text.get_char(i);
        if c == '\n' {
            let line_end = if i > start && text.get_char(i - 1) == '\r' {
                i - 1
            } else {
                i
            };
            let piece = String::from_str(text.substring_char(start, line_end));
            proof {
                lemma_lines_split_at_feed(text@, start as int, i as int);
                assert(strip_cr(text@.subrange(start as int, i as int)) =~= text@.subrange(
                    start as int,
                    line_end as int,
                ));
            }
            let ghost old_ls = ls.deep_view();
            ls.push(piece);
            proof {
                assert(ls.deep_view() =~~= old_ls.push(piece@));
                assert(old_ls.push(piece@) =~~= old_ls + seq![piece@]);
                assert((old_ls + seq![piece@]) + spec_lines(text@.skip(i as int + 1)) =~~= old_ls
                    + (seq![piece@] + spec_lines(text@.skip(i as int + 1))));
            }
            start = i + 1;
        }
        i = i + 1;
    }
    if start < n {
        let piece = String::from_str(text.substring_char(start, n));
        proof {
            lemma_lines_no_feed(text@.skip(start as int));
            assert(text@.skip(start as int) =~= text@.subrange(start as int, n as int));
        }
        let ghost old_ls = ls.deep_view();
        ls.push(piece);
        proof {
            assert(ls.deep_view() =~~= old_ls.push(piece@));
            assert(old_ls.push(piece@) =~~= old_ls + seq![piece@]);
        }
    } else {
        proof {
            lemma_lines_no_feed(text@.skip(start as int));
            assert(ls.deep_view() + spec_lines(text@.skip(start as int)) =~~= ls.deep_view());
        }
    }
    ls
}

proof fn lemma_join_push(ls: Seq<Seq<char>>, l: Seq<char>)
    ensures
        join_lines(ls.push(l)) == if ls.len() == 0 {
            l
        } else {
            join_lines(ls) + seq!['\n'] + l
        },
    decreases ls.len(),
{
    if ls.len() == 0 {
        assert(ls.push(l) =~~= seq![l]);
    } else {
        lemma_join_push(ls.drop_first(), l);
        assert(ls.push(l).drop_first() =~~= ls.drop_first().push(l));
        assert(ls.push(l)[0] == ls[0]);
        if ls.len() == 1 {
            assert(join_lines(ls.push(l)) == ls[0] + seq!['\n'] + l);
        }
    }
}

/// Normalize one decoded reply: drop empty and `"."` sentinel lines,
/// rejoin the rest with single newlines. An empty result is a valid
/// reply, not an error.
pub fn cleanup_reply(reply: String) -> (r: String)
    ensures
        r@ == spec_cleanup(reply@),
{
    let ls = split_lines(reply.as_str());
    let mut out = String::new();
    let mut kept: usize = 0;
    let mut k: usize = 0;
    proof {
        assert(ls.deep_view().take(0) =~~= Seq::<Seq<char>>::empty());
        assert(kept_lines(Seq::<Seq<char>>::empty()) =~~= Seq::<Seq<char>>::empty()) by {
            vstd::seq::Seq::<Seq<char>>::empty().lemma_filter_len(|l: Seq<char>| is_kept_line(l));
        }
    }
    while k < ls.len()
        invariant
            k <= ls@.len(),
            ls.deep_view() == spec_lines(reply@),
            kept == kept_lines(ls.deep_view().take(k as int)).len(),
            out@ == join_lines(kept_lines(ls.deep_view().take(k as int))),
        decreases ls@.len() - k,
    {
        let l = &ls[k];
        let ghost lv = ls.deep_view()[k as int];
        proof {
            assert(lv == ls@[k as int]@);
        }
        let len = l.as_str().unicode_len();
        let is_dot = len == 1 && l.as_str().get_char(0) == '.';
        proof {
            if is_dot {
                assert(lv =~= seq!['.']);
            }
            if lv == seq!['.'] {
                assert(lv.len() == 1 && lv[0] == '.');
            }
        }
        let ghost taken = ls.deep_view().take(k as int);
        proof {
            assert(ls.deep_view().take(k as int + 1) =~~= taken.push(lv));
            taken.lemma_filter_push(lv, |x: Seq<char>| is_kept_line(x));
            lemma_join_push(kept_lines(taken), lv);
        }
        if len > 0 && !is_dot {
            if kept > 0 {
                out.append("\n");
                proof {
                    reveal_strlit("\n");
                    assert("\n"@ =~= seq!['\n']);
                }
            }
            out.append(l.as_str());
            kept = kept + 1;
        }
        k = k + 1;
    }
    proof {
        assert(ls.deep_view().take(ls@.len() as int) =~~= ls.deep_view());
    }
    out
}

/// The line contains no occurrence of the character `c`.
pub open spec fn line_avoids(line: Seq<char>, c: char) -> bool {
    forall|j: int| 0 <= j < line.len() ==> line[j] != c
}

/// The line ends in a carriage return (with no line feed after it).
pub open spec fn ends_in_cr(line: Seq<char>) -> bool {
    line.len() > 0 && line.last() == '\r'
}

/// A reply is tidy when no kept line except possibly the last ends in a
/// bare carriage return. Rejoining such lines with `'\n'` and splitting
/// again gives the same lines back; a line ending in `'\r'` would instead
/// lose it to the `"\r\n"` separator that rejoining forms.
pub open spec fn tidy_reply(text: Seq<char>) -> bool {
    forall|i: int|
        0 <= i < kept_lines(spec_lines(text)).len() - 1 ==> !ends_in_cr(
            #[trigger] kept_lines(spec_lines(text))[i],
        )
}

proof fn lemma_lines_have_no_feed(text: Seq<char>)
    ensures
        forall|i: int|
            0 <= i < spec_lines(text).len() ==> line_avoids(#[trigger] spec_lines(text)[i], '\n'),
    decreases text.len(),
{
    if text.len() > 0 {
        lemma_first_line_feed(text);
        let f = first_line_feed(text);
        let ls = spec_lines(text);
        if f < text.len() {
            lemma_lines_have_no_feed(text.skip(f + 1));
            assert forall|i: int| 0 <= i < ls.len() implies line_avoids(#[trigger] ls[i], '\n') by {
                if i == 0 {
                    let head = strip_cr(text.take(f));
                    assert forall|j: int| 0 <= j < head.len() implies head[j] != '\n' by {
                        assert(text[j] != '\n');
                    }
                } else {
                    assert(ls[i] == spec_lines(text.skip(f + 1))[i - 1]);
                }
            }
        } else {
            assert forall|j: int| 0 <= j < text.len() implies text[j] != '\n' by {}
        }
    }
}

proof fn lemma_lines_avoid_char(text: Seq<char>, c: char)
    requires
        forall|j: int| 0 <= j < text.len() ==> text[j] != c,
    ensures
        forall|i: int|
            0 <= i < spec_lines(text).len() ==> line_avoids(#[trigger] spec_lines(text)[i], c),
    decreases text.len(),
{
    if text.len() > 0 {
        lemma_first_line_feed(text);
        let f = first_line_feed(text);
        let ls = spec_lines(text);
        if f < text.len() {
            assert forall|j: int| 0 <= j < text.skip(f + 1).len() implies #[trigger] text.skip(
                f + 1,
            )[j] != c by {
                assert(text[f + 1 + j] != c);
            }
            lemma_lines_avoid_char(text.skip(f + 1), c);
            assert forall|i: int| 0 <= i < ls.len() implies line_avoids(#[trigger] ls[i], c) by {
                if i == 0 {
                    let head = strip_cr(text.take(f));
                    assert forall|j: int| 0 <= j < head.len() implies head[j] != c by {
                        assert(text[j] != c);
                    }
                } else {
                    assert(ls[i] == spec_lines(text.skip(f + 1))[i - 1]);
                }
            }
        }
    }
}

/// Rejoining lines that are nonempty, free of line feeds, and (but for
/// the last) free of trailing carriage returns, then splitting again,
/// recovers exactly those lines.
proof fn lemma_lines_rejoin(ls: Seq<Seq<char>>)
    requires
        forall|i: int| 0 <= i < ls.len() ==> (#[trigger] ls[i]).len() > 0,
        forall|i: int| 0 <= i < ls.len() ==> line_avoids(#[trigger] ls[i], '\n'),
        forall|i: int| 0 <= i < ls.len() - 1 ==> !ends_in_cr(#[trigger] ls[i]),
    ensures
        spec_lines(join_lines(ls)) == ls,
    decreases ls.len(),
{
    if ls.len() == 0 {
    } else if ls.len() == 1 {
        lemma_lines_no_feed(ls[0]);
        assert(spec_lines(join_lines(ls)) =~~= ls);
    } else {
        let text = join_lines(ls);
        let head = ls[0];
        let rest = join_lines(ls.drop_first());
        assert(text == head + seq!['\n'] + rest);
        assert forall|j: int| 0 <= j < head.len() implies text[j] != '\n' by {
            assert(text[j] == head[j]);
        }
        assert(text[head.len() as int] == '\n');
        lemma_lines_split_at_feed(text, 0, head.len() as int);
        assert(text.skip(0) =~= text);
        assert(text.subrange(0, head.len() as int) =~= head);
        assert(strip_cr(head) == head);
        assert(text.skip(head.len() as int + 1) =~= rest);
        assert forall|i: int| 0 <= i < ls.drop_first().len() - 1 implies !ends_in_cr(
            #[trigger] ls.drop_first()[i],
        ) by {
            assert(ls.drop_first()[i] == ls[i + 1]);
        }
        lemma_lines_rejoin(ls.drop_first());
        assert(spec_lines(text) == seq![strip_cr(text.subrange(0, head.len() as int))]
            + spec_lines(text.skip(head.len() as int + 1)));
        assert(strip_cr(text.subrange(0, head.len() as int)) == head);
        assert(spec_lines(text.skip(head.len() as int + 1)) == ls.drop_first());
        assert(seq![head] + ls.drop_first() =~~= ls);
    }
}

proof fn lemma_filter_all_kept(ls: Seq<Seq<char>>)
    requires
        forall|i: int| 0 <= i < ls.len() ==> is_kept_line(#[trigger] ls[i]),
    ensures
        kept_lines(ls) == ls,
    decreases ls.len(),
{
    reveal(Seq::filter);
    if ls.len() > 0 {
        lemma_filter_all_kept(ls.drop_last());
        assert(kept_lines(ls) =~~= ls);
    }
}

proof fn lemma_kept_lines_wf(text: Seq<char>)
    ensures
        forall|i: int|
            0 <= i < kept_lines(spec_lines(text)).len() ==> is_kept_line(
                #[trigger] kept_lines(spec_lines(text))[i],
            ),
        forall|i: int|
            0 <= i < kept_lines(spec_lines(text)).len() ==> line_avoids(
                #[trigger] kept_lines(spec_lines(text))[i],
                '\n',
            ),
{
    let ls = spec_lines(text);
    let kept = kept_lines(ls);
    lemma_lines_have_no_feed(text);
    assert forall|i: int| 0 <= i < kept.len() implies is_kept_line(#[trigger] kept[i])
        && line_avoids(kept[i], '\n') by {
        ls.lemma_filter_pred(|l: Seq<char>| is_kept_line(l), i);
        assert(kept.contains(kept[i]));
        ls.lemma_filter_contains_rev(|l: Seq<char>| is_kept_line(l), kept[i]);
        let j = choose|j: int| 0 <= j < ls.len() && ls[j] == kept[i];
        assert(line_avoids(ls[j], '\n'));
    }
}

/// Splitting a normalized reply into lines gives back exactly the lines
/// that normalization kept of the raw reply, in order.
pub proof fn lemma_cleanup_lines(text: Seq<char>)
    requires
        tidy_reply(text),
    ensures
        spec_lines(spec_cleanup(text)) == kept_lines(spec_lines(text)),
{
    let kept = kept_lines(spec_lines(text));
    lemma_kept_lines_wf(text);
    lemma_lines_rejoin(kept);
}

/// A normalized reply contains no empty line and no `"."` sentinel line:
/// every line of the result is nonempty and differs from `"."`.
pub proof fn lemma_cleanup_drops_noise(text: Seq<char>)
    requires
        tidy_reply(text),
    ensures
        forall|i: int|
            0 <= i < spec_lines(spec_cleanup(text)).len() ==> is_kept_line(
                #[trigger] spec_lines(spec_cleanup(text))[i],
            ),
{
    lemma_cleanup_lines(text);
    lemma_kept_lines_wf(text);
}

/// Normalization is idempotent: normalizing an already-normalized reply
/// yields the same text.
pub proof fn lemma_cleanup_idempotent(text: Seq<char>)
    requires
        tidy_reply(text),
    ensures
        spec_cleanup(spec_cleanup(text)) == spec_cleanup(text),
{
    lemma_cleanup_lines(text);
    lemma_kept_lines_wf(text);
    lemma_filter_all_kept(kept_lines(spec_lines(text)));
}

/// A reply containing no carriage return at all is tidy, so the laws
/// above apply to it unconditionally.
pub proof fn lemma_no_cr_is_tidy(text: Seq<char>)
    requires
        forall|j: int| 0 <= j < text.len() ==> text[j] != '\r',
    ensures
        tidy_reply(text),
{
    let ls = spec_lines(text);
    let kept = kept_lines(ls);
    lemma_lines_avoid_char(text, '\r');
    assert forall|i: int| 0 <= i < kept.len() - 1 implies !ends_in_cr(#[trigger] kept[i]) by {
        assert(kept.contains(kept[i]));
        ls.lemma_filter_contains_rev(|l: Seq<char>| is_kept_line(l), kept[i]);
        let j = choose|j: int| 0 <= j < ls.len() && ls[j] == kept[i];
        assert(line_avoids(ls[j], '\r'));
        if kept[i].len() > 0 {
            assert(kept[i].last() != '\r');
        }
    }
}

/// What `String::from_utf8_lossy` decodes the given bytes to.
pub uninterp spec fn lossy_decode(bytes: Seq<u8>) -> Seq<char>;

/// Relies on `String::from_utf8_lossy`: decodes bytes as UTF-8 text,
/// replacing invalid sequences instead of rejecting them. The result is a
/// function of the bytes alone; no bytes decode to no text, and bytes
/// that are all ASCII decode to exactly those characters.
#[verifier::external_body]
fn decode_text(bytes: &Vec<u8>) -> (r: String)
    ensures
        r@ == lossy_decode(bytes@),
        bytes@.len() == 0 ==> r@.len() == 0,
        (forall|i: int| 0 <= i < bytes@.len() ==> bytes@[i] < 128) ==> r@ == bytes@.map(
            |i: int, b: u8| b as char,
        ),
{
    String::from_utf8_lossy(bytes).into_owned()
}

/// One observation made while reading a reply.
pub enum ReadEvent {
    /// A read returned these bytes.
    Data(Vec<u8>),
    /// A read returned zero bytes: the stream is closed.
    Eof,
    /// A read timed out: the device has gone silent, which is the normal
    /// end of a reply, not an error.
    TimedOut,
    /// A read failed with a real error.
    Failed,
}

/// What the session decides after an observation.
#[derive(Debug, PartialEq, Eq, Structural)]
pub enum ReadStep {
    /// Keep reading: more of the reply may follow.
    Continue,
    /// The reply is complete.
    Done,
    /// Reading failed; the error is the caller's to surface.
    Fail,
}

/// The bytes of one reply, accumulated over many bounded reads.
pub struct ReplyAccumulator {
    data: Vec<u8>,
}

impl View for ReplyAccumulator {
    type V = Seq<u8>;

    closed spec fn view(&self) -> Seq<u8> {
        self.data@
    }
}

impl ReplyAccumulator {
    /// An accumulator holding no bytes yet.
    pub fn new() -> (acc: Self)
        ensures
            acc@ == Seq::<u8>::empty(),
    {
        ReplyAccumulator { data: Vec::new() }
    }

    /// Feed one read observation: data is appended and reading continues;
    /// end of stream and a timeout both complete the reply unchanged; a
    /// real error stops the pass unchanged.
    pub fn read_step(&mut self, event: ReadEvent) -> (step: ReadStep)
        ensures
            (match event {
                ReadEvent::Data(b) => final(self)@ == old(self)@ + b@ && step
                    == ReadStep::Continue,
                ReadEvent::Eof => final(self)@ == old(self)@ && step == ReadStep::Done,
                ReadEvent::TimedOut => final(self)@ == old(self)@ && step == ReadStep::Done,
                ReadEvent::Failed => final(self)@ == old(self)@ && step == ReadStep::Fail,
            }),
    {
        match event {
            ReadEvent::Data(mut b) => {
                self.data.append(&mut b);
                ReadStep::Continue
            },
            ReadEvent::Eof => ReadStep::Done,
            ReadEvent::TimedOut => ReadStep::Done,
            ReadEvent::Failed => ReadStep::Fail,
        }
    }

    /// Decode and normalize the accumulated reply.
    pub fn into_reply(self) -> (r: String)
        ensures
            r@ == spec_cleanup(lossy_decode(self@)),
    {
        let text = decode_text(&self.data);
        cleanup_reply(text)
    }
}

} // verus!
