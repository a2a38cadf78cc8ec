use vstd::prelude::*;

use crate::id::{id_text, lemma_id_text_ascii, push_id_text, Id, MAX_ID};
use crate::span::Span;
use crate::spanset::SpanSet;
use crate::text::{
    ascii_chars, ascii_to_string, decimal, is_ascii, lemma_decimal_ascii, push_bytes, push_decimal,
};

verus! {

/// The number of spans shown when no limit is given.
pub const DEFAULT_SPAN_LIMIT: usize = 12;

/// Words joined by single spaces.
pub open spec fn join(ws: Seq<Seq<u8>>) -> Seq<u8>
    decreases ws.len(),
{
    if ws.len() == 0 {
        Seq::empty()
    } else if ws.len() == 1 {
        ws[0]
    } else {
        join(ws.drop_last()) + seq![32u8] + ws.last()
    }
}

/// The words that show a span: each id when it holds at most three, else
/// `low..=high`.
pub open spec fn span_words(s: Span) -> Seq<Seq<u8>> {
    if s.high.0 - s.low.0 <= 2 {
        Seq::new((s.high.0 - s.low.0 + 1) as nat, |k: int| id_text((s.low.0 + k) as u64))
    } else {
        seq![id_text(s.low.0) + seq![46u8, 46u8, 61u8] + id_text(s.high.0)]
    }
}

/// The words that show the spans of `ss`, in order.
pub open spec fn spans_words(ss: Seq<Span>) -> Seq<Seq<u8>>
    decreases ss.len(),
{
    if ss.len() == 0 {
        Seq::empty()
    } else {
        spans_words(ss.drop_last()) + span_words(ss.last())
    }
}

/// The closing word for `hidden` spans that were not shown, if any:
/// `and 1 span`, or `and N spans`.
pub open spec fn hidden_words(hidden: int) -> Seq<Seq<u8>> {
    if hidden <= 0 {
        Seq::empty()
    } else {
        seq![
            seq![97u8, 110u8, 100u8, 32u8] + decimal(hidden as nat) + seq![
                32u8,
                115u8,
                112u8,
                97u8,
                110u8,
            ] + if hidden == 1 {
                Seq::empty()
            } else {
                seq![115u8]
            },
        ]
    }
}

/// The text of a set: its lowest `limit` spans, ascending, then how many
/// spans were left out.
pub open spec fn set_text(ss: Seq<Span>, limit: int) -> Seq<u8> {
    let shown = if limit < ss.len() {
        limit
    } else {
        ss.len() as int
    };
    join(spans_words(ss.reverse().take(shown)) + hidden_words(ss.len() - limit))
}

/// Appending a word to the joined words.
proof fn lemma_join_push(ws: Seq<Seq<u8>>, w: Seq<u8>)
    ensures
        join(ws.push(w)) == if ws.len() == 0 {
            w
        } else {
            join(ws) + seq![32u8] + w
        },
{
    assert(ws.push(w).drop_last() =~= ws);
}

/// Joined ASCII words are ASCII.
proof fn lemma_join_ascii(ws: Seq<Seq<u8>>)
    requires
        forall|i: int| 0 <= i < ws.len() ==> is_ascii(#[trigger] ws[i]),
    ensures
        is_ascii(join(ws)),
    decreases ws.len(),
{
    if ws.len() > 1 {
        lemma_join_ascii(ws.drop_last());
        assert(ws[ws.len() - 1] == ws.last());
    }
}

/// Append `w` as the next word of `out`, which holds `join(ws)`.
fn push_word(out: &mut Vec<u8>, first: bool, w: &Vec<u8>, ws: Ghost<Seq<Seq<u8>>>)
    requires
        old(out)@ == join(ws@),
        first == (ws@.len() == 0),
    ensures
        final(out)@ == join(ws@.push(w@)),
{
    if !first {
        out.push(32u8);
    }
    push_bytes(out, w.as_slice());
    proof {
        lemma_join_push(ws@, w@);
        if !first {
            assert(final(out)@ =~= join(ws@) + seq![32u8] + w@);
        } else {
            assert(final(out)@ =~= w@);
        }
    }
}

impl SpanSet {
    /// Show the set as text: its lowest `limit` spans (12 when `None`),
    /// ascending, each as `low..=high` or, when it holds at most three ids,
    /// as those ids; then `and 1 span` or `and N spans` for the rest.
    pub fn to_debug_string(&self, limit: Option<usize>) -> (r: String)
        requires
            self.wf(),
            forall|i: int| 0 <= i < self.span_seq().len() ==> (#[trigger] self.span_seq()[i]).high.0
                <= MAX_ID,
        ensures
            r@ == ascii_chars(
                set_text(
                    self.span_seq(),
                    match limit {
                        Some(l) => l as int,
                        None => DEFAULT_SPAN_LIMIT as int,
                    },
                ),
            ),
    {
        let limit = match limit {
            Some(l) => l,
            None => DEFAULT_SPAN_LIMIT,
        };
        let ss = self.as_spans();
        let n = ss.len();
        let shown = if limit < n {
            limit
        } else {
            n
        };
        let ghost t = ss@.reverse();
        let mut out: Vec<u8> = Vec::new();
        let mut first = true;
        let mut k: usize = 0;
        let ghost mut ws: Seq<Seq<u8>> = Seq::empty();
        while k < shown
            invariant
                n == ss@.len(),
                t == ss@.reverse(),
                shown <= n,
                k <= shown,
                forall|i: int| 0 <= i < n ==> (#[trigger] ss@[i]).high.0 <= MAX_ID,
                forall|i: int| 0 <= i < n ==> (#[trigger] ss@[i]).wf(),
                ws == spans_words(t.take(k as int)),
                first == (ws.len() == 0),
                out@ == join(ws),
                forall|i: int| 0 <= i < ws.len() ==> is_ascii(#[trigger] ws[i]),
            decreases shown - k,
        {
            let s = ss[n - 1 - k];
            let ghost before = ws;
            proof {
                assert(t[k as int] == s);
                assert(t.take(k + 1).drop_last() =~= t.take(k as int));
            }
            if s.high.0 - s.low.0 <= 2 {
                let mut x: u64 = s.low.0;
                while x <= s.high.0
                    invariant
                        s.low.0 <= x <= s.high.0 + 1,
                        s.high.0 <= MAX_ID,
                        ws == before + Seq::new(
                            (x - s.low.0) as nat,
                            |j: int| id_text((s.low.0 + j) as u64),
                        ),
                        first == (ws.len() == 0),
                        out@ == join(ws),
                        forall|i: int| 0 <= i < ws.len() ==> is_ascii(#[trigger] ws[i]),
                    decreases s.high.0 + 1 - x,
                {
                    let mut w: Vec<u8> = Vec::new();
                    push_id_text(&mut w, Id(x));
                    push_word(&mut out, first, &w, Ghost(ws));
                    proof {
                        lemma_id_text_ascii(x);
                        let nws = ws.push(w@);
                        assert(nws =~= before + Seq::new(
                            (x + 1 - s.low.0) as nat,
                            |j: int| id_text((s.low.0 + j) as u64),
                        ));
                        ws = nws;
                    }
                    first = false;
                    x = x + 1;
                }
                proof {
                    assert(ws =~= spans_words(t.take(k + 1)));
                }
            } else {
                let mut w: Vec<u8> = Vec::new();
                push_id_text(&mut w, s.low);
                w.push(46u8);
                w.push(46u8);
                w.push(61u8);
                push_id_text(&mut w, s.high);
                push_word(&mut out, first, &w, Ghost(ws));
                proof {
                    lemma_id_text_ascii(s.low.0);
                    lemma_id_text_ascii(s.high.0);
                    assert(w@ =~= id_text(s.low.0) + seq![46u8, 46u8, 61u8] + id_text(s.high.0));
                    ws = ws.push(w@);
                    assert(ws =~= spans_words(t.take(k + 1)));
                }
                first = false;
            }
            k += 1;
        }
        proof {
            assert(ws == spans_words(t.take(shown as int)));
        }
        let ghost shown_words = ws;
        if n > limit {
            let hidden = n - limit;
            let mut w: Vec<u8> = Vec::new();
            w.push(97u8);
            w.push(110u8);
            w.push(100u8);
            w.push(32u8);
            push_decimal(&mut w, hidden as u64);
            w.push(32u8);
            w.push(115u8);
            w.push(112u8);
            w.push(97u8);
            w.push(110u8);
            let ghost stem = w@;
            if hidden != 1 {
                w.push(115u8);
            }
            proof {
                assert(stem =~= seq![97u8, 110u8, 100u8, 32u8] + decimal(hidden as nat) + seq![
                    32u8,
                    115u8,
                    112u8,
                    97u8,
                    110u8,
                ]);
                if hidden == 1 {
                    assert(w@ =~= stem + Seq::<u8>::empty());
                } else {
                    assert(w@ =~= stem + seq![115u8]);
                }
                assert(hidden_words(n - limit) =~= seq![w@]);
            }
            push_word(&mut out, first, &w, Ghost(ws));
            proof {
                lemma_decimal_ascii(hidden as nat);
                ws = ws.push(w@);
                assert(ws =~= shown_words + hidden_words(n - limit));
            }
        } else {
            proof {
                assert(ws =~= ws + hidden_words(n - limit));
            }
        }
        proof {
            lemma_join_ascii(ws);
        }
        ascii_to_string(out)
    }
}

} // verus!
