//! Indentation: the margin of a line, and the blocks that it opens and closes.

use crate::grammar::skip_run;
use crate::grammar::Class;
use crate::grammar;
use crate::text;
use crate::text::enumerate_chars;
use crate::text::EnumeratedChars;
use vstd::prelude::*;

verus! {

/// How often `c` occurs in `w`.
pub open spec fn count(w: Seq<char>, c: char) -> nat
    decreases w.len(),
{
    if w.len() == 0 {
        0
    } else if w.last() == c {
        count(w.drop_last(), c) + 1
    } else {
        count(w.drop_last(), c)
    }
}

/// How many of the first characters of `s` are spaces or tabs.
pub open spec fn blank_len(s: Seq<char>) -> nat
    decreases s.len(),
{
    if s.len() > 0 && (s[0] == ' ' || s[0] == '\t') {
        1 + blank_len(s.drop_first())
    } else {
        0
    }
}

/// The margin of a line that holds something.
pub struct LineView {
    /// The number of bytes before the line.
    pub at: nat,
    pub spaces: nat,
    pub tabs: nat,
}

/// The start of a text, up to the first thing in it that counts.
pub struct MarginView {
    /// The number of characters up to there.
    pub len: nat,
    /// The margin of the line that this thing is on. There is none at the end of the text, nor
    /// on a line that ends with nothing on it.
    pub line: Option<LineView>,
}

/// The margin at the start of `s`. A line with nothing but a comment on it is passed over.
pub open spec fn margin(s: Seq<char>) -> MarginView
    decreases s.len(),
{
    let n = blank_len(s);
    if n >= s.len() || s[n as int] == '\n' {
        MarginView { len: n, line: None }
    } else if s[n as int] == '#' {
        let end = n + Class::NotNewline.run(s.skip(n as int));
        if end >= s.len() {
            MarginView { len: s.len(), line: None }
        } else {
            let below = margin(s.skip(end as int + 1));
            MarginView {
                len: end + 1 + below.len,
                line: match below.line {
                    Some(line) => Some(
                        LineView { at: text::utf8_len(s.take(end as int + 1)) + line.at, ..line },
                    ),
                    None => None,
                },
            }
        }
    } else {
        let blank = s.take(n as int);
        MarginView {
            len: n,
            line: Some(LineView { at: 0, spaces: count(blank, ' '), tabs: count(blank, '\t') }),
        }
    }
}

proof fn lemma_blank_len(s: Seq<char>)
    ensures
        blank_len(s) <= s.len(),
    decreases s.len(),
{
    if s.len() > 0 {
        lemma_blank_len(s.drop_first());
    }
}

proof fn lemma_count(w: Seq<char>)
    ensures
        count(w, ' ') + count(w, '\t') <= w.len(),
    decreases w.len(),
{
    if w.len() > 0 {
        lemma_count(w.drop_last());
    }
}

/// A margin lies within the text.
pub proof fn lemma_margin(s: Seq<char>)
    ensures
        margin(s).len <= s.len(),
        margin(s).line matches Some(line) ==> line.at + line.spaces + line.tabs <= text::utf8_len(
            s.take(margin(s).len as int),
        ) && margin(s).len < s.len(),
    decreases s.len(),
{
    let n = blank_len(s) as int;
    lemma_blank_len(s);
    if n < s.len() && s[n] == '#' {
        grammar::lemma_run(Class::NotNewline, s.skip(n));
        let end = n + Class::NotNewline.run(s.skip(n));
        if end < s.len() {
            lemma_margin(s.skip(end + 1));
            let below = margin(s.skip(end + 1)).len as int;
            assert(s.take(end + 1 + below) =~= s.take(end + 1) + s.skip(end + 1).take(below));
            text::lemma_utf8_len_concat(s.take(end + 1), s.skip(end + 1).take(below));
        }
    } else {
        lemma_count(s.take(n));
        text::lemma_utf8_len_at_least(s.take(n));
    }
}

/// The margin of a line that holds something.
pub struct Line {
    pub at: usize,
    pub spaces: usize,
    pub tabs: usize,
}

/// The margin at the start of a text: the number of bytes that it takes, the text behind it, and
/// the line that it ends on.
pub struct Margin<'a> {
    pub size: usize,
    pub rest: &'a str,
    pub line: Option<Line>,
}

impl<'a> Margin<'a> {
    /// Whether this is what `m` says of `s`.
    pub open spec fn shows(self, m: MarginView, s: Seq<char>) -> bool {
        &&& self.size == text::utf8_len(s.take(m.len as int))
        &&& self.rest@ == s.skip(m.len as int)
        &&& match (self.line, m.line) {
            (Some(a), Some(b)) => a.at == b.at && a.spaces == b.spaces && a.tabs == b.tabs,
            (None, None) => true,
            _ => false,
        }
    }
}

/// Takes the spaces and tabs that come next off `it`, and counts each.
fn skip_blank(it: &mut EnumeratedChars<'_>) -> (r: (usize, usize))
    requires
        old(it).wf(),
    ensures
        final(it).wf(),
        ({
            let n = blank_len(old(it).rest()) as int;
            let blank = old(it).rest().take(n);
            &&& final(it).rest() == old(it).rest().skip(n)
            &&& final(it).offset() == old(it).offset() + text::utf8_len(blank)
            &&& r.0 == count(blank, ' ')
            &&& r.1 == count(blank, '\t')
        }),
{
    let ghost all = it.rest();
    let ghost start = it.offset();
    let ghost mut n: int = 0;
    proof {
        lemma_blank_len(all);
        assert(all.skip(0) =~= all);
        assert(all.take(0) =~= Seq::<char>::empty());
    }
    let mut spaces: usize = 0;
    let mut tabs: usize = 0;
    loop
        invariant
            it.wf(),
            0 <= n <= blank_len(all) <= all.len(),
            it.rest() == all.skip(n),
            blank_len(all) == n + blank_len(all.skip(n)),
            it.offset() == start + text::utf8_len(all.take(n)),
            spaces == count(all.take(n), ' '),
            tabs == count(all.take(n), '\t'),
        ensures
            n == blank_len(all),
        decreases all.len() - n,
    {
        match it.peek() {
            Some(c) => {
                if c != ' ' && c != '\t' {
                    break;
                }
                let step = it.next();
                proof {
                    text::lemma_step(all, n);
                    assert(all.take(n + 1).drop_last() =~= all.take(n));
                    lemma_count(all.take(n + 1));
                    text::lemma_utf8_len_at_least(all.take(n + 1));
                    n = n + 1;
                }
                if c == ' ' {
                    spaces += 1;
                } else {
                    tabs += 1;
                }
            },
            None => break,
        }
    }
    (spaces, tabs)
}

/// Reads the margin at the start of `s`.
pub fn read_margin<'a>(s: &'a str) -> (r: Margin<'a>)
    ensures
        r.shows(margin(s@), s@),
{
    let mut it = enumerate_chars(s);
    let ghost mut n: int = 0;
    assert(s@.skip(0) =~= s@);
    assert(s@.take(0) =~= Seq::<char>::empty());
    loop
        invariant
            it.wf(),
            0 <= n <= s@.len(),
            it.rest() == s@.skip(n),
            it.offset() == text::utf8_len(s@.take(n)),
            ({
                let below = margin(s@.skip(n));
                let whole = margin(s@);
                &&& whole.len == n + below.len
                &&& whole.line == match below.line {
                    Some(line) => Some(LineView { at: it.offset() + line.at, ..line }),
                    None => None,
                }
            }),
        decreases s@.len() - n,
    {
        let ghost below = s@.skip(n);
        let ghost blank = blank_len(below) as int;
        proof {
            lemma_blank_len(below);
            lemma_prefix(s@, n, blank);
        }
        let at: usize = it.pos();
        let (spaces, tabs) = skip_blank(&mut it);
        match it.peek() {
            None => {
                return Margin { size: it.pos(), rest: it.as_str(), line: None };
            },
            Some('\n') => {
                return Margin { size: it.pos(), rest: it.as_str(), line: None };
            },
            Some('#') => {
                proof {
                    grammar::lemma_run(Class::NotNewline, below.skip(blank));
                    lemma_prefix(
                        s@,
                        n + blank,
                        Class::NotNewline.run(below.skip(blank)) as int,
                    );
                }
                skip_run(&mut it, Class::NotNewline);
                let ghost end = blank + Class::NotNewline.run(below.skip(blank));
                let here = it;
                match it.next() {
                    None => {
                        return Margin { size: here.pos(), rest: here.as_str(), line: None };
                    },
                    Some(_) => {
                        proof {
                            lemma_prefix(s@, n, end + 1);
                            text::lemma_step(s@, n + end);
                            n = n + end + 1;
                        }
                    },
                }
            },
            Some(_) => {
                return Margin {
                    size: it.pos(),
                    rest: it.as_str(),
                    line: Some(Line { at, spaces, tabs }),
                };
            },
        }
    }
}

/// The first `n` characters of `s`, and `m` more.
proof fn lemma_prefix(s: Seq<char>, n: int, m: int)
    requires
        0 <= n,
        0 <= m,
        n + m <= s.len(),
    ensures
        s.skip(n).skip(m) == s.skip(n + m),
        text::utf8_len(s.take(n + m)) == text::utf8_len(s.take(n)) + text::utf8_len(
            s.skip(n).take(m),
        ),
{
    assert(s.skip(n).skip(m) =~= s.skip(n + m));
    assert(s.take(n + m) =~= s.take(n) + s.skip(n).take(m));
    text::lemma_utf8_len_concat(s.take(n), s.skip(n).take(m));
}

/// The indentation of the innermost of the open blocks. Outside of all blocks it is 0.
pub open spec fn innermost(levels: Seq<nat>) -> nat {
    if levels.len() == 0 {
        0
    } else {
        levels.last()
    }
}

/// The blocks that are still open at a line of this indentation: those that are indented no
/// further.
pub open spec fn unwind(levels: Seq<nat>, indent: nat) -> Seq<nat>
    decreases levels.len(),
{
    if innermost(levels) > indent {
        unwind(levels.drop_last(), indent)
    } else {
        levels
    }
}

/// The blocks that are open after a line of this indentation.
pub open spec fn settle(levels: Seq<nat>, indent: nat) -> Seq<nat> {
    if indent > innermost(levels) {
        levels.push(indent)
    } else {
        unwind(levels, indent)
    }
}

/// What a line does to the open blocks.
pub enum ChangeView {
    /// It opens one.
    Indent,
    /// It closes so many.
    Dedents(nat),
    /// It closes some, but is indented further than what is then the innermost.
    Misaligned,
}

/// What a line of this indentation does to the open blocks.
pub open spec fn change(levels: Seq<nat>, indent: nat) -> ChangeView {
    let rest = unwind(levels, indent);
    if indent > innermost(levels) {
        ChangeView::Indent
    } else if innermost(rest) == indent {
        ChangeView::Dedents((levels.len() - rest.len()) as nat)
    } else {
        ChangeView::Misaligned
    }
}

/// What a line does to the open blocks.
#[derive(Debug, Clone, Copy, PartialEq, Eq, Structural)]
pub enum Change {
    Indent,
    Dedents(usize),
    Misaligned,
}

impl View for Change {
    type V = ChangeView;

    open spec fn view(&self) -> ChangeView {
        match self {
            Change::Indent => ChangeView::Indent,
            Change::Dedents(n) => ChangeView::Dedents(*n as nat),
            Change::Misaligned => ChangeView::Misaligned,
        }
    }
}

/// The open blocks, outermost first.
pub open spec fn levels_view(levels: Seq<u128>) -> Seq<nat> {
    levels.map_values(|level: u128| level as nat)
}

/// The indentation of the innermost block.
fn last_level(levels: &Vec<u128>) -> (level: u128)
    ensures
        level == innermost(levels_view(levels@)),
{
    if levels.len() == 0 {
        0
    } else {
        levels[levels.len() - 1]
    }
}

/// Opens and closes blocks at a line of this indentation.
pub fn settle_line(levels: &mut Vec<u128>, indent: u128) -> (r: Change)
    ensures
        levels_view(final(levels)@) == settle(levels_view(old(levels)@), indent as nat),
        r@ == change(levels_view(old(levels)@), indent as nat),
{
    let ghost before = levels_view(levels@);
    let now: u128 = last_level(levels);
    if indent > now {
        levels.push(indent);
        assert(levels_view(levels@) =~= before.push(indent as nat));
        return Change::Indent;
    }
    let mut dedents: usize = 0;
    let mut now: u128 = now;
    assert(levels.len() == before.len());
    while now > indent
        invariant
            now == innermost(levels_view(levels@)),
            unwind(levels_view(levels@), indent as nat) == unwind(before, indent as nat),
            dedents + levels@.len() == before.len(),
            before.len() <= usize::MAX,
        decreases levels@.len(),
    {
        let ghost levels0 = levels@;
        let popped = levels.pop();
        assert(levels_view(levels@) =~= levels_view(levels0).drop_last());
        dedents += 1;
        now = last_level(levels);
    }
    if now == indent {
        Change::Dedents(dedents)
    } else {
        Change::Misaligned
    }
}

} // verus!
