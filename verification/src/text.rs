//! Text as the lexer sees it: characters, each with the byte offset at which it ends.

use vstd::prelude::*;
use vstd::utf8::*;

verus! {

/// The number of bytes that `c` takes in UTF-8.
pub open spec fn char_len(c: char) -> nat {
    if c <= '\u{7f}' {
        1
    } else if c <= '\u{7ff}' {
        2
    } else if c <= '\u{ffff}' {
        3
    } else {
        4
    }
}

/// The number of bytes that `s` takes in UTF-8.
pub open spec fn utf8_len(s: Seq<char>) -> nat
    decreases s.len(),
{
    if s.len() == 0 {
        0
    } else {
        char_len(s[0]) + utf8_len(s.drop_first())
    }
}

pub proof fn lemma_char_len_encode(c: char)
    ensures
        char_len(c) == encode_scalar(c as u32).len(),
{
    char_is_scalar(c);
}

pub proof fn lemma_utf8_len_encode(s: Seq<char>)
    ensures
        utf8_len(s) == encode_utf8(s).len(),
    decreases s.len(),
{
    if s.len() != 0 {
        lemma_char_len_encode(s[0]);
        lemma_utf8_len_encode(s.drop_first());
    }
}

pub proof fn lemma_utf8_len_concat(a: Seq<char>, b: Seq<char>)
    ensures
        utf8_len(a + b) == utf8_len(a) + utf8_len(b),
    decreases a.len(),
{
    if a.len() == 0 {
        assert(a + b =~= b);
    } else {
        lemma_utf8_len_concat(a.drop_first(), b);
        assert((a + b).drop_first() =~= a.drop_first() + b);
    }
}

/// The prefix of `s` of `n` characters and what follows it share the bytes of `s`.
pub proof fn lemma_utf8_len_split(s: Seq<char>, n: int)
    requires
        0 <= n <= s.len(),
    ensures
        utf8_len(s) == utf8_len(s.take(n)) + utf8_len(s.skip(n)),
{
    lemma_utf8_len_concat(s.take(n), s.skip(n));
    assert(s.take(n) + s.skip(n) =~= s);
}

/// Every character takes at least one byte.
pub proof fn lemma_utf8_len_at_least(s: Seq<char>)
    ensures
        utf8_len(s) >= s.len(),
    decreases s.len(),
{
    if s.len() != 0 {
        lemma_utf8_len_at_least(s.drop_first());
    }
}

pub proof fn lemma_utf8_len_push(s: Seq<char>, c: char)
    ensures
        utf8_len(s.push(c)) == utf8_len(s) + char_len(c),
{
    assert(s.push(c) =~= s + seq![c]);
    lemma_utf8_len_concat(s, seq![c]);
    assert(seq![c].drop_first() =~= Seq::<char>::empty());
    assert(utf8_len(seq![c]) == char_len(c) + utf8_len(seq![c].drop_first()));
}

/// One character further into `s`.
pub proof fn lemma_step(s: Seq<char>, n: int)
    requires
        0 <= n < s.len(),
    ensures
        utf8_len(s.take(n + 1)) == utf8_len(s.take(n)) + char_len(s[n]),
        s.skip(n).drop_first() == s.skip(n + 1),
        s.take(0) == Seq::<char>::empty(),
        s.skip(0) == s,
{
    assert(s.take(n + 1) =~= s.take(n).push(s[n]));
    lemma_utf8_len_push(s.take(n), s[n]);
    assert(s.skip(n).drop_first() =~= s.skip(n + 1));
    assert(s.take(0) =~= Seq::<char>::empty());
    assert(s.skip(0) =~= s);
}

/// The end of the first `n` characters of `s` is a character boundary of its encoding, and
/// splits it into the encodings of the two parts.
pub proof fn lemma_encode_split(s: Seq<char>, n: int)
    requires
        0 <= n <= s.len(),
    ensures
        is_char_boundary(encode_utf8(s), utf8_len(s.take(n)) as int),
        encode_utf8(s).take(utf8_len(s.take(n)) as int) == encode_utf8(s.take(n)),
        encode_utf8(s).skip(utf8_len(s.take(n)) as int) == encode_utf8(s.skip(n)),
    decreases n,
{
    encode_utf8_valid_utf8(s);
    if n == 0 {
        assert(s.take(0) =~= Seq::<char>::empty());
        assert(s.skip(0) =~= s);
        assert(encode_utf8(s).take(0) =~= Seq::<u8>::empty());
        assert(encode_utf8(s).skip(0) =~= encode_utf8(s));
    } else {
        let bytes = encode_utf8(s);
        let tail = s.drop_first();
        let head = encode_scalar(s[0] as u32);
        char_is_scalar(s[0]);
        encode_utf8_first_scalar(s);
        lemma_encode_split(tail, n - 1);
        assert(s.take(n).drop_first() =~= tail.take(n - 1));
        assert(s.skip(n) =~= tail.skip(n - 1));
        assert(pop_first_scalar(bytes) =~= encode_utf8(tail));
        let k = utf8_len(tail.take(n - 1)) as int;
        lemma_utf8_len_encode(s);
        lemma_utf8_len_encode(tail);
        lemma_utf8_len_split(tail, n - 1);
        assert(bytes.take(head.len() + k) =~= head + encode_utf8(tail).take(k));
        assert(bytes.skip(head.len() + k) =~= encode_utf8(tail).skip(k));
    }
}

/// Strings with the same encoding hold the same characters.
pub proof fn lemma_encode_injective(a: Seq<char>, b: Seq<char>)
    requires
        encode_utf8(a) == encode_utf8(b),
    ensures
        a == b,
{
    encode_utf8_decode_utf8(a);
    encode_utf8_decode_utf8(b);
}

/// The number of bytes that `c` takes in UTF-8.
pub fn len_utf8(c: char) -> (n: usize)
    ensures
        n == char_len(c),
        1 <= n <= 4,
{
    if c <= '\u{7f}' {
        1
    } else if c <= '\u{7ff}' {
        2
    } else if c <= '\u{ffff}' {
        3
    } else {
        4
    }
}

/// The number of bytes of `s`.
pub fn str_len(s: &str) -> (n: usize)
    ensures
        n == utf8_len(s@),
{
    proof {
        lemma_utf8_len_encode(s@);
    }
    s.as_bytes().len()
}

/// The text of `s` before and from its character `n`, which starts at byte `at`.
pub(crate) fn split_chars(s: &str, at: usize, Ghost(n): Ghost<int>) -> (parts: (&str, &str))
    requires
        0 <= n <= s@.len(),
        at == utf8_len(s@.take(n)),
    ensures
        parts.0@ == s@.take(n),
        parts.1@ == s@.skip(n),
{
    proof {
        lemma_encode_split(s@, n);
    }
    let parts = s.split_at(at);
    proof {
        lemma_utf8_len_encode(s@);
        lemma_utf8_len_split(s@, n);
        assert(encode_utf8(parts.0@) =~= encode_utf8(s@).take(at as int));
        assert(encode_utf8(parts.1@) =~= encode_utf8(s@).skip(at as int));
        lemma_encode_injective(parts.0@, s@.take(n));
        lemma_encode_injective(parts.1@, s@.skip(n));
    }
    parts
}

/// A walk over the characters of a text, which hands each one out with the byte offset at which
/// it ends.
#[derive(Clone, Copy)]
pub struct EnumeratedChars<'a> {
    rest: &'a str,
    offset: usize,
}

impl<'a> EnumeratedChars<'a> {
    /// The characters that have not been handed out yet.
    pub closed spec fn rest(self) -> Seq<char> {
        self.rest@
    }

    /// The number of bytes of the characters that have been handed out.
    pub closed spec fn offset(self) -> nat {
        self.offset as nat
    }

    /// What is still to come: each character with the offset at which it ends.
    pub open spec fn items(self) -> Seq<(nat, char)> {
        Seq::new(
            self.rest().len(),
            |i: int| (self.offset() + utf8_len(self.rest().take(i + 1)), self.rest()[i]),
        )
    }

    /// The offsets fit the machine.
    pub open spec fn wf(self) -> bool {
        self.offset() + utf8_len(self.rest()) <= usize::MAX
    }

    /// The text that has not been handed out yet.
    pub fn as_str(&self) -> (s: &'a str)
        ensures
            s@ == self.rest(),
    {
        self.rest
    }

    /// The offset at which the last character that was handed out ends.
    pub fn pos(&self) -> (n: usize)
        ensures
            n == self.offset(),
    {
        self.offset
    }

    /// The next character, which stays where it is.
    pub fn peek(&self) -> (c: Option<char>)
        ensures
            c == (if self.rest().len() == 0 {
                None
            } else {
                Some(self.rest()[0])
            }),
    {
        if self.rest.is_empty() {
            None
        } else {
            Some(self.rest.get_char(0))
        }
    }

    /// Hands out the next character with the offset at which it ends.
    pub fn next(&mut self) -> (item: Option<(usize, char)>)
        requires
            old(self).wf(),
        ensures
            final(self).wf(),
            match item {
                None => old(self).rest().len() == 0 && *final(self) == *old(self),
                Some((end, c)) => {
                    &&& old(self).rest().len() > 0
                    &&& c == old(self).rest()[0]
                    &&& end == old(self).offset() + char_len(c)
                    &&& final(self).offset() == end
                    &&& final(self).rest() == old(self).rest().drop_first()
                },
            },
    {
        match self.peek() {
            None => None,
            Some(c) => {
                let n: usize = len_utf8(c);
                let ghost before = self.rest@;
                proof {
                    assert(before.take(1) =~= Seq::<char>::empty().push(c));
                    lemma_utf8_len_push(Seq::<char>::empty(), c);
                    assert(before.skip(1) =~= before.drop_first());
                }
                let (_, tail) = split_chars(self.rest, n, Ghost(1int));
                let end: usize = self.offset + n;
                self.rest = tail;
                self.offset = end;
                Some((end, c))
            },
        }
    }
}

/// Walks over the characters of `x` from its start.
pub fn enumerate_chars<'a>(x: &'a str) -> (it: EnumeratedChars<'a>)
    ensures
        it.wf(),
        it.offset() == 0,
        it.rest() == x@,
        it.items() == Seq::new(x@.len(), |i: int| (utf8_len(x@.take(i + 1)), x@[i])),
{
    let n: usize = str_len(x);
    let it = EnumeratedChars { rest: x, offset: 0 };
    assert(it.items() =~= Seq::new(x@.len(), |i: int| (utf8_len(x@.take(i + 1)), x@[i])));
    it
}

/// Whether two texts hold the same characters.
pub fn str_eq(a: &str, b: &str) -> (r: bool)
    ensures
        r == (a@ == b@),
{
    let x = a.as_bytes();
    let y = b.as_bytes();
    if x.len() != y.len() {
        return false;
    }
    let mut i: usize = 0;
    while i < x.len()
        invariant
            x@ == encode_utf8(a@),
            y@ == encode_utf8(b@),
            x.len() == y.len(),
            i <= x.len(),
            forall|j: int| 0 <= j < i ==> x@[j] == y@[j],
        decreases x.len() - i,
    {
        if x[i] != y[i] {
            return false;
        }
        i += 1;
    }
    proof {
        assert(x@ =~= y@);
        lemma_encode_injective(a@, b@);
    }
    true
}

/// What [`EnumeratedChars::next`] hands out, one call after another, is what
/// [`EnumeratedChars::items`] lists: after a call, the rest of that list is still to come.
pub proof fn law_items_come_in_order(before: EnumeratedChars, after: EnumeratedChars)
    requires
        before.rest().len() > 0,
        after.rest() == before.rest().drop_first(),
        after.offset() == before.offset() + char_len(before.rest()[0]),
    ensures
        before.items()[0] == (after.offset(), before.rest()[0]),
        after.items() == before.items().drop_first(),
{
    let s = before.rest();
    assert(s.take(1) =~= Seq::<char>::empty().push(s[0]));
    lemma_utf8_len_push(Seq::<char>::empty(), s[0]);
    assert forall|i: int| 0 <= i < s.len() - 1 implies #[trigger] after.items()[i]
        == before.items().drop_first()[i] by {
        let t = s.drop_first();
        assert(s.take(i + 2).drop_first() =~= t.take(i + 1));
    }
    assert(after.items() =~= before.items().drop_first());
}

} // verus!
