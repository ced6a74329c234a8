//! Splitting text at separator characters, as `str::split` does, and keeping
//! the non-empty pieces, as a path or a request line is read.
use vstd::prelude::*;

verus! {

/// The characters at which text is cut.
#[derive(Clone, Copy, PartialEq, Eq, Debug)]
pub enum Separator {
    /// `/`, between the segments of a path.
    Slash,
    /// `.`, between the octets of a dotted IPv4 address.
    Dot,
    /// Unicode white space, between the words of a request line.
    Whitespace,
}

/// `c` has the Unicode `White_Space` property (what `char::is_whitespace` tests).
pub open spec fn is_unicode_whitespace(c: char) -> bool {
    let u = c as u32;
    ||| 0x09 <= u <= 0x0D
    ||| u == 0x20
    ||| u == 0x85
    ||| u == 0xA0
    ||| u == 0x1680
    ||| 0x2000 <= u <= 0x200A
    ||| u == 0x2028
    ||| u == 0x2029
    ||| u == 0x202F
    ||| u == 0x205F
    ||| u == 0x3000
}

impl Separator {
    /// `c` is a separator of this kind.
    pub open spec fn spec_matches(self, c: char) -> bool {
        match self {
            Separator::Slash => c == '/',
            Separator::Dot => c == '.',
            Separator::Whitespace => is_unicode_whitespace(c),
        }
    }

    /// Tests whether `c` is a separator of this kind.
    pub fn matches(&self, c: char) -> (r: bool)
        ensures
            r == self.spec_matches(c),
    {
        match self {
            Separator::Slash => c == '/',
            Separator::Dot => c == '.',
            Separator::Whitespace => {
                let u = c as u32;
                (0x09 <= u && u <= 0x0D) || u == 0x20 || u == 0x85 || u == 0xA0 || u == 0x1680 || (
                0x2000 <= u && u <= 0x200A) || u == 0x2028 || u == 0x2029 || u == 0x202F || u
                    == 0x205F || u == 0x3000
            },
        }
    }
}

/// The pieces of `s` between separators, empty ones included, in order: what
/// `str::split` yields.
pub open spec fn pieces(s: Seq<char>, sep: Separator) -> Seq<Seq<char>>
    decreases s.len(),
{
    if s.len() == 0 {
        seq![Seq::empty()]
    } else {
        let front = pieces(s.drop_last(), sep);
        if sep.spec_matches(s.last()) {
            front.push(Seq::empty())
        } else {
            front.update(front.len() - 1, front.last().push(s.last()))
        }
    }
}

/// The test that keeps a piece: it is not empty.
pub open spec fn keep_nonempty() -> spec_fn(Seq<char>) -> bool {
    |p: Seq<char>| p.len() > 0
}

/// The non-empty pieces of `s`, in order.
pub open spec fn tokens(s: Seq<char>, sep: Separator) -> Seq<Seq<char>> {
    pieces(s, sep).filter(keep_nonempty())
}

/// The texts that a sequence of string slices holds.
pub open spec fn views(v: Seq<&str>) -> Seq<Seq<char>> {
    Seq::new(v.len(), |i: int| v[i]@)
}

/// There is always at least one piece.
pub proof fn lemma_pieces_len(s: Seq<char>, sep: Separator)
    ensures
        pieces(s, sep).len() >= 1,
    decreases s.len(),
{
    if s.len() > 0 {
        lemma_pieces_len(s.drop_last(), sep);
    }
}

/// Cuts `s` at every separator of kind `sep`, as `str::split` does.
pub fn split_pieces<'a>(s: &'a str, sep: Separator) -> (r: Vec<&'a str>)
    ensures
        views(r@) == pieces(s@, sep),
{
    let len = s.unicode_len();
    let mut out: Vec<&'a str> = Vec::new();
    let mut start: usize = 0;
    let mut i: usize = 0;
    assert(pieces(s@.take(0), sep) =~~= views(out@).push(s@.subrange(0, 0)));
    for c in it: s.chars()
        invariant
            len == s@.len(),
            i == it.index(),
            it.seq() == s@,
            start <= i,
            pieces(s@.take(i as int), sep) == views(out@).push(s@.subrange(start as int, i as int)),
    {
        proof {
            lemma_pieces_len(s@.take(i as int), sep);
        }
        let ghost prev = views(out@);
        assert(s@.take(i + 1).drop_last() =~= s@.take(i as int));
        assert(s@.take(i + 1).last() == c);
        if sep.matches(c) {
            let ghost before = pieces(s@.take(i as int), sep);
            let piece = s.substring_char(start, i);
            out.push(piece);
            start = i + 1;
            assert(views(out@) =~= prev.push(piece@));
            assert(pieces(s@.take(i + 1), sep) == before.push(Seq::empty()));
            assert(before == prev.push(piece@));
            assert(pieces(s@.take(i + 1), sep) =~~= views(out@).push(
                s@.subrange(start as int, i + 1),
            ));
        } else {
            assert(s@.subrange(start as int, i + 1) =~= s@.subrange(start as int, i as int).push(
                c,
            ));
            assert(pieces(s@.take(i + 1), sep) =~= views(out@).push(
                s@.subrange(start as int, i + 1),
            ));
        }
        i = i + 1;
    }
    assert(s@.take(i as int) =~= s@);
    let ghost prev = views(out@);
    let last = s.substring_char(start, len);
    out.push(last);
    assert(views(out@) =~= prev.push(last@));
    out
}

/// The non-empty pieces of `s` between separators of kind `sep`.
pub fn split_tokens<'a>(s: &'a str, sep: Separator) -> (r: Vec<&'a str>)
    ensures
        views(r@) == tokens(s@, sep),
{
    let all = split_pieces(s, sep);
    let mut out: Vec<&'a str> = Vec::new();
    let mut k: usize = 0;
    while k < all.len()
        invariant
            k <= all.len(),
            views(all@) == pieces(s@, sep),
            views(out@) == views(all@).take(k as int).filter(keep_nonempty()),
        decreases all.len() - k,
    {
        let ghost prev = views(out@);
        let piece = all[k];
        assert(views(all@).take(k + 1).drop_last() =~= views(all@).take(k as int));
        assert(views(all@).take(k + 1).last() == piece@);
        reveal_with_fuel(Seq::filter, 1);
        if piece.unicode_len() > 0 {
            out.push(piece);
            assert(views(out@) =~= prev.push(piece@));
        }
        k = k + 1;
    }
    assert(views(all@).take(k as int) =~= views(all@));
    out
}

/// Cutting at a separator: the pieces of `a`, a separator, then `b` are the pieces of
/// `a` followed by the pieces of `b`.
pub proof fn lemma_pieces_concat(a: Seq<char>, c: char, b: Seq<char>, sep: Separator)
    requires
        sep.spec_matches(c),
    ensures
        pieces(a.push(c) + b, sep) =~~= pieces(a, sep) + pieces(b, sep),
    decreases b.len(),
{
    lemma_pieces_len(a, sep);
    if b.len() == 0 {
        assert(a.push(c) + b =~= a.push(c));
        assert(a.push(c).drop_last() =~= a);
    } else {
        let b0 = b.drop_last();
        let x = b.last();
        lemma_pieces_concat(a, c, b0, sep);
        lemma_pieces_len(b0, sep);
        assert((a.push(c) + b).drop_last() =~= a.push(c) + b0);
        assert((a.push(c) + b).last() == x);
    }
}

/// Tokens split the same way: the tokens of `a`, a separator, then `b` are the tokens
/// of `a` followed by the tokens of `b`. So separators at either end, or several in a
/// row, change nothing.
pub proof fn law_tokens_concat(a: Seq<char>, c: char, b: Seq<char>, sep: Separator)
    requires
        sep.spec_matches(c),
    ensures
        tokens(a.push(c) + b, sep) == tokens(a, sep) + tokens(b, sep),
{
    lemma_pieces_concat(a, c, b, sep);
    assert(pieces(a.push(c) + b, sep) == pieces(a, sep) + pieces(b, sep));
    Seq::filter_distributes_over_add(pieces(a, sep), pieces(b, sep), keep_nonempty());
}

/// Text without separators is one token where it is not empty, none where it is.
pub proof fn lemma_tokens_plain(s: Seq<char>, sep: Separator)
    requires
        forall|i: int| 0 <= i < s.len() ==> !sep.spec_matches(#[trigger] s[i]),
    ensures
        pieces(s, sep) =~~= seq![s],
        s.len() > 0 ==> tokens(s, sep) =~~= seq![s],
        s.len() == 0 ==> tokens(s, sep).len() == 0,
    decreases s.len(),
{
    if s.len() > 0 {
        lemma_tokens_plain(s.drop_last(), sep);
        assert(s.drop_last().push(s.last()) =~= s);
    }
    reveal_with_fuel(Seq::filter, 2);
    assert(seq![s].drop_last() =~= Seq::<Seq<char>>::empty());
}

} // verus!
