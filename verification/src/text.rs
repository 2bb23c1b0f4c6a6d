//! Operations on strings.
use crate::sets::StrSet;
use vstd::prelude::*;
use vstd::string::StrSliceExecFns;

verus! {

/// A character with ASCII letters 'A' to 'Z' mapped to 'a' to 'z'.
pub open spec fn ascii_lower(c: char) -> char {
    if 'A' <= c && c <= 'Z' {
        ((c as int) + 32) as char
    } else {
        c
    }
}

/// A string with ASCII letters 'A' to 'Z' mapped to 'a' to 'z', and other characters unchanged.
pub open spec fn ascii_lowercase(s: Seq<char>) -> Seq<char> {
    s.map_values(|c: char| ascii_lower(c))
}

/// `str::to_ascii_lowercase` from std. Its documentation: ASCII letters 'A' to 'Z' are mapped to
/// 'a' to 'z', and non-ASCII letters are unchanged; the contract states exactly that.
#[verifier::external_body]
pub(crate) fn to_ascii_lowercase(s: &str) -> (r: String)
    ensures
        r@ == ascii_lowercase(s@),
{
    s.to_ascii_lowercase()
}

/// Whether a character has the Unicode property `White_Space`, which `char::is_whitespace` tests.
pub open spec fn white_space(c: char) -> bool {
    ||| '\u{9}' <= c && c <= '\u{d}'
    ||| c == ' '
    ||| c == '\u{85}'
    ||| c == '\u{a0}'
    ||| c == '\u{1680}'
    ||| '\u{2000}' <= c && c <= '\u{200a}'
    ||| c == '\u{2028}'
    ||| c == '\u{2029}'
    ||| c == '\u{202f}'
    ||| c == '\u{205f}'
    ||| c == '\u{3000}'
}

/// The number of white space characters at the start of a string.
pub open spec fn leading_space(s: Seq<char>) -> nat
    decreases s.len(),
{
    if s.len() > 0 && white_space(s[0]) {
        1 + leading_space(s.drop_first())
    } else {
        0
    }
}

/// The number of white space characters at the end of a string.
pub open spec fn trailing_space(s: Seq<char>) -> nat
    decreases s.len(),
{
    if s.len() > 0 && white_space(s.last()) {
        1 + trailing_space(s.drop_last())
    } else {
        0
    }
}

/// A string without its leading and trailing white space.
pub open spec fn trimmed(s: Seq<char>) -> Seq<char> {
    let rest = s.skip(leading_space(s) as int);
    rest.take(rest.len() - trailing_space(rest))
}

/// `str::trim` from std, which its documentation describes as returning the string with leading
/// and trailing white space removed, white space being the characters of the Unicode property
/// `White_Space`; the contract states exactly that.
#[verifier::external_body]
pub(crate) fn trim(s: &str) -> (r: &str)
    ensures
        r@ == trimmed(s@),
{
    s.trim()
}

/// What `str::to_lowercase` returns for a string: its Unicode lowercase.
pub uninterp spec fn lowercased(s: Seq<char>) -> Seq<char>;

/// `str::to_lowercase` from std. The contract only names its result: the Unicode lowercase mapping,
/// which maps most characters on their own and a final capital sigma by its context, and which is
/// not spelled out here.
#[verifier::external_body]
pub(crate) fn to_lowercase(s: &str) -> (r: String)
    ensures
        r@ == lowercased(s@),
{
    s.to_lowercase()
}

/// Whether the bytes `a` come after the bytes `b` in lexicographic order.
pub open spec fn bytes_after(a: Seq<u8>, b: Seq<u8>) -> bool
    decreases a.len(),
{
    if a.len() == 0 {
        false
    } else if b.len() == 0 {
        true
    } else if a[0] != b[0] {
        a[0] > b[0]
    } else {
        bytes_after(a.drop_first(), b.drop_first())
    }
}

/// Whether the string `a` comes after the string `b`, as `String`'s order has it: by the
/// lexicographic order of their UTF-8 bytes.
pub open spec fn str_after(a: Seq<char>, b: Seq<char>) -> bool {
    bytes_after(vstd::utf8::encode_utf8(a), vstd::utf8::encode_utf8(b))
}

/// Whether the string `a` comes after the string `b`.
pub fn is_after(a: &str, b: &str) -> (r: bool)
    ensures
        r == str_after(a@, b@),
{
    let x = a.as_bytes();
    let y = b.as_bytes();
    let mut i: usize = 0;
    assert(x@.skip(0) =~= x@);
    assert(y@.skip(0) =~= y@);
    while i < x.len() && i < y.len() && x[i] == y[i]
        invariant
            i <= x@.len(),
            i <= y@.len(),
            x@ == vstd::utf8::encode_utf8(a@),
            y@ == vstd::utf8::encode_utf8(b@),
            bytes_after(x@, y@) == bytes_after(x@.skip(i as int), y@.skip(i as int)),
        decreases x.len() - i,
    {
        assert(x@.skip(i as int).drop_first() =~= x@.skip(i + 1));
        assert(y@.skip(i as int).drop_first() =~= y@.skip(i + 1));
        i += 1;
    }
    if i == x.len() {
        false
    } else if i == y.len() {
        true
    } else {
        assert(x@.skip(i as int)[0] == x@[i as int]);
        assert(y@.skip(i as int)[0] == y@[i as int]);
        x[i] > y[i]
    }
}

/// The first `n` characters of a string, or all of them if it has fewer.
pub fn first_chars(s: &str, n: usize) -> (r: String)
    ensures
        r@ == s@.take(if n < s@.len() { n as int } else { s@.len() as int }),
{
    let len = s.unicode_len();
    let end = if n < len {
        n
    } else {
        len
    };
    let r = s.substring_char(0, end).to_owned();
    assert(s@.subrange(0, end as int) =~= s@.take(end as int));
    r
}

/// The pieces of a string between the character '|'; a string without it is one piece.
pub open spec fn pipe_pieces(s: Seq<char>) -> Seq<Seq<char>>
    decreases s.len(),
{
    if s.len() == 0 {
        seq![Seq::empty()]
    } else {
        let prev = pipe_pieces(s.drop_last());
        if s.last() == '|' {
            prev.push(Seq::empty())
        } else {
            prev.update(prev.len() - 1, prev.last().push(s.last()))
        }
    }
}

proof fn lemma_pipe_pieces_nonempty(s: Seq<char>)
    ensures
        pipe_pieces(s).len() > 0,
    decreases s.len(),
{
    if s.len() > 0 {
        lemma_pipe_pieces_nonempty(s.drop_last());
    }
}

/// The set of pieces of a pipe-separated value, or the empty set for no value.
pub open spec fn pipe_set(value: Option<Seq<char>>) -> Set<Seq<char>> {
    match value {
        Some(v) => pipe_pieces(v).to_set(),
        None => Set::empty(),
    }
}

/// Splits a pipe-separated value into the set of its pieces; no value gives the empty set.
pub fn parse_pipe_separated_value(value: Option<String>) -> (r: StrSet)
    ensures
        r.wf(),
        r@ == pipe_set(match value {
            Some(v) => Some(v@),
            None => None,
        }),
{
    match value {
        None => StrSet::new(),
        Some(v) => {
            let s = v.as_str();
            let n = s.unicode_len();
            let mut set = StrSet::new();
            let mut start: usize = 0;
            let mut i: usize = 0;
            assert(s@.take(0) =~= Seq::<char>::empty());
            while i < n
                invariant
                    n == s@.len(),
                    start <= i <= n,
                    set.wf(),
                    pipe_pieces(s@.take(i as int)).len() > 0,
                    pipe_pieces(s@.take(i as int)).last() == s@.subrange(start as int, i as int),
                    set@ == pipe_pieces(s@.take(i as int)).drop_last().to_set(),
                decreases n - i,
            {
                let c = s.get_char(i);
                let ghost prev = pipe_pieces(s@.take(i as int));
                assert(s@.take(i + 1).drop_last() =~= s@.take(i as int));
                assert(s@.take(i + 1).last() == c);
                if c == '|' {
                    let piece = s.substring_char(start, i).to_owned();
                    set.insert(piece);
                    assert(pipe_pieces(s@.take(i + 1)) == prev.push(Seq::empty()));
                    assert(pipe_pieces(s@.take(i + 1)).drop_last() =~= prev);
                    assert(prev =~= prev.drop_last().push(prev.last()));
                    proof {
                        prev.drop_last().lemma_push_to_set_commute(prev.last());
                    }
                    assert(s@.subrange((i + 1) as int, (i + 1) as int) =~= Seq::<char>::empty());
                    start = i + 1;
                } else {
                    assert(pipe_pieces(s@.take(i + 1)) == prev.update(
                        prev.len() - 1,
                        prev.last().push(c),
                    ));
                    assert(pipe_pieces(s@.take(i + 1)).drop_last() =~= prev.drop_last());
                    assert(s@.subrange(start as int, i + 1) =~= s@.subrange(start as int, i as int).push(c));
                }
                i += 1;
            }
            let last = s.substring_char(start, n).to_owned();
            set.insert(last);
            let ghost pieces = pipe_pieces(s@.take(n as int));
            assert(s@.take(n as int) =~= s@);
            assert(pieces =~= pieces.drop_last().push(pieces.last()));
            proof {
                pieces.drop_last().lemma_push_to_set_commute(pieces.last());
            }
            set
        },
    }
}

} // verus!
