//! Characters and strings: splitting into pieces, and the few calls into
//! std's text handling that the library relies on.

use vstd::prelude::*;
use vstd::utf8::*;

verus! {

/// Splits `s` at the elements for which `sep` holds, scanning left to right:
/// the pieces completed so far (empty ones left out) and the piece being built.
pub open spec fn split_acc<T>(s: Seq<T>, sep: spec_fn(T) -> bool) -> (Seq<Seq<T>>, Seq<T>)
    decreases s.len(),
{
    if s.len() == 0 {
        (Seq::empty(), Seq::empty())
    } else {
        let (done, cur) = split_acc(s.drop_last(), sep);
        if sep(s.last()) {
            if cur.len() > 0 {
                (done.push(cur), Seq::empty())
            } else {
                (done, Seq::empty())
            }
        } else {
            (done, cur.push(s.last()))
        }
    }
}

/// The maximal non-empty runs of `s` that hold no separator, in order.
pub open spec fn pieces<T>(s: Seq<T>, sep: spec_fn(T) -> bool) -> Seq<Seq<T>> {
    let (done, cur) = split_acc(s, sep);
    if cur.len() > 0 {
        done.push(cur)
    } else {
        done
    }
}

/// The characters that std's `split_ascii_whitespace` splits at.
pub open spec fn is_ascii_space(c: char) -> bool {
    c == ' ' || c == '\t' || c == '\n' || c == '\x0C' || c == '\r'
}

/// The separator for lines (`at_spaces == false`) or for tokens within a line.
pub open spec fn char_sep(at_spaces: bool) -> spec_fn(char) -> bool {
    if at_spaces {
        |c: char| is_ascii_space(c)
    } else {
        |c: char| c == '\n'
    }
}

/// A sequence holding no separator is one piece still being built.
pub proof fn lemma_split_acc_no_sep<T>(s: Seq<T>, sep: spec_fn(T) -> bool)
    requires
        forall|i: int| 0 <= i < s.len() ==> !sep(#[trigger] s[i]),
    ensures
        split_acc(s, sep) == (Seq::<Seq<T>>::empty(), s),
    decreases s.len(),
{
    if s.len() > 0 {
        let t = s.drop_last();
        assert forall|i: int| 0 <= i < t.len() implies !sep(#[trigger] t[i]) by {
            assert(t[i] == s[i]);
        }
        lemma_split_acc_no_sep(t, sep);
        assert(t.push(s.last()) =~= s);
    }
}

/// Splitting a concatenation whose first part ends at a piece boundary splits
/// the two parts separately.
pub proof fn lemma_split_acc_concat<T>(a: Seq<T>, b: Seq<T>, sep: spec_fn(T) -> bool)
    requires
        split_acc(a, sep).1.len() == 0,
    ensures
        split_acc(a + b, sep) == (split_acc(a, sep).0 + split_acc(b, sep).0, split_acc(b, sep).1),
    decreases b.len(),
{
    if b.len() == 0 {
        assert(a + b =~= a);
        assert(split_acc(a, sep).0 + Seq::<Seq<T>>::empty() =~= split_acc(a, sep).0);
    } else {
        let b0 = b.drop_last();
        lemma_split_acc_concat(a, b0, sep);
        assert((a + b).drop_last() =~= a + b0);
        assert((a + b).last() == b.last());
        let da = split_acc(a, sep).0;
        let db = split_acc(b0, sep).0;
        let cb = split_acc(b0, sep).1;
        assert((da + db).push(cb) =~= da + db.push(cb));
    }
}

/// A non-empty run without separators, closed by a separator, is one piece.
pub proof fn lemma_split_acc_closed_piece<T>(x: Seq<T>, e: T, sep: spec_fn(T) -> bool)
    requires
        x.len() > 0,
        forall|i: int| 0 <= i < x.len() ==> !sep(#[trigger] x[i]),
        sep(e),
    ensures
        split_acc(x.push(e), sep) == (seq![x], Seq::<T>::empty()),
{
    lemma_split_acc_no_sep(x, sep);
    assert(x.push(e).drop_last() =~= x);
    assert(Seq::<Seq<T>>::empty().push(x) =~= seq![x]);
}

/// Every piece is non-empty and holds no separator.
pub proof fn lemma_pieces_clean<T>(s: Seq<T>, sep: spec_fn(T) -> bool)
    ensures
        forall|k: int|
            0 <= k < pieces(s, sep).len() ==> #[trigger] pieces(s, sep)[k].len() > 0,
        forall|k: int, i: int|
            0 <= k < pieces(s, sep).len() && 0 <= i < pieces(s, sep)[k].len() ==> !sep(
                #[trigger] pieces(s, sep)[k][i],
            ),
{
    lemma_split_acc_clean(s, sep);
}

proof fn lemma_split_acc_clean<T>(s: Seq<T>, sep: spec_fn(T) -> bool)
    ensures
        forall|k: int|
            0 <= k < split_acc(s, sep).0.len() ==> #[trigger] split_acc(s, sep).0[k].len() > 0,
        forall|k: int, i: int|
            0 <= k < split_acc(s, sep).0.len() && 0 <= i < split_acc(s, sep).0[k].len() ==> !sep(
                #[trigger] split_acc(s, sep).0[k][i],
            ),
        forall|i: int| 0 <= i < split_acc(s, sep).1.len() ==> !sep(#[trigger] split_acc(s, sep).1[i]),
    decreases s.len(),
{
    if s.len() > 0 {
        let t = s.drop_last();
        lemma_split_acc_clean(t, sep);
        let d = split_acc(t, sep).0;
        let c = split_acc(t, sep).1;
        let x = s.last();
        if sep(x) && c.len() > 0 {
            let d2 = d.push(c);
            assert(split_acc(s, sep).0 == d2);
            assert forall|k: int| 0 <= k < d2.len() implies #[trigger] d2[k].len() > 0 by {
                if k < d.len() {
                    assert(d2[k] == d[k]);
                }
            }
            assert forall|k: int, i: int| 0 <= k < d2.len() && 0 <= i < d2[k].len() implies !sep(
                #[trigger] d2[k][i],
            ) by {
                if k < d.len() {
                    assert(d2[k] == d[k]);
                } else {
                    assert(d2[k] == c);
                }
            }
        } else if !sep(x) {
            let c2 = c.push(x);
            assert(split_acc(s, sep).1 == c2);
            assert forall|i: int| 0 <= i < c2.len() implies !sep(#[trigger] c2[i]) by {
                if i < c.len() {
                    assert(c2[i] == c[i]);
                }
            }
        }
    }
}

/// Whether `c` has Unicode's Alphabetic property.
pub uninterp spec fn alphabetic(c: char) -> bool;

/// Relies on `char::is_alphabetic`: whether the character has the Unicode
/// Alphabetic property, which depends on the character alone.
#[verifier::external_body]
pub(crate) fn is_alphabetic(c: char) -> (r: bool)
    ensures
        r == alphabetic(c),
{
    c.is_alphabetic()
}

/// The lower-case mapping of a character, as Unicode defines it: one or more characters.
pub uninterp spec fn lower_char(c: char) -> Seq<char>;

/// Relies on `char::to_lowercase`: the characters of the character's
/// lower-case mapping, which depends on the character alone.
#[verifier::external_body]
pub(crate) fn lowercase_chars(c: char) -> (r: Vec<char>)
    ensures
        r@ == lower_char(c),
{
    c.to_lowercase().collect()
}

/// Whether two character sequences are equal.
pub fn chars_equal(a: &[char], b: &[char]) -> (r: bool)
    ensures
        r == (a@ == b@),
{
    if a.len() != b.len() {
        return false;
    }
    for i in 0..a.len()
        invariant
            a@.len() == b@.len(),
            forall|k: int| 0 <= k < i ==> #[trigger] a@[k] == b@[k],
    {
        if a[i] != b[i] {
            return false;
        }
    }
    assert(a@ =~= b@);
    true
}

/// Relies on `std::str::from_utf8`: the text the bytes encode, or an error
/// when they are not valid UTF-8.
#[verifier::external_body]
pub(crate) fn str_from_utf8(b: &[u8]) -> (r: Result<&str, std::str::Utf8Error>)
    ensures
        match r {
            Ok(s) => valid_utf8(b@) && s@ == decode_utf8(b@),
            Err(_) => !valid_utf8(b@),
        },
{
    std::str::from_utf8(b)
}

/// Relies on `String`'s `FromIterator<&char>`: the string of the characters, in order.
#[verifier::external_body]
pub(crate) fn string_from_chars(v: &[char]) -> (s: String)
    ensures
        s@ == v@,
{
    String::from_iter(v)
}

/// The characters of `s`, in order.
pub fn chars_of(s: &str) -> (r: Vec<char>)
    ensures
        r@ == s@,
{
    let mut v: Vec<char> = Vec::new();
    for c in it: s.chars()
        invariant
            v@ == it.seq().take(it.index() as int),
    {
        v.push(c);
    }
    proof {
        broadcast use vstd::string::axiom_spec_iter;

    }
    assert(v@ =~= s@);
    v
}

/// Whether `c` separates lines (`at_spaces == false`) or tokens.
fn is_separator(c: char, at_spaces: bool) -> (r: bool)
    ensures
        r == char_sep(at_spaces)(c),
{
    if at_spaces {
        c == ' ' || c == '\t' || c == '\n' || c == '\x0C' || c == '\r'
    } else {
        c == '\n'
    }
}

/// Splits `text` into its lines (`at_spaces == false`) or its tokens, leaving
/// out empty pieces.
pub fn split_chars(text: &[char], at_spaces: bool) -> (r: Vec<Vec<char>>)
    ensures
        r@.map_values(|v: Vec<char>| v@) == pieces(text@, char_sep(at_spaces)),
{
    let ghost sep = char_sep(at_spaces);
    let mut done: Vec<Vec<char>> = Vec::new();
    let mut cur: Vec<char> = Vec::new();
    for i in 0..text.len()
        invariant
            sep == char_sep(at_spaces),
            (done@.map_values(|v: Vec<char>| v@), cur@) == split_acc(text@.subrange(0, i as int), sep),
    {
        let c = text[i];
        assert(text@.subrange(0, i + 1).drop_last() =~= text@.subrange(0, i as int));
        if is_separator(c, at_spaces) {
            if cur.len() > 0 {
                done.push(cur);
                assert(done@.map_values(|v: Vec<char>| v@) =~= split_acc(text@.subrange(0, i as int), sep).0.push(
                    split_acc(text@.subrange(0, i as int), sep).1,
                ));
            }
            cur = Vec::new();
        } else {
            cur.push(c);
        }
    }
    assert(text@.subrange(0, text@.len() as int) =~= text@);
    if cur.len() > 0 {
        let ghost before = done@.map_values(|v: Vec<char>| v@);
        done.push(cur);
        assert(done@.map_values(|v: Vec<char>| v@) =~= before.push(split_acc(text@, sep).1));
    }
    done
}

} // verus!
