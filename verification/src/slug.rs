//! Slug derivation for article titles: words of alphabetic characters
//! (quotes allowed inside, then dropped), ASCII-lowercased and joined
//! with hyphens.

use vstd::prelude::*;

use crate::token::push_char;
use vstd::string::StrSliceExecFns;

verus! {

/// Whether a character has the Unicode `Alphabetic` property. What it is
/// on given characters only the character tables know.
pub uninterp spec fn alphabetic(c: char) -> bool;

/// Relies on `char::is_alphabetic`: the Unicode `Alphabetic` property,
/// a pure function of the character.
#[verifier::external_body]
fn is_alphabetic_exec(c: char) -> (r: bool)
    ensures
        r == alphabetic(c),
{
    c.is_alphabetic()
}

/// Quote characters: dropped from words, but they do not break one.
pub open spec fn is_quote(c: char) -> bool {
    c as u32 == 39 || c as u32 == 34
}

/// Characters that continue a word.
pub open spec fn keeps_word(c: char) -> bool {
    is_quote(c) || alphabetic(c)
}

/// ASCII uppercase letters are lowered; everything else is unchanged.
pub open spec fn ascii_lower(c: char) -> char {
    if 65 <= c as u32 && c as u32 <= 90 {
        ((c as u8) + 32) as char
    } else {
        c
    }
}

/// The slug state after reading a prefix: whether the prefix ends inside
/// a word, whether any word has started, and the output so far. A new
/// word appends a hyphen if one came before it; quotes are dropped;
/// everything else kept is lowered.
pub open spec fn slug_state(s: Seq<char>) -> (bool, bool, Seq<char>)
    decreases s.len(),
{
    if s.len() == 0 {
        (false, false, Seq::empty())
    } else {
        let (in_word, seen, out) = slug_state(s.drop_last());
        let c = s.last();
        if keeps_word(c) {
            let out1 = if !in_word && seen {
                out.push('-')
            } else {
                out
            };
            let out2 = if is_quote(c) {
                out1
            } else {
                out1.push(ascii_lower(c))
            };
            (true, true, out2)
        } else {
            (false, seen, out)
        }
    }
}

/// The slug of a title.
pub open spec fn slug_of(s: Seq<char>) -> Seq<char> {
    slug_state(s).2
}

fn ascii_lower_exec(c: char) -> (r: char)
    ensures
        r == ascii_lower(c),
{
    let u = c as u32;
    if 65 <= u && u <= 90 {
        ((c as u8) + 32) as char
    } else {
        c
    }
}

/// Derives the slug of a title: maximal runs of alphabetic or quote
/// characters become words; quotes are dropped and ASCII letters lowered
/// inside each word; words are joined with `-`.
pub fn slugify(title: &str) -> (r: String)
    ensures
        r@ == slug_of(title@),
{
    let n = title.unicode_len();
    let mut out = String::new();
    let mut in_word = false;
    let mut seen = false;
    let mut i: usize = 0;
    proof {
        assert(title@.take(0) =~= Seq::<char>::empty());
    }
    while i < n
        invariant
            0 <= i <= n,
            n == title@.len(),
            slug_state(title@.take(i as int)) == (in_word, seen, out@),
        decreases n - i,
    {
        let c = title.get_char(i);
        let quote = c as u32 == 39 || c as u32 == 34;
        if quote || is_alphabetic_exec(c) {
            if !in_word && seen {
                push_char(&mut out, '-');
            }
            if !quote {
                push_char(&mut out, ascii_lower_exec(c));
            }
            in_word = true;
            seen = true;
        } else {
            in_word = false;
        }
        proof {
            let cur = title@.take(i + 1);
            assert(cur.drop_last() =~= title@.take(i as int));
            assert(cur.last() == title@[i as int]);
        }
        i += 1;
    }
    proof {
        assert(title@.take(n as int) =~= title@);
    }
    out
}

} // verus!
