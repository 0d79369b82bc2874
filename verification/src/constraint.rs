//! Constraint violation translator: decouples the caller-facing
//! validation-error vocabulary from the storage engine's native error
//! representation.
//!
//! A storage error that is not a constraint violation passes through
//! unchanged. For a violation, the violated constraint's name is extracted
//! from the engine's diagnostic message — best-effort matching against the
//! known `Duplicate … '<name>'` shape, taking the last quoted word — and
//! looked up in a caller-supplied table; a hit produces a structured
//! per-field validation error, and anything unrecognized is an internal
//! error, since it signals an unanticipated schema change. This is the
//! only place allowed to parse engine-native error text.

use vstd::prelude::*;

use crate::error::{entries_view, Error, StorageError};
use vstd::string::StrSliceExecFns;
use vstd::string::StringExecFns;

verus! {

/// One known constraint: its engine-side name, the caller-facing field it
/// concerns, and the message reported for it.
pub struct ConstraintMapping {
    pub constraint: String,
    pub field: String,
    pub message: String,
}

/// Word characters as the engine's identifiers use them: ASCII letters,
/// digits, underscore.
pub open spec fn is_word_char(c: char) -> bool {
    (97 <= c as u32 && c as u32 <= 122) || (65 <= c as u32 && c as u32 <= 90) || (48 <= c as u32
        && c as u32 <= 57) || c as u32 == 95
}

/// The marker that opens a duplicate-key diagnostic.
pub open spec fn dup_marker() -> Seq<char> {
    seq!['D', 'u', 'p', 'l', 'i', 'c', 'a', 't', 'e', ' ']
}

/// First index at or after `i` where the marker occurs, else -1.
pub open spec fn first_dup_from(s: Seq<char>, i: int) -> int
    decreases s.len() - i,
{
    if i + 10 > s.len() {
        -1
    } else if s.subrange(i, i + 10) == dup_marker() {
        i
    } else {
        first_dup_from(s, i + 1)
    }
}

/// End of the run of word characters starting at `j`.
pub open spec fn run_end(s: Seq<char>, j: int) -> int
    decreases s.len() - j,
{
    if j >= s.len() {
        j
    } else if is_word_char(s[j]) {
        run_end(s, j + 1)
    } else {
        j
    }
}

/// Whether a quoted word opens at `i`: a quote, at least one word
/// character, and the closing quote right after the run.
pub open spec fn opens_word(s: Seq<char>, i: int) -> bool {
    &&& 0 <= i < s.len()
    &&& s[i] as u32 == 39
    &&& run_end(s, i + 1) < s.len()
    &&& run_end(s, i + 1) > i + 1
    &&& s[run_end(s, i + 1)] as u32 == 39
}

/// Largest index in `[lo, i]` where a quoted word opens, else -1.
pub open spec fn last_open_from(s: Seq<char>, i: int, lo: int) -> int
    decreases i - lo + 1,
{
    if i < lo {
        -1
    } else if opens_word(s, i) {
        i
    } else {
        last_open_from(s, i - 1, lo)
    }
}

/// The constraint name in a diagnostic message: the last single-quoted
/// word that starts after the duplicate marker with at least one
/// character in between, if the marker and such a word exist.
pub open spec fn constraint_name_of(s: Seq<char>) -> Option<Seq<char>> {
    let d = first_dup_from(s, 0);
    if d < 0 {
        None
    } else {
        let i = last_open_from(s, s.len() - 1, d + 11);
        if i < 0 {
            None
        } else {
            Some(s.subrange(i + 1, run_end(s, i + 1)))
        }
    }
}

/// First table entry whose constraint name matches, as (field, message).
pub open spec fn table_lookup(table: Seq<(Seq<char>, Seq<char>, Seq<char>)>, name: Seq<char>)
    -> Option<(Seq<char>, Seq<char>)>
    decreases table.len(),
{
    if table.len() == 0 {
        None
    } else if table[0].0 == name {
        Some((table[0].1, table[0].2))
    } else {
        table_lookup(table.skip(1), name)
    }
}

pub open spec fn table_view(t: Seq<ConstraintMapping>) -> Seq<(Seq<char>, Seq<char>, Seq<char>)> {
    t.map(|i: int, m: ConstraintMapping| (m.constraint@, m.field@, m.message@))
}

fn is_word_char_exec(c: char) -> (r: bool)
    ensures
        r == is_word_char(c),
{
    let u = c as u32;
    (97 <= u && u <= 122) || (65 <= u && u <= 90) || (48 <= u && u <= 57) || u == 95
}

fn dup_at(s: &str, i: usize) -> (r: bool)
    requires
        i + 10 <= s@.len(),
        s@.len() <= usize::MAX,
    ensures
        r == (s@.subrange(i as int, i as int + 10) == dup_marker()),
{
    let hit = s.get_char(i) == 'D' && s.get_char(i + 1) == 'u' && s.get_char(i + 2) == 'p'
        && s.get_char(i + 3) == 'l' && s.get_char(i + 4) == 'i' && s.get_char(i + 5) == 'c'
        && s.get_char(i + 6) == 'a' && s.get_char(i + 7) == 't' && s.get_char(i + 8) == 'e'
        && s.get_char(i + 9) == ' ';
    proof {
        let sub = s@.subrange(i as int, i as int + 10);
        if hit {
            assert(sub =~= dup_marker());
        } else {
            if sub == dup_marker() {
                assert(forall|k: int| 0 <= k < 10 ==> sub[k] == #[trigger] dup_marker()[k]);
                assert(s@[i as int] == 'D');
                assert(s@[i as int + 1] == 'u');
                assert(s@[i as int + 2] == 'p');
                assert(s@[i as int + 3] == 'l');
                assert(s@[i as int + 4] == 'i');
                assert(s@[i as int + 5] == 'c');
                assert(s@[i as int + 6] == 'a');
                assert(s@[i as int + 7] == 't');
                assert(s@[i as int + 8] == 'e');
                assert(s@[i as int + 9] == ' ');
            }
        }
    }
    hit
}

fn find_dup(s: &str) -> (r: Option<usize>)
    ensures
        r is Some <==> first_dup_from(s@, 0) >= 0,
        r is Some ==> r.unwrap() as int == first_dup_from(s@, 0),
        r is Some ==> r.unwrap() + 10 <= s@.len(),
{
    let n = s.unicode_len();
    if n < 10 {
        return None;
    }
    let mut i: usize = 0;
    while i <= n - 10
        invariant
            n == s@.len(),
            n >= 10,
            0 <= i <= n - 10 + 1,
            first_dup_from(s@, 0) == first_dup_from(s@, i as int),
        decreases n - i,
    {
        if dup_at(s, i) {
            return Some(i);
        }
        i += 1;
    }
    assert(first_dup_from(s@, i as int) == -1);
    None
}

fn run_end_exec(s: &str, j: usize) -> (r: usize)
    requires
        j <= s@.len(),
    ensures
        r as int == run_end(s@, j as int),
        j <= r <= s@.len(),
    decreases s@.len() - j,
{
    let n = s.unicode_len();
    if j >= n {
        return j;
    }
    let c = s.get_char(j);
    if is_word_char_exec(c) {
        run_end_exec(s, j + 1)
    } else {
        j
    }
}

fn opens_at(s: &str, i: usize) -> (r: bool)
    requires
        i < s@.len(),
    ensures
        r == opens_word(s@, i as int),
{
    let n = s.unicode_len();
    let c = s.get_char(i);
    if !(c as u32 == 39) {
        return false;
    }
    let e = run_end_exec(s, i + 1);
    if e < n && e > i + 1 {
        let q = s.get_char(e);
        q as u32 == 39
    } else {
        false
    }
}

fn find_last_open(s: &str, d: usize) -> (r: Option<usize>)
    requires
        d + 10 <= s@.len(),
    ensures
        r is Some <==> last_open_from(s@, s@.len() - 1, d as int + 11) >= 0,
        r is Some ==> r.unwrap() as int == last_open_from(s@, s@.len() - 1, d as int + 11),
        r is Some ==> opens_word(s@, r.unwrap() as int),
{
    let n = s.unicode_len();
    let mut i: usize = n;
    while i > 0 && i - 1 > d + 10
        invariant
            n == s@.len(),
            d + 10 <= n,
            0 <= i <= n,
            last_open_from(s@, n as int - 1, d as int + 11) == last_open_from(
                s@,
                i as int - 1,
                d as int + 11,
            ),
        decreases i,
    {
        i -= 1;
        if opens_at(s, i) {
            return Some(i);
        }
    }
    assert(last_open_from(s@, i as int - 1, d as int + 11) == -1);
    None
}

/// Extracts the violated constraint's name from a diagnostic message, if
/// the message has the known duplicate-key shape.
pub fn extract_constraint_name(message: &str) -> (r: Option<String>)
    ensures
        r is Some <==> constraint_name_of(message@) is Some,
        r is Some ==> Some(r.unwrap()@) == constraint_name_of(message@),
{
    let d = match find_dup(message) {
        Some(d) => d,
        None => {
            return None;
        },
    };
    let i = match find_last_open(message, d) {
        Some(i) => i,
        None => {
            return None;
        },
    };
    let n = message.unicode_len();
    assert(i < n);
    let e = run_end_exec(message, i + 1);
    let name = message.substring_char(i + 1, e);
    Some(String::from_str(name))
}

/// Translates a storage error: pass a non-violation through; map a
/// recognized constraint to its field and message as a structured
/// validation error; refuse anything unrecognized as internal.
pub fn translate(e: StorageError, table: &Vec<ConstraintMapping>) -> (r: Error)
    ensures
        !e.constraint_violation ==> r == Error::Storage(e),
        e.constraint_violation && constraint_name_of(e.message@) is None ==> r == Error::Internal,
        e.constraint_violation && constraint_name_of(e.message@) is Some ==> match table_lookup(
            table_view(table@),
            constraint_name_of(e.message@).unwrap(),
        ) {
            None => r == Error::Internal,
            Some((field, msg)) => r matches Error::UnprocessableEntity { errors }
                && entries_view(errors@) == seq![(field, seq![msg])],
        },
{
    if !e.constraint_violation {
        return Error::Storage(e);
    }
    let name = match extract_constraint_name(message_of(&e)) {
        Some(n) => n,
        None => {
            return Error::Internal;
        },
    };
    let ghost tv = table_view(table@);
    let mut idx: usize = 0;
    proof {
        assert(tv.skip(0) =~= tv);
    }
    while idx < table.len()
        invariant
            0 <= idx <= table.len(),
            tv == table_view(table@),
            tv.len() == table.len(),
            e.constraint_violation,
            name@ == constraint_name_of(e.message@).unwrap(),
            constraint_name_of(e.message@) is Some,
            table_lookup(tv, name@) == table_lookup(tv.skip(idx as int), name@),
        decreases table.len() - idx,
    {
        let hit = table[idx].constraint == name;
        proof {
            assert(tv.skip(idx as int)[0] == tv[idx as int]);
        }
        if hit {
            let mut pairs: Vec<(String, String)> = Vec::new();
            pairs.push((table[idx].field.clone(), table[idx].message.clone()));
            let r = Error::unprocessable_entity(pairs);
            proof {
                let pv = pairs@.map(|i: int, p: (String, String)| (p.0@, p.1@));
                assert(tv[idx as int] == (
                    table@[idx as int].constraint@,
                    table@[idx as int].field@,
                    table@[idx as int].message@,
                ));
                assert(pv.len() == 1);
                assert(pv[0] == (table@[idx as int].field@, table@[idx as int].message@));
                assert(pv.drop_last() =~= Seq::<(Seq<char>, Seq<char>)>::empty());
                assert(crate::error::accumulate(pv.drop_last()).len() == 0);
                assert(crate::error::find_key(
                    crate::error::accumulate(pv.drop_last()),
                    pv.last().0,
                ) == -1);
                assert(crate::error::accumulate(pv) =~~= seq![
                    (tv[idx as int].1, seq![tv[idx as int].2]),
                ]);
            }
            return r;
        }
        proof {
            assert(tv.skip(idx as int).skip(1) =~= tv.skip(idx as int + 1));
        }
        idx += 1;
    }
    proof {
        assert(tv.skip(idx as int) =~= Seq::<(Seq<char>, Seq<char>, Seq<char>)>::empty());
    }
    Error::Internal
}

/// The diagnostic message of a storage error.
fn message_of(e: &StorageError) -> (r: &str)
    ensures
        r@ == e.message@,
{
    e.message.as_str()
}

} // verus!
