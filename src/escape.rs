use vstd::prelude::*;

verus! {

/// What `str::escape_default` makes of a string.
pub uninterp spec fn escape_default_of(s: Seq<char>) -> Seq<char>;

/// Relies on `str::escape_default` (collected by `to_string`): every character
/// is replaced by its Rust escape form, and the result depends on the
/// characters alone.
#[verifier::external_body]
fn escape_default(s: &str) -> (r: String)
    ensures
        r@ == escape_default_of(s@),
{
    s.escape_default().to_string()
}

/// A character that may follow a backslash in an escape sequence that is
/// left as it stands.
pub open spec fn is_escape_letter(c: char) -> bool {
    c == 'n' || c == 't' || c == 'r' || c == '\\' || c == '"'
}

/// A character that may not stand raw inside a double-quoted Lua string.
pub open spec fn is_raw_special(c: char) -> bool {
    c == '\n' || c == '\t' || c == '\r' || c == '"'
}

/// Whether `s`, read from the left, holds a backslash that does not begin a
/// recognised escape pair, or one of the raw special characters outside such
/// a pair.
pub open spec fn needs_escape(s: Seq<char>) -> bool
    decreases s.len(),
{
    if s.len() == 0 {
        false
    } else if s[0] == '\\' {
        s.len() == 1 || !is_escape_letter(s[1]) || needs_escape(s.skip(2))
    } else {
        is_raw_special(s[0]) || needs_escape(s.skip(1))
    }
}

/// Whether the rest of a string, just after a backslash, needs escaping.
pub open spec fn needs_escape_after_backslash(s: Seq<char>) -> bool {
    s.len() == 0 || !is_escape_letter(s[0]) || needs_escape(s.skip(1))
}

/// The text of `s` between the quotes of a Lua string: `s` itself, or every
/// character escaped where `s` cannot stand as it is.
pub open spec fn escaped(s: Seq<char>) -> Seq<char> {
    if needs_escape(s) {
        escape_default_of(s)
    } else {
        s
    }
}

/// Scans `s` for a reason to escape it.
fn scan_needs_escape(s: &str) -> (r: bool)
    ensures
        r == needs_escape(s@),
{
    let mut after_backslash = false;
    assert(s@.skip(0) =~= s@);
    for c in it: s.chars()
        invariant
            it.seq() == s@,
            if after_backslash {
                needs_escape(s@) == needs_escape_after_backslash(s@.skip(it.index()))
            } else {
                needs_escape(s@) == needs_escape(s@.skip(it.index()))
            },
    {
        let ghost rest = s@.skip(it.index());
        assert(rest[0] == c);
        assert(rest.skip(1) =~= s@.skip(it.index() + 1));
        if after_backslash {
            if !(c == 'n' || c == 't' || c == 'r' || c == '\\' || c == '"') {
                return true;
            }
            after_backslash = false;
        } else if c == '\\' {
            proof {
                if rest.len() >= 2 {
                    assert(rest.skip(2) =~= rest.skip(1).skip(1));
                }
            }
            after_backslash = true;
        } else if c == '\n' || c == '\t' || c == '\r' || c == '"' {
            return true;
        }
    }
    assert(s@.skip(s@.len() as int) =~= Seq::<char>::empty());
    after_backslash
}

/// The text that stands between the quotes of the Lua string for `string`:
/// the string unchanged where it holds only recognised escape pairs and no raw
/// special character, and otherwise every character escaped.
pub fn escape_string(string: &str) -> (r: String)
    ensures
        r@ == escaped(string@),
        !needs_escape(string@) ==> r@ == string@,
        needs_escape(string@) ==> r@ == escape_default_of(string@),
{
    if scan_needs_escape(string) {
        escape_default(string)
    } else {
        string.to_owned()
    }
}

/// In a string without backslashes, escaping is owed exactly where a raw
/// newline, tab, carriage return or double quote occurs.
pub proof fn lemma_escape_without_backslash(s: Seq<char>)
    requires
        forall|i: int| 0 <= i < s.len() ==> s[i] != '\\',
    ensures
        needs_escape(s) <==> exists|i: int| 0 <= i < s.len() && is_raw_special(#[trigger] s[i]),
    decreases s.len(),
{
    if s.len() > 0 {
        let rest = s.skip(1);
        assert forall|i: int| 0 <= i < rest.len() implies rest[i] != '\\' by {
            assert(rest[i] == s[i + 1]);
        }
        lemma_escape_without_backslash(rest);
        if exists|i: int| 0 <= i < s.len() && is_raw_special(#[trigger] s[i]) {
            let i = choose|i: int| 0 <= i < s.len() && is_raw_special(#[trigger] s[i]);
            if i > 0 {
                assert(is_raw_special(rest[i - 1]));
            }
        }
        if exists|i: int| 0 <= i < rest.len() && is_raw_special(#[trigger] rest[i]) {
            let i = choose|i: int| 0 <= i < rest.len() && is_raw_special(#[trigger] rest[i]);
            assert(is_raw_special(s[i + 1]));
        }
    }
}

} // verus!
