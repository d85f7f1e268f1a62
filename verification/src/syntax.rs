//! Recognising and taking apart the expressions of garden's configuration
//! syntax.
use vstd::prelude::*;

use crate::text::{
    byte_offset, contains, first_occurrence, lemma_byte_offset_is_boundary, lemma_chars_match_to_bytes,
    lemma_encode_concat, lemma_encode_injective, lemma_encode_len, lemma_encode_split,
    lemma_no_occurrence_before_first, occurs_at, skip_chars, starts_with, str_find, str_starts_with,
};

verus! {

/// Return true if `string` is an `$ exec` expression.
pub fn is_exec(string: &str) -> (r: bool)
    ensures
        r == starts_with(string@, seq!['$', ' ']),
{
    proof {
        reveal_strlit("$ ");
        assert("$ "@ =~= seq!['$', ' ']);
    }
    str_starts_with(string, "$ ")
}

/// Return true if `string` is a `:garden` expression.
pub fn is_garden(string: &str) -> (r: bool)
    ensures
        r == starts_with(string@, seq![':']),
{
    proof {
        reveal_strlit(":");
        assert(":"@ =~= seq![':']);
    }
    str_starts_with(string, ":")
}

/// Return true if `string` is a `%group` expression.
pub fn is_group(string: &str) -> (r: bool)
    ensures
        r == starts_with(string@, seq!['%']),
{
    proof {
        reveal_strlit("%");
        assert("%"@ =~= seq!['%']);
    }
    str_starts_with(string, "%")
}

/// Return true if `string` is a `@tree` expression.
pub fn is_tree(string: &str) -> (r: bool)
    ensures
        r == starts_with(string@, seq!['@']),
{
    proof {
        reveal_strlit("@");
        assert("@"@ =~= seq!['@']);
    }
    str_starts_with(string, "@")
}

/// Return true if `string` is a `graft::value` expression.
pub fn is_graft(string: &str) -> (r: bool)
    ensures
        r == contains(string@, seq![':', ':']),
{
    proof {
        reveal_strlit("::");
        assert("::"@ =~= seq![':', ':']);
    }
    str_find(string, "::").is_some()
}

/// Trim garden, group, and tree prefixes: the first character is removed.
pub fn trim(string: &str) -> (r: String)
    requires
        string@.len() >= 1,
    ensures
        r@ == string@.drop_first(),
{
    let value = skip_chars(string, 1);
    value.to_owned()
}

/// Trim the prefix from an exec expression: the first two characters are removed.
pub fn trim_exec(string: &str) -> (r: String)
    requires
        string@.len() >= 2,
    ensures
        r@ == string@.skip(2),
{
    let cmd = skip_chars(string, 2);
    cmd.to_owned()
}

/// Safely split a string into pre and post-split references.
///
/// The flag tells whether `split` occurs in `string`. If it does, the two
/// parts are what stands before and after its first occurrence; if not, the
/// first part is the whole string and the second is empty.
pub fn split_string<'a>(string: &'a str, split: &str) -> (res: (bool, &'a str, &'a str))
    ensures
        res.0 == contains(string@, split@),
        res.0 ==> exists|k: int|
            first_occurrence(string@, split@, k) && res.1@ == string@.take(k) && res.2@
                == string@.skip(k + split@.len()),
        !res.0 ==> res.1@ == string@ && res.2@.len() == 0,
        res.0 ==> res.1@ + split@ + res.2@ == string@,
        !res.0 ==> res.1@ + res.2@ == string@,
        split@.len() > 0 ==> !contains(res.1@, split@),
{
    let hay = string.as_bytes();
    let needle = split.as_bytes();
    if needle.len() > hay.len() {
        proof {
            if contains(string@, split@) {
                let k = choose|k: int| occurs_at(string@, split@, k);
                lemma_chars_match_to_bytes(string@, split@, k);
            }
            lemma_encode_len(split@);
            reveal_strlit("");
            assert(string@ + ""@ =~= string@);
        }
        return (false, string, "");
    }
    split_within(string, split)
}

/// `split_string` where the separator is no longer than the string in bytes.
fn split_within<'a>(string: &'a str, split: &str) -> (res: (bool, &'a str, &'a str))
    requires
        split.len() <= string.len(),
    ensures
        res.0 == contains(string@, split@),
        res.0 ==> exists|k: int|
            first_occurrence(string@, split@, k) && res.1@ == string@.take(k) && res.2@
                == string@.skip(k + split@.len()),
        !res.0 ==> res.1@ == string@ && res.2@.len() == 0,
        res.0 ==> res.1@ + split@ + res.2@ == string@,
        !res.0 ==> res.1@ + res.2@ == string@,
        split@.len() > 0 ==> !contains(res.1@, split@),
{
    let end = string.len();
    let split_len = split.len();
    // split offset, everything up to this point is before the split
    let found = str_find(string, split);
    let before = found.unwrap_or(end);

    proof {
        lemma_encode_len(split@);
        assert(string@.take(string@.len() as int) =~= string@);
        assert(found is Some <==> contains(string@, split@));
        if !contains(string@, split@) {
            if split@.len() == 0 {
                assert(string@.subrange(0, 0) =~= split@);
                assert(occurs_at(string@, split@, 0));
            }
        }
    }

    let after;  // offset after the split
    let ok = before <= (end - split_len);
    if ok {
        after = before + split_len;
    } else {
        after = before;
    }

    let ghost k: int = if contains(string@, split@) {
        choose|k: int| first_occurrence(string@, split@, k) && before == byte_offset(string@, k)
    } else {
        string@.len() as int
    };
    let ghost m: int = if contains(string@, split@) {
        k + split@.len()
    } else {
        k
    };
    proof {
        let s = string@;
        let p = split@;
        if contains(s, p) {
            lemma_chars_match_to_bytes(s, p, k);
            assert(s.take(k + p.len()) =~= s.take(k) + p);
            lemma_encode_concat(s.take(k), p);
        }
        lemma_byte_offset_is_boundary(s, k);
        lemma_byte_offset_is_boundary(s, m);
        lemma_encode_split(s, k);
        lemma_encode_split(s, m);
    }
    let (head, _) = string.split_at(before);
    let (_, tail) = string.split_at(after);
    proof {
        let s = string@;
        lemma_encode_injective(head@, s.take(k));
        lemma_encode_injective(tail@, s.skip(m));
        assert(s.skip(s.len() as int) =~= Seq::<char>::empty());
        if contains(s, split@) {
            assert(s.take(k) + split@ + s.skip(m) =~= s);
        } else {
            assert(s.take(k) + s.skip(m) =~= s);
        }
        if split@.len() > 0 {
            lemma_no_occurrence_before_first(s, split@, k);
        }
    }
    (ok, head, tail)
}

/// The four prefixed kinds of expression exclude one another: a string is at
/// most one of an `$ exec`, a `:garden`, a `%group` and a `@tree` expression.
pub proof fn lemma_prefix_kinds_exclusive(s: Seq<char>)
    ensures
        !(starts_with(s, seq!['$', ' ']) && starts_with(s, seq![':'])),
        !(starts_with(s, seq!['$', ' ']) && starts_with(s, seq!['%'])),
        !(starts_with(s, seq!['$', ' ']) && starts_with(s, seq!['@'])),
        !(starts_with(s, seq![':']) && starts_with(s, seq!['%'])),
        !(starts_with(s, seq![':']) && starts_with(s, seq!['@'])),
        !(starts_with(s, seq!['%']) && starts_with(s, seq!['@'])),
{
    if s.len() > 0 {
        assert(starts_with(s, seq!['$', ' ']) ==> s[0] == '$') by {
            if starts_with(s, seq!['$', ' ']) {
                assert(s.subrange(0, 2)[0] == s[0]);
            }
        }
        assert(forall|c: char| starts_with(s, seq![c]) ==> s[0] == c) by {
            assert forall|c: char| starts_with(s, seq![c]) implies s[0] == c by {
                assert(s.subrange(0, 1)[0] == s[0]);
            }
        }
    }
}

/// Trimming a `:garden`, `%group` or `@tree` expression removes exactly its
/// prefix character: that character followed by what `trim` returns is the
/// expression again.
pub proof fn lemma_trim_removes_prefix(s: Seq<char>, prefix: char)
    requires
        starts_with(s, seq![prefix]),
    ensures
        s.len() >= 1,
        seq![prefix] + s.drop_first() == s,
{
    assert(s.subrange(0, 1)[0] == s[0]);
    assert(seq![prefix] + s.drop_first() =~= s);
}

/// Trimming an `$ exec` expression removes exactly its `$ ` prefix: the prefix
/// followed by what `trim_exec` returns is the expression again.
pub proof fn lemma_trim_exec_removes_prefix(s: Seq<char>)
    requires
        starts_with(s, seq!['$', ' ']),
    ensures
        s.len() >= 2,
        seq!['$', ' '] + s.skip(2) == s,
{
    assert(s.subrange(0, 2)[0] == s[0]);
    assert(s.subrange(0, 2)[1] == s[1]);
    assert(seq!['$', ' '] + s.skip(2) =~= s);
}

/// `trim_exec` removes what two successive `trim`s remove.
pub proof fn lemma_trim_exec_is_trim_twice(s: Seq<char>)
    requires
        s.len() >= 2,
    ensures
        s.skip(2) == s.drop_first().drop_first(),
{
    assert(s.skip(2) =~= s.drop_first().drop_first());
}

} // verus!
