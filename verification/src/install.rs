//! Registering the preprocessor in a book's `book.toml`.
use vstd::prelude::*;

use crate::markdown::{chars_of, string_of};

verus! {

/// `t` occurs in `s` at position `i`.
pub open spec fn occurs_at(s: Seq<char>, t: Seq<char>, i: int) -> bool {
    0 <= i && i + t.len() <= s.len() && s.subrange(i, i + t.len()) == t
}

pub open spec fn occurs_in(s: Seq<char>, t: Seq<char>) -> bool {
    exists|i: int| occurs_at(s, t, i)
}

/// The new content of `book.toml`, or `None` when the preprocessor is
/// already registered: an empty `[preprocessor.obgraph]` table appended
/// after a blank line, the old content first ended by a newline if it has
/// none.
pub open spec fn config_with_entry(existing: Seq<char>) -> Option<Seq<char>> {
    if occurs_in(existing, "[preprocessor.obgraph]"@) {
        None
    } else {
        let ended = if existing.len() > 0 && existing.last() != '\n' {
            existing.push('\n')
        } else {
            existing
        };
        Some(ended + "\n[preprocessor.obgraph]\n"@)
    }
}

/// Whether `t` occurs in `s`.
fn occurs(s: &Vec<char>, t: &Vec<char>) -> (r: bool)
    ensures
        r == occurs_in(s@, t@),
{
    let n = s.len();
    let m = t.len();
    if m > n {
        proof {
            assert forall|i: int| !occurs_at(s@, t@, i) by {}
        }
        return false;
    }
    let mut i: usize = 0;
    while i <= n - m
        invariant
            n == s@.len(),
            m == t@.len(),
            m <= n,
            i <= n - m + 1,
            forall|j: int| 0 <= j < i ==> !occurs_at(s@, t@, j),
        decreases n - m + 1 - i,
    {
        let mut k: usize = 0;
        while k < m && s[i + k] == t[k]
            invariant
                n == s@.len(),
                m == t@.len(),
                i + m <= n,
                k <= m,
                forall|q: int| 0 <= q < k ==> s@[i + q] == t@[q],
            decreases m - k,
        {
            k = k + 1;
        }
        if k == m {
            proof {
                assert(s@.subrange(i as int, i + m) =~= t@);
                assert(occurs_at(s@, t@, i as int));
            }
            return true;
        }
        proof {
            assert(s@.subrange(i as int, i + m)[k as int] == s@[i + k]);
        }
        i = i + 1;
    }
    proof {
        assert forall|j: int| !occurs_at(s@, t@, j) by {
            if 0 <= j && j + m <= n {
                assert(j < i);
            }
        }
    }
    false
}

/// Adds `[preprocessor.obgraph]` to the content of a `book.toml`; `None`
/// when it is already there.
pub fn add_preprocessor_entry(existing: &str) -> (r: Option<String>)
    ensures
        match config_with_entry(existing@) {
            None => r is None,
            Some(c) => r matches Some(s) && s@ == c,
        },
{
    let chars = chars_of(existing);
    let section = chars_of("[preprocessor.obgraph]");
    if occurs(&chars, &section) {
        return None;
    }
    let mut out = chars;
    if out.len() > 0 && out[out.len() - 1] != '\n' {
        out.push('\n');
    }
    let tail = chars_of("\n[preprocessor.obgraph]\n");
    let mut i: usize = 0;
    let ghost base = out@;
    while i < tail.len()
        invariant
            i <= tail@.len(),
            out@ == base + tail@.take(i as int),
        decreases tail@.len() - i,
    {
        out.push(tail[i]);
        proof {
            assert(tail@.take((i + 1) as int) =~= tail@.take(i as int).push(tail@[i as int]));
        }
        i = i + 1;
    }
    proof {
        assert(tail@.take(tail@.len() as int) =~= tail@);
    }
    Some(string_of(&out))
}

/// Registering twice changes nothing the second time: once added, the
/// entry is found.
pub proof fn lemma_entry_idempotent(existing: Seq<char>)
    ensures
        config_with_entry(existing) matches Some(c) ==> config_with_entry(c) is None,
{
    if let Some(c) = config_with_entry(existing) {
        reveal_strlit("[preprocessor.obgraph]");
        reveal_strlit("\n[preprocessor.obgraph]\n");
        let ended = if existing.len() > 0 && existing.last() != '\n' {
            existing.push('\n')
        } else {
            existing
        };
        let i: int = ended.len() as int + 1;
        assert(c.subrange(i, i + 22) =~= "[preprocessor.obgraph]"@);
        assert(occurs_at(c, "[preprocessor.obgraph]"@, i));
    }
}

/// The entry is left out exactly when `[preprocessor.obgraph]` already
/// occurs in the configuration; otherwise the configuration comes back whole,
/// followed by a line break where it lacked one, a blank line and the
/// `[preprocessor.obgraph]` table header, which then occurs in it.
pub proof fn lemma_entry_added_unless_present(existing: Seq<char>)
    ensures
        config_with_entry(existing) is None <==> occurs_in(existing, "[preprocessor.obgraph]"@),
        config_with_entry(existing) matches Some(c) ==> {
            &&& c.len() >= existing.len() + 24
            &&& c.subrange(0, existing.len() as int) == existing
            &&& occurs_in(c, "[preprocessor.obgraph]"@)
            &&& c.subrange(c.len() - 24, c.len() as int) == "\n[preprocessor.obgraph]\n"@
            &&& if existing.len() > 0 && existing.last() != '\n' {
                c.len() == existing.len() + 25 && c[existing.len() as int] == '\n'
            } else {
                c.len() == existing.len() + 24
            }
        },
{
    reveal_strlit("[preprocessor.obgraph]");
    reveal_strlit("\n[preprocessor.obgraph]\n");
    if let Some(c) = config_with_entry(existing) {
        let ended = if existing.len() > 0 && existing.last() != '\n' {
            existing.push('\n')
        } else {
            existing
        };
        assert(c.subrange(0, existing.len() as int) =~= existing);
        assert(c.subrange(c.len() - 24, c.len() as int) =~= "\n[preprocessor.obgraph]\n"@);
        let i: int = ended.len() as int + 1;
        assert(c.subrange(i, i + 22) =~= "[preprocessor.obgraph]"@);
        assert(occurs_at(c, "[preprocessor.obgraph]"@, i));
    }
}

} // verus!
