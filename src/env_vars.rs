use vstd::prelude::*;
use crate::text::{find_char, views};

verus! {

/// A character that may follow `$` in a bare reference: the range `A` to `z`
/// (which also holds `[`, `\`, `]`, `^`, `_` and the backtick) or a digit from `1`.
pub open spec fn name_char(c: char) -> bool {
    ('A' <= c && c <= 'z') || ('1' <= c && c <= '9')
}

/// The first `}` at or after `from`, unless a line break comes first.
pub open spec fn brace_close(s: Seq<char>, from: int) -> Option<int>
    decreases s.len() - from,
{
    if from < 0 || from >= s.len() {
        None
    } else if s[from] == '}' {
        Some(from)
    } else if s[from] == '\n' {
        None
    } else {
        brace_close(s, from + 1)
    }
}

/// Where the run of name characters that starts at `from` ends.
pub open spec fn name_end(s: Seq<char>, from: int) -> int
    decreases s.len() - from,
{
    if 0 <= from < s.len() && name_char(s[from]) {
        name_end(s, from + 1)
    } else {
        from
    }
}

/// The index of the first `c` in `s`, or the length of `s` when there is none.
pub open spec fn index_of(s: Seq<char>, c: char) -> int
    decreases s.len(),
{
    if s.len() == 0 {
        0
    } else if s[0] == c {
        0
    } else {
        1 + index_of(s.drop_first(), c)
    }
}

/// The environment variables referenced in `s` from position `i` on, in order.
///
/// A reference is `${...}` up to the first `}` on the same line, or `$` and a
/// run of name characters; references do not overlap. In `${NAME:-default}`,
/// `${NAME-default}` or `${NAME:default}` the name is what comes before the
/// first `:` of the part before the first `-`; the part after that `-` is
/// scanned for references too.
pub open spec fn env_refs_at(s: Seq<char>, i: int) -> Seq<Seq<char>>
    decreases s.len() - i,
{
    if i < 0 || i >= s.len() {
        seq![]
    } else if s[i] == '$' && i + 1 < s.len() && s[i + 1] == '{' && brace_close(s, i + 2) is Some
        && i + 2 <= brace_close(s, i + 2)->0 < s.len() {
        let k = brace_close(s, i + 2)->0;
        let inner = s.subrange(i + 2, k);
        let d = index_of(inner, '-');
        let head = inner.subrange(0, d);
        let name = head.subrange(0, index_of(head, ':'));
        let nested = if 0 <= d < inner.len() {
            env_refs_at(inner.subrange(d + 1, inner.len() as int), 0)
        } else {
            seq![]
        };
        seq![name] + nested + env_refs_at(s, k + 1)
    } else if s[i] == '$' && i + 1 < s.len() && name_char(s[i + 1]) && i < name_end(s, i + 1) <= s.len() {
        seq![s.subrange(i + 1, name_end(s, i + 1))] + env_refs_at(s, name_end(s, i + 1))
    } else {
        env_refs_at(s, i + 1)
    }
}

/// The environment variables referenced in `s`, in order.
pub open spec fn env_refs(s: Seq<char>) -> Seq<Seq<char>> {
    env_refs_at(s, 0)
}

pub proof fn lemma_index_of(s: Seq<char>, c: char)
    ensures
        0 <= index_of(s, c) <= s.len(),
        forall|j: int| 0 <= j < index_of(s, c) ==> s[j] != c,
        index_of(s, c) < s.len() ==> s[index_of(s, c)] == c,
    decreases s.len(),
{
    if s.len() > 0 && s[0] != c {
        lemma_index_of(s.drop_first(), c);
        assert forall|j: int| 0 <= j < index_of(s, c) implies s[j] != c by {
            if j > 0 {
                assert(s[j] == s.drop_first()[j - 1]);
            }
        }
    }
}

/// Finds the first `c` in `s`, or the length of `s`.
pub fn position_of(s: &str, c: char) -> (r: usize)
    ensures
        r as int == index_of(s@, c),
{
    proof {
        lemma_index_of(s@, c);
    }
    match find_char(s, c) {
        Some(k) => {
            proof {
                lemma_index_unique(s@, c, k as int);
            }
            k
        },
        None => {
            proof {
                if index_of(s@, c) < s@.len() {
                    assert(s@[index_of(s@, c)] == c);
                }
            }
            s.unicode_len()
        },
    }
}

pub proof fn lemma_index_unique(s: Seq<char>, c: char, k: int)
    requires
        0 <= k < s.len(),
        s[k] == c,
        forall|j: int| 0 <= j < k ==> s[j] != c,
    ensures
        index_of(s, c) == k,
{
    lemma_index_of(s, c);
}

fn is_name_char(c: char) -> (r: bool)
    ensures
        r == name_char(c),
{
    ('A' <= c && c <= 'z') || ('1' <= c && c <= '9')
}

fn closing_brace(s: &str, from: usize) -> (r: Option<usize>)
    requires
        from <= s@.len(),
    ensures
        match r {
            Some(k) => brace_close(s@, from as int) == Some(k as int) && from <= k < s@.len(),
            None => brace_close(s@, from as int) is None,
        },
    decreases s@.len() - from,
{
    let n = s.unicode_len();
    if from >= n {
        return None;
    }
    let c = s.get_char(from);
    if c == '}' {
        Some(from)
    } else if c == '\n' {
        None
    } else {
        closing_brace(s, from + 1)
    }
}

fn run_end(s: &str, from: usize) -> (r: usize)
    requires
        from <= s@.len(),
    ensures
        r as int == name_end(s@, from as int),
        from <= r <= s@.len(),
    decreases s@.len() - from,
{
    let n = s.unicode_len();
    if from < n {
        if is_name_char(s.get_char(from)) {
            return run_end(s, from + 1);
        }
    }
    from
}

/// The environment variables that `string` refers to, in order.
pub fn find_env_vars(string: &str) -> (r: Vec<String>)
    ensures
        views(r@) == env_refs(string@),
    decreases string@.len(),
{
    let n = string.unicode_len();
    let mut out: Vec<String> = Vec::new();
    let mut i: usize = 0;
    while i < n
        invariant
            n == string@.len(),
            i <= n,
            views(out@) + env_refs_at(string@, i as int) == env_refs(string@),
        decreases n - i,
    {
        let ghost s = string@;
        let ghost before = views(out@);
        let c = string.get_char(i);
        let mut done = false;
        if c == '$' && i + 1 < n && string.get_char(i + 1) == '{' {
            if let Some(k) = closing_brace(string, i + 2) {
                let inner = string.substring_char(i + 2, k);
                proof {
                    lemma_index_of(inner@, '-');
                }
                let d = position_of(inner, '-');
                let head = inner.substring_char(0, d);
                proof {
                    lemma_index_of(head@, ':');
                }
                let colon = position_of(head, ':');
                let name = head.substring_char(0, colon);
                let ghost nested_refs: Seq<Seq<char>> = if d < inner@.len() {
                    env_refs_at(inner@.subrange(d + 1, inner@.len() as int), 0)
                } else {
                    seq![]
                };
                assert(s[i as int] == '$' && s[i + 1] == '{');
                assert(brace_close(s, i + 2) == Some(k as int));
                assert(inner@ == s.subrange(i + 2, k as int));
                assert(head@ == inner@.subrange(0, d as int));
                assert(name@ == head@.subrange(0, index_of(head@, ':')));
                assert(env_refs_at(s, i as int) == seq![name@] + nested_refs + env_refs_at(s, k + 1));
                out.push(String::from_str(name));
                assert(views(out@) =~= before.push(name@));
                if d < inner.unicode_len() {
                    let rest = inner.substring_char(d + 1, inner.unicode_len());
                    let mut nested = find_env_vars(rest);
                    let ghost mid = out@;
                    out.append(&mut nested);
                    assert(views(out@) =~= views(mid) + nested_refs);
                } else {
                    assert(views(out@) =~= views(out@) + nested_refs);
                }
                assert(views(out@) + env_refs_at(s, k + 1) =~= before + env_refs_at(s, i as int));
                i = k + 1;
                done = true;
            }
        }
        if !done {
            let next_is_name = i + 1 < n && is_name_char(string.get_char(i + 1));
            if c == '$' && next_is_name {
                let e = run_end(string, i + 1);
                out.push(String::from_str(string.substring_char(i + 1, e)));
                assert(views(out@) =~= before.push(s.subrange(i + 1, e as int)));
                assert(views(out@) + env_refs_at(s, e as int) =~= before + env_refs_at(s, i as int));
                i = e;
            } else {
                i = i + 1;
            }
        }
    }
    assert(views(out@) + seq![] =~= views(out@));
    out
}

} // verus!
