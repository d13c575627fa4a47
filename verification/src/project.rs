//! Deriving the short project tag from a repository's remote URL: the
//! repository name is the part after the last slash, without a `.git`
//! suffix, and the tag is its lowercased acronym (first character of
//! each `-`/`_`-separated part), or the whole lowercased name when it
//! has no separator.

use vstd::prelude::*;
use vstd::string::StringExecFns;
use vstd::string::StrSliceExecFns;
use crate::error::Error;
use crate::trusted::{lower_of, push_char, to_lowercase};

verus! {

/// The part of the URL after its last `/` (the whole URL when it has
/// none). Both remote URL shapes end in `/name` or `/name.git`.
pub open spec fn suffix_after_slash(s: Seq<char>) -> Seq<char>
    decreases s.len(),
{
    if s.len() == 0 {
        s
    } else if s.last() == '/' {
        Seq::empty()
    } else {
        suffix_after_slash(s.drop_last()).push(s.last())
    }
}

/// The name without a trailing `.git`.
pub open spec fn strip_git(t: Seq<char>) -> Seq<char> {
    if t.len() >= 4 && t.subrange(t.len() - 4, t.len() as int) == ".git"@ {
        t.take(t.len() - 4)
    } else {
        t
    }
}

/// The repository name a remote URL carries.
pub open spec fn spec_repo_name(url: Seq<char>) -> Seq<char> {
    strip_git(suffix_after_slash(url))
}

/// A part separator in a repository name.
pub open spec fn is_sep(c: char) -> bool {
    c == '-' || c == '_'
}

/// Whether the name has any separator at all.
pub open spec fn has_sep(s: Seq<char>) -> bool {
    exists|i: int| 0 <= i < s.len() && is_sep(#[trigger] s[i])
}

/// The positions that start a nonempty part: a non-separator at the
/// beginning or right after a separator.
pub open spec fn starts_part(s: Seq<char>, i: int) -> bool {
    !is_sep(s[i]) && (i == 0 || is_sep(s[i - 1]))
}

/// The first character of each nonempty part, in order.
pub open spec fn first_chars(s: Seq<char>) -> Seq<char> {
    Seq::new(s.len(), |i: int| i).filter(|i: int| starts_part(s, i)).map_values(|i: int| s[i])
}

/// What is lowercased: the acronym when the name has separators, the
/// whole name otherwise.
pub open spec fn spec_acronym_source(s: Seq<char>) -> Seq<char> {
    if has_sep(s) {
        first_chars(s)
    } else {
        s
    }
}

/// `suffix_after_slash` is the suffix after the last `/`.
proof fn lemma_suffix_at(s: Seq<char>, p: int)
    requires
        0 <= p <= s.len(),
        forall|k: int| p <= k < s.len() ==> (#[trigger] s[k]) != '/',
        p == 0 || s[p - 1] == '/',
    ensures
        suffix_after_slash(s) == s.skip(p),
    decreases s.len(),
{
    if s.len() == 0 {
        assert(s.skip(0) =~= s);
    } else if p == s.len() {
        assert(s.last() == s[p - 1]);
        assert(s.skip(p) =~= Seq::<char>::empty());
    } else {
        assert(s.last() != '/');
        let t = s.drop_last();
        assert forall|k: int| p <= k < t.len() implies (#[trigger] t[k]) != '/' by {
            assert(t[k] == s[k]);
        }
        if p > 0 {
            assert(t[p - 1] == s[p - 1]);
        }
        lemma_suffix_at(t, p);
        assert(t.skip(p).push(s.last()) =~= s.skip(p));
    }
}

/// The repository name of a remote URL, in either common shape
/// (`git@host:user/name.git` or `https://host/user/name.git`): the
/// part after the last slash, with a `.git` suffix removed.
pub fn parse_repo_name(url: &str) -> (r: Result<String, Error>)
    ensures
        r matches Ok(name) && name@ == spec_repo_name(url@),
{
    let n = url.unicode_len();
    let mut p: usize = n;
    while p > 0 && url.get_char(p - 1) != '/'
        invariant
            p <= n,
            n == url@.len(),
            forall|k: int| p <= k < n ==> (#[trigger] url@[k]) != '/',
        decreases p,
    {
        p = p - 1;
    }
    let suffix = url.substring_char(p, n);
    proof {
        lemma_suffix_at(url@, p as int);
        assert(suffix@ =~= url@.skip(p as int));
    }
    let m = suffix.unicode_len();
    let has_git = m >= 4 && suffix.get_char(m - 4) == '.' && suffix.get_char(m - 3) == 'g'
        && suffix.get_char(m - 2) == 'i' && suffix.get_char(m - 1) == 't';
    let name = if has_git {
        suffix.substring_char(0, m - 4)
    } else {
        suffix
    };
    proof {
        reveal_strlit(".git");
        if has_git {
            assert(suffix@.subrange(m - 4, m as int) =~= ".git"@);
            assert(name@ =~= suffix@.take(m - 4));
        } else if m >= 4 {
            let sub = suffix@.subrange(m - 4, m as int);
            if sub == ".git"@ {
                assert(suffix@[m - 4] == sub[0] && sub[0] == '.');
                assert(suffix@[m - 3] == sub[1] && sub[1] == 'g');
                assert(suffix@[m - 2] == sub[2] && sub[2] == 'i');
                assert(suffix@[m - 1] == sub[3] && sub[3] == 't');
                assert(false);
            }
        }
    }
    Ok(String::from_str(name))
}

/// Lowercased acronym of a separated name (`my-cool-app` becomes
/// `mca`), or the whole name lowercased when it has no `-` or `_`.
pub fn to_acronym(name: &str) -> (r: String)
    ensures
        r@ == lower_of(spec_acronym_source(name@)),
{
    broadcast use Seq::lemma_filter_push;
    broadcast use Seq::lemma_push_map_commute;

    let n = name.unicode_len();
    let mut found_sep = false;
    let mut i: usize = 0;
    while i < n && !found_sep
        invariant
            i <= n,
            n == name@.len(),
            found_sep ==> has_sep(name@),
            !found_sep ==> forall|k: int| 0 <= k < i ==> !is_sep(#[trigger] name@[k]),
        decreases n - i + (if found_sep {
            0int
        } else {
            1int
        }),
    {
        if is_sep_char(name.get_char(i)) {
            proof {
                assert(is_sep(name@[i as int]));
            }
            found_sep = true;
        } else {
            i = i + 1;
        }
    }
    if !found_sep {
        proof {
            assert(!has_sep(name@));
        }
        return to_lowercase(name);
    }

    let mut acc = String::new();
    let mut j: usize = 0;
    proof {
        let fl = |k: int| starts_part(name@, k);
        let mp = |k: int| name@[k];
        assert(Seq::new(0, |k: int| k).filter(fl) =~= Seq::<int>::empty());
        assert(Seq::<int>::empty().map_values(mp) =~= Seq::<char>::empty());
    }
    while j < n
        invariant
            j <= n,
            n == name@.len(),
            acc@ == Seq::new(j as nat, |k: int| k).filter(|k: int| starts_part(name@, k))
                .map_values(|k: int| name@[k]),
        decreases n - j,
    {
        let c = name.get_char(j);
        let take_it = if is_sep_char(c) {
            false
        } else if j == 0 {
            true
        } else {
            is_sep_char(name.get_char(j - 1))
        };
        let ghost fl = |k: int| starts_part(name@, k);
        let ghost mp = |k: int| name@[k];
        let ghost idx_prev = Seq::new(j as nat, |k: int| k);
        let ghost idx = Seq::new((j + 1) as nat, |k: int| k);
        if take_it {
            push_char(&mut acc, c);
        }
        proof {
            assert(idx =~= idx_prev.push(j as int));
            idx_prev.lemma_filter_push(j as int, fl);
            assert(take_it == starts_part(name@, j as int));
            if take_it {
                assert(idx.filter(fl) == idx_prev.filter(fl).push(j as int));
                idx_prev.filter(fl).lemma_push_map_commute(mp, j as int);
                assert(idx.filter(fl).map_values(mp) =~= idx_prev.filter(fl).map_values(mp).push(
                    name@[j as int],
                ));
            } else {
                assert(idx.filter(fl) == idx_prev.filter(fl));
            }
        }
        j = j + 1;
    }
    proof {
        assert(spec_acronym_source(name@) == first_chars(name@));
    }
    to_lowercase(acc.as_str())
}

fn is_sep_char(c: char) -> (r: bool)
    ensures
        r == is_sep(c),
{
    c == '-' || c == '_'
}

/// The short project tag derived from a remote URL: the lowercased
/// acronym of its repository name.
pub fn get_project_prefix(url: &str) -> (r: Result<String, Error>)
    ensures
        r matches Ok(p) && p@ == lower_of(spec_acronym_source(spec_repo_name(url@))),
{
    let name = match parse_repo_name(url) {
        Ok(name) => name,
        Err(e) => {
            return Err(e);
        },
    };
    Ok(to_acronym(name.as_str()))
}


/// The directory name a new entry's worktree gets, beside the main
/// repository: the project tag and the branch label joined by `-`.
pub fn worktree_dir_name(prefix: &str, branch: &str) -> (r: String)
    ensures
        r@ == prefix@ + "-"@ + branch@,
{
    let mut s = String::from_str(prefix);
    s.append("-");
    s.append(branch);
    s
}

} // verus!
