//! Quote-aware tokenizer.
//!
//! A line is split into tokens by three rules, tried in this order at
//! each position: a double-quoted run of path-safe characters,
//! whitespace and escape markers; a single-quoted run of anything but
//! `'`; a maximal run of bare characters (word characters, path
//! separators, `.`, `-`, `~`, `\`, and the redirection character `>`).
//! Quotes are stripped from quoted tokens, and characters that start no
//! rule are skipped.  Before scanning, adjacent empty-quote pairs
//! (`''`, `""`) are removed: they denote empty-string elision.
use vstd::prelude::*;

verus! {

/// A word character: an ASCII letter, a digit, or an underscore.
pub open spec fn is_word_char(c: char) -> bool {
    ||| ('a' as u32) <= (c as u32) && (c as u32) <= ('z' as u32)
    ||| ('A' as u32) <= (c as u32) && (c as u32) <= ('Z' as u32)
    ||| ('0' as u32) <= (c as u32) && (c as u32) <= ('9' as u32)
    ||| c == '_'
}

/// Whitespace accepted inside a double-quoted run.
pub open spec fn is_space_char(c: char) -> bool {
    c == ' ' || c == '\t' || c == '\n' || c == '\r'
}

/// A character a double-quoted run may hold.
pub open spec fn is_dq_char(c: char) -> bool {
    c == '/' || c == '\'' || is_word_char(c) || is_space_char(c) || c == '\\' || c == ':'
}

/// A character a bare (unquoted) token may hold.
pub open spec fn is_bare_char(c: char) -> bool {
    c == '~' || c == '/' || c == '.' || c == '-' || is_word_char(c) || c == '\\' || c == '>'
}

/// End of the run of double-quote inner characters starting at `i`.
pub open spec fn dq_run_end(s: Seq<char>, i: int) -> int
    decreases s.len() - i,
{
    if i < 0 || i >= s.len() {
        i
    } else if is_dq_char(s[i]) {
        dq_run_end(s, i + 1)
    } else {
        i
    }
}

/// End of the run of non-`'` characters starting at `i`.
pub open spec fn sq_run_end(s: Seq<char>, i: int) -> int
    decreases s.len() - i,
{
    if i < 0 || i >= s.len() {
        i
    } else if s[i] != '\'' {
        sq_run_end(s, i + 1)
    } else {
        i
    }
}

/// End of the run of bare characters starting at `i`.
pub open spec fn bare_run_end(s: Seq<char>, i: int) -> int
    decreases s.len() - i,
{
    if i < 0 || i >= s.len() {
        i
    } else if is_bare_char(s[i]) {
        bare_run_end(s, i + 1)
    } else {
        i
    }
}

pub proof fn lemma_dq_run_end_bounds(s: Seq<char>, i: int)
    requires
        0 <= i <= s.len(),
    ensures
        i <= dq_run_end(s, i) <= s.len(),
    decreases s.len() - i,
{
    if i < s.len() && is_dq_char(s[i]) {
        lemma_dq_run_end_bounds(s, i + 1);
    }
}

pub proof fn lemma_sq_run_end_bounds(s: Seq<char>, i: int)
    requires
        0 <= i <= s.len(),
    ensures
        i <= sq_run_end(s, i) <= s.len(),
    decreases s.len() - i,
{
    if i < s.len() && s[i] != '\'' {
        lemma_sq_run_end_bounds(s, i + 1);
    }
}

pub proof fn lemma_bare_run_end_bounds(s: Seq<char>, i: int)
    requires
        0 <= i <= s.len(),
    ensures
        i <= bare_run_end(s, i) <= s.len(),
    decreases s.len() - i,
{
    if i < s.len() && is_bare_char(s[i]) {
        lemma_bare_run_end_bounds(s, i + 1);
    }
}

/// `s` with every adjacent pair of `q` characters removed, scanning
/// left to right.
pub open spec fn strip_pairs(s: Seq<char>, q: char) -> Seq<char>
    decreases s.len(),
{
    if s.len() >= 2 && s[0] == q && s[1] == q {
        strip_pairs(s.skip(2), q)
    } else if s.len() >= 1 {
        seq![s[0]] + strip_pairs(s.drop_first(), q)
    } else {
        Seq::<char>::empty()
    }
}

/// The tokens of the cleaned line from position `i` on.
pub open spec fn spec_scan_from(s: Seq<char>, i: int) -> Seq<Seq<char>>
    decreases s.len() - i,
        via spec_scan_from_decreases
{
    if i < 0 || i >= s.len() {
        Seq::<Seq<char>>::empty()
    } else if s[i] == '"' {
        let j = dq_run_end(s, i + 1);
        if j > i + 1 && j < s.len() && s[j] == '"' {
            seq![s.subrange(i + 1, j)] + spec_scan_from(s, j + 1)
        } else {
            spec_scan_from(s, i + 1)
        }
    } else if s[i] == '\'' {
        let j = sq_run_end(s, i + 1);
        if j > i + 1 && j < s.len() {
            seq![s.subrange(i + 1, j)] + spec_scan_from(s, j + 1)
        } else {
            spec_scan_from(s, i + 1)
        }
    } else if is_bare_char(s[i]) {
        let j = bare_run_end(s, i);
        seq![s.subrange(i, j)] + spec_scan_from(s, j)
    } else {
        spec_scan_from(s, i + 1)
    }
}

#[via_fn]
proof fn spec_scan_from_decreases(s: Seq<char>, i: int) {
    if 0 <= i && i < s.len() {
        lemma_dq_run_end_bounds(s, i + 1);
        lemma_sq_run_end_bounds(s, i + 1);
        lemma_bare_run_end_bounds(s, i);
        lemma_bare_run_end_bounds(s, i + 1);
    }
}

/// The tokens of a raw line: empty-quote pairs removed, then scanned.
pub open spec fn spec_tokenize(s: Seq<char>) -> Seq<Seq<char>> {
    spec_scan_from(strip_pairs(strip_pairs(s, '\''), '"'), 0)
}

fn word_char(c: char) -> (r: bool)
    ensures
        r == is_word_char(c),
{
    let u = c as u32;
    (u >= 'a' as u32 && u <= 'z' as u32) || (u >= 'A' as u32 && u <= 'Z' as u32) || (u >= '0'
        as u32 && u <= '9' as u32) || c == '_'
}

fn dq_char(c: char) -> (r: bool)
    ensures
        r == is_dq_char(c),
{
    c == '/' || c == '\'' || word_char(c) || c == ' ' || c == '\t' || c == '\n' || c == '\r' || c
        == '\\' || c == ':'
}

fn bare_char(c: char) -> (r: bool)
    ensures
        r == is_bare_char(c),
{
    c == '~' || c == '/' || c == '.' || c == '-' || word_char(c) || c == '\\' || c == '>'
}

/// The characters of `s`, one `Vec` element per char.
fn to_chars(s: &str) -> (v: Vec<char>)
    ensures
        v@ == s@,
{
    let n = s.unicode_len();
    let mut v: Vec<char> = Vec::new();
    let mut i: usize = 0;
    while i < n
        invariant
            i <= n,
            n == s@.len(),
            v@ == s@.subrange(0, i as int),
        decreases n - i,
    {
        v.push(s.get_char(i));
        proof {
            assert(v@ =~= s@.subrange(0, i as int + 1));
        }
        i = i + 1;
    }
    proof {
        assert(v@ =~= s@);
    }
    v
}

fn run_end_dq(v: &Vec<char>, from: usize) -> (j: usize)
    requires
        from <= v@.len(),
    ensures
        j == dq_run_end(v@, from as int),
        from <= j <= v@.len(),
{
    let mut j = from;
    loop
        invariant
            from <= j <= v@.len(),
            dq_run_end(v@, from as int) == dq_run_end(v@, j as int),
        decreases v@.len() - j,
    {
        if j == v.len() {
            return j;
        }
        if !dq_char(v[j]) {
            return j;
        }
        j = j + 1;
    }
}

fn run_end_sq(v: &Vec<char>, from: usize) -> (j: usize)
    requires
        from <= v@.len(),
    ensures
        j == sq_run_end(v@, from as int),
        from <= j <= v@.len(),
{
    let mut j = from;
    loop
        invariant
            from <= j <= v@.len(),
            sq_run_end(v@, from as int) == sq_run_end(v@, j as int),
        decreases v@.len() - j,
    {
        if j == v.len() {
            return j;
        }
        if v[j] == '\'' {
            return j;
        }
        j = j + 1;
    }
}

fn run_end_bare(v: &Vec<char>, from: usize) -> (j: usize)
    requires
        from <= v@.len(),
    ensures
        j == bare_run_end(v@, from as int),
        from <= j <= v@.len(),
{
    let mut j = from;
    loop
        invariant
            from <= j <= v@.len(),
            bare_run_end(v@, from as int) == bare_run_end(v@, j as int),
        decreases v@.len() - j,
    {
        if j == v.len() {
            return j;
        }
        if !bare_char(v[j]) {
            return j;
        }
        j = j + 1;
    }
}

/// Removes every adjacent pair of `q` characters, left to right.
fn strip_pairs_exec(s: &str, q: char) -> (r: String)
    ensures
        r@ == strip_pairs(s@, q),
{
    let n = s.unicode_len();
    let mut out = String::new();
    let mut i: usize = 0;
    proof {
        assert(s@.skip(0) =~= s@);
        assert(out@ + strip_pairs(s@, q) =~= strip_pairs(s@, q));
    }
    while i < n
        invariant
            i <= n,
            n == s@.len(),
            strip_pairs(s@, q) == out@ + strip_pairs(s@.skip(i as int), q),
        decreases n - i,
    {
        let ghost rest = s@.skip(i as int);
        let c = s.get_char(i);
        proof {
            assert(rest[0] == c);
        }
        if c == q && i + 1 < n && s.get_char(i + 1) == q {
            proof {
                assert(rest.len() >= 2);
                assert(rest[1] == q);
                assert(rest.skip(2) =~= s@.skip(i as int + 2));
            }
            i = i + 2;
        } else {
            let ghost out_old = out@;
            let piece = s.substring_char(i, i + 1);
            out.append(piece);
            proof {
                assert(piece@ =~= seq![c]);
                assert(!(rest.len() >= 2 && rest[0] == q && rest[1] == q));
                assert(rest.drop_first() =~= s@.skip(i as int + 1));
                assert(strip_pairs(rest, q) == seq![c] + strip_pairs(
                    s@.skip(i as int + 1),
                    q,
                ));
                assert(out_old + (seq![c] + strip_pairs(s@.skip(i as int + 1), q)) =~= (out_old
                    + seq![c]) + strip_pairs(s@.skip(i as int + 1), q));
            }
            i = i + 1;
        }
    }
    proof {
        assert(s@.skip(n as int) =~= Seq::<char>::empty());
        assert(strip_pairs(Seq::<char>::empty(), q) == Seq::<char>::empty());
        assert(out@ + Seq::<char>::empty() =~= out@);
    }
    out
}

/// The views of the collected tokens.
pub open spec fn token_views(r: Seq<String>) -> Seq<Seq<char>> {
    r.map_values(|t: String| t@)
}

/// Splits a raw line into its tokens.  An all-whitespace line (or one
/// that empties after quote-pair removal) yields no tokens; the caller
/// treats that as a no-op.
pub fn tokenize(line: &str) -> (r: Vec<String>)
    ensures
        token_views(r@) == spec_tokenize(line@),
{
    let s1 = strip_pairs_exec(line, '\'');
    let s2 = strip_pairs_exec(s1.as_str(), '"');
    let cleaned = s2.as_str();
    let n = cleaned.unicode_len();
    let v = to_chars(cleaned);
    let mut r: Vec<String> = Vec::new();
    let mut i: usize = 0;
    proof {
        assert(token_views(r@) =~= Seq::<Seq<char>>::empty());
        assert(token_views(r@) + spec_scan_from(cleaned@, 0) =~= spec_scan_from(cleaned@, 0));
    }
    while i < n
        invariant
            i <= n,
            n == cleaned@.len(),
            v@ == cleaned@,
            spec_scan_from(cleaned@, 0) == token_views(r@) + spec_scan_from(cleaned@, i as int),
        decreases n - i,
    {
        let c = v[i];
        let ghost r_old = r@;
        if c == '"' {
            let j = run_end_dq(&v, i + 1);
            if j > i + 1 && j < n && v[j] == '"' {
                let tok = cleaned.substring_char(i + 1, j).to_owned();
                r.push(tok);
                proof {
                    assert(token_views(r@) =~= token_views(r_old).push(
                        cleaned@.subrange(i as int + 1, j as int),
                    ));
                    assert(token_views(r_old) + (seq![
                        cleaned@.subrange(i as int + 1, j as int),
                    ] + spec_scan_from(cleaned@, j as int + 1)) =~= token_views(r@)
                        + spec_scan_from(cleaned@, j as int + 1));
                }
                i = j + 1;
            } else {
                i = i + 1;
            }
        } else if c == '\'' {
            let j = run_end_sq(&v, i + 1);
            if j > i + 1 && j < n {
                let tok = cleaned.substring_char(i + 1, j).to_owned();
                r.push(tok);
                proof {
                    assert(token_views(r@) =~= token_views(r_old).push(
                        cleaned@.subrange(i as int + 1, j as int),
                    ));
                    assert(token_views(r_old) + (seq![
                        cleaned@.subrange(i as int + 1, j as int),
                    ] + spec_scan_from(cleaned@, j as int + 1)) =~= token_views(r@)
                        + spec_scan_from(cleaned@, j as int + 1));
                }
                i = j + 1;
            } else {
                i = i + 1;
            }
        } else {
            let is_bare = bare_char(c);
            if is_bare {
                let j = run_end_bare(&v, i);
                proof {
                    assert(bare_run_end(cleaned@, i as int) == bare_run_end(
                        cleaned@,
                        i as int + 1,
                    ));
                    assert(j > i);
                }
                let tok = cleaned.substring_char(i, j).to_owned();
                r.push(tok);
                proof {
                    assert(token_views(r@) =~= token_views(r_old).push(
                        cleaned@.subrange(i as int, j as int),
                    ));
                    assert(token_views(r_old) + (seq![cleaned@.subrange(i as int, j as int)]
                        + spec_scan_from(cleaned@, j as int)) =~= token_views(r@)
                        + spec_scan_from(cleaned@, j as int));
                }
                i = j;
            } else {
                i = i + 1;
            }
        }
    }
    proof {
        assert(spec_scan_from(cleaned@, i as int) =~= Seq::<Seq<char>>::empty());
        assert(token_views(r@) + Seq::<Seq<char>>::empty() =~= token_views(r@));
        assert(cleaned@ == strip_pairs(strip_pairs(line@, '\''), '"'));
    }
    r
}

} // verus!
