//! Parsing and selection rules for the git-history viewer.
//!
//! The viewer runs `git` and prints a bounded number of log or branch lines.
//! Everything here is the pure part of that work: recognising merge-commit
//! lines, parsing a branch listing line into its name, date and message,
//! turning positional arguments into a branch name and a history count, and
//! assembling the log command for a branch.

use vstd::prelude::*;
use vstd::string::StringExecFns;
use crate::strw::split::{
    common_whitespace, lemma_remaining_tokens_step, remaining_tokens, split_space_keep_symbol,
};

verus! {

/// How many history lines are shown when no count is asked for.
pub const DEFAULT_HISTORY_COUNT: usize = 5;

/// Whether `c` is whitespace in the Unicode sense of `char::is_whitespace`.
pub uninterp spec fn is_unicode_ws(c: char) -> bool;

/// Relies on `char::is_whitespace`: the answer depends on the character
/// alone; the ASCII whitespace characters have the White_Space property and
/// the visible ASCII characters do not.
#[verifier::external_body]
fn char_is_whitespace(c: char) -> (r: bool)
    ensures
        r == is_unicode_ws(c),
        c == ' ' || c == '\t' || c == '\n' || c == '\r' ==> r,
        0x21 <= c as u32 <= 0x7e ==> !r,
{
    c.is_whitespace()
}

// ---------------------------------------------------------------------------
// Trimming.
// ---------------------------------------------------------------------------

/// The first position at or after `i` whose character is not whitespace.
pub open spec fn first_non_ws(s: Seq<char>, i: int) -> int
    decreases s.len() - i,
{
    if i < 0 || i >= s.len() {
        i
    } else if is_unicode_ws(s[i]) {
        first_non_ws(s, i + 1)
    } else {
        i
    }
}

/// One past the last position below `j` whose character is not whitespace.
pub open spec fn last_non_ws(s: Seq<char>, j: int) -> int
    decreases j,
{
    if j <= 0 || j > s.len() {
        0
    } else if is_unicode_ws(s[j - 1]) {
        last_non_ws(s, j - 1)
    } else {
        j
    }
}

/// `s` without leading and trailing whitespace.
pub open spec fn trim_ws_spec(s: Seq<char>) -> Seq<char> {
    let a = first_non_ws(s, 0);
    if a >= s.len() {
        Seq::empty()
    } else {
        s.subrange(a, last_non_ws(s, s.len() as int))
    }
}

proof fn lemma_first_non_ws_bounds(s: Seq<char>, i: int)
    requires
        0 <= i <= s.len(),
    ensures
        i <= first_non_ws(s, i) <= s.len(),
        first_non_ws(s, i) < s.len() ==> !is_unicode_ws(s[first_non_ws(s, i)]),
    decreases s.len() - i,
{
    if i < s.len() && is_unicode_ws(s[i]) {
        lemma_first_non_ws_bounds(s, i + 1);
    }
}

proof fn lemma_last_non_ws_bounds(s: Seq<char>, j: int)
    requires
        0 <= j <= s.len(),
    ensures
        0 <= last_non_ws(s, j) <= j,
        last_non_ws(s, j) > 0 ==> !is_unicode_ws(s[last_non_ws(s, j) - 1]),
    decreases j,
{
    if 0 < j && is_unicode_ws(s[j - 1]) {
        lemma_last_non_ws_bounds(s, j - 1);
    }
}

proof fn lemma_last_non_ws_above(s: Seq<char>, j: int, a: int)
    requires
        0 <= a < j <= s.len(),
        !is_unicode_ws(s[a]),
    ensures
        last_non_ws(s, j) > a,
    decreases j,
{
    if is_unicode_ws(s[j - 1]) {
        lemma_last_non_ws_above(s, j - 1, a);
    }
}

/// Returns `s` without leading and trailing whitespace, in the Unicode sense
/// of `char::is_whitespace`.
pub fn trim_ws(s: &str) -> (r: &str)
    ensures
        r@ == trim_ws_spec(s@),
{
    let n = s.unicode_len();
    let mut a: usize = 0;
    while a < n
        invariant
            0 <= a <= n,
            n == s@.len(),
            first_non_ws(s@, 0) == first_non_ws(s@, a as int),
        ensures
            0 <= a <= n,
            n == s@.len(),
            first_non_ws(s@, 0) == a as int,
        decreases n - a,
    {
        let c = s.get_char(a);
        if !char_is_whitespace(c) {
            break ;
        }
        a = a + 1;
    }
    if a >= n {
        return s.substring_char(0, 0);
    }
    proof {
        lemma_first_non_ws_bounds(s@, 0);
        lemma_last_non_ws_above(s@, n as int, a as int);
        lemma_last_non_ws_bounds(s@, n as int);
    }
    let mut b: usize = n;
    while b > a
        invariant
            a <= b <= n,
            n == s@.len(),
            a as int == first_non_ws(s@, 0),
            a < n,
            !is_unicode_ws(s@[a as int]),
            last_non_ws(s@, n as int) == last_non_ws(s@, b as int),
            last_non_ws(s@, n as int) > a,
            last_non_ws(s@, b as int) <= b,
        ensures
            a < b <= n,
            n == s@.len(),
            last_non_ws(s@, n as int) == b as int,
        decreases b,
    {
        let c = s.get_char(b - 1);
        if !char_is_whitespace(c) {
            break ;
        }
        proof {
            if b - 1 == a {
                assert(false);
            }
            lemma_last_non_ws_bounds(s@, b - 1);
        }
        b = b - 1;
    }
    s.substring_char(a, b)
}

/// The first position at or after `i` whose character is not `c`.
pub open spec fn first_not_char(s: Seq<char>, c: char, i: int) -> int
    decreases s.len() - i,
{
    if i < 0 || i >= s.len() {
        i
    } else if s[i] == c {
        first_not_char(s, c, i + 1)
    } else {
        i
    }
}

/// One past the last position below `j` whose character is not `c`.
pub open spec fn last_not_char(s: Seq<char>, c: char, j: int) -> int
    decreases j,
{
    if j <= 0 || j > s.len() {
        0
    } else if s[j - 1] == c {
        last_not_char(s, c, j - 1)
    } else {
        j
    }
}

/// `s` without leading and trailing occurrences of `c`.
pub open spec fn trim_char_spec(s: Seq<char>, c: char) -> Seq<char> {
    let a = first_not_char(s, c, 0);
    if a >= s.len() {
        Seq::empty()
    } else {
        s.subrange(a, last_not_char(s, c, s.len() as int))
    }
}

proof fn lemma_first_not_char_bounds(s: Seq<char>, c: char, i: int)
    requires
        0 <= i <= s.len(),
    ensures
        i <= first_not_char(s, c, i) <= s.len(),
        first_not_char(s, c, i) < s.len() ==> s[first_not_char(s, c, i)] != c,
    decreases s.len() - i,
{
    if i < s.len() && s[i] == c {
        lemma_first_not_char_bounds(s, c, i + 1);
    }
}

proof fn lemma_last_not_char_bounds(s: Seq<char>, c: char, j: int)
    requires
        0 <= j <= s.len(),
    ensures
        0 <= last_not_char(s, c, j) <= j,
        last_not_char(s, c, j) > 0 ==> s[last_not_char(s, c, j) - 1] != c,
    decreases j,
{
    if 0 < j && s[j - 1] == c {
        lemma_last_not_char_bounds(s, c, j - 1);
    }
}

proof fn lemma_last_not_char_above(s: Seq<char>, c: char, j: int, a: int)
    requires
        0 <= a < j <= s.len(),
        s[a] != c,
    ensures
        last_not_char(s, c, j) > a,
    decreases j,
{
    if s[j - 1] == c {
        lemma_last_not_char_above(s, c, j - 1, a);
    }
}

/// Returns `s` without leading and trailing occurrences of `c`.
pub fn trim_matching(s: &str, c: char) -> (r: &str)
    ensures
        r@ == trim_char_spec(s@, c),
{
    let n = s.unicode_len();
    let mut a: usize = 0;
    while a < n
        invariant
            0 <= a <= n,
            n == s@.len(),
            first_not_char(s@, c, 0) == first_not_char(s@, c, a as int),
        ensures
            0 <= a <= n,
            n == s@.len(),
            first_not_char(s@, c, 0) == a as int,
        decreases n - a,
    {
        if s.get_char(a) != c {
            break ;
        }
        a = a + 1;
    }
    if a >= n {
        return s.substring_char(0, 0);
    }
    proof {
        lemma_first_not_char_bounds(s@, c, 0);
        lemma_last_not_char_above(s@, c, n as int, a as int);
        lemma_last_not_char_bounds(s@, c, n as int);
    }
    let mut b: usize = n;
    while b > a
        invariant
            a <= b <= n,
            n == s@.len(),
            a as int == first_not_char(s@, c, 0),
            a < n,
            s@[a as int] != c,
            last_not_char(s@, c, n as int) == last_not_char(s@, c, b as int),
            last_not_char(s@, c, n as int) > a,
            last_not_char(s@, c, b as int) <= b,
        ensures
            a < b <= n,
            n == s@.len(),
            last_not_char(s@, c, n as int) == b as int,
        decreases b,
    {
        if s.get_char(b - 1) != c {
            break ;
        }
        proof {
            if b - 1 == a {
                assert(false);
            }
            lemma_last_not_char_bounds(s@, c, b - 1);
        }
        b = b - 1;
    }
    s.substring_char(a, b)
}

// ---------------------------------------------------------------------------
// The number of history lines to print.
// ---------------------------------------------------------------------------

/// The number of history lines to print: everything when all lines were
/// asked for, the default when no positive count was given, and the given
/// count otherwise.
pub fn history_count(all: bool, n: i32) -> (r: usize)
    ensures
        all ==> r == usize::MAX,
        !all && n <= 0 ==> r == DEFAULT_HISTORY_COUNT,
        !all && n > 0 ==> r == n,
{
    if all {
        return usize::MAX;
    }
    if n <= 0 {
        return DEFAULT_HISTORY_COUNT;
    }
    n as usize
}

// ---------------------------------------------------------------------------
// The log command for a branch.
// ---------------------------------------------------------------------------

/// The `git log` command that prints a branch's history, one commit per
/// line, as short hash, author, date and subject.
pub fn log_history_command(branch: &str) -> (r: String)
    ensures
        r@ == "git log "@ + branch@ + " --oneline --format=\"%h %an %ad %s\" --date=short"@,
{
    let mut r = "git log ".to_owned();
    r.append(branch);
    r.append(" --oneline --format=\"%h %an %ad %s\" --date=short");
    r
}

// ---------------------------------------------------------------------------
// The current branch, from `git branch` output.
// ---------------------------------------------------------------------------

/// The position of the first `c` at or after `i`, if any.
pub open spec fn find_char_from(s: Seq<char>, c: char, i: int) -> Option<int>
    decreases s.len() - i,
{
    if i < 0 || i >= s.len() {
        None
    } else if s[i] == c {
        Some(i)
    } else {
        find_char_from(s, c, i + 1)
    }
}

/// The branch name on a status line: the part after the first space of the
/// trimmed line (after the marker), or the line as given when it has no
/// space.
pub open spec fn spec_branch_from_status_line(s: Seq<char>) -> Seq<char> {
    let t = trim_ws_spec(s);
    match find_char_from(t, ' ', 0) {
        Some(i) => t.subrange(i + 1, t.len() as int),
        None => s,
    }
}

/// Extracts the branch name from a `git branch` status line: the part after
/// the first space of the trimmed line. A line without a space comes back
/// unchanged.
pub fn branch_from_status_line(s: &str) -> (r: String)
    ensures
        r@ == spec_branch_from_status_line(s@),
{
    let t = trim_ws(s);
    let n = t.unicode_len();
    let mut i: usize = 0;
    while i < n
        invariant
            0 <= i <= n,
            n == t@.len(),
            find_char_from(t@, ' ', 0) == find_char_from(t@, ' ', i as int),
        ensures
            0 <= i <= n,
            n == t@.len(),
            i < n ==> find_char_from(t@, ' ', 0) == Some(i as int),
            i >= n ==> find_char_from(t@, ' ', 0) is None,
        decreases n - i,
    {
        if t.get_char(i) == ' ' {
            break ;
        }
        i = i + 1;
    }
    if i < n {
        t.substring_char(i + 1, n).to_owned()
    } else {
        s.to_owned()
    }
}

// ---------------------------------------------------------------------------
// Parsing a branch listing line.
// ---------------------------------------------------------------------------

/// The tokens joined with single spaces.
pub open spec fn join_space(ts: Seq<Seq<char>>) -> Seq<char>
    decreases ts.len(),
{
    if ts.len() == 0 {
        Seq::empty()
    } else if ts.len() == 1 {
        ts[0]
    } else {
        ts[0] + seq![' '] + join_space(ts.skip(1))
    }
}

/// What folding tokens onto an accumulator yields: tokens joined with single
/// spaces, behind the accumulator and one space when the accumulator is not
/// empty.
pub open spec fn join_onto(acc: Seq<char>, ts: Seq<Seq<char>>) -> Seq<char> {
    if ts.len() == 0 {
        acc
    } else if acc.len() == 0 {
        join_space(ts)
    } else {
        acc + seq![' '] + join_space(ts)
    }
}

/// What `parse_branch_line` answers: the line is trimmed of whitespace and
/// quotes, split at whitespace with quoted stretches kept together, and read
/// as a branch name, a date, and the remaining tokens joined as the message.
/// Lines with fewer than two tokens parse to nothing.
pub open spec fn spec_parse_branch_line(content: Seq<char>) -> Option<
    (Seq<char>, Seq<char>, Seq<char>),
> {
    let core = trim_char_spec(trim_ws_spec(content), '"');
    let toks = remaining_tokens(core, common_whitespace(), seq!['"'], 0);
    if toks.len() < 2 {
        None
    } else {
        Some((toks[0], toks[1], join_space(toks.skip(2))))
    }
}

/// Splits a branch listing line into the branch name, the commit date and
/// the commit message. The line is trimmed, surrounding quotes go away, the
/// first two whitespace-separated tokens are the name and the date, and the
/// remaining tokens joined with single spaces are the message. Lines with
/// fewer than two tokens yield `None`.
pub fn parse_branch_line(content: &str) -> (r: Option<(String, String, String)>)
    ensures
        (match spec_parse_branch_line(content@) {
            None => r is None,
            Some(t) => r matches Some(x) && x.0@ == t.0 && x.1@ == t.1 && x.2@ == t.2,
        }),
{
    let trimmed = trim_ws(content);
    let core = trim_matching(trimmed, '"');
    let ghost gcore = core@;
    let ghost ws = common_whitespace();
    let ghost qs = seq!['"'];
    let mut it = split_space_keep_symbol(core, "\"");
    proof {
        reveal_strlit("\"");
        assert("\""@ =~= qs);
        assert(it.spec_symbols() == qs);
        lemma_remaining_tokens_step(gcore, ws, qs, 0);
    }
    let ghost toks = remaining_tokens(gcore, ws, qs, 0);
    let name = match it.next() {
        None => {
            return None;
        },
        Some(t) => t.to_owned(),
    };
    proof {
        assert(toks[0] == name@);
        lemma_remaining_tokens_step(gcore, ws, qs, it.spec_position());
    }
    let ghost toks1 = remaining_tokens(gcore, ws, qs, it.spec_position());
    let date = match it.next() {
        None => {
            proof {
                assert(toks =~= seq![toks[0]]);
            }
            return None;
        },
        Some(t) => t.to_owned(),
    };
    proof {
        assert(toks1[0] == date@);
        assert(toks =~= seq![name@, date@] + remaining_tokens(gcore, ws, qs, it.spec_position()));
        assert(toks.skip(2) =~= remaining_tokens(gcore, ws, qs, it.spec_position()));
    }
    let mut msg = String::new();
    loop
        invariant
            it.wf(),
            it.spec_text() == gcore,
            it.spec_split_chars() == ws,
            it.spec_symbols() == qs,
            0 <= it.spec_position() <= gcore.len(),
            join_onto(msg@, remaining_tokens(gcore, ws, qs, it.spec_position())) == join_space(
                toks.skip(2),
            ),
        ensures
            msg@ == join_space(toks.skip(2)),
        decreases gcore.len() - it.spec_position(),
    {
        let ghost pos = it.spec_position();
        proof {
            lemma_remaining_tokens_step(gcore, ws, qs, pos);
        }
        match it.next() {
            None => {
                break ;
            },
            Some(t) => {
                let ghost rest = remaining_tokens(gcore, ws, qs, it.spec_position());
                proof {
                    let cur = remaining_tokens(gcore, ws, qs, pos);
                    assert(cur == seq![t@] + rest);
                    assert(cur[0] == t@);
                    assert(t@.len() > 0);
                    assert(cur.skip(1) =~= rest);
                    if msg@.len() == 0 {
                        if rest.len() == 0 {
                            assert(join_space(cur) == t@);
                        } else {
                            assert(join_space(cur) == t@ + seq![' '] + join_space(rest));
                        }
                    } else {
                        if rest.len() == 0 {
                            assert(join_space(cur) == t@);
                            assert(join_onto(msg@, cur) == msg@ + seq![' '] + t@);
                        } else {
                            assert(join_space(cur) == t@ + seq![' '] + join_space(rest));
                            assert((msg@ + seq![' ']) + (t@ + seq![' '] + join_space(rest)) =~= ((
                            msg@ + seq![' ']) + t@) + seq![' '] + join_space(rest));
                        }
                    }
                }
                proof {
                    reveal_strlit(" ");
                    assert(" "@ =~= seq![' ']);
                }
                if msg.as_str().is_empty() {
                    msg = t.to_owned();
                } else {
                    msg.append(" ");
                    msg.append(t);
                }
                proof {
                    assert(join_onto(msg@, rest) == join_space(toks.skip(2)));
                }
            },
        }
    }
    Some((name, date, msg))
}

// ---------------------------------------------------------------------------
// Recognising merge-commit lines.
// ---------------------------------------------------------------------------

/// Whether `c` is a word character: an ASCII letter, digit or underscore.
pub open spec fn is_word_char(c: char) -> bool {
    let u = c as u32;
    (0x61 <= u && u <= 0x7a) || (0x41 <= u && u <= 0x5a) || (0x30 <= u && u <= 0x39) || u == 0x5f
}

/// Whether `c` is an ASCII decimal digit.
pub open spec fn is_ascii_digit(c: char) -> bool {
    0x30 <= c as u32 && c as u32 <= 0x39
}

/// Whether the ten characters at `p` read as a date: four digits, a dash,
/// two digits, a dash, two digits.
pub open spec fn date_at(s: Seq<char>, p: int) -> bool {
    &&& 0 <= p && p + 10 <= s.len()
    &&& is_ascii_digit(s[p]) && is_ascii_digit(s[p + 1]) && is_ascii_digit(s[p + 2])
        && is_ascii_digit(s[p + 3])
    &&& s[p + 4] == '-'
    &&& is_ascii_digit(s[p + 5]) && is_ascii_digit(s[p + 6])
    &&& s[p + 7] == '-'
    &&& is_ascii_digit(s[p + 8]) && is_ascii_digit(s[p + 9])
}

/// Whether position `j` starts the tail of a merge line: whitespace, a date,
/// whitespace, and the word Merge.
pub open spec fn merge_tail_at(s: Seq<char>, j: int) -> bool {
    &&& 0 <= j && j + 17 <= s.len()
    &&& is_unicode_ws(s[j])
    &&& date_at(s, j + 1)
    &&& is_unicode_ws(s[j + 11])
    &&& s[j + 12] == 'M' && s[j + 13] == 'e' && s[j + 14] == 'r' && s[j + 15] == 'g' && s[j + 16]
        == 'e'
}

/// Whether position `i` starts the head of a merge line: a word character
/// followed by whitespace.
pub open spec fn merge_head_at(s: Seq<char>, i: int) -> bool {
    0 <= i && i + 2 <= s.len() && is_word_char(s[i]) && is_unicode_ws(s[i + 1])
}

/// Whether `s` reads as a merge-commit log line somewhere: a word character
/// and whitespace, then later whitespace, a date, whitespace and the word
/// Merge.
pub open spec fn is_merge_log_line(s: Seq<char>) -> bool {
    exists|i: int, j: int|
        #![trigger merge_head_at(s, i), merge_tail_at(s, j)]
        merge_head_at(s, i) && j >= i + 2 && merge_tail_at(s, j)
}

/// Whether the seventeen characters at `j` read as a merge-line tail.
fn check_merge_tail(s: &str, j: usize) -> (r: bool)
    requires
        j + 17 <= s@.len(),
        s@.len() <= usize::MAX,
    ensures
        r == merge_tail_at(s@, j as int),
{
    if !char_is_whitespace(s.get_char(j)) {
        return false;
    }
    let mut k: usize = 0;
    // the four digits of the year
    while k < 4
        invariant
            k <= 4,
            j + 17 <= s@.len(),
            s@.len() <= usize::MAX,
            forall|x: int| 0 <= x < k ==> is_ascii_digit(#[trigger] s@[j + 1 + x]),
        ensures
            k == 4,
            forall|x: int| 0 <= x < 4 ==> is_ascii_digit(#[trigger] s@[j + 1 + x]),
        decreases 4 - k,
    {
        let c = s.get_char(j + 1 + k);
        if !(c >= '0' && c <= '9') {
            return false;
        }
        k = k + 1;
    }
    if s.get_char(j + 5) != '-' {
        return false;
    }
    let c6 = s.get_char(j + 6);
    let c7 = s.get_char(j + 7);
    if !(c6 >= '0' && c6 <= '9' && c7 >= '0' && c7 <= '9') {
        return false;
    }
    if s.get_char(j + 8) != '-' {
        return false;
    }
    let c9 = s.get_char(j + 9);
    let c10 = s.get_char(j + 10);
    if !(c9 >= '0' && c9 <= '9' && c10 >= '0' && c10 <= '9') {
        return false;
    }
    if !char_is_whitespace(s.get_char(j + 11)) {
        return false;
    }
    proof {
        assert(is_ascii_digit(s@[j + 1 + 0]) && is_ascii_digit(s@[j + 1 + 1]) && is_ascii_digit(
            s@[j + 1 + 2],
        ) && is_ascii_digit(s@[j + 1 + 3]));
        assert(date_at(s@, j + 1));
    }
    let r = s.get_char(j + 12) == 'M' && s.get_char(j + 13) == 'e' && s.get_char(j + 14) == 'r'
        && s.get_char(j + 15) == 'g' && s.get_char(j + 16) == 'e';
    r
}

/// Recognises a merge-commit line of the log listing: somewhere in the line
/// a word character is followed by whitespace, and later whitespace, a date
/// of the form digits 4-2-2, more whitespace and the word Merge follow.
pub fn is_merge_line(s: &str) -> (r: bool)
    ensures
        r == is_merge_log_line(s@),
{
    let n = s.unicode_len();
    if n < 2 {
        proof {
            if is_merge_log_line(s@) {
                let (i, j) = choose|i: int, j: int|
                    #![trigger merge_head_at(s@, i), merge_tail_at(s@, j)]
                    merge_head_at(s@, i) && j >= i + 2 && merge_tail_at(s@, j);
            }
        }
        return false;
    }
    // find the first word character followed by whitespace
    let mut i: usize = 0;
    while n - i >= 2
        invariant
            0 <= i,
            i <= n,
            n == s@.len(),
            forall|x: int| 0 <= x < i ==> !merge_head_at(s@, x),
        ensures
            0 <= i <= n,
            n == s@.len(),
            forall|x: int| 0 <= x < i ==> !merge_head_at(s@, x),
            i + 2 <= n ==> merge_head_at(s@, i as int),
            i + 2 > n ==> forall|x: int| !merge_head_at(s@, x),
        decreases n - i,
    {
        let c0 = s.get_char(i);
        let u = c0 as u32;
        let word = (0x61 <= u && u <= 0x7a) || (0x41 <= u && u <= 0x5a) || (0x30 <= u && u
            <= 0x39) || u == 0x5f;
        if word && char_is_whitespace(s.get_char(i + 1)) {
            break ;
        }
        i = i + 1;
    }
    if n - i < 2 {
        proof {
            if is_merge_log_line(s@) {
                let (x, j) = choose|x: int, j: int|
                    #![trigger merge_head_at(s@, x), merge_tail_at(s@, j)]
                    merge_head_at(s@, x) && j >= x + 2 && merge_tail_at(s@, j);
            }
        }
        return false;
    }
    // look for the dated Merge tail anywhere after the head
    let mut j: usize = i + 2;
    while n - j >= 17
        invariant
            i + 2 <= j,
            j <= n,
            n == s@.len(),
            i + 2 <= n,
            merge_head_at(s@, i as int),
            forall|x: int| 0 <= x < i ==> !merge_head_at(s@, x),
            forall|y: int| i + 2 <= y < j ==> !merge_tail_at(s@, y),
        ensures
            i + 2 <= j,
            n == s@.len(),
            j + 17 <= n ==> merge_tail_at(s@, j as int) && j >= i + 2,
            j + 17 > n ==> forall|y: int| i + 2 <= y < j ==> !merge_tail_at(s@, y),
        decreases n - j,
    {
        if check_merge_tail(s, j) {
            break ;
        }
        j = j + 1;
    }
    if n - j >= 17 {
        proof {
            assert(merge_head_at(s@, i as int) && j as int >= i + 2 && merge_tail_at(
                s@,
                j as int,
            ));
        }
        true
    } else {
        proof {
            if is_merge_log_line(s@) {
                let (x, y) = choose|x: int, y: int|
                    #![trigger merge_head_at(s@, x), merge_tail_at(s@, y)]
                    merge_head_at(s@, x) && y >= x + 2 && merge_tail_at(s@, y);
                assert(x >= i);
                assert(y >= i + 2);
                assert(y + 17 <= n);
                assert(!merge_tail_at(s@, y));
            }
        }
        false
    }
}

/// What the log printer does with one line.
#[derive(Debug, Clone, Copy, PartialEq, Eq, Structural)]
pub enum LogAction {
    /// The line is a merge commit and verbose printing is off: print nothing.
    Skip,
    /// The line is a merge commit and verbose printing is on: print it dimmed.
    PrintDim,
    /// An ordinary commit line: print it as it is.
    PrintPlain,
}

/// Decides what the log printer does with a line: merge commits are hidden
/// unless verbose printing is on, in which case they are dimmed; every other
/// line prints plainly.
pub fn log_line_action(content: &str, verbose: bool) -> (r: LogAction)
    ensures
        r == (if is_merge_log_line(content@) {
            if verbose {
                LogAction::PrintDim
            } else {
                LogAction::Skip
            }
        } else {
            LogAction::PrintPlain
        }),
{
    if is_merge_line(content) {
        if verbose {
            LogAction::PrintDim
        } else {
            LogAction::Skip
        }
    } else {
        LogAction::PrintPlain
    }
}

// ---------------------------------------------------------------------------
// Reading counts out of positional arguments.
// ---------------------------------------------------------------------------

/// The numeric value of an ASCII digit.
pub open spec fn digit_of(c: char) -> nat {
    (c as u32 - 0x30) as nat
}

/// The decimal value of a string of ASCII digits.
pub open spec fn digits_val(s: Seq<char>) -> nat
    decreases s.len(),
{
    if s.len() == 0 {
        0
    } else {
        digits_val(s.drop_last()) * 10 + digit_of(s.last())
    }
}

/// Whether every character of `s` is an ASCII digit.
pub open spec fn all_digits(s: Seq<char>) -> bool {
    forall|i: int| 0 <= i < s.len() ==> is_ascii_digit(#[trigger] s[i])
}

proof fn lemma_digits_val_step(s: Seq<char>, i: int)
    requires
        0 <= i < s.len(),
    ensures
        digits_val(s.take(i + 1)) == digits_val(s.take(i)) * 10 + digit_of(s[i]),
{
    assert(s.take(i + 1).drop_last() =~= s.take(i));
    assert(s.take(i + 1).last() == s[i]);
}

proof fn lemma_digits_val_mono(s: Seq<char>, i: int, j: int)
    requires
        0 <= i <= j <= s.len(),
    ensures
        digits_val(s.take(i)) <= digits_val(s.take(j)),
    decreases j - i,
{
    if i < j {
        lemma_digits_val_mono(s, i, j - 1);
        lemma_digits_val_step(s, j - 1);
    }
}

/// Reads the decimal value of the digits at `[from, to)` of `s`, or `None`
/// when that value exceeds `max`.
fn digits_value_capped(s: &str, from: usize, to: usize, max: u64) -> (r: Option<u64>)
    requires
        from <= to <= s@.len(),
        s@.len() <= usize::MAX,
        forall|i: int| from <= i < to ==> is_ascii_digit(#[trigger] s@[i]),
    ensures
        (match r {
            Some(v) => v as nat == digits_val(s@.subrange(from as int, to as int)) && v <= max,
            None => digits_val(s@.subrange(from as int, to as int)) > max,
        }),
{
    let ghost sub = s@.subrange(from as int, to as int);
    let mut acc: u128 = 0;
    let mut i: usize = from;
    while i < to
        invariant
            from <= i <= to <= s@.len(),
            s@.len() <= usize::MAX,
            sub == s@.subrange(from as int, to as int),
            forall|k: int| from <= k < to ==> is_ascii_digit(#[trigger] s@[k]),
            acc as nat == digits_val(sub.take(i - from)),
            acc <= max,
        decreases to - i,
    {
        let c = s.get_char(i);
        proof {
            assert(is_ascii_digit(s@[i as int]));
            assert(sub[i - from] == s@[i as int]);
            lemma_digits_val_step(sub, i - from);
        }
        let d = (c as u32) - 0x30;
        let next = acc * 10 + (d as u128);
        if next > max as u128 {
            proof {
                lemma_digits_val_mono(sub, i - from + 1, sub.len() as int);
                assert(sub.take(sub.len() as int) =~= sub);
            }
            return None;
        }
        acc = next;
        i = i + 1;
    }
    proof {
        assert(sub.take(to - from) =~= sub);
    }
    Some(acc as u64)
}

/// Interprets a whole argument as a dash followed by digits, the way a
/// trailing count argument is written: `Some` of the digits' value when the
/// string is a dash followed only by ASCII digits and the value fits an
/// `i32`, and `None` otherwise.
pub open spec fn spec_parse_dash_number(s: Seq<char>) -> Option<i32> {
    if s.len() >= 2 && s[0] == '-' && all_digits(s.skip(1)) && digits_val(s.skip(1)) <= i32::MAX {
        Some(digits_val(s.skip(1)) as i32)
    } else {
        None
    }
}

/// Reads an argument of the form dash-then-digits as a count.
pub fn parse_dash_number(s: &str) -> (r: Option<i32>)
    ensures
        r == spec_parse_dash_number(s@),
{
    let n = s.unicode_len();
    if n < 2 {
        return None;
    }
    if s.get_char(0) != '-' {
        return None;
    }
    let mut i: usize = 1;
    while i < n
        invariant
            1 <= i <= n,
            n == s@.len(),
            forall|k: int| 1 <= k < i ==> is_ascii_digit(#[trigger] s@[k]),
        ensures
            1 <= i <= n,
            n == s@.len(),
            i < n ==> !is_ascii_digit(s@[i as int]),
            i >= n ==> forall|k: int| 1 <= k < n ==> is_ascii_digit(#[trigger] s@[k]),
        decreases n - i,
    {
        let c = s.get_char(i);
        if !(c >= '0' && c <= '9') {
            break ;
        }
        i = i + 1;
    }
    if i < n {
        proof {
            assert(s@.skip(1)[i - 1] == s@[i as int]);
            assert(!all_digits(s@.skip(1)));
        }
        return None;
    }
    proof {
        assert forall|k: int| 0 <= k < s@.skip(1).len() implies is_ascii_digit(
            #[trigger] s@.skip(1)[k],
        ) by {
            assert(s@.skip(1)[k] == s@[k + 1]);
        }
        assert(s@.subrange(1, n as int) =~= s@.skip(1));
    }
    match digits_value_capped(s, 1, n, 0x7fffffff) {
        Some(v) => Some(v as i32),
        None => None,
    }
}

/// Whether position `i` starts a dash-number: whitespace, a dash, a digit.
pub open spec fn dash_number_head_at(s: Seq<char>, i: int) -> bool {
    0 <= i && i + 3 <= s.len() && is_unicode_ws(s[i]) && s[i + 1] == '-' && is_ascii_digit(
        s[i + 2],
    )
}

/// The first position at or after `i` that starts a dash-number.
pub open spec fn find_dash_head_from(s: Seq<char>, i: int) -> Option<int>
    decreases s.len() - i,
{
    if i < 0 || i + 3 > s.len() {
        None
    } else if dash_number_head_at(s, i) {
        Some(i)
    } else {
        find_dash_head_from(s, i + 1)
    }
}

/// The first position at or after `p` that is not an ASCII digit.
pub open spec fn digits_end_from(s: Seq<char>, p: int) -> int
    decreases s.len() - p,
{
    if p < 0 || p >= s.len() {
        p
    } else if is_ascii_digit(s[p]) {
        digits_end_from(s, p + 1)
    } else {
        p
    }
}

proof fn lemma_digits_end_from(s: Seq<char>, p: int)
    requires
        0 <= p <= s.len(),
    ensures
        p <= digits_end_from(s, p) <= s.len(),
        forall|k: int| p <= k < digits_end_from(s, p) ==> is_ascii_digit(#[trigger] s[k]),
    decreases s.len() - p,
{
    if p < s.len() && is_ascii_digit(s[p]) {
        lemma_digits_end_from(s, p + 1);
    }
}

proof fn lemma_find_dash_head(s: Seq<char>, i: int)
    requires
        0 <= i,
    ensures
        (match find_dash_head_from(s, i) {
            Some(p) => i <= p && dash_number_head_at(s, p),
            None => true,
        }),
    decreases s.len() - i,
{
    if i + 3 <= s.len() && !dash_number_head_at(s, i) {
        lemma_find_dash_head(s, i + 1);
    }
}

/// Where the leftmost dash-number of `s` sits: the range from its leading
/// whitespace through its last digit, or `None` when `s` has none.
pub open spec fn find_dash_number_spec(s: Seq<char>) -> Option<(int, int)> {
    match find_dash_head_from(s, 0) {
        None => None,
        Some(i) => Some((i, digits_end_from(s, i + 2))),
    }
}

/// Finds the leftmost dash-number of `s`: whitespace, a dash and a maximal
/// run of ASCII digits. Returns the range from the whitespace through the
/// digits.
pub fn find_dash_number(s: &str) -> (r: Option<(usize, usize)>)
    ensures
        (match find_dash_number_spec(s@) {
            None => r is None,
            Some(ij) => r matches Some(p) && p.0 as int == ij.0 && p.1 as int == ij.1,
        }),
{
    let n = s.unicode_len();
    let mut i: usize = 0;
    while n - i >= 3
        invariant
            0 <= i <= n,
            n == s@.len(),
            find_dash_head_from(s@, 0) == find_dash_head_from(s@, i as int),
        ensures
            0 <= i <= n,
            n == s@.len(),
            i + 3 <= n ==> find_dash_head_from(s@, 0) == Some(i as int),
            i + 3 > n ==> find_dash_head_from(s@, 0) is None,
        decreases n - i,
    {
        let c0 = s.get_char(i);
        let c2 = s.get_char(i + 2);
        if char_is_whitespace(c0) && s.get_char(i + 1) == '-' && c2 >= '0' && c2 <= '9' {
            break ;
        }
        i = i + 1;
    }
    if n - i < 3 {
        return None;
    }
    let mut j: usize = i + 2;
    while j < n
        invariant
            i + 2 <= j <= n,
            n == s@.len(),
            digits_end_from(s@, i + 2) == digits_end_from(s@, j as int),
        ensures
            i + 2 <= j <= n,
            n == s@.len(),
            digits_end_from(s@, i + 2) == j as int,
        decreases n - j,
    {
        let c = s.get_char(j);
        if !(c >= '0' && c <= '9') {
            break ;
        }
        j = j + 1;
    }
    Some((i, j))
}

/// A value reduced to the 32 bits that an `as`-cast to a signed 32-bit
/// number keeps, read as two's complement.
pub open spec fn wrap_i32(v: nat) -> int {
    let m = v % 0x100000000;
    if m >= 0x80000000 {
        m - 0x100000000
    } else {
        m as int
    }
}

/// Reduces `v` to a signed 32-bit number the way an `as`-cast does.
fn wrap_to_i32(v: u64) -> (r: i32)
    ensures
        r as int == wrap_i32(v as nat),
{
    let m = v % 0x100000000;
    if m >= 0x80000000 {
        let x = (m as i64) - 0x100000000i64;
        proof {
            assert(-0x80000000 <= x < 0);
        }
        x as i32
    } else {
        m as i32
    }
}

// ---------------------------------------------------------------------------
// Resolving the positional arguments.
// ---------------------------------------------------------------------------

/// The parts joined with single spaces.
pub fn join_with_space(parts: &Vec<String>) -> (r: String)
    ensures
        r@ == join_space(parts@.map_values(|p: String| p@)),
{
    let ghost views = parts@.map_values(|p: String| p@);
    let mut r = String::new();
    let mut i: usize = 0;
    while i < parts.len()
        invariant
            0 <= i <= parts@.len(),
            views == parts@.map_values(|p: String| p@),
            r@ == join_space(views.take(i as int)),
            i > 0 ==> views.take(i as int).len() > 0,
        decreases parts@.len() - i,
    {
        proof {
            reveal_strlit(" ");
            assert(" "@ =~= seq![' ']);
            lemma_join_space_snoc(views.take(i as int), views[i as int]);
            assert(views.take(i + 1) =~= views.take(i as int).push(views[i as int]));
        }
        if i > 0 {
            r.append(" ");
        }
        r.append(parts[i].as_str());
        i = i + 1;
    }
    proof {
        assert(views.take(parts@.len() as int) =~= views);
    }
    r
}

proof fn lemma_join_space_snoc(ts: Seq<Seq<char>>, t: Seq<char>)
    ensures
        join_space(ts.push(t)) == (if ts.len() == 0 {
            t
        } else {
            join_space(ts) + seq![' '] + t
        }),
    decreases ts.len(),
{
    if ts.len() == 0 {
        assert(ts.push(t)[0] == t);
    } else {
        lemma_join_space_snoc(ts.skip(1), t);
        assert(ts.push(t).skip(1) =~= ts.skip(1).push(t));
        assert(ts.push(t)[0] == ts[0]);
        if ts.len() == 1 {
            assert(ts.skip(1).len() == 0);
            assert(join_space(ts.push(t)) == ts[0] + seq![' '] + t);
            assert(join_space(ts) == ts[0]);
        } else {
            assert(join_space(ts.push(t)) == ts[0] + seq![' '] + (join_space(ts.skip(1)) + seq![
                ' ',
            ] + t));
            assert(join_space(ts) + seq![' '] + t == (ts[0] + seq![' '] + join_space(ts.skip(1)))
                + seq![' '] + t);
            assert(ts[0] + seq![' '] + (join_space(ts.skip(1)) + seq![' '] + t) =~= (ts[0] + seq![
                ' ',
            ] + join_space(ts.skip(1))) + seq![' '] + t);
        }
    }
}

/// How the joined positional arguments and the branch option resolve into a
/// branch name and a history count: a dash-number among the arguments sets
/// the count (reduced as an `as`-cast would, or the default when it
/// overflows a machine word) and, when no branch was given, the rest of the
/// arguments become the branch; arguments without a dash-number become the
/// branch as a whole; and a branch that is itself a dash-number is replaced
/// by an empty branch with that count.
pub open spec fn spec_resolve_step1(
    args_joined: Seq<char>,
    branch: Option<Seq<char>>,
    n0: int,
) -> (Option<Seq<char>>, int, Seq<char>) {
    match find_dash_number_spec(args_joined) {
        None => (branch, n0, args_joined),
        Some(ij) => {
            let digits = args_joined.subrange(ij.0 + 2, ij.1);
            let n1 = if digits_val(digits) <= usize::MAX {
                wrap_i32(digits_val(digits))
            } else {
                DEFAULT_HISTORY_COUNT as int
            };
            if branch is None {
                let args1 = args_joined.subrange(0, ij.0) + args_joined.subrange(
                    ij.1,
                    args_joined.len() as int,
                );
                let t = trim_ws_spec(args1);
                ((if t.len() > 0 {
                    Some(t)
                } else {
                    None
                }), n1, args1)
            } else {
                (branch, n1, args_joined)
            }
        },
    }
}

pub open spec fn spec_resolve(args_joined: Seq<char>, branch: Option<Seq<char>>, n0: int) -> (
    Option<Seq<char>>,
    int,
) {
    let step1 = spec_resolve_step1(args_joined, branch, n0);
    let b2 = if step1.0 is None && trim_ws_spec(step1.2).len() > 0 {
        Some(step1.2)
    } else {
        step1.0
    };
    match b2 {
        Some(b) => (match spec_parse_dash_number(b) {
            Some(k) => (Some(Seq::<char>::empty()), k as int),
            None => (b2, step1.1),
        }),
        None => (b2, step1.1),
    }
}

/// Resolves the joined positional arguments and the branch option into the
/// branch to show and the number of history lines, as `spec_resolve` says.
pub fn resolve_positional_args(args_joined: &str, branch: Option<String>, n0: i32) -> (r: (
    Option<String>,
    i32,
))
    ensures
        ({
            let sr = spec_resolve(
                args_joined@,
                (match branch {
                    Some(b) => Some(b@),
                    None => None,
                }),
                n0 as int,
            );
            &&& (match (r.0, sr.0) {
                (Some(a), Some(b)) => a@ == b,
                (None, None) => true,
                _ => false,
            })
            &&& r.1 as int == sr.1
        }),
{
    let n = args_joined.unicode_len();
    let ghost gbranch: Option<Seq<char>> = match branch {
        Some(ref b) => Some(b@),
        None => None,
    };
    let ghost gstep = spec_resolve_step1(args_joined@, gbranch, n0 as int);
    let branch_is_none = branch.is_none();
    let mut b1: Option<String> = branch;
    let mut n1: i32 = n0;
    let mut args1: String;
    match find_dash_number(args_joined) {
        None => {
            args1 = args_joined.to_owned();
        },
        Some((i, j)) => {
            proof {
                lemma_find_dash_head(args_joined@, 0);
                lemma_digits_end_from(args_joined@, i + 2);
            }
            let ghost digits = args_joined@.subrange(i + 2, j as int);
            match digits_value_capped(args_joined, i + 2, j, usize::MAX as u64) {
                Some(v) => {
                    n1 = wrap_to_i32(v);
                },
                None => {
                    n1 = DEFAULT_HISTORY_COUNT as i32;
                },
            }
            if branch_is_none {
                let mut head = args_joined.substring_char(0, i).to_owned();
                head.append(args_joined.substring_char(j, n));
                args1 = head;
                proof {
                    assert(args1@ == gstep.2);
                }
                let t = trim_ws(args1.as_str());
                if !t.is_empty() {
                    b1 = Some(t.to_owned());
                } else {
                    b1 = None;
                }
            } else {
                args1 = args_joined.to_owned();
            }
        },
    }
    proof {
        assert((match b1 {
            Some(a) => Some(a@),
            None => None,
        }) == gstep.0);
        assert(n1 as int == gstep.1);
        assert(args1@ == gstep.2);
    }
    let b2: Option<String> = if b1.is_none() && !trim_ws(args1.as_str()).is_empty() {
        Some(args1)
    } else {
        b1
    };
    match b2 {
        Some(b) => {
            match parse_dash_number(b.as_str()) {
                Some(k) => (Some(String::new()), k),
                None => (Some(b), n1),
            }
        },
        None => (None, n1),
    }
}

} // verus!
