//! Partial option scanner: locates where options end and free arguments
//! begin in a truncated, in-progress command line.

use vstd::prelude::*;
use vstd::string::*;

verus! {

/// The words of a command line, each as its sequence of characters.
pub open spec fn word_views(ws: Seq<String>) -> Seq<Seq<char>> {
    ws.map_values(|w: String| w@)
}

/// A word that looks like an option: it begins with a dash.  A lone `-`
/// counts too; it simply carries no option letters.
pub open spec fn is_dash_word(w: Seq<char>) -> bool {
    w.len() >= 1 && w[0] == '-'
}

/// A word that begins with two dashes (a bare `--` included) ends option
/// scanning: everything after it is a free argument.
pub open spec fn is_double_dash_word(w: Seq<char>) -> bool {
    w.len() >= 2 && w[0] == '-' && w[1] == '-'
}

/// Some letter after the leading dash of `w` is an option that consumes the
/// following word as its argument, wherever it sits in the cluster.
pub open spec fn demands_arg(w: Seq<char>, needs_opt_arg: Seq<char>) -> bool {
    exists|j: int| 1 <= j < w.len() && needs_opt_arg.contains(w[j])
}

/// The index at which free arguments begin, scanning `ws` from index `i`
/// with the pending-argument flag `need_arg`:
/// a `--`-style word ends the scan after itself; a dash word may raise the
/// pending-argument flag; a word under a raised flag is absorbed as the
/// option's argument; the first remaining non-empty word is the free start;
/// empty words are skipped; an exhausted list puts the free start at its end.
pub open spec fn scan_from(
    ws: Seq<Seq<char>>,
    needs_opt_arg: Seq<char>,
    i: int,
    need_arg: bool,
) -> int
    decreases ws.len() - i,
{
    if i >= ws.len() {
        ws.len() as int
    } else if is_double_dash_word(ws[i]) {
        i + 1
    } else if is_dash_word(ws[i]) {
        scan_from(ws, needs_opt_arg, i + 1, need_arg || demands_arg(ws[i], needs_opt_arg))
    } else if need_arg {
        scan_from(ws, needs_opt_arg, i + 1, false)
    } else if ws[i].len() > 0 {
        i
    } else {
        scan_from(ws, needs_opt_arg, i + 1, false)
    }
}

/// The index at which free arguments begin: the scan starts at word 1,
/// skipping the command name, with no argument pending.
pub open spec fn spec_free_start(ws: Seq<Seq<char>>, needs_opt_arg: Seq<char>) -> int {
    scan_from(ws, needs_opt_arg, 1, false)
}

/// What the scanner found: the word before the cursor, the word at the
/// cursor, and the index at which free arguments begin.
pub struct PartialGetoptResult {
    pub prev: String,
    pub cur: String,
    pub free_start: usize,
}

fn contains_char(cs: &Vec<char>, c: char) -> (r: bool)
    ensures
        r == cs@.contains(c),
{
    let mut k: usize = 0;
    while k < cs.len()
        invariant
            k <= cs@.len(),
            forall|m: int| 0 <= m < k ==> cs@[m] != c,
        decreases cs@.len() - k,
    {
        if cs[k] == c {
            assert(cs@[k as int] == c);
            return true;
        }
        k += 1;
    }
    assert(!cs@.contains(c));
    false
}

fn demands_arg_exec(w: &str, needs_opt_arg: &Vec<char>) -> (r: bool)
    ensures
        r == demands_arg(w@, needs_opt_arg@),
{
    let n = w.unicode_len();
    let mut j: usize = 1;
    while j < n
        invariant
            n == w@.len(),
            1 <= j,
            forall|m: int| 1 <= m < j ==> !needs_opt_arg@.contains(w@[m]),
        decreases n - j,
    {
        let c = w.get_char(j);
        if contains_char(needs_opt_arg, c) {
            assert(needs_opt_arg@.contains(w@[j as int]));
            return true;
        }
        j += 1;
    }
    false
}

fn is_dash_word_exec(w: &str) -> (r: bool)
    ensures
        r == is_dash_word(w@),
{
    w.unicode_len() >= 1 && w.get_char(0) == '-'
}

fn is_double_dash_word_exec(w: &str) -> (r: bool)
    ensures
        r == is_double_dash_word(w@),
{
    w.unicode_len() >= 2 && w.get_char(0) == '-' && w.get_char(1) == '-'
}

/// Scan an in-progress command line for the boundary between options and
/// free arguments.  `needs_opt_arg` lists the short-option letters that
/// consume the following word as their argument.
///
/// With fewer than two words, or with the cursor on the command-name word,
/// there is no context to complete in, and no result is returned — exactly
/// then.
pub fn partial_getopt_parser(
    cword: usize,
    words: &Vec<String>,
    needs_opt_arg: &Vec<char>,
) -> (r: Option<PartialGetoptResult>)
    requires
        cword < words@.len(),
    ensures
        r is Some <==> (words@.len() >= 2 && cword >= 1),
        (r matches Some(p) ==> {
            &&& p.prev@ == words@[cword as int - 1]@
            &&& p.cur@ == words@[cword as int]@
            &&& p.free_start == spec_free_start(word_views(words@), needs_opt_arg@)
        }),
{
    if words.len() < 2 || cword < 1 {
        return None;
    }
    let cur = words[cword].clone();
    let prev = words[cword - 1].clone();

    let ghost ws = word_views(words@);
    let mut free_start: usize = 1;
    let mut need_arg = false;
    loop
        invariant_except_break
            1 <= free_start <= words@.len(),
            ws == word_views(words@),
            spec_free_start(ws, needs_opt_arg@) == scan_from(
                ws,
                needs_opt_arg@,
                free_start as int,
                need_arg,
            ),
        ensures
            free_start == spec_free_start(ws, needs_opt_arg@),
        decreases words@.len() - free_start,
    {
        if free_start >= words.len() {
            assert(free_start == words@.len());
            break;
        }
        let w: &String = &words[free_start];
        assert(w@ == ws[free_start as int]);

        if is_dash_word_exec(w.as_str()) {
            if is_double_dash_word_exec(w.as_str()) {
                free_start += 1;
                break;
            }
            if demands_arg_exec(w.as_str(), needs_opt_arg) {
                need_arg = true;
            }
        } else if need_arg {
            need_arg = false;
        } else if w.unicode_len() > 0 {
            break;
        }
        free_start += 1;
    }

    Some(PartialGetoptResult { prev, cur, free_start })
}

/// A word in position 1 that begins with two dashes puts the free-argument
/// boundary at index 2, whatever else the word or the rest of the line
/// holds, and whichever letters require arguments.
pub proof fn lemma_double_dash_terminates(ws: Seq<Seq<char>>, needs_opt_arg: Seq<char>)
    requires
        ws.len() >= 2,
        is_double_dash_word(ws[1]),
    ensures
        spec_free_start(ws, needs_opt_arg) == 2,
{
}

/// A dash cluster holding a required letter anywhere after the dash (not
/// only first) consumes the following word as its argument: whatever the
/// pending flag held before the cluster, the word after it is absorbed and
/// the scan continues beyond both with no argument pending.
pub proof fn lemma_cluster_consumes_next(
    ws: Seq<Seq<char>>,
    needs_opt_arg: Seq<char>,
    i: int,
    need_arg: bool,
)
    requires
        0 <= i,
        i + 1 < ws.len(),
        is_dash_word(ws[i]),
        !is_double_dash_word(ws[i]),
        demands_arg(ws[i], needs_opt_arg),
        !is_dash_word(ws[i + 1]),
    ensures
        scan_from(ws, needs_opt_arg, i, need_arg) == scan_from(ws, needs_opt_arg, i + 2, false),
{
    assert(scan_from(ws, needs_opt_arg, i, need_arg) == scan_from(ws, needs_opt_arg, i + 1, true));
    assert(!is_double_dash_word(ws[i + 1]));
    assert(scan_from(ws, needs_opt_arg, i + 1, true) == scan_from(ws, needs_opt_arg, i + 2, false));
}

} // verus!
