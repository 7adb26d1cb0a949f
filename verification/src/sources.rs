//! Parsing of zone-name sources: the newline-separated output of the
//! zone-listing tool, and the whitespace-separated form of the test
//! override.  The processes and environment variables themselves are read
//! by the surrounding program, which hands their text here.

use vstd::prelude::*;
use vstd::string::*;
use crate::optparse::word_views;

verus! {

/// A line's content with a single trailing carriage return removed, as a
/// `\r\n` line ending leaves one before its `\n`.
pub open spec fn strip_cr(line: Seq<char>) -> Seq<char> {
    if line.len() > 0 && line[line.len() - 1] == '\r' {
        line.drop_last()
    } else {
        line
    }
}

/// The lines of `s` continued from a partial current line `cur`: each
/// newline ends a line (whose content drops a trailing carriage return),
/// and a non-empty final line without a line ending still counts.
pub open spec fn lines_acc(s: Seq<char>, cur: Seq<char>) -> Seq<Seq<char>>
    decreases s.len(),
{
    if s.len() == 0 {
        if cur.len() == 0 {
            Seq::<Seq<char>>::empty()
        } else {
            seq![cur]
        }
    } else if s[0] == '\n' {
        seq![strip_cr(cur)] + lines_acc(s.drop_first(), Seq::<char>::empty())
    } else {
        lines_acc(s.drop_first(), cur.push(s[0]))
    }
}

/// The lines of `s`, split at `\n` or `\r\n` line endings, a final line
/// ending optional.
pub open spec fn spec_lines(s: Seq<char>) -> Seq<Seq<char>> {
    lines_acc(s, Seq::<char>::empty())
}

/// Split text into its lines: the zone-listing tool prints one zone name
/// per line.
pub fn split_lines(s: &str) -> (r: Vec<String>)
    ensures
        word_views(r@) == spec_lines(s@),
{
    let n = s.unicode_len();
    let mut r: Vec<String> = Vec::new();
    let mut start: usize = 0;
    let mut i: usize = 0;
    proof {
        assert(s@.skip(0) =~= s@);
        assert(s@.subrange(0, 0) =~= Seq::<char>::empty());
        assert(word_views(r@) =~= Seq::<Seq<char>>::empty());
        assert(Seq::<Seq<char>>::empty() + spec_lines(s@) =~= spec_lines(s@));
    }
    while i < n
        invariant
            n == s@.len(),
            start <= i <= n,
            spec_lines(s@) == word_views(r@) + lines_acc(
                s@.skip(i as int),
                s@.subrange(start as int, i as int),
            ),
        decreases n - i,
    {
        let ghost cur = s@.subrange(start as int, i as int);
        proof {
            assert(s@.skip(i as int)[0] == s@[i as int]);
            assert(s@.skip(i as int).drop_first() =~= s@.skip(i as int + 1));
        }
        let c = s.get_char(i);
        if c == '\n' {
            let line = if i > start && s.get_char(i - 1) == '\r' {
                s.substring_char(start, i - 1)
            } else {
                s.substring_char(start, i)
            };
            proof {
                if i > start && s@[i as int - 1] == '\r' {
                    assert(cur[cur.len() - 1] == s@[i as int - 1]);
                    assert(strip_cr(cur) =~= s@.subrange(start as int, i as int - 1));
                } else {
                    if cur.len() > 0 {
                        assert(cur[cur.len() - 1] == s@[i as int - 1]);
                    }
                    assert(strip_cr(cur) =~= s@.subrange(start as int, i as int));
                }
                assert(line@ == strip_cr(cur));
            }
            let ghost old_r = r@;
            r.push(line.to_owned());
            proof {
                assert(word_views(r@) =~= word_views(old_r).push(strip_cr(cur)));
                assert(lines_acc(s@.skip(i as int), cur) == seq![strip_cr(cur)] + lines_acc(
                    s@.skip(i as int + 1),
                    Seq::<char>::empty(),
                ));
                assert(word_views(old_r) + (seq![strip_cr(cur)] + lines_acc(
                    s@.skip(i as int + 1),
                    Seq::<char>::empty(),
                )) =~= word_views(old_r).push(strip_cr(cur)) + lines_acc(
                    s@.skip(i as int + 1),
                    Seq::<char>::empty(),
                ));
                assert(s@.subrange(i as int + 1, i as int + 1) =~= Seq::<char>::empty());
            }
            start = i + 1;
        } else {
            proof {
                assert(lines_acc(s@.skip(i as int), cur) == lines_acc(
                    s@.skip(i as int + 1),
                    cur.push(s@[i as int]),
                ));
                assert(cur.push(s@[i as int]) =~= s@.subrange(start as int, i as int + 1));
            }
        }
        i += 1;
    }
    proof {
        assert(s@.skip(n as int) =~= Seq::<char>::empty());
    }
    if start < n {
        let line = s.substring_char(start, n);
        let ghost old_r = r@;
        r.push(line.to_owned());
        proof {
            let ghost cur = s@.subrange(start as int, n as int);
            assert(cur.len() > 0);
            assert(lines_acc(Seq::<char>::empty(), cur) == seq![cur]);
            assert(word_views(r@) =~= word_views(old_r).push(cur));
            assert(word_views(old_r) + seq![cur] =~= word_views(old_r).push(cur));
        }
    } else {
        proof {
            let ghost cur = s@.subrange(start as int, n as int);
            assert(cur.len() == 0);
            assert(lines_acc(Seq::<char>::empty(), cur) == Seq::<Seq<char>>::empty());
            assert(word_views(r@) + Seq::<Seq<char>>::empty() =~= word_views(r@));
        }
    }
    r
}

/// A character with the White_Space property, as the whitespace-separated
/// test override is split on it.
pub open spec fn is_ws_char(c: char) -> bool {
    (9 <= c as int && c as int <= 13) || c as int == 0x20 || c as int == 0x85 || c as int == 0xA0
        || c as int == 0x1680 || (0x2000 <= c as int && c as int <= 0x200A) || c as int == 0x2028
        || c as int == 0x2029 || c as int == 0x202F || c as int == 0x205F || c as int == 0x3000
}

/// The whitespace-separated words of `s` continued from a partial current
/// word `cur`: runs of whitespace separate words, and empty words never
/// appear.
pub open spec fn words_acc(s: Seq<char>, cur: Seq<char>) -> Seq<Seq<char>>
    decreases s.len(),
{
    if s.len() == 0 {
        if cur.len() == 0 {
            Seq::<Seq<char>>::empty()
        } else {
            seq![cur]
        }
    } else if is_ws_char(s[0]) {
        (if cur.len() == 0 {
            Seq::<Seq<char>>::empty()
        } else {
            seq![cur]
        }) + words_acc(s.drop_first(), Seq::<char>::empty())
    } else {
        words_acc(s.drop_first(), cur.push(s[0]))
    }
}

/// The whitespace-separated words of `s`.
pub open spec fn spec_whitespace_words(s: Seq<char>) -> Seq<Seq<char>> {
    words_acc(s, Seq::<char>::empty())
}

fn is_ws_char_exec(c: char) -> (r: bool)
    ensures
        r == is_ws_char(c),
{
    let v = c as u32;
    (9 <= v && v <= 13) || v == 0x20 || v == 0x85 || v == 0xA0 || v == 0x1680 || (0x2000 <= v
        && v <= 0x200A) || v == 0x2028 || v == 0x2029 || v == 0x202F || v == 0x205F || v == 0x3000
}

/// Split text into its whitespace-separated words: the test override
/// names zones this way.
pub fn split_whitespace_words(s: &str) -> (r: Vec<String>)
    ensures
        word_views(r@) == spec_whitespace_words(s@),
{
    let n = s.unicode_len();
    let mut r: Vec<String> = Vec::new();
    let mut start: usize = 0;
    let mut i: usize = 0;
    proof {
        assert(s@.skip(0) =~= s@);
        assert(s@.subrange(0, 0) =~= Seq::<char>::empty());
        assert(word_views(r@) =~= Seq::<Seq<char>>::empty());
        assert(Seq::<Seq<char>>::empty() + spec_whitespace_words(s@) =~= spec_whitespace_words(
            s@,
        ));
    }
    while i < n
        invariant
            n == s@.len(),
            start <= i <= n,
            spec_whitespace_words(s@) == word_views(r@) + words_acc(
                s@.skip(i as int),
                s@.subrange(start as int, i as int),
            ),
        decreases n - i,
    {
        let ghost cur = s@.subrange(start as int, i as int);
        proof {
            assert(s@.skip(i as int)[0] == s@[i as int]);
            assert(s@.skip(i as int).drop_first() =~= s@.skip(i as int + 1));
        }
        let c = s.get_char(i);
        if is_ws_char_exec(c) {
            proof {
                assert(words_acc(s@.skip(i as int), cur) == (if cur.len() == 0 {
                    Seq::<Seq<char>>::empty()
                } else {
                    seq![cur]
                }) + words_acc(s@.skip(i as int + 1), Seq::<char>::empty()));
                assert(s@.subrange(i as int + 1, i as int + 1) =~= Seq::<char>::empty());
            }
            if i > start {
                let word = s.substring_char(start, i);
                let ghost old_r = r@;
                r.push(word.to_owned());
                proof {
                    assert(cur.len() > 0);
                    assert(word_views(r@) =~= word_views(old_r).push(cur));
                    assert(word_views(old_r) + (seq![cur] + words_acc(
                        s@.skip(i as int + 1),
                        Seq::<char>::empty(),
                    )) =~= word_views(old_r).push(cur) + words_acc(
                        s@.skip(i as int + 1),
                        Seq::<char>::empty(),
                    ));
                }
            } else {
                proof {
                    assert(cur.len() == 0);
                    assert(Seq::<Seq<char>>::empty() + words_acc(
                        s@.skip(i as int + 1),
                        Seq::<char>::empty(),
                    ) =~= words_acc(s@.skip(i as int + 1), Seq::<char>::empty()));
                }
            }
            start = i + 1;
        } else {
            proof {
                assert(words_acc(s@.skip(i as int), cur) == words_acc(
                    s@.skip(i as int + 1),
                    cur.push(s@[i as int]),
                ));
                assert(cur.push(s@[i as int]) =~= s@.subrange(start as int, i as int + 1));
            }
        }
        i += 1;
    }
    proof {
        assert(s@.skip(n as int) =~= Seq::<char>::empty());
    }
    if start < n {
        let word = s.substring_char(start, n);
        let ghost old_r = r@;
        r.push(word.to_owned());
        proof {
            let ghost cur = s@.subrange(start as int, n as int);
            assert(cur.len() > 0);
            assert(words_acc(Seq::<char>::empty(), cur) == seq![cur]);
            assert(word_views(r@) =~= word_views(old_r).push(cur));
            assert(word_views(old_r) + seq![cur] =~= word_views(old_r).push(cur));
        }
    } else {
        proof {
            let ghost cur = s@.subrange(start as int, n as int);
            assert(cur.len() == 0);
            assert(words_acc(Seq::<char>::empty(), cur) == Seq::<Seq<char>>::empty());
            assert(word_views(r@) + Seq::<Seq<char>>::empty() =~= word_views(r@));
        }
    }
    r
}

} // verus!
