//! Per-command completion strategies, built from the scanner and the
//! output builder.

use vstd::prelude::*;
use vstd::string::*;
use crate::optparse::{partial_getopt_parser, spec_free_start, word_views, PartialGetoptResult};
use crate::shell::{eval_output, insert_sorted, str_eq, Output};

verus! {

/// The candidate list after adding every word of `vs`, in order, to `ws`.
pub open spec fn insert_all(ws: Seq<Seq<char>>, vs: Seq<Seq<char>>) -> Seq<Seq<char>>
    decreases vs.len(),
{
    if vs.len() == 0 {
        ws
    } else {
        insert_all(insert_sorted(ws, vs[0]), vs.drop_first())
    }
}

proof fn lemma_insert_all_push(ws: Seq<Seq<char>>, vs: Seq<Seq<char>>, v: Seq<char>)
    ensures
        insert_all(ws, vs.push(v)) == insert_sorted(insert_all(ws, vs), v),
    decreases vs.len(),
{
    if vs.len() == 0 {
        assert(vs.push(v)[0] == v);
        assert(vs.push(v).drop_first() =~= Seq::<Seq<char>>::empty());
        assert(insert_all(insert_sorted(ws, v), Seq::<Seq<char>>::empty()) == insert_sorted(
            ws,
            v,
        ));
    } else {
        assert(vs.push(v)[0] == vs[0]);
        assert(vs.push(v).drop_first() =~= vs.drop_first().push(v));
        lemma_insert_all_push(insert_sorted(ws, vs[0]), vs.drop_first(), v);
    }
}

/// Add every word of `vs` to the builder, in order.
fn add_words(out: &mut Output, vs: &Vec<String>)
    requires
        old(out).wf(),
    ensures
        final(out).wf(),
        final(out).words_view() == insert_all(old(out).words_view(), word_views(vs@)),
        final(out).defaults_flag() == old(out).defaults_flag(),
{
    let ghost base = out.words_view();
    let ghost vws = word_views(vs@);
    let mut i: usize = 0;
    proof {
        assert(vws.take(0) =~= Seq::<Seq<char>>::empty());
    }
    while i < vs.len()
        invariant
            out.wf(),
            i <= vs@.len(),
            vws == word_views(vs@),
            out.words_view() == insert_all(base, vws.take(i as int)),
            out.defaults_flag() == old(out).defaults_flag(),
        decreases vs@.len() - i,
    {
        out.add_word(vs[i].as_str());
        proof {
            lemma_insert_all_push(base, vws.take(i as int), vws[i as int]);
            assert(vws.take(i as int + 1) =~= vws.take(i as int).push(vws[i as int]));
        }
        i += 1;
    }
    proof {
        assert(vws.take(vs@.len() as int) =~= vws);
    }
}

/// What completing a `-z <zone>`-style command prints, for the words `ws`
/// of the command line, the cursor index `cword` and the known zone names
/// `zones`: nothing without context; the zone names (sorted, deduplicated,
/// filtered by the current word) while the cursor sits among the options
/// right after a `-z`; otherwise the default-fallback line.
pub open spec fn dash_z_output(ws: Seq<Seq<char>>, cword: int, zones: Seq<Seq<char>>) -> Seq<
    char,
> {
    if ws.len() < 2 || cword < 1 {
        Seq::<char>::empty()
    } else {
        let fs = spec_free_start(ws, seq!['z']);
        let cur = ws[cword];
        if cword < fs && ws[cword - 1] == "-z"@ {
            eval_output(insert_all(Seq::<Seq<char>>::empty(), zones), false, cur)
        } else {
            eval_output(Seq::<Seq<char>>::empty(), true, cur)
        }
    }
}

/// Completion for the commands that take a `-z <zone>` option: offer the
/// zone names as the option's argument, and fall back to default
/// completion everywhere else.
pub fn complete_dash_z(cword: usize, words: &Vec<String>, zones: &Vec<String>) -> (r: String)
    requires
        cword < words@.len(),
    ensures
        r@ == dash_z_output(word_views(words@), cword as int, word_views(zones@)),
{
    let mut needs: Vec<char> = Vec::new();
    needs.push('z');
    proof {
        assert(needs@ =~= seq!['z']);
    }
    let pgr: PartialGetoptResult = match partial_getopt_parser(cword, words, &needs) {
        Some(p) => p,
        None => {
            return String::new();
        },
    };
    let mut out = Output::new();
    if cword < pgr.free_start && str_eq(pgr.prev.as_str(), "-z") {
        add_words(&mut out, zones);
    } else {
        out.use_defaults(true);
    }
    out.emit_eval(pgr.cur.as_str())
}

/// The username-completion line: the shell is asked to complete `cur`
/// against the system user database.  As in the default-fallback line,
/// `cur` is embedded between fixed single quotes without further escaping.
pub open spec fn username_line(cur: Seq<char>) -> Seq<char> {
    "COMPREPLY=( $(compgen -u -- '"@ + cur + "') )\n"@
}

fn emit_usernames(cur: &str) -> (r: String)
    ensures
        r@ == username_line(cur@),
{
    let mut r = String::from_str("COMPREPLY=( $(compgen -u -- '");
    r.append(cur);
    r.append("') )\n");
    r
}

/// The literal flag tokens `zlogin` offers while the cursor sits strictly
/// among the options.
pub open spec fn zlogin_flag_words() -> Seq<Seq<char>> {
    seq!["-E"@, "-Q"@, "-e"@, "-l"@, "-d"@, "-C"@, "-n"@, "-S"@]
}

/// What completing `zlogin` prints, for the words `ws`, the cursor index
/// `cword` and the known zone names `zones`: nothing without context;
/// username completion right after `-l`; nothing right after `-e` (the
/// escape character is free-form); at or before the free-argument boundary
/// the zone names, joined by the flag tokens strictly before the boundary;
/// otherwise the default-fallback line.
pub open spec fn zlogin_output(ws: Seq<Seq<char>>, cword: int, zones: Seq<Seq<char>>) -> Seq<
    char,
> {
    if ws.len() < 2 || cword < 1 {
        Seq::<char>::empty()
    } else {
        let fs = spec_free_start(ws, seq!['e', 'l']);
        let prev = ws[cword - 1];
        let cur = ws[cword];
        if prev == "-l"@ {
            username_line(cur)
        } else if prev == "-e"@ {
            Seq::<char>::empty()
        } else if cword <= fs {
            let base = if cword < fs {
                insert_all(Seq::<Seq<char>>::empty(), zlogin_flag_words())
            } else {
                Seq::<Seq<char>>::empty()
            };
            eval_output(insert_all(base, zones), false, cur)
        } else {
            eval_output(Seq::<Seq<char>>::empty(), true, cur)
        }
    }
}

/// Completion for `zlogin`: usernames after `-l`, nothing after `-e`, zone
/// names (and, strictly before the free-argument boundary, the literal
/// flag tokens) while options can still appear, default fallback after.
pub fn complete_zlogin(cword: usize, words: &Vec<String>, zones: &Vec<String>) -> (r: String)
    requires
        cword < words@.len(),
    ensures
        r@ == zlogin_output(word_views(words@), cword as int, word_views(zones@)),
{
    let mut needs: Vec<char> = Vec::new();
    needs.push('e');
    needs.push('l');
    proof {
        assert(needs@ =~= seq!['e', 'l']);
    }
    let pgr: PartialGetoptResult = match partial_getopt_parser(cword, words, &needs) {
        Some(p) => p,
        None => {
            return String::new();
        },
    };
    if str_eq(pgr.prev.as_str(), "-l") {
        return emit_usernames(pgr.cur.as_str());
    }
    let mut out = Output::new();
    if str_eq(pgr.prev.as_str(), "-e") {
        // Nothing completes the escape-character argument.
    } else if cword <= pgr.free_start {
        if cword < pgr.free_start {
            let mut flags: Vec<String> = Vec::new();
            flags.push(String::from_str("-E"));
            flags.push(String::from_str("-Q"));
            flags.push(String::from_str("-e"));
            flags.push(String::from_str("-l"));
            flags.push(String::from_str("-d"));
            flags.push(String::from_str("-C"));
            flags.push(String::from_str("-n"));
            flags.push(String::from_str("-S"));
            proof {
                assert(word_views(flags@) =~= zlogin_flag_words());
            }
            add_words(&mut out, &flags);
        }
        add_words(&mut out, zones);
    } else {
        out.use_defaults(true);
    }
    out.emit_eval(pgr.cur.as_str())
}

} // verus!
