//! Splitting raw command-line tokens into flags and file paths.

use vstd::prelude::*;
use vstd::string::*;
use crate::counter::Flags;
use crate::strfmt::str_eq;

verus! {

/// Whether `custom` holds an entry equal to `f`.
pub open spec fn contains_str(custom: Seq<Seq<char>>, f: Seq<char>) -> bool {
    exists|j: int| 0 <= j < custom.len() && custom[j] == f
}

/// Whether the token is flag-shaped: it begins with '-' and is not the
/// bare "-" token.
pub open spec fn flag_like(a: Seq<char>) -> bool {
    a.len() >= 2 && a[0] == '-'
}

/// Whether a flag-shaped token is a run of combined single-letter flags:
/// longer than two bytes in its UTF-8 form (a third character, or a second
/// character outside ASCII) and not beginning with "--".
pub open spec fn combined_short(a: Seq<char>) -> bool
    recommends
        flag_like(a),
{
    (a.len() > 2 || (a.len() == 2 && a[1] as u32 > 0x7f)) && a[1] != '-'
}

/// The expansion of the letters of a combined token (its characters after
/// the leading dash): each letter becomes a "-x" flag if recognized, and
/// the first unrecognized letter produces the invalid-option error.
pub open spec fn expand_short(cs: Seq<char>, custom: Seq<Seq<char>>) -> Result<
    Seq<Seq<char>>,
    Seq<char>,
>
    decreases cs.len(),
{
    if cs.len() == 0 {
        Result::Ok(Seq::<Seq<char>>::empty())
    } else {
        let f = seq!['-', cs.first()];
        if contains_str(custom, f) {
            match expand_short(cs.drop_first(), custom) {
                Result::Ok(fs) => Result::Ok(seq![f] + fs),
                Result::Err(e) => Result::Err(e),
            }
        } else {
            Result::Err("rswc: invalid option -"@ + seq![cs.first()])
        }
    }
}

/// The meaning of a token list: flag-shaped tokens are recognized whole or
/// expanded letter by letter, every other token is a file path, and the
/// first offending token produces the error. On success the recognized
/// flags and the paths each keep command-line order.
pub open spec fn parse_args(args: Seq<Seq<char>>, custom: Seq<Seq<char>>) -> Result<
    (Seq<Seq<char>>, Seq<Seq<char>>),
    Seq<char>,
>
    decreases args.len(),
{
    if args.len() == 0 {
        Result::Ok((Seq::<Seq<char>>::empty(), Seq::<Seq<char>>::empty()))
    } else {
        let a = args.first();
        let rest = parse_args(args.drop_first(), custom);
        if flag_like(a) {
            if combined_short(a) {
                match expand_short(a.drop_first(), custom) {
                    Result::Ok(fs) => match rest {
                        Result::Ok(r) => Result::Ok((fs + r.0, r.1)),
                        Result::Err(e) => Result::Err(e),
                    },
                    Result::Err(e) => Result::Err(e),
                }
            } else if contains_str(custom, a) {
                match rest {
                    Result::Ok(r) => Result::Ok((seq![a] + r.0, r.1)),
                    Result::Err(e) => Result::Err(e),
                }
            } else {
                Result::Err("rswc: unrecognized option "@ + a)
            }
        } else {
            match rest {
                Result::Ok(r) => Result::Ok((r.0, seq![a] + r.1)),
                Result::Err(e) => Result::Err(e),
            }
        }
    }
}

/// The parsed command line: the recognized flag tokens and the input
/// paths, each in the order given.
#[derive(Debug)]
pub struct ArgSet {
    pub flags: Vec<String>,
    pub file_paths: Vec<String>,
}

/// Finds a recognized flag of the exact form "-x" for the letter `ch`.
fn find_short_flag(custom: &Vec<String>, ch: char) -> (r: Option<usize>)
    ensures
        match r {
            Some(j) => j < custom@.len() && custom.deep_view()[j as int] == seq!['-', ch],
            None => !contains_str(custom.deep_view(), seq!['-', ch]),
        },
{
    let n = custom.len();
    let mut i: usize = 0;
    while i < n
        invariant
            i <= n,
            n == custom@.len(),
            forall|j: int| 0 <= j < i ==> custom.deep_view()[j] != seq!['-', ch],
        decreases n - i,
    {
        proof {
            assert(custom.deep_view()[i as int] == custom@[i as int]@);
        }
        let f = &custom[i];
        if f.as_str().unicode_len() == 2 {
            if f.as_str().get_char(0) == '-' && f.as_str().get_char(1) == ch {
                proof {
                    assert(custom.deep_view()[i as int] =~= seq!['-', ch]);
                }
                return Some(i);
            }
        }
        proof {
            assert(custom.deep_view()[i as int] != seq!['-', ch]);
        }
        i = i + 1;
    }
    None
}

/// Whether `custom` holds a flag equal to `target`.
fn contains_flag(custom: &Vec<String>, target: &str) -> (r: bool)
    ensures
        r == contains_str(custom.deep_view(), target@),
{
    let n = custom.len();
    let mut i: usize = 0;
    while i < n
        invariant
            i <= n,
            n == custom@.len(),
            forall|j: int| 0 <= j < i ==> custom.deep_view()[j] != target@,
        decreases n - i,
    {
        proof {
            assert(custom.deep_view()[i as int] == custom@[i as int]@);
        }
        if str_eq(custom[i].as_str(), target) {
            return true;
        }
        i = i + 1;
    }
    false
}

impl ArgSet {
    /// Whether the named flag occurred on the command line.
    pub fn has(&self, name: &str) -> (r: bool)
        ensures
            r == contains_str(self.flags.deep_view(), name@),
    {
        contains_flag(&self.flags, name)
    }

    /// Splits raw command-line tokens into recognized flags and file paths,
    /// or reports the first invalid or unrecognized option.
    #[verifier::loop_isolation(false)]
    pub fn try_from(args: Vec<String>, custom_flags: &Vec<String>) -> (r: Result<ArgSet, String>)
        ensures
            ({
                let spec_r = parse_args(args.deep_view(), custom_flags.deep_view());
                match r {
                    Result::Ok(a) => spec_r matches Result::Ok(p) && a.flags.deep_view() == p.0
                        && a.file_paths.deep_view() == p.1,
                    Result::Err(e) => spec_r matches Result::Err(m) && e@ == m,
                }
            }),
    {
        let ghost av = args.deep_view();
        let ghost cv = custom_flags.deep_view();
        let n = args.len();
        let mut flags: Vec<String> = Vec::new();
        let mut paths: Vec<String> = Vec::new();
        let mut i: usize = 0;
        proof {
            assert(av.skip(0) =~= av);
            assert(flags.deep_view() =~= Seq::<Seq<char>>::empty());
            assert(paths.deep_view() =~= Seq::<Seq<char>>::empty());
            match parse_args(av, cv) {
                Result::Ok(p) => {
                    assert(flags.deep_view() + p.0 =~= p.0);
                    assert(paths.deep_view() + p.1 =~= p.1);
                },
                Result::Err(_) => {},
            }
        }
        while i < n
            invariant
                i <= n,
                n == args@.len(),
                av == args.deep_view(),
                cv == custom_flags.deep_view(),
                ({
                    match parse_args(av.skip(i as int), cv) {
                        Result::Ok(p) => parse_args(av, cv) matches Result::Ok(q) && q.0
                            == flags.deep_view() + p.0 && q.1 == paths.deep_view() + p.1,
                        Result::Err(e) => parse_args(av, cv) matches Result::Err(m) && m == e,
                    }
                }),
            decreases n - i,
        {
            let ghost rem = av.skip(i as int);
            proof {
                assert(av[i as int] == args@[i as int]@);
                assert(rem.first() == av[i as int]);
                assert(rem.drop_first() =~= av.skip(i as int + 1));
            }
            let arg = &args[i];
            let a = arg.as_str();
            let clen = a.unicode_len();
            if clen >= 2 && a.get_char(0) == '-' {
                let second = a.get_char(1);
                if (clen > 2 || (second as u32) > 0x7f) && second != '-' {
                    // a run of combined single-letter flags
                    let mut expanded: Vec<String> = Vec::new();
                    let mut k: usize = 1;
                    proof {
                        assert(a@.skip(1) =~= a@.drop_first());
                        assert(expanded.deep_view() =~= Seq::<Seq<char>>::empty());
                        match expand_short(a@.skip(1), cv) {
                            Result::Ok(all) => {
                                assert(expanded.deep_view() + all =~= all);
                            },
                            Result::Err(_) => {},
                        }
                    }
                    while k < clen
                        invariant
                            1 <= k <= clen,
                            clen == a@.len(),
                            cv == custom_flags.deep_view(),
                            ({
                                match expand_short(a@.skip(k as int), cv) {
                                    Result::Ok(fs) => expand_short(a@.drop_first(), cv)
                                        matches Result::Ok(all) && all == expanded.deep_view() + fs,
                                    Result::Err(e) => expand_short(a@.drop_first(), cv)
                                        matches Result::Err(m) && m == e,
                                }
                            }),
                        decreases clen - k,
                    {
                        let ghost crem = a@.skip(k as int);
                        proof {
                            assert(crem.first() == a@[k as int]);
                            assert(crem.drop_first() =~= a@.skip(k as int + 1));
                        }
                        let ch = a.get_char(k);
                        match find_short_flag(custom_flags, ch) {
                            Some(j) => {
                                proof {
                                    assert(contains_str(cv, seq!['-', ch])) by {
                                        assert(cv[j as int] == seq!['-', ch]);
                                    }
                                }
                                let f = custom_flags[j].clone();
                                proof {
                                    assert(f@ == seq!['-', ch]);
                                }
                                let ghost exp_before = expanded.deep_view();
                                expanded.push(f);
                                proof {
                                    assert(expanded.deep_view() =~= exp_before + seq![
                                        seq!['-', ch],
                                    ]);
                                    match expand_short(a@.skip(k as int + 1), cv) {
                                        Result::Ok(fs2) => {
                                            assert((exp_before + seq![seq!['-', ch]]) + fs2
                                                =~= exp_before + (seq![seq!['-', ch]] + fs2));
                                        },
                                        Result::Err(_) => {},
                                    }
                                }
                            },
                            None => {
                                let mut e = "rswc: invalid option -".to_owned();
                                e.push(ch);
                                proof {
                                    assert(crem.first() == ch);
                                    assert(expand_short(crem, cv) matches Result::Err(m) && m
                                        == e@);
                                    assert(expand_short(a@.drop_first(), cv)
                                        matches Result::Err(m) && m == e@);
                                    assert(flag_like(rem.first()));
                                    assert(combined_short(rem.first()));
                                    assert(parse_args(rem, cv) matches Result::Err(m) && m == e@);
                                }
                                return Result::Err(e);
                            },
                        }
                        k = k + 1;
                    }
                    proof {
                        assert(a@.skip(clen as int) =~= Seq::<char>::empty());
                        assert(expand_short(a@.skip(clen as int), cv) matches Result::Ok(fs) && fs
                            =~= Seq::<Seq<char>>::empty());
                        match expand_short(a@.drop_first(), cv) {
                            Result::Ok(all) => {
                                assert(expanded.deep_view() + Seq::<Seq<char>>::empty()
                                    =~= expanded.deep_view());
                            },
                            Result::Err(_) => {},
                        }
                    }
                    let ghost flags_before = flags.deep_view();
                    let ghost expanded_dv = expanded.deep_view();
                    flags.append(&mut expanded);
                    proof {
                        assert(flags.deep_view() =~= flags_before + expanded_dv);
                        match parse_args(av.skip(i as int + 1), cv) {
                            Result::Ok(p) => {
                                match expand_short(a@.drop_first(), cv) {
                                    Result::Ok(all) => {
                                        assert((flags_before + all) + p.0 =~= flags_before + (all
                                            + p.0));
                                    },
                                    Result::Err(_) => {},
                                }
                            },
                            Result::Err(_) => {},
                        }
                    }
                } else if contains_flag(custom_flags, a) {
                    let ghost flags_before = flags.deep_view();
                    flags.push(arg.clone());
                    proof {
                        assert(flags.deep_view() =~= flags_before + seq![a@]);
                        match parse_args(av.skip(i as int + 1), cv) {
                            Result::Ok(p) => {
                                assert((flags_before + seq![a@]) + p.0 =~= flags_before + (seq![a@]
                                    + p.0));
                            },
                            Result::Err(_) => {},
                        }
                    }
                } else {
                    let mut e = "rswc: unrecognized option ".to_owned();
                    e.append(a);
                    proof {
                        assert(flag_like(rem.first()));
                        assert(!combined_short(rem.first()));
                        assert(!contains_str(cv, rem.first()));
                        assert(parse_args(rem, cv) matches Result::Err(m) && m == e@);
                    }
                    return Result::Err(e);
                }
            } else {
                let ghost paths_before = paths.deep_view();
                paths.push(arg.clone());
                proof {
                    assert(paths.deep_view() =~= paths_before + seq![a@]);
                    match parse_args(av.skip(i as int + 1), cv) {
                        Result::Ok(p) => {
                            assert((paths_before + seq![a@]) + p.1 =~= paths_before + (seq![a@]
                                + p.1));
                        },
                        Result::Err(_) => {},
                    }
                }
            }
            i = i + 1;
        }
        proof {
            assert(av.skip(n as int) =~= Seq::<Seq<char>>::empty());
            match parse_args(av, cv) {
                Result::Ok(q) => {
                    assert(flags.deep_view() + Seq::<Seq<char>>::empty() =~= flags.deep_view());
                    assert(paths.deep_view() + Seq::<Seq<char>>::empty() =~= paths.deep_view());
                },
                Result::Err(_) => {},
            }
        }
        Result::Ok(ArgSet { flags, file_paths: paths })
    }
}

/// The option set selected by the parsed command line: each count is
/// enabled by its long or short flag, and when no count is chosen at all
/// the default of lines, words and bytes applies. Character counting is
/// never enabled by default.
pub fn resolve_flags(argset: &ArgSet) -> (f: Flags)
    ensures
        ({
            let dv = argset.flags.deep_view();
            let b = contains_str(dv, "--bytes"@) || contains_str(dv, "-c"@);
            let l = contains_str(dv, "--lines"@) || contains_str(dv, "-l"@);
            let w = contains_str(dv, "--words"@) || contains_str(dv, "-w"@);
            let m = contains_str(dv, "--chars"@) || contains_str(dv, "-m"@);
            if !b && !l && !w && !m {
                f == (Flags { lines: true, words: true, bytes: true, chars: false })
            } else {
                f == (Flags { lines: l, words: w, bytes: b, chars: m })
            }
        }),
{
    let bytes = argset.has("--bytes") || argset.has("-c");
    let lines = argset.has("--lines") || argset.has("-l");
    let words = argset.has("--words") || argset.has("-w");
    let chars = argset.has("--chars") || argset.has("-m");
    if !bytes && !lines && !words && !chars {
        Flags { lines: true, words: true, bytes: true, chars: false }
    } else {
        Flags { lines, words, bytes, chars }
    }
}

} // verus!
