//! Choosing the alphabet, the patterns and the action from the command line and the
//! `@fastcopy-*` options, the command line first.

use crate::action::{default_action, shell_quote};
use crate::matching::pair_views;
use crate::options::{find_char, first_index_of, lemma_first_index_in_bounds};
use crate::text::{chars_of, str_eq, string_from_chars, sub_chars};
use vstd::prelude::*;

verus! {

/// The value of the first option of this name.
pub open spec fn lookup_option(opts: Seq<(Seq<char>, Seq<char>)>, name: Seq<char>) -> Option<
    Seq<char>,
>
    decreases opts.len(),
{
    if opts.len() == 0 {
        None
    } else if opts[0].0 == name {
        Some(opts[0].1)
    } else {
        lookup_option(opts.drop_first(), name)
    }
}

/// The value of the first option of this name, when it is set to something non-empty.
pub open spec fn option_setting(opts: Seq<(Seq<char>, Seq<char>)>, name: Seq<char>) -> Option<
    Seq<char>,
> {
    match lookup_option(opts, name) {
        Some(v) => if v.len() > 0 {
            Some(v)
        } else {
            None
        },
        None => None,
    }
}

/// The value of the first option named `name`, unless it is empty.
pub fn option_value(options: &[(String, String)], name: &str) -> (res: Option<String>)
    ensures
        res matches Some(v) ==> option_setting(pair_views(options@), name@) == Some(v@),
        res is None ==> option_setting(pair_views(options@), name@) is None,
{
    let ghost ov = pair_views(options@);
    assert(ov.skip(0) =~= ov);
    for i in 0..options.len()
        invariant
            ov == pair_views(options@),
            lookup_option(ov, name@) == lookup_option(ov.skip(i as int), name@),
    {
        assert(ov.skip(i as int).drop_first() =~= ov.skip(i + 1));
        assert(ov.skip(i as int)[0] == ov[i as int]);
        if str_eq(options[i].0.as_str(), name) {
            if options[i].1.as_str().is_empty() {
                proof {
                    assert(ov[i as int].1.len() == 0);
                }
                return None;
            }
            return Some(options[i].1.clone());
        }
    }
    assert(ov.skip(options.len() as int).len() == 0);
    None
}

/// The (name, pattern) pair of a `--regex` argument `NAME:PATTERN`, split at its first colon,
/// or the message for an argument without a colon or with an empty name.
pub open spec fn regex_argument(value: Seq<char>) -> Result<(Seq<char>, Seq<char>), Seq<char>> {
    match first_index_of(value, ':') {
        None => Err("expected NAME:PATTERN"@),
        Some(k) => if k == 0 {
            Err("regex name must not be empty"@)
        } else {
            Ok((value.take(k), value.skip(k + 1)))
        },
    }
}

/// Splits a `--regex` argument into its name and pattern at the first colon.
pub fn parse_regex(value: &str) -> (res: Result<(String, String), String>)
    ensures
        match regex_argument(value@) {
            Ok((n, p)) => res matches Ok(pair) && pair.0@ == n && pair.1@ == p,
            Err(m) => res matches Err(e) && e@ == m,
        },
{
    let chars = chars_of(value);
    proof {
        lemma_first_index_in_bounds(value@, ':');
    }
    let found = find_char(chars.as_slice(), ':');
    match found {
        None => Err("expected NAME:PATTERN".to_string()),
        Some(k) => {
            assert(k < chars.len());
            if k == 0 {
                return Err("regex name must not be empty".to_string());
            }
            let name = sub_chars(chars.as_slice(), 0, k);
            let pattern = sub_chars(chars.as_slice(), k + 1, chars.len());
            proof {
                assert(name@ =~= value@.take(k as int));
                assert(pattern@ =~= value@.skip(k + 1));
            }
            Ok((string_from_chars(name.as_slice()), string_from_chars(pattern.as_slice())))
        },
    }
}

/// The prefix of options that add or replace a pattern.
pub open spec fn regex_option_prefix() -> Seq<char> {
    "@fastcopy-regex-"@
}

/// Whether `s` begins with `p`.
pub open spec fn starts_with(s: Seq<char>, p: Seq<char>) -> bool {
    p.len() <= s.len() && s.take(p.len() as int) == p
}

/// `s` with every leading repetition of a non-empty `p` removed.
pub open spec fn strip_leading(s: Seq<char>, p: Seq<char>) -> Seq<char>
    decreases s.len(),
{
    if p.len() > 0 && starts_with(s, p) {
        strip_leading(s.skip(p.len() as int), p)
    } else {
        s
    }
}

/// The patterns that the options add or replace, in option order: each option whose name
/// begins with the prefix, named by what follows the prefix (every leading repetition of it
/// removed).
pub open spec fn option_overrides(opts: Seq<(Seq<char>, Seq<char>)>) -> Seq<(Seq<char>, Seq<char>)>
    decreases opts.len(),
{
    if opts.len() == 0 {
        seq![]
    } else {
        let rest = option_overrides(opts.drop_last());
        let (name, value) = opts.last();
        if starts_with(name, regex_option_prefix()) {
            rest.push((strip_leading(name, regex_option_prefix()), value))
        } else {
            rest
        }
    }
}

/// Whether `v[k..]` begins with `p`.
fn starts_with_at(v: &[char], k: usize, p: &[char]) -> (res: bool)
    requires
        k <= v.len(),
    ensures
        res == starts_with(v@.skip(k as int), p@),
{
    if v.len() - k < p.len() {
        return false;
    }
    for j in 0..p.len()
        invariant
            k + p.len() <= v.len(),
            forall|q: int| 0 <= q < j ==> v@[k + q] == p@[q],
    {
        if v[k + j] != p[j] {
            proof {
                assert(v@.skip(k as int).take(p.len() as int)[j as int] != p@[j as int]);
            }
            return false;
        }
    }
    proof {
        assert(v@.skip(k as int).take(p.len() as int) =~= p@);
    }
    true
}

/// The characters of `v` with every leading repetition of a non-empty `p` removed.
fn strip_leading_chars(v: &[char], p: &[char]) -> (res: Vec<char>)
    requires
        p.len() > 0,
    ensures
        res@ == strip_leading(v@, p@),
{
    let mut k: usize = 0;
    assert(v@.skip(0) =~= v@);
    while starts_with_at(v, k, p)
        invariant
            k <= v.len(),
            p.len() > 0,
            strip_leading(v@, p@) == strip_leading(v@.skip(k as int), p@),
        decreases v.len() - k,
    {
        assert(v@.skip(k as int).skip(p.len() as int) =~= v@.skip(k + p.len()));
        k = k + p.len();
    }
    let res = sub_chars(v, k, v.len());
    assert(res@ =~= v@.skip(k as int));
    res
}

/// The pattern overrides in force: those of the `@fastcopy-regex-*` options, in option order,
/// then those of the command line, which therefore win.
pub fn regex_overrides(options: &[(String, String)], cli: &[(String, String)]) -> (res: Vec<
    (String, String),
>)
    ensures
        pair_views(res@) == option_overrides(pair_views(options@)) + pair_views(cli@),
{
    let ghost ov = pair_views(options@);
    let prefix = chars_of("@fastcopy-regex-");
    proof {
        reveal_strlit("@fastcopy-regex-");
    }
    let mut out: Vec<(String, String)> = Vec::new();
    for i in 0..options.len()
        invariant
            ov == pair_views(options@),
            prefix@ == regex_option_prefix(),
            prefix@.len() > 0,
            pair_views(out@) == option_overrides(ov.take(i as int)),
    {
        let name = chars_of(options[i].0.as_str());
        proof {
            assert(ov.take(i + 1).drop_last() =~= ov.take(i as int));
            assert(ov.take(i + 1).last() == ov[i as int]);
            assert(name@.skip(0) =~= name@);
        }
        if starts_with_at(name.as_slice(), 0, prefix.as_slice()) {
            let stripped = strip_leading_chars(name.as_slice(), prefix.as_slice());
            let ghost before = out@;
            out.push((string_from_chars(stripped.as_slice()), options[i].1.clone()));
            proof {
                assert(pair_views(out@) =~= pair_views(before).push(
                    (strip_leading(ov[i as int].0, regex_option_prefix()), ov[i as int].1),
                ));
            }
        }
    }
    proof {
        assert(ov.take(options.len() as int) =~= ov);
    }
    for j in 0..cli.len()
        invariant
            ov == pair_views(options@),
            pair_views(out@) == option_overrides(ov) + pair_views(cli@).take(j as int),
    {
        let ghost before = out@;
        out.push((cli[j].0.clone(), cli[j].1.clone()));
        proof {
            assert(pair_views(out@) =~= pair_views(before).push(pair_views(cli@)[j as int]));
            assert(pair_views(cli@).take(j + 1) =~= pair_views(cli@).take(j as int).push(
                pair_views(cli@)[j as int],
            ));
        }
    }
    proof {
        assert(pair_views(cli@).take(cli.len() as int) =~= pair_views(cli@));
    }
    out
}

/// The alphabet used when neither the command line nor the options give one.
pub open spec fn default_alphabet() -> Seq<char> {
    "abcdefghijklmnopqrstuvwxyz"@
}

/// The alphabet of the labels: the command line's, else the `@fastcopy-alphabet` option's
/// when it is not empty, else the lowercase Latin letters.
pub fn choose_alphabet(cli: Option<String>, options: &[(String, String)]) -> (res: String)
    ensures
        cli matches Some(a) ==> res@ == a@,
        cli is None ==> res@ == match option_setting(pair_views(options@), "@fastcopy-alphabet"@) {
            Some(v) => v,
            None => default_alphabet(),
        },
{
    match cli {
        Some(a) => a,
        None => match option_value(options, "@fastcopy-alphabet") {
            Some(v) => v,
            None => "abcdefghijklmnopqrstuvwxyz".to_string(),
        },
    }
}

/// The action for a selection: for one made with an uppercase label, the command line's
/// shift action, else the `@fastcopy-shift-action` option, else none; otherwise the command
/// line's action, else the `@fastcopy-action` option, else loading the selection into an
/// rmux buffer.
pub fn choose_action(
    shifted: bool,
    action: Option<String>,
    shift_action: Option<String>,
    options: &[(String, String)],
    rmux: &str,
) -> (res: Option<String>)
    ensures
        shifted ==> match shift_action {
            Some(a) => res matches Some(r) && r@ == a@,
            None => match option_setting(pair_views(options@), "@fastcopy-shift-action"@) {
                Some(v) => res matches Some(r) && r@ == v,
                None => res is None,
            },
        },
        !shifted ==> match action {
            Some(a) => res matches Some(r) && r@ == a@,
            None => match option_setting(pair_views(options@), "@fastcopy-action"@) {
                Some(v) => res matches Some(r) && r@ == v,
                None => res matches Some(r) && r@ == shell_quote(rmux@) + " load-buffer -"@,
            },
        },
{
    if shifted {
        match shift_action {
            Some(a) => Some(a),
            None => option_value(options, "@fastcopy-shift-action"),
        }
    } else {
        match action {
            Some(a) => Some(a),
            None => match option_value(options, "@fastcopy-action") {
                Some(v) => Some(v),
                None => Some(default_action(rmux)),
            },
        }
    }
}

} // verus!
