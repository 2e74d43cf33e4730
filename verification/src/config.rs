//! The persisted list of watched sites: the defaults, and what a list read
//! back from the configuration file becomes.

use vstd::prelude::*;
use crate::canonical::{host_target_spec, law_display_names_the_same_target, lemma_host_target_reparses};
use crate::host::{parse_target, parse_target_spec, valid_hostname, valid_label, Target};
use crate::ip::{ip_parse, ipv4_parse, ipv6_parse};
use crate::text::{
    chars_of, contains_char, eq_ignore_ascii_case, eq_ignore_case, is_alnum, is_upper, lemma_split_piece,
    lemma_split_single, lower_seq, split,
};

verus! {

/// The application id, used for the configuration directory.
pub const APP_ID: &'static str = "edt-down-for-me";

/// The characters of each string, in order.
pub open spec fn string_views(v: Seq<String>) -> Seq<Seq<char>> {
    Seq::new(v.len(), |i: int| v[i]@)
}

/// The sites watched when no list is saved.
pub open spec fn default_site_list() -> Seq<Seq<char>> {
    seq!["google.com"@, "github.com"@, "gitlab.com"@, "microsoft.com"@, "okta.com"@]
}

/// `names` holds `d`, ASCII case aside.
pub open spec fn listed_in(names: Seq<Seq<char>>, d: Seq<char>) -> bool {
    exists|i: int| 0 <= i < names.len() && eq_ignore_case(#[trigger] names[i], d)
}

/// The canonical names of the entries of a saved list that parse, in order,
/// each kept the first time it appears (ASCII case aside).
pub open spec fn kept_sites(raws: Seq<Seq<char>>) -> Seq<Seq<char>>
    decreases raws.len(),
{
    if raws.len() == 0 {
        Seq::empty()
    } else {
        let prev = kept_sites(raws.drop_last());
        match parse_target_spec(raws.last()) {
            Ok(t) => if listed_in(prev, t.display) {
                prev
            } else {
                prev.push(t.display)
            },
            Err(_) => prev,
        }
    }
}

/// The list in effect after reading the configuration: the defaults when
/// nothing could be read, or when nothing read is a valid site.
pub open spec fn loaded_sites(file: Option<Seq<Seq<char>>>) -> Seq<Seq<char>> {
    match file {
        None => default_site_list(),
        Some(raws) => {
            let kept = kept_sites(raws);
            if kept.len() == 0 {
                default_site_list()
            } else {
                kept
            }
        },
    }
}

pub open spec fn file_view(file: Option<Vec<String>>) -> Option<Seq<Seq<char>>> {
    match file {
        Some(v) => Some(string_views(v@)),
        None => None,
    }
}

/// The default list of sites.
pub fn default_sites() -> (r: Vec<String>)
    ensures
        string_views(r@) == default_site_list(),
{
    let mut r: Vec<String> = Vec::new();
    r.push("google.com".to_owned());
    r.push("github.com".to_owned());
    r.push("gitlab.com".to_owned());
    r.push("microsoft.com".to_owned());
    r.push("okta.com".to_owned());
    assert(string_views(r@) =~= default_site_list());
    r
}

/// Whether `names` holds `d`, ASCII case aside.
pub fn is_listed(names: &Vec<String>, d: &String) -> (b: bool)
    ensures
        b == listed_in(string_views(names@), d@),
{
    let dc = chars_of(d.as_str());
    for i in 0..names.len()
        invariant
            dc@ == d@,
            forall|j: int| 0 <= j < i ==> !eq_ignore_case(#[trigger] string_views(names@)[j], d@),
    {
        let nc = chars_of(names[i].as_str());
        if eq_ignore_ascii_case(&nc, &dc) {
            assert(eq_ignore_case(string_views(names@)[i as int], d@));
            return true;
        }
    }
    false
}

/// The list of sites that a saved list gives: each entry parsed and put in
/// canonical form, invalid entries and repeats (ASCII case aside) dropped,
/// and the defaults when nothing is left or nothing could be read.
pub fn load_from(file: Option<Vec<String>>) -> (r: Vec<String>)
    ensures
        string_views(r@) == loaded_sites(file_view(file)),
{
    match file {
        None => default_sites(),
        Some(raws) => {
            let ghost rv = string_views(raws@);
            let mut out: Vec<String> = Vec::new();
            for i in 0..raws.len()
                invariant
                    rv == string_views(raws@),
                    string_views(out@) == kept_sites(rv.take(i as int)),
            {
                proof {
                    assert(rv.take(i + 1).drop_last() =~= rv.take(i as int));
                    assert(rv.take(i + 1).last() == raws@[i as int]@);
                }
                match parse_target(raws[i].as_str()) {
                    Ok(t) => {
                        if !is_listed(&out, &t.display) {
                            let Target { display, host: _, port: _ } = t;
                            out.push(display);
                            assert(string_views(out@) =~= kept_sites(rv.take(i + 1)));
                        }
                    },
                    Err(_) => {},
                }
            }
            assert(rv.take(raws@.len() as int) =~= rv);
            if out.len() == 0 {
                default_sites()
            } else {
                out
            }
        },
    }
}

/// What reading the configuration file gave.
pub enum StoredList {
    /// There is no file.
    Missing,
    /// The file is there but could not be read or decoded.
    Unusable,
    /// The entries of the list in the file.
    Listed(Vec<String>),
}

/// The list in effect at start-up, and whether the defaults are to be
/// written out because no file was there.
pub struct Loaded {
    pub sites: Vec<String>,
    pub write_defaults: bool,
}

pub open spec fn stored_view(stored: StoredList) -> Option<Seq<Seq<char>>> {
    match stored {
        StoredList::Listed(v) => Some(string_views(v@)),
        _ => None,
    }
}

/// The list at start-up: what the file gives, as `load_from` reads it; when
/// there is no file, the defaults, which are then to be written out.
pub fn load(stored: StoredList) -> (r: Loaded)
    ensures
        string_views(r.sites@) == loaded_sites(stored_view(stored)),
        r.write_defaults == (stored is Missing),
{
    match stored {
        StoredList::Missing => Loaded { sites: default_sites(), write_defaults: true },
        StoredList::Unusable => Loaded { sites: load_from(None), write_defaults: false },
        StoredList::Listed(v) => Loaded { sites: load_from(Some(v)), write_defaults: false },
    }
}

// ---------------------------------------------------------------------------
// Laws
// ---------------------------------------------------------------------------

/// Each name is the canonical name of what it names, and no two names are
/// equal, ASCII case aside.
pub open spec fn canonical_list(names: Seq<Seq<char>>) -> bool {
    &&& forall|i: int|
        0 <= i < names.len() ==> (#[trigger] parse_target_spec(names[i])) is Ok
            && parse_target_spec(names[i])->Ok_0.display == names[i]
    &&& forall|i: int, j: int|
        0 <= i < j < names.len() ==> !eq_ignore_case(#[trigger] names[i], #[trigger] names[j])
}

proof fn lemma_kept_prefix(names: Seq<Seq<char>>, k: int)
    requires
        canonical_list(names),
        0 <= k <= names.len(),
    ensures
        kept_sites(names.take(k)) == names.take(k),
    decreases k,
{
    if k > 0 {
        lemma_kept_prefix(names, k - 1);
        let t = names.take(k);
        assert(t.drop_last() =~= names.take(k - 1));
        assert(t.last() == names[k - 1]);
        assert(parse_target_spec(names[k - 1]) is Ok);
        let d = names[k - 1];
        assert(!listed_in(names.take(k - 1), d)) by {
            if listed_in(names.take(k - 1), d) {
                let i = choose|i: int|
                    0 <= i < names.take(k - 1).len() && eq_ignore_case(
                        #[trigger] names.take(k - 1)[i],
                        d,
                    );
                assert(names.take(k - 1)[i] == names[i]);
                assert(!eq_ignore_case(names[i], names[k - 1]));
            }
        }
        assert(names.take(k - 1).push(d) =~= t);
    }
}

/// A saved list of canonical, distinct names loads back unchanged.
pub proof fn law_canonical_list_loads_back(names: Seq<Seq<char>>)
    requires
        names.len() >= 1,
        canonical_list(names),
    ensures
        loaded_sites(Some(names)) == names,
{
    lemma_kept_prefix(names, names.len() as int);
    assert(names.take(names.len() as int) =~= names);
}

/// What is kept of a saved list is canonical and free of repeats.
pub proof fn law_kept_sites_are_canonical(raws: Seq<Seq<char>>)
    ensures
        canonical_list(kept_sites(raws)),
    decreases raws.len(),
{
    if raws.len() > 0 {
        let prev = kept_sites(raws.drop_last());
        law_kept_sites_are_canonical(raws.drop_last());
        match parse_target_spec(raws.last()) {
            Ok(t) => {
                if !listed_in(prev, t.display) {
                    law_display_names_the_same_target(raws.last());
                    let now = prev.push(t.display);
                    assert(kept_sites(raws) == now);
                    assert forall|i: int| 0 <= i < now.len() implies (#[trigger] parse_target_spec(
                        now[i],
                    )) is Ok && parse_target_spec(now[i])->Ok_0.display == now[i] by {
                        if i < prev.len() {
                            assert(now[i] == prev[i]);
                        }
                    }
                    assert forall|i: int, j: int| 0 <= i < j < now.len() implies !eq_ignore_case(
                        #[trigger] now[i],
                        #[trigger] now[j],
                    ) by {
                        if j < prev.len() {
                            assert(now[i] == prev[i] && now[j] == prev[j]);
                        } else {
                            assert(now[i] == prev[i]);
                            assert(!eq_ignore_case(prev[i], t.display));
                        }
                    }
                }
            },
            Err(_) => {},
        }
    }
}

/// Saving what was loaded and loading it again gives the same list, when
/// the saved list held a valid site.
pub proof fn law_reload_is_stable(raws: Seq<Seq<char>>)
    requires
        kept_sites(raws).len() > 0,
    ensures
        loaded_sites(Some(loaded_sites(Some(raws)))) == loaded_sites(Some(raws)),
{
    law_kept_sites_are_canonical(raws);
    law_canonical_list_loads_back(kept_sites(raws));
}

/// A lower-case DNS label of letters and digits.
pub open spec fn plain_label(a: Seq<char>) -> bool {
    1 <= a.len() <= 63 && forall|i: int|
        0 <= i < a.len() ==> is_alnum(#[trigger] a[i]) && !is_upper(a[i])
}

/// `a.b` for plain labels is a canonical hostname: it names itself.
proof fn lemma_plain_name(a: Seq<char>, b: Seq<char>)
    requires
        plain_label(a),
        plain_label(b),
    ensures
        parse_target_spec(a + seq!['.'] + b) is Ok,
        parse_target_spec(a + seq!['.'] + b)->Ok_0.display == a + seq!['.'] + b,
{
    let h = a + seq!['.'] + b;
    assert(!contains_char(a, '.')) by {
        if contains_char(a, '.') {
            let i = choose|i: int| 0 <= i < a.len() && a[i] == '.';
            assert(is_alnum(a[i]));
        }
    }
    assert(!contains_char(b, '.')) by {
        if contains_char(b, '.') {
            let i = choose|i: int| 0 <= i < b.len() && b[i] == '.';
            assert(is_alnum(b[i]));
        }
    }
    lemma_split_piece(a, '.', b);
    lemma_split_single(b, '.');
    let ps = split(h, '.');
    assert(ps =~= seq![a, b]);
    assert(valid_label(a));
    assert(valid_label(b));
    assert(valid_hostname(h)) by {
        assert(h[0] == a[0]);
        assert(h.last() == b.last());
        assert forall|i: int| 0 <= i < ps.len() implies valid_label(#[trigger] ps[i]) by {
            if i == 0 {
                assert(ps[i] == a);
            } else {
                assert(ps[i] == b);
            }
        }
    }
    assert(ipv4_parse(h) is None);
    assert(!contains_char(h, ':')) by {
        if contains_char(h, ':') {
            let i = choose|i: int| 0 <= i < h.len() && h[i] == ':';
            if i < a.len() {
                assert(h[i] == a[i]);
                assert(is_alnum(a[i]));
            } else if i > a.len() {
                assert(h[i] == b[i - a.len() - 1]);
                assert(is_alnum(b[i - a.len() - 1]));
            }
        }
    }
    assert(ipv6_parse(h) is None) by {
        crate::canonical::lemma_no_colon_not_v6(h);
    }
    assert(ip_parse(h) is None);
    assert(lower_seq(h) =~= h) by {
        assert forall|i: int| 0 <= i < h.len() implies !is_upper(#[trigger] h[i]) by {
            if i < a.len() {
                assert(h[i] == a[i]);
            } else if i > a.len() {
                assert(h[i] == b[i - a.len() - 1]);
            }
        }
    }
    lemma_host_target_reparses(h, None);
    assert(host_target_spec(h, None).display == h);
}

/// `s` parses, and its canonical name is `s` itself.
#[verifier::opaque]
spec fn names_itself(s: Seq<char>) -> bool {
    parse_target_spec(s) is Ok && parse_target_spec(s)->Ok_0.display == s
}

/// `s`, spelled `a.com` with a plain label `a`, is a canonical hostname.
proof fn lemma_dot_com(s: Seq<char>, a: Seq<char>)
    requires
        plain_label(a),
        s =~= a + seq!['.'] + seq!['c', 'o', 'm'],
    ensures
        names_itself(s),
{
    reveal(names_itself);
    lemma_plain_name(a, seq!['c', 'o', 'm']);
}

proof fn lemma_default_entry(i: int)
    requires
        0 <= i < 5,
    ensures
        names_itself(default_site_list()[i]),
{
    let l = default_site_list();
    if i == 0 {
        reveal_strlit("google.com");
        lemma_dot_com(l[0], seq!['g', 'o', 'o', 'g', 'l', 'e']);
    } else if i == 1 {
        reveal_strlit("github.com");
        lemma_dot_com(l[1], seq!['g', 'i', 't', 'h', 'u', 'b']);
    } else if i == 2 {
        reveal_strlit("gitlab.com");
        lemma_dot_com(l[2], seq!['g', 'i', 't', 'l', 'a', 'b']);
    } else if i == 3 {
        reveal_strlit("microsoft.com");
        lemma_dot_com(l[3], seq!['m', 'i', 'c', 'r', 'o', 's', 'o', 'f', 't']);
    } else {
        reveal_strlit("okta.com");
        lemma_dot_com(l[4], seq!['o', 'k', 't', 'a']);
    }
}

/// Two names that differ in length, or in a lower-case character at the same
/// place, are different names.
proof fn lemma_differ_at(a: Seq<char>, b: Seq<char>, k: int)
    requires
        a.len() != b.len() || (0 <= k < a.len() && k < b.len() && a[k] != b[k] && !is_upper(a[k])
            && !is_upper(b[k])),
    ensures
        !eq_ignore_case(a, b),
{
    if a.len() == b.len() {
        assert(lower_seq(a)[k] != lower_seq(b)[k]);
    } else {
        assert(lower_seq(a).len() != lower_seq(b).len());
    }
}

proof fn lemma_defaults_distinct(i: int, j: int)
    requires
        0 <= i < j < 5,
    ensures
        !eq_ignore_case(default_site_list()[i], default_site_list()[j]),
{
    reveal_strlit("google.com");
    reveal_strlit("github.com");
    reveal_strlit("gitlab.com");
    reveal_strlit("microsoft.com");
    reveal_strlit("okta.com");
    let l = default_site_list();
    if i == 0 && j <= 2 {
        lemma_differ_at(l[i], l[j], 1);
    } else if i == 1 && j == 2 {
        lemma_differ_at(l[i], l[j], 3);
    } else {
        lemma_differ_at(l[i], l[j], 0);
    }
}

/// The default sites are canonical names, all different.
pub proof fn law_default_sites_are_canonical()
    ensures
        canonical_list(default_site_list()),
{
    let l = default_site_list();
    assert forall|i: int| 0 <= i < l.len() implies (#[trigger] parse_target_spec(l[i])) is Ok
        && parse_target_spec(l[i])->Ok_0.display == l[i] by {
        lemma_default_entry(i);
        reveal(names_itself);
    }
    assert forall|i: int, j: int| 0 <= i < j < l.len() implies !eq_ignore_case(
        #[trigger] l[i],
        #[trigger] l[j],
    ) by {
        lemma_defaults_distinct(i, j);
    }
}

/// Loading a list and saving it gives a list that loads back unchanged,
/// whatever was read, and when nothing could be read.
pub proof fn law_loaded_list_loads_back(file: Option<Seq<Seq<char>>>)
    ensures
        loaded_sites(Some(loaded_sites(file))) == loaded_sites(file),
{
    law_default_sites_are_canonical();
    law_canonical_list_loads_back(default_site_list());
    match file {
        Some(raws) => {
            if kept_sites(raws).len() > 0 {
                law_reload_is_stable(raws);
            }
        },
        None => {},
    }
}

} // verus!
