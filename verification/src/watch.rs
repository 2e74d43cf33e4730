//! The watch list: the sites being watched, when each was added and when it
//! last answered, with the operations that the window performs on it.

use vstd::prelude::*;
use std::time::Instant;
use crate::config::{
    canonical_list, law_default_sites_are_canonical,
    law_kept_sites_are_canonical, listed_in, loaded_sites, string_views,
};
use crate::host::{parse_target, parse_target_spec, ParseError, Target, TargetModel};
use crate::status::{status_at, status_for};
use crate::text::{chars_of, eq_ignore_ascii_case, eq_ignore_case, same_text};

verus! {

/// A watched site.
pub struct Site {
    pub target: Target,
    pub added_at: Instant,
    pub last_ok: Option<Instant>,
}

pub struct SiteModel {
    pub target: TargetModel,
    pub added_at: Instant,
    pub last_ok: Option<Instant>,
}

impl View for Site {
    type V = SiteModel;

    open spec fn view(&self) -> SiteModel {
        SiteModel { target: self.target@, added_at: self.added_at, last_ok: self.last_ok }
    }
}

/// The sites of the window, in the order shown.
pub struct AppState {
    pub sites: Vec<Site>,
}

pub open spec fn site_views(v: Seq<Site>) -> Seq<SiteModel> {
    Seq::new(v.len(), |i: int| v[i]@)
}

impl View for AppState {
    type V = Seq<SiteModel>;

    open spec fn view(&self) -> Seq<SiteModel> {
        site_views(self.sites@)
    }
}

/// One row of the window: the canonical name and the status colour.
pub struct SiteRow {
    pub host: String,
    pub status: i32,
}

// ---------------------------------------------------------------------------
// Model
// ---------------------------------------------------------------------------

/// The canonical names of the sites.
pub open spec fn displays(s: Seq<SiteModel>) -> Seq<Seq<char>> {
    Seq::new(s.len(), |i: int| s[i].target.display)
}

/// No two sites have the same name, ASCII case aside.
pub open spec fn distinct_names(s: Seq<SiteModel>) -> bool {
    forall|i: int, j: int|
        0 <= i < s.len() && 0 <= j < s.len() && i != j ==> !eq_ignore_case(
            #[trigger] s[i].target.display,
            #[trigger] s[j].target.display,
        )
}

pub open spec fn error_message(e: ParseError) -> Seq<char> {
    match e {
        ParseError::Empty => "Enter a host or IP"@,
        ParseError::Invalid => "Invalid host or IP"@,
    }
}

pub open spec fn already_listed() -> Seq<char> {
    "Already listed"@
}

pub open spec fn new_site(t: TargetModel, now: Instant) -> SiteModel {
    SiteModel { target: t, added_at: now, last_ok: None }
}

/// What adding `raw` at time `now` answers, and the sites after it.
pub open spec fn add_outcome(sites: Seq<SiteModel>, raw: Seq<char>, now: Instant) -> (
    Result<(), Seq<char>>,
    Seq<SiteModel>,
) {
    match parse_target_spec(raw) {
        Err(e) => (Err(error_message(e)), sites),
        Ok(t) => if listed_in(displays(sites), t.display) {
            (Err(already_listed()), sites)
        } else {
            (Ok(()), sites.push(new_site(t, now)))
        },
    }
}

pub open spec fn answer_view(r: Result<(), String>) -> Result<(), Seq<char>> {
    match r {
        Ok(()) => Ok(()),
        Err(m) => Err(m@),
    }
}

/// Index of the first name equal to `d`, ASCII case aside.
pub open spec fn first_listed(ds: Seq<Seq<char>>, d: Seq<char>) -> Option<int>
    decreases ds.len(),
{
    if ds.len() == 0 {
        None
    } else if eq_ignore_case(ds[0], d) {
        Some(0)
    } else {
        match first_listed(ds.drop_first(), d) {
            Some(i) => Some(i + 1),
            None => None,
        }
    }
}

/// The sites after a success of the site named `d` at time `now`: the first
/// site of that name, ASCII case aside, records it.
pub open spec fn mark_outcome(sites: Seq<SiteModel>, d: Seq<char>, now: Instant) -> Seq<SiteModel> {
    match first_listed(displays(sites), d) {
        Some(k) => sites.update(
            k,
            SiteModel { target: sites[k].target, added_at: sites[k].added_at, last_ok: Some(now) },
        ),
        None => sites,
    }
}

/// The sites of the names in a list that parse, all added at `now`.
pub open spec fn sites_of_names(names: Seq<Seq<char>>, now: Instant) -> Seq<SiteModel>
    decreases names.len(),
{
    if names.len() == 0 {
        Seq::empty()
    } else {
        let prev = sites_of_names(names.drop_last(), now);
        match parse_target_spec(names.last()) {
            Ok(t) => prev.push(new_site(t, now)),
            Err(_) => prev,
        }
    }
}

// ---------------------------------------------------------------------------
// Operations
// ---------------------------------------------------------------------------

proof fn lemma_first_listed(ds: Seq<Seq<char>>, d: Seq<char>, i: int)
    requires
        0 <= i <= ds.len(),
        forall|j: int| 0 <= j < i ==> !eq_ignore_case(#[trigger] ds[j], d),
        i < ds.len() ==> eq_ignore_case(ds[i], d),
    ensures
        first_listed(ds, d) == (if i < ds.len() {
            Some(i)
        } else {
            None::<int>
        }),
    decreases i,
{
    if i > 0 {
        assert(!eq_ignore_case(ds[0], d));
        let t = ds.drop_first();
        assert forall|j: int| 0 <= j < i - 1 implies !eq_ignore_case(#[trigger] t[j], d) by {
            assert(t[j] == ds[j + 1]);
        }
        lemma_first_listed(t, d, i - 1);
    }
}

fn clone_target(t: &Target) -> (r: Target)
    ensures
        r@ == t@,
{
    Target { display: t.display.clone(), host: t.host.clone(), port: t.port }
}

impl AppState {
    /// The sites of the names that parse, all added at `now`.
    pub fn from_names(names: &Vec<String>, now: Instant) -> (r: AppState)
        ensures
            r@ == sites_of_names(string_views(names@), now),
    {
        let ghost nv = string_views(names@);
        let mut sites: Vec<Site> = Vec::new();
        for i in 0..names.len()
            invariant
                nv == string_views(names@),
                site_views(sites@) == sites_of_names(nv.take(i as int), now),
        {
            proof {
                assert(nv.take(i + 1).drop_last() =~= nv.take(i as int));
                assert(nv.take(i + 1).last() == names@[i as int]@);
            }
            match parse_target(names[i].as_str()) {
                Ok(target) => {
                    sites.push(Site { target, added_at: now, last_ok: None });
                    assert(site_views(sites@) =~= sites_of_names(nv.take(i + 1), now));
                },
                Err(_) => {},
            }
        }
        assert(nv.take(names@.len() as int) =~= nv);
        AppState { sites }
    }

    /// Whether a site of name `d` is listed, ASCII case aside.
    fn lists(&self, d: &String) -> (b: bool)
        ensures
            b == listed_in(displays(self@), d@),
    {
        let dc = chars_of(d.as_str());
        for i in 0..self.sites.len()
            invariant
                dc@ == d@,
                forall|j: int|
                    0 <= j < i ==> !eq_ignore_case(#[trigger] displays(self@)[j], d@),
        {
            let nc = chars_of(self.sites[i].target.display.as_str());
            if eq_ignore_ascii_case(&nc, &dc) {
                assert(eq_ignore_case(displays(self@)[i as int], d@));
                return true;
            }
        }
        false
    }

    /// Adds the site that `raw` names, added at `now`; answers the message to
    /// show when it is refused.
    pub fn add_site(&mut self, raw: &str, now: Instant) -> (r: Result<(), String>)
        ensures
            (answer_view(r), final(self)@) == add_outcome(old(self)@, raw@, now),
    {
        match parse_target(raw) {
            Err(e) => Err(e.message()),
            Ok(target) => {
                if self.lists(&target.display) {
                    return Err("Already listed".to_owned());
                }
                self.sites.push(Site { target, added_at: now, last_ok: None });
                assert(self@ =~= old(self)@.push(new_site(parse_target_spec(raw@)->Ok_0, now)));
                Ok(())
            },
        }
    }

    /// Removes the site at `idx`, if there is one.
    pub fn remove_site(&mut self, idx: usize)
        ensures
            idx < old(self)@.len() ==> final(self)@ == old(self)@.remove(idx as int),
            idx >= old(self)@.len() ==> final(self)@ == old(self)@,
    {
        if idx < self.sites.len() {
            self.sites.remove(idx);
            assert(self@ =~= old(self)@.remove(idx as int));
        }
    }

    /// Records a success, at `now`, of the first site named `display`, ASCII
    /// case aside.
    pub fn mark_ok(&mut self, display: &str, now: Instant)
        ensures
            final(self)@ == mark_outcome(old(self)@, display@, now),
    {
        let dc = chars_of(display);
        let ghost ds = displays(self@);
        let n = self.sites.len();
        for i in 0..n
            invariant
                n == self.sites@.len(),
                dc@ == display@,
                self@ == old(self)@,
                ds == displays(self@),
                forall|j: int| 0 <= j < i ==> !eq_ignore_case(#[trigger] ds[j], display@),
        {
            let nc = chars_of(self.sites[i].target.display.as_str());
            if eq_ignore_ascii_case(&nc, &dc) {
                proof {
                    lemma_first_listed(ds, display@, i as int);
                }
                let mut site = self.sites.remove(i);
                site.last_ok = Some(now);
                self.sites.insert(i, site);
                assert(self@ =~= mark_outcome(old(self)@, display@, now));
                return;
            }
        }
        proof {
            lemma_first_listed(ds, display@, n as int);
        }
    }

    /// The canonical names, in order, as they are saved.
    pub fn display_names(&self) -> (r: Vec<String>)
        ensures
            string_views(r@) == displays(self@),
    {
        let mut r: Vec<String> = Vec::new();
        for i in 0..self.sites.len()
            invariant
                string_views(r@) =~= displays(self@).take(i as int),
        {
            let d = self.sites[i].target.display.clone();
            assert(self@[i as int] == self.sites@[i as int]@);
            assert(d@ == displays(self@)[i as int]);
            let ghost prev = r@;
            r.push(d);
            assert(r@ == prev.push(d));
            assert(string_views(r@) =~= string_views(prev).push(d@));
            assert(displays(self@).take(i + 1) =~= displays(self@).take(i as int).push(d@));
            assert(string_views(r@) =~= displays(self@).take(i + 1));
        }
        assert(displays(self@).take(self@.len() as int) =~= displays(self@));
        r
    }

    /// The targets to probe, in order.
    pub fn targets(&self) -> (r: Vec<Target>)
        ensures
            r@.len() == self@.len(),
            forall|i: int| 0 <= i < r@.len() ==> (#[trigger] r@[i])@ == self@[i].target,
    {
        let mut r: Vec<Target> = Vec::new();
        for i in 0..self.sites.len()
            invariant
                r@.len() == i,
                forall|j: int| 0 <= j < i ==> (#[trigger] r@[j])@ == self@[j].target,
        {
            r.push(clone_target(&self.sites[i].target));
        }
        r
    }

    /// The rows to show at time `now`: each site's name and status.
    pub fn rows(&self, now: Instant) -> (r: Vec<SiteRow>)
        ensures
            r@.len() == self@.len(),
            forall|i: int|
                0 <= i < r@.len() ==> (#[trigger] r@[i]).host@ == self@[i].target.display
                    && r@[i].status == status_at(now, self@[i].added_at, self@[i].last_ok),
    {
        let mut r: Vec<SiteRow> = Vec::new();
        for i in 0..self.sites.len()
            invariant
                r@.len() == i,
                forall|j: int|
                    0 <= j < i ==> (#[trigger] r@[j]).host@ == self@[j].target.display
                        && r@[j].status == status_at(now, self@[j].added_at, self@[j].last_ok),
        {
            let site = &self.sites[i];
            let status = status_for(now, site.added_at, site.last_ok);
            r.push(SiteRow { host: site.target.display.clone(), status });
        }
        r
    }
}

/// A shown row differs from the row to show.
pub open spec fn row_differs(a: SiteRow, b: SiteRow) -> bool {
    a.host@ != b.host@ || a.status != b.status
}

/// How the rows on screen are brought up to date: `None` when the number of
/// rows changed, and they are all replaced; otherwise the indices, in
/// increasing order, of the rows that changed, each set anew.
pub fn rows_to_update(shown: &Vec<SiteRow>, rows: &Vec<SiteRow>) -> (r: Option<Vec<usize>>)
    ensures
        r is None <==> shown@.len() != rows@.len(),
        r matches Some(idx) ==> {
            &&& forall|k: int, l: int| 0 <= k < l < idx@.len() ==> idx@[k] < idx@[l]
            &&& forall|i: usize|
                i < rows@.len() ==> (idx@.contains(i) <==> row_differs(shown@[i as int], rows@[i as int]))
        },
{
    if shown.len() != rows.len() {
        return None;
    }
    let mut idx: Vec<usize> = Vec::new();
    for i in 0..rows.len()
        invariant
            shown@.len() == rows@.len(),
            forall|k: int, l: int| 0 <= k < l < idx@.len() ==> idx@[k] < idx@[l],
            forall|k: int| 0 <= k < idx@.len() ==> idx@[k] < i,
            forall|j: usize|
                j < i ==> (idx@.contains(j) <==> row_differs(shown@[j as int], rows@[j as int])),
    {
        let a = &shown[i];
        let b = &rows[i];
        let ghost before = idx@;
        if !same_text(a.host.as_str(), b.host.as_str()) || a.status != b.status {
            idx.push(i);
            assert forall|j: usize| j < i + 1 implies (idx@.contains(j) <==> row_differs(
                shown@[j as int],
                rows@[j as int],
            )) by {
                if j < i {
                    if idx@.contains(j) {
                        let k = choose|k: int| 0 <= k < idx@.len() && idx@[k] == j;
                        assert(k < before.len());
                        assert(before.contains(j));
                    }
                    if before.contains(j) {
                        let k = choose|k: int| 0 <= k < before.len() && before[k] == j;
                        assert(idx@[k] == j);
                    }
                } else {
                    assert(idx@[before.len() as int] == i);
                }
            }
        } else {
            assert forall|j: usize| j < i + 1 implies (idx@.contains(j) <==> row_differs(
                shown@[j as int],
                rows@[j as int],
            )) by {
                if j == i && idx@.contains(j) {
                    let k = choose|k: int| 0 <= k < idx@.len() && idx@[k] == j;
                    assert(idx@[k] < i);
                }
            }
        }
    }
    Some(idx)
}

// ---------------------------------------------------------------------------
// Laws
// ---------------------------------------------------------------------------

proof fn lemma_listed_after_add(sites: Seq<SiteModel>, raw: Seq<char>, now: Instant)
    requires
        parse_target_spec(raw) is Ok,
    ensures
        listed_in(
            displays(add_outcome(sites, raw, now).1),
            parse_target_spec(raw)->Ok_0.display,
        ),
{
    let t = parse_target_spec(raw)->Ok_0;
    if !listed_in(displays(sites), t.display) {
        let after = add_outcome(sites, raw, now).1;
        let k = sites.len() as int;
        assert(displays(after)[k] == t.display);
        assert(eq_ignore_case(displays(after)[k], t.display));
    }
}

/// Adding the same input a second time is refused with "Already listed",
/// whatever the first call answered, whenever the input names a site.
pub proof fn law_second_add_is_refused(
    sites: Seq<SiteModel>,
    raw: Seq<char>,
    first: Instant,
    second: Instant,
)
    requires
        parse_target_spec(raw) is Ok,
    ensures
        add_outcome(add_outcome(sites, raw, first).1, raw, second) == (
            Err::<(), Seq<char>>(already_listed()),
            add_outcome(sites, raw, first).1,
        ),
{
    lemma_listed_after_add(sites, raw, first);
}

/// Adding keeps the names of the sites distinct, ASCII case aside.
pub proof fn law_add_keeps_names_distinct(sites: Seq<SiteModel>, raw: Seq<char>, now: Instant)
    requires
        distinct_names(sites),
    ensures
        distinct_names(add_outcome(sites, raw, now).1),
{
    let after = add_outcome(sites, raw, now).1;
    if after.len() > sites.len() {
        let t = parse_target_spec(raw)->Ok_0;
        let k = sites.len() as int;
        assert forall|i: int, j: int|
            0 <= i < after.len() && 0 <= j < after.len() && i != j implies !eq_ignore_case(
            #[trigger] after[i].target.display,
            #[trigger] after[j].target.display,
        ) by {
            if i == k {
                assert(displays(sites)[j] == after[j].target.display);
                assert(!eq_ignore_case(displays(sites)[j], t.display));
            } else if j == k {
                assert(displays(sites)[i] == after[i].target.display);
                assert(!eq_ignore_case(displays(sites)[i], t.display));
            } else {
                assert(after[i] == sites[i] && after[j] == sites[j]);
            }
        }
    }
}

/// A success changes nothing but the time of the last success of one site:
/// the names, their order and the times they were added stay.
pub proof fn law_mark_ok_only_records_success(sites: Seq<SiteModel>, d: Seq<char>, now: Instant)
    ensures
        mark_outcome(sites, d, now).len() == sites.len(),
        forall|i: int|
            0 <= i < sites.len() ==> (#[trigger] mark_outcome(sites, d, now)[i]).target
                == sites[i].target && mark_outcome(sites, d, now)[i].added_at
                == sites[i].added_at,
        forall|i: int|
            0 <= i < sites.len() && mark_outcome(sites, d, now)[i].last_ok != sites[i].last_ok
                ==> mark_outcome(sites, d, now)[i].last_ok == Some(now) && eq_ignore_case(
                #[trigger] sites[i].target.display,
                d,
            ),
{
    lemma_first_listed_found(displays(sites), d);
}

proof fn lemma_first_listed_found(ds: Seq<Seq<char>>, d: Seq<char>)
    ensures
        match first_listed(ds, d) {
            Some(i) => 0 <= i < ds.len() && eq_ignore_case(ds[i], d),
            None => true,
        },
    decreases ds.len(),
{
    if ds.len() > 0 && !eq_ignore_case(ds[0], d) {
        lemma_first_listed_found(ds.drop_first(), d);
    }
}

proof fn lemma_sites_of_canonical(names: Seq<Seq<char>>, now: Instant)
    requires
        canonical_list(names),
    ensures
        displays(sites_of_names(names, now)) == names,
    decreases names.len(),
{
    if names.len() > 0 {
        let init = names.drop_last();
        assert(canonical_list(init)) by {
            assert forall|i: int| 0 <= i < init.len() implies (#[trigger] parse_target_spec(
                init[i],
            )) is Ok && parse_target_spec(init[i])->Ok_0.display == init[i] by {
                assert(init[i] == names[i]);
            }
            assert forall|i: int, j: int| 0 <= i < j < init.len() implies !eq_ignore_case(
                #[trigger] init[i],
                #[trigger] init[j],
            ) by {
                assert(init[i] == names[i] && init[j] == names[j]);
            }
        }
        lemma_sites_of_canonical(init, now);
        let last = names[names.len() - 1];
        assert(parse_target_spec(last) is Ok);
        let prev = sites_of_names(init, now);
        let t = parse_target_spec(last)->Ok_0;
        assert(displays(prev.push(new_site(t, now))) =~= displays(prev).push(t.display));
        assert(init.push(last) =~= names);
    }
}

/// The list in effect after reading the configuration, put in the window and
/// saved at once, is saved unchanged: every loaded name stays, in order,
/// with its spelling.
pub proof fn law_loaded_list_saves_back(file: Option<Seq<Seq<char>>>, now: Instant)
    ensures
        displays(sites_of_names(loaded_sites(file), now)) == loaded_sites(file),
{
    law_default_sites_are_canonical();
    match file {
        Some(raws) => {
            law_kept_sites_are_canonical(raws);
        },
        None => {},
    }
    assert(canonical_list(loaded_sites(file)));
    lemma_sites_of_canonical(loaded_sites(file), now);
}

/// An accepted site is appended at the end, added at `now` and never seen
/// answering; the sites before it are kept as they were.
pub proof fn law_added_site_has_not_answered(sites: Seq<SiteModel>, raw: Seq<char>, now: Instant)
    requires
        add_outcome(sites, raw, now).0 is Ok,
    ensures
        add_outcome(sites, raw, now).1.len() == sites.len() + 1,
        add_outcome(sites, raw, now).1.take(sites.len() as int) == sites,
        add_outcome(sites, raw, now).1.last().last_ok is None,
        add_outcome(sites, raw, now).1.last().added_at == now,
        parse_target_spec(raw) is Ok,
        add_outcome(sites, raw, now).1.last().target == parse_target_spec(raw)->Ok_0,
{
    let after = add_outcome(sites, raw, now).1;
    assert(after.take(sites.len() as int) =~= sites);
}

proof fn lemma_first_listed_first(ds: Seq<Seq<char>>, d: Seq<char>)
    ensures
        match first_listed(ds, d) {
            Some(i) => 0 <= i < ds.len() && eq_ignore_case(ds[i], d) && forall|j: int|
                0 <= j < i ==> !eq_ignore_case(#[trigger] ds[j], d),
            None => forall|j: int| 0 <= j < ds.len() ==> !eq_ignore_case(#[trigger] ds[j], d),
        },
    decreases ds.len(),
{
    if ds.len() > 0 && !eq_ignore_case(ds[0], d) {
        let t = ds.drop_first();
        lemma_first_listed_first(t, d);
        assert forall|j: int| 1 <= j < ds.len() implies ds[j] == t[j - 1] by {}
    }
}

/// A success of a listed name is recorded: the first site of that name,
/// ASCII case aside, has its latest success at `now`, whatever it held
/// before.
pub proof fn law_mark_ok_records_success(sites: Seq<SiteModel>, d: Seq<char>, now: Instant, i: int)
    requires
        0 <= i < sites.len(),
        eq_ignore_case(sites[i].target.display, d),
    ensures
        exists|k: int|
            0 <= k <= i && eq_ignore_case(sites[k].target.display, d) && (forall|j: int|
                0 <= j < k ==> !eq_ignore_case(#[trigger] sites[j].target.display, d))
                && #[trigger] mark_outcome(sites, d, now)[k].last_ok == Some(now),
{
    let ds = displays(sites);
    lemma_first_listed_first(ds, d);
    assert(ds[i] == sites[i].target.display);
    let k = first_listed(ds, d)->0;
    assert forall|j: int| 0 <= j < k implies !eq_ignore_case(
        #[trigger] sites[j].target.display,
        d,
    ) by {
        assert(ds[j] == sites[j].target.display);
    }
    assert(ds[k] == sites[k].target.display);
    assert(mark_outcome(sites, d, now)[k].last_ok == Some(now));
}

/// An input that names no site is refused with its message, and the list
/// stays as it was: blank input asks for a host, anything else is invalid.
pub proof fn law_refused_input_changes_nothing(sites: Seq<SiteModel>, raw: Seq<char>, now: Instant)
    requires
        parse_target_spec(raw) is Err,
    ensures
        add_outcome(sites, raw, now).1 == sites,
        parse_target_spec(raw) == Err::<TargetModel, ParseError>(ParseError::Empty)
            ==> add_outcome(sites, raw, now).0 == Err::<(), Seq<char>>("Enter a host or IP"@),
        parse_target_spec(raw) == Err::<TargetModel, ParseError>(ParseError::Invalid)
            ==> add_outcome(sites, raw, now).0 == Err::<(), Seq<char>>("Invalid host or IP"@),
{
}

} // verus!
