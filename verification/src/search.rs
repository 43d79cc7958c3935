//! The decisions of the search at each fetched page, the count that tells
//! when the search is over, and a model of a whole run (the lines reported
//! and the pages fetched) built from the same decisions. The fetching, the
//! queue and the tasks that run them stand around the library.
use crate::search_helpers::{
    is_step, lemma_step_is_model_step, spec_goal_test, spec_next_steps, spec_next_steps_strict, step_model, LinkError, Path,
    PathModel,
};
use crate::text::{opt_view, views};
use crate::url_helpers::{InfoResult, EMPTY_TITLE};
use vstd::prelude::*;

verus! {

/// What the search does at a fetched page: what it reports, if anything,
/// and the paths it queues.
#[derive(Debug)]
pub struct PageVisit {
    /// The path as printed, where the page passes the goal test.
    pub found: Option<String>,
    /// The paths one step further.
    pub children: Vec<Path>,
}

/// The text that ends a reported path: the page title (the placeholder
/// where there is none) when titles are printed, else the page address.
pub open spec fn shown_text(print_title: bool, title: Option<Seq<char>>, address: Seq<char>) -> Seq<char> {
    if print_title {
        match title {
            Some(t) => t,
            None => EMPTY_TITLE@,
        }
    } else {
        address
    }
}

/// The title a path takes along when it leaves a page: the text that ends
/// the page's own reported line (its title, or the placeholder, when titles
/// are printed; else its address).
pub open spec fn carried_title(print_title: bool, title: Option<Seq<char>>, address: Seq<char>) -> Option<Seq<char>> {
    Some(shown_text(print_title, title, address))
}

/// `children` are the steps `steps` from `path`, each with `title`.
pub open spec fn are_steps(path: Path, steps: Seq<crate::url_helpers::UrlModel>, title: Option<Seq<char>>, children: Seq<Path>) -> bool {
    &&& children.len() == steps.len()
    &&& forall|k: int| 0 <= k < children.len() ==> is_step(path, steps[k], title, #[trigger] children[k])
}

/// The decisions of the parallel search at the page of `path` with the
/// fetched `info`: the goal test on its title, and, while the depth limit is
/// not reached, the paths through its links, each link followed once.
pub fn visit_page(path: &Path, info: &InfoResult, pattern: &str, depth_limit: usize, print_title: bool) -> (res: PageVisit)
    requires
        path.wf(),
    ensures
        opt_view(res.found) == spec_goal_test(
            path.contents(),
            opt_view(info.page_title),
            pattern@,
            shown_text(print_title, opt_view(info.page_title), path.latest_full()),
        ),
        path.depth < depth_limit ==> are_steps(
            *path,
            spec_next_steps(path.vis().to_set(), path.latest_url@, views(info.child_hrefs@), true),
            carried_title(print_title, opt_view(info.page_title), path.latest_full()),
            res.children@,
        ),
        path.depth >= depth_limit ==> res.children@.len() == 0,
        run_line(path.model(), info_model(info), pattern@, print_title) == match opt_view(res.found) {
            Some(l) => seq![l],
            None => Seq::<Seq<char>>::empty(),
        },
        path.depth < depth_limit ==> forall|k: int| 0 <= k < res.children@.len() ==> #[trigger] res.children@[k].model() == step_model(
            path.model(),
            spec_next_steps(path.model().vis, path.model().latest, info_model(info).hrefs, true)[k],
            carried_title(print_title, info_model(info).title, path.model().latest.full().unwrap()),
        ),
{
    let address = path.get_most_recent_url().to_string();
    let shown = if print_title {
        match &info.page_title {
            Some(t) => t.clone(),
            None => String::from_str(EMPTY_TITLE),
        }
    } else {
        address
    };
    let found = path.goal_test_on_title(&info.page_title, pattern, shown.as_str());
    let children = if path.depth < depth_limit {
        path.next_paths(&info.child_hrefs, &Some(shown), true)
    } else {
        Vec::new()
    };
    proof {
        if path.depth < depth_limit {
            let steps = spec_next_steps(path.vis().to_set(), path.latest_url@, views(info.child_hrefs@), true);
            let title = carried_title(print_title, opt_view(info.page_title), path.latest_full());
            assert forall|k: int| 0 <= k < children@.len() implies #[trigger] children@[k].model() == step_model(path.model(), steps[k], title) by {
                lemma_step_is_model_step(*path, steps[k], title, children@[k]);
            }
        }
    }
    PageVisit { found, children }
}

/// The decisions of the search that follows every link, at the page of
/// `path`: the goal test on its title, ending with its address, and, while the depth
/// limit is not reached, the paths through every link, each carrying the
/// page address.
pub fn visit_page_all_links(path: &Path, info: &InfoResult, pattern: &str, depth_limit: usize) -> (res: PageVisit)
    requires
        path.wf(),
    ensures
        opt_view(res.found) == spec_goal_test(path.contents(), opt_view(info.page_title), pattern@, path.latest_full()),
        path.depth < depth_limit ==> are_steps(
            *path,
            spec_next_steps(path.vis().to_set(), path.latest_url@, views(info.child_hrefs@), false),
            Some(path.latest_full()),
            res.children@,
        ),
        path.depth >= depth_limit ==> res.children@.len() == 0,
{
    let address = path.get_most_recent_url().to_string();
    let found = path.goal_test_on_title(&info.page_title, pattern, address.as_str());
    let children = if path.depth < depth_limit {
        path.next_paths(&info.child_hrefs, &Some(address), false)
    } else {
        Vec::new()
    };
    PageVisit { found, children }
}

/// What the serial search does at a fetched page: the line it reports, if
/// any, and the paths it queues or the link that ends the search.
#[derive(Debug)]
pub struct SerialVisit {
    /// The path as printed, where the page passes the goal test.
    pub found: Option<String>,
    /// The paths one step further, or the first link that does not resolve.
    pub children: Result<Vec<Path>, LinkError>,
}

/// The decisions of the serial search at the page of `path`: the goal test
/// on its title, ending with its address, and, while the depth limit is not
/// reached, the paths through every link, each carrying the page address;
/// a link that does not resolve ends the search with its error (after the
/// goal test line).
pub fn visit_page_serial(path: &Path, info: &InfoResult, pattern: &str, depth_limit: usize) -> (res: SerialVisit)
    requires
        path.wf(),
    ensures
        opt_view(res.found) == spec_goal_test(path.contents(), opt_view(info.page_title), pattern@, path.latest_full()),
        path.depth < depth_limit ==> match spec_next_steps_strict(path.vis().to_set(), path.latest_url@, views(info.child_hrefs@)) {
            Err(e) => res.children matches Err(le) && le.error == e.0 && le.href@ == e.1,
            Ok(steps) => res.children matches Ok(v) && are_steps(*path, steps, Some(path.latest_full()), v@),
        },
        path.depth >= depth_limit ==> (res.children matches Ok(v) && v@.len() == 0),
{
    let address = path.get_most_recent_url().to_string();
    let found = path.goal_test_on_title(&info.page_title, pattern, address.as_str());
    let children = if path.depth < depth_limit {
        path.next_paths_strict(&info.child_hrefs, &Some(address))
    } else {
        Ok(Vec::new())
    };
    SerialVisit { found, children }
}

/// Counts the paths that are queued but not yet done, so that the search
/// closes its queue once the last one is done. A path is counted before it
/// is sent, and the count is withdrawn where the send fails, so that the
/// count never reaches zero while a path is still on its way.
pub struct SearchTracker {
    pending: u64,
    sent: Ghost<nat>,
    withdrawn: Ghost<nat>,
    done: Ghost<nat>,
}

impl SearchTracker {
    /// Number of paths counted as queued, the start path not counted.
    pub closed spec fn spec_sent(&self) -> nat {
        self.sent@
    }

    /// Number of those whose send failed.
    pub closed spec fn spec_withdrawn(&self) -> nat {
        self.withdrawn@
    }

    /// Number of paths done.
    pub closed spec fn spec_done(&self) -> nat {
        self.done@
    }

    /// Number of paths queued (the start path included) and not yet done.
    pub closed spec fn spec_pending(&self) -> nat {
        self.pending as nat
    }

    /// The count of pending paths is the start path and the queued ones,
    /// less the withdrawn and the done ones.
    pub closed spec fn wf(&self) -> bool {
        self.pending as int == 1 + self.sent@ - self.withdrawn@ - self.done@
    }

    /// The count at the start: the start path is pending.
    pub fn new() -> (res: SearchTracker)
        ensures
            res.wf(),
            res.spec_sent() == 0,
            res.spec_withdrawn() == 0,
            res.spec_done() == 0,
            res.spec_pending() == 1,
    {
        SearchTracker { pending: 1, sent: Ghost(0), withdrawn: Ghost(0), done: Ghost(0) }
    }

    /// Number of paths pending.
    pub fn pending(&self) -> (res: u64)
        ensures
            res as nat == self.spec_pending(),
    {
        self.pending
    }

    /// Counts a path that is about to be queued.
    pub fn child_sent(&mut self)
        requires
            old(self).wf(),
            old(self).spec_pending() < u64::MAX,
        ensures
            final(self).wf(),
            final(self).spec_sent() == old(self).spec_sent() + 1,
            final(self).spec_withdrawn() == old(self).spec_withdrawn(),
            final(self).spec_done() == old(self).spec_done(),
            final(self).spec_pending() == old(self).spec_pending() + 1,
    {
        self.pending = self.pending + 1;
        self.sent = Ghost(self.sent@ + 1);
    }

    /// Withdraws the count of a path whose send failed.
    pub fn child_not_sent(&mut self)
        requires
            old(self).wf(),
            old(self).spec_pending() > 0,
        ensures
            final(self).wf(),
            final(self).spec_sent() == old(self).spec_sent(),
            final(self).spec_withdrawn() == old(self).spec_withdrawn() + 1,
            final(self).spec_done() == old(self).spec_done(),
            final(self).spec_pending() == old(self).spec_pending() - 1,
    {
        self.pending = self.pending - 1;
        self.withdrawn = Ghost(self.withdrawn@ + 1);
    }

    /// Counts a path that is done; true when it was the last pending one,
    /// that is, when the start path and every path that was queued (and not
    /// withdrawn) are done.
    pub fn task_done(&mut self) -> (res: bool)
        requires
            old(self).wf(),
            old(self).spec_pending() > 0,
        ensures
            final(self).wf(),
            final(self).spec_sent() == old(self).spec_sent(),
            final(self).spec_withdrawn() == old(self).spec_withdrawn(),
            final(self).spec_done() == old(self).spec_done() + 1,
            final(self).spec_pending() == old(self).spec_pending() - 1,
            res == (final(self).spec_done() + final(self).spec_withdrawn() == final(self).spec_sent() + 1),
    {
        self.pending = self.pending - 1;
        self.done = Ghost(self.done@ + 1);
        self.pending == 0
    }
}


/// What a fetch of a page yields, as a model: the targets of its links and
/// its title.
pub struct PageModel {
    pub hrefs: Seq<Seq<char>>,
    pub title: Option<Seq<char>>,
}

/// The model of what a fetched page yields.
pub open spec fn info_model(info: &InfoResult) -> PageModel {
    PageModel { hrefs: views(info.child_hrefs@), title: opt_view(info.page_title) }
}

/// The line the search reports at the page of `p`, where it reports one.
pub open spec fn run_line(p: PathModel, page: PageModel, pattern: Seq<char>, print_title: bool) -> Seq<Seq<char>> {
    let address = p.latest.full().unwrap();
    match spec_goal_test(p.contents, page.title, pattern, shown_text(print_title, page.title, address)) {
        Some(line) => seq![line],
        None => Seq::empty(),
    }
}

/// The lines the parallel search reports from the path `p` on, in
/// depth-first order, where `web` gives what the fetch of each full address
/// yields (`None` where the fetch fails). The search prints the same lines,
/// in an order its tasks decide.
pub open spec fn search_run(web: spec_fn(Seq<char>) -> Option<PageModel>, p: PathModel, pattern: Seq<char>, limit: nat, print_title: bool) -> Seq<Seq<char>>
    decreases limit - p.depth, 1int, 0int,
{
    let address = p.latest.full().unwrap();
    match web(address) {
        None => Seq::empty(),
        Some(page) => if p.depth < limit {
            run_line(p, page, pattern, print_title) + run_children(
                web,
                p,
                spec_next_steps(p.vis, p.latest, page.hrefs, true),
                carried_title(print_title, page.title, address),
                pattern,
                limit,
                print_title,
            )
        } else {
            run_line(p, page, pattern, print_title)
        },
    }
}

/// The lines reported from the steps `steps` of `p`, each carrying `title`.
pub open spec fn run_children(
    web: spec_fn(Seq<char>) -> Option<PageModel>,
    p: PathModel,
    steps: Seq<crate::url_helpers::UrlModel>,
    title: Option<Seq<char>>,
    pattern: Seq<char>,
    limit: nat,
    print_title: bool,
) -> Seq<Seq<char>>
    decreases limit - p.depth, 0int, steps.len(),
{
    if steps.len() == 0 || p.depth >= limit {
        Seq::empty()
    } else {
        run_children(web, p, steps.drop_last(), title, pattern, limit, print_title) + search_run(
            web,
            step_model(p, steps.last(), title),
            pattern,
            limit,
            print_title,
        )
    }
}

/// The full addresses the parallel search fetches from the path `p` on, in
/// depth-first order.
pub open spec fn search_fetches(web: spec_fn(Seq<char>) -> Option<PageModel>, p: PathModel, limit: nat, print_title: bool) -> Seq<Seq<char>>
    decreases limit - p.depth, 1int, 0int,
{
    let address = p.latest.full().unwrap();
    match web(address) {
        None => seq![address],
        Some(page) => if p.depth < limit {
            seq![address] + fetches_children(
                web,
                p,
                spec_next_steps(p.vis, p.latest, page.hrefs, true),
                carried_title(print_title, page.title, address),
                limit,
                print_title,
            )
        } else {
            seq![address]
        },
    }
}

/// The full addresses fetched from the steps `steps` of `p` on.
pub open spec fn fetches_children(
    web: spec_fn(Seq<char>) -> Option<PageModel>,
    p: PathModel,
    steps: Seq<crate::url_helpers::UrlModel>,
    title: Option<Seq<char>>,
    limit: nat,
    print_title: bool,
) -> Seq<Seq<char>>
    decreases limit - p.depth, 0int, steps.len(),
{
    if steps.len() == 0 || p.depth >= limit {
        Seq::empty()
    } else {
        fetches_children(web, p, steps.drop_last(), title, limit, print_title) + search_fetches(
            web,
            step_model(p, steps.last(), title),
            limit,
            print_title,
        )
    }
}

/// Two paths with the same depth, visited set and latest address (their
/// titles may differ).
pub open spec fn same_skeleton(p: PathModel, q: PathModel) -> bool {
    p.depth == q.depth && p.vis == q.vis && p.latest == q.latest
}

/// Printing titles or addresses changes neither the pages fetched nor the
/// number of lines reported: the runs of `search` with and without `-t`
/// make the same requests and print as many lines.
pub proof fn lemma_print_mode_same_requests(
    web: spec_fn(Seq<char>) -> Option<PageModel>,
    p: PathModel,
    q: PathModel,
    pattern: Seq<char>,
    limit: nat,
    a: bool,
    b: bool,
)
    requires
        same_skeleton(p, q),
    ensures
        search_fetches(web, p, limit, a) == search_fetches(web, q, limit, b),
        search_run(web, p, pattern, limit, a).len() == search_run(web, q, pattern, limit, b).len(),
    decreases limit - p.depth, 1int, 0int,
{
    let address = p.latest.full().unwrap();
    match web(address) {
        None => {},
        Some(page) => {
            if p.depth < limit {
                let steps = spec_next_steps(p.vis, p.latest, page.hrefs, true);
                lemma_print_mode_children(
                    web,
                    p,
                    q,
                    steps,
                    carried_title(a, page.title, address),
                    carried_title(b, page.title, address),
                    pattern,
                    limit,
                    a,
                    b,
                );
            }
        },
    }
}

/// The children part of `lemma_print_mode_same_requests`.
pub proof fn lemma_print_mode_children(
    web: spec_fn(Seq<char>) -> Option<PageModel>,
    p: PathModel,
    q: PathModel,
    steps: Seq<crate::url_helpers::UrlModel>,
    ta: Option<Seq<char>>,
    tb: Option<Seq<char>>,
    pattern: Seq<char>,
    limit: nat,
    a: bool,
    b: bool,
)
    requires
        same_skeleton(p, q),
    ensures
        fetches_children(web, p, steps, ta, limit, a) == fetches_children(web, q, steps, tb, limit, b),
        run_children(web, p, steps, ta, pattern, limit, a).len() == run_children(web, q, steps, tb, pattern, limit, b).len(),
    decreases limit - p.depth, 0int, steps.len(),
{
    if steps.len() > 0 && p.depth < limit {
        lemma_print_mode_children(web, p, q, steps.drop_last(), ta, tb, pattern, limit, a, b);
        lemma_print_mode_same_requests(
            web,
            step_model(p, steps.last(), ta),
            step_model(q, steps.last(), tb),
            pattern,
            limit,
            a,
            b,
        );
    }
}


/// An element of a concatenation is an element of one of its parts.
pub proof fn lemma_concat_contains(a: Seq<Seq<char>>, b: Seq<Seq<char>>, x: Seq<char>)
    ensures
        (a + b).contains(x) <==> (a.contains(x) || b.contains(x)),
{
    if (a + b).contains(x) {
        let k = choose|k: int| 0 <= k < (a + b).len() && (a + b)[k] == x;
        if k < a.len() {
            assert(a[k] == x);
        } else {
            assert(b[k - a.len()] == x);
        }
    }
    if a.contains(x) {
        let k = choose|k: int| 0 <= k < a.len() && a[k] == x;
        assert((a + b)[k] == x);
    }
    if b.contains(x) {
        let k = choose|k: int| 0 <= k < b.len() && b[k] == x;
        assert((a + b)[k + a.len()] == x);
    }
}

/// A deeper limit loses no line: every line the search reports with the
/// depth limit `d1` it also reports with a limit `d2 >= d1`.
pub proof fn lemma_run_monotone_in_limit(
    web: spec_fn(Seq<char>) -> Option<PageModel>,
    p: PathModel,
    pattern: Seq<char>,
    d1: nat,
    d2: nat,
    print_title: bool,
)
    requires
        d1 <= d2,
    ensures
        forall|x: Seq<char>| #[trigger] search_run(web, p, pattern, d1, print_title).contains(x) ==> search_run(web, p, pattern, d2, print_title).contains(x),
    decreases d1 - p.depth, 1int, 0int,
{
    let address = p.latest.full().unwrap();
    match web(address) {
        None => {},
        Some(page) => {
            let line = run_line(p, page, pattern, print_title);
            let steps = spec_next_steps(p.vis, p.latest, page.hrefs, true);
            let title = carried_title(print_title, page.title, address);
            let c2 = run_children(web, p, steps, title, pattern, d2, print_title);
            if p.depth < d1 {
                let c1 = run_children(web, p, steps, title, pattern, d1, print_title);
                lemma_children_monotone_in_limit(web, p, steps, title, pattern, d1, d2, print_title);
                assert forall|x: Seq<char>| #[trigger] (line + c1).contains(x) implies (line + c2).contains(x) by {
                    lemma_concat_contains(line, c1, x);
                    lemma_concat_contains(line, c2, x);
                }
            } else if p.depth < d2 {
                assert forall|x: Seq<char>| #[trigger] line.contains(x) implies (line + c2).contains(x) by {
                    lemma_concat_contains(line, c2, x);
                }
            }
        },
    }
}

/// The children part of `lemma_run_monotone_in_limit`.
pub proof fn lemma_children_monotone_in_limit(
    web: spec_fn(Seq<char>) -> Option<PageModel>,
    p: PathModel,
    steps: Seq<crate::url_helpers::UrlModel>,
    title: Option<Seq<char>>,
    pattern: Seq<char>,
    d1: nat,
    d2: nat,
    print_title: bool,
)
    requires
        d1 <= d2,
    ensures
        forall|x: Seq<char>| #[trigger] run_children(web, p, steps, title, pattern, d1, print_title).contains(x)
            ==> run_children(web, p, steps, title, pattern, d2, print_title).contains(x),
    decreases d1 - p.depth, 0int, steps.len(),
{
    if steps.len() > 0 && p.depth < d1 {
        let child = step_model(p, steps.last(), title);
        lemma_children_monotone_in_limit(web, p, steps.drop_last(), title, pattern, d1, d2, print_title);
        lemma_run_monotone_in_limit(web, child, pattern, d1, d2, print_title);
        let a1 = run_children(web, p, steps.drop_last(), title, pattern, d1, print_title);
        let a2 = run_children(web, p, steps.drop_last(), title, pattern, d2, print_title);
        let b1 = search_run(web, child, pattern, d1, print_title);
        let b2 = search_run(web, child, pattern, d2, print_title);
        assert forall|x: Seq<char>| #[trigger] (a1 + b1).contains(x) implies (a2 + b2).contains(x) by {
            lemma_concat_contains(a1, b1, x);
            lemma_concat_contains(a2, b2, x);
        }
    }
}

} // verus!
