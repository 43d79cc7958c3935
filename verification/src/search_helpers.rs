//! Search paths: the chain of pages from the start page to the latest one,
//! with the set of addresses visited on the way.
use crate::text::{
    compare_texts, contains_seq, contains_text, decimal, join_seqs, join_texts, lemma_join_holds_every_element,
    lemma_occurs_in_concat, lemma_text_lt_irreflexive, occurs_at,
    lemma_text_lt_transitive, opt_view, push_decimal, text_lt, views, TextOrder,
};
use crate::url_helpers::{parse_base_url, spec_new_parsed_url, spec_parse_base_url, ParsedUrl, UrlError, UrlModel};
use vstd::prelude::*;

verus! {

/// Each element comes strictly before the next: sorted, and no element
/// occurs twice.
pub open spec fn strictly_sorted(s: Seq<Seq<char>>) -> bool {
    forall|i: int, j: int| 0 <= i < j < s.len() ==> text_lt(#[trigger] s[i], #[trigger] s[j])
}

/// A strictly sorted sequence holds no element twice.
pub proof fn lemma_strictly_sorted_no_duplicates(s: Seq<Seq<char>>)
    requires
        strictly_sorted(s),
    ensures
        s.no_duplicates(),
{
    assert forall|i: int, j: int| 0 <= i < s.len() && 0 <= j < s.len() && i != j implies s[i] != s[j] by {
        lemma_text_lt_irreflexive(s[i]);
        if i < j {
            assert(text_lt(s[i], s[j]));
        } else {
            assert(text_lt(s[j], s[i]));
        }
    }
}

/// Adds `x` to the strictly sorted list `v` unless it is there already,
/// keeping the list strictly sorted.
pub fn insert_sorted(v: &mut Vec<String>, x: String)
    requires
        strictly_sorted(views(old(v)@)),
    ensures
        strictly_sorted(views(final(v)@)),
        views(final(v)@).to_set() == views(old(v)@).to_set().insert(x@),
        views(old(v)@).contains(x@) ==> final(v)@ == old(v)@,
        !views(old(v)@).contains(x@) ==> final(v)@.len() == old(v)@.len() + 1,
{
    let ghost s = views(v@);
    let mut i: usize = 0;
    while i < v.len()
        invariant_except_break
            strictly_sorted(s),
            s == views(v@),
            v@ == old(v)@,
            i <= v.len(),
            forall|j: int| 0 <= j < i ==> text_lt(#[trigger] s[j], x@),
        ensures
            strictly_sorted(s),
            s == views(v@),
            v@ == old(v)@,
            i <= v.len(),
            forall|j: int| 0 <= j < i ==> text_lt(#[trigger] s[j], x@),
            i < v.len() ==> text_lt(x@, s[i as int]),
        decreases v.len() - i,
    {
        match compare_texts(v[i].as_str(), x.as_str()) {
            TextOrder::Less => {
                i = i + 1;
            },
            TextOrder::Equal => {
                assert(s[i as int] == x@);
                assert(s.contains(x@));
                assert(s.to_set().insert(x@) =~= s.to_set());
                return;
            },
            TextOrder::Greater => {
                break;
            },
        }
    }
    proof {
        assert forall|j: int| 0 <= j < s.len() implies s[j] != x@ by {
            lemma_text_lt_irreflexive(x@);
            if j >= i {
                if j > i {
                    lemma_text_lt_transitive(x@, s[i as int], s[j]);
                }
            }
        }
    }
    v.insert(i, x);
    proof {
        let t = views(v@);
        assert(t =~= s.insert(i as int, x@));
        assert forall|a: int, b: int| 0 <= a < b < t.len() implies text_lt(#[trigger] t[a], #[trigger] t[b]) by {
            if b < i {
            } else if b == i {
            } else if a < i {
                if b - 1 > i {
                    lemma_text_lt_transitive(x@, s[i as int], s[b - 1]);
                }
                lemma_text_lt_transitive(s[a], x@, s[b - 1]);
            } else if a == i {
                if b - 1 > i {
                    lemma_text_lt_transitive(x@, s[i as int], s[b - 1]);
                }
            } else {
            }
        }
        assert(t.to_set() =~= s.to_set().insert(x@)) by {
            assert forall|y: Seq<char>| t.contains(y) <==> s.to_set().insert(x@).contains(y) by {
                if t.contains(y) {
                    let k = choose|k: int| 0 <= k < t.len() && t[k] == y;
                    if k < i {
                        assert(s[k] == y);
                    } else if k > i {
                        assert(s[k - 1] == y);
                    }
                }
                if s.contains(y) {
                    let k = choose|k: int| 0 <= k < s.len() && s[k] == y;
                    if k < i {
                        assert(t[k] == y);
                    } else {
                        assert(t[k + 1] == y);
                    }
                }
                if y == x@ {
                    assert(t[i as int] == y);
                }
            }
        }
    }
}


/// A node of the search: a chain of pages from the start page to the
/// latest one.
#[derive(Debug)]
pub struct Path {
    /// Number of links followed from the start page.
    pub depth: usize,
    /// Titles collected so far, excluding the latest page's (whose page
    /// has not been fetched when the path is made).
    pub contents_array: Vec<String>,
    /// Full addresses visited so far, the latest included, strictly sorted;
    /// it keeps the path free of cycles.
    pub path_vis: Vec<String>,
    /// The latest address of the path.
    pub latest_url: ParsedUrl,
}

/// A message of the search queue.
#[derive(Debug)]
pub enum Message {
    /// A path to explore.
    PathRcv(Path),
    /// No path is left to explore.
    Close,
}

/// How a path is printed: the titles joined by ` => `, then the latest
/// title.
pub open spec fn spec_print_path(contents: Seq<Seq<char>>, latest_title: Seq<char>) -> Seq<char> {
    let joined = join_seqs(contents, " => "@);
    if joined.len() == 0 {
        latest_title
    } else {
        joined + " => "@ + latest_title
    }
}

/// The goal test on a page title: where the title holds `pattern`, the path
/// as it is printed, ending with `shown`; else nothing.
pub open spec fn spec_goal_test(contents: Seq<Seq<char>>, title: Option<Seq<char>>, pattern: Seq<char>, shown: Seq<char>) -> Option<Seq<char>> {
    match title {
        Some(t) => if contains_seq(t, pattern) { Some(spec_print_path(contents, shown)) } else { None },
        None => None,
    }
}

impl Path {
    /// The visited full addresses, in order.
    pub open spec fn vis(&self) -> Seq<Seq<char>> {
        views(self.path_vis@)
    }

    /// The titles, in order.
    pub open spec fn contents(&self) -> Seq<Seq<char>> {
        views(self.contents_array@)
    }

    /// The full address of the latest page.
    pub open spec fn latest_full(&self) -> Seq<char> {
        self.latest_url@.full().unwrap()
    }

    /// The visited set is strictly sorted, the latest address can be
    /// resolved and it is in the visited set.
    pub open spec fn wf(&self) -> bool {
        &&& strictly_sorted(self.vis())
        &&& self.latest_url@.joinable()
        &&& self.vis().contains(self.latest_full())
    }

    /// Creates the path that holds only the given start address.
    pub fn new(url: &str) -> (res: Result<Path, UrlError>)
        ensures
            match spec_parse_base_url(url@) {
                Err(e) => res == Err::<Path, UrlError>(e),
                Ok(m) => match m.full() {
                    None => res == Err::<Path, UrlError>(UrlError::Unjoinable),
                    Some(f) => res matches Ok(p) && p.depth == 0 && p.contents().len() == 0
                        && p.vis() == seq![f] && p.latest_url@ == m && p.wf(),
                },
            },
    {
        let latest_url = match parse_base_url(url) {
            Ok(u) => u,
            Err(e) => return Err(e),
        };
        let full = match latest_url.full_url() {
            Some(f) => f,
            None => return Err(UrlError::Unjoinable),
        };
        let mut path_vis: Vec<String> = Vec::new();
        path_vis.push(full);
        let p = Path { depth: 0, contents_array: Vec::new(), path_vis, latest_url };
        assert(p.vis() =~= seq![p.latest_full()]);
        assert(p.vis()[0] == p.latest_full());
        Ok(p)
    }

    /// A copy of this path.
    pub fn clone(&self) -> (res: Path)
        ensures
            res.depth == self.depth,
            res.contents() == self.contents(),
            res.vis() == self.vis(),
            res.latest_url@ == self.latest_url@,
    {
        let mut contents_array: Vec<String> = Vec::new();
        let mut i: usize = 0;
        while i < self.contents_array.len()
            invariant
                i <= self.contents_array.len(),
                views(contents_array@) == self.contents().take(i as int),
            decreases self.contents_array.len() - i,
        {
            let c = self.contents_array[i].clone();
            assert(c@ == self.contents()[i as int]);
            let ghost prev = contents_array@;
            contents_array.push(c);
            assert(views(contents_array@) =~= views(prev).push(c@));
            assert(views(contents_array@) =~= self.contents().take(i + 1));
            i = i + 1;
        }
        let mut path_vis: Vec<String> = Vec::new();
        let mut i: usize = 0;
        while i < self.path_vis.len()
            invariant
                i <= self.path_vis.len(),
                views(path_vis@) == self.vis().take(i as int),
            decreases self.path_vis.len() - i,
        {
            let c = self.path_vis[i].clone();
            assert(c@ == self.vis()[i as int]);
            let ghost prev = path_vis@;
            path_vis.push(c);
            assert(views(path_vis@) =~= views(prev).push(c@));
            assert(views(path_vis@) =~= self.vis().take(i + 1));
            i = i + 1;
        }
        assert(self.contents().take(self.contents_array.len() as int) =~= self.contents());
        assert(self.vis().take(self.path_vis.len() as int) =~= self.vis());
        Path { depth: self.depth, contents_array, path_vis, latest_url: self.latest_url.clone() }
    }

    /// Returns the path one link further: to `new_parsed_url`, whose address
    /// joins the visited set, with the title of the page it leaves, if any.
    pub fn add_info(&self, new_parsed_url: ParsedUrl, page_title: Option<String>) -> (res: Path)
        requires
            self.wf(),
            new_parsed_url@.joinable(),
            self.depth < usize::MAX,
        ensures
            is_added(*self, new_parsed_url@, opt_view(page_title), res),
    {
        let mut new_path = self.clone();
        let full = new_parsed_url.get_full_url();
        new_path.depth = new_path.depth + 1;
        insert_sorted(&mut new_path.path_vis, full);
        match page_title {
            Some(title) => {
                new_path.contents_array.push(title);
                assert(new_path.contents() =~= self.contents().push(opt_view(page_title).unwrap()));
            },
            None => {},
        }
        new_path.latest_url = new_parsed_url;
        assert(new_path.vis().to_set().contains(new_path.latest_full()));
        new_path
    }

    /// Returns the latest address of this path.
    pub fn get_most_recent_url(&self) -> (res: &ParsedUrl)
        ensures
            res == &self.latest_url,
    {
        &self.latest_url
    }

    /// Returns true if the full address of `new_url` is in the visited set.
    pub fn is_visited(&self, new_url: &ParsedUrl) -> (res: bool)
        requires
            new_url@.joinable(),
        ensures
            res == self.vis().contains(new_url@.full().unwrap()),
    {
        let full = new_url.get_full_url();
        let mut i: usize = 0;
        while i < self.path_vis.len()
            invariant
                i <= self.path_vis.len(),
                forall|j: int| 0 <= j < i ==> self.vis()[j] != full@,
                Some(full@) == new_url@.full(),
            decreases self.path_vis.len() - i,
        {
            assert(self.vis()[i as int] == self.path_vis@[i as int]@);
            if self.path_vis[i] == full {
                assert(self.vis()[i as int] == full@);
                assert(self.vis().contains(full@));
                return true;
            }
            i = i + 1;
        }
        false
    }

    /// Joins the titles of the path with the latest one, as it is printed
    /// when the latest page passes the goal test.
    pub fn print_path(&self, latest_title: &str) -> (res: String)
        ensures
            res@ == spec_print_path(self.contents(), latest_title@),
    {
        let joined = join_texts(&self.contents_array, " => ");
        if joined.unicode_len() == 0 {
            String::from_str(latest_title)
        } else {
            let mut out = joined;
            out.append(" => ");
            out.append(latest_title);
            out
        }
    }

    /// The goal test on a page title: where the title holds `pattern`, the
    /// path as it is printed, ending with `string_to_print`.
    pub fn goal_test_on_title(&self, title: &Option<String>, pattern: &str, string_to_print: &str) -> (res: Option<String>)
        ensures
            opt_view(res) == spec_goal_test(self.contents(), opt_view(*title), pattern@, string_to_print@),
    {
        match title {
            Some(t) => {
                if contains_text(t.as_str(), pattern) {
                    Some(self.print_path(string_to_print))
                } else {
                    None
                }
            },
            None => None,
        }
    }
}


/// `child` is what `add_info` makes of `parent`, the address `u` and the
/// title `title`: one level deeper, the title added where there is one, the
/// full address of `u` added to the visited set, `u` the latest address.
pub open spec fn is_added(parent: Path, u: UrlModel, title: Option<Seq<char>>, child: Path) -> bool {
    &&& child.wf()
    &&& child.depth == parent.depth + 1
    &&& child.contents() == match title {
        Some(t) => parent.contents().push(t),
        None => parent.contents(),
    }
    &&& child.vis().to_set() == parent.vis().to_set().insert(u.full().unwrap())
    &&& parent.vis().contains(u.full().unwrap()) ==> child.vis() == parent.vis()
    &&& !parent.vis().contains(u.full().unwrap()) ==> child.vis().len() == parent.vis().len() + 1
    &&& child.latest_url@ == u
}

/// What holds of every path built from `Path::new` by `add_info` steps: it
/// is well formed (its latest address is visited), it has visited at most
/// one address per page, and it has at most one title per step.
pub open spec fn chain_ok(p: Path) -> bool {
    &&& p.wf()
    &&& p.vis().len() <= p.depth + 1
    &&& p.contents().len() <= p.depth
}

/// A path as `Path::new` makes it satisfies the chain properties.
pub proof fn lemma_start_path_is_chain(p: Path)
    requires
        p.wf(),
        p.depth == 0,
        p.contents().len() == 0,
        p.vis().len() == 1,
    ensures
        chain_ok(p),
{
}

/// `add_info` keeps the chain properties; the new address is the latest and
/// is visited; and where every step carries a title, there is one title per
/// step.
pub proof fn lemma_added_keeps_chain(parent: Path, u: UrlModel, title: Option<Seq<char>>, child: Path)
    requires
        chain_ok(parent),
        is_added(parent, u, title, child),
    ensures
        chain_ok(child),
        child.latest_url@ == u,
        child.vis().contains(u.full().unwrap()),
        title is Some && parent.contents().len() == parent.depth ==> child.contents().len() == child.depth,
{
    assert(child.vis().to_set().contains(u.full().unwrap()));
}

/// The model of a path: its depth, titles, visited set and latest address.
pub struct PathModel {
    pub depth: nat,
    pub contents: Seq<Seq<char>>,
    pub vis: Set<Seq<char>>,
    pub latest: UrlModel,
}

/// The model of `parent` one step further, to `u`, carrying `title`.
pub open spec fn step_model(parent: PathModel, u: UrlModel, title: Option<Seq<char>>) -> PathModel {
    PathModel {
        depth: parent.depth + 1,
        contents: match title {
            Some(t) => parent.contents.push(t),
            None => parent.contents,
        },
        vis: parent.vis.insert(u.full().unwrap()),
        latest: u,
    }
}

impl Path {
    /// The model of this path.
    pub open spec fn model(&self) -> PathModel {
        PathModel { depth: self.depth as nat, contents: self.contents(), vis: self.vis().to_set(), latest: self.latest_url@ }
    }
}

/// A step of the search is the model step.
pub proof fn lemma_step_is_model_step(parent: Path, u: UrlModel, title: Option<Seq<char>>, child: Path)
    requires
        is_step(parent, u, title, child),
    ensures
        child.model() == step_model(parent.model(), u, title),
{
}

/// The text form of a path.
pub open spec fn spec_path_text(depth: nat, contents: Seq<Seq<char>>, vis: Seq<Seq<char>>, latest: Seq<char>) -> Seq<char> {
    let titles = join_seqs(contents, Seq::<char>::empty());
    let path_part = if titles.len() == 0 { "[]"@ } else { titles };
    let vis_part = if vis.len() == 0 { "{}"@ } else { "["@ + join_seqs(vis, ", "@) + "]"@ };
    "(depth: "@ + decimal(depth) + ", path: "@ + path_part + ", vis:"@ + vis_part + ", latest_url:"@ + latest + ")"@
}

/// The page a link of the latest page leads to, where it is a next step:
/// the link resolves, its full address can be formed and is not visited.
pub open spec fn spec_child(vis: Set<Seq<char>>, latest: UrlModel, href: Seq<char>) -> Option<UrlModel> {
    match spec_new_parsed_url(latest, href) {
        Ok(u) => match u.full() {
            Some(f) => if vis.contains(f) { None } else { Some(u) },
            None => None,
        },
        Err(_) => None,
    }
}

/// The next steps through the links `hrefs`, in order; with `dedupe`, a
/// link that occurred before is not followed again.
pub open spec fn spec_next_steps(vis: Set<Seq<char>>, latest: UrlModel, hrefs: Seq<Seq<char>>, dedupe: bool) -> Seq<UrlModel>
    decreases hrefs.len(),
{
    if hrefs.len() == 0 {
        Seq::empty()
    } else {
        let prev = spec_next_steps(vis, latest, hrefs.drop_last(), dedupe);
        match spec_child(vis, latest, hrefs.last()) {
            Some(u) => if dedupe && hrefs.drop_last().contains(hrefs.last()) { prev } else { prev.push(u) },
            None => prev,
        }
    }
}

/// The next steps through the links `hrefs` where every link must resolve:
/// the first link that does not gives its error, together with the link.
pub open spec fn spec_next_steps_strict(vis: Set<Seq<char>>, latest: UrlModel, hrefs: Seq<Seq<char>>) -> Result<Seq<UrlModel>, (UrlError, Seq<char>)>
    decreases hrefs.len(),
{
    if hrefs.len() == 0 {
        Ok(Seq::empty())
    } else {
        match spec_next_steps_strict(vis, latest, hrefs.drop_last()) {
            Err(e) => Err(e),
            Ok(prev) => match spec_new_parsed_url(latest, hrefs.last()) {
                Err(e) => Err((e, hrefs.last())),
                Ok(u) => match u.full() {
                    None => Err((UrlError::Unjoinable, hrefs.last())),
                    Some(f) => if vis.contains(f) { Ok(prev) } else { Ok(prev.push(u)) },
                },
            },
        }
    }
}

/// A link that does not resolve, and why.
#[derive(Debug)]
pub struct LinkError {
    /// Why the link does not resolve.
    pub error: UrlError,
    /// The link.
    pub href: String,
}

/// `child` is `parent` one step further, to the unvisited address `u`,
/// with `title` added to the titles where there is one.
pub open spec fn is_step(parent: Path, u: UrlModel, title: Option<Seq<char>>, child: Path) -> bool {
    &&& child.wf()
    &&& child.depth == parent.depth + 1
    &&& child.contents() == match title {
        Some(t) => parent.contents().push(t),
        None => parent.contents(),
    }
    &&& child.vis().to_set() == parent.vis().to_set().insert(u.full().unwrap())
    &&& child.vis().len() == parent.vis().len() + 1
    &&& child.latest_url@ == u
}

/// Tests whether `x` is in `list`.
pub fn contains_string(list: &Vec<String>, x: &String) -> (res: bool)
    ensures
        res == views(list@).contains(x@),
{
    let mut i: usize = 0;
    while i < list.len()
        invariant
            i <= list.len(),
            forall|j: int| 0 <= j < i ==> views(list@)[j] != x@,
        decreases list.len() - i,
    {
        assert(views(list@)[i as int] == list@[i as int]@);
        if list[i] == *x {
            assert(views(list@).contains(x@));
            return true;
        }
        i = i + 1;
    }
    false
}

/// A copy of an optional title.
fn clone_title(t: &Option<String>) -> (res: Option<String>)
    ensures
        opt_view(res) == opt_view(*t),
{
    match t {
        Some(s) => Some(s.clone()),
        None => None,
    }
}

impl Path {
    /// The text form: `(depth: d, path: <titles>, vis:[<addresses>], latest_url:<address>)`,
    /// the visited addresses in sorted order.
    pub fn to_string(&self) -> (res: String)
        requires
            self.wf(),
        ensures
            res@ == spec_path_text(self.depth as nat, self.contents(), self.vis(), self.latest_full()),
    {
        proof {
            reveal_strlit("");
            assert(""@ =~= Seq::<char>::empty());
        }
        let titles = join_texts(&self.contents_array, "");
        let ghost titles_view = join_seqs(self.contents(), Seq::<char>::empty());
        let ghost path_part = if titles_view.len() == 0 { "[]"@ } else { titles_view };
        let ghost vis_part = if self.vis().len() == 0 { "{}"@ } else { "["@ + join_seqs(self.vis(), ", "@) + "]"@ };
        let mut out = String::from_str("(depth: ");
        push_decimal(&mut out, self.depth as u64);
        out.append(", path: ");
        let ghost start = out@;
        if titles.unicode_len() == 0 {
            out.append("[]");
        } else {
            out.append(titles.as_str());
        }
        assert(out@ =~= start + path_part);
        out.append(", vis:");
        let ghost start = out@;
        if self.path_vis.len() == 0 {
            out.append("{}");
        } else {
            out.append("[");
            let vis = join_texts(&self.path_vis, ", ");
            out.append(vis.as_str());
            out.append("]");
        }
        assert(out@ =~= start + vis_part);
        out.append(", latest_url:");
        let latest = self.latest_url.get_full_url();
        out.append(latest.as_str());
        out.append(")");
        assert(out@ =~= spec_path_text(self.depth as nat, self.contents(), self.vis(), self.latest_full()));
        out
    }

    /// The paths one step further through the links `hrefs` of the latest
    /// page, each with the title `title`: links that do not resolve, whose
    /// full address cannot be formed or whose page is already on the path are
    /// skipped, and with `dedupe` so is a link that occurred before.
    pub fn next_paths(&self, hrefs: &Vec<String>, title: &Option<String>, dedupe: bool) -> (res: Vec<Path>)
        requires
            self.wf(),
            self.depth < usize::MAX,
        ensures
            res@.len() == spec_next_steps(self.vis().to_set(), self.latest_url@, views(hrefs@), dedupe).len(),
            forall|k: int| 0 <= k < res@.len() ==> is_step(*self, spec_next_steps(self.vis().to_set(), self.latest_url@, views(hrefs@), dedupe)[k], opt_view(*title), #[trigger] res@[k]),
    {
        let ghost all = views(hrefs@);
        let mut out: Vec<Path> = Vec::new();
        let mut seen: Vec<String> = Vec::new();
        let mut i: usize = 0;
        while i < hrefs.len()
            invariant
                self.wf(),
                self.depth < usize::MAX,
                all == views(hrefs@),
                i <= hrefs.len(),
                out@.len() == spec_next_steps(self.vis().to_set(), self.latest_url@, all.take(i as int), dedupe).len(),
                forall|k: int| 0 <= k < out@.len() ==> is_step(*self, spec_next_steps(self.vis().to_set(), self.latest_url@, all.take(i as int), dedupe)[k], opt_view(*title), #[trigger] out@[k]),
                forall|x: Seq<char>| views(seen@).contains(x) <==> (all.take(i as int).contains(x) && spec_child(self.vis().to_set(), self.latest_url@, x) is Some),
            decreases hrefs.len() - i,
        {
            let ghost prefix = all.take(i as int);
            let ghost steps = spec_next_steps(self.vis().to_set(), self.latest_url@, prefix, dedupe);
            assert(all.take(i + 1).drop_last() =~= prefix);
            assert(all.take(i + 1).last() == hrefs@[i as int]@);
            let child = &hrefs[i];
            let ghost accepted: bool = spec_child(self.vis().to_set(), self.latest_url@, child@) is Some;
            let ghost seen_prev = views(seen@);
            let ghost mut pushed = false;
            let parsed = self.latest_url.get_new_parsed_url(child.clone());
            match parsed {
                Ok(u) => {
                    let full = u.full_url();
                    match full {
                        Some(_) => {
                            if self.is_visited(&u) {
                                assert(!accepted);
                            } else if dedupe && contains_string(&seen, child) {
                                assert(accepted);
                                assert(prefix.contains(child@));
                            } else {
                                assert(accepted);
                                seen.push(child.clone());
                                assert(views(seen@) =~= seen_prev.push(child@));
                                proof {
                                    pushed = true;
                                }
                                let p = self.add_info(u, clone_title(title));
                                let ghost before = out@;
                                out.push(p);
                                assert(forall|k: int| 0 <= k < before.len() ==> out@[k] == before[k]);
                            }
                        },
                        None => {
                            assert(!accepted);
                        },
                    }
                },
                Err(_) => {
                    assert(!accepted);
                },
            }
            assert(pushed ==> views(seen@) == seen_prev.push(child@) && accepted);
            assert(!pushed ==> views(seen@) == seen_prev && (!accepted || seen_prev.contains(child@)));
            proof {
                let next = all.take(i + 1);
                assert(spec_next_steps(self.vis().to_set(), self.latest_url@, next, dedupe) == if spec_child(self.vis().to_set(), self.latest_url@, child@) is Some && !(dedupe && prefix.contains(child@)) {
                    steps.push(spec_child(self.vis().to_set(), self.latest_url@, child@).unwrap())
                } else {
                    steps
                });
                assert forall|x: Seq<char>| views(seen@).contains(x) <==> (next.contains(x) && spec_child(self.vis().to_set(), self.latest_url@, x) is Some) by {
                    let sv = views(seen@);
                    if sv.contains(x) {
                        let k = choose|k: int| 0 <= k < sv.len() && sv[k] == x;
                        if k < seen_prev.len() {
                            assert(seen_prev[k] == x);
                            assert(seen_prev.contains(x));
                            let j = choose|j: int| 0 <= j < prefix.len() && prefix[j] == x;
                            assert(next[j] == x);
                        } else {
                            assert(pushed);
                            assert(x == child@);
                            assert(next[i as int] == x);
                        }
                    }
                    if next.contains(x) && spec_child(self.vis().to_set(), self.latest_url@, x) is Some {
                        let k = choose|k: int| 0 <= k < next.len() && next[k] == x;
                        if k < i {
                            assert(prefix[k] == x);
                            assert(prefix.contains(x));
                            assert(seen_prev.contains(x));
                            let j = choose|j: int| 0 <= j < seen_prev.len() && seen_prev[j] == x;
                            assert(sv[j] == x);
                        } else {
                            assert(x == child@);
                            assert(accepted);
                            if pushed {
                                assert(sv[seen_prev.len() as int] == x);
                            } else {
                                assert(seen_prev.contains(x));
                            }
                        }
                    }
                }
            }
            i = i + 1;
        }
        assert(all.take(hrefs.len() as int) =~= all);
        out
    }
}


impl Path {
    /// The paths one step further through the links `hrefs` of the latest
    /// page, each with the title `title`, where every link must resolve: the
    /// first link that does not, or whose full address cannot be formed,
    /// gives its error; links to pages already on the path are skipped.
    pub fn next_paths_strict(&self, hrefs: &Vec<String>, title: &Option<String>) -> (res: Result<Vec<Path>, LinkError>)
        requires
            self.wf(),
            self.depth < usize::MAX,
        ensures
            match spec_next_steps_strict(self.vis().to_set(), self.latest_url@, views(hrefs@)) {
                Err(e) => res matches Err(le) && le.error == e.0 && le.href@ == e.1,
                Ok(steps) => res matches Ok(v) && v@.len() == steps.len()
                    && forall|k: int| 0 <= k < v@.len() ==> is_step(*self, steps[k], opt_view(*title), #[trigger] v@[k]),
            },
    {
        let ghost all = views(hrefs@);
        let mut out: Vec<Path> = Vec::new();
        let mut i: usize = 0;
        while i < hrefs.len()
            invariant
                self.wf(),
                self.depth < usize::MAX,
                all == views(hrefs@),
                i <= hrefs.len(),
                spec_next_steps_strict(self.vis().to_set(), self.latest_url@, all.take(i as int)) is Ok,
                out@.len() == spec_next_steps_strict(self.vis().to_set(), self.latest_url@, all.take(i as int))->Ok_0.len(),
                forall|k: int| 0 <= k < out@.len() ==> is_step(*self, spec_next_steps_strict(self.vis().to_set(), self.latest_url@, all.take(i as int))->Ok_0[k], opt_view(*title), #[trigger] out@[k]),
            decreases hrefs.len() - i,
        {
            let ghost prefix = all.take(i as int);
            assert(all.take(i + 1).drop_last() =~= prefix);
            assert(all.take(i + 1).last() == hrefs@[i as int]@);
            let child = &hrefs[i];
            let u = match self.latest_url.get_new_parsed_url(child.clone()) {
                Ok(u) => u,
                Err(e) => {
                    proof {
                        lemma_strict_error_stays(self.vis().to_set(), self.latest_url@, all, i as int + 1);
                    }
                    return Err(LinkError { error: e, href: child.clone() });
                },
            };
            match u.full_url() {
                Some(_) => {},
                None => {
                    proof {
                        lemma_strict_error_stays(self.vis().to_set(), self.latest_url@, all, i as int + 1);
                    }
                    return Err(LinkError { error: UrlError::Unjoinable, href: child.clone() });
                },
            }
            if !self.is_visited(&u) {
                let p = self.add_info(u, clone_title(title));
                let ghost before = out@;
                out.push(p);
                assert(forall|k: int| 0 <= k < before.len() ==> out@[k] == before[k]);
            }
            i = i + 1;
        }
        assert(all.take(hrefs.len() as int) =~= all);
        Ok(out)
    }
}

/// Once a prefix of the links gives an error, every longer prefix gives it.
pub proof fn lemma_strict_error_stays(vis: Set<Seq<char>>, latest: UrlModel, hrefs: Seq<Seq<char>>, n: int)
    requires
        0 <= n <= hrefs.len(),
        spec_next_steps_strict(vis, latest, hrefs.take(n)) is Err,
    ensures
        spec_next_steps_strict(vis, latest, hrefs) == spec_next_steps_strict(vis, latest, hrefs.take(n)),
    decreases hrefs.len() - n,
{
    if n < hrefs.len() {
        assert(hrefs.take(n + 1).drop_last() =~= hrefs.take(n));
        lemma_strict_error_stays(vis, latest, hrefs, n + 1);
    } else {
        assert(hrefs.take(n) =~= hrefs);
    }
}


impl Path {
    /// Tests the well-formedness of this path: visited set strictly sorted,
    /// latest address resolvable and visited.
    pub fn is_well_formed(&self) -> (res: bool)
        ensures
            res == self.wf(),
    {
        let n = self.path_vis.len();
        if n > 0 {
            let mut i: usize = 0;
            while i + 1 < n
                invariant
                    n == self.path_vis.len(),
                    n > 0,
                    i < n,
                    strictly_sorted(self.vis().take(i + 1)),
                decreases n - i,
            {
                assert(self.vis()[i as int] == self.path_vis@[i as int]@);
                assert(self.vis()[i + 1] == self.path_vis@[i + 1]@);
                match compare_texts(self.path_vis[i].as_str(), self.path_vis[i + 1].as_str()) {
                    TextOrder::Less => {},
                    _ => {
                        assert(!strictly_sorted(self.vis()) ) by {
                            assert(!text_lt(self.vis()[i as int], self.vis()[i + 1]));
                        }
                        return false;
                    },
                }
                proof {
                    let t = self.vis().take(i + 2);
                    let prev = self.vis().take(i + 1);
                    assert forall|a: int, b: int| 0 <= a < b < t.len() implies text_lt(#[trigger] t[a], #[trigger] t[b]) by {
                        if b < i + 1 {
                            assert(prev[a] == t[a] && prev[b] == t[b]);
                        } else if a < i {
                            assert(prev[a] == t[a] && prev[i as int] == t[i as int]);
                            lemma_text_lt_transitive(t[a], t[i as int], t[b]);
                        }
                    }
                }
                i = i + 1;
            }
            assert(self.vis().take(n as int) =~= self.vis());
        }
        match self.latest_url.full_url() {
            Some(full) => {
                let mut found = false;
                let mut j: usize = 0;
                while j < n
                    invariant
                        n == self.path_vis.len(),
                        j <= n,
                        Some(full@) == self.latest_url@.full(),
                        found == exists|k: int| 0 <= k < j && self.vis()[k] == full@,
                    decreases n - j,
                {
                    assert(self.vis()[j as int] == self.path_vis@[j as int]@);
                    if self.path_vis[j] == full {
                        found = true;
                    }
                    j = j + 1;
                }
                found
            },
            None => false,
        }
    }
}

/// Every next step leads to a page whose full address can be formed and is
/// not yet on the path: the search never walks in a cycle.
pub proof fn lemma_next_steps_unvisited(vis: Set<Seq<char>>, latest: UrlModel, hrefs: Seq<Seq<char>>, dedupe: bool)
    ensures
        forall|k: int| 0 <= k < spec_next_steps(vis, latest, hrefs, dedupe).len() ==> {
            let u = #[trigger] spec_next_steps(vis, latest, hrefs, dedupe)[k];
            u.joinable() && !vis.contains(u.full().unwrap())
        },
    decreases hrefs.len(),
{
    if hrefs.len() > 0 {
        lemma_next_steps_unvisited(vis, latest, hrefs.drop_last(), dedupe);
    }
}

/// Following a step keeps the count of visited addresses one more than the
/// depth: from the start page on, a path visits a new page at each step.
pub proof fn lemma_step_keeps_one_address_per_page(parent: Path, u: UrlModel, title: Option<Seq<char>>, child: Path)
    requires
        is_step(parent, u, title, child),
        parent.vis().len() == parent.depth + 1,
    ensures
        child.vis().len() == child.depth + 1,
{
}

/// A step keeps every visited address, adds the address of the new page,
/// which becomes the latest, and goes one level deeper.
pub proof fn lemma_step_extends_path(parent: Path, u: UrlModel, title: Option<Seq<char>>, child: Path)
    requires
        is_step(parent, u, title, child),
    ensures
        parent.vis().to_set().subset_of(child.vis().to_set()),
        child.vis().contains(u.full().unwrap()),
        child.latest_full() == u.full().unwrap(),
        child.depth == parent.depth + 1,
        child.contents().len() <= parent.contents().len() + 1,
{
    assert(child.vis().to_set().contains(u.full().unwrap()));
}


/// The link `href` of the page at `latest` resolves to an address whose full
/// address can be formed.
pub open spec fn link_resolves(latest: UrlModel, href: Seq<char>) -> bool {
    spec_new_parsed_url(latest, href) is Ok && spec_new_parsed_url(latest, href)->Ok_0.full() is Some
}

/// The link `href` of the page at `latest` leads to a page that is not in
/// `vis`: the search follows it.
pub open spec fn link_is_new(vis: Set<Seq<char>>, latest: UrlModel, href: Seq<char>) -> bool {
    link_resolves(latest, href) && !vis.contains(spec_new_parsed_url(latest, href)->Ok_0.full().unwrap())
}

/// Completeness and soundness of the next steps: every link that resolves
/// to a page not yet visited is followed (whatever the number of links),
/// and every next step is the address of such a link.
pub proof fn lemma_next_steps_complete(vis: Set<Seq<char>>, latest: UrlModel, hrefs: Seq<Seq<char>>, dedupe: bool)
    ensures
        forall|i: int| 0 <= i < hrefs.len() && #[trigger] link_is_new(vis, latest, hrefs[i])
            ==> spec_next_steps(vis, latest, hrefs, dedupe).contains(spec_new_parsed_url(latest, hrefs[i])->Ok_0),
        forall|k: int| 0 <= k < spec_next_steps(vis, latest, hrefs, dedupe).len() ==> exists|i: int|
            0 <= i < hrefs.len() && link_is_new(vis, latest, hrefs[i])
                && #[trigger] spec_next_steps(vis, latest, hrefs, dedupe)[k] == spec_new_parsed_url(latest, hrefs[i])->Ok_0,
    decreases hrefs.len(),
{
    if hrefs.len() > 0 {
        let prev_hrefs = hrefs.drop_last();
        lemma_next_steps_complete(vis, latest, prev_hrefs, dedupe);
        let prev = spec_next_steps(vis, latest, prev_hrefs, dedupe);
        let steps = spec_next_steps(vis, latest, hrefs, dedupe);
        let n = hrefs.len() - 1;
        assert forall|i: int| 0 <= i < hrefs.len() && #[trigger] link_is_new(vis, latest, hrefs[i])
            implies steps.contains(spec_new_parsed_url(latest, hrefs[i])->Ok_0) by {
            let u = spec_new_parsed_url(latest, hrefs[i])->Ok_0;
            if i < n {
                assert(prev_hrefs[i] == hrefs[i]);
                assert(link_is_new(vis, latest, prev_hrefs[i]));
                let j = choose|j: int| 0 <= j < prev.len() && prev[j] == u;
                assert(steps[j] == u);
            } else {
                if dedupe && prev_hrefs.contains(hrefs.last()) {
                    let j = choose|j: int| 0 <= j < prev_hrefs.len() && prev_hrefs[j] == hrefs.last();
                    assert(link_is_new(vis, latest, prev_hrefs[j]));
                    let m = choose|m: int| 0 <= m < prev.len() && prev[m] == u;
                    assert(steps[m] == u);
                } else {
                    assert(steps[steps.len() - 1] == u);
                }
            }
        }
        assert forall|k: int| 0 <= k < steps.len() implies exists|i: int|
            0 <= i < hrefs.len() && link_is_new(vis, latest, hrefs[i]) && #[trigger] steps[k]
                == spec_new_parsed_url(latest, hrefs[i])->Ok_0 by {
            if k < prev.len() {
                assert(steps[k] == prev[k]);
                let i = choose|i: int|
                    0 <= i < prev_hrefs.len() && link_is_new(vis, latest, prev_hrefs[i]) && #[trigger] prev[k]
                        == spec_new_parsed_url(latest, prev_hrefs[i])->Ok_0;
                assert(hrefs[i] == prev_hrefs[i]);
            } else {
                assert(link_is_new(vis, latest, hrefs[n]));
            }
        }
    }
}

/// The strict next steps: they exist exactly when every link resolves; then
/// every link to a page not yet visited is followed, whatever their number,
/// and every step is such a link's address; else the error names the first
/// link that does not resolve.
pub proof fn lemma_strict_steps_complete(vis: Set<Seq<char>>, latest: UrlModel, hrefs: Seq<Seq<char>>)
    ensures
        spec_next_steps_strict(vis, latest, hrefs) is Ok <==> forall|i: int| 0 <= i < hrefs.len() ==> #[trigger] link_resolves(latest, hrefs[i]),
        spec_next_steps_strict(vis, latest, hrefs) matches Ok(steps) ==> {
            &&& forall|i: int| 0 <= i < hrefs.len() && #[trigger] link_is_new(vis, latest, hrefs[i])
                ==> steps.contains(spec_new_parsed_url(latest, hrefs[i])->Ok_0)
            &&& forall|k: int| 0 <= k < steps.len() ==> exists|i: int|
                0 <= i < hrefs.len() && link_is_new(vis, latest, hrefs[i])
                    && #[trigger] steps[k] == spec_new_parsed_url(latest, hrefs[i])->Ok_0
        },
        spec_next_steps_strict(vis, latest, hrefs) matches Err(e) ==> exists|i: int|
            0 <= i < hrefs.len() && #[trigger] hrefs[i] == e.1 && !link_resolves(latest, hrefs[i])
                && forall|j: int| 0 <= j < i ==> link_resolves(latest, #[trigger] hrefs[j]),
    decreases hrefs.len(),
{
    if hrefs.len() > 0 {
        let prev_hrefs = hrefs.drop_last();
        let n = hrefs.len() - 1;
        lemma_strict_steps_complete(vis, latest, prev_hrefs);
        let r = spec_next_steps_strict(vis, latest, hrefs);
        let pr = spec_next_steps_strict(vis, latest, prev_hrefs);
        assert forall|i: int| 0 <= i < n implies hrefs[i] == prev_hrefs[i] by {}
        if pr is Err {
            let e = pr->Err_0;
            let i = choose|i: int|
                0 <= i < prev_hrefs.len() && #[trigger] prev_hrefs[i] == e.1 && !link_resolves(latest, prev_hrefs[i])
                    && forall|j: int| 0 <= j < i ==> link_resolves(latest, #[trigger] prev_hrefs[j]);
            assert(hrefs[i] == prev_hrefs[i]);
            assert(forall|j: int| 0 <= j < i ==> link_resolves(latest, #[trigger] hrefs[j])) by {
                assert forall|j: int| 0 <= j < i implies link_resolves(latest, #[trigger] hrefs[j]) by {
                    assert(hrefs[j] == prev_hrefs[j]);
                }
            }
            assert(!link_resolves(latest, hrefs[i]));
        } else {
            let prev = pr->Ok_0;
            assert(forall|j: int| 0 <= j < n ==> link_resolves(latest, #[trigger] hrefs[j])) by {
                assert forall|j: int| 0 <= j < n implies link_resolves(latest, #[trigger] hrefs[j]) by {
                    assert(link_resolves(latest, prev_hrefs[j]));
                }
            }
            if !link_resolves(latest, hrefs[n]) {
                assert(r is Err && r->Err_0.1 == hrefs[n]);
            } else {
                let u = spec_new_parsed_url(latest, hrefs[n])->Ok_0;
                let steps = r->Ok_0;
                assert(forall|i: int| 0 <= i < hrefs.len() ==> #[trigger] link_resolves(latest, hrefs[i])) by {
                    assert forall|i: int| 0 <= i < hrefs.len() implies #[trigger] link_resolves(latest, hrefs[i]) by {
                        if i < n {
                            assert(link_resolves(latest, prev_hrefs[i]));
                        }
                    }
                }
                assert forall|i: int| 0 <= i < hrefs.len() && #[trigger] link_is_new(vis, latest, hrefs[i])
                    implies steps.contains(spec_new_parsed_url(latest, hrefs[i])->Ok_0) by {
                    let v = spec_new_parsed_url(latest, hrefs[i])->Ok_0;
                    if i < n {
                        assert(link_is_new(vis, latest, prev_hrefs[i]));
                        let j = choose|j: int| 0 <= j < prev.len() && prev[j] == v;
                        assert(steps[j] == v);
                    } else {
                        assert(steps[steps.len() - 1] == v);
                    }
                }
                assert forall|k: int| 0 <= k < steps.len() implies exists|i: int|
                    0 <= i < hrefs.len() && link_is_new(vis, latest, hrefs[i]) && #[trigger] steps[k]
                        == spec_new_parsed_url(latest, hrefs[i])->Ok_0 by {
                    if k < prev.len() {
                        assert(steps[k] == prev[k]);
                        let i = choose|i: int|
                            0 <= i < prev_hrefs.len() && link_is_new(vis, latest, prev_hrefs[i]) && #[trigger] prev[k]
                                == spec_new_parsed_url(latest, prev_hrefs[i])->Ok_0;
                        assert(hrefs[i] == prev_hrefs[i]);
                    } else {
                        assert(link_is_new(vis, latest, hrefs[n]));
                    }
                }
            }
        }
    }
}


/// The goal test reports a path exactly when there is a title and the
/// pattern occurs in it at some position, and then reports the printed path.
pub proof fn lemma_goal_test_exact(contents: Seq<Seq<char>>, title: Option<Seq<char>>, pattern: Seq<char>, shown: Seq<char>)
    ensures
        spec_goal_test(contents, title, pattern, shown) is Some <==> (title is Some && exists|i: int|
            0 <= i && i + pattern.len() <= title->Some_0.len() && #[trigger] title->Some_0.subrange(i, i + pattern.len())
                == pattern),
        spec_goal_test(contents, title, pattern, shown) is Some ==> spec_goal_test(contents, title, pattern, shown)->Some_0
            == spec_print_path(contents, shown),
{
    if title is Some {
        let t = title->Some_0;
        if contains_seq(t, pattern) {
            let i = choose|i: int| occurs_at(t, pattern, i);
            assert(t.subrange(i, i + pattern.len()) == pattern);
        }
        if exists|i: int| 0 <= i && i + pattern.len() <= t.len() && #[trigger] t.subrange(i, i + pattern.len()) == pattern {
            let i = choose|i: int| 0 <= i && i + pattern.len() <= t.len() && #[trigger] t.subrange(i, i + pattern.len()) == pattern;
            assert(occurs_at(t, pattern, i));
        }
    }
}

/// The printed path holds every title, in the order of the path, joined by
/// ` => `, then the latest title; every title and the latest one occur in
/// it, whatever the number of titles.
pub proof fn lemma_print_path_holds_every_title(contents: Seq<Seq<char>>, latest: Seq<char>)
    ensures
        join_seqs(contents, " => "@).len() == 0 ==> spec_print_path(contents, latest) == latest,
        join_seqs(contents, " => "@).len() > 0 ==> spec_print_path(contents, latest) == join_seqs(contents, " => "@)
            + " => "@ + latest,
        forall|k: int| 0 <= k < contents.len() ==> contains_seq(spec_print_path(contents, latest), #[trigger] contents[k]),
        contains_seq(spec_print_path(contents, latest), latest),
{
    let joined = join_seqs(contents, " => "@);
    let printed = spec_print_path(contents, latest);
    lemma_join_holds_every_element(contents, " => "@);
    assert(occurs_at(latest, latest, 0)) by {
        assert(latest.subrange(0, latest.len() as int) =~= latest);
    }
    if joined.len() == 0 {
        assert forall|k: int| 0 <= k < contents.len() implies contains_seq(printed, #[trigger] contents[k]) by {
            let i = choose|i: int| occurs_at(joined, contents[k], i);
            assert(contents[k].len() == 0);
            assert(printed.subrange(0, 0) =~= contents[k]);
            assert(occurs_at(printed, contents[k], 0));
        }
    } else {
        lemma_occurs_in_concat(latest, joined + " => "@, latest, 0);
        assert forall|k: int| 0 <= k < contents.len() implies contains_seq(printed, #[trigger] contents[k]) by {
            let i = choose|i: int| occurs_at(joined, contents[k], i);
            lemma_occurs_in_concat(joined, " => "@, contents[k], i);
            lemma_occurs_in_concat(joined + " => "@, latest, contents[k], i);
        }
    }
}

} // verus!
