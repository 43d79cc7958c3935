//! Page addresses: parsing an address into a base and a part relative to it,
//! resolving child links, and what a fetched page yields.
use crate::text::{decimal, digits_value, lemma_decimal_denotes, opt_view, push_decimal, views};
use vstd::prelude::*;
use vstd::std_specs::cmp::PartialEqSpecImpl;

verus! {

/// Placeholder shown for a page that has no title, or an empty one, where
/// the search prints titles.
pub const EMPTY_TITLE: &'static str = "EMPTY TITLE";

/// Selector of the links of a page (it leaves out the interlanguage and jump
/// links of wiki pages).
pub const LINK_SELECTOR: &'static str = "a:not(.interlanguage-link-target, .mw-jump-link)";

/// Selector of the title element of a page.
pub const TITLE_SELECTOR: &'static str = "title";

/// Why an address could not be taken apart.
#[derive(PartialEq, Eq, Structural, Clone, Copy, Debug)]
pub enum UrlError {
    /// The text is not an absolute address.
    InvalidUrl,
    /// The address has no domain name (an IP address, or no host at all).
    NoDomain,
    /// The base rebuilt from scheme, domain and port is not an address.
    InvalidBase,
    /// The relative part cannot be resolved against the base.
    Unjoinable,
}

#[verifier::external_type_specification]
#[verifier::external_body]
pub struct ExUrlParseError(url::ParseError);

/// The serialization of the URL that `url::Url::parse` makes of `input`,
/// or `None` where it returns an error.
pub uninterp spec fn url_parse(input: Seq<char>) -> Option<Seq<char>>;

/// The part of `s` before its first `:` (all of `s` where it has none).
/// `url::Url::scheme` returns this part of the URL's serialization: the
/// scheme, without the `:` delimiter.
pub open spec fn before_colon(s: Seq<char>) -> Seq<char>
    decreases s.len(),
{
    if s.len() == 0 || s[0] == ':' {
        Seq::empty()
    } else {
        seq![s[0]] + before_colon(s.drop_first())
    }
}

/// What `url::Url::domain` returns for the URL with this serialization.
pub uninterp spec fn url_domain(serialization: Seq<char>) -> Option<Seq<char>>;

/// What `url::Url::port` returns for the URL with this serialization.
pub uninterp spec fn url_port(serialization: Seq<char>) -> Option<u16>;

/// What `url::Url::path` returns for the URL with this serialization.
pub uninterp spec fn url_path(serialization: Seq<char>) -> Seq<char>;

/// The serialization of what `url::Url::join` returns for the URL that
/// `base` parses to and the reference `input`, or `None` where the parse or
/// the join returns an error.
pub uninterp spec fn url_join(base: Seq<char>, input: Seq<char>) -> Option<Seq<char>>;

/// The parts of a parsed address, as plain values.
#[derive(Debug)]
pub struct UrlParts {
    pub serialization: String,
    pub scheme: String,
    pub domain: Option<String>,
    pub port: Option<u16>,
    pub path: String,
}

/// Calls `url::Url::parse` and reads `as_str`, `scheme`, `domain`, `port` and
/// `path` off the result. The contract claims that success and each part are
/// the named results of those functions for this input, and that the scheme
/// is the serialization up to its first `:`.
#[verifier::external_body]
fn parse_url(input: &str) -> (res: Result<UrlParts, url::ParseError>)
    ensures
        res is Ok <==> url_parse(input@) is Some,
        res matches Ok(p) ==> {
            &&& url_parse(input@) == Some(p.serialization@)
            &&& p.scheme@ == before_colon(p.serialization@)
            &&& opt_view(p.domain) == url_domain(p.serialization@)
            &&& p.port == url_port(p.serialization@)
            &&& p.path@ == url_path(p.serialization@)
        },
{
    let u = url::Url::parse(input)?;
    Ok(UrlParts {
        serialization: u.as_str().to_string(),
        scheme: u.scheme().to_string(),
        domain: u.domain().map(|d| d.to_string()),
        port: u.port(),
        path: u.path().to_string(),
    })
}

/// Calls `url::Url::parse` on `base` and then `url::Url::join` with `input`.
/// The contract claims that the serialization of the outcome is the named
/// result `url_join` of the two texts.
#[verifier::external_body]
fn join_url(base: &str, input: &str) -> (res: Option<String>)
    ensures
        opt_view(res) == url_join(base@, input@),
{
    let b = url::Url::parse(base).ok()?;
    b.join(input).ok().map(|u| u.as_str().to_string())
}

/// Takes an address apart into its plain parts.
pub fn url_components(url: &str) -> (res: Result<UrlParts, UrlError>)
    ensures
        res is Ok <==> url_parse(url@) is Some,
        res matches Err(e) ==> e == UrlError::InvalidUrl,
        res matches Ok(p) ==> {
            &&& url_parse(url@) == Some(p.serialization@)
            &&& p.scheme@ == before_colon(p.serialization@)
            &&& opt_view(p.domain) == url_domain(p.serialization@)
            &&& p.port == url_port(p.serialization@)
            &&& p.path@ == url_path(p.serialization@)
        },
{
    match parse_url(url) {
        Ok(p) => Ok(p),
        Err(_) => Err(UrlError::InvalidUrl),
    }
}

/// The model of a parsed address: the serialization of its base (scheme,
/// domain and port) and the part relative to that base.
pub struct UrlModel {
    pub base: Seq<char>,
    pub relative: Seq<char>,
}

impl UrlModel {
    /// The full address: the relative part resolved against the base.
    pub open spec fn full(self) -> Option<Seq<char>> {
        url_join(self.base, self.relative)
    }

    /// Both addresses resolve to the same full address (or neither can be
    /// resolved): the equality of parsed addresses.
    pub open spec fn same_page(self, other: UrlModel) -> bool {
        self.full() == other.full()
    }

    /// The full address can be formed.
    pub open spec fn joinable(self) -> bool {
        self.full() is Some
    }
}

/// An address taken apart into its base (`http://localhost:8000/`) and the
/// part relative to that base (`about.html` or `/index.html`).
#[derive(Debug)]
pub struct ParsedUrl {
    /// Serialization of the base address.
    pub base: String,
    /// Part of the address relative to `base`.
    pub relative: String,
}

impl View for ParsedUrl {
    type V = UrlModel;

    open spec fn view(&self) -> UrlModel {
        UrlModel { base: self.base@, relative: self.relative@ }
    }
}

/// The model of a result that holds a parsed address.
pub open spec fn url_result_view(r: Result<ParsedUrl, UrlError>) -> Result<UrlModel, UrlError> {
    match r {
        Ok(u) => Ok(u@),
        Err(e) => Err(e),
    }
}

impl Clone for ParsedUrl {
    fn clone(&self) -> (res: Self)
        ensures
            res@ == self@,
    {
        ParsedUrl { base: self.base.clone(), relative: self.relative.clone() }
    }
}

impl ParsedUrl {
    /// The full address, where it can be formed.
    pub fn full_url(&self) -> (res: Option<String>)
        ensures
            opt_view(res) == self@.full(),
    {
        join_url(self.base.as_str(), self.relative.as_str())
    }

    /// The full address: the relative part resolved against the base.
    pub fn get_full_url(&self) -> (res: String)
        requires
            self@.joinable(),
        ensures
            Some(res@) == self@.full(),
    {
        match self.full_url() {
            Some(s) => s,
            None => {
                assert(false);
                String::new()
            },
        }
    }

    /// The address as text: the full address.
    pub fn to_string(&self) -> (res: String)
        requires
            self@.joinable(),
        ensures
            Some(res@) == self@.full(),
    {
        self.get_full_url()
    }
}

impl PartialEq for ParsedUrl {
    fn eq(&self, other: &Self) -> (res: bool) {
        match (self.full_url(), other.full_url()) {
            (Some(a), Some(b)) => a == b,
            (None, None) => true,
            _ => false,
        }
    }
}

impl PartialEqSpecImpl for ParsedUrl {
    open spec fn obeys_eq_spec() -> bool {
        true
    }

    open spec fn eq_spec(&self, other: &Self) -> bool {
        self@.same_page(other@)
    }
}


/// Equality of parsed addresses, by full address, is an equivalence: two
/// addresses that resolve to the same page are the same.
pub proof fn lemma_url_equality_is_equivalence(a: UrlModel, b: UrlModel, c: UrlModel)
    ensures
        a.same_page(a),
        a.same_page(b) == b.same_page(a),
        a.same_page(b) && b.same_page(c) ==> a.same_page(c),
        a == b ==> a.same_page(b),
{
}

/// An ASCII letter.
pub open spec fn is_ascii_letter(c: char) -> bool {
    (65 <= c as int <= 90) || (97 <= c as int <= 122)
}

/// A character that may follow the first letter of a scheme: a letter, a
/// digit, `+`, `-` or `.`.
pub open spec fn is_scheme_char(c: char) -> bool {
    is_ascii_letter(c) || (48 <= c as int <= 57) || c == '+' || c == '-' || c == '.'
}

/// The address starts with a scheme: a letter, then letters, digits, `+`,
/// `-` or `.`, then `:` (as in `http:`, `mailto:` or `ftp:`).
pub open spec fn has_scheme(url: Seq<char>) -> bool {
    exists|k: int| scheme_ends_at(url, k)
}

/// The address starts with a scheme whose `:` stands at position `k`.
pub open spec fn scheme_ends_at(url: Seq<char>, k: int) -> bool {
    &&& 1 <= k < url.len()
    &&& url[k] == ':'
    &&& is_ascii_letter(url[0])
    &&& forall|j: int| 1 <= j < k ==> is_scheme_char(#[trigger] url[j])
}

/// An address is relative when it has no scheme (`info.html`, `/info.html`,
/// `//cdn.example.com/x`).
pub open spec fn spec_is_relative(url: Seq<char>) -> bool {
    !has_scheme(url)
}

/// An address without `:` is relative; an address made of a letter, then
/// letters or digits, then `:` and anything is not (`http://…`, `https://…`,
/// `mailto:…`).
pub proof fn lemma_relative_by_colon(url: Seq<char>, k: int)
    ensures
        (forall|j: int| 0 <= j < url.len() ==> url[j] != ':') ==> spec_is_relative(url),
        (1 <= k < url.len() && url[k] == ':' && is_ascii_letter(url[0]) && forall|j: int|
            1 <= j < k ==> #[trigger] is_ascii_letter(url[j]) || (48 <= url[j] as int <= 57)) ==> !spec_is_relative(url),
{
    if 1 <= k < url.len() && url[k] == ':' && is_ascii_letter(url[0]) && forall|j: int|
        1 <= j < k ==> #[trigger] is_ascii_letter(url[j]) || (48 <= url[j] as int <= 57) {
        assert(scheme_ends_at(url, k));
    }
}

/// Returns true if the address is relative (it has no scheme), else false.
pub fn is_relative(url: &str) -> (res: bool)
    ensures
        res == spec_is_relative(url@),
{
    let n = url.unicode_len();
    if n == 0 {
        return true;
    }
    let first = url.get_char(0) as u32;
    if !((65 <= first && first <= 90) || (97 <= first && first <= 122)) {
        return true;
    }
    let mut i: usize = 1;
    while i < n
        invariant
            n == url@.len(),
            1 <= i <= n,
            forall|j: int| 1 <= j < i ==> is_scheme_char(#[trigger] url@[j]),
        ensures
            1 <= i <= n,
            forall|j: int| 1 <= j < i ==> is_scheme_char(#[trigger] url@[j]),
            i < n ==> !is_scheme_char(url@[i as int]),
        decreases n - i,
    {
        let c = url.get_char(i);
        let v = c as u32;
        let scheme_char = (65 <= v && v <= 90) || (97 <= v && v <= 122) || (48 <= v && v <= 57) || c == '+'
            || c == '-' || c == '.';
        if !scheme_char {
            break;
        }
        i = i + 1;
    }
    if i < n && url.get_char(i) == ':' {
        assert(scheme_ends_at(url@, i as int));
        return false;
    }
    proof {
        if has_scheme(url@) {
            let k = choose|k: int| scheme_ends_at(url@, k);
            if k < i {
                assert(is_scheme_char(url@[k]));
            } else if k > i {
                assert(is_scheme_char(url@[i as int]));
            }
        }
    }
    true
}

/// The base address rebuilt from scheme, domain and port:
/// `scheme://domain` or `scheme://domain:port`.
pub open spec fn base_address(scheme: Seq<char>, domain: Seq<char>, port: Option<u16>) -> Seq<char> {
    scheme + "://"@ + domain + match port {
        Some(p) => ":"@ + decimal(p as nat),
        None => Seq::<char>::empty(),
    }
}

/// What parsing an absolute address into base and relative part yields.
pub open spec fn spec_parse_base_url(url: Seq<char>) -> Result<UrlModel, UrlError> {
    match url_parse(url) {
        None => Err(UrlError::InvalidUrl),
        Some(ser) => match url_domain(ser) {
            None => Err(UrlError::NoDomain),
            Some(domain) => match url_parse(base_address(before_colon(ser), domain, url_port(ser))) {
                None => Err(UrlError::InvalidBase),
                Some(base) => Ok(UrlModel { base, relative: url_path(ser) }),
            },
        },
    }
}

/// The base keeps the scheme, the domain and any explicit port of the
/// address, and the relative part is its path: the base is what the URL
/// parser makes of `scheme://domain` followed by `:port` where the address
/// has a port. The port is written in decimal: its digits denote it.
pub proof fn lemma_base_keeps_port(url: Seq<char>)
    requires
        spec_parse_base_url(url) is Ok,
    ensures
        ({
            let ser = url_parse(url)->Some_0;
            let m = spec_parse_base_url(url)->Ok_0;
            &&& url_domain(ser) is Some
            &&& m.relative == url_path(ser)
            &&& exists|text: Seq<char>| #[trigger] url_parse(text) == Some(m.base) && text.take(
                (before_colon(ser).len() + 3 + url_domain(ser)->Some_0.len()) as int,
            ) == before_colon(ser) + "://"@ + url_domain(ser)->Some_0 && match url_port(ser) {
                Some(p) => text.skip((before_colon(ser).len() + 3 + url_domain(ser)->Some_0.len()) as int) == ":"@
                    + decimal(p as nat) && digits_value(decimal(p as nat)) == p,
                None => text.len() == before_colon(ser).len() + 3 + url_domain(ser)->Some_0.len(),
            }
        }),
{
    let ser = url_parse(url)->Some_0;
    let domain = url_domain(ser)->Some_0;
    let text = base_address(before_colon(ser), domain, url_port(ser));
    assert("://"@.len() == 3) by {
        reveal_strlit("://");
    }
    let head = before_colon(ser) + "://"@ + domain;
    assert(text.take(head.len() as int) =~= head);
    match url_port(ser) {
        Some(p) => {
            lemma_decimal_denotes(p as nat);
            assert(text.skip(head.len() as int) =~= ":"@ + decimal(p as nat));
        },
        None => {},
    }
    assert(url_parse(text) == Some(spec_parse_base_url(url)->Ok_0.base));
}

/// Takes a full address with scheme, domain, port etc. apart into its base
/// (scheme, domain and port, parsed back into an address) and its path,
/// relative to that base.
pub fn parse_base_url(url: &str) -> (res: Result<ParsedUrl, UrlError>)
    ensures
        url_result_view(res) == spec_parse_base_url(url@),
{
    let parts = match parse_url(url) {
        Ok(p) => p,
        Err(_) => return Err(UrlError::InvalidUrl),
    };
    let domain = match &parts.domain {
        Some(d) => d,
        None => return Err(UrlError::NoDomain),
    };
    let mut base_text = parts.scheme.clone();
    base_text.append("://");
    base_text.append(domain.as_str());
    match parts.port {
        Some(p) => {
            base_text.append(":");
            push_decimal(&mut base_text, p as u64);
        },
        None => {},
    }
    assert(base_text@ =~= base_address(parts.scheme@, domain@, parts.port));
    let base = match parse_url(base_text.as_str()) {
        Ok(b) => b,
        Err(_) => return Err(UrlError::InvalidBase),
    };
    Ok(ParsedUrl { base: base.serialization, relative: parts.path })
}

/// What resolving a link found on the page at `from` yields: a relative
/// link keeps the base of `from`, an absolute one is parsed anew.
pub open spec fn spec_new_parsed_url(from: UrlModel, href: Seq<char>) -> Result<UrlModel, UrlError> {
    if spec_is_relative(href) {
        Ok(UrlModel { base: from.base, relative: href })
    } else {
        spec_parse_base_url(href)
    }
}

impl ParsedUrl {
    /// The address of a link found on this page: relative links keep this
    /// base, absolute ones are parsed on their own.
    pub fn get_new_parsed_url(&self, child_href: String) -> (res: Result<ParsedUrl, UrlError>)
        ensures
            url_result_view(res) == spec_new_parsed_url(self@, child_href@),
    {
        if is_relative(child_href.as_str()) {
            let mut new_url = self.clone();
            new_url.relative = child_href;
            Ok(new_url)
        } else {
            parse_base_url(child_href.as_str())
        }
    }
}


/// The value of attribute `attr` (or `None` where it is absent) of each
/// element, in the order in which the nodes were inserted in the tree, that
/// `scraper::Html::select` yields for the
/// document `scraper::Html::parse_document` makes of `html` and the selector
/// `scraper::Selector::parse` makes of `selector`; `None` where the selector
/// does not parse.
pub uninterp spec fn html_select_attr(html: Seq<char>, selector: Seq<char>, attr: Seq<char>) -> Option<Seq<Option<Seq<char>>>>;

/// The inner HTML (`scraper::ElementRef::inner_html`) of each element, in
/// the order in which the nodes were inserted in the tree, that
/// `scraper::Html::select` yields for the document of
/// `html` and the selector of `selector`; `None` where the selector does not
/// parse.
pub uninterp spec fn html_select_inner(html: Seq<char>, selector: Seq<char>) -> Option<Seq<Seq<char>>>;

/// The views of a list of optional strings.
pub open spec fn opt_views(list: Seq<Option<String>>) -> Seq<Option<Seq<char>>> {
    list.map_values(|o: Option<String>| opt_view(o))
}

/// Calls `scraper::Selector::parse`, `scraper::Html::parse_document`,
/// `scraper::Html::select` and `scraper::ElementRef::attr`. The contract
/// claims that the values read are the named result `html_select_attr`.
#[verifier::external_body]
fn select_attr(html: &str, selector: &str, attr: &str) -> (res: Option<Vec<Option<String>>>)
    ensures
        match res {
            Some(v) => html_select_attr(html@, selector@, attr@) == Some(opt_views(v@)),
            None => html_select_attr(html@, selector@, attr@) is None,
        },
{
    let sel = scraper::Selector::parse(selector).ok()?;
    let doc = scraper::Html::parse_document(html);
    Some(doc.select(&sel).map(|e| e.value().attr(attr).map(|a| a.to_string())).collect())
}

/// Calls `scraper::Selector::parse`, `scraper::Html::parse_document`,
/// `scraper::Html::select` and `scraper::ElementRef::inner_html`. The
/// contract claims that the texts read are the named result
/// `html_select_inner`.
#[verifier::external_body]
fn select_inner_html(html: &str, selector: &str) -> (res: Option<Vec<String>>)
    ensures
        match res {
            Some(v) => html_select_inner(html@, selector@) == Some(views(v@)),
            None => html_select_inner(html@, selector@) is None,
        },
{
    let sel = scraper::Selector::parse(selector).ok()?;
    let doc = scraper::Html::parse_document(html);
    Some(doc.select(&sel).map(|e| e.inner_html()).collect())
}

/// What `format!("{:?}", list)` yields for a list of strings with these
/// contents (`std::fmt::Debug` of `Vec<String>`).
pub uninterp spec fn debug_texts(list: Seq<Seq<char>>) -> Seq<char>;

/// Formats a list of strings with `std::fmt::Debug`. The contract claims
/// that the text is the named result `debug_texts` of the contents.
#[verifier::external_body]
fn debug_text_list(list: &Vec<String>) -> (res: String)
    ensures
        res@ == debug_texts(views(list@)),
{
    format!("{:?}", list)
}

/// What a fetched page yields: the targets of its links and its title.
#[derive(Debug)]
pub struct InfoResult {
    /// Targets of the page's links, absolute or relative.
    pub child_hrefs: Vec<String>,
    /// Title of the page from its `<title>` element; `None` where the page
    /// has no title element, or an empty one.
    pub page_title: Option<String>,
}

/// The present values, in order.
pub open spec fn present(list: Seq<Option<Seq<char>>>) -> Seq<Seq<char>>
    decreases list.len(),
{
    if list.len() == 0 {
        Seq::empty()
    } else {
        let rest = present(list.drop_last());
        match list.last() {
            Some(v) => rest.push(v),
            None => rest,
        }
    }
}

/// The title a page is given from the inner HTML of its title elements: the
/// first one; `None` where there is no title element or the first one is
/// empty.
pub open spec fn spec_page_title(titles: Seq<Seq<char>>) -> Option<Seq<char>> {
    if titles.len() == 0 || titles[0].len() == 0 {
        None
    } else {
        Some(titles[0])
    }
}

impl InfoResult {
    /// The information of a page from the `href` values of its link elements
    /// and the inner HTML of its title elements.
    pub fn from_selection(hrefs: Vec<Option<String>>, titles: Vec<String>) -> (res: InfoResult)
        ensures
            views(res.child_hrefs@) == present(opt_views(hrefs@)),
            opt_view(res.page_title) == spec_page_title(views(titles@)),
    {
        let mut links: Vec<String> = Vec::new();
        let mut i: usize = 0;
        while i < hrefs.len()
            invariant
                i <= hrefs.len(),
                views(links@) == present(opt_views(hrefs@.take(i as int))),
            decreases hrefs.len() - i,
        {
            assert(opt_views(hrefs@.take(i + 1)).drop_last() =~= opt_views(hrefs@.take(i as int)));
            match &hrefs[i] {
                Some(h) => {
                    links.push(h.clone());
                    assert(views(links@) =~= present(opt_views(hrefs@.take(i + 1))));
                },
                None => {
                    assert(views(links@) =~= present(opt_views(hrefs@.take(i + 1))));
                },
            }
            i = i + 1;
        }
        assert(hrefs@.take(hrefs.len() as int) =~= hrefs@);
        let page_title = if titles.len() == 0 {
            None
        } else if titles[0].unicode_len() == 0 {
            None
        } else {
            Some(titles[0].clone())
        };
        InfoResult { child_hrefs: links, page_title }
    }

    /// The text form: `(title: '<title>', children: [<links>])`, with the
    /// placeholder for a missing title.
    pub fn to_string(&self) -> (res: String)
        ensures
            res@ == "(title: '"@ + match opt_view(self.page_title) {
                Some(t) => t,
                None => EMPTY_TITLE@,
            } + "', children: "@ + debug_texts(views(self.child_hrefs@)) + ")"@,
    {
        let mut out = String::from_str("(title: '");
        match &self.page_title {
            Some(t) => out.append(t.as_str()),
            None => out.append(EMPTY_TITLE),
        }
        out.append("', children: ");
        let list = debug_text_list(&self.child_hrefs);
        out.append(list.as_str());
        out.append(")");
        out
    }
}

/// The links and title of a page, from its HTML; `None` where one of the
/// selectors does not parse.
pub fn info_from_html(html: &str) -> (res: Option<InfoResult>)
    ensures
        match (html_select_attr(html@, LINK_SELECTOR@, "href"@), html_select_inner(html@, TITLE_SELECTOR@)) {
            (Some(hrefs), Some(titles)) => res matches Some(info) && views(info.child_hrefs@) == present(hrefs)
                && opt_view(info.page_title) == spec_page_title(titles),
            _ => res is None,
        },
{
    let hrefs = match select_attr(html, LINK_SELECTOR, "href") {
        Some(h) => h,
        None => return None,
    };
    let titles = match select_inner_html(html, TITLE_SELECTOR) {
        Some(t) => t,
        None => return None,
    };
    Some(InfoResult::from_selection(hrefs, titles))
}

} // verus!
