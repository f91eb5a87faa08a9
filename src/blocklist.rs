//! Blocklist of a single kind: a set of domains and a set of URLs.
//!
//! A URL is detected by its host, or by its text from the host through the
//! end of the path.
use vstd::prelude::*;

use crate::parsed_url::ParsedUrl;
use crate::tag_index::{lemma_strings_of_take_step, strings_of, TagIndex};

verus! {

/// Blocklist instantiation and detection for one kind (a folder name).
///
/// - `detect_domain` checks whether the host of a URL is listed;
/// - `detect_url` checks whether the URL, from the host through the end of
///   the path, is listed.
pub struct Blocklist<'a> {
    kind: &'a str,
    domains: TagIndex,
    urls: TagIndex,
}

/// An index whose keys are the strings of `keys`, each filed under `kind`.
fn index_of_keys(keys: &Vec<String>, kind: &str) -> (r: TagIndex)
    ensures
        r.wf(),
        r@.dom() == strings_of(keys@),
{
    let mut idx = TagIndex::new();
    let mut i: usize = 0;
    assert(strings_of(keys@.take(0)) =~= Set::<Seq<char>>::empty());
    while i < keys.len()
        invariant
            i <= keys@.len(),
            idx.wf(),
            idx@.dom() == strings_of(keys@.take(i as int)),
        decreases keys@.len() - i,
    {
        idx.insert_tag(keys[i].clone(), kind.to_owned());
        proof {
            let t1 = keys@.take(i + 1);
            lemma_strings_of_take_step(keys@, i as int);
            assert(idx@.dom() =~= strings_of(t1));
        }
        i = i + 1;
    }
    assert(keys@.take(keys@.len() as int) =~= keys@);
    idx
}

impl<'a> Blocklist<'a> {
    /// The listed domains.
    pub closed spec fn domain_set(&self) -> Set<Seq<char>> {
        self.domains@.dom()
    }

    /// The listed URLs, each from the host through the end of the path.
    pub closed spec fn url_set(&self) -> Set<Seq<char>> {
        self.urls@.dom()
    }

    /// Both indices are well formed.
    pub closed spec fn wf(&self) -> bool {
        self.domains.wf() && self.urls.wf()
    }

    /// The kind of the blocklist.
    pub closed spec fn kind_view(&self) -> Seq<char> {
        self.kind@
    }

    /// A blocklist of the given kind, domains and URLs.
    pub fn new(kind: &'a str, domains: Vec<String>, urls: Vec<String>) -> (r: Self)
        ensures
            r.wf(),
            r.kind_view() == kind@,
            r.domain_set() == strings_of(domains@),
            r.url_set() == strings_of(urls@),
    {
        Blocklist { kind, domains: index_of_keys(&domains, kind), urls: index_of_keys(&urls, kind) }
    }

    /// Whether the host of `url` is listed: `false` where it has none.
    pub fn detect_domain(&self, url: &ParsedUrl) -> (r: bool)
        requires
            self.wf(),
        ensures
            r == match url@.host {
                Some(h) => self.domain_set().contains(h),
                None => false,
            },
    {
        match url.host_str() {
            Some(domain) => self.domains.get(&domain.to_owned()).is_some(),
            None => false,
        }
    }

    /// Whether `url`, taken from the host through the end of the path, is
    /// listed: `https://foo.bar/baz?quux=true` is looked up as `foo.bar/baz`.
    pub fn detect_url(&self, url: &ParsedUrl) -> (r: bool)
        requires
            self.wf(),
        ensures
            r == self.url_set().contains(url@.host_through_path),
    {
        self.urls.get(&url.host_through_path().to_owned()).is_some()
    }

    /// The kind of the blocklist.
    pub fn kind(&self) -> (r: &'a str)
        ensures
            r@ == self.kind_view(),
    {
        self.kind
    }
}

} // verus!
