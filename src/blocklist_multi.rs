//! Blocklist with many tags: a domain index and a URL index, each mapping a
//! normalized key to the categories that list it.
//!
//! Looking up a candidate merges the tags of its domain, of every ancestor
//! domain above the top-level label, and of its URL, without duplicates.
use vstd::prelude::*;

use crate::ancestors::{
    ancestor_cuts, ancestor_suffixes, is_ancestor_cut, lemma_boundary_after_ascii, lemma_dot_byte_is_dot,
    lemma_encode_concat, lemma_encode_dot, suffix_after, DOT,
};
use crate::error::Ut1Error;
use crate::parsed_url::{opt_view, url_parse, ParsedUrl, UrlView};
use crate::tag_index::{contains_string, distinct_strings, lists_non_empty, lemma_strings_of_take_step, list_of, strings_of, tags_of, views_of, TagIndex};
use vstd::string::StringExecFns;
use vstd::utf8::{
    decode_utf8_encode_utf8, encode_utf8, encode_utf8_decode_utf8, encode_utf8_valid_utf8, valid_utf8_split,
};

verus! {

/// `s` behind the scheme prefix `https://`.
pub open spec fn https_prefixed(s: Seq<char>) -> Seq<char> {
    seq!['h', 't', 't', 'p', 's', ':', '/', '/'] + s
}

/// `s` parsed as an absolute URL, or else behind `https://`.
pub open spec fn lenient_parse(s: Seq<char>) -> Option<UrlView> {
    match url_parse(s) {
        Some(u) => Some(u),
        None => url_parse(https_prefixed(s)),
    }
}

/// The domain key of `s`: the host of its lenient parse.
pub open spec fn normalized_domain(s: Seq<char>) -> Option<Seq<char>> {
    match lenient_parse(s) {
        Some(u) => u.host,
        None => None,
    }
}

/// The URL of `s` cut after its path (no query, no fragment), parsed again.
pub open spec fn canonical_url(s: Seq<char>) -> Option<UrlView> {
    match lenient_parse(s) {
        Some(u) => url_parse(u.through_path),
        None => None,
    }
}

/// The URL key of `s`: the serialization of its canonical URL.
pub open spec fn normalized_url(s: Seq<char>) -> Option<Seq<char>> {
    match canonical_url(s) {
        Some(u) => Some(u.text),
        None => None,
    }
}

/// Adds to `out` each string of `tags` that it does not hold yet.
fn extend_tags(out: &mut Vec<String>, tags: &Vec<String>)
    requires
        distinct_strings(old(out)@),
    ensures
        distinct_strings(final(out)@),
        strings_of(final(out)@) == strings_of(old(out)@) + strings_of(tags@),
{
    let mut j: usize = 0;
    while j < tags.len()
        invariant
            j <= tags@.len(),
            distinct_strings(out@),
            strings_of(out@) == strings_of(old(out)@) + strings_of(tags@.take(j as int)),
        decreases tags@.len() - j,
    {
        let ghost before = out@;
        let t = &tags[j];
        if !contains_string(out, t) {
            out.push(t.clone());
            assert forall|a: int, b: int| 0 <= a < b < out@.len() implies #[trigger] out@[a]@
                != #[trigger] out@[b]@ by {
                if b == before.len() {
                    assert(!strings_of(before).contains(t@));
                    assert(out@[a] == before[a]);
                } else {
                    assert(before[a]@ != before[b]@);
                }
            }
            assert forall|x: Seq<char>| strings_of(out@).contains(x) <==> strings_of(before).contains(x) || x == t@ by {
                if strings_of(out@).contains(x) {
                    let i = choose|i: int| 0 <= i < out@.len() && #[trigger] out@[i]@ == x;
                    if i < before.len() {
                        assert(before[i] == out@[i]);
                    }
                }
                if strings_of(before).contains(x) {
                    let i = choose|i: int| 0 <= i < before.len() && #[trigger] before[i]@ == x;
                    assert(out@[i] == before[i]);
                }
                if x == t@ {
                    assert(out@[before.len() as int]@ == x);
                }
            }
        }
        proof {
            let tj = tags@.take(j as int);
            let tj1 = tags@.take(j + 1);
            lemma_strings_of_take_step(tags@, j as int);
            assert(forall|x: Seq<char>| strings_of(out@).contains(x) <==> strings_of(before).contains(x) || x == t@);
            assert forall|x: Seq<char>| strings_of(out@).contains(x) <==> (strings_of(old(out)@) + strings_of(tj1)).contains(x) by {
                assert(strings_of(before).contains(x) <==> (strings_of(old(out)@) + strings_of(tj)).contains(x));
            }
            assert(strings_of(out@) =~= strings_of(old(out)@) + strings_of(tj1));
        }
        j = j + 1;
    }
    assert(tags@.take(tags@.len() as int) =~= tags@);
}

/// The view of an optional string.
pub open spec fn opt_ref_view(o: Option<&String>) -> Option<Seq<char>> {
    match o {
        Some(s) => Some(s@),
        None => None,
    }
}

/// The tags that the pairs of `s` give the key `k`: the lists of the pairs
/// with that key, joined in pair order.
pub open spec fn pair_list(s: Seq<(String, Vec<String>)>, k: Seq<char>) -> Seq<Seq<char>>
    decreases s.len(),
{
    if s.len() == 0 {
        Seq::empty()
    } else {
        pair_list(s.drop_last(), k) + (if s.last().0@ == k {
            views_of(s.last().1@)
        } else {
            Seq::empty()
        })
    }
}

/// The keys of some lines, in order: each line's key, absent where the line
/// does not normalize.
pub open spec fn domain_keys(lines: Seq<String>) -> Seq<Option<Seq<char>>> {
    lines.map_values(|l: String| normalized_domain(l@))
}

/// The URL keys of some lines, in order, absent where a line does not normalize.
pub open spec fn url_keys(lines: Seq<String>) -> Seq<Option<Seq<char>>> {
    lines.map_values(|l: String| normalized_url(l@))
}

/// What filing lines with the keys `keys` under `category` appends to the list
/// of `k`: `category` once for each line, in order, whose key is `k`.
pub open spec fn listing(keys: Seq<Option<Seq<char>>>, category: Seq<char>, k: Seq<char>) -> Seq<Seq<char>>
    decreases keys.len(),
{
    if keys.len() == 0 {
        Seq::empty()
    } else {
        let prev = listing(keys.drop_last(), category, k);
        if keys.last() == Some(k) {
            prev.push(category)
        } else {
            prev
        }
    }
}

/// A key that filing gives a tag is the key of some line: the index never
/// holds a key that no line named.
pub proof fn lemma_listed_key_from_line(keys: Seq<Option<Seq<char>>>, category: Seq<char>, k: Seq<char>)
    requires
        listing(keys, category, k).len() > 0,
    ensures
        exists|i: int| 0 <= i < keys.len() && keys[i] == Some(k),
    decreases keys.len(),
{
    let n = keys.len() - 1;
    if keys.last() != Some(k) {
        lemma_listed_key_from_line(keys.drop_last(), category, k);
        let i = choose|i: int| 0 <= i < keys.drop_last().len() && keys.drop_last()[i] == Some(k);
        assert(keys[i] == Some(k));
    } else {
        assert(keys[n] == Some(k));
    }
}

/// Filing the line `i` after the lines before it: every list that stood at
/// `old` plus the listing of the first `i` lines gets the listing of `i + 1`.
proof fn lemma_file_step(
    old_m: Map<Seq<char>, Seq<Seq<char>>>,
    before: Map<Seq<char>, Seq<Seq<char>>>,
    after: Map<Seq<char>, Seq<Seq<char>>>,
    keys: Seq<Option<Seq<char>>>,
    category: Seq<char>,
    i: int,
)
    requires
        0 <= i < keys.len(),
        forall|k: Seq<char>| #[trigger] list_of(before, k) == list_of(old_m, k) + listing(keys.take(i), category, k),
        forall|k: Seq<char>| #[trigger] list_of(after, k) == if keys[i] == Some(k) {
            list_of(before, k).push(category)
        } else {
            list_of(before, k)
        },
    ensures
        forall|k: Seq<char>| #[trigger] list_of(after, k) == list_of(old_m, k) + listing(keys.take(i + 1), category, k),
{
    assert(keys.take(i + 1).drop_last() =~= keys.take(i));
    assert forall|k: Seq<char>| #[trigger] list_of(after, k) == list_of(old_m, k) + listing(keys.take(i + 1), category, k) by {
        assert(list_of(before, k) == list_of(old_m, k) + listing(keys.take(i), category, k));
        if keys[i] == Some(k) {
            assert(list_of(after, k) =~= list_of(old_m, k) + listing(keys.take(i + 1), category, k));
        }
    }
}

/// The tags found for the domain `d` through its strict ancestors.
pub open spec fn ancestor_tags(m: Map<Seq<char>, Seq<Seq<char>>>, d: Seq<char>) -> Set<Seq<char>> {
    Set::new(
        |t: Seq<char>| exists|s: Seq<char>| #[trigger] ancestor_suffixes(d).contains(s) && tags_of(m, s).contains(t),
    )
}

/// The tags found for the domain `d`: its own, and those of its strict ancestors.
pub open spec fn domain_tags(m: Map<Seq<char>, Seq<Seq<char>>>, d: Seq<char>) -> Set<Seq<char>> {
    tags_of(m, d) + ancestor_tags(m, d)
}

/// Builds an index from `(key, tags)` pairs; a key named twice gets the lists
/// of both, joined in pair order.
fn index_of_pairs(pairs: &Vec<(String, Vec<String>)>) -> (r: TagIndex)
    ensures
        r.wf(),
        forall|k: Seq<char>| #[trigger] list_of(r@, k) == pair_list(pairs@, k),
{
    let mut idx = TagIndex::new();
    let mut i: usize = 0;
    assert(pairs@.take(0) =~= Seq::<(String, Vec<String>)>::empty());
    while i < pairs.len()
        invariant
            i <= pairs@.len(),
            idx.wf(),
            forall|k: Seq<char>| #[trigger] list_of(idx@, k) == pair_list(pairs@.take(i as int), k),
        decreases pairs@.len() - i,
    {
        let key = &pairs[i].0;
        let tags = &pairs[i].1;
        let ghost p = pairs@.take(i as int);
        proof {
            assert forall|k: Seq<char>| #[trigger] list_of(idx@, k) == pair_list(p, k) + (if k == key@ {
                views_of(tags@.take(0))
            } else {
                Seq::empty()
            }) by {
                assert(views_of(tags@.take(0)) =~= Seq::<Seq<char>>::empty());
                assert(pair_list(p, k) + Seq::<Seq<char>>::empty() =~= pair_list(p, k));
            }
        }
        let mut j: usize = 0;
        while j < tags.len()
            invariant
                i < pairs@.len(),
                p == pairs@.take(i as int),
                key == pairs@[i as int].0,
                tags == pairs@[i as int].1,
                j <= tags@.len(),
                idx.wf(),
                forall|k: Seq<char>| #[trigger] list_of(idx@, k) == pair_list(p, k) + (if k == key@ {
                    views_of(tags@.take(j as int))
                } else {
                    Seq::empty()
                }),
            decreases tags@.len() - j,
        {
            let ghost before = idx@;
            idx.insert_tag(key.clone(), tags[j].clone());
            proof {
                assert(views_of(tags@.take(j + 1)) =~= views_of(tags@.take(j as int)).push(tags@[j as int]@));
                assert forall|k: Seq<char>| #[trigger] list_of(idx@, k) == pair_list(p, k) + (if k == key@ {
                    views_of(tags@.take(j + 1))
                } else {
                    Seq::empty()
                }) by {
                    assert(list_of(before, k) == pair_list(p, k) + (if k == key@ {
                        views_of(tags@.take(j as int))
                    } else {
                        Seq::empty()
                    }));
                    if k == key@ {
                        assert(list_of(idx@, k) =~= pair_list(p, k) + views_of(tags@.take(j + 1)));
                    }
                }
            }
            j = j + 1;
        }
        proof {
            let p1 = pairs@.take(i + 1);
            assert(p1.drop_last() =~= p);
            assert(tags@.take(tags@.len() as int) =~= tags@);
            assert forall|k: Seq<char>| #[trigger] list_of(idx@, k) == pair_list(p1, k) by {
                if k != key@ {
                    assert(pair_list(p, k) + Seq::<Seq<char>>::empty() =~= pair_list(p, k));
                }
            }
        }
        i = i + 1;
    }
    assert(pairs@.take(pairs@.len() as int) =~= pairs@);
    idx
}

/// Domain and URL blocklist.
#[derive(Clone, Debug)]
pub struct Blocklist {
    domains: TagIndex,
    urls: TagIndex,
}

impl Blocklist {
    /// The domain index: each domain key with the list of its tags, in the
    /// order they were filed, repeats kept.
    pub closed spec fn domain_index(&self) -> Map<Seq<char>, Seq<Seq<char>>> {
        self.domains@
    }

    /// The URL index: each canonical URL with the list of its tags, in the
    /// order they were filed, repeats kept.
    pub closed spec fn url_index(&self) -> Map<Seq<char>, Seq<Seq<char>>> {
        self.urls@
    }

    /// Both indices are well formed.
    pub closed spec fn wf(&self) -> bool {
        self.domains.wf() && self.urls.wf()
    }

    /// Every key of either index has at least one tag.
    pub open spec fn keys_tagged(&self) -> bool {
        lists_non_empty(self.domain_index()) && lists_non_empty(self.url_index())
    }

    /// A well-formed blocklist gives every key of either index a tag.
    proof fn lemma_keys_tagged(&self)
        requires
            self.wf(),
        ensures
            self.keys_tagged(),
    {
        self.domains.lemma_lists_non_empty();
        self.urls.lemma_lists_non_empty();
    }

    /// The tags found for a domain key `d` and a URL key `u`, each absent
    /// where the candidate did not normalize that way: those of the domain and
    /// of its ancestors, and those of the URL.
    pub open spec fn found(&self, d: Option<Seq<char>>, u: Option<Seq<char>>) -> Set<Seq<char>> {
        (match d {
            Some(d) => domain_tags(self.domain_index(), d),
            None => Set::empty(),
        }) + (match u {
            Some(u) => tags_of(self.url_index(), u),
            None => Set::empty(),
        })
    }

    /// The tags that a lookup of the candidate `c` finds.
    pub open spec fn detected(&self, c: Seq<char>) -> Set<Seq<char>> {
        self.found(normalized_domain(c), normalized_url(c))
    }

    /// `r` is the answer for the tag set `tags`: `None` where it is empty,
    /// else every tag of it, once each.
    pub open spec fn answers(tags: Set<Seq<char>>, r: Option<Vec<String>>) -> bool {
        match r {
            None => tags.is_empty(),
            Some(v) => v@.len() > 0 && distinct_strings(v@) && strings_of(v@) == tags,
        }
    }

    /// `r` is what a lookup of `c` returns.
    pub open spec fn is_detection(&self, c: Seq<char>, r: Option<Vec<String>>) -> bool {
        Self::answers(self.detected(c), r)
    }

    /// A blocklist from `(key, tags)` pairs, taken as they are: domain keys
    /// are domains, URL keys are canonical URL serializations.
    pub fn new(domains: Vec<(String, Vec<String>)>, urls: Vec<(String, Vec<String>)>) -> (r: Self)
        ensures
            r.wf(),
            r.keys_tagged(),
            forall|k: Seq<char>| #[trigger] list_of(r.domain_index(), k) == pair_list(domains@, k),
            forall|k: Seq<char>| #[trigger] list_of(r.url_index(), k) == pair_list(urls@, k),
    {
        let r = Blocklist { domains: index_of_pairs(&domains), urls: index_of_pairs(&urls) };
        proof {
            r.lemma_keys_tagged();
        }
        r
    }

    /// Parses `url` as an absolute URL; where that fails, parses it again behind `https://`.
    fn normalize(url: &str) -> (r: Result<ParsedUrl, Ut1Error>)
        ensures
            match r {
                Ok(u) => lenient_parse(url@) == Some(u@),
                Err(e) => (lenient_parse(url@) is None) && (e is MalformedUrl),
            },
    {
        match ParsedUrl::parse(url) {
            Ok(u) => Ok(u),
            Err(_) => {
                let prefixed = "https://".to_owned().concat(url);
                proof {
                    reveal_strlit("https://");
                    assert(prefixed@ =~= https_prefixed(url@));
                }
                ParsedUrl::parse(prefixed.as_str())
            },
        }
    }

    /// Normalizes `url` to its domain key: the host of its lenient parse
    /// (as given, or else behind `https://`).
    pub fn normalize_domain(url: &str) -> (r: Result<String, Ut1Error>)
        ensures
            match r {
                Ok(d) => normalized_domain(url@) == Some(d@),
                Err(e) => {
                    &&& normalized_domain(url@) is None
                    &&& (e is MalformedUrl) == (lenient_parse(url@) is None)
                    &&& (e is NoHostname) == (lenient_parse(url@) is Some)
                    &&& (e matches Ut1Error::NoHostname(t) ==> t@ == lenient_parse(url@)->0.text)
                },
            },
    {
        let u = match Self::normalize(url) {
            Ok(u) => u,
            Err(e) => {
                return Err(e);
            },
        };
        match u.host_str() {
            Some(h) => Ok(h.to_owned()),
            None => Err(Ut1Error::NoHostname(u.as_str().to_owned())),
        }
    }

    /// Normalizes `url` to its canonical URL: the lenient parse of `url`, cut
    /// after the path and parsed again.
    pub fn normalize_url(url: &str) -> (r: Result<ParsedUrl, Ut1Error>)
        ensures
            match r {
                Ok(u) => canonical_url(url@) == Some(u@),
                Err(e) => (canonical_url(url@) is None) && (e is MalformedUrl),
            },
    {
        let u = match Self::normalize(url) {
            Ok(u) => u,
            Err(e) => {
                return Err(e);
            },
        };
        ParsedUrl::parse(u.through_path())
    }

    /// Adds to `out` the tags of every strict ancestor of `domain` that is a
    /// key, from the longest ancestor to the shortest; the top-level label
    /// alone is never looked up.
    pub fn detect_subdomains(&self, domain: &String, out: &mut Vec<String>)
        requires
            self.wf(),
            distinct_strings(old(out)@),
        ensures
            distinct_strings(final(out)@),
            strings_of(final(out)@) == strings_of(old(out)@) + ancestor_tags(self.domain_index(), domain@),
    {
        let s = domain.as_str();
        let cuts = ancestor_cuts(s);
        let ghost b = encode_utf8(domain@);
        let ghost m = self.domain_index();
        let mut k: usize = 0;
        while k < cuts.len()
            invariant
                self.wf(),
                m == self.domain_index(),
                s@ == domain@,
                b == encode_utf8(domain@),
                b.len() <= usize::MAX,
                k <= cuts@.len(),
                forall|x: int| 0 <= x < cuts@.len() ==> is_ancestor_cut(b, #[trigger] cuts@[x] as int),
                distinct_strings(out@),
                strings_of(out@) == strings_of(old(out)@) + Set::new(
                    |t: Seq<char>|
                        exists|x: int| 0 <= x < k && tags_of(m, suffix_after(domain@, #[trigger] cuts@[x] as int)).contains(t),
                ),
            decreases cuts@.len() - k,
        {
            let pos = cuts[k];
            proof {
                assert(is_ancestor_cut(b, pos as int));
                encode_utf8_valid_utf8(domain@);
                lemma_boundary_after_ascii(b, pos as int);
            }
            let (_, rest) = s.split_at(pos + 1);
            let key = rest.to_owned();
            proof {
                encode_utf8_decode_utf8(rest@);
                assert(key@ == suffix_after(domain@, pos as int));
            }
            let ghost before = out@;
            match self.domains.get(&key) {
                Some(tags) => {
                    extend_tags(out, tags);
                },
                None => {},
            }
            proof {
                let found = |t: Seq<char>| exists|x: int| 0 <= x < k && tags_of(m, suffix_after(domain@, #[trigger] cuts@[x] as int)).contains(t);
                let found1 = |t: Seq<char>| exists|x: int| 0 <= x < k + 1 && tags_of(m, suffix_after(domain@, #[trigger] cuts@[x] as int)).contains(t);
                assert forall|t: Seq<char>| strings_of(out@).contains(t) <==> (strings_of(old(out)@) + Set::new(found1)).contains(t) by {
                    assert(strings_of(out@).contains(t) <==> strings_of(before).contains(t) || tags_of(m, key@).contains(t));
                    if found1(t) && !found(t) {
                        let x = choose|x: int| 0 <= x < k + 1 && tags_of(m, suffix_after(domain@, #[trigger] cuts@[x] as int)).contains(t);
                        assert(x == k);
                    }
                    if tags_of(m, key@).contains(t) {
                        assert(cuts@[k as int] == pos);
                        assert(found1(t));
                    }
                }
                assert(strings_of(out@) =~= strings_of(old(out)@) + Set::new(found1));
            }
            k = k + 1;
        }
        proof {
            let found = |t: Seq<char>| exists|x: int| 0 <= x < cuts@.len() && tags_of(m, suffix_after(domain@, #[trigger] cuts@[x] as int)).contains(t);
            assert forall|t: Seq<char>| found(t) <==> ancestor_tags(m, domain@).contains(t) by {
                if found(t) {
                    let x = choose|x: int| 0 <= x < cuts@.len() && tags_of(m, suffix_after(domain@, #[trigger] cuts@[x] as int)).contains(t);
                    assert(ancestor_suffixes(domain@).contains(suffix_after(domain@, cuts@[x] as int)));
                }
                if ancestor_tags(m, domain@).contains(t) {
                    let sfx = choose|sfx: Seq<char>| #[trigger] ancestor_suffixes(domain@).contains(sfx) && tags_of(m, sfx).contains(t);
                    let i = choose|i: int| is_ancestor_cut(encode_utf8(domain@), i) && sfx == suffix_after(domain@, i);
                    let x = choose|x: int| 0 <= x < cuts@.len() && #[trigger] cuts@[x] == i;
                    assert(tags_of(m, suffix_after(domain@, cuts@[x] as int)).contains(t));
                }
            }
            assert(Set::new(found) =~= ancestor_tags(m, domain@));
        }
    }

    /// Looks up a candidate already normalized: `domain` is its domain key
    /// and `url` its URL key, each absent where normalization failed. Gives
    /// the tags of the domain, of its strict ancestors and of the URL, merged
    /// without duplicates; `None` where nothing matches.
    pub fn detect_normalized(&self, domain: Option<&String>, url: Option<&String>) -> (r: Option<Vec<String>>)
        requires
            self.wf(),
        ensures
            Self::answers(self.found(opt_ref_view(domain), opt_ref_view(url)), r),
    {
        let mut detections: Vec<String> = Vec::new();
        let ghost m = self.domain_index();
        let ghost from_domain: Set<Seq<char>> = Set::empty();
        if let Some(domain) = domain {
            if let Some(domain_tags) = self.domains.get(domain) {
                extend_tags(&mut detections, domain_tags);
            }
            self.detect_subdomains(domain, &mut detections);
            proof {
                from_domain = domain_tags(m, domain@);
                assert(strings_of(detections@) =~= Set::<Seq<char>>::empty() + tags_of(m, domain@) + ancestor_tags(m, domain@));
            }
        }
        assert(strings_of(detections@) =~= from_domain) by {
            assert(strings_of(Seq::<String>::empty()) =~= Set::<Seq<char>>::empty());
        }
        if let Some(key) = url {
            if let Some(url_tags) = self.urls.get(key) {
                extend_tags(&mut detections, url_tags);
            }
        }
        assert(strings_of(detections@) =~= self.found(opt_ref_view(domain), opt_ref_view(url)));
        if detections.len() == 0 {
            assert(strings_of(detections@) =~= Set::<Seq<char>>::empty());
            None
        } else {
            Some(detections)
        }
    }

    /// Looks `url` up: normalizes it as a domain and as a URL, then looks up
    /// each form that succeeded. A candidate that fails to normalize one way
    /// is still looked up the other way.
    pub fn detect(&self, url: &str) -> (r: Option<Vec<String>>)
        requires
            self.wf(),
        ensures
            self.is_detection(url@, r),
    {
        let domain = match Self::normalize_domain(url) {
            Ok(d) => Some(d),
            Err(_) => None,
        };
        let key = match Self::normalize_url(url) {
            Ok(u) => Some(u.as_str().to_owned()),
            Err(_) => None,
        };
        assert(opt_view(domain) == normalized_domain(url@));
        assert(opt_view(key) == normalized_url(url@));
        self.detect_normalized(domain.as_ref(), key.as_ref())
    }

    /// The list of tags stored for the domain key `domain`, repeats kept.
    pub fn tags_for_domain(&self, domain: &String) -> (r: Option<&Vec<String>>)
        requires
            self.wf(),
        ensures
            match r {
                Some(v) => self.domain_index().contains_key(domain@) && views_of(v@) == self.domain_index()[domain@]
                    && v@.len() > 0,
                None => !self.domain_index().contains_key(domain@),
            },
    {
        self.domains.get(domain)
    }

    /// The list of tags stored for the URL key `url`, repeats kept.
    pub fn tags_for_url(&self, url: &String) -> (r: Option<&Vec<String>>)
        requires
            self.wf(),
        ensures
            match r {
                Some(v) => self.url_index().contains_key(url@) && views_of(v@) == self.url_index()[url@]
                    && v@.len() > 0,
                None => !self.url_index().contains_key(url@),
            },
    {
        self.urls.get(url)
    }

    /// Files every line of `lines` that normalizes to a domain under
    /// `category`: the category is appended to that key's list once per such
    /// line, in line order; lines that do not normalize are skipped.
    pub fn add_domains(&mut self, category: &String, lines: &Vec<String>)
        requires
            old(self).wf(),
        ensures
            final(self).wf(),
            final(self).keys_tagged(),
            final(self).url_index() == old(self).url_index(),
            forall|k: Seq<char>| #[trigger] list_of(final(self).domain_index(), k) == list_of(old(self).domain_index(), k)
                + listing(domain_keys(lines@), category@, k),
    {
        let ghost keys = domain_keys(lines@);
        assert forall|k: Seq<char>| #[trigger] list_of(self.domain_index(), k) == list_of(old(self).domain_index(), k)
            + listing(keys.take(0), category@, k) by {
            assert(list_of(self.domain_index(), k) + Seq::<Seq<char>>::empty() =~= list_of(self.domain_index(), k));
        }
        let mut i: usize = 0;
        while i < lines.len()
            invariant
                i <= lines@.len(),
                keys == domain_keys(lines@),
                self.wf(),
                self.url_index() == old(self).url_index(),
                forall|k: Seq<char>| #[trigger] list_of(self.domain_index(), k) == list_of(old(self).domain_index(), k)
                    + listing(keys.take(i as int), category@, k),
            decreases lines@.len() - i,
        {
            let ghost before = self.domain_index();
            let ghost mut added: Option<Seq<char>> = None;
            if let Ok(u) = Self::normalize_domain(lines[i].as_str()) {
                let key = u;
                proof {
                    added = Some(key@);
                }
                self.domains.insert_tag(key, category.clone());
            }
            proof {
                assert(keys[i as int] == added);
                assert(forall|k: Seq<char>| #[trigger] list_of(self.domain_index(), k) == if keys[i as int] == Some(k) {
                    list_of(before, k).push(category@)
                } else {
                    list_of(before, k)
                });
                lemma_file_step(old(self).domain_index(), before, self.domain_index(), keys, category@, i as int);
            }
            i = i + 1;
        }
        assert(keys.take(lines@.len() as int) =~= keys);
        proof {
            self.lemma_keys_tagged();
        }
    }

    /// Files every line of `lines` that normalizes to a canonical URL under
    /// `category`: the category is appended to that key's list once per such
    /// line, in line order; lines that do not normalize are skipped.
    pub fn add_urls(&mut self, category: &String, lines: &Vec<String>)
        requires
            old(self).wf(),
        ensures
            final(self).wf(),
            final(self).keys_tagged(),
            final(self).domain_index() == old(self).domain_index(),
            forall|k: Seq<char>| #[trigger] list_of(final(self).url_index(), k) == list_of(old(self).url_index(), k)
                + listing(url_keys(lines@), category@, k),
    {
        let ghost keys = url_keys(lines@);
        assert forall|k: Seq<char>| #[trigger] list_of(self.url_index(), k) == list_of(old(self).url_index(), k)
            + listing(keys.take(0), category@, k) by {
            assert(list_of(self.url_index(), k) + Seq::<Seq<char>>::empty() =~= list_of(self.url_index(), k));
        }
        let mut i: usize = 0;
        while i < lines.len()
            invariant
                i <= lines@.len(),
                keys == url_keys(lines@),
                self.wf(),
                self.domain_index() == old(self).domain_index(),
                forall|k: Seq<char>| #[trigger] list_of(self.url_index(), k) == list_of(old(self).url_index(), k)
                    + listing(keys.take(i as int), category@, k),
            decreases lines@.len() - i,
        {
            let ghost before = self.url_index();
            let ghost mut added: Option<Seq<char>> = None;
            if let Ok(u) = Self::normalize_url(lines[i].as_str()) {
                let key = u.as_str().to_owned();
                proof {
                    added = Some(key@);
                }
                self.urls.insert_tag(key, category.clone());
            }
            proof {
                assert(keys[i as int] == added);
                assert(forall|k: Seq<char>| #[trigger] list_of(self.url_index(), k) == if keys[i as int] == Some(k) {
                    list_of(before, k).push(category@)
                } else {
                    list_of(before, k)
                });
                lemma_file_step(old(self).url_index(), before, self.url_index(), keys, category@, i as int);
            }
            i = i + 1;
        }
        assert(keys.take(lines@.len() as int) =~= keys);
        proof {
            self.lemma_keys_tagged();
        }
    }
}

/// A domain already in normal form that is a key of the domain index is
/// detected with at least that key's tags.
pub proof fn lemma_key_detected(bl: Blocklist, d: Seq<char>)
    requires
        normalized_domain(d) == Some(d),
        bl.domain_index().contains_key(d),
    ensures
        tags_of(bl.domain_index(), d).subset_of(bl.detected(d)),
{
}

/// A domain in normal form, `label.rest`, is detected with at least the tags
/// of `rest` when `rest` is a key that still holds a dot: `label` may be one
/// label or several, but the top-level label alone is not reached this way.
pub proof fn lemma_ancestor_detected(bl: Blocklist, label: Seq<char>, rest: Seq<char>)
    requires
        normalized_domain(label + seq!['.'] + rest) == Some(label + seq!['.'] + rest),
        rest.contains('.'),
        bl.domain_index().contains_key(rest),
    ensures
        tags_of(bl.domain_index(), rest).subset_of(bl.detected(label + seq!['.'] + rest)),
{
    let d = label + seq!['.'] + rest;
    let b = encode_utf8(d);
    lemma_encode_concat(label + seq!['.'], rest);
    lemma_encode_concat(label, seq!['.']);
    lemma_encode_dot();
    let i = encode_utf8(label).len() as int;
    assert(b =~= encode_utf8(label) + seq![DOT] + encode_utf8(rest));
    assert(b[i] == DOT);
    let m = choose|m: int| 0 <= m < rest.len() && rest[m] == '.';
    let before = rest.subrange(0, m);
    let after = rest.subrange(m + 1, rest.len() as int);
    assert(rest =~= before + seq!['.'] + after);
    lemma_encode_concat(before + seq!['.'], after);
    lemma_encode_concat(before, seq!['.']);
    let j = i + 1 + encode_utf8(before).len();
    assert(encode_utf8(rest) =~= encode_utf8(before) + seq![DOT] + encode_utf8(after));
    assert(b[j] == DOT);
    assert(is_ancestor_cut(b, i));
    assert(b.subrange(i + 1, b.len() as int) =~= encode_utf8(rest));
    encode_utf8_decode_utf8(rest);
    assert(suffix_after(d, i) == rest);
    assert(ancestor_suffixes(d).contains(rest));
    assert forall|t: Seq<char>| tags_of(bl.domain_index(), rest).contains(t) implies bl.detected(d).contains(t) by {
        assert(tags_of(bl.domain_index(), rest).contains(t));
        assert(ancestor_tags(bl.domain_index(), d).contains(t));
    }
}

/// The top-level label alone is never searched as an ancestor: every ancestor
/// suffix of a domain still holds a dot, so a key without one (such as `com`)
/// matches no longer domain through the ancestor search.
pub proof fn lemma_top_label_never_ancestor(d: Seq<char>, s: Seq<char>)
    requires
        ancestor_suffixes(d).contains(s),
    ensures
        s.contains('.'),
{
    let b = encode_utf8(d);
    let i = choose|i: int| is_ancestor_cut(b, i) && s == suffix_after(d, i);
    let j = choose|j: int| i < j < b.len() && b[j] == DOT;
    let sub = b.subrange(i + 1, b.len() as int);
    encode_utf8_valid_utf8(d);
    lemma_boundary_after_ascii(b, i);
    valid_utf8_split(b, i + 1);
    decode_utf8_encode_utf8(sub);
    assert(encode_utf8(s) == sub);
    assert(sub[j - i - 1] == DOT);
    lemma_dot_byte_is_dot(s, j - i - 1);
}

/// The ancestor search never looks up the top-level label alone: two domain
/// indices that differ only at keys without a dot (such as `com`) give every
/// domain the same ancestor tags.
pub proof fn lemma_top_label_not_looked_up(
    m1: Map<Seq<char>, Seq<Seq<char>>>,
    m2: Map<Seq<char>, Seq<Seq<char>>>,
    d: Seq<char>,
)
    requires
        forall|k: Seq<char>| k.contains('.') ==> #[trigger] tags_of(m1, k) == tags_of(m2, k),
    ensures
        ancestor_tags(m1, d) == ancestor_tags(m2, d),
{
    assert forall|t: Seq<char>| ancestor_tags(m1, d).contains(t) <==> ancestor_tags(m2, d).contains(t) by {
        if ancestor_tags(m1, d).contains(t) {
            let s = choose|s: Seq<char>| #[trigger] ancestor_suffixes(d).contains(s) && tags_of(m1, s).contains(t);
            lemma_top_label_never_ancestor(d, s);
            assert(tags_of(m2, s).contains(t));
        }
        if ancestor_tags(m2, d).contains(t) {
            let s = choose|s: Seq<char>| #[trigger] ancestor_suffixes(d).contains(s) && tags_of(m2, s).contains(t);
            lemma_top_label_never_ancestor(d, s);
            assert(tags_of(m1, s).contains(t));
        }
    }
    assert(ancestor_tags(m1, d) =~= ancestor_tags(m2, d));
}

/// Looking the same candidate up twice in the same blocklist gives the same
/// answer: any two results that `detect` may return agree.
pub proof fn lemma_detect_idempotent(bl: Blocklist, c: Seq<char>, r1: Option<Vec<String>>, r2: Option<Vec<String>>)
    requires
        bl.is_detection(c, r1),
        bl.is_detection(c, r2),
    ensures
        r1 is None <==> r2 is None,
        r1 is Some ==> strings_of(r1->0@) == strings_of(r2->0@),
{
    if r1 is Some && r2 is None {
        let v = r1->0;
        assert(strings_of(v@).contains(v@[0]@));
    }
    if r2 is Some && r1 is None {
        let v = r2->0;
        assert(strings_of(v@).contains(v@[0]@));
    }
}

} // verus!
