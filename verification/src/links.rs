//! Link discovery: turning the anchors of one listing page into raw entries,
//! and determining the next page — an explicit next link when there is one,
//! else arithmetic increment of a `pg=` page-number fragment in the URL.
use vstd::prelude::*;
use crate::ledger::Discovered;
use crate::ledger::DiscoveredV;
use crate::text::all_digits;
use crate::text::chars_to_string;
use crate::text::copy_range;
use crate::text::dec_rep;
use crate::text::digits_val;
use crate::text::find_pat;
use crate::text::first_occurrence;
use crate::text::lemma_first_occurrence_found;
use crate::text::lemma_first_occurrence_none;
use crate::text::occurs_at;
use crate::text::parse_digits;
use crate::text::push_all;
use crate::text::push_dec;
use crate::text::spec_split;
use crate::text::split_pat;
use crate::text::str_to_chars;
use crate::title::parse_title;
use crate::title::spec_title_fields;
use crate::title::unknown;
use crate::title::unknown_string;

verus! {

// ---------- URL resolution (through the url crate) ----------

/// Relies on url::Url::parse and url::Url::join: resolving `href` against
/// `base` is a pure function of the two strings alone, `None` exactly on the
/// inputs those functions reject.
pub uninterp spec fn resolved_url_of(base: Seq<char>, href: Seq<char>) -> Option<Seq<char>>;

/// Relies on url::Url::parse and url::Url::join: parses `base` as an absolute
/// URL, resolves `href` against it, and returns the resolved URL's text.
#[verifier::external_body]
fn resolve_url(base: &str, href: &str) -> (r: Option<String>)
    ensures
        (r is Some) == (resolved_url_of(base@, href@) is Some),
        r matches Some(u) ==> resolved_url_of(base@, href@) == Some(u@),
{
    match url::Url::parse(base) {
        Ok(b) => match b.join(href) {
            Ok(u) => Some(String::from(u)),
            Err(_) => None,
        },
        Err(_) => None,
    }
}

pub open spec fn http_prefix() -> Seq<char> {
    seq!['h', 't', 't', 'p']
}

/// A link target: taken as-is when absolute (starting with `"http"`), else
/// resolved against the page it was found on.
pub open spec fn spec_resolve_link(base: Seq<char>, href: Seq<char>) -> Option<Seq<char>> {
    if href.len() >= 4 && href.take(4) == http_prefix() {
        Some(href)
    } else {
        resolved_url_of(base, href)
    }
}

fn resolve_link(base: &str, href: &str) -> (r: Option<String>)
    ensures
        (r is Some) == (spec_resolve_link(base@, href@) is Some),
        r matches Some(u) ==> spec_resolve_link(base@, href@) == Some(u@),
{
    let hv = str_to_chars(href);
    let pre = str_to_chars("http");
    proof {
        reveal_strlit("http");
        assert(pre@ =~= http_prefix());
    }
    if crate::text::starts_with(&hv, &pre) {
        Some(href.to_owned())
    } else {
        resolve_url(base, href)
    }
}

// ---------- entry identity from a download URL ----------

/// The identity of a download URL: its second-to-last `/`-separated segment,
/// or `"unknown"` when the URL has fewer than two segments.
pub open spec fn spec_link_id(u: Seq<char>) -> Seq<char> {
    let parts = spec_split(u, seq!['/']);
    if parts.len() >= 2 {
        parts[parts.len() - 2]
    } else {
        unknown()
    }
}

fn link_id(u: &str) -> (r: String)
    ensures
        r@ == spec_link_id(u@),
{
    let uv = str_to_chars(u);
    let mut slash: Vec<char> = Vec::new();
    slash.push('/');
    proof {
        assert(slash@ =~= seq!['/']);
    }
    let parts = split_pat(&uv, &slash);
    if parts.len() >= 2 {
        proof {
            assert(parts@[parts@.len() - 2].deep_view() =~= parts@[parts@.len() - 2]@);
        }
        chars_to_string(&parts[parts.len() - 2])
    } else {
        unknown_string()
    }
}

// ---------- one page's anchors ----------

/// One download anchor as the page extractor hands it over: its link target
/// and the title of its icon image, when present.
pub struct Anchor {
    pub href: String,
    pub title: Option<String>,
}

/// The mathematical model of an `Anchor`.
pub struct AnchorV {
    pub href: Seq<char>,
    pub title: Option<Seq<char>>,
}

impl View for Anchor {
    type V = AnchorV;

    open spec fn view(&self) -> AnchorV {
        AnchorV {
            href: self.href@,
            title: match self.title {
                Some(t) => Some(t@),
                None => None,
            },
        }
    }
}

impl DeepView for Anchor {
    type V = AnchorV;

    open spec fn deep_view(&self) -> AnchorV {
        self.view()
    }
}

/// The raw entry of one anchor: its resolved URL, the id taken from it, and
/// the names parsed from its title. `None` when the link cannot be resolved
/// (that anchor is skipped, never an error).
pub open spec fn spec_entry_of_anchor(base: Seq<char>, a: AnchorV) -> Option<DiscoveredV> {
    match spec_resolve_link(base, a.href) {
        Some(u) => {
            let tf = match a.title {
                Some(t) => spec_title_fields(t),
                None => (unknown(), unknown()),
            };
            Some(
                DiscoveredV {
                    url: u,
                    id: spec_link_id(u),
                    common_name: tf.0,
                    scientific_name: tf.1,
                },
            )
        },
        None => None,
    }
}

/// The raw entries of one page's anchors, in page order.
pub open spec fn spec_extract(base: Seq<char>, anchors: Seq<AnchorV>) -> Seq<DiscoveredV>
    decreases anchors.len(),
{
    if anchors.len() == 0 {
        Seq::empty()
    } else {
        spec_extract(base, anchors.drop_last()) + (match spec_entry_of_anchor(
            base,
            anchors.last(),
        ) {
            Some(d) => seq![d],
            None => Seq::empty(),
        })
    }
}

/// Extract the raw entries of one listing page from its download anchors.
pub fn extract_entries(base: &str, anchors: &Vec<Anchor>) -> (r: Vec<Discovered>)
    ensures
        r.deep_view() == spec_extract(base@, anchors.deep_view()),
{
    let ghost av = anchors.deep_view();
    let mut r: Vec<Discovered> = Vec::new();
    let mut i: usize = 0;
    while i < anchors.len()
        invariant
            i <= anchors@.len(),
            av == anchors.deep_view(),
            r.deep_view() == spec_extract(base@, av.take(i as int)),
        decreases anchors@.len() - i,
    {
        let a = &anchors[i];
        proof {
            assert(av[i as int] == a@);
            assert(av.take(i + 1).drop_last() =~= av.take(i as int));
            assert(av.take(i + 1).last() == av[i as int]);
        }
        match resolve_link(base, a.href.as_str()) {
            Some(u) => {
                let names: (String, String) = match &a.title {
                    Some(t) => parse_title(t.as_str()),
                    None => (unknown_string(), unknown_string()),
                };
                let id = link_id(u.as_str());
                let d = Discovered {
                    url: u,
                    id,
                    common_name: names.0,
                    scientific_name: names.1,
                };
                let ghost dv = d@;
                let ghost r0 = r.deep_view();
                proof {
                    assert(Some(dv) == spec_entry_of_anchor(base@, av[i as int]));
                }
                r.push(d);
                proof {
                    assert(r.deep_view() =~= r0.push(dv));
                    assert(r0.push(dv) =~= r0 + seq![dv]);
                }
            },
            None => {
                proof {
                    assert(spec_extract(base@, av.take(i + 1)) =~= r.deep_view());
                }
            },
        }
        i = i + 1;
    }
    proof {
        assert(av.take(av.len() as int) =~= av);
    }
    r
}

// ---------- the next page ----------

pub open spec fn pg_pat() -> Seq<char> {
    seq!['p', 'g', '=']
}

/// The next page by the numeric fallback: the first `pg=` fragment's number,
/// incremented, with everything around it unchanged. `None` when the URL has
/// no such fragment or its number is not a plain decimal.
pub open spec fn spec_next_numeric(u: Seq<char>) -> Option<Seq<char>> {
    match first_occurrence(u, pg_pat()) {
        None => None,
        Some(i) => {
            let after = u.skip(i + 3);
            let nend = match first_occurrence(after, seq!['&']) {
                Some(j) => j,
                None => after.len() as int,
            };
            let digits = after.take(nend);
            if digits.len() > 0 && all_digits(digits) && digits_val(digits) < u64::MAX {
                Some(u.take(i + 3) + dec_rep(digits_val(digits) + 1) + after.skip(nend))
            } else {
                None
            }
        },
    }
}

/// The next page to fetch: an explicit next link resolved against the
/// current page when one is present and resolvable, else the numeric `pg=`
/// fallback, else none.
pub open spec fn spec_next_page(cur: Seq<char>, next_href: Option<Seq<char>>) -> Option<
    Seq<char>,
> {
    match next_href {
        Some(h) => match spec_resolve_link(cur, h) {
            Some(u) => Some(u),
            None => spec_next_numeric(cur),
        },
        None => spec_next_numeric(cur),
    }
}

fn next_numeric(current: &str) -> (r: Option<String>)
    ensures
        (r is Some) == (spec_next_numeric(current@) is Some),
        r matches Some(u) ==> spec_next_numeric(current@) == Some(u@),
{
    let uv = str_to_chars(current);
    let uv_len: usize = uv.len();
    let pg = {
        let mut p: Vec<char> = Vec::new();
        p.push('p');
        p.push('g');
        p.push('=');
        proof {
            assert(p@ =~= pg_pat());
        }
        p
    };
    let found = find_pat(&uv, &pg, 0);
    match found {
        None => {
            proof {
                lemma_first_occurrence_none(uv@, pg_pat());
            }
            None
        },
        Some(i) => {
            proof {
                lemma_first_occurrence_found(uv@, pg_pat(), i as int);
            }
            let ghost after = uv@.skip(i + 3);
            let mut amp: Vec<char> = Vec::new();
            amp.push('&');
            proof {
                assert(amp@ =~= seq!['&']);
            }
            let nend_abs: usize = match find_pat(&uv, &amp, i + 3) {
                Some(j) => {
                    proof {
                        assert(occurs_at(after, seq!['&'], j - (i + 3))) by {
                            assert(after.subrange(j - (i + 3), j - (i + 3) + 1) =~= uv@.subrange(
                                j as int,
                                j + 1,
                            ));
                        }
                        assert forall|t: int| 0 <= t < j - (i + 3) implies !occurs_at(
                            after,
                            seq!['&'],
                            t,
                        ) by {
                            if occurs_at(after, seq!['&'], t) {
                                assert(uv@.subrange(i + 3 + t, i + 3 + t + 1) =~= after.subrange(
                                    t,
                                    t + 1,
                                ));
                                assert(occurs_at(uv@, seq!['&'], i + 3 + t));
                            }
                        }
                        lemma_first_occurrence_found(after, seq!['&'], j - (i + 3));
                    }
                    j
                },
                None => {
                    proof {
                        assert forall|t: int| !occurs_at(after, seq!['&'], t) by {
                            if 0 <= t && occurs_at(after, seq!['&'], t) {
                                assert(uv@.subrange(i + 3 + t, i + 3 + t + 1) =~= after.subrange(
                                    t,
                                    t + 1,
                                ));
                                assert(occurs_at(uv@, seq!['&'], i + 3 + t));
                            }
                        }
                        lemma_first_occurrence_none(after, seq!['&']);
                    }
                    uv.len()
                },
            };
            let ghost nend = nend_abs - (i + 3);
            proof {
                assert(after.take(nend) =~= uv@.subrange(i + 3, nend_abs as int));
            }
            match parse_digits(&uv, i + 3, nend_abs) {
                Some(n) => {
                    if n < u64::MAX {
                        let mut out = copy_range(&uv, 0, i + 3);
                        push_dec(n + 1, &mut out);
                        let tail = copy_range(&uv, nend_abs, uv.len());
                        push_all(&mut out, &tail);
                        proof {
                            assert(uv@.subrange(0, i + 3) =~= uv@.take(i + 3));
                            assert(uv@.subrange(nend_abs as int, uv@.len() as int) =~= after.skip(
                                nend,
                            ));
                            assert(out@ =~= uv@.take(i + 3) + dec_rep((n + 1) as nat) + after.skip(
                                nend,
                            ));
                        }
                        Some(chars_to_string(&out))
                    } else {
                        None
                    }
                },
                None => {
                    None
                },
            }
        },
    }
}

/// Compute the next page to fetch, or `None` when the crawl has no further
/// page to visit.
pub fn next_page_url(current: &str, next_href: Option<&String>) -> (r: Option<String>)
    ensures
        ({
            let hv = match next_href {
                Some(h) => Some(h@),
                None => None,
            };
            &&& (r is Some) == (spec_next_page(current@, hv) is Some)
            &&& (r matches Some(u) ==> spec_next_page(current@, hv) == Some(u@))
        }),
{
    match next_href {
        Some(h) => match resolve_link(current, h.as_str()) {
            Some(u) => Some(u),
            None => next_numeric(current),
        },
        None => next_numeric(current),
    }
}

// ---------- the crawl driver ----------

/// The state of a crawl: the page to fetch next (`None` once the crawl is
/// over) and everything discovered so far.
pub struct CrawlState {
    pub current_url: Option<String>,
    pub discovered: Vec<Discovered>,
}

/// The mathematical model of a `CrawlState`.
pub struct CrawlStateV {
    pub current_url: Option<Seq<char>>,
    pub discovered: Seq<DiscoveredV>,
}

impl View for CrawlState {
    type V = CrawlStateV;

    open spec fn view(&self) -> CrawlStateV {
        CrawlStateV {
            current_url: match self.current_url {
                Some(u) => Some(u@),
                None => None,
            },
            discovered: self.discovered.deep_view(),
        }
    }
}

impl CrawlState {
    /// Begin a crawl at the given listing URL.
    pub fn start(url: &str) -> (r: CrawlState)
        ensures
            r@.current_url == Some(url@),
            r@.discovered == Seq::<DiscoveredV>::empty(),
    {
        let r = CrawlState { current_url: Some(url.to_owned()), discovered: Vec::new() };
        proof {
            assert(r@.discovered =~= Seq::<DiscoveredV>::empty());
        }
        r
    }

    /// Consume one fetched page: its entries are appended to the discoveries
    /// and the crawl moves to the next page. A page that yields no entries
    /// ends the crawl, whether or not a next-page reference is present.
    pub fn step(&mut self, anchors: &Vec<Anchor>, next_href: Option<&String>)
        requires
            old(self)@.current_url is Some,
        ensures
            ({
                let base = old(self)@.current_url->Some_0;
                let es = spec_extract(base, anchors.deep_view());
                let hv = match next_href {
                    Some(h) => Some(h@),
                    None => None,
                };
                &&& final(self)@.discovered == old(self)@.discovered + es
                &&& final(self)@.current_url == (if es.len() == 0 {
                    None::<Seq<char>>
                } else {
                    spec_next_page(base, hv)
                })
            }),
    {
        let base = match &self.current_url {
            Some(u) => u.clone(),
            None => {
                proof {
                    assert(false);
                }
                unreached()
            },
        };
        let entries = extract_entries(base.as_str(), anchors);
        let ghost d0 = self.discovered.deep_view();
        let ghost ev = entries.deep_view();
        if entries.len() == 0 {
            self.current_url = None;
            proof {
                assert(ev =~= Seq::<DiscoveredV>::empty());
                assert(d0 + ev =~= d0);
            }
        } else {
            let nxt = next_page_url(base.as_str(), next_href);
            proof {
                let hv = match next_href {
                    Some(h) => Some(h@),
                    None => None,
                };
                let sp = spec_next_page(base@, hv);
                match &nxt {
                    Some(u) => {
                        assert(sp == Some(u@));
                    },
                    None => {
                        assert(sp is None);
                    },
                }
            }
            self.current_url = nxt;
            proof {
                let hv = match next_href {
                    Some(h) => Some(h@),
                    None => None,
                };
                assert(base@ == old(self)@.current_url->Some_0);
                assert(self@.current_url == spec_next_page(base@, hv));
                assert(ev.take(0) =~= Seq::<DiscoveredV>::empty());
                assert(d0 + ev.take(0) =~= d0);
            }
            let ghost cur_after = self@.current_url;
            let mut k: usize = 0;
            while k < entries.len()
                invariant
                    k <= entries@.len(),
                    ev == entries.deep_view(),
                    self@.current_url == cur_after,
                    self.discovered.deep_view() == d0 + ev.take(k as int),
                decreases entries@.len() - k,
            {
                let e = &entries[k];
                let c = crate::ledger::clone_discovered(e);
                let ghost cur = self.discovered.deep_view();
                self.discovered.push(c);
                proof {
                    assert(ev[k as int] == e@);
                    assert(self.discovered.deep_view() =~= cur.push(ev[k as int]));
                    assert(d0 + ev.take(k + 1) =~= (d0 + ev.take(k as int)).push(ev[k as int]));
                }
                k = k + 1;
            }
            proof {
                assert(ev.take(ev.len() as int) =~= ev);
            }
        }
    }
}

} // verus!
