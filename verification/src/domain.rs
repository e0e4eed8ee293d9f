//! The link indexer's core: resolving a raw input string into a canonical
//! origin, normalizing the scheme, and classifying the hyperlinks discovered
//! on the domain's page into absolute in-scope URLs.

use vstd::prelude::*;
use vstd::string::*;
use crate::strutil::{has_substr, str_has_substr, lemma_prefix_is_substr};

verus! {

/// The fixed scheme prefix that every canonical origin carries.
pub open spec fn protocol() -> Seq<char> {
    "https://"@
}

/// What scheme normalization returns: the input unchanged when it already
/// contains the scheme prefix, else the prefix concatenated with the input.
pub open spec fn spec_check_protocol(org: Seq<char>) -> Seq<char> {
    if has_substr(org, protocol()) {
        org
    } else {
        protocol() + org
    }
}

/// Ensure an origin string carries the scheme prefix, so that it can be handed
/// to an HTTP client. Pure and total.
pub fn check_protocol(org: String) -> (r: String)
    ensures
        r@ == spec_check_protocol(org@),
{
    if !str_has_substr(org.as_str(), "https://") {
        let mut u = String::from_str("https://");
        u.append(org.as_str());
        return u;
    }
    org
}

/// Scheme normalization is idempotent: normalizing an already normalized
/// string changes nothing.
pub proof fn lemma_check_protocol_idempotent(org: Seq<char>)
    ensures
        spec_check_protocol(spec_check_protocol(org)) == spec_check_protocol(org),
{
    if !has_substr(org, protocol()) {
        lemma_prefix_is_substr(protocol(), org);
    }
}

/// A root-relative link: one that begins with `/`.
pub open spec fn starts_with_slash(link: Seq<char>) -> bool {
    link.len() > 0 && link[0] == '/'
}

/// What one raw link contributes to the indexable list. Both checks run
/// independently: a root-relative link is prefixed with the base, a link that
/// contains the base as a substring is kept unmodified, and a link that
/// satisfies both contributes twice.
pub open spec fn classify_one(base: Seq<char>, link: Seq<char>) -> Seq<Seq<char>> {
    (if starts_with_slash(link) {
        seq![base + link]
    } else {
        Seq::<Seq<char>>::empty()
    }) + (if has_substr(link, base) {
        seq![link]
    } else {
        Seq::<Seq<char>>::empty()
    })
}

/// The classification of a whole sequence of raw links, in order: the
/// concatenation of each link's contribution.
pub open spec fn classify_links(base: Seq<char>, links: Seq<Seq<char>>) -> Seq<Seq<char>>
    decreases links.len(),
{
    if links.len() == 0 {
        Seq::<Seq<char>>::empty()
    } else {
        classify_one(base, links[0]) + classify_links(base, links.drop_first())
    }
}

/// Classification distributes over appending one link at the end.
proof fn lemma_classify_links_push(base: Seq<char>, links: Seq<Seq<char>>, l: Seq<char>)
    ensures
        classify_links(base, links.push(l)) == classify_links(base, links) + classify_one(
            base,
            l,
        ),
    decreases links.len(),
{
    if links.len() == 0 {
        assert(links =~= Seq::<Seq<char>>::empty());
        assert(links.push(l).drop_first() =~= Seq::<Seq<char>>::empty());
        assert(classify_links(base, Seq::<Seq<char>>::empty())
            == Seq::<Seq<char>>::empty());
        assert(links.push(l)[0] == l);
        assert(classify_links(base, links.push(l)) =~= classify_links(base, links) + classify_one(
            base,
            l,
        ));
    } else {
        assert(links.push(l).drop_first() =~= links.drop_first().push(l));
        lemma_classify_links_push(base, links.drop_first(), l);
        let head = classify_one(base, links[0]);
        let tail = classify_links(base, links.drop_first());
        assert(links.push(l)[0] == links[0]);
        assert(classify_links(base, links.push(l)) == head + (tail + classify_one(base, l)));
        assert(head + (tail + classify_one(base, l)) =~= (head + tail) + classify_one(base, l));
    }
}

/// Every URL the classifier emits contains the base as a substring: a
/// prefixed root-relative link carries it at position 0, and a kept link
/// contains it by the very check that kept it.
pub proof fn lemma_classified_contain_base(base: Seq<char>, links: Seq<Seq<char>>)
    ensures
        forall|i: int|
            0 <= i < classify_links(base, links).len() ==> has_substr(
                #[trigger] classify_links(base, links)[i],
                base,
            ),
    decreases links.len(),
{
    if links.len() > 0 {
        lemma_classified_contain_base(base, links.drop_first());
        assert forall|i: int| 0 <= i < classify_links(base, links).len() implies has_substr(
            classify_links(base, links)[i],
            base,
        ) by {
            let head = classify_one(base, links[0]);
            if i < head.len() {
                if starts_with_slash(links[0]) && i == 0 {
                    assert(head[i] == base + links[0]);
                    lemma_prefix_is_substr(base, links[0]);
                } else {
                    assert(head[i] == links[0]);
                    assert(has_substr(links[0], base));
                }
            } else {
                assert(classify_links(base, links)[i] == classify_links(
                    base,
                    links.drop_first(),
                )[i - head.len()]);
            }
        }
    }
}

/// Classify a set of raw href strings against the canonical base, in the
/// order given. For each link, a root-relative one is prefixed with the base,
/// one containing the base is kept as it is, one matching neither is dropped,
/// and one matching both appears twice. No deduplication, no reordering.
pub fn parse_links(base: String, links: Vec<String>) -> (indexables: Vec<String>)
    requires
        links.deep_view().no_duplicates(),
    ensures
        indexables.deep_view() == classify_links(base@, links.deep_view()),
{
    let mut indexables: Vec<String> = Vec::new();
    let ghost all: Seq<Seq<char>> = links.deep_view();
    let n: usize = links.len();
    let mut idx: usize = 0;
    while idx < n
        invariant
            n == links.len(),
            all == links.deep_view(),
            idx <= n,
            indexables.deep_view() == classify_links(base@, all.take(idx as int)),
        decreases n - idx,
    {
        let link: &String = &links[idx];
        proof {
            assert(all[idx as int] == link@);
            assert(all.take(idx as int + 1) =~= all.take(idx as int).push(link@));
            lemma_classify_links_push(base@, all.take(idx as int), link@);
        }
        let ghost dv0 = indexables.deep_view();
        let rooted: bool = if link.as_str().unicode_len() > 0 {
            link.as_str().get_char(0) == '/'
        } else {
            false
        };
        if rooted {
            let full_u: String = base.clone().concat(link.as_str());
            indexables.push(full_u);
        }
        proof {
            assert(indexables.deep_view() =~= dv0 + (if starts_with_slash(link@) {
                seq![base@ + link@]
            } else {
                Seq::<Seq<char>>::empty()
            }));
        }
        let ghost dv1 = indexables.deep_view();
        if str_has_substr(link.as_str(), base.as_str()) {
            indexables.push(link.clone());
        }
        proof {
            assert(indexables.deep_view() =~= dv1 + (if has_substr(link@, base@) {
                seq![link@]
            } else {
                Seq::<Seq<char>>::empty()
            }));
            assert(indexables.deep_view() =~= dv0 + classify_one(base@, link@));
        }
        idx += 1;
    }
    proof {
        assert(all.take(n as int) =~= all);
    }
    indexables
}

/// The deduplication of a sequence: each element's first occurrence, in order
/// of first occurrence. This models the set semantics that the raw hrefs
/// carry upstream of classification.
pub open spec fn dedup_seq(links: Seq<Seq<char>>) -> Seq<Seq<char>>
    decreases links.len(),
{
    if links.len() == 0 {
        Seq::<Seq<char>>::empty()
    } else {
        let rest = dedup_seq(links.drop_last());
        if links.drop_last().contains(links.last()) {
            rest
        } else {
            rest.push(links.last())
        }
    }
}

/// Deduplication keeps exactly the elements of its input.
pub proof fn lemma_dedup_same_elements(links: Seq<Seq<char>>)
    ensures
        forall|x: Seq<char>| #[trigger] dedup_seq(links).contains(x) <==> links.contains(x),
    decreases links.len(),
{
    if links.len() > 0 {
        lemma_dedup_same_elements(links.drop_last());
        assert forall|x: Seq<char>| links.contains(x) implies #[trigger] dedup_seq(
            links,
        ).contains(x) by {
            let rest = dedup_seq(links.drop_last());
            let i = choose|i: int| 0 <= i < links.len() && links[i] == x;
            if i < links.len() - 1 {
                assert(links.drop_last()[i] == x);
                assert(links.drop_last().contains(x));
                assert(rest.contains(x));
                let k = choose|k: int| 0 <= k < rest.len() && rest[k] == x;
                if !links.drop_last().contains(links.last()) {
                    assert(rest.push(links.last())[k] == x);
                }
            } else {
                assert(x == links.last());
                if links.drop_last().contains(links.last()) {
                    assert(rest.contains(x));
                } else {
                    assert(rest.push(links.last())[rest.len() as int] == x);
                }
            }
        }
        assert forall|x: Seq<char>| #[trigger] dedup_seq(links).contains(x) implies links.contains(
            x,
        ) by {
            let rest = dedup_seq(links.drop_last());
            if rest.contains(x) {
                assert(links.drop_last().contains(x));
                let i = choose|i: int| 0 <= i < links.drop_last().len() && links.drop_last()[i]
                    == x;
                assert(links[i] == x);
            } else {
                assert(links[links.len() - 1] == x);
            }
        }
    }
}

/// Deduplication leaves no duplicates behind.
pub proof fn lemma_dedup_no_duplicates(links: Seq<Seq<char>>)
    ensures
        dedup_seq(links).no_duplicates(),
    decreases links.len(),
{
    if links.len() > 0 {
        lemma_dedup_no_duplicates(links.drop_last());
        lemma_dedup_same_elements(links.drop_last());
        let rest = dedup_seq(links.drop_last());
        if !links.drop_last().contains(links.last()) {
            assert(!rest.contains(links.last()));
            assert forall|i: int, j: int|
                0 <= i < j < rest.push(links.last()).len() implies rest.push(links.last())[i]
                != rest.push(links.last())[j] by {
                if j < rest.len() {
                    assert(rest[i] != rest[j]);
                } else {
                    assert(rest.push(links.last())[j] == links.last());
                    if rest[i] == links.last() {
                        assert(rest.contains(links.last()));
                    }
                }
            }
        }
    }
}

/// Whether some element of `v` views as `x`.
fn contains_string(v: &Vec<String>, x: &String) -> (b: bool)
    ensures
        b == v.deep_view().contains(x@),
{
    let n: usize = v.len();
    let mut k: usize = 0;
    while k < n
        invariant
            n == v.len(),
            k <= n,
            forall|t: int| 0 <= t < k ==> v.deep_view()[t] != x@,
        decreases n - k,
    {
        if v[k] == *x {
            proof {
                assert(v.deep_view()[k as int] == x@);
            }
            return true;
        }
        k += 1;
    }
    false
}

/// Remove duplicates, keeping each distinct string's first occurrence in
/// order.
pub fn dedup_links(links: Vec<String>) -> (unique: Vec<String>)
    ensures
        unique.deep_view() == dedup_seq(links.deep_view()),
        unique.deep_view().no_duplicates(),
{
    let mut unique: Vec<String> = Vec::new();
    let ghost all: Seq<Seq<char>> = links.deep_view();
    let n: usize = links.len();
    let mut idx: usize = 0;
    while idx < n
        invariant
            n == links.len(),
            all == links.deep_view(),
            idx <= n,
            unique.deep_view() == dedup_seq(all.take(idx as int)),
        decreases n - idx,
    {
        let link: &String = &links[idx];
        proof {
            assert(all[idx as int] == link@);
            assert(all.take(idx as int + 1).drop_last() =~= all.take(idx as int));
            assert(all.take(idx as int + 1).last() == link@);
            lemma_dedup_same_elements(all.take(idx as int));
        }
        let ghost dv0 = unique.deep_view();
        if !contains_string(&unique, link) {
            unique.push(link.clone());
            proof {
                assert(unique.deep_view() =~= dv0.push(link@));
            }
        }
        idx += 1;
    }
    proof {
        assert(all.take(n as int) =~= all);
        lemma_dedup_no_duplicates(all);
    }
    unique
}

/// Whether `url::Url::parse` accepts the string as an absolute URL; a
/// function of the string alone.
pub uninterp spec fn url_parse_ok(s: Seq<char>) -> bool;

/// The host component that `url::Url::host` reports for the URL parsed from
/// the string, rendered as text; `None` when the URL has no host. A function
/// of the string alone.
pub uninterp spec fn url_host_of(s: Seq<char>) -> Option<Seq<char>>;

#[verifier::external_type_specification]
#[verifier::external_body]
pub struct ExUrlParseError(url::ParseError);

/// Relies on `url::Url::parse` and `url::Url::host`: parsing either yields a
/// URL or a `ParseError`, and both the verdict and the host of the parsed URL
/// depend on the input string alone.
#[verifier::external_body]
fn parse_url_host(input: &str) -> (r: Result<Option<String>, url::ParseError>)
    ensures
        r is Ok <==> url_parse_ok(input@),
        (r matches Ok(Some(h)) ==> url_host_of(input@) == Some(h@)),
        (r matches Ok(None) ==> url_host_of(input@) is None),
{
    match url::Url::parse(input) {
        Ok(u) => Ok(u.host().map(|h| h.to_string())),
        Err(e) => Err(e),
    }
}

/// The sequence of `href` attribute values of the anchor elements of an HTML
/// document, in document order, duplicates included; a function of the
/// document text alone.
pub uninterp spec fn hrefs_of(doc: Seq<char>) -> Seq<Seq<char>>;

/// Relies on `select`'s `Document` parsing, `Name("a")` matching and
/// `Node::attr`: the anchor elements of a document and their `href`
/// attributes are a function of the document text, found in document order.
#[verifier::external_body]
fn extract_hrefs(doc: &str) -> (r: Vec<String>)
    ensures
        r.deep_view() == hrefs_of(doc@),
{
    select::document::Document::from(doc)
        .find(select::predicate::Name("a"))
        .filter_map(|n| n.attr("href"))
        .map(|s| s.to_owned())
        .collect()
}

/// How an operation on a domain fails.
#[derive(Debug)]
pub enum RError {
    /// The raw input string is not a parseable URL.
    Parse(url::ParseError),
    /// The input parsed, but the URL carries no host; constructing an origin
    /// from it would silently produce an empty host, so it is rejected
    /// loudly instead.
    MissingHost,
    /// The page for the domain could not be fetched or its body could not be
    /// read as text. Produced by the caller that performs the network
    /// request; the in-memory processing here never fails this way.
    Fetch(String),
}

/// One domain to index: its canonical origin and the in-scope URLs found on
/// its page.
#[derive(Debug)]
pub struct Domain {
    /// Canonical absolute origin: the fixed scheme prefix followed by the
    /// host, never a path, query or fragment.
    pub base: String,
    /// The absolute URLs discovered on the fetched page that belong to this
    /// domain; empty until link processing runs.
    pub indexables: Vec<String>,
    /// The bare host, without a scheme.
    pub host: String,
}

impl Domain {
    /// The structural invariant: the base is exactly the scheme prefix
    /// concatenated with the host.
    pub open spec fn wf(self) -> bool {
        self.base@ == protocol() + self.host@
    }

    /// Parse the input string, and build the domain with its canonical base
    /// formed from the parsed host. Fails on unparseable input, and on a URL
    /// without a host.
    pub fn new(input_arg: String) -> (r: Result<Self, RError>)
        ensures
            r is Ok <==> url_parse_ok(input_arg@) && url_host_of(input_arg@) is Some,
            (r matches Ok(d) ==> {
                &&& url_host_of(input_arg@) == Some(d.host@)
                &&& d.base@ == protocol() + d.host@
                &&& d.wf()
                &&& d.indexables@.len() == 0
            }),
            (r matches Err(e) ==> {
                &&& e is Parse <==> !url_parse_ok(input_arg@)
                &&& e is MissingHost <==> url_parse_ok(input_arg@) && url_host_of(
                    input_arg@,
                ) is None
            }),
    {
        match parse_url_host(input_arg.as_str()) {
            Err(e) => Err(RError::Parse(e)),
            Ok(None) => Err(RError::MissingHost),
            Ok(Some(origin)) => {
                let mut u = String::from_str("https://");
                u.append(origin.as_str());
                Ok(Domain { base: u, indexables: Vec::new(), host: origin })
            },
        }
    }

    /// Process the text of the domain's fetched page: collect the set of raw
    /// anchor hrefs (unique, in order of first occurrence) and classify them
    /// against the base into the indexable list. The base and host are left
    /// untouched, and every stored URL contains the base as a substring.
    pub fn process_links(&mut self, body: &str)
        ensures
            final(self).base == old(self).base,
            final(self).host == old(self).host,
            final(self).indexables.deep_view() == classify_links(
                old(self).base@,
                dedup_seq(hrefs_of(body@)),
            ),
            forall|i: int|
                0 <= i < final(self).indexables.deep_view().len() ==> has_substr(
                    #[trigger] final(self).indexables.deep_view()[i],
                    old(self).base@,
                ),
    {
        let raw: Vec<String> = extract_hrefs(body);
        let unique: Vec<String> = dedup_links(raw);
        let indexables = parse_links(self.base.clone(), unique);
        proof {
            lemma_classified_contain_base(self.base@, dedup_seq(hrefs_of(body@)));
        }
        self.indexables = indexables;
    }
}

} // verus!
