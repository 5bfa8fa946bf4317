//! Latent links: nearest-neighbour candidates for arbitrary text, with
//! a bounded LRU over recent queries keyed by a content hash. The cache
//! holds the unfiltered candidate list, because the exclusion and the
//! threshold may change between calls while the underlying neighbours
//! for the same content do not.

use vstd::prelude::*;
use sha2::Digest;
use crate::chars::str_eq;
use crate::numstr::digit_char;
use crate::words::{word_count, word_count_spec};

verus! {

/// One latent-link candidate: a similar note with its score in
/// millionths and a display snippet.
#[derive(Clone)]
pub struct LatentLink {
    pub note_id: String,
    pub title: String,
    pub similarity_micros: i64,
    pub snippet: String,
}

/// The number of recent queries the cache keeps.
pub const LINK_CACHE_CAP: usize = 64;

/// The SHA-256 digest of a string's bytes. What the digest is on given
/// input is not axiomatized; only its length is.
pub uninterp spec fn sha256_of(s: Seq<char>) -> Seq<u8>;

/// Computes the SHA-256 digest of a string.
/// Relies on `sha2::Sha256` (via the `Digest` trait): the digest is a
/// function of the input bytes alone and is 32 bytes long.
#[verifier::external_body]
fn sha256_str(s: &str) -> (r: Vec<u8>)
    ensures
        r@ == sha256_of(s@),
        r@.len() == 32,
{
    sha2::Sha256::digest(s.as_bytes()).to_vec()
}

/// The lower-case hex digit for a value below sixteen.
pub open spec fn hex_digit(d: int) -> char {
    if d < 10 {
        digit_char(d)
    } else {
        ((0x57 + d) as u8) as char
    }
}

/// Lower-case hex encoding: two digits per byte.
pub open spec fn hex_of(b: Seq<u8>) -> Seq<char>
    decreases b.len(),
{
    if b.len() == 0 {
        Seq::empty()
    } else {
        seq![hex_digit(b[0] as int / 16), hex_digit(b[0] as int % 16)] + hex_of(b.drop_first())
    }
}

proof fn lemma_hex_len(b: Seq<u8>)
    ensures
        hex_of(b).len() == 2 * b.len(),
    decreases b.len(),
{
    if b.len() > 0 {
        lemma_hex_len(b.drop_first());
    }
}

/// Encodes bytes as lower-case hex.
/// Relies on `hex::encode`: each input byte becomes two lower-case hex
/// digits, high nibble first.
#[verifier::external_body]
fn hex_encode(b: &Vec<u8>) -> (r: String)
    ensures
        r@ == hex_of(b@),
{
    hex::encode(b)
}

/// The cache key for a content string: the hex form of its digest.
pub open spec fn content_hash_spec(s: Seq<char>) -> Seq<char> {
    hex_of(sha256_of(s))
}

/// Hashes a content string into its cache key.
pub fn content_hash(s: &str) -> (r: String)
    ensures
        r@ == content_hash_spec(s@),
        r@.len() == 64,
{
    let digest = sha256_str(s);
    let hexed = hex_encode(&digest);
    proof {
        lemma_hex_len(digest@);
    }
    hexed
}

/// The empty cache contents.
pub open spec fn empty_links_map() -> Map<Seq<char>, Seq<LatentLink>> {
    Map::empty()
}

/// What a bounded query cache holds, as a map from key to cached list.
pub uninterp spec fn lru_contents(c: lru::LruCache<String, Vec<LatentLink>>) -> Map<
    Seq<char>,
    Seq<LatentLink>,
>;

#[verifier::external_type_specification]
#[verifier::external_body]
#[verifier::reject_recursive_types(K)]
#[verifier::reject_recursive_types(V)]
#[verifier::reject_recursive_types(S)]
pub struct ExLruCache<K, V, S>(lru::LruCache<K, V, S>);

/// Creates the bounded query cache.
/// Relies on `lru::LruCache::new`: the new cache is empty and holds at
/// most the given number of entries.
#[verifier::external_body]
fn lru_new() -> (r: lru::LruCache<String, Vec<LatentLink>>)
    ensures
        lru_contents(r) == empty_links_map(),
{
    lru::LruCache::new(std::num::NonZeroUsize::new(64).unwrap())
}

/// Looks a key up, marking it most recently used.
/// Relies on `lru::LruCache::get`: returns the value stored for the key
/// or nothing; the contents do not change, only the recency order.
#[verifier::external_body]
fn lru_get(c: &mut lru::LruCache<String, Vec<LatentLink>>, key: &str) -> (r: Option<
    Vec<LatentLink>,
>)
    ensures
        lru_contents(*final(c)) == lru_contents(*old(c)),
        match r {
            Some(v) => lru_contents(*old(c)).contains_key(key@) && v@ == lru_contents(
                *old(c),
            )[key@],
            None => !lru_contents(*old(c)).contains_key(key@),
        },
{
    c.get(key).map(|v| v.clone())
}

/// Stores a value under a key.
/// Relies on `lru::LruCache::put`: the pair is inserted, replacing any
/// entry for the key; at capacity the least-recently-used entry is
/// evicted, so every other surviving entry kept its value.
#[verifier::external_body]
fn lru_put(c: &mut lru::LruCache<String, Vec<LatentLink>>, key: String, v: Vec<LatentLink>)
    ensures
        lru_contents(*final(c)).contains_key(key@),
        lru_contents(*final(c))[key@] == v@,
        forall|k2: Seq<char>|
            #[trigger] lru_contents(*final(c)).contains_key(k2) ==> k2 == key@ || (lru_contents(
                *old(c),
            ).contains_key(k2) && lru_contents(*final(c))[k2] == lru_contents(*old(c))[k2]),
{
    let _ = c.put(key, v);
}

/// The candidates that survive the per-call filters, in cached order.
pub open spec fn links_kept(
    links: Seq<LatentLink>,
    exclude: Option<Seq<char>>,
    threshold_micros: i64,
) -> Seq<LatentLink>
    decreases links.len(),
{
    if links.len() == 0 {
        Seq::empty()
    } else if (match exclude {
        Some(e) => links.last().note_id@ == e,
        None => false,
    }) || links.last().similarity_micros < threshold_micros {
        links_kept(links.drop_last(), exclude, threshold_micros)
    } else {
        links_kept(links.drop_last(), exclude, threshold_micros).push(links.last())
    }
}

/// What the per-call filtering returns: the survivors cut to `limit`.
pub open spec fn filter_links_spec(
    links: Seq<LatentLink>,
    exclude: Option<Seq<char>>,
    threshold_micros: i64,
    limit: int,
) -> Seq<LatentLink> {
    let kept = links_kept(links, exclude, threshold_micros);
    if limit < kept.len() {
        kept.take(limit)
    } else {
        kept
    }
}

fn clone_link(l: &LatentLink) -> (r: LatentLink)
    ensures
        r == *l,
{
    LatentLink {
        note_id: l.note_id.clone(),
        title: l.title.clone(),
        similarity_micros: l.similarity_micros,
        snippet: l.snippet.clone(),
    }
}

/// Applies the exclusion, the threshold and the limit to a candidate
/// list.
pub fn filter_links(
    links: &Vec<LatentLink>,
    exclude: Option<&str>,
    threshold_micros: i64,
    limit: usize,
) -> (r: Vec<LatentLink>)
    ensures
        r@ == filter_links_spec(
            links@,
            match exclude {
                Some(e) => Some(e@),
                None => None,
            },
            threshold_micros,
            limit as int,
        ),
{
    let ghost ex: Option<Seq<char>> = match exclude {
        Some(e) => Some(e@),
        None => None,
    };
    let mut out: Vec<LatentLink> = Vec::new();
    let mut i: usize = 0;
    proof {
        assert(links@.take(0) =~= Seq::<LatentLink>::empty());
    }
    while i < links.len() && out.len() < limit
        invariant
            i <= links@.len(),
            ex == (match exclude {
                Some(e) => Some(e@),
                None => None,
            }),
            out@ == links_kept(links@.take(i as int), ex, threshold_micros),
            out@.len() <= limit,
            forall|x: int|
                0 <= x < links_kept(links@.take(i as int), ex, threshold_micros).len()
                    ==> #[trigger] links_kept(links@.take(i as int), ex, threshold_micros)[x]
                    == links_kept(links@, ex, threshold_micros)[x],
            links_kept(links@.take(i as int), ex, threshold_micros).len() <= links_kept(
                links@,
                ex,
                threshold_micros,
            ).len(),
            out@.len() == limit ==> links_kept(links@, ex, threshold_micros).len() >= limit,
        decreases links@.len() - i,
    {
        proof {
            lemma_links_kept_prefix(links@, ex, threshold_micros, i as int);
        }
        let l = &links[i];
        let excluded: bool = match exclude {
            Some(e) => str_eq(l.note_id.as_str(), e),
            None => false,
        };
        if !excluded && l.similarity_micros >= threshold_micros {
            out.push(clone_link(l));
            proof {
                assert(links_kept(links@.take(i + 1), ex, threshold_micros) == links_kept(
                    links@.take(i as int),
                    ex,
                    threshold_micros,
                ).push(links@[i as int])) by {
                    assert(links@.take(i + 1).drop_last() =~= links@.take(i as int));
                    assert(links@.take(i + 1).last() == links@[i as int]);
                }
            }
        } else {
            proof {
                assert(links_kept(links@.take(i + 1), ex, threshold_micros) == links_kept(
                    links@.take(i as int),
                    ex,
                    threshold_micros,
                )) by {
                    assert(links@.take(i + 1).drop_last() =~= links@.take(i as int));
                    assert(links@.take(i + 1).last() == links@[i as int]);
                }
            }
        }
        proof {
            if i + 1 < links@.len() {
                lemma_links_kept_prefix(links@, ex, threshold_micros, i + 1);
            } else {
                assert(links@.take(i + 1) =~= links@);
            }
        }
        i = i + 1;
    }
    proof {
        let kept = links_kept(links@, ex, threshold_micros);
        if i == links@.len() {
            assert(links@.take(i as int) =~= links@);
            assert(out@ =~= filter_links_spec(links@, ex, threshold_micros, limit as int));
        } else {
            assert(out@.len() == limit);
            assert(out@ =~= kept.take(limit as int));
        }
    }
    out
}

proof fn lemma_links_kept_prefix(
    links: Seq<LatentLink>,
    ex: Option<Seq<char>>,
    t: i64,
    j: int,
)
    requires
        0 <= j < links.len(),
    ensures
        forall|x: int|
            0 <= x < links_kept(links.take(j), ex, t).len() ==> #[trigger] links_kept(
                links.take(j),
                ex,
                t,
            )[x] == links_kept(links, ex, t)[x],
        links_kept(links.take(j), ex, t).len() <= links_kept(links, ex, t).len(),
        links_kept(links.take(j), ex, t).len() <= j,
    decreases links.len(),
{
    let dl = links.drop_last();
    lemma_links_kept_len(links.take(j), ex, t);
    if j == links.len() - 1 {
        assert(links.take(j) =~= dl);
    } else {
        assert(dl.take(j) =~= links.take(j));
        lemma_links_kept_prefix(dl, ex, t, j);
        assert forall|x: int|
            0 <= x < links_kept(links.take(j), ex, t).len() implies #[trigger] links_kept(
            links.take(j),
            ex,
            t,
        )[x] == links_kept(links, ex, t)[x] by {
            assert(links_kept(links.take(j), ex, t)[x] == links_kept(dl.take(j), ex, t)[x]);
            assert(links_kept(dl.take(j), ex, t)[x] == links_kept(dl, ex, t)[x]);
            assert(x < links_kept(dl, ex, t).len());
            assert(links_kept(dl, ex, t)[x] == links_kept(links, ex, t)[x]);
        }
    }
}

proof fn lemma_links_kept_len(links: Seq<LatentLink>, ex: Option<Seq<char>>, t: i64)
    ensures
        links_kept(links, ex, t).len() <= links.len(),
    decreases links.len(),
{
    if links.len() > 0 {
        lemma_links_kept_len(links.drop_last(), ex, t);
    }
}

/// The bounded cache of recent latent-link queries.
pub struct LinkCache {
    cache: lru::LruCache<String, Vec<LatentLink>>,
}

impl LinkCache {
    /// The cached candidate lists, by content-hash key.
    pub closed spec fn view_map(&self) -> Map<Seq<char>, Seq<LatentLink>> {
        lru_contents(self.cache)
    }

    pub fn new() -> (r: LinkCache)
        ensures
            r.view_map() == empty_links_map(),
    {
        LinkCache { cache: lru_new() }
    }

    /// Answers a query from the cache. Content with fewer than three
    /// words yields an empty list without touching the cache or the
    /// vector index; a miss returns nothing and the caller fetches
    /// candidates and calls `store`.
    pub fn lookup(
        &mut self,
        content: &str,
        exclude: Option<&str>,
        threshold_micros: i64,
        limit: usize,
    ) -> (r: Option<Vec<LatentLink>>)
        ensures
            final(self).view_map() == old(self).view_map(),
            word_count_spec(content@) < 3 ==> (r matches Some(v) && v@.len() == 0),
            word_count_spec(content@) >= 3 ==> match r {
                Some(v) => old(self).view_map().contains_key(content_hash_spec(content@)) && v@
                    == filter_links_spec(
                    old(self).view_map()[content_hash_spec(content@)],
                    match exclude {
                        Some(e) => Some(e@),
                        None => None,
                    },
                    threshold_micros,
                    limit as int,
                ),
                None => !old(self).view_map().contains_key(content_hash_spec(content@)),
            },
    {
        if word_count(content) < 3 {
            return Some(Vec::new());
        }
        let key = content_hash(content);
        match lru_get(&mut self.cache, key.as_str()) {
            Some(cached) => Some(filter_links(&cached, exclude, threshold_micros, limit)),
            None => None,
        }
    }

    /// Caches a freshly fetched candidate list under the content's hash
    /// and returns its filtered form.
    pub fn store(
        &mut self,
        content: &str,
        candidates: Vec<LatentLink>,
        exclude: Option<&str>,
        threshold_micros: i64,
        limit: usize,
    ) -> (r: Vec<LatentLink>)
        ensures
            final(self).view_map().contains_key(content_hash_spec(content@)),
            final(self).view_map()[content_hash_spec(content@)] == candidates@,
            forall|k2: Seq<char>|
                #[trigger] final(self).view_map().contains_key(k2) ==> k2 == content_hash_spec(
                    content@,
                ) || (old(self).view_map().contains_key(k2) && final(self).view_map()[k2] == old(
                    self,
                ).view_map()[k2]),
            r@ == filter_links_spec(
                candidates@,
                match exclude {
                    Some(e) => Some(e@),
                    None => None,
                },
                threshold_micros,
                limit as int,
            ),
    {
        let key = content_hash(content);
        let out = filter_links(&candidates, exclude, threshold_micros, limit);
        lru_put(&mut self.cache, key, candidates);
        out
    }
}

} // verus!
